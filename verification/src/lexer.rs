//! The tokenizer: turns one line of Markdown text into a flat sequence of
//! tokens.  It works on grapheme clusters, so combining characters and
//! multi-codepoint emoji are single units.
//!
//! `spec_tokenize` is the mathematical statement of the whole rule set:
//! per position, in priority order, emphasis runs, code ticks and fences,
//! escapes, dashes, brackets, blockquote and table markers, raw HTML tags,
//! ordered-list markers, tabs (a tab character or four spaces), spaces,
//! newlines and punctuation; everything else accumulates into text.
//! `tokenize` is proved to return exactly that sequence for every input.

use vstd::prelude::*;

use crate::types::{strings_view, tokens_view, Token, TokenModel};
use crate::unicode::{
    concat_graphemes, grapheme_split, is_currency_symbol_char, is_punctuation_char,
    split_graphemes, unicode_currency_symbol, unicode_punctuation,
};
use crate::utils::{push_buffer_to_collection, string_is_char};

verus! {

/// The token, if any, that a flushed text buffer contributes.
pub open spec fn flush_model(buf: Seq<char>) -> Seq<TokenModel> {
    if buf.len() == 0 {
        Seq::empty()
    } else {
        seq![TokenModel::Text(buf)]
    }
}

/// Whether a grapheme is a single digit.
pub open spec fn spec_is_digit_grapheme(g: Seq<char>) -> bool {
    g.len() == 1 && ('0' as u32) <= (g[0] as u32) && (g[0] as u32) <= ('9' as u32)
}

/// Whether a grapheme is a single punctuation or currency-symbol
/// character.
pub open spec fn spec_is_punct_grapheme(g: Seq<char>) -> bool {
    g.len() == 1 && (unicode_punctuation(g[0]) || unicode_currency_symbol(g[0]))
}

/// The length of the maximal run of graphemes equal to `c` starting at
/// `i`.
pub open spec fn run_length_from(gs: Seq<Seq<char>>, i: int, c: char) -> nat
    decreases gs.len() - i,
{
    if i < 0 || i >= gs.len() || gs[i] != seq![c] {
        0
    } else {
        (1 + run_length_from(gs, i + 1, c)) as nat
    }
}

/// How far ahead of `i` the next `>` grapheme lies; past the end of the
/// line, the offset runs to the end.
pub open spec fn gt_offset(gs: Seq<Seq<char>>, i: int) -> nat
    decreases gs.len() - i,
{
    if i < 0 || i >= gs.len() {
        0
    } else if gs[i] == seq!['>'] {
        0
    } else {
        (1 + gt_offset(gs, i + 1)) as nat
    }
}

/// The concatenation of the graphemes in `[i, j)`.
pub open spec fn concat_range(gs: Seq<Seq<char>>, i: int, j: int) -> Seq<char>
    decreases j - i,
{
    if i >= j {
        Seq::empty()
    } else {
        concat_range(gs, i, j - 1) + gs[j - 1]
    }
}

/// The tokens of the line whose graphemes are `gs`, from position `i`
/// onward, given the tokens already emitted and the pending text buffer.
/// This mirrors, rule for rule, what one step of the tokenizer does.
pub open spec fn spec_tokenize_from(
    gs: Seq<Seq<char>>,
    i: int,
    acc: Seq<TokenModel>,
    buf: Seq<char>,
) -> Seq<TokenModel>
    decreases gs.len() - i,
{
    if i < 0 {
        acc
    } else if i >= gs.len() {
        acc + flush_model(buf)
    } else {
        let g = gs[i];
        if g == seq!['*'] || g == seq!['_'] {
            let n = run_length_from(gs, i, g[0]) as int;
            let next = if i + n <= gs.len() {
                i + n
            } else {
                gs.len() as int
            };
            spec_tokenize_from(
                gs,
                next,
                acc + flush_model(buf) + seq![
                    TokenModel::EmphasisRun { delimiter: g[0], length: n },
                ],
                Seq::empty(),
            )
        } else if g == seq!['`'] {
            if gs.len() - i > 2 && gs[i + 1] == seq!['`'] && gs[i + 2] == seq!['`'] {
                spec_tokenize_from(
                    gs,
                    i + 3,
                    acc + flush_model(buf) + seq![TokenModel::CodeFence],
                    Seq::empty(),
                )
            } else {
                spec_tokenize_from(
                    gs,
                    i + 1,
                    acc + flush_model(buf) + seq![TokenModel::CodeTick],
                    Seq::empty(),
                )
            }
        } else if g == seq!['\\'] {
            if gs.len() - i > 1 {
                spec_tokenize_from(
                    gs,
                    i + 2,
                    acc + flush_model(buf) + seq![TokenModel::Escape(gs[i + 1])],
                    Seq::empty(),
                )
            } else {
                spec_tokenize_from(gs, i + 1, acc + flush_model(buf), seq!['\\'])
            }
        } else if g == seq!['-'] {
            if gs.len() - i > 2 && gs[i + 1] == seq!['-'] && gs[i + 2] == seq!['-'] {
                spec_tokenize_from(
                    gs,
                    i + 3,
                    acc + flush_model(buf) + seq![TokenModel::ThematicBreak],
                    Seq::empty(),
                )
            } else {
                spec_tokenize_from(
                    gs,
                    i + 1,
                    acc + flush_model(buf) + seq![TokenModel::Punctuation(seq!['-'])],
                    Seq::empty(),
                )
            }
        } else if g == seq!['['] {
            spec_tokenize_from(
                gs,
                i + 1,
                acc + flush_model(buf) + seq![TokenModel::OpenBracket],
                Seq::empty(),
            )
        } else if g == seq![']'] {
            spec_tokenize_from(
                gs,
                i + 1,
                acc + flush_model(buf) + seq![TokenModel::CloseBracket],
                Seq::empty(),
            )
        } else if g == seq!['('] {
            spec_tokenize_from(
                gs,
                i + 1,
                acc + flush_model(buf) + seq![TokenModel::OpenParenthesis],
                Seq::empty(),
            )
        } else if g == seq![')'] {
            spec_tokenize_from(
                gs,
                i + 1,
                acc + flush_model(buf) + seq![TokenModel::CloseParenthesis],
                Seq::empty(),
            )
        } else if g == seq!['>'] {
            spec_tokenize_from(
                gs,
                i + 1,
                acc + flush_model(buf) + seq![TokenModel::BlockQuoteMarker],
                Seq::empty(),
            )
        } else if g == seq!['|'] {
            spec_tokenize_from(
                gs,
                i + 1,
                acc + flush_model(buf) + seq![TokenModel::TableCellSeparator],
                Seq::empty(),
            )
        } else if g == seq!['<'] {
            let off = gt_offset(gs, i) as int;
            if i + off < gs.len() {
                spec_tokenize_from(
                    gs,
                    i + off + 1,
                    acc + flush_model(buf) + seq![
                        TokenModel::RawHtmlTag(concat_range(gs, i, i + off + 1)),
                    ],
                    Seq::empty(),
                )
            } else {
                spec_tokenize_from(
                    gs,
                    gs.len() as int,
                    acc,
                    buf + concat_range(gs, i, gs.len() as int),
                )
            }
        } else if spec_is_digit_grapheme(g) {
            if gs.len() - i > 2 && gs[i + 1] == seq!['.'] && gs[i + 2] == seq![' '] && (i == 0 || (
            acc.len() > 0 && acc.last() is Tab)) {
                spec_tokenize_from(
                    gs,
                    i + 2,
                    acc + flush_model(buf) + seq![
                        TokenModel::OrderedListMarker(g + seq!['.']),
                    ],
                    Seq::empty(),
                )
            } else {
                spec_tokenize_from(gs, i + 1, acc, buf + g)
            }
        } else if g == seq!['\t'] {
            spec_tokenize_from(
                gs,
                i + 1,
                acc + flush_model(buf) + seq![TokenModel::Tab],
                Seq::empty(),
            )
        } else if g == seq![' '] {
            if gs.len() - i > 3 && gs[i + 1] == seq![' '] && gs[i + 2] == seq![' '] && gs[i + 3]
                == seq![' '] {
                spec_tokenize_from(
                    gs,
                    i + 4,
                    acc + flush_model(buf) + seq![TokenModel::Tab],
                    Seq::empty(),
                )
            } else {
                spec_tokenize_from(
                    gs,
                    i + 1,
                    acc + flush_model(buf) + seq![TokenModel::Whitespace],
                    Seq::empty(),
                )
            }
        } else if g.len() == 0 || g == seq!['\n'] {
            spec_tokenize_from(
                gs,
                i + 1,
                acc + flush_model(buf) + seq![TokenModel::Newline],
                Seq::empty(),
            )
        } else if spec_is_punct_grapheme(g) {
            spec_tokenize_from(
                gs,
                i + 1,
                acc + flush_model(buf) + seq![TokenModel::Punctuation(g)],
                Seq::empty(),
            )
        } else {
            spec_tokenize_from(gs, i + 1, acc, buf + g)
        }
    }
}

/// The tokens of one line of Markdown text: an empty line is exactly one
/// `Newline`; any other line is tokenized grapheme by grapheme.
pub open spec fn spec_tokenize(s: Seq<char>) -> Seq<TokenModel> {
    if s.len() == 0 {
        seq![TokenModel::Newline]
    } else {
        spec_tokenize_from(grapheme_split(s), 0, Seq::empty(), Seq::empty())
    }
}

/// Whether the grapheme is a single digit.
fn grapheme_is_digit(g: &String) -> (r: bool)
    ensures
        r == spec_is_digit_grapheme(g@),
{
    let s = g.as_str();
    if s.unicode_len() == 1 {
        let c0 = s.get_char(0);
        let x = c0 as u32;
        ('0' as u32) <= x && x <= ('9' as u32)
    } else {
        false
    }
}

/// Whether the grapheme is a single punctuation or currency-symbol
/// character.
fn is_punctuation(g: &String) -> (r: bool)
    ensures
        r == spec_is_punct_grapheme(g@),
{
    let s = g.as_str();
    if s.unicode_len() == 1 {
        let c0 = s.get_char(0);
        is_punctuation_char(c0) || is_currency_symbol_char(c0)
    } else {
        false
    }
}

/// A maximal run of `n` graphemes equal to `c` from `i`, ended by the line
/// or a different grapheme, is what `run_length_from` counts.
proof fn lemma_run_length(gs: Seq<Seq<char>>, i: int, c: char, n: int)
    requires
        0 <= i,
        0 <= n,
        i + n <= gs.len(),
        forall|k: int| i <= k < i + n ==> gs[k] == seq![c],
        i + n == gs.len() || gs[i + n] != seq![c],
    ensures
        run_length_from(gs, i, c) == n,
    decreases n,
{
    if n > 0 {
        assert(gs[i] == seq![c]);
        lemma_run_length(gs, i + 1, c, n - 1);
    }
}

/// A scan that passes `n` graphemes other than `>` and then stops at `>`
/// or at the end of the line is what `gt_offset` counts.
proof fn lemma_gt_offset(gs: Seq<Seq<char>>, i: int, n: int)
    requires
        0 <= i,
        0 <= n,
        i + n <= gs.len(),
        forall|k: int| i <= k < i + n ==> gs[k] != seq!['>'],
        i + n == gs.len() || gs[i + n] == seq!['>'],
    ensures
        gt_offset(gs, i) == n,
    decreases n,
{
    if n > 0 {
        assert(gs[i] != seq!['>']);
        lemma_gt_offset(gs, i + 1, n - 1);
    }
}

/// Flushes the buffer and then emits one token: the token stream grows by
/// the flushed text, if any, and the token.
fn flush_push(tokens: &mut Vec<Token>, buffer: &mut String, tok: Token)
    ensures
        tokens_view(final(tokens)@) == tokens_view(old(tokens)@) + flush_model(old(buffer)@)
            + seq![tok@],
        final(buffer)@ == Seq::<char>::empty(),
{
    let ghost tokm = tok@;
    push_buffer_to_collection(tokens, buffer);
    tokens.push(tok);
    proof {
        assert(buffer@ =~= Seq::<char>::empty());
        assert(tokens_view(tokens@) =~= tokens_view(old(tokens)@) + flush_model(old(buffer)@)
            + seq![tokm]);
    }
}

/// Tokenizes a line of Markdown text into a vector of tokens, treating
/// grapheme clusters as single units.  Total: every string of any shape
/// is accepted.
pub fn tokenize(markdown_line: &str) -> (r: Vec<Token>)
    ensures
        tokens_view(r@) == spec_tokenize(markdown_line@),
{
    if markdown_line.is_empty() {
        let mut tokens: Vec<Token> = Vec::new();
        tokens.push(Token::Newline);
        proof {
            assert(tokens_view(tokens@) =~= seq![TokenModel::Newline]);
        }
        return tokens;
    }

    let chars = split_graphemes(markdown_line);
    let ghost gs = grapheme_split(markdown_line@);
    let str_len = chars.len();

    let mut tokens: Vec<Token> = Vec::new();
    let mut buffer: String = String::new();
    let ghost goal = spec_tokenize_from(gs, 0, Seq::empty(), Seq::empty());
    proof {
        assert(tokens_view(tokens@) =~= Seq::<TokenModel>::empty());
    }

    let mut i: usize = 0;
    while i < str_len
        invariant
            str_len == chars@.len(),
            strings_view(chars@) == gs,
            i <= str_len,
            spec_tokenize_from(gs, i as int, tokens_view(tokens@), buffer@) == goal,
        decreases str_len - i,
    {
        let ghost acc0 = tokens_view(tokens@);
        let ghost buf0 = buffer@;
        let ghost i0 = i as int;
        proof {
            assert(gs[i0] == chars@[i0]@);
        }

        let is_star = string_is_char(&chars[i], '*');
        let is_underscore = string_is_char(&chars[i], '_');
        if is_star || is_underscore {
            let d = if is_star {
                '*'
            } else {
                '_'
            };
            proof {
                assert(gs[i0][0] == d);
            }
            let mut run: usize = 1;
            while run < str_len - i && string_is_char(&chars[i + run], d)
                invariant
                    str_len == chars@.len(),
                    strings_view(chars@) == gs,
                    i < str_len,
                    1 <= run,
                    i + run <= str_len,
                    forall|k: int| i <= k < i + run ==> gs[k] == seq![d],
                decreases str_len - i - run,
            {
                run = run + 1;
            }
            proof {
                lemma_run_length(gs, i0, d, run as int);
            }
            flush_push(&mut tokens, &mut buffer, Token::EmphasisRun { delimiter: d, length: run });
            i = i + run;
        } else if string_is_char(&chars[i], '`') {
            if str_len - i > 2 && string_is_char(&chars[i + 1], '`') && string_is_char(
                &chars[i + 2],
                '`',
            ) {
                flush_push(&mut tokens, &mut buffer, Token::CodeFence);
                i = i + 3;
            } else {
                flush_push(&mut tokens, &mut buffer, Token::CodeTick);
                i = i + 1;
            }
        } else if string_is_char(&chars[i], '\\') {
            if str_len - i > 1 {
                flush_push(&mut tokens, &mut buffer, Token::Escape(chars[i + 1].clone()));
                i = i + 2;
            } else {
                push_buffer_to_collection(&mut tokens, &mut buffer);
                buffer.append("\\");
                proof {
                    reveal_strlit("\\");
                    assert(buffer@ =~= seq!['\\']);
                    assert(tokens_view(tokens@) =~= acc0 + flush_model(buf0));
                }
                i = i + 1;
            }
        } else if string_is_char(&chars[i], '-') {
            if str_len - i > 2 && string_is_char(&chars[i + 1], '-') && string_is_char(
                &chars[i + 2],
                '-',
            ) {
                flush_push(&mut tokens, &mut buffer, Token::ThematicBreak);
                i = i + 3;
            } else {
                let dash = crate::unicode::char_to_string('-');
                flush_push(&mut tokens, &mut buffer, Token::Punctuation(dash));
                i = i + 1;
            }
        } else if string_is_char(&chars[i], '[') {
            flush_push(&mut tokens, &mut buffer, Token::OpenBracket);
            i = i + 1;
        } else if string_is_char(&chars[i], ']') {
            flush_push(&mut tokens, &mut buffer, Token::CloseBracket);
            i = i + 1;
        } else if string_is_char(&chars[i], '(') {
            flush_push(&mut tokens, &mut buffer, Token::OpenParenthesis);
            i = i + 1;
        } else if string_is_char(&chars[i], ')') {
            flush_push(&mut tokens, &mut buffer, Token::CloseParenthesis);
            i = i + 1;
        } else if string_is_char(&chars[i], '>') {
            flush_push(&mut tokens, &mut buffer, Token::BlockQuoteMarker);
            i = i + 1;
        } else if string_is_char(&chars[i], '|') {
            flush_push(&mut tokens, &mut buffer, Token::TableCellSeparator);
            i = i + 1;
        } else if string_is_char(&chars[i], '<') {
            let mut j: usize = i;
            while j < str_len && !string_is_char(&chars[j], '>')
                invariant
                    str_len == chars@.len(),
                    strings_view(chars@) == gs,
                    i <= j <= str_len,
                    forall|k: int| i <= k < j ==> gs[k] != seq!['>'],
                decreases str_len - j,
            {
                j = j + 1;
            }
            proof {
                lemma_gt_offset(gs, i0, j - i0);
            }
            if j < str_len {
                let mut tag = String::new();
                let mut k: usize = i;
                while k <= j
                    invariant
                        str_len == chars@.len(),
                        strings_view(chars@) == gs,
                        i <= k <= j + 1,
                        j < str_len,
                        tag@ == concat_range(gs, i as int, k as int),
                    decreases j + 1 - k,
                {
                    tag.append(chars[k].as_str());
                    k = k + 1;
                }
                flush_push(&mut tokens, &mut buffer, Token::RawHtmlTag(tag));
                i = j + 1;
            } else {
                let mut k: usize = i;
                while k < str_len
                    invariant
                        str_len == chars@.len(),
                        strings_view(chars@) == gs,
                        i <= k <= str_len,
                        buffer@ == buf0 + concat_range(gs, i as int, k as int),
                    decreases str_len - k,
                {
                    buffer.append(chars[k].as_str());
                    k = k + 1;
                }
                i = str_len;
            }
        } else if grapheme_is_digit(&chars[i]) {
            let marker_shape = str_len - i > 2 && string_is_char(&chars[i + 1], '.')
                && string_is_char(&chars[i + 2], ' ');
            let after_tab = i == 0 || (tokens.len() > 0 && matches!(
                tokens[tokens.len() - 1],
                Token::Tab
            ));
            if marker_shape && after_tab {
                let marker = chars[i].clone().concat(chars[i + 1].as_str());
                flush_push(&mut tokens, &mut buffer, Token::OrderedListMarker(marker));
                i = i + 2;
            } else {
                buffer.append(chars[i].as_str());
                i = i + 1;
            }
        } else if string_is_char(&chars[i], '\t') {
            flush_push(&mut tokens, &mut buffer, Token::Tab);
            i = i + 1;
        } else if string_is_char(&chars[i], ' ') {
            if str_len - i > 3 && string_is_char(&chars[i + 1], ' ') && string_is_char(
                &chars[i + 2],
                ' ',
            ) && string_is_char(&chars[i + 3], ' ') {
                flush_push(&mut tokens, &mut buffer, Token::Tab);
                i = i + 4;
            } else {
                flush_push(&mut tokens, &mut buffer, Token::Whitespace);
                i = i + 1;
            }
        } else if chars[i].as_str().unicode_len() == 0 || string_is_char(&chars[i], '\n') {
            flush_push(&mut tokens, &mut buffer, Token::Newline);
            i = i + 1;
        } else if is_punctuation(&chars[i]) {
            flush_push(&mut tokens, &mut buffer, Token::Punctuation(chars[i].clone()));
            i = i + 1;
        } else {
            buffer.append(chars[i].as_str());
            i = i + 1;
        }
    }

    let ghost acc_end = tokens_view(tokens@);
    let ghost buf_end = buffer@;
    push_buffer_to_collection(&mut tokens, &mut buffer);
    proof {
        assert(goal == acc_end + flush_model(buf_end));
        assert(tokens_view(tokens@) =~= acc_end + flush_model(buf_end));
    }

    tokens
}

/// A grapheme with no syntactic meaning to the tokenizer: it is none of
/// the marker characters, not a digit, not whitespace, and not in the
/// Unicode punctuation or currency categories, so it can only accumulate
/// into text.
pub open spec fn ordinary_grapheme(g: Seq<char>) -> bool {
    &&& g.len() > 0
    &&& g != seq!['*']
    &&& g != seq!['_']
    &&& g != seq!['`']
    &&& g != seq!['\\']
    &&& g != seq!['-']
    &&& g != seq!['[']
    &&& g != seq![']']
    &&& g != seq!['(']
    &&& g != seq![')']
    &&& g != seq!['>']
    &&& g != seq!['|']
    &&& g != seq!['<']
    &&& g != seq!['\t']
    &&& g != seq![' ']
    &&& g != seq!['\n']
    &&& !spec_is_digit_grapheme(g)
    &&& !spec_is_punct_grapheme(g)
}

/// A concatenated prefix range equals the concatenation of the prefix.
proof fn lemma_concat_range_prefix(gs: Seq<Seq<char>>, j: int)
    requires
        0 <= j <= gs.len(),
    ensures
        concat_range(gs, 0, j) == concat_graphemes(gs.subrange(0, j)),
    decreases j,
{
    if j == 0 {
        assert(concat_range(gs, 0, 0) =~= concat_graphemes(gs.subrange(0, 0)));
    } else {
        lemma_concat_range_prefix(gs, j - 1);
        let pre = gs.subrange(0, j);
        assert(pre.subrange(0, j - 1) =~= gs.subrange(0, j - 1));
        assert(pre[j - 1] == gs[j - 1]);
        assert(concat_graphemes(pre) == concat_graphemes(gs.subrange(0, j - 1)) + gs[j - 1]);
    }
}

/// The concatenation of a whole grapheme sequence is the concatenation of
/// its full range.
pub proof fn lemma_concat_range_whole(gs: Seq<Seq<char>>)
    ensures
        concat_range(gs, 0, gs.len() as int) == concat_graphemes(gs),
{
    lemma_concat_range_prefix(gs, gs.len() as int);
    assert(gs.subrange(0, gs.len() as int) =~= gs);
}

/// A concatenated range starts with its first grapheme.
proof fn lemma_concat_range_prepend(gs: Seq<Seq<char>>, i: int, j: int)
    requires
        0 <= i < j <= gs.len(),
    ensures
        concat_range(gs, i, j) == gs[i] + concat_range(gs, i + 1, j),
    decreases j - i,
{
    if i + 1 == j {
        assert(concat_range(gs, i, i) =~= Seq::<char>::empty());
        assert(concat_range(gs, i + 1, j) =~= Seq::<char>::empty());
        assert(gs[i] + Seq::<char>::empty() =~= gs[i]);
        assert(Seq::<char>::empty() + gs[i] =~= gs[i]);
    } else {
        lemma_concat_range_prepend(gs, i, j - 1);
        assert((gs[i] + concat_range(gs, i + 1, j - 1)) + gs[j - 1] =~= gs[i] + (concat_range(
            gs,
            i + 1,
            j - 1,
        ) + gs[j - 1]));
    }
}

/// Over ordinary graphemes the tokenizer only accumulates text: from any
/// state it ends with the emitted tokens followed by one text token
/// holding the pending buffer and everything that remains.
pub proof fn lemma_tokenize_ordinary(
    gs: Seq<Seq<char>>,
    i: int,
    acc: Seq<TokenModel>,
    buf: Seq<char>,
)
    requires
        0 <= i <= gs.len(),
        forall|k: int| i <= k < gs.len() ==> ordinary_grapheme(#[trigger] gs[k]),
    ensures
        spec_tokenize_from(gs, i, acc, buf) == acc + flush_model(
            buf + concat_range(gs, i, gs.len() as int),
        ),
    decreases gs.len() - i,
{
    if i >= gs.len() {
        assert(concat_range(gs, i, gs.len() as int) =~= Seq::<char>::empty());
        assert(buf + Seq::<char>::empty() =~= buf);
    } else {
        let g = gs[i];
        assert(ordinary_grapheme(g));
        lemma_tokenize_ordinary(gs, i + 1, acc, buf + g);
        lemma_concat_range_prepend(gs, i, gs.len() as int);
        assert((buf + g) + concat_range(gs, i + 1, gs.len() as int) =~= buf + (g + concat_range(
            gs,
            i + 1,
            gs.len() as int,
        )));
    }
}

/// A non-empty line of ordinary graphemes tokenizes to exactly one text
/// token holding the whole line.
pub proof fn lemma_tokenize_ordinary_line(s: Seq<char>)
    requires
        s.len() > 0,
        concat_graphemes(grapheme_split(s)) == s,
        forall|k: int|
            0 <= k < grapheme_split(s).len() ==> ordinary_grapheme(#[trigger] grapheme_split(s)[k]),
    ensures
        spec_tokenize(s) == seq![TokenModel::Text(s)],
{
    let gs = grapheme_split(s);
    lemma_tokenize_ordinary(gs, 0, Seq::empty(), Seq::empty());
    lemma_concat_range_whole(gs);
    assert(Seq::<char>::empty() + concat_range(gs, 0, gs.len() as int) =~= concat_range(
        gs,
        0,
        gs.len() as int,
    ));
    assert(spec_tokenize(s) =~= seq![TokenModel::Text(s)]);
}

} // verus!
