//! The parsers: the block grouper, which merges tokenized lines into
//! block-sized token groups; the block parser, which classifies each group
//! into one block element; and the inline parser, which resolves emphasis
//! through a delimiter stack and parses links, images and code spans with
//! fallback to literal text on malformed syntax.

use vstd::prelude::*;

use crate::types::{
    block_placeholder_free, blocks_placeholder_free, blocks_view, cell_placeholder_free,
    cells_placeholder_free, cells_view, inline_placeholder_free, inlines_placeholder_free,
    inlines_view, items_placeholder_free, items_view, lemma_blocks_placeholder_free_push,
    lemma_cells_placeholder_free_push, lemma_inlines_placeholder_free, lemma_inlines_view,
    lemma_items_placeholder_free_push, lemma_rows_placeholder_free_push, rows_placeholder_free,
    rows_view, spec_can_close, spec_can_open, token_lines_view, tokens_view, BlockModel,
    CellModel, Delimiter, InlineModel, ListItemModel,
    MdBlockElement, MdInlineElement, MdListItem, MdTableCell, TableAlignment, Token, TokenCursor,
    TokenModel,
};
use crate::lexer::spec_tokenize;
use crate::unicode::{char_to_string, concat_graphemes, grapheme_split};
use crate::utils::{push_buffer_to_collection, string_first_is_char, string_is_char};

verus! {

/// The most recently finalized block, or nothing yet.
pub open spec fn previous_block_of(bs: Seq<Seq<TokenModel>>) -> Seq<TokenModel> {
    if bs.len() > 0 {
        bs.last()
    } else {
        Seq::empty()
    }
}

/// The blocks with the most recently finalized one replaced.
pub open spec fn replace_last_block(
    bs: Seq<Seq<TokenModel>>,
    nb: Seq<TokenModel>,
) -> Seq<Seq<TokenModel>> {
    if bs.len() > 0 {
        bs.update(bs.len() - 1, nb)
    } else {
        seq![nb]
    }
}

/// Whether a block opens like an unordered-list line: a dash followed by a
/// space.
pub open spec fn dash_space_lead(b: Seq<TokenModel>) -> bool {
    b.len() > 1 && b[0] == TokenModel::Punctuation(seq!['-']) && b[1] is Whitespace
}

/// Whether a block opens like an ordered-list line: a list marker followed
/// by a space.
pub open spec fn marker_space_lead(b: Seq<TokenModel>) -> bool {
    b.len() > 1 && b[0] is OrderedListMarker && b[1] is Whitespace
}

/// Whether a line holds anything besides indentation after its leading
/// tab.
pub open spec fn tab_line_has_content(line: Seq<TokenModel>) -> bool {
    exists|k: int| 1 <= k < line.len() && !((#[trigger] line[k]) is Tab || line[k] is Whitespace)
}

/// What one line does to the grouper's state: the blocks so far and the
/// open-code-fence flag.  This is the decision table of the grouper, keyed
/// on the line's leading token, with the open fence given priority.
pub open spec fn spec_group_step(
    bs: Seq<Seq<TokenModel>>,
    in_code: bool,
    line: Seq<TokenModel>,
) -> (Seq<Seq<TokenModel>>, bool) {
    let prev = previous_block_of(bs);
    if in_code {
        if line.len() > 0 && line[0] is CodeFence {
            (replace_last_block(bs, prev + line), false)
        } else {
            (replace_last_block(bs, prev + line + seq![TokenModel::Newline]), true)
        }
    } else if line.len() == 0 {
        (bs, in_code)
    } else {
        let f = line[0];
        if f == TokenModel::Punctuation(seq!['#']) {
            (bs.push(line), false)
        } else if f == TokenModel::Punctuation(seq!['-']) {
            if prev.len() > 0 {
                if dash_space_lead(prev) {
                    (replace_last_block(bs, prev + seq![TokenModel::Newline] + line), false)
                } else if prev[0] == TokenModel::Punctuation(seq!['#']) {
                    (bs.push(line), false)
                } else if line.len() > 1 {
                    (bs.push(line), false)
                } else if prev[0] is Text {
                    (
                        replace_last_block(
                            bs,
                            seq![
                                TokenModel::Punctuation(seq!['#']),
                                TokenModel::Punctuation(seq!['#']),
                                TokenModel::Whitespace,
                            ] + prev,
                        ),
                        false,
                    )
                } else {
                    (bs.push(line), false)
                }
            } else {
                (bs.push(line), false)
            }
        } else if f is Tab {
            if line.len() > 1 && tab_line_has_content(line) {
                if prev.len() > 0 && (dash_space_lead(prev) || marker_space_lead(prev)) {
                    (replace_last_block(bs, prev + seq![TokenModel::Newline] + line), false)
                } else {
                    (bs.push(line), false)
                }
            } else {
                (bs, false)
            }
        } else if f is OrderedListMarker {
            if prev.len() > 0 && marker_space_lead(prev) {
                (replace_last_block(bs, prev + seq![TokenModel::Newline] + line), false)
            } else {
                (bs.push(line), false)
            }
        } else if f is ThematicBreak {
            if prev.len() > 0 && prev[0] is Text {
                (
                    replace_last_block(
                        bs,
                        seq![
                            TokenModel::Punctuation(seq!['#']),
                            TokenModel::Punctuation(seq!['#']),
                            TokenModel::Whitespace,
                        ] + prev,
                    ),
                    false,
                )
            } else {
                (bs.push(line), false)
            }
        } else if f is CodeTick {
            (bs.push(line), false)
        } else if f is CodeFence {
            (bs.push(line), true)
        } else if f is Text && f->Text_0.len() > 0 && f->Text_0[0] == '=' {
            if prev.len() > 0 {
                if prev[0] is Text {
                    (
                        replace_last_block(
                            bs,
                            seq![
                                TokenModel::Punctuation(seq!['#']),
                                TokenModel::Whitespace,
                            ] + prev,
                        ),
                        false,
                    )
                } else {
                    (bs, false)
                }
            } else {
                (bs.push(line), false)
            }
        } else if f is Text {
            if prev.len() > 0 && prev[0] is Text {
                (replace_last_block(bs, prev + seq![TokenModel::Whitespace] + line), false)
            } else {
                (bs.push(line), false)
            }
        } else if f is BlockQuoteMarker {
            if prev.len() > 0 && prev[0] is BlockQuoteMarker {
                (replace_last_block(bs, prev + seq![TokenModel::Newline] + line), false)
            } else {
                (bs.push(line), false)
            }
        } else if f is TableCellSeparator {
            if prev.len() > 0 && prev[0] is TableCellSeparator {
                (replace_last_block(bs, prev + seq![TokenModel::Newline] + line), false)
            } else {
                (bs.push(line), false)
            }
        } else {
            (bs.push(line), false)
        }
    }
}

/// The grouper's state after its first `n` lines.
pub open spec fn spec_group_state(lines: Seq<Seq<TokenModel>>, n: int) -> (
    Seq<Seq<TokenModel>>,
    bool,
)
    decreases n,
{
    if n <= 0 {
        (Seq::empty(), false)
    } else {
        let s = spec_group_state(lines, n - 1);
        spec_group_step(s.0, s.1, lines[n - 1])
    }
}

/// The block-sized token groups that the grouper makes of a document's
/// tokenized lines.
pub open spec fn spec_group_lines(lines: Seq<Seq<TokenModel>>) -> Seq<Seq<TokenModel>> {
    spec_group_state(lines, lines.len() as int).0
}

/// A token holding `#` as punctuation.
fn hash_token() -> (r: Token)
    ensures
        r@ == TokenModel::Punctuation(seq!['#']),
{
    Token::Punctuation(char_to_string('#'))
}

/// Whether the token is punctuation holding exactly the character `c`.
fn is_punct_char_token(t: &Token, c: char) -> (r: bool)
    ensures
        r == (t@ == TokenModel::Punctuation(seq![c])),
{
    match t {
        Token::Punctuation(s) => string_is_char(s, c),
        _ => false,
    }
}

/// Pops the most recent block, or an empty one when none exists.
fn take_previous_block(blocks: &mut Vec<Vec<Token>>) -> (r: Vec<Token>)
    ensures
        tokens_view(r@) == previous_block_of(token_lines_view(old(blocks)@)),
        token_lines_view(final(blocks)@) == if old(blocks)@.len() > 0 {
            token_lines_view(old(blocks)@).subrange(
                0,
                token_lines_view(old(blocks)@).len() - 1,
            )
        } else {
            token_lines_view(old(blocks)@)
        },
        forall|nb: Seq<TokenModel>|
            #[trigger] replace_last_block(token_lines_view(old(blocks)@), nb)
                == token_lines_view(final(blocks)@).push(nb),
{
    let r = match blocks.pop() {
        Some(p) => p,
        None => Vec::new(),
    };
    proof {
        if old(blocks)@.len() > 0 {
            assert(token_lines_view(final(blocks)@) =~= token_lines_view(old(blocks)@).subrange(
                0,
                token_lines_view(old(blocks)@).len() - 1,
            ));
        } else {
            assert(tokens_view(r@) =~= Seq::<TokenModel>::empty());
        }
        assert forall|nb: Seq<TokenModel>|
            #[trigger] replace_last_block(token_lines_view(old(blocks)@), nb)
                == token_lines_view(final(blocks)@).push(nb) by {
            assert(replace_last_block(token_lines_view(old(blocks)@), nb) =~= token_lines_view(
                final(blocks)@,
            ).push(nb));
        }
    }
    r
}

/// Appends a clone of `line`'s tokens to `dest`.
fn extend_with_line(dest: &mut Vec<Token>, line: &Vec<Token>)
    ensures
        tokens_view(final(dest)@) == tokens_view(old(dest)@) + tokens_view(line@),
{
    let mut k: usize = 0;
    while k < line.len()
        invariant
            k <= line@.len(),
            dest@.len() == old(dest)@.len() + k,
            forall|j: int| 0 <= j < old(dest)@.len() ==> dest@[j] == old(dest)@[j],
            forall|j: int| 0 <= j < k ==> dest@[old(dest)@.len() + j] == line@[j],
        decreases line@.len() - k,
    {
        dest.push(line[k].clone());
        k = k + 1;
    }
    proof {
        assert(tokens_view(dest@) =~= tokens_view(old(dest)@) + tokens_view(line@));
    }
}

/// Groups adjacent tokenized lines into block-sized token groups, one per
/// paragraph, list, code block, table, blockquote or heading: paragraph
/// lines merge, list continuations and table rows attach to their block,
/// fenced code stays open until its closing fence, and a line opening
/// with `=`, a
/// lone dash or a thematic break turns the paragraph before it into a
/// setext heading.
pub fn group_lines_to_blocks(tokenized_lines: Vec<Vec<Token>>) -> (r: Vec<Vec<Token>>)
    ensures
        token_lines_view(r@) == spec_group_lines(token_lines_view(tokenized_lines@)),
{
    let ghost lines_m = token_lines_view(tokenized_lines@);
    let mut blocks: Vec<Vec<Token>> = Vec::new();
    let mut is_inside_code_block: bool = false;

    proof {
        assert(token_lines_view(blocks@) =~= Seq::<Seq<TokenModel>>::empty());
    }

    let mut li: usize = 0;
    while li < tokenized_lines.len()
        invariant
            li <= tokenized_lines@.len(),
            lines_m == token_lines_view(tokenized_lines@),
            token_lines_view(blocks@) == spec_group_state(lines_m, li as int).0,
            is_inside_code_block == spec_group_state(lines_m, li as int).1,
        decreases tokenized_lines@.len() - li,
    {
        let ghost bs0 = token_lines_view(blocks@);
        let ghost c0 = is_inside_code_block;
        let line = &tokenized_lines[li];
        let ghost line_m = tokens_view(line@);
        proof {
            assert(lines_m[li as int] == line_m);
            assert(spec_group_state(lines_m, li as int + 1) == spec_group_step(bs0, c0, line_m));
        }

        if is_inside_code_block {
            let starts_fence = line.len() > 0 && matches!(&line[0], Token::CodeFence);
            let mut prev = take_previous_block(&mut blocks);
            extend_with_line(&mut prev, line);
            if starts_fence {
                is_inside_code_block = false;
            } else {
                prev.push(Token::Newline);
                proof {
                    assert(tokens_view(prev@) =~= previous_block_of(bs0) + line_m + seq![TokenModel::Newline]);
                }
            }
            let ghost nb = tokens_view(prev@);
            blocks.push(prev);
            proof {
                assert(token_lines_view(blocks@) =~= replace_last_block(bs0, nb));
            }
        } else if line.len() == 0 {
            // an empty token line changes nothing
        } else if is_punct_char_token(&line[0], '#') {
            blocks.push(line.clone());
            proof {
                assert(token_lines_view(blocks@) =~= bs0.push(line_m));
            }
        } else if is_punct_char_token(&line[0], '-') {
            let prev_nonempty = blocks.len() > 0 && blocks[blocks.len() - 1].len() > 0;
            proof {
                assert(prev_nonempty == (previous_block_of(bs0).len() > 0));
            }
            if prev_nonempty {
                let dash_lead = {
                    let pb = &blocks[blocks.len() - 1];
                    pb.len() > 1 && is_punct_char_token(&pb[0], '-') && matches!(
                        &pb[1],
                        Token::Whitespace
                    )
                };
                let hash_lead = is_punct_char_token(&blocks[blocks.len() - 1][0], '#');
                if dash_lead {
                    let mut prev = take_previous_block(&mut blocks);
                    prev.push(Token::Newline);
                    extend_with_line(&mut prev, line);
                    let ghost nb = tokens_view(prev@);
                    blocks.push(prev);
                    proof {
                        assert(nb =~= previous_block_of(bs0) + seq![TokenModel::Newline] + line_m);
                        assert(token_lines_view(blocks@) =~= replace_last_block(bs0, nb));
                    }
                } else if hash_lead {
                    blocks.push(line.clone());
                    proof {
                        assert(token_lines_view(blocks@) =~= bs0.push(line_m));
                    }
                } else if line.len() > 1 {
                    blocks.push(line.clone());
                    proof {
                        assert(token_lines_view(blocks@) =~= bs0.push(line_m));
                    }
                } else if matches!(&blocks[blocks.len() - 1][0], Token::Text(_)) {
                    let mut prev = take_previous_block(&mut blocks);
                    let mut nbv: Vec<Token> = Vec::new();
                    nbv.push(hash_token());
                    nbv.push(hash_token());
                    nbv.push(Token::Whitespace);
                    nbv.append(&mut prev);
                    let ghost nb = tokens_view(nbv@);
                    blocks.push(nbv);
                    proof {
                        assert(nb =~= seq![
                            TokenModel::Punctuation(seq!['#']),
                            TokenModel::Punctuation(seq!['#']),
                            TokenModel::Whitespace,
                        ] + previous_block_of(bs0));
                        assert(token_lines_view(blocks@) =~= replace_last_block(bs0, nb));
                    }
                } else {
                    blocks.push(line.clone());
                    proof {
                        assert(token_lines_view(blocks@) =~= bs0.push(line_m));
                    }
                }
            } else {
                blocks.push(line.clone());
                proof {
                    assert(token_lines_view(blocks@) =~= bs0.push(line_m));
                }
            }
        } else if matches!(&line[0], Token::Tab) {
            let mut has_content = false;
            let mut idx: usize = 1;
            while idx < line.len() && !has_content
                invariant
                    1 <= idx <= line@.len(),
                    line_m == tokens_view(line@),
                    has_content == exists|k: int|
                        1 <= k < idx && !((#[trigger] line_m[k]) is Tab || line_m[k] is Whitespace),
                decreases line@.len() - idx,
            {
                if !matches!(&line[idx], Token::Tab | Token::Whitespace) {
                    has_content = true;
                    proof {
                        assert(!(line_m[idx as int] is Tab || line_m[idx as int] is Whitespace));
                    }
                }
                idx = idx + 1;
            }
            proof {
                assert(has_content == tab_line_has_content(line_m));
            }
            if line.len() > 1 && has_content {
                let dash_or_marker = blocks.len() > 0 && {
                    let pb = &blocks[blocks.len() - 1];
                    pb.len() > 1 && ((is_punct_char_token(&pb[0], '-') && matches!(
                        &pb[1],
                        Token::Whitespace
                    )) || (matches!(&pb[0], Token::OrderedListMarker(_)) && matches!(
                        &pb[1],
                        Token::Whitespace
                    )))
                };
                if dash_or_marker {
                    let mut prev = take_previous_block(&mut blocks);
                    prev.push(Token::Newline);
                    extend_with_line(&mut prev, line);
                    let ghost nb = tokens_view(prev@);
                    blocks.push(prev);
                    proof {
                        assert(nb =~= previous_block_of(bs0) + seq![TokenModel::Newline] + line_m);
                        assert(token_lines_view(blocks@) =~= replace_last_block(bs0, nb));
                    }
                } else {
                    blocks.push(line.clone());
                    proof {
                        assert(token_lines_view(blocks@) =~= bs0.push(line_m));
                    }
                }
            }
            // a tab line without content is dropped
        } else if matches!(&line[0], Token::OrderedListMarker(_)) {
            let marker_lead = blocks.len() > 0 && {
                let pb = &blocks[blocks.len() - 1];
                pb.len() > 1 && matches!(&pb[0], Token::OrderedListMarker(_)) && matches!(
                    &pb[1],
                    Token::Whitespace
                )
            };
            if marker_lead {
                let mut prev = take_previous_block(&mut blocks);
                prev.push(Token::Newline);
                extend_with_line(&mut prev, line);
                let ghost nb = tokens_view(prev@);
                blocks.push(prev);
                proof {
                    assert(nb =~= previous_block_of(bs0) + seq![TokenModel::Newline] + line_m);
                    assert(token_lines_view(blocks@) =~= replace_last_block(bs0, nb));
                }
            } else {
                blocks.push(line.clone());
                proof {
                    assert(token_lines_view(blocks@) =~= bs0.push(line_m));
                }
            }
        } else if matches!(&line[0], Token::ThematicBreak) {
            let prev_nonempty = blocks.len() > 0 && blocks[blocks.len() - 1].len() > 0;
            if prev_nonempty {
                let text_lead = matches!(&blocks[blocks.len() - 1][0], Token::Text(_));
                if !text_lead {
                    blocks.push(line.clone());
                    proof {
                        assert(token_lines_view(blocks@) =~= bs0.push(line_m));
                    }
                } else {
                    let mut prev = take_previous_block(&mut blocks);
                    let mut nbv: Vec<Token> = Vec::new();
                    nbv.push(hash_token());
                    nbv.push(hash_token());
                    nbv.push(Token::Whitespace);
                    nbv.append(&mut prev);
                    let ghost nb = tokens_view(nbv@);
                    blocks.push(nbv);
                    proof {
                        assert(nb =~= seq![
                            TokenModel::Punctuation(seq!['#']),
                            TokenModel::Punctuation(seq!['#']),
                            TokenModel::Whitespace,
                        ] + previous_block_of(bs0));
                        assert(token_lines_view(blocks@) =~= replace_last_block(bs0, nb));
                    }
                }
            } else {
                blocks.push(line.clone());
                proof {
                    assert(token_lines_view(blocks@) =~= bs0.push(line_m));
                }
            }
        } else if matches!(&line[0], Token::CodeTick) {
            blocks.push(line.clone());
            proof {
                assert(token_lines_view(blocks@) =~= bs0.push(line_m));
            }
        } else if matches!(&line[0], Token::CodeFence) {
            is_inside_code_block = true;
            blocks.push(line.clone());
            proof {
                assert(token_lines_view(blocks@) =~= bs0.push(line_m));
            }
        } else if matches!(&line[0], Token::Text(_)) {
            let is_setext_underline = match &line[0] {
                Token::Text(s) => string_first_is_char(s, '='),
                _ => false,
            };
            let prev_nonempty = blocks.len() > 0 && blocks[blocks.len() - 1].len() > 0;
            if is_setext_underline {
                if prev_nonempty {
                    let text_lead = matches!(&blocks[blocks.len() - 1][0], Token::Text(_));
                    if text_lead {
                        let mut prev = take_previous_block(&mut blocks);
                        let mut nbv: Vec<Token> = Vec::new();
                        nbv.push(hash_token());
                        nbv.push(Token::Whitespace);
                        nbv.append(&mut prev);
                        let ghost nb = tokens_view(nbv@);
                        blocks.push(nbv);
                        proof {
                            assert(nb =~= seq![
                                TokenModel::Punctuation(seq!['#']),
                                TokenModel::Whitespace,
                            ] + previous_block_of(bs0));
                            assert(token_lines_view(blocks@) =~= replace_last_block(bs0, nb));
                        }
                    }
                    // otherwise the underline line is dropped
                } else {
                    blocks.push(line.clone());
                    proof {
                        assert(token_lines_view(blocks@) =~= bs0.push(line_m));
                    }
                }
            } else {
                let text_lead = prev_nonempty && matches!(&blocks[blocks.len() - 1][0], Token::Text(_));
                if text_lead {
                    let mut prev = take_previous_block(&mut blocks);
                    prev.push(Token::Whitespace);
                    extend_with_line(&mut prev, line);
                    let ghost nb = tokens_view(prev@);
                    blocks.push(prev);
                    proof {
                        assert(nb =~= previous_block_of(bs0) + seq![TokenModel::Whitespace]
                            + line_m);
                        assert(token_lines_view(blocks@) =~= replace_last_block(bs0, nb));
                    }
                } else {
                    blocks.push(line.clone());
                    proof {
                        assert(token_lines_view(blocks@) =~= bs0.push(line_m));
                    }
                }
            }
        } else if matches!(&line[0], Token::BlockQuoteMarker) {
            let quote_lead = blocks.len() > 0 && blocks[blocks.len() - 1].len() > 0 && matches!(
                &blocks[blocks.len() - 1][0],
                Token::BlockQuoteMarker
            );
            if quote_lead {
                let mut prev = take_previous_block(&mut blocks);
                prev.push(Token::Newline);
                extend_with_line(&mut prev, line);
                let ghost nb = tokens_view(prev@);
                blocks.push(prev);
                proof {
                    assert(nb =~= previous_block_of(bs0) + seq![TokenModel::Newline] + line_m);
                    assert(token_lines_view(blocks@) =~= replace_last_block(bs0, nb));
                }
            } else {
                blocks.push(line.clone());
                proof {
                    assert(token_lines_view(blocks@) =~= bs0.push(line_m));
                }
            }
        } else if matches!(&line[0], Token::TableCellSeparator) {
            let table_lead = blocks.len() > 0 && blocks[blocks.len() - 1].len() > 0 && matches!(
                &blocks[blocks.len() - 1][0],
                Token::TableCellSeparator
            );
            if table_lead {
                let mut prev = take_previous_block(&mut blocks);
                prev.push(Token::Newline);
                extend_with_line(&mut prev, line);
                let ghost nb = tokens_view(prev@);
                blocks.push(prev);
                proof {
                    assert(nb =~= previous_block_of(bs0) + seq![TokenModel::Newline] + line_m);
                    assert(token_lines_view(blocks@) =~= replace_last_block(bs0, nb));
                }
            } else {
                blocks.push(line.clone());
                proof {
                    assert(token_lines_view(blocks@) =~= bs0.push(line_m));
                }
            }
        } else {
            blocks.push(line.clone());
            proof {
                assert(token_lines_view(blocks@) =~= bs0.push(line_m));
            }
        }

        li = li + 1;
    }

    blocks
}

/// The plain text that one inline element flattens to.
pub open spec fn spec_flatten_one(m: InlineModel) -> Seq<char>
    decreases m,
{
    match m {
        InlineModel::Text(c) => c,
        InlineModel::Bold(c) => spec_flatten(c),
        InlineModel::Italic(c) => spec_flatten(c),
        InlineModel::Link { text, .. } => spec_flatten(text),
        InlineModel::Image { alt_text, .. } => alt_text,
        InlineModel::Code(c) => c,
        InlineModel::Placeholder => Seq::empty(),
    }
}

/// The plain text that a sequence of inline elements flattens to.
pub open spec fn spec_flatten(ms: Seq<InlineModel>) -> Seq<char>
    decreases ms,
{
    if ms.len() == 0 {
        Seq::empty()
    } else {
        spec_flatten(ms.subrange(0, ms.len() - 1)) + spec_flatten_one(ms[ms.len() - 1])
    }
}

/// Flattening one more element appends its text.
pub proof fn lemma_flatten_push(ms: Seq<InlineModel>, m: InlineModel)
    ensures
        spec_flatten(ms.push(m)) == spec_flatten(ms) + spec_flatten_one(m),
{
    assert(ms.push(m).subrange(0, ms.push(m).len() - 1) =~= ms);
    assert(ms.push(m)[ms.push(m).len() - 1] == m);
}

/// The plain text of one inline element: nested content flattened in
/// order, an image contributing its alternative text.
fn flatten_one(e: &MdInlineElement) -> (r: String)
    ensures
        r@ == spec_flatten_one(e@),
    decreases *e,
{
    match e {
        MdInlineElement::Text { content } => content.clone(),
        MdInlineElement::Bold { content } => flatten_vec(content),
        MdInlineElement::Italic { content } => flatten_vec(content),
        MdInlineElement::Link { text, .. } => flatten_vec(text),
        MdInlineElement::Image { alt_text, .. } => alt_text.clone(),
        MdInlineElement::Code { content } => content.clone(),
        MdInlineElement::Placeholder => String::new(),
    }
}

/// The plain text of a vector of inline elements, in order.
fn flatten_vec(elements: &Vec<MdInlineElement>) -> (r: String)
    ensures
        r@ == spec_flatten(inlines_view(elements@)),
    decreases *elements,
{
    let ghost ms = inlines_view(elements@);
    proof {
        crate::types::lemma_inlines_view(elements@);
    }
    let mut result = String::new();
    let mut i: usize = 0;
    while i < elements.len()
        invariant
            i <= elements@.len(),
            ms == inlines_view(elements@),
            ms.len() == elements@.len(),
            forall|j: int| 0 <= j < ms.len() ==> ms[j] == elements@[j]@,
            result@ == spec_flatten(ms.subrange(0, i as int)),
        decreases elements@.len() - i,
    {
        let piece = flatten_one(&elements[i]);
        result.append(piece.as_str());
        proof {
            lemma_flatten_push(ms.subrange(0, i as int), ms[i as int]);
            assert(ms.subrange(0, i as int).push(ms[i as int]) =~= ms.subrange(0, i + 1));
        }
        i = i + 1;
    }
    proof {
        assert(ms.subrange(0, ms.len() as int) =~= ms);
    }
    result
}

/// Flattens a vector of inline elements into the single string of their
/// plain text.
pub fn flatten_inline(elements: Vec<MdInlineElement>) -> (r: String)
    ensures
        r@ == spec_flatten(inlines_view(elements@)),
{
    flatten_vec(&elements)
}

/// The literal text a token contributes inside a code span: string
/// payloads stand for themselves, an emphasis run repeats its delimiter, a
/// tab is four spaces, and structural markers reappear as their source
/// characters.
pub open spec fn spec_code_span_text(t: TokenModel) -> Seq<char> {
    match t {
        TokenModel::Text(s) => s,
        TokenModel::Punctuation(s) => s,
        TokenModel::OrderedListMarker(s) => s,
        TokenModel::Escape(c) => seq!['\\'] + c,
        TokenModel::OpenParenthesis => seq!['('],
        TokenModel::CloseParenthesis => seq![')'],
        TokenModel::OpenBracket => seq!['['],
        TokenModel::CloseBracket => seq![']'],
        TokenModel::EmphasisRun { delimiter, length } => char_repeat(delimiter, length),
        TokenModel::Whitespace => seq![' '],
        TokenModel::Tab => seq![' ', ' ', ' ', ' '],
        TokenModel::Newline => seq!['\n'],
        TokenModel::ThematicBreak => seq!['-', '-', '-'],
        TokenModel::CodeFence => Seq::empty(),
        TokenModel::CodeTick => Seq::empty(),
        TokenModel::BlockQuoteMarker => seq!['>'],
        TokenModel::TableCellSeparator => seq!['|'],
        TokenModel::RawHtmlTag(s) => s,
    }
}

/// The character `c` repeated `n` times.
pub open spec fn char_repeat(c: char, n: int) -> Seq<char> {
    if n <= 0 {
        Seq::empty()
    } else {
        Seq::new(n as nat, |k: int| c)
    }
}

/// Where a scan for the next code tick stops: at the first `CodeTick` at
/// or after `i`, or at the end of the tokens.
pub open spec fn spec_code_span_end(ts: Seq<TokenModel>, i: int) -> int
    decreases ts.len() - i,
{
    if i < 0 || i >= ts.len() {
        ts.len() as int
    } else if ts[i] is CodeTick {
        i
    } else {
        spec_code_span_end(ts, i + 1)
    }
}

/// The literal text of the tokens from `i` up to the next code tick or the
/// end of the tokens.
pub open spec fn spec_code_span_content(ts: Seq<TokenModel>, i: int) -> Seq<char>
    decreases ts.len() - i,
{
    if i < 0 || i >= ts.len() || ts[i] is CodeTick {
        Seq::empty()
    } else {
        spec_code_span_text(ts[i]) + spec_code_span_content(ts, i + 1)
    }
}

/// Appends the literal code-span text of one token to the buffer.
fn append_code_span_text(buf: &mut String, t: &Token)
    ensures
        final(buf)@ == old(buf)@ + spec_code_span_text(t@),
{
    match t {
        Token::Text(s) => buf.append(s.as_str()),
        Token::Punctuation(s) => buf.append(s.as_str()),
        Token::OrderedListMarker(s) => buf.append(s.as_str()),
        Token::Escape(c) => {
            proof {
                reveal_strlit("\\");
            }
            buf.append("\\");
            buf.append(c.as_str());
            proof {
                assert(buf@ =~= old(buf)@ + (seq!['\\'] + c@));
            }
        },
        Token::OpenParenthesis => {
            proof {
                reveal_strlit("(");
            }
            buf.append("(");
            proof {
                assert(buf@ =~= old(buf)@ + seq!['(']);
            }
        },
        Token::CloseParenthesis => {
            proof {
                reveal_strlit(")");
            }
            buf.append(")");
            proof {
                assert(buf@ =~= old(buf)@ + seq![')']);
            }
        },
        Token::OpenBracket => {
            proof {
                reveal_strlit("[");
            }
            buf.append("[");
            proof {
                assert(buf@ =~= old(buf)@ + seq!['[']);
            }
        },
        Token::CloseBracket => {
            proof {
                reveal_strlit("]");
            }
            buf.append("]");
            proof {
                assert(buf@ =~= old(buf)@ + seq![']']);
            }
        },
        Token::EmphasisRun { delimiter, length } => {
            let d = char_to_string(*delimiter);
            let n = *length;
            let mut k: usize = 0;
            while k < n
                invariant
                    k <= n,
                    d@ == seq![*delimiter],
                    buf@ == old(buf)@ + char_repeat(*delimiter, k as int),
                decreases n - k,
            {
                buf.append(d.as_str());
                proof {
                    assert(buf@ =~= old(buf)@ + char_repeat(*delimiter, k + 1));
                }
                k = k + 1;
            }
            proof {
                if n == 0 {
                    assert(buf@ =~= old(buf)@ + char_repeat(*delimiter, 0));
                }
            }
        },
        Token::Whitespace => {
            proof {
                reveal_strlit(" ");
            }
            buf.append(" ");
            proof {
                assert(buf@ =~= old(buf)@ + seq![' ']);
            }
        },
        Token::Tab => {
            proof {
                reveal_strlit("    ");
            }
            buf.append("    ");
            proof {
                assert(buf@ =~= old(buf)@ + seq![' ', ' ', ' ', ' ']);
            }
        },
        Token::Newline => {
            proof {
                reveal_strlit("\n");
            }
            buf.append("\n");
            proof {
                assert(buf@ =~= old(buf)@ + seq!['\n']);
            }
        },
        Token::ThematicBreak => {
            proof {
                reveal_strlit("---");
            }
            buf.append("---");
            proof {
                assert(buf@ =~= old(buf)@ + seq!['-', '-', '-']);
            }
        },
        Token::CodeFence => {
            proof {
                assert(buf@ =~= old(buf)@ + Seq::<char>::empty());
            }
        },
        Token::CodeTick => {
            proof {
                assert(buf@ =~= old(buf)@ + Seq::<char>::empty());
            }
        },
        Token::BlockQuoteMarker => {
            proof {
                reveal_strlit(">");
            }
            buf.append(">");
            proof {
                assert(buf@ =~= old(buf)@ + seq!['>']);
            }
        },
        Token::TableCellSeparator => {
            proof {
                reveal_strlit("|");
            }
            buf.append("|");
            proof {
                assert(buf@ =~= old(buf)@ + seq!['|']);
            }
        },
        Token::RawHtmlTag(s) => buf.append(s.as_str()),
    }
}

/// Reads the literal content of a code span: everything from the cursor up
/// to, but not past, the next code tick or the end of the tokens.
fn parse_code_span(cursor: &mut TokenCursor) -> (r: String)
    requires
        old(cursor).current_position <= old(cursor).tokens@.len(),
    ensures
        final(cursor).tokens == old(cursor).tokens,
        final(cursor).current_position == spec_code_span_end(
            tokens_view(old(cursor).tokens@),
            old(cursor).current_position as int,
        ),
        final(cursor).current_position >= old(cursor).current_position,
        final(cursor).current_position <= final(cursor).tokens@.len(),
        r@ == spec_code_span_content(
            tokens_view(old(cursor).tokens@),
            old(cursor).current_position as int,
        ),
{
    let ghost ts = tokens_view(old(cursor).tokens@);
    let ghost start = old(cursor).current_position as int;
    let mut code_content = String::new();
    while !cursor.is_at_eof() && !matches!(
        &cursor.tokens[cursor.current_position],
        Token::CodeTick
    )
        invariant
            cursor.tokens == old(cursor).tokens,
            ts == tokens_view(cursor.tokens@),
            start <= cursor.current_position <= cursor.tokens@.len(),
            spec_code_span_end(ts, start) == spec_code_span_end(
                ts,
                cursor.current_position as int,
            ),
            spec_code_span_content(ts, start) == code_content@ + spec_code_span_content(
                ts,
                cursor.current_position as int,
            ),
        decreases cursor.tokens@.len() - cursor.current_position,
    {
        let ghost p = cursor.current_position as int;
        append_code_span_text(&mut code_content, &cursor.tokens[cursor.current_position]);
        cursor.advance();
        proof {
            assert(spec_code_span_content(ts, p) == spec_code_span_text(ts[p])
                + spec_code_span_content(ts, p + 1));
        }
    }
    proof {
        assert(spec_code_span_content(ts, cursor.current_position as int) =~= Seq::<
            char,
        >::empty());
        assert(spec_code_span_content(ts, start) =~= code_content@);
    }
    code_content
}

/// Well-formedness tying a delimiter stack to the inline elements under
/// construction: every active delimiter marks a placeholder, active
/// delimiters sit in stack order at distinct positions, every placeholder
/// belongs to an active delimiter, and every other element is already free
/// of placeholders.
pub open spec fn stack_wf(els: Seq<InlineModel>, stack: Seq<Delimiter>) -> bool {
    &&& forall|k: int|
        0 <= k < stack.len() && (#[trigger] stack[k]).active ==> stack[k].parsed_position
            < els.len() && els[stack[k].parsed_position as int] is Placeholder
    &&& forall|k1: int, k2: int|
        0 <= k1 < k2 < stack.len() && (#[trigger] stack[k1]).active && (
        #[trigger] stack[k2]).active ==> stack[k1].parsed_position < stack[k2].parsed_position
    &&& forall|p: int|
        0 <= p < els.len() && (#[trigger] els[p]) is Placeholder ==> exists|k: int|
            0 <= k < stack.len() && (#[trigger] stack[k]).active && stack[k].parsed_position == p
    &&& forall|p: int|
        0 <= p < els.len() ==> inline_placeholder_free(#[trigger] els[p]) || els[p] is Placeholder
}

/// The state after degrading the delimiters with index below `k` that are
/// active strictly between the pair's placeholders: each such delimiter's
/// placeholder becomes the literal text of its remaining run and the
/// delimiter goes inactive.
pub open spec fn spec_degrade(
    els: Seq<InlineModel>,
    stack: Seq<Delimiter>,
    op: int,
    cp: int,
    k: int,
) -> (Seq<InlineModel>, Seq<Delimiter>)
    decreases stack.len() - k,
{
    if k < 0 || k >= stack.len() {
        (els, stack)
    } else {
        let d = stack[k];
        if d.active && op < d.parsed_position < cp {
            spec_degrade(
                els.update(
                    d.parsed_position as int,
                    InlineModel::Text(char_repeat(d.ch, d.run_length as int)),
                ),
                stack.update(k, Delimiter { active: false, ..d }),
                op,
                cp,
                k + 1,
            )
        } else {
            spec_degrade(els, stack, op, cp, k + 1)
        }
    }
}

/// Replaces the placeholder of every still-active delimiter strictly
/// between the pair's placeholders with the literal text of its remaining
/// run, and deactivates it.
#[verifier::loop_isolation(false)]
fn degrade_between(
    elements: &mut Vec<MdInlineElement>,
    stack: &mut Vec<Delimiter>,
    op: usize,
    cp: usize,
)
    requires
        stack_wf(inlines_view(old(elements)@), old(stack)@),
    ensures
        final(stack)@.len() == old(stack)@.len(),
        final(elements)@.len() == old(elements)@.len(),
        stack_wf(inlines_view(final(elements)@), final(stack)@),
        (inlines_view(final(elements)@), final(stack)@) == spec_degrade(
            inlines_view(old(elements)@),
            old(stack)@,
            op as int,
            cp as int,
            0,
        ),
        forall|k: int|
            0 <= k < old(stack)@.len() ==> {
                let d0 = old(stack)@[k];
                let d1 = (#[trigger] final(stack)@[k]);
                &&& d1.ch == d0.ch
                &&& d1.run_length == d0.run_length
                &&& d1.token_position == d0.token_position
                &&& d1.parsed_position == d0.parsed_position
                &&& d1.can_open == d0.can_open
                &&& d1.can_close == d0.can_close
                &&& (d1.active ==> d0.active)
                &&& (d0.active && !(op < d0.parsed_position < cp) ==> d1.active)
            },
        forall|k: int|
            {
                let d1 = (#[trigger] final(stack)@[k]);
                0 <= k < final(stack)@.len() && d1.active ==> !(op < d1.parsed_position < cp)
            },
        forall|p: int|
            0 <= p < old(elements)@.len() && !(op < p < cp) ==> final(elements)@[p]
                == old(elements)@[p],
{
    broadcast use lemma_inlines_view;

    let mut k: usize = 0;
    while k < stack.len()
        invariant
            stack@.len() == old(stack)@.len(),
            elements@.len() == old(elements)@.len(),
            k <= stack@.len(),
            spec_degrade(inlines_view(old(elements)@), old(stack)@, op as int, cp as int, 0)
                == spec_degrade(inlines_view(elements@), stack@, op as int, cp as int, k as int),
            stack_wf(inlines_view(elements@), stack@),
            forall|x: int|
                0 <= x < old(stack)@.len() ==> {
                    let d0 = old(stack)@[x];
                    let d1 = (#[trigger] stack@[x]);
                    &&& d1.ch == d0.ch
                    &&& d1.run_length == d0.run_length
                    &&& d1.token_position == d0.token_position
                    &&& d1.parsed_position == d0.parsed_position
                    &&& d1.can_open == d0.can_open
                    &&& d1.can_close == d0.can_close
                    &&& (d1.active ==> d0.active)
                    &&& (d0.active && !(op < d0.parsed_position < cp) ==> d1.active)
                },
            forall|x: int|
                0 <= x < k && (#[trigger] stack@[x]).active ==> !(op < stack@[x].parsed_position
                    < cp),
            forall|p: int|
                0 <= p < old(elements)@.len() && !(op < p < cp) ==> elements@[p]
                    == old(elements)@[p],
        decreases stack@.len() - k,
    {
        let d = stack[k];
        if d.active && op < d.parsed_position && d.parsed_position < cp {
            let ghost ev = inlines_view(elements@);
            let ghost st0 = stack@;
            let p = d.parsed_position;
            proof {
                assert(stack@[k as int].active);
                assert(p < inlines_view(elements@).len());
            }
            elements[p] = MdInlineElement::Text { content: char_run_string(d.ch, d.run_length) };
            stack[k].active = false;
            proof {
                assert(inlines_view(elements@) =~= ev.update(
                    p as int,
                    InlineModel::Text(char_repeat(d.ch, d.run_length as int)),
                ));
                assert(stack@ =~= st0.update(k as int, Delimiter { active: false, ..d }));
                assert(spec_degrade(ev, st0, op as int, cp as int, k as int) == spec_degrade(
                    inlines_view(elements@),
                    stack@,
                    op as int,
                    cp as int,
                    k + 1,
                ));
            }
            proof {
                let evn = inlines_view(elements@);
                assert(evn[p as int] == InlineModel::Text(char_repeat(d.ch, d.run_length as int)));
                assert(inline_placeholder_free(evn[p as int]));
                assert forall|q: int| 0 <= q < evn.len() && q != p implies evn[q] == ev[q] by {
                    assert(elements@[q] == old(elements)@[q] || true);
                }
                assert forall|x: int|
                    0 <= x < stack@.len() && (#[trigger] stack@[x]).active implies stack@[
                x].parsed_position < evn.len() && evn[stack@[x].parsed_position as int]
                    is Placeholder by {
                    assert(x != k);
                    assert(st0[x].active && st0[k as int].active);
                    assert(st0[x].parsed_position != p) by {
                        if x < k {
                            assert(st0[x].parsed_position < st0[k as int].parsed_position);
                        } else {
                            assert(st0[k as int].parsed_position < st0[x].parsed_position);
                        }
                    }
                    assert(evn[stack@[x].parsed_position as int] == ev[
                    stack@[x].parsed_position as int]);
                }
                assert forall|q: int|
                    0 <= q < evn.len() implies inline_placeholder_free(#[trigger] evn[q]) || evn[q]
                        is Placeholder by {
                    if q != p {
                        assert(evn[q] == ev[q]);
                    }
                }
                assert forall|p2: int|
                    0 <= p2 < evn.len() && (#[trigger] evn[p2]) is Placeholder implies exists|
                    x: int,
                |
                    0 <= x < stack@.len() && (#[trigger] stack@[x]).active
                        && stack@[x].parsed_position == p2 by {
                    assert(evn[p2] == ev[p2]);
                    let x = choose|x: int|
                        0 <= x < st0.len() && (#[trigger] st0[x]).active
                            && st0[x].parsed_position == p2;
                    assert(x != k);
                    assert(stack@[x].active && stack@[x].parsed_position == p2);
                }
            }
        }
        k = k + 1;
    }
}

/// The wrapper a matched pair makes of the elements strictly between its
/// placeholders: bold when two delimiters were used from each run, italic
/// when one.
pub open spec fn pair_wrapper(content: Seq<InlineModel>, used: int) -> InlineModel {
    if used == 2 {
        InlineModel::Bold(content)
    } else {
        InlineModel::Italic(content)
    }
}

/// One delimiter after a splice: recorded positions past the spliced range
/// move down by what was removed, the pair's runs shrink by what was used,
/// and a run that reaches zero goes inactive.
pub open spec fn splice_adjust(
    d: Delimiter,
    k: int,
    i: int,
    j: int,
    end: int,
    removed: int,
    used: int,
) -> Delimiter {
    let pos = if d.parsed_position > end {
        (d.parsed_position - removed) as usize
    } else {
        d.parsed_position
    };
    if k == i || k == j {
        let run = if d.run_length >= used {
            (d.run_length - used) as usize
        } else {
            0usize
        };
        Delimiter {
            parsed_position: pos,
            run_length: run,
            active: if run == 0 {
                false
            } else {
                d.active
            },
            ..d
        }
    } else {
        Delimiter { parsed_position: pos, ..d }
    }
}

/// One delimiter after an insertion at `at` into elements of length `n`:
/// recorded positions at or past the insertion move up by one, and the
/// pair's runs shrink by what was used.
pub open spec fn insert_adjust(
    d: Delimiter,
    k: int,
    i: int,
    j: int,
    at: int,
    n: int,
    used: int,
) -> Delimiter {
    let pos = if d.parsed_position >= at && d.parsed_position <= n {
        (d.parsed_position + 1) as usize
    } else {
        d.parsed_position
    };
    if k == i || k == j {
        let run = if d.run_length >= used {
            (d.run_length - used) as usize
        } else {
            0usize
        };
        Delimiter { parsed_position: pos, run_length: run, ..d }
    } else {
        Delimiter { parsed_position: pos, ..d }
    }
}

/// What resolving the pair of opener `j` and closer `i` does: every active
/// delimiter strictly between them degrades; two delimiters are used from
/// each run when both hold at least two, else one; the elements strictly
/// between the placeholders become one bold or italic wrapper, with the
/// placeholder of a side that keeps characters surviving; and every
/// recorded position is renumbered.
pub open spec fn spec_pair(
    els0: Seq<InlineModel>,
    stack0: Seq<Delimiter>,
    i: int,
    j: int,
) -> (Seq<InlineModel>, Seq<Delimiter>) {
    let op = stack0[j].parsed_position as int;
    let cp = stack0[i].parsed_position as int;
    let dg = spec_degrade(els0, stack0, op, cp, 0);
    let els = dg.0;
    let stack = dg.1;
    let or = stack0[j].run_length as int;
    let cr = stack0[i].run_length as int;
    let used: int = if cr >= 2 && or >= 2 {
        2
    } else {
        1
    };
    let start = if or > used {
        op + 1
    } else {
        op
    };
    let end = if cr > used {
        cp - 1
    } else {
        cp
    };
    if start <= end {
        let w = pair_wrapper(els.subrange(op + 1, cp), used);
        let els2 = els.subrange(0, start) + seq![w] + els.subrange(end + 1, els.len() as int);
        let removed = end - start;
        let stack2 = Seq::new(
            stack.len(),
            |k: int| splice_adjust(stack[k], k, i, j, end, removed, used),
        );
        (els2, stack2)
    } else {
        let w = pair_wrapper(Seq::empty(), used);
        let els2 = els.subrange(0, cp) + seq![w] + els.subrange(cp, els.len() as int);
        let stack2 = Seq::new(
            stack.len(),
            |k: int| insert_adjust(stack[k], k, i, j, cp, els.len() as int, used),
        );
        (els2, stack2)
    }
}

/// The fields of a delimiter that pairing never changes.
pub open spec fn delim_same_identity(d0: Delimiter, d1: Delimiter) -> bool {
    &&& d1.ch == d0.ch
    &&& d1.token_position == d0.token_position
    &&& d1.can_open == d0.can_open
    &&& d1.can_close == d0.can_close
    &&& (d1.active ==> d0.active)
}

/// After a splice, the stack and the elements are well-formed again: the
/// surviving placeholders are exactly those of still-active delimiters at
/// their renumbered positions.
#[verifier::rlimit(100)]
proof fn lemma_pair_splice_wf(
    ev1: Seq<InlineModel>,
    stack1: Seq<Delimiter>,
    elsn: Seq<InlineModel>,
    stn: Seq<Delimiter>,
    i: int,
    j: int,
    op: int,
    cp: int,
    used: int,
    start: int,
    end: int,
    removed: int,
    wm: InlineModel,
)
    requires
        stack_wf(ev1, stack1),
        0 <= j < i < stack1.len(),
        stack1[i].active && stack1[i].parsed_position == cp,
        stack1[j].active && stack1[j].parsed_position == op,
        forall|k: int|
            {
                let d = (#[trigger] stack1[k]);
                0 <= k < stack1.len() && d.active ==> !(op < d.parsed_position < cp)
            },
        0 <= op < cp < ev1.len(),
        1 <= used <= 2,
        start == (if stack1[j].run_length > used {
            op + 1
        } else {
            op
        }),
        end == (if stack1[i].run_length > used {
            cp - 1
        } else {
            cp
        }),
        start <= end,
        removed == end - start,
        elsn.len() == ev1.len() - removed,
        elsn[start] == wm,
        inline_placeholder_free(wm),
        !(wm is Placeholder),
        forall|q: int| 0 <= q < start ==> #[trigger] elsn[q] == ev1[q],
        forall|q: int| start < q < elsn.len() ==> #[trigger] elsn[q] == ev1[q + removed],
        stn.len() == stack1.len(),
        forall|x: int|
            0 <= x < stn.len() ==> {
                let d0 = stack1[x];
                let d1 = (#[trigger] stn[x]);
                &&& d1.parsed_position == (if d0.parsed_position > end {
                    d0.parsed_position - removed
                } else {
                    d0.parsed_position as int
                })
                &&& (x != i && x != j ==> d1.active == d0.active && d1.run_length
                    == d0.run_length)
            },
        stn[i].run_length == (if stack1[i].run_length >= used {
            stack1[i].run_length - used
        } else {
            0
        }),
        stn[j].run_length == (if stack1[j].run_length >= used {
            stack1[j].run_length - used
        } else {
            0
        }),
        stn[i].active == (stn[i].run_length != 0),
        stn[j].active == (stn[j].run_length != 0),
    ensures
        stack_wf(elsn, stn),
{
    assert forall|k2: int|
        0 <= k2 < stn.len() && (#[trigger] stn[k2]).active implies stn[k2].parsed_position
            < elsn.len() && elsn[stn[k2].parsed_position as int] is Placeholder by {
        let d1 = stack1[k2];
        if k2 == j {
            assert(stn[k2].run_length > 0);
            assert(stack1[j].run_length > used);
            assert(start == op + 1);
            assert(op <= end);
            assert(stn[k2].parsed_position == op);
            assert(elsn[op] == ev1[op]);
        } else if k2 == i {
            assert(stn[k2].run_length > 0);
            assert(stack1[i].run_length > used);
            assert(end == cp - 1);
            assert(stn[k2].parsed_position == cp - removed);
            assert(start < cp - removed < elsn.len());
            assert(elsn[cp - removed] == ev1[cp]);
        } else {
            assert(d1.active);
            assert(!(op < d1.parsed_position < cp));
            assert(d1.parsed_position != op) by {
                if d1.parsed_position == op {
                    if k2 < j {
                        assert(stack1[k2].parsed_position < stack1[j].parsed_position);
                    } else {
                        assert(stack1[j].parsed_position < stack1[k2].parsed_position);
                    }
                }
            }
            assert(d1.parsed_position != cp) by {
                if d1.parsed_position == cp {
                    if k2 < i {
                        assert(stack1[k2].parsed_position < stack1[i].parsed_position);
                    } else {
                        assert(stack1[i].parsed_position < stack1[k2].parsed_position);
                    }
                }
            }
            if d1.parsed_position < op {
                assert(stn[k2].parsed_position == d1.parsed_position);
                assert(elsn[d1.parsed_position as int] == ev1[d1.parsed_position as int]);
            } else {
                assert(d1.parsed_position > cp);
                assert(stn[k2].parsed_position == d1.parsed_position - removed);
                assert(start < d1.parsed_position - removed);
                assert(elsn[d1.parsed_position - removed] == ev1[d1.parsed_position as int]);
            }
        }
    }
    assert forall|k1: int, k2: int|
        0 <= k1 < k2 < stn.len() && (#[trigger] stn[k1]).active && (
        #[trigger] stn[k2]).active implies stn[k1].parsed_position < stn[
    k2].parsed_position by {
        let a0 = stack1[k1];
        let b0 = stack1[k2];
        assert(a0.active && b0.active) by {
            if k1 != i && k1 != j {
            }
        }
        assert(a0.parsed_position < b0.parsed_position);
        if a0.parsed_position <= end && b0.parsed_position > end {
            assert(a0.parsed_position != cp) by {
                if a0.parsed_position == cp {
                    assert(k1 == i) by {
                        if k1 < i {
                            assert(stack1[k1].parsed_position < stack1[i].parsed_position);
                        } else if k1 > i {
                            assert(stack1[i].parsed_position < stack1[k1].parsed_position);
                        }
                    }
                    assert(end == cp);
                    assert(stack1[i].run_length <= used);
                    assert(stn[i].run_length == 0);
                    assert(!stn[k1].active);
                }
            }
            assert(!(op < a0.parsed_position < cp));
            assert(a0.parsed_position <= op);
            assert(stn[k1].parsed_position <= op <= start);
            assert(stn[k2].parsed_position == b0.parsed_position - removed > end - removed
                == start);
        }
    }
    assert forall|p: int|
        0 <= p < elsn.len() && (#[trigger] elsn[p]) is Placeholder implies exists|k2: int|
            0 <= k2 < stn.len() && (#[trigger] stn[k2]).active && stn[k2].parsed_position
                == p by {
        if p < start {
            assert(elsn[p] == ev1[p]);
            let k2 = choose|k2: int|
                0 <= k2 < stack1.len() && (#[trigger] stack1[k2]).active && stack1[
            k2].parsed_position == p;
            if k2 == i {
                assert(p == cp && cp >= start);
                assert(false);
            }
            if k2 == j {
                assert(p == op && op < start);
                assert(start == op + 1);
                assert(stack1[j].run_length > used);
                assert(stn[k2].run_length > 0);
                assert(stn[k2].active);
                assert(stn[k2].parsed_position == p);
            } else {
                assert(!(op < p < cp));
                assert(p != op) by {
                    if p == op {
                        if k2 < j {
                            assert(stack1[k2].parsed_position < stack1[j].parsed_position);
                        } else {
                            assert(stack1[j].parsed_position < stack1[k2].parsed_position);
                        }
                    }
                }
                assert(p < op);
                assert(stn[k2].active && stn[k2].parsed_position == p);
            }
        } else if p == start {
            assert(elsn[p] == wm);
            assert(false);
        } else {
            assert(elsn[p] == ev1[p + removed]);
            let q = p + removed;
            let k2 = choose|k2: int|
                0 <= k2 < stack1.len() && (#[trigger] stack1[k2]).active && stack1[
            k2].parsed_position == q;
            assert(q > end);
            if k2 == j {
                assert(q == op && op <= end);
                assert(false);
            }
            if k2 == i {
                assert(q == cp && cp > end);
                assert(end == cp - 1);
                assert(stack1[i].run_length > used);
                assert(stn[i].run_length > 0);
                assert(stn[i].active);
                assert(stn[i].parsed_position == cp - removed);
                assert(cp - removed == p);
            } else {
                assert(!(op < q < cp));
                assert(q != cp) by {
                    if q == cp {
                        if k2 < i {
                            assert(stack1[k2].parsed_position < stack1[i].parsed_position);
                        } else {
                            assert(stack1[i].parsed_position < stack1[k2].parsed_position);
                        }
                    }
                }
                assert(q > cp);
                assert(stn[k2].active && stn[k2].parsed_position == q - removed);
            }
        }
    }
    assert forall|p: int|
        0 <= p < elsn.len() implies inline_placeholder_free(#[trigger] elsn[p]) || elsn[p]
            is Placeholder by {
        if p < start {
            assert(elsn[p] == ev1[p]);
        } else if p == start {
            assert(elsn[p] == wm);
        } else {
            assert(elsn[p] == ev1[p + removed]);
        }
    }
}

/// Splices the elements between a matched pair of placeholders into one
/// emphasis wrapper and renumbers every recorded position past the spliced
/// range.
#[verifier::loop_isolation(false)]
#[verifier::rlimit(100)]
#[verifier::spinoff_prover]
fn pair_splice(
    elements: &mut Vec<MdInlineElement>,
    stack: &mut Vec<Delimiter>,
    i: usize,
    j: usize,
    op: usize,
    cp: usize,
    used: usize,
    start: usize,
    end: usize,
)
    requires
        stack_wf(inlines_view(old(elements)@), old(stack)@),
        j < i < old(stack)@.len(),
        old(stack)@[i as int].active && old(stack)@[i as int].parsed_position == cp,
        old(stack)@[j as int].active && old(stack)@[j as int].parsed_position == op,
        forall|k: int|
            {
                let d = (#[trigger] old(stack)@[k]);
                0 <= k < old(stack)@.len() && d.active ==> !(op < d.parsed_position < cp)
            },
        op < cp,
        1 <= used <= 2,
        start == (if old(stack)@[j as int].run_length > used {
            op + 1
        } else {
            op as int
        }),
        end == (if old(stack)@[i as int].run_length > used {
            cp - 1
        } else {
            cp as int
        }),
        start <= end,
    ensures
        stack_wf(inlines_view(final(elements)@), final(stack)@),
        final(stack)@.len() == old(stack)@.len(),
        forall|k: int|
            0 <= k < old(stack)@.len() ==> delim_same_identity(
                old(stack)@[k],
                #[trigger] final(stack)@[k],
            ),
        inlines_view(final(elements)@) == inlines_view(old(elements)@).subrange(0, start as int)
            + seq![
            pair_wrapper(inlines_view(old(elements)@).subrange(op + 1, cp as int), used as int),
        ] + inlines_view(old(elements)@).subrange(
            end + 1,
            inlines_view(old(elements)@).len() as int,
        ),
        forall|k: int|
            0 <= k < old(stack)@.len() ==> #[trigger] final(stack)@[k] == splice_adjust(
                old(stack)@[k],
                k,
                i as int,
                j as int,
                end as int,
                end - start,
                used as int,
            ),
{
    broadcast use lemma_inlines_view;

    let ghost els1 = old(elements)@;
    let ghost ev1 = inlines_view(els1);
    let ghost stack1 = old(stack)@;
    let total = elements.len();
    let ghost n1 = els1.len() as int;
    proof {
        assert(cp < n1);
        assert(ev1[op as int] is Placeholder);
        assert(ev1[cp as int] is Placeholder);
    }

    // carve out the strictly-between content
    let mut tail = elements.split_off(start);
    proof {
        assert(tail@.len() == n1 - start);
        assert(end - start < tail@.len());
    }
    let keep = end - start + 1;
    let mut after = tail.split_off(keep);
    let mut content = tail;
    if start == op {
        content.remove(0);
    }
    if end == cp {
        content.pop();
    }
    proof {
        assert(content@ =~= els1.subrange(op + 1, cp as int));
        assert forall|q: int|
            0 <= q < inlines_view(content@).len() implies inline_placeholder_free(
            #[trigger] inlines_view(content@)[q],
        ) by {
            assert(inlines_view(content@)[q] == ev1[op + 1 + q]);
            assert(!(ev1[op + 1 + q] is Placeholder));
        }
        lemma_inlines_placeholder_free(inlines_view(content@));
        assert(inlines_placeholder_free(inlines_view(content@)));
    }
    let ghost content0 = content@;
    let wrapper = if used == 2 {
        MdInlineElement::Bold { content }
    } else {
        MdInlineElement::Italic { content }
    };
    proof {
        assert(inline_placeholder_free(wrapper@));
        assert(!(wrapper@ is Placeholder));
    }
    let ghost wm = wrapper@;
    elements.push(wrapper);
    elements.append(&mut after);

    let removed: usize = end - start;
    let ghost ev2 = inlines_view(elements@);
    proof {
        assert(elements@ =~= els1.subrange(0, start as int) + seq![elements@[start as int]]
            + els1.subrange(end + 1, n1));
        assert(elements@.len() == n1 - removed);
        assert(ev2.len() == n1 - removed);
        assert(ev2[start as int] == wm);
        assert forall|q: int| 0 <= q < start implies #[trigger] ev2[q] == ev1[q] by {
            assert(elements@[q] == els1[q]);
        }
        assert forall|q: int| start < q < n1 - removed implies #[trigger] ev2[q] == ev1[q + removed] by {
            assert(elements@[q] == els1[q + removed]);
        }
    }

    // renumber the recorded positions past the spliced range
    let mut k: usize = 0;
    #[verifier::loop_isolation(true)]
    while k < stack.len()
        invariant
            stack@.len() == stack1.len(),
            k <= stack@.len(),
            removed <= end,
            forall|x: int|
                0 <= x < stack@.len() ==> {
                    let d0 = stack1[x];
                    let d1 = (#[trigger] stack@[x]);
                    &&& d1.ch == d0.ch
                    &&& d1.run_length == d0.run_length
                    &&& d1.token_position == d0.token_position
                    &&& d1.active == d0.active
                    &&& d1.can_open == d0.can_open
                    &&& d1.can_close == d0.can_close
                    &&& (x < k ==> d1.parsed_position == (if d0.parsed_position > end {
                        d0.parsed_position - removed
                    } else {
                        d0.parsed_position as int
                    }))
                    &&& (x >= k ==> d1.parsed_position == d0.parsed_position)
                },
        decreases stack@.len() - k,
    {
        if stack[k].parsed_position > end {
            let np = stack[k].parsed_position - removed;
            stack[k].parsed_position = np;
        }
        k = k + 1;
    }

    // consume the paired delimiters
    let or = stack[j].run_length;
    stack[j].run_length = if or >= used {
        or - used
    } else {
        0
    };
    if stack[j].run_length == 0 {
        stack[j].active = false;
    }
    let cr = stack[i].run_length;
    stack[i].run_length = if cr >= used {
        cr - used
    } else {
        0
    };
    if stack[i].run_length == 0 {
        stack[i].active = false;
    }

    proof {
        assert(inlines_view(elements@) =~= ev2);
        assert(stack@[i as int].active == (stack@[i as int].run_length != 0));
        assert(stack@[j as int].active == (stack@[j as int].run_length != 0));
        lemma_pair_splice_wf(
            ev1,
            stack1,
            ev2,
            stack@,
            i as int,
            j as int,
            op as int,
            cp as int,
            used as int,
            start as int,
            end as int,
            removed as int,
            wm,
        );
        assert(inlines_view(content0) =~= ev1.subrange(op + 1, cp as int));
        assert(wm == pair_wrapper(ev1.subrange(op + 1, cp as int), used as int));
        assert(inlines_view(elements@) =~= ev1.subrange(0, start as int) + seq![wm]
            + ev1.subrange(end + 1, n1));
        assert forall|k2: int|
            0 <= k2 < stack@.len() implies #[trigger] stack@[k2] == splice_adjust(
            stack1[k2],
            k2,
            i as int,
            j as int,
            end as int,
            end - start,
            used as int,
        ) by {
            assert(stack@[k2].ch == stack1[k2].ch);
        }
    }
}

/// The corner where both runs keep characters and the two placeholders sit
/// next to each other: nothing lies strictly between them, so an empty
/// wrapper is inserted between the placeholders and every position at or
/// past the insertion moves up by one.
#[verifier::loop_isolation(false)]
#[verifier::rlimit(100)]
fn pair_insert(
    elements: &mut Vec<MdInlineElement>,
    stack: &mut Vec<Delimiter>,
    i: usize,
    j: usize,
    op: usize,
    cp: usize,
    used: usize,
)
    requires
        stack_wf(inlines_view(old(elements)@), old(stack)@),
        j < i < old(stack)@.len(),
        old(stack)@[i as int].active && old(stack)@[i as int].parsed_position == cp,
        old(stack)@[j as int].active && old(stack)@[j as int].parsed_position == op,
        op < cp,
        1 <= used <= 2,
        old(stack)@[j as int].run_length > used,
        old(stack)@[i as int].run_length > used,
        cp == op + 1,
    ensures
        stack_wf(inlines_view(final(elements)@), final(stack)@),
        final(stack)@.len() == old(stack)@.len(),
        forall|k: int|
            0 <= k < old(stack)@.len() ==> delim_same_identity(
                old(stack)@[k],
                #[trigger] final(stack)@[k],
            ),
        inlines_view(final(elements)@) == inlines_view(old(elements)@).subrange(0, cp as int)
            + seq![pair_wrapper(Seq::empty(), used as int)] + inlines_view(
            old(elements)@,
        ).subrange(cp as int, inlines_view(old(elements)@).len() as int),
        forall|k: int|
            0 <= k < old(stack)@.len() ==> #[trigger] final(stack)@[k] == insert_adjust(
                old(stack)@[k],
                k,
                i as int,
                j as int,
                cp as int,
                inlines_view(old(elements)@).len() as int,
                used as int,
            ),
{
    broadcast use lemma_inlines_view;

    let ghost els1 = old(elements)@;
    let ghost ev1 = inlines_view(els1);
    let ghost stack1 = old(stack)@;
    let ghost n1 = els1.len() as int;
    let start = cp;
    proof {
        assert(cp < n1);
    }

    let wrapper = if used == 2 {
        MdInlineElement::Bold { content: Vec::new() }
    } else {
        MdInlineElement::Italic { content: Vec::new() }
    };
    proof {
        assert(inlines_view(Seq::<MdInlineElement>::empty()) =~= Seq::<InlineModel>::empty());
        assert(inline_placeholder_free(wrapper@));
        assert(!(wrapper@ is Placeholder));
    }
    let ghost wm = wrapper@;
    elements.insert(start, wrapper);
    let ghost ev2 = inlines_view(elements@);
    proof {
        assert(ev2.len() == n1 + 1);
        assert(ev2[start as int] == wm);
        assert forall|q: int| 0 <= q < start implies ev2[q] == ev1[q] by {
            assert(elements@[q] == els1[q]);
        }
        assert forall|q: int| start < q < n1 + 1 implies ev2[q] == ev1[q - 1] by {
            assert(elements@[q] == els1[q - 1]);
        }
    }

    // renumber the recorded positions at or past the insertion
    let mut k: usize = 0;
    while k < stack.len()
        invariant
            stack@.len() == stack1.len(),
            k <= stack@.len(),
            forall|x: int|
                0 <= x < stack@.len() ==> {
                    let d0 = stack1[x];
                    let d1 = (#[trigger] stack@[x]);
                    &&& d1.ch == d0.ch
                    &&& d1.run_length == d0.run_length
                    &&& d1.token_position == d0.token_position
                    &&& d1.active == d0.active
                    &&& d1.can_open == d0.can_open
                    &&& d1.can_close == d0.can_close
                    &&& (x < k ==> d1.parsed_position == (if d0.parsed_position >= start && d0.parsed_position
                        <= n1 {
                        d0.parsed_position + 1
                    } else {
                        d0.parsed_position as int
                    }))
                    &&& (x >= k ==> d1.parsed_position == d0.parsed_position)
                },
        decreases stack@.len() - k,
    {
        let pp = stack[k].parsed_position;
        if pp >= start && pp < elements.len() {
            let np = pp + 1;
            stack[k].parsed_position = np;
        } else {
            proof {
                assert(!(stack1[k as int].parsed_position >= start
                    && stack1[k as int].parsed_position <= n1));
            }
        }
        k = k + 1;
    }

    // consume the delimiters; both runs keep characters
    let or = stack[j].run_length;
    stack[j].run_length = if or >= used {
        or - used
    } else {
        0
    };
    let cr = stack[i].run_length;
    stack[i].run_length = if cr >= used {
        cr - used
    } else {
        0
    };
    proof {
        assert(stack@[j as int].run_length > 0);
        assert(stack@[i as int].run_length > 0);
        assert(stack@[j as int].active && stack@[i as int].active);
    }

    proof {
        let elsn = inlines_view(elements@);
        let stn = stack@;
        assert(elsn =~= ev2);
        assert(wm == pair_wrapper(Seq::<InlineModel>::empty(), used as int));
        assert(elsn =~= ev1.subrange(0, cp as int) + seq![wm] + ev1.subrange(cp as int, n1));
        assert forall|k2: int|
            0 <= k2 < stn.len() implies #[trigger] stn[k2] == insert_adjust(
            stack1[k2],
            k2,
            i as int,
            j as int,
            cp as int,
            n1,
            used as int,
        ) by {
            assert(stn[k2].ch == stack1[k2].ch);
        }
        assert forall|k2: int|
            0 <= k2 < stn.len() && (#[trigger] stn[k2]).active implies stn[k2].parsed_position
                < elsn.len() && elsn[stn[k2].parsed_position as int] is Placeholder by {
            let d1 = stack1[k2];
            assert(d1.active);
            assert(d1.parsed_position < n1);
            if d1.parsed_position >= start {
                assert(stn[k2].parsed_position == d1.parsed_position + 1);
                assert(elsn[d1.parsed_position + 1] == ev1[d1.parsed_position as int]);
            } else {
                assert(stn[k2].parsed_position == d1.parsed_position);
                assert(elsn[d1.parsed_position as int] == ev1[d1.parsed_position as int]);
            }
        }
        assert forall|k1: int, k2: int|
            0 <= k1 < k2 < stn.len() && (#[trigger] stn[k1]).active && (
            #[trigger] stn[k2]).active implies stn[k1].parsed_position < stn[
        k2].parsed_position by {
            assert(stack1[k1].parsed_position < stack1[k2].parsed_position);
        }
        assert forall|p: int|
            0 <= p < elsn.len() && (#[trigger] elsn[p]) is Placeholder implies exists|k2: int|
                0 <= k2 < stn.len() && (#[trigger] stn[k2]).active && stn[k2].parsed_position
                    == p by {
            if p < start {
                assert(elsn[p] == ev1[p]);
                let k2 = choose|k2: int|
                    0 <= k2 < stack1.len() && (#[trigger] stack1[k2]).active && stack1[
                k2].parsed_position == p;
                assert(stn[k2].active && stn[k2].parsed_position == p);
            } else if p == start {
                assert(elsn[p] == wm);
                assert(false);
            } else {
                assert(elsn[p] == ev1[p - 1]);
                let k2 = choose|k2: int|
                    0 <= k2 < stack1.len() && (#[trigger] stack1[k2]).active && stack1[
                k2].parsed_position == p - 1;
                assert(stn[k2].active && stn[k2].parsed_position == p);
            }
        }
        assert forall|p: int|
            0 <= p < elsn.len() implies inline_placeholder_free(#[trigger] elsn[p]) || elsn[p]
                is Placeholder by {
            if p < start {
                assert(elsn[p] == ev1[p]);
            } else if p == start {
                assert(elsn[p] == wm);
            } else {
                assert(elsn[p] == ev1[p - 1]);
            }
        }
    }
}

/// Resolves one opener/closer pair: wraps the elements strictly between
/// their placeholders in a `Bold` or `Italic` element, consumes up to two
/// delimiters from each run, keeps the placeholder of a side whose run has
/// characters left, and renumbers every recorded position.
fn apply_pair(elements: &mut Vec<MdInlineElement>, stack: &mut Vec<Delimiter>, i: usize, j: usize)
    requires
        stack_wf(inlines_view(old(elements)@), old(stack)@),
        j < i < old(stack)@.len(),
        old(stack)@[i as int].active,
        old(stack)@[j as int].active,
    ensures
        stack_wf(inlines_view(final(elements)@), final(stack)@),
        final(stack)@.len() == old(stack)@.len(),
        forall|k: int|
            0 <= k < old(stack)@.len() ==> delim_same_identity(
                old(stack)@[k],
                #[trigger] final(stack)@[k],
            ),
        (inlines_view(final(elements)@), final(stack)@) == spec_pair(
            inlines_view(old(elements)@),
            old(stack)@,
            i as int,
            j as int,
        ),
{
    let ghost ev0 = inlines_view(old(elements)@);
    let ghost st0 = old(stack)@;
    let opener = stack[j];
    let closer = stack[i];
    let op = opener.parsed_position;
    let cp = closer.parsed_position;
    proof {
        assert(op < cp);
    }

    degrade_between(elements, stack, op, cp);

    let used: usize = if closer.run_length >= 2 && opener.run_length >= 2 {
        2
    } else {
        1
    };
    let start = if opener.run_length > used {
        op + 1
    } else {
        op
    };
    let end = if closer.run_length > used {
        cp - 1
    } else {
        cp
    };

    proof {
        assert((inlines_view(elements@), stack@) == spec_degrade(
            ev0,
            st0,
            op as int,
            cp as int,
            0,
        ));
    }
    if start <= end {
        pair_splice(elements, stack, i, j, op, cp, used, start, end);
        proof {
            assert(inlines_view(elements@) =~= spec_pair(ev0, st0, i as int, j as int).0);
            assert(stack@ =~= spec_pair(ev0, st0, i as int, j as int).1);
        }
    } else {
        proof {
            assert(cp == op + 1);
            assert(opener.run_length > used && closer.run_length > used);
        }
        pair_insert(elements, stack, i, j, op, cp, used);
        proof {
            assert(inlines_view(elements@) =~= spec_pair(ev0, st0, i as int, j as int).0);
            assert(stack@ =~= spec_pair(ev0, st0, i as int, j as int).1);
        }
    }
}

/// The rule of three: a candidate pair is rejected when either side could
/// both open and close, the two run lengths sum to a multiple of three,
/// and neither run length is itself a multiple of three.
pub open spec fn rule_of_three_rejects(o: Delimiter, c: Delimiter) -> bool {
    &&& (c.can_open && c.can_close) || (o.can_open && o.can_close)
    &&& (o.run_length + c.run_length) % 3 == 0
    &&& o.run_length % 3 != 0
    &&& c.run_length % 3 != 0
}

/// Whether the delimiter at `j` can open for the closer at `i`: active,
/// able to open, of the closer's character, and not rejected by the rule
/// of three.
pub open spec fn pair_eligible(stack: Seq<Delimiter>, i: int, j: int) -> bool {
    let o = stack[j];
    let c = stack[i];
    &&& o.active
    &&& o.can_open
    &&& o.ch == c.ch
    &&& !rule_of_three_rejects(o, c)
}

/// The nearest eligible opener below the closer at `i`, scanning down from
/// `jj`.
pub open spec fn find_opener(stack: Seq<Delimiter>, i: int, jj: int) -> Option<int>
    decreases jj,
{
    if jj <= 0 {
        Option::None
    } else if pair_eligible(stack, i, jj - 1) {
        Option::Some(jj - 1)
    } else {
        find_opener(stack, i, jj - 1)
    }
}

/// An eligible opener with nothing eligible above it is what the scan
/// finds.
proof fn lemma_find_opener_some(stack: Seq<Delimiter>, i: int, j0: int, jj: int)
    requires
        0 <= j0 < jj,
        pair_eligible(stack, i, j0),
        forall|j2: int| j0 < j2 < jj ==> !pair_eligible(stack, i, j2),
    ensures
        find_opener(stack, i, jj) == Option::Some(j0),
    decreases jj,
{
    if jj - 1 > j0 {
        lemma_find_opener_some(stack, i, j0, jj - 1);
    }
}

/// With nothing eligible below `jj` the scan finds nothing.
proof fn lemma_find_opener_none(stack: Seq<Delimiter>, i: int, jj: int)
    requires
        forall|j2: int| 0 <= j2 < jj ==> !pair_eligible(stack, i, j2),
    ensures
        find_opener(stack, i, jj) is None,
    decreases jj,
{
    if jj > 0 {
        lemma_find_opener_none(stack, i, jj - 1);
    }
}

/// The resolver's state after the closers below `i` have been processed:
/// each active closer pairs with the nearest eligible opener, if any.
pub open spec fn spec_resolve_from(
    els: Seq<InlineModel>,
    stack: Seq<Delimiter>,
    i: int,
) -> (Seq<InlineModel>, Seq<Delimiter>)
    decreases stack.len() - i,
{
    if i < 0 || i >= stack.len() {
        (els, stack)
    } else if stack[i].active && stack[i].can_close {
        match find_opener(stack, i, i) {
            Option::Some(j) => {
                let p = spec_pair(els, stack, i, j);
                if p.1.len() == stack.len() {
                    spec_resolve_from(p.0, p.1, i + 1)
                } else {
                    p
                }
            },
            Option::None => spec_resolve_from(els, stack, i + 1),
        }
    } else {
        spec_resolve_from(els, stack, i + 1)
    }
}

/// The elements after the delimiters from `k` on that are still active
/// degrade to the literal text of their remaining runs.
pub open spec fn spec_cleanup(els: Seq<InlineModel>, stack: Seq<Delimiter>, k: int) -> Seq<
    InlineModel,
>
    decreases stack.len() - k,
{
    if k < 0 || k >= stack.len() {
        els
    } else {
        let d = stack[k];
        if d.active && d.parsed_position < els.len() {
            spec_cleanup(
                els.update(
                    d.parsed_position as int,
                    InlineModel::Text(char_repeat(d.ch, d.run_length as int)),
                ),
                stack,
                k + 1,
            )
        } else {
            spec_cleanup(els, stack, k + 1)
        }
    }
}

/// What emphasis resolution does to the elements: a single delimiter
/// degrades in place; otherwise every closer pairs with the nearest
/// eligible opener in turn and whatever stays active degrades afterwards.
pub open spec fn spec_resolve(els: Seq<InlineModel>, stack: Seq<Delimiter>) -> Seq<InlineModel> {
    if stack.len() == 1 {
        if stack[0].active {
            els.update(
                stack[0].parsed_position as int,
                InlineModel::Text(char_repeat(stack[0].ch, stack[0].run_length as int)),
            )
        } else {
            els
        }
    } else {
        let r = spec_resolve_from(els, stack, 0);
        spec_cleanup(r.0, r.1, 0)
    }
}

/// Resolves emphasis over the elements in place: every closer pairs with
/// the nearest unused opener of its character, subject to the rule of
/// three; matched runs become `Bold` or `Italic` wrappers; and every
/// delimiter left unmatched, or left with characters after pairing,
/// degrades to the literal text of its remaining run, so that no character
/// disappears and no `Placeholder` survives.
#[verifier::loop_isolation(false)]
pub fn resolve_emphasis(elements: &mut Vec<MdInlineElement>, delimiter_stack: &mut Vec<Delimiter>)
    requires
        stack_wf(inlines_view(old(elements)@), old(delimiter_stack)@),
    ensures
        inlines_placeholder_free(inlines_view(final(elements)@)),
        inlines_view(final(elements)@) == spec_resolve(
            inlines_view(old(elements)@),
            old(delimiter_stack)@,
        ),
        old(delimiter_stack)@.len() == 0 ==> *final(elements) == *old(elements),
        old(delimiter_stack)@.len() == 1 && old(delimiter_stack)@[0].active ==> inlines_view(
            final(elements)@,
        ) == inlines_view(old(elements)@).update(
            old(delimiter_stack)@[0].parsed_position as int,
            InlineModel::Text(
                char_repeat(
                    old(delimiter_stack)@[0].ch,
                    old(delimiter_stack)@[0].run_length as int,
                ),
            ),
        ),
{
    broadcast use lemma_inlines_view;

    let ghost ev0 = inlines_view(old(elements)@);

    if delimiter_stack.len() == 1 {
        let d = delimiter_stack[0];
        if d.active {
            proof {
                assert(delimiter_stack@[0].active);
            }
            elements[d.parsed_position] = MdInlineElement::Text {
                content: char_run_string(d.ch, d.run_length),
            };
            proof {
                let evn = inlines_view(elements@);
                assert(evn =~= ev0.update(
                    d.parsed_position as int,
                    InlineModel::Text(char_repeat(d.ch, d.run_length as int)),
                ));
                assert forall|p: int|
                    0 <= p < evn.len() implies inline_placeholder_free(#[trigger] evn[p]) by {
                    if p != d.parsed_position {
                        assert(evn[p] == ev0[p]);
                        if ev0[p] is Placeholder {
                            let x = choose|x: int|
                                0 <= x < old(delimiter_stack)@.len() && (#[trigger] old(
                                    delimiter_stack,
                                )@[x]).active && old(delimiter_stack)@[x].parsed_position == p;
                            assert(x == 0);
                            assert(false);
                        }
                    }
                }
                lemma_inlines_placeholder_free(evn);
                assert(inlines_placeholder_free(inlines_view(elements@)));
                assert(inlines_view(elements@) == spec_resolve(ev0, old(delimiter_stack)@));
            }
        } else {
            proof {
                assert forall|p: int|
                    0 <= p < ev0.len() implies inline_placeholder_free(#[trigger] ev0[p]) by {
                    if ev0[p] is Placeholder {
                        let x = choose|x: int|
                            0 <= x < old(delimiter_stack)@.len() && (#[trigger] old(
                                delimiter_stack,
                            )@[x]).active && old(delimiter_stack)@[x].parsed_position == p;
                        assert(x == 0);
                        assert(false);
                    }
                }
                lemma_inlines_placeholder_free(ev0);
                assert(inlines_view(elements@) == ev0);
                assert(inlines_placeholder_free(inlines_view(elements@)));
                assert(inlines_view(elements@) == spec_resolve(ev0, old(delimiter_stack)@));
            }
        }
        return;
    }
    let ghost st0 = old(delimiter_stack)@;

    let mut i: usize = 0;
    while i < delimiter_stack.len()
        invariant
            stack_wf(inlines_view(elements@), delimiter_stack@),
            delimiter_stack@.len() == old(delimiter_stack)@.len(),
            i <= delimiter_stack@.len(),
            spec_resolve_from(ev0, st0, 0) == spec_resolve_from(
                inlines_view(elements@),
                delimiter_stack@,
                i as int,
            ),
            old(delimiter_stack)@.len() == 0 ==> *elements == *old(elements),
        decreases delimiter_stack@.len() - i,
    {
        let ghost ev_it = inlines_view(elements@);
        let ghost st_it = delimiter_stack@;
        let is_closer = delimiter_stack[i].active && delimiter_stack[i].can_close;
        if is_closer {
            let mut jj: usize = i;
            let mut paired = false;
            let ghost mut pj: int = 0;
            while jj > 0 && !paired
                invariant
                    stack_wf(inlines_view(elements@), delimiter_stack@),
                    delimiter_stack@.len() == old(delimiter_stack)@.len(),
                    i < st_it.len(),
                    jj <= i,
                    st_it[i as int].active && st_it[i as int].can_close,
                    !paired ==> inlines_view(elements@) == ev_it && delimiter_stack@ == st_it,
                    !paired ==> forall|j2: int| jj <= j2 < i ==> !pair_eligible(st_it, i as int, j2),
                    paired ==> ({
                        &&& 0 <= pj < i
                        &&& pair_eligible(st_it, i as int, pj)
                        &&& forall|j2: int| pj < j2 < i ==> !pair_eligible(st_it, i as int, j2)
                        &&& (inlines_view(elements@), delimiter_stack@) == spec_pair(
                            ev_it,
                            st_it,
                            i as int,
                            pj,
                        )
                    }),
                    old(delimiter_stack)@.len() == 0 ==> *elements == *old(elements),
                decreases jj,
            {
                jj = jj - 1;
                let opener = delimiter_stack[jj];
                let closer_now = delimiter_stack[i];
                let mut eligible_here = false;
                if opener.active && opener.can_open && opener.ch == closer_now.ch {
                    let rule_of_three = ((closer_now.can_open && closer_now.can_close) || (
                    opener.can_open && opener.can_close)) && (closer_now.run_length % 3
                        + opener.run_length % 3) % 3 == 0 && closer_now.run_length % 3 != 0
                        && opener.run_length % 3 != 0;
                    proof {
                        vstd::arithmetic::div_mod::lemma_add_mod_noop(
                            opener.run_length as int,
                            closer_now.run_length as int,
                            3,
                        );
                        assert(rule_of_three == rule_of_three_rejects(
                            st_it[jj as int],
                            st_it[i as int],
                        ));
                    }
                    if !rule_of_three {
                        eligible_here = true;
                        proof {
                            assert(pair_eligible(st_it, i as int, jj as int));
                        }
                        apply_pair(elements, delimiter_stack, i, jj);
                        paired = true;
                        proof {
                            pj = jj as int;
                        }
                    }
                }
                proof {
                    if !eligible_here {
                        assert(!pair_eligible(st_it, i as int, jj as int));
                    }
                }
            }
            proof {
                if paired {
                    lemma_find_opener_some(st_it, i as int, pj, i as int);
                    assert(spec_resolve_from(ev_it, st_it, i as int) == spec_resolve_from(
                        inlines_view(elements@),
                        delimiter_stack@,
                        i as int + 1,
                    ));
                } else {
                    lemma_find_opener_none(st_it, i as int, i as int);
                    assert(spec_resolve_from(ev_it, st_it, i as int) == spec_resolve_from(
                        inlines_view(elements@),
                        delimiter_stack@,
                        i as int + 1,
                    ));
                }
            }
        } else {
            proof {
                assert(spec_resolve_from(ev_it, st_it, i as int) == spec_resolve_from(
                    ev_it,
                    st_it,
                    i as int + 1,
                ));
            }
        }
        i = i + 1;
    }

    // degrade every delimiter still active to the literal text of its
    // remaining run
    let ghost ev_cl = inlines_view(elements@);
    let ghost st_cl = delimiter_stack@;
    proof {
        assert((ev_cl, st_cl) == spec_resolve_from(ev0, st0, 0));
    }
    let mut k: usize = 0;
    while k < delimiter_stack.len()
        invariant
            delimiter_stack@.len() == old(delimiter_stack)@.len(),
            k <= delimiter_stack@.len(),
            delimiter_stack@ == st_cl,
            spec_cleanup(ev_cl, st_cl, 0) == spec_cleanup(
                inlines_view(elements@),
                st_cl,
                k as int,
            ),
            old(delimiter_stack)@.len() == 0 ==> *elements == *old(elements),
            forall|x: int, y: int|
                0 <= x < y < delimiter_stack@.len() && (#[trigger] delimiter_stack@[x]).active && (
                #[trigger] delimiter_stack@[y]).active ==> delimiter_stack@[x].parsed_position
                    < delimiter_stack@[y].parsed_position,
            forall|x: int|
                0 <= x < delimiter_stack@.len() && (#[trigger] delimiter_stack@[x]).active
                    ==> delimiter_stack@[x].parsed_position < inlines_view(elements@).len(),
            forall|p: int|
                0 <= p < inlines_view(elements@).len() && (#[trigger] inlines_view(elements@)[p])
                    is Placeholder ==> exists|x: int|
                    k <= x < delimiter_stack@.len() && (#[trigger] delimiter_stack@[x]).active
                        && delimiter_stack@[x].parsed_position == p,
            forall|p: int|
                0 <= p < inlines_view(elements@).len() ==> inline_placeholder_free(
                    #[trigger] inlines_view(elements@)[p],
                ) || inlines_view(elements@)[p] is Placeholder,
        decreases delimiter_stack@.len() - k,
    {
        let d = delimiter_stack[k];
        if d.active && d.parsed_position < elements.len() {
            let ghost ev = inlines_view(elements@);
            elements[d.parsed_position] = MdInlineElement::Text {
                content: char_run_string(d.ch, d.run_length),
            };
            proof {
                let evn = inlines_view(elements@);
                let p0 = d.parsed_position as int;
                assert(evn[p0] == InlineModel::Text(char_repeat(d.ch, d.run_length as int)));
                assert(evn =~= ev.update(
                    p0,
                    InlineModel::Text(char_repeat(d.ch, d.run_length as int)),
                ));
                assert(spec_cleanup(ev, st_cl, k as int) == spec_cleanup(evn, st_cl, k + 1));
                assert forall|p: int|
                    0 <= p < evn.len() implies inline_placeholder_free(#[trigger] evn[p]) || evn[p]
                        is Placeholder by {
                    if p != p0 {
                        assert(evn[p] == ev[p]);
                    }
                }
                assert forall|p: int|
                    0 <= p < evn.len() && (#[trigger] evn[p]) is Placeholder implies exists|x: int|
                        k + 1 <= x < delimiter_stack@.len() && (
                        #[trigger] delimiter_stack@[x]).active && delimiter_stack@[
                    x].parsed_position == p by {
                    assert(evn[p] == ev[p]);
                    let x = choose|x: int|
                        k <= x < delimiter_stack@.len() && (#[trigger] delimiter_stack@[x]).active
                            && delimiter_stack@[x].parsed_position == p;
                    assert(x != k);
                }
            }
        } else {
            proof {
                assert forall|p: int|
                    0 <= p < inlines_view(elements@).len() && (#[trigger] inlines_view(
                        elements@,
                    )[p]) is Placeholder implies exists|x: int|
                        k + 1 <= x < delimiter_stack@.len() && (
                        #[trigger] delimiter_stack@[x]).active && delimiter_stack@[
                    x].parsed_position == p by {
                    let x = choose|x: int|
                        k <= x < delimiter_stack@.len() && (#[trigger] delimiter_stack@[x]).active
                            && delimiter_stack@[x].parsed_position == p;
                    assert(x != k);
                }
            }
        }
        k = k + 1;
    }
    proof {
        let evn = inlines_view(elements@);
        assert forall|p: int|
            0 <= p < evn.len() implies inline_placeholder_free(#[trigger] evn[p]) by {
            if evn[p] is Placeholder {
                let x = choose|x: int|
                    k <= x < delimiter_stack@.len() && (#[trigger] delimiter_stack@[x]).active
                        && delimiter_stack@[x].parsed_position == p;
                assert(false);
            }
        }
        lemma_inlines_placeholder_free(evn);
        assert(spec_cleanup(evn, st_cl, st_cl.len() as int) == evn);
        assert(evn == spec_cleanup(ev_cl, st_cl, 0));
        assert(evn == spec_resolve(ev0, st0));
    }
}


/// Appending placeholder-free elements to the output keeps the stack
/// well-formed.
proof fn lemma_wf_append(e0: Seq<InlineModel>, e1: Seq<InlineModel>, stack: Seq<Delimiter>)
    requires
        stack_wf(e0, stack),
        e0.len() <= e1.len(),
        forall|p: int| 0 <= p < e0.len() ==> #[trigger] e1[p] == e0[p],
        forall|p: int|
            e0.len() <= p < e1.len() ==> inline_placeholder_free(#[trigger] e1[p]) && !(e1[p]
                is Placeholder),
    ensures
        stack_wf(e1, stack),
{
    assert forall|k: int|
        0 <= k < stack.len() && (#[trigger] stack[k]).active implies stack[k].parsed_position
            < e1.len() && e1[stack[k].parsed_position as int] is Placeholder by {
        assert(e1[stack[k].parsed_position as int] == e0[stack[k].parsed_position as int]);
    }
    assert forall|p: int|
        0 <= p < e1.len() && (#[trigger] e1[p]) is Placeholder implies exists|k: int|
            0 <= k < stack.len() && (#[trigger] stack[k]).active && stack[k].parsed_position
                == p by {
        assert(p < e0.len() && e1[p] == e0[p]);
    }
    assert forall|p: int|
        0 <= p < e1.len() implies inline_placeholder_free(#[trigger] e1[p]) || e1[p]
            is Placeholder by {
        if p < e0.len() {
            assert(e1[p] == e0[p]);
        }
    }
}

/// Pushing a fresh placeholder and its active delimiter, recorded at the
/// end of the output, keeps the stack well-formed.
proof fn lemma_wf_push_pair(e1: Seq<InlineModel>, s0: Seq<Delimiter>, d: Delimiter)
    requires
        stack_wf(e1, s0),
        d.active,
        d.parsed_position == e1.len(),
    ensures
        stack_wf(e1.push(InlineModel::Placeholder), s0.push(d)),
{
    let e2 = e1.push(InlineModel::Placeholder);
    let s1 = s0.push(d);
    assert forall|k: int|
        0 <= k < s1.len() && (#[trigger] s1[k]).active implies s1[k].parsed_position < e2.len()
            && e2[s1[k].parsed_position as int] is Placeholder by {
        if k < s0.len() {
            assert(s1[k] == s0[k]);
            assert(e2[s1[k].parsed_position as int] == e1[s1[k].parsed_position as int]);
        }
    }
    assert forall|k1: int, k2: int|
        0 <= k1 < k2 < s1.len() && (#[trigger] s1[k1]).active && (
        #[trigger] s1[k2]).active implies s1[k1].parsed_position < s1[k2].parsed_position by {
        if k2 < s0.len() {
            assert(s1[k1] == s0[k1] && s1[k2] == s0[k2]);
        } else {
            assert(s1[k1] == s0[k1]);
            assert(s0[k1].parsed_position < e1.len());
        }
    }
    assert forall|p: int|
        0 <= p < e2.len() && (#[trigger] e2[p]) is Placeholder implies exists|k: int|
            0 <= k < s1.len() && (#[trigger] s1[k]).active && s1[k].parsed_position == p by {
        if p < e1.len() {
            assert(e2[p] == e1[p]);
            let k = choose|k: int|
                0 <= k < s0.len() && (#[trigger] s0[k]).active && s0[k].parsed_position == p;
            assert(s1[k].active && s1[k].parsed_position == p);
        } else {
            assert(s1[s1.len() - 1].active && s1[s1.len() - 1].parsed_position == p);
        }
    }
    assert forall|p: int|
        0 <= p < e2.len() implies inline_placeholder_free(#[trigger] e2[p]) || e2[p]
            is Placeholder by {
        if p < e1.len() {
            assert(e2[p] == e1[p]);
        }
    }
}

/// Rewriting the flanking flags of the delimiters leaves the stack
/// well-formed: well-formedness reads only activity and positions.
proof fn lemma_wf_reclassify(els: Seq<InlineModel>, s0: Seq<Delimiter>, s1: Seq<Delimiter>)
    requires
        stack_wf(els, s0),
        s1.len() == s0.len(),
        forall|k: int|
            0 <= k < s0.len() ==> (#[trigger] s1[k]).active == s0[k].active && s1[
            k].parsed_position == s0[k].parsed_position,
    ensures
        stack_wf(els, s1),
{
    assert forall|p: int|
        0 <= p < els.len() && (#[trigger] els[p]) is Placeholder implies exists|k: int|
            0 <= k < s1.len() && (#[trigger] s1[k]).active && s1[k].parsed_position == p by {
        let k = choose|k: int|
            0 <= k < s0.len() && (#[trigger] s0[k]).active && s0[k].parsed_position == p;
        assert(s1[k].active && s1[k].parsed_position == p);
    }
}

/// A string holding the character `c` repeated `n` times.
fn char_run_string(c: char, n: usize) -> (r: String)
    ensures
        r@ == char_repeat(c, n as int),
{
    let one = char_to_string(c);
    let mut out = String::new();
    let mut k: usize = 0;
    while k < n
        invariant
            k <= n,
            one@ == seq![c],
            out@ == char_repeat(c, k as int),
        decreases n - k,
    {
        out.append(one.as_str());
        proof {
            assert(out@ =~= char_repeat(c, k + 1));
        }
        k = k + 1;
    }
    out
}

/// Appends one character to a string buffer.
fn push_char(buf: &mut String, c: char)
    ensures
        final(buf)@ == old(buf)@ + seq![c],
{
    let s = char_to_string(c);
    buf.append(s.as_str());
}

/// The element, if any, that a flushed inline text buffer contributes.
pub open spec fn inline_flush(buf: Seq<char>) -> Seq<InlineModel> {
    if buf.len() == 0 {
        Seq::empty()
    } else {
        seq![InlineModel::Text(buf)]
    }
}

/// The label scan: from the opening bracket up to the first closing
/// bracket (or the end), emphasis runs become placeholders with delimiter
/// entries, literal tokens gather into text, and everything else is
/// skipped.  Yields the label's elements, its delimiter stack, and where
/// the scan stopped.
pub open spec fn spec_label_scan(
    ts: Seq<TokenModel>,
    pos: int,
    els: Seq<InlineModel>,
    stack: Seq<Delimiter>,
    buf: Seq<char>,
) -> (Seq<InlineModel>, Seq<Delimiter>, int)
    decreases ts.len() - pos,
{
    if pos < 0 || pos >= ts.len() {
        (els + inline_flush(buf), stack, ts.len() as int)
    } else {
        let t = ts[pos];
        if t is CloseBracket {
            (els + inline_flush(buf), stack, pos)
        } else if t is EmphasisRun {
            let els1 = els + inline_flush(buf);
            let d = Delimiter {
                ch: t->EmphasisRun_delimiter,
                run_length: t->EmphasisRun_length as usize,
                token_position: pos as usize,
                parsed_position: els1.len() as usize,
                active: true,
                can_open: true,
                can_close: true,
            };
            spec_label_scan(ts, pos + 1, els1.push(InlineModel::Placeholder), stack.push(d), Seq::empty())
        } else if t is Text {
            spec_label_scan(ts, pos + 1, els, stack, buf + t->Text_0)
        } else if t is Punctuation {
            spec_label_scan(ts, pos + 1, els, stack, buf + t->Punctuation_0)
        } else if t is OrderedListMarker {
            spec_label_scan(ts, pos + 1, els, stack, buf + t->OrderedListMarker_0)
        } else if t is Escape {
            spec_label_scan(ts, pos + 1, els, stack, buf + seq!['\\'] + t->Escape_0)
        } else if t is Whitespace {
            spec_label_scan(ts, pos + 1, els, stack, buf + seq![' '])
        } else if t is ThematicBreak {
            spec_label_scan(ts, pos + 1, els, stack, buf + seq!['-', '-', '-'])
        } else if t is OpenParenthesis {
            spec_label_scan(ts, pos + 1, els, stack, buf + seq!['('])
        } else if t is CloseParenthesis {
            spec_label_scan(ts, pos + 1, els, stack, buf + seq![')'])
        } else {
            spec_label_scan(ts, pos + 1, els, stack, buf)
        }
    }
}

/// What the link parser makes of the tokens from the opening bracket at
/// `p0`: the label is scanned and its emphasis resolved; with a closing
/// bracket, a parenthesised URL and a valid optional double-quoted title,
/// the result is a link carrying the resolved label (or, for an image, its
/// flattened text); any missing piece gives the literal reconstruction as
/// plain text.  Also yields where the cursor comes to rest.
pub open spec fn spec_link(ts: Seq<TokenModel>, p0: int, is_image: bool) -> (InlineModel, int) {
    let sc = spec_label_scan(ts, p0, Seq::empty(), Seq::empty(), Seq::empty());
    let resolved = spec_resolve(sc.0, sc.1);
    let flat = spec_flatten(resolved);
    let ce = sc.2;
    if ce >= ts.len() {
        (InlineModel::Text(seq!['['] + flat), ts.len() as int)
    } else if !(ce + 1 < ts.len() && ts[ce + 1] is OpenParenthesis) {
        (InlineModel::Text(seq!['['] + flat + seq![']']), ce + 1)
    } else {
        let fin = link_scan(ts, ce + 1, ts.len() as int);
        if !fin.done {
            (
                InlineModel::Text(
                    seq!['['] + flat + seq![']'] + seq!['('] + fin.uri + seq![' '],
                ),
                ts.len() as int,
            )
        } else if fin.title.len() > 0 && !fin.valid_title {
            (
                InlineModel::Text(
                    seq!['['] + flat + seq![']'] + seq!['('] + fin.uri + seq![' '] + fin.title
                        + seq![')'],
                ),
                fin.stop,
            )
        } else {
            let t_opt = if fin.title.len() == 0 {
                Option::<Seq<char>>::None
            } else {
                Option::Some(fin.title)
            };
            if is_image {
                (
                    InlineModel::Image { alt_text: flat, title: t_opt, url: fin.uri },
                    fin.stop,
                )
            } else {
                (InlineModel::Link { text: resolved, title: t_opt, url: fin.uri }, fin.stop)
            }
        }
    }
}

/// The URL-and-title scanner's state: the URL and title collected so far,
/// whether the scan has moved from the URL to the title, whether a quoted
/// title was closed, whether its opening quote was seen, and where the
/// closing parenthesis stopped the scan.
pub struct LinkScan {
    pub uri: Seq<char>,
    pub title: Seq<char>,
    pub building_title: bool,
    pub valid_title: bool,
    pub opening_quote: bool,
    pub done: bool,
    pub stop: int,
}

/// One step of the URL-and-title scanner on the token at `at`: a closing
/// parenthesis ends the scan; before the first space every literal token
/// extends the URL; after it, tokens extend the title, with double quotes
/// toggling between an open and a closed quoted title.
pub open spec fn link_scan_step(st: LinkScan, t: TokenModel, at: int) -> LinkScan {
    if st.done {
        st
    } else if t is CloseParenthesis {
        LinkScan { done: true, stop: at, ..st }
    } else if !st.building_title {
        match t {
            TokenModel::Text(txt) => LinkScan { uri: st.uri + txt, ..st },
            TokenModel::Punctuation(txt) => LinkScan { uri: st.uri + txt, ..st },
            TokenModel::OrderedListMarker(txt) => LinkScan { uri: st.uri + txt, ..st },
            TokenModel::Escape(c) => LinkScan { uri: st.uri + seq!['\\'] + c, ..st },
            TokenModel::Whitespace => LinkScan { building_title: true, ..st },
            TokenModel::ThematicBreak => LinkScan { uri: st.uri + seq!['-', '-', '-'], ..st },
            _ => st,
        }
    } else {
        match t {
            TokenModel::Punctuation(txt) => {
                if txt == seq!['"'] {
                    if st.opening_quote {
                        LinkScan { valid_title: true, building_title: false, ..st }
                    } else {
                        LinkScan { opening_quote: true, valid_title: false, ..st }
                    }
                } else {
                    LinkScan { title: st.title + txt, ..st }
                }
            },
            TokenModel::Text(txt) => LinkScan { title: st.title + txt, ..st },
            TokenModel::OrderedListMarker(txt) => LinkScan { title: st.title + txt, ..st },
            TokenModel::Escape(c) => LinkScan { title: st.title + seq!['\\'] + c, ..st },
            TokenModel::EmphasisRun { delimiter, length } => LinkScan {
                title: st.title + char_repeat(delimiter, length),
                ..st
            },
            TokenModel::OpenBracket => LinkScan { title: st.title + seq!['['], ..st },
            TokenModel::CloseBracket => LinkScan { title: st.title + seq![']'], ..st },
            TokenModel::OpenParenthesis => LinkScan { title: st.title + seq!['('], ..st },
            TokenModel::Tab => LinkScan { title: st.title + seq!['\t'], ..st },
            TokenModel::Newline => LinkScan { title: st.title + seq!['\\', 'n'], ..st },
            TokenModel::Whitespace => LinkScan { title: st.title + seq![' '], ..st },
            TokenModel::CodeTick => LinkScan { title: st.title + seq!['`'], ..st },
            TokenModel::CodeFence => LinkScan { title: st.title + seq!['`', '`', '`'], ..st },
            TokenModel::ThematicBreak => LinkScan { title: st.title + seq!['-', '-', '-'], ..st },
            _ => st,
        }
    }
}

/// The scanner's state after reading the tokens in `[start, i)`.
pub open spec fn link_scan(ts: Seq<TokenModel>, start: int, i: int) -> LinkScan
    decreases i - start,
{
    if i <= start {
        LinkScan {
            uri: Seq::empty(),
            title: Seq::empty(),
            building_title: false,
            valid_title: true,
            opening_quote: false,
            done: false,
            stop: ts.len() as int,
        }
    } else {
        link_scan_step(link_scan(ts, start, i - 1), ts[i - 1], i - 1)
    }
}

/// Once the scanner stops it never moves again.
proof fn lemma_link_scan_stable(ts: Seq<TokenModel>, start: int, i: int, j: int)
    requires
        start <= i <= j,
        link_scan(ts, start, i).done,
    ensures
        link_scan(ts, start, j) == link_scan(ts, start, i),
    decreases j - i,
{
    if j > i {
        lemma_link_scan_stable(ts, start, i, j - 1);
    }
}

/// Parses a link or image from the cursor, which stands on the opening
/// bracket: the label (inline-parsed, with emphasis resolved), then a
/// parenthesised URL with an optional double-quoted title.  Any missing
/// piece degrades the whole construct to its literal text.  The result
/// never holds a `Placeholder`.
#[verifier::loop_isolation(false)]
fn parse_link_type(cursor: &mut TokenCursor, is_image: bool) -> (r: MdInlineElement)
    requires
        old(cursor).current_position < old(cursor).tokens@.len(),
        old(cursor).tokens@[old(cursor).current_position as int]@ is OpenBracket,
    ensures
        final(cursor).tokens == old(cursor).tokens,
        old(cursor).current_position < final(cursor).current_position,
        final(cursor).current_position <= final(cursor).tokens@.len(),
        inline_placeholder_free(r@),
        is_image ==> (r@ is Image || r@ is Text),
        !is_image ==> (r@ is Link || r@ is Text),
        ({
            let lk = spec_link(
                tokens_view(old(cursor).tokens@),
                old(cursor).current_position as int,
                is_image,
            );
            r@ == lk.0 && final(cursor).current_position == lk.1
        }),
{
    broadcast use lemma_inlines_view;

    let ghost ts = tokens_view(old(cursor).tokens@);
    let ghost p0 = old(cursor).current_position as int;

    let mut label_elements: Vec<MdInlineElement> = Vec::new();
    let mut label_buffer = String::new();
    let mut label_stack: Vec<Delimiter> = Vec::new();
    proof {
        assert(inlines_view(label_elements@) =~= Seq::<InlineModel>::empty());
    }

    let ghost lsc = spec_label_scan(ts, p0, Seq::empty(), Seq::empty(), Seq::empty());
    let mut done = false;
    while !done && !cursor.is_at_eof()
        invariant
            cursor.tokens == old(cursor).tokens,
            p0 <= cursor.current_position <= cursor.tokens@.len(),
            done ==> p0 < cursor.current_position && ts[cursor.current_position as int]
                is CloseBracket,
            !done ==> lsc == spec_label_scan(
                ts,
                cursor.current_position as int,
                inlines_view(label_elements@),
                label_stack@,
                label_buffer@,
            ),
            done ==> lsc == (
                inlines_view(label_elements@),
                label_stack@,
                cursor.current_position as int,
            ),
            stack_wf(inlines_view(label_elements@), label_stack@),
        decreases cursor.tokens@.len() - cursor.current_position, (if done {
            0int
        } else {
            1int
        }),
    {
        let ghost pos0 = cursor.current_position as int;
        let ghost e_pre = inlines_view(label_elements@);
        let ghost s_pre = label_stack@;
        let ghost b_pre = label_buffer@;
        let is_close = matches!(
            &cursor.tokens[cursor.current_position],
            Token::CloseBracket
        );
        if is_close {
            proof {
                assert(cursor.current_position > p0);
            }
            let ghost eprev = inlines_view(label_elements@);
            push_buffer_to_collection(&mut label_elements, &mut label_buffer);
            done = true;
            proof {
                lemma_wf_append(eprev, inlines_view(label_elements@), label_stack@);
                assert(inlines_view(label_elements@) =~= e_pre + inline_flush(b_pre));
            }
        } else {
            let token = cursor.tokens[cursor.current_position].clone();
            match token {
                Token::EmphasisRun { delimiter, length } => {
                    let ghost e0 = inlines_view(label_elements@);
                    let ghost s0 = label_stack@;
                    push_buffer_to_collection(&mut label_elements, &mut label_buffer);
                    let ghost e1 = inlines_view(label_elements@);
                    proof {
                        lemma_wf_append(e0, e1, s0);
                        assert(e1 =~= e0 + inline_flush(b_pre));
                    }
                    let d = Delimiter {
                        run_length: length,
                        ch: delimiter,
                        token_position: cursor.position(),
                        parsed_position: label_elements.len(),
                        active: true,
                        can_open: true,
                        can_close: true,
                    };
                    label_stack.push(d);
                    label_elements.push(MdInlineElement::Placeholder);
                    proof {
                        lemma_wf_push_pair(e1, s0, d);
                        assert(inlines_view(label_elements@) =~= e1.push(
                            InlineModel::Placeholder,
                        ));
                        assert(label_stack@ =~= s0.push(d));
                        assert(label_buffer@ =~= Seq::<char>::empty());
                        assert(d == Delimiter {
                            ch: ts[pos0]->EmphasisRun_delimiter,
                            run_length: ts[pos0]->EmphasisRun_length as usize,
                            token_position: pos0 as usize,
                            parsed_position: e1.len() as usize,
                            active: true,
                            can_open: true,
                            can_close: true,
                        });
                    }
                },
                Token::Text(str_content) => label_buffer.append(str_content.as_str()),
                Token::Punctuation(str_content) => label_buffer.append(str_content.as_str()),
                Token::OrderedListMarker(str_content) => label_buffer.append(
                    str_content.as_str(),
                ),
                Token::Escape(esc) => {
                    push_char(&mut label_buffer, '\\');
                    label_buffer.append(esc.as_str());
                },
                Token::Whitespace => push_char(&mut label_buffer, ' '),
                Token::ThematicBreak => {
                    push_char(&mut label_buffer, '-');
                    push_char(&mut label_buffer, '-');
                    push_char(&mut label_buffer, '-');
                },
                Token::OpenParenthesis => push_char(&mut label_buffer, '('),
                Token::CloseParenthesis => push_char(&mut label_buffer, ')'),
                _ => {},
            }
            proof {
                assert(token@ == ts[pos0]);
                if ts[pos0] is Escape {
                    assert(label_buffer@ =~= b_pre + seq!['\\'] + ts[pos0]->Escape_0);
                }
                if ts[pos0] is ThematicBreak {
                    assert(label_buffer@ =~= b_pre + seq!['-', '-', '-']);
                }
                assert(lsc == spec_label_scan(
                    ts,
                    pos0 + 1,
                    inlines_view(label_elements@),
                    label_stack@,
                    label_buffer@,
                ));
            }
            cursor.advance();
        }
    }
    if !done {
        let ghost eprev = inlines_view(label_elements@);
        let ghost bprev = label_buffer@;
        push_buffer_to_collection(&mut label_elements, &mut label_buffer);
        proof {
            lemma_wf_append(eprev, inlines_view(label_elements@), label_stack@);
            assert(inlines_view(label_elements@) =~= eprev + inline_flush(bprev));
        }
    }
    proof {
        assert(lsc == (
            inlines_view(label_elements@),
            label_stack@,
            cursor.current_position as int,
        ));
    }
    let ghost resolved = spec_resolve(inlines_view(label_elements@), label_stack@);

    resolve_emphasis(&mut label_elements, &mut label_stack);

    proof {
        assert(inlines_view(label_elements@) == resolved);
    }
    let ghost ce = lsc.2;

    // without a closing bracket the construct is literal text
    let at_close = cursor.current_position < cursor.tokens.len() && matches!(
        &cursor.tokens[cursor.current_position],
        Token::CloseBracket
    );
    if !at_close {
        let mut t = char_to_string('[');
        let flat = flatten_inline(label_elements);
        t.append(flat.as_str());
        proof {
            assert(ce == ts.len());
            assert(t@ =~= seq!['['] + spec_flatten(resolved));
        }
        return MdInlineElement::Text { content: t };
    }

    // without a following parenthesis the construct is literal text
    let paren_next = match cursor.peek_ahead(1) {
        Some(t) => matches!(t, Token::OpenParenthesis),
        None => false,
    };
    if !paren_next {
        cursor.advance();
        let mut t = char_to_string('[');
        let flat = flatten_inline(label_elements);
        t.append(flat.as_str());
        push_char(&mut t, ']');
        proof {
            assert(ce < ts.len() && !(ce + 1 < ts.len() && ts[ce + 1] is OpenParenthesis));
            assert(t@ =~= seq!['['] + spec_flatten(resolved) + seq![']']);
        }
        return MdInlineElement::Text { content: t };
    }

    cursor.advance();
    let ghost scan_start = ce + 1;
    proof {
        assert(cursor.current_position == scan_start);
    }

    let mut uri = String::new();
    let mut title = String::new();
    let mut is_building_title = false;
    let mut is_valid_title = true;
    let mut has_opening_quote = false;

    let mut at_close_paren = false;
    while !at_close_paren && !cursor.is_at_eof()
        invariant
            cursor.tokens == old(cursor).tokens,
            p0 < cursor.current_position <= cursor.tokens@.len(),
            scan_start <= cursor.current_position,
            !at_close_paren ==> ({
                let st = link_scan(ts, scan_start, cursor.current_position as int);
                &&& !st.done
                &&& st.uri == uri@
                &&& st.title == title@
                &&& st.building_title == is_building_title
                &&& st.valid_title == is_valid_title
                &&& st.opening_quote == has_opening_quote
            }),
            at_close_paren ==> ({
                let fin = link_scan(ts, scan_start, ts.len() as int);
                &&& fin.done
                &&& fin.stop == cursor.current_position
                &&& fin.uri == uri@
                &&& fin.title == title@
                &&& fin.valid_title == is_valid_title
            }),
        decreases cursor.tokens@.len() - cursor.current_position, (if at_close_paren {
            0int
        } else {
            1int
        }),
    {
        let ghost pos0 = cursor.current_position as int;
        let ghost st0 = link_scan(ts, scan_start, pos0);
        let token = cursor.tokens[cursor.current_position].clone();
        proof {
            assert(token@ == ts[pos0]);
        }
        if matches!(token, Token::CloseParenthesis) {
            at_close_paren = true;
            proof {
                assert(link_scan(ts, scan_start, pos0 + 1) == link_scan_step(st0, ts[pos0], pos0));
                lemma_link_scan_stable(ts, scan_start, pos0 + 1, ts.len() as int);
            }
        } else {
            if !is_building_title {
                match token {
                    Token::Text(str_content) => uri.append(str_content.as_str()),
                    Token::Punctuation(str_content) => uri.append(str_content.as_str()),
                    Token::OrderedListMarker(str_content) => uri.append(str_content.as_str()),
                    Token::Escape(esc) => {
                        push_char(&mut uri, '\\');
                        uri.append(esc.as_str());
                    },
                    Token::Whitespace => is_building_title = true,
                    Token::ThematicBreak => {
                        push_char(&mut uri, '-');
                        push_char(&mut uri, '-');
                        push_char(&mut uri, '-');
                    },
                    _ => {},
                }
            } else {
                match token {
                    Token::Punctuation(str_content) => {
                        if string_is_char(&str_content, '"') {
                            if has_opening_quote {
                                is_valid_title = true;
                                is_building_title = false;
                            } else {
                                has_opening_quote = true;
                                is_valid_title = false;
                            }
                        } else {
                            title.append(str_content.as_str());
                        }
                    },
                    Token::Text(str_content) => title.append(str_content.as_str()),
                    Token::OrderedListMarker(str_content) => title.append(str_content.as_str()),
                    Token::Escape(esc) => {
                        push_char(&mut title, '\\');
                        title.append(esc.as_str());
                    },
                    Token::EmphasisRun { delimiter, length } => {
                        let d = char_to_string(delimiter);
                        let ghost t0 = title@;
                        let mut q: usize = 0;
                        while q < length
                            invariant
                                q <= length,
                                d@ == seq![delimiter],
                                title@ == t0 + char_repeat(delimiter, q as int),
                            decreases length - q,
                        {
                            title.append(d.as_str());
                            proof {
                                assert(title@ =~= t0 + char_repeat(delimiter, q + 1));
                            }
                            q = q + 1;
                        }
                        proof {
                            if length == 0 {
                                assert(title@ =~= t0 + char_repeat(delimiter, 0));
                            }
                        }
                    },
                    Token::OpenBracket => push_char(&mut title, '['),
                    Token::CloseBracket => push_char(&mut title, ']'),
                    Token::OpenParenthesis => push_char(&mut title, '('),
                    Token::Tab => push_char(&mut title, '\t'),
                    Token::Newline => {
                        push_char(&mut title, '\\');
                        push_char(&mut title, 'n');
                    },
                    Token::Whitespace => push_char(&mut title, ' '),
                    Token::CodeTick => push_char(&mut title, '`'),
                    Token::CodeFence => {
                        push_char(&mut title, '`');
                        push_char(&mut title, '`');
                        push_char(&mut title, '`');
                    },
                    Token::ThematicBreak => {
                        push_char(&mut title, '-');
                        push_char(&mut title, '-');
                        push_char(&mut title, '-');
                    },
                    _ => {},
                }
            }
            proof {
                assert(link_scan(ts, scan_start, pos0 + 1) == link_scan_step(
                    st0,
                    ts[pos0],
                    pos0,
                ));
            }
            cursor.advance();
        }
    }
    proof {
        if !at_close_paren {
            assert(cursor.current_position == ts.len());
        }
    }

    // an unterminated URL or an invalid quoted title degrades to text
    let ghost fin = link_scan(ts, scan_start, ts.len() as int);
    if !at_close_paren {
        let mut t = char_to_string('[');
        let flat = flatten_inline(label_elements);
        t.append(flat.as_str());
        push_char(&mut t, ']');
        push_char(&mut t, '(');
        t.append(uri.as_str());
        push_char(&mut t, ' ');
        proof {
            assert(!fin.done && fin.uri == uri@);
            assert(t@ =~= seq!['['] + spec_flatten(resolved) + seq![']'] + seq!['('] + fin.uri
                + seq![' ']);
        }
        return MdInlineElement::Text { content: t };
    }
    if !title.as_str().is_empty() && !is_valid_title {
        let mut t = char_to_string('[');
        let flat = flatten_inline(label_elements);
        t.append(flat.as_str());
        push_char(&mut t, ']');
        push_char(&mut t, '(');
        t.append(uri.as_str());
        push_char(&mut t, ' ');
        t.append(title.as_str());
        push_char(&mut t, ')');
        proof {
            assert(fin.done && fin.title.len() > 0 && !fin.valid_title);
            assert(t@ =~= seq!['['] + spec_flatten(resolved) + seq![']'] + seq!['('] + fin.uri
                + seq![' '] + fin.title + seq![')']);
        }
        return MdInlineElement::Text { content: t };
    }

    let title_opt = if title.as_str().is_empty() {
        None
    } else {
        Some(title)
    };
    proof {
        assert(fin.done && (fin.title.len() == 0 || fin.valid_title));
    }
    if is_image {
        let alt_text = flatten_inline(label_elements);
        proof {
            assert(alt_text@ == spec_flatten(resolved));
        }
        MdInlineElement::Image { alt_text, title: title_opt, url: uri }
    } else {
        let ghost lv = inlines_view(label_elements@);
        proof {
            assert(inlines_placeholder_free(lv));
            assert(lv == resolved);
        }
        let r = MdInlineElement::Link { text: label_elements, title: title_opt, url: uri };
        proof {
            assert(r@ is Link && r@->Link_text == lv);
            assert(inline_placeholder_free(r@));
        }
        r
    }
}

/// Where a scan for the next code tick stops: at or past where it starts,
/// and on a code tick unless it ran off the end.
proof fn lemma_code_span_end(ts: Seq<TokenModel>, i: int)
    requires
        0 <= i <= ts.len(),
    ensures
        i <= spec_code_span_end(ts, i) <= ts.len(),
        spec_code_span_end(ts, i) < ts.len() ==> ts[spec_code_span_end(ts, i)] is CodeTick,
    decreases ts.len() - i,
{
    if i < ts.len() && !(ts[i] is CodeTick) {
        lemma_code_span_end(ts, i + 1);
    }
}

/// The inline scan: the single left-to-right pass of the inline parser.
/// Emphasis runs become placeholders with delimiter entries, brackets and
/// a leading bang start links and images, code ticks span to the next
/// tick, literal tokens gather into text, and the remaining markers flush
/// the text built so far.  Yields the elements before emphasis resolution
/// and the delimiter stack.
pub open spec fn spec_inline_scan(
    ts: Seq<TokenModel>,
    pos: int,
    els: Seq<InlineModel>,
    stack: Seq<Delimiter>,
    buf: Seq<char>,
) -> (Seq<InlineModel>, Seq<Delimiter>)
    decreases ts.len() - pos,
{
    if pos < 0 || pos >= ts.len() {
        (els + inline_flush(buf), stack)
    } else {
        let t = ts[pos];
        if t is EmphasisRun {
            let els1 = els + inline_flush(buf);
            let d = Delimiter {
                ch: t->EmphasisRun_delimiter,
                run_length: t->EmphasisRun_length as usize,
                token_position: pos as usize,
                parsed_position: els1.len() as usize,
                active: true,
                can_open: true,
                can_close: true,
            };
            spec_inline_scan(
                ts,
                pos + 1,
                els1.push(InlineModel::Placeholder),
                stack.push(d),
                Seq::empty(),
            )
        } else if t is OpenBracket {
            let lk = spec_link(ts, pos, false);
            let np = if lk.1 < pos + 1 {
                pos + 1
            } else {
                lk.1
            };
            let next = if np + 1 <= ts.len() {
                np + 1
            } else {
                ts.len() as int
            };
            spec_inline_scan(ts, next, els + inline_flush(buf) + seq![lk.0], stack, Seq::empty())
        } else if t is CodeTick {
            let stop = spec_code_span_end(ts, pos + 1);
            let content = spec_code_span_content(ts, pos + 1);
            let el = if stop < ts.len() {
                InlineModel::Code(content)
            } else {
                InlineModel::Text(seq!['`'] + content + seq!['`'])
            };
            let stop2 = if stop < pos + 1 {
                pos + 1
            } else {
                stop
            };
            let next = if stop2 + 1 <= ts.len() {
                stop2 + 1
            } else {
                ts.len() as int
            };
            spec_inline_scan(ts, next, els + inline_flush(buf) + seq![el], stack, Seq::empty())
        } else if t is Punctuation && t->Punctuation_0 == seq!['!'] && pos + 1 < ts.len() && ts[pos
            + 1] is OpenBracket {
            let lk = spec_link(ts, pos + 1, true);
            let np = if lk.1 < pos + 2 {
                pos + 2
            } else {
                lk.1
            };
            let next = if np + 1 <= ts.len() {
                np + 1
            } else {
                ts.len() as int
            };
            spec_inline_scan(ts, next, els + inline_flush(buf) + seq![lk.0], stack, Seq::empty())
        } else if t is Escape {
            spec_inline_scan(ts, pos + 1, els, stack, buf + seq!['\\'] + t->Escape_0)
        } else if t is Text {
            spec_inline_scan(ts, pos + 1, els, stack, buf + t->Text_0)
        } else if t is Punctuation {
            spec_inline_scan(ts, pos + 1, els, stack, buf + t->Punctuation_0)
        } else if t is OrderedListMarker {
            spec_inline_scan(ts, pos + 1, els, stack, buf + t->OrderedListMarker_0)
        } else if t is RawHtmlTag {
            spec_inline_scan(ts, pos + 1, els, stack, buf + t->RawHtmlTag_0)
        } else if t is Whitespace {
            spec_inline_scan(ts, pos + 1, els, stack, buf + seq![' '])
        } else if t is CloseBracket {
            spec_inline_scan(ts, pos + 1, els, stack, buf + seq![']'])
        } else if t is OpenParenthesis {
            spec_inline_scan(ts, pos + 1, els, stack, buf + seq!['('])
        } else if t is CloseParenthesis {
            spec_inline_scan(ts, pos + 1, els, stack, buf + seq![')'])
        } else if t is ThematicBreak {
            spec_inline_scan(ts, pos + 1, els, stack, buf + seq!['-', '-', '-'])
        } else {
            spec_inline_scan(ts, pos + 1, els + inline_flush(buf), stack, Seq::empty())
        }
    }
}

/// Every delimiter with its flanking flags computed from the tokens
/// around its run.
pub open spec fn spec_classified(ts: Seq<TokenModel>, stack: Seq<Delimiter>) -> Seq<Delimiter> {
    Seq::new(
        stack.len(),
        |k: int|
            Delimiter {
                can_open: spec_can_open(ts, stack[k].token_position as int, stack[k].ch),
                can_close: spec_can_close(ts, stack[k].token_position as int, stack[k].ch),
                ..stack[k]
            },
    )
}

/// What the inline parser makes of a token sequence: the scan pass builds
/// elements, a text buffer and a delimiter stack; the delimiters are
/// classified by flanking; and emphasis resolution rewrites the elements.
pub open spec fn spec_parse_inline(ts: Seq<TokenModel>) -> Seq<InlineModel> {
    let sc = spec_inline_scan(ts, 0, Seq::empty(), Seq::empty(), Seq::empty());
    spec_resolve(sc.0, spec_classified(ts, sc.1))
}

/// Whether a token contributes only its literal text to inline parsing.
/// An escape is plain: the backslash and the escaped character are kept
/// visibly and never open any construct.
pub open spec fn plain_token(t: TokenModel) -> bool {
    ||| t is Text
    ||| t is Punctuation
    ||| t is OrderedListMarker
    ||| t is Whitespace
    ||| t is ThematicBreak
    ||| t is Escape
}

/// The literal text of a plain token.
pub open spec fn plain_token_text(t: TokenModel) -> Seq<char> {
    match t {
        TokenModel::Text(s) => s,
        TokenModel::Punctuation(s) => s,
        TokenModel::OrderedListMarker(s) => s,
        TokenModel::Whitespace => seq![' '],
        TokenModel::ThematicBreak => seq!['-', '-', '-'],
        TokenModel::Escape(c) => seq!['\\'] + c,
        _ => Seq::empty(),
    }
}

/// Whether every token is plain: nothing in the sequence opens any inline
/// construct.
pub open spec fn all_plain_tokens(ts: Seq<TokenModel>) -> bool {
    forall|k: int| 0 <= k < ts.len() ==> plain_token(#[trigger] ts[k])
}

/// The concatenated literal text of a sequence of plain tokens.
pub open spec fn concat_plain_text(ts: Seq<TokenModel>) -> Seq<char>
    decreases ts.len(),
{
    if ts.len() == 0 {
        Seq::empty()
    } else {
        concat_plain_text(ts.subrange(0, ts.len() - 1)) + plain_token_text(ts[ts.len() - 1])
    }
}

/// Extending a plain token sequence appends that token's literal text.
proof fn lemma_concat_plain_push(ts: Seq<TokenModel>, t: TokenModel)
    ensures
        concat_plain_text(ts.push(t)) == concat_plain_text(ts) + plain_token_text(t),
{
    assert(ts.push(t).subrange(0, ts.push(t).len() - 1) =~= ts);
    assert(ts.push(t)[ts.push(t).len() - 1] == t);
}

/// What `parse_inline` returns for a sequence of plain tokens: nothing for
/// empty text, and otherwise exactly one `Text` element holding the
/// concatenated literal text.
pub open spec fn spec_plain_inline_result(ts: Seq<TokenModel>) -> Seq<InlineModel> {
    if concat_plain_text(ts).len() == 0 {
        Seq::empty()
    } else {
        seq![InlineModel::Text(concat_plain_text(ts))]
    }
}

/// Parses the tokens of one block into inline elements: emphasis through
/// the delimiter stack, links, images and code spans, and plain text for
/// everything else.  The result is exactly `spec_parse_inline` of the
/// tokens; it never holds a `Placeholder`, and a sequence of plain text
/// tokens comes back as the one `Text` element holding exactly their
/// text.
#[verifier::loop_isolation(false)]
pub fn parse_inline(markdown_tokens: Vec<Token>) -> (r: Vec<MdInlineElement>)
    ensures
        inlines_placeholder_free(inlines_view(r@)),
        inlines_view(r@) == spec_parse_inline(tokens_view(markdown_tokens@)),
        all_plain_tokens(tokens_view(markdown_tokens@)) ==> inlines_view(r@)
            == spec_plain_inline_result(tokens_view(markdown_tokens@)),
{
    broadcast use lemma_inlines_view;

    let ghost ts = tokens_view(markdown_tokens@);
    let ghost scan_goal = spec_inline_scan(ts, 0, Seq::empty(), Seq::empty(), Seq::empty());

    let mut parsed_inline_elements: Vec<MdInlineElement> = Vec::new();
    let mut cursor = TokenCursor { tokens: markdown_tokens, current_position: 0 };
    let mut delimiter_stack: Vec<Delimiter> = Vec::new();
    let mut buffer = String::new();

    proof {
        assert(inlines_view(parsed_inline_elements@) =~= Seq::<InlineModel>::empty());
        assert(concat_plain_text(ts.subrange(0, 0)) =~= Seq::<char>::empty());
    }

    while !cursor.is_at_eof()
        invariant
            tokens_view(cursor.tokens@) == ts,
            cursor.current_position <= cursor.tokens@.len(),
            stack_wf(inlines_view(parsed_inline_elements@), delimiter_stack@),
            scan_goal == spec_inline_scan(
                ts,
                cursor.current_position as int,
                inlines_view(parsed_inline_elements@),
                delimiter_stack@,
                buffer@,
            ),
            forall|k: int|
                0 <= k < delimiter_stack@.len() ==> (
                #[trigger] delimiter_stack@[k]).token_position < cursor.tokens@.len(),
            all_plain_tokens(ts) ==> parsed_inline_elements@.len() == 0 && delimiter_stack@.len()
                == 0 && buffer@ == concat_plain_text(
                ts.subrange(0, cursor.current_position as int),
            ),
        decreases cursor.tokens@.len() - cursor.current_position,
    {
        let ghost pos0 = cursor.current_position as int;
        let ghost e_pre = inlines_view(parsed_inline_elements@);
        let ghost s_pre = delimiter_stack@;
        let ghost b_pre = buffer@;
        let current_token = cursor.tokens[cursor.current_position].clone();
        proof {
            assert(current_token@ == ts[pos0]);
            if all_plain_tokens(ts) {
                assert(plain_token(ts[pos0]));
                assert(ts.subrange(0, pos0 + 1) =~= ts.subrange(0, pos0).push(ts[pos0]));
                lemma_concat_plain_push(ts.subrange(0, pos0), ts[pos0]);
            }
        }

        match current_token {
            Token::EmphasisRun { delimiter, length } => {
                let ghost e0 = inlines_view(parsed_inline_elements@);
                let ghost s0 = delimiter_stack@;
                push_buffer_to_collection(&mut parsed_inline_elements, &mut buffer);
                let ghost e1 = inlines_view(parsed_inline_elements@);
                let dnew = Delimiter {
                    run_length: length,
                    ch: delimiter,
                    token_position: cursor.position(),
                    parsed_position: parsed_inline_elements.len(),
                    active: true,
                    can_open: true,
                    can_close: true,
                };
                delimiter_stack.push(dnew);
                parsed_inline_elements.push(MdInlineElement::Placeholder);
                proof {
                    lemma_wf_append(e0, e1, s0);
                    lemma_wf_push_pair(e1, s0, dnew);
                    assert(inlines_view(parsed_inline_elements@) =~= e1.push(
                        InlineModel::Placeholder,
                    ));
                    assert(delimiter_stack@ =~= s0.push(dnew));
                    assert(e1 =~= e_pre + inline_flush(b_pre));
                    assert(buffer@ =~= Seq::<char>::empty());
                    assert(dnew == Delimiter {
                        ch: ts[pos0]->EmphasisRun_delimiter,
                        run_length: ts[pos0]->EmphasisRun_length as usize,
                        token_position: pos0 as usize,
                        parsed_position: e1.len() as usize,
                        active: true,
                        can_open: true,
                        can_close: true,
                    });
                    assert(scan_goal == spec_inline_scan(
                        ts,
                        pos0 + 1,
                        inlines_view(parsed_inline_elements@),
                        delimiter_stack@,
                        buffer@,
                    ));
                }
                cursor.advance();
            },
            Token::OpenBracket => {
                let ghost e0 = inlines_view(parsed_inline_elements@);
                push_buffer_to_collection(&mut parsed_inline_elements, &mut buffer);
                let link_element = parse_link_type(&mut cursor, false);
                let ghost np = cursor.current_position as int;
                parsed_inline_elements.push(link_element);
                proof {
                    lemma_wf_append(e0, inlines_view(parsed_inline_elements@), delimiter_stack@);
                    assert(inlines_view(parsed_inline_elements@) =~= e_pre + inline_flush(b_pre)
                        + seq![spec_link(ts, pos0, false).0]);
                    assert(buffer@ =~= Seq::<char>::empty());
                    assert(np == spec_link(ts, pos0, false).1);
                }
                cursor.advance();
                proof {
                    assert(scan_goal == spec_inline_scan(
                        ts,
                        cursor.current_position as int,
                        inlines_view(parsed_inline_elements@),
                        delimiter_stack@,
                        buffer@,
                    ));
                }
            },
            Token::CodeTick => {
                let ghost e0c = inlines_view(parsed_inline_elements@);
                cursor.advance();
                push_buffer_to_collection(&mut parsed_inline_elements, &mut buffer);
                let code_content = parse_code_span(&mut cursor);
                proof {
                    lemma_code_span_end(ts, pos0 + 1);
                }
                let closed = cursor.current_position < cursor.tokens.len() && matches!(
                    &cursor.tokens[cursor.current_position],
                    Token::CodeTick
                );
                if !closed {
                    let mut t = char_to_string('`');
                    t.append(code_content.as_str());
                    push_char(&mut t, '`');
                    proof {
                        assert(t@ =~= seq!['`'] + spec_code_span_content(ts, pos0 + 1)
                            + seq!['`']);
                    }
                    parsed_inline_elements.push(MdInlineElement::Text { content: t });
                } else {
                    parsed_inline_elements.push(MdInlineElement::Code { content: code_content });
                }
                proof {
                    lemma_wf_append(e0c, inlines_view(parsed_inline_elements@), delimiter_stack@);
                    assert(buffer@ =~= Seq::<char>::empty());
                    assert(inlines_view(parsed_inline_elements@) =~= e_pre + inline_flush(b_pre)
                        + seq![
                        if spec_code_span_end(ts, pos0 + 1) < ts.len() {
                            InlineModel::Code(spec_code_span_content(ts, pos0 + 1))
                        } else {
                            InlineModel::Text(
                                seq!['`'] + spec_code_span_content(ts, pos0 + 1) + seq!['`'],
                            )
                        },
                    ]);
                }
                cursor.advance();
                proof {
                    assert(scan_goal == spec_inline_scan(
                        ts,
                        cursor.current_position as int,
                        inlines_view(parsed_inline_elements@),
                        delimiter_stack@,
                        buffer@,
                    ));
                }
            },
            Token::Punctuation(str_content) => {
                let is_bang = string_is_char(&str_content, '!');
                let bracket_next = match cursor.peek_ahead(1) {
                    Some(t) => matches!(t, Token::OpenBracket),
                    None => false,
                };
                if is_bang && bracket_next {
                    proof {
                        if all_plain_tokens(ts) {
                            assert(plain_token(ts[pos0 + 1]));
                            assert(false);
                        }
                    }
                    let ghost e0i = inlines_view(parsed_inline_elements@);
                    push_buffer_to_collection(&mut parsed_inline_elements, &mut buffer);
                    cursor.advance();
                    let image = parse_link_type(&mut cursor, true);
                    let ghost np = cursor.current_position as int;
                    parsed_inline_elements.push(image);
                    proof {
                        lemma_wf_append(
                            e0i,
                            inlines_view(parsed_inline_elements@),
                            delimiter_stack@,
                        );
                        assert(inlines_view(parsed_inline_elements@) =~= e_pre + inline_flush(
                            b_pre,
                        ) + seq![spec_link(ts, pos0 + 1, true).0]);
                        assert(buffer@ =~= Seq::<char>::empty());
                        assert(np == spec_link(ts, pos0 + 1, true).1);
                    }
                    cursor.advance();
                    proof {
                        assert(scan_goal == spec_inline_scan(
                            ts,
                            cursor.current_position as int,
                            inlines_view(parsed_inline_elements@),
                            delimiter_stack@,
                            buffer@,
                        ));
                    }
                } else {
                    buffer.append(str_content.as_str());
                    proof {
                        assert(!(ts[pos0]->Punctuation_0 == seq!['!'] && pos0 + 1 < ts.len()
                            && ts[pos0 + 1] is OpenBracket));
                    }
                    cursor.advance();
                }
            },
            Token::Escape(esc) => {
                push_char(&mut buffer, '\\');
                buffer.append(esc.as_str());
                proof {
                    assert(buffer@ =~= b_pre + seq!['\\'] + ts[pos0]->Escape_0);
                    if all_plain_tokens(ts) {
                        assert(buffer@ =~= concat_plain_text(ts.subrange(0, pos0 + 1)));
                    }
                }
                cursor.advance();
            },
            Token::Text(str_content) => {
                buffer.append(str_content.as_str());
                cursor.advance();
            },
            Token::OrderedListMarker(str_content) => {
                buffer.append(str_content.as_str());
                cursor.advance();
            },
            Token::RawHtmlTag(str_content) => {
                buffer.append(str_content.as_str());
                cursor.advance();
            },
            Token::Whitespace => {
                push_char(&mut buffer, ' ');
                cursor.advance();
            },
            Token::CloseBracket => {
                push_char(&mut buffer, ']');
                cursor.advance();
            },
            Token::OpenParenthesis => {
                push_char(&mut buffer, '(');
                cursor.advance();
            },
            Token::CloseParenthesis => {
                push_char(&mut buffer, ')');
                cursor.advance();
            },
            Token::ThematicBreak => {
                push_char(&mut buffer, '-');
                push_char(&mut buffer, '-');
                push_char(&mut buffer, '-');
                proof {
                    assert(buffer@ =~= b_pre + seq!['-', '-', '-']);
                    if all_plain_tokens(ts) {
                        assert(buffer@ =~= concat_plain_text(ts.subrange(0, pos0 + 1)));
                    }
                }
                cursor.advance();
            },
            _ => {
                let ghost e0f = inlines_view(parsed_inline_elements@);
                push_buffer_to_collection(&mut parsed_inline_elements, &mut buffer);
                proof {
                    lemma_wf_append(e0f, inlines_view(parsed_inline_elements@), delimiter_stack@);
                    assert(inlines_view(parsed_inline_elements@) =~= e_pre + inline_flush(b_pre));
                    assert(buffer@ =~= Seq::<char>::empty());
                }
                cursor.advance();
            },
        }
    }

    let ghost els_before = inlines_view(parsed_inline_elements@);
    let ghost buf_before = buffer@;
    push_buffer_to_collection(&mut parsed_inline_elements, &mut buffer);
    proof {
        lemma_wf_append(els_before, inlines_view(parsed_inline_elements@), delimiter_stack@);
        assert(inlines_view(parsed_inline_elements@) =~= els_before + inline_flush(buf_before));
        assert((inlines_view(parsed_inline_elements@), delimiter_stack@) == scan_goal);
        if all_plain_tokens(ts) {
            assert(ts.subrange(0, ts.len() as int) =~= ts);
            assert(buf_before == concat_plain_text(ts));
            if buf_before.len() == 0 {
                assert(inlines_view(parsed_inline_elements@) =~= spec_plain_inline_result(ts));
            } else {
                assert(inlines_view(parsed_inline_elements@) =~= spec_plain_inline_result(ts));
            }
        }
    }

    let ghost els_scan = inlines_view(parsed_inline_elements@);
    let ghost st_scan = delimiter_stack@;
    let mut ci: usize = 0;
    while ci < delimiter_stack.len()
        invariant
            stack_wf(inlines_view(parsed_inline_elements@), delimiter_stack@),
            inlines_view(parsed_inline_elements@) == els_scan,
            delimiter_stack@.len() == st_scan.len(),
            forall|k: int|
                0 <= k < delimiter_stack@.len() ==> (
                #[trigger] delimiter_stack@[k]).token_position < cursor.tokens@.len(),
            ci <= delimiter_stack@.len(),
            forall|k: int|
                0 <= k < ci ==> #[trigger] delimiter_stack@[k] == (Delimiter {
                    can_open: spec_can_open(ts, st_scan[k].token_position as int, st_scan[k].ch),
                    can_close: spec_can_close(
                        ts,
                        st_scan[k].token_position as int,
                        st_scan[k].ch,
                    ),
                    ..st_scan[k]
                }),
            forall|k: int|
                ci <= k < delimiter_stack@.len() ==> #[trigger] delimiter_stack@[k]
                    == st_scan[k],
            all_plain_tokens(ts) ==> delimiter_stack@.len() == 0 && inlines_view(
                parsed_inline_elements@,
            ) == spec_plain_inline_result(ts),
        decreases delimiter_stack@.len() - ci,
    {
        let ghost sprev = delimiter_stack@;
        delimiter_stack[ci].classify_flanking(cursor.tokens.as_slice());
        proof {
            lemma_wf_reclassify(inlines_view(parsed_inline_elements@), sprev, delimiter_stack@);
        }
        ci = ci + 1;
    }
    proof {
        assert(delimiter_stack@ =~= spec_classified(ts, st_scan));
    }

    resolve_emphasis(&mut parsed_inline_elements, &mut delimiter_stack);

    proof {
        assert((els_scan, st_scan) == scan_goal);
        assert(inlines_view(parsed_inline_elements@) == spec_parse_inline(ts));
    }
    parsed_inline_elements
}

/// The number of leading `#` punctuation tokens.
pub open spec fn hash_run_len(g: Seq<TokenModel>, i: int) -> nat
    decreases g.len() - i,
{
    if i < 0 || i >= g.len() || g[i] != TokenModel::Punctuation(seq!['#']) {
        0
    } else {
        (1 + hash_run_len(g, i + 1)) as nat
    }
}

/// A run of `n` hash tokens from `i`, ended by the line or another token,
/// is what `hash_run_len` counts.
proof fn lemma_hash_run_len(g: Seq<TokenModel>, i: int, n: int)
    requires
        0 <= i,
        0 <= n,
        i + n <= g.len(),
        forall|k: int| i <= k < i + n ==> g[k] == TokenModel::Punctuation(seq!['#']),
        i + n == g.len() || g[i + n] != TokenModel::Punctuation(seq!['#']),
    ensures
        hash_run_len(g, i) == n,
    decreases n,
{
    if n > 0 {
        lemma_hash_run_len(g, i + 1, n - 1);
    }
}

/// Parses an ATX heading: the level is the number of leading `#` tokens,
/// capped at what the level field can hold, and the rest of the line is
/// inline content.  Without a space after the `#` run the whole line is an
/// ordinary paragraph.
#[verifier::loop_isolation(false)]
fn parse_heading(line: Vec<Token>) -> (r: MdBlockElement)
    ensures
        block_placeholder_free(r@),
        (r@ is Header <==> {
            let n = hash_run_len(tokens_view(line@), 0);
            n < tokens_view(line@).len() && tokens_view(line@)[n as int] is Whitespace
        }),
        r@ is Header ==> r@->Header_level == (if hash_run_len(tokens_view(line@), 0) > 255 {
            255int
        } else {
            hash_run_len(tokens_view(line@), 0) as int
        }),
        r@ is Header ==> ({
            let rest = tokens_view(line@).subrange(
                hash_run_len(tokens_view(line@), 0) as int + 1,
                tokens_view(line@).len() as int,
            );
            all_plain_tokens(rest) ==> r@->Header_content == spec_plain_inline_result(rest)
        }),
        r@ is Paragraph && all_plain_tokens(tokens_view(line@)) ==> r@->Paragraph_content
            == spec_plain_inline_result(tokens_view(line@)),
        r@ is Header || r@ is Paragraph,
{
    let ghost tv = tokens_view(line@);
    let mut count: usize = 0;
    while count < line.len() && is_punct_char_token(&line[count], '#')
        invariant
            count <= line@.len(),
            forall|k: int| 0 <= k < count ==> tv[k] == TokenModel::Punctuation(seq!['#']),
        decreases line@.len() - count,
    {
        count = count + 1;
    }
    proof {
        lemma_hash_run_len(tv, 0, count as int);
    }

    let has_space = count < line.len() && matches!(&line[count], Token::Whitespace);
    if !has_space {
        let content = parse_inline(line);
        proof {
            assert(block_placeholder_free(
                BlockModel::Paragraph { content: inlines_view(content@) },
            ));
        }
        return MdBlockElement::Paragraph { content };
    }

    let level: u8 = if count > 255 {
        255
    } else {
        count as u8
    };
    let mut rest: Vec<Token> = Vec::new();
    let mut k: usize = count + 1;
    while k < line.len()
        invariant
            count + 1 <= k <= line@.len(),
            rest@.len() == k - (count + 1),
            forall|t: int| 0 <= t < rest@.len() ==> #[trigger] rest@[t] == line@[t + count + 1],
        decreases line@.len() - k,
    {
        rest.push(line[k].clone());
        k = k + 1;
    }
    proof {
        assert(tokens_view(rest@) =~= tv.subrange(count + 1, tv.len() as int));
    }
    let content = parse_inline(rest);
    MdBlockElement::Header { level, content }
}

/// The literal source text a token reconstructs to inside a code block or
/// a raw HTML block.
pub open spec fn spec_literal_token_text(t: TokenModel) -> Seq<char> {
    match t {
        TokenModel::CodeTick => seq!['`'],
        TokenModel::Newline => seq!['\n'],
        _ => spec_code_span_text(t),
    }
}

/// Appends the literal source text of one token to the buffer.
fn append_literal_text(buf: &mut String, t: &Token)
    ensures
        final(buf)@ == old(buf)@ + spec_literal_token_text(t@),
{
    match t {
        Token::CodeTick => {
            push_char(buf, '`');
        },
        Token::Newline => {
            push_char(buf, '\n');
        },
        _ => {
            append_code_span_text(buf, t);
        },
    }
}

/// The line contributed by a flushed code-block buffer.
pub open spec fn flush_line(cur: Seq<char>) -> Seq<Seq<char>> {
    if cur.len() == 0 {
        Seq::empty()
    } else {
        seq![cur]
    }
}

/// The lines of a fenced code block: literal reconstruction of every token
/// from position `i` up to the closing fence, split at newlines.
pub open spec fn spec_codeblock_lines(g: Seq<TokenModel>, i: int, cur: Seq<char>) -> Seq<
    Seq<char>,
>
    decreases g.len() - i,
{
    if i < 0 || i >= g.len() || g[i] is CodeFence {
        flush_line(cur)
    } else if g[i] is Newline {
        flush_line(cur) + spec_codeblock_lines(g, i + 1, Seq::empty())
    } else {
        spec_codeblock_lines(g, i + 1, cur + spec_literal_token_text(g[i]))
    }
}

/// The language tag of a fenced code block: the text token straight after
/// the opening fence, if any.
pub open spec fn spec_codeblock_language(g: Seq<TokenModel>) -> Option<Seq<char>> {
    if g.len() > 1 && g[1] is Text {
        Option::Some(g[1]->Text_0)
    } else {
        Option::None
    }
}

/// Parses a fenced code block: the language tag, then every line up to the
/// closing fence reconstructed literally, so code is never re-read as
/// Markdown.
#[verifier::loop_isolation(false)]
fn parse_codeblock(line: Vec<Token>) -> (r: MdBlockElement)
    ensures
        r@ is CodeBlock,
        block_placeholder_free(r@),
        r@->CodeBlock_language == spec_codeblock_language(tokens_view(line@)),
        r@->CodeBlock_lines == spec_codeblock_lines(tokens_view(line@), 2, Seq::empty()),
{
    let ghost tv = tokens_view(line@);
    let mut language: Option<String> = None;
    if line.len() > 1 {
        match &line[1] {
            Token::Text(str_content) => {
                language = Some(str_content.clone());
            },
            _ => {},
        }
    }

    let mut code_content: Vec<String> = Vec::new();
    let mut line_buffer = String::new();
    let mut i: usize = 2;
    let mut closed = false;
    proof {
        assert(crate::types::strings_view(code_content@) =~= Seq::<Seq<char>>::empty());
    }
    while !closed && i < line.len()
        invariant
            2 <= i,
            i <= line@.len() || i == 2,
            spec_codeblock_lines(tv, 2, Seq::empty()) == crate::types::strings_view(code_content@)
                + (if closed {
                Seq::<Seq<char>>::empty()
            } else {
                spec_codeblock_lines(tv, i as int, line_buffer@)
            }),
        decreases line@.len() - i, (if closed {
            0int
        } else {
            1int
        }),
    {
        let ghost sv0 = crate::types::strings_view(code_content@);
        let ghost buf0 = line_buffer@;
        if matches!(&line[i], Token::CodeFence) {
            push_buffer_to_collection(&mut code_content, &mut line_buffer);
            closed = true;
            proof {
                assert(crate::types::strings_view(code_content@) =~= sv0 + flush_line(buf0));
            }
        } else if matches!(&line[i], Token::Newline) {
            push_buffer_to_collection(&mut code_content, &mut line_buffer);
            proof {
                assert(crate::types::strings_view(code_content@) =~= sv0 + flush_line(buf0));
                assert(line_buffer@ =~= Seq::<char>::empty());
            }
            i = i + 1;
        } else {
            append_literal_text(&mut line_buffer, &line[i]);
            i = i + 1;
        }
    }
    if !closed {
        let ghost sv0 = crate::types::strings_view(code_content@);
        let ghost buf0 = line_buffer@;
        push_buffer_to_collection(&mut code_content, &mut line_buffer);
        proof {
            assert(crate::types::strings_view(code_content@) =~= sv0 + flush_line(buf0));
        }
    }
    proof {
        assert(spec_codeblock_lines(tv, 2, Seq::empty()) =~= crate::types::strings_view(
            code_content@,
        ));
    }
    MdBlockElement::CodeBlock { language, lines: code_content }
}

/// The whole group reconstructed as literal source text.
pub open spec fn spec_literal_concat(g: Seq<TokenModel>) -> Seq<char>
    decreases g.len(),
{
    if g.len() == 0 {
        Seq::empty()
    } else {
        spec_literal_concat(g.subrange(0, g.len() - 1)) + spec_literal_token_text(g[g.len() - 1])
    }
}

/// The splitter's state after the first `i` tokens: the line being built
/// and the lines already cut.
pub open spec fn split_lines_state(ts: Seq<TokenModel>, i: int) -> (
    Seq<TokenModel>,
    Seq<Seq<TokenModel>>,
)
    decreases i,
{
    if i <= 0 {
        (Seq::empty(), Seq::empty())
    } else {
        let (cur, acc) = split_lines_state(ts, i - 1);
        if ts[i - 1] is Newline {
            (Seq::empty(), acc.push(cur))
        } else {
            (cur.push(ts[i - 1]), acc)
        }
    }
}

/// The lines of a token group, cut at its newlines, which are dropped; a
/// trailing line without a newline still counts.
pub open spec fn spec_split_lines(ts: Seq<TokenModel>) -> Seq<Seq<TokenModel>> {
    let (cur, acc) = split_lines_state(ts, ts.len() as int);
    if cur.len() > 0 {
        acc.push(cur)
    } else {
        acc
    }
}

/// Splits a token group into its lines at `Newline` tokens; the newlines
/// themselves are dropped.
#[verifier::loop_isolation(false)]
fn split_lines(group: &Vec<Token>) -> (r: Vec<Vec<Token>>)
    ensures
        token_lines_view(r@) == spec_split_lines(tokens_view(group@)),
{
    let ghost ts = tokens_view(group@);
    let mut lines: Vec<Vec<Token>> = Vec::new();
    let mut cur: Vec<Token> = Vec::new();
    proof {
        assert(tokens_view(cur@) =~= Seq::<TokenModel>::empty());
        assert(token_lines_view(lines@) =~= Seq::<Seq<TokenModel>>::empty());
    }
    let mut i: usize = 0;
    while i < group.len()
        invariant
            i <= group@.len(),
            ts == tokens_view(group@),
            (tokens_view(cur@), token_lines_view(lines@)) == split_lines_state(ts, i as int),
        decreases group@.len() - i,
    {
        if matches!(&group[i], Token::Newline) {
            let ghost cm = tokens_view(cur@);
            lines.push(cur);
            cur = Vec::new();
            proof {
                assert(tokens_view(cur@) =~= Seq::<TokenModel>::empty());
                assert(token_lines_view(lines@) =~= split_lines_state(ts, i as int).1.push(cm));
            }
        } else {
            cur.push(group[i].clone());
            proof {
                assert(tokens_view(cur@) =~= split_lines_state(ts, i as int).0.push(
                    ts[i as int],
                ));
            }
        }
        i = i + 1;
    }
    if cur.len() > 0 {
        let ghost cm = tokens_view(cur@);
        lines.push(cur);
        proof {
            assert(token_lines_view(lines@) =~= split_lines_state(ts, ts.len() as int).1.push(
                cm,
            ));
        }
    }
    lines
}

/// The colon scan's state over the first `i` tokens of an alignment cell:
/// whether a token other than whitespace was seen, and whether the first
/// and the last such token were colons.
pub open spec fn align_scan_state(cell: Seq<TokenModel>, i: int) -> (bool, bool, bool)
    decreases i,
{
    if i <= 0 {
        (false, false, false)
    } else {
        let (seen, first_colon, last_colon) = align_scan_state(cell, i - 1);
        if cell[i - 1] is Whitespace {
            (seen, first_colon, last_colon)
        } else {
            let colon = cell[i - 1] == TokenModel::Punctuation(seq![':']);
            if !seen {
                (true, colon, colon)
            } else {
                (seen, first_colon, colon)
            }
        }
    }
}

/// The alignment an alignment-row cell declares: colons on both ends mean
/// centered, a leading colon left, a trailing colon right, none at all
/// unspecified.
pub open spec fn spec_alignment_of(cell: Seq<TokenModel>) -> TableAlignment {
    let (seen, first_colon, last_colon) = align_scan_state(cell, cell.len() as int);
    if !seen {
        TableAlignment::Unspecified
    } else if first_colon && last_colon {
        TableAlignment::Center
    } else if first_colon {
        TableAlignment::Left
    } else if last_colon {
        TableAlignment::Right
    } else {
        TableAlignment::Unspecified
    }
}

/// The alignment an alignment-row cell declares: a leading colon, a
/// trailing colon, both, or none.
#[verifier::loop_isolation(false)]
fn alignment_of_cell(cell: &Vec<Token>) -> (r: TableAlignment)
    ensures
        r == spec_alignment_of(tokens_view(cell@)),
{
    let ghost cm = tokens_view(cell@);
    let mut first_colon = false;
    let mut last_colon = false;
    let mut seen = false;
    let mut i: usize = 0;
    while i < cell.len()
        invariant
            i <= cell@.len(),
            (seen, first_colon, last_colon) == align_scan_state(cm, i as int),
        decreases cell@.len() - i,
    {
        if !matches!(&cell[i], Token::Whitespace) {
            let colon = is_punct_char_token(&cell[i], ':');
            if !seen {
                first_colon = colon;
                seen = true;
            }
            last_colon = colon;
        }
        i = i + 1;
    }
    if !seen {
        TableAlignment::Unspecified
    } else if first_colon && last_colon {
        TableAlignment::Center
    } else if first_colon {
        TableAlignment::Left
    } else if last_colon {
        TableAlignment::Right
    } else {
        TableAlignment::Unspecified
    }
}

/// The cell cutter's state over the first `i` tokens of a row: whether a
/// separator was passed, the segment being built, and the cells already
/// cut.
pub open spec fn cells_state(row: Seq<TokenModel>, i: int) -> (
    bool,
    Seq<TokenModel>,
    Seq<Seq<TokenModel>>,
)
    decreases i,
{
    if i <= 0 {
        (false, Seq::empty(), Seq::empty())
    } else {
        let (started, cur, acc) = cells_state(row, i - 1);
        if row[i - 1] is TableCellSeparator {
            if started {
                (true, Seq::empty(), acc.push(cur))
            } else {
                (true, cur, acc)
            }
        } else if started {
            (started, cur.push(row[i - 1]), acc)
        } else {
            (started, cur, acc)
        }
    }
}

/// The cells of one table row: the token runs strictly between cell
/// separators; whatever stands before the first or after the last
/// separator is dropped.
pub open spec fn spec_cells_of(row: Seq<TokenModel>) -> Seq<Seq<TokenModel>> {
    cells_state(row, row.len() as int).2
}

/// The cell segments of one table row: the token runs strictly between
/// cell separators; whatever follows the last separator is dropped.
#[verifier::loop_isolation(false)]
fn cells_of_row(row: &Vec<Token>) -> (r: Vec<Vec<Token>>)
    ensures
        token_lines_view(r@) == spec_cells_of(tokens_view(row@)),
{
    let ghost rm = tokens_view(row@);
    let mut cells: Vec<Vec<Token>> = Vec::new();
    let mut cur: Vec<Token> = Vec::new();
    let mut started = false;
    proof {
        assert(tokens_view(cur@) =~= Seq::<TokenModel>::empty());
        assert(token_lines_view(cells@) =~= Seq::<Seq<TokenModel>>::empty());
    }
    let mut i: usize = 0;
    while i < row.len()
        invariant
            i <= row@.len(),
            rm == tokens_view(row@),
            (started, tokens_view(cur@), token_lines_view(cells@)) == cells_state(rm, i as int),
        decreases row@.len() - i,
    {
        if matches!(&row[i], Token::TableCellSeparator) {
            if started {
                let ghost cm = tokens_view(cur@);
                cells.push(cur);
                cur = Vec::new();
                proof {
                    assert(tokens_view(cur@) =~= Seq::<TokenModel>::empty());
                    assert(token_lines_view(cells@) =~= cells_state(rm, i as int).2.push(cm));
                }
            } else {
                started = true;
            }
        } else if started {
            cur.push(row[i].clone());
            proof {
                assert(tokens_view(cur@) =~= cells_state(rm, i as int).1.push(rm[i as int]));
            }
        }
        i = i + 1;
    }
    cells
}

/// The alignment of a table's column `c`: what the alignment row's cell
/// `c` declares, or unspecified where that row has no such cell.
pub open spec fn spec_column_alignment(g: Seq<TokenModel>, c: int) -> TableAlignment {
    let rows = spec_split_lines(g);
    if rows.len() > 1 && 0 <= c < spec_cells_of(rows[1]).len() {
        spec_alignment_of(spec_cells_of(rows[1])[c])
    } else {
        TableAlignment::Unspecified
    }
}

/// Parses a pipe table: the first row gives the header cells, the second
/// gives each column's alignment, and the remaining rows give the body.
/// Every cell in a column carries the column's alignment, and only the
/// header row's cells are marked as headers.
#[verifier::loop_isolation(false)]
fn parse_table(group: Vec<Token>) -> (r: MdBlockElement)
    ensures
        r@ is Table,
        block_placeholder_free(r@),
        r@->Table_headers.len() == (if spec_split_lines(tokens_view(group@)).len() > 0 {
            spec_cells_of(spec_split_lines(tokens_view(group@))[0]).len() as int
        } else {
            0int
        }),
        r@->Table_body.len() == (if spec_split_lines(tokens_view(group@)).len() > 2 {
            spec_split_lines(tokens_view(group@)).len() - 2
        } else {
            0int
        }),
        forall|rr: int|
            0 <= rr < r@->Table_body.len() ==> (#[trigger] r@->Table_body[rr]).len()
                == spec_cells_of(spec_split_lines(tokens_view(group@))[rr + 2]).len(),
        forall|c: int|
            0 <= c < r@->Table_headers.len() ==> (#[trigger] r@->Table_headers[c]).is_header && r@->Table_headers[c].alignment
                == spec_column_alignment(tokens_view(group@), c)
                && r@->Table_headers[c].content == spec_parse_inline(
                spec_cells_of(spec_split_lines(tokens_view(group@))[0])[c],
            ),
        forall|rr: int, c: int|
            0 <= rr < r@->Table_body.len() && 0 <= c < r@->Table_body[rr].len() ==> !(
            #[trigger] r@->Table_body[rr][c]).is_header && r@->Table_body[rr][c].alignment
                == spec_column_alignment(tokens_view(group@), c) && r@->Table_body[rr][c].content
                == spec_parse_inline(
                spec_cells_of(spec_split_lines(tokens_view(group@))[rr + 2])[c],
            ),
        forall|rr: int, c: int|
            0 <= rr < r@->Table_body.len() && 0 <= c < r@->Table_body[rr].len() && c
                < r@->Table_headers.len() ==> (#[trigger] r@->Table_body[rr][c]).alignment
                == r@->Table_headers[c].alignment,
{
    let ghost gm = tokens_view(group@);
    let rows = split_lines(&group);
    let ghost rows_m = spec_split_lines(gm);

    let mut alignments: Vec<TableAlignment> = Vec::new();
    if rows.len() > 1 {
        let align_cells = cells_of_row(&rows[1]);
        proof {
            assert(tokens_view(rows@[1]@) == rows_m[1]);
        }
        let mut c: usize = 0;
        while c < align_cells.len()
            invariant
                c <= align_cells@.len(),
                alignments@.len() == c,
                token_lines_view(align_cells@) == spec_cells_of(rows_m[1]),
                rows_m.len() > 1,
                forall|j: int|
                    0 <= j < c ==> alignments@[j] == spec_alignment_of(
                        #[trigger] spec_cells_of(rows_m[1])[j],
                    ),
            decreases align_cells@.len() - c,
        {
            alignments.push(alignment_of_cell(&align_cells[c]));
            c = c + 1;
        }
    }
    let ghost ga = alignments@;
    proof {
        assert forall|c: int|
            true implies (if 0 <= c < ga.len() {
            ga[c]
        } else {
            TableAlignment::Unspecified
        }) == spec_column_alignment(gm, c) by {
            if rows_m.len() > 1 {
                assert(ga.len() == spec_cells_of(rows_m[1]).len());
            } else {
                assert(ga.len() == 0);
            }
        }
    }

    let mut headers: Vec<MdTableCell> = Vec::new();
    if rows.len() > 0 {
        let header_cells = cells_of_row(&rows[0]);
        proof {
            assert(tokens_view(rows@[0]@) == rows_m[0]);
        }
        let mut c: usize = 0;
        while c < header_cells.len()
            invariant
                c <= header_cells@.len(),
                headers@.len() == c,
                ga == alignments@,
                rows_m.len() > 0,
                token_lines_view(header_cells@) == spec_cells_of(rows_m[0]),
                cells_placeholder_free(cells_view(headers@)),
                forall|j: int|
                    0 <= j < c ==> (#[trigger] cells_view(headers@)[j]).is_header && cells_view(
                        headers@,
                    )[j].alignment == (if j < ga.len() {
                        ga[j]
                    } else {
                        TableAlignment::Unspecified
                    }) && cells_view(headers@)[j].content == spec_parse_inline(
                        spec_cells_of(rows_m[0])[j],
                    ),
            decreases header_cells@.len() - c,
        {
            let ghost hv0 = cells_view(headers@);
            let alignment = if c < alignments.len() {
                alignments[c]
            } else {
                TableAlignment::Unspecified
            };
            let cell_tokens = header_cells[c].clone();
            proof {
                assert(tokens_view(cell_tokens@) == spec_cells_of(rows_m[0])[c as int]);
            }
            let content = parse_inline(cell_tokens);
            let cell = MdTableCell { content, alignment, is_header: true };
            proof {
                assert(cell_placeholder_free(cell@));
            }
            headers.push(cell);
            proof {
                assert(cells_view(headers@) =~= hv0.push(cell@));
                lemma_cells_placeholder_free_push(hv0, cell@);
            }
            c = c + 1;
        }
    }

    let mut body: Vec<Vec<MdTableCell>> = Vec::new();
    let mut rr: usize = 2;
    proof {
        assert(rows_view(body@) =~= Seq::<Seq<CellModel>>::empty());
    }
    while rr < rows.len()
        invariant
            2 <= rr,
            rr <= rows@.len() || rr == 2,
            ga == alignments@,
            token_lines_view(rows@) == rows_m,
            rows_view(body@).len() == (if rr > 2 {
                rr - 2
            } else {
                0int
            }),
            rows_placeholder_free(rows_view(body@)),
            forall|x: int|
                0 <= x < rows_view(body@).len() ==> (#[trigger] rows_view(body@)[x]).len()
                    == spec_cells_of(rows_m[x + 2]).len(),
            forall|x: int, c: int|
                0 <= x < rows_view(body@).len() && 0 <= c < rows_view(body@)[x].len() ==> !(
                #[trigger] rows_view(body@)[x][c]).is_header && (rows_view(body@)[x][c].alignment
                    == (if c < ga.len() {
                    ga[c]
                } else {
                    TableAlignment::Unspecified
                })) && rows_view(body@)[x][c].content == spec_parse_inline(
                    spec_cells_of(rows_m[x + 2])[c],
                ),
        decreases rows@.len() - rr,
    {
        let ghost bv0 = rows_view(body@);
        let row_cells = cells_of_row(&rows[rr]);
        proof {
            assert(tokens_view(rows@[rr as int]@) == rows_m[rr as int]);
        }
        let mut row: Vec<MdTableCell> = Vec::new();
        let mut c: usize = 0;
        while c < row_cells.len()
            invariant
                c <= row_cells@.len(),
                row@.len() == c,
                ga == alignments@,
                rr < rows_m.len(),
                token_lines_view(row_cells@) == spec_cells_of(rows_m[rr as int]),
                cells_placeholder_free(cells_view(row@)),
                forall|j: int|
                    0 <= j < c ==> !(#[trigger] cells_view(row@)[j]).is_header && cells_view(
                        row@,
                    )[j].alignment == (if j < ga.len() {
                        ga[j]
                    } else {
                        TableAlignment::Unspecified
                    }) && cells_view(row@)[j].content == spec_parse_inline(
                        spec_cells_of(rows_m[rr as int])[j],
                    ),
            decreases row_cells@.len() - c,
        {
            let ghost rv0 = cells_view(row@);
            let alignment = if c < alignments.len() {
                alignments[c]
            } else {
                TableAlignment::Unspecified
            };
            let cell_tokens = row_cells[c].clone();
            proof {
                assert(tokens_view(cell_tokens@) == spec_cells_of(rows_m[rr as int])[c as int]);
            }
            let content = parse_inline(cell_tokens);
            let cell = MdTableCell { content, alignment, is_header: false };
            proof {
                assert(cell_placeholder_free(cell@));
            }
            row.push(cell);
            proof {
                assert(cells_view(row@) =~= rv0.push(cell@));
                lemma_cells_placeholder_free_push(rv0, cell@);
            }
            c = c + 1;
        }
        let ghost rowm = cells_view(row@);
        body.push(row);
        proof {
            assert(rows_view(body@) =~= bv0.push(rowm));
            lemma_rows_placeholder_free_push(bv0, rowm);
        }
        rr = rr + 1;
    }

    let r = MdBlockElement::Table { headers, body };
    proof {
        assert(block_placeholder_free(r@));
    }
    r
}

/// Whether a group is an empty line: its leading token is a newline.
pub open spec fn newline_led(g: Seq<TokenModel>) -> bool {
    g.len() > 0 && g[0] is Newline
}

/// What the block parser guarantees of the block it makes of a group:
/// free of placeholders, and classified by the group's leading token — a
/// heading (or its degraded paragraph) for `#`, a thematic break for a
/// lone dash, a list for a dash or ordered marker, a code block for a
/// fence, a blockquote for a quote marker, a table for a cell separator,
/// raw HTML carrying the group's literal reconstruction for a tag, and a
/// paragraph for everything else.
pub open spec fn block_matches_group(g: Seq<TokenModel>, b: BlockModel) -> bool {
    &&& block_placeholder_free(b)
    &&& g.len() == 0 ==> b is Paragraph
    &&& g.len() > 0 ==> {
        let f = g[0];
        &&& f == TokenModel::Punctuation(seq!['#']) ==> (b is Header || b is Paragraph)
        &&& (f == TokenModel::Punctuation(seq!['-']) && g.len() == 1) ==> b is ThematicBreak
        &&& (f == TokenModel::Punctuation(seq!['-']) && g.len() > 1) ==> (b is UnorderedList
            && b->UnorderedList_items.len() == spec_list_item_count(spec_split_lines(g), false, 0))
        &&& f is OrderedListMarker ==> (b is OrderedList && b->OrderedList_items.len()
            == spec_list_item_count(spec_split_lines(g), true, 0))
        &&& f is CodeFence ==> b is CodeBlock
        &&& f is ThematicBreak ==> b is ThematicBreak
        &&& f is BlockQuoteMarker ==> b is BlockQuote
        &&& f is TableCellSeparator ==> (b is Table && {
            let rows = spec_split_lines(g);
            &&& b->Table_headers.len() == (if rows.len() > 0 {
                spec_cells_of(rows[0]).len() as int
            } else {
                0int
            })
            &&& b->Table_body.len() == (if rows.len() > 2 {
                rows.len() - 2
            } else {
                0int
            })
            &&& forall|rr: int|
                0 <= rr < b->Table_body.len() ==> (#[trigger] b->Table_body[rr]).len()
                    == spec_cells_of(rows[rr + 2]).len()
            &&& forall|c: int|
                0 <= c < b->Table_headers.len() ==> (#[trigger] b->Table_headers[c]).is_header
                    && b->Table_headers[c].alignment == spec_column_alignment(g, c)
            &&& forall|rr: int, c: int|
                0 <= rr < b->Table_body.len() && 0 <= c < b->Table_body[rr].len() ==> !(
                #[trigger] b->Table_body[rr][c]).is_header && b->Table_body[rr][c].alignment
                    == spec_column_alignment(g, c)
        })
        &&& f is RawHtmlTag ==> (b is RawHtml && b->RawHtml_content == spec_literal_concat(g))
        &&& !(f == TokenModel::Punctuation(seq!['#']) || f == TokenModel::Punctuation(seq!['-'])
            || f is OrderedListMarker || f is CodeFence || f is ThematicBreak || f is Newline
            || f is BlockQuoteMarker || f is TableCellSeparator || f is RawHtmlTag) ==> (b
            is Paragraph && b->Paragraph_content == spec_parse_inline(g))
    }
}

/// The groups that parse to a block: every group except the empty lines,
/// in order.
pub open spec fn kept_groups(gs: Seq<Seq<TokenModel>>) -> Seq<Seq<TokenModel>>
    decreases gs.len(),
{
    if gs.len() == 0 {
        Seq::empty()
    } else {
        kept_groups(gs.subrange(0, gs.len() - 1)) + (if newline_led(gs[gs.len() - 1]) {
            Seq::empty()
        } else {
            seq![gs[gs.len() - 1]]
        })
    }
}

/// Keeping one more group appends it unless it is an empty line.
proof fn lemma_kept_groups_push(gs: Seq<Seq<TokenModel>>, g: Seq<TokenModel>)
    ensures
        kept_groups(gs.push(g)) == kept_groups(gs) + (if newline_led(g) {
            Seq::<Seq<TokenModel>>::empty()
        } else {
            seq![g]
        }),
{
    assert(gs.push(g).subrange(0, gs.push(g).len() - 1) =~= gs);
    assert(gs.push(g)[gs.push(g).len() - 1] == g);
}

/// The block model behind a parse result, with a fixed stand-in for the
/// empty case.
pub open spec fn block_of(r: Option<MdBlockElement>) -> BlockModel {
    match r {
        Option::Some(b) => b@,
        Option::None => BlockModel::ThematicBreak,
    }
}

/// Classifies one token group into a block element, keyed on its leading
/// token: an ATX heading, a thematic break, an ordered or unordered list, a
/// fenced code block, a blockquote, a pipe table, raw HTML, or a paragraph;
/// a group led by a newline is an empty line and parses to nothing.  The
/// `fuel` bounds the nesting depth of lists and blockquotes; the callers
/// give one unit more than the group's length, which nesting can never
/// reach, since every nested construct consumes at least one token.
#[verifier::loop_isolation(false)]
fn parse_block_at(line: Vec<Token>, fuel: usize) -> (r: Option<MdBlockElement>)
    ensures
        (r is None) <==> newline_led(tokens_view(line@)),
        r is Some ==> block_matches_group(tokens_view(line@), block_of(r)),
        (fuel > 0 && tokens_view(line@).len() > 0 && tokens_view(line@)[0] is BlockQuoteMarker)
            ==> ({
            let kept = spec_blockquote_groups(tokens_view(line@));
            &&& block_of(r)->BlockQuote_content.len() == kept.len()
            &&& forall|k: int|
                0 <= k < kept.len() ==> block_matches_group(
                    kept[k],
                    #[trigger] block_of(r)->BlockQuote_content[k],
                )
        }),
    decreases fuel, 3int,
{
    if line.len() == 0 {
        let content = parse_inline(line);
        return Some(MdBlockElement::Paragraph { content });
    }
    let is_hash = is_punct_char_token(&line[0], '#');
    let is_dash = is_punct_char_token(&line[0], '-');
    proof {
        if is_hash && is_dash {
            assert(seq!['#'][0] == seq!['-'][0]);
        }
    }
    if is_hash {
        Some(parse_heading(line))
    } else if is_dash {
        if line.len() == 1 {
            Some(MdBlockElement::ThematicBreak)
        } else {
            Some(parse_list_at(line, false, fuel))
        }
    } else if matches!(&line[0], Token::OrderedListMarker(_)) {
        Some(parse_list_at(line, true, fuel))
    } else if matches!(&line[0], Token::CodeFence) {
        Some(parse_codeblock(line))
    } else if matches!(&line[0], Token::ThematicBreak) {
        Some(MdBlockElement::ThematicBreak)
    } else if matches!(&line[0], Token::Newline) {
        None
    } else if matches!(&line[0], Token::BlockQuoteMarker) {
        Some(parse_blockquote_at(line, fuel))
    } else if matches!(&line[0], Token::TableCellSeparator) {
        Some(parse_table(line))
    } else if matches!(&line[0], Token::RawHtmlTag(_)) {
        let ghost tv = tokens_view(line@);
        let mut content = String::new();
        let mut i: usize = 0;
        while i < line.len()
            invariant
                i <= line@.len(),
                content@ == spec_literal_concat(tv.subrange(0, i as int)),
            decreases line@.len() - i,
        {
            append_literal_text(&mut content, &line[i]);
            proof {
                assert(tv.subrange(0, i + 1).subrange(0, i as int) =~= tv.subrange(0, i as int));
                assert(tv.subrange(0, i + 1)[i as int] == tv[i as int]);
            }
            i = i + 1;
        }
        proof {
            assert(tv.subrange(0, tv.len() as int) =~= tv);
        }
        Some(MdBlockElement::RawHtml { content })
    } else {
        let content = parse_inline(line);
        Some(MdBlockElement::Paragraph { content })
    }
}

/// Whether a line opens a list item: the right marker, then a space.
pub open spec fn marker_space_led(line: Seq<TokenModel>, ordered: bool) -> bool {
    &&& line.len() > 1
    &&& if ordered {
        line[0] is OrderedListMarker
    } else {
        line[0] == TokenModel::Punctuation(seq!['-'])
    }
    &&& line[1] is Whitespace
}

/// Whether a line is a tab-indented continuation.
pub open spec fn tab_led(line: Seq<TokenModel>) -> bool {
    line.len() > 0 && line[0] is Tab
}

/// The length of the run of tab-indented lines starting at `j`.
pub open spec fn tab_run_len(lines: Seq<Seq<TokenModel>>, j: int) -> nat
    decreases lines.len() - j,
{
    if j < 0 || j >= lines.len() || !tab_led(lines[j]) {
        0
    } else {
        (1 + tab_run_len(lines, j + 1)) as nat
    }
}

/// A run of `n` tab-indented lines from `j`, ended by the group or a line
/// led otherwise, is what `tab_run_len` counts.
proof fn lemma_tab_run_len(lines: Seq<Seq<TokenModel>>, j: int, n: int)
    requires
        0 <= j,
        0 <= n,
        j + n <= lines.len(),
        forall|k: int| j <= k < j + n ==> tab_led(#[trigger] lines[k]),
        j + n == lines.len() || !tab_led(lines[j + n]),
    ensures
        tab_run_len(lines, j) == n,
    decreases n,
{
    if n > 0 {
        lemma_tab_run_len(lines, j + 1, n - 1);
    }
}

/// One source of a list item: either the remainder of a marker-led line,
/// or the joined, one-level-dedented lines of a nested run.
pub struct ListSource {
    pub nested: bool,
    pub tokens: Seq<TokenModel>,
}

/// A tab-led line with one level of indentation taken away.
pub open spec fn spec_detab(line: Seq<TokenModel>) -> Seq<TokenModel> {
    if line.len() >= 1 {
        line.subrange(1, line.len() as int)
    } else {
        line
    }
}

/// The `n` lines from `j`, each dedented one level and re-joined with
/// newlines.
pub open spec fn spec_nested_tokens(lines: Seq<Seq<TokenModel>>, j: int, n: int) -> Seq<
    TokenModel,
>
    decreases n,
{
    if n <= 0 {
        Seq::empty()
    } else if n == 1 {
        spec_detab(lines[j])
    } else {
        spec_nested_tokens(lines, j, n - 1) + seq![TokenModel::Newline] + spec_detab(
            lines[j + n - 1],
        )
    }
}

/// The sources of a list group's items, in order: the remainder of each
/// marker-led line, and after it, when tab-indented lines follow, their
/// joined dedented run as one nested source.
pub open spec fn spec_list_sources(lines: Seq<Seq<TokenModel>>, ordered: bool, i: int) -> Seq<
    ListSource,
>
    decreases lines.len() - i,
{
    if i < 0 || i >= lines.len() {
        Seq::empty()
    } else if marker_space_led(lines[i], ordered) {
        let run = tab_run_len(lines, i + 1) as int;
        let next = if i + 1 + run <= lines.len() {
            i + 1 + run
        } else {
            lines.len() as int
        };
        let first = ListSource {
            nested: false,
            tokens: lines[i].subrange(2, lines[i].len() as int),
        };
        if run > 0 {
            seq![
                first,
                ListSource { nested: true, tokens: spec_nested_tokens(lines, i + 1, run) },
            ] + spec_list_sources(lines, ordered, next)
        } else {
            seq![first] + spec_list_sources(lines, ordered, next)
        }
    } else {
        spec_list_sources(lines, ordered, i + 1)
    }
}

/// What a list item owes its source: a marker line's remainder parses as a
/// block; a nested run parses as a list of the orientation its first token
/// sets, holding one item per its own marker lines and runs.  Exhausted
/// nesting depth degrades the item to a paragraph.
pub open spec fn list_item_matches(src: ListSource, item: ListItemModel, fuel: int) -> bool {
    if !src.nested {
        &&& fuel > 0 ==> block_matches_group(src.tokens, item.content)
        &&& fuel <= 0 ==> item.content is Paragraph
    } else {
        let nested_ordered = src.tokens.len() > 0 && src.tokens[0] is OrderedListMarker;
        &&& fuel > 0 ==> {
            &&& nested_ordered ==> (item.content is OrderedList
                && item.content->OrderedList_items.len() == spec_list_item_count(
                spec_split_lines(src.tokens),
                true,
                0,
            ))
            &&& !nested_ordered ==> (item.content is UnorderedList
                && item.content->UnorderedList_items.len() == spec_list_item_count(
                spec_split_lines(src.tokens),
                false,
                0,
            ))
        }
        &&& fuel <= 0 ==> item.content is Paragraph
    }
}

/// How many items a list group yields: one per marker-led line, plus one
/// for each run of tab-indented lines right after a marker-led line, which
/// collapses into a single nested item.
pub open spec fn spec_list_item_count(lines: Seq<Seq<TokenModel>>, ordered: bool, i: int) -> nat
    decreases lines.len() - i,
{
    if i < 0 || i >= lines.len() {
        0
    } else if marker_space_led(lines[i], ordered) {
        let run = tab_run_len(lines, i + 1) as int;
        let next = if i + 1 + run <= lines.len() {
            i + 1 + run
        } else {
            lines.len() as int
        };
        let add: nat = if run > 0 {
            2
        } else {
            1
        };
        (add + spec_list_item_count(lines, ordered, next)) as nat
    } else {
        spec_list_item_count(lines, ordered, i + 1)
    }
}

/// No line that the splitter cuts holds a newline token.
proof fn lemma_split_lines_no_newline(ts: Seq<TokenModel>, i: int)
    ensures
        ({
            let (cur, acc) = split_lines_state(ts, i);
            &&& forall|t: int| 0 <= t < cur.len() ==> !((#[trigger] cur[t]) is Newline)
            &&& forall|l: int, t: int|
                0 <= l < acc.len() && 0 <= t < acc[l].len() ==> !((#[trigger] acc[l][t])
                    is Newline)
        }),
    decreases i,
{
    if i > 0 {
        lemma_split_lines_no_newline(ts, i - 1);
    }
}

/// No line of a split group holds a newline token.
proof fn lemma_spec_split_lines_no_newline(ts: Seq<TokenModel>)
    ensures
        forall|l: int, t: int|
            0 <= l < spec_split_lines(ts).len() && 0 <= t < spec_split_lines(ts)[l].len() ==> !((
            #[trigger] spec_split_lines(ts)[l][t]) is Newline),
{
    lemma_split_lines_no_newline(ts, ts.len() as int);
}

/// Parses the lines of one list group into list items: each line opening
/// with a list marker and a space starts an item whose remainder is parsed
/// as a block, and tab-indented lines after an item become one nested list
/// item.
#[verifier::loop_isolation(false)]
#[verifier::rlimit(100)]
#[verifier::spinoff_prover]
fn parse_list_at(list: Vec<Token>, ordered: bool, fuel: usize) -> (r: MdBlockElement)
    ensures
        ordered ==> r@ is OrderedList && r@->OrderedList_items.len() == spec_list_item_count(
            spec_split_lines(tokens_view(list@)),
            true,
            0,
        ),
        !ordered ==> r@ is UnorderedList && r@->UnorderedList_items.len()
            == spec_list_item_count(spec_split_lines(tokens_view(list@)), false, 0),
        block_placeholder_free(r@),
        ({
            let sources = spec_list_sources(spec_split_lines(tokens_view(list@)), ordered, 0);
            let items = if ordered {
                r@->OrderedList_items
            } else {
                r@->UnorderedList_items
            };
            &&& items.len() == sources.len()
            &&& forall|t: int|
                0 <= t < sources.len() ==> list_item_matches(
                    sources[t],
                    #[trigger] items[t],
                    fuel as int,
                )
        }),
    decreases fuel, 2int,
{
    let lines = split_lines(&list);
    let ghost lines_m = spec_split_lines(tokens_view(list@));
    let ghost sources_full = spec_list_sources(lines_m, ordered, 0);
    proof {
        lemma_spec_split_lines_no_newline(tokens_view(list@));
    }
    let mut list_items: Vec<MdListItem> = Vec::new();
    let ghost mut built: Seq<ListSource> = Seq::empty();
    proof {
        assert(items_placeholder_free(items_view(list_items@)));
        crate::types::lemma_items_view(list_items@);
        assert(sources_full =~= built + spec_list_sources(lines_m, ordered, 0));
    }

    let mut i: usize = 0;
    while i < lines.len()
        invariant
            i <= lines@.len(),
            token_lines_view(lines@) == lines_m,
            items_placeholder_free(items_view(list_items@)),
            items_view(list_items@).len() == list_items@.len(),
            spec_list_item_count(lines_m, ordered, 0) == list_items@.len()
                + spec_list_item_count(lines_m, ordered, i as int),
            built.len() == list_items@.len(),
            sources_full == built + spec_list_sources(lines_m, ordered, i as int),
            forall|t: int|
                0 <= t < built.len() ==> list_item_matches(
                    built[t],
                    #[trigger] items_view(list_items@)[t],
                    fuel as int,
                ),
        decreases lines@.len() - i,
    {
        let ghost n0 = list_items@.len() as int;
        let ghost i0 = i as int;
        let line = &lines[i];
        proof {
            assert(tokens_view(line@) == lines_m[i0]);
        }
        let marker_lead = line.len() > 1 && (if ordered {
            matches!(&line[0], Token::OrderedListMarker(_))
        } else {
            is_punct_char_token(&line[0], '-')
        }) && matches!(&line[1], Token::Whitespace);
        proof {
            assert(marker_lead == marker_space_led(lines_m[i0], ordered));
        }
        if marker_lead {
            let mut content_tokens: Vec<Token> = Vec::new();
            let mut k: usize = 2;
            while k < line.len()
                invariant
                    2 <= k,
                    k <= line@.len() || k == 2,
                    content_tokens@.len() == k - 2,
                    forall|t: int|
                        0 <= t < content_tokens@.len() ==> #[trigger] content_tokens@[t]
                            == line@[t + 2],
                decreases line@.len() - k,
            {
                content_tokens.push(line[k].clone());
                k = k + 1;
            }
            proof {
                // the remainder holds no newline token, so parsing it
                // always yields a block
                assert(tokens_view(content_tokens@) =~= lines_m[i0].subrange(
                    2,
                    lines_m[i0].len() as int,
                ));
                if tokens_view(content_tokens@).len() > 0 {
                    assert(tokens_view(content_tokens@)[0] == lines_m[i0][2]);
                    assert(!(lines_m[i0][2] is Newline));
                }
                assert(!newline_led(tokens_view(content_tokens@)));
            }
            let ghost src1 = ListSource {
                nested: false,
                tokens: lines_m[i0].subrange(2, lines_m[i0].len() as int),
            };
            let parsed = if fuel > 0 {
                parse_block_at(content_tokens, fuel - 1)
            } else {
                Some(MdBlockElement::Paragraph { content: parse_inline(content_tokens) })
            };
            match parsed {
                Some(content) => {
                    let ghost iv0 = items_view(list_items@);
                    let ghost iv_pre = list_items@;
                    let item = MdListItem { content };
                    list_items.push(item);
                    proof {
                        crate::types::lemma_items_view(list_items@);
                        crate::types::lemma_items_view(iv_pre);
                        assert(items_view(list_items@) =~= iv0.push(item@));
                        lemma_items_placeholder_free_push(iv0, item@);
                        assert(list_item_matches(src1, item@, fuel as int));
                        built = built.push(src1);
                    }
                },
                None => {
                    proof {
                        assert(false);
                    }
                },
            }

            // gather tab-indented continuation lines as one nested list
            let mut nested_tokens: Vec<Token> = Vec::new();
            let mut any_nested = false;
            let mut j: usize = i + 1;
            while j < lines.len() && lines[j].len() > 0 && matches!(&lines[j][0], Token::Tab)
                invariant
                    i + 1 <= j,
                    j <= lines@.len() || j == i + 1,
                    any_nested == (j > i + 1),
                    token_lines_view(lines@) == lines_m,
                    forall|k: int| i0 + 1 <= k < j ==> tab_led(#[trigger] lines_m[k]),
                    tokens_view(nested_tokens@) == spec_nested_tokens(
                        lines_m,
                        i0 + 1,
                        j - (i0 + 1),
                    ),
                decreases lines@.len() - j,
            {
                let ghost nt0 = tokens_view(nested_tokens@);
                if any_nested {
                    nested_tokens.push(Token::Newline);
                    proof {
                        assert(tokens_view(nested_tokens@) =~= nt0 + seq![TokenModel::Newline]);
                    }
                }
                let ghost nt1 = tokens_view(nested_tokens@);
                // the line is tab-led, so dropping its first token takes
                // away exactly one level of indentation
                let nested_line = &lines[j];
                let ghost base = nested_tokens@.len() as int;
                let ghost nt_base = nested_tokens@;
                proof {
                    assert(nested_tokens@.subrange(0, base) =~= nt_base);
                }
                let mut k2: usize = 1;
                while k2 < nested_line.len()
                    invariant
                        1 <= k2,
                        k2 <= nested_line@.len() || k2 == 1,
                        nested_tokens@.len() == base + k2 - 1,
                        nested_tokens@.subrange(0, base) == nt_base,
                        forall|t: int|
                            base <= t < nested_tokens@.len() ==> #[trigger] nested_tokens@[t]
                                == nested_line@[t - base + 1],
                    decreases nested_line@.len() - k2,
                {
                    nested_tokens.push(nested_line[k2].clone());
                    proof {
                        assert(nested_tokens@.subrange(0, base) =~= nt_base);
                    }
                    k2 = k2 + 1;
                }
                proof {
                    assert(tokens_view(nested_tokens@) =~= nt1 + spec_detab(lines_m[j as int]));
                    if any_nested {
                        assert(tokens_view(nested_tokens@) =~= nt0 + seq![TokenModel::Newline]
                            + spec_detab(lines_m[j as int]));
                    } else {
                        assert(tokens_view(nested_tokens@) =~= spec_detab(lines_m[j as int]));
                    }
                    assert(tokens_view(nested_tokens@) == spec_nested_tokens(
                        lines_m,
                        i0 + 1,
                        j + 1 - (i0 + 1),
                    ));
                }
                any_nested = true;
                j = j + 1;
            }

            proof {
                if (j as int) < lines_m.len() {
                    assert(!tab_led(lines_m[j as int]));
                }
                lemma_tab_run_len(lines_m, i0 + 1, j - (i0 + 1));
            }
            if any_nested {
                let ghost src2 = ListSource {
                    nested: true,
                    tokens: spec_nested_tokens(lines_m, i0 + 1, j - (i0 + 1)),
                };
                let nested_ordered = nested_tokens.len() > 0 && matches!(
                    &nested_tokens[0],
                    Token::OrderedListMarker(_)
                );
                proof {
                    assert(nested_ordered == (src2.tokens.len() > 0 && src2.tokens[0]
                        is OrderedListMarker));
                }
                let nested_block = if fuel > 0 {
                    parse_list_at(nested_tokens, nested_ordered, fuel - 1)
                } else {
                    MdBlockElement::Paragraph { content: parse_inline(nested_tokens) }
                };
                let ghost iv0 = items_view(list_items@);
                let ghost iv_pre = list_items@;
                let item = MdListItem { content: nested_block };
                list_items.push(item);
                proof {
                    crate::types::lemma_items_view(list_items@);
                    crate::types::lemma_items_view(iv_pre);
                    assert(items_view(list_items@) =~= iv0.push(item@));
                    lemma_items_placeholder_free_push(iv0, item@);
                    assert(list_item_matches(src2, item@, fuel as int));
                    built = built.push(src2);
                }
                i = j;
                proof {
                    assert(spec_list_item_count(lines_m, ordered, i0) == 2
                        + spec_list_item_count(lines_m, ordered, i as int));
                    assert(spec_list_sources(lines_m, ordered, i0) =~= seq![src1, src2]
                        + spec_list_sources(lines_m, ordered, i as int));
                }
            } else {
                i = i + 1;
                proof {
                    assert(spec_list_item_count(lines_m, ordered, i0) == 1
                        + spec_list_item_count(lines_m, ordered, i as int));
                    assert(spec_list_sources(lines_m, ordered, i0) =~= seq![src1]
                        + spec_list_sources(lines_m, ordered, i as int));
                }
            }
        } else {
            i = i + 1;
        }
    }
    proof {
        assert(spec_list_item_count(lines_m, ordered, lines_m.len() as int) == 0);
        assert(spec_list_sources(lines_m, ordered, lines_m.len() as int)
            =~= Seq::<ListSource>::empty());
        assert(sources_full =~= built);
        crate::types::lemma_items_view(list_items@);
    }

    if ordered {
        MdBlockElement::OrderedList { items: list_items }
    } else {
        MdBlockElement::UnorderedList { items: list_items }
    }
}

/// One blockquote line with its leading quote marker stripped, together
/// with one space straight after the marker.
pub open spec fn spec_dedent_line(line: Seq<TokenModel>) -> Seq<TokenModel> {
    if line.len() > 0 && line[0] is BlockQuoteMarker {
        if line.len() > 1 && line[1] is Whitespace {
            line.subrange(2, line.len() as int)
        } else {
            line.subrange(1, line.len() as int)
        }
    } else {
        line
    }
}

/// Every line of a blockquote group with its quote marker stripped.
pub open spec fn spec_dedent(lines: Seq<Seq<TokenModel>>) -> Seq<Seq<TokenModel>> {
    Seq::new(lines.len(), |l: int| spec_dedent_line(lines[l]))
}

/// The blocks a blockquote's content parses to: the dedented lines,
/// re-grouped, with one block per group that is not an empty line.
pub open spec fn spec_blockquote_groups(g: Seq<TokenModel>) -> Seq<Seq<TokenModel>> {
    kept_groups(spec_group_lines(spec_dedent(spec_split_lines(g))))
}

/// Parses a blockquote group: the quote marker, and one space after it, is
/// stripped from the front of every line; the dedented lines are grouped
/// and parsed again as blocks, which lets a quote hold paragraphs, lists
/// and nested quotes.
#[verifier::loop_isolation(false)]
fn parse_blockquote_at(group: Vec<Token>, fuel: usize) -> (r: MdBlockElement)
    ensures
        r@ is BlockQuote,
        block_placeholder_free(r@),
        fuel > 0 ==> ({
            let kept = spec_blockquote_groups(tokens_view(group@));
            &&& r@->BlockQuote_content.len() == kept.len()
            &&& forall|k: int|
                0 <= k < kept.len() ==> block_matches_group(
                    kept[k],
                    #[trigger] r@->BlockQuote_content[k],
                )
        }),
        fuel == 0 ==> r@->BlockQuote_content.len() == 0,
    decreases fuel, 2int,
{
    let ghost gm = tokens_view(group@);
    let lines = split_lines(&group);
    let ghost lines_m = spec_split_lines(gm);
    let mut stripped: Vec<Vec<Token>> = Vec::new();
    let mut i: usize = 0;
    while i < lines.len()
        invariant
            i <= lines@.len(),
            token_lines_view(lines@) == lines_m,
            token_lines_view(stripped@).len() == i,
            forall|l: int|
                0 <= l < i ==> token_lines_view(stripped@)[l] == spec_dedent_line(
                    #[trigger] lines_m[l],
                ),
        decreases lines@.len() - i,
    {
        let line = &lines[i];
        proof {
            assert(tokens_view(line@) == lines_m[i as int]);
        }
        let mut from: usize = 0;
        if line.len() > 0 && matches!(&line[0], Token::BlockQuoteMarker) {
            from = 1;
            if line.len() > 1 && matches!(&line[1], Token::Whitespace) {
                from = 2;
            }
        }
        let mut out: Vec<Token> = Vec::new();
        let mut k: usize = from;
        while k < line.len()
            invariant
                from <= k,
                k <= line@.len() || k == from,
                out@.len() == k - from,
                forall|t: int| 0 <= t < out@.len() ==> #[trigger] out@[t] == line@[t + from],
            decreases line@.len() - k,
        {
            out.push(line[k].clone());
            k = k + 1;
        }
        proof {
            assert(tokens_view(out@) =~= spec_dedent_line(lines_m[i as int]));
        }
        stripped.push(out);
        i = i + 1;
    }
    proof {
        assert(token_lines_view(stripped@) =~= spec_dedent(lines_m));
    }

    let groups = group_lines_to_blocks(stripped);
    let ghost groups_m = spec_group_lines(spec_dedent(lines_m));
    let ghost kept = kept_groups(groups_m);
    let mut content: Vec<MdBlockElement> = Vec::new();
    proof {
        assert(blocks_placeholder_free(blocks_view(content@)));
        assert(groups_m.subrange(0, 0) =~= Seq::<Seq<TokenModel>>::empty());
        crate::types::lemma_blocks_view(content@);
    }
    let mut g: usize = 0;
    while g < groups.len()
        invariant
            g <= groups@.len(),
            token_lines_view(groups@) == groups_m,
            blocks_placeholder_free(blocks_view(content@)),
            fuel > 0 ==> blocks_view(content@).len() == kept_groups(
                groups_m.subrange(0, g as int),
            ).len(),
            fuel > 0 ==> forall|k: int|
                0 <= k < blocks_view(content@).len() ==> block_matches_group(
                    kept_groups(groups_m.subrange(0, g as int))[k],
                    #[trigger] blocks_view(content@)[k],
                ),
            fuel == 0 ==> content@.len() == 0,
        decreases groups@.len() - g,
    {
        let ghost kept0 = kept_groups(groups_m.subrange(0, g as int));
        proof {
            assert(groups_m.subrange(0, g + 1) =~= groups_m.subrange(0, g as int).push(
                groups_m[g as int],
            ));
            lemma_kept_groups_push(groups_m.subrange(0, g as int), groups_m[g as int]);
        }
        if fuel > 0 {
            let sub = groups[g].clone();
            let ghost subm = tokens_view(sub@);
            proof {
                assert(subm == groups_m[g as int]);
            }
            match parse_block_at(sub, fuel - 1) {
                Some(b) => {
                    let ghost cv0 = blocks_view(content@);
                    let ghost cv_pre = content@;
                    let ghost bm = b@;
                    content.push(b);
                    proof {
                        crate::types::lemma_blocks_view(content@);
                        crate::types::lemma_blocks_view(cv_pre);
                        assert(blocks_view(content@) =~= cv0.push(bm));
                        lemma_blocks_placeholder_free_push(cv0, bm);
                        assert(kept_groups(groups_m.subrange(0, g + 1)) =~= kept0.push(subm));
                    }
                },
                None => {
                    proof {
                        assert(kept_groups(groups_m.subrange(0, g + 1)) =~= kept0);
                    }
                },
            }
        }
        g = g + 1;
    }
    proof {
        assert(groups_m.subrange(0, groups_m.len() as int) =~= groups_m);
    }

    let r = MdBlockElement::BlockQuote { content };
    proof {
        assert(block_placeholder_free(r@));
    }
    r
}

/// Classifies one token group into a block element; a group holding only
/// an empty line parses to nothing.  See `parse_block_at` for the
/// classification, which this entry point fixes for every construct by
/// granting more nesting depth than any group can use.
pub fn parse_block(line: Vec<Token>) -> (r: Option<MdBlockElement>)
    ensures
        (r is None) <==> newline_led(tokens_view(line@)),
        r is Some ==> block_matches_group(tokens_view(line@), block_of(r)),
        (tokens_view(line@).len() > 0 && tokens_view(line@)[0] is BlockQuoteMarker) ==> ({
            let kept = spec_blockquote_groups(tokens_view(line@));
            &&& block_of(r)->BlockQuote_content.len() == kept.len()
            &&& forall|k: int|
                0 <= k < kept.len() ==> block_matches_group(
                    kept[k],
                    #[trigger] block_of(r)->BlockQuote_content[k],
                )
        }),
{
    let fuel = if line.len() < usize::MAX {
        line.len() + 1
    } else {
        line.len()
    };
    parse_block_at(line, fuel)
}

/// Parses every token group of a document into its block element, dropping
/// the empty lines; the result is the document tree, and none of its
/// inline content holds a `Placeholder`.
#[verifier::loop_isolation(false)]
pub fn parse_blocks(markdown_lines: Vec<Vec<Token>>) -> (r: Vec<MdBlockElement>)
    ensures
        blocks_placeholder_free(blocks_view(r@)),
        blocks_view(r@).len() == kept_groups(token_lines_view(markdown_lines@)).len(),
        forall|k: int|
            0 <= k < blocks_view(r@).len() ==> block_matches_group(
                kept_groups(token_lines_view(markdown_lines@))[k],
                #[trigger] blocks_view(r@)[k],
            ),
{
    let ghost gs = token_lines_view(markdown_lines@);
    let mut block_elements: Vec<MdBlockElement> = Vec::new();
    proof {
        assert(blocks_placeholder_free(blocks_view(block_elements@)));
        assert(gs.subrange(0, 0) =~= Seq::<Seq<TokenModel>>::empty());
        crate::types::lemma_blocks_view(block_elements@);
    }
    let mut i: usize = 0;
    while i < markdown_lines.len()
        invariant
            i <= markdown_lines@.len(),
            gs == token_lines_view(markdown_lines@),
            blocks_placeholder_free(blocks_view(block_elements@)),
            blocks_view(block_elements@).len() == kept_groups(gs.subrange(0, i as int)).len(),
            forall|k: int|
                0 <= k < blocks_view(block_elements@).len() ==> block_matches_group(
                    kept_groups(gs.subrange(0, i as int))[k],
                    #[trigger] blocks_view(block_elements@)[k],
                ),
        decreases markdown_lines@.len() - i,
    {
        let ghost kept0 = kept_groups(gs.subrange(0, i as int));
        let line = markdown_lines[i].clone();
        let ghost gm = tokens_view(line@);
        proof {
            assert(gm == gs[i as int]);
            assert(gs.subrange(0, i + 1) =~= gs.subrange(0, i as int).push(gs[i as int]));
            lemma_kept_groups_push(gs.subrange(0, i as int), gs[i as int]);
        }
        match parse_block(line) {
            Some(element) => {
                let ghost bv0 = blocks_view(block_elements@);
                let ghost bv_pre = block_elements@;
                let ghost em = element@;
                block_elements.push(element);
                proof {
                    crate::types::lemma_blocks_view(block_elements@);
                    crate::types::lemma_blocks_view(bv_pre);
                    assert(blocks_view(block_elements@) =~= bv0.push(em));
                    lemma_blocks_placeholder_free_push(bv0, em);
                    assert(kept_groups(gs.subrange(0, i + 1)) =~= kept0.push(gm));
                }
            },
            None => {
                proof {
                    assert(kept_groups(gs.subrange(0, i + 1)) =~= kept0);
                }
            },
        }
        i = i + 1;
    }
    proof {
        assert(gs.subrange(0, gs.len() as int) =~= gs);
    }
    block_elements
}

/// The law of plain text: a block of plain tokens parses to the single
/// text element holding exactly their concatenated text, so flattening the
/// parse gives that text back unchanged.
pub proof fn lemma_plain_text_round_trip(ts: Seq<TokenModel>)
    requires
        all_plain_tokens(ts),
    ensures
        spec_flatten(spec_plain_inline_result(ts)) == concat_plain_text(ts),
{
    let text = concat_plain_text(ts);
    if text.len() == 0 {
        assert(spec_flatten(Seq::<InlineModel>::empty()) =~= text);
    } else {
        let one = seq![InlineModel::Text(text)];
        assert(one.subrange(0, 0) =~= Seq::<InlineModel>::empty());
        assert(spec_flatten(one) == spec_flatten(Seq::<InlineModel>::empty())
            + spec_flatten_one(InlineModel::Text(text)));
        assert(spec_flatten(one) =~= text);
    }
}

/// The law of plain text, end to end: a non-empty line of ordinary
/// graphemes tokenizes to plain tokens, and flattening what the inline
/// parser makes of them gives the original line back unchanged.
pub proof fn lemma_ordinary_line_round_trip(s: Seq<char>)
    requires
        s.len() > 0,
        concat_graphemes(grapheme_split(s)) == s,
        forall|k: int|
            0 <= k < grapheme_split(s).len() ==> crate::lexer::ordinary_grapheme(
                #[trigger] grapheme_split(s)[k],
            ),
    ensures
        all_plain_tokens(spec_tokenize(s)),
        spec_flatten(spec_plain_inline_result(spec_tokenize(s))) == s,
{
    crate::lexer::lemma_tokenize_ordinary_line(s);
    let ts = spec_tokenize(s);
    assert(ts == seq![TokenModel::Text(s)]);
    assert(plain_token(ts[0]));
    assert(concat_plain_text(ts.subrange(0, 0)) =~= Seq::<char>::empty());
    assert(ts.subrange(0, 0).len() == 0);
    assert(concat_plain_text(ts) == concat_plain_text(ts.subrange(0, 0)) + plain_token_text(
        ts[0],
    ));
    assert(concat_plain_text(ts) =~= s);
    lemma_plain_text_round_trip(ts);
}

} // verus!
