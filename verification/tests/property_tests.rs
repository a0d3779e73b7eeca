//! Tests of the library's stated properties: totality of the tokenizer, no
//! leaked placeholders, degradation of unmatched delimiters to literal
//! text, the rule of three, flattening as an inverse of plain-text
//! parsing, nested list and table shapes, and grapheme-aware tokenization.

use markrs::config::Config;
use markrs::lexer::tokenize;
use markrs::parser::{flatten_inline, group_lines_to_blocks, parse_block, parse_blocks,
    parse_inline};
use markrs::types::{MdBlockElement, MdInlineElement, TableAlignment, Token, TokenCursor};

fn pt_text(s: &str) -> MdInlineElement {
    MdInlineElement::Text { content: String::from(s) }
}

fn contains_placeholder(elements: &[MdInlineElement]) -> bool {
    elements.iter().any(|e| match e {
        MdInlineElement::Placeholder => true,
        MdInlineElement::Bold { content } => contains_placeholder(content),
        MdInlineElement::Italic { content } => contains_placeholder(content),
        MdInlineElement::Link { text, .. } => contains_placeholder(text),
        _ => false,
    })
}

#[test]
fn tokenize_is_total_on_odd_inputs() {
    // totality: no input shape panics, and an empty line is one newline
    assert_eq!(tokenize(""), vec![Token::Newline]);
    let _ = tokenize("\\");
    let _ = tokenize("``");
    let _ = tokenize("--");
    let _ = tokenize("   ");
    let _ = tokenize("1.");
    let _ = tokenize("<");
    let _ = tokenize("********");
    let _ = tokenize("日本語🎉\u{301}");
    let _ = tokenize("\t\t\t");
}

#[test]
fn no_leaked_placeholders() {
    let inputs = vec![
        "*a _ b*",
        "***bold + italic***",
        "*lonely",
        "**two [*three* four](x) five**",
        "_ _ _",
        "*a*b*",
        "![**x** _y_](u)",
        "plain",
        "",
    ];
    for input in inputs {
        let parsed = parse_inline(tokenize(input));
        assert!(!contains_placeholder(&parsed));
    }
}

#[test]
fn lonely_delimiter_degrades_to_text() {
    assert_eq!(
        parse_inline(tokenize("*lonely")),
        vec![pt_text("*"), pt_text("lonely")]
    );
    assert_eq!(
        parse_inline(tokenize("lonely_")),
        vec![pt_text("lonely"), pt_text("_")]
    );
}

#[test]
fn rule_of_three_splits_triple_run() {
    // a 3-run on each side must not become bold wrapping italic: the pair
    // consumes two delimiters and the leftover single delimiters degrade
    let parsed = parse_inline(tokenize("***bold + italic***"));
    assert_eq!(
        parsed,
        vec![
            pt_text("*"),
            MdInlineElement::Bold {
                content: vec![pt_text("bold + italic")]
            },
            pt_text("*")
        ]
    );
}

#[test]
fn flattening_plain_text_is_identity() {
    let inputs = vec![
        "no markup at all",
        "digits 123 and dots...",
        "punct, punct; punct!",
    ];
    for input in inputs {
        let flattened = flatten_inline(parse_inline(tokenize(input)));
        assert_eq!(flattened, String::from(input));
    }
}

#[test]
fn nested_list_round_trip() {
    let parsed = parse_blocks(group_lines_to_blocks(vec![
        tokenize("- Item 1"),
        tokenize("    - Nested 1.1"),
        tokenize("    - Nested 1.2"),
        tokenize("- Item 2"),
    ]));
    assert_eq!(parsed.len(), 1);
    match &parsed[0] {
        MdBlockElement::UnorderedList { items } => {
            assert_eq!(items.len(), 3);
            match &items[1].content {
                MdBlockElement::UnorderedList { items: nested } => {
                    assert_eq!(nested.len(), 2);
                }
                other => panic!("middle item should be a nested list, got {:?}", other),
            }
        }
        other => panic!("expected an unordered list, got {:?}", other),
    }
}

#[test]
fn table_shape_and_alignment_propagation() {
    let parsed = parse_blocks(group_lines_to_blocks(vec![
        tokenize("| A | B |"),
        tokenize("| :-- | :-: |"),
        tokenize("| a1 | b1 |"),
        tokenize("| a2 | b2 |"),
    ]));
    assert_eq!(parsed.len(), 1);
    match &parsed[0] {
        MdBlockElement::Table { headers, body } => {
            assert_eq!(headers.len(), 2);
            assert_eq!(body.len(), 2);
            assert_eq!(headers[0].alignment, TableAlignment::Left);
            assert_eq!(headers[1].alignment, TableAlignment::Center);
            for row in body {
                assert_eq!(row[0].alignment, TableAlignment::Left);
                assert_eq!(row[1].alignment, TableAlignment::Center);
                assert!(row.iter().all(|c| !c.is_header));
            }
            assert!(headers.iter().all(|c| c.is_header));
        }
        other => panic!("expected a table, got {:?}", other),
    }
}

#[test]
fn unicode_graphemes_tokenize_as_one_text_run() {
    assert_eq!(
        tokenize("これは正解です。"),
        vec![
            Token::Text(String::from("これは正解です")),
            Token::Punctuation(String::from("。"))
        ]
    );
}

#[test]
fn combining_marks_stay_with_their_base() {
    // a combining acute accent must never be split from its base letter
    let tokens = tokenize("cafe\u{301}!");
    assert_eq!(
        tokens,
        vec![
            Token::Text(String::from("cafe\u{301}")),
            Token::Punctuation(String::from("!"))
        ]
    );
}

#[test]
fn code_span_reconstructs_literal_text() {
    // everything between the ticks comes back as literal text, so a
    // tokenizer that altered its argument would be caught here
    assert_eq!(
        parse_inline(tokenize("`*not emphasis* [no link](x)`")),
        vec![MdInlineElement::Code {
            content: String::from("*not emphasis* [no link](x)")
        }]
    );
}

#[test]
fn unterminated_code_span_degrades_to_text() {
    assert_eq!(
        parse_inline(tokenize("`dangling")),
        vec![pt_text("`dangling`")]
    );
}

#[test]
fn unterminated_link_degrades_to_text() {
    assert_eq!(parse_inline(tokenize("[label")), vec![pt_text("[label")]);
    assert_eq!(parse_inline(tokenize("[label]")), vec![pt_text("[label]")]);
    assert_eq!(
        parse_inline(tokenize("[label](url")),
        vec![pt_text("[label](url ")]
    );
}

#[test]
fn invalid_quoted_title_degrades_to_text() {
    assert_eq!(
        parse_inline(tokenize("[label](url \"title)")),
        vec![pt_text("[label](url title)")]
    );
}

#[test]
fn setext_heading_level_one() {
    assert_eq!(
        parse_blocks(group_lines_to_blocks(vec![tokenize("Title"), tokenize("=")])),
        vec![MdBlockElement::Header {
            level: 1,
            content: vec![pt_text("Title")]
        }]
    );
}

#[test]
fn setext_heading_level_two() {
    assert_eq!(
        parse_blocks(group_lines_to_blocks(vec![tokenize("Title"), tokenize("-")])),
        vec![MdBlockElement::Header {
            level: 2,
            content: vec![pt_text("Title")]
        }]
    );
}

#[test]
fn thematic_break_after_heading_stands_alone() {
    assert_eq!(
        parse_blocks(group_lines_to_blocks(vec![
            tokenize("# Heading"),
            tokenize("---")
        ])),
        vec![
            MdBlockElement::Header {
                level: 1,
                content: vec![pt_text("Heading")]
            },
            MdBlockElement::ThematicBreak
        ]
    );
}

#[test]
fn heading_without_space_is_paragraph() {
    assert_eq!(
        parse_block(tokenize("#heading")),
        Some(MdBlockElement::Paragraph {
            content: vec![pt_text("#heading")]
        })
    );
}

#[test]
fn empty_line_parses_to_nothing() {
    assert_eq!(parse_block(tokenize("")), None);
}

#[test]
fn ordered_marker_needs_line_start() {
    // a number in running text is not a list marker
    assert_eq!(
        tokenize("See item 1. above"),
        vec![
            Token::Text(String::from("See")),
            Token::Whitespace,
            Token::Text(String::from("item")),
            Token::Whitespace,
            Token::Text(String::from("1")),
            Token::Punctuation(String::from(".")),
            Token::Whitespace,
            Token::Text(String::from("above"))
        ]
    );
}

#[test]
fn escape_consumes_next_grapheme() {
    assert_eq!(
        tokenize("a\\*b"),
        vec![
            Token::Text(String::from("a")),
            Token::Escape(String::from("*")),
            Token::Text(String::from("b"))
        ]
    );
}

#[test]
fn nested_blockquote() {
    let parsed = parse_block(tokenize("> > deep"));
    match parsed {
        Some(MdBlockElement::BlockQuote { content }) => {
            assert_eq!(content.len(), 1);
            match &content[0] {
                MdBlockElement::BlockQuote { content: inner } => {
                    assert_eq!(
                        inner[0],
                        MdBlockElement::Paragraph {
                            content: vec![pt_text("deep")]
                        }
                    );
                }
                other => panic!("expected a nested blockquote, got {:?}", other),
            }
        }
        other => panic!("expected a blockquote, got {:?}", other),
    }
}

#[test]
fn cursor_walks_its_tokens() {
    let mut cursor = TokenCursor { tokens: tokenize("a b"), current_position: 0 };
    assert_eq!(cursor.position(), 0);
    assert!(!cursor.is_at_eof());
    assert_eq!(cursor.current(), Some(&Token::Text(String::from("a"))));
    assert_eq!(cursor.peek_ahead(1), Some(&Token::Whitespace));
    assert_eq!(cursor.peek_ahead(5), None);
    cursor.advance();
    cursor.advance();
    assert_eq!(cursor.current(), Some(&Token::Text(String::from("b"))));
    cursor.advance();
    assert!(cursor.is_at_eof());
    assert_eq!(cursor.current(), None);
    cursor.advance();
    assert_eq!(cursor.position(), 3);
}

#[test]
fn flatten_reaches_nested_content() {
    let parsed = parse_inline(tokenize("a **b _c_** [d](u) ![e](v) `f`"));
    assert_eq!(flatten_inline(parsed), String::from("a b c d e f"));
}

#[test]
fn default_configuration_values() {
    let config = Config::default();
    assert_eq!(config.lexer.tab_size, 4);
    assert_eq!(config.html.css_file, String::from("default"));
    assert_eq!(config.html.favicon_file, String::from(""));
    assert!(!config.html.use_prism);
    assert_eq!(config.html.prism_theme, String::from("vsc-dark-plus"));
    assert!(config.html.sanitize_html);
}

#[test]
fn emphasis_with_punctuation_flanking() {
    // an underscore run inside a word must not open emphasis
    assert_eq!(
        parse_inline(tokenize("intra_word_underscores")),
        vec![
            pt_text("intra"),
            pt_text("_"),
            pt_text("word"),
            pt_text("_"),
            pt_text("underscores")
        ]
    );
}

#[test]
fn placeholder_inside_resolved_pair_degrades() {
    // the unmatched delimiter between the pair becomes its literal text
    // instead of surviving as a placeholder
    let parsed = parse_inline(tokenize("*a _ b*"));
    assert!(!contains_placeholder(&parsed));
    assert_eq!(
        parsed,
        vec![MdInlineElement::Italic {
            content: vec![pt_text("a "), pt_text("_"), pt_text(" b")]
        }]
    );
}

#[test]
fn currency_symbols_tokenize_as_punctuation() {
    assert_eq!(
        tokenize("$5"),
        vec![
            Token::Punctuation(String::from("$")),
            Token::Text(String::from("5"))
        ]
    );
}

#[test]
fn ordered_marker_at_line_start() {
    assert_eq!(
        tokenize("1. x"),
        vec![
            Token::OrderedListMarker(String::from("1.")),
            Token::Whitespace,
            Token::Text(String::from("x"))
        ]
    );
}

#[test]
fn ordered_marker_after_tab() {
    assert_eq!(
        tokenize("\t1. x"),
        vec![
            Token::Tab,
            Token::OrderedListMarker(String::from("1.")),
            Token::Whitespace,
            Token::Text(String::from("x"))
        ]
    );
}

#[test]
fn leftover_double_delimiter_keeps_both_characters() {
    // an unmatched run of two degrades to both of its characters
    assert_eq!(
        parse_inline(tokenize("**lonely")),
        vec![pt_text("**"), pt_text("lonely")]
    );
}

#[test]
fn setext_underline_of_several_equals_signs() {
    assert_eq!(
        parse_blocks(group_lines_to_blocks(vec![
            tokenize("Title"),
            tokenize("===")
        ])),
        vec![MdBlockElement::Header {
            level: 1,
            content: vec![pt_text("Title")]
        }]
    );
}

#[test]
fn dash_after_list_is_thematic_break() {
    // a lone dash after a non-text block stands alone instead of turning
    // the block into a setext heading
    assert_eq!(
        parse_blocks(group_lines_to_blocks(vec![tokenize("1. item"), tokenize("-")])),
        vec![
            MdBlockElement::OrderedList {
                items: vec![markrs::types::MdListItem {
                    content: MdBlockElement::Paragraph {
                        content: vec![pt_text("item")]
                    }
                }]
            },
            MdBlockElement::ThematicBreak
        ]
    );
}

#[test]
fn doubly_nested_list_keeps_its_levels() {
    // dedenting takes one level at a time, so a twice-indented line stays
    // one level down inside the nested list
    let parsed = parse_blocks(group_lines_to_blocks(vec![
        tokenize("- a"),
        tokenize("\t- b"),
        tokenize("\t\t- c"),
    ]));
    assert_eq!(parsed.len(), 1);
    match &parsed[0] {
        MdBlockElement::UnorderedList { items } => {
            assert_eq!(items.len(), 2);
            match &items[1].content {
                MdBlockElement::UnorderedList { items: nested } => {
                    assert_eq!(nested.len(), 2);
                    assert!(matches!(
                        nested[1].content,
                        MdBlockElement::UnorderedList { .. }
                    ));
                }
                other => panic!("expected a nested list, got {:?}", other),
            }
        }
        other => panic!("expected an unordered list, got {:?}", other),
    }
}
