//! Tests for the tokenizer: one line of Markdown text in, a flat token
//! sequence out.

use markrs::lexer::tokenize;
use markrs::types::Token;

fn tk_text(s: &str) -> Token {
    Token::Text(String::from(s))
}

fn tk_punct(s: &str) -> Token {
    Token::Punctuation(String::from(s))
}

fn tk_em(delimiter: char, length: usize) -> Token {
    Token::EmphasisRun { delimiter, length }
}

#[test]
fn text() {
    assert_eq!(tokenize("Hello"), vec![tk_text("Hello")]);
}

#[test]
fn punctuation() {
    assert_eq!(
        tokenize(".-..-,"),
        vec![
            tk_punct("."),
            tk_punct("-"),
            tk_punct("."),
            tk_punct("."),
            tk_punct("-"),
            tk_punct(",")
        ]
    )
}

#[test]
fn whitespace() {
    assert_eq!(tokenize(" "), vec![Token::Whitespace]);
}

#[test]
fn newline() {
    assert_eq!(tokenize("\n"), vec![Token::Newline]);
}

#[test]
fn italic() {
    assert_eq!(
        tokenize("*italic*"),
        vec![tk_em('*', 1), tk_text("italic"), tk_em('*', 1)]
    );
}

#[test]
fn bold() {
    assert_eq!(
        tokenize("**bold**"),
        vec![tk_em('*', 2), tk_text("bold"), tk_em('*', 2)]
    );
}

#[test]
fn mixed_asterisks() {
    assert_eq!(
        tokenize("***bold + italic***"),
        vec![
            tk_em('*', 3),
            tk_text("bold"),
            Token::Whitespace,
            tk_text("+"),
            Token::Whitespace,
            tk_text("italic"),
            tk_em('*', 3),
        ]
    );
}

#[test]
fn link() {
    assert_eq!(
        tokenize("More information available [here](https://www.example.com)"),
        vec![
            tk_text("More"),
            Token::Whitespace,
            tk_text("information"),
            Token::Whitespace,
            tk_text("available"),
            Token::Whitespace,
            Token::OpenBracket,
            tk_text("here"),
            Token::CloseBracket,
            Token::OpenParenthesis,
            tk_text("https"),
            tk_punct(":"),
            tk_punct("/"),
            tk_punct("/"),
            tk_text("www"),
            tk_punct("."),
            tk_text("example"),
            tk_punct("."),
            tk_text("com"),
            Token::CloseParenthesis
        ]
    );
}

#[test]
fn emphasis_in_link() {
    assert_eq!(
        tokenize("[*italic **bold+italic***](https://www.example.com)"),
        vec![
            Token::OpenBracket,
            tk_em('*', 1),
            tk_text("italic"),
            Token::Whitespace,
            tk_em('*', 2),
            tk_text("bold+italic"),
            tk_em('*', 3),
            Token::CloseBracket,
            Token::OpenParenthesis,
            tk_text("https"),
            tk_punct(":"),
            tk_punct("/"),
            tk_punct("/"),
            tk_text("www"),
            tk_punct("."),
            tk_text("example"),
            tk_punct("."),
            tk_text("com"),
            Token::CloseParenthesis
        ]
    );
}

#[test]
fn unicode() {
    assert_eq!(
        tokenize("これは正解です。"),
        vec![tk_text("これは正解です"), tk_punct("。")]
    );
}

#[test]
fn thematic_break() {
    assert_eq!(tokenize("---"), vec![Token::ThematicBreak]);
}

#[test]
fn code_tick() {
    assert_eq!(
        tokenize("`code`"),
        vec![Token::CodeTick, tk_text("code"), Token::CodeTick]
    );
}

#[test]
fn code_fence() {
    assert_eq!(
        tokenize("```rust\nfn main() {\n    println!(\"Hello, world!\");\n}\n```"),
        vec![
            Token::CodeFence,
            tk_text("rust"),
            Token::Newline,
            tk_text("fn"),
            Token::Whitespace,
            tk_text("main"),
            Token::OpenParenthesis,
            Token::CloseParenthesis,
            Token::Whitespace,
            tk_punct("{"),
            Token::Newline,
            Token::Tab,
            tk_text("println"),
            tk_punct("!"),
            Token::OpenParenthesis,
            tk_punct("\""),
            tk_text("Hello"),
            tk_punct(","),
            Token::Whitespace,
            tk_text("world"),
            tk_punct("!"),
            tk_punct("\""),
            Token::CloseParenthesis,
            tk_punct(";"),
            Token::Newline,
            tk_punct("}"),
            Token::Newline,
            Token::CodeFence
        ]
    )
}

#[test]
fn escape_sequence() {
    assert_eq!(
        tokenize("\\*escaped asterisk\\*"),
        vec![
            Token::Escape(String::from("*")),
            tk_text("escaped"),
            Token::Whitespace,
            tk_text("asterisk"),
            Token::Escape(String::from("*"))
        ]
    );
}

#[test]
fn tab() {
    assert_eq!(tokenize("\t"), vec![Token::Tab]);
}

#[test]
fn tab_via_spaces() {
    assert_eq!(tokenize("    "), vec![Token::Tab]);
}

#[test]
fn blockquote() {
    assert_eq!(
        tokenize("> This is a blockquote."),
        vec![
            Token::BlockQuoteMarker,
            Token::Whitespace,
            tk_text("This"),
            Token::Whitespace,
            tk_text("is"),
            Token::Whitespace,
            tk_text("a"),
            Token::Whitespace,
            tk_text("blockquote"),
            tk_punct(".")
        ]
    );
}

#[test]
fn raw_html_basic() {
    assert_eq!(tokenize("<br>"), vec![Token::RawHtmlTag(String::from("<br>"))]);
}

#[test]
fn raw_html_with_attributes() {
    assert_eq!(
        tokenize("<img src=\"image.jpg\" alt=\"An image\">"),
        vec![Token::RawHtmlTag(String::from(
            "<img src=\"image.jpg\" alt=\"An image\">"
        ))]
    );
}

#[test]
fn raw_inline_html() {
    assert_eq!(
        tokenize("This is <span>Inline HTML</span>"),
        vec![
            tk_text("This"),
            Token::Whitespace,
            tk_text("is"),
            Token::Whitespace,
            Token::RawHtmlTag(String::from("<span>")),
            tk_text("Inline"),
            Token::Whitespace,
            tk_text("HTML"),
            Token::RawHtmlTag(String::from("</span>"))
        ]
    );
}

#[test]
fn malformed_raw_html_no_closing_bracket() {
    assert_eq!(
        tokenize("<div Missing bracket"),
        vec![tk_text("<div Missing bracket")]
    );
}

#[test]
fn malformed_raw_html_no_closing_tag() {
    assert_eq!(
        tokenize("<div>Unclosed tag"),
        vec![
            Token::RawHtmlTag(String::from("<div>")),
            tk_text("Unclosed"),
            Token::Whitespace,
            tk_text("tag")
        ]
    );
}

#[test]
fn malformed_raw_html_mismatched_tags() {
    assert_eq!(
        tokenize("<div>Unmatched tags</span>"),
        vec![
            Token::RawHtmlTag(String::from("<div>")),
            tk_text("Unmatched"),
            Token::Whitespace,
            tk_text("tags"),
            Token::RawHtmlTag(String::from("</span>"))
        ]
    );
}

#[test]
fn unicode_mixed() {
    assert_eq!(
        tokenize("**これ** means \"This\"!"),
        vec![
            tk_em('*', 2),
            tk_text("これ"),
            tk_em('*', 2),
            Token::Whitespace,
            tk_text("means"),
            Token::Whitespace,
            tk_punct("\""),
            tk_text("This"),
            tk_punct("\""),
            tk_punct("!")
        ]
    );
}

#[test]
fn test_lexer_text() {
    assert_eq!(tokenize("Hello!"), vec![tk_text("Hello"), tk_punct("!")]);
}

#[test]
fn test_lexer_whitespace() {
    assert_eq!(tokenize(" "), vec![Token::Whitespace]);
}

#[test]
fn test_lexer_newline() {
    assert_eq!(tokenize("\n"), vec![Token::Newline]);
}

#[test]
fn test_lexer_italic() {
    assert_eq!(
        tokenize("*italic*"),
        vec![tk_em('*', 1), tk_text("italic"), tk_em('*', 1)]
    );
}

#[test]
fn test_lexer_bold() {
    assert_eq!(
        tokenize("**bold**"),
        vec![tk_em('*', 2), tk_text("bold"), tk_em('*', 2)]
    );
}

#[test]
fn test_lexer_mixed_asterisks() {
    assert_eq!(
        tokenize("***bold + italic***"),
        vec![
            tk_em('*', 3),
            tk_text("bold"),
            Token::Whitespace,
            tk_text("+"),
            Token::Whitespace,
            tk_text("italic"),
            tk_em('*', 3)
        ]
    );
}

#[test]
fn test_lexer_link() {
    assert_eq!(
        tokenize("More information available [here](https://www.example.com)"),
        vec![
            tk_text("More"),
            Token::Whitespace,
            tk_text("information"),
            Token::Whitespace,
            tk_text("available"),
            Token::Whitespace,
            Token::OpenBracket,
            tk_text("here"),
            Token::CloseBracket,
            Token::OpenParenthesis,
            tk_text("https"),
            tk_punct(":"),
            tk_punct("/"),
            tk_punct("/"),
            tk_text("www"),
            tk_punct("."),
            tk_text("example"),
            tk_punct("."),
            tk_text("com"),
            Token::CloseParenthesis
        ]
    );
}

#[test]
fn test_lexer_emphasis_in_link() {
    assert_eq!(
        tokenize("[*italic **bold+italic***](https://www.example.com)"),
        vec![
            Token::OpenBracket,
            tk_em('*', 1),
            tk_text("italic"),
            Token::Whitespace,
            tk_em('*', 2),
            tk_text("bold+italic"),
            tk_em('*', 3),
            Token::CloseBracket,
            Token::OpenParenthesis,
            tk_text("https"),
            tk_punct(":"),
            tk_punct("/"),
            tk_punct("/"),
            tk_text("www"),
            tk_punct("."),
            tk_text("example"),
            tk_punct("."),
            tk_text("com"),
            Token::CloseParenthesis
        ]
    );
}

#[test]
fn test_lexer_unicode() {
    assert_eq!(
        tokenize("これは正解です。"),
        vec![tk_text("これは正解です"), tk_punct("。")]
    );
}

#[test]
fn test_lexer_unicode_mixed() {
    assert_eq!(
        tokenize("**これ** means \"This\"!"),
        vec![
            tk_em('*', 2),
            tk_text("これ"),
            tk_em('*', 2),
            Token::Whitespace,
            tk_text("means"),
            Token::Whitespace,
            tk_punct("\""),
            tk_text("This"),
            tk_punct("\""),
            tk_punct("!")
        ]
    );
}
