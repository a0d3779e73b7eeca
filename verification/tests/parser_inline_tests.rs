//! Tests for the inline parser: emphasis resolution, links, images, code
//! spans and graceful degradation of malformed syntax.

use markrs::lexer::tokenize;
use markrs::parser::parse_inline;
use markrs::types::MdInlineElement;

fn el_text(s: &str) -> MdInlineElement {
    MdInlineElement::Text { content: String::from(s) }
}

fn el_bold(content: Vec<MdInlineElement>) -> MdInlineElement {
    MdInlineElement::Bold { content }
}

fn el_italic(content: Vec<MdInlineElement>) -> MdInlineElement {
    MdInlineElement::Italic { content }
}

fn el_link(text: Vec<MdInlineElement>, title: Option<&str>, url: &str) -> MdInlineElement {
    MdInlineElement::Link {
        text,
        title: title.map(String::from),
        url: String::from(url),
    }
}

fn el_image(alt_text: &str, title: Option<&str>, url: &str) -> MdInlineElement {
    MdInlineElement::Image {
        alt_text: String::from(alt_text),
        title: title.map(String::from),
        url: String::from(url),
    }
}

#[test]
fn test_text() {
    assert_eq!(
        parse_inline(tokenize("Plain text.")),
        vec![el_text("Plain text.")]
    );
}

#[test]
fn escape_char() {
    assert_eq!(
        parse_inline(tokenize("\\*escaped char\\*")),
        vec![el_text("\\*escaped char\\*")]
    );
}

#[test]
fn test_bold() {
    assert_eq!(
        parse_inline(tokenize("**Bold** text")),
        vec![el_bold(vec![el_text("Bold")]), el_text(" text")]
    );
}

#[test]
fn test_italic() {
    assert_eq!(
        parse_inline(tokenize("*Italic* text")),
        vec![el_italic(vec![el_text("Italic")]), el_text(" text")]
    );
}

#[test]
fn multiple_emphasis() {
    assert_eq!(
        parse_inline(tokenize("This is **bold** and *italic* text.")),
        vec![
            el_text("This is "),
            el_bold(vec![el_text("bold")]),
            el_text(" and "),
            el_italic(vec![el_text("italic")]),
            el_text(" text.")
        ]
    )
}

#[test]
fn mixed_emphasis() {
    assert_eq!(
        parse_inline(tokenize("**_Bold and italic._**")),
        vec![el_bold(vec![el_italic(vec![el_text("Bold and italic.")])])]
    )
}

#[test]
fn mixed_emphasis_separated() {
    assert_eq!(
        parse_inline(tokenize("_Italic **and bold**_")),
        vec![el_italic(vec![
            el_text("Italic "),
            el_bold(vec![el_text("and bold")])
        ])]
    )
}

#[test]
fn test_link() {
    assert_eq!(
        parse_inline(tokenize("[link text](http://example.com)")),
        vec![el_link(vec![el_text("link text")], None, "http://example.com")]
    );
}

#[test]
fn link_with_emphasis() {
    assert_eq!(
        parse_inline(tokenize("[**bold link text**](http://example.com)")),
        vec![el_link(
            vec![el_bold(vec![el_text("bold link text")])],
            None,
            "http://example.com"
        )]
    );
}

#[test]
fn link_with_internal_hashes() {
    assert_eq!(
        parse_inline(tokenize("[link text with #hash](http://example.com)")),
        vec![el_link(
            vec![el_text("link text with #hash")],
            None,
            "http://example.com"
        )]
    );
}

#[test]
fn link_with_mixed_emphasis() {
    assert_eq!(
        parse_inline(tokenize(
            "[_italic, **bold and italic**_](http://example.com)"
        )),
        vec![el_link(
            vec![el_italic(vec![
                el_text("italic, "),
                el_bold(vec![el_text("bold and italic")])
            ])],
            None,
            "http://example.com"
        )]
    );
}

#[test]
fn link_with_title() {
    assert_eq!(
        parse_inline(tokenize("[link text](http://example.com \"Title\")")),
        vec![el_link(
            vec![el_text("link text")],
            Some("Title"),
            "http://example.com"
        )]
    );
}

#[test]
fn link_with_emphasized_title() {
    assert_eq!(
        parse_inline(tokenize(
            "[**bold link text**](http://example.com \"Title with **bold**\")"
        )),
        vec![el_link(
            vec![el_bold(vec![el_text("bold link text")])],
            Some("Title with **bold**"),
            "http://example.com"
        )]
    );
}

#[test]
fn image() {
    assert_eq!(
        parse_inline(tokenize("![alt text](http://example.com/image.png)")),
        vec![el_image("alt text", None, "http://example.com/image.png")]
    );
}

#[test]
fn image_with_title() {
    assert_eq!(
        parse_inline(tokenize(
            "![alt text](http://example.com/image.png \"Title\")"
        )),
        vec![el_image(
            "alt text",
            Some("Title"),
            "http://example.com/image.png"
        )]
    );
}

#[test]
fn image_with_empty_alt_text() {
    assert_eq!(
        parse_inline(tokenize("![](http://example.com/image.png)")),
        vec![el_image("", None, "http://example.com/image.png")]
    )
}

#[test]
fn image_with_emphasized_alt_text() {
    assert_eq!(
        parse_inline(tokenize(
            "![**bold alt text**](http://example.com/image.png)"
        )),
        vec![el_image(
            "bold alt text",
            None,
            "http://example.com/image.png"
        )]
    );
}

#[test]
fn image_with_emphasized_title() {
    assert_eq!(
        parse_inline(tokenize(
            "![alt text](http://example.com/image.png \"**bold title**\")"
        )),
        vec![el_image(
            "alt text",
            Some("**bold title**"),
            "http://example.com/image.png"
        )]
    );
}

#[test]
fn test_raw_inline_html() {
    assert_eq!(
        parse_inline(tokenize("<span>Inline HTML</span>")),
        vec![el_text("<span>Inline HTML</span>")]
    );
}

#[test]
fn test_malformed_raw_html_no_closing_bracket() {
    assert_eq!(
        parse_inline(tokenize("<span Malformed HTML")),
        vec![el_text("<span Malformed HTML")]
    );
}

#[test]
fn test_malformed_raw_html_no_closing_tag() {
    assert_eq!(
        parse_inline(tokenize("<span>Unclosed HTML")),
        vec![el_text("<span>Unclosed HTML")]
    );
}

#[test]
fn test_malformed_raw_html_mismatched_tags() {
    assert_eq!(
        parse_inline(tokenize("<span>Unmatched </div> tags")),
        vec![el_text("<span>Unmatched </div> tags")]
    );
}
