//! Tests for the block grouper and the block parser: headings, paragraphs,
//! lists, code blocks, blockquotes, raw HTML and pipe tables.

use markrs::lexer::tokenize;
use markrs::parser::{group_lines_to_blocks, parse_block, parse_blocks};
use markrs::types::{MdBlockElement, MdInlineElement, MdListItem, MdTableCell, TableAlignment};

fn bl_text(s: &str) -> MdInlineElement {
    MdInlineElement::Text { content: String::from(s) }
}

fn bl_bold(content: Vec<MdInlineElement>) -> MdInlineElement {
    MdInlineElement::Bold { content }
}

fn bl_italic(content: Vec<MdInlineElement>) -> MdInlineElement {
    MdInlineElement::Italic { content }
}

fn bl_para(content: Vec<MdInlineElement>) -> MdBlockElement {
    MdBlockElement::Paragraph { content }
}

fn bl_item(content: MdBlockElement) -> MdListItem {
    MdListItem { content }
}

fn bl_cell(content: Vec<MdInlineElement>, alignment: TableAlignment, is_header: bool) -> MdTableCell {
    MdTableCell { content, alignment, is_header }
}

#[test]
fn heading() {
    assert_eq!(
        parse_block(tokenize("# Heading 1")),
        Some(MdBlockElement::Header {
            level: 1,
            content: vec![bl_text("Heading 1")]
        })
    );
}

#[test]
fn multilevel_heading() {
    assert_eq!(
        parse_block(tokenize("### Heading 3")),
        Some(MdBlockElement::Header {
            level: 3,
            content: vec![bl_text("Heading 3")]
        })
    );
}

#[test]
fn heading_with_internal_hashes() {
    assert_eq!(
        parse_block(tokenize("## Heading 2 with #internal #hashes")),
        Some(MdBlockElement::Header {
            level: 2,
            content: vec![bl_text("Heading 2 with #internal #hashes")]
        })
    );
}

#[test]
fn heading_with_emphases() {
    assert_eq!(
        parse_block(tokenize("## Heading 2 with **bold words**")),
        Some(MdBlockElement::Header {
            level: 2,
            content: vec![
                bl_text("Heading 2 with "),
                bl_bold(vec![bl_text("bold words")])
            ]
        })
    )
}

#[test]
fn paragraph() {
    assert_eq!(
        parse_block(tokenize("This is a paragraph.")),
        Some(bl_para(vec![bl_text("This is a paragraph.")]))
    );
}

#[test]
fn multiple_paragraphs() {
    assert_eq!(
        parse_blocks(group_lines_to_blocks(vec![
            tokenize("First paragraph."),
            tokenize("Second paragraph.")
        ])),
        vec![bl_para(vec![bl_text("First paragraph. Second paragraph.")])]
    );
}

#[test]
fn multiline_paragraphs() {
    assert_eq!(
        parse_block(tokenize("First line.\nSecond line.")),
        Some(bl_para(vec![bl_text("First line."), bl_text("Second line.")]))
    );
}

#[test]
fn paragraph_with_emphasis() {
    assert_eq!(
        parse_block(tokenize("This is a paragraph with **bold text**.")),
        Some(bl_para(vec![
            bl_text("This is a paragraph with "),
            bl_bold(vec![bl_text("bold text")]),
            bl_text(".")
        ]))
    );
}

#[test]
fn paragraph_with_mixed_emphasis() {
    assert_eq!(
        parse_block(tokenize(
            "This is a paragraph with **bold text** and *italic text*."
        )),
        Some(bl_para(vec![
            bl_text("This is a paragraph with "),
            bl_bold(vec![bl_text("bold text")]),
            bl_text(" and "),
            bl_italic(vec![bl_text("italic text")]),
            bl_text(".")
        ]))
    );
}

#[test]
fn paragraph_with_link() {
    assert_eq!(
        parse_block(tokenize(
            "This is a paragraph with [a link](http://example.com)."
        )),
        Some(bl_para(vec![
            bl_text("This is a paragraph with "),
            MdInlineElement::Link {
                text: vec![bl_text("a link")],
                title: None,
                url: String::from("http://example.com")
            },
            bl_text(".")
        ]))
    );
}

#[test]
fn paragraph_with_image_and_emphasis() {
    assert_eq!(
        parse_block(tokenize(
            "This is a paragraph with ![an image](http://example.com/image.png) and **bold text**."
        )),
        Some(bl_para(vec![
            bl_text("This is a paragraph with "),
            MdInlineElement::Image {
                alt_text: String::from("an image"),
                title: None,
                url: String::from("http://example.com/image.png")
            },
            bl_text(" and "),
            bl_bold(vec![bl_text("bold text")]),
            bl_text(".")
        ]))
    );
}

#[test]
fn complex_paragraph() {
    assert_eq!(
        parse_blocks(group_lines_to_blocks(vec![
            tokenize(
                "This is a paragraph with **bold text**, *italic text*, and [a link](http://example.com)."
            ),
            tokenize(
                "It also contains ![an image](http://example.com/image.png) and some `inline code`."
            ),
            tokenize("It also contains a `code span`, and the following code block:"),
            tokenize("```rust"),
            tokenize("fn main() {"),
            tokenize("    println!(\"Hello, world!\");"),
            tokenize("}"),
            tokenize("```")
        ])),
        vec![
            bl_para(vec![
                bl_text("This is a paragraph with "),
                bl_bold(vec![bl_text("bold text")]),
                bl_text(", "),
                bl_italic(vec![bl_text("italic text")]),
                bl_text(", and "),
                MdInlineElement::Link {
                    text: vec![bl_text("a link")],
                    title: None,
                    url: String::from("http://example.com")
                },
                bl_text(". It also contains "),
                MdInlineElement::Image {
                    alt_text: String::from("an image"),
                    title: None,
                    url: String::from("http://example.com/image.png")
                },
                bl_text(" and some "),
                MdInlineElement::Code {
                    content: String::from("inline code")
                },
                bl_text(". It also contains a "),
                MdInlineElement::Code {
                    content: String::from("code span")
                },
                bl_text(", and the following code block:")
            ]),
            MdBlockElement::CodeBlock {
                language: Some(String::from("rust")),
                lines: vec![
                    String::from("fn main() {"),
                    String::from("    println!(\"Hello, world!\");"),
                    String::from("}")
                ]
            }
        ]
    )
}

#[test]
fn unordered_list() {
    assert_eq!(
        parse_blocks(group_lines_to_blocks(vec![
            tokenize("- Item 1"),
            tokenize("- Item 2")
        ])),
        vec![MdBlockElement::UnorderedList {
            items: vec![
                bl_item(bl_para(vec![bl_text("Item 1")])),
                bl_item(bl_para(vec![bl_text("Item 2")]))
            ]
        }]
    );
}

#[test]
fn unordered_list_with_nested_items() {
    assert_eq!(
        parse_blocks(group_lines_to_blocks(vec![
            tokenize("- Item 1"),
            tokenize("    - Nested Item 1.1"),
            tokenize("    - Nested Item 1.2"),
            tokenize("- Item 2")
        ])),
        vec![MdBlockElement::UnorderedList {
            items: vec![
                bl_item(bl_para(vec![bl_text("Item 1")])),
                bl_item(MdBlockElement::UnorderedList {
                    items: vec![
                        bl_item(bl_para(vec![bl_text("Nested Item 1.1")])),
                        bl_item(bl_para(vec![bl_text("Nested Item 1.2")]))
                    ]
                }),
                bl_item(bl_para(vec![bl_text("Item 2")]))
            ]
        }]
    );
}

#[test]
fn unordered_list_with_inlines() {
    assert_eq!(
        parse_blocks(group_lines_to_blocks(vec![
            tokenize("1. **Bold Item 1**"),
            tokenize("2. *Italic Item 2*"),
            tokenize("3. [Link Item 3](http://example.com)"),
            tokenize("4. ![Image Item 4](http://example.com/image.png)"),
        ])),
        vec![MdBlockElement::OrderedList {
            items: vec![
                bl_item(bl_para(vec![bl_bold(vec![bl_text("Bold Item 1")])])),
                bl_item(bl_para(vec![bl_italic(vec![bl_text("Italic Item 2")])])),
                bl_item(bl_para(vec![MdInlineElement::Link {
                    text: vec![bl_text("Link Item 3")],
                    title: None,
                    url: String::from("http://example.com")
                }])),
                bl_item(bl_para(vec![MdInlineElement::Image {
                    alt_text: String::from("Image Item 4"),
                    title: None,
                    url: String::from("http://example.com/image.png")
                }]))
            ]
        }]
    )
}

#[test]
fn ordered_list() {
    assert_eq!(
        parse_blocks(group_lines_to_blocks(vec![
            tokenize("1. First"),
            tokenize("2. Second")
        ])),
        vec![MdBlockElement::OrderedList {
            items: vec![
                bl_item(bl_para(vec![bl_text("First")])),
                bl_item(bl_para(vec![bl_text("Second")]))
            ]
        }]
    );
}

#[test]
fn ordered_list_with_nested_items() {
    assert_eq!(
        parse_blocks(group_lines_to_blocks(vec![
            tokenize("1. Item 1"),
            tokenize("    1. Nested Item 1.1"),
            tokenize("    2. Nested Item 1.2"),
            tokenize("2. Item 2")
        ])),
        vec![MdBlockElement::OrderedList {
            items: vec![
                bl_item(bl_para(vec![bl_text("Item 1")])),
                bl_item(MdBlockElement::OrderedList {
                    items: vec![
                        bl_item(bl_para(vec![bl_text("Nested Item 1.1")])),
                        bl_item(bl_para(vec![bl_text("Nested Item 1.2")]))
                    ]
                }),
                bl_item(bl_para(vec![bl_text("Item 2")]))
            ]
        }]
    );
}

#[test]
fn ordered_list_with_inlines() {
    assert_eq!(
        parse_blocks(group_lines_to_blocks(vec![
            tokenize("1. **Bold Item 1**"),
            tokenize("2. *Italic Item 2*"),
            tokenize("3. [Link Item 3](http://example.com)"),
            tokenize("4. ![Image Item 4](http://example.com/image.png \"Some title\")"),
        ])),
        vec![MdBlockElement::OrderedList {
            items: vec![
                bl_item(bl_para(vec![bl_bold(vec![bl_text("Bold Item 1")])])),
                bl_item(bl_para(vec![bl_italic(vec![bl_text("Italic Item 2")])])),
                bl_item(bl_para(vec![MdInlineElement::Link {
                    text: vec![bl_text("Link Item 3")],
                    title: None,
                    url: String::from("http://example.com")
                }])),
                bl_item(bl_para(vec![MdInlineElement::Image {
                    alt_text: String::from("Image Item 4"),
                    title: Some(String::from("Some title")),
                    url: String::from("http://example.com/image.png")
                }]))
            ]
        }]
    )
}

#[test]
fn test_blockquote() {
    assert_eq!(
        parse_block(tokenize("> This is a blockquote.")),
        Some(MdBlockElement::BlockQuote {
            content: vec![bl_para(vec![bl_text("This is a blockquote.")])]
        })
    );
}

#[test]
fn blockquote_with_nested_block_elements() {
    assert_eq!(
        parse_blocks(group_lines_to_blocks(vec![
            tokenize("> This is a blockquote with a nested list:"),
            tokenize("> - Item 1"),
            tokenize("> - Item 2")
        ])),
        vec![MdBlockElement::BlockQuote {
            content: vec![
                bl_para(vec![bl_text("This is a blockquote with a nested list:")]),
                MdBlockElement::UnorderedList {
                    items: vec![
                        bl_item(bl_para(vec![bl_text("Item 1")])),
                        bl_item(bl_para(vec![bl_text("Item 2")]))
                    ]
                }
            ]
        }]
    );
}

#[test]
fn code_block() {
    assert_eq!(
        parse_block(tokenize("```\ncode block\n```")),
        Some(MdBlockElement::CodeBlock {
            language: None,
            lines: vec![String::from("code block")]
        })
    );
}

#[test]
fn fenced_code_block_with_language() {
    assert_eq!(
        parse_block(tokenize("```rust\nfn main() {}\n```")),
        Some(MdBlockElement::CodeBlock {
            language: Some(String::from("rust")),
            lines: vec![String::from("fn main() {}")]
        })
    );
}

#[test]
fn test_raw_html_basic() {
    assert_eq!(
        parse_block(tokenize("<div>Raw HTML content</div>")),
        Some(MdBlockElement::RawHtml {
            content: String::from("<div>Raw HTML content</div>")
        })
    );
}

#[test]
fn test_raw_html_with_attributes() {
    assert_eq!(
        parse_block(tokenize("<img src=\"image.png\" alt=\"Image\"/>")),
        Some(MdBlockElement::RawHtml {
            content: String::from("<img src=\"image.png\" alt=\"Image\"/>")
        })
    );
}

#[test]
fn block_raw_inline_html() {
    assert_eq!(
        parse_block(tokenize("This is <span>inline HTML</span> content.")),
        Some(bl_para(vec![bl_text("This is <span>inline HTML</span> content.")]))
    );
}

#[test]
fn mixed_markdown_and_html() {
    assert_eq!(
        parse_block(tokenize(
            "This is a paragraph with strong <strong>HTML</strong> and **Markdown**."
        )),
        Some(bl_para(vec![
            bl_text("This is a paragraph with strong <strong>HTML</strong> and "),
            bl_bold(vec![bl_text("Markdown")]),
            bl_text(".")
        ]))
    );
}

#[test]
fn block_malformed_raw_html_no_closing_bracket() {
    assert_eq!(
        parse_block(tokenize("<div Malformed HTML")),
        Some(bl_para(vec![bl_text("<div Malformed HTML")]))
    );
}

#[test]
fn block_malformed_raw_html_no_closing_tag() {
    assert_eq!(
        parse_block(tokenize("<div>Unclosed HTML")),
        Some(MdBlockElement::RawHtml {
            content: String::from("<div>Unclosed HTML")
        })
    );
}

#[test]
fn block_malformed_raw_html_mismatched_tags() {
    assert_eq!(
        parse_block(tokenize("<div>Unmatched </span> tags")),
        Some(MdBlockElement::RawHtml {
            content: String::from("<div>Unmatched </span> tags")
        })
    );
}

#[test]
fn table_all_left_align() {
    assert_eq!(
        parse_blocks(group_lines_to_blocks(vec![
            tokenize("| Header 1 | Header 2 |"),
            tokenize("| :-- | :-- |"),
            tokenize("| Cell 1 | Cell 2 |"),
            tokenize("| Cell 3 | Cell 4 |")
        ])),
        vec![MdBlockElement::Table {
            headers: vec![
                bl_cell(vec![bl_text(" Header 1 ")], TableAlignment::Left, true),
                bl_cell(vec![bl_text(" Header 2 ")], TableAlignment::Left, true)
            ],
            body: vec![
                vec![
                    bl_cell(vec![bl_text(" Cell 1 ")], TableAlignment::Left, false),
                    bl_cell(vec![bl_text(" Cell 2 ")], TableAlignment::Left, false)
                ],
                vec![
                    bl_cell(vec![bl_text(" Cell 3 ")], TableAlignment::Left, false),
                    bl_cell(vec![bl_text(" Cell 4 ")], TableAlignment::Left, false)
                ]
            ]
        }]
    );
}

#[test]
fn table_mixed_align() {
    assert_eq!(
        parse_blocks(group_lines_to_blocks(vec![
            tokenize("| Header 1 | Header 2 | Header 3 |"),
            tokenize("| :-- | :-: | --: |"),
            tokenize("| Cell 1 | Cell 2 | Cell 3 |"),
            tokenize("| Cell 4 | Cell 5 | Cell 6 |")
        ])),
        vec![MdBlockElement::Table {
            headers: vec![
                bl_cell(vec![bl_text(" Header 1 ")], TableAlignment::Left, true),
                bl_cell(vec![bl_text(" Header 2 ")], TableAlignment::Center, true),
                bl_cell(vec![bl_text(" Header 3 ")], TableAlignment::Right, true)
            ],
            body: vec![
                vec![
                    bl_cell(vec![bl_text(" Cell 1 ")], TableAlignment::Left, false),
                    bl_cell(vec![bl_text(" Cell 2 ")], TableAlignment::Center, false),
                    bl_cell(vec![bl_text(" Cell 3 ")], TableAlignment::Right, false)
                ],
                vec![
                    bl_cell(vec![bl_text(" Cell 4 ")], TableAlignment::Left, false),
                    bl_cell(vec![bl_text(" Cell 5 ")], TableAlignment::Center, false),
                    bl_cell(vec![bl_text(" Cell 6 ")], TableAlignment::Right, false)
                ]
            ]
        }]
    );
}

#[test]
fn table_no_align() {
    assert_eq!(
        parse_blocks(group_lines_to_blocks(vec![
            tokenize("| Header 1 | Header 2 |"),
            tokenize("| -- | -- |"),
            tokenize("| Cell 1 | Cell 2 |"),
            tokenize("| Cell 3 | Cell 4 |")
        ])),
        vec![MdBlockElement::Table {
            headers: vec![
                bl_cell(vec![bl_text(" Header 1 ")], TableAlignment::Unspecified, true),
                bl_cell(vec![bl_text(" Header 2 ")], TableAlignment::Unspecified, true)
            ],
            body: vec![
                vec![
                    bl_cell(vec![bl_text(" Cell 1 ")], TableAlignment::Unspecified, false),
                    bl_cell(vec![bl_text(" Cell 2 ")], TableAlignment::Unspecified, false)
                ],
                vec![
                    bl_cell(vec![bl_text(" Cell 3 ")], TableAlignment::Unspecified, false),
                    bl_cell(vec![bl_text(" Cell 4 ")], TableAlignment::Unspecified, false)
                ]
            ]
        }]
    );
}

#[test]
fn table_with_inline_content() {
    assert_eq!(
        parse_blocks(group_lines_to_blocks(vec![
            tokenize("| Header 1 | Header 2 |"),
            tokenize("| :-- | :-- |"),
            tokenize("| **Bold Cell** | *Italic Cell* |"),
            tokenize("| [Link](http://example.com) | ![Image](http://example.com/image.png) |")
        ])),
        vec![MdBlockElement::Table {
            headers: vec![
                bl_cell(vec![bl_text(" Header 1 ")], TableAlignment::Left, true),
                bl_cell(vec![bl_text(" Header 2 ")], TableAlignment::Left, true)
            ],
            body: vec![
                vec![
                    bl_cell(
                        vec![
                            bl_text(" "),
                            bl_bold(vec![bl_text("Bold Cell")]),
                            bl_text(" ")
                        ],
                        TableAlignment::Left,
                        false
                    ),
                    bl_cell(
                        vec![
                            bl_text(" "),
                            bl_italic(vec![bl_text("Italic Cell")]),
                            bl_text(" ")
                        ],
                        TableAlignment::Left,
                        false
                    )
                ],
                vec![
                    bl_cell(
                        vec![
                            bl_text(" "),
                            MdInlineElement::Link {
                                text: vec![bl_text("Link")],
                                title: None,
                                url: String::from("http://example.com")
                            },
                            bl_text(" ")
                        ],
                        TableAlignment::Left,
                        false
                    ),
                    bl_cell(
                        vec![
                            bl_text(" "),
                            MdInlineElement::Image {
                                alt_text: String::from("Image"),
                                title: None,
                                url: String::from("http://example.com/image.png")
                            },
                            bl_text(" ")
                        ],
                        TableAlignment::Left,
                        false
                    )
                ]
            ]
        }]
    );
}

#[test]
fn table_with_empty_cells() {
    assert_eq!(
        parse_blocks(group_lines_to_blocks(vec![
            tokenize("| Header 1 | Header 2 |"),
            tokenize("| :-- | :-- |"),
            tokenize("| Cell 1 ||"),
            tokenize("|| Cell 4 |")
        ])),
        vec![MdBlockElement::Table {
            headers: vec![
                bl_cell(vec![bl_text(" Header 1 ")], TableAlignment::Left, true),
                bl_cell(vec![bl_text(" Header 2 ")], TableAlignment::Left, true)
            ],
            body: vec![
                vec![
                    bl_cell(vec![bl_text(" Cell 1 ")], TableAlignment::Left, false),
                    bl_cell(vec![], TableAlignment::Left, false)
                ],
                vec![
                    bl_cell(vec![], TableAlignment::Left, false),
                    bl_cell(vec![bl_text(" Cell 4 ")], TableAlignment::Left, false)
                ]
            ]
        }]
    );
}

#[test]
fn table_with_missing_cell() {
    assert_eq!(
        parse_blocks(group_lines_to_blocks(vec![
            tokenize("| Header 1 | Header 2 |"),
            tokenize("| -- | -- |"),
            tokenize("| Cell 1 | Cell 2 |"),
            tokenize("| Cell 3 |")
        ])),
        vec![MdBlockElement::Table {
            headers: vec![
                bl_cell(vec![bl_text(" Header 1 ")], TableAlignment::Unspecified, true),
                bl_cell(vec![bl_text(" Header 2 ")], TableAlignment::Unspecified, true)
            ],
            body: vec![
                vec![
                    bl_cell(vec![bl_text(" Cell 1 ")], TableAlignment::Unspecified, false),
                    bl_cell(vec![bl_text(" Cell 2 ")], TableAlignment::Unspecified, false)
                ],
                vec![bl_cell(
                    vec![bl_text(" Cell 3 ")],
                    TableAlignment::Unspecified,
                    false
                )]
            ]
        }]
    )
}
