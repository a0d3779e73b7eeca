//! The data model of the parser: tokens, block-level and inline elements,
//! the token cursor, and the delimiter bookkeeping used to resolve emphasis.
//!
//! Each executable type has a mathematical model (`TokenModel`,
//! `InlineModel`, `BlockModel`, ...) reached through its view; every
//! contract in the crate speaks of those models.

use vstd::prelude::*;

verus! {

/// One lexical token of a Markdown line.
#[derive(Debug, PartialEq)]
pub enum Token {
    Text(String),
    EmphasisRun { delimiter: char, length: usize },
    Punctuation(String),
    OpenBracket,
    CloseBracket,
    OpenParenthesis,
    CloseParenthesis,
    TableCellSeparator,
    OrderedListMarker(String),
    Whitespace,
    CodeTick,
    CodeFence,
    ThematicBreak,
    Escape(String),
    Tab,
    Newline,
    BlockQuoteMarker,
    RawHtmlTag(String),
}

/// The mathematical shape of a `Token`: the same tags, with every string
/// payload abstracted to its character sequence.
pub enum TokenModel {
    Text(Seq<char>),
    EmphasisRun { delimiter: char, length: int },
    Punctuation(Seq<char>),
    OpenBracket,
    CloseBracket,
    OpenParenthesis,
    CloseParenthesis,
    TableCellSeparator,
    OrderedListMarker(Seq<char>),
    Whitespace,
    CodeTick,
    CodeFence,
    ThematicBreak,
    Escape(Seq<char>),
    Tab,
    Newline,
    BlockQuoteMarker,
    RawHtmlTag(Seq<char>),
}

impl View for Token {
    type V = TokenModel;

    open spec fn view(&self) -> TokenModel {
        match self {
            Token::Text(s) => TokenModel::Text(s@),
            Token::EmphasisRun { delimiter, length } => TokenModel::EmphasisRun {
                delimiter: *delimiter,
                length: *length as int,
            },
            Token::Punctuation(s) => TokenModel::Punctuation(s@),
            Token::OpenBracket => TokenModel::OpenBracket,
            Token::CloseBracket => TokenModel::CloseBracket,
            Token::OpenParenthesis => TokenModel::OpenParenthesis,
            Token::CloseParenthesis => TokenModel::CloseParenthesis,
            Token::TableCellSeparator => TokenModel::TableCellSeparator,
            Token::OrderedListMarker(s) => TokenModel::OrderedListMarker(s@),
            Token::Whitespace => TokenModel::Whitespace,
            Token::CodeTick => TokenModel::CodeTick,
            Token::CodeFence => TokenModel::CodeFence,
            Token::ThematicBreak => TokenModel::ThematicBreak,
            Token::Escape(s) => TokenModel::Escape(s@),
            Token::Tab => TokenModel::Tab,
            Token::Newline => TokenModel::Newline,
            Token::BlockQuoteMarker => TokenModel::BlockQuoteMarker,
            Token::RawHtmlTag(s) => TokenModel::RawHtmlTag(s@),
        }
    }
}

impl DeepView for Token {
    type V = TokenModel;

    open spec fn deep_view(&self) -> TokenModel {
        self.view()
    }
}

/// The models of a sequence of tokens.
pub open spec fn tokens_view(s: Seq<Token>) -> Seq<TokenModel> {
    Seq::new(s.len(), |i: int| s[i]@)
}

/// The models of a sequence of tokenized lines.
pub open spec fn token_lines_view(s: Seq<Vec<Token>>) -> Seq<Seq<TokenModel>> {
    Seq::new(s.len(), |i: int| tokens_view(s[i]@))
}

impl Clone for Token {
    /// A clone of a token equals the token.
    fn clone(&self) -> (res: Self)
        ensures
            res == *self,
    {
        match self {
            Token::Text(s) => Token::Text(s.clone()),
            Token::EmphasisRun { delimiter, length } => Token::EmphasisRun {
                delimiter: *delimiter,
                length: *length,
            },
            Token::Punctuation(s) => Token::Punctuation(s.clone()),
            Token::OpenBracket => Token::OpenBracket,
            Token::CloseBracket => Token::CloseBracket,
            Token::OpenParenthesis => Token::OpenParenthesis,
            Token::CloseParenthesis => Token::CloseParenthesis,
            Token::TableCellSeparator => Token::TableCellSeparator,
            Token::OrderedListMarker(s) => Token::OrderedListMarker(s.clone()),
            Token::Whitespace => Token::Whitespace,
            Token::CodeTick => Token::CodeTick,
            Token::CodeFence => Token::CodeFence,
            Token::ThematicBreak => Token::ThematicBreak,
            Token::Escape(s) => Token::Escape(s.clone()),
            Token::Tab => Token::Tab,
            Token::Newline => Token::Newline,
            Token::BlockQuoteMarker => Token::BlockQuoteMarker,
            Token::RawHtmlTag(s) => Token::RawHtmlTag(s.clone()),
        }
    }
}

/// The alignment of a table column, taken from the table's alignment row.
#[derive(Debug, PartialEq, Eq, Structural, Clone, Copy)]
pub enum TableAlignment {
    Left,
    Center,
    Right,
    Unspecified,
}

/// One inline element of a parsed block: plain text, emphasis, a link, an
/// image or a code span.  `Placeholder` only ever exists while emphasis is
/// being resolved; a finished tree holds none.
#[derive(Debug)]
pub enum MdInlineElement {
    Text { content: String },
    Bold { content: Vec<MdInlineElement> },
    Italic { content: Vec<MdInlineElement> },
    Link { text: Vec<MdInlineElement>, title: Option<String>, url: String },
    Image { alt_text: String, title: Option<String>, url: String },
    Code { content: String },
    Placeholder,
}

/// The mathematical shape of an `MdInlineElement`.
pub enum InlineModel {
    Text(Seq<char>),
    Bold(Seq<InlineModel>),
    Italic(Seq<InlineModel>),
    Link { text: Seq<InlineModel>, title: Option<Seq<char>>, url: Seq<char> },
    Image { alt_text: Seq<char>, title: Option<Seq<char>>, url: Seq<char> },
    Code(Seq<char>),
    Placeholder,
}

/// The models of a sequence of inline elements.
pub open spec fn inlines_view(s: Seq<MdInlineElement>) -> Seq<InlineModel>
    decreases s,
{
    if s.len() == 0 {
        Seq::empty()
    } else {
        inlines_view(s.subrange(0, s.len() - 1)).push(s[s.len() - 1]@)
    }
}

/// `inlines_view` maps the sequence pointwise: it keeps the length and
/// takes the model of each element.
pub broadcast proof fn lemma_inlines_view(s: Seq<MdInlineElement>)
    ensures
        (#[trigger] inlines_view(s)).len() == s.len(),
        forall|i: int| 0 <= i < s.len() ==> inlines_view(s)[i] == s[i]@,
    decreases s.len(),
{
    if s.len() > 0 {
        let sub = s.subrange(0, s.len() - 1);
        lemma_inlines_view(sub);
        assert(inlines_view(s) == inlines_view(sub).push(s[s.len() - 1]@));
        assert(inlines_view(sub).len() == s.len() - 1);
        assert(inlines_view(s).len() == s.len());
        assert forall|i: int| 0 <= i < s.len() implies inlines_view(s)[i] == s[i]@ by {
            if i < s.len() - 1 {
                assert(sub[i] == s[i]);
                assert(inlines_view(s)[i] == inlines_view(sub)[i]);
            } else {
                assert(inlines_view(s)[i] == s[s.len() - 1]@);
            }
        }
    } else {
        assert(inlines_view(s) == Seq::<InlineModel>::empty());
    }
}

impl View for MdInlineElement {
    type V = InlineModel;

    open spec fn view(&self) -> InlineModel
        decreases self,
    {
        match self {
            MdInlineElement::Text { content } => InlineModel::Text(content@),
            MdInlineElement::Bold { content } => InlineModel::Bold(inlines_view(content@)),
            MdInlineElement::Italic { content } => InlineModel::Italic(inlines_view(content@)),
            MdInlineElement::Link { text, title, url } => InlineModel::Link {
                text: inlines_view(text@),
                title: title.deep_view(),
                url: url@,
            },
            MdInlineElement::Image { alt_text, title, url } => InlineModel::Image {
                alt_text: alt_text@,
                title: title.deep_view(),
                url: url@,
            },
            MdInlineElement::Code { content } => InlineModel::Code(content@),
            MdInlineElement::Placeholder => InlineModel::Placeholder,
        }
    }
}

impl DeepView for MdInlineElement {
    type V = InlineModel;

    open spec fn deep_view(&self) -> InlineModel {
        self.view()
    }
}

/// Holds of an inline tree that contains no `Placeholder` anywhere.
pub open spec fn inline_placeholder_free(m: InlineModel) -> bool
    decreases m,
{
    match m {
        InlineModel::Text(_) => true,
        InlineModel::Bold(c) => inlines_placeholder_free(c),
        InlineModel::Italic(c) => inlines_placeholder_free(c),
        InlineModel::Link { text, .. } => inlines_placeholder_free(text),
        InlineModel::Image { .. } => true,
        InlineModel::Code(_) => true,
        InlineModel::Placeholder => false,
    }
}

/// Holds of a sequence of inline trees none of which contains a
/// `Placeholder`.
pub open spec fn inlines_placeholder_free(ms: Seq<InlineModel>) -> bool
    decreases ms,
{
    if ms.len() == 0 {
        true
    } else {
        inlines_placeholder_free(ms.subrange(0, ms.len() - 1)) && inline_placeholder_free(
            ms[ms.len() - 1],
        )
    }
}

/// A sequence of inline trees is placeholder-free exactly when each of its
/// elements is.
pub proof fn lemma_inlines_placeholder_free(ms: Seq<InlineModel>)
    ensures
        inlines_placeholder_free(ms) <==> (forall|i: int|
            0 <= i < ms.len() ==> inline_placeholder_free(#[trigger] ms[i])),
    decreases ms.len(),
{
    if ms.len() > 0 {
        let sub = ms.subrange(0, ms.len() - 1);
        lemma_inlines_placeholder_free(sub);
        assert(inlines_placeholder_free(ms) == (inlines_placeholder_free(sub)
            && inline_placeholder_free(ms[ms.len() - 1])));
        if inlines_placeholder_free(ms) {
            assert forall|i: int|
                0 <= i < ms.len() implies inline_placeholder_free(#[trigger] ms[i]) by {
                if i < ms.len() - 1 {
                    assert(sub[i] == ms[i]);
                }
            }
        }
        if forall|i: int| 0 <= i < ms.len() ==> inline_placeholder_free(#[trigger] ms[i]) {
            assert forall|i: int|
                0 <= i < sub.len() implies inline_placeholder_free(#[trigger] sub[i]) by {
                assert(sub[i] == ms[i]);
            }
        }
    }
}

/// One cell of a table: its inline content, the alignment its column was
/// given, and whether it belongs to the header row.
#[derive(Debug, Clone)]
pub struct MdTableCell {
    pub content: Vec<MdInlineElement>,
    pub alignment: TableAlignment,
    pub is_header: bool,
}

/// A block-level element of the document tree.
#[derive(Debug)]
pub enum MdBlockElement {
    Header { level: u8, content: Vec<MdInlineElement> },
    Paragraph { content: Vec<MdInlineElement> },
    CodeBlock { language: Option<String>, lines: Vec<String> },
    ThematicBreak,
    UnorderedList { items: Vec<MdListItem> },
    OrderedList { items: Vec<MdListItem> },
    Table { headers: Vec<MdTableCell>, body: Vec<Vec<MdTableCell>> },
    BlockQuote { content: Vec<MdBlockElement> },
    RawHtml { content: String },
}

/// One item of a list; its content is itself a block, which is what lets a
/// list item hold a nested list.
#[derive(Debug)]
pub struct MdListItem {
    pub content: MdBlockElement,
}

/// The mathematical shape of an `MdTableCell`.
pub struct CellModel {
    pub content: Seq<InlineModel>,
    pub alignment: TableAlignment,
    pub is_header: bool,
}

/// The mathematical shape of an `MdListItem`.
pub struct ListItemModel {
    pub content: BlockModel,
}

/// The mathematical shape of an `MdBlockElement`.
pub enum BlockModel {
    Header { level: int, content: Seq<InlineModel> },
    Paragraph { content: Seq<InlineModel> },
    CodeBlock { language: Option<Seq<char>>, lines: Seq<Seq<char>> },
    ThematicBreak,
    UnorderedList { items: Seq<ListItemModel> },
    OrderedList { items: Seq<ListItemModel> },
    Table { headers: Seq<CellModel>, body: Seq<Seq<CellModel>> },
    BlockQuote { content: Seq<BlockModel> },
    RawHtml { content: Seq<char> },
}

/// The character sequences of a vector of strings.
pub open spec fn strings_view(s: Seq<String>) -> Seq<Seq<char>> {
    Seq::new(s.len(), |i: int| s[i]@)
}

impl View for MdTableCell {
    type V = CellModel;

    open spec fn view(&self) -> CellModel {
        CellModel {
            content: inlines_view(self.content@),
            alignment: self.alignment,
            is_header: self.is_header,
        }
    }
}

impl DeepView for MdTableCell {
    type V = CellModel;

    open spec fn deep_view(&self) -> CellModel {
        self.view()
    }
}

/// The models of a sequence of table cells.
pub open spec fn cells_view(s: Seq<MdTableCell>) -> Seq<CellModel> {
    Seq::new(s.len(), |i: int| s[i]@)
}

/// The models of a sequence of table rows.
pub open spec fn rows_view(s: Seq<Vec<MdTableCell>>) -> Seq<Seq<CellModel>> {
    Seq::new(s.len(), |i: int| cells_view(s[i]@))
}

impl View for MdListItem {
    type V = ListItemModel;

    open spec fn view(&self) -> ListItemModel
        decreases self,
    {
        ListItemModel { content: self.content@ }
    }
}

impl DeepView for MdListItem {
    type V = ListItemModel;

    open spec fn deep_view(&self) -> ListItemModel {
        self.view()
    }
}

/// The models of a sequence of list items.
pub open spec fn items_view(s: Seq<MdListItem>) -> Seq<ListItemModel>
    decreases s,
{
    if s.len() == 0 {
        Seq::empty()
    } else {
        items_view(s.subrange(0, s.len() - 1)).push(s[s.len() - 1]@)
    }
}

/// `items_view` maps the sequence pointwise: it keeps the length and takes
/// the model of each item.
pub broadcast proof fn lemma_items_view(s: Seq<MdListItem>)
    ensures
        (#[trigger] items_view(s)).len() == s.len(),
        forall|i: int| 0 <= i < s.len() ==> items_view(s)[i] == s[i]@,
    decreases s.len(),
{
    if s.len() > 0 {
        let sub = s.subrange(0, s.len() - 1);
        lemma_items_view(sub);
        assert(items_view(s) == items_view(sub).push(s[s.len() - 1]@));
        assert(items_view(s).len() == s.len());
        assert forall|i: int| 0 <= i < s.len() implies items_view(s)[i] == s[i]@ by {
            if i < s.len() - 1 {
                assert(sub[i] == s[i]);
                assert(items_view(s)[i] == items_view(sub)[i]);
            } else {
                assert(items_view(s)[i] == s[s.len() - 1]@);
            }
        }
    } else {
        assert(items_view(s) == Seq::<ListItemModel>::empty());
    }
}

/// The models of a sequence of block elements.
pub open spec fn blocks_view(s: Seq<MdBlockElement>) -> Seq<BlockModel>
    decreases s,
{
    if s.len() == 0 {
        Seq::empty()
    } else {
        blocks_view(s.subrange(0, s.len() - 1)).push(s[s.len() - 1]@)
    }
}

/// `blocks_view` maps the sequence pointwise: it keeps the length and takes
/// the model of each element.
pub broadcast proof fn lemma_blocks_view(s: Seq<MdBlockElement>)
    ensures
        (#[trigger] blocks_view(s)).len() == s.len(),
        forall|i: int| 0 <= i < s.len() ==> blocks_view(s)[i] == s[i]@,
    decreases s.len(),
{
    if s.len() > 0 {
        let sub = s.subrange(0, s.len() - 1);
        lemma_blocks_view(sub);
        assert(blocks_view(s) == blocks_view(sub).push(s[s.len() - 1]@));
        assert(blocks_view(s).len() == s.len());
        assert forall|i: int| 0 <= i < s.len() implies blocks_view(s)[i] == s[i]@ by {
            if i < s.len() - 1 {
                assert(sub[i] == s[i]);
                assert(blocks_view(s)[i] == blocks_view(sub)[i]);
            } else {
                assert(blocks_view(s)[i] == s[s.len() - 1]@);
            }
        }
    } else {
        assert(blocks_view(s) == Seq::<BlockModel>::empty());
    }
}

impl View for MdBlockElement {
    type V = BlockModel;

    open spec fn view(&self) -> BlockModel
        decreases self,
    {
        match self {
            MdBlockElement::Header { level, content } => BlockModel::Header {
                level: *level as int,
                content: inlines_view(content@),
            },
            MdBlockElement::Paragraph { content } => BlockModel::Paragraph {
                content: inlines_view(content@),
            },
            MdBlockElement::CodeBlock { language, lines } => BlockModel::CodeBlock {
                language: language.deep_view(),
                lines: strings_view(lines@),
            },
            MdBlockElement::ThematicBreak => BlockModel::ThematicBreak,
            MdBlockElement::UnorderedList { items } => BlockModel::UnorderedList {
                items: items_view(items@),
            },
            MdBlockElement::OrderedList { items } => BlockModel::OrderedList {
                items: items_view(items@),
            },
            MdBlockElement::Table { headers, body } => BlockModel::Table {
                headers: cells_view(headers@),
                body: rows_view(body@),
            },
            MdBlockElement::BlockQuote { content } => BlockModel::BlockQuote {
                content: blocks_view(content@),
            },
            MdBlockElement::RawHtml { content } => BlockModel::RawHtml { content: content@ },
        }
    }
}

impl DeepView for MdBlockElement {
    type V = BlockModel;

    open spec fn deep_view(&self) -> BlockModel {
        self.view()
    }
}

/// Holds of a block tree whose inline content nowhere contains a
/// `Placeholder`.
pub open spec fn block_placeholder_free(b: BlockModel) -> bool
    decreases b,
{
    match b {
        BlockModel::Header { content, .. } => inlines_placeholder_free(content),
        BlockModel::Paragraph { content } => inlines_placeholder_free(content),
        BlockModel::CodeBlock { .. } => true,
        BlockModel::ThematicBreak => true,
        BlockModel::UnorderedList { items } => items_placeholder_free(items),
        BlockModel::OrderedList { items } => items_placeholder_free(items),
        BlockModel::Table { headers, body } => cells_placeholder_free(headers)
            && rows_placeholder_free(body),
        BlockModel::BlockQuote { content } => blocks_placeholder_free(content),
        BlockModel::RawHtml { .. } => true,
    }
}

/// Holds of a sequence of list items none of which contains a
/// `Placeholder`.
pub open spec fn items_placeholder_free(items: Seq<ListItemModel>) -> bool
    decreases items,
{
    if items.len() == 0 {
        true
    } else {
        items_placeholder_free(items.subrange(0, items.len() - 1)) && block_placeholder_free(
            items[items.len() - 1].content,
        )
    }
}

/// Holds of a cell whose content contains no `Placeholder`.
pub open spec fn cell_placeholder_free(c: CellModel) -> bool {
    inlines_placeholder_free(c.content)
}

/// Holds of a sequence of cells none of which contains a `Placeholder`.
pub open spec fn cells_placeholder_free(cs: Seq<CellModel>) -> bool
    decreases cs,
{
    if cs.len() == 0 {
        true
    } else {
        cells_placeholder_free(cs.subrange(0, cs.len() - 1)) && cell_placeholder_free(
            cs[cs.len() - 1],
        )
    }
}

/// Holds of a sequence of table rows none of whose cells contains a
/// `Placeholder`.
pub open spec fn rows_placeholder_free(rs: Seq<Seq<CellModel>>) -> bool
    decreases rs,
{
    if rs.len() == 0 {
        true
    } else {
        rows_placeholder_free(rs.subrange(0, rs.len() - 1)) && cells_placeholder_free(
            rs[rs.len() - 1],
        )
    }
}

/// Holds of a sequence of block trees none of which contains a
/// `Placeholder`.
pub open spec fn blocks_placeholder_free(bs: Seq<BlockModel>) -> bool
    decreases bs,
{
    if bs.len() == 0 {
        true
    } else {
        blocks_placeholder_free(bs.subrange(0, bs.len() - 1)) && block_placeholder_free(
            bs[bs.len() - 1],
        )
    }
}

/// Extending a placeholder-free block sequence by a placeholder-free block
/// keeps it placeholder-free.
pub proof fn lemma_blocks_placeholder_free_push(bs: Seq<BlockModel>, b: BlockModel)
    requires
        blocks_placeholder_free(bs),
        block_placeholder_free(b),
    ensures
        blocks_placeholder_free(bs.push(b)),
{
    assert(bs.push(b).subrange(0, bs.push(b).len() - 1) =~= bs);
    assert(bs.push(b)[bs.push(b).len() - 1] == b);
}

/// Extending a placeholder-free item sequence by an item with
/// placeholder-free content keeps it placeholder-free.
pub proof fn lemma_items_placeholder_free_push(items: Seq<ListItemModel>, it: ListItemModel)
    requires
        items_placeholder_free(items),
        block_placeholder_free(it.content),
    ensures
        items_placeholder_free(items.push(it)),
{
    assert(items.push(it).subrange(0, items.push(it).len() - 1) =~= items);
    assert(items.push(it)[items.push(it).len() - 1] == it);
}

/// Extending a placeholder-free cell sequence by a placeholder-free cell
/// keeps it placeholder-free.
pub proof fn lemma_cells_placeholder_free_push(cs: Seq<CellModel>, c: CellModel)
    requires
        cells_placeholder_free(cs),
        cell_placeholder_free(c),
    ensures
        cells_placeholder_free(cs.push(c)),
{
    assert(cs.push(c).subrange(0, cs.push(c).len() - 1) =~= cs);
    assert(cs.push(c)[cs.push(c).len() - 1] == c);
}

/// Extending a placeholder-free row sequence by a placeholder-free row
/// keeps it placeholder-free.
pub proof fn lemma_rows_placeholder_free_push(rs: Seq<Seq<CellModel>>, r: Seq<CellModel>)
    requires
        rows_placeholder_free(rs),
        cells_placeholder_free(r),
    ensures
        rows_placeholder_free(rs.push(r)),
{
    assert(rs.push(r).subrange(0, rs.push(r).len() - 1) =~= rs);
    assert(rs.push(r)[rs.push(r).len() - 1] == r);
}

/// A copy of an optional string with the same characters.
fn opt_string_clone(a: &Option<String>) -> (res: Option<String>)
    ensures
        res.deep_view() == a.deep_view(),
{
    match a {
        Option::Some(st) => Some(st.clone()),
        Option::None => None,
    }
}

/// A copy of an inline element with the same model.
fn inline_clone(e: &MdInlineElement) -> (res: MdInlineElement)
    ensures
        res@ == e@,
    decreases *e,
{
    match e {
        MdInlineElement::Text { content } => MdInlineElement::Text { content: content.clone() },
        MdInlineElement::Bold { content } => MdInlineElement::Bold {
            content: inline_vec_clone(content),
        },
        MdInlineElement::Italic { content } => MdInlineElement::Italic {
            content: inline_vec_clone(content),
        },
        MdInlineElement::Link { text, title, url } => MdInlineElement::Link {
            text: inline_vec_clone(text),
            title: opt_string_clone(title),
            url: url.clone(),
        },
        MdInlineElement::Image { alt_text, title, url } => MdInlineElement::Image {
            alt_text: alt_text.clone(),
            title: opt_string_clone(title),
            url: url.clone(),
        },
        MdInlineElement::Code { content } => MdInlineElement::Code { content: content.clone() },
        MdInlineElement::Placeholder => MdInlineElement::Placeholder,
    }
}

/// A copy of a vector of inline elements with the same models.
fn inline_vec_clone(v: &Vec<MdInlineElement>) -> (res: Vec<MdInlineElement>)
    ensures
        inlines_view(res@) == inlines_view(v@),
    decreases *v,
{
    let mut out: Vec<MdInlineElement> = Vec::new();
    let mut i: usize = 0;
    while i < v.len()
        invariant
            i <= v@.len(),
            out@.len() == i,
            forall|j: int| 0 <= j < i ==> out@[j]@ == v@[j]@,
        decreases v@.len() - i,
    {
        out.push(inline_clone(&v[i]));
        i = i + 1;
    }
    proof {
        lemma_inlines_view(out@);
        lemma_inlines_view(v@);
        assert(inlines_view(out@) =~= inlines_view(v@));
    }
    out
}

impl Clone for MdInlineElement {
    /// A clone of an inline element has the same model as the element.
    fn clone(&self) -> (res: Self)
        ensures
            res@ == self@,
    {
        inline_clone(self)
    }
}

/// Whether two optional strings hold the same characters.
fn opt_string_eq(a: &Option<String>, b: &Option<String>) -> (r: bool)
    ensures
        r == (a.deep_view() == b.deep_view()),
{
    match (a, b) {
        (Option::Some(x), Option::Some(y)) => *x == *y,
        (Option::None, Option::None) => true,
        _ => false,
    }
}

/// Whether two inline elements have the same model.
fn inline_eq(a: &MdInlineElement, b: &MdInlineElement) -> (r: bool)
    ensures
        r == (a@ == b@),
    decreases *a,
{
    match (a, b) {
        (
            MdInlineElement::Text { content: c1 },
            MdInlineElement::Text { content: c2 },
        ) => *c1 == *c2,
        (
            MdInlineElement::Bold { content: c1 },
            MdInlineElement::Bold { content: c2 },
        ) => inline_vec_eq(c1, c2),
        (
            MdInlineElement::Italic { content: c1 },
            MdInlineElement::Italic { content: c2 },
        ) => inline_vec_eq(c1, c2),
        (
            MdInlineElement::Link { text: t1, title: ti1, url: u1 },
            MdInlineElement::Link { text: t2, title: ti2, url: u2 },
        ) => inline_vec_eq(t1, t2) && opt_string_eq(ti1, ti2) && *u1 == *u2,
        (
            MdInlineElement::Image { alt_text: a1, title: ti1, url: u1 },
            MdInlineElement::Image { alt_text: a2, title: ti2, url: u2 },
        ) => *a1 == *a2 && opt_string_eq(ti1, ti2) && *u1 == *u2,
        (
            MdInlineElement::Code { content: c1 },
            MdInlineElement::Code { content: c2 },
        ) => *c1 == *c2,
        (MdInlineElement::Placeholder, MdInlineElement::Placeholder) => true,
        _ => false,
    }
}

/// Whether two vectors of inline elements have the same models.
fn inline_vec_eq(a: &Vec<MdInlineElement>, b: &Vec<MdInlineElement>) -> (r: bool)
    ensures
        r == (inlines_view(a@) == inlines_view(b@)),
    decreases *a,
{
    if a.len() != b.len() {
        proof {
            lemma_inlines_view(a@);
            lemma_inlines_view(b@);
        }
        return false;
    }
    let mut i: usize = 0;
    while i < a.len()
        invariant
            i <= a@.len(),
            a@.len() == b@.len(),
            forall|j: int| 0 <= j < i ==> a@[j]@ == b@[j]@,
        decreases a@.len() - i,
    {
        if !inline_eq(&a[i], &b[i]) {
            proof {
                lemma_inlines_view(a@);
                lemma_inlines_view(b@);
                assert(inlines_view(a@)[i as int] != inlines_view(b@)[i as int]);
            }
            return false;
        }
        i = i + 1;
    }
    proof {
        lemma_inlines_view(a@);
        lemma_inlines_view(b@);
        assert(inlines_view(a@) =~= inlines_view(b@));
    }
    true
}

impl PartialEq for MdInlineElement {
    fn eq(&self, other: &MdInlineElement) -> (r: bool) {
        inline_eq(self, other)
    }
}

impl vstd::std_specs::cmp::PartialEqSpecImpl for MdInlineElement {
    open spec fn obeys_eq_spec() -> bool {
        true
    }

    open spec fn eq_spec(&self, other: &MdInlineElement) -> bool {
        self@ == other@
    }
}

/// Whether two table cells have the same model.
fn cell_eq(a: &MdTableCell, b: &MdTableCell) -> (r: bool)
    ensures
        r == (a@ == b@),
{
    inline_vec_eq(&a.content, &b.content) && a.alignment == b.alignment && a.is_header
        == b.is_header
}

impl PartialEq for MdTableCell {
    fn eq(&self, other: &MdTableCell) -> (r: bool) {
        cell_eq(self, other)
    }
}

impl vstd::std_specs::cmp::PartialEqSpecImpl for MdTableCell {
    open spec fn obeys_eq_spec() -> bool {
        true
    }

    open spec fn eq_spec(&self, other: &MdTableCell) -> bool {
        self@ == other@
    }
}

/// Whether two vectors of table cells have the same models.
fn cell_vec_eq(a: &Vec<MdTableCell>, b: &Vec<MdTableCell>) -> (r: bool)
    ensures
        r == (cells_view(a@) == cells_view(b@)),
{
    if a.len() != b.len() {
        assert(cells_view(a@).len() != cells_view(b@).len());
        return false;
    }
    let mut i: usize = 0;
    while i < a.len()
        invariant
            i <= a@.len(),
            a@.len() == b@.len(),
            forall|j: int| 0 <= j < i ==> cells_view(a@)[j] == cells_view(b@)[j],
        decreases a@.len() - i,
    {
        if !cell_eq(&a[i], &b[i]) {
            assert(cells_view(a@)[i as int] != cells_view(b@)[i as int]);
            return false;
        }
        i = i + 1;
    }
    proof {
        assert(cells_view(a@) =~= cells_view(b@));
    }
    true
}

/// Whether two vectors of table rows have the same models.
fn row_vec_eq(a: &Vec<Vec<MdTableCell>>, b: &Vec<Vec<MdTableCell>>) -> (r: bool)
    ensures
        r == (rows_view(a@) == rows_view(b@)),
{
    if a.len() != b.len() {
        assert(rows_view(a@).len() != rows_view(b@).len());
        return false;
    }
    let mut i: usize = 0;
    while i < a.len()
        invariant
            i <= a@.len(),
            a@.len() == b@.len(),
            forall|j: int| 0 <= j < i ==> rows_view(a@)[j] == rows_view(b@)[j],
        decreases a@.len() - i,
    {
        if !cell_vec_eq(&a[i], &b[i]) {
            assert(rows_view(a@)[i as int] != rows_view(b@)[i as int]);
            return false;
        }
        i = i + 1;
    }
    proof {
        assert(rows_view(a@) =~= rows_view(b@));
    }
    true
}

/// Whether two vectors of strings hold the same characters.
fn string_vec_eq(a: &Vec<String>, b: &Vec<String>) -> (r: bool)
    ensures
        r == (strings_view(a@) == strings_view(b@)),
{
    if a.len() != b.len() {
        assert(strings_view(a@).len() != strings_view(b@).len());
        return false;
    }
    let mut i: usize = 0;
    while i < a.len()
        invariant
            i <= a@.len(),
            a@.len() == b@.len(),
            forall|j: int| 0 <= j < i ==> strings_view(a@)[j] == strings_view(b@)[j],
        decreases a@.len() - i,
    {
        if !(a[i] == b[i]) {
            assert(strings_view(a@)[i as int] != strings_view(b@)[i as int]);
            return false;
        }
        i = i + 1;
    }
    proof {
        assert(strings_view(a@) =~= strings_view(b@));
    }
    true
}

/// Whether two block elements have the same model.
fn block_eq(a: &MdBlockElement, b: &MdBlockElement) -> (r: bool)
    ensures
        r == (a@ == b@),
    decreases *a,
{
    match (a, b) {
        (
            MdBlockElement::Header { level: l1, content: c1 },
            MdBlockElement::Header { level: l2, content: c2 },
        ) => *l1 == *l2 && inline_vec_eq(c1, c2),
        (
            MdBlockElement::Paragraph { content: c1 },
            MdBlockElement::Paragraph { content: c2 },
        ) => inline_vec_eq(c1, c2),
        (
            MdBlockElement::CodeBlock { language: g1, lines: n1 },
            MdBlockElement::CodeBlock { language: g2, lines: n2 },
        ) => opt_string_eq(g1, g2) && string_vec_eq(n1, n2),
        (MdBlockElement::ThematicBreak, MdBlockElement::ThematicBreak) => true,
        (
            MdBlockElement::UnorderedList { items: i1 },
            MdBlockElement::UnorderedList { items: i2 },
        ) => item_vec_eq(i1, i2),
        (
            MdBlockElement::OrderedList { items: i1 },
            MdBlockElement::OrderedList { items: i2 },
        ) => item_vec_eq(i1, i2),
        (
            MdBlockElement::Table { headers: h1, body: b1 },
            MdBlockElement::Table { headers: h2, body: b2 },
        ) => cell_vec_eq(h1, h2) && row_vec_eq(b1, b2),
        (
            MdBlockElement::BlockQuote { content: c1 },
            MdBlockElement::BlockQuote { content: c2 },
        ) => block_vec_eq(c1, c2),
        (
            MdBlockElement::RawHtml { content: c1 },
            MdBlockElement::RawHtml { content: c2 },
        ) => *c1 == *c2,
        _ => false,
    }
}

/// Whether two vectors of list items have the same models.
fn item_vec_eq(a: &Vec<MdListItem>, b: &Vec<MdListItem>) -> (r: bool)
    ensures
        r == (items_view(a@) == items_view(b@)),
    decreases *a,
{
    if a.len() != b.len() {
        proof {
            lemma_items_view(a@);
            lemma_items_view(b@);
        }
        return false;
    }
    let mut i: usize = 0;
    while i < a.len()
        invariant
            i <= a@.len(),
            a@.len() == b@.len(),
            forall|j: int| 0 <= j < i ==> a@[j]@ == b@[j]@,
        decreases a@.len() - i,
    {
        if !block_eq(&a[i].content, &b[i].content) {
            proof {
                lemma_items_view(a@);
                lemma_items_view(b@);
                assert(items_view(a@)[i as int] != items_view(b@)[i as int]);
            }
            return false;
        }
        i = i + 1;
    }
    proof {
        lemma_items_view(a@);
        lemma_items_view(b@);
        assert(items_view(a@) =~= items_view(b@));
    }
    true
}

/// Whether two vectors of block elements have the same models.
fn block_vec_eq(a: &Vec<MdBlockElement>, b: &Vec<MdBlockElement>) -> (r: bool)
    ensures
        r == (blocks_view(a@) == blocks_view(b@)),
    decreases *a,
{
    if a.len() != b.len() {
        proof {
            lemma_blocks_view(a@);
            lemma_blocks_view(b@);
        }
        return false;
    }
    let mut i: usize = 0;
    while i < a.len()
        invariant
            i <= a@.len(),
            a@.len() == b@.len(),
            forall|j: int| 0 <= j < i ==> a@[j]@ == b@[j]@,
        decreases a@.len() - i,
    {
        if !block_eq(&a[i], &b[i]) {
            proof {
                lemma_blocks_view(a@);
                lemma_blocks_view(b@);
                assert(blocks_view(a@)[i as int] != blocks_view(b@)[i as int]);
            }
            return false;
        }
        i = i + 1;
    }
    proof {
        lemma_blocks_view(a@);
        lemma_blocks_view(b@);
        assert(blocks_view(a@) =~= blocks_view(b@));
    }
    true
}

impl PartialEq for MdBlockElement {
    fn eq(&self, other: &MdBlockElement) -> (r: bool) {
        block_eq(self, other)
    }
}

impl vstd::std_specs::cmp::PartialEqSpecImpl for MdBlockElement {
    open spec fn obeys_eq_spec() -> bool {
        true
    }

    open spec fn eq_spec(&self, other: &MdBlockElement) -> bool {
        self@ == other@
    }
}

impl PartialEq for MdListItem {
    fn eq(&self, other: &MdListItem) -> (r: bool) {
        block_eq(&self.content, &other.content)
    }
}

impl vstd::std_specs::cmp::PartialEqSpecImpl for MdListItem {
    open spec fn obeys_eq_spec() -> bool {
        true
    }

    open spec fn eq_spec(&self, other: &MdListItem) -> bool {
        self@ == other@
    }
}

/// Whether a token counts as whitespace for the flanking rules.
pub open spec fn spec_is_whitespace(t: TokenModel) -> bool {
    t is Newline || t is Whitespace
}

/// Whether a token counts as punctuation for the flanking rules.
pub open spec fn spec_is_punctuation_token(t: TokenModel) -> bool {
    ||| t is Punctuation
    ||| t is EmphasisRun
    ||| t is OpenBracket
    ||| t is CloseBracket
    ||| t is OpenParenthesis
    ||| t is CloseParenthesis
}

/// Whether a token counts as whitespace for the flanking rules.
pub fn is_whitespace(token: &Token) -> (r: bool)
    ensures
        r == spec_is_whitespace(token@),
{
    matches!(token, Token::Newline | Token::Whitespace)
}

/// Whether a token counts as punctuation for the flanking rules.
pub fn is_punctuation_token(token: &Token) -> (r: bool)
    ensures
        r == spec_is_punctuation_token(token@),
{
    matches!(
        token,
        Token::Punctuation(_)
            | Token::EmphasisRun { delimiter: _, length: _ }
            | Token::OpenBracket
            | Token::CloseBracket
            | Token::OpenParenthesis
            | Token::CloseParenthesis
    )
}

/// A position-tracking view over a token sequence; it owns the tokens for
/// the duration of one parse and exposes the current token, lookahead and
/// advancing.
#[derive(Debug)]
pub struct TokenCursor {
    pub tokens: Vec<Token>,
    pub current_position: usize,
}

impl TokenCursor {
    /// The current token, if the cursor has not run off the end.
    pub fn current(&self) -> (r: Option<&Token>)
        ensures
            match r {
                Option::Some(t) => self.current_position < self.tokens@.len()
                    && *t == self.tokens@[self.current_position as int],
                Option::None => self.current_position >= self.tokens@.len(),
            },
    {
        if self.current_position < self.tokens.len() {
            Some(&self.tokens[self.current_position])
        } else {
            None
        }
    }

    /// The token `n` places ahead of the current one, if it exists.
    pub fn peek_ahead(&self, n: usize) -> (r: Option<&Token>)
        ensures
            match r {
                Option::Some(t) => self.current_position + n < self.tokens@.len()
                    && *t == self.tokens@[self.current_position + n],
                Option::None => self.current_position + n >= self.tokens@.len(),
            },
    {
        if self.current_position < self.tokens.len() && n < self.tokens.len()
            - self.current_position {
            Some(&self.tokens[self.current_position + n])
        } else {
            None
        }
    }

    /// Moves the cursor forward one position, stopping at the end.
    pub fn advance(&mut self)
        ensures
            final(self).tokens == old(self).tokens,
            final(self).current_position == if old(self).current_position < old(
                self,
            ).tokens@.len() {
                old(self).current_position + 1
            } else {
                old(self).current_position as int
            },
    {
        if self.current_position < self.tokens.len() {
            self.current_position = self.current_position + 1;
        }
    }

    /// The current position of the cursor.
    pub fn position(&self) -> (r: usize)
        ensures
            r == self.current_position,
    {
        self.current_position
    }

    /// Whether the cursor is past the last token.
    pub fn is_at_eof(&self) -> (r: bool)
        ensures
            r == (self.current_position >= self.tokens@.len()),
    {
        self.current_position >= self.tokens.len()
    }
}

/// One entry of the delimiter stack: an emphasis run seen by the inline
/// parser, the position of its placeholder in the output under construction,
/// and the flanking classification that decides what it may open or close.
#[derive(Debug, Clone, Copy)]
pub struct Delimiter {
    pub ch: char,
    pub run_length: usize,
    pub token_position: usize,
    pub parsed_position: usize,
    pub active: bool,
    pub can_open: bool,
    pub can_close: bool,
}

/// Whether the run at `pos` is left-flanking: not followed by whitespace,
/// and either not followed by punctuation, or followed by punctuation while
/// preceded by whitespace or punctuation.
pub open spec fn spec_left_flanking(tokens: Seq<TokenModel>, pos: int) -> bool {
    let followed_by_whitespace = pos + 1 >= tokens.len() || spec_is_whitespace(tokens[pos + 1]);
    let followed_by_punctuation = pos + 1 < tokens.len() && spec_is_punctuation_token(
        tokens[pos + 1],
    );
    let preceded_by_whitespace = pos == 0 || spec_is_whitespace(tokens[pos - 1]);
    let preceded_by_punctuation = pos > 0 && spec_is_punctuation_token(tokens[pos - 1]);
    if followed_by_whitespace {
        false
    } else if !followed_by_punctuation {
        true
    } else {
        preceded_by_whitespace || preceded_by_punctuation
    }
}

/// Whether the run at `pos` is right-flanking: the mirror image of
/// `spec_left_flanking`.
pub open spec fn spec_right_flanking(tokens: Seq<TokenModel>, pos: int) -> bool {
    let followed_by_whitespace = pos + 1 >= tokens.len() || spec_is_whitespace(tokens[pos + 1]);
    let followed_by_punctuation = pos + 1 < tokens.len() && spec_is_punctuation_token(
        tokens[pos + 1],
    );
    let preceded_by_whitespace = pos == 0 || spec_is_whitespace(tokens[pos - 1]);
    let preceded_by_punctuation = pos > 0 && spec_is_punctuation_token(tokens[pos - 1]);
    if preceded_by_whitespace {
        false
    } else if !preceded_by_punctuation {
        true
    } else {
        followed_by_whitespace || followed_by_punctuation
    }
}

/// What `classify_flanking` sets `can_open` to: left-flanking, with the
/// extra restriction for `_` that keeps it from splitting words.
pub open spec fn spec_can_open(tokens: Seq<TokenModel>, pos: int, ch: char) -> bool {
    let followed_by_punctuation = pos + 1 < tokens.len() && spec_is_punctuation_token(
        tokens[pos + 1],
    );
    if ch == '_' {
        spec_left_flanking(tokens, pos) && (!spec_right_flanking(tokens, pos)
            || followed_by_punctuation)
    } else {
        spec_left_flanking(tokens, pos)
    }
}

/// What `classify_flanking` sets `can_close` to: right-flanking, with the
/// extra restriction for `_` that keeps it from splitting words.
pub open spec fn spec_can_close(tokens: Seq<TokenModel>, pos: int, ch: char) -> bool {
    let followed_by_punctuation = pos + 1 < tokens.len() && spec_is_punctuation_token(
        tokens[pos + 1],
    );
    if ch == '_' {
        spec_right_flanking(tokens, pos) && (!spec_left_flanking(tokens, pos)
            || followed_by_punctuation)
    } else {
        spec_right_flanking(tokens, pos)
    }
}

impl Delimiter {
    /// Classifies this delimiter run as left-flanking, right-flanking or
    /// both, and records the result in `can_open` and `can_close`.
    pub fn classify_flanking(&mut self, tokens: &[Token])
        requires
            old(self).token_position < tokens@.len(),
        ensures
            final(self).ch == old(self).ch,
            final(self).run_length == old(self).run_length,
            final(self).token_position == old(self).token_position,
            final(self).parsed_position == old(self).parsed_position,
            final(self).active == old(self).active,
            final(self).can_open == spec_can_open(
                tokens_view(tokens@),
                old(self).token_position as int,
                old(self).ch,
            ),
            final(self).can_close == spec_can_close(
                tokens_view(tokens@),
                old(self).token_position as int,
                old(self).ch,
            ),
    {
        let pos = self.token_position;
        let has_next = tokens.len() - pos > 1;
        let followed_by_whitespace = if has_next {
            is_whitespace(&tokens[pos + 1])
        } else {
            true
        };
        let followed_by_punctuation = if has_next {
            is_punctuation_token(&tokens[pos + 1])
        } else {
            false
        };
        let preceded_by_whitespace = if pos > 0 {
            is_whitespace(&tokens[pos - 1])
        } else {
            true
        };
        let preceded_by_punctuation = if pos > 0 {
            is_punctuation_token(&tokens[pos - 1])
        } else {
            false
        };

        let is_left_flanking = if followed_by_whitespace {
            false
        } else if !followed_by_punctuation {
            true
        } else {
            preceded_by_whitespace || preceded_by_punctuation
        };

        let is_right_flanking = if preceded_by_whitespace {
            false
        } else if !preceded_by_punctuation {
            true
        } else {
            followed_by_whitespace || followed_by_punctuation
        };

        let is_underscore = self.ch == '_';

        if is_underscore {
            self.can_open = is_left_flanking && (!is_right_flanking || followed_by_punctuation);
            self.can_close = is_right_flanking && (!is_left_flanking || followed_by_punctuation);
        } else {
            self.can_open = is_left_flanking;
            self.can_close = is_right_flanking;
        }
    }
}

} // verus!
