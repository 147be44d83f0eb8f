//! Parsing a slide's markdown into blocks.
//!
//! The markdown is tokenised by pulldown-cmark (see `cmark`); this module folds
//! the event stream into blocks with a small state machine. `step` below is the
//! state machine's transition, `document_of` the document a stream folds to.
use crate::cmark::{cmark_events, markdown_events, MdEvent, MdEventModel, MdTag, MdTagEnd, MdTagModel};
use crate::model::{block_id, flatten, flatten_inlines};
use crate::model::{
    AssetId, AssetModel, AssetRef, Block, BlockModel, CodeBlock, CodeModel, HeadingBlock,
    HeadingModel, ImageBlock, ImageDisplay, ImageModel, Inline, InlineModel, ListBlock, ListItem,
    ListModel, ParagraphBlock, ParagraphModel, TableBlock, TableModel,
};
use crate::text::{
    chars_of, copy_string, has_prefix, push_char, push_str, starts_with_at, take_string, take_vec,
    to_owned_string, trim, trim_string,
};
use vstd::prelude::*;

verus! {

/// A parsed slide: its blocks and the assets its images refer to.
#[derive(Debug)]
pub struct SlideDocument {
    pub blocks: Vec<Block>,
    pub assets: Vec<AssetRef>,
}

pub struct SlideDocumentModel {
    pub blocks: Seq<BlockModel>,
    pub assets: Seq<AssetModel>,
}

impl View for SlideDocument {
    type V = SlideDocumentModel;

    open spec fn view(&self) -> SlideDocumentModel {
        SlideDocumentModel { blocks: self.blocks.deep_view(), assets: self.assets.deep_view() }
    }
}

/// Why a slide could not be parsed.
#[derive(Debug, PartialEq, Eq, Structural)]
pub enum ParseError {
    /// The markdown tokenised into more events than block identifiers can number.
    TooManyEvents,
}

// ---------------------------------------------------------------------------
// Asset paths
// ---------------------------------------------------------------------------

pub open spec fn http_prefix() -> Seq<char> {
    seq!['h', 't', 't', 'p', ':', '/', '/']
}

pub open spec fn https_prefix() -> Seq<char> {
    seq!['h', 't', 't', 'p', 's', ':', '/', '/']
}

/// A path starting with `/`.
pub open spec fn is_absolute_path(p: Seq<char>) -> bool {
    p.len() > 0 && p[0] == '/'
}

/// `dir.join(p)` for Unix paths: an absolute `p` replaces `dir`, otherwise `p`
/// is appended after a separator (none is added to an empty `dir` or one that ends in `/`).
pub open spec fn join_path(dir: Seq<char>, p: Seq<char>) -> Seq<char> {
    if is_absolute_path(p) {
        p
    } else if dir.len() == 0 || dir.last() == '/' {
        dir + p
    } else {
        dir + seq!['/'] + p
    }
}

/// Where an image reference points: URLs and absolute paths as written,
/// relative paths resolved against the slide's directory.
pub open spec fn resolve_path(p: Seq<char>, dir: Seq<char>) -> Seq<char> {
    if has_prefix(p, http_prefix()) || has_prefix(p, https_prefix()) || is_absolute_path(p) {
        p
    } else {
        join_path(dir, p)
    }
}

/// Joins two paths as `Path::join` does on Unix.
pub fn join_path_exec(dir: &str, p: &str) -> (r: String)
    ensures
        r@ == join_path(dir@, p@),
{
    let pc = chars_of(p);
    let dc = chars_of(dir);
    if pc.len() > 0 && pc[0] == '/' {
        return to_owned_string(p);
    }
    let mut out = to_owned_string(dir);
    if !(dc.len() == 0 || dc[dc.len() - 1] == '/') {
        push_char(&mut out, '/');
    }
    push_str(&mut out, p);
    out
}

/// The asset an image reference denotes. The image's pixel size is left unknown
/// here: reading it needs the file, which the caller does.
pub open spec fn asset_for(p: Seq<char>, dir: Seq<char>, asset_id: AssetId) -> AssetModel {
    AssetModel { id: asset_id, path: resolve_path(p, dir), size: None }
}

/// Resolves an image reference of a slide in `dir` to an asset.
pub fn resolve_asset(path: &str, dir: &str, asset_id: usize) -> (r: AssetRef)
    ensures
        r@ == asset_for(path@, dir@, asset_id),
{
    let cs = chars_of(path);
    let http = vec!['h', 't', 't', 'p', ':', '/', '/'];
    let https = vec!['h', 't', 't', 'p', 's', ':', '/', '/'];
    assert(http@ == http_prefix());
    assert(https@ == https_prefix());
    let a = starts_with_at(cs.as_slice(), 0, http.as_slice());
    let b = starts_with_at(cs.as_slice(), 0, https.as_slice());
    assert(a == has_prefix(path@, http_prefix()));
    assert(b == has_prefix(path@, https_prefix()));
    let resolved = if a || b || (cs.len() > 0 && cs[0] == '/') {
        to_owned_string(path)
    } else {
        join_path_exec(dir, path)
    };
    AssetRef { id: asset_id, path: resolved, size: None }
}

// ---------------------------------------------------------------------------
// The state machine
// ---------------------------------------------------------------------------

/// The state of the block parser between two events.
pub struct ParseModel {
    pub blocks: Seq<BlockModel>,
    pub assets: Seq<AssetModel>,
    pub next_block_id: usize,
    pub heading_level: Option<u8>,
    pub paragraph_inlines: Seq<InlineModel>,
    pub quote_inlines: Seq<InlineModel>,
    pub list_items: Seq<Seq<InlineModel>>,
    pub list_item_inlines: Seq<InlineModel>,
    pub table_rows: Seq<Seq<Seq<InlineModel>>>,
    pub table_row: Seq<Seq<InlineModel>>,
    pub table_cell: Seq<InlineModel>,
    pub code_language: Seq<char>,
    pub code_text: Seq<char>,
    pub in_code_block: bool,
    pub in_quote: bool,
    pub in_list: bool,
    pub in_table: bool,
    pub in_table_cell: bool,
    pub active_link: Option<Seq<char>>,
    /// The image being read: its asset, the alt text so far and its title.
    pub active_image: Option<(AssetId, Seq<char>, Option<Seq<char>>)>,
}

/// The state before the first event.
pub open spec fn initial_state() -> ParseModel {
    ParseModel {
        blocks: Seq::empty(),
        assets: Seq::empty(),
        next_block_id: 0,
        heading_level: None,
        paragraph_inlines: Seq::empty(),
        quote_inlines: Seq::empty(),
        list_items: Seq::empty(),
        list_item_inlines: Seq::empty(),
        table_rows: Seq::empty(),
        table_row: Seq::empty(),
        table_cell: Seq::empty(),
        code_language: Seq::empty(),
        code_text: Seq::empty(),
        in_code_block: false,
        in_quote: false,
        in_list: false,
        in_table: false,
        in_table_cell: false,
        active_link: None,
        active_image: None,
    }
}

/// Closes the open paragraph, if it has any content, as a paragraph block.
pub open spec fn flush_paragraph(s: ParseModel) -> ParseModel {
    if s.paragraph_inlines.len() > 0 {
        ParseModel {
            blocks: s.blocks.push(
                BlockModel::Paragraph(
                    ParagraphModel { id: s.next_block_id, content: s.paragraph_inlines },
                ),
            ),
            paragraph_inlines: Seq::empty(),
            next_block_id: (s.next_block_id + 1) as usize,
            ..s
        }
    } else {
        s
    }
}

/// Adds an inline run to the innermost open container: table cell, list item,
/// quote, or else the paragraph.
pub open spec fn push_inline(s: ParseModel, inline: InlineModel) -> ParseModel {
    if s.in_table_cell {
        ParseModel { table_cell: s.table_cell.push(inline), ..s }
    } else if s.in_list {
        ParseModel { list_item_inlines: s.list_item_inlines.push(inline), ..s }
    } else if s.in_quote {
        ParseModel { quote_inlines: s.quote_inlines.push(inline), ..s }
    } else {
        ParseModel { paragraph_inlines: s.paragraph_inlines.push(inline), ..s }
    }
}

/// Adds text: to the alt text of an open image, to an open code block, or as
/// an inline run (a link run inside a link).
pub open spec fn push_text(s: ParseModel, text: Seq<char>) -> ParseModel {
    match s.active_image {
        Some((id, alt, title)) => ParseModel { active_image: Some((id, alt + text, title)), ..s },
        None => if s.in_code_block {
            ParseModel { code_text: s.code_text + text, ..s }
        } else {
            match s.active_link {
                Some(url) => push_inline(s, InlineModel::Link { text, url }),
                None => push_inline(s, InlineModel::Text(text)),
            }
        },
    }
}

/// The transition on a start tag.
pub open spec fn start_tag(s: ParseModel, tag: MdTagModel, dir: Seq<char>) -> ParseModel {
    match tag {
        MdTagModel::Heading(level) => ParseModel { heading_level: Some(level), ..flush_paragraph(s) },
        MdTagModel::Paragraph => flush_paragraph(s),
        MdTagModel::List => ParseModel {
            in_list: true,
            list_items: Seq::empty(),
            ..flush_paragraph(s)
        },
        MdTagModel::Item => ParseModel { list_item_inlines: Seq::empty(), ..s },
        MdTagModel::BlockQuote => ParseModel { in_quote: true, ..flush_paragraph(s) },
        MdTagModel::CodeBlock(lang) => ParseModel {
            in_code_block: true,
            code_language: lang,
            code_text: Seq::empty(),
            ..flush_paragraph(s)
        },
        MdTagModel::Link(url) => ParseModel { active_link: Some(url), ..s },
        MdTagModel::Image { url, title } => {
            let asset_id = s.assets.len() as usize;
            ParseModel {
                assets: s.assets.push(asset_for(url, dir, asset_id)),
                active_image: Some(
                    (asset_id, Seq::empty(), if title.len() == 0 { None } else { Some(title) }),
                ),
                ..s
            }
        },
        MdTagModel::Table => ParseModel {
            in_table: true,
            table_rows: Seq::empty(),
            ..flush_paragraph(s)
        },
        MdTagModel::TableRow => ParseModel { table_row: Seq::empty(), ..s },
        MdTagModel::TableCell => ParseModel { in_table_cell: true, table_cell: Seq::empty(), ..s },
        _ => s,
    }
}

/// Appends a block under the next identifier.
pub open spec fn emit(s: ParseModel, b: BlockModel) -> ParseModel {
    ParseModel { blocks: s.blocks.push(b), next_block_id: (s.next_block_id + 1) as usize, ..s }
}

/// The transition on an end tag.
pub open spec fn end_tag(s: ParseModel, tag: MdTagEnd) -> ParseModel {
    match tag {
        MdTagEnd::Heading => {
            let level = match s.heading_level {
                Some(l) => l,
                None => 1,
            };
            emit(
                ParseModel { heading_level: None, paragraph_inlines: Seq::empty(), ..s },
                BlockModel::Heading(
                    HeadingModel { id: s.next_block_id, level, content: s.paragraph_inlines },
                ),
            )
        },
        MdTagEnd::Paragraph => flush_paragraph(s),
        MdTagEnd::List => emit(
            ParseModel { in_list: false, list_items: Seq::empty(), ..s },
            BlockModel::List(ListModel { id: s.next_block_id, items: s.list_items }),
        ),
        MdTagEnd::Item => ParseModel {
            list_items: s.list_items.push(s.list_item_inlines),
            list_item_inlines: Seq::empty(),
            ..s
        },
        MdTagEnd::BlockQuote => emit(
            ParseModel { in_quote: false, quote_inlines: Seq::empty(), ..s },
            BlockModel::Quote(ParagraphModel { id: s.next_block_id, content: s.quote_inlines }),
        ),
        MdTagEnd::CodeBlock => emit(
            ParseModel {
                in_code_block: false,
                code_language: Seq::empty(),
                code_text: Seq::empty(),
                ..s
            },
            BlockModel::Code(
                CodeModel { id: s.next_block_id, language: s.code_language, code: s.code_text },
            ),
        ),
        MdTagEnd::Link => ParseModel { active_link: None, ..s },
        MdTagEnd::Image => match s.active_image {
            Some((asset_id, alt, title)) => {
                let f = flush_paragraph(ParseModel { active_image: None, ..s });
                emit(
                    f,
                    BlockModel::Image(
                        ImageModel {
                            id: f.next_block_id,
                            asset_id,
                            alt,
                            title,
                            display: ImageDisplay::Inline,
                        },
                    ),
                )
            },
            None => s,
        },
        MdTagEnd::Table => emit(
            ParseModel { in_table: false, table_rows: Seq::empty(), ..s },
            BlockModel::Table(TableModel { id: s.next_block_id, rows: s.table_rows }),
        ),
        MdTagEnd::TableRow => if s.in_table {
            ParseModel {
                table_rows: s.table_rows.push(s.table_row),
                table_row: Seq::empty(),
                ..s
            }
        } else {
            s
        },
        MdTagEnd::TableCell => ParseModel {
            in_table_cell: false,
            table_row: s.table_row.push(s.table_cell),
            table_cell: Seq::empty(),
            ..s
        },
        _ => s,
    }
}

/// The state machine's transition on one event.
pub open spec fn step(s: ParseModel, e: MdEventModel, dir: Seq<char>) -> ParseModel {
    match e {
        MdEventModel::Start(tag) => start_tag(s, tag, dir),
        MdEventModel::End(tag) => end_tag(s, tag),
        MdEventModel::Text(t) => push_text(s, t),
        MdEventModel::Code(c) => push_inline(s, InlineModel::Code(c)),
        MdEventModel::SoftBreak => push_text(s, seq!['\n']),
        MdEventModel::HardBreak => push_text(s, seq!['\n']),
        MdEventModel::Rule => ParseModel { blocks: s.blocks.push(BlockModel::Rule), ..s },
        MdEventModel::Other => s,
    }
}

/// The state after a sequence of events.
pub open spec fn run(events: Seq<MdEventModel>, dir: Seq<char>) -> ParseModel
    decreases events.len(),
{
    if events.len() == 0 {
        initial_state()
    } else {
        step(run(events.drop_last(), dir), events.last(), dir)
    }
}

/// The document an event stream folds to: the state after the last event,
/// with the open paragraph closed.
pub open spec fn document_of(events: Seq<MdEventModel>, dir: Seq<char>) -> SlideDocumentModel {
    let s = flush_paragraph(run(events, dir));
    SlideDocumentModel { blocks: s.blocks, assets: s.assets }
}

} // verus!

verus! {

/// `new_v` is `old_v` with `x` pushed, so its deep view is too.
pub proof fn lemma_deep_view_push<T: DeepView>(old_v: Vec<T>, new_v: Vec<T>, x: T)
    requires
        new_v@ == old_v@.push(x),
    ensures
        new_v.deep_view() == old_v.deep_view().push(x.deep_view()),
{
    assert(new_v.deep_view() =~= old_v.deep_view().push(x.deep_view()));
}

/// An empty vector has an empty deep view.
pub proof fn lemma_deep_view_empty<T: DeepView>(v: Vec<T>)
    requires
        v@ == Seq::<T>::empty(),
    ensures
        v.deep_view() == Seq::<T::V>::empty(),
{
    assert(v.deep_view() =~= Seq::<T::V>::empty());
}

/// Moves the contents out of a vector, leaving it empty (deep views).
fn take_all<T: DeepView>(v: &mut Vec<T>) -> (r: Vec<T>)
    ensures
        r.deep_view() == old(v).deep_view(),
        final(v).deep_view() == Seq::<T::V>::empty(),
{
    let r = take_vec(v);
    proof {
        assert(r.deep_view() =~= old(v).deep_view());
        lemma_deep_view_empty(*v);
    }
    r
}

struct ActiveImage {
    asset_id: usize,
    alt: String,
    title: Option<String>,
}

/// The block parser's state.
struct ParseState {
    blocks: Vec<Block>,
    assets: Vec<AssetRef>,
    next_block_id: usize,
    heading_level: Option<u8>,
    paragraph_inlines: Vec<Inline>,
    quote_inlines: Vec<Inline>,
    list_items: Vec<ListItem>,
    list_item_inlines: Vec<Inline>,
    table_rows: Vec<Vec<Vec<Inline>>>,
    table_row: Vec<Vec<Inline>>,
    table_cell: Vec<Inline>,
    code_language: String,
    code_text: String,
    in_code_block: bool,
    in_quote: bool,
    in_list: bool,
    in_table: bool,
    in_table_cell: bool,
    active_link: Option<String>,
    active_image: Option<ActiveImage>,
}

impl View for ParseState {
    type V = ParseModel;

    closed spec fn view(&self) -> ParseModel {
        ParseModel {
            blocks: self.blocks.deep_view(),
            assets: self.assets.deep_view(),
            next_block_id: self.next_block_id,
            heading_level: self.heading_level,
            paragraph_inlines: self.paragraph_inlines.deep_view(),
            quote_inlines: self.quote_inlines.deep_view(),
            list_items: self.list_items.deep_view(),
            list_item_inlines: self.list_item_inlines.deep_view(),
            table_rows: self.table_rows.deep_view(),
            table_row: self.table_row.deep_view(),
            table_cell: self.table_cell.deep_view(),
            code_language: self.code_language@,
            code_text: self.code_text@,
            in_code_block: self.in_code_block,
            in_quote: self.in_quote,
            in_list: self.in_list,
            in_table: self.in_table,
            in_table_cell: self.in_table_cell,
            active_link: self.active_link.deep_view(),
            active_image: match self.active_image {
                Some(a) => Some((a.asset_id, a.alt@, a.title.deep_view())),
                None => None,
            },
        }
    }
}

impl ParseState {
    fn new() -> (s: ParseState)
        ensures
            s@ == initial_state(),
    {
        let s = ParseState {
            blocks: Vec::new(),
            assets: Vec::new(),
            next_block_id: 0,
            heading_level: None,
            paragraph_inlines: Vec::new(),
            quote_inlines: Vec::new(),
            list_items: Vec::new(),
            list_item_inlines: Vec::new(),
            table_rows: Vec::new(),
            table_row: Vec::new(),
            table_cell: Vec::new(),
            code_language: String::new(),
            code_text: String::new(),
            in_code_block: false,
            in_quote: false,
            in_list: false,
            in_table: false,
            in_table_cell: false,
            active_link: None,
            active_image: None,
        };
        assert(s@.blocks =~= Seq::empty());
        assert(s@.assets =~= Seq::empty());
        assert(s@.paragraph_inlines =~= Seq::empty());
        assert(s@.quote_inlines =~= Seq::empty());
        assert(s@.list_items =~= Seq::empty());
        assert(s@.list_item_inlines =~= Seq::empty());
        assert(s@.table_rows =~= Seq::empty());
        assert(s@.table_row =~= Seq::empty());
        assert(s@.table_cell =~= Seq::empty());
        s
    }

    fn push_block(&mut self, b: Block)
        ensures
            final(self)@ == (ParseModel { blocks: old(self)@.blocks.push(b@), ..old(self)@ }),
    {
        let ghost old_blocks = self.blocks;
        self.blocks.push(b);
        proof {
            lemma_deep_view_push(old_blocks, self.blocks, b);
        }
    }

    fn next_id(&mut self) -> (id: usize)
        requires
            old(self).next_block_id < usize::MAX,
        ensures
            id == old(self).next_block_id,
            final(self)@ == (ParseModel { next_block_id: (id + 1) as usize, ..old(self)@ }),
    {
        let id = self.next_block_id;
        self.next_block_id = id + 1;
        id
    }

    fn flush_paragraph(&mut self)
        requires
            old(self).next_block_id < usize::MAX,
        ensures
            final(self)@ == flush_paragraph(old(self)@),
    {
        if self.paragraph_inlines.len() > 0 {
            let id = self.next_id();
            let content = take_all(&mut self.paragraph_inlines);
            let b = ParagraphBlock { id, content };
            self.push_block(Block::Paragraph(b));
        }
    }

    fn push_inline(&mut self, inline: Inline)
        ensures
            final(self)@ == push_inline(old(self)@, inline@),
    {
        if self.in_table_cell {
            let ghost old_v = self.table_cell;
            self.table_cell.push(inline);
            proof {
                lemma_deep_view_push(old_v, self.table_cell, inline);
            }
        } else if self.in_list {
            let ghost old_v = self.list_item_inlines;
            self.list_item_inlines.push(inline);
            proof {
                lemma_deep_view_push(old_v, self.list_item_inlines, inline);
            }
        } else if self.in_quote {
            let ghost old_v = self.quote_inlines;
            self.quote_inlines.push(inline);
            proof {
                lemma_deep_view_push(old_v, self.quote_inlines, inline);
            }
        } else {
            let ghost old_v = self.paragraph_inlines;
            self.paragraph_inlines.push(inline);
            proof {
                lemma_deep_view_push(old_v, self.paragraph_inlines, inline);
            }
        }
    }

    fn push_text(&mut self, text: String)
        ensures
            final(self)@ == push_text(old(self)@, text@),
    {
        if let Some(image) = &mut self.active_image {
            push_str(&mut image.alt, text.as_str());
            return;
        }
        if self.in_code_block {
            push_str(&mut self.code_text, text.as_str());
            return;
        }
        let inline = match &self.active_link {
            Some(url) => Inline::Link { text, url: copy_string(url) },
            None => Inline::Text(text),
        };
        self.push_inline(inline);
    }

    fn start_tag(&mut self, tag: &MdTag, dir: &str)
        requires
            old(self).next_block_id < usize::MAX,
        ensures
            final(self)@ == start_tag(old(self)@, tag@, dir@),
    {
        match tag {
            MdTag::Heading(level) => {
                self.flush_paragraph();
                self.heading_level = Some(*level);
            },
            MdTag::Paragraph => {
                self.flush_paragraph();
            },
            MdTag::List => {
                self.flush_paragraph();
                self.in_list = true;
                let _ = take_all(&mut self.list_items);
            },
            MdTag::Item => {
                let _ = take_all(&mut self.list_item_inlines);
            },
            MdTag::BlockQuote => {
                self.flush_paragraph();
                self.in_quote = true;
            },
            MdTag::CodeBlock(lang) => {
                self.flush_paragraph();
                self.in_code_block = true;
                self.code_language = copy_string(lang);
                let _ = take_string(&mut self.code_text);
            },
            MdTag::Link(url) => {
                self.active_link = Some(copy_string(url));
            },
            MdTag::Image { url, title } => {
                let asset_id = self.assets.len();
                let asset = resolve_asset(url.as_str(), dir, asset_id);
                let ghost old_v = self.assets;
                self.assets.push(asset);
                proof {
                    lemma_deep_view_push(old_v, self.assets, asset);
                }
                let t = if title.as_str().is_empty() {
                    None
                } else {
                    Some(copy_string(title))
                };
                self.active_image = Some(ActiveImage { asset_id, alt: String::new(), title: t });
            },
            MdTag::Table => {
                self.flush_paragraph();
                self.in_table = true;
                let _ = take_all(&mut self.table_rows);
            },
            MdTag::TableRow => {
                let _ = take_all(&mut self.table_row);
            },
            MdTag::TableCell => {
                self.in_table_cell = true;
                let _ = take_all(&mut self.table_cell);
            },
            MdTag::Emphasis | MdTag::Strong | MdTag::Other => {},
        }
    }

    fn end_tag(&mut self, tag: &MdTagEnd)
        requires
            old(self).next_block_id < usize::MAX - 1,
        ensures
            final(self)@ == end_tag(old(self)@, tag@),
    {
        match tag {
            MdTagEnd::Heading => {
                let level = match self.heading_level {
                    Some(l) => l,
                    None => 1,
                };
                self.heading_level = None;
                let content = take_all(&mut self.paragraph_inlines);
                let id = self.next_id();
                self.push_block(Block::Heading(HeadingBlock { id, level, content }));
            },
            MdTagEnd::Paragraph => self.flush_paragraph(),
            MdTagEnd::List => {
                self.in_list = false;
                let id = self.next_id();
                let items = take_all(&mut self.list_items);
                self.push_block(Block::List(ListBlock { id, items }));
            },
            MdTagEnd::Item => {
                let content = take_all(&mut self.list_item_inlines);
                let item = ListItem { content };
                let ghost old_v = self.list_items;
                self.list_items.push(item);
                proof {
                    lemma_deep_view_push(old_v, self.list_items, item);
                }
            },
            MdTagEnd::BlockQuote => {
                self.in_quote = false;
                let id = self.next_id();
                let content = take_all(&mut self.quote_inlines);
                self.push_block(Block::Quote(ParagraphBlock { id, content }));
            },
            MdTagEnd::CodeBlock => {
                self.in_code_block = false;
                let id = self.next_id();
                let language = take_string(&mut self.code_language);
                let code = take_string(&mut self.code_text);
                self.push_block(Block::Code(CodeBlock { id, language, code }));
            },
            MdTagEnd::Link => {
                self.active_link = None;
            },
            MdTagEnd::Image => {
                let active = self.active_image.take();
                if let Some(image) = active {
                    self.flush_paragraph();
                    let id = self.next_id();
                    self.push_block(
                        Block::Image(
                            ImageBlock {
                                id,
                                asset_id: image.asset_id,
                                alt: image.alt,
                                title: image.title,
                                display: ImageDisplay::Inline,
                            },
                        ),
                    );
                }
            },
            MdTagEnd::Table => {
                self.in_table = false;
                let id = self.next_id();
                let rows = take_all(&mut self.table_rows);
                self.push_block(Block::Table(TableBlock { id, rows }));
            },
            MdTagEnd::TableRow => {
                if self.in_table {
                    let row = take_all(&mut self.table_row);
                    let ghost old_v = self.table_rows;
                    self.table_rows.push(row);
                    proof {
                        lemma_deep_view_push(old_v, self.table_rows, row);
                    }
                }
            },
            MdTagEnd::TableCell => {
                self.in_table_cell = false;
                let cell = take_all(&mut self.table_cell);
                let ghost old_v = self.table_row;
                self.table_row.push(cell);
                proof {
                    lemma_deep_view_push(old_v, self.table_row, cell);
                }
            },
            _ => {},
        }
    }

    fn handle_event(&mut self, event: &MdEvent, dir: &str)
        requires
            old(self).next_block_id < usize::MAX - 1,
        ensures
            final(self)@ == step(old(self)@, event@, dir@),
    {
        match event {
            MdEvent::Start(tag) => self.start_tag(tag, dir),
            MdEvent::End(tag) => self.end_tag(tag),
            MdEvent::Text(text) => self.push_text(copy_string(text)),
            MdEvent::Code(code) => self.push_inline(Inline::Code(copy_string(code))),
            MdEvent::SoftBreak | MdEvent::HardBreak => {
                let mut nl = String::new();
                push_char(&mut nl, '\n');
                self.push_text(nl);
            },
            MdEvent::Rule => self.push_block(Block::Rule),
            MdEvent::Other => {},
        }
    }
}

} // verus!

verus! {

/// The number of events a slide may have: every event opens at most two
/// blocks, and block identifiers must stay below `usize::MAX`.
pub open spec fn max_events() -> nat {
    ((usize::MAX - 2) / 2) as nat
}

/// An event opens at most two blocks.
proof fn lemma_step_ids(s: ParseModel, e: MdEventModel, dir: Seq<char>)
    requires
        s.next_block_id < usize::MAX - 1,
    ensures
        s.next_block_id <= step(s, e, dir).next_block_id <= s.next_block_id + 2,
{
}

/// Folds an event stream into the slide's blocks and assets.
pub fn parse_slide_events(events: &Vec<MdEvent>, dir: &str) -> (doc: SlideDocument)
    requires
        events@.len() <= max_events(),
    ensures
        doc@ == document_of(events.deep_view(), dir@),
{
    let mut state = ParseState::new();
    let mut i: usize = 0;
    while i < events.len()
        invariant
            i <= events@.len() <= max_events(),
            state@ == run(events.deep_view().take(i as int), dir@),
            state@.next_block_id <= 2 * i,
        decreases events.len() - i,
    {
        proof {
            lemma_step_ids(state@, events.deep_view()[i as int], dir@);
            assert(events.deep_view().take(i + 1).drop_last() =~= events.deep_view().take(
                i as int,
            ));
        }
        state.handle_event(&events[i], dir);
        i += 1;
    }
    assert(events.deep_view().take(events.len() as int) =~= events.deep_view());
    state.flush_paragraph();
    SlideDocument { blocks: state.blocks, assets: state.assets }
}

/// Parses a slide's markdown (front matter already removed). The slide's
/// directory `dir` resolves relative image paths.
pub fn parse_slide(content: &str, dir: &str, slide_id: usize) -> (r: Result<SlideDocument, ParseError>)
    ensures
        match r {
            Ok(doc) => markdown_events(content@).len() <= max_events() && doc@ == document_of(
                markdown_events(content@),
                dir@,
            ),
            Err(e) => e == ParseError::TooManyEvents && markdown_events(content@).len()
                > max_events(),
        },
{
    let events = cmark_events(content);
    if events.len() > (usize::MAX - 2) / 2 {
        return Err(ParseError::TooManyEvents);
    }
    Ok(parse_slide_events(&events, dir))
}

/// The first heading among the blocks, if any.
pub open spec fn first_heading(blocks: Seq<BlockModel>) -> Option<HeadingModel>
    decreases blocks.len(),
{
    if blocks.len() == 0 {
        None
    } else {
        match blocks[0] {
            BlockModel::Heading(h) => Some(h),
            _ => first_heading(blocks.drop_first()),
        }
    }
}

/// A slide's title: the trimmed text of its first heading.
pub open spec fn title_of(blocks: Seq<BlockModel>) -> Option<Seq<char>> {
    match first_heading(blocks) {
        Some(h) => Some(trim(flatten(h.content))),
        None => None,
    }
}

/// The trimmed text of inline runs.
pub fn flatten_inline(inlines: &Vec<Inline>) -> (r: String)
    ensures
        r@ == trim(flatten(inlines.deep_view())),
{
    let s = flatten_inlines(inlines);
    trim_string(s.as_str())
}

/// The text of the slide's first heading, trimmed; `None` without a heading.
pub fn slide_title(document: &SlideDocument) -> (r: Option<String>)
    ensures
        r.deep_view() == title_of(document@.blocks),
{
    let mut i: usize = 0;
    assert(document@.blocks.subrange(0, document@.blocks.len() as int) =~= document@.blocks);
    while i < document.blocks.len()
        invariant
            i <= document.blocks@.len(),
            first_heading(document@.blocks) == first_heading(
                document@.blocks.subrange(i as int, document@.blocks.len() as int),
            ),
        decreases document.blocks.len() - i,
    {
        assert(document@.blocks.subrange(i as int, document@.blocks.len() as int).drop_first()
            =~= document@.blocks.subrange(i + 1, document@.blocks.len() as int));
        if let Block::Heading(heading) = &document.blocks[i] {
            return Some(flatten_inline(&heading.content));
        }
        i += 1;
    }
    None
}

} // verus!

verus! {

// ---------------------------------------------------------------------------
// Identifiers of blocks and assets
// ---------------------------------------------------------------------------

/// The number of blocks in `blocks` other than rules: the identifier the
/// next numbered block gets.
pub open spec fn numbered(blocks: Seq<BlockModel>) -> nat
    decreases blocks.len(),
{
    if blocks.len() == 0 {
        0
    } else {
        numbered(blocks.drop_last()) + if blocks.last() is Rule {
            0nat
        } else {
            1nat
        }
    }
}

/// The identifiers hold together: asset `k` has identifier `k`, every image
/// (open or finished) names an asset, the blocks other than rules are
/// numbered 0, 1, 2, ... in order, the next identifier is the next number,
/// and the images' assets rise along the blocks, the open image's above all.
pub open spec fn ids_hold(s: ParseModel) -> bool {
    &&& forall|k: int| 0 <= k < s.assets.len() ==> #[trigger] s.assets[k].id == k
    &&& forall|i: int|
        0 <= i < s.blocks.len() ==> (#[trigger] s.blocks[i] matches BlockModel::Image(im)
            ==> im.asset_id < s.assets.len())
    &&& (s.active_image matches Some((id, _, _)) ==> id < s.assets.len())
    &&& forall|i: int, j: int|
        0 <= i < j < s.blocks.len() && s.blocks[i] !is Rule && s.blocks[j] !is Rule ==> block_id(
            #[trigger] s.blocks[i],
        ) < block_id(#[trigger] s.blocks[j])
    &&& forall|i: int|
        0 <= i < s.blocks.len() && s.blocks[i] !is Rule ==> block_id(#[trigger] s.blocks[i])
            < s.next_block_id
    &&& s.next_block_id == numbered(s.blocks)
    &&& forall|i: int|
        0 <= i < s.blocks.len() && s.blocks[i] !is Rule ==> block_id(#[trigger] s.blocks[i])
            == numbered(s.blocks.take(i))
    &&& forall|i: int, j: int|
        0 <= i < j < s.blocks.len() ==> (#[trigger] s.blocks[i] matches BlockModel::Image(a) ==> (
        #[trigger] s.blocks[j] matches BlockModel::Image(b) ==> a.asset_id < b.asset_id))
    &&& (s.active_image matches Some((id, _, _)) ==> forall|i: int|
        0 <= i < s.blocks.len() ==> (#[trigger] s.blocks[i] matches BlockModel::Image(im)
            ==> im.asset_id < id))
}

/// Pushing a block counts it unless it is a rule, and leaves the earlier prefixes.
proof fn lemma_numbered_push(bs: Seq<BlockModel>, b: BlockModel)
    ensures
        numbered(bs.push(b)) == numbered(bs) + if b is Rule {
            0nat
        } else {
            1nat
        },
        forall|i: int| 0 <= i <= bs.len() ==> #[trigger] bs.push(b).take(i) == bs.take(i),
{
    assert(bs.push(b).drop_last() =~= bs);
    assert forall|i: int| 0 <= i <= bs.len() implies #[trigger] bs.push(b).take(i) == bs.take(i) by {
        assert(bs.push(b).take(i) =~= bs.take(i));
    }
}

proof fn lemma_emit_ids(s: ParseModel, b: BlockModel)
    requires
        ids_hold(s),
        s.next_block_id + 1 < usize::MAX,
        b !is Rule,
        block_id(b) == s.next_block_id,
        b matches BlockModel::Image(im) ==> im.asset_id < s.assets.len(),
        b matches BlockModel::Image(im) ==> s.active_image is None && forall|i: int|
            0 <= i < s.blocks.len() ==> (#[trigger] s.blocks[i] matches BlockModel::Image(o)
                ==> o.asset_id < im.asset_id),
    ensures
        ids_hold(emit(s, b)),
{
    let r = emit(s, b);
    lemma_numbered_push(s.blocks, b);
    assert(r.blocks.take(s.blocks.len() as int) =~= s.blocks);
    assert forall|i: int| 0 <= i < r.blocks.len() implies (#[trigger] r.blocks[i] matches BlockModel::Image(
        im,
    ) ==> im.asset_id < r.assets.len()) by {
        if i < s.blocks.len() {
            assert(r.blocks[i] == s.blocks[i]);
        }
    }
    assert forall|i: int, j: int|
        0 <= i < j < r.blocks.len() && r.blocks[i] !is Rule && r.blocks[j] !is Rule implies block_id(
        #[trigger] r.blocks[i],
    ) < block_id(#[trigger] r.blocks[j]) by {
        assert(r.blocks[i] == s.blocks[i]);
        if j < s.blocks.len() {
            assert(r.blocks[j] == s.blocks[j]);
        }
    }
    assert forall|i: int| 0 <= i < r.blocks.len() && r.blocks[i] !is Rule implies block_id(
        #[trigger] r.blocks[i],
    ) < r.next_block_id by {
        if i < s.blocks.len() {
            assert(r.blocks[i] == s.blocks[i]);
        }
    }
    assert forall|i: int| 0 <= i < r.blocks.len() && r.blocks[i] !is Rule implies block_id(
        #[trigger] r.blocks[i],
    ) == numbered(r.blocks.take(i)) by {
        if i < s.blocks.len() {
            assert(r.blocks[i] == s.blocks[i]);
            assert(r.blocks.take(i) == s.blocks.take(i));
        }
    }
    assert forall|i: int, j: int| 0 <= i < j < r.blocks.len() implies (
    #[trigger] r.blocks[i] matches BlockModel::Image(a) ==> (
    #[trigger] r.blocks[j] matches BlockModel::Image(c) ==> a.asset_id < c.asset_id)) by {
        assert(r.blocks[i] == s.blocks[i]);
        if j < s.blocks.len() {
            assert(r.blocks[j] == s.blocks[j]);
        }
    }
    match s.active_image {
        Some((id, _, _)) => {
            assert forall|i: int| 0 <= i < r.blocks.len() implies (
            #[trigger] r.blocks[i] matches BlockModel::Image(im) ==> im.asset_id < id) by {
                if i < s.blocks.len() {
                    assert(r.blocks[i] == s.blocks[i]);
                }
            }
        },
        None => {},
    }
}

proof fn lemma_flush_ids(s: ParseModel)
    requires
        ids_hold(s),
        s.next_block_id + 1 < usize::MAX,
    ensures
        ids_hold(flush_paragraph(s)),
        flush_paragraph(s).next_block_id <= s.next_block_id + 1,
        flush_paragraph(s).assets == s.assets,
        flush_paragraph(s).active_image == s.active_image,
{
    if s.paragraph_inlines.len() > 0 {
        let b = BlockModel::Paragraph(ParagraphModel { id: s.next_block_id, content: s.paragraph_inlines });
        lemma_emit_ids(ParseModel { paragraph_inlines: Seq::empty(), ..s }, b);
        assert(flush_paragraph(s) == emit(ParseModel { paragraph_inlines: Seq::empty(), ..s }, b));
    }
}

/// The identifiers depend on the blocks, the assets, the next identifier and
/// the open image's asset alone.
proof fn lemma_ids_same(s: ParseModel, t: ParseModel)
    requires
        ids_hold(s),
        t.blocks == s.blocks,
        t.assets == s.assets,
        t.next_block_id == s.next_block_id,
        t.active_image matches Some((id, _, _)) ==> s.active_image matches Some((k, _, _)) && k
            == id,
    ensures
        ids_hold(t),
{
}

/// A start tag keeps the identifiers and adds at most one asset.
proof fn lemma_start_keeps_ids(s: ParseModel, tag: MdTagModel, dir: Seq<char>)
    requires
        ids_hold(s),
        s.next_block_id + 2 < usize::MAX,
        s.assets.len() < usize::MAX,
    ensures
        ids_hold(start_tag(s, tag, dir)),
        start_tag(s, tag, dir).assets.len() <= s.assets.len() + 1,
{
    lemma_flush_ids(s);
    let r = start_tag(s, tag, dir);
    let f = flush_paragraph(s);
    match tag {
        MdTagModel::Image { url, title } => {
            assert forall|k: int| 0 <= k < r.assets.len() implies #[trigger] r.assets[k].id
                == k by {
                if k < s.assets.len() {
                    assert(r.assets[k] == s.assets[k]);
                } else {
                    assert(r.assets[k] == asset_for(url, dir, s.assets.len() as usize));
                }
            }
            assert forall|i: int| 0 <= i < r.blocks.len() implies (
            #[trigger] r.blocks[i] matches BlockModel::Image(im) ==> im.asset_id
                < r.assets.len()) by {
                assert(r.blocks[i] == s.blocks[i]);
            }
            assert forall|i: int| 0 <= i < r.blocks.len() implies (
            #[trigger] r.blocks[i] matches BlockModel::Image(im) ==> im.asset_id
                < s.assets.len()) by {
                assert(r.blocks[i] == s.blocks[i]);
            }
            assert(r.blocks == s.blocks);
        },
        MdTagModel::Heading(_) | MdTagModel::Paragraph | MdTagModel::List
        | MdTagModel::BlockQuote | MdTagModel::CodeBlock(_) | MdTagModel::Table => {
            lemma_ids_same(f, r);
        },
        _ => lemma_ids_same(s, r),
    }
}

/// An end tag keeps the identifiers and the assets.
proof fn lemma_end_keeps_ids(s: ParseModel, tag: MdTagEnd)
    requires
        ids_hold(s),
        s.next_block_id + 2 < usize::MAX,
    ensures
        ids_hold(end_tag(s, tag)),
        end_tag(s, tag).assets == s.assets,
{
    lemma_flush_ids(s);
    let r = end_tag(s, tag);
    match tag {
        MdTagEnd::Heading => {
            let level = match s.heading_level {
                Some(l) => l,
                None => 1,
            };
            lemma_emit_ids(
                ParseModel { heading_level: None, paragraph_inlines: Seq::empty(), ..s },
                BlockModel::Heading(
                    HeadingModel { id: s.next_block_id, level, content: s.paragraph_inlines },
                ),
            );
        },
        MdTagEnd::List => lemma_emit_ids(
            ParseModel { in_list: false, list_items: Seq::empty(), ..s },
            BlockModel::List(ListModel { id: s.next_block_id, items: s.list_items }),
        ),
        MdTagEnd::BlockQuote => lemma_emit_ids(
            ParseModel { in_quote: false, quote_inlines: Seq::empty(), ..s },
            BlockModel::Quote(ParagraphModel { id: s.next_block_id, content: s.quote_inlines }),
        ),
        MdTagEnd::CodeBlock => lemma_emit_ids(
            ParseModel {
                in_code_block: false,
                code_language: Seq::empty(),
                code_text: Seq::empty(),
                ..s
            },
            BlockModel::Code(
                CodeModel { id: s.next_block_id, language: s.code_language, code: s.code_text },
            ),
        ),
        MdTagEnd::Table => lemma_emit_ids(
            ParseModel { in_table: false, table_rows: Seq::empty(), ..s },
            BlockModel::Table(TableModel { id: s.next_block_id, rows: s.table_rows }),
        ),
        MdTagEnd::Image => {
            match s.active_image {
                Some((asset_id, alt, title)) => {
                    let s1 = ParseModel { active_image: None, ..s };
                    lemma_flush_ids(s1);
                    let f = flush_paragraph(s1);
                    lemma_emit_ids(
                        f,
                        BlockModel::Image(
                            ImageModel {
                                id: f.next_block_id,
                                asset_id,
                                alt,
                                title,
                                display: ImageDisplay::Inline,
                            },
                        ),
                    );
                },
                None => {},
            }
        },
        MdTagEnd::Paragraph => {},
        _ => lemma_ids_same(s, r),
    }
}

/// A rule keeps the identifiers: it takes none.
proof fn lemma_rule_keeps_ids(s: ParseModel)
    requires
        ids_hold(s),
    ensures
        ids_hold(ParseModel { blocks: s.blocks.push(BlockModel::Rule), ..s }),
{
    let r = ParseModel { blocks: s.blocks.push(BlockModel::Rule), ..s };
    lemma_numbered_push(s.blocks, BlockModel::Rule);
            assert forall|i: int| 0 <= i < r.blocks.len() implies (#[trigger] r.blocks[i] matches BlockModel::Image(
            im,
        ) ==> im.asset_id < r.assets.len()) by {
            if i < s.blocks.len() {
                assert(r.blocks[i] == s.blocks[i]);
            }
        }
        assert forall|i: int, j: int|
            0 <= i < j < r.blocks.len() && r.blocks[i] !is Rule && r.blocks[j] !is Rule implies block_id(
            #[trigger] r.blocks[i],
        ) < block_id(#[trigger] r.blocks[j]) by {
            assert(r.blocks[i] == s.blocks[i]);
            assert(r.blocks[j] == s.blocks[j]);
        }
        assert forall|i: int| 0 <= i < r.blocks.len() && r.blocks[i] !is Rule implies block_id(
            #[trigger] r.blocks[i],
        ) < r.next_block_id by {
            assert(r.blocks[i] == s.blocks[i]);
        }
    assert forall|i: int| 0 <= i < r.blocks.len() && r.blocks[i] !is Rule implies block_id(
        #[trigger] r.blocks[i],
    ) == numbered(r.blocks.take(i)) by {
        assert(r.blocks[i] == s.blocks[i]);
        assert(r.blocks.take(i) == s.blocks.take(i));
    }
    assert forall|i: int, j: int| 0 <= i < j < r.blocks.len() implies (
    #[trigger] r.blocks[i] matches BlockModel::Image(a) ==> (
    #[trigger] r.blocks[j] matches BlockModel::Image(c) ==> a.asset_id < c.asset_id)) by {
        assert(r.blocks[i] == s.blocks[i]);
        if j < s.blocks.len() {
            assert(r.blocks[j] == s.blocks[j]);
        }
    }
    match s.active_image {
        Some((id, _, _)) => {
            assert forall|i: int| 0 <= i < r.blocks.len() implies (
            #[trigger] r.blocks[i] matches BlockModel::Image(im) ==> im.asset_id < id) by {
                if i < s.blocks.len() {
                    assert(r.blocks[i] == s.blocks[i]);
                }
            }
        },
        None => {},
    }
}

proof fn lemma_step_keeps_ids(s: ParseModel, e: MdEventModel, dir: Seq<char>)
    requires
        ids_hold(s),
        s.next_block_id + 2 < usize::MAX,
        s.assets.len() < usize::MAX,
    ensures
        ids_hold(step(s, e, dir)),
        step(s, e, dir).assets.len() <= s.assets.len() + 1,
{
    match e {
        MdEventModel::Start(tag) => lemma_start_keeps_ids(s, tag, dir),
        MdEventModel::End(tag) => lemma_end_keeps_ids(s, tag),
        MdEventModel::Rule => lemma_rule_keeps_ids(s),
        MdEventModel::Other => {},
        _ => lemma_ids_same(s, step(s, e, dir)),
    }
}

proof fn lemma_run_ids(events: Seq<MdEventModel>, dir: Seq<char>)
    requires
        events.len() <= max_events(),
    ensures
        ids_hold(run(events, dir)),
        run(events, dir).next_block_id <= 2 * events.len(),
        run(events, dir).assets.len() <= events.len(),
    decreases events.len(),
{
    if events.len() > 0 {
        lemma_run_ids(events.drop_last(), dir);
        let s = run(events.drop_last(), dir);
        lemma_step_ids(s, events.last(), dir);
        lemma_step_keeps_ids(s, events.last(), dir);
    }
}

/// In a parsed slide, asset `k` has identifier `k`, every image block names
/// one of the slide's assets, the blocks other than rules are numbered 0, 1,
/// 2, ... in order (each carries the number of such blocks before it, so the
/// identifiers are distinct and rise, below `usize::MAX`, which marks a
/// rule), and the images' assets rise along the blocks.
pub proof fn lemma_document_ids(events: Seq<MdEventModel>, dir: Seq<char>)
    requires
        events.len() <= max_events(),
    ensures
        ({
            let d = document_of(events, dir);
            &&& forall|k: int| 0 <= k < d.assets.len() ==> #[trigger] d.assets[k].id == k
            &&& forall|i: int|
                0 <= i < d.blocks.len() ==> (#[trigger] d.blocks[i] matches BlockModel::Image(im)
                    ==> im.asset_id < d.assets.len())
            &&& forall|i: int|
                0 <= i < d.blocks.len() && d.blocks[i] !is Rule ==> block_id(#[trigger] d.blocks[i])
                    == numbered(d.blocks.take(i))
            &&& forall|i: int, j: int|
                0 <= i < j < d.blocks.len() && d.blocks[i] !is Rule && d.blocks[j] !is Rule
                    ==> block_id(#[trigger] d.blocks[i]) < block_id(#[trigger] d.blocks[j])
            &&& forall|i: int|
                0 <= i < d.blocks.len() && d.blocks[i] !is Rule ==> block_id(#[trigger] d.blocks[i])
                    < usize::MAX
            &&& forall|i: int, j: int|
                0 <= i < j < d.blocks.len() ==> (#[trigger] d.blocks[i] matches BlockModel::Image(a)
                    ==> (#[trigger] d.blocks[j] matches BlockModel::Image(b) ==> a.asset_id
                    < b.asset_id))
        }),
{
    lemma_run_ids(events, dir);
    let s = run(events, dir);
    lemma_flush_ids(s);
}

} // verus!

verus! {

// ---------------------------------------------------------------------------
// Links in running text
// ---------------------------------------------------------------------------

/// The inline runs of the innermost open container: the table cell, the
/// list item, the quote, or else the paragraph.
pub open spec fn open_inlines(s: ParseModel) -> Seq<InlineModel> {
    if s.in_table_cell {
        s.table_cell
    } else if s.in_list {
        s.list_item_inlines
    } else if s.in_quote {
        s.quote_inlines
    } else {
        s.paragraph_inlines
    }
}

/// Text read while a link is open becomes a link run carrying the link's
/// URL: after the start of a link to `url` and a text `t` (outside an image
/// and a code block), the innermost open container has gained exactly the run
/// `Link { text: t, url }` and the link is still open; text read with no link
/// open is added as plain text.
pub proof fn lemma_link_text_carries_url(
    s: ParseModel,
    url: Seq<char>,
    t: Seq<char>,
    dir: Seq<char>,
)
    requires
        s.active_image is None,
        !s.in_code_block,
    ensures
        ({
            let r = step(step(s, MdEventModel::Start(MdTagModel::Link(url)), dir), MdEventModel::Text(t), dir);
            &&& open_inlines(r) == open_inlines(s).push(InlineModel::Link { text: t, url })
            &&& r.active_link == Some(url)
            &&& r.blocks == s.blocks
        }),
        s.active_link is None ==> open_inlines(step(s, MdEventModel::Text(t), dir)) == open_inlines(
            s,
        ).push(InlineModel::Text(t)),
{
}

} // verus!
