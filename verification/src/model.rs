//! The slide deck model: slides made of blocks of inline text, plus the image
//! assets they reference. Every type has a mathematical view (`XxxModel`) in
//! which strings are `Seq<char>` and vectors are `Seq`s of views.
use vstd::prelude::*;
use vstd::string::StringExecFns;

verus! {

/// Identifier of a block within its slide.
pub type BlockId = usize;

/// Identifier of an asset within its slide.
pub type AssetId = usize;

/// A deck: the directory it was loaded from, its metadata and its slides.
#[derive(Debug)]
pub struct Deck {
    pub root: String,
    pub metadata: DeckMetadata,
    pub slides: Vec<Slide>,
}

/// Deck-wide metadata.
#[derive(Debug)]
pub struct DeckMetadata {
    pub title: String,
}

/// One slide, loaded from one markdown file.
#[derive(Debug)]
pub struct Slide {
    pub id: usize,
    pub path: String,
    pub name: String,
    pub title: String,
    pub frontmatter: SlideFrontmatter,
    pub blocks: Vec<Block>,
    pub assets: Vec<AssetRef>,
}

/// The settings a slide's front matter may carry.
#[derive(Debug)]
pub struct SlideFrontmatter {
    pub layout: Option<String>,
}

/// A block of slide content.
#[derive(Debug)]
pub enum Block {
    Heading(HeadingBlock),
    Paragraph(ParagraphBlock),
    List(ListBlock),
    Table(TableBlock),
    Code(CodeBlock),
    Quote(ParagraphBlock),
    Rule,
    Image(ImageBlock),
}

#[derive(Debug)]
pub struct HeadingBlock {
    pub id: BlockId,
    pub level: u8,
    pub content: Vec<Inline>,
}

#[derive(Debug)]
pub struct ParagraphBlock {
    pub id: BlockId,
    pub content: Vec<Inline>,
}

#[derive(Debug)]
pub struct ListBlock {
    pub id: BlockId,
    pub items: Vec<ListItem>,
}

#[derive(Debug)]
pub struct ListItem {
    pub content: Vec<Inline>,
}

#[derive(Debug)]
pub struct TableBlock {
    pub id: BlockId,
    pub rows: Vec<Vec<Vec<Inline>>>,
}

#[derive(Debug)]
pub struct CodeBlock {
    pub id: BlockId,
    pub language: String,
    pub code: String,
}

#[derive(Debug)]
pub struct ImageBlock {
    pub id: BlockId,
    pub asset_id: AssetId,
    pub alt: String,
    pub title: Option<String>,
    pub display: ImageDisplay,
}

/// An image file a slide refers to.
#[derive(Debug)]
pub struct AssetRef {
    pub id: AssetId,
    pub path: String,
    pub size: Option<AssetSize>,
}

/// Pixel dimensions of an image.
#[derive(Clone, Copy, Debug, PartialEq, Eq, Structural)]
pub struct AssetSize {
    pub width: u32,
    pub height: u32,
}

/// How an image is meant to be shown.
#[derive(Clone, Copy, Debug, PartialEq, Eq, Structural)]
pub enum ImageDisplay {
    Inline,
    FullWidth,
    Cover,
}

/// A run of inline text with its kind.
#[derive(Debug)]
pub enum Inline {
    Text(String),
    Emphasis(String),
    Strong(String),
    Code(String),
    Link { text: String, url: String },
}

// ---------------------------------------------------------------------------
// Views
// ---------------------------------------------------------------------------

pub enum InlineModel {
    Text(Seq<char>),
    Emphasis(Seq<char>),
    Strong(Seq<char>),
    Code(Seq<char>),
    Link { text: Seq<char>, url: Seq<char> },
}

pub struct HeadingModel {
    pub id: BlockId,
    pub level: u8,
    pub content: Seq<InlineModel>,
}

pub struct ParagraphModel {
    pub id: BlockId,
    pub content: Seq<InlineModel>,
}

pub struct ListModel {
    pub id: BlockId,
    pub items: Seq<Seq<InlineModel>>,
}

pub struct TableModel {
    pub id: BlockId,
    pub rows: Seq<Seq<Seq<InlineModel>>>,
}

pub struct CodeModel {
    pub id: BlockId,
    pub language: Seq<char>,
    pub code: Seq<char>,
}

pub struct ImageModel {
    pub id: BlockId,
    pub asset_id: AssetId,
    pub alt: Seq<char>,
    pub title: Option<Seq<char>>,
    pub display: ImageDisplay,
}

pub enum BlockModel {
    Heading(HeadingModel),
    Paragraph(ParagraphModel),
    List(ListModel),
    Table(TableModel),
    Code(CodeModel),
    Quote(ParagraphModel),
    Rule,
    Image(ImageModel),
}

pub struct AssetModel {
    pub id: AssetId,
    pub path: Seq<char>,
    pub size: Option<AssetSize>,
}

pub struct SlideModel {
    pub id: usize,
    pub path: Seq<char>,
    pub name: Seq<char>,
    pub title: Seq<char>,
    pub layout: Option<Seq<char>>,
    pub blocks: Seq<BlockModel>,
    pub assets: Seq<AssetModel>,
}

pub struct DeckModel {
    pub root: Seq<char>,
    pub title: Seq<char>,
    pub slides: Seq<SlideModel>,
}

impl View for Inline {
    type V = InlineModel;

    open spec fn view(&self) -> InlineModel {
        match self {
            Inline::Text(t) => InlineModel::Text(t@),
            Inline::Emphasis(t) => InlineModel::Emphasis(t@),
            Inline::Strong(t) => InlineModel::Strong(t@),
            Inline::Code(t) => InlineModel::Code(t@),
            Inline::Link { text, url } => InlineModel::Link { text: text@, url: url@ },
        }
    }
}

impl DeepView for Inline {
    type V = InlineModel;

    open spec fn deep_view(&self) -> InlineModel {
        self@
    }
}

impl View for ListItem {
    type V = Seq<InlineModel>;

    open spec fn view(&self) -> Seq<InlineModel> {
        self.content.deep_view()
    }
}

impl DeepView for ListItem {
    type V = Seq<InlineModel>;

    open spec fn deep_view(&self) -> Seq<InlineModel> {
        self@
    }
}

impl View for HeadingBlock {
    type V = HeadingModel;

    open spec fn view(&self) -> HeadingModel {
        HeadingModel { id: self.id, level: self.level, content: self.content.deep_view() }
    }
}

impl View for ParagraphBlock {
    type V = ParagraphModel;

    open spec fn view(&self) -> ParagraphModel {
        ParagraphModel { id: self.id, content: self.content.deep_view() }
    }
}

impl View for ListBlock {
    type V = ListModel;

    open spec fn view(&self) -> ListModel {
        ListModel { id: self.id, items: self.items.deep_view() }
    }
}

impl View for TableBlock {
    type V = TableModel;

    open spec fn view(&self) -> TableModel {
        TableModel { id: self.id, rows: self.rows.deep_view() }
    }
}

impl View for CodeBlock {
    type V = CodeModel;

    open spec fn view(&self) -> CodeModel {
        CodeModel { id: self.id, language: self.language@, code: self.code@ }
    }
}

impl View for ImageBlock {
    type V = ImageModel;

    open spec fn view(&self) -> ImageModel {
        ImageModel {
            id: self.id,
            asset_id: self.asset_id,
            alt: self.alt@,
            title: self.title.deep_view(),
            display: self.display,
        }
    }
}

impl View for Block {
    type V = BlockModel;

    open spec fn view(&self) -> BlockModel {
        match self {
            Block::Heading(b) => BlockModel::Heading(b@),
            Block::Paragraph(b) => BlockModel::Paragraph(b@),
            Block::List(b) => BlockModel::List(b@),
            Block::Table(b) => BlockModel::Table(b@),
            Block::Code(b) => BlockModel::Code(b@),
            Block::Quote(b) => BlockModel::Quote(b@),
            Block::Rule => BlockModel::Rule,
            Block::Image(b) => BlockModel::Image(b@),
        }
    }
}

impl DeepView for Block {
    type V = BlockModel;

    open spec fn deep_view(&self) -> BlockModel {
        self@
    }
}

impl View for AssetRef {
    type V = AssetModel;

    open spec fn view(&self) -> AssetModel {
        AssetModel { id: self.id, path: self.path@, size: self.size }
    }
}

impl DeepView for AssetRef {
    type V = AssetModel;

    open spec fn deep_view(&self) -> AssetModel {
        self@
    }
}

impl View for Slide {
    type V = SlideModel;

    open spec fn view(&self) -> SlideModel {
        SlideModel {
            id: self.id,
            path: self.path@,
            name: self.name@,
            title: self.title@,
            layout: self.frontmatter.layout.deep_view(),
            blocks: self.blocks.deep_view(),
            assets: self.assets.deep_view(),
        }
    }
}

impl DeepView for Slide {
    type V = SlideModel;

    open spec fn deep_view(&self) -> SlideModel {
        self@
    }
}

impl View for Deck {
    type V = DeckModel;

    open spec fn view(&self) -> DeckModel {
        DeckModel {
            root: self.root@,
            title: self.metadata.title@,
            slides: self.slides.deep_view(),
        }
    }
}

/// The identifier of a block; a rule has none and answers `usize::MAX`.
pub open spec fn block_id(b: BlockModel) -> usize {
    match b {
        BlockModel::Heading(h) => h.id,
        BlockModel::Paragraph(p) => p.id,
        BlockModel::List(l) => l.id,
        BlockModel::Table(t) => t.id,
        BlockModel::Code(c) => c.id,
        BlockModel::Quote(q) => q.id,
        BlockModel::Rule => usize::MAX,
        BlockModel::Image(i) => i.id,
    }
}

impl Block {
    /// The block's identifier; `usize::MAX` for a rule, which carries none.
    pub fn id(&self) -> (r: BlockId)
        ensures
            r == block_id(self@),
    {
        match self {
            Block::Heading(block) => block.id,
            Block::Paragraph(block) => block.id,
            Block::List(block) => block.id,
            Block::Table(block) => block.id,
            Block::Code(block) => block.id,
            Block::Quote(block) => block.id,
            Block::Rule => usize::MAX,
            Block::Image(block) => block.id,
        }
    }
}

impl Inline {
    /// The empty text run.
    pub fn empty() -> (r: Inline)
        ensures
            r@ == InlineModel::Text(Seq::empty()),
    {
        Inline::Text(String::new())
    }
}

} // verus!

verus! {

/// The text of an inline run (a link contributes its text, not its URL).
pub open spec fn inline_text(i: InlineModel) -> Seq<char> {
    match i {
        InlineModel::Text(t) => t,
        InlineModel::Emphasis(t) => t,
        InlineModel::Strong(t) => t,
        InlineModel::Code(t) => t,
        InlineModel::Link { text, url } => text,
    }
}

/// The texts of a sequence of inline runs, concatenated.
pub open spec fn flatten(inlines: Seq<InlineModel>) -> Seq<char>
    decreases inlines.len(),
{
    if inlines.len() == 0 {
        Seq::empty()
    } else {
        flatten(inlines.drop_last()) + inline_text(inlines.last())
    }
}

/// The text of an inline run.
pub fn inline_text_exec(i: &Inline) -> (r: &String)
    ensures
        r@ == inline_text(i@),
{
    match i {
        Inline::Text(t) => t,
        Inline::Emphasis(t) => t,
        Inline::Strong(t) => t,
        Inline::Code(t) => t,
        Inline::Link { text, .. } => text,
    }
}

/// The concatenated texts of inline runs.
pub fn flatten_inlines(inlines: &Vec<Inline>) -> (r: String)
    ensures
        r@ == flatten(inlines.deep_view()),
{
    let mut out = String::new();
    let mut i: usize = 0;
    while i < inlines.len()
        invariant
            i <= inlines.len(),
            out@ == flatten(inlines.deep_view().take(i as int)),
        decreases inlines.len() - i,
    {
        let t = inline_text_exec(&inlines[i]);
        out.append(t.as_str());
        i += 1;
        assert(inlines.deep_view().take(i as int).drop_last() =~= inlines.deep_view().take(
            i - 1,
        ));
    }
    assert(inlines.deep_view().take(inlines.len() as int) =~= inlines.deep_view());
    out
}

} // verus!
