//! Laying a slide out as rows of styled text for a viewport of a given width.
//!
//! Every block becomes a run of rows; text is wrapped greedily at white space.
//! The specification below builds the layout the same way, from the blocks
//! in order, with `LayoutAcc` as the rows laid out so far.
use crate::highlight::HighlightRun;
use crate::model::{
    flatten, flatten_inlines, inline_text, AssetModel, Block, BlockModel, ImageDisplay, ImageModel,
    Inline, InlineModel, ListItem, Slide, SlideModel,
};
use crate::style::{
    plain, span, with_bg, with_fg, with_modifier, Color, Line, Span, SpanModel, Style, BOLD,
    ITALIC, UNDERLINED,
};
use crate::text::{
    chars_of, copy_string, has_prefix, is_whitespace, is_ws, push_char, push_chars, push_str,
    repeat, repeat_char, string_of, trim, trim_string, all_ws,
};
use vstd::prelude::*;
use vstd::string::StringExecFns;

verus! {

/// The area a slide is laid out for, in terminal cells.
#[derive(Clone, Copy, Debug, PartialEq, Eq, Structural)]
pub struct Viewport {
    pub width: u16,
    pub height: u16,
}

/// One laid-out row.
#[derive(Debug)]
pub struct LayoutLine {
    pub row: usize,
    pub spans: Vec<Span>,
    /// The row's searchable text (empty for decoration).
    pub search_text: String,
    /// Which span holds the row's text.
    pub text_span_index: usize,
    /// The heading level, on the first row of a heading's text.
    pub heading_level: Option<u8>,
    /// The links of the paragraph, list item, quote or heading the row belongs to.
    pub link_urls: Vec<String>,
}

/// A search hit: `len` characters from `start` on row `row`.
#[derive(Clone, Copy, Debug, PartialEq, Eq, Structural)]
pub struct SearchMatch {
    pub row: usize,
    pub start: usize,
    pub len: usize,
}

/// The rows an image block occupies.
#[derive(Clone, Copy, Debug, PartialEq, Eq, Structural)]
pub struct LaidOutImage {
    pub block_id: usize,
    pub asset_id: usize,
    pub start_row: usize,
    pub rows: usize,
    pub cols: u16,
    pub display: ImageDisplay,
}

/// A laid-out slide.
#[derive(Debug)]
pub struct SlideLayout {
    pub total_rows: usize,
    pub lines: Vec<LayoutLine>,
    pub images: Vec<LaidOutImage>,
    pub searchable_text: String,
}

pub struct LineModel {
    pub row: usize,
    pub spans: Seq<SpanModel>,
    pub search_text: Seq<char>,
    pub text_span_index: usize,
    pub heading: Option<u8>,
    pub links: Seq<Seq<char>>,
}

pub struct SlideLayoutModel {
    pub total_rows: usize,
    pub lines: Seq<LineModel>,
    pub images: Seq<LaidOutImage>,
    pub searchable_text: Seq<char>,
}

impl View for LayoutLine {
    type V = LineModel;

    open spec fn view(&self) -> LineModel {
        LineModel {
            row: self.row,
            spans: self.spans.deep_view(),
            search_text: self.search_text@,
            text_span_index: self.text_span_index,
            heading: self.heading_level,
            links: self.link_urls.deep_view(),
        }
    }
}

impl DeepView for LayoutLine {
    type V = LineModel;

    open spec fn deep_view(&self) -> LineModel {
        self@
    }
}

impl View for SlideLayout {
    type V = SlideLayoutModel;

    open spec fn view(&self) -> SlideLayoutModel {
        SlideLayoutModel {
            total_rows: self.total_rows,
            lines: self.lines.deep_view(),
            images: self.images@,
            searchable_text: self.searchable_text@,
        }
    }
}

// ---------------------------------------------------------------------------
// Small arithmetic
// ---------------------------------------------------------------------------

pub open spec fn min(a: int, b: int) -> int {
    if a <= b {
        a
    } else {
        b
    }
}

pub open spec fn max(a: int, b: int) -> int {
    if a >= b {
        a
    } else {
        b
    }
}

/// `a - b`, or 0 when `b > a`.
pub open spec fn sub_sat(a: int, b: int) -> int {
    if a >= b {
        a - b
    } else {
        0
    }
}

/// `a + b` capped at `usize::MAX`.
pub open spec fn add_sat(a: int, b: int) -> usize {
    if a + b > usize::MAX {
        usize::MAX
    } else {
        (a + b) as usize
    }
}

pub fn min_usize(a: usize, b: usize) -> (r: usize)
    ensures
        r == min(a as int, b as int),
{
    if a <= b {
        a
    } else {
        b
    }
}

pub fn max_usize(a: usize, b: usize) -> (r: usize)
    ensures
        r == max(a as int, b as int),
{
    if a >= b {
        a
    } else {
        b
    }
}

// ---------------------------------------------------------------------------
// The rows laid out so far
// ---------------------------------------------------------------------------

/// The rows laid out so far: the next row number, the lines and the searchable text.
pub struct LayoutAcc {
    pub row: usize,
    pub lines: Seq<LineModel>,
    pub searchable: Seq<char>,
}

/// Adds a row with the given spans and searchable text; the searchable text of
/// the slide gains the row's text and a line break.
pub open spec fn push_marked_line(
    acc: LayoutAcc,
    spans: Seq<SpanModel>,
    search: Seq<char>,
    tsi: usize,
    heading: Option<u8>,
    links: Seq<Seq<char>>,
) -> LayoutAcc {
    LayoutAcc {
        row: add_sat(acc.row as int, 1),
        lines: acc.lines.push(
            LineModel { row: acc.row, spans, search_text: search, text_span_index: tsi, heading, links },
        ),
        searchable: acc.searchable + search + seq!['\n'],
    }
}

/// Adds a row that is no heading and holds no link.
pub open spec fn push_line(acc: LayoutAcc, spans: Seq<SpanModel>, search: Seq<char>, tsi: usize) -> LayoutAcc {
    push_marked_line(acc, spans, search, tsi, None, Seq::empty())
}

/// Adds a decoration row: one span, no searchable text.
pub open spec fn push_decoration(acc: LayoutAcc, s: SpanModel) -> LayoutAcc {
    push_line(acc, seq![s], Seq::empty(), 0)
}

/// Adds an empty row.
pub open spec fn push_blank(acc: LayoutAcc) -> LayoutAcc {
    push_decoration(acc, span(Seq::empty(), plain()))
}

struct LayoutBuilder {
    row: usize,
    lines: Vec<LayoutLine>,
    searchable_text: String,
}

impl View for LayoutBuilder {
    type V = LayoutAcc;

    closed spec fn view(&self) -> LayoutAcc {
        LayoutAcc {
            row: self.row,
            lines: self.lines.deep_view(),
            searchable: self.searchable_text@,
        }
    }
}

impl LayoutBuilder {
    fn new() -> (b: LayoutBuilder)
        ensures
            b@ == (LayoutAcc { row: 0, lines: Seq::empty(), searchable: Seq::empty() }),
    {
        let b = LayoutBuilder { row: 0, lines: Vec::new(), searchable_text: String::new() };
        assert(b@.lines =~= Seq::<LineModel>::empty());
        b
    }

    fn row(&self) -> (r: usize)
        ensures
            r == self@.row,
    {
        self.row
    }

    fn push_marked_line(
        &mut self,
        spans: Vec<Span>,
        search_text: String,
        text_span_index: usize,
        heading_level: Option<u8>,
        link_urls: Vec<String>,
    )
        ensures
            final(self)@ == push_marked_line(
                old(self)@,
                spans.deep_view(),
                search_text@,
                text_span_index,
                heading_level,
                link_urls.deep_view(),
            ),
    {
        let ghost old_text = self.searchable_text@;
        push_str(&mut self.searchable_text, search_text.as_str());
        push_char(&mut self.searchable_text, '\n');
        assert(self.searchable_text@ =~= old_text + search_text@ + seq!['\n']);
        let line = LayoutLine { row: self.row, spans, search_text, text_span_index, heading_level, link_urls };
        let ghost old_lines = self.lines;
        self.lines.push(line);
        assert(self.lines.deep_view() =~= old_lines.deep_view().push(line@));
        self.row = self.row.saturating_add(1);
        assert(self.row == add_sat(old(self)@.row as int, 1));
    }

    fn push_line(&mut self, spans: Vec<Span>, search_text: String, text_span_index: usize)
        ensures
            final(self)@ == push_line(old(self)@, spans.deep_view(), search_text@, text_span_index),
    {
        let links: Vec<String> = Vec::new();
        assert(links.deep_view() =~= Seq::<Seq<char>>::empty());
        self.push_marked_line(spans, search_text, text_span_index, None, links);
    }

    fn push_decoration(&mut self, s: Span)
        ensures
            final(self)@ == push_decoration(old(self)@, s@),
    {
        let mut spans = Vec::new();
        spans.push(s);
        assert(spans.deep_view() =~= seq![s@]);
        self.push_line(spans, String::new(), 0);
    }

    fn push_blank(&mut self)
        ensures
            final(self)@ == push_blank(old(self)@),
    {
        self.push_decoration(Span { content: String::new(), style: Style::new() });
    }
}

} // verus!

verus! {

// ---------------------------------------------------------------------------
// Styled chunks and greedy wrapping
// ---------------------------------------------------------------------------

pub open spec fn link_arrow() -> Seq<char> {
    seq![' ', '↗']
}

/// The styled chunks an inline run contributes (a link adds an arrow).
pub open spec fn inline_chunks(i: InlineModel, base: Style) -> Seq<SpanModel> {
    match i {
        InlineModel::Text(t) => seq![span(t, base)],
        InlineModel::Emphasis(t) => seq![span(t, with_modifier(with_fg(base, Color::LightYellow), ITALIC))],
        InlineModel::Strong(t) => seq![span(t, with_modifier(with_fg(base, Color::White), BOLD))],
        InlineModel::Code(t) => seq![
            span(seq![' '] + t + seq![' '], with_bg(with_fg(base, Color::Cyan), Color::DarkGray)),
        ],
        InlineModel::Link { text, url } => seq![
            span(text, with_modifier(with_fg(base, Color::Blue), UNDERLINED)),
            span(link_arrow(), with_fg(base, Color::Blue)),
        ],
    }
}

pub open spec fn chunks_fold(inlines: Seq<InlineModel>, base: Style) -> Seq<SpanModel>
    decreases inlines.len(),
{
    if inlines.len() == 0 {
        Seq::empty()
    } else {
        chunks_fold(inlines.drop_last(), base) + inline_chunks(inlines.last(), base)
    }
}

/// The styled chunks of inline runs; one empty chunk when there are none.
pub open spec fn styled_chunks(inlines: Seq<InlineModel>, base: Style) -> Seq<SpanModel> {
    if inlines.len() == 0 {
        seq![span(Seq::empty(), base)]
    } else {
        chunks_fold(inlines, base)
    }
}

/// One character of splitting a chunk into wrap pieces: a line break is a piece
/// of its own, white space ends a piece, anything else extends the current one.
pub open spec fn split_step(st: (Seq<SpanModel>, Seq<char>), ch: char, style: Style) -> (Seq<SpanModel>, Seq<char>) {
    let (out, cur) = st;
    if ch == '\n' {
        let out1 = if cur.len() > 0 {
            out.push(span(cur, style))
        } else {
            out
        };
        (out1.push(span(seq!['\n'], style)), Seq::empty())
    } else if is_ws(ch) {
        (out.push(span(cur.push(ch), style)), Seq::empty())
    } else {
        (out, cur.push(ch))
    }
}

pub open spec fn split_fold(text: Seq<char>, style: Style) -> (Seq<SpanModel>, Seq<char>)
    decreases text.len(),
{
    if text.len() == 0 {
        (Seq::empty(), Seq::empty())
    } else {
        split_step(split_fold(text.drop_last(), style), text.last(), style)
    }
}

/// The pieces a chunk is wrapped by: words with their trailing white space,
/// and line breaks.
pub open spec fn split_chunk(c: SpanModel) -> Seq<SpanModel> {
    let (out, cur) = split_fold(c.content, c.style);
    if cur.len() > 0 {
        out.push(span(cur, c.style))
    } else {
        out
    }
}

pub open spec fn pieces_of(chunks: Seq<SpanModel>) -> Seq<SpanModel>
    decreases chunks.len(),
{
    if chunks.len() == 0 {
        Seq::empty()
    } else {
        pieces_of(chunks.drop_last()) + split_chunk(chunks.last())
    }
}

/// A finished wrapped line; an empty one holds one empty span.
pub open spec fn finish_line(cur: Seq<SpanModel>) -> Seq<SpanModel> {
    if cur.len() == 0 {
        seq![span(Seq::empty(), plain())]
    } else {
        cur
    }
}

/// One piece of greedy wrapping: a line break ends the line; a piece that
/// does not fit after what the line already holds starts a new line.
pub open spec fn wrap_step(st: (Seq<Seq<SpanModel>>, Seq<SpanModel>, nat), p: SpanModel, width: nat) -> (Seq<Seq<SpanModel>>, Seq<SpanModel>, nat) {
    let (lines, cur, cw) = st;
    if p.content == seq!['\n'] {
        (lines.push(finish_line(cur)), Seq::empty(), 0)
    } else if cw > 0 && cw + p.content.len() > width {
        (lines.push(finish_line(cur)), seq![p], p.content.len())
    } else {
        (lines, cur.push(p), cw + p.content.len())
    }
}

pub open spec fn wrap_fold(pieces: Seq<SpanModel>, width: nat) -> (Seq<Seq<SpanModel>>, Seq<SpanModel>, nat)
    decreases pieces.len(),
{
    if pieces.len() == 0 {
        (Seq::empty(), Seq::empty(), 0)
    } else {
        wrap_step(wrap_fold(pieces.drop_last(), width), pieces.last(), width)
    }
}

/// Pieces wrapped into lines of at most `width` characters (a longer piece
/// takes a line of its own).
pub open spec fn wrap_pieces(pieces: Seq<SpanModel>, width: nat) -> Seq<Seq<SpanModel>> {
    let (lines, cur, cw) = wrap_fold(pieces, width);
    lines.push(finish_line(cur))
}

/// The text of a wrapped line.
pub open spec fn line_text(line: Seq<SpanModel>) -> Seq<char>
    decreases line.len(),
{
    if line.len() == 0 {
        Seq::empty()
    } else {
        line_text(line.drop_last()) + line.last().content
    }
}

/// The spans of the `index`-th wrapped row: the prefix (or its width in
/// blanks on continuation rows) and the line's pieces.
pub open spec fn rich_row_spans(index: int, line: Seq<SpanModel>, prefix: Seq<char>, base: Style) -> Seq<SpanModel> {
    let pre = if prefix.len() == 0 {
        Seq::empty()
    } else if index == 0 {
        seq![span(prefix, with_fg(base, Color::DarkGray))]
    } else {
        seq![span(repeat(' ', prefix.len()), base)]
    };
    pre + line
}

/// The first `n` wrapped rows; the first is marked with `heading` and every
/// one carries `links`.
pub open spec fn rich_fold(
    acc: LayoutAcc,
    wrapped: Seq<Seq<SpanModel>>,
    prefix: Seq<char>,
    base: Style,
    n: nat,
    heading: Option<u8>,
    links: Seq<Seq<char>>,
) -> LayoutAcc
    decreases n,
{
    if n == 0 {
        acc
    } else {
        let k = (n - 1) as int;
        push_marked_line(
            rich_fold(acc, wrapped, prefix, base, (n - 1) as nat, heading, links),
            rich_row_spans(k, wrapped[k], prefix, base),
            line_text(wrapped[k]),
            if prefix.len() == 0 {
                0
            } else {
                1
            },
            if k == 0 {
                heading
            } else {
                None
            },
            links,
        )
    }
}

/// The destinations of the links among inline runs, in order.
pub open spec fn links_of(inlines: Seq<InlineModel>) -> Seq<Seq<char>>
    decreases inlines.len(),
{
    if inlines.len() == 0 {
        Seq::empty()
    } else {
        let prev = links_of(inlines.drop_last());
        match inlines.last() {
            InlineModel::Link { text, url } => prev.push(url),
            _ => prev,
        }
    }
}

/// The wrapped lines of inline runs for a wrap width.
pub open spec fn wrapped_inlines(inlines: Seq<InlineModel>, wrap_width: nat, base: Style) -> Seq<Seq<SpanModel>> {
    wrap_pieces(pieces_of(styled_chunks(inlines, base)), max(wrap_width as int, 1) as nat)
}

/// Adds inline runs as wrapped rows, the first behind `prefix` and marked
/// with `heading`, every one carrying `links`.
pub open spec fn rich_lines(
    acc: LayoutAcc,
    inlines: Seq<InlineModel>,
    wrap_width: nat,
    base: Style,
    prefix: Seq<char>,
    heading: Option<u8>,
    links: Seq<Seq<char>>,
) -> LayoutAcc {
    let wrapped = wrapped_inlines(inlines, wrap_width, base);
    rich_fold(acc, wrapped, prefix, base, wrapped.len(), heading, links)
}

fn span_of(content: String, style: Style) -> (r: Span)
    ensures
        r@ == span(content@, style),
{
    Span { content, style }
}

fn push_span(v: &mut Vec<Span>, s: Span)
    ensures
        final(v).deep_view() == old(v).deep_view().push(s@),
{
    let ghost old_v = *v;
    v.push(s);
    assert(v.deep_view() =~= old_v.deep_view().push(s@));
}

fn inline_chunks_exec(inline: &Inline, base: Style, out: &mut Vec<Span>)
    ensures
        final(out).deep_view() == old(out).deep_view() + inline_chunks(inline@, base),
{
    let ghost old_out = out.deep_view();
    match inline {
        Inline::Text(t) => push_span(out, span_of(copy_string(t), base)),
        Inline::Emphasis(t) => push_span(
            out,
            span_of(copy_string(t), base.fg(Color::LightYellow).add_modifier(ITALIC)),
        ),
        Inline::Strong(t) => push_span(
            out,
            span_of(copy_string(t), base.fg(Color::White).add_modifier(BOLD)),
        ),
        Inline::Code(t) => {
            let mut s = String::new();
            push_char(&mut s, ' ');
            push_str(&mut s, t.as_str());
            push_char(&mut s, ' ');
            assert(s@ =~= seq![' '] + t@ + seq![' ']);
            push_span(out, span_of(s, base.fg(Color::Cyan).bg(Color::DarkGray)));
        },
        Inline::Link { text, .. } => {
            push_span(
                out,
                span_of(copy_string(text), base.fg(Color::Blue).add_modifier(UNDERLINED)),
            );
            let mut arrow = String::new();
            push_char(&mut arrow, ' ');
            push_char(&mut arrow, '↗');
            assert(arrow@ =~= link_arrow());
            push_span(out, span_of(arrow, base.fg(Color::Blue)));
        },
    }
    assert(out.deep_view() =~= old_out + inline_chunks(inline@, base));
}

/// The styled chunks of inline runs.
fn styled_chunks_exec(inlines: &Vec<Inline>, base: Style) -> (r: Vec<Span>)
    ensures
        r.deep_view() == styled_chunks(inlines.deep_view(), base),
{
    let mut out: Vec<Span> = Vec::new();
    let mut i: usize = 0;
    assert(out.deep_view() =~= chunks_fold(inlines.deep_view().take(0), base));
    while i < inlines.len()
        invariant
            i <= inlines.len(),
            out.deep_view() == chunks_fold(inlines.deep_view().take(i as int), base),
        decreases inlines.len() - i,
    {
        inline_chunks_exec(&inlines[i], base, &mut out);
        i += 1;
        assert(inlines.deep_view().take(i as int).drop_last() =~= inlines.deep_view().take(
            i - 1,
        ));
    }
    assert(inlines.deep_view().take(inlines.len() as int) =~= inlines.deep_view());
    if inlines.len() == 0 {
        push_span(&mut out, span_of(String::new(), base));
        assert(out.deep_view() =~= seq![span(Seq::empty(), base)]);
    }
    out
}

/// Splits a chunk into wrap pieces.
fn split_chunk_for_wrap(chunk: &Span) -> (r: Vec<Span>)
    ensures
        r.deep_view() == split_chunk(chunk@),
{
    let text = chars_of(chunk.content.as_str());
    let style = chunk.style;
    let mut out: Vec<Span> = Vec::new();
    let mut current = String::new();
    let mut i: usize = 0;
    assert(out.deep_view() =~= Seq::<SpanModel>::empty());
    while i < text.len()
        invariant
            i <= text@.len(),
            text@ == chunk@.content,
            style == chunk@.style,
            (out.deep_view(), current@) == split_fold(text@.take(i as int), style),
        decreases text.len() - i,
    {
        let ch = text[i];
        assert(text@.take(i + 1).drop_last() =~= text@.take(i as int));
        if ch == '\n' {
            if !current.as_str().is_empty() {
                let cur = crate::text::take_string(&mut current);
                push_span(&mut out, span_of(cur, style));
            }
            let mut nl = String::new();
            push_char(&mut nl, '\n');
            push_span(&mut out, span_of(nl, style));
            current = String::new();
        } else if is_whitespace(ch) {
            push_char(&mut current, ch);
            let cur = crate::text::take_string(&mut current);
            push_span(&mut out, span_of(cur, style));
        } else {
            push_char(&mut current, ch);
        }
        i += 1;
    }
    assert(text@.take(text.len() as int) =~= text@);
    if !current.as_str().is_empty() {
        push_span(&mut out, span_of(current, style));
    }
    out
}

/// All wrap pieces of a chunk sequence.
fn pieces_exec(chunks: &Vec<Span>) -> (r: Vec<Span>)
    ensures
        r.deep_view() == pieces_of(chunks.deep_view()),
{
    let mut out: Vec<Span> = Vec::new();
    let mut i: usize = 0;
    assert(out.deep_view() =~= pieces_of(chunks.deep_view().take(0)));
    while i < chunks.len()
        invariant
            i <= chunks.len(),
            out.deep_view() == pieces_of(chunks.deep_view().take(i as int)),
        decreases chunks.len() - i,
    {
        let mut pieces = split_chunk_for_wrap(&chunks[i]);
        let ghost old_out = out.deep_view();
        let ghost p = pieces.deep_view();
        out.append(&mut pieces);
        assert(out.deep_view() =~= old_out + p);
        i += 1;
        assert(chunks.deep_view().take(i as int).drop_last() =~= chunks.deep_view().take(i - 1));
    }
    assert(chunks.deep_view().take(chunks.len() as int) =~= chunks.deep_view());
    out
}

fn finish_wrapped_line(current: &mut Vec<Span>) -> (r: Vec<Span>)
    ensures
        r.deep_view() == finish_line(old(current).deep_view()),
        final(current).deep_view() == Seq::<SpanModel>::empty(),
{
    if current.len() == 0 {
        let mut v = Vec::new();
        push_span(&mut v, span_of(String::new(), Style::new()));
        assert(v.deep_view() =~= seq![span(Seq::empty(), plain())]);
        return v;
    }
    let r = crate::text::take_vec(current);
    assert(r.deep_view() =~= old(current).deep_view());
    assert(current.deep_view() =~= Seq::<SpanModel>::empty());
    r
}

fn is_line_break(s: &String) -> (r: bool)
    ensures
        r == (s@ == seq!['\n']),
{
    let cs = chars_of(s.as_str());
    let r = cs.len() == 1 && cs[0] == '\n';
    if cs.len() == 1 {
        assert(cs@ =~= seq![cs@[0]]);
    }
    r
}

/// Wraps pieces greedily into lines of at most `width` characters.
fn wrap_pieces_exec(pieces: Vec<Span>, width: usize) -> (r: Vec<Vec<Span>>)
    ensures
        r.deep_view() == wrap_pieces(pieces.deep_view(), width as nat),
{
    let ghost all = pieces.deep_view();
    let mut lines: Vec<Vec<Span>> = Vec::new();
    let mut current: Vec<Span> = Vec::new();
    let mut current_width: usize = 0;
    let mut rest = pieces;
    let mut i: usize = 0;
    let n = rest.len();
    assert(lines.deep_view() =~= Seq::<Seq<SpanModel>>::empty());
    assert(current.deep_view() =~= Seq::<SpanModel>::empty());
    while i < n
        invariant
            n == all.len(),
            rest.deep_view() == all,
            i <= n,
            (lines.deep_view(), current.deep_view(), current_width as nat) == wrap_fold(
                all.take(i as int),
                width as nat,
            ),
        decreases n - i,
    {
        assert(all.take(i + 1).drop_last() =~= all.take(i as int));
        let piece = rest[i].copy();
        if is_line_break(&piece.content) {
            let line = finish_wrapped_line(&mut current);
            let ghost old_lines = lines;
            lines.push(line);
            assert(lines.deep_view() =~= old_lines.deep_view().push(line.deep_view()));
            current_width = 0;
        } else {
            let piece_width = crate::text::char_count(piece.content.as_str());
            if current_width > 0 && (current_width > width || piece_width > width - current_width) {
                let line = finish_wrapped_line(&mut current);
                let ghost old_lines = lines;
                lines.push(line);
                assert(lines.deep_view() =~= old_lines.deep_view().push(line.deep_view()));
                push_span(&mut current, piece);
                assert(current.deep_view() =~= seq![all[i as int]]);
                current_width = piece_width;
            } else {
                push_span(&mut current, piece);
                current_width = current_width + piece_width;
            }
        }
        i += 1;
    }
    assert(all.take(n as int) =~= all);
    let line = finish_wrapped_line(&mut current);
    let ghost old_lines = lines;
    lines.push(line);
    assert(lines.deep_view() =~= old_lines.deep_view().push(line.deep_view()));
    lines
}

/// The concatenated text of a wrapped line.
fn line_text_exec(line: &Vec<Span>) -> (r: String)
    ensures
        r@ == line_text(line.deep_view()),
{
    let mut out = String::new();
    let mut i: usize = 0;
    while i < line.len()
        invariant
            i <= line.len(),
            out@ == line_text(line.deep_view().take(i as int)),
        decreases line.len() - i,
    {
        push_str(&mut out, line[i].content.as_str());
        i += 1;
        assert(line.deep_view().take(i as int).drop_last() =~= line.deep_view().take(i - 1));
    }
    assert(line.deep_view().take(line.len() as int) =~= line.deep_view());
    out
}

/// The destinations of the links among `inlines`, in order.
fn link_urls_exec(inlines: &Vec<Inline>) -> (r: Vec<String>)
    ensures
        r.deep_view() == links_of(inlines.deep_view()),
{
    let ghost all = inlines.deep_view();
    let mut out: Vec<String> = Vec::new();
    let mut i: usize = 0;
    assert(all.take(0) =~= Seq::<InlineModel>::empty());
    assert(out.deep_view() =~= Seq::<Seq<char>>::empty());
    while i < inlines.len()
        invariant
            i <= inlines@.len(),
            all == inlines.deep_view(),
            out.deep_view() == links_of(all.take(i as int)),
        decreases inlines.len() - i,
    {
        assert(all.take(i + 1).drop_last() =~= all.take(i as int));
        assert(all.take(i + 1).last() == all[i as int]);
        match &inlines[i] {
            Inline::Link { text, url } => {
                let ghost before = out.deep_view();
                out.push(copy_string(url));
                assert(out.deep_view() =~= before.push(url@));
            },
            _ => {},
        }
        i += 1;
    }
    assert(all.take(i as int) =~= all);
    out
}

/// A copy of a list of strings.
pub fn copy_strings(v: &Vec<String>) -> (r: Vec<String>)
    ensures
        r.deep_view() == v.deep_view(),
{
    let mut out: Vec<String> = Vec::new();
    let mut i: usize = 0;
    while i < v.len()
        invariant
            i <= v@.len(),
            out.deep_view() == v.deep_view().take(i as int),
        decreases v.len() - i,
    {
        let ghost before = out.deep_view();
        out.push(copy_string(&v[i]));
        assert(out.deep_view() =~= before.push(v[i as int]@));
        assert(v.deep_view().take(i + 1) =~= v.deep_view().take(i as int).push(v[i as int]@));
        i += 1;
    }
    assert(v.deep_view().take(i as int) =~= v.deep_view());
    out
}

impl LayoutBuilder {
    /// Adds inline runs as rows wrapped at `wrap_width`, the first row behind
    /// `prefix` and the others indented by its width.
    fn push_rich_inline_lines(
        &mut self,
        inlines: &Vec<Inline>,
        wrap_width: usize,
        base: Style,
        prefix: &[char],
        heading: Option<u8>,
        links: &Vec<String>,
    )
        ensures
            final(self)@ == rich_lines(
                old(self)@,
                inlines.deep_view(),
                wrap_width as nat,
                base,
                prefix@,
                heading,
                links.deep_view(),
            ),
    {
        let chunks = styled_chunks_exec(inlines, base);
        let pieces = pieces_exec(&chunks);
        let wrapped = wrap_pieces_exec(pieces, max_usize(wrap_width, 1));
        let ghost w = wrapped.deep_view();
        let ghost start = self@;
        let mut index: usize = 0;
        while index < wrapped.len()
            invariant
                index <= wrapped@.len(),
                w == wrapped.deep_view(),
                self@ == rich_fold(start, w, prefix@, base, index as nat, heading, links.deep_view()),
            decreases wrapped.len() - index,
        {
            let line = &wrapped[index];
            let mut spans: Vec<Span> = Vec::new();
            if index == 0 && prefix.len() > 0 {
                push_span(&mut spans, span_of(string_of(prefix), base.fg(Color::DarkGray)));
            } else if prefix.len() > 0 {
                push_span(&mut spans, span_of(repeat_char(' ', prefix.len()), base));
            }
            let text_span_index: usize = if prefix.len() == 0 {
                0
            } else {
                1
            };
            let search_text = line_text_exec(line);
            let mut k: usize = 0;
            let ghost pre = spans.deep_view();
            while k < line.len()
                invariant
                    k <= line@.len(),
                    spans.deep_view() == pre + line.deep_view().take(k as int),
                decreases line.len() - k,
            {
                push_span(&mut spans, line[k].copy());
                k += 1;
                assert(line.deep_view().take(k as int) =~= line.deep_view().take(k - 1).push(
                    line.deep_view()[k - 1],
                ));
            }
            assert(line.deep_view().take(line.len() as int) =~= line.deep_view());
            assert(w[index as int] == line.deep_view());
            assert(spans.deep_view() =~= rich_row_spans(index as int, w[index as int], prefix@, base));
            let mark = if index == 0 {
                heading
            } else {
                None
            };
            self.push_marked_line(spans, search_text, text_span_index, mark, copy_strings(links));
            index += 1;
        }
    }
}

} // verus!

verus! {

// ---------------------------------------------------------------------------
// Headings, quotes and lists
// ---------------------------------------------------------------------------

pub open spec fn heading_style(level: u8) -> Style {
    if level == 1 {
        with_modifier(with_fg(plain(), Color::Yellow), BOLD | UNDERLINED)
    } else if level == 2 {
        with_modifier(with_fg(plain(), Color::Cyan), BOLD)
    } else if level == 3 {
        with_modifier(with_fg(plain(), Color::Green), BOLD)
    } else {
        with_modifier(with_fg(plain(), Color::White), BOLD)
    }
}

/// A heading: a level-1 heading gets a double rule above, level 1 and 2 a
/// rule below, each as long as the title but at most the wrap width (10 at least).
pub open spec fn heading_lines(acc: LayoutAcc, level: u8, inlines: Seq<InlineModel>, wrap_width: nat) -> LayoutAcc {
    let w = max(wrap_width as int, 10);
    let a1 = if level == 1 {
        push_decoration(
            acc,
            span(
                repeat('═', min(trim(flatten(inlines)).len() as int, w) as nat),
                with_fg(plain(), Color::DarkGray),
            ),
        )
    } else {
        acc
    };
    let a2 = rich_lines(
        a1,
        inlines,
        wrap_width,
        heading_style(level),
        Seq::empty(),
        Some(level),
        links_of(inlines),
    );
    if level <= 2 {
        push_decoration(
            a2,
            span(
                repeat(
                    if level == 1 {
                        '═'
                    } else {
                        '─'
                    },
                    min(flatten(inlines).len() as int, w) as nat,
                ),
                with_fg(plain(), Color::DarkGray),
            ),
        )
    } else {
        a2
    }
}

/// `s` with every leading repetition of `p` removed, as `str::trim_start_matches` does.
pub open spec fn strip_repeated(s: Seq<char>, p: Seq<char>) -> Seq<char>
    decreases s.len(),
{
    if p.len() > 0 && has_prefix(s, p) {
        strip_repeated(s.subrange(p.len() as int, s.len() as int), p)
    } else {
        s
    }
}

pub open spec fn note_marker() -> Seq<char> {
    seq!['[', '!', 'N', 'O', 'T', 'E', ']']
}

pub open spec fn tip_marker() -> Seq<char> {
    seq!['[', '!', 'T', 'I', 'P', ']']
}

pub open spec fn warn_marker() -> Seq<char> {
    seq!['[', '!', 'W', 'A', 'R', 'N', ']']
}

/// The label, body and colour of a quote: `[!NOTE]`, `[!TIP]` and `[!WARN]`
/// call-outs are recognised at the start of the quote's trimmed text.
pub open spec fn quote_parts(inlines: Seq<InlineModel>) -> (Seq<char>, Seq<char>, Color) {
    let q = trim(flatten(inlines));
    if has_prefix(q, note_marker()) {
        (seq![' ', 'N', 'O', 'T', 'E', ' '], trim(strip_repeated(q, note_marker())), Color::Blue)
    } else if has_prefix(q, tip_marker()) {
        (seq![' ', 'T', 'I', 'P', ' '], trim(strip_repeated(q, tip_marker())), Color::Green)
    } else if has_prefix(q, warn_marker()) {
        (seq![' ', 'W', 'A', 'R', 'N', ' '], trim(strip_repeated(q, warn_marker())), Color::Yellow)
    } else {
        (seq![' ', 'Q', 'U', 'O', 'T', 'E', ' '], q, Color::Magenta)
    }
}

pub open spec fn quote_bar() -> Seq<char> {
    seq!['▎', ' ']
}

/// A quote: its label, a rule in its colour, and its text behind a bar.
pub open spec fn quote_lines(acc: LayoutAcc, inlines: Seq<InlineModel>, wrap_width: nat) -> LayoutAcc {
    let (label, body, color) = quote_parts(inlines);
    let a1 = push_decoration(
        acc,
        span(label, with_modifier(with_bg(with_fg(plain(), Color::Black), color), BOLD)),
    );
    let a2 = push_decoration(
        a1,
        span(repeat('─', max(sub_sat(wrap_width as int, 4), 8) as nat), with_fg(plain(), color)),
    );
    rich_lines(
        a2,
        seq![InlineModel::Text(body)],
        sub_sat(wrap_width as int, 4) as nat,
        with_fg(plain(), color),
        quote_bar(),
        None,
        links_of(inlines),
    )
}

pub open spec fn list_bullet() -> Seq<char> {
    seq!['◆', ' ']
}

/// The first `n` items of a list, each as bulleted wrapped rows.
pub open spec fn list_lines(acc: LayoutAcc, items: Seq<Seq<InlineModel>>, wrap_width: nat, n: nat) -> LayoutAcc
    decreases n,
{
    if n == 0 {
        acc
    } else {
        rich_lines(
            list_lines(acc, items, wrap_width, (n - 1) as nat),
            items[n - 1],
            sub_sat(wrap_width as int, 6) as nat,
            with_fg(plain(), Color::Gray),
            list_bullet(),
            None,
            links_of(items[n - 1]),
        )
    }
}

/// Removes every leading repetition of `p` from `s[start..]`, returning the new start.
fn strip_repeated_exec(s: &Vec<char>, start: usize, p: &Vec<char>) -> (r: usize)
    requires
        start <= s@.len(),
        p@.len() > 0,
    ensures
        start <= r <= s@.len(),
        strip_repeated(s@.subrange(start as int, s@.len() as int), p@) == s@.subrange(
            r as int,
            s@.len() as int,
        ),
{
    let mut i = start;
    while i <= s.len() && p.len() <= s.len() - i && crate::text::starts_with_at(s.as_slice(), i, p.as_slice())
        invariant
            start <= i <= s@.len(),
            p@.len() > 0,
            strip_repeated(s@.subrange(start as int, s@.len() as int), p@) == strip_repeated(
                s@.subrange(i as int, s@.len() as int),
                p@,
            ),
        decreases s@.len() - i,
    {
        assert(s@.subrange(i as int, s@.len() as int).subrange(0, p@.len() as int) =~= s@.subrange(
            i as int,
            i + p@.len(),
        ));
        assert(s@.subrange(i as int, s@.len() as int).subrange(
            p@.len() as int,
            s@.len() - i,
        ) =~= s@.subrange(i + p@.len(), s@.len() as int));
        i = i + p.len();
    }
    assert(!has_prefix(s@.subrange(i as int, s@.len() as int), p@)) by {
        if has_prefix(s@.subrange(i as int, s@.len() as int), p@) {
            assert(s@.subrange(i as int, s@.len() as int).subrange(0, p@.len() as int)
                =~= s@.subrange(i as int, i + p@.len()));
            assert(crate::text::has_prefix_at(s@, i as int, p@));
        }
    }
    i
}

fn chars_to_string(v: &Vec<char>) -> (r: String)
    ensures
        r@ == v@,
{
    string_of(v.as_slice())
}

impl LayoutBuilder {
    fn push_heading_block(&mut self, level: u8, inlines: &Vec<Inline>, wrap_width: usize)
        ensures
            final(self)@ == heading_lines(old(self)@, level, inlines.deep_view(), wrap_width as nat),
    {
        let w = max_usize(wrap_width, 10);
        let style = if level == 1 {
            Style::new().fg(Color::Yellow).add_modifier(BOLD | UNDERLINED)
        } else if level == 2 {
            Style::new().fg(Color::Cyan).add_modifier(BOLD)
        } else if level == 3 {
            Style::new().fg(Color::Green).add_modifier(BOLD)
        } else {
            Style::new().fg(Color::White).add_modifier(BOLD)
        };
        if level == 1 {
            let flat = flatten_inlines(inlines);
            let title = trim_string(flat.as_str());
            let n = min_usize(crate::text::char_count(title.as_str()), w);
            self.push_decoration(span_of(repeat_char('═', n), Style::new().fg(Color::DarkGray)));
        }
        let empty: Vec<char> = Vec::new();
        let links = link_urls_exec(inlines);
        self.push_rich_inline_lines(inlines, wrap_width, style, empty.as_slice(), Some(level), &links);
        if level <= 2 {
            let accent = if level == 1 {
                '═'
            } else {
                '─'
            };
            let title = flatten_inlines(inlines);
            let n = min_usize(crate::text::char_count(title.as_str()), w);
            self.push_decoration(span_of(repeat_char(accent, n), Style::new().fg(Color::DarkGray)));
        }
    }

    fn push_quote_block(&mut self, inlines: &Vec<Inline>, wrap_width: usize)
        ensures
            final(self)@ == quote_lines(old(self)@, inlines.deep_view(), wrap_width as nat),
    {
        let flat = flatten_inlines(inlines);
        let q = chars_of(trim_string(flat.as_str()).as_str());
        let note = vec!['[', '!', 'N', 'O', 'T', 'E', ']'];
        let tip = vec!['[', '!', 'T', 'I', 'P', ']'];
        let warn = vec!['[', '!', 'W', 'A', 'R', 'N', ']'];
        assert(note@ == note_marker());
        assert(tip@ == tip_marker());
        assert(warn@ == warn_marker());
        assert(q@.subrange(0, q@.len() as int) =~= q@);
        let (label, body, color) = if crate::text::starts_with_at(q.as_slice(), 0, note.as_slice()) {
            assert(has_prefix(q@, note_marker()));
            let r = strip_repeated_exec(&q, 0, &note);
            let rest = crate::text::substring(q.as_slice(), r, q.len());
            (vec![' ', 'N', 'O', 'T', 'E', ' '], trim_string(rest.as_str()), Color::Blue)
        } else if crate::text::starts_with_at(q.as_slice(), 0, tip.as_slice()) {
            let r = strip_repeated_exec(&q, 0, &tip);
            let rest = crate::text::substring(q.as_slice(), r, q.len());
            (vec![' ', 'T', 'I', 'P', ' '], trim_string(rest.as_str()), Color::Green)
        } else if crate::text::starts_with_at(q.as_slice(), 0, warn.as_slice()) {
            let r = strip_repeated_exec(&q, 0, &warn);
            let rest = crate::text::substring(q.as_slice(), r, q.len());
            (vec![' ', 'W', 'A', 'R', 'N', ' '], trim_string(rest.as_str()), Color::Yellow)
        } else {
            (vec![' ', 'Q', 'U', 'O', 'T', 'E', ' '], string_of(q.as_slice()), Color::Magenta)
        };
        assert((label@, body@, color) == quote_parts(inlines.deep_view()));
        self.push_decoration(
            span_of(
                chars_to_string(&label),
                Style::new().fg(Color::Black).bg(color).add_modifier(BOLD),
            ),
        );
        let rule_len = max_usize(wrap_width.saturating_sub(4), 8);
        self.push_decoration(span_of(repeat_char('─', rule_len), Style::new().fg(color)));
        let mut body_inlines: Vec<Inline> = Vec::new();
        let ghost b = body@;
        body_inlines.push(Inline::Text(body));
        assert(body_inlines.deep_view() =~= seq![InlineModel::Text(b)]);
        let bar = vec!['▎', ' '];
        assert(bar@ == quote_bar());
        let links = link_urls_exec(inlines);
        self.push_rich_inline_lines(
            &body_inlines,
            wrap_width.saturating_sub(4),
            Style::new().fg(color),
            bar.as_slice(),
            None,
            &links,
        );
    }

    fn push_list_block(&mut self, items: &Vec<ListItem>, wrap_width: usize)
        ensures
            final(self)@ == list_lines(old(self)@, items.deep_view(), wrap_width as nat, items@.len()),
    {
        let bullet = vec!['◆', ' '];
        assert(bullet@ == list_bullet());
        let ghost start = self@;
        let mut i: usize = 0;
        while i < items.len()
            invariant
                i <= items@.len(),
                bullet@ == list_bullet(),
                self@ == list_lines(start, items.deep_view(), wrap_width as nat, i as nat),
            decreases items.len() - i,
        {
            let links = link_urls_exec(&items[i].content);
            self.push_rich_inline_lines(
                &items[i].content,
                wrap_width.saturating_sub(6),
                Style::new().fg(Color::Gray),
                bullet.as_slice(),
                None,
                &links,
            );
            i += 1;
        }
    }
}

} // verus!

verus! {

// ---------------------------------------------------------------------------
// Code blocks
// ---------------------------------------------------------------------------

pub open spec fn code_panel_bg() -> Color {
    Color::Rgb(28, 30, 36)
}

pub open spec fn code_panel_edge() -> Color {
    Color::Rgb(72, 78, 92)
}

pub open spec fn code_base_style() -> Style {
    with_bg(with_fg(plain(), Color::White), code_panel_bg())
}

/// The highlighted runs of a line as spans: empty runs and bare line breaks are dropped.
pub open spec fn run_spans(runs: Seq<(u8, u8, u8, Seq<char>)>) -> Seq<SpanModel>
    decreases runs.len(),
{
    if runs.len() == 0 {
        Seq::empty()
    } else {
        let r = runs.last();
        let rest = run_spans(runs.drop_last());
        if r.3.len() > 0 && r.3 != seq!['\n'] {
            rest.push(span(r.3, with_fg(plain(), Color::Rgb(r.0, r.1, r.2))))
        } else {
            rest
        }
    }
}

/// One highlighted code line: its runs, or (where highlighting failed) its
/// text in the base style; never no span at all.
pub open spec fn highlighted_line(h: Option<Seq<(u8, u8, u8, Seq<char>)>>, line: Seq<char>) -> Seq<SpanModel> {
    let spans = match h {
        Some(runs) => run_spans(runs),
        None => seq![span(crate::text::strip_newline(line), code_base_style())],
    };
    if spans.len() == 0 {
        seq![span(Seq::empty(), code_base_style())]
    } else {
        spans
    }
}

/// The highlighted lines of a code block (at least one).
pub open spec fn code_highlight_lines(language: Seq<char>, code: Seq<char>) -> Seq<Seq<SpanModel>> {
    highlighted_lines(crate::highlight::ocean_highlight(trim(language), code), code)
}

/// The lines of `code` as spans, given the highlighter's answer `h` for each
/// of its lines (at least one line).
pub open spec fn highlighted_lines(h: Seq<Option<Seq<(u8, u8, u8, Seq<char>)>>>, code: Seq<char>) -> Seq<Seq<SpanModel>> {
    let ls = crate::text::inclusive_lines(code);
    if h.len() == 0 {
        seq![seq![span(Seq::empty(), code_base_style())]]
    } else {
        Seq::new(
            h.len(),
            |i: int|
                highlighted_line(
                    h[i],
                    if i < ls.len() {
                        ls[i]
                    } else {
                        Seq::empty()
                    },
                ),
        )
    }
}

/// The title of a code panel: the language, or `code`.
pub open spec fn code_title(language: Seq<char>) -> Seq<char> {
    let t = trim(language);
    if t.len() == 0 {
        seq![' ', 'c', 'o', 'd', 'e', ' ']
    } else {
        seq![' '] + t + seq![' ']
    }
}

/// The rows of the first `n` highlighted lines: an edge, the line's spans and
/// padding to the wrap width (measured by the raw line).
pub open spec fn code_rows(acc: LayoutAcc, hl: Seq<Seq<SpanModel>>, raws: Seq<Seq<char>>, wrap: nat, n: nat) -> LayoutAcc
    decreases n,
{
    if n == 0 {
        acc
    } else {
        let k = n - 1;
        let raw = if k < raws.len() {
            raws[k]
        } else {
            Seq::empty()
        };
        let fill = sub_sat(wrap as int, (raw.len() + 2) as int);
        let spans = seq![span(seq!['│', ' '], with_bg(with_fg(plain(), code_panel_edge()), code_panel_bg()))]
            + hl[k] + if fill > 0 {
            seq![span(repeat(' ', fill as nat), with_bg(plain(), code_panel_bg()))]
        } else {
            Seq::empty()
        };
        push_line(code_rows(acc, hl, raws, wrap, (n - 1) as nat), spans, raw, 1)
    }
}

/// A code block: a titled top edge, the highlighted lines, a bottom edge.
pub open spec fn code_lines(acc: LayoutAcc, language: Seq<char>, code: Seq<char>, wrap: nat) -> LayoutAcc {
    let a1 = push_decoration(
        acc,
        span(
            seq!['╭'] + code_title(language),
            with_modifier(with_bg(with_fg(plain(), Color::Black), Color::Cyan), BOLD),
        ),
    );
    let hl = code_highlight_lines(language, code);
    let a2 = code_rows(a1, hl, crate::text::str_lines(code), wrap, hl.len());
    push_decoration(
        a2,
        span(
            seq!['╰'] + repeat('─', max(sub_sat(wrap as int, 2), 4) as nat),
            with_fg(plain(), code_panel_edge()),
        ),
    )
}

fn code_base() -> (r: Style)
    ensures
        r == code_base_style(),
{
    Style::new().fg(Color::White).bg(Color::Rgb(28, 30, 36))
}

/// The highlighted lines of a code block.
fn highlight_code_lines(language: &str, code: &str) -> (r: Vec<Vec<Span>>)
    ensures
        r.deep_view() == code_highlight_lines(language@, code@),
{
    let lang = trim_string(language);
    let h = crate::highlight::highlight_ocean(lang.as_str(), code);
    highlighted_code_lines(&h, code)
}

/// The lines of `code` as spans, given the highlighter's answer `h` for each
/// of its lines: a line's coloured runs, or its text in the panel's style
/// where highlighting failed.
pub fn highlighted_code_lines(h: &Vec<Option<Vec<HighlightRun>>>, code: &str) -> (r: Vec<Vec<Span>>)
    ensures
        r.deep_view() == highlighted_lines(h.deep_view(), code@),
{
    let ls = crate::text::inclusive_lines_exec(chars_of(code).as_slice());
    let ghost hv = h.deep_view();
    let ghost lv = ls.deep_view();
    let mut out: Vec<Vec<Span>> = Vec::new();
    if h.len() == 0 {
        let mut v: Vec<Span> = Vec::new();
        push_span(&mut v, span_of(String::new(), code_base()));
        assert(v.deep_view() =~= seq![span(Seq::empty(), code_base_style())]);
        out.push(v);
        assert(out.deep_view() =~= highlighted_lines(hv, code@));
        return out;
    }
    let mut i: usize = 0;
    while i < h.len()
        invariant
            i <= h@.len(),
            hv == h.deep_view(),
            lv == ls.deep_view(),
            lv == crate::text::inclusive_lines(code@),
            out.deep_view() =~= Seq::new(
                i as nat,
                |k: int|
                    highlighted_line(
                        hv[k],
                        if k < lv.len() {
                            lv[k]
                        } else {
                            Seq::empty()
                        },
                    ),
            ),
        decreases h.len() - i,
    {
        let mut spans: Vec<Span> = Vec::new();
        match &h[i] {
            Some(runs) => {
                let mut k: usize = 0;
                assert(spans.deep_view() =~= run_spans(runs.deep_view().take(0)));
                while k < runs.len()
                    invariant
                        k <= runs@.len(),
                        spans.deep_view() == run_spans(runs.deep_view().take(k as int)),
                    decreases runs.len() - k,
                {
                    let run = &runs[k];
                    let rc = chars_of(run.text.as_str());
                    let keep = rc.len() > 0 && !(rc.len() == 1 && rc[0] == '\n');
                    proof {
                        if rc@.len() == 1 {
                            assert(rc@ =~= seq![rc@[0]]);
                        }
                        assert(runs.deep_view().take(k + 1).drop_last() =~= runs.deep_view().take(
                            k as int,
                        ));
                    }
                    if keep {
                        push_span(
                            &mut spans,
                            span_of(copy_string(&run.text), Style::new().fg(Color::Rgb(run.r, run.g, run.b))),
                        );
                    }
                    k += 1;
                }
                assert(runs.deep_view().take(runs.len() as int) =~= runs.deep_view());
            },
            None => {
                let line = if i < ls.len() {
                    chars_of(ls[i].as_str())
                } else {
                    Vec::new()
                };
                let ghost lt = if i < lv.len() {
                    lv[i as int]
                } else {
                    Seq::<char>::empty()
                };
                assert(line@ == lt);
                let clean = crate::text::strip_newline_exec(&line);
                push_span(&mut spans, span_of(string_of(clean.as_slice()), code_base()));
                assert(spans.deep_view() =~= seq![
                    span(crate::text::strip_newline(lt), code_base_style()),
                ]);
            },
        }
        if spans.len() == 0 {
            push_span(&mut spans, span_of(String::new(), code_base()));
            assert(spans.deep_view() =~= seq![span(Seq::empty(), code_base_style())]);
        }
        assert(spans.deep_view() == highlighted_line(
            hv[i as int],
            if i < lv.len() {
                lv[i as int]
            } else {
                Seq::empty()
            },
        ));
        let ghost old_out = out;
        let ghost sv = spans.deep_view();
        out.push(spans);
        assert(out.deep_view() =~= old_out.deep_view().push(sv));
        i += 1;
    }
    out
}

impl LayoutBuilder {
    fn push_code_block(&mut self, language: &str, code: &str, wrap_width: usize)
        ensures
            final(self)@ == code_lines(old(self)@, language@, code@, wrap_width as nat),
    {
        let lang = trim_string(language);
        let mut title = String::new();
        push_char(&mut title, '╭');
        if lang.as_str().is_empty() {
            push_chars(&mut title, vec![' ', 'c', 'o', 'd', 'e', ' '].as_slice());
        } else {
            push_char(&mut title, ' ');
            push_str(&mut title, lang.as_str());
            push_char(&mut title, ' ');
        }
        assert(title@ =~= seq!['╭'] + code_title(language@));
        self.push_decoration(
            span_of(title, Style::new().fg(Color::Black).bg(Color::Cyan).add_modifier(BOLD)),
        );
        let highlighted = highlight_code_lines(language, code);
        let raws = crate::text::str_lines_exec(code);
        let ghost hl = highlighted.deep_view();
        let ghost start = self@;
        let edge = Style::new().fg(Color::Rgb(72, 78, 92)).bg(Color::Rgb(28, 30, 36));
        let mut index: usize = 0;
        while index < highlighted.len()
            invariant
                index <= highlighted@.len(),
                hl == highlighted.deep_view(),
                raws.deep_view() == crate::text::str_lines(code@),
                edge == with_bg(with_fg(plain(), code_panel_edge()), code_panel_bg()),
                self@ == code_rows(start, hl, raws.deep_view(), wrap_width as nat, index as nat),
            decreases highlighted.len() - index,
        {
            let raw_line = if index < raws.len() {
                copy_string(&raws[index])
            } else {
                String::new()
            };
            let mut edge_text = String::new();
            push_char(&mut edge_text, '│');
            push_char(&mut edge_text, ' ');
            assert(edge_text@ =~= seq!['│', ' ']);
            let mut spans: Vec<Span> = Vec::new();
            push_span(&mut spans, span_of(edge_text, edge));
            let line = &highlighted[index];
            assert(line.deep_view() == hl[index as int]);
            let mut k: usize = 0;
            let ghost pre = spans.deep_view();
            while k < line.len()
                invariant
                    k <= line@.len(),
                    spans.deep_view() == pre + line.deep_view().take(k as int),
                decreases line.len() - k,
            {
                push_span(&mut spans, line[k].copy());
                k += 1;
                assert(line.deep_view().take(k as int) =~= line.deep_view().take(k - 1).push(
                    line.deep_view()[k - 1],
                ));
            }
            assert(line.deep_view().take(line.len() as int) =~= line.deep_view());
            let visible_width = crate::text::char_count(raw_line.as_str());
            let fill = wrap_width.saturating_sub(visible_width.saturating_add(2));
            if fill > 0 {
                push_span(&mut spans, span_of(repeat_char(' ', fill), Style::new().bg(Color::Rgb(28, 30, 36))));
            }
            assert(spans.deep_view() =~= seq![span(seq!['│', ' '], edge)] + hl[index as int] + (if fill > 0 {
                seq![span(repeat(' ', fill as nat), with_bg(plain(), code_panel_bg()))]
            } else {
                Seq::empty()
            }));
            self.push_line(spans, raw_line, 1);
            index += 1;
        }
        let mut bottom = String::new();
        push_char(&mut bottom, '╰');
        let dashes = repeat_char('─', max_usize(wrap_width.saturating_sub(2), 4));
        push_str(&mut bottom, dashes.as_str());
        self.push_decoration(span_of(bottom, Style::new().fg(Color::Rgb(72, 78, 92))));
    }
}

} // verus!

verus! {

// ---------------------------------------------------------------------------
// Tables
// ---------------------------------------------------------------------------

/// The texts of a table's cells.
pub open spec fn table_texts(rows: Seq<Seq<Seq<InlineModel>>>) -> Seq<Seq<Seq<char>>> {
    rows.map_values(|r: Seq<Seq<InlineModel>>| r.map_values(|c: Seq<InlineModel>| flatten(c)))
}

/// The number of cells of the longest row.
pub open spec fn max_row_len(texts: Seq<Seq<Seq<char>>>) -> nat
    decreases texts.len(),
{
    if texts.len() == 0 {
        0
    } else {
        max(max_row_len(texts.drop_last()) as int, texts.last().len() as int) as nat
    }
}

/// The width of column `j`: its widest cell (in characters).
pub open spec fn col_width(texts: Seq<Seq<Seq<char>>>, j: int) -> nat
    decreases texts.len(),
{
    if texts.len() == 0 {
        0
    } else {
        let w = if j < texts.last().len() {
            texts.last()[j].len()
        } else {
            0
        };
        max(col_width(texts.drop_last(), j) as int, w as int) as nat
    }
}

/// The width of every column.
pub open spec fn col_widths(texts: Seq<Seq<Seq<char>>>) -> Seq<nat> {
    Seq::new(max_row_len(texts), |j: int| col_width(texts, j))
}

/// The width column `j` is drawn at: its width, at most an equal share of the
/// wrap width, at least 1.
pub open spec fn col_cap(widths: Seq<nat>, j: int, wrap: nat) -> nat {
    max(min(widths[j] as int, wrap as int / max(widths.len() as int, 1)), 1) as nat
}

pub open spec fn border_body(widths: Seq<nat>, wrap: nat, join: char, n: nat) -> Seq<char>
    decreases n,
{
    if n == 0 {
        Seq::empty()
    } else {
        border_body(widths, wrap, join, (n - 1) as nat) + repeat('─', col_cap(widths, n - 1, wrap) + 2)
            + if n < widths.len() {
            seq![join]
        } else {
            Seq::empty()
        }
    }
}

/// A horizontal table border.
pub open spec fn table_border(left: char, join: char, right: char, widths: Seq<nat>, wrap: nat) -> Seq<char> {
    seq![left] + border_body(widths, wrap, join, widths.len()) + seq![right]
}

/// `s` cut to `w` characters, the last replaced by an ellipsis when cut.
pub open spec fn truncate(s: Seq<char>, w: nat) -> Seq<char> {
    if s.len() <= w {
        s
    } else {
        s.take(sub_sat(w as int, 1)) + seq!['…']
    }
}

/// `s` padded with blanks to `w` characters.
pub open spec fn pad_to(s: Seq<char>, w: nat) -> Seq<char> {
    s + repeat(' ', sub_sat(w as int, s.len() as int) as nat)
}

pub open spec fn row_body(cells: Seq<Seq<char>>, widths: Seq<nat>, wrap: nat, n: nat) -> Seq<char>
    decreases n,
{
    if n == 0 {
        Seq::empty()
    } else {
        let cap = col_cap(widths, n - 1, wrap);
        row_body(cells, widths, wrap, (n - 1) as nat) + seq![' '] + pad_to(truncate(cells[n - 1], cap), cap)
            + seq![' ', '│']
    }
}

/// A table row: every cell truncated and padded to its column's width.
pub open spec fn table_row_text(cells: Seq<Seq<char>>, widths: Seq<nat>, wrap: nat) -> Seq<char> {
    seq!['│'] + row_body(cells, widths, wrap, cells.len())
}

/// The cells joined by blanks.
pub open spec fn join_space(cells: Seq<Seq<char>>, n: nat) -> Seq<char>
    decreases n,
{
    if n == 0 {
        Seq::empty()
    } else if n == 1 {
        cells[0]
    } else {
        join_space(cells, (n - 1) as nat) + seq![' '] + cells[n - 1]
    }
}

pub open spec fn header_style() -> Style {
    with_modifier(with_fg(plain(), Color::White), BOLD)
}

/// The rows of the first `n` table rows; a separator follows the header row
/// when more rows follow.
pub open spec fn table_rows_fold(acc: LayoutAcc, texts: Seq<Seq<Seq<char>>>, widths: Seq<nat>, wrap: nat, n: nat) -> LayoutAcc
    decreases n,
{
    if n == 0 {
        acc
    } else {
        let k = n - 1;
        let a = table_rows_fold(acc, texts, widths, wrap, (n - 1) as nat);
        let a1 = push_line(
            a,
            seq![
                span(
                    table_row_text(texts[k], widths, wrap),
                    if k == 0 {
                        header_style()
                    } else {
                        with_fg(plain(), Color::Gray)
                    },
                ),
            ],
            join_space(texts[k], texts[k].len()),
            0,
        );
        if k == 0 && texts.len() > 1 {
            push_decoration(
                a1,
                span(table_border('├', '┼', '┤', widths, wrap), with_fg(plain(), Color::DarkGray)),
            )
        } else {
            a1
        }
    }
}

/// A table framed by borders; nothing for a table without rows.
pub open spec fn table_lines(acc: LayoutAcc, rows: Seq<Seq<Seq<InlineModel>>>, wrap: nat) -> LayoutAcc {
    if rows.len() == 0 {
        acc
    } else {
        let texts = table_texts(rows);
        let ws = col_widths(texts);
        let a1 = push_decoration(
            acc,
            span(table_border('┌', '┬', '┐', ws, wrap), with_fg(plain(), Color::DarkGray)),
        );
        let a2 = table_rows_fold(a1, texts, ws, wrap, texts.len());
        push_decoration(
            a2,
            span(table_border('└', '┴', '┘', ws, wrap), with_fg(plain(), Color::DarkGray)),
        )
    }
}

/// `input` cut to `width` characters, the last replaced by an ellipsis when cut.
fn truncate_chars(input: &String, width: usize) -> (r: String)
    ensures
        r@ == truncate(input@, width as nat),
{
    let chars = chars_of(input.as_str());
    if chars.len() <= width {
        return copy_string(input);
    }
    let mut out = crate::text::substring(chars.as_slice(), 0, width.saturating_sub(1));
    push_char(&mut out, '…');
    assert(chars@.subrange(0, sub_sat(width as int, 1)) =~= chars@.take(sub_sat(width as int, 1)));
    out
}

fn col_cap_exec(widths: &Vec<usize>, j: usize, wrap: usize) -> (r: usize)
    requires
        j < widths@.len(),
    ensures
        r == col_cap(widths@.map_values(|w: usize| w as nat), j as int, wrap as nat),
{
    let share = wrap / max_usize(widths.len(), 1);
    max_usize(min_usize(widths[j], share), 1)
}

/// A horizontal table border.
fn build_table_border(left: char, join: char, right: char, widths: &Vec<usize>, wrap_width: usize) -> (r: String)
    requires
        wrap_width <= 0xffff,
    ensures
        r@ == table_border(left, join, right, widths@.map_values(|w: usize| w as nat), wrap_width as nat),
{
    let ghost ws = widths@.map_values(|w: usize| w as nat);
    let mut out = String::new();
    push_char(&mut out, left);
    let mut index: usize = 0;
    while index < widths.len()
        invariant
            index <= widths@.len(),
            wrap_width <= 0xffff,
            ws == widths@.map_values(|w: usize| w as nat),
            out@ == seq![left] + border_body(ws, wrap_width as nat, join, index as nat),
        decreases widths.len() - index,
    {
        let cap = col_cap_exec(widths, index, wrap_width);
        assert(cap <= 0xffff) by {
            assert(wrap_width as int / max(widths@.len() as int, 1) <= wrap_width) by (nonlinear_arith)
                requires
                    max(widths@.len() as int, 1) >= 1,
                    wrap_width >= 0,
            ;
        }
        let dashes = repeat_char('─', cap + 2);
        push_str(&mut out, dashes.as_str());
        if index + 1 < widths.len() {
            push_char(&mut out, join);
        }
        index += 1;
        assert(out@ =~= seq![left] + border_body(ws, wrap_width as nat, join, index as nat));
    }
    push_char(&mut out, right);
    assert(out@ =~= table_border(left, join, right, ws, wrap_width as nat));
    out
}

/// A table row with every cell truncated and padded to its column's width.
fn format_table_row(cells: &Vec<String>, widths: &Vec<usize>, wrap_width: usize) -> (r: String)
    requires
        cells@.len() <= widths@.len(),
    ensures
        r@ == table_row_text(cells.deep_view(), widths@.map_values(|w: usize| w as nat), wrap_width as nat),
{
    let ghost ws = widths@.map_values(|w: usize| w as nat);
    let mut out = String::new();
    push_char(&mut out, '│');
    let mut index: usize = 0;
    while index < cells.len()
        invariant
            index <= cells@.len() <= widths@.len(),
            ws == widths@.map_values(|w: usize| w as nat),
            out@ == seq!['│'] + row_body(cells.deep_view(), ws, wrap_width as nat, index as nat),
        decreases cells.len() - index,
    {
        let width = col_cap_exec(widths, index, wrap_width);
        let truncated = truncate_chars(&cells[index], width);
        push_char(&mut out, ' ');
        push_str(&mut out, truncated.as_str());
        let n = crate::text::char_count(truncated.as_str());
        let pad = repeat_char(' ', width.saturating_sub(n));
        push_str(&mut out, pad.as_str());
        push_char(&mut out, ' ');
        push_char(&mut out, '│');
        index += 1;
        assert(out@ =~= seq!['│'] + row_body(cells.deep_view(), ws, wrap_width as nat, index as nat));
    }
    out
}

/// The cells joined by blanks.
fn join_cells(cells: &Vec<String>) -> (r: String)
    ensures
        r@ == join_space(cells.deep_view(), cells@.len()),
{
    let mut out = String::new();
    let mut i: usize = 0;
    while i < cells.len()
        invariant
            i <= cells@.len(),
            out@ == join_space(cells.deep_view(), i as nat),
        decreases cells.len() - i,
    {
        if i > 0 {
            push_char(&mut out, ' ');
        }
        push_str(&mut out, cells[i].as_str());
        i += 1;
        assert(out@ =~= join_space(cells.deep_view(), i as nat));
    }
    out
}

impl LayoutBuilder {
    fn push_table_block(&mut self, rows: &Vec<Vec<Vec<Inline>>>, wrap_width: usize)
        requires
            wrap_width <= 0xffff,
        ensures
            final(self)@ == table_lines(old(self)@, rows.deep_view(), wrap_width as nat),
    {
        if rows.len() == 0 {
            return;
        }
        let ghost texts = table_texts(rows.deep_view());
        // The cells' texts.
        let mut flattened: Vec<Vec<String>> = Vec::new();
        let mut ncols: usize = 0;
        let mut r: usize = 0;
        while r < rows.len()
            invariant
                r <= rows@.len(),
                texts == table_texts(rows.deep_view()),
                flattened.deep_view() =~= texts.take(r as int),
                ncols == max_row_len(texts.take(r as int)),
            decreases rows.len() - r,
        {
            let row = &rows[r];
            let mut cells: Vec<String> = Vec::new();
            let mut j: usize = 0;
            assert(texts[r as int] == rows.deep_view()[r as int].map_values(
                |c: Seq<InlineModel>| flatten(c),
            ));
            while j < row.len()
                invariant
                    j <= row@.len(),
                    r < rows@.len(),
                    row.deep_view() == rows.deep_view()[r as int],
                    texts[r as int] == rows.deep_view()[r as int].map_values(
                        |c: Seq<InlineModel>| flatten(c),
                    ),
                    cells.deep_view() =~= texts[r as int].take(j as int),
                decreases row.len() - j,
            {
                let t = flatten_inlines(&row[j]);
                let ghost old_cells = cells;
                cells.push(t);
                assert(cells.deep_view() =~= old_cells.deep_view().push(t@));
                j += 1;
            }
            assert(texts[r as int].take(row@.len() as int) =~= texts[r as int]);
            assert(texts.take(r + 1).drop_last() =~= texts.take(r as int));
            ncols = max_usize(ncols, cells.len());
            let ghost old_f = flattened;
            let ghost cv = cells.deep_view();
            flattened.push(cells);
            assert(flattened.deep_view() =~= old_f.deep_view().push(cv));
            r += 1;
        }
        assert(texts.take(rows.len() as int) =~= texts);
        // The columns' widths.
        let mut widths: Vec<usize> = Vec::new();
        let mut j: usize = 0;
        while j < ncols
            invariant
                j <= ncols,
                ncols == max_row_len(texts),
                flattened.deep_view() == texts,
                widths@.map_values(|w: usize| w as nat) =~= col_widths(texts).take(j as int),
            decreases ncols - j,
        {
            let mut w: usize = 0;
            let mut k: usize = 0;
            while k < flattened.len()
                invariant
                    k <= flattened@.len(),
                    flattened.deep_view() == texts,
                    w == col_width(texts.take(k as int), j as int),
                decreases flattened.len() - k,
            {
                assert(texts.take(k + 1).drop_last() =~= texts.take(k as int));
                if j < flattened[k].len() {
                    let n = crate::text::char_count(flattened[k][j].as_str());
                    w = max_usize(w, n);
                }
                k += 1;
            }
            assert(texts.take(flattened.len() as int) =~= texts);
            let ghost old_w = widths@;
            widths.push(w);
            assert(widths@.map_values(|w: usize| w as nat) =~= old_w.map_values(|w: usize| w as nat).push(
                w as nat,
            ));
            j += 1;
        }
        let ghost ws = widths@.map_values(|w: usize| w as nat);
        assert(ws =~= col_widths(texts));
        let top = build_table_border('┌', '┬', '┐', &widths, wrap_width);
        self.push_decoration(span_of(top, Style::new().fg(Color::DarkGray)));
        let ghost start = self@;
        let mut index: usize = 0;
        while index < flattened.len()
            invariant
                index <= flattened@.len(),
                flattened.deep_view() == texts,
                ws == widths@.map_values(|w: usize| w as nat),
                ws == col_widths(texts),
                ncols == max_row_len(texts),
                widths@.len() == ncols,
                wrap_width <= 0xffff,
                self@ == table_rows_fold(start, texts, ws, wrap_width as nat, index as nat),
            decreases flattened.len() - index,
        {
            proof {
                lemma_row_len_le_max(texts, index as int);
            }
            let table_row = &flattened[index];
            assert(table_row.deep_view() == texts[index as int]);
            assert(table_row@.len() == texts[index as int].len());
            let line = format_table_row(table_row, &widths, wrap_width);
            let style = if index == 0 {
                Style::new().fg(Color::White).add_modifier(BOLD)
            } else {
                Style::new().fg(Color::Gray)
            };
            let mut spans: Vec<Span> = Vec::new();
            push_span(&mut spans, span_of(line, style));
            let search = join_cells(table_row);
            assert(search@ == join_space(texts[index as int], texts[index as int].len()));
            assert(spans.deep_view() =~= seq![
                span(
                    table_row_text(texts[index as int], ws, wrap_width as nat),
                    if index == 0 {
                        header_style()
                    } else {
                        with_fg(plain(), Color::Gray)
                    },
                ),
            ]);
            self.push_line(spans, search, 0);
            if index == 0 && flattened.len() > 1 {
                let mid = build_table_border('├', '┼', '┤', &widths, wrap_width);
                self.push_decoration(span_of(mid, Style::new().fg(Color::DarkGray)));
            }
            index += 1;
        }
        let bottom = build_table_border('└', '┴', '┘', &widths, wrap_width);
        self.push_decoration(span_of(bottom, Style::new().fg(Color::DarkGray)));
    }
}

/// No row is longer than the longest.
proof fn lemma_row_len_le_max(texts: Seq<Seq<Seq<char>>>, k: int)
    requires
        0 <= k < texts.len(),
    ensures
        texts[k].len() <= max_row_len(texts),
    decreases texts.len(),
{
    if k < texts.len() - 1 {
        lemma_row_len_le_max(texts.drop_last(), k);
    }
}

} // verus!

verus! {

// ---------------------------------------------------------------------------
// Slides
// ---------------------------------------------------------------------------

/// The rows an image takes when its pixel size is unknown.
pub open spec fn image_hint(display: ImageDisplay) -> usize {
    match display {
        ImageDisplay::Inline => 12,
        ImageDisplay::FullWidth => 20,
        ImageDisplay::Cover => 24,
    }
}

/// The position of the first asset with identifier `id`.
pub open spec fn asset_index(assets: Seq<AssetModel>, id: usize) -> Option<int>
    decreases assets.len(),
{
    if assets.len() == 0 {
        None
    } else {
        match asset_index(assets.drop_last(), id) {
            Some(k) => Some(k),
            None => if assets.last().id == id {
                Some(assets.len() - 1)
            } else {
                None
            },
        }
    }
}

/// The rows an image block takes: the scaled height of its asset when the
/// asset's size is known (`scaled[k]` for asset `k`), otherwise a hint by its
/// display mode; 6 at least.
pub open spec fn image_rows(assets: Seq<AssetModel>, asset_id: usize, display: ImageDisplay, scaled: Seq<Option<usize>>) -> usize {
    let base = match asset_index(assets, asset_id) {
        Some(k) => if assets[k].size is Some && k < scaled.len() && scaled[k] is Some {
            scaled[k]->0
        } else {
            image_hint(display)
        },
        None => image_hint(display),
    };
    max(base as int, 6) as usize
}

/// The columns an image is drawn across.
pub open spec fn image_cols(width: u16) -> u16 {
    max(sub_sat(width as int, 2), 10) as u16
}

pub open spec fn image_marker(alt: Seq<char>) -> Seq<char> {
    seq!['[', 'i', 'm', 'a', 'g', 'e', ':'] + alt + seq![']', '\n']
}

/// Lays out one block (followed by a blank row, except after a rule).
pub open spec fn block_step(st: (LayoutAcc, Seq<LaidOutImage>), b: BlockModel, assets: Seq<AssetModel>, viewport: Viewport, scaled: Seq<Option<usize>>) -> (LayoutAcc, Seq<LaidOutImage>) {
    let (acc, images) = st;
    let w = max(viewport.width as int, 10) as nat;
    match b {
        BlockModel::Heading(h) => (push_blank(heading_lines(acc, h.level, h.content, w)), images),
        BlockModel::Paragraph(p) => (
            push_blank(
                rich_lines(
                    acc,
                    p.content,
                    w,
                    with_fg(plain(), Color::Gray),
                    Seq::empty(),
                    None,
                    links_of(p.content),
                ),
            ),
            images,
        ),
        BlockModel::Quote(q) => (push_blank(quote_lines(acc, q.content, w)), images),
        BlockModel::List(l) => (push_blank(list_lines(acc, l.items, w, l.items.len())), images),
        BlockModel::Code(c) => (push_blank(code_lines(acc, c.language, c.code, w)), images),
        BlockModel::Table(t) => (push_blank(table_lines(acc, t.rows, w)), images),
        BlockModel::Rule => (
            push_decoration(
                acc,
                span(repeat('─', min(w as int, 80) as nat), with_fg(plain(), Color::DarkGray)),
            ),
            images,
        ),
        BlockModel::Image(i) => {
            let rows = image_rows(assets, i.asset_id, i.display, scaled);
            let img = LaidOutImage {
                block_id: i.id,
                asset_id: i.asset_id,
                start_row: acc.row,
                rows,
                cols: image_cols(viewport.width),
                display: i.display,
            };
            let acc2 = LayoutAcc {
                row: add_sat(acc.row as int, rows as int),
                lines: acc.lines,
                searchable: acc.searchable + image_marker(i.alt),
            };
            (push_blank(acc2), images.push(img))
        },
    }
}

pub open spec fn blocks_fold(blocks: Seq<BlockModel>, assets: Seq<AssetModel>, viewport: Viewport, scaled: Seq<Option<usize>>) -> (LayoutAcc, Seq<LaidOutImage>)
    decreases blocks.len(),
{
    if blocks.len() == 0 {
        (LayoutAcc { row: 0, lines: Seq::empty(), searchable: Seq::empty() }, Seq::empty())
    } else {
        block_step(
            blocks_fold(blocks.drop_last(), assets, viewport, scaled),
            blocks.last(),
            assets,
            viewport,
            scaled,
        )
    }
}

/// The layout of a slide for a viewport. Text wraps at the viewport width
/// (10 at least); `scaled[k]` gives the rows asset `k` takes when its size is known.
pub open spec fn layout_of(slide: SlideModel, viewport: Viewport, scaled: Seq<Option<usize>>) -> SlideLayoutModel {
    let (acc, images) = blocks_fold(slide.blocks, slide.assets, viewport, scaled);
    SlideLayoutModel {
        total_rows: acc.row,
        lines: acc.lines,
        images,
        searchable_text: acc.searchable,
    }
}

/// The rows an image block takes.
fn image_rows_exec(slide: &Slide, asset_id: usize, display: ImageDisplay, scaled: &Vec<Option<usize>>) -> (r: usize)
    ensures
        r == image_rows(slide@.assets, asset_id, display, scaled@),
{
    let hinted: usize = match display {
        ImageDisplay::Inline => 12,
        ImageDisplay::FullWidth => 20,
        ImageDisplay::Cover => 24,
    };
    let ghost assets = slide@.assets;
    let mut k: usize = 0;
    while k < slide.assets.len()
        invariant
            k <= slide.assets@.len(),
            assets == slide@.assets,
            hinted == image_hint(display),
            asset_index(assets.take(k as int), asset_id) is None,
        decreases slide.assets.len() - k,
    {
        assert(assets.take(k + 1).drop_last() =~= assets.take(k as int));
        if slide.assets[k].id == asset_id {
            proof {
                assert(asset_index(assets.take(k + 1), asset_id) == Some(k as int));
                lemma_asset_index_prefix(assets, k as int + 1, asset_id);
            }
            let base = if slide.assets[k].size.is_some() && k < scaled.len() && scaled[k].is_some() {
                scaled[k].unwrap()
            } else {
                hinted
            };
            return max_usize(base, 6);
        }
        k += 1;
    }
    assert(assets.take(slide.assets.len() as int) =~= assets);
    max_usize(hinted, 6)
}

/// Once an asset is found, the rest of the list does not change the answer.
proof fn lemma_asset_index_prefix(assets: Seq<AssetModel>, k: int, id: usize)
    requires
        0 < k <= assets.len(),
        asset_index(assets.take(k), id) is Some,
    ensures
        asset_index(assets, id) == asset_index(assets.take(k), id),
    decreases assets.len() - k,
{
    if k < assets.len() {
        assert(assets.take(k + 1).drop_last() =~= assets.take(k));
        lemma_asset_index_prefix(assets, k + 1, id);
    } else {
        assert(assets.take(k) =~= assets);
    }
}

/// Lays a slide out for a viewport. `scaled[k]` is the number of rows asset `k`
/// takes when scaled to the viewport (computed by the caller, which knows the
/// image's pixel size); images without a known size take a fixed number of rows.
pub fn build_layout(slide: &Slide, viewport: Viewport, scaled: &Vec<Option<usize>>) -> (r: SlideLayout)
    ensures
        r@ == layout_of(slide@, viewport, scaled@),
{
    let wrap_width = max_usize(viewport.width as usize, 10);
    let mut b = LayoutBuilder::new();
    let mut images: Vec<LaidOutImage> = Vec::new();
    let ghost blocks = slide@.blocks;
    let mut i: usize = 0;
    while i < slide.blocks.len()
        invariant
            i <= slide.blocks@.len(),
            blocks == slide@.blocks,
            wrap_width == max(viewport.width as int, 10),
            wrap_width <= 0xffff,
            (b@, images@) == blocks_fold(blocks.take(i as int), slide@.assets, viewport, scaled@),
        decreases slide.blocks.len() - i,
    {
        assert(blocks.take(i + 1).drop_last() =~= blocks.take(i as int));
        match &slide.blocks[i] {
            Block::Heading(block) => {
                b.push_heading_block(block.level, &block.content, wrap_width);
                b.push_blank();
            },
            Block::Paragraph(block) => {
                let empty: Vec<char> = Vec::new();
                let links = link_urls_exec(&block.content);
                b.push_rich_inline_lines(
                    &block.content,
                    wrap_width,
                    Style::new().fg(Color::Gray),
                    empty.as_slice(),
                    None,
                    &links,
                );
                b.push_blank();
            },
            Block::Quote(block) => {
                b.push_quote_block(&block.content, wrap_width);
                b.push_blank();
            },
            Block::List(block) => {
                b.push_list_block(&block.items, wrap_width);
                b.push_blank();
            },
            Block::Code(block) => {
                b.push_code_block(block.language.as_str(), block.code.as_str(), wrap_width);
                b.push_blank();
            },
            Block::Table(block) => {
                b.push_table_block(&block.rows, wrap_width);
                b.push_blank();
            },
            Block::Rule => {
                b.push_decoration(span_of(repeat_char('─', min_usize(wrap_width, 80)), Style::new().fg(Color::DarkGray)));
            },
            Block::Image(block) => {
                let rows = image_rows_exec(slide, block.asset_id, block.display, scaled);
                let cols = if viewport.width >= 12 {
                    viewport.width - 2
                } else {
                    10
                };
                images.push(
                    LaidOutImage {
                        block_id: block.id,
                        asset_id: block.asset_id,
                        start_row: b.row(),
                        rows,
                        cols,
                        display: block.display,
                    },
                );
                b.push_image_marker(&block.alt, rows);
                b.push_blank();
            },
        }
        i += 1;
    }
    assert(blocks.take(slide.blocks.len() as int) =~= blocks);
    SlideLayout {
        total_rows: b.row,
        lines: b.lines,
        images,
        searchable_text: b.searchable_text,
    }
}

impl LayoutBuilder {
    fn push_image_marker(&mut self, alt: &String, rows: usize)
        ensures
            final(self)@ == (LayoutAcc {
                row: add_sat(old(self)@.row as int, rows as int),
                lines: old(self)@.lines,
                searchable: old(self)@.searchable + image_marker(alt@),
            }),
    {
        let ghost old_text = self.searchable_text@;
        push_chars(&mut self.searchable_text, vec!['[', 'i', 'm', 'a', 'g', 'e', ':'].as_slice());
        push_str(&mut self.searchable_text, alt.as_str());
        push_chars(&mut self.searchable_text, vec![']', '\n'].as_slice());
        assert(self.searchable_text@ =~= old_text + image_marker(alt@));
        self.row = self.row.saturating_add(rows);
    }
}

} // verus!

verus! {

// ---------------------------------------------------------------------------
// The visible rows
// ---------------------------------------------------------------------------

/// The first laid-out line on `row`.
pub open spec fn find_line(lines: Seq<LineModel>, row: usize) -> Option<LineModel>
    decreases lines.len(),
{
    if lines.len() == 0 {
        None
    } else if lines[0].row == row {
        Some(lines[0])
    } else {
        find_line(lines.drop_first(), row)
    }
}

/// The hits on `row`, with their positions in the list of all hits.
pub open spec fn row_matches(matches: Seq<SearchMatch>, row: usize) -> Seq<(usize, SearchMatch)>
    decreases matches.len(),
{
    if matches.len() == 0 {
        Seq::empty()
    } else {
        let rest = row_matches(matches.drop_last(), row);
        if matches.last().row == row {
            rest.push(((matches.len() - 1) as usize, matches.last()))
        } else {
            rest
        }
    }
}

pub open spec fn selected_hit_style(base: Style) -> Style {
    with_bg(with_fg(base, Color::Black), Color::Yellow)
}

pub open spec fn other_hit_style(base: Style) -> Style {
    with_bg(base, Color::Rgb(58, 60, 72))
}

/// One hit of highlighting a text: the text since the last hit, then the hit
/// itself (both clipped to the text), the selected hit in its own colours.
pub open spec fn hit_step(st: (Seq<SpanModel>, int), hit: (usize, SearchMatch), text: Seq<char>, base: Style, selected: Option<usize>) -> (Seq<SpanModel>, int) {
    let (spans, cursor) = st;
    let (mi, m) = hit;
    let start = min(m.start as int, text.len() as int);
    let end = min(add_sat(m.start as int, m.len as int) as int, text.len() as int);
    let spans1 = if cursor < start {
        spans.push(span(text.subrange(cursor, start), base))
    } else {
        spans
    };
    let style = if selected == Some(mi) {
        selected_hit_style(base)
    } else {
        other_hit_style(base)
    };
    (spans1.push(span(text.subrange(start, end), style)), end)
}

pub open spec fn hits_fold(hits: Seq<(usize, SearchMatch)>, text: Seq<char>, base: Style, selected: Option<usize>) -> (Seq<SpanModel>, int)
    decreases hits.len(),
{
    if hits.len() == 0 {
        (Seq::empty(), 0)
    } else {
        hit_step(hits_fold(hits.drop_last(), text, base, selected), hits.last(), text, base, selected)
    }
}

/// A text cut at its hits, the hits highlighted.
pub open spec fn highlight_hits(text: Seq<char>, base: Style, hits: Seq<(usize, SearchMatch)>, selected: Option<usize>) -> Seq<SpanModel> {
    let (spans, cursor) = hits_fold(hits, text, base, selected);
    if cursor < text.len() {
        spans.push(span(text.subrange(cursor, text.len() as int), base))
    } else {
        spans
    }
}

pub open spec fn selection_bg() -> Color {
    Color::Rgb(44, 47, 56)
}

pub open spec fn active_bg() -> Color {
    Color::Rgb(34, 37, 44)
}

/// A row's own spans, shaded when selected or active (active only with text).
pub open spec fn shade(spans: Seq<SpanModel>, in_selection: bool, active: bool) -> Seq<SpanModel> {
    spans.map_values(
        |s: SpanModel|
            if in_selection {
                span(s.content, with_bg(s.style, selection_bg()))
            } else if active {
                span(s.content, with_bg(s.style, active_bg()))
            } else {
                s
            },
    )
}

/// The gutter marker of a row.
pub open spec fn gutter(active: bool, in_selection: bool) -> SpanModel {
    if active && in_selection {
        span(seq!['▌', ' '], with_fg(plain(), Color::Yellow))
    } else if in_selection {
        span(seq!['▎', ' '], with_fg(plain(), Color::DarkGray))
    } else if active {
        span(seq!['▶', ' '], with_fg(plain(), Color::Cyan))
    } else {
        span(seq![' ', ' '], with_fg(plain(), Color::DarkGray))
    }
}

/// `spans` with the span at `k` replaced by `by`.
pub open spec fn replace_span(spans: Seq<SpanModel>, k: int, by: Seq<SpanModel>) -> Seq<SpanModel> {
    if 0 <= k < spans.len() {
        spans.take(k) + by + spans.skip(k + 1)
    } else {
        spans
    }
}

/// How row `row` is shown: a gutter marker, the row's spans (shaded when
/// selected or active) and its search hits highlighted in its text span; an
/// empty line where no row was laid out.
pub open spec fn row_view(lines: Seq<LineModel>, row: usize, matches: Seq<SearchMatch>, selected: Option<usize>, active_row: Option<usize>, selection: Option<(usize, usize)>) -> Seq<SpanModel> {
    match find_line(lines, row) {
        None => Seq::empty(),
        Some(line) => {
            let active = active_row == Some(row);
            let has_text = trim(line.search_text).len() > 0;
            let in_selection = match selection {
                Some((s, f)) => s <= row && row <= f && has_text,
                None => false,
            };
            let base = shade(line.spans, in_selection, active && has_text);
            let hits = row_matches(matches, row);
            let pre = seq![gutter(active, in_selection)];
            if hits.len() == 0 || line.search_text.len() == 0 {
                pre + base
            } else {
                let k = line.text_span_index as int;
                pre + replace_span(
                    base,
                    k,
                    if 0 <= k < base.len() {
                        highlight_hits(base[k].content, base[k].style, hits, selected)
                    } else {
                        Seq::empty()
                    },
                )
            }
        },
    }
}

/// The rows `scroll .. scroll + height` as shown.
pub open spec fn viewport_view(layout: SlideLayoutModel, scroll: usize, height: usize, matches: Seq<SearchMatch>, selected: Option<usize>, active_row: Option<usize>, selection: Option<(usize, usize)>) -> Seq<Seq<SpanModel>> {
    let n = add_sat(scroll as int, height as int) - scroll;
    Seq::new(n as nat, |k: int| row_view(layout.lines, (scroll + k) as usize, matches, selected, active_row, selection))
}

fn find_line_exec(lines: &Vec<LayoutLine>, row: usize) -> (r: Option<usize>)
    ensures
        match r {
            Some(k) => k < lines@.len() && find_line(lines.deep_view(), row) == Some(lines.deep_view()[k as int]),
            None => find_line(lines.deep_view(), row) is None,
        },
{
    let ghost lv = lines.deep_view();
    let mut k: usize = 0;
    assert(lv.subrange(0, lv.len() as int) =~= lv);
    while k < lines.len()
        invariant
            k <= lines@.len(),
            lv == lines.deep_view(),
            find_line(lv, row) == find_line(lv.subrange(k as int, lv.len() as int), row),
        decreases lines.len() - k,
    {
        assert(lv.subrange(k as int, lv.len() as int).drop_first() =~= lv.subrange(k + 1, lv.len() as int));
        if lines[k].row == row {
            return Some(k);
        }
        k += 1;
    }
    None
}

fn row_matches_exec(matches: &Vec<SearchMatch>, row: usize) -> (r: Vec<(usize, SearchMatch)>)
    ensures
        r@ == row_matches(matches@, row),
{
    let mut out: Vec<(usize, SearchMatch)> = Vec::new();
    let mut i: usize = 0;
    while i < matches.len()
        invariant
            i <= matches@.len(),
            out@ == row_matches(matches@.take(i as int), row),
        decreases matches.len() - i,
    {
        assert(matches@.take(i + 1).drop_last() =~= matches@.take(i as int));
        if matches[i].row == row {
            out.push((i, matches[i]));
        }
        i += 1;
    }
    assert(matches@.take(matches.len() as int) =~= matches@);
    out
}

/// The text cut at its hits, the hits highlighted.
fn highlight_search_matches(text: &String, base_style: Style, hits: &Vec<(usize, SearchMatch)>, selected_match: Option<usize>) -> (r: Vec<Span>)
    ensures
        r.deep_view() == highlight_hits(text@, base_style, hits@, selected_match),
{
    let chars = chars_of(text.as_str());
    let mut spans: Vec<Span> = Vec::new();
    let mut cursor: usize = 0;
    let mut i: usize = 0;
    assert(spans.deep_view() =~= Seq::<SpanModel>::empty());
    while i < hits.len()
        invariant
            i <= hits@.len(),
            chars@ == text@,
            (spans.deep_view(), cursor as int) == hits_fold(hits@.take(i as int), text@, base_style, selected_match),
            cursor <= chars@.len(),
        decreases hits.len() - i,
    {
        assert(hits@.take(i + 1).drop_last() =~= hits@.take(i as int));
        let (match_index, hit) = hits[i];
        let start = min_usize(hit.start, chars.len());
        let end = min_usize(hit.start.saturating_add(hit.len), chars.len());
        if cursor < start {
            push_span(&mut spans, span_of(crate::text::substring(chars.as_slice(), cursor, start), base_style));
        }
        let style = if selected_match == Some(match_index) {
            base_style.fg(Color::Black).bg(Color::Yellow)
        } else {
            base_style.bg(Color::Rgb(58, 60, 72))
        };
        push_span(&mut spans, span_of(crate::text::substring(chars.as_slice(), start, end), style));
        cursor = end;
        i += 1;
    }
    assert(hits@.take(hits.len() as int) =~= hits@);
    if cursor < chars.len() {
        push_span(&mut spans, span_of(crate::text::substring(chars.as_slice(), cursor, chars.len()), base_style));
    }
    spans
}

/// Shows rows `scroll .. scroll + height` of a layout: each with a gutter
/// marker for the active row and the selection, the search hits highlighted
/// (`selected_match` indexes `matches`), and an empty line where nothing was laid out.
pub fn viewport_lines(layout: &SlideLayout, scroll: usize, height: usize, matches: &Vec<SearchMatch>, selected_match: Option<usize>, active_row: Option<usize>, selection: Option<(usize, usize)>) -> (r: Vec<Line>)
    ensures
        r.deep_view() == viewport_view(layout@, scroll, height, matches@, selected_match, active_row, selection),
{
    let end = scroll.saturating_add(height);
    let ghost want = viewport_view(layout@, scroll, height, matches@, selected_match, active_row, selection);
    let mut out: Vec<Line> = Vec::new();
    let mut row = scroll;
    while row < end
        invariant
            scroll <= row <= end,
            end == add_sat(scroll as int, height as int),
            want == viewport_view(layout@, scroll, height, matches@, selected_match, active_row, selection),
            out.deep_view() =~= want.take(row - scroll),
        decreases end - row,
    {
        let spans = view_row(layout, row, matches, selected_match, active_row, selection);
        let ghost old_out = out;
        let line = Line { spans };
        out.push(line);
        assert(out.deep_view() =~= old_out.deep_view().push(line@));
        row += 1;
    }
    out
}

/// How one row is shown.
fn view_row(layout: &SlideLayout, row: usize, matches: &Vec<SearchMatch>, selected_match: Option<usize>, active_row: Option<usize>, selection: Option<(usize, usize)>) -> (r: Vec<Span>)
    ensures
        r.deep_view() == row_view(layout@.lines, row, matches@, selected_match, active_row, selection),
{
    let found = find_line_exec(&layout.lines, row);
    let k = match found {
        None => {
            let v: Vec<Span> = Vec::new();
            assert(v.deep_view() =~= Seq::<SpanModel>::empty());
            return v;
        },
        Some(k) => k,
    };
    let line = &layout.lines[k];
    let is_active_row = active_row == Some(row);
    let trimmed = trim_string(line.search_text.as_str());
    let has_visible_text = !trimmed.as_str().is_empty();
    let in_selection = match selection {
        Some((start, finish)) => row >= start && row <= finish && has_visible_text,
        None => false,
    };
    let mut base: Vec<Span> = Vec::new();
    let mut j: usize = 0;
    while j < line.spans.len()
        invariant
            j <= line.spans@.len(),
            base.deep_view() =~= shade(line.spans.deep_view(), in_selection, is_active_row && has_visible_text).take(j as int),
        decreases line.spans.len() - j,
    {
        let s = &line.spans[j];
        let styled = if in_selection {
            span_of(copy_string(&s.content), s.style.bg(Color::Rgb(44, 47, 56)))
        } else if is_active_row && has_visible_text {
            span_of(copy_string(&s.content), s.style.bg(Color::Rgb(34, 37, 44)))
        } else {
            s.copy()
        };
        push_span(&mut base, styled);
        j += 1;
    }
    let ghost bv = shade(line.spans.deep_view(), in_selection, is_active_row && has_visible_text);
    assert(base.deep_view() =~= bv);
    let marker = if is_active_row && in_selection {
        span_of(string_of(vec!['▌', ' '].as_slice()), Style::new().fg(Color::Yellow))
    } else if in_selection {
        span_of(string_of(vec!['▎', ' '].as_slice()), Style::new().fg(Color::DarkGray))
    } else if is_active_row {
        span_of(string_of(vec!['▶', ' '].as_slice()), Style::new().fg(Color::Cyan))
    } else {
        span_of(string_of(vec![' ', ' '].as_slice()), Style::new().fg(Color::DarkGray))
    };
    assert(marker@ == gutter(is_active_row, in_selection));
    let hits = row_matches_exec(matches, row);
    let mut spans: Vec<Span> = Vec::new();
    push_span(&mut spans, marker);
    let ghost pre = spans.deep_view();
    let plain_row = hits.len() == 0 || line.search_text.as_str().is_empty();
    let tsi = line.text_span_index;
    let mut idx: usize = 0;
    while idx < base.len()
        invariant
            idx <= base@.len(),
            base.deep_view() == bv,
            pre == seq![marker@],
            spans.deep_view() =~= pre + (if plain_row || tsi >= bv.len() {
                bv.take(idx as int)
            } else if idx <= tsi {
                bv.take(idx as int)
            } else {
                bv.take(tsi as int) + highlight_hits(bv[tsi as int].content, bv[tsi as int].style, hits@, selected_match) + bv.subrange(tsi + 1, idx as int)
            }),
        decreases base.len() - idx,
    {
        if !plain_row && idx == tsi {
            let mut hl = highlight_search_matches(&base[idx].content, base[idx].style, &hits, selected_match);
            let ghost old_spans = spans.deep_view();
            let ghost hv = hl.deep_view();
            spans.append(&mut hl);
            assert(spans.deep_view() =~= old_spans + hv);
        } else {
            push_span(&mut spans, base[idx].copy());
        }
        idx += 1;
    }
    proof {
        if !(plain_row || tsi >= bv.len()) {
            assert(bv.subrange(tsi + 1, bv.len() as int) =~= bv.skip(tsi + 1));
        }
        assert(bv.take(bv.len() as int) =~= bv);
    }
    spans
}

} // verus!

verus! {

// ---------------------------------------------------------------------------
// How rows are numbered
// ---------------------------------------------------------------------------

/// `b` continues `a`: it keeps `a`'s lines, its next row is no earlier, and
/// every line it adds sits at or after `a`'s next row.
pub open spec fn extends(a: LayoutAcc, b: LayoutAcc) -> bool {
    &&& a.row <= b.row
    &&& a.lines.len() <= b.lines.len()
    &&& b.lines.subrange(0, a.lines.len() as int) == a.lines
    &&& forall|i: int| a.lines.len() <= i < b.lines.len() ==> a.row <= #[trigger] b.lines[i].row
}

/// Unless the row count ran up against `usize::MAX`: the lines' rows rise
/// strictly and lie before the next row.
pub open spec fn rows_rise(acc: LayoutAcc) -> bool {
    acc.row < usize::MAX ==> {
        &&& forall|i: int, j: int|
            0 <= i < j < acc.lines.len() ==> #[trigger] acc.lines[i].row < #[trigger] acc.lines[j].row
        &&& forall|i: int| 0 <= i < acc.lines.len() ==> #[trigger] acc.lines[i].row < acc.row
    }
}

/// Unless the row count ran up against `usize::MAX`: every image's rows lie
/// before the next row and hold no line, and each image ends before the next
/// one starts.
pub open spec fn images_apart(acc: LayoutAcc, images: Seq<LaidOutImage>) -> bool {
    acc.row < usize::MAX ==> {
        &&& forall|k: int|
            0 <= k < images.len() ==> {
                &&& #[trigger] images[k].start_row + images[k].rows <= acc.row
                &&& forall|i: int|
                    0 <= i < acc.lines.len() ==> !(images[k].start_row <= #[trigger] acc.lines[i].row
                        < images[k].start_row + images[k].rows)
            }
        &&& forall|k: int, m: int|
            0 <= k < m < images.len() ==> #[trigger] images[k].start_row + images[k].rows
                <= #[trigger] images[m].start_row
    }
}

/// Row `r` holds a line or lies among an image's rows.
pub open spec fn row_taken(lines: Seq<LineModel>, images: Seq<LaidOutImage>, r: int) -> bool {
    ||| exists|i: int| 0 <= i < lines.len() && #[trigger] lines[i].row == r
    ||| exists|k: int|
        0 <= k < images.len() && #[trigger] images[k].start_row <= r < images[k].start_row
            + images[k].rows
}

/// Unless the row count ran up against `usize::MAX`: every row before the
/// next one holds a line or lies among an image's rows.
pub open spec fn covered(acc: LayoutAcc, images: Seq<LaidOutImage>) -> bool {
    acc.row < usize::MAX ==> forall|r: int| 0 <= r < acc.row ==> #[trigger] row_taken(acc.lines, images, r)
}

proof fn lemma_extends_trans(a: LayoutAcc, b: LayoutAcc, c: LayoutAcc)
    requires
        extends(a, b),
        extends(b, c),
    ensures
        extends(a, c),
{
    assert forall|i: int| a.lines.len() <= i < c.lines.len() implies a.row <= #[trigger] c.lines[i].row by {
        if i < b.lines.len() {
            assert(c.lines.subrange(0, b.lines.len() as int)[i] == b.lines[i]);
        }
    }
    assert(c.lines.subrange(0, a.lines.len() as int) =~= b.lines.subrange(0, a.lines.len() as int));
}

proof fn lemma_extends_refl(a: LayoutAcc)
    ensures
        extends(a, a),
{
    assert(a.lines.subrange(0, a.lines.len() as int) =~= a.lines);
}

/// Unless the row count ran up against `usize::MAX`: the lines `b` adds to
/// `a` take the rows from `a`'s next row to `b`'s, one each, in order.
pub open spec fn tiles(a: LayoutAcc, b: LayoutAcc) -> bool {
    b.row < usize::MAX ==> {
        &&& b.row - a.row == b.lines.len() - a.lines.len()
        &&& forall|i: int|
            a.lines.len() <= i < b.lines.len() ==> #[trigger] b.lines[i].row == a.row + (i
                - a.lines.len())
    }
}

/// `b` continues `a` line by line, with no row left without a line.
pub open spec fn continues(a: LayoutAcc, b: LayoutAcc) -> bool {
    extends(a, b) && tiles(a, b)
}

proof fn lemma_continues_trans(a: LayoutAcc, b: LayoutAcc, c: LayoutAcc)
    requires
        continues(a, b),
        continues(b, c),
    ensures
        continues(a, c),
{
    lemma_extends_trans(a, b, c);
    if c.row < usize::MAX {
        assert forall|i: int| a.lines.len() <= i < c.lines.len() implies #[trigger] c.lines[i].row
            == a.row + (i - a.lines.len()) by {
            if i < b.lines.len() {
                assert(c.lines.subrange(0, b.lines.len() as int)[i] == b.lines[i]);
            }
        }
    }
}

proof fn lemma_continues_refl(a: LayoutAcc)
    ensures
        continues(a, a),
{
    lemma_extends_refl(a);
}

proof fn lemma_push_line(acc: LayoutAcc, spans: Seq<SpanModel>, search: Seq<char>, tsi: usize)
    ensures
        continues(acc, push_line(acc, spans, search, tsi)),
        rows_rise(acc) ==> rows_rise(push_line(acc, spans, search, tsi)),
{
    lemma_push_marked(acc, spans, search, tsi, None, Seq::empty());
}

proof fn lemma_push_marked(
    acc: LayoutAcc,
    spans: Seq<SpanModel>,
    search: Seq<char>,
    tsi: usize,
    heading: Option<u8>,
    links: Seq<Seq<char>>,
)
    ensures
        continues(acc, push_marked_line(acc, spans, search, tsi, heading, links)),
        rows_rise(acc) ==> rows_rise(push_marked_line(acc, spans, search, tsi, heading, links)),
{
    let r = push_marked_line(acc, spans, search, tsi, heading, links);
    assert(r.lines.subrange(0, acc.lines.len() as int) =~= acc.lines);
    if rows_rise(acc) && r.row < usize::MAX {
        assert forall|i: int, j: int|
            0 <= i < j < r.lines.len() implies #[trigger] r.lines[i].row < #[trigger] r.lines[j].row by {
            if j < acc.lines.len() {
                assert(r.lines[j] == acc.lines[j]);
                assert(r.lines[i] == acc.lines[i]);
            } else {
                assert(r.lines[i] == acc.lines[i]);
            }
        }
        assert forall|i: int| 0 <= i < r.lines.len() implies #[trigger] r.lines[i].row < r.row by {
            if i < acc.lines.len() {
                assert(r.lines[i] == acc.lines[i]);
            }
        }
    }
}

/// Lines added at or after the next row keep clear of the images laid out so far.
proof fn lemma_step_keeps_images(a: LayoutAcc, b: LayoutAcc, images: Seq<LaidOutImage>)
    requires
        extends(a, b),
        images_apart(a, images),
    ensures
        images_apart(b, images),
{
    if b.row < usize::MAX {
        assert forall|k: int| 0 <= k < images.len() implies {
            &&& #[trigger] images[k].start_row + images[k].rows <= b.row
            &&& forall|i: int|
                0 <= i < b.lines.len() ==> !(images[k].start_row <= #[trigger] b.lines[i].row
                    < images[k].start_row + images[k].rows)
        } by {
            assert forall|i: int| 0 <= i < b.lines.len() implies !(images[k].start_row
                <= #[trigger] b.lines[i].row < images[k].start_row + images[k].rows) by {
                if i < a.lines.len() {
                    assert(b.lines.subrange(0, a.lines.len() as int)[i] == a.lines[i]);
                }
            }
        }
    }
}

/// Rows taken stay taken when lines and images are only added.
proof fn lemma_row_taken_grows(
    lines: Seq<LineModel>,
    images: Seq<LaidOutImage>,
    lines2: Seq<LineModel>,
    images2: Seq<LaidOutImage>,
    r: int,
)
    requires
        row_taken(lines, images, r),
        lines.len() <= lines2.len(),
        lines2.subrange(0, lines.len() as int) == lines,
        images.len() <= images2.len(),
        images2.subrange(0, images.len() as int) == images,
    ensures
        row_taken(lines2, images2, r),
{
    if exists|i: int| 0 <= i < lines.len() && #[trigger] lines[i].row == r {
        let i = choose|i: int| 0 <= i < lines.len() && #[trigger] lines[i].row == r;
        assert(lines2.subrange(0, lines.len() as int)[i] == lines[i]);
        assert(lines2[i].row == r);
    } else {
        let k = choose|k: int|
            0 <= k < images.len() && #[trigger] images[k].start_row <= r < images[k].start_row
                + images[k].rows;
        assert(images2.subrange(0, images.len() as int)[k] == images[k]);
        assert(images2[k].start_row <= r < images2[k].start_row + images2[k].rows);
    }
}

/// Lines that continue the rows one by one leave no row untaken.
proof fn lemma_covered_continues(a: LayoutAcc, b: LayoutAcc, images: Seq<LaidOutImage>)
    requires
        continues(a, b),
        covered(a, images),
    ensures
        covered(b, images),
{
    if b.row < usize::MAX {
        assert(images.subrange(0, images.len() as int) =~= images);
        assert forall|r: int| 0 <= r < b.row implies #[trigger] row_taken(b.lines, images, r) by {
            if r < a.row {
                lemma_row_taken_grows(a.lines, images, b.lines, images, r);
            } else {
                let i = a.lines.len() + (r - a.row);
                assert(b.lines[i].row == r);
            }
        }
    }
}

proof fn lemma_rich_fold(
    acc: LayoutAcc,
    wrapped: Seq<Seq<SpanModel>>,
    prefix: Seq<char>,
    base: Style,
    n: nat,
    heading: Option<u8>,
    links: Seq<Seq<char>>,
)
    ensures
        continues(acc, rich_fold(acc, wrapped, prefix, base, n, heading, links)),
        rows_rise(acc) ==> rows_rise(rich_fold(acc, wrapped, prefix, base, n, heading, links)),
    decreases n,
{
    if n == 0 {
        lemma_continues_refl(acc);
    } else {
        let k = (n - 1) as int;
        let prev = rich_fold(acc, wrapped, prefix, base, (n - 1) as nat, heading, links);
        lemma_rich_fold(acc, wrapped, prefix, base, (n - 1) as nat, heading, links);
        let tsi: usize = if prefix.len() == 0 {
            0
        } else {
            1
        };
        let mark = if k == 0 {
            heading
        } else {
            None
        };
        let sp = rich_row_spans(k, wrapped[k], prefix, base);
        lemma_push_marked(prev, sp, line_text(wrapped[k]), tsi, mark, links);
        lemma_continues_trans(acc, prev, push_marked_line(prev, sp, line_text(wrapped[k]), tsi, mark, links));
    }
}

proof fn lemma_rich_lines(
    acc: LayoutAcc,
    inlines: Seq<InlineModel>,
    wrap_width: nat,
    base: Style,
    prefix: Seq<char>,
    heading: Option<u8>,
    links: Seq<Seq<char>>,
)
    ensures
        continues(acc, rich_lines(acc, inlines, wrap_width, base, prefix, heading, links)),
        rows_rise(acc) ==> rows_rise(rich_lines(acc, inlines, wrap_width, base, prefix, heading, links)),
{
    let wrapped = wrapped_inlines(inlines, wrap_width, base);
    lemma_rich_fold(acc, wrapped, prefix, base, wrapped.len(), heading, links);
}

proof fn lemma_decoration(acc: LayoutAcc, s: SpanModel)
    ensures
        continues(acc, push_decoration(acc, s)),
        rows_rise(acc) ==> rows_rise(push_decoration(acc, s)),
{
    lemma_push_line(acc, seq![s], Seq::empty(), 0);
}

proof fn lemma_heading_lines(acc: LayoutAcc, level: u8, inlines: Seq<InlineModel>, wrap_width: nat)
    ensures
        continues(acc, heading_lines(acc, level, inlines, wrap_width)),
        rows_rise(acc) ==> rows_rise(heading_lines(acc, level, inlines, wrap_width)),
{
    let w = max(wrap_width as int, 10);
    let s1 = span(
        repeat('═', min(trim(flatten(inlines)).len() as int, w) as nat),
        with_fg(plain(), Color::DarkGray),
    );
    let a1 = if level == 1 {
        push_decoration(acc, s1)
    } else {
        acc
    };
    if level == 1 {
        lemma_decoration(acc, s1);
    } else {
        lemma_continues_refl(acc);
    }
    let a2 = rich_lines(
        a1,
        inlines,
        wrap_width,
        heading_style(level),
        Seq::empty(),
        Some(level),
        links_of(inlines),
    );
    lemma_rich_lines(
        a1,
        inlines,
        wrap_width,
        heading_style(level),
        Seq::empty(),
        Some(level),
        links_of(inlines),
    );
    lemma_continues_trans(acc, a1, a2);
    if level <= 2 {
        let s2 = span(
            repeat(
                if level == 1 {
                    '═'
                } else {
                    '─'
                },
                min(flatten(inlines).len() as int, w) as nat,
            ),
            with_fg(plain(), Color::DarkGray),
        );
        lemma_decoration(a2, s2);
        lemma_continues_trans(acc, a2, push_decoration(a2, s2));
    }
}

proof fn lemma_quote_lines(acc: LayoutAcc, inlines: Seq<InlineModel>, wrap_width: nat)
    ensures
        continues(acc, quote_lines(acc, inlines, wrap_width)),
        rows_rise(acc) ==> rows_rise(quote_lines(acc, inlines, wrap_width)),
{
    let (label, body, color) = quote_parts(inlines);
    let s1 = span(label, with_modifier(with_bg(with_fg(plain(), Color::Black), color), BOLD));
    let a1 = push_decoration(acc, s1);
    lemma_decoration(acc, s1);
    let s2 = span(repeat('─', max(sub_sat(wrap_width as int, 4), 8) as nat), with_fg(plain(), color));
    let a2 = push_decoration(a1, s2);
    lemma_decoration(a1, s2);
    lemma_continues_trans(acc, a1, a2);
    lemma_rich_lines(
        a2,
        seq![InlineModel::Text(body)],
        sub_sat(wrap_width as int, 4) as nat,
        with_fg(plain(), color),
        quote_bar(),
        None,
        links_of(inlines),
    );
    lemma_continues_trans(
        acc,
        a2,
        rich_lines(
            a2,
            seq![InlineModel::Text(body)],
            sub_sat(wrap_width as int, 4) as nat,
            with_fg(plain(), color),
            quote_bar(),
            None,
            links_of(inlines),
        ),
    );
}

proof fn lemma_list_lines(acc: LayoutAcc, items: Seq<Seq<InlineModel>>, wrap_width: nat, n: nat)
    ensures
        continues(acc, list_lines(acc, items, wrap_width, n)),
        rows_rise(acc) ==> rows_rise(list_lines(acc, items, wrap_width, n)),
    decreases n,
{
    if n == 0 {
        lemma_continues_refl(acc);
    } else {
        let prev = list_lines(acc, items, wrap_width, (n - 1) as nat);
        lemma_list_lines(acc, items, wrap_width, (n - 1) as nat);
        lemma_rich_lines(
            prev,
            items[n - 1],
            sub_sat(wrap_width as int, 6) as nat,
            with_fg(plain(), Color::Gray),
            list_bullet(),
            None,
            links_of(items[n - 1]),
        );
        lemma_continues_trans(acc, prev, list_lines(acc, items, wrap_width, n));
    }
}

proof fn lemma_code_rows(acc: LayoutAcc, hl: Seq<Seq<SpanModel>>, raws: Seq<Seq<char>>, wrap: nat, n: nat)
    ensures
        continues(acc, code_rows(acc, hl, raws, wrap, n)),
        rows_rise(acc) ==> rows_rise(code_rows(acc, hl, raws, wrap, n)),
    decreases n,
{
    if n == 0 {
        lemma_continues_refl(acc);
    } else {
        let k = n - 1;
        let raw = if k < raws.len() {
            raws[k]
        } else {
            Seq::empty()
        };
        let fill = sub_sat(wrap as int, (raw.len() + 2) as int);
        let spans = seq![span(seq!['│', ' '], with_bg(with_fg(plain(), code_panel_edge()), code_panel_bg()))]
            + hl[k] + if fill > 0 {
            seq![span(repeat(' ', fill as nat), with_bg(plain(), code_panel_bg()))]
        } else {
            Seq::empty()
        };
        let prev = code_rows(acc, hl, raws, wrap, (n - 1) as nat);
        lemma_code_rows(acc, hl, raws, wrap, (n - 1) as nat);
        lemma_push_line(prev, spans, raw, 1);
        lemma_continues_trans(acc, prev, push_line(prev, spans, raw, 1));
    }
}

proof fn lemma_code_lines(acc: LayoutAcc, language: Seq<char>, code: Seq<char>, wrap: nat)
    ensures
        continues(acc, code_lines(acc, language, code, wrap)),
        rows_rise(acc) ==> rows_rise(code_lines(acc, language, code, wrap)),
{
    let s1 = span(
        seq!['╭'] + code_title(language),
        with_modifier(with_bg(with_fg(plain(), Color::Black), Color::Cyan), BOLD),
    );
    let a1 = push_decoration(acc, s1);
    lemma_decoration(acc, s1);
    let hl = code_highlight_lines(language, code);
    let a2 = code_rows(a1, hl, crate::text::str_lines(code), wrap, hl.len());
    lemma_code_rows(a1, hl, crate::text::str_lines(code), wrap, hl.len());
    lemma_continues_trans(acc, a1, a2);
    let s2 = span(
        seq!['╰'] + repeat('─', max(sub_sat(wrap as int, 2), 4) as nat),
        with_fg(plain(), code_panel_edge()),
    );
    lemma_decoration(a2, s2);
    lemma_continues_trans(acc, a2, push_decoration(a2, s2));
}

proof fn lemma_table_rows_fold(acc: LayoutAcc, texts: Seq<Seq<Seq<char>>>, widths: Seq<nat>, wrap: nat, n: nat)
    ensures
        continues(acc, table_rows_fold(acc, texts, widths, wrap, n)),
        rows_rise(acc) ==> rows_rise(table_rows_fold(acc, texts, widths, wrap, n)),
    decreases n,
{
    if n == 0 {
        lemma_continues_refl(acc);
    } else {
        let k = n - 1;
        let a = table_rows_fold(acc, texts, widths, wrap, (n - 1) as nat);
        lemma_table_rows_fold(acc, texts, widths, wrap, (n - 1) as nat);
        let spans = seq![
            span(
                table_row_text(texts[k], widths, wrap),
                if k == 0 {
                    header_style()
                } else {
                    with_fg(plain(), Color::Gray)
                },
            ),
        ];
        let a1 = push_line(a, spans, join_space(texts[k], texts[k].len()), 0);
        lemma_push_line(a, spans, join_space(texts[k], texts[k].len()), 0);
        lemma_continues_trans(acc, a, a1);
        let s = span(table_border('├', '┼', '┤', widths, wrap), with_fg(plain(), Color::DarkGray));
        lemma_decoration(a1, s);
        lemma_continues_trans(acc, a1, push_decoration(a1, s));
    }
}

proof fn lemma_table_lines(acc: LayoutAcc, rows: Seq<Seq<Seq<InlineModel>>>, wrap: nat)
    ensures
        continues(acc, table_lines(acc, rows, wrap)),
        rows_rise(acc) ==> rows_rise(table_lines(acc, rows, wrap)),
{
    if rows.len() == 0 {
        lemma_continues_refl(acc);
    } else {
        let texts = table_texts(rows);
        let ws = col_widths(texts);
        let s1 = span(table_border('┌', '┬', '┐', ws, wrap), with_fg(plain(), Color::DarkGray));
        let a1 = push_decoration(acc, s1);
        lemma_decoration(acc, s1);
        let a2 = table_rows_fold(a1, texts, ws, wrap, texts.len());
        lemma_table_rows_fold(a1, texts, ws, wrap, texts.len());
        lemma_continues_trans(acc, a1, a2);
        let s2 = span(table_border('└', '┴', '┘', ws, wrap), with_fg(plain(), Color::DarkGray));
        lemma_decoration(a2, s2);
        lemma_continues_trans(acc, a2, push_decoration(a2, s2));
    }
}

proof fn lemma_block_step(st: (LayoutAcc, Seq<LaidOutImage>), b: BlockModel, assets: Seq<AssetModel>, viewport: Viewport, scaled: Seq<Option<usize>>)
    requires
        rows_rise(st.0),
        images_apart(st.0, st.1),
        covered(st.0, st.1),
    ensures
        covered(
            block_step(st, b, assets, viewport, scaled).0,
            block_step(st, b, assets, viewport, scaled).1,
        ),
        rows_rise(block_step(st, b, assets, viewport, scaled).0),
        images_apart(
            block_step(st, b, assets, viewport, scaled).0,
            block_step(st, b, assets, viewport, scaled).1,
        ),
{
    let (acc, images) = st;
    let w = max(viewport.width as int, 10) as nat;
    match b {
        BlockModel::Heading(h) => {
            let a = heading_lines(acc, h.level, h.content, w);
            lemma_heading_lines(acc, h.level, h.content, w);
            lemma_decoration(a, span(Seq::empty(), plain()));
            lemma_continues_trans(acc, a, push_blank(a));
            lemma_step_keeps_images(acc, push_blank(a), images);
            lemma_covered_continues(acc, push_blank(a), images);
        },
        BlockModel::Paragraph(p) => {
            let a = rich_lines(
                acc,
                p.content,
                w,
                with_fg(plain(), Color::Gray),
                Seq::empty(),
                None,
                links_of(p.content),
            );
            lemma_rich_lines(
                acc,
                p.content,
                w,
                with_fg(plain(), Color::Gray),
                Seq::empty(),
                None,
                links_of(p.content),
            );
            lemma_decoration(a, span(Seq::empty(), plain()));
            lemma_continues_trans(acc, a, push_blank(a));
            lemma_step_keeps_images(acc, push_blank(a), images);
            lemma_covered_continues(acc, push_blank(a), images);
        },
        BlockModel::Quote(q) => {
            let a = quote_lines(acc, q.content, w);
            lemma_quote_lines(acc, q.content, w);
            lemma_decoration(a, span(Seq::empty(), plain()));
            lemma_continues_trans(acc, a, push_blank(a));
            lemma_step_keeps_images(acc, push_blank(a), images);
            lemma_covered_continues(acc, push_blank(a), images);
        },
        BlockModel::List(l) => {
            let a = list_lines(acc, l.items, w, l.items.len());
            lemma_list_lines(acc, l.items, w, l.items.len());
            lemma_decoration(a, span(Seq::empty(), plain()));
            lemma_continues_trans(acc, a, push_blank(a));
            lemma_step_keeps_images(acc, push_blank(a), images);
            lemma_covered_continues(acc, push_blank(a), images);
        },
        BlockModel::Code(c) => {
            let a = code_lines(acc, c.language, c.code, w);
            lemma_code_lines(acc, c.language, c.code, w);
            lemma_decoration(a, span(Seq::empty(), plain()));
            lemma_continues_trans(acc, a, push_blank(a));
            lemma_step_keeps_images(acc, push_blank(a), images);
            lemma_covered_continues(acc, push_blank(a), images);
        },
        BlockModel::Table(t) => {
            let a = table_lines(acc, t.rows, w);
            lemma_table_lines(acc, t.rows, w);
            lemma_decoration(a, span(Seq::empty(), plain()));
            lemma_continues_trans(acc, a, push_blank(a));
            lemma_step_keeps_images(acc, push_blank(a), images);
            lemma_covered_continues(acc, push_blank(a), images);
        },
        BlockModel::Rule => {
            let s = span(repeat('─', min(w as int, 80) as nat), with_fg(plain(), Color::DarkGray));
            lemma_decoration(acc, s);
            lemma_step_keeps_images(acc, push_decoration(acc, s), images);
            lemma_covered_continues(acc, push_decoration(acc, s), images);
        },
        BlockModel::Image(i) => {
            let rows = image_rows(assets, i.asset_id, i.display, scaled);
            let img = LaidOutImage {
                block_id: i.id,
                asset_id: i.asset_id,
                start_row: acc.row,
                rows,
                cols: image_cols(viewport.width),
                display: i.display,
            };
            let acc2 = LayoutAcc {
                row: add_sat(acc.row as int, rows as int),
                lines: acc.lines,
                searchable: acc.searchable + image_marker(i.alt),
            };
            let fin = push_blank(acc2);
            let ims = images.push(img);
            assert(acc2.lines.subrange(0, acc.lines.len() as int) =~= acc.lines);
            assert(extends(acc, acc2));
            assert(rows_rise(acc2));
            lemma_decoration(acc2, span(Seq::empty(), plain()));
            lemma_step_keeps_images(acc, acc2, images);
            lemma_step_keeps_images(acc2, fin, images);
            if acc2.row < usize::MAX {
                assert(acc2.row == acc.row + rows);
                assert(acc.lines.subrange(0, acc.lines.len() as int) =~= acc.lines);
                assert(ims.subrange(0, images.len() as int) =~= images);
                assert forall|r: int| 0 <= r < acc2.row implies #[trigger] row_taken(
                    acc2.lines,
                    ims,
                    r,
                ) by {
                    if r < acc.row {
                        lemma_row_taken_grows(acc.lines, images, acc2.lines, ims, r);
                    } else {
                        let k = images.len() as int;
                        assert(ims[k] == img);
                        assert(ims[k].start_row <= r < ims[k].start_row + ims[k].rows);
                    }
                }
            }
            assert(covered(acc2, ims));
            lemma_covered_continues(acc2, fin, ims);
            if fin.row < usize::MAX {
                assert(acc2.row == acc.row + rows);
                assert forall|k: int| 0 <= k < ims.len() implies {
                    &&& #[trigger] ims[k].start_row + ims[k].rows <= fin.row
                    &&& forall|x: int|
                        0 <= x < fin.lines.len() ==> !(ims[k].start_row <= #[trigger] fin.lines[x].row
                            < ims[k].start_row + ims[k].rows)
                } by {
                    if k < images.len() {
                        assert(ims[k] == images[k]);
                    } else {
                        assert(ims[k] == img);
                        assert forall|x: int| 0 <= x < fin.lines.len() implies !(ims[k].start_row
                            <= #[trigger] fin.lines[x].row < ims[k].start_row + ims[k].rows) by {
                            if x < acc.lines.len() {
                                assert(fin.lines[x] == acc.lines[x]);
                            }
                        }
                    }
                }
            }
        },
    }
}

proof fn lemma_blocks_fold(blocks: Seq<BlockModel>, assets: Seq<AssetModel>, viewport: Viewport, scaled: Seq<Option<usize>>)
    ensures
        rows_rise(blocks_fold(blocks, assets, viewport, scaled).0),
        images_apart(
            blocks_fold(blocks, assets, viewport, scaled).0,
            blocks_fold(blocks, assets, viewport, scaled).1,
        ),
        covered(
            blocks_fold(blocks, assets, viewport, scaled).0,
            blocks_fold(blocks, assets, viewport, scaled).1,
        ),
    decreases blocks.len(),
{
    if blocks.len() > 0 {
        lemma_blocks_fold(blocks.drop_last(), assets, viewport, scaled);
        lemma_block_step(
            blocks_fold(blocks.drop_last(), assets, viewport, scaled),
            blocks.last(),
            assets,
            viewport,
            scaled,
        );
    }
}

/// In a laid-out slide (unless its row count reaches `usize::MAX`) the rows
/// `0 .. total_rows` are tiled: the lines' rows rise strictly and lie below the
/// total, every image's rows lie below the total and hold no line, each image
/// ends before the next one starts, and every row below the total holds a
/// line or lies among an image's rows.
pub proof fn lemma_layout_rows(slide: SlideModel, viewport: Viewport, scaled: Seq<Option<usize>>)
    ensures
        ({
            let l = layout_of(slide, viewport, scaled);
            l.total_rows < usize::MAX ==> {
                &&& forall|i: int, j: int|
                    0 <= i < j < l.lines.len() ==> #[trigger] l.lines[i].row < #[trigger] l.lines[j].row
                &&& forall|i: int| 0 <= i < l.lines.len() ==> #[trigger] l.lines[i].row < l.total_rows
                &&& forall|k: int|
                    0 <= k < l.images.len() ==> #[trigger] l.images[k].start_row + l.images[k].rows
                        <= l.total_rows
                &&& forall|k: int, i: int|
                    0 <= k < l.images.len() && 0 <= i < l.lines.len() ==> !(
                    #[trigger] l.images[k].start_row <= #[trigger] l.lines[i].row
                        < l.images[k].start_row + l.images[k].rows)
                &&& forall|k: int, m: int|
                    0 <= k < m < l.images.len() ==> #[trigger] l.images[k].start_row
                        + l.images[k].rows <= #[trigger] l.images[m].start_row
                &&& forall|r: int|
                    0 <= r < l.total_rows ==> #[trigger] row_taken(l.lines, l.images, r)
            }
        }),
{
    lemma_blocks_fold(slide.blocks, slide.assets, viewport, scaled);
}

/// The image blocks among `blocks`, in order.
pub open spec fn image_blocks(blocks: Seq<BlockModel>) -> Seq<ImageModel>
    decreases blocks.len(),
{
    if blocks.len() == 0 {
        Seq::empty()
    } else {
        let prev = image_blocks(blocks.drop_last());
        match blocks.last() {
            BlockModel::Image(i) => prev.push(i),
            _ => prev,
        }
    }
}

/// The `k`-th laid-out image is the `k`-th image block, drawn across
/// `image_cols` of the viewport's width and down its own number of rows.
pub open spec fn image_laid_out(im: LaidOutImage, b: ImageModel, assets: Seq<AssetModel>, viewport: Viewport, scaled: Seq<Option<usize>>) -> bool {
    &&& im.block_id == b.id
    &&& im.asset_id == b.asset_id
    &&& im.display == b.display
    &&& im.rows == image_rows(assets, b.asset_id, b.display, scaled)
    &&& im.rows >= 6
    &&& im.cols == image_cols(viewport.width)
}

proof fn lemma_fold_images(blocks: Seq<BlockModel>, assets: Seq<AssetModel>, viewport: Viewport, scaled: Seq<Option<usize>>)
    ensures
        blocks_fold(blocks, assets, viewport, scaled).1.len() == image_blocks(blocks).len(),
        forall|k: int|
            0 <= k < image_blocks(blocks).len() ==> image_laid_out(
                #[trigger] blocks_fold(blocks, assets, viewport, scaled).1[k],
                image_blocks(blocks)[k],
                assets,
                viewport,
                scaled,
            ),
    decreases blocks.len(),
{
    if blocks.len() > 0 {
        let prev = blocks_fold(blocks.drop_last(), assets, viewport, scaled);
        lemma_fold_images(blocks.drop_last(), assets, viewport, scaled);
        let r = blocks_fold(blocks, assets, viewport, scaled);
        let pb = image_blocks(blocks.drop_last());
        let ib = image_blocks(blocks);
        match blocks.last() {
            BlockModel::Image(i) => {
                assert(r.1.drop_last() == prev.1);
                assert forall|k: int| 0 <= k < ib.len() implies image_laid_out(
                    #[trigger] r.1[k],
                    ib[k],
                    assets,
                    viewport,
                    scaled,
                ) by {
                    if k < pb.len() {
                        assert(r.1[k] == prev.1[k]);
                        assert(ib[k] == pb[k]);
                    }
                }
            },
            _ => {
                assert(r.1 == prev.1);
                assert(ib == pb);
            },
        }
    }
}

/// A laid-out slide has one image per image block, in block order: the
/// `k`-th image carries the `k`-th image block's identifier, asset and
/// display, takes `image_rows` rows (6 at least) and is drawn across
/// `image_cols` of the viewport's width.
pub proof fn lemma_layout_images(slide: SlideModel, viewport: Viewport, scaled: Seq<Option<usize>>)
    ensures
        layout_of(slide, viewport, scaled).images.len() == image_blocks(slide.blocks).len(),
        forall|k: int|
            0 <= k < image_blocks(slide.blocks).len() ==> image_laid_out(
                #[trigger] layout_of(slide, viewport, scaled).images[k],
                image_blocks(slide.blocks)[k],
                slide.assets,
                viewport,
                scaled,
            ),
{
    lemma_fold_images(slide.blocks, slide.assets, viewport, scaled);
}

/// A table cell is cut only when it does not fit: a text no longer than the
/// width comes back unchanged, and a longer one keeps its first `w - 1`
/// characters (none when `w` is 0) followed by an ellipsis, so that it takes
/// exactly the width (one character when `w` is 0).
pub proof fn lemma_truncate_fits(s: Seq<char>, w: nat)
    ensures
        s.len() <= w ==> truncate(s, w) == s,
        s.len() > w ==> {
            &&& truncate(s, w).len() == if w == 0 {
                1
            } else {
                w
            }
            &&& truncate(s, w).last() == '…'
            &&& truncate(s, w).drop_last() == s.take(truncate(s, w).len() - 1)
        },
{
    if s.len() > w {
        let t = truncate(s, w);
        assert(t.drop_last() =~= s.take(t.len() - 1));
    }
}

/// A table row shows each cell that fits its column's drawn width whole: the
/// row's text after the cells before it is a blank, the cell, blanks up to
/// the width, and the column's closing bar.
pub proof fn lemma_fitting_cell_shown(cells: Seq<Seq<char>>, widths: Seq<nat>, wrap: nat, j: int)
    requires
        0 <= j < cells.len(),
        cells[j].len() <= col_cap(widths, j, wrap),
    ensures
        row_body(cells, widths, wrap, (j + 1) as nat) == row_body(cells, widths, wrap, j as nat)
            + seq![' '] + cells[j] + repeat(' ', (col_cap(widths, j, wrap) - cells[j].len()) as nat)
            + seq![' ', '│'],
{
    lemma_truncate_fits(cells[j], col_cap(widths, j, wrap));
    assert(row_body(cells, widths, wrap, (j + 1) as nat) =~= row_body(cells, widths, wrap, j as nat)
        + seq![' '] + cells[j] + repeat(' ', (col_cap(widths, j, wrap) - cells[j].len()) as nat)
        + seq![' ', '│']);
}

/// A column is as wide as its widest cell: no cell of the column is longer,
/// and (unless the column is empty) some cell is exactly that long; no row has
/// more cells than the longest row.
pub proof fn lemma_col_width_widest(texts: Seq<Seq<Seq<char>>>, j: int)
    requires
        0 <= j,
    ensures
        forall|r: int|
            0 <= r < texts.len() && j < texts[r].len() ==> (#[trigger] texts[r][j]).len()
                <= col_width(texts, j),
        forall|r: int| 0 <= r < texts.len() ==> (#[trigger] texts[r]).len() <= max_row_len(texts),
        col_width(texts, j) == 0 || exists|r: int|
            0 <= r < texts.len() && j < texts[r].len() && (#[trigger] texts[r][j]).len()
                == col_width(texts, j),
    decreases texts.len(),
{
    if texts.len() > 0 {
        let init = texts.drop_last();
        lemma_col_width_widest(init, j);
        assert forall|r: int| 0 <= r < init.len() implies #[trigger] texts[r] == init[r] by {}
        if col_width(texts, j) != 0 && col_width(texts, j) != col_width(init, j) {
            let r = texts.len() - 1;
            assert(texts[r] == texts.last());
            assert(texts[r][j].len() == col_width(texts, j));
        } else if col_width(texts, j) != 0 {
            let r = choose|r: int|
                0 <= r < init.len() && j < init[r].len() && (#[trigger] init[r][j]).len()
                    == col_width(init, j);
            assert(texts[r][j] == init[r][j]);
        }
    }
}

/// In a table whose columns all fit their equal share of the wrap width,
/// every row shows every one of its cells whole.
pub proof fn lemma_table_cells_shown_whole(texts: Seq<Seq<Seq<char>>>, wrap: nat, r: int, j: int)
    requires
        0 <= r < texts.len(),
        0 <= j < texts[r].len(),
        forall|k: int|
            0 <= k < max_row_len(texts) ==> #[trigger] col_width(texts, k) <= wrap as int / max(
                max_row_len(texts) as int,
                1,
            ),
    ensures
        row_body(texts[r], col_widths(texts), wrap, (j + 1) as nat) == row_body(
            texts[r],
            col_widths(texts),
            wrap,
            j as nat,
        ) + seq![' '] + texts[r][j] + repeat(
            ' ',
            (col_cap(col_widths(texts), j, wrap) - texts[r][j].len()) as nat,
        ) + seq![' ', '│'],
{
    lemma_col_width_widest(texts, j);
    assert(texts[r][j].len() <= col_width(texts, j));
    assert(texts[r].len() <= max_row_len(texts));
    assert(col_width(texts, j) <= wrap as int / max(max_row_len(texts) as int, 1));
    lemma_fitting_cell_shown(texts[r], col_widths(texts), wrap, j);
}

} // verus!

verus! {

// ---------------------------------------------------------------------------
// Wrapping keeps within the width
// ---------------------------------------------------------------------------

proof fn lemma_split_fold_nonempty(text: Seq<char>, style: Style)
    ensures
        forall|i: int|
            0 <= i < split_fold(text, style).0.len() ==> (#[trigger] split_fold(text, style).0[i]).content.len()
                >= 1,
    decreases text.len(),
{
    if text.len() > 0 {
        lemma_split_fold_nonempty(text.drop_last(), style);
        let prev = split_fold(text.drop_last(), style);
        let r = split_fold(text, style);
        let ch = text.last();
        assert forall|i: int| 0 <= i < r.0.len() implies (#[trigger] r.0[i]).content.len() >= 1 by {
            if i < prev.0.len() {
                if ch == '\n' {
                    let out1 = if prev.1.len() > 0 {
                        prev.0.push(span(prev.1, style))
                    } else {
                        prev.0
                    };
                    assert(r.0 == out1.push(span(seq!['\n'], style)));
                    assert(r.0[i] == out1[i]);
                    assert(out1[i] == prev.0[i]);
                } else if is_ws(ch) {
                    assert(r.0[i] == prev.0[i]);
                } else {
                    assert(r.0[i] == prev.0[i]);
                }
            }
        }
    }
}

proof fn lemma_pieces_nonempty(chunks: Seq<SpanModel>)
    ensures
        forall|i: int| 0 <= i < pieces_of(chunks).len() ==> (#[trigger] pieces_of(chunks)[i]).content.len() >= 1,
    decreases chunks.len(),
{
    if chunks.len() > 0 {
        lemma_pieces_nonempty(chunks.drop_last());
        let c = chunks.last();
        lemma_split_fold_nonempty(c.content, c.style);
        let prev = pieces_of(chunks.drop_last());
        let sc = split_chunk(c);
        let r = pieces_of(chunks);
        assert(r == prev + sc);
        assert forall|i: int| 0 <= i < r.len() implies (#[trigger] r[i]).content.len() >= 1 by {
            if i < prev.len() {
                assert(r[i] == prev[i]);
            } else {
                assert(r[i] == sc[i - prev.len()]);
                let sf = split_fold(c.content, c.style);
                if i - prev.len() < sf.0.len() {
                    assert(sc[i - prev.len()] == sf.0[i - prev.len()]);
                }
            }
        }
    }
}

/// Whether a wrapped line keeps within `width` columns or is one piece alone.
pub open spec fn fits_or_single(line: Seq<SpanModel>, width: nat) -> bool {
    line_text(line).len() <= width || line.len() == 1
}

proof fn lemma_line_text_push(l: Seq<SpanModel>, p: SpanModel)
    ensures
        line_text(l.push(p)) == line_text(l) + p.content,
{
    assert(l.push(p).drop_last() =~= l);
}

proof fn lemma_wrap_fold(pieces: Seq<SpanModel>, width: nat)
    requires
        forall|i: int| 0 <= i < pieces.len() ==> (#[trigger] pieces[i]).content.len() >= 1,
    ensures
        ({
            let (lines, cur, cw) = wrap_fold(pieces, width);
            &&& cw == line_text(cur).len()
            &&& cur.len() <= cw
            &&& fits_or_single(cur, width)
            &&& forall|i: int| 0 <= i < lines.len() ==> fits_or_single(#[trigger] lines[i], width)
        }),
    decreases pieces.len(),
{
    if pieces.len() > 0 {
        let init = pieces.drop_last();
        assert forall|i: int| 0 <= i < init.len() implies (#[trigger] init[i]).content.len() >= 1 by {
            assert(init[i] == pieces[i]);
        }
        lemma_wrap_fold(init, width);
        let (lines, cur, cw) = wrap_fold(init, width);
        let p = pieces.last();
        assert(p == pieces[pieces.len() - 1]);
        let (lines2, cur2, cw2) = wrap_fold(pieces, width);
        if p.content == seq!['\n'] {
            assert(lines2 == lines.push(finish_line(cur)));
            assert(line_text(Seq::<SpanModel>::empty()) == Seq::<char>::empty());
            assert forall|i: int| 0 <= i < lines2.len() implies fits_or_single(#[trigger] lines2[i], width) by {
                if i < lines.len() {
                    assert(lines2[i] == lines[i]);
                }
            }
        } else if cw > 0 && cw + p.content.len() > width {
            assert(lines2 == lines.push(finish_line(cur)));
            assert(cur.len() > 0 || line_text(cur).len() == 0);
            lemma_line_text_push(Seq::empty(), p);
            assert(seq![p] == Seq::<SpanModel>::empty().push(p));
            assert forall|i: int| 0 <= i < lines2.len() implies fits_or_single(#[trigger] lines2[i], width) by {
                if i < lines.len() {
                    assert(lines2[i] == lines[i]);
                } else {
                    if cur.len() == 0 {
                        assert(line_text(cur) =~= Seq::<char>::empty());
                    }
                }
            }
        } else {
            lemma_line_text_push(cur, p);
            if cw == 0 {
                assert(cur.len() == 0);
                assert(cur.push(p).len() == 1);
            }
        }
    }
}

/// Wrapping inline text at `wrap_width` (1 at least) gives lines that keep
/// within that many columns, except a line holding a single word that is
/// longer by itself.
pub proof fn lemma_wrapped_lines_fit(inlines: Seq<InlineModel>, wrap_width: nat, base: Style)
    ensures
        forall|i: int|
            0 <= i < wrapped_inlines(inlines, wrap_width, base).len() ==> fits_or_single(
                #[trigger] wrapped_inlines(inlines, wrap_width, base)[i],
                max(wrap_width as int, 1) as nat,
            ),
{
    let pieces = pieces_of(styled_chunks(inlines, base));
    lemma_pieces_nonempty(styled_chunks(inlines, base));
    let w = max(wrap_width as int, 1) as nat;
    lemma_wrap_fold(pieces, w);
    let (lines, cur, cw) = wrap_fold(pieces, w);
    let r = wrap_pieces(pieces, w);
    assert(r == lines.push(finish_line(cur)));
    assert forall|i: int| 0 <= i < r.len() implies fits_or_single(#[trigger] r[i], w) by {
        if i < lines.len() {
            assert(r[i] == lines[i]);
        } else {
            if cur.len() == 0 {
                assert(line_text(seq![span(Seq::<char>::empty(), plain())]) =~= Seq::<char>::empty()) by {
                    lemma_line_text_push(Seq::empty(), span(Seq::<char>::empty(), plain()));
                    assert(seq![span(Seq::<char>::empty(), plain())] == Seq::<SpanModel>::empty().push(
                        span(Seq::<char>::empty(), plain()),
                    ));
                }
            }
        }
    }
}

} // verus!
