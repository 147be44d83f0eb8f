//! Rendering a plain slide's markdown straight to styled lines.
//!
//! Image lines are first replaced by numbered markers, so that the renderer
//! leaves a slot of blank lines where each image goes. A slide that opens with
//! a pipe table is drawn as that table; any other slide goes through the
//! markdown event stream, folded by the state machine `render_step`.
use crate::cmark::{cmark_events, markdown_events, MdEvent, MdEventModel, MdTag, MdTagEnd, MdTagModel};
use crate::highlight::{github_highlight, highlight_github, RunModel, StyledRun};
use crate::markdown::{lemma_deep_view_empty, lemma_deep_view_push};
use crate::slides::link_at;
use crate::style::{
    plain, span, with_bg, with_fg, with_modifier, Color, Line, Span, SpanModel, Style, BOLD,
    ITALIC, UNDERLINED,
};
use crate::text::{
    all_ws, chars_of, copy_string, decimal, has_prefix, is_whitespace, is_ws, parse_u64,
    parse_unsigned, push_char, push_chars, push_decimal, push_str, repeat, split_on, split_on_exec,
    starts_with_at,
    str_lines, str_lines_exec, string_of, substring, take_string, take_vec, to_owned_string,
    trim, trim_string,
};
use vstd::prelude::*;
use vstd::string::StringExecFns;
use vstd::utf8::encode_utf8;

verus! {

/// Where the rendering leaves room for an image.
#[derive(Clone, Copy, Debug, PartialEq, Eq, Structural)]
pub struct ImageSlot {
    pub image_index: usize,
    pub start_line: usize,
    pub rows: usize,
}

/// A rendered slide: its lines and the slots its images go in.
#[derive(Debug)]
pub struct RenderedMarkdown {
    pub lines: Vec<Line>,
    pub image_slots: Vec<ImageSlot>,
}

pub struct RenderedModel {
    pub lines: Seq<Seq<SpanModel>>,
    pub image_slots: Seq<ImageSlot>,
}

impl View for RenderedMarkdown {
    type V = RenderedModel;

    open spec fn view(&self) -> RenderedModel {
        RenderedModel { lines: self.lines.deep_view(), image_slots: self.image_slots@ }
    }
}

// ---------------------------------------------------------------------------
// Image lines and their slots
// ---------------------------------------------------------------------------

/// The marker text that stands for image `k`.
pub open spec fn slot_marker(k: nat) -> Seq<char> {
    seq!['S', 'S', '_', 'I', 'M', 'A', 'G', 'E', '_', 'S', 'L', 'O', 'T', '_'] + decimal(k)
}

/// A line that holds nothing but an image link `![alt](target)`.
pub open spec fn is_image_line(line: Seq<char>) -> bool {
    let t = trim(line);
    match link_at(t, 0) {
        Some((a, b)) => b == t.len() - 1,
        None => false,
    }
}

/// The content with each image line replaced by its marker (lines end in
/// `\n`), and the number of images.
pub open spec fn preprocess(lines: Seq<Seq<char>>) -> (Seq<char>, nat)
    decreases lines.len(),
{
    if lines.len() == 0 {
        (Seq::empty(), 0)
    } else {
        let prev = preprocess(lines.drop_last());
        if is_image_line(lines.last()) {
            (prev.0 + slot_marker(prev.1) + seq!['\n'], prev.1 + 1)
        } else {
            (prev.0 + lines.last() + seq!['\n'], prev.1)
        }
    }
}

/// A fresh slot for image `k`: ten rows, not yet placed.
pub open spec fn fresh_slot(k: int) -> ImageSlot {
    ImageSlot { image_index: k as usize, start_line: 0, rows: 10 }
}

/// The slots of the first `n` images.
pub open spec fn fresh_slots(n: nat) -> Seq<ImageSlot> {
    Seq::new(n, |k: int| fresh_slot(k))
}

/// The image number a line's marker names, if it is a marker.
pub open spec fn slot_marker_index(line: Seq<char>) -> Option<usize> {
    let t = trim(line);
    let p = seq!['S', 'S', '_', 'I', 'M', 'A', 'G', 'E', '_', 'S', 'L', 'O', 'T', '_'];
    if has_prefix(t, p) {
        match parse_unsigned(t.skip(14), usize::MAX as nat) {
            Some(v) => Some(v as usize),
            None => None,
        }
    } else {
        None
    }
}

/// The text of a rendered line.
pub open spec fn line_text(l: Seq<SpanModel>) -> Seq<char>
    decreases l.len(),
{
    if l.len() == 0 {
        Seq::empty()
    } else {
        line_text(l.drop_last()) + l.last().content
    }
}

/// Placing image slots: each marker line whose image has a slot becomes that
/// slot's blank rows, and the slot records where they start.
pub open spec fn place_slots(lines: Seq<Seq<SpanModel>>, slots: Seq<ImageSlot>) -> (
    Seq<Seq<SpanModel>>,
    Seq<ImageSlot>,
)
    decreases lines.len(),
{
    if lines.len() == 0 {
        (Seq::empty(), slots)
    } else {
        let prev = place_slots(lines.drop_last(), slots);
        let l = lines.last();
        match slot_marker_index(line_text(l)) {
            Some(k) => if k < prev.1.len() {
                let slot = prev.1[k as int];
                (
                    prev.0 + Seq::new(slot.rows as nat, |i: int| Seq::<SpanModel>::empty()),
                    prev.1.update(k as int, ImageSlot { start_line: prev.0.len() as usize, ..slot }),
                )
            } else {
                (prev.0.push(l), prev.1)
            },
            None => (prev.0.push(l), prev.1),
        }
    }
}

// ---------------------------------------------------------------------------
// Pipe tables
// ---------------------------------------------------------------------------

/// Whether `c` occurs in `s`.
pub open spec fn has_char(s: Seq<char>, c: char) -> bool {
    exists|i: int| 0 <= i < s.len() && s[i] == c
}

/// A table row: a line with a `|` that, trimmed, starts and ends with `|`.
pub open spec fn looks_like_row(line: Seq<char>) -> bool {
    let t = trim(line);
    has_char(line, '|') && t.len() > 0 && t[0] == '|' && t.last() == '|'
}

/// A separator row: a trimmed line with a `|`, made of `|`, `-`, `:` and white space.
pub open spec fn looks_like_separator(line: Seq<char>) -> bool {
    let t = trim(line);
    has_char(t, '|') && forall|i: int| 0 <= i < t.len() ==> #[trigger] separator_char(t[i])
}

/// A character a separator row may hold.
pub open spec fn separator_char(c: char) -> bool {
    c == '|' || c == '-' || c == ':' || is_ws(c)
}

/// `s` without leading and trailing `|`.
pub open spec fn trim_pipes(s: Seq<char>) -> Seq<char>
    decreases s.len(),
{
    if s.len() > 0 && s[0] == '|' {
        trim_pipes(s.drop_first())
    } else if s.len() > 0 && s.last() == '|' {
        trim_pipes(s.drop_last())
    } else {
        s
    }
}

/// The trimmed cells of a table row.
pub open spec fn row_cells(line: Seq<char>) -> Seq<Seq<char>> {
    split_on(trim_pipes(trim(line)), '|').map_values(|c: Seq<char>| trim(c))
}

/// The rows that follow while lines look like rows.
pub open spec fn rows_while(lines: Seq<Seq<char>>) -> Seq<Seq<Seq<char>>>
    decreases lines.len(),
{
    if lines.len() == 0 || !looks_like_row(lines[0]) {
        Seq::empty()
    } else {
        seq![row_cells(lines[0])] + rows_while(lines.drop_first())
    }
}

/// The rows of the table a text opens with: a header row, a separator row,
/// then the rows that follow; `None` when the text does not open with one.
pub open spec fn opening_table(lines: Seq<Seq<char>>) -> Option<Seq<Seq<Seq<char>>>> {
    if lines.len() < 2 || !looks_like_row(lines[0]) || !looks_like_separator(lines[1]) {
        None
    } else {
        Some(seq![row_cells(lines[0])] + rows_while(lines.skip(2)))
    }
}

/// The widest row.
pub open spec fn column_count(rows: Seq<Seq<Seq<char>>>) -> nat
    decreases rows.len(),
{
    if rows.len() == 0 {
        0
    } else {
        let c = column_count(rows.drop_last());
        if rows.last().len() > c {
            rows.last().len()
        } else {
            c
        }
    }
}

/// The width of column `i`: the longest trimmed cell in it, in UTF-8 bytes.
pub open spec fn column_width(rows: Seq<Seq<Seq<char>>>, i: int) -> nat
    decreases rows.len(),
{
    if rows.len() == 0 {
        0
    } else {
        let w = column_width(rows.drop_last(), i);
        let c = if 0 <= i < rows.last().len() {
            byte_len(trim(rows.last()[i]))
        } else {
            0
        };
        if c > w {
            c
        } else {
            w
        }
    }
}

/// The length of a text in UTF-8 bytes, as `str::len` reports it.
pub open spec fn byte_len(s: Seq<char>) -> nat {
    (encode_utf8(s).len() as usize) as nat
}

/// `value` padded with spaces to `width` characters.
pub open spec fn pad_right(value: Seq<char>, width: nat) -> Seq<char> {
    if value.len() < width {
        value + repeat(' ', (width - value.len()) as nat)
    } else {
        value
    }
}

pub open spec fn border_style() -> Style {
    with_fg(plain(), Color::DarkGray)
}

pub open spec fn header_style() -> Style {
    with_modifier(with_fg(plain(), Color::Green), BOLD)
}

/// The spans of one table row.
pub open spec fn table_row_spans(row: Seq<Seq<char>>, widths: Seq<nat>, header: bool) -> Seq<SpanModel>
    decreases widths.len(),
{
    if widths.len() == 0 {
        seq![span(seq!['│', ' '], border_style())]
    } else {
        let i = widths.len() - 1;
        let value = if i < row.len() {
            trim(row[i])
        } else {
            Seq::empty()
        };
        table_row_spans(row, widths.drop_last(), header).push(
            span(pad_right(value, widths.last()), if header { header_style() } else { plain() }),
        ).push(span(seq![' ', '│', ' '], border_style()))
    }
}

/// The separator line under the header.
pub open spec fn separator_spans(widths: Seq<nat>, total: nat) -> Seq<SpanModel>
    decreases widths.len(),
{
    if widths.len() == 0 {
        seq![span(seq!['├'], border_style())]
    } else {
        let i = widths.len() - 1;
        separator_spans(widths.drop_last(), total).push(
            span(repeat('─', widths.last() + 2), border_style()),
        ).push(span(if i + 1 == total { seq!['┤'] } else { seq!['┼'] }, border_style()))
    }
}

/// The widths of all columns.
pub open spec fn table_widths(rows: Seq<Seq<Seq<char>>>) -> Seq<nat> {
    Seq::new(column_count(rows), |i: int| column_width(rows, i))
}

/// The lines of a table: each row, and the separator after the header.
pub open spec fn table_lines_from(rows: Seq<Seq<Seq<char>>>, widths: Seq<nat>) -> Seq<Seq<SpanModel>>
    decreases rows.len(),
{
    if rows.len() == 0 {
        Seq::empty()
    } else {
        let prev = table_lines_from(rows.drop_last(), widths);
        let ri = rows.len() - 1;
        let line = table_row_spans(rows.last(), widths, ri == 0);
        if ri == 0 {
            prev.push(line).push(separator_spans(widths, widths.len()))
        } else {
            prev.push(line)
        }
    }
}

/// The lines a text's opening table renders to; empty without one.
pub open spec fn pipe_table_lines(content: Seq<char>) -> Seq<Seq<SpanModel>> {
    match opening_table(str_lines(content)) {
        Some(rows) => table_lines_from(rows, table_widths(rows)),
        None => Seq::empty(),
    }
}

// ---------------------------------------------------------------------------
// Styles
// ---------------------------------------------------------------------------

/// The style of heading text of level `level`.
pub open spec fn heading_style(level: u8) -> Style {
    if level == 1 {
        with_modifier(with_fg(plain(), Color::Yellow), BOLD)
    } else if level == 2 {
        with_modifier(with_fg(plain(), Color::Green), BOLD)
    } else if level == 3 {
        with_modifier(with_fg(plain(), Color::Cyan), BOLD)
    } else {
        with_modifier(plain(), BOLD)
    }
}

/// The style of text in the given context.
pub open spec fn text_style(
    heading: Option<u8>,
    code_block: bool,
    blockquote: bool,
    emph: bool,
    strong: bool,
    link: bool,
) -> Style {
    let s0 = match heading {
        Some(l) => heading_style(l),
        None => plain(),
    };
    let s1 = if code_block {
        with_fg(with_bg(s0, Color::DarkGray), Color::White)
    } else {
        s0
    };
    let s2 = if blockquote {
        with_fg(s1, Color::Magenta)
    } else {
        s1
    };
    let s3 = if emph {
        with_modifier(s2, ITALIC)
    } else {
        s2
    };
    let s4 = if strong {
        with_modifier(s3, BOLD)
    } else {
        s3
    };
    if link {
        with_modifier(with_fg(s4, Color::Blue), UNDERLINED)
    } else {
        s4
    }
}

/// The style of a highlighted run.
pub open spec fn run_style(r: RunModel) -> Style {
    let s0 = with_bg(
        with_fg(plain(), Color::Rgb(r.fg.0, r.fg.1, r.fg.2)),
        Color::Rgb(r.bg.0, r.bg.1, r.bg.2),
    );
    let s1 = if r.font_style & 1 != 0 {
        with_modifier(s0, BOLD)
    } else {
        s0
    };
    let s2 = if r.font_style & 4 != 0 {
        with_modifier(s1, ITALIC)
    } else {
        s1
    };
    if r.font_style & 2 != 0 {
        with_modifier(s2, UNDERLINED)
    } else {
        s2
    }
}

/// The lines of a highlighted code block (one empty line for no code).
pub open spec fn code_block_lines(language: Seq<char>, text: Seq<char>) -> Seq<Seq<SpanModel>> {
    styled_lines(github_highlight(language, text))
}

/// Highlighted lines as lines of spans, each run in its style; one empty
/// line when there is none.
pub open spec fn styled_lines(runs: Seq<Seq<RunModel>>) -> Seq<Seq<SpanModel>> {
    let h = runs.map_values(|l: Seq<RunModel>| l.map_values(|r: RunModel| span(r.text, run_style(r))));
    if h.len() == 0 {
        seq![Seq::empty()]
    } else {
        h
    }
}

} // verus!

verus! {

// ---------------------------------------------------------------------------
// The renderer's state machine
// ---------------------------------------------------------------------------

/// The renderer's state between two events.
pub struct RenderModel {
    pub lines: Seq<Seq<SpanModel>>,
    pub spans: Seq<SpanModel>,
    pub list_depth: nat,
    pub heading: Option<u8>,
    pub code_block: bool,
    pub emph: bool,
    pub strong: bool,
    pub blockquote: bool,
    pub link_target: Option<Seq<char>>,
    pub code_language: Seq<char>,
}

pub open spec fn render_start() -> RenderModel {
    RenderModel {
        lines: Seq::empty(),
        spans: Seq::empty(),
        list_depth: 0,
        heading: None,
        code_block: false,
        emph: false,
        strong: false,
        blockquote: false,
        link_target: None,
        code_language: Seq::empty(),
    }
}

/// Ends the current line, if it has any spans.
pub open spec fn flush_line(s: RenderModel) -> RenderModel {
    if s.spans.len() > 0 {
        RenderModel { lines: s.lines.push(s.spans), spans: Seq::empty(), ..s }
    } else {
        s
    }
}

/// Adds an empty line.
pub open spec fn blank_line(s: RenderModel) -> RenderModel {
    RenderModel { lines: s.lines.push(Seq::empty()), ..s }
}

/// Adds a span to the current line.
pub open spec fn add_span(s: RenderModel, sp: SpanModel) -> RenderModel {
    RenderModel { spans: s.spans.push(sp), ..s }
}

/// The bullet that opens a list item at depth `depth`.
pub open spec fn bullet(depth: nat) -> Seq<char> {
    repeat(' ', 2 * (if depth >= 1 { (depth - 1) as nat } else { 0 })) + seq!['•', ' ']
}

pub open spec fn quote_bar_style() -> Style {
    with_modifier(with_fg(plain(), Color::Magenta), BOLD)
}

pub open spec fn link_style() -> Style {
    with_modifier(with_fg(plain(), Color::Blue), UNDERLINED)
}

pub open spec fn inline_code_style() -> Style {
    with_bg(with_fg(plain(), Color::Cyan), Color::DarkGray)
}

/// The transition on a start tag.
pub open spec fn render_start_tag(s: RenderModel, tag: MdTagModel) -> RenderModel {
    match tag {
        MdTagModel::Paragraph => flush_line(s),
        MdTagModel::Heading(level) => RenderModel { heading: Some(level), ..flush_line(s) },
        MdTagModel::List => RenderModel { list_depth: s.list_depth + 1, ..s },
        MdTagModel::Item => add_span(flush_line(s), span(bullet(s.list_depth), plain())),
        MdTagModel::Emphasis => RenderModel { emph: true, ..s },
        MdTagModel::Strong => RenderModel { strong: true, ..s },
        MdTagModel::CodeBlock(lang) => flush_line(
            RenderModel { code_block: true, code_language: lang, ..s },
        ),
        MdTagModel::BlockQuote => add_span(
            flush_line(RenderModel { blockquote: true, ..s }),
            span(seq!['▌', ' '], quote_bar_style()),
        ),
        MdTagModel::Link(url) => RenderModel { link_target: Some(url), ..s },
        _ => s,
    }
}

/// The transition on an end tag.
pub open spec fn render_end_tag(s: RenderModel, tag: MdTagEnd) -> RenderModel {
    match tag {
        MdTagEnd::Paragraph => blank_line(flush_line(s)),
        MdTagEnd::Heading => RenderModel { heading: None, ..blank_line(flush_line(s)) },
        MdTagEnd::List => flush_line(
            RenderModel {
                list_depth: if s.list_depth >= 1 {
                    (s.list_depth - 1) as nat
                } else {
                    0
                },
                ..s
            },
        ),
        MdTagEnd::Item => flush_line(s),
        MdTagEnd::Emphasis => RenderModel { emph: false, ..s },
        MdTagEnd::Strong => RenderModel { strong: false, ..s },
        MdTagEnd::CodeBlock => RenderModel { code_block: false, ..blank_line(flush_line(s)) },
        MdTagEnd::BlockQuote => RenderModel { blockquote: false, ..blank_line(flush_line(s)) },
        MdTagEnd::Link => match s.link_target {
            Some(dest) => add_span(
                RenderModel { link_target: None, ..s },
                span(seq![' ', '('] + dest + seq![')'], link_style()),
            ),
            None => s,
        },
        _ => s,
    }
}

/// The renderer's transition on one event.
pub open spec fn render_step(s: RenderModel, e: MdEventModel) -> RenderModel {
    match e {
        MdEventModel::Start(tag) => render_start_tag(s, tag),
        MdEventModel::End(tag) => render_end_tag(s, tag),
        MdEventModel::Text(t) => if s.code_block {
            let f = flush_line(s);
            RenderModel { lines: f.lines + code_block_lines(s.code_language, t), ..f }
        } else {
            add_span(
                s,
                span(
                    t,
                    text_style(
                        s.heading,
                        s.code_block,
                        s.blockquote,
                        s.emph,
                        s.strong,
                        s.link_target is Some,
                    ),
                ),
            )
        },
        MdEventModel::Code(c) => add_span(s, span(c, inline_code_style())),
        MdEventModel::SoftBreak => RenderModel {
            lines: s.lines.push(s.spans),
            spans: Seq::empty(),
            ..s
        },
        MdEventModel::HardBreak => RenderModel {
            lines: s.lines.push(s.spans),
            spans: Seq::empty(),
            ..s
        },
        MdEventModel::Rule => {
            let f = flush_line(s);
            RenderModel {
                lines: f.lines.push(seq![span(repeat('─', 60), with_fg(plain(), Color::DarkGray))]),
                ..f
            }
        },
        MdEventModel::Other => s,
    }
}

/// The state after a sequence of events.
pub open spec fn render_run(events: Seq<MdEventModel>) -> RenderModel
    decreases events.len(),
{
    if events.len() == 0 {
        render_start()
    } else {
        render_step(render_run(events.drop_last()), events.last())
    }
}

/// The lines an event stream renders to: the last line closed, and one empty
/// line for a stream that rendered nothing.
pub open spec fn rendered_lines(events: Seq<MdEventModel>) -> Seq<Seq<SpanModel>> {
    let s = flush_line(render_run(events));
    if s.lines.len() == 0 {
        seq![Seq::empty()]
    } else {
        s.lines
    }
}

/// What a slide's markdown renders to: its opening pipe table if it has one,
/// else its event stream; image slots placed either way (a table leaves them
/// unplaced).
pub open spec fn render_model(content: Seq<char>) -> RenderedModel {
    let pre = preprocess(str_lines(content));
    let slots = fresh_slots(pre.1);
    let table = pipe_table_lines(pre.0);
    if table.len() > 0 {
        RenderedModel { lines: table, image_slots: slots }
    } else {
        let placed = place_slots(rendered_lines(markdown_events(pre.0)), slots);
        RenderedModel { lines: placed.0, image_slots: placed.1 }
    }
}

/// The lines of a slide that hold only an image.
pub open spec fn image_lines(lines: Seq<Seq<char>>) -> Seq<Seq<char>> {
    lines.filter(|l: Seq<char>| is_image_line(l))
}

proof fn lemma_preprocess_counts_images(lines: Seq<Seq<char>>)
    ensures
        preprocess(lines).1 == image_lines(lines).len(),
    decreases lines.len(),
{
    reveal(Seq::filter);
    if lines.len() > 0 {
        lemma_preprocess_counts_images(lines.drop_last());
    }
}

proof fn lemma_place_slots_keeps_slots(lines: Seq<Seq<SpanModel>>, slots: Seq<ImageSlot>)
    ensures
        place_slots(lines, slots).1.len() == slots.len(),
        forall|i: int|
            0 <= i < slots.len() ==> (#[trigger] place_slots(lines, slots).1[i]).image_index
                == slots[i].image_index && place_slots(lines, slots).1[i].rows == slots[i].rows,
    decreases lines.len(),
{
    if lines.len() > 0 {
        lemma_place_slots_keeps_slots(lines.drop_last(), slots);
    }
}

/// Every line that holds only an image gets one slot of ten rows, and the
/// slots are numbered in the order of those lines.
pub proof fn lemma_image_slots_in_order(content: Seq<char>)
    ensures
        render_model(content).image_slots.len() == image_lines(str_lines(content)).len(),
        forall|i: int|
            0 <= i < render_model(content).image_slots.len() ==> (
            #[trigger] render_model(content).image_slots[i]).image_index == i as usize
                && render_model(content).image_slots[i].rows == 10,
{
    let pre = preprocess(str_lines(content));
    lemma_preprocess_counts_images(str_lines(content));
    let slots = fresh_slots(pre.1);
    if pipe_table_lines(pre.0).len() == 0 {
        lemma_place_slots_keeps_slots(rendered_lines(markdown_events(pre.0)), slots);
    }
}

} // verus!

verus! {

/// The renderer's state.
struct RenderState {
    lines: Vec<Line>,
    spans: Vec<Span>,
    list_depth: usize,
    heading: Option<u8>,
    code_block: bool,
    emph: bool,
    strong: bool,
    blockquote: bool,
    link_target: Option<String>,
    code_language: String,
}

impl View for RenderState {
    type V = RenderModel;

    closed spec fn view(&self) -> RenderModel {
        RenderModel {
            lines: self.lines.deep_view(),
            spans: self.spans.deep_view(),
            list_depth: self.list_depth as nat,
            heading: self.heading,
            code_block: self.code_block,
            emph: self.emph,
            strong: self.strong,
            blockquote: self.blockquote,
            link_target: self.link_target.deep_view(),
            code_language: self.code_language@,
        }
    }
}

fn make_span(content: String, style: Style) -> (r: Span)
    ensures
        r@ == span(content@, style),
{
    Span { content, style }
}

fn line_of(spans: Vec<Span>) -> (r: Line)
    ensures
        r@ == spans.deep_view(),
{
    Line { spans }
}

impl RenderState {
    fn new() -> (s: RenderState)
        ensures
            s@ == render_start(),
    {
        let s = RenderState {
            lines: Vec::new(),
            spans: Vec::new(),
            list_depth: 0,
            heading: None,
            code_block: false,
            emph: false,
            strong: false,
            blockquote: false,
            link_target: None,
            code_language: String::new(),
        };
        assert(s@.lines =~= Seq::empty());
        assert(s@.spans =~= Seq::empty());
        s
    }

    fn push_line(&mut self, l: Line)
        ensures
            final(self)@ == (RenderModel { lines: old(self)@.lines.push(l@), ..old(self)@ }),
    {
        let ghost before = self.lines;
        self.lines.push(l);
        proof {
            lemma_deep_view_push(before, self.lines, l);
        }
    }

    fn add_span(&mut self, sp: Span)
        ensures
            final(self)@ == add_span(old(self)@, sp@),
    {
        let ghost before = self.spans;
        self.spans.push(sp);
        proof {
            lemma_deep_view_push(before, self.spans, sp);
        }
    }

    /// Ends the current line whatever it holds.
    fn break_line(&mut self)
        ensures
            final(self)@ == (RenderModel {
                lines: old(self)@.lines.push(old(self)@.spans),
                spans: Seq::empty(),
                ..old(self)@
            }),
    {
        let spans = take_vec(&mut self.spans);
        proof {
            assert(spans.deep_view() =~= old(self)@.spans);
            lemma_deep_view_empty(self.spans);
        }
        self.push_line(line_of(spans));
    }

    fn flush_line(&mut self)
        ensures
            final(self)@ == flush_line(old(self)@),
    {
        if self.spans.len() > 0 {
            self.break_line();
        }
    }

    fn blank_line(&mut self)
        ensures
            final(self)@ == blank_line(old(self)@),
    {
        let v: Vec<Span> = Vec::new();
        proof {
            lemma_deep_view_empty(v);
        }
        let l = line_of(v);
        self.push_line(l);
    }

    fn start_tag(&mut self, tag: &MdTag)
        requires
            old(self).list_depth < usize::MAX,
        ensures
            final(self)@ == render_start_tag(old(self)@, tag@),
            final(self).list_depth <= old(self).list_depth + 1,
    {
        match tag {
            MdTag::Paragraph => self.flush_line(),
            MdTag::Heading(level) => {
                self.flush_line();
                self.heading = Some(*level);
            },
            MdTag::List => {
                self.list_depth = self.list_depth + 1;
            },
            MdTag::Item => {
                let depth = self.list_depth;
                self.flush_line();
                let mut prefix = String::new();
                let mut k: usize = 1;
                while k < depth
                    invariant
                        1 <= k <= depth || (depth == 0 && k == 1),
                        prefix@ == repeat(' ', 2 * (k - 1) as nat),
                    decreases depth - k,
                {
                    push_char(&mut prefix, ' ');
                    push_char(&mut prefix, ' ');
                    assert(prefix@ =~= repeat(' ', 2 * k as nat));
                    k += 1;
                }
                push_char(&mut prefix, '•');
                push_char(&mut prefix, ' ');
                assert(prefix@ =~= bullet(depth as nat));
                self.add_span(make_span(prefix, Style::new()));
            },
            MdTag::Emphasis => {
                self.emph = true;
            },
            MdTag::Strong => {
                self.strong = true;
            },
            MdTag::CodeBlock(lang) => {
                self.code_block = true;
                self.code_language = copy_string(lang);
                self.flush_line();
            },
            MdTag::BlockQuote => {
                self.blockquote = true;
                self.flush_line();
                let mut bar = String::new();
                push_char(&mut bar, '▌');
                push_char(&mut bar, ' ');
                assert(bar@ =~= seq!['▌', ' ']);
                self.add_span(make_span(bar, Style::new().fg(Color::Magenta).add_modifier(BOLD)));
            },
            MdTag::Link(url) => {
                self.link_target = Some(copy_string(url));
            },
            _ => {},
        }
    }

    fn end_tag(&mut self, tag: &MdTagEnd)
        ensures
            final(self)@ == render_end_tag(old(self)@, *tag),
            final(self).list_depth <= old(self).list_depth,
    {
        match tag {
            MdTagEnd::Paragraph => {
                self.flush_line();
                self.blank_line();
            },
            MdTagEnd::Heading => {
                self.flush_line();
                self.blank_line();
                self.heading = None;
            },
            MdTagEnd::List => {
                if self.list_depth > 0 {
                    self.list_depth = self.list_depth - 1;
                }
                self.flush_line();
            },
            MdTagEnd::Item => self.flush_line(),
            MdTagEnd::Emphasis => {
                self.emph = false;
            },
            MdTagEnd::Strong => {
                self.strong = false;
            },
            MdTagEnd::CodeBlock => {
                self.flush_line();
                self.blank_line();
                self.code_block = false;
            },
            MdTagEnd::BlockQuote => {
                self.flush_line();
                self.blank_line();
                self.blockquote = false;
            },
            MdTagEnd::Link => {
                match &self.link_target {
                    Some(dest) => {
                        let mut text = String::new();
                        push_char(&mut text, ' ');
                        push_char(&mut text, '(');
                        push_str(&mut text, dest.as_str());
                        push_char(&mut text, ')');
                        assert(text@ =~= seq![' ', '('] + dest@ + seq![')']);
                        self.link_target = None;
                        self.add_span(
                            make_span(text, Style::new().fg(Color::Blue).add_modifier(UNDERLINED)),
                        );
                    },
                    None => {},
                }
            },
            _ => {},
        }
    }

    fn handle_event(&mut self, e: &MdEvent)
        requires
            old(self).list_depth < usize::MAX,
        ensures
            final(self)@ == render_step(old(self)@, e@),
            final(self).list_depth <= old(self).list_depth + 1,
    {
        match e {
            MdEvent::Start(tag) => self.start_tag(tag),
            MdEvent::End(tag) => self.end_tag(tag),
            MdEvent::Text(t) => {
                if self.code_block {
                    self.flush_line();
                    let code = highlight_code_block(t.as_str(), self.code_language.as_str());
                    let ghost before = self@;
                    let mut i: usize = 0;
                    while i < code.len()
                        invariant
                            i <= code.len(),
                            self@ == (RenderModel {
                                lines: before.lines + code.deep_view().take(i as int),
                                ..before
                            }),
                            self.list_depth == before.list_depth,
                        decreases code.len() - i,
                    {
                        let l = copy_line(&code[i]);
                        self.push_line(l);
                        assert(before.lines + code.deep_view().take(i as int + 1) =~= (before.lines
                            + code.deep_view().take(i as int)).push(l@));
                        i += 1;
                    }
                    assert(code.deep_view().take(i as int) =~= code.deep_view());
                } else {
                    let style = styled_span_style(
                        self.heading,
                        self.code_block,
                        self.blockquote,
                        self.emph,
                        self.strong,
                        self.link_target.is_some(),
                    );
                    self.add_span(make_span(copy_string(t), style));
                }
            },
            MdEvent::Code(c) => {
                self.add_span(
                    make_span(copy_string(c), Style::new().fg(Color::Cyan).bg(Color::DarkGray)),
                );
            },
            MdEvent::SoftBreak => self.break_line(),
            MdEvent::HardBreak => self.break_line(),
            MdEvent::Rule => {
                self.flush_line();
                let mut rule = String::new();
                let mut k: usize = 0;
                while k < 60
                    invariant
                        k <= 60,
                        rule@ == repeat('─', k as nat),
                    decreases 60 - k,
                {
                    push_char(&mut rule, '─');
                    assert(rule@ =~= repeat('─', k as nat + 1));
                    k += 1;
                }
                let mut spans: Vec<Span> = Vec::new();
                let sp = make_span(rule, Style::new().fg(Color::DarkGray));
                spans.push(sp);
                assert(spans.deep_view() =~= seq![sp@]);
                self.push_line(line_of(spans));
            },
            MdEvent::Other => {},
        }
    }
}

/// A copy of a line.
fn copy_line(l: &Line) -> (r: Line)
    ensures
        r@ == l@,
{
    let mut spans: Vec<Span> = Vec::new();
    let mut i: usize = 0;
    while i < l.spans.len()
        invariant
            i <= l.spans.len(),
            spans.deep_view() == l.spans.deep_view().take(i as int),
        decreases l.spans.len() - i,
    {
        let ghost before = spans;
        let sp = l.spans[i].copy();
        spans.push(sp);
        proof {
            lemma_deep_view_push(before, spans, sp);
            assert(l.spans.deep_view().take(i as int + 1) =~= l.spans.deep_view().take(
                i as int,
            ).push(sp@));
        }
        i += 1;
    }
    assert(l.spans.deep_view().take(i as int) =~= l.spans.deep_view());
    Line { spans }
}

/// The style of text in the given context.
fn styled_span_style(
    heading: Option<u8>,
    code_block: bool,
    blockquote: bool,
    emph: bool,
    strong: bool,
    link: bool,
) -> (r: Style)
    ensures
        r == text_style(heading, code_block, blockquote, emph, strong, link),
{
    let mut style = Style::new();
    match heading {
        Some(level) => {
            style = if level == 1 {
                Style::new().fg(Color::Yellow).add_modifier(BOLD)
            } else if level == 2 {
                Style::new().fg(Color::Green).add_modifier(BOLD)
            } else if level == 3 {
                Style::new().fg(Color::Cyan).add_modifier(BOLD)
            } else {
                Style::new().add_modifier(BOLD)
            };
        },
        None => {},
    }
    if code_block {
        style = style.bg(Color::DarkGray).fg(Color::White);
    }
    if blockquote {
        style = style.fg(Color::Magenta);
    }
    if emph {
        style = style.add_modifier(ITALIC);
    }
    if strong {
        style = style.add_modifier(BOLD);
    }
    if link {
        style = style.fg(Color::Blue).add_modifier(UNDERLINED);
    }
    style
}

/// The style of a highlighted run.
fn run_style_exec(r: &StyledRun) -> (s: Style)
    ensures
        s == run_style(r@),
{
    let mut style = Style::new().fg(Color::Rgb(r.fg.0, r.fg.1, r.fg.2)).bg(
        Color::Rgb(r.bg.0, r.bg.1, r.bg.2),
    );
    if r.font_style & 1 != 0 {
        style = style.add_modifier(BOLD);
    }
    if r.font_style & 4 != 0 {
        style = style.add_modifier(ITALIC);
    }
    if r.font_style & 2 != 0 {
        style = style.add_modifier(UNDERLINED);
    }
    style
}

/// The lines of a code block, highlighted for `language`.
fn highlight_code_block(text: &str, language: &str) -> (r: Vec<Line>)
    ensures
        r.deep_view() == code_block_lines(language@, text@),
{
    let runs = highlight_github(language, text);
    styled_code_lines(&runs)
}

/// The lines of highlighted runs, each run a span in its style.
pub fn styled_code_lines(runs: &Vec<Vec<StyledRun>>) -> (r: Vec<Line>)
    ensures
        r.deep_view() == styled_lines(runs.deep_view()),
{
    let ghost h = runs.deep_view().map_values(
        |l: Seq<RunModel>| l.map_values(|r: RunModel| span(r.text, run_style(r))),
    );
    let mut out: Vec<Line> = Vec::new();
    proof {
        lemma_deep_view_empty(out);
    }
    let mut i: usize = 0;
    while i < runs.len()
        invariant
            i <= runs.len(),
            h == runs.deep_view().map_values(
                |l: Seq<RunModel>| l.map_values(|r: RunModel| span(r.text, run_style(r))),
            ),
            out.deep_view() == h.take(i as int),
        decreases runs.len() - i,
    {
        let line_runs = &runs[i];
        let mut spans: Vec<Span> = Vec::new();
        let mut k: usize = 0;
        proof {
            lemma_deep_view_empty(spans);
        }
        while k < line_runs.len()
            invariant
                k <= line_runs.len(),
                i < runs.len(),
                line_runs.deep_view() == runs.deep_view()[i as int],
                spans.deep_view() == line_runs.deep_view().take(k as int).map_values(
                    |r: RunModel| span(r.text, run_style(r)),
                ),
            decreases line_runs.len() - k,
        {
            let run = &line_runs[k];
            let sp = make_span(copy_string(&run.text), run_style_exec(run));
            let ghost before = spans;
            spans.push(sp);
            proof {
                lemma_deep_view_push(before, spans, sp);
                assert(line_runs.deep_view().take(k as int + 1).map_values(
                    |r: RunModel| span(r.text, run_style(r)),
                ) =~= line_runs.deep_view().take(k as int).map_values(
                    |r: RunModel| span(r.text, run_style(r)),
                ).push(sp@));
            }
            k += 1;
        }
        let l = line_of(spans);
        let ghost before = out;
        out.push(l);
        proof {
            lemma_deep_view_push(before, out, l);
            assert(line_runs.deep_view().take(k as int) =~= line_runs.deep_view());
            assert(h.take(i as int + 1) =~= h.take(i as int).push(l@));
        }
        i += 1;
    }
    proof {
        assert(h.take(i as int) =~= h);
    }
    if out.len() == 0 {
        let v: Vec<Span> = Vec::new();
        proof {
            lemma_deep_view_empty(v);
        }
        let l = line_of(v);
        let ghost before = out;
        out.push(l);
        proof {
            lemma_deep_view_push(before, out, l);
            assert(out.deep_view() =~= seq![Seq::<SpanModel>::empty()]);
        }
    }
    out
}

} // verus!

verus! {

// ---------------------------------------------------------------------------
// Image slots, executed
// ---------------------------------------------------------------------------

fn marker_prefix() -> (r: Vec<char>)
    ensures
        r@ == seq!['S', 'S', '_', 'I', 'M', 'A', 'G', 'E', '_', 'S', 'L', 'O', 'T', '_'],
{
    let r = vec!['S', 'S', '_', 'I', 'M', 'A', 'G', 'E', '_', 'S', 'L', 'O', 'T', '_'];
    assert(r@ =~= seq!['S', 'S', '_', 'I', 'M', 'A', 'G', 'E', '_', 'S', 'L', 'O', 'T', '_']);
    r
}

/// The pattern of a line that holds nothing but an image link.
pub open spec fn image_line_pattern() -> Seq<char> {
    r"^\s*!\[[^\]]*\]\(([^)]+)\)\s*$"@
}

/// `regex::Regex::new(pattern)` and `Regex::is_match` on `text`. Claimed, for
/// the image-line pattern (which compiles, so nothing panics): the line matches
/// exactly when, white space (Unicode `White_Space`, as `\s` means) trimmed, it
/// is one image link, as `is_image_line` states it.
#[verifier::external_body]
fn regex_is_match(pattern: &str, text: &str) -> (r: bool)
    requires
        pattern@ == image_line_pattern(),
    ensures
        r == is_image_line(text@),
{
    regex::Regex::new(pattern).unwrap().is_match(text)
}

/// The content with image lines replaced by markers, and the number of images.
fn preprocess_images(content: &str) -> (r: (String, usize))
    ensures
        (r.0@, r.1 as nat) == preprocess(str_lines(content@)),
{
    let lines = str_lines_exec(content);
    let ghost lv = lines.deep_view();
    let mut out = String::new();
    let mut count: usize = 0;
    proof {
        assert(lv.take(0) =~= Seq::<Seq<char>>::empty());
    }
    let mut i: usize = 0;
    while i < lines.len()
        invariant
            i <= lines.len(),
            lv == lines.deep_view(),
            lv == str_lines(content@),
            count <= i,
            (out@, count as nat) == preprocess(lv.take(i as int)),
        decreases lines.len() - i,
    {
        proof {
            assert(lv.take(i as int + 1).drop_last() =~= lv.take(i as int));
            assert(lv.take(i as int + 1).last() == lines[i as int]@);
        }
        if regex_is_match(r"^\s*!\[[^\]]*\]\(([^)]+)\)\s*$", lines[i].as_str()) {
            let p = marker_prefix();
            push_chars(&mut out, p.as_slice());
            push_decimal(&mut out, count as u128);
            push_char(&mut out, '\n');
            count += 1;
        } else {
            push_str(&mut out, lines[i].as_str());
            push_char(&mut out, '\n');
        }
        i += 1;
    }
    proof {
        assert(lv.take(i as int) =~= lv);
    }
    (out, count)
}

/// The slots of the first `n` images.
fn fresh_slots_exec(n: usize) -> (r: Vec<ImageSlot>)
    ensures
        r@ == fresh_slots(n as nat),
{
    let mut out: Vec<ImageSlot> = Vec::new();
    let mut k: usize = 0;
    while k < n
        invariant
            k <= n,
            out@ == fresh_slots(k as nat),
        decreases n - k,
    {
        out.push(ImageSlot { image_index: k, start_line: 0, rows: 10 });
        assert(out@ =~= fresh_slots(k as nat + 1));
        k += 1;
    }
    out
}

/// The image number a marker line names.
fn parse_image_slot_marker(line: &str) -> (r: Option<usize>)
    ensures
        r == slot_marker_index(line@),
{
    let t = trim_string(line);
    let cs = chars_of(t.as_str());
    let p = marker_prefix();
    if !starts_with_at(cs.as_slice(), 0, p.as_slice()) {
        proof {
            assert(t@.subrange(0, 14) =~= t@.subrange(0int, 0int + 14));
        }
        return None;
    }
    proof {
        assert(t@.subrange(0, 14) =~= t@.subrange(0int, 0int + 14));
    }
    let rest = substring_chars(&cs, 14);
    match parse_u64(rest.as_slice()) {
        Some(v) => {
            if v as u128 <= usize::MAX as u128 {
                Some(v as usize)
            } else {
                None
            }
        },
        None => {
            proof {
                if parse_unsigned(t@.skip(14), usize::MAX as nat) is Some {
                    assert(parse_unsigned(t@.skip(14), u64::MAX as nat) is Some);
                }
            }
            None
        },
    }
}

/// The characters of `cs` from `from` on.
fn substring_chars(cs: &Vec<char>, from: usize) -> (r: Vec<char>)
    requires
        from <= cs.len(),
    ensures
        r@ == cs@.skip(from as int),
{
    let mut out: Vec<char> = Vec::new();
    let mut i = from;
    while i < cs.len()
        invariant
            from <= i <= cs.len(),
            out@ == cs@.subrange(from as int, i as int),
        decreases cs.len() - i,
    {
        out.push(cs[i]);
        assert(out@ =~= cs@.subrange(from as int, i + 1));
        i += 1;
    }
    assert(out@ =~= cs@.skip(from as int));
    out
}

/// The text of a rendered line.
fn line_text_exec(l: &Line) -> (r: String)
    ensures
        r@ == line_text(l@),
{
    let mut out = String::new();
    let mut i: usize = 0;
    while i < l.spans.len()
        invariant
            i <= l.spans.len(),
            out@ == line_text(l@.take(i as int)),
        decreases l.spans.len() - i,
    {
        push_str(&mut out, l.spans[i].content.as_str());
        assert(l@.take(i as int + 1).drop_last() =~= l@.take(i as int));
        i += 1;
    }
    assert(l@.take(i as int) =~= l@);
    out
}

/// Replaces marker lines by the blank rows of their image slots.
fn postprocess_image_slots(lines: Vec<Line>, slots: Vec<ImageSlot>) -> (r: RenderedMarkdown)
    ensures
        (r@.lines, r@.image_slots) == place_slots(lines.deep_view(), slots@),
{
    let ghost lv = lines.deep_view();
    let ghost s0 = slots@;
    let mut slots = slots;
    let mut out: Vec<Line> = Vec::new();
    proof {
        lemma_deep_view_empty(out);
        assert(lv.take(0) =~= Seq::<Seq<SpanModel>>::empty());
    }
    let mut i: usize = 0;
    while i < lines.len()
        invariant
            i <= lines.len(),
            lv == lines.deep_view(),
            (out.deep_view(), slots@) == place_slots(lv.take(i as int), s0),
        decreases lines.len() - i,
    {
        proof {
            assert(lv.take(i as int + 1).drop_last() =~= lv.take(i as int));
            assert(lv.take(i as int + 1).last() == lines[i as int]@);
        }
        let text = line_text_exec(&lines[i]);
        let mut placed = false;
        match parse_image_slot_marker(text.as_str()) {
            Some(k) => {
                if k < slots.len() {
                    let slot = slots[k];
                    let start = out.len();
                    let ghost before = out.deep_view();
                    let mut j: usize = 0;
                    while j < slot.rows
                        invariant
                            j <= slot.rows,
                            out.deep_view() == before + Seq::new(
                                j as nat,
                                |q: int| Seq::<SpanModel>::empty(),
                            ),
                        decreases slot.rows - j,
                    {
                        let v: Vec<Span> = Vec::new();
                        proof {
                            lemma_deep_view_empty(v);
                        }
                        let l = line_of(v);
                        let ghost b = out;
                        out.push(l);
                        proof {
                            lemma_deep_view_push(b, out, l);
                            assert(before + Seq::new(
                                j as nat + 1,
                                |q: int| Seq::<SpanModel>::empty(),
                            ) =~= (before + Seq::new(
                                j as nat,
                                |q: int| Seq::<SpanModel>::empty(),
                            )).push(l@));
                        }
                        j += 1;
                    }
                    let ghost sv = slots@;
                    slots.remove(k);
                    slots.insert(k, ImageSlot { start_line: start, ..slot });
                    proof {
                        assert(slots@ =~= sv.update(k as int, ImageSlot { start_line: start, ..slot }));
                    }
                    placed = true;
                }
            },
            None => {},
        }
        if !placed {
            let l = copy_line(&lines[i]);
            let ghost b = out;
            out.push(l);
            proof {
                lemma_deep_view_push(b, out, l);
            }
        }
        i += 1;
    }
    proof {
        assert(lv.take(i as int) =~= lv);
    }
    RenderedMarkdown { lines: out, image_slots: slots }
}

} // verus!

verus! {

// ---------------------------------------------------------------------------
// Pipe tables, executed
// ---------------------------------------------------------------------------

fn has_char_exec(s: &str, c: char) -> (r: bool)
    ensures
        r == has_char(s@, c),
{
    let cs = chars_of(s);
    let mut i: usize = 0;
    while i < cs.len()
        invariant
            i <= cs.len(),
            cs@ == s@,
            forall|q: int| 0 <= q < i ==> cs@[q] != c,
        decreases cs.len() - i,
    {
        if cs[i] == c {
            return true;
        }
        i += 1;
    }
    false
}

/// Whether a line looks like a table row.
fn looks_like_pipe_table_row(line: &str) -> (r: bool)
    ensures
        r == looks_like_row(line@),
{
    if !has_char_exec(line, '|') {
        return false;
    }
    let t = trim_string(line);
    let cs = chars_of(t.as_str());
    cs.len() > 0 && cs[0] == '|' && cs[cs.len() - 1] == '|'
}

/// Whether a line looks like the separator under a table's header.
fn looks_like_pipe_separator(line: &str) -> (r: bool)
    ensures
        r == looks_like_separator(line@),
{
    let t = trim_string(line);
    if !has_char_exec(t.as_str(), '|') {
        return false;
    }
    let cs = chars_of(t.as_str());
    let mut i: usize = 0;
    while i < cs.len()
        invariant
            i <= cs.len(),
            cs@ == t@,
            t@ == trim(line@),
            has_char(t@, '|'),
            forall|q: int| 0 <= q < i ==> #[trigger] separator_char(cs@[q]),
        decreases cs.len() - i,
    {
        let c = cs[i];
        if !(c == '|' || c == '-' || c == ':' || is_whitespace(c)) {
            assert(t@[i as int] == c);
            assert(!separator_char(t@[i as int]));
            return false;
        }
        i += 1;
    }
    true
}

/// `s` without leading and trailing `|`.
fn trim_pipes_exec(s: &str) -> (r: String)
    ensures
        r@ == trim_pipes(s@),
{
    let cs = chars_of(s);
    let mut a: usize = 0;
    let mut b: usize = cs.len();
    proof {
        assert(s@.subrange(0, s@.len() as int) =~= s@);
    }
    while a < b && (cs[a] == '|' || cs[b - 1] == '|')
        invariant
            a <= b <= cs.len(),
            cs@ == s@,
            trim_pipes(s@) == trim_pipes(s@.subrange(a as int, b as int)),
        decreases b - a,
    {
        let ghost cur = s@.subrange(a as int, b as int);
        assert(cur[0] == cs@[a as int]);
        if cs[a] == '|' {
            assert(cur.drop_first() =~= s@.subrange(a + 1, b as int));
            a += 1;
        } else {
            assert(cur.last() == cs@[b - 1]);
            assert(cur.drop_last() =~= s@.subrange(a as int, b - 1));
            b -= 1;
        }
    }
    proof {
        let cur = s@.subrange(a as int, b as int);
        if a < b {
            assert(cur[0] == cs@[a as int]);
            assert(cur.last() == cs@[b - 1]);
        }
        assert(trim_pipes(cur) == cur);
    }
    substring(cs.as_slice(), a, b)
}

/// The trimmed cells of a table row.
fn parse_pipe_row(line: &str) -> (r: Vec<String>)
    ensures
        r.deep_view() == row_cells(line@),
{
    let t = trim_string(line);
    let inner = trim_pipes_exec(t.as_str());
    let pieces = split_on_exec(inner.as_str(), '|');
    let ghost pv = pieces.deep_view();
    let mut out: Vec<String> = Vec::new();
    proof {
        lemma_deep_view_empty(out);
    }
    let mut i: usize = 0;
    while i < pieces.len()
        invariant
            i <= pieces.len(),
            pv == pieces.deep_view(),
            out.deep_view() == pv.take(i as int).map_values(|c: Seq<char>| trim(c)),
        decreases pieces.len() - i,
    {
        let c = trim_string(pieces[i].as_str());
        let ghost before = out;
        out.push(c);
        proof {
            lemma_deep_view_push(before, out, c);
            assert(pv.take(i as int + 1).map_values(|c: Seq<char>| trim(c)) =~= pv.take(
                i as int,
            ).map_values(|c: Seq<char>| trim(c)).push(c@));
        }
        i += 1;
    }
    proof {
        assert(pv.take(i as int) =~= pv);
    }
    out
}

/// The widths of the columns of `rows`.
fn table_widths_exec(rows: &Vec<Vec<String>>) -> (r: Vec<usize>)
    ensures
        r@.len() == table_widths(rows.deep_view()).len(),
        forall|i: int| 0 <= i < r@.len() ==> r@[i] as nat == table_widths(rows.deep_view())[i],
{
    let ghost rv = rows.deep_view();
    // the number of columns
    let mut count: usize = 0;
    let mut i: usize = 0;
    proof {
        assert(rv.take(0) =~= Seq::<Seq<Seq<char>>>::empty());
    }
    while i < rows.len()
        invariant
            i <= rows.len(),
            rv == rows.deep_view(),
            count as nat == column_count(rv.take(i as int)),
        decreases rows.len() - i,
    {
        proof {
            assert(rv.take(i as int + 1).drop_last() =~= rv.take(i as int));
            assert(rv.take(i as int + 1).last() == rows[i as int].deep_view());
        }
        if rows[i].len() > count {
            count = rows[i].len();
        }
        i += 1;
    }
    proof {
        assert(rv.take(i as int) =~= rv);
    }
    let mut widths: Vec<usize> = Vec::new();
    let mut c: usize = 0;
    while c < count
        invariant
            c <= count,
            rv == rows.deep_view(),
            count as nat == column_count(rv),
            widths@.len() == c,
            forall|q: int| 0 <= q < c ==> widths@[q] as nat == column_width(rv, q),
        decreases count - c,
    {
        let mut w: usize = 0;
        let mut r: usize = 0;
        proof {
            assert(rv.take(0) =~= Seq::<Seq<Seq<char>>>::empty());
        }
        while r < rows.len()
            invariant
                r <= rows.len(),
                rv == rows.deep_view(),
                w as nat == column_width(rv.take(r as int), c as int),
            decreases rows.len() - r,
        {
            proof {
                assert(rv.take(r as int + 1).drop_last() =~= rv.take(r as int));
                assert(rv.take(r as int + 1).last() == rows[r as int].deep_view());
            }
            if c < rows[r].len() {
                let cell = trim_string(rows[r][c].as_str());
                let n = cell.as_str().len();
                proof {
                    assert(rows[r as int].deep_view()[c as int] == rows[r as int][c as int]@);
                }
                if n > w {
                    w = n;
                }
            }
            r += 1;
        }
        proof {
            assert(rv.take(r as int) =~= rv);
        }
        widths.push(w);
        c += 1;
    }
    widths
}

/// `value` padded with spaces to `width` characters.
fn pad_right_exec(value: &str, width: usize) -> (r: String)
    ensures
        r@ == pad_right(value@, width as nat),
{
    let n = crate::text::char_count(value);
    let mut out = to_owned_string(value);
    if n < width {
        let pad = crate::text::repeat_char(' ', width - n);
        push_str(&mut out, pad.as_str());
    }
    out
}

fn span_of(chars: Seq<char>, content: String, style: Style) -> (r: Span)
    requires
        content@ == chars,
    ensures
        r@ == span(chars, style),
{
    Span { content, style }
}

/// The line of one table row.
fn table_row_line(row: &Vec<String>, widths: &Vec<usize>, header: bool) -> (r: Line)
    ensures
        r@ == table_row_spans(
            row.deep_view(),
            widths@.map_values(|w: usize| w as nat),
            header,
        ),
{
    let ghost wv = widths@.map_values(|w: usize| w as nat);
    let mut spans: Vec<Span> = Vec::new();
    let mut first = String::new();
    push_char(&mut first, '│');
    push_char(&mut first, ' ');
    assert(first@ =~= seq!['│', ' ']);
    let sp = make_span(first, Style::new().fg(Color::DarkGray));
    spans.push(sp);
    proof {
        assert(spans.deep_view() =~= seq![sp@]);
        assert(wv.take(0) =~= Seq::<nat>::empty());
        assert(sp@ == span(seq!['│', ' '], border_style()));
    }
    let mut i: usize = 0;
    while i < widths.len()
        invariant
            i <= widths.len(),
            wv == widths@.map_values(|w: usize| w as nat),
            spans.deep_view() == table_row_spans(row.deep_view(), wv.take(i as int), header),
        decreases widths.len() - i,
    {
        let value = if i < row.len() {
            trim_string(row[i].as_str())
        } else {
            String::new()
        };
        proof {
            if i < row.len() {
                assert(row.deep_view()[i as int] == row[i as int]@);
            }
        }
        let padded = pad_right_exec(value.as_str(), widths[i]);
        let style = if header {
            Style::new().fg(Color::Green).add_modifier(BOLD)
        } else {
            Style::new()
        };
        let a = make_span(padded, style);
        let mut sep = String::new();
        push_char(&mut sep, ' ');
        push_char(&mut sep, '│');
        push_char(&mut sep, ' ');
        let b = make_span(sep, Style::new().fg(Color::DarkGray));
        let ghost s0 = spans;
        spans.push(a);
        let ghost s1 = spans;
        spans.push(b);
        proof {
            lemma_deep_view_push(s0, s1, a);
            lemma_deep_view_push(s1, spans, b);
            assert(wv.take(i as int + 1).drop_last() =~= wv.take(i as int));
            assert(wv.take(i as int + 1).last() == widths[i as int] as nat);
            assert(b@.content =~= seq![' ', '│', ' ']);
        }
        i += 1;
    }
    proof {
        assert(wv.take(i as int) =~= wv);
    }
    line_of(spans)
}

/// The separator line under a table's header.
fn table_separator(widths: &Vec<usize>) -> (r: Line)
    ensures
        r@ == separator_spans(widths@.map_values(|w: usize| w as nat), widths@.len()),
{
    let ghost wv = widths@.map_values(|w: usize| w as nat);
    let mut spans: Vec<Span> = Vec::new();
    let mut first = String::new();
    push_char(&mut first, '├');
    let sp = make_span(first, Style::new().fg(Color::DarkGray));
    spans.push(sp);
    proof {
        assert(spans.deep_view() =~= seq![sp@]);
        assert(wv.take(0) =~= Seq::<nat>::empty());
        assert(sp@.content =~= seq!['├']);
    }
    let mut i: usize = 0;
    while i < widths.len()
        invariant
            i <= widths.len(),
            wv == widths@.map_values(|w: usize| w as nat),
            spans.deep_view() == separator_spans(wv.take(i as int), widths@.len()),
        decreases widths.len() - i,
    {
        let mut bar = crate::text::repeat_char('─', widths[i]);
        push_char(&mut bar, '─');
        push_char(&mut bar, '─');
        assert(bar@ =~= repeat('─', widths[i as int] as nat + 2));
        let a = make_span(bar, Style::new().fg(Color::DarkGray));
        let mut end = String::new();
        if i + 1 == widths.len() {
            push_char(&mut end, '┤');
        } else {
            push_char(&mut end, '┼');
        }
        let b = make_span(end, Style::new().fg(Color::DarkGray));
        let ghost s0 = spans;
        spans.push(a);
        let ghost s1 = spans;
        spans.push(b);
        proof {
            lemma_deep_view_push(s0, s1, a);
            lemma_deep_view_push(s1, spans, b);
            assert(wv.take(i as int + 1).drop_last() =~= wv.take(i as int));
            assert(wv.take(i as int + 1).last() == widths[i as int] as nat);
            if i + 1 == widths.len() {
                assert(b@.content =~= seq!['┤']);
            } else {
                assert(b@.content =~= seq!['┼']);
            }
        }
        i += 1;
    }
    proof {
        assert(wv.take(i as int) =~= wv);
    }
    line_of(spans)
}

/// The lines of a table.
fn render_table_rows(rows: &Vec<Vec<String>>) -> (r: Vec<Line>)
    ensures
        r.deep_view() == table_lines_from(rows.deep_view(), table_widths(rows.deep_view())),
{
    let ghost rv = rows.deep_view();
    let widths = table_widths_exec(rows);
    let ghost wv = widths@.map_values(|w: usize| w as nat);
    assert(wv =~= table_widths(rv));
    let mut out: Vec<Line> = Vec::new();
    proof {
        lemma_deep_view_empty(out);
        assert(rv.take(0) =~= Seq::<Seq<Seq<char>>>::empty());
    }
    let mut i: usize = 0;
    while i < rows.len()
        invariant
            i <= rows.len(),
            rv == rows.deep_view(),
            wv == widths@.map_values(|w: usize| w as nat),
            wv == table_widths(rv),
            out.deep_view() == table_lines_from(rv.take(i as int), wv),
        decreases rows.len() - i,
    {
        proof {
            assert(rv.take(i as int + 1).drop_last() =~= rv.take(i as int));
            assert(rv.take(i as int + 1).last() == rows[i as int].deep_view());
        }
        let line = table_row_line(&rows[i], &widths, i == 0);
        let ghost b0 = out;
        out.push(line);
        proof {
            lemma_deep_view_push(b0, out, line);
        }
        if i == 0 {
            let sep = table_separator(&widths);
            let ghost b1 = out;
            out.push(sep);
            proof {
                lemma_deep_view_push(b1, out, sep);
            }
        }
        i += 1;
    }
    proof {
        assert(rv.take(i as int) =~= rv);
    }
    out
}

/// The lines of the table a text opens with; empty when it opens with none.
fn detect_pipe_tables(content: &str) -> (r: Vec<Line>)
    ensures
        r.deep_view() == pipe_table_lines(content@),
{
    let lines = str_lines_exec(content);
    let ghost lv = lines.deep_view();
    if lines.len() < 2 || !looks_like_pipe_table_row(lines[0].as_str())
        || !looks_like_pipe_separator(lines[1].as_str()) {
        let out: Vec<Line> = Vec::new();
        proof {
            lemma_deep_view_empty(out);
        }
        return out;
    }
    let mut rows: Vec<Vec<String>> = Vec::new();
    let header = parse_pipe_row(lines[0].as_str());
    rows.push(header);
    proof {
        assert(rows.deep_view() =~= seq![row_cells(lv[0])]);
    }
    let mut i: usize = 2;
    proof {
        assert(rows_while(lv.skip(2).take(0)) =~= Seq::<Seq<Seq<char>>>::empty());
    }
    while i < lines.len() && looks_like_pipe_table_row(lines[i].as_str())
        invariant
            2 <= i <= lines.len(),
            lv == lines.deep_view(),
            rows.deep_view() + rows_while(lv.skip(i as int)) == seq![row_cells(lv[0])]
                + rows_while(lv.skip(2)),
        decreases lines.len() - i,
    {
        proof {
            assert(lv.skip(i as int)[0] == lines[i as int]@);
        }
        let cells = parse_pipe_row(lines[i].as_str());
        let ghost before = rows;
        rows.push(cells);
        proof {
            lemma_deep_view_push(before, rows, cells);
            assert(lv.skip(i as int).drop_first() =~= lv.skip(i as int + 1));
            assert(rows_while(lv.skip(i as int)) == seq![row_cells(lv[i as int])] + rows_while(
                lv.skip(i as int + 1),
            ));
            assert(rows.deep_view() + rows_while(lv.skip(i as int + 1)) =~= before.deep_view()
                + rows_while(lv.skip(i as int)));
        }
        i += 1;
    }
    proof {
        if i >= lines.len() {
            assert(lv.skip(i as int).len() == 0);
        } else {
            assert(lv.skip(i as int)[0] == lines[i as int]@);
        }
        assert(rows_while(lv.skip(i as int)) =~= Seq::<Seq<Seq<char>>>::empty());
        assert(rows.deep_view() =~= seq![row_cells(lv[0])] + rows_while(lv.skip(2)));
    }
    render_table_rows(&rows)
}

} // verus!

verus! {

/// Renders a slide's markdown to styled lines, leaving a slot of blank lines
/// for each line that holds only an image.
pub fn render_markdown(content: &str) -> (r: RenderedMarkdown)
    ensures
        r@ == render_model(content@),
{
    let (pre, count) = preprocess_images(content);
    let slots = fresh_slots_exec(count);
    let table = detect_pipe_tables(pre.as_str());
    if table.len() > 0 {
        return RenderedMarkdown { lines: table, image_slots: slots };
    }
    let events = cmark_events(pre.as_str());
    let lines = render_events(&events);
    postprocess_image_slots(lines, slots)
}

/// The styled lines a markdown event stream renders to (one empty line at least).
pub fn render_events(events: &Vec<MdEvent>) -> (r: Vec<Line>)
    ensures
        r.deep_view() == rendered_lines(events.deep_view()),
{
    let ghost ev = events.deep_view();
    let mut state = RenderState::new();
    proof {
        assert(ev.take(0) =~= Seq::<MdEventModel>::empty());
    }
    let mut i: usize = 0;
    while i < events.len()
        invariant
            i <= events.len(),
            ev == events.deep_view(),
            state@ == render_run(ev.take(i as int)),
            state.list_depth <= i,
        decreases events.len() - i,
    {
        proof {
            assert(ev.take(i as int + 1).drop_last() =~= ev.take(i as int));
            assert(ev.take(i as int + 1).last() == events[i as int]@);
        }
        state.handle_event(&events[i]);
        i += 1;
    }
    proof {
        assert(ev.take(i as int) =~= ev);
    }
    state.flush_line();
    if state.lines.len() == 0 {
        state.blank_line();
        proof {
            assert(state@.lines =~= seq![Seq::<SpanModel>::empty()]);
        }
    }
    let ghost lines_v = state@.lines;
    let lines = take_vec(&mut state.lines);
    proof {
        assert(lines.deep_view() =~= lines_v);
    }
    lines
}

} // verus!

verus! {

// ---------------------------------------------------------------------------
// Column widths of pipe tables
// ---------------------------------------------------------------------------

/// A pipe table's columns fit every cell: there is a column for every cell
/// of every row, each column is at least as wide as the trimmed text of each
/// of its cells in every row, and it is no wider than needed (it is 0 or the
/// width of one of its cells).
pub proof fn lemma_table_widths_fit(rows: Seq<Seq<Seq<char>>>, i: int)
    requires
        0 <= i,
    ensures
        forall|r: int| 0 <= r < rows.len() ==> (#[trigger] rows[r]).len() <= column_count(rows),
        forall|r: int|
            0 <= r < rows.len() && i < rows[r].len() ==> byte_len(trim(#[trigger] rows[r][i]))
                <= column_width(rows, i),
        column_width(rows, i) == 0 || exists|r: int|
            0 <= r < rows.len() && i < rows[r].len() && byte_len(trim(#[trigger] rows[r][i]))
                == column_width(rows, i),
        i < column_count(rows) ==> table_widths(rows)[i] == column_width(rows, i),
    decreases rows.len(),
{
    if rows.len() > 0 {
        let init = rows.drop_last();
        lemma_table_widths_fit(init, i);
        assert forall|r: int| 0 <= r < init.len() implies #[trigger] rows[r] == init[r] by {}
        let last = rows.len() - 1;
        assert(rows[last] == rows.last());
        if column_width(rows, i) != 0 && column_width(rows, i) != column_width(init, i) {
            assert(byte_len(trim(rows[last][i])) == column_width(rows, i));
        } else if column_width(rows, i) != 0 {
            let r = choose|r: int|
                0 <= r < init.len() && i < init[r].len() && byte_len(trim(#[trigger] init[r][i]))
                    == column_width(init, i);
            assert(rows[r][i] == init[r][i]);
        }
    }
}

} // verus!
