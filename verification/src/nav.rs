//! The presenter's navigation: which slide is shown, where the cursor and the
//! scroll stand, search, outline, visual selection and the command line, and
//! how each key moves them.
//!
//! Keys arrive as `Key`s; what a key needs of the slide on screen comes as a
//! `CurrentView` (its rows), and the outline's texts as `OutlineEntry`s.
//! Whatever a key asks of the world (quitting, reloading, opening a path or a
//! link, showing another slide) comes back as an `Action` for the caller.
use crate::layout::{min, SearchMatch};
use crate::markdown::{lemma_deep_view_empty, lemma_deep_view_push};
use crate::style::{plain, span, with_bg, with_fg, with_modifier, Color, Line, Span, SpanModel, Style, BOLD};
use crate::text::{
    char_count, chars_of, contains_seq, contains_str, copy_string, decimal, has_prefix, has_prefix_at,
    lowercase, push_char, push_decimal, push_str, starts_with_at, str_eq, string_is, substring,
    to_lowercase, to_owned_string, trim, trim_string,
};
use vstd::prelude::*;
use vstd::string::StringExecFns;
use vstd::utf8::encode_utf8;

verus! {

/// A key, as the navigation sees it.
#[derive(Clone, Copy, Debug, PartialEq, Eq, Structural)]
pub enum KeyCode {
    Char(char),
    Left,
    Right,
    Up,
    Down,
    Enter,
    Esc,
    Backspace,
    Other,
}

/// A key press: its code and whether Control was held.
#[derive(Clone, Copy, Debug, PartialEq, Eq, Structural)]
pub struct Key {
    pub code: KeyCode,
    pub ctrl: bool,
}

/// Where a terminal escape sequence being typed stands.
#[derive(Clone, Copy, Debug, PartialEq, Eq, Structural)]
pub enum EscapeSequence {
    Idle,
    Esc,
    Csi,
}

/// One row of the slide on screen.
#[derive(Clone, Debug)]
pub struct RowInfo {
    pub row: usize,
    pub search_text: String,
    pub heading_level: Option<u8>,
    pub link_urls: Vec<String>,
}

/// The slide on screen: its number of rows and its rows.
#[derive(Clone, Debug)]
pub struct CurrentView {
    pub total_rows: usize,
    pub rows: Vec<RowInfo>,
}

/// What the outline filter reads of a slide.
#[derive(Clone, Debug)]
pub struct OutlineEntry {
    pub name: String,
    pub title: String,
    pub body: String,
}

/// What a key asks of the caller.
#[derive(Clone, Debug, PartialEq, Eq)]
pub enum Action {
    Nothing,
    Quit,
    Reload,
    ShowPath,
    Open(String),
    OpenLink { url: String, links: usize },
    SlideChanged,
}

/// The navigation state.
#[derive(Clone, Debug)]
pub struct Navigator {
    pub current: usize,
    pub slide_count: usize,
    pub status: String,
    pub help: bool,
    pub outline: bool,
    pub search_focus: bool,
    pub outline_search_focus: bool,
    pub command_focus: bool,
    pub search: String,
    pub search_matches: Vec<SearchMatch>,
    pub search_match_index: usize,
    pub outline_query: String,
    pub command: String,
    pub text_scroll: usize,
    pub line_cursor: usize,
    pub body_rows: usize,
    pub outline_filtered: Vec<usize>,
    pub outline_index: usize,
    pub outline_scroll: usize,
    pub visual_anchor: Option<usize>,
    pub visual_cursor: usize,
    pub escape_sequence: EscapeSequence,
    pub csi_buffer: String,
}

pub struct RowModel {
    pub row: usize,
    pub text: Seq<char>,
    pub heading: Option<u8>,
    pub links: Seq<Seq<char>>,
}

pub struct ViewModel {
    pub total_rows: usize,
    pub rows: Seq<RowModel>,
}

pub struct EntryModel {
    pub name: Seq<char>,
    pub title: Seq<char>,
    pub body: Seq<char>,
}

pub enum ActionModel {
    Nothing,
    Quit,
    Reload,
    ShowPath,
    Open(Seq<char>),
    OpenLink { url: Seq<char>, links: usize },
    SlideChanged,
}

pub struct NavModel {
    pub current: usize,
    pub slide_count: usize,
    pub status: Seq<char>,
    pub help: bool,
    pub outline: bool,
    pub search_focus: bool,
    pub outline_search_focus: bool,
    pub command_focus: bool,
    pub search: Seq<char>,
    pub matches: Seq<SearchMatch>,
    pub match_index: usize,
    pub outline_query: Seq<char>,
    pub command: Seq<char>,
    pub scroll: usize,
    pub cursor: usize,
    pub body_rows: usize,
    pub filtered: Seq<usize>,
    pub outline_index: usize,
    pub outline_scroll: usize,
    pub anchor: Option<usize>,
    pub visual_cursor: usize,
    pub escape: EscapeSequence,
    pub csi: Seq<char>,
}

impl View for RowInfo {
    type V = RowModel;

    open spec fn view(&self) -> RowModel {
        RowModel {
            row: self.row,
            text: self.search_text@,
            heading: self.heading_level,
            links: self.link_urls.deep_view(),
        }
    }
}

impl DeepView for RowInfo {
    type V = RowModel;

    open spec fn deep_view(&self) -> RowModel {
        self@
    }
}

impl View for CurrentView {
    type V = ViewModel;

    open spec fn view(&self) -> ViewModel {
        ViewModel { total_rows: self.total_rows, rows: self.rows.deep_view() }
    }
}

impl View for OutlineEntry {
    type V = EntryModel;

    open spec fn view(&self) -> EntryModel {
        EntryModel { name: self.name@, title: self.title@, body: self.body@ }
    }
}

impl DeepView for OutlineEntry {
    type V = EntryModel;

    open spec fn deep_view(&self) -> EntryModel {
        self@
    }
}

impl View for Action {
    type V = ActionModel;

    open spec fn view(&self) -> ActionModel {
        match self {
            Action::Nothing => ActionModel::Nothing,
            Action::Quit => ActionModel::Quit,
            Action::Reload => ActionModel::Reload,
            Action::ShowPath => ActionModel::ShowPath,
            Action::Open(p) => ActionModel::Open(p@),
            Action::OpenLink { url, links } => ActionModel::OpenLink { url: url@, links: *links },
            Action::SlideChanged => ActionModel::SlideChanged,
        }
    }
}

impl View for Navigator {
    type V = NavModel;

    open spec fn view(&self) -> NavModel {
        NavModel {
            current: self.current,
            slide_count: self.slide_count,
            status: self.status@,
            help: self.help,
            outline: self.outline,
            search_focus: self.search_focus,
            outline_search_focus: self.outline_search_focus,
            command_focus: self.command_focus,
            search: self.search@,
            matches: self.search_matches@,
            match_index: self.search_match_index,
            outline_query: self.outline_query@,
            command: self.command@,
            scroll: self.text_scroll,
            cursor: self.line_cursor,
            body_rows: self.body_rows,
            filtered: self.outline_filtered@,
            outline_index: self.outline_index,
            outline_scroll: self.outline_scroll,
            anchor: self.visual_anchor,
            visual_cursor: self.visual_cursor,
            escape: self.escape_sequence,
            csi: self.csi_buffer@,
        }
    }
}

// ---------------------------------------------------------------------------
// Keys typed as escape sequences
// ---------------------------------------------------------------------------

/// The key a CSI sequence ending in `ch` stands for: arrows for `A` to `D`
/// in either case, else the character itself.
pub open spec fn csi_key(ch: char) -> KeyCode {
    if ch == 'A' || ch == 'a' {
        KeyCode::Up
    } else if ch == 'B' || ch == 'b' {
        KeyCode::Down
    } else if ch == 'C' || ch == 'c' {
        KeyCode::Right
    } else if ch == 'D' || ch == 'd' {
        KeyCode::Left
    } else {
        KeyCode::Char(ch)
    }
}

/// Reading a key through the escape-sequence recogniser: the recogniser's new
/// state and buffer, and the key to act on, if any. An `Esc` followed by `[`
/// or `O`, digits and `;` and a final letter reads as that arrow key.
pub open spec fn normalize(esc: EscapeSequence, csi: Seq<char>, key: Key) -> (
    EscapeSequence,
    Seq<char>,
    Option<Key>,
) {
    match key.code {
        KeyCode::Esc => (EscapeSequence::Esc, Seq::empty(), Some(key)),
        KeyCode::Char(ch) => if (ch == '[' || ch == 'O') && esc == EscapeSequence::Esc {
            (EscapeSequence::Csi, Seq::empty(), None)
        } else if esc == EscapeSequence::Csi && (('0' <= ch && ch <= '9') || ch == ';') {
            (EscapeSequence::Csi, csi.push(ch), None)
        } else if esc == EscapeSequence::Csi {
            (EscapeSequence::Idle, Seq::empty(), Some(Key { code: csi_key(ch), ..key }))
        } else if ch == '\u{8}' || ch == '\u{7f}' {
            (EscapeSequence::Idle, Seq::empty(), Some(Key { code: KeyCode::Backspace, ..key }))
        } else {
            (EscapeSequence::Idle, Seq::empty(), Some(key))
        },
        _ => (EscapeSequence::Idle, Seq::empty(), Some(key)),
    }
}

// ---------------------------------------------------------------------------
// Rows, cursors and scrolling
// ---------------------------------------------------------------------------

/// The last row of the view (0 for an empty one).
pub open spec fn last_row(v: ViewModel) -> int {
    if v.total_rows >= 1 {
        v.total_rows - 1
    } else {
        0
    }
}

/// The first row entry for row `r`, if any.
pub open spec fn row_entry(rows: Seq<RowModel>, r: int) -> Option<RowModel>
    decreases rows.len(),
{
    if rows.len() == 0 {
        None
    } else if rows[0].row == r {
        Some(rows[0])
    } else {
        row_entry(rows.drop_first(), r)
    }
}

/// A row with no text (or no entry at all).
pub open spec fn row_blank(v: ViewModel, r: int) -> bool {
    match row_entry(v.rows, r) {
        Some(e) => trim(e.text).len() == 0,
        None => true,
    }
}

/// The first row from `r` down to `max_row` that is not blank, or -1.
pub open spec fn scan_down(v: ViewModel, r: int, max_row: int) -> int
    decreases max_row + 1 - r,
{
    if r < 0 || r > max_row {
        -1
    } else if !row_blank(v, r) {
        r
    } else {
        scan_down(v, r + 1, max_row)
    }
}

/// The first row from `r` up to 0 that is not blank, or -1.
pub open spec fn scan_up(v: ViewModel, r: int, max_row: int) -> int
    decreases r + 1,
{
    if r < 0 || r > max_row {
        -1
    } else if !row_blank(v, r) {
        r
    } else {
        scan_up(v, r - 1, max_row)
    }
}

pub open spec fn clamp(x: int, lo: int, hi: int) -> int {
    if x < lo {
        lo
    } else if x > hi {
        hi
    } else {
        x
    }
}

/// The row a cursor at `current` moves to by `delta` rows: the target,
/// clamped to the view, then onwards in the direction of travel to the first
/// row with text; the clamped target when there is none.
pub open spec fn next_cursor_row(v: ViewModel, current: int, delta: int) -> int {
    let max_row = last_row(v);
    let next = clamp(current + delta, 0, max_row);
    if delta == 0 {
        next
    } else {
        let found = if delta > 0 {
            scan_down(v, next, max_row)
        } else {
            scan_up(v, next, max_row)
        };
        if found >= 0 {
            found
        } else {
            next
        }
    }
}

/// The scroll that keeps row `r` in a body of `body_rows` rows.
pub open spec fn scroll_to_show(scroll: int, r: int, body_rows: int) -> int {
    if body_rows == 0 {
        scroll
    } else if r < scroll {
        r
    } else if r >= scroll + body_rows {
        r - (body_rows - 1)
    } else {
        scroll
    }
}

/// Moves the line cursor by `delta` rows and keeps it in view.
pub open spec fn move_line_cursor(s: NavModel, v: ViewModel, delta: int) -> NavModel {
    let c = next_cursor_row(v, s.cursor as int, delta);
    NavModel {
        cursor: c as usize,
        scroll: scroll_to_show(s.scroll as int, c, s.body_rows as int) as usize,
        ..s
    }
}

/// Moves the visual cursor by `delta` rows and keeps it in view.
pub open spec fn move_visual_cursor(s: NavModel, v: ViewModel, delta: int) -> NavModel {
    let c = next_cursor_row(v, s.visual_cursor as int, delta);
    NavModel {
        visual_cursor: c as usize,
        scroll: scroll_to_show(s.scroll as int, c, s.body_rows as int) as usize,
        ..s
    }
}

/// Moves whichever cursor is active.
pub open spec fn move_cursor(s: NavModel, v: ViewModel, delta: int) -> NavModel {
    if s.anchor is Some {
        move_visual_cursor(s, v, delta)
    } else {
        move_line_cursor(s, v, delta)
    }
}

/// Scrolls by `delta` rows (as far as the text goes) and moves the active cursor along.
pub open spec fn scroll_text(s: NavModel, v: ViewModel, delta: int) -> NavModel {
    let max_scroll = if v.total_rows >= s.body_rows {
        v.total_rows - s.body_rows
    } else {
        0
    };
    let next = clamp(s.scroll + delta, 0, usize::MAX as int);
    let scrolled = NavModel {
        scroll: (if next < max_scroll {
            next
        } else {
            max_scroll
        }) as usize,
        ..s
    };
    move_cursor(scrolled, v, delta)
}

/// Half the body, at least one row: the distance of Ctrl-D and Ctrl-U.
pub open spec fn half_page(body_rows: int) -> int {
    (if body_rows >= 2 {
        body_rows
    } else {
        2
    }) / 2
}

// ---------------------------------------------------------------------------
// Search
// ---------------------------------------------------------------------------

/// The match of `q` at character `p` of a row's (lower-cased) text `hay`:
/// it starts at the byte offset of that character in the text's UTF-8 form
/// and is as long as `q` has characters.
pub open spec fn hit(row: usize, hay: Seq<char>, p: int, q: Seq<char>) -> SearchMatch {
    SearchMatch { row, start: encode_utf8(hay.take(p)).len() as usize, len: q.len() as usize }
}

/// The matches of `q` in one row's text: every position where it occurs.
pub open spec fn row_hits(row: usize, hay: Seq<char>, q: Seq<char>, from: int) -> Seq<SearchMatch>
    decreases hay.len() + 1 - from,
{
    if from < 0 || from > hay.len() {
        Seq::empty()
    } else if has_prefix_at(hay, from, q) {
        seq![hit(row, hay, from, q)] + row_hits(row, hay, q, from + 1)
    } else {
        row_hits(row, hay, q, from + 1)
    }
}

/// Searching `hay` for `q` can step past every occurrence: each begins with
/// a one-byte character (the search resumes one byte after an occurrence's
/// start, which must be a character boundary).
pub open spec fn row_search_safe(hay: Seq<char>, q: Seq<char>) -> bool {
    forall|p: int|
        0 <= p <= hay.len() && #[trigger] has_prefix_at(hay, p, q) ==> p < hay.len() && (hay[p] as u32)
            < 0x80
}

/// Searching the rows for `search` (lower-cased, as the rows are) can step
/// past every occurrence.
pub open spec fn search_safe(search: Seq<char>, v: ViewModel) -> bool {
    search.len() == 0 || forall|i: int|
        0 <= i < v.rows.len() ==> row_search_safe(lowercase(#[trigger] v.rows[i].text), lowercase(search))
}

/// A key typed into the search field searches safely.
pub open spec fn search_key_safe(s: NavModel, v: ViewModel, key: Key) -> bool {
    match key.code {
        KeyCode::Backspace => search_safe(pop_last(s.search), v),
        KeyCode::Char(ch) => search_safe(s.search.push(ch), v),
        _ => true,
    }
}

/// The matches of `q` in the rows, row by row.
pub open spec fn view_hits(rows: Seq<RowModel>, q: Seq<char>) -> Seq<SearchMatch>
    decreases rows.len(),
{
    if rows.len() == 0 {
        Seq::empty()
    } else {
        view_hits(rows.drop_last(), q) + row_hits(
            rows.last().row,
            lowercase(rows.last().text),
            q,
            0,
        )
    }
}

/// The status line for the focused match.
pub open spec fn match_status(index: int, total: int, search: Seq<char>) -> Seq<char> {
    "match "@ + decimal((index + 1) as nat) + "/"@ + decimal(total as nat) + " for /"@ + search
}

/// Puts the cursor on the focused match and shows it.
pub open spec fn focus_match(s: NavModel) -> NavModel {
    if s.matches.len() == 0 || s.body_rows == 0 {
        s
    } else {
        let row = s.matches[s.match_index as int].row;
        NavModel {
            cursor: row,
            visual_cursor: if s.anchor is Some {
                row
            } else {
                s.visual_cursor
            },
            scroll: scroll_to_show(s.scroll as int, row as int, s.body_rows as int) as usize,
            status: match_status(s.match_index as int, s.matches.len() as int, s.search),
            ..s
        }
    }
}

/// Searches the view for the search text, ignoring case, and focuses the first match.
pub open spec fn update_search(s: NavModel, v: ViewModel) -> NavModel {
    let cleared = NavModel { matches: Seq::empty(), match_index: 0, status: Seq::empty(), ..s };
    if s.search.len() == 0 {
        cleared
    } else {
        let hits = view_hits(v.rows, lowercase(s.search));
        if hits.len() == 0 {
            NavModel { status: "no matches for /"@ + s.search, ..cleared }
        } else {
            focus_match(NavModel { matches: hits, ..cleared })
        }
    }
}

/// Steps to the next or previous match, wrapping around.
pub open spec fn advance_match(s: NavModel, forward: bool) -> NavModel {
    if s.matches.len() == 0 {
        s
    } else {
        let n = s.matches.len() as int;
        let i = s.match_index as int;
        let next = if forward {
            if i + 1 >= n {
                0
            } else {
                i + 1
            }
        } else {
            if i == 0 {
                n - 1
            } else {
                i - 1
            }
        };
        focus_match(NavModel { match_index: next as usize, ..s })
    }
}

/// Leaves the search and forgets it.
pub open spec fn clear_search(s: NavModel) -> NavModel {
    NavModel {
        search_focus: false,
        search: Seq::empty(),
        matches: Seq::empty(),
        match_index: 0,
        status: Seq::empty(),
        ..s
    }
}

// ---------------------------------------------------------------------------
// Visual selection
// ---------------------------------------------------------------------------

pub open spec fn visual_word() -> Seq<char> {
    "visual"@
}

/// Leaves visual mode, dropping its status.
pub open spec fn clear_visual(s: NavModel) -> NavModel {
    NavModel {
        anchor: None,
        status: if s.status == visual_word() {
            Seq::empty()
        } else {
            s.status
        },
        ..s
    }
}

/// Enters visual mode at the line cursor, or leaves it.
pub open spec fn toggle_visual(s: NavModel) -> NavModel {
    if s.anchor is Some {
        clear_visual(s)
    } else {
        NavModel {
            anchor: Some(s.cursor),
            visual_cursor: s.cursor,
            status: visual_word(),
            ..s
        }
    }
}

// ---------------------------------------------------------------------------
// Slides and outline
// ---------------------------------------------------------------------------

/// After showing another slide: back to its top. The search is redone by the
/// caller on the new slide's view.
pub open spec fn reset_position(s: NavModel) -> NavModel {
    NavModel { scroll: 0, cursor: 0, ..s }
}

pub open spec fn next_slide(s: NavModel) -> (NavModel, bool) {
    if s.current + 1 < s.slide_count {
        (reset_position(clear_visual(NavModel { current: (s.current + 1) as usize, ..s })), true)
    } else {
        (s, false)
    }
}

pub open spec fn previous_slide(s: NavModel) -> (NavModel, bool) {
    if s.current > 0 {
        (reset_position(clear_visual(NavModel { current: (s.current - 1) as usize, ..s })), true)
    } else {
        (s, false)
    }
}

/// `g`: the first slide.
pub open spec fn first_slide(s: NavModel) -> (NavModel, bool) {
    if s.current > 0 {
        (reset_position(clear_visual(NavModel { current: 0, ..s })), true)
    } else {
        (s, false)
    }
}

/// `G`: the last slide.
pub open spec fn last_slide(s: NavModel) -> (NavModel, bool) {
    if s.current + 1 < s.slide_count {
        (reset_position(clear_visual(NavModel { current: (s.slide_count - 1) as usize, ..s })), true)
    } else {
        (s, false)
    }
}

/// The number of outline rows kept in view.
pub open spec fn outline_height() -> int {
    12
}

/// Keeps the selected outline entry in view.
pub open spec fn ensure_outline_visible(s: NavModel) -> NavModel {
    let s1 = if s.outline_index < s.outline_scroll {
        NavModel { outline_scroll: s.outline_index, ..s }
    } else {
        s
    };
    if s1.outline_index >= s1.outline_scroll + outline_height() {
        NavModel { outline_scroll: (s1.outline_index - outline_height() + 1) as usize, ..s1 }
    } else {
        s1
    }
}

/// Whether an outline entry matches the (lower-cased, trimmed) query.
pub open spec fn entry_matches(e: EntryModel, q: Seq<char>) -> bool {
    q.len() == 0 || contains_seq(lowercase(e.name), q) || contains_seq(lowercase(e.title), q)
        || contains_seq(lowercase(e.body), q)
}

/// The positions of the entries that match.
pub open spec fn filter_entries(es: Seq<EntryModel>, q: Seq<char>) -> Seq<usize>
    decreases es.len(),
{
    if es.len() == 0 {
        Seq::empty()
    } else {
        let prev = filter_entries(es.drop_last(), q);
        if entry_matches(es.last(), q) {
            prev.push((es.len() - 1) as usize)
        } else {
            prev
        }
    }
}

/// Filters the outline by its query and keeps the selection on an entry.
pub open spec fn recompute_outline(s: NavModel, es: Seq<EntryModel>) -> NavModel {
    let f = filter_entries(es, lowercase(trim(s.outline_query)));
    let idx = if s.outline_index >= f.len() {
        if f.len() >= 1 {
            (f.len() - 1) as usize
        } else {
            0
        }
    } else {
        s.outline_index
    };
    ensure_outline_visible(NavModel { filtered: f, outline_index: idx, ..s })
}

} // verus!

verus! {

// ---------------------------------------------------------------------------
// The keys
// ---------------------------------------------------------------------------

/// `s` without its last character, as `String::pop` leaves it.
pub open spec fn pop_last(s: Seq<char>) -> Seq<char> {
    if s.len() > 0 {
        s.drop_last()
    } else {
        s
    }
}

/// Ctrl-C: leaves the innermost open mode, and asks to quit when none is open.
pub open spec fn ctrl_c(s: NavModel) -> (NavModel, bool) {
    if s.command_focus {
        (NavModel { command_focus: false, command: Seq::empty(), ..s }, false)
    } else if s.search_focus {
        let s1 = NavModel { search_focus: false, ..s };
        (
            if s.search.len() == 0 {
                clear_search(s1)
            } else {
                s1
            },
            false,
        )
    } else if s.outline_search_focus {
        (NavModel { outline_search_focus: false, ..s }, false)
    } else if s.help {
        (NavModel { help: false, ..s }, false)
    } else if s.outline {
        (NavModel { outline: false, ..s }, false)
    } else if s.search.len() > 0 {
        (clear_search(s), false)
    } else if s.anchor is Some {
        (clear_visual(s), false)
    } else {
        (s, true)
    }
}

/// A key typed into the search field.
pub open spec fn search_key(s: NavModel, v: ViewModel, key: Key) -> NavModel {
    match key.code {
        KeyCode::Esc => {
            let s1 = NavModel { search_focus: false, ..s };
            if s.search.len() == 0 {
                clear_search(s1)
            } else {
                s1
            }
        },
        KeyCode::Enter => NavModel { search_focus: false, ..s },
        KeyCode::Backspace => update_search(NavModel { search: pop_last(s.search), ..s }, v),
        KeyCode::Char(ch) => update_search(NavModel { search: s.search.push(ch), ..s }, v),
        _ => s,
    }
}

/// A key typed into the outline filter.
pub open spec fn outline_search_key(s: NavModel, es: Seq<EntryModel>, key: Key) -> NavModel {
    match key.code {
        KeyCode::Esc => NavModel { outline_search_focus: false, ..s },
        KeyCode::Enter => NavModel { outline_search_focus: false, ..s },
        KeyCode::Backspace => recompute_outline(
            NavModel { outline_query: pop_last(s.outline_query), ..s },
            es,
        ),
        KeyCode::Char(ch) => recompute_outline(
            NavModel { outline_query: s.outline_query.push(ch), ..s },
            es,
        ),
        _ => s,
    }
}

/// What a command line asks for: quitting, reloading, showing the path,
/// opening a path; anything else is reported as unknown.
pub open spec fn execute_command(s: NavModel, command: Seq<char>) -> (NavModel, ActionModel) {
    let t = trim(command);
    if t == "q"@ || t == "quit"@ {
        (s, ActionModel::Quit)
    } else if t == "r"@ || t == "reload"@ {
        (s, ActionModel::Reload)
    } else if t == "p"@ || t == "path"@ {
        (s, ActionModel::ShowPath)
    } else if has_prefix(t, "open "@) {
        (s, ActionModel::Open(trim(t.skip(5))))
    } else if has_prefix(t, "o "@) {
        (s, ActionModel::Open(trim(t.skip(2))))
    } else if has_prefix(t, "e "@) {
        (s, ActionModel::Open(trim(t.skip(2))))
    } else {
        (NavModel { status: "unknown command: :"@ + t, ..s }, ActionModel::Nothing)
    }
}

/// A key typed into the command line.
pub open spec fn command_key(s: NavModel, key: Key) -> (NavModel, ActionModel) {
    match key.code {
        KeyCode::Esc => (
            NavModel { command_focus: false, command: Seq::empty(), ..s },
            ActionModel::Nothing,
        ),
        KeyCode::Enter => {
            let cmd = trim(s.command);
            let s1 = NavModel { command_focus: false, command: Seq::empty(), ..s };
            if cmd.len() > 0 {
                execute_command(s1, cmd)
            } else {
                (s1, ActionModel::Nothing)
            }
        },
        KeyCode::Backspace => (NavModel { command: pop_last(s.command), ..s }, ActionModel::Nothing),
        KeyCode::Char(ch) => (NavModel { command: s.command.push(ch), ..s }, ActionModel::Nothing),
        _ => (s, ActionModel::Nothing),
    }
}

/// Pasted text goes to whichever field has the focus.
pub open spec fn paste(s: NavModel, v: ViewModel, es: Seq<EntryModel>, data: Seq<char>) -> NavModel {
    if s.command_focus {
        NavModel { command: s.command + data, ..s }
    } else if s.search_focus {
        update_search(NavModel { search: s.search + data, ..s }, v)
    } else if s.outline_search_focus {
        recompute_outline(NavModel { outline_query: s.outline_query + data, ..s }, es)
    } else {
        s
    }
}

/// The rows of the view's headings, in order.
pub open spec fn heading_rows(rows: Seq<RowModel>) -> Seq<usize>
    decreases rows.len(),
{
    if rows.len() == 0 {
        Seq::empty()
    } else if rows.last().heading is Some {
        heading_rows(rows.drop_last()).push(rows.last().row)
    } else {
        heading_rows(rows.drop_last())
    }
}

/// The last of `rs` below `cur`.
pub open spec fn last_below(rs: Seq<usize>, cur: int) -> Option<usize>
    decreases rs.len(),
{
    if rs.len() == 0 {
        None
    } else if rs.last() < cur {
        Some(rs.last())
    } else {
        last_below(rs.drop_last(), cur)
    }
}

/// The first of `rs` above `cur`.
pub open spec fn first_above(rs: Seq<usize>, cur: int) -> Option<usize>
    decreases rs.len(),
{
    if rs.len() == 0 {
        None
    } else if rs[0] > cur {
        Some(rs[0])
    } else {
        first_above(rs.drop_first(), cur)
    }
}

/// `[` and `]`: the cursor goes to the previous or next heading.
pub open spec fn jump_heading(s: NavModel, v: ViewModel, forward: bool) -> NavModel {
    let cur = if s.anchor is Some {
        s.visual_cursor
    } else {
        s.cursor
    };
    let rs = heading_rows(v.rows);
    let target = if forward {
        first_above(rs, cur as int)
    } else {
        last_below(rs, cur as int)
    };
    match target {
        Some(r) => {
            let s1 = NavModel {
                cursor: r,
                scroll: scroll_to_show(s.scroll as int, r as int, s.body_rows as int) as usize,
                ..s
            };
            if s.anchor is Some {
                NavModel {
                    visual_cursor: r,
                    scroll: scroll_to_show(s1.scroll as int, r as int, s1.body_rows as int) as usize,
                    ..s1
                }
            } else {
                s1
            }
        },
        None => s,
    }
}

/// The row the active cursor is on.
pub open spec fn active_row(s: NavModel) -> usize {
    if s.anchor is Some {
        s.visual_cursor
    } else {
        s.cursor
    }
}

/// The first link of a row and the number of links on it.
pub open spec fn first_link(v: ViewModel, r: int) -> Option<(Seq<char>, usize)> {
    match row_entry(v.rows, r) {
        Some(e) => if e.links.len() > 0 {
            Some((e.links[0], e.links.len() as usize))
        } else {
            None
        },
        None => None,
    }
}

/// Puts the visual cursor on `r` (at most the last row) and shows it.
pub open spec fn set_visual_cursor(s: NavModel, v: ViewModel, r: int) -> NavModel {
    let c = if r < last_row(v) {
        r
    } else {
        last_row(v)
    };
    NavModel {
        visual_cursor: c as usize,
        scroll: scroll_to_show(s.scroll as int, c, s.body_rows as int) as usize,
        ..s
    }
}

/// Shows the outline entry selected, when there is one.
pub open spec fn open_selected(s: NavModel) -> (NavModel, ActionModel) {
    if s.outline_index < s.filtered.len() {
        (
            reset_position(
                NavModel { current: s.filtered[s.outline_index as int], outline: false, ..s },
            ),
            ActionModel::SlideChanged,
        )
    } else {
        (s, ActionModel::Nothing)
    }
}

pub open spec fn slide_moved(p: (NavModel, bool)) -> (NavModel, ActionModel) {
    (
        p.0,
        if p.1 {
            ActionModel::SlideChanged
        } else {
            ActionModel::Nothing
        },
    )
}

pub open spec fn stay(s: NavModel) -> (NavModel, ActionModel) {
    (s, ActionModel::Nothing)
}

/// A key of presentation mode (no field has the focus).
pub open spec fn main_key(s: NavModel, v: ViewModel, es: Seq<EntryModel>, key: Key) -> (
    NavModel,
    ActionModel,
) {
    match key.code {
        KeyCode::Char('q') => (s, ActionModel::Quit),
        KeyCode::Char('?') => stay(NavModel { help: !s.help, outline: false, ..s }),
        KeyCode::Char('V') => stay(toggle_visual(s)),
        KeyCode::Esc => if s.help {
            stay(NavModel { help: false, ..s })
        } else if s.outline {
            stay(NavModel { outline: false, ..s })
        } else if s.search.len() > 0 {
            stay(clear_search(s))
        } else if s.anchor is Some {
            stay(clear_visual(s))
        } else {
            (s, ActionModel::Quit)
        },
        KeyCode::Char('o') => stay(recompute_outline(NavModel { outline: !s.outline, ..s }, es)),
        KeyCode::Char('/') => if s.outline {
            stay(NavModel { outline_search_focus: true, ..s })
        } else {
            stay(update_search(NavModel { search_focus: true, ..s }, v))
        },
        KeyCode::Char(':') => stay(NavModel { command_focus: true, command: Seq::empty(), ..s }),
        KeyCode::Char('r') => (s, ActionModel::Reload),
        KeyCode::Char('g') => if s.anchor is Some {
            stay(set_visual_cursor(s, v, 0))
        } else {
            slide_moved(first_slide(s))
        },
        KeyCode::Char('G') => if s.anchor is Some {
            stay(set_visual_cursor(s, v, last_row(v)))
        } else {
            slide_moved(last_slide(s))
        },
        KeyCode::Char('n') => if !s.outline {
            stay(advance_match(s, true))
        } else {
            stay(s)
        },
        KeyCode::Char('N') => if !s.outline {
            stay(advance_match(s, false))
        } else {
            stay(s)
        },
        KeyCode::Char('[') => stay(jump_heading(s, v, false)),
        KeyCode::Char(']') => stay(jump_heading(s, v, true)),
        KeyCode::Right => forward_key(s, v),
        KeyCode::Char('l') => forward_key(s, v),
        KeyCode::Left => back_key(s, v),
        KeyCode::Char('h') => back_key(s, v),
        KeyCode::Backspace => back_key(s, v),
        KeyCode::Enter => if s.outline {
            open_selected(s)
        } else {
            match first_link(v, active_row(s) as int) {
                Some((url, n)) => (s, ActionModel::OpenLink { url, links: n }),
                None => slide_moved(next_slide(s)),
            }
        },
        KeyCode::Char(' ') => if s.outline {
            open_selected(s)
        } else {
            slide_moved(next_slide(s))
        },
        KeyCode::Up => up_key(s, v),
        KeyCode::Char('k') => if s.outline || s.anchor is Some {
            up_key(s, v)
        } else {
            slide_moved(previous_slide(s))
        },
        KeyCode::Down => down_key(s, v),
        KeyCode::Char('j') => if s.outline || s.anchor is Some {
            down_key(s, v)
        } else {
            slide_moved(next_slide(s))
        },
        KeyCode::Char('d') => if key.ctrl {
            stay(scroll_text(s, v, half_page(s.body_rows as int)))
        } else {
            stay(s)
        },
        KeyCode::Char('u') => if key.ctrl {
            stay(scroll_text(s, v, -half_page(s.body_rows as int)))
        } else {
            stay(s)
        },
        _ => stay(s),
    }
}

/// Right and `l`: open the selected outline entry, move the visual cursor
/// down, or go to the next slide.
pub open spec fn forward_key(s: NavModel, v: ViewModel) -> (NavModel, ActionModel) {
    if s.outline {
        open_selected(s)
    } else if s.anchor is Some {
        stay(move_visual_cursor(s, v, 1))
    } else {
        slide_moved(next_slide(s))
    }
}

/// Left, `h` and Backspace: select the outline entry above, move the visual
/// cursor up, or go to the previous slide.
pub open spec fn back_key(s: NavModel, v: ViewModel) -> (NavModel, ActionModel) {
    if s.outline {
        if s.outline_index > 0 {
            stay(ensure_outline_visible(NavModel { outline_index: (s.outline_index - 1) as usize, ..s }))
        } else {
            stay(s)
        }
    } else if s.anchor is Some {
        stay(move_visual_cursor(s, v, -1))
    } else {
        slide_moved(previous_slide(s))
    }
}

/// Up (and `k` in the outline or a visual selection).
pub open spec fn up_key(s: NavModel, v: ViewModel) -> (NavModel, ActionModel) {
    if s.outline {
        if s.outline_index > 0 {
            stay(ensure_outline_visible(NavModel { outline_index: (s.outline_index - 1) as usize, ..s }))
        } else {
            stay(s)
        }
    } else {
        stay(move_cursor(s, v, -1))
    }
}

/// Down (and `j` in the outline or a visual selection).
pub open spec fn down_key(s: NavModel, v: ViewModel) -> (NavModel, ActionModel) {
    if s.outline {
        if s.outline_index + 1 < s.filtered.len() {
            stay(ensure_outline_visible(NavModel { outline_index: (s.outline_index + 1) as usize, ..s }))
        } else {
            stay(s)
        }
    } else {
        stay(move_cursor(s, v, 1))
    }
}

/// A key, after the escape-sequence recogniser has let it through.
pub open spec fn key_action(s: NavModel, v: ViewModel, es: Seq<EntryModel>, key: Key) -> (
    NavModel,
    ActionModel,
) {
    if key.code == KeyCode::Char('c') && key.ctrl {
        let p = ctrl_c(s);
        (
            p.0,
            if p.1 {
                ActionModel::Quit
            } else {
                ActionModel::Nothing
            },
        )
    } else if (s.help || s.search_focus || s.outline_search_focus || s.command_focus) && (key.code
        == KeyCode::Left || key.code == KeyCode::Right) {
        let s1 = NavModel {
            help: false,
            search_focus: false,
            outline_search_focus: false,
            command_focus: false,
            ..s
        };
        let forward = key.code == KeyCode::Right;
        if s1.anchor is Some {
            stay(move_visual_cursor(s1, v, if forward { 1 } else { -1 }))
        } else if forward {
            slide_moved(next_slide(s1))
        } else {
            slide_moved(previous_slide(s1))
        }
    } else if s.search_focus {
        stay(search_key(s, v, key))
    } else if s.outline_search_focus {
        stay(outline_search_key(s, es, key))
    } else if s.command_focus {
        command_key(s, key)
    } else {
        main_key(s, v, es, key)
    }
}

/// What a key press does: the navigation's next state and what it asks of the caller.
pub open spec fn handle_key(s: NavModel, v: ViewModel, es: Seq<EntryModel>, key: Key) -> (
    NavModel,
    ActionModel,
) {
    let n = normalize(s.escape, s.csi, key);
    let s0 = NavModel { escape: n.0, csi: n.1, ..s };
    match n.2 {
        None => stay(s0),
        Some(k) => key_action(s0, v, es, k),
    }
}

/// The text a key press has the navigation search for, if it runs a search:
/// a key typed into the search field, or `/` in the bare presentation.
pub open spec fn searched_text(s: NavModel, key: Key) -> Option<Seq<char>> {
    match normalize(s.escape, s.csi, key).2 {
        None => None,
        Some(k) => if k.code == KeyCode::Char('c') && k.ctrl {
            None
        } else if (s.help || s.search_focus || s.outline_search_focus || s.command_focus) && (k.code
            == KeyCode::Left || k.code == KeyCode::Right) {
            None
        } else if s.search_focus {
            match k.code {
                KeyCode::Backspace => Some(pop_last(s.search)),
                KeyCode::Char(ch) => Some(s.search.push(ch)),
                _ => None,
            }
        } else if s.outline_search_focus || s.command_focus {
            None
        } else if k.code == KeyCode::Char('/') && !s.outline {
            Some(s.search)
        } else {
            None
        },
    }
}

/// The search a key press runs, if any, can step past every occurrence.
pub open spec fn key_search_safe(s: NavModel, v: ViewModel, key: Key) -> bool {
    match searched_text(s, key) {
        Some(t) => search_safe(t, v),
        None => true,
    }
}

} // verus!

verus! {

// ---------------------------------------------------------------------------
// Executable navigation
// ---------------------------------------------------------------------------

/// Reads a key through the escape-sequence recogniser.
pub fn normalize_key_event(esc: EscapeSequence, csi: &mut String, key: Key) -> (r: (
    EscapeSequence,
    Option<Key>,
))
    ensures
        (r.0, final(csi)@, r.1) == normalize(esc, old(csi)@, key),
{
    match key.code {
        KeyCode::Esc => {
            *csi = String::new();
            (EscapeSequence::Esc, Some(key))
        },
        KeyCode::Char(ch) => {
            if (ch == '[' || ch == 'O') && esc == EscapeSequence::Esc {
                *csi = String::new();
                (EscapeSequence::Csi, None)
            } else if esc == EscapeSequence::Csi && (('0' <= ch && ch <= '9') || ch == ';') {
                push_char(csi, ch);
                (EscapeSequence::Csi, None)
            } else if esc == EscapeSequence::Csi {
                *csi = String::new();
                let code = if ch == 'A' || ch == 'a' {
                    KeyCode::Up
                } else if ch == 'B' || ch == 'b' {
                    KeyCode::Down
                } else if ch == 'C' || ch == 'c' {
                    KeyCode::Right
                } else if ch == 'D' || ch == 'd' {
                    KeyCode::Left
                } else {
                    KeyCode::Char(ch)
                };
                (EscapeSequence::Idle, Some(Key { code, ..key }))
            } else if ch == '\u{8}' || ch == '\u{7f}' {
                *csi = String::new();
                (EscapeSequence::Idle, Some(Key { code: KeyCode::Backspace, ..key }))
            } else {
                *csi = String::new();
                (EscapeSequence::Idle, Some(key))
            }
        },
        _ => {
            *csi = String::new();
            (EscapeSequence::Idle, Some(key))
        },
    }
}

/// The last row of the view.
fn last_row_exec(v: &CurrentView) -> (r: usize)
    ensures
        r == last_row(v@),
{
    if v.total_rows >= 1 {
        v.total_rows - 1
    } else {
        0
    }
}

/// The first entry of row `r`.
fn row_entry_exec(v: &CurrentView, r: usize) -> (e: Option<usize>)
    ensures
        e matches Some(i) ==> i < v.rows.len() && row_entry(v@.rows, r as int) == Some(
            v@.rows[i as int],
        ),
        e is None ==> row_entry(v@.rows, r as int) is None,
{
    let ghost rows = v@.rows;
    let mut i: usize = 0;
    assert(rows.skip(0) =~= rows);
    while i < v.rows.len()
        invariant
            i <= v.rows.len(),
            rows == v@.rows,
            rows.len() == v.rows.len(),
            row_entry(rows, r as int) == row_entry(rows.skip(i as int), r as int),
        decreases v.rows.len() - i,
    {
        assert(rows.skip(i as int)[0] == rows[i as int]);
        if v.rows[i].row == r {
            return Some(i);
        }
        assert(rows.skip(i as int).drop_first() =~= rows.skip(i as int + 1));
        i += 1;
    }
    None
}

fn row_blank_exec(v: &CurrentView, r: usize) -> (b: bool)
    ensures
        b == row_blank(v@, r as int),
{
    match row_entry_exec(v, r) {
        Some(i) => {
            let t = trim_string(v.rows[i].search_text.as_str());
            t.as_str().is_empty()
        },
        None => true,
    }
}

/// The first row from `r` down to `max_row` with text, or `None`.
fn scan_down_exec(v: &CurrentView, r: usize, max_row: usize) -> (found: Option<usize>)
    requires
        max_row < usize::MAX,
    ensures
        found matches Some(x) ==> x as int == scan_down(v@, r as int, max_row as int),
        found is None ==> scan_down(v@, r as int, max_row as int) == -1,
{
    let mut k = r;
    while k <= max_row
        invariant
            r <= k,
            max_row < usize::MAX,
            scan_down(v@, r as int, max_row as int) == scan_down(v@, k as int, max_row as int),
        decreases max_row + 1 - k,
    {
        if !row_blank_exec(v, k) {
            return Some(k);
        }
        k += 1;
    }
    None
}

/// The first row from `r` up to 0 with text, or `None`.
fn scan_up_exec(v: &CurrentView, r: usize, max_row: usize) -> (found: Option<usize>)
    requires
        r <= max_row,
    ensures
        found matches Some(x) ==> x as int == scan_up(v@, r as int, max_row as int),
        found is None ==> scan_up(v@, r as int, max_row as int) == -1,
{
    let mut k = r;
    loop
        invariant
            k <= r <= max_row,
            scan_up(v@, r as int, max_row as int) == scan_up(v@, k as int, max_row as int),
        decreases k,
    {
        if !row_blank_exec(v, k) {
            return Some(k);
        }
        if k == 0 {
            assert(scan_up(v@, -1, max_row as int) == -1);
            return None;
        }
        k -= 1;
    }
}

/// The row a cursor at `current` moves to by `amount` rows down or up.
fn next_cursor_row_exec(v: &CurrentView, current: usize, amount: usize, down: bool) -> (r: usize)
    ensures
        r as int == next_cursor_row(
            v@,
            current as int,
            if down {
                amount as int
            } else {
                -amount
            },
        ),
{
    let max_row = last_row_exec(v);
    let next = if down {
        if current > max_row || amount > max_row - current {
            max_row
        } else {
            current + amount
        }
    } else {
        let lowered = if amount >= current {
            0
        } else {
            current - amount
        };
        if lowered > max_row {
            max_row
        } else {
            lowered
        }
    };
    if amount == 0 {
        return next;
    }
    let found = if down {
        scan_down_exec(v, next, max_row)
    } else {
        scan_up_exec(v, next, max_row)
    };
    match found {
        Some(x) => x,
        None => next,
    }
}

fn scroll_to_show_exec(scroll: usize, r: usize, body_rows: usize) -> (s: usize)
    ensures
        s as int == scroll_to_show(scroll as int, r as int, body_rows as int),
{
    if body_rows == 0 {
        scroll
    } else if r < scroll {
        r
    } else if r - scroll >= body_rows {
        r - (body_rows - 1)
    } else {
        scroll
    }
}

fn half_page_exec(body_rows: usize) -> (r: usize)
    ensures
        r as int == half_page(body_rows as int),
{
    (if body_rows >= 2 {
        body_rows
    } else {
        2
    }) / 2
}

/// Appends the decimal form of `n`.
fn push_count(out: &mut String, n: usize)
    ensures
        final(out)@ == old(out)@ + decimal(n as nat),
{
    push_decimal(out, n as u128);
}

/// Encoding a concatenation concatenates the encodings.
proof fn lemma_encode_utf8_concat(a: Seq<char>, b: Seq<char>)
    ensures
        encode_utf8(a + b) == encode_utf8(a) + encode_utf8(b),
    decreases a.len(),
{
    if a.len() == 0 {
        assert(a + b =~= b);
        assert(encode_utf8(a) + encode_utf8(b) =~= encode_utf8(b));
    } else {
        lemma_encode_utf8_concat(a.drop_first(), b);
        assert((a + b).drop_first() =~= a.drop_first() + b);
        assert((a + b)[0] == a[0]);
        assert(encode_utf8(a + b) =~= encode_utf8(a) + encode_utf8(b));
    }
}

/// The bytes of the first `i + 1` characters: those of the first `i` and of
/// character `i`; no more than the bytes of the whole.
proof fn lemma_encode_utf8_take(s: Seq<char>, i: int)
    requires
        0 <= i < s.len(),
    ensures
        encode_utf8(s.take(i + 1)).len() == encode_utf8(s.take(i)).len() + encode_utf8(
            seq![s[i]],
        ).len(),
        encode_utf8(s.take(i + 1)).len() <= encode_utf8(s).len(),
{
    assert(s.take(i + 1) =~= s.take(i) + seq![s[i]]);
    lemma_encode_utf8_concat(s.take(i), seq![s[i]]);
    assert(s =~= s.take(i + 1) + s.skip(i + 1));
    lemma_encode_utf8_concat(s.take(i + 1), s.skip(i + 1));
}

/// The number of bytes of `c` in UTF-8.
fn utf8_width(c: char) -> (w: usize)
    ensures
        w == encode_utf8(seq![c]).len(),
        w == 1 <==> (c as u32) < 0x80,
{
    proof {
        vstd::utf8::char_is_scalar(c);
        assert(seq![c].drop_first() =~= Seq::<char>::empty());
        assert(seq![c][0] == c);
        assert(encode_utf8(Seq::<char>::empty()) =~= Seq::<u8>::empty());
        assert(encode_utf8(seq![c]) == vstd::utf8::encode_scalar(c as u32) + encode_utf8(
            seq![c].drop_first(),
        ));
    }
    let u = c as u32;
    if u <= 0x7F {
        1
    } else if u <= 0x7FF {
        2
    } else if u <= 0xFFFF {
        3
    } else {
        4
    }
}

/// The matches of `q` in `hay`, on row `row`, appended to `out`.
fn push_row_hits(out: &mut Vec<SearchMatch>, row: usize, hay: &Vec<char>, q: &Vec<char>)
    requires
        encode_utf8(hay@).len() <= usize::MAX,
    ensures
        final(out)@ == old(out)@ + row_hits(row, hay@, q@, 0),
{
    let ghost base = old(out)@;
    let mut i: usize = 0;
    let mut bytes: usize = 0;
    proof {
        assert(hay@.take(0) =~= Seq::<char>::empty());
    }
    while i <= hay.len()
        invariant
            i <= hay.len() + 1,
            base == old(out)@,
            encode_utf8(hay@).len() <= usize::MAX,
            i <= hay.len() ==> bytes == encode_utf8(hay@.take(i as int)).len(),
            out@ + row_hits(row, hay@, q@, i as int) == base + row_hits(row, hay@, q@, 0),
        decreases hay.len() + 1 - i,
    {
        let found = starts_with_at(hay.as_slice(), i, q.as_slice());
        let ghost before = out@;
        if found {
            out.push(SearchMatch { row, start: bytes, len: q.len() });
            assert(out@ + row_hits(row, hay@, q@, i + 1) =~= before + row_hits(
                row,
                hay@,
                q@,
                i as int,
            ));
        } else {
            assert(row_hits(row, hay@, q@, i as int) == row_hits(row, hay@, q@, i + 1));
        }
        assert(out@ + row_hits(row, hay@, q@, i + 1) == base + row_hits(row, hay@, q@, 0));
        if i == hay.len() {
            assert(row_hits(row, hay@, q@, i + 1) =~= Seq::<SearchMatch>::empty());
            assert(out@ =~= out@ + row_hits(row, hay@, q@, i + 1));
            return;
        }
        let w = utf8_width(hay[i]);
        proof {
            lemma_encode_utf8_take(hay@, i as int);
        }
        bytes = bytes + w;
        i += 1;
    }
}

/// Whether searching `hay` for `q` can step past every occurrence.
fn row_search_is_safe(hay: &Vec<char>, q: &Vec<char>) -> (r: bool)
    ensures
        r == row_search_safe(hay@, q@),
{
    let mut p: usize = 0;
    while p < hay.len()
        invariant
            p <= hay.len(),
            forall|k: int|
                0 <= k < p && #[trigger] has_prefix_at(hay@, k, q@) ==> k < hay@.len() && (
                hay@[k] as u32) < 0x80,
        decreases hay.len() - p,
    {
        if starts_with_at(hay.as_slice(), p, q.as_slice()) && hay[p] as u32 >= 0x80 {
            return false;
        }
        p += 1;
    }
    !starts_with_at(hay.as_slice(), p, q.as_slice())
}

/// Whether searching the rows for `search` can step past every occurrence.
pub fn search_is_safe(search: &str, v: &CurrentView) -> (r: bool)
    ensures
        r == search_safe(search@, v@),
{
    if search.is_empty() {
        return true;
    }
    let query = to_lowercase(search);
    let qc = chars_of(query.as_str());
    let mut i: usize = 0;
    while i < v.rows.len()
        invariant
            i <= v.rows.len(),
            search@.len() > 0,
            qc@ == lowercase(search@),
            forall|k: int|
                0 <= k < i ==> row_search_safe(lowercase(#[trigger] v@.rows[k].text), lowercase(search@)),
        decreases v.rows.len() - i,
    {
        let hay = to_lowercase(v.rows[i].search_text.as_str());
        let hc = chars_of(hay.as_str());
        assert(v@.rows[i as int] == v.rows[i as int]@);
        if !row_search_is_safe(&hc, &qc) {
            assert(!row_search_safe(lowercase(v@.rows[i as int].text), lowercase(search@)));
            return false;
        }
        i += 1;
    }
    true
}

impl Navigator {
    /// A navigator at the first of `slide_count` slides.
    pub fn new(slide_count: usize) -> (r: Navigator)
        ensures
            r@.current == 0,
            r@.slide_count == slide_count,
            r@.status == Seq::<char>::empty(),
            !r@.help && !r@.outline && !r@.search_focus && !r@.outline_search_focus
                && !r@.command_focus,
            r@.search == Seq::<char>::empty(),
            r@.matches == Seq::<SearchMatch>::empty(),
            r@.match_index == 0,
            r@.outline_query == Seq::<char>::empty(),
            r@.command == Seq::<char>::empty(),
            r@.scroll == 0 && r@.cursor == 0 && r@.body_rows == 0,
            r@.filtered == Seq::<usize>::empty(),
            r@.outline_index == 0 && r@.outline_scroll == 0,
            r@.anchor is None && r@.visual_cursor == 0,
            r@.escape == EscapeSequence::Idle,
            r@.csi == Seq::<char>::empty(),
    {
        Navigator {
            current: 0,
            slide_count,
            status: String::new(),
            help: false,
            outline: false,
            search_focus: false,
            outline_search_focus: false,
            command_focus: false,
            search: String::new(),
            search_matches: Vec::new(),
            search_match_index: 0,
            outline_query: String::new(),
            command: String::new(),
            text_scroll: 0,
            line_cursor: 0,
            body_rows: 0,
            outline_filtered: Vec::new(),
            outline_index: 0,
            outline_scroll: 0,
            visual_anchor: None,
            visual_cursor: 0,
            escape_sequence: EscapeSequence::Idle,
            csi_buffer: String::new(),
        }
    }

    /// Whether visual mode is on.
    pub fn visual_active(&self) -> (r: bool)
        ensures
            r == (self@.anchor is Some),
    {
        self.visual_anchor.is_some()
    }

    /// The selected rows in visual mode, lowest first.
    pub fn visual_selection_range(&self) -> (r: Option<(usize, usize)>)
        ensures
            match self@.anchor {
                Some(a) => r == Some(
                    (
                        if a <= self@.visual_cursor {
                            a
                        } else {
                            self@.visual_cursor
                        },
                        if a >= self@.visual_cursor {
                            a
                        } else {
                            self@.visual_cursor
                        },
                    ),
                ),
                None => r is None,
            },
    {
        match self.visual_anchor {
            Some(a) => Some(
                (
                    if a <= self.visual_cursor {
                        a
                    } else {
                        self.visual_cursor
                    },
                    if a >= self.visual_cursor {
                        a
                    } else {
                        self.visual_cursor
                    },
                ),
            ),
            None => None,
        }
    }

    /// The text a key press would have the navigation search for, if it runs a search.
    pub fn key_search_text(&self, key: Key) -> (r: Option<String>)
        ensures
            match r {
                Some(t) => searched_text(self@, key) == Some(t@),
                None => searched_text(self@, key) is None,
            },
    {
        let mut csi = copy_string(&self.csi_buffer);
        let (_, k) = normalize_key_event(self.escape_sequence, &mut csi, key);
        let k = match k {
            Some(k) => k,
            None => {
                return None;
            },
        };
        if k.code == KeyCode::Char('c') && k.ctrl {
            return None;
        }
        if (self.help || self.search_focus || self.outline_search_focus || self.command_focus) && (
        k.code == KeyCode::Left || k.code == KeyCode::Right) {
            return None;
        }
        if self.search_focus {
            return match k.code {
                KeyCode::Backspace => {
                    let cs = chars_of(self.search.as_str());
                    if cs.len() > 0 {
                        let t = substring(cs.as_slice(), 0, cs.len() - 1);
                        assert(t@ =~= pop_last(self@.search));
                        Some(t)
                    } else {
                        assert(pop_last(self@.search) =~= self@.search);
                        Some(copy_string(&self.search))
                    }
                },
                KeyCode::Char(ch) => {
                    let mut t = copy_string(&self.search);
                    push_char(&mut t, ch);
                    Some(t)
                },
                _ => None,
            };
        }
        if self.outline_search_focus || self.command_focus {
            return None;
        }
        if k.code == KeyCode::Char('/') && !self.outline {
            return Some(copy_string(&self.search));
        }
        None
    }

    /// The search match to highlight as selected: the current one, if there are any.
    pub fn selected_match(&self) -> (r: Option<usize>)
        ensures
            r == (if self@.matches.len() == 0 {
                None
            } else {
                Some(self@.match_index)
            }),
    {
        if self.search_matches.len() == 0 {
            None
        } else {
            Some(self.search_match_index)
        }
    }

    /// The row of the active cursor.
    pub fn active_row(&self) -> (r: Option<usize>)
        ensures
            r == Some(active_row(self@)),
    {
        if self.visual_anchor.is_some() {
            Some(self.visual_cursor)
        } else {
            Some(self.line_cursor)
        }
    }

    /// Moves the line cursor and keeps it in view.
    pub fn move_line_cursor(&mut self, v: &CurrentView, amount: usize, down: bool)
        ensures
            final(self)@ == move_line_cursor(
                old(self)@,
                v@,
                if down {
                    amount as int
                } else {
                    -amount
                },
            ),
    {
        let c = next_cursor_row_exec(v, self.line_cursor, amount, down);
        self.line_cursor = c;
        self.text_scroll = scroll_to_show_exec(self.text_scroll, c, self.body_rows);
    }

    /// Moves the visual cursor and keeps it in view.
    pub fn move_visual_cursor(&mut self, v: &CurrentView, amount: usize, down: bool)
        ensures
            final(self)@ == move_visual_cursor(
                old(self)@,
                v@,
                if down {
                    amount as int
                } else {
                    -amount
                },
            ),
    {
        let c = next_cursor_row_exec(v, self.visual_cursor, amount, down);
        self.visual_cursor = c;
        self.text_scroll = scroll_to_show_exec(self.text_scroll, c, self.body_rows);
    }

    fn move_cursor(&mut self, v: &CurrentView, amount: usize, down: bool)
        ensures
            final(self)@ == move_cursor(
                old(self)@,
                v@,
                if down {
                    amount as int
                } else {
                    -amount
                },
            ),
    {
        if self.visual_anchor.is_some() {
            self.move_visual_cursor(v, amount, down);
        } else {
            self.move_line_cursor(v, amount, down);
        }
    }

    /// Scrolls by `amount` rows down or up and moves the active cursor along.
    pub fn scroll_text(&mut self, v: &CurrentView, amount: usize, down: bool)
        ensures
            final(self)@ == scroll_text(
                old(self)@,
                v@,
                if down {
                    amount as int
                } else {
                    -amount
                },
            ),
    {
        let max_scroll = if v.total_rows >= self.body_rows {
            v.total_rows - self.body_rows
        } else {
            0
        };
        let next = if down {
            if amount > usize::MAX - self.text_scroll {
                usize::MAX
            } else {
                self.text_scroll + amount
            }
        } else {
            if amount >= self.text_scroll {
                0
            } else {
                self.text_scroll - amount
            }
        };
        self.text_scroll = if next < max_scroll {
            next
        } else {
            max_scroll
        };
        self.move_cursor(v, amount, down);
    }

    /// Puts the visual cursor on `r` (at most the last row) and shows it.
    pub fn set_visual_cursor(&mut self, v: &CurrentView, r: usize)
        ensures
            final(self)@ == set_visual_cursor(old(self)@, v@, r as int),
    {
        let last = last_row_exec(v);
        let c = if r < last {
            r
        } else {
            last
        };
        self.visual_cursor = c;
        self.text_scroll = scroll_to_show_exec(self.text_scroll, c, self.body_rows);
    }

    /// Leaves visual mode, dropping its status.
    pub fn clear_visual_mode(&mut self)
        ensures
            final(self)@ == clear_visual(old(self)@),
    {
        self.visual_anchor = None;
        if string_is(&self.status, "visual") {
            self.status = String::new();
        }
    }

    /// Enters visual mode at the line cursor, or leaves it.
    pub fn toggle_visual_mode(&mut self)
        ensures
            final(self)@ == toggle_visual(old(self)@),
    {
        if self.visual_anchor.is_some() {
            self.clear_visual_mode();
            return;
        }
        self.visual_anchor = Some(self.line_cursor);
        self.visual_cursor = self.line_cursor;
        self.status = to_owned_string("visual");
    }

    /// Puts the cursor on the focused match and shows it.
    pub fn focus_search_match(&mut self)
        requires
            old(self)@.matches.len() == 0 || old(self)@.match_index < old(self)@.matches.len(),
        ensures
            final(self)@ == focus_match(old(self)@),
    {
        if self.search_matches.len() == 0 || self.body_rows == 0 {
            return;
        }
        let row = self.search_matches[self.search_match_index].row;
        self.line_cursor = row;
        if self.visual_anchor.is_some() {
            self.visual_cursor = row;
        }
        self.text_scroll = scroll_to_show_exec(self.text_scroll, row, self.body_rows);
        let mut status = to_owned_string("match ");
        push_count(&mut status, self.search_match_index + 1);
        push_str(&mut status, "/");
        push_count(&mut status, self.search_matches.len());
        push_str(&mut status, " for /");
        push_str(&mut status, self.search.as_str());
        self.status = status;
    }

    /// Searches the view for the search text, ignoring case, and focuses the first match.
    pub fn update_search_matches(&mut self, v: &CurrentView)
        requires
            search_safe(old(self)@.search, v@),
        ensures
            final(self)@ == update_search(old(self)@, v@),
            nav_wf(final(self)@),
    {
        proof {
            lemma_update_search_wf(old(self)@, v@);
        }
        self.search_matches = Vec::new();
        self.search_match_index = 0;
        self.status = String::new();
        if self.search.as_str().is_empty() {
            return;
        }
        let query = to_lowercase(self.search.as_str());
        let qc = chars_of(query.as_str());
        let ghost rows = v@.rows;
        let mut hits: Vec<SearchMatch> = Vec::new();
        let mut i: usize = 0;
        proof {
            assert(rows.take(0) =~= Seq::<RowModel>::empty());
        }
        while i < v.rows.len()
            invariant
                i <= v.rows.len(),
                rows == v@.rows,
                qc@ == lowercase(self@.search),
                hits@ == view_hits(rows.take(i as int), qc@),
            decreases v.rows.len() - i,
        {
            proof {
                assert(rows.take(i as int + 1).drop_last() =~= rows.take(i as int));
                assert(rows.take(i as int + 1).last() == v.rows[i as int]@);
            }
            let hay = to_lowercase(v.rows[i].search_text.as_str());
            let hc = chars_of(hay.as_str());
            let _hay_bytes = hay.as_str().as_bytes().len();
            push_row_hits(&mut hits, v.rows[i].row, &hc, &qc);
            i += 1;
        }
        proof {
            assert(rows.take(i as int) =~= rows);
        }
        if hits.len() == 0 {
            let mut status = to_owned_string("no matches for /");
            push_str(&mut status, self.search.as_str());
            self.status = status;
            return;
        }
        self.search_matches = hits;
        self.focus_search_match();
    }

    /// Steps to the next or previous match, wrapping around.
    pub fn advance_search_match(&mut self, forward: bool)
        requires
            old(self)@.matches.len() == 0 || old(self)@.match_index < old(self)@.matches.len(),
        ensures
            final(self)@ == advance_match(old(self)@, forward),
    {
        if self.search_matches.len() == 0 {
            return;
        }
        let n = self.search_matches.len();
        let i = self.search_match_index;
        self.search_match_index = if forward {
            if i + 1 >= n {
                0
            } else {
                i + 1
            }
        } else {
            if i == 0 {
                n - 1
            } else {
                i - 1
            }
        };
        self.focus_search_match();
    }

    /// Leaves the search and forgets it.
    pub fn clear_search(&mut self)
        ensures
            final(self)@ == clear_search(old(self)@),
    {
        self.search_focus = false;
        self.search = String::new();
        self.search_matches = Vec::new();
        self.search_match_index = 0;
        self.status = String::new();
    }

    /// Keeps the selected outline entry in view.
    pub fn ensure_outline_visible(&mut self)
        ensures
            final(self)@ == ensure_outline_visible(old(self)@),
    {
        if self.outline_index < self.outline_scroll {
            self.outline_scroll = self.outline_index;
        }
        if self.outline_index >= self.outline_scroll && self.outline_index - self.outline_scroll
            >= 12 {
            self.outline_scroll = self.outline_index - 12 + 1;
        }
    }

    /// Filters the outline by its query and keeps the selection on an entry.
    pub fn recompute_outline(&mut self, entries: &Vec<OutlineEntry>)
        ensures
            final(self)@ == recompute_outline(old(self)@, entries.deep_view()),
    {
        let trimmed = trim_string(self.outline_query.as_str());
        let query = to_lowercase(trimmed.as_str());
        let ghost es = entries.deep_view();
        let mut filtered: Vec<usize> = Vec::new();
        let mut i: usize = 0;
        proof {
            assert(es.take(0) =~= Seq::<EntryModel>::empty());
        }
        while i < entries.len()
            invariant
                i <= entries.len(),
                es == entries.deep_view(),
                query@ == lowercase(trim(self@.outline_query)),
                filtered@ == filter_entries(es.take(i as int), query@),
            decreases entries.len() - i,
        {
            proof {
                assert(es.take(i as int + 1).drop_last() =~= es.take(i as int));
                assert(es.take(i as int + 1).last() == entries[i as int]@);
            }
            let e = &entries[i];
            let matches = if query.as_str().is_empty() {
                true
            } else {
                let name = to_lowercase(e.name.as_str());
                let title = to_lowercase(e.title.as_str());
                let body = to_lowercase(e.body.as_str());
                contains_str(name.as_str(), query.as_str()) || contains_str(
                    title.as_str(),
                    query.as_str(),
                ) || contains_str(body.as_str(), query.as_str())
            };
            if matches {
                filtered.push(i);
            }
            i += 1;
        }
        proof {
            assert(es.take(i as int) =~= es);
        }
        if self.outline_index >= filtered.len() {
            self.outline_index = if filtered.len() >= 1 {
                filtered.len() - 1
            } else {
                0
            };
        }
        self.outline_filtered = filtered;
        self.ensure_outline_visible();
    }

    fn reset_position(&mut self)
        ensures
            final(self)@ == reset_position(old(self)@),
    {
        self.text_scroll = 0;
        self.line_cursor = 0;
    }

    /// Goes to the first slide, unless already there; says whether it moved.
    pub fn first_slide(&mut self) -> (moved: bool)
        ensures
            (final(self)@, moved) == first_slide(old(self)@),
    {
        if self.current > 0 {
            self.current = 0;
            self.clear_visual_mode();
            self.reset_position();
            true
        } else {
            false
        }
    }

    /// Goes to the last slide, unless already there; says whether it moved.
    pub fn last_slide(&mut self) -> (moved: bool)
        ensures
            (final(self)@, moved) == last_slide(old(self)@),
    {
        if self.current < self.slide_count && self.slide_count - self.current > 1 {
            self.current = self.slide_count - 1;
            self.clear_visual_mode();
            self.reset_position();
            true
        } else {
            false
        }
    }

    /// Goes to the next slide, if there is one; says whether it did.
    pub fn next_slide(&mut self) -> (moved: bool)
        ensures
            (final(self)@, moved) == next_slide(old(self)@),
    {
        if self.current < self.slide_count && self.slide_count - self.current > 1 {
            self.current = self.current + 1;
            self.clear_visual_mode();
            self.reset_position();
            true
        } else {
            false
        }
    }

    /// Goes to the previous slide, if there is one; says whether it did.
    pub fn previous_slide(&mut self) -> (moved: bool)
        ensures
            (final(self)@, moved) == previous_slide(old(self)@),
    {
        if self.current > 0 {
            self.current = self.current - 1;
            self.clear_visual_mode();
            self.reset_position();
            true
        } else {
            false
        }
    }
}

} // verus!

verus! {

/// The match index points at a match whenever there is one.
pub open spec fn nav_wf(s: NavModel) -> bool {
    s.matches.len() == 0 || s.match_index < s.matches.len()
}

/// Whether `s` starts with the literal `p` (given as characters).
fn begins_with(s: &Vec<char>, p: &[char]) -> (r: bool)
    ensures
        r == has_prefix(s@, p@),
{
    let r = starts_with_at(s.as_slice(), 0, p);
    assert(s@.subrange(0, p@.len() as int) =~= s@.subrange(0int, 0int + p@.len()));
    r
}

/// `s` from position `from` on, trimmed.
fn rest_trimmed(s: &Vec<char>, from: usize) -> (r: String)
    requires
        from <= s.len(),
    ensures
        r@ == trim(s@.skip(from as int)),
{
    let rest = substring(s.as_slice(), from, s.len());
    assert(rest@ =~= s@.skip(from as int));
    trim_string(rest.as_str())
}

impl Navigator {
    /// Ctrl-C: leaves the innermost open mode; says whether to quit.
    pub fn handle_ctrl_c(&mut self) -> (quit: bool)
        ensures
            (final(self)@, quit) == ctrl_c(old(self)@),
    {
        if self.command_focus {
            self.command_focus = false;
            self.command = String::new();
            return false;
        }
        if self.search_focus {
            self.search_focus = false;
            if self.search.as_str().is_empty() {
                self.clear_search();
            }
            return false;
        }
        if self.outline_search_focus {
            self.outline_search_focus = false;
            return false;
        }
        if self.help {
            self.help = false;
            return false;
        }
        if self.outline {
            self.outline = false;
            return false;
        }
        if !self.search.as_str().is_empty() {
            self.clear_search();
            return false;
        }
        if self.visual_anchor.is_some() {
            self.clear_visual_mode();
            return false;
        }
        true
    }

    fn pop_search(&mut self)
        ensures
            final(self)@ == (NavModel { search: pop_last(old(self)@.search), ..old(self)@ }),
    {
        let cs = chars_of(self.search.as_str());
        if cs.len() > 0 {
            self.search = substring(cs.as_slice(), 0, cs.len() - 1);
            assert(self.search@ =~= old(self)@.search.drop_last());
        }
    }

    /// A key typed into the search field.
    pub fn handle_search_key(&mut self, v: &CurrentView, key: Key)
        requires
            search_key_safe(old(self)@, v@, key),
        ensures
            final(self)@ == search_key(old(self)@, v@, key),
    {
        match key.code {
            KeyCode::Esc => {
                let empty = self.search.as_str().is_empty();
                self.search_focus = false;
                if empty {
                    self.clear_search();
                }
            },
            KeyCode::Enter => {
                self.search_focus = false;
            },
            KeyCode::Backspace => {
                self.pop_search();
                self.update_search_matches(v);
            },
            KeyCode::Char(ch) => {
                push_char(&mut self.search, ch);
                self.update_search_matches(v);
            },
            _ => {},
        }
    }

    /// A key typed into the outline filter.
    pub fn handle_outline_search_key(&mut self, entries: &Vec<OutlineEntry>, key: Key)
        ensures
            final(self)@ == outline_search_key(old(self)@, entries.deep_view(), key),
    {
        match key.code {
            KeyCode::Esc => {
                self.outline_search_focus = false;
            },
            KeyCode::Enter => {
                self.outline_search_focus = false;
            },
            KeyCode::Backspace => {
                let cs = chars_of(self.outline_query.as_str());
                if cs.len() > 0 {
                    self.outline_query = substring(cs.as_slice(), 0, cs.len() - 1);
                    assert(self.outline_query@ =~= old(self)@.outline_query.drop_last());
                }
                self.recompute_outline(entries);
            },
            KeyCode::Char(ch) => {
                push_char(&mut self.outline_query, ch);
                self.recompute_outline(entries);
            },
            _ => {},
        }
    }

    /// Carries out a command line: what it asks of the caller, or an unknown-command status.
    pub fn execute_command(&mut self, command: &str) -> (r: Action)
        ensures
            (final(self)@, r@) == execute_command(old(self)@, command@),
    {
        let t = trim_string(command);
        proof {
            reveal_strlit("q");
            reveal_strlit("quit");
            reveal_strlit("r");
            reveal_strlit("reload");
            reveal_strlit("p");
            reveal_strlit("path");
            reveal_strlit("open ");
            reveal_strlit("o ");
            reveal_strlit("e ");
        }
        if string_is(&t, "q") || string_is(&t, "quit") {
            return Action::Quit;
        }
        if string_is(&t, "r") || string_is(&t, "reload") {
            return Action::Reload;
        }
        if string_is(&t, "p") || string_is(&t, "path") {
            return Action::ShowPath;
        }
        let cs = chars_of(t.as_str());
        let open = ['o', 'p', 'e', 'n', ' '];
        let o = ['o', ' '];
        let e = ['e', ' '];
        assert(open@ =~= "open "@);
        assert(o@ =~= "o "@);
        assert(e@ =~= "e "@);
        if begins_with(&cs, &open) {
            return Action::Open(rest_trimmed(&cs, 5));
        }
        if begins_with(&cs, &o) {
            return Action::Open(rest_trimmed(&cs, 2));
        }
        if begins_with(&cs, &e) {
            return Action::Open(rest_trimmed(&cs, 2));
        }
        let mut status = to_owned_string("unknown command: :");
        push_str(&mut status, t.as_str());
        self.status = status;
        Action::Nothing
    }

    /// A key typed into the command line.
    pub fn handle_command_key(&mut self, key: Key) -> (r: Action)
        ensures
            (final(self)@, r@) == command_key(old(self)@, key),
    {
        match key.code {
            KeyCode::Esc => {
                self.command_focus = false;
                self.command = String::new();
                Action::Nothing
            },
            KeyCode::Enter => {
                self.command_focus = false;
                let cmd = trim_string(self.command.as_str());
                self.command = String::new();
                if !cmd.as_str().is_empty() {
                    self.execute_command(cmd.as_str())
                } else {
                    Action::Nothing
                }
            },
            KeyCode::Backspace => {
                let cs = chars_of(self.command.as_str());
                if cs.len() > 0 {
                    self.command = substring(cs.as_slice(), 0, cs.len() - 1);
                    assert(self.command@ =~= old(self)@.command.drop_last());
                }
                Action::Nothing
            },
            KeyCode::Char(ch) => {
                push_char(&mut self.command, ch);
                Action::Nothing
            },
            _ => Action::Nothing,
        }
    }

    /// Pasted text goes to whichever field has the focus.
    pub fn handle_paste(&mut self, v: &CurrentView, entries: &Vec<OutlineEntry>, data: &str)
        requires
            !old(self)@.command_focus && old(self)@.search_focus ==> search_safe(
                old(self)@.search + data@,
                v@,
            ),
        ensures
            final(self)@ == paste(old(self)@, v@, entries.deep_view(), data@),
    {
        if self.command_focus {
            push_str(&mut self.command, data);
            return;
        }
        if self.search_focus {
            push_str(&mut self.search, data);
            self.update_search_matches(v);
            return;
        }
        if self.outline_search_focus {
            push_str(&mut self.outline_query, data);
            self.recompute_outline(entries);
        }
    }
}

} // verus!

verus! {

/// The rows of the view's headings, in order.
fn heading_rows_exec(v: &CurrentView) -> (r: Vec<usize>)
    ensures
        r@ == heading_rows(v@.rows),
{
    let ghost rows = v@.rows;
    let mut out: Vec<usize> = Vec::new();
    let mut i: usize = 0;
    assert(rows.take(0) =~= Seq::<RowModel>::empty());
    while i < v.rows.len()
        invariant
            i <= v.rows.len(),
            rows == v@.rows,
            out@ == heading_rows(rows.take(i as int)),
        decreases v.rows.len() - i,
    {
        assert(rows.take(i as int + 1).drop_last() =~= rows.take(i as int));
        assert(rows.take(i as int + 1).last() == v.rows[i as int]@);
        if v.rows[i].heading_level.is_some() {
            out.push(v.rows[i].row);
        }
        i += 1;
    }
    assert(rows.take(i as int) =~= rows);
    out
}

fn last_below_exec(rs: &Vec<usize>, cur: usize) -> (r: Option<usize>)
    ensures
        r == last_below(rs@, cur as int),
{
    let mut k: usize = rs.len();
    assert(rs@.take(k as int) =~= rs@);
    while k > 0
        invariant
            k <= rs.len(),
            last_below(rs@, cur as int) == last_below(rs@.take(k as int), cur as int),
        decreases k,
    {
        assert(rs@.take(k as int).last() == rs@[k - 1]);
        assert(rs@.take(k as int).drop_last() =~= rs@.take(k - 1));
        if rs[k - 1] < cur {
            return Some(rs[k - 1]);
        }
        k -= 1;
    }
    None
}

fn first_above_exec(rs: &Vec<usize>, cur: usize) -> (r: Option<usize>)
    ensures
        r == first_above(rs@, cur as int),
{
    let mut k: usize = 0;
    assert(rs@.skip(0) =~= rs@);
    while k < rs.len()
        invariant
            k <= rs.len(),
            first_above(rs@, cur as int) == first_above(rs@.skip(k as int), cur as int),
        decreases rs.len() - k,
    {
        assert(rs@.skip(k as int)[0] == rs@[k as int]);
        assert(rs@.skip(k as int).drop_first() =~= rs@.skip(k + 1));
        if rs[k] > cur {
            return Some(rs[k]);
        }
        k += 1;
    }
    None
}

/// The first link on row `r` and how many links the row has.
pub fn first_link_on_row(v: &CurrentView, r: usize) -> (out: Option<(String, usize)>)
    ensures
        match out {
            Some((url, n)) => first_link(v@, r as int) == Some((url@, n)),
            None => first_link(v@, r as int) is None,
        },
{
    match row_entry_exec(v, r) {
        Some(i) => {
            let links = &v.rows[i].link_urls;
            if links.len() > 0 {
                assert(v@.rows[i as int].links[0] == links[0]@);
                Some((copy_string(&links[0]), links.len()))
            } else {
                None
            }
        },
        None => None,
    }
}

/// A left click at column `x`, row `y` of the screen, with the slide's text
/// drawn in `area`: on the text of the bare presentation (no help, no
/// outline) the active cursor moves to the clicked row (at most the last
/// one) and the row's first link, if it has one, is opened; elsewhere the
/// click does nothing.
pub open spec fn click(s: NavModel, v: ViewModel, area: Rect, x: int, y: int) -> (NavModel, ActionModel) {
    if s.help || s.outline || !(area.x <= x < area.x + area.width && area.y <= y < area.y
        + area.height) {
        (s, ActionModel::Nothing)
    } else {
        let r = s.scroll + (y - area.y);
        let c = if r < last_row(v) {
            r
        } else {
            last_row(v)
        };
        let s1 = if s.anchor is Some {
            NavModel { visual_cursor: c as usize, ..s }
        } else {
            NavModel { cursor: c as usize, ..s }
        };
        let s2 = NavModel {
            scroll: scroll_to_show(s.scroll as int, c, s.body_rows as int) as usize,
            ..s1
        };
        match first_link(v, c) {
            Some((url, n)) => (s2, ActionModel::OpenLink { url, links: n }),
            None => (s2, ActionModel::Nothing),
        }
    }
}

impl Navigator {
    /// A left click at column `x`, row `y` of the screen, the slide's text
    /// being drawn in `area`.
    pub fn click(&mut self, v: &CurrentView, area: Rect, x: u16, y: u16) -> (r: Action)
        ensures
            (final(self)@, r@) == click(old(self)@, v@, area, x as int, y as int),
    {
        if self.help || self.outline || !(area.x <= x && (x as u32) < area.x as u32 + area.width as u32
            && area.y <= y && (y as u32) < area.y as u32 + area.height as u32) {
            return Action::Nothing;
        }
        let last = last_row_exec(v);
        let d = (y - area.y) as usize;
        let scroll = self.text_scroll;
        let c = if scroll >= last || d >= last - scroll {
            last
        } else {
            scroll + d
        };
        if self.visual_anchor.is_some() {
            self.visual_cursor = c;
        } else {
            self.line_cursor = c;
        }
        self.text_scroll = scroll_to_show_exec(scroll, c, self.body_rows);
        match first_link_on_row(v, c) {
            Some((url, n)) => Action::OpenLink { url, links: n },
            None => Action::Nothing,
        }
    }

    /// `[` and `]`: the cursor goes to the previous or next heading.
    pub fn jump_heading(&mut self, v: &CurrentView, forward: bool)
        ensures
            final(self)@ == jump_heading(old(self)@, v@, forward),
    {
        let cur = if self.visual_anchor.is_some() {
            self.visual_cursor
        } else {
            self.line_cursor
        };
        let rs = heading_rows_exec(v);
        let target = if forward {
            first_above_exec(&rs, cur)
        } else {
            last_below_exec(&rs, cur)
        };
        match target {
            Some(r) => {
                self.line_cursor = r;
                self.text_scroll = scroll_to_show_exec(self.text_scroll, r, self.body_rows);
                if self.visual_anchor.is_some() {
                    self.visual_cursor = r;
                    self.text_scroll = scroll_to_show_exec(self.text_scroll, r, self.body_rows);
                }
            },
            None => {},
        }
    }

    fn open_selected(&mut self) -> (r: Action)
        ensures
            (final(self)@, r@) == open_selected(old(self)@),
    {
        if self.outline_index < self.outline_filtered.len() {
            self.current = self.outline_filtered[self.outline_index];
            self.outline = false;
            self.reset_position();
            Action::SlideChanged
        } else {
            Action::Nothing
        }
    }

    fn moved(changed: bool) -> (r: Action)
        ensures
            r@ == (if changed {
                ActionModel::SlideChanged
            } else {
                ActionModel::Nothing
            }),
    {
        if changed {
            Action::SlideChanged
        } else {
            Action::Nothing
        }
    }

    fn forward_key(&mut self, v: &CurrentView) -> (r: Action)
        ensures
            (final(self)@, r@) == forward_key(old(self)@, v@),
    {
        if self.outline {
            self.open_selected()
        } else if self.visual_anchor.is_some() {
            self.move_visual_cursor(v, 1, true);
            Action::Nothing
        } else {
            let changed = self.next_slide();
            Self::moved(changed)
        }
    }

    fn back_key(&mut self, v: &CurrentView) -> (r: Action)
        ensures
            (final(self)@, r@) == back_key(old(self)@, v@),
    {
        if self.outline {
            if self.outline_index > 0 {
                self.outline_index = self.outline_index - 1;
                self.ensure_outline_visible();
            }
            Action::Nothing
        } else if self.visual_anchor.is_some() {
            self.move_visual_cursor(v, 1, false);
            Action::Nothing
        } else {
            let changed = self.previous_slide();
            Self::moved(changed)
        }
    }

    fn up_key(&mut self, v: &CurrentView) -> (r: Action)
        ensures
            (final(self)@, r@) == up_key(old(self)@, v@),
    {
        if self.outline {
            if self.outline_index > 0 {
                self.outline_index = self.outline_index - 1;
                self.ensure_outline_visible();
            }
        } else {
            self.move_cursor(v, 1, false);
        }
        Action::Nothing
    }

    fn down_key(&mut self, v: &CurrentView) -> (r: Action)
        ensures
            (final(self)@, r@) == down_key(old(self)@, v@),
    {
        if self.outline {
            if self.outline_index < self.outline_filtered.len() && self.outline_filtered.len()
                - self.outline_index > 1 {
                self.outline_index = self.outline_index + 1;
                self.ensure_outline_visible();
            }
        } else {
            self.move_cursor(v, 1, true);
        }
        Action::Nothing
    }
}

} // verus!

verus! {

impl Navigator {
    fn main_key(&mut self, v: &CurrentView, entries: &Vec<OutlineEntry>, key: Key) -> (r: Action)
        requires
            nav_wf(old(self)@),
            key.code == KeyCode::Char('/') && !old(self)@.outline ==> search_safe(old(self)@.search, v@),
        ensures
            (final(self)@, r@) == main_key(old(self)@, v@, entries.deep_view(), key),
    {
        match key.code {
            KeyCode::Char('q') => Action::Quit,
            KeyCode::Char('?') => {
                self.help = !self.help;
                self.outline = false;
                Action::Nothing
            },
            KeyCode::Char('V') => {
                self.toggle_visual_mode();
                Action::Nothing
            },
            KeyCode::Esc => {
                if self.help {
                    self.help = false;
                } else if self.outline {
                    self.outline = false;
                } else if !self.search.as_str().is_empty() {
                    self.clear_search();
                } else if self.visual_anchor.is_some() {
                    self.clear_visual_mode();
                } else {
                    return Action::Quit;
                }
                Action::Nothing
            },
            KeyCode::Char('o') => {
                self.outline = !self.outline;
                self.recompute_outline(entries);
                Action::Nothing
            },
            KeyCode::Char('/') => {
                if self.outline {
                    self.outline_search_focus = true;
                } else {
                    self.search_focus = true;
                    self.update_search_matches(v);
                }
                Action::Nothing
            },
            KeyCode::Char(':') => {
                self.command_focus = true;
                self.command = String::new();
                Action::Nothing
            },
            KeyCode::Char('r') => Action::Reload,
            KeyCode::Char('g') => {
                if self.visual_anchor.is_some() {
                    self.set_visual_cursor(v, 0);
                    Action::Nothing
                } else {
                    let changed = self.first_slide();
                    Self::moved(changed)
                }
            },
            KeyCode::Char('G') => {
                if self.visual_anchor.is_some() {
                    let last = last_row_exec(v);
                    self.set_visual_cursor(v, last);
                    Action::Nothing
                } else {
                    let changed = self.last_slide();
                    Self::moved(changed)
                }
            },
            KeyCode::Char('n') => {
                if !self.outline {
                    self.advance_search_match(true);
                }
                Action::Nothing
            },
            KeyCode::Char('N') => {
                if !self.outline {
                    self.advance_search_match(false);
                }
                Action::Nothing
            },
            KeyCode::Char('[') => {
                self.jump_heading(v, false);
                Action::Nothing
            },
            KeyCode::Char(']') => {
                self.jump_heading(v, true);
                Action::Nothing
            },
            KeyCode::Right => self.forward_key(v),
            KeyCode::Char('l') => self.forward_key(v),
            KeyCode::Left => self.back_key(v),
            KeyCode::Char('h') => self.back_key(v),
            KeyCode::Backspace => self.back_key(v),
            KeyCode::Enter => {
                if self.outline {
                    self.open_selected()
                } else {
                    let row = if self.visual_anchor.is_some() {
                        self.visual_cursor
                    } else {
                        self.line_cursor
                    };
                    match first_link_on_row(v, row) {
                        Some((url, n)) => Action::OpenLink { url, links: n },
                        None => {
                            let changed = self.next_slide();
                            Self::moved(changed)
                        },
                    }
                }
            },
            KeyCode::Char(' ') => {
                if self.outline {
                    self.open_selected()
                } else {
                    let changed = self.next_slide();
                    Self::moved(changed)
                }
            },
            KeyCode::Up => self.up_key(v),
            KeyCode::Char('k') => {
                if self.outline || self.visual_anchor.is_some() {
                    self.up_key(v)
                } else {
                    let changed = self.previous_slide();
                    Self::moved(changed)
                }
            },
            KeyCode::Down => self.down_key(v),
            KeyCode::Char('j') => {
                if self.outline || self.visual_anchor.is_some() {
                    self.down_key(v)
                } else {
                    let changed = self.next_slide();
                    Self::moved(changed)
                }
            },
            KeyCode::Char('d') => {
                if key.ctrl {
                    let half = half_page_exec(self.body_rows);
                    self.scroll_text(v, half, true);
                }
                Action::Nothing
            },
            KeyCode::Char('u') => {
                if key.ctrl {
                    let half = half_page_exec(self.body_rows);
                    self.scroll_text(v, half, false);
                }
                Action::Nothing
            },
            _ => Action::Nothing,
        }
    }

    /// Handles a key press: updates the navigation and says what the key asks
    /// of the caller (after `SlideChanged`, the caller redoes the search on
    /// the new slide with `update_search_matches`).
    pub fn handle_key(&mut self, v: &CurrentView, entries: &Vec<OutlineEntry>, key: Key) -> (r: Action)
        requires
            nav_wf(old(self)@),
            key_search_safe(old(self)@, v@, key),
        ensures
            (final(self)@, r@) == handle_key(old(self)@, v@, entries.deep_view(), key),
            nav_wf(final(self)@),
    {
        proof {
            lemma_handle_key_wf(old(self)@, v@, entries.deep_view(), key);
        }
        let (esc, k) = normalize_key_event(self.escape_sequence, &mut self.csi_buffer, key);
        self.escape_sequence = esc;
        let key = match k {
            Some(key) => key,
            None => {
                return Action::Nothing;
            },
        };
        if key.code == KeyCode::Char('c') && key.ctrl {
            let quit = self.handle_ctrl_c();
            return if quit {
                Action::Quit
            } else {
                Action::Nothing
            };
        }
        if (self.help || self.search_focus || self.outline_search_focus || self.command_focus) && (
        key.code == KeyCode::Left || key.code == KeyCode::Right) {
            self.help = false;
            self.search_focus = false;
            self.outline_search_focus = false;
            self.command_focus = false;
            let forward = key.code == KeyCode::Right;
            if self.visual_anchor.is_some() {
                self.move_visual_cursor(v, 1, forward);
                return Action::Nothing;
            }
            let changed = if forward {
                self.next_slide()
            } else {
                self.previous_slide()
            };
            return Self::moved(changed);
        }
        if self.search_focus {
            self.handle_search_key(v, key);
            return Action::Nothing;
        }
        if self.outline_search_focus {
            self.handle_outline_search_key(entries, key);
            return Action::Nothing;
        }
        if self.command_focus {
            return self.handle_command_key(key);
        }
        self.main_key(v, entries, key)
    }
}

} // verus!

verus! {

proof fn lemma_focus_keeps(s: NavModel)
    ensures
        focus_match(s).matches == s.matches,
        focus_match(s).match_index == s.match_index,
{
}

proof fn lemma_update_search_wf(s: NavModel, v: ViewModel)
    ensures
        nav_wf(update_search(s, v)),
{
    let cleared = NavModel { matches: Seq::empty(), match_index: 0, status: Seq::empty(), ..s };
    if s.search.len() > 0 {
        let hits = view_hits(v.rows, lowercase(s.search));
        if hits.len() > 0 {
            lemma_focus_keeps(NavModel { matches: hits, ..cleared });
        }
    }
}

proof fn lemma_outline_keeps(s: NavModel, es: Seq<EntryModel>)
    ensures
        recompute_outline(s, es).matches == s.matches,
        recompute_outline(s, es).match_index == s.match_index,
{
}

/// Moving about keeps the matches and the match index.
proof fn lemma_moves_keep(s: NavModel, v: ViewModel, d: int)
    ensures
        move_cursor(s, v, d).matches == s.matches,
        move_cursor(s, v, d).match_index == s.match_index,
        move_visual_cursor(s, v, d).matches == s.matches,
        move_visual_cursor(s, v, d).match_index == s.match_index,
        scroll_text(s, v, d).matches == s.matches,
        scroll_text(s, v, d).match_index == s.match_index,
        set_visual_cursor(s, v, d).matches == s.matches,
        set_visual_cursor(s, v, d).match_index == s.match_index,
        jump_heading(s, v, d > 0).matches == s.matches,
        jump_heading(s, v, d > 0).match_index == s.match_index,
        next_slide(s).0.matches == s.matches,
        next_slide(s).0.match_index == s.match_index,
        previous_slide(s).0.matches == s.matches,
        previous_slide(s).0.match_index == s.match_index,
        toggle_visual(s).matches == s.matches,
        toggle_visual(s).match_index == s.match_index,
        clear_visual(s).matches == s.matches,
        clear_visual(s).match_index == s.match_index,
        ensure_outline_visible(s).matches == s.matches,
        ensure_outline_visible(s).match_index == s.match_index,
        open_selected(s).0.matches == s.matches,
        open_selected(s).0.match_index == s.match_index,
{
}

proof fn lemma_advance_wf(s: NavModel, forward: bool)
    requires
        nav_wf(s),
    ensures
        nav_wf(advance_match(s, forward)),
{
    if s.matches.len() > 0 {
        let n = s.matches.len() as int;
        let i = s.match_index as int;
        let next: int = if forward {
            if i + 1 >= n {
                0
            } else {
                i + 1
            }
        } else {
            if i == 0 {
                n - 1
            } else {
                i - 1
            }
        };
        lemma_focus_keeps(NavModel { match_index: next as usize, ..s });
    }
}

proof fn lemma_fields_wf(s: NavModel, v: ViewModel, es: Seq<EntryModel>, key: Key)
    requires
        nav_wf(s),
    ensures
        nav_wf(search_key(s, v, key)),
        nav_wf(outline_search_key(s, es, key)),
        nav_wf(command_key(s, key).0),
        nav_wf(ctrl_c(s).0),
{
    lemma_update_search_wf(NavModel { search: pop_last(s.search), ..s }, v);
    lemma_outline_keeps(NavModel { outline_query: pop_last(s.outline_query), ..s }, es);
    match key.code {
        KeyCode::Char(ch) => {
            lemma_update_search_wf(NavModel { search: s.search.push(ch), ..s }, v);
            lemma_outline_keeps(NavModel { outline_query: s.outline_query.push(ch), ..s }, es);
        },
        _ => {},
    }
}

#[verifier::spinoff_prover]
#[verifier::rlimit(100)]
proof fn lemma_main_key_wf(s: NavModel, v: ViewModel, es: Seq<EntryModel>, key: Key)
    requires
        nav_wf(s),
    ensures
        nav_wf(main_key(s, v, es, key).0),
{
    lemma_moves_keep(s, v, 1);
    lemma_moves_keep(s, v, -1);
    lemma_moves_keep(s, v, 0);
    lemma_moves_keep(s, v, last_row(v));
    lemma_moves_keep(s, v, half_page(s.body_rows as int));
    lemma_moves_keep(s, v, -half_page(s.body_rows as int));
    lemma_update_search_wf(NavModel { search_focus: true, ..s }, v);
    lemma_outline_keeps(NavModel { outline: !s.outline, ..s }, es);
    lemma_advance_wf(s, true);
    lemma_advance_wf(s, false);
    if s.outline_index > 0 {
        lemma_moves_keep(NavModel { outline_index: (s.outline_index - 1) as usize, ..s }, v, 0);
    }
    lemma_moves_keep(NavModel { outline_index: (s.outline_index + 1) as usize, ..s }, v, 0);
}

/// Every key keeps the match index on a match whenever there are matches.
pub proof fn lemma_handle_key_wf(s: NavModel, v: ViewModel, es: Seq<EntryModel>, key: Key)
    requires
        nav_wf(s),
    ensures
        nav_wf(handle_key(s, v, es, key).0),
{
    let n = normalize(s.escape, s.csi, key);
    let s0 = NavModel { escape: n.0, csi: n.1, ..s };
    if let Some(k) = n.2 {
        lemma_fields_wf(s0, v, es, k);
        lemma_main_key_wf(s0, v, es, k);
        let s1 = NavModel {
            help: false,
            search_focus: false,
            outline_search_focus: false,
            command_focus: false,
            ..s0
        };
        lemma_moves_keep(s1, v, 1);
        lemma_moves_keep(s1, v, -1);
    }
}

} // verus!

verus! {

// ---------------------------------------------------------------------------
// After the caller's work, and what the screen shows
// ---------------------------------------------------------------------------

/// The state after a reload of `slide_count` slides: the same slide, if it is still there.
pub open spec fn clamp_current(s: NavModel, slide_count: usize) -> NavModel {
    let last: int = if slide_count >= 1 {
        slide_count - 1
    } else {
        0
    };
    NavModel {
        current: (if s.current < last {
            s.current as int
        } else {
            last
        }) as usize,
        slide_count,
        ..s
    }
}

/// Refreshed after a reload: search and outline redone, and a status.
pub open spec fn after_reload(s: NavModel, v: ViewModel, es: Seq<EntryModel>) -> NavModel {
    let s1 = recompute_outline(update_search(s, v), es);
    NavModel {
        status: "reloaded "@ + decimal(s.slide_count as nat) + " slides"@,
        ..s1
    }
}

/// Fresh after opening another deck of `slide_count` slides, shown as `shown`.
pub open spec fn after_open(
    s: NavModel,
    slide_count: usize,
    es: Seq<EntryModel>,
    shown: Seq<char>,
) -> NavModel {
    let s1 = NavModel {
        current: 0,
        slide_count,
        scroll: 0,
        cursor: 0,
        anchor: None,
        visual_cursor: 0,
        search: Seq::empty(),
        matches: Seq::empty(),
        match_index: 0,
        ..s
    };
    NavModel { status: "opened "@ + shown, ..recompute_outline(s1, es) }
}

/// The status after opening a link shown as `shown`, one of `links` on its line.
pub open spec fn link_status(shown: Seq<char>, links: usize) -> Seq<char> {
    if links > 1 {
        "opened "@ + shown + " (first of "@ + decimal(links as nat) + " links on line)"@
    } else {
        "opened "@ + shown
    }
}

/// The mode shown at the bottom: the field with the focus and what it holds.
pub open spec fn operational_status(s: NavModel) -> Seq<char> {
    if s.search_focus {
        seq!['/'] + s.search
    } else if s.outline_search_focus {
        seq!['/'] + s.outline_query
    } else if s.command_focus {
        seq![':'] + s.command
    } else {
        Seq::empty()
    }
}

impl Navigator {
    /// Keeps the current slide within a reloaded deck of `slide_count` slides.
    pub fn clamp_current(&mut self, slide_count: usize)
        ensures
            final(self)@ == clamp_current(old(self)@, slide_count),
    {
        let last = if slide_count >= 1 {
            slide_count - 1
        } else {
            0
        };
        if self.current > last {
            self.current = last;
        }
        self.slide_count = slide_count;
    }

    /// Refreshes search and outline after a reload, with the view of the
    /// current slide and the outline entries of the reloaded deck.
    pub fn after_reload(&mut self, v: &CurrentView, entries: &Vec<OutlineEntry>)
        requires
            search_safe(old(self)@.search, v@),
        ensures
            final(self)@ == after_reload(old(self)@, v@, entries.deep_view()),
            nav_wf(final(self)@),
    {
        self.update_search_matches(v);
        self.recompute_outline(entries);
        let mut status = to_owned_string("reloaded ");
        push_count(&mut status, self.slide_count);
        push_str(&mut status, " slides");
        self.status = status;
        proof {
            lemma_outline_keeps(update_search(old(self)@, v@), entries.deep_view());
            lemma_update_search_wf(old(self)@, v@);
        }
    }

    /// Starts afresh on another deck of `slide_count` slides, shown as `shown`.
    pub fn after_open(&mut self, slide_count: usize, entries: &Vec<OutlineEntry>, shown: &str)
        ensures
            final(self)@ == after_open(old(self)@, slide_count, entries.deep_view(), shown@),
            nav_wf(final(self)@),
    {
        self.current = 0;
        self.slide_count = slide_count;
        self.text_scroll = 0;
        self.line_cursor = 0;
        self.visual_anchor = None;
        self.visual_cursor = 0;
        self.search = String::new();
        self.search_matches = Vec::new();
        self.search_match_index = 0;
        self.recompute_outline(entries);
        let mut status = to_owned_string("opened ");
        push_str(&mut status, shown);
        self.status = status;
    }

    /// `:path`: the status shows where the deck was loaded from.
    pub fn show_path(&mut self, shown: &str)
        ensures
            final(self)@ == (NavModel { status: shown@, ..old(self)@ }),
    {
        self.status = to_owned_string(shown);
    }

    /// The mode shown at the bottom of the screen.
    pub fn operational_status(&self) -> (r: String)
        ensures
            r@ == operational_status(self@),
    {
        let mut out = String::new();
        if self.search_focus {
            push_char(&mut out, '/');
            push_str(&mut out, self.search.as_str());
        } else if self.outline_search_focus {
            push_char(&mut out, '/');
            push_str(&mut out, self.outline_query.as_str());
        } else if self.command_focus {
            push_char(&mut out, ':');
            push_str(&mut out, self.command.as_str());
        }
        assert(out@ =~= operational_status(self@));
        out
    }
}

/// `part` added to the status bar `acc`, two spaces apart; an empty part adds
/// nothing.
pub open spec fn append_part(acc: Seq<char>, part: Seq<char>) -> Seq<char> {
    if part.len() == 0 {
        acc
    } else if acc.len() == 0 {
        part
    } else {
        acc + "  "@ + part
    }
}

/// The bottom status bar: the mode, then (with diagnostics on) the scroll
/// report, then the status message.
pub open spec fn bottom_text(mode: Seq<char>, scroll: Seq<char>, status: Seq<char>, diagnostics: bool) -> Seq<char> {
    let a = append_part(Seq::empty(), mode);
    let b = if diagnostics {
        append_part(a, scroll)
    } else {
        a
    };
    append_part(b, status)
}

fn append_part_exec(acc: &mut String, part: &str)
    ensures
        final(acc)@ == append_part(old(acc)@, part@),
{
    if part.is_empty() {
        return;
    }
    if !acc.as_str().is_empty() {
        proof {
            reveal_strlit("  ");
        }
        push_str(acc, "  ");
    }
    push_str(acc, part);
}

/// The bottom status bar of the presentation.
pub fn bottom_line(mode: &str, scroll: &str, status: &str, diagnostics: bool) -> (r: String)
    ensures
        r@ == bottom_text(mode@, scroll@, status@, diagnostics),
{
    let mut out = String::new();
    append_part_exec(&mut out, mode);
    if diagnostics {
        append_part_exec(&mut out, scroll);
    }
    append_part_exec(&mut out, status);
    out
}

/// Whether a setting turns diagnostics on: `1`, `true`, `yes` or `on`, in
/// any case and with white space around.
pub open spec fn flag_on(value: Option<Seq<char>>) -> bool {
    match value {
        Some(v) => {
            let t = lowercase(trim(v));
            t == "1"@ || t == "true"@ || t == "yes"@ || t == "on"@
        },
        None => false,
    }
}

/// Reads the diagnostics setting (`None` when it is unset).
pub fn diagnostics_flag(value: Option<&str>) -> (r: bool)
    ensures
        r == flag_on(
            match value {
                Some(v) => Some(v@),
                None => None,
            },
        ),
{
    match value {
        Some(v) => {
            let t = trim_string(v);
            let l = to_lowercase(t.as_str());
            string_is(&l, "1") || string_is(&l, "true") || string_is(&l, "yes") || string_is(
                &l,
                "on",
            )
        },
        None => false,
    }
}

/// The status after opening a link.
pub fn link_status_text(shown: &str, links: usize) -> (r: String)
    ensures
        r@ == link_status(shown@, links),
{
    let mut out = to_owned_string("opened ");
    push_str(&mut out, shown);
    if links > 1 {
        push_str(&mut out, " (first of ");
        push_count(&mut out, links);
        push_str(&mut out, " links on line)");
    }
    out
}

/// A rectangle of terminal cells.
#[derive(Clone, Copy, Debug, PartialEq, Eq, Structural)]
pub struct Rect {
    pub x: u16,
    pub y: u16,
    pub width: u16,
    pub height: u16,
}

/// A `width` by `height` rectangle (at most the area's size) centred in `area`.
pub open spec fn centered(area: Rect, width: int, height: int) -> Rect {
    let w = if width < area.width {
        width
    } else {
        area.width as int
    };
    let h = if height < area.height {
        height
    } else {
        area.height as int
    };
    Rect {
        x: (area.x + (area.width - w) / 2) as u16,
        y: (area.y + (area.height - h) / 2) as u16,
        width: w as u16,
        height: h as u16,
    }
}

/// A rectangle centred in `area`.
pub fn centered_rect(area: Rect, width: u16, height: u16) -> (r: Rect)
    requires
        area.x + area.width <= u16::MAX,
        area.y + area.height <= u16::MAX,
    ensures
        r == centered(area, width as int, height as int),
{
    let w = if width < area.width {
        width
    } else {
        area.width
    };
    let h = if height < area.height {
        height
    } else {
        area.height
    };
    Rect { x: area.x + (area.width - w) / 2, y: area.y + (area.height - h) / 2, width: w, height: h }
}

/// Whether a slide layout name asks for a large stage.
pub open spec fn wide_layout(layout: Seq<char>) -> bool {
    layout == "image"@ || layout == "hero"@
}

pub open spec fn sat_sub(a: int, b: int) -> int {
    if a >= b {
        a - b
    } else {
        0
    }
}

/// The stage a slide is presented on within `area`: nearly all of it for the
/// `image` and `hero` layouts, else a centred column of readable width.
pub open spec fn stage(area: Rect, layout: Seq<char>) -> Rect {
    let w0 = if wide_layout(layout) {
        sat_sub(area.width as int, 4)
    } else if area.width > 120 {
        96
    } else if area.width > 90 {
        sat_sub(area.width as int, 10)
    } else {
        sat_sub(area.width as int, 4)
    };
    let w1 = if w0 < 10 {
        10
    } else {
        w0
    };
    let width = if w1 < area.width {
        w1
    } else {
        area.width as int
    };
    let h0 = if wide_layout(layout) {
        sat_sub(area.height as int, 1)
    } else {
        sat_sub(area.height as int, 2)
    };
    let h1 = if h0 < 3 {
        3
    } else {
        h0
    };
    let height = if h1 < area.height {
        h1
    } else {
        area.height as int
    };
    centered(area, width, height)
}

/// The stage a slide with layout name `layout` (empty for none) is presented on.
pub fn presentation_stage(area: Rect, layout: &str) -> (r: Rect)
    requires
        area.x + area.width <= u16::MAX,
        area.y + area.height <= u16::MAX,
    ensures
        r == stage(area, layout@),
{
    let wide = str_eq(layout, "image") || str_eq(layout, "hero");
    let w0: u16 = if wide {
        if area.width >= 4 {
            area.width - 4
        } else {
            0
        }
    } else if area.width > 120 {
        96
    } else if area.width > 90 {
        area.width - 10
    } else if area.width >= 4 {
        area.width - 4
    } else {
        0
    };
    let w1 = if w0 < 10 {
        10
    } else {
        w0
    };
    let width = if w1 < area.width {
        w1
    } else {
        area.width
    };
    let h0: u16 = if wide {
        if area.height >= 1 {
            area.height - 1
        } else {
            0
        }
    } else if area.height >= 2 {
        area.height - 2
    } else {
        0
    };
    let h1 = if h0 < 3 {
        3
    } else {
        h0
    };
    let height = if h1 < area.height {
        h1
    } else {
        area.height
    };
    centered_rect(area, width, height)
}

/// The width left for text once the line gutter (2 cells) is taken.
pub fn content_width(width: u16) -> (r: u16)
    ensures
        r == sat_sub(width as int, 2),
{
    if width >= 2 {
        width - 2
    } else {
        0
    }
}

/// The scroll report: where the view stands in a text longer than the body.
pub open spec fn scroll_status(total: int, scroll: int, body_rows: int) -> Seq<char> {
    if total <= body_rows {
        Seq::empty()
    } else {
        "scroll:"@ + decimal(scroll as nat) + " down:"@ + decimal(
            sat_sub(total, scroll + body_rows) as nat,
        )
    }
}

/// The scroll report for a text of `total` rows.
pub fn scroll_status_text(total: usize, scroll: usize, body_rows: usize) -> (r: String)
    ensures
        r@ == scroll_status(total as int, scroll as int, body_rows as int),
{
    if total <= body_rows {
        return String::new();
    }
    let below = if scroll <= total && body_rows <= total - scroll {
        total - scroll - body_rows
    } else {
        0
    };
    let mut out = to_owned_string("scroll:");
    push_count(&mut out, scroll);
    push_str(&mut out, " down:");
    push_count(&mut out, below);
    out
}

} // verus!

verus! {

// ---------------------------------------------------------------------------
// The header's position and the outline popup
// ---------------------------------------------------------------------------

/// The header's position: the slide's number (counting from 1) over the count.
pub open spec fn position_text(current: nat, count: nat) -> Seq<char> {
    decimal(current + 1) + seq!['/'] + decimal(count)
}

/// The header's position text.
pub fn slide_position_text(current: usize, count: usize) -> (r: String)
    ensures
        r@ == position_text(current as nat, count as nat),
{
    let mut out = String::new();
    push_decimal(&mut out, current as u128 + 1);
    push_char(&mut out, '/');
    push_count(&mut out, count);
    proof {
        assert(out@ =~= position_text(current as nat, count as nat));
    }
    out
}

/// The outline's filter line: the query after `/ ` while it has the focus,
/// after two spaces otherwise.
pub open spec fn outline_query_text(focus: bool, query: Seq<char>) -> Seq<char> {
    (if focus {
        seq!['/', ' ']
    } else {
        seq![' ', ' ']
    }) + query
}

/// The outline's filter line.
pub fn outline_query_line(focus: bool, query: &str) -> (r: String)
    ensures
        r@ == outline_query_text(focus, query@),
{
    let mut out = String::new();
    if focus {
        push_char(&mut out, '/');
    } else {
        push_char(&mut out, ' ');
    }
    push_char(&mut out, ' ');
    push_str(&mut out, query);
    proof {
        assert(out@ =~= outline_query_text(focus, query@));
    }
    out
}

/// The outline's footer: how many slides are listed, of how many.
pub open spec fn outline_footer(shown: nat, total: nat) -> Seq<char> {
    decimal(shown) + seq!['/'] + decimal(total) + " slides"@
}

/// The outline's footer.
pub fn outline_footer_text(shown: usize, total: usize) -> (r: String)
    ensures
        r@ == outline_footer(shown as nat, total as nat),
{
    let mut out = String::new();
    push_count(&mut out, shown);
    push_char(&mut out, '/');
    push_count(&mut out, total);
    push_str(&mut out, " slides");
    proof {
        assert(out@ =~= outline_footer(shown as nat, total as nat));
    }
    out
}

/// The number column of an outline entry: the number right-aligned in two
/// columns, with a space on each side.
pub open spec fn outline_number(n: nat) -> Seq<char> {
    seq![' '] + (if decimal(n).len() < 2 {
        seq![' ']
    } else {
        Seq::empty()
    }) + decimal(n) + seq![' ']
}

/// The number style of the entry at the outline's cursor.
pub open spec fn outline_active_number_style() -> Style {
    with_modifier(with_bg(with_fg(plain(), Color::Black), Color::White), BOLD)
}

/// One outline entry: its number, a space and its title; at the cursor the
/// number is inverted and the title bold, elsewhere the number is dim.
pub open spec fn outline_entry(number: usize, title: Seq<char>, active: bool) -> Seq<SpanModel> {
    seq![
        span(
            outline_number(number as nat),
            if active {
                outline_active_number_style()
            } else {
                with_fg(plain(), Color::DarkGray)
            },
        ),
        span(seq![' '], plain()),
        span(
            title,
            if active {
                with_modifier(plain(), BOLD)
            } else {
                plain()
            },
        ),
    ]
}

/// What the outline shows when no entry is in view.
pub open spec fn no_slides_matched() -> Seq<char> {
    "no slides matched"@
}

/// The outline's body rows: the entries (number and title) from `scroll` on,
/// as many as `height` rows hold, the one at `index` at the cursor; a notice
/// when none is shown.
pub open spec fn outline_view(entries: Seq<(usize, Seq<char>)>, scroll: int, index: int, height: int) -> Seq<Seq<SpanModel>> {
    let end = min(entries.len() as int, scroll + height);
    if end <= scroll {
        seq![seq![span(no_slides_matched(), plain())]]
    } else {
        Seq::new(
            (end - scroll) as nat,
            |o: int| outline_entry(entries[scroll + o].0, entries[scroll + o].1, scroll + o == index),
        )
    }
}

fn outline_entry_line(number: usize, title: &String, active: bool) -> (r: Line)
    ensures
        r@ == outline_entry(number, title@, active),
{
    let mut digits = String::new();
    push_count(&mut digits, number);
    let mut label = String::new();
    push_char(&mut label, ' ');
    if char_count(digits.as_str()) < 2 {
        push_char(&mut label, ' ');
    }
    push_str(&mut label, digits.as_str());
    push_char(&mut label, ' ');
    assert(label@ =~= outline_number(number as nat));
    let number_style = if active {
        Style::new().fg(Color::Black).bg(Color::White).add_modifier(BOLD)
    } else {
        Style::new().fg(Color::DarkGray)
    };
    let title_style = if active {
        Style::new().add_modifier(BOLD)
    } else {
        Style::new()
    };
    let mut space = String::new();
    push_char(&mut space, ' ');
    let first = Span { content: label, style: number_style };
    let second = Span { content: space, style: Style::new() };
    let third = Span { content: copy_string(title), style: title_style };
    let mut spans: Vec<Span> = Vec::new();
    proof {
        lemma_deep_view_empty(spans);
    }
    let ghost s0 = spans;
    spans.push(first);
    proof {
        lemma_deep_view_push(s0, spans, first);
    }
    let ghost s1 = spans;
    spans.push(second);
    proof {
        lemma_deep_view_push(s1, spans, second);
    }
    let ghost s2 = spans;
    spans.push(third);
    proof {
        lemma_deep_view_push(s2, spans, third);
        assert(spans.deep_view() =~= outline_entry(number, title@, active));
    }
    Line { spans }
}

/// The outline's body rows for `height` rows, the entries shown from `scroll` on.
pub fn outline_lines(entries: &Vec<(usize, String)>, scroll: usize, index: usize, height: usize) -> (r: Vec<Line>)
    requires
        scroll <= entries.len(),
    ensures
        r.deep_view() == outline_view(entries.deep_view(), scroll as int, index as int, height as int),
{
    let end = if height <= entries.len() - scroll {
        scroll + height
    } else {
        entries.len()
    };
    let ghost es = entries.deep_view();
    let mut out: Vec<Line> = Vec::new();
    proof {
        lemma_deep_view_empty(out);
    }
    let mut i = scroll;
    while i < end
        invariant
            scroll <= i <= end <= entries.len(),
            end == min(entries.len() as int, scroll + height),
            es == entries.deep_view(),
            out.deep_view() =~= Seq::new(
                (i - scroll) as nat,
                |o: int| outline_entry(es[scroll + o].0, es[scroll + o].1, scroll + o == index),
            ),
        decreases end - i,
    {
        let line = outline_entry_line(entries[i].0, &entries[i].1, i == index);
        let ghost before = out;
        out.push(line);
        proof {
            lemma_deep_view_push(before, out, line);
            assert(es[i as int] == (entries@[i as int].0, entries@[i as int].1@));
        }
        i += 1;
    }
    if out.len() == 0 {
        let mut spans: Vec<Span> = Vec::new();
        proof {
            lemma_deep_view_empty(spans);
        }
        let notice = Span { content: to_owned_string("no slides matched"), style: Style::new() };
        let ghost s0 = spans;
        spans.push(notice);
        proof {
            lemma_deep_view_push(s0, spans, notice);
        }
        let line = Line { spans };
        let ghost before = out;
        out.push(line);
        proof {
            lemma_deep_view_push(before, out, line);
            assert(out.deep_view() =~= outline_view(es, scroll as int, index as int, height as int));
        }
    }
    out
}

} // verus!

verus! {

// ---------------------------------------------------------------------------
// Links and watched files
// ---------------------------------------------------------------------------

/// Where a link leads: a URL to hand to the system, or a file.
#[derive(Clone, Debug, PartialEq, Eq)]
pub enum LinkTarget {
    External(String),
    File(String),
}

impl LinkTarget {
    /// The target as shown to the user.
    pub fn display(&self) -> (r: String)
        ensures
            r@ == (match self {
                LinkTarget::External(u) => u@,
                LinkTarget::File(p) => p@,
            }),
    {
        match self {
            LinkTarget::External(u) => copy_string(u),
            LinkTarget::File(p) => copy_string(p),
        }
    }
}

/// A link that leaves the deck: a URL with a scheme, `mailto:`, `file:` or `www.`.
pub open spec fn external_link(url: Seq<char>) -> bool {
    contains_seq(url, "://"@) || has_prefix(url, "mailto:"@) || has_prefix(url, "file:"@)
        || has_prefix(url, "www."@)
}

/// Whether a link leaves the deck.
pub fn is_external_link(url: &str) -> (r: bool)
    ensures
        r == external_link(url@),
{
    let cs = chars_of(url);
    let mailto = ['m', 'a', 'i', 'l', 't', 'o', ':'];
    let file = ['f', 'i', 'l', 'e', ':'];
    let www = ['w', 'w', 'w', '.'];
    proof {
        reveal_strlit("mailto:");
        reveal_strlit("file:");
        reveal_strlit("www.");
    }
    assert(mailto@ =~= "mailto:"@);
    assert(file@ =~= "file:"@);
    assert(www@ =~= "www."@);
    contains_str(url, "://") || begins_with(&cs, &mailto) || begins_with(&cs, &file)
        || begins_with(&cs, &www)
}

/// A path without what `Path::components` skips at its end: trailing `/`
/// separators and `.` segments that follow one.
pub open spec fn trim_path_end(p: Seq<char>) -> Seq<char>
    decreases p.len(),
{
    if p.len() > 0 && (p.last() == '/' || (p.len() >= 2 && p.last() == '.' && p[p.len() - 2]
        == '/')) {
        trim_path_end(p.drop_last())
    } else {
        p
    }
}

/// The directory part of a path, as `Path::parent` gives it on Unix: the path
/// up to its last component, with the separators before that component
/// dropped (the root for a path directly under it, nothing for a bare name);
/// `None` for the root and the empty path.
pub open spec fn parent_of(p: Seq<char>) -> Option<Seq<char>> {
    let q = trim_path_end(p);
    let k = crate::deck::last_index_of(q, '/');
    if q.len() == 0 {
        None
    } else if k < 0 {
        Some(Seq::empty())
    } else {
        let r = trim_path_end(q.take(k));
        if r.len() == 0 {
            Some(seq!['/'])
        } else {
            Some(r)
        }
    }
}

/// The length of `trim_path_end` of the first `n` characters.
fn trimmed_path_len(cs: &Vec<char>, n: usize) -> (m: usize)
    requires
        n <= cs.len(),
    ensures
        m <= n,
        cs@.take(m as int) == trim_path_end(cs@.take(n as int)),
{
    let mut m = n;
    while m > 0 && (cs[m - 1] == '/' || (m >= 2 && cs[m - 1] == '.' && cs[m - 2] == '/'))
        invariant
            m <= n <= cs.len(),
            trim_path_end(cs@.take(n as int)) == trim_path_end(cs@.take(m as int)),
        decreases m,
    {
        assert(cs@.take(m as int).drop_last() =~= cs@.take(m - 1));
        m -= 1;
    }
    m
}

/// The position of the last `c` among the first `n` characters.
fn find_last_before(cs: &Vec<char>, n: usize, c: char) -> (r: Option<usize>)
    requires
        n <= cs.len(),
    ensures
        r matches Some(k) ==> k == crate::deck::last_index_of(cs@.take(n as int), c) && k < n,
        r is None ==> crate::deck::last_index_of(cs@.take(n as int), c) == -1,
{
    let mut k: usize = n;
    while k > 0
        invariant
            k <= n <= cs.len(),
            crate::deck::last_index_of(cs@.take(n as int), c) == crate::deck::last_index_of(
                cs@.take(k as int),
                c,
            ),
        decreases k,
    {
        assert(cs@.take(k as int).drop_last() =~= cs@.take(k - 1));
        if cs[k - 1] == c {
            return Some(k - 1);
        }
        k -= 1;
    }
    None
}

/// Where a link of the slide at `slide_path` leads (before the file system
/// resolves links): external links as written; else the link without its
/// `#` fragment, relative to the slide's directory; the slide itself for a
/// bare fragment.
pub open spec fn link_target(slide_path: Seq<char>, url: Seq<char>) -> (bool, Seq<char>) {
    if external_link(url) {
        (true, url)
    } else {
        let relative = crate::text::piece_or(url, '#', 0, url);
        let base = match parent_of(slide_path) {
            Some(b) => b,
            None => seq!['.'],
        };
        if relative.len() == 0 {
            (false, slide_path)
        } else {
            (false, crate::markdown::join_path(base, relative))
        }
    }
}

/// Where a link of the slide at `slide_path` leads; file targets still to be
/// resolved by the file system.
pub fn resolve_link_target(slide_path: &str, url: &str) -> (r: LinkTarget)
    ensures
        match r {
            LinkTarget::External(u) => link_target(slide_path@, url@) == (true, u@),
            LinkTarget::File(p) => link_target(slide_path@, url@) == (false, p@),
        },
{
    if is_external_link(url) {
        return LinkTarget::External(to_owned_string(url));
    }
    let relative = crate::text::piece_or_exec(url, '#', 0, url);
    let sc = chars_of(slide_path);
    let n = trimmed_path_len(&sc, sc.len());
    assert(sc@.take(sc.len() as int) =~= sc@);
    let base = if n == 0 {
        to_owned_string(".")
    } else {
        match find_last_before(&sc, n, '/') {
            None => String::new(),
            Some(k) => {
                assert(sc@.take(n as int).take(k as int) =~= sc@.take(k as int));
                let m = trimmed_path_len(&sc, k);
                if m == 0 {
                    to_owned_string("/")
                } else {
                    substring(sc.as_slice(), 0, m)
                }
            },
        }
    };
    proof {
        reveal_strlit(".");
        reveal_strlit("/");
        reveal_strlit("");
        assert("."@ =~= seq!['.']);
        assert("/"@ =~= seq!['/']);
        assert(sc@.subrange(0, 0) =~= Seq::<char>::empty());
    }
    if relative.as_str().is_empty() {
        return LinkTarget::File(to_owned_string(slide_path));
    }
    LinkTarget::File(crate::markdown::join_path_exec(base.as_str(), relative.as_str()))
}

/// What a watcher should do with the newest modification time it sees.
#[derive(Clone, Copy, Debug, PartialEq, Eq, Structural)]
pub enum WatchDecision {
    /// A file changed since the time recorded: reload.
    Reload,
    /// Nothing was recorded yet: record this time.
    Record(u128),
    /// Nothing to do.
    Keep,
}

/// Reload when the newest time passed the recorded one; record the first time seen.
pub fn watch_decision(recorded: Option<u128>, latest: Option<u128>) -> (r: WatchDecision)
    ensures
        r == (match (recorded, latest) {
            (Some(p), Some(c)) => if c > p {
                WatchDecision::Reload
            } else {
                WatchDecision::Keep
            },
            (None, Some(c)) => WatchDecision::Record(c),
            _ => WatchDecision::Keep,
        }),
{
    match (recorded, latest) {
        (Some(p), Some(c)) => if c > p {
            WatchDecision::Reload
        } else {
            WatchDecision::Keep
        },
        (None, Some(c)) => WatchDecision::Record(c),
        _ => WatchDecision::Keep,
    }
}

/// The largest of the times that are known.
pub open spec fn latest_of(ts: Seq<Option<u128>>) -> Option<u128>
    decreases ts.len(),
{
    if ts.len() == 0 {
        None
    } else {
        let prev = latest_of(ts.drop_last());
        match ts.last() {
            Some(t) => match prev {
                Some(p) => if t > p {
                    Some(t)
                } else {
                    Some(p)
                },
                None => Some(t),
            },
            None => prev,
        }
    }
}

/// The newest of the modification times that could be read (nanoseconds since 1970).
pub fn latest_mtime(times: &Vec<Option<u128>>) -> (r: Option<u128>)
    ensures
        r == latest_of(times@),
{
    let mut best: Option<u128> = None;
    let mut i: usize = 0;
    assert(times@.take(0) =~= Seq::<Option<u128>>::empty());
    while i < times.len()
        invariant
            i <= times.len(),
            best == latest_of(times@.take(i as int)),
        decreases times.len() - i,
    {
        assert(times@.take(i as int + 1).drop_last() =~= times@.take(i as int));
        assert(times@.take(i as int + 1).last() == times@[i as int]);
        match times[i] {
            Some(t) => {
                best = match best {
                    Some(p) => if t > p {
                        Some(t)
                    } else {
                        Some(p)
                    },
                    None => Some(t),
                };
            },
            None => {},
        }
        i += 1;
    }
    assert(times@.take(i as int) =~= times@);
    best
}

} // verus!

verus! {

/// A component of a path, in the order paths sort by: the root, a leading
/// `.`, `..`, then names.
pub enum Component {
    Root,
    Cur,
    Parent,
    Normal(Seq<char>),
}

/// The components of the pieces of a path after its first, skipping empty
/// pieces and `.`.
pub open spec fn later_components(ps: Seq<Seq<char>>) -> Seq<Component>
    decreases ps.len(),
{
    if ps.len() == 0 {
        Seq::empty()
    } else {
        let rest = later_components(ps.drop_first());
        let p = ps[0];
        if p.len() == 0 || p == seq!['.'] {
            rest
        } else if p == seq!['.', '.'] {
            seq![Component::Parent] + rest
        } else {
            seq![Component::Normal(p)] + rest
        }
    }
}

/// The components of a `/`-separated path, as `Path::components` gives them.
pub open spec fn components(p: Seq<char>) -> Seq<Component> {
    let ps = split_on_seq(p);
    if p.len() > 0 && p[0] == '/' {
        seq![Component::Root] + later_components(ps.drop_first())
    } else if ps[0] == seq!['.'] {
        seq![Component::Cur] + later_components(ps.drop_first())
    } else {
        later_components(ps)
    }
}

pub open spec fn split_on_seq(p: Seq<char>) -> Seq<Seq<char>> {
    crate::text::split_on(p, '/')
}

pub open spec fn component_rank(c: Component) -> int {
    match c {
        Component::Root => 0,
        Component::Cur => 1,
        Component::Parent => 2,
        Component::Normal(_) => 3,
    }
}

/// The order of two components.
pub open spec fn component_order(a: Component, b: Component) -> crate::deck::Order {
    match (a, b) {
        (Component::Normal(x), Component::Normal(y)) => crate::deck::text_order(x, y),
        _ => if component_rank(a) < component_rank(b) {
            crate::deck::Order::Less
        } else if component_rank(a) > component_rank(b) {
            crate::deck::Order::Greater
        } else {
            crate::deck::Order::Equal
        },
    }
}

/// The order of paths: their components compared one by one.
pub open spec fn components_order(a: Seq<Component>, b: Seq<Component>) -> crate::deck::Order
    decreases a.len(),
{
    if a.len() == 0 && b.len() == 0 {
        crate::deck::Order::Equal
    } else if a.len() == 0 {
        crate::deck::Order::Less
    } else if b.len() == 0 {
        crate::deck::Order::Greater
    } else {
        match component_order(a[0], b[0]) {
            crate::deck::Order::Equal => components_order(a.drop_first(), b.drop_first()),
            o => o,
        }
    }
}

/// The order of two paths.
#[verifier::opaque]
pub open spec fn path_order(a: Seq<char>, b: Seq<char>) -> crate::deck::Order {
    components_order(components(a), components(b))
}

proof fn lemma_components_order_flip(a: Seq<Component>, b: Seq<Component>)
    ensures
        components_order(b, a) == crate::deck::flip(components_order(a, b)),
    decreases a.len(),
{
    if a.len() > 0 && b.len() > 0 {
        match (a[0], b[0]) {
            (Component::Normal(x), Component::Normal(y)) => crate::deck::lemma_text_order_flip(
                x,
                y,
            ),
            _ => {},
        }
        if component_order(a[0], b[0]) == crate::deck::Order::Equal {
            lemma_components_order_flip(a.drop_first(), b.drop_first());
        }
    }
}

/// Swapping two paths flips their order.
pub proof fn lemma_path_order_flip(a: Seq<char>, b: Seq<char>)
    ensures
        path_order(b, a) == crate::deck::flip(path_order(a, b)),
{
    reveal(path_order);
    lemma_components_order_flip(components(a), components(b));
}

} // verus!

verus! {

/// A path component, executable.
pub enum PathComponent {
    Root,
    Cur,
    Parent,
    Normal(String),
}

impl View for PathComponent {
    type V = Component;

    open spec fn view(&self) -> Component {
        match self {
            PathComponent::Root => Component::Root,
            PathComponent::Cur => Component::Cur,
            PathComponent::Parent => Component::Parent,
            PathComponent::Normal(s) => Component::Normal(s@),
        }
    }
}

impl DeepView for PathComponent {
    type V = Component;

    open spec fn deep_view(&self) -> Component {
        self@
    }
}

/// The components of the pieces from `from` on.
fn later_components_exec(ps: &Vec<String>, from: usize) -> (r: Vec<PathComponent>)
    requires
        from <= ps.len(),
    ensures
        r.deep_view() == later_components(ps.deep_view().skip(from as int)),
{
    let ghost pv = ps.deep_view();
    let mut out: Vec<PathComponent> = Vec::new();
    let mut k: usize = ps.len();
    proof {
        lemma_deep_view_empty_pc(out);
        assert(pv.skip(k as int) =~= Seq::<Seq<char>>::empty());
    }
    // built from the back: `out` holds the components of the pieces from `k` on, reversed
    let mut rev: Vec<PathComponent> = Vec::new();
    let ghost mut acc: Seq<Component> = Seq::empty();
    while k > from
        invariant
            from <= k <= ps.len(),
            pv == ps.deep_view(),
            acc == later_components(pv.skip(k as int)),
            rev.deep_view() == acc.reverse(),
        decreases k,
    {
        let p = &ps[k - 1];
        proof {
            assert(pv.skip(k - 1)[0] == p@);
            assert(pv.skip(k - 1).drop_first() =~= pv.skip(k as int));
            reveal_strlit(".");
            reveal_strlit("..");
            assert("."@ =~= seq!['.']);
            assert(".."@ =~= seq!['.', '.']);
        }
        if p.as_str().is_empty() || string_is(p, ".") {
        } else if string_is(p, "..") {
            let ghost before = rev;
            rev.push(PathComponent::Parent);
            proof {
                assert(rev.deep_view() =~= before.deep_view().push(Component::Parent));
                assert((seq![Component::Parent] + acc).reverse() =~= acc.reverse().push(
                    Component::Parent,
                ));
                acc = seq![Component::Parent] + acc;
            }
        } else {
            let c = PathComponent::Normal(copy_string(p));
            let ghost cv = c@;
            let ghost before = rev;
            rev.push(c);
            proof {
                assert(rev.deep_view() =~= before.deep_view().push(cv));
                assert((seq![cv] + acc).reverse() =~= acc.reverse().push(cv));
                acc = seq![cv] + acc;
            }
        }
        k -= 1;
    }
    // reverse into order
    let mut i: usize = rev.len();
    let ghost rv = rev.deep_view();
    while i > 0
        invariant
            i <= rev.len(),
            rv == rev.deep_view(),
            rv == acc.reverse(),
            out.deep_view() == acc.take(rv.len() - i),
        decreases i,
    {
        let c = match &rev[i - 1] {
            PathComponent::Root => PathComponent::Root,
            PathComponent::Cur => PathComponent::Cur,
            PathComponent::Parent => PathComponent::Parent,
            PathComponent::Normal(s) => PathComponent::Normal(copy_string(s)),
        };
        let ghost before = out;
        out.push(c);
        proof {
            assert(c@ == rv[i - 1]);
            assert(out.deep_view() =~= before.deep_view().push(c@));
            assert(acc.take(rv.len() - i + 1) =~= acc.take(rv.len() - i).push(acc[rv.len() - i]));
        }
        i -= 1;
    }
    proof {
        assert(acc.take(rv.len() as int) =~= acc);
    }
    out
}

proof fn lemma_deep_view_empty_pc(v: Vec<PathComponent>)
    requires
        v@ == Seq::<PathComponent>::empty(),
    ensures
        v.deep_view() == Seq::<Component>::empty(),
{
    assert(v.deep_view() =~= Seq::<Component>::empty());
}

/// The components of a path.
fn path_components(p: &str) -> (r: Vec<PathComponent>)
    ensures
        r.deep_view() == components(p@),
{
    let ps = crate::text::split_on_exec(p, '/');
    let ghost pv = ps.deep_view();
    let cs = chars_of(p);
    proof {
        reveal_strlit(".");
        assert("."@ =~= seq!['.']);
        assert(pv.len() > 0);
    }
    if cs.len() > 0 && cs[0] == '/' {
        let rest = later_components_exec(&ps, 1);
        let mut out: Vec<PathComponent> = Vec::new();
        out.push(PathComponent::Root);
        let mut k: usize = 0;
        while k < rest.len()
            invariant
                k <= rest.len(),
                out.deep_view() == seq![Component::Root] + rest.deep_view().take(k as int),
            decreases rest.len() - k,
        {
            let c = match &rest[k] {
                PathComponent::Root => PathComponent::Root,
                PathComponent::Cur => PathComponent::Cur,
                PathComponent::Parent => PathComponent::Parent,
                PathComponent::Normal(s) => PathComponent::Normal(copy_string(s)),
            };
            let ghost before = out;
            out.push(c);
            proof {
                assert(c@ == rest.deep_view()[k as int]);
                assert(out.deep_view() =~= before.deep_view().push(c@));
                assert(rest.deep_view().take(k + 1) =~= rest.deep_view().take(k as int).push(c@));
            }
            k += 1;
        }
        proof {
            assert(rest.deep_view().take(k as int) =~= rest.deep_view());
            assert(pv.skip(1) =~= pv.drop_first());
        }
        return out;
    }
    proof {
        assert(pv.len() > 0);
    }
    if string_is(&ps[0], ".") {
        let rest = later_components_exec(&ps, 1);
        let mut out: Vec<PathComponent> = Vec::new();
        out.push(PathComponent::Cur);
        let mut k: usize = 0;
        while k < rest.len()
            invariant
                k <= rest.len(),
                out.deep_view() == seq![Component::Cur] + rest.deep_view().take(k as int),
            decreases rest.len() - k,
        {
            let c = match &rest[k] {
                PathComponent::Root => PathComponent::Root,
                PathComponent::Cur => PathComponent::Cur,
                PathComponent::Parent => PathComponent::Parent,
                PathComponent::Normal(s) => PathComponent::Normal(copy_string(s)),
            };
            let ghost before = out;
            out.push(c);
            proof {
                assert(c@ == rest.deep_view()[k as int]);
                assert(out.deep_view() =~= before.deep_view().push(c@));
                assert(rest.deep_view().take(k + 1) =~= rest.deep_view().take(k as int).push(c@));
            }
            k += 1;
        }
        proof {
            assert(rest.deep_view().take(k as int) =~= rest.deep_view());
            assert(pv.skip(1) =~= pv.drop_first());
            assert(pv[0] == ps[0]@);
        }
        return out;
    }
    proof {
        assert(pv[0] == ps[0]@);
        assert(pv.skip(0) =~= pv);
    }
    later_components_exec(&ps, 0)
}

fn compare_component(a: &PathComponent, b: &PathComponent) -> (r: crate::deck::Order)
    ensures
        r == component_order(a@, b@),
{
    match (a, b) {
        (PathComponent::Normal(x), PathComponent::Normal(y)) => crate::deck::compare_text(
            x.as_str(),
            y.as_str(),
        ),
        _ => {
            let ra: u8 = match a {
                PathComponent::Root => 0,
                PathComponent::Cur => 1,
                PathComponent::Parent => 2,
                PathComponent::Normal(_) => 3,
            };
            let rb: u8 = match b {
                PathComponent::Root => 0,
                PathComponent::Cur => 1,
                PathComponent::Parent => 2,
                PathComponent::Normal(_) => 3,
            };
            if ra < rb {
                crate::deck::Order::Less
            } else if ra > rb {
                crate::deck::Order::Greater
            } else {
                crate::deck::Order::Equal
            }
        },
    }
}

/// The order of two paths by their components.
pub fn compare_paths(a: &str, b: &str) -> (r: crate::deck::Order)
    ensures
        r == path_order(a@, b@),
{
    let ca = path_components(a);
    let cb = path_components(b);
    let ghost av = ca.deep_view();
    let ghost bv = cb.deep_view();
    proof {
        reveal(path_order);
        assert(av.skip(0) =~= av);
        assert(bv.skip(0) =~= bv);
    }
    let mut i: usize = 0;
    while i < ca.len() && i < cb.len()
        invariant
            av == ca.deep_view(),
            bv == cb.deep_view(),
            i <= ca.len(),
            i <= cb.len(),
            path_order(a@, b@) == components_order(av, bv),
            components_order(av, bv) == components_order(av.skip(i as int), bv.skip(i as int)),
        decreases ca.len() - i,
    {
        assert(av.skip(i as int)[0] == ca[i as int]@);
        assert(bv.skip(i as int)[0] == cb[i as int]@);
        let o = compare_component(&ca[i], &cb[i]);
        match o {
            crate::deck::Order::Equal => {},
            _ => {
                return o;
            },
        }
        assert(av.skip(i as int).drop_first() =~= av.skip(i as int + 1));
        assert(bv.skip(i as int).drop_first() =~= bv.skip(i as int + 1));
        i += 1;
    }
    if i == ca.len() && i == cb.len() {
        crate::deck::Order::Equal
    } else if i == ca.len() {
        crate::deck::Order::Less
    } else {
        crate::deck::Order::Greater
    }
}

} // verus!

verus! {

proof fn lemma_text_order_equal(a: Seq<char>, b: Seq<char>)
    ensures
        crate::deck::text_order(a, b) == crate::deck::Order::Equal ==> a == b,
    decreases a.len(),
{
    if a.len() > 0 && b.len() > 0 && a[0] == b[0] {
        lemma_text_order_equal(a.drop_first(), b.drop_first());
        if crate::deck::text_order(a, b) == crate::deck::Order::Equal {
            assert(a =~= seq![a[0]] + a.drop_first());
            assert(b =~= seq![b[0]] + b.drop_first());
        }
    }
}

proof fn lemma_components_order_equal(a: Seq<Component>, b: Seq<Component>)
    ensures
        components_order(a, b) == crate::deck::Order::Equal ==> a == b,
    decreases a.len(),
{
    if a.len() > 0 && b.len() > 0 {
        match (a[0], b[0]) {
            (Component::Normal(x), Component::Normal(y)) => lemma_text_order_equal(x, y),
            _ => {},
        }
        if component_order(a[0], b[0]) == crate::deck::Order::Equal {
            lemma_components_order_equal(a.drop_first(), b.drop_first());
            if components_order(a, b) == crate::deck::Order::Equal {
                assert(a[0] == b[0]);
                assert(a =~= seq![a[0]] + a.drop_first());
                assert(b =~= seq![b[0]] + b.drop_first());
            }
        }
    }
}

/// Paths in the same order are the same path.
pub proof fn lemma_path_order_equal(a: Seq<char>, b: Seq<char>)
    ensures
        path_order(a, b) == crate::deck::Order::Equal ==> components(a) =~= components(b),
{
    reveal(path_order);
    lemma_components_order_equal(components(a), components(b));
}

/// Every one of the first `n` inputs has a path with its components in `out`.
pub open spec fn covers(out: Seq<Seq<char>>, input: Seq<Seq<char>>, n: int) -> bool {
    forall|m: int|
        #![trigger input[m]]
        0 <= m < n ==> exists|k: int| 0 <= k < out.len() && same_path(#[trigger] out[k], input[m])
}

proof fn lemma_covers_dup(ov: Seq<Seq<char>>, input: Seq<Seq<char>>, i: int, j: int)
    requires
        covers(ov, input, i),
        0 <= j < ov.len(),
        0 <= i < input.len(),
        same_path(ov[j], input[i]),
    ensures
        covers(ov, input, i + 1),
{
    assert forall|m: int| #![trigger input[m]] 0 <= m < i + 1 implies exists|k: int|
        0 <= k < ov.len() && same_path(#[trigger] ov[k], input[m]) by {
        if m == i {
            assert(same_path(ov[j], input[m]));
        }
    }
}

proof fn lemma_covers_insert(ov: Seq<Seq<char>>, input: Seq<Seq<char>>, i: int, p: int, x: Seq<char>)
    requires
        covers(ov, input, i),
        0 <= p <= ov.len(),
        0 <= i < input.len(),
        input[i] == x,
    ensures
        covers(ov.insert(p, x), input, i + 1),
{
    let nv = ov.insert(p, x);
    assert forall|m: int| #![trigger input[m]] 0 <= m < i + 1 implies exists|k: int|
        0 <= k < nv.len() && same_path(#[trigger] nv[k], input[m]) by {
        if m == i {
            assert(nv[p] == x);
            assert(same_path(nv[p], input[m]));
        } else {
            let k0 = choose|k: int| 0 <= k < ov.len() && same_path(#[trigger] ov[k], input[m]);
            if k0 < p {
                assert(nv[k0] == ov[k0]);
                assert(same_path(nv[k0], input[m]));
            } else {
                assert(nv[k0 + 1] == ov[k0]);
                assert(same_path(nv[k0 + 1], input[m]));
            }
        }
    }
}

/// Two paths with the same components.
pub open spec fn same_path(a: Seq<char>, b: Seq<char>) -> bool {
    components(a) == components(b)
}

/// Each path comes strictly before the next.
pub open spec fn paths_ascending(ps: Seq<Seq<char>>) -> bool {
    forall|i: int, j: int|
        0 <= i && j == i + 1 && j < ps.len() ==> #[trigger] path_order(ps[i], ps[j])
            == crate::deck::Order::Less
}

/// The files to watch for changes: the one file of a deck opened from a file,
/// else the slides' files in path order, each path once.
pub fn watched_paths(opened_file: bool, slide_paths: &Vec<String>) -> (r: Vec<String>)
    ensures
        opened_file && slide_paths.len() == 1 ==> r.deep_view() == slide_paths.deep_view(),
        !(opened_file && slide_paths.len() == 1) ==> {
            &&& paths_ascending(r.deep_view())
            &&& forall|k: int|
                0 <= k < r.len() ==> slide_paths.deep_view().contains(#[trigger] r.deep_view()[k])
            &&& covers(r.deep_view(), slide_paths.deep_view(), slide_paths.len() as int)
        },
{
    let ghost input = slide_paths.deep_view();
    if opened_file && slide_paths.len() == 1 {
        let mut out: Vec<String> = Vec::new();
        let c = copy_string(&slide_paths[0]);
        out.push(c);
        assert(out.deep_view() =~= input);
        return out;
    }
    let mut out: Vec<String> = Vec::new();
    assert(out.deep_view() =~= Seq::<Seq<char>>::empty());
    let mut i: usize = 0;
    while i < slide_paths.len()
        invariant
            i <= slide_paths.len(),
            input == slide_paths.deep_view(),
            paths_ascending(out.deep_view()),
            forall|k: int| 0 <= k < out.len() ==> input.contains(#[trigger] out.deep_view()[k]),
            covers(out.deep_view(), input, i as int),
        decreases slide_paths.len() - i,
    {
        let x = copy_string(&slide_paths[i]);
        let ghost ov = out.deep_view();
        let mut p: usize = out.len();
        while p > 0 && compare_paths(x.as_str(), out[p - 1].as_str()) == crate::deck::Order::Less
            invariant
                p <= out.len(),
                ov == out.deep_view(),
                forall|q: int| p <= q < ov.len() ==> path_order(x@, #[trigger] ov[q])
                    == crate::deck::Order::Less,
            decreases p,
        {
            p -= 1;
        }
        let dup = p > 0 && compare_paths(x.as_str(), out[p - 1].as_str()) == crate::deck::Order::Equal;
        if dup {
            proof {
                lemma_path_order_equal(x@, ov[p - 1]);
                assert(x@ == input[i as int]);
                assert(path_order(x@, ov[p - 1]) == crate::deck::Order::Equal);
                assert(same_path(x@, ov[p - 1]));
                assert(same_path(ov[p - 1], input[i as int]));
                lemma_covers_dup(ov, input, i as int, p - 1);
                assert(covers(out.deep_view(), input, i + 1));
            }
        } else {
            out.insert(p, x);
            proof {
                let nv = ov.insert(p as int, x@);
                assert(out.deep_view() =~= nv);
                if p > 0 {
                    lemma_path_order_flip(x@, ov[p - 1]);
                }
                assert forall|k: int, m: int|
                    0 <= k && m == k + 1 && m < nv.len() implies #[trigger] path_order(nv[k], nv[m])
                        == crate::deck::Order::Less by {
                    if m < p {
                        assert(nv[k] == ov[k] && nv[m] == ov[m]);
                        assert(path_order(ov[k], ov[m]) == crate::deck::Order::Less);
                    } else if m == p {
                        assert(nv[k] == ov[k] && nv[m] == x@);
                    } else if k == p {
                        assert(nv[k] == x@ && nv[m] == ov[k]);
                    } else {
                        assert(nv[k] == ov[k - 1] && nv[m] == ov[k]);
                        assert(path_order(ov[k - 1], ov[k]) == crate::deck::Order::Less);
                    }
                }
                assert forall|k: int| 0 <= k < nv.len() implies input.contains(#[trigger] nv[k]) by {
                    if k < p {
                        assert(nv[k] == ov[k]);
                    } else if k == p {
                        assert(input[i as int] == x@);
                    } else {
                        assert(nv[k] == ov[k - 1]);
                    }
                }
                lemma_covers_insert(ov, input, i as int, p as int, x@);
                assert(covers(out.deep_view(), input, i + 1));
            }
        }
        i += 1;
    }
    out
}

/// The rows a layout shows: each laid-out line with its searchable text, its
/// heading level and its links.
pub open spec fn rows_of_layout(lines: Seq<crate::layout::LineModel>) -> Seq<RowModel> {
    lines.map_values(
        |l: crate::layout::LineModel|
            RowModel { row: l.row, text: l.search_text, heading: l.heading, links: l.links },
    )
}

/// The view of a laid-out slide.
pub fn view_of_layout(layout: &crate::layout::SlideLayout) -> (r: CurrentView)
    ensures
        r@.total_rows == layout@.total_rows,
        r@.rows == rows_of_layout(layout@.lines),
{
    let ghost lines = layout@.lines;
    let mut rows: Vec<RowInfo> = Vec::new();
    let mut i: usize = 0;
    assert(rows.deep_view() =~= rows_of_layout(lines.take(0)));
    while i < layout.lines.len()
        invariant
            i <= layout.lines.len(),
            lines == layout@.lines,
            rows.deep_view() == rows_of_layout(lines.take(i as int)),
        decreases layout.lines.len() - i,
    {
        let l = &layout.lines[i];
        let info = RowInfo {
            row: l.row,
            search_text: copy_string(&l.search_text),
            heading_level: l.heading_level,
            link_urls: crate::layout::copy_strings(&l.link_urls),
        };
        let ghost before = rows;
        rows.push(info);
        proof {
            assert(rows.deep_view() =~= before.deep_view().push(info@));
            assert(rows_of_layout(lines.take(i as int + 1)) =~= rows_of_layout(lines.take(i as int)).push(
                info@,
            ));
        }
        i += 1;
    }
    assert(lines.take(i as int) =~= lines);
    CurrentView { total_rows: layout.total_rows, rows }
}

} // verus!

verus! {

// ---------------------------------------------------------------------------
// Laws of the navigation
// ---------------------------------------------------------------------------

/// The navigation points into a deck of `slide_count` slides: the current
/// slide is one of them (the first, of an empty deck) and so is every slide
/// the outline lists.
pub open spec fn on_deck(s: NavModel) -> bool {
    &&& (if s.slide_count == 0 {
        s.current == 0
    } else {
        s.current < s.slide_count
    })
    &&& forall|i: int| 0 <= i < s.filtered.len() ==> #[trigger] s.filtered[i] < s.slide_count
}

/// No field has the focus, no overlay is open, no search is kept and no
/// visual selection is active.
pub open spec fn at_root(s: NavModel) -> bool {
    !s.command_focus && !s.search_focus && !s.outline_search_focus && !s.help && !s.outline
        && s.search.len() == 0 && s.anchor is None
}

/// Whether a field or the help overlay holds the focus.
pub open spec fn focused(s: NavModel) -> bool {
    s.help || s.search_focus || s.outline_search_focus || s.command_focus
}

proof fn lemma_filter_entries_bounded(es: Seq<EntryModel>, q: Seq<char>)
    ensures
        forall|i: int|
            0 <= i < filter_entries(es, q).len() ==> #[trigger] filter_entries(es, q)[i] < es.len(),
    decreases es.len(),
{
    if es.len() > 0 {
        lemma_filter_entries_bounded(es.drop_last(), q);
        let prev = filter_entries(es.drop_last(), q);
        let f = filter_entries(es, q);
        assert forall|i: int| 0 <= i < f.len() implies #[trigger] f[i] < es.len() by {
            if i < prev.len() {
                assert(f[i] == prev[i]);
            }
        }
    }
}

proof fn lemma_outline_on_deck(s: NavModel, es: Seq<EntryModel>)
    requires
        on_deck(s),
        es.len() == s.slide_count,
    ensures
        on_deck(recompute_outline(s, es)),
        recompute_outline(s, es).slide_count == s.slide_count,
{
    lemma_filter_entries_bounded(es, lowercase(trim(s.outline_query)));
}

/// What moving about leaves alone: the slide, the deck and the outline.
proof fn lemma_moves_keep_place(s: NavModel, v: ViewModel, d: int)
    ensures
        move_cursor(s, v, d).current == s.current && move_cursor(s, v, d).slide_count
            == s.slide_count && move_cursor(s, v, d).filtered == s.filtered,
        move_visual_cursor(s, v, d).current == s.current && move_visual_cursor(s, v, d).slide_count
            == s.slide_count && move_visual_cursor(s, v, d).filtered == s.filtered,
        scroll_text(s, v, d).current == s.current && scroll_text(s, v, d).slide_count
            == s.slide_count && scroll_text(s, v, d).filtered == s.filtered,
        set_visual_cursor(s, v, d).current == s.current && set_visual_cursor(s, v, d).slide_count
            == s.slide_count && set_visual_cursor(s, v, d).filtered == s.filtered,
        jump_heading(s, v, d > 0).current == s.current && jump_heading(s, v, d > 0).slide_count
            == s.slide_count && jump_heading(s, v, d > 0).filtered == s.filtered,
        update_search(s, v).current == s.current && update_search(s, v).slide_count
            == s.slide_count && update_search(s, v).filtered == s.filtered,
        advance_match(s, d > 0).current == s.current && advance_match(s, d > 0).slide_count
            == s.slide_count && advance_match(s, d > 0).filtered == s.filtered,
        toggle_visual(s).current == s.current && toggle_visual(s).slide_count == s.slide_count
            && toggle_visual(s).filtered == s.filtered,
        clear_visual(s).current == s.current && clear_visual(s).slide_count == s.slide_count
            && clear_visual(s).filtered == s.filtered,
        clear_search(s).current == s.current && clear_search(s).slide_count == s.slide_count
            && clear_search(s).filtered == s.filtered,
        ensure_outline_visible(s).current == s.current && ensure_outline_visible(s).slide_count
            == s.slide_count && ensure_outline_visible(s).filtered == s.filtered,
{
}

proof fn lemma_slides_on_deck(s: NavModel)
    requires
        on_deck(s),
    ensures
        on_deck(next_slide(s).0),
        on_deck(previous_slide(s).0),
        on_deck(open_selected(s).0),
        next_slide(s).0.slide_count == s.slide_count,
        previous_slide(s).0.slide_count == s.slide_count,
        open_selected(s).0.slide_count == s.slide_count,
{
    if s.outline_index < s.filtered.len() {
        assert(s.filtered[s.outline_index as int] < s.slide_count);
    }
}

#[verifier::spinoff_prover]
#[verifier::rlimit(100)]
proof fn lemma_main_key_on_deck(s: NavModel, v: ViewModel, es: Seq<EntryModel>, key: Key)
    requires
        on_deck(s),
        es.len() == s.slide_count,
    ensures
        on_deck(main_key(s, v, es, key).0),
        main_key(s, v, es, key).0.slide_count == s.slide_count,
{
    match key.code {
        KeyCode::Char('o') => lemma_outline_on_deck(NavModel { outline: !s.outline, ..s }, es),
        KeyCode::Char('/') => lemma_moves_keep_place(NavModel { search_focus: true, ..s }, v, 0),
        KeyCode::Char('g') | KeyCode::Char('G') => {
            lemma_moves_keep_place(s, v, 0);
            lemma_moves_keep_place(s, v, last_row(v));
            lemma_moves_keep_place(NavModel { current: 0, ..s }, v, 0);
            lemma_moves_keep_place(NavModel { current: (s.slide_count - 1) as usize, ..s }, v, 0);
        },
        KeyCode::Char('d') | KeyCode::Char('u') => {
            lemma_moves_keep_place(s, v, half_page(s.body_rows as int));
            lemma_moves_keep_place(s, v, -half_page(s.body_rows as int));
        },
        KeyCode::Char('n') | KeyCode::Char('N') | KeyCode::Char('[') | KeyCode::Char(']') => {
            lemma_moves_keep_place(s, v, 1);
            lemma_moves_keep_place(s, v, -1);
        },
        KeyCode::Up | KeyCode::Char('k') | KeyCode::Down | KeyCode::Char('j') => {
            lemma_slides_on_deck(s);
            lemma_moves_keep_place(s, v, 1);
            lemma_moves_keep_place(s, v, -1);
            lemma_moves_keep_place(
                NavModel { outline_index: (s.outline_index - 1) as usize, ..s },
                v,
                0,
            );
            lemma_moves_keep_place(
                NavModel { outline_index: (s.outline_index + 1) as usize, ..s },
                v,
                0,
            );
        },
        KeyCode::Right | KeyCode::Char('l') | KeyCode::Left | KeyCode::Char('h')
        | KeyCode::Backspace | KeyCode::Enter | KeyCode::Char(' ') => {
            lemma_slides_on_deck(s);
            lemma_moves_keep_place(s, v, 1);
            lemma_moves_keep_place(s, v, -1);
            lemma_moves_keep_place(
                NavModel { outline_index: (s.outline_index - 1) as usize, ..s },
                v,
                0,
            );
        },
        _ => {
            lemma_moves_keep_place(s, v, 0);
        },
    }
}

proof fn lemma_fields_on_deck(s: NavModel, v: ViewModel, es: Seq<EntryModel>, key: Key)
    requires
        on_deck(s),
        es.len() == s.slide_count,
    ensures
        on_deck(search_key(s, v, key)) && search_key(s, v, key).slide_count == s.slide_count,
        on_deck(outline_search_key(s, es, key)) && outline_search_key(s, es, key).slide_count
            == s.slide_count,
        on_deck(command_key(s, key).0) && command_key(s, key).0.slide_count == s.slide_count,
        on_deck(ctrl_c(s).0) && ctrl_c(s).0.slide_count == s.slide_count,
{
    lemma_moves_keep_place(NavModel { search: pop_last(s.search), ..s }, v, 0);
    lemma_moves_keep_place(NavModel { search_focus: false, ..s }, v, 0);
    lemma_moves_keep_place(s, v, 0);
    lemma_outline_on_deck(NavModel { outline_query: pop_last(s.outline_query), ..s }, es);
    match key.code {
        KeyCode::Char(ch) => {
            lemma_moves_keep_place(NavModel { search: s.search.push(ch), ..s }, v, 0);
            lemma_outline_on_deck(NavModel { outline_query: s.outline_query.push(ch), ..s }, es);
        },
        _ => {},
    }
}

/// Whatever key is pressed, the current slide stays a slide of the deck and
/// the outline lists only slides of the deck (the outline entries being the
/// deck's slides).
pub proof fn lemma_handle_key_on_deck(s: NavModel, v: ViewModel, es: Seq<EntryModel>, key: Key)
    requires
        on_deck(s),
        es.len() == s.slide_count,
    ensures
        on_deck(handle_key(s, v, es, key).0),
        handle_key(s, v, es, key).0.slide_count == s.slide_count,
{
    let n = normalize(s.escape, s.csi, key);
    let s0 = NavModel { escape: n.0, csi: n.1, ..s };
    if let Some(k) = n.2 {
        lemma_fields_on_deck(s0, v, es, k);
        lemma_main_key_on_deck(s0, v, es, k);
        let s1 = NavModel {
            help: false,
            search_focus: false,
            outline_search_focus: false,
            command_focus: false,
            ..s0
        };
        lemma_moves_keep_place(s1, v, 1);
        lemma_moves_keep_place(s1, v, -1);
        lemma_slides_on_deck(s1);
    }
}

/// Ctrl-C quits only from the bare presentation: otherwise it leaves the
/// field, overlay, search or selection that is open (outside a terminal
/// escape sequence being typed).
pub proof fn lemma_ctrl_c_quits_only_at_root(s: NavModel, v: ViewModel, es: Seq<EntryModel>)
    requires
        s.escape != EscapeSequence::Csi,
    ensures
        (handle_key(s, v, es, Key { code: KeyCode::Char('c'), ctrl: true }).1
            == ActionModel::Quit) <==> at_root(s),
{
}

/// Left and Right, while a field or the help overlay holds the focus, leave
/// it and move on: no field keeps the focus and the help closes.
pub proof fn lemma_arrows_leave_focus(s: NavModel, v: ViewModel, es: Seq<EntryModel>, right: bool)
    requires
        s.escape != EscapeSequence::Csi,
        focused(s),
    ensures
        !focused(
            handle_key(
                s,
                v,
                es,
                Key {
                    code: if right {
                        KeyCode::Right
                    } else {
                        KeyCode::Left
                    },
                    ctrl: false,
                },
            ).0,
        ),
{
}

} // verus!

verus! {


/// Whether `m` marks an occurrence of `q` in the (lower-cased) text of one of `rows`.
pub open spec fn occurs_in(rows: Seq<RowModel>, q: Seq<char>, m: SearchMatch) -> bool {
    exists|j: int, p: int|
        0 <= j < rows.len() && has_prefix_at(lowercase(rows[j].text), p, q) && m == #[trigger] hit(
            rows[j].row,
            lowercase(rows[j].text),
            p,
            q,
        )
}

/// Every match found marks an occurrence at or after `from`.
proof fn lemma_row_hits_sound(row: usize, hay: Seq<char>, q: Seq<char>, from: int, i: int)
    requires
        0 <= from,
        0 <= i < row_hits(row, hay, q, from).len(),
    ensures
        exists|p: int|
            #![trigger hit(row, hay, p, q)]
            from <= p && has_prefix_at(hay, p, q) && row_hits(row, hay, q, from)[i] == hit(
                row,
                hay,
                p,
                q,
            ),
    decreases hay.len() + 1 - from,
{
    let rh = row_hits(row, hay, q, from);
    let rest = row_hits(row, hay, q, from + 1);
    if has_prefix_at(hay, from, q) {
        assert(rh == seq![hit(row, hay, from, q)] + rest);
        if i == 0 {
            assert(rh[0] == hit(row, hay, from, q));
        } else {
            lemma_row_hits_sound(row, hay, q, from + 1, i - 1);
            assert(rh[i] == rest[i - 1]);
        }
    } else {
        assert(rh == rest);
        lemma_row_hits_sound(row, hay, q, from + 1, i);
    }
}

/// Every occurrence at or after `from` is among the matches found.
proof fn lemma_row_hits(row: usize, hay: Seq<char>, q: Seq<char>, from: int)
    requires
        0 <= from,
    ensures
        forall|p: int|
            from <= p && has_prefix_at(hay, p, q) ==> row_hits(row, hay, q, from).contains(
                #[trigger] hit(row, hay, p, q),
            ),
    decreases hay.len() + 1 - from,
{
    let rh = row_hits(row, hay, q, from);
    if from <= hay.len() {
        lemma_row_hits(row, hay, q, from + 1);
        let rest = row_hits(row, hay, q, from + 1);
        if has_prefix_at(hay, from, q) {
            assert(rh == seq![hit(row, hay, from, q)] + rest);
            assert forall|p: int| from <= p && has_prefix_at(hay, p, q) implies rh.contains(
                #[trigger] hit(row, hay, p, q),
            ) by {
                if p == from {
                    assert(rh[0] == hit(row, hay, p, q));
                } else {
                    let k = choose|k: int| 0 <= k < rest.len() && rest[k] == hit(row, hay, p, q);
                    assert(rh[k + 1] == hit(row, hay, p, q));
                }
            }
        } else {
            assert(rh == rest);
        }
    } else {
        assert forall|p: int| from <= p && has_prefix_at(hay, p, q) implies rh.contains(
            #[trigger] hit(row, hay, p, q),
        ) by {
            assert(p + q.len() <= hay.len());
        }
    }
}

proof fn lemma_view_hits(rows: Seq<RowModel>, q: Seq<char>)
    ensures
        forall|i: int|
            0 <= i < view_hits(rows, q).len() ==> occurs_in(rows, q, #[trigger] view_hits(rows, q)[i]),
        forall|j: int, p: int|
            0 <= j < rows.len() && has_prefix_at(lowercase(rows[j].text), p, q) ==> view_hits(
                rows,
                q,
            ).contains(#[trigger] hit(rows[j].row, lowercase(rows[j].text), p, q)),
    decreases rows.len(),
{
    if rows.len() > 0 {
        let init = rows.drop_last();
        let last = rows.last();
        let n = rows.len() - 1;
        lemma_view_hits(init, q);
        lemma_row_hits(last.row, lowercase(last.text), q, 0);
        let prev = view_hits(init, q);
        let rh = row_hits(last.row, lowercase(last.text), q, 0);
        let vh = view_hits(rows, q);
        assert(vh == prev + rh);
        assert forall|i: int| 0 <= i < vh.len() implies occurs_in(rows, q, #[trigger] vh[i]) by {
            if i < prev.len() {
                assert(vh[i] == prev[i]);
                assert(occurs_in(init, q, prev[i]));
                let (j, p) = choose|j: int, p: int|
                    0 <= j < init.len() && has_prefix_at(lowercase(init[j].text), p, q) && prev[i]
                        == #[trigger] hit(init[j].row, lowercase(init[j].text), p, q);
                assert(rows[j] == init[j]);
                assert(hit(rows[j].row, lowercase(rows[j].text), p, q) == vh[i]);
            } else {
                assert(vh[i] == rh[i - prev.len()]);
                lemma_row_hits_sound(last.row, lowercase(last.text), q, 0, i - prev.len());
                let p = choose|p: int|
                    0 <= p && has_prefix_at(lowercase(last.text), p, q) && #[trigger] rh[i
                        - prev.len()] == hit(last.row, lowercase(last.text), p, q);
                assert(rows[n] == last);
                assert(hit(rows[n].row, lowercase(rows[n].text), p, q) == vh[i]);
            }
        }
        assert forall|j: int, p: int|
            0 <= j < rows.len() && has_prefix_at(lowercase(rows[j].text), p, q) implies vh.contains(
            #[trigger] hit(rows[j].row, lowercase(rows[j].text), p, q),
        ) by {
            if j < n {
                assert(rows[j] == init[j]);
                assert(prev.contains(hit(init[j].row, lowercase(init[j].text), p, q)));
                let k = choose|k: int| 0 <= k < prev.len() && prev[k] == hit(init[j].row, lowercase(init[j].text), p, q);
                assert(vh[k] == prev[k]);
            } else {
                assert(rows[j] == last);
                assert(rh.contains(hit(last.row, lowercase(last.text), p, q)));
                let k = choose|k: int| 0 <= k < rh.len() && rh[k] == hit(last.row, lowercase(last.text), p, q);
                assert(vh[prev.len() + k] == rh[k]);
            }
        }
    }
}

/// A search finds exactly the occurrences of the search text in the view's
/// rows, case ignored: every match marks an occurrence, and every
/// occurrence has its match. An empty search finds nothing.
pub proof fn lemma_search_finds_occurrences(s: NavModel, v: ViewModel)
    ensures
        s.search.len() == 0 ==> update_search(s, v).matches.len() == 0,
        s.search.len() > 0 ==> {
            let q = lowercase(s.search);
            let ms = update_search(s, v).matches;
            &&& forall|i: int| 0 <= i < ms.len() ==> occurs_in(v.rows, q, #[trigger] ms[i])
            &&& forall|j: int, p: int|
                0 <= j < v.rows.len() && has_prefix_at(lowercase(v.rows[j].text), p, q)
                    ==> ms.contains(#[trigger] hit(v.rows[j].row, lowercase(v.rows[j].text), p, q))
        },
{
    if s.search.len() > 0 {
        let q = lowercase(s.search);
        lemma_view_hits(v.rows, q);
        let cleared = NavModel { matches: Seq::empty(), match_index: 0, status: Seq::empty(), ..s };
        let hits = view_hits(v.rows, q);
        if hits.len() > 0 {
            lemma_focus_keeps(NavModel { matches: hits, ..cleared });
        }
    }
}

} // verus!

verus! {

/// Enter in the bare presentation opens the first link of the active row when
/// the row has links (telling how many it has), and otherwise shows the next
/// slide; nothing else changes but the emptied escape-sequence buffer.
pub proof fn lemma_enter_follows_link(s: NavModel, v: ViewModel, es: Seq<EntryModel>)
    requires
        s.escape == EscapeSequence::Idle,
        !focused(s),
        !s.outline,
    ensures
        ({
            let r = handle_key(s, v, es, Key { code: KeyCode::Enter, ctrl: false });
            let s0 = NavModel { csi: Seq::empty(), ..s };
            match first_link(v, active_row(s) as int) {
                Some((url, n)) => r == (s0, ActionModel::OpenLink { url, links: n }),
                None => r == slide_moved(next_slide(s0)),
            }
        }),
{
}

} // verus!

verus! {

/// Stepping to the next match and back lands on the match one started from.
pub proof fn lemma_advance_and_back(s: NavModel)
    requires
        nav_wf(s),
        s.matches.len() <= usize::MAX,
    ensures
        advance_match(advance_match(s, true), false).match_index == s.match_index,
        advance_match(advance_match(s, false), true).match_index == s.match_index,
{
    lemma_advance_wf(s, true);
    lemma_advance_wf(s, false);
    if s.matches.len() > 0 {
        let n = s.matches.len() as int;
        let i = s.match_index as int;
        let f: int = if i + 1 >= n {
            0
        } else {
            i + 1
        };
        let b: int = if i == 0 {
            n - 1
        } else {
            i - 1
        };
        let s1 = advance_match(s, true);
        let s2 = advance_match(s, false);
        lemma_focus_keeps(NavModel { match_index: f as usize, ..s });
        lemma_focus_keeps(NavModel { match_index: b as usize, ..s });
        assert(s1.matches == s.matches && s1.match_index == f);
        assert(s2.matches == s.matches && s2.match_index == b);
        lemma_focus_keeps(NavModel { match_index: s.match_index, ..s1 });
        lemma_focus_keeps(NavModel { match_index: s.match_index, ..s2 });
    }
}

/// Going to the next slide and back returns to the slide one started from, at
/// its top.
pub proof fn lemma_next_then_previous(s: NavModel)
    requires
        next_slide(s).1,
    ensures
        previous_slide(next_slide(s).0).1,
        previous_slide(next_slide(s).0).0.current == s.current,
        previous_slide(next_slide(s).0).0.scroll == 0,
        previous_slide(next_slide(s).0).0.cursor == 0,
{
}

proof fn lemma_filter_all(es: Seq<EntryModel>)
    ensures
        filter_entries(es, Seq::empty()) == Seq::new(es.len(), |i: int| i as usize),
    decreases es.len(),
{
    if es.len() > 0 {
        lemma_filter_all(es.drop_last());
        assert(filter_entries(es, Seq::empty()) =~= Seq::new(es.len(), |i: int| i as usize));
    }
}

/// An outline whose filter comes to nothing (once trimmed and lower-cased)
/// lists every slide, in order.
pub proof fn lemma_blank_filter_lists_all(s: NavModel, es: Seq<EntryModel>)
    requires
        lowercase(trim(s.outline_query)).len() == 0,
    ensures
        recompute_outline(s, es).filtered == Seq::new(es.len(), |i: int| i as usize),
{
    lemma_filter_all(es);
    assert(lowercase(trim(s.outline_query)) =~= Seq::<char>::empty());
}

} // verus!

verus! {

// ---------------------------------------------------------------------------
// Half-page scrolling
// ---------------------------------------------------------------------------

/// Scanning up from a row never lands below it (it may find nothing, -1).
proof fn lemma_scan_up_le(v: ViewModel, r: int, max_row: int)
    ensures
        scan_up(v, r, max_row) <= r || scan_up(v, r, max_row) == -1,
    decreases r + 1,
{
    if 0 <= r <= max_row && row_blank(v, r) {
        lemma_scan_up_le(v, r - 1, max_row);
    }
}

/// Moving a cursor up by `d` rows lands strictly above it, unless it is
/// already on row 0.
proof fn lemma_cursor_up(v: ViewModel, c: int, d: int)
    requires
        0 <= c,
        d >= 1,
    ensures
        next_cursor_row(v, c, -d) <= c,
        c > 0 ==> next_cursor_row(v, c, -d) < c,
        next_cursor_row(v, c, -d) >= 0,
{
    let max_row = last_row(v);
    let next = clamp(c - d, 0, max_row);
    lemma_scan_up_le(v, next, max_row);
    if scan_up(v, next, max_row) >= 0 {
        assert(scan_up(v, next, max_row) <= next);
    }
}

/// Ctrl-U never scrolls down: outside the search, outline filter and command
/// fields and an unfinished escape sequence, with the active cursor not below
/// the body, the text scroll afterwards is at most what it was, and below it
/// when it was positive; the slide shown stays.
pub proof fn lemma_ctrl_u_scrolls_up(s: NavModel, v: ViewModel, es: Seq<EntryModel>)
    requires
        s.escape != EscapeSequence::Csi,
        !s.search_focus,
        !s.outline_search_focus,
        !s.command_focus,
        s.body_rows == 0 || active_row(s) < s.scroll + s.body_rows,
    ensures
        ({
            let r = handle_key(s, v, es, Key { code: KeyCode::Char('u'), ctrl: true });
            &&& r.0.scroll <= s.scroll
            &&& s.scroll > 0 ==> r.0.scroll < s.scroll
            &&& r.0.current == s.current
            &&& r.1 == ActionModel::Nothing
        }),
{
    let key = Key { code: KeyCode::Char('u'), ctrl: true };
    let n = normalize(s.escape, s.csi, key);
    assert(n.2 == Some(key));
    let s0 = NavModel { escape: n.0, csi: n.1, ..s };
    let d = half_page(s0.body_rows as int);
    assert(d >= 1);
    let st = scroll_text(s0, v, -d);
    let max_scroll = if v.total_rows >= s0.body_rows {
        v.total_rows - s0.body_rows
    } else {
        0
    };
    let next = clamp(s0.scroll - d, 0, usize::MAX as int);
    let scrolled = NavModel {
        scroll: (if next < max_scroll {
            next
        } else {
            max_scroll
        }) as usize,
        ..s0
    };
    assert(scrolled.scroll <= s.scroll);
    assert(s.scroll > 0 ==> scrolled.scroll < s.scroll);
    let c = if s0.anchor is Some {
        next_cursor_row(v, s0.visual_cursor as int, -d)
    } else {
        next_cursor_row(v, s0.cursor as int, -d)
    };
    lemma_cursor_up(v, active_row(s0) as int, d);
    assert(st.scroll as int == scroll_to_show(scrolled.scroll as int, c, s0.body_rows as int));
}

} // verus!

verus! {

// ---------------------------------------------------------------------------
// The outline filter
// ---------------------------------------------------------------------------

proof fn lemma_filter_members(es: Seq<EntryModel>, q: Seq<char>)
    requires
        es.len() <= usize::MAX,
    ensures
        forall|i: int|
            0 <= i < es.len() ==> (filter_entries(es, q).contains(i as usize) <==> entry_matches(
                #[trigger] es[i],
                q,
            )),
        forall|k: int|
            0 <= k < filter_entries(es, q).len() ==> #[trigger] filter_entries(es, q)[k] < es.len(),
        forall|k: int, m: int|
            0 <= k < m < filter_entries(es, q).len() ==> #[trigger] filter_entries(es, q)[k]
                < #[trigger] filter_entries(es, q)[m],
    decreases es.len(),
{
    if es.len() > 0 {
        let init = es.drop_last();
        lemma_filter_members(init, q);
        let prev = filter_entries(init, q);
        let f = filter_entries(es, q);
        let n = es.len() - 1;
        assert forall|i: int| 0 <= i < es.len() implies (f.contains(i as usize) <==> entry_matches(
            #[trigger] es[i],
            q,
        )) by {
            if i < n {
                assert(es[i] == init[i]);
                if f.contains(i as usize) {
                    let k = choose|k: int| 0 <= k < f.len() && f[k] == i as usize;
                    if k < prev.len() {
                        assert(f[k] == prev[k]);
                    } else {
                        assert(f[k] == n as usize);
                    }
                }
                if prev.contains(i as usize) {
                    let k = choose|k: int| 0 <= k < prev.len() && prev[k] == i as usize;
                    assert(f[k] == prev[k]);
                }
            } else {
                assert(es[i] == es.last());
                if f.contains(i as usize) {
                    let k = choose|k: int| 0 <= k < f.len() && f[k] == i as usize;
                    if k < prev.len() {
                        assert(f[k] == prev[k]);
                    }
                }
                if entry_matches(es.last(), q) {
                    assert(f[prev.len() as int] == n as usize);
                }
            }
        }
        assert forall|k: int| 0 <= k < f.len() implies #[trigger] f[k] < es.len() by {
            if k < prev.len() {
                assert(f[k] == prev[k]);
            }
        }
        assert forall|k: int, m: int| 0 <= k < m < f.len() implies #[trigger] f[k] < #[trigger] f[m] by {
            assert(f[k] == prev[k]);
            assert(prev[k] < init.len());
            if m < prev.len() {
                assert(f[m] == prev[m]);
            } else {
                assert(f[m] == n as usize);
            }
        }
    }
}

proof fn lemma_filter_same(es: Seq<EntryModel>, fs: Seq<EntryModel>, q: Seq<char>)
    requires
        es.len() == fs.len(),
        forall|i: int| 0 <= i < es.len() ==> entry_matches(#[trigger] es[i], q) == entry_matches(fs[i], q),
    ensures
        filter_entries(es, q) == filter_entries(fs, q),
    decreases es.len(),
{
    if es.len() > 0 {
        let n = es.len() - 1;
        assert forall|i: int| 0 <= i < es.drop_last().len() implies entry_matches(
            #[trigger] es.drop_last()[i],
            q,
        ) == entry_matches(fs.drop_last()[i], q) by {
            assert(es.drop_last()[i] == es[i]);
            assert(fs.drop_last()[i] == fs[i]);
        }
        lemma_filter_same(es.drop_last(), fs.drop_last(), q);
        assert(es.last() == es[n]);
        assert(fs.last() == fs[n]);
    }
}

/// The outline lists exactly the slides whose name, title or text contains
/// the query, case ignored on both sides (the query trimmed; an empty query
/// lists every slide): slide `i` is listed just when it matches, and the
/// listed slides are slides of the deck, in slide order.
pub proof fn lemma_outline_lists_matches(s: NavModel, es: Seq<EntryModel>, i: int)
    requires
        es.len() <= usize::MAX,
        0 <= i < es.len(),
    ensures
        recompute_outline(s, es).filtered.contains(i as usize) <==> (lowercase(
            trim(s.outline_query),
        ).len() == 0 || contains_seq(lowercase(es[i].name), lowercase(trim(s.outline_query)))
            || contains_seq(lowercase(es[i].title), lowercase(trim(s.outline_query)))
            || contains_seq(lowercase(es[i].body), lowercase(trim(s.outline_query)))),
        forall|k: int|
            0 <= k < recompute_outline(s, es).filtered.len() ==> #[trigger] recompute_outline(
                s,
                es,
            ).filtered[k] < es.len(),
        forall|k: int, m: int|
            0 <= k < m < recompute_outline(s, es).filtered.len() ==> #[trigger] recompute_outline(
                s,
                es,
            ).filtered[k] < #[trigger] recompute_outline(s, es).filtered[m],
{
    let q = lowercase(trim(s.outline_query));
    lemma_filter_members(es, q);
    let f = recompute_outline(s, es).filtered;
    assert(f == filter_entries(es, q));
    assert(f.contains(i as usize) <==> entry_matches(es[i], q));
    let g = filter_entries(es, q);
    assert forall|k: int| 0 <= k < f.len() implies #[trigger] f[k] < es.len() by {
        assert(f[k] == g[k]);
    }
    assert forall|k: int, m: int| 0 <= k < m < f.len() implies #[trigger] f[k] < #[trigger] f[m] by {
        assert(f[k] == g[k] && f[m] == g[m]);
    }
}

/// The outline filter ignores case: queries that agree up to case, over
/// entries whose names, titles and texts agree up to case, list the same
/// slides.
pub proof fn lemma_outline_ignores_case(
    s: NavModel,
    t: NavModel,
    es: Seq<EntryModel>,
    fs: Seq<EntryModel>,
)
    requires
        lowercase(trim(s.outline_query)) == lowercase(trim(t.outline_query)),
        es.len() == fs.len(),
        forall|i: int|
            0 <= i < es.len() ==> lowercase((#[trigger] es[i]).name) == lowercase(fs[i].name)
                && lowercase(es[i].title) == lowercase(fs[i].title) && lowercase(es[i].body)
                == lowercase(fs[i].body),
    ensures
        recompute_outline(s, es).filtered == recompute_outline(t, fs).filtered,
{
    let q = lowercase(trim(s.outline_query));
    assert forall|i: int| 0 <= i < es.len() implies entry_matches(#[trigger] es[i], q)
        == entry_matches(fs[i], q) by {}
    lemma_filter_same(es, fs, q);
}

} // verus!
