use ss::layout::{build_layout, SearchMatch, Viewport};
use ss::model::{AssetRef, Block, HeadingBlock, Inline, ParagraphBlock, Slide, SlideFrontmatter};
use ss::nav::{
    bottom_line, centered_rect, compare_paths, diagnostics_flag, content_width, first_link_on_row, is_external_link,
    latest_mtime, link_status_text, normalize_key_event, outline_footer_text, outline_lines,
    outline_query_line, presentation_stage, search_is_safe, slide_position_text,
    resolve_link_target, scroll_status_text, view_of_layout, watch_decision, watched_paths,
    Action, CurrentView, EscapeSequence, Key, KeyCode, LinkTarget, Navigator, OutlineEntry,
    Rect, RowInfo, WatchDecision,
};
use std::path::{Path, PathBuf};

fn slide_of(blocks: Vec<Block>) -> Slide {
    Slide {
        id: 0,
        path: "./00.md".to_string(),
        name: "00.md".to_string(),
        title: "title".to_string(),
        frontmatter: SlideFrontmatter { layout: None },
        blocks,
        assets: Vec::<AssetRef>::new(),
    }
}

fn paragraph_slide(texts: &[&str]) -> Slide {
    slide_of(
        texts
            .iter()
            .enumerate()
            .map(|(i, t)| {
                Block::Paragraph(ParagraphBlock { id: i, content: vec![Inline::Text(t.to_string())] })
            })
            .collect(),
    )
}

fn layout_view(slide: &Slide, width: u16, height: u16) -> CurrentView {
    view_of_layout(&build_layout(slide, Viewport { width, height }, &Vec::new()))
}

fn view_of(texts: &[&str], width: u16, height: u16) -> CurrentView {
    let layout = build_layout(&paragraph_slide(texts), Viewport { width, height }, &Vec::new());
    view_of_layout(&layout)
}

fn sample_view() -> CurrentView {
    view_of(&["hello world"], 20, 1)
}

fn plain(code: KeyCode) -> Key {
    Key { code, ctrl: false }
}

fn ctrl_c() -> Key {
    Key { code: KeyCode::Char('c'), ctrl: true }
}

fn row(r: usize, text: &str, heading: Option<u8>, links: &[&str]) -> RowInfo {
    RowInfo {
        row: r,
        search_text: text.to_string(),
        heading_level: heading,
        link_urls: links.iter().map(|l| l.to_string()).collect(),
    }
}

fn no_entries() -> Vec<OutlineEntry> {
    Vec::new()
}

#[test]
fn search_scroll_moves_to_match() {
    let v = sample_view();
    let mut nav = Navigator::new(1);
    nav.body_rows = 1;
    nav.search = "world".to_string();
    nav.update_search_matches(&v);
    assert_eq!(nav.text_scroll, 0);
}

#[test]
fn search_navigation_cycles_matches() {
    let v = view_of(&["world hello world hello world"], 12, 1);
    let mut nav = Navigator::new(1);
    nav.body_rows = 1;
    nav.search = "world".to_string();
    nav.update_search_matches(&v);

    assert_eq!(nav.search_matches.len(), 3);
    assert_eq!(nav.search_match_index, 0);

    nav.advance_search_match(true);
    assert_eq!(nav.search_match_index, 1);

    nav.advance_search_match(true);
    nav.advance_search_match(true);
    assert_eq!(nav.search_match_index, 0);

    nav.advance_search_match(false);
    assert_eq!(nav.search_match_index, 2);
}

#[test]
fn clear_search_resets_search_state() {
    let mut nav = Navigator::new(1);
    nav.search = "world".to_string();
    nav.search_matches.push(SearchMatch { row: 0, start: 6, len: 5 });
    nav.status = "match 1/1 for /world".to_string();

    nav.clear_search();

    assert!(nav.search.is_empty());
    assert!(nav.search_matches.is_empty());
    assert!(nav.status.is_empty());
}

#[test]
fn previous_slide_moves_back_and_resets_scroll() {
    let mut nav = Navigator::new(2);
    nav.current = 1;
    nav.text_scroll = 7;

    nav.previous_slide();

    assert_eq!(nav.current, 0);
    assert_eq!(nav.text_scroll, 0);
}

#[test]
fn previous_slide_stops_at_first_slide() {
    let mut nav = Navigator::new(1);
    nav.text_scroll = 3;

    nav.previous_slide();

    assert_eq!(nav.current, 0);
    assert_eq!(nav.text_scroll, 3);
}

#[test]
fn next_slide_moves_forward_and_resets_scroll() {
    let mut nav = Navigator::new(2);
    nav.text_scroll = 5;

    nav.next_slide();

    assert_eq!(nav.current, 1);
    assert_eq!(nav.text_scroll, 0);
}

#[test]
fn arrow_navigation_escapes_search_focus() {
    let v = sample_view();
    let mut nav = Navigator::new(2);
    nav.current = 1;
    nav.search_focus = true;
    nav.search = "term".to_string();

    let _ = nav.handle_key(&v, &no_entries(), plain(KeyCode::Left));

    assert_eq!(nav.current, 0);
    assert!(!nav.search_focus);
}

#[test]
fn ctrl_c_exits_search_before_quitting() {
    let v = sample_view();
    let mut nav = Navigator::new(1);
    nav.search_focus = true;
    nav.search = "term".to_string();

    let should_quit = nav.handle_key(&v, &no_entries(), ctrl_c()) == Action::Quit;

    assert!(!should_quit);
    assert!(!nav.search_focus);
    assert_eq!(nav.search, "term");
}

#[test]
fn ctrl_c_exits_command_before_quitting() {
    let v = sample_view();
    let mut nav = Navigator::new(1);
    nav.command_focus = true;
    nav.command = "reload".to_string();

    let should_quit = nav.handle_key(&v, &no_entries(), ctrl_c()) == Action::Quit;

    assert!(!should_quit);
    assert!(!nav.command_focus);
    assert!(nav.command.is_empty());
}

#[test]
fn ctrl_c_exits_overlay_modes_before_quitting() {
    let v = sample_view();
    let mut nav = Navigator::new(1);
    nav.help = true;

    let should_quit = nav.handle_key(&v, &no_entries(), ctrl_c()) == Action::Quit;

    assert!(!should_quit);
    assert!(!nav.help);

    nav.outline = true;
    let should_quit = nav.handle_key(&v, &no_entries(), ctrl_c()) == Action::Quit;

    assert!(!should_quit);
    assert!(!nav.outline);
}

#[test]
fn ctrl_c_quits_at_root_presentation_mode() {
    let v = sample_view();
    let mut nav = Navigator::new(1);

    let should_quit = nav.handle_key(&v, &no_entries(), ctrl_c()) == Action::Quit;

    assert!(should_quit);
}

#[test]
fn paste_appends_raw_text_to_command_buffer() {
    let v = sample_view();
    let mut nav = Navigator::new(1);
    nav.command_focus = true;

    nav.handle_paste(&v, &no_entries(), "open ./slides");

    assert_eq!(nav.command, "open ./slides");
}

#[test]
fn normalize_csi_arrow_sequence_maps_to_arrow_key() {
    let mut csi = String::new();

    let (state, esc) = normalize_key_event(EscapeSequence::Idle, &mut csi, plain(KeyCode::Esc));
    assert!(matches!(esc, Some(Key { code: KeyCode::Esc, .. })));

    let (state, bracket) = normalize_key_event(state, &mut csi, plain(KeyCode::Char('[')));
    assert!(bracket.is_none());

    let (_, arrow) = normalize_key_event(state, &mut csi, plain(KeyCode::Char('a')));
    assert!(matches!(arrow, Some(Key { code: KeyCode::Up, .. })));
}

#[test]
fn resolve_link_target_handles_relative_markdown_links() {
    let target = resolve_link_target("slides/01_intro.md", "./docs/reference.md#api");
    match target {
        LinkTarget::File(p) => {
            assert_eq!(Path::new(&p), PathBuf::from("slides").join("docs/reference.md"))
        }
        other => panic!("expected a file target, got {other:?}"),
    }
}

#[test]
fn resolve_link_target_ignores_trailing_separators_of_the_slide_path() {
    let target = resolve_link_target("slides/a.md/", "x.md");
    assert_eq!(target, LinkTarget::File("slides/x.md".to_string()));
    let target = resolve_link_target("slides//a.md", "x.md");
    assert_eq!(target, LinkTarget::File("slides/x.md".to_string()));
    let target = resolve_link_target("/a.md", "x.md");
    assert_eq!(target, LinkTarget::File("/x.md".to_string()));
    let target = resolve_link_target("a.md", "x.md");
    assert_eq!(target, LinkTarget::File("x.md".to_string()));
    let target = resolve_link_target("/", "x.md");
    assert_eq!(target, LinkTarget::File("./x.md".to_string()));
    let target = resolve_link_target("slides/a.md", "#top");
    assert_eq!(target, LinkTarget::File("slides/a.md".to_string()));
}

#[test]
fn resolve_link_target_preserves_external_urls() {
    let target = resolve_link_target("slides/01_intro.md", "https://example.com/docs");
    assert_eq!(target, LinkTarget::External("https://example.com/docs".to_string()));
}

#[test]
fn first_link_on_row_returns_first_link_for_line() {
    let slide = slide_of(vec![Block::Paragraph(ParagraphBlock {
        id: 0,
        content: vec![
            Inline::Text("before ".to_string()),
            Inline::Link { text: "example".to_string(), url: "https://example.com".to_string() },
        ],
    })]);
    let v = layout_view(&slide, 28, 4);

    let link = first_link_on_row(&v, 0);

    assert_eq!(link, Some(("https://example.com".to_string(), 1)));
}

#[test]
fn first_link_on_a_hand_made_row() {
    let v = CurrentView {
        total_rows: 1,
        rows: vec![row(0, "before example", None, &["https://example.com", "https://b.org"])],
    };
    assert_eq!(first_link_on_row(&v, 0), Some(("https://example.com".to_string(), 2)));
    assert_eq!(first_link_on_row(&v, 1), None);
}

#[test]
fn first_link_on_row_returns_none_without_links() {
    let v = sample_view();

    let link = first_link_on_row(&v, 0);

    assert_eq!(link, None);
}

#[test]
fn command_path_reports_current_target() {
    let mut nav = Navigator::new(1);

    let action = nav.execute_command("path");
    assert_eq!(action, Action::ShowPath);
    nav.show_path("/tmp/slides");

    assert_ne!(action, Action::Quit);
    assert_eq!(nav.status, "/tmp/slides");
}

#[test]
fn vertical_cursor_skips_blank_rows() {
    let v = view_of(&["hello", "world"], 40, 4);
    let mut nav = Navigator::new(1);
    nav.body_rows = 4;

    nav.move_line_cursor(&v, 1, true);

    assert_eq!(nav.line_cursor, 2);
}

#[test]
fn visual_cursor_skips_blank_rows() {
    let v = view_of(&["hello", "world"], 40, 4);
    let mut nav = Navigator::new(1);
    nav.body_rows = 4;
    nav.visual_anchor = Some(0);
    nav.visual_cursor = 0;

    nav.move_visual_cursor(&v, 1, true);

    assert_eq!(nav.visual_cursor, 2);
}

fn heading(id: usize, level: u8, text: &str) -> Block {
    Block::Heading(HeadingBlock { id, level, content: vec![Inline::Text(text.to_string())] })
}

fn paragraph(id: usize, text: &str) -> Block {
    Block::Paragraph(ParagraphBlock { id, content: vec![Inline::Text(text.to_string())] })
}

fn headings_view() -> CurrentView {
    let slide = slide_of(vec![
        heading(0, 1, "Intro"),
        paragraph(1, "alpha"),
        heading(2, 2, "Details"),
        paragraph(3, "beta"),
        heading(4, 3, "Deep Dive"),
    ]);
    layout_view(&slide, 40, 12)
}

#[test]
fn bracket_motions_jump_between_headings_within_current_slide() {
    let v = headings_view();
    let mut nav = Navigator::new(1);
    nav.body_rows = 12;

    nav.jump_heading(&v, true);
    assert_eq!(nav.line_cursor, 1);

    nav.jump_heading(&v, true);
    assert_eq!(nav.line_cursor, 6);

    nav.jump_heading(&v, false);
    assert_eq!(nav.line_cursor, 1);
}

#[test]
fn bracket_motion_does_not_change_slides() {
    let v = layout_view(&slide_of(vec![heading(0, 1, "Only heading")]), 40, 8);
    let mut nav = Navigator::new(2);
    nav.body_rows = 8;

    nav.jump_heading(&v, true);

    assert_eq!(nav.current, 0);
}

#[test]
fn watched_paths_follow_loaded_markdown_files() {
    let slides = vec!["/deck/slides/02_two.md".to_string(), "/deck/slides/01_one.md".to_string()];
    let watched = watched_paths(false, &slides);

    assert_eq!(watched.len(), 2);
    assert!(watched.iter().all(|p| Path::new(p).extension().is_some_and(|e| e == "md")));
    assert_eq!(watched[0], "/deck/slides/01_one.md");
}

#[test]
fn watched_paths_drop_duplicates() {
    let slides = vec!["/a/x.md".to_string(), "/a/x.md".to_string(), "/a/b.md".to_string()];
    let watched = watched_paths(false, &slides);
    assert_eq!(watched, vec!["/a/b.md".to_string(), "/a/x.md".to_string()]);
}

#[test]
fn command_line_commands_map_to_actions() {
    let mut nav = Navigator::new(1);
    assert_eq!(nav.execute_command("  q "), Action::Quit);
    assert_eq!(nav.execute_command("reload"), Action::Reload);
    assert_eq!(nav.execute_command("o  deck.md "), Action::Open("deck.md".to_string()));
    assert_eq!(nav.execute_command("e other"), Action::Open("other".to_string()));
    assert_eq!(nav.execute_command("nope"), Action::Nothing);
    assert_eq!(nav.status, "unknown command: :nope");
}

#[test]
fn typing_a_command_and_enter_runs_it() {
    let v = sample_view();
    let mut nav = Navigator::new(1);
    let e = no_entries();
    assert_eq!(nav.handle_key(&v, &e, plain(KeyCode::Char(':'))), Action::Nothing);
    assert!(nav.command_focus);
    nav.handle_key(&v, &e, plain(KeyCode::Char('q')));
    assert_eq!(nav.command, "q");
    assert_eq!(nav.handle_key(&v, &e, plain(KeyCode::Enter)), Action::Quit);
    assert!(!nav.command_focus);
}

#[test]
fn outline_filters_slides_by_query() {
    let entries = vec![
        OutlineEntry { name: "01.md".to_string(), title: "Intro".to_string(), body: "hello".to_string() },
        OutlineEntry { name: "02.md".to_string(), title: "Details".to_string(), body: "world".to_string() },
    ];
    let mut nav = Navigator::new(2);
    nav.outline_query = "WORLD".to_string();
    nav.recompute_outline(&entries);
    assert_eq!(nav.outline_filtered, vec![1]);
    nav.outline_query = String::new();
    nav.recompute_outline(&entries);
    assert_eq!(nav.outline_filtered, vec![0, 1]);
}

#[test]
fn status_texts() {
    assert_eq!(link_status_text("https://x.org", 1), "opened https://x.org");
    assert_eq!(link_status_text("a.md", 3), "opened a.md (first of 3 links on line)");
    assert_eq!(scroll_status_text(30, 2, 10), "scroll:2 down:18");
    assert_eq!(scroll_status_text(10, 0, 20), "");
    let mut nav = Navigator::new(1);
    nav.search_focus = true;
    nav.search = "abc".to_string();
    assert_eq!(nav.operational_status(), "/abc");
}

#[test]
fn rects_and_widths() {
    let area = Rect { x: 0, y: 0, width: 100, height: 40 };
    let r = centered_rect(area, 50, 20);
    assert_eq!(r, Rect { x: 25, y: 10, width: 50, height: 20 });
    let stage = presentation_stage(area, "image");
    assert!(stage.width <= area.width && stage.height <= area.height);
    assert!(content_width(200) <= 200);
}

#[test]
fn watching_and_links() {
    assert_eq!(latest_mtime(&vec![Some(3), None, Some(7)]), Some(7));
    assert_eq!(latest_mtime(&vec![None, None]), None);
    assert!(is_external_link("mailto:me@x.org"));
    assert!(is_external_link("www.example.com"));
    assert!(!is_external_link("docs/a.md"));
    assert_eq!(watch_decision(Some(3), Some(3)), WatchDecision::Keep);
    assert_eq!(watch_decision(Some(3), Some(4)), WatchDecision::Reload);
    assert_eq!(watch_decision(None, Some(4)), WatchDecision::Record(4));
    assert_eq!(compare_paths("/a/b", "/a/c"), ss::deck::Order::Less);
}

#[test]
fn bottom_line_joins_the_shown_parts() {
    assert_eq!(bottom_line("/abc", "scroll:1 down:2", "hi", false), "/abc  hi");
    assert_eq!(bottom_line("/abc", "scroll:1 down:2", "hi", true), "/abc  scroll:1 down:2  hi");
    assert_eq!(bottom_line("", "", "hi", true), "hi");
    assert_eq!(bottom_line("", "", "", true), "");
}

#[test]
fn diagnostics_flag_reads_common_spellings() {
    assert!(diagnostics_flag(Some(" Yes ")));
    assert!(diagnostics_flag(Some("1")));
    assert!(diagnostics_flag(Some("ON")));
    assert!(!diagnostics_flag(Some("0")));
    assert!(!diagnostics_flag(None));
}

#[test]
fn search_finds_every_occurrence_case_ignored() {
    let v = CurrentView {
        total_rows: 2,
        rows: vec![row(0, "Abc abc", None, &[]), row(1, "xABCx", None, &[])],
    };
    let mut nav = Navigator::new(1);
    nav.body_rows = 2;
    nav.search = "aBc".to_string();
    nav.update_search_matches(&v);
    assert_eq!(
        nav.search_matches,
        vec![
            SearchMatch { row: 0, start: 0, len: 3 },
            SearchMatch { row: 0, start: 4, len: 3 },
            SearchMatch { row: 1, start: 1, len: 3 },
        ]
    );
}

#[test]
fn outline_enter_opens_a_slide_of_the_deck() {
    let entries = vec![
        OutlineEntry { name: "01.md".to_string(), title: "One".to_string(), body: String::new() },
        OutlineEntry { name: "02.md".to_string(), title: "Two".to_string(), body: String::new() },
    ];
    let v = sample_view();
    let mut nav = Navigator::new(2);
    let a = nav.handle_key(&v, &entries, plain(KeyCode::Char('o')));
    assert_eq!(a, Action::Nothing);
    assert!(nav.outline);
    nav.handle_key(&v, &entries, plain(KeyCode::Down));
    assert_eq!(nav.outline_index, 1);
    let a = nav.handle_key(&v, &entries, plain(KeyCode::Enter));
    assert_eq!(a, Action::SlideChanged);
    assert_eq!(nav.current, 1);
    assert!(nav.current < nav.slide_count);
    assert!(!nav.outline);
}

#[test]
fn documented_slide_keys() {
    let v = sample_view();
    let e = no_entries();
    let mut nav = Navigator::new(4);
    assert_eq!(nav.handle_key(&v, &e, plain(KeyCode::Char('j'))), Action::SlideChanged);
    assert_eq!(nav.current, 1);
    assert_eq!(nav.handle_key(&v, &e, plain(KeyCode::Char(' '))), Action::SlideChanged);
    assert_eq!(nav.current, 2);
    assert_eq!(nav.handle_key(&v, &e, plain(KeyCode::Char('k'))), Action::SlideChanged);
    assert_eq!(nav.current, 1);
    assert_eq!(nav.handle_key(&v, &e, plain(KeyCode::Char('G'))), Action::SlideChanged);
    assert_eq!(nav.current, 3);
    assert_eq!(nav.handle_key(&v, &e, plain(KeyCode::Char('G'))), Action::Nothing);
    assert_eq!(nav.handle_key(&v, &e, plain(KeyCode::Char('g'))), Action::SlideChanged);
    assert_eq!(nav.current, 0);
    assert_eq!(nav.handle_key(&v, &e, plain(KeyCode::Char('k'))), Action::Nothing);
    assert_eq!(nav.current, 0);
    assert_eq!(nav.handle_key(&v, &e, plain(KeyCode::Char('q'))), Action::Quit);
}

#[test]
fn j_and_k_move_the_outline_selection() {
    let entries = vec![
        OutlineEntry { name: "01.md".to_string(), title: "One".to_string(), body: String::new() },
        OutlineEntry { name: "02.md".to_string(), title: "Two".to_string(), body: String::new() },
    ];
    let v = sample_view();
    let mut nav = Navigator::new(2);
    nav.handle_key(&v, &entries, plain(KeyCode::Char('o')));
    nav.handle_key(&v, &entries, plain(KeyCode::Char('j')));
    assert_eq!(nav.outline_index, 1);
    assert_eq!(nav.current, 0);
    nav.handle_key(&v, &entries, plain(KeyCode::Char('k')));
    assert_eq!(nav.outline_index, 0);
}

#[test]
fn outline_rows_show_the_window_and_mark_the_cursor() {
    let entries: Vec<(usize, String)> = vec![
        (1, "Intro".to_string()),
        (2, "Body".to_string()),
        (12, "End".to_string()),
    ];
    let lines = outline_lines(&entries, 1, 2, 5);
    assert_eq!(lines.len(), 2);
    let texts: Vec<String> =
        lines.iter().map(|l| l.spans.iter().map(|s| s.content.as_str()).collect()).collect();
    assert_eq!(texts, vec!["  2  Body".to_string(), " 12  End".to_string()]);
    assert_eq!(lines[0].spans[0].style.fg, Some(ss::style::Color::DarkGray));
    assert_eq!(lines[1].spans[0].style.bg, Some(ss::style::Color::White));
    assert_eq!(lines[1].spans[2].style.add_modifier, ss::style::BOLD);

    let short = outline_lines(&entries, 0, 0, 1);
    assert_eq!(short.len(), 1);
    let none = outline_lines(&entries, 3, 0, 4);
    assert_eq!(none.len(), 1);
    assert_eq!(none[0].spans[0].content, "no slides matched");
}

#[test]
fn outline_and_header_texts() {
    assert_eq!(outline_query_line(true, "ab"), "/ ab");
    assert_eq!(outline_query_line(false, "ab"), "  ab");
    assert_eq!(outline_footer_text(2, 10), "2/10 slides");
    assert_eq!(slide_position_text(0, 3), "1/3");
    assert_eq!(slide_position_text(9, 10), "10/10");
    let mut nav = Navigator::new(1);
    assert_eq!(nav.selected_match(), None);
    nav.search_matches = vec![SearchMatch { row: 0, start: 0, len: 1 }];
    nav.search_match_index = 0;
    assert_eq!(nav.selected_match(), Some(0));
}

#[test]
fn search_matches_start_at_byte_offsets() {
    let v = CurrentView {
        total_rows: 2,
        rows: vec![row(0, "é ab ab", None, &[]), row(1, "日本 ab", None, &[])],
    };
    assert!(search_is_safe("ab", &v));
    let mut nav = Navigator::new(1);
    nav.body_rows = 2;
    nav.search = "ab".to_string();
    nav.update_search_matches(&v);
    assert_eq!(
        nav.search_matches,
        vec![
            SearchMatch { row: 0, start: 3, len: 2 },
            SearchMatch { row: 0, start: 6, len: 2 },
            SearchMatch { row: 1, start: 7, len: 2 },
        ]
    );
}

#[test]
fn searches_that_would_stop_inside_a_character_are_flagged() {
    let v = CurrentView { total_rows: 1, rows: vec![row(0, "café au lait", None, &[])] };
    assert!(!search_is_safe("é", &v));
    assert!(!search_is_safe("É", &v));
    assert!(search_is_safe("ca", &v));
    assert!(search_is_safe("", &v));
    assert!(search_is_safe("zz", &v));

    let mut nav = Navigator::new(1);
    nav.search_focus = true;
    nav.search = "ca".to_string();
    assert_eq!(nav.key_search_text(Key { code: KeyCode::Char('f'), ctrl: false }), Some("caf".to_string()));
    assert_eq!(nav.key_search_text(Key { code: KeyCode::Backspace, ctrl: false }), Some("c".to_string()));
    assert_eq!(nav.key_search_text(Key { code: KeyCode::Enter, ctrl: false }), None);
    nav.search_focus = false;
    assert_eq!(nav.key_search_text(Key { code: KeyCode::Char('/'), ctrl: false }), Some("ca".to_string()));
    assert_eq!(nav.key_search_text(Key { code: KeyCode::Char('j'), ctrl: false }), None);
}

#[test]
fn left_click_moves_the_cursor_and_opens_the_rows_link() {
    let v = CurrentView {
        total_rows: 4,
        rows: vec![
            row(0, "intro", None, &[]),
            row(1, "see docs", None, &["docs.md", "b.md"]),
            row(2, "plain", None, &[]),
        ],
    };
    let area = Rect { x: 2, y: 3, width: 20, height: 10 };
    let mut nav = Navigator::new(1);
    nav.body_rows = 10;

    let action = nav.click(&v, area, 5, 4);
    assert_eq!(action, Action::OpenLink { url: "docs.md".to_string(), links: 2 });
    assert_eq!(nav.line_cursor, 1);

    let action = nav.click(&v, area, 5, 5);
    assert_eq!(action, Action::Nothing);
    assert_eq!(nav.line_cursor, 2);

    let action = nav.click(&v, area, 5, 12);
    assert_eq!(action, Action::Nothing);
    assert_eq!(nav.line_cursor, 3);

    let action = nav.click(&v, area, 1, 4);
    assert_eq!(action, Action::Nothing);
    assert_eq!(nav.line_cursor, 3);

    nav.help = true;
    assert_eq!(nav.click(&v, area, 5, 4), Action::Nothing);
    assert_eq!(nav.line_cursor, 3);
}
