use ss::cmark::{MdEvent, MdTag, MdTagEnd};
use ss::highlight::StyledRun;
use ss::render::{render_events, render_markdown, styled_code_lines, ImageSlot};
use ss::style::{Color, Line};

fn text(line: &Line) -> String {
    line.spans.iter().map(|span| span.content.as_str()).collect()
}

#[test]
fn renders_headings_and_lists() {
    let lines = render_markdown("# Title\n\n- one\n- two\n");
    assert!(!lines.lines.is_empty());
}

#[test]
fn renders_tables() {
    let lines = render_markdown("| Name | Value |\n| --- | --- |\n| one | 1 |\n| two | 22 |\n");
    let joined = lines
        .lines
        .iter()
        .map(text)
        .collect::<Vec<_>>()
        .join("\n");
    assert!(joined.contains("Name"), "{joined}");
}

#[test]
fn tables_are_padded_to_column_widths() {
    let r = render_markdown("| Name | Value |\n| --- | --- |\n| one | 1 |\n| two | 22 |\n");
    let rows: Vec<String> = r.lines.iter().map(text).collect();
    assert_eq!(
        rows,
        vec![
            "│ Name │ Value │ ",
            "├──────┼───────┤",
            "│ one  │ 1     │ ",
            "│ two  │ 22    │ ",
        ]
    );
    assert_eq!(r.lines[0].spans[1].style.fg, Some(Color::Green));
}

#[test]
fn headings_and_lists_render_line_by_line() {
    let r = render_markdown("# Title\n\n- one\n- two\n");
    let rows: Vec<String> = r.lines.iter().map(text).collect();
    assert_eq!(rows, vec!["Title", "", "• one", "• two"]);
    assert_eq!(r.lines[0].spans[0].style.fg, Some(Color::Yellow));
    assert!(r.image_slots.is_empty());
}

#[test]
fn image_lines_leave_slots() {
    let r = render_markdown("Intro\n\n  ![pic](a.png)  \n\nAfter\n");
    assert_eq!(r.image_slots, vec![ImageSlot { image_index: 0, start_line: 2, rows: 10 }]);
    let rows: Vec<String> = r.lines.iter().map(text).collect();
    assert_eq!(rows[0], "Intro");
    for row in &rows[2..12] {
        assert_eq!(row, "");
    }
    assert_eq!(rows[13], "After");
}

#[test]
fn links_and_quotes_are_marked() {
    let r = render_markdown("> quoted [site](https://x.org)\n");
    let rows: Vec<String> = r.lines.iter().map(text).collect();
    assert_eq!(rows[0], "▌ ");
    assert_eq!(rows[1], "quoted site (https://x.org)");
    assert_eq!(r.lines[0].spans[0].style.fg, Some(Color::Magenta));
}

#[test]
fn image_lines_get_numbered_slots_in_order() {
    let r = render_markdown("![a](a.png)\n\ntext\n\n  ![b](b.png)  \n");
    assert_eq!(r.image_slots.len(), 2);
    for (i, slot) in r.image_slots.iter().enumerate() {
        assert_eq!(slot.image_index, i);
        assert_eq!(slot.rows, 10);
    }
    assert!(r.image_slots[0].start_line < r.image_slots[1].start_line);
}

#[test]
fn only_lines_that_are_one_image_link_get_slots() {
    let r = render_markdown("  ![a](b)  \nx ![a](b)\n![a](b) x\n![a](b)(c)\n![a](b)\n");
    assert_eq!(r.image_slots.len(), 2);
}

#[test]
fn event_streams_render_directly() {
    let events = vec![
        MdEvent::Start(MdTag::Heading(1)),
        MdEvent::Text("Title".to_string()),
        MdEvent::End(MdTagEnd::Heading),
    ];
    let lines = render_events(&events);
    assert_eq!(text(&lines[0]), "Title");
    assert_eq!(lines[0].spans[0].style.fg, Some(Color::Yellow));
    let none = render_events(&Vec::new());
    assert_eq!(none.len(), 1);
    assert!(none[0].spans.is_empty());
}

#[test]
fn highlighted_runs_become_styled_lines() {
    let runs = vec![
        vec![StyledRun { fg: (1, 2, 3), bg: (4, 5, 6), font_style: 1, text: "fn".to_string() }],
        vec![],
    ];
    let lines = styled_code_lines(&runs);
    assert_eq!(lines.len(), 2);
    assert_eq!(text(&lines[0]), "fn");
    assert_eq!(lines[0].spans[0].style.fg, Some(Color::Rgb(1, 2, 3)));
    assert_eq!(lines[0].spans[0].style.bg, Some(Color::Rgb(4, 5, 6)));
    assert!(lines[1].spans.is_empty());
    assert_eq!(styled_code_lines(&Vec::new()).len(), 1);
}

#[test]
fn fenced_code_is_highlighted() {
    let r = render_markdown("```rust\nfn main() {}\n```\n");
    let first = &r.lines[0];
    assert_eq!(text(first), "fn main() {}");
    assert!(first.spans.len() > 1);
    assert!(first.spans.iter().all(|s| matches!(s.style.fg, Some(Color::Rgb(_, _, _)))));
    assert!(first.spans.windows(2).any(|w| w[0].style.fg != w[1].style.fg));
}
