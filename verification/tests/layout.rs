use ss::highlight::HighlightRun;
use ss::layout::{build_layout, highlighted_code_lines, viewport_lines, SearchMatch, Viewport};
use ss::model::{AssetRef, Block, ImageBlock, ImageDisplay, Inline, ParagraphBlock, Slide, SlideFrontmatter};

fn slide(blocks: Vec<Block>) -> Slide {
    Slide {
        id: 0,
        path: "/deck/00.md".to_string(),
        name: "00.md".to_string(),
        title: "t".to_string(),
        frontmatter: SlideFrontmatter { layout: None },
        blocks,
        assets: vec![AssetRef { id: 0, path: "a.png".to_string(), size: None }],
    }
}

fn text_of(spans: &[ss::style::Span]) -> String {
    spans.iter().map(|s| s.content.as_str()).collect()
}

#[test]
fn builds_layout_lines() {
    let slide = slide(vec![Block::Paragraph(ParagraphBlock {
        id: 0,
        content: vec![Inline::Text("hello world".to_string())],
    })]);
    let layout = build_layout(&slide, Viewport { width: 40, height: 10 }, &Vec::new());
    assert!(!layout.lines.is_empty());
}

#[test]
fn paragraphs_wrap_at_the_viewport_width() {
    let slide = slide(vec![Block::Paragraph(ParagraphBlock {
        id: 0,
        content: vec![Inline::Text("alpha beta gamma delta".to_string())],
    })]);
    let layout = build_layout(&slide, Viewport { width: 12, height: 10 }, &Vec::new());
    let rows: Vec<String> = layout.lines.iter().map(|l| l.search_text.clone()).collect();
    assert!(rows.len() >= 2, "{rows:?}");
    assert!(layout.searchable_text.contains("alpha"));
    for (i, line) in layout.lines.iter().enumerate() {
        assert_eq!(line.row, i);
    }
    assert_eq!(layout.total_rows, layout.lines.len());
}

#[test]
fn viewport_shows_the_scrolled_rows() {
    let slide = slide(vec![Block::Paragraph(ParagraphBlock {
        id: 0,
        content: vec![Inline::Text("hello world".to_string())],
    })]);
    let layout = build_layout(&slide, Viewport { width: 40, height: 10 }, &Vec::new());
    let view = viewport_lines(&layout, 0, 3, &vec![SearchMatch { row: 0, start: 0, len: 5 }], Some(0), Some(0), None);
    assert_eq!(view.len(), 3);
    assert!(text_of(&view[0].spans).contains("hello"));
}

#[test]
fn image_rows_hold_no_line_and_rows_rise() {
    let slide = slide(vec![
        Block::Paragraph(ParagraphBlock { id: 0, content: vec![Inline::Text("before".to_string())] }),
        Block::Image(ImageBlock {
            id: 1,
            asset_id: 0,
            alt: "pic".to_string(),
            title: None,
            display: ImageDisplay::Inline,
        }),
        Block::Paragraph(ParagraphBlock { id: 2, content: vec![Inline::Text("after".to_string())] }),
    ]);
    let layout = build_layout(&slide, Viewport { width: 40, height: 10 }, &Vec::new());
    assert_eq!(layout.images.len(), 1);
    let img = layout.images[0];
    assert_eq!(img.rows, 12);
    for pair in layout.lines.windows(2) {
        assert!(pair[0].row < pair[1].row);
    }
    for line in &layout.lines {
        assert!(line.row < layout.total_rows);
        assert!(!(img.start_row <= line.row && line.row < img.start_row + img.rows));
    }
    assert!(img.start_row + img.rows <= layout.total_rows);
    assert!(layout.searchable_text.contains("[image:pic]"));
}

#[test]
fn heading_rows_and_links_are_marked() {
    let slide = slide(vec![
        Block::Heading(ss::model::HeadingBlock {
            id: 0,
            level: 2,
            content: vec![Inline::Text("Title".to_string())],
        }),
        Block::Paragraph(ParagraphBlock {
            id: 1,
            content: vec![
                Inline::Text("see ".to_string()),
                Inline::Link { text: "here".to_string(), url: "https://x.org".to_string() },
            ],
        }),
    ]);
    let layout = build_layout(&slide, Viewport { width: 40, height: 10 }, &Vec::new());
    let marked: Vec<(usize, Option<u8>)> =
        layout.lines.iter().filter(|l| l.heading_level.is_some()).map(|l| (l.row, l.heading_level)).collect();
    assert_eq!(marked, vec![(0, Some(2))]);
    let linked: Vec<usize> =
        layout.lines.iter().filter(|l| !l.link_urls.is_empty()).map(|l| l.row).collect();
    assert_eq!(linked, vec![3]);
    assert_eq!(layout.lines[3].link_urls, vec!["https://x.org".to_string()]);
}

#[test]
fn highlighter_answers_become_code_lines() {
    let h = vec![
        Some(vec![
            HighlightRun { r: 1, g: 2, b: 3, text: "fn".to_string() },
            HighlightRun { r: 0, g: 0, b: 0, text: "\n".to_string() },
        ]),
        None,
    ];
    let lines = highlighted_code_lines(&h, "fn\nx\n");
    assert_eq!(lines.len(), 2);
    assert_eq!(lines[0].len(), 1);
    assert_eq!(lines[0][0].content, "fn");
    assert_eq!(lines[0][0].style.fg, Some(ss::style::Color::Rgb(1, 2, 3)));
    assert_eq!(lines[1][0].content, "x");
    assert_eq!(lines[1][0].style.bg, Some(ss::style::Color::Rgb(28, 30, 36)));
    assert_eq!(highlighted_code_lines(&Vec::new(), "").len(), 1);
}

#[test]
fn code_blocks_are_highlighted_by_syntax() {
    let slide = slide(vec![Block::Code(ss::model::CodeBlock {
        id: 0,
        language: "rust".to_string(),
        code: "fn main() {}\n".to_string(),
    })]);
    let layout = build_layout(&slide, Viewport { width: 40, height: 10 }, &Vec::new());
    let code_row = &layout.lines[1];
    assert_eq!(code_row.search_text, "fn main() {}");
    let texts: Vec<&str> = code_row.spans.iter().map(|s| s.content.as_str()).collect();
    assert!(texts.len() > 3, "{texts:?}");
    assert!(texts.contains(&"fn"), "{texts:?}");
    let colours: Vec<_> = code_row.spans.iter().skip(1).filter_map(|s| s.style.fg).collect();
    assert!(colours.windows(2).any(|w| w[0] != w[1]), "{colours:?}");
}

#[test]
fn wrapped_rows_keep_within_the_width() {
    let slide = slide(vec![Block::Paragraph(ParagraphBlock {
        id: 0,
        content: vec![Inline::Text("alpha beta gamma delta supercalifragilistic end".to_string())],
    })]);
    let layout = build_layout(&slide, Viewport { width: 12, height: 10 }, &Vec::new());
    let rows: Vec<&str> = layout
        .lines
        .iter()
        .map(|l| l.search_text.as_str())
        .filter(|t| !t.is_empty())
        .collect();
    assert!(rows.len() >= 4, "{rows:?}");
    for row in &rows {
        assert!(row.chars().count() <= 12 || !row.trim().contains(' '), "{rows:?}");
    }
    assert!(rows.iter().any(|r| r.trim() == "supercalifragilistic"));
}

#[test]
fn lines_and_image_spans_tile_the_rows() {
    let image = |id: usize, display: ImageDisplay| {
        Block::Image(ImageBlock { id, asset_id: 0, alt: "pic".to_string(), title: None, display })
    };
    let slide = slide(vec![
        Block::Heading(ss::model::HeadingBlock {
            id: 0,
            level: 1,
            content: vec![Inline::Text("Title".to_string())],
        }),
        image(1, ImageDisplay::Cover),
        Block::Rule,
        image(2, ImageDisplay::FullWidth),
        Block::Paragraph(ParagraphBlock { id: 3, content: vec![Inline::Text("after".to_string())] }),
    ]);
    let layout = build_layout(&slide, Viewport { width: 30, height: 10 }, &Vec::new());

    let mut taken = vec![0usize; layout.total_rows];
    for line in &layout.lines {
        taken[line.row] += 1;
    }
    for img in &layout.images {
        for row in img.start_row..img.start_row + img.rows {
            taken[row] += 1;
        }
    }
    assert!(taken.iter().all(|&n| n == 1), "{taken:?}");

    let images: Vec<(usize, usize, u16)> =
        layout.images.iter().map(|im| (im.block_id, im.rows, im.cols)).collect();
    assert_eq!(images, vec![(1, 24, 28), (2, 20, 28)]);
    let narrow = build_layout(&slide, Viewport { width: 5, height: 10 }, &Vec::new());
    assert!(narrow.images.iter().all(|im| im.cols == 10));
}
