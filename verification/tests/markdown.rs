use ss::markdown::{parse_slide, resolve_asset, slide_title, ParseError};
use ss::model::{Block, Inline};

#[test]
fn parses_heading_and_image_block() {
    let doc = parse_slide("# Title\n\n![x](./img.png)", ".", 0).unwrap();
    assert!(matches!(doc.blocks[0], Block::Heading(_)));
    assert!(doc.blocks.iter().any(|block| matches!(block, Block::Image(_))));
}

#[test]
fn images_become_assets_resolved_against_the_slide() {
    let doc = parse_slide("![x](img.png \"T\")\n", "/deck", 0).unwrap();
    assert_eq!(doc.assets.len(), 1);
    assert_eq!(doc.assets[0].path, "/deck/img.png");
    assert_eq!(doc.assets[0].id, 0);
    match &doc.blocks[0] {
        Block::Image(img) => {
            assert_eq!(img.asset_id, 0);
            assert_eq!(img.alt, "x");
            assert_eq!(img.title.as_deref(), Some("T"));
        }
        other => panic!("unexpected block {other:?}"),
    }
    assert_eq!(resolve_asset("https://x.org/a.png", "/deck", 4).path, "https://x.org/a.png");
    assert_eq!(resolve_asset("/abs/a.png", "/deck", 4).path, "/abs/a.png");
    assert_eq!(resolve_asset("a.png", "/deck/", 4).path, "/deck/a.png");
}

#[test]
fn blocks_are_numbered_in_order() {
    let doc = parse_slide("# A\n\ntext\n\n- one\n- two\n\n```rs\nfn x() {}\n```\n", ".", 0).unwrap();
    let ids: Vec<usize> = doc.blocks.iter().map(|b| b.id()).collect();
    assert_eq!(ids, vec![0, 1, 2, 3]);
    match &doc.blocks[2] {
        Block::List(list) => assert_eq!(list.items.len(), 2),
        other => panic!("unexpected block {other:?}"),
    }
    match &doc.blocks[3] {
        Block::Code(code) => {
            assert_eq!(code.language, "rs");
            assert_eq!(code.code, "fn x() {}\n");
        }
        other => panic!("unexpected block {other:?}"),
    }
}

#[test]
fn titles_come_from_the_first_heading() {
    let doc = parse_slide("intro\n\n## Sub *title*\n\n# Later\n", ".", 0).unwrap();
    assert_eq!(slide_title(&doc), Some("Sub title".to_string()));
    let none = parse_slide("just text\n", ".", 0).unwrap();
    assert_eq!(slide_title(&none), None);
    match &doc.blocks[1] {
        Block::Heading(h) => {
            assert_eq!(h.level, 2);
            assert_eq!(h.content.len(), 2);
            assert!(matches!(&h.content[1], Inline::Text(t) if t == "title"));
        }
        other => panic!("unexpected block {other:?}"),
    }
    let _ = ParseError::TooManyEvents;
}

#[test]
fn block_ids_rise_and_images_name_their_assets() {
    let doc = parse_slide(
        "# A\n\ntext\n\n---\n\n![one](1.png)\n\n- x\n- y\n\n![two](2.png)\n\n> quote\n",
        "/d",
        0,
    )
    .unwrap();
    let ids: Vec<usize> =
        doc.blocks.iter().filter(|b| !matches!(b, Block::Rule)).map(|b| b.id()).collect();
    for pair in ids.windows(2) {
        assert!(pair[0] < pair[1], "{ids:?}");
    }
    assert_eq!(ids, (0..ids.len()).collect::<Vec<usize>>());
    assert!(doc.blocks.iter().any(|b| matches!(b, Block::Rule)));
    for (k, asset) in doc.assets.iter().enumerate() {
        assert_eq!(asset.id, k);
    }
    let images: Vec<usize> = doc
        .blocks
        .iter()
        .filter_map(|b| match b {
            Block::Image(img) => Some(img.asset_id),
            _ => None,
        })
        .collect();
    assert_eq!(images, vec![0, 1]);
    assert_eq!(doc.assets[1].path, "/d/2.png");
}
