use ss::images::{build_placement_at, detect_backend, Backend, ImageBackend, ImagePlacement, KittyBackend};
use ss::graphics::TerminalEnv;
use ss::slides::{extract_images, first_heading, slide_from, ImageRef};
use ss::tmux_pane::TmuxContext;

#[test]
fn first_heading_skips_lines_without_text() {
    assert_eq!(first_heading("intro\n  ##   \n ## Second *part* \n# Third\n"), Some("Second *part*".to_string()));
    assert_eq!(first_heading("no heading\n"), None);
    assert_eq!(first_heading(""), None);
}

#[test]
fn image_links_are_found_and_resolved() {
    let content = "![a](one.png) text ![b]( <two.png> )\n![c](/abs/three.png) ![d](https://x.org/i.png) ![e]() ![f](x";
    let images = extract_images(content, "/deck");
    let paths: Vec<&str> = images.iter().map(|i| i.path.as_str()).collect();
    assert_eq!(paths, vec!["/deck/one.png", "/deck/two.png", "/abs/three.png", "https://x.org/i.png"]);
}

#[test]
fn plain_slides_take_title_and_images() {
    let slide = slide_from("/deck/03_end.md".to_string(), "/deck", "text\n![x](img.png)\n".to_string());
    assert_eq!(slide.name, "03_end.md");
    assert_eq!(slide.title, "03 end");
    assert_eq!(slide.images.len(), 1);
    assert_eq!(slide.images[0].path, "/deck/img.png");
}

#[test]
fn placements_have_a_minimum_size() {
    let image = ImageRef { path: "/deck/a.png".to_string() };
    let p = build_placement_at(&image, 3, 4, 5, 2).unwrap();
    assert_eq!((p.row, p.col, p.cols, p.rows), (3, 4, 10, 6));
    assert_eq!((p.image_id, p.placement_id), (1, 1));
    let q = build_placement_at(&image, 0, 0, 40, 20).unwrap();
    assert_eq!((q.cols, q.rows), (40, 20));
    assert!(build_placement_at(&ImageRef { path: String::new() }, 0, 0, 1, 1).is_none());
}

#[test]
fn plain_kitty_backend_clears_and_draws() {
    let ctx = TmuxContext::new(String::new(), String::new(), String::new());
    let backend = KittyBackend::new(ctx);
    assert_eq!(backend.clear_sequence(), "\x1b_Ga=d,d=A\x1b\\");
    let p = ImagePlacement {
        path: "a.png".to_string(),
        row: 1,
        col: 2,
        cols: 10,
        rows: 6,
        image_id: 1,
        placement_id: 1,
    };
    assert_eq!(
        backend.draw_sequence(&[p], &[true]),
        "\x1b[1;2H\x1b_Ga=T,f=100,t=f,i=1,p=1,c=10,r=6,C=1;YS5wbmc=\x1b\\"
    );
    let env = TerminalEnv {
        image_backend: String::new(),
        term_program: String::new(),
        term: "xterm-kitty".to_string(),
        kitty_window_id: false,
        ghostty_bin_dir: false,
    };
    let inside = TmuxContext::new("/tmp/s".to_string(), "%1".to_string(), String::new());
    match detect_backend(inside, &env) {
        Backend::Kitty(k) => assert_eq!(k.clear_sequence(), "\x1bPtmux;\x1b\x1b_Ga=d,d=A\x1b\x1b\\\x1b\\"),
        Backend::Noop(_) => panic!("expected kitty"),
    }
}

#[test]
fn image_links_are_found_left_to_right() {
    let found: Vec<String> = extract_images("![a](one.png) text ![b](two.png)", "/d")
        .into_iter()
        .map(|i| i.path)
        .collect();
    assert_eq!(found, vec!["/d/one.png", "/d/two.png"]);
    let found: Vec<String> =
        extract_images("![![x](y)](z) ![e]() ![f] (g) ![h](a(b)c)", "/d").into_iter().map(|i| i.path).collect();
    assert_eq!(found, vec!["/d/y", "/d/a(b"]);
    let found: Vec<String> =
        extract_images("![t]( <http://x.org/p.png> )", "/d").into_iter().map(|i| i.path).collect();
    assert_eq!(found, vec!["http://x.org/p.png"]);
}
