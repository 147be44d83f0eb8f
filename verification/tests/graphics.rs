use ss::graphics::{
    choose_backend, detect_backend, placements_for_view, Backend, BackendKind, ImageBackend,
    ImageCompositor, ImageHandle, ImagePlacementSpec, KittyBackend, NoopBackend, OwnedPlacement,
    TerminalEnv,
};
use ss::layout::LaidOutImage;
use ss::model::{AssetRef, ImageDisplay, Slide, SlideFrontmatter};
use ss::tmux::{LaunchMode, TmuxRuntime};

fn spec(block_id: usize, path: &str, row: u16) -> ImagePlacementSpec {
    ImagePlacementSpec {
        block_id,
        asset_path: path.to_string(),
        row,
        col: 1,
        cols: 10,
        rows: 5,
    }
}

fn runtime(socket: &str, tmux_env: &str) -> TmuxRuntime {
    TmuxRuntime {
        socket: socket.to_string(),
        pane_id: "%1".to_string(),
        window_id: "@1".to_string(),
        session_id: "$1".to_string(),
        launch_mode: LaunchMode::Popup,
        runtime_id: "run".to_string(),
        tmux_env: tmux_env.to_string(),
    }
}

fn env(image_backend: &str, term_program: &str, term: &str, kitty: bool, ghostty: bool) -> TerminalEnv {
    TerminalEnv {
        image_backend: image_backend.to_string(),
        term_program: term_program.to_string(),
        term: term.to_string(),
        kitty_window_id: kitty,
        ghostty_bin_dir: ghostty,
    }
}

#[test]
fn compositor_retires_changed_block() {
    let mut compositor = ImageCompositor::new("runtime".to_string());
    let first = compositor.reconcile(vec![ImagePlacementSpec {
        block_id: 1,
        asset_path: "a.png".to_string(),
        row: 1,
        col: 1,
        cols: 10,
        rows: 5,
    }]);
    assert_eq!(first.draw.len(), 1);
    let second = compositor.reconcile(vec![ImagePlacementSpec {
        block_id: 1,
        asset_path: "a.png".to_string(),
        row: 2,
        col: 1,
        cols: 10,
        rows: 5,
    }]);
    assert_eq!(second.retire.len(), 1);
    assert_eq!(second.draw.len(), 1);
}

#[test]
fn compositor_hands_out_fresh_numbers() {
    let mut compositor = ImageCompositor::new("runtime".to_string());
    let first = compositor.reconcile(vec![spec(1, "a.png", 1)]);
    assert_eq!(first.draw[0].handle.image_id, 1);
    assert_eq!(first.draw[0].handle.placement_id, 2);
    assert_eq!(first.draw[0].handle.runtime_id, "runtime");
    assert_eq!(first.draw[0].handle.block_id, 1);
    let second = compositor.reconcile(vec![spec(1, "a.png", 2)]);
    assert_eq!(second.retire[0].image_id, 1);
    assert_eq!(second.draw[0].handle.image_id, 3);
    assert_eq!(second.draw[0].handle.placement_id, 4);
}

#[test]
fn compositor_reconcile_twice_is_quiet() {
    let mut compositor = ImageCompositor::new("r".to_string());
    let desired = vec![spec(3, "c.png", 1), spec(1, "a.png", 4)];
    let first = compositor.reconcile(desired.clone());
    assert_eq!(first.draw.len(), 2);
    assert!(first.retire.is_empty());
    // drawn in block order
    assert_eq!(first.draw[0].spec.block_id, 1);
    assert_eq!(first.draw[1].spec.block_id, 3);
    let second = compositor.reconcile(desired);
    assert!(second.retire.is_empty());
    assert!(second.draw.is_empty());
}

#[test]
fn compositor_last_placement_of_a_block_wins() {
    let mut compositor = ImageCompositor::new("r".to_string());
    let diff = compositor.reconcile(vec![spec(2, "old.png", 1), spec(2, "new.png", 1)]);
    assert_eq!(diff.draw.len(), 1);
    assert_eq!(diff.draw[0].spec.asset_path, "new.png");
}

#[test]
fn compositor_retires_blocks_that_leave() {
    let mut compositor = ImageCompositor::new("r".to_string());
    compositor.reconcile(vec![spec(1, "a.png", 1), spec(2, "b.png", 9)]);
    let diff = compositor.reconcile(vec![spec(2, "b.png", 9)]);
    assert_eq!(diff.retire.len(), 1);
    assert_eq!(diff.retire[0].block_id, 1);
    assert!(diff.draw.is_empty());
}

#[test]
fn compositor_clear_returns_every_handle() {
    let mut compositor = ImageCompositor::new("r".to_string());
    compositor.reconcile(vec![spec(5, "a.png", 1), spec(2, "b.png", 9)]);
    let handles = compositor.clear();
    assert_eq!(handles.len(), 2);
    assert_eq!(handles[0].block_id, 2);
    assert_eq!(handles[1].block_id, 5);
    assert!(compositor.clear().is_empty());
    // everything is drawn again after a clear
    let diff = compositor.reconcile(vec![spec(5, "a.png", 1)]);
    assert_eq!(diff.draw.len(), 1);
}

fn slide_with_asset(path: &str) -> Slide {
    Slide {
        id: 0,
        path: "/deck/00.md".to_string(),
        name: "00.md".to_string(),
        title: "t".to_string(),
        frontmatter: SlideFrontmatter { layout: None },
        blocks: Vec::new(),
        assets: vec![AssetRef { id: 0, path: path.to_string(), size: None }],
    }
}

fn laid_out(block_id: usize, asset_id: usize, start_row: usize, rows: usize) -> LaidOutImage {
    LaidOutImage {
        block_id,
        asset_id,
        start_row,
        rows,
        cols: 30,
        display: ImageDisplay::Inline,
    }
}

#[test]
fn placements_follow_the_scrolled_view() {
    let slide = slide_with_asset("/deck/a.png");
    let images = vec![
        laid_out(1, 0, 0, 4),
        laid_out(2, 0, 10, 12),
        laid_out(3, 7, 12, 2),
        laid_out(4, 0, 40, 3),
    ];
    let placements = placements_for_view(&slide, &images, 5, 2, 3, 10);
    // block 1 ends above the view, block 3 has no asset, block 4 is below it
    assert_eq!(placements.len(), 1);
    let p = &placements[0];
    assert_eq!(p.block_id, 2);
    assert_eq!(p.asset_path, "/deck/a.png");
    assert_eq!(p.row, 2 + 5 + 1);
    assert_eq!(p.col, 4);
    assert_eq!(p.cols, 30);
    assert_eq!(p.rows, 10);
}

#[test]
fn kitty_draws_present_files_outside_tmux() {
    let backend = KittyBackend::new(runtime("", ""));
    let placed = OwnedPlacement {
        handle: ImageHandle {
            runtime_id: "run".to_string(),
            block_id: 1,
            image_id: 1,
            placement_id: 2,
        },
        spec: spec(1, "a.png", 2),
    };
    let out = backend.draw_sequence(&[placed.clone(), placed], &[true, false]);
    assert_eq!(out, "\x1b[2;1H\x1b_Ga=T,f=100,t=f,i=1,p=2,c=10,r=5,C=1;YS5wbmc=\x1b\\");
    assert!(backend.available());
    assert_eq!(backend.name(), "kitty");
}

#[test]
fn kitty_deletes_through_tmux() {
    let backend = KittyBackend::new(runtime("/tmp/tmux-0/default", ""));
    let handle = ImageHandle {
        runtime_id: "run".to_string(),
        block_id: 1,
        image_id: 7,
        placement_id: 8,
    };
    let out = backend.delete_sequence(&[handle]);
    assert_eq!(out, "\x1bPtmux;\x1b\x1b_Ga=d,d=i,i=7\x1b\x1b\\\x1b\\");
}

#[test]
fn noop_backend_draws_nothing() {
    let backend = NoopBackend;
    assert!(!backend.available());
    assert_eq!(backend.name(), "disabled");
    assert_eq!(backend.delete_sequence(&[]), "");
}

#[test]
fn backend_choice_follows_the_terminal() {
    assert_eq!(choose_backend(&env(" None ", "", "xterm-kitty", true, false), false), BackendKind::Noop);
    assert_eq!(choose_backend(&env("ghostty", "", "", false, false), true), BackendKind::Kitty);
    assert_eq!(choose_backend(&env("", "", "xterm-kitty", false, false), false), BackendKind::Kitty);
    assert_eq!(choose_backend(&env("", "", "xterm-kitty", false, false), true), BackendKind::Noop);
    assert_eq!(choose_backend(&env("", "", "tmux-256color", true, false), true), BackendKind::Kitty);
    assert_eq!(choose_backend(&env("", "Ghostty", "", false, false), true), BackendKind::Kitty);
    assert_eq!(choose_backend(&env("", "iTerm.app", "xterm-256color", false, false), false), BackendKind::Noop);
}

#[test]
fn detected_backend_draws_through_tmux() {
    let tmux = runtime("", "/tmp/tmux-0/default,1,0");
    match detect_backend(&tmux, &env("kitty", "", "", false, false)) {
        Backend::Kitty(k) => {
            let handle = ImageHandle {
                runtime_id: "run".to_string(),
                block_id: 1,
                image_id: 2,
                placement_id: 3,
            };
            assert!(k.delete_sequence(&[handle]).starts_with("\x1bPtmux;"));
        }
        Backend::Noop(_) => panic!("expected kitty"),
    }
    assert!(matches!(detect_backend(&tmux, &env("off", "", "", false, false)), Backend::Noop(_)));
}

#[test]
fn new_images_get_numbers_no_visible_image_holds() {
    let mut c = ImageCompositor::new("run".to_string());
    let first = c.reconcile(vec![spec(1, "a.png", 1), spec(2, "b.png", 4), spec(3, "c.png", 8)]);
    let ids: Vec<u32> = first.draw.iter().map(|o| o.handle.image_id).collect();
    assert_eq!(ids, vec![1, 3, 5]);
    let second = c.reconcile(vec![spec(1, "a.png", 1), spec(2, "b.png", 6), spec(3, "c.png", 8)]);
    assert_eq!(second.retire.len(), 1);
    assert_eq!(second.retire[0].image_id, 3);
    assert_eq!(second.draw.len(), 1);
    assert!(second.draw[0].handle.image_id >= 7);
    assert!(!ids.contains(&second.draw[0].handle.image_id));
}

#[test]
fn image_numbers_run_odd_across_reconciles_and_clears() {
    let mut compositor = ImageCompositor::new("run".to_string());
    let mut drawn: Vec<ImageHandle> = Vec::new();
    let first = compositor.reconcile(vec![spec(4, "a.png", 1), spec(2, "b.png", 1)]);
    drawn.extend(first.draw.into_iter().map(|o| o.handle));
    let cleared = compositor.clear();
    assert_eq!(cleared.len(), 2);
    let second = compositor.reconcile(vec![spec(4, "a.png", 1)]);
    drawn.extend(second.draw.into_iter().map(|o| o.handle));
    let third = compositor.reconcile(vec![spec(4, "a.png", 2), spec(7, "c.png", 3)]);
    drawn.extend(third.draw.into_iter().map(|o| o.handle));

    let numbers: Vec<(usize, u32, u32)> =
        drawn.iter().map(|h| (h.block_id, h.image_id, h.placement_id)).collect();
    assert_eq!(numbers, vec![(2, 1, 2), (4, 3, 4), (4, 5, 6), (4, 7, 8), (7, 9, 10)]);
    assert!(drawn.iter().all(|h| h.runtime_id == "run"));
}
