use ss::tmux::{
    format_value, generate_runtime_id, launch_mode_from, socket_path, wrap_for, LaunchMode,
    visibility_change, TmuxRuntime, VisibilityState,
};
use ss::tmux_pane::{TmuxActive, TmuxContext};

fn runtime(socket: &str, pane: &str, tmux_env: &str) -> TmuxRuntime {
    TmuxRuntime {
        socket: socket.to_string(),
        pane_id: pane.to_string(),
        window_id: "@2".to_string(),
        session_id: "$0".to_string(),
        launch_mode: LaunchMode::default(),
        runtime_id: "ss-1".to_string(),
        tmux_env: tmux_env.to_string(),
    }
}

#[test]
fn passthrough_doubles_escapes_inside_tmux() {
    let rt = runtime("/tmp/s", "%3", "");
    assert!(rt.in_tmux());
    assert_eq!(rt.wrap_passthrough("\x1b[1;1H"), "\x1bPtmux;\x1b\x1b[1;1H\x1b\\");
    assert_eq!(rt.wrap_passthrough(""), "");
    let outside = runtime("", "%3", "  ");
    assert!(!outside.in_tmux());
    assert_eq!(outside.wrap_passthrough("\x1b[1;1H"), "\x1b[1;1H");
    assert_eq!(wrap_for(true, "a\x1bb"), "\x1bPtmux;a\x1b\x1bb\x1b\\");
}

#[test]
fn visibility_outside_tmux_is_everything() {
    let rt = runtime("", "%3", "");
    assert!(rt.visibility_query().is_none());
    let v = rt.poll_visibility("0|5|6", "x|y|z");
    assert!(v.session_attached && v.window_active && v.pane_active);
    assert_eq!((v.pane_top, v.pane_left), (0, 0));
    assert!(v.safe_to_draw_images());
}

#[test]
fn visibility_reads_tmux_answers() {
    let rt = runtime("/tmp/s", "%3", "");
    let (target, active) = rt.visibility_query().unwrap();
    assert_eq!(target, vec!["display-message", "-p", "-t", "%3", "#{session_attached}|#{pane_top}|#{pane_left}"]);
    assert_eq!(active, vec!["display-message", "-p", "#{session_id}|#{window_id}|#{pane_id}"]);
    let v = rt.poll_visibility(" 1|4|7\n", "$0|@2|%3\n");
    assert_eq!(
        v,
        VisibilityState { session_attached: true, window_active: true, pane_active: true, pane_top: 4, pane_left: 7 }
    );
    let hidden = rt.poll_visibility("1|x", "$0|@9|%3");
    assert!(hidden.session_attached);
    assert!(!hidden.window_active);
    assert_eq!(hidden.pane_top, 0);
    assert!(!hidden.safe_to_draw_images());
    let detached = rt.poll_visibility("0|1|1", "$0|@2|%3");
    assert!(!detached.session_attached);
}

#[test]
fn client_terminal_is_lowercased() {
    let rt = runtime("/tmp/s", "%3", "");
    assert_eq!(rt.client_terminal(Some(" XTERM-Kitty|xterm ")), Some("xterm-kitty|xterm".to_string()));
    assert_eq!(rt.client_terminal(Some("|")), None);
    assert_eq!(rt.client_terminal(Some("  ")), None);
    assert_eq!(rt.client_terminal(None), None);
    assert_eq!(runtime("", "", "").client_terminal(Some("xterm")), None);
}

#[test]
fn socket_comes_before_the_first_comma() {
    assert_eq!(socket_path(" /tmp/tmux-1000/default,1234,0\n"), "/tmp/tmux-1000/default");
    assert_eq!(socket_path("/tmp/s"), "/tmp/s");
    assert_eq!(socket_path(""), "");
}

#[test]
fn runtime_ids_and_launch_modes() {
    assert_eq!(generate_runtime_id(1_700_000_000_123_456_789), "ss-1700000000123456789");
    assert_eq!(generate_runtime_id(0), "ss-0");
    assert_eq!(launch_mode_from("window"), LaunchMode::Window);
    assert_eq!(launch_mode_from("popup"), LaunchMode::Popup);
    assert_eq!(launch_mode_from(""), LaunchMode::Popup);
    assert_eq!(format_value(true, " %5\n"), Some("%5".to_string()));
    assert_eq!(format_value(true, "  "), None);
    assert_eq!(format_value(false, "%5"), None);
}

#[test]
fn pane_activity_reads_window_and_session() {
    let ctx = TmuxContext::new("".to_string(), " %4 ".to_string(), "/tmp/t,1,0".to_string());
    assert!(ctx.in_tmux());
    assert_eq!(ctx.pane_id(), "%4");
    let args = ctx.active_query().unwrap();
    assert_eq!(args[3], "%4");
    let a = ctx.poll_active("1|1|2\n");
    assert_eq!(a, TmuxActive { window_active: true, session_attached: true });
    assert!(a.visible());
    let b = ctx.poll_active("1|0|0");
    assert!(!b.visible());
    let short = ctx.poll_active("1");
    assert_eq!(short, TmuxActive { window_active: false, session_attached: false });
    let outside = TmuxContext::new(String::new(), "%4".to_string(), String::new());
    assert!(outside.active_query().is_none());
    assert_eq!(outside.poll_active("1|1|1"), TmuxActive::default());
}

#[test]
fn hiding_the_pane_clears_images_and_showing_it_redraws() {
    let shown = VisibilityState {
        session_attached: true,
        window_active: true,
        pane_active: true,
        pane_top: 0,
        pane_left: 0,
    };
    let hidden = VisibilityState { window_active: false, ..shown };
    assert_eq!(visibility_change(shown, hidden), (true, true));
    assert_eq!(visibility_change(hidden, shown), (true, false));
    assert_eq!(visibility_change(shown, shown), (false, false));
    assert_eq!(visibility_change(hidden, VisibilityState { pane_active: false, ..hidden }), (false, false));
}

#[test]
fn defaults_are_outside_tmux_and_not_in_view() {
    let rt = TmuxRuntime::default();
    assert!(!rt.in_tmux());
    assert_eq!(rt.launch_mode, LaunchMode::Popup);
    assert!(!VisibilityState::default().safe_to_draw_images());
}
