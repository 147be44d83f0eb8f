//! The tmux pane a presentation runs in, and whether tmux shows it.
use crate::text::{piece_or, piece_or_exec, str_eq, string_is, to_owned_string, trim, trim_str, trim_string};
use crate::tmux::in_tmux_spec;
use vstd::prelude::*;
use vstd::string::StringExecFns;

verus! {

/// The pane the program runs in.
#[derive(Clone, Debug)]
pub struct TmuxContext {
    socket: String,
    pane_id: String,
    tmux_env: String,
}

/// Whether tmux shows the pane's window in an attached session.
#[derive(Clone, Copy, Debug, PartialEq, Eq, Structural)]
pub struct TmuxActive {
    pub window_active: bool,
    pub session_attached: bool,
}

impl Default for TmuxActive {
    fn default() -> (r: TmuxActive)
        ensures
            r == (TmuxActive { window_active: false, session_attached: false }),
    {
        TmuxActive { window_active: false, session_attached: false }
    }
}

impl TmuxActive {
    /// Whether the pane can be seen: its window is active in an attached session.
    pub fn visible(self) -> (r: bool)
        ensures
            r == (self.window_active && self.session_attached),
    {
        // Popup panes can report pane_active inconsistently even while visible;
        // window and session are the steadier signal.
        self.window_active && self.session_attached
    }
}

pub struct ContextModel {
    pub socket: Seq<char>,
    pub pane_id: Seq<char>,
    pub tmux_env: Seq<char>,
}

impl View for TmuxContext {
    type V = ContextModel;

    closed spec fn view(&self) -> ContextModel {
        ContextModel { socket: self.socket@, pane_id: self.pane_id@, tmux_env: self.tmux_env@ }
    }
}

/// The arguments of the `tmux` call that asks whether pane `pane` is shown.
pub open spec fn active_args(pane: Seq<char>) -> Seq<Seq<char>> {
    seq![
        "display-message"@,
        "-p"@,
        "-t"@,
        pane,
        "#{?pane_active,1,0}|#{window_active}|#{session_attached}"@,
    ]
}

/// Whether tmux is to be asked whether the pane is shown.
pub open spec fn needs_active_query(c: ContextModel) -> bool {
    in_tmux_spec(c.socket, c.tmux_env) && trim(c.pane_id).len() > 0
}

/// What tmux's answer to `#{?pane_active,1,0}|#{window_active}|#{session_attached}` says.
pub open spec fn active_from(output: Seq<char>) -> TmuxActive {
    let t = trim(output);
    TmuxActive {
        window_active: piece_or(t, '|', 1, "0"@) == "1"@,
        session_attached: piece_or(t, '|', 2, "0"@) != "0"@,
    }
}

impl TmuxContext {
    /// The context of the pane `pane_id` reached through `socket`, with the value
    /// of the `TMUX` environment variable (empty when unset).
    pub fn new(socket: String, pane_id: String, tmux_env: String) -> (r: TmuxContext)
        ensures
            r@ == (ContextModel { socket: socket@, pane_id: pane_id@, tmux_env: tmux_env@ }),
    {
        TmuxContext { socket, pane_id, tmux_env }
    }

    /// The socket that `tmux` calls go through (empty for the default).
    pub fn socket(&self) -> (r: &str)
        ensures
            r@ == self@.socket,
    {
        self.socket.as_str()
    }

    /// Whether the program runs inside tmux.
    pub fn in_tmux(&self) -> (r: bool)
        ensures
            r == in_tmux_spec(self@.socket, self@.tmux_env),
    {
        !self.socket.as_str().is_empty() || {
            let t = trim_string(self.tmux_env.as_str());
            !t.as_str().is_empty()
        }
    }

    /// The pane's identifier, trimmed.
    pub fn pane_id(&self) -> (r: &str)
        ensures
            r@ == trim(self@.pane_id),
    {
        trim_str(self.pane_id.as_str())
    }

    /// The arguments of the `tmux` call that reports whether the pane is shown,
    /// or `None` when tmux need not be asked.
    pub fn active_query(&self) -> (r: Option<Vec<String>>)
        ensures
            r is Some <==> needs_active_query(self@),
            r matches Some(args) ==> args.deep_view() == active_args(trim(self@.pane_id)),
    {
        if !self.in_tmux() || self.pane_id().is_empty() {
            return None;
        }
        let mut args: Vec<String> = Vec::new();
        args.push(to_owned_string("display-message"));
        args.push(to_owned_string("-p"));
        args.push(to_owned_string("-t"));
        args.push(to_owned_string(self.pane_id()));
        args.push(to_owned_string("#{?pane_active,1,0}|#{window_active}|#{session_attached}"));
        assert(args.deep_view() =~= active_args(trim(self@.pane_id)));
        Some(args)
    }

    /// Whether the pane is shown: nothing when tmux need not be asked, else what
    /// its answer `output` to the call of `active_query` says.
    pub fn poll_active(&self, output: &str) -> (r: TmuxActive)
        ensures
            !needs_active_query(self@) ==> r == (TmuxActive {
                window_active: false,
                session_attached: false,
            }),
            needs_active_query(self@) ==> r == active_from(output@),
    {
        if !self.in_tmux() || self.pane_id().is_empty() {
            return TmuxActive { window_active: false, session_attached: false };
        }
        let t = trim_string(output);
        let window = piece_or_exec(t.as_str(), '|', 1, "0");
        let session = piece_or_exec(t.as_str(), '|', 2, "0");
        TmuxActive { window_active: string_is(&window, "1"), session_attached: !string_is(&session, "0") }
    }
}

} // verus!
