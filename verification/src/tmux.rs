//! What the program knows of the tmux it runs in, and the decisions it takes
//! from tmux's answers. Running `tmux` itself happens outside; the functions
//! here say which questions to ask and what the answers mean.
use crate::text::{
    chars_of, copy_string, piece_or, piece_or_exec, parse_u16_or_zero, parse_unsigned, push_char,
    push_decimal, push_str, str_eq, string_is, decimal, lowercase, to_lowercase, trim, trim_string,
    to_owned_string,
};
use vstd::prelude::*;
use vstd::string::StringExecFns;

verus! {

/// How the presentation was launched.
#[derive(Clone, Copy, Debug, PartialEq, Eq, Structural)]
pub enum LaunchMode {
    Popup,
    Window,
}

impl Default for LaunchMode {
    fn default() -> (r: LaunchMode)
        ensures
            r == LaunchMode::Popup,
    {
        LaunchMode::Popup
    }
}

/// What tmux reports about whether our pane can be seen.
#[derive(Clone, Copy, Debug, PartialEq, Eq, Structural)]
pub struct VisibilityState {
    pub session_attached: bool,
    pub window_active: bool,
    pub pane_active: bool,
    pub pane_top: u16,
    pub pane_left: u16,
}

/// Whether images may be drawn: session, window and pane all in view.
pub open spec fn drawable(v: VisibilityState) -> bool {
    v.session_attached && v.window_active && v.pane_active
}

impl VisibilityState {
    /// Images may be drawn only while session, window and pane are all in view.
    pub fn safe_to_draw_images(self) -> (r: bool)
        ensures
            r == (self.session_attached && self.window_active && self.pane_active),
    {
        self.session_attached && self.window_active && self.pane_active
    }
}

impl Default for VisibilityState {
    /// Nothing known to be in view yet.
    fn default() -> (r: VisibilityState)
        ensures
            r == (VisibilityState {
                session_attached: false,
                window_active: false,
                pane_active: false,
                pane_top: 0,
                pane_left: 0,
            }),
    {
        VisibilityState {
            session_attached: false,
            window_active: false,
            pane_active: false,
            pane_top: 0,
            pane_left: 0,
        }
    }
}

/// What a new visibility answer `next` means after `previous`: whether the
/// permission to draw images changed, and whether the images on screen must
/// be cleared (it changed, and drawing is no longer allowed).
pub fn visibility_change(previous: VisibilityState, next: VisibilityState) -> (r: (bool, bool))
    ensures
        r.0 == (drawable(previous) != drawable(next)),
        r.1 == (r.0 && !drawable(next)),
{
    let changed = previous.safe_to_draw_images() != next.safe_to_draw_images();
    (changed, changed && !next.safe_to_draw_images())
}

/// The tmux the program runs in, as found at start-up.
#[derive(Clone, Debug)]
pub struct TmuxRuntime {
    pub socket: String,
    pub pane_id: String,
    pub window_id: String,
    pub session_id: String,
    pub launch_mode: LaunchMode,
    pub runtime_id: String,
    /// The value of the `TMUX` environment variable at start-up (empty when unset).
    pub tmux_env: String,
}

/// Whether a runtime with this socket and `TMUX` value is inside tmux.
pub open spec fn in_tmux_spec(socket: Seq<char>, tmux_env: Seq<char>) -> bool {
    socket.len() > 0 || trim(tmux_env).len() > 0
}

/// The arguments of the `tmux` call that reports pane `pane`'s session,
/// position and size.
pub open spec fn target_args(pane: Seq<char>) -> Seq<Seq<char>> {
    seq![
        "display-message"@,
        "-p"@,
        "-t"@,
        pane,
        "#{session_attached}|#{pane_top}|#{pane_left}"@,
    ]
}

/// The arguments of the `tmux` call that reports the active session, window and pane.
pub open spec fn active_args() -> Seq<Seq<char>> {
    seq!["display-message"@, "-p"@, "#{session_id}|#{window_id}|#{pane_id}"@]
}

/// Whether the visibility of the pane has to be asked of tmux.
pub open spec fn needs_visibility_query(rt: &TmuxRuntime) -> bool {
    in_tmux_spec(rt.socket@, rt.tmux_env@) && trim(rt.pane_id@).len() > 0
}

/// What is reported when tmux need not be asked: everything in view.
pub open spec fn all_visible() -> VisibilityState {
    VisibilityState {
        session_attached: true,
        window_active: true,
        pane_active: true,
        pane_top: 0,
        pane_left: 0,
    }
}

/// The value of `s.parse::<u16>().unwrap_or_default()`.
pub open spec fn u16_or_zero(s: Seq<char>) -> u16 {
    match parse_unsigned(s, u16::MAX as nat) {
        Some(v) => v as u16,
        None => 0,
    }
}

/// The visibility read from tmux's two answers: `target` for
/// `session_attached|pane_top|pane_left` of our pane, `active` for
/// `session_id|window_id|pane_id` of what the client shows.
pub open spec fn visibility_from(rt: &TmuxRuntime, target: Seq<char>, active: Seq<char>) -> VisibilityState {
    let t = trim(target);
    let a = trim(active);
    VisibilityState {
        session_attached: piece_or(t, '|', 0, "0"@) != "0"@ && piece_or(a, '|', 0, Seq::empty())
            == rt.session_id@,
        window_active: piece_or(a, '|', 1, Seq::empty()) == rt.window_id@,
        pane_active: piece_or(a, '|', 2, Seq::empty()) == rt.pane_id@,
        pane_top: u16_or_zero(piece_or(t, '|', 1, "0"@)),
        pane_left: u16_or_zero(piece_or(t, '|', 2, "0"@)),
    }
}

/// `seq` with every escape character doubled.
pub open spec fn escape_esc(s: Seq<char>) -> Seq<char>
    decreases s.len(),
{
    if s.len() == 0 {
        Seq::empty()
    } else if s.last() == '\x1b' {
        escape_esc(s.drop_last()).push('\x1b').push('\x1b')
    } else {
        escape_esc(s.drop_last()).push(s.last())
    }
}

/// `seq` as tmux passes it through to the outer terminal: inside tmux and when
/// there is anything to send, wrapped in a DCS passthrough with its escapes
/// doubled; else unchanged.
pub open spec fn passthrough(in_tmux: bool, seq: Seq<char>) -> Seq<char> {
    if !in_tmux || seq.len() == 0 {
        seq
    } else {
        "\x1bPtmux;"@ + escape_esc(seq) + "\x1b\\"@
    }
}

/// The terminal tmux reports for its client, lower-cased, unless empty.
pub open spec fn client_terminal_from(output: Seq<char>) -> Option<Seq<char>> {
    let combined = lowercase(trim(output));
    if combined.len() == 0 || combined == "|"@ {
        None
    } else {
        Some(combined)
    }
}

/// The socket named by a `TMUX` value: what comes before its first comma.
pub open spec fn socket_from(tmux_env: Seq<char>) -> Seq<char> {
    let t = trim(tmux_env);
    piece_or(t, ',', 0, Seq::empty())
}

impl Default for TmuxRuntime {
    /// Outside tmux: every field empty, launched as a popup.
    fn default() -> (r: TmuxRuntime)
        ensures
            r.socket@ == Seq::<char>::empty(),
            r.pane_id@ == Seq::<char>::empty(),
            r.window_id@ == Seq::<char>::empty(),
            r.session_id@ == Seq::<char>::empty(),
            r.launch_mode == LaunchMode::Popup,
            r.runtime_id@ == Seq::<char>::empty(),
            r.tmux_env@ == Seq::<char>::empty(),
    {
        TmuxRuntime {
            socket: String::new(),
            pane_id: String::new(),
            window_id: String::new(),
            session_id: String::new(),
            launch_mode: LaunchMode::Popup,
            runtime_id: String::new(),
            tmux_env: String::new(),
        }
    }
}

impl TmuxRuntime {
    /// A copy of this runtime.
    pub fn copy(&self) -> (r: TmuxRuntime)
        ensures
            r.socket@ == self.socket@,
            r.pane_id@ == self.pane_id@,
            r.window_id@ == self.window_id@,
            r.session_id@ == self.session_id@,
            r.launch_mode == self.launch_mode,
            r.runtime_id@ == self.runtime_id@,
            r.tmux_env@ == self.tmux_env@,
    {
        TmuxRuntime {
            socket: copy_string(&self.socket),
            pane_id: copy_string(&self.pane_id),
            window_id: copy_string(&self.window_id),
            session_id: copy_string(&self.session_id),
            launch_mode: self.launch_mode,
            runtime_id: copy_string(&self.runtime_id),
            tmux_env: copy_string(&self.tmux_env),
        }
    }

    /// Whether the program runs inside tmux.
    pub fn in_tmux(&self) -> (r: bool)
        ensures
            r == in_tmux_spec(self.socket@, self.tmux_env@),
    {
        !self.socket.as_str().is_empty() || {
            let t = trim_string(self.tmux_env.as_str());
            !t.as_str().is_empty()
        }
    }

    /// The arguments of the two `tmux` calls that report the pane's visibility,
    /// or `None` when tmux need not be asked.
    pub fn visibility_query(&self) -> (r: Option<(Vec<String>, Vec<String>)>)
        ensures
            r is Some <==> needs_visibility_query(self),
            r matches Some((target, active)) ==> target.deep_view() == target_args(self.pane_id@)
                && active.deep_view() == active_args(),
    {
        let pane = trim_string(self.pane_id.as_str());
        if !self.in_tmux() || pane.as_str().is_empty() {
            return None;
        }
        let mut target: Vec<String> = Vec::new();
        target.push(to_owned_string("display-message"));
        target.push(to_owned_string("-p"));
        target.push(to_owned_string("-t"));
        target.push(copy_string(&self.pane_id));
        target.push(to_owned_string("#{session_attached}|#{pane_top}|#{pane_left}"));
        let mut active: Vec<String> = Vec::new();
        active.push(to_owned_string("display-message"));
        active.push(to_owned_string("-p"));
        active.push(to_owned_string("#{session_id}|#{window_id}|#{pane_id}"));
        assert(target.deep_view() =~= target_args(self.pane_id@));
        assert(active.deep_view() =~= active_args());
        Some((target, active))
    }

    /// The pane's visibility: everything in view when tmux need not be asked,
    /// else what the answers `target` and `active` of the two calls of
    /// `visibility_query` say.
    pub fn poll_visibility(&self, target: &str, active: &str) -> (r: VisibilityState)
        ensures
            !needs_visibility_query(self) ==> r == all_visible(),
            needs_visibility_query(self) ==> r == visibility_from(self, target@, active@),
    {
        let pane = trim_string(self.pane_id.as_str());
        if !self.in_tmux() || pane.as_str().is_empty() {
            return VisibilityState {
                session_attached: true,
                window_active: true,
                pane_active: true,
                pane_top: 0,
                pane_left: 0,
            };
        }
        let t = trim_string(target);
        let a = trim_string(active);
        let attached = piece_or_exec(t.as_str(), '|', 0, "0");
        let session = piece_or_exec(a.as_str(), '|', 0, "");
        let window = piece_or_exec(a.as_str(), '|', 1, "");
        let pane_now = piece_or_exec(a.as_str(), '|', 2, "");
        let top = piece_or_exec(t.as_str(), '|', 1, "0");
        let left = piece_or_exec(t.as_str(), '|', 2, "0");
        proof {
            reveal_strlit("");
            assert(""@ =~= Seq::<char>::empty());
        }
        VisibilityState {
            session_attached: !string_is(&attached, "0") && str_eq(
                session.as_str(),
                self.session_id.as_str(),
            ),
            window_active: str_eq(window.as_str(), self.window_id.as_str()),
            pane_active: str_eq(pane_now.as_str(), self.pane_id.as_str()),
            pane_top: parse_u16_or_zero(top.as_str()),
            pane_left: parse_u16_or_zero(left.as_str()),
        }
    }

    /// `seq` ready to be written to the terminal from inside tmux.
    pub fn wrap_passthrough(&self, seq: &str) -> (r: String)
        ensures
            r@ == passthrough(in_tmux_spec(self.socket@, self.tmux_env@), seq@),
    {
        wrap_for(self.in_tmux(), seq)
    }

    /// Whether tmux is to be asked for its client's terminal.
    pub fn needs_client_query(&self) -> (r: bool)
        ensures
            r == in_tmux_spec(self.socket@, self.tmux_env@),
    {
        self.in_tmux()
    }

    /// The client's terminal, from tmux's answer to
    /// `display-message -p '#{client_termname}|#{client_termtype}'`
    /// (`None` for no answer): outside tmux nothing.
    pub fn client_terminal(&self, output: Option<&str>) -> (r: Option<String>)
        ensures
            !in_tmux_spec(self.socket@, self.tmux_env@) ==> r is None,
            in_tmux_spec(self.socket@, self.tmux_env@) ==> match output {
                None => r is None,
                Some(o) => r.deep_view() == client_terminal_from(o@),
            },
    {
        if !self.in_tmux() {
            return None;
        }
        match output {
            None => None,
            Some(o) => {
                let t = trim_string(o);
                let combined = to_lowercase(t.as_str());
                if combined.as_str().is_empty() || string_is(&combined, "|") {
                    None
                } else {
                    Some(combined)
                }
            },
        }
    }
}

/// Doubles the escapes of `seq` and wraps it for tmux, when `in_tmux` and `seq`
/// is not empty.
pub fn wrap_for(in_tmux: bool, seq: &str) -> (r: String)
    ensures
        r@ == passthrough(in_tmux, seq@),
{
    if !in_tmux || seq.is_empty() {
        proof {
            if seq@.len() == 0 {
                assert(seq@.len() == 0);
            }
        }
        return to_owned_string(seq);
    }
    let cs = chars_of(seq);
    let mut body = String::new();
    let mut i: usize = 0;
    while i < cs.len()
        invariant
            i <= cs@.len(),
            cs@ == seq@,
            body@ == escape_esc(cs@.take(i as int)),
        decreases cs.len() - i,
    {
        assert(cs@.take(i as int + 1).drop_last() =~= cs@.take(i as int));
        if cs[i] == '\x1b' {
            push_char(&mut body, '\x1b');
            push_char(&mut body, '\x1b');
        } else {
            push_char(&mut body, cs[i]);
        }
        i += 1;
    }
    assert(cs@.take(i as int) =~= seq@);
    let mut out = to_owned_string("\x1bPtmux;");
    push_str(&mut out, body.as_str());
    push_str(&mut out, "\x1b\\");
    out
}

/// The socket of a `TMUX` value (empty outside tmux).
pub fn socket_path(tmux_env: &str) -> (r: String)
    ensures
        r@ == socket_from(tmux_env@),
{
    let t = trim_string(tmux_env);
    proof {
        reveal_strlit("");
        assert(""@ =~= Seq::<char>::empty());
    }
    piece_or_exec(t.as_str(), ',', 0, "")
}

/// The launch mode named by `SS_LAUNCH_MODE`: a window for `window`, else a popup.
pub fn launch_mode_from(value: &str) -> (r: LaunchMode)
    ensures
        r == (if value@ == "window"@ {
            LaunchMode::Window
        } else {
            LaunchMode::Popup
        }),
{
    if str_eq(value, "window") {
        LaunchMode::Window
    } else {
        LaunchMode::Popup
    }
}

/// A value tmux printed, when the call succeeded and printed anything.
pub fn format_value(success: bool, stdout: &str) -> (r: Option<String>)
    ensures
        !success ==> r is None,
        success ==> r.deep_view() == (if trim(stdout@).len() == 0 {
            None
        } else {
            Some(trim(stdout@))
        }),
{
    if !success {
        return None;
    }
    let value = trim_string(stdout);
    if value.as_str().is_empty() {
        None
    } else {
        Some(value)
    }
}

/// A name for this run of the program, from the time in nanoseconds since 1970.
pub fn generate_runtime_id(nanos: u128) -> (r: String)
    ensures
        r@ == "ss-"@ + decimal(nanos as nat),
{
    let mut out = to_owned_string("ss-");
    push_decimal(&mut out, nanos);
    out
}

} // verus!
