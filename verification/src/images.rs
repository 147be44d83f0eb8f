//! Single-image placement for plain slides: where an image goes and the kitty
//! commands that show it, wrapped for tmux when the pane runs inside it.
use crate::graphics::{base64_encode, base64_standard, chosen_backend, BackendKind, TerminalEnv};
use crate::slides::ImageRef;
use crate::text::{copy_string, decimal, push_decimal, push_str, to_owned_string};
use crate::tmux::{in_tmux_spec, passthrough, wrap_for};
use crate::tmux_pane::TmuxContext;
use vstd::prelude::*;
use vstd::string::StringExecFns;
use vstd::utf8::encode_utf8;

verus! {

/// An image to draw: its file, cell position and size, and kitty numbers.
#[derive(Clone, Debug)]
pub struct ImagePlacement {
    pub path: String,
    pub row: u16,
    pub col: u16,
    pub cols: u16,
    pub rows: u16,
    pub image_id: u32,
    pub placement_id: u32,
}

/// The kitty command that moves the cursor to a placement and shows its file.
pub open spec fn place_command(p: ImagePlacement) -> Seq<char> {
    "\x1b["@ + decimal(p.row as nat) + ";"@ + decimal(p.col as nat) + "H"@
        + "\x1b_Ga=T,f=100,t=f,i="@ + decimal(p.image_id as nat) + ",p="@ + decimal(
        p.placement_id as nat,
    ) + ",c="@ + decimal(p.cols as nat) + ",r="@ + decimal(p.rows as nat) + ",C=1;"@
        + base64_encode(encode_utf8(p.path@)) + "\x1b\\"@
}

/// The commands for the placements whose file is present, in order.
pub open spec fn place_commands(ps: Seq<ImagePlacement>, present: Seq<bool>) -> Seq<char>
    decreases ps.len(),
{
    if ps.len() == 0 {
        Seq::empty()
    } else {
        place_commands(ps.drop_last(), present.take(ps.len() - 1)) + (if present[ps.len() - 1] {
            place_command(ps.last())
        } else {
            Seq::empty()
        })
    }
}

/// Whether every placement's file name is short enough to encode.
pub open spec fn encodable(ps: Seq<ImagePlacement>) -> bool {
    forall|i: int| 0 <= i < ps.len() ==> encode_utf8((#[trigger] ps[i]).path@).len() <= usize::MAX / 2
}

/// A way of putting images on the terminal.
pub trait ImageBackend {
    /// Whether this backend draws anything.
    fn available(&self) -> bool;

    /// The backend's name.
    fn name(&self) -> &'static str;

    /// The text that deletes every image.
    fn clear_sequence(&self) -> String;

    /// The text that draws `placements`; `present[i]` tells whether the file of
    /// `placements[i]` is there to be shown.
    fn draw_sequence(&self, placements: &[ImagePlacement], present: &[bool]) -> String
        requires
            placements@.len() == present@.len(),
            encodable(placements@),
    ;
}

/// The backend that draws nothing.
#[derive(Clone, Debug)]
pub struct NoopBackend;

impl ImageBackend for NoopBackend {
    fn available(&self) -> (r: bool)
        ensures
            !r,
    {
        false
    }

    fn name(&self) -> (r: &'static str)
        ensures
            r@ == "disabled"@,
    {
        "disabled"
    }

    fn clear_sequence(&self) -> (r: String)
        ensures
            r@ == Seq::<char>::empty(),
    {
        String::new()
    }

    fn draw_sequence(&self, placements: &[ImagePlacement], present: &[bool]) -> (r: String)
        ensures
            r@ == Seq::<char>::empty(),
    {
        String::new()
    }
}

/// The backend that speaks the kitty graphics protocol.
#[derive(Clone, Debug)]
pub struct KittyBackend {
    tmux: TmuxContext,
}

impl KittyBackend {
    pub fn new(tmux: TmuxContext) -> (r: KittyBackend)
        ensures
            r.through_tmux() == in_tmux_spec(tmux@.socket, tmux@.tmux_env),
    {
        KittyBackend { tmux }
    }

    /// Whether the backend draws through tmux.
    pub closed spec fn through_tmux(&self) -> bool {
        in_tmux_spec(self.tmux@.socket, self.tmux@.tmux_env)
    }
}

/// The command for one placement.
fn place_command_exec(p: &ImagePlacement) -> (r: String)
    requires
        encode_utf8(p.path@).len() <= usize::MAX / 2,
    ensures
        r@ == place_command(*p),
{
    let payload = base64_path(p.path.as_str());
    let mut out = to_owned_string("\x1b[");
    push_decimal(&mut out, p.row as u128);
    push_str(&mut out, ";");
    push_decimal(&mut out, p.col as u128);
    push_str(&mut out, "H");
    push_str(&mut out, "\x1b_Ga=T,f=100,t=f,i=");
    push_decimal(&mut out, p.image_id as u128);
    push_str(&mut out, ",p=");
    push_decimal(&mut out, p.placement_id as u128);
    push_str(&mut out, ",c=");
    push_decimal(&mut out, p.cols as u128);
    push_str(&mut out, ",r=");
    push_decimal(&mut out, p.rows as u128);
    push_str(&mut out, ",C=1;");
    push_str(&mut out, payload.as_str());
    push_str(&mut out, "\x1b\\");
    out
}

impl ImageBackend for KittyBackend {
    fn available(&self) -> (r: bool)
        ensures
            r,
    {
        true
    }

    fn name(&self) -> (r: &'static str)
        ensures
            r@ == "kitty"@,
    {
        "kitty"
    }

    fn clear_sequence(&self) -> (r: String)
        ensures
            r@ == passthrough(self.through_tmux(), "\x1b_Ga=d,d=A\x1b\\"@),
    {
        wrap_for_tmux("\x1b_Ga=d,d=A\x1b\\", &self.tmux)
    }

    fn draw_sequence(&self, placements: &[ImagePlacement], present: &[bool]) -> (r: String)
        ensures
            r@ == passthrough(self.through_tmux(), place_commands(placements@, present@)),
    {
        let mut out = String::new();
        proof {
            assert(placements@.take(0) =~= Seq::<ImagePlacement>::empty());
        }
        let mut i: usize = 0;
        while i < placements.len()
            invariant
                i <= placements.len(),
                placements@.len() == present@.len(),
                encodable(placements@),
                out@ == place_commands(placements@.take(i as int), present@.take(i as int)),
            decreases placements.len() - i,
        {
            proof {
                assert(placements@.take(i as int + 1).drop_last() =~= placements@.take(i as int));
                assert(present@.take(i as int + 1).take(i as int) =~= present@.take(i as int));
                assert(placements@.take(i as int + 1).last() == placements@[i as int]);
            }
            if present[i] {
                proof {
                    assert(encode_utf8(placements@[i as int].path@).len() <= usize::MAX / 2);
                }
                let cmd = place_command_exec(&placements[i]);
                push_str(&mut out, cmd.as_str());
            }
            i += 1;
        }
        proof {
            assert(placements@.take(i as int) =~= placements@);
            assert(present@.take(i as int) =~= present@);
        }
        wrap_for_tmux(out.as_str(), &self.tmux)
    }
}

/// One of the backends.
#[derive(Clone, Debug)]
pub enum Backend {
    Noop(NoopBackend),
    Kitty(KittyBackend),
}

impl ImageBackend for Backend {
    fn available(&self) -> (r: bool)
        ensures
            r == (self is Kitty),
    {
        match self {
            Backend::Noop(b) => b.available(),
            Backend::Kitty(b) => b.available(),
        }
    }

    fn name(&self) -> (r: &'static str)
        ensures
            self is Noop ==> r@ == "disabled"@,
            self is Kitty ==> r@ == "kitty"@,
    {
        match self {
            Backend::Noop(b) => b.name(),
            Backend::Kitty(b) => b.name(),
        }
    }

    fn clear_sequence(&self) -> (r: String)
        ensures
            self is Noop ==> r@ == Seq::<char>::empty(),
            self matches Backend::Kitty(k) ==> r@ == passthrough(
                k.through_tmux(),
                "\x1b_Ga=d,d=A\x1b\\"@,
            ),
    {
        match self {
            Backend::Noop(b) => b.clear_sequence(),
            Backend::Kitty(b) => b.clear_sequence(),
        }
    }

    fn draw_sequence(&self, placements: &[ImagePlacement], present: &[bool]) -> (r: String)
        ensures
            self is Noop ==> r@ == Seq::<char>::empty(),
            self matches Backend::Kitty(k) ==> r@ == passthrough(
                k.through_tmux(),
                place_commands(placements@, present@),
            ),
    {
        match self {
            Backend::Noop(b) => b.draw_sequence(placements, present),
            Backend::Kitty(b) => b.draw_sequence(placements, present),
        }
    }
}

/// The backend for this terminal: the one `SS_IMAGE_BACKEND` forces, else kitty
/// graphics for kitty and ghostty, else none.
pub fn detect_backend(tmux: TmuxContext, env: &TerminalEnv) -> (r: Backend)
    ensures
        (r is Noop) == (chosen_backend(*env, false) == BackendKind::Noop),
        r matches Backend::Kitty(k) ==> k.through_tmux() == in_tmux_spec(
            tmux@.socket,
            tmux@.tmux_env,
        ),
{
    match crate::graphics::choose_backend(env, false) {
        BackendKind::Noop => Backend::Noop(NoopBackend),
        BackendKind::Kitty => Backend::Kitty(KittyBackend::new(tmux)),
    }
}

/// Where and how large to draw a slide's image at `(row, col)` in a box of
/// `width` by `height` cells: at least 10 columns and 6 rows; nothing for an
/// image without a path.
pub fn build_placement_at(image: &ImageRef, row: u16, col: u16, width: u16, height: u16) -> (r:
    Option<ImagePlacement>)
    ensures
        image.path@.len() == 0 ==> r is None,
        image.path@.len() > 0 ==> (r matches Some(p) && p.path@ == image.path@ && p.row == row
            && p.col == col && p.cols == (if width >= 10 {
            width
        } else {
            10
        }) && p.rows == (if height >= 6 {
            height
        } else {
            6
        }) && p.image_id == 1 && p.placement_id == 1),
{
    if image.path.as_str().is_empty() {
        return None;
    }
    Some(
        ImagePlacement {
            path: copy_string(&image.path),
            row,
            col,
            cols: if width >= 10 {
                width
            } else {
                10
            },
            rows: if height >= 6 {
                height
            } else {
                6
            },
            image_id: 1,
            placement_id: 1,
        },
    )
}

/// `seq` ready to be written to the terminal from the pane of `tmux`.
fn wrap_for_tmux(seq: &str, tmux: &TmuxContext) -> (r: String)
    ensures
        r@ == passthrough(in_tmux_spec(tmux@.socket, tmux@.tmux_env), seq@),
{
    wrap_for(tmux.in_tmux(), seq)
}

/// Base64 of a path's UTF-8 bytes.
fn base64_path(path: &str) -> (r: String)
    requires
        encode_utf8(path@).len() <= usize::MAX / 2,
    ensures
        r@ == base64_encode(encode_utf8(path@)),
{
    base64_standard(path.as_bytes())
}

} // verus!
