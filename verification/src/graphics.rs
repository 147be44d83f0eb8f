//! Images on the terminal: which laid-out images a view shows, which of them the
//! terminal already holds (the compositor), and the escape sequences that draw
//! and delete them.
//!
//! The compositor keeps its visible placements sorted by block, one per block,
//! as a map keyed by block would. Reconciling it with the placements a frame
//! wants retires what changed or left and draws what is new, handing each new
//! placement a fresh pair of image and placement numbers.
use crate::layout::{min, sub_sat, LaidOutImage};
use crate::markdown::{lemma_deep_view_empty, lemma_deep_view_push};
use crate::model::{AssetModel, Slide};
use crate::text::{
    contains_seq, contains_str, copy_string, decimal, lowercase, push_decimal, push_str, str_eq,
    string_is, to_lowercase, to_owned_string, trim, trim_string,
};
use crate::tmux::{in_tmux_spec, passthrough, TmuxRuntime};
use base64::Engine;
use vstd::prelude::*;
use vstd::utf8::encode_utf8;

verus! {

/// Where and how large one image is to be drawn.
#[derive(Clone, Debug)]
pub struct ImagePlacementSpec {
    pub block_id: usize,
    pub asset_path: String,
    pub row: u16,
    pub col: u16,
    pub cols: u16,
    pub rows: u16,
}

/// The numbers under which the terminal holds a drawn image.
#[derive(Clone, Debug, PartialEq, Eq)]
pub struct ImageHandle {
    pub runtime_id: String,
    pub block_id: usize,
    pub image_id: u32,
    pub placement_id: u32,
}

/// A placement together with the handle it was drawn under.
#[derive(Clone, Debug)]
pub struct OwnedPlacement {
    pub handle: ImageHandle,
    pub spec: ImagePlacementSpec,
}

/// What a reconcile asks of the terminal: handles to delete, placements to draw.
pub struct ImageDiff {
    pub retire: Vec<ImageHandle>,
    pub draw: Vec<OwnedPlacement>,
}

/// Keeps track of the images currently on screen.
///
/// The visible placements are a `Vec` sorted by block, one per block, rather
/// than a map keyed by block: every operation and every law speaks of them as
/// a sequence in block order (the order in which retired handles, new
/// placements and a clear's handles come out), and that order is the type's
/// invariant, proved by each operation. A map would hold the same entries,
/// but each walk over it would need its order tied to that sequence anew.
pub struct ImageCompositor {
    runtime_id: String,
    next_image_id: u32,
    visible: Vec<OwnedPlacement>,
}

pub struct SpecModel {
    pub block_id: usize,
    pub asset_path: Seq<char>,
    pub row: u16,
    pub col: u16,
    pub cols: u16,
    pub rows: u16,
}

pub struct HandleModel {
    pub runtime_id: Seq<char>,
    pub block_id: usize,
    pub image_id: u32,
    pub placement_id: u32,
}

pub struct OwnedModel {
    pub handle: HandleModel,
    pub spec: SpecModel,
}

pub struct DiffModel {
    pub retire: Seq<HandleModel>,
    pub draw: Seq<OwnedModel>,
}

pub struct CompositorModel {
    pub runtime_id: Seq<char>,
    pub next_id: u32,
    pub visible: Seq<OwnedModel>,
}

impl View for ImagePlacementSpec {
    type V = SpecModel;

    open spec fn view(&self) -> SpecModel {
        SpecModel {
            block_id: self.block_id,
            asset_path: self.asset_path@,
            row: self.row,
            col: self.col,
            cols: self.cols,
            rows: self.rows,
        }
    }
}

impl DeepView for ImagePlacementSpec {
    type V = SpecModel;

    open spec fn deep_view(&self) -> SpecModel {
        self@
    }
}

impl View for ImageHandle {
    type V = HandleModel;

    open spec fn view(&self) -> HandleModel {
        HandleModel {
            runtime_id: self.runtime_id@,
            block_id: self.block_id,
            image_id: self.image_id,
            placement_id: self.placement_id,
        }
    }
}

impl DeepView for ImageHandle {
    type V = HandleModel;

    open spec fn deep_view(&self) -> HandleModel {
        self@
    }
}

impl View for OwnedPlacement {
    type V = OwnedModel;

    open spec fn view(&self) -> OwnedModel {
        OwnedModel { handle: self.handle@, spec: self.spec@ }
    }
}

impl DeepView for OwnedPlacement {
    type V = OwnedModel;

    open spec fn deep_view(&self) -> OwnedModel {
        self@
    }
}

impl View for ImageDiff {
    type V = DiffModel;

    open spec fn view(&self) -> DiffModel {
        DiffModel { retire: self.retire.deep_view(), draw: self.draw.deep_view() }
    }
}

impl View for ImageCompositor {
    type V = CompositorModel;

    closed spec fn view(&self) -> CompositorModel {
        CompositorModel {
            runtime_id: self.runtime_id@,
            next_id: self.next_image_id,
            visible: self.visible.deep_view(),
        }
    }
}

// ---------------------------------------------------------------------------
// The model of reconciling
// ---------------------------------------------------------------------------

/// Two placements of one block that draw the same picture in the same cells.
pub open spec fn same_spec(a: SpecModel, b: SpecModel) -> bool {
    &&& a.asset_path == b.asset_path
    &&& a.row == b.row
    &&& a.col == b.col
    &&& a.cols == b.cols
    &&& a.rows == b.rows
}

/// Block numbers strictly increase along `s`.
pub open spec fn strictly_sorted(s: Seq<SpecModel>) -> bool {
    forall|i: int, j: int| 0 <= i < j < s.len() ==> s[i].block_id < s[j].block_id
}

/// The placements' own specs.
pub open spec fn specs_of(s: Seq<OwnedModel>) -> Seq<SpecModel> {
    s.map_values(|o: OwnedModel| o.spec)
}

/// The first position of `acc` whose block is not below `key`.
pub open spec fn first_not_less(acc: Seq<SpecModel>, key: usize) -> int
    decreases acc.len(),
{
    if acc.len() == 0 {
        0
    } else if acc[0].block_id >= key {
        0
    } else {
        1 + first_not_less(acc.drop_first(), key)
    }
}

/// `s` put into the sorted `acc`, replacing the entry of its block if there is one.
pub open spec fn insert_sorted(acc: Seq<SpecModel>, s: SpecModel) -> Seq<SpecModel> {
    let p = first_not_less(acc, s.block_id);
    if p < acc.len() && acc[p].block_id == s.block_id {
        acc.update(p, s)
    } else {
        acc.insert(p, s)
    }
}

/// The wanted placements keyed by block, in block order; a later placement of
/// a block replaces an earlier one.
pub open spec fn sorted_desired(d: Seq<SpecModel>) -> Seq<SpecModel>
    decreases d.len(),
{
    if d.len() == 0 {
        Seq::empty()
    } else {
        insert_sorted(sorted_desired(d.drop_last()), d.last())
    }
}

/// The wanted placements as a map from block to placement, the last one of a block winning.
pub open spec fn desired_map(d: Seq<SpecModel>) -> Map<usize, SpecModel>
    decreases d.len(),
{
    if d.len() == 0 {
        Map::empty()
    } else {
        desired_map(d.drop_last()).insert(d.last().block_id, d.last())
    }
}

/// The first position of `s` that holds block `key`, or -1.
pub open spec fn spec_index(s: Seq<SpecModel>, key: usize) -> int
    decreases s.len(),
{
    if s.len() == 0 {
        -1
    } else if s[0].block_id == key {
        0
    } else {
        let r = spec_index(s.drop_first(), key);
        if r < 0 {
            -1
        } else {
            r + 1
        }
    }
}

/// Whether a visible placement stays: its block is still wanted, with the same spec.
pub open spec fn kept(o: OwnedModel, ds: Seq<SpecModel>) -> bool {
    let j = spec_index(ds, o.spec.block_id);
    0 <= j && same_spec(o.spec, ds[j])
}

/// The visible placements that stay, in order.
pub open spec fn survivors(old: Seq<OwnedModel>, ds: Seq<SpecModel>) -> Seq<OwnedModel>
    decreases old.len(),
{
    if old.len() == 0 {
        Seq::empty()
    } else {
        let r = survivors(old.drop_last(), ds);
        if kept(old.last(), ds) {
            r.push(old.last())
        } else {
            r
        }
    }
}

/// The handles of the visible placements that go, in order.
pub open spec fn retired(old: Seq<OwnedModel>, ds: Seq<SpecModel>) -> Seq<HandleModel>
    decreases old.len(),
{
    if old.len() == 0 {
        Seq::empty()
    } else {
        let r = retired(old.drop_last(), ds);
        if kept(old.last(), ds) {
            r
        } else {
            r.push(old.last().handle)
        }
    }
}

/// The number after `n`, wrapping to 0.
pub open spec fn next_after(n: u32) -> u32 {
    if n == u32::MAX {
        0
    } else {
        (n + 1) as u32
    }
}

/// A new placement of `s`, drawn under image number `n` and placement number `n + 1`.
pub open spec fn fresh(rid: Seq<char>, s: SpecModel, n: u32) -> OwnedModel {
    OwnedModel {
        handle: HandleModel {
            runtime_id: rid,
            block_id: s.block_id,
            image_id: n,
            placement_id: next_after(n),
        },
        spec: s,
    }
}

/// Going through the wanted placements in block order: the new visible list,
/// the placements to draw, and the next free number.
pub open spec fn placed(ds: Seq<SpecModel>, surv: Seq<OwnedModel>, rid: Seq<char>, n: u32) -> (
    Seq<OwnedModel>,
    Seq<OwnedModel>,
    u32,
)
    decreases ds.len(),
{
    if ds.len() == 0 {
        (Seq::empty(), Seq::empty(), n)
    } else {
        let prev = placed(ds.drop_last(), surv, rid, n);
        let s = ds.last();
        let k = spec_index(specs_of(surv), s.block_id);
        if k >= 0 {
            (prev.0.push(surv[k]), prev.1, prev.2)
        } else {
            let o = fresh(rid, s, prev.2);
            (prev.0.push(o), prev.1.push(o), next_after(next_after(prev.2)))
        }
    }
}

/// The compositor after reconciling with `d`, and the diff it answers.
pub open spec fn reconcile_model(c: CompositorModel, d: Seq<SpecModel>) -> (CompositorModel, DiffModel) {
    let ds = sorted_desired(d);
    let surv = survivors(c.visible, ds);
    let p = placed(ds, surv, c.runtime_id, c.next_id);
    (
        CompositorModel { runtime_id: c.runtime_id, next_id: p.2, visible: p.0 },
        DiffModel { retire: retired(c.visible, ds), draw: p.1 },
    )
}

/// The compositor's invariant: one placement per block, in block order, each
/// under a handle of its own block and of this run.
pub open spec fn wf_model(c: CompositorModel) -> bool {
    &&& strictly_sorted(specs_of(c.visible))
    &&& forall|i: int|
        0 <= i < c.visible.len() ==> (#[trigger] c.visible[i]).handle.block_id
            == c.visible[i].spec.block_id && c.visible[i].handle.runtime_id == c.runtime_id
}

} // verus!

verus! {

// ---------------------------------------------------------------------------
// Facts about the model
// ---------------------------------------------------------------------------

proof fn lemma_first_not_less_props(acc: Seq<SpecModel>, key: usize)
    ensures
        0 <= first_not_less(acc, key) <= acc.len(),
        forall|q: int| 0 <= q < first_not_less(acc, key) ==> acc[q].block_id < key,
        first_not_less(acc, key) < acc.len() ==> acc[first_not_less(acc, key)].block_id >= key,
    decreases acc.len(),
{
    if acc.len() > 0 && acc[0].block_id < key {
        lemma_first_not_less_props(acc.drop_first(), key);
        assert forall|q: int| 0 <= q < first_not_less(acc, key) implies acc[q].block_id < key by {
            if q > 0 {
                assert(acc[q] == acc.drop_first()[q - 1]);
            }
        }
    }
}

proof fn lemma_first_not_less_at(acc: Seq<SpecModel>, key: usize, p: int)
    requires
        0 <= p <= acc.len(),
        forall|q: int| 0 <= q < p ==> acc[q].block_id < key,
        p < acc.len() ==> acc[p].block_id >= key,
    ensures
        first_not_less(acc, key) == p,
    decreases p,
{
    if p > 0 {
        assert(acc[0].block_id < key);
        let t = acc.drop_first();
        assert forall|q: int| 0 <= q < p - 1 implies t[q].block_id < key by {
            assert(t[q] == acc[q + 1]);
        }
        if p - 1 < t.len() {
            assert(t[p - 1] == acc[p]);
        }
        lemma_first_not_less_at(t, key, p - 1);
    }
}

/// Inserting into a sorted list keeps it sorted, puts `s` in, and keeps every
/// entry of another block.
proof fn lemma_insert_sorted(acc: Seq<SpecModel>, s: SpecModel)
    requires
        strictly_sorted(acc),
    ensures
        strictly_sorted(insert_sorted(acc, s)),
        insert_sorted(acc, s).contains(s),
        forall|x: SpecModel| #[trigger]
            insert_sorted(acc, s).contains(x) ==> x == s || (acc.contains(x) && x.block_id
                != s.block_id),
        forall|x: SpecModel|
            acc.contains(x) && x.block_id != s.block_id ==> #[trigger] insert_sorted(
                acc,
                s,
            ).contains(x),
{
    lemma_first_not_less_props(acc, s.block_id);
    let p = first_not_less(acc, s.block_id);
    let r = insert_sorted(acc, s);
    if p < acc.len() && acc[p].block_id == s.block_id {
        assert(r == acc.update(p, s));
        assert(r[p] == s);
        assert forall|x: SpecModel| r.contains(x) implies x == s || (acc.contains(x)
            && x.block_id != s.block_id) by {
            let i = choose|i: int| 0 <= i < r.len() && r[i] == x;
            if i != p {
                assert(acc[i] == x);
                if i < p {
                    assert(acc[i].block_id < acc[p].block_id);
                } else {
                    assert(acc[p].block_id < acc[i].block_id);
                }
            }
        }
        assert forall|x: SpecModel| acc.contains(x) && x.block_id != s.block_id implies r.contains(
            x,
        ) by {
            let i = choose|i: int| 0 <= i < acc.len() && acc[i] == x;
            assert(i != p);
            assert(r[i] == x);
        }
    } else {
        assert(r == acc.insert(p, s));
        assert(r[p] == s);
        assert forall|i: int, j: int| 0 <= i < j < r.len() implies r[i].block_id
            < r[j].block_id by {
            if j < p {
                assert(r[i] == acc[i] && r[j] == acc[j]);
            } else if j == p {
                assert(r[i] == acc[i]);
            } else if i == p {
                assert(r[j] == acc[j - 1]);
                assert(acc[p].block_id >= s.block_id);
                if j - 1 > p {
                    assert(acc[p].block_id < acc[j - 1].block_id);
                }
            } else if i < p {
                assert(r[i] == acc[i] && r[j] == acc[j - 1]);
            } else {
                assert(r[i] == acc[i - 1] && r[j] == acc[j - 1]);
            }
        }
        assert forall|x: SpecModel| r.contains(x) implies x == s || (acc.contains(x)
            && x.block_id != s.block_id) by {
            let i = choose|i: int| 0 <= i < r.len() && r[i] == x;
            if i < p {
                assert(acc[i] == x);
            } else if i > p {
                assert(acc[i - 1] == x);
                assert(acc[p].block_id >= s.block_id);
                if i - 1 > p {
                    assert(acc[p].block_id < acc[i - 1].block_id);
                }
            }
        }
        assert forall|x: SpecModel| acc.contains(x) && x.block_id != s.block_id implies r.contains(
            x,
        ) by {
            let i = choose|i: int| 0 <= i < acc.len() && acc[i] == x;
            if i < p {
                assert(r[i] == x);
            } else {
                assert(r[i + 1] == x);
            }
        }
    }
}

/// The wanted placements in block order are exactly the map from block to the
/// last placement wanted for it: sorted, one per block, nothing lost.
pub proof fn lemma_sorted_desired(d: Seq<SpecModel>)
    ensures
        strictly_sorted(sorted_desired(d)),
        forall|j: int|
            0 <= j < sorted_desired(d).len() ==> desired_map(d).contains_key(
                (#[trigger] sorted_desired(d)[j]).block_id,
            ) && desired_map(d)[sorted_desired(d)[j].block_id] == sorted_desired(d)[j],
        forall|k: usize| #[trigger]
            desired_map(d).contains_key(k) ==> exists|j: int|
                0 <= j < sorted_desired(d).len() && (#[trigger] sorted_desired(d)[j]).block_id
                    == k,
    decreases d.len(),
{
    if d.len() > 0 {
        let prev = d.drop_last();
        lemma_sorted_desired(prev);
        let acc = sorted_desired(prev);
        let s = d.last();
        lemma_insert_sorted(acc, s);
        let r = sorted_desired(d);
        let m = desired_map(d);
        assert(r == insert_sorted(acc, s));
        assert forall|j: int| 0 <= j < r.len() implies m.contains_key(
            (#[trigger] r[j]).block_id,
        ) && m[r[j].block_id] == r[j] by {
            assert(r.contains(r[j]));
            if r[j] != s {
                let i = choose|i: int| 0 <= i < acc.len() && acc[i] == r[j];
                assert(acc[i] == r[j]);
            }
        }
        assert forall|k: usize| #[trigger] m.contains_key(k) implies exists|j: int|
            0 <= j < r.len() && (#[trigger] r[j]).block_id == k by {
            if k == s.block_id {
                let j = choose|j: int| 0 <= j < r.len() && r[j] == s;
                assert(r[j].block_id == k);
            } else {
                assert(desired_map(prev).contains_key(k));
                let i = choose|i: int| 0 <= i < acc.len() && (#[trigger] acc[i]).block_id == k;
                assert(acc.contains(acc[i]));
                assert(r.contains(acc[i]));
                let j = choose|j: int| 0 <= j < r.len() && r[j] == acc[i];
                assert(r[j].block_id == k);
            }
        }
    }
}

proof fn lemma_spec_index_props(s: Seq<SpecModel>, key: usize)
    ensures
        -1 <= spec_index(s, key) < s.len(),
        spec_index(s, key) >= 0 ==> s[spec_index(s, key)].block_id == key,
        forall|q: int| 0 <= q < s.len() && q < spec_index(s, key) ==> s[q].block_id != key,
        spec_index(s, key) < 0 ==> forall|q: int| 0 <= q < s.len() ==> s[q].block_id != key,
    decreases s.len(),
{
    if s.len() > 0 && s[0].block_id != key {
        let t = s.drop_first();
        lemma_spec_index_props(t, key);
        assert forall|q: int| 0 <= q < s.len() && q < spec_index(s, key) implies s[q].block_id
            != key by {
            if q > 0 {
                assert(s[q] == t[q - 1]);
            }
        }
        if spec_index(s, key) < 0 {
            assert forall|q: int| 0 <= q < s.len() implies s[q].block_id != key by {
                if q > 0 {
                    assert(s[q] == t[q - 1]);
                }
            }
        }
    }
}

proof fn lemma_spec_index_at(s: Seq<SpecModel>, key: usize, i: int)
    requires
        0 <= i <= s.len(),
        forall|q: int| 0 <= q < i ==> s[q].block_id != key,
        i < s.len() ==> s[i].block_id == key,
    ensures
        spec_index(s, key) == (if i < s.len() {
            i
        } else {
            -1
        }),
    decreases i,
{
    if i > 0 {
        let t = s.drop_first();
        assert(s[0].block_id != key);
        assert forall|q: int| 0 <= q < i - 1 implies t[q].block_id != key by {
            assert(t[q] == s[q + 1]);
        }
        if i - 1 < t.len() {
            assert(t[i - 1] == s[i]);
        }
        lemma_spec_index_at(t, key, i - 1);
    }
}

/// In a sorted list the position of an entry's block is the entry's position.
proof fn lemma_spec_index_sorted(s: Seq<SpecModel>, j: int)
    requires
        strictly_sorted(s),
        0 <= j < s.len(),
    ensures
        spec_index(s, s[j].block_id) == j,
{
    assert forall|q: int| 0 <= q < j implies s[q].block_id != s[j].block_id by {
        assert(s[q].block_id < s[j].block_id);
    }
    lemma_spec_index_at(s, s[j].block_id, j);
}

proof fn lemma_survivors(old: Seq<OwnedModel>, ds: Seq<SpecModel>)
    ensures
        forall|i: int|
            0 <= i < survivors(old, ds).len() ==> kept(#[trigger] survivors(old, ds)[i], ds)
                && old.contains(survivors(old, ds)[i]),
        forall|i: int|
            0 <= i < old.len() && kept(#[trigger] old[i], ds) ==> survivors(old, ds).contains(
                old[i],
            ),
        (forall|i: int| 0 <= i < old.len() ==> kept(#[trigger] old[i], ds)) ==> survivors(old, ds)
            == old,
        (forall|i: int| 0 <= i < old.len() ==> kept(#[trigger] old[i], ds)) ==> retired(old, ds)
            == Seq::<HandleModel>::empty(),
    decreases old.len(),
{
    if old.len() > 0 {
        let prev = old.drop_last();
        lemma_survivors(prev, ds);
        let r = survivors(old, ds);
        let rp = survivors(prev, ds);
        assert forall|i: int| 0 <= i < r.len() implies kept(#[trigger] r[i], ds) && old.contains(
            r[i],
        ) by {
            if i < rp.len() {
                assert(r[i] == rp[i]);
                let m = choose|m: int| 0 <= m < prev.len() && prev[m] == rp[i];
                assert(old[m] == prev[m]);
            } else {
                assert(r[i] == old.last());
                assert(old[old.len() - 1] == old.last());
            }
        }
        assert forall|i: int| 0 <= i < old.len() && kept(#[trigger] old[i], ds) implies r.contains(
            old[i],
        ) by {
            if i < prev.len() {
                assert(prev[i] == old[i]);
                let m = choose|m: int| 0 <= m < rp.len() && rp[m] == prev[i];
                assert(r[m] == rp[m]);
            } else {
                assert(old[i] == old.last());
                assert(r[r.len() - 1] == old.last());
            }
        }
        if forall|i: int| 0 <= i < old.len() ==> kept(#[trigger] old[i], ds) {
            assert forall|i: int| 0 <= i < prev.len() implies kept(#[trigger] prev[i], ds) by {
                assert(prev[i] == old[i]);
            }
            assert(kept(old[old.len() - 1], ds));
            assert(old =~= prev.push(old.last()));
        }
    }
}

/// What `placed` makes of each wanted placement: the survivor of its block if
/// there is one, else a fresh placement of it; and nothing is drawn when every
/// block has a survivor.
proof fn lemma_placed(ds: Seq<SpecModel>, surv: Seq<OwnedModel>, rid: Seq<char>, n: u32)
    ensures
        placed(ds, surv, rid, n).0.len() == ds.len(),
        forall|j: int|
            0 <= j < ds.len() && spec_index(specs_of(surv), ds[j].block_id) >= 0 ==> (#[trigger] placed(
                ds,
                surv,
                rid,
                n,
            ).0[j]) == surv[spec_index(specs_of(surv), ds[j].block_id)],
        forall|j: int|
            0 <= j < ds.len() && spec_index(specs_of(surv), ds[j].block_id) < 0 ==> (#[trigger] placed(
                ds,
                surv,
                rid,
                n,
            ).0[j]).spec == ds[j] && placed(ds, surv, rid, n).0[j].handle.block_id
                == ds[j].block_id && placed(ds, surv, rid, n).0[j].handle.runtime_id == rid,
        (forall|j: int|
            0 <= j < ds.len() ==> spec_index(specs_of(surv), (#[trigger] ds[j]).block_id) >= 0)
            ==> placed(ds, surv, rid, n).1 == Seq::<OwnedModel>::empty() && placed(
            ds,
            surv,
            rid,
            n,
        ).2 == n,
    decreases ds.len(),
{
    if ds.len() > 0 {
        let prev = ds.drop_last();
        lemma_placed(prev, surv, rid, n);
        let p = placed(ds, surv, rid, n);
        let pp = placed(prev, surv, rid, n);
        assert forall|j: int| 0 <= j < prev.len() implies #[trigger] p.0[j] == pp.0[j] by {}
        assert forall|j: int| 0 <= j < prev.len() implies #[trigger] prev[j] == ds[j] by {}
        if forall|j: int|
            0 <= j < ds.len() ==> spec_index(specs_of(surv), (#[trigger] ds[j]).block_id) >= 0 {
            assert forall|j: int| 0 <= j < prev.len() implies spec_index(
                specs_of(surv),
                (#[trigger] prev[j]).block_id,
            ) >= 0 by {
                assert(prev[j] == ds[j]);
            }
            assert(spec_index(specs_of(surv), ds[ds.len() - 1].block_id) >= 0);
        }
    }
}

} // verus!

verus! {

// ---------------------------------------------------------------------------
// Laws of the compositor
// ---------------------------------------------------------------------------

/// After a reconcile the compositor shows exactly the wanted placements: one per
/// wanted block, in block order, each the last placement wanted for its block;
/// and it stays well formed.
pub proof fn lemma_reconcile_shows_desired(c: CompositorModel, d: Seq<SpecModel>)
    requires
        wf_model(c),
    ensures
        wf_model(reconcile_model(c, d).0),
        specs_of(reconcile_model(c, d).0.visible) == sorted_desired(d),
        forall|j: int|
            0 <= j < reconcile_model(c, d).0.visible.len() ==> desired_map(d)[(#[trigger] reconcile_model(
                c,
                d,
            ).0.visible[j]).spec.block_id] == reconcile_model(c, d).0.visible[j].spec,
        forall|k: usize| #[trigger]
            desired_map(d).contains_key(k) ==> exists|j: int|
                0 <= j < reconcile_model(c, d).0.visible.len() && (#[trigger] reconcile_model(
                    c,
                    d,
                ).0.visible[j]).spec.block_id == k,
{
    let ds = sorted_desired(d);
    lemma_sorted_desired(d);
    let surv = survivors(c.visible, ds);
    lemma_survivors(c.visible, ds);
    let p = placed(ds, surv, c.runtime_id, c.next_id);
    lemma_placed(ds, surv, c.runtime_id, c.next_id);
    let v = p.0;
    assert forall|j: int| 0 <= j < ds.len() implies (#[trigger] v[j]).spec == ds[j]
        && v[j].handle.block_id == v[j].spec.block_id && v[j].handle.runtime_id == c.runtime_id by {
        let k = spec_index(specs_of(surv), ds[j].block_id);
        lemma_spec_index_props(specs_of(surv), ds[j].block_id);
        if k >= 0 {
            let o = surv[k];
            assert(specs_of(surv)[k] == o.spec);
            assert(kept(o, ds));
            lemma_spec_index_sorted(ds, j);
            assert(c.visible.contains(o));
        }
    }
    assert(specs_of(v) =~= ds);
    assert forall|j: int| 0 <= j < v.len() implies desired_map(d)[(#[trigger] v[j]).spec.block_id]
        == v[j].spec by {
        assert(v[j].spec == ds[j]);
    }
    assert forall|k: usize| #[trigger] desired_map(d).contains_key(k) implies exists|j: int|
        0 <= j < v.len() && (#[trigger] v[j]).spec.block_id == k by {
        let j = choose|j: int| 0 <= j < ds.len() && (#[trigger] ds[j]).block_id == k;
        assert(v[j].spec == ds[j]);
    }
}

/// A placement that is still wanted unchanged stays on screen under its old
/// handle: it is neither retired nor drawn again.
pub proof fn lemma_reconcile_keeps_unchanged(c: CompositorModel, d: Seq<SpecModel>, i: int)
    requires
        wf_model(c),
        0 <= i < c.visible.len(),
        kept(c.visible[i], sorted_desired(d)),
    ensures
        reconcile_model(c, d).0.visible.contains(c.visible[i]),
        !reconcile_model(c, d).1.draw.contains(c.visible[i]),
{
    let ds = sorted_desired(d);
    lemma_sorted_desired(d);
    let surv = survivors(c.visible, ds);
    lemma_survivors(c.visible, ds);
    let p = placed(ds, surv, c.runtime_id, c.next_id);
    lemma_placed(ds, surv, c.runtime_id, c.next_id);
    let o = c.visible[i];
    let key = o.spec.block_id;
    lemma_spec_index_props(ds, key);
    let j = spec_index(ds, key);
    assert(surv.contains(o));
    let m = choose|m: int| 0 <= m < surv.len() && surv[m] == o;
    assert(specs_of(surv)[m].block_id == key);
    lemma_spec_index_props(specs_of(surv), key);
    let k = spec_index(specs_of(surv), key);
    assert(k >= 0);
    assert(ds[j].block_id == key);
    assert(surv[k].spec.block_id == key);
    // both survivors come from the visible list, where blocks are unique
    assert(c.visible.contains(surv[k]));
    let a = choose|a: int| 0 <= a < c.visible.len() && c.visible[a] == surv[k];
    if a != i {
        assert(specs_of(c.visible)[a] == c.visible[a].spec);
        assert(specs_of(c.visible)[i] == c.visible[i].spec);
        if a < i {
            assert(specs_of(c.visible)[a].block_id < specs_of(c.visible)[i].block_id);
        } else {
            assert(specs_of(c.visible)[i].block_id < specs_of(c.visible)[a].block_id);
        }
    }
    assert(p.0[j] == o);
    lemma_placed_draws(ds, surv, c.runtime_id, c.next_id);
    if p.1.contains(o) {
        let q = choose|q: int| 0 <= q < p.1.len() && p.1[q] == o;
        assert(spec_index(specs_of(surv), p.1[q].spec.block_id) < 0);
    }
}

/// Whatever is drawn is a placement of a block that had no survivor.
proof fn lemma_placed_draws(ds: Seq<SpecModel>, surv: Seq<OwnedModel>, rid: Seq<char>, n: u32)
    ensures
        forall|q: int|
            0 <= q < placed(ds, surv, rid, n).1.len() ==> spec_index(
                specs_of(surv),
                (#[trigger] placed(ds, surv, rid, n).1[q]).spec.block_id,
            ) < 0,
    decreases ds.len(),
{
    if ds.len() > 0 {
        lemma_placed_draws(ds.drop_last(), surv, rid, n);
        let pp = placed(ds.drop_last(), surv, rid, n);
        let p = placed(ds, surv, rid, n);
        assert forall|q: int| 0 <= q < p.1.len() implies spec_index(
            specs_of(surv),
            (#[trigger] p.1[q]).spec.block_id,
        ) < 0 by {
            if q < pp.1.len() {
                assert(p.1[q] == pp.1[q]);
            }
        }
    }
}

/// The visible images hold distinct image numbers, all below the next one.
pub open spec fn ids_fresh(c: CompositorModel) -> bool {
    &&& forall|i: int| 0 <= i < c.visible.len() ==> (#[trigger] c.visible[i]).handle.image_id < c.next_id
    &&& forall|i: int, j: int|
        0 <= i < j < c.visible.len() ==> (#[trigger] c.visible[i]).handle.image_id
            != (#[trigger] c.visible[j]).handle.image_id
}

proof fn lemma_sorted_desired_len(d: Seq<SpecModel>)
    ensures
        sorted_desired(d).len() <= d.len(),
    decreases d.len(),
{
    if d.len() > 0 {
        lemma_sorted_desired_len(d.drop_last());
        let acc = sorted_desired(d.drop_last());
        lemma_first_not_less_props(acc, d.last().block_id);
    }
}

/// The survivors keep the visible list's order of blocks and its distinct
/// image numbers below `n`.
proof fn lemma_survivors_fresh(old: Seq<OwnedModel>, ds: Seq<SpecModel>, n: u32)
    requires
        strictly_sorted(specs_of(old)),
        forall|i: int| 0 <= i < old.len() ==> (#[trigger] old[i]).handle.image_id < n,
        forall|i: int, j: int|
            0 <= i < j < old.len() ==> (#[trigger] old[i]).handle.image_id
                != (#[trigger] old[j]).handle.image_id,
    ensures
        strictly_sorted(specs_of(survivors(old, ds))),
        forall|i: int|
            0 <= i < survivors(old, ds).len() ==> (#[trigger] survivors(old, ds)[i]).handle.image_id
                < n,
        forall|i: int, j: int|
            0 <= i < j < survivors(old, ds).len() ==> (#[trigger] survivors(old, ds)[i]).handle.image_id
                != (#[trigger] survivors(old, ds)[j]).handle.image_id,
    decreases old.len(),
{
    if old.len() > 0 {
        let prev = old.drop_last();
        assert forall|i: int, j: int| 0 <= i < j < prev.len() implies (#[trigger] specs_of(prev)[i]).block_id
            < (#[trigger] specs_of(prev)[j]).block_id by {
            assert(specs_of(prev)[i] == specs_of(old)[i]);
            assert(specs_of(prev)[j] == specs_of(old)[j]);
        }
        lemma_survivors_fresh(prev, ds, n);
        lemma_survivors(prev, ds);
        let rp = survivors(prev, ds);
        let r = survivors(old, ds);
        let x = old.last();
        if kept(x, ds) {
            assert(r == rp.push(x));
            assert forall|i: int| 0 <= i < rp.len() implies rp[i].spec.block_id < x.spec.block_id
                && rp[i].handle.image_id != x.handle.image_id by {
                let m = choose|m: int| 0 <= m < prev.len() && prev[m] == rp[i];
                assert(old[m] == prev[m]);
                assert(specs_of(old)[m].block_id < specs_of(old)[old.len() - 1].block_id);
                assert(old[old.len() - 1] == x);
            }
            assert forall|i: int, j: int| 0 <= i < j < r.len() implies (#[trigger] specs_of(r)[i]).block_id
                < (#[trigger] specs_of(r)[j]).block_id by {
                if j < rp.len() {
                    assert(specs_of(r)[i] == specs_of(rp)[i]);
                    assert(specs_of(r)[j] == specs_of(rp)[j]);
                } else {
                    assert(r[i] == rp[i]);
                }
            }
            assert forall|i: int, j: int| 0 <= i < j < r.len() implies (#[trigger] r[i]).handle.image_id
                != (#[trigger] r[j]).handle.image_id by {
                if j < rp.len() {
                    assert(r[i] == rp[i] && r[j] == rp[j]);
                } else {
                    assert(r[i] == rp[i]);
                }
            }
            assert(old[old.len() - 1] == x);
        }
    }
}

/// How `placed` numbers images: survivors keep theirs (below `n`), new ones
/// get numbers from `n` on, and no two placements share one.
proof fn lemma_placed_fresh(ds: Seq<SpecModel>, surv: Seq<OwnedModel>, rid: Seq<char>, n: u32)
    requires
        strictly_sorted(ds),
        strictly_sorted(specs_of(surv)),
        forall|i: int| 0 <= i < surv.len() ==> (#[trigger] surv[i]).handle.image_id < n,
        forall|i: int, j: int|
            0 <= i < j < surv.len() ==> (#[trigger] surv[i]).handle.image_id
                != (#[trigger] surv[j]).handle.image_id,
        n + 2 * ds.len() <= u32::MAX,
    ensures
        n <= placed(ds, surv, rid, n).2 <= n + 2 * ds.len(),
        forall|j: int|
            0 <= j < placed(ds, surv, rid, n).0.len() ==> (#[trigger] placed(ds, surv, rid, n).0[j]).handle.image_id
                < placed(ds, surv, rid, n).2,
        forall|j: int|
            0 <= j < ds.len() && spec_index(specs_of(surv), ds[j].block_id) < 0 ==> n
                <= (#[trigger] placed(ds, surv, rid, n).0[j]).handle.image_id,
        forall|i: int, j: int|
            0 <= i < j < placed(ds, surv, rid, n).0.len() ==> (#[trigger] placed(ds, surv, rid, n).0[i]).handle.image_id
                != (#[trigger] placed(ds, surv, rid, n).0[j]).handle.image_id,
        forall|q: int|
            0 <= q < placed(ds, surv, rid, n).1.len() ==> n <= (#[trigger] placed(
                ds,
                surv,
                rid,
                n,
            ).1[q]).handle.image_id,
    decreases ds.len(),
{
    lemma_placed(ds, surv, rid, n);
    if ds.len() > 0 {
        let prev = ds.drop_last();
        assert forall|i: int, j: int| 0 <= i < j < prev.len() implies prev[i].block_id
            < prev[j].block_id by {
            assert(prev[i] == ds[i] && prev[j] == ds[j]);
        }
        lemma_placed_fresh(prev, surv, rid, n);
        lemma_placed(prev, surv, rid, n);
        let pp = placed(prev, surv, rid, n);
        let p = placed(ds, surv, rid, n);
        let s = ds.last();
        let k = spec_index(specs_of(surv), s.block_id);
        lemma_spec_index_props(specs_of(surv), s.block_id);
        assert forall|j: int| 0 <= j < prev.len() implies #[trigger] p.0[j] == pp.0[j] by {}
        if k >= 0 {
            assert(p.0 == pp.0.push(surv[k]));
            assert(surv[k].handle.image_id < n);
            assert forall|i: int| 0 <= i < pp.0.len() implies pp.0[i].handle.image_id
                != surv[k].handle.image_id by {
                let ki = spec_index(specs_of(surv), ds[i].block_id);
                lemma_spec_index_props(specs_of(surv), ds[i].block_id);
                assert(prev[i] == ds[i]);
                if ki >= 0 {
                    assert(pp.0[i] == surv[ki]);
                    assert(ds[i].block_id < s.block_id);
                    assert(specs_of(surv)[ki].block_id == ds[i].block_id);
                    assert(specs_of(surv)[k].block_id == s.block_id);
                    assert(ki != k);
                } else {
                    assert(n <= pp.0[i].handle.image_id);
                }
            }
            assert forall|i: int, j: int| 0 <= i < j < p.0.len() implies (#[trigger] p.0[i]).handle.image_id
                != (#[trigger] p.0[j]).handle.image_id by {
                if j < pp.0.len() {
                    assert(p.0[i] == pp.0[i] && p.0[j] == pp.0[j]);
                } else {
                    assert(p.0[i] == pp.0[i]);
                }
            }
            assert forall|j: int|
                0 <= j < ds.len() && spec_index(specs_of(surv), ds[j].block_id) < 0 implies n
                    <= (#[trigger] p.0[j]).handle.image_id by {
                if j < prev.len() {
                    assert(prev[j] == ds[j]);
                }
            }
        } else {
            let o = fresh(rid, s, pp.2);
            assert(p.0 == pp.0.push(o));
            assert(pp.2 + 2 <= u32::MAX);
            assert forall|i: int, j: int| 0 <= i < j < p.0.len() implies (#[trigger] p.0[i]).handle.image_id
                != (#[trigger] p.0[j]).handle.image_id by {
                if j < pp.0.len() {
                    assert(p.0[i] == pp.0[i] && p.0[j] == pp.0[j]);
                } else {
                    assert(p.0[i] == pp.0[i]);
                }
            }
            assert forall|j: int|
                0 <= j < ds.len() && spec_index(specs_of(surv), ds[j].block_id) < 0 implies n
                    <= (#[trigger] p.0[j]).handle.image_id by {
                if j < prev.len() {
                    assert(prev[j] == ds[j]);
                }
            }
            assert forall|q: int| 0 <= q < p.1.len() implies n <= (#[trigger] p.1[q]).handle.image_id by {
                if q < pp.1.len() {
                    assert(p.1[q] == pp.1[q]);
                }
            }
        }
    }
}

/// New images are drawn under numbers that no image on screen holds: after a
/// reconcile the visible images still hold distinct numbers below the next
/// one, and every image drawn has a number at or above the old next one
/// (while the numbers do not run past `u32::MAX`).
pub proof fn lemma_reconcile_fresh_ids(c: CompositorModel, d: Seq<SpecModel>)
    requires
        wf_model(c),
        ids_fresh(c),
        c.next_id + 2 * d.len() <= u32::MAX,
    ensures
        ids_fresh(reconcile_model(c, d).0),
        forall|q: int|
            0 <= q < reconcile_model(c, d).1.draw.len() ==> c.next_id <= (
            #[trigger] reconcile_model(c, d).1.draw[q]).handle.image_id,
{
    let ds = sorted_desired(d);
    lemma_sorted_desired(d);
    lemma_sorted_desired_len(d);
    let surv = survivors(c.visible, ds);
    lemma_survivors_fresh(c.visible, ds, c.next_id);
    lemma_placed_fresh(ds, surv, c.runtime_id, c.next_id);
}

/// Reconciling a second time with the same placements changes nothing and asks
/// the terminal for nothing.
pub proof fn lemma_reconcile_twice(c: CompositorModel, d: Seq<SpecModel>)
    requires
        wf_model(c),
    ensures
        reconcile_model(reconcile_model(c, d).0, d).0 == reconcile_model(c, d).0,
        reconcile_model(reconcile_model(c, d).0, d).1.retire.len() == 0,
        reconcile_model(reconcile_model(c, d).0, d).1.draw.len() == 0,
{
    lemma_reconcile_shows_desired(c, d);
    let c1 = reconcile_model(c, d).0;
    let ds = sorted_desired(d);
    lemma_sorted_desired(d);
    assert forall|i: int| 0 <= i < c1.visible.len() implies kept(#[trigger] c1.visible[i], ds) by {
        assert(specs_of(c1.visible)[i] == c1.visible[i].spec);
        lemma_spec_index_sorted(ds, i);
    }
    lemma_survivors(c1.visible, ds);
    assert(survivors(c1.visible, ds) == c1.visible);
    lemma_placed(ds, c1.visible, c1.runtime_id, c1.next_id);
    assert forall|j: int| 0 <= j < ds.len() implies spec_index(
        specs_of(c1.visible),
        (#[trigger] ds[j]).block_id,
    ) >= 0 by {
        lemma_spec_index_sorted(ds, j);
    }
    let p = placed(ds, c1.visible, c1.runtime_id, c1.next_id);
    assert forall|j: int| 0 <= j < ds.len() implies #[trigger] p.0[j] == c1.visible[j] by {
        lemma_spec_index_sorted(ds, j);
    }
    assert(p.0 =~= c1.visible);
}

/// The handles `placed` draws under: the `q`-th new placement gets image
/// number `n + 2q` and placement number `n + 2q + 1`, under `rid` and its own
/// block; the next free number is `n` plus twice the number drawn.
proof fn lemma_placed_numbers(ds: Seq<SpecModel>, surv: Seq<OwnedModel>, rid: Seq<char>, n: u32)
    requires
        n + 2 * placed(ds, surv, rid, n).1.len() <= u32::MAX,
    ensures
        placed(ds, surv, rid, n).2 == n + 2 * placed(ds, surv, rid, n).1.len(),
        forall|q: int|
            0 <= q < placed(ds, surv, rid, n).1.len() ==> (#[trigger] placed(ds, surv, rid, n).1[q]).handle
                == (HandleModel {
                runtime_id: rid,
                block_id: placed(ds, surv, rid, n).1[q].spec.block_id,
                image_id: (n + 2 * q) as u32,
                placement_id: (n + 2 * q + 1) as u32,
            }),
    decreases ds.len(),
{
    if ds.len() > 0 {
        let prev = ds.drop_last();
        let pp = placed(prev, surv, rid, n);
        let p = placed(ds, surv, rid, n);
        assert(pp.1.len() <= p.1.len());
        lemma_placed_numbers(prev, surv, rid, n);
        let k = spec_index(specs_of(surv), ds.last().block_id);
        if k < 0 {
            assert(p.1 == pp.1.push(fresh(rid, ds.last(), pp.2)));
            assert forall|q: int| 0 <= q < p.1.len() implies (#[trigger] p.1[q]).handle
                == (HandleModel {
                runtime_id: rid,
                block_id: p.1[q].spec.block_id,
                image_id: (n + 2 * q) as u32,
                placement_id: (n + 2 * q + 1) as u32,
            }) by {
                if q < pp.1.len() {
                    assert(p.1[q] == pp.1[q]);
                }
            }
        }
    }
}

/// One call made on a compositor: a reconcile with the wanted placements, or a clear.
pub enum CompositorStep {
    Reconcile(Seq<SpecModel>),
    Clear,
}

/// The compositor a run starts from: nothing on screen, numbers from 1.
pub open spec fn fresh_compositor(rid: Seq<char>) -> CompositorModel {
    CompositorModel { runtime_id: rid, next_id: 1, visible: Seq::empty() }
}

/// The compositor after a clear: nothing on screen, the numbering kept.
pub open spec fn cleared(c: CompositorModel) -> CompositorModel {
    CompositorModel { runtime_id: c.runtime_id, next_id: c.next_id, visible: Seq::empty() }
}

/// The compositor after the calls `steps`, and every placement the reconciles
/// drew, in drawing order.
pub open spec fn run_steps(c: CompositorModel, steps: Seq<CompositorStep>) -> (
    CompositorModel,
    Seq<OwnedModel>,
)
    decreases steps.len(),
{
    if steps.len() == 0 {
        (c, Seq::empty())
    } else {
        let prev = run_steps(c, steps.drop_last());
        match steps.last() {
            CompositorStep::Reconcile(d) => {
                let r = reconcile_model(prev.0, d);
                (r.0, prev.1 + r.1.draw)
            },
            CompositorStep::Clear => (cleared(prev.0), prev.1),
        }
    }
}

/// Image numbers over any run of reconciles and clears from a new compositor:
/// the `i`-th placement drawn gets image number `2i + 1` and placement number
/// `2i + 2`, under the run's id and its own block, so the numbers go 1, 3, 5,
/// ... in drawing order and none is used twice, not even after a clear; the
/// next free number is one past the last handed out. This holds while fewer
/// than 2^31 placements are drawn in all.
pub proof fn lemma_run_numbering(rid: Seq<char>, steps: Seq<CompositorStep>)
    requires
        run_steps(fresh_compositor(rid), steps).1.len() < 0x8000_0000,
    ensures
        run_steps(fresh_compositor(rid), steps).0.runtime_id == rid,
        run_steps(fresh_compositor(rid), steps).0.next_id == 2 * run_steps(
            fresh_compositor(rid),
            steps,
        ).1.len() + 1,
        forall|i: int|
            0 <= i < run_steps(fresh_compositor(rid), steps).1.len() ==> (#[trigger] run_steps(
                fresh_compositor(rid),
                steps,
            ).1[i]).handle == (HandleModel {
                runtime_id: rid,
                block_id: run_steps(fresh_compositor(rid), steps).1[i].spec.block_id,
                image_id: (2 * i + 1) as u32,
                placement_id: (2 * i + 2) as u32,
            }),
        forall|i: int, j: int|
            0 <= i < j < run_steps(fresh_compositor(rid), steps).1.len() ==> (#[trigger] run_steps(
                fresh_compositor(rid),
                steps,
            ).1[i]).handle.image_id < (#[trigger] run_steps(
                fresh_compositor(rid),
                steps,
            ).1[j]).handle.image_id,
    decreases steps.len(),
{
    let c0 = fresh_compositor(rid);
    let r = run_steps(c0, steps);
    if steps.len() > 0 {
        let prev = run_steps(c0, steps.drop_last());
        assert(prev.1.len() <= r.1.len());
        lemma_run_numbering(rid, steps.drop_last());
        match steps.last() {
            CompositorStep::Reconcile(d) => {
                let c = prev.0;
                let ds = sorted_desired(d);
                let surv = survivors(c.visible, ds);
                let p = placed(ds, surv, c.runtime_id, c.next_id);
                assert(r.1 == prev.1 + p.1);
                lemma_placed_numbers(ds, surv, c.runtime_id, c.next_id);
                assert forall|i: int| 0 <= i < r.1.len() implies (#[trigger] r.1[i]).handle
                    == (HandleModel {
                    runtime_id: rid,
                    block_id: r.1[i].spec.block_id,
                    image_id: (2 * i + 1) as u32,
                    placement_id: (2 * i + 2) as u32,
                }) by {
                    if i < prev.1.len() {
                        assert(r.1[i] == prev.1[i]);
                    } else {
                        assert(r.1[i] == p.1[i - prev.1.len()]);
                    }
                }
            },
            CompositorStep::Clear => {},
        }
    }
}

} // verus!

verus! {

// ---------------------------------------------------------------------------
// The compositor
// ---------------------------------------------------------------------------

proof fn lemma_deep_view_insert<T: DeepView>(old_v: Vec<T>, new_v: Vec<T>, i: int, x: T)
    requires
        0 <= i <= old_v@.len(),
        new_v@ == old_v@.insert(i, x),
    ensures
        new_v.deep_view() == old_v.deep_view().insert(i, x.deep_view()),
{
    assert(new_v.deep_view() =~= old_v.deep_view().insert(i, x.deep_view()));
}

proof fn lemma_deep_view_remove<T: DeepView>(old_v: Vec<T>, new_v: Vec<T>, i: int)
    requires
        0 <= i < old_v@.len(),
        new_v@ == old_v@.remove(i),
    ensures
        new_v.deep_view() == old_v.deep_view().remove(i),
{
    assert(new_v.deep_view() =~= old_v.deep_view().remove(i));
}

impl ImagePlacementSpec {
    /// A copy of this placement.
    pub fn copy(&self) -> (r: ImagePlacementSpec)
        ensures
            r@ == self@,
    {
        ImagePlacementSpec {
            block_id: self.block_id,
            asset_path: copy_string(&self.asset_path),
            row: self.row,
            col: self.col,
            cols: self.cols,
            rows: self.rows,
        }
    }
}

impl ImageHandle {
    /// A copy of this handle.
    pub fn copy(&self) -> (r: ImageHandle)
        ensures
            r@ == self@,
    {
        ImageHandle {
            runtime_id: copy_string(&self.runtime_id),
            block_id: self.block_id,
            image_id: self.image_id,
            placement_id: self.placement_id,
        }
    }
}

impl OwnedPlacement {
    /// A copy of this placement and its handle.
    pub fn copy(&self) -> (r: OwnedPlacement)
        ensures
            r@ == self@,
    {
        OwnedPlacement { handle: self.handle.copy(), spec: self.spec.copy() }
    }
}

/// Whether two placements draw the same picture in the same cells.
fn same_spec_exec(a: &ImagePlacementSpec, b: &ImagePlacementSpec) -> (r: bool)
    ensures
        r == same_spec(a@, b@),
{
    str_eq(a.asset_path.as_str(), b.asset_path.as_str()) && a.row == b.row && a.col == b.col
        && a.cols == b.cols && a.rows == b.rows
}

/// The position of block `key` in a list of placements.
fn find_spec(s: &Vec<ImagePlacementSpec>, key: usize) -> (r: Option<usize>)
    ensures
        r matches Some(i) ==> i == spec_index(s.deep_view(), key) && i < s.len(),
        r is None ==> spec_index(s.deep_view(), key) < 0,
{
    let mut i: usize = 0;
    while i < s.len()
        invariant
            i <= s.len(),
            forall|q: int| 0 <= q < i ==> s.deep_view()[q].block_id != key,
        decreases s.len() - i,
    {
        if s[i].block_id == key {
            proof {
                lemma_spec_index_at(s.deep_view(), key, i as int);
            }
            return Some(i);
        }
        i += 1;
    }
    proof {
        lemma_spec_index_at(s.deep_view(), key, i as int);
    }
    None
}

/// The position of block `key` in a list of placed images.
fn find_owned(s: &Vec<OwnedPlacement>, key: usize) -> (r: Option<usize>)
    ensures
        r matches Some(i) ==> i == spec_index(specs_of(s.deep_view()), key) && i < s.len(),
        r is None ==> spec_index(specs_of(s.deep_view()), key) < 0,
{
    let ghost sv = specs_of(s.deep_view());
    let mut i: usize = 0;
    while i < s.len()
        invariant
            i <= s.len(),
            sv == specs_of(s.deep_view()),
            sv.len() == s.len(),
            forall|q: int| 0 <= q < i ==> sv[q].block_id != key,
        decreases s.len() - i,
    {
        assert(sv[i as int] == s[i as int].spec@);
        if s[i].spec.block_id == key {
            proof {
                lemma_spec_index_at(sv, key, i as int);
            }
            return Some(i);
        }
        i += 1;
    }
    proof {
        lemma_spec_index_at(sv, key, i as int);
    }
    None
}

/// Puts `s` into the sorted list `ds`, replacing the entry of its block.
fn insert_spec(ds: &mut Vec<ImagePlacementSpec>, s: ImagePlacementSpec)
    requires
        strictly_sorted(old(ds).deep_view()),
    ensures
        final(ds).deep_view() == insert_sorted(old(ds).deep_view(), s@),
{
    let ghost before = ds.deep_view();
    let mut p: usize = 0;
    while p < ds.len() && ds[p].block_id < s.block_id
        invariant
            p <= ds.len(),
            before == ds.deep_view(),
            forall|q: int| 0 <= q < p ==> before[q].block_id < s.block_id,
        decreases ds.len() - p,
    {
        p += 1;
    }
    proof {
        lemma_first_not_less_at(before, s.block_id, p as int);
    }
    if p < ds.len() && ds[p].block_id == s.block_id {
        let ghost v0 = *ds;
        ds.remove(p);
        let ghost v1 = *ds;
        proof {
            lemma_deep_view_remove(v0, v1, p as int);
        }
        ds.insert(p, s);
        proof {
            lemma_deep_view_insert(v1, *ds, p as int, s);
            assert(before.remove(p as int).insert(p as int, s@) =~= before.update(p as int, s@));
        }
    } else {
        let ghost v0 = *ds;
        ds.insert(p, s);
        proof {
            lemma_deep_view_insert(v0, *ds, p as int, s);
        }
    }
}

fn next_after_exec(n: u32) -> (r: u32)
    ensures
        r == next_after(n),
{
    if n == u32::MAX {
        0
    } else {
        n + 1
    }
}

impl ImageCompositor {
    /// One placement per block, in block order, each under a handle of its
    /// own block and of this run.
    #[verifier::type_invariant]
    closed spec fn well_formed(self) -> bool {
        wf_model(self@)
    }

    /// An empty compositor for the run `runtime_id`; image numbers start at 1.
    pub fn new(runtime_id: String) -> (r: ImageCompositor)
        ensures
            r@ == fresh_compositor(runtime_id@),
            wf_model(r@),
            ids_fresh(r@),
    {
        let visible: Vec<OwnedPlacement> = Vec::new();
        proof {
            lemma_deep_view_empty(visible);
        }
        ImageCompositor { runtime_id, next_image_id: 1, visible }
    }


    /// Brings the visible placements in line with `desired`: placements whose
    /// block is no longer wanted, or is wanted with another spec, are retired;
    /// wanted placements not on screen are drawn under fresh numbers.
    pub fn reconcile(&mut self, desired: Vec<ImagePlacementSpec>) -> (r: ImageDiff)
        ensures
            wf_model(old(self)@),
            final(self)@ == reconcile_model(old(self)@, desired.deep_view()).0,
            r@ == reconcile_model(old(self)@, desired.deep_view()).1,
            wf_model(final(self)@),
    {
        proof {
            use_type_invariant(&*self);
        }
        let ghost d = desired.deep_view();
        let ghost c0 = self@;
        // the wanted placements keyed by block, in block order
        let mut ds: Vec<ImagePlacementSpec> = Vec::new();
        proof {
            lemma_deep_view_empty(ds);
            assert(d.take(0) =~= Seq::<SpecModel>::empty());
        }
        let mut i: usize = 0;
        while i < desired.len()
            invariant
                i <= desired.len(),
                d == desired.deep_view(),
                ds.deep_view() == sorted_desired(d.take(i as int)),
            decreases desired.len() - i,
        {
            proof {
                lemma_sorted_desired(d.take(i as int));
                assert(d.take(i as int + 1).drop_last() =~= d.take(i as int));
                assert(d.take(i as int + 1).last() == desired[i as int]@);
            }
            let s = desired[i].copy();
            insert_spec(&mut ds, s);
            i += 1;
        }
        proof {
            assert(d.take(i as int) =~= d);
            lemma_sorted_desired(d);
        }
        let ghost dsv = ds.deep_view();
        // retire what changed or left
        let mut surv: Vec<OwnedPlacement> = Vec::new();
        let mut retire: Vec<ImageHandle> = Vec::new();
        proof {
            lemma_deep_view_empty(surv);
            lemma_deep_view_empty(retire);
            assert(c0.visible.take(0) =~= Seq::<OwnedModel>::empty());
        }
        let mut k: usize = 0;
        while k < self.visible.len()
            invariant
                k <= self.visible.len(),
                c0 == self@,
                dsv == ds.deep_view(),
                surv.deep_view() == survivors(c0.visible.take(k as int), dsv),
                retire.deep_view() == retired(c0.visible.take(k as int), dsv),
            decreases self.visible.len() - k,
        {
            let o = &self.visible[k];
            let keep = match find_spec(&ds, o.spec.block_id) {
                Some(j) => same_spec_exec(&o.spec, &ds[j]),
                None => false,
            };
            proof {
                assert(c0.visible.take(k as int + 1).drop_last() =~= c0.visible.take(k as int));
                assert(c0.visible.take(k as int + 1).last() == o@);
                assert(keep == kept(o@, dsv));
            }
            if keep {
                let ghost before = surv;
                let c = o.copy();
                surv.push(c);
                proof {
                    lemma_deep_view_push(before, surv, c);
                }
            } else {
                let ghost before = retire;
                let h = o.handle.copy();
                retire.push(h);
                proof {
                    lemma_deep_view_push(before, retire, h);
                }
            }
            k += 1;
        }
        proof {
            assert(c0.visible.take(k as int) =~= c0.visible);
        }
        let ghost sv = surv.deep_view();
        // draw what is wanted and not on screen
        let mut vis: Vec<OwnedPlacement> = Vec::new();
        let mut draw: Vec<OwnedPlacement> = Vec::new();
        let mut next = self.next_image_id;
        proof {
            lemma_deep_view_empty(vis);
            lemma_deep_view_empty(draw);
            assert(dsv.take(0) =~= Seq::<SpecModel>::empty());
        }
        let mut j: usize = 0;
        while j < ds.len()
            invariant
                j <= ds.len(),
                c0 == self@,
                dsv == ds.deep_view(),
                sv == surv.deep_view(),
                vis.deep_view() == placed(dsv.take(j as int), sv, c0.runtime_id, c0.next_id).0,
                draw.deep_view() == placed(dsv.take(j as int), sv, c0.runtime_id, c0.next_id).1,
                next == placed(dsv.take(j as int), sv, c0.runtime_id, c0.next_id).2,
            decreases ds.len() - j,
        {
            let s = &ds[j];
            proof {
                assert(dsv.take(j as int + 1).drop_last() =~= dsv.take(j as int));
                assert(dsv.take(j as int + 1).last() == s@);
            }
            match find_owned(&surv, s.block_id) {
                Some(k) => {
                    let ghost before = vis;
                    let c = surv[k].copy();
                    vis.push(c);
                    proof {
                        lemma_deep_view_push(before, vis, c);
                    }
                },
                None => {
                    let image_id = next;
                    let placement_id = next_after_exec(next);
                    next = next_after_exec(placement_id);
                    let o = OwnedPlacement {
                        handle: ImageHandle {
                            runtime_id: copy_string(&self.runtime_id),
                            block_id: s.block_id,
                            image_id,
                            placement_id,
                        },
                        spec: s.copy(),
                    };
                    let ghost before_v = vis;
                    let ghost before_d = draw;
                    let c = o.copy();
                    vis.push(c);
                    draw.push(o);
                    proof {
                        lemma_deep_view_push(before_v, vis, c);
                        lemma_deep_view_push(before_d, draw, o);
                    }
                },
            }
            j += 1;
        }
        proof {
            assert(dsv.take(j as int) =~= dsv);
        }
        proof {
            lemma_reconcile_shows_desired(c0, d);
        }
        self.visible = vis;
        self.next_image_id = next;
        ImageDiff { retire, draw }
    }

    /// Forgets every visible placement and returns their handles, in block order.
    pub fn clear(&mut self) -> (r: Vec<ImageHandle>)
        ensures
            wf_model(old(self)@),
            r.deep_view() == old(self)@.visible.map_values(|o: OwnedModel| o.handle),
            final(self)@ == cleared(old(self)@),
            wf_model(final(self)@),
            ids_fresh(final(self)@),
    {
        proof {
            use_type_invariant(&*self);
        }
        let ghost v0 = self@.visible;
        let mut out: Vec<ImageHandle> = Vec::new();
        proof {
            lemma_deep_view_empty(out);
        }
        let mut i: usize = 0;
        while i < self.visible.len()
            invariant
                i <= self.visible.len(),
                v0 == self.visible.deep_view(),
                out.deep_view() == v0.take(i as int).map_values(|o: OwnedModel| o.handle),
            decreases self.visible.len() - i,
        {
            let ghost before = out;
            let h = self.visible[i].handle.copy();
            out.push(h);
            proof {
                lemma_deep_view_push(before, out, h);
                assert(v0.take(i as int + 1).map_values(|o: OwnedModel| o.handle) =~= v0.take(
                    i as int,
                ).map_values(|o: OwnedModel| o.handle).push(h@));
            }
            i += 1;
        }
        proof {
            assert(v0.take(i as int) =~= v0);
        }
        let empty: Vec<OwnedPlacement> = Vec::new();
        proof {
            lemma_deep_view_empty(empty);
        }
        self.visible = empty;
        out
    }
}

} // verus!

verus! {

// ---------------------------------------------------------------------------
// Which images a view shows
// ---------------------------------------------------------------------------

/// Whether an image occupying rows `start_row .. start_row + rows` meets the
/// body rows `scroll .. scroll + body_height`.
pub open spec fn image_in_view(image: LaidOutImage, scroll: int, body_height: int) -> bool {
    image.start_row + image.rows > scroll && image.start_row < scroll + body_height
}

/// `a + b` capped at `u16::MAX`.
pub open spec fn add_sat_u16(a: int, b: int) -> u16 {
    if a + b > u16::MAX {
        u16::MAX
    } else {
        (a + b) as u16
    }
}

/// The first asset of the slide with identifier `id`, if any.
pub open spec fn asset_with_id(assets: Seq<AssetModel>, id: usize) -> Option<AssetModel>
    decreases assets.len(),
{
    if assets.len() == 0 {
        None
    } else if assets[0].id == id {
        Some(assets[0])
    } else {
        asset_with_id(assets.drop_first(), id)
    }
}

/// The placement of one image of the view, if its asset is known.
pub open spec fn view_placement(
    assets: Seq<AssetModel>,
    image: LaidOutImage,
    scroll: int,
    body_y: int,
    body_x: int,
    body_height: int,
) -> Option<SpecModel> {
    match asset_with_id(assets, image.asset_id) {
        None => None,
        Some(asset) => {
            let local_row = (sub_sat(image.start_row as int, scroll) % 0x10000) as u16;
            Some(
                SpecModel {
                    block_id: image.block_id,
                    asset_path: asset.path,
                    row: add_sat_u16(add_sat_u16(body_y, local_row as int) as int, 1),
                    col: add_sat_u16(body_x, 1),
                    cols: image.cols,
                    rows: min(image.rows as int, body_height) as u16,
                },
            )
        },
    }
}

/// The placements of the images that meet the body, in layout order.
pub open spec fn view_placements(
    assets: Seq<AssetModel>,
    images: Seq<LaidOutImage>,
    scroll: int,
    body_y: int,
    body_x: int,
    body_height: int,
) -> Seq<SpecModel>
    decreases images.len(),
{
    if images.len() == 0 {
        Seq::empty()
    } else {
        let prev = view_placements(assets, images.drop_last(), scroll, body_y, body_x, body_height);
        let image = images.last();
        if image_in_view(image, scroll, body_height) {
            match view_placement(assets, image, scroll, body_y, body_x, body_height) {
                Some(p) => prev.push(p),
                None => prev,
            }
        } else {
            prev
        }
    }
}

fn add_sat_u16_exec(a: u16, b: u16) -> (r: u16)
    ensures
        r == add_sat_u16(a as int, b as int),
{
    if a > u16::MAX - b {
        u16::MAX
    } else {
        a + b
    }
}

/// The images of `slide` laid out as `images` that show in a body of
/// `body_height` rows at `(body_x, body_y)` scrolled by `scroll`: one
/// placement per image that meets the body and whose asset the slide knows,
/// at most `body_height` rows tall.
pub fn placements_for_view(
    slide: &Slide,
    images: &[LaidOutImage],
    scroll: usize,
    body_y: u16,
    body_x: u16,
    body_height: u16,
) -> (r: Vec<ImagePlacementSpec>)
    ensures
        r.deep_view() == view_placements(
            slide@.assets,
            images@,
            scroll as int,
            body_y as int,
            body_x as int,
            body_height as int,
        ),
{
    let ghost assets = slide@.assets;
    let mut out: Vec<ImagePlacementSpec> = Vec::new();
    proof {
        lemma_deep_view_empty(out);
        assert(images@.take(0) =~= Seq::<LaidOutImage>::empty());
    }
    let mut i: usize = 0;
    while i < images.len()
        invariant
            i <= images.len(),
            assets == slide@.assets,
            out.deep_view() == view_placements(
                assets,
                images@.take(i as int),
                scroll as int,
                body_y as int,
                body_x as int,
                body_height as int,
            ),
        decreases images.len() - i,
    {
        let image = images[i];
        proof {
            assert(images@.take(i as int + 1).drop_last() =~= images@.take(i as int));
            assert(images@.take(i as int + 1).last() == image);
        }
        let meets_top = image.start_row > scroll || image.rows > scroll - image.start_row;
        let meets_bottom = image.start_row < scroll || image.start_row - scroll
            < body_height as usize;
        if meets_top && meets_bottom {
            match find_asset(slide, image.asset_id) {
                Some(k) => {
                    let local = if image.start_row > scroll {
                        image.start_row - scroll
                    } else {
                        0
                    };
                    let local_row = (local % 0x10000) as u16;
                    let rows = if image.rows < body_height as usize {
                        image.rows as u16
                    } else {
                        body_height
                    };
                    let p = ImagePlacementSpec {
                        block_id: image.block_id,
                        asset_path: copy_string(&slide.assets[k].path),
                        row: add_sat_u16_exec(add_sat_u16_exec(body_y, local_row), 1),
                        col: add_sat_u16_exec(body_x, 1),
                        cols: image.cols,
                        rows,
                    };
                    let ghost before = out;
                    out.push(p);
                    proof {
                        lemma_deep_view_push(before, out, p);
                    }
                },
                None => {},
            }
        }
        i += 1;
    }
    proof {
        assert(images@.take(i as int) =~= images@);
    }
    out
}

/// The position of the first asset of `slide` with identifier `id`.
fn find_asset(slide: &Slide, id: usize) -> (r: Option<usize>)
    ensures
        r matches Some(k) ==> k < slide.assets.len() && asset_with_id(slide@.assets, id) == Some(
            slide@.assets[k as int],
        ),
        r is None ==> asset_with_id(slide@.assets, id) is None,
{
    let ghost assets = slide@.assets;
    let mut k: usize = 0;
    assert(assets.skip(0) =~= assets);
    while k < slide.assets.len()
        invariant
            k <= slide.assets.len(),
            assets == slide@.assets,
            assets.len() == slide.assets.len(),
            asset_with_id(assets, id) == asset_with_id(assets.skip(k as int), id),
        decreases slide.assets.len() - k,
    {
        assert(assets.skip(k as int)[0] == assets[k as int]);
        if slide.assets[k].id == id {
            return Some(k);
        }
        assert(assets.skip(k as int).drop_first() =~= assets.skip(k as int + 1));
        k += 1;
    }
    None
}

// ---------------------------------------------------------------------------
// Drawing with the kitty graphics protocol
// ---------------------------------------------------------------------------

/// The base64 digit for `v < 64`, in the standard alphabet.
pub open spec fn b64_char(v: int) -> char {
    if v < 26 {
        (65 + v) as char
    } else if v < 52 {
        (97 + v - 26) as char
    } else if v < 62 {
        (48 + v - 52) as char
    } else if v == 62 {
        '+'
    } else {
        '/'
    }
}

/// Base64 of `b` as RFC 4648 defines it: each three bytes become four digits
/// of the standard alphabet, and a last group of one or two bytes is padded
/// with `=`.
pub open spec fn base64_encode(b: Seq<u8>) -> Seq<char>
    decreases b.len(),
{
    let b0 = b[0] as int;
    let b1 = b[1] as int;
    let b2 = b[2] as int;
    if b.len() == 0 {
        Seq::empty()
    } else if b.len() == 1 {
        seq![b64_char(b0 / 4), b64_char((b0 % 4) * 16), '=', '=']
    } else if b.len() == 2 {
        seq![b64_char(b0 / 4), b64_char((b0 % 4) * 16 + b1 / 16), b64_char((b1 % 16) * 4), '=']
    } else {
        seq![
            b64_char(b0 / 4),
            b64_char((b0 % 4) * 16 + b1 / 16),
            b64_char((b1 % 16) * 4 + b2 / 64),
            b64_char(b2 % 64),
        ] + base64_encode(b.subrange(3, b.len() as int))
    }
}

/// `base64::engine::general_purpose::STANDARD.encode`: claimed to give the
/// RFC 4648 encoding with the standard alphabet and `=` padding. It panics when
/// the length of the result does not fit in `usize`; `requires` leaves that out.
#[verifier::external_body]
pub(crate) fn base64_standard(bytes: &[u8]) -> (r: String)
    requires
        bytes@.len() / 3 * 4 + 4 <= usize::MAX,
    ensures
        r@ == base64_encode(bytes@),
{
    base64::engine::general_purpose::STANDARD.encode(bytes)
}

/// The kitty command that moves the cursor to a placement and shows its file there.
pub open spec fn kitty_place(o: OwnedModel) -> Seq<char> {
    "\x1b["@ + decimal(o.spec.row as nat) + ";"@ + decimal(o.spec.col as nat) + "H"@
        + "\x1b_Ga=T,f=100,t=f,i="@ + decimal(o.handle.image_id as nat) + ",p="@ + decimal(
        o.handle.placement_id as nat,
    ) + ",c="@ + decimal(o.spec.cols as nat) + ",r="@ + decimal(o.spec.rows as nat) + ",C=1;"@
        + base64_encode(encode_utf8(o.spec.asset_path)) + "\x1b\\"@
}

/// The kitty commands for the placements whose file is present, in order.
pub open spec fn kitty_places(ps: Seq<OwnedModel>, present: Seq<bool>) -> Seq<char>
    decreases ps.len(),
{
    if ps.len() == 0 {
        Seq::empty()
    } else {
        kitty_places(ps.drop_last(), present.take(ps.len() - 1)) + (if present[ps.len() - 1] {
            kitty_place(ps.last())
        } else {
            Seq::empty()
        })
    }
}

/// The kitty commands that delete the images of `hs`.
pub open spec fn kitty_deletes(hs: Seq<HandleModel>) -> Seq<char>
    decreases hs.len(),
{
    if hs.len() == 0 {
        Seq::empty()
    } else {
        kitty_deletes(hs.drop_last()) + "\x1b_Ga=d,d=i,i="@ + decimal(hs.last().image_id as nat)
            + "\x1b\\"@
    }
}

/// Whether every placement's file name is short enough to encode.
pub open spec fn paths_encodable(ps: Seq<OwnedModel>) -> bool {
    forall|i: int| 0 <= i < ps.len() ==> encode_utf8((#[trigger] ps[i]).spec.asset_path).len()
        <= usize::MAX / 2
}

/// The kitty command for one placement.
fn kitty_place_exec(p: &OwnedPlacement) -> (r: String)
    requires
        encode_utf8(p@.spec.asset_path).len() <= usize::MAX / 2,
    ensures
        r@ == kitty_place(p@),
{
    let bytes = p.spec.asset_path.as_str().as_bytes();
    let payload = base64_standard(bytes);
    let mut out = to_owned_string("\x1b[");
    push_decimal(&mut out, p.spec.row as u128);
    push_str(&mut out, ";");
    push_decimal(&mut out, p.spec.col as u128);
    push_str(&mut out, "H");
    push_str(&mut out, "\x1b_Ga=T,f=100,t=f,i=");
    push_decimal(&mut out, p.handle.image_id as u128);
    push_str(&mut out, ",p=");
    push_decimal(&mut out, p.handle.placement_id as u128);
    push_str(&mut out, ",c=");
    push_decimal(&mut out, p.spec.cols as u128);
    push_str(&mut out, ",r=");
    push_decimal(&mut out, p.spec.rows as u128);
    push_str(&mut out, ",C=1;");
    push_str(&mut out, payload.as_str());
    push_str(&mut out, "\x1b\\");
    out
}

/// A way of putting images on the terminal.
pub trait ImageBackend {
    /// Whether this backend draws anything.
    fn available(&self) -> bool;

    /// The backend's name.
    fn name(&self) -> &'static str;

    /// The text that draws `placements`; `present[i]` tells whether the file of
    /// `placements[i]` is there to be shown.
    fn draw_sequence(&self, placements: &[OwnedPlacement], present: &[bool]) -> String
        requires
            placements@.len() == present@.len(),
            paths_encodable(placements@.map_values(|o: OwnedPlacement| o@)),
    ;

    /// The text that deletes the images of `handles`.
    fn delete_sequence(&self, handles: &[ImageHandle]) -> String;
}

/// The backend that draws nothing.
#[derive(Clone, Debug)]
pub struct NoopBackend;

impl ImageBackend for NoopBackend {
    fn available(&self) -> (r: bool)
        ensures
            !r,
    {
        false
    }

    fn name(&self) -> (r: &'static str)
        ensures
            r@ == "disabled"@,
    {
        "disabled"
    }

    fn draw_sequence(&self, placements: &[OwnedPlacement], present: &[bool]) -> (r: String)
        ensures
            r@ == Seq::<char>::empty(),
    {
        String::new()
    }

    fn delete_sequence(&self, handles: &[ImageHandle]) -> (r: String)
        ensures
            r@ == Seq::<char>::empty(),
    {
        String::new()
    }
}

/// The backend that speaks the kitty graphics protocol (kitty, ghostty).
#[derive(Clone, Debug)]
pub struct KittyBackend {
    tmux: TmuxRuntime,
}

impl KittyBackend {
    pub fn new(tmux: TmuxRuntime) -> (r: KittyBackend)
        ensures
            r.through_tmux() == in_tmux_spec(tmux.socket@, tmux.tmux_env@),
    {
        KittyBackend { tmux }
    }

    /// Whether the backend draws through tmux.
    pub closed spec fn through_tmux(&self) -> bool {
        in_tmux_spec(self.tmux.socket@, self.tmux.tmux_env@)
    }
}

impl ImageBackend for KittyBackend {
    fn available(&self) -> (r: bool)
        ensures
            r,
    {
        true
    }

    fn name(&self) -> (r: &'static str)
        ensures
            r@ == "kitty"@,
    {
        "kitty"
    }

    fn draw_sequence(&self, placements: &[OwnedPlacement], present: &[bool]) -> (r: String)
        ensures
            r@ == passthrough(
                self.through_tmux(),
                kitty_places(placements@.map_values(|o: OwnedPlacement| o@), present@),
            ),
    {
        let ghost ps = placements@.map_values(|o: OwnedPlacement| o@);
        let mut out = String::new();
        proof {
            assert(ps.take(0) =~= Seq::<OwnedModel>::empty());
        }
        let mut i: usize = 0;
        while i < placements.len()
            invariant
                i <= placements.len(),
                placements@.len() == present@.len(),
                ps == placements@.map_values(|o: OwnedPlacement| o@),
                paths_encodable(ps),
                out@ == kitty_places(ps.take(i as int), present@.take(i as int)),
            decreases placements.len() - i,
        {
            let p = &placements[i];
            proof {
                assert(ps.take(i as int + 1).drop_last() =~= ps.take(i as int));
                assert(present@.take(i as int + 1).take(i as int) =~= present@.take(i as int));
                assert(ps.take(i as int + 1).last() == p@);
                assert(ps[i as int] == p@);
            }
            if present[i] {
                proof {
                    assert(encode_utf8(ps[i as int].spec.asset_path).len() <= usize::MAX / 2);
                }
                let cmd = kitty_place_exec(p);
                push_str(&mut out, cmd.as_str());
            }
            i += 1;
        }
        proof {
            assert(ps.take(i as int) =~= ps);
            assert(present@.take(i as int) =~= present@);
        }
        self.tmux.wrap_passthrough(out.as_str())
    }

    fn delete_sequence(&self, handles: &[ImageHandle]) -> (r: String)
        ensures
            r@ == passthrough(
                self.through_tmux(),
                kitty_deletes(handles@.map_values(|h: ImageHandle| h@)),
            ),
    {
        let ghost hs = handles@.map_values(|h: ImageHandle| h@);
        let mut out = String::new();
        proof {
            assert(hs.take(0) =~= Seq::<HandleModel>::empty());
        }
        let mut i: usize = 0;
        while i < handles.len()
            invariant
                i <= handles.len(),
                hs == handles@.map_values(|h: ImageHandle| h@),
                out@ == kitty_deletes(hs.take(i as int)),
            decreases handles.len() - i,
        {
            proof {
                assert(hs.take(i as int + 1).drop_last() =~= hs.take(i as int));
                assert(hs.take(i as int + 1).last() == handles[i as int]@);
            }
            push_str(&mut out, "\x1b_Ga=d,d=i,i=");
            push_decimal(&mut out, handles[i].image_id as u128);
            push_str(&mut out, "\x1b\\");
            i += 1;
        }
        proof {
            assert(hs.take(i as int) =~= hs);
        }
        self.tmux.wrap_passthrough(out.as_str())
    }
}

} // verus!

verus! {

// ---------------------------------------------------------------------------
// Choosing a backend
// ---------------------------------------------------------------------------

/// The environment that decides how images are drawn, as read at start-up.
#[derive(Clone, Debug)]
pub struct TerminalEnv {
    /// `SS_IMAGE_BACKEND`, empty when unset.
    pub image_backend: String,
    /// `TERM_PROGRAM`, empty when unset.
    pub term_program: String,
    /// `TERM`, empty when unset.
    pub term: String,
    /// Whether `KITTY_WINDOW_ID` is set.
    pub kitty_window_id: bool,
    /// Whether `GHOSTTY_BIN_DIR` is set.
    pub ghostty_bin_dir: bool,
}

#[derive(Clone, Copy, Debug, PartialEq, Eq, Structural)]
pub enum BackendKind {
    Noop,
    Kitty,
}

/// The backend a terminal gets: the one `SS_IMAGE_BACKEND` forces, else kitty
/// graphics for kitty and ghostty, except inside tmux when only `TERM` names
/// them; else none.
pub open spec fn chosen_backend(env: TerminalEnv, in_tmux: bool) -> BackendKind {
    let forced = lowercase(trim(env.image_backend@));
    if forced == "none"@ || forced == "off"@ || forced == "disabled"@ {
        BackendKind::Noop
    } else if forced == "kitty"@ || forced == "ghostty"@ {
        BackendKind::Kitty
    } else {
        let tp = lowercase(env.term_program@);
        let t = lowercase(env.term@);
        let explicit_ghostty = tp == "ghostty"@ || env.ghostty_bin_dir;
        if tp == "ghostty"@ || contains_seq(t, "ghostty"@) || contains_seq(t, "kitty"@)
            || env.kitty_window_id || explicit_ghostty {
            if in_tmux && !env.kitty_window_id && !explicit_ghostty {
                BackendKind::Noop
            } else {
                BackendKind::Kitty
            }
        } else {
            BackendKind::Noop
        }
    }
}

/// Which backend `env` asks for, for a program inside tmux or not.
pub fn choose_backend(env: &TerminalEnv, in_tmux: bool) -> (r: BackendKind)
    ensures
        r == chosen_backend(*env, in_tmux),
{
    let trimmed = trim_string(env.image_backend.as_str());
    let forced = to_lowercase(trimmed.as_str());
    if string_is(&forced, "none") || string_is(&forced, "off") || string_is(&forced, "disabled") {
        return BackendKind::Noop;
    }
    if string_is(&forced, "kitty") || string_is(&forced, "ghostty") {
        return BackendKind::Kitty;
    }
    let tp = to_lowercase(env.term_program.as_str());
    let t = to_lowercase(env.term.as_str());
    let explicit_ghostty = string_is(&tp, "ghostty") || env.ghostty_bin_dir;
    if string_is(&tp, "ghostty") || contains_str(t.as_str(), "ghostty") || contains_str(
        t.as_str(),
        "kitty",
    ) || env.kitty_window_id || explicit_ghostty {
        if in_tmux && !env.kitty_window_id && !explicit_ghostty {
            BackendKind::Noop
        } else {
            BackendKind::Kitty
        }
    } else {
        BackendKind::Noop
    }
}

/// One of the backends.
#[derive(Clone, Debug)]
pub enum Backend {
    Noop(NoopBackend),
    Kitty(KittyBackend),
}

/// The backend for this terminal, drawing through `tmux`.
pub fn detect_backend(tmux: &TmuxRuntime, env: &TerminalEnv) -> (r: Backend)
    ensures
        (r is Noop) == (chosen_backend(*env, in_tmux_spec(tmux.socket@, tmux.tmux_env@))
            == BackendKind::Noop),
        r matches Backend::Kitty(k) ==> k.through_tmux() == in_tmux_spec(
            tmux.socket@,
            tmux.tmux_env@,
        ),
{
    match choose_backend(env, tmux.in_tmux()) {
        BackendKind::Noop => Backend::Noop(NoopBackend),
        BackendKind::Kitty => Backend::Kitty(KittyBackend::new(tmux.copy())),
    }
}

impl ImageBackend for Backend {
    fn available(&self) -> (r: bool)
        ensures
            r == (self is Kitty),
    {
        match self {
            Backend::Noop(b) => b.available(),
            Backend::Kitty(b) => b.available(),
        }
    }

    fn name(&self) -> (r: &'static str)
        ensures
            self is Noop ==> r@ == "disabled"@,
            self is Kitty ==> r@ == "kitty"@,
    {
        match self {
            Backend::Noop(b) => b.name(),
            Backend::Kitty(b) => b.name(),
        }
    }

    fn draw_sequence(&self, placements: &[OwnedPlacement], present: &[bool]) -> (r: String)
        ensures
            self is Noop ==> r@ == Seq::<char>::empty(),
            self matches Backend::Kitty(k) ==> r@ == passthrough(
                k.through_tmux(),
                kitty_places(placements@.map_values(|o: OwnedPlacement| o@), present@),
            ),
    {
        match self {
            Backend::Noop(b) => b.draw_sequence(placements, present),
            Backend::Kitty(b) => b.draw_sequence(placements, present),
        }
    }

    fn delete_sequence(&self, handles: &[ImageHandle]) -> (r: String)
        ensures
            self is Noop ==> r@ == Seq::<char>::empty(),
            self matches Backend::Kitty(k) ==> r@ == passthrough(
                k.through_tmux(),
                kitty_deletes(handles@.map_values(|h: ImageHandle| h@)),
            ),
    {
        match self {
            Backend::Noop(b) => b.delete_sequence(handles),
            Backend::Kitty(b) => b.delete_sequence(handles),
        }
    }
}

} // verus!
