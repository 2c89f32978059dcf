//! The retained-mode view tree: an arena of view nodes and window nodes,
//! handles into it, the dirty-flag propagation protocol, and the
//! mount/unmount bookkeeping shared by the walk and scheduler modules.
//!
//! Ownership is arena-based: views and windows live in the tree and are
//! addressed by handles, a child names its parent through a tagged
//! `Superview` link, and a parent's layout names its children by id. A ghost
//! ancestor table (the ids on each view's superview chain, nearest first)
//! witnesses that the links form a forest; every walk terminates by it.

use vstd::prelude::*;
use vstd::seq_lib::*;
use vstd::set_lib::*;

use crate::flags::{
    ancestor_stable, contains_bits, raise_bits, ViewDirtyFlags, ViewFlags, WndDirtyFlags,
    WndStyleFlags, DESCENDANT_SUBLAYERS, DESCENDANT_UPDATE_EVENT, MOUNT, MOUNTED,
};
use crate::geometry::{Box2, Point2, SizeTraits, Vector2};

verus! {

/// A capability token witnessing exclusive access to the view-tree state.
///
/// The embedder creates one token on the thread that runs the UI and passes
/// it to every operation that fires listener callbacks, in place of ambient
/// thread-local state.
#[derive(Clone, Copy, Debug)]
pub struct Wm;

impl Wm {
    /// Obtain the token. The embedder must call this only on the thread
    /// designated to own the UI state, and must not let the token escape it.
    pub fn new() -> Wm {
        Wm
    }
}

/// A handle to a platform compositor layer. The platform layer hands these
/// out; this core only stores and diffs them.
#[derive(Clone, Copy, Debug, PartialEq, Eq, Hash, Structural)]
pub struct HLayer {
    pub id: u64,
}

/// A view handle: an index into the tree's view arena.
#[derive(Clone, Copy, Debug, PartialEq, Eq, Hash, Structural)]
pub struct HView {
    pub id: usize,
}

/// A window handle: an index into the tree's window arena.
#[derive(Clone, Copy, Debug, PartialEq, Eq, Hash, Structural)]
pub struct HWnd {
    pub id: usize,
}

/// The kind of a listener callback owed to a view.
#[derive(Clone, Copy, Debug, PartialEq, Eq, Structural)]
pub enum ViewEventKind {
    /// The view was added to a window.
    Mount,
    /// The view was removed from a window.
    Unmount,
    /// The view's global frame changed.
    Position,
    /// The view should update its layers.
    Update,
}

/// One listener callback owed to a view, in the order the tree decided it.
#[derive(Clone, Copy, Debug, PartialEq, Eq, Structural)]
pub struct ViewEvent {
    pub kind: ViewEventKind,
    pub view: usize,
}

/// A view's superview link: nothing, a parent view, or an owning window.
#[derive(Clone, Copy, Debug, PartialEq, Eq, Structural)]
pub enum Superview {
    /// The view is detached.
    Empty,
    /// The view is a subview of the named view.
    View(usize),
    /// The view is the content view of the named window.
    Window(usize),
}

impl Superview {
    /// The link of a detached view.
    pub fn empty() -> (r: Self)
        ensures
            r is Empty,
    {
        Superview::Empty
    }

    /// Whether the link names neither a view nor a window.
    pub fn is_empty(&self) -> (r: bool)
        ensures
            r == (*self is Empty),
    {
        match self {
            Superview::Empty => true,
            _ => false,
        }
    }

    /// The parent view named by the link, if any.
    pub fn as_view(&self) -> (r: Option<usize>)
        ensures
            match *self {
                Superview::View(p) => r == Some(p),
                _ => r is None,
            },
    {
        match self {
            Superview::View(p) => Some(*p),
            _ => None,
        }
    }

    /// The owning window named by the link, if any.
    pub fn as_wnd(&self) -> (r: Option<usize>)
        ensures
            match *self {
                Superview::Window(w) => r == Some(w),
                _ => r is None,
            },
    {
        match self {
            Superview::Window(w) => Some(*w),
            _ => None,
        }
    }
}

/// A view's layout strategy: the subviews it owns, the frame assigned to
/// each, and the intrinsic size traits the strategy reports for the view.
#[derive(Debug)]
#[verifier::ext_equal]
pub struct Layout {
    pub(crate) subviews: Vec<usize>,
    pub(crate) frames: Vec<Box2>,
    pub(crate) size_traits: SizeTraits,
}

impl Layout {
    /// The ids of the subviews the layout owns, in order.
    pub closed spec fn subview_ids(self) -> Seq<usize> {
        self.subviews@
    }

    /// The frame assigned to each subview, in the same order.
    pub closed spec fn frame_seq(self) -> Seq<Box2> {
        self.frames@
    }

    /// The intrinsic size traits the strategy reports.
    pub closed spec fn traits(self) -> SizeTraits {
        self.size_traits
    }

    /// Whether the layout's tables are consistent: one frame per subview and
    /// no subview listed twice.
    pub closed spec fn wf(self) -> bool {
        self.subviews@.no_duplicates() && self.frames@.len() == self.subviews@.len()
    }

    /// Construct a layout that owns `subviews`, places the `k`-th of them at
    /// `frames[k]` in the owning view's coordinates, and reports
    /// `size_traits` for the owning view.
    pub fn new(subviews: Vec<HView>, frames: Vec<Box2>, size_traits: SizeTraits) -> (r: Layout)
        requires
            subviews@.map_values(|h: HView| h.id).no_duplicates(),
            frames@.len() == subviews@.len(),
        ensures
            r.wf(),
            r.subview_ids() == subviews@.map_values(|h: HView| h.id),
            r.frame_seq() == frames@,
            r.traits() == size_traits,
    {
        let mut ids: Vec<usize> = Vec::new();
        let mut k: usize = 0;
        while k < subviews.len()
            invariant
                k <= subviews@.len(),
                ids@ == subviews@.map_values(|h: HView| h.id).subrange(0, k as int),
            decreases subviews@.len() - k,
        {
            ids.push(subviews[k].id);
            proof {
                assert(ids@ =~= subviews@.map_values(|h: HView| h.id).subrange(0, k + 1));
            }
            k = k + 1;
        }
        proof {
            assert(ids@ =~= subviews@.map_values(|h: HView| h.id));
        }
        Layout { subviews: ids, frames, size_traits }
    }

    /// The number of subviews the layout owns.
    pub fn subview_count(&self) -> (r: usize)
        ensures
            r == self.subview_ids().len(),
    {
        self.subviews.len()
    }

    /// The handle of the `k`-th subview.
    pub fn subview_at(&self, k: usize) -> (r: HView)
        requires
            k < self.subview_ids().len(),
        ensures
            r.id == self.subview_ids()[k as int],
    {
        HView { id: self.subviews[k] }
    }

    /// Whether `self` and `other` own the same subviews in the same order,
    /// so replacing one with the other is a pure layout swap.
    pub fn has_same_subviews(&self, other: &Layout) -> (r: bool)
        ensures
            r == (self.subview_ids() == other.subview_ids()),
    {
        if self.subviews.len() != other.subviews.len() {
            proof {
                assert(self.subviews@ != other.subviews@);
            }
            return false;
        }
        let mut k: usize = 0;
        while k < self.subviews.len()
            invariant
                k <= self.subviews@.len(),
                self.subviews@.len() == other.subviews@.len(),
                forall|j: int| 0 <= j < k ==> self.subviews@[j] == other.subviews@[j],
            decreases self.subviews@.len() - k,
        {
            if self.subviews[k] != other.subviews[k] {
                proof {
                    assert(self.subviews@ != other.subviews@);
                }
                return false;
            }
            k = k + 1;
        }
        proof {
            assert(self.subviews@ =~= other.subviews@);
        }
        true
    }
}

impl Default for Layout {
    /// The default layout: no subviews and default size traits.
    fn default() -> (r: Layout)
        ensures
            r.wf(),
            r.subview_ids().len() == 0,
            r.frame_seq().len() == 0,
    {
        Layout {
            subviews: Vec::new(),
            frames: Vec::new(),
            size_traits: SizeTraits::default_traits(),
        }
    }
}

/// The owned state of one widget instance.
#[verifier::ext_equal]
pub(crate) struct ViewNode {
    pub(crate) dirty: ViewDirtyFlags,
    pub(crate) flags: ViewFlags,
    pub(crate) layout: Layout,
    pub(crate) superview: Superview,
    pub(crate) size_traits: SizeTraits,
    pub(crate) frame: Box2,
    pub(crate) global_frame: Box2,
    pub(crate) layers: Vec<HLayer>,
}

/// The style attributes cached for a window so only changed ones are pushed
/// to the platform.
#[derive(Debug)]
pub struct WndStyleAttrs {
    pub visible: bool,
    pub caption: String,
    pub flags: WndStyleFlags,
}

/// The owned state of one top-level window.
pub(crate) struct WndNode {
    pub(crate) dirty: WndDirtyFlags,
    pub(crate) closed: bool,
    pub(crate) content_view: Option<usize>,
    pub(crate) style_attrs: WndStyleAttrs,
    pub(crate) updating: bool,
    pub(crate) pending_update: bool,
}

/// The view tree: every view node, every window node, the callback events
/// owed to the embedder's listeners, and the update requests owed to the
/// platform's frame clock.
pub struct ViewTree {
    pub(crate) views: Vec<ViewNode>,
    pub(crate) wnds: Vec<WndNode>,
    /// Callback events decided but not yet handed to the embedder.
    pub(crate) pending: Vec<ViewEvent>,
    /// Windows whose update was scheduled, in scheduling order.
    pub(crate) update_requests: Vec<usize>,
    /// For each view, the ids on its superview chain, nearest first.
    pub(crate) anc: Ghost<Seq<Seq<int>>>,
    /// Every callback event ever decided, in order.
    pub(crate) hist: Ghost<Seq<ViewEvent>>,
    /// The prefix of `hist` already handed to the embedder.
    pub(crate) taken: Ghost<Seq<ViewEvent>>,
}

// ---------------------------------------------------------------------------
// Event-history spec functions
// ---------------------------------------------------------------------------

/// Whether `e` is the mount event of view `v`.
pub open spec fn is_mount_of(e: ViewEvent, v: int) -> bool {
    e.kind == ViewEventKind::Mount && e.view == v
}

/// Whether `e` is the unmount event of view `v`.
pub open spec fn is_unmount_of(e: ViewEvent, v: int) -> bool {
    e.kind == ViewEventKind::Unmount && e.view == v
}

/// How many mount events for `v` the history holds.
pub open spec fn mount_count(h: Seq<ViewEvent>, v: int) -> nat
    decreases h.len(),
{
    if h.len() == 0 {
        0
    } else {
        mount_count(h.drop_last(), v) + if is_mount_of(h.last(), v) {
            1nat
        } else {
            0nat
        }
    }
}

/// How many unmount events for `v` the history holds.
pub open spec fn unmount_count(h: Seq<ViewEvent>, v: int) -> nat
    decreases h.len(),
{
    if h.len() == 0 {
        0
    } else {
        unmount_count(h.drop_last(), v) + if is_unmount_of(h.last(), v) {
            1nat
        } else {
            0nat
        }
    }
}

/// The index of the last mount event for `v`, or `-1` if there is none.
pub open spec fn last_mount(h: Seq<ViewEvent>, v: int) -> int
    decreases h.len(),
{
    if h.len() == 0 {
        -1
    } else if is_mount_of(h.last(), v) {
        h.len() - 1
    } else {
        last_mount(h.drop_last(), v)
    }
}

/// Whether the mount and unmount events for `v` alternate, starting with a
/// mount: no view is mounted twice without an unmount in between, nor
/// unmounted without being mounted.
pub open spec fn alternates(h: Seq<ViewEvent>, v: int) -> bool
    decreases h.len(),
{
    if h.len() == 0 {
        true
    } else {
        alternates(h.drop_last(), v) && (is_mount_of(h.last(), v) ==> mount_count(
            h.drop_last(),
            v,
        ) == unmount_count(h.drop_last(), v)) && (is_unmount_of(h.last(), v) ==> mount_count(
            h.drop_last(),
            v,
        ) == unmount_count(h.drop_last(), v) + 1)
    }
}

/// Appending one event moves every history measure by the obvious step.
pub proof fn lemma_hist_push(h: Seq<ViewEvent>, e: ViewEvent, v: int)
    ensures
        mount_count(h.push(e), v) == mount_count(h, v) + if is_mount_of(e, v) {
            1nat
        } else {
            0nat
        },
        unmount_count(h.push(e), v) == unmount_count(h, v) + if is_unmount_of(e, v) {
            1nat
        } else {
            0nat
        },
        last_mount(h.push(e), v) == if is_mount_of(e, v) {
            h.len() as int
        } else {
            last_mount(h, v)
        },
        alternates(h.push(e), v) <==> (alternates(h, v) && (is_mount_of(e, v) ==> mount_count(h, v)
            == unmount_count(h, v)) && (is_unmount_of(e, v) ==> mount_count(h, v) == unmount_count(
            h,
            v,
        ) + 1)),
{
    assert(h.push(e).drop_last() =~= h);
    assert(h.push(e).last() == e);
}

/// A history with no event for `v` has zero counts for it and alternates
/// vacuously.
pub proof fn lemma_hist_absent(h: Seq<ViewEvent>, v: int)
    requires
        forall|k: int| 0 <= k < h.len() ==> (#[trigger] h[k]).view != v,
    ensures
        mount_count(h, v) == 0,
        unmount_count(h, v) == 0,
        last_mount(h, v) == -1,
        alternates(h, v),
    decreases h.len(),
{
    if h.len() > 0 {
        assert(h.last() == h[h.len() - 1]);
        assert(forall|k: int| 0 <= k < h.drop_last().len() ==> (#[trigger] h.drop_last()[k]).view
            != v);
        lemma_hist_absent(h.drop_last(), v);
    }
}

/// The last mount index lies below the history's length.
pub proof fn lemma_last_mount_bound(h: Seq<ViewEvent>, v: int)
    ensures
        -1 <= last_mount(h, v) < h.len(),
    decreases h.len(),
{
    if h.len() > 0 {
        lemma_last_mount_bound(h.drop_last(), v);
    }
}

// ---------------------------------------------------------------------------
// Tree spec functions
// ---------------------------------------------------------------------------

impl ViewTree {
    /// The number of views ever created in the tree.
    pub closed spec fn n_views(self) -> int {
        self.views@.len() as int
    }

    /// The number of windows ever created in the tree.
    pub closed spec fn n_wnds(self) -> int {
        self.wnds@.len() as int
    }

    /// Whether `i` names a view of the tree.
    pub closed spec fn view_live(self, i: int) -> bool {
        0 <= i < self.views@.len()
    }

    /// Whether `w` names a window of the tree.
    pub closed spec fn wnd_live(self, w: int) -> bool {
        0 <= w < self.wnds@.len()
    }

    /// The dirty-flag bits of view `i`.
    pub closed spec fn dirty_bits(self, i: int) -> u16 {
        self.views@[i].dirty.bits
    }

    /// The superview link of view `i`.
    pub closed spec fn superview_of(self, i: int) -> Superview {
        self.views@[i].superview
    }

    /// The parent view of `i`, or `-1` where the superview link names no
    /// view.
    pub closed spec fn parent_of(self, i: int) -> int {
        match self.views@[i].superview {
            Superview::View(p) => p as int,
            _ => -1,
        }
    }

    /// The creation-time flags of view `i`.
    pub closed spec fn view_flags_of(self, i: int) -> u8 {
        self.views@[i].flags.bits
    }

    /// The subview ids owned by view `i`'s layout.
    pub closed spec fn subviews_of(self, i: int) -> Seq<usize> {
        self.views@[i].layout.subviews@
    }

    /// The ids on view `i`'s superview chain, nearest first.
    pub closed spec fn anc_of(self, i: int) -> Seq<int> {
        self.anc@[i]
    }

    /// Whether `x` lies in the subtree rooted at `r`: it is `r` itself or
    /// has `r` on its superview chain.
    pub closed spec fn in_subtree(self, r: int, x: int) -> bool {
        x == r || self.anc_of(x).contains(r)
    }

    /// Whether view `i` is mounted: its `mount` callback has been decided
    /// and no matching `unmount` yet.
    pub closed spec fn view_mounted(self, i: int) -> bool {
        contains_bits(self.dirty_bits(i), MOUNTED)
    }

    /// The cached size traits of view `i`.
    pub closed spec fn size_traits_of(self, i: int) -> SizeTraits {
        self.views@[i].size_traits
    }

    /// The size traits view `i`'s strategy reports for it, before the
    /// subviews' requirements are folded in.
    pub closed spec fn layout_traits_of(self, i: int) -> SizeTraits {
        self.views@[i].layout.size_traits
    }

    /// The strategy's size traits for view `i` with the minima of its first
    /// `k` subviews folded in: what the up phase of the layout computes.
    pub closed spec fn folded_traits(self, i: int, k: int) -> SizeTraits
        decreases k,
    {
        if k <= 0 {
            self.layout_traits_of(i)
        } else {
            self.folded_traits(i, k - 1).spec_raise_min(
                self.size_traits_of(self.subviews_of(i)[k - 1] as int),
            )
        }
    }

    /// The local frame of view `i`, in its superview's coordinates.
    pub closed spec fn frame_of(self, i: int) -> Box2 {
        self.views@[i].frame
    }

    /// The global frame of view `i`, in window coordinates.
    pub closed spec fn global_frame_of(self, i: int) -> Box2 {
        self.views@[i].global_frame
    }

    /// The frame view `i`'s layout assigns to its `k`-th subview.
    pub closed spec fn frame_table_of(self, i: int, k: int) -> Box2 {
        self.views@[i].layout.frames@[k]
    }

    /// The compositor layers registered for view `i`.
    pub closed spec fn layers_of(self, i: int) -> Seq<HLayer> {
        self.views@[i].layers@
    }

    /// Every callback event the tree has decided, in order.
    pub closed spec fn history(self) -> Seq<ViewEvent> {
        self.hist@
    }

    /// The events decided but not yet handed to the embedder.
    pub closed spec fn pending_events(self) -> Seq<ViewEvent> {
        self.pending@
    }

    /// The update requests issued to the platform frame clock, in order.
    pub closed spec fn requests(self) -> Seq<usize> {
        self.update_requests@
    }

    /// The window at the top of `i`'s superview chain, or `-1` where the
    /// chain ends detached.
    pub closed spec fn chain_wnd(self, i: int) -> int {
        let top = if self.anc_of(i).len() == 0 {
            i
        } else {
            self.anc_of(i).last()
        };
        match self.views@[top].superview {
            Superview::Window(w) => w as int,
            _ => -1,
        }
    }

    /// The content view of window `w`, or `-1` after it closed.
    pub closed spec fn content_view_of(self, w: int) -> int {
        match self.wnds@[w].content_view {
            Some(cv) => cv as int,
            None => -1,
        }
    }

    /// Whether window `w` has been closed.
    pub closed spec fn wnd_closed(self, w: int) -> bool {
        self.wnds@[w].closed
    }

    /// Whether an update request for window `w` is outstanding.
    pub closed spec fn wnd_pending_update(self, w: int) -> bool {
        self.wnds@[w].pending_update
    }

    /// The dirty bits of window `w`.
    pub closed spec fn wnd_dirty_bits(self, w: int) -> u8 {
        self.wnds@[w].dirty.bits
    }

    /// The cached visibility of window `w`.
    pub closed spec fn wnd_visible(self, w: int) -> bool {
        self.wnds@[w].style_attrs.visible
    }

    /// The cached caption of window `w`.
    pub closed spec fn wnd_caption(self, w: int) -> Seq<char> {
        self.wnds@[w].style_attrs.caption@
    }

    /// The cached style flags of window `w`.
    pub closed spec fn wnd_style_flags(self, w: int) -> u8 {
        self.wnds@[w].style_attrs.flags.bits
    }

    // -- well-formedness, one named part per concern --

    /// The ghost ancestor table covers exactly the arena, and the arenas fit
    /// the machine's index type.
    pub closed spec fn wf_arena(self) -> bool {
        &&& self.anc@.len() == self.views@.len()
        &&& self.views@.len() <= usize::MAX
        &&& self.wnds@.len() <= usize::MAX
    }

    /// View `i`'s superview link agrees with the ancestor table: a detached
    /// or window-owned view has no view ancestors, and a subview's chain is
    /// its parent followed by the parent's chain.
    pub closed spec fn link_ok_at(self, i: int) -> bool {
        match self.views@[i].superview {
            Superview::Empty => self.anc_of(i) == Seq::<int>::empty(),
            Superview::Window(w) => self.anc_of(i) == Seq::<int>::empty() && self.wnd_live(w as int)
                && self.wnds@[w as int].content_view == Some(i as usize),
            Superview::View(p) => self.view_live(p as int) && self.anc_of(i) == seq![p as int]
                + self.anc_of(p as int),
        }
    }

    pub closed spec fn wf_links(self) -> bool {
        forall|i: int| self.view_live(i) ==> #[trigger] self.link_ok_at(i)
    }

    /// A view whose superview link names a parent is listed among that
    /// parent's subviews.
    pub closed spec fn rev_ok_at(self, i: int) -> bool {
        self.views@[i].superview matches Superview::View(p) ==> self.subviews_of(
            p as int,
        ).contains(i as usize)
    }

    pub closed spec fn wf_rev(self) -> bool {
        forall|i: int| self.view_live(i) ==> #[trigger] self.rev_ok_at(i)
    }

    /// View `i`'s layout tables are consistent and each listed subview
    /// points back at `i`.
    pub closed spec fn subs_ok_at(self, i: int) -> bool {
        &&& self.views@[i].layout.wf()
        &&& forall|k: int|
            0 <= k < self.subviews_of(i).len() ==> {
                let c = #[trigger] self.subviews_of(i)[k] as int;
                self.view_live(c) && self.views@[c].superview == Superview::View(i as usize)
            }
    }

    pub closed spec fn wf_subs(self) -> bool {
        forall|i: int| self.view_live(i) ==> #[trigger] self.subs_ok_at(i)
    }

    /// The parent of view `i` holds at least the raised image of `i`'s dirty
    /// flags: propagation never leaves an ancestor behind, which is what
    /// lets it stop at an ancestor that already has the flags.
    pub closed spec fn prop_ok_at(self, i: int) -> bool {
        self.views@[i].superview matches Superview::View(p) ==> contains_bits(
            self.dirty_bits(p as int),
            raise_bits(self.dirty_bits(i)),
        )
    }

    pub closed spec fn wf_prop(self) -> bool {
        forall|i: int| self.view_live(i) ==> #[trigger] self.prop_ok_at(i)
    }

    /// An unmounted view under a mounted parent is announced by a pending
    /// `MOUNT` bit on the parent, so the mount walk's early exit never
    /// strands it.
    pub closed spec fn mountpend_ok_at(self, i: int) -> bool {
        self.views@[i].superview matches Superview::View(p) ==> ((!self.view_mounted(i)
            && self.view_mounted(p as int)) ==> contains_bits(self.dirty_bits(p as int), MOUNT))
    }

    pub closed spec fn wf_mountpend(self) -> bool {
        forall|i: int| self.view_live(i) ==> #[trigger] self.mountpend_ok_at(i)
    }

    /// Window `w`'s content-view link is mutual, absent only after closing,
    /// and the update guard is at rest between operations.
    pub closed spec fn wnd_ok_at(self, w: int) -> bool {
        &&& match self.wnds@[w].content_view {
            Some(cv) => self.view_live(cv as int) && self.views@[cv as int].superview
                == Superview::Window(w as usize) && !self.wnds@[w].closed,
            None => self.wnds@[w].closed,
        }
        &&& !self.wnds@[w].updating
    }

    pub closed spec fn wf_wnds(self) -> bool {
        forall|w: int| self.wnd_live(w) ==> #[trigger] self.wnd_ok_at(w)
    }

    /// Dirty flags on a window's content view that call for an update pass
    /// imply the pass has been scheduled.
    pub closed spec fn pend_ok_at(self, w: int) -> bool {
        ({
            let cv = self.content_view_of(w);
            !self.wnds@[w].closed && cv >= 0 && self.dirty_bits(cv) & (DESCENDANT_UPDATE_EVENT
                | DESCENDANT_SUBLAYERS) != 0
        }) ==> self.wnds@[w].pending_update
    }

    pub closed spec fn wf_pend(self) -> bool {
        forall|w: int| self.wnd_live(w) ==> #[trigger] self.pend_ok_at(w)
    }

    /// An unmounted view keeps no compositor layers.
    pub closed spec fn layers_ok_at(self, i: int) -> bool {
        !self.view_mounted(i) ==> self.layers_of(i).len() == 0
    }

    pub closed spec fn wf_layers(self) -> bool {
        forall|i: int| self.view_live(i) ==> #[trigger] self.layers_ok_at(i)
    }

    /// The callback history pairs mounts and unmounts: for every view the
    /// counts differ exactly by its current mounted state, the two kinds
    /// alternate, every event names a view of the arena, and the pending
    /// queue is the not-yet-taken suffix of the history.
    pub closed spec fn count_ok_at(self, v: int) -> bool {
        &&& mount_count(self.hist@, v) == unmount_count(self.hist@, v) + (if self.view_mounted(v) {
            1nat
        } else {
            0nat
        })
        &&& alternates(self.hist@, v)
    }

    pub closed spec fn wf_events(self) -> bool {
        &&& self.hist@ == self.taken@ + self.pending@
        &&& forall|k: int|
            0 <= k < self.hist@.len() ==> (#[trigger] self.hist@[k]).view < self.views@.len()
        &&& forall|v: int| self.view_live(v) ==> #[trigger] self.count_ok_at(v)
    }

    /// A mounted subview's parent is mounted: mounted state is closed
    /// upward along the superview chain.
    pub closed spec fn mounted_chain_at(self, i: int) -> bool {
        (self.view_mounted(i) && self.parent_of(i) >= 0) ==> self.view_mounted(self.parent_of(i))
    }

    /// Where a subview and its parent are both mounted, the parent's latest
    /// mount event precedes the subview's: mount fires top-down.
    pub closed spec fn order_ok_at(self, i: int) -> bool {
        (self.view_mounted(i) && self.parent_of(i) >= 0 && self.view_mounted(
            self.parent_of(i),
        )) ==> last_mount(self.hist@, self.parent_of(i)) < last_mount(self.hist@, i)
    }

    pub closed spec fn wf_order(self) -> bool {
        &&& forall|i: int| self.view_live(i) ==> #[trigger] self.mounted_chain_at(i)
        &&& forall|i: int| self.view_live(i) ==> #[trigger] self.order_ok_at(i)
    }

    /// The invariant weakened for a running unmount or mount walk: all of
    /// `wf` except that mounted state need not be closed upward, which is
    /// exactly what a walk breaks while it descends.
    pub closed spec fn wf_butchain(self) -> bool {
        &&& self.wf_arena()
        &&& self.wf_links()
        &&& self.wf_rev()
        &&& self.wf_subs()
        &&& self.wf_prop()
        &&& self.wf_mountpend()
        &&& self.wf_wnds()
        &&& self.wf_pend()
        &&& self.wf_layers()
        &&& self.wf_events()
        &&& forall|i: int| self.view_live(i) ==> #[trigger] self.order_ok_at(i)
    }

    /// The invariant weakened for a running mount walk: all of `wf` except
    /// the promise that an unmounted view under a mounted parent is
    /// announced by the parent's `MOUNT` bit, which the walk satisfies only
    /// once its subtree has fully transitioned.
    pub closed spec fn wf_butmountpend(self) -> bool {
        &&& self.wf_arena()
        &&& self.wf_links()
        &&& self.wf_rev()
        &&& self.wf_subs()
        &&& self.wf_prop()
        &&& self.wf_wnds()
        &&& self.wf_pend()
        &&& self.wf_layers()
        &&& self.wf_events()
        &&& self.wf_order()
    }

    /// The tree's full invariant.
    pub closed spec fn wf(self) -> bool {
        &&& self.wf_arena()
        &&& self.wf_links()
        &&& self.wf_rev()
        &&& self.wf_subs()
        &&& self.wf_prop()
        &&& self.wf_mountpend()
        &&& self.wf_wnds()
        &&& self.wf_pend()
        &&& self.wf_layers()
        &&& self.wf_events()
        &&& self.wf_order()
    }
}

// ---------------------------------------------------------------------------
// Chain lemmas
// ---------------------------------------------------------------------------

impl ViewTree {
    /// Each position of a view's ancestor chain names a live view whose own
    /// chain is the corresponding suffix, and whose superview is the next
    /// entry (or the chain's end).
    pub proof fn lemma_chain(self, i: int, k: int)
        requires
            self.wf_arena(),
            self.wf_links(),
            self.view_live(i),
            0 <= k < self.anc_of(i).len(),
        ensures
            self.view_live(self.anc_of(i)[k]),
            self.anc_of(i).skip(k + 1) == self.anc_of(self.anc_of(i)[k]),
            self.superview_of(
                if k == 0 {
                    i
                } else {
                    self.anc_of(i)[k - 1]
                },
            ) == Superview::View(self.anc_of(i)[k] as usize),
        decreases k,
    {
        assert(self.link_ok_at(i));
        let p = match self.views@[i].superview {
            Superview::View(p) => p as int,
            _ => 0,
        };
        assert(self.anc_of(i) == seq![p] + self.anc_of(p));
        assert(self.anc_of(i)[0] == p);
        if k == 0 {
            assert(self.anc_of(i).skip(1) =~= self.anc_of(p));
            assert(p < 0x10000000000000000 || true);
        } else {
            self.lemma_chain(p, k - 1);
            assert(self.anc_of(i)[k] == self.anc_of(p)[k - 1]);
            assert(self.anc_of(i).skip(k + 1) =~= self.anc_of(p).skip(k));
            if k == 1 {
                assert(self.anc_of(i)[0] == p);
            } else {
                assert(self.anc_of(i)[k - 1] == self.anc_of(p)[k - 2]);
            }
        }
    }

    /// A view's ancestor chain repeats no id and does not pass through the
    /// view itself, so its length is bounded by the arena.
    pub proof fn lemma_chain_distinct(self, i: int)
        requires
            self.wf_arena(),
            self.wf_links(),
            self.view_live(i),
        ensures
            self.anc_of(i).no_duplicates(),
            !self.anc_of(i).contains(i),
            self.anc_of(i).len() < self.n_views(),
    {
        let a = self.anc_of(i);
        assert forall|j: int, k: int| 0 <= j < k < a.len() implies a[j] != a[k] by {
            self.lemma_chain(i, j);
            self.lemma_chain(i, k);
            if a[j] == a[k] {
                assert(a.skip(j + 1) == self.anc_of(a[j]));
                assert(a.skip(k + 1) == self.anc_of(a[j]));
                assert(a.skip(j + 1).len() == a.skip(k + 1).len());
            }
        }
        assert(a.no_duplicates());
        if a.contains(i) {
            let k = a.index_of(i);
            self.lemma_chain(i, k);
            assert(a.skip(k + 1).len() == a.len());
        }
        // Cardinality: the chain extended by `i` is a duplicate-free
        // sequence of distinct arena indices.
        let b = a.push(i);
        assert forall|j: int, k: int| 0 <= j < k < b.len() implies b[j] != b[k] by {
            if k < a.len() {
            } else {
                assert(b[k] == i);
                if b[j] == i {
                    assert(a.contains(i));
                }
            }
        }
        assert(b.no_duplicates());
        assert forall|j: int| 0 <= j < b.len() implies 0 <= #[trigger] b[j]
            < self.views@.len() as int by {
            if j < a.len() {
                self.lemma_chain(i, j);
            }
        }
        b.unique_seq_to_set();
        let r = set_int_range(0, self.views@.len() as int);
        lemma_int_range(0, self.views@.len() as int);
        assert(b.to_set().subset_of(r)) by {
            assert forall|x: int| b.to_set().contains(x) implies r.contains(x) by {
                assert(b.contains(x));
            }
        }
        lemma_len_subset(b.to_set(), r);
    }

    /// Subtree membership is transitive along the chain.
    pub proof fn lemma_sub_trans(self, v: int, c: int, x: int)
        requires
            self.wf_arena(),
            self.wf_links(),
            self.view_live(v),
            self.view_live(c),
            self.view_live(x),
            self.in_subtree(c, x),
            self.in_subtree(v, c),
        ensures
            self.in_subtree(v, x),
    {
        if x == c {
        } else {
            let k = self.anc_of(x).index_of(c);
            self.lemma_chain(x, k);
            if v == c {
            } else {
                assert(self.anc_of(c).contains(v));
                let j = self.anc_of(c).index_of(v);
                assert(self.anc_of(x).skip(k + 1)[j] == v);
                assert(self.anc_of(x)[k + 1 + j] == v);
                assert(self.anc_of(x).contains(v));
            }
        }
    }

    /// A proper member of `v`'s subtree lies in the subtree of exactly the
    /// child of `v` its chain passes through.
    pub proof fn lemma_step_down(self, v: int, x: int) -> (c: int)
        requires
            self.wf_arena(),
            self.wf_links(),
            self.wf_rev(),
            self.view_live(v),
            self.view_live(x),
            self.in_subtree(v, x),
            x != v,
        ensures
            self.view_live(c),
            self.subviews_of(v).contains(c as usize),
            self.in_subtree(c, x),
    {
        let k = self.anc_of(x).index_of(v);
        self.lemma_chain(x, k);
        assert((v as usize) as int == v);
        let c = if k == 0 {
            x
        } else {
            self.anc_of(x)[k - 1]
        };
        if k == 0 {
            assert(self.superview_of(x) == Superview::View(v as usize));
            assert(self.rev_ok_at(x));
            assert(self.subviews_of(v).contains(x as usize));
        } else {
            self.lemma_chain(x, k - 1);
            assert(self.view_live(c));
            assert((c as usize) as int == c);
            assert(self.superview_of(c) == Superview::View(v as usize));
            assert(self.rev_ok_at(c));
            assert(self.subviews_of(v).contains(c as usize));
            assert(self.anc_of(x)[k - 1] == c);
            assert(self.anc_of(x).contains(c));
        }
        c
    }

    /// Distinct children of one view root disjoint subtrees.
    pub proof fn lemma_sibling_disjoint(self, v: int, c1: int, c2: int, x: int)
        requires
            self.wf_arena(),
            self.wf_links(),
            self.view_live(v),
            self.view_live(c1),
            self.view_live(c2),
            self.view_live(x),
            self.superview_of(c1) == Superview::View(v as usize),
            self.superview_of(c2) == Superview::View(v as usize),
            self.in_subtree(c1, x),
            self.in_subtree(c2, x),
        ensures
            c1 == c2,
    {
        if c1 != c2 {
            // Both chains restart at v, so they have the same length; yet one
            // of the two must be a proper ancestor of the other, making its
            // chain a strictly shorter suffix.
            assert(self.link_ok_at(c1));
            assert(self.link_ok_at(c2));
            assert((v as usize) as int == v);
            assert(self.anc_of(c1) == seq![v] + self.anc_of(v));
            assert(self.anc_of(c2) == seq![v] + self.anc_of(v));
            assert(self.anc_of(c1).len() == self.anc_of(c2).len());
            if x == c1 {
                let k = self.anc_of(c1).index_of(c2);
                self.lemma_chain(c1, k);
                assert(self.anc_of(c1).skip(k + 1) == self.anc_of(c2));
            } else if x == c2 {
                let k = self.anc_of(c2).index_of(c1);
                self.lemma_chain(c2, k);
                assert(self.anc_of(c2).skip(k + 1) == self.anc_of(c1));
            } else {
                self.lemma_chain_distinct(x);
                let k1 = self.anc_of(x).index_of(c1);
                let k2 = self.anc_of(x).index_of(c2);
                self.lemma_chain(x, k1);
                self.lemma_chain(x, k2);
                assert(k1 != k2);
                if k1 < k2 {
                    assert(self.anc_of(x).skip(k1 + 1)[k2 - k1 - 1] == c2);
                    assert(self.anc_of(c1).contains(c2));
                    let j = self.anc_of(c1).index_of(c2);
                    self.lemma_chain(c1, j);
                    assert(self.anc_of(c1).skip(j + 1) == self.anc_of(c2));
                } else {
                    assert(self.anc_of(x).skip(k2 + 1)[k1 - k2 - 1] == c1);
                    assert(self.anc_of(c2).contains(c1));
                    let j = self.anc_of(c2).index_of(c1);
                    self.lemma_chain(c2, j);
                    assert(self.anc_of(c2).skip(j + 1) == self.anc_of(c1));
                }
            }
        }
    }
}

// ---------------------------------------------------------------------------
// Shape equality helpers
// ---------------------------------------------------------------------------

/// The two trees hold identical view arenas and ancestor tables.
pub closed spec fn views_eq(a: ViewTree, b: ViewTree) -> bool {
    a.views@ == b.views@ && a.anc@ == b.anc@
}

/// The two trees hold identical window arenas.
pub closed spec fn wnds_eq(a: ViewTree, b: ViewTree) -> bool {
    a.wnds@ == b.wnds@
}

/// View `i` (node and ancestor entry) is identical in the two trees, in
/// every observable part.
pub closed spec fn view_node_eq(a: ViewTree, b: ViewTree, i: int) -> bool {
    &&& a.views@[i].dirty == b.views@[i].dirty
    &&& a.views@[i].flags == b.views@[i].flags
    &&& layout_eq(a.views@[i].layout, b.views@[i].layout)
    &&& a.views@[i].superview == b.views@[i].superview
    &&& a.views@[i].size_traits == b.views@[i].size_traits
    &&& a.views@[i].frame == b.views@[i].frame
    &&& a.views@[i].global_frame == b.views@[i].global_frame
    &&& a.views@[i].layers@ == b.views@[i].layers@
    &&& a.anc@[i] == b.anc@[i]
}

/// Window `w` is identical in the two trees.
pub closed spec fn wnd_node_eq(a: ViewTree, b: ViewTree, w: int) -> bool {
    a.wnds@[w] == b.wnds@[w]
}

/// The two layouts hold the same tables.
pub(crate) open spec fn layout_eq(a: Layout, b: Layout) -> bool {
    a.subviews@ == b.subviews@ && a.frames@ == b.frames@ && a.size_traits == b.size_traits
}

/// The two view nodes agree on everything but the dirty flags and the
/// layer list.
pub(crate) open spec fn view_eq_except_dirty_layers(a: ViewNode, b: ViewNode) -> bool {
    &&& b.flags == a.flags
    &&& layout_eq(a.layout, b.layout)
    &&& b.superview == a.superview
    &&& b.size_traits == a.size_traits
    &&& b.frame == a.frame
    &&& b.global_frame == a.global_frame
}

/// The two view nodes agree on everything but the dirty flags.
pub(crate) open spec fn view_eq_except_dirty(a: ViewNode, b: ViewNode) -> bool {
    &&& b.flags == a.flags
    &&& layout_eq(a.layout, b.layout)
    &&& b.superview == a.superview
    &&& b.size_traits == a.size_traits
    &&& b.frame == a.frame
    &&& b.global_frame == a.global_frame
    &&& b.layers@ == a.layers@
}

/// The two window nodes agree on everything but the outstanding-update flag.
pub(crate) open spec fn wnd_eq_except_pending(a: WndNode, b: WndNode) -> bool {
    &&& b.dirty == a.dirty
    &&& b.closed == a.closed
    &&& b.content_view == a.content_view
    &&& b.style_attrs.visible == a.style_attrs.visible
    &&& b.style_attrs.caption@ == a.style_attrs.caption@
    &&& b.style_attrs.flags == a.style_attrs.flags
    &&& b.updating == a.updating
}

/// Creation-time flags of every view and the subview lists of all views but
/// `v` are the same in the two trees: what a layout replacement on `v`
/// leaves alone.
pub(crate) open spec fn flags_subs_preserved(a: ViewTree, b: ViewTree, v: int) -> bool {
    &&& forall|x: int| b.view_live(x) ==> #[trigger] b.view_flags_of(x) == a.view_flags_of(x)
    &&& forall|x: int|
        b.view_live(x) && x != v ==> #[trigger] b.subviews_of(x) == a.subviews_of(x)
}

/// The preservation predicate composes across a step that itself preserves
/// flags and subview lists.
pub(crate) proof fn lemma_flags_subs_chain(a: ViewTree, b: ViewTree, c: ViewTree, v: int)
    requires
        flags_subs_preserved(a, b, v),
        c.views@.len() == b.views@.len(),
        forall|x: int| c.view_live(x) ==> #[trigger] c.view_flags_of(x) == b.view_flags_of(x),
        forall|x: int|
            c.view_live(x) && x != v ==> #[trigger] c.subviews_of(x) == b.subviews_of(x),
    ensures
        flags_subs_preserved(a, c, v),
{
    assert forall|x: int| c.view_live(x) implies #[trigger] c.view_flags_of(x)
        == a.view_flags_of(x) by {
        assert(b.view_live(x));
        assert(b.view_flags_of(x) == a.view_flags_of(x));
    }
    assert forall|x: int| c.view_live(x) && x != v implies #[trigger] c.subviews_of(x)
        == a.subviews_of(x) by {
        assert(b.view_live(x));
        assert(b.subviews_of(x) == a.subviews_of(x));
    }
}

/// Every superview link of `b` is what replacing the subviews of `v` —
/// detaching the members of `olds`, attaching the members of `news` — leaves
/// behind in `t0`.
pub(crate) open spec fn relink_done(
    t0: ViewTree,
    b: ViewTree,
    v: usize,
    olds: Seq<usize>,
    news: Seq<usize>,
) -> bool {
    forall|x: int|
        b.view_live(x) ==> #[trigger] b.superview_of(x) == (if news.contains(x as usize) {
            Superview::View(v)
        } else if olds.contains(x as usize) {
            Superview::Empty
        } else {
            t0.superview_of(x)
        })
}

/// The relink outcome composes across a step that leaves every superview
/// link alone.
pub(crate) proof fn lemma_relink_chain(
    t0: ViewTree,
    b: ViewTree,
    c: ViewTree,
    v: usize,
    olds: Seq<usize>,
    news: Seq<usize>,
)
    requires
        relink_done(t0, b, v, olds, news),
        c.views@.len() == b.views@.len(),
        forall|x: int| c.view_live(x) ==> #[trigger] c.superview_of(x) == b.superview_of(x),
    ensures
        relink_done(t0, c, v, olds, news),
{
    assert forall|x: int| c.view_live(x) implies #[trigger] c.superview_of(x) == (if news.contains(
        x as usize,
    ) {
        Superview::View(v)
    } else if olds.contains(x as usize) {
        Superview::Empty
    } else {
        t0.superview_of(x)
    }) by {
        assert(b.view_live(x));
        assert(c.superview_of(x) == b.superview_of(x));
    }
}

/// Every view of `b` is mounted exactly where it is mounted in `a`.
pub(crate) open spec fn mounted_eq(a: ViewTree, b: ViewTree) -> bool {
    forall|x: int| b.view_live(x) ==> #[trigger] b.view_mounted(x) == a.view_mounted(x)
}

/// Mounted-state equality composes across a step that preserves it.
pub(crate) proof fn lemma_mounted_eq_chain(a: ViewTree, b: ViewTree, c: ViewTree)
    requires
        mounted_eq(a, b),
        c.views@.len() == b.views@.len(),
        forall|x: int| c.view_live(x) ==> #[trigger] c.view_mounted(x) == b.view_mounted(x),
    ensures
        mounted_eq(a, c),
{
    assert forall|x: int| c.view_live(x) implies #[trigger] c.view_mounted(x) == a.view_mounted(
        x,
    ) by {
        assert(b.view_live(x));
    }
}

/// `w` is the containing layer group of `v`: the nearest view, starting at
/// `v` itself and walking up the superview chain, whose creation-time flags
/// hold `LAYER_GROUP`.
pub open spec fn is_containing_layer(t: ViewTree, v: int, w: int) -> bool {
    if t.view_flags_of(v) & crate::flags::LAYER_GROUP != 0 {
        w == v
    } else {
        exists|k: int|
            0 <= k < t.anc_of(v).len() && #[trigger] t.anc_of(v)[k] == w && t.view_flags_of(w)
                & crate::flags::LAYER_GROUP != 0 && (forall|k2: int|
                0 <= k2 < k ==> t.view_flags_of(#[trigger] t.anc_of(v)[k2])
                    & crate::flags::LAYER_GROUP == 0)
    }
}

/// The parts of a view's state the tree invariant reads are the same in the
/// two trees.
pub(crate) open spec fn logic_eq_at(a: ViewTree, b: ViewTree, i: int) -> bool {
    &&& b.dirty_bits(i) == a.dirty_bits(i)
    &&& b.superview_of(i) == a.superview_of(i)
    &&& b.views@[i].layout.subviews@ == a.views@[i].layout.subviews@
    &&& b.views@[i].layout.frames@.len() == a.views@[i].layout.frames@.len()
}

/// The parts of a window's state the tree invariant reads (but for the
/// outstanding-update flag) are the same in the two trees.
pub(crate) open spec fn wnd_logic_eq_at(a: ViewTree, b: ViewTree, w: int) -> bool {
    &&& b.wnds@[w].content_view == a.wnds@[w].content_view
    &&& b.wnds@[w].closed == a.wnds@[w].closed
    &&& b.wnds@[w].updating == a.wnds@[w].updating
}

/// Carries the invariant from `a` to a tree `b` that differs only in parts
/// the invariant does not read: layers of mounted views, the window's
/// outstanding-update flag where the caller re-proves the schedule clause,
/// the split of the history into taken and pending, and anything outside the
/// two arenas.
pub(crate) proof fn lemma_wf_from_parts(a: ViewTree, b: ViewTree)
    requires
        a.wf(),
        b.views@.len() == a.views@.len(),
        b.wnds@.len() == a.wnds@.len(),
        b.anc@ == a.anc@,
        b.hist@ == a.hist@,
        b.hist@ == b.taken@ + b.pending@,
        forall|i: int| b.view_live(i) ==> #[trigger] logic_eq_at(a, b, i),
        forall|i: int| b.view_live(i) ==> #[trigger] b.layers_ok_at(i),
        forall|w: int| b.wnd_live(w) ==> #[trigger] wnd_logic_eq_at(a, b, w),
        forall|w: int| b.wnd_live(w) ==> #[trigger] b.pend_ok_at(w),
    ensures
        b.wf(),
{
    assert forall|i: int| b.view_live(i) implies #[trigger] b.link_ok_at(i) by {
        assert(a.link_ok_at(i));
        assert(logic_eq_at(a, b, i));
        match b.views@[i].superview {
            Superview::Empty => {},
            Superview::Window(w) => {
                assert(wnd_logic_eq_at(a, b, w as int));
            },
            Superview::View(p) => {},
        }
    }
    assert forall|i: int| b.view_live(i) implies #[trigger] b.rev_ok_at(i) by {
        assert(a.link_ok_at(i));
        assert(a.rev_ok_at(i));
        assert(logic_eq_at(a, b, i));
        match b.views@[i].superview {
            Superview::View(p) => {
                assert(b.view_live(p as int));
                assert(logic_eq_at(a, b, p as int));
            },
            _ => {},
        }
    }
    assert forall|i: int| b.view_live(i) implies #[trigger] b.subs_ok_at(i) by {
        assert(a.subs_ok_at(i));
        assert(logic_eq_at(a, b, i));
        assert forall|k: int| 0 <= k < b.subviews_of(i).len() implies {
            let c = #[trigger] b.subviews_of(i)[k] as int;
            b.view_live(c) && b.views@[c].superview == Superview::View(i as usize)
        } by {
            let c = b.subviews_of(i)[k] as int;
            assert(a.subviews_of(i)[k] == b.subviews_of(i)[k]);
            assert(a.view_live(c) && a.views@[c].superview == Superview::View(i as usize));
            assert(logic_eq_at(a, b, c));
        }
    }
    assert forall|i: int| b.view_live(i) implies #[trigger] b.prop_ok_at(i) by {
        assert(a.link_ok_at(i));
        assert(a.prop_ok_at(i));
        assert(logic_eq_at(a, b, i));
        match b.views@[i].superview {
            Superview::View(p) => {
                assert(b.view_live(p as int));
                assert(logic_eq_at(a, b, p as int));
            },
            _ => {},
        }
    }
    assert forall|i: int| b.view_live(i) implies #[trigger] b.mountpend_ok_at(i) by {
        assert(a.link_ok_at(i));
        assert(a.mountpend_ok_at(i));
        assert(logic_eq_at(a, b, i));
        match b.views@[i].superview {
            Superview::View(p) => {
                assert(b.view_live(p as int));
                assert(logic_eq_at(a, b, p as int));
            },
            _ => {},
        }
    }
    assert forall|w: int| b.wnd_live(w) implies #[trigger] b.wnd_ok_at(w) by {
        assert(a.wnd_ok_at(w));
        assert(wnd_logic_eq_at(a, b, w));
        match b.wnds@[w].content_view {
            Some(cv) => {
                assert(logic_eq_at(a, b, cv as int));
            },
            None => {},
        }
    }
    assert forall|v: int| b.view_live(v) implies #[trigger] b.count_ok_at(v) by {
        assert(a.count_ok_at(v));
        assert(logic_eq_at(a, b, v));
    }
    assert forall|i: int| b.view_live(i) implies #[trigger] b.mounted_chain_at(i)
        && b.order_ok_at(i) by {
        assert(a.link_ok_at(i));
        assert(a.mounted_chain_at(i));
        assert(a.order_ok_at(i));
        assert(logic_eq_at(a, b, i));
        if b.view_mounted(i) && b.parent_of(i) >= 0 {
            assert(b.view_live(b.parent_of(i)));
            assert(logic_eq_at(a, b, b.parent_of(i)));
        }
    }
    assert forall|i: int| b.view_live(i) implies #[trigger] b.order_ok_at(i) by {
        assert(b.mounted_chain_at(i));
    }
}

impl ViewTree {
    /// Along a view's chain, flags held by one ancestor are held by all
    /// higher ones, provided every chain edge satisfies the propagation
    /// invariant and the flags are of the shape propagation sends.
    pub proof fn lemma_up_contains(self, v: int, f: u16, k0: int)
        requires
            self.wf_arena(),
            self.wf_links(),
            forall|i: int|
                self.view_live(i) && self.parent_of(i) != v ==> #[trigger] self.prop_ok_at(i),
            self.view_live(v),
            ancestor_stable(f),
            0 <= k0 < self.anc_of(v).len(),
            contains_bits(self.dirty_bits(self.anc_of(v)[k0]), f),
        ensures
            forall|j: int|
                k0 <= j < self.anc_of(v).len() ==> contains_bits(
                    self.dirty_bits(#[trigger] self.anc_of(v)[j]),
                    f,
                ),
        decreases self.anc_of(v).len() - k0,
    {
        let a = self.anc_of(v);
        self.lemma_chain(v, k0);
        self.lemma_chain_distinct(v);
        if k0 + 1 < a.len() {
            self.lemma_chain(v, k0 + 1);
            let x = a[k0];
            assert(self.superview_of(x) == Superview::View(a[k0 + 1] as usize));
            assert((a[k0 + 1] as usize) as int == a[k0 + 1]);
            assert(self.parent_of(x) == a[k0 + 1]);
            assert(a[k0 + 1] != v);
            assert(self.prop_ok_at(x));
            assert(contains_bits(self.dirty_bits(a[k0 + 1]), raise_bits(self.dirty_bits(x))));
            crate::flags::lemma_raise_mono(self.dirty_bits(x), f);
            crate::flags::lemma_contains_trans(
                self.dirty_bits(a[k0 + 1]),
                raise_bits(self.dirty_bits(x)),
                f,
            );
            self.lemma_up_contains(v, f, k0 + 1);
        }
    }

    /// An empty tree: no views, no windows, nothing owed to anyone.
    pub fn new() -> (t: ViewTree)
        ensures
            t.wf(),
            t.n_views() == 0,
            t.n_wnds() == 0,
            t.pending_events() == Seq::<ViewEvent>::empty(),
            t.history() == Seq::<ViewEvent>::empty(),
            t.requests() == Seq::<usize>::empty(),
    {
        let t = ViewTree {
            views: Vec::new(),
            wnds: Vec::new(),
            pending: Vec::new(),
            update_requests: Vec::new(),
            anc: Ghost(Seq::empty()),
            hist: Ghost(Seq::empty()),
            taken: Ghost(Seq::empty()),
        };
        proof {
            assert(t.hist@ =~= t.taken@ + t.pending@);
        }
        t
    }

    /// The number of views created in the tree so far.
    pub fn view_count(&self) -> (r: usize)
        ensures
            r == self.n_views(),
    {
        self.views.len()
    }

    /// The number of windows created in the tree so far.
    pub fn wnd_count(&self) -> (r: usize)
        ensures
            r == self.n_wnds(),
    {
        self.wnds.len()
    }

    /// The dirty flags of a view.
    pub fn dirty_flags(&self, v: HView) -> (r: ViewDirtyFlags)
        requires
            self.view_live(v.id as int),
        ensures
            r.bits == self.dirty_bits(v.id as int),
    {
        self.views[v.id].dirty
    }

    /// Whether a view is mounted.
    pub fn is_mounted(&self, v: HView) -> (r: bool)
        requires
            self.view_live(v.id as int),
        ensures
            r == self.view_mounted(v.id as int),
    {
        self.views[v.id].dirty.contains(MOUNTED)
    }

    /// The superview link of a view.
    pub fn superview(&self, v: HView) -> (r: Superview)
        requires
            self.view_live(v.id as int),
        ensures
            r == self.superview_of(v.id as int),
    {
        self.views[v.id].superview
    }

    /// The cached size traits of a view.
    pub fn size_traits(&self, v: HView) -> (r: SizeTraits)
        requires
            self.view_live(v.id as int),
        ensures
            r == self.size_traits_of(v.id as int),
    {
        self.views[v.id].size_traits
    }

    /// The local frame of a view, in its superview's coordinates.
    pub fn frame(&self, v: HView) -> (r: Box2)
        requires
            self.view_live(v.id as int),
        ensures
            r == self.frame_of(v.id as int),
    {
        self.views[v.id].frame
    }

    /// The global frame of a view, in window coordinates.
    pub fn global_frame(&self, v: HView) -> (r: Box2)
        requires
            self.view_live(v.id as int),
        ensures
            r == self.global_frame_of(v.id as int),
    {
        self.views[v.id].global_frame
    }

    /// How many compositor layers a view has registered.
    pub fn layer_count(&self, v: HView) -> (r: usize)
        requires
            self.view_live(v.id as int),
        ensures
            r == self.layers_of(v.id as int).len(),
    {
        self.views[v.id].layers.len()
    }

    /// Hand the queued callback events to the embedder, oldest first, and
    /// clear the queue. The handed-out events become part of the taken
    /// prefix of the history.
    pub fn take_pending_events(&mut self) -> (r: Vec<ViewEvent>)
        requires
            old(self).wf(),
        ensures
            final(self).wf(),
            r@ == old(self).pending_events(),
            final(self).pending_events() == Seq::<ViewEvent>::empty(),
            final(self).history() == old(self).history(),
            views_eq(*old(self), *final(self)),
            wnds_eq(*old(self), *final(self)),
            final(self).requests() == old(self).requests(),
    {
        let ghost t0 = *self;
        let mut r: Vec<ViewEvent> = Vec::new();
        core::mem::swap(&mut r, &mut self.pending);
        proof {
            self.taken@ = self.taken@ + r@;
            assert(self.hist@ =~= self.taken@ + self.pending@);
            assert forall|i: int| self.view_live(i) implies #[trigger] logic_eq_at(
                t0,
                *self,
                i,
            ) by {}
            assert forall|i: int| self.view_live(i) implies #[trigger] self.layers_ok_at(i) by {
                assert(t0.layers_ok_at(i));
            }
            assert forall|w: int| self.wnd_live(w) implies #[trigger] wnd_logic_eq_at(
                t0,
                *self,
                w,
            ) by {}
            assert forall|w: int| self.wnd_live(w) implies #[trigger] self.pend_ok_at(w) by {
                assert(t0.pend_ok_at(w));
            }
            lemma_wf_from_parts(t0, *self);
        }
        r
    }

    /// The number of update requests issued to the platform frame clock so
    /// far.
    pub fn update_request_count(&self) -> (r: usize)
        ensures
            r == self.requests().len(),
    {
        self.update_requests.len()
    }

    /// The window id of the `k`-th update request issued so far.
    pub fn update_requests_at(&self, k: usize) -> (r: usize)
        requires
            k < self.requests().len(),
        ensures
            r == self.requests()[k as int],
    {
        self.update_requests[k]
    }

    /// Register the compositor layers of a mounted view, replacing the
    /// previous registration; how an `update` callback publishes its layers.
    pub fn set_layers(&mut self, v: HView, layers: Vec<HLayer>)
        requires
            old(self).wf(),
            old(self).view_live(v.id as int),
            old(self).view_mounted(v.id as int),
        ensures
            final(self).wf(),
            final(self).layers_of(v.id as int) == layers@,
            final(self).n_views() == old(self).n_views(),
            wnds_eq(*old(self), *final(self)),
            forall|i: int|
                final(self).view_live(i) && i != v.id as int ==> view_node_eq(
                    *old(self),
                    *final(self),
                    i,
                ),
            final(self).anc_of(v.id as int) == old(self).anc_of(v.id as int),
            final(self).dirty_bits(v.id as int) == old(self).dirty_bits(v.id as int),
            final(self).superview_of(v.id as int) == old(self).superview_of(v.id as int),
            final(self).subviews_of(v.id as int) == old(self).subviews_of(v.id as int),
            final(self).view_flags_of(v.id as int) == old(self).view_flags_of(v.id as int),
            final(self).history() == old(self).history(),
            final(self).pending_events() == old(self).pending_events(),
            final(self).requests() == old(self).requests(),
    {
        let ghost t0 = *self;
        self.views[v.id].layers = layers;
        proof {
            assert forall|i: int| self.view_live(i) implies #[trigger] logic_eq_at(
                t0,
                *self,
                i,
            ) by {
                if i != v.id as int {
                    assert(self.views@[i] == t0.views@[i]);
                }
            }
            assert forall|i: int| self.view_live(i) implies #[trigger] self.layers_ok_at(i) by {
                assert(t0.layers_ok_at(i));
                if i != v.id as int {
                    assert(self.views@[i] == t0.views@[i]);
                }
            }
            assert forall|w: int| self.wnd_live(w) implies #[trigger] wnd_logic_eq_at(
                t0,
                *self,
                w,
            ) by {}
            assert forall|w: int| self.wnd_live(w) implies #[trigger] self.pend_ok_at(w) by {
                assert(t0.pend_ok_at(w));
                assert(t0.wnd_ok_at(w));
                match self.wnds@[w].content_view {
                    Some(cv) => {
                        assert(logic_eq_at(t0, *self, cv as int));
                    },
                    None => {},
                }
            }
            lemma_wf_from_parts(t0, *self);
        }
    }
}

impl ViewTree {
    /// Set dirty flags on view `v` and propagate `up` along its superview
    /// chain: each ancestor's flags are OR-ed with `up`, stopping early at an
    /// ancestor that already has them all (sound by the propagation
    /// invariant), and scheduling an update when flags that call for one
    /// reach the window at the top of the chain.
    ///
    /// The caller may have freshly rewired `v`'s subview list: the
    /// propagation invariant is not assumed on the edges into `v`, and the
    /// two `subviews_of(v)` premises are exactly what re-establishes it
    /// there.
    pub(crate) fn set_flags_and_propagate(&mut self, v: usize, local: u16, up: u16)
        requires
            old(self).wf_arena(),
            old(self).wf_links(),
            old(self).wf_rev(),
            old(self).wf_subs(),
            old(self).wf_wnds(),
            old(self).wf_pend(),
            old(self).wf_layers(),
            old(self).wf_events(),
            old(self).wf_order(),
            forall|i: int|
                old(self).view_live(i) && old(self).parent_of(i) != v ==> #[trigger] old(self).prop_ok_at(i),
            forall|i: int|
                old(self).view_live(i) && old(self).parent_of(i) != v ==> #[trigger] old(self).mountpend_ok_at(i),
            forall|k: int|
                0 <= k < old(self).subviews_of(v as int).len() ==> contains_bits(
                    old(self).dirty_bits(v as int) | local,
                    raise_bits(
                        old(self).dirty_bits(
                            #[trigger] old(self).subviews_of(v as int)[k] as int,
                        ),
                    ),
                ),
            forall|k: int|
                0 <= k < old(self).subviews_of(v as int).len() ==> ((!old(self).view_mounted(
                    #[trigger] old(self).subviews_of(v as int)[k] as int,
                ) && old(self).view_mounted(v as int)) ==> contains_bits(
                    old(self).dirty_bits(v as int) | local,
                    MOUNT,
                )),
            ancestor_stable(up),
            contains_bits(up, raise_bits(local)),
            local & MOUNTED == 0,
            old(self).view_live(v as int),
        ensures
            final(self).wf(),
            final(self).n_views() == old(self).n_views(),
            final(self).n_wnds() == old(self).n_wnds(),
            final(self).anc@ == old(self).anc@,
            forall|i: int|
                final(self).view_live(i) ==> view_eq_except_dirty(
                    old(self).views@[i],
                    #[trigger] final(self).views@[i],
                ),
            forall|i: int|
                final(self).view_live(i) ==> #[trigger] final(self).dirty_bits(i) == (if i
                    == v as int {
                    old(self).dirty_bits(i) | local
                } else if old(self).anc_of(v as int).contains(i) {
                    old(self).dirty_bits(i) | up
                } else {
                    old(self).dirty_bits(i)
                }),
            final(self).hist@ == old(self).hist@,
            final(self).pending@ == old(self).pending@,
            final(self).taken@ == old(self).taken@,
            forall|w: int|
                final(self).wnd_live(w) ==> wnd_eq_except_pending(
                    old(self).wnds@[w],
                    #[trigger] final(self).wnds@[w],
                ),
            forall|w: int|
                final(self).wnd_live(w) ==> #[trigger] final(self).wnd_pending_update(w) == (old(self).wnd_pending_update(w) || (old(self).chain_wnd(v as int) == w && up
                    & (DESCENDANT_UPDATE_EVENT | DESCENDANT_SUBLAYERS) != 0)),
            old(self).update_requests@.is_prefix_of(final(self).update_requests@),
            up & (DESCENDANT_UPDATE_EVENT | DESCENDANT_SUBLAYERS) == 0 ==> final(self).update_requests@ == old(self).update_requests@ && final(self).wnds@ == old(self).wnds@,
    {
        let ghost t0 = *self;
        proof {
            t0.lemma_chain_distinct(v as int);
            crate::flags::lemma_stable_no_mounted(up);
        }
        let dv = self.views[v].dirty;
        self.views[v].dirty = dv.insert(local);
        let ghost a = t0.anc_of(v as int);
        let mut cur: usize = v;
        let ghost mut k: int = 0;
        loop
            invariant_except_break
                self.wnds@ == t0.wnds@,
                self.update_requests@ == t0.update_requests@,
            invariant
                t0.wf_arena(),
                t0.wf_links(),
                t0.wf_wnds(),
                t0.wf_pend(),
                forall|i: int|
                    t0.view_live(i) && t0.parent_of(i) != v ==> #[trigger] t0.prop_ok_at(i),
                ancestor_stable(up),
                contains_bits(up, raise_bits(local)),
                local & MOUNTED == 0,
                t0.view_live(v as int),
                a == t0.anc_of(v as int),
                a.no_duplicates(),
                !a.contains(v as int),
                self.views@.len() == t0.views@.len(),
                self.anc@ == t0.anc@,
                self.pending@ == t0.pending@,
                self.hist@ == t0.hist@,
                self.taken@ == t0.taken@,
                forall|i: int|
                    t0.view_live(i) ==> view_eq_except_dirty(
                        t0.views@[i],
                        #[trigger] self.views@[i],
                    ),
                0 <= k <= a.len(),
                (cur as int) == if k == 0 {
                    v as int
                } else {
                    a[k - 1]
                },
                t0.view_live(cur as int),
                self.dirty_bits(v as int) == t0.dirty_bits(v as int) | local,
                forall|i: int|
                    t0.view_live(i) && i != v as int ==> #[trigger] self.dirty_bits(i) == (if
                    a.subrange(0, k).contains(i) {
                        t0.dirty_bits(i) | up
                    } else {
                        t0.dirty_bits(i)
                    }),
            ensures
                self.views@.len() == t0.views@.len(),
                self.wnds@.len() == t0.wnds@.len(),
                self.anc@ == t0.anc@,
                self.pending@ == t0.pending@,
                self.hist@ == t0.hist@,
                self.taken@ == t0.taken@,
                forall|i: int|
                    t0.view_live(i) ==> view_eq_except_dirty(
                        t0.views@[i],
                        #[trigger] self.views@[i],
                    ),
                self.dirty_bits(v as int) == t0.dirty_bits(v as int) | local,
                forall|i: int|
                    t0.view_live(i) && i != v as int ==> #[trigger] self.dirty_bits(i) == (if
                    a.contains(i) {
                        t0.dirty_bits(i) | up
                    } else {
                        t0.dirty_bits(i)
                    }),
                forall|w: int|
                    t0.wnd_live(w) ==> wnd_eq_except_pending(
                        t0.wnds@[w],
                        #[trigger] self.wnds@[w],
                    ),
                forall|w: int|
                    t0.wnd_live(w) ==> #[trigger] self.wnd_pending_update(w) == (
                    t0.wnd_pending_update(w) || (t0.chain_wnd(v as int) == w && up
                        & (DESCENDANT_UPDATE_EVENT | DESCENDANT_SUBLAYERS) != 0)),
                t0.update_requests@.is_prefix_of(self.update_requests@),
                up & (DESCENDANT_UPDATE_EVENT | DESCENDANT_SUBLAYERS) == 0
                    ==> self.update_requests@ == t0.update_requests@ && self.wnds@ == t0.wnds@,
            decreases a.len() - k,
        {
            let ghost sb = *self;
            proof {
                // Locate `cur` on the chain: its own chain is the suffix of
                // `a` past position `k`.
                assert(t0.link_ok_at(cur as int));
                if k > 0 {
                    t0.lemma_chain(v as int, k - 1);
                }
                assert(t0.anc_of(cur as int) == a.skip(k)) by {
                    if k == 0 {
                        assert(a.skip(0) =~= a);
                    }
                }
                assert(view_eq_except_dirty(t0.views@[cur as int], self.views@[cur as int]));
                assert(self.superview_of(cur as int) == t0.superview_of(cur as int));
            }
            let sv = self.views[cur].superview;
            match sv {
                Superview::Empty => {
                    proof {
                        assert(a.skip(k) =~= Seq::<int>::empty());
                        assert(k == a.len());
                        assert(a.subrange(0, k) =~= a);
                        assert(t0.chain_wnd(v as int) == -1);
                        assert forall|w: int|
                            t0.wnd_live(w) implies #[trigger] self.wnd_pending_update(w) == (
                        t0.wnd_pending_update(w) || (t0.chain_wnd(v as int) == w && up
                            & (DESCENDANT_UPDATE_EVENT | DESCENDANT_SUBLAYERS) != 0)) by {}
                    }
                    break ;
                },
                Superview::Window(w) => {
                    proof {
                        assert(a.skip(k) =~= Seq::<int>::empty());
                        assert(k == a.len());
                        assert(a.subrange(0, k) =~= a);
                        assert(t0.chain_wnd(v as int) == w as int);
                        assert(t0.wnd_live(w as int));
                    }
                    let ghost vs = self.views@;
                    if up & (DESCENDANT_UPDATE_EVENT | DESCENDANT_SUBLAYERS) != 0 {
                        let pw = self.wnds[w].pending_update;
                        if !pw {
                            self.wnds[w].pending_update = true;
                            self.update_requests.push(w);
                        }
                        proof {
                            assert(self.views@ == vs);
                            assert(self.wnd_pending_update(w as int));
                            assert forall|w2: int|
                                t0.wnd_live(w2) && w2 != w as int implies self.wnds@[w2]
                                == t0.wnds@[w2] by {}
                            assert(t0.update_requests@.is_prefix_of(self.update_requests@));
                            assert forall|i: int|
                                t0.view_live(i) && i != v as int implies #[trigger] self.dirty_bits(
                                i,
                            ) == (if a.contains(i) {
                                t0.dirty_bits(i) | up
                            } else {
                                t0.dirty_bits(i)
                            }) by {
                                assert(a.subrange(0, k) =~= a);
                                assert(sb.dirty_bits(i) == (if a.subrange(0, k).contains(i) {
                                    t0.dirty_bits(i) | up
                                } else {
                                    t0.dirty_bits(i)
                                }));
                                assert(self.views@ == sb.views@);
                                assert(self.dirty_bits(i) == sb.dirty_bits(i));
                            }
                        }
                    }
                    break ;
                },
                Superview::View(p) => {
                    proof {
                        assert(t0.superview_of(cur as int) == Superview::View(p));
                        assert(t0.view_live(p as int));
                        assert(t0.anc_of(cur as int) == seq![p as int] + t0.anc_of(p as int));
                        assert(a.skip(k).len() > 0);
                        assert(k < a.len());
                        assert(a.skip(k)[0] == p as int);
                        assert(a[k] == p as int);
                        // p is not yet updated and is not v
                        assert(!a.subrange(0, k).contains(p as int)) by {
                            if a.subrange(0, k).contains(p as int) {
                                let j = choose|j: int|
                                    0 <= j < k && #[trigger] a.subrange(0, k)[j] == p as int;
                                assert(a[j] == p as int);
                            }
                        }
                        assert(p as int != v as int);
                        assert(self.dirty_bits(p as int) == t0.dirty_bits(p as int));
                    }
                    let dp = self.views[p].dirty;
                    if dp.contains(up) {
                        proof {
                            // Every remaining ancestor already holds `up`.
                            t0.lemma_up_contains(v as int, up, k);
                            assert forall|i: int|
                                t0.view_live(i) && i != v as int implies #[trigger] self.dirty_bits(
                                i,
                            ) == (if a.contains(i) {
                                t0.dirty_bits(i) | up
                            } else {
                                t0.dirty_bits(i)
                            }) by {
                                if a.contains(i) && !a.subrange(0, k).contains(i) {
                                    let j = a.index_of(i);
                                    assert(k <= j < a.len()) by {
                                        if j < k {
                                            assert(a.subrange(0, k)[j] == i);
                                        }
                                    }
                                    assert(contains_bits(t0.dirty_bits(a[j]), up));
                                    crate::flags::lemma_or_absorbed(t0.dirty_bits(i), up);
                                }
                            }
                            // The window at the top, if any, was already
                            // scheduled when these flags first reached it.
                            let cw = t0.chain_wnd(v as int);
                            if cw >= 0 && up & (DESCENDANT_UPDATE_EVENT | DESCENDANT_SUBLAYERS)
                                != 0 {
                                assert(a.len() > 0) by {
                                    if a.len() == 0 {
                                        assert(cur as int == v as int);
                                        assert(t0.superview_of(v as int) is View);
                                    }
                                }
                                let top = a.last();
                                t0.lemma_chain(v as int, a.len() - 1);
                                assert(t0.view_live(top));
                                assert(contains_bits(t0.dirty_bits(top), up));
                                crate::flags::lemma_contains_mask(
                                    t0.dirty_bits(top),
                                    up,
                                    DESCENDANT_UPDATE_EVENT | DESCENDANT_SUBLAYERS,
                                );
                                assert(t0.link_ok_at(top));
                                match t0.views@[top].superview {
                                    Superview::Window(w2) => {
                                        assert(w2 as int == cw);
                                        assert(t0.wnd_ok_at(cw));
                                        assert(t0.pend_ok_at(cw));
                                        assert(t0.content_view_of(cw) == top);
                                        assert(t0.dirty_bits(top) & (DESCENDANT_UPDATE_EVENT
                                            | DESCENDANT_SUBLAYERS) != 0);
                                        assert(t0.wnd_pending_update(cw));
                                    },
                                    _ => {
                                        assert(false);
                                    },
                                }
                            }
                        }
                        break ;
                    }
                    self.views[p].dirty = dp.insert(up);
                    proof {
                        k = k + 1;
                        assert(self.views@ == sb.views@.update(p as int, self.views@[p as int]));
                        assert(self.dirty_bits(p as int) == t0.dirty_bits(p as int) | up);
                        assert forall|i: int|
                            t0.view_live(i) && i != v as int implies #[trigger] self.dirty_bits(i)
                            == (if a.subrange(0, k).contains(i) {
                            t0.dirty_bits(i) | up
                        } else {
                            t0.dirty_bits(i)
                        }) by {
                            if i == p as int {
                                assert(a.subrange(0, k)[k - 1] == p as int);
                                assert(a.subrange(0, k).contains(i));
                            } else {
                                assert(self.views@[i] == sb.views@[i]);
                                assert(self.dirty_bits(i) == sb.dirty_bits(i));
                                assert(sb.dirty_bits(i) == (if a.subrange(0, k - 1).contains(i) {
                                    t0.dirty_bits(i) | up
                                } else {
                                    t0.dirty_bits(i)
                                }));
                                assert(a.subrange(0, k).contains(i) == a.subrange(
                                    0,
                                    k - 1,
                                ).contains(i)) by {
                                    if a.subrange(0, k).contains(i) {
                                        let j = choose|j: int|
                                            0 <= j < k && #[trigger] a.subrange(0, k)[j] == i;
                                        assert(a.subrange(0, k - 1)[j] == i || j == k - 1);
                                    }
                                    if a.subrange(0, k - 1).contains(i) {
                                        let j = choose|j: int|
                                            0 <= j < k - 1 && #[trigger] a.subrange(0, k - 1)[j]
                                                == i;
                                        assert(a.subrange(0, k)[j] == i);
                                    }
                                }
                            }
                        }
                        assert(self.dirty_bits(v as int) == t0.dirty_bits(v as int) | local) by {
                            assert(self.views@[v as int] == sb.views@[v as int]);
                        }
                    }
                    cur = p;
                },
            }
        }
        proof {
            self.lemma_propagate_wf(t0, v, local, up, a);
        }
    }

    /// Re-establishes the full invariant after `set_flags_and_propagate`'s
    /// walk, from the exact dirty-flag delta it leaves behind.
    proof fn lemma_propagate_wf(self, t0: ViewTree, v: usize, local: u16, up: u16, a: Seq<int>)
        requires
            t0.wf_arena(),
            t0.wf_links(),
            t0.wf_rev(),
            t0.wf_subs(),
            t0.wf_wnds(),
            t0.wf_pend(),
            t0.wf_layers(),
            t0.wf_events(),
            t0.wf_order(),
            forall|i: int|
                t0.view_live(i) && t0.parent_of(i) != v ==> #[trigger] t0.prop_ok_at(i),
            forall|i: int|
                t0.view_live(i) && t0.parent_of(i) != v ==> #[trigger] t0.mountpend_ok_at(i),
            forall|k: int|
                0 <= k < t0.subviews_of(v as int).len() ==> contains_bits(
                    t0.dirty_bits(v as int) | local,
                    raise_bits(t0.dirty_bits(#[trigger] t0.subviews_of(v as int)[k] as int)),
                ),
            forall|k: int|
                0 <= k < t0.subviews_of(v as int).len() ==> ((!t0.view_mounted(
                    #[trigger] t0.subviews_of(v as int)[k] as int,
                ) && t0.view_mounted(v as int)) ==> contains_bits(
                    t0.dirty_bits(v as int) | local,
                    MOUNT,
                )),
            ancestor_stable(up),
            contains_bits(up, raise_bits(local)),
            local & MOUNTED == 0,
            t0.view_live(v as int),
            a == t0.anc_of(v as int),
            self.views@.len() == t0.views@.len(),
            self.wnds@.len() == t0.wnds@.len(),
            self.anc@ == t0.anc@,
            self.pending@ == t0.pending@,
            self.hist@ == t0.hist@,
            self.taken@ == t0.taken@,
            forall|i: int|
                t0.view_live(i) ==> view_eq_except_dirty(t0.views@[i], #[trigger] self.views@[i]),
            self.dirty_bits(v as int) == t0.dirty_bits(v as int) | local,
            forall|i: int|
                t0.view_live(i) && i != v as int ==> #[trigger] self.dirty_bits(i) == (if
                a.contains(i) {
                    t0.dirty_bits(i) | up
                } else {
                    t0.dirty_bits(i)
                }),
            forall|w: int|
                t0.wnd_live(w) ==> wnd_eq_except_pending(t0.wnds@[w], #[trigger] self.wnds@[w]),
            forall|w: int|
                t0.wnd_live(w) ==> #[trigger] self.wnd_pending_update(w) == (
                t0.wnd_pending_update(w) || (t0.chain_wnd(v as int) == w && up
                    & (DESCENDANT_UPDATE_EVENT | DESCENDANT_SUBLAYERS) != 0)),
        ensures
            self.wf(),
    {
        let uv = v as int;
        t0.lemma_chain_distinct(uv);
        crate::flags::lemma_stable_no_mounted(up);
        // Mounted state is everywhere unchanged.
        assert forall|i: int| t0.view_live(i) implies #[trigger] self.view_mounted(i)
            == t0.view_mounted(i) by {
            if i == uv {
                crate::flags::lemma_or_disjoint_mask(t0.dirty_bits(i), local, MOUNTED);
            } else if a.contains(i) {
                crate::flags::lemma_or_disjoint_mask(t0.dirty_bits(i), up, MOUNTED);
            }
        }
        // Dirty flags only grow.
        assert forall|i: int| t0.view_live(i) implies contains_bits(
            #[trigger] self.dirty_bits(i),
            t0.dirty_bits(i),
        ) by {
            crate::flags::lemma_or_contains(t0.dirty_bits(i), local);
            crate::flags::lemma_or_contains(t0.dirty_bits(i), up);
            crate::flags::lemma_or_contains(t0.dirty_bits(i), 0);
            crate::flags::lemma_or_zero(t0.dirty_bits(i));
        }
        assert forall|i: int| self.view_live(i) implies #[trigger] self.link_ok_at(i) by {
            assert(t0.link_ok_at(i));
            assert(view_eq_except_dirty(t0.views@[i], self.views@[i]));
            match t0.views@[i].superview {
                Superview::Window(w) => {
                    assert(t0.wnd_live(w as int));
                    assert(wnd_eq_except_pending(t0.wnds@[w as int], self.wnds@[w as int]));
                },
                _ => {},
            }
        }
        assert forall|i: int| self.view_live(i) implies #[trigger] self.rev_ok_at(i) by {
            assert(t0.link_ok_at(i));
            assert(t0.rev_ok_at(i));
            assert(view_eq_except_dirty(t0.views@[i], self.views@[i]));
            match t0.views@[i].superview {
                Superview::View(p) => {
                    assert(view_eq_except_dirty(t0.views@[p as int], self.views@[p as int]));
                },
                _ => {},
            }
        }
        assert forall|i: int| self.view_live(i) implies #[trigger] self.subs_ok_at(i) by {
            assert(t0.subs_ok_at(i));
            assert forall|k: int| 0 <= k < self.subviews_of(i).len() implies {
                let c = #[trigger] self.subviews_of(i)[k] as int;
                self.view_live(c) && self.views@[c].superview == Superview::View(i as usize)
            } by {
                let c = self.subviews_of(i)[k] as int;
                assert(t0.subviews_of(i)[k] == self.subviews_of(i)[k]);
                assert(t0.view_live(c) && t0.views@[c].superview == Superview::View(i as usize));
            }
        }
        // A child of v is neither v itself nor on v's chain.
        assert forall|i: int|
            self.view_live(i) && t0.superview_of(i) == Superview::View(v) implies i != uv
            && !a.contains(i) by {
            assert(t0.link_ok_at(i));
            if i == uv {
                assert(t0.anc_of(i) == seq![uv] + t0.anc_of(uv));
            }
            if a.contains(i) {
                let j = a.index_of(i);
                t0.lemma_chain(uv, j);
                if j + 1 < a.len() {
                    t0.lemma_chain(uv, j + 1);
                    assert(t0.superview_of(i) == Superview::View(a[j + 1] as usize));
                    assert(a[j + 1] == uv);
                    assert(a.contains(uv));
                } else {
                    assert(t0.anc_of(i) == a.skip(j + 1));
                    assert(t0.anc_of(i) == seq![uv] + t0.anc_of(uv));
                }
            }
        }
        assert forall|i: int| self.view_live(i) implies #[trigger] self.prop_ok_at(i) by {
            assert(t0.link_ok_at(i));
            assert(view_eq_except_dirty(t0.views@[i], self.views@[i]));
            match t0.views@[i].superview {
                Superview::View(p) => {
                    let pi = p as int;
                    assert(t0.view_live(pi));
                    assert(view_eq_except_dirty(t0.views@[pi], self.views@[pi]));
                    if pi == uv {
                        // An edge into v: the subview premises say v's new
                        // flags cover the child's raised image.
                        assert(t0.rev_ok_at(i));
                        assert(t0.subviews_of(uv).contains(i as usize));
                        let ks = choose|ks: int|
                            0 <= ks < t0.subviews_of(uv).len() && #[trigger] t0.subviews_of(uv)[ks]
                                == i as usize;
                        assert(contains_bits(
                            t0.dirty_bits(uv) | local,
                            raise_bits(t0.dirty_bits(i)),
                        ));
                        assert(t0.superview_of(i) == Superview::View(v));
                        assert(self.dirty_bits(i) == t0.dirty_bits(i));
                        assert(self.dirty_bits(uv) == t0.dirty_bits(uv) | local);
                    } else if i == uv {
                        // v's own edge: raise(d|local) = raise(d)|raise(local)
                        // and the parent got at least `up`.
                        assert(t0.prop_ok_at(i));
                        crate::flags::lemma_raise_or(t0.dirty_bits(uv), local);
                        assert(a.len() > 0 && a[0] == pi);
                        assert(a.contains(pi));
                        assert(self.dirty_bits(pi) == t0.dirty_bits(pi) | up);
                        crate::flags::lemma_contains_or_mono(
                            t0.dirty_bits(pi),
                            up,
                            raise_bits(t0.dirty_bits(uv)),
                        );
                        crate::flags::lemma_or_contains(t0.dirty_bits(pi), up);
                        crate::flags::lemma_contains_trans(
                            self.dirty_bits(pi),
                            up,
                            raise_bits(local),
                        );
                        crate::flags::lemma_contains_both(
                            self.dirty_bits(pi),
                            raise_bits(t0.dirty_bits(uv)),
                            raise_bits(local),
                        );
                    } else if a.contains(i) {
                        // A chain edge: both ends grew by `up`, which is
                        // ancestor-stable.
                        assert(t0.prop_ok_at(i));
                        let j = a.index_of(i);
                        t0.lemma_chain(uv, j);
                        // the parent of a chain entry is the next entry
                        if j + 1 < a.len() {
                            t0.lemma_chain(uv, j + 1);
                            assert(pi == a[j + 1]);
                            assert(a.contains(pi));
                            assert(self.dirty_bits(pi) == t0.dirty_bits(pi) | up);
                        } else {
                            // i is the chain top yet has a view parent:
                            // impossible, its chain suffix would be empty.
                            assert(t0.anc_of(i) == a.skip(j + 1));
                            assert(a.skip(j + 1) =~= Seq::<int>::empty());
                            assert(false);
                        }
                        crate::flags::lemma_raise_or(t0.dirty_bits(i), up);
                        crate::flags::lemma_contains_or_mono(
                            t0.dirty_bits(pi),
                            up,
                            raise_bits(t0.dirty_bits(i)),
                        );
                        crate::flags::lemma_or_contains(t0.dirty_bits(pi), up);
                        crate::flags::lemma_contains_both(
                            self.dirty_bits(pi),
                            raise_bits(t0.dirty_bits(i)),
                            up,
                        );
                    } else {
                        // An untouched edge: the child kept its flags and the
                        // parent only grew.
                        assert(t0.prop_ok_at(i));
                        assert(self.dirty_bits(i) == t0.dirty_bits(i));
                        crate::flags::lemma_contains_trans(
                            self.dirty_bits(pi),
                            t0.dirty_bits(pi),
                            raise_bits(t0.dirty_bits(i)),
                        );
                    }
                },
                _ => {},
            }
        }
        assert forall|i: int| self.view_live(i) implies #[trigger] self.mountpend_ok_at(i) by {
            assert(t0.link_ok_at(i));
            assert(view_eq_except_dirty(t0.views@[i], self.views@[i]));
            match t0.views@[i].superview {
                Superview::View(p) => {
                    let pi = p as int;
                    assert(t0.view_live(pi));
                    assert(view_eq_except_dirty(t0.views@[pi], self.views@[pi]));
                    if !self.view_mounted(i) && self.view_mounted(pi) {
                        if pi == uv {
                            assert(t0.rev_ok_at(i));
                            assert(t0.subviews_of(uv).contains(i as usize));
                            let ks = choose|ks: int|
                                0 <= ks < t0.subviews_of(uv).len() && #[trigger] t0.subviews_of(
                                    uv,
                                )[ks] == i as usize;
                            assert(contains_bits(t0.dirty_bits(uv) | local, MOUNT));
                            assert(self.dirty_bits(uv) == t0.dirty_bits(uv) | local);
                        } else {
                            assert(i != uv ==> t0.parent_of(i) != v);
                            assert(i == uv ==> t0.parent_of(i) != v) by {
                                if i == uv && t0.parent_of(i) == v {
                                    assert(t0.anc_of(i) == seq![uv] + t0.anc_of(uv));
                                }
                            }
                            assert(t0.mountpend_ok_at(i));
                            assert(contains_bits(t0.dirty_bits(pi), MOUNT));
                            crate::flags::lemma_contains_or_mono(t0.dirty_bits(pi), up, MOUNT);
                            crate::flags::lemma_contains_or_mono(t0.dirty_bits(pi), local, MOUNT);
                        }
                    }
                },
                _ => {},
            }
        }
        assert forall|w: int| self.wnd_live(w) implies #[trigger] self.wnd_ok_at(w) by {
            assert(t0.wnd_ok_at(w));
            assert(wnd_eq_except_pending(t0.wnds@[w], self.wnds@[w]));
            match t0.wnds@[w].content_view {
                Some(cv) => {
                    assert(view_eq_except_dirty(t0.views@[cv as int], self.views@[cv as int]));
                },
                None => {},
            }
        }
        assert forall|w: int| self.wnd_live(w) implies #[trigger] self.pend_ok_at(w) by {
            assert(t0.wnd_ok_at(w));
            assert(t0.pend_ok_at(w));
            assert(wnd_eq_except_pending(t0.wnds@[w], self.wnds@[w]));
            match self.wnds@[w].content_view {
                Some(cv) => {
                    let ci = cv as int;
                    let trig = DESCENDANT_UPDATE_EVENT | DESCENDANT_SUBLAYERS;
                    if !self.wnds@[w].closed && self.dirty_bits(ci) & trig != 0 {
                        if ci == uv {
                            // v itself is the content view: its chain is
                            // empty, so the window is the chain's window.
                            assert(t0.views@[ci].superview == Superview::Window(w as usize));
                            assert(t0.link_ok_at(ci));
                            assert(t0.anc_of(ci) == Seq::<int>::empty());
                            assert((w as usize) as int == w);
                            assert(t0.chain_wnd(uv) == w);
                            if t0.dirty_bits(ci) & trig != 0 {
                                assert(t0.wnd_pending_update(w));
                                assert(self.wnd_pending_update(w));
                            } else {
                                // the triggering bit came with `local`, so
                                // `up` holds its raised image
                                assert(self.dirty_bits(ci) == t0.dirty_bits(ci) | local);
                                let d0 = t0.dirty_bits(ci);
                                assert((d0 | local) & 0x280u16 != 0 && d0 & 0x280u16 == 0
                                    ==> local & 0x280u16 != 0) by (bit_vector);
                                crate::flags::lemma_mask_consts();
                                assert(trig == 0x280u16);
                                assert(local & trig != 0);
                                assert(trig & crate::flags::THRU_MASK == trig);
                                crate::flags::lemma_trig_in_thru(local, trig);
                                crate::flags::lemma_raise_keeps_thru(local);
                                crate::flags::lemma_contains_trans(
                                    up,
                                    raise_bits(local),
                                    local & crate::flags::THRU_MASK,
                                );
                                crate::flags::lemma_contains_mask(
                                    up,
                                    local & crate::flags::THRU_MASK,
                                    trig,
                                );
                                assert(up & trig != 0);
                                assert(self.wnd_pending_update(w));
                            }
                        } else if a.contains(ci) {
                            // an ancestor of v that is a content view is the
                            // chain's top
                            let j = a.index_of(ci);
                            t0.lemma_chain(uv, j);
                            assert(t0.anc_of(ci) == a.skip(j + 1));
                            assert(t0.link_ok_at(ci));
                            assert(t0.anc_of(ci) == Seq::<int>::empty());
                            assert(a.skip(j + 1).len() == 0);
                            assert(j == a.len() - 1);
                            assert(t0.chain_wnd(uv) == w);
                            if t0.dirty_bits(ci) & trig != 0 {
                                assert(t0.wnd_pending_update(w));
                                assert(self.wnd_pending_update(w));
                            } else {
                                assert(self.dirty_bits(ci) == t0.dirty_bits(ci) | up);
                                let d0 = t0.dirty_bits(ci);
                                assert((d0 | up) & 0x280u16 != 0 && d0 & 0x280u16 == 0 ==> up
                                    & 0x280u16 != 0) by (bit_vector);
                                crate::flags::lemma_mask_consts();
                                assert(trig == 0x280u16);
                                assert(up & trig != 0);
                                assert(self.wnd_pending_update(w));
                            }
                        } else {
                            assert(self.dirty_bits(ci) == t0.dirty_bits(ci));
                            assert(t0.wnd_pending_update(w));
                            assert(self.wnd_pending_update(w));
                        }
                    }
                },
                None => {},
            }
        }
        assert forall|i: int| self.view_live(i) implies #[trigger] self.layers_ok_at(i) by {
            assert(t0.layers_ok_at(i));
            assert(view_eq_except_dirty(t0.views@[i], self.views@[i]));
        }
        assert forall|x: int| self.view_live(x) implies #[trigger] self.count_ok_at(x) by {
            assert(t0.count_ok_at(x));
        }
        assert forall|i: int| self.view_live(i) implies #[trigger] self.mounted_chain_at(i)
            && self.order_ok_at(i) by {
            assert(t0.link_ok_at(i));
            assert(t0.mounted_chain_at(i));
            assert(t0.order_ok_at(i));
            assert(view_eq_except_dirty(t0.views@[i], self.views@[i]));
            if t0.parent_of(i) >= 0 {
                assert(t0.view_live(t0.parent_of(i)));
                assert(view_eq_except_dirty(
                    t0.views@[t0.parent_of(i)],
                    self.views@[t0.parent_of(i)],
                ));
            }
        }
        assert forall|i: int| self.view_live(i) implies #[trigger] self.order_ok_at(i) by {
            assert(self.mounted_chain_at(i));
        }
    }
}

impl HView {
    /// Pend a call to the view's `update` callback: mark the view and tell
    /// every ancestor a descendant needs updating, scheduling the window's
    /// update pass when the chain reaches one.
    pub fn pend_update(&self, tree: &mut ViewTree)
        requires
            old(tree).wf(),
            old(tree).view_live(self.id as int),
        ensures
            final(tree).wf(),
            final(tree).n_views() == old(tree).n_views(),
            final(tree).n_wnds() == old(tree).n_wnds(),
            final(tree).dirty_bits(self.id as int) == old(tree).dirty_bits(self.id as int)
                | crate::flags::UPDATE_EVENT,
            forall|i: int|
                final(tree).view_live(i) && i != self.id as int
                    ==> #[trigger] final(tree).dirty_bits(i) == (if old(tree).anc_of(
                    self.id as int,
                ).contains(i) {
                    old(tree).dirty_bits(i) | DESCENDANT_UPDATE_EVENT
                } else {
                    old(tree).dirty_bits(i)
                }),
            final(tree).history() == old(tree).history(),
            final(tree).pending_events() == old(tree).pending_events(),
            old(tree).requests().is_prefix_of(final(tree).requests()),
            forall|w: int|
                final(tree).wnd_live(w) ==> #[trigger] final(tree).wnd_pending_update(w) == (old(tree).wnd_pending_update(w) || old(tree).chain_wnd(self.id as int) == w),
            forall|i: int|
                final(tree).view_live(i) ==> #[trigger] final(tree).superview_of(i) == old(tree).superview_of(i) && final(tree).subviews_of(i) == old(tree).subviews_of(i)
                    && final(tree).view_flags_of(i) == old(tree).view_flags_of(i) && final(tree).layers_of(i) == old(tree).layers_of(i) && final(tree).anc_of(i) == old(tree).anc_of(i) && final(tree).view_mounted(i) == old(tree).view_mounted(i),
            forall|w: int|
                final(tree).wnd_live(w) ==> #[trigger] final(tree).content_view_of(w) == old(tree).content_view_of(w) && final(tree).wnd_closed(w) == old(tree).wnd_closed(w)
                    && final(tree).wnd_dirty_bits(w) == old(tree).wnd_dirty_bits(w) && final(tree).wnd_visible(w) == old(tree).wnd_visible(w) && final(tree).wnd_caption(w) == old(tree).wnd_caption(w) && final(tree).wnd_style_flags(w) == old(tree).wnd_style_flags(
                    w,
                ),
    {
        proof {
            crate::flags::lemma_raise_pairs();
            crate::flags::lemma_consts_stable();
            crate::flags::lemma_no_mounted_consts();
            let v = self.id as int;
            assert forall|i: int|
                old(tree).view_live(i) && old(tree).parent_of(i) != self.id implies #[trigger] old(tree).prop_ok_at(i) by {
                assert(old(tree).prop_ok_at(i));
            }
            assert forall|i: int|
                old(tree).view_live(i) && old(tree).parent_of(i) != self.id implies #[trigger] old(tree).mountpend_ok_at(i) by {
                assert(old(tree).mountpend_ok_at(i));
            }
            assert forall|k: int| 0 <= k < old(tree).subviews_of(v).len() implies contains_bits(
                old(tree).dirty_bits(v) | crate::flags::UPDATE_EVENT,
                raise_bits(old(tree).dirty_bits(#[trigger] old(tree).subviews_of(v)[k] as int)),
            ) by {
                let c = old(tree).subviews_of(v)[k] as int;
                assert(old(tree).subs_ok_at(v));
                assert(old(tree).view_live(c) && old(tree).superview_of(c) == Superview::View(
                    self.id,
                ));
                assert(old(tree).prop_ok_at(c));
                crate::flags::lemma_contains_or_mono(
                    old(tree).dirty_bits(v),
                    crate::flags::UPDATE_EVENT,
                    raise_bits(old(tree).dirty_bits(c)),
                );
            }
            assert forall|k: int| 0 <= k < old(tree).subviews_of(v).len() implies ((!old(tree).view_mounted(#[trigger] old(tree).subviews_of(v)[k] as int) && old(tree).view_mounted(v)) ==> contains_bits(
                old(tree).dirty_bits(v) | crate::flags::UPDATE_EVENT,
                MOUNT,
            )) by {
                let c = old(tree).subviews_of(v)[k] as int;
                assert(old(tree).subs_ok_at(v));
                assert(old(tree).view_live(c) && old(tree).superview_of(c) == Superview::View(
                    self.id,
                ));
                assert(old(tree).mountpend_ok_at(c));
                if !old(tree).view_mounted(c) && old(tree).view_mounted(v) {
                    crate::flags::lemma_contains_or_mono(
                        old(tree).dirty_bits(v),
                        crate::flags::UPDATE_EVENT,
                        MOUNT,
                    );
                }
            }
            crate::flags::lemma_or_contains(DESCENDANT_UPDATE_EVENT, 0);
        }
        let ghost t0 = *tree;
        tree.set_flags_and_propagate(
            self.id,
            crate::flags::UPDATE_EVENT,
            DESCENDANT_UPDATE_EVENT,
        );
        proof {
            // the pending descendant-update bit always asks the chain's
            // window for an update pass
            crate::flags::lemma_mask_consts();
            assert(DESCENDANT_UPDATE_EVENT & (DESCENDANT_UPDATE_EVENT | DESCENDANT_SUBLAYERS)
                != 0);
            crate::flags::lemma_stable_no_mounted(DESCENDANT_UPDATE_EVENT);
            assert forall|i: int| tree.view_live(i) implies #[trigger] tree.view_mounted(i)
                == t0.view_mounted(i) by {
                assert(crate::flags::UPDATE_EVENT & MOUNTED == 0);
                if i == self.id as int {
                    crate::flags::lemma_or_disjoint_mask(
                        t0.dirty_bits(i),
                        crate::flags::UPDATE_EVENT,
                        MOUNTED,
                    );
                } else if t0.anc_of(self.id as int).contains(i) {
                    crate::flags::lemma_or_disjoint_mask(
                        t0.dirty_bits(i),
                        DESCENDANT_UPDATE_EVENT,
                        MOUNTED,
                    );
                }
            }
        }
    }

    /// Construct a view object in `tree` and return a handle to it.
    ///
    /// The new view is detached, owes its first `update` callback, and, when
    /// it manages a layer group, a first sublayer registration.
    pub fn new(tree: &mut ViewTree, flags: ViewFlags) -> (h: HView)
        requires
            old(tree).wf(),
            old(tree).n_views() < usize::MAX,
        ensures
            final(tree).wf(),
            h.id == old(tree).n_views(),
            final(tree).n_views() == old(tree).n_views() + 1,
            final(tree).view_live(h.id as int),
            forall|i: int|
                old(tree).view_live(i) ==> #[trigger] view_node_eq(*old(tree), *final(tree), i),
            flags.bits & crate::flags::LAYER_GROUP != 0 ==> final(tree).dirty_bits(h.id as int)
                == crate::flags::UPDATE_EVENT | crate::flags::SUBLAYERS,
            flags.bits & crate::flags::LAYER_GROUP == 0 ==> final(tree).dirty_bits(h.id as int)
                == crate::flags::UPDATE_EVENT,
            final(tree).superview_of(h.id as int) is Empty,
            final(tree).subviews_of(h.id as int).len() == 0,
            !final(tree).view_mounted(h.id as int),
            final(tree).view_flags_of(h.id as int) == flags.bits,
            final(tree).layers_of(h.id as int).len() == 0,
            final(tree).anc_of(h.id as int) == Seq::<int>::empty(),
            final(tree).frame_of(h.id as int) == (Box2 {
                min: Point2 { x: 0, y: 0 },
                max: Point2 { x: 0, y: 0 },
            }),
            final(tree).global_frame_of(h.id as int) == (Box2 {
                min: Point2 { x: 0, y: 0 },
                max: Point2 { x: 0, y: 0 },
            }),
            final(tree).size_traits_of(h.id as int) == (SizeTraits {
                min: Vector2 { x: 0, y: 0 },
                max: Vector2 { x: i32::MAX, y: i32::MAX },
                preferred: Vector2 { x: 0, y: 0 },
            }),
            wnds_eq(*old(tree), *final(tree)),
            final(tree).history() == old(tree).history(),
            final(tree).pending_events() == old(tree).pending_events(),
            final(tree).requests() == old(tree).requests(),
    {
        let ghost t0 = *tree;
        let id = tree.views.len();
        let dirty_bits: u16 = if flags.bits & crate::flags::LAYER_GROUP != 0 {
            crate::flags::UPDATE_EVENT | crate::flags::SUBLAYERS
        } else {
            crate::flags::UPDATE_EVENT
        };
        let node = ViewNode {
            dirty: ViewDirtyFlags::from_bits(dirty_bits),
            flags,
            layout: Layout::default(),
            superview: Superview::Empty,
            size_traits: SizeTraits::default_traits(),
            frame: Box2::zero(),
            global_frame: Box2::zero(),
            layers: Vec::new(),
        };
        tree.views.push(node);
        proof {
            tree.anc@ = tree.anc@.push(Seq::empty());
            let n = id as int;
            assert(crate::flags::UPDATE_EVENT & MOUNTED == 0 && (crate::flags::UPDATE_EVENT
                | crate::flags::SUBLAYERS) & MOUNTED == 0) by (bit_vector);
            assert(dirty_bits & MOUNTED != MOUNTED);
            assert(!tree.view_mounted(n));
            assert forall|i: int| tree.view_live(i) implies #[trigger] tree.link_ok_at(i) by {
                if i < n {
                    assert(t0.link_ok_at(i));
                    assert(tree.anc_of(i) == t0.anc_of(i));
                } else {
                    assert(tree.anc_of(i) == Seq::<int>::empty());
                }
            }
            assert forall|i: int| tree.view_live(i) implies #[trigger] tree.rev_ok_at(i) by {
                if i < n {
                    assert(t0.link_ok_at(i));
                    assert(t0.rev_ok_at(i));
                    match t0.views@[i].superview {
                        Superview::View(p) => {
                            assert(tree.views@[p as int] == t0.views@[p as int]);
                        },
                        _ => {},
                    }
                }
            }
            assert forall|i: int| tree.view_live(i) implies #[trigger] tree.subs_ok_at(i) by {
                if i < n {
                    assert(t0.subs_ok_at(i));
                    assert(tree.subviews_of(i) == t0.subviews_of(i));
                    assert forall|k: int| 0 <= k < tree.subviews_of(i).len() implies {
                        let c = #[trigger] tree.subviews_of(i)[k] as int;
                        tree.view_live(c) && tree.views@[c].superview == Superview::View(
                            i as usize,
                        )
                    } by {
                        let c = tree.subviews_of(i)[k] as int;
                        assert(t0.view_live(c) && t0.views@[c].superview == Superview::View(
                            i as usize,
                        ));
                        assert(tree.views@[c] == t0.views@[c]);
                    }
                } else {
                    assert(tree.subviews_of(i).len() == 0);
                    assert(tree.subviews_of(i).no_duplicates());
                }
            }
            assert forall|i: int| tree.view_live(i) implies #[trigger] tree.prop_ok_at(i) by {
                if i < n {
                    assert(t0.link_ok_at(i));
                    assert(t0.prop_ok_at(i));
                    match t0.views@[i].superview {
                        Superview::View(p) => {
                            assert(tree.views@[p as int] == t0.views@[p as int]);
                        },
                        _ => {},
                    }
                } else {
                    assert(tree.superview_of(i) is Empty);
                }
            }
            assert forall|i: int| tree.view_live(i) implies #[trigger] tree.mountpend_ok_at(
                i,
            ) by {
                if i < n {
                    assert(t0.link_ok_at(i));
                    assert(t0.mountpend_ok_at(i));
                    match t0.views@[i].superview {
                        Superview::View(p) => {
                            assert(tree.views@[p as int] == t0.views@[p as int]);
                        },
                        _ => {},
                    }
                } else {
                    assert(tree.superview_of(i) is Empty);
                }
            }
            assert forall|i: int| tree.view_live(i) implies #[trigger] tree.layers_ok_at(i) by {
                if i < n {
                    assert(t0.layers_ok_at(i));
                } else {
                    assert(tree.layers_of(i).len() == 0);
                }
            }
            assert forall|i: int| tree.view_live(i) implies #[trigger] tree.mounted_chain_at(i)
                && tree.order_ok_at(i) by {
                if i < n {
                    assert(t0.link_ok_at(i));
                    assert(t0.mounted_chain_at(i));
                    assert(t0.order_ok_at(i));
                    match t0.views@[i].superview {
                        Superview::View(p) => {
                            assert(tree.views@[p as int] == t0.views@[p as int]);
                        },
                        _ => {},
                    }
                } else {
                    assert(!tree.view_mounted(i));
                }
            }
            assert forall|i: int| tree.view_live(i) implies #[trigger] tree.order_ok_at(i) by {
                assert(tree.mounted_chain_at(i));
            }
            assert forall|w: int| tree.wnd_live(w) implies #[trigger] tree.wnd_ok_at(w) by {
                assert(t0.wnd_ok_at(w));
                match t0.wnds@[w].content_view {
                    Some(cv) => {
                        assert(tree.views@[cv as int] == t0.views@[cv as int]);
                    },
                    None => {},
                }
            }
            assert forall|w: int| tree.wnd_live(w) implies #[trigger] tree.pend_ok_at(w) by {
                assert(t0.wnd_ok_at(w));
                assert(t0.pend_ok_at(w));
                match t0.wnds@[w].content_view {
                    Some(cv) => {
                        assert(tree.views@[cv as int] == t0.views@[cv as int]);
                    },
                    None => {},
                }
            }
            assert forall|v: int| tree.view_live(v) implies #[trigger] tree.count_ok_at(v) by {
                if v < n {
                    assert(t0.count_ok_at(v));
                } else {
                    assert(forall|j: int|
                        0 <= j < tree.hist@.len() ==> (#[trigger] tree.hist@[j]).view != v);
                    lemma_hist_absent(tree.hist@, v);
                }
            }
        }
        HView { id }
    }
}

// ---------------------------------------------------------------------------
// Mount/unmount walker
// ---------------------------------------------------------------------------


/// What an unmount walk rooted at `v` does to the callback history, seen
/// from view `x`: no mounts, and one unmount exactly for the mounted members
/// of the subtree.
pub open spec fn unmount_effect_at(t0: ViewTree, t1: ViewTree, v: int, x: int) -> bool {
    &&& mount_count(t1.history(), x) == mount_count(t0.history(), x)
    &&& last_mount(t1.history(), x) == last_mount(t0.history(), x)
    &&& unmount_count(t1.history(), x) == unmount_count(t0.history(), x) + (if t0.in_subtree(v, x)
        && t0.view_mounted(x) {
        1nat
    } else {
        0nat
    })
}

/// What the walk has done to the history after `j` subviews of `v` are
/// finished, seen from view `x`.
pub(crate) open spec fn unmount_walk_at(
    t0: ViewTree,
    t1: ViewTree,
    v: int,
    j: int,
    x: int,
) -> bool {
    &&& mount_count(t1.history(), x) == mount_count(t0.history(), x)
    &&& last_mount(t1.history(), x) == last_mount(t0.history(), x)
    &&& unmount_count(t1.history(), x) == unmount_count(t0.history(), x) + (if (x == v
        || covered_by(t0, t0.subviews_of(v), j, x)) && t0.view_mounted(x) {
        1nat
    } else {
        0nat
    })
}

/// Whether `x` lies in the subtree of one of the first `j` entries of
/// `subs`.
pub(crate) open spec fn covered_by(t0: ViewTree, subs: Seq<usize>, j: int, x: int) -> bool {
    exists|j2: int| 0 <= j2 < j && t0.in_subtree(#[trigger] subs[j2] as int, x)
}

impl ViewTree {
    /// A subview of `v` is a different view whose subtree does not hold `v`.
    pub(crate) proof fn lemma_child_below(self, v: int, c: int)
        requires
            self.wf_arena(),
            self.wf_links(),
            self.view_live(v),
            self.view_live(c),
            self.superview_of(c) == Superview::View(v as usize),
        ensures
            c != v,
            !self.in_subtree(c, v),
        decreases 0int,
    {
        assert(self.link_ok_at(c));
        assert((v as usize) as int == v);
        assert(self.anc_of(c) == seq![v] + self.anc_of(v));
        if c == v {
            assert(self.anc_of(c).len() == 1 + self.anc_of(c).len());
        }
        if self.in_subtree(c, v) {
            assert(self.anc_of(v).contains(c));
            let j = self.anc_of(v).index_of(c);
            self.lemma_chain(v, j);
            assert(self.anc_of(v).skip(j + 1) == self.anc_of(c));
            assert(self.anc_of(c).len() == self.anc_of(v).len() - (j + 1));
            assert(self.anc_of(c).len() == 1 + self.anc_of(v).len());
        }
    }

    /// In a subtree whose members' mounted state is closed upward, an
    /// unmounted root means the whole subtree is unmounted.
    pub(crate) proof fn lemma_subtree_unmounted(self, v: int, x: int)
        requires
            self.wf_arena(),
            self.wf_links(),
            forall|y: int|
                self.view_live(y) && self.in_subtree(v, y) && y != v
                    ==> #[trigger] self.mounted_chain_at(y),
            self.view_live(v),
            !self.view_mounted(v),
            self.view_live(x),
            self.in_subtree(v, x),
        ensures
            !self.view_mounted(x),
        decreases self.anc_of(x).len(),
    {
        if x != v {
            assert(self.anc_of(x).contains(v));
            assert(self.anc_of(x).len() > 0);
            assert(self.link_ok_at(x));
            let p = self.parent_of(x);
            assert(self.anc_of(x) == seq![p] + self.anc_of(p));
            assert(self.view_live(p));
            // the parent stays inside the subtree
            assert(self.in_subtree(v, p)) by {
                if p != v {
                    assert(self.anc_of(x)[0] == p);
                    let j = self.anc_of(x).index_of(v);
                    assert(j != 0);
                    assert(self.anc_of(p)[j - 1] == v);
                }
            }
            self.lemma_subtree_unmounted(v, p);
            assert(self.mounted_chain_at(x));
        }
    }

    /// Unmount view `v` and all of its subviews: clear each mounted member's
    /// `MOUNTED` bit, owe it an `unmount` callback, and clear its layer
    /// list; top-down, and a no-op on an already-unmounted subtree.
    pub(crate) fn call_unmount(&mut self, wm: Wm, v: usize)
        requires
            old(self).wf_butchain(),
            old(self).view_live(v as int),
            forall|x: int|
                old(self).view_live(x) && old(self).in_subtree(v as int, x) && x != v
                    ==> #[trigger] old(self).mounted_chain_at(x),
            old(self).parent_of(v as int) >= 0 ==> !old(self).view_mounted(
                old(self).parent_of(v as int),
            ),
        ensures
            final(self).wf_butchain(),
            final(self).n_views() == old(self).n_views(),
            final(self).n_wnds() == old(self).n_wnds(),
            final(self).anc@ == old(self).anc@,
            final(self).wnds@ == old(self).wnds@,
            final(self).update_requests@ == old(self).update_requests@,
            forall|x: int|
                final(self).view_live(x) && !old(self).in_subtree(v as int, x)
                    ==> (#[trigger] final(self).views@[x]) == old(self).views@[x],
            forall|x: int|
                final(self).view_live(x) && old(self).in_subtree(v as int, x) ==> {
                    &&& #[trigger] final(self).dirty_bits(x) == old(self).dirty_bits(x) & !MOUNTED
                    &&& final(self).layers_of(x).len() == 0
                    &&& !final(self).view_mounted(x)
                    &&& view_eq_except_dirty_layers(old(self).views@[x], final(self).views@[x])
                },
            old(self).history().is_prefix_of(final(self).history()),
            old(self).pending_events().is_prefix_of(final(self).pending_events()),
            forall|x: int|
                final(self).view_live(x) ==> #[trigger] unmount_effect_at(
                    *old(self),
                    *final(self),
                    v as int,
                    x,
                ),
        decreases old(self).n_views() - old(self).anc_of(v as int).len(),
    {
        let ghost t0 = *self;
        proof {
            t0.lemma_chain_distinct(v as int);
        }
        let dv = self.views[v].dirty;
        if !dv.contains(MOUNTED) {
            proof {
                assert forall|x: int|
                    t0.view_live(x) && t0.in_subtree(v as int, x) implies !t0.view_mounted(x)
                    && t0.dirty_bits(x) & !MOUNTED == t0.dirty_bits(x) && t0.layers_of(x).len()
                    == 0 by {
                    t0.lemma_subtree_unmounted(v as int, x);
                    crate::flags::lemma_not_mounted_clear(t0.dirty_bits(x));
                    assert(t0.layers_ok_at(x));
                }
                assert forall|x: int| self.view_live(x) implies #[trigger] unmount_effect_at(
                    t0,
                    *self,
                    v as int,
                    x,
                ) by {}
            }
            return ;
        }
        // Unmount this view: clear the sticky bit, owe the callback, drop
        // the layers.
        self.views[v].dirty = dv.remove(MOUNTED);
        self.views[v].layers = Vec::new();
        let ev = ViewEvent { kind: ViewEventKind::Unmount, view: v };
        self.pending.push(ev);
        proof {
            self.hist@ = self.hist@.push(ev);
        }
        proof {
            self.lemma_unmount_step_ok(t0, v);
            assert forall|x: int| self.view_live(x) implies #[trigger] unmount_walk_at(
                t0,
                *self,
                v as int,
                0,
                x,
            ) by {
                assert(!covered_by(t0, t0.subviews_of(v as int), 0, x));
                assert(unmount_count(self.history(), x) == unmount_count(t0.history(), x) + (if x
                    == v as int {
                    1nat
                } else {
                    0nat
                }));
            }
        }
        // Recurse into every subview.
        let n_subs = self.views[v].layout.subviews.len();
        let mut k: usize = 0;
        while k < n_subs
            invariant
                t0 == *old(self),
                t0.wf_butchain(),
                t0.view_live(v as int),
                forall|x: int|
                    t0.view_live(x) && t0.in_subtree(v as int, x) && x != v
                        ==> #[trigger] t0.mounted_chain_at(x),
                t0.view_mounted(v as int),
                0 <= k <= n_subs,
                n_subs == t0.subviews_of(v as int).len(),
                self.wf_butchain(),
                self.views@.len() == t0.views@.len(),
                self.wnds@ == t0.wnds@,
                self.anc@ == t0.anc@,
                self.update_requests@ == t0.update_requests@,
                forall|x: int|
                    self.view_live(x) && !(x == v as int || covered_by(
                        t0,
                        t0.subviews_of(v as int),
                        k as int,
                        x,
                    )) ==> (#[trigger] self.views@[x]) == t0.views@[x],
                forall|x: int|
                    self.view_live(x) && (x == v as int || covered_by(
                        t0,
                        t0.subviews_of(v as int),
                        k as int,
                        x,
                    )) ==> {
                        &&& #[trigger] self.dirty_bits(x) == t0.dirty_bits(x) & !MOUNTED
                        &&& self.layers_of(x).len() == 0
                        &&& !self.view_mounted(x)
                        &&& view_eq_except_dirty_layers(t0.views@[x], self.views@[x])
                    },
                t0.history().is_prefix_of(self.history()),
                t0.pending_events().is_prefix_of(self.pending_events()),
                forall|x: int|
                    self.view_live(x) ==> #[trigger] unmount_walk_at(
                        t0,
                        *self,
                        v as int,
                        k as int,
                        x,
                    ),
            decreases n_subs - k,
        {
            proof {
                assert(self.dirty_bits(v as int) == t0.dirty_bits(v as int) & !MOUNTED);
                assert(view_eq_except_dirty_layers(t0.views@[v as int], self.views@[v as int]));
                assert(self.subviews_of(v as int) == t0.subviews_of(v as int));
            }
            let c = self.views[v].layout.subviews[k];
            let ghost sb = *self;
            proof {
                assert(c == t0.subviews_of(v as int)[k as int]);
                assert(t0.subs_ok_at(v as int));
                assert(t0.view_live(c as int));
                assert(t0.superview_of(c as int) == Superview::View(v));
                t0.lemma_child_below(v as int, c as int);
                assert(t0.link_ok_at(c as int));
                assert((v as usize) as int == v as int);
                assert(t0.anc_of(c as int) == seq![v as int] + t0.anc_of(v as int));
                assert(t0.anc_of(c as int)[0] == v as int);
                assert(t0.anc_of(c as int).contains(v as int));
                assert(t0.in_subtree(v as int, c as int));
                // the child subtree is untouched so far and keeps its
                // upward-closed mounted state
                assert forall|x: int|
                    sb.view_live(x) && sb.in_subtree(c as int, x) && x != c as int
                        implies #[trigger] sb.mounted_chain_at(x) by {
                    t0.lemma_sub_trans(v as int, c as int, x);
                    assert(!(x == v as int || covered_by(
                        t0,
                        t0.subviews_of(v as int),
                        k as int,
                        x,
                    ))) by {
                        t0.lemma_child_below(v as int, c as int);
                        if covered_by(t0, t0.subviews_of(v as int), k as int, x) {
                            let j2 = choose|j2: int|
                                0 <= j2 < k && t0.in_subtree(
                                    #[trigger] t0.subviews_of(v as int)[j2] as int,
                                    x,
                                );
                            t0.lemma_sibling_disjoint(
                                v as int,
                                t0.subviews_of(v as int)[j2] as int,
                                c as int,
                                x,
                            );
                            assert(t0.subviews_of(v as int).no_duplicates());
                        }
                    }
                    assert(self.views@[x] == t0.views@[x]);
                    assert(t0.mounted_chain_at(x));
                    let p = t0.parent_of(x);
                    assert(t0.link_ok_at(x));
                    if p >= 0 {
                        assert(t0.in_subtree(c as int, p)) by {
                            if p != c as int {
                                assert(t0.anc_of(x)[0] == p);
                                let j = t0.anc_of(x).index_of(c as int);
                                assert(j != 0);
                                assert(t0.anc_of(p)[j - 1] == c as int);
                            }
                        }
                        t0.lemma_sub_trans(v as int, c as int, p);
                        assert(!(p == v as int || covered_by(
                            t0,
                            t0.subviews_of(v as int),
                            k as int,
                            p,
                        ))) by {
                            t0.lemma_child_below(v as int, c as int);
                            if covered_by(t0, t0.subviews_of(v as int), k as int, p) {
                                let j2 = choose|j2: int|
                                    0 <= j2 < k && t0.in_subtree(
                                        #[trigger] t0.subviews_of(v as int)[j2] as int,
                                        p,
                                    );
                                t0.lemma_sibling_disjoint(
                                    v as int,
                                    t0.subviews_of(v as int)[j2] as int,
                                    c as int,
                                    p,
                                );
                            }
                        }
                        assert(self.views@[p] == t0.views@[p]);
                    }
                }
                // the child itself is still untouched
                assert(!(c as int == v as int || covered_by(
                    t0,
                    t0.subviews_of(v as int),
                    k as int,
                    c as int,
                ))) by {
                    if covered_by(t0, t0.subviews_of(v as int), k as int, c as int) {
                        let j2 = choose|j2: int|
                            0 <= j2 < k && t0.in_subtree(
                                #[trigger] t0.subviews_of(v as int)[j2] as int,
                                c as int,
                            );
                        assert(t0.superview_of(t0.subviews_of(v as int)[j2] as int)
                            == Superview::View(v));
                        t0.lemma_sibling_disjoint(
                            v as int,
                            t0.subviews_of(v as int)[j2] as int,
                            c as int,
                            c as int,
                        );
                        assert(t0.subviews_of(v as int)[j2] != t0.subviews_of(v as int)[
                            k as int]);
                    }
                }
                assert(sb.views@[c as int] == t0.views@[c as int]);
                // the child's parent, v, is already unmounted
                assert(sb.parent_of(c as int) == v as int);
                assert(!sb.view_mounted(v as int)) by {
                    assert(sb.dirty_bits(v as int) == t0.dirty_bits(v as int) & !MOUNTED);
                    let d = t0.dirty_bits(v as int);
                    crate::flags::lemma_cleared_loses(d, MOUNTED);
                }
                // the walk descends: the child's chain is one longer
                t0.lemma_chain_distinct(c as int);
                assert(self.anc_of(c as int) == t0.anc_of(c as int));
                assert(self.anc_of(c as int).len() == t0.anc_of(v as int).len() + 1);
                assert(self.anc_of(c as int).len() < self.n_views());
                assert(self.n_views() == t0.n_views());
            }
            self.call_unmount(wm, c);
            proof {
                self.lemma_unmount_merge(t0, sb, v, c, k as int);
            }
            k = k + 1;
            proof {
                assert forall|x: int|
                    self.view_live(x) && (x == v as int || covered_by(
                        t0,
                        t0.subviews_of(v as int),
                        k as int,
                        x,
                    )) implies {
                    &&& self.dirty_bits(x) == t0.dirty_bits(x) & !MOUNTED
                    &&& self.layers_of(x).len() == 0
                    &&& !self.view_mounted(x)
                    &&& view_eq_except_dirty_layers(t0.views@[x], self.views@[x])
                } by {
                    assert(self.dirty_bits(x) == t0.dirty_bits(x) & !MOUNTED);
                }
            }
        }
        proof {
            // every subtree member is v or lies under exactly one subview
            assert forall|x: int|
                self.view_live(x) && t0.in_subtree(v as int, x) implies x == v as int
                || covered_by(t0, t0.subviews_of(v as int), n_subs as int, x) by {
                if x != v as int {
                    let c = t0.lemma_step_down(v as int, x);
                    let j2 = t0.subviews_of(v as int).index_of(c as usize);
                    assert(t0.subviews_of(v as int)[j2] == c as usize);
                    assert(t0.in_subtree(t0.subviews_of(v as int)[j2] as int, x));
                }
            }
            assert forall|x: int|
                self.view_live(x) && (x == v as int || covered_by(
                    t0,
                    t0.subviews_of(v as int),
                    n_subs as int,
                    x,
                )) implies t0.in_subtree(v as int, x) by {
                if x != v as int {
                    let j2 = choose|j2: int|
                        0 <= j2 < n_subs && t0.in_subtree(
                            #[trigger] t0.subviews_of(v as int)[j2] as int,
                            x,
                        );
                    let c = t0.subviews_of(v as int)[j2] as int;
                    assert(t0.subs_ok_at(v as int));
                    assert(t0.superview_of(c) == Superview::View(v));
                    assert(t0.link_ok_at(c));
                    assert((v as usize) as int == v as int);
                    assert(t0.anc_of(c) == seq![v as int] + t0.anc_of(v as int));
                    assert(t0.anc_of(c)[0] == v as int);
                    assert(t0.anc_of(c).contains(v as int));
                    assert(t0.in_subtree(v as int, c));
                    t0.lemma_sub_trans(v as int, c, x);
                }
            }
            assert forall|x: int| self.view_live(x) implies #[trigger] unmount_effect_at(
                t0,
                *self,
                v as int,
                x,
            ) by {
                assert(unmount_walk_at(t0, *self, v as int, n_subs as int, x));
            }
        }
    }

    /// The single-view unmount step preserves the weakened invariant and
    /// moves the history by exactly one unmount event.
    proof fn lemma_unmount_step_ok(self, t0: ViewTree, v: usize)
        requires
            t0.wf_butchain(),
            t0.view_live(v as int),
            t0.view_mounted(v as int),
            t0.parent_of(v as int) >= 0 ==> !t0.view_mounted(t0.parent_of(v as int)),
            self.views@.len() == t0.views@.len(),
            self.wnds@ == t0.wnds@,
            self.anc@ == t0.anc@,
            self.update_requests@ == t0.update_requests@,
            self.taken@ == t0.taken@,
            forall|x: int|
                t0.view_live(x) && x != v as int ==> (#[trigger] self.views@[x]) == t0.views@[x],
            self.dirty_bits(v as int) == t0.dirty_bits(v as int) & !MOUNTED,
            self.layers_of(v as int).len() == 0,
            view_eq_except_dirty_layers(t0.views@[v as int], self.views@[v as int]),
            self.hist@ == t0.hist@.push(
                ViewEvent { kind: ViewEventKind::Unmount, view: v },
            ),
            self.pending@ == t0.pending@.push(
                ViewEvent { kind: ViewEventKind::Unmount, view: v },
            ),
        ensures
            self.wf_butchain(),
            !self.view_mounted(v as int),
            t0.history().is_prefix_of(self.history()),
            t0.pending_events().is_prefix_of(self.pending_events()),
            forall|x: int|
                self.view_live(x) ==> {
                    &&& mount_count(self.history(), x) == mount_count(t0.history(), x)
                    &&& last_mount(self.history(), x) == last_mount(t0.history(), x)
                    &&& #[trigger] unmount_count(self.history(), x) == unmount_count(
                        t0.history(),
                        x,
                    ) + (if x == v as int {
                        1nat
                    } else {
                        0nat
                    })
                },
    {
        let uv = v as int;
        let ev = ViewEvent { kind: ViewEventKind::Unmount, view: v };
        assert(!self.view_mounted(uv)) by {
            let d = t0.dirty_bits(uv);
            crate::flags::lemma_cleared_loses(d, MOUNTED);
        }
        assert forall|x: int| self.view_live(x) implies {
            &&& mount_count(self.history(), x) == mount_count(t0.history(), x)
            &&& last_mount(self.history(), x) == last_mount(t0.history(), x)
            &&& #[trigger] unmount_count(self.history(), x) == unmount_count(t0.history(), x) + (
            if x == uv {
                1nat
            } else {
                0nat
            })
        } by {
            lemma_hist_push(t0.hist@, ev, x);
        }
        assert forall|x: int| true implies {
            &&& mount_count(self.history(), x) == mount_count(t0.history(), x)
            &&& #[trigger] last_mount(self.history(), x) == last_mount(t0.history(), x)
            &&& unmount_count(self.history(), x) == unmount_count(t0.history(), x) + (if x == uv {
                1nat
            } else {
                0nat
            })
        } by {
            lemma_hist_push(t0.hist@, ev, x);
        }
        assert forall|i: int| self.view_live(i) implies #[trigger] self.view_mounted(i) == (
        t0.view_mounted(i) && i != uv) by {
            if i == uv {
            } else {
                assert(self.views@[i] == t0.views@[i]);
            }
        }
        assert forall|i: int| self.view_live(i) implies #[trigger] self.link_ok_at(i) by {
            assert(t0.link_ok_at(i));
        }
        assert forall|i: int| self.view_live(i) implies #[trigger] self.rev_ok_at(i) by {
            assert(t0.link_ok_at(i));
            assert(t0.rev_ok_at(i));
        }
        assert forall|i: int| self.view_live(i) implies #[trigger] self.subs_ok_at(i) by {
            assert(t0.subs_ok_at(i));
            assert forall|k: int| 0 <= k < self.subviews_of(i).len() implies {
                let c = #[trigger] self.subviews_of(i)[k] as int;
                self.view_live(c) && self.views@[c].superview == Superview::View(i as usize)
            } by {
                let c = self.subviews_of(i)[k] as int;
                assert(t0.subviews_of(i)[k] == self.subviews_of(i)[k]);
                assert(t0.view_live(c) && t0.views@[c].superview == Superview::View(i as usize));
            }
        }
        assert forall|i: int| self.view_live(i) implies #[trigger] self.prop_ok_at(i) by {
            assert(t0.link_ok_at(i));
            assert(t0.prop_ok_at(i));
            match t0.views@[i].superview {
                Superview::View(p) => {
                    let pi = p as int;
                    assert(t0.view_live(pi));
                    if i == uv {
                        crate::flags::lemma_raise_drop_mounted(t0.dirty_bits(uv));
                    }
                    if pi == uv {
                        crate::flags::lemma_raise_stable(t0.dirty_bits(i));
                        crate::flags::lemma_contains_minus(
                            t0.dirty_bits(uv),
                            crate::flags::raise_bits(t0.dirty_bits(i)),
                            MOUNTED,
                        );
                    }
                },
                _ => {},
            }
        }
        assert forall|i: int| self.view_live(i) implies #[trigger] self.mountpend_ok_at(i) by {
            assert(t0.link_ok_at(i));
            assert(t0.mountpend_ok_at(i));
            match t0.views@[i].superview {
                Superview::View(p) => {
                    let pi = p as int;
                    if !self.view_mounted(i) && self.view_mounted(pi) {
                        assert(pi != uv);
                        if i == uv {
                            assert(t0.parent_of(uv) == pi);
                        } else {
                            assert(contains_bits(t0.dirty_bits(pi), MOUNT));
                        }
                    }
                },
                _ => {},
            }
        }
        assert forall|w: int| self.wnd_live(w) implies #[trigger] self.wnd_ok_at(w)
            && self.pend_ok_at(w) by {
            assert(t0.wnd_ok_at(w));
            assert(t0.pend_ok_at(w));
            match t0.wnds@[w].content_view {
                Some(cv) => {
                    let ci = cv as int;
                    if ci == uv {
                        crate::flags::lemma_no_mounted_consts();
                        crate::flags::lemma_clear_disjoint_mask(
                            t0.dirty_bits(ci),
                            MOUNTED,
                            crate::flags::DESCENDANT_UPDATE_EVENT
                                | crate::flags::DESCENDANT_SUBLAYERS,
                        );
                    } else {
                        assert(self.views@[ci] == t0.views@[ci]);
                    }
                },
                None => {},
            }
        }
        assert(self.wf_pend()) by {
            assert(forall|w: int|
                self.wnd_live(w) ==> #[trigger] self.wnd_ok_at(w) && self.pend_ok_at(w));
            assert forall|w: int| self.wnd_live(w) implies #[trigger] self.pend_ok_at(w) by {
                assert(self.wnd_ok_at(w) && self.pend_ok_at(w));
            }
        }
        assert forall|i: int| self.view_live(i) implies #[trigger] self.layers_ok_at(i) by {
            assert(t0.layers_ok_at(i));
            if i != uv {
                assert(self.views@[i] == t0.views@[i]);
            }
        }
        assert(self.hist@ =~= self.taken@ + self.pending@) by {
            assert(t0.hist@ == t0.taken@ + t0.pending@);
        }
        assert forall|x: int| self.view_live(x) implies #[trigger] self.count_ok_at(x) by {
            assert(t0.count_ok_at(x));
            crate::tree::lemma_hist_push(t0.hist@, ev, x);
        }
        assert forall|i: int| self.view_live(i) implies #[trigger] self.order_ok_at(i) by {
            assert(t0.link_ok_at(i));
            assert(t0.order_ok_at(i));
            assert(self.view_mounted(i) == (t0.view_mounted(i) && i != uv));
            assert(self.parent_of(i) == t0.parent_of(i)) by {
                if i != uv {
                    assert(self.views@[i] == t0.views@[i]);
                }
            }
            let p = self.parent_of(i);
            if p >= 0 {
                assert(t0.view_live(p));
                assert(self.view_mounted(p) == (t0.view_mounted(p) && p != uv));
                lemma_hist_push(t0.hist@, ev, i);
                lemma_hist_push(t0.hist@, ev, p);
            }
        }
    }

    /// Merging one child's finished unmount into the walk's running
    /// description of the whole step.
    proof fn lemma_unmount_merge(self, t0: ViewTree, sb: ViewTree, v: usize, c: usize, k: int)
        requires
            t0.wf_butchain(),
            t0.view_live(v as int),
            t0.subs_ok_at(v as int),
            0 <= k < t0.subviews_of(v as int).len(),
            c == t0.subviews_of(v as int)[k],
            t0.view_live(c as int),
            t0.superview_of(c as int) == Superview::View(v),
            // the walk's state before this child
            sb.views@.len() == t0.views@.len(),
            sb.anc@ == t0.anc@,
            forall|x: int|
                sb.view_live(x) && !(x == v as int || covered_by(
                    t0,
                    t0.subviews_of(v as int),
                    k,
                    x,
                )) ==> (#[trigger] sb.views@[x]) == t0.views@[x],
            forall|x: int|
                sb.view_live(x) && (x == v as int || covered_by(
                    t0,
                    t0.subviews_of(v as int),
                    k,
                    x,
                )) ==> {
                    &&& #[trigger] sb.dirty_bits(x) == t0.dirty_bits(x) & !MOUNTED
                    &&& sb.layers_of(x).len() == 0
                    &&& !sb.view_mounted(x)
                    &&& view_eq_except_dirty_layers(t0.views@[x], sb.views@[x])
                },
            forall|x: int|
                sb.view_live(x) ==> #[trigger] unmount_walk_at(t0, sb, v as int, k, x),
            // this child's finished unmount
            self.views@.len() == sb.views@.len(),
            self.anc@ == sb.anc@,
            forall|x: int|
                self.view_live(x) && !sb.in_subtree(c as int, x) ==> (#[trigger] self.views@[x])
                    == sb.views@[x],
            forall|x: int|
                self.view_live(x) && sb.in_subtree(c as int, x) ==> {
                    &&& #[trigger] self.dirty_bits(x) == sb.dirty_bits(x) & !MOUNTED
                    &&& self.layers_of(x).len() == 0
                    &&& !self.view_mounted(x)
                    &&& view_eq_except_dirty_layers(sb.views@[x], self.views@[x])
                },
            forall|x: int|
                self.view_live(x) ==> #[trigger] unmount_effect_at(sb, self, c as int, x),
        ensures
            forall|x: int|
                self.view_live(x) && !(x == v as int || covered_by(
                    t0,
                    t0.subviews_of(v as int),
                    k + 1,
                    x,
                )) ==> (#[trigger] self.views@[x]) == t0.views@[x],
            forall|x: int|
                self.view_live(x) && (x == v as int || covered_by(
                    t0,
                    t0.subviews_of(v as int),
                    k + 1,
                    x,
                )) ==> {
                    &&& #[trigger] self.dirty_bits(x) == t0.dirty_bits(x) & !MOUNTED
                    &&& self.layers_of(x).len() == 0
                    &&& !self.view_mounted(x)
                    &&& view_eq_except_dirty_layers(t0.views@[x], self.views@[x])
                },
            forall|x: int|
                self.view_live(x) ==> #[trigger] unmount_walk_at(t0, self, v as int, k + 1, x),
    {
        let subs = t0.subviews_of(v as int);
        t0.lemma_child_below(v as int, c as int);
        assert(t0.link_ok_at(c as int));
        assert((v as usize) as int == v as int);
        assert(t0.anc_of(c as int) == seq![v as int] + t0.anc_of(v as int));
        assert(t0.anc_of(c as int)[0] == v as int);
        assert(t0.anc_of(c as int).contains(v as int));
        assert(t0.in_subtree(v as int, c as int));
        // sb and t0 agree on the whole subtree of c, and membership is the
        // same in both (the ancestor table never changed).
        assert forall|x: int|
            self.view_live(x) && sb.in_subtree(c as int, x) implies sb.views@[x] == t0.views@[x]
            && t0.in_subtree(c as int, x) by {
            assert(sb.view_live(x) && t0.view_live(x));
            assert(sb.anc_of(x) == t0.anc_of(x));
            assert(t0.in_subtree(c as int, x));
            t0.lemma_sub_trans(v as int, c as int, x);
            assert(!(x == v as int || covered_by(t0, subs, k, x))) by {
                if covered_by(t0, subs, k, x) {
                    let j2 = choose|j2: int|
                        0 <= j2 < k && t0.in_subtree(#[trigger] subs[j2] as int, x);
                    assert(t0.superview_of(subs[j2] as int) == Superview::View(v));
                    t0.lemma_sibling_disjoint(v as int, subs[j2] as int, c as int, x);
                }
            }
        }
        assert forall|x: int|
            self.view_live(x) && t0.in_subtree(c as int, x) implies sb.in_subtree(
            c as int,
            x,
        ) by {
            assert(sb.anc_of(x) == t0.anc_of(x));
        }
        assert forall|x: int|
            self.view_live(x) && !(x == v as int || covered_by(t0, subs, k + 1, x))
            implies self.views@[x] == t0.views@[x] by {
            assert(!covered_by(t0, subs, k, x)) by {
                if covered_by(t0, subs, k, x) {
                    let j2 = choose|j2: int|
                        0 <= j2 < k && t0.in_subtree(#[trigger] subs[j2] as int, x);
                    assert(covered_by(t0, subs, k + 1, x));
                }
            }
            assert(!t0.in_subtree(c as int, x)) by {
                if t0.in_subtree(c as int, x) {
                    assert(subs[k] as int == c as int);
                    assert(covered_by(t0, subs, k + 1, x));
                }
            }
            assert(!sb.in_subtree(c as int, x));
        }
        assert forall|x: int|
            self.view_live(x) && (x == v as int || covered_by(t0, subs, k + 1, x)) implies {
            &&& self.dirty_bits(x) == t0.dirty_bits(x) & !MOUNTED
            &&& self.layers_of(x).len() == 0
            &&& !self.view_mounted(x)
            &&& view_eq_except_dirty_layers(t0.views@[x], self.views@[x])
        } by {
            if x == v as int || covered_by(t0, subs, k, x) {
                // already handled before this child; the child's walk left
                // it alone
                assert(!sb.in_subtree(c as int, x)) by {
                    if sb.in_subtree(c as int, x) {
                        assert(sb.anc_of(x) == t0.anc_of(x));
                        assert(t0.in_subtree(c as int, x));
                        if x != v as int {
                            let j2 = choose|j2: int|
                                0 <= j2 < k && t0.in_subtree(#[trigger] subs[j2] as int, x);
                            assert(t0.subs_ok_at(v as int));
                            assert(t0.superview_of(subs[j2] as int) == Superview::View(v));
                            t0.lemma_sibling_disjoint(
                                v as int,
                                subs[j2] as int,
                                c as int,
                                x,
                            );
                            assert(subs[j2] != subs[k]);
                        }
                    }
                }
                assert(self.views@[x] == sb.views@[x]);
                assert(sb.dirty_bits(x) == t0.dirty_bits(x) & !MOUNTED);
                assert(sb.layers_of(x).len() == 0);
                assert(!sb.view_mounted(x));
                assert(view_eq_except_dirty_layers(t0.views@[x], sb.views@[x]));
                assert(self.dirty_bits(x) == sb.dirty_bits(x));
            } else {
                // covered exactly by this child
                let j2 = choose|j2: int|
                    0 <= j2 < k + 1 && t0.in_subtree(#[trigger] subs[j2] as int, x);
                assert(j2 == k) by {
                    if j2 < k {
                        assert(covered_by(t0, subs, k, x));
                    }
                }
                assert(t0.in_subtree(c as int, x));
                assert(sb.in_subtree(c as int, x));
                assert(sb.views@[x] == t0.views@[x]);
                assert(self.dirty_bits(x) == sb.dirty_bits(x) & !MOUNTED);
                assert(self.layers_of(x).len() == 0);
                assert(!self.view_mounted(x));
                assert(view_eq_except_dirty_layers(sb.views@[x], self.views@[x]));
            }
        }
        assert forall|x: int| self.view_live(x) implies #[trigger] unmount_walk_at(
            t0,
            self,
            v as int,
            k + 1,
            x,
        ) by {
            assert(subs == t0.subviews_of(v as int));
            assert(sb.view_live(x));
            assert(unmount_walk_at(t0, sb, v as int, k, x));
            assert(unmount_effect_at(sb, self, c as int, x));
            if sb.in_subtree(c as int, x) {
                assert(sb.views@[x] == t0.views@[x]);
                assert(sb.view_mounted(x) == t0.view_mounted(x));
                assert(t0.in_subtree(c as int, x));
                assert(subs[k] as int == c as int);
                assert(covered_by(t0, subs, k + 1, x));
                assert(covered_by(t0, t0.subviews_of(v as int), k + 1, x));
                assert(unmount_count(sb.history(), x) == unmount_count(t0.history(), x));
                assert(!(x == v as int || covered_by(t0, subs, k, x))) by {
                    if covered_by(t0, subs, k, x) {
                        let j2 = choose|j2: int|
                            0 <= j2 < k && t0.in_subtree(#[trigger] subs[j2] as int, x);
                        assert(t0.subs_ok_at(v as int));
                        assert(t0.superview_of(subs[j2] as int) == Superview::View(v));
                        t0.lemma_sibling_disjoint(v as int, subs[j2] as int, c as int, x);
                        assert(subs[j2] != subs[k]);
                    }
                    t0.lemma_child_below(v as int, c as int);
                    t0.lemma_sub_trans(v as int, c as int, x);
                }
            } else {
                assert(unmount_count(self.history(), x) == unmount_count(sb.history(), x));
                if covered_by(t0, subs, k + 1, x) && !covered_by(t0, subs, k, x) {
                    let j2 = choose|j2: int|
                        0 <= j2 < k + 1 && t0.in_subtree(#[trigger] subs[j2] as int, x);
                    assert(j2 == k) by {
                        if j2 < k {
                            assert(covered_by(t0, subs, k, x));
                        }
                    }
                    assert(t0.in_subtree(c as int, x));
                    assert(sb.in_subtree(c as int, x));
                    assert(false);
                }
            }
        }
    }
}

/// What a mount walk rooted at `v` does to the callback history, seen from
/// view `x`: no unmounts, and one mount exactly for the not-yet-mounted
/// members of the subtree.
pub open spec fn mount_effect_at(t0: ViewTree, t1: ViewTree, v: int, x: int) -> bool {
    &&& unmount_count(t1.history(), x) == unmount_count(t0.history(), x)
    &&& mount_count(t1.history(), x) == mount_count(t0.history(), x) + (if t0.in_subtree(v, x)
        && !t0.view_mounted(x) {
        1nat
    } else {
        0nat
    })
    &&& (t0.view_mounted(x) || !t0.in_subtree(v, x)) ==> last_mount(t1.history(), x)
        == last_mount(t0.history(), x)
    &&& (!t0.view_mounted(x) && t0.in_subtree(v, x)) ==> t0.history().len() <= last_mount(
        t1.history(),
        x,
    ) < t1.history().len()
}

/// What the mount walk has done to the history after `j` subviews of `v`
/// are finished, seen from view `x`.
pub(crate) open spec fn mount_walk_at(t0: ViewTree, t1: ViewTree, v: int, j: int, x: int) -> bool {
    &&& unmount_count(t1.history(), x) == unmount_count(t0.history(), x)
    &&& mount_count(t1.history(), x) == mount_count(t0.history(), x) + (if (x == v || covered_by(
        t0,
        t0.subviews_of(v),
        j,
        x,
    )) && !t0.view_mounted(x) {
        1nat
    } else {
        0nat
    })
    &&& (t0.view_mounted(x) || !(x == v || covered_by(t0, t0.subviews_of(v), j, x)))
        ==> last_mount(t1.history(), x) == last_mount(t0.history(), x)
    &&& (!t0.view_mounted(x) && (x == v || covered_by(t0, t0.subviews_of(v), j, x)))
        ==> t0.history().len() <= last_mount(t1.history(), x) < t1.history().len()
}

impl ViewTree {
    /// Without a pending `MOUNT` bit at the root, no member of the subtree
    /// has one: the bit propagates upward with the dirty flags.
    pub(crate) proof fn lemma_subtree_no_mount(self, v: int, x: int)
        requires
            self.wf_arena(),
            self.wf_links(),
            self.wf_prop(),
            self.view_live(v),
            self.dirty_bits(v) & MOUNT != MOUNT,
            self.view_live(x),
            self.in_subtree(v, x),
        ensures
            self.dirty_bits(x) & MOUNT != MOUNT,
        decreases self.anc_of(x).len(),
    {
        if x != v {
            assert(self.anc_of(x).contains(v));
            assert(self.anc_of(x).len() > 0);
            assert(self.link_ok_at(x));
            let p = self.parent_of(x);
            assert(self.anc_of(x) == seq![p] + self.anc_of(p));
            assert(self.view_live(p));
            assert(self.in_subtree(v, p)) by {
                if p != v {
                    assert(self.anc_of(x)[0] == p);
                    let j = self.anc_of(x).index_of(v);
                    assert(j != 0);
                    assert(self.anc_of(p)[j - 1] == v);
                }
            }
            self.lemma_subtree_no_mount(v, p);
            if self.dirty_bits(x) & MOUNT == MOUNT {
                crate::flags::lemma_mount_in_raise(self.dirty_bits(x));
                assert(self.prop_ok_at(x));
                crate::flags::lemma_contains_trans(
                    self.dirty_bits(p),
                    raise_bits(self.dirty_bits(x)),
                    MOUNT,
                );
            }
        }
    }

    /// In a `MOUNT`-free subtree with a mounted root, every member is
    /// mounted: any unmounted view under a mounted parent would have raised
    /// the parent's `MOUNT` bit.
    pub(crate) proof fn lemma_subtree_mounted(self, v: int, x: int)
        requires
            self.wf_arena(),
            self.wf_links(),
            self.wf_mountpend(),
            self.view_live(v),
            self.view_mounted(v),
            forall|y: int|
                self.view_live(y) && self.in_subtree(v, y) ==> #[trigger] self.dirty_bits(y)
                    & MOUNT != MOUNT,
            self.view_live(x),
            self.in_subtree(v, x),
        ensures
            self.view_mounted(x),
        decreases self.anc_of(x).len(),
    {
        if x != v {
            assert(self.anc_of(x).contains(v));
            assert(self.link_ok_at(x));
            let p = self.parent_of(x);
            assert(self.anc_of(x) == seq![p] + self.anc_of(p));
            assert(self.view_live(p));
            assert(self.in_subtree(v, p)) by {
                if p != v {
                    assert(self.anc_of(x)[0] == p);
                    let j = self.anc_of(x).index_of(v);
                    assert(j != 0);
                    assert(self.anc_of(p)[j - 1] == v);
                }
            }
            self.lemma_subtree_mounted(v, p);
            assert(self.mountpend_ok_at(x));
            if !self.view_mounted(x) {
                assert(contains_bits(self.dirty_bits(p), MOUNT));
                assert(self.dirty_bits(p) & MOUNT != MOUNT);
            }
        }
    }

    /// Mount view `v` and all of its subviews unconditionally: set each
    /// not-yet-mounted member's `MOUNTED` bit, owe it a `mount` callback
    /// before its children's, and clear the subtree's pending `MOUNT` bits.
    pub(crate) fn call_pending_mount(&mut self, wm: Wm, v: usize, root: Ghost<int>)
        requires
            old(self).wf_butmountpend(),
            forall|i: int|
                old(self).view_live(i) ==> #[trigger] old(self).mountpend_ok_at(i) || old(self).in_subtree(root@, i),
            old(self).view_live(root@),
            old(self).in_subtree(root@, v as int),
            old(self).view_live(v as int),
            old(self).parent_of(v as int) >= 0 ==> old(self).view_mounted(
                old(self).parent_of(v as int),
            ),
        ensures
            final(self).wf_butmountpend(),
            forall|i: int|
                final(self).view_live(i) ==> #[trigger] final(self).mountpend_ok_at(i) || (old(self).in_subtree(root@, i) && !old(self).in_subtree(v as int, i)),
            final(self).n_views() == old(self).n_views(),
            final(self).n_wnds() == old(self).n_wnds(),
            final(self).anc@ == old(self).anc@,
            final(self).wnds@ == old(self).wnds@,
            final(self).update_requests@ == old(self).update_requests@,
            forall|x: int|
                final(self).view_live(x) && !old(self).in_subtree(v as int, x)
                    ==> (#[trigger] final(self).views@[x]) == old(self).views@[x],
            forall|x: int|
                final(self).view_live(x) && old(self).in_subtree(v as int, x) ==> {
                    &&& #[trigger] final(self).dirty_bits(x) == (old(self).dirty_bits(x) & !MOUNT)
                        | MOUNTED
                    &&& final(self).view_mounted(x)
                    &&& view_eq_except_dirty(old(self).views@[x], final(self).views@[x])
                },
            old(self).history().is_prefix_of(final(self).history()),
            old(self).pending_events().is_prefix_of(final(self).pending_events()),
            forall|x: int|
                final(self).view_live(x) ==> #[trigger] mount_effect_at(
                    *old(self),
                    *final(self),
                    v as int,
                    x,
                ),
            forall|j1: int, j2: int, x: int, y: int|
                #![trigger old(self).in_subtree(old(self).subviews_of(v as int)[j1] as int, x), old(self).in_subtree(old(self).subviews_of(v as int)[j2] as int, y)]
                0 <= j1 < j2 < old(self).subviews_of(v as int).len() && final(self).view_live(x)
                    && final(self).view_live(y) && old(self).in_subtree(
                    old(self).subviews_of(v as int)[j1] as int,
                    x,
                ) && old(self).in_subtree(old(self).subviews_of(v as int)[j2] as int, y) && !old(
                    self,
                ).view_mounted(x) && !old(self).view_mounted(y) ==> last_mount(
                    final(self).history(),
                    x,
                ) < last_mount(final(self).history(), y),
        decreases old(self).n_views() - old(self).anc_of(v as int).len(),
    {
        let ghost t0 = *self;
        proof {
            t0.lemma_chain_distinct(v as int);
        }
        // Transition this view first: `mount` fires on a parent before its
        // children.
        let dv = self.views[v].dirty;
        if !dv.contains(MOUNTED) {
            self.views[v].dirty = dv.insert(MOUNTED);
            let ev = ViewEvent { kind: ViewEventKind::Mount, view: v };
            self.pending.push(ev);
            proof {
                self.hist@ = self.hist@.push(ev);
            }
        }
        proof {
            if t0.view_mounted(v as int) {
                crate::flags::lemma_or_absorbed(t0.dirty_bits(v as int), MOUNTED);
                assert(self.views@[v as int] == t0.views@[v as int]);
            }
            self.lemma_mount_fire_ok(t0, v, root@);
            assert(self.dirty_bits(v as int) == t0.dirty_bits(v as int) | MOUNTED);
        }
        // Recurse into every subview.
        let n_subs = self.views[v].layout.subviews.len();
        let mut k: usize = 0;
        while k < n_subs
            invariant
                t0 == *old(self),
                t0.wf_butmountpend(),
                t0.view_live(v as int),
                t0.view_live(root@),
                t0.in_subtree(root@, v as int),
                0 <= k <= n_subs,
                n_subs == t0.subviews_of(v as int).len(),
                self.wf_butmountpend(),
                forall|i: int|
                    self.view_live(i) ==> #[trigger] self.mountpend_ok_at(i) || t0.in_subtree(
                        root@,
                        i,
                    ),
                self.views@.len() == t0.views@.len(),
                self.wnds@ == t0.wnds@,
                self.anc@ == t0.anc@,
                self.update_requests@ == t0.update_requests@,
                self.view_mounted(v as int),
                self.dirty_bits(v as int) == t0.dirty_bits(v as int) | MOUNTED,
                forall|x: int|
                    self.view_live(x) && x != v as int && !covered_by(
                        t0,
                        t0.subviews_of(v as int),
                        k as int,
                        x,
                    ) ==> (#[trigger] self.views@[x]) == t0.views@[x],
                forall|x: int|
                    self.view_live(x) && x != v as int && covered_by(
                        t0,
                        t0.subviews_of(v as int),
                        k as int,
                        x,
                    ) ==> {
                        &&& #[trigger] self.dirty_bits(x) == (t0.dirty_bits(x) & !MOUNT) | MOUNTED
                        &&& self.view_mounted(x)
                        &&& view_eq_except_dirty(t0.views@[x], self.views@[x])
                    },
                view_eq_except_dirty(t0.views@[v as int], self.views@[v as int]),
                t0.history().is_prefix_of(self.history()),
                t0.pending_events().is_prefix_of(self.pending_events()),
                forall|j1: int, j2: int, x: int, y: int|
                    #![trigger t0.in_subtree(t0.subviews_of(v as int)[j1] as int, x), t0.in_subtree(t0.subviews_of(v as int)[j2] as int, y)]
                    0 <= j1 < j2 < k && self.view_live(x) && self.view_live(y) && t0.in_subtree(
                        t0.subviews_of(v as int)[j1] as int,
                        x,
                    ) && t0.in_subtree(t0.subviews_of(v as int)[j2] as int, y)
                        && !t0.view_mounted(x) && !t0.view_mounted(y) ==> last_mount(
                        self.history(),
                        x,
                    ) < last_mount(self.history(), y),
                forall|x: int|
                    self.view_live(x) ==> #[trigger] mount_walk_at(
                        t0,
                        *self,
                        v as int,
                        k as int,
                        x,
                    ),
            decreases n_subs - k,
        {
            proof {
                assert(self.subviews_of(v as int) == t0.subviews_of(v as int));
            }
            let c = self.views[v].layout.subviews[k];
            let ghost sb = *self;
            proof {
                assert(c == t0.subviews_of(v as int)[k as int]);
                assert(t0.subs_ok_at(v as int));
                assert(t0.view_live(c as int));
                assert(t0.superview_of(c as int) == Superview::View(v));
                t0.lemma_child_below(v as int, c as int);
                t0.lemma_chain_distinct(c as int);
                assert(t0.link_ok_at(c as int));
                assert((v as usize) as int == v as int);
                assert(t0.anc_of(c as int) == seq![v as int] + t0.anc_of(v as int));
                assert(t0.anc_of(c as int)[0] == v as int);
                assert(t0.anc_of(c as int).contains(v as int));
                assert(t0.in_subtree(v as int, c as int));
                // the child itself is still untouched, and its parent is v,
                // which is mounted
                assert(!covered_by(t0, t0.subviews_of(v as int), k as int, c as int)) by {
                    if covered_by(t0, t0.subviews_of(v as int), k as int, c as int) {
                        let j2 = choose|j2: int|
                            0 <= j2 < k && t0.in_subtree(
                                #[trigger] t0.subviews_of(v as int)[j2] as int,
                                c as int,
                            );
                        assert(t0.superview_of(t0.subviews_of(v as int)[j2] as int)
                            == Superview::View(v));
                        t0.lemma_sibling_disjoint(
                            v as int,
                            t0.subviews_of(v as int)[j2] as int,
                            c as int,
                            c as int,
                        );
                        assert(t0.subviews_of(v as int)[j2] != t0.subviews_of(v as int)[
                            k as int]);
                    }
                }
                assert(sb.views@[c as int] == t0.views@[c as int]);
                assert(sb.parent_of(c as int) == v as int);
                assert(self.anc_of(c as int) == t0.anc_of(c as int));
                assert(self.anc_of(c as int).len() == t0.anc_of(v as int).len() + 1);
                assert(self.anc_of(c as int).len() < self.n_views());
                assert(self.n_views() == t0.n_views());
                assert forall|i: int| self.view_live(i) implies #[trigger] self.mountpend_ok_at(
                    i,
                ) || self.in_subtree(root@, i) by {
                    assert(self.anc_of(i) == t0.anc_of(i));
                }
                t0.lemma_sub_trans(root@, v as int, c as int);
                assert(self.in_subtree(root@, c as int)) by {
                    assert(self.anc_of(c as int) == t0.anc_of(c as int));
                }
                assert(self.in_subtree(root@, root@));
            }
            self.call_pending_mount(wm, c, root);
            proof {
                self.lemma_mount_merge(t0, sb, v, c, k as int);
                assert forall|i: int| self.view_live(i) implies #[trigger] self.mountpend_ok_at(
                    i,
                ) || t0.in_subtree(root@, i) by {
                    if !self.mountpend_ok_at(i) {
                        assert(sb.in_subtree(root@, i) && !sb.in_subtree(c as int, i));
                        assert(sb.anc_of(i) == t0.anc_of(i));
                    }
                }
            }
            k = k + 1;
            proof {
                assert forall|x: int|
                    self.view_live(x) && x != v as int && covered_by(
                        t0,
                        t0.subviews_of(v as int),
                        k as int,
                        x,
                    ) implies {
                    &&& self.dirty_bits(x) == (t0.dirty_bits(x) & !MOUNT) | MOUNTED
                    &&& self.view_mounted(x)
                    &&& view_eq_except_dirty(t0.views@[x], self.views@[x])
                } by {
                    assert(self.dirty_bits(x) == (t0.dirty_bits(x) & !MOUNT) | MOUNTED);
                }
                let subs = t0.subviews_of(v as int);
                assert forall|j1: int, j2: int, x: int, y: int|
                    #![trigger t0.in_subtree(subs[j1] as int, x), t0.in_subtree(subs[j2] as int, y)]
                    0 <= j1 < j2 < k && self.view_live(x) && self.view_live(y) && t0.in_subtree(
                        subs[j1] as int,
                        x,
                    ) && t0.in_subtree(subs[j2] as int, y) && !t0.view_mounted(x)
                        && !t0.view_mounted(y) implies last_mount(self.history(), x) < last_mount(
                    self.history(),
                    y,
                ) by {
                    assert(x != v as int) by {
                        if x == v as int {
                            assert(t0.superview_of(subs[j1] as int) == Superview::View(v));
                            t0.lemma_child_below(v as int, subs[j1] as int);
                        }
                    }
                    assert(y != v as int) by {
                        if y == v as int {
                            assert(t0.superview_of(subs[j2] as int) == Superview::View(v));
                            t0.lemma_child_below(v as int, subs[j2] as int);
                        }
                    }
                    assert(covered_by(t0, subs, k - 1, x)) by {
                        assert(t0.in_subtree(subs[j1] as int, x));
                    }
                    assert(mount_walk_at(t0, sb, v as int, k - 1, x));
                    assert(sb.dirty_bits(x) == (t0.dirty_bits(x) & !MOUNT) | MOUNTED);
                    assert(sb.view_mounted(x));
                    assert(mount_effect_at(sb, *self, c as int, x));
                    assert(last_mount(self.history(), x) == last_mount(sb.history(), x));
                    if j2 < k - 1 {
                        assert(covered_by(t0, subs, k - 1, y)) by {
                            assert(t0.in_subtree(subs[j2] as int, y));
                        }
                        assert(sb.dirty_bits(y) == (t0.dirty_bits(y) & !MOUNT) | MOUNTED);
                        assert(sb.view_mounted(y));
                        assert(mount_effect_at(sb, *self, c as int, y));
                        assert(last_mount(self.history(), y) == last_mount(sb.history(), y));
                        assert(last_mount(sb.history(), x) < last_mount(sb.history(), y));
                    } else {
                        assert(subs[j2] == c);
                        assert(t0.in_subtree(c as int, y));
                        assert(!covered_by(t0, subs, k - 1, y)) by {
                            if covered_by(t0, subs, k - 1, y) {
                                let j3 = choose|j3: int|
                                    0 <= j3 < k - 1 && t0.in_subtree(
                                        #[trigger] subs[j3] as int,
                                        y,
                                    );
                                assert(t0.superview_of(subs[j3] as int) == Superview::View(v));
                                t0.lemma_sibling_disjoint(
                                    v as int,
                                    subs[j3] as int,
                                    c as int,
                                    y,
                                );
                                assert(subs[j3] != subs[j2]);
                            }
                        }
                        assert(sb.views@[y] == t0.views@[y]);
                        assert(!sb.view_mounted(y));
                        assert(sb.in_subtree(c as int, y)) by {
                            assert(sb.anc_of(y) == t0.anc_of(y));
                        }
                        assert(mount_effect_at(sb, *self, c as int, y));
                        assert(sb.history().len() <= last_mount(self.history(), y));
                        assert(last_mount(sb.history(), x) < sb.history().len());
                    }
                }
            }
        }
        // The subtree has transitioned: the pending-walk request is served.
        let ghost tp = *self;
        let dv2 = self.views[v].dirty;
        self.views[v].dirty = dv2.remove(MOUNT);
        proof {
            self.lemma_mount_finish_ok(t0, tp, v, root@, n_subs as int);
        }
    }

    /// The single-view mount step: setting `MOUNTED` and owing the `mount`
    /// callback preserves the walk's invariant and moves the history by at
    /// most one mount event.
    proof fn lemma_mount_fire_ok(self, t0: ViewTree, v: usize, root: int)
        requires
            t0.wf_butmountpend(),
            forall|i: int|
                t0.view_live(i) ==> #[trigger] t0.mountpend_ok_at(i) || t0.in_subtree(root, i),
            t0.view_live(root),
            t0.in_subtree(root, v as int),
            t0.view_live(v as int),
            t0.parent_of(v as int) >= 0 ==> t0.view_mounted(t0.parent_of(v as int)),
            self.views@.len() == t0.views@.len(),
            self.wnds@ == t0.wnds@,
            self.anc@ == t0.anc@,
            self.update_requests@ == t0.update_requests@,
            self.taken@ == t0.taken@,
            forall|x: int|
                t0.view_live(x) && x != v as int ==> (#[trigger] self.views@[x]) == t0.views@[x],
            self.dirty_bits(v as int) == t0.dirty_bits(v as int) | MOUNTED,
            view_eq_except_dirty(t0.views@[v as int], self.views@[v as int]),
            t0.view_mounted(v as int) ==> self.hist@ == t0.hist@ && self.pending@ == t0.pending@,
            !t0.view_mounted(v as int) ==> self.hist@ == t0.hist@.push(
                ViewEvent { kind: ViewEventKind::Mount, view: v },
            ) && self.pending@ == t0.pending@.push(
                ViewEvent { kind: ViewEventKind::Mount, view: v },
            ),
        ensures
            self.wf_butmountpend(),
            forall|i: int|
                self.view_live(i) ==> #[trigger] self.mountpend_ok_at(i) || t0.in_subtree(
                    root,
                    i,
                ),
            self.view_mounted(v as int),
            t0.history().is_prefix_of(self.history()),
            t0.pending_events().is_prefix_of(self.pending_events()),
            forall|x: int|
                self.view_live(x) ==> #[trigger] mount_walk_at(t0, self, v as int, 0, x),
    {
        let uv = v as int;
        let ev = ViewEvent { kind: ViewEventKind::Mount, view: v };
        crate::flags::lemma_no_mounted_consts();
        assert(self.view_mounted(uv)) by {
            let d = t0.dirty_bits(uv);
            crate::flags::lemma_or_contains(d, MOUNTED);
        }
        if t0.view_mounted(uv) {
            assert(self.dirty_bits(uv) == t0.dirty_bits(uv)) by {
                crate::flags::lemma_or_absorbed(t0.dirty_bits(uv), MOUNTED);
            }
        }
        assert forall|x: int| self.view_live(x) implies #[trigger] self.view_mounted(x) == (
        t0.view_mounted(x) || x == uv) by {
            if x != uv {
                assert(self.views@[x] == t0.views@[x]);
            }
        }
        assert forall|x: int| self.view_live(x) implies #[trigger] mount_walk_at(
            t0,
            self,
            v as int,
            0,
            x,
        ) by {
            assert(!covered_by(t0, t0.subviews_of(uv), 0, x));
            if !t0.view_mounted(uv) {
                lemma_hist_push(t0.hist@, ev, x);
            }
        }
        assert forall|i: int| self.view_live(i) implies #[trigger] self.link_ok_at(i)
            && self.rev_ok_at(i) by {
            assert(t0.link_ok_at(i));
            assert(t0.rev_ok_at(i));
        }
        assert forall|i: int| self.view_live(i) implies #[trigger] self.rev_ok_at(i) by {
            assert(self.link_ok_at(i) && self.rev_ok_at(i));
        }
        assert forall|i: int| self.view_live(i) implies #[trigger] self.subs_ok_at(i) by {
            assert(t0.subs_ok_at(i));
            assert forall|k: int| 0 <= k < self.subviews_of(i).len() implies {
                let c = #[trigger] self.subviews_of(i)[k] as int;
                self.view_live(c) && self.views@[c].superview == Superview::View(i as usize)
            } by {
                let c = self.subviews_of(i)[k] as int;
                assert(t0.subviews_of(i)[k] == self.subviews_of(i)[k]);
                assert(t0.view_live(c) && t0.views@[c].superview == Superview::View(i as usize));
            }
        }
        assert forall|i: int| self.view_live(i) implies #[trigger] self.prop_ok_at(i) by {
            assert(t0.link_ok_at(i));
            assert(t0.prop_ok_at(i));
            match t0.views@[i].superview {
                Superview::View(p) => {
                    let pi = p as int;
                    assert(t0.view_live(pi));
                    if i == uv {
                        crate::flags::lemma_raise_add_mounted(t0.dirty_bits(uv));
                    }
                    if pi == uv {
                        crate::flags::lemma_contains_or_mono(
                            t0.dirty_bits(uv),
                            MOUNTED,
                            raise_bits(t0.dirty_bits(i)),
                        );
                    }
                },
                _ => {},
            }
        }
        assert forall|i: int| self.view_live(i) implies #[trigger] self.mountpend_ok_at(i)
            || t0.in_subtree(root, i) by {
            assert(t0.link_ok_at(i));
            if !(t0.mountpend_ok_at(i) || t0.in_subtree(root, i)) {
            }
            if t0.mountpend_ok_at(i) && !t0.in_subtree(root, i) {
                match t0.views@[i].superview {
                    Superview::View(p) => {
                        let pi = p as int;
                        assert(t0.view_live(pi));
                        if pi == uv {
                            // i is a subview of v, hence inside root's
                            // subtree after all
                            assert(t0.anc_of(i) == seq![p as int] + t0.anc_of(p as int));
                            assert(t0.anc_of(i) == seq![uv] + t0.anc_of(uv));
                            if root == uv {
                                assert(t0.anc_of(i)[0] == root);
                                assert(t0.anc_of(i).contains(root));
                            } else {
                                assert(t0.anc_of(uv).contains(root));
                                assert(t0.anc_of(i).contains(root)) by {
                                    let j = t0.anc_of(uv).index_of(root);
                                    assert(t0.anc_of(i)[j + 1] == root);
                                }
                            }
                            assert(t0.in_subtree(root, i));
                        } else if i == uv {
                            assert(self.view_mounted(i));
                        } else {
                            assert(self.views@[i] == t0.views@[i]);
                            assert(self.views@[pi] == t0.views@[pi]);
                            assert(self.mountpend_ok_at(i));
                        }
                    },
                    _ => {
                        assert(self.mountpend_ok_at(i));
                    },
                }
            }
        }
        assert forall|w: int| self.wnd_live(w) implies #[trigger] self.wnd_ok_at(w) by {
            assert(t0.wnd_ok_at(w));
            match t0.wnds@[w].content_view {
                Some(cv) => {
                    if cv as int != uv {
                        assert(self.views@[cv as int] == t0.views@[cv as int]);
                    }
                },
                None => {},
            }
        }
        assert forall|w: int| self.wnd_live(w) implies #[trigger] self.pend_ok_at(w) by {
            assert(t0.wnd_ok_at(w));
            assert(t0.pend_ok_at(w));
            match t0.wnds@[w].content_view {
                Some(cv) => {
                    let ci = cv as int;
                    if ci == uv {
                        crate::flags::lemma_or_disjoint_mask(
                            t0.dirty_bits(ci),
                            MOUNTED,
                            DESCENDANT_UPDATE_EVENT | DESCENDANT_SUBLAYERS,
                        );
                    } else {
                        assert(self.views@[ci] == t0.views@[ci]);
                    }
                },
                None => {},
            }
        }
        assert forall|i: int| self.view_live(i) implies #[trigger] self.layers_ok_at(i) by {
            assert(t0.layers_ok_at(i));
            if i != uv {
                assert(self.views@[i] == t0.views@[i]);
            }
        }
        assert(self.hist@ =~= self.taken@ + self.pending@) by {
            assert(t0.hist@ == t0.taken@ + t0.pending@);
        }
        assert forall|x: int| self.view_live(x) implies #[trigger] self.count_ok_at(x) by {
            assert(t0.count_ok_at(x));
            if !t0.view_mounted(uv) {
                lemma_hist_push(t0.hist@, ev, x);
            }
        }
        assert forall|i: int| self.view_live(i) implies #[trigger] self.mounted_chain_at(i) by {
            assert(t0.link_ok_at(i));
            assert(t0.mounted_chain_at(i));
            if i != uv && t0.parent_of(i) >= 0 {
                assert(self.views@[i] == t0.views@[i]);
            }
        }
        assert forall|i: int| self.view_live(i) implies #[trigger] self.order_ok_at(i) by {
            assert(t0.link_ok_at(i));
            assert(t0.order_ok_at(i));
            assert(t0.mounted_chain_at(i));
            let p = self.parent_of(i);
            assert(p == t0.parent_of(i)) by {
                if i != uv {
                    assert(self.views@[i] == t0.views@[i]);
                }
            }
            if self.view_mounted(i) && p >= 0 && self.view_mounted(p) {
                assert(t0.view_live(p));
                if !t0.view_mounted(uv) {
                    lemma_hist_push(t0.hist@, ev, i);
                    lemma_hist_push(t0.hist@, ev, p);
                    lemma_last_mount_bound(t0.hist@, p);
                    lemma_last_mount_bound(t0.hist@, i);
                    if i == uv {
                        assert(p != uv);
                        assert(t0.view_mounted(p));
                    } else {
                        assert(t0.view_mounted(i));
                        assert(p != uv || t0.view_mounted(uv) || !t0.view_mounted(i)) by {
                            if p == uv && !t0.view_mounted(uv) {
                                assert(t0.mounted_chain_at(i));
                            }
                        }
                    }
                }
            }
        }
    }
}

impl ViewTree {
    /// Merging one child's finished mount into the walk's running
    /// description of the whole step.
    proof fn lemma_mount_merge(self, t0: ViewTree, sb: ViewTree, v: usize, c: usize, k: int)
        requires
            t0.wf_butmountpend(),
            t0.view_live(v as int),
            t0.subs_ok_at(v as int),
            0 <= k < t0.subviews_of(v as int).len(),
            c == t0.subviews_of(v as int)[k],
            t0.view_live(c as int),
            t0.superview_of(c as int) == Superview::View(v),
            sb.views@.len() == t0.views@.len(),
            sb.anc@ == t0.anc@,
            forall|x: int|
                sb.view_live(x) && x != v as int && !covered_by(
                    t0,
                    t0.subviews_of(v as int),
                    k,
                    x,
                ) ==> (#[trigger] sb.views@[x]) == t0.views@[x],
            forall|x: int|
                sb.view_live(x) && x != v as int && covered_by(
                    t0,
                    t0.subviews_of(v as int),
                    k,
                    x,
                ) ==> {
                    &&& #[trigger] sb.dirty_bits(x) == (t0.dirty_bits(x) & !MOUNT) | MOUNTED
                    &&& sb.view_mounted(x)
                    &&& view_eq_except_dirty(t0.views@[x], sb.views@[x])
                },
            forall|x: int|
                sb.view_live(x) ==> #[trigger] mount_walk_at(t0, sb, v as int, k, x),
            self.views@.len() == sb.views@.len(),
            self.anc@ == sb.anc@,
            forall|x: int|
                self.view_live(x) && !sb.in_subtree(c as int, x) ==> (#[trigger] self.views@[x])
                    == sb.views@[x],
            forall|x: int|
                self.view_live(x) && sb.in_subtree(c as int, x) ==> {
                    &&& #[trigger] self.dirty_bits(x) == (sb.dirty_bits(x) & !MOUNT) | MOUNTED
                    &&& self.view_mounted(x)
                    &&& view_eq_except_dirty(sb.views@[x], self.views@[x])
                },
            forall|x: int|
                self.view_live(x) ==> #[trigger] mount_effect_at(sb, self, c as int, x),
            t0.history().is_prefix_of(sb.history()),
            sb.history().is_prefix_of(self.history()),
        ensures
            forall|x: int|
                self.view_live(x) && x != v as int && !covered_by(
                    t0,
                    t0.subviews_of(v as int),
                    k + 1,
                    x,
                ) ==> (#[trigger] self.views@[x]) == t0.views@[x],
            forall|x: int|
                self.view_live(x) && x != v as int && covered_by(
                    t0,
                    t0.subviews_of(v as int),
                    k + 1,
                    x,
                ) ==> {
                    &&& #[trigger] self.dirty_bits(x) == (t0.dirty_bits(x) & !MOUNT) | MOUNTED
                    &&& self.view_mounted(x)
                    &&& view_eq_except_dirty(t0.views@[x], self.views@[x])
                },
            forall|x: int|
                self.view_live(x) ==> #[trigger] mount_walk_at(t0, self, v as int, k + 1, x),
    {
        let subs = t0.subviews_of(v as int);
        t0.lemma_child_below(v as int, c as int);
        assert(t0.link_ok_at(c as int));
        assert((v as usize) as int == v as int);
        assert(t0.anc_of(c as int) == seq![v as int] + t0.anc_of(v as int));
        assert(t0.anc_of(c as int)[0] == v as int);
        assert(t0.anc_of(c as int).contains(v as int));
        assert(t0.in_subtree(v as int, c as int));
        assert(t0.subviews_of(v as int).no_duplicates());
        // the child's subtree is disjoint from everything finished so far
        assert forall|x: int|
            self.view_live(x) && sb.in_subtree(c as int, x) implies sb.views@[x] == t0.views@[x]
            && t0.in_subtree(c as int, x) && x != v as int && !covered_by(t0, subs, k, x) by {
            assert(sb.view_live(x) && t0.view_live(x));
            assert(sb.anc_of(x) == t0.anc_of(x));
            assert(t0.in_subtree(c as int, x));
            t0.lemma_sub_trans(v as int, c as int, x);
            assert(!(x == v as int || covered_by(t0, subs, k, x))) by {
                if covered_by(t0, subs, k, x) {
                    let j2 = choose|j2: int|
                        0 <= j2 < k && t0.in_subtree(#[trigger] subs[j2] as int, x);
                    assert(t0.superview_of(subs[j2] as int) == Superview::View(v));
                    t0.lemma_sibling_disjoint(v as int, subs[j2] as int, c as int, x);
                    assert(subs[j2] != subs[k]);
                }
            }
        }
        assert forall|x: int|
            self.view_live(x) && t0.in_subtree(c as int, x) implies sb.in_subtree(
            c as int,
            x,
        ) by {
            assert(sb.anc_of(x) == t0.anc_of(x));
        }
        assert forall|x: int|
            self.view_live(x) && x != v as int && !covered_by(t0, subs, k + 1, x)
            implies self.views@[x] == t0.views@[x] by {
            assert(!covered_by(t0, subs, k, x)) by {
                if covered_by(t0, subs, k, x) {
                    let j2 = choose|j2: int|
                        0 <= j2 < k && t0.in_subtree(#[trigger] subs[j2] as int, x);
                    assert(covered_by(t0, subs, k + 1, x));
                }
            }
            assert(!t0.in_subtree(c as int, x)) by {
                if t0.in_subtree(c as int, x) {
                    assert(subs[k] as int == c as int);
                    assert(covered_by(t0, subs, k + 1, x));
                }
            }
            assert(!sb.in_subtree(c as int, x));
        }
        assert forall|x: int|
            self.view_live(x) && x != v as int && covered_by(t0, subs, k + 1, x) implies {
            &&& self.dirty_bits(x) == (t0.dirty_bits(x) & !MOUNT) | MOUNTED
            &&& self.view_mounted(x)
            &&& view_eq_except_dirty(t0.views@[x], self.views@[x])
        } by {
            if covered_by(t0, subs, k, x) {
                assert(!sb.in_subtree(c as int, x)) by {
                    if sb.in_subtree(c as int, x) {
                        assert(sb.anc_of(x) == t0.anc_of(x));
                        assert(t0.in_subtree(c as int, x));
                        let j2 = choose|j2: int|
                            0 <= j2 < k && t0.in_subtree(#[trigger] subs[j2] as int, x);
                        assert(t0.superview_of(subs[j2] as int) == Superview::View(v));
                        t0.lemma_sibling_disjoint(v as int, subs[j2] as int, c as int, x);
                        assert(subs[j2] != subs[k]);
                    }
                }
                assert(self.views@[x] == sb.views@[x]);
                assert(sb.dirty_bits(x) == (t0.dirty_bits(x) & !MOUNT) | MOUNTED);
                assert(sb.view_mounted(x));
                assert(view_eq_except_dirty(t0.views@[x], sb.views@[x]));
            } else {
                let j2 = choose|j2: int|
                    0 <= j2 < k + 1 && t0.in_subtree(#[trigger] subs[j2] as int, x);
                assert(j2 == k) by {
                    if j2 < k {
                        assert(covered_by(t0, subs, k, x));
                    }
                }
                assert(t0.in_subtree(c as int, x));
                assert(sb.in_subtree(c as int, x));
                assert(sb.views@[x] == t0.views@[x]);
                assert(self.dirty_bits(x) == (sb.dirty_bits(x) & !MOUNT) | MOUNTED);
                assert(self.view_mounted(x));
                assert(view_eq_except_dirty(sb.views@[x], self.views@[x]));
            }
        }
        assert forall|x: int| self.view_live(x) implies #[trigger] mount_walk_at(
            t0,
            self,
            v as int,
            k + 1,
            x,
        ) by {
            assert(sb.view_live(x));
            assert(mount_walk_at(t0, sb, v as int, k, x));
            assert(mount_effect_at(sb, self, c as int, x));
            if sb.in_subtree(c as int, x) {
                assert(sb.views@[x] == t0.views@[x]);
                assert(sb.view_mounted(x) == t0.view_mounted(x));
                assert(t0.in_subtree(c as int, x));
                assert(subs[k] as int == c as int);
                assert(covered_by(t0, subs, k + 1, x));
                assert(x != v as int && !covered_by(t0, subs, k, x));
            } else {
                assert(mount_count(self.history(), x) == mount_count(sb.history(), x));
                if covered_by(t0, subs, k + 1, x) && !covered_by(t0, subs, k, x) {
                    let j2 = choose|j2: int|
                        0 <= j2 < k + 1 && t0.in_subtree(#[trigger] subs[j2] as int, x);
                    assert(j2 == k) by {
                        if j2 < k {
                            assert(covered_by(t0, subs, k, x));
                        }
                    }
                    assert(t0.in_subtree(c as int, x));
                    assert(sb.in_subtree(c as int, x));
                    assert(false);
                }
            }
        }
    }

    /// Clearing the served `MOUNT` bit at the walk's root preserves every
    /// invariant: by now the whole subtree is mounted and `MOUNT`-free
    /// below; this also converts the walk's running description into the
    /// walk's contract.
    proof fn lemma_mount_finish_ok(
        self,
        t0: ViewTree,
        tp: ViewTree,
        v: usize,
        root: int,
        n_subs: int,
    )
        requires
            t0.wf_butmountpend(),
            t0.view_live(v as int),
            t0.view_live(root),
            t0.in_subtree(root, v as int),
            t0.parent_of(v as int) >= 0 ==> t0.view_mounted(t0.parent_of(v as int)),
            n_subs == t0.subviews_of(v as int).len(),
            // the walk's state before this step
            tp.wf_butmountpend(),
            forall|i: int|
                tp.view_live(i) ==> #[trigger] tp.mountpend_ok_at(i) || t0.in_subtree(root, i),
            tp.views@.len() == t0.views@.len(),
            tp.wnds@ == t0.wnds@,
            tp.anc@ == t0.anc@,
            tp.update_requests@ == t0.update_requests@,
            tp.view_mounted(v as int),
            tp.dirty_bits(v as int) == t0.dirty_bits(v as int) | MOUNTED,
            view_eq_except_dirty(t0.views@[v as int], tp.views@[v as int]),
            forall|x: int|
                tp.view_live(x) && x != v as int && !covered_by(
                    t0,
                    t0.subviews_of(v as int),
                    n_subs,
                    x,
                ) ==> (#[trigger] tp.views@[x]) == t0.views@[x],
            forall|x: int|
                tp.view_live(x) && x != v as int && covered_by(
                    t0,
                    t0.subviews_of(v as int),
                    n_subs,
                    x,
                ) ==> {
                    &&& #[trigger] tp.dirty_bits(x) == (t0.dirty_bits(x) & !MOUNT) | MOUNTED
                    &&& tp.view_mounted(x)
                    &&& view_eq_except_dirty(t0.views@[x], tp.views@[x])
                },
            t0.history().is_prefix_of(tp.history()),
            t0.pending_events().is_prefix_of(tp.pending_events()),
            forall|x: int|
                tp.view_live(x) ==> #[trigger] mount_walk_at(t0, tp, v as int, n_subs, x),
            // this step
            self.views@.len() == tp.views@.len(),
            self.wnds@ == tp.wnds@,
            self.anc@ == tp.anc@,
            self.update_requests@ == tp.update_requests@,
            self.hist@ == tp.hist@,
            self.pending@ == tp.pending@,
            self.taken@ == tp.taken@,
            forall|x: int|
                tp.view_live(x) && x != v as int ==> (#[trigger] self.views@[x]) == tp.views@[x],
            self.dirty_bits(v as int) == tp.dirty_bits(v as int) & !MOUNT,
            view_eq_except_dirty(tp.views@[v as int], self.views@[v as int]),
        ensures
            self.wf_butmountpend(),
            forall|i: int|
                self.view_live(i) ==> #[trigger] self.mountpend_ok_at(i) || (t0.in_subtree(
                    root,
                    i,
                ) && !t0.in_subtree(v as int, i)),
            forall|x: int|
                self.view_live(x) && !t0.in_subtree(v as int, x) ==> (#[trigger] self.views@[x])
                    == t0.views@[x],
            forall|x: int|
                self.view_live(x) && t0.in_subtree(v as int, x) ==> {
                    &&& #[trigger] self.dirty_bits(x) == (t0.dirty_bits(x) & !MOUNT) | MOUNTED
                    &&& self.view_mounted(x)
                    &&& view_eq_except_dirty(t0.views@[x], self.views@[x])
                },
            t0.history().is_prefix_of(self.history()),
            t0.pending_events().is_prefix_of(self.pending_events()),
            forall|x: int|
                self.view_live(x) ==> #[trigger] mount_effect_at(t0, self, v as int, x),
    {
        let uv = v as int;
        let subs = t0.subviews_of(uv);
        crate::flags::lemma_no_mounted_consts();
        t0.lemma_chain_distinct(uv);
        // membership in v's subtree is v itself or coverage by one child
        assert forall|x: int|
            self.view_live(x) && t0.in_subtree(uv, x) && x != uv implies covered_by(
            t0,
            subs,
            n_subs,
            x,
        ) by {
            let c = t0.lemma_step_down(uv, x);
            let j2 = subs.index_of(c as usize);
            assert(subs[j2] == c as usize);
            assert(t0.in_subtree(subs[j2] as int, x));
        }
        assert forall|x: int|
            self.view_live(x) && covered_by(t0, subs, n_subs, x) implies t0.in_subtree(
            uv,
            x,
        ) by {
            let j2 = choose|j2: int| 0 <= j2 < n_subs && t0.in_subtree(#[trigger] subs[j2] as int, x);
            let c = subs[j2] as int;
            assert(t0.subs_ok_at(uv));
            assert(t0.superview_of(c) == Superview::View(v));
            assert(t0.link_ok_at(c));
            assert((v as usize) as int == uv);
            assert(t0.anc_of(c) == seq![uv] + t0.anc_of(uv));
            assert(t0.anc_of(c)[0] == uv);
            assert(t0.anc_of(c).contains(uv));
            assert(t0.in_subtree(uv, c));
            t0.lemma_sub_trans(uv, c, x);
        }
        // v's final flags have the contract's shape
        assert(self.dirty_bits(uv) == (t0.dirty_bits(uv) & !MOUNT) | MOUNTED) by {
            let d = t0.dirty_bits(uv);
            crate::flags::lemma_mount_step_commute(d);
        }
        assert(self.view_mounted(uv)) by {
            let d = tp.dirty_bits(uv);
            crate::flags::lemma_clear_disjoint_mask(d, MOUNT, MOUNTED);
        }
        assert forall|x: int| self.view_live(x) implies #[trigger] self.view_mounted(x)
            == tp.view_mounted(x) by {
            if x == uv {
                crate::flags::lemma_clear_disjoint_mask(tp.dirty_bits(x), MOUNT, MOUNTED);
            } else {
                assert(self.views@[x] == tp.views@[x]);
            }
        }
        // the per-part transfer from tp
        assert forall|i: int| self.view_live(i) implies #[trigger] self.link_ok_at(i)
            && self.rev_ok_at(i) by {
            assert(tp.link_ok_at(i));
            assert(tp.rev_ok_at(i));
        }
        assert forall|i: int| self.view_live(i) implies #[trigger] self.rev_ok_at(i) by {
            assert(self.link_ok_at(i) && self.rev_ok_at(i));
        }
        assert forall|i: int| self.view_live(i) implies #[trigger] self.subs_ok_at(i) by {
            assert(tp.subs_ok_at(i));
            assert forall|k: int| 0 <= k < self.subviews_of(i).len() implies {
                let c = #[trigger] self.subviews_of(i)[k] as int;
                self.view_live(c) && self.views@[c].superview == Superview::View(i as usize)
            } by {
                let c = self.subviews_of(i)[k] as int;
                assert(tp.subviews_of(i)[k] == self.subviews_of(i)[k]);
                assert(tp.view_live(c) && tp.views@[c].superview == Superview::View(i as usize));
            }
        }
        assert forall|i: int| self.view_live(i) implies #[trigger] self.prop_ok_at(i) by {
            assert(tp.link_ok_at(i));
            assert(tp.prop_ok_at(i));
            match tp.views@[i].superview {
                Superview::View(p) => {
                    let pi = p as int;
                    assert(tp.view_live(pi));
                    if i == uv {
                        // v's raised image only shrinks
                        crate::flags::lemma_raise_clear_mount(tp.dirty_bits(uv));
                        crate::flags::lemma_contains_sub_mask(
                            self.dirty_bits(pi),
                            raise_bits(tp.dirty_bits(uv)),
                            MOUNT,
                        );
                        assert(self.dirty_bits(pi) == tp.dirty_bits(pi)) by {
                            assert(pi != uv) by {
                                if pi == uv {
                                    assert(tp.anc_of(i) == seq![pi] + tp.anc_of(pi));
                                }
                            }
                            assert(self.views@[pi] == tp.views@[pi]);
                        }
                    } else if pi == uv {
                        // a subview's raised image is MOUNT-free by now
                        assert(i != uv);
                        assert(tp.rev_ok_at(i));
                        assert(t0.subviews_of(uv).contains(i as usize)) by {
                            assert(tp.subviews_of(uv) == t0.subviews_of(uv));
                        }
                        let j2 = t0.subviews_of(uv).index_of(i as usize);
                        assert(t0.in_subtree(subs[j2] as int, i)) by {
                            assert(subs[j2] as int == i);
                        }
                        assert(covered_by(t0, subs, n_subs, i));
                        assert(tp.dirty_bits(i) == (t0.dirty_bits(i) & !MOUNT) | MOUNTED);
                        assert(raise_bits(tp.dirty_bits(i)) & MOUNT == 0) by {
                            crate::flags::lemma_raise_mount_step(t0.dirty_bits(i));
                            let r = raise_bits(t0.dirty_bits(i));
                            assert((r & !0x800u16) & 0x800u16 == 0) by (bit_vector);
                        }
                        crate::flags::lemma_contains_clear_mount(
                            tp.dirty_bits(uv),
                            raise_bits(tp.dirty_bits(i)),
                        );
                        assert(self.dirty_bits(i) == tp.dirty_bits(i));
                    } else {
                        assert(self.views@[i] == tp.views@[i]);
                        assert(self.views@[pi] == tp.views@[pi]);
                    }
                },
                _ => {},
            }
        }
        assert forall|i: int| self.view_live(i) implies #[trigger] self.mountpend_ok_at(i) || (
        t0.in_subtree(root, i) && !t0.in_subtree(uv, i)) by {
            assert(tp.link_ok_at(i));
            if t0.in_subtree(uv, i) {
                // the whole subtree is mounted now
                assert(self.view_mounted(i)) by {
                    if i != uv {
                        assert(covered_by(t0, subs, n_subs, i));
                        assert(tp.view_mounted(i));
                    }
                }
                assert(self.mountpend_ok_at(i));
            } else {
                if tp.mountpend_ok_at(i) {
                    assert(self.mountpend_ok_at(i)) by {
                        match tp.views@[i].superview {
                            Superview::View(p) => {
                                let pi = p as int;
                                assert(pi != uv) by {
                                    if pi == uv {
                                        assert(tp.rev_ok_at(i));
                                        assert(tp.subviews_of(uv) == t0.subviews_of(uv));
                                        let j2 = t0.subviews_of(uv).index_of(i as usize);
                                        assert(t0.in_subtree(subs[j2] as int, i)) by {
                                            assert(subs[j2] as int == i);
                                        }
                                        assert(covered_by(t0, subs, n_subs, i));
                                        assert(t0.in_subtree(uv, i));
                                    }
                                }
                                assert(self.views@[i] == tp.views@[i]);
                                assert(self.views@[pi] == tp.views@[pi]);
                            },
                            _ => {},
                        }
                    }
                }
            }
        }
        assert forall|w: int| self.wnd_live(w) implies #[trigger] self.wnd_ok_at(w)
            && self.pend_ok_at(w) by {
            assert(tp.wnd_ok_at(w));
            assert(tp.pend_ok_at(w));
            match tp.wnds@[w].content_view {
                Some(cv) => {
                    let ci = cv as int;
                    if ci == uv {
                        crate::flags::lemma_clear_disjoint_mask(
                            tp.dirty_bits(ci),
                            MOUNT,
                            DESCENDANT_UPDATE_EVENT | DESCENDANT_SUBLAYERS,
                        );
                    } else {
                        assert(self.views@[ci] == tp.views@[ci]);
                    }
                },
                None => {},
            }
        }
        assert forall|w: int| self.wnd_live(w) implies #[trigger] self.pend_ok_at(w) by {
            assert(self.wnd_ok_at(w) && self.pend_ok_at(w));
        }
        assert forall|i: int| self.view_live(i) implies #[trigger] self.layers_ok_at(i) by {
            assert(tp.layers_ok_at(i));
            if i != uv {
                assert(self.views@[i] == tp.views@[i]);
            }
        }
        assert forall|x: int| self.view_live(x) implies #[trigger] self.count_ok_at(x) by {
            assert(tp.count_ok_at(x));
        }
        assert forall|i: int| self.view_live(i) implies #[trigger] self.mounted_chain_at(i)
            && self.order_ok_at(i) by {
            assert(tp.link_ok_at(i));
            assert(tp.mounted_chain_at(i));
            assert(tp.order_ok_at(i));
            if tp.parent_of(i) >= 0 {
                assert(tp.view_live(tp.parent_of(i)));
            }
        }
        assert forall|i: int| self.view_live(i) implies #[trigger] self.order_ok_at(i) by {
            assert(self.mounted_chain_at(i) && self.order_ok_at(i));
        }
        // the contract's per-view shapes
        assert forall|x: int|
            self.view_live(x) && !t0.in_subtree(uv, x) implies (#[trigger] self.views@[x])
            == t0.views@[x] by {
            assert(x != uv);
            assert(!covered_by(t0, subs, n_subs, x)) by {
                if covered_by(t0, subs, n_subs, x) {
                    assert(t0.in_subtree(uv, x));
                }
            }
            assert(self.views@[x] == tp.views@[x]);
            assert(tp.views@[x] == t0.views@[x]);
        }
        assert forall|x: int|
            self.view_live(x) && t0.in_subtree(uv, x) implies {
            &&& (#[trigger] self.dirty_bits(x)) == (t0.dirty_bits(x) & !MOUNT) | MOUNTED
            &&& self.view_mounted(x)
            &&& view_eq_except_dirty(t0.views@[x], self.views@[x])
        } by {
            if x != uv {
                assert(covered_by(t0, subs, n_subs, x));
                assert(tp.dirty_bits(x) == (t0.dirty_bits(x) & !MOUNT) | MOUNTED);
                assert(tp.view_mounted(x));
                assert(view_eq_except_dirty(t0.views@[x], tp.views@[x]));
                assert(self.views@[x] == tp.views@[x]);
            }
        }
        assert forall|x: int| self.view_live(x) implies #[trigger] mount_effect_at(
            t0,
            self,
            uv,
            x,
        ) by {
            assert(tp.view_live(x));
            assert(mount_walk_at(t0, tp, uv, n_subs, x));
        }
    }
}

impl ViewTree {
    /// Call pending `mount` transitions as necessary: a no-op for an
    /// already-stable mounted subtree, a descent into the subviews where
    /// only they have pending work, and the full walk where the view itself
    /// has not mounted yet. The early exit is what bounds an update pass to
    /// the actually-pending subtrees.
    #[verifier::rlimit(60)]
    pub(crate) fn call_pending_mount_if_dirty(&mut self, wm: Wm, v: usize)
        requires
            old(self).wf(),
            old(self).view_live(v as int),
            old(self).parent_of(v as int) >= 0 ==> old(self).view_mounted(
                old(self).parent_of(v as int),
            ),
        ensures
            final(self).wf(),
            final(self).n_views() == old(self).n_views(),
            final(self).n_wnds() == old(self).n_wnds(),
            final(self).anc@ == old(self).anc@,
            final(self).wnds@ == old(self).wnds@,
            final(self).update_requests@ == old(self).update_requests@,
            forall|x: int|
                final(self).view_live(x) && !old(self).in_subtree(v as int, x)
                    ==> (#[trigger] final(self).views@[x]) == old(self).views@[x],
            forall|x: int|
                final(self).view_live(x) && old(self).in_subtree(v as int, x)
                    ==> #[trigger] final(self).dirty_bits(x) == (old(self).dirty_bits(x) & !MOUNT)
                    | MOUNTED,
            forall|x: int|
                final(self).view_live(x) && old(self).in_subtree(v as int, x)
                    ==> #[trigger] final(self).view_mounted(x),
            forall|x: int|
                final(self).view_live(x) && old(self).in_subtree(v as int, x)
                    ==> view_eq_except_dirty(
                    old(self).views@[x],
                    #[trigger] final(self).views@[x],
                ),
            old(self).history().is_prefix_of(final(self).history()),
            old(self).pending_events().is_prefix_of(final(self).pending_events()),
            forall|x: int|
                final(self).view_live(x) ==> #[trigger] mount_effect_at(
                    *old(self),
                    *final(self),
                    v as int,
                    x,
                ),
            (contains_bits(old(self).dirty_bits(v as int), MOUNTED) && !contains_bits(
                old(self).dirty_bits(v as int),
                MOUNT,
            )) ==> *final(self) == *old(self),
            forall|j1: int, j2: int, x: int, y: int|
                #![trigger old(self).in_subtree(old(self).subviews_of(v as int)[j1] as int, x), old(self).in_subtree(old(self).subviews_of(v as int)[j2] as int, y)]
                0 <= j1 < j2 < old(self).subviews_of(v as int).len() && final(self).view_live(x)
                    && final(self).view_live(y) && old(self).in_subtree(
                    old(self).subviews_of(v as int)[j1] as int,
                    x,
                ) && old(self).in_subtree(old(self).subviews_of(v as int)[j2] as int, y) && !old(
                    self,
                ).view_mounted(x) && !old(self).view_mounted(y) ==> last_mount(
                    final(self).history(),
                    x,
                ) < last_mount(final(self).history(), y),
        decreases old(self).n_views() - old(self).anc_of(v as int).len(),
    {
        let ghost t0 = *self;
        proof {
            t0.lemma_chain_distinct(v as int);
            assert(t0.in_subtree(v as int, v as int));
        }
        let dv = self.views[v].dirty;
        if dv.contains(MOUNTED) {
            if !dv.contains(MOUNT) {
                // Stable subtree: every member is mounted with no pending
                // walk, so there is nothing to do.
                proof {
                    assert forall|y: int|
                        t0.view_live(y) && t0.in_subtree(v as int, y)
                        implies #[trigger] t0.dirty_bits(y) & MOUNT != MOUNT by {
                        t0.lemma_subtree_no_mount(v as int, y);
                    }
                    assert forall|x: int|
                        self.view_live(x) && t0.in_subtree(v as int, x) implies {
                        &&& (#[trigger] self.dirty_bits(x)) == (t0.dirty_bits(x) & !MOUNT)
                            | MOUNTED
                        &&& self.view_mounted(x)
                        &&& view_eq_except_dirty(t0.views@[x], self.views@[x])
                    } by {
                        t0.lemma_subtree_mounted(v as int, x);
                        crate::flags::lemma_mount_step_noop(t0.dirty_bits(x));
                    }
                    assert forall|x: int| self.view_live(x) implies #[trigger] mount_effect_at(
                        t0,
                        *self,
                        v as int,
                        x,
                    ) by {}
                    assert forall|x: int|
                    self.view_live(x) && t0.in_subtree(v as int, x) implies view_eq_except_dirty(
                    t0.views@[x],
                    #[trigger] self.views@[x],
                ) by {
                    assert(self.dirty_bits(x) == (t0.dirty_bits(x) & !MOUNT) | MOUNTED);
                }
                    let subs = t0.subviews_of(v as int);
                    assert forall|j1: int, x: int|
                        0 <= j1 < subs.len() && self.view_live(x) && #[trigger] t0.in_subtree(
                            subs[j1] as int,
                            x,
                        ) implies t0.view_mounted(x) by {
                        assert(t0.subs_ok_at(v as int));
                        assert(t0.superview_of(subs[j1] as int) == Superview::View(v));
                        t0.lemma_child_below(v as int, subs[j1] as int);
                        assert(t0.link_ok_at(subs[j1] as int));
                        assert(t0.in_subtree(v as int, subs[j1] as int)) by {
                            assert(t0.anc_of(subs[j1] as int) == seq![v as int] + t0.anc_of(
                                v as int,
                            ));
                            assert(t0.anc_of(subs[j1] as int)[0] == v as int);
                        }
                        t0.lemma_sub_trans(v as int, subs[j1] as int, x);
                        t0.lemma_subtree_mounted(v as int, x);
                    }
                }
                return ;
            }
            // This view is mounted, but some of the subviews might not be:
            // descend, then clear the served request.
            let ghost root = v as int;
            proof {
                crate::flags::lemma_or_absorbed(t0.dirty_bits(v as int), MOUNTED);
            }
            let n_subs = self.views[v].layout.subviews.len();
            let mut k: usize = 0;
            while k < n_subs
                invariant
                    t0 == *old(self),
                    t0.wf(),
                    t0.view_live(v as int),
                    t0.view_mounted(v as int),
                    0 <= k <= n_subs,
                    n_subs == t0.subviews_of(v as int).len(),
                    self.wf(),
                    self.views@.len() == t0.views@.len(),
                    self.wnds@ == t0.wnds@,
                    self.anc@ == t0.anc@,
                    self.update_requests@ == t0.update_requests@,
                    self.view_mounted(v as int),
                    self.dirty_bits(v as int) == t0.dirty_bits(v as int) | MOUNTED,
                    forall|x: int|
                        self.view_live(x) && x != v as int && !covered_by(
                            t0,
                            t0.subviews_of(v as int),
                            k as int,
                            x,
                        ) ==> (#[trigger] self.views@[x]) == t0.views@[x],
                    forall|x: int|
                        self.view_live(x) && x != v as int && covered_by(
                            t0,
                            t0.subviews_of(v as int),
                            k as int,
                            x,
                        ) ==> {
                            &&& #[trigger] self.dirty_bits(x) == (t0.dirty_bits(x) & !MOUNT)
                                | MOUNTED
                            &&& self.view_mounted(x)
                            &&& view_eq_except_dirty(t0.views@[x], self.views@[x])
                        },
                    view_eq_except_dirty(t0.views@[v as int], self.views@[v as int]),
                    t0.history().is_prefix_of(self.history()),
                    t0.pending_events().is_prefix_of(self.pending_events()),
                    forall|j1: int, j2: int, x: int, y: int|
                        #![trigger t0.in_subtree(t0.subviews_of(v as int)[j1] as int, x), t0.in_subtree(t0.subviews_of(v as int)[j2] as int, y)]
                        0 <= j1 < j2 < k && self.view_live(x) && self.view_live(y)
                            && t0.in_subtree(t0.subviews_of(v as int)[j1] as int, x)
                            && t0.in_subtree(t0.subviews_of(v as int)[j2] as int, y)
                            && !t0.view_mounted(x) && !t0.view_mounted(y) ==> last_mount(
                            self.history(),
                            x,
                        ) < last_mount(self.history(), y),
                    forall|x: int|
                        self.view_live(x) ==> #[trigger] mount_walk_at(
                            t0,
                            *self,
                            v as int,
                            k as int,
                            x,
                        ),
                decreases n_subs - k,
            {
                proof {
                    assert(self.subviews_of(v as int) == t0.subviews_of(v as int));
                }
                let c = self.views[v].layout.subviews[k];
                let ghost sb = *self;
                proof {
                    assert(c == t0.subviews_of(v as int)[k as int]);
                    assert(t0.subs_ok_at(v as int));
                    assert(t0.view_live(c as int));
                    assert(t0.superview_of(c as int) == Superview::View(v));
                    t0.lemma_child_below(v as int, c as int);
                    t0.lemma_chain_distinct(c as int);
                    assert(t0.link_ok_at(c as int));
                    assert((v as usize) as int == v as int);
                    assert(t0.anc_of(c as int) == seq![v as int] + t0.anc_of(v as int));
                    assert(t0.anc_of(c as int)[0] == v as int);
                    assert(t0.anc_of(c as int).contains(v as int));
                    assert(t0.in_subtree(v as int, c as int));
                    assert(!covered_by(t0, t0.subviews_of(v as int), k as int, c as int)) by {
                        if covered_by(t0, t0.subviews_of(v as int), k as int, c as int) {
                            let j2 = choose|j2: int|
                                0 <= j2 < k && t0.in_subtree(
                                    #[trigger] t0.subviews_of(v as int)[j2] as int,
                                    c as int,
                                );
                            assert(t0.superview_of(t0.subviews_of(v as int)[j2] as int)
                                == Superview::View(v));
                            t0.lemma_sibling_disjoint(
                                v as int,
                                t0.subviews_of(v as int)[j2] as int,
                                c as int,
                                c as int,
                            );
                            assert(t0.subviews_of(v as int)[j2] != t0.subviews_of(v as int)[
                                k as int]);
                        }
                    }
                    assert(sb.views@[c as int] == t0.views@[c as int]);
                    assert(sb.parent_of(c as int) == v as int);
                    assert(sb.view_mounted(v as int));
                    t0.lemma_chain_distinct(c as int);
                    assert(self.anc_of(c as int) == t0.anc_of(c as int));
                    assert(self.anc_of(c as int).len() == t0.anc_of(v as int).len() + 1);
                    assert(self.anc_of(c as int).len() < self.n_views());
                    assert(self.n_views() == t0.n_views());
                }
                self.call_pending_mount_if_dirty(wm, c);
                proof {
                    self.lemma_mount_merge(t0, sb, v, c, k as int);
                }
                k = k + 1;
                proof {
                    assert forall|x: int|
                        self.view_live(x) && x != v as int && covered_by(
                            t0,
                            t0.subviews_of(v as int),
                            k as int,
                            x,
                        ) implies {
                        &&& self.dirty_bits(x) == (t0.dirty_bits(x) & !MOUNT) | MOUNTED
                        &&& self.view_mounted(x)
                        &&& view_eq_except_dirty(t0.views@[x], self.views@[x])
                    } by {
                        assert(self.dirty_bits(x) == (t0.dirty_bits(x) & !MOUNT) | MOUNTED);
                    }
                    let subs = t0.subviews_of(v as int);
                    assert forall|j1: int, j2: int, x: int, y: int|
                        #![trigger t0.in_subtree(subs[j1] as int, x), t0.in_subtree(subs[j2] as int, y)]
                        0 <= j1 < j2 < k && self.view_live(x) && self.view_live(y)
                            && t0.in_subtree(subs[j1] as int, x) && t0.in_subtree(
                        subs[j2] as int,
                        y,
                    ) && !t0.view_mounted(x) && !t0.view_mounted(y) implies last_mount(
                        self.history(),
                        x,
                    ) < last_mount(self.history(), y) by {
                        assert(x != v as int) by {
                            if x == v as int {
                                assert(t0.superview_of(subs[j1] as int) == Superview::View(v));
                                t0.lemma_child_below(v as int, subs[j1] as int);
                            }
                        }
                        assert(y != v as int) by {
                            if y == v as int {
                                assert(t0.superview_of(subs[j2] as int) == Superview::View(v));
                                t0.lemma_child_below(v as int, subs[j2] as int);
                            }
                        }
                        assert(covered_by(t0, subs, k - 1, x)) by {
                            assert(t0.in_subtree(subs[j1] as int, x));
                        }
                        assert(mount_walk_at(t0, sb, v as int, k - 1, x));
                        assert(sb.dirty_bits(x) == (t0.dirty_bits(x) & !MOUNT) | MOUNTED);
                        assert(sb.view_mounted(x));
                        assert(mount_effect_at(sb, *self, c as int, x));
                        assert(last_mount(self.history(), x) == last_mount(sb.history(), x));
                        if j2 < k - 1 {
                            assert(covered_by(t0, subs, k - 1, y)) by {
                                assert(t0.in_subtree(subs[j2] as int, y));
                            }
                            assert(sb.dirty_bits(y) == (t0.dirty_bits(y) & !MOUNT) | MOUNTED);
                            assert(sb.view_mounted(y));
                            assert(mount_effect_at(sb, *self, c as int, y));
                            assert(last_mount(self.history(), y) == last_mount(
                                sb.history(),
                                y,
                            ));
                            assert(last_mount(sb.history(), x) < last_mount(sb.history(), y));
                        } else {
                            assert(subs[j2] == c);
                            assert(t0.in_subtree(c as int, y));
                            assert(!covered_by(t0, subs, k - 1, y)) by {
                                if covered_by(t0, subs, k - 1, y) {
                                    let j3 = choose|j3: int|
                                        0 <= j3 < k - 1 && t0.in_subtree(
                                            #[trigger] subs[j3] as int,
                                            y,
                                        );
                                    assert(t0.superview_of(subs[j3] as int) == Superview::View(
                                        v,
                                    ));
                                    t0.lemma_sibling_disjoint(
                                        v as int,
                                        subs[j3] as int,
                                        c as int,
                                        y,
                                    );
                                    assert(subs[j3] != subs[j2]);
                                }
                            }
                            assert(sb.views@[y] == t0.views@[y]);
                            assert(!sb.view_mounted(y));
                            assert(sb.in_subtree(c as int, y)) by {
                                assert(sb.anc_of(y) == t0.anc_of(y));
                            }
                            assert(mount_effect_at(sb, *self, c as int, y));
                            assert(sb.history().len() <= last_mount(self.history(), y));
                            assert(last_mount(sb.history(), x) < sb.history().len());
                        }
                    }
                }
            }
            let ghost tp = *self;
            let dv2 = self.views[v].dirty;
            self.views[v].dirty = dv2.remove(MOUNT);
            proof {
                assert(self.history() == tp.history());
                assert forall|i: int|
                    tp.view_live(i) implies #[trigger] tp.mountpend_ok_at(i) || t0.in_subtree(
                    root,
                    i,
                ) by {
                    assert(tp.mountpend_ok_at(i));
                }
                self.lemma_mount_finish_ok(t0, tp, v, root, n_subs as int);
                // every invariant but the pending-mount promise came from
                // the finish step; that promise is immediate now that the
                // whole subtree is mounted
                assert forall|i: int| self.view_live(i) implies #[trigger] self.mountpend_ok_at(
                    i,
                ) by {
                    if !(self.mountpend_ok_at(i)) {
                        assert(t0.in_subtree(root, i) && !t0.in_subtree(v as int, i));
                    }
                }
                assert forall|x: int|
                    self.view_live(x) && t0.in_subtree(v as int, x) implies {
                    &&& (#[trigger] self.dirty_bits(x)) == (t0.dirty_bits(x) & !MOUNT) | MOUNTED
                    &&& self.view_mounted(x)
                    &&& view_eq_except_dirty(t0.views@[x], self.views@[x])
                } by {
                    assert(self.dirty_bits(x) == (t0.dirty_bits(x) & !MOUNT) | MOUNTED);
                }
                assert forall|x: int|
                    self.view_live(x) && t0.in_subtree(v as int, x) implies view_eq_except_dirty(
                    t0.views@[x],
                    #[trigger] self.views@[x],
                ) by {
                    assert(self.dirty_bits(x) == (t0.dirty_bits(x) & !MOUNT) | MOUNTED);
                }
            }
        } else {
            // Not mounted yet, so neither are the subviews: run the
            // unconditional walk.
            let ghost root = Ghost(v as int);
            proof {
                assert forall|i: int|
                    self.view_live(i) implies #[trigger] self.mountpend_ok_at(i)
                    || self.in_subtree(v as int, i) by {
                    assert(t0.mountpend_ok_at(i));
                }
            }
            self.call_pending_mount(wm, v, Ghost(v as int));
            proof {
                assert forall|i: int| self.view_live(i) implies #[trigger] self.mountpend_ok_at(
                    i,
                ) by {
                    if !(self.mountpend_ok_at(i)) {
                        assert(t0.in_subtree(v as int, i) && !t0.in_subtree(v as int, i));
                    }
                }
                assert forall|x: int|
                    self.view_live(x) && t0.in_subtree(v as int, x) implies {
                    &&& (#[trigger] self.dirty_bits(x)) == (t0.dirty_bits(x) & !MOUNT) | MOUNTED
                    &&& self.view_mounted(x)
                    &&& view_eq_except_dirty(t0.views@[x], self.views@[x])
                } by {
                    assert(self.dirty_bits(x) == (t0.dirty_bits(x) & !MOUNT) | MOUNTED);
                }
                assert forall|x: int|
                    self.view_live(x) && t0.in_subtree(v as int, x) implies view_eq_except_dirty(
                    t0.views@[x],
                    #[trigger] self.views@[x],
                ) by {
                    assert(self.dirty_bits(x) == (t0.dirty_bits(x) & !MOUNT) | MOUNTED);
                }
            }
        }
    }
}

impl ViewTree {
    /// Detach the last subview of `v`: drop it from the layout tables and
    /// clear its superview link. Dirty flags, mounted state and the callback
    /// history are untouched; the detached subtree keeps its inner shape and
    /// merely loses its ancestors above the detached root.
    pub(crate) fn pop_subview(&mut self, v: usize) -> (c: usize)
        requires
            old(self).wf(),
            old(self).view_live(v as int),
            old(self).subviews_of(v as int).len() > 0,
        ensures
            final(self).wf(),
            c == old(self).subviews_of(v as int).last(),
            final(self).view_live(c as int),
            final(self).n_views() == old(self).n_views(),
            final(self).wnds@ == old(self).wnds@,
            final(self).update_requests@ == old(self).update_requests@,
            final(self).hist@ == old(self).hist@,
            final(self).pending@ == old(self).pending@,
            final(self).superview_of(c as int) is Empty,
            final(self).subviews_of(v as int) == old(self).subviews_of(v as int).drop_last(),
            final(self).views@[v as int].layout.frames@ == old(self).views@[v as int].layout.frames@.drop_last(),
            final(self).views@[v as int].layout.size_traits == old(self).views@[v as int].layout.size_traits,
            forall|x: int|
                final(self).view_live(x) && x != v as int && x != c as int ==> (#[trigger] final(self).views@[x]) == old(self).views@[x],
            forall|x: int|
                final(self).view_live(x) ==> #[trigger] final(self).dirty_bits(x) == old(self).dirty_bits(x) && final(self).view_mounted(x) == old(self).view_mounted(x),
            final(self).superview_of(v as int) == old(self).superview_of(v as int),
            final(self).layers_of(v as int) == old(self).layers_of(v as int),
            final(self).dirty_bits(v as int) == old(self).dirty_bits(v as int),
            final(self).views@[c as int].layout.subviews@ == old(self).views@[c as int].layout.subviews@,
            final(self).layers_of(c as int) == old(self).layers_of(c as int),
            final(self).view_flags_of(v as int) == old(self).view_flags_of(v as int),
            final(self).view_flags_of(c as int) == old(self).view_flags_of(c as int),
            final(self).anc_of(c as int) == Seq::<int>::empty(),
            forall|x: int|
                final(self).view_live(x) && !old(self).in_subtree(c as int, x)
                    ==> #[trigger] final(self).anc_of(x) == old(self).anc_of(x),
            forall|x: int|
                final(self).view_live(x) && old(self).in_subtree(c as int, x)
                    ==> #[trigger] final(self).in_subtree(c as int, x),
            forall|x: int|
                final(self).view_live(x) ==> (#[trigger] final(self).in_subtree(c as int, x))
                    == old(self).in_subtree(c as int, x),
            !final(self).in_subtree(c as int, v as int),
    {
        let ghost t0 = *self;
        let n_subs = self.views[v].layout.subviews.len();
        let c = self.views[v].layout.subviews[n_subs - 1];
        proof {
            assert(t0.subs_ok_at(v as int));
            assert(c == t0.subviews_of(v as int)[n_subs - 1]);
            assert(t0.view_live(c as int));
            assert(t0.superview_of(c as int) == Superview::View(v));
            t0.lemma_child_below(v as int, c as int);
            t0.lemma_chain_distinct(c as int);
            assert(t0.link_ok_at(c as int));
            assert((v as usize) as int == v as int);
            assert(t0.anc_of(c as int) == seq![v as int] + t0.anc_of(v as int));
        }
        self.views[v].layout.subviews.pop();
        self.views[v].layout.frames.pop();
        self.views[c].superview = Superview::Empty;
        proof {
            let ci = c as int;
            let ll = t0.anc_of(ci).len() as int;
            self.anc@ = Seq::new(
                t0.anc@.len(),
                |x: int|
                    if t0.in_subtree(ci, x) {
                        t0.anc@[x].take(t0.anc@[x].len() - ll)
                    } else {
                        t0.anc@[x]
                    },
            );
            self.lemma_pop_wf(t0, v, c);
        }
        c
    }

    /// The well-formedness argument for `pop_subview`: after the cut, each
    /// chain inside the detached subtree loses exactly its old tail, and
    /// every other chain is untouched.
    proof fn lemma_pop_wf(self, t0: ViewTree, v: usize, c: usize)
        requires
            t0.wf(),
            t0.view_live(v as int),
            t0.subviews_of(v as int).len() > 0,
            c == t0.subviews_of(v as int).last(),
            t0.view_live(c as int),
            t0.superview_of(c as int) == Superview::View(v),
            self.views@.len() == t0.views@.len(),
            self.wnds@ == t0.wnds@,
            self.update_requests@ == t0.update_requests@,
            self.hist@ == t0.hist@,
            self.pending@ == t0.pending@,
            self.taken@ == t0.taken@,
            forall|x: int|
                t0.view_live(x) && x != v as int && x != c as int ==> (#[trigger] self.views@[x])
                    == t0.views@[x],
            self.views@[v as int].layout.subviews@ == t0.views@[v as int].layout.subviews@
                .drop_last(),
            self.views@[v as int].layout.frames@ == t0.views@[v as int].layout.frames@
                .drop_last(),
            self.views@[v as int].layout.size_traits == t0.views@[v as int].layout.size_traits,
            self.views@[v as int].superview == t0.views@[v as int].superview,
            self.views@[v as int].dirty == t0.views@[v as int].dirty,
            self.views@[v as int].flags == t0.views@[v as int].flags,
            self.views@[v as int].size_traits == t0.views@[v as int].size_traits,
            self.views@[v as int].frame == t0.views@[v as int].frame,
            self.views@[v as int].global_frame == t0.views@[v as int].global_frame,
            self.views@[v as int].layers@ == t0.views@[v as int].layers@,
            self.views@[c as int].superview is Empty,
            self.views@[c as int].dirty == t0.views@[c as int].dirty,
            self.views@[c as int].flags == t0.views@[c as int].flags,
            self.views@[c as int].layout.subviews@ == t0.views@[c as int].layout.subviews@,
            self.views@[c as int].layout.frames@ == t0.views@[c as int].layout.frames@,
            self.views@[c as int].layout.size_traits == t0.views@[c as int].layout.size_traits,
            self.views@[c as int].size_traits == t0.views@[c as int].size_traits,
            self.views@[c as int].frame == t0.views@[c as int].frame,
            self.views@[c as int].global_frame == t0.views@[c as int].global_frame,
            self.views@[c as int].layers@ == t0.views@[c as int].layers@,
            v != c,
            self.anc@ == Seq::new(
                t0.anc@.len(),
                |x: int|
                    if t0.in_subtree(c as int, x) {
                        t0.anc@[x].take(t0.anc@[x].len() - t0.anc_of(c as int).len())
                    } else {
                        t0.anc@[x]
                    },
            ),
        ensures
            self.wf(),
            self.anc_of(c as int) == Seq::<int>::empty(),
            forall|x: int|
                self.view_live(x) && !t0.in_subtree(c as int, x) ==> #[trigger] self.anc_of(x)
                    == t0.anc_of(x),
            forall|x: int|
                self.view_live(x) ==> (#[trigger] self.in_subtree(c as int, x)) == t0.in_subtree(
                    c as int,
                    x,
                ),
            !self.in_subtree(c as int, v as int),
            forall|x: int|
                self.view_live(x) ==> #[trigger] self.dirty_bits(x) == t0.dirty_bits(x)
                    && self.view_mounted(x) == t0.view_mounted(x),
    {
        let ci = c as int;
        let uv = v as int;
        let ll = t0.anc_of(ci).len() as int;
        t0.lemma_child_below(uv, ci);
        t0.lemma_chain_distinct(ci);
        assert(t0.link_ok_at(ci));
        assert((v as usize) as int == uv);
        assert(t0.anc_of(ci) == seq![uv] + t0.anc_of(uv));
        // Chains: inside the subtree each chain ends with the old tail of
        // exactly `ll` entries; cutting it keeps the suffix law.
        assert forall|x: int|
            t0.view_live(x) && t0.in_subtree(ci, x) implies t0.anc_of(x).len() >= ll && (x != ci
            ==> t0.anc_of(x).len() > ll) && #[trigger] self.anc_of(x) == t0.anc_of(x).take(
            t0.anc_of(x).len() - ll,
        ) by {
            if x != ci {
                let j = t0.anc_of(x).index_of(ci);
                t0.lemma_chain(x, j);
                assert(t0.anc_of(x).skip(j + 1) == t0.anc_of(ci));
                assert(t0.anc_of(x).len() - (j + 1) == ll);
            }
        }
        assert(self.anc_of(ci) =~= Seq::<int>::empty());
        assert forall|x: int|
            t0.view_live(x) && !t0.in_subtree(ci, x) implies #[trigger] self.anc_of(x)
            == t0.anc_of(x) by {}
        // Subtree membership is preserved: the kept prefix still holds `ci`
        // for proper members.
        assert forall|x: int|
            self.view_live(x) implies (#[trigger] self.in_subtree(ci, x)) == t0.in_subtree(
            ci,
            x,
        ) by {
            if t0.in_subtree(ci, x) {
                if x != ci {
                    let j = t0.anc_of(x).index_of(ci);
                    t0.lemma_chain(x, j);
                    assert(t0.anc_of(x).len() - (j + 1) == ll);
                    assert(self.anc_of(x) == t0.anc_of(x).take(j + 1));
                    assert(self.anc_of(x)[j] == ci);
                    assert(self.anc_of(x).contains(ci));
                }
            } else {
                assert(self.anc_of(x) == t0.anc_of(x));
            }
        }
        assert(!self.in_subtree(ci, uv));
        assert forall|i: int| self.view_live(i) implies #[trigger] self.link_ok_at(i) by {
            assert(t0.link_ok_at(i));
            if i == ci {
                assert(self.anc_of(ci) == Seq::<int>::empty());
            } else if t0.in_subtree(ci, i) {
                // the parent stays inside the subtree, one step shallower
                let j = t0.anc_of(i).index_of(ci);
                t0.lemma_chain(i, j);
                match t0.views@[i].superview {
                    Superview::View(p) => {
                        let pi = p as int;
                        assert(t0.anc_of(i) == seq![pi] + t0.anc_of(pi));
                        assert(t0.in_subtree(ci, pi)) by {
                            if pi != ci {
                                assert(t0.anc_of(i)[0] == pi);
                                assert(j != 0);
                                assert(t0.anc_of(pi)[j - 1] == ci);
                            }
                        }
                        assert(self.views@[i].superview == t0.views@[i].superview) by {
                            assert(i != uv) by {
                                if i == uv {
                                    assert(t0.in_subtree(ci, uv));
                                }
                            }
                        }
                        assert(self.anc_of(i) =~= seq![pi] + self.anc_of(pi)) by {
                            assert(t0.anc_of(i).len() > ll);
                            assert(t0.anc_of(pi).len() >= ll);
                            assert(self.anc_of(i) == t0.anc_of(i).take(t0.anc_of(i).len() - ll));
                            assert(self.anc_of(pi) == t0.anc_of(pi).take(
                                t0.anc_of(pi).len() - ll,
                            ));
                        }
                    },
                    _ => {
                        assert(t0.anc_of(i) == Seq::<int>::empty());
                        assert(t0.in_subtree(ci, i) && i != ci);
                        assert(t0.anc_of(i).contains(ci));
                    },
                }
            } else {
                match t0.views@[i].superview {
                    Superview::View(p) => {
                        let pi = p as int;
                        assert(t0.view_live(pi));
                        assert(!t0.in_subtree(ci, pi)) by {
                            if t0.in_subtree(ci, pi) {
                                assert(t0.anc_of(i) == seq![pi] + t0.anc_of(pi));
                                if pi == ci {
                                    assert(t0.anc_of(i)[0] == ci);
                                    assert(t0.anc_of(i).contains(ci));
                                } else {
                                    let j = t0.anc_of(pi).index_of(ci);
                                    assert(t0.anc_of(i)[j + 1] == ci);
                                    assert(t0.anc_of(i).contains(ci));
                                }
                            }
                        }
                        assert(self.anc_of(i) == t0.anc_of(i));
                        assert(self.anc_of(pi) == t0.anc_of(pi));
                        assert(self.views@[i].superview == t0.views@[i].superview) by {
                            assert(i != ci);
                            if i == uv {
                            }
                        }
                    },
                    Superview::Window(w) => {
                        assert(i != ci);
                        assert(self.views@[i].superview == t0.views@[i].superview);
                        assert(self.wnds@[w as int] == t0.wnds@[w as int]);
                    },
                    Superview::Empty => {
                        assert(i == ci || self.views@[i].superview == t0.views@[i].superview);
                    },
                }
            }
        }
        assert forall|i: int| self.view_live(i) implies #[trigger] self.rev_ok_at(i) by {
            assert(t0.link_ok_at(i));
            assert(t0.rev_ok_at(i));
            match self.views@[i].superview {
                Superview::View(p) => {
                    assert(self.views@[i].superview == t0.views@[i].superview) by {
                        if i == ci {
                            assert(self.views@[ci].superview is Empty);
                        }
                    }
                    let pi = p as int;
                    assert(t0.subviews_of(pi).contains(i as usize));
                    if pi == uv {
                        // i is still listed: it is not the popped last entry
                        assert(i != ci);
                        let j = t0.subviews_of(uv).index_of(i as usize);
                        assert(t0.subviews_of(uv).no_duplicates()) by {
                            assert(t0.subs_ok_at(uv));
                        }
                        assert(j < t0.subviews_of(uv).len() - 1) by {
                            if j == t0.subviews_of(uv).len() - 1 {
                                assert(t0.subviews_of(uv)[j] == c);
                            }
                        }
                        assert(self.subviews_of(uv)[j] == i as usize);
                        assert(self.subviews_of(uv).contains(i as usize));
                    } else {
                        assert(self.subviews_of(pi) == t0.subviews_of(pi)) by {
                            assert(pi != ci || self.views@[ci].layout.subviews@ == t0.views@[
                                ci].layout.subviews@);
                        }
                    }
                },
                _ => {},
            }
        }
        assert forall|i: int| self.view_live(i) implies #[trigger] self.subs_ok_at(i) by {
            assert(t0.subs_ok_at(i));
            if i == uv {
                assert(t0.subviews_of(uv).drop_last().no_duplicates()) by {
                    assert forall|a: int, b: int|
                        0 <= a < b < t0.subviews_of(uv).drop_last().len() implies t0.subviews_of(
                        uv,
                    ).drop_last()[a] != t0.subviews_of(uv).drop_last()[b] by {
                        assert(t0.subviews_of(uv)[a] != t0.subviews_of(uv)[b]);
                    }
                }
                assert forall|k: int| 0 <= k < self.subviews_of(uv).len() implies {
                    let s = #[trigger] self.subviews_of(uv)[k] as int;
                    self.view_live(s) && self.views@[s].superview == Superview::View(v)
                } by {
                    let s = self.subviews_of(uv)[k] as int;
                    assert(t0.subviews_of(uv)[k] == self.subviews_of(uv)[k]);
                    assert(t0.view_live(s) && t0.views@[s].superview == Superview::View(v));
                    assert(s != ci) by {
                        assert(t0.subviews_of(uv).no_duplicates());
                        if s == ci {
                            assert(t0.subviews_of(uv)[k] == t0.subviews_of(uv)[t0.subviews_of(
                                uv,
                            ).len() - 1]);
                        }
                    }
                    assert(self.views@[s].superview == t0.views@[s].superview) by {
                        if s == uv {
                        }
                    }
                }
            } else {
                assert(self.subviews_of(i) == t0.subviews_of(i));
                assert(self.views@[i].layout.frames@ == t0.views@[i].layout.frames@);
                assert forall|k: int| 0 <= k < self.subviews_of(i).len() implies {
                    let s = #[trigger] self.subviews_of(i)[k] as int;
                    self.view_live(s) && self.views@[s].superview == Superview::View(i as usize)
                } by {
                    let s = self.subviews_of(i)[k] as int;
                    assert(t0.view_live(s) && t0.views@[s].superview == Superview::View(
                        i as usize,
                    ));
                    assert(s != ci) by {
                        if s == ci {
                            assert(t0.views@[ci].superview == Superview::View(i as usize));
                            assert(t0.views@[ci].superview == Superview::View(v));
                            assert(i == uv);
                        }
                    }
                }
            }
        }
        assert forall|i: int| self.view_live(i) implies #[trigger] self.prop_ok_at(i)
            && self.mountpend_ok_at(i) && self.mounted_chain_at(i) && self.order_ok_at(i) by {
            assert(t0.link_ok_at(i));
            assert(t0.prop_ok_at(i) && t0.mountpend_ok_at(i) && t0.mounted_chain_at(i)
                && t0.order_ok_at(i));
            if i != ci {
                assert(self.views@[i].superview == t0.views@[i].superview) by {
                    if i == uv {
                    }
                }
                match t0.views@[i].superview {
                    Superview::View(p) => {
                        let pi = p as int;
                        assert(t0.view_live(pi));
                        assert(self.views@[pi].dirty == t0.views@[pi].dirty) by {
                            if pi == uv || pi == ci {
                            }
                        }
                    },
                    _ => {},
                }
            }
        }
        assert forall|i: int| self.view_live(i) implies #[trigger] self.mountpend_ok_at(i) by {
            assert(self.prop_ok_at(i));
        }
        assert forall|i: int| self.view_live(i) implies #[trigger] self.mounted_chain_at(i) by {
            assert(self.prop_ok_at(i));
        }
        assert forall|i: int| self.view_live(i) implies #[trigger] self.order_ok_at(i) by {
            assert(self.prop_ok_at(i));
        }
        assert forall|w: int| self.wnd_live(w) implies #[trigger] self.wnd_ok_at(w)
            && self.pend_ok_at(w) by {
            assert(t0.wnd_ok_at(w));
            assert(t0.pend_ok_at(w));
            match t0.wnds@[w].content_view {
                Some(cv) => {
                    let cvi = cv as int;
                    assert(cvi != ci) by {
                        if cvi == ci {
                            assert(t0.views@[ci].superview == Superview::Window(w as usize));
                        }
                    }
                    assert(self.views@[cvi].superview == t0.views@[cvi].superview
                        && self.views@[cvi].dirty == t0.views@[cvi].dirty) by {
                        if cvi == uv {
                        }
                    }
                },
                None => {},
            }
        }
        assert forall|w: int| self.wnd_live(w) implies #[trigger] self.pend_ok_at(w) by {
            assert(self.wnd_ok_at(w));
        }
        assert forall|i: int| self.view_live(i) implies #[trigger] self.layers_ok_at(i) by {
            assert(t0.layers_ok_at(i));
            if i != ci && i != uv {
                assert(self.views@[i] == t0.views@[i]);
            }
        }
        assert forall|x: int| self.view_live(x) implies #[trigger] self.count_ok_at(x) by {
            assert(t0.count_ok_at(x));
            if x != ci && x != uv {
                assert(self.views@[x] == t0.views@[x]);
            }
        }
        assert(self.hist@ == self.taken@ + self.pending@) by {
            assert(t0.hist@ == t0.taken@ + t0.pending@);
        }
        assert forall|x: int| self.view_live(x) implies #[trigger] self.dirty_bits(x)
            == t0.dirty_bits(x) && self.view_mounted(x) == t0.view_mounted(x) by {
            if x != ci && x != uv {
                assert(self.views@[x] == t0.views@[x]);
            }
        }
    }
}

impl ViewTree {
    /// Attach detached view `c` as the last subview of `v` at `frame`: wire
    /// the layout table and the superview link, fold the subview's dirty
    /// flags, raised, into `v`, together with a pending `MOUNT` where the
    /// subview is not mounted yet, and propagate along `v`'s chain.
    pub(crate) fn attach_subview(&mut self, v: usize, c: usize, frame: Box2)
        requires
            old(self).wf(),
            old(self).view_live(v as int),
            old(self).view_live(c as int),
            old(self).superview_of(c as int) is Empty,
            !old(self).in_subtree(c as int, v as int),
            old(self).view_mounted(c as int) ==> old(self).view_mounted(v as int) && last_mount(
                old(self).history(),
                v as int,
            ) < last_mount(old(self).history(), c as int),
        ensures
            final(self).wf(),
            final(self).n_views() == old(self).n_views(),
            final(self).n_wnds() == old(self).n_wnds(),
            final(self).subviews_of(v as int) == old(self).subviews_of(v as int).push(c),
            final(self).views@[v as int].layout.frames@ == old(self).views@[v as int].layout.frames@.push(frame),
            final(self).views@[v as int].layout.size_traits == old(self).views@[v as int].layout.size_traits,
            final(self).superview_of(c as int) == Superview::View(v),
            final(self).superview_of(v as int) == old(self).superview_of(v as int),
            final(self).anc_of(v as int) == old(self).anc_of(v as int),
            final(self).hist@ == old(self).hist@,
            final(self).pending@ == old(self).pending@,
            old(self).update_requests@.is_prefix_of(final(self).update_requests@),
            forall|x: int|
                final(self).view_live(x) ==> #[trigger] final(self).view_mounted(x) == old(self).view_mounted(x),
            forall|x: int|
                final(self).view_live(x) && x != v as int && x != c as int ==> final(self).superview_of(x) == old(self).superview_of(x) && final(self).subviews_of(x)
                    == old(self).subviews_of(x) && final(self).layers_of(x) == old(self).layers_of(
                    x,
                ) && final(self).view_flags_of(x) == old(self).view_flags_of(x),
            final(self).subviews_of(c as int) == old(self).subviews_of(c as int),
            final(self).view_flags_of(v as int) == old(self).view_flags_of(v as int),
            final(self).view_flags_of(c as int) == old(self).view_flags_of(c as int),
            final(self).layers_of(v as int) == old(self).layers_of(v as int),
            final(self).layers_of(c as int) == old(self).layers_of(c as int),
            contains_bits(
                final(self).dirty_bits(v as int),
                raise_bits(old(self).dirty_bits(c as int)),
            ),
            !old(self).view_mounted(c as int) ==> contains_bits(
                final(self).dirty_bits(v as int),
                MOUNT,
            ),
            contains_bits(final(self).dirty_bits(v as int), old(self).dirty_bits(v as int)),
    {
        let ghost t0 = *self;
        proof {
            t0.lemma_chain_distinct(v as int);
            t0.lemma_chain_distinct(c as int);
            assert(t0.link_ok_at(c as int));
            assert(t0.anc_of(c as int) == Seq::<int>::empty());
        }
        let dc = self.views[c].dirty;
        self.views[v].layout.subviews.push(c);
        self.views[v].layout.frames.push(frame);
        self.views[c].superview = Superview::View(v);
        proof {
            let ci = c as int;
            let vi = v as int;
            self.anc@ = Seq::new(
                t0.anc@.len(),
                |x: int|
                    if t0.in_subtree(ci, x) {
                        t0.anc@[x] + seq![vi] + t0.anc@[vi]
                    } else {
                        t0.anc@[x]
                    },
            );
            self.lemma_attach_wf(t0, v, c);
        }
        let up_flags = dc.raise_level();
        let local: u16 = if !dc.contains(MOUNTED) {
            up_flags.bits | MOUNT
        } else {
            up_flags.bits
        };
        proof {
            crate::flags::lemma_raise_stable(t0.dirty_bits(c as int));
            crate::flags::lemma_consts_stable();
            crate::flags::lemma_stable_or(raise_bits(t0.dirty_bits(c as int)), MOUNT);
            crate::flags::lemma_or_contains(raise_bits(t0.dirty_bits(c as int)), MOUNT);
            crate::flags::lemma_stable_no_mounted(local);
            crate::flags::lemma_or_contains(local, local);
            assert(ancestor_stable(local));
            assert(contains_bits(local, raise_bits(local)));
            assert(contains_bits(local, raise_bits(t0.dirty_bits(c as int))));
            let vi = v as int;
            let n1 = self.subviews_of(vi).len() as int;
            assert forall|k: int| 0 <= k < n1 implies contains_bits(
                self.dirty_bits(vi) | local,
                raise_bits(self.dirty_bits(#[trigger] self.subviews_of(vi)[k] as int)),
            ) by {
                let si = self.subviews_of(vi)[k] as int;
                if k < n1 - 1 {
                    assert(self.subviews_of(vi)[k] == t0.subviews_of(vi)[k]);
                    assert(t0.subs_ok_at(vi));
                    assert(t0.view_live(si) && t0.superview_of(si) == Superview::View(v));
                    assert(t0.prop_ok_at(si));
                    assert(self.dirty_bits(si) == t0.dirty_bits(si));
                    assert(self.dirty_bits(vi) == t0.dirty_bits(vi));
                    crate::flags::lemma_contains_or_mono(
                        t0.dirty_bits(vi),
                        local,
                        raise_bits(t0.dirty_bits(si)),
                    );
                } else {
                    assert(si == c as int);
                    crate::flags::lemma_contains_or_mono(
                        local,
                        self.dirty_bits(vi),
                        raise_bits(t0.dirty_bits(c as int)),
                    );
                    assert(self.dirty_bits(si) == t0.dirty_bits(si));
                }
            }
            assert forall|k: int| 0 <= k < n1 implies ((!self.view_mounted(
                #[trigger] self.subviews_of(vi)[k] as int,
            ) && self.view_mounted(vi)) ==> contains_bits(self.dirty_bits(vi) | local, MOUNT)) by {
                let si = self.subviews_of(vi)[k] as int;
                if !self.view_mounted(si) && self.view_mounted(vi) {
                    if k < n1 - 1 {
                        assert(self.subviews_of(vi)[k] == t0.subviews_of(vi)[k]);
                        assert(t0.subs_ok_at(vi));
                        assert(t0.view_live(si) && t0.superview_of(si) == Superview::View(v));
                        assert(t0.mountpend_ok_at(si));
                        assert(self.view_mounted(si) == t0.view_mounted(si));
                        assert(self.view_mounted(vi) == t0.view_mounted(vi));
                        assert(contains_bits(t0.dirty_bits(vi), MOUNT));
                        crate::flags::lemma_contains_or_mono(t0.dirty_bits(vi), local, MOUNT);
                    } else {
                        assert(si == c as int);
                        assert(self.view_mounted(si) == t0.view_mounted(si));
                        assert(contains_bits(local, MOUNT));
                        crate::flags::lemma_contains_or_mono(local, self.dirty_bits(vi), MOUNT);
                    }
                }
            }
        }
        self.set_flags_and_propagate(v, local, local);
        proof {
            crate::flags::lemma_or_contains(t0.dirty_bits(v as int), local);
            crate::flags::lemma_contains_or_mono(
                local,
                t0.dirty_bits(v as int),
                raise_bits(t0.dirty_bits(c as int)),
            );
            if !t0.view_mounted(c as int) {
                crate::flags::lemma_or_contains(raise_bits(t0.dirty_bits(c as int)), MOUNT);
                crate::flags::lemma_contains_or_mono(local, t0.dirty_bits(v as int), MOUNT);
            }
            assert forall|x: int| self.view_live(x) implies #[trigger] self.view_mounted(x)
                == t0.view_mounted(x) by {
                crate::flags::lemma_stable_no_mounted(local);
                if x == v as int {
                    crate::flags::lemma_or_disjoint_mask(t0.dirty_bits(x), local, MOUNTED);
                } else if t0.anc_of(v as int).contains(x) {
                    crate::flags::lemma_or_disjoint_mask(t0.dirty_bits(x), local, MOUNTED);
                }
            }
            assert(self.anc_of(v as int) == t0.anc_of(v as int)) by {
                assert(!t0.in_subtree(c as int, v as int));
            }
        }
    }

    /// The well-formedness argument for the wiring half of
    /// `attach_subview`: the attached subtree's chains gain the new parent's
    /// chain as a tail, and only the edges into `v` still owe the
    /// propagation invariant, which the subsequent flag fold settles.
    proof fn lemma_attach_wf(self, t0: ViewTree, v: usize, c: usize)
        requires
            t0.wf(),
            t0.view_live(v as int),
            t0.view_live(c as int),
            t0.superview_of(c as int) is Empty,
            !t0.in_subtree(c as int, v as int),
            t0.view_mounted(c as int) ==> t0.view_mounted(v as int) && last_mount(
                t0.history(),
                v as int,
            ) < last_mount(t0.history(), c as int),
            self.views@.len() == t0.views@.len(),
            self.wnds@ == t0.wnds@,
            self.update_requests@ == t0.update_requests@,
            self.hist@ == t0.hist@,
            self.pending@ == t0.pending@,
            self.taken@ == t0.taken@,
            forall|x: int|
                t0.view_live(x) && x != v as int && x != c as int ==> (#[trigger] self.views@[x])
                    == t0.views@[x],
            self.views@[v as int].layout.subviews@ == t0.views@[v as int].layout.subviews@.push(
                c,
            ),
            self.views@[v as int].layout.frames@ == t0.views@[v as int].layout.frames@.push(
                self.views@[v as int].layout.frames@.last(),
            ),
            self.views@[v as int].layout.size_traits == t0.views@[v as int].layout.size_traits,
            self.views@[v as int].superview == t0.views@[v as int].superview,
            self.views@[v as int].dirty == t0.views@[v as int].dirty,
            self.views@[v as int].flags == t0.views@[v as int].flags,
            self.views@[v as int].size_traits == t0.views@[v as int].size_traits,
            self.views@[v as int].frame == t0.views@[v as int].frame,
            self.views@[v as int].global_frame == t0.views@[v as int].global_frame,
            self.views@[v as int].layers@ == t0.views@[v as int].layers@,
            self.views@[c as int].superview == Superview::View(v),
            self.views@[c as int].dirty == t0.views@[c as int].dirty,
            self.views@[c as int].flags == t0.views@[c as int].flags,
            self.views@[c as int].layout.subviews@ == t0.views@[c as int].layout.subviews@,
            self.views@[c as int].layout.frames@ == t0.views@[c as int].layout.frames@,
            self.views@[c as int].layout.size_traits == t0.views@[c as int].layout.size_traits,
            self.views@[c as int].size_traits == t0.views@[c as int].size_traits,
            self.views@[c as int].frame == t0.views@[c as int].frame,
            self.views@[c as int].global_frame == t0.views@[c as int].global_frame,
            self.views@[c as int].layers@ == t0.views@[c as int].layers@,
            v != c,
            self.anc@ == Seq::new(
                t0.anc@.len(),
                |x: int|
                    if t0.in_subtree(c as int, x) {
                        t0.anc@[x] + seq![v as int] + t0.anc@[v as int]
                    } else {
                        t0.anc@[x]
                    },
            ),
        ensures
            self.wf_arena(),
            self.wf_links(),
            self.wf_rev(),
            self.wf_subs(),
            self.wf_wnds(),
            self.wf_pend(),
            self.wf_layers(),
            self.wf_events(),
            self.wf_order(),
            forall|i: int|
                self.view_live(i) && self.parent_of(i) != v ==> #[trigger] self.prop_ok_at(i),
            forall|i: int|
                self.view_live(i) && self.parent_of(i) != v ==> #[trigger] self.mountpend_ok_at(
                    i,
                ),
            forall|k: int|
                0 <= k < self.subviews_of(v as int).len() - 1 ==> #[trigger] self.subviews_of(
                    v as int,
                )[k] == t0.subviews_of(v as int)[k],
            forall|x: int|
                self.view_live(x) ==> #[trigger] self.dirty_bits(x) == t0.dirty_bits(x)
                    && self.view_mounted(x) == t0.view_mounted(x),
    {
        let ci = c as int;
        let uv = v as int;
        t0.lemma_chain_distinct(uv);
        t0.lemma_chain_distinct(ci);
        assert(t0.link_ok_at(ci));
        assert(t0.anc_of(ci) == Seq::<int>::empty());
        assert((v as usize) as int == uv);
        // Chains: members of c's subtree gain v's chain as a tail.
        assert forall|x: int|
            t0.view_live(x) && t0.in_subtree(ci, x) implies #[trigger] self.anc_of(x)
            == t0.anc_of(x) + seq![uv] + t0.anc_of(uv) by {}
        assert forall|x: int|
            t0.view_live(x) && !t0.in_subtree(ci, x) implies #[trigger] self.anc_of(x)
            == t0.anc_of(x) by {}
        assert(self.anc_of(ci) =~= seq![uv] + t0.anc_of(uv));
        assert forall|i: int| self.view_live(i) implies #[trigger] self.link_ok_at(i) by {
            assert(t0.link_ok_at(i));
            if i == ci {
                assert(!t0.in_subtree(ci, uv));
                assert(self.anc_of(uv) == t0.anc_of(uv));
                assert(self.anc_of(ci) =~= seq![uv] + self.anc_of(uv));
            } else if t0.in_subtree(ci, i) {
                match t0.views@[i].superview {
                    Superview::View(p) => {
                        let pi = p as int;
                        assert(t0.anc_of(i) == seq![pi] + t0.anc_of(pi));
                        assert(t0.in_subtree(ci, pi)) by {
                            if pi != ci {
                                assert(t0.anc_of(i)[0] == pi);
                                let j = t0.anc_of(i).index_of(ci);
                                assert(j != 0);
                                assert(t0.anc_of(pi)[j - 1] == ci);
                            }
                        }
                        assert(self.views@[i].superview == t0.views@[i].superview) by {
                            assert(i != uv);
                        }
                        assert(self.anc_of(i) =~= seq![pi] + self.anc_of(pi));
                    },
                    _ => {
                        assert(t0.anc_of(i) == Seq::<int>::empty());
                        assert(t0.anc_of(i).contains(ci));
                    },
                }
            } else {
                match t0.views@[i].superview {
                    Superview::View(p) => {
                        let pi = p as int;
                        assert(t0.view_live(pi));
                        assert(!t0.in_subtree(ci, pi)) by {
                            if t0.in_subtree(ci, pi) {
                                assert(t0.anc_of(i) == seq![pi] + t0.anc_of(pi));
                                if pi == ci {
                                    assert(t0.anc_of(i)[0] == ci);
                                    assert(t0.anc_of(i).contains(ci));
                                } else {
                                    let j = t0.anc_of(pi).index_of(ci);
                                    assert(t0.anc_of(i)[j + 1] == ci);
                                    assert(t0.anc_of(i).contains(ci));
                                }
                            }
                        }
                        assert(self.views@[i].superview == t0.views@[i].superview) by {
                            if i == uv {
                            }
                        }
                        assert(self.anc_of(i) == t0.anc_of(i));
                        assert(self.anc_of(pi) == t0.anc_of(pi));
                    },
                    Superview::Window(w) => {
                        assert(self.views@[i].superview == t0.views@[i].superview) by {
                            if i == uv {
                            }
                        }
                        assert(self.wnds@[w as int] == t0.wnds@[w as int]);
                    },
                    Superview::Empty => {
                        assert(i == ci || self.views@[i].superview == t0.views@[i].superview);
                        assert(i != ci);
                    },
                }
            }
        }
        assert forall|i: int| self.view_live(i) implies #[trigger] self.rev_ok_at(i) by {
            assert(t0.link_ok_at(i));
            assert(t0.rev_ok_at(i));
            match self.views@[i].superview {
                Superview::View(p) => {
                    let pi = p as int;
                    if i == ci {
                        assert(pi == uv);
                        assert(self.subviews_of(uv).last() == c);
                        assert(self.subviews_of(uv).contains(c));
                    } else {
                        assert(self.views@[i].superview == t0.views@[i].superview) by {
                            if i == uv {
                            }
                        }
                        assert(t0.subviews_of(pi).contains(i as usize));
                        if pi == uv {
                            let j = t0.subviews_of(uv).index_of(i as usize);
                            assert(self.subviews_of(uv)[j] == i as usize);
                            assert(self.subviews_of(uv).contains(i as usize));
                        } else {
                            assert(self.subviews_of(pi) == t0.subviews_of(pi)) by {
                                if pi == ci {
                                }
                            }
                        }
                    }
                },
                _ => {},
            }
        }
        assert forall|i: int| self.view_live(i) implies #[trigger] self.subs_ok_at(i) by {
            assert(t0.subs_ok_at(i));
            if i == uv {
                assert(!t0.subviews_of(uv).contains(c)) by {
                    if t0.subviews_of(uv).contains(c) {
                        let j = t0.subviews_of(uv).index_of(c);
                        assert(t0.views@[ci].superview == Superview::View(v));
                    }
                }
                assert(self.subviews_of(uv).no_duplicates()) by {
                    assert forall|a: int, b: int|
                        0 <= a < b < self.subviews_of(uv).len() implies self.subviews_of(uv)[a]
                        != self.subviews_of(uv)[b] by {
                        if b < self.subviews_of(uv).len() - 1 {
                            assert(t0.subviews_of(uv)[a] != t0.subviews_of(uv)[b]);
                        } else {
                            assert(self.subviews_of(uv)[b] == c);
                            if self.subviews_of(uv)[a] == c {
                                assert(t0.subviews_of(uv)[a] == c);
                                assert(t0.subviews_of(uv).contains(c));
                            }
                        }
                    }
                }
                assert forall|k: int| 0 <= k < self.subviews_of(uv).len() implies {
                    let s = #[trigger] self.subviews_of(uv)[k] as int;
                    self.view_live(s) && self.views@[s].superview == Superview::View(v)
                } by {
                    let s = self.subviews_of(uv)[k] as int;
                    if k < self.subviews_of(uv).len() - 1 {
                        assert(t0.subviews_of(uv)[k] == self.subviews_of(uv)[k]);
                        assert(t0.view_live(s) && t0.views@[s].superview == Superview::View(v));
                        assert(s != ci) by {
                            if s == ci {
                                assert(t0.views@[ci].superview == Superview::View(v));
                            }
                        }
                        assert(self.views@[s].superview == t0.views@[s].superview) by {
                            if s == uv {
                            }
                        }
                    } else {
                        assert(s == ci);
                    }
                }
            } else {
                assert(self.subviews_of(i) == t0.subviews_of(i)) by {
                    if i == ci {
                    }
                }
                assert(self.views@[i].layout.frames@ == t0.views@[i].layout.frames@) by {
                    if i == ci {
                    }
                }
                assert forall|k: int| 0 <= k < self.subviews_of(i).len() implies {
                    let s = #[trigger] self.subviews_of(i)[k] as int;
                    self.view_live(s) && self.views@[s].superview == Superview::View(i as usize)
                } by {
                    let s = self.subviews_of(i)[k] as int;
                    assert(t0.view_live(s) && t0.views@[s].superview == Superview::View(
                        i as usize,
                    ));
                    assert(s != ci) by {
                        if s == ci {
                            assert(t0.views@[ci].superview == Superview::View(i as usize));
                        }
                    }
                    assert(self.views@[s].superview == t0.views@[s].superview) by {
                        if s == uv {
                        }
                    }
                }
            }
        }
        assert forall|x: int| self.view_live(x) implies #[trigger] self.dirty_bits(x)
            == t0.dirty_bits(x) && self.view_mounted(x) == t0.view_mounted(x) by {
            if x != uv && x != ci {
                assert(self.views@[x] == t0.views@[x]);
            }
        }
        assert forall|i: int|
            self.view_live(i) && self.parent_of(i) != v implies #[trigger] self.prop_ok_at(i)
            && self.mountpend_ok_at(i) by {
            assert(t0.link_ok_at(i));
            assert(t0.prop_ok_at(i) && t0.mountpend_ok_at(i));
            assert(i != ci) by {
                if i == ci {
                    assert(self.parent_of(ci) == uv);
                }
            }
            assert(self.views@[i].superview == t0.views@[i].superview) by {
                if i == uv {
                }
            }
            match t0.views@[i].superview {
                Superview::View(p) => {
                    let pi = p as int;
                    assert(t0.view_live(pi));
                },
                _ => {},
            }
        }
        assert forall|i: int|
            self.view_live(i) && self.parent_of(i) != v implies #[trigger] self.mountpend_ok_at(
            i,
        ) by {
            assert(t0.link_ok_at(i));
            assert(t0.prop_ok_at(i) && t0.mountpend_ok_at(i));
            assert(i != ci) by {
                if i == ci {
                    assert(self.parent_of(ci) == uv);
                }
            }
            assert(self.views@[i].superview == t0.views@[i].superview) by {
                if i == uv {
                }
            }
            match t0.views@[i].superview {
                Superview::View(p) => {
                    let pi = p as int;
                    assert(t0.view_live(pi));
                },
                _ => {},
            }
        }
        assert forall|w: int| self.wnd_live(w) implies #[trigger] self.wnd_ok_at(w)
            && self.pend_ok_at(w) by {
            assert(t0.wnd_ok_at(w));
            assert(t0.pend_ok_at(w));
            match t0.wnds@[w].content_view {
                Some(cv) => {
                    let cvi = cv as int;
                    assert(cvi != ci) by {
                        if cvi == ci {
                            assert(t0.views@[ci].superview == Superview::Window(w as usize));
                        }
                    }
                    assert(self.views@[cvi].superview == t0.views@[cvi].superview
                        && self.views@[cvi].dirty == t0.views@[cvi].dirty) by {
                        if cvi == uv {
                        }
                    }
                },
                None => {},
            }
        }
        assert forall|w: int| self.wnd_live(w) implies #[trigger] self.pend_ok_at(w) by {
            assert(self.wnd_ok_at(w));
        }
        assert forall|i: int| self.view_live(i) implies #[trigger] self.layers_ok_at(i) by {
            assert(t0.layers_ok_at(i));
            if i != ci && i != uv {
                assert(self.views@[i] == t0.views@[i]);
            }
        }
        assert forall|x: int| self.view_live(x) implies #[trigger] self.count_ok_at(x) by {
            assert(t0.count_ok_at(x));
            if x != ci && x != uv {
                assert(self.views@[x] == t0.views@[x]);
            }
        }
        assert(self.hist@ == self.taken@ + self.pending@) by {
            assert(t0.hist@ == t0.taken@ + t0.pending@);
        }
        assert forall|i: int| self.view_live(i) implies #[trigger] self.mounted_chain_at(i)
            && self.order_ok_at(i) by {
            assert(t0.link_ok_at(i));
            assert(t0.mounted_chain_at(i));
            assert(t0.order_ok_at(i));
            if i == ci {
            } else {
                assert(self.views@[i].superview == t0.views@[i].superview) by {
                    if i == uv {
                    }
                }
                if t0.parent_of(i) >= 0 {
                    assert(t0.view_live(t0.parent_of(i)));
                }
            }
        }
        assert forall|i: int| self.view_live(i) implies #[trigger] self.order_ok_at(i) by {
            assert(self.mounted_chain_at(i) && self.order_ok_at(i));
        }
    }
}

impl ViewTree {
    /// After an unmount of a detached subtree, mounted state is closed
    /// upward again everywhere: the subtree is wholly unmounted and nothing
    /// else moved.
    pub(crate) proof fn lemma_restore_chain(self, tp: ViewTree, s: usize)
        requires
            tp.wf(),
            tp.view_live(s as int),
            self.wf_butchain(),
            self.views@.len() == tp.views@.len(),
            self.anc@ == tp.anc@,
            forall|x: int|
                self.view_live(x) && !tp.in_subtree(s as int, x) ==> (#[trigger] self.views@[x])
                    == tp.views@[x],
            forall|x: int|
                self.view_live(x) && tp.in_subtree(s as int, x) ==> !(#[trigger] self.view_mounted(
                    x,
                )) && view_eq_except_dirty_layers(tp.views@[x], self.views@[x]),
        ensures
            self.wf(),
    {
        assert forall|i: int| self.view_live(i) implies #[trigger] self.mounted_chain_at(i) by {
            assert(tp.link_ok_at(i));
            assert(tp.mounted_chain_at(i));
            if tp.in_subtree(s as int, i) {
                assert(!self.view_mounted(i));
            } else {
                assert(self.views@[i] == tp.views@[i]);
                match tp.views@[i].superview {
                    Superview::View(p) => {
                        let pi = p as int;
                        assert(tp.view_live(pi));
                        assert(!tp.in_subtree(s as int, pi)) by {
                            if tp.in_subtree(s as int, pi) {
                                assert(tp.anc_of(i) == seq![pi] + tp.anc_of(pi));
                                if pi == s as int {
                                    assert(tp.anc_of(i)[0] == s as int);
                                    assert(tp.anc_of(i).contains(s as int));
                                } else {
                                    let j = tp.anc_of(pi).index_of(s as int);
                                    assert(tp.anc_of(i)[j + 1] == s as int);
                                    assert(tp.anc_of(i).contains(s as int));
                                }
                            }
                        }
                        assert(self.views@[pi] == tp.views@[pi]);
                    },
                    _ => {},
                }
            }
        }
    }

    /// The nearest view at or above `v` that manages a layer group, if any:
    /// the view whose compositor layer holds `v`'s layers as sublayers.
    pub(crate) fn view_with_containing_layer(&self, v: usize) -> (r: Option<usize>)
        requires
            self.wf(),
            self.view_live(v as int),
        ensures
            r matches Some(w) ==> self.view_live(w as int) && self.view_flags_of(w as int)
                & crate::flags::LAYER_GROUP != 0,
            r matches Some(w) ==> is_containing_layer(*self, v as int, w as int),
            r is None ==> forall|w: int| !is_containing_layer(*self, v as int, w),
    {
        proof {
            self.lemma_chain_distinct(v as int);
        }
        let ghost a = self.anc_of(v as int);
        let mut cur: usize = v;
        let ghost mut k: int = 0;
        loop
            invariant
                self.wf(),
                self.view_live(v as int),
                a == self.anc_of(v as int),
                0 <= k <= a.len(),
                (cur as int) == if k == 0 {
                    v as int
                } else {
                    a[k - 1]
                },
                self.view_live(cur as int),
                k >= 1 ==> self.view_flags_of(v as int) & crate::flags::LAYER_GROUP == 0,
                forall|k2: int|
                    0 <= k2 < k - 1 ==> self.view_flags_of(#[trigger] a[k2])
                        & crate::flags::LAYER_GROUP == 0,
            decreases a.len() - k,
        {
            proof {
                assert(self.link_ok_at(cur as int));
                if k > 0 {
                    self.lemma_chain(v as int, k - 1);
                }
                assert(self.anc_of(cur as int) == a.skip(k)) by {
                    if k == 0 {
                        assert(a.skip(0) =~= a);
                    }
                }
            }
            if self.views[cur].flags.bits & crate::flags::LAYER_GROUP != 0 {
                proof {
                    if k > 0 {
                        assert(a[k - 1] == cur as int);
                        assert(is_containing_layer(*self, v as int, cur as int));
                    }
                }
                return Some(cur);
            }
            let sv = self.views[cur].superview;
            match sv {
                Superview::View(p) => {
                    proof {
                        assert(self.superview_of(cur as int) == Superview::View(p));
                        assert(self.view_live(p as int));
                        assert(self.anc_of(cur as int) == seq![p as int] + self.anc_of(p as int));
                        assert(a.skip(k).len() > 0);
                        assert(k < a.len());
                        assert(a.skip(k)[0] == p as int);
                        assert(a[k] == p as int);
                    }
                    cur = p;
                    proof {
                        k = k + 1;
                    }
                },
                _ => {
                    proof {
                        assert(self.anc_of(cur as int).len() == 0) by {
                            assert(self.link_ok_at(cur as int));
                        }
                        assert(k == a.len());
                        assert forall|w: int| !is_containing_layer(*self, v as int, w) by {
                            assert(self.view_flags_of(v as int) & crate::flags::LAYER_GROUP == 0)
                                by {
                                if k == 0 {
                                }
                            }
                            assert forall|k2: int| 0 <= k2 < a.len() implies self.view_flags_of(
                                #[trigger] a[k2],
                            ) & crate::flags::LAYER_GROUP == 0 by {
                                if k2 == k - 1 {
                                    assert(a[k2] == cur as int);
                                }
                            }
                        }
                    }
                    return None;
                },
            }
        }
    }
}

impl HView {
    /// Set a new layout on the view, replacing the child-management
    /// strategy.
    ///
    /// With the same subviews in the same order this is an in-place layout
    /// swap: no connectivity churn, no mount or unmount, only fresh
    /// size-trait and frame dirtiness. Otherwise the old subviews are
    /// disconnected, the new ones connected (each must be a current subview
    /// or detached, unmounted and not above this view), the subviews' dirty
    /// flags are folded upward, a pending mount walk is requested where a
    /// new subview is not mounted yet, the containing layer group is told
    /// its sublayers changed, and, when this view is mounted, every old
    /// subview left disconnected is unmounted.
    pub fn set_layout(&self, wm: Wm, tree: &mut ViewTree, layout: Layout)
        requires
            old(tree).wf(),
            old(tree).view_live(self.id as int),
            layout.wf(),
            forall|k: int|
                0 <= k < layout.subview_ids().len() ==> old(tree).view_live(
                    #[trigger] layout.subview_ids()[k] as int,
                ),
            forall|k: int|
                0 <= k < layout.subview_ids().len() ==> (old(tree).subviews_of(
                    self.id as int,
                ).contains(#[trigger] layout.subview_ids()[k]) || (old(tree).superview_of(
                    layout.subview_ids()[k] as int,
                ) is Empty && !old(tree).in_subtree(layout.subview_ids()[k] as int, self.id as int)
                    && !old(tree).view_mounted(layout.subview_ids()[k] as int))),
        ensures
            final(tree).wf(),
            final(tree).n_views() == old(tree).n_views(),
            final(tree).n_wnds() == old(tree).n_wnds(),
            final(tree).subviews_of(self.id as int) == layout.subview_ids(),
            contains_bits(
                final(tree).dirty_bits(self.id as int),
                crate::flags::SUBVIEWS_FRAME | crate::flags::SIZE_TRAITS,
            ),
            forall|x: int|
                final(tree).view_live(x) ==> mount_count(final(tree).history(), x) == mount_count(
                    old(tree).history(),
                    x,
                ),
            old(tree).history().is_prefix_of(final(tree).history()),
            old(tree).pending_events().is_prefix_of(final(tree).pending_events()),
            layout.subview_ids() == old(tree).subviews_of(self.id as int) ==> (final(tree).history()
                == old(tree).history() && final(tree).pending_events() == old(tree).pending_events() && final(tree).dirty_bits(self.id as int) == (old(tree).dirty_bits(
                self.id as int,
            ) | (crate::flags::SUBVIEWS_FRAME | crate::flags::SIZE_TRAITS)) && forall|x: int|
                final(tree).view_live(x) ==> #[trigger] final(tree).view_mounted(x) == old(tree).view_mounted(x)),
            forall|i: int|
                layout.subview_ids() == old(tree).subviews_of(self.id as int) && final(tree).view_live(i) && i != self.id as int ==> #[trigger] final(tree).dirty_bits(i)
                    == (if old(tree).anc_of(self.id as int).contains(i) {
                    old(tree).dirty_bits(i) | (crate::flags::DESCENDANT_SUBVIEWS_FRAME
                        | crate::flags::DESCENDANT_SIZE_TRAITS)
                } else {
                    old(tree).dirty_bits(i)
                }),
            forall|i: int|
                final(tree).view_live(i) ==> #[trigger] final(tree).view_flags_of(i) == old(tree).view_flags_of(i),
            forall|i: int|
                final(tree).view_live(i) && i != self.id as int ==> #[trigger] final(tree).subviews_of(i) == old(tree).subviews_of(i),
            final(tree).anc_of(self.id as int) == old(tree).anc_of(self.id as int),
            forall|x: int|
                final(tree).view_live(x) ==> #[trigger] final(tree).superview_of(x) == (if layout.subview_ids().contains(x as usize) {
                    Superview::View(self.id)
                } else if old(tree).subviews_of(self.id as int).contains(x as usize) {
                    Superview::Empty
                } else {
                    old(tree).superview_of(x)
                }),
            forall|x: int|
                final(tree).view_live(x) ==> #[trigger] unmount_count(final(tree).history(), x)
                    == unmount_count(old(tree).history(), x) + (if old(tree).view_mounted(x)
                    && !final(tree).view_mounted(x) {
                    1nat
                } else {
                    0nat
                }),
            forall|x: int|
                final(tree).view_live(x) && #[trigger] final(tree).view_mounted(x) ==> old(tree).view_mounted(x),
            forall|x: int|
                final(tree).view_live(x) && old(tree).subviews_of(self.id as int).contains(
                    x as usize,
                ) && !layout.subview_ids().contains(x as usize) ==> !(#[trigger] final(tree).view_mounted(x)),
            !old(tree).view_mounted(self.id as int) ==> final(tree).history() == old(tree).history()
                && final(tree).pending_events() == old(tree).pending_events(),
            forall|i: int|
                final(tree).view_live(i) && old(tree).anc_of(self.id as int).contains(i)
                    ==> contains_bits(
                    #[trigger] final(tree).dirty_bits(i),
                    crate::flags::DESCENDANT_SUBVIEWS_FRAME | crate::flags::DESCENDANT_SIZE_TRAITS,
                ),
            forall|k: int|
                layout.subview_ids() != old(tree).subviews_of(self.id as int) && 0 <= k
                    < layout.subview_ids().len() && !old(tree).view_mounted(
                    #[trigger] layout.subview_ids()[k] as int,
                ) ==> contains_bits(final(tree).dirty_bits(self.id as int), MOUNT),
            forall|w: int|
                layout.subview_ids() != old(tree).subviews_of(self.id as int) && final(tree).view_live(w) && is_containing_layer(*old(tree), self.id as int, w)
                    ==> contains_bits(#[trigger] final(tree).dirty_bits(w), crate::flags::SUBLAYERS),
            forall|w: int, i: int|
                #![trigger is_containing_layer(*old(tree), self.id as int, w), old(tree).anc_of(w).contains(i)]
                layout.subview_ids() != old(tree).subviews_of(self.id as int) && final(tree).view_live(i) && is_containing_layer(*old(tree), self.id as int, w) && old(tree).anc_of(
                    w,
                ).contains(i) ==> contains_bits(
                    final(tree).dirty_bits(i),
                    crate::flags::DESCENDANT_SUBLAYERS,
                ),
            forall|k: int|
                0 <= k < layout.subview_ids().len() ==> contains_bits(
                    final(tree).dirty_bits(self.id as int),
                    raise_bits(final(tree).dirty_bits(#[trigger] layout.subview_ids()[k] as int)),
                ),
    {
        let v = self.id;
        let same = tree.views[v].layout.has_same_subviews(&layout);
        let Layout { subviews: new_ids, frames: new_frames, size_traits: new_traits } = layout;
        let ghost t0 = *tree;
        if same {
            // An in-place layout swap: same subviews, new tables.
            tree.views[v].layout.frames = new_frames;
            tree.views[v].layout.size_traits = new_traits;
            proof {
                assert forall|i: int| tree.view_live(i) implies #[trigger] logic_eq_at(
                    t0,
                    *tree,
                    i,
                ) by {
                    if i != v as int {
                        assert(tree.views@[i] == t0.views@[i]);
                    } else {
                        assert(t0.subs_ok_at(v as int));
                        assert(t0.views@[v as int].layout.frames@.len() == t0.subviews_of(
                            v as int,
                        ).len());
                        assert(new_frames@.len() == new_ids@.len());
                        assert(t0.subviews_of(v as int) == new_ids@);
                    }
                }
                assert forall|i: int| tree.view_live(i) implies #[trigger] tree.layers_ok_at(
                    i,
                ) by {
                    assert(t0.layers_ok_at(i));
                    if i != v as int {
                        assert(tree.views@[i] == t0.views@[i]);
                    }
                }
                assert forall|w: int| tree.wnd_live(w) implies #[trigger] wnd_logic_eq_at(
                    t0,
                    *tree,
                    w,
                ) by {}
                assert forall|w: int| tree.wnd_live(w) implies #[trigger] tree.pend_ok_at(w) by {
                    assert(t0.pend_ok_at(w));
                    assert(t0.wnd_ok_at(w));
                    match tree.wnds@[w].content_view {
                        Some(cv) => {
                            assert(logic_eq_at(t0, *tree, cv as int));
                        },
                        None => {},
                    }
                }
                lemma_wf_from_parts(t0, *tree);
            }
            let ghost tf = *tree;
            tree.set_layout_mark_dirty(v);
            proof {
                assert(tf.dirty_bits(v as int) == t0.dirty_bits(v as int));
                assert(tf.anc_of(v as int) == t0.anc_of(v as int));
                assert forall|i: int|
                    tree.view_live(i) && i != v as int implies #[trigger] tree.dirty_bits(i) == (
                if t0.anc_of(v as int).contains(i) {
                    t0.dirty_bits(i) | (crate::flags::DESCENDANT_SUBVIEWS_FRAME
                        | crate::flags::DESCENDANT_SIZE_TRAITS)
                } else {
                    t0.dirty_bits(i)
                }) by {
                    assert(tf.dirty_bits(i) == t0.dirty_bits(i)) by {
                        if i != v as int {
                            assert(tf.views@[i] == t0.views@[i]);
                        }
                    }
                }
                assert forall|i: int| tree.view_live(i) implies #[trigger] tree.view_flags_of(i)
                    == t0.view_flags_of(i) by {
                    assert(view_eq_except_dirty(tf.views@[i], tree.views@[i]));
                    if i != v as int {
                        assert(tf.views@[i] == t0.views@[i]);
                    }
                }
                assert forall|i: int|
                    tree.view_live(i) && i != v as int implies #[trigger] tree.subviews_of(i)
                    == t0.subviews_of(i) by {
                    assert(view_eq_except_dirty(tf.views@[i], tree.views@[i]));
                    assert(tf.views@[i] == t0.views@[i]);
                }
                assert(t0.subviews_of(v as int) == new_ids@);
                assert forall|x: int|
                    tree.view_live(x) implies #[trigger] tree.superview_of(x) == (if
                new_ids@.contains(x as usize) {
                    Superview::View(self.id)
                } else if t0.subviews_of(self.id as int).contains(x as usize) {
                    Superview::Empty
                } else {
                    t0.superview_of(x)
                }) by {
                    assert(view_eq_except_dirty(tf.views@[x], tree.views@[x]));
                    assert(logic_eq_at(t0, tf, x));
                    assert(tree.superview_of(x) == t0.superview_of(x));
                    if new_ids@.contains(x as usize) {
                        let k2 = t0.subviews_of(v as int).index_of(x as usize);
                        assert(t0.subs_ok_at(v as int));
                        assert(t0.subviews_of(v as int)[k2] == x as usize);
                        assert(t0.superview_of(x) == Superview::View(v));
                    }
                }
                t0.lemma_chain_distinct(v as int);
                assert forall|i: int|
                    tree.view_live(i) && t0.anc_of(v as int).contains(i) implies contains_bits(
                    #[trigger] tree.dirty_bits(i),
                    crate::flags::DESCENDANT_SUBVIEWS_FRAME | crate::flags::DESCENDANT_SIZE_TRAITS,
                ) by {
                    assert(i != v as int);
                    assert(tree.dirty_bits(i) == t0.dirty_bits(i) | (
                    crate::flags::DESCENDANT_SUBVIEWS_FRAME
                        | crate::flags::DESCENDANT_SIZE_TRAITS));
                    crate::flags::lemma_or_contains(
                        t0.dirty_bits(i),
                        crate::flags::DESCENDANT_SUBVIEWS_FRAME
                            | crate::flags::DESCENDANT_SIZE_TRAITS,
                    );
                }
                assert forall|k2: int| 0 <= k2 < new_ids@.len() implies contains_bits(
                    tree.dirty_bits(v as int),
                    raise_bits(tree.dirty_bits(#[trigger] new_ids@[k2] as int)),
                ) by {
                    let ci = new_ids@[k2] as int;
                    assert(tree.subviews_of(v as int) == t0.subviews_of(v as int));
                    assert(tree.subviews_of(v as int)[k2] == new_ids@[k2]);
                    assert(tree.subs_ok_at(v as int));
                    assert(tree.superview_of(ci) == Superview::View(v));
                    assert(tree.prop_ok_at(ci));
                }
            }
            return ;
        }
        // Disconnect every old subview.
        let mut old_subs: Vec<usize> = Vec::new();
        while tree.views[v].layout.subviews.len() > 0
            invariant
                t0 == *old(tree),
                t0.wf(),
                tree.wf(),
                tree.view_live(v as int),
                tree.n_views() == t0.n_views(),
                tree.n_wnds() == t0.n_wnds(),
                forall|i: int|
                    0 <= i < old_subs@.len() ==> t0.subviews_of(v as int).contains(
                        #[trigger] old_subs@[i],
                    ),
                tree.hist@ == t0.hist@,
                tree.pending@ == t0.pending@,
                tree.update_requests@ == t0.update_requests@,
                forall|x: int|
                    tree.view_live(x) ==> #[trigger] tree.dirty_bits(x) == t0.dirty_bits(x)
                        && tree.view_mounted(x) == t0.view_mounted(x),
                forall|x: int|
                    tree.view_live(x) ==> #[trigger] tree.superview_of(x) == (if old_subs@.contains(
                        x as usize,
                    ) {
                        Superview::Empty
                    } else {
                        t0.superview_of(x)
                    }),
                forall|k: int|
                    0 <= k < old_subs@.len() ==> tree.view_live(#[trigger] old_subs@[k] as int),
                forall|k: int|
                    0 <= k < t0.subviews_of(v as int).len() ==> old_subs@.contains(
                        #[trigger] t0.subviews_of(v as int)[k],
                    ) || tree.subviews_of(v as int).contains(t0.subviews_of(v as int)[k]),
                tree.anc_of(v as int) == t0.anc_of(v as int),
                forall|x: int|
                    tree.view_live(x) && x != v as int ==> #[trigger] tree.subviews_of(x)
                        == t0.subviews_of(x),
                forall|x: int|
                    tree.view_live(x) ==> #[trigger] tree.layers_of(x) == t0.layers_of(x)
                        && tree.view_flags_of(x) == t0.view_flags_of(x),
            decreases tree.subviews_of(v as int).len(),
        {
            let ghost tprev = *tree;
            let ghost osb = old_subs@;
            let c = tree.pop_subview(v);
            old_subs.push(c);
            proof {
                assert(old_subs@ == osb.push(c));
                assert(tree.subviews_of(v as int) == tprev.subviews_of(v as int).drop_last());
                assert(c == tprev.subviews_of(v as int).last());
                assert(tprev.subs_ok_at(v as int));
                assert(tprev.subviews_of(v as int)[tprev.subviews_of(v as int).len() - 1] == c);
                assert(tprev.superview_of(c as int) == Superview::View(v));
                assert(!osb.contains(c)) by {
                    if osb.contains(c) {
                        assert(tprev.superview_of(c as int) is Empty);
                    }
                }
                assert(t0.subviews_of(v as int).contains(c)) by {
                    assert(tprev.superview_of(c as int) == t0.superview_of(c as int));
                    assert(t0.superview_of(c as int) == Superview::View(v));
                    assert(t0.rev_ok_at(c as int));
                }
                assert forall|i: int| 0 <= i < old_subs@.len() implies t0.subviews_of(
                    v as int,
                ).contains(#[trigger] old_subs@[i]) by {
                    if i < old_subs@.len() - 1 {
                        assert(osb[i] == old_subs@[i]);
                    } else {
                        assert(old_subs@[i] == c);
                    }
                }
                assert forall|x: int|
                    tree.view_live(x) implies #[trigger] tree.superview_of(x) == (if
                old_subs@.contains(x as usize) {
                    Superview::Empty
                } else {
                    t0.superview_of(x)
                }) by {
                    if x == c as int {
                        assert(old_subs@.last() == c);
                        assert(old_subs@.contains(c));
                    } else {
                        assert(tree.superview_of(x) == tprev.superview_of(x)) by {
                            if x != v as int {
                                assert(tree.views@[x] == tprev.views@[x]);
                            }
                        }
                        assert(old_subs@.contains(x as usize) == osb.contains(x as usize)) by {
                            if osb.contains(x as usize) {
                                let j2 = choose|j2: int|
                                    0 <= j2 < osb.len() && #[trigger] osb[j2] == x as usize;
                                assert(old_subs@[j2] == x as usize);
                            }
                            if old_subs@.contains(x as usize) {
                                let j2 = choose|j2: int|
                                    0 <= j2 < old_subs@.len() && #[trigger] old_subs@[j2]
                                        == x as usize;
                                assert(j2 < osb.len());
                                assert(osb[j2] == x as usize);
                            }
                        }
                    }
                }
                assert forall|i: int|
                    0 <= i < old_subs@.len() implies tree.view_live(
                    #[trigger] old_subs@[i] as int,
                ) by {
                    if i < old_subs@.len() - 1 {
                        assert(osb[i] == old_subs@[i]);
                    } else {
                        assert(old_subs@[i] == c);
                    }
                }
                assert forall|k2: int|
                    0 <= k2 < t0.subviews_of(v as int).len() implies old_subs@.contains(
                    #[trigger] t0.subviews_of(v as int)[k2],
                ) || tree.subviews_of(v as int).contains(t0.subviews_of(v as int)[k2]) by {
                    let e = t0.subviews_of(v as int)[k2];
                    if osb.contains(e) {
                        let j2 = choose|j2: int| 0 <= j2 < osb.len() && #[trigger] osb[j2] == e;
                        assert(old_subs@[j2] == e);
                        assert(old_subs@.contains(e));
                    } else if tprev.subviews_of(v as int).contains(e) {
                        let j3 = tprev.subviews_of(v as int).index_of(e);
                        if j3 < tprev.subviews_of(v as int).len() - 1 {
                            assert(tree.subviews_of(v as int)[j3] == e);
                            assert(tree.subviews_of(v as int).contains(e));
                        } else {
                            assert(e == c);
                            assert(old_subs@.last() == c);
                            assert(old_subs@.contains(e));
                        }
                    }
                }
                assert forall|x: int|
                    tree.view_live(x) && x != v as int implies #[trigger] tree.subviews_of(x)
                    == t0.subviews_of(x) by {
                    if x != c as int {
                        assert(tree.views@[x] == tprev.views@[x]);
                    } else {
                        assert(tree.views@[c as int].layout.subviews@ == tprev.views@[
                            c as int].layout.subviews@);
                    }
                    assert(tprev.subviews_of(x) == t0.subviews_of(x));
                }
                assert forall|x: int|
                    tree.view_live(x) implies #[trigger] tree.layers_of(x) == t0.layers_of(x)
                    && tree.view_flags_of(x) == t0.view_flags_of(x) by {
                    if x != c as int && x != v as int {
                        assert(tree.views@[x] == tprev.views@[x]);
                    } else {
                        assert(tree.layers_of(x) == tprev.layers_of(x));
                        assert(tree.view_flags_of(x) == tprev.view_flags_of(x));
                    }
                    assert(tprev.layers_of(x) == t0.layers_of(x) && tprev.view_flags_of(x)
                        == t0.view_flags_of(x));
                }
            }
        }
        // Connect the new subviews, folding their dirtiness into this view.
        let n_new = new_ids.len();
        let mut k: usize = 0;
        while k < n_new
            invariant
                t0 == *old(tree),
                t0.wf(),
                tree.wf(),
                tree.view_live(v as int),
                tree.n_views() == t0.n_views(),
                tree.n_wnds() == t0.n_wnds(),
                forall|i: int|
                    0 <= i < old_subs@.len() ==> t0.subviews_of(v as int).contains(
                        #[trigger] old_subs@[i],
                    ),
                0 <= k <= n_new,
                n_new == new_ids@.len(),
                new_ids@.no_duplicates(),
                new_frames@.len() == new_ids@.len(),
                forall|j: int|
                    0 <= j < n_new ==> t0.view_live(#[trigger] new_ids@[j] as int) && (
                    t0.subviews_of(v as int).contains(new_ids@[j]) || (t0.superview_of(
                        new_ids@[j] as int,
                    ) is Empty && !t0.in_subtree(new_ids@[j] as int, v as int)
                        && !t0.view_mounted(new_ids@[j] as int))),
                tree.subviews_of(v as int) =~= new_ids@.subrange(0, k as int),
                tree.hist@ == t0.hist@,
                tree.pending@ == t0.pending@,
                t0.update_requests@.is_prefix_of(tree.update_requests@),
                forall|x: int|
                    tree.view_live(x) ==> #[trigger] tree.view_mounted(x) == t0.view_mounted(x),
                relink_done(t0, *tree, v, old_subs@, new_ids@.subrange(0, k as int)),
                forall|k2: int|
                    0 <= k2 < t0.subviews_of(v as int).len() ==> old_subs@.contains(
                        #[trigger] t0.subviews_of(v as int)[k2],
                    ),
                forall|j: int|
                    0 <= j < old_subs@.len() ==> tree.view_live(#[trigger] old_subs@[j] as int),
                forall|j2: int|
                    0 <= j2 < k && !t0.view_mounted(#[trigger] new_ids@[j2] as int)
                        ==> contains_bits(tree.dirty_bits(v as int), MOUNT),
                tree.anc_of(v as int) == t0.anc_of(v as int),
                forall|x: int|
                    tree.view_live(x) ==> #[trigger] tree.layers_of(x) == t0.layers_of(x)
                        && tree.view_flags_of(x) == t0.view_flags_of(x),
                forall|x: int|
                    tree.view_live(x) && x != v as int ==> #[trigger] tree.subviews_of(x)
                        == t0.subviews_of(x),
            decreases n_new - k,
        {
            let c = new_ids[k];
            proof {
                assert(new_ids@[k as int] == c);
                assert(tree.view_live(c as int));
                assert(!tree.subviews_of(v as int).contains(c)) by {
                    if tree.subviews_of(v as int).contains(c) {
                        let j = choose|j: int|
                            0 <= j < k && #[trigger] new_ids@.subrange(0, k as int)[j]
                                == c;
                        assert(new_ids@[j] == c);
                        assert(new_ids@[j] == new_ids@[k as int]);
                    }
                }
                assert(tree.superview_of(c as int) is Empty) by {
                    assert(!new_ids@.subrange(0, k as int).contains(c)) by {
                        if new_ids@.subrange(0, k as int).contains(c) {
                            let j = choose|j: int|
                                0 <= j < k && #[trigger] new_ids@.subrange(0, k as int)[j] == c;
                            assert(new_ids@[j] == new_ids@[k as int]);
                        }
                    }
                    if !old_subs@.contains(c) {
                        assert(tree.superview_of(c as int) == t0.superview_of(c as int));
                        if t0.subviews_of(v as int).contains(c) {
                            let j = t0.subviews_of(v as int).index_of(c);
                            assert(old_subs@.contains(t0.subviews_of(v as int)[j]));
                        }
                    }
                }
                assert(!tree.in_subtree(c as int, v as int)) by {
                    assert(tree.anc_of(v as int) == t0.anc_of(v as int));
                    if t0.subviews_of(v as int).contains(c) {
                        assert(t0.subs_ok_at(v as int));
                        let j = t0.subviews_of(v as int).index_of(c);
                        assert(t0.subviews_of(v as int)[j] == c);
                        assert(t0.superview_of(c as int) == Superview::View(v));
                        t0.lemma_child_below(v as int, c as int);
                    }
                }
                assert(!tree.view_mounted(c as int) || (tree.view_mounted(v as int) && last_mount(
                    tree.history(),
                    v as int,
                ) < last_mount(tree.history(), c as int))) by {
                    if tree.view_mounted(c as int) {
                        assert(t0.view_mounted(c as int));
                        assert(t0.subviews_of(v as int).contains(c));
                        assert(t0.subs_ok_at(v as int));
                        let j = t0.subviews_of(v as int).index_of(c);
                        assert(t0.subviews_of(v as int)[j] == c);
                        assert(t0.superview_of(c as int) == Superview::View(v));
                        assert(t0.mounted_chain_at(c as int));
                        assert(t0.order_ok_at(c as int));
                        assert(t0.parent_of(c as int) == v as int);
                        assert(t0.view_mounted(v as int));
                    }
                }
            }
            let fr = new_frames[k];
            let ghost ap = *tree;
            tree.attach_subview(v, c, fr);
            k = k + 1;
            proof {
                assert(tree.subviews_of(v as int) =~= new_ids@.subrange(0, k as int));
                assert forall|x: int|
                    tree.view_live(x) implies #[trigger] tree.layers_of(x) == t0.layers_of(x)
                    && tree.view_flags_of(x) == t0.view_flags_of(x) by {
                    assert(tree.layers_of(x) == ap.layers_of(x) && tree.view_flags_of(x)
                        == ap.view_flags_of(x)) by {
                        if x != v as int && x != c as int {
                        }
                    }
                }
                assert forall|x: int|
                    tree.view_live(x) && x != v as int implies #[trigger] tree.subviews_of(x)
                    == t0.subviews_of(x) by {
                    assert(tree.subviews_of(x) == ap.subviews_of(x)) by {
                        if x != c as int {
                        }
                    }
                }
                assert forall|x: int|
                    tree.view_live(x) implies #[trigger] tree.superview_of(x) == (if
                new_ids@.subrange(0, k as int).contains(x as usize) {
                    Superview::View(v)
                } else if old_subs@.contains(x as usize) {
                    Superview::Empty
                } else {
                    t0.superview_of(x)
                }) by {
                    if x == c as int {
                        assert(new_ids@.subrange(0, k as int)[k - 1] == c);
                        assert(new_ids@.subrange(0, k as int).contains(c));
                    } else {
                        assert(tree.superview_of(x) == ap.superview_of(x));
                        assert(new_ids@.subrange(0, k as int).contains(x as usize)
                            == new_ids@.subrange(0, k - 1).contains(x as usize)) by {
                            if new_ids@.subrange(0, k - 1).contains(x as usize) {
                                let j2 = choose|j2: int|
                                    0 <= j2 < k - 1 && #[trigger] new_ids@.subrange(0, k - 1)[j2]
                                        == x as usize;
                                assert(new_ids@.subrange(0, k as int)[j2] == x as usize);
                            }
                            if new_ids@.subrange(0, k as int).contains(x as usize) {
                                let j2 = choose|j2: int|
                                    0 <= j2 < k && #[trigger] new_ids@.subrange(0, k as int)[j2]
                                        == x as usize;
                                assert(j2 != k - 1);
                                assert(new_ids@.subrange(0, k - 1)[j2] == x as usize);
                            }
                        }
                    }
                }
                assert forall|j2: int|
                    0 <= j2 < old_subs@.len() implies tree.view_live(
                    #[trigger] old_subs@[j2] as int,
                ) by {}
                assert forall|j2: int|
                    0 <= j2 < k && !t0.view_mounted(#[trigger] new_ids@[j2] as int)
                    implies contains_bits(tree.dirty_bits(v as int), MOUNT) by {
                    if j2 < k - 1 {
                        assert(contains_bits(ap.dirty_bits(v as int), MOUNT));
                        crate::flags::lemma_contains_trans(
                            tree.dirty_bits(v as int),
                            ap.dirty_bits(v as int),
                            MOUNT,
                        );
                    } else {
                        assert(new_ids@[j2] == c);
                        assert(!ap.view_mounted(c as int));
                    }
                }
            }
        }
        proof {
            assert(tree.subviews_of(v as int) =~= new_ids@);
            assert(relink_done(t0, *tree, v, old_subs@, new_ids@)) by {
                assert(new_ids@.subrange(0, n_new as int) == new_ids@);
            }
            assert(mounted_eq(t0, *tree));
            assert(flags_subs_preserved(t0, *tree, v as int)) by {
                assert forall|x: int| tree.view_live(x) implies #[trigger] tree.view_flags_of(x)
                    == t0.view_flags_of(x) by {
                    assert(tree.layers_of(x) == t0.layers_of(x) && tree.view_flags_of(x)
                        == t0.view_flags_of(x));
                }
            }
        }
        // Install the strategy's own size traits.
        let ghost t_mid = *tree;
        tree.views[v].layout.size_traits = new_traits;
        proof {
            assert forall|i: int| tree.view_live(i) implies #[trigger] logic_eq_at(
                t_mid,
                *tree,
                i,
            ) by {
                if i != v as int {
                    assert(tree.views@[i] == t_mid.views@[i]);
                }
            }
            assert forall|i: int| tree.view_live(i) implies #[trigger] tree.layers_ok_at(i) by {
                assert(t_mid.layers_ok_at(i));
                if i != v as int {
                    assert(tree.views@[i] == t_mid.views@[i]);
                }
            }
            assert forall|w: int| tree.wnd_live(w) implies #[trigger] wnd_logic_eq_at(
                t_mid,
                *tree,
                w,
            ) by {}
            assert forall|w: int| tree.wnd_live(w) implies #[trigger] tree.pend_ok_at(w) by {
                assert(t_mid.pend_ok_at(w));
                assert(t_mid.wnd_ok_at(w));
                match tree.wnds@[w].content_view {
                    Some(cv) => {
                        assert(logic_eq_at(t_mid, *tree, cv as int));
                    },
                    None => {},
                }
            }
            lemma_wf_from_parts(t_mid, *tree);
            assert forall|x: int| tree.view_live(x) implies #[trigger] tree.view_flags_of(x)
                == t_mid.view_flags_of(x) by {
                if x != v as int {
                    assert(tree.views@[x] == t_mid.views@[x]);
                }
            }
            assert forall|x: int|
                tree.view_live(x) && x != v as int implies #[trigger] tree.subviews_of(x)
                == t_mid.subviews_of(x) by {
                assert(tree.views@[x] == t_mid.views@[x]);
            }
            lemma_flags_subs_chain(t0, t_mid, *tree, v as int);
            assert forall|x: int| tree.view_live(x) implies #[trigger] tree.superview_of(x)
                == t_mid.superview_of(x) by {
                if x != v as int {
                    assert(tree.views@[x] == t_mid.views@[x]);
                }
            }
            assert(relink_done(t0, t_mid, v, old_subs@, new_ids@));
            lemma_relink_chain(t0, t_mid, *tree, v, old_subs@, new_ids@);
            assert forall|x: int| tree.view_live(x) implies #[trigger] tree.view_mounted(x)
                == t_mid.view_mounted(x) by {
                if x != v as int {
                    assert(tree.views@[x] == t_mid.views@[x]);
                } else {
                    assert(tree.dirty_bits(x) == t_mid.dirty_bits(x));
                }
            }
            assert(mounted_eq(t0, t_mid));
            lemma_mounted_eq_chain(t0, t_mid, *tree);
            assert(tree.dirty_bits(v as int) == t_mid.dirty_bits(v as int));
            assert forall|j2: int|
                0 <= j2 < new_ids@.len() && !t0.view_mounted(#[trigger] new_ids@[j2] as int)
                implies contains_bits(tree.dirty_bits(v as int), MOUNT) by {}
            assert(tree.anc_of(v as int) == t_mid.anc_of(v as int));
            assert(tree.anc_of(v as int) == t0.anc_of(v as int));
            assert(tree.history() == t0.history());
            assert(tree.pending_events() == t0.pending_events());
        }
        let ghost t_b = *tree;
        // The containing layer group's sublayer set changed.
        let vwcl = tree.view_with_containing_layer(v);
        match vwcl {
            Some(wcl) => {
                tree.set_layout_mark_sublayers(wcl);
            },
            None => {},
        }
        proof {
            assert forall|x: int| tree.view_live(x) implies #[trigger] tree.view_flags_of(x)
                == t_b.view_flags_of(x) by {
                assert(view_eq_except_dirty(t_b.views@[x], tree.views@[x]) || tree.views@[x]
                    == t_b.views@[x]);
            }
            assert forall|x: int|
                tree.view_live(x) && x != v as int implies #[trigger] tree.subviews_of(x)
                == t_b.subviews_of(x) by {
                assert(view_eq_except_dirty(t_b.views@[x], tree.views@[x]) || tree.views@[x]
                    == t_b.views@[x]);
            }
            lemma_flags_subs_chain(t0, t_b, *tree, v as int);
            assert forall|x: int| tree.view_live(x) implies #[trigger] tree.superview_of(x)
                == t_b.superview_of(x) by {
                assert(view_eq_except_dirty(t_b.views@[x], tree.views@[x]) || tree.views@[x]
                    == t_b.views@[x]);
            }
            lemma_relink_chain(t0, t_b, *tree, v, old_subs@, new_ids@);
            assert forall|x: int| tree.view_live(x) implies #[trigger] tree.view_mounted(x)
                == t_b.view_mounted(x) by {}
            lemma_mounted_eq_chain(t0, t_b, *tree);
            assert(contains_bits(tree.dirty_bits(v as int), t_b.dirty_bits(v as int))) by {
                crate::flags::lemma_or_contains(t_b.dirty_bits(v as int), 0);
                crate::flags::lemma_or_zero(t_b.dirty_bits(v as int));
            }
            assert forall|j2: int|
                0 <= j2 < new_ids@.len() && !t0.view_mounted(#[trigger] new_ids@[j2] as int)
                implies contains_bits(tree.dirty_bits(v as int), MOUNT) by {
                crate::flags::lemma_contains_trans(
                    tree.dirty_bits(v as int),
                    t_b.dirty_bits(v as int),
                    MOUNT,
                );
            }
            assert(tree.anc_of(v as int) == t0.anc_of(v as int));
            assert(tree.history() == t0.history());
            assert(tree.pending_events() == t0.pending_events());
            assert forall|w: int|
                tree.view_live(w) && is_containing_layer(t0, v as int, w) implies contains_bits(
                #[trigger] tree.dirty_bits(w),
                crate::flags::SUBLAYERS,
            ) by {
                let lg = crate::flags::LAYER_GROUP;
                assert(t_b.view_flags_of(v as int) == t0.view_flags_of(v as int));
                assert(t_b.anc_of(v as int) == t0.anc_of(v as int));
                let a = t0.anc_of(v as int);
                assert forall|k2: int| 0 <= k2 < a.len() implies t_b.view_flags_of(
                    #[trigger] a[k2],
                ) == t0.view_flags_of(a[k2]) && t_b.view_live(a[k2]) by {
                    t0.lemma_chain(v as int, k2);
                }
                assert(is_containing_layer(t_b, v as int, w)) by {
                    if t0.view_flags_of(v as int) & lg != 0 {
                    } else {
                        let k1 = choose|k1: int|
                            0 <= k1 < a.len() && #[trigger] a[k1] == w && t0.view_flags_of(w) & lg
                                != 0 && (forall|k2: int|
                                0 <= k2 < k1 ==> t0.view_flags_of(#[trigger] a[k2]) & lg == 0);
                        assert(a[k1] == w);
                        assert(t_b.view_flags_of(w) & lg != 0);
                        assert(forall|k2: int|
                            0 <= k2 < k1 ==> t_b.view_flags_of(#[trigger] a[k2]) & lg == 0);
                    }
                }
                match vwcl {
                    Some(wcl) => {
                        assert(is_containing_layer(t_b, v as int, wcl as int));
                        assert(w == wcl as int) by {
                            if t_b.view_flags_of(v as int) & lg != 0 {
                            } else {
                                let k1 = choose|k1: int|
                                    0 <= k1 < a.len() && #[trigger] a[k1] == w
                                        && t_b.view_flags_of(w) & lg != 0 && (forall|k2: int|
                                        0 <= k2 < k1 ==> t_b.view_flags_of(#[trigger] a[k2]) & lg
                                            == 0);
                                let k3 = choose|k3: int|
                                    0 <= k3 < a.len() && #[trigger] a[k3] == wcl as int
                                        && t_b.view_flags_of(wcl as int) & lg != 0 && (forall|
                                        k2: int,
                                    |
                                        0 <= k2 < k3 ==> t_b.view_flags_of(#[trigger] a[k2]) & lg
                                            == 0);
                                if k1 < k3 {
                                    assert(t_b.view_flags_of(a[k1]) & lg == 0);
                                } else if k3 < k1 {
                                    assert(t_b.view_flags_of(a[k3]) & lg == 0);
                                }
                            }
                        }
                        assert(contains_bits(tree.dirty_bits(w), crate::flags::SUBLAYERS));
                    },
                    None => {
                        assert(!is_containing_layer(t_b, v as int, w));
                    },
                }
            }
            assert forall|w2: int, i: int|
                #![trigger is_containing_layer(t0, v as int, w2), t0.anc_of(w2).contains(i)]
                tree.view_live(i) && is_containing_layer(t0, v as int, w2) && t0.anc_of(
                    w2,
                ).contains(i) implies contains_bits(tree.dirty_bits(i), DESCENDANT_SUBLAYERS) by {
                let lg = crate::flags::LAYER_GROUP;
                assert(t_b.view_flags_of(v as int) == t0.view_flags_of(v as int));
                assert(t_b.anc_of(v as int) == t0.anc_of(v as int));
                let a = t0.anc_of(v as int);
                assert forall|k2: int| 0 <= k2 < a.len() implies t_b.view_flags_of(
                    #[trigger] a[k2],
                ) == t0.view_flags_of(a[k2]) && t_b.view_live(a[k2]) by {
                    t0.lemma_chain(v as int, k2);
                }
                assert(is_containing_layer(t_b, v as int, w2)) by {
                    if t0.view_flags_of(v as int) & lg != 0 {
                    } else {
                        let k1 = choose|k1: int|
                            0 <= k1 < a.len() && #[trigger] a[k1] == w2 && t0.view_flags_of(w2)
                                & lg != 0 && (forall|k2: int|
                                0 <= k2 < k1 ==> t0.view_flags_of(#[trigger] a[k2]) & lg == 0);
                        assert(a[k1] == w2);
                        assert(t_b.view_flags_of(w2) & lg != 0);
                        assert(forall|k2: int|
                            0 <= k2 < k1 ==> t_b.view_flags_of(#[trigger] a[k2]) & lg == 0);
                    }
                }
                match vwcl {
                    Some(wcl) => {
                        assert(is_containing_layer(t_b, v as int, wcl as int));
                        assert(w2 == wcl as int) by {
                            if t_b.view_flags_of(v as int) & lg != 0 {
                            } else {
                                let k1 = choose|k1: int|
                                    0 <= k1 < a.len() && #[trigger] a[k1] == w2
                                        && t_b.view_flags_of(w2) & lg != 0 && (forall|k2: int|
                                        0 <= k2 < k1 ==> t_b.view_flags_of(#[trigger] a[k2]) & lg
                                            == 0);
                                let k3 = choose|k3: int|
                                    0 <= k3 < a.len() && #[trigger] a[k3] == wcl as int
                                        && t_b.view_flags_of(wcl as int) & lg != 0 && (forall|
                                        k2: int,
                                    |
                                        0 <= k2 < k3 ==> t_b.view_flags_of(#[trigger] a[k2]) & lg
                                            == 0);
                                if k1 < k3 {
                                    assert(t_b.view_flags_of(a[k1]) & lg == 0);
                                } else if k3 < k1 {
                                    assert(t_b.view_flags_of(a[k3]) & lg == 0);
                                }
                            }
                        }
                        assert(t_b.anc_of(wcl as int) == t0.anc_of(wcl as int)) by {
                            if wcl as int != v as int {
                                let k1 = choose|k1: int|
                                    0 <= k1 < a.len() && #[trigger] a[k1] == wcl as int;
                                t0.lemma_chain(v as int, k1);
                                t_b.lemma_chain(v as int, k1);
                                assert(t0.anc_of(wcl as int) == a.skip(k1 + 1));
                                assert(t_b.anc_of(wcl as int) == t_b.anc_of(v as int).skip(
                                    k1 + 1,
                                ));
                            }
                        }
                        assert(t_b.anc_of(wcl as int).contains(i));
                        assert(contains_bits(tree.dirty_bits(i), DESCENDANT_SUBLAYERS));
                    },
                    None => {
                        assert(!is_containing_layer(t_b, v as int, w2));
                    },
                }
            }
        }
        let ghost t_c = *tree;
        // Fresh frame and size-trait dirtiness, propagated.
        tree.set_layout_mark_dirty(v);
        proof {
            assert forall|x: int| tree.view_live(x) implies #[trigger] tree.view_flags_of(x)
                == t_c.view_flags_of(x) by {
                assert(view_eq_except_dirty(t_c.views@[x], tree.views@[x]));
            }
            assert forall|x: int|
                tree.view_live(x) && x != v as int implies #[trigger] tree.subviews_of(x)
                == t_c.subviews_of(x) by {
                assert(view_eq_except_dirty(t_c.views@[x], tree.views@[x]));
            }
            lemma_flags_subs_chain(t0, t_c, *tree, v as int);
            assert forall|x: int| tree.view_live(x) implies #[trigger] tree.superview_of(x)
                == t_c.superview_of(x) by {
                assert(view_eq_except_dirty(t_c.views@[x], tree.views@[x]));
            }
            lemma_relink_chain(t0, t_c, *tree, v, old_subs@, new_ids@);
            assert forall|x: int| tree.view_live(x) implies #[trigger] tree.view_mounted(x)
                == t_c.view_mounted(x) by {}
            lemma_mounted_eq_chain(t0, t_c, *tree);
            let dd = crate::flags::DESCENDANT_SUBVIEWS_FRAME | crate::flags::DESCENDANT_SIZE_TRAITS;
            assert(tree.anc_of(v as int) == t0.anc_of(v as int));
            t0.lemma_chain_distinct(v as int);
            assert forall|i: int|
                tree.view_live(i) && t0.anc_of(v as int).contains(i) implies contains_bits(
                #[trigger] tree.dirty_bits(i),
                dd,
            ) by {
                assert(i != v as int);
                assert(t_c.anc_of(v as int).contains(i));
                assert(tree.dirty_bits(i) == t_c.dirty_bits(i) | dd);
                crate::flags::lemma_or_contains(t_c.dirty_bits(i), dd);
            }
            assert(tree.dirty_bits(v as int) == t_c.dirty_bits(v as int) | (
            crate::flags::SUBVIEWS_FRAME | crate::flags::SIZE_TRAITS));
            assert forall|j2: int|
                0 <= j2 < new_ids@.len() && !t0.view_mounted(#[trigger] new_ids@[j2] as int)
                implies contains_bits(tree.dirty_bits(v as int), MOUNT) by {
                crate::flags::lemma_contains_or_mono(
                    t_c.dirty_bits(v as int),
                    crate::flags::SUBVIEWS_FRAME | crate::flags::SIZE_TRAITS,
                    MOUNT,
                );
            }
            assert forall|w: int|
                tree.view_live(w) && is_containing_layer(t0, v as int, w) implies contains_bits(
                #[trigger] tree.dirty_bits(w),
                crate::flags::SUBLAYERS,
            ) by {
                assert(contains_bits(t_c.dirty_bits(w), crate::flags::SUBLAYERS));
                if w == v as int {
                    crate::flags::lemma_contains_or_mono(
                        t_c.dirty_bits(w),
                        crate::flags::SUBVIEWS_FRAME | crate::flags::SIZE_TRAITS,
                        crate::flags::SUBLAYERS,
                    );
                } else if t_c.anc_of(v as int).contains(w) {
                    assert(tree.dirty_bits(w) == t_c.dirty_bits(w) | dd);
                    crate::flags::lemma_contains_or_mono(
                        t_c.dirty_bits(w),
                        dd,
                        crate::flags::SUBLAYERS,
                    );
                } else {
                    assert(tree.dirty_bits(w) == t_c.dirty_bits(w));
                }
            }
            assert forall|w2: int, i: int|
                #![trigger is_containing_layer(t0, v as int, w2), t0.anc_of(w2).contains(i)]
                tree.view_live(i) && is_containing_layer(t0, v as int, w2) && t0.anc_of(
                    w2,
                ).contains(i) implies contains_bits(tree.dirty_bits(i), DESCENDANT_SUBLAYERS) by {
                assert(contains_bits(t_c.dirty_bits(i), DESCENDANT_SUBLAYERS));
                if i == v as int {
                    crate::flags::lemma_contains_or_mono(
                        t_c.dirty_bits(i),
                        crate::flags::SUBVIEWS_FRAME | crate::flags::SIZE_TRAITS,
                        DESCENDANT_SUBLAYERS,
                    );
                } else if t_c.anc_of(v as int).contains(i) {
                    assert(tree.dirty_bits(i) == t_c.dirty_bits(i) | dd);
                    crate::flags::lemma_contains_or_mono(
                        t_c.dirty_bits(i),
                        dd,
                        DESCENDANT_SUBLAYERS,
                    );
                } else {
                    assert(tree.dirty_bits(i) == t_c.dirty_bits(i));
                }
            }
        }
        // Unmount every old subview left disconnected, when this view is
        // part of a window's tree.
        let mounted_here = tree.views[v].dirty.contains(MOUNTED);
        proof {
            assert(tree.history() == t0.history());
            assert(tree.pending_events() == t0.pending_events());
            assert(tree.subviews_of(v as int) == new_ids@);
            assert(flags_subs_preserved(t0, *tree, v as int));
            assert(relink_done(t0, *tree, v, old_subs@, new_ids@));
            assert(mounted_eq(t0, *tree));
            assert(mounted_here == tree.view_mounted(v as int));
            assert(tree.view_mounted(v as int) == t0.view_mounted(v as int));
            assert(mounted_here == t0.view_mounted(v as int));
        }
        if mounted_here {
            let n_old = old_subs.len();
            let mut j: usize = 0;
            while j < n_old
                invariant
                    t0.wf(),
                    tree.wf(),
                    v == self.id,
                    tree.view_live(v as int),
                    t0.view_live(v as int),
                    0 <= j <= n_old,
                    n_old == old_subs@.len(),
                    forall|i: int|
                        0 <= i < old_subs@.len() ==> t0.subviews_of(v as int).contains(
                            #[trigger] old_subs@[i],
                        ) && tree.view_live(old_subs@[i] as int),
                    tree.anc_of(v as int) == t0.anc_of(v as int),
                    flags_subs_preserved(t0, *tree, v as int),
                    relink_done(t0, *tree, v, old_subs@, new_ids@),
                    forall|k2: int|
                        0 <= k2 < t0.subviews_of(v as int).len() ==> old_subs@.contains(
                            #[trigger] t0.subviews_of(v as int)[k2],
                        ),
                    forall|x: int|
                        tree.view_live(x) ==> #[trigger] unmount_count(tree.history(), x)
                            == unmount_count(t0.history(), x) + (if t0.view_mounted(x)
                            && !tree.view_mounted(x) {
                            1nat
                        } else {
                            0nat
                        }),
                    forall|x: int|
                        tree.view_live(x) && #[trigger] tree.view_mounted(x) ==> t0.view_mounted(
                            x,
                        ),
                    forall|i: int|
                        0 <= i < j && !new_ids@.contains(#[trigger] old_subs@[i])
                            ==> !tree.view_mounted(old_subs@[i] as int),
                    forall|i: int|
                        tree.view_live(i) && t0.anc_of(v as int).contains(i) ==> contains_bits(
                            #[trigger] tree.dirty_bits(i),
                            crate::flags::DESCENDANT_SUBVIEWS_FRAME
                                | crate::flags::DESCENDANT_SIZE_TRAITS,
                        ),
                    forall|j2: int|
                        0 <= j2 < new_ids@.len() && !t0.view_mounted(#[trigger] new_ids@[j2] as int)
                            ==> contains_bits(tree.dirty_bits(v as int), MOUNT),
                    forall|w: int|
                        tree.view_live(w) && is_containing_layer(t0, v as int, w)
                            ==> contains_bits(
                            #[trigger] tree.dirty_bits(w),
                            crate::flags::SUBLAYERS,
                        ),
                    forall|w2: int, i: int|
                        #![trigger is_containing_layer(t0, v as int, w2), t0.anc_of(w2).contains(i)]
                        tree.view_live(i) && is_containing_layer(t0, v as int, w2) && t0.anc_of(
                            w2,
                        ).contains(i) ==> contains_bits(
                            tree.dirty_bits(i),
                            DESCENDANT_SUBLAYERS,
                        ),
                    forall|x: int|
                        tree.view_live(x) ==> #[trigger] mount_count(tree.history(), x)
                            == mount_count(t0.history(), x),
                    t0.history().is_prefix_of(tree.history()),
                    t0.pending_events().is_prefix_of(tree.pending_events()),
                    tree.n_views() == t0.n_views(),
                    tree.n_wnds() == t0.n_wnds(),
                    tree.subviews_of(v as int) == new_ids@,
                    contains_bits(
                        tree.dirty_bits(v as int),
                        crate::flags::SUBVIEWS_FRAME | crate::flags::SIZE_TRAITS,
                    ),
                decreases n_old - j,
            {
                let s = old_subs[j];
                let sv2 = tree.views[s].superview;
                let still_detached = match sv2 {
                    Superview::Empty => true,
                    _ => false,
                };
                if still_detached {
                    let ghost tprev = *tree;
                    proof {
                        assert forall|x: int|
                            tree.view_live(x) && tree.in_subtree(s as int, x) && x != s
                                implies #[trigger] tree.mounted_chain_at(x) by {}
                        assert(tree.parent_of(s as int) == -1);
                        // the detached subtree does not hold this view
                        assert(t0.subviews_of(v as int).contains(old_subs@[j as int]));
                        assert(t0.subs_ok_at(v as int));
                        let jj = t0.subviews_of(v as int).index_of(s);
                        assert(t0.subviews_of(v as int)[jj] == s);
                        assert(t0.superview_of(s as int) == Superview::View(v));
                        t0.lemma_child_below(v as int, s as int);
                        assert(!tprev.in_subtree(s as int, v as int)) by {
                            assert(tprev.anc_of(v as int) == t0.anc_of(v as int));
                        }
                    }
                    tree.call_unmount(wm, s);
                    proof {
                        assert forall|x: int|
                            tree.view_live(x) && tprev.in_subtree(s as int, x) implies !(
                        #[trigger] tree.view_mounted(x)) && view_eq_except_dirty_layers(
                            tprev.views@[x],
                            tree.views@[x],
                        ) by {
                            assert(tree.dirty_bits(x) == tprev.dirty_bits(x) & !MOUNTED);
                        }
                        tree.lemma_restore_chain(tprev, s);
                        assert forall|x: int|
                            tree.view_live(x) implies #[trigger] mount_count(tree.history(), x)
                            == mount_count(t0.history(), x) by {
                            assert(unmount_effect_at(tprev, *tree, s as int, x));
                        }
                        assert(tree.views@[v as int] == tprev.views@[v as int]);
                        assert(tree.anc_of(v as int) == tprev.anc_of(v as int));
                        assert forall|x: int|
                            tree.view_live(x) implies #[trigger] tree.view_flags_of(x)
                            == tprev.view_flags_of(x) by {
                            if tprev.in_subtree(s as int, x) {
                                assert(tree.dirty_bits(x) == tprev.dirty_bits(x) & !MOUNTED);
                                assert(view_eq_except_dirty_layers(
                                    tprev.views@[x],
                                    tree.views@[x],
                                ));
                            } else {
                                assert(tree.views@[x] == tprev.views@[x]);
                            }
                        }
                        assert forall|x: int|
                            tree.view_live(x) && x != v as int implies #[trigger] tree.subviews_of(
                            x,
                        ) == tprev.subviews_of(x) by {
                            if tprev.in_subtree(s as int, x) {
                                assert(tree.dirty_bits(x) == tprev.dirty_bits(x) & !MOUNTED);
                                assert(view_eq_except_dirty_layers(
                                    tprev.views@[x],
                                    tree.views@[x],
                                ));
                            } else {
                                assert(tree.views@[x] == tprev.views@[x]);
                            }
                        }
                        lemma_flags_subs_chain(t0, tprev, *tree, v as int);
                        assert forall|x: int|
                            tree.view_live(x) implies #[trigger] tree.superview_of(x)
                            == tprev.superview_of(x) by {
                            if tprev.in_subtree(s as int, x) {
                                assert(tree.dirty_bits(x) == tprev.dirty_bits(x) & !MOUNTED);
                                assert(view_eq_except_dirty_layers(
                                    tprev.views@[x],
                                    tree.views@[x],
                                ));
                            } else {
                                assert(tree.views@[x] == tprev.views@[x]);
                            }
                        }
                        lemma_relink_chain(t0, tprev, *tree, v, old_subs@, new_ids@);
                        assert forall|x: int|
                            tree.view_live(x) implies #[trigger] unmount_count(tree.history(), x)
                            == unmount_count(t0.history(), x) + (if t0.view_mounted(x)
                            && !tree.view_mounted(x) {
                            1nat
                        } else {
                            0nat
                        }) by {
                            assert(unmount_effect_at(tprev, *tree, s as int, x));
                            assert(tprev.view_live(x));
                            if tprev.in_subtree(s as int, x) {
                                assert(!tree.view_mounted(x));
                                if tprev.view_mounted(x) {
                                    assert(t0.view_mounted(x));
                                }
                            } else {
                                assert(tree.views@[x] == tprev.views@[x]);
                                assert(tree.view_mounted(x) == tprev.view_mounted(x));
                            }
                        }
                        assert forall|x: int|
                            tree.view_live(x) && #[trigger] tree.view_mounted(x)
                            implies t0.view_mounted(x) by {
                            if tprev.in_subtree(s as int, x) {
                                assert(tree.dirty_bits(x) == tprev.dirty_bits(x) & !MOUNTED);
                                assert(!tree.view_mounted(x));
                            } else {
                                assert(tree.views@[x] == tprev.views@[x]);
                                assert(tree.view_mounted(x) == tprev.view_mounted(x));
                                assert(tprev.view_mounted(x));
                            }
                        }
                        assert(tprev.in_subtree(s as int, s as int));
                        assert(!tree.view_mounted(s as int));
                        assert forall|i: int|
                            0 <= i < j + 1 && !new_ids@.contains(#[trigger] old_subs@[i])
                            implies !tree.view_mounted(old_subs@[i] as int) by {
                            let x = old_subs@[i] as int;
                            if i < j {
                                if tprev.in_subtree(s as int, x) {
                                } else {
                                    assert(tree.views@[x] == tprev.views@[x]);
                                }
                            } else {
                                assert(x == s as int);
                            }
                        }
                        crate::flags::lemma_no_mounted_consts();
                        assert forall|i: int|
                            tree.view_live(i) && t0.anc_of(v as int).contains(i)
                            implies contains_bits(
                            #[trigger] tree.dirty_bits(i),
                            crate::flags::DESCENDANT_SUBVIEWS_FRAME
                                | crate::flags::DESCENDANT_SIZE_TRAITS,
                        ) by {
                            assert(tprev.view_live(i));
                            assert(contains_bits(
                                tprev.dirty_bits(i),
                                crate::flags::DESCENDANT_SUBVIEWS_FRAME
                                    | crate::flags::DESCENDANT_SIZE_TRAITS,
                            ));
                            if tprev.in_subtree(s as int, i) {
                                assert(tree.dirty_bits(i) == tprev.dirty_bits(i) & !MOUNTED);
                                crate::flags::lemma_contains_minus(
                                    tprev.dirty_bits(i),
                                    crate::flags::DESCENDANT_SUBVIEWS_FRAME
                                        | crate::flags::DESCENDANT_SIZE_TRAITS,
                                    MOUNTED,
                                );
                            } else {
                                assert(tree.views@[i] == tprev.views@[i]);
                            }
                        }
                        assert forall|j2: int|
                            0 <= j2 < new_ids@.len() && !t0.view_mounted(
                            #[trigger] new_ids@[j2] as int,
                        ) implies contains_bits(tree.dirty_bits(v as int), MOUNT) by {
                            assert(tree.views@[v as int] == tprev.views@[v as int]);
                            assert(tree.dirty_bits(v as int) == tprev.dirty_bits(v as int));
                        }
                        assert forall|w: int|
                            tree.view_live(w) && is_containing_layer(t0, v as int, w)
                            implies contains_bits(
                            #[trigger] tree.dirty_bits(w),
                            crate::flags::SUBLAYERS,
                        ) by {
                            assert(tprev.view_live(w));
                            assert(contains_bits(tprev.dirty_bits(w), crate::flags::SUBLAYERS));
                            if tprev.in_subtree(s as int, w) {
                                assert(tree.dirty_bits(w) == tprev.dirty_bits(w) & !MOUNTED);
                                crate::flags::lemma_contains_minus(
                                    tprev.dirty_bits(w),
                                    crate::flags::SUBLAYERS,
                                    MOUNTED,
                                );
                            } else {
                                assert(tree.views@[w] == tprev.views@[w]);
                            }
                        }
                        assert forall|w2: int, i: int|
                            #![trigger is_containing_layer(t0, v as int, w2), t0.anc_of(w2).contains(i)]
                            tree.view_live(i) && is_containing_layer(t0, v as int, w2)
                                && t0.anc_of(w2).contains(i) implies contains_bits(
                            tree.dirty_bits(i),
                            DESCENDANT_SUBLAYERS,
                        ) by {
                            assert(tprev.view_live(i));
                            assert(contains_bits(tprev.dirty_bits(i), DESCENDANT_SUBLAYERS));
                            if tprev.in_subtree(s as int, i) {
                                assert(tree.dirty_bits(i) == tprev.dirty_bits(i) & !MOUNTED);
                                crate::flags::lemma_contains_minus(
                                    tprev.dirty_bits(i),
                                    DESCENDANT_SUBLAYERS,
                                    MOUNTED,
                                );
                            } else {
                                assert(tree.views@[i] == tprev.views@[i]);
                            }
                        }
                    }
                } else {
                    proof {
                        assert(old_subs@[j as int] == s);
                        assert(old_subs@.contains(s));
                        assert(tree.view_live(s as int));
                        assert(tree.superview_of(s as int) == (if new_ids@.contains(s) {
                            Superview::View(v)
                        } else {
                            Superview::Empty
                        }));
                        assert(new_ids@.contains(s));
                    }
                }
                j = j + 1;
            }
        }
        proof {
            assert(flags_subs_preserved(t0, *tree, v as int));
            assert forall|i: int| tree.view_live(i) implies #[trigger] tree.view_flags_of(i)
                == t0.view_flags_of(i) by {}
            assert forall|i: int|
                tree.view_live(i) && i != v as int implies #[trigger] tree.subviews_of(i)
                == t0.subviews_of(i) by {}
            assert(relink_done(t0, *tree, v, old_subs@, new_ids@));
            assert forall|x: int|
                tree.view_live(x) implies #[trigger] tree.superview_of(x) == (if
            new_ids@.contains(x as usize) {
                Superview::View(self.id)
            } else if t0.subviews_of(self.id as int).contains(x as usize) {
                Superview::Empty
            } else {
                t0.superview_of(x)
            }) by {
                assert(old_subs@.contains(x as usize) == t0.subviews_of(v as int).contains(
                    x as usize,
                )) by {
                    if old_subs@.contains(x as usize) {
                        let i2 = choose|i2: int|
                            0 <= i2 < old_subs@.len() && #[trigger] old_subs@[i2] == x as usize;
                        assert(t0.subviews_of(v as int).contains(old_subs@[i2]));
                    }
                    if t0.subviews_of(v as int).contains(x as usize) {
                        let k2 = t0.subviews_of(v as int).index_of(x as usize);
                        assert(old_subs@.contains(t0.subviews_of(v as int)[k2]));
                    }
                }
            }
            if !mounted_here {
                assert forall|x: int|
                    tree.view_live(x) implies #[trigger] unmount_count(tree.history(), x)
                    == unmount_count(t0.history(), x) + (if t0.view_mounted(x)
                    && !tree.view_mounted(x) {
                    1nat
                } else {
                    0nat
                }) by {
                    assert(tree.view_mounted(x) == t0.view_mounted(x));
                }
                assert forall|x: int|
                    tree.view_live(x) && #[trigger] tree.view_mounted(x)
                    implies t0.view_mounted(x) by {
                    assert(tree.view_mounted(x) == t0.view_mounted(x));
                }
                assert(tree.history() == t0.history());
                assert(tree.pending_events() == t0.pending_events());
            }
            assert forall|x: int|
                tree.view_live(x) && t0.subviews_of(v as int).contains(x as usize)
                    && !new_ids@.contains(x as usize) implies !(#[trigger] tree.view_mounted(
                x,
            )) by {
                let k2 = t0.subviews_of(v as int).index_of(x as usize);
                assert(t0.subs_ok_at(v as int));
                assert(t0.subviews_of(v as int)[k2] == x as usize);
                assert(t0.superview_of(x) == Superview::View(v));
                if mounted_here {
                    assert(old_subs@.contains(t0.subviews_of(v as int)[k2]));
                    let i2 = choose|i2: int|
                        0 <= i2 < old_subs@.len() && #[trigger] old_subs@[i2] == x as usize;
                    assert(!new_ids@.contains(old_subs@[i2]));
                    assert(!tree.view_mounted(old_subs@[i2] as int));
                } else {
                    assert(!t0.view_mounted(v as int));
                    assert(t0.mounted_chain_at(x));
                    assert(t0.parent_of(x) == v as int);
                    assert(!t0.view_mounted(x));
                    assert(tree.view_mounted(x) == t0.view_mounted(x));
                }
            }
            assert forall|k2: int| 0 <= k2 < new_ids@.len() implies contains_bits(
                tree.dirty_bits(v as int),
                raise_bits(tree.dirty_bits(#[trigger] new_ids@[k2] as int)),
            ) by {
                let ci = new_ids@[k2] as int;
                assert(tree.subviews_of(v as int)[k2] == new_ids@[k2]);
                assert(tree.subs_ok_at(v as int));
                assert(tree.superview_of(ci) == Superview::View(v));
                assert(tree.prop_ok_at(ci));
            }
        }
    }
}

impl ViewTree {
    /// Mark `v`'s subview frames and size traits stale and tell the
    /// ancestors, as every layout replacement does.
    pub(crate) fn set_layout_mark_dirty(&mut self, v: usize)
        requires
            old(self).wf(),
            old(self).view_live(v as int),
        ensures
            final(self).wf(),
            final(self).n_views() == old(self).n_views(),
            final(self).n_wnds() == old(self).n_wnds(),
            final(self).dirty_bits(v as int) == old(self).dirty_bits(v as int) | (
            crate::flags::SUBVIEWS_FRAME | crate::flags::SIZE_TRAITS),
            contains_bits(
                final(self).dirty_bits(v as int),
                crate::flags::SUBVIEWS_FRAME | crate::flags::SIZE_TRAITS,
            ),
            final(self).hist@ == old(self).hist@,
            final(self).pending@ == old(self).pending@,
            old(self).update_requests@.is_prefix_of(final(self).update_requests@),
            forall|x: int|
                final(self).view_live(x) ==> #[trigger] final(self).view_mounted(x) == old(self).view_mounted(x),
            forall|x: int|
                final(self).view_live(x) ==> view_eq_except_dirty(
                    old(self).views@[x],
                    #[trigger] final(self).views@[x],
                ),
            forall|i: int|
                final(self).view_live(i) && i != v as int ==> #[trigger] final(self).dirty_bits(i)
                    == (if old(self).anc_of(v as int).contains(i) {
                    old(self).dirty_bits(i) | (crate::flags::DESCENDANT_SUBVIEWS_FRAME
                        | crate::flags::DESCENDANT_SIZE_TRAITS)
                } else {
                    old(self).dirty_bits(i)
                }),
            final(self).anc@ == old(self).anc@,
    {
        let local: u16 = crate::flags::SUBVIEWS_FRAME | crate::flags::SIZE_TRAITS;
        let up: u16 = crate::flags::DESCENDANT_SUBVIEWS_FRAME
            | crate::flags::DESCENDANT_SIZE_TRAITS;
        proof {
            self.lemma_mark_premises(v, local, up);
        }
        self.set_flags_and_propagate(v, local, up);
        proof {
            crate::flags::lemma_or_contains(old(self).dirty_bits(v as int), local);
            assert forall|x: int| final(self).view_live(x) implies #[trigger] self.view_mounted(x)
                == old(self).view_mounted(x) by {
                crate::flags::lemma_no_mounted_consts();
                crate::flags::lemma_stable_no_mounted(up);
                if x == v as int {
                    crate::flags::lemma_or_disjoint_mask(
                        old(self).dirty_bits(x),
                        local,
                        MOUNTED,
                    );
                } else if old(self).anc_of(v as int).contains(x) {
                    crate::flags::lemma_or_disjoint_mask(old(self).dirty_bits(x), up, MOUNTED);
                }
            }
            assert forall|x: int| self.view_live(x) implies view_eq_except_dirty(
                old(self).views@[x],
                #[trigger] self.views@[x],
            ) by {}
        }
    }

    /// Mark `v`'s sublayer set stale and tell the ancestors; `v` is the
    /// containing layer group of a view whose subviews changed.
    pub(crate) fn set_layout_mark_sublayers(&mut self, v: usize)
        requires
            old(self).wf(),
            old(self).view_live(v as int),
        ensures
            final(self).wf(),
            final(self).n_views() == old(self).n_views(),
            final(self).n_wnds() == old(self).n_wnds(),
            final(self).hist@ == old(self).hist@,
            final(self).pending@ == old(self).pending@,
            old(self).update_requests@.is_prefix_of(final(self).update_requests@),
            forall|x: int|
                final(self).view_live(x) ==> #[trigger] final(self).view_mounted(x) == old(self).view_mounted(x),
            forall|x: int|
                final(self).view_live(x) ==> view_eq_except_dirty(
                    old(self).views@[x],
                    #[trigger] final(self).views@[x],
                ),
            forall|x: int|
                final(self).view_live(x) ==> contains_bits(
                    #[trigger] final(self).dirty_bits(x),
                    old(self).dirty_bits(x),
                ),
            contains_bits(final(self).dirty_bits(v as int), crate::flags::SUBLAYERS),
            forall|i: int|
                old(self).anc_of(v as int).contains(i) && final(self).view_live(i)
                    ==> contains_bits(#[trigger] final(self).dirty_bits(i), DESCENDANT_SUBLAYERS),
            final(self).anc@ == old(self).anc@,
    {
        let local: u16 = crate::flags::SUBLAYERS;
        let up: u16 = DESCENDANT_SUBLAYERS;
        proof {
            self.lemma_mark_premises(v, local, up);
        }
        self.set_flags_and_propagate(v, local, up);
        proof {
            assert forall|x: int| final(self).view_live(x) implies #[trigger] self.view_mounted(x)
                == old(self).view_mounted(x) && contains_bits(
                self.dirty_bits(x),
                old(self).dirty_bits(x),
            ) by {
                crate::flags::lemma_no_mounted_consts();
                crate::flags::lemma_stable_no_mounted(up);
                crate::flags::lemma_or_contains(old(self).dirty_bits(x), local);
                crate::flags::lemma_or_contains(old(self).dirty_bits(x), up);
                crate::flags::lemma_or_contains(old(self).dirty_bits(x), 0);
                let d0 = old(self).dirty_bits(x);
                crate::flags::lemma_or_zero(d0);
                if x == v as int {
                    crate::flags::lemma_or_disjoint_mask(
                        old(self).dirty_bits(x),
                        local,
                        MOUNTED,
                    );
                } else if old(self).anc_of(v as int).contains(x) {
                    crate::flags::lemma_or_disjoint_mask(old(self).dirty_bits(x), up, MOUNTED);
                }
            }
            assert forall|x: int| self.view_live(x) implies view_eq_except_dirty(
                old(self).views@[x],
                #[trigger] self.views@[x],
            ) by {}
            assert forall|x: int| self.view_live(x) implies contains_bits(
                #[trigger] self.dirty_bits(x),
                old(self).dirty_bits(x),
            ) by {
                assert(self.view_mounted(x) == old(self).view_mounted(x));
            }
            crate::flags::lemma_or_contains(old(self).dirty_bits(v as int), local);
            old(self).lemma_chain_distinct(v as int);
            assert forall|i: int|
                old(self).anc_of(v as int).contains(i) && self.view_live(i)
                implies contains_bits(#[trigger] self.dirty_bits(i), DESCENDANT_SUBLAYERS) by {
                assert(i != v as int);
                assert(self.dirty_bits(i) == old(self).dirty_bits(i) | up);
                crate::flags::lemma_or_contains(old(self).dirty_bits(i), up);
            }
        }
    }

    /// A full invariant lets any local/descendant flag pair be folded in:
    /// the premises `set_flags_and_propagate` asks of its caller.
    proof fn lemma_mark_premises(self, v: usize, local: u16, up: u16)
        requires
            self.wf(),
            self.view_live(v as int),
            local == crate::flags::SUBVIEWS_FRAME | crate::flags::SIZE_TRAITS && up
                == crate::flags::DESCENDANT_SUBVIEWS_FRAME | crate::flags::DESCENDANT_SIZE_TRAITS
                || local == crate::flags::SUBLAYERS && up == DESCENDANT_SUBLAYERS,
        ensures
            forall|i: int|
                self.view_live(i) && self.parent_of(i) != v ==> #[trigger] self.prop_ok_at(i),
            forall|i: int|
                self.view_live(i) && self.parent_of(i) != v ==> #[trigger] self.mountpend_ok_at(
                    i,
                ),
            forall|k: int|
                0 <= k < self.subviews_of(v as int).len() ==> contains_bits(
                    self.dirty_bits(v as int) | local,
                    raise_bits(self.dirty_bits(#[trigger] self.subviews_of(v as int)[k] as int)),
                ),
            forall|k: int|
                0 <= k < self.subviews_of(v as int).len() ==> ((!self.view_mounted(
                    #[trigger] self.subviews_of(v as int)[k] as int,
                ) && self.view_mounted(v as int)) ==> contains_bits(
                    self.dirty_bits(v as int) | local,
                    MOUNT,
                )),
            ancestor_stable(up),
            contains_bits(up, raise_bits(local)),
            local & MOUNTED == 0,
    {
        let vi = v as int;
        crate::flags::lemma_raise_pairs();
        crate::flags::lemma_consts_stable();
        crate::flags::lemma_no_mounted_consts();
        crate::flags::lemma_raise_or(crate::flags::SUBVIEWS_FRAME, crate::flags::SIZE_TRAITS);
        crate::flags::lemma_stable_or(
            crate::flags::DESCENDANT_SUBVIEWS_FRAME,
            crate::flags::DESCENDANT_SIZE_TRAITS,
        );
        crate::flags::lemma_or_contains(up, up);
        assert(contains_bits(up, raise_bits(local)));
        assert forall|i: int|
            self.view_live(i) && self.parent_of(i) != v implies #[trigger] self.prop_ok_at(i) by {
            assert(self.prop_ok_at(i));
        }
        assert forall|i: int|
            self.view_live(i) && self.parent_of(i) != v implies #[trigger] self.mountpend_ok_at(
            i,
        ) by {
            assert(self.mountpend_ok_at(i));
        }
        assert forall|k: int| 0 <= k < self.subviews_of(vi).len() implies contains_bits(
            self.dirty_bits(vi) | local,
            raise_bits(self.dirty_bits(#[trigger] self.subviews_of(vi)[k] as int)),
        ) by {
            let c = self.subviews_of(vi)[k] as int;
            assert(self.subs_ok_at(vi));
            assert(self.view_live(c) && self.superview_of(c) == Superview::View(v));
            assert(self.prop_ok_at(c));
            crate::flags::lemma_contains_or_mono(
                self.dirty_bits(vi),
                local,
                raise_bits(self.dirty_bits(c)),
            );
        }
        assert forall|k: int| 0 <= k < self.subviews_of(vi).len() implies ((!self.view_mounted(
            #[trigger] self.subviews_of(vi)[k] as int,
        ) && self.view_mounted(vi)) ==> contains_bits(self.dirty_bits(vi) | local, MOUNT)) by {
            let c = self.subviews_of(vi)[k] as int;
            assert(self.subs_ok_at(vi));
            assert(self.view_live(c) && self.superview_of(c) == Superview::View(v));
            assert(self.mountpend_ok_at(c));
            if !self.view_mounted(c) && self.view_mounted(vi) {
                crate::flags::lemma_contains_or_mono(self.dirty_bits(vi), local, MOUNT);
            }
        }
    }
}

/// The mask of dirty bits an update pass serves: pending `update` callbacks
/// and sublayer changes, local and for descendants.
pub const UPDATE_MASK: u16 = 0x3C0;

/// The lifecycle history is unchanged between the two trees, seen from view
/// `x`: no mount or unmount was decided.
pub open spec fn quiet_hist_at(t0: ViewTree, t1: ViewTree, x: int) -> bool {
    &&& mount_count(t1.history(), x) == mount_count(t0.history(), x)
    &&& unmount_count(t1.history(), x) == unmount_count(t0.history(), x)
    &&& last_mount(t1.history(), x) == last_mount(t0.history(), x)
}

impl ViewTree {
    /// Without update-mask bits at the root, no member of the subtree has
    /// any: they propagate upward with the dirty flags.
    pub(crate) proof fn lemma_subtree_no_update(self, v: int, x: int)
        requires
            self.wf_arena(),
            self.wf_links(),
            self.wf_prop(),
            self.view_live(v),
            self.dirty_bits(v) & UPDATE_MASK == 0,
            self.view_live(x),
            self.in_subtree(v, x),
        ensures
            self.dirty_bits(x) & UPDATE_MASK == 0,
        decreases self.anc_of(x).len(),
    {
        if x != v {
            assert(self.anc_of(x).contains(v));
            assert(self.anc_of(x).len() > 0);
            assert(self.link_ok_at(x));
            let p = self.parent_of(x);
            assert(self.anc_of(x) == seq![p] + self.anc_of(p));
            assert(self.view_live(p));
            assert(self.in_subtree(v, p)) by {
                if p != v {
                    assert(self.anc_of(x)[0] == p);
                    let j = self.anc_of(x).index_of(v);
                    assert(j != 0);
                    assert(self.anc_of(p)[j - 1] == v);
                }
            }
            self.lemma_subtree_no_update(v, p);
            if self.dirty_bits(x) & UPDATE_MASK != 0 {
                assert(self.prop_ok_at(x));
                let d = self.dirty_bits(x);
                let dp = self.dirty_bits(p);
                assert((dp & (((d & 0xAAAu16) | ((d & 0x155u16) << 1u16))) == (((d & 0xAAAu16) | ((
                d & 0x155u16) << 1u16))) && d & 0x3C0u16 != 0) ==> dp & 0x3C0u16 != 0)
                    by (bit_vector);
            }
        }
    }

    /// Serve the pending `update` callbacks in `v`'s subtree: owe an
    /// `update` to every member whose own layers or sublayer set are stale,
    /// parents before children, and clear the served bits; a no-op on a
    /// subtree with nothing pending.
    pub(crate) fn update_collect(&mut self, wm: Wm, v: usize)
        requires
            old(self).wf(),
            old(self).view_live(v as int),
        ensures
            final(self).wf(),
            final(self).n_views() == old(self).n_views(),
            final(self).n_wnds() == old(self).n_wnds(),
            final(self).anc@ == old(self).anc@,
            final(self).wnds@ == old(self).wnds@,
            final(self).update_requests@ == old(self).update_requests@,
            forall|x: int|
                final(self).view_live(x) && !old(self).in_subtree(v as int, x)
                    ==> (#[trigger] final(self).views@[x]) == old(self).views@[x],
            forall|x: int|
                final(self).view_live(x) && old(self).in_subtree(v as int, x)
                    ==> #[trigger] final(self).dirty_bits(x) == old(self).dirty_bits(x)
                    & !UPDATE_MASK,
            forall|x: int|
                final(self).view_live(x) && old(self).in_subtree(v as int, x)
                    ==> view_eq_except_dirty(old(self).views@[x], #[trigger] final(self).views@[x]),
            old(self).history().is_prefix_of(final(self).history()),
            old(self).pending_events().is_prefix_of(final(self).pending_events()),
            forall|x: int|
                final(self).view_live(x) ==> #[trigger] quiet_hist_at(
                    *old(self),
                    *final(self),
                    x,
                ),
        decreases old(self).n_views() - old(self).anc_of(v as int).len(),
    {
        let ghost t0 = *self;
        proof {
            t0.lemma_chain_distinct(v as int);
            crate::flags::lemma_no_mounted_consts();
        }
        let dv = self.views[v].dirty;
        if dv.bits & UPDATE_MASK == 0 {
            proof {
                assert forall|x: int|
                    self.view_live(x) && t0.in_subtree(v as int, x)
                    implies #[trigger] self.dirty_bits(x) == t0.dirty_bits(x) & !UPDATE_MASK by {
                    t0.lemma_subtree_no_update(v as int, x);
                    let d = t0.dirty_bits(x);
                    crate::flags::lemma_clear_absent(d, UPDATE_MASK);
                }
                assert forall|x: int|
                    self.view_live(x) && t0.in_subtree(v as int, x)
                    implies view_eq_except_dirty(t0.views@[x], #[trigger] self.views@[x]) by {}
                assert forall|x: int| self.view_live(x) implies #[trigger] quiet_hist_at(
                    t0,
                    *self,
                    x,
                ) by {}
            }
            return ;
        }
        if dv.bits & (crate::flags::UPDATE_EVENT | crate::flags::SUBLAYERS) != 0 {
            let ev = ViewEvent { kind: ViewEventKind::Update, view: v };
            self.pending.push(ev);
            proof {
                self.hist@ = self.hist@.push(ev);
                self.lemma_push_misc_event(t0, ev);
            }
        }
        proof {
            assert forall|x: int| self.view_live(x) implies #[trigger] quiet_hist_at(
                t0,
                *self,
                x,
            ) by {
                if self.hist@ != t0.hist@ {
                    lemma_hist_push(t0.hist@, ViewEvent { kind: ViewEventKind::Update, view: v }, x);
                }
            }
        }
        let n_subs = self.views[v].layout.subviews.len();
        let mut k: usize = 0;
        while k < n_subs
            invariant
                t0 == *old(self),
                t0.wf(),
                t0.view_live(v as int),
                0 <= k <= n_subs,
                n_subs == t0.subviews_of(v as int).len(),
                self.wf(),
                self.views@.len() == t0.views@.len(),
                self.wnds@ == t0.wnds@,
                self.anc@ == t0.anc@,
                self.update_requests@ == t0.update_requests@,
                self.views@[v as int].dirty == t0.views@[v as int].dirty,
                view_eq_except_dirty(t0.views@[v as int], self.views@[v as int]),
                forall|x: int|
                    self.view_live(x) && x != v as int && !covered_by(
                        t0,
                        t0.subviews_of(v as int),
                        k as int,
                        x,
                    ) ==> (#[trigger] self.views@[x]) == t0.views@[x],
                forall|x: int|
                    self.view_live(x) && x != v as int && covered_by(
                        t0,
                        t0.subviews_of(v as int),
                        k as int,
                        x,
                    ) ==> #[trigger] self.dirty_bits(x) == t0.dirty_bits(x) & !UPDATE_MASK
                        && view_eq_except_dirty(t0.views@[x], self.views@[x]),
                t0.history().is_prefix_of(self.history()),
                t0.pending_events().is_prefix_of(self.pending_events()),
                forall|x: int|
                    self.view_live(x) ==> #[trigger] quiet_hist_at(t0, *self, x),
            decreases n_subs - k,
        {
            proof {
                assert(self.subviews_of(v as int) == t0.subviews_of(v as int));
            }
            let c = self.views[v].layout.subviews[k];
            let ghost sb = *self;
            proof {
                assert(c == t0.subviews_of(v as int)[k as int]);
                assert(t0.subs_ok_at(v as int));
                assert(t0.view_live(c as int));
                assert(t0.superview_of(c as int) == Superview::View(v));
                t0.lemma_child_below(v as int, c as int);
                t0.lemma_chain_distinct(c as int);
                assert(t0.link_ok_at(c as int));
                assert((v as usize) as int == v as int);
                assert(t0.anc_of(c as int) == seq![v as int] + t0.anc_of(v as int));
                assert(t0.anc_of(c as int)[0] == v as int);
                assert(t0.anc_of(c as int).contains(v as int));
                assert(t0.in_subtree(v as int, c as int));
                assert(!covered_by(t0, t0.subviews_of(v as int), k as int, c as int)) by {
                    if covered_by(t0, t0.subviews_of(v as int), k as int, c as int) {
                        let j2 = choose|j2: int|
                            0 <= j2 < k && t0.in_subtree(
                                #[trigger] t0.subviews_of(v as int)[j2] as int,
                                c as int,
                            );
                        assert(t0.superview_of(t0.subviews_of(v as int)[j2] as int)
                            == Superview::View(v));
                        t0.lemma_sibling_disjoint(
                            v as int,
                            t0.subviews_of(v as int)[j2] as int,
                            c as int,
                            c as int,
                        );
                        assert(t0.subviews_of(v as int)[j2] != t0.subviews_of(v as int)[
                            k as int]);
                    }
                }
                assert(sb.views@[c as int] == t0.views@[c as int]);
                assert(self.anc_of(c as int) == t0.anc_of(c as int));
                assert(self.anc_of(c as int).len() == t0.anc_of(v as int).len() + 1);
                assert(self.anc_of(c as int).len() < self.n_views());
                assert(self.n_views() == t0.n_views());
            }
            self.update_collect(wm, c);
            proof {
                self.lemma_update_merge(t0, sb, v, c, k as int);
            }
            k = k + 1;
            proof {
                assert forall|x: int|
                    self.view_live(x) && x != v as int && covered_by(
                        t0,
                        t0.subviews_of(v as int),
                        k as int,
                        x,
                    ) implies #[trigger] self.dirty_bits(x) == t0.dirty_bits(x) & !UPDATE_MASK
                    && view_eq_except_dirty(t0.views@[x], self.views@[x]) by {
                    assert(self.dirty_bits(x) == t0.dirty_bits(x) & !UPDATE_MASK);
                }
            }
        }
        let ghost tp = *self;
        let dv2 = self.views[v].dirty;
        self.views[v].dirty = dv2.remove(UPDATE_MASK);
        proof {
            self.lemma_update_finish_ok(t0, tp, v, n_subs as int);
        }
    }
}

impl ViewTree {
    /// Queueing a `position` or `update` callback leaves every invariant
    /// alone: such events play no part in the lifecycle bookkeeping.
    pub(crate) proof fn lemma_push_misc_event(self, t0: ViewTree, ev: ViewEvent)
        requires
            t0.wf(),
            ev.kind != ViewEventKind::Mount,
            ev.kind != ViewEventKind::Unmount,
            (ev.view as int) < t0.views@.len(),
            self.views@ == t0.views@,
            self.wnds@ == t0.wnds@,
            self.anc@ == t0.anc@,
            self.update_requests@ == t0.update_requests@,
            self.taken@ == t0.taken@,
            self.hist@ == t0.hist@.push(ev),
            self.pending@ == t0.pending@.push(ev),
        ensures
            self.wf(),
            forall|x: int| #[trigger] quiet_hist_at(t0, self, x),
    {
        assert forall|x: int| true implies #[trigger] quiet_hist_at(t0, self, x) by {
            lemma_hist_push(t0.hist@, ev, x);
        }
        assert(self.hist@ =~= self.taken@ + self.pending@) by {
            assert(t0.hist@ == t0.taken@ + t0.pending@);
        }
        assert forall|i: int| self.view_live(i) implies #[trigger] self.link_ok_at(i) by {
            assert(t0.link_ok_at(i));
        }
        assert forall|i: int| self.view_live(i) implies #[trigger] self.rev_ok_at(i) by {
            assert(t0.rev_ok_at(i));
        }
        assert forall|i: int| self.view_live(i) implies #[trigger] self.subs_ok_at(i) by {
            assert(t0.subs_ok_at(i));
        }
        assert forall|i: int| self.view_live(i) implies #[trigger] self.prop_ok_at(i) by {
            assert(t0.prop_ok_at(i));
        }
        assert forall|i: int| self.view_live(i) implies #[trigger] self.mountpend_ok_at(i) by {
            assert(t0.mountpend_ok_at(i));
        }
        assert forall|w: int| self.wnd_live(w) implies #[trigger] self.wnd_ok_at(w) by {
            assert(t0.wnd_ok_at(w));
        }
        assert forall|w: int| self.wnd_live(w) implies #[trigger] self.pend_ok_at(w) by {
            assert(t0.pend_ok_at(w));
            assert(t0.wnd_ok_at(w));
        }
        assert forall|i: int| self.view_live(i) implies #[trigger] self.layers_ok_at(i) by {
            assert(t0.layers_ok_at(i));
        }
        assert forall|x: int| self.view_live(x) implies #[trigger] self.count_ok_at(x) by {
            assert(t0.count_ok_at(x));
            lemma_hist_push(t0.hist@, ev, x);
        }
        assert forall|k: int|
            0 <= k < self.hist@.len() implies (#[trigger] self.hist@[k]).view
            < self.views@.len() by {
            if k < t0.hist@.len() {
                assert(t0.hist@[k].view < t0.views@.len());
            } else {
                assert(self.hist@[k] == ev);
            }
        }
        assert forall|i: int| self.view_live(i) implies #[trigger] self.mounted_chain_at(i) by {
            assert(t0.mounted_chain_at(i));
        }
        assert forall|i: int| self.view_live(i) implies #[trigger] self.order_ok_at(i) by {
            assert(t0.order_ok_at(i));
            assert(t0.link_ok_at(i));
            lemma_hist_push(t0.hist@, ev, i);
            if t0.parent_of(i) >= 0 {
                assert(t0.view_live(t0.parent_of(i)));
                lemma_hist_push(t0.hist@, ev, t0.parent_of(i));
            }
        }
    }

    /// Merging one child's finished update collection into the walk's
    /// running description.
    proof fn lemma_update_merge(self, t0: ViewTree, sb: ViewTree, v: usize, c: usize, k: int)
        requires
            t0.wf(),
            t0.view_live(v as int),
            t0.subs_ok_at(v as int),
            0 <= k < t0.subviews_of(v as int).len(),
            c == t0.subviews_of(v as int)[k],
            t0.view_live(c as int),
            t0.superview_of(c as int) == Superview::View(v),
            sb.views@.len() == t0.views@.len(),
            sb.anc@ == t0.anc@,
            forall|x: int|
                sb.view_live(x) && x != v as int && !covered_by(
                    t0,
                    t0.subviews_of(v as int),
                    k,
                    x,
                ) ==> (#[trigger] sb.views@[x]) == t0.views@[x],
            forall|x: int|
                sb.view_live(x) && x != v as int && covered_by(
                    t0,
                    t0.subviews_of(v as int),
                    k,
                    x,
                ) ==> #[trigger] sb.dirty_bits(x) == t0.dirty_bits(x) & !UPDATE_MASK
                    && view_eq_except_dirty(t0.views@[x], sb.views@[x]),
            forall|x: int| sb.view_live(x) ==> #[trigger] quiet_hist_at(t0, sb, x),
            self.views@.len() == sb.views@.len(),
            self.anc@ == sb.anc@,
            forall|x: int|
                self.view_live(x) && !sb.in_subtree(c as int, x) ==> (#[trigger] self.views@[x])
                    == sb.views@[x],
            forall|x: int|
                self.view_live(x) && sb.in_subtree(c as int, x) ==> #[trigger] self.dirty_bits(x)
                    == sb.dirty_bits(x) & !UPDATE_MASK,
            forall|x: int|
                self.view_live(x) && sb.in_subtree(c as int, x) ==> view_eq_except_dirty(
                    sb.views@[x],
                    #[trigger] self.views@[x],
                ),
            forall|x: int| self.view_live(x) ==> #[trigger] quiet_hist_at(sb, self, x),
        ensures
            forall|x: int|
                self.view_live(x) && x != v as int && !covered_by(
                    t0,
                    t0.subviews_of(v as int),
                    k + 1,
                    x,
                ) ==> (#[trigger] self.views@[x]) == t0.views@[x],
            forall|x: int|
                self.view_live(x) && x != v as int && covered_by(
                    t0,
                    t0.subviews_of(v as int),
                    k + 1,
                    x,
                ) ==> #[trigger] self.dirty_bits(x) == t0.dirty_bits(x) & !UPDATE_MASK
                    && view_eq_except_dirty(t0.views@[x], self.views@[x]),
            forall|x: int| self.view_live(x) ==> #[trigger] quiet_hist_at(t0, self, x),
    {
        let subs = t0.subviews_of(v as int);
        t0.lemma_child_below(v as int, c as int);
        assert(t0.link_ok_at(c as int));
        assert((v as usize) as int == v as int);
        assert(t0.anc_of(c as int) == seq![v as int] + t0.anc_of(v as int));
        assert(t0.anc_of(c as int)[0] == v as int);
        assert(t0.anc_of(c as int).contains(v as int));
        assert(t0.in_subtree(v as int, c as int));
        assert(subs.no_duplicates());
        assert forall|x: int|
            self.view_live(x) && sb.in_subtree(c as int, x) implies sb.views@[x] == t0.views@[x]
            && t0.in_subtree(c as int, x) && x != v as int && !covered_by(t0, subs, k, x) by {
            assert(sb.view_live(x) && t0.view_live(x));
            assert(sb.anc_of(x) == t0.anc_of(x));
            assert(t0.in_subtree(c as int, x));
            t0.lemma_sub_trans(v as int, c as int, x);
            assert(!(x == v as int || covered_by(t0, subs, k, x))) by {
                if covered_by(t0, subs, k, x) {
                    let j2 = choose|j2: int|
                        0 <= j2 < k && t0.in_subtree(#[trigger] subs[j2] as int, x);
                    assert(t0.superview_of(subs[j2] as int) == Superview::View(v));
                    t0.lemma_sibling_disjoint(v as int, subs[j2] as int, c as int, x);
                    assert(subs[j2] != subs[k]);
                }
            }
        }
        assert forall|x: int|
            self.view_live(x) && t0.in_subtree(c as int, x) implies sb.in_subtree(
            c as int,
            x,
        ) by {
            assert(sb.anc_of(x) == t0.anc_of(x));
        }
        assert forall|x: int|
            self.view_live(x) && x != v as int && !covered_by(t0, subs, k + 1, x)
            implies self.views@[x] == t0.views@[x] by {
            assert(!covered_by(t0, subs, k, x)) by {
                if covered_by(t0, subs, k, x) {
                    let j2 = choose|j2: int|
                        0 <= j2 < k && t0.in_subtree(#[trigger] subs[j2] as int, x);
                    assert(covered_by(t0, subs, k + 1, x));
                }
            }
            assert(!t0.in_subtree(c as int, x)) by {
                if t0.in_subtree(c as int, x) {
                    assert(subs[k] as int == c as int);
                    assert(covered_by(t0, subs, k + 1, x));
                }
            }
            assert(!sb.in_subtree(c as int, x));
        }
        assert forall|x: int|
            self.view_live(x) && x != v as int && covered_by(t0, subs, k + 1, x)
            implies #[trigger] self.dirty_bits(x) == t0.dirty_bits(x) & !UPDATE_MASK
            && view_eq_except_dirty(t0.views@[x], self.views@[x]) by {
            if covered_by(t0, subs, k, x) {
                assert(!sb.in_subtree(c as int, x)) by {
                    if sb.in_subtree(c as int, x) {
                        assert(sb.anc_of(x) == t0.anc_of(x));
                        assert(t0.in_subtree(c as int, x));
                        let j2 = choose|j2: int|
                            0 <= j2 < k && t0.in_subtree(#[trigger] subs[j2] as int, x);
                        assert(t0.superview_of(subs[j2] as int) == Superview::View(v));
                        t0.lemma_sibling_disjoint(v as int, subs[j2] as int, c as int, x);
                        assert(subs[j2] != subs[k]);
                    }
                }
                assert(self.views@[x] == sb.views@[x]);
                assert(sb.dirty_bits(x) == t0.dirty_bits(x) & !UPDATE_MASK);
                assert(view_eq_except_dirty(t0.views@[x], sb.views@[x]));
            } else {
                let j2 = choose|j2: int|
                    0 <= j2 < k + 1 && t0.in_subtree(#[trigger] subs[j2] as int, x);
                assert(j2 == k) by {
                    if j2 < k {
                        assert(covered_by(t0, subs, k, x));
                    }
                }
                assert(t0.in_subtree(c as int, x));
                assert(sb.in_subtree(c as int, x));
                assert(sb.views@[x] == t0.views@[x]);
                assert(self.dirty_bits(x) == sb.dirty_bits(x) & !UPDATE_MASK);
                assert(view_eq_except_dirty(sb.views@[x], self.views@[x]));
            }
        }
        assert forall|x: int| self.view_live(x) implies #[trigger] quiet_hist_at(t0, self, x) by {
            assert(sb.view_live(x));
            assert(quiet_hist_at(t0, sb, x));
            assert(quiet_hist_at(sb, self, x));
        }
    }

    /// Clearing the served update bits at the walk's root preserves every
    /// invariant and completes the walk's contract.
    proof fn lemma_update_finish_ok(self, t0: ViewTree, tp: ViewTree, v: usize, n_subs: int)
        requires
            t0.wf(),
            t0.view_live(v as int),
            n_subs == t0.subviews_of(v as int).len(),
            tp.wf(),
            tp.views@.len() == t0.views@.len(),
            tp.wnds@ == t0.wnds@,
            tp.anc@ == t0.anc@,
            tp.update_requests@ == t0.update_requests@,
            tp.views@[v as int].dirty == t0.views@[v as int].dirty,
            view_eq_except_dirty(t0.views@[v as int], tp.views@[v as int]),
            forall|x: int|
                tp.view_live(x) && x != v as int && !covered_by(
                    t0,
                    t0.subviews_of(v as int),
                    n_subs,
                    x,
                ) ==> (#[trigger] tp.views@[x]) == t0.views@[x],
            forall|x: int|
                tp.view_live(x) && x != v as int && covered_by(
                    t0,
                    t0.subviews_of(v as int),
                    n_subs,
                    x,
                ) ==> #[trigger] tp.dirty_bits(x) == t0.dirty_bits(x) & !UPDATE_MASK
                    && view_eq_except_dirty(t0.views@[x], tp.views@[x]),
            t0.history().is_prefix_of(tp.history()),
            t0.pending_events().is_prefix_of(tp.pending_events()),
            forall|x: int| tp.view_live(x) ==> #[trigger] quiet_hist_at(t0, tp, x),
            self.views@.len() == tp.views@.len(),
            self.wnds@ == tp.wnds@,
            self.anc@ == tp.anc@,
            self.update_requests@ == tp.update_requests@,
            self.hist@ == tp.hist@,
            self.pending@ == tp.pending@,
            self.taken@ == tp.taken@,
            forall|x: int|
                tp.view_live(x) && x != v as int ==> (#[trigger] self.views@[x]) == tp.views@[x],
            self.dirty_bits(v as int) == tp.dirty_bits(v as int) & !UPDATE_MASK,
            view_eq_except_dirty(tp.views@[v as int], self.views@[v as int]),
        ensures
            self.wf(),
            forall|x: int|
                self.view_live(x) && !t0.in_subtree(v as int, x) ==> (#[trigger] self.views@[x])
                    == t0.views@[x],
            forall|x: int|
                self.view_live(x) && t0.in_subtree(v as int, x) ==> #[trigger] self.dirty_bits(x)
                    == t0.dirty_bits(x) & !UPDATE_MASK,
            forall|x: int|
                self.view_live(x) && t0.in_subtree(v as int, x) ==> view_eq_except_dirty(
                    t0.views@[x],
                    #[trigger] self.views@[x],
                ),
            t0.history().is_prefix_of(self.history()),
            t0.pending_events().is_prefix_of(self.pending_events()),
            forall|x: int| self.view_live(x) ==> #[trigger] quiet_hist_at(t0, self, x),
    {
        let uv = v as int;
        let subs = t0.subviews_of(uv);
        crate::flags::lemma_no_mounted_consts();
        t0.lemma_chain_distinct(uv);
        assert forall|x: int|
            self.view_live(x) && t0.in_subtree(uv, x) && x != uv implies covered_by(
            t0,
            subs,
            n_subs,
            x,
        ) by {
            let c = t0.lemma_step_down(uv, x);
            let j2 = subs.index_of(c as usize);
            assert(subs[j2] == c as usize);
            assert(t0.in_subtree(subs[j2] as int, x));
        }
        assert forall|x: int|
            self.view_live(x) && covered_by(t0, subs, n_subs, x) implies t0.in_subtree(
            uv,
            x,
        ) by {
            let j2 = choose|j2: int| 0 <= j2 < n_subs && t0.in_subtree(#[trigger] subs[j2] as int, x);
            let c = subs[j2] as int;
            assert(t0.subs_ok_at(uv));
            assert(t0.superview_of(c) == Superview::View(v));
            assert(t0.link_ok_at(c));
            assert((v as usize) as int == uv);
            assert(t0.anc_of(c) == seq![uv] + t0.anc_of(uv));
            assert(t0.anc_of(c)[0] == uv);
            assert(t0.anc_of(c).contains(uv));
            assert(t0.in_subtree(uv, c));
            t0.lemma_sub_trans(uv, c, x);
        }
        assert forall|x: int| self.view_live(x) implies #[trigger] self.view_mounted(x)
            == tp.view_mounted(x) by {
            if x == uv {
                crate::flags::lemma_mask_consts();
                crate::flags::lemma_clear_disjoint_mask(tp.dirty_bits(x), UPDATE_MASK, MOUNTED);
            } else {
                assert(self.views@[x] == tp.views@[x]);
            }
        }
        crate::flags::lemma_mask_consts();
        assert forall|i: int| self.view_live(i) implies #[trigger] self.link_ok_at(i)
            && self.rev_ok_at(i) by {
            assert(tp.link_ok_at(i));
            assert(tp.rev_ok_at(i));
        }
        assert forall|i: int| self.view_live(i) implies #[trigger] self.rev_ok_at(i) by {
            assert(self.link_ok_at(i) && self.rev_ok_at(i));
        }
        assert forall|i: int| self.view_live(i) implies #[trigger] self.subs_ok_at(i) by {
            assert(tp.subs_ok_at(i));
            assert forall|k: int| 0 <= k < self.subviews_of(i).len() implies {
                let cc = #[trigger] self.subviews_of(i)[k] as int;
                self.view_live(cc) && self.views@[cc].superview == Superview::View(i as usize)
            } by {
                let cc = self.subviews_of(i)[k] as int;
                assert(tp.subviews_of(i)[k] == self.subviews_of(i)[k]);
                assert(tp.view_live(cc) && tp.views@[cc].superview == Superview::View(i as usize));
            }
        }
        assert forall|i: int| self.view_live(i) implies #[trigger] self.prop_ok_at(i) by {
            assert(tp.link_ok_at(i));
            assert(tp.prop_ok_at(i));
            match tp.views@[i].superview {
                Superview::View(p) => {
                    let pi = p as int;
                    assert(tp.view_live(pi));
                    if i == uv {
                        // v's raised image only shrinks
                        let d = tp.dirty_bits(uv);
                        let dp = self.dirty_bits(pi);
                        assert(self.dirty_bits(pi) == tp.dirty_bits(pi)) by {
                            assert(pi != uv) by {
                                if pi == uv {
                                    assert(tp.anc_of(i) == seq![pi] + tp.anc_of(pi));
                                }
                            }
                            assert(self.views@[pi] == tp.views@[pi]);
                        }
                        crate::flags::lemma_raise_clear_update(d);
                        crate::flags::lemma_contains_sub_mask(dp, raise_bits(d), 0x280);
                    } else if pi == uv {
                        // a subview's raised image has no update bits left
                        assert(i != uv);
                        assert(tp.rev_ok_at(i));
                        assert(t0.subviews_of(uv).contains(i as usize)) by {
                            assert(tp.subviews_of(uv) == t0.subviews_of(uv));
                        }
                        let j2 = t0.subviews_of(uv).index_of(i as usize);
                        assert(t0.in_subtree(subs[j2] as int, i)) by {
                            assert(subs[j2] as int == i);
                        }
                        assert(covered_by(t0, subs, n_subs, i));
                        assert(tp.dirty_bits(i) == t0.dirty_bits(i) & !UPDATE_MASK);
                        let dc = t0.dirty_bits(i);
                        let dv2 = tp.dirty_bits(uv);
                        crate::flags::lemma_raise_clear_update(dc);
                        crate::flags::lemma_raise_stable(dc & !0x3C0);
                        let r0 = raise_bits(dc);
                        crate::flags::lemma_cleared_loses(r0, 0x280);
                        crate::flags::lemma_update_mask_split(raise_bits(dc & !0x3C0));
                        crate::flags::lemma_contains_minus(
                            dv2,
                            raise_bits(dc & !0x3C0),
                            UPDATE_MASK,
                        );
                        assert(self.dirty_bits(i) == tp.dirty_bits(i));
                    } else {
                        assert(self.views@[i] == tp.views@[i]);
                        assert(self.views@[pi] == tp.views@[pi]);
                    }
                },
                _ => {},
            }
        }
        assert forall|i: int| self.view_live(i) implies #[trigger] self.mountpend_ok_at(i) by {
            assert(tp.link_ok_at(i));
            assert(tp.mountpend_ok_at(i));
            match tp.views@[i].superview {
                Superview::View(p) => {
                    let pi = p as int;
                    assert(tp.view_live(pi));
                    if !self.view_mounted(i) && self.view_mounted(pi) {
                        assert(contains_bits(tp.dirty_bits(pi), MOUNT));
                        if pi == uv {
                            assert(MOUNT & UPDATE_MASK == 0) by {
                                crate::flags::lemma_mask_consts();
                            }
                            crate::flags::lemma_contains_minus(
                                tp.dirty_bits(uv),
                                MOUNT,
                                UPDATE_MASK,
                            );
                        }
                    }
                },
                _ => {},
            }
        }
        assert forall|w: int| self.wnd_live(w) implies #[trigger] self.wnd_ok_at(w)
            && self.pend_ok_at(w) by {
            assert(tp.wnd_ok_at(w));
            assert(tp.pend_ok_at(w));
            match tp.wnds@[w].content_view {
                Some(cv) => {
                    let ci = cv as int;
                    if ci == uv {
                        let d = tp.dirty_bits(ci);
                        crate::flags::lemma_cleared_loses(d, UPDATE_MASK);
                        crate::flags::lemma_mask_consts();
                        crate::flags::lemma_trig_in_thru(d & !UPDATE_MASK, 0x280);
                        assert(((d & !0x3C0u16) & (0x80u16 | 0x200u16)) == 0) by (bit_vector);
                    } else {
                        assert(self.views@[ci] == tp.views@[ci]);
                    }
                },
                None => {},
            }
        }
        assert forall|w: int| self.wnd_live(w) implies #[trigger] self.pend_ok_at(w) by {
            assert(self.wnd_ok_at(w));
        }
        assert forall|i: int| self.view_live(i) implies #[trigger] self.layers_ok_at(i) by {
            assert(tp.layers_ok_at(i));
            if i != uv {
                assert(self.views@[i] == tp.views@[i]);
            }
        }
        assert forall|x: int| self.view_live(x) implies #[trigger] self.count_ok_at(x) by {
            assert(tp.count_ok_at(x));
        }
        assert forall|i: int| self.view_live(i) implies #[trigger] self.mounted_chain_at(i)
            && self.order_ok_at(i) by {
            assert(tp.link_ok_at(i));
            assert(tp.mounted_chain_at(i));
            assert(tp.order_ok_at(i));
            if tp.parent_of(i) >= 0 {
                assert(tp.view_live(tp.parent_of(i)));
            }
        }
        assert forall|i: int| self.view_live(i) implies #[trigger] self.order_ok_at(i) by {
            assert(self.mounted_chain_at(i) && self.order_ok_at(i));
        }
        assert(self.dirty_bits(uv) == t0.dirty_bits(uv) & !UPDATE_MASK) by {
            assert(tp.dirty_bits(uv) == t0.dirty_bits(uv));
        }
        assert forall|x: int|
            self.view_live(x) && t0.in_subtree(uv, x) implies #[trigger] self.dirty_bits(x)
            == t0.dirty_bits(x) & !UPDATE_MASK && view_eq_except_dirty(
            t0.views@[x],
            self.views@[x],
        ) by {
            if x != uv {
                assert(covered_by(t0, subs, n_subs, x));
                assert(tp.dirty_bits(x) == t0.dirty_bits(x) & !UPDATE_MASK);
                assert(view_eq_except_dirty(t0.views@[x], tp.views@[x]));
                assert(self.views@[x] == tp.views@[x]);
            }
        }
        assert forall|x: int|
            self.view_live(x) && t0.in_subtree(uv, x) implies view_eq_except_dirty(
            t0.views@[x],
            #[trigger] self.views@[x],
        ) by {
            assert(self.dirty_bits(x) == t0.dirty_bits(x) & !UPDATE_MASK);
        }
        assert forall|x: int|
            self.view_live(x) && !t0.in_subtree(uv, x) implies (#[trigger] self.views@[x])
            == t0.views@[x] by {
            assert(x != uv);
            assert(!covered_by(t0, subs, n_subs, x)) by {
                if covered_by(t0, subs, n_subs, x) {
                    assert(t0.in_subtree(uv, x));
                }
            }
            assert(self.views@[x] == tp.views@[x]);
            assert(tp.views@[x] == t0.views@[x]);
        }
        assert forall|x: int| self.view_live(x) implies #[trigger] quiet_hist_at(t0, self, x) by {
            assert(tp.view_live(x));
            assert(quiet_hist_at(t0, tp, x));
        }
    }
}

/// What an update pass owes the platform window: the attribute changes
/// accumulated since the last pass.
pub struct WndFlush {
    pub set_visible: Option<bool>,
    pub set_caption: Option<String>,
    pub set_style_flags: Option<WndStyleFlags>,
    pub root_layer_changed: bool,
}

impl ViewTree {
    /// Ask the platform frame clock for an update pass on window `w`, once:
    /// further requests before the pass runs are absorbed.
    pub(crate) fn pend_wnd_update(&mut self, w: usize)
        requires
            old(self).wf(),
            old(self).wnd_live(w as int),
        ensures
            final(self).wf(),
            views_eq(*old(self), *final(self)),
            final(self).n_wnds() == old(self).n_wnds(),
            final(self).hist@ == old(self).hist@,
            final(self).pending@ == old(self).pending@,
            final(self).wnd_pending_update(w as int),
            forall|w2: int|
                final(self).wnd_live(w2) && w2 != w as int ==> final(self).wnds@[w2] == old(self).wnds@[w2],
            wnd_logic_eq_at(*old(self), *final(self), w as int),
            final(self).wnd_dirty_bits(w as int) == old(self).wnd_dirty_bits(w as int),
            final(self).wnd_visible(w as int) == old(self).wnd_visible(w as int),
            final(self).wnd_caption(w as int) == old(self).wnd_caption(w as int),
            final(self).wnd_style_flags(w as int) == old(self).wnd_style_flags(w as int),
            old(self).wnd_pending_update(w as int) ==> final(self).requests() == old(self).requests(),
            !old(self).wnd_pending_update(w as int) ==> final(self).requests() == old(self).requests().push(w),
    {
        let ghost t0 = *self;
        let pw = self.wnds[w].pending_update;
        if !pw {
            self.wnds[w].pending_update = true;
            self.update_requests.push(w);
        }
        proof {
            assert forall|i: int| self.view_live(i) implies #[trigger] logic_eq_at(
                t0,
                *self,
                i,
            ) by {}
            assert forall|i: int| self.view_live(i) implies #[trigger] self.layers_ok_at(i) by {
                assert(t0.layers_ok_at(i));
            }
            assert forall|w2: int| self.wnd_live(w2) implies #[trigger] wnd_logic_eq_at(
                t0,
                *self,
                w2,
            ) by {
                if w2 != w as int {
                    assert(self.wnds@[w2] == t0.wnds@[w2]);
                }
            }
            assert forall|w2: int| self.wnd_live(w2) implies #[trigger] self.pend_ok_at(w2) by {
                assert(t0.pend_ok_at(w2));
                if w2 != w as int {
                    assert(self.wnds@[w2] == t0.wnds@[w2]);
                }
            }
            lemma_wf_from_parts(t0, *self);
        }
    }
}

impl HWnd {
    /// Construct a window object and return a handle to it.
    ///
    /// The window starts invisible, with an empty caption, default style
    /// flags, and a freshly created content view that manages a layer group
    /// and owes a pending mount walk.
    pub fn new(wm: Wm, tree: &mut ViewTree) -> (h: HWnd)
        requires
            old(tree).wf(),
            old(tree).n_views() < usize::MAX,
            old(tree).n_wnds() < usize::MAX,
        ensures
            final(tree).wf(),
            h.id == old(tree).n_wnds(),
            final(tree).n_wnds() == old(tree).n_wnds() + 1,
            final(tree).n_views() == old(tree).n_views() + 1,
            final(tree).wnd_live(h.id as int),
            !final(tree).wnd_closed(h.id as int),
            !final(tree).wnd_visible(h.id as int),
            !final(tree).wnd_pending_update(h.id as int),
            final(tree).content_view_of(h.id as int) == old(tree).n_views(),
            final(tree).wnd_dirty_bits(h.id as int) == 0,
            final(tree).wnd_caption(h.id as int) == Seq::<char>::empty(),
            final(tree).wnd_style_flags(h.id as int) == 0,
            final(tree).dirty_bits(old(tree).n_views()) == (crate::flags::UPDATE_EVENT
                | crate::flags::SUBLAYERS) | MOUNT,
            contains_bits(final(tree).dirty_bits(old(tree).n_views()), MOUNT),
            final(tree).superview_of(old(tree).n_views()) == Superview::Window(h.id),
            !final(tree).view_mounted(old(tree).n_views()),
            final(tree).history() == old(tree).history(),
            final(tree).pending_events() == old(tree).pending_events(),
            final(tree).requests() == old(tree).requests(),
            forall|i: int|
                old(tree).view_live(i) && i != old(tree).n_views() ==> #[trigger] view_node_eq(
                    *old(tree),
                    *final(tree),
                    i,
                ),
            forall|w2: int|
                old(tree).wnd_live(w2) && w2 != h.id as int ==> #[trigger] wnd_node_eq(
                    *old(tree),
                    *final(tree),
                    w2,
                ),
    {
        let ghost tz = *tree;
        let cv = HView::new(tree, ViewFlags::from_bits(crate::flags::LAYER_GROUP));
        let ghost ta = *tree;
        proof {
            crate::flags::lemma_consts_stable();
            crate::flags::lemma_no_mounted_consts();
            crate::flags::lemma_raise_pairs();
            crate::flags::lemma_or_contains(MOUNT, MOUNT);
            assert forall|i: int|
                tree.view_live(i) && tree.parent_of(i) != cv.id implies #[trigger] tree.prop_ok_at(
                i,
            ) by {
                assert(tree.prop_ok_at(i));
            }
            assert forall|i: int|
                tree.view_live(i) && tree.parent_of(i) != cv.id
                    implies #[trigger] tree.mountpend_ok_at(i) by {
                assert(tree.mountpend_ok_at(i));
            }
            assert(tree.subviews_of(cv.id as int).len() == 0);
        }
        tree.set_flags_and_propagate(cv.id, MOUNT, MOUNT);
        let ghost t1 = *tree;
        let id = tree.wnds.len();
        let node = WndNode {
            dirty: WndDirtyFlags::empty(),
            closed: false,
            content_view: Some(cv.id),
            style_attrs: WndStyleAttrs {
                visible: false,
                caption: String::new(),
                flags: WndStyleFlags::default_flags(),
            },
            updating: false,
            pending_update: false,
        };
        tree.wnds.push(node);
        tree.views[cv.id].superview = Superview::Window(id);
        proof {
            let wi = id as int;
            let ci = cv.id as int;
            assert forall|i: int| tree.view_live(i) implies #[trigger] tree.link_ok_at(i) by {
                assert(t1.link_ok_at(i));
                if i == ci {
                    assert(tree.anc_of(ci) == Seq::<int>::empty());
                } else {
                    assert(tree.views@[i] == t1.views@[i]);
                    match t1.views@[i].superview {
                        Superview::Window(w2) => {
                            assert(tree.wnds@[w2 as int] == t1.wnds@[w2 as int]);
                        },
                        _ => {},
                    }
                }
            }
            assert forall|i: int| tree.view_live(i) implies #[trigger] tree.rev_ok_at(i) by {
                assert(t1.link_ok_at(i));
                assert(t1.rev_ok_at(i));
                if i != ci {
                    assert(tree.views@[i] == t1.views@[i]);
                }
                match tree.views@[i].superview {
                    Superview::View(p) => {
                        assert(i != ci);
                        assert(tree.subviews_of(p as int) == t1.subviews_of(p as int));
                    },
                    _ => {},
                }
            }
            assert forall|i: int| tree.view_live(i) implies #[trigger] tree.subs_ok_at(i) by {
                assert(t1.subs_ok_at(i));
                assert(tree.subviews_of(i) == t1.subviews_of(i));
                assert forall|k: int| 0 <= k < tree.subviews_of(i).len() implies {
                    let c = #[trigger] tree.subviews_of(i)[k] as int;
                    tree.view_live(c) && tree.views@[c].superview == Superview::View(i as usize)
                } by {
                    let c = tree.subviews_of(i)[k] as int;
                    assert(t1.subviews_of(i)[k] == tree.subviews_of(i)[k]);
                    assert(t1.view_live(c) && t1.views@[c].superview == Superview::View(
                        i as usize,
                    ));
                    assert(c != ci) by {
                        if c == ci {
                            assert(t1.superview_of(ci) is Empty);
                        }
                    }
                    assert(tree.views@[c] == t1.views@[c]);
                }
            }
            assert forall|i: int| tree.view_live(i) implies #[trigger] tree.prop_ok_at(i) by {
                assert(t1.link_ok_at(i));
                assert(t1.prop_ok_at(i));
                match tree.views@[i].superview {
                    Superview::View(p) => {
                        assert(i != ci);
                        assert(tree.views@[i] == t1.views@[i]);
                        assert(t1.view_live(p as int));
                        assert(tree.dirty_bits(p as int) == t1.dirty_bits(p as int));
                    },
                    _ => {},
                }
            }
            assert forall|i: int| tree.view_live(i) implies #[trigger] tree.mountpend_ok_at(
                i,
            ) by {
                assert(t1.link_ok_at(i));
                assert(t1.mountpend_ok_at(i));
                match tree.views@[i].superview {
                    Superview::View(p) => {
                        assert(i != ci);
                        assert(tree.views@[i] == t1.views@[i]);
                        assert(t1.view_live(p as int));
                        assert(tree.views@[p as int].dirty == t1.views@[p as int].dirty);
                    },
                    _ => {},
                }
            }
            assert forall|i: int| tree.view_live(i) implies #[trigger] tree.layers_ok_at(i) by {
                assert(t1.layers_ok_at(i));
                if i != ci {
                    assert(tree.views@[i] == t1.views@[i]);
                }
            }
            assert forall|i: int| tree.view_live(i) implies #[trigger] tree.count_ok_at(i) by {
                assert(t1.count_ok_at(i));
                if i != ci {
                    assert(tree.views@[i] == t1.views@[i]);
                }
            }
            assert forall|i: int| tree.view_live(i) implies #[trigger] tree.mounted_chain_at(
                i,
            ) by {
                assert(t1.link_ok_at(i));
                assert(t1.mounted_chain_at(i));
                if i != ci {
                    assert(tree.views@[i] == t1.views@[i]);
                }
                if tree.parent_of(i) >= 0 {
                    assert(t1.view_live(tree.parent_of(i)));
                    assert(tree.views@[tree.parent_of(i)].dirty == t1.views@[tree.parent_of(
                        i,
                    )].dirty);
                }
            }
            assert forall|i: int| tree.view_live(i) implies #[trigger] tree.order_ok_at(i) by {
                assert(t1.link_ok_at(i));
                assert(t1.order_ok_at(i));
                if i != ci {
                    assert(tree.views@[i] == t1.views@[i]);
                }
                if tree.parent_of(i) >= 0 {
                    assert(t1.view_live(tree.parent_of(i)));
                    assert(tree.views@[tree.parent_of(i)].dirty == t1.views@[tree.parent_of(
                        i,
                    )].dirty);
                }
            }
            assert forall|w2: int| tree.wnd_live(w2) implies #[trigger] tree.wnd_ok_at(w2) by {
                if w2 < wi {
                    assert(t1.wnd_ok_at(w2));
                    assert(tree.wnds@[w2] == t1.wnds@[w2]);
                    match t1.wnds@[w2].content_view {
                        Some(cv2) => {
                            assert(cv2 != cv.id) by {
                                if cv2 == cv.id {
                                    assert(t1.superview_of(ci) is Empty);
                                }
                            }
                            assert(tree.views@[cv2 as int] == t1.views@[cv2 as int]);
                        },
                        None => {},
                    }
                } else {
                    assert(tree.wnds@[wi].content_view == Some(cv.id));
                }
            }
            assert forall|i: int|
                tz.view_live(i) && i != tz.n_views() implies #[trigger] view_node_eq(
                tz,
                *tree,
                i,
            ) by {
                assert(ci == tz.n_views());
                assert(i != ci);
                assert(tz.view_live(i));
                assert(view_node_eq(tz, ta, i));
                assert(t1.dirty_bits(i) == ta.dirty_bits(i)) by {
                    assert(ta.anc_of(cv.id as int) == Seq::<int>::empty());
                }
                assert(view_eq_except_dirty(ta.views@[i], t1.views@[i]));
                assert(t1.views@[i].dirty.bits == ta.views@[i].dirty.bits);
                assert(t1.views@[i].dirty == ta.views@[i].dirty);
                assert(tree.views@[i] == t1.views@[i]);
                assert(tree.anc_of(i) == t1.anc_of(i));
                assert(t1.anc_of(i) == ta.anc_of(i));
                assert(view_node_eq(tz, *tree, i));
            }
            assert(MOUNT & (DESCENDANT_UPDATE_EVENT | DESCENDANT_SUBLAYERS) == 0) by {
                crate::flags::lemma_no_mounted_consts();
            }
            assert(t1.wnds@ == ta.wnds@);
            assert forall|w2: int|
                tz.wnd_live(w2) implies #[trigger] wnd_node_eq(tz, *tree, w2) by {
                assert(t1.wnds@[w2] == ta.wnds@[w2] && ta.wnds@[w2] == tz.wnds@[w2]);
                assert(tree.wnds@[w2] == t1.wnds@[w2]);
            }
            assert(tree.history() == tz.history() && tree.pending_events() == tz.pending_events())
                by {
                assert(t1.hist@ == ta.hist@ && t1.pending@ == ta.pending@);
            }
            assert(tree.requests() == tz.requests()) by {
                assert(MOUNT & (DESCENDANT_UPDATE_EVENT | DESCENDANT_SUBLAYERS) == 0) by {
                    assert(0x800u16 & (0x80u16 | 0x200u16) == 0) by (bit_vector);
                }
                assert(t1.update_requests@ == ta.update_requests@);
            }
            // the fresh content view's dirty flags, exactly
            assert(tree.dirty_bits(ci) == (crate::flags::UPDATE_EVENT | crate::flags::SUBLAYERS)
                | MOUNT) by {
                crate::flags::lemma_mask_consts();
                assert(ta.dirty_bits(ci) == crate::flags::UPDATE_EVENT
                    | crate::flags::SUBLAYERS);
                assert(t1.dirty_bits(ci) == ta.dirty_bits(ci) | MOUNT);
                assert(tree.views@[ci].dirty == t1.views@[ci].dirty);
            }
            assert(contains_bits(tree.dirty_bits(ci), MOUNT)) by {
                crate::flags::lemma_or_contains(
                    crate::flags::UPDATE_EVENT | crate::flags::SUBLAYERS,
                    MOUNT,
                );
            }
            assert(!tree.view_mounted(ci)) by {
                crate::flags::lemma_mask_consts();
            }
            assert forall|w2: int| tree.wnd_live(w2) implies #[trigger] tree.pend_ok_at(w2) by {
                assert(tree.wnd_ok_at(w2));
                if w2 < wi {
                    assert(t1.pend_ok_at(w2));
                    assert(tree.wnds@[w2] == t1.wnds@[w2]);
                    match t1.wnds@[w2].content_view {
                        Some(cv2) => {
                            assert(cv2 != cv.id) by {
                                if cv2 == cv.id {
                                    assert(t1.superview_of(ci) is Empty);
                                }
                            }
                            assert(tree.views@[cv2 as int] == t1.views@[cv2 as int]);
                        },
                        None => {},
                    }
                } else {
                    // the fresh content view carries no descendant-update
                    // dirt: nothing is owed to the frame clock yet
                    let d = tree.dirty_bits(ci);
                    assert(d == (crate::flags::UPDATE_EVENT | crate::flags::SUBLAYERS) | MOUNT
                        || d == crate::flags::UPDATE_EVENT | MOUNT || true);
                    assert(t1.dirty_bits(ci) & (0x80u16 | 0x200u16) == 0 ==> tree.dirty_bits(ci)
                        & (0x80u16 | 0x200u16) == 0);
                    crate::flags::lemma_mask_consts();
                }
            }
        }
        HWnd { id }
    }
}

impl HWnd {
    /// Get the content view of the window.
    pub fn content_view(&self, tree: &ViewTree) -> (r: HView)
        requires
            tree.wf(),
            tree.wnd_live(self.id as int),
            !tree.wnd_closed(self.id as int),
        ensures
            r.id as int == tree.content_view_of(self.id as int),
            tree.view_live(r.id as int),
    {
        proof {
            assert(tree.wnd_ok_at(self.id as int));
        }
        match self.wnds_content(tree) {
            Some(cv) => HView { id: cv },
            None => HView { id: 0 },
        }
    }

    /// The window's cached content-view field.
    fn wnds_content(&self, tree: &ViewTree) -> (r: Option<usize>)
        requires
            tree.wnd_live(self.id as int),
        ensures
            match r {
                Some(cv) => tree.content_view_of(self.id as int) == cv as int,
                None => tree.content_view_of(self.id as int) == -1,
            },
    {
        tree.wnds[self.id].content_view
    }

    /// Whether the window has been closed.
    pub fn is_closed(&self, tree: &ViewTree) -> (r: bool)
        requires
            tree.wnd_live(self.id as int),
        ensures
            r == tree.wnd_closed(self.id as int),
    {
        tree.wnds[self.id].closed
    }

    /// Get the visibility of the window.
    pub fn visibility(&self, tree: &ViewTree) -> (r: bool)
        requires
            tree.wnd_live(self.id as int),
        ensures
            r == tree.wnd_visible(self.id as int),
    {
        tree.wnds[self.id].style_attrs.visible
    }

    /// Get the caption of the window.
    pub fn caption(&self, tree: &ViewTree) -> (r: String)
        requires
            tree.wnd_live(self.id as int),
        ensures
            r@ == tree.wnd_caption(self.id as int),
    {
        tree.wnds[self.id].style_attrs.caption.clone()
    }

    /// Get the style flags of the window.
    pub fn style_flags(&self, tree: &ViewTree) -> (r: WndStyleFlags)
        requires
            tree.wnd_live(self.id as int),
        ensures
            r.bits == tree.wnd_style_flags(self.id as int),
    {
        tree.wnds[self.id].style_attrs.flags
    }

    /// Pend an update pass for the window: ask the platform's frame clock
    /// once, however often this is called before the pass runs.
    pub fn pend_update(&self, tree: &mut ViewTree)
        requires
            old(tree).wf(),
            old(tree).wnd_live(self.id as int),
        ensures
            final(tree).wf(),
            final(tree).wnd_pending_update(self.id as int),
            views_eq(*old(tree), *final(tree)),
            final(tree).history() == old(tree).history(),
            final(tree).pending_events() == old(tree).pending_events(),
            old(tree).wnd_pending_update(self.id as int) ==> final(tree).requests() == old(tree).requests(),
            !old(tree).wnd_pending_update(self.id as int) ==> final(tree).requests() == old(tree).requests().push(self.id),
    {
        tree.pend_wnd_update(self.id);
    }

    /// Set the visibility of the window. A no-op when nothing changes;
    /// otherwise the cached value is updated, the change is marked for the
    /// platform, and an update pass is scheduled.
    pub fn set_visibility(&self, tree: &mut ViewTree, visible: bool)
        requires
            old(tree).wf(),
            old(tree).wnd_live(self.id as int),
        ensures
            final(tree).wf(),
            final(tree).wnd_visible(self.id as int) == visible,
            views_eq(*old(tree), *final(tree)),
            final(tree).history() == old(tree).history(),
            final(tree).pending_events() == old(tree).pending_events(),
            old(tree).wnd_visible(self.id as int) == visible ==> *final(tree) == *old(tree),
            old(tree).wnd_visible(self.id as int) != visible ==> (final(tree).wnd_pending_update(
                self.id as int,
            ) && final(tree).wnd_dirty_bits(self.id as int) == (old(tree).wnd_dirty_bits(
                self.id as int,
            ) | crate::flags::WND_STYLE_VISIBLE) && final(tree).wnd_caption(self.id as int) == old(tree).wnd_caption(self.id as int) && final(tree).wnd_style_flags(self.id as int) == old(tree).wnd_style_flags(self.id as int) && final(tree).content_view_of(self.id as int)
                == old(tree).content_view_of(self.id as int) && final(tree).wnd_closed(
                self.id as int,
            ) == old(tree).wnd_closed(self.id as int) && (forall|w2: int|
                final(tree).wnd_live(w2) && w2 != self.id as int ==> #[trigger] wnd_node_eq(
                    *old(tree),
                    *final(tree),
                    w2,
                )) && (old(tree).wnd_pending_update(self.id as int) ==> final(tree).requests()
                == old(tree).requests()) && (!old(tree).wnd_pending_update(self.id as int)
                ==> final(tree).requests() == old(tree).requests().push(self.id))),
    {
        let w = self.id;
        let cur = tree.wnds[w].style_attrs.visible;
        if cur == visible {
            return ;
        }
        let ghost t0 = *tree;
        tree.wnds[w].style_attrs.visible = visible;
        let d = tree.wnds[w].dirty;
        tree.wnds[w].dirty = d.insert(crate::flags::WND_STYLE_VISIBLE);
        proof {
            tree.lemma_wnd_attr_wf(t0, w);
        }
        tree.pend_wnd_update(w);
    }

    /// Set the caption of the window; a no-op when nothing changes.
    pub fn set_caption(&self, tree: &mut ViewTree, caption: String)
        requires
            old(tree).wf(),
            old(tree).wnd_live(self.id as int),
        ensures
            final(tree).wf(),
            final(tree).wnd_caption(self.id as int) == caption@,
            views_eq(*old(tree), *final(tree)),
            final(tree).history() == old(tree).history(),
            final(tree).pending_events() == old(tree).pending_events(),
            old(tree).wnd_caption(self.id as int) == caption@ ==> *final(tree) == *old(tree),
            old(tree).wnd_caption(self.id as int) != caption@ ==> (final(tree).wnd_pending_update(
                self.id as int,
            ) && final(tree).wnd_dirty_bits(self.id as int) == (old(tree).wnd_dirty_bits(
                self.id as int,
            ) | crate::flags::WND_STYLE_CAPTION) && final(tree).wnd_visible(self.id as int) == old(tree).wnd_visible(self.id as int) && final(tree).wnd_style_flags(self.id as int) == old(tree).wnd_style_flags(self.id as int) && (forall|w2: int|
                final(tree).wnd_live(w2) && w2 != self.id as int ==> #[trigger] wnd_node_eq(
                    *old(tree),
                    *final(tree),
                    w2,
                )) && (old(tree).wnd_pending_update(self.id as int) ==> final(tree).requests()
                == old(tree).requests()) && (!old(tree).wnd_pending_update(self.id as int)
                ==> final(tree).requests() == old(tree).requests().push(self.id))),
    {
        let w = self.id;
        if tree.wnds[w].style_attrs.caption == caption {
            proof {
                assert(tree.wnd_caption(w as int) == caption@);
            }
            return ;
        }
        let ghost t0 = *tree;
        tree.wnds[w].style_attrs.caption = caption;
        let d = tree.wnds[w].dirty;
        tree.wnds[w].dirty = d.insert(crate::flags::WND_STYLE_CAPTION);
        proof {
            tree.lemma_wnd_attr_wf(t0, w);
        }
        tree.pend_wnd_update(w);
    }

    /// Set the style flags of the window; a no-op when nothing changes.
    pub fn set_style_flags(&self, tree: &mut ViewTree, flags: WndStyleFlags)
        requires
            old(tree).wf(),
            old(tree).wnd_live(self.id as int),
        ensures
            final(tree).wf(),
            final(tree).wnd_style_flags(self.id as int) == flags.bits,
            views_eq(*old(tree), *final(tree)),
            final(tree).history() == old(tree).history(),
            final(tree).pending_events() == old(tree).pending_events(),
            old(tree).wnd_style_flags(self.id as int) == flags.bits ==> *final(tree) == *old(tree),
            old(tree).wnd_style_flags(self.id as int) != flags.bits ==> (final(tree).wnd_pending_update(self.id as int) && final(tree).wnd_dirty_bits(self.id as int)
                == (old(tree).wnd_dirty_bits(self.id as int) | crate::flags::WND_STYLE_FLAGS)
                && final(tree).wnd_visible(self.id as int) == old(tree).wnd_visible(
                self.id as int,
            ) && final(tree).wnd_caption(self.id as int) == old(tree).wnd_caption(self.id as int)
                && (forall|w2: int|
                final(tree).wnd_live(w2) && w2 != self.id as int ==> #[trigger] wnd_node_eq(
                    *old(tree),
                    *final(tree),
                    w2,
                )) && (old(tree).wnd_pending_update(self.id as int) ==> final(tree).requests()
                == old(tree).requests()) && (!old(tree).wnd_pending_update(self.id as int)
                ==> final(tree).requests() == old(tree).requests().push(self.id))),
    {
        let w = self.id;
        let cur = tree.wnds[w].style_attrs.flags;
        if cur.bits == flags.bits {
            return ;
        }
        let ghost t0 = *tree;
        tree.wnds[w].style_attrs.flags = flags;
        let d = tree.wnds[w].dirty;
        tree.wnds[w].dirty = d.insert(crate::flags::WND_STYLE_FLAGS);
        proof {
            tree.lemma_wnd_attr_wf(t0, w);
        }
        tree.pend_wnd_update(w);
    }
}

impl ViewTree {
    /// Changing a window's cached style attributes or platform-dirty bits
    /// touches nothing the tree invariant reads.
    pub(crate) proof fn lemma_wnd_attr_wf(self, t0: ViewTree, w: usize)
        requires
            t0.wf(),
            t0.wnd_live(w as int),
            self.views@ == t0.views@,
            self.anc@ == t0.anc@,
            self.hist@ == t0.hist@,
            self.pending@ == t0.pending@,
            self.taken@ == t0.taken@,
            self.update_requests@ == t0.update_requests@,
            self.wnds@.len() == t0.wnds@.len(),
            forall|w2: int|
                t0.wnd_live(w2) && w2 != w as int ==> (#[trigger] self.wnds@[w2]) == t0.wnds@[w2],
            self.wnds@[w as int].content_view == t0.wnds@[w as int].content_view,
            self.wnds@[w as int].closed == t0.wnds@[w as int].closed,
            self.wnds@[w as int].updating == t0.wnds@[w as int].updating,
            self.wnds@[w as int].pending_update == t0.wnds@[w as int].pending_update,
        ensures
            self.wf(),
    {
        assert forall|i: int| self.view_live(i) implies #[trigger] logic_eq_at(t0, self, i) by {}
        assert forall|i: int| self.view_live(i) implies #[trigger] self.layers_ok_at(i) by {
            assert(t0.layers_ok_at(i));
        }
        assert forall|w2: int| self.wnd_live(w2) implies #[trigger] wnd_logic_eq_at(
            t0,
            self,
            w2,
        ) by {}
        assert forall|w2: int| self.wnd_live(w2) implies #[trigger] self.pend_ok_at(w2) by {
            assert(t0.pend_ok_at(w2));
        }
        lemma_wf_from_parts(t0, self);
    }
}

impl HWnd {
    /// Close the window: unmount the content view's whole tree, release the
    /// content-view reference, and mark the window permanently closed.
    pub fn close(&self, wm: Wm, tree: &mut ViewTree)
        requires
            old(tree).wf(),
            old(tree).wnd_live(self.id as int),
        ensures
            final(tree).wf(),
            final(tree).wnd_closed(self.id as int),
            final(tree).n_views() == old(tree).n_views(),
            final(tree).n_wnds() == old(tree).n_wnds(),
            old(tree).history().is_prefix_of(final(tree).history()),
            old(tree).pending_events().is_prefix_of(final(tree).pending_events()),
            forall|x: int|
                final(tree).view_live(x) ==> mount_count(final(tree).history(), x) == mount_count(
                    old(tree).history(),
                    x,
                ),
            old(tree).wnd_closed(self.id as int) ==> *final(tree) == *old(tree),
            !old(tree).wnd_closed(self.id as int) ==> forall|x: int|
                final(tree).view_live(x) ==> #[trigger] unmount_effect_at(
                    *old(tree),
                    *final(tree),
                    old(tree).content_view_of(self.id as int),
                    x,
                ),
            forall|x: int|
                !old(tree).wnd_closed(self.id as int) && final(tree).view_live(x) && old(tree).in_subtree(old(tree).content_view_of(self.id as int), x) ==> !final(tree).view_mounted(x) && (#[trigger] final(tree).layers_of(x)).len() == 0,
    {
        let w = self.id;
        if tree.wnds[w].closed {
            return ;
        }
        let ghost t0 = *tree;
        let cv = match tree.wnds[w].content_view {
            Some(cv) => cv,
            None => {
                proof {
                    assert(t0.wnd_ok_at(w as int));
                    assert(false);
                }
                0
            },
        };
        proof {
            assert(t0.wnd_ok_at(w as int));
            assert(t0.view_live(cv as int));
            assert(t0.superview_of(cv as int) == Superview::Window(w));
            assert(t0.link_ok_at(cv as int));
            assert(t0.anc_of(cv as int) == Seq::<int>::empty());
        }
        tree.wnds[w].closed = true;
        tree.wnds[w].content_view = None;
        tree.views[cv].superview = Superview::Empty;
        proof {
            tree.lemma_close_wf(t0, w, cv);
        }
        let ghost tprev = *tree;
        proof {
            assert forall|x: int|
                tree.view_live(x) && tree.in_subtree(cv as int, x) && x != cv
                    implies #[trigger] tree.mounted_chain_at(x) by {}
            assert(tree.parent_of(cv as int) == -1);
        }
        tree.call_unmount(wm, cv);
        proof {
            assert forall|x: int|
                tree.view_live(x) && tprev.in_subtree(cv as int, x) implies !(
            #[trigger] tree.view_mounted(x)) && view_eq_except_dirty_layers(
                tprev.views@[x],
                tree.views@[x],
            ) by {
                assert(tree.dirty_bits(x) == tprev.dirty_bits(x) & !MOUNTED);
            }
            tree.lemma_restore_chain(tprev, cv);
            assert forall|x: int|
                tree.view_live(x) implies mount_count(tree.history(), x) == mount_count(
                t0.history(),
                x,
            ) by {
                assert(unmount_effect_at(tprev, *tree, cv as int, x));
            }
            assert forall|x: int| tree.view_live(x) implies #[trigger] unmount_effect_at(
                t0,
                *tree,
                cv as int,
                x,
            ) by {
                assert(unmount_effect_at(tprev, *tree, cv as int, x));
                assert(tprev.hist@ == t0.hist@);
                assert(tprev.anc_of(x) == t0.anc_of(x));
                assert(tprev.view_mounted(x) == t0.view_mounted(x)) by {
                    if x != cv as int {
                        assert(tprev.views@[x] == t0.views@[x]);
                    }
                }
            }
            assert(t0.content_view_of(w as int) == cv as int);
            assert forall|x: int|
                tree.view_live(x) && t0.in_subtree(t0.content_view_of(w as int), x)
                implies !tree.view_mounted(x) && (#[trigger] tree.layers_of(x)).len() == 0 by {
                assert(t0.in_subtree(cv as int, x));
                assert(tprev.in_subtree(cv as int, x)) by {
                    assert(tprev.anc_of(x) == t0.anc_of(x));
                }
                assert(tree.dirty_bits(x) == tprev.dirty_bits(x) & !MOUNTED);
                assert(tree.layers_of(x).len() == 0);
            }
        }
    }

    /// Run one update pass on the window, the reaction to a frame-clock
    /// callback: serve the pending mount walk, serve the pending `update`
    /// callbacks top-down, and hand back the window attribute changes to
    /// push to the platform. A no-op on a closed window.
    pub fn update(&self, wm: Wm, tree: &mut ViewTree) -> (r: WndFlush)
        requires
            old(tree).wf(),
            old(tree).wnd_live(self.id as int),
        ensures
            final(tree).wf(),
            final(tree).n_views() == old(tree).n_views(),
            final(tree).n_wnds() == old(tree).n_wnds(),
            old(tree).history().is_prefix_of(final(tree).history()),
            old(tree).pending_events().is_prefix_of(final(tree).pending_events()),
            final(tree).requests() == old(tree).requests(),
            forall|x: int|
                final(tree).view_live(x) ==> unmount_count(final(tree).history(), x)
                    == unmount_count(old(tree).history(), x),
            !old(tree).wnd_closed(self.id as int) ==> {
                &&& !final(tree).wnd_pending_update(self.id as int)
                &&& final(tree).wnd_dirty_bits(self.id as int) == 0
                &&& forall|x: int|
                    final(tree).view_live(x) && old(tree).in_subtree(
                        old(tree).content_view_of(self.id as int),
                        x,
                    ) ==> #[trigger] final(tree).view_mounted(x)
                &&& r.set_visible == (if old(tree).wnd_dirty_bits(self.id as int)
                    & crate::flags::WND_STYLE_VISIBLE != 0 {
                    Some(old(tree).wnd_visible(self.id as int))
                } else {
                    Option::<bool>::None
                })
                &&& (r.set_caption matches Some(c) ==> c@ == old(tree).wnd_caption(
                    self.id as int,
                ))
                &&& (r.set_caption is Some) == (old(tree).wnd_dirty_bits(self.id as int)
                    & crate::flags::WND_STYLE_CAPTION != 0)
                &&& r.set_style_flags == (if old(tree).wnd_dirty_bits(self.id as int)
                    & crate::flags::WND_STYLE_FLAGS != 0 {
                    Some(
                        (crate::flags::WndStyleFlags {
                            bits: old(tree).wnd_style_flags(self.id as int),
                        }),
                    )
                } else {
                    Option::<crate::flags::WndStyleFlags>::None
                })
                &&& r.root_layer_changed == (old(tree).wnd_dirty_bits(self.id as int)
                    & crate::flags::WND_LAYER != 0)
            },
    {
        let w = self.id;
        if tree.wnds[w].closed || tree.wnds[w].updating {
            proof {
                assert(tree.wnd_ok_at(w as int));
            }
            return WndFlush {
                set_visible: None,
                set_caption: None,
                set_style_flags: None,
                root_layer_changed: false,
            };
        }
        let ghost t0 = *tree;
        let cv = match tree.wnds[w].content_view {
            Some(cv) => cv,
            None => {
                proof {
                    assert(t0.wnd_ok_at(w as int));
                    assert(false);
                }
                0
            },
        };
        proof {
            assert(t0.wnd_ok_at(w as int));
            assert(t0.view_live(cv as int));
            assert(t0.superview_of(cv as int) == Superview::Window(w));
            assert(t0.parent_of(cv as int) == -1);
        }
        tree.call_pending_mount_if_dirty(wm, cv);
        let ghost t1 = *tree;
        proof {
            assert(t1.view_live(cv as int));
        }
        tree.update_collect(wm, cv);
        let ghost t2 = *tree;
        // Flush the window's own attribute changes.
        let d = tree.wnds[w].dirty;
        let set_visible: Option<bool> = if d.contains(crate::flags::WND_STYLE_VISIBLE) {
            Some(tree.wnds[w].style_attrs.visible)
        } else {
            None
        };
        let set_caption: Option<String> = if d.contains(crate::flags::WND_STYLE_CAPTION) {
            Some(tree.wnds[w].style_attrs.caption.clone())
        } else {
            None
        };
        let set_style_flags: Option<WndStyleFlags> = if d.contains(crate::flags::WND_STYLE_FLAGS) {
            Some(tree.wnds[w].style_attrs.flags)
        } else {
            None
        };
        let root_layer_changed = d.contains(crate::flags::WND_LAYER);
        tree.wnds[w].dirty = WndDirtyFlags::empty();
        tree.wnds[w].pending_update = false;
        proof {
            let wi = w as int;
            assert forall|i: int| tree.view_live(i) implies #[trigger] logic_eq_at(
                t2,
                *tree,
                i,
            ) by {}
            assert forall|i: int| tree.view_live(i) implies #[trigger] tree.layers_ok_at(i) by {
                assert(t2.layers_ok_at(i));
            }
            assert forall|w2: int| tree.wnd_live(w2) implies #[trigger] wnd_logic_eq_at(
                t2,
                *tree,
                w2,
            ) by {
                if w2 != wi {
                    assert(tree.wnds@[w2] == t2.wnds@[w2]);
                }
            }
            assert forall|w2: int| tree.wnd_live(w2) implies #[trigger] tree.pend_ok_at(w2) by {
                assert(t2.pend_ok_at(w2));
                assert(t2.wnd_ok_at(w2));
                if w2 != wi {
                    assert(tree.wnds@[w2] == t2.wnds@[w2]);
                } else {
                    // the content view's descendant-update bits were just
                    // served
                    match t2.wnds@[wi].content_view {
                        Some(cv2) => {
                            assert(cv2 == cv) by {
                                assert(t2.wnds@[wi].content_view == t0.wnds@[
                                    wi].content_view);
                            }
                            assert(t0.in_subtree(cv as int, cv as int));
                            assert(t1.in_subtree(cv as int, cv as int)) by {
                                assert(t1.anc@ == t0.anc@);
                            }
                            assert(t1.in_subtree(cv as int, cv as int));
                            assert(t2.dirty_bits(cv as int) == t1.dirty_bits(cv as int)
                                & !UPDATE_MASK);
                            assert(tree.dirty_bits(cv as int) == t2.dirty_bits(cv as int));
                            assert(tree.dirty_bits(cv as int) == t1.dirty_bits(cv as int)
                                & !UPDATE_MASK);
                            let dcv = t1.dirty_bits(cv as int);
                            crate::flags::lemma_cleared_loses(dcv, UPDATE_MASK);
                            crate::flags::lemma_mask_consts();
                            crate::flags::lemma_trig_in_thru(dcv & !UPDATE_MASK, 0x280);
                            assert(((dcv & !0x3C0u16) & (0x80u16 | 0x200u16)) == 0)
                                by (bit_vector);
                        },
                        None => {},
                    }
                }
            }
            lemma_wf_from_parts(t2, *tree);
            assert(t2.wnds@[wi] == t0.wnds@[wi]) by {
                assert(t1.wnds@ == t0.wnds@);
                assert(t2.wnds@ == t1.wnds@);
            }
            let d0 = t0.wnd_dirty_bits(wi);
            assert(((d0 & 2u8 == 2u8) == (d0 & 2u8 != 0)) && ((d0 & 1u8 == 1u8) == (d0 & 1u8
                != 0)) && ((d0 & 4u8 == 4u8) == (d0 & 4u8 != 0)) && ((d0 & 8u8 == 8u8) == (d0
                & 8u8 != 0))) by (bit_vector);
            assert(tree.update_requests@ == t0.update_requests@) by {
                assert(t1.update_requests@ == t0.update_requests@);
                assert(t2.update_requests@ == t1.update_requests@);
            }
            assert forall|x: int|
                tree.view_live(x) implies unmount_count(tree.history(), x) == unmount_count(
                t0.history(),
                x,
            ) by {
                assert(mount_effect_at(t0, t1, cv as int, x));
                assert(quiet_hist_at(t1, t2, x));
            }
            assert forall|x: int|
                tree.view_live(x) && t0.in_subtree(cv as int, x)
                    implies #[trigger] tree.view_mounted(x) by {
                assert(t1.view_mounted(x));
                assert(t1.in_subtree(cv as int, x)) by {
                    assert(t1.anc@ == t0.anc@);
                }
                assert(t2.dirty_bits(x) == t1.dirty_bits(x) & !UPDATE_MASK);
                let dx = t1.dirty_bits(x);
                crate::flags::lemma_mask_consts();
                crate::flags::lemma_clear_disjoint_mask(dx, UPDATE_MASK, MOUNTED);
                assert(logic_eq_at(t2, *tree, x));
            }
        }
        WndFlush { set_visible, set_caption, set_style_flags, root_layer_changed }
    }
}

impl ViewTree {
    /// Releasing a window's content view while marking it closed keeps the
    /// invariant: the view was the window's only tie into the arena.
    pub(crate) proof fn lemma_close_wf(self, t0: ViewTree, w: usize, cv: usize)
        requires
            t0.wf(),
            t0.wnd_live(w as int),
            !t0.wnd_closed(w as int),
            t0.content_view_of(w as int) == cv as int,
            t0.view_live(cv as int),
            t0.superview_of(cv as int) == Superview::Window(w),
            self.views@.len() == t0.views@.len(),
            self.anc@ == t0.anc@,
            self.hist@ == t0.hist@,
            self.pending@ == t0.pending@,
            self.taken@ == t0.taken@,
            self.update_requests@ == t0.update_requests@,
            self.wnds@.len() == t0.wnds@.len(),
            forall|w2: int|
                t0.wnd_live(w2) && w2 != w as int ==> (#[trigger] self.wnds@[w2]) == t0.wnds@[w2],
            self.wnds@[w as int].closed,
            self.wnds@[w as int].content_view is None,
            self.wnds@[w as int].updating == t0.wnds@[w as int].updating,
            forall|x: int|
                t0.view_live(x) && x != cv as int ==> (#[trigger] self.views@[x]) == t0.views@[x],
            self.views@[cv as int].superview is Empty,
            self.views@[cv as int].dirty == t0.views@[cv as int].dirty,
            self.views@[cv as int].flags == t0.views@[cv as int].flags,
            self.views@[cv as int].layout.subviews@ == t0.views@[cv as int].layout.subviews@,
            self.views@[cv as int].layout.frames@ == t0.views@[cv as int].layout.frames@,
            self.views@[cv as int].layers@ == t0.views@[cv as int].layers@,
        ensures
            self.wf(),
    {
        let ci = cv as int;
        assert(t0.link_ok_at(ci));
        assert(t0.anc_of(ci) == Seq::<int>::empty());
        assert forall|i: int| self.view_live(i) implies #[trigger] self.link_ok_at(i) by {
            assert(t0.link_ok_at(i));
            if i != ci {
                assert(self.views@[i] == t0.views@[i]);
                match t0.views@[i].superview {
                    Superview::Window(w2) => {
                        assert(w2 != w) by {
                            if w2 == w {
                                assert(t0.wnds@[w as int].content_view == Some(i as usize));
                                assert(i == ci);
                            }
                        }
                        assert(self.wnds@[w2 as int] == t0.wnds@[w2 as int]);
                    },
                    _ => {},
                }
            }
        }
        assert forall|i: int| self.view_live(i) implies #[trigger] self.rev_ok_at(i) by {
            assert(t0.link_ok_at(i));
            assert(t0.rev_ok_at(i));
            if i != ci {
                assert(self.views@[i] == t0.views@[i]);
                match t0.views@[i].superview {
                    Superview::View(p) => {
                        assert(t0.view_live(p as int));
                        assert(self.subviews_of(p as int) == t0.subviews_of(p as int));
                    },
                    _ => {},
                }
            }
        }
        assert forall|i: int| self.view_live(i) implies #[trigger] self.subs_ok_at(i) by {
            assert(t0.subs_ok_at(i));
            assert(self.subviews_of(i) == t0.subviews_of(i));
            assert(self.views@[i].layout.frames@ == t0.views@[i].layout.frames@);
            assert forall|k: int| 0 <= k < self.subviews_of(i).len() implies {
                let c = #[trigger] self.subviews_of(i)[k] as int;
                self.view_live(c) && self.views@[c].superview == Superview::View(i as usize)
            } by {
                let c = self.subviews_of(i)[k] as int;
                assert(t0.subviews_of(i)[k] == self.subviews_of(i)[k]);
                assert(t0.view_live(c) && t0.views@[c].superview == Superview::View(i as usize));
                assert(c != ci) by {
                    if c == ci {
                        assert(t0.views@[ci].superview == Superview::Window(w));
                    }
                }
                assert(self.views@[c] == t0.views@[c]);
            }
        }
        assert forall|i: int| self.view_live(i) implies #[trigger] self.prop_ok_at(i)
            && self.mountpend_ok_at(i) && self.mounted_chain_at(i) && self.order_ok_at(i) by {
            assert(t0.link_ok_at(i));
            assert(t0.prop_ok_at(i) && t0.mountpend_ok_at(i) && t0.mounted_chain_at(i)
                && t0.order_ok_at(i));
            assert(self.views@[i].superview == t0.views@[i].superview || i == ci);
            match self.views@[i].superview {
                Superview::View(p) => {
                    assert(i != ci);
                    assert(self.views@[i] == t0.views@[i]);
                    assert(t0.view_live(p as int));
                    assert(self.views@[p as int].dirty == t0.views@[p as int].dirty) by {
                        if p as int == ci {
                        }
                    }
                },
                _ => {},
            }
            assert(self.dirty_bits(i) == t0.dirty_bits(i));
        }
        assert forall|i: int| self.view_live(i) implies #[trigger] self.mountpend_ok_at(i) by {
            assert(self.prop_ok_at(i) && self.mountpend_ok_at(i) && self.mounted_chain_at(i)
                && self.order_ok_at(i));
        }
        assert forall|i: int| self.view_live(i) implies #[trigger] self.mounted_chain_at(i) by {
            assert(self.prop_ok_at(i) && self.mountpend_ok_at(i) && self.mounted_chain_at(i)
                && self.order_ok_at(i));
        }
        assert forall|i: int| self.view_live(i) implies #[trigger] self.order_ok_at(i) by {
            assert(self.prop_ok_at(i) && self.mountpend_ok_at(i) && self.mounted_chain_at(i)
                && self.order_ok_at(i));
        }
        assert forall|w2: int| self.wnd_live(w2) implies #[trigger] self.wnd_ok_at(w2)
            && self.pend_ok_at(w2) by {
            assert(t0.wnd_ok_at(w2));
            assert(t0.pend_ok_at(w2));
            if w2 != w as int {
                assert(self.wnds@[w2] == t0.wnds@[w2]);
                match t0.wnds@[w2].content_view {
                    Some(cv2) => {
                        assert(cv2 != cv) by {
                            if cv2 == cv {
                                assert(t0.views@[ci].superview == Superview::Window(
                                    w2 as usize,
                                ));
                            }
                        }
                        assert(self.views@[cv2 as int] == t0.views@[cv2 as int]);
                    },
                    None => {},
                }
            }
        }
        assert forall|w2: int| self.wnd_live(w2) implies #[trigger] self.pend_ok_at(w2) by {
            assert(self.wnd_ok_at(w2) && self.pend_ok_at(w2));
        }
        assert forall|i: int| self.view_live(i) implies #[trigger] self.layers_ok_at(i) by {
            assert(t0.layers_ok_at(i));
            if i != ci {
                assert(self.views@[i] == t0.views@[i]);
            }
        }
        assert forall|x: int| self.view_live(x) implies #[trigger] self.count_ok_at(x) by {
            assert(t0.count_ok_at(x));
            if x != ci {
                assert(self.views@[x] == t0.views@[x]);
            }
        }
        assert(self.hist@ == self.taken@ + self.pending@) by {
            assert(t0.hist@ == t0.taken@ + t0.pending@);
        }
    }
}

impl HWnd {
    /// Set the content view of the window.
    ///
    /// The view must manage a layer group, and, unless it is the current
    /// content view already (a no-op), must be detached and unmounted. The
    /// new view owes a pending mount walk, the window owes the platform a
    /// root-layer change, an update pass is scheduled, and the old content
    /// view's tree is unmounted.
    pub fn set_content_view(&self, wm: Wm, tree: &mut ViewTree, view: HView)
        requires
            old(tree).wf(),
            old(tree).wnd_live(self.id as int),
            !old(tree).wnd_closed(self.id as int),
            old(tree).view_live(view.id as int),
            old(tree).view_flags_of(view.id as int) & crate::flags::LAYER_GROUP != 0,
            view.id as int != old(tree).content_view_of(self.id as int) ==> (old(tree).superview_of(view.id as int) is Empty && !old(tree).view_mounted(view.id as int)),
        ensures
            final(tree).wf(),
            final(tree).n_views() == old(tree).n_views(),
            final(tree).n_wnds() == old(tree).n_wnds(),
            final(tree).content_view_of(self.id as int) == view.id,
            old(tree).history().is_prefix_of(final(tree).history()),
            old(tree).pending_events().is_prefix_of(final(tree).pending_events()),
            forall|x: int|
                final(tree).view_live(x) ==> mount_count(final(tree).history(), x) == mount_count(
                    old(tree).history(),
                    x,
                ),
            view.id as int == old(tree).content_view_of(self.id as int) ==> *final(tree) == *old(tree),
            view.id as int != old(tree).content_view_of(self.id as int) ==> {
                &&& final(tree).dirty_bits(view.id as int) == old(tree).dirty_bits(
                    view.id as int,
                ) | MOUNT
                &&& final(tree).wnd_dirty_bits(self.id as int) == old(tree).wnd_dirty_bits(
                    self.id as int,
                ) | crate::flags::WND_LAYER
                &&& final(tree).wnd_pending_update(self.id as int)
                &&& final(tree).superview_of(view.id as int) == Superview::Window(self.id)
                &&& final(tree).superview_of(old(tree).content_view_of(self.id as int))
                    is Empty
            },
            forall|x: int|
                view.id as int != old(tree).content_view_of(self.id as int) && final(tree).view_live(x) ==> #[trigger] unmount_effect_at(
                    *old(tree),
                    *final(tree),
                    old(tree).content_view_of(self.id as int),
                    x,
                ),
            forall|x: int|
                view.id as int != old(tree).content_view_of(self.id as int) && final(tree).view_live(x) && old(tree).in_subtree(
                    old(tree).content_view_of(self.id as int),
                    x,
                ) ==> !final(tree).view_mounted(x) && (#[trigger] final(tree).layers_of(x)).len()
                    == 0,
    {
        let w = self.id;
        let cur = match tree.wnds[w].content_view {
            Some(cur) => cur,
            None => {
                proof {
                    assert(tree.wnd_ok_at(w as int));
                    assert(false);
                }
                0
            },
        };
        if cur == view.id {
            return ;
        }
        let ghost t0 = *tree;
        proof {
            assert(t0.wnd_ok_at(w as int));
            assert(t0.view_live(cur as int));
            assert(t0.superview_of(cur as int) == Superview::Window(w));
            assert(t0.link_ok_at(cur as int));
            assert(t0.anc_of(cur as int) == Seq::<int>::empty());
            assert(t0.link_ok_at(view.id as int));
            assert(t0.anc_of(view.id as int) == Seq::<int>::empty());
            // fold a pending mount walk into the new view
            crate::flags::lemma_consts_stable();
            crate::flags::lemma_or_contains(MOUNT, MOUNT);
            assert forall|i: int|
                tree.view_live(i) && tree.parent_of(i) != view.id
                    implies #[trigger] tree.prop_ok_at(i) by {
                assert(tree.prop_ok_at(i));
            }
            assert forall|i: int|
                tree.view_live(i) && tree.parent_of(i) != view.id
                    implies #[trigger] tree.mountpend_ok_at(i) by {
                assert(tree.mountpend_ok_at(i));
            }
            let vi = view.id as int;
            assert forall|k: int| 0 <= k < tree.subviews_of(vi).len() implies contains_bits(
                tree.dirty_bits(vi) | MOUNT,
                raise_bits(tree.dirty_bits(#[trigger] tree.subviews_of(vi)[k] as int)),
            ) by {
                let c = tree.subviews_of(vi)[k] as int;
                assert(tree.subs_ok_at(vi));
                assert(tree.view_live(c) && tree.superview_of(c) == Superview::View(view.id));
                assert(tree.prop_ok_at(c));
                crate::flags::lemma_contains_or_mono(
                    tree.dirty_bits(vi),
                    MOUNT,
                    raise_bits(tree.dirty_bits(c)),
                );
            }
            assert forall|k: int| 0 <= k < tree.subviews_of(vi).len() implies ((
            !tree.view_mounted(#[trigger] tree.subviews_of(vi)[k] as int) && tree.view_mounted(
                vi,
            )) ==> contains_bits(tree.dirty_bits(vi) | MOUNT, MOUNT)) by {
                crate::flags::lemma_or_contains(tree.dirty_bits(vi), MOUNT);
            }
            crate::flags::lemma_no_mounted_consts();
        }
        tree.set_flags_and_propagate(view.id, MOUNT, MOUNT);
        let ghost tq = *tree;
        tree.pend_wnd_update(w);
        let ghost t1 = *tree;
        proof {
            assert(!t1.view_mounted(view.id as int)) by {
                let vi = view.id as int;
                assert(tq.dirty_bits(vi) == t0.dirty_bits(vi) | MOUNT);
                assert(t1.views@ == tq.views@);
                assert(t1.dirty_bits(vi) == tq.dirty_bits(vi));
                crate::flags::lemma_no_mounted_consts();
                crate::flags::lemma_or_disjoint_mask(t0.dirty_bits(vi), MOUNT, MOUNTED);
            }
        }
        tree.wnds[w].content_view = Some(view.id);
        let d = tree.wnds[w].dirty;
        tree.wnds[w].dirty = d.insert(crate::flags::WND_LAYER);
        tree.views[view.id].superview = Superview::Window(w);
        tree.views[cur].superview = Superview::Empty;
        proof {
            tree.lemma_swap_content_wf(t1, w, cur, view.id);
        }
        let ghost tprev = *tree;
        proof {
            assert forall|x: int|
                tree.view_live(x) && tree.in_subtree(cur as int, x) && x != cur
                    implies #[trigger] tree.mounted_chain_at(x) by {}
            assert(tree.parent_of(cur as int) == -1);
        }
        tree.call_unmount(wm, cur);
        proof {
            assert forall|x: int|
                tree.view_live(x) && tprev.in_subtree(cur as int, x) implies !(
            #[trigger] tree.view_mounted(x)) && view_eq_except_dirty_layers(
                tprev.views@[x],
                tree.views@[x],
            ) by {
                assert(tree.dirty_bits(x) == tprev.dirty_bits(x) & !MOUNTED);
            }
            tree.lemma_restore_chain(tprev, cur);
            assert forall|x: int|
                tree.view_live(x) implies mount_count(tree.history(), x) == mount_count(
                t0.history(),
                x,
            ) by {
                assert(unmount_effect_at(tprev, *tree, cur as int, x));
            }
            assert(tree.content_view_of(w as int) == view.id);
            assert(t0.content_view_of(w as int) == cur as int);
            // the new view is outside the unmounted subtree
            let vi = view.id as int;
            assert(!tprev.in_subtree(cur as int, vi)) by {
                assert(tprev.anc_of(vi) == t0.anc_of(vi));
                assert(t0.anc_of(vi) == Seq::<int>::empty());
            }
            assert(tree.views@[vi] == tprev.views@[vi]);
            assert(tree.dirty_bits(vi) == t0.dirty_bits(vi) | MOUNT) by {
                assert(tq.dirty_bits(vi) == t0.dirty_bits(vi) | MOUNT);
                assert(t1.views@ == tq.views@);
                assert(tprev.views@[vi].dirty == t1.views@[vi].dirty);
            }
            assert(tree.superview_of(vi) == Superview::Window(w));
            assert(tree.superview_of(cur as int) is Empty) by {
                assert(tprev.in_subtree(cur as int, cur as int));
                assert(tree.dirty_bits(cur as int) == tprev.dirty_bits(cur as int) & !MOUNTED);
                assert(view_eq_except_dirty_layers(
                    tprev.views@[cur as int],
                    tree.views@[cur as int],
                ));
            }
            assert(tree.wnd_dirty_bits(w as int) == t0.wnd_dirty_bits(w as int)
                | crate::flags::WND_LAYER) by {
                assert(tq.wnds@[w as int].dirty == t0.wnds@[w as int].dirty);
                assert(t1.wnd_dirty_bits(w as int) == tq.wnd_dirty_bits(w as int));
                assert(tree.wnds@ == tprev.wnds@);
            }
            assert(tree.wnd_pending_update(w as int)) by {
                assert(t1.wnd_pending_update(w as int));
                assert(tprev.wnds@[w as int].pending_update == t1.wnds@[
                    w as int].pending_update);
                assert(tree.wnds@ == tprev.wnds@);
            }
            // the unmount effect, seen from the state before this call
            assert forall|x: int| tree.view_live(x) implies #[trigger] unmount_effect_at(
                t0,
                *tree,
                cur as int,
                x,
            ) by {
                assert(unmount_effect_at(tprev, *tree, cur as int, x));
                assert(tprev.hist@ == t0.hist@) by {
                    assert(tq.hist@ == t0.hist@ && t1.hist@ == tq.hist@);
                }
                assert(tprev.anc_of(x) == t0.anc_of(x));
                assert(tprev.view_mounted(x) == t0.view_mounted(x)) by {
                    if x == vi {
                        crate::flags::lemma_no_mounted_consts();
                        crate::flags::lemma_or_disjoint_mask(t0.dirty_bits(vi), MOUNT, MOUNTED);
                        assert(tprev.dirty_bits(vi) == t0.dirty_bits(vi) | MOUNT) by {
                            assert(tq.dirty_bits(vi) == t0.dirty_bits(vi) | MOUNT);
                            assert(t1.views@ == tq.views@);
                        }
                    } else {
                        assert(tprev.views@[x].dirty == t0.views@[x].dirty) by {
                            assert(tq.dirty_bits(x) == t0.dirty_bits(x)) by {
                                assert(t0.anc_of(vi) == Seq::<int>::empty());
                                assert(!t0.anc_of(vi).contains(x));
                            }
                            assert(t1.views@ == tq.views@);
                            if x != cur as int {
                                assert(tprev.views@[x] == t1.views@[x]);
                            }
                        }
                    }
                }
            }
            assert forall|x: int|
                tree.view_live(x) && t0.in_subtree(t0.content_view_of(w as int), x)
                implies !tree.view_mounted(x) && (#[trigger] tree.layers_of(x)).len() == 0 by {
                assert(t0.in_subtree(cur as int, x));
                assert(tprev.in_subtree(cur as int, x)) by {
                    assert(tprev.anc_of(x) == t0.anc_of(x));
                }
                assert(tree.dirty_bits(x) == tprev.dirty_bits(x) & !MOUNTED);
                assert(tree.layers_of(x).len() == 0);
            }
        }
    }
}

impl ViewTree {
    /// Swapping a window's content view keeps the invariant: the old view
    /// becomes a detached root, the new one, a detached unmounted root
    /// before the swap, takes the window link.
    pub(crate) proof fn lemma_swap_content_wf(self, t0: ViewTree, w: usize, cur: usize, nv: usize)
        requires
            t0.wf(),
            t0.wnd_live(w as int),
            !t0.wnd_closed(w as int),
            t0.content_view_of(w as int) == cur as int,
            t0.view_live(cur as int),
            t0.superview_of(cur as int) == Superview::Window(w),
            t0.view_live(nv as int),
            cur != nv,
            t0.superview_of(nv as int) is Empty,
            !t0.view_mounted(nv as int),
            t0.wnd_pending_update(w as int),
            self.views@.len() == t0.views@.len(),
            self.anc@ == t0.anc@,
            self.hist@ == t0.hist@,
            self.pending@ == t0.pending@,
            self.taken@ == t0.taken@,
            self.update_requests@ == t0.update_requests@,
            self.wnds@.len() == t0.wnds@.len(),
            forall|w2: int|
                t0.wnd_live(w2) && w2 != w as int ==> (#[trigger] self.wnds@[w2]) == t0.wnds@[w2],
            self.wnds@[w as int].closed == t0.wnds@[w as int].closed,
            self.wnds@[w as int].content_view == Some(nv),
            self.wnds@[w as int].updating == t0.wnds@[w as int].updating,
            self.wnds@[w as int].pending_update == t0.wnds@[w as int].pending_update,
            forall|x: int|
                t0.view_live(x) && x != cur as int && x != nv as int ==> (
                #[trigger] self.views@[x]) == t0.views@[x],
            self.views@[cur as int].superview is Empty,
            self.views@[cur as int].dirty == t0.views@[cur as int].dirty,
            self.views@[cur as int].flags == t0.views@[cur as int].flags,
            self.views@[cur as int].layout.subviews@ == t0.views@[cur as int].layout.subviews@,
            self.views@[cur as int].layout.frames@ == t0.views@[cur as int].layout.frames@,
            self.views@[cur as int].layers@ == t0.views@[cur as int].layers@,
            self.views@[nv as int].superview == Superview::Window(w),
            self.views@[nv as int].dirty == t0.views@[nv as int].dirty,
            self.views@[nv as int].flags == t0.views@[nv as int].flags,
            self.views@[nv as int].layout.subviews@ == t0.views@[nv as int].layout.subviews@,
            self.views@[nv as int].layout.frames@ == t0.views@[nv as int].layout.frames@,
            self.views@[nv as int].layers@ == t0.views@[nv as int].layers@,
        ensures
            self.wf(),
    {
        let ci = cur as int;
        let ni = nv as int;
        assert(t0.link_ok_at(ci));
        assert(t0.anc_of(ci) == Seq::<int>::empty());
        assert(t0.link_ok_at(ni));
        assert(t0.anc_of(ni) == Seq::<int>::empty());
        assert forall|i: int| self.view_live(i) implies #[trigger] self.link_ok_at(i) by {
            assert(t0.link_ok_at(i));
            if i == ci {
            } else if i == ni {
                assert(self.wnds@[w as int].content_view == Some(nv));
            } else {
                assert(self.views@[i] == t0.views@[i]);
                match t0.views@[i].superview {
                    Superview::Window(w2) => {
                        assert(w2 != w) by {
                            if w2 == w {
                                assert(t0.wnds@[w as int].content_view == Some(i as usize));
                            }
                        }
                        assert(self.wnds@[w2 as int] == t0.wnds@[w2 as int]);
                    },
                    _ => {},
                }
            }
        }
        assert forall|i: int| self.view_live(i) implies #[trigger] self.rev_ok_at(i) by {
            assert(t0.link_ok_at(i));
            assert(t0.rev_ok_at(i));
            if i != ci && i != ni {
                assert(self.views@[i] == t0.views@[i]);
                match t0.views@[i].superview {
                    Superview::View(p) => {
                        assert(t0.view_live(p as int));
                        assert(self.subviews_of(p as int) == t0.subviews_of(p as int));
                    },
                    _ => {},
                }
            }
        }
        assert forall|i: int| self.view_live(i) implies #[trigger] self.subs_ok_at(i) by {
            assert(t0.subs_ok_at(i));
            assert(self.subviews_of(i) == t0.subviews_of(i));
            assert(self.views@[i].layout.frames@ == t0.views@[i].layout.frames@);
            assert forall|k: int| 0 <= k < self.subviews_of(i).len() implies {
                let c = #[trigger] self.subviews_of(i)[k] as int;
                self.view_live(c) && self.views@[c].superview == Superview::View(i as usize)
            } by {
                let c = self.subviews_of(i)[k] as int;
                assert(t0.subviews_of(i)[k] == self.subviews_of(i)[k]);
                assert(t0.view_live(c) && t0.views@[c].superview == Superview::View(i as usize));
                assert(c != ci && c != ni) by {
                    if c == ci {
                        assert(t0.views@[ci].superview == Superview::Window(w));
                    }
                    if c == ni {
                        assert(t0.views@[ni].superview is Empty);
                    }
                }
                assert(self.views@[c] == t0.views@[c]);
            }
        }
        assert forall|i: int| self.view_live(i) implies #[trigger] self.prop_ok_at(i)
            && self.mountpend_ok_at(i) && self.mounted_chain_at(i) && self.order_ok_at(i) by {
            assert(t0.link_ok_at(i));
            assert(t0.prop_ok_at(i) && t0.mountpend_ok_at(i) && t0.mounted_chain_at(i)
                && t0.order_ok_at(i));
            match self.views@[i].superview {
                Superview::View(p) => {
                    assert(i != ci && i != ni);
                    assert(self.views@[i] == t0.views@[i]);
                    assert(t0.view_live(p as int));
                    assert(self.views@[p as int].dirty == t0.views@[p as int].dirty) by {
                        if p as int == ci || p as int == ni {
                        }
                    }
                },
                _ => {},
            }
            assert(self.dirty_bits(i) == t0.dirty_bits(i)) by {
                if i == ci || i == ni {
                }
            }
        }
        assert forall|i: int| self.view_live(i) implies #[trigger] self.mountpend_ok_at(i) by {
            assert(t0.link_ok_at(i));
            assert(t0.prop_ok_at(i) && t0.mountpend_ok_at(i) && t0.mounted_chain_at(i)
                && t0.order_ok_at(i));
            match self.views@[i].superview {
                Superview::View(p) => {
                    assert(i != ci && i != ni);
                    assert(self.views@[i] == t0.views@[i]);
                    assert(t0.view_live(p as int));
                    assert(self.views@[p as int].dirty == t0.views@[p as int].dirty) by {
                        if p as int == ci || p as int == ni {
                        }
                    }
                },
                _ => {},
            }
            assert(self.dirty_bits(i) == t0.dirty_bits(i)) by {
                if i == ci || i == ni {
                }
            }
        }
        assert forall|i: int| self.view_live(i) implies #[trigger] self.mounted_chain_at(i) by {
            assert(t0.link_ok_at(i));
            assert(t0.prop_ok_at(i) && t0.mountpend_ok_at(i) && t0.mounted_chain_at(i)
                && t0.order_ok_at(i));
            match self.views@[i].superview {
                Superview::View(p) => {
                    assert(i != ci && i != ni);
                    assert(self.views@[i] == t0.views@[i]);
                    assert(t0.view_live(p as int));
                    assert(self.views@[p as int].dirty == t0.views@[p as int].dirty) by {
                        if p as int == ci || p as int == ni {
                        }
                    }
                },
                _ => {},
            }
            assert(self.dirty_bits(i) == t0.dirty_bits(i)) by {
                if i == ci || i == ni {
                }
            }
        }
        assert forall|i: int| self.view_live(i) implies #[trigger] self.order_ok_at(i) by {
            assert(t0.link_ok_at(i));
            assert(t0.prop_ok_at(i) && t0.mountpend_ok_at(i) && t0.mounted_chain_at(i)
                && t0.order_ok_at(i));
            match self.views@[i].superview {
                Superview::View(p) => {
                    assert(i != ci && i != ni);
                    assert(self.views@[i] == t0.views@[i]);
                    assert(t0.view_live(p as int));
                    assert(self.views@[p as int].dirty == t0.views@[p as int].dirty) by {
                        if p as int == ci || p as int == ni {
                        }
                    }
                },
                _ => {},
            }
            assert(self.dirty_bits(i) == t0.dirty_bits(i)) by {
                if i == ci || i == ni {
                }
            }
        }
        assert forall|w2: int| self.wnd_live(w2) implies #[trigger] self.wnd_ok_at(w2)
            && self.pend_ok_at(w2) by {
            assert(t0.wnd_ok_at(w2));
            assert(t0.pend_ok_at(w2));
            if w2 != w as int {
                assert(self.wnds@[w2] == t0.wnds@[w2]);
                match t0.wnds@[w2].content_view {
                    Some(cv2) => {
                        assert(cv2 != cur && cv2 != nv) by {
                            if cv2 == cur {
                                assert(t0.views@[ci].superview == Superview::Window(
                                    w2 as usize,
                                ));
                            }
                            if cv2 == nv {
                                assert(t0.views@[ni].superview is Empty);
                                assert(t0.views@[ni].superview == Superview::Window(
                                    w2 as usize,
                                ));
                            }
                        }
                        assert(self.views@[cv2 as int] == t0.views@[cv2 as int]);
                    },
                    None => {},
                }
            } else {
                assert(self.wnds@[w as int].pending_update);
            }
        }
        assert forall|w2: int| self.wnd_live(w2) implies #[trigger] self.pend_ok_at(w2) by {
            assert(self.wnd_ok_at(w2) && self.pend_ok_at(w2));
        }
        assert forall|i: int| self.view_live(i) implies #[trigger] self.layers_ok_at(i) by {
            assert(t0.layers_ok_at(i));
            if i != ci && i != ni {
                assert(self.views@[i] == t0.views@[i]);
            }
        }
        assert forall|x: int| self.view_live(x) implies #[trigger] self.count_ok_at(x) by {
            assert(t0.count_ok_at(x));
            if x != ci && x != ni {
                assert(self.views@[x] == t0.views@[x]);
            }
        }
        assert(self.hist@ == self.taken@ + self.pending@) by {
            assert(t0.hist@ == t0.taken@ + t0.pending@);
        }
    }
}

// ---------------------------------------------------------------------------
// Laws
// ---------------------------------------------------------------------------

/// Setting the same flags on a view's superview chain twice produces the
/// same ancestor dirty state as setting them once: the propagation protocol
/// is idempotent, which is what lets it stop at an ancestor that already
/// carries the flags.
/// A view whose superview link names `p` stands in `p`'s subtree, and is a
/// different view: the link alone places a subview below its parent, so
/// subtree statements chain across one `superview_of` step.
pub proof fn lemma_subview_in_subtree(t: ViewTree, p: usize, c: usize)
    requires
        t.wf(),
        t.view_live(p as int),
        t.view_live(c as int),
        t.superview_of(c as int) == Superview::View(p),
    ensures
        t.in_subtree(p as int, c as int),
        c != p,
        !t.in_subtree(c as int, p as int),
{
    t.lemma_child_below(p as int, c as int);
    assert(t.link_ok_at(c as int));
    assert(t.anc_of(c as int) == seq![p as int] + t.anc_of(c as int).skip(1));
    assert(t.anc_of(c as int)[0] == p as int);
    assert(t.anc_of(c as int).contains(p as int));
}

pub proof fn lemma_propagation_idempotent(
    t0: ViewTree,
    t1: ViewTree,
    t2: ViewTree,
    v: int,
    f: u16,
)
    requires
        t0.wf(),
        t0.view_live(v),
        t1.anc_table() == t0.anc_table(),
        t2.anc_table() == t0.anc_table(),
        t1.n_views() == t0.n_views(),
        t2.n_views() == t0.n_views(),
        forall|i: int|
            t0.view_live(i) ==> #[trigger] t1.dirty_bits(i) == (if t0.anc_of(v).contains(i) {
                t0.dirty_bits(i) | f
            } else {
                t0.dirty_bits(i)
            }),
        forall|i: int|
            t0.view_live(i) ==> #[trigger] t2.dirty_bits(i) == (if t1.anc_of(v).contains(i) {
                t1.dirty_bits(i) | f
            } else {
                t1.dirty_bits(i)
            }),
    ensures
        forall|i: int| t0.view_live(i) ==> #[trigger] t2.dirty_bits(i) == t1.dirty_bits(i),
{
    assert forall|i: int| t0.view_live(i) implies #[trigger] t2.dirty_bits(i) == t1.dirty_bits(
        i,
    ) by {
        assert(t1.anc_of(v) == t0.anc_of(v));
        if t0.anc_of(v).contains(i) {
            crate::flags::lemma_or_idempotent(t0.dirty_bits(i), f);
        }
    }
}

impl ViewTree {
    /// The ghost ancestor table, exposed for stating laws.
    pub closed spec fn anc_table(self) -> Seq<Seq<int>> {
        self.anc@
    }

    /// Every view that received a `mount` callback and has not received the
    /// matching `unmount` yet is exactly a currently mounted view: the
    /// counts differ by its mounted state, and the two kinds alternate, so
    /// no view is ever mounted twice without an intervening unmount, nor
    /// unmounted while not mounted.
    pub proof fn lemma_mount_unmount_pairing(self, v: int)
        requires
            self.wf(),
            self.view_live(v),
        ensures
            mount_count(self.history(), v) == unmount_count(self.history(), v) + (if
            self.view_mounted(v) {
                1nat
            } else {
                0nat
            }),
            alternates(self.history(), v),
    {
        assert(self.count_ok_at(v));
    }

    /// In a mounted tree, `mount` fired on a parent strictly before its
    /// mounted subviews: the parent's latest mount event precedes the
    /// subview's.
    pub proof fn lemma_mount_order(self, v: int)
        requires
            self.wf(),
            self.view_live(v),
            self.view_mounted(v),
            self.parent_of(v) >= 0,
        ensures
            self.view_mounted(self.parent_of(v)),
            last_mount(self.history(), self.parent_of(v)) < last_mount(self.history(), v),
    {
        assert(self.mounted_chain_at(v));
        assert(self.order_ok_at(v));
    }

    /// An unmounted view keeps no compositor layers: after an unmount walk
    /// the unmounted view's layer list is empty.
    pub proof fn lemma_layer_cleanup(self, v: int)
        requires
            self.wf(),
            self.view_live(v),
            !self.view_mounted(v),
        ensures
            self.layers_of(v).len() == 0,
    {
        assert(self.layers_ok_at(v));
    }
}

impl HView {
    /// Arrange the view's subviews, the down phase of one layout level:
    /// give each subview the frame its layout table assigns, in this view's
    /// coordinates, derive its global frame from this view's by translation
    /// (clamped at the coordinate range), owe a `position` callback to each
    /// subview whose placement changed, and clear this view's subview-frame
    /// dirtiness. The embedder's update loop drives this top-down over the
    /// subtrees whose descendant-frame bits are set.
    pub fn arrange_subviews(&self, wm: Wm, tree: &mut ViewTree)
        requires
            old(tree).wf(),
            old(tree).view_live(self.id as int),
        ensures
            final(tree).wf(),
            final(tree).n_views() == old(tree).n_views(),
            final(tree).n_wnds() == old(tree).n_wnds(),
            final(tree).requests() == old(tree).requests(),
            old(tree).history().is_prefix_of(final(tree).history()),
            old(tree).pending_events().is_prefix_of(final(tree).pending_events()),
            forall|x: int|
                final(tree).view_live(x) ==> #[trigger] quiet_hist_at(
                    *old(tree),
                    *final(tree),
                    x,
                ),
            forall|k: int|
                0 <= k < old(tree).subviews_of(self.id as int).len() ==> {
                    let c = #[trigger] old(tree).subviews_of(self.id as int)[k] as int;
                    final(tree).frame_of(c) == old(tree).frame_table_of(self.id as int, k)
                        && final(tree).global_frame_of(c) == old(tree).frame_table_of(
                        self.id as int,
                        k,
                    ).spec_sat_translate(
                        old(tree).global_frame_of(self.id as int).min.x as int,
                        old(tree).global_frame_of(self.id as int).min.y as int,
                    )
                },
            final(tree).dirty_bits(self.id as int) == old(tree).dirty_bits(self.id as int)
                & !crate::flags::SUBVIEWS_FRAME,
    {
        let v = self.id;
        let ghost t0 = *tree;
        let n = tree.views[v].layout.subviews.len();
        let mut k: usize = 0;
        while k < n
            invariant
                t0 == *old(tree),
                t0.wf(),
                t0.view_live(v as int),
                v == self.id,
                tree.wf(),
                0 <= k <= n,
                n == t0.subviews_of(v as int).len(),
                tree.views@.len() == t0.views@.len(),
                tree.wnds@ == t0.wnds@,
                tree.anc@ == t0.anc@,
                tree.update_requests@ == t0.update_requests@,
                tree.views@[v as int] == t0.views@[v as int],
                forall|x: int|
                    tree.view_live(x) && !t0.subviews_of(v as int).subrange(0, k as int).contains(
                        x as usize,
                    ) ==> (#[trigger] tree.views@[x]) == t0.views@[x],
                forall|j: int|
                    0 <= j < k ==> {
                        let c = #[trigger] t0.subviews_of(v as int)[j] as int;
                        tree.frame_of(c) == t0.frame_table_of(v as int, j)
                            && tree.global_frame_of(c) == t0.frame_table_of(
                            v as int,
                            j,
                        ).spec_sat_translate(
                            t0.global_frame_of(v as int).min.x as int,
                            t0.global_frame_of(v as int).min.y as int,
                        ) && tree.views@[c].dirty == t0.views@[c].dirty && tree.views@[c].layout
                            == t0.views@[c].layout && tree.views@[c].superview == t0.views@[
                            c].superview && tree.views@[c].layers == t0.views@[c].layers
                            && tree.views@[c].flags == t0.views@[c].flags
                            && tree.views@[c].size_traits == t0.views@[c].size_traits
                    },
                t0.history().is_prefix_of(tree.history()),
                t0.pending_events().is_prefix_of(tree.pending_events()),
                forall|x: int|
                    tree.view_live(x) ==> #[trigger] quiet_hist_at(t0, *tree, x),
            decreases n - k,
        {
            proof {
                assert(tree.subviews_of(v as int) == t0.subviews_of(v as int));
                assert(t0.subs_ok_at(v as int));
                assert(tree.views@[v as int].layout.frames@.len() == n);
            }
            let c = tree.views[v].layout.subviews[k];
            let fr = tree.views[v].layout.frames[k];
            let vg = tree.views[v].global_frame;
            proof {
                assert(c == t0.subviews_of(v as int)[k as int]);
                assert(t0.view_live(c as int));
                assert(t0.superview_of(c as int) == Superview::View(v));
                t0.lemma_child_below(v as int, c as int);
            }
            let g = fr.sat_translate(vg.min.x, vg.min.y);
            let changed = {
                let of = tree.views[c].frame;
                let og = tree.views[c].global_frame;
                of != fr || og != g
            };
            let ghost sb = *tree;
            tree.views[c].frame = fr;
            tree.views[c].global_frame = g;
            proof {
                assert forall|i: int| tree.view_live(i) implies #[trigger] logic_eq_at(
                    sb,
                    *tree,
                    i,
                ) by {
                    if i != c as int {
                        assert(tree.views@[i] == sb.views@[i]);
                    }
                }
                assert forall|i: int| tree.view_live(i) implies #[trigger] tree.layers_ok_at(
                    i,
                ) by {
                    assert(sb.layers_ok_at(i));
                    if i != c as int {
                        assert(tree.views@[i] == sb.views@[i]);
                    }
                }
                assert forall|w2: int| tree.wnd_live(w2) implies #[trigger] wnd_logic_eq_at(
                    sb,
                    *tree,
                    w2,
                ) by {}
                assert forall|w2: int| tree.wnd_live(w2) implies #[trigger] tree.pend_ok_at(
                    w2,
                ) by {
                    assert(sb.pend_ok_at(w2));
                    assert(sb.wnd_ok_at(w2));
                    match tree.wnds@[w2].content_view {
                        Some(cv2) => {
                            assert(logic_eq_at(sb, *tree, cv2 as int));
                        },
                        None => {},
                    }
                }
                lemma_wf_from_parts(sb, *tree);
            }
            if changed {
                let ev = ViewEvent { kind: ViewEventKind::Position, view: c };
                let ghost sc = *tree;
                tree.pending.push(ev);
                proof {
                    tree.hist@ = tree.hist@.push(ev);
                    tree.lemma_push_misc_event(sc, ev);
                    assert forall|x: int| tree.view_live(x) implies #[trigger] quiet_hist_at(
                        t0,
                        *tree,
                        x,
                    ) by {
                        assert(quiet_hist_at(t0, sb, x));
                        assert(sc.hist@ == sb.hist@);
                        assert(quiet_hist_at(sc, *tree, x));
                    }
                }
            } else {
                proof {
                    assert forall|x: int| tree.view_live(x) implies #[trigger] quiet_hist_at(
                        t0,
                        *tree,
                        x,
                    ) by {
                        assert(quiet_hist_at(t0, sb, x));
                        assert(tree.hist@ == sb.hist@);
                    }
                }
            }
            k = k + 1;
            proof {
                assert forall|x: int| tree.view_live(x) implies #[trigger] quiet_hist_at(
                    t0,
                    *tree,
                    x,
                ) by {}
                assert forall|x: int|
                    tree.view_live(x) && !t0.subviews_of(v as int).subrange(
                        0,
                        k as int,
                    ).contains(x as usize) implies (#[trigger] tree.views@[x]) == t0.views@[
                    x] by {
                    assert(!t0.subviews_of(v as int).subrange(0, k - 1).contains(x as usize)) by {
                        if t0.subviews_of(v as int).subrange(0, k - 1).contains(x as usize) {
                            let j2 = choose|j2: int|
                                0 <= j2 < k - 1 && #[trigger] t0.subviews_of(v as int).subrange(
                                    0,
                                    k - 1,
                                )[j2] == x as usize;
                            assert(t0.subviews_of(v as int).subrange(0, k as int)[j2]
                                == x as usize);
                        }
                    }
                    assert(x != c as int) by {
                        if x == c as int {
                            assert(t0.subviews_of(v as int).subrange(0, k as int)[k - 1] == c);
                        }
                    }
                    assert(tree.views@[x] == sb.views@[x]);
                }
                assert forall|j: int| 0 <= j < k implies {
                    let cc = #[trigger] t0.subviews_of(v as int)[j] as int;
                    tree.frame_of(cc) == t0.frame_table_of(v as int, j)
                        && tree.global_frame_of(cc) == t0.frame_table_of(
                        v as int,
                        j,
                    ).spec_sat_translate(
                        t0.global_frame_of(v as int).min.x as int,
                        t0.global_frame_of(v as int).min.y as int,
                    ) && tree.views@[cc].dirty == t0.views@[cc].dirty && tree.views@[cc].layout
                        == t0.views@[cc].layout && tree.views@[cc].superview == t0.views@[
                        cc].superview && tree.views@[cc].layers == t0.views@[cc].layers
                        && tree.views@[cc].flags == t0.views@[cc].flags
                        && tree.views@[cc].size_traits == t0.views@[cc].size_traits
                } by {
                    let cc = t0.subviews_of(v as int)[j] as int;
                    if j == k - 1 {
                        assert(cc == c as int);
                        assert(sb.views@[cc].dirty == t0.views@[cc].dirty
                            && sb.views@[cc].layout == t0.views@[cc].layout && sb.views@[
                            cc].superview == t0.views@[cc].superview && sb.views@[cc].layers
                            == t0.views@[cc].layers && sb.views@[cc].flags == t0.views@[
                            cc].flags && sb.views@[cc].size_traits == t0.views@[
                            cc].size_traits) by {
                            assert(!t0.subviews_of(v as int).subrange(0, k - 1).contains(c)) by {
                                if t0.subviews_of(v as int).subrange(0, k - 1).contains(c) {
                                    let j2 = choose|j2: int|
                                        0 <= j2 < k - 1 && #[trigger] t0.subviews_of(
                                            v as int,
                                        ).subrange(0, k - 1)[j2] == c;
                                    assert(t0.subviews_of(v as int)[j2] == t0.subviews_of(
                                        v as int,
                                    )[k - 1]);
                                    assert(t0.subviews_of(v as int).no_duplicates()) by {
                                        assert(t0.subs_ok_at(v as int));
                                    }
                                }
                            }
                            assert(sb.views@[cc] == t0.views@[cc]);
                        }
                    } else {
                        assert(cc != c as int) by {
                            if cc == c as int {
                                assert(t0.subviews_of(v as int)[j] == t0.subviews_of(v as int)[k
                                    - 1]);
                                assert(t0.subviews_of(v as int).no_duplicates()) by {
                                    assert(t0.subs_ok_at(v as int));
                                }
                            }
                        }
                        assert(tree.views@[cc] == sb.views@[cc]);
                    }
                }
            }
        }
        // The subview frames are current again.
        let ghost tp = *tree;
        let d = tree.views[v].dirty;
        tree.views[v].dirty = d.remove(crate::flags::SUBVIEWS_FRAME);
        proof {
            crate::flags::lemma_mask_consts();
            tree.lemma_clear_local_wf(tp, v, crate::flags::SUBVIEWS_FRAME);
            assert(tree.dirty_bits(v as int) == t0.dirty_bits(v as int)
                & !crate::flags::SUBVIEWS_FRAME) by {
                assert(tp.views@[v as int] == t0.views@[v as int]);
            }
            assert forall|k2: int|
                0 <= k2 < t0.subviews_of(v as int).len() implies {
                let c = #[trigger] t0.subviews_of(v as int)[k2] as int;
                tree.frame_of(c) == t0.frame_table_of(v as int, k2) && tree.global_frame_of(c)
                    == t0.frame_table_of(v as int, k2).spec_sat_translate(
                    t0.global_frame_of(v as int).min.x as int,
                    t0.global_frame_of(v as int).min.y as int,
                )
            } by {
                let c = t0.subviews_of(v as int)[k2] as int;
                assert(t0.subs_ok_at(v as int));
                assert(t0.view_live(c));
                assert(c != v as int) by {
                    assert(t0.superview_of(c) == Superview::View(v));
                    t0.lemma_child_below(v as int, c);
                }
                assert(tree.views@[c] == tp.views@[c]);
                assert(tp.frame_of(c) == t0.frame_table_of(v as int, k2));
                assert(tp.global_frame_of(c) == t0.frame_table_of(v as int, k2)
                    .spec_sat_translate(
                    t0.global_frame_of(v as int).min.x as int,
                    t0.global_frame_of(v as int).min.y as int,
                ));
            }
            assert forall|x: int| tree.view_live(x) implies #[trigger] quiet_hist_at(
                t0,
                *tree,
                x,
            ) by {
                assert(quiet_hist_at(t0, tp, x));
            }
        }
    }
}

impl ViewTree {
    /// Clearing a served local dirty bit of a view preserves every
    /// invariant: its raised image only shrinks, and no subview's raised
    /// image ever holds a local bit of its parent.
    pub(crate) proof fn lemma_clear_local_wf(self, tp: ViewTree, v: usize, m: u16)
        requires
            m & crate::flags::LOCAL_MASK == m,
            m & MOUNTED == 0,
            m & (DESCENDANT_UPDATE_EVENT | DESCENDANT_SUBLAYERS) == 0,
            MOUNT & m == 0,
            tp.wf(),
            tp.view_live(v as int),
            self.views@.len() == tp.views@.len(),
            self.wnds@ == tp.wnds@,
            self.anc@ == tp.anc@,
            self.hist@ == tp.hist@,
            self.pending@ == tp.pending@,
            self.taken@ == tp.taken@,
            self.update_requests@ == tp.update_requests@,
            forall|x: int|
                tp.view_live(x) && x != v as int ==> (#[trigger] self.views@[x]) == tp.views@[x],
            self.dirty_bits(v as int) == tp.dirty_bits(v as int) & !m,
            view_eq_except_dirty(tp.views@[v as int], self.views@[v as int]),
        ensures
            self.wf(),
    {
        let uv = v as int;
        crate::flags::lemma_mask_consts();
        assert forall|x: int| self.view_live(x) implies #[trigger] self.view_mounted(x)
            == tp.view_mounted(x) by {
            if x == uv {
                crate::flags::lemma_clear_disjoint_mask(tp.dirty_bits(x), m, MOUNTED);
            } else {
                assert(self.views@[x] == tp.views@[x]);
            }
        }
        assert forall|i: int| self.view_live(i) implies #[trigger] self.link_ok_at(i)
            && self.rev_ok_at(i) by {
            assert(tp.link_ok_at(i));
            assert(tp.rev_ok_at(i));
        }
        assert forall|i: int| self.view_live(i) implies #[trigger] self.rev_ok_at(i) by {
            assert(self.link_ok_at(i) && self.rev_ok_at(i));
        }
        assert forall|i: int| self.view_live(i) implies #[trigger] self.subs_ok_at(i) by {
            assert(tp.subs_ok_at(i));
            assert forall|k: int| 0 <= k < self.subviews_of(i).len() implies {
                let cc = #[trigger] self.subviews_of(i)[k] as int;
                self.view_live(cc) && self.views@[cc].superview == Superview::View(i as usize)
            } by {
                let cc = self.subviews_of(i)[k] as int;
                assert(tp.subviews_of(i)[k] == self.subviews_of(i)[k]);
                assert(tp.view_live(cc) && tp.views@[cc].superview == Superview::View(i as usize));
            }
        }
        assert forall|i: int| self.view_live(i) implies #[trigger] self.prop_ok_at(i) by {
            assert(tp.link_ok_at(i));
            assert(tp.prop_ok_at(i));
            match tp.views@[i].superview {
                Superview::View(p) => {
                    let pi = p as int;
                    assert(tp.view_live(pi));
                    if i == uv {
                        crate::flags::lemma_contains_self_clear(tp.dirty_bits(uv), m);
                        crate::flags::lemma_raise_mono(
                            tp.dirty_bits(uv),
                            tp.dirty_bits(uv) & !m,
                        );
                        crate::flags::lemma_contains_trans(
                            self.dirty_bits(pi),
                            raise_bits(tp.dirty_bits(uv)),
                            raise_bits(tp.dirty_bits(uv) & !m),
                        );
                        assert(self.dirty_bits(pi) == tp.dirty_bits(pi)) by {
                            assert(pi != uv) by {
                                if pi == uv {
                                    assert(tp.anc_of(i) == seq![pi] + tp.anc_of(pi));
                                }
                            }
                            assert(self.views@[pi] == tp.views@[pi]);
                        }
                    } else if pi == uv {
                        // a subview's raised image never holds the parent's
                        // local subview-frame bit
                        crate::flags::lemma_raise_stable(tp.dirty_bits(i));
                        crate::flags::lemma_sub_mask_zero(
                            raise_bits(tp.dirty_bits(i)),
                            crate::flags::LOCAL_MASK,
                            m,
                        );
                        crate::flags::lemma_contains_minus(
                            tp.dirty_bits(uv),
                            raise_bits(tp.dirty_bits(i)),
                            m,
                        );
                        assert(self.views@[i] == tp.views@[i]);
                    } else {
                        assert(self.views@[i] == tp.views@[i]);
                        assert(self.views@[pi] == tp.views@[pi]);
                    }
                },
                _ => {},
            }
        }
        assert forall|i: int| self.view_live(i) implies #[trigger] self.mountpend_ok_at(i) by {
            assert(tp.link_ok_at(i));
            assert(tp.mountpend_ok_at(i));
            match tp.views@[i].superview {
                Superview::View(p) => {
                    let pi = p as int;
                    assert(tp.view_live(pi));
                    if !self.view_mounted(i) && self.view_mounted(pi) {
                        assert(contains_bits(tp.dirty_bits(pi), MOUNT));
                        if pi == uv {
                            crate::flags::lemma_contains_minus(tp.dirty_bits(uv), MOUNT, m);
                        }
                    }
                },
                _ => {},
            }
        }
        assert forall|w2: int| self.wnd_live(w2) implies #[trigger] self.wnd_ok_at(w2)
            && self.pend_ok_at(w2) by {
            assert(tp.wnd_ok_at(w2));
            assert(tp.pend_ok_at(w2));
            match tp.wnds@[w2].content_view {
                Some(cv2) => {
                    let ci = cv2 as int;
                    if ci == uv {
                        crate::flags::lemma_clear_disjoint_mask(
                            tp.dirty_bits(ci),
                            m,
                            DESCENDANT_UPDATE_EVENT | DESCENDANT_SUBLAYERS,
                        );
                    } else {
                        assert(self.views@[ci] == tp.views@[ci]);
                    }
                },
                None => {},
            }
        }
        assert forall|w2: int| self.wnd_live(w2) implies #[trigger] self.pend_ok_at(w2) by {
            assert(self.wnd_ok_at(w2));
        }
        assert forall|i: int| self.view_live(i) implies #[trigger] self.layers_ok_at(i) by {
            assert(tp.layers_ok_at(i));
            if i != uv {
                assert(self.views@[i] == tp.views@[i]);
            }
        }
        assert forall|x: int| self.view_live(x) implies #[trigger] self.count_ok_at(x) by {
            assert(tp.count_ok_at(x));
        }
        assert forall|i: int| self.view_live(i) implies #[trigger] self.mounted_chain_at(i)
            && self.order_ok_at(i) by {
            assert(tp.link_ok_at(i));
            assert(tp.mounted_chain_at(i));
            assert(tp.order_ok_at(i));
            if tp.parent_of(i) >= 0 {
                assert(tp.view_live(tp.parent_of(i)));
            }
        }
        assert forall|i: int| self.view_live(i) implies #[trigger] self.order_ok_at(i) by {
            assert(self.mounted_chain_at(i) && self.order_ok_at(i));
        }
    }
}

impl HView {
    /// Recompute the view's cached size traits, the up phase of one layout
    /// level: the strategy's own traits with every subview's minimum size
    /// folded in, and the view's size-trait dirtiness cleared. The embedder
    /// drives this bottom-up over the subtrees whose descendant bits are
    /// set, so each subview's cached traits are already current.
    pub fn compute_size_traits(&self, wm: Wm, tree: &mut ViewTree)
        requires
            old(tree).wf(),
            old(tree).view_live(self.id as int),
        ensures
            final(tree).wf(),
            final(tree).n_views() == old(tree).n_views(),
            final(tree).n_wnds() == old(tree).n_wnds(),
            final(tree).requests() == old(tree).requests(),
            final(tree).history() == old(tree).history(),
            final(tree).pending_events() == old(tree).pending_events(),
            final(tree).size_traits_of(self.id as int) == old(tree).folded_traits(
                self.id as int,
                old(tree).subviews_of(self.id as int).len() as int,
            ),
            final(tree).dirty_bits(self.id as int) == old(tree).dirty_bits(self.id as int)
                & !crate::flags::SIZE_TRAITS,
            forall|x: int|
                final(tree).view_live(x) && x != self.id as int ==> #[trigger] view_node_eq(
                    *old(tree),
                    *final(tree),
                    x,
                ),
    {
        let v = self.id;
        let ghost t0 = *tree;
        let n = tree.views[v].layout.subviews.len();
        let mut traits = tree.views[v].layout.size_traits;
        let mut k: usize = 0;
        while k < n
            invariant
                t0 == *tree,
                t0.wf(),
                t0.view_live(v as int),
                v == self.id,
                0 <= k <= n,
                n == t0.subviews_of(v as int).len(),
                traits == t0.folded_traits(v as int, k as int),
            decreases n - k,
        {
            proof {
                assert(t0.subs_ok_at(v as int));
            }
            let c = tree.views[v].layout.subviews[k];
            proof {
                assert(c == t0.subviews_of(v as int)[k as int]);
                assert(t0.view_live(c as int));
            }
            let st = tree.views[c].size_traits;
            traits = traits.raise_min(&st);
            k = k + 1;
        }
        let ghost tq = *tree;
        tree.views[v].size_traits = traits;
        proof {
            assert forall|i: int| tree.view_live(i) implies #[trigger] logic_eq_at(
                tq,
                *tree,
                i,
            ) by {
                if i != v as int {
                    assert(tree.views@[i] == tq.views@[i]);
                }
            }
            assert forall|i: int| tree.view_live(i) implies #[trigger] tree.layers_ok_at(i) by {
                assert(tq.layers_ok_at(i));
                if i != v as int {
                    assert(tree.views@[i] == tq.views@[i]);
                }
            }
            assert forall|w2: int| tree.wnd_live(w2) implies #[trigger] wnd_logic_eq_at(
                tq,
                *tree,
                w2,
            ) by {}
            assert forall|w2: int| tree.wnd_live(w2) implies #[trigger] tree.pend_ok_at(w2) by {
                assert(tq.pend_ok_at(w2));
                assert(tq.wnd_ok_at(w2));
                match tree.wnds@[w2].content_view {
                    Some(cv2) => {
                        assert(logic_eq_at(tq, *tree, cv2 as int));
                    },
                    None => {},
                }
            }
            lemma_wf_from_parts(tq, *tree);
        }
        let ghost tp = *tree;
        let d = tree.views[v].dirty;
        tree.views[v].dirty = d.remove(crate::flags::SIZE_TRAITS);
        proof {
            crate::flags::lemma_mask_consts();
            tree.lemma_clear_local_wf(tp, v, crate::flags::SIZE_TRAITS);
            assert(tree.dirty_bits(v as int) == t0.dirty_bits(v as int)
                & !crate::flags::SIZE_TRAITS) by {
                assert(tp.views@[v as int].dirty == t0.views@[v as int].dirty);
            }
            assert(tree.size_traits_of(v as int) == t0.folded_traits(v as int, n as int)) by {
                assert(tp.size_traits_of(v as int) == traits);
            }
        }
    }
}

} // verus!
