//! Dirty-flag algebra: bit sets recording which cached properties of a view
//! or a window are stale, and the `raise_level` operation that rewrites a
//! view's local flags into the form its superview keeps for descendants.

use vstd::prelude::*;

verus! {

/// `layout.size_traits()` of the view might have changed.
pub const SIZE_TRAITS: u16 = 0x1;

/// Some descendant has `SIZE_TRAITS`.
pub const DESCENDANT_SIZE_TRAITS: u16 = 0x2;

/// The frames of the subviews may be out of date.
pub const SUBVIEWS_FRAME: u16 = 0x4;

/// Some descendant has `SUBVIEWS_FRAME`.
pub const DESCENDANT_SUBVIEWS_FRAME: u16 = 0x8;

/// A `position` callback is owed to the view.
pub const POSITION_EVENT: u16 = 0x10;

/// Some descendant has `POSITION_EVENT`.
pub const DESCENDANT_POSITION_EVENT: u16 = 0x20;

/// An `update` callback is owed to the view.
pub const UPDATE_EVENT: u16 = 0x40;

/// Some descendant has `UPDATE_EVENT`.
pub const DESCENDANT_UPDATE_EVENT: u16 = 0x80;

/// The set of direct sublayers changed. Only meaningful for views with
/// `ViewFlags::LAYER_GROUP`.
pub const SUBLAYERS: u16 = 0x100;

/// Some descendant has `SUBLAYERS`.
pub const DESCENDANT_SUBLAYERS: u16 = 0x200;

/// `mount` has already been called for the view. A sticky state bit, not a
/// dirty bit: it is never propagated to superviews.
pub const MOUNTED: u16 = 0x400;

/// The view was added to a window, but `mount` has not yet been called for
/// some of the view and its subviews.
pub const MOUNT: u16 = 0x800;

/// The flags that name a property of the view itself: the union of
/// `SIZE_TRAITS`, `SUBVIEWS_FRAME`, `POSITION_EVENT`, `UPDATE_EVENT` and
/// `SUBLAYERS`.
pub const LOCAL_MASK: u16 = 0x155;

/// The flags that pass to a superview unchanged: the union of the five
/// descendant flags and `MOUNT`.
pub const THRU_MASK: u16 = 0xAAA;

/// `a` holds every bit of `b`.
pub open spec fn contains_bits(a: u16, b: u16) -> bool {
    a & b == b
}

/// The flags a superview keeps for `b`: local flags become their descendant
/// counterparts, descendant flags and `MOUNT` pass through, `MOUNTED` is
/// stripped.
pub open spec fn raise_bits(b: u16) -> u16 {
    (b & THRU_MASK) | ((b & LOCAL_MASK) << 1)
}

/// `b` is unchanged by raising: it holds only descendant flags and `MOUNT`.
/// Flags propagated along the superview chain have this shape.
pub open spec fn ancestor_stable(b: u16) -> bool {
    raise_bits(b) == b
}

/// Indicates which properties of a view should be recalculated.
///
/// The flags are propagated to superviews; when some of them reach the window
/// at the root, an update pass is scheduled. They are cleared when the
/// corresponding property is updated.
#[derive(Clone, Copy, Debug, PartialEq, Eq, Structural)]
pub struct ViewDirtyFlags {
    pub bits: u16,
}

impl ViewDirtyFlags {
    /// The empty flag set.
    pub fn empty() -> (r: Self)
        ensures
            r.bits == 0,
    {
        ViewDirtyFlags { bits: 0 }
    }

    /// The flag set with exactly the bits of `bits`.
    pub fn from_bits(bits: u16) -> (r: Self)
        ensures
            r.bits == bits,
    {
        ViewDirtyFlags { bits }
    }

    /// Whether every bit of `m` is set.
    pub fn contains(self, m: u16) -> (r: bool)
        ensures
            r == contains_bits(self.bits, m),
    {
        self.bits & m == m
    }

    /// Whether some bit of `m` is set.
    pub fn intersects(self, m: u16) -> (r: bool)
        ensures
            r == (self.bits & m != 0),
    {
        self.bits & m != 0
    }

    /// The union with the bits of `m`.
    pub fn insert(self, m: u16) -> (r: Self)
        ensures
            r.bits == self.bits | m,
    {
        ViewDirtyFlags { bits: self.bits | m }
    }

    /// The set without the bits of `m`.
    pub fn remove(self, m: u16) -> (r: Self)
        ensures
            r.bits == self.bits & !m,
    {
        ViewDirtyFlags { bits: self.bits & !m }
    }

    /// The union of two flag sets.
    pub fn union(self, other: Self) -> (r: Self)
        ensures
            r.bits == self.bits | other.bits,
    {
        ViewDirtyFlags { bits: self.bits | other.bits }
    }

    /// Get the set of flags propagated to a superview.
    ///
    /// Each local flag is replaced with its descendant counterpart (for
    /// example `UPDATE_EVENT` with `DESCENDANT_UPDATE_EVENT`); descendant
    /// flags and `MOUNT` are left as they are; `MOUNTED` is stripped, since a
    /// superview derives its own mounted state.
    pub fn raise_level(self) -> (r: Self)
        ensures
            r.bits == raise_bits(self.bits),
    {
        let thru = self.bits & THRU_MASK;
        let lowered = self.bits & LOCAL_MASK;
        ViewDirtyFlags { bits: thru | (lowered << 1u16) }
    }

    /// Whether any bit other than the sticky `MOUNTED` state bit is set, so
    /// an update walk must visit the subtree at all.
    pub fn is_dirty(self) -> (r: bool)
        ensures
            r == (self.bits & !MOUNTED != 0),
    {
        self.bits & !MOUNTED != 0
    }
}

/// Every bit set is a superset of itself and of each operand of a union.
pub proof fn lemma_or_contains(a: u16, b: u16)
    ensures
        contains_bits(a | b, a),
        contains_bits(a | b, b),
        contains_bits(a, a),
{
    assert(((a | b) & a == a) && ((a | b) & b == b) && (a & a == a)) by (bit_vector);
}

/// Containment survives growing the left side by a union.
pub proof fn lemma_contains_or_mono(a: u16, b: u16, m: u16)
    requires
        contains_bits(a, m),
    ensures
        contains_bits(a | b, m),
        contains_bits(b | a, m),
{
    assert((a & m == m) ==> (((a | b) & m == m) && ((b | a) & m == m))) by (bit_vector);
}

/// Containment of a union of two contained sets.
pub proof fn lemma_contains_both(a: u16, m1: u16, m2: u16)
    requires
        contains_bits(a, m1),
        contains_bits(a, m2),
    ensures
        contains_bits(a, m1 | m2),
{
    assert((a & m1 == m1 && a & m2 == m2) ==> (a & (m1 | m2) == (m1 | m2))) by (bit_vector);
}

/// Containment is transitive.
pub proof fn lemma_contains_trans(a: u16, b: u16, c: u16)
    requires
        contains_bits(a, b),
        contains_bits(b, c),
    ensures
        contains_bits(a, c),
{
    assert((a & b == b && b & c == c) ==> (a & c == c)) by (bit_vector);
}

/// Adding the same flags twice is the same as adding them once.
pub proof fn lemma_or_idempotent(a: u16, b: u16)
    ensures
        (a | b) | b == a | b,
{
    assert((a | b) | b == (a | b)) by (bit_vector);
}

/// A set that already holds `b` is unchanged by adding `b`.
pub proof fn lemma_or_absorbed(a: u16, b: u16)
    requires
        contains_bits(a, b),
    ensures
        a | b == a,
{
    assert((a & b == b) ==> (a | b == a)) by (bit_vector);
}

/// Raising distributes over union.
pub proof fn lemma_raise_or(a: u16, b: u16)
    ensures
        raise_bits(a | b) == raise_bits(a) | raise_bits(b),
{
    assert((((a | b) & 0xAAAu16) | (((a | b) & 0x155u16) << 1u16)) == (((a & 0xAAAu16) | ((a
        & 0x155u16) << 1u16)) | ((b & 0xAAAu16) | ((b & 0x155u16) << 1u16)))) by (bit_vector);
}

/// Raising is monotone with respect to containment.
pub proof fn lemma_raise_mono(a: u16, b: u16)
    requires
        contains_bits(a, b),
    ensures
        contains_bits(raise_bits(a), raise_bits(b)),
{
    assert((a & b == b) ==> (((a & 0xAAAu16) | ((a & 0x155u16) << 1u16)) & ((b & 0xAAAu16) | ((b
        & 0x155u16) << 1u16)) == ((b & 0xAAAu16) | ((b & 0x155u16) << 1u16)))) by (bit_vector);
}

/// A raised set holds only descendant flags and `MOUNT`, so raising it again
/// changes nothing; in particular `MOUNTED` is never raised.
pub proof fn lemma_raise_stable(a: u16)
    ensures
        ancestor_stable(raise_bits(a)),
        raise_bits(a) & MOUNTED == 0,
        raise_bits(a) & LOCAL_MASK == 0,
{
    let r = (a & 0xAAAu16) | ((a & 0x155u16) << 1u16);
    assert(((r & 0xAAAu16) | ((r & 0x155u16) << 1u16) == r) && (r & 0x400u16 == 0) && (r
        & 0x155u16 == 0)) by (bit_vector)
        requires
            r == (a & 0xAAAu16) | ((a & 0x155u16) << 1u16),
    ;
}

/// The named descendant flags and `MOUNT` are themselves ancestor-stable.
pub proof fn lemma_consts_stable()
    ensures
        ancestor_stable(DESCENDANT_SIZE_TRAITS),
        ancestor_stable(DESCENDANT_SUBVIEWS_FRAME),
        ancestor_stable(DESCENDANT_POSITION_EVENT),
        ancestor_stable(DESCENDANT_UPDATE_EVENT),
        ancestor_stable(DESCENDANT_SUBLAYERS),
        ancestor_stable(MOUNT),
{
    assert(((0x2u16 & 0xAAAu16) | ((0x2u16 & 0x155u16) << 1u16)) == 0x2u16
        && ((0x8u16 & 0xAAAu16) | ((0x8u16 & 0x155u16) << 1u16)) == 0x8u16
        && ((0x20u16 & 0xAAAu16) | ((0x20u16 & 0x155u16) << 1u16)) == 0x20u16
        && ((0x80u16 & 0xAAAu16) | ((0x80u16 & 0x155u16) << 1u16)) == 0x80u16
        && ((0x200u16 & 0xAAAu16) | ((0x200u16 & 0x155u16) << 1u16)) == 0x200u16
        && ((0x800u16 & 0xAAAu16) | ((0x800u16 & 0x155u16) << 1u16)) == 0x800u16)
        by (bit_vector);
}

/// The union of two ancestor-stable sets is ancestor-stable.
pub proof fn lemma_stable_or(a: u16, b: u16)
    requires
        ancestor_stable(a),
        ancestor_stable(b),
    ensures
        ancestor_stable(a | b),
{
    lemma_raise_or(a, b);
}

/// Raising the local flags set by a mutation is covered by the descendant
/// flags propagated alongside: the concrete pairs used by the view tree.
pub proof fn lemma_raise_pairs()
    ensures
        raise_bits(SIZE_TRAITS) == DESCENDANT_SIZE_TRAITS,
        raise_bits(SUBVIEWS_FRAME) == DESCENDANT_SUBVIEWS_FRAME,
        raise_bits(POSITION_EVENT) == DESCENDANT_POSITION_EVENT,
        raise_bits(UPDATE_EVENT) == DESCENDANT_UPDATE_EVENT,
        raise_bits(SUBLAYERS) == DESCENDANT_SUBLAYERS,
        raise_bits(MOUNTED) == 0,
        raise_bits(MOUNT) == MOUNT,
{
    assert(((0x1u16 & 0xAAAu16) | ((0x1u16 & 0x155u16) << 1u16)) == 0x2u16
        && ((0x4u16 & 0xAAAu16) | ((0x4u16 & 0x155u16) << 1u16)) == 0x8u16
        && ((0x10u16 & 0xAAAu16) | ((0x10u16 & 0x155u16) << 1u16)) == 0x20u16
        && ((0x40u16 & 0xAAAu16) | ((0x40u16 & 0x155u16) << 1u16)) == 0x80u16
        && ((0x100u16 & 0xAAAu16) | ((0x100u16 & 0x155u16) << 1u16)) == 0x200u16
        && ((0x400u16 & 0xAAAu16) | ((0x400u16 & 0x155u16) << 1u16)) == 0u16
        && ((0x800u16 & 0xAAAu16) | ((0x800u16 & 0x155u16) << 1u16)) == 0x800u16)
        by (bit_vector);
}

/// The sublayers are added to the view's associated layer, so the view can
/// clip its subviews or apply group opacity; the window's content view must
/// have this capability.
pub const LAYER_GROUP: u8 = 0x1;

/// Immutable creation-time capability flags of a view.
#[derive(Clone, Copy, Debug, PartialEq, Eq, Structural)]
pub struct ViewFlags {
    pub bits: u8,
}

impl ViewFlags {
    /// The empty flag set.
    pub fn empty() -> (r: Self)
        ensures
            r.bits == 0,
    {
        ViewFlags { bits: 0 }
    }

    /// The flag set with exactly the bits of `bits`.
    pub fn from_bits(bits: u8) -> (r: Self)
        ensures
            r.bits == bits,
    {
        ViewFlags { bits }
    }

    /// Whether every bit of `m` is set.
    pub fn contains(self, m: u8) -> (r: bool)
        ensures
            r == (self.bits & m == m),
    {
        self.bits & m == m
    }
}

/// Style flags of a platform window (borderless, resizable, and the like);
/// this core only caches and diffs them, their meaning belongs to the
/// platform layer.
#[derive(Clone, Copy, Debug, PartialEq, Eq, Structural)]
pub struct WndStyleFlags {
    pub bits: u8,
}

impl WndStyleFlags {
    /// The default style.
    pub fn default_flags() -> (r: Self)
        ensures
            r.bits == 0,
    {
        WndStyleFlags { bits: 0 }
    }

    /// The flag set with exactly the bits of `bits`.
    pub fn from_bits(bits: u8) -> (r: Self)
        ensures
            r.bits == bits,
    {
        WndStyleFlags { bits }
    }
}

/// Adding flags disjoint from a mask leaves the masked part alone.
pub proof fn lemma_or_disjoint_mask(a: u16, f: u16, m: u16)
    requires
        f & m == 0,
    ensures
        (a | f) & m == a & m,
{
    assert((f & m == 0) ==> ((a | f) & m == a & m)) by (bit_vector);
}

/// A containment survives masking on both sides: a bit of `b` under `m`
/// stays visible in `a` under `m`.
pub proof fn lemma_contains_mask(a: u16, b: u16, m: u16)
    requires
        contains_bits(a, b),
    ensures
        b & m != 0 ==> a & m != 0,
{
    assert((a & b == b && b & m != 0) ==> a & m != 0) by (bit_vector);
}

/// Raising keeps every pass-through bit that was set.
pub proof fn lemma_raise_keeps_thru(b: u16)
    ensures
        contains_bits(raise_bits(b), b & THRU_MASK),
{
    assert((((b & 0xAAAu16) | ((b & 0x155u16) << 1u16)) & (b & 0xAAAu16)) == (b & 0xAAAu16))
        by (bit_vector);
}

/// Removing flags disjoint from `b` preserves containment of `b`.
pub proof fn lemma_contains_minus(a: u16, b: u16, m: u16)
    requires
        contains_bits(a, b),
        b & m == 0,
    ensures
        contains_bits(a & !m, b),
{
    assert((a & b == b && b & m == 0) ==> ((a & !m) & b == b)) by (bit_vector);
}

/// Clearing `MOUNTED` changes nothing a superview keeps: the raised image is
/// the same.
pub proof fn lemma_raise_drop_mounted(b: u16)
    ensures
        raise_bits(b & !MOUNTED) == raise_bits(b),
{
    assert((((b & !0x400u16) & 0xAAAu16) | (((b & !0x400u16) & 0x155u16) << 1u16)) == ((b
        & 0xAAAu16) | ((b & 0x155u16) << 1u16))) by (bit_vector);
}

/// What a mount step does to a view's flags, as seen by its superview:
/// clearing `MOUNT` and setting `MOUNTED` clears `MOUNT` from the raised
/// image and changes nothing else of it.
pub proof fn lemma_raise_mount_step(b: u16)
    ensures
        raise_bits((b & !MOUNT) | MOUNTED) == raise_bits(b) & !MOUNT,
{
    assert(((((b & !0x800u16) | 0x400u16) & 0xAAAu16) | ((((b & !0x800u16) | 0x400u16) & 0x155u16)
        << 1u16)) == (((b & 0xAAAu16) | ((b & 0x155u16) << 1u16)) & !0x800u16)) by (bit_vector);
}

/// The named flags are disjoint from `MOUNTED`, singly and in the unions
/// the view tree's mutations use.
pub proof fn lemma_no_mounted_consts()
    ensures
        UPDATE_EVENT & MOUNTED == 0,
        SUBLAYERS & MOUNTED == 0,
        MOUNT & MOUNTED == 0,
        (SUBVIEWS_FRAME | SIZE_TRAITS) & MOUNTED == 0,
        (DESCENDANT_SUBVIEWS_FRAME | DESCENDANT_SIZE_TRAITS) & MOUNTED == 0,
        DESCENDANT_SUBLAYERS & MOUNTED == 0,
        MOUNTED & (DESCENDANT_UPDATE_EVENT | DESCENDANT_SUBLAYERS) == 0,
        MOUNT & (DESCENDANT_UPDATE_EVENT | DESCENDANT_SUBLAYERS) == 0,
{
    assert(0x40u16 & 0x400u16 == 0 && 0x100u16 & 0x400u16 == 0 && 0x800u16 & 0x400u16 == 0 && (
    0x4u16 | 0x1u16) & 0x400u16 == 0 && (0x8u16 | 0x2u16) & 0x400u16 == 0 && 0x200u16 & 0x400u16
        == 0 && 0x400u16 & (0x80u16
        | 0x200u16) == 0 && 0x800u16 & (
    0x80u16 | 0x200u16) == 0) by (bit_vector);
}

/// A dirty set without the `MOUNTED` bit is unchanged by clearing it.
pub proof fn lemma_not_mounted_clear(d: u16)
    requires
        d & MOUNTED != MOUNTED,
    ensures
        d & !MOUNTED == d,
{
    assert((d & 0x400u16 != 0x400u16) ==> (d & !0x400u16 == d)) by (bit_vector);
}

/// Clearing flags disjoint from a mask leaves the masked part alone.
pub proof fn lemma_clear_disjoint_mask(a: u16, m: u16, x: u16)
    requires
        m & x == 0,
    ensures
        (a & !m) & x == a & x,
{
    assert((m & x == 0) ==> ((a & !m) & x == a & x)) by (bit_vector);
}

/// Clearing `MOUNT` on a view clears it from the raised image and nothing
/// else of it.
pub proof fn lemma_raise_clear_mount(b: u16)
    ensures
        raise_bits(b & !MOUNT) == raise_bits(b) & !MOUNT,
{
    assert((((b & !0x800u16) & 0xAAAu16) | (((b & !0x800u16) & 0x155u16) << 1u16)) == (((b
        & 0xAAAu16) | ((b & 0x155u16) << 1u16)) & !0x800u16)) by (bit_vector);
}

/// Setting `MOUNTED` changes nothing a superview keeps.
pub proof fn lemma_raise_add_mounted(b: u16)
    ensures
        raise_bits(b | MOUNTED) == raise_bits(b),
{
    assert((((b | 0x400u16) & 0xAAAu16) | (((b | 0x400u16) & 0x155u16) << 1u16)) == ((b
        & 0xAAAu16) | ((b & 0x155u16) << 1u16))) by (bit_vector);
}

/// Containment survives masking bits out of the contained set.
pub proof fn lemma_contains_sub_mask(a: u16, b: u16, m: u16)
    requires
        contains_bits(a, b),
    ensures
        contains_bits(a, b & !m),
{
    assert((a & b == b) ==> (a & (b & !m) == (b & !m))) by (bit_vector);
}

/// A pending `MOUNT` bit survives raising.
pub proof fn lemma_mount_in_raise(d: u16)
    requires
        d & MOUNT == MOUNT,
    ensures
        raise_bits(d) & MOUNT == MOUNT,
{
    assert((d & 0x800u16 == 0x800u16) ==> (((d & 0xAAAu16) | ((d & 0x155u16) << 1u16)) & 0x800u16
        == 0x800u16)) by (bit_vector);
}

/// A mount step on a view that has no pending `MOUNT` and is already
/// mounted changes nothing.
pub proof fn lemma_mount_step_noop(d: u16)
    requires
        d & MOUNT != MOUNT,
        d & MOUNTED == MOUNTED,
    ensures
        (d & !MOUNT) | MOUNTED == d,
{
    assert((d & 0x800u16 != 0x800u16 && d & 0x400u16 == 0x400u16) ==> ((d & !0x800u16) | 0x400u16
        == d)) by (bit_vector);
}

/// A contained set without the `MOUNT` bit is still contained after the
/// container clears `MOUNT`.
pub proof fn lemma_contains_clear_mount(a: u16, b: u16)
    requires
        contains_bits(a, b),
        b & MOUNT == 0,
    ensures
        contains_bits(a & !MOUNT, b),
{
    assert((a & b == b && b & 0x800u16 == 0) ==> ((a & !0x800u16) & b == b)) by (bit_vector);
}

/// Clearing the update-mask bits clears their raised image and nothing
/// else of it.
pub proof fn lemma_raise_clear_update(d: u16)
    ensures
        raise_bits(d & !0x3C0) == raise_bits(d) & !0x280,
{
    assert((((d & !0x3C0u16) & 0xAAAu16) | (((d & !0x3C0u16) & 0x155u16) << 1u16)) == (((d
        & 0xAAAu16) | ((d & 0x155u16) << 1u16)) & !0x280u16)) by (bit_vector);
}

/// A set with neither local bits nor the descendant update bits avoids the
/// whole update mask.
pub proof fn lemma_update_mask_split(b: u16)
    requires
        b & LOCAL_MASK == 0,
        b & 0x280 == 0,
    ensures
        b & 0x3C0 == 0,
{
    assert((b & 0x155u16 == 0 && b & 0x280u16 == 0) ==> b & 0x3C0u16 == 0) by (bit_vector);
}

/// The constant mask identities the view tree's proofs lean on.
pub proof fn lemma_mask_consts()
    ensures
        DESCENDANT_UPDATE_EVENT | DESCENDANT_SUBLAYERS == 0x280,
        (DESCENDANT_UPDATE_EVENT | DESCENDANT_SUBLAYERS) & THRU_MASK == 0x280,
        UPDATE_MASK_BITS & MOUNTED == 0,
        MOUNT & UPDATE_MASK_BITS == 0,
        (UPDATE_EVENT | SUBLAYERS | MOUNT) & (DESCENDANT_UPDATE_EVENT | DESCENDANT_SUBLAYERS)
            == 0,
        (UPDATE_EVENT | MOUNT) & (DESCENDANT_UPDATE_EVENT | DESCENDANT_SUBLAYERS) == 0,
        SUBVIEWS_FRAME & MOUNTED == 0,
        SUBVIEWS_FRAME & (DESCENDANT_UPDATE_EVENT | DESCENDANT_SUBLAYERS) == 0,
        SUBVIEWS_FRAME & LOCAL_MASK == SUBVIEWS_FRAME,
        SUBVIEWS_FRAME & MOUNT == 0,
        MOUNT & SUBVIEWS_FRAME == 0,
        SIZE_TRAITS & MOUNTED == 0,
        SIZE_TRAITS & (DESCENDANT_UPDATE_EVENT | DESCENDANT_SUBLAYERS) == 0,
        SIZE_TRAITS & LOCAL_MASK == SIZE_TRAITS,
        MOUNT & SIZE_TRAITS == 0,
        ((UPDATE_EVENT | SUBLAYERS) | MOUNT) & MOUNTED == 0,
        LAYER_GROUP & LAYER_GROUP != 0,
        DESCENDANT_UPDATE_EVENT & (DESCENDANT_UPDATE_EVENT | DESCENDANT_SUBLAYERS) != 0,
        (DESCENDANT_SUBVIEWS_FRAME | DESCENDANT_SIZE_TRAITS) & (DESCENDANT_UPDATE_EVENT
            | DESCENDANT_SUBLAYERS) == 0,
        DESCENDANT_SUBLAYERS & (DESCENDANT_UPDATE_EVENT | DESCENDANT_SUBLAYERS) != 0,
{
    assert((0x80u16 | 0x200u16 == 0x280u16) && ((0x80u16 | 0x200u16) & 0xAAAu16 == 0x280u16) && (
    0x3C0u16 & 0x400u16 == 0) && (0x800u16 & 0x3C0u16 == 0) && (((0x40u16 | 0x100u16) | 0x800u16)
        & (0x80u16 | 0x200u16) == 0) && ((0x40u16 | 0x800u16) & (0x80u16 | 0x200u16) == 0) && (
    0x4u16 & 0x400u16 == 0) && (0x4u16 & (0x80u16 | 0x200u16) == 0) && (0x4u16 & 0x155u16
        == 0x4u16) && (0x4u16 & 0x800u16 == 0) && (0x800u16 & 0x4u16 == 0) && (0x1u16 & 0x400u16
        == 0) && (0x1u16 & (0x80u16 | 0x200u16) == 0) && (0x1u16 & 0x155u16 == 0x1u16) && (
    0x800u16 & 0x1u16 == 0) && (((0x40u16 | 0x100u16) | 0x800u16) & 0x400u16 == 0) && (0x80u16
        & (0x80u16 | 0x200u16) != 0) && ((0x8u16 | 0x2u16) & (0x80u16 | 0x200u16) == 0) && (
    0x200u16 & (0x80u16 | 0x200u16) != 0)) by (bit_vector);
    assert(0x1u8 & 0x1u8 != 0) by (bit_vector);
}

/// The update-mask constant, re-exported for spec use beside the flags.
pub const UPDATE_MASK_BITS: u16 = 0x3C0;

/// A union with the empty set changes nothing.
pub proof fn lemma_or_zero(d: u16)
    ensures
        d | 0 == d,
{
    assert(d | 0 == d) by (bit_vector);
}

/// Clearing a mask leaves none of its bits behind.
pub proof fn lemma_cleared_loses(d: u16, m: u16)
    ensures
        (d & !m) & m == 0,
{
    assert((d & !m) & m == 0) by (bit_vector);
}

/// Clearing bits that are all absent changes nothing.
pub proof fn lemma_clear_absent(d: u16, m: u16)
    ensures
        d & m == 0 ==> d & !m == d,
{
    assert((d & m == 0) ==> (d & !m == d)) by (bit_vector);
}

/// Setting `MOUNTED` and clearing `MOUNT` commute.
pub proof fn lemma_mount_step_commute(d: u16)
    ensures
        (d | MOUNTED) & !MOUNT == (d & !MOUNT) | MOUNTED,
{
    assert(((d | 0x400u16) & !0x800u16) == ((d & !0x800u16) | 0x400u16)) by (bit_vector);
}

/// A set holds itself with any bits cleared.
pub proof fn lemma_contains_self_clear(d: u16, m: u16)
    ensures
        contains_bits(d, d & !m),
{
    assert(d & (d & !m) == (d & !m)) by (bit_vector);
}

/// A set avoiding a mask avoids each of its parts.
pub proof fn lemma_sub_mask_zero(x: u16, m1: u16, m2: u16)
    requires
        x & m1 == 0,
        m2 & m1 == m2,
    ensures
        x & m2 == 0,
{
    assert((x & m1 == 0 && m2 & m1 == m2) ==> x & m2 == 0) by (bit_vector);
}

/// An ancestor-stable set never holds `MOUNTED`.
pub proof fn lemma_stable_no_mounted(b: u16)
    requires
        ancestor_stable(b),
    ensures
        b & MOUNTED == 0,
{
    lemma_raise_stable(b);
}

/// A bit under a pass-through mask survives masking by `THRU_MASK`.
pub proof fn lemma_trig_in_thru(l: u16, m: u16)
    requires
        m & THRU_MASK == m,
    ensures
        l & m != 0 ==> (l & THRU_MASK) & m != 0,
{
    assert((m & 0xAAAu16 == m && l & m != 0) ==> (l & 0xAAAu16) & m != 0) by (bit_vector);
}

/// Dirty flags indicating window attributes that must be re-synchronized
/// with the platform window.
#[derive(Clone, Copy, Debug, PartialEq, Eq, Structural)]
pub struct WndDirtyFlags {
    pub bits: u8,
}

/// The window's root layer changed (a new content view was installed).
pub const WND_LAYER: u8 = 0x1;

/// The window's visibility changed.
pub const WND_STYLE_VISIBLE: u8 = 0x2;

/// The window's caption changed.
pub const WND_STYLE_CAPTION: u8 = 0x4;

/// The window's style flags changed.
pub const WND_STYLE_FLAGS: u8 = 0x8;

impl WndDirtyFlags {
    /// The empty flag set.
    pub fn empty() -> (r: Self)
        ensures
            r.bits == 0,
    {
        WndDirtyFlags { bits: 0 }
    }

    /// Whether every bit of `m` is set.
    pub fn contains(self, m: u8) -> (r: bool)
        ensures
            r == (self.bits & m == m),
    {
        self.bits & m == m
    }

    /// The union with the bits of `m`.
    pub fn insert(self, m: u8) -> (r: Self)
        ensures
            r.bits == self.bits | m,
    {
        WndDirtyFlags { bits: self.bits | m }
    }
}

} // verus!
