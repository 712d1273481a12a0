//! Controllers (CRTCs): the rectangular display regions the backend drives,
//! with the geometry operations the reconciliation engine needs.

use vstd::prelude::*;

use crate::XId;
use crate::XTime;
use crate::XrandrError;

verus! {

/// A controller can display a mode in one of four rotations.
///
/// The backend encodes these as the power-of-two bit flags 1, 2, 4 and 8;
/// `Left` and `Right` swap width and height relative to `Normal` and
/// `Inverted`.
#[derive(PartialEq, Eq, Structural, Copy, Debug, Clone)]
pub enum Rotation {
    Normal,
    Left,
    Inverted,
    Right,
}

impl Rotation {
    /// The backend wire encoding of this rotation.
    pub open spec fn spec_as_raw(self) -> u16 {
        match self {
            Rotation::Normal => 1,
            Rotation::Left => 2,
            Rotation::Inverted => 4,
            Rotation::Right => 8,
        }
    }

    /// True iff displaying under this rotation swaps width and height
    /// relative to `Normal`.
    pub open spec fn swaps_axes(self) -> bool {
        self == Rotation::Left || self == Rotation::Right
    }

    /// The backend wire encoding of this rotation.
    pub fn as_raw(self) -> (r: u16)
        ensures
            r == self.spec_as_raw(),
    {
        match self {
            Rotation::Normal => 1,
            Rotation::Left => 2,
            Rotation::Inverted => 4,
            Rotation::Right => 8,
        }
    }

    /// Decodes the backend wire encoding; every value other than the four
    /// defined flags is rejected.
    pub fn try_from(r: u16) -> (res: Result<Self, XrandrError>)
        ensures
            match res {
                Ok(rot) => rot.spec_as_raw() == r,
                Err(e) => r != 1 && r != 2 && r != 4 && r != 8 && e == XrandrError::InvalidRotation(
                    r,
                ),
            },
    {
        match r {
            1u16 => Ok(Rotation::Normal),
            2u16 => Ok(Rotation::Left),
            4u16 => Ok(Rotation::Inverted),
            8u16 => Ok(Rotation::Right),
            _ => Err(XrandrError::InvalidRotation(r)),
        }
    }
}

/// A controller can be positioned relative to another one in one of five
/// directions.
#[derive(PartialEq, Eq, Structural, Copy, Debug, Clone)]
pub enum Relation {
    LeftOf,
    RightOf,
    Above,
    Below,
    SameAs,
}

/// A controller: a region of pixels the backend scans out, together with
/// the timing signal driving it.  Mirrors one backend CRTC record.
#[derive(PartialEq, Debug)]
pub struct Crtc {
    /// Stable backend identity for this session.
    pub xid: XId,
    /// Version token from the last backend modification; used for the
    /// optimistic-concurrency check when committing changes.
    pub timestamp: XTime,
    /// Position of the top-left corner, in pixels.
    pub x: i32,
    pub y: i32,
    /// Occupied region at the current rotation, in pixels.
    pub width: u32,
    pub height: u32,
    /// Id of the active mode, or [`crate::MODE_NONE`] when disabled.
    pub mode: XId,
    pub rotation: Rotation,
    /// Outputs currently driven by this controller; empty iff disabled.
    pub outputs: Vec<XId>,
    /// Bit mask of the rotations the backend supports here.
    pub rotations: u16,
    /// Outputs this controller is capable of driving.
    pub possible: Vec<XId>,
}

/// Field-wise equality of two controller records.
///
/// This is the mathematical meaning of `==` on [`Crtc`]; contracts use it
/// directly so that cloned records compare by content.
pub open spec fn crtc_eq(a: Crtc, b: Crtc) -> bool {
    &&& a.xid == b.xid
    &&& a.timestamp == b.timestamp
    &&& a.x == b.x
    &&& a.y == b.y
    &&& a.width == b.width
    &&& a.height == b.height
    &&& a.mode == b.mode
    &&& a.rotation == b.rotation
    &&& a.outputs@ == b.outputs@
    &&& a.rotations == b.rotations
    &&& a.possible@ == b.possible@
}

/// Element-wise [`crtc_eq`] over two sequences of controllers.
pub open spec fn seq_crtc_eq(s: Seq<Crtc>, t: Seq<Crtc>) -> bool {
    s.len() == t.len() && forall|i: int| 0 <= i < s.len() ==> crtc_eq(s[i], t[i])
}

/// The smallest `x` coordinate used by any controller in `s`.
pub open spec fn min_x(s: Seq<Crtc>) -> int
    recommends
        s.len() > 0,
    decreases s.len(),
{
    if s.len() <= 1 {
        s[0].x as int
    } else if s.last().x as int <= min_x(s.drop_last()) {
        s.last().x as int
    } else {
        min_x(s.drop_last())
    }
}

/// The smallest `y` coordinate used by any controller in `s`.
pub open spec fn min_y(s: Seq<Crtc>) -> int
    recommends
        s.len() > 0,
    decreases s.len(),
{
    if s.len() <= 1 {
        s[0].y as int
    } else if s.last().y as int <= min_y(s.drop_last()) {
        s.last().y as int
    } else {
        min_y(s.drop_last())
    }
}

/// `c` moved by `(dx, dy)`; every other field is kept.
pub open spec fn shift_crtc(c: Crtc, dx: int, dy: int) -> Crtc {
    Crtc { x: (c.x + dx) as i32, y: (c.y + dy) as i32, ..c }
}

/// Moving every controller so the smallest used coordinate becomes `(0, 0)`
/// must neither overflow a coordinate nor leave one negative; a set that
/// violates this was inconsistent before normalization started.
pub open spec fn norm_shift_ok(s: Seq<Crtc>) -> bool {
    forall|i: int|
        0 <= i < s.len() ==> #[trigger] s[i].x - min_x(s) <= i32::MAX && s[i].y - min_y(s)
            <= i32::MAX
}

/// The normalized form of a controller set: every controller moved by the
/// same offset so that the minimum used coordinate is `(0, 0)`.  The empty
/// set is its own normalized form.
pub open spec fn norm_spec(s: Seq<Crtc>) -> Seq<Crtc> {
    if s.len() == 0 {
        s
    } else {
        Seq::new(s.len(), |i: int| shift_crtc(s[i], -min_x(s), -min_y(s)))
    }
}

/// The minimum over a non-empty set bounds every element and is attained by
/// at least one of them.
pub proof fn lemma_min_bounds(s: Seq<Crtc>)
    requires
        s.len() > 0,
    ensures
        forall|i: int| 0 <= i < s.len() ==> min_x(s) <= #[trigger] s[i].x,
        forall|i: int| 0 <= i < s.len() ==> min_y(s) <= #[trigger] s[i].y,
        exists|i: int| 0 <= i < s.len() && min_x(s) == #[trigger] s[i].x,
        exists|i: int| 0 <= i < s.len() && min_y(s) == #[trigger] s[i].y,
    decreases s.len(),
{
    if s.len() == 1 {
        assert(min_x(s) == s[0].x);
        assert(min_y(s) == s[0].y);
    } else {
        lemma_min_bounds(s.drop_last());
        assert(forall|i: int| 0 <= i < s.len() - 1 ==> s.drop_last()[i] == s[i]);
        if s.last().x as int <= min_x(s.drop_last()) {
            assert(min_x(s) == s[s.len() - 1].x);
        } else {
            let j = choose|j: int|
                0 <= j < s.drop_last().len() && min_x(s.drop_last()) == s.drop_last()[j].x;
            assert(min_x(s) == s[j].x);
        }
        if s.last().y as int <= min_y(s.drop_last()) {
            assert(min_y(s) == s[s.len() - 1].y);
        } else {
            let j = choose|j: int|
                0 <= j < s.drop_last().len() && min_y(s.drop_last()) == s.drop_last()[j].y;
            assert(min_y(s) == s[j].y);
        }
    }
}

/// Normalizes a set of controllers by making sure the top-left pixel of the
/// screen is at `(0, 0)`.  This is needed after changing positions or
/// rotations.
pub fn normalize_positions(crtcs: &mut Vec<Crtc>)
    requires
        norm_shift_ok(old(crtcs)@),
    ensures
        seq_crtc_eq(final(crtcs)@, norm_spec(old(crtcs)@)),
{
    let ghost s = crtcs@;
    if crtcs.len() == 0 {
        return ;
    }
    let mut left: i32 = crtcs[0].x;
    let mut top: i32 = crtcs[0].y;
    let mut i: usize = 1;
    while i < crtcs.len()
        invariant
            1 <= i <= s.len(),
            crtcs@ == s,
            left == min_x(s.take(i as int)),
            top == min_y(s.take(i as int)),
        decreases s.len() - i,
    {
        proof {
            assert(s.take(i + 1).drop_last() =~= s.take(i as int));
            assert(s.take(i + 1).last() == s[i as int]);
        }
        if crtcs[i].x < left {
            left = crtcs[i].x;
        }
        if crtcs[i].y < top {
            top = crtcs[i].y;
        }
        i += 1;
    }
    proof {
        assert(s.take(s.len() as int) =~= s);
    }
    if left == 0 && top == 0 {
        proof {
            assert forall|j: int| 0 <= j < s.len() implies crtc_eq(s[j], norm_spec(s)[j]) by {
                assert((s[j].x + 0) as i32 == s[j].x);
                assert((s[j].y + 0) as i32 == s[j].y);
            }
        }
        return ;
    }
    let mut out: Vec<Crtc> = Vec::new();
    let mut i: usize = 0;
    while i < crtcs.len()
        invariant
            crtcs@ == s,
            0 <= i <= s.len(),
            out@.len() == i,
            s.len() > 0,
            norm_shift_ok(s),
            left == min_x(s),
            top == min_y(s),
            forall|j: int|
                0 <= j < i ==> crtc_eq(#[trigger] out@[j], shift_crtc(s[j], -min_x(s), -min_y(s))),
        decreases s.len() - i,
    {
        let c = &crtcs[i];
        let nx64: i64 = c.x as i64 - left as i64;
        let ny64: i64 = c.y as i64 - top as i64;
        proof {
            lemma_min_bounds(s);
        }
        let outputs = c.outputs.clone();
        let possible = c.possible.clone();
        proof {
            assert(outputs@ =~= c.outputs@);
            assert(possible@ =~= c.possible@);
        }
        let nc = Crtc {
            xid: c.xid,
            timestamp: c.timestamp,
            x: nx64 as i32,
            y: ny64 as i32,
            width: c.width,
            height: c.height,
            mode: c.mode,
            rotation: c.rotation,
            outputs,
            rotations: c.rotations,
            possible,
        };
        out.push(nc);
        i += 1;
    }
    *crtcs = out;
}

/// Shifting every coordinate of a non-empty set by the same offset shifts
/// its minima by that offset.
pub proof fn lemma_min_shift(s: Seq<Crtc>, t: Seq<Crtc>, dx: int, dy: int)
    requires
        s.len() == t.len(),
        s.len() > 0,
        forall|i: int| 0 <= i < s.len() ==> #[trigger] t[i].x as int == s[i].x + dx,
        forall|i: int| 0 <= i < s.len() ==> #[trigger] t[i].y as int == s[i].y + dy,
    ensures
        min_x(t) == min_x(s) + dx,
        min_y(t) == min_y(s) + dy,
    decreases s.len(),
{
    if s.len() > 1 {
        assert(forall|i: int| 0 <= i < s.len() - 1 ==> s.drop_last()[i] == s[i]);
        assert(forall|i: int| 0 <= i < t.len() - 1 ==> t.drop_last()[i] == t[i]);
        lemma_min_shift(s.drop_last(), t.drop_last(), dx, dy);
        assert(t.last().x as int == s.last().x + dx);
        assert(t.last().y as int == s.last().y + dy);
    }
}

/// Normalization is idempotent: normalizing a second time changes nothing,
/// and after one pass the minimum used coordinate is `(0, 0)`.
pub proof fn lemma_normalize_idempotent(s: Seq<Crtc>)
    requires
        norm_shift_ok(s),
    ensures
        norm_spec(norm_spec(s)) == norm_spec(s),
        s.len() > 0 ==> min_x(norm_spec(s)) == 0 && min_y(norm_spec(s)) == 0,
{
    if s.len() > 0 {
        let t = norm_spec(s);
        lemma_min_bounds(s);
        assert(forall|i: int| 0 <= i < s.len() ==> #[trigger] t[i].x as int == s[i].x - min_x(s));
        assert(forall|i: int| 0 <= i < s.len() ==> #[trigger] t[i].y as int == s[i].y - min_y(s));
        lemma_min_shift(s, t, -min_x(s), -min_y(s));
        assert(min_x(t) == 0);
        assert(min_y(t) == 0);
        assert forall|i: int| 0 <= i < t.len() implies norm_spec(t)[i] == t[i] by {
            assert((t[i].x + 0) as i32 == t[i].x);
            assert((t[i].y + 0) as i32 == t[i].y);
        }
        assert(norm_spec(t) =~= t);
    }
}

/// Normalization preserves the relative layout: the pairwise coordinate
/// differences between any two controllers are unchanged.
pub proof fn lemma_normalize_preserves_layout(s: Seq<Crtc>, i: int, j: int)
    requires
        norm_shift_ok(s),
        0 <= i < s.len(),
        0 <= j < s.len(),
    ensures
        norm_spec(s)[i].x - norm_spec(s)[j].x == s[i].x - s[j].x,
        norm_spec(s)[i].y - norm_spec(s)[j].y == s[i].y - s[j].y,
{
    lemma_min_bounds(s);
}

impl Crtc {
    /// Width and height under `rot`: stored dimensions reflect the current
    /// rotation, so they are first un-rotated to the base orientation and
    /// then re-rotated to the target.
    pub open spec fn spec_rotated_size(self, rot: Rotation) -> (u32, u32) {
        if self.rotation.swaps_axes() == rot.swaps_axes() {
            (self.width, self.height)
        } else {
            (self.height, self.width)
        }
    }

    /// Width and height, accounting for a given rotation.
    pub fn rotated_size(&self, rot: Rotation) -> (r: (u32, u32))
        ensures
            r == self.spec_rotated_size(rot),
    {
        let (w, h) = (self.width, self.height);
        let (old_w, old_h) = match self.rotation {
            Rotation::Normal | Rotation::Inverted => (w, h),
            Rotation::Left | Rotation::Right => (h, w),
        };
        match rot {
            Rotation::Normal | Rotation::Inverted => (old_w, old_h),
            Rotation::Left | Rotation::Right => (old_h, old_w),
        }
    }

    /// Records the target rotation, swapping the stored dimensions when the
    /// new rotation changes the orientation of the scanned-out region.
    pub fn rotate(&mut self, rotation: Rotation)
        ensures
            (final(self).width, final(self).height) == old(self).spec_rotated_size(rotation),
            final(self).rotation == rotation,
            *final(self) == (Crtc {
                width: final(self).width,
                height: final(self).height,
                rotation,
                ..*old(self)
            }),
    {
        let (w, h) = self.rotated_size(rotation);
        self.width = w;
        self.height = h;
        self.rotation = rotation;
    }

    /// Alters the fields to reflect the disabled state: no mode, no outputs,
    /// parked at the origin.  The backend record is only updated once the
    /// disabled controller is handed to a commit.
    pub fn set_disable(&mut self)
        ensures
            final(self).x == 0,
            final(self).y == 0,
            final(self).mode == crate::MODE_NONE,
            final(self).rotation == Rotation::Normal,
            final(self).outputs@ == Seq::<XId>::empty(),
            final(self).xid == old(self).xid,
            final(self).timestamp == old(self).timestamp,
            final(self).width == old(self).width,
            final(self).height == old(self).height,
            final(self).rotations == old(self).rotations,
            final(self).possible@ == old(self).possible@,
    {
        self.x = 0;
        self.y = 0;
        self.mode = 0;
        self.rotation = Rotation::Normal;
        self.outputs.clear();
    }

    /// Alters the fields to enable this controller on the given mode,
    /// driving exactly the one output.  The backend record is only updated
    /// once the enabled controller is handed to a commit.
    pub fn set_enable(&mut self, mode: &crate::mode::Mode, output: XId)
        ensures
            final(self).mode == mode.xid,
            final(self).width == mode.width,
            final(self).height == mode.height,
            final(self).outputs@ == seq![output],
            final(self).xid == old(self).xid,
            final(self).timestamp == old(self).timestamp,
            final(self).x == old(self).x,
            final(self).y == old(self).y,
            final(self).rotation == old(self).rotation,
            final(self).rotations == old(self).rotations,
            final(self).possible@ == old(self).possible@,
    {
        self.mode = mode.xid;
        self.width = mode.width;
        self.height = mode.height;
        let mut outs: Vec<XId> = Vec::new();
        outs.push(output);
        proof {
            assert(outs@ =~= seq![output]);
        }
        self.outputs = outs;
    }

    /// The most down-and-right coordinates that this controller uses.
    /// Defined only for normalized controllers whose extent stays within
    /// the coordinate range.
    pub fn max_coordinates(&self) -> (r: (i32, i32))
        requires
            self.x >= 0,
            self.y >= 0,
            self.x + self.width <= i32::MAX,
            self.y + self.height <= i32::MAX,
        ensures
            r.0 == self.x + self.width,
            r.1 == self.y + self.height,
    {
        (self.x + self.width as i32, self.y + self.height as i32)
    }

    /// Moves this controller by `offset`.  The caller must ensure the new
    /// position is non-negative and in range; a violation means the
    /// surrounding topology was already inconsistent.
    pub fn offset(&mut self, offset: (i32, i32))
        requires
            0 <= old(self).x + offset.0 <= i32::MAX,
            0 <= old(self).y + offset.1 <= i32::MAX,
        ensures
            final(self).x == old(self).x + offset.0,
            final(self).y == old(self).y + offset.1,
            *final(self) == (Crtc { x: final(self).x, y: final(self).y, ..*old(self) }),
    {
        let x = (self.x as i64 + offset.0 as i64) as i32;
        let y = (self.y as i64 + offset.1 as i64) as i32;
        self.x = x;
        self.y = y;
    }

    /// The top-left position that places `self` in the given relation to
    /// `rel`: directly left of, right of, above, below, or on top of it.
    pub open spec fn spec_relative_position(self, relation: Relation, rel: Crtc) -> (int, int) {
        match relation {
            Relation::LeftOf => (rel.x - self.width, rel.y as int),
            Relation::RightOf => (rel.x + rel.width, rel.y as int),
            Relation::Above => (rel.x as int, rel.y - self.height),
            Relation::Below => (rel.x as int, rel.y + rel.height),
            Relation::SameAs => (rel.x as int, rel.y as int),
        }
    }

    /// Computes the position for `self` relative to `rel`, from its own
    /// dimensions and the reference controller's geometry.  Normalization
    /// afterwards absorbs any negative coordinates this introduces.
    pub fn relative_position(&self, relation: Relation, rel: &Crtc) -> (r: (i32, i32))
        requires
            relation == Relation::LeftOf ==> rel.x - self.width >= i32::MIN,
            relation == Relation::RightOf ==> rel.x + rel.width <= i32::MAX,
            relation == Relation::Above ==> rel.y - self.height >= i32::MIN,
            relation == Relation::Below ==> rel.y + rel.height <= i32::MAX,
        ensures
            (r.0 as int, r.1 as int) == self.spec_relative_position(relation, *rel),
    {
        let (w, h) = (self.width, self.height);
        let (rel_w, rel_h) = (rel.width, rel.height);
        let (rel_x, rel_y) = (rel.x, rel.y);
        match relation {
            Relation::LeftOf => ((rel_x as i64 - w as i64) as i32, rel_y),
            Relation::RightOf => ((rel_x as i64 + rel_w as i64) as i32, rel_y),
            Relation::Above => (rel_x, (rel_y as i64 - h as i64) as i32),
            Relation::Below => (rel_x, (rel_y as i64 + rel_h as i64) as i32),
            Relation::SameAs => (rel_x, rel_y),
        }
    }
}

/// Rotating to `rot` and then rotating the result back to the original
/// rotation restores the original dimensions.
pub proof fn lemma_rotated_size_round_trip(c: Crtc, rot: Rotation)
    ensures
        ({
            let (w, h) = c.spec_rotated_size(rot);
            (Crtc { width: w, height: h, rotation: rot, ..c }).spec_rotated_size(c.rotation) == (
                c.width,
                c.height,
            )
        }),
{
}

/// The subset of `s` that is enabled (mode not the sentinel), in order.
pub open spec fn enabled_spec(s: Seq<Crtc>) -> Seq<Crtc>
    decreases s.len(),
{
    if s.len() == 0 {
        Seq::empty()
    } else {
        let rest = enabled_spec(s.drop_last());
        if s.last().mode != crate::MODE_NONE {
            rest.push(s.last())
        } else {
            rest
        }
    }
}

/// Keeps only the enabled controllers of a snapshot: those driving a mode.
pub fn enabled_crtcs(crtcs: &Vec<Crtc>) -> (r: Vec<Crtc>)
    ensures
        seq_crtc_eq(r@, enabled_spec(crtcs@)),
{
    let mut out: Vec<Crtc> = Vec::new();
    let mut i: usize = 0;
    while i < crtcs.len()
        invariant
            0 <= i <= crtcs@.len(),
            seq_crtc_eq(out@, enabled_spec(crtcs@.take(i as int))),
        decreases crtcs@.len() - i,
    {
        proof {
            assert(crtcs@.take(i + 1).drop_last() =~= crtcs@.take(i as int));
            assert(crtcs@.take(i + 1).last() == crtcs@[i as int]);
        }
        if crtcs[i].mode != 0 {
            out.push(crtcs[i].clone());
        }
        i += 1;
    }
    proof {
        assert(crtcs@.take(crtcs@.len() as int) =~= crtcs@);
    }
    out
}

/// True iff `c` can take over the given output right now: it is capable of
/// driving it and currently drives nothing.
pub open spec fn available_for(c: Crtc, output: XId) -> bool {
    c.possible@.contains(output) && c.outputs@.len() == 0
}

/// True iff `ids` holds `x`.
fn ids_contain(ids: &Vec<XId>, x: XId) -> (r: bool)
    ensures
        r == ids@.contains(x),
{
    let mut i: usize = 0;
    while i < ids.len()
        invariant
            0 <= i <= ids@.len(),
            forall|j: int| 0 <= j < i ==> ids@[j] != x,
        decreases ids@.len() - i,
    {
        if ids[i] == x {
            return true;
        }
        i += 1;
    }
    false
}

/// Finds the first free controller capable of driving the given output.
/// Fails with the capacity error iff no controller is both capable and
/// currently unused.
pub fn find_available_crtc(crtcs: &Vec<Crtc>, output: XId) -> (r: Result<Crtc, XrandrError>)
    ensures
        match r {
            Ok(c) => exists|i: int|
                0 <= i < crtcs@.len() && available_for(#[trigger] crtcs@[i], output) && (forall|
                    j: int,
                |
                    0 <= j < i ==> !available_for(#[trigger] crtcs@[j], output)) && crtc_eq(
                    c,
                    crtcs@[i],
                ),
            Err(e) => (forall|i: int|
                0 <= i < crtcs@.len() ==> !available_for(#[trigger] crtcs@[i], output)) && e
                == XrandrError::NoCrtcAvailable,
        },
{
    let mut i: usize = 0;
    while i < crtcs.len()
        invariant
            0 <= i <= crtcs@.len(),
            forall|j: int| 0 <= j < i ==> !available_for(#[trigger] crtcs@[j], output),
        decreases crtcs@.len() - i,
    {
        if ids_contain(&crtcs[i].possible, output) && crtcs[i].outputs.len() == 0 {
            return Ok(crtcs[i].clone());
        }
        i += 1;
    }
    Err(XrandrError::NoCrtcAvailable)
}

impl Clone for Crtc {
    /// A clone carries exactly the same content as the original.
    fn clone(&self) -> (r: Self)
        ensures
            crtc_eq(r, *self),
    {
        let outputs = self.outputs.clone();
        let possible = self.possible.clone();
        proof {
            assert(outputs@ =~= self.outputs@);
            assert(possible@ =~= self.possible@);
        }
        Crtc {
            xid: self.xid,
            timestamp: self.timestamp,
            x: self.x,
            y: self.y,
            width: self.width,
            height: self.height,
            mode: self.mode,
            rotation: self.rotation,
            outputs,
            rotations: self.rotations,
            possible,
        }
    }
}

} // verus!
