//! The reconciliation and commit-planning engine.
//!
//! A caller hands in a change set: the desired states of a few controllers.
//! Reconciliation merges them into the freshly read topology, re-resolves
//! mode-derived geometry, normalizes positions and computes the covering
//! screen size.  Planning then decides, purely, which backend mutations a
//! commit must issue and in which order: disable the controllers that no
//! longer fit, resize the virtual screen, then apply every changed
//! controller — unless a timestamp shows that another actor modified a
//! controller after the snapshot was taken, in which case the whole commit
//! is abandoned.

use vstd::prelude::*;

use crate::crtc::crtc_eq;
use crate::crtc::lemma_min_bounds;
use crate::crtc::min_x;
use crate::crtc::min_y;
use crate::crtc::norm_shift_ok;
use crate::crtc::norm_spec;
use crate::crtc::normalize_positions;
use crate::crtc::seq_crtc_eq;
use crate::crtc::Crtc;
use crate::mode::find_mode;
use crate::mode::has_mode;
use crate::mode::Mode;
use crate::screensize::crtc_bounds_ok;
use crate::screensize::fits_spec;
use crate::screensize::lemma_max_bounds;
use crate::screensize::max_bottom;
use crate::screensize::max_right;
use crate::screensize::round_div;
use crate::screensize::size_spec;
use crate::screensize::ScreenSize;
use crate::XId;
use crate::XrandrError;
use crate::MODE_NONE;

verus! {

/// True iff some controller in `s` carries the id `xid`.
pub open spec fn has_crtc(s: Seq<Crtc>, xid: XId) -> bool {
    exists|i: int| 0 <= i < s.len() && #[trigger] s[i].xid == xid
}

/// The position of the first controller with id `xid`; meaningful only when
/// one exists.
pub open spec fn first_crtc_index(s: Seq<Crtc>, xid: XId) -> int
    recommends
        has_crtc(s, xid),
    decreases s.len(),
{
    if s.len() == 0 {
        0
    } else if s[0].xid == xid {
        0
    } else {
        1 + first_crtc_index(s.drop_first(), xid)
    }
}

/// The first controller with id `xid`; meaningful only when one exists.
pub open spec fn find_crtc(s: Seq<Crtc>, xid: XId) -> Crtc {
    s[first_crtc_index(s, xid)]
}

/// No two controllers in `s` share an id.
pub open spec fn unique_xids(s: Seq<Crtc>) -> bool {
    forall|i: int, j: int|
        #![trigger s[i].xid, s[j].xid]
        0 <= i < j < s.len() ==> s[i].xid != s[j].xid
}

/// `first_crtc_index` names exactly the first matching position.
pub proof fn lemma_first_crtc_index(s: Seq<Crtc>, xid: XId, i: int)
    requires
        0 <= i < s.len(),
        s[i].xid == xid,
        forall|j: int| 0 <= j < i ==> #[trigger] s[j].xid != xid,
    ensures
        first_crtc_index(s, xid) == i,
        has_crtc(s, xid),
    decreases i,
{
    if i > 0 {
        assert(forall|j: int| 0 <= j < i - 1 ==> #[trigger] s.drop_first()[j] == s[j + 1]);
        lemma_first_crtc_index(s.drop_first(), xid, i - 1);
    }
}

/// Whenever some controller carries `xid`, `find_crtc` returns the first
/// one that does.
pub proof fn lemma_find_crtc(s: Seq<Crtc>, xid: XId)
    requires
        has_crtc(s, xid),
    ensures
        0 <= first_crtc_index(s, xid) < s.len(),
        find_crtc(s, xid).xid == xid,
        forall|j: int| 0 <= j < first_crtc_index(s, xid) ==> #[trigger] s[j].xid != xid,
    decreases s.len(),
{
    if s.len() > 0 && s[0].xid != xid {
        assert(forall|j: int| 0 <= j < s.len() - 1 ==> #[trigger] s.drop_first()[j] == s[j + 1]);
        let w = choose|i: int| 0 <= i < s.len() && #[trigger] s[i].xid == xid;
        assert(s.drop_first()[w - 1].xid == xid);
        lemma_find_crtc(s.drop_first(), xid);
        assert forall|j: int| 0 <= j < first_crtc_index(s, xid) implies #[trigger] s[j].xid
            != xid by {
            if j > 0 {
                assert(s.drop_first()[j - 1].xid != xid);
            }
        }
    }
}

/// The position of the first controller with id `xid`, as the search result
/// of a left-to-right scan.
fn find_crtc_position(s: &Vec<Crtc>, xid: XId) -> (r: Option<usize>)
    ensures
        match r {
            Some(i) => has_crtc(s@, xid) && first_crtc_index(s@, xid) == i && i < s@.len()
                && s@[i as int].xid == xid,
            None => !has_crtc(s@, xid),
        },
{
    let mut i: usize = 0;
    while i < s.len()
        invariant
            0 <= i <= s@.len(),
            forall|j: int| 0 <= j < i ==> #[trigger] s@[j].xid != xid,
        decreases s@.len() - i,
    {
        if s[i].xid == xid {
            proof {
                lemma_first_crtc_index(s@, xid, i as int);
            }
            return Some(i);
        }
        i += 1;
    }
    None
}

/// The old topology with every controller that the change set names
/// replaced by its desired version; order and ids are preserved.
pub open spec fn substituted(old: Seq<Crtc>, changes: Seq<Crtc>) -> Seq<Crtc> {
    Seq::new(
        old.len(),
        |i: int|
            if has_crtc(changes, old[i].xid) {
                find_crtc(changes, old[i].xid)
            } else {
                old[i]
            },
    )
}

/// The change-set entries whose ids do not occur in the old topology:
/// newly-enabled controllers, kept in change-set order.
pub open spec fn novel_changes(old: Seq<Crtc>, changes: Seq<Crtc>) -> Seq<Crtc>
    decreases changes.len(),
{
    if changes.len() == 0 {
        Seq::empty()
    } else {
        let rest = novel_changes(old, changes.drop_last());
        if has_crtc(old, changes.last().xid) {
            rest
        } else {
            rest.push(changes.last())
        }
    }
}

/// The merged ("new") topology: every old controller, substituted where the
/// change set names it, followed by the newly-enabled controllers.
pub open spec fn merge_spec(old: Seq<Crtc>, changes: Seq<Crtc>) -> Seq<Crtc> {
    substituted(old, changes) + novel_changes(old, changes)
}

/// Builds the new topology from the old one and a change set: for each old
/// controller the caller's desired version if the change set has one, the
/// old controller unchanged otherwise; change-set entries with unknown ids
/// are appended as newly-enabled controllers.
pub fn merge_changes(old: &Vec<Crtc>, changes: &Vec<Crtc>) -> (r: Vec<Crtc>)
    ensures
        seq_crtc_eq(r@, merge_spec(old@, changes@)),
        r@.len() >= old@.len(),
        forall|i: int| 0 <= i < old@.len() ==> (#[trigger] r@[i]).xid == old@[i].xid,
{
    let mut out: Vec<Crtc> = Vec::new();
    let mut i: usize = 0;
    while i < old.len()
        invariant
            0 <= i <= old@.len(),
            out@.len() == i,
            forall|k: int|
                0 <= k < i ==> crtc_eq(#[trigger] out@[k], substituted(old@, changes@)[k]),
        decreases old@.len() - i,
    {
        match find_crtc_position(changes, old[i].xid) {
            Some(j) => out.push(changes[j].clone()),
            None => out.push(old[i].clone()),
        }
        i += 1;
    }
    let mut j: usize = 0;
    while j < changes.len()
        invariant
            0 <= j <= changes@.len(),
            out@.len() >= old@.len(),
            forall|k: int|
                0 <= k < old@.len() ==> crtc_eq(#[trigger] out@[k], substituted(old@, changes@)[k]),
            seq_crtc_eq(
                out@.skip(old@.len() as int),
                novel_changes(old@, changes@.take(j as int)),
            ),
        decreases changes@.len() - j,
    {
        proof {
            assert(changes@.take(j + 1).drop_last() =~= changes@.take(j as int));
            assert(changes@.take(j + 1).last() == changes@[j as int]);
        }
        if find_crtc_position(old, changes[j].xid).is_none() {
            out.push(changes[j].clone());
        }
        j += 1;
    }
    proof {
        assert(changes@.take(changes@.len() as int) =~= changes@);
        assert forall|k: int| 0 <= k < out@.len() implies crtc_eq(
            out@[k],
            merge_spec(old@, changes@)[k],
        ) by {
            if k >= old@.len() {
                assert(out@.skip(old@.len() as int)[k - old@.len()] == out@[k]);
            }
        }
        assert forall|i: int| 0 <= i < old@.len() implies (#[trigger] out@[i]).xid
            == old@[i].xid by {
            assert(crtc_eq(out@[i], substituted(old@, changes@)[i]));
            if has_crtc(changes@, old@[i].xid) {
                lemma_find_crtc(changes@, old@[i].xid);
            }
        }
    }
    out
}

/// True iff `c`'s geometry must be re-resolved from the mode table: it is
/// enabled, and either its mode differs from the old record with the same
/// id, or it has no old record (a newly-enabled controller).
pub open spec fn needs_resolve(c: Crtc, old: Seq<Crtc>) -> bool {
    c.mode != MODE_NONE && (!has_crtc(old, c.xid) || find_crtc(old, c.xid).mode != c.mode)
}

/// `c` with its dimensions re-resolved from the mode table where needed,
/// so that geometry reflects the target mode rather than stale values the
/// caller may not have updated.
pub open spec fn resolved_crtc(c: Crtc, old: Seq<Crtc>, modes: Seq<Mode>) -> Crtc {
    if needs_resolve(c, old) {
        Crtc { width: find_mode(modes, c.mode).width, height: find_mode(modes, c.mode).height, ..c }
    } else {
        c
    }
}

/// True iff `c` needs re-resolution but the mode table has no entry for its
/// mode id.
pub open spec fn unresolvable(c: Crtc, old: Seq<Crtc>, modes: Seq<Mode>) -> bool {
    needs_resolve(c, old) && !has_mode(modes, c.mode)
}

/// True iff every controller in `topo` that needs re-resolution has its
/// mode in the table.
pub open spec fn resolve_ok(topo: Seq<Crtc>, old: Seq<Crtc>, modes: Seq<Mode>) -> bool {
    forall|i: int| 0 <= i < topo.len() ==> !unresolvable(#[trigger] topo[i], old, modes)
}

/// `topo` with every controller's geometry re-resolved where needed;
/// meaningful only when `resolve_ok` holds.
pub open spec fn resolved_topology(topo: Seq<Crtc>, old: Seq<Crtc>, modes: Seq<Mode>) -> Seq<
    Crtc,
> {
    Seq::new(topo.len(), |i: int| resolved_crtc(topo[i], old, modes))
}

/// Re-resolves width and height from the mode table for every controller in
/// `topology` whose mode is newly set or differs from its old record.
/// Fails with a lookup error naming the first unknown mode id iff one is
/// missing from the table.
pub fn resolve_geometry(topology: &Vec<Crtc>, old: &Vec<Crtc>, modes: &Vec<Mode>) -> (r: Result<
    Vec<Crtc>,
    XrandrError,
>)
    ensures
        match r {
            Ok(v) => resolve_ok(topology@, old@, modes@) && seq_crtc_eq(
                v@,
                resolved_topology(topology@, old@, modes@),
            ),
            Err(e) => !resolve_ok(topology@, old@, modes@) && exists|i: int|
                0 <= i < topology@.len() && unresolvable(#[trigger] topology@[i], old@, modes@) && (
                forall|j: int| 0 <= j < i ==> !unresolvable(#[trigger] topology@[j], old@, modes@))
                    && e == XrandrError::GetModeInfo(topology@[i].mode),
        },
{
    let mut out: Vec<Crtc> = Vec::new();
    let mut i: usize = 0;
    while i < topology.len()
        invariant
            0 <= i <= topology@.len(),
            out@.len() == i,
            forall|j: int| 0 <= j < i ==> !unresolvable(#[trigger] topology@[j], old@, modes@),
            forall|k: int|
                0 <= k < i ==> crtc_eq(
                    #[trigger] out@[k],
                    resolved_crtc(topology@[k], old@, modes@),
                ),
        decreases topology@.len() - i,
    {
        let c = &topology[i];
        let needs = c.mode != MODE_NONE && match find_crtc_position(old, c.xid) {
            Some(p) => old[p].mode != c.mode,
            None => true,
        };
        if needs {
            match crate::mode::lookup_mode(modes, c.mode) {
                Ok(m) => {
                    let mut nc = c.clone();
                    nc.width = m.width;
                    nc.height = m.height;
                    out.push(nc);
                },
                Err(e) => {
                    return Err(e);
                },
            }
        } else {
            out.push(c.clone());
        }
        i += 1;
    }
    Ok(out)
}

/// True iff the two id vectors hold the same ids in the same order.
fn ids_equal(a: &Vec<XId>, b: &Vec<XId>) -> (r: bool)
    ensures
        r == (a@ == b@),
{
    if a.len() != b.len() {
        proof {
            assert(a@ != b@);
        }
        return false;
    }
    let mut i: usize = 0;
    while i < a.len()
        invariant
            0 <= i <= a@.len(),
            a@.len() == b@.len(),
            forall|j: int| 0 <= j < i ==> a@[j] == b@[j],
        decreases a@.len() - i,
    {
        if a[i] != b[i] {
            proof {
                assert(a@ != b@);
            }
            return false;
        }
        i += 1;
    }
    proof {
        assert(a@ =~= b@);
    }
    true
}

/// True iff the two controller records agree on every field.
pub fn crtcs_equal(a: &Crtc, b: &Crtc) -> (r: bool)
    ensures
        r == crtc_eq(*a, *b),
{
    a.xid == b.xid && a.timestamp == b.timestamp && a.x == b.x && a.y == b.y && a.width == b.width
        && a.height == b.height && a.mode == b.mode && a.rotation == b.rotation && a.rotations
        == b.rotations && ids_equal(&a.outputs, &b.outputs) && ids_equal(&a.possible, &b.possible)
}

/// The ids of the controllers in `old` that do not fit `size`, in topology
/// order: these must be disabled before the screen can shrink.
pub open spec fn disables_spec(old: Seq<Crtc>, size: ScreenSize) -> Seq<XId>
    decreases old.len(),
{
    if old.len() == 0 {
        Seq::empty()
    } else {
        let rest = disables_spec(old.drop_last(), size);
        if !fits_spec(size, old.last()) {
            rest.push(old.last().xid)
        } else {
            rest
        }
    }
}

/// True iff some paired controller's desired timestamp is older than the
/// snapshot's: another actor wrote to the backend record in between.
pub open spec fn has_conflict(old: Seq<Crtc>, new: Seq<Crtc>) -> bool {
    exists|i: int| 0 <= i < old.len() && (#[trigger] new[i].timestamp) < old[i].timestamp
}

/// The first paired position whose timestamp regressed; meaningful only
/// when a conflict exists.
pub open spec fn first_conflict_index(old: Seq<Crtc>, new: Seq<Crtc>) -> int
    recommends
        has_conflict(old, new),
    decreases old.len(),
{
    if old.len() == 0 {
        0
    } else if new[0].timestamp < old[0].timestamp {
        0
    } else {
        1 + first_conflict_index(old.drop_first(), new.drop_first())
    }
}

/// `first_conflict_index` names exactly the first regressed pair.
pub proof fn lemma_first_conflict_index(old: Seq<Crtc>, new: Seq<Crtc>, i: int)
    requires
        0 <= i < old.len(),
        old.len() <= new.len(),
        new[i].timestamp < old[i].timestamp,
        forall|j: int| 0 <= j < i ==> (#[trigger] new[j].timestamp) >= old[j].timestamp,
    ensures
        first_conflict_index(old, new) == i,
        has_conflict(old, new),
    decreases i,
{
    if i > 0 {
        assert(forall|j: int|
            0 <= j < old.len() - 1 ==> #[trigger] old.drop_first()[j] == old[j + 1]);
        assert(forall|j: int|
            0 <= j < new.len() - 1 ==> #[trigger] new.drop_first()[j] == new[j + 1]);
        lemma_first_conflict_index(old.drop_first(), new.drop_first(), i - 1);
    }
}

/// The paired part of the apply diff: among the first `n` pairs, every
/// desired controller that differs from its snapshot, in topology order.
pub open spec fn paired_applies(old: Seq<Crtc>, new: Seq<Crtc>, n: int) -> Seq<Crtc>
    decreases n,
{
    if n <= 0 {
        Seq::empty()
    } else {
        let rest = paired_applies(old, new, n - 1);
        if !crtc_eq(old[n - 1], new[n - 1]) {
            rest.push(new[n - 1])
        } else {
            rest
        }
    }
}

/// The controllers a commit must apply: every paired controller that
/// changed, followed by every newly-enabled controller.
pub open spec fn applies_spec(old: Seq<Crtc>, new: Seq<Crtc>) -> Seq<Crtc> {
    paired_applies(old, new, old.len() as int) + new.skip(old.len() as int)
}

/// Everything a commit must do, in order: disable the controllers that no
/// longer fit, resize the virtual screen if anything changed, then either
/// apply the changed controllers or abandon the commit because a
/// concurrent modification was detected.
#[derive(Debug)]
pub struct CommitPlan {
    /// Ids to disable, before the resize; their footprint would not fit the
    /// target size.
    pub disables: Vec<XId>,
    /// The target virtual screen size; absent when the commit has nothing
    /// to do at all.
    pub resize: Option<ScreenSize>,
    /// The controllers to apply after the resize, or the conflict that
    /// forces the caller to abandon the commit, re-read and re-decide.
    pub outcome: Result<Vec<Crtc>, XrandrError>,
}

/// Decides every mutation a commit of `new` over `old` must issue.
/// Controllers are paired by position; the old topology is always a prefix
/// of the new one, with newly-enabled controllers appended.
#[verifier::loop_isolation(false)]
pub fn plan_commit(old: &Vec<Crtc>, new: &Vec<Crtc>, size: &ScreenSize) -> (r: CommitPlan)
    requires
        old@.len() <= new@.len(),
        forall|i: int| 0 <= i < old@.len() ==> old@[i].xid == #[trigger] new@[i].xid,
        crtc_bounds_ok(old@),
    ensures
        r.disables@ == disables_spec(old@, *size),
        r.resize == (if disables_spec(old@, *size).len() == 0 && seq_crtc_eq(old@, new@) {
            Option::<ScreenSize>::None
        } else {
            Option::Some(*size)
        }),
        match r.outcome {
            Ok(v) => !has_conflict(old@, new@) && seq_crtc_eq(v@, applies_spec(old@, new@)),
            Err(e) => has_conflict(old@, new@) && e == XrandrError::CrtcChanged(
                new@[first_conflict_index(old@, new@)].xid,
            ),
        },
{
    let ghost so = old@;
    let ghost sn = new@;
    let mut disables: Vec<XId> = Vec::new();
    let mut i: usize = 0;
    while i < old.len()
        invariant
            0 <= i <= so.len(),
            old@ == so,
            crtc_bounds_ok(so),
            disables@ == disables_spec(so.take(i as int), *size),
        decreases so.len() - i,
    {
        proof {
            assert(so.take(i + 1).drop_last() =~= so.take(i as int));
            assert(so.take(i + 1).last() == so[i as int]);
        }
        if !size.fits_crtc(&old[i]) {
            disables.push(old[i].xid);
        }
        i += 1;
    }
    proof {
        assert(so.take(so.len() as int) =~= so);
    }

    let mut applies: Vec<Crtc> = Vec::new();
    let mut all_equal: bool = true;
    let mut i: usize = 0;
    while i < old.len()
        invariant
            0 <= i <= so.len(),
            so.len() <= sn.len(),
            old@ == so,
            new@ == sn,
            forall|j: int| 0 <= j < i ==> (#[trigger] sn[j].timestamp) >= so[j].timestamp,
            seq_crtc_eq(applies@, paired_applies(so, sn, i as int)),
            all_equal == (forall|j: int| 0 <= j < i ==> crtc_eq(so[j], #[trigger] sn[j])),
        decreases so.len() - i,
    {
        if new[i].timestamp < old[i].timestamp {
            proof {
                lemma_first_conflict_index(so, sn, i as int);
                assert(!crtc_eq(so[i as int], sn[i as int]));
                assert(!seq_crtc_eq(so, sn));
            }
            return CommitPlan {
                disables,
                resize: Some(*size),
                outcome: Err(XrandrError::CrtcChanged(new[i].xid)),
            };
        }
        if !crtcs_equal(&old[i], &new[i]) {
            applies.push(new[i].clone());
            all_equal = false;
        }
        i += 1;
    }

    let mut j: usize = old.len();
    while j < new.len()
        invariant
            so.len() <= j <= sn.len(),
            new@ == sn,
            old@ == so,
            applies@.len() == paired_applies(so, sn, so.len() as int).len() + (j - so.len()),
            forall|k: int|
                0 <= k < paired_applies(so, sn, so.len() as int).len() ==> crtc_eq(
                    #[trigger] applies@[k],
                    paired_applies(so, sn, so.len() as int)[k],
                ),
            forall|k: int|
                so.len() <= k < j ==> crtc_eq(
                    #[trigger] applies@[k - so.len() + paired_applies(
                        so,
                        sn,
                        so.len() as int,
                    ).len()],
                    sn[k],
                ),
        decreases sn.len() - j,
    {
        applies.push(new[j].clone());
        j += 1;
    }

    let resize: Option<ScreenSize> = if disables.len() == 0 && all_equal && old.len()
        == new.len() {
        proof {
            assert(seq_crtc_eq(so, sn));
        }
        None
    } else {
        proof {
            if disables@.len() == 0 && seq_crtc_eq(so, sn) {
                assert(so.len() == sn.len());
                assert(all_equal);
            }
        }
        Some(*size)
    };
    proof {
        assert(!has_conflict(so, sn));
        let pl = paired_applies(so, sn, so.len() as int);
        assert(applies@.len() == applies_spec(so, sn).len());
        assert forall|k: int| 0 <= k < applies@.len() implies crtc_eq(
            applies@[k],
            applies_spec(so, sn)[k],
        ) by {
            if k < pl.len() {
                assert(applies_spec(so, sn)[k] == pl[k]);
            } else {
                let kp = k - pl.len() + so.len();
                assert(crtc_eq(applies@[kp - so.len() + pl.len()], sn[kp]));
                assert(applies_spec(so, sn)[k] == sn.skip(so.len() as int)[k - pl.len()]);
                assert(sn.skip(so.len() as int)[k - pl.len()] == sn[kp]);
            }
        }
    }
    CommitPlan { disables, resize, outcome: Ok(applies) }
}

/// Content-equal topologies agree on every derived geometric quantity, and
/// normalization maps them to content-equal results.
pub proof fn lemma_geometry_congruence(s: Seq<Crtc>, t: Seq<Crtc>)
    requires
        seq_crtc_eq(s, t),
    ensures
        s.len() > 0 ==> min_x(s) == min_x(t),
        s.len() > 0 ==> min_y(s) == min_y(t),
        s.len() > 0 ==> max_right(s) == max_right(t),
        s.len() > 0 ==> max_bottom(s) == max_bottom(t),
        norm_shift_ok(s) == norm_shift_ok(t),
        crtc_bounds_ok(s) == crtc_bounds_ok(t),
        seq_crtc_eq(norm_spec(s), norm_spec(t)),
    decreases s.len(),
{
    if s.len() > 1 {
        assert(seq_crtc_eq(s.drop_last(), t.drop_last())) by {
            assert(forall|i: int| 0 <= i < s.len() - 1 ==> s.drop_last()[i] == s[i]);
            assert(forall|i: int| 0 <= i < t.len() - 1 ==> t.drop_last()[i] == t[i]);
            assert(forall|i: int|
                0 <= i < s.len() - 1 ==> crtc_eq(
                    #[trigger] s.drop_last()[i],
                    t.drop_last()[i],
                ));
        }
        lemma_geometry_congruence(s.drop_last(), t.drop_last());
        assert(crtc_eq(s.last(), t.last()));
    }
    if s.len() > 0 {
        assert(min_x(s) == min_x(t));
        assert(min_y(s) == min_y(t));
        assert forall|i: int|
            0 <= i < norm_spec(s).len() implies crtc_eq(
            #[trigger] norm_spec(s)[i],
            norm_spec(t)[i],
        ) by {
            assert(crtc_eq(s[i], t[i]));
        }
    }
    assert(norm_shift_ok(s) == norm_shift_ok(t)) by {
        if norm_shift_ok(s) {
            assert forall|i: int|
                0 <= i < t.len() implies #[trigger] t[i].x - min_x(t) <= i32::MAX
                && t[i].y - min_y(t) <= i32::MAX by {
                assert(crtc_eq(s[i], t[i]));
                assert(s[i].x - min_x(s) <= i32::MAX);
            }
        }
        if norm_shift_ok(t) {
            assert forall|i: int|
                0 <= i < s.len() implies #[trigger] s[i].x - min_x(s) <= i32::MAX
                && s[i].y - min_y(s) <= i32::MAX by {
                assert(crtc_eq(s[i], t[i]));
                assert(t[i].x - min_x(t) <= i32::MAX);
            }
        }
    }
    assert(crtc_bounds_ok(s) == crtc_bounds_ok(t)) by {
        if crtc_bounds_ok(s) {
            assert forall|i: int|
                #![trigger t[i]]
                0 <= i < t.len() implies t[i].x >= 0 && t[i].y >= 0 && t[i].x + t[i].width
                <= i32::MAX && t[i].y + t[i].height <= i32::MAX by {
                assert(crtc_eq(s[i], t[i]));
                assert(s[i].x >= 0);
            }
        }
        if crtc_bounds_ok(t) {
            assert forall|i: int|
                #![trigger s[i]]
                0 <= i < s.len() implies s[i].x >= 0 && s[i].y >= 0 && s[i].x + s[i].width
                <= i32::MAX && s[i].y + s[i].height <= i32::MAX by {
                assert(crtc_eq(s[i], t[i]));
                assert(t[i].x >= 0);
            }
        }
    }
}

/// Content-equal topologies need the same re-resolutions and resolve to
/// content-equal results.
pub proof fn lemma_resolve_congruence(s: Seq<Crtc>, t: Seq<Crtc>, old: Seq<Crtc>, modes: Seq<Mode>)
    requires
        seq_crtc_eq(s, t),
    ensures
        resolve_ok(s, old, modes) == resolve_ok(t, old, modes),
        forall|i: int|
            0 <= i < s.len() ==> unresolvable(#[trigger] s[i], old, modes) == unresolvable(
                t[i],
                old,
                modes,
            ),
        seq_crtc_eq(resolved_topology(s, old, modes), resolved_topology(t, old, modes)),
{
    assert forall|i: int| 0 <= i < s.len() implies unresolvable(#[trigger] s[i], old, modes)
        == unresolvable(t[i], old, modes) && crtc_eq(
        resolved_crtc(s[i], old, modes),
        resolved_crtc(t[i], old, modes),
    ) by {
        assert(crtc_eq(s[i], t[i]));
        assert(needs_resolve(s[i], old) == needs_resolve(t[i], old));
    }
    if resolve_ok(s, old, modes) {
        assert forall|i: int| 0 <= i < t.len() implies !unresolvable(
            #[trigger] t[i],
            old,
            modes,
        ) by {
            assert(!unresolvable(s[i], old, modes));
        }
    }
    if resolve_ok(t, old, modes) {
        assert forall|i: int| 0 <= i < s.len() implies !unresolvable(
            #[trigger] s[i],
            old,
            modes,
        ) by {
            assert(!unresolvable(t[i], old, modes));
        }
    }
}

/// The complete reconciled topology for a change set: the merged topology
/// with geometry re-resolved, then normalized.  Meaningful only when every
/// needed mode is in the table.
pub open spec fn reconciled_spec(old: Seq<Crtc>, changes: Seq<Crtc>, modes: Seq<Mode>) -> Seq<
    Crtc,
> {
    norm_spec(resolved_topology(merge_spec(old, changes), old, modes))
}

/// Everything reconciliation demands of its inputs beyond what it can
/// reject gracefully: the change set is a map (unique ids), the snapshot is
/// normalized and in range, something is enabled, the reference metrics are
/// positive, and — whenever every needed mode resolves — the reconciled
/// geometry stays within the coordinate range.  A violation of the
/// geometric conditions means the caller supplied an inconsistent topology,
/// which is a fatal defect rather than a recoverable error.
pub open spec fn reconcile_wf(
    old: Seq<Crtc>,
    changes: Seq<Crtc>,
    modes: Seq<Mode>,
    ref_px: int,
    ref_mm: int,
) -> bool {
    &&& unique_xids(changes)
    &&& crtc_bounds_ok(old)
    &&& merge_spec(old, changes).len() > 0
    &&& 0 < ref_px
    &&& 0 < ref_mm
    &&& (resolve_ok(merge_spec(old, changes), old, modes) ==> {
        let t = resolved_topology(merge_spec(old, changes), old, modes);
        &&& norm_shift_ok(t)
        &&& crtc_bounds_ok(norm_spec(t))
        &&& round_div(
            max_right(norm_spec(t)) * ref_mm,
            ref_px,
        ) <= i32::MAX
        &&& round_div(
            max_bottom(norm_spec(t)) * ref_mm,
            ref_px,
        ) <= i32::MAX
    })
}

/// Reconciles a change set against the old topology: merges, re-resolves
/// mode geometry, normalizes, and computes the covering screen size.  No
/// backend mutation is decided yet.  Fails with a lookup error iff a target
/// mode is missing from the table.
pub fn reconcile(
    old: &Vec<Crtc>,
    changes: &Vec<Crtc>,
    modes: &Vec<Mode>,
    ref_height_px: i32,
    ref_height_mm: i32,
) -> (r: Result<(Vec<Crtc>, ScreenSize), XrandrError>)
    requires
        reconcile_wf(old@, changes@, modes@, ref_height_px as int, ref_height_mm as int),
    ensures
        match r {
            Ok(p) => resolve_ok(merge_spec(old@, changes@), old@, modes@) && seq_crtc_eq(
                p.0@,
                reconciled_spec(old@, changes@, modes@),
            ) && p.1 == size_spec(
                reconciled_spec(old@, changes@, modes@),
                ref_height_px as int,
                ref_height_mm as int,
            ),
            Err(e) => !resolve_ok(merge_spec(old@, changes@), old@, modes@) && exists|i: int|
                0 <= i < merge_spec(old@, changes@).len() && unresolvable(
                    #[trigger] merge_spec(old@, changes@)[i],
                    old@,
                    modes@,
                ) && (forall|j: int|
                    0 <= j < i ==> !unresolvable(
                        #[trigger] merge_spec(old@, changes@)[j],
                        old@,
                        modes@,
                    )) && e == XrandrError::GetModeInfo(merge_spec(old@, changes@)[i].mode),
        },
{
    let ghost mspec = merge_spec(old@, changes@);
    let merged = merge_changes(old, changes);
    proof {
        lemma_resolve_congruence(merged@, mspec, old@, modes@);
    }
    let mut topo = match resolve_geometry(&merged, old, modes) {
        Ok(v) => v,
        Err(e) => {
            proof {
                let i = choose|i: int|
                    0 <= i < merged@.len() && unresolvable(#[trigger] merged@[i], old@, modes@) && (
                    forall|j: int|
                        0 <= j < i ==> !unresolvable(#[trigger] merged@[j], old@, modes@)) && e
                        == XrandrError::GetModeInfo(merged@[i].mode);
                assert(unresolvable(mspec[i], old@, modes@));
                assert(forall|j: int|
                    0 <= j < i ==> !unresolvable(#[trigger] mspec[j], old@, modes@));
                assert(crtc_eq(merged@[i], mspec[i]));
            }
            return Err(e);
        },
    };
    let ghost rspec = resolved_topology(mspec, old@, modes@);
    proof {
        assert(seq_crtc_eq(topo@, rspec)) by {
            assert(seq_crtc_eq(topo@, resolved_topology(merged@, old@, modes@)));
            assert forall|i: int| 0 <= i < topo@.len() implies crtc_eq(
                #[trigger] topo@[i],
                rspec[i],
            ) by {
                assert(crtc_eq(topo@[i], resolved_topology(merged@, old@, modes@)[i]));
                assert(crtc_eq(resolved_topology(merged@, old@, modes@)[i], rspec[i]));
            }
        }
        lemma_geometry_congruence(topo@, rspec);
    }
    let ghost before_norm = topo@;
    normalize_positions(&mut topo);
    let ghost nspec = reconciled_spec(old@, changes@, modes@);
    proof {
        assert(seq_crtc_eq(topo@, nspec)) by {
            assert(seq_crtc_eq(topo@, norm_spec(before_norm)));
            assert(seq_crtc_eq(norm_spec(before_norm), nspec));
            assert forall|i: int| 0 <= i < topo@.len() implies crtc_eq(
                #[trigger] topo@[i],
                nspec[i],
            ) by {
                assert(crtc_eq(topo@[i], norm_spec(before_norm)[i]));
                assert(crtc_eq(norm_spec(before_norm)[i], nspec[i]));
            }
        }
        lemma_geometry_congruence(topo@, nspec);
    }
    let size = ScreenSize::fitting_crtcs(&topo, ref_height_px, ref_height_mm);
    Ok((topo, size))
}

/// Reconciliation preserves the pairing invariant the commit sequencer
/// relies on: the reconciled topology is at least as long as the old one
/// and carries the old ids, in order, as a prefix.
pub proof fn lemma_reconciled_prefix_xids(old: Seq<Crtc>, changes: Seq<Crtc>, modes: Seq<Mode>)
    ensures
        reconciled_spec(old, changes, modes).len() == merge_spec(old, changes).len(),
        merge_spec(old, changes).len() >= old.len(),
        forall|i: int|
            0 <= i < old.len() ==> (#[trigger] reconciled_spec(old, changes, modes)[i]).xid
                == old[i].xid,
{
    assert forall|i: int| 0 <= i < old.len() implies (#[trigger] reconciled_spec(
        old,
        changes,
        modes,
    )[i]).xid == old[i].xid by {
        assert(merge_spec(old, changes)[i] == substituted(old, changes)[i]);
        if has_crtc(changes, old[i].xid) {
            lemma_find_crtc(changes, old[i].xid);
        }
        assert(merge_spec(old, changes)[i].xid == old[i].xid);
        assert(resolved_topology(merge_spec(old, changes), old, modes)[i].xid == old[i].xid);
    }
}

/// Content-equal "new" topologies lead to the same conflict decision and to
/// content-equal apply diffs.
pub proof fn lemma_plan_congruence(old: Seq<Crtc>, new: Seq<Crtc>, new2: Seq<Crtc>, n: int)
    requires
        seq_crtc_eq(new, new2),
        0 <= n <= old.len(),
        old.len() <= new.len(),
    ensures
        has_conflict(old, new) == has_conflict(old, new2),
        has_conflict(old, new) ==> first_conflict_index(old, new) == first_conflict_index(
            old,
            new2,
        ),
        seq_crtc_eq(paired_applies(old, new, n), paired_applies(old, new2, n)),
        seq_crtc_eq(old, new) == seq_crtc_eq(old, new2),
    decreases n + 1,
{
    if has_conflict(old, new) {
        let i = choose|i: int|
            0 <= i < old.len() && (#[trigger] new[i].timestamp) < old[i].timestamp;
        assert(crtc_eq(new[i], new2[i]));
        assert(has_conflict(old, new2));
    }
    if has_conflict(old, new2) {
        let i = choose|i: int|
            0 <= i < old.len() && (#[trigger] new2[i].timestamp) < old[i].timestamp;
        assert(crtc_eq(new[i], new2[i]));
        assert(has_conflict(old, new));
    }
    if has_conflict(old, new) {
        lemma_first_conflict_props(old, new);
        let f = first_conflict_index(old, new);
        assert forall|j: int| 0 <= j < f implies (#[trigger] new2[j].timestamp)
            >= old[j].timestamp by {
            assert(crtc_eq(new[j], new2[j]));
        }
        assert(crtc_eq(new[f], new2[f]));
        lemma_first_conflict_index(old, new2, f);
    }
    if n > 0 {
        lemma_plan_congruence(old, new, new2, n - 1);
        assert(crtc_eq(new[n - 1], new2[n - 1]));
        assert(crtc_eq(old[n - 1], new[n - 1]) == crtc_eq(old[n - 1], new2[n - 1]));
    }
    if seq_crtc_eq(old, new) {
        assert forall|i: int| 0 <= i < old.len() implies crtc_eq(old[i], #[trigger] new2[i]) by {
            assert(crtc_eq(old[i], new[i]));
            assert(crtc_eq(new[i], new2[i]));
        }
    }
    if seq_crtc_eq(old, new2) {
        assert forall|i: int| 0 <= i < old.len() implies crtc_eq(old[i], #[trigger] new[i]) by {
            assert(crtc_eq(old[i], new2[i]));
            assert(crtc_eq(new[i], new2[i]));
        }
    }
}

/// When a conflict exists, `first_conflict_index` lies within the paired
/// prefix, is a conflict, and no earlier pair is one.
pub proof fn lemma_first_conflict_props(old: Seq<Crtc>, new: Seq<Crtc>)
    requires
        has_conflict(old, new),
        old.len() <= new.len(),
    ensures
        0 <= first_conflict_index(old, new) < old.len(),
        new[first_conflict_index(old, new)].timestamp < old[first_conflict_index(
            old,
            new,
        )].timestamp,
        forall|j: int|
            0 <= j < first_conflict_index(old, new) ==> (#[trigger] new[j].timestamp)
                >= old[j].timestamp,
    decreases old.len(),
{
    if old.len() > 0 && !(new[0].timestamp < old[0].timestamp) {
        assert(forall|j: int|
            0 <= j < old.len() - 1 ==> #[trigger] old.drop_first()[j] == old[j + 1]);
        assert(forall|j: int|
            0 <= j < new.len() - 1 ==> #[trigger] new.drop_first()[j] == new[j + 1]);
        let w = choose|i: int|
            0 <= i < old.len() && (#[trigger] new[i].timestamp) < old[i].timestamp;
        assert(new.drop_first()[w - 1].timestamp < old.drop_first()[w - 1].timestamp);
        lemma_first_conflict_props(old.drop_first(), new.drop_first());
        let f = first_conflict_index(old.drop_first(), new.drop_first());
        assert forall|j: int| 0 <= j < 1 + f implies (#[trigger] new[j].timestamp)
            >= old[j].timestamp by {
            if j > 0 {
                assert(new.drop_first()[j - 1].timestamp >= old.drop_first()[j - 1].timestamp);
            }
        }
    }
}

/// Reconciles a change set and plans the commit in one step, discharging
/// the pairing obligations internally.  This is the complete decision side
/// of `reconcile_and_commit`: the caller performs the planned operations
/// against the backend in order.
pub fn reconcile_and_plan(
    old: &Vec<Crtc>,
    changes: &Vec<Crtc>,
    modes: &Vec<Mode>,
    ref_height_px: i32,
    ref_height_mm: i32,
) -> (r: Result<CommitPlan, XrandrError>)
    requires
        reconcile_wf(old@, changes@, modes@, ref_height_px as int, ref_height_mm as int),
    ensures
        match r {
            Ok(plan) => {
                let new = reconciled_spec(old@, changes@, modes@);
                let size = size_spec(
                    new,
                    ref_height_px as int,
                    ref_height_mm as int,
                );
                &&& resolve_ok(merge_spec(old@, changes@), old@, modes@)
                &&& plan.disables@ == disables_spec(old@, size)
                &&& plan.resize == (if disables_spec(old@, size).len() == 0 && seq_crtc_eq(
                    old@,
                    new,
                ) {
                    Option::<ScreenSize>::None
                } else {
                    Option::Some(size)
                })
                &&& match plan.outcome {
                    Ok(v) => !has_conflict(old@, new) && seq_crtc_eq(v@, applies_spec(old@, new)),
                    Err(e) => has_conflict(old@, new) && e == XrandrError::CrtcChanged(
                        new[first_conflict_index(old@, new)].xid,
                    ),
                }
            },
            Err(e) => !resolve_ok(merge_spec(old@, changes@), old@, modes@) && exists|i: int|
                0 <= i < merge_spec(old@, changes@).len() && unresolvable(
                    #[trigger] merge_spec(old@, changes@)[i],
                    old@,
                    modes@,
                ) && (forall|j: int|
                    0 <= j < i ==> !unresolvable(
                        #[trigger] merge_spec(old@, changes@)[j],
                        old@,
                        modes@,
                    )) && e == XrandrError::GetModeInfo(merge_spec(old@, changes@)[i].mode),
        },
{
    let ghost nspec = reconciled_spec(old@, changes@, modes@);
    let (new_topo, size) = match reconcile(old, changes, modes, ref_height_px, ref_height_mm) {
        Ok(p) => p,
        Err(e) => {
            return Err(e);
        },
    };
    proof {
        lemma_reconciled_prefix_xids(old@, changes@, modes@);
        assert forall|i: int| 0 <= i < old@.len() implies old@[i].xid == (
        #[trigger] new_topo@[i]).xid by {
            assert(crtc_eq(new_topo@[i], nspec[i]));
        }
        lemma_plan_congruence(old@, new_topo@, nspec, old@.len() as int);
    }
    let plan = plan_commit(old, &new_topo, &size);
    proof {
        if has_conflict(old@, new_topo@) {
            assert(plan.outcome is Err);
            lemma_first_conflict_props(old@, new_topo@);
            let f = first_conflict_index(old@, new_topo@);
            assert(first_conflict_index(old@, nspec) == f);
            assert(crtc_eq(new_topo@[f], nspec[f]));
            assert(new_topo@[f].xid == nspec[f].xid);
        } else {
            let v = plan.outcome->Ok_0;
            assert(seq_crtc_eq(v@, applies_spec(old@, new_topo@)));
            assert(seq_crtc_eq(v@, applies_spec(old@, nspec))) by {
                assert(seq_crtc_eq(
                    paired_applies(old@, new_topo@, old@.len() as int),
                    paired_applies(old@, nspec, old@.len() as int),
                ));
                assert forall|k: int| 0 <= k < v@.len() implies crtc_eq(
                    #[trigger] v@[k],
                    applies_spec(old@, nspec)[k],
                ) by {
                    let pl = paired_applies(old@, new_topo@, old@.len() as int).len() as int;
                    if k < pl {
                        assert(crtc_eq(v@[k], applies_spec(old@, new_topo@)[k]));
                        assert(crtc_eq(
                            paired_applies(old@, new_topo@, old@.len() as int)[k],
                            paired_applies(old@, nspec, old@.len() as int)[k],
                        ));
                    } else {
                        assert(crtc_eq(v@[k], applies_spec(old@, new_topo@)[k]));
                        assert(applies_spec(old@, new_topo@)[k] == new_topo@.skip(
                            old@.len() as int,
                        )[k - pl]);
                        assert(applies_spec(old@, nspec)[k] == nspec.skip(old@.len() as int)[k
                            - pl]);
                        assert(new_topo@.skip(old@.len() as int)[k - pl] == new_topo@[k - pl
                            + old@.len()]);
                        assert(nspec.skip(old@.len() as int)[k - pl] == nspec[k - pl + old@.len()]);
                        assert(crtc_eq(new_topo@[k - pl + old@.len()], nspec[k - pl + old@.len()]));
                    }
                }
            }
        }
    }
    Ok(plan)
}

/// Decides [`reconcile_wf`] at run time, so that an unverified caller can
/// test the reconciliation preconditions before committing and treat a
/// violation as the fatal defect it is.
#[verifier::loop_isolation(false)]
#[verifier::rlimit(60)]
pub fn reconcile_wf_check(
    old: &Vec<Crtc>,
    changes: &Vec<Crtc>,
    modes: &Vec<Mode>,
    ref_height_px: i32,
    ref_height_mm: i32,
) -> (b: bool)
    ensures
        b == reconcile_wf(old@, changes@, modes@, ref_height_px as int, ref_height_mm as int),
{
    let ghost mspec = merge_spec(old@, changes@);
    let mut i: usize = 0;
    while i < changes.len()
        invariant
            0 <= i <= changes@.len(),
            forall|a: int, b: int|
                #![trigger changes@[a].xid, changes@[b].xid]
                0 <= a < b < changes@.len() && a < i ==> changes@[a].xid != changes@[b].xid,
        decreases changes@.len() - i,
    {
        let mut j: usize = i + 1;
        while j < changes.len()
            invariant
                i < j <= changes@.len(),
                forall|b: int| i < b < j ==> changes@[i as int].xid != #[trigger] changes@[b].xid,
            decreases changes@.len() - j,
        {
            if changes[i].xid == changes[j].xid {
                assert(!unique_xids(changes@));
                return false;
            }
            j += 1;
        }
        i += 1;
    }
    assert(unique_xids(changes@));

    let mut i: usize = 0;
    while i < old.len()
        invariant
            0 <= i <= old@.len(),
            forall|k: int|
                #![trigger old@[k]]
                0 <= k < i ==> old@[k].x >= 0 && old@[k].y >= 0 && old@[k].x + old@[k].width
                    <= i32::MAX && old@[k].y + old@[k].height <= i32::MAX,
        decreases old@.len() - i,
    {
        let c = &old[i];
        if c.x < 0 || c.y < 0 || (c.x as i64) + (c.width as i64) > i32::MAX as i64 || (c.y as i64)
            + (c.height as i64) > i32::MAX as i64 {
            assert(!crtc_bounds_ok(old@));
            return false;
        }
        i += 1;
    }
    assert(crtc_bounds_ok(old@));

    if ref_height_px <= 0 || ref_height_mm <= 0 {
        return false;
    }
    let merged = merge_changes(old, changes);
    if merged.len() == 0 {
        return false;
    }
    proof {
        lemma_resolve_congruence(merged@, mspec, old@, modes@);
    }
    let v = match resolve_geometry(&merged, old, modes) {
        Err(_) => {
            return true;
        },
        Ok(v) => v,
    };
    let ghost rspec = resolved_topology(mspec, old@, modes@);
    proof {
        assert(seq_crtc_eq(v@, rspec)) by {
            assert forall|k: int| 0 <= k < v@.len() implies crtc_eq(#[trigger] v@[k], rspec[k]) by {
                assert(crtc_eq(v@[k], resolved_topology(merged@, old@, modes@)[k]));
                assert(crtc_eq(resolved_topology(merged@, old@, modes@)[k], rspec[k]));
            }
        }
        lemma_geometry_congruence(v@, rspec);
    }

    let mut left: i32 = v[0].x;
    let mut top: i32 = v[0].y;
    let mut i: usize = 1;
    while i < v.len()
        invariant
            1 <= i <= v@.len(),
            left == min_x(v@.take(i as int)),
            top == min_y(v@.take(i as int)),
        decreases v@.len() - i,
    {
        proof {
            assert(v@.take(i + 1).drop_last() =~= v@.take(i as int));
            assert(v@.take(i + 1).last() == v@[i as int]);
        }
        if v[i].x < left {
            left = v[i].x;
        }
        if v[i].y < top {
            top = v[i].y;
        }
        i += 1;
    }
    proof {
        assert(v@.take(v@.len() as int) =~= v@);
        lemma_min_bounds(v@);
    }

    let ghost ns = norm_spec(v@);
    let mut i: usize = 0;
    while i < v.len()
        invariant
            0 <= i <= v@.len(),
            left == min_x(v@),
            top == min_y(v@),
            forall|k: int|
                #![trigger v@[k]]
                0 <= k < i ==> v@[k].x - min_x(v@) <= i32::MAX && v@[k].y
                    - min_y(v@) <= i32::MAX,
            forall|k: int|
                #![trigger ns[k]]
                0 <= k < i ==> ns[k].x + ns[k].width <= i32::MAX && ns[k].y + ns[k].height
                    <= i32::MAX,
        decreases v@.len() - i,
    {
        let c = &v[i];
        let nx: i64 = c.x as i64 - left as i64;
        let ny: i64 = c.y as i64 - top as i64;
        if nx > i32::MAX as i64 || ny > i32::MAX as i64 {
            assert(!norm_shift_ok(v@));
            return false;
        }
        proof {
            lemma_min_bounds(v@);
            assert(ns[i as int].x == nx);
            assert(ns[i as int].y == ny);
        }
        if nx + c.width as i64 > i32::MAX as i64 || ny + c.height as i64 > i32::MAX as i64 {
            assert(!crtc_bounds_ok(ns)) by {
                assert(ns[i as int].x + ns[i as int].width > i32::MAX || ns[i as int].y
                    + ns[i as int].height > i32::MAX);
            }
            proof {
                lemma_geometry_congruence(ns, norm_spec(rspec));
            }
            return false;
        }
        i += 1;
    }
    assert(norm_shift_ok(v@));
    assert(crtc_bounds_ok(ns)) by {
        lemma_min_bounds(v@);
        assert forall|k: int| #![trigger ns[k]] 0 <= k < ns.len() implies ns[k].x >= 0 && ns[k].y
            >= 0 && ns[k].x + ns[k].width <= i32::MAX && ns[k].y + ns[k].height <= i32::MAX by {
            assert(v@[k].x - min_x(v@) <= i32::MAX);
        }
    }
    proof {
        lemma_geometry_congruence(ns, norm_spec(rspec));
    }

    let mut maxr: i32 = {
        let nx: i64 = v[0].x as i64 - left as i64;
        (nx + v[0].width as i64) as i32
    };
    let mut maxb: i32 = {
        let ny: i64 = v[0].y as i64 - top as i64;
        (ny + v[0].height as i64) as i32
    };
    proof {
        assert(ns.take(1) =~= seq![ns[0]]);
        assert(maxr == max_right(ns.take(1)));
        assert(maxb == max_bottom(ns.take(1)));
    }
    let mut i: usize = 1;
    while i < v.len()
        invariant
            1 <= i <= v@.len(),
            left == min_x(v@),
            top == min_y(v@),
            maxr == max_right(ns.take(i as int)),
            maxb == max_bottom(ns.take(i as int)),
        decreases v@.len() - i,
    {
        proof {
            assert(ns.take(i + 1).drop_last() =~= ns.take(i as int));
            assert(ns.take(i + 1).last() == ns[i as int]);
            lemma_min_bounds(v@);
        }
        let c = &v[i];
        let nx: i64 = c.x as i64 - left as i64;
        let ny: i64 = c.y as i64 - top as i64;
        let right: i32 = (nx + c.width as i64) as i32;
        let bottom: i32 = (ny + c.height as i64) as i32;
        if right > maxr {
            maxr = right;
        }
        if bottom > maxb {
            maxb = bottom;
        }
        i += 1;
    }
    proof {
        assert(ns.take(ns.len() as int) =~= ns);
        lemma_max_bounds(ns);
        let wx = choose|j: int|
            0 <= j < ns.len() && max_right(ns) == ns[j].x + ns[j].width;
        assert(ns[wx].x >= 0);
        let wy = choose|j: int|
            0 <= j < ns.len() && max_bottom(ns) == ns[j].y + ns[j].height;
        assert(ns[wy].y >= 0);
        assert(0 <= maxr <= 0x7fff_ffff);
        assert(0 <= maxb <= 0x7fff_ffff);
        assert((maxr as int) * (ref_height_mm as int) < 0x4000_0000_0000_0000 && (maxr as int) * (
        ref_height_mm as int) >= 0) by (nonlinear_arith)
            requires
                0 <= maxr as int <= 0x7fff_ffff,
                0 < ref_height_mm as int <= 0x7fff_ffff,
        ;
        assert((maxb as int) * (ref_height_mm as int) < 0x4000_0000_0000_0000 && (maxb as int) * (
        ref_height_mm as int) >= 0) by (nonlinear_arith)
            requires
                0 <= maxb as int <= 0x7fff_ffff,
                0 < ref_height_mm as int <= 0x7fff_ffff,
        ;
    }
    let r_prod: u64 = (maxr as u64) * (ref_height_mm as u64);
    let b_prod: u64 = (maxb as u64) * (ref_height_mm as u64);
    let round_r: u64 = (2 * r_prod + ref_height_px as u64) / (2 * (ref_height_px as u64));
    let round_b: u64 = (2 * b_prod + ref_height_px as u64) / (2 * (ref_height_px as u64));
    proof {
        assert(round_r == round_div(
            max_right(ns) * ref_height_mm,
            ref_height_px as int,
        ));
        assert(round_b == round_div(
            max_bottom(ns) * ref_height_mm,
            ref_height_px as int,
        ));
    }
    round_r <= i32::MAX as u64 && round_b <= i32::MAX as u64
}

/// When every controller fits, the disable pass has nothing to do.
pub proof fn lemma_disables_all_fit(old: Seq<Crtc>, size: ScreenSize)
    requires
        forall|i: int| 0 <= i < old.len() ==> fits_spec(size, #[trigger] old[i]),
    ensures
        disables_spec(old, size) == Seq::<XId>::empty(),
    decreases old.len(),
{
    if old.len() > 0 {
        assert(forall|i: int| 0 <= i < old.len() - 1 ==> #[trigger] old.drop_last()[i] == old[i]);
        lemma_disables_all_fit(old.drop_last(), size);
        assert(fits_spec(size, old.last()));
    }
}

/// When every pair agrees, the paired apply diff is empty.
pub proof fn lemma_paired_applies_refl(old: Seq<Crtc>, new: Seq<Crtc>, n: int)
    requires
        0 <= n <= old.len(),
        n <= new.len(),
        forall|i: int| 0 <= i < n ==> crtc_eq(old[i], #[trigger] new[i]),
    ensures
        paired_applies(old, new, n) == Seq::<Crtc>::empty(),
    decreases n,
{
    if n > 0 {
        lemma_paired_applies_refl(old, new, n - 1);
        assert(crtc_eq(old[n - 1], new[n - 1]));
    }
}

/// A commit of the empty change set over a normalized topology that
/// already satisfies its own covering size issues nothing: reconciliation
/// reproduces the topology exactly, and the plan holds no disables, no
/// resize and no applies, with no conflict.
pub proof fn lemma_noop_commit(old: Seq<Crtc>, modes: Seq<Mode>, ref_px: int, ref_mm: int)
    requires
        old.len() > 0,
        unique_xids(old),
        crtc_bounds_ok(old),
        min_x(old) == 0,
        min_y(old) == 0,
    ensures
        resolve_ok(merge_spec(old, Seq::<Crtc>::empty()), old, modes),
        reconciled_spec(old, Seq::<Crtc>::empty(), modes) == old,
        disables_spec(old, size_spec(old, ref_px, ref_mm)) == Seq::<
            XId,
        >::empty(),
        !has_conflict(old, old),
        applies_spec(old, old) == Seq::<Crtc>::empty(),
        seq_crtc_eq(old, old),
{
    let none: Seq<Crtc> = Seq::empty();
    assert(novel_changes(old, none) == Seq::<Crtc>::empty());
    assert(substituted(old, none) =~= old) by {
        assert forall|i: int| 0 <= i < old.len() implies substituted(old, none)[i] == old[i] by {
            assert(!has_crtc(none, old[i].xid));
        }
    }
    assert(merge_spec(old, none) =~= old);

    assert forall|i: int| 0 <= i < old.len() implies !needs_resolve(#[trigger] old[i], old) by {
        if old[i].mode != MODE_NONE {
            assert(has_crtc(old, old[i].xid));
            lemma_find_crtc(old, old[i].xid);
            let f = first_crtc_index(old, old[i].xid);
            assert(old[f].xid == old[i].xid);
            if f < i {
                assert(old[f].xid != old[i].xid);
            }
            if f > i {
                assert(old[i].xid != old[f].xid);
            }
            assert(f == i);
            assert(find_crtc(old, old[i].xid) == old[i]);
        }
    }
    assert(resolve_ok(merge_spec(old, none), old, modes));
    assert(resolved_topology(old, old, modes) =~= old) by {
        assert forall|i: int| 0 <= i < old.len() implies resolved_topology(old, old, modes)[i]
            == old[i] by {
            assert(!needs_resolve(old[i], old));
        }
    }
    assert(norm_spec(old) =~= old) by {
        assert forall|i: int| 0 <= i < old.len() implies norm_spec(old)[i]
            == old[i] by {
            assert((old[i].x + 0) as i32 == old[i].x);
            assert((old[i].y + 0) as i32 == old[i].y);
        }
    }
    assert(reconciled_spec(old, none, modes) == old);

    let size = size_spec(old, ref_px, ref_mm);
    lemma_max_bounds(old);
    let wx = choose|j: int|
        0 <= j < old.len() && max_right(old) == old[j].x + old[j].width;
    assert(old[wx].x >= 0);
    let wy = choose|j: int|
        0 <= j < old.len() && max_bottom(old) == old[j].y + old[j].height;
    assert(old[wy].y >= 0);
    assert(0 <= max_right(old) <= i32::MAX);
    assert(0 <= max_bottom(old) <= i32::MAX);
    assert forall|i: int| 0 <= i < old.len() implies fits_spec(size, #[trigger] old[i]) by {
        assert(old[i].x + old[i].width <= max_right(old));
        assert(old[i].y + old[i].height <= max_bottom(old));
    }
    lemma_disables_all_fit(old, size);

    assert(!has_conflict(old, old));
    assert forall|i: int| 0 <= i < old.len() implies crtc_eq(old[i], #[trigger] old[i]) by {}
    lemma_paired_applies_refl(old, old, old.len() as int);
    assert(applies_spec(old, old) =~= Seq::<Crtc>::empty());
}

/// A commit built from a stale snapshot is detected, never silently
/// applied: if any paired controller's backend timestamp advanced past the
/// desired record's, the planned outcome is the concurrent-modification
/// failure, naming the earliest such controller.
pub proof fn lemma_conflict_detected(old: Seq<Crtc>, new: Seq<Crtc>, i: int)
    requires
        old.len() <= new.len(),
        0 <= i < old.len(),
        new[i].timestamp < old[i].timestamp,
    ensures
        has_conflict(old, new),
        0 <= first_conflict_index(old, new) <= i,
        new[first_conflict_index(old, new)].timestamp < old[first_conflict_index(
            old,
            new,
        )].timestamp,
{
    assert(has_conflict(old, new));
    lemma_first_conflict_props(old, new);
    let f = first_conflict_index(old, new);
    if f > i {
        assert(new[i].timestamp >= old[i].timestamp);
    }
}

} // verus!
