//! Modes: immutable, backend-defined timing descriptors.  A mode is looked
//! up by id, never constructed by this crate.

use vstd::prelude::*;

use crate::XId;
use crate::XrandrError;

verus! {

/// One display configuration the connected hardware is capable of showing:
/// resolution plus the raw timing parameters.  `flags` also encodes whether
/// the mode is interlaced or doublescan.
#[derive(PartialEq, Debug)]
pub struct Mode {
    pub xid: XId,
    pub width: u32,
    pub height: u32,
    pub dot_clock: u64,
    pub hsync_tart: u32,
    pub hsync_end: u32,
    pub htotal: u32,
    pub hskew: u32,
    pub vsync_start: u32,
    pub vsync_end: u32,
    pub vtotal: u32,
    pub name: String,
    pub flags: u64,
}

impl Clone for Mode {
    /// A clone is equal to the original.
    fn clone(&self) -> (r: Self)
        ensures
            r == *self,
    {
        Mode {
            xid: self.xid,
            width: self.width,
            height: self.height,
            dot_clock: self.dot_clock,
            hsync_tart: self.hsync_tart,
            hsync_end: self.hsync_end,
            htotal: self.htotal,
            hskew: self.hskew,
            vsync_start: self.vsync_start,
            vsync_end: self.vsync_end,
            vtotal: self.vtotal,
            name: self.name.clone(),
            flags: self.flags,
        }
    }
}

/// True iff some mode in `modes` carries the id `xid`.
pub open spec fn has_mode(modes: Seq<Mode>, xid: XId) -> bool {
    exists|i: int| 0 <= i < modes.len() && #[trigger] modes[i].xid == xid
}

/// The position of the first mode with id `xid`; meaningful only when one
/// exists.
pub open spec fn first_mode_index(modes: Seq<Mode>, xid: XId) -> int
    recommends
        has_mode(modes, xid),
    decreases modes.len(),
{
    if modes.len() == 0 {
        0
    } else if modes[0].xid == xid {
        0
    } else {
        1 + first_mode_index(modes.drop_first(), xid)
    }
}

/// The first mode with id `xid`; meaningful only when one exists.
pub open spec fn find_mode(modes: Seq<Mode>, xid: XId) -> Mode {
    modes[first_mode_index(modes, xid)]
}

/// `first_mode_index` names exactly the first matching position.
pub proof fn lemma_first_mode_index(modes: Seq<Mode>, xid: XId, i: int)
    requires
        0 <= i < modes.len(),
        modes[i].xid == xid,
        forall|j: int| 0 <= j < i ==> #[trigger] modes[j].xid != xid,
    ensures
        first_mode_index(modes, xid) == i,
        has_mode(modes, xid),
    decreases i,
{
    if i > 0 {
        assert(modes[0].xid != xid);
        assert(forall|j: int|
            0 <= j < i - 1 ==> #[trigger] modes.drop_first()[j] == modes[j + 1]);
        lemma_first_mode_index(modes.drop_first(), xid, i - 1);
    }
}

/// Looks the mode with id `xid` up in a mode table read from the backend.
/// Returns the first matching descriptor; fails with a lookup error naming
/// the id iff the table holds no such mode.
pub fn lookup_mode(modes: &Vec<Mode>, xid: XId) -> (r: Result<Mode, XrandrError>)
    ensures
        match r {
            Ok(m) => has_mode(modes@, xid) && m == find_mode(modes@, xid) && m.xid == xid,
            Err(e) => !has_mode(modes@, xid) && e == XrandrError::GetModeInfo(xid),
        },
{
    let mut i: usize = 0;
    while i < modes.len()
        invariant
            0 <= i <= modes@.len(),
            forall|j: int| 0 <= j < i ==> #[trigger] modes@[j].xid != xid,
        decreases modes@.len() - i,
    {
        if modes[i].xid == xid {
            proof {
                lemma_first_mode_index(modes@, xid, i as int);
            }
            return Ok(modes[i].clone());
        }
        i += 1;
    }
    Err(XrandrError::GetModeInfo(xid))
}

} // verus!
