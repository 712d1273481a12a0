//! Verified core of an X11 RandR display-configuration library.
//!
//! The crate models controllers (CRTCs), modes and the virtual screen as
//! plain value objects, and verifies the geometry and reconciliation logic
//! that decides which backend mutations a commit must issue and in which
//! order.  Talking to the display server itself (enumeration, property
//! decoding, the actual mutating calls) is left to unverified callers that
//! feed plain values in and carry the planned operations out.

use vstd::prelude::*;

pub mod crtc;
pub mod mode;
pub mod property;
pub mod reconcile;
pub mod screensize;

pub use crtc::enabled_crtcs;
pub use crtc::find_available_crtc;
pub use crtc::normalize_positions;
pub use crtc::Crtc;
pub use crtc::Relation;
pub use crtc::Rotation;
pub use mode::lookup_mode;
pub use mode::Mode;
pub use property::Range;
pub use property::Ranges;
pub use property::Supported;
pub use reconcile::crtcs_equal;
pub use reconcile::merge_changes;
pub use reconcile::plan_commit;
pub use reconcile::reconcile;
pub use reconcile::reconcile_and_plan;
pub use reconcile::reconcile_wf_check;
pub use reconcile::resolve_geometry;
pub use reconcile::CommitPlan;
pub use screensize::ScreenSize;

verus! {

/// Unique identifier of an object (CRTC, output, mode) in the backend session.
pub type XId = u64;

/// Backend-issued version token; increases whenever an object is externally
/// modified.  Compared for ordering only, never interpreted numerically.
pub type XTime = u64;

/// The mode id that marks a controller as disabled.
pub const MODE_NONE: XId = 0;

/// Everything that can go wrong while reading or reconfiguring the display
/// layout.
#[derive(Debug, Clone, PartialEq)]
pub enum XrandrError {
    /// The connection to the backend could not be opened.
    Open,
    /// The monitor list could not be read.
    GetMonitors,
    /// No free controller is capable of driving the requested output.
    NoCrtcAvailable,
    /// The screen resource snapshot could not be read.
    GetResources,
    /// The named output is disabled, so the operation is undefined for it.
    OutputDisabled(String),
    /// The raw rotation encoding is not one of the four defined values.
    InvalidRotation(u16),
    /// No information could be obtained for the mode with this id.
    GetMode(XId),
    /// The controller with this id changed in the backend after its state
    /// was read; the commit was built from stale data and must be abandoned.
    CrtcChanged(XId),
    /// The controller info record with this id could not be read.
    GetCrtcInfo(XId),
    /// No controller exists with this id.
    GetCrtc(XId),
    /// The output info record with this id could not be read.
    GetOutputInfo(XId),
    /// The output with this id reports no preferred modes.
    NoPreferredModes(XId),
    /// No mode exists with this id.
    GetModeInfo(XId),
    /// The properties of the output with this id could not be read.
    GetOutputProp(XId),
    /// The atom with this id has no name.
    GetAtomName(XId),
}

/// True iff `sys` is the backend's encoding of `true`.
///
/// The backend encodes booleans as the integers 0 and 1; any other value
/// indicates a corrupted record, which callers must rule out before
/// converting.
pub fn real_bool(sys: i32) -> (r: bool)
    requires
        sys == 0 || sys == 1,
    ensures
        r == (sys == 1),
{
    sys == 1
}

} // verus!
