//! Tests for the reconciliation and commit-planning engine: merging change
//! sets, mode re-resolution, snapshot filtering, and the planned disable /
//! resize / apply sequence with its conflict detection.

use xrandr::Crtc;
use xrandr::Mode;
use xrandr::Rotation;
use xrandr::ScreenSize;
use xrandr::XrandrError;

fn crtc(xid: u64, x: i32, y: i32, width: u32, height: u32, mode: u64) -> Crtc {
    Crtc {
        xid,
        timestamp: 100,
        x,
        y,
        width,
        height,
        mode,
        rotation: Rotation::Normal,
        outputs: vec![xid + 1000],
        rotations: 0x0f,
        possible: vec![xid + 1000, xid + 2000],
    }
}

fn mode(xid: u64, width: u32, height: u32) -> Mode {
    Mode {
        xid,
        width,
        height,
        dot_clock: 148_500_000,
        hsync_tart: 2008,
        hsync_end: 2052,
        htotal: 2200,
        hskew: 0,
        vsync_start: 1084,
        vsync_end: 1089,
        vtotal: 1125,
        name: format!("{}x{}", width, height),
        flags: 0,
    }
}

#[test]
fn lookup_mode_finds_by_id() {
    let modes = vec![mode(10, 1920, 1080), mode(11, 1280, 1024)];
    let m = xrandr::lookup_mode(&modes, 11).unwrap();
    assert_eq!(m.xid, 11);
    assert_eq!((m.width, m.height), (1280, 1024));
    assert_eq!(m.name, "1280x1024");
}

#[test]
fn lookup_mode_missing_id_fails() {
    let modes = vec![mode(10, 1920, 1080)];
    match xrandr::lookup_mode(&modes, 42) {
        Err(XrandrError::GetModeInfo(id)) => assert_eq!(id, 42),
        other => panic!("expected GetModeInfo, got {:?}", other),
    }
}

#[test]
fn enabled_crtcs_filters_disabled() {
    let a = crtc(1, 0, 0, 1920, 1080, 10);
    let mut b = crtc(2, 0, 0, 800, 600, 0);
    b.outputs.clear();
    let c = crtc(3, 1920, 0, 1280, 1024, 11);
    let enabled = xrandr::enabled_crtcs(&vec![a.clone(), b, c.clone()]);
    assert_eq!(enabled, vec![a, c]);
}

#[test]
fn find_available_crtc_picks_first_free_capable() {
    let busy = crtc(1, 0, 0, 1920, 1080, 10);
    let mut free_incapable = crtc(2, 0, 0, 0, 0, 0);
    free_incapable.outputs.clear();
    free_incapable.possible = vec![7777];
    let mut free_capable = crtc(3, 0, 0, 0, 0, 0);
    free_capable.outputs.clear();
    free_capable.possible = vec![1001, 4004];
    let crtcs = vec![busy, free_incapable, free_capable.clone()];
    let found = xrandr::find_available_crtc(&crtcs, 4004).unwrap();
    assert_eq!(found, free_capable);
}

#[test]
fn find_available_crtc_fails_when_none_free() {
    let busy = crtc(1, 0, 0, 1920, 1080, 10);
    let crtcs = vec![busy];
    match xrandr::find_available_crtc(&crtcs, 1001) {
        Err(XrandrError::NoCrtcAvailable) => {},
        other => panic!("expected NoCrtcAvailable, got {:?}", other),
    }
}

#[test]
fn set_enable_configures_mode_and_output() {
    let mut c = crtc(3, 0, 0, 0, 0, 0);
    c.outputs.clear();
    let m = mode(10, 1920, 1080);
    c.set_enable(&m, 1001);
    assert_eq!(c.mode, 10);
    assert_eq!((c.width, c.height), (1920, 1080));
    assert_eq!(c.outputs, vec![1001]);
}

#[test]
fn merge_substitutes_and_appends() {
    let old = vec![crtc(1, 0, 0, 1920, 1080, 10), crtc(2, 1920, 0, 1280, 1024, 11)];
    let mut moved = old[1].clone();
    moved.x = 0;
    moved.y = 1080;
    let fresh = crtc(5, 0, 0, 800, 600, 12);
    let merged = xrandr::merge_changes(&old, &vec![moved.clone(), fresh.clone()]);
    assert_eq!(merged, vec![old[0].clone(), moved, fresh]);
}

#[test]
fn merge_empty_changes_reproduces_old() {
    let old = vec![crtc(1, 0, 0, 1920, 1080, 10), crtc(2, 1920, 0, 1280, 1024, 11)];
    let merged = xrandr::merge_changes(&old, &Vec::new());
    assert_eq!(merged, old);
}

#[test]
fn resolve_updates_geometry_for_changed_mode() {
    let old = vec![crtc(1, 0, 0, 1920, 1080, 10)];
    let mut changed = old[0].clone();
    changed.mode = 11;
    let modes = vec![mode(10, 1920, 1080), mode(11, 1280, 1024)];
    let resolved = xrandr::resolve_geometry(&vec![changed], &old, &modes).unwrap();
    assert_eq!((resolved[0].width, resolved[0].height), (1280, 1024));
}

#[test]
fn resolve_keeps_geometry_for_unchanged_mode() {
    let old = vec![crtc(1, 0, 0, 1920, 1080, 10)];
    let mut moved = old[0].clone();
    moved.x = 100;
    // The mode table disagrees with the stored size, but the mode id did
    // not change, so nothing is re-resolved.
    let modes = vec![mode(10, 800, 600)];
    let resolved = xrandr::resolve_geometry(&vec![moved], &old, &modes).unwrap();
    assert_eq!((resolved[0].width, resolved[0].height), (1920, 1080));
}

#[test]
fn resolve_missing_mode_fails() {
    let old = vec![crtc(1, 0, 0, 1920, 1080, 10)];
    let mut changed = old[0].clone();
    changed.mode = 99;
    let modes = vec![mode(10, 1920, 1080)];
    match xrandr::resolve_geometry(&vec![changed], &old, &modes) {
        Err(XrandrError::GetModeInfo(id)) => assert_eq!(id, 99),
        other => panic!("expected GetModeInfo, got {:?}", other),
    }
}

#[test]
fn plan_noop_commit_issues_nothing() {
    let old = vec![crtc(1, 0, 0, 1920, 1080, 10), crtc(2, 1920, 0, 1280, 1024, 11)];
    let size = ScreenSize::fitting_crtcs(&old, 1080, 270);
    let plan = xrandr::plan_commit(&old, &old.clone(), &size);
    assert!(plan.disables.is_empty());
    assert!(plan.resize.is_none());
    assert_eq!(plan.outcome.unwrap(), Vec::<Crtc>::new());
}

#[test]
fn plan_detects_concurrent_modification() {
    // The snapshot carries a newer backend timestamp than the desired
    // record it was paired with: another actor committed first.
    let mut old = vec![crtc(1, 0, 0, 1920, 1080, 10), crtc(2, 1920, 0, 1280, 1024, 11)];
    let new = old.clone();
    old[1].timestamp = 200;
    let size = ScreenSize::fitting_crtcs(&new, 1080, 270);
    let plan = xrandr::plan_commit(&old, &new, &size);
    match plan.outcome {
        Err(XrandrError::CrtcChanged(id)) => assert_eq!(id, 2),
        other => panic!("expected CrtcChanged, got {:?}", other),
    }
    assert_eq!(plan.resize, Some(size));
}

#[test]
fn plan_names_earliest_conflicting_controller() {
    let mut old = vec![crtc(1, 0, 0, 1920, 1080, 10), crtc(2, 1920, 0, 1280, 1024, 11)];
    let new = old.clone();
    old[0].timestamp = 300;
    old[1].timestamp = 300;
    let size = ScreenSize::fitting_crtcs(&new, 1080, 270);
    let plan = xrandr::plan_commit(&old, &new, &size);
    match plan.outcome {
        Err(XrandrError::CrtcChanged(id)) => assert_eq!(id, 1),
        other => panic!("expected CrtcChanged, got {:?}", other),
    }
}

#[test]
fn plan_disables_controllers_that_no_longer_fit() {
    let old = vec![crtc(1, 0, 0, 1920, 1080, 10), crtc(2, 1920, 0, 1280, 1024, 11)];
    // The desired topology keeps only the first controller's footprint.
    let mut shrunk = old.clone();
    shrunk[1].x = 0;
    shrunk[1].y = 0;
    shrunk[1].width = 800;
    shrunk[1].height = 600;
    shrunk[1].mode = 12;
    let size = ScreenSize::fitting_crtcs(&shrunk, 1080, 270);
    let plan = xrandr::plan_commit(&old, &shrunk, &size);
    // The old second controller reached x 3200 > 1920, so it must be
    // disabled before the screen shrinks.
    assert_eq!(plan.disables, vec![2]);
    assert_eq!(plan.resize, Some(size));
    let applies = plan.outcome.unwrap();
    assert_eq!(applies, vec![shrunk[1].clone()]);
}

#[test]
fn plan_applies_appended_controllers() {
    let old = vec![crtc(1, 0, 0, 1920, 1080, 10)];
    let mut new = old.clone();
    new.push(crtc(5, 1920, 0, 800, 600, 12));
    let size = ScreenSize::fitting_crtcs(&new, 1080, 270);
    let plan = xrandr::plan_commit(&old, &new, &size);
    assert!(plan.disables.is_empty());
    assert_eq!(plan.resize, Some(size));
    assert_eq!(plan.outcome.unwrap(), vec![new[1].clone()]);
}

#[test]
fn reconcile_resolves_normalizes_and_sizes() {
    let old = vec![crtc(1, 0, 0, 1920, 1080, 10), crtc(2, 1920, 0, 1280, 1024, 11)];
    // Move the second controller left of the first: its x becomes negative
    // and normalization must shift the whole topology right.
    let mut moved = old[1].clone();
    let (mx, my) = moved.relative_position(xrandr::Relation::LeftOf, &old[0]);
    moved.x = mx;
    moved.y = my;
    assert_eq!((mx, my), (-1280, 0));
    let modes = vec![mode(10, 1920, 1080), mode(11, 1280, 1024)];
    let (topo, size) = xrandr::reconcile(&old, &vec![moved], &modes, 1080, 270).unwrap();
    assert_eq!((topo[0].x, topo[0].y), (1280, 0));
    assert_eq!((topo[1].x, topo[1].y), (0, 0));
    assert_eq!(size.width, 3200);
    assert_eq!(size.height, 1080);
}

#[test]
fn reconcile_reresolves_geometry_before_sizing() {
    let old = vec![crtc(1, 0, 0, 1920, 1080, 10)];
    // Switch to a smaller mode without updating the stale dimensions; the
    // covering size must come from the mode table, not the stale fields.
    let mut changed = old[0].clone();
    changed.mode = 11;
    let modes = vec![mode(10, 1920, 1080), mode(11, 1280, 1024)];
    let (topo, size) = xrandr::reconcile(&old, &vec![changed], &modes, 1080, 270).unwrap();
    assert_eq!((topo[0].width, topo[0].height), (1280, 1024));
    assert_eq!((size.width, size.height), (1280, 1024));
}

#[test]
fn reconcile_and_plan_empty_changeset_is_noop() {
    let old = vec![crtc(1, 0, 0, 1920, 1080, 10), crtc(2, 1920, 0, 1280, 1024, 11)];
    let modes = vec![mode(10, 1920, 1080), mode(11, 1280, 1024)];
    assert!(xrandr::reconcile_wf_check(&old, &Vec::new(), &modes, 1080, 270));
    let plan = xrandr::reconcile_and_plan(&old, &Vec::new(), &modes, 1080, 270).unwrap();
    assert!(plan.disables.is_empty());
    assert!(plan.resize.is_none());
    assert_eq!(plan.outcome.unwrap(), Vec::<Crtc>::new());
}

#[test]
fn reconcile_and_plan_detects_stale_changeset() {
    let old = vec![crtc(1, 0, 0, 1920, 1080, 10)];
    let mut snapshot = old.clone();
    snapshot[0].timestamp = 500;
    let mut stale = old[0].clone();
    stale.x = 5;
    let modes = vec![mode(10, 1920, 1080)];
    assert!(xrandr::reconcile_wf_check(&snapshot, &vec![stale.clone()], &modes, 1080, 270));
    let plan = xrandr::reconcile_and_plan(&snapshot, &vec![stale], &modes, 1080, 270).unwrap();
    match plan.outcome {
        Err(XrandrError::CrtcChanged(id)) => assert_eq!(id, 1),
        other => panic!("expected CrtcChanged, got {:?}", other),
    }
}

#[test]
fn wf_check_rejects_duplicate_change_ids() {
    let old = vec![crtc(1, 0, 0, 1920, 1080, 10)];
    let modes = vec![mode(10, 1920, 1080)];
    let dup = vec![old[0].clone(), old[0].clone()];
    assert!(!xrandr::reconcile_wf_check(&old, &dup, &modes, 1080, 270));
}

#[test]
fn wf_check_rejects_empty_topology_and_bad_metrics() {
    let modes = vec![mode(10, 1920, 1080)];
    assert!(!xrandr::reconcile_wf_check(&Vec::new(), &Vec::new(), &modes, 1080, 270));
    let old = vec![crtc(1, 0, 0, 1920, 1080, 10)];
    assert!(!xrandr::reconcile_wf_check(&old, &Vec::new(), &modes, 0, 270));
    assert!(!xrandr::reconcile_wf_check(&old, &Vec::new(), &modes, 1080, 0));
}

#[test]
fn wf_check_rejects_negative_snapshot_coordinates() {
    let old = vec![crtc(1, -5, 0, 1920, 1080, 10)];
    let modes = vec![mode(10, 1920, 1080)];
    assert!(!xrandr::reconcile_wf_check(&old, &Vec::new(), &modes, 1080, 270));
}

#[test]
fn wf_check_accepts_missing_mode_as_recoverable() {
    // A missing mode is reported by reconciliation itself, not treated as
    // a precondition violation.
    let old = vec![crtc(1, 0, 0, 1920, 1080, 10)];
    let mut changed = old[0].clone();
    changed.mode = 99;
    let modes = vec![mode(10, 1920, 1080)];
    assert!(xrandr::reconcile_wf_check(&old, &vec![changed.clone()], &modes, 1080, 270));
    match xrandr::reconcile(&old, &vec![changed], &modes, 1080, 270) {
        Err(XrandrError::GetModeInfo(id)) => assert_eq!(id, 99),
        other => panic!("expected GetModeInfo, got {:?}", other),
    }
}

#[test]
fn crtcs_equal_compares_content() {
    let a = crtc(1, 0, 0, 1920, 1080, 10);
    let b = a.clone();
    assert!(xrandr::crtcs_equal(&a, &b));
    let mut c = a.clone();
    c.outputs = vec![9999];
    assert!(!xrandr::crtcs_equal(&a, &c));
}
