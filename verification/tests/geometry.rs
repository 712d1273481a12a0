//! Tests for the geometric helpers: normalization, covering size, fitting,
//! rotation and relational placement.

use xrandr::Crtc;
use xrandr::Relation;
use xrandr::Rotation;
use xrandr::ScreenSize;
use xrandr::XrandrError;

fn crtc(xid: u64, x: i32, y: i32, width: u32, height: u32) -> Crtc {
    Crtc {
        xid,
        timestamp: 100,
        x,
        y,
        width,
        height,
        mode: 10,
        rotation: Rotation::Normal,
        outputs: vec![xid + 1000],
        rotations: 0x0f,
        possible: vec![xid + 1000, xid + 2000],
    }
}

#[test]
fn normalize_anchors_to_origin() {
    let mut v = vec![crtc(1, -100, 50, 640, 480), crtc(2, 200, -30, 800, 600)];
    xrandr::normalize_positions(&mut v);
    assert_eq!((v[0].x, v[0].y), (0, 80));
    assert_eq!((v[1].x, v[1].y), (300, 0));
    let min_x = v.iter().map(|c| c.x).min().unwrap();
    let min_y = v.iter().map(|c| c.y).min().unwrap();
    assert_eq!((min_x, min_y), (0, 0));
}

#[test]
fn normalize_is_idempotent() {
    let mut v = vec![crtc(1, -100, 50, 640, 480), crtc(2, 200, -30, 800, 600)];
    xrandr::normalize_positions(&mut v);
    let once = v.clone();
    xrandr::normalize_positions(&mut v);
    assert_eq!(v, once);
}

#[test]
fn normalize_keeps_anchored_set_unchanged() {
    let orig = vec![crtc(1, 0, 0, 640, 480), crtc(2, 640, 0, 800, 600)];
    let mut v = orig.clone();
    xrandr::normalize_positions(&mut v);
    assert_eq!(v, orig);
}

#[test]
fn normalize_preserves_relative_layout() {
    let before = vec![crtc(1, -100, 50, 640, 480), crtc(2, 200, -30, 800, 600)];
    let mut after = before.clone();
    xrandr::normalize_positions(&mut after);
    for i in 0..before.len() {
        for j in 0..before.len() {
            assert_eq!(after[i].x - after[j].x, before[i].x - before[j].x);
            assert_eq!(after[i].y - after[j].y, before[i].y - before[j].y);
        }
    }
}

#[test]
fn normalize_empty_set_is_noop() {
    let mut v: Vec<Crtc> = Vec::new();
    xrandr::normalize_positions(&mut v);
    assert!(v.is_empty());
}

#[test]
fn fitting_size_two_displays() {
    let a = crtc(1, 0, 0, 1920, 1080);
    let b = crtc(2, 1920, 0, 1280, 1024);
    let size = ScreenSize::fitting_crtcs(&vec![a.clone(), b.clone()], 1080, 270);
    assert_eq!(size.width, 3200);
    assert_eq!(size.height, 1080);
    // mm = px * ref_mm / ref_px, rounded: 3200 * 270 / 1080 = 800.
    assert_eq!(size.width_mm, 800);
    assert_eq!(size.height_mm, 270);
    assert!(size.fits_crtc(&b));
    assert!(size.fits_crtc(&a));
    let shorter = ScreenSize { height: 1079, ..size };
    assert!(!shorter.fits_crtc(&a));
    // B is only 1024 pixels tall, so by the containment rule it still fits
    // the 1079-pixel screen.
    assert!(shorter.fits_crtc(&b));
}

#[test]
fn fitting_size_is_minimal() {
    let a = crtc(1, 0, 0, 1920, 1080);
    let b = crtc(2, 1920, 0, 1280, 1024);
    let crtcs = vec![a, b];
    let size = ScreenSize::fitting_crtcs(&crtcs, 1080, 270);
    let narrower = ScreenSize { width: size.width - 1, ..size };
    assert!(crtcs.iter().any(|c| !narrower.fits_crtc(c)));
    let shorter = ScreenSize { height: size.height - 1, ..size };
    assert!(crtcs.iter().any(|c| !shorter.fits_crtc(c)));
}

#[test]
fn fitting_size_rounds_physical_dimensions() {
    // 1000 * 333 / 1000 = 333; 500 * 333 / 1000 = 166.5, rounded up to 167.
    let a = crtc(1, 0, 0, 500, 1000);
    let size = ScreenSize::fitting_crtcs(&vec![a], 1000, 333);
    assert_eq!(size.width, 500);
    assert_eq!(size.height, 1000);
    assert_eq!(size.width_mm, 167);
    assert_eq!(size.height_mm, 333);
}

#[test]
fn rotated_size_swaps_axes() {
    let c = crtc(1, 0, 0, 1920, 1080);
    assert_eq!(c.rotated_size(Rotation::Normal), (1920, 1080));
    assert_eq!(c.rotated_size(Rotation::Inverted), (1920, 1080));
    assert_eq!(c.rotated_size(Rotation::Left), (1080, 1920));
    assert_eq!(c.rotated_size(Rotation::Right), (1080, 1920));
}

#[test]
fn rotated_size_round_trip() {
    let rotations = [Rotation::Normal, Rotation::Left, Rotation::Inverted, Rotation::Right];
    for &start in &rotations {
        for &target in &rotations {
            let mut c = crtc(1, 0, 0, 1920, 1080);
            if matches!(start, Rotation::Left | Rotation::Right) {
                // Stored dimensions reflect the current rotation.
                c.width = 1080;
                c.height = 1920;
            }
            c.rotation = start;
            let original = (c.width, c.height);
            let (w, h) = c.rotated_size(target);
            let rotated = Crtc { width: w, height: h, rotation: target, ..c.clone() };
            assert_eq!(rotated.rotated_size(start), original);
        }
    }
}

#[test]
fn rotate_updates_geometry_and_rotation() {
    let mut c = crtc(1, 10, 20, 1920, 1080);
    c.rotate(Rotation::Left);
    assert_eq!((c.width, c.height), (1080, 1920));
    assert_eq!(c.rotation, Rotation::Left);
    assert_eq!((c.x, c.y), (10, 20));
}

#[test]
fn relative_position_left_of() {
    let rel = crtc(2, 500, 0, 800, 600);
    let me = crtc(1, 0, 0, 400, 300);
    assert_eq!(me.relative_position(Relation::LeftOf, &rel), (100, 0));
}

#[test]
fn relative_position_all_relations() {
    let rel = crtc(2, 500, 400, 800, 600);
    let me = crtc(1, 0, 0, 400, 300);
    assert_eq!(me.relative_position(Relation::LeftOf, &rel), (100, 400));
    assert_eq!(me.relative_position(Relation::RightOf, &rel), (1300, 400));
    assert_eq!(me.relative_position(Relation::Above, &rel), (500, 100));
    assert_eq!(me.relative_position(Relation::Below, &rel), (500, 1000));
    assert_eq!(me.relative_position(Relation::SameAs, &rel), (500, 400));
}

#[test]
fn relative_position_can_go_negative() {
    let rel = crtc(2, 100, 50, 800, 600);
    let me = crtc(1, 0, 0, 400, 300);
    assert_eq!(me.relative_position(Relation::LeftOf, &rel), (-300, 50));
    assert_eq!(me.relative_position(Relation::Above, &rel), (100, -250));
}

#[test]
fn rotation_wire_encoding_round_trip() {
    for (raw, rot) in [
        (1u16, Rotation::Normal),
        (2, Rotation::Left),
        (4, Rotation::Inverted),
        (8, Rotation::Right),
    ] {
        assert_eq!(Rotation::try_from(raw).unwrap(), rot);
        assert_eq!(rot.as_raw(), raw);
    }
}

#[test]
fn rotation_rejects_unknown_encoding() {
    for raw in [0u16, 3, 5, 6, 7, 9, 16, 255] {
        match Rotation::try_from(raw) {
            Err(XrandrError::InvalidRotation(r)) => assert_eq!(r, raw),
            other => panic!("expected InvalidRotation, got {:?}", other),
        }
    }
}

#[test]
fn offset_moves_position_only() {
    let mut c = crtc(1, 100, 200, 640, 480);
    c.offset((-60, 40));
    assert_eq!((c.x, c.y), (40, 240));
    assert_eq!((c.width, c.height), (640, 480));
}

#[test]
fn max_coordinates_are_bottom_right() {
    let c = crtc(1, 100, 200, 640, 480);
    assert_eq!(c.max_coordinates(), (740, 680));
}

#[test]
fn real_bool_decodes_backend_booleans() {
    assert!(xrandr::real_bool(1));
    assert!(!xrandr::real_bool(0));
}

#[test]
fn set_disable_clears_activity_fields() {
    let mut c = crtc(1, 30, 40, 1920, 1080);
    c.set_disable();
    assert_eq!((c.x, c.y), (0, 0));
    assert_eq!(c.mode, 0);
    assert_eq!(c.rotation, Rotation::Normal);
    assert!(c.outputs.is_empty());
    assert_eq!((c.width, c.height), (1920, 1080));
    assert_eq!(c.xid, 1);
}
