//! The virtual screen: the minimal covering rectangle for a set of
//! controllers, in pixels and in derived physical millimetres.

use vstd::prelude::*;

use crate::crtc::Crtc;

verus! {

/// The virtual screen size: pixel dimensions plus the physical dimensions
/// reported to clients.  The physical size is derived so that the
/// dots-per-inch ratio of a reference display is preserved when the pixel
/// resolution changes, since the backend does not recompute it.
#[derive(PartialEq, Eq, Structural, Copy, Clone, Debug)]
pub struct ScreenSize {
    pub width: i32,
    pub width_mm: i32,
    pub height: i32,
    pub height_mm: i32,
}

/// The largest `x + width` over the controllers in `s`: the pixel width of
/// the smallest screen that covers them all.
pub open spec fn max_right(s: Seq<Crtc>) -> int
    recommends
        s.len() > 0,
    decreases s.len(),
{
    if s.len() <= 1 {
        s[0].x + s[0].width
    } else if s.last().x + s.last().width >= max_right(s.drop_last()) {
        s.last().x + s.last().width
    } else {
        max_right(s.drop_last())
    }
}

/// The largest `y + height` over the controllers in `s`.
pub open spec fn max_bottom(s: Seq<Crtc>) -> int
    recommends
        s.len() > 0,
    decreases s.len(),
{
    if s.len() <= 1 {
        s[0].y + s[0].height
    } else if s.last().y + s.last().height >= max_bottom(s.drop_last()) {
        s.last().y + s.last().height
    } else {
        max_bottom(s.drop_last())
    }
}

/// `a / b` rounded to the nearest integer (ties away from zero), for
/// non-negative `a` and positive `b`.
pub open spec fn round_div(a: int, b: int) -> int
    recommends
        a >= 0,
        b > 0,
{
    (2 * a + b) / (2 * b)
}

/// True iff `c` lies fully inside a screen of `size`.
pub open spec fn fits_spec(size: ScreenSize, c: Crtc) -> bool {
    c.x + c.width <= size.width && c.y + c.height <= size.height
}

/// Every controller is normalized (non-negative position) and its extent
/// stays within the coordinate range.
pub open spec fn crtc_bounds_ok(s: Seq<Crtc>) -> bool {
    forall|i: int|
        #![trigger s[i]]
        0 <= i < s.len() ==> s[i].x >= 0 && s[i].y >= 0 && s[i].x + s[i].width <= i32::MAX
            && s[i].y + s[i].height <= i32::MAX
}

/// The screen size that snugly fits the controllers in `s`, for a reference
/// display of `ref_px` pixels and `ref_mm` millimetres of height.  The
/// physical dimensions keep the reference dots-per-inch ratio:
/// `dpi = 25.4 * ref_px / ref_mm`, so `mm = 25.4 * px / dpi = px * ref_mm /
/// ref_px`, rounded to the nearest millimetre.
pub open spec fn size_spec(s: Seq<Crtc>, ref_px: int, ref_mm: int) -> ScreenSize {
    ScreenSize {
        width: max_right(s) as i32,
        width_mm: round_div(max_right(s) * ref_mm, ref_px) as i32,
        height: max_bottom(s) as i32,
        height_mm: round_div(max_bottom(s) * ref_mm, ref_px) as i32,
    }
}

/// The maxima over a non-empty set bound every element and are attained by
/// at least one of them.
pub proof fn lemma_max_bounds(s: Seq<Crtc>)
    requires
        s.len() > 0,
    ensures
        forall|i: int| 0 <= i < s.len() ==> #[trigger] s[i].x + s[i].width <= max_right(s),
        forall|i: int| 0 <= i < s.len() ==> #[trigger] s[i].y + s[i].height <= max_bottom(s),
        exists|i: int| 0 <= i < s.len() && max_right(s) == #[trigger] s[i].x + s[i].width,
        exists|i: int| 0 <= i < s.len() && max_bottom(s) == #[trigger] s[i].y + s[i].height,
    decreases s.len(),
{
    if s.len() == 1 {
        assert(max_right(s) == s[0].x + s[0].width);
        assert(max_bottom(s) == s[0].y + s[0].height);
    } else {
        lemma_max_bounds(s.drop_last());
        assert(forall|i: int| 0 <= i < s.len() - 1 ==> s.drop_last()[i] == s[i]);
        if s.last().x + s.last().width >= max_right(s.drop_last()) {
            assert(max_right(s) == s[s.len() - 1].x + s[s.len() - 1].width);
        } else {
            let j = choose|j: int|
                0 <= j < s.drop_last().len() && max_right(s.drop_last()) == s.drop_last()[j].x
                    + s.drop_last()[j].width;
            assert(max_right(s) == s[j].x + s[j].width);
        }
        if s.last().y + s.last().height >= max_bottom(s.drop_last()) {
            assert(max_bottom(s) == s[s.len() - 1].y + s[s.len() - 1].height);
        } else {
            let j = choose|j: int|
                0 <= j < s.drop_last().len() && max_bottom(s.drop_last()) == s.drop_last()[j].y
                    + s.drop_last()[j].height;
            assert(max_bottom(s) == s[j].y + s[j].height);
        }
    }
}

/// The covering size is minimal: every controller fits it, and shrinking
/// either dimension by one pixel makes at least one controller no longer
/// fit.
pub proof fn lemma_fitting_size_minimal(s: Seq<Crtc>, ref_px: int, ref_mm: int)
    requires
        s.len() > 0,
        crtc_bounds_ok(s),
    ensures
        forall|i: int| 0 <= i < s.len() ==> fits_spec(size_spec(s, ref_px, ref_mm), #[trigger] s[i]),
        exists|i: int|
            0 <= i < s.len() && !fits_spec(
                (ScreenSize {
                    width: (size_spec(s, ref_px, ref_mm).width - 1) as i32,
                    ..size_spec(s, ref_px, ref_mm)
                }),
                #[trigger] s[i],
            ),
        exists|i: int|
            0 <= i < s.len() && !fits_spec(
                (ScreenSize {
                    height: (size_spec(s, ref_px, ref_mm).height - 1) as i32,
                    ..size_spec(s, ref_px, ref_mm)
                }),
                #[trigger] s[i],
            ),
{
    lemma_max_bounds(s);
    let wx = choose|j: int| 0 <= j < s.len() && max_right(s) == s[j].x + s[j].width;
    assert(s[wx].x >= 0);
    assert(0 <= max_right(s) <= i32::MAX);
    let wy = choose|j: int| 0 <= j < s.len() && max_bottom(s) == s[j].y + s[j].height;
    assert(s[wy].y >= 0);
    assert(0 <= max_bottom(s) <= i32::MAX);
    let size = size_spec(s, ref_px, ref_mm);
    let jx = choose|j: int| 0 <= j < s.len() && max_right(s) == s[j].x + s[j].width;
    assert(!fits_spec(ScreenSize { width: (size.width - 1) as i32, ..size }, s[jx]));
    let jy = choose|j: int| 0 <= j < s.len() && max_bottom(s) == s[j].y + s[j].height;
    assert(!fits_spec(ScreenSize { height: (size.height - 1) as i32, ..size }, s[jy]));
}

impl ScreenSize {
    /// True iff the given controller fits on a screen of this size.
    pub fn fits_crtc(&self, crtc: &Crtc) -> (r: bool)
        requires
            crtc.x >= 0,
            crtc.y >= 0,
            crtc.x + crtc.width <= i32::MAX,
            crtc.y + crtc.height <= i32::MAX,
        ensures
            r == fits_spec(*self, *crtc),
    {
        let (max_x, max_y) = crtc.max_coordinates();
        max_x <= self.width && max_y <= self.height
    }

    /// Calculates the screen size that snugly fits a set of controllers,
    /// deriving the physical dimensions from the reference display's
    /// current height in pixels and millimetres.
    pub fn fitting_crtcs(crtcs: &Vec<Crtc>, ref_height_px: i32, ref_height_mm: i32) -> (r:
        ScreenSize)
        requires
            crtcs@.len() > 0,
            crtc_bounds_ok(crtcs@),
            ref_height_px > 0,
            ref_height_mm > 0,
            round_div(max_right(crtcs@) * ref_height_mm, ref_height_px as int) <= i32::MAX,
            round_div(max_bottom(crtcs@) * ref_height_mm, ref_height_px as int) <= i32::MAX,
        ensures
            r == size_spec(crtcs@, ref_height_px as int, ref_height_mm as int),
    {
        let ghost s = crtcs@;
        let c0 = &crtcs[0];
        let mut width: i32 = c0.x + c0.width as i32;
        let mut height: i32 = c0.y + c0.height as i32;
        let mut i: usize = 1;
        while i < crtcs.len()
            invariant
                1 <= i <= s.len(),
                crtcs@ == s,
                crtc_bounds_ok(s),
                width == max_right(s.take(i as int)),
                height == max_bottom(s.take(i as int)),
            decreases s.len() - i,
        {
            proof {
                assert(s.take(i + 1).drop_last() =~= s.take(i as int));
                assert(s.take(i + 1).last() == s[i as int]);
            }
            let c = &crtcs[i];
            let right: i32 = c.x + c.width as i32;
            let bottom: i32 = c.y + c.height as i32;
            if right > width {
                width = right;
            }
            if bottom > height {
                height = bottom;
            }
            i += 1;
        }
        proof {
            assert(s.take(s.len() as int) =~= s);
            lemma_max_bounds(s);
            let wx = choose|j: int| 0 <= j < s.len() && max_right(s) == s[j].x + s[j].width;
            assert(s[wx].x >= 0);
            let wy = choose|j: int| 0 <= j < s.len() && max_bottom(s) == s[j].y + s[j].height;
            assert(s[wy].y >= 0);
            assert(0 <= width <= 0x7fff_ffff);
            assert(0 <= height <= 0x7fff_ffff);
            assert((width as int) * (ref_height_mm as int) < 0x4000_0000_0000_0000
                && (width as int) * (ref_height_mm as int) >= 0) by (nonlinear_arith)
                requires
                    0 <= width as int <= 0x7fff_ffff,
                    0 < ref_height_mm as int <= 0x7fff_ffff,
                    0 < ref_height_px as int <= 0x7fff_ffff,
            ;
            assert((height as int) * (ref_height_mm as int) < 0x4000_0000_0000_0000
                && (height as int) * (ref_height_mm as int) >= 0) by (nonlinear_arith)
                requires
                    0 <= height as int <= 0x7fff_ffff,
                    0 < ref_height_mm as int <= 0x7fff_ffff,
                    0 < ref_height_px as int <= 0x7fff_ffff,
            ;
        }
        let w_prod: u64 = (width as u64) * (ref_height_mm as u64);
        let h_prod: u64 = (height as u64) * (ref_height_mm as u64);
        let width_mm_w: u64 = (2 * w_prod + ref_height_px as u64) / (2 * (ref_height_px as u64));
        let height_mm_w: u64 = (2 * h_prod + ref_height_px as u64) / (2 * (ref_height_px as u64));
        proof {
            assert(width_mm_w == round_div(max_right(s) * ref_height_mm, ref_height_px as int));
            assert(height_mm_w == round_div(max_bottom(s) * ref_height_mm, ref_height_px as int));
        }
        ScreenSize {
            width,
            width_mm: width_mm_w as i32,
            height,
            height_mm: height_mm_w as i32,
        }
    }
}

} // verus!
