//! Alpha stripping: forces the alpha of the opaque body regions of a skin
//! to fully opaque, leaving colours untouched.

use vstd::prelude::*;
use crate::image::{EarsImage, Rgba};

verus! {

/// The regions whose alpha is forced opaque.
pub open spec fn strip_rect(i: int) -> (int, int, int, int) {
    if i == 0 {
        (8, 0, 24, 8)
    } else if i == 1 {
        (0, 8, 32, 16)
    } else if i == 2 {
        (4, 16, 12, 20)
    } else if i == 3 {
        (20, 16, 36, 20)
    } else if i == 4 {
        (44, 16, 52, 20)
    } else if i == 5 {
        (0, 20, 56, 32)
    } else if i == 6 {
        (20, 48, 28, 52)
    } else if i == 7 {
        (36, 48, 44, 52)
    } else {
        (16, 52, 48, 64)
    }
}

/// Whether `(x, y)` lies in one of the stripped regions.
pub open spec fn in_strip_region(x: int, y: int) -> bool {
    exists|i: int|
        0 <= i < 9 && {
            let r = #[trigger] strip_rect(i);
            r.0 <= x < r.2 && r.1 <= y < r.3
        }
}

/// The pixel after stripping: colours kept, alpha forced opaque inside the
/// regions.
pub open spec fn stripped_px(p: Rgba, inside: bool) -> Rgba {
    if inside {
        Rgba { r: p.r, g: p.g, b: p.b, a: 255u8 }
    } else {
        p
    }
}

/// How `strip_alpha` rewrites an image, pixel for pixel.
pub open spec fn strip_rel(im0: EarsImage, im1: EarsImage) -> bool {
    &&& im1.wf()
    &&& im1.width_spec() == im0.width_spec()
    &&& im1.height_spec() == im0.height_spec()
    &&& forall|x: int, y: int|
        im0.in_bounds(x, y) ==> #[trigger] im1.px(x, y) == stripped_px(
            im0.px(x, y),
            in_strip_region(x, y),
        )
}

/// Forces alpha opaque over one rectangle, clipped to the image.
fn fill_alpha_rect(image: &mut EarsImage, x1: u32, y1: u32, x2: u32, y2: u32)
    requires
        old(image).wf(),
        x1 <= x2,
        y1 <= y2,
    ensures
        final(image).wf(),
        final(image).width_spec() == old(image).width_spec(),
        final(image).height_spec() == old(image).height_spec(),
        forall|x: int, y: int|
            old(image).in_bounds(x, y) ==> #[trigger] final(image).px(x, y) == stripped_px(
                old(image).px(x, y),
                x1 <= x < x2 && y1 <= y < y2,
            ),
{
    let mut y: u32 = y1;
    while y < y2
        invariant
            image.wf(),
            image.width_spec() == old(image).width_spec(),
            image.height_spec() == old(image).height_spec(),
            x1 <= x2,
            y1 <= y <= y2,
            forall|px: int, py: int|
                old(image).in_bounds(px, py) ==> #[trigger] image.px(px, py) == stripped_px(
                    old(image).px(px, py),
                    x1 <= px < x2 && y1 <= py < y,
                ),
        decreases y2 - y,
    {
        let mut x: u32 = x1;
        while x < x2
            invariant
                image.wf(),
                image.width_spec() == old(image).width_spec(),
                image.height_spec() == old(image).height_spec(),
                x1 <= x <= x2,
                y1 <= y < y2,
                forall|px: int, py: int|
                    old(image).in_bounds(px, py) ==> #[trigger] image.px(px, py) == stripped_px(
                        old(image).px(px, py),
                        (x1 <= px < x2 && y1 <= py < y) || (py == y && x1 <= px < x),
                    ),
            decreases x2 - x,
        {
            match image.get_pixel(x, y) {
                Some(p) => {
                    let ok = image.set_pixel(x, y, Rgba { r: p.r, g: p.g, b: p.b, a: 255 });
                    proof {
                        assert(ok);
                    }
                },
                None => {},
            }
            x = x + 1;
        }
        y = y + 1;
    }
}

/// Forces the alpha channel of the fixed body regions to fully opaque.
pub fn strip_alpha(image: &mut EarsImage)
    requires
        old(image).wf(),
    ensures
        strip_rel(*old(image), *final(image)),
{
    let ghost im0 = *old(image);
    fill_alpha_rect(image, 8, 0, 24, 8);
    let ghost g0 = *image;
    fill_alpha_rect(image, 0, 8, 32, 16);
    let ghost g1 = *image;
    fill_alpha_rect(image, 4, 16, 12, 20);
    let ghost g2 = *image;
    fill_alpha_rect(image, 20, 16, 36, 20);
    let ghost g3 = *image;
    fill_alpha_rect(image, 44, 16, 52, 20);
    let ghost g4 = *image;
    fill_alpha_rect(image, 0, 20, 56, 32);
    let ghost g5 = *image;
    fill_alpha_rect(image, 20, 48, 28, 52);
    let ghost g6 = *image;
    fill_alpha_rect(image, 36, 48, 44, 52);
    let ghost g7 = *image;
    fill_alpha_rect(image, 16, 52, 48, 64);
    proof {
        assert forall|x: int, y: int| im0.in_bounds(x, y) implies #[trigger] final(image).px(x, y)
            == stripped_px(im0.px(x, y), in_strip_region(x, y)) by {
            assert(g0.px(x, y) == stripped_px(im0.px(x, y), 8 <= x < 24 && 0 <= y < 8));
            assert(g1.px(x, y) == stripped_px(g0.px(x, y), 0 <= x < 32 && 8 <= y < 16));
            assert(g2.px(x, y) == stripped_px(g1.px(x, y), 4 <= x < 12 && 16 <= y < 20));
            assert(g3.px(x, y) == stripped_px(g2.px(x, y), 20 <= x < 36 && 16 <= y < 20));
            assert(g4.px(x, y) == stripped_px(g3.px(x, y), 44 <= x < 52 && 16 <= y < 20));
            assert(g5.px(x, y) == stripped_px(g4.px(x, y), 0 <= x < 56 && 20 <= y < 32));
            assert(g6.px(x, y) == stripped_px(g5.px(x, y), 20 <= x < 28 && 48 <= y < 52));
            assert(g7.px(x, y) == stripped_px(g6.px(x, y), 36 <= x < 44 && 48 <= y < 52));
            assert(final(image).px(x, y) == stripped_px(g7.px(x, y), 16 <= x < 48 && 52 <= y < 64));
            if in_strip_region(x, y) {
                let i = choose|i: int|
                    0 <= i < 9 && {
                        let r = #[trigger] strip_rect(i);
                        r.0 <= x < r.2 && r.1 <= y < r.3
                    };
                assert(final(image).px(x, y) == stripped_px(im0.px(x, y), true));
            } else {
                assert(strip_rect(0) == (8int, 0int, 24int, 8int));
                assert(strip_rect(1) == (0int, 8int, 32int, 16int));
                assert(strip_rect(2) == (4int, 16int, 12int, 20int));
                assert(strip_rect(3) == (20int, 16int, 36int, 20int));
                assert(strip_rect(4) == (44int, 16int, 52int, 20int));
                assert(strip_rect(5) == (0int, 20int, 56int, 32int));
                assert(strip_rect(6) == (20int, 48int, 28int, 52int));
                assert(strip_rect(7) == (36int, 48int, 44int, 52int));
                assert(strip_rect(8) == (16int, 52int, 48int, 64int));
                assert(final(image).px(x, y) == im0.px(x, y));
            }
        }
    }
}

/// Stripping twice is stripping once: a second pass changes nothing.
pub proof fn lemma_strip_alpha_idempotent(im0: EarsImage, im1: EarsImage, im2: EarsImage)
    requires
        im0.wf(),
        strip_rel(im0, im1),
        strip_rel(im1, im2),
    ensures
        im2.raw() == im1.raw(),
{
    assert forall|x: int, y: int| im1.in_bounds(x, y) implies #[trigger] im2.px(x, y) == im1.px(
        x,
        y,
    ) by {}
    crate::image::lemma_px_ext(im1, im2);
}

} // verus!
