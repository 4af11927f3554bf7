//! Cape geometry conversion: rearranges the compact cape layout into the
//! standard 64 by 32 cape layout by copying six rectangular views.

use vstd::prelude::*;
use crate::image::{EarsImage, Rgba};

verus! {

/// One copied view: a `w` by `h` window of the source at `(sx, sy)`,
/// placed at `(dx, dy)`, clipped to both images.
pub open spec fn copied_px(
    dst0: EarsImage,
    src: EarsImage,
    sx: int,
    sy: int,
    w: int,
    h: int,
    dx: int,
    dy: int,
    x: int,
    y: int,
) -> Rgba {
    if dx <= x < dx + w && dy <= y < dy + h && src.in_bounds(sx + (x - dx), sy + (y - dy)) {
        src.px(sx + (x - dx), sy + (y - dy))
    } else {
        dst0.px(x, y)
    }
}

/// Copies a clipped window of `src` into `dst`.
fn copy_view(
    dst: &mut EarsImage,
    src: &EarsImage,
    sx: u32,
    sy: u32,
    w: u32,
    h: u32,
    dx: u32,
    dy: u32,
)
    requires
        old(dst).wf(),
        src.wf(),
        dx + w <= 0xFFFF_FFFF,
        dy + h <= 0xFFFF_FFFF,
        sx + w <= 0xFFFF_FFFF,
        sy + h <= 0xFFFF_FFFF,
    ensures
        final(dst).wf(),
        final(dst).width_spec() == old(dst).width_spec(),
        final(dst).height_spec() == old(dst).height_spec(),
        forall|x: int, y: int|
            old(dst).in_bounds(x, y) ==> #[trigger] final(dst).px(x, y) == copied_px(
                *old(dst),
                *src,
                sx as int,
                sy as int,
                w as int,
                h as int,
                dx as int,
                dy as int,
                x,
                y,
            ),
{
    let mut i: u32 = 0;
    while i < w
        invariant
            dst.wf(),
            src.wf(),
            dst.width_spec() == old(dst).width_spec(),
            dst.height_spec() == old(dst).height_spec(),
            i <= w,
            dx + w <= 0xFFFF_FFFF,
            dy + h <= 0xFFFF_FFFF,
            sx + w <= 0xFFFF_FFFF,
            sy + h <= 0xFFFF_FFFF,
            forall|x: int, y: int|
                old(dst).in_bounds(x, y) ==> #[trigger] dst.px(x, y) == (if dx <= x < dx + i && dy
                    <= y < dy + h && src.in_bounds(
                    sx + (x - dx),
                    sy + (y - dy),
                ) {
                    src.px(sx + (x - dx), sy + (y - dy))
                } else {
                    old(dst).px(x, y)
                }),
        decreases w - i,
    {
        let mut j: u32 = 0;
        while j < h
            invariant
                dst.wf(),
                src.wf(),
                dst.width_spec() == old(dst).width_spec(),
                dst.height_spec() == old(dst).height_spec(),
                i < w,
                j <= h,
                dx + w <= 0xFFFF_FFFF,
                dy + h <= 0xFFFF_FFFF,
                sx + w <= 0xFFFF_FFFF,
                sy + h <= 0xFFFF_FFFF,
                forall|x: int, y: int|
                    old(dst).in_bounds(x, y) ==> #[trigger] dst.px(x, y) == (if ((dx <= x < dx + i
                        && dy <= y < dy + h) || (x == dx + i && dy <= y < dy + j))
                        && src.in_bounds(sx + (x - dx), sy + (y - dy)) {
                        src.px(sx + (x - dx), sy + (y - dy))
                    } else {
                        old(dst).px(x, y)
                    }),
            decreases h - j,
        {
            match src.get_pixel(sx + i, sy + j) {
                Some(p) => {
                    let _ = dst.set_pixel(dx + i, dy + j, p);
                },
                None => {},
            }
            j = j + 1;
        }
        i = i + 1;
    }
}

/// The pixel of the converted cape at `(x, y)`: the last of the six copied
/// views that covers it, over a transparent-black ground.
pub open spec fn mojang_cape_px(cape: EarsImage, x: int, y: int) -> Rgba {
    let blank = Rgba { r: 0u8, g: 0u8, b: 0u8, a: 0u8 };
    let after_front = if 1 <= x < 21 && 1 <= y < 17 && cape.in_bounds(x - 1, y - 1) {
        cape.px(x - 1, y - 1)
    } else {
        blank
    };
    let after_back = if 12 <= x < 32 && 1 <= y < 17 && cape.in_bounds(10 + (x - 12), y - 1) {
        cape.px(10 + (x - 12), y - 1)
    } else {
        after_front
    };
    let after_left = if 0 <= x < 1 && 1 <= y < 17 && cape.in_bounds(x, y - 1) {
        cape.px(x, y - 1)
    } else {
        after_back
    };
    let after_right = if 11 <= x < 12 && 1 <= y < 17 && cape.in_bounds(9, y - 1) {
        cape.px(9, y - 1)
    } else {
        after_left
    };
    let after_top = if 1 <= x < 11 && 0 <= y < 1 && cape.in_bounds(x - 1, y) {
        cape.px(x - 1, y)
    } else {
        after_right
    };
    if 11 <= x < 21 && 0 <= y < 1 && cape.in_bounds(10 + (x - 11), 15 + y) {
        cape.px(10 + (x - 11), 15 + y)
    } else {
        after_top
    }
}

/// Converts a compact cape into the standard 64 by 32 layout. A cape that
/// already has that size is returned unchanged.
pub fn convert_ears_cape_to_mojang_cape(ears_cape: EarsImage) -> (r: EarsImage)
    requires
        ears_cape.wf(),
    ensures
        r.wf(),
        r.width_spec() == 64,
        r.height_spec() == 32,
        ears_cape.width_spec() == 64 && ears_cape.height_spec() == 32 ==> r == ears_cape,
        !(ears_cape.width_spec() == 64 && ears_cape.height_spec() == 32) ==> forall|x: int, y: int|
            r.in_bounds(x, y) ==> #[trigger] r.px(x, y) == mojang_cape_px(ears_cape, x, y),
{
    if ears_cape.width() == 64 && ears_cape.height() == 32 {
        return ears_cape;
    }
    let mut final_cape: EarsImage = EarsImage::new(64, 32);
    let ghost base = final_cape;
    copy_view(&mut final_cape, &ears_cape, 0, 0, 20, 16, 1, 1);
    let ghost g1 = final_cape;
    copy_view(&mut final_cape, &ears_cape, 10, 0, 20, 16, 12, 1);
    let ghost g2 = final_cape;
    copy_view(&mut final_cape, &ears_cape, 0, 0, 1, 16, 0, 1);
    let ghost g3 = final_cape;
    copy_view(&mut final_cape, &ears_cape, 9, 0, 1, 16, 11, 1);
    let ghost g4 = final_cape;
    copy_view(&mut final_cape, &ears_cape, 0, 0, 10, 1, 1, 0);
    let ghost g5 = final_cape;
    copy_view(&mut final_cape, &ears_cape, 10, 15, 10, 1, 11, 0);
    proof {
        assert forall|x: int, y: int| final_cape.in_bounds(x, y) implies #[trigger] final_cape.px(
            x,
            y,
        ) == mojang_cape_px(ears_cape, x, y) by {
            assert(base.px(x, y) == (Rgba { r: 0u8, g: 0u8, b: 0u8, a: 0u8 }));
            assert(g1.px(x, y) == copied_px(base, ears_cape, 0, 0, 20, 16, 1, 1, x, y));
            assert(g2.px(x, y) == copied_px(g1, ears_cape, 10, 0, 20, 16, 12, 1, x, y));
            assert(g3.px(x, y) == copied_px(g2, ears_cape, 0, 0, 1, 16, 0, 1, x, y));
            assert(g4.px(x, y) == copied_px(g3, ears_cape, 9, 0, 1, 16, 11, 1, x, y));
            assert(g5.px(x, y) == copied_px(g4, ears_cape, 0, 0, 10, 1, 1, 0, x, y));
            assert(final_cape.px(x, y) == copied_px(g5, ears_cape, 10, 15, 10, 1, 11, 0, x, y));
        }
    }
    final_cape
}

} // verus!
