//! Emissive palettes: a small colour table stored in the pixels at
//! `x in 52..56, y in 32..36`, and the pass that splits a texture into its
//! emissive and non-emissive parts.

use vstd::prelude::*;
use crate::errors::EarsError;
use crate::features::EarsFeatures;
use crate::image::{EarsImage, Rgba};
use crate::parser::EarsParser;
use crate::parser_v0::{cell_argb, v0_detected_spec};
use crate::parser_v1::{v1_decodes_to, v1_detected_spec};

verus! {

/// An opaque palette colour.
#[derive(Clone, Copy, Debug, PartialEq, Eq, Structural)]
pub struct EarsColor {
    pub r: u8,
    pub g: u8,
    pub b: u8,
}

/// The colours a skin marks as emissive.
#[derive(Clone, Debug, PartialEq, Eq)]
pub struct EarsEmissivePalette(pub Vec<EarsColor>);

/// The palette area holds at most sixteen colours.
pub const MAX_EMISSIVE_COLORS: usize = 16;

/// The sixteen palette cells, x outer, y inner.
pub open spec fn palette_cells() -> Seq<(int, int)> {
    Seq::new(16, |i: int| (52 + i / 4, 32 + i % 4))
}

/// The colours collected from a cell list: cells outside the image or with
/// zero alpha contribute nothing.
pub open spec fn collect_palette(im: EarsImage, ps: Seq<(int, int)>) -> Seq<EarsColor>
    decreases ps.len(),
{
    if ps.len() == 0 {
        Seq::empty()
    } else {
        let rest = collect_palette(im, ps.drop_first());
        let (x, y) = ps[0];
        if im.in_bounds(x, y) && im.px(x, y).a > 0 {
            seq![EarsColor { r: im.px(x, y).r, g: im.px(x, y).g, b: im.px(x, y).b }] + rest
        } else {
            rest
        }
    }
}

proof fn lemma_collect_palette_concat(im: EarsImage, a: Seq<(int, int)>, b: Seq<(int, int)>)
    ensures
        collect_palette(im, a + b) =~= collect_palette(im, a) + collect_palette(im, b),
    decreases a.len(),
{
    if a.len() == 0 {
        assert(a + b =~= b);
    } else {
        assert((a + b).drop_first() =~= a.drop_first() + b);
        lemma_collect_palette_concat(im, a.drop_first(), b);
        assert((a + b)[0] == a[0]);
    }
}

/// What the happy path of `extract_emissive_palette` returns: `None` when
/// the palette area is empty, else the collected colours.
pub open spec fn extracted_palette(im: EarsImage, r: Option<EarsEmissivePalette>) -> bool {
    let cs = collect_palette(im, palette_cells());
    if cs.len() == 0 {
        r is None
    } else {
        r matches Some(p) && p.0@ == cs
    }
}

/// Collects the palette colours from the sixteen cells.
fn collect_palette_exec(skin: &EarsImage) -> (r: Vec<EarsColor>)
    requires
        skin.wf(),
    ensures
        r@ == collect_palette(*skin, palette_cells()),
{
    let mut out: Vec<EarsColor> = Vec::new();
    let mut x: u32 = 52;
    proof {
        assert(palette_cells().take(0) =~= Seq::<(int, int)>::empty());
    }
    while x < 56
        invariant
            skin.wf(),
            52 <= x <= 56,
            out@ =~= collect_palette(*skin, palette_cells().take(4 * (x - 52))),
        decreases 56 - x,
    {
        let mut y: u32 = 32;
        while y < 36
            invariant
                skin.wf(),
                52 <= x < 56,
                32 <= y <= 36,
                out@ =~= collect_palette(
                    *skin,
                    palette_cells().take(4 * (x - 52) + (y - 32)),
                ),
            decreases 36 - y,
        {
            let ghost i = 4 * (x - 52) + (y - 32);
            proof {
                vstd::arithmetic::div_mod::lemma_fundamental_div_mod_converse(
                    i as int,
                    4,
                    x - 52,
                    y - 32,
                );
                assert(palette_cells()[i as int] == (x as int, y as int));
                let t1 = palette_cells().take(i as int);
                let t2 = palette_cells().take(i + 1);
                assert(t2 =~= t1 + seq![palette_cells()[i as int]]);
                lemma_collect_palette_concat(*skin, t1, seq![palette_cells()[i as int]]);
                assert(seq![palette_cells()[i as int]].drop_first() =~= Seq::<(int, int)>::empty());
            }
            let ghost out0 = out@;
            match skin.get_pixel(x, y) {
                Some(p) => {
                    if p.a > 0 {
                        out.push(EarsColor { r: p.r, g: p.g, b: p.b });
                        proof {
                            assert(out@ =~= out0 + seq![
                                EarsColor {
                                    r: skin.px(x as int, y as int).r,
                                    g: skin.px(x as int, y as int).g,
                                    b: skin.px(x as int, y as int).b,
                                },
                            ]);
                        }
                    }
                },
                None => {},
            }
            proof {
                let single = seq![palette_cells()[i as int]];
                assert(single.drop_first() =~= Seq::<(int, int)>::empty());
                assert(collect_palette(*skin, single.drop_first()) =~= Seq::<EarsColor>::empty());
                assert(single[0] == (x as int, y as int));
                if skin.in_bounds(x as int, y as int) && skin.px(x as int, y as int).a > 0 {
                    assert(collect_palette(*skin, single) =~= seq![
                        EarsColor {
                            r: skin.px(x as int, y as int).r,
                            g: skin.px(x as int, y as int).g,
                            b: skin.px(x as int, y as int).b,
                        },
                    ]);
                } else {
                    assert(collect_palette(*skin, single) =~= Seq::<EarsColor>::empty());
                    assert(out@ =~= out0 + Seq::<EarsColor>::empty());
                }
                assert(out@ =~= collect_palette(*skin, palette_cells().take(i + 1)));
                assert(4 * (x - 52) + (y + 1 - 32) == i + 1);
            }
            y = y + 1;
        }
        x = x + 1;
    }
    proof {
        assert(palette_cells().take(16) =~= palette_cells());
    }
    out
}

/// Reads the emissive palette of a skin: present only when the skin's
/// feature record has the emissive flag set and the palette area holds at
/// least one non-transparent colour.
pub fn extract_emissive_palette(skin: &EarsImage) -> (r: Result<
    Option<EarsEmissivePalette>,
    EarsError,
>)
    requires
        skin.wf(),
    ensures
        !skin.in_bounds(0, 32) ==> {
            &&& r matches Ok(o)
            &&& o is None
        },
        skin.in_bounds(0, 32) && !v0_detected_spec(*skin) && !v1_detected_spec(*skin) ==> {
            &&& r matches Ok(o)
            &&& o is None
        },
        skin.in_bounds(0, 32) && v0_detected_spec(*skin) && skin.width_spec() >= 4
            && skin.height_spec() >= 35 ==> {
            &&& r matches Ok(o)
            &&& (cell_argb(*skin, 10) == 0xFFD87823 ==> extracted_palette(*skin, o))
            &&& (cell_argb(*skin, 10) != 0xFFD87823 ==> o is None)
        },
        skin.in_bounds(0, 32) && !v0_detected_spec(*skin) && v1_detected_spec(*skin)
            && skin.width_spec() >= 4 && skin.height_spec() >= 36 ==> {
            &&& r matches Ok(o)
            &&& forall|f: EarsFeatures|
                #[trigger] v1_decodes_to(*skin, f) ==> {
                    &&& (f.emissive ==> extracted_palette(*skin, o))
                    &&& (!f.emissive ==> o is None)
                }
        },
{
    let features: Option<EarsFeatures> = match EarsParser::parse(skin) {
        Ok(f) => f,
        Err(e) => {
            return Err(e);
        },
    };
    let emissive: bool = match features {
        Some(f) => f.emissive,
        None => false,
    };
    if !emissive {
        return Ok(None);
    }
    let colors: Vec<EarsColor> = collect_palette_exec(skin);
    if colors.len() == 0 {
        Ok(None)
    } else {
        Ok(Some(EarsEmissivePalette(colors)))
    }
}

/// Writes a palette into the sixteen cells: colours in order, the unused
/// tail fully transparent. Cells outside the image are skipped.
pub fn write_emissive_palette(skin: &mut EarsImage, emissive_palette: &EarsEmissivePalette) -> (r:
    Result<(), EarsError>)
    requires
        old(skin).wf(),
    ensures
        final(skin).wf(),
        final(skin).width_spec() == old(skin).width_spec(),
        final(skin).height_spec() == old(skin).height_spec(),
        r matches Ok(u),
        forall|i: int|
            0 <= i < 16 && old(skin).in_bounds((#[trigger] palette_cells()[i]).0,
                palette_cells()[i].1) ==> final(skin).px(
                palette_cells()[i].0,
                palette_cells()[i].1,
            ) == (if i < emissive_palette.0@.len() {
                Rgba {
                    r: emissive_palette.0@[i].r,
                    g: emissive_palette.0@[i].g,
                    b: emissive_palette.0@[i].b,
                    a: 255u8,
                }
            } else {
                Rgba { r: 0u8, g: 0u8, b: 0u8, a: 0u8 }
            }),
        forall|x: int, y: int|
            old(skin).in_bounds(x, y) && !(52 <= x < 56 && 32 <= y < 36)
                ==> #[trigger] final(skin).px(x, y) == old(skin).px(x, y),
{
    let n: usize = emissive_palette.0.len();
    let mut x: u32 = 52;
    while x < 56
        invariant
            skin.wf(),
            skin.width_spec() == old(skin).width_spec(),
            skin.height_spec() == old(skin).height_spec(),
            n == emissive_palette.0@.len(),
            52 <= x <= 56,
            forall|i: int|
                0 <= i < 4 * (x - 52) && old(skin).in_bounds((#[trigger] palette_cells()[i]).0,
                    palette_cells()[i].1) ==> skin.px(palette_cells()[i].0, palette_cells()[i].1)
                    == (if i < emissive_palette.0@.len() {
                    Rgba {
                        r: emissive_palette.0@[i].r,
                        g: emissive_palette.0@[i].g,
                        b: emissive_palette.0@[i].b,
                        a: 255u8,
                    }
                } else {
                    Rgba { r: 0u8, g: 0u8, b: 0u8, a: 0u8 }
                }),
            forall|px: int, py: int|
                old(skin).in_bounds(px, py) && !(52 <= px < 52 + (x - 52) && 32 <= py < 36)
                    ==> #[trigger] skin.px(px, py) == old(skin).px(px, py),
        decreases 56 - x,
    {
        let mut y: u32 = 32;
        while y < 36
            invariant
                skin.wf(),
                skin.width_spec() == old(skin).width_spec(),
                skin.height_spec() == old(skin).height_spec(),
                n == emissive_palette.0@.len(),
                52 <= x < 56,
                32 <= y <= 36,
                forall|i: int|
                    0 <= i < 4 * (x - 52) + (y - 32) && old(skin).in_bounds(
                        (#[trigger] palette_cells()[i]).0,
                        palette_cells()[i].1,
                    ) ==> skin.px(palette_cells()[i].0, palette_cells()[i].1) == (if i
                        < emissive_palette.0@.len() {
                        Rgba {
                            r: emissive_palette.0@[i].r,
                            g: emissive_palette.0@[i].g,
                            b: emissive_palette.0@[i].b,
                            a: 255u8,
                        }
                    } else {
                        Rgba { r: 0u8, g: 0u8, b: 0u8, a: 0u8 }
                    }),
                forall|px: int, py: int|
                    old(skin).in_bounds(px, py) && !((52 <= px < 52 + (x - 52) && 32 <= py < 36) || (
                    px == x as int && 32 <= py < 32 + (y - 32))) ==> #[trigger] skin.px(px, py)
                        == old(skin).px(px, py),
            decreases 36 - y,
        {
            let idx: usize = (4 * (x - 52) + (y - 32)) as usize;
            let p: Rgba = if idx < n {
                let c: EarsColor = emissive_palette.0[idx];
                Rgba { r: c.r, g: c.g, b: c.b, a: 255 }
            } else {
                Rgba { r: 0, g: 0, b: 0, a: 0 }
            };
            let ghost pre = *skin;
            let _ = skin.set_pixel(x, y, p);
            proof {
                assert forall|i: int|
                    0 <= i < 4 * (x - 52) + (y - 32) + 1 && old(skin).in_bounds(
                        (#[trigger] palette_cells()[i]).0,
                        palette_cells()[i].1,
                    ) implies skin.px(palette_cells()[i].0, palette_cells()[i].1) == (if i
                    < emissive_palette.0@.len() {
                    Rgba {
                        r: emissive_palette.0@[i].r,
                        g: emissive_palette.0@[i].g,
                        b: emissive_palette.0@[i].b,
                        a: 255u8,
                    }
                } else {
                    Rgba { r: 0u8, g: 0u8, b: 0u8, a: 0u8 }
                }) by {
                    vstd::arithmetic::div_mod::lemma_fundamental_div_mod(i, 4);
                    vstd::arithmetic::div_mod::lemma_fundamental_div_mod_converse(
                        4 * (x - 52) + (y - 32),
                        4,
                        x - 52,
                        y - 32,
                    );
                    if i < 4 * (x - 52) + (y - 32) {
                        assert(palette_cells()[i] != (x as int, y as int));
                        assert(skin.px(palette_cells()[i].0, palette_cells()[i].1) == pre.px(
                            palette_cells()[i].0,
                            palette_cells()[i].1,
                        ));
                    } else {
                        assert(palette_cells()[i] == (x as int, y as int));
                    }
                }
            }
            y = y + 1;
        }
        x = x + 1;
    }
    proof {
        assert forall|i: int|
            0 <= i < 16 && old(skin).in_bounds((#[trigger] palette_cells()[i]).0,
                palette_cells()[i].1) implies final(skin).px(
            palette_cells()[i].0,
            palette_cells()[i].1,
        ) == (if i < emissive_palette.0@.len() {
            Rgba {
                r: emissive_palette.0@[i].r,
                g: emissive_palette.0@[i].g,
                b: emissive_palette.0@[i].b,
                a: 255u8,
            }
        } else {
            Rgba { r: 0u8, g: 0u8, b: 0u8, a: 0u8 }
        }) by {}
    }
    Ok(())
}

/// Whether a palette holds a colour.
pub open spec fn palette_contains(p: Seq<EarsColor>, c: EarsColor) -> bool {
    exists|i: int| 0 <= i < p.len() && p[i] == c
}

fn palette_contains_exec(p: &Vec<EarsColor>, c: EarsColor) -> (r: bool)
    ensures
        r == palette_contains(p@, c),
{
    let n: usize = p.len();
    let mut i: usize = 0;
    while i < n
        invariant
            n == p@.len(),
            i <= n,
            forall|j: int| 0 <= j < i ==> #[trigger] p@[j] != c,
        decreases n - i,
    {
        let e: EarsColor = p[i];
        if e.r == c.r && e.g == c.g && e.b == c.b {
            proof {
                assert(p@[i as int] == c);
            }
            return true;
        }
        i = i + 1;
    }
    false
}

/// Splits a texture: every non-transparent pixel whose colour is in the
/// palette moves to the returned emissive layer (fully opaque) and is
/// blanked in the texture; everything else stays.
pub fn apply_emissive_palette(texture: &mut EarsImage, emissive_palette: &EarsEmissivePalette) -> (r:
    Result<EarsImage, EarsError>)
    requires
        old(texture).wf(),
    ensures
        final(texture).wf(),
        final(texture).width_spec() == old(texture).width_spec(),
        final(texture).height_spec() == old(texture).height_spec(),
        r matches Ok(em) && em.wf() && em.width_spec() == old(texture).width_spec()
            && em.height_spec() == old(texture).height_spec() && forall|x: int, y: int|
            old(texture).in_bounds(x, y) ==> {
                let p = old(texture).px(x, y);
                let hit = p.a > 0 && palette_contains(
                    emissive_palette.0@,
                    EarsColor { r: p.r, g: p.g, b: p.b },
                );
                &&& #[trigger] final(texture).px(x, y) == (if hit {
                    Rgba { r: 0u8, g: 0u8, b: 0u8, a: 0u8 }
                } else {
                    p
                })
                &&& em.px(x, y) == (if hit {
                    Rgba { r: p.r, g: p.g, b: p.b, a: 255u8 }
                } else {
                    Rgba { r: 0u8, g: 0u8, b: 0u8, a: 0u8 }
                })
            },
{
    let w: u32 = texture.width();
    let h: u32 = texture.height();
    let _len: usize = texture.byte_len();
    let mut emissive_texture: EarsImage = EarsImage::new(w, h);
    let mut x: u32 = 0;
    while x < w
        invariant
            texture.wf(),
            emissive_texture.wf(),
            texture.width_spec() == w,
            texture.height_spec() == h,
            emissive_texture.width_spec() == w,
            emissive_texture.height_spec() == h,
            old(texture).width_spec() == w,
            old(texture).height_spec() == h,
            x <= w,
            forall|px: int, py: int|
                old(texture).in_bounds(px, py) ==> {
                    let p = old(texture).px(px, py);
                    let hit = p.a > 0 && palette_contains(
                        emissive_palette.0@,
                        EarsColor { r: p.r, g: p.g, b: p.b },
                    );
                    &&& #[trigger] texture.px(px, py) == (if px < x && hit {
                        Rgba { r: 0u8, g: 0u8, b: 0u8, a: 0u8 }
                    } else {
                        p
                    })
                    &&& emissive_texture.px(px, py) == (if px < x && hit {
                        Rgba { r: p.r, g: p.g, b: p.b, a: 255u8 }
                    } else {
                        Rgba { r: 0u8, g: 0u8, b: 0u8, a: 0u8 }
                    })
                },
        decreases w - x,
    {
        let mut y: u32 = 0;
        while y < h
            invariant
                texture.wf(),
                emissive_texture.wf(),
                texture.width_spec() == w,
                texture.height_spec() == h,
                emissive_texture.width_spec() == w,
                emissive_texture.height_spec() == h,
                old(texture).width_spec() == w,
                old(texture).height_spec() == h,
                x < w,
                y <= h,
                forall|px: int, py: int|
                    old(texture).in_bounds(px, py) ==> {
                        let p = old(texture).px(px, py);
                        let hit = p.a > 0 && palette_contains(
                            emissive_palette.0@,
                            EarsColor { r: p.r, g: p.g, b: p.b },
                        );
                        &&& #[trigger] texture.px(px, py) == (if (px < x || (px == x && py < y))
                            && hit {
                            Rgba { r: 0u8, g: 0u8, b: 0u8, a: 0u8 }
                        } else {
                            p
                        })
                        &&& emissive_texture.px(px, py) == (if (px < x || (px == x && py < y))
                            && hit {
                            Rgba { r: p.r, g: p.g, b: p.b, a: 255u8 }
                        } else {
                            Rgba { r: 0u8, g: 0u8, b: 0u8, a: 0u8 }
                        })
                    },
            decreases h - y,
        {
            let p: Rgba = match texture.get_pixel(x, y) {
                Some(p) => p,
                None => {
                    proof {
                        assert(false);
                    }
                    return Err(EarsError::InvalidPixelLocation(x, y));
                },
            };
            let ghost tpre = *texture;
            let ghost epre = emissive_texture;
            if p.a > 0 && palette_contains_exec(&emissive_palette.0, EarsColor {
                r: p.r,
                g: p.g,
                b: p.b,
            }) {
                let ok1 = emissive_texture.set_pixel(x, y, Rgba { r: p.r, g: p.g, b: p.b, a: 255 });
                let ok2 = texture.set_pixel(x, y, Rgba { r: 0, g: 0, b: 0, a: 0 });
                proof {
                    assert(ok1 && ok2);
                }
            }
            proof {
                assert forall|px: int, py: int| old(texture).in_bounds(px, py) implies {
                    let q = old(texture).px(px, py);
                    let hit = q.a > 0 && palette_contains(
                        emissive_palette.0@,
                        EarsColor { r: q.r, g: q.g, b: q.b },
                    );
                    &&& #[trigger] texture.px(px, py) == (if (px < x as int || (px == x as int && py
                        < y + 1)) && hit {
                        Rgba { r: 0u8, g: 0u8, b: 0u8, a: 0u8 }
                    } else {
                        q
                    })
                    &&& emissive_texture.px(px, py) == (if (px < x as int || (px == x as int && py
                        < y + 1)) && hit {
                        Rgba { r: q.r, g: q.g, b: q.b, a: 255u8 }
                    } else {
                        Rgba { r: 0u8, g: 0u8, b: 0u8, a: 0u8 }
                    })
                } by {
                    if !(px == x as int && py == y as int) {
                        assert(texture.px(px, py) == tpre.px(px, py));
                        assert(emissive_texture.px(px, py) == epre.px(px, py));
                    }
                }
            }
            y = y + 1;
        }
        x = x + 1;
    }
    Ok(emissive_texture)
}

} // verus!
