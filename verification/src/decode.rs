//! The decode step's one decision: the size a decoded image is brought
//! down to. Anything over 1200 pixels on its longer side is scaled so
//! that side becomes 1200, keeping the aspect ratio in integer pixels;
//! smaller images keep their size. The decoding itself is outside work.
use vstd::prelude::*;
use vstd::arithmetic::div_mod::{lemma_div_is_ordered, lemma_div_multiples_vanish};

verus! {

/// The longest side a decoded texture may keep, in pixels.
pub const MAX_TEXTURE_SIDE: u32 = 1200;

/// The display size for a decoded image of `w` by `h` pixels.
pub open spec fn spec_downscale(w: int, h: int) -> (int, int) {
    if w <= 1200 && h <= 1200 {
        (w, h)
    } else {
        let m = if w >= h {
            w
        } else {
            h
        };
        ((w * 1200) / m, (h * 1200) / m)
    }
}

/// Computes the downscaled dimensions, exactly as `spec_downscale` says;
/// neither side grows, and the longer side of an oversized image becomes
/// 1200 exactly.
pub fn downscale_dims(w: u32, h: u32) -> (r: (u32, u32))
    ensures
        (r.0 as int, r.1 as int) == spec_downscale(w as int, h as int),
        r.0 <= w && r.1 <= h,
        (w > 1200 || h > 1200) ==> (if w >= h {
            r.0 == 1200
        } else {
            r.1 == 1200
        }),
{
    if w <= MAX_TEXTURE_SIDE && h <= MAX_TEXTURE_SIDE {
        (w, h)
    } else {
        let m = if w >= h {
            w
        } else {
            h
        };
        proof {
            assert((w as int) * 1200 <= (m as int) * 1200) by (nonlinear_arith)
                requires w <= m;
            lemma_div_is_ordered((w as int) * 1200, (m as int) * 1200, m as int);
            lemma_div_multiples_vanish(1200, m as int);
            assert((h as int) * 1200 <= (m as int) * 1200) by (nonlinear_arith)
                requires h <= m;
            lemma_div_is_ordered((h as int) * 1200, (m as int) * 1200, m as int);
            assert((w as int) * 1200 <= (m as int) * (w as int)) by (nonlinear_arith)
                requires 1200 <= m;
            lemma_div_is_ordered((w as int) * 1200, (m as int) * (w as int), m as int);
            lemma_div_multiples_vanish(w as int, m as int);
            assert((h as int) * 1200 <= (m as int) * (h as int)) by (nonlinear_arith)
                requires 1200 <= m;
            lemma_div_is_ordered((h as int) * 1200, (m as int) * (h as int), m as int);
            lemma_div_multiples_vanish(h as int, m as int);
        }
        let nw = ((w as u64) * 1200 / (m as u64)) as u32;
        let nh = ((h as u64) * 1200 / (m as u64)) as u32;
        (nw, nh)
    }
}

} // verus!
