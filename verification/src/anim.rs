//! Animations: a moving image's position and scale interpolated from a
//! start point to its bucket over a fixed duration, with a cubic ease-out
//! curve. Time is in integer milliseconds; progress, easing and scale are
//! in thousandths, so every sample is exact integer arithmetic.
use vstd::prelude::*;
use vstd::arithmetic::div_mod::{lemma_div_is_ordered, lemma_div_multiples_vanish, lemma_multiply_divide_lt};
use vstd::arithmetic::mul::lemma_mul_inequality;

verus! {

/// The longest duration an animation may be given, in milliseconds.
pub const MAX_ANIM_DURATION_MS: u64 = 1000000;

/// One in-flight visual transition for a moved image.
pub struct Animation {
    /// The source path the moving texture is still keyed under.
    pub path: String,
    pub start_x: i32,
    pub start_y: i32,
    pub end_x: i32,
    pub end_y: i32,
    /// Scale at departure, in thousandths.
    pub start_scale: u32,
    /// Scale at arrival, in thousandths.
    pub end_scale: u32,
    /// When the animation began, in milliseconds.
    pub start_time: u64,
    /// How long it runs, in milliseconds.
    pub duration: u64,
}

impl Animation {
    /// A positive, bounded duration, so progress arithmetic stays exact.
    pub open spec fn wf(self) -> bool {
        0 < self.duration <= MAX_ANIM_DURATION_MS
    }
}

/// Elapsed share of the duration at `now`, in thousandths, clamped to
/// [0, 1000]; it reaches 1000 exactly when the duration has elapsed.
pub open spec fn spec_progress(a: Animation, now: u64) -> int {
    if now <= a.start_time {
        0
    } else if now - a.start_time >= a.duration {
        1000
    } else {
        ((now - a.start_time) * 1000) / (a.duration as int)
    }
}

/// Whether the animation is over at `now`.
pub open spec fn finished(a: Animation, now: u64) -> bool {
    now >= a.start_time + a.duration
}

/// The cubic ease-out curve over thousandths: fast at first, settling
/// toward the end value.
pub open spec fn spec_ease(t: int) -> int {
    1000 - ((1000 - t) * (1000 - t) * (1000 - t)) / 1000000
}

/// Linear interpolation from `a` to `b` by `e` thousandths.
pub open spec fn spec_lerp(a: int, b: int, e: int) -> int {
    if b >= a {
        a + ((b - a) * e) / 1000
    } else {
        a - ((a - b) * e) / 1000
    }
}

/// The shadow's opacity: 40 at departure, fading linearly to 0.
pub open spec fn spec_shadow(t: int) -> int {
    (40 * (1000 - t)) / 1000
}

pub fn progress_of(a: &Animation, now: u64) -> (t: u64)
    requires
        a.wf(),
    ensures
        t == spec_progress(*a, now),
        t <= 1000,
        (t == 1000) == finished(*a, now),
{
    if now <= a.start_time {
        0
    } else {
        let e = now - a.start_time;
        if e >= a.duration {
            1000
        } else {
            let t = (e * 1000) / a.duration;
            proof {
                lemma_mul_inequality(e as int, a.duration as int, 1000);
                assert(e as int * 1000 < a.duration as int * 1000) by (nonlinear_arith)
                    requires e < a.duration;
                lemma_multiply_divide_lt(e as int * 1000, a.duration as int, 1000);
                assert(t < 1000);
            }
            t
        }
    }
}

pub fn ease_out(t: u64) -> (r: u64)
    requires
        t <= 1000,
    ensures
        r == spec_ease(t as int),
        r <= 1000,
{
    let u = 1000 - t;
    proof {
        lemma_mul_inequality(u as int, 1000, u as int);
        assert(u * u <= 1000000);
        lemma_mul_inequality((u * u) as int, 1000000, u as int);
        assert(u * u * u <= 1000000000);
        lemma_div_is_ordered((u * u * u) as int, 1000000000, 1000000);
    }
    let cube = u * u * u;
    1000 - cube / 1000000
}

/// Interpolated screen coordinate, `e` thousandths of the way from `a`
/// toward `b`.
pub fn lerp_coord(a: i32, b: i32, e: u64) -> (r: i32)
    requires
        e <= 1000,
    ensures
        r as int == spec_lerp(a as int, b as int, e as int),
{
    if b >= a {
        let d = (b as i64 - a as i64) as u64;
        proof {
            lemma_mul_inequality(e as int, 1000, d as int);
            lemma_div_is_ordered((d * e) as int, (d * 1000) as int, 1000);
            lemma_div_multiples_vanish(d as int, 1000);
        }
        let off = (d * e) / 1000;
        (a as i64 + off as i64) as i32
    } else {
        let d = (a as i64 - b as i64) as u64;
        proof {
            lemma_mul_inequality(e as int, 1000, d as int);
            lemma_div_is_ordered((d * e) as int, (d * 1000) as int, 1000);
            lemma_div_multiples_vanish(d as int, 1000);
        }
        let off = (d * e) / 1000;
        (a as i64 - off as i64) as i32
    }
}

/// Interpolated scale in thousandths, `e` thousandths of the way from `a`
/// toward `b`.
pub fn lerp_scale(a: u32, b: u32, e: u64) -> (r: u32)
    requires
        e <= 1000,
    ensures
        r as int == spec_lerp(a as int, b as int, e as int),
{
    if b >= a {
        let d = (b - a) as u64;
        proof {
            lemma_mul_inequality(e as int, 1000, d as int);
            lemma_div_is_ordered((d * e) as int, (d * 1000) as int, 1000);
            lemma_div_multiples_vanish(d as int, 1000);
        }
        let off = (d * e) / 1000;
        a + (off as u32)
    } else {
        let d = (a - b) as u64;
        proof {
            lemma_mul_inequality(e as int, 1000, d as int);
            lemma_div_is_ordered((d * e) as int, (d * 1000) as int, 1000);
            lemma_div_multiples_vanish(d as int, 1000);
        }
        let off = (d * e) / 1000;
        a - (off as u32)
    }
}

/// One rendered sample of an animation: where to draw its texture this
/// frame, at what scale, and how strong its shadow is.
pub struct AnimFrame {
    pub path: String,
    pub x: i32,
    pub y: i32,
    pub scale: u32,
    pub shadow_alpha: u8,
}

/// What a correct sample of `a` at `now` looks like.
pub open spec fn frame_matches(f: AnimFrame, a: Animation, now: u64) -> bool {
    let t = spec_progress(a, now);
    let e = spec_ease(t);
    &&& f.path@ == a.path@
    &&& f.x as int == spec_lerp(a.start_x as int, a.end_x as int, e)
    &&& f.y as int == spec_lerp(a.start_y as int, a.end_y as int, e)
    &&& f.scale as int == spec_lerp(a.start_scale as int, a.end_scale as int, e)
    &&& f.shadow_alpha as int == spec_shadow(t)
}

/// Samples an animation at `now`.
pub fn sample(a: &Animation, now: u64) -> (f: AnimFrame)
    requires
        a.wf(),
    ensures
        frame_matches(f, *a, now),
{
    let t = progress_of(a, now);
    let e = ease_out(t);
    proof {
        lemma_div_is_ordered((40 * (1000 - t)) as int, 40000, 1000);
    }
    AnimFrame {
        path: a.path.clone(),
        x: lerp_coord(a.start_x, a.end_x, e),
        y: lerp_coord(a.start_y, a.end_y, e),
        scale: lerp_scale(a.start_scale, a.end_scale, e),
        shadow_alpha: ((40 * (1000 - t)) / 1000) as u8,
    }
}

/// The source paths of a run of animations.
pub open spec fn anim_paths(s: Seq<Animation>) -> Seq<Seq<char>> {
    s.map_values(|a: Animation| a.path@)
}

/// The in-flight animations, in the order they were started.
pub struct AnimationController {
    anims: Vec<Animation>,
}

impl View for AnimationController {
    type V = Seq<Animation>;

    closed spec fn view(&self) -> Seq<Animation> {
        self.anims@
    }
}

impl AnimationController {
    /// Every queued animation is well formed.
    pub open spec fn wf(self) -> bool {
        forall|i: int| 0 <= i < self@.len() ==> (#[trigger] self@[i]).wf()
    }

    pub fn new() -> (r: AnimationController)
        ensures
            r.wf(),
            r@ == Seq::<Animation>::empty(),
    {
        AnimationController { anims: Vec::new() }
    }

    pub fn push(&mut self, a: Animation)
        requires
            old(self).wf(),
            a.wf(),
        ensures
            final(self).wf(),
            final(self)@ == old(self)@.push(a),
    {
        self.anims.push(a);
    }

    pub fn count(&self) -> (r: usize)
        ensures
            r == self@.len(),
    {
        self.anims.len()
    }

    /// Advances every animation to `now`: returns one drawable sample per
    /// animation (in order), and the source paths of those that finished;
    /// only the unfinished animations are retained.
    pub fn tick(&mut self, now: u64) -> (r: (Vec<AnimFrame>, Vec<String>))
        requires
            old(self).wf(),
        ensures
            final(self).wf(),
            r.0@.len() == old(self)@.len(),
            forall|i: int| 0 <= i < old(self)@.len() ==> frame_matches(r.0@[i], old(self)@[i], now),
            crate::paths::views(r.1@) == anim_paths(
                old(self)@.filter(|a: Animation| finished(a, now)),
            ),
            final(self)@ == old(self)@.filter(|a: Animation| !finished(a, now)),
    {
        let ghost orig = self.anims@;
        proof {
            assert forall|j: int| 0 <= j < orig.len() implies (#[trigger] orig[j]).wf() by {
                assert(old(self)@[j].wf());
            }
        }
        let mut frames: Vec<AnimFrame> = Vec::new();
        let mut done: Vec<String> = Vec::new();
        let mut kept: Vec<Animation> = Vec::new();
        let mut i: usize = 0;
        proof {
            reveal(Seq::filter);
            assert(orig.subrange(0, 0) =~= Seq::<Animation>::empty());
            assert(crate::paths::views(done@) =~= anim_paths(
                orig.subrange(0, 0).filter(|a: Animation| finished(a, now)),
            ));
        }
        while i < self.anims.len()
            invariant
                self.anims@ == orig,
                forall|j: int| 0 <= j < orig.len() ==> (#[trigger] orig[j]).wf(),
                i <= orig.len(),
                frames@.len() == i,
                forall|j: int| 0 <= j < i ==> frame_matches(frames@[j], orig[j], now),
                crate::paths::views(done@) == anim_paths(
                    orig.subrange(0, i as int).filter(|a: Animation| finished(a, now)),
                ),
                kept@ == orig.subrange(0, i as int).filter(|a: Animation| !finished(a, now)),
                forall|j: int| 0 <= j < kept@.len() ==> (#[trigger] kept@[j]).wf(),
            decreases orig.len() - i,
        {
            let a = &self.anims[i];
            proof {
                assert(orig[i as int].wf());
            }
            let t = progress_of(a, now);
            let f = sample(a, now);
            frames.push(f);
            proof {
                reveal(Seq::filter);
                assert(orig.subrange(0, i + 1).drop_last() =~= orig.subrange(0, i as int));
                assert(orig.subrange(0, i + 1).last() == orig[i as int]);
            }
            if t >= 1000 {
                let ghost done0 = done@;
                done.push(a.path.clone());
                proof {
                    reveal(Seq::filter);
                    assert(orig.subrange(0, i + 1).drop_last() =~= orig.subrange(0, i as int));
                    assert(finished(orig[i as int], now));
                    let f0 = orig.subrange(0, i as int).filter(|a: Animation| finished(a, now));
                    let f1 = orig.subrange(0, i + 1).filter(|a: Animation| finished(a, now));
                    assert(f1 == f0.push(orig[i as int]));
                    let lhs = crate::paths::views(done@);
                    let rhs = anim_paths(f1);
                    assert(lhs.len() == done@.len());
                    assert(rhs.len() == f1.len());
                    assert(crate::paths::views(done0).len() == done0.len());
                    assert(done0.len() == f0.len());
                    assert(done@.len() == done0.len() + 1);
                    assert forall|j: int| 0 <= j < lhs.len() implies lhs[j] == rhs[j] by {
                        assert(lhs[j] == done@[j]@);
                        assert(rhs[j] == f1[j].path@);
                        if j < f0.len() {
                            assert(done@[j] == done0[j]);
                            assert(f1[j] == f0[j]);
                            assert(crate::paths::views(done0)[j] == done0[j]@);
                            assert(anim_paths(f0)[j] == f0[j].path@);
                        } else {
                            assert(done@[j] == done@.last());
                            assert(f1[j] == orig[i as int]);
                        }
                    }
                    assert(lhs =~= rhs);
                }
            } else {
                let copy = Animation {
                    path: a.path.clone(),
                    start_x: a.start_x,
                    start_y: a.start_y,
                    end_x: a.end_x,
                    end_y: a.end_y,
                    start_scale: a.start_scale,
                    end_scale: a.end_scale,
                    start_time: a.start_time,
                    duration: a.duration,
                };
                proof {
                    assert(copy == orig[i as int]);
                }
                kept.push(copy);
            }
            i = i + 1;
        }
        proof {
            assert(orig.subrange(0, orig.len() as int) =~= orig);
        }
        self.anims = kept;
        proof {
            assert forall|j: int| 0 <= j < self@.len() implies (#[trigger] self@[j]).wf() by {
                assert(self@[j] == kept@[j]);
            }
        }
        (frames, done)
    }
}

/// The box a texture of `w` by `h` pixels is drawn in: two fifths of the
/// panel height, widened by the texture's aspect ratio.
pub open spec fn spec_display_size(w: int, h: int, panel_h: int) -> (int, int) {
    let dh = (panel_h * 2) / 5;
    ((dh * w) / h, dh)
}

/// Computes the drawn size of a texture, exactly as `spec_display_size`
/// says.
pub fn display_size(w: u32, h: u32, panel_h: u32) -> (r: (u64, u64))
    requires
        h > 0,
        panel_h <= 1000000,
    ensures
        (r.0 as int, r.1 as int) == spec_display_size(w as int, h as int, panel_h as int),
{
    let dh = (panel_h as u64) * 2 / 5;
    proof {
        assert(dh <= 400000);
        assert(dh * (w as u64) <= 400000 * 0xffffffffu64) by (nonlinear_arith)
            requires dh <= 400000 && w <= 0xffffffffu64;
    }
    let dw = dh * (w as u64) / (h as u64);
    (dw, dh)
}

} // verus!
