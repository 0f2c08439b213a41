//! The color-target particle filter and the simple whole-buffer pixel filters.
//!
//! Likelihoods and weights are fixed-point integers scaled by [`LIKE_ONE`]:
//! the value `LIKE_ONE` stands for a similarity of one (identical colors) and
//! `0` for the largest possible color distance.

use vstd::prelude::*;

verus! {

/// Fixed-point scale for likelihoods and weights: `LIKE_ONE` stands for 1.0.
pub const LIKE_ONE: u32 = 1_000_000;

/// Largest possible squared RGB distance: `3 * 255 * 255`.
pub const DIST_SQ_MAX: u32 = 195_075;

/// A color with three 8-bit channels.
#[derive(Copy, Clone, PartialEq, Eq, Structural, Debug)]
pub struct Rgb {
    pub red: u8,
    pub green: u8,
    pub blue: u8,
}

/// Squared Euclidean distance between two colors, channel by channel.
pub open spec fn dist_sq(a: Rgb, b: Rgb) -> int {
    (a.red - b.red) * (a.red - b.red)
    + (a.green - b.green) * (a.green - b.green)
    + (a.blue - b.blue) * (a.blue - b.blue)
}

/// Floor of the square root of `n`.
pub open spec fn isqrt_spec(n: nat) -> nat
    decreases n,
{
    if n == 0 {
        0
    } else {
        let p = isqrt_spec((n - 1) as nat);
        if (p + 1) * (p + 1) <= n {
            p + 1
        } else {
            p
        }
    }
}

/// The similarity score of two colors in fixed point: the complement of the
/// normalized Euclidean RGB distance, `LIKE_ONE` for identical colors and `0`
/// for colors at the largest possible distance.
pub open spec fn like_spec(a: Rgb, b: Rgb) -> int {
    LIKE_ONE - isqrt_spec((dist_sq(a, b) * LIKE_ONE * LIKE_ONE / DIST_SQ_MAX as int) as nat)
}

/// The floor square root of `n` lies between `r*r` and `(r+1)*(r+1)`.
pub proof fn lemma_isqrt_bounds(n: nat)
    ensures
        isqrt_spec(n) * isqrt_spec(n) <= n,
        n < (isqrt_spec(n) + 1) * (isqrt_spec(n) + 1),
    decreases n,
{
    if n > 0 {
        lemma_isqrt_bounds((n - 1) as nat);
        let p = isqrt_spec((n - 1) as nat);
        assert(p * p <= n - 1);
        assert(n - 1 < (p + 1) * (p + 1));
        if (p + 1) * (p + 1) <= n {
            assert(isqrt_spec(n) == p + 1);
            assert(n < (p + 2) * (p + 2)) by (nonlinear_arith)
                requires
                    n <= (p + 1) * (p + 1),
                    p >= 0,
            {}
            assert(isqrt_spec(n) * isqrt_spec(n) <= n);
            assert((isqrt_spec(n) + 1) * (isqrt_spec(n) + 1) == (p + 2) * (p + 2));
            assert(n < (isqrt_spec(n) + 1) * (isqrt_spec(n) + 1));
        } else {
            assert(isqrt_spec(n) == p);
            assert(isqrt_spec(n) * isqrt_spec(n) <= n);
            assert(n < (isqrt_spec(n) + 1) * (isqrt_spec(n) + 1));
        }
    } else {
        assert(isqrt_spec(n) == 0);
        assert(n < (isqrt_spec(n) + 1) * (isqrt_spec(n) + 1)) by (nonlinear_arith)
            requires
                n == 0,
                isqrt_spec(n) == 0,
        {}
    }
}

/// Floor square root by binary search.
fn isqrt(n: u64) -> (r: u64)
    ensures
        r == isqrt_spec(n as nat),
{
    proof {
        lemma_isqrt_bounds(n as nat);
    }
    let mut lo: u64 = 0;
    let mut hi: u64 = 0x1_0000_0000u64;
    while lo + 1 < hi
        invariant
            lo < hi <= 0x1_0000_0000u64,
            lo * lo <= n,
            n < hi * hi,
        decreases hi - lo,
    {
        let mid: u64 = lo + (hi - lo) / 2;
        proof {
            assert(mid * mid < 0x1_0000_0000_0000_0000) by (nonlinear_arith)
                requires
                    mid < 0x1_0000_0000,
            {}
        }
        let sq: u64 = mid * mid;
        if sq <= n {
            lo = mid;
        } else {
            hi = mid;
        }
    }
    proof {
        let s = isqrt_spec(n as nat);
        if lo < s {
            assert(s * s > n) by {
                assert((lo + 1) * (lo + 1) <= s * s) by (nonlinear_arith)
                    requires lo + 1 <= s,
                {}
            }
        }
        if lo > s {
            assert(lo * lo > n) by {
                assert((s + 1) * (s + 1) <= lo * lo) by (nonlinear_arith)
                    requires s + 1 <= lo,
                {}
            }
        }
    }
    lo
}

impl Rgb {
    pub fn new(r: u8, g: u8, b: u8) -> (c: Rgb)
        ensures
            c == (Rgb { red: r, green: g, blue: b }),
    {
        Rgb { red: r, green: g, blue: b }
    }

    /// Fixed-point similarity of `self` to `target`: `LIKE_ONE` means equal
    /// colors, `0` the largest possible distance.
    pub fn calc_like(&self, target: Rgb) -> (r: u32)
        ensures
            r == like_spec(*self, target),
            r <= LIKE_ONE,
    {
        let dr: i32 = self.red as i32 - target.red as i32;
        let dg: i32 = self.green as i32 - target.green as i32;
        let db: i32 = self.blue as i32 - target.blue as i32;
        proof {
            assert(0 <= dr * dr <= 65025) by (nonlinear_arith)
                requires
                    -255 <= dr <= 255,
            {}
            assert(0 <= dg * dg <= 65025) by (nonlinear_arith)
                requires
                    -255 <= dg <= 255,
            {}
            assert(0 <= db * db <= 65025) by (nonlinear_arith)
                requires
                    -255 <= db <= 255,
            {}
        }
        let d: u64 = (dr * dr) as u64 + (dg * dg) as u64 + (db * db) as u64;
        assert(d == dist_sq(*self, target));
        assert(d <= 195075);
        let m: u64 = d * 1_000_000;
        let mm: u64 = m * 1_000_000;
        let q: u64 = mm / 195_075;
        proof {
            vstd::arithmetic::div_mod::lemma_div_is_ordered(
                mm as int,
                195_075_000_000_000_000,
                195_075,
            );
            assert(195_075_000_000_000_000int / 195_075 == 1_000_000_000_000);
        }
        assert(q <= 1_000_000_000_000u64);
        let s: u64 = isqrt(q);
        proof {
            lemma_isqrt_bounds(q as nat);
            assert(isqrt_spec(q as nat) * isqrt_spec(q as nat) <= 1_000_000_000_000);
            assert(isqrt_spec(q as nat) <= 1_000_000) by {
                if isqrt_spec(q as nat) > 1_000_000 {
                    assert(isqrt_spec(q as nat) * isqrt_spec(q as nat) > 1_000_000_000_000)
                        by (nonlinear_arith)
                        requires
                            isqrt_spec(q as nat) > 1_000_000,
                    {}
                }
            }
        }
        LIKE_ONE - s as u32
    }
}

/// The similarity score always lies between 0 and `LIKE_ONE`.
pub proof fn lemma_score_bounds(a: Rgb, b: Rgb)
    ensures
        0 <= like_spec(a, b) <= LIKE_ONE,
{
    let d = dist_sq(a, b);
    assert(0 <= d <= DIST_SQ_MAX) by (nonlinear_arith)
        requires
            d == dist_sq(a, b),
            0 <= a.red <= 255 && 0 <= b.red <= 255,
            0 <= a.green <= 255 && 0 <= b.green <= 255,
            0 <= a.blue <= 255 && 0 <= b.blue <= 255,
    {}
    let q = (d * LIKE_ONE * LIKE_ONE / DIST_SQ_MAX as int) as nat;
    assert(d * LIKE_ONE * LIKE_ONE <= DIST_SQ_MAX * LIKE_ONE * LIKE_ONE) by (nonlinear_arith)
        requires 0 <= d <= DIST_SQ_MAX,
    {}
    lemma_isqrt_bounds(q);
    assert(isqrt_spec(q) <= LIKE_ONE) by {
        if isqrt_spec(q) > LIKE_ONE {
            assert(isqrt_spec(q) * isqrt_spec(q) > LIKE_ONE as nat * LIKE_ONE as nat)
                by (nonlinear_arith)
                requires isqrt_spec(q) > LIKE_ONE as nat,
            {}
        }
    }
}

/// A color's similarity to itself is exactly one.
pub proof fn lemma_score_self(a: Rgb)
    ensures
        like_spec(a, a) == LIKE_ONE,
{
}

/// A single weighted position/velocity hypothesis of the tracker.
///
/// `like` and `wgt` are fixed-point values scaled by [`LIKE_ONE`]; `keep` is a
/// transient flag that only the selection pass gives a meaning to.
#[derive(Copy, Clone, Debug)]
pub struct Particle {
    pub pos: (i32, i32),
    pub vel: (i32, i32),
    pub like: u32,
    pub wgt: u32,
    pub keep: bool,
}

impl Particle {
    pub fn new(p: (i32, i32), v: (i32, i32), l: u32, w: u32, k: bool) -> (r: Particle)
        ensures
            r == (Particle { pos: p, vel: v, like: l, wgt: w, keep: k }),
    {
        Particle { pos: p, vel: v, like: l, wgt: w, keep: k }
    }
}

/// The tracker's state: frame size, soft particle-count target, running
/// centroid estimate, the tracked color, and the particle population.
pub struct ParamsForParticle {
    pub camera: (i32, i32),
    pub num: u32,
    pub center: (i32, i32),
    pub target_rgb: Rgb,
    pub pars: Vec<Particle>,
}

/// Relies on rand::random_range over the nonempty range `0..n`: the
/// thread-local generator returns a value of that range.
#[verifier::external_body]
fn rand_below(n: u32) -> (r: u32)
    requires
        n > 0,
    ensures
        r < n,
{
    rand::random_range(0..n)
}

/// A particle of the freshly seeded cloud: at rest somewhere in the frame,
/// with full likelihood and zero weight.
pub open spec fn seed_particle(p: Particle, camera: (i32, i32)) -> bool {
    &&& 0 <= p.pos.0 < camera.0
    &&& 0 <= p.pos.1 < camera.1
    &&& p.vel == (0i32, 0i32)
    &&& p.like == LIKE_ONE
    &&& p.wgt == 0
    &&& p.keep == false
}

impl ParamsForParticle {
    /// The frame dimensions the tracker was configured with are positive and
    /// small enough that every pixel index of the frame fits in `usize`.
    pub open spec fn wf(self) -> bool {
        &&& 0 < self.camera.0 <= 10_000
        &&& 0 < self.camera.1 <= 10_000
    }

    /// A fresh tracker over a `c`-sized frame aiming at `n` particles: seeds a
    /// uniformly random cloud of fewer than `n` resting particles.
    pub fn new(c: (i32, i32), n: u32, t: Rgb) -> (r: ParamsForParticle)
        requires
            0 < c.0 <= 10_000,
            0 < c.1 <= 10_000,
            n > 0,
        ensures
            r.camera == c,
            r.num == n,
            r.center.0 == c.0 / 2,
            r.center.1 == c.1 / 2,
            r.target_rgb == t,
            r.pars@.len() < n,
            forall|i: int| 0 <= i < r.pars@.len() ==> seed_particle(#[trigger] r.pars@[i], c),
            r.wf(),
    {
        let count: u32 = rand_below(n);
        let mut pars_tmp: Vec<Particle> = Vec::new();
        let mut made: u32 = 0;
        while made < count
            invariant
                made <= count < n,
                0 < c.0 <= 10_000,
                0 < c.1 <= 10_000,
                pars_tmp@.len() == made,
                forall|i: int| 0 <= i < pars_tmp@.len() ==> seed_particle(#[trigger] pars_tmp@[i], c),
            decreases count - made,
        {
            let x: i32 = rand_below(c.0 as u32) as i32;
            let y: i32 = rand_below(c.1 as u32) as i32;
            let p = Particle::new((x, y), (0i32, 0i32), LIKE_ONE, 0, false);
            pars_tmp.push(p);
            made = made + 1;
        }
        ParamsForParticle {
            camera: c,
            num: n,
            center: (c.0 / 2, c.1 / 2),
            target_rgb: t,
            pars: pars_tmp,
        }
    }
}

/// The sampler and the annotator reject a buffer shorter than three bytes per
/// frame pixel rather than read or write past its end.
#[derive(Copy, Clone, PartialEq, Eq, Structural, Debug)]
pub enum FrameError {
    BufferTooShort,
}

/// The color of the frame pixel at `(x, y)`: three bytes of the row-major,
/// three-bytes-per-pixel interleaved buffer.
pub open spec fn pixel_at(buf: Seq<u8>, width: int, x: int, y: int) -> Rgb {
    Rgb {
        red: buf[3 * (y * width + x)],
        green: buf[3 * (y * width + x) + 1],
        blue: buf[3 * (y * width + x) + 2],
    }
}

/// `g` is the faithful `width` x `height` grid view of the raw buffer.
pub open spec fn grid_matches(g: Seq<Seq<Rgb>>, buf: Seq<u8>, width: int, height: int) -> bool {
    &&& g.len() == height
    &&& forall|y: int| 0 <= y < height ==> (#[trigger] g[y]).len() == width
    &&& forall|y: int, x: int|
        0 <= y < height && 0 <= x < width ==> #[trigger] g[y][x] == pixel_at(buf, width, x, y)
}

/// Converts a raw interleaved pixel buffer into a row-major grid of colors of
/// exactly `width` columns by `height` rows, or rejects a buffer that is too
/// short for that shape.
pub fn sample_frame(buf: &Vec<u8>, width: usize, height: usize) -> (r: Result<
    Vec<Vec<Rgb>>,
    FrameError,
>)
    requires
        width <= 10_000,
        height <= 10_000,
    ensures
        match r {
            Ok(g) => buf@.len() >= 3 * width * height && grid_matches(
                g@.map_values(|row: Vec<Rgb>| row@),
                buf@,
                width as int,
                height as int,
            ),
            Err(e) => e == FrameError::BufferTooShort && buf@.len() < 3 * width * height,
        },
{
    proof {
        assert(3 * width * height <= 300_000_000) by (nonlinear_arith)
            requires
                width <= 10_000,
                height <= 10_000,
        {}
    }
    let need: usize = 3 * width * height;
    if buf.len() < need {
        return Err(FrameError::BufferTooShort);
    }
    let mut grid: Vec<Vec<Rgb>> = Vec::new();
    let mut y: usize = 0;
    while y < height
        invariant
            width <= 10_000,
            height <= 10_000,
            buf@.len() >= 3 * width * height,
            y <= height,
            grid@.len() == y,
            forall|r: int| 0 <= r < y ==> (#[trigger] grid@[r])@.len() == width,
            forall|r: int, x: int|
                0 <= r < y && 0 <= x < width ==> #[trigger] grid@[r]@[x] == pixel_at(
                    buf@,
                    width as int,
                    x,
                    r,
                ),
        decreases height - y,
    {
        let mut row: Vec<Rgb> = Vec::new();
        let mut x: usize = 0;
        while x < width
            invariant
                width <= 10_000,
                height <= 10_000,
                buf@.len() >= 3 * width * height,
                y < height,
                x <= width,
                row@.len() == x,
                forall|i: int| 0 <= i < x ==> #[trigger] row@[i] == pixel_at(
                    buf@,
                    width as int,
                    i,
                    y as int,
                ),
            decreases width - x,
        {
            proof {
                assert(y * width + x < height * width && y * width + x < 100_000_000)
                    by (nonlinear_arith)
                    requires
                        y < height <= 10_000,
                        x < width <= 10_000,
                {}
                assert(3 * (y * width + x) + 2 < 3 * width * height) by (nonlinear_arith)
                    requires
                        y * width + x < height * width,
                {}
            }
            let base: usize = 3 * (y * width + x);
            row.push(Rgb { red: buf[base], green: buf[base + 1], blue: buf[base + 2] });
            x = x + 1;
        }
        grid.push(row);
        y = y + 1;
    }
    Ok(grid)
}

// ---------------------------------------------------------------------------
// Prediction and observation
// ---------------------------------------------------------------------------

/// Clamp an unbounded integer into the `i32` range.
pub open spec fn sat32(x: int) -> int {
    if x < i32::MIN {
        i32::MIN as int
    } else if x > i32::MAX {
        i32::MAX as int
    } else {
        x
    }
}

/// Strictly inside the open frame rectangle `(0, w) x (0, h)`.
pub open spec fn in_frame(x: int, y: int, camera: (i32, i32)) -> bool {
    0 < x < camera.0 && 0 < y < camera.1
}

/// A particle after one prediction-and-observation pass: the velocity is added
/// to the position (saturating at the `i32` range), and the likelihood becomes
/// the similarity of the color under the new position to the target color, or
/// zero for a position out of frame bounds.
pub open spec fn observed(p: Particle, grid: Seq<Seq<Rgb>>, camera: (i32, i32), target: Rgb) -> Particle {
    let x = sat32(p.pos.0 + p.vel.0);
    let y = sat32(p.pos.1 + p.vel.1);
    Particle {
        pos: (x as i32, y as i32),
        vel: p.vel,
        like: if in_frame(x, y, camera) {
            like_spec(grid[y][x], target) as u32
        } else {
            0u32
        },
        wgt: p.wgt,
        keep: p.keep,
    }
}

/// A whole population after one prediction-and-observation pass.
pub open spec fn observe_all(
    s: Seq<Particle>,
    grid: Seq<Seq<Rgb>>,
    camera: (i32, i32),
    target: Rgb,
) -> Seq<Particle> {
    s.map_values(|p: Particle| observed(p, grid, camera, target))
}

/// A particle whose predicted position leaves the frame scores zero, whatever
/// the grid holds.
pub proof fn lemma_out_of_frame_scores_zero(
    p: Particle,
    grid: Seq<Seq<Rgb>>,
    camera: (i32, i32),
    target: Rgb,
)
    requires
        !in_frame(sat32(p.pos.0 + p.vel.0), sat32(p.pos.1 + p.vel.1), camera),
    ensures
        observed(p, grid, camera, target).like == 0,
{
}

/// `i32` addition clamped at the ends of the `i32` range.
fn sat_add_i32(a: i32, b: i32) -> (r: i32)
    ensures
        r == sat32(a + b),
{
    let s: i64 = a as i64 + b as i64;
    if s < i32::MIN as i64 {
        i32::MIN
    } else if s > i32::MAX as i64 {
        i32::MAX
    } else {
        s as i32
    }
}

/// Advances every particle by its velocity and scores it against the target
/// color: the similarity of the frame color under the new position, or zero if
/// the new position is out of frame bounds.
pub fn predict_and_score(params: &mut ParamsForParticle, grid: &Vec<Vec<Rgb>>)
    requires
        old(params).wf(),
        grid@.len() == old(params).camera.1,
        forall|y: int| 0 <= y < grid@.len() ==> (#[trigger] grid@[y])@.len() == old(params).camera.0,
    ensures
        final(params).pars@ == observe_all(
            old(params).pars@,
            grid@.map_values(|row: Vec<Rgb>| row@),
            old(params).camera,
            old(params).target_rgb,
        ),
        final(params).camera == old(params).camera,
        final(params).num == old(params).num,
        final(params).center == old(params).center,
        final(params).target_rgb == old(params).target_rgb,
        final(params).wf(),
{
    let ghost gview = grid@.map_values(|row: Vec<Rgb>| row@);
    let ghost orig = params.pars@;
    let target = params.target_rgb;
    let camera = params.camera;
    let n = params.pars.len();
    let mut i: usize = 0;
    while i < n
        invariant
            params.wf(),
            params.camera == camera,
            params.target_rgb == target,
            params.num == old(params).num,
            params.center == old(params).center,
            camera == old(params).camera,
            target == old(params).target_rgb,
            n == params.pars@.len(),
            orig.len() == n,
            i <= n,
            gview == grid@.map_values(|row: Vec<Rgb>| row@),
            grid@.len() == camera.1,
            forall|y: int| 0 <= y < grid@.len() ==> (#[trigger] grid@[y])@.len() == camera.0,
            forall|j: int| 0 <= j < i ==> params.pars@[j] == observed(
                #[trigger] orig[j],
                gview,
                camera,
                target,
            ),
            forall|j: int| i <= j < n ==> #[trigger] params.pars@[j] == orig[j],
        decreases n - i,
    {
        let p = params.pars[i];
        let nx = sat_add_i32(p.pos.0, p.vel.0);
        let ny = sat_add_i32(p.pos.1, p.vel.1);
        let like: u32 = if 0 < nx && nx < camera.0 && 0 < ny && ny < camera.1 {
            let rgb = grid[ny as usize][nx as usize];
            proof {
                assert(gview[ny as int] == grid@[ny as int]@);
            }
            rgb.calc_like(target)
        } else {
            0
        };
        params.pars[i] = Particle { pos: (nx, ny), vel: p.vel, like, wgt: p.wgt, keep: p.keep };
        proof {
            assert(params.pars@[i as int] == observed(orig[i as int], gview, camera, target));
        }
        i = i + 1;
    }
    proof {
        assert(params.pars@ =~= observe_all(orig, gview, camera, target));
    }
}

// ---------------------------------------------------------------------------
// Sorting by likelihood
// ---------------------------------------------------------------------------

/// Ascending by likelihood.
pub open spec fn sorted_by_like(s: Seq<Particle>) -> bool {
    forall|i: int, j: int| 0 <= i < j < s.len() ==> s[i].like <= s[j].like
}

/// Merges two runs sorted by likelihood into one.
fn merge_by_like(a: Vec<Particle>, b: Vec<Particle>) -> (r: Vec<Particle>)
    requires
        sorted_by_like(a@),
        sorted_by_like(b@),
    ensures
        sorted_by_like(r@),
        r@.to_multiset() == a@.to_multiset().add(b@.to_multiset()),
        r@.len() == a@.len() + b@.len(),
{
    broadcast use vstd::seq_lib::group_to_multiset_ensures;

    let mut out: Vec<Particle> = Vec::new();
    let mut i: usize = 0;
    let mut j: usize = 0;
    while i < a.len() || j < b.len()
        invariant
            sorted_by_like(a@),
            sorted_by_like(b@),
            i <= a@.len(),
            j <= b@.len(),
            out@.len() == i + j,
            sorted_by_like(out@),
            out@.to_multiset() == a@.take(i as int).to_multiset().add(
                b@.take(j as int).to_multiset(),
            ),
            out@.len() > 0 && i < a@.len() ==> out@.last().like <= a@[i as int].like,
            out@.len() > 0 && j < b@.len() ==> out@.last().like <= b@[j as int].like,
        decreases a@.len() + b@.len() - i - j,
    {
        let take_a: bool = if i < a.len() {
            if j < b.len() {
                a[i].like <= b[j].like
            } else {
                true
            }
        } else {
            false
        };
        if take_a {
            let x = a[i];
            proof {
                assert forall|k: int| 0 <= k < out@.len() implies (#[trigger] out@[k]).like
                    <= x.like by {
                    assert(out@.last().like <= x.like);
                    if k < out@.len() - 1 {
                        assert(out@[k].like <= out@[out@.len() - 1].like);
                    }
                }
                assert(a@.take(i as int + 1) =~= a@.take(i as int).push(a@[i as int]));
            }
            let ghost prev = out@;
            out.push(x);
            proof {
                vstd::seq_lib::to_multiset_build(prev, x);
                vstd::seq_lib::to_multiset_build(a@.take(i as int), a@[i as int]);
                assert(out@.to_multiset() =~= a@.take(i as int + 1).to_multiset().add(
                    b@.take(j as int).to_multiset(),
                ));
            }
            i = i + 1;
        } else {
            let x = b[j];
            proof {
                assert forall|k: int| 0 <= k < out@.len() implies (#[trigger] out@[k]).like
                    <= x.like by {
                    assert(out@.last().like <= x.like);
                    if k < out@.len() - 1 {
                        assert(out@[k].like <= out@[out@.len() - 1].like);
                    }
                }
                assert(b@.take(j as int + 1) =~= b@.take(j as int).push(b@[j as int]));
            }
            let ghost prev = out@;
            out.push(x);
            proof {
                vstd::seq_lib::to_multiset_build(prev, x);
                vstd::seq_lib::to_multiset_build(b@.take(j as int), b@[j as int]);
                assert(out@.to_multiset() =~= a@.take(i as int).to_multiset().add(
                    b@.take(j as int + 1).to_multiset(),
                ));
            }
            j = j + 1;
        }
    }
    proof {
        assert(a@.take(a@.len() as int) =~= a@);
        assert(b@.take(b@.len() as int) =~= b@);
    }
    out
}

/// Sorts a population ascending by likelihood; the result is a permutation of
/// the input.
fn merge_sort_by_like(v: Vec<Particle>) -> (r: Vec<Particle>)
    ensures
        sorted_by_like(r@),
        r@.to_multiset() == v@.to_multiset(),
        r@.len() == v@.len(),
    decreases v@.len(),
{
    broadcast use vstd::seq_lib::group_to_multiset_ensures;

    if v.len() <= 1 {
        return v;
    }
    let mut left = v;
    let ghost whole = left@;
    let half = left.len() / 2;
    let right = left.split_off(half);
    proof {
        assert(whole =~= left@ + right@);
        vstd::seq_lib::lemma_multiset_commutative(left@, right@);
    }
    let ls = merge_sort_by_like(left);
    let rs = merge_sort_by_like(right);
    merge_by_like(ls, rs)
}

/// Sorts the population ascending by likelihood, in place.
pub fn sort_by_like(pars: &mut Vec<Particle>)
    ensures
        sorted_by_like(final(pars)@),
        final(pars)@.to_multiset() == old(pars)@.to_multiset(),
        final(pars)@.len() == old(pars)@.len(),
{
    let mut tmp: Vec<Particle> = Vec::new();
    core::mem::swap(pars, &mut tmp);
    let mut sorted = merge_sort_by_like(tmp);
    core::mem::swap(pars, &mut sorted);
}

// ---------------------------------------------------------------------------
// Selection
// ---------------------------------------------------------------------------

/// Absolute likelihood bar of the selection rule: 0.9 in fixed point.
pub const KEEP_THRESH: u32 = 900_000;

/// The same particle with its keep flag set to `k`.
pub open spec fn with_keep(p: Particle, k: bool) -> Particle {
    Particle { pos: p.pos, vel: p.vel, like: p.like, wgt: p.wgt, keep: k }
}

/// The flag the selection pass gives the particle at index `i` of a population
/// sorted ascending by likelihood: it survives by clearing the absolute bar or
/// by ranking above `n - n / 100`.
pub open spec fn keep_rule(s: Seq<Particle>, i: int) -> bool {
    s[i].like > KEEP_THRESH || i > s.len() - s.len() / 100
}

/// The whole population with its keep flags set by the selection rule.
pub open spec fn keep_flagged(s: Seq<Particle>) -> Seq<Particle> {
    Seq::new(s.len(), |i: int| with_keep(s[i], keep_rule(s, i)))
}

/// The particles of `s` whose keep flag is set, in order.
pub open spec fn kept_of(s: Seq<Particle>) -> Seq<Particle>
    decreases s.len(),
{
    if s.len() == 0 {
        Seq::empty()
    } else if s.last().keep {
        kept_of(s.drop_last()).push(s.last())
    } else {
        kept_of(s.drop_last())
    }
}

/// What selection leaves of a population sorted ascending by likelihood.
pub open spec fn survivors_of(s: Seq<Particle>) -> Seq<Particle> {
    kept_of(keep_flagged(s))
}

/// A particle whose keep flag is set is among the kept ones.
proof fn lemma_kept_contains(s: Seq<Particle>, j: int)
    requires
        0 <= j < s.len(),
        s[j].keep,
    ensures
        kept_of(s).contains(s[j]),
    decreases s.len(),
{
    if j == s.len() - 1 {
        assert(kept_of(s).last() == s[j]);
    } else {
        lemma_kept_contains(s.drop_last(), j);
        let ks = kept_of(s.drop_last());
        let w = choose|k: int| 0 <= k < ks.len() && ks[k] == s.drop_last()[j];
        assert(kept_of(s)[w] == s[j]);
    }
}

/// Every particle of the kept ones carries a set keep flag and comes from `s`.
proof fn lemma_kept_from(s: Seq<Particle>, j: int)
    requires
        0 <= j < kept_of(s).len(),
    ensures
        exists|k: int| 0 <= k < s.len() && s[k] == kept_of(s)[j],
    decreases s.len(),
{
    if s.len() > 0 {
        let ks = kept_of(s.drop_last());
        if s.last().keep && j == kept_of(s).len() - 1 {
            assert(s[s.len() - 1] == kept_of(s)[j]);
        } else {
            lemma_kept_from(s.drop_last(), j);
            let k = choose|k: int| 0 <= k < s.drop_last().len() && s.drop_last()[k] == ks[j];
            assert(s[k] == kept_of(s)[j]);
        }
    }
}

/// Selection always keeps the particles at the top of the likelihood ranking:
/// on a population sorted ascending by likelihood, every particle ranked
/// strictly above `n - n / 100` is present in the survivor set, whatever the
/// absolute bar says.
pub proof fn lemma_selection_keeps_top(s: Seq<Particle>, i: int)
    requires
        s.len() - s.len() / 100 < i < s.len(),
    ensures
        survivors_of(s).contains(with_keep(s[i], true)),
{
    let f = keep_flagged(s);
    assert(f[i] == with_keep(s[i], true));
    lemma_kept_contains(f, i);
}

/// Drops every particle that the selection rule does not keep: what remains
/// are, in order, the particles clearing the absolute likelihood bar of
/// `KEEP_THRESH` and the particles ranked above `n - n / 100`, their keep
/// flags set.
pub fn select_survivors(pars: &mut Vec<Particle>)
    ensures
        final(pars)@ == survivors_of(old(pars)@),
{
    let ghost s = pars@;
    let ghost f = keep_flagged(s);
    let n = pars.len();
    let thresh_keep = n / 100;
    let mut out: Vec<Particle> = Vec::new();
    let mut i: usize = 0;
    while i < n
        invariant
            s == pars@,
            f == keep_flagged(s),
            n == s.len(),
            thresh_keep == n / 100,
            i <= n,
            out@ == kept_of(f.take(i as int)),
        decreases n - i,
    {
        let p = pars[i];
        let keep = p.like > KEEP_THRESH || i > n - thresh_keep;
        proof {
            assert(f.take(i as int + 1).drop_last() =~= f.take(i as int));
            assert(f.take(i as int + 1).last() == f[i as int]);
        }
        if keep {
            out.push(Particle { pos: p.pos, vel: p.vel, like: p.like, wgt: p.wgt, keep: true });
            proof {
                assert(out@.last() == f[i as int]);
                assert(out@ =~= kept_of(f.take(i as int + 1)));
            }
        } else {
            proof {
                assert(out@ =~= kept_of(f.take(i as int + 1)));
            }
        }
        i = i + 1;
    }
    proof {
        assert(f.take(n as int) =~= f);
    }
    core::mem::swap(pars, &mut out);
}

// ---------------------------------------------------------------------------
// Weight normalization
// ---------------------------------------------------------------------------

/// Sum of the likelihoods of a population.
pub open spec fn like_sum_of(s: Seq<Particle>) -> int
    decreases s.len(),
{
    if s.len() == 0 {
        0
    } else {
        like_sum_of(s.drop_last()) + s.last().like
    }
}

/// The same particle with its weight normalized against the likelihood sum
/// `ls`: the fixed-point quotient of its likelihood by `ls`, or zero for the
/// degenerate sum.
pub open spec fn with_weight(p: Particle, ls: int) -> Particle {
    Particle {
        pos: p.pos,
        vel: p.vel,
        like: p.like,
        wgt: if ls > 0 {
            (p.like * LIKE_ONE / ls) as u32
        } else {
            0u32
        },
        keep: p.keep,
    }
}

/// A whole population with normalized weights.
pub open spec fn weighted(s: Seq<Particle>, ls: int) -> Seq<Particle> {
    s.map_values(|p: Particle| with_weight(p, ls))
}

/// Sum of the weights of a population.
pub open spec fn wgt_sum_of(s: Seq<Particle>) -> int
    decreases s.len(),
{
    if s.len() == 0 {
        0
    } else {
        wgt_sum_of(s.drop_last()) + s.last().wgt
    }
}

/// Every likelihood is at most the likelihood sum.
proof fn lemma_like_le_sum(s: Seq<Particle>, i: int)
    requires
        0 <= i < s.len(),
    ensures
        s[i].like <= like_sum_of(s),
        like_sum_of(s) >= 0,
    decreases s.len(),
{
    lemma_like_sum_nonneg(s.drop_last());
    if i < s.len() - 1 {
        lemma_like_le_sum(s.drop_last(), i);
    }
}

/// A likelihood sum is never negative.
proof fn lemma_like_sum_nonneg(s: Seq<Particle>)
    ensures
        like_sum_of(s) >= 0,
    decreases s.len(),
{
    if s.len() > 0 {
        lemma_like_sum_nonneg(s.drop_last());
    }
}

/// Normalizing weights does not change the likelihoods, so not their sum.
proof fn lemma_like_sum_weighted(s: Seq<Particle>, ls: int)
    ensures
        like_sum_of(weighted(s, ls)) == like_sum_of(s),
    decreases s.len(),
{
    if s.len() > 0 {
        lemma_like_sum_weighted(s.drop_last(), ls);
        assert(weighted(s, ls).drop_last() =~= weighted(s.drop_last(), ls));
        assert(weighted(s, ls).last() == with_weight(s.last(), ls));
    } else {
        assert(weighted(s, ls) =~= Seq::<Particle>::empty());
    }
}

/// The scaled bounds of a normalized weight sum: each weight is the floor of
/// `like * LIKE_ONE / ls`, so `ls` times the weight sum tracks the likelihood
/// sum times `LIKE_ONE` to within `ls` per particle.
proof fn lemma_weight_sum_bounds(s: Seq<Particle>, ls: int)
    requires
        ls > 0,
        forall|i: int| 0 <= i < s.len() ==> (#[trigger] s[i]).like <= ls,
    ensures
        ls * wgt_sum_of(weighted(s, ls)) <= like_sum_of(s) * LIKE_ONE,
        s.len() > 0 ==> ls * wgt_sum_of(weighted(s, ls)) > like_sum_of(s) * LIKE_ONE - s.len()
            * ls,
    decreases s.len(),
{
    let w = weighted(s, ls);
    if s.len() == 0 {
        assert(w =~= Seq::<Particle>::empty());
    } else {
        let p = s.last();
        let rest = s.drop_last();
        assert(forall|i: int| 0 <= i < rest.len() ==> (#[trigger] rest[i]).like <= ls);
        lemma_weight_sum_bounds(rest, ls);
        assert(w.drop_last() =~= weighted(rest, ls));
        assert(w.last() == with_weight(p, ls));
        let lw = p.like * LIKE_ONE;
        vstd::arithmetic::div_mod::lemma_fundamental_div_mod(lw, ls);
        vstd::arithmetic::mul::lemma_mul_inequality(p.like as int, ls, LIKE_ONE as int);
        assert(0 <= lw <= ls * LIKE_ONE) by (nonlinear_arith)
            requires
                0 <= p.like <= ls,
                lw == p.like * LIKE_ONE,
        {}
        assert(0 <= lw / ls <= LIKE_ONE) by {
            vstd::arithmetic::div_mod::lemma_div_is_ordered(lw, ls * LIKE_ONE, ls);
            vstd::arithmetic::div_mod::lemma_div_multiples_vanish(LIKE_ONE as int, ls);
            vstd::arithmetic::div_mod::lemma_div_pos_is_pos(lw, ls);
        }
        assert(w.last().wgt == lw / ls);
        assert(0 <= lw % ls < ls) by {
            vstd::arithmetic::div_mod::lemma_remainder_upper(lw, ls);
            vstd::arithmetic::div_mod::lemma_remainder_lower(lw, ls);
        }
        assert(ls * wgt_sum_of(w) == ls * wgt_sum_of(w.drop_last()) + ls * (lw / ls))
            by (nonlinear_arith)
            requires
                wgt_sum_of(w) == wgt_sum_of(w.drop_last()) + w.last().wgt,
                w.last().wgt == lw / ls,
        {}
        assert(like_sum_of(s) * LIKE_ONE == like_sum_of(rest) * LIKE_ONE + lw)
            by (nonlinear_arith)
            requires
                like_sum_of(s) == like_sum_of(rest) + p.like,
                lw == p.like * LIKE_ONE,
        {}
        assert(s.len() * ls == rest.len() * ls + ls) by (nonlinear_arith)
            requires
                s.len() == rest.len() + 1,
        {}
        assert(ls * (lw / ls) <= lw);
        assert(ls * (lw / ls) > lw - ls);
        assert(ls * wgt_sum_of(w.drop_last()) >= like_sum_of(rest) * LIKE_ONE - rest.len() * ls)
            by {
            if rest.len() == 0 {
                assert(weighted(rest, ls) =~= Seq::<Particle>::empty());
            }
        }
        assert(ls * wgt_sum_of(w) <= like_sum_of(s) * LIKE_ONE);
        assert(ls * wgt_sum_of(w) > like_sum_of(s) * LIKE_ONE - s.len() * ls);
    }
}

/// For a nonempty survivor set with a positive likelihood sum the normalized
/// weights sum to one, up to the fixed-point remainder each floor division
/// leaves behind: the sum lies in `(LIKE_ONE - n, LIKE_ONE]`.
pub proof fn lemma_weights_sum_to_one(s: Seq<Particle>)
    requires
        like_sum_of(s) > 0,
    ensures
        LIKE_ONE - s.len() < wgt_sum_of(weighted(s, like_sum_of(s))),
        wgt_sum_of(weighted(s, like_sum_of(s))) <= LIKE_ONE,
{
    let ls = like_sum_of(s);
    assert(s.len() > 0);
    assert(forall|i: int| 0 <= i < s.len() ==> (#[trigger] s[i]).like <= ls) by {
        assert forall|i: int| 0 <= i < s.len() implies (#[trigger] s[i]).like <= ls by {
            lemma_like_le_sum(s, i);
        }
    }
    lemma_weight_sum_bounds(s, ls);
    let sw = wgt_sum_of(weighted(s, ls));
    assert(sw <= LIKE_ONE) by (nonlinear_arith)
        requires
            ls * sw <= ls * LIKE_ONE,
            ls > 0,
    {}
    assert(LIKE_ONE - s.len() < sw) by (nonlinear_arith)
        requires
            ls * sw > ls * LIKE_ONE - s.len() * ls,
            ls > 0,
    {}
}

/// Computes the likelihood sum over the population and sets every weight to
/// the fixed-point share of its likelihood in that sum; a degenerate zero sum
/// leaves every weight zero.
pub fn normalize_weights(pars: &mut Vec<Particle>) -> (ls: u128)
    ensures
        ls == like_sum_of(old(pars)@),
        final(pars)@ == weighted(old(pars)@, ls as int),
{
    let ghost s = pars@;
    let n = pars.len();
    let mut like_sum: u128 = 0;
    let mut i: usize = 0;
    while i < n
        invariant
            s == pars@,
            n == s.len(),
            i <= n,
            like_sum == like_sum_of(s.take(i as int)),
            like_sum <= i * 0x1_0000_0000,
        decreases n - i,
    {
        proof {
            assert(s.take(i as int + 1).drop_last() =~= s.take(i as int));
            assert(s.take(i as int + 1).last() == s[i as int]);
            assert((i + 1) * 0x1_0000_0000 == i * 0x1_0000_0000 + 0x1_0000_0000)
                by (nonlinear_arith)
            {}
            assert(i * 0x1_0000_0000 <= 0xffff_ffff_ffff_ffffu128 * 0x1_0000_0000)
                by (nonlinear_arith)
                requires
                    0 <= i <= 0xffff_ffff_ffff_ffffu128,
            {}
        }
        like_sum = like_sum + pars[i].like as u128;
        i = i + 1;
    }
    proof {
        assert(s.take(n as int) =~= s);
    }
    let mut j: usize = 0;
    while j < n
        invariant
            n == pars@.len(),
            n == s.len(),
            j <= n,
            like_sum == like_sum_of(s),
            forall|k: int| 0 <= k < j ==> pars@[k] == with_weight(#[trigger] s[k], like_sum as int),
            forall|k: int| j <= k < n ==> #[trigger] pars@[k] == s[k],
        decreases n - j,
    {
        let p = pars[j];
        let wgt: u32 = if like_sum > 0 {
            proof {
                lemma_like_le_sum(s, j as int);
                assert(p.like as int * LIKE_ONE as int <= like_sum as int * LIKE_ONE as int)
                    by (nonlinear_arith)
                    requires
                        0 <= p.like as int <= like_sum as int,
                {}
                vstd::arithmetic::div_mod::lemma_div_is_ordered(
                    p.like as int * LIKE_ONE as int,
                    like_sum as int * LIKE_ONE as int,
                    like_sum as int,
                );
                vstd::arithmetic::div_mod::lemma_div_multiples_vanish(
                    LIKE_ONE as int,
                    like_sum as int,
                );
                vstd::arithmetic::div_mod::lemma_div_pos_is_pos(
                    p.like as int * LIKE_ONE as int,
                    like_sum as int,
                );
            }
            ((p.like as u128) * (LIKE_ONE as u128) / like_sum) as u32
        } else {
            0
        };
        pars[j] = Particle { pos: p.pos, vel: p.vel, like: p.like, wgt, keep: p.keep };
        proof {
            assert(pars@[j as int] == with_weight(s[j as int], like_sum as int));
        }
        j = j + 1;
    }
    proof {
        assert(pars@ =~= weighted(s, like_sum as int));
    }
    like_sum
}

// ---------------------------------------------------------------------------
// Diffusion / repopulation
// ---------------------------------------------------------------------------

/// Division truncating toward zero, as the machine division does.
pub open spec fn trunc_div(a: int, b: int) -> int {
    if a >= 0 {
        a / b
    } else {
        -((-a) / b)
    }
}

/// How many children a survivor spawns: the floor of its weight share of the
/// gap between the population target and the survivor count; none when the
/// likelihood sum is degenerate.
pub open spec fn child_count(p: Particle, gap: int, ls: int) -> int {
    if ls > 0 {
        p.like * gap / ls
    } else {
        0
    }
}

/// Children spawned by a whole population.
pub open spec fn total_children(s: Seq<Particle>, gap: int, ls: int) -> int
    decreases s.len(),
{
    if s.len() == 0 {
        0
    } else {
        total_children(s.drop_last(), gap, ls) + child_count(s.last(), gap, ls)
    }
}

/// The child a survivor spawns for the raw perimeter-scale diffusion offset
/// `off`: the offset is scaled down by the parent's confidence (the factor
/// `1 - like` in fixed point), becomes the child's velocity, and displaces the
/// child from the parent's position; likelihood and weight are inherited.
pub open spec fn child_of(p: Particle, off: (i32, i32)) -> Particle {
    let sx = trunc_div(off.0 * (LIKE_ONE - p.like), LIKE_ONE as int);
    let sy = trunc_div(off.1 * (LIKE_ONE - p.like), LIKE_ONE as int);
    Particle {
        pos: (sat32(p.pos.0 + sx) as i32, sat32(p.pos.1 + sy) as i32),
        vel: (sx as i32, sy as i32),
        like: p.like,
        wgt: p.wgt,
        keep: false,
    }
}

/// The children of one survivor, fed by the offsets starting at `start`.
pub open spec fn brood_of(
    p: Particle,
    offs: Seq<(i32, i32)>,
    start: int,
    gap: int,
    ls: int,
) -> Seq<Particle> {
    Seq::new(child_count(p, gap, ls) as nat, |j: int| child_of(p, offs[start + j]))
}

/// The children of a whole population, in order, each survivor consuming its
/// share of the offset sequence.
pub open spec fn children_of(
    s: Seq<Particle>,
    offs: Seq<(i32, i32)>,
    gap: int,
    ls: int,
) -> Seq<Particle>
    decreases s.len(),
{
    if s.len() == 0 {
        Seq::empty()
    } else {
        children_of(s.drop_last(), offs, gap, ls) + brood_of(
            s.last(),
            offs,
            total_children(s.drop_last(), gap, ls),
            gap,
            ls,
        )
    }
}

/// The gap the diffusion pass fills: how far the population is below its
/// target count.
pub open spec fn spawn_gap(num: u32, survivors: int) -> int {
    if num <= survivors {
        0
    } else {
        num - survivors
    }
}

/// Floor division distributes over addition of nonnegative numerators with at
/// most the true quotient.
proof fn lemma_div_add_le(a: int, b: int, d: int)
    requires
        d > 0,
        a >= 0,
        b >= 0,
    ensures
        a / d + b / d <= (a + b) / d,
{
    vstd::arithmetic::div_mod::lemma_fundamental_div_mod(a, d);
    vstd::arithmetic::div_mod::lemma_fundamental_div_mod(b, d);
    vstd::arithmetic::div_mod::lemma_fundamental_div_mod(a + b, d);
    vstd::arithmetic::div_mod::lemma_remainder_upper(a, d);
    vstd::arithmetic::div_mod::lemma_remainder_lower(a, d);
    vstd::arithmetic::div_mod::lemma_remainder_upper(b, d);
    vstd::arithmetic::div_mod::lemma_remainder_lower(b, d);
    vstd::arithmetic::div_mod::lemma_remainder_upper(a + b, d);
    vstd::arithmetic::div_mod::lemma_remainder_lower(a + b, d);
    vstd::arithmetic::div_mod::lemma_div_pos_is_pos(a, d);
    vstd::arithmetic::div_mod::lemma_div_pos_is_pos(b, d);
    assert(a / d + b / d <= (a + b) / d) by (nonlinear_arith)
        requires
            d > 0,
            a == d * (a / d) + a % d,
            b == d * (b / d) + b % d,
            a + b == d * ((a + b) / d) + (a + b) % d,
            0 <= a % d < d,
            0 <= b % d < d,
            0 <= (a + b) % d < d,
            a / d >= 0,
            b / d >= 0,
    {}
}

/// A single child count is never negative.
proof fn lemma_child_count_nonneg(p: Particle, gap: int, ls: int)
    requires
        gap >= 0,
    ensures
        child_count(p, gap, ls) >= 0,
{
    if ls > 0 {
        assert(p.like * gap >= 0) by (nonlinear_arith)
            requires
                p.like >= 0,
                gap >= 0,
        {}
        vstd::arithmetic::div_mod::lemma_div_pos_is_pos(p.like * gap, ls);
    }
}

/// The prefix of a likelihood sum never exceeds the whole.
proof fn lemma_like_sum_take(s: Seq<Particle>, k: int)
    requires
        0 <= k <= s.len(),
    ensures
        0 <= like_sum_of(s.take(k)) <= like_sum_of(s),
    decreases s.len(),
{
    lemma_like_sum_nonneg(s.take(k));
    lemma_like_sum_nonneg(s);
    if k < s.len() {
        assert(s.drop_last().take(k) =~= s.take(k));
        lemma_like_sum_take(s.drop_last(), k);
    } else {
        assert(s.take(k) =~= s);
    }
}

/// Children never overfill the gap: the total spawned by the first `k`
/// survivors is bounded by the share of their likelihoods in the sum.
proof fn lemma_total_children_le(s: Seq<Particle>, gap: int, ls: int)
    requires
        ls > 0,
        gap >= 0,
    ensures
        0 <= total_children(s, gap, ls),
        total_children(s, gap, ls) <= like_sum_of(s) * gap / ls,
    decreases s.len(),
{
    if s.len() == 0 {
        vstd::arithmetic::div_mod::lemma_div_pos_is_pos(0, ls);
    } else {
        let rest = s.drop_last();
        let p = s.last();
        lemma_total_children_le(rest, gap, ls);
        lemma_child_count_nonneg(p, gap, ls);
        lemma_like_sum_nonneg(rest);
        assert(p.like * gap >= 0) by (nonlinear_arith)
            requires
                p.like >= 0,
                gap >= 0,
        {}
        assert(like_sum_of(rest) * gap >= 0) by (nonlinear_arith)
            requires
                like_sum_of(rest) >= 0,
                gap >= 0,
        {}
        lemma_div_add_le(like_sum_of(rest) * gap, p.like * gap, ls);
        assert(like_sum_of(rest) * gap + p.like * gap == like_sum_of(s) * gap)
            by (nonlinear_arith)
            requires
                like_sum_of(s) == like_sum_of(rest) + p.like,
        {}
    }
}

/// One diffusion pass never spawns more children than the gap it fills: for a
/// population with a positive likelihood sum, the total child count stays at
/// or below `gap`, so the grown population stays at or below
/// `survivor_count + gap`.
pub proof fn lemma_children_fill_at_most_gap(s: Seq<Particle>, gap: int)
    requires
        gap >= 0,
    ensures
        0 <= total_children(s, gap, like_sum_of(s)) <= gap,
    decreases s.len(),
{
    let ls = like_sum_of(s);
    lemma_like_sum_nonneg(s);
    if ls > 0 {
        lemma_total_children_le(s, gap, ls);
        vstd::arithmetic::div_mod::lemma_div_multiples_vanish(gap, ls);
        assert(ls * gap == like_sum_of(s) * gap);
    } else {
        lemma_total_children_zero_ls(s, gap, ls);
    }
}

/// With a degenerate likelihood sum nothing spawns.
proof fn lemma_total_children_zero_ls(s: Seq<Particle>, gap: int, ls: int)
    requires
        ls <= 0,
    ensures
        total_children(s, gap, ls) == 0,
    decreases s.len(),
{
    if s.len() > 0 {
        lemma_total_children_zero_ls(s.drop_last(), gap, ls);
    }
}

/// The child sequence is as long as the total child count says.
proof fn lemma_children_len(s: Seq<Particle>, offs: Seq<(i32, i32)>, gap: int, ls: int)
    requires
        gap >= 0,
    ensures
        children_of(s, offs, gap, ls).len() == total_children(s, gap, ls),
    decreases s.len(),
{
    if s.len() > 0 {
        lemma_children_len(s.drop_last(), offs, gap, ls);
        lemma_child_count_nonneg(s.last(), gap, ls);
    }
}

/// Scales a raw diffusion offset component by the confidence factor
/// `(LIKE_ONE - like) / LIKE_ONE`, truncating toward zero.
fn scale_offset(off: i32, like: u32) -> (r: i32)
    requires
        like <= LIKE_ONE,
    ensures
        r == trunc_div(off * (LIKE_ONE - like), LIKE_ONE as int),
{
    let f: u64 = (LIKE_ONE - like) as u64;
    if off >= 0 {
        let mag: u64 = off as u64;
        proof {
            assert(mag * f <= 0x7fff_ffff * 1_000_000) by (nonlinear_arith)
                requires
                    0 <= mag <= 0x7fff_ffff,
                    0 <= f <= 1_000_000,
            {}
            vstd::arithmetic::div_mod::lemma_div_is_ordered(
                (mag * f) as int,
                0x7fff_ffffint * 1_000_000,
                1_000_000,
            );
            assert(0x7fff_ffffint * 1_000_000 / 1_000_000 == 0x7fff_ffff);
            vstd::arithmetic::div_mod::lemma_div_pos_is_pos((mag * f) as int, 1_000_000);
        }
        let scaled: u64 = mag * f / 1_000_000;
        scaled as i32
    } else {
        let mag: u64 = (-(off as i64)) as u64;
        proof {
            assert(mag * f <= 0x8000_0000 * 1_000_000) by (nonlinear_arith)
                requires
                    0 <= mag <= 0x8000_0000,
                    0 <= f <= 1_000_000,
            {}
            vstd::arithmetic::div_mod::lemma_div_is_ordered(
                (mag * f) as int,
                0x8000_0000int * 1_000_000,
                1_000_000,
            );
            assert(0x8000_0000int * 1_000_000 / 1_000_000 == 0x8000_0000);
            vstd::arithmetic::div_mod::lemma_div_pos_is_pos((mag * f) as int, 1_000_000);
            assert(-(off * (LIKE_ONE - like)) == mag * f) by (nonlinear_arith)
                requires
                    mag == -(off as int),
                    f == LIKE_ONE - like,
            {}
        }
        let scaled: u64 = mag * f / 1_000_000;
        -(scaled as i64) as i32
    }
}

/// Builds the child a survivor spawns for one raw diffusion offset.
fn make_child(p: Particle, off: (i32, i32)) -> (c: Particle)
    requires
        p.like <= LIKE_ONE,
    ensures
        c == child_of(p, off),
{
    let sx = scale_offset(off.0, p.like);
    let sy = scale_offset(off.1, p.like);
    Particle {
        pos: (sat_add_i32(p.pos.0, sx), sat_add_i32(p.pos.1, sy)),
        vel: (sx, sy),
        like: p.like,
        wgt: p.wgt,
        keep: false,
    }
}

/// Grows the population back toward its target count: every survivor spawns
/// its weight share of the gap as children, each child displaced from the
/// parent by one raw diffusion offset scaled down by the parent's confidence.
/// A degenerate (zero) likelihood sum spawns nothing.
pub fn spawn_children(params: &mut ParamsForParticle, like_sum: u128, offsets: &Vec<(i32, i32)>)
    requires
        like_sum == like_sum_of(old(params).pars@),
        forall|i: int|
            0 <= i < old(params).pars@.len() ==> (#[trigger] old(params).pars@[i]).like
                <= LIKE_ONE,
        offsets@.len() >= old(params).num,
    ensures
        final(params).pars@ == old(params).pars@ + children_of(
            old(params).pars@,
            offsets@,
            spawn_gap(old(params).num, old(params).pars@.len() as int),
            like_sum as int,
        ),
        final(params).pars@.len() <= old(params).pars@.len() + spawn_gap(
            old(params).num,
            old(params).pars@.len() as int,
        ),
        final(params).camera == old(params).camera,
        final(params).num == old(params).num,
        final(params).center == old(params).center,
        final(params).target_rgb == old(params).target_rgb,
{
    let ghost s = old(params).pars@;
    let ghost offs = offsets@;
    let m = params.pars.len();
    let gap: u32 = if m >= params.num as usize {
        0
    } else {
        params.num - m as u32
    };
    let ghost g = spawn_gap(params.num, s.len() as int);
    assert(gap == g);
    let mut brood: Vec<Particle> = Vec::new();
    let mut used: usize = 0;
    let mut i: usize = 0;
    while i < m
        invariant
            params.pars@ == s,
            params.num == old(params).num,
            params.camera == old(params).camera,
            params.center == old(params).center,
            params.target_rgb == old(params).target_rgb,
            m == s.len(),
            i <= m,
            like_sum == like_sum_of(s),
            forall|k: int| 0 <= k < s.len() ==> (#[trigger] s[k]).like <= LIKE_ONE,
            offs == offsets@,
            offs.len() >= old(params).num,
            g == gap,
            g == spawn_gap(old(params).num, s.len() as int),
            gap <= old(params).num,
            used == total_children(s.take(i as int), gap as int, like_sum as int),
            used <= gap,
            brood@ == children_of(s.take(i as int), offs, gap as int, like_sum as int),
        decreases m - i,
    {
        let p = params.pars[i];
        proof {
            assert(s.take(i as int + 1).drop_last() =~= s.take(i as int));
            assert(s.take(i as int + 1).last() == s[i as int]);
        }
        let cnt: u32 = if like_sum > 0 {
            proof {
                lemma_like_le_sum(s, i as int);
                assert(p.like as int * gap as int <= like_sum as int * gap as int)
                    by (nonlinear_arith)
                    requires
                        0 <= p.like as int <= like_sum as int,
                        gap as int >= 0,
                {}
                vstd::arithmetic::div_mod::lemma_div_is_ordered(
                    p.like as int * gap as int,
                    like_sum as int * gap as int,
                    like_sum as int,
                );
                vstd::arithmetic::div_mod::lemma_div_multiples_vanish(
                    gap as int,
                    like_sum as int,
                );
                vstd::arithmetic::div_mod::lemma_div_pos_is_pos(
                    p.like as int * gap as int,
                    like_sum as int,
                );
                assert(p.like as int * gap as int <= 0xffff_ffffint * 0xffff_ffff)
                    by (nonlinear_arith)
                    requires
                        0 <= p.like as int <= 0xffff_ffff,
                        0 <= gap as int <= 0xffff_ffff,
                {}
            }
            ((p.like as u128) * (gap as u128) / like_sum) as u32
        } else {
            0
        };
        proof {
            assert(cnt == child_count(s[i as int], gap as int, like_sum as int));
            assert(total_children(s.take(i as int + 1), gap as int, like_sum as int) == used
                + cnt);
            if like_sum > 0 {
                lemma_total_children_le(s.take(i as int + 1), gap as int, like_sum as int);
                lemma_like_sum_take(s, i as int + 1);
                assert(like_sum_of(s.take(i as int + 1)) * gap as int <= like_sum as int
                    * gap as int) by (nonlinear_arith)
                    requires
                        0 <= like_sum_of(s.take(i as int + 1)) <= like_sum as int,
                        gap as int >= 0,
                {}
                vstd::arithmetic::div_mod::lemma_div_is_ordered(
                    like_sum_of(s.take(i as int + 1)) * gap as int,
                    like_sum as int * gap as int,
                    like_sum as int,
                );
                vstd::arithmetic::div_mod::lemma_div_multiples_vanish(
                    gap as int,
                    like_sum as int,
                );
            } else {
                lemma_total_children_zero_ls(s.take(i as int + 1), gap as int, like_sum as int);
            }
            assert(used + cnt <= gap);
        }
        let ghost brood_start = brood@;
        let mut j: u32 = 0;
        while j < cnt
            invariant
                params.pars@ == s,
                m == s.len(),
                i < m,
                p == s[i as int],
                p.like <= LIKE_ONE,
                offs == offsets@,
                offs.len() >= old(params).num,
                gap <= old(params).num,
                j <= cnt,
                used + cnt <= gap,
                cnt == child_count(s[i as int], gap as int, like_sum as int),
                used == total_children(s.take(i as int), gap as int, like_sum as int),
                brood_start == children_of(s.take(i as int), offs, gap as int, like_sum as int),
                brood@ == brood_start + brood_of(
                    s[i as int],
                    offs,
                    used as int,
                    gap as int,
                    like_sum as int,
                ).take(j as int),
            decreases cnt - j,
        {
            let off = offsets[used + j as usize];
            let child = make_child(p, off);
            proof {
                let b = brood_of(s[i as int], offs, used as int, gap as int, like_sum as int);
                assert(b.take(j as int + 1) =~= b.take(j as int).push(b[j as int]));
                assert(b[j as int] == child_of(p, off));
            }
            brood.push(child);
            j = j + 1;
        }
        proof {
            let b = brood_of(s[i as int], offs, used as int, gap as int, like_sum as int);
            assert(b.take(cnt as int) =~= b);
            assert(brood@ =~= children_of(s.take(i as int + 1), offs, gap as int,
                like_sum as int));
        }
        used = used + cnt as usize;
        i = i + 1;
    }
    proof {
        assert(s.take(m as int) =~= s);
        lemma_children_len(s, offs, gap as int, like_sum as int);
    }
    params.pars.append(&mut brood);
}

// ---------------------------------------------------------------------------
// Annotation and centroid estimate
// ---------------------------------------------------------------------------

/// One marker stamped into the buffer: the pixel under an in-frame particle
/// becomes the marker color (255, 0, 0); out-of-frame particles leave no mark.
pub open spec fn mark_one(buf: Seq<u8>, p: Particle, camera: (i32, i32)) -> Seq<u8> {
    if in_frame(p.pos.0 as int, p.pos.1 as int, camera) {
        let base = 3 * (p.pos.1 * camera.0 + p.pos.0);
        buf.update(base, 255u8).update(base + 1, 0u8).update(base + 2, 0u8)
    } else {
        buf
    }
}

/// The buffer with a marker stamped for every in-frame particle, in order.
pub open spec fn mark_all(buf: Seq<u8>, ps: Seq<Particle>, camera: (i32, i32)) -> Seq<u8>
    decreases ps.len(),
{
    if ps.len() == 0 {
        buf
    } else {
        mark_one(mark_all(buf, ps.drop_last(), camera), ps.last(), camera)
    }
}

/// The crosshair row `cy` painted with the highlight color up to column `x`.
pub open spec fn hline_upto(buf: Seq<u8>, cy: int, camera: (i32, i32), x: int) -> Seq<u8>
    decreases x,
{
    if x <= 0 {
        buf
    } else {
        let prev = hline_upto(buf, cy, camera, x - 1);
        let base = 3 * (cy * camera.0 + (x - 1));
        prev.update(base, 255u8).update(base + 1, 255u8).update(base + 2, 255u8)
    }
}

/// The crosshair column `cx` painted with the highlight color up to row `y`.
pub open spec fn vline_upto(buf: Seq<u8>, cx: int, camera: (i32, i32), y: int) -> Seq<u8>
    decreases y,
{
    if y <= 0 {
        buf
    } else {
        let prev = vline_upto(buf, cx, camera, y - 1);
        let base = 3 * ((y - 1) * camera.0 + cx);
        prev.update(base, 255u8).update(base + 1, 255u8).update(base + 2, 255u8)
    }
}

/// The full crosshair: a horizontal line at the centroid row and a vertical
/// line at the centroid column, each drawn only if that coordinate lies within
/// the frame bounds on its axis.
pub open spec fn crosshair(buf: Seq<u8>, center: (int, int), camera: (i32, i32)) -> Seq<u8> {
    let h = if 0 <= center.1 < camera.1 {
        hline_upto(buf, center.1, camera, camera.0 as int)
    } else {
        buf
    };
    if 0 <= center.0 < camera.0 {
        vline_upto(h, center.0, camera, camera.1 as int)
    } else {
        h
    }
}

/// Componentwise sum of all particle positions, out-of-frame ones included.
pub open spec fn pos_sum(s: Seq<Particle>) -> (int, int)
    decreases s.len(),
{
    if s.len() == 0 {
        (0, 0)
    } else {
        let r = pos_sum(s.drop_last());
        (r.0 + s.last().pos.0, r.1 + s.last().pos.1)
    }
}

/// The centroid of a nonempty population: the mean position, truncated toward
/// zero as the machine division does.
pub open spec fn centroid_of(s: Seq<Particle>) -> (int, int) {
    (trunc_div(pos_sum(s).0, s.len() as int), trunc_div(pos_sum(s).1, s.len() as int))
}

/// What the annotation pass does to the buffer: a marker on every in-frame
/// particle, then, for a nonempty population, the crosshair at the centroid.
pub open spec fn annotate_spec(
    buf: Seq<u8>,
    ps: Seq<Particle>,
    center: (int, int),
    camera: (i32, i32),
) -> Seq<u8> {
    let marked = mark_all(buf, ps, camera);
    if ps.len() > 0 {
        crosshair(marked, center, camera)
    } else {
        marked
    }
}

/// A position sum is bounded by the population size times the `i32` range.
proof fn lemma_pos_sum_bounds(s: Seq<Particle>)
    ensures
        -(s.len() as int) * 0x8000_0000 <= pos_sum(s).0 <= s.len() as int * 0x7fff_ffff,
        -(s.len() as int) * 0x8000_0000 <= pos_sum(s).1 <= s.len() as int * 0x7fff_ffff,
    decreases s.len(),
{
    if s.len() > 0 {
        lemma_pos_sum_bounds(s.drop_last());
        let n1 = s.drop_last().len() as int;
        assert((n1 + 1) * 0x7fff_ffff == n1 * 0x7fff_ffff + 0x7fff_ffff) by (nonlinear_arith)
        {}
        assert(-(n1 + 1) * 0x8000_0000 == -n1 * 0x8000_0000 + -0x8000_0000)
            by (nonlinear_arith)
        {}
    } else {
        assert(-(s.len() as int) * 0x8000_0000 == 0) by (nonlinear_arith)
            requires
                s.len() == 0,
        {}
        assert(s.len() as int * 0x7fff_ffff == 0) by (nonlinear_arith)
            requires
                s.len() == 0,
        {}
    }
}

/// Truncating division of a possibly negative sum by a positive count.
fn div_toward_zero(sum: i128, n: usize) -> (r: i128)
    requires
        n > 0,
        -(n as int) * 0x8000_0000 <= sum <= n as int * 0x7fff_ffff,
    ensures
        r == trunc_div(sum as int, n as int),
        -0x8000_0000 <= r <= 0x7fff_ffff,
{
    if sum >= 0 {
        proof {
            vstd::arithmetic::div_mod::lemma_div_is_ordered(
                sum as int,
                n as int * 0x7fff_ffff,
                n as int,
            );
            vstd::arithmetic::div_mod::lemma_div_multiples_vanish(0x7fff_ffff, n as int);
            assert(n as int * 0x7fff_ffff == 0x7fff_ffff * n) by (nonlinear_arith)
            {}
            vstd::arithmetic::div_mod::lemma_div_pos_is_pos(sum as int, n as int);
        }
        let q: u128 = (sum as u128) / (n as u128);
        q as i128
    } else {
        let neg: u128 = (-sum) as u128;
        proof {
            assert(neg <= n as int * 0x8000_0000);
            vstd::arithmetic::div_mod::lemma_div_is_ordered(
                neg as int,
                n as int * 0x8000_0000,
                n as int,
            );
            vstd::arithmetic::div_mod::lemma_div_multiples_vanish(0x8000_0000, n as int);
            assert(n as int * 0x8000_0000 == 0x8000_0000 * n) by (nonlinear_arith)
            {}
            vstd::arithmetic::div_mod::lemma_div_pos_is_pos(neg as int, n as int);
        }
        let q: u128 = neg / (n as u128);
        -(q as i128)
    }
}

/// Stamps a marker on every in-frame particle, recomputes the centroid of a
/// nonempty population as the truncated mean of all positions, and draws the
/// crosshair there; an empty population leaves buffer and centroid alone.
pub fn annotate(buf: &mut Vec<u8>, params: &mut ParamsForParticle)
    requires
        old(params).wf(),
        old(buf)@.len() >= 3 * old(params).camera.0 * old(params).camera.1,
    ensures
        final(params).pars@ == old(params).pars@,
        final(params).camera == old(params).camera,
        final(params).num == old(params).num,
        final(params).target_rgb == old(params).target_rgb,
        final(params).wf(),
        old(params).pars@.len() > 0 ==> {
            &&& final(params).center.0 == centroid_of(old(params).pars@).0
            &&& final(params).center.1 == centroid_of(old(params).pars@).1
        },
        old(params).pars@.len() == 0 ==> final(params).center == old(params).center,
        final(buf)@ == annotate_spec(
            old(buf)@,
            old(params).pars@,
            (final(params).center.0 as int, final(params).center.1 as int),
            old(params).camera,
        ),
        final(buf)@.len() == old(buf)@.len(),
{
    let ghost s = params.pars@;
    let ghost buf0 = buf@;
    let camera = params.camera;
    let w = camera.0 as usize;
    let h = camera.1 as usize;
    let n = params.pars.len();
    let mut sum_x: i128 = 0;
    let mut sum_y: i128 = 0;
    let mut i: usize = 0;
    while i < n
        invariant
            params.pars@ == s,
            params.camera == camera,
            params.num == old(params).num,
            params.center == old(params).center,
            params.target_rgb == old(params).target_rgb,
            params.wf(),
            n == s.len(),
            i <= n,
            w == camera.0 as int,
            h == camera.1 as int,
            buf@.len() == buf0.len(),
            buf0.len() >= 3 * camera.0 * camera.1,
            sum_x == pos_sum(s.take(i as int)).0,
            sum_y == pos_sum(s.take(i as int)).1,
            buf@ == mark_all(buf0, s.take(i as int), camera),
        decreases n - i,
    {
        let p = params.pars[i];
        proof {
            assert(s.take(i as int + 1).drop_last() =~= s.take(i as int));
            assert(s.take(i as int + 1).last() == s[i as int]);
            lemma_pos_sum_bounds(s.take(i as int));
            assert(i as int * 0x7fff_ffff <= 0xffff_ffff_ffff_ffff * 0x7fff_ffff)
                by (nonlinear_arith)
                requires
                    0 <= i as int <= 0xffff_ffff_ffff_ffff,
            {}
            assert(-(i as int) * 0x8000_0000 >= -(0xffff_ffff_ffff_ffffint) * 0x8000_0000)
                by (nonlinear_arith)
                requires
                    0 <= i as int <= 0xffff_ffff_ffff_ffff,
            {}
        }
        if 0 < p.pos.0 && p.pos.0 < camera.0 && 0 < p.pos.1 && p.pos.1 < camera.1 {
            let x = p.pos.0 as usize;
            let y = p.pos.1 as usize;
            proof {
                assert(y * w + x < h * w && y * w + x < 100_000_000) by (nonlinear_arith)
                    requires
                        0 <= y < h <= 10_000,
                        0 <= x < w <= 10_000,
                {}
                assert(3 * (y * w + x) + 2 < 3 * camera.0 * camera.1) by (nonlinear_arith)
                    requires
                        y * w + x < h * w,
                        w == camera.0,
                        h == camera.1,
                {}
                assert(3 * (p.pos.1 * camera.0 + p.pos.0) == 3 * (y * w + x));
            }
            let base: usize = 3 * (y * w + x);
            buf[base] = 255;
            buf[base + 1] = 0;
            buf[base + 2] = 0;
        }
        proof {
            assert(buf@ =~= mark_all(buf0, s.take(i as int + 1), camera));
        }
        sum_x = sum_x + p.pos.0 as i128;
        sum_y = sum_y + p.pos.1 as i128;
        i = i + 1;
    }
    proof {
        assert(s.take(n as int) =~= s);
    }
    if n > 0 {
        proof {
            lemma_pos_sum_bounds(s);
        }
        let cx = div_toward_zero(sum_x, n) as i32;
        let cy = div_toward_zero(sum_y, n) as i32;
        params.center = (cx, cy);
        let ghost marked = buf@;
        if 0 <= cy && cy < camera.1 {
            let cyu = cy as usize;
            let mut x: usize = 0;
            while x < w
                invariant
                    params.pars@ == s,
                    params.camera == camera,
                    params.num == old(params).num,
                    params.target_rgb == old(params).target_rgb,
                    params.center == (cx, cy),
                    params.wf(),
                    w == camera.0 as int,
                    h == camera.1 as int,
                    0 <= cyu < h,
                    cyu == cy as int,
                    x <= w,
                    buf@.len() == buf0.len(),
                    buf0.len() >= 3 * camera.0 * camera.1,
                    buf@ == hline_upto(marked, cy as int, camera, x as int),
                decreases w - x,
            {
                proof {
                    assert(cyu * w + x < h * w && cyu * w + x < 100_000_000)
                        by (nonlinear_arith)
                        requires
                            0 <= cyu < h <= 10_000,
                            0 <= x < w <= 10_000,
                    {}
                    assert(3 * (cyu * w + x) + 2 < 3 * camera.0 * camera.1)
                        by (nonlinear_arith)
                        requires
                            cyu * w + x < h * w,
                            w == camera.0,
                            h == camera.1,
                    {}
                }
                let base: usize = 3 * (cyu * w + x);
                buf[base] = 255;
                buf[base + 1] = 255;
                buf[base + 2] = 255;
                proof {
                    assert(buf@ =~= hline_upto(marked, cy as int, camera, x as int + 1));
                }
                x = x + 1;
            }
        }
        let ghost lined = buf@;
        if 0 <= cx && cx < camera.0 {
            let cxu = cx as usize;
            let mut y: usize = 0;
            while y < h
                invariant
                    params.pars@ == s,
                    params.camera == camera,
                    params.num == old(params).num,
                    params.target_rgb == old(params).target_rgb,
                    params.center == (cx, cy),
                    params.wf(),
                    w == camera.0 as int,
                    h == camera.1 as int,
                    0 <= cxu < w,
                    cxu == cx as int,
                    y <= h,
                    buf@.len() == buf0.len(),
                    buf0.len() >= 3 * camera.0 * camera.1,
                    buf@ == vline_upto(lined, cx as int, camera, y as int),
                decreases h - y,
            {
                proof {
                    assert(y * w + cxu < h * w && y * w + cxu < 100_000_000)
                        by (nonlinear_arith)
                        requires
                            0 <= y < h <= 10_000,
                            0 <= cxu < w <= 10_000,
                    {}
                    assert(3 * (y * w + cxu) + 2 < 3 * camera.0 * camera.1)
                        by (nonlinear_arith)
                        requires
                            y * w + cxu < h * w,
                            w == camera.0,
                            h == camera.1,
                    {}
                }
                let base: usize = 3 * (y * w + cxu);
                buf[base] = 255;
                buf[base + 1] = 255;
                buf[base + 2] = 255;
                proof {
                    assert(buf@ =~= vline_upto(lined, cx as int, camera, y as int + 1));
                }
                y = y + 1;
            }
        }
    }
}

// ---------------------------------------------------------------------------
// One full filter step
// ---------------------------------------------------------------------------

/// The `w` x `h` grid view of a raw interleaved buffer.
pub open spec fn grid_of(buf: Seq<u8>, w: int, h: int) -> Seq<Seq<Rgb>> {
    Seq::new(h as nat, |y: int| Seq::new(w as nat, |x: int| pixel_at(buf, w, x, y)))
}

/// Every likelihood stays within the fixed-point scale.
pub open spec fn likes_bounded(s: Seq<Particle>) -> bool {
    forall|i: int| 0 <= i < s.len() ==> (#[trigger] s[i]).like <= LIKE_ONE
}

/// The population one filter step leaves behind, given the sorted observed
/// population and the raw diffusion offsets: the selection survivors, their
/// weights normalized, followed by the children the diffusion pass spawns.
pub open spec fn tick_population(
    sorted: Seq<Particle>,
    offs: Seq<(i32, i32)>,
    num: u32,
) -> Seq<Particle> {
    let surv = survivors_of(sorted);
    let ls = like_sum_of(surv);
    let ws = weighted(surv, ls);
    let gap = spawn_gap(num, surv.len() as int);
    ws + children_of(ws, offs, gap, ls)
}

/// Selection never grows the population.
proof fn lemma_kept_len(s: Seq<Particle>)
    ensures
        kept_of(s).len() <= s.len(),
    decreases s.len(),
{
    if s.len() > 0 {
        lemma_kept_len(s.drop_last());
    }
}

/// Bounded likelihoods survive selection.
proof fn lemma_kept_likes_bounded(s: Seq<Particle>)
    requires
        likes_bounded(s),
    ensures
        likes_bounded(kept_of(s)),
{
    assert forall|i: int| 0 <= i < kept_of(s).len() implies (#[trigger] kept_of(s)[i]).like
        <= LIKE_ONE by {
        lemma_kept_from(s, i);
    }
}

/// What one successful filter step guarantees: the new population is the
/// sorted observed population pruned by selection, re-weighted, and grown by
/// the diffusion children the offsets determine; the centroid of a nonempty
/// population is the truncated mean of its positions; and the buffer carries
/// the particle markers and the crosshair. The sorted population is any
/// ascending-by-likelihood permutation of the observed one: the tie order is
/// not pinned down.
pub open spec fn particle_tick_ok(
    pre: ParamsForParticle,
    post: ParamsForParticle,
    buf0: Seq<u8>,
    buf1: Seq<u8>,
    offs: Seq<(i32, i32)>,
) -> bool {
    &&& buf0.len() >= 3 * pre.camera.0 * pre.camera.1
    &&& buf1.len() == buf0.len()
    &&& post.camera == pre.camera
    &&& post.num == pre.num
    &&& post.target_rgb == pre.target_rgb
    &&& exists|srt: Seq<Particle>|
        {
            &&& srt.to_multiset() == observe_all(
                pre.pars@,
                grid_of(buf0, pre.camera.0 as int, pre.camera.1 as int),
                pre.camera,
                pre.target_rgb,
            ).to_multiset()
            &&& sorted_by_like(srt)
            &&& post.pars@ == tick_population(srt, offs, pre.num)
            &&& post.pars@.len() > 0 ==> {
                &&& post.center.0 == centroid_of(post.pars@).0
                &&& post.center.1 == centroid_of(post.pars@).1
            }
            &&& post.pars@.len() == 0 ==> post.center == pre.center
            &&& buf1 == annotate_spec(
                buf0,
                post.pars@,
                (post.center.0 as int, post.center.1 as int),
                pre.camera,
            )
        }
    &&& post.pars@.len() <= pre.pars@.len() + pre.num
}

/// Runs one full filter step on the raw frame buffer: prediction, observation
/// against the sampled frame, the elitist selection, weight normalization,
/// diffusion fed by the raw offsets, and the in-place annotation of the buffer
/// with particle markers and the centroid crosshair.
///
/// A buffer too short for the configured frame size is rejected untouched.
/// The offsets are the perimeter-scale diffusion draws, one potential child
/// each; at most `num` of them are consumed.
pub fn particle(buf: &mut Vec<u8>, params: &mut ParamsForParticle, offsets: &Vec<(i32, i32)>)
    -> (r: Result<(), FrameError>)
    requires
        old(params).wf(),
        offsets@.len() >= old(params).num,
    ensures
        final(params).camera == old(params).camera,
        final(params).num == old(params).num,
        final(params).target_rgb == old(params).target_rgb,
        final(params).wf(),
        match r {
            Ok(()) => particle_tick_ok(
                *old(params),
                *final(params),
                old(buf)@,
                final(buf)@,
                offsets@,
            ),
            Err(e) => {
                &&& e == FrameError::BufferTooShort
                &&& old(buf)@.len() < 3 * old(params).camera.0 * old(params).camera.1
                &&& *final(params) == *old(params)
                &&& final(buf)@ == old(buf)@
            },
        },
{
    let ghost orig = params.pars@;
    let ghost buf0 = buf@;
    let camera = params.camera;
    let target = params.target_rgb;
    let num = params.num;
    let w = camera.0 as usize;
    let h = camera.1 as usize;
    let grid = match sample_frame(buf, w, h) {
        Ok(g) => g,
        Err(e) => {
            proof {
                assert(3 * w * h == 3 * camera.0 * camera.1) by (nonlinear_arith)
                    requires
                        w == camera.0,
                        h == camera.1,
                {}
            }
            return Err(e);
        },
    };
    proof {
        assert(3 * w * h == 3 * camera.0 * camera.1) by (nonlinear_arith)
            requires
                w == camera.0,
                h == camera.1,
        {}
    }
    let ghost gview = grid@.map_values(|row: Vec<Rgb>| row@);
    proof {
        assert(gview =~~= grid_of(buf0, camera.0 as int, camera.1 as int));
        assert(grid@.len() == camera.1);
        assert forall|y: int| 0 <= y < grid@.len() implies (#[trigger] grid@[y])@.len()
            == camera.0 by {
            assert(gview[y] == grid@[y]@);
        }
    }
    predict_and_score(params, &grid);
    let ghost obs = params.pars@;
    proof {
        assert forall|i: int| 0 <= i < obs.len() implies (#[trigger] obs[i]).like <= LIKE_ONE by {
            let x = sat32(orig[i].pos.0 + orig[i].vel.0);
            let y = sat32(orig[i].pos.1 + orig[i].vel.1);
            if in_frame(x, y, camera) {
                lemma_score_bounds(gview[y][x], target);
            }
        }
    }
    sort_by_like(&mut params.pars);
    let ghost srt = params.pars@;
    proof {
        broadcast use vstd::seq_lib::group_to_multiset_ensures;

        assert forall|i: int| 0 <= i < srt.len() implies (#[trigger] srt[i]).like <= LIKE_ONE by {
            assert(srt.contains(srt[i]));
            assert(obs.to_multiset().count(srt[i]) > 0);
            assert(obs.contains(srt[i]));
            let j = choose|j: int| 0 <= j < obs.len() && obs[j] == srt[i];
            assert(obs[j].like <= LIKE_ONE);
        }
    }
    select_survivors(&mut params.pars);
    let ghost surv = params.pars@;
    proof {
        assert forall|i: int| 0 <= i < keep_flagged(srt).len() implies (#[trigger] keep_flagged(
            srt,
        )[i]).like <= LIKE_ONE by {
            assert(keep_flagged(srt)[i].like == srt[i].like);
        }
        lemma_kept_likes_bounded(keep_flagged(srt));
        lemma_kept_len(keep_flagged(srt));
    }
    let like_sum = normalize_weights(&mut params.pars);
    let ghost ws = params.pars@;
    proof {
        lemma_like_sum_weighted(surv, like_sum as int);
        assert forall|i: int| 0 <= i < ws.len() implies (#[trigger] ws[i]).like <= LIKE_ONE by {
            assert(ws[i] == with_weight(surv[i], like_sum as int));
        }
    }
    spawn_children(params, like_sum, offsets);
    proof {
        assert(params.pars@ == tick_population(srt, offsets@, num));
        assert(params.pars@.len() <= orig.len() + num);
    }
    annotate(buf, params);
    proof {
        let witness = srt;
        assert(witness.to_multiset() == observe_all(
            orig,
            grid_of(buf0, camera.0 as int, camera.1 as int),
            camera,
            target,
        ).to_multiset());
    }
    Ok(())
}

// ---------------------------------------------------------------------------
// Whole-buffer pixel filters
// ---------------------------------------------------------------------------

/// Integer luminance of one pixel: the usual weighted sum of the channels in
/// thousandths.
pub open spec fn gray_of(r: u8, g: u8, b: u8) -> int {
    (299 * r + 587 * g + 114 * b) / 1000
}

/// What the grayscale filter makes of a buffer of `nch`-byte pixels: the first
/// three bytes of every complete pixel chunk become its luminance, everything
/// else stays.
pub open spec fn grayscale_spec(buf: Seq<u8>, nch: int) -> Seq<u8> {
    Seq::new(
        buf.len(),
        |i: int|
            {
                let base = (i / nch) * nch;
                if i % nch < 3 && base + 3 <= buf.len() {
                    gray_of(buf[base], buf[base + 1], buf[base + 2]) as u8
                } else {
                    buf[i]
                }
            },
    )
}

/// Turns every complete `n_channels`-byte pixel of the buffer gray: its first
/// three channels all become the integer luminance of the pixel. Trailing
/// bytes that do not make up three channels are left alone.
pub fn grayscale(buf: &mut Vec<u8>, n_channels: usize)
    requires
        3 <= n_channels,
        old(buf)@.len() + n_channels <= usize::MAX,
    ensures
        final(buf)@ == grayscale_spec(old(buf)@, n_channels as int),
{
    let ghost orig = buf@;
    let ghost gs = grayscale_spec(orig, n_channels as int);
    let len = buf.len();
    let mut base: usize = 0;
    let ghost p: int = 0;
    while base + 3 <= len
        invariant
            3 <= n_channels,
            len == buf@.len(),
            len == orig.len(),
            len + n_channels <= usize::MAX,
            gs == grayscale_spec(orig, n_channels as int),
            base == p * n_channels,
            p >= 0,
            base <= len + n_channels - 3,
            forall|i: int| 0 <= i < base && i < len ==> #[trigger] buf@[i] == gs[i],
            forall|i: int| base <= i < len ==> #[trigger] buf@[i] == orig[i],
        decreases len + n_channels - base,
    {
        let r = buf[base];
        let g = buf[base + 1];
        let b = buf[base + 2];
        let gray: u32 = (299 * r as u32 + 587 * g as u32 + 114 * b as u32) / 1000;
        assert(gray == gray_of(orig[base as int], orig[base as int + 1], orig[base as int + 2]));
        assert(gray <= 255);
        let gray8 = gray as u8;
        buf[base] = gray8;
        buf[base + 1] = gray8;
        buf[base + 2] = gray8;
        proof {
            assert forall|i: int|
                base <= i < base + n_channels && i < len implies #[trigger] gs[i] == (if i - base
                < 3 {
                gray8
            } else {
                orig[i]
            }) by {
                let c = i - base;
                vstd::arithmetic::div_mod::lemma_fundamental_div_mod_converse_div(
                    i,
                    n_channels as int,
                    p,
                    c,
                );
                vstd::arithmetic::div_mod::lemma_fundamental_div_mod_converse_mod(
                    i,
                    n_channels as int,
                    p,
                    c,
                );
                assert(i / n_channels as int == p);
                assert(i % n_channels as int == c);
                assert(p * n_channels == base);
            }
        }
        base = base + n_channels;
        proof {
            p = p + 1;
            assert((p - 1) * n_channels + n_channels == p * n_channels) by (nonlinear_arith)
            {}
        }
    }
    proof {
        assert forall|i: int| base <= i < len implies #[trigger] gs[i] == orig[i] by {
            vstd::arithmetic::div_mod::lemma_div_is_ordered(base as int, i, n_channels as int);
            vstd::arithmetic::div_mod::lemma_div_multiples_vanish(p, n_channels as int);
            assert(n_channels as int * p == p * n_channels) by (nonlinear_arith)
            {}
            assert(i / n_channels as int >= p);
            vstd::arithmetic::mul::lemma_mul_inequality(p, i / n_channels as int,
                n_channels as int);
            assert((i / n_channels as int) * n_channels >= p * n_channels) by (nonlinear_arith)
                requires
                    i / n_channels as int >= p,
                    n_channels >= 3,
            {}
        }
        assert(buf@ =~= gs);
    }
}

/// Inverts every byte of the buffer: each value `v` becomes `255 - v`.
pub fn reverse_rgb(buf: &mut Vec<u8>)
    ensures
        final(buf)@.len() == old(buf)@.len(),
        forall|i: int| 0 <= i < old(buf)@.len() ==> final(buf)@[i] == 255 - old(buf)@[i],
{
    let ghost orig = buf@;
    let len = buf.len();
    let mut i: usize = 0;
    while i < len
        invariant
            len == buf@.len(),
            len == orig.len(),
            i <= len,
            forall|j: int| 0 <= j < i ==> buf@[j] == 255 - orig[j],
            forall|j: int| i <= j < len ==> #[trigger] buf@[j] == orig[j],
        decreases len - i,
    {
        let v = buf[i];
        buf[i] = 255 - v;
        i = i + 1;
    }
}

} // verus!
