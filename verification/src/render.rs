//! Frame synthesizer: renders one intermediate frame of the morph by
//! splatting every assigned source pixel toward its interpolated position
//! with a small separable kernel, resolving the accumulation buffer, and
//! flood-filling any cell no splat reached.
//!
//! Time is a fixed-point fraction with denominator `T_ONE`, so every weight
//! and every accumulated sum is an exact integer scaled by a power of
//! `T_ONE`; the rendered colors are exact rounded rational averages.

use vstd::prelude::*;
use vstd::arithmetic::div_mod::lemma_fundamental_div_mod;
use vstd::arithmetic::div_mod::lemma_fundamental_div_mod_converse;
use vstd::arithmetic::div_mod::lemma_mod_bound;

verus! {

/// Fixed-point denominator of the time parameter: `t = t_num / T_ONE`.
pub const T_ONE: u32 = 1048576;

/// `T_ONE` to the fourth: the scale of one combined splat weight.
pub const T_ONE_4: u128 = 1208925819614629174706176;

/// Cap on one accumulator cell's weight sum: `2^32` splats of full weight.
pub const ACC_CAP: u128 = 5192296858534827628530496329220096;

pub open spec fn min_i(a: int, b: int) -> int {
    if a < b { a } else { b }
}

pub open spec fn abs_i(a: int) -> int {
    if a < 0 { -a } else { a }
}

/// Numerator (scale `T_ONE`) of the interpolated x position of the point
/// assigned to slot `s` with origin `o`: `origin_x * (1 - t) + slot_x * t`.
pub open spec fn fx_num(o: int, s: int, w: int, tq: int) -> int {
    (o % w) * (T_ONE as int - tq) + (s % w) * tq
}

/// Numerator (scale `T_ONE`) of the interpolated y position.
pub open spec fn fy_num(o: int, s: int, w: int, tq: int) -> int {
    (o / w) * (T_ONE as int - tq) + (s / w) * tq
}

/// Weight (scale `T_ONE^2`) that the kernel gives along one axis to the cell
/// at coordinate `c`, for a point whose position numerator is `fnum`:
/// `(1-d)^2` one cell before the floor, `1 - min(1, 2|d - 1/2|)` at the
/// floor, `d^2` one cell past it, and zero elsewhere, where `d` is the
/// fractional part of the position.
pub open spec fn axis_weight(fnum: int, c: int) -> int {
    let q = fnum / T_ONE as int;
    let a = fnum % T_ONE as int;
    if c == q - 1 {
        (T_ONE as int - a) * (T_ONE as int - a)
    } else if c == q {
        T_ONE as int * (T_ONE as int - min_i(T_ONE as int, abs_i(2 * a - T_ONE as int)))
    } else if c == q + 1 {
        a * a
    } else {
        0
    }
}

/// Combined weight (scale `T_ONE^4`) that the point in slot `s` contributes
/// to the cell `(cx, cy)`.
pub open spec fn point_weight(o: int, s: int, w: int, tq: int, cx: int, cy: int) -> int {
    axis_weight(fx_num(o, s, w, tq), cx) * axis_weight(fy_num(o, s, w, tq), cy)
}

/// Channel `j` of a color.
pub open spec fn chan(c: (u8, u8, u8), j: int) -> int {
    if j == 0 { c.0 as int } else if j == 1 { c.1 as int } else { c.2 as int }
}

/// Weight accumulated at `(cx, cy)` by the first `k` splatted points.
pub open spec fn acc_w_upto(
    asg: Seq<usize>,
    w: int,
    tq: int,
    cx: int,
    cy: int,
    k: int,
) -> int
    decreases k,
{
    if k <= 0 {
        0
    } else {
        acc_w_upto(asg, w, tq, cx, cy, k - 1)
            + point_weight(asg[k - 1] as int, k - 1, w, tq, cx, cy)
    }
}

/// Channel `j` (weighted color) accumulated at `(cx, cy)` by the first `k`
/// splatted points.
pub open spec fn acc_c_upto(
    asg: Seq<usize>,
    src: Seq<(u8, u8, u8)>,
    w: int,
    tq: int,
    cx: int,
    cy: int,
    j: int,
    k: int,
) -> int
    decreases k,
{
    if k <= 0 {
        0
    } else {
        acc_c_upto(asg, src, w, tq, cx, cy, j, k - 1)
            + point_weight(asg[k - 1] as int, k - 1, w, tq, cx, cy)
                * chan(src[asg[k - 1] as int], j)
    }
}

/// The cell `(cx, cy)` receives a positive weight from some splat: the splat
/// pass alone already defines its color.
pub open spec fn covered(
    asg: Seq<usize>,
    w: int,
    tq: int,
    cx: int,
    cy: int,
) -> bool {
    acc_w_upto(asg, w, tq, cx, cy, asg.len() as int) > 0
}

/// The exact color the resolve pass gives a covered cell: the weighted
/// average of the accumulated channel, rounded half up.
pub open spec fn resolved_chan(
    asg: Seq<usize>,
    src: Seq<(u8, u8, u8)>,
    w: int,
    tq: int,
    cx: int,
    cy: int,
    j: int,
) -> int {
    let n = asg.len() as int;
    let cw = acc_w_upto(asg, w, tq, cx, cy, n);
    let cc = acc_c_upto(asg, src, w, tq, cx, cy, j, n);
    (2 * cc + cw) / (2 * cw)
}

/// Accumulation buffer of one frame: per-cell running sums of weighted
/// channels and of weights, all exact integers at scale `T_ONE^4`.
struct Accum {
    red: Vec<u128>,
    green: Vec<u128>,
    blue: Vec<u128>,
    weight: Vec<u128>,
}

impl Accum {
    spec fn wf(self, size: int) -> bool {
        &&& self.red@.len() == size
        &&& self.green@.len() == size
        &&& self.blue@.len() == size
        &&& self.weight@.len() == size
    }

    spec fn ch(self, j: int) -> Seq<u128> {
        if j == 0 { self.red@ } else if j == 1 { self.green@ } else { self.blue@ }
    }

    /// Every cell's channel sums are bounded by 255 times its weight sum,
    /// and the weight sum is below the cap.
    spec fn bounded(self, size: int) -> bool {
        forall|i: int, j: int| 0 <= i < size && 0 <= j < 3
            ==> #[trigger] self.ch(j)[i] as int <= 255 * (self.weight@[i] as int)
                && self.weight@[i] as int <= ACC_CAP as int
    }
}

proof fn lemma_axis_weight_bounds(fnum: int)
    requires
        0 <= fnum,
    ensures
        forall|c: int| 0 <= #[trigger] axis_weight(fnum, c)
            <= (T_ONE as int) * (T_ONE as int),
{
    lemma_mod_bound(fnum, T_ONE as int);
    let a = fnum % T_ONE as int;
    assert forall|c: int| 0 <= #[trigger] axis_weight(fnum, c)
        <= (T_ONE as int) * (T_ONE as int) by {
        assert(0 <= (T_ONE as int - a) * (T_ONE as int - a) <= (T_ONE as int) * (T_ONE as int))
            by (nonlinear_arith)
            requires 0 <= a < T_ONE as int;
        assert(0 <= a * a <= (T_ONE as int) * (T_ONE as int)) by (nonlinear_arith)
            requires 0 <= a < T_ONE as int;
        assert(0 <= T_ONE as int
            * (T_ONE as int - min_i(T_ONE as int, abs_i(2 * a - T_ONE as int)))
            <= (T_ONE as int) * (T_ONE as int)) by (nonlinear_arith)
            requires 0 <= a < T_ONE as int;
    }
}

proof fn lemma_point_weight_bounds(o: int, s: int, w: int, tq: int)
    requires
        0 < w,
        0 <= o,
        0 <= s,
        0 <= tq <= T_ONE as int,
    ensures
        forall|cx: int, cy: int|
            0 <= #[trigger] point_weight(o, s, w, tq, cx, cy) <= T_ONE_4 as int,
{
    lemma_mod_bound(o as int, w);
    lemma_mod_bound(s as int, w);
    assert(fx_num(o, s, w, tq) >= 0) by (nonlinear_arith)
        requires 0 <= o % w && 0 <= s % w, 0 <= tq <= T_ONE as int;
    assert(fy_num(o, s, w, tq) >= 0) by (nonlinear_arith)
        requires 0 <= o / w && 0 <= s / w, 0 <= tq <= T_ONE as int;
    lemma_axis_weight_bounds(fx_num(o, s, w, tq));
    lemma_axis_weight_bounds(fy_num(o, s, w, tq));
    assert forall|cx: int, cy: int|
        0 <= #[trigger] point_weight(o, s, w, tq, cx, cy) <= T_ONE_4 as int by {
        let t2 = (T_ONE as int) * (T_ONE as int);
        let wx = axis_weight(fx_num(o, s, w, tq), cx);
        let wy = axis_weight(fy_num(o, s, w, tq), cy);
        assert(0 <= wx * wy <= t2 * t2) by (nonlinear_arith)
            requires 0 <= wx <= t2 && 0 <= wy <= t2;
        assert(t2 * t2 == T_ONE_4 as int);
    }
    assert(0 <= o / w) by (nonlinear_arith) requires 0 <= o, 0 < w;
    assert(0 <= s / w) by (nonlinear_arith) requires 0 <= s, 0 < w;
}

/// Loose per-cell cap under which a deposit cannot overflow.
pub const DEPOSIT_CAP: u128 = 10384593717069655257060992658440192;

/// Add `weight` and `weight * color` into the accumulation cell `(cx, cy)`,
/// skipping positions outside the grid and zero weights.
fn deposit(
    acc: &mut Accum,
    w: usize,
    h: usize,
    cx: i64,
    cy: i64,
    weight: u128,
    color: (u8, u8, u8),
)
    requires
        0 < w <= 65535,
        0 < h <= 65535,
        old(acc).wf((w * h) as int),
        weight <= T_ONE_4,
        forall|i: int| 0 <= i < (w * h) as int
            ==> #[trigger] old(acc).weight@[i] as int <= DEPOSIT_CAP as int,
        forall|i: int, j: int| 0 <= i < (w * h) as int && 0 <= j < 3
            ==> #[trigger] old(acc).ch(j)[i] as int <= 255 * (old(acc).weight@[i] as int),
    ensures
        final(acc).wf((w * h) as int),
        forall|i: int| 0 <= i < (w * h) as int
            ==> final(acc).weight@[i] as int == old(acc).weight@[i] as int
                + (if 0 <= cx < w as int && 0 <= cy < h as int && i == cy * w as int + cx {
                    weight as int
                } else {
                    0
                }),
        forall|i: int, j: int| 0 <= i < (w * h) as int && 0 <= j < 3
            ==> #[trigger] final(acc).ch(j)[i] as int == old(acc).ch(j)[i] as int
                + (if 0 <= cx < w as int && 0 <= cy < h as int && i == cy * w as int + cx {
                    weight as int * chan(color, j)
                } else {
                    0
                }),
        forall|i: int| 0 <= i < (w * h) as int
            ==> #[trigger] final(acc).weight@[i] as int
                <= old(acc).weight@[i] as int + T_ONE_4 as int,
        forall|i: int, j: int| 0 <= i < (w * h) as int && 0 <= j < 3
            ==> #[trigger] final(acc).ch(j)[i] as int
                <= 255 * (final(acc).weight@[i] as int),
{
    if weight > 0 && cx >= 0 && cx < w as i64 && cy >= 0 && cy < h as i64 {
        proof {
            assert(cy * (w as int) + cx < (w as int) * (h as int)) by (nonlinear_arith)
                requires 0 <= cx < w as int, 0 <= cy < h as int;
            assert(0 <= cy * (w as int)) by (nonlinear_arith)
                requires 0 <= cy, 0 < w as int;
            assert((w as int) * (h as int) <= 0xffff_ffff) by (nonlinear_arith)
                requires 0 < w as int <= 65535, 0 < h as int <= 65535;
        }
        let idx: usize = (cy as usize) * w + (cx as usize);
        let r0: u128 = acc.red[idx];
        let g0: u128 = acc.green[idx];
        let b0: u128 = acc.blue[idx];
        let w0: u128 = acc.weight[idx];
        proof {
            assert(old(acc).ch(0)[idx as int] == old(acc).red@[idx as int]);
            assert(old(acc).ch(1)[idx as int] == old(acc).green@[idx as int]);
            assert(old(acc).ch(2)[idx as int] == old(acc).blue@[idx as int]);
            assert(weight as int * (color.0 as int) <= 255 * (weight as int))
                by (nonlinear_arith) requires color.0 <= 255, 0 <= weight;
            assert(weight as int * (color.1 as int) <= 255 * (weight as int))
                by (nonlinear_arith) requires color.1 <= 255, 0 <= weight;
            assert(weight as int * (color.2 as int) <= 255 * (weight as int))
                by (nonlinear_arith) requires color.2 <= 255, 0 <= weight;
            assert(0 <= weight as int * (color.0 as int)) by (nonlinear_arith)
                requires 0 <= weight;
            assert(0 <= weight as int * (color.1 as int)) by (nonlinear_arith)
                requires 0 <= weight;
            assert(0 <= weight as int * (color.2 as int)) by (nonlinear_arith)
                requires 0 <= weight;
        }
        let wr: u128 = weight * (color.0 as u128);
        let wg: u128 = weight * (color.1 as u128);
        let wb: u128 = weight * (color.2 as u128);
        acc.red.set(idx, r0 + wr);
        acc.green.set(idx, g0 + wg);
        acc.blue.set(idx, b0 + wb);
        acc.weight.set(idx, w0 + weight);
        proof {
            lemma_fundamental_div_mod_converse(idx as int, w as int, cy as int, cx as int);
        }
    }
}

proof fn lemma_mul_le(a: int, b: int, c: int, d: int)
    requires
        0 <= a <= c,
        0 <= b <= d,
    ensures
        0 <= a * b <= c * d,
{
    assert(0 <= a * b <= c * d) by (nonlinear_arith)
        requires 0 <= a <= c, 0 <= b <= d;
}

/// Splat one point: deposit its color into the 3-by-3 neighborhood of the
/// floor of its interpolated position, with the kernel's axis weights.
#[verifier::rlimit(100)]
fn splat_point(
    acc: &mut Accum,
    w: usize,
    h: usize,
    o: usize,
    s: usize,
    tq: u32,
    color: (u8, u8, u8),
)
    requires
        0 < w <= 65535,
        0 < h <= 65535,
        o < w * h,
        s < w * h,
        tq <= T_ONE,
        old(acc).wf((w * h) as int),
        forall|i: int| 0 <= i < (w * h) as int
            ==> #[trigger] old(acc).weight@[i] as int <= ACC_CAP as int - T_ONE_4 as int,
        forall|i: int, j: int| 0 <= i < (w * h) as int && 0 <= j < 3
            ==> #[trigger] old(acc).ch(j)[i] as int <= 255 * (old(acc).weight@[i] as int),
    ensures
        final(acc).wf((w * h) as int),
        forall|i: int| 0 <= i < (w * h) as int
            ==> #[trigger] final(acc).weight@[i] as int == old(acc).weight@[i] as int
                + point_weight(o as int, s as int, w as int, tq as int, i % w as int,
                    i / w as int),
        forall|i: int, j: int| 0 <= i < (w * h) as int && 0 <= j < 3
            ==> #[trigger] final(acc).ch(j)[i] as int == old(acc).ch(j)[i] as int
                + point_weight(o as int, s as int, w as int, tq as int, i % w as int,
                    i / w as int) * chan(color, j),
{
    let ghost wi: int = w as int;
    let ghost size: int = (w * h) as int;
    let t1: u64 = T_ONE as u64;
    let t: u64 = tq as u64;
    let ox: u64 = (o % w) as u64;
    let oy: u64 = (o / w) as u64;
    let sx: u64 = (s % w) as u64;
    let sy: u64 = (s / w) as u64;
    proof {
        lemma_mod_bound(o as int, wi);
        lemma_mod_bound(s as int, wi);
        assert(0 <= o as int / wi && o as int / wi < h as int) by (nonlinear_arith)
            requires 0 <= o && (o as int) < wi * (h as int), 0 < wi;
        assert(0 <= s as int / wi && s as int / wi < h as int) by (nonlinear_arith)
            requires 0 <= s && (s as int) < wi * (h as int), 0 < wi;
        lemma_mul_le(ox as int, t1 as int - t as int, 65534, t1 as int);
        lemma_mul_le(sx as int, t as int, 65534, t1 as int);
        lemma_mul_le(oy as int, t1 as int - t as int, 65534, t1 as int);
        lemma_mul_le(sy as int, t as int, 65534, t1 as int);
    }
    let fxn: u64 = ox * (t1 - t) + sx * t;
    let fyn: u64 = oy * (t1 - t) + sy * t;
    assert(fxn as int == fx_num(o as int, s as int, wi, tq as int));
    assert(fyn as int == fy_num(o as int, s as int, wi, tq as int));

    let x0: u64 = fxn / t1;
    let ax: u64 = fxn % t1;
    let y0: u64 = fyn / t1;
    let ay: u64 = fyn % t1;
    proof {
        lemma_mod_bound(fxn as int, t1 as int);
        lemma_mod_bound(fyn as int, t1 as int);
        assert(0 <= fxn as int / t1 as int <= fxn as int) by (nonlinear_arith)
            requires 0 <= fxn, 1 < t1 as int;
        assert(0 <= fyn as int / t1 as int <= fyn as int) by (nonlinear_arith)
            requires 0 <= fyn, 1 < t1 as int;
    }

    proof {
        lemma_mul_le(t1 as int - ax as int, t1 as int - ax as int, t1 as int, t1 as int);
        lemma_mul_le(ax as int, ax as int, t1 as int, t1 as int);
        lemma_mul_le(t1 as int - ay as int, t1 as int - ay as int, t1 as int, t1 as int);
        lemma_mul_le(ay as int, ay as int, t1 as int, t1 as int);
    }
    let wxm: u64 = (t1 - ax) * (t1 - ax);
    let dxa: u64 = if 2 * ax >= t1 { 2 * ax - t1 } else { t1 - 2 * ax };
    let mx: u64 = if dxa < t1 { dxa } else { t1 };
    proof {
        lemma_mul_le(t1 as int, t1 as int - mx as int, t1 as int, t1 as int);
    }
    let wx0: u64 = t1 * (t1 - mx);
    let wxp: u64 = ax * ax;

    let wym: u64 = (t1 - ay) * (t1 - ay);
    let dya: u64 = if 2 * ay >= t1 { 2 * ay - t1 } else { t1 - 2 * ay };
    let my: u64 = if dya < t1 { dya } else { t1 };
    proof {
        lemma_mul_le(t1 as int, t1 as int - my as int, t1 as int, t1 as int);
    }
    let wy0: u64 = t1 * (t1 - my);
    let wyp: u64 = ay * ay;

    proof {
        assert(wxm as int == axis_weight(fxn as int, x0 as int - 1));
        assert(wx0 as int == axis_weight(fxn as int, x0 as int));
        assert(wxp as int == axis_weight(fxn as int, x0 as int + 1));
        assert(wym as int == axis_weight(fyn as int, y0 as int - 1));
        assert(wy0 as int == axis_weight(fyn as int, y0 as int));
        assert(wyp as int == axis_weight(fyn as int, y0 as int + 1));
        lemma_mul_le(wxm as int, wym as int,
            (t1 as int) * (t1 as int), (t1 as int) * (t1 as int));
        lemma_mul_le(wxm as int, wy0 as int,
            (t1 as int) * (t1 as int), (t1 as int) * (t1 as int));
        lemma_mul_le(wxm as int, wyp as int,
            (t1 as int) * (t1 as int), (t1 as int) * (t1 as int));
        lemma_mul_le(wx0 as int, wym as int,
            (t1 as int) * (t1 as int), (t1 as int) * (t1 as int));
        lemma_mul_le(wx0 as int, wy0 as int,
            (t1 as int) * (t1 as int), (t1 as int) * (t1 as int));
        lemma_mul_le(wx0 as int, wyp as int,
            (t1 as int) * (t1 as int), (t1 as int) * (t1 as int));
        lemma_mul_le(wxp as int, wym as int,
            (t1 as int) * (t1 as int), (t1 as int) * (t1 as int));
        lemma_mul_le(wxp as int, wy0 as int,
            (t1 as int) * (t1 as int), (t1 as int) * (t1 as int));
        lemma_mul_le(wxp as int, wyp as int,
            (t1 as int) * (t1 as int), (t1 as int) * (t1 as int));
        assert(((t1 as int) * (t1 as int)) * ((t1 as int) * (t1 as int)) == T_ONE_4 as int)
           ;
    }

    let cxm: i64 = x0 as i64 - 1;
    let cx0: i64 = x0 as i64;
    let cxp: i64 = x0 as i64 + 1;
    let cym: i64 = y0 as i64 - 1;
    let cy0: i64 = y0 as i64;
    let cyp: i64 = y0 as i64 + 1;

    deposit(acc, w, h, cxm, cym, (wxm as u128) * (wym as u128), color);
    deposit(acc, w, h, cx0, cym, (wx0 as u128) * (wym as u128), color);
    deposit(acc, w, h, cxp, cym, (wxp as u128) * (wym as u128), color);
    deposit(acc, w, h, cxm, cy0, (wxm as u128) * (wy0 as u128), color);
    deposit(acc, w, h, cx0, cy0, (wx0 as u128) * (wy0 as u128), color);
    deposit(acc, w, h, cxp, cy0, (wxp as u128) * (wy0 as u128), color);
    deposit(acc, w, h, cxm, cyp, (wxm as u128) * (wyp as u128), color);
    deposit(acc, w, h, cx0, cyp, (wx0 as u128) * (wyp as u128), color);
    deposit(acc, w, h, cxp, cyp, (wxp as u128) * (wyp as u128), color);

    proof {
        let qx = x0 as int;
        let qy = y0 as int;
        assert forall|i: int| 0 <= i < size
            implies #[trigger] acc.weight@[i] as int == old(acc).weight@[i] as int
                + point_weight(o as int, s as int, wi, tq as int, i % wi, i / wi) by {
            lemma_fundamental_div_mod(i, wi);
            lemma_mod_bound(i, wi);
            let ci = i % wi;
            let ri = i / wi;
            assert(0 <= ri < h as int) by (nonlinear_arith)
                requires 0 <= i < wi * (h as int), i == wi * (i / wi) + (i % wi),
                    0 <= i % wi < wi, 0 < wi, ri == i / wi;
            if 0 <= qx - 1 < wi && 0 <= qy - 1 && i == (qy - 1) * wi + (qx - 1) {
                lemma_fundamental_div_mod_converse(i, wi, qy - 1, qx - 1);
            }
            if 0 <= qx < wi && 0 <= qy - 1 && i == (qy - 1) * wi + qx {
                lemma_fundamental_div_mod_converse(i, wi, qy - 1, qx);
            }
            if 0 <= qx + 1 < wi && 0 <= qy - 1 && i == (qy - 1) * wi + (qx + 1) {
                lemma_fundamental_div_mod_converse(i, wi, qy - 1, qx + 1);
            }
            if 0 <= qx - 1 < wi && i == qy * wi + (qx - 1) {
                lemma_fundamental_div_mod_converse(i, wi, qy, qx - 1);
            }
            if 0 <= qx < wi && i == qy * wi + qx {
                lemma_fundamental_div_mod_converse(i, wi, qy, qx);
            }
            if 0 <= qx + 1 < wi && i == qy * wi + (qx + 1) {
                lemma_fundamental_div_mod_converse(i, wi, qy, qx + 1);
            }
            if 0 <= qx - 1 < wi && i == (qy + 1) * wi + (qx - 1) {
                lemma_fundamental_div_mod_converse(i, wi, qy + 1, qx - 1);
            }
            if 0 <= qx < wi && i == (qy + 1) * wi + qx {
                lemma_fundamental_div_mod_converse(i, wi, qy + 1, qx);
            }
            if 0 <= qx + 1 < wi && i == (qy + 1) * wi + (qx + 1) {
                lemma_fundamental_div_mod_converse(i, wi, qy + 1, qx + 1);
            }
            if ci < qx - 1 || ci > qx + 1 || ri < qy - 1 || ri > qy + 1 {
                assert(axis_weight(fxn as int, ci) == 0 || axis_weight(fyn as int, ri) == 0);
                assert(point_weight(o as int, s as int, wi, tq as int, ci, ri) == 0)
                    by (nonlinear_arith)
                    requires axis_weight(fx_num(o as int, s as int, wi, tq as int), ci) == 0
                            || axis_weight(fy_num(o as int, s as int, wi, tq as int), ri) == 0,
                        point_weight(o as int, s as int, wi, tq as int, ci, ri)
                            == axis_weight(fx_num(o as int, s as int, wi, tq as int), ci)
                                * axis_weight(fy_num(o as int, s as int, wi, tq as int), ri);
            } else {
                assert(i == ri * wi + ci) by (nonlinear_arith)
                    requires i == wi * (i / wi) + (i % wi), ci == i % wi, ri == i / wi;
                let awx = axis_weight(fxn as int, ci);
                let awy = axis_weight(fyn as int, ri);
                assert(point_weight(o as int, s as int, wi, tq as int, ci, ri) == awx * awy);
                if ci == qx - 1 {
                    assert(awx == wxm as int);
                } else if ci == qx {
                    assert(awx == wx0 as int);
                } else {
                    assert(awx == wxp as int);
                }
                if ri == qy - 1 {
                    assert(awy == wym as int);
                } else if ri == qy {
                    assert(awy == wy0 as int);
                } else {
                    assert(awy == wyp as int);
                }
            }
        }
        assert forall|i: int, j: int| 0 <= i < size && 0 <= j < 3
            implies #[trigger] acc.ch(j)[i] as int == old(acc).ch(j)[i] as int
                + point_weight(o as int, s as int, wi, tq as int, i % wi, i / wi)
                    * chan(color, j) by {
            lemma_fundamental_div_mod(i, wi);
            lemma_mod_bound(i, wi);
            let ci = i % wi;
            let ri = i / wi;
            assert(0 <= ri < h as int) by (nonlinear_arith)
                requires 0 <= i < wi * (h as int), i == wi * (i / wi) + (i % wi),
                    0 <= i % wi < wi, 0 < wi, ri == i / wi;
            if 0 <= qx - 1 < wi && 0 <= qy - 1 && i == (qy - 1) * wi + (qx - 1) {
                lemma_fundamental_div_mod_converse(i, wi, qy - 1, qx - 1);
            }
            if 0 <= qx < wi && 0 <= qy - 1 && i == (qy - 1) * wi + qx {
                lemma_fundamental_div_mod_converse(i, wi, qy - 1, qx);
            }
            if 0 <= qx + 1 < wi && 0 <= qy - 1 && i == (qy - 1) * wi + (qx + 1) {
                lemma_fundamental_div_mod_converse(i, wi, qy - 1, qx + 1);
            }
            if 0 <= qx - 1 < wi && i == qy * wi + (qx - 1) {
                lemma_fundamental_div_mod_converse(i, wi, qy, qx - 1);
            }
            if 0 <= qx < wi && i == qy * wi + qx {
                lemma_fundamental_div_mod_converse(i, wi, qy, qx);
            }
            if 0 <= qx + 1 < wi && i == qy * wi + (qx + 1) {
                lemma_fundamental_div_mod_converse(i, wi, qy, qx + 1);
            }
            if 0 <= qx - 1 < wi && i == (qy + 1) * wi + (qx - 1) {
                lemma_fundamental_div_mod_converse(i, wi, qy + 1, qx - 1);
            }
            if 0 <= qx < wi && i == (qy + 1) * wi + qx {
                lemma_fundamental_div_mod_converse(i, wi, qy + 1, qx);
            }
            if 0 <= qx + 1 < wi && i == (qy + 1) * wi + (qx + 1) {
                lemma_fundamental_div_mod_converse(i, wi, qy + 1, qx + 1);
            }
            if ci < qx - 1 || ci > qx + 1 || ri < qy - 1 || ri > qy + 1 {
                assert(axis_weight(fxn as int, ci) == 0 || axis_weight(fyn as int, ri) == 0);
                assert(point_weight(o as int, s as int, wi, tq as int, ci, ri) == 0)
                    by (nonlinear_arith)
                    requires axis_weight(fx_num(o as int, s as int, wi, tq as int), ci) == 0
                            || axis_weight(fy_num(o as int, s as int, wi, tq as int), ri) == 0,
                        point_weight(o as int, s as int, wi, tq as int, ci, ri)
                            == axis_weight(fx_num(o as int, s as int, wi, tq as int), ci)
                                * axis_weight(fy_num(o as int, s as int, wi, tq as int), ri);
            } else {
                assert(i == ri * wi + ci) by (nonlinear_arith)
                    requires i == wi * (i / wi) + (i % wi), ci == i % wi, ri == i / wi;
                let awx = axis_weight(fxn as int, ci);
                let awy = axis_weight(fyn as int, ri);
                assert(point_weight(o as int, s as int, wi, tq as int, ci, ri) == awx * awy);
                if ci == qx - 1 {
                    assert(awx == wxm as int);
                } else if ci == qx {
                    assert(awx == wx0 as int);
                } else {
                    assert(awx == wxp as int);
                }
                if ri == qy - 1 {
                    assert(awy == wym as int);
                } else if ri == qy {
                    assert(awy == wy0 as int);
                } else {
                    assert(awy == wyp as int);
                }
            }
        }
    }
}


/// Accumulated sums stay bounded: the weight by `k` full-scale splats, each
/// channel by 255 times the weight.
proof fn lemma_acc_upto_bounds(
    asg: Seq<usize>,
    src: Seq<(u8, u8, u8)>,
    w: int,
    tq: int,
    cx: int,
    cy: int,
    k: int,
)
    requires
        0 < w,
        0 <= tq <= T_ONE as int,
        0 <= k <= asg.len(),
    ensures
        0 <= acc_w_upto(asg, w, tq, cx, cy, k) <= k * (T_ONE_4 as int),
        forall|j: int| 0 <= j < 3
            ==> 0 <= #[trigger] acc_c_upto(asg, src, w, tq, cx, cy, j, k)
                <= 255 * acc_w_upto(asg, w, tq, cx, cy, k),
    decreases k,
{
    if k > 0 {
        lemma_acc_upto_bounds(asg, src, w, tq, cx, cy, k - 1);
        let o = asg[k - 1] as int;
        lemma_point_weight_bounds(o, k - 1, w, tq);
        let pw = point_weight(o, k - 1, w, tq, cx, cy);
        assert forall|j: int| 0 <= j < 3
            implies 0 <= #[trigger] acc_c_upto(asg, src, w, tq, cx, cy, j, k)
                <= 255 * acc_w_upto(asg, w, tq, cx, cy, k) by {
            let cj = chan(src[o], j);
            assert(acc_c_upto(asg, src, w, tq, cx, cy, j, k)
                == acc_c_upto(asg, src, w, tq, cx, cy, j, k - 1) + pw * cj);
            assert(0 <= acc_c_upto(asg, src, w, tq, cx, cy, j, k - 1)
                <= 255 * acc_w_upto(asg, w, tq, cx, cy, k - 1));
            assert(0 <= pw * cj <= 255 * pw) by (nonlinear_arith)
                requires 0 <= pw, 0 <= cj <= 255;
        }
        assert((k - 1) * (T_ONE_4 as int) + T_ONE_4 as int == k * (T_ONE_4 as int))
            by (nonlinear_arith);
    }
}

/// Some in-bounds cell receives a positive splat weight.
pub open spec fn some_covered(asg: Seq<usize>, w: int, h: int, tq: int) -> bool {
    exists|cx: int, cy: int| 0 <= cx < w && 0 <= cy < h
        && #[trigger] covered(asg, w, tq, cx, cy)
}

/// The three bytes of the frame's cell `i` are exactly the resolved color of
/// some covered cell: no cell of a rendered frame is left undefined.
pub open spec fn cell_from_covered(
    frame: Seq<u8>,
    asg: Seq<usize>,
    src: Seq<(u8, u8, u8)>,
    w: int,
    h: int,
    tq: int,
    i: int,
) -> bool {
    exists|cx: int, cy: int| 0 <= cx < w && 0 <= cy < h
        && #[trigger] covered(asg, w, tq, cx, cy)
        && frame[3 * i] == resolved_chan(asg, src, w, tq, cx, cy, 0)
        && frame[3 * i + 1] == resolved_chan(asg, src, w, tq, cx, cy, 1)
        && frame[3 * i + 2] == resolved_chan(asg, src, w, tq, cx, cy, 2)
}

/// Number of cells still unfilled.
spec fn count_false(s: Seq<bool>) -> int
    decreases s.len(),
{
    if s.len() == 0 {
        0
    } else {
        count_false(s.drop_last()) + if s.last() { 0int } else { 1int }
    }
}

proof fn lemma_count_false_nonneg(s: Seq<bool>)
    ensures
        0 <= count_false(s),
    decreases s.len(),
{
    if s.len() > 0 {
        lemma_count_false_nonneg(s.drop_last());
    }
}

proof fn lemma_count_false_set_true(s: Seq<bool>, i: int)
    requires
        0 <= i < s.len(),
        !s[i],
    ensures
        count_false(s.update(i, true)) == count_false(s) - 1,
    decreases s.len(),
{
    if i == s.len() - 1 {
        assert(s.update(i, true).drop_last() =~= s.drop_last());
    } else {
        assert(s.update(i, true).drop_last() =~= s.drop_last().update(i, true));
        lemma_count_false_set_true(s.drop_last(), i);
    }
}

/// The cell `c` sits somewhere in the work queue.
spec fn in_queue(q: Seq<usize>, c: int) -> bool {
    exists|j: int| 0 <= j < q.len() && #[trigger] q[j] as int == c
}

/// All four in-grid neighbors of the cell `c` are filled.
spec fn nbrs_filled(filled: Seq<bool>, w: int, h: int, c: int) -> bool {
    &&& (c % w > 0 ==> filled[c - 1])
    &&& (c % w < w - 1 ==> filled[c + 1])
    &&& (c - w >= 0 ==> filled[c - w])
    &&& (c + w < w * h ==> filled[c + w])
}

/// Four neighbor facts, stated over the cell's coordinates, assemble into
/// `nbrs_filled`.
proof fn lemma_assemble_nbrs(filled: Seq<bool>, w: int, h: int, c: int, cx: int, cy: int)
    requires
        0 < w,
        0 < h,
        filled.len() == w * h,
        0 <= c < w * h,
        cx == c % w,
        cy == c / w,
        cx + 1 < w ==> filled[c + 1],
        cx > 0 ==> filled[c - 1],
        cy + 1 < h ==> filled[c + w],
        cy > 0 ==> filled[c - w],
    ensures
        nbrs_filled(filled, w, h, c),
{
    lemma_fundamental_div_mod(c, w);
    lemma_mod_bound(c, w);
    assert(0 <= cy < h) by (nonlinear_arith)
        requires 0 <= c < w * h, c == w * cy + cx, 0 <= cx < w, 0 < w;
    if cy + 1 == h {
        assert(c + w >= w * h) by (nonlinear_arith)
            requires c == w * cy + cx, 0 <= cx, cy + 1 == h, 0 < w;
    }
    if cy == 0 {
        assert(c - w < 0) by (nonlinear_arith)
            requires c == w * cy + cx, cx < w, cy == 0;
    }
}

/// Filled cells stay filled when the filled set only grows.
proof fn lemma_nbrs_monotone(f1: Seq<bool>, f2: Seq<bool>, w: int, h: int, c: int)
    requires
        f1.len() == w * h,
        f2.len() == w * h,
        0 < w,
        0 < h,
        0 <= c < w * h,
        nbrs_filled(f1, w, h, c),
        forall|i: int| 0 <= i < w * h && f1[i] ==> #[trigger] f2[i],
    ensures
        nbrs_filled(f2, w, h, c),
{
    lemma_mod_bound(c, w);
    lemma_fundamental_div_mod(c, w);
    let q = c / w;
    let r = c % w;
    assert(0 <= q < h) by (nonlinear_arith)
        requires 0 <= c < w * h, c == w * q + r, 0 <= r < w, 0 < w;
    assert(r > 0 ==> 0 <= c - 1 < w * h) by (nonlinear_arith)
        requires c == w * q + r, 0 <= r < w, 0 <= q < h, 0 < w;
    assert(r < w - 1 ==> 0 <= c + 1 < w * h) by (nonlinear_arith)
        requires c == w * q + r, 0 <= r < w, 0 <= q < h, 0 < w;
    assert(c - w >= 0 ==> c - w < w * h);
    assert(c + w < w * h ==> 0 <= c + w);
}

/// A nonempty set of filled cells that is closed under 4-adjacency covers the
/// whole grid: walk from a filled cell toward any other, one step at a time.
proof fn lemma_closed_reach(filled: Seq<bool>, w: int, h: int, x0: int, y0: int, x: int, y: int)
    requires
        0 < w,
        0 < h,
        filled.len() == w * h,
        forall|c: int| 0 <= c < w * h && filled[c] ==> #[trigger] nbrs_filled(filled, w, h, c),
        0 <= x0 < w,
        0 <= y0 < h,
        0 <= x < w,
        0 <= y < h,
        filled[y0 * w + x0],
    ensures
        filled[y * w + x],
    decreases abs_i(x - x0) + abs_i(y - y0),
{
    let c0 = y0 * w + x0;
    assert(0 <= c0 < w * h) by (nonlinear_arith)
        requires 0 <= x0 < w, 0 <= y0 < h, c0 == y0 * w + x0;
    lemma_fundamental_div_mod_converse(c0, w, y0, x0);
    assert(nbrs_filled(filled, w, h, c0));
    if x0 < x {
        assert(c0 % w == x0 && x0 < w - 1);
        assert(filled[c0 + 1]);
        assert(c0 + 1 == y0 * w + (x0 + 1));
        lemma_closed_reach(filled, w, h, x0 + 1, y0, x, y);
    } else if x0 > x {
        assert(c0 % w == x0 && x0 > 0);
        assert(filled[c0 - 1]);
        assert(c0 - 1 == y0 * w + (x0 - 1));
        lemma_closed_reach(filled, w, h, x0 - 1, y0, x, y);
    } else if y0 < y {
        assert(c0 + w < w * h) by (nonlinear_arith)
            requires 0 <= x0 < w, 0 <= y0 < h - 1, c0 == y0 * w + x0;
        assert(filled[c0 + w]);
        assert(c0 + w == (y0 + 1) * w + x0) by (nonlinear_arith)
            requires c0 == y0 * w + x0;
        lemma_closed_reach(filled, w, h, x0, y0 + 1, x, y);
    } else if y0 > y {
        assert(c0 - w >= 0) by (nonlinear_arith)
            requires 0 <= x0 < w, 1 <= y0, c0 == y0 * w + x0;
        assert(filled[c0 - w]);
        assert(c0 - w == (y0 - 1) * w + x0) by (nonlinear_arith)
            requires c0 == y0 * w + x0;
        lemma_closed_reach(filled, w, h, x0, y0 - 1, x, y);
    }
}

/// The frame's cell `i` carries, unchanged, the bytes some seed cell had
/// before hole-filling began.
spec fn copied_from_seed(frame: Seq<u8>, frame0: Seq<u8>, filled0: Seq<bool>, i: int) -> bool {
    exists|i0: int| 0 <= i0 < filled0.len() && #[trigger] filled0[i0]
        && frame[3 * i] == frame0[3 * i0]
        && frame[3 * i + 1] == frame0[3 * i0 + 1]
        && frame[3 * i + 2] == frame0[3 * i0 + 2]
}

/// Some cell is already filled.
spec fn any_filled(filled: Seq<bool>) -> bool {
    exists|i: int| 0 <= i < filled.len() && #[trigger] filled[i]
}

/// One step of the propagation: if the neighbor `nc` of the filled cell `c`
/// is unfilled, give it `c`'s color, mark it filled, and enqueue it.
fn propagate_cell(
    frame: &mut Vec<u8>,
    filled: &mut Vec<bool>,
    queue: &mut Vec<usize>,
    c: usize,
    nc: usize,
    Ghost(frame0): Ghost<Seq<u8>>,
    Ghost(filled0): Ghost<Seq<bool>>,
    Ghost(size): Ghost<int>,
)
    requires
        size <= 0x0fff_ffff,
        old(filled)@.len() == size,
        old(frame)@.len() == 3 * size,
        filled0.len() == size,
        frame0.len() == 3 * size,
        c < size,
        nc < size,
        old(filled)@[c as int],
        forall|j: int| 0 <= j < old(queue)@.len()
            ==> #[trigger] old(queue)@[j] < size && old(filled)@[old(queue)@[j] as int],
        forall|c2: int| 0 <= c2 < size && old(filled)@[c2]
            ==> #[trigger] in_queue(old(queue)@, c2),
        forall|c2: int| 0 <= c2 < size && #[trigger] filled0[c2]
            ==> old(filled)@[c2]
                && old(frame)@[3 * c2] == frame0[3 * c2]
                && old(frame)@[3 * c2 + 1] == frame0[3 * c2 + 1]
                && old(frame)@[3 * c2 + 2] == frame0[3 * c2 + 2],
        forall|c2: int| 0 <= c2 < size && old(filled)@[c2]
            ==> #[trigger] copied_from_seed(old(frame)@, frame0, filled0, c2),
    ensures
        final(filled)@.len() == size,
        final(frame)@.len() == 3 * size,
        final(queue)@.len() >= old(queue)@.len(),
        final(filled)@[nc as int],
        forall|c2: int| 0 <= c2 < size && old(filled)@[c2] ==> #[trigger] final(filled)@[c2],
        forall|j: int| 0 <= j < old(queue)@.len()
            ==> #[trigger] final(queue)@[j] == old(queue)@[j],
        forall|j: int| 0 <= j < final(queue)@.len()
            ==> #[trigger] final(queue)@[j] < size && final(filled)@[final(queue)@[j] as int],
        forall|c2: int| 0 <= c2 < size && final(filled)@[c2]
            ==> #[trigger] in_queue(final(queue)@, c2),
        forall|c2: int| 0 <= c2 < size && #[trigger] filled0[c2]
            ==> final(filled)@[c2]
                && final(frame)@[3 * c2] == frame0[3 * c2]
                && final(frame)@[3 * c2 + 1] == frame0[3 * c2 + 1]
                && final(frame)@[3 * c2 + 2] == frame0[3 * c2 + 2],
        forall|c2: int| 0 <= c2 < size && final(filled)@[c2]
            ==> #[trigger] copied_from_seed(final(frame)@, frame0, filled0, c2),
        old(filled)@[nc as int] ==> final(filled)@ == old(filled)@
            && final(frame)@ == old(frame)@ && final(queue)@ == old(queue)@,
        !old(filled)@[nc as int]
            ==> final(filled)@ == old(filled)@.update(nc as int, true),
{
    if !filled[nc] {
        let b0: u8 = frame[3 * c];
        let b1: u8 = frame[3 * c + 1];
        let b2: u8 = frame[3 * c + 2];
        frame.set(3 * nc, b0);
        frame.set(3 * nc + 1, b1);
        frame.set(3 * nc + 2, b2);
        filled.set(nc, true);
        queue.push(nc);
        proof {
            assert(c != nc);
            assert(!filled0[nc as int]);
            assert forall|c2: int| 0 <= c2 < size && final(filled)@[c2]
                implies #[trigger] copied_from_seed(final(frame)@, frame0, filled0, c2) by {
                if c2 == nc as int {
                    assert(copied_from_seed(old(frame)@, frame0, filled0, c as int));
                    let i0 = choose|i0: int| 0 <= i0 < filled0.len() && #[trigger] filled0[i0]
                        && old(frame)@[3 * c] == frame0[3 * i0]
                        && old(frame)@[3 * c + 1] == frame0[3 * i0 + 1]
                        && old(frame)@[3 * c + 2] == frame0[3 * i0 + 2];
                    assert(frame@[3 * c2] == frame0[3 * i0]);
                    assert(frame@[3 * c2 + 1] == frame0[3 * i0 + 1]);
                    assert(frame@[3 * c2 + 2] == frame0[3 * i0 + 2]);
                } else {
                    assert(copied_from_seed(old(frame)@, frame0, filled0, c2));
                    let i0 = choose|i0: int| 0 <= i0 < filled0.len() && #[trigger] filled0[i0]
                        && old(frame)@[3 * c2] == frame0[3 * i0]
                        && old(frame)@[3 * c2 + 1] == frame0[3 * i0 + 1]
                        && old(frame)@[3 * c2 + 2] == frame0[3 * i0 + 2];
                    assert(frame@[3 * c2] == frame0[3 * i0]);
                    assert(frame@[3 * c2 + 1] == frame0[3 * i0 + 1]);
                    assert(frame@[3 * c2 + 2] == frame0[3 * i0 + 2]);
                }
            }
            assert forall|c2: int| 0 <= c2 < size && final(filled)@[c2]
                implies #[trigger] in_queue(final(queue)@, c2) by {
                if c2 == nc as int {
                    assert(final(queue)@[final(queue)@.len() - 1] as int == c2);
                } else {
                    assert(old(filled)@[c2]);
                    assert(in_queue(old(queue)@, c2));
                    let j0 = choose|j: int| 0 <= j < old(queue)@.len()
                        && #[trigger] old(queue)@[j] as int == c2;
                    assert(final(queue)@[j0] as int == c2);
                }
            }
        }
    }
}

/// Resolve every unfilled cell by breadth-first propagation from the filled
/// ones: seed a queue with all filled cells in row-major order, then
/// repeatedly pop a cell and copy its color into each unfilled 4-neighbor.
/// If any cell starts filled, every cell ends filled.
#[verifier::rlimit(100)]
fn fill_holes(frame: &mut Vec<u8>, filled: &mut Vec<bool>, w: usize, h: usize)
    requires
        0 < w <= 65535,
        0 < h <= 65535,
        (w * h) as int <= 0x0fff_ffff,
        old(filled)@.len() == (w * h) as int,
        old(frame)@.len() == 3 * (w * h) as int,
    ensures
        final(frame)@.len() == old(frame)@.len(),
        final(filled)@.len() == old(filled)@.len(),
        forall|i: int| 0 <= i < (w * h) as int && #[trigger] old(filled)@[i]
            ==> final(filled)@[i]
                && final(frame)@[3 * i] == old(frame)@[3 * i]
                && final(frame)@[3 * i + 1] == old(frame)@[3 * i + 1]
                && final(frame)@[3 * i + 2] == old(frame)@[3 * i + 2],
        forall|i: int| 0 <= i < (w * h) as int && final(filled)@[i]
            ==> #[trigger] copied_from_seed(final(frame)@, old(frame)@, old(filled)@, i),
        any_filled(old(filled)@) ==> forall|i: int| 0 <= i < (w * h) as int
            ==> #[trigger] final(filled)@[i],
{
    let size: usize = w * h;
    let ghost frame0: Seq<u8> = frame@;
    let ghost filled0: Seq<bool> = filled@;
    let ghost wi: int = w as int;
    let ghost hi: int = h as int;

    let mut queue: Vec<usize> = Vec::new();
    let mut i: usize = 0;
    while i < size
        invariant
            size == wi * hi,
            filled@ == filled0,
            filled@.len() == size,
            i <= size,
            forall|j: int| 0 <= j < queue@.len()
                ==> #[trigger] queue@[j] < size && filled@[queue@[j] as int],
            forall|c: int| 0 <= c < i && filled@[c] ==> #[trigger] in_queue(queue@, c),
        decreases size - i,
    {
        if filled[i] {
            let ghost q0: Seq<usize> = queue@;
            queue.push(i);
            proof {
                assert(queue@[queue@.len() - 1] as int == i as int);
                assert forall|c: int| 0 <= c < i + 1 && filled@[c]
                    implies #[trigger] in_queue(queue@, c) by {
                    if c < i {
                        assert(in_queue(q0, c));
                        let j0 = choose|j: int| 0 <= j < q0.len()
                            && #[trigger] q0[j] as int == c;
                        assert(queue@[j0] as int == c);
                    }
                }
            }
        }
        i = i + 1;
    }

    let mut head: usize = 0;
    while head < queue.len()
        invariant
            0 < w <= 65535,
            0 < h <= 65535,
            size == wi * hi,
            wi == w as int,
            hi == h as int,
            size <= 0x0fff_ffff,
            filled@.len() == size,
            frame@.len() == 3 * size,
            filled0.len() == size,
            frame0.len() == 3 * size,
            head <= queue@.len(),
            forall|j: int| 0 <= j < queue@.len()
                ==> #[trigger] queue@[j] < size && filled@[queue@[j] as int],
            forall|c: int| 0 <= c < size && filled@[c] ==> #[trigger] in_queue(queue@, c),
            forall|j: int| 0 <= j < head
                ==> #[trigger] nbrs_filled(filled@, wi, hi, queue@[j] as int),
            forall|c: int| 0 <= c < size && #[trigger] filled0[c]
                ==> filled@[c]
                    && frame@[3 * c] == frame0[3 * c]
                    && frame@[3 * c + 1] == frame0[3 * c + 1]
                    && frame@[3 * c + 2] == frame0[3 * c + 2],
            forall|c: int| 0 <= c < size && filled@[c]
                ==> #[trigger] copied_from_seed(frame@, frame0, filled0, c),
        decreases count_false(filled@), queue@.len() - head,
    {
        proof {
            lemma_count_false_nonneg(filled@);
        }
        let ghost filled_h: Seq<bool> = filled@;
        let ghost queue_h: Seq<usize> = queue@;
        let c: usize = queue[head];
        let cx: usize = c % w;
        let cy: usize = c / w;
        proof {
            lemma_mod_bound(c as int, wi);
            assert(0 <= c as int / wi && c as int / wi < hi) by (nonlinear_arith)
                requires 0 <= c && (c as int) < wi * hi, 0 < wi;
            lemma_fundamental_div_mod(c as int, wi);
        }
        if cx + 1 < w {
            proof {
                assert(c as int + 1 < wi * hi) by (nonlinear_arith)
                    requires c as int == wi * (c as int / wi) + (c as int % wi),
                        0 <= c as int % wi < wi - 1, 0 <= c as int / wi < hi, 0 < wi;
            }
            let ghost fp: Seq<bool> = filled@;
            propagate_cell(frame, filled, &mut queue, c, c + 1, Ghost(frame0), Ghost(filled0),
                Ghost(size as int));
            proof {
                if !fp[c as int + 1] {
                    lemma_count_false_set_true(fp, c as int + 1);
                    assert(count_false(filled@) < count_false(fp));
                } else {
                    assert(filled@ == fp);
                }
            }
        }
        assert(cx + 1 < w ==> filled@[c as int + 1]);
        if cx > 0 {
            proof {
                assert(c as int >= 1) by (nonlinear_arith)
                    requires c as int == wi * (c as int / wi) + (c as int % wi),
                        1 <= c as int % wi, 0 <= c as int / wi, 0 < wi;
            }
            let ghost fp: Seq<bool> = filled@;
            propagate_cell(frame, filled, &mut queue, c, c - 1, Ghost(frame0), Ghost(filled0),
                Ghost(size as int));
            proof {
                if !fp[c as int - 1] {
                    lemma_count_false_set_true(fp, c as int - 1);
                    assert(count_false(filled@) < count_false(fp));
                } else {
                    assert(filled@ == fp);
                }
            }
        }
        assert(cx + 1 < w ==> filled@[c as int + 1]);
        assert(cx > 0 ==> filled@[c as int - 1]);
        if cy + 1 < h {
            proof {
                assert(c as int + wi < wi * hi) by (nonlinear_arith)
                    requires c as int == wi * (c as int / wi) + (c as int % wi),
                        0 <= c as int % wi < wi, c as int / wi < hi - 1, 0 < wi;
            }
            let ghost fp: Seq<bool> = filled@;
            propagate_cell(frame, filled, &mut queue, c, c + w, Ghost(frame0), Ghost(filled0),
                Ghost(size as int));
            proof {
                if !fp[c as int + wi] {
                    lemma_count_false_set_true(fp, c as int + wi);
                    assert(count_false(filled@) < count_false(fp));
                } else {
                    assert(filled@ == fp);
                }
            }
        }
        assert(cx + 1 < w ==> filled@[c as int + 1]);
        assert(cx > 0 ==> filled@[c as int - 1]);
        assert(cy + 1 < h ==> filled@[c as int + wi]);
        if cy > 0 {
            proof {
                assert(c as int - wi >= 0) by (nonlinear_arith)
                    requires c as int == wi * (c as int / wi) + (c as int % wi),
                        0 <= c as int % wi, 1 <= c as int / wi, 0 < wi;
            }
            let ghost fp: Seq<bool> = filled@;
            propagate_cell(frame, filled, &mut queue, c, c - w, Ghost(frame0), Ghost(filled0),
                Ghost(size as int));
            proof {
                if !fp[c as int - wi] {
                    lemma_count_false_set_true(fp, c as int - wi);
                    assert(count_false(filled@) < count_false(fp));
                } else {
                    assert(filled@ == fp);
                }
            }
        }
        assert(cx + 1 < w ==> filled@[c as int + 1]);
        assert(cx > 0 ==> filled@[c as int - 1]);
        assert(cy + 1 < h ==> filled@[c as int + wi]);
        assert(cy > 0 ==> filled@[c as int - wi]);
        proof {
            lemma_count_false_nonneg(filled@);
            assert(forall|i2: int| 0 <= i2 < size && filled_h[i2] ==> #[trigger] filled@[i2]);
            assert(count_false(filled@) <= count_false(filled_h)
                && (filled@ == filled_h || count_false(filled@) < count_false(filled_h)));
            assert(filled@ == filled_h ==> queue@ == queue_h);
            lemma_assemble_nbrs(filled@, wi, hi, c as int, cx as int, cy as int);
            assert(nbrs_filled(filled@, wi, hi, c as int));
            assert forall|j: int| 0 <= j < head as int + 1
                implies #[trigger] nbrs_filled(filled@, wi, hi, queue@[j] as int) by {
                if j < head as int {
                    assert(queue@[j] == queue_h[j]);
                    assert(nbrs_filled(filled_h, wi, hi, queue_h[j] as int));
                    lemma_nbrs_monotone(filled_h, filled@, wi, hi, queue_h[j] as int);
                }
            }
        }
        head = head + 1;
    }

    proof {
        if any_filled(filled0) {
            let s0 = choose|k: int| 0 <= k < filled0.len() && #[trigger] filled0[k];
            assert(filled@[s0]);
            lemma_fundamental_div_mod(s0, wi);
            lemma_mod_bound(s0, wi);
            let sx = s0 % wi;
            let sy = s0 / wi;
            assert(0 <= sy < hi) by (nonlinear_arith)
                requires 0 <= s0 < wi * hi, s0 == wi * (s0 / wi) + (s0 % wi),
                    0 <= s0 % wi < wi, 0 < wi, sy == s0 / wi;
            assert(s0 == sy * wi + sx) by (nonlinear_arith)
                requires s0 == wi * (s0 / wi) + (s0 % wi), sx == s0 % wi, sy == s0 / wi;
            assert forall|c2: int| 0 <= c2 < size && filled@[c2]
                implies #[trigger] nbrs_filled(filled@, wi, hi, c2) by {
                assert(in_queue(queue@, c2));
                let j0 = choose|j: int| 0 <= j < queue@.len()
                    && #[trigger] queue@[j] as int == c2;
                assert(nbrs_filled(filled@, wi, hi, queue@[j0] as int));
            }
            assert forall|i2: int| 0 <= i2 < size implies #[trigger] filled@[i2] by {
                lemma_fundamental_div_mod(i2, wi);
                lemma_mod_bound(i2, wi);
                let ix = i2 % wi;
                let iy = i2 / wi;
                assert(0 <= iy < hi) by (nonlinear_arith)
                    requires 0 <= i2 < wi * hi, i2 == wi * (i2 / wi) + (i2 % wi),
                        0 <= i2 % wi < wi, 0 < wi, iy == i2 / wi;
                lemma_closed_reach(filled@, wi, hi, sx, sy, ix, iy);
                assert(i2 == iy * wi + ix) by (nonlinear_arith)
                    requires i2 == wi * (i2 / wi) + (i2 % wi), ix == i2 % wi, iy == i2 / wi;
            }
        }
    }
}


/// Render one intermediate frame: splat every assigned source pixel toward
/// its position interpolated at time `t_num / T_ONE`, resolve each covered
/// cell to the rounded weighted average of the splats it received, and give
/// every uncovered cell the color of a covered one by breadth-first
/// propagation. The result is a row-major RGB byte raster.
#[verifier::rlimit(100)]
pub fn generate_interpolated_frame(
    source: &Vec<(u8, u8, u8)>,
    assignments: &Vec<usize>,
    width: u32,
    height: u32,
    t_num: u32,
) -> (frame: Vec<u8>)
    requires
        0 < width <= 65535,
        0 < height <= 65535,
        width as int * height as int <= 0x0fff_ffff,
        source@.len() == width as int * height as int,
        assignments@.len() == width as int * height as int,
        forall|s: int| 0 <= s < assignments@.len()
            ==> #[trigger] assignments@[s] < assignments@.len(),
        t_num <= T_ONE,
    ensures
        frame@.len() == 3 * width as int * height as int,
        forall|cx: int, cy: int| 0 <= cx < width as int && 0 <= cy < height as int
            && #[trigger] covered(assignments@, width as int, t_num as int, cx, cy)
            ==> frame@[3 * (cy * width as int + cx)]
                    == resolved_chan(assignments@, source@, width as int, t_num as int,
                        cx, cy, 0)
                && frame@[3 * (cy * width as int + cx) + 1]
                    == resolved_chan(assignments@, source@, width as int, t_num as int,
                        cx, cy, 1)
                && frame@[3 * (cy * width as int + cx) + 2]
                    == resolved_chan(assignments@, source@, width as int, t_num as int,
                        cx, cy, 2),
        some_covered(assignments@, width as int, height as int, t_num as int)
            ==> forall|i: int| 0 <= i < width as int * height as int
                ==> #[trigger] cell_from_covered(frame@, assignments@, source@,
                    width as int, height as int, t_num as int, i),
{
    let w: usize = width as usize;
    let h: usize = height as usize;
    let size: usize = w * h;
    let ghost wi: int = w as int;
    let ghost hi: int = h as int;
    let ghost tqi: int = t_num as int;
    let ghost asg: Seq<usize> = assignments@;
    let ghost src: Seq<(u8, u8, u8)> = source@;

    let mut acc = Accum {
        red: Vec::new(),
        green: Vec::new(),
        blue: Vec::new(),
        weight: Vec::new(),
    };
    let mut k: usize = 0;
    while k < size
        invariant
            k <= size,
            acc.red@.len() == k,
            acc.green@.len() == k,
            acc.blue@.len() == k,
            acc.weight@.len() == k,
            forall|i: int| 0 <= i < k ==> #[trigger] acc.weight@[i] == 0,
            forall|i: int| 0 <= i < k ==> #[trigger] acc.red@[i] == 0,
            forall|i: int| 0 <= i < k ==> #[trigger] acc.green@[i] == 0,
            forall|i: int| 0 <= i < k ==> #[trigger] acc.blue@[i] == 0,
        decreases size - k,
    {
        acc.red.push(0);
        acc.green.push(0);
        acc.blue.push(0);
        acc.weight.push(0);
        k = k + 1;
    }

    let mut s: usize = 0;
    while s < size
        invariant
            0 < w <= 65535,
            0 < h <= 65535,
            wi == w as int,
            hi == h as int,
            size == wi * hi,
            size <= 0x0fff_ffff,
            tqi == t_num as int,
            t_num <= T_ONE,
            asg == assignments@,
            src == source@,
            asg.len() == size,
            src.len() == size,
            forall|s2: int| 0 <= s2 < asg.len() ==> #[trigger] asg[s2] < asg.len(),
            s <= size,
            acc.wf(size as int),
            forall|i: int| 0 <= i < size as int
                ==> #[trigger] acc.weight@[i] as int
                    == acc_w_upto(asg, wi, tqi, i % wi, i / wi, s as int),
            forall|i: int, j: int| 0 <= i < size as int && 0 <= j < 3
                ==> #[trigger] acc.ch(j)[i] as int
                    == acc_c_upto(asg, src, wi, tqi, i % wi, i / wi, j, s as int),
        decreases size - s,
    {
        let o: usize = assignments[s];
        let col: (u8, u8, u8) = source[o];
        proof {
            assert forall|i: int| 0 <= i < size as int
                implies #[trigger] acc.weight@[i] as int
                    <= ACC_CAP as int - T_ONE_4 as int by {
                lemma_acc_upto_bounds(asg, src, wi, tqi, i % wi, i / wi, s as int);
                assert(s as int * (T_ONE_4 as int) <= 0x0fff_ffff * (T_ONE_4 as int))
                    by (nonlinear_arith)
                    requires s as int <= 0x0fff_ffff;
            }
            assert forall|i: int, j: int| 0 <= i < size as int && 0 <= j < 3
                implies #[trigger] acc.ch(j)[i] as int
                    <= 255 * (acc.weight@[i] as int) by {
                lemma_acc_upto_bounds(asg, src, wi, tqi, i % wi, i / wi, s as int);
            }
        }
        splat_point(&mut acc, w, h, o, s, t_num, col);
        s = s + 1;
    }

    let mut frame: Vec<u8> = Vec::new();
    let mut filled: Vec<bool> = Vec::new();
    let mut i: usize = 0;
    while i < size
        invariant
            0 < w <= 65535,
            0 < h <= 65535,
            wi == w as int,
            hi == h as int,
            size == wi * hi,
            size <= 0x0fff_ffff,
            tqi == t_num as int,
            t_num <= T_ONE,
            asg == assignments@,
            src == source@,
            asg.len() == size,
            src.len() == size,
            i <= size,
            acc.wf(size as int),
            forall|i2: int| 0 <= i2 < size as int
                ==> #[trigger] acc.weight@[i2] as int
                    == acc_w_upto(asg, wi, tqi, i2 % wi, i2 / wi, size as int),
            forall|i2: int, j: int| 0 <= i2 < size as int && 0 <= j < 3
                ==> #[trigger] acc.ch(j)[i2] as int
                    == acc_c_upto(asg, src, wi, tqi, i2 % wi, i2 / wi, j, size as int),
            frame@.len() == 3 * i,
            filled@.len() == i,
            forall|k2: int| 0 <= k2 < i
                ==> #[trigger] filled@[k2] == covered(asg, wi, tqi, k2 % wi, k2 / wi),
            forall|k2: int| 0 <= k2 < i && #[trigger] filled@[k2]
                ==> frame@[3 * k2] == resolved_chan(asg, src, wi, tqi, k2 % wi, k2 / wi, 0)
                    && frame@[3 * k2 + 1]
                        == resolved_chan(asg, src, wi, tqi, k2 % wi, k2 / wi, 1)
                    && frame@[3 * k2 + 2]
                        == resolved_chan(asg, src, wi, tqi, k2 % wi, k2 / wi, 2),
        decreases size - i,
    {
        let wv: u128 = acc.weight[i];
        proof {
            lemma_acc_upto_bounds(asg, src, wi, tqi, i as int % wi, i as int / wi,
                size as int);
        }
        if wv > 0 {
            proof {
                assert(acc.ch(0)[i as int] == acc.red@[i as int]);
                assert(acc.ch(1)[i as int] == acc.green@[i as int]);
                assert(acc.ch(2)[i as int] == acc.blue@[i as int]);
                assert(size as int * (T_ONE_4 as int) <= 0x0fff_ffff * (T_ONE_4 as int))
                    by (nonlinear_arith)
                    requires size as int <= 0x0fff_ffff;
            }
            let rv: u8 = resolve_channel(acc.red[i], wv);
            let gv: u8 = resolve_channel(acc.green[i], wv);
            let bv: u8 = resolve_channel(acc.blue[i], wv);
            frame.push(rv);
            frame.push(gv);
            frame.push(bv);
            filled.push(true);
        } else {
            frame.push(0);
            frame.push(0);
            frame.push(0);
            filled.push(false);
        }
        i = i + 1;
    }

    let ghost frame_resolved: Seq<u8> = frame@;
    let ghost filled_resolved: Seq<bool> = filled@;
    fill_holes(&mut frame, &mut filled, w, h);
    proof {
        if some_covered(asg, wi, hi, tqi) {
            let (cx0, cy0) = choose|cx: int, cy: int| 0 <= cx < wi && 0 <= cy < hi
                && #[trigger] covered(asg, wi, tqi, cx, cy);
            let i0 = cy0 * wi + cx0;
            assert(0 <= i0 < wi * hi) by (nonlinear_arith)
                requires 0 <= cx0 < wi, 0 <= cy0 < hi, i0 == cy0 * wi + cx0;
            lemma_fundamental_div_mod_converse(i0, wi, cy0, cx0);
            assert(filled_resolved[i0]);
            assert(any_filled(filled_resolved));
            assert forall|i2: int| 0 <= i2 < wi * hi
                implies #[trigger] cell_from_covered(frame@, asg, src, wi, hi, tqi, i2) by {
                assert(filled@[i2]);
                assert(copied_from_seed(frame@, frame_resolved, filled_resolved, i2));
                let k0 = choose|k0: int| 0 <= k0 < filled_resolved.len()
                    && #[trigger] filled_resolved[k0]
                    && frame@[3 * i2] == frame_resolved[3 * k0]
                    && frame@[3 * i2 + 1] == frame_resolved[3 * k0 + 1]
                    && frame@[3 * i2 + 2] == frame_resolved[3 * k0 + 2];
                lemma_fundamental_div_mod(k0, wi);
                lemma_mod_bound(k0, wi);
                let kx = k0 % wi;
                let ky = k0 / wi;
                assert(0 <= ky < hi) by (nonlinear_arith)
                    requires 0 <= k0 < wi * hi, k0 == wi * (k0 / wi) + (k0 % wi),
                        0 <= k0 % wi < wi, 0 < wi, ky == k0 / wi;
                assert(3 * k0 == 3 * (ky * wi + kx)) by (nonlinear_arith)
                    requires k0 == wi * (k0 / wi) + (k0 % wi), kx == k0 % wi, ky == k0 / wi;
                assert(covered(asg, wi, tqi, kx, ky));
                assert(frame@[3 * i2] == resolved_chan(asg, src, wi, tqi, kx, ky, 0));
                assert(frame@[3 * i2 + 1] == resolved_chan(asg, src, wi, tqi, kx, ky, 1));
                assert(frame@[3 * i2 + 2] == resolved_chan(asg, src, wi, tqi, kx, ky, 2));
            }
        }
        assert forall|cx: int, cy: int| 0 <= cx < wi && 0 <= cy < hi
            && #[trigger] covered(asg, wi, tqi, cx, cy)
            implies frame@[3 * (cy * wi + cx)] == resolved_chan(asg, src, wi, tqi, cx, cy, 0)
                && frame@[3 * (cy * wi + cx) + 1]
                    == resolved_chan(asg, src, wi, tqi, cx, cy, 1)
                && frame@[3 * (cy * wi + cx) + 2]
                    == resolved_chan(asg, src, wi, tqi, cx, cy, 2) by {
            let i2 = cy * wi + cx;
            assert(0 <= i2 < wi * hi) by (nonlinear_arith)
                requires 0 <= cx < wi, 0 <= cy < hi, i2 == cy * wi + cx;
            lemma_fundamental_div_mod_converse(i2, wi, cy, cx);
            assert(filled_resolved[i2]);
            assert(frame_resolved[3 * i2] == resolved_chan(asg, src, wi, tqi, cx, cy, 0));
            assert(frame@[3 * i2] == frame_resolved[3 * i2]);
            assert(frame@[3 * i2 + 1] == frame_resolved[3 * i2 + 1]);
            assert(frame@[3 * i2 + 2] == frame_resolved[3 * i2 + 2]);
        }
    }
    proof {
        assert(3 * (wi * hi) == 3 * wi * hi) by (nonlinear_arith);
    }
    frame
}

/// Round the accumulated channel to the nearest integer of its weighted
/// average (halves rounding up); the result always fits a color channel.
fn resolve_channel(cc: u128, wv: u128) -> (r: u8)
    requires
        0 < wv,
        cc <= 255 * wv,
        wv <= ACC_CAP,
    ensures
        r as int == (2 * cc + wv) as int / (2 * wv) as int,
{
    let q: u128 = (2 * cc + wv) / (2 * wv);
    proof {
        lemma_fundamental_div_mod(2 * (cc as int) + wv as int, 2 * (wv as int));
        lemma_mod_bound(2 * (cc as int) + wv as int, 2 * (wv as int));
        assert(q as int <= 255) by (nonlinear_arith)
            requires 2 * (cc as int) + wv as int
                    == 2 * (wv as int) * (q as int)
                        + (2 * (cc as int) + wv as int) % (2 * (wv as int)),
                0 <= (2 * (cc as int) + wv as int) % (2 * (wv as int)),
                cc as int <= 255 * (wv as int),
                0 < wv as int;
    }
    q as u8
}


proof fn lemma_acc_w_nonneg(asg: Seq<usize>, w: int, tq: int, cx: int, cy: int, k: int)
    requires
        0 < w,
        0 <= tq <= T_ONE as int,
        k <= asg.len(),
    ensures
        0 <= acc_w_upto(asg, w, tq, cx, cy, k),
    decreases k,
{
    if k > 0 {
        lemma_acc_w_nonneg(asg, w, tq, cx, cy, k - 1);
        lemma_point_weight_bounds(asg[k - 1] as int, k - 1, w, tq);
    }
}

/// The accumulated weight is at least the weight of any single splat.
proof fn lemma_acc_w_lower(asg: Seq<usize>, w: int, tq: int, cx: int, cy: int, s: int, k: int)
    requires
        0 < w,
        0 <= tq <= T_ONE as int,
        0 <= s < k <= asg.len(),
    ensures
        acc_w_upto(asg, w, tq, cx, cy, k) >= point_weight(asg[s] as int, s, w, tq, cx, cy),
    decreases k,
{
    if k == s + 1 {
        lemma_acc_w_nonneg(asg, w, tq, cx, cy, s);
    } else {
        lemma_acc_w_lower(asg, w, tq, cx, cy, s, k - 1);
        lemma_point_weight_bounds(asg[k - 1] as int, k - 1, w, tq);
    }
}

/// A point whose interpolated position is strictly positive on both axes
/// gives a positive weight to some in-bounds cell.
proof fn lemma_point_covers(o: int, s: int, w: int, h: int, tq: int)
    requires
        2 <= w,
        2 <= h,
        0 <= tq <= T_ONE as int,
        0 <= o < w * h,
        0 <= s < w * h,
        fx_num(o, s, w, tq) >= 1,
        fy_num(o, s, w, tq) >= 1,
    ensures
        exists|cx: int, cy: int| 0 <= cx < w && 0 <= cy < h
            && #[trigger] point_weight(o, s, w, tq, cx, cy) > 0,
{
    let t1 = T_ONE as int;
    let fxn = fx_num(o, s, w, tq);
    let fyn = fy_num(o, s, w, tq);
    lemma_mod_bound(o, w);
    lemma_mod_bound(s, w);
    assert(0 <= o / w < h && 0 <= s / w < h) by (nonlinear_arith)
        requires 0 <= o < w * h, 0 <= s < w * h, 0 < w;
    assert(fxn <= (w - 1) * t1) by (nonlinear_arith)
        requires fxn == (o % w) * (t1 - tq) + (s % w) * tq,
            0 <= o % w <= w - 1, 0 <= s % w <= w - 1, 0 <= tq <= t1;
    assert(fyn <= (h - 1) * t1) by (nonlinear_arith)
        requires fyn == (o / w) * (t1 - tq) + (s / w) * tq,
            0 <= o / w <= h - 1, 0 <= s / w <= h - 1, 0 <= tq <= t1;
    lemma_fundamental_div_mod(fxn, t1);
    lemma_fundamental_div_mod(fyn, t1);
    lemma_mod_bound(fxn, t1);
    lemma_mod_bound(fyn, t1);
    let qx = fxn / t1;
    let qy = fyn / t1;
    let ax = fxn % t1;
    let ay = fyn % t1;
    assert(0 <= qx <= w - 1) by (nonlinear_arith)
        requires 1 <= fxn <= (w - 1) * t1, fxn == t1 * qx + ax, 0 <= ax < t1, 0 < t1;
    assert(0 <= qy <= h - 1) by (nonlinear_arith)
        requires 1 <= fyn <= (h - 1) * t1, fyn == t1 * qy + ay, 0 <= ay < t1, 0 < t1;
    let cx = if qx >= 1 { qx - 1 } else { 1int };
    let cy = if qy >= 1 { qy - 1 } else { 1int };
    assert(axis_weight(fxn, cx) > 0) by {
        if qx >= 1 {
            assert((t1 - ax) * (t1 - ax) > 0) by (nonlinear_arith) requires ax < t1;
        } else {
            assert(ax >= 1) by (nonlinear_arith)
                requires fxn >= 1, fxn == t1 * qx + ax, qx == 0;
            assert(ax * ax > 0) by (nonlinear_arith) requires ax >= 1;
        }
    }
    assert(axis_weight(fyn, cy) > 0) by {
        if qy >= 1 {
            assert((t1 - ay) * (t1 - ay) > 0) by (nonlinear_arith) requires ay < t1;
        } else {
            assert(ay >= 1) by (nonlinear_arith)
                requires fyn >= 1, fyn == t1 * qy + ay, qy == 0;
            assert(ay * ay > 0) by (nonlinear_arith) requires ay >= 1;
        }
    }
    assert(0 <= cx < w && 0 <= cy < h);
    assert(point_weight(o, s, w, tq, cx, cy) > 0) by (nonlinear_arith)
        requires point_weight(o, s, w, tq, cx, cy)
                == axis_weight(fx_num(o, s, w, tq), cx) * axis_weight(fy_num(o, s, w, tq), cy),
            axis_weight(fx_num(o, s, w, tq), cx) > 0,
            axis_weight(fy_num(o, s, w, tq), cy) > 0;
}

/// On a grid at least 2 by 2, a permutation always covers some cell, at any
/// time: combined with the renderer's contract, every cell of every rendered
/// frame carries the defined, in-range color of a covered cell.
pub proof fn lemma_permutation_covers(asg: Seq<usize>, w: int, h: int, tq: int)
    requires
        2 <= w,
        2 <= h,
        0 <= tq <= T_ONE as int,
        asg.len() == w * h,
        crate::solver::is_permutation(asg, (w * h) as nat),
    ensures
        some_covered(asg, w, h, tq),
{
    let n = w * h;
    assert(n >= 4) by (nonlinear_arith) requires 2 <= w, 2 <= h, n == w * h;
    let t1 = T_ONE as int;
    let last = n - 1;
    assert(last == (h - 1) * w + (w - 1)) by (nonlinear_arith)
        requires n == w * h, last == n - 1;
    lemma_fundamental_div_mod_converse(last, w, h - 1, w - 1);
    let s = if tq >= 1 {
        last
    } else {
        assert(crate::solver::appears(asg, last));
        choose|i: int| 0 <= i < asg.len() && #[trigger] asg[i] as int == last
    };
    let o = asg[s] as int;
    assert(0 <= o < n);
    lemma_mod_bound(o, w);
    assert(0 <= o / w < h && 0 <= s / w < h) by (nonlinear_arith)
        requires 0 <= o < w * h, 0 <= s < w * h, 0 < w;
    if tq >= 1 {
        assert(fx_num(o, s, w, tq) >= 1) by (nonlinear_arith)
            requires fx_num(o, s, w, tq) == (o % w) * (t1 - tq) + (s % w) * tq,
                0 <= o % w, s % w == w - 1, 1 <= w - 1, 1 <= tq <= t1;
        assert(fy_num(o, s, w, tq) >= 1) by (nonlinear_arith)
            requires fy_num(o, s, w, tq) == (o / w) * (t1 - tq) + (s / w) * tq,
                0 <= o / w, s / w == h - 1, 1 <= h - 1, 1 <= tq <= t1;
    } else {
        lemma_fundamental_div_mod_converse(o, w, h - 1, w - 1);
        assert(fx_num(o, s, w, tq) >= 1) by (nonlinear_arith)
            requires fx_num(o, s, w, tq) == (o % w) * (t1 - tq) + (s % w) * tq,
                o % w == w - 1, 1 <= w - 1, 0 <= s % w, tq == 0, 0 < t1;
        assert(fy_num(o, s, w, tq) >= 1) by (nonlinear_arith)
            requires fy_num(o, s, w, tq) == (o / w) * (t1 - tq) + (s / w) * tq,
                o / w == h - 1, 1 <= h - 1, 0 <= s / w, tq == 0, 0 < t1;
    }
    lemma_point_covers(o, s, w, h, tq);
    let (cx, cy) = choose|cx: int, cy: int| 0 <= cx < w && 0 <= cy < h
        && #[trigger] point_weight(o, s, w, tq, cx, cy) > 0;
    lemma_acc_w_lower(asg, w, tq, cx, cy, s, n);
    assert(covered(asg, w, tq, cx, cy));
}


/// At time zero a point splats its full weight one cell up and left of its
/// origin, and nothing anywhere else.
proof fn lemma_point_weight_at_zero(o: int, s: int, w: int, cx: int, cy: int)
    requires
        0 < w,
        0 <= o,
        0 <= s,
    ensures
        point_weight(o, s, w, 0, cx, cy)
            == if o % w == cx + 1 && o / w == cy + 1 { T_ONE_4 as int } else { 0 },
{
    let t1 = T_ONE as int;
    lemma_mod_bound(o, w);
    assert(0 <= o / w) by (nonlinear_arith) requires 0 <= o, 0 < w;
    assert(fx_num(o, s, w, 0) == (o % w) * t1) by (nonlinear_arith)
        requires fx_num(o, s, w, 0) == (o % w) * (t1 - 0) + (s % w) * 0;
    assert(fy_num(o, s, w, 0) == (o / w) * t1) by (nonlinear_arith)
        requires fy_num(o, s, w, 0) == (o / w) * (t1 - 0) + (s / w) * 0;
    lemma_fundamental_div_mod_converse((o % w) * t1, t1, o % w, 0);
    lemma_fundamental_div_mod_converse((o / w) * t1, t1, o / w, 0);
    let wx = axis_weight(fx_num(o, s, w, 0), cx);
    let wy = axis_weight(fy_num(o, s, w, 0), cy);
    assert(wx == if cx == o % w - 1 { t1 * t1 } else { 0int });
    assert(wy == if cy == o / w - 1 { t1 * t1 } else { 0int });
    if cx == o % w - 1 && cy == o / w - 1 {
        assert(t1 * t1 * (t1 * t1) == T_ONE_4 as int);
    } else {
        assert(wx * wy == 0) by (nonlinear_arith) requires wx == 0 || wy == 0;
    }
}

/// At time one a point splats its full weight one cell up and left of its
/// slot, and nothing anywhere else.
proof fn lemma_point_weight_at_one(o: int, s: int, w: int, cx: int, cy: int)
    requires
        0 < w,
        0 <= o,
        0 <= s,
    ensures
        point_weight(o, s, w, T_ONE as int, cx, cy)
            == if s % w == cx + 1 && s / w == cy + 1 { T_ONE_4 as int } else { 0 },
{
    let t1 = T_ONE as int;
    lemma_mod_bound(s, w);
    assert(0 <= s / w) by (nonlinear_arith) requires 0 <= s, 0 < w;
    assert(fx_num(o, s, w, t1) == (s % w) * t1) by (nonlinear_arith)
        requires fx_num(o, s, w, t1) == (o % w) * (t1 - t1) + (s % w) * t1;
    assert(fy_num(o, s, w, t1) == (s / w) * t1) by (nonlinear_arith)
        requires fy_num(o, s, w, t1) == (o / w) * (t1 - t1) + (s / w) * t1;
    lemma_fundamental_div_mod_converse((s % w) * t1, t1, s % w, 0);
    lemma_fundamental_div_mod_converse((s / w) * t1, t1, s / w, 0);
    let wx = axis_weight(fx_num(o, s, w, t1), cx);
    let wy = axis_weight(fy_num(o, s, w, t1), cy);
    assert(wx == if cx == s % w - 1 { t1 * t1 } else { 0int });
    assert(wy == if cy == s / w - 1 { t1 * t1 } else { 0int });
    if cx == s % w - 1 && cy == s / w - 1 {
        assert(t1 * t1 * (t1 * t1) == T_ONE_4 as int);
    } else {
        assert(wx * wy == 0) by (nonlinear_arith) requires wx == 0 || wy == 0;
    }
}

/// When exactly one splat reaches a cell, the accumulated sums are exactly
/// that splat's weight and weighted color.
proof fn lemma_acc_single(
    asg: Seq<usize>,
    src: Seq<(u8, u8, u8)>,
    w: int,
    tq: int,
    cx: int,
    cy: int,
    s0: int,
    k: int,
)
    requires
        0 <= s0 < asg.len(),
        0 <= k <= asg.len(),
        forall|s: int| 0 <= s < asg.len()
            ==> #[trigger] point_weight(asg[s] as int, s, w, tq, cx, cy)
                == if s == s0 { T_ONE_4 as int } else { 0 },
    ensures
        acc_w_upto(asg, w, tq, cx, cy, k) == if s0 < k { T_ONE_4 as int } else { 0 },
        forall|j: int| 0 <= j < 3
            ==> #[trigger] acc_c_upto(asg, src, w, tq, cx, cy, j, k)
                == if s0 < k { (T_ONE_4 as int) * chan(src[asg[s0] as int], j) } else { 0 },
    decreases k,
{
    if k > 0 {
        lemma_acc_single(asg, src, w, tq, cx, cy, s0, k - 1);
        assert forall|j: int| 0 <= j < 3
            implies #[trigger] acc_c_upto(asg, src, w, tq, cx, cy, j, k)
                == if s0 < k { (T_ONE_4 as int) * chan(src[asg[s0] as int], j) }
                    else { 0 } by {
            let pw = point_weight(asg[k - 1] as int, k - 1, w, tq, cx, cy);
            assert(acc_c_upto(asg, src, w, tq, cx, cy, j, k)
                == acc_c_upto(asg, src, w, tq, cx, cy, j, k - 1)
                    + pw * chan(src[asg[k - 1] as int], j));
            if k - 1 == s0 {
                assert(pw == T_ONE_4 as int);
                assert(acc_c_upto(asg, src, w, tq, cx, cy, j, k - 1) == 0);
            } else {
                assert(pw == 0);
                assert(0 * chan(src[asg[k - 1] as int], j) == 0) by (nonlinear_arith);
            }
        }
    }
}

/// The rounded average of a single full-weight splat is exactly its color.
proof fn lemma_resolved_single(cw: int, c: int)
    requires
        cw == T_ONE_4 as int,
        0 <= c <= 255,
    ensures
        (2 * (cw * c) + cw) / (2 * cw) == c,
{
    assert(2 * (cw * c) + cw == c * (2 * cw) + cw) by (nonlinear_arith);
    lemma_fundamental_div_mod_converse(2 * (cw * c) + cw, 2 * cw, c, cw);
}

/// The last frame of the morph shows the permutation applied to the grid
/// exactly, shifted one cell up and left by the kernel's window: at time one
/// the cell `(cx, cy)` resolves to the color of the source pixel assigned to
/// the slot `(cx + 1, cy + 1)`, with no blur.
pub proof fn lemma_last_frame_is_permuted_grid(
    asg: Seq<usize>,
    src: Seq<(u8, u8, u8)>,
    w: int,
    h: int,
    cx: int,
    cy: int,
)
    requires
        0 < w,
        0 < h,
        asg.len() == w * h,
        forall|s: int| 0 <= s < asg.len() ==> #[trigger] asg[s] < asg.len(),
        0 <= cx < w - 1,
        0 <= cy < h - 1,
    ensures
        covered(asg, w, T_ONE as int, cx, cy),
        forall|j: int| 0 <= j < 3
            ==> #[trigger] resolved_chan(asg, src, w, T_ONE as int, cx, cy, j)
                == chan(src[asg[(cy + 1) * w + (cx + 1)] as int], j),
{
    let n = w * h;
    let s0 = (cy + 1) * w + (cx + 1);
    assert(0 <= s0 < n) by (nonlinear_arith)
        requires 0 <= cx < w - 1, 0 <= cy < h - 1, s0 == (cy + 1) * w + (cx + 1), n == w * h;
    lemma_fundamental_div_mod_converse(s0, w, cy + 1, cx + 1);
    assert forall|s: int| 0 <= s < asg.len()
        implies #[trigger] point_weight(asg[s] as int, s, w, T_ONE as int, cx, cy)
            == if s == s0 { T_ONE_4 as int } else { 0 } by {
        lemma_point_weight_at_one(asg[s] as int, s, w, cx, cy);
        if s != s0 && s % w == cx + 1 && s / w == cy + 1 {
            lemma_fundamental_div_mod(s, w);
        }
    }
    lemma_acc_single(asg, src, w, T_ONE as int, cx, cy, s0, n);
    assert forall|j: int| 0 <= j < 3
        implies #[trigger] resolved_chan(asg, src, w, T_ONE as int, cx, cy, j)
            == chan(src[asg[s0] as int], j) by {
        lemma_resolved_single(T_ONE_4 as int, chan(src[asg[s0] as int], j));
    }
}

/// The first frame of the morph shows the source image exactly, shifted one
/// cell up and left by the kernel's window, whatever the permutation: at
/// time zero the cell `(cx, cy)` resolves to the color of the source pixel
/// at `(cx + 1, cy + 1)`, with no blur.
pub proof fn lemma_first_frame_is_source(
    asg: Seq<usize>,
    src: Seq<(u8, u8, u8)>,
    w: int,
    h: int,
    cx: int,
    cy: int,
)
    requires
        0 < w,
        0 < h,
        asg.len() == w * h,
        crate::solver::is_permutation(asg, (w * h) as nat),
        0 <= cx < w - 1,
        0 <= cy < h - 1,
    ensures
        covered(asg, w, 0, cx, cy),
        forall|j: int| 0 <= j < 3
            ==> #[trigger] resolved_chan(asg, src, w, 0, cx, cy, j)
                == chan(src[(cy + 1) * w + (cx + 1)], j),
{
    let n = w * h;
    let o0 = (cy + 1) * w + (cx + 1);
    assert(0 <= o0 < n) by (nonlinear_arith)
        requires 0 <= cx < w - 1, 0 <= cy < h - 1, o0 == (cy + 1) * w + (cx + 1), n == w * h;
    lemma_fundamental_div_mod_converse(o0, w, cy + 1, cx + 1);
    assert(crate::solver::appears(asg, o0));
    let s0 = choose|i: int| 0 <= i < asg.len() && #[trigger] asg[i] as int == o0;
    assert forall|s: int| 0 <= s < asg.len()
        implies #[trigger] point_weight(asg[s] as int, s, w, 0, cx, cy)
            == if s == s0 { T_ONE_4 as int } else { 0 } by {
        lemma_point_weight_at_zero(asg[s] as int, s, w, cx, cy);
        if s != s0 && asg[s] as int % w == cx + 1 && asg[s] as int / w == cy + 1 {
            lemma_fundamental_div_mod(asg[s] as int, w);
            assert(asg[s] as int == o0);
            assert(false);
        }
    }
    lemma_acc_single(asg, src, w, 0, cx, cy, s0, n);
    assert forall|j: int| 0 <= j < 3
        implies #[trigger] resolved_chan(asg, src, w, 0, cx, cy, j)
            == chan(src[(cy + 1) * w + (cx + 1)], j) by {
        lemma_resolved_single(T_ONE_4 as int, chan(src[asg[s0] as int], j));
        assert(asg[s0] as int == o0);
    }
}

} // verus!
