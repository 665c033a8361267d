//! Assignment solver: a greedy local search over pairwise slot swaps with a
//! shrinking candidate radius. It produces a permutation that tells, for
//! every output grid cell, which source pixel occupies it.

use vstd::prelude::*;
use vstd::arithmetic::div_mod::lemma_fundamental_div_mod_converse;
use vstd::arithmetic::div_mod::lemma_mod_bound;
use crate::cost::calculate_heuristic;
use crate::cost::heuristic_spec;
use crate::cost::Pixel;
use crate::rng::rand_below;
use crate::rng::rand_in_range;
use crate::rng::rand_with_seed;

verus! {

/// Fixed color weight of the cost model.
pub const COLOR_WEIGHT: i64 = 2;

/// Largest admitted proximity importance; keeps every swap gain within `i64`.
pub const MAX_PROXIMITY: i64 = 500_000_000;

/// Largest cost a record can carry under the admitted weights:
/// `195075 * COLOR_WEIGHT + 8589672450 * MAX_PROXIMITY`.
pub const MAX_COST: i64 = 4_294_836_225_000_390_150;

/// Grid coordinates of the cell with linear index `s` in a grid `w` wide.
pub open spec fn slot_xy(s: int, w: int) -> (u16, u16) {
    (((s % w) as u16), ((s / w) as u16))
}

/// Linear index of the cell a record was created at.
pub open spec fn origin_of(p: Pixel, w: int) -> int {
    p.src_y as int * w + p.src_x as int
}

/// Cost that placing the source pixel `origin` into the slot `s` incurs.
pub open spec fn slot_cost(
    origin: int,
    s: int,
    source: Seq<(u8, u8, u8)>,
    target: Seq<(u8, u8, u8)>,
    w: int,
    prox: int,
) -> int {
    heuristic_spec(
        slot_xy(origin, w),
        slot_xy(s, w),
        source[origin],
        target[s],
        COLOR_WEIGHT as int,
        prox,
    )
}

/// Total cost of an assignment: the sum over every slot of the cost of the
/// source pixel assigned to it.
pub open spec fn total_cost(
    asg: Seq<usize>,
    source: Seq<(u8, u8, u8)>,
    target: Seq<(u8, u8, u8)>,
    w: int,
    prox: int,
) -> int
    decreases asg.len(),
{
    if asg.len() == 0 {
        0
    } else {
        total_cost(asg.drop_last(), source, target, w, prox)
            + slot_cost(asg.last() as int, asg.len() - 1, source, target, w, prox)
    }
}

/// The assignment that leaves every source pixel in its own cell.
pub open spec fn identity_assignment(n: nat) -> Seq<usize> {
    Seq::new(n, |i: int| i as usize)
}

/// Some slot is assigned the source index `v`.
pub open spec fn appears(asg: Seq<usize>, v: int) -> bool {
    exists|i: int| 0 <= i < asg.len() && #[trigger] asg[i] as int == v
}

/// `asg` is a true bijection over `[0, n)`: every entry is a valid index,
/// no index appears twice, and every index appears.
pub open spec fn is_permutation(asg: Seq<usize>, n: nat) -> bool {
    &&& asg.len() == n
    &&& forall|s: int| 0 <= s < n ==> asg[s] < n
    &&& forall|i: int, j: int| 0 <= i < j < n ==> asg[i] != asg[j]
    &&& forall|v: int| 0 <= v < n ==> #[trigger] appears(asg, v)
}

/// Well-formedness of one record sitting in slot `s`.
pub open spec fn pixel_ok(
    p: Pixel,
    s: int,
    source: Seq<(u8, u8, u8)>,
    target: Seq<(u8, u8, u8)>,
    w: int,
    prox: int,
) -> bool {
    &&& p.src_x < w
    &&& p.src_y < w
    &&& 0 <= origin_of(p, w) < w * w
    &&& p.rgb == source[origin_of(p, w)]
    &&& p.h == heuristic_spec(
        (p.src_x, p.src_y),
        slot_xy(s, w),
        p.rgb,
        target[s],
        COLOR_WEIGHT as int,
        prox,
    )
    &&& 0 <= p.h <= MAX_COST
}

/// Well-formedness of the whole working array: every record is consistent
/// with its slot, and the records' origins form a bijection over the grid.
pub open spec fn solver_inv(
    pixels: Seq<Pixel>,
    source: Seq<(u8, u8, u8)>,
    target: Seq<(u8, u8, u8)>,
    w: int,
    prox: int,
) -> bool {
    &&& pixels.len() == w * w
    &&& forall|s: int| 0 <= s < pixels.len()
        ==> pixel_ok(#[trigger] pixels[s], s, source, target, w, prox)
    &&& forall|i: int, j: int| 0 <= i < j < pixels.len()
        ==> origin_of(pixels[i], w) != origin_of(pixels[j], w)
    &&& forall|v: int| 0 <= v < pixels.len() ==> #[trigger] origin_appears(pixels, w, v)
}

/// Some record's origin is the cell with linear index `v`.
pub open spec fn origin_appears(pixels: Seq<Pixel>, w: int, v: int) -> bool {
    exists|i: int| 0 <= i < pixels.len() && #[trigger] origin_of(pixels[i], w) == v
}

/// Sum of the cached costs of all records.
pub open spec fn sum_h(s: Seq<Pixel>) -> int
    decreases s.len(),
{
    if s.len() == 0 {
        0
    } else {
        sum_h(s.drop_last()) + s.last().h
    }
}

proof fn lemma_sum_h_nonneg(s: Seq<Pixel>)
    requires
        forall|i: int| 0 <= i < s.len() ==> 0 <= #[trigger] s[i].h,
    ensures
        0 <= sum_h(s),
    decreases s.len(),
{
    if s.len() > 0 {
        lemma_sum_h_nonneg(s.drop_last());
    }
}

proof fn lemma_sum_h_update(s: Seq<Pixel>, i: int, v: Pixel)
    requires
        0 <= i < s.len(),
    ensures
        sum_h(s.update(i, v)) == sum_h(s) - s[i].h + v.h,
    decreases s.len(),
{
    if i == s.len() - 1 {
        assert(s.update(i, v).drop_last() =~= s.drop_last());
    } else {
        assert(s.update(i, v).drop_last() =~= s.drop_last().update(i, v));
        lemma_sum_h_update(s.drop_last(), i, v);
    }
}

/// The sum of the cached costs equals the total cost of the assignment that
/// the records describe.
proof fn lemma_sum_h_is_total_cost(
    pixels: Seq<Pixel>,
    asg: Seq<usize>,
    source: Seq<(u8, u8, u8)>,
    target: Seq<(u8, u8, u8)>,
    w: int,
    prox: int,
)
    requires
        0 < w,
        asg.len() == pixels.len(),
        pixels.len() <= w * w,
        forall|s: int| 0 <= s < pixels.len()
            ==> pixel_ok(#[trigger] pixels[s], s, source, target, w, prox),
        forall|s: int| 0 <= s < pixels.len() ==> asg[s] as int == origin_of(pixels[s], w),
    ensures
        sum_h(pixels) == total_cost(asg, source, target, w, prox),
    decreases pixels.len(),
{
    if pixels.len() > 0 {
        let k = pixels.len() - 1;
        lemma_sum_h_is_total_cost(pixels.drop_last(), asg.drop_last(), source, target, w, prox);
        let p = pixels[k];
        lemma_fundamental_div_mod_converse(
            origin_of(p, w), w, p.src_y as int, p.src_x as int);
        assert(slot_xy(asg[k] as int, w) == (p.src_x, p.src_y));
        assert(slot_cost(asg[k] as int, k, source, target, w, prox) == p.h);
    }
}

/// Compute the assignment of source pixels to output slots: a greedy local
/// search that repeatedly proposes swapping the records of two nearby slots
/// and accepts every swap that lowers the summed cost, while the candidate
/// radius shrinks by one percent per generation (never below 2). It stops
/// when the radius has fallen below 4 and a whole generation accepted fewer
/// than 10 swaps.
///
/// The result maps every output slot to the linear index of the source pixel
/// occupying it; it is a bijection over the grid, and its total cost never
/// exceeds the cost of leaving every pixel in place.
#[verifier::rlimit(100)]
pub fn calculate_assignments(
    source: &Vec<(u8, u8, u8)>,
    target: &Vec<(u8, u8, u8)>,
    width: u32,
    proximity_importance: i64,
    seed: u64,
) -> (r: Vec<usize>)
    requires
        width <= 65535,
        source@.len() == width as int * width as int,
        target@.len() == width as int * width as int,
        0 <= proximity_importance <= MAX_PROXIMITY,
    ensures
        is_permutation(r@, (width as nat * width as nat)),
        total_cost(r@, source@, target@, width as int, proximity_importance as int)
            <= total_cost(
                identity_assignment((width as nat * width as nat)),
                source@, target@, width as int, proximity_importance as int),
{
    let w: usize = width as usize;
    proof {
        assert((width as int) * (width as int) <= 0xffff_ffff) by (nonlinear_arith)
            requires width <= 65535;
    }
    let n: usize = w * w;
    if n == 0 {
        assert(identity_assignment(0).len() == 0);
        return Vec::new();
    }
    proof {
        if n >= 2 {
            assert(w >= 2) by (nonlinear_arith) requires (w as int) * (w as int) >= 2, w >= 0;
        }
    }
    if n == 1 {
        // A single cell: the only permutation there is.
        let mut one: Vec<usize> = Vec::new();
        one.push(0);
        assert(one@ =~= identity_assignment(1));
        assert(appears(one@, 0)) by {
            assert(one@[0] as int == 0);
        }
        return one;
    }
    let ghost wi: int = w as int;
    let ghost prox: int = proximity_importance as int;

    // One record per grid cell, sitting in its own cell.
    let mut pixels: Vec<Pixel> = Vec::new();
    let mut i: usize = 0;
    while i < n
        invariant
            w == width as int,
            0 < w <= 65535,
            n == wi * wi,
            wi == w as int,
            prox == proximity_importance as int,
            0 <= proximity_importance <= MAX_PROXIMITY,
            source@.len() == n,
            target@.len() == n,
            i <= n,
            pixels@.len() == i,
            forall|s: int| 0 <= s < i
                ==> pixel_ok(#[trigger] pixels@[s], s, source@, target@, wi, prox),
            forall|s: int| 0 <= s < i ==> origin_of(#[trigger] pixels@[s], wi) == s,
        decreases n - i,
    {
        proof {
            lemma_mod_bound(i as int, wi);
            assert(wi * wi == n);
            assert(i as int / wi < wi) by (nonlinear_arith)
                requires 0 <= i && (i as int) < wi * wi, 0 < wi;
            assert(i as int / wi >= 0) by (nonlinear_arith)
                requires 0 <= i, 0 < wi;
        }
        let x: u16 = (i % w) as u16;
        let y: u16 = (i / w) as u16;
        assert(x as int == i as int % wi);
        assert(y as int == i as int / wi);
        let c: (u8, u8, u8) = source[i];
        let tc: (u8, u8, u8) = target[i];
        let h: i64 = calculate_heuristic((x, y), (x, y), c, tc, COLOR_WEIGHT,
            proximity_importance);
        proof {
            crate::cost::lemma_heuristic_bounds((x, y), (x, y), c, tc,
                COLOR_WEIGHT as int, prox);
            lemma_heuristic_cost_cap((x, y), (x, y), c, tc, prox);
            vstd::arithmetic::div_mod::lemma_fundamental_div_mod(i as int, wi);
        }
        let p: Pixel = Pixel::new(x, y, c, h);
        assert(i as int == wi * (i as int / wi) + (i as int % wi));
        assert((i as int / wi) * wi == wi * (i as int / wi)) by (nonlinear_arith);
        assert(origin_of(p, wi) == i);
        pixels.push(p);
        i = i + 1;
    }

    let ghost init_sum: int = sum_h(pixels@);
    let ghost nn: nat = (wi * wi) as nat;
    proof {
        assert forall|v: int| 0 <= v < pixels@.len()
            implies #[trigger] origin_appears(pixels@, wi, v) by {
            assert(origin_of(pixels@[v], wi) == v);
        }
        assert(solver_inv(pixels@, source@, target@, wi, prox));
        assert(identity_assignment(nn).len() == pixels@.len());
        assert(forall|s2: int| 0 <= s2 < pixels@.len()
            ==> identity_assignment(nn)[s2] as int == origin_of(#[trigger] pixels@[s2], wi));
        lemma_sum_h_is_total_cost(pixels@, identity_assignment(nn), source@, target@, wi,
            prox);
        assert(init_sum == total_cost(identity_assignment(nn), source@, target@, wi, prox));
    }

    let mut rng = rand_with_seed(seed);
    let swaps_per_generation: u64 = 128u64 * (n as u64);
    let mut max_dist: u32 = width;

    loop
        invariant
            2 <= w <= 65535,
            w == width as int,
            n == wi * wi,
            wi == w as int,
            1 < n <= 0xffff_ffff,
            prox == proximity_importance as int,
            0 <= proximity_importance <= MAX_PROXIMITY,
            source@.len() == n,
            target@.len() == n,
            2 <= max_dist <= width,
            solver_inv(pixels@, source@, target@, wi, prox),
            sum_h(pixels@) <= init_sum,
        ensures
            solver_inv(pixels@, source@, target@, wi, prox),
            sum_h(pixels@) <= init_sum,
        decreases max_dist as int, sum_h(pixels@),
    {
        proof {
            assert(forall|s: int| 0 <= s < pixels@.len() ==> 0 <= #[trigger] pixels@[s].h);
            lemma_sum_h_nonneg(pixels@);
        }
        let ghost gen_start_sum: int = sum_h(pixels@);
        let mut swaps_made: u64 = 0;
        let mut trial: u64 = 0;
        while trial < swaps_per_generation
            invariant
                2 <= w <= 65535,
                w == width as int,
                n == wi * wi,
                wi == w as int,
                1 < n <= 0xffff_ffff,
                prox == proximity_importance as int,
                0 <= proximity_importance <= MAX_PROXIMITY,
                source@.len() == n,
                target@.len() == n,
                2 <= max_dist <= width,
                solver_inv(pixels@, source@, target@, wi, prox),
                swaps_made <= trial,
                trial <= swaps_per_generation,
                sum_h(pixels@) <= gen_start_sum - swaps_made,
            decreases swaps_per_generation - trial,
        {
            let apos: usize = rand_below(&mut rng, n as u32) as usize;
            proof {
                lemma_mod_bound(apos as int, wi);
                assert(apos as int / wi < wi) by (nonlinear_arith)
                    requires 0 <= apos && (apos as int) < wi * wi, 0 < wi;
                assert(apos as int / wi >= 0) by (nonlinear_arith)
                    requires 0 <= apos, 0 < wi;
                vstd::arithmetic::div_mod::lemma_fundamental_div_mod(apos as int, wi);
            }
            let ax: u32 = (apos % w) as u32;
            let ay: u32 = (apos / w) as u32;

            let dxo: i64 = rand_in_range(&mut rng, -(max_dist as i64), max_dist as i64 + 1);
            let dyo: i64 = rand_in_range(&mut rng, -(max_dist as i64), max_dist as i64 + 1);
            let bxi: i64 = ax as i64 + dxo;
            let byi: i64 = ay as i64 + dyo;
            let bx: u32 = if bxi < 0 { 0 } else if bxi >= width as i64 { width - 1 }
                else { bxi as u32 };
            let by: u32 = if byi < 0 { 0 } else if byi >= width as i64 { width - 1 }
                else { byi as u32 };
            proof {
                assert((by as int) * wi + (bx as int) < wi * wi) by (nonlinear_arith)
                    requires (bx as int) < wi && (by as int) < wi;
            }
            let bpos: usize = (by as usize) * w + (bx as usize);

            let t_a: (u8, u8, u8) = target[apos];
            let t_b: (u8, u8, u8) = target[bpos];

            let pa: Pixel = pixels[apos];
            let pb: Pixel = pixels[bpos];

            let a_on_b_h: i64 = pa.calc_heuristic((bx as u16, by as u16), t_b,
                COLOR_WEIGHT, proximity_importance);
            let b_on_a_h: i64 = pb.calc_heuristic((ax as u16, ay as u16), t_a,
                COLOR_WEIGHT, proximity_importance);
            proof {
                lemma_heuristic_cost_cap((pa.src_x, pa.src_y), (bx as u16, by as u16),
                    pa.rgb, t_b, prox);
                lemma_heuristic_cost_cap((pb.src_x, pb.src_y), (ax as u16, ay as u16),
                    pb.rgb, t_a, prox);
                vstd::arithmetic::div_mod::lemma_fundamental_div_mod_converse(
                    bpos as int, wi, by as int, bx as int);
            }

            let improvement_a: i64 = pa.h - a_on_b_h;
            let improvement_b: i64 = pb.h - b_on_a_h;

            if improvement_a + improvement_b > 0 {
                assert(apos != bpos);
                let mut pa2: Pixel = pa;
                let mut pb2: Pixel = pb;
                pa2.update_heuristic(a_on_b_h);
                pb2.update_heuristic(b_on_a_h);
                let ghost before: Seq<Pixel> = pixels@;
                pixels.set(apos, pb2);
                pixels.set(bpos, pa2);
                proof {
                    let after = pixels@;
                    lemma_sum_h_update(before, apos as int, pb2);
                    lemma_sum_h_update(before.update(apos as int, pb2), bpos as int, pa2);
                    assert(sum_h(after) == sum_h(before)
                        - (improvement_a + improvement_b));
                    assert(pixel_ok(after[apos as int], apos as int, source@, target@,
                        wi, prox));
                    assert(pixel_ok(after[bpos as int], bpos as int, source@, target@,
                        wi, prox));
                    assert(forall|s: int| 0 <= s < after.len()
                        ==> pixel_ok(#[trigger] after[s], s, source@, target@, wi, prox));
                    assert forall|v: int| 0 <= v < after.len()
                        implies #[trigger] origin_appears(after, wi, v) by {
                        assert(origin_appears(before, wi, v));
                        let k0 = choose|k: int| 0 <= k < before.len()
                            && #[trigger] origin_of(before[k], wi) == v;
                        if k0 == apos as int {
                            assert(origin_of(after[bpos as int], wi) == v);
                        } else if k0 == bpos as int {
                            assert(origin_of(after[apos as int], wi) == v);
                        } else {
                            assert(origin_of(after[k0], wi) == v);
                        }
                    }
                }
                swaps_made = swaps_made + 1;
            }
            trial = trial + 1;
        }

        proof {
            assert(forall|s: int| 0 <= s < pixels@.len() ==> 0 <= #[trigger] pixels@[s].h);
            lemma_sum_h_nonneg(pixels@);
        }
        if max_dist < 4 && swaps_made < 10 {
            break;
        }
        let ghost old_md: int = max_dist as int;
        let next: u32 = max_dist * 99 / 100;
        proof {
            vstd::arithmetic::div_mod::lemma_fundamental_div_mod(old_md * 99, 100);
            lemma_mod_bound(old_md * 99, 100);
            assert((next as int) <= old_md);
            if old_md >= 4 {
                assert((next as int) < old_md);
            }
        }
        max_dist = if next < 2 { 2 } else { next };
    }

    // Read the permutation out of the records.
    let mut out: Vec<usize> = Vec::new();
    let mut s: usize = 0;
    while s < n
        invariant
            0 < w <= 65535,
            n == wi * wi,
            wi == w as int,
            prox == proximity_importance as int,
            source@.len() == n,
            target@.len() == n,
            solver_inv(pixels@, source@, target@, wi, prox),
            s <= n,
            out@.len() == s,
            forall|k: int| 0 <= k < s ==> out@[k] as int == origin_of(#[trigger] pixels@[k], wi),
            forall|k: int| 0 <= k < s ==> out@[k] < n,
        decreases n - s,
    {
        let p: Pixel = pixels[s];
        let o: usize = (p.src_y as usize) * w + (p.src_x as usize);
        out.push(o);
        s = s + 1;
    }

    proof {
        lemma_sum_h_is_total_cost(pixels@, out@, source@, target@, wi, prox);
        assert(is_permutation(out@, (wi * wi) as nat)) by {
            assert forall|i2: int, j2: int| 0 <= i2 < j2 < n
                implies out@[i2] != out@[j2] by {
                assert(out@[i2] as int == origin_of(pixels@[i2], wi));
                assert(out@[j2] as int == origin_of(pixels@[j2], wi));
            }
            assert forall|v: int| 0 <= v < n implies #[trigger] appears(out@, v) by {
                assert(origin_appears(pixels@, wi, v));
                let k0 = choose|k: int| 0 <= k < pixels@.len()
                    && #[trigger] origin_of(pixels@[k], wi) == v;
                assert(out@[k0] as int == v);
            }
        }
        assert((wi * wi) as nat == width as nat * width as nat);
        assert(nn == (wi * wi) as nat);
    }
    out
}

/// Summed squared color distance of an assignment, with no spatial term:
/// what the solver's objective degenerates to when proximity is ignored.
pub open spec fn pure_color_cost(
    asg: Seq<usize>,
    source: Seq<(u8, u8, u8)>,
    target: Seq<(u8, u8, u8)>,
) -> int
    decreases asg.len(),
{
    if asg.len() == 0 {
        0
    } else {
        pure_color_cost(asg.drop_last(), source, target)
            + crate::cost::color_dist2(source[asg.last() as int], target[asg.len() - 1])
    }
}

/// With a proximity importance of zero the solver's whole objective is the
/// pure color cost scaled by the fixed color weight: it does not depend on
/// any position, origin or slot, nor on the grid width.
pub proof fn lemma_zero_proximity_total_cost(
    asg: Seq<usize>,
    source: Seq<(u8, u8, u8)>,
    target: Seq<(u8, u8, u8)>,
    w: int,
)
    ensures
        total_cost(asg, source, target, w, 0)
            == COLOR_WEIGHT as int * pure_color_cost(asg, source, target),
    decreases asg.len(),
{
    if asg.len() > 0 {
        lemma_zero_proximity_total_cost(asg.drop_last(), source, target, w);
        let k = asg.len() - 1;
        crate::cost::lemma_zero_spatial_weight_ignores_positions(
            slot_xy(asg[k] as int, w), slot_xy(k, w), slot_xy(asg[k] as int, w),
            slot_xy(k, w), source[asg[k] as int], target[k], COLOR_WEIGHT as int);
        assert(slot_cost(asg[k] as int, k, source, target, w, 0)
            == crate::cost::color_dist2(source[asg[k] as int], target[k])
                * COLOR_WEIGHT as int);
        assert(COLOR_WEIGHT as int * pure_color_cost(asg.drop_last(), source, target)
            + crate::cost::color_dist2(source[asg[k] as int], target[k])
                * COLOR_WEIGHT as int
            == COLOR_WEIGHT as int * pure_color_cost(asg, source, target))
            by (nonlinear_arith)
            requires pure_color_cost(asg, source, target)
                == pure_color_cost(asg.drop_last(), source, target)
                    + crate::cost::color_dist2(source[asg.last() as int],
                        target[asg.len() - 1]),
                asg.len() >= 1,
                k == asg.len() - 1,
                asg[k] == asg.last();
    }
}

/// Tighter cap on one cost under the solver's fixed color weight and the
/// admitted proximity range; it keeps the gain of a proposed swap in `i64`.
proof fn lemma_heuristic_cost_cap(
    apos: (u16, u16),
    bpos: (u16, u16),
    a: (u8, u8, u8),
    b: (u8, u8, u8),
    prox: int,
)
    requires
        0 <= prox <= MAX_PROXIMITY as int,
    ensures
        0 <= heuristic_spec(apos, bpos, a, b, COLOR_WEIGHT as int, prox) <= MAX_COST,
{
    assert(0 <= crate::cost::color_dist2(a, b) <= 195075) by (nonlinear_arith);
    assert(0 <= crate::cost::spatial_dist2(apos, bpos) <= 8589672450) by (nonlinear_arith);
    assert(0 <= crate::cost::color_dist2(a, b) * (COLOR_WEIGHT as int) <= 390150)
        by (nonlinear_arith)
        requires 0 <= crate::cost::color_dist2(a, b) <= 195075;
    assert(0 <= crate::cost::spatial_dist2(apos, bpos) * prox
        <= 8589672450 * (MAX_PROXIMITY as int)) by (nonlinear_arith)
        requires 0 <= crate::cost::spatial_dist2(apos, bpos) <= 8589672450,
            0 <= prox <= MAX_PROXIMITY as int;
}

} // verus!
