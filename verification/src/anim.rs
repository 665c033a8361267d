//! Animation driver: one eased time sample per frame, one rendered raster
//! per sample, in ascending frame order.

use vstd::prelude::*;
use vstd::arithmetic::div_mod::lemma_fundamental_div_mod;
use vstd::arithmetic::div_mod::lemma_fundamental_div_mod_converse;
use vstd::arithmetic::div_mod::lemma_div_is_ordered;
use crate::render::cell_from_covered;
use crate::render::covered;
use crate::render::generate_interpolated_frame;
use crate::render::resolved_chan;
use crate::render::some_covered;
use crate::render::T_ONE;

verus! {

/// Largest admitted frame count.
pub const MAX_FRAMES: usize = 100_000;

/// Numerator of the eased time of sample `i` out of `d + 1`, over the
/// denominator `ease_den(d)`: the cubic ease-in-out curve
/// `4t^3` below one half and `1 - (-2t + 2)^3 / 2` above it.
pub open spec fn ease_num(i: int, d: int) -> int {
    if 2 * i < d {
        8 * i * i * i
    } else {
        2 * d * d * d - 8 * (d - i) * (d - i) * (d - i)
    }
}

/// Denominator of the eased time: `2 d^3`.
pub open spec fn ease_den(d: int) -> int {
    2 * d * d * d
}

/// The eased time of sample `i`, quantized to the fixed-point scale `T_ONE`
/// by rounding half up.
pub open spec fn eased_q(i: int, d: int) -> int {
    (2 * (T_ONE as int) * ease_num(i, d) + ease_den(d)) / (2 * ease_den(d))
}

proof fn lemma_ease_num_range(i: int, d: int)
    requires
        0 <= i <= d,
        1 <= d,
    ensures
        0 <= ease_num(i, d) <= ease_den(d),
{
    if 2 * i < d {
        assert(0 <= 8 * i * i * i <= 2 * d * d * d) by (nonlinear_arith)
            requires 0 <= i && 2 * i < d;
    } else {
        assert(0 <= 8 * (d - i) * (d - i) * (d - i) <= 2 * d * d * d) by (nonlinear_arith)
            requires 0 <= d - i && 2 * (d - i) <= d;
    }
}

/// The eased time never decreases from one sample to the next (the curve is
/// monotone), and the quantization keeps that order.
pub proof fn lemma_eased_time_monotone(i: int, j: int, d: int)
    requires
        0 <= i <= j <= d,
        1 <= d,
    ensures
        eased_q(i, d) <= eased_q(j, d),
{
    lemma_ease_num_range(i, d);
    lemma_ease_num_range(j, d);
    assert(ease_num(i, d) <= ease_num(j, d)) by {
        if 2 * i < d && 2 * j < d {
            assert(8 * i * i * i <= 8 * j * j * j) by (nonlinear_arith)
                requires 0 <= i <= j;
        } else if 2 * i < d && 2 * j >= d {
            assert(8 * i * i * i <= d * d * d) by (nonlinear_arith)
                requires 0 <= i && 2 * i < d;
            assert(2 * d * d * d - 8 * (d - j) * (d - j) * (d - j) >= d * d * d)
                by (nonlinear_arith)
                requires 0 <= d - j && 2 * (d - j) <= d;
        } else {
            assert(2 * d * d * d - 8 * (d - i) * (d - i) * (d - i)
                <= 2 * d * d * d - 8 * (d - j) * (d - j) * (d - j)) by (nonlinear_arith)
                requires 0 <= d - j <= d - i;
        }
    }
    assert(ease_den(d) >= 2) by (nonlinear_arith) requires 1 <= d;
    assert(2 * (T_ONE as int) * ease_num(i, d) <= 2 * (T_ONE as int) * ease_num(j, d))
        by (nonlinear_arith)
        requires ease_num(i, d) <= ease_num(j, d);
    lemma_div_is_ordered(
        2 * (T_ONE as int) * ease_num(i, d) + ease_den(d),
        2 * (T_ONE as int) * ease_num(j, d) + ease_den(d),
        2 * ease_den(d),
    );
}

/// Eased, quantized time of frame `i` out of `frame_count`: exactly 0 for
/// the first frame and exactly `T_ONE` (time one) for the last.
pub fn eased_time_q(i: usize, frame_count: usize) -> (tq: u32)
    requires
        2 <= frame_count <= MAX_FRAMES,
        i < frame_count,
    ensures
        tq as int == eased_q(i as int, frame_count as int - 1),
        tq <= T_ONE,
        i == 0 ==> tq == 0,
        i == frame_count - 1 ==> tq == T_ONE,
{
    let d: u128 = (frame_count - 1) as u128;
    let ii: u128 = i as u128;
    let ghost di: int = d as int;
    proof {
        assert(1 <= di <= 99_999);
        assert(2 * di <= 200_000 && 2 * di * di <= 20_000_000_000
            && 2 * di * di * di <= 2_000_000_000_000_000
            && 2 <= 2 * di * di * di) by (nonlinear_arith)
            requires 1 <= di <= 99_999;
        lemma_ease_num_range(ii as int, di);
    }
    let den: u128 = 2 * d * d * d;
    let num: u128 = if 2 * ii < d {
        proof {
            assert(0 <= 8 * (ii as int) && 8 * (ii as int) * (ii as int) >= 0
                && 8 * (ii as int) * (ii as int) <= 80_000_000_000
                && 8 * (ii as int) <= 800_000
                && 0 <= 8 * (ii as int) * (ii as int) * (ii as int)
                && 8 * (ii as int) * (ii as int) * (ii as int) <= 2 * di * di * di)
                by (nonlinear_arith)
                requires 0 <= ii as int && 2 * (ii as int) < di && di <= 99_999;
        }
        8 * ii * ii * ii
    } else {
        proof {
            assert(0 <= 8 * (di - ii as int) && 8 * (di - ii as int) <= 800_000
                && 0 <= 8 * (di - ii as int) * (di - ii as int)
                && 8 * (di - ii as int) * (di - ii as int) <= 80_000_000_000
                && 0 <= 8 * (di - ii as int) * (di - ii as int) * (di - ii as int)
                && 8 * (di - ii as int) * (di - ii as int) * (di - ii as int)
                    <= 2 * di * di * di) by (nonlinear_arith)
                requires 0 <= di - ii as int && 2 * (di - ii as int) <= di && di <= 99_999;
        }
        den - 8 * (d - ii) * (d - ii) * (d - ii)
    };
    assert(num as int == ease_num(ii as int, di));
    assert(num <= den);
    proof {
        assert(0 <= 2 * (T_ONE as int) * (num as int)
            && 2 * (T_ONE as int) * (num as int) <= 5_000_000_000_000_000_000_000)
            by (nonlinear_arith)
            requires 0 <= num as int <= 2_000_000_000_000_000;
    }
    let q: u128 = (2 * (T_ONE as u128) * num + den) / (2 * den);
    proof {
        lemma_fundamental_div_mod(
            2 * (T_ONE as int) * (num as int) + den as int, 2 * (den as int));
        vstd::arithmetic::div_mod::lemma_mod_bound(
            2 * (T_ONE as int) * (num as int) + den as int, 2 * (den as int));
        assert(q as int <= T_ONE as int) by (nonlinear_arith)
            requires 2 * (T_ONE as int) * (num as int) + den as int
                    == 2 * (den as int) * (q as int)
                        + (2 * (T_ONE as int) * (num as int) + den as int)
                            % (2 * (den as int)),
                0 <= (2 * (T_ONE as int) * (num as int) + den as int) % (2 * (den as int)),
                num as int <= den as int,
                0 < den as int;
        if ii == 0 {
            assert(num == 0);
            assert(q as int == (den as int) / (2 * (den as int)));
            lemma_fundamental_div_mod_converse(den as int, 2 * (den as int), 0, den as int);
        }
        if ii == d {
            assert(num == den);
            assert(2 * (T_ONE as int) * (den as int) + den as int
                == (2 * (den as int)) * (T_ONE as int) + den as int) by (nonlinear_arith);
            lemma_fundamental_div_mod_converse(
                2 * (T_ONE as int) * (den as int) + den as int,
                2 * (den as int), T_ONE as int, den as int);
        }
    }
    q as u32
}

/// Render the whole animation: `frame_count` frames, the `k`-th carrying the
/// renderer's output at the eased time of sample `k`, in ascending frame
/// order. Frame 0 is at time zero and the last frame at time one exactly:
/// in every frame each covered cell holds the exact rounded weighted average
/// of the splats it receives at that frame's eased time, and once any cell
/// is covered every cell holds some covered cell's resolved color.
pub fn render_animation(
    source: &Vec<(u8, u8, u8)>,
    assignments: &Vec<usize>,
    width: u32,
    height: u32,
    frame_count: usize,
) -> (frames: Vec<Vec<u8>>)
    requires
        0 < width <= 65535,
        0 < height <= 65535,
        width as int * height as int <= 0x0fff_ffff,
        source@.len() == width as int * height as int,
        assignments@.len() == width as int * height as int,
        forall|s: int| 0 <= s < assignments@.len()
            ==> #[trigger] assignments@[s] < assignments@.len(),
        2 <= frame_count <= MAX_FRAMES,
    ensures
        frames@.len() == frame_count,
        forall|k: int| 0 <= k < frame_count
            ==> #[trigger] frames@[k]@.len() == 3 * width as int * height as int,
        forall|k: int, cx: int, cy: int| 0 <= k < frame_count
            && 0 <= cx < width as int && 0 <= cy < height as int
            && #[trigger] covered(assignments@, width as int,
                eased_q(k, frame_count as int - 1), cx, cy)
            ==> frames@[k]@[3 * (cy * width as int + cx)]
                    == resolved_chan(assignments@, source@, width as int,
                        eased_q(k, frame_count as int - 1), cx, cy, 0)
                && frames@[k]@[3 * (cy * width as int + cx) + 1]
                    == resolved_chan(assignments@, source@, width as int,
                        eased_q(k, frame_count as int - 1), cx, cy, 1)
                && frames@[k]@[3 * (cy * width as int + cx) + 2]
                    == resolved_chan(assignments@, source@, width as int,
                        eased_q(k, frame_count as int - 1), cx, cy, 2),
        forall|k: int, i: int| 0 <= k < frame_count
            && 0 <= i < width as int * height as int
            && some_covered(assignments@, width as int, height as int,
                eased_q(k, frame_count as int - 1))
            ==> #[trigger] cell_from_covered(frames@[k]@, assignments@, source@,
                width as int, height as int, eased_q(k, frame_count as int - 1), i),
{
    let mut frames: Vec<Vec<u8>> = Vec::new();
    let mut k: usize = 0;
    while k < frame_count
        invariant
            0 < width <= 65535,
            0 < height <= 65535,
            width as int * height as int <= 0x0fff_ffff,
            source@.len() == width as int * height as int,
            assignments@.len() == width as int * height as int,
            forall|s: int| 0 <= s < assignments@.len()
                ==> #[trigger] assignments@[s] < assignments@.len(),
            2 <= frame_count <= MAX_FRAMES,
            k <= frame_count,
            frames@.len() == k,
            forall|k2: int| 0 <= k2 < k
                ==> #[trigger] frames@[k2]@.len() == 3 * width as int * height as int,
            forall|k2: int, cx: int, cy: int| 0 <= k2 < k
                && 0 <= cx < width as int && 0 <= cy < height as int
                && #[trigger] covered(assignments@, width as int,
                    eased_q(k2, frame_count as int - 1), cx, cy)
                ==> frames@[k2]@[3 * (cy * width as int + cx)]
                        == resolved_chan(assignments@, source@, width as int,
                            eased_q(k2, frame_count as int - 1), cx, cy, 0)
                    && frames@[k2]@[3 * (cy * width as int + cx) + 1]
                        == resolved_chan(assignments@, source@, width as int,
                            eased_q(k2, frame_count as int - 1), cx, cy, 1)
                    && frames@[k2]@[3 * (cy * width as int + cx) + 2]
                        == resolved_chan(assignments@, source@, width as int,
                            eased_q(k2, frame_count as int - 1), cx, cy, 2),
            forall|k2: int, i: int| 0 <= k2 < k
                && 0 <= i < width as int * height as int
                && some_covered(assignments@, width as int, height as int,
                    eased_q(k2, frame_count as int - 1))
                ==> #[trigger] cell_from_covered(frames@[k2]@, assignments@, source@,
                    width as int, height as int, eased_q(k2, frame_count as int - 1), i),
        decreases frame_count - k,
    {
        let tq: u32 = eased_time_q(k, frame_count);
        let frame: Vec<u8> = generate_interpolated_frame(source, assignments, width, height,
            tq);
        frames.push(frame);
        proof {
            assert(tq as int == eased_q(k as int, frame_count as int - 1));
            assert(frames@[k as int]@ == frame@);
        }
        k = k + 1;
    }
    frames
}

} // verus!
