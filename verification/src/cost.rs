//! Cost model: the scalar cost of placing a colored point at a candidate
//! slot, balancing color similarity against spatial displacement.

use vstd::prelude::*;

verus! {

/// Largest weight the cost model accepts; keeps every cost within `i64`.
pub const MAX_WEIGHT: i64 = 1_000_000_000;

/// Sum of squared per-channel differences between two colors.
pub open spec fn color_dist2(a: (u8, u8, u8), b: (u8, u8, u8)) -> int {
    (a.0 as int - b.0 as int) * (a.0 as int - b.0 as int)
        + (a.1 as int - b.1 as int) * (a.1 as int - b.1 as int)
        + (a.2 as int - b.2 as int) * (a.2 as int - b.2 as int)
}

/// Squared Euclidean distance between two grid coordinates.
pub open spec fn spatial_dist2(p: (u16, u16), q: (u16, u16)) -> int {
    (p.0 as int - q.0 as int) * (p.0 as int - q.0 as int)
        + (p.1 as int - q.1 as int) * (p.1 as int - q.1 as int)
}

/// Cost of a point of color `a` originating at `apos` when it sits in the
/// slot at `bpos` whose target color is `b`.
pub open spec fn heuristic_spec(
    apos: (u16, u16),
    bpos: (u16, u16),
    a: (u8, u8, u8),
    b: (u8, u8, u8),
    color_weight: int,
    spatial_weight: int,
) -> int {
    color_dist2(a, b) * color_weight + spatial_dist2(apos, bpos) * spatial_weight
}

proof fn lemma_dist_bounds(apos: (u16, u16), bpos: (u16, u16), a: (u8, u8, u8), b: (u8, u8, u8))
    ensures
        0 <= color_dist2(a, b) <= 195075,
        0 <= spatial_dist2(apos, bpos) <= 8589672450,
{
    assert(0 <= color_dist2(a, b) <= 195075) by (nonlinear_arith);
    assert(0 <= spatial_dist2(apos, bpos) <= 8589672450) by (nonlinear_arith);
}

/// Bounds of the whole cost for admitted weights.
pub proof fn lemma_heuristic_bounds(
    apos: (u16, u16),
    bpos: (u16, u16),
    a: (u8, u8, u8),
    b: (u8, u8, u8),
    color_weight: int,
    spatial_weight: int,
)
    requires
        0 <= color_weight <= MAX_WEIGHT as int,
        0 <= spatial_weight <= MAX_WEIGHT as int,
    ensures
        0 <= heuristic_spec(apos, bpos, a, b, color_weight, spatial_weight)
            <= 0x7fff_ffff_ffff_ffff,
{
    lemma_dist_bounds(apos, bpos, a, b);
    assert(0 <= color_dist2(a, b) * color_weight <= 195075 * (MAX_WEIGHT as int))
        by (nonlinear_arith)
        requires 0 <= color_dist2(a, b) <= 195075 && 0 <= color_weight <= MAX_WEIGHT as int;
    assert(0 <= spatial_dist2(apos, bpos) * spatial_weight <= 8589672450 * (MAX_WEIGHT as int))
        by (nonlinear_arith)
        requires 0 <= spatial_dist2(apos, bpos) <= 8589672450
            && 0 <= spatial_weight <= MAX_WEIGHT as int;
}

/// With a spatial weight of zero the cost is the pure color distance scaled
/// by the color weight: it does not depend on either position at all.
pub proof fn lemma_zero_spatial_weight_ignores_positions(
    apos1: (u16, u16),
    bpos1: (u16, u16),
    apos2: (u16, u16),
    bpos2: (u16, u16),
    a: (u8, u8, u8),
    b: (u8, u8, u8),
    color_weight: int,
)
    ensures
        heuristic_spec(apos1, bpos1, a, b, color_weight, 0)
            == color_dist2(a, b) * color_weight,
        heuristic_spec(apos1, bpos1, a, b, color_weight, 0)
            == heuristic_spec(apos2, bpos2, a, b, color_weight, 0),
{
}

/// Exact cost of placing color `a` from `apos` into the slot `bpos` whose
/// target color is `b`: squared color distance times `color_weight` plus
/// squared spatial distance times `spatial_weight`.
pub fn calculate_heuristic(
    apos: (u16, u16),
    bpos: (u16, u16),
    a: (u8, u8, u8),
    b: (u8, u8, u8),
    color_weight: i64,
    spatial_weight: i64,
) -> (r: i64)
    requires
        0 <= color_weight <= MAX_WEIGHT,
        0 <= spatial_weight <= MAX_WEIGHT,
    ensures
        r == heuristic_spec(apos, bpos, a, b, color_weight as int, spatial_weight as int),
        0 <= r,
{
    proof {
        lemma_dist_bounds(apos, bpos, a, b);
        lemma_heuristic_bounds(apos, bpos, a, b, color_weight as int, spatial_weight as int);
    }
    let dx: i64 = apos.0 as i64 - bpos.0 as i64;
    let dy: i64 = apos.1 as i64 - bpos.1 as i64;
    assert(0 <= dx * dx <= 4294836225 && 0 <= dy * dy <= 4294836225
        && dx * dx + dy * dy == spatial_dist2(apos, bpos)) by (nonlinear_arith)
        requires -65535 <= dx <= 65535 && -65535 <= dy <= 65535
            && dx == apos.0 as int - bpos.0 as int && dy == apos.1 as int - bpos.1 as int;
    let spatial: i64 = dx * dx + dy * dy;
    let dr: i64 = a.0 as i64 - b.0 as i64;
    let dg: i64 = a.1 as i64 - b.1 as i64;
    let db: i64 = a.2 as i64 - b.2 as i64;
    assert(0 <= dr * dr <= 65025 && 0 <= dg * dg <= 65025 && 0 <= db * db <= 65025
        && dr * dr + dg * dg + db * db == color_dist2(a, b)) by (nonlinear_arith)
        requires -255 <= dr <= 255 && -255 <= dg <= 255 && -255 <= db <= 255
            && dr == a.0 as int - b.0 as int && dg == a.1 as int - b.1 as int
            && db == a.2 as int - b.2 as int;
    let color: i64 = dr * dr + dg * dg + db * db;
    assert(color * color_weight + spatial * spatial_weight
        == heuristic_spec(apos, bpos, a, b, color_weight as int, spatial_weight as int));
    assert(0 <= color * color_weight <= 195075 * MAX_WEIGHT) by (nonlinear_arith)
        requires 0 <= color <= 195075 && 0 <= color_weight <= MAX_WEIGHT;
    assert(0 <= spatial * spatial_weight <= 8589672450 * MAX_WEIGHT) by (nonlinear_arith)
        requires 0 <= spatial <= 8589672450 && 0 <= spatial_weight <= MAX_WEIGHT;
    color * color_weight + spatial * spatial_weight
}

/// One record of the solver's working array: the grid cell the record was
/// created at, its immutable color, and a cache of its cost in the slot it
/// currently occupies.
#[derive(Clone, Copy)]
pub struct Pixel {
    pub src_x: u16,
    pub src_y: u16,
    pub rgb: (u8, u8, u8),
    pub h: i64,
}

impl Pixel {
    pub fn new(src_x: u16, src_y: u16, rgb: (u8, u8, u8), h: i64) -> (p: Pixel)
        ensures
            p.src_x == src_x,
            p.src_y == src_y,
            p.rgb == rgb,
            p.h == h,
    {
        Pixel { src_x, src_y, rgb, h }
    }

    /// Replace the cached cost after the record moved to a new slot.
    pub fn update_heuristic(&mut self, new_h: i64)
        ensures
            final(self).src_x == old(self).src_x,
            final(self).src_y == old(self).src_y,
            final(self).rgb == old(self).rgb,
            final(self).h == new_h,
    {
        self.h = new_h;
    }

    /// Cost this record would incur in the slot at `target_pos` whose target
    /// color is `target_col`.
    pub fn calc_heuristic(
        &self,
        target_pos: (u16, u16),
        target_col: (u8, u8, u8),
        weight: i64,
        proximity_importance: i64,
    ) -> (r: i64)
        requires
            0 <= weight <= MAX_WEIGHT,
            0 <= proximity_importance <= MAX_WEIGHT,
        ensures
            r == heuristic_spec(
                (self.src_x, self.src_y),
                target_pos,
                self.rgb,
                target_col,
                weight as int,
                proximity_importance as int,
            ),
            0 <= r,
    {
        calculate_heuristic(
            (self.src_x, self.src_y),
            target_pos,
            self.rgb,
            target_col,
            weight,
            proximity_importance,
        )
    }
}

} // verus!
