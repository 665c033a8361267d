use speakify::anim::eased_time_q;
use speakify::anim::render_animation;
use speakify::calculate_assignments;
use speakify::calculate_heuristic;
use speakify::generate_interpolated_frame;
use speakify::render::T_ONE;
use speakify::Pixel;

fn heuristic_reference(
    apos: (u16, u16),
    bpos: (u16, u16),
    a: (u8, u8, u8),
    b: (u8, u8, u8),
    cw: i64,
    sw: i64,
) -> i64 {
    let spatial = (apos.0 as i64 - bpos.0 as i64).pow(2) + (apos.1 as i64 - bpos.1 as i64).pow(2);
    let color = (a.0 as i64 - b.0 as i64).pow(2)
        + (a.1 as i64 - b.1 as i64).pow(2)
        + (a.2 as i64 - b.2 as i64).pow(2);
    color * cw + spatial * sw
}

#[test]
fn heuristic_exact_value() {
    let h = calculate_heuristic((0, 0), (3, 4), (10, 20, 30), (13, 24, 18), 2, 5);
    // color: 9 + 16 + 144 = 169; spatial: 9 + 16 = 25; 169 * 2 + 25 * 5 = 463
    assert_eq!(h, 463);
}

#[test]
fn heuristic_zero_spatial_weight_ignores_positions() {
    let a = (1u8, 2u8, 3u8);
    let b = (200u8, 100u8, 50u8);
    let h1 = calculate_heuristic((0, 0), (9, 9), a, b, 2, 0);
    let h2 = calculate_heuristic((7, 3), (1, 4), a, b, 2, 0);
    assert_eq!(h1, h2);
    assert_eq!(h1, heuristic_reference((0, 0), (0, 0), a, b, 2, 0));
}

#[test]
fn pixel_cached_cost_tracks_calculate_heuristic() {
    let mut p = Pixel::new(3, 4, (10, 20, 30), 0);
    let h = p.calc_heuristic((0, 0), (13, 24, 18), 2, 5);
    assert_eq!(h, calculate_heuristic((3, 4), (0, 0), (10, 20, 30), (13, 24, 18), 2, 5));
    p.update_heuristic(h);
    assert_eq!(p.h, h);
    assert_eq!(p.src_x, 3);
    assert_eq!(p.src_y, 4);
    assert_eq!(p.rgb, (10, 20, 30));
}

#[test]
fn solver_two_by_two_exact_color_match() {
    // Each target color has exactly one matching source color; with no
    // proximity weight the solver must pair them, reaching total cost zero.
    let source = vec![(0, 0, 0), (255, 255, 255), (255, 0, 0), (0, 255, 0)];
    let target = vec![(255, 255, 255), (0, 0, 0), (0, 255, 0), (255, 0, 0)];
    let assignments = calculate_assignments(&source, &target, 2, 0, 12345);
    assert_eq!(assignments, vec![1, 0, 3, 2]);
}

#[test]
fn solver_output_is_permutation() {
    let mut source = Vec::new();
    let mut target = Vec::new();
    for i in 0..16usize {
        source.push(((i * 16) as u8, (255 - i * 10) as u8, (i * 3) as u8));
        target.push(((255 - i * 16) as u8, (i * 10) as u8, (i * 7) as u8));
    }
    let assignments = calculate_assignments(&source, &target, 4, 13, 12345);
    assert_eq!(assignments.len(), 16);
    let mut seen = vec![false; 16];
    for &a in &assignments {
        assert!(a < 16);
        assert!(!seen[a], "index {} assigned twice", a);
        seen[a] = true;
    }
    assert!(seen.iter().all(|&v| v));
}

#[test]
fn solver_never_worsens_total_cost() {
    let mut source = Vec::new();
    let mut target = Vec::new();
    for i in 0..16usize {
        source.push(((i * 16) as u8, (i * 5) as u8, (i * 3) as u8));
        target.push(((255 - i * 16) as u8, (i * 11) as u8, (i * 7) as u8));
    }
    let w = 4u16;
    let prox = 13i64;
    let cost_of = |asg: &[usize]| -> i64 {
        let mut total = 0i64;
        for (slot, &origin) in asg.iter().enumerate() {
            let op = ((origin % 4) as u16, (origin / 4) as u16);
            let sp = ((slot % 4) as u16, (slot / 4) as u16);
            total += heuristic_reference(op, sp, source[origin], target[slot], 2, prox);
        }
        let _ = w;
        total
    };
    let identity: Vec<usize> = (0..16).collect();
    let assignments = calculate_assignments(&source, &target, 4, prox, 12345);
    assert!(cost_of(&assignments) <= cost_of(&identity));
}

#[test]
fn solver_empty_grid_gives_empty_permutation() {
    let assignments = calculate_assignments(&Vec::new(), &Vec::new(), 0, 13, 12345);
    assert!(assignments.is_empty());
}

#[test]
fn ease_endpoints_are_exact() {
    assert_eq!(eased_time_q(0, 10), 0);
    assert_eq!(eased_time_q(9, 10), T_ONE);
    assert_eq!(eased_time_q(0, 2), 0);
    assert_eq!(eased_time_q(1, 2), T_ONE);
}

#[test]
fn ease_midpoint_is_half() {
    // tau = 1/2 gives exactly t = 1/2 on the cubic ease-in-out curve.
    assert_eq!(eased_time_q(1, 3), T_ONE / 2);
}

#[test]
fn ease_is_monotone() {
    let mut last = 0u32;
    for i in 0..100usize {
        let t = eased_time_q(i, 100);
        assert!(t >= last, "eased time decreased at sample {}", i);
        last = t;
    }
    assert_eq!(last, T_ONE);
}

#[test]
fn render_at_time_zero_shifts_kernel_window() {
    // At time zero every point sits exactly on its own cell, so the kernel
    // puts its whole weight one cell up-left; the single covered cell takes
    // the color of source pixel (1,1) and propagation spreads it.
    let source = vec![(10, 20, 30), (40, 50, 60), (70, 80, 90), (200, 210, 220)];
    let identity = vec![0usize, 1, 2, 3];
    let frame = generate_interpolated_frame(&source, &identity, 2, 2, 0);
    assert_eq!(frame.len(), 12);
    for cell in 0..4 {
        assert_eq!(frame[3 * cell], 200);
        assert_eq!(frame[3 * cell + 1], 210);
        assert_eq!(frame[3 * cell + 2], 220);
    }
}

#[test]
fn render_at_time_one_uses_assigned_colors() {
    let source = vec![(10, 20, 30), (40, 50, 60), (70, 80, 90), (200, 210, 220)];
    let assignments = vec![1usize, 0, 3, 2];
    let frame = generate_interpolated_frame(&source, &assignments, 2, 2, T_ONE);
    assert_eq!(frame.len(), 12);
    // the record in slot (1,1) has origin 2, so its color floods the frame
    for cell in 0..4 {
        assert_eq!(frame[3 * cell], 70);
        assert_eq!(frame[3 * cell + 1], 80);
        assert_eq!(frame[3 * cell + 2], 90);
    }
}

#[test]
fn render_midway_blends_and_fills_every_cell() {
    let mut source = Vec::new();
    for i in 0..16usize {
        source.push(((i * 16) as u8, (i * 5) as u8, (255 - i * 10) as u8));
    }
    let assignments: Vec<usize> = (0..16).rev().collect();
    let frame = generate_interpolated_frame(&source, &assignments, 4, 4, T_ONE / 3);
    assert_eq!(frame.len(), 48);
}

#[test]
fn animation_has_exactly_frame_count_frames() {
    let source = vec![(10, 20, 30), (40, 50, 60), (70, 80, 90), (200, 210, 220)];
    let assignments = vec![1usize, 0, 3, 2];
    let frames = render_animation(&source, &assignments, 2, 2, 7);
    assert_eq!(frames.len(), 7);
    for frame in &frames {
        assert_eq!(frame.len(), 12);
    }
}

#[test]
fn first_animation_frame_is_time_zero_render() {
    let source = vec![(10, 20, 30), (40, 50, 60), (70, 80, 90), (200, 210, 220)];
    let identity = vec![0usize, 1, 2, 3];
    let frames = render_animation(&source, &identity, 2, 2, 5);
    let direct = generate_interpolated_frame(&source, &identity, 2, 2, 0);
    assert_eq!(frames[0], direct);
    let last = generate_interpolated_frame(&source, &identity, 2, 2, T_ONE);
    assert_eq!(frames[4], last);
}

#[test]
fn every_cell_gets_a_real_color() {
    // All source channels are at least 50, and every output cell is either a
    // rounded weighted average of source colors or a copy of one, so a byte
    // below 50 would mean an unresolved cell survived.
    let mut source = Vec::new();
    for i in 0..16usize {
        source.push((50 + (i * 12) as u8, 60 + (i * 11) as u8, 70 + (i * 10) as u8));
    }
    let assignments: Vec<usize> = (0..16).map(|i| (i + 5) % 16).collect();
    for step in 0..8u32 {
        let t = step * (speakify::render::T_ONE / 7);
        let frame = generate_interpolated_frame(&source, &assignments, 4, 4, t);
        assert_eq!(frame.len(), 48);
        for (k, &b) in frame.iter().enumerate() {
            assert!(b >= 50, "undefined cell at byte {} for t {}", k, t);
        }
    }
}
