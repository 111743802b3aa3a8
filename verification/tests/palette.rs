use viz_core::palette::{build_palette, ramp, PALETTE_SIZE};

#[test]
fn ramp_endpoints_match_the_stops_table_exactly() {
    assert_eq!(ramp(0, 1), [0, 0, 255, 0]);
    assert_eq!(ramp(1, 1), [255, 0, 0, 255]);
}

#[test]
fn ramp_hits_each_interior_stop_exactly() {
    assert_eq!(ramp(1, 4), [0, 255, 255, 90]);
    assert_eq!(ramp(1, 2), [0, 255, 0, 150]);
    assert_eq!(ramp(3, 4), [255, 255, 0, 200]);
}

#[test]
fn alpha_rises_monotonically_with_t() {
    let samples = [0, 1, 2, 3, 4, 5, 6, 7, 8, 9, 10];
    let alphas: Vec<u8> = samples.iter().map(|&tenths| ramp(tenths, 10)[3]).collect();
    for w in alphas.windows(2) {
        assert!(w[1] >= w[0], "alpha should not decrease: {:?}", alphas);
    }
}

#[test]
fn ramp_clamps_outside_zero_one() {
    assert_eq!(ramp(-1, 1), ramp(0, 1));
    assert_eq!(ramp(2, 1), ramp(1, 1));
}

#[test]
fn palette_table_is_fully_populated() {
    let palette = build_palette();
    assert_eq!(palette[0], [0, 0, 255, 0]);
    assert_eq!(palette[PALETTE_SIZE - 1], [255, 0, 0, 255]);
    for w in palette.windows(2) {
        assert!(w[1][3] >= w[0][3], "alpha should not decrease across the table");
    }
}

#[test]
fn ramp_interpolates_between_stops_with_rounding() {
    // t = 0.1 lies 40% of the way from transparent blue to cyan.
    assert_eq!(ramp(1, 10), [0, 102, 255, 36]);
    // t = 0.9 lies 60% of the way from yellow to opaque red.
    assert_eq!(ramp(9, 10), [255, 102, 0, 233]);
    // the same position written as different fractions gives the same color
    assert_eq!(ramp(3, 10), ramp(30, 100));
}

#[test]
fn palette_entries_match_the_ramp_at_each_step() {
    let palette = build_palette();
    for i in 0..PALETTE_SIZE {
        assert_eq!(palette[i], ramp(i as i32, 255));
    }
    assert_eq!(palette[1], [0, 4, 255, 1]);
    assert_eq!(palette[63], [0, 252, 255, 89]);
    assert_eq!(palette[64], [0, 255, 254, 90]);
    assert_eq!(palette[127], [0, 255, 2, 150]);
    assert_eq!(palette[128], [2, 255, 0, 150]);
    assert_eq!(palette[254], [255, 4, 0, 254]);
}

#[test]
fn ramp_accepts_large_denominators() {
    assert_eq!(ramp(i32::MAX / 4, i32::MAX), ramp(1, 4));
    assert_eq!(ramp(i32::MAX, i32::MAX), [255, 0, 0, 255]);
    assert_eq!(ramp(i32::MIN, 1), [0, 0, 255, 0]);
}
