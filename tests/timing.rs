use straycrab::timing::{plan_grid, render_grid, StretchPlan, TimingData};

#[test]
fn positions_are_five_ms_apart() {
    let t = TimingData::calculate(4, 0, 0, 0);
    assert_eq!(t.positions, vec![0, 5000, 10000, 15000]);
}

#[test]
fn negative_cutoff_is_length_from_start() {
    // offset 24 ms, cutoff -500 ms, consonant 56 ms
    let t = TimingData::calculate(200, 24_000, -500_000, 56_000);
    assert_eq!(t.start, 24_000);
    assert_eq!(t.end, 524_000);
    assert_eq!(t.con, 80_000);
}

#[test]
fn positive_cutoff_trims_the_tail() {
    let t = TimingData::calculate(200, 24_000, 73_000, 56_000);
    assert_eq!(t.end, 995_000 - 73_000);
}

#[test]
fn consonant_follows_start() {
    let t = TimingData::calculate(10, 7_500, 0, 0);
    assert!(t.start <= t.con);
    let t = TimingData::calculate(10, 7_500, 0, 1);
    assert!(t.start < t.con);
}

#[test]
fn long_sustain_takes_source_frames() {
    // 1 s sample, consonant ends at 80 ms, note of 500 ms, full velocity
    let t = TimingData::calculate(200, 24_000, 0, 56_000);
    let p = plan_grid(&t, 100_000, 56_000, 500);
    assert_eq!(p, StretchPlan { consonant_count: 0, stretch_count: 100, window_start: Some(16) });
}

#[test]
fn short_sustain_is_stretched() {
    let t = TimingData::calculate(200, 0, -300_000, 100_000);
    let p = plan_grid(&t, 0, 100_000, 1000);
    // vel = 1, 100 ms of consonant gives 20 points
    assert_eq!(p, StretchPlan { consonant_count: 20, stretch_count: 200, window_start: None });
}

#[test]
fn window_past_the_sample_falls_back_to_stretch() {
    let t = TimingData::calculate(200, 900_000, -2_000_000, 0);
    let p = plan_grid(&t, 50_000, 0, 500);
    assert_eq!(p.window_start, None);
    assert_eq!(p.stretch_count, 100);
}

#[test]
fn velocity_scales_consonant_points() {
    let t = TimingData::calculate(200, 0, 0, 100_000);
    // vel = (1 - 0.5)^2 = 0.25, 0.25 * 100 / 5 = 5
    assert_eq!(plan_grid(&t, 50_000, 100_000, 100).consonant_count, 5);
    // negative consonant gives no points
    assert_eq!(plan_grid(&t, 0, -5_000, 100).consonant_count, 0);
}

#[test]
fn window_grid_is_the_source_frames() {
    let t = TimingData::calculate(200, 24_000, 0, 56_000);
    let p = plan_grid(&t, 100_000, 56_000, 500);
    let grid = render_grid(&t, &p);
    let expected: Vec<i64> = (16..116).map(|i| 5000 * i).collect();
    assert_eq!(grid, expected);
}

#[test]
fn grid_drops_points_outside_the_sample() {
    // start -10 ms, consonant end 10 ms, usable end 30 ms, last frame 45 ms
    let t = TimingData::calculate(10, -10_000, -40_000, 20_000);
    let p = plan_grid(&t, 0, 20_000, 100);
    assert_eq!(p, StretchPlan { consonant_count: 4, stretch_count: 20, window_start: None });
    let grid = render_grid(&t, &p);
    assert_eq!(grid.len(), 22);
    assert_eq!(&grid[..4], &[3333, 10_000, 10_000, 11_052]);
    assert_eq!(grid[21], 30_000);
    assert!(grid.iter().all(|x| *x >= 0 && *x <= 45_000));
}

#[test]
fn backward_stretch_rounds_toward_its_start() {
    // usable end before the consonant's end
    let t = TimingData::calculate(200, 0, -10_000, 50_000);
    let p = plan_grid(&t, 100_000, 50_000, 20);
    assert_eq!(p.window_start, None);
    assert_eq!(render_grid(&t, &p), vec![50_000, 36_667, 23_334, 10_000]);
}
