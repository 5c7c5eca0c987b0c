use ledsync::extractor::{
    capture_grid, extract_border_colors, frame_fits, ExtractorState, Rgb, BLACK_THRESHOLD, SMOOTHING_FRAMES,
};

fn frame(width: u32, height: u32, color: impl Fn(u32, u32) -> (u8, u8, u8)) -> Vec<u8> {
    let mut data = Vec::new();
    for y in 0..height {
        for x in 0..width {
            let (r, g, b) = color(x, y);
            data.extend_from_slice(&[b, g, r, 255]);
        }
    }
    data
}

fn rgb(r: u8, g: u8, b: u8) -> Rgb {
    Rgb { r, g, b }
}

#[test]
fn is_black_needs_all_channels_below_threshold() {
    assert!(rgb(9, 9, 9).is_black(10));
    assert!(!rgb(10, 0, 0).is_black(10));
    assert!(!rgb(0, 0, 10).is_black(10));
    assert!(!rgb(0, 0, 0).is_black(0));
    assert_eq!(BLACK_THRESHOLD, 10);
}

#[test]
fn capture_grid_samples_cell_corners() {
    let data = frame(8, 8, |x, y| ((x * 10) as u8, (y * 10) as u8, 7));
    let grid = capture_grid(&data, 32, 8, 8, 2, 2, 0);
    assert_eq!(grid, vec![rgb(0, 0, 7), rgb(40, 0, 7), rgb(0, 40, 7), rgb(40, 40, 7)]);
}

#[test]
fn capture_grid_averages_samples() {
    // One cell of 16x8 pixels sampled every 4 pixels: x in {0, 4, 8, 12}, y in {0, 4}.
    let data = frame(16, 8, |x, y| ((x * 10) as u8, (y * 20) as u8, 255));
    let grid = capture_grid(&data, 64, 16, 8, 1, 1, 0);
    assert_eq!(grid, vec![rgb(60, 40, 255)]);
}

#[test]
fn capture_grid_sample_width_uses_outer_pixels() {
    let data = frame(16, 16, |x, y| (x as u8, y as u8, 1));
    let grid = capture_grid(&data, 64, 16, 16, 2, 2, 2);
    assert_eq!(grid, vec![rgb(0, 0, 1), rgb(14, 0, 1), rgb(0, 14, 1), rgb(14, 14, 1)]);
}

#[test]
fn capture_grid_missing_pixels_are_black() {
    let data = frame(8, 4, |_, _| (100, 100, 100));
    let grid = capture_grid(&data, 32, 8, 8, 2, 2, 0);
    assert_eq!(grid, vec![rgb(100, 100, 100), rgb(100, 100, 100), rgb(0, 0, 0), rgb(0, 0, 0)]);
}

#[test]
fn capture_grid_solid_frame_gives_solid_cells() {
    let data = frame(64, 36, |_, _| (12, 34, 56));
    let grid = capture_grid(&data, 256, 64, 36, 16, 9, 3);
    assert_eq!(grid.len(), 144);
    assert!(grid.iter().all(|c| *c == rgb(12, 34, 56)));
}

#[test]
fn frame_fits_checks_grid_and_arithmetic() {
    assert!(frame_fits(32, 8, 8, 2, 2, 0));
    assert!(!frame_fits(32, 8, 8, 0, 2, 0));
    assert!(!frame_fits(32, 8, 8, 2, 0, 0));
    assert!(!frame_fits(32, 8, 8, 0x10000, 0x10000, 0));
    assert!(!frame_fits(0xFFFF_FFFF, 8, 8, 1, 2, 0));
    assert!(frame_fits(0xFFFF_FFFF, 8, 1, 1, 1, 0));
}

fn labelled_grid(black_rows: &[usize]) -> Vec<Rgb> {
    (0..9u8)
        .map(|i| if black_rows.contains(&((i / 3) as usize)) { rgb(i, 0, 0) } else { rgb(20 + i, 20, 20) })
        .collect()
}

fn labels(colors: &[Rgb]) -> Vec<u8> {
    colors.iter().map(|c| if c.r >= 20 { c.r - 20 } else { c.r }).collect()
}

#[test]
fn border_colors_forward_four_edges() {
    let g = labelled_grid(&[]);
    let b = extract_border_colors(&g, 3, 3, 4, false);
    assert_eq!(labels(&b), vec![6, 3, 0, 0, 1, 2, 2, 5, 8, 8, 7, 6]);
}

#[test]
fn border_colors_reverse_four_edges() {
    let g = labelled_grid(&[]);
    let b = extract_border_colors(&g, 3, 3, 4, true);
    assert_eq!(labels(&b), vec![8, 5, 2, 2, 1, 0, 6, 3, 0, 6, 7, 8]);
}

#[test]
fn border_colors_three_edges_skip_bottom() {
    let g = labelled_grid(&[]);
    assert_eq!(labels(&extract_border_colors(&g, 3, 3, 3, false)), vec![6, 3, 0, 0, 1, 2, 2, 5, 8]);
    assert_eq!(labels(&extract_border_colors(&g, 3, 3, 3, true)), vec![8, 5, 2, 2, 1, 0, 6, 3, 0]);
}

#[test]
fn border_colors_replace_black_outer_rows() {
    let g = labelled_grid(&[0, 2]);
    let b = extract_border_colors(&g, 3, 3, 4, false);
    assert_eq!(labels(&b), vec![6, 3, 0, 3, 4, 5, 2, 5, 8, 5, 4, 3]);
}

#[test]
fn border_colors_keep_black_bottom_of_two_rows() {
    let g: Vec<Rgb> = vec![rgb(30, 30, 30), rgb(31, 30, 30), rgb(1, 1, 1), rgb(2, 2, 2)];
    let b = extract_border_colors(&g, 2, 2, 4, false);
    assert_eq!(b, vec![rgb(1, 1, 1), rgb(30, 30, 30), rgb(30, 30, 30), rgb(31, 30, 30), rgb(31, 30, 30), rgb(2, 2, 2), rgb(2, 2, 2), rgb(1, 1, 1)]);
}

#[test]
fn border_length_counts_rows_and_columns() {
    let g: Vec<Rgb> = (0..144u32).map(|i| rgb(50, (i % 256) as u8, 0)).collect();
    assert_eq!(extract_border_colors(&g, 16, 9, 4, false).len(), 2 * 9 + 16 + 16);
    assert_eq!(extract_border_colors(&g, 16, 9, 3, true).len(), 2 * 9 + 16);
}

#[test]
fn extractor_state_grid_and_config() {
    let mut s = ExtractorState::new(30, 0, false, false, false, 4);
    assert!(s.needs_grid(1920, 1080));
    assert_eq!(s.lamp_count(), 30);
    s.set_grid(16, 9, 1920, 1080);
    assert!(!s.needs_grid(1920, 1080));
    s.update_config(30, 5, true, true, true, 3);
    assert!(!s.needs_grid(1920, 1080));
    s.update_config(40, 5, true, true, true, 3);
    assert!(s.needs_grid(1920, 1080));
    assert_eq!(s.lamp_count(), 40);
}

#[test]
fn resolution_change_needs_new_grid() {
    let mut s = ExtractorState::new(30, 0, false, false, false, 4);
    s.set_grid(16, 9, 1920, 1080);
    assert!(s.needs_grid(1280, 1024));
    assert!(s.needs_grid(1920, 1200));
    s.set_grid(4, 3, 1280, 1024);
    assert!(!s.needs_grid(1280, 1024));
    assert!(s.needs_grid(1920, 1080));
}

#[test]
fn extractor_state_border_colors_of_frame() {
    let mut s = ExtractorState::new(10, 0, false, false, false, 4);
    s.set_grid(2, 2, 8, 8);
    let data = frame(8, 8, |x, y| (20 + (x * 10) as u8, 20 + (y * 10) as u8, 20));
    assert!(s.fits_frame(32, 8, 8));
    let b = s.border_colors(&data, 32, 8, 8);
    let g = capture_grid(&data, 32, 8, 8, 2, 2, 0);
    assert_eq!(b, extract_border_colors(&g, 2, 2, 4, false));
    assert_eq!(b.len(), 8);
}

#[test]
fn fits_frame_needs_a_grid() {
    let s = ExtractorState::new(10, 0, false, false, false, 4);
    assert!(!s.fits_frame(32, 8, 8));
}

#[test]
fn smoothing_off_passes_frames_through() {
    let mut s = ExtractorState::new(2, 0, false, false, false, 4);
    let f = vec![(1, 2, 3), (4, 5, 6)];
    assert_eq!(s.smooth_frame(f.clone()), f);
    assert_eq!(s.smooth_frame(vec![(9, 9, 9)]), vec![(9, 9, 9)]);
}

#[test]
fn smoothing_averages_kept_frames() {
    let mut s = ExtractorState::new(2, 0, false, true, false, 4);
    assert_eq!(s.smooth_frame(vec![(10, 0, 255), (1, 1, 1)]), vec![(10, 0, 255), (1, 1, 1)]);
    assert_eq!(s.smooth_frame(vec![(20, 3, 255), (2, 2, 2)]), vec![(15, 1, 255), (1, 1, 1)]);
}

#[test]
fn smoothing_keeps_only_recent_frames() {
    let mut s = ExtractorState::new(1, 0, false, true, false, 4);
    let mut last = Vec::new();
    for v in 0..=SMOOTHING_FRAMES as u8 {
        last = s.smooth_frame(vec![(v * 10, 0, 0)]);
    }
    // Frames 10..=100 remain; frame 0 has left.
    assert_eq!(last, vec![(55, 0, 0)]);
}

#[test]
fn smoothing_output_follows_lamp_count() {
    let mut s = ExtractorState::new(3, 0, false, true, false, 4);
    s.smooth_frame(vec![(10, 10, 10), (20, 20, 20)]);
    let out = s.smooth_frame(vec![(30, 30, 30)]);
    assert_eq!(out, vec![(20, 20, 20), (10, 10, 10), (0, 0, 0)]);
}

#[test]
fn new_lamp_count_applies_at_once_with_smoothing() {
    let mut s = ExtractorState::new(4, 0, false, true, false, 4);
    for _ in 0..3 {
        assert_eq!(s.smooth_frame(vec![(40, 40, 40); 4]).len(), 4);
    }
    s.update_config(2, 0, false, true, false, 4);
    let out = s.smooth_frame(vec![(80, 80, 80); 2]);
    assert_eq!(out, vec![(50, 50, 50), (50, 50, 50)]);
    s.update_config(6, 0, false, true, false, 4);
    assert_eq!(s.smooth_frame(vec![(0, 0, 0); 6]).len(), 6);
}

#[test]
fn smoothing_a_still_picture_changes_nothing() {
    let mut s = ExtractorState::new(3, 0, false, true, false, 4);
    let f = vec![(200, 100, 50), (7, 8, 9), (255, 255, 255)];
    for _ in 0..15 {
        assert_eq!(s.smooth_frame(f.clone()), f);
    }
}
