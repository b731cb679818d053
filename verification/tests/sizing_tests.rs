use wallpaper_colors::sizing::calculate_optimal_size;

#[test]
fn test_calculate_optimal_size_no_scaling() {
    assert_eq!(calculate_optimal_size(100, 100), (100, 100));
    assert_eq!(calculate_optimal_size(50, 50), (50, 50));
    assert_eq!(calculate_optimal_size(112, 112), (112, 112));
}

#[test]
fn test_calculate_optimal_size_with_scaling() {
    assert_eq!(calculate_optimal_size(200, 200), (111, 111));
    assert_eq!(calculate_optimal_size(500, 100), (250, 50));
    assert_eq!(calculate_optimal_size(1000, 1000), (112, 112));
}

#[test]
fn test_calculate_optimal_size_extreme_aspect_ratio() {
    let (w, h) = calculate_optimal_size(10000, 10);
    assert_eq!(w, 3541);
    assert_eq!(h, 3);
}

#[test]
fn test_calculate_optimal_size_minimum_one_pixel() {
    let (w, h) = calculate_optimal_size(100000, 1);
    assert_eq!(w, 35417);
    assert_eq!(h, 1);
}

fn reference_optimal_size(width: i32, height: i32) -> (i32, i32) {
    let area = width * height;
    let scale = if area > 12544 { (12544.0 / area as f64).sqrt() } else { 1.0 };
    let w = (width as f64 * scale) as i32;
    let h = (height as f64 * scale) as i32;
    if w == 0 {
        return (1, h.max(1));
    }
    if h == 0 {
        return (w.max(1), 1);
    }
    (w, h)
}

#[test]
fn test_calculate_optimal_size_matches_double_arithmetic() {
    let mut state: u64 = 0x9e3779b97f4a7c15;
    for _ in 0..20000 {
        state = state.wrapping_mul(6364136223846793005).wrapping_add(1442695040888963407);
        let w = ((state >> 33) % 40000) as i32 - 20000;
        state = state.wrapping_mul(6364136223846793005).wrapping_add(1442695040888963407);
        let h = ((state >> 33) % 40000) as i32 - 20000;
        assert_eq!(calculate_optimal_size(w, h), reference_optimal_size(w, h), "{} {}", w, h);
    }
    for w in 1..400 {
        for h in [w, w + 1, 2 * w, 7, 1] {
            assert_eq!(calculate_optimal_size(w, h), reference_optimal_size(w, h));
        }
    }
}

#[test]
fn test_calculate_optimal_size_zero_and_negative_sides() {
    assert_eq!(calculate_optimal_size(0, 0), (1, 1));
    assert_eq!(calculate_optimal_size(0, 5), (1, 5));
    assert_eq!(calculate_optimal_size(5, 0), (5, 1));
    assert_eq!(calculate_optimal_size(-200, -200), (-111, -111));
    assert_eq!(calculate_optimal_size(-3, 4), (-3, 4));
}

#[test]
fn test_calculate_optimal_size_never_enlarges() {
    for (w, h) in [(113, 113), (12545, 1), (46340, 46340), (2147483647, 1), (65536, 32767)] {
        let (nw, nh) = calculate_optimal_size(w, h);
        assert!(1 <= nw && nw <= w);
        assert!(1 <= nh && nh <= h);
    }
}

#[test]
fn test_calculate_optimal_size_area_at_most_max() {
    let mut state: u64 = 0x2545f4914f6cdd1d;
    for _ in 0..20000 {
        state = state.wrapping_mul(6364136223846793005).wrapping_add(1442695040888963407);
        let w = ((state >> 33) % 46000) as i32 + 1;
        state = state.wrapping_mul(6364136223846793005).wrapping_add(1442695040888963407);
        let h = ((state >> 33) % 46000) as i32 + 1;
        let (nw, nh) = calculate_optimal_size(w, h);
        assert!(nw * nh <= 12544 || nw == 1 || nh == 1, "{} {}", w, h);
    }
    assert_eq!(calculate_optimal_size(200, 200), (111, 111));
    assert_eq!(calculate_optimal_size(1000, 1000), (112, 112));
    // a side that scales to zero is kept at one pixel, and the area may exceed the limit
    assert_eq!(calculate_optimal_size(100000, 1), (35417, 1));
}
