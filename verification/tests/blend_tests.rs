use wallpaper_colors::blend::composite_colors;
use wallpaper_colors::color::Argb;

fn reference_composite(foreground: Argb, background: Argb) -> Argb {
    let fg_alpha = foreground.alpha as f32 / 255.0;
    let bg_alpha = background.alpha as f32 / 255.0;
    let alpha = fg_alpha + bg_alpha * (1.0 - fg_alpha);
    if alpha == 0.0 {
        return Argb::new(0, 0, 0, 0);
    }
    let channel = |f: u8, b: u8| {
        ((f as f32 * fg_alpha + b as f32 * bg_alpha * (1.0 - fg_alpha)) / alpha) as u8
    };
    Argb {
        alpha: (alpha * 255.0) as u8,
        red: channel(foreground.red, background.red),
        green: channel(foreground.green, background.green),
        blue: channel(foreground.blue, background.blue),
    }
}

#[test]
fn test_composite_colors_opaque_over_opaque() {
    let fg = Argb::new(255, 255, 0, 0);
    let bg = Argb::new(255, 0, 0, 255);
    let result = composite_colors(fg, bg);
    assert_eq!(result, Argb::new(255, 255, 0, 0));
}

#[test]
fn test_composite_colors_transparent_over_opaque() {
    let fg = Argb::new(0, 255, 0, 0);
    let bg = Argb::new(255, 0, 0, 255);
    let result = composite_colors(fg, bg);
    assert_eq!(result, bg);
}

#[test]
fn test_composite_colors_half_transparent_over_opaque() {
    let fg = Argb::new(128, 255, 0, 0);
    let bg = Argb::new(255, 0, 0, 255);
    let result = composite_colors(fg, bg);
    assert!(result.red > 100);
    assert!(result.blue > 100);
    assert_eq!(result.alpha, 255);
}

#[test]
fn test_composite_colors_both_transparent() {
    let fg = Argb::new(128, 255, 0, 0);
    let bg = Argb::new(128, 0, 0, 255);
    let result = composite_colors(fg, bg);
    assert!(result.alpha < 255);
    assert!(result.alpha > 0);
}

#[test]
fn test_composite_colors_both_fully_transparent() {
    let fg = Argb::new(0, 255, 0, 0);
    let bg = Argb::new(0, 0, 0, 255);
    let result = composite_colors(fg, bg);
    assert_eq!(result, Argb::new(0, 0, 0, 0));
}

#[test]
fn test_composite_colors_white_over_black() {
    let white = Argb::new(255, 255, 255, 255);
    let black = Argb::new(255, 0, 0, 0);
    let result = composite_colors(white, black);
    assert_eq!(result, white);
}

#[test]
fn test_composite_colors_black_over_white() {
    let black = Argb::new(255, 0, 0, 0);
    let white = Argb::new(255, 255, 255, 255);
    let result = composite_colors(black, white);
    assert_eq!(result, black);
}

#[test]
fn test_composite_colors_identity() {
    let color = Argb::new(128, 100, 150, 200);
    let transparent = Argb::new(0, 0, 0, 0);
    let result = composite_colors(color, transparent);
    assert_eq!(result.alpha, color.alpha);
    assert_eq!(result.red, color.red);
}

#[test]
fn test_composite_colors_exact_values() {
    assert_eq!(
        composite_colors(Argb::new(128, 255, 0, 0), Argb::new(255, 0, 0, 255)),
        Argb::new(255, 128, 0, 126)
    );
    assert_eq!(
        composite_colors(Argb::new(128, 255, 0, 0), Argb::new(128, 0, 0, 255)),
        Argb::new(191, 170, 0, 84)
    );
}

#[test]
fn test_composite_colors_matches_binary32_arithmetic() {
    for fa in 0..=255u8 {
        for ba in 0..=255u8 {
            let fg = Argb::new(fa, 255, 0, 128);
            let bg = Argb::new(ba, 0, 37, 255);
            assert_eq!(composite_colors(fg, bg), reference_composite(fg, bg), "{} {}", fa, ba);
        }
    }
    let mut state: u64 = 0x2545f4914f6cdd1d;
    for _ in 0..50000 {
        state = state.wrapping_mul(6364136223846793005).wrapping_add(1442695040888963407);
        let v = (state >> 16).to_le_bytes();
        let fg = Argb::new(v[0], v[1], v[2], v[3]);
        let bg = Argb::new(v[4], v[5], (state >> 8) as u8, state as u8);
        assert_eq!(composite_colors(fg, bg), reference_composite(fg, bg));
    }
}
