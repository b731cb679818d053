// Extraction of a bitmap's colors with the material ranking, through the
// library: scaling, counting and ranking. The dark hints are computed in
// floating point outside the library, so these tests pass no dark hints.
use material_colors::color::Argb as MaterialArgb;
use material_colors::theme::ThemeBuilder;
use wallpaper_colors::bitmap::{scale_bitmap, Bitmap};
use wallpaper_colors::color::Argb;
use wallpaper_colors::hints::ColorHints;
use wallpaper_colors::wallpaper::WallpaperColors;

fn half_red_half_blue() -> Bitmap {
    let mut pixels = Vec::new();
    for _y in 0..10u32 {
        for x in 0..10u32 {
            let rgba: [u8; 4] = if x < 5 { [255, 0, 0, 255] } else { [0, 0, 255, 255] };
            pixels.extend_from_slice(&rgba);
        }
    }
    Bitmap::new(10, 10, pixels).unwrap()
}

fn four_quadrants() -> Bitmap {
    let mut pixels = Vec::new();
    for y in 0..100u32 {
        for x in 0..100u32 {
            let rgba: [u8; 4] = if x < 50 && y < 50 {
                [255, 0, 0, 255]
            } else if x >= 50 && y < 50 {
                [0, 255, 0, 255]
            } else if x < 50 {
                [0, 0, 255, 255]
            } else {
                [255, 255, 0, 255]
            };
            pixels.extend_from_slice(&rgba);
        }
    }
    Bitmap::new(100, 100, pixels).unwrap()
}

fn solid_color(color: Argb, width: u32, height: u32) -> Bitmap {
    let mut pixels = Vec::new();
    for _ in 0..width * height {
        pixels.extend_from_slice(&[color.red, color.green, color.blue, color.alpha]);
    }
    Bitmap::new(width, height, pixels).unwrap()
}

fn gradient(width: u32, height: u32) -> Bitmap {
    let mut pixels = Vec::new();
    for y in 0..height {
        for x in 0..width {
            let r = ((x as f32 / width as f32) * 255.0) as u8;
            let g = ((y as f32 / height as f32) * 255.0) as u8;
            pixels.extend_from_slice(&[r, g, 128, 255]);
        }
    }
    Bitmap::new(width, height, pixels).unwrap()
}

fn extract(bitmap: Bitmap) -> WallpaperColors {
    WallpaperColors::from_scaled_bitmap(&scale_bitmap(bitmap), ColorHints::empty())
}

#[test]
fn test_from_bitmap_material_colors() {
    let colors = extract(half_red_half_blue());
    assert!(!colors.main_colors().is_empty());
    assert!(colors.color_hints().contains(ColorHints::from_bitmap()));
}

#[test]
fn test_wallpaper_colors_accessors() {
    let colors = extract(half_red_half_blue());
    assert!(colors.primary_color().alpha > 0);
    let _ = colors.secondary_color();
    let _ = colors.tertiary_color();
    assert!(!colors.main_colors().is_empty());
    assert!(!colors.all_colors().is_empty());
}

#[test]
fn test_wallpaper_colors_equality() {
    let colors1 = extract(half_red_half_blue());
    let colors2 = extract(half_red_half_blue());
    assert_eq!(colors1, colors2);
}

#[test]
fn test_wallpaper_colors_clone() {
    let colors = extract(half_red_half_blue());
    let cloned = colors.clone();
    assert_eq!(colors, cloned);
}

#[test]
fn test_wallpaper_colors_debug() {
    let colors = extract(half_red_half_blue());
    let debug_str = format!("{:?}", colors);
    assert!(debug_str.contains("WallpaperColors"));
}

#[test]
fn test_large_image_scaling() {
    let colors = extract(gradient(1000, 1000));
    assert!(!colors.main_colors().is_empty());
}

#[test]
fn test_small_image() {
    let colors = extract(solid_color(Argb::new(255, 255, 0, 0), 2, 2));
    assert!(!colors.main_colors().is_empty());
}

#[test]
fn test_single_pixel_image() {
    let colors = extract(solid_color(Argb::new(255, 0, 255, 0), 1, 1));
    assert_eq!(colors.main_colors().len(), 1);
}

#[test]
fn test_transparent_image() {
    let colors = extract(solid_color(Argb::new(0, 255, 0, 0), 10, 10));
    assert!(!colors.main_colors().is_empty());
}

#[test]
fn test_black_and_white_checkerboard() {
    let mut pixels = Vec::new();
    for y in 0..10u32 {
        for x in 0..10u32 {
            let rgba: [u8; 4] =
                if (x + y) % 2 == 0 { [255, 255, 255, 255] } else { [0, 0, 0, 255] };
            pixels.extend_from_slice(&rgba);
        }
    }
    let colors = extract(Bitmap::new(10, 10, pixels).unwrap());
    assert!(!colors.main_colors().is_empty());
}

#[test]
fn test_wallpaper_colors_map_population() {
    let colors = extract(four_quadrants());
    assert!(!colors.all_colors().is_empty());
    let total_pop: u32 = colors.all_colors().values().sum();
    assert_eq!(total_pop, 100 * 100);
}

#[test]
fn test_end_to_end_material_strategy() {
    let colors = extract(four_quadrants());
    let seed = *colors.primary_color();
    let theme =
        ThemeBuilder::with_source(MaterialArgb::new(seed.alpha, seed.red, seed.green, seed.blue))
            .build();
    assert!(theme.schemes.light.primary.alpha > 0);
    assert!(theme.schemes.dark.primary.alpha > 0);
}

#[test]
fn test_palette_generation() {
    let colors = extract(four_quadrants());
    let seed = *colors.primary_color();
    let theme =
        ThemeBuilder::with_source(MaterialArgb::new(seed.alpha, seed.red, seed.green, seed.blue))
            .build();
    let _ = theme.palettes.primary.tone(40);
    let _ = theme.palettes.secondary.tone(40);
    let _ = theme.palettes.tertiary.tone(40);
    let _ = theme.palettes.neutral.tone(40);
    let _ = theme.palettes.neutral_variant.tone(40);
    let _ = theme.palettes.error.tone(40);
}

#[test]
fn test_scaled_population_covers_scaled_pixels() {
    // A 1000 by 1000 bitmap is counted at 112 by 112.
    let colors = extract(gradient(1000, 1000));
    let total: u64 = colors.all_colors().values().map(|&n| n as u64).sum();
    assert_eq!(total, 112 * 112);
    assert!(colors.main_colors().len() <= 3);
    assert_eq!(colors.color_hints(), ColorHints::from_bitmap());
}
