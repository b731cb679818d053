use std::collections::HashMap;
use wallpaper_colors::bitmap::{count_colors, scale_bitmap, Bitmap};
use wallpaper_colors::color::{argb_to_u32, Argb};
use wallpaper_colors::hints::ColorHints;
use wallpaper_colors::population::ColorPopulation;
use wallpaper_colors::wallpaper::{score_material_colors, ColorMapError, ScoringStrategy, WallpaperColors};

fn quadrant_bitmap(size: u32) -> Bitmap {
    let mut pixels = Vec::new();
    for y in 0..size {
        for x in 0..size {
            let rgba: [u8; 4] = if x < size / 2 && y < size / 2 {
                [255, 0, 0, 255]
            } else if x >= size / 2 && y < size / 2 {
                [0, 255, 0, 255]
            } else if x < size / 2 {
                [0, 0, 255, 255]
            } else {
                [255, 255, 0, 255]
            };
            pixels.extend_from_slice(&rgba);
        }
    }
    Bitmap::new(size, size, pixels).unwrap()
}

fn solid_bitmap(color: Argb, width: u32, height: u32) -> Bitmap {
    let mut pixels = Vec::new();
    for _ in 0..width * height {
        pixels.extend_from_slice(&[color.red, color.green, color.blue, color.alpha]);
    }
    Bitmap::new(width, height, pixels).unwrap()
}

fn material_colors_of(bitmap: Bitmap) -> WallpaperColors {
    let scaled = scale_bitmap(bitmap);
    let population = count_colors(&scaled);
    let ranked = score_material_colors(&population);
    WallpaperColors::from_scored_population(&population, &ranked, ColorHints::empty())
}

#[test]
fn test_scoring_strategy_equality() {
    assert_eq!(ScoringStrategy::MaterialColors, ScoringStrategy::MaterialColors);
    assert_eq!(ScoringStrategy::JavaOriginal, ScoringStrategy::JavaOriginal);
    assert_ne!(ScoringStrategy::MaterialColors, ScoringStrategy::JavaOriginal);
}

#[test]
fn test_scoring_strategy_clone() {
    let strategy = ScoringStrategy::JavaOriginal;
    let cloned = strategy.clone();
    assert_eq!(strategy, cloned);
}

#[test]
fn test_wallpaper_colors_from_color_map() {
    let mut map = HashMap::new();
    map.insert(0xffff0000, 100);
    map.insert(0xff00ff00, 50);
    map.insert(0xff0000ff, 25);

    let colors = WallpaperColors::from_color_map(map, ColorHints::empty());
    assert!(!colors.main_colors().is_empty());
    assert_eq!(colors.all_colors().len(), 3);
}

#[test]
fn test_from_color_map_keeps_map_and_hints() {
    let mut map = HashMap::new();
    map.insert(0xffff0000, 100);
    map.insert(0xff0000ff, 30);
    let colors = WallpaperColors::from_color_map(map.clone(), ColorHints::supports_dark_theme());
    assert_eq!(colors.all_colors(), &map);
    assert_eq!(colors.color_hints(), ColorHints::supports_dark_theme());
    assert!(colors.main_colors().len() <= 3);
}

#[test]
fn test_from_color_map_empty_gives_fallback() {
    let colors = WallpaperColors::from_color_map(HashMap::new(), ColorHints::empty());
    assert_eq!(colors.main_colors(), &[Argb::new(255, 66, 133, 244)]);
    assert_eq!(*colors.primary_color(), Argb::new(255, 66, 133, 244));
    assert_eq!(colors.secondary_color(), None);
    assert_eq!(colors.tertiary_color(), None);
}

#[test]
fn test_from_color_map_with_ranking() {
    let mut map = HashMap::new();
    map.insert(1, 2);
    let ranked = vec![Argb::new(255, 1, 1, 1), Argb::new(255, 2, 2, 2), Argb::new(255, 3, 3, 3), Argb::new(255, 4, 4, 4)];
    let colors = WallpaperColors::from_color_map_with_ranking(map, ColorHints::empty(), &ranked);
    assert_eq!(colors.main_colors(), &ranked[..3]);
    assert_eq!(colors.secondary_color(), Some(&ranked[1]));
    assert_eq!(colors.tertiary_color(), Some(&ranked[2]));
}

#[test]
fn test_count_colors_total_population() {
    let bitmap = quadrant_bitmap(100);
    let population = count_colors(&bitmap);
    let entries = population.to_vec();
    assert_eq!(
        entries,
        vec![(0xffff0000, 2500), (0xff00ff00, 2500), (0xff0000ff, 2500), (0xffffff00, 2500)]
    );
    let total: u32 = entries.iter().map(|e| e.1).sum();
    assert_eq!(total, 100 * 100);
}

#[test]
fn test_count_colors_first_occurrence_order() {
    let pixels = vec![1, 2, 3, 4, 5, 6, 7, 8, 1, 2, 3, 4, 9, 9, 9, 9];
    let bitmap = Bitmap::new(2, 2, pixels).unwrap();
    let population = count_colors(&bitmap);
    let expected = vec![
        (argb_to_u32(Argb::new(4, 1, 2, 3)), 2),
        (argb_to_u32(Argb::new(8, 5, 6, 7)), 1),
        (argb_to_u32(Argb::new(9, 9, 9, 9)), 1),
    ];
    assert_eq!(population.to_vec(), expected);
}

#[test]
fn test_bitmap_new_and_get_pixel() {
    assert!(Bitmap::new(2, 2, vec![0; 15]).is_none());
    assert!(Bitmap::new(2, 2, vec![0; 17]).is_none());
    assert!(Bitmap::new(u32::MAX, 2, vec![]).is_none());
    let bitmap = Bitmap::new(2, 1, vec![10, 20, 30, 40, 50, 60, 70, 80]).unwrap();
    assert_eq!(bitmap.get_pixel(1, 0), Argb::new(80, 50, 60, 70));
    assert_eq!(bitmap.width(), 2);
    assert_eq!(bitmap.height(), 1);
    assert_eq!(bitmap.pixels().len(), 8);
}

#[test]
fn test_scale_bitmap() {
    let small = scale_bitmap(quadrant_bitmap(100));
    assert_eq!((small.width(), small.height()), (100, 100));
    let large = scale_bitmap(quadrant_bitmap(1000));
    assert_eq!((large.width(), large.height()), (112, 112));
    assert_eq!(large.pixels().len(), 112 * 112 * 4);
    let wide = scale_bitmap(solid_bitmap(Argb::new(255, 1, 2, 3), 500, 100));
    assert_eq!((wide.width(), wide.height()), (250, 50));
    assert_eq!(wide.get_pixel(249, 49), Argb::new(255, 1, 2, 3));
}

#[test]
fn test_seed_extraction_red() {
    let colors = material_colors_of(solid_bitmap(Argb::new(255, 255, 0, 0), 50, 50));
    let seed = *colors.primary_color();
    assert!(seed.red > seed.blue);
    assert!(seed.red > seed.green);
}

#[test]
fn test_seed_extraction_blue() {
    let colors = material_colors_of(solid_bitmap(Argb::new(255, 0, 0, 255), 50, 50));
    let seed = *colors.primary_color();
    assert!(seed.blue > seed.red);
    assert!(seed.blue > seed.green);
}

#[test]
fn test_seed_extraction_green() {
    let colors = material_colors_of(solid_bitmap(Argb::new(255, 0, 255, 0), 50, 50));
    let seed = *colors.primary_color();
    assert!(seed.green > seed.red);
    assert!(seed.green > seed.blue);
}

#[test]
fn test_from_scored_population_adds_from_bitmap_hint() {
    let colors = material_colors_of(quadrant_bitmap(10));
    assert!(colors.color_hints().contains(ColorHints::from_bitmap()));
    assert!(!colors.main_colors().is_empty());
    assert!(colors.main_colors().len() <= 3);
    let total: u32 = colors.all_colors().values().sum();
    assert_eq!(total, 100);
}

#[test]
fn test_wallpaper_colors_equality_and_clone() {
    let a = material_colors_of(quadrant_bitmap(10));
    let b = material_colors_of(quadrant_bitmap(10));
    assert_eq!(a, b);
    let c = a.clone();
    assert_eq!(a, c);
    assert!(format!("{:?}", a).contains("WallpaperColors"));
}

#[test]
fn test_single_pixel_population() {
    let colors = material_colors_of(solid_bitmap(Argb::new(255, 0, 255, 0), 1, 1));
    assert_eq!(colors.main_colors().len(), 1);
    assert_eq!(colors.all_colors().len(), 1);
}

#[test]
fn test_population_from_map() {
    let mut map = HashMap::new();
    map.insert(5u32, 1u32);
    map.insert(6u32, 2u32);
    let population = ColorPopulation::from_map(&map);
    let mut entries = population.to_vec();
    entries.sort();
    assert_eq!(entries, vec![(5, 1), (6, 2)]);
}

#[test]
fn test_from_color_map_large_counts_of_different_hues() {
    let mut map = HashMap::new();
    map.insert(0xffff0000u32, 4_000_000_000u32);
    map.insert(0xff0000ffu32, 1_000_000_000u32);
    let colors = WallpaperColors::from_color_map(map.clone(), ColorHints::empty());
    assert_eq!(colors.all_colors(), &map);
    assert!(!colors.main_colors().is_empty() && colors.main_colors().len() <= 3);
    for c in colors.main_colors() {
        assert!(map.contains_key(&argb_to_u32(*c)));
    }
    let checked = WallpaperColors::checked_from_color_map(map.clone(), ColorHints::empty());
    assert_eq!(checked.unwrap().all_colors(), &map);
}

#[test]
fn test_from_color_map_single_color_of_count_zero() {
    let mut map = HashMap::new();
    map.insert(0xffff0000u32, 0u32);
    let colors = WallpaperColors::checked_from_color_map(map.clone(), ColorHints::empty()).unwrap();
    assert_eq!(colors.all_colors(), &map);
    assert_eq!(colors.main_colors().len(), 1);
}

#[test]
fn test_checked_from_color_map_hue_overflow() {
    // the same red at two alphas has one hue; their counts overflow a u32
    let mut map = HashMap::new();
    map.insert(0xffff0000u32, 3_000_000_000u32);
    map.insert(0x80ff0000u32, 2_000_000_000u32);
    let r = WallpaperColors::checked_from_color_map(map, ColorHints::empty());
    assert_eq!(r.err(), Some(ColorMapError::HueCountOverflow));
}

#[test]
fn test_checked_from_color_map_unordered_scores() {
    let mut map = HashMap::new();
    map.insert(0xffff0000u32, 0u32);
    map.insert(0xff0000ffu32, 0u32);
    let r = WallpaperColors::checked_from_color_map(map, ColorHints::empty());
    assert_eq!(r.err(), Some(ColorMapError::UnorderedScores));
}

#[test]
fn test_checked_from_color_map_all_zero_grays_give_fallback() {
    let mut map = HashMap::new();
    map.insert(0xff808080u32, 0u32);
    map.insert(0xff404040u32, 0u32);
    let colors = WallpaperColors::checked_from_color_map(map, ColorHints::empty()).unwrap();
    assert_eq!(colors.main_colors(), &[Argb::new(255, 66, 133, 244)]);
}
