use wallpaper_colors::cli::{parse_output, parse_seed_only, parse_strategy};
use wallpaper_colors::wallpaper::ScoringStrategy;

fn args(list: &[&str]) -> Vec<String> {
    list.iter().map(|s| s.to_string()).collect()
}

#[test]
fn test_parse_strategy() {
    assert_eq!(parse_strategy(&args(&["monet", "a.png"])), ScoringStrategy::MaterialColors);
    assert_eq!(parse_strategy(&args(&["monet", "a.png", "--strategy", "java"])), ScoringStrategy::JavaOriginal);
    assert_eq!(parse_strategy(&args(&["monet", "a.png", "--strategy", "material"])), ScoringStrategy::MaterialColors);
    assert_eq!(parse_strategy(&args(&["monet", "a.png", "--strategy", "other"])), ScoringStrategy::MaterialColors);
    assert_eq!(parse_strategy(&args(&["monet", "a.png", "--strategy"])), ScoringStrategy::MaterialColors);
    assert_eq!(
        parse_strategy(&args(&["monet", "--strategy", "material", "--strategy", "java"])),
        ScoringStrategy::MaterialColors
    );
}

#[test]
fn test_parse_output() {
    assert_eq!(parse_output(&args(&["monet", "a.png"])), None);
    assert_eq!(parse_output(&args(&["monet", "a.png", "--output", "x.json"])), Some("x.json"));
    assert_eq!(parse_output(&args(&["monet", "a.png", "-o", "y.json"])), Some("y.json"));
    assert_eq!(parse_output(&args(&["monet", "a.png", "-o"])), None);
    assert_eq!(parse_output(&args(&["monet", "-o", "first", "--output", "second"])), Some("first"));
}

#[test]
fn test_parse_seed_only() {
    assert!(!parse_seed_only(&args(&["monet", "a.png"])));
    assert!(parse_seed_only(&args(&["monet", "a.png", "--seed-only"])));
    assert!(parse_seed_only(&args(&["--seed-only"])));
}
