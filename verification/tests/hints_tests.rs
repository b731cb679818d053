use wallpaper_colors::hints::ColorHints;

#[test]
fn test_color_hints_bitflags() {
    let mut hints = ColorHints::empty();
    assert!(!hints.contains(ColorHints::supports_dark_text()));

    hints |= ColorHints::supports_dark_text();
    assert!(hints.contains(ColorHints::supports_dark_text()));

    hints |= ColorHints::supports_dark_theme();
    assert!(hints.contains(ColorHints::supports_dark_theme()));

    hints &= !ColorHints::supports_dark_text();
    assert!(!hints.contains(ColorHints::supports_dark_text()));
    assert!(hints.contains(ColorHints::supports_dark_theme()));
}

#[test]
fn test_color_hints_combinations() {
    let all = ColorHints::supports_dark_text() | ColorHints::supports_dark_theme() | ColorHints::from_bitmap();
    assert!(all.contains(ColorHints::supports_dark_text()));
    assert!(all.contains(ColorHints::supports_dark_theme()));
    assert!(all.contains(ColorHints::from_bitmap()));
}

#[test]
fn test_color_hints_set_and_remove() {
    let mut hints = ColorHints::from_bitmap();
    hints.set(ColorHints::supports_dark_theme(), true);
    assert_eq!(hints.bits(), 6);
    hints.set(ColorHints::from_bitmap(), false);
    assert_eq!(hints, ColorHints::supports_dark_theme());
    hints.remove(ColorHints::supports_dark_theme());
    assert!(hints.is_empty());
    hints.insert(ColorHints::supports_dark_text());
    assert_eq!(hints.bits(), 1);
}

#[test]
fn test_color_hints_operations() {
    let text = ColorHints::supports_dark_text();
    let theme = ColorHints::supports_dark_theme();
    assert_eq!((text | theme).bits(), 3);
    assert_eq!((text & theme).bits(), 0);
    assert_eq!((!text).bits(), 6);
    assert_eq!(text.complement().bits(), 6);
    assert_eq!(ColorHints::all().bits(), 7);
    assert_eq!(ColorHints::all().difference(theme).bits(), 5);
    assert_eq!(text.union(theme).intersection(theme), theme);
    assert!(text.union(theme).intersects(theme));
    assert!(!text.intersects(theme));
    assert_eq!(ColorHints::from_bits_retain(12).bits(), 12);
}
