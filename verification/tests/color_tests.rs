use wallpaper_colors::color::{argb_to_u32, set_alpha_component, u32_to_argb, wrap_degrees, Argb};

#[test]
fn test_wrap_degrees() {
    assert_eq!(wrap_degrees(0), 0);
    assert_eq!(wrap_degrees(360), 0);
    assert_eq!(wrap_degrees(450), 90);
    assert_eq!(wrap_degrees(-10), 350);
    assert_eq!(wrap_degrees(-370), 350);
    assert_eq!(wrap_degrees(720), 0);
    assert_eq!(wrap_degrees(-720), 0);
    assert_eq!(wrap_degrees(180), 180);
    assert_eq!(wrap_degrees(-180), 180);
}

#[test]
fn test_wrap_degrees_extremes() {
    assert_eq!(wrap_degrees(i32::MAX), 2147483647 % 360);
    assert_eq!(wrap_degrees(i32::MIN), (i32::MIN % 360 + 360) % 360);
    assert_eq!(wrap_degrees(359), 359);
    assert_eq!(wrap_degrees(-1), 359);
}

#[test]
fn test_set_alpha_component() {
    let color = Argb::new(255, 100, 150, 200);
    let new_color = set_alpha_component(color, 128);
    assert_eq!(new_color.alpha, 128);
    assert_eq!(new_color.red, 100);
    assert_eq!(new_color.green, 150);
    assert_eq!(new_color.blue, 200);
}

#[test]
fn test_set_alpha_component_full_opaque() {
    let color = Argb::new(0, 100, 150, 200);
    let new_color = set_alpha_component(color, 255);
    assert_eq!(new_color.alpha, 255);
}

#[test]
fn test_set_alpha_component_full_transparent() {
    let color = Argb::new(255, 100, 150, 200);
    let new_color = set_alpha_component(color, 0);
    assert_eq!(new_color.alpha, 0);
}

#[test]
fn test_argb_to_u32_roundtrip() {
    let argb = Argb::new(255, 128, 64, 32);
    let u32_val = argb_to_u32(argb);
    let roundtrip = u32_to_argb(u32_val);
    assert_eq!(argb, roundtrip);
}

#[test]
fn test_argb_to_u32_known_values() {
    assert_eq!(argb_to_u32(Argb::new(255, 0, 0, 0)), 0xff000000);
    assert_eq!(argb_to_u32(Argb::new(255, 255, 255, 255)), 0xffffffff);
    assert_eq!(argb_to_u32(Argb::new(255, 255, 0, 0)), 0xffff0000);
    assert_eq!(argb_to_u32(Argb::new(0, 0, 0, 0)), 0x00000000);
}

#[test]
fn test_u32_to_argb_known_values() {
    assert_eq!(u32_to_argb(0x12345678), Argb::new(0x12, 0x34, 0x56, 0x78));
    assert_eq!(u32_to_argb(0xff0000ff), Argb::new(255, 0, 0, 255));
    assert_eq!(argb_to_u32(u32_to_argb(0xdeadbeef)), 0xdeadbeef);
}
