use color::AlphaColor;

#[test]
fn from_rgba8_keeps_components() {
    let c = AlphaColor::from_rgba8(255, 128, 0, 64);
    assert_eq!(c.r, 255);
    assert_eq!(c.g, 128);
    assert_eq!(c.b, 0);
    assert_eq!(c.a, 64);
    assert_eq!(c.components(), [255, 128, 0, 64]);
}

#[test]
fn from_rgba8_equal_inputs_equal_colors() {
    assert_eq!(AlphaColor::from_rgba8(1, 2, 3, 4), AlphaColor::from_rgba8(1, 2, 3, 4));
    assert_ne!(AlphaColor::from_rgba8(1, 2, 3, 4), AlphaColor::from_rgba8(4, 3, 2, 1));
}
