use axial::viewport::{has_area, Vsync};

#[test]
fn a_viewport_needs_both_sides() {
    assert!(has_area(854, 480));
    assert!(!has_area(0, 480));
    assert!(!has_area(854, 0));
    assert!(!has_area(0, 0));
    assert!(has_area(65535, 65537));
}

#[test]
fn toggling_twice_comes_back() {
    assert_eq!(Vsync::On.toggled(), Vsync::Off);
    assert_eq!(Vsync::Off.toggled(), Vsync::On);
    assert_eq!(Vsync::On.toggled().toggled(), Vsync::On);
}
