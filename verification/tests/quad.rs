use axial::quad::{extend_quad_ref_h, extend_quad_ref_w, quad_ref};

#[test]
fn quad_ref_packs_each_field_at_its_place() {
    assert_eq!(quad_ref(3, (0, 0, 0), 0, 0, 0), 3);
    assert_eq!(quad_ref(1, (1, 0, 0), 0, 4, 0), 1 | 1 << 32 | 4 << 51);
    assert_eq!(
        quad_ref(0xDEAD_BEEF, (1, 2, 3), 15, 31, 30),
        0xDEAD_BEEF | 1 << 32 | 2 << 37 | 3 << 42 | 15 << 47 | 31 << 51 | 30 << 56
    );
}

#[test]
fn quad_ref_wraps_coordinates_and_sizes() {
    assert_eq!(quad_ref(0, (32, 33, -1), 0, 32, 33), 1 << 37 | 31 << 42 | 1 << 56);
    assert_eq!(quad_ref(0, (-32, 0, 0), 1, 0, 0), 1 << 47);
}

#[test]
fn extending_adds_one_unit() {
    let mut quad = quad_ref(7, (1, 2, 3), 4, 5, 6);
    extend_quad_ref_w(&mut quad);
    assert_eq!(quad, quad_ref(7, (1, 2, 3), 4, 6, 6));
    extend_quad_ref_h(&mut quad);
    assert_eq!(quad, quad_ref(7, (1, 2, 3), 4, 6, 7));
}

#[test]
fn a_full_width_carries_into_the_height() {
    let mut quad = quad_ref(0, (0, 0, 0), 0, 31, 0);
    extend_quad_ref_w(&mut quad);
    assert_eq!(quad, quad_ref(0, (0, 0, 0), 0, 0, 1));
}
