use clank_wasm::soil::deposit_stencil;

#[test]
fn radius_one_is_a_wrapped_cross() {
    let s = deposit_stencil(0, 0, 75, 50, 1);
    assert_eq!(s, vec![(0, 0), (3675, 1), (75, 1), (74, 1), (1, 1)]);
}

#[test]
fn radius_two_is_a_disc_in_row_order() {
    let s = deposit_stencil(0, 0, 75, 50, 2);
    assert_eq!(
        s,
        vec![
            (3600, 4),
            (3749, 2),
            (3675, 1),
            (3676, 2),
            (73, 4),
            (74, 1),
            (0, 0),
            (1, 1),
            (2, 4),
            (149, 2),
            (75, 1),
            (76, 2),
            (150, 4),
        ]
    );
}

#[test]
fn raw_coordinates_wrap_first() {
    assert_eq!(deposit_stencil(-1, -1, 75, 50, 0), vec![(49 * 75 + 74, 0)]);
    assert_eq!(deposit_stencil(75 * 3 + 4, 50 + 2, 75, 50, 0), vec![(2 * 75 + 4, 0)]);
}

#[test]
fn negative_radius_touches_nothing() {
    assert!(deposit_stencil(10, 10, 75, 50, -3).is_empty());
}

#[test]
fn disc_sizes() {
    assert_eq!(deposit_stencil(30, 20, 75, 50, 3).len(), 29);
    assert_eq!(deposit_stencil(30, 20, 75, 50, 0).len(), 1);
    for (idx, rr) in deposit_stencil(74, 49, 75, 50, 4) {
        assert!(idx < 75 * 50);
        assert!(rr <= 16);
    }
}
