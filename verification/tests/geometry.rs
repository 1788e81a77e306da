use triboard::Coord;
use triboard::PlanePos;
use triboard::PLANE_DEN;

#[test]
fn parity_takes_only_unit_values() {
    for x in -4isize..5 {
        for y in -4isize..5 {
            let p = Coord(x, y).parity();
            assert!(p == -1 || p == 1);
        }
    }
}

#[test]
fn parity_even_sum_is_down() {
    assert_eq!(Coord(0, 0).parity(), -1);
    assert_eq!(Coord(2, 0).parity(), -1);
    assert_eq!(Coord(-1, 1).parity(), -1);
    assert_eq!(Coord(-2, -2).parity(), -1);
}

#[test]
fn parity_odd_sum_is_up() {
    assert_eq!(Coord(1, 0).parity(), 1);
    assert_eq!(Coord(0, 1).parity(), 1);
    assert_eq!(Coord(-1, 0).parity(), 1);
    assert_eq!(Coord(-3, -2).parity(), 1);
}

#[test]
fn parity_is_kept_by_steps_of_two() {
    for x in -3isize..4 {
        for y in -3isize..4 {
            let p = Coord(x, y).parity();
            assert_eq!(p, Coord(x + 2, y).parity());
            assert_eq!(p, Coord(x, y + 2).parity());
            assert_ne!(p, Coord(x + 1, y).parity());
        }
    }
}

#[test]
fn texture_coords_formula_sample() {
    // Coord(2, 0) at scale 96: x = 2 * 96 / 2 = 96 lattice-plane units,
    // y = 0, both held in PLANE_DEN-ths.
    let r = Coord(2, 0).texture_coords(96);
    assert_eq!(r.x, 96 * PLANE_DEN);
    assert_eq!(r.y, 0);
}

#[test]
fn texture_coords_formula_general() {
    // x * scale / 2 and y * scale / 2 exactly, in PLANE_DEN-ths.
    let r = Coord(-3, 5).texture_coords(10);
    assert_eq!(r.x, -3 * 10 * (PLANE_DEN / 2));
    assert_eq!(r.y, 5 * 10 * (PLANE_DEN / 2));
}

#[test]
fn world_coords_shifts_by_parity_twelfth() {
    // Coord(0, 0) has parity -1: the piece centroid sits above the
    // apex by scale/12 in sqrt(3)-units.
    let r = Coord(0, 0).world_coords(96);
    assert_eq!(r.x, 0);
    assert_eq!(r.y, 96 * (PLANE_DEN / 12));
    // Coord(1, 0) has parity 1: shifted the other way.
    let r = Coord(1, 0).world_coords(96);
    assert_eq!(r.x, 96 * (PLANE_DEN / 2));
    assert_eq!(r.y, -96 * (PLANE_DEN / 12));
}

#[test]
fn projection_round_trip() {
    for x in -6isize..7 {
        for y in -6isize..7 {
            for scale in [1i64, 7, 96, 600] {
                let c = Coord(x, y);
                let p = c.texture_coords(scale);
                assert_eq!(Coord::from_world_coords(p, scale), c);
            }
        }
    }
}

#[test]
fn from_world_rounds_to_nearest_row() {
    // A point a little above the origin still maps to row 0.
    let p = PlanePos { x: 0, y: PLANE_DEN / 8 };
    assert_eq!(Coord::from_world_coords(p, 1), Coord(0, 0));
    // Row 1 sits at PLANE_DEN / 2 in sqrt(3)-units (scale 1); a point
    // a little under it maps there.
    let p = PlanePos { x: 0, y: PLANE_DEN / 2 - PLANE_DEN / 8 };
    assert_eq!(Coord::from_world_coords(p, 1), Coord(0, 1));
}

#[test]
fn coord_add_and_sub_are_componentwise() {
    assert_eq!(Coord(3, -4).add(Coord(-1, 6)), Coord(2, 2));
    assert_eq!(Coord(3, -4).sub(Coord(-1, 6)), Coord(4, -10));
}
