use circle_maze::building_blocks::{Angle, CircleCoordinate};
use circle_maze::geometry::{calc_display_angle, calc_display_radius};
use circle_maze::random::{RandomSource, SeededSource};

#[test]
fn test_calc_display_radius() {
    assert_eq!(calc_display_radius(0), 0);
    assert_eq!(calc_display_radius(1), 15);
    assert_eq!(calc_display_radius(3), 35);
}

#[test]
fn test_calc_display_angle_midpoints() {
    let apex = CircleCoordinate::create_with_arc_index(0, 0).unwrap();
    assert_eq!(calc_display_angle(&apex), Angle::new(0, 1));

    let c2_0 = CircleCoordinate::create_with_arc_index(2, 0).unwrap();
    assert_eq!(calc_display_angle(&c2_0), Angle::new(15, 1));

    let c1_1 = CircleCoordinate::create_with_arc_index(1, 1).unwrap();
    assert_eq!(calc_display_angle(&c1_1), Angle::new(90, 1));

    let c4_5 = CircleCoordinate::create_with_arc_index(4, 5).unwrap();
    assert_eq!(calc_display_angle(&c4_5), Angle::new(165, 2));
}

#[test]
fn test_seeded_source_draws_in_range() {
    let mut rng = SeededSource::new(99);
    for bound in 1..40 {
        let drawn: usize = rng.pick(bound);
        assert!(drawn < bound);
    }
}

#[test]
fn test_seeded_source_repeats_by_seed() {
    let mut a = SeededSource::new(1234);
    let mut b = SeededSource::new(1234);
    for _ in 0..20 {
        assert_eq!(a.pick(1000), b.pick(1000));
    }
}
