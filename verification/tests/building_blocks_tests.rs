use circle_maze::building_blocks::{
    calc_total_arcs, round_down_to_power_of2, Angle, CircleCoordinate,
};

#[test]
fn test_round_down_to_power_of2() {
    assert_eq!(round_down_to_power_of2(0), 1);
    assert_eq!(round_down_to_power_of2(1), 1);
    assert_eq!(round_down_to_power_of2(2), 2);
    assert_eq!(round_down_to_power_of2(3), 2);
    assert_eq!(round_down_to_power_of2(4), 4);
    assert_eq!(round_down_to_power_of2(5), 4);
    assert_eq!(round_down_to_power_of2(8), 8);
    assert_eq!(round_down_to_power_of2(15), 8);
    assert_eq!(round_down_to_power_of2(1025), 1024);
}

#[test]
fn test_calc_total_arcs() {
    assert_eq!(calc_total_arcs(0), 6);
    assert_eq!(calc_total_arcs(1), 6);
    assert_eq!(calc_total_arcs(2), 12);
    assert_eq!(calc_total_arcs(3), 12);
    assert_eq!(calc_total_arcs(4), 24);
    assert_eq!(calc_total_arcs(5), 24);
    assert_eq!(calc_total_arcs(6), 24);
    assert_eq!(calc_total_arcs(7), 24);
    assert_eq!(calc_total_arcs(8), 48);
    assert_eq!(calc_total_arcs(9), 48);
    assert_eq!(calc_total_arcs(10), 48);
}

#[test]
fn test_create_with_arc_index() {
    let coord0 = CircleCoordinate::create_with_arc_index(0, 0).unwrap();
    assert_eq!(coord0.angle, Angle::new(0, 1));

    let coord1 = CircleCoordinate::create_with_arc_index(0, 1).unwrap();
    assert_eq!(coord1.angle, Angle::new(60, 1));

    let coord2 = CircleCoordinate::create_with_arc_index(0, 2).unwrap();
    assert_eq!(coord2.angle, Angle::new(120, 1));

    let coord3 = CircleCoordinate::create_with_arc_index(0, 3).unwrap();
    assert_eq!(coord3.angle, Angle::new(180, 1));

    let coord4 = CircleCoordinate::create_with_arc_index(0, 4).unwrap();
    assert_eq!(coord4.angle, Angle::new(240, 1));

    let coord5 = CircleCoordinate::create_with_arc_index(0, 5).unwrap();
    assert_eq!(coord5.angle, Angle::new(300, 1));

    let coord0_c1 = CircleCoordinate::create_with_arc_index(1, 0).unwrap();
    assert_eq!(coord0_c1.angle, Angle::new(0, 1));

    let coord1_c1 = CircleCoordinate::create_with_arc_index(1, 1).unwrap();
    assert_eq!(coord1_c1.angle, Angle::new(60, 1));

    let coord2_c1 = CircleCoordinate::create_with_arc_index(1, 2).unwrap();
    assert_eq!(coord2_c1.angle, Angle::new(120, 1));

    let coord3_c1 = CircleCoordinate::create_with_arc_index(1, 3).unwrap();
    assert_eq!(coord3_c1.angle, Angle::new(180, 1));

    let coord4_c1 = CircleCoordinate::create_with_arc_index(1, 4).unwrap();
    assert_eq!(coord4_c1.angle, Angle::new(240, 1));

    let coord5_c1 = CircleCoordinate::create_with_arc_index(1, 5).unwrap();
    assert_eq!(coord5_c1.angle, Angle::new(300, 1));

    let coord1_c10 = CircleCoordinate::create_with_arc_index(10, 1).unwrap();
    assert_eq!(coord1_c10.angle, Angle::new(360, 48));
}

#[test]
fn test_create_with_fraction() {
    let coord0 = CircleCoordinate::create_with_fraction(0, Angle::new(0, 1)).unwrap();
    assert_eq!(coord0.arc_index, 0);

    let coord1 = CircleCoordinate::create_with_fraction(0, Angle::new(60, 1)).unwrap();
    assert_eq!(coord1.arc_index, 1);

    let coord2 = CircleCoordinate::create_with_fraction(0, Angle::new(120, 1)).unwrap();
    assert_eq!(coord2.arc_index, 2);

    let coord3 = CircleCoordinate::create_with_fraction(0, Angle::new(180, 1)).unwrap();
    assert_eq!(coord3.arc_index, 3);

    let coord4 = CircleCoordinate::create_with_fraction(0, Angle::new(240, 1)).unwrap();
    assert_eq!(coord4.arc_index, 4);

    let coord5 = CircleCoordinate::create_with_fraction(0, Angle::new(300, 1)).unwrap();
    assert_eq!(coord5.arc_index, 5);
}

#[test]
fn test_next_clockwise() {
    let coord0 = CircleCoordinate::create_with_arc_index(0, 0).unwrap();
    let next = coord0.next_clockwise();
    assert_eq!(next.circle, 0);
    assert_eq!(next.arc_index, 1);
    assert_eq!(next.angle, Angle::new(60, 1));

    let coord1 = CircleCoordinate::create_with_arc_index(0, 1).unwrap();
    let next = coord1.next_clockwise();
    assert_eq!(next.circle, 0);
    assert_eq!(next.arc_index, 2);
    assert_eq!(next.angle, Angle::new(120, 1));

    let coord5 = CircleCoordinate::create_with_arc_index(0, 5).unwrap();
    let next = coord5.next_clockwise();
    assert_eq!(next.circle, 0);
    assert_eq!(next.arc_index, 0);
    assert_eq!(next.angle, Angle::new(0, 1));

    let coord2_0 = CircleCoordinate::create_with_arc_index(2, 0).unwrap();
    let next = coord2_0.next_clockwise();
    assert_eq!(next.circle, 2);
    assert_eq!(next.arc_index, 1);
    assert_eq!(next.angle, Angle::new(30, 1));

    let coord2_11 = CircleCoordinate::create_with_arc_index(2, 11).unwrap();
    let next = coord2_11.next_clockwise();
    assert_eq!(next.circle, 2);
    assert_eq!(next.arc_index, 0);
    assert_eq!(next.angle, Angle::new(0, 1));

    let coord4_23 = CircleCoordinate::create_with_arc_index(4, 23).unwrap();
    let next = coord4_23.next_clockwise();
    assert_eq!(next.circle, 4);
    assert_eq!(next.arc_index, 0);
    assert_eq!(next.angle, Angle::new(0, 1));
}

#[test]
fn test_next_out() {
    let coord0_0 = CircleCoordinate::create_with_arc_index(0, 0).unwrap();
    let next = coord0_0.next_out();
    assert_eq!(next.circle, 1);
    assert_eq!(next.arc_index, 0);
    assert_eq!(next.angle, Angle::new(0, 1));

    let coord0_1 = CircleCoordinate::create_with_arc_index(0, 1).unwrap();
    let next = coord0_1.next_out();
    assert_eq!(next.circle, 1);
    assert_eq!(next.angle, Angle::new(60, 1));
    assert_eq!(next.arc_index, 1);

    let coord1_1 = CircleCoordinate::create_with_arc_index(1, 1).unwrap();
    let next = coord1_1.next_out();
    assert_eq!(next.circle, 2);
    assert_eq!(next.angle, Angle::new(60, 1));
    assert_eq!(next.arc_index, 2);

    let coord2_4 = CircleCoordinate::create_with_arc_index(2, 4).unwrap();
    let next = coord2_4.next_out();
    assert_eq!(next.circle, 3);
    assert_eq!(next.angle, Angle::new(120, 1));
    assert_eq!(next.arc_index, 4);

    let coord3_3 = CircleCoordinate::create_with_arc_index(3, 3).unwrap();
    let next = coord3_3.next_out();
    assert_eq!(next.circle, 4);
    assert_eq!(next.angle, Angle::new(90, 1));
    assert_eq!(next.arc_index, 6);
}

#[test]
fn test_next_counter_clockwise() {
    let coord1 = CircleCoordinate::create_with_arc_index(0, 1).unwrap();
    let prev = coord1.next_counter_clockwise();
    assert_eq!(prev.circle, 0);
    assert_eq!(prev.arc_index, 0);
    assert_eq!(prev.angle, Angle::new(0, 1));

    let coord2 = CircleCoordinate::create_with_arc_index(0, 2).unwrap();
    let prev = coord2.next_counter_clockwise();
    assert_eq!(prev.circle, 0);
    assert_eq!(prev.arc_index, 1);
    assert_eq!(prev.angle, Angle::new(60, 1));

    let coord0 = CircleCoordinate::create_with_arc_index(0, 0).unwrap();
    let prev = coord0.next_counter_clockwise();
    assert_eq!(prev.circle, 0);
    assert_eq!(prev.arc_index, 5);
    assert_eq!(prev.angle, Angle::new(300, 1));

    let coord2_0 = CircleCoordinate::create_with_arc_index(2, 0).unwrap();
    let prev = coord2_0.next_counter_clockwise();
    assert_eq!(prev.circle, 2);
    assert_eq!(prev.arc_index, 11);
    assert_eq!(prev.angle, Angle::new(330, 1));

    let coord2_5 = CircleCoordinate::create_with_arc_index(2, 5).unwrap();
    let prev = coord2_5.next_counter_clockwise();
    assert_eq!(prev.circle, 2);
    assert_eq!(prev.arc_index, 4);
    assert_eq!(prev.angle, Angle::new(120, 1));

    let coord4_0 = CircleCoordinate::create_with_arc_index(4, 0).unwrap();
    let prev = coord4_0.next_counter_clockwise();
    assert_eq!(prev.circle, 4);
    assert_eq!(prev.arc_index, 23);
    assert_eq!(prev.angle, Angle::new(345, 1));
}

#[test]
fn test_next_in() {
    let coord1_0 = CircleCoordinate::create_with_arc_index(1, 0).unwrap();
    let prev = coord1_0.next_in().unwrap();
    assert_eq!(prev.circle, 0);
    assert_eq!(prev.arc_index, 0);
    assert_eq!(prev.angle, Angle::new(0, 1));

    let coord1_1 = CircleCoordinate::create_with_arc_index(1, 1).unwrap();
    let prev = coord1_1.next_in().unwrap();
    assert_eq!(prev.circle, 0);
    assert_eq!(prev.angle, Angle::new(60, 1));
    assert_eq!(prev.arc_index, 1);

    let coord2_2 = CircleCoordinate::create_with_arc_index(2, 2).unwrap();
    let prev = coord2_2.next_in().unwrap();
    assert_eq!(prev.circle, 1);
    assert_eq!(prev.angle, Angle::new(60, 1));
    assert_eq!(prev.arc_index, 1);

    let coord3_4 = CircleCoordinate::create_with_arc_index(3, 4).unwrap();
    let prev = coord3_4.next_in().unwrap();
    assert_eq!(prev.circle, 2);
    assert_eq!(prev.angle, Angle::new(120, 1));
    assert_eq!(prev.arc_index, 4);

    let coord4_6 = CircleCoordinate::create_with_arc_index(4, 6).unwrap();
    let prev = coord4_6.next_in().unwrap();
    assert_eq!(prev.circle, 3);
    assert_eq!(prev.angle, Angle::new(90, 1));
    assert_eq!(prev.arc_index, 3);

    let coord0_0 = CircleCoordinate::create_with_arc_index(0, 0).unwrap();
    let result = coord0_0.next_in();
    assert!(result.is_err());
    assert_eq!(result.unwrap_err(), "Cannot move inward from circle 0");
}

#[test]
fn test_full_clockwise_turn_returns_to_start() {
    for circle in 0..6 {
        let total: usize = calc_total_arcs(circle);
        let start = CircleCoordinate::create_with_arc_index(circle, 2 % total).unwrap();
        let mut coord = start;
        for _ in 0..total {
            coord = coord.next_clockwise();
        }
        assert_eq!(coord, start);
        assert_eq!(coord.angle, start.angle);
    }
}

#[test]
fn test_out_then_in_preserves_coordinate() {
    for circle in 0..6 {
        let total: usize = calc_total_arcs(circle);
        for arc_index in [0, 1, total - 1] {
            let start = CircleCoordinate::create_with_arc_index(circle, arc_index).unwrap();
            let back = start.next_out().next_in().unwrap();
            assert_eq!(back, start);
            assert_eq!(back.angle, start.angle);
        }
    }
}

#[test]
fn test_create_with_arc_index_out_of_range() {
    let result = CircleCoordinate::create_with_arc_index(0, 6);
    assert_eq!(result.unwrap_err(), "arc index out of range");
    let result = CircleCoordinate::create_with_arc_index(2, 12);
    assert_eq!(result.unwrap_err(), "arc index out of range");
}

#[test]
fn test_create_with_fraction_rejects_misaligned_angle() {
    let result = CircleCoordinate::create_with_fraction(0, Angle::new(10, 1));
    assert_eq!(
        result.unwrap_err(),
        "angle is not an exact multiple of the arc step"
    );
    let result = CircleCoordinate::create_with_fraction(1, Angle::new(90, 1));
    assert_eq!(
        result.unwrap_err(),
        "angle is not an exact multiple of the arc step"
    );
    let result = CircleCoordinate::create_with_fraction(1, Angle::new(420, 1));
    assert_eq!(result.unwrap_err(), "arc index out of range");
}

#[test]
fn test_next_in_rejects_odd_arc_on_doubling_circle() {
    let coord2_3 = CircleCoordinate::create_with_arc_index(2, 3).unwrap();
    let result = coord2_3.next_in();
    assert_eq!(
        result.unwrap_err(),
        "angle is not an exact multiple of the arc step"
    );
}

#[test]
fn test_angle_reduces_to_lowest_terms() {
    let a = Angle::new(360, 48);
    assert_eq!(a.numer(), 15);
    assert_eq!(a.denom(), 2);
    let b = Angle::new(0, 6);
    assert_eq!(b.numer(), 0);
    assert_eq!(b.denom(), 1);
}
