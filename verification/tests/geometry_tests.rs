use tower_defense::geometry::{integer_sqrt, Vec3, UNIT};

#[test]
fn integer_sqrt_rounds_down() {
    assert_eq!(integer_sqrt(0), 0);
    assert_eq!(integer_sqrt(1), 1);
    assert_eq!(integer_sqrt(2), 1);
    assert_eq!(integer_sqrt(3), 1);
    assert_eq!(integer_sqrt(4), 2);
    assert_eq!(integer_sqrt(15), 3);
    assert_eq!(integer_sqrt(16), 4);
    assert_eq!(integer_sqrt(17), 4);
    assert_eq!(integer_sqrt(1_000_000_000_000), 1_000_000);
    assert_eq!(integer_sqrt(999_999_999_999), 999_999);
}

#[test]
fn integer_sqrt_of_the_largest_numbers() {
    assert_eq!(integer_sqrt(u128::MAX), u64::MAX);
    let top = u64::MAX as u128;
    assert_eq!(integer_sqrt(top * top), u64::MAX);
    assert_eq!(integer_sqrt(top * top - 1), u64::MAX - 1);
}

#[test]
fn distance_squared_is_exact_at_the_extremes() {
    let a = Vec3::new(i32::MIN, i32::MIN, i32::MIN);
    let b = Vec3::new(i32::MAX, i32::MAX, i32::MAX);
    let side = u32::MAX as u128;
    assert_eq!(a.distance_squared(&b), 3 * side * side);
    assert_eq!(b.distance_squared(&a), 3 * side * side);
    assert_eq!(a.distance_squared(&a), 0);
}

#[test]
fn length_of_a_vector() {
    assert_eq!(Vec3::new(3, 4, 0).length(), 5);
    assert_eq!(Vec3::new(-3, 0, -4).length(), 5);
    assert_eq!(Vec3::new(1, 1, 1).length(), 1);
    assert_eq!(Vec3::new(0, 0, 0).length(), 0);
}

#[test]
fn within_includes_the_radius_itself() {
    let a = Vec3::new(0, 0, 0);
    assert!(a.within(&Vec3::new(500, 0, 0), 500));
    assert!(!a.within(&Vec3::new(501, 0, 0), 500));
    assert!(a.within(&Vec3::new(300, 400, 0), 500));
    assert!(!a.within(&Vec3::new(300, 400, 1), 500));
    assert!(a.within(&a, 0));
}

#[test]
fn saturating_add_stops_at_the_bounds() {
    let a = Vec3::new(i32::MAX, i32::MIN, 5);
    let b = Vec3::new(1, -1, 7);
    assert_eq!(a.saturating_add(&b), Vec3::new(i32::MAX, i32::MIN, 12));
}

#[test]
fn travel_along_an_axis() {
    let start = Vec3::new(0, 0, 0);
    let along_x = Vec3::new(UNIT, 0, 0);
    assert_eq!(start.travel(&along_x, 5000, 1_000_000), Vec3::new(5000, 0, 0));
    assert_eq!(start.travel(&along_x, 5000, 500_000), Vec3::new(2500, 0, 0));
    assert_eq!(start.travel(&along_x, -5000, 1_000_000), Vec3::new(-5000, 0, 0));
}

#[test]
fn travel_normalises_the_direction() {
    let start = Vec3::new(0, 0, 0);
    assert_eq!(start.travel(&Vec3::new(3, 4, 0), 5000, 1_000_000), Vec3::new(3000, 4000, 0));
    assert_eq!(start.travel(&Vec3::new(-30, 0, 40), 1000, 2_000_000), Vec3::new(-1200, 0, 1600));
}

#[test]
fn travel_rounds_toward_zero() {
    let start = Vec3::new(0, 0, 0);
    assert_eq!(start.travel(&Vec3::new(1, 0, 0), 1, 1_999_999), Vec3::new(1, 0, 0));
    assert_eq!(start.travel(&Vec3::new(-1, 0, 0), 1, 1_999_999), Vec3::new(-1, 0, 0));
    assert_eq!(start.travel(&Vec3::new(1, 0, 0), 1, 999_999), Vec3::new(0, 0, 0));
    assert_eq!(start.travel(&Vec3::new(-1, 0, 0), 1, 999_999), Vec3::new(0, 0, 0));
}

#[test]
fn travel_without_direction_or_time_stays() {
    let start = Vec3::new(7, 8, 9);
    assert_eq!(start.travel(&Vec3::new(0, 0, 0), 5000, 1_000_000), start);
    assert_eq!(start.travel(&Vec3::new(UNIT, 0, 0), 5000, 0), start);
    assert_eq!(start.travel(&Vec3::new(UNIT, 0, 0), 5000, -1_000_000), start);
}

#[test]
fn travel_saturates_at_the_bounds() {
    let start = Vec3::new(i32::MAX - 1, 0, 0);
    let along_x = Vec3::new(UNIT, 0, 0);
    assert_eq!(start.travel(&along_x, i32::MAX, i64::MAX), Vec3::new(i32::MAX, 0, 0));
    assert_eq!(start.travel(&along_x, i32::MIN, i64::MAX), Vec3::new(i32::MIN, 0, 0));
}

#[test]
fn direction_to_has_unit_length() {
    let from = Vec3::new(0, 0, 0);
    assert_eq!(from.direction_to(&Vec3::new(10_000, 0, 0)), Some(Vec3::new(UNIT, 0, 0)));
    assert_eq!(from.direction_to(&Vec3::new(0, -7, 0)), Some(Vec3::new(0, -UNIT, 0)));
    assert_eq!(
        from.direction_to(&Vec3::new(3000, 0, -4000)),
        Some(Vec3::new(600_000, 0, -800_000))
    );
}

#[test]
fn direction_to_the_same_point_is_none() {
    let p = Vec3::new(5, -6, 7);
    assert_eq!(p.direction_to(&p), None);
}

#[test]
fn direction_between_the_extremes() {
    let a = Vec3::new(i32::MIN, 0, 0);
    let b = Vec3::new(i32::MAX, 0, 0);
    assert_eq!(a.direction_to(&b), Some(Vec3::new(UNIT, 0, 0)));
    assert_eq!(b.direction_to(&a), Some(Vec3::new(-UNIT, 0, 0)));
}

#[test]
fn travel_along_a_short_direction_covers_speed_times_time() {
    let start = Vec3::new(0, 0, 0);
    assert_eq!(start.travel(&Vec3::new(1, 1, 0), 5000, 1_000_000), Vec3::new(3535, 3535, 0));
    assert_eq!(start.travel(&Vec3::new(1, 1, 1), 5000, 1_000_000), Vec3::new(2886, 2886, 2886));
    assert_eq!(start.travel(&Vec3::new(-1, 0, 1), 1000, 2_000_000), Vec3::new(-1414, 0, 1414));
    assert_eq!(start.travel(&Vec3::new(0, 2, 0), 5000, 1_000_000), Vec3::new(0, 5000, 0));
}

#[test]
fn travel_does_not_depend_on_the_length_of_the_direction() {
    let start = Vec3::new(10, -20, 30);
    let short = start.travel(&Vec3::new(1, 2, -2), 6000, 500_000);
    let long = start.travel(&Vec3::new(100_000, 200_000, -200_000), 6000, 500_000);
    assert_eq!(short, Vec3::new(1010, 1980, -1970));
    assert_eq!(long, short);
    let longest = start.travel(&Vec3::new(i32::MAX, i32::MAX, i32::MAX), 5000, 1_000_000);
    assert_eq!(longest, Vec3::new(2896, 2866, 2916));
}

#[test]
fn direction_to_a_near_point_has_unit_length() {
    let from = Vec3::new(0, 0, 0);
    assert_eq!(from.direction_to(&Vec3::new(1, 1, 0)), Some(Vec3::new(707_107, 707_107, 0)));
    assert_eq!(
        from.direction_to(&Vec3::new(-1, 1, 1)),
        Some(Vec3::new(-577_350, 577_350, 577_350))
    );
    assert_eq!(from.direction_to(&Vec3::new(0, 0, 1)), Some(Vec3::new(0, 0, UNIT)));
}

#[test]
fn direction_to_is_of_unit_length_within_two() {
    let from = Vec3::new(-7, 3, 11);
    let targets = [
        Vec3::new(-6, 3, 11),
        Vec3::new(-6, 4, 12),
        Vec3::new(1000, -2000, 3000),
        Vec3::new(i32::MAX, i32::MIN, i32::MAX),
        Vec3::new(i32::MIN, 17, 0),
        Vec3::new(12, 3, 11),
    ];
    for target in targets.iter() {
        let d = from.direction_to(target).unwrap();
        let length = d.length() as i64;
        assert!((UNIT as i64 - 2..=UNIT as i64 + 1).contains(&length));
    }
}

#[test]
fn a_step_of_less_than_a_thousandth_is_lost() {
    let start = Vec3::new(0, 0, 0);
    let along_x = Vec3::new(UNIT, 0, 0);
    assert_eq!(start.travel(&along_x, 50, 16_666), start);
    assert_eq!(start.travel(&along_x, 50, 19_999), start);
    assert_eq!(start.travel(&along_x, 50, 20_000), Vec3::new(1, 0, 0));
    assert_eq!(start.travel(&along_x, 50, 39_999), Vec3::new(1, 0, 0));
}
