use archer_duel::arrow::{flight, Arrow, SPEED_LIMIT, START_LIMIT, TIME_LIMIT};
use archer_duel::fixed::ONE;
use archer_duel::vector::Vec2;

#[test]
fn at_time_zero_the_arrow_has_not_moved() {
    for velocity in [0i64, 1, 5_000_000, -3_000_000, SPEED_LIMIT, -SPEED_LIMIT, i64::MAX, i64::MIN] {
        for angle in [0i64, 785_398, -2_000_000, 6_000_000, i64::MAX, i64::MIN] {
            assert_eq!(Arrow::get_trajectory(velocity, angle, 0), Vec2::new(0, 0));
        }
    }
}

#[test]
fn a_level_shot_advances_by_four_times_speed_times_time() {
    assert_eq!(Arrow::get_trajectory(100_000_000, 0, 60_000), Vec2::new(24_000_000, -64_800));
    assert_eq!(Arrow::get_trajectory(1_000_000, 0, 1_000_000), Vec2::new(4_000_000, -18_000_000));
}

#[test]
fn a_shot_at_an_eighth_turn() {
    assert_eq!(
        Arrow::get_trajectory(5_000_000, 785_398, 1_000_000),
        Vec2::new(14_142_140, -3_857_860)
    );
}

#[test]
fn a_shot_at_half_a_radian() {
    assert_eq!(Arrow::get_trajectory(7_000_000, 500_000, 300_000), Vec2::new(7_371_697, 2_407_178));
}

#[test]
fn a_shot_with_negative_speed_flies_backwards() {
    assert_eq!(
        Arrow::get_trajectory(-3_000_000, 1_000_000, 250_000),
        Vec2::new(-1_620_906, -3_649_413)
    );
}

#[test]
fn a_flight_at_the_limits_fits() {
    assert_eq!(
        flight(SPEED_LIMIT, ONE, ONE, TIME_LIMIT),
        Vec2::new(40_000_000_000_000_000, 39_982_000_000_000_000)
    );
    assert_eq!(
        flight(SPEED_LIMIT, -ONE, -ONE, TIME_LIMIT),
        Vec2::new(-40_000_000_000_000_000, -40_018_000_000_000_000)
    );
}

#[test]
fn a_standing_arrow_only_falls() {
    assert_eq!(flight(0, ONE, 0, 500_000), Vec2::new(0, -4_500_000));
    assert_eq!(flight(0, 0, ONE, 1_000_000), Vec2::new(0, -18_000_000));
}

#[test]
fn a_new_arrow_is_moving_and_has_not_flown() {
    let arrow = Arrow::new(42, Vec2::new(1, 2), 5_000_000, 785_398);
    assert_eq!(arrow.owner(), 42);
    assert!(arrow.is_moving());
    assert_eq!(arrow.current_time(), 0);
    assert_eq!(arrow.pos_at_time(0), Vec2::new(1, 2));
}

#[test]
fn set_moving_stops_and_starts_the_arrow() {
    let mut arrow = Arrow::new(1, Vec2::new(0, 0), 1_000_000, 0);
    arrow.set_moving(false);
    assert!(!arrow.is_moving());
    arrow.set_moving(true);
    assert!(arrow.is_moving());
    assert_eq!(arrow.owner(), 1);
    assert_eq!(arrow.current_time(), 0);
}

#[test]
fn the_position_is_the_start_plus_the_trajectory() {
    let arrow = Arrow::new(1, Vec2::new(-9_150_000, 1_600_000), 100_000_000, 0);
    assert_eq!(arrow.pos_at_time(60_000), Vec2::new(14_850_000, 1_535_200));
    let far = Arrow::new(1, Vec2::new(START_LIMIT, -START_LIMIT), SPEED_LIMIT, 0);
    assert_eq!(
        far.pos_at_time(TIME_LIMIT),
        Vec2::new(START_LIMIT + 40_000_000_000_000_000, -START_LIMIT - 18_000_000_000_000)
    );
}

#[test]
fn advance_adds_up_the_time_flown() {
    let mut arrow = Arrow::new(1, Vec2::new(-9_150_000, 1_600_000), 100_000_000, 0);
    assert_eq!(arrow.advance(20_000), arrow.pos_at_time(20_000));
    assert_eq!(arrow.current_time(), 20_000);
    assert_eq!(arrow.advance(40_000), Vec2::new(14_850_000, 1_535_200));
    assert_eq!(arrow.current_time(), 60_000);
}

#[test]
fn advance_keeps_the_time_within_its_limits() {
    let mut arrow = Arrow::new(1, Vec2::new(0, 0), 1_000_000, 0);
    arrow.advance(-5);
    assert_eq!(arrow.current_time(), 0);
    arrow.advance(i64::MAX);
    assert_eq!(arrow.current_time(), TIME_LIMIT);
    arrow.advance(i64::MAX);
    assert_eq!(arrow.current_time(), TIME_LIMIT);
    arrow.advance(i64::MIN);
    assert_eq!(arrow.current_time(), 0);
}

#[test]
fn the_arrow_does_not_jump_between_two_times() {
    let velocity: i64 = 9_000_000;
    for angle in [0i64, 400_000, 1_200_000, 2_500_000, -700_000] {
        let mut t: i64 = 0;
        while t < 3_000_000 {
            let a = Arrow::get_trajectory(velocity, angle, t);
            let b = Arrow::get_trajectory(velocity, angle, t + 10_000);
            let reach = 4 * velocity * 10_000 / ONE + 1;
            assert!((b.x - a.x).abs() <= reach);
            let fall = (4 * velocity * 10_000 + 18 * 10_000 * (2 * t + 10_000)) / ONE + 1;
            assert!((b.y - a.y).abs() <= fall);
            t += 10_000;
        }
    }
}

#[test]
fn a_faster_arrow_can_be_followed_for_a_shorter_time() {
    assert_eq!(
        Arrow::get_trajectory(1_000 * SPEED_LIMIT, 0, TIME_LIMIT / 1_000),
        Vec2::new(40_000_000_000_000_000, -18_000_000)
    );
    assert_eq!(flight(i64::MAX, ONE, ONE, 1), Vec2::new(36_893_488_147_419, 36_893_488_147_419));
}
