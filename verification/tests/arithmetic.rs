use slicer::geometry::{
    distance_squared, integer_sqrt, interpolate, renormalize, round_ratio, Normal, Vertex,
    NORMAL_UNIT,
};

fn v(x: i32, y: i32) -> Vertex {
    Vertex { x, y }
}

#[test]
fn squared_distance_is_exact() {
    assert_eq!(distance_squared(v(0, 0), v(3, 4)), 25);
    assert_eq!(distance_squared(v(3, 4), v(0, 0)), 25);
    assert_eq!(distance_squared(v(7, 7), v(7, 7)), 0);
    assert_eq!(
        distance_squared(v(i32::MIN, i32::MIN), v(i32::MAX, i32::MAX)),
        2 * (u32::MAX as u128) * (u32::MAX as u128)
    );
}

#[test]
fn integer_square_roots_round_down() {
    assert_eq!(integer_sqrt(0), 0);
    assert_eq!(integer_sqrt(1), 1);
    assert_eq!(integer_sqrt(3), 1);
    assert_eq!(integer_sqrt(4), 2);
    assert_eq!(integer_sqrt(24), 4);
    assert_eq!(integer_sqrt(25), 5);
    assert_eq!(integer_sqrt(26), 5);
    assert_eq!(integer_sqrt(999_999), 999);
    assert_eq!(integer_sqrt(1_000_000), 1000);
    assert_eq!(integer_sqrt(u64::MAX), u32::MAX as u64);
    assert_eq!(integer_sqrt((u32::MAX as u64) * (u32::MAX as u64)), u32::MAX as u64);
    assert_eq!(integer_sqrt((u32::MAX as u64) * (u32::MAX as u64) - 1), u32::MAX as u64 - 1);
}

#[test]
fn directions_are_brought_to_unit_length() {
    let u = NORMAL_UNIT;
    assert_eq!(renormalize(3, 4), Normal { x: 600_000, y: 800_000 });
    assert_eq!(renormalize(-3, 4), Normal { x: -600_000, y: 800_000 });
    assert_eq!(renormalize(30, -40), Normal { x: 600_000, y: -800_000 });
    assert_eq!(renormalize(7, 0), Normal { x: u, y: 0 });
    assert_eq!(renormalize(0, -7), Normal { x: 0, y: -u });
    assert_eq!(renormalize(0, 0), Normal { x: 0, y: 0 });
    assert_eq!(renormalize(i32::MAX, 0), Normal { x: u, y: 0 });
    assert_eq!(renormalize(i32::MIN, 0), Normal { x: -u, y: 0 });
    // One over the square root of two is 0.70710678.
    assert_eq!(renormalize(1, 1), Normal { x: 707_107, y: 707_107 });
    assert_eq!(renormalize(1000, 1000), Normal { x: 707_107, y: 707_107 });
    assert_eq!(renormalize(-1000, 1000), Normal { x: -707_107, y: 707_107 });
    assert_eq!(renormalize(i32::MIN, i32::MIN), Normal { x: -707_107, y: -707_107 });
    assert_eq!(renormalize(i32::MAX, i32::MIN), Normal { x: 707_107, y: -707_107 });
    // One and two over the square root of five are 0.4472136 and 0.8944272.
    assert_eq!(renormalize(1, 2), Normal { x: 447_214, y: 894_427 });
    assert_eq!(renormalize(-1, -2), Normal { x: -447_214, y: -894_427 });
    // 1 / √(1 + 10^12) is 0.9999999999995e-6: less than a half of a millionth.
    assert_eq!(renormalize(1, 1_000_000), Normal { x: 1, y: u });
    assert_eq!(renormalize(1, 2_000_001), Normal { x: 0, y: u });
    assert_eq!(renormalize(1, 1_999_999), Normal { x: 1, y: u });
}

#[test]
fn unit_directions_are_of_unit_length_within_one() {
    let u = NORMAL_UNIT as i64;
    let mut state: u64 = 77;
    for round in 0..20000 {
        state = state.wrapping_mul(6364136223846793005).wrapping_add(1442695040888963407);
        let x = (state >> 32) as i32 >> (round % 31);
        state = state.wrapping_mul(6364136223846793005).wrapping_add(1442695040888963407);
        let y = (state >> 32) as i32 >> ((round / 31) % 31);
        if x == 0 && y == 0 {
            continue;
        }
        let n = renormalize(x, y);
        let length2 = n.x as i64 * n.x as i64 + n.y as i64 * n.y as i64;
        assert!((u - 1) * (u - 1) <= length2 && length2 <= (u + 1) * (u + 1));
        assert!(n.x.signum() == x.signum() || n.x == 0);
        assert!(n.y.signum() == y.signum() || n.y == 0);
        // each component is the nearest integer
        let length = ((x as f64).powi(2) + (y as f64).powi(2)).sqrt();
        assert!((n.x as f64 - x as f64 * u as f64 / length).abs() <= 0.5001);
        assert!((n.y as f64 - y as f64 * u as f64 / length).abs() <= 0.5001);
    }
}
#[test]
fn interpolation_rounds_to_the_nearest() {
    assert_eq!(interpolate(0, 10, 0, 3), 0);
    assert_eq!(interpolate(0, 10, 1, 3), 3);
    assert_eq!(interpolate(0, 10, 2, 3), 7);
    assert_eq!(interpolate(0, 10, 3, 3), 10);
    assert_eq!(interpolate(10, 0, 1, 3), 7);
    assert_eq!(interpolate(-10, 10, 1, 4), -5);
    assert_eq!(interpolate(0, 10, -1, -3), 3);
    assert_eq!(interpolate(0, -10, -2, -3), -7);
    // A half is rounded up, from whichever end it is reached.
    assert_eq!(interpolate(0, 1, 1, 2), 1);
    assert_eq!(interpolate(1, 0, 1, 2), 1);
    assert_eq!(interpolate(0, -1, 1, 2), 0);
    assert_eq!(interpolate(-1, 0, 1, 2), 0);
    assert_eq!(interpolate(i32::MIN, i32::MAX, 1, 1), i32::MAX);
    assert_eq!(interpolate(i32::MAX, i32::MIN, 1, 2), 0);
    assert_eq!(interpolate(i32::MIN, i32::MAX, 1, 2), 0);
    assert_eq!(interpolate(5, 5, 1, 7), 5);
    let far: i128 = 1 << 67;
    assert_eq!(interpolate(i32::MIN, i32::MAX, far, far), i32::MAX);
    assert_eq!(interpolate(i32::MIN, i32::MAX, -far / 2, -far), 0);
}

#[test]
fn fractions_round_to_the_nearest() {
    assert_eq!(round_ratio(7, 2), 4);
    assert_eq!(round_ratio(-7, 2), -3);
    assert_eq!(round_ratio(7, -2), -3);
    assert_eq!(round_ratio(-7, -2), 4);
    assert_eq!(round_ratio(10, 3), 3);
    assert_eq!(round_ratio(-10, 3), -3);
    assert_eq!(round_ratio(11, 3), 4);
    assert_eq!(round_ratio(-11, 3), -4);
    assert_eq!(round_ratio(0, 5), 0);
    assert_eq!(round_ratio(-2, 5), 0);
    assert_eq!(round_ratio(-3, 5), -1);
    assert_eq!(round_ratio(12, 4), 3);
    assert_eq!(round_ratio(-12, 4), -3);
    let far: i128 = 1 << 108;
    assert_eq!(round_ratio(far, 1), far);
    assert_eq!(round_ratio(-far, far), -1);
    assert_eq!(round_ratio(far, -far), -1);
    assert_eq!(round_ratio(far - 1, far), 1);
    assert_eq!(round_ratio(1, far), 0);
    assert_eq!(round_ratio(-1, far), 0);
}
