use mendel_vectorizer::bezier::{Bezier, Point, STEPS};

fn point(x: i32, y: i32) -> Point {
    Point { x, y }
}

fn bowed() -> Bezier {
    Bezier { start: point(0, 0), control1: point(10, 20), control2: point(30, -10), end: point(40, 0) }
}

#[test]
fn distance_of_a_three_four_five_triangle() {
    assert_eq!(point(0, 0).distance(&point(3, 4)), 5);
    assert_eq!(point(3, 4).distance(&point(0, 0)), 5);
}

#[test]
fn distance_is_rounded_down() {
    assert_eq!(point(0, 0).distance(&point(1, 1)), 1);
    assert_eq!(point(0, 0).distance(&point(2, 2)), 2);
    assert_eq!(point(-1, -1).distance(&point(2, 3)), 5);
    assert_eq!(point(0, 0).distance(&point(10, 0)), 10);
    assert_eq!(point(0, 0).distance(&point(0, 99)), 99);
}

#[test]
fn distance_to_itself_is_zero() {
    assert_eq!(point(7, -3).distance(&point(7, -3)), 0);
    assert_eq!(point(i32::MIN, i32::MAX).distance(&point(i32::MIN, i32::MAX)), 0);
}

#[test]
fn distance_across_the_whole_grid() {
    let low = point(i32::MIN, i32::MIN);
    let high = point(i32::MAX, i32::MAX);
    assert_eq!(low.distance(&high), 6_074_000_998);
    assert_eq!(point(i32::MIN, 0).distance(&point(i32::MAX, 0)), 4_294_967_295);
}

#[test]
fn middle_is_the_mean_of_both_coordinates() {
    assert_eq!(point(0, 0).middle(&point(10, 0)), point(5, 0));
    assert_eq!(point(2, 8).middle(&point(4, -8)), point(3, 0));
}

#[test]
fn middle_rounds_down() {
    assert_eq!(point(0, 0).middle(&point(1, 1)), point(0, 0));
    assert_eq!(point(-1, -1).middle(&point(0, 0)), point(-1, -1));
    assert_eq!(point(-3, 3).middle(&point(0, 0)), point(-2, 1));
}

#[test]
fn middle_of_the_far_corners_does_not_overflow() {
    assert_eq!(point(i32::MAX, i32::MAX).middle(&point(i32::MAX, i32::MAX)), point(i32::MAX, i32::MAX));
    assert_eq!(point(i32::MIN, i32::MIN).middle(&point(i32::MIN, i32::MIN)), point(i32::MIN, i32::MIN));
    assert_eq!(point(i32::MIN, i32::MAX).middle(&point(i32::MAX, i32::MIN)), point(-1, -1));
}

#[test]
fn first_sample_is_the_start() {
    let curve = bowed();
    assert_eq!(curve.sample(0, STEPS), Some(curve.start));
}

#[test]
fn last_sample_is_the_end() {
    let curve = bowed();
    assert_eq!(curve.sample(100, STEPS), Some(curve.end));
    assert_eq!(STEPS, 100);
}

#[test]
fn sampling_in_fewer_steps_gives_fewer_points() {
    let curve = bowed();
    assert_eq!(
        curve.samples(4),
        vec![point(0, 0), point(9, 7), point(20, 3), point(30, -1), point(40, 0)]
    );
    assert_eq!(curve.samples(3), vec![point(0, 0), point(12, 6), point(27, 0), point(40, 0)]);
    assert_eq!(curve.samples(1), vec![curve.start, curve.end]);
    assert_eq!(curve.sample(2, 4), Some(point(20, 3)));
    assert_eq!(curve.sample(5, 4), None);
}

#[test]
fn sampling_in_no_step_gives_the_start_alone() {
    let curve = bowed();
    assert_eq!(curve.samples(0), vec![curve.start]);
    assert_eq!(curve.sample(0, 0), Some(curve.start));
    assert_eq!(curve.sample(1, 0), None);
    let mut cursor = curve.iter_with(0);
    assert_eq!(cursor.next(), Some(curve.start));
    assert_eq!(cursor.next(), None);
}

#[test]
fn sampling_in_the_largest_number_of_steps() {
    let curve = bowed();
    assert_eq!(curve.sample(0, u16::MAX), Some(curve.start));
    assert_eq!(curve.sample(1, u16::MAX), Some(point(0, 0)));
    assert_eq!(curve.sample(16384, u16::MAX), Some(point(9, 7)));
    assert_eq!(curve.sample(32768, u16::MAX), Some(point(20, 3)));
    assert_eq!(curve.sample(65535, u16::MAX), Some(curve.end));
    assert_eq!(curve.sample(65536, u16::MAX), None);
    let wide = Bezier {
        start: point(i32::MIN, i32::MAX),
        control1: point(i32::MAX, i32::MIN),
        control2: point(i32::MIN, i32::MIN),
        end: point(i32::MAX, i32::MIN),
    };
    let points = wide.samples(u16::MAX);
    assert_eq!(points.len(), 65536);
    assert_eq!(points[0], wide.start);
    assert_eq!(points[65535], wide.end);
}

#[test]
fn the_first_and_last_sample_are_the_ends_whatever_the_steps() {
    let curve = bowed();
    for steps in [1u16, 2, 3, 7, 10, 99, 100, 101, 1000, 4096, u16::MAX] {
        assert_eq!(curve.sample(0, steps), Some(curve.start));
        assert_eq!(curve.sample(steps as u32, steps), Some(curve.end));
        assert_eq!(curve.sample(steps as u32 + 1, steps), None);
    }
}

#[test]
fn no_sample_past_the_last_step() {
    let curve = bowed();
    assert_eq!(curve.sample(101, STEPS), None);
    assert_eq!(curve.sample(u32::MAX, STEPS), None);
}

#[test]
fn samples_follow_the_blending_weights() {
    let curve = bowed();
    assert_eq!(curve.sample(1, STEPS), Some(point(0, 0)));
    assert_eq!(curve.sample(25, STEPS), Some(point(9, 7)));
    assert_eq!(curve.sample(50, STEPS), Some(point(20, 3)));
    assert_eq!(curve.sample(75, STEPS), Some(point(30, -1)));
    assert_eq!(curve.sample(99, STEPS), Some(point(39, 0)));
}

#[test]
fn samples_round_toward_zero() {
    let shallow = Bezier { start: point(0, 0), control1: point(0, -1), control2: point(0, -1), end: point(0, 0) };
    assert_eq!(shallow.sample(50, STEPS), Some(point(0, 0)));
    let deeper = Bezier { start: point(0, 0), control1: point(0, -2), control2: point(0, -2), end: point(0, 0) };
    assert_eq!(deeper.sample(50, STEPS), Some(point(0, -1)));
}

#[test]
fn endpoints_are_sampled_exactly_at_the_limits_of_the_grid() {
    let curve = Bezier {
        start: point(i32::MIN, i32::MAX),
        control1: point(i32::MAX, i32::MIN),
        control2: point(i32::MIN, i32::MIN),
        end: point(i32::MAX, i32::MIN),
    };
    assert_eq!(curve.sample(0, STEPS), Some(curve.start));
    assert_eq!(curve.sample(100, STEPS), Some(curve.end));
}

#[test]
fn cursor_returns_every_sample_once_and_then_nothing() {
    let curve = bowed();
    let mut cursor = curve.iter();
    let mut k: u32 = 0;
    while let Some(p) = cursor.next() {
        assert_eq!(Some(p), curve.sample(k, STEPS));
        k += 1;
    }
    assert_eq!(k, 101);
    assert_eq!(cursor.next(), None);
    assert_eq!(cursor.next(), None);
}

#[test]
fn a_curve_can_be_sampled_again() {
    let curve = bowed();
    let first = curve.samples(STEPS);
    let second = curve.samples(STEPS);
    assert_eq!(first, second);
    let mut cursor = curve.iter();
    assert_eq!(cursor.next(), Some(curve.start));
    let mut again = curve.iter();
    assert_eq!(again.next(), Some(curve.start));
}

#[test]
fn samples_lists_all_points_in_order() {
    let curve = bowed();
    let points = curve.samples(STEPS);
    assert_eq!(points.len(), 101);
    assert_eq!(points[0], curve.start);
    assert_eq!(points[50], point(20, 3));
    assert_eq!(points[100], curve.end);
}

#[test]
fn samples_stay_within_the_span_of_the_four_points() {
    let curve = bowed();
    for p in curve.samples(STEPS) {
        assert!(0 <= p.x && p.x <= 40);
        assert!(-10 <= p.y && p.y <= 20);
    }
}

#[test]
fn a_curve_of_one_point_samples_to_that_point() {
    let at = point(-7, 12);
    let curve = Bezier { start: at, control1: at, control2: at, end: at };
    for p in curve.samples(STEPS) {
        assert_eq!(p, at);
    }
}
