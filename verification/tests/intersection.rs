use ray_tracer_challenge::intersection::{find_hit, Intersection};

/// A distance along a ray as the library takes it: a whole number that orders
/// as the distance does, zero for zero.
fn distance(t: f32) -> i64 {
    assert!(!t.is_nan());
    let bits = (t + 0.0).to_bits();
    if bits & 0x8000_0000 == 0 {
        i64::from(bits)
    } else {
        -i64::from(bits & 0x7fff_ffff)
    }
}

#[test]
fn test_an_intersection_encapsulates_t_and_an_object() {
    let s = 0;
    let i = Intersection::new(distance(3.5), s);
    assert_eq!(i.t, distance(3.5));
    assert_eq!(i.object, s);
}

#[test]
fn test_aggregating_intersections() {
    let s = 0;
    let i1 = Intersection::new(distance(1.0), s);
    let i2 = Intersection::new(distance(2.0), s);
    let intersections = vec![i1, i2];
    assert_eq!(intersections.len(), 2);
    assert_eq!(intersections[0].t, distance(1.0));
    assert_eq!(intersections[1].t, distance(2.0));
}

#[test]
fn test_the_hit_when_all_intersections_have_positive_t() {
    let s = 0;
    let i1 = Intersection::new(distance(1.0), s);
    let i2 = Intersection::new(distance(2.0), s);
    let xs = vec![i2, i1];
    let i = find_hit(xs);
    assert!(i.is_some());
    assert_eq!(i.unwrap(), i1);
}

#[test]
fn test_the_hit_when_some_intersections_have_negative_t() {
    let s = 0;
    let i1 = Intersection::new(distance(-1.0), s);
    let i2 = Intersection::new(distance(1.0), s);
    let xs = vec![i2, i1];
    let i = find_hit(xs);
    assert!(i.is_some());
    assert_eq!(i.unwrap(), i2);
}

#[test]
fn test_the_hit_when_all_intersections_have_negative_t() {
    let s = 0;
    let i1 = Intersection::new(distance(-2.0), s);
    let i2 = Intersection::new(distance(-1.0), s);
    let xs = vec![i2, i1];
    let i = find_hit(xs);
    assert!(i.is_none());
}

#[test]
fn test_the_hit_is_always_the_lowest_nonnegative_intersection() {
    let s = 0;
    let i1 = Intersection::new(distance(5.0), s);
    let i2 = Intersection::new(distance(7.0), s);
    let i3 = Intersection::new(distance(-3.0), s);
    let i4 = Intersection::new(distance(2.0), s);
    let xs = vec![i1, i2, i3, i4];
    let i = find_hit(xs);
    assert!(i.is_some());
    assert_eq!(i.unwrap(), i4);
}

#[test]
fn no_intersections_give_no_hit() {
    assert_eq!(find_hit(vec![]), None);
}

#[test]
fn an_intersection_at_the_origin_of_the_ray_is_a_hit() {
    let xs = vec![Intersection::new(3, 0), Intersection::new(0, 1), Intersection::new(-1, 2)];
    assert_eq!(find_hit(xs), Some(Intersection::new(0, 1)));
    assert_eq!(find_hit(vec![Intersection::new(distance(-0.0), 4)]), Some(Intersection::new(0, 4)));
}

#[test]
fn of_two_hits_at_the_same_distance_the_first_is_taken() {
    let xs = vec![
        Intersection::new(9, 0),
        Intersection::new(4, 1),
        Intersection::new(4, 2),
        Intersection::new(i64::MAX, 3),
        Intersection::new(i64::MIN, 4),
    ];
    assert_eq!(find_hit(xs), Some(Intersection::new(4, 1)));
}

#[test]
fn distances_keep_the_order_of_the_numbers_they_stand_for() {
    let numbers = [-7.5f32, -1.0, -0.25, 0.0, 0.25, 1.0, 4.5, 6.0, 1.0e30];
    for pair in numbers.windows(2) {
        assert!(distance(pair[0]) < distance(pair[1]));
    }
    assert_eq!(distance(0.0), 0);
    assert_eq!(distance(-0.0), 0);
    assert!(distance(f32::NEG_INFINITY) < distance(-1.0e30));
    assert!(distance(f32::INFINITY) > distance(1.0e30));
}
