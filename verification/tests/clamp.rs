use ray_tracer_challenge::clamp_i32;

#[test]
fn a_number_inside_the_range_is_kept() {
    assert_eq!(clamp_i32(128, 0, 255), 128);
    assert_eq!(clamp_i32(0, 0, 255), 0);
    assert_eq!(clamp_i32(255, 0, 255), 255);
}

#[test]
fn a_number_below_the_range_becomes_its_lower_end() {
    assert_eq!(clamp_i32(-1, 0, 255), 0);
    assert_eq!(clamp_i32(i32::MIN, 0, 255), 0);
    assert_eq!(clamp_i32(-128, -5, 5), -5);
}

#[test]
fn a_number_above_the_range_becomes_its_upper_end() {
    assert_eq!(clamp_i32(256, 0, 255), 255);
    assert_eq!(clamp_i32(383, 0, 255), 255);
    assert_eq!(clamp_i32(i32::MAX, 0, 255), 255);
}

#[test]
fn with_the_ends_exchanged_the_lower_end_is_tried_first() {
    assert_eq!(clamp_i32(7, 10, 0), 10);
    assert_eq!(clamp_i32(-3, 10, 0), 10);
    assert_eq!(clamp_i32(20, 10, 0), 0);
}
