use message_bus::buffer_index_for_time_offset;

#[test]
fn check_buffer_index_for_times_is_calculated_correctly() {
    assert_eq!(buffer_index_for_time_offset(0), 0);
    assert_eq!(buffer_index_for_time_offset(1), 0);
    assert_eq!(buffer_index_for_time_offset(2), 1);
    assert_eq!(buffer_index_for_time_offset(3), 2);
    assert_eq!(buffer_index_for_time_offset(4), 2);
    assert_eq!(buffer_index_for_time_offset(5), 3);
    assert_eq!(buffer_index_for_time_offset(100), 7);
    assert_eq!(buffer_index_for_time_offset(500), 9);
    assert_eq!(buffer_index_for_time_offset(750), 10);
    assert_eq!(buffer_index_for_time_offset(1000), 10);
    assert_eq!(buffer_index_for_time_offset(1025), 11);
}

#[test]
fn index_is_the_exponent_of_the_next_power_of_two() {
    for exponent in 1..31usize {
        let power = 1u64 << exponent;
        assert_eq!(buffer_index_for_time_offset(power), exponent);
        assert_eq!(buffer_index_for_time_offset(power + 1), exponent + 1);
        assert_eq!(buffer_index_for_time_offset(power - 1), if exponent == 1 { 0 } else { exponent });
    }
}

#[test]
fn index_never_leaves_the_buckets() {
    assert_eq!(buffer_index_for_time_offset(1 << 30), 30);
    assert_eq!(buffer_index_for_time_offset((1 << 30) + 1), 31);
    assert_eq!(buffer_index_for_time_offset(1 << 31), 31);
    assert_eq!(buffer_index_for_time_offset((1 << 31) + 1), 31);
    assert_eq!(buffer_index_for_time_offset(1 << 32), 31);
    assert_eq!(buffer_index_for_time_offset(1 << 63), 31);
    assert_eq!(buffer_index_for_time_offset((1 << 63) + 1), 31);
    assert_eq!(buffer_index_for_time_offset(u64::MAX), 31);
}

#[test]
fn index_does_not_fall_as_the_offset_grows() {
    let mut last = buffer_index_for_time_offset(0);
    for offset in 1..5000u64 {
        let index = buffer_index_for_time_offset(offset);
        assert!(last <= index);
        last = index;
    }
    let mut offset = 5000u64;
    while offset < u64::MAX / 3 {
        let index = buffer_index_for_time_offset(offset);
        assert!(last <= index);
        last = index;
        offset = offset * 3 + 1;
    }
}

#[test]
fn index_is_below_every_positive_offset() {
    for offset in 1..5000u64 {
        assert!((buffer_index_for_time_offset(offset) as u64) < offset);
    }
}
