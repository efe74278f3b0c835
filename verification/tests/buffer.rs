use new_york_utils::Buffer;

#[test]
fn new_buffer_is_empty_with_a_zero_sum() {
    let buffer: Buffer<i32> = Buffer::new(3);
    assert_eq!(buffer.get_sum(), 0);
    assert_eq!(buffer.get_value(0), 0);
    assert_eq!(buffer.get_value(1), 0);
    assert_eq!(buffer.get_value(2), 0);
}

#[test]
fn get_value_counts_from_the_newest_value() {
    let mut buffer = Buffer::new(2);
    buffer.push(1);
    buffer.push(2);
    assert_eq!(buffer.get_value(0), 2);
    assert_eq!(buffer.get_value(1), 1);

    buffer.push(3);
    assert_eq!(buffer.get_value(0), 3);
    assert_eq!(buffer.get_value(1), 2);
    assert_eq!(buffer.get_value(2), 3);
}

#[test]
fn sum_follows_the_values_in_the_buffer() {
    let mut buffer = Buffer::new(2);
    buffer.push(1);
    buffer.push(2);
    assert_eq!(buffer.get_sum(), 3);

    buffer.push(3);
    assert_eq!(buffer.get_sum(), 5);
}

#[test]
fn after_the_newest_value_comes_the_oldest() {
    let mut buffer: Buffer<i64> = Buffer::new(3);
    buffer.push(10);
    buffer.push(20);
    buffer.push(30);
    assert_eq!(buffer.get_value(0), 30);
    assert_eq!(buffer.get_value(1), 10);
    assert_eq!(buffer.get_value(2), 20);
    assert_eq!(buffer.get_value(3), 30);
    assert_eq!(buffer.get_sum(), 60);
    buffer.push(40);
    assert_eq!(buffer.get_value(0), 40);
    assert_eq!(buffer.get_value(1), 20);
    assert_eq!(buffer.get_value(2), 30);
    assert_eq!(buffer.get_sum(), 90);
}

#[test]
fn qpush_stores_without_counting() {
    let mut buffer: Buffer<i32> = Buffer::new(2);
    buffer.push(1);
    buffer.qpush(5);
    assert_eq!(buffer.get_sum(), 1);
    assert_eq!(buffer.get_value(0), 5);
    assert_eq!(buffer.get_value(1), 1);
    buffer.push(7);
    assert_eq!(buffer.get_sum(), 8);
    assert_eq!(buffer.get_value(0), 7);
    assert_eq!(buffer.get_value(1), 5);
    buffer.push(2);
    assert_eq!(buffer.get_sum(), 5);
}

#[test]
fn buffer_of_one_slot_keeps_the_last_value() {
    let mut buffer: Buffer<u32> = Buffer::new(1);
    buffer.push(4);
    assert_eq!(buffer.get_sum(), 4);
    buffer.push(9);
    assert_eq!(buffer.get_sum(), 9);
    assert_eq!(buffer.get_value(0), 9);
    assert_eq!(buffer.get_value(5), 9);
}

#[test]
fn buffer_sums_floats() {
    let mut buffer: Buffer<f64> = Buffer::new(2);
    buffer.push(1.5);
    buffer.push(2.0);
    assert_eq!(buffer.get_sum(), 3.5);
    buffer.push(4.0);
    assert_eq!(buffer.get_sum(), 6.0);
}
