use mmap_bytey::time::{read_duration, write_duration};
use mmap_bytey::{new_duration, BufferPool, ByteOrder, MByteBuffer, MByteBufferError};

#[test]
fn new_duration_carries_nanos() {
    let d = new_duration(5, 2_500_000_000).unwrap();
    assert_eq!(d.as_secs(), 7);
    assert_eq!(d.subsec_nanos(), 500_000_000);
    let d = new_duration(u64::MAX, 999_999_999).unwrap();
    assert_eq!(d.as_secs(), u64::MAX);
    assert_eq!(d.subsec_nanos(), 999_999_999);
}

#[test]
fn new_duration_rejects_overflow() {
    match new_duration(u64::MAX, 1_000_000_000) {
        Err(MByteBufferError::OtherError { error }) => {
            assert_eq!(
                error,
                "Invalid Duration: secs: 18446744073709551615 nanos: 1000000000"
            );
        }
        _ => panic!("expected the seconds to overflow"),
    }
}

#[test]
fn duration_round_trip_in_each_order() {
    let mut pool = BufferPool::new();
    let t = pool.register_thread();
    let mut buffer = MByteBuffer::new(&mut pool, t).unwrap();
    let d = new_duration(90, 123_456_789).unwrap();
    for order in [ByteOrder::Little, ByteOrder::Big] {
        buffer.move_cursor_to_start();
        write_duration(&mut buffer, &mut pool, d, order).unwrap();
        assert_eq!(buffer.cursor(), 12);
        buffer.move_cursor(0).unwrap();
        assert_eq!(read_duration(&mut buffer, &pool, order).unwrap(), d);
    }
    buffer.move_cursor(0).unwrap();
    assert_eq!(buffer.read_be::<u64>(&pool).unwrap(), 90);
    assert_eq!(buffer.read_be::<u32>(&pool).unwrap(), 123_456_789);
}

#[test]
fn duration_read_stops_at_length() {
    let mut pool = BufferPool::new();
    let t = pool.register_thread();
    let mut buffer = MByteBuffer::new(&mut pool, t).unwrap();
    buffer.write_le(&mut pool, 3u64).unwrap();
    buffer.write_slice(&mut pool, &[1, 2]).unwrap();
    buffer.move_cursor(0).unwrap();
    match read_duration(&mut buffer, &pool, ByteOrder::Little) {
        Err(MByteBufferError::ReadOutOfBounds { length, start, end }) => {
            assert_eq!((length, start, end), (10, 8, 12));
        }
        _ => panic!("expected the nanoseconds to be missing"),
    }
    assert_eq!(buffer.cursor(), 8);
}
