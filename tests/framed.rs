use mmap_bytey::framed::{read_bytes, write_bytes};
use mmap_bytey::{BufferPool, ByteOrder, MByteBuffer, MByteBufferError};

fn setup() -> (BufferPool, MByteBuffer) {
    let mut pool = BufferPool::new();
    let t = pool.register_thread();
    let buffer = MByteBuffer::new(&mut pool, t).unwrap();
    (pool, buffer)
}

#[test]
fn bytes_round_trip_with_length_prefix() {
    let (mut pool, mut buffer) = setup();
    write_bytes(&mut buffer, &mut pool, &[9, 8, 7], ByteOrder::Big).unwrap();
    assert_eq!(buffer.length(), 11);
    assert_eq!(buffer.as_slice(&pool), &[0, 0, 0, 0, 0, 0, 0, 3, 9, 8, 7]);
    buffer.move_cursor(0).unwrap();
    assert_eq!(read_bytes(&mut buffer, &pool, ByteOrder::Big).unwrap(), vec![9, 8, 7]);
    assert_eq!(buffer.cursor(), 11);
}

#[test]
fn empty_bytes_are_length_only() {
    let (mut pool, mut buffer) = setup();
    write_bytes(&mut buffer, &mut pool, &[], ByteOrder::Little).unwrap();
    assert_eq!(buffer.length(), 8);
    buffer.move_cursor(0).unwrap();
    assert_eq!(read_bytes(&mut buffer, &pool, ByteOrder::Little).unwrap(), Vec::<u8>::new());
}

#[test]
fn bytes_past_capacity_fail() {
    let (mut pool, mut buffer) = setup();
    let big = vec![1u8; 1020];
    let ret = write_bytes(&mut buffer, &mut pool, &big, ByteOrder::Little);
    assert!(matches!(ret, Err(MByteBufferError::MaxCapacity)));
    assert_eq!(buffer.cursor(), 8);
}

#[test]
fn counted_bytes_past_length_fail() {
    let (mut pool, mut buffer) = setup();
    buffer.write_le(&mut pool, 5u64).unwrap();
    buffer.write_slice(&mut pool, &[1, 2]).unwrap();
    buffer.move_cursor(0).unwrap();
    match read_bytes(&mut buffer, &pool, ByteOrder::Little) {
        Err(MByteBufferError::ReadOutOfBounds { length, start, end }) => {
            assert_eq!((length, start, end), (10, 8, 13));
        }
        _ => panic!("expected the counted bytes to be missing"),
    }
    buffer.move_cursor(0).unwrap();
    buffer.write_le(&mut pool, u64::MAX).unwrap();
    buffer.move_cursor(0).unwrap();
    match read_bytes(&mut buffer, &pool, ByteOrder::Little) {
        Err(MByteBufferError::ReadOutOfBounds { end, .. }) => assert_eq!(end, usize::MAX),
        _ => panic!("expected the counted bytes to be missing"),
    }
}

#[test]
fn string_round_trip() {
    let (mut pool, mut buffer) = setup();
    mmap_bytey::framed::write_str(&mut buffer, &mut pool, "héllo", ByteOrder::Little).unwrap();
    assert_eq!(buffer.length(), 8 + 6);
    buffer.move_cursor(0).unwrap();
    let s = mmap_bytey::framed::read_string(&mut buffer, &pool, ByteOrder::Little).unwrap();
    assert_eq!(s, "héllo");
    buffer.move_cursor(0).unwrap();
    mmap_bytey::framed::write_str(&mut buffer, &mut pool, "", ByteOrder::Big).unwrap();
    buffer.move_cursor(0).unwrap();
    assert_eq!(mmap_bytey::framed::read_string(&mut buffer, &pool, ByteOrder::Big).unwrap(), "");
}

#[test]
fn invalid_utf8_is_unicode_error() {
    let (mut pool, mut buffer) = setup();
    write_bytes(&mut buffer, &mut pool, &[0x66, 0xff, 0x6f], ByteOrder::Little).unwrap();
    buffer.move_cursor(0).unwrap();
    let ret = mmap_bytey::framed::read_string(&mut buffer, &pool, ByteOrder::Little);
    assert!(matches!(ret, Err(MByteBufferError::UnicodeError(_))));
    assert_eq!(buffer.cursor(), 11);
}
