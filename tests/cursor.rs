use mmap_bytey::{BufferPool, ByteOrder, MByteBuffer, MByteBufferError, BUFFER_SIZE};

fn setup() -> (BufferPool, usize, MByteBuffer) {
    let mut pool = BufferPool::new();
    let thread = pool.register_thread();
    let buffer = MByteBuffer::new(&mut pool, thread).unwrap();
    (pool, thread, buffer)
}

#[test]
fn capacity_is_fixed_and_overflow_changes_nothing() {
    let (mut pool, _thread, mut buffer) = setup();
    assert_eq!(buffer.capacity(), BUFFER_SIZE);
    buffer.write_slice(&mut pool, &[7u8; 1000]).unwrap();
    let ret = buffer.write_slice(&mut pool, &[1u8; 25]);
    assert!(matches!(ret, Err(MByteBufferError::MaxCapacity)));
    assert_eq!(buffer.cursor(), 1000);
    assert_eq!(buffer.length(), 1000);
    buffer.write_slice(&mut pool, &[1u8; 24]).unwrap();
    assert_eq!(buffer.length(), 1024);
    assert_eq!(buffer.capacity(), 1024);
}

#[test]
fn round_trip_every_width_and_order() {
    let (mut pool, _thread, mut buffer) = setup();
    for order in [None, Some(ByteOrder::Little), Some(ByteOrder::Big)] {
        buffer.move_cursor_to_start();
        let start = buffer.cursor();
        let write = |b: &mut MByteBuffer, p: &mut BufferPool| {
            match order {
                None => {
                    b.write(p, 0xABu8).unwrap();
                    b.write(p, -5i8).unwrap();
                    b.write(p, 0x1234u16).unwrap();
                    b.write(p, -1234i16).unwrap();
                    b.write(p, 0xDEADBEEFu32).unwrap();
                    b.write(p, -123456i32).unwrap();
                    b.write(p, 0x0102030405060708u64).unwrap();
                    b.write(p, i64::MIN).unwrap();
                    b.write(p, u128::MAX - 7).unwrap();
                    b.write(p, -42i128).unwrap();
                }
                Some(o) => {
                    b.write_ordered(p, &0xABu8, o).unwrap();
                    b.write_ordered(p, &-5i8, o).unwrap();
                    b.write_ordered(p, &0x1234u16, o).unwrap();
                    b.write_ordered(p, &-1234i16, o).unwrap();
                    b.write_ordered(p, &0xDEADBEEFu32, o).unwrap();
                    b.write_ordered(p, &-123456i32, o).unwrap();
                    b.write_ordered(p, &0x0102030405060708u64, o).unwrap();
                    b.write_ordered(p, &i64::MIN, o).unwrap();
                    b.write_ordered(p, &(u128::MAX - 7), o).unwrap();
                    b.write_ordered(p, &-42i128, o).unwrap();
                }
            }
        };
        write(&mut buffer, &mut pool);
        buffer.move_cursor(start).unwrap();
        let o = order.unwrap_or(pool.native_order());
        assert_eq!(buffer.read_ordered::<u8>(&pool, o).unwrap(), 0xAB);
        assert_eq!(buffer.read_ordered::<i8>(&pool, o).unwrap(), -5);
        assert_eq!(buffer.read_ordered::<u16>(&pool, o).unwrap(), 0x1234);
        assert_eq!(buffer.read_ordered::<i16>(&pool, o).unwrap(), -1234);
        assert_eq!(buffer.read_ordered::<u32>(&pool, o).unwrap(), 0xDEADBEEF);
        assert_eq!(buffer.read_ordered::<i32>(&pool, o).unwrap(), -123456);
        assert_eq!(buffer.read_ordered::<u64>(&pool, o).unwrap(), 0x0102030405060708);
        assert_eq!(buffer.read_ordered::<i64>(&pool, o).unwrap(), i64::MIN);
        assert_eq!(buffer.read_ordered::<u128>(&pool, o).unwrap(), u128::MAX - 7);
        assert_eq!(buffer.read_ordered::<i128>(&pool, o).unwrap(), -42);
    }
}

#[test]
fn native_reads_match_native_writes() {
    let (mut pool, _thread, mut buffer) = setup();
    buffer.write(&mut pool, 0xCAFEu16).unwrap();
    buffer.move_cursor(0).unwrap();
    assert_eq!(buffer.read::<u16>(&pool).unwrap(), 0xCAFE);
    buffer.move_cursor(0).unwrap();
    assert_eq!(buffer.read_slice(&pool, 2).unwrap(), &0xCAFEu16.to_ne_bytes());
}

#[test]
fn big_and_little_endian_layouts() {
    let (mut pool, _thread, mut buffer) = setup();
    buffer.write_be(&mut pool, 0x01020304u32).unwrap();
    buffer.write_le(&mut pool, 0x01020304u32).unwrap();
    assert_eq!(buffer.as_slice(&pool), &[1, 2, 3, 4, 4, 3, 2, 1]);
    buffer.move_cursor(0).unwrap();
    assert_eq!(buffer.read_be::<u32>(&pool).unwrap(), 0x01020304);
    assert_eq!(buffer.read_le::<u32>(&pool).unwrap(), 0x01020304);
    buffer.move_cursor(0).unwrap();
    assert_eq!(buffer.read_le::<u32>(&pool).unwrap(), 0x04030201);
}

#[test]
fn read_past_length_is_exact_error() {
    let (mut pool, _thread, mut buffer) = setup();
    buffer.write(&mut pool, 7u32).unwrap();
    buffer.move_cursor(0).unwrap();
    match buffer.read_slice(&pool, 5) {
        Err(MByteBufferError::ReadOutOfBounds { length, start, end }) => {
            assert_eq!((length, start, end), (4, 0, 5));
        }
        _ => panic!("expected a read past the length to fail"),
    }
    assert_eq!(buffer.cursor(), 0);
    match buffer.read::<u64>(&pool) {
        Err(MByteBufferError::ReadOutOfBounds { length, start, end }) => {
            assert_eq!((length, start, end), (4, 0, 8));
        }
        _ => panic!("expected a read past the length to fail"),
    }
}

#[test]
fn length_is_high_water_mark() {
    let (mut pool, _thread, mut buffer) = setup();
    assert_eq!(buffer.length(), 0);
    assert!(buffer.is_empty());
    buffer.write_slice(&mut pool, &[1, 2, 3, 4, 5, 6, 7, 8]).unwrap();
    assert_eq!(buffer.length(), 8);
    buffer.move_cursor(6).unwrap();
    buffer.write_slice(&mut pool, &[9, 9, 9, 9]).unwrap();
    assert_eq!(buffer.length(), 10);
    buffer.move_cursor(0).unwrap();
    buffer.write_slice(&mut pool, &[0, 0]).unwrap();
    assert_eq!(buffer.length(), 10);
    assert_eq!(buffer.as_slice(&pool), &[0, 0, 3, 4, 5, 6, 9, 9, 9, 9]);
    assert_eq!(buffer.cursor(), 10);
    assert!(!buffer.is_empty());
}

#[test]
fn truncate_clamps_cursor_and_rejects_growth() {
    let (mut pool, _thread, mut buffer) = setup();
    buffer.write(&mut pool, 1u64).unwrap();
    match buffer.truncate(9) {
        Err(MByteBufferError::LengthOutOfBounds { current, new }) => {
            assert_eq!((current, new), (8, 9));
        }
        _ => panic!("expected truncation past the length to fail"),
    }
    assert_eq!(buffer.length(), 8);
    buffer.truncate(0).unwrap();
    assert_eq!(buffer.length(), 0);
    assert_eq!(buffer.cursor(), 0);
}

#[test]
fn seek_checks_and_unchecked_seek() {
    let (mut pool, _thread, mut buffer) = setup();
    buffer.write_slice(&mut pool, &[1, 2, 3]).unwrap();
    match buffer.move_cursor(4) {
        Err(MByteBufferError::CursorOutOfBounds { length, cursor }) => {
            assert_eq!((length, cursor), (3, 4));
        }
        _ => panic!("expected a seek past the length to fail"),
    }
    assert_eq!(buffer.cursor(), 3);
    buffer.move_cursor_unchecked(1);
    assert_eq!(buffer.cursor(), 1);
    buffer.move_cursor_to_end();
    assert_eq!(buffer.cursor(), 3);
    buffer.move_cursor_to_start();
    assert_eq!(buffer.cursor(), 0);
}

#[test]
fn slice_from_reports_given_start() {
    let (mut pool, _thread, mut buffer) = setup();
    buffer.write_slice(&mut pool, &[10, 20, 30, 40]).unwrap();
    assert_eq!(buffer.slice_from(&pool, 1, 2).unwrap(), &[20, 30]);
    assert_eq!(buffer.cursor(), 3);
    match buffer.slice_from(&pool, 2, 3) {
        Err(MByteBufferError::ReadOutOfBounds { length, start, end }) => {
            assert_eq!((length, start, end), (4, 2, 5));
        }
        _ => panic!("expected a slice past the length to fail"),
    }
    assert_eq!(buffer.cursor(), 3);
}

#[test]
fn unchecked_slice_access() {
    let (mut pool, _thread, mut buffer) = setup();
    buffer.write_slice_unchecked(&mut pool, &[5, 6]);
    assert_eq!(buffer.cursor(), 2);
    assert_eq!(buffer.length(), 0);
    buffer.write_slice(&mut pool, &[7]).unwrap();
    assert_eq!(buffer.length(), 3);
    buffer.move_cursor(0).unwrap();
    assert_eq!(buffer.read_slice_unchecked(&pool, 3), &[5, 6, 7]);
}

#[test]
fn split_off_scenario() {
    let (mut pool, thread, mut buffer) = setup();
    let value: u64 = 0x1122334455667788;
    buffer.write(&mut pool, value).unwrap();
    buffer.move_cursor(0).unwrap();
    let mut split = buffer.read_to_buffer(&mut pool, thread, 8).unwrap();
    assert_eq!(buffer.cursor(), 8);
    assert_eq!(split.cursor(), 0);
    assert_eq!(split.length(), 8);
    assert_eq!(split.read::<u64>(&pool).unwrap(), value);
    match buffer.read_to_buffer(&mut pool, thread, 1) {
        Err(MByteBufferError::ReadOutOfBounds { length, start, end }) => {
            assert_eq!((length, start, end), (8, 8, 9));
        }
        _ => panic!("expected a split past the length to fail"),
    }
}

#[test]
fn duplicate_copies_bytes_and_positions() {
    let (mut pool, thread, mut buffer) = setup();
    buffer.write_slice(&mut pool, &[1, 2, 3, 4]).unwrap();
    buffer.move_cursor(1).unwrap();
    let mut copy = buffer.try_clone(&mut pool, thread).unwrap();
    assert_ne!(copy.cell(), buffer.cell());
    assert_eq!(copy.cursor(), 1);
    assert_eq!(copy.length(), 4);
    copy.write_slice(&mut pool, &[9]).unwrap();
    assert_eq!(copy.as_slice(&pool), &[1, 9, 3, 4]);
    assert_eq!(buffer.as_slice(&pool), &[1, 2, 3, 4]);

    let mut other = MByteBuffer::new(&mut pool, thread).unwrap();
    other.clone_from(&mut pool, &copy);
    assert_eq!(other.length(), 4);
    assert_eq!(other.as_slice(&pool), &[1, 9, 3, 4]);
}
