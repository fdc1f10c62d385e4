use mmap_bytey::tagged::{read_option, read_result, write_option, write_result};
use mmap_bytey::{BufferPool, ByteOrder, MByteBuffer, MByteBufferError};

fn setup() -> (BufferPool, MByteBuffer) {
    let mut pool = BufferPool::new();
    let t = pool.register_thread();
    let buffer = MByteBuffer::new(&mut pool, t).unwrap();
    (pool, buffer)
}

#[test]
fn option_round_trip_and_layout() {
    let (mut pool, mut buffer) = setup();
    write_option(&mut buffer, &mut pool, &Some(0x0102u16), ByteOrder::Big).unwrap();
    write_option::<u16>(&mut buffer, &mut pool, &None, ByteOrder::Big).unwrap();
    assert_eq!(buffer.as_slice(&pool), &[1, 1, 2, 2]);
    buffer.move_cursor(0).unwrap();
    assert_eq!(read_option::<u16>(&mut buffer, &pool, ByteOrder::Big).unwrap(), Some(0x0102));
    assert_eq!(read_option::<u16>(&mut buffer, &pool, ByteOrder::Big).unwrap(), None);
    assert_eq!(buffer.cursor(), 4);
}

#[test]
fn result_round_trip_and_layout() {
    let (mut pool, mut buffer) = setup();
    let ok: Result<u8, i32> = Ok(200);
    let err: Result<u8, i32> = Err(-2);
    write_result(&mut buffer, &mut pool, &ok, ByteOrder::Little).unwrap();
    write_result(&mut buffer, &mut pool, &err, ByteOrder::Little).unwrap();
    assert_eq!(buffer.as_slice(&pool), &[1, 200, 2, 0xfe, 0xff, 0xff, 0xff]);
    buffer.move_cursor(0).unwrap();
    assert_eq!(read_result::<u8, i32>(&mut buffer, &pool, ByteOrder::Little).unwrap(), ok);
    assert_eq!(read_result::<u8, i32>(&mut buffer, &pool, ByteOrder::Little).unwrap(), err);
}

#[test]
fn bad_tags_are_other_errors() {
    let (mut pool, mut buffer) = setup();
    buffer.write_slice(&mut pool, &[7, 7]).unwrap();
    buffer.move_cursor(0).unwrap();
    match read_option::<u8>(&mut buffer, &pool, ByteOrder::Little) {
        Err(MByteBufferError::OtherError { error }) => assert_eq!(error, "Invalid Read to Option"),
        _ => panic!("expected a bad tag"),
    }
    assert_eq!(buffer.cursor(), 1);
    match read_result::<u8, u8>(&mut buffer, &pool, ByteOrder::Little) {
        Err(MByteBufferError::OtherError { error }) => assert_eq!(error, "Invalid Read to Result"),
        _ => panic!("expected a bad tag"),
    }
}

#[test]
fn truncated_payload_reports_its_range() {
    let (mut pool, mut buffer) = setup();
    buffer.write_slice(&mut pool, &[1, 9]).unwrap();
    buffer.move_cursor(0).unwrap();
    match read_option::<u32>(&mut buffer, &pool, ByteOrder::Little) {
        Err(MByteBufferError::ReadOutOfBounds { length, start, end }) => {
            assert_eq!((length, start, end), (2, 1, 5));
        }
        _ => panic!("expected the payload to be missing"),
    }
}
