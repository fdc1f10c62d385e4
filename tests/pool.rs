use mmap_bytey::{Buffer, BufferPool, MByteBuffer, BUFFER_SIZE};

#[test]
fn first_acquire_maps_and_queues_the_rest() {
    let mut pool = BufferPool::new();
    let t = pool.register_thread();
    assert_eq!(pool.region_count(), 0);
    let cell = Buffer::new(&mut pool, t).unwrap();
    assert_eq!(pool.region_count(), 1);
    let node = cell.node();
    assert_eq!((node.region, node.offset, node.thread_id), (0, 0, t));
    assert!(pool.free_len(t) >= 1);
    let next = Buffer::new(&mut pool, t).unwrap();
    assert_eq!(next.node().offset % BUFFER_SIZE, 0);
    assert_ne!(next.node(), node);
    assert_eq!(pool.region_count(), 1);
}

#[test]
fn reuse_on_same_thread() {
    let mut pool = BufferPool::new();
    let t = pool.register_thread();
    let first = MByteBuffer::new(&mut pool, t).unwrap();
    let cell = first.cell();
    let regions = pool.region_count();
    first.release(&mut pool, t);
    let again = MByteBuffer::new(&mut pool, t).unwrap();
    assert_eq!(again.cell(), cell);
    assert_eq!(pool.region_count(), regions);
}

#[test]
fn cross_thread_handoff() {
    let mut pool = BufferPool::new();
    let a = pool.register_thread();
    let b = pool.register_thread();
    let handed = Buffer::new(&mut pool, a).unwrap();
    let mut held = Vec::new();
    while pool.free_len(a) > 0 {
        held.push(Buffer::new(&mut pool, a).unwrap());
    }
    let node = handed.node();
    handed.release(&mut pool, b);
    assert_eq!(pool.free_len(b), 0);
    assert_eq!(pool.free_len(a), 0);
    let back = Buffer::new(&mut pool, a).unwrap();
    assert_eq!(back.node(), node);
    assert_eq!(pool.region_count(), 1);
}

#[test]
fn mailbox_batch_goes_to_free_list() {
    let mut pool = BufferPool::new();
    let a = pool.register_thread();
    let b = pool.register_thread();
    let mut cells = Vec::new();
    cells.push(Buffer::new(&mut pool, a).unwrap());
    while pool.free_len(a) > 0 {
        cells.push(Buffer::new(&mut pool, a).unwrap());
    }
    let x = cells.pop().unwrap();
    let y = cells.pop().unwrap();
    let z = cells.pop().unwrap();
    let (nx, ny, nz) = (x.node(), y.node(), z.node());
    x.release(&mut pool, b);
    y.release(&mut pool, b);
    z.release(&mut pool, b);
    let got = Buffer::new(&mut pool, a).unwrap();
    assert_eq!(got.node(), nx);
    assert_eq!(pool.free_len(a), 2);
    assert_eq!(Buffer::new(&mut pool, a).unwrap().node(), nz);
    assert_eq!(Buffer::new(&mut pool, a).unwrap().node(), ny);
    assert_eq!(pool.region_count(), 1);
}

#[test]
fn teardown_drops_releases() {
    let mut pool = BufferPool::new();
    let t = pool.register_thread();
    let cell = Buffer::new(&mut pool, t).unwrap();
    assert!(pool.free_len(t) > 0);
    pool.retire_thread(t);
    assert_eq!(pool.free_len(t), 0);
    cell.release(&mut pool, t);
    assert_eq!(pool.free_len(t), 0);
}

#[test]
fn clone_of_cell_copies_bytes() {
    let mut pool = BufferPool::new();
    let t = pool.register_thread();
    let mut buffer = MByteBuffer::new(&mut pool, t).unwrap();
    buffer.write_slice(&mut pool, &[3, 1, 4, 1, 5]).unwrap();
    let copy = buffer.try_clone(&mut pool, t).unwrap();
    let mut copy = copy;
    assert_eq!(copy.as_slice(&pool), &[3, 1, 4, 1, 5]);
    assert_eq!(copy.cell().thread_id, t);
}

#[test]
fn region_unmapped_after_last_cell_dropped() {
    let mut pool = BufferPool::new();
    let t = pool.register_thread();
    let cell = Buffer::new(&mut pool, t).unwrap();
    assert!(pool.free_len(t) > 0);
    pool.retire_thread(t);
    assert!(pool.region_mapped(0));
    cell.release(&mut pool, t);
    assert!(!pool.region_mapped(0));
}

#[test]
fn region_stays_mapped_while_a_cell_is_queued() {
    let mut pool = BufferPool::new();
    let a = pool.register_thread();
    let b = pool.register_thread();
    let cell = Buffer::new(&mut pool, a).unwrap();
    cell.release(&mut pool, b);
    pool.retire_thread(a);
    assert!(pool.region_mapped(0));
}

#[test]
fn copies_never_share_a_cell() {
    let mut pool = BufferPool::new();
    let t = pool.register_thread();
    let mut buffer = MByteBuffer::new(&mut pool, t).unwrap();
    buffer.write_slice(&mut pool, &[1, 2, 3]).unwrap();
    let mut seen = vec![buffer.cell()];
    let mut copies = Vec::new();
    for _ in 0..40 {
        let copy = buffer.try_clone(&mut pool, t).unwrap();
        assert!(!seen.contains(&copy.cell()));
        seen.push(copy.cell());
        copies.push(copy);
    }
    assert_eq!(pool.region_count(), 2);
    for c in copies.iter_mut() {
        assert_eq!(c.as_slice(&pool), &[1, 2, 3]);
    }
}
