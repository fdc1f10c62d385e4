//! The cursor buffer: one cell of the pool with a read/write cursor and the
//! high-water mark of the bytes written to it.
use crate::allocator::{
    acquire_outcome, release_outcome, same_slot, slot_of, spliced, Buffer, BufferPool, Node, BUFFER_SIZE,
};
use crate::codec::{ByteOrder, MByteBufferRead, MByteBufferWrite, Scalar};
use crate::error::{MByteBufferError, Result};
use vstd::prelude::*;
use vstd::slice::slice_to_vec;

verus! {

/// What a buffer is, apart from its bytes: the cursor, the length of the valid
/// region, and the cell that holds the bytes.
pub struct CursorState {
    pub cursor: int,
    pub length: int,
    pub cell: Node,
}

impl CursorState {
    /// The cursor and the length stay within the capacity.
    pub open spec fn wf(self) -> bool {
        0 <= self.cursor <= BUFFER_SIZE && 0 <= self.length <= BUFFER_SIZE
    }

    /// After `n` bytes were written at the cursor: the cursor moves past them
    /// and the length grows to the cursor if it was shorter.
    pub open spec fn after_write(self, n: int) -> CursorState {
        let end = self.cursor + n;
        CursorState {
            cursor: end,
            length: if end > self.length { end } else { self.length },
            cell: self.cell,
        }
    }

    /// The cursor moved to `at`.
    pub open spec fn at(self, at: int) -> CursorState {
        CursorState { cursor: at, length: self.length, cell: self.cell }
    }

    /// The error of a read of `n` bytes from `start`, past the valid region.
    pub open spec fn read_error(self, start: int, n: int) -> MByteBufferError {
        MByteBufferError::ReadOutOfBounds {
            length: self.length as usize,
            start: start as usize,
            end: (start + n) as usize,
        }
    }
}

/// What writing `src` at the cursor of a buffer in state `s` over `bytes`
/// gives: the state `s2` over `bytes2` and the result `r`. Where `src` would
/// reach past the capacity nothing changes and the result is `MaxCapacity`.
pub open spec fn write_outcome(
    s: CursorState,
    bytes: Seq<u8>,
    src: Seq<u8>,
    r: Result<()>,
    s2: CursorState,
    bytes2: Seq<u8>,
) -> bool {
    if s.cursor + src.len() > BUFFER_SIZE {
        &&& r matches Err(MByteBufferError::MaxCapacity)
        &&& s2 == s
        &&& bytes2 == bytes
    } else {
        &&& r is Ok
        &&& s2 == s.after_write(src.len() as int)
        &&& bytes2 == spliced(bytes, s.cursor, src)
    }
}

/// What reading a `T` in `order` at the cursor of a buffer in state `s` over
/// `bytes` gives: the state `s2` and the result `r`. Where the value would
/// reach past the length nothing changes and the result is `ReadOutOfBounds`.
pub open spec fn read_outcome<T: MByteBufferRead>(
    s: CursorState,
    bytes: Seq<u8>,
    order: ByteOrder,
    r: Result<T>,
    s2: CursorState,
) -> bool {
    if s.cursor + T::width() > s.length {
        &&& r matches Err(e) && e == s.read_error(s.cursor, T::width() as int)
        &&& s2 == s
    } else {
        &&& r matches Ok(v) && v == T::decoded(bytes.subrange(s.cursor, s.cursor + T::width()), order)
        &&& s2 == s.at(s.cursor + T::width())
    }
}

/// Writing a scalar at the cursor, moving the cursor back to where the write
/// began and reading the same type in the same order gives the value back.
/// The order is little or big endian; native reads and writes use the pool's
/// native order, which is one of the two.
pub proof fn lemma_scalar_round_trip<T: Scalar>(
    s: CursorState,
    bytes: Seq<u8>,
    v: T,
    order: ByteOrder,
    written: Result<()>,
    s1: CursorState,
    bytes1: Seq<u8>,
    read: Result<T>,
    s2: CursorState,
)
    requires
        s.wf(),
        bytes.len() == BUFFER_SIZE,
        s.cursor + T::width() <= BUFFER_SIZE,
        write_outcome(s, bytes, v.encoded(order), written, s1, bytes1),
        read_outcome::<T>(s1.at(s.cursor), bytes1, order, read, s2),
    ensures
        written is Ok,
        s.cursor <= s1.length,
        read matches Ok(x) && x == v,
{
    v.lemma_round_trip(order);
    let enc = v.encoded(order);
    assert(bytes1.subrange(s.cursor, s.cursor + T::width()) =~= enc);
}

/// A fixed-capacity byte buffer over one cell of a `BufferPool`.
///
/// Every buffer holds `BUFFER_SIZE` bytes; writing past that is an error, not
/// a reason to grow. The length is the high-water mark of what was written,
/// and reads stop there.
#[derive(Debug)]
pub struct MByteBuffer {
    length: usize,
    cursor: usize,
    buffer: Buffer,
}

impl View for MByteBuffer {
    type V = CursorState;

    closed spec fn view(&self) -> CursorState {
        CursorState { cursor: self.cursor as int, length: self.length as int, cell: self.buffer@ }
    }
}

impl MByteBuffer {
    /// The buffer's cursor and length are within the capacity.
    pub open spec fn wf(&self) -> bool {
        self@.wf()
    }

    /// The buffer's bytes, as `pool` holds them.
    pub open spec fn bytes(&self, pool: &BufferPool) -> Seq<u8> {
        pool.cell_bytes(self@.cell)
    }

    /// A buffer, empty and with its cursor at the start, on a cell acquired for
    /// thread `thread`. It fails only where a new region had to be mapped.
    pub fn new(pool: &mut BufferPool, thread: usize) -> (r: Result<MByteBuffer>)
        requires
            old(pool).wf(),
            thread < old(pool).threads(),
        ensures
            acquire_outcome(
                *old(pool),
                thread,
                match r {
                    Ok(b) => Some(b@.cell),
                    Err(_) => None,
                },
                *final(pool),
            ),
            r matches Ok(b) ==> b.wf() && b@.cursor == 0 && b@.length == 0,
            r matches Err(e) ==> (e is Mmap || e is AllocationFailure),
    {
        let buffer = Buffer::new(pool, thread)?;
        Ok(MByteBuffer { length: 0, cursor: 0, buffer })
    }

    /// Writes `source` at the cursor and moves the cursor past it, without
    /// raising the length.
    pub fn write_slice_unchecked(&mut self, pool: &mut BufferPool, source: &[u8])
        requires
            old(pool).wf(),
            old(pool).holds(old(self)@.cell),
            old(self).wf(),
            old(self)@.cursor + source@.len() <= BUFFER_SIZE,
        ensures
            final(self).wf(),
            final(self)@ == old(self)@.at(old(self)@.cursor + source@.len()),
            final(pool).wf(),
            final(pool).same_but_bytes(old(pool)),
            final(self).bytes(final(pool)) == spliced(old(self).bytes(old(pool)), old(self)@.cursor, source@),
            forall|n: Node|
                old(pool).valid_cell(n) && !same_slot(n, old(self)@.cell) ==> #[trigger] final(pool).cell_bytes(n) == old(pool).cell_bytes(n),
    {
        pool.write_cell(&self.buffer, self.cursor, source);
        self.cursor = self.cursor + source.len();
    }

    /// Writes `source` at the cursor, moves the cursor past it and raises the
    /// length to the cursor. Fails with `MaxCapacity`, changing nothing, where
    /// the bytes would reach past the capacity.
    pub fn write_slice(&mut self, pool: &mut BufferPool, source: &[u8]) -> (r: Result<()>)
        requires
            old(pool).wf(),
            old(pool).holds(old(self)@.cell),
            old(self).wf(),
        ensures
            final(self).wf(),
            final(pool).wf(),
            final(pool).same_but_bytes(old(pool)),
            old(self)@.cursor + source@.len() > BUFFER_SIZE ==> {
                &&& r matches Err(MByteBufferError::MaxCapacity)
                &&& final(self)@ == old(self)@
                &&& *final(pool) == *old(pool)
            },
            old(self)@.cursor + source@.len() <= BUFFER_SIZE ==> {
                &&& r is Ok
                &&& final(self)@ == old(self)@.after_write(source@.len() as int)
                &&& final(self).bytes(final(pool)) == spliced(
                    old(self).bytes(old(pool)),
                    old(self)@.cursor,
                    source@,
                )
            },
            forall|n: Node|
                old(pool).valid_cell(n) && !same_slot(n, old(self)@.cell) ==> #[trigger] final(pool).cell_bytes(n) == old(pool).cell_bytes(n),
    {
        if source.len() > BUFFER_SIZE - self.cursor {
            return Err(MByteBufferError::MaxCapacity);
        }
        self.write_slice_unchecked(pool, source);
        if self.cursor > self.length {
            self.length = self.cursor;
        }
        Ok(())
    }

    /// Reads `size` bytes at the cursor and moves the cursor past them, with
    /// no check against the length.
    pub fn read_slice_unchecked<'a>(&mut self, pool: &'a BufferPool, size: usize) -> (r: &'a [u8])
        requires
            pool.holds(old(self)@.cell),
            old(self).wf(),
            old(self)@.cursor + size <= old(self)@.length,
        ensures
            final(self).wf(),
            final(self)@ == old(self)@.at(old(self)@.cursor + size),
            r@ == old(self).bytes(pool).subrange(old(self)@.cursor, old(self)@.cursor + size),
    {
        let r = pool.read_cell(&self.buffer, self.cursor, size);
        self.cursor = self.cursor + size;
        r
    }

    /// Reads `size` bytes at the cursor and moves the cursor past them. Fails
    /// with `ReadOutOfBounds`, changing nothing, where they reach past the
    /// length.
    pub fn read_slice<'a>(&mut self, pool: &'a BufferPool, size: usize) -> (r: Result<&'a [u8]>)
        requires
            pool.holds(old(self)@.cell),
            old(self).wf(),
            old(self)@.cursor + size <= usize::MAX,
        ensures
            final(self).wf(),
            old(self)@.cursor + size > old(self)@.length ==> {
                &&& r matches Err(e) && e == old(self)@.read_error(old(self)@.cursor, size as int)
                &&& final(self)@ == old(self)@
            },
            old(self)@.cursor + size <= old(self)@.length ==> {
                &&& r matches Ok(s) && s@ == old(self).bytes(pool).subrange(
                    old(self)@.cursor,
                    old(self)@.cursor + size,
                )
                &&& final(self)@ == old(self)@.at(old(self)@.cursor + size)
            },
    {
        if self.cursor + size > self.length {
            return Err(
                MByteBufferError::ReadOutOfBounds {
                    length: self.length,
                    start: self.cursor,
                    end: self.cursor + size,
                },
            );
        }
        Ok(self.read_slice_unchecked(pool, size))
    }

    /// Moves the cursor to `location`, with no check against the length.
    pub fn move_cursor_unchecked(&mut self, location: usize)
        requires
            old(self).wf(),
            location <= old(self)@.length,
        ensures
            final(self).wf(),
            final(self)@ == old(self)@.at(location as int),
    {
        self.cursor = location;
    }

    /// Moves the cursor to `location`. Fails with `CursorOutOfBounds`,
    /// changing nothing, where it lies past the length.
    pub fn move_cursor(&mut self, location: usize) -> (r: Result<()>)
        requires
            old(self).wf(),
        ensures
            final(self).wf(),
            location > old(self)@.length ==> {
                &&& r matches Err(e) && e == (MByteBufferError::CursorOutOfBounds {
                    length: old(self)@.length as usize,
                    cursor: location,
                })
                &&& final(self)@ == old(self)@
            },
            location <= old(self)@.length ==> r is Ok && final(self)@ == old(self)@.at(
                location as int,
            ),
    {
        if location > self.length {
            return Err(MByteBufferError::CursorOutOfBounds { length: self.length, cursor: location });
        }
        self.cursor = location;
        Ok(())
    }

    /// Moves the cursor to the length.
    pub fn move_cursor_to_end(&mut self)
        requires
            old(self).wf(),
        ensures
            final(self).wf(),
            final(self)@ == old(self)@.at(old(self)@.length),
    {
        self.cursor = self.length;
    }

    /// Moves the cursor to the start.
    pub fn move_cursor_to_start(&mut self)
        requires
            old(self).wf(),
        ensures
            final(self).wf(),
            final(self)@ == old(self)@.at(0),
    {
        self.cursor = 0;
    }

    /// Shrinks the valid region to `length` bytes, pulling the cursor back to
    /// it if it lay further. Fails with `LengthOutOfBounds`, changing nothing,
    /// where `length` is past the current length.
    pub fn truncate(&mut self, length: usize) -> (r: Result<()>)
        requires
            old(self).wf(),
        ensures
            final(self).wf(),
            length > old(self)@.length ==> {
                &&& r matches Err(e) && e == (MByteBufferError::LengthOutOfBounds {
                    current: old(self)@.length as usize,
                    new: length,
                })
                &&& final(self)@ == old(self)@
            },
            length <= old(self)@.length ==> {
                &&& r is Ok
                &&& final(self)@.length == length
                &&& final(self)@.cursor == if old(self)@.cursor > length {
                    length as int
                } else {
                    old(self)@.cursor
                }
                &&& final(self)@.cell == old(self)@.cell
            },
    {
        if length > self.length {
            return Err(MByteBufferError::LengthOutOfBounds { current: self.length, new: length });
        }
        self.length = length;
        if self.cursor > length {
            self.cursor = length;
        }
        Ok(())
    }

    /// Writes `source` laid out in `order` at the cursor, as `write_slice` does.
    pub fn write_ordered<T: MByteBufferWrite>(
        &mut self,
        pool: &mut BufferPool,
        source: &T,
        order: ByteOrder,
    ) -> (r: Result<()>)
        requires
            old(pool).wf(),
            old(pool).holds(old(self)@.cell),
            old(self).wf(),
        ensures
            final(self).wf(),
            final(pool).wf(),
            final(pool).same_but_bytes(old(pool)),
            write_outcome(
                old(self)@,
                old(self).bytes(old(pool)),
                source.encoded(order),
                r,
                final(self)@,
                final(self).bytes(final(pool)),
            ),
            forall|n: Node|
                old(pool).valid_cell(n) && !same_slot(n, old(self)@.cell) ==> #[trigger] final(pool).cell_bytes(n) == old(pool).cell_bytes(n),
    {
        let bytes = source.to_mbuffer_bytes(order);
        self.write_slice(pool, bytes.as_slice())
    }

    /// Writes `source` in the machine's byte order.
    pub fn write<T: MByteBufferWrite>(&mut self, pool: &mut BufferPool, source: T) -> (r: Result<()>)
        requires
            old(pool).wf(),
            old(pool).holds(old(self)@.cell),
            old(self).wf(),
        ensures
            final(self).wf(),
            final(pool).wf(),
            final(pool).same_but_bytes(old(pool)),
            write_outcome(
                old(self)@,
                old(self).bytes(old(pool)),
                source.encoded(old(pool).native()),
                r,
                final(self)@,
                final(self).bytes(final(pool)),
            ),
            forall|n: Node|
                old(pool).valid_cell(n) && !same_slot(n, old(self)@.cell) ==> #[trigger] final(pool).cell_bytes(n) == old(pool).cell_bytes(n),
    {
        let order = pool.native_order();
        self.write_ordered(pool, &source, order)
    }

    /// Writes `source` in little-endian order.
    pub fn write_le<T: MByteBufferWrite>(&mut self, pool: &mut BufferPool, source: T) -> (r: Result<()>)
        requires
            old(pool).wf(),
            old(pool).holds(old(self)@.cell),
            old(self).wf(),
        ensures
            final(self).wf(),
            final(pool).wf(),
            final(pool).same_but_bytes(old(pool)),
            write_outcome(
                old(self)@,
                old(self).bytes(old(pool)),
                source.encoded(ByteOrder::Little),
                r,
                final(self)@,
                final(self).bytes(final(pool)),
            ),
            forall|n: Node|
                old(pool).valid_cell(n) && !same_slot(n, old(self)@.cell) ==> #[trigger] final(pool).cell_bytes(n) == old(pool).cell_bytes(n),
    {
        self.write_ordered(pool, &source, ByteOrder::Little)
    }

    /// Writes `source` in big-endian order.
    pub fn write_be<T: MByteBufferWrite>(&mut self, pool: &mut BufferPool, source: T) -> (r: Result<()>)
        requires
            old(pool).wf(),
            old(pool).holds(old(self)@.cell),
            old(self).wf(),
        ensures
            final(self).wf(),
            final(pool).wf(),
            final(pool).same_but_bytes(old(pool)),
            write_outcome(
                old(self)@,
                old(self).bytes(old(pool)),
                source.encoded(ByteOrder::Big),
                r,
                final(self)@,
                final(self).bytes(final(pool)),
            ),
            forall|n: Node|
                old(pool).valid_cell(n) && !same_slot(n, old(self)@.cell) ==> #[trigger] final(pool).cell_bytes(n) == old(pool).cell_bytes(n),
    {
        self.write_ordered(pool, &source, ByteOrder::Big)
    }

    /// Reads a `T` laid out in `order` at the cursor, as `read_slice` does.
    pub fn read_ordered<T: MByteBufferRead>(&mut self, pool: &BufferPool, order: ByteOrder) -> (r: Result<T>)
        requires
            pool.holds(old(self)@.cell),
            old(self).wf(),
            old(self)@.cursor + T::width() <= usize::MAX,
        ensures
            final(self).wf(),
            read_outcome::<T>(old(self)@, old(self).bytes(pool), order, r, final(self)@),
    {
        let size = T::byte_width();
        let bytes = self.read_slice(pool, size)?;
        Ok(T::from_mbuffer_bytes(bytes, order))
    }

    /// Reads a `T` in the machine's byte order.
    pub fn read<T: MByteBufferRead>(&mut self, pool: &BufferPool) -> (r: Result<T>)
        requires
            pool.holds(old(self)@.cell),
            old(self).wf(),
            old(self)@.cursor + T::width() <= usize::MAX,
        ensures
            final(self).wf(),
            read_outcome::<T>(old(self)@, old(self).bytes(pool), pool.native(), r, final(self)@),
    {
        let order = pool.native_order();
        self.read_ordered(pool, order)
    }

    /// Reads a `T` in little-endian order.
    pub fn read_le<T: MByteBufferRead>(&mut self, pool: &BufferPool) -> (r: Result<T>)
        requires
            pool.holds(old(self)@.cell),
            old(self).wf(),
            old(self)@.cursor + T::width() <= usize::MAX,
        ensures
            final(self).wf(),
            read_outcome::<T>(old(self)@, old(self).bytes(pool), ByteOrder::Little, r, final(self)@),
    {
        self.read_ordered(pool, ByteOrder::Little)
    }

    /// Reads a `T` in big-endian order.
    pub fn read_be<T: MByteBufferRead>(&mut self, pool: &BufferPool) -> (r: Result<T>)
        requires
            pool.holds(old(self)@.cell),
            old(self).wf(),
            old(self)@.cursor + T::width() <= usize::MAX,
        ensures
            final(self).wf(),
            read_outcome::<T>(old(self)@, old(self).bytes(pool), ByteOrder::Big, r, final(self)@),
    {
        self.read_ordered(pool, ByteOrder::Big)
    }

    /// Reads `len` bytes at the cursor, moving it, and returns a new buffer for
    /// thread `thread` that holds them, with its cursor at the start. Fails as
    /// `read_slice` does, changing nothing, or where a new region cannot be
    /// mapped.
    pub fn read_to_buffer(&mut self, pool: &mut BufferPool, thread: usize, len: usize) -> (r: Result<MByteBuffer>)
        requires
            old(pool).wf(),
            old(pool).holds(old(self)@.cell),
            old(self).wf(),
            thread < old(pool).threads(),
            old(self)@.cursor + len <= usize::MAX,
        ensures
            final(self).wf(),
            final(pool).wf(),
            final(pool).native() == old(pool).native(),
            final(pool).threads() == old(pool).threads(),
            r is Err ==> final(pool).keeps_held(old(pool)),
            r matches Err(MByteBufferError::ReadOutOfBounds { .. }) ==> *final(pool) == *old(pool),
            r matches Err(e) ==> (e is ReadOutOfBounds || e is Mmap || e is AllocationFailure),
            old(self)@.cursor + len > old(self)@.length ==> {
                &&& r matches Err(e) && e == old(self)@.read_error(old(self)@.cursor, len as int)
                &&& final(self)@ == old(self)@
                &&& *final(pool) == *old(pool)
            },
            old(self)@.cursor + len <= old(self)@.length ==> {
                &&& final(self)@ == old(self)@.at(old(self)@.cursor + len)
                &&& r matches Err(e) ==> (e is Mmap || e is AllocationFailure)
                &&& old(pool).free_list(thread as int).len() > 0 || old(pool).pending(thread).len() > 0
                    ==> r is Ok
            },
            r matches Ok(b) ==> {
                &&& b.wf()
                &&& final(pool).holds(b@.cell)
                &&& !old(pool).held_slot(slot_of(b@.cell))
                &&& !same_slot(b@.cell, old(self)@.cell)
                &&& b@.cell.thread_id == thread
                &&& b@.cursor == 0
                &&& b@.length == len
                &&& b.bytes(final(pool)).take(len as int) == old(self).bytes(old(pool)).subrange(
                    old(self)@.cursor,
                    old(self)@.cursor + len,
                )
                &&& final(pool).keeps_held_but(old(pool), b@.cell)
                &&& final(self).bytes(final(pool)) == old(self).bytes(old(pool))
            },
    {
        let bytes = slice_to_vec(self.read_slice(pool, len)?);
        let ghost mid = *pool;
        let mut b = MByteBuffer::new(pool, thread)?;
        let ghost got = *pool;
        let w = b.write_slice(pool, bytes.as_slice());
        proof {
            assert(w is Ok);
            assert forall|n: Node| #[trigger] old(pool).holds(n) && !same_slot(n, b@.cell) implies pool.holds(n)
                && pool.cell_bytes(n) == old(pool).cell_bytes(n) by {
                assert(got.holds(n));
                assert(pool.region_bytes(n.region as int).len() == got.region_bytes(n.region as int).len());
            }
            assert(old(pool).holds(self@.cell));
        }
        b.cursor = 0;
        proof {
            assert(b.bytes(pool).take(len as int) =~= bytes@);
        }
        Ok(b)
    }

    /// The whole valid region, read from the start; the cursor ends at the
    /// length.
    pub fn as_slice<'a>(&mut self, pool: &'a BufferPool) -> (r: &'a [u8])
        requires
            pool.holds(old(self)@.cell),
            old(self).wf(),
        ensures
            final(self).wf(),
            final(self)@ == old(self)@.at(old(self)@.length),
            r@ == old(self).bytes(pool).take(old(self)@.length),
    {
        self.cursor = 0;
        let r = self.read_slice_unchecked(pool, self.length);
        assert(r@ =~= old(self).bytes(pool).take(old(self)@.length));
        r
    }

    /// Reads `size` bytes from `cursor`, leaving the cursor after them. Fails
    /// with `ReadOutOfBounds`, changing nothing, where they reach past the
    /// length.
    pub fn slice_from<'a>(&mut self, pool: &'a BufferPool, cursor: usize, size: usize) -> (r: Result<&'a [u8]>)
        requires
            pool.holds(old(self)@.cell),
            old(self).wf(),
            cursor + size <= usize::MAX,
        ensures
            final(self).wf(),
            cursor + size > old(self)@.length ==> {
                &&& r matches Err(e) && e == old(self)@.read_error(cursor as int, size as int)
                &&& final(self)@ == old(self)@
            },
            cursor + size <= old(self)@.length ==> {
                &&& r matches Ok(s) && s@ == old(self).bytes(pool).subrange(cursor as int, cursor + size)
                &&& final(self)@ == old(self)@.at(cursor + size)
            },
    {
        if cursor + size > self.length {
            return Err(
                MByteBufferError::ReadOutOfBounds { length: self.length, start: cursor, end: cursor + size },
            );
        }
        self.cursor = cursor;
        Ok(self.read_slice_unchecked(pool, size))
    }

    /// A copy on a new cell for thread `thread`: the same bytes, cursor and
    /// length. Fails only where a new region cannot be mapped.
    pub fn try_clone(&self, pool: &mut BufferPool, thread: usize) -> (r: Result<MByteBuffer>)
        requires
            old(pool).wf(),
            old(pool).holds(self@.cell),
            self.wf(),
            thread < old(pool).threads(),
        ensures
            final(pool).wf(),
            final(pool).native() == old(pool).native(),
            final(pool).threads() == old(pool).threads(),
            r matches Ok(b) ==> {
                &&& b.wf()
                &&& final(pool).holds(b@.cell)
                &&& !old(pool).held_slot(slot_of(b@.cell))
                &&& !same_slot(b@.cell, self@.cell)
                &&& b@.cell.thread_id == thread
                &&& b@.cursor == self@.cursor
                &&& b@.length == self@.length
                &&& b.bytes(final(pool)) == self.bytes(old(pool))
                &&& final(pool).keeps_held_but(old(pool), b@.cell)
            },
            r is Err ==> final(pool).keeps_held(old(pool)),
            r matches Err(e) ==> (e is Mmap || e is AllocationFailure),
            old(pool).free_list(thread as int).len() > 0 || old(pool).pending(thread).len() > 0
                ==> r is Ok,
    {
        let buffer = self.buffer.try_clone(pool, thread)?;
        Ok(MByteBuffer { length: self.length, cursor: self.cursor, buffer })
    }

    /// Takes the bytes, cursor and length of `source` into this buffer's cell.
    pub fn clone_from(&mut self, pool: &mut BufferPool, source: &MByteBuffer)
        requires
            old(pool).wf(),
            old(pool).holds(old(self)@.cell),
            old(pool).holds(source@.cell),
            source.wf(),
        ensures
            final(self).wf(),
            final(pool).wf(),
            final(pool).same_but_bytes(old(pool)),
            final(self)@ == (CursorState { cell: old(self)@.cell, ..source@ }),
            final(self).bytes(final(pool)) == source.bytes(old(pool)),
            forall|n: Node|
                old(pool).valid_cell(n) && !same_slot(n, old(self)@.cell) ==> #[trigger] final(pool).cell_bytes(n) == old(pool).cell_bytes(n),
    {
        let bytes = slice_to_vec(pool.read_cell(&source.buffer, 0, BUFFER_SIZE));
        pool.write_cell(&self.buffer, 0, bytes.as_slice());
        self.length = source.length;
        self.cursor = source.cursor;
        proof {
            assert(self.bytes(pool) =~= source.bytes(old(pool)));
        }
    }

    /// Gives the buffer's cell back to the pool, from thread `current`.
    pub fn release(self, pool: &mut BufferPool, current: usize)
        requires
            old(pool).wf(),
            old(pool).holds(self@.cell),
            current < old(pool).threads(),
        ensures
            release_outcome(*old(pool), self@.cell, current, *final(pool)),
    {
        self.buffer.release(pool, current);
    }

    /// Where the buffer's cell lies.
    pub fn cell(&self) -> (r: Node)
        ensures
            r == self@.cell,
    {
        self.buffer.node()
    }

    /// The length of the valid region.
    pub fn length(&self) -> (r: usize)
        ensures
            r == self@.length,
    {
        self.length
    }

    /// The capacity, the same for every buffer.
    pub fn capacity(&self) -> (r: usize)
        ensures
            r == BUFFER_SIZE,
    {
        BUFFER_SIZE
    }

    /// The cursor.
    pub fn cursor(&self) -> (r: usize)
        ensures
            r == self@.cursor,
    {
        self.cursor
    }

    /// Whether the valid region is empty.
    pub fn is_empty(&self) -> (r: bool)
        ensures
            r == (self@.length == 0),
    {
        self.length() == 0
    }
}

} // verus!
