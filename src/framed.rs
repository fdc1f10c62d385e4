//! Variable-length values on the wire: the length as a 64-bit scalar, then
//! that many raw bytes. An empty value is its length alone.
use crate::allocator::{same_slot, spliced, BufferPool, Node, BUFFER_SIZE};
use crate::byte_buffer::{CursorState, MByteBuffer};
use crate::codec::{ByteOrder, MByteBufferRead, MByteBufferWrite, Scalar};
use crate::error::{MByteBufferError, Result};
use vstd::prelude::*;
use vstd::slice::slice_to_vec;
use vstd::string::StringSliceAdditionalSpecFns;
use vstd::utf8::{decode_utf8, encode_utf8_decode_utf8, valid_utf8};

verus! {

/// `start + n` where it fits in a `usize`, else `usize::MAX`.
pub open spec fn capped_end(start: int, n: int) -> usize {
    if start + n <= usize::MAX {
        (start + n) as usize
    } else {
        usize::MAX
    }
}

/// What writing `src` with its length in `order` at the cursor of a buffer in
/// state `s` over `bytes` gives: the state `s2` over `bytes2` and the result
/// `r`. A part that would reach past the capacity fails with `MaxCapacity`,
/// the parts before it written.
pub open spec fn framed_write_outcome(
    s: CursorState,
    bytes: Seq<u8>,
    src: Seq<u8>,
    order: ByteOrder,
    r: Result<()>,
    s2: CursorState,
    bytes2: Seq<u8>,
) -> bool {
    let c = s.cursor;
    let len = (src.len() as u64).encoded(order);
    &&& c + 8 > BUFFER_SIZE ==> {
        &&& r matches Err(MByteBufferError::MaxCapacity)
        &&& s2 == s
    }
    &&& c + 8 <= BUFFER_SIZE && c + 8 + src.len() > BUFFER_SIZE ==> {
        &&& r matches Err(MByteBufferError::MaxCapacity)
        &&& s2 == s.after_write(8)
    }
    &&& c + 8 + src.len() <= BUFFER_SIZE ==> {
        &&& r is Ok
        &&& s2 == s.after_write(8).after_write(src.len() as int)
        &&& bytes2 == spliced(spliced(bytes, c, len), c + 8, src)
    }
}

/// The count that the eight bytes at the cursor give in `order`.
pub open spec fn counted(s: CursorState, bytes: Seq<u8>, order: ByteOrder) -> int {
    <u64 as MByteBufferRead>::decoded(bytes.subrange(s.cursor, s.cursor + 8), order) as int
}

/// The error of reading a counted value at the cursor, if any: the count, or
/// the bytes it counts, reach past the length.
pub open spec fn framed_error(s: CursorState, bytes: Seq<u8>, order: ByteOrder) -> Option<
    MByteBufferError,
> {
    let c = s.cursor;
    let n = counted(s, bytes, order);
    if c + 8 > s.length {
        Some(s.read_error(c, 8))
    } else if c + 8 + n > s.length {
        Some(
            MByteBufferError::ReadOutOfBounds {
                length: s.length as usize,
                start: (c + 8) as usize,
                end: capped_end(c + 8, n),
            },
        )
    } else {
        None
    }
}

/// Where reading a counted value at the cursor leaves the buffer: after what
/// could be read.
pub open spec fn framed_state(s: CursorState, bytes: Seq<u8>, order: ByteOrder) -> CursorState {
    let c = s.cursor;
    let n = counted(s, bytes, order);
    if c + 8 > s.length {
        s
    } else if c + 8 + n > s.length {
        s.at(c + 8)
    } else {
        s.at(c + 8 + n)
    }
}

/// The bytes of the counted value at the cursor.
pub open spec fn framed_body(s: CursorState, bytes: Seq<u8>, order: ByteOrder) -> Seq<u8> {
    bytes.subrange(s.cursor + 8, s.cursor + 8 + counted(s, bytes, order))
}

/// Writes `bytes` in `order` at the cursor: their length, then the bytes
/// themselves.
pub fn write_bytes(buffer: &mut MByteBuffer, pool: &mut BufferPool, bytes: &[u8], order: ByteOrder) -> (r: Result<()>)
    requires
        old(pool).wf(),
        old(pool).holds(old(buffer)@.cell),
        old(buffer).wf(),
    ensures
        final(buffer).wf(),
        final(pool).wf(),
        final(pool).same_but_bytes(old(pool)),
        forall|n: Node|
            old(pool).valid_cell(n) && !same_slot(n, old(buffer)@.cell) ==> #[trigger] final(pool).cell_bytes(n) == old(pool).cell_bytes(n),
        framed_write_outcome(
            old(buffer)@,
            old(buffer).bytes(old(pool)),
            bytes@,
            order,
            r,
            final(buffer)@,
            final(buffer).bytes(final(pool)),
        ),
{
    let len = bytes.len() as u64;
    proof {
        len.lemma_round_trip(order);
    }
    buffer.write_ordered(pool, &len, order)?;
    let ghost mid = *pool;
    if bytes.len() > 0 {
        let r = buffer.write_slice(pool, bytes);
        proof {
            pool.lemma_same_but_bytes_trans(&mid, old(pool));
        }
        r
    } else {
        proof {
            assert(spliced(buffer.bytes(pool), buffer@.cursor, bytes@) =~= buffer.bytes(pool));
        }
        Ok(())
    }
}

/// Writes the UTF-8 bytes of `s` in `order` at the cursor, as `write_bytes`
/// does.
pub fn write_str(buffer: &mut MByteBuffer, pool: &mut BufferPool, s: &str, order: ByteOrder) -> (r: Result<()>)
    requires
        old(pool).wf(),
        old(pool).holds(old(buffer)@.cell),
        old(buffer).wf(),
    ensures
        final(buffer).wf(),
        final(pool).wf(),
        final(pool).same_but_bytes(old(pool)),
        forall|n: Node|
            old(pool).valid_cell(n) && !same_slot(n, old(buffer)@.cell) ==> #[trigger] final(pool).cell_bytes(n) == old(pool).cell_bytes(n),
        framed_write_outcome(
            old(buffer)@,
            old(buffer).bytes(old(pool)),
            s.spec_bytes(),
            order,
            r,
            final(buffer)@,
            final(buffer).bytes(final(pool)),
        ),
{
    write_bytes(buffer, pool, s.as_bytes(), order)
}

/// Reads a value written by `write_bytes` in `order` at the cursor. Fails
/// with `ReadOutOfBounds` where the length, or the bytes it counts, reach
/// past the length of the buffer, the cursor left after what was read.
pub fn read_bytes(buffer: &mut MByteBuffer, pool: &BufferPool, order: ByteOrder) -> (r: Result<Vec<u8>>)
    requires
        pool.holds(old(buffer)@.cell),
        old(buffer).wf(),
    ensures
        final(buffer).wf(),
        final(buffer)@ == framed_state(old(buffer)@, old(buffer).bytes(pool), order),
        framed_error(old(buffer)@, old(buffer).bytes(pool), order) matches Some(e) ==> (r matches Err(x) && x == e),
        framed_error(old(buffer)@, old(buffer).bytes(pool), order) is None ==> (r matches Ok(v) && v@ == framed_body(old(buffer)@, old(buffer).bytes(pool), order)),
{
    let n = buffer.read_ordered::<u64>(pool, order)?;
    let start = buffer.cursor();
    let room = buffer.length() - start;
    if n > room as u64 {
        let end = if n <= (usize::MAX - start) as u64 {
            start + n as usize
        } else {
            usize::MAX
        };
        return Err(MByteBufferError::ReadOutOfBounds { length: buffer.length(), start, end });
    }
    if n == 0 {
        proof {
            assert(old(buffer).bytes(pool).subrange(start as int, start as int) =~= Seq::<u8>::empty());
        }
        return Ok(Vec::new());
    }
    let body = buffer.read_slice(pool, n as usize)?;
    Ok(slice_to_vec(body))
}

/// Relies on `std::str::from_utf8`: the bytes as a string slice where they
/// are well-formed UTF-8, else the error that says where they are not.
#[verifier::external_body]
fn utf8_str(b: &[u8]) -> (r: core::result::Result<&str, core::str::Utf8Error>)
    ensures
        r is Ok <==> valid_utf8(b@),
        r matches Ok(s) ==> s.spec_bytes() == b@,
{
    core::str::from_utf8(b)
}

/// Reads a string written by `write_str` in `order` at the cursor. Fails as
/// `read_bytes` does, or with `UnicodeError` where the bytes are not
/// well-formed UTF-8.
pub fn read_string(buffer: &mut MByteBuffer, pool: &BufferPool, order: ByteOrder) -> (r: Result<String>)
    requires
        pool.holds(old(buffer)@.cell),
        old(buffer).wf(),
    ensures
        final(buffer).wf(),
        final(buffer)@ == framed_state(old(buffer)@, old(buffer).bytes(pool), order),
        framed_error(old(buffer)@, old(buffer).bytes(pool), order) matches Some(e) ==> (r matches Err(x) && x == e),
        ({
            let body = framed_body(old(buffer)@, old(buffer).bytes(pool), order);
            &&& framed_error(old(buffer)@, old(buffer).bytes(pool), order) is None && valid_utf8(body)
                ==> (r matches Ok(v) && v@ == decode_utf8(body))
            &&& framed_error(old(buffer)@, old(buffer).bytes(pool), order) is None && !valid_utf8(body)
                ==> r matches Err(MByteBufferError::UnicodeError(_))
        }),
{
    let body = read_bytes(buffer, pool, order)?;
    match utf8_str(body.as_slice()) {
        Ok(s) => {
            proof {
                encode_utf8_decode_utf8(s@);
            }
            Ok(s.to_owned())
        },
        Err(e) => Err(MByteBufferError::UnicodeError(e)),
    }
}

} // verus!
