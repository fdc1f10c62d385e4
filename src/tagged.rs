//! Tagged values on the wire: a one-byte tag naming the variant, then the
//! payload of that variant, if it has one.
use crate::allocator::{same_slot, spliced, BufferPool, Node, BUFFER_SIZE};
use crate::byte_buffer::{CursorState, MByteBuffer};
use crate::codec::{ByteOrder, MByteBufferRead, MByteBufferWrite};
use crate::error::{MByteBufferError, Result};
use vstd::prelude::*;

verus! {

/// The tag of `Some` and of `Ok`.
pub const TAG_FIRST: u8 = 1;

/// The tag of `None` and of `Err`.
pub const TAG_SECOND: u8 = 2;

/// What writing the tag `tag` and then `payload` at the cursor of a buffer in
/// state `s` over `bytes` gives: the state `s2` over `bytes2` and the result
/// `r`. A part that would reach past the capacity fails with `MaxCapacity`,
/// the tag written if it fitted.
pub open spec fn tagged_write_outcome(
    s: CursorState,
    bytes: Seq<u8>,
    tag: u8,
    payload: Seq<u8>,
    r: Result<()>,
    s2: CursorState,
    bytes2: Seq<u8>,
) -> bool {
    let c = s.cursor;
    &&& c + 1 > BUFFER_SIZE ==> {
        &&& r matches Err(MByteBufferError::MaxCapacity)
        &&& s2 == s
        &&& bytes2 == bytes
    }
    &&& c + 1 <= BUFFER_SIZE && c + 1 + payload.len() > BUFFER_SIZE ==> {
        &&& r matches Err(MByteBufferError::MaxCapacity)
        &&& s2 == s.after_write(1)
        &&& bytes2 == spliced(bytes, c, seq![tag])
    }
    &&& c + 1 + payload.len() <= BUFFER_SIZE ==> {
        &&& r is Ok
        &&& s2 == s.after_write(1).after_write(payload.len() as int)
        &&& bytes2 == spliced(spliced(bytes, c, seq![tag]), c + 1, payload)
    }
}

/// The tag and payload bytes of `v`: `Some` as the first tag and its value,
/// `None` as the second tag alone.
pub open spec fn option_parts<T: MByteBufferWrite>(v: Option<T>, order: ByteOrder) -> (u8, Seq<u8>) {
    match v {
        Some(x) => (TAG_FIRST, x.encoded(order)),
        None => (TAG_SECOND, Seq::empty()),
    }
}

/// The tag and payload bytes of `v`: `Ok` as the first tag and its value,
/// `Err` as the second tag and its value.
pub open spec fn result_parts<T: MByteBufferWrite, E: MByteBufferWrite>(
    v: core::result::Result<T, E>,
    order: ByteOrder,
) -> (u8, Seq<u8>) {
    match v {
        Ok(x) => (TAG_FIRST, x.encoded(order)),
        Err(e) => (TAG_SECOND, e.encoded(order)),
    }
}

/// Writes the tag `tag` at the cursor, then `payload` if there is one.
fn write_tagged(buffer: &mut MByteBuffer, pool: &mut BufferPool, tag: u8, payload: &[u8]) -> (r: Result<()>)
    requires
        old(pool).wf(),
        old(pool).holds(old(buffer)@.cell),
        old(buffer).wf(),
    ensures
        final(buffer).wf(),
        final(pool).wf(),
        final(pool).same_but_bytes(old(pool)),
        forall|n: Node|
            old(pool).valid_cell(n) && !same_slot(n, old(buffer)@.cell) ==> #[trigger] final(pool).cell_bytes(n) == old(pool).cell_bytes(n),
        tagged_write_outcome(
            old(buffer)@,
            old(buffer).bytes(old(pool)),
            tag,
            payload@,
            r,
            final(buffer)@,
            final(buffer).bytes(final(pool)),
        ),
{
    let head: [u8; 1] = [tag];
    proof {
        assert(head@ =~= seq![tag]);
    }
    buffer.write_slice(pool, head.as_slice())?;
    let ghost mid = *pool;
    if payload.len() > 0 {
        let r = buffer.write_slice(pool, payload);
        proof {
            pool.lemma_same_but_bytes_trans(&mid, old(pool));
        }
        r
    } else {
        proof {
            assert(spliced(buffer.bytes(pool), buffer@.cursor, payload@) =~= buffer.bytes(pool));
        }
        Ok(())
    }
}

/// Writes `v` in `order` at the cursor: its tag, then its value if it has one.
pub fn write_option<T: MByteBufferWrite>(
    buffer: &mut MByteBuffer,
    pool: &mut BufferPool,
    v: &Option<T>,
    order: ByteOrder,
) -> (r: Result<()>)
    requires
        old(pool).wf(),
        old(pool).holds(old(buffer)@.cell),
        old(buffer).wf(),
    ensures
        final(buffer).wf(),
        final(pool).wf(),
        final(pool).same_but_bytes(old(pool)),
        forall|n: Node|
            old(pool).valid_cell(n) && !same_slot(n, old(buffer)@.cell) ==> #[trigger] final(pool).cell_bytes(n) == old(pool).cell_bytes(n),
        tagged_write_outcome(
            old(buffer)@,
            old(buffer).bytes(old(pool)),
            option_parts(*v, order).0,
            option_parts(*v, order).1,
            r,
            final(buffer)@,
            final(buffer).bytes(final(pool)),
        ),
{
    match v {
        Some(x) => {
            let payload = x.to_mbuffer_bytes(order);
            write_tagged(buffer, pool, TAG_FIRST, payload.as_slice())
        },
        None => {
            let payload: Vec<u8> = Vec::new();
            proof {
                assert(payload@ =~= Seq::<u8>::empty());
            }
            write_tagged(buffer, pool, TAG_SECOND, payload.as_slice())
        },
    }
}

/// Writes `v` in `order` at the cursor: its tag, then its value.
pub fn write_result<T: MByteBufferWrite, E: MByteBufferWrite>(
    buffer: &mut MByteBuffer,
    pool: &mut BufferPool,
    v: &core::result::Result<T, E>,
    order: ByteOrder,
) -> (r: Result<()>)
    requires
        old(pool).wf(),
        old(pool).holds(old(buffer)@.cell),
        old(buffer).wf(),
    ensures
        final(buffer).wf(),
        final(pool).wf(),
        final(pool).same_but_bytes(old(pool)),
        forall|n: Node|
            old(pool).valid_cell(n) && !same_slot(n, old(buffer)@.cell) ==> #[trigger] final(pool).cell_bytes(n) == old(pool).cell_bytes(n),
        tagged_write_outcome(
            old(buffer)@,
            old(buffer).bytes(old(pool)),
            result_parts(*v, order).0,
            result_parts(*v, order).1,
            r,
            final(buffer)@,
            final(buffer).bytes(final(pool)),
        ),
{
    match v {
        Ok(x) => {
            let payload = x.to_mbuffer_bytes(order);
            write_tagged(buffer, pool, TAG_FIRST, payload.as_slice())
        },
        Err(e) => {
            let payload = e.to_mbuffer_bytes(order);
            write_tagged(buffer, pool, TAG_SECOND, payload.as_slice())
        },
    }
}

/// Reads the tag byte at the cursor. Fails as `read_slice` does.
fn read_tag(buffer: &mut MByteBuffer, pool: &BufferPool) -> (r: Result<u8>)
    requires
        pool.holds(old(buffer)@.cell),
        old(buffer).wf(),
    ensures
        final(buffer).wf(),
        old(buffer)@.cursor + 1 > old(buffer)@.length ==> {
            &&& r matches Err(e) && e == old(buffer)@.read_error(old(buffer)@.cursor, 1)
            &&& final(buffer)@ == old(buffer)@
        },
        old(buffer)@.cursor + 1 <= old(buffer)@.length ==> {
            &&& r matches Ok(t) && t == old(buffer).bytes(pool)[old(buffer)@.cursor]
            &&& final(buffer)@ == old(buffer)@.at(old(buffer)@.cursor + 1)
        },
{
    let b = buffer.read_slice(pool, 1)?;
    Ok(b[0])
}

/// Reads an `Option<T>` written by `write_option` in `order` at the cursor.
/// Fails as the reads do, or with `OtherError` where the tag names neither
/// variant, the cursor left after what was read.
pub fn read_option<T: MByteBufferRead>(buffer: &mut MByteBuffer, pool: &BufferPool, order: ByteOrder) -> (r: Result<Option<T>>)
    requires
        pool.holds(old(buffer)@.cell),
        old(buffer).wf(),
        old(buffer)@.cursor + 1 + T::width() <= usize::MAX,
    ensures
        final(buffer).wf(),
        ({
            let s = old(buffer)@;
            let bytes = old(buffer).bytes(pool);
            let c = s.cursor;
            let w = T::width() as int;
            &&& c + 1 > s.length ==> {
                &&& r matches Err(e) && e == s.read_error(c, 1)
                &&& final(buffer)@ == s
            }
            &&& c + 1 <= s.length && bytes[c] == TAG_FIRST && c + 1 + w > s.length ==> {
                &&& r matches Err(e) && e == s.read_error(c + 1, w)
                &&& final(buffer)@ == s.at(c + 1)
            }
            &&& c + 1 <= s.length && bytes[c] == TAG_FIRST && c + 1 + w <= s.length ==> {
                &&& r matches Ok(v) && v == Some(T::decoded(bytes.subrange(c + 1, c + 1 + w), order))
                &&& final(buffer)@ == s.at(c + 1 + w)
            }
            &&& c + 1 <= s.length && bytes[c] == TAG_SECOND ==> {
                &&& r matches Ok(v) && v is None
                &&& final(buffer)@ == s.at(c + 1)
            }
            &&& c + 1 <= s.length && bytes[c] != TAG_FIRST && bytes[c] != TAG_SECOND ==> {
                &&& r matches Err(MByteBufferError::OtherError { .. })
                &&& final(buffer)@ == s.at(c + 1)
            }
        }),
{
    let tag = read_tag(buffer, pool)?;
    if tag == TAG_FIRST {
        let v = buffer.read_ordered::<T>(pool, order)?;
        Ok(Some(v))
    } else if tag == TAG_SECOND {
        Ok(None)
    } else {
        Err(MByteBufferError::OtherError { error: "Invalid Read to Option".to_owned() })
    }
}

/// Reads a `Result<T, E>` written by `write_result` in `order` at the
/// cursor. Fails as the reads do, or with `OtherError` where the tag names
/// neither variant, the cursor left after what was read.
pub fn read_result<T: MByteBufferRead, E: MByteBufferRead>(
    buffer: &mut MByteBuffer,
    pool: &BufferPool,
    order: ByteOrder,
) -> (r: Result<core::result::Result<T, E>>)
    requires
        pool.holds(old(buffer)@.cell),
        old(buffer).wf(),
        old(buffer)@.cursor + 1 + T::width() <= usize::MAX,
        old(buffer)@.cursor + 1 + E::width() <= usize::MAX,
    ensures
        final(buffer).wf(),
        ({
            let s = old(buffer)@;
            let bytes = old(buffer).bytes(pool);
            let c = s.cursor;
            let wt = T::width() as int;
            let we = E::width() as int;
            &&& c + 1 > s.length ==> {
                &&& r matches Err(e) && e == s.read_error(c, 1)
                &&& final(buffer)@ == s
            }
            &&& c + 1 <= s.length && bytes[c] == TAG_FIRST && c + 1 + wt > s.length ==> {
                &&& r matches Err(e) && e == s.read_error(c + 1, wt)
                &&& final(buffer)@ == s.at(c + 1)
            }
            &&& c + 1 <= s.length && bytes[c] == TAG_FIRST && c + 1 + wt <= s.length ==> {
                &&& r matches Ok(v) && v == Ok::<T, E>(T::decoded(bytes.subrange(c + 1, c + 1 + wt), order))
                &&& final(buffer)@ == s.at(c + 1 + wt)
            }
            &&& c + 1 <= s.length && bytes[c] == TAG_SECOND && c + 1 + we > s.length ==> {
                &&& r matches Err(e) && e == s.read_error(c + 1, we)
                &&& final(buffer)@ == s.at(c + 1)
            }
            &&& c + 1 <= s.length && bytes[c] == TAG_SECOND && c + 1 + we <= s.length ==> {
                &&& r matches Ok(v) && v == Err::<T, E>(E::decoded(bytes.subrange(c + 1, c + 1 + we), order))
                &&& final(buffer)@ == s.at(c + 1 + we)
            }
            &&& c + 1 <= s.length && bytes[c] != TAG_FIRST && bytes[c] != TAG_SECOND ==> {
                &&& r matches Err(MByteBufferError::OtherError { .. })
                &&& final(buffer)@ == s.at(c + 1)
            }
        }),
{
    let tag = read_tag(buffer, pool)?;
    if tag == TAG_FIRST {
        let v = buffer.read_ordered::<T>(pool, order)?;
        Ok(Ok(v))
    } else if tag == TAG_SECOND {
        let e = buffer.read_ordered::<E>(pool, order)?;
        Ok(Err(e))
    } else {
        Err(MByteBufferError::OtherError { error: "Invalid Read to Result".to_owned() })
    }
}

} // verus!
