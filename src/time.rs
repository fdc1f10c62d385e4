//! Durations on the wire: the whole seconds as a 64-bit value followed by the
//! sub-second nanoseconds as a 32-bit value.
use crate::allocator::{same_slot, spliced, BufferPool, Node, BUFFER_SIZE};
use crate::byte_buffer::MByteBuffer;
use crate::codec::{ByteOrder, MByteBufferRead, MByteBufferWrite, Scalar};
use crate::error::{MByteBufferError, Result};
use vstd::prelude::*;

verus! {

/// Nanoseconds in a second.
pub const NANOS_PER_SEC: u32 = 1_000_000_000;

/// A span of time: whole seconds and the nanoseconds under a second.
#[derive(Clone, Copy, Debug, PartialEq, Eq, Structural)]
pub struct Duration {
    secs: u64,
    nanos: u32,
}

impl View for Duration {
    type V = (u64, u32);

    closed spec fn view(&self) -> (u64, u32) {
        (self.secs, self.nanos)
    }
}

/// Whether the seconds of `secs` seconds and `nanos` nanoseconds, once the
/// whole seconds in `nanos` are carried over, fit in 64 bits.
pub open spec fn duration_fits(secs: u64, nanos: u32) -> bool {
    secs + nanos / NANOS_PER_SEC <= u64::MAX
}

/// The whole seconds and the nanoseconds under a second of `secs` seconds and
/// `nanos` nanoseconds.
pub open spec fn normalized(secs: u64, nanos: u32) -> (u64, u32) {
    ((secs + nanos / NANOS_PER_SEC) as u64, (nanos % NANOS_PER_SEC) as u32)
}

impl Duration {
    #[verifier::type_invariant]
    spec fn inv(&self) -> bool {
        self.nanos < NANOS_PER_SEC
    }

    /// The whole seconds.
    pub fn as_secs(&self) -> (r: u64)
        ensures
            r == self@.0,
    {
        self.secs
    }

    /// The nanoseconds under a second.
    pub fn subsec_nanos(&self) -> (r: u32)
        ensures
            r == self@.1,
            r < NANOS_PER_SEC,
    {
        proof {
            use_type_invariant(self);
        }
        self.nanos
    }
}

/// Relies on `format!`: the words of the error for `secs` seconds and `nanos`
/// nanoseconds that make no duration.
#[verifier::external_body]
fn invalid_duration_message(secs: u64, nanos: u32) -> String {
    format!("Invalid Duration: secs: {} nanos: {}", secs, nanos)
}

/// The duration of `secs` seconds and `nanos` nanoseconds, the whole seconds
/// in `nanos` carried over. Fails with `OtherError` where the seconds would
/// not fit in 64 bits.
pub fn new_duration(secs: u64, nanos: u32) -> (r: Result<Duration>)
    ensures
        duration_fits(secs, nanos) ==> (r matches Ok(d) && d@ == normalized(secs, nanos)),
        !duration_fits(secs, nanos) ==> r matches Err(MByteBufferError::OtherError { .. }),
{
    let carry = (nanos / NANOS_PER_SEC) as u64;
    if secs > u64::MAX - carry {
        return Err(MByteBufferError::OtherError { error: invalid_duration_message(secs, nanos) });
    }
    Ok(Duration { secs: secs + carry, nanos: nanos % NANOS_PER_SEC })
}

/// Reads a duration in `order` at the cursor: the seconds, then the
/// nanoseconds. Fails as the two reads do, the cursor left after what was
/// read, or as `new_duration` does on what was read.
pub fn read_duration(buffer: &mut MByteBuffer, pool: &BufferPool, order: ByteOrder) -> (r: Result<
    Duration,
>)
    requires
        pool.holds(old(buffer)@.cell),
        old(buffer).wf(),
    ensures
        final(buffer).wf(),
        ({
            let s = old(buffer)@;
            let bytes = old(buffer).bytes(pool);
            let c = s.cursor;
            &&& c + 8 > s.length ==> {
                &&& r matches Err(e) && e == s.read_error(c, 8)
                &&& final(buffer)@ == s
            }
            &&& c + 8 <= s.length && c + 12 > s.length ==> {
                &&& r matches Err(e) && e == s.read_error(c + 8, 4)
                &&& final(buffer)@ == s.at(c + 8)
            }
            &&& c + 12 <= s.length ==> {
                let secs = <u64 as MByteBufferRead>::decoded(bytes.subrange(c, c + 8), order);
                let nanos = <u32 as MByteBufferRead>::decoded(bytes.subrange(c + 8, c + 12), order);
                &&& final(buffer)@ == s.at(c + 12)
                &&& duration_fits(secs, nanos) ==> (r matches Ok(d) && d@ == normalized(secs, nanos))
                &&& !duration_fits(secs, nanos) ==> r is Err
            }
        }),
{
    let secs = buffer.read_ordered::<u64>(pool, order)?;
    let nanos = buffer.read_ordered::<u32>(pool, order)?;
    new_duration(secs, nanos)
}

/// Writes `d` in `order` at the cursor: the seconds, then the nanoseconds.
/// Fails with `MaxCapacity` where a part would reach past the capacity, the
/// parts before it written.
pub fn write_duration(buffer: &mut MByteBuffer, pool: &mut BufferPool, d: Duration, order: ByteOrder) -> (r: Result<()>)
    requires
        old(pool).wf(),
        old(pool).holds(old(buffer)@.cell),
        old(buffer).wf(),
    ensures
        final(buffer).wf(),
        final(pool).wf(),
        final(pool).same_but_bytes(old(pool)),
        forall|n: Node|
            old(pool).valid_cell(n) && !same_slot(n, old(buffer)@.cell) ==> #[trigger] final(pool).cell_bytes(n) == old(pool).cell_bytes(n),
        ({
            let s = old(buffer)@;
            let c = s.cursor;
            let secs = d@.0.encoded(order);
            let nanos = d@.1.encoded(order);
            &&& c + 8 > BUFFER_SIZE ==> {
                &&& r matches Err(MByteBufferError::MaxCapacity)
                &&& final(buffer)@ == s
            }
            &&& c + 8 <= BUFFER_SIZE && c + 12 > BUFFER_SIZE ==> {
                &&& r matches Err(MByteBufferError::MaxCapacity)
                &&& final(buffer)@ == s.after_write(8)
            }
            &&& c + 12 <= BUFFER_SIZE ==> {
                &&& r is Ok
                &&& final(buffer)@ == s.after_write(8).after_write(4)
                &&& final(buffer).bytes(final(pool)) == spliced(
                    spliced(old(buffer).bytes(old(pool)), c, secs),
                    c + 8,
                    nanos,
                )
            }
        }),
{
    let secs = d.as_secs();
    let nanos = d.subsec_nanos();
    proof {
        secs.lemma_round_trip(order);
        nanos.lemma_round_trip(order);
    }
    buffer.write_ordered(pool, &secs, order)?;
    let ghost mid = *pool;
    let r = buffer.write_ordered(pool, &nanos, order);
    proof {
        pool.lemma_same_but_bytes_trans(&mid, old(pool));
    }
    r
}

} // verus!
