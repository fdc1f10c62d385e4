//! Scalar encodings: how integers become bytes and back, in either byte order.
use vstd::bytes::*;
use vstd::prelude::*;

verus! {

/// The order in which the bytes of a multi-byte scalar are laid out.
#[derive(Clone, Copy, Debug, PartialEq, Eq, Structural)]
pub enum ByteOrder {
    Little,
    Big,
}

/// `s` back to front.
pub open spec fn reversed(s: Seq<u8>) -> Seq<u8> {
    Seq::new(s.len(), |i: int| s[s.len() - 1 - i])
}

/// The bytes of a little-endian form `le`, laid out in `order`.
pub open spec fn ordered(le: Seq<u8>, order: ByteOrder) -> Seq<u8> {
    match order {
        ByteOrder::Little => le,
        ByteOrder::Big => reversed(le),
    }
}

/// Laying out twice in the same order gives the original bytes back.
pub proof fn lemma_ordered_involution(s: Seq<u8>, order: ByteOrder)
    ensures
        ordered(ordered(s, order), order) == s,
        ordered(s, order).len() == s.len(),
{
    assert(ordered(ordered(s, order), order) =~= s);
}

/// Copies `s` into a new vector, laid out in `order`.
pub fn to_order(s: &[u8], order: ByteOrder) -> (r: Vec<u8>)
    ensures
        r@ == ordered(s@, order),
{
    let n = s.len();
    let mut r: Vec<u8> = Vec::with_capacity(n);
    let mut i: usize = 0;
    while i < n
        invariant
            n == s@.len(),
            i <= n,
            r@.len() == i,
            forall|j: int|
                0 <= j < i ==> r@[j] == (match order {
                    ByteOrder::Little => s@[j],
                    ByteOrder::Big => s@[n - 1 - j],
                }),
        decreases n - i,
    {
        let b = match order {
            ByteOrder::Little => s[i],
            ByteOrder::Big => s[n - 1 - i],
        };
        r.push(b);
        i = i + 1;
    }
    assert(r@ =~= ordered(s@, order));
    r
}

/// The little-endian bytes of a 16-bit value.
pub open spec fn le16(v: u16) -> Seq<u8> {
    seq![(v % 256) as u8, (v / 256) as u8]
}

/// The machine's native byte order: the order in which it lays out the bytes
/// of 1 as a 16-bit value.
pub fn native_order() -> ByteOrder {
    let probe = native_bytes_u16(1);
    if probe[0] == 1 {
        ByteOrder::Little
    } else {
        ByteOrder::Big
    }
}

/// Relies on `u16::to_ne_bytes`: the bytes of `v` in the machine's own order,
/// which is little or big endian.
#[verifier::external_body]
fn native_bytes_u16(v: u16) -> (r: [u8; 2])
    ensures
        r@ == le16(v) || r@ == reversed(le16(v)),
{
    v.to_ne_bytes()
}

/// A value that can be laid out as bytes in a given order.
pub trait MByteBufferWrite {
    /// The bytes that stand for `self` in `order`.
    spec fn encoded(&self, order: ByteOrder) -> Seq<u8>;

    fn to_mbuffer_bytes(&self, order: ByteOrder) -> (r: Vec<u8>)
        ensures
            r@ == self.encoded(order),
    ;
}

/// A value of a fixed byte width that can be read back from bytes in a given order.
pub trait MByteBufferRead: Sized {
    /// How many bytes a value takes.
    spec fn width() -> nat;

    /// The value that `bytes` stand for in `order`.
    spec fn decoded(bytes: Seq<u8>, order: ByteOrder) -> Self;

    fn byte_width() -> (r: usize)
        ensures
            r == Self::width(),
    ;

    fn from_mbuffer_bytes(bytes: &[u8], order: ByteOrder) -> (r: Self)
        requires
            bytes@.len() == Self::width(),
        ensures
            r == Self::decoded(bytes@, order),
    ;
}

/// A fixed-width scalar whose encoding can be read back.
pub trait Scalar: MByteBufferWrite + MByteBufferRead {
    /// Encoding takes `width` bytes, and decoding them in the same order gives
    /// the value back.
    proof fn lemma_round_trip(&self, order: ByteOrder)
        ensures
            self.encoded(order).len() == Self::width(),
            Self::decoded(self.encoded(order), order) == *self,
    ;
}

impl MByteBufferWrite for u8 {
    open spec fn encoded(&self, order: ByteOrder) -> Seq<u8> {
        seq![*self]
    }

    fn to_mbuffer_bytes(&self, order: ByteOrder) -> (r: Vec<u8>) {
        vec![*self]
    }
}

impl MByteBufferRead for u8 {
    open spec fn width() -> nat {
        1
    }

    open spec fn decoded(bytes: Seq<u8>, order: ByteOrder) -> u8 {
        bytes[0]
    }

    fn byte_width() -> (r: usize) {
        1
    }

    fn from_mbuffer_bytes(bytes: &[u8], order: ByteOrder) -> (r: u8) {
        bytes[0]
    }
}

impl Scalar for u8 {
    proof fn lemma_round_trip(&self, order: ByteOrder) {
    }
}

impl MByteBufferWrite for i8 {
    open spec fn encoded(&self, order: ByteOrder) -> Seq<u8> {
        seq![#[verifier::truncate] (*self as u8)]
    }

    fn to_mbuffer_bytes(&self, order: ByteOrder) -> (r: Vec<u8>) {
        vec![*self as u8]
    }
}

impl MByteBufferRead for i8 {
    open spec fn width() -> nat {
        1
    }

    open spec fn decoded(bytes: Seq<u8>, order: ByteOrder) -> i8 {
        #[verifier::truncate] (bytes[0] as i8)
    }

    fn byte_width() -> (r: usize) {
        1
    }

    fn from_mbuffer_bytes(bytes: &[u8], order: ByteOrder) -> (r: i8) {
        bytes[0] as i8
    }
}

impl Scalar for i8 {
    proof fn lemma_round_trip(&self, order: ByteOrder) {
        let v = *self;
        assert(#[verifier::truncate] ((#[verifier::truncate] (v as u8)) as i8) == v) by (bit_vector);
    }
}

impl MByteBufferWrite for u16 {
    open spec fn encoded(&self, order: ByteOrder) -> Seq<u8> {
        ordered(spec_u16_to_le_bytes(*self), order)
    }

    fn to_mbuffer_bytes(&self, order: ByteOrder) -> (r: Vec<u8>) {
        let le = u16_to_le_bytes(*self);
        to_order(le.as_slice(), order)
    }
}

impl MByteBufferRead for u16 {
    open spec fn width() -> nat {
        2
    }

    open spec fn decoded(bytes: Seq<u8>, order: ByteOrder) -> u16 {
        spec_u16_from_le_bytes(ordered(bytes, order))
    }

    fn byte_width() -> (r: usize) {
        2
    }

    fn from_mbuffer_bytes(bytes: &[u8], order: ByteOrder) -> (r: u16) {
        let le = to_order(bytes, order);
        u16_from_le_bytes(le.as_slice())
    }
}

impl Scalar for u16 {
    proof fn lemma_round_trip(&self, order: ByteOrder) {
        lemma_auto_spec_u16_to_from_le_bytes();
        lemma_ordered_involution(spec_u16_to_le_bytes(*self), order);
    }
}

impl MByteBufferWrite for i16 {
    open spec fn encoded(&self, order: ByteOrder) -> Seq<u8> {
        ordered(spec_u16_to_le_bytes(#[verifier::truncate] (*self as u16)), order)
    }

    fn to_mbuffer_bytes(&self, order: ByteOrder) -> (r: Vec<u8>) {
        let le = u16_to_le_bytes(*self as u16);
        to_order(le.as_slice(), order)
    }
}

impl MByteBufferRead for i16 {
    open spec fn width() -> nat {
        2
    }

    open spec fn decoded(bytes: Seq<u8>, order: ByteOrder) -> i16 {
        #[verifier::truncate] (spec_u16_from_le_bytes(ordered(bytes, order)) as i16)
    }

    fn byte_width() -> (r: usize) {
        2
    }

    fn from_mbuffer_bytes(bytes: &[u8], order: ByteOrder) -> (r: i16) {
        let le = to_order(bytes, order);
        u16_from_le_bytes(le.as_slice()) as i16
    }
}

impl Scalar for i16 {
    proof fn lemma_round_trip(&self, order: ByteOrder) {
        lemma_auto_spec_u16_to_from_le_bytes();
        let v = *self;
        let u = #[verifier::truncate] (v as u16);
        lemma_ordered_involution(spec_u16_to_le_bytes(u), order);
        assert(#[verifier::truncate] ((#[verifier::truncate] (v as u16)) as i16) == v) by (bit_vector);
    }
}

impl MByteBufferWrite for u32 {
    open spec fn encoded(&self, order: ByteOrder) -> Seq<u8> {
        ordered(spec_u32_to_le_bytes(*self), order)
    }

    fn to_mbuffer_bytes(&self, order: ByteOrder) -> (r: Vec<u8>) {
        let le = u32_to_le_bytes(*self);
        to_order(le.as_slice(), order)
    }
}

impl MByteBufferRead for u32 {
    open spec fn width() -> nat {
        4
    }

    open spec fn decoded(bytes: Seq<u8>, order: ByteOrder) -> u32 {
        spec_u32_from_le_bytes(ordered(bytes, order))
    }

    fn byte_width() -> (r: usize) {
        4
    }

    fn from_mbuffer_bytes(bytes: &[u8], order: ByteOrder) -> (r: u32) {
        let le = to_order(bytes, order);
        u32_from_le_bytes(le.as_slice())
    }
}

impl Scalar for u32 {
    proof fn lemma_round_trip(&self, order: ByteOrder) {
        lemma_auto_spec_u32_to_from_le_bytes();
        lemma_ordered_involution(spec_u32_to_le_bytes(*self), order);
    }
}

impl MByteBufferWrite for i32 {
    open spec fn encoded(&self, order: ByteOrder) -> Seq<u8> {
        ordered(spec_u32_to_le_bytes(#[verifier::truncate] (*self as u32)), order)
    }

    fn to_mbuffer_bytes(&self, order: ByteOrder) -> (r: Vec<u8>) {
        let le = u32_to_le_bytes(*self as u32);
        to_order(le.as_slice(), order)
    }
}

impl MByteBufferRead for i32 {
    open spec fn width() -> nat {
        4
    }

    open spec fn decoded(bytes: Seq<u8>, order: ByteOrder) -> i32 {
        #[verifier::truncate] (spec_u32_from_le_bytes(ordered(bytes, order)) as i32)
    }

    fn byte_width() -> (r: usize) {
        4
    }

    fn from_mbuffer_bytes(bytes: &[u8], order: ByteOrder) -> (r: i32) {
        let le = to_order(bytes, order);
        u32_from_le_bytes(le.as_slice()) as i32
    }
}

impl Scalar for i32 {
    proof fn lemma_round_trip(&self, order: ByteOrder) {
        lemma_auto_spec_u32_to_from_le_bytes();
        let v = *self;
        let u = #[verifier::truncate] (v as u32);
        lemma_ordered_involution(spec_u32_to_le_bytes(u), order);
        assert(#[verifier::truncate] ((#[verifier::truncate] (v as u32)) as i32) == v) by (bit_vector);
    }
}

impl MByteBufferWrite for u64 {
    open spec fn encoded(&self, order: ByteOrder) -> Seq<u8> {
        ordered(spec_u64_to_le_bytes(*self), order)
    }

    fn to_mbuffer_bytes(&self, order: ByteOrder) -> (r: Vec<u8>) {
        let le = u64_to_le_bytes(*self);
        to_order(le.as_slice(), order)
    }
}

impl MByteBufferRead for u64 {
    open spec fn width() -> nat {
        8
    }

    open spec fn decoded(bytes: Seq<u8>, order: ByteOrder) -> u64 {
        spec_u64_from_le_bytes(ordered(bytes, order))
    }

    fn byte_width() -> (r: usize) {
        8
    }

    fn from_mbuffer_bytes(bytes: &[u8], order: ByteOrder) -> (r: u64) {
        let le = to_order(bytes, order);
        u64_from_le_bytes(le.as_slice())
    }
}

impl Scalar for u64 {
    proof fn lemma_round_trip(&self, order: ByteOrder) {
        lemma_auto_spec_u64_to_from_le_bytes();
        lemma_ordered_involution(spec_u64_to_le_bytes(*self), order);
    }
}

impl MByteBufferWrite for i64 {
    open spec fn encoded(&self, order: ByteOrder) -> Seq<u8> {
        ordered(spec_u64_to_le_bytes(#[verifier::truncate] (*self as u64)), order)
    }

    fn to_mbuffer_bytes(&self, order: ByteOrder) -> (r: Vec<u8>) {
        let le = u64_to_le_bytes(*self as u64);
        to_order(le.as_slice(), order)
    }
}

impl MByteBufferRead for i64 {
    open spec fn width() -> nat {
        8
    }

    open spec fn decoded(bytes: Seq<u8>, order: ByteOrder) -> i64 {
        #[verifier::truncate] (spec_u64_from_le_bytes(ordered(bytes, order)) as i64)
    }

    fn byte_width() -> (r: usize) {
        8
    }

    fn from_mbuffer_bytes(bytes: &[u8], order: ByteOrder) -> (r: i64) {
        let le = to_order(bytes, order);
        u64_from_le_bytes(le.as_slice()) as i64
    }
}

impl Scalar for i64 {
    proof fn lemma_round_trip(&self, order: ByteOrder) {
        lemma_auto_spec_u64_to_from_le_bytes();
        let v = *self;
        let u = #[verifier::truncate] (v as u64);
        lemma_ordered_involution(spec_u64_to_le_bytes(u), order);
        assert(#[verifier::truncate] ((#[verifier::truncate] (v as u64)) as i64) == v) by (bit_vector);
    }
}

impl MByteBufferWrite for u128 {
    open spec fn encoded(&self, order: ByteOrder) -> Seq<u8> {
        ordered(spec_u128_to_le_bytes(*self), order)
    }

    fn to_mbuffer_bytes(&self, order: ByteOrder) -> (r: Vec<u8>) {
        let le = u128_to_le_bytes(*self);
        to_order(le.as_slice(), order)
    }
}

impl MByteBufferRead for u128 {
    open spec fn width() -> nat {
        16
    }

    open spec fn decoded(bytes: Seq<u8>, order: ByteOrder) -> u128 {
        spec_u128_from_le_bytes(ordered(bytes, order))
    }

    fn byte_width() -> (r: usize) {
        16
    }

    fn from_mbuffer_bytes(bytes: &[u8], order: ByteOrder) -> (r: u128) {
        let le = to_order(bytes, order);
        u128_from_le_bytes(le.as_slice())
    }
}

impl Scalar for u128 {
    proof fn lemma_round_trip(&self, order: ByteOrder) {
        lemma_auto_spec_u128_to_from_le_bytes();
        lemma_ordered_involution(spec_u128_to_le_bytes(*self), order);
    }
}

impl MByteBufferWrite for i128 {
    open spec fn encoded(&self, order: ByteOrder) -> Seq<u8> {
        ordered(spec_u128_to_le_bytes(#[verifier::truncate] (*self as u128)), order)
    }

    fn to_mbuffer_bytes(&self, order: ByteOrder) -> (r: Vec<u8>) {
        let le = u128_to_le_bytes(*self as u128);
        to_order(le.as_slice(), order)
    }
}

impl MByteBufferRead for i128 {
    open spec fn width() -> nat {
        16
    }

    open spec fn decoded(bytes: Seq<u8>, order: ByteOrder) -> i128 {
        #[verifier::truncate] (spec_u128_from_le_bytes(ordered(bytes, order)) as i128)
    }

    fn byte_width() -> (r: usize) {
        16
    }

    fn from_mbuffer_bytes(bytes: &[u8], order: ByteOrder) -> (r: i128) {
        let le = to_order(bytes, order);
        u128_from_le_bytes(le.as_slice()) as i128
    }
}

impl Scalar for i128 {
    proof fn lemma_round_trip(&self, order: ByteOrder) {
        lemma_auto_spec_u128_to_from_le_bytes();
        let v = *self;
        let u = #[verifier::truncate] (v as u128);
        lemma_ordered_involution(spec_u128_to_le_bytes(u), order);
        assert(#[verifier::truncate] ((#[verifier::truncate] (v as u128)) as i128) == v) by (bit_vector);
    }
}

} // verus!
