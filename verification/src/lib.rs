//! Composable binary wire-format codecs.
//!
//! A codec is a stateless descriptor value that maps one logical type to and
//! from bytes. Every operation threads a caller-owned cursor through a
//! buffer: decoding walks the buffer left to right producing a value,
//! encoding writes into a pre-sized buffer, and measuring returns the exact
//! byte count an encode of the same value would write.
//!
//! Each codec carries a functional model of its wire format: `spec_enc` maps
//! a value's abstraction to the bytes written for it, and `spec_dec` maps a
//! buffer and a position to the decoded abstraction or the exact error.
//! The executable operations are proved to follow those models, and every
//! decoder proves a round-trip law: decoding an encoding yields the value
//! that was encoded.
use vstd::prelude::*;

pub mod bytes;
pub mod fix;
pub mod prelude;
pub mod prim;
pub mod record;
pub mod util;
pub mod var;

use crate::bytes::read_byte;
use crate::bytes::spliced;
use crate::bytes::write_byte;

verus! {

/// Why a decode failed.
#[derive(Clone, Copy, Debug, PartialEq, Eq, Structural)]
pub enum DecodeError {
    EOF,
    InvalidDiscriminant,
    InvalidUSize,
    ConversionFailure,
    InvalidData,
    CodecFailure,
}

/// Why an encode or a measure failed.
#[derive(Clone, Copy, Debug, PartialEq, Eq, Structural)]
pub enum EncodeError {
    BufferTooSmall,
    InvalidUSize,
    CodecFailure,
}

/// A codec that can state the size of a value's encoding.
pub trait Measurer {
    type Decoded: DeepView;

    /// The wire bytes this codec writes for `v`, or `None` when `v` is not
    /// encodable by this codec (a conversion fails, or the total size does
    /// not fit in `usize`).
    spec fn spec_enc(&self, v: <Self::Decoded as DeepView>::V) -> Option<Seq<u8>>;

    /// Whether `e` is an error this codec reports for a value it cannot
    /// encode. Which kind comes back depends on the failure a
    /// left-to-right walk of the value meets first; codecs that encode
    /// every value report none.
    open spec fn spec_enc_fail(&self, v: <Self::Decoded as DeepView>::V, e: EncodeError) -> bool {
        false
    }

    fn measure(&self, decoded: &Self::Decoded) -> (r: Result<usize, EncodeError>)
        ensures
            match self.spec_enc(decoded.deep_view()) {
                Some(s) => r matches Ok(n) && n == s.len(),
                None => r matches Err(e) && self.spec_enc_fail(decoded.deep_view(), e),
            },
    ;
}

/// A codec whose encoded size is one value-independent constant.
pub trait FixedMeasurer: Measurer {
    /// The size every encodable value measures to.
    spec fn spec_fixed(&self) -> nat;

    /// Every encoding this codec produces has length `spec_fixed`.
    proof fn lemma_fixed(&self, v: <Self::Decoded as DeepView>::V)
        ensures
            self.spec_enc(v) matches Some(s) ==> s.len() == self.spec_fixed(),
    ;

    fn measure_fixed(&self) -> (r: usize)
        requires
            self.spec_fixed() <= usize::MAX,
        ensures
            r == self.spec_fixed(),
    ;
}

/// A codec that writes a value into a pre-sized buffer at a cursor.
///
/// Encoding succeeds exactly when the value is encodable and its encoding
/// fits between the cursor and the end of the buffer; on success the
/// encoding is laid down at the cursor, everything else is unchanged, and
/// the cursor advances past it. On failure the bytes before the cursor are
/// untouched; an encodable value fails only with `BufferTooSmall`, and an
/// unencodable one with `BufferTooSmall` or one of the kinds
/// `spec_enc_fail` admits for it.
pub trait Encoder: Measurer {
    fn encode(
        &self,
        decoded: &Self::Decoded,
        encoded: &mut Vec<u8>,
        offset: &mut usize,
    ) -> (r: Result<(), EncodeError>)
        requires
            *old(offset) <= old(encoded).len(),
        ensures
            final(encoded).len() == old(encoded).len(),
            *old(offset) <= *final(offset) <= final(encoded).len(),
            match self.spec_enc(decoded.deep_view()) {
                Some(s) => {
                    &&& (r is Ok <==> *old(offset) + s.len() <= final(encoded).len())
                    &&& r is Ok ==> *final(offset) == *old(offset) + s.len() && spliced(
                        old(encoded)@,
                        final(encoded)@,
                        *old(offset) as int,
                        s,
                    )
                    &&& r is Err ==> r == Err::<(), EncodeError>(EncodeError::BufferTooSmall)
                }
                None => r matches Err(e) && (e == EncodeError::BufferTooSmall
                    || self.spec_enc_fail(decoded.deep_view(), e)),
            },
            r is Err ==> final(encoded)@.subrange(0, *old(offset) as int) == old(
                encoded,
            )@.subrange(0, *old(offset) as int),
    ;
}

/// A codec that reads a value from a borrowed buffer at a cursor. The
/// decoded value may borrow from the buffer (zero-copy), which is why the
/// decoding side has its own associated type; it abstracts to the same
/// mathematical value as the owned side.
pub trait BorrowedDecoder<'e>: Measurer {
    type BDecoded: DeepView<V = <<Self as Measurer>::Decoded as DeepView>::V>;

    /// A functional model of decoding: reading at `pos` in `buf` either
    /// yields the decoded value's abstraction and the cursor after it, or
    /// the exact error the decoder reports.
    spec fn spec_dec(&self, buf: Seq<u8>, pos: int) -> Result<
        (<Self::Decoded as DeepView>::V, int),
        DecodeError,
    >;

    /// Whether this codec accepts only its own encodings, so that decoding
    /// and re-encoding reproduces the input bytes exactly.
    spec fn canonical(&self) -> bool;

    /// Whether a buffer that ends part-way through an encoding is always
    /// reported as `EOF`.
    spec fn short_input_eof(&self) -> bool;

    fn borrowed_decode(&self, encoded: &'e [u8], offset: &mut usize) -> (r: Result<
        Self::BDecoded,
        DecodeError,
    >)
        requires
            *old(offset) <= encoded.len(),
        ensures
            *old(offset) <= *final(offset) <= encoded.len(),
            match self.spec_dec(encoded@, *old(offset) as int) {
                Ok((v, end)) => r matches Ok(d) && d.deep_view() == v && *final(offset) == end,
                Err(e) => r matches Err(e2) && e2 == e,
            },
    ;

    /// Round trip: decoding an encoding of `v` placed at `pos` yields `v`
    /// and consumes exactly the encoding, whatever surrounds it.
    proof fn lemma_round_trip(&self, buf: Seq<u8>, pos: int, v: <Self::Decoded as DeepView>::V)
        requires
            0 <= pos,
            self.spec_enc(v) is Some,
            pos + self.spec_enc(v)->0.len() <= buf.len(),
            buf.subrange(pos, pos + self.spec_enc(v)->0.len()) == self.spec_enc(v)->0,
        ensures
            self.spec_dec(buf, pos) == Ok::<_, DecodeError>((v, pos + self.spec_enc(v)->0.len())),
    ;

    /// Idempotence for canonical codecs: whatever decodes successfully is
    /// the exact encoding of the decoded value, so re-encoding it
    /// reproduces the consumed bytes.
    proof fn lemma_canonical(&self, buf: Seq<u8>, pos: int)
        requires
            self.canonical(),
            0 <= pos <= buf.len(),
            buf.len() <= usize::MAX,
        ensures
            self.spec_dec(buf, pos) matches Ok((v, end)) ==> pos <= end <= buf.len()
                && self.spec_enc(v) == Some(buf.subrange(pos, end)),
    ;

    /// A buffer holding a strict prefix of an encoding and nothing after it
    /// decodes to `EOF` for codecs with `short_input_eof`.
    proof fn lemma_short_eof(
        &self,
        buf: Seq<u8>,
        pos: int,
        v: <Self::Decoded as DeepView>::V,
        k: int,
    )
        requires
            self.short_input_eof(),
            0 <= pos,
            self.spec_enc(v) is Some,
            0 <= k < self.spec_enc(v)->0.len(),
            buf.len() == pos + k,
            buf.subrange(pos, pos + k) == self.spec_enc(v)->0.subrange(0, k),
        ensures
            self.spec_dec(buf, pos) == Err::<
                (<Self::Decoded as DeepView>::V, int),
                DecodeError,
            >(DecodeError::EOF),
    ;
}

/// A type that states the size of its own intrinsic encoding.
pub trait Measure: DeepView {
    /// The wire bytes of `v` under the type's intrinsic encoding, or `None`
    /// when `v` is not encodable.
    spec fn encoded_of(v: Self::V) -> Option<Seq<u8>>;

    /// Whether `e` is an error the intrinsic encoding reports for a value
    /// it cannot encode; types whose every value is encodable report none.
    open spec fn enc_fail_of(v: Self::V, e: EncodeError) -> bool {
        false
    }

    fn measure(&self) -> (r: Result<usize, EncodeError>)
        ensures
            match Self::encoded_of(self.deep_view()) {
                Some(s) => r matches Ok(n) && n == s.len(),
                None => r matches Err(e) && Self::enc_fail_of(self.deep_view(), e),
            },
    ;
}

/// A type whose intrinsic encoding has one value-independent size.
pub trait MeasureFixed: Measure {
    /// The size every encodable value measures to.
    spec fn fixed_size() -> nat;

    /// Every intrinsic encoding of this type has length `fixed_size`.
    proof fn lemma_fixed(v: Self::V)
        ensures
            Self::encoded_of(v) matches Some(s) ==> s.len() == Self::fixed_size(),
    ;

    fn measure_fixed() -> (r: usize)
        requires
            Self::fixed_size() <= usize::MAX,
        ensures
            r == Self::fixed_size(),
    ;
}

/// A type that writes itself with its intrinsic encoding.
pub trait Encode: Measure {
    fn encode(&self, encoded: &mut Vec<u8>, offset: &mut usize) -> (r: Result<(), EncodeError>)
        requires
            *old(offset) <= old(encoded).len(),
        ensures
            final(encoded).len() == old(encoded).len(),
            *old(offset) <= *final(offset) <= final(encoded).len(),
            match Self::encoded_of(self.deep_view()) {
                Some(s) => {
                    &&& (r is Ok <==> *old(offset) + s.len() <= final(encoded).len())
                    &&& r is Ok ==> *final(offset) == *old(offset) + s.len() && spliced(
                        old(encoded)@,
                        final(encoded)@,
                        *old(offset) as int,
                        s,
                    )
                    &&& r is Err ==> r == Err::<(), EncodeError>(EncodeError::BufferTooSmall)
                }
                None => r matches Err(e) && (e == EncodeError::BufferTooSmall
                    || Self::enc_fail_of(self.deep_view(), e)),
            },
            r is Err ==> final(encoded)@.subrange(0, *old(offset) as int) == old(
                encoded,
            )@.subrange(0, *old(offset) as int),
    ;
}

/// A type that reads itself with its intrinsic encoding, possibly borrowing
/// from the buffer it was decoded from.
pub trait Decode<'e>: Measure + Sized {
    /// A functional model of decoding this type at `pos` in `buf`.
    spec fn decoded_at(buf: Seq<u8>, pos: int) -> Result<(Self::V, int), DecodeError>;

    /// Whether this type accepts only its own encodings.
    spec fn canonical_wire() -> bool;

    /// Whether a buffer that ends part-way through an encoding is always
    /// reported as `EOF`.
    spec fn short_wire_eof() -> bool;

    fn decode(encoded: &'e [u8], offset: &mut usize) -> (r: Result<Self, DecodeError>)
        requires
            *old(offset) <= encoded.len(),
        ensures
            *old(offset) <= *final(offset) <= encoded.len(),
            match Self::decoded_at(encoded@, *old(offset) as int) {
                Ok((v, end)) => r matches Ok(d) && d.deep_view() == v && *final(offset) == end,
                Err(e) => r matches Err(e2) && e2 == e,
            },
    ;

    /// Round trip: decoding an encoding of `v` yields `v` back.
    proof fn lemma_round_trip(buf: Seq<u8>, pos: int, v: Self::V)
        requires
            0 <= pos,
            Self::encoded_of(v) is Some,
            pos + Self::encoded_of(v)->0.len() <= buf.len(),
            buf.subrange(pos, pos + Self::encoded_of(v)->0.len()) == Self::encoded_of(v)->0,
        ensures
            Self::decoded_at(buf, pos) == Ok::<_, DecodeError>(
                (v, pos + Self::encoded_of(v)->0.len()),
            ),
    ;

    /// Idempotence for canonical intrinsic encodings.
    proof fn lemma_canonical(buf: Seq<u8>, pos: int)
        requires
            Self::canonical_wire(),
            0 <= pos <= buf.len(),
            buf.len() <= usize::MAX,
        ensures
            Self::decoded_at(buf, pos) matches Ok((v, end)) ==> pos <= end <= buf.len()
                && Self::encoded_of(v) == Some(buf.subrange(pos, end)),
    ;

    /// A buffer ending part-way through an encoding decodes to `EOF`.
    proof fn lemma_short_eof(buf: Seq<u8>, pos: int, v: Self::V, k: int)
        requires
            Self::short_wire_eof(),
            0 <= pos,
            Self::encoded_of(v) is Some,
            0 <= k < Self::encoded_of(v)->0.len(),
            buf.len() == pos + k,
            buf.subrange(pos, pos + k) == Self::encoded_of(v)->0.subrange(0, k),
        ensures
            Self::decoded_at(buf, pos) == Err::<(Self::V, int), DecodeError>(DecodeError::EOF),
    ;
}

/// A type that can be decoded without borrowing from the buffer.
pub trait DecodeOwned: for<'e> Decode<'e> {
    fn decode_owned(encoded: &[u8], offset: &mut usize) -> (r: Result<Self, DecodeError>)
        requires
            *old(offset) <= encoded.len(),
        ensures
            *old(offset) <= *final(offset) <= encoded.len(),
            match Self::decoded_at(encoded@, *old(offset) as int) {
                Ok((v, end)) => r matches Ok(d) && d.deep_view() == v && *final(offset) == end,
                Err(e) => r matches Err(e2) && e2 == e,
            },
    {
        Self::decode(encoded, offset)
    }
}

/// A vector extended by one element grows its deep view by that element's.
pub proof fn lemma_vec_push_deep_view<T: DeepView>(pre: Vec<T>, post: Vec<T>, x: T)
    requires
        post@ == pre@.push(x),
    ensures
        post.deep_view() == pre.deep_view().push(x.deep_view()),
{
    assert(post.deep_view() =~= pre.deep_view().push(x.deep_view()));
}

/// Bridges a type with an intrinsic encoding into the codec world, so
/// intrinsic types and combinator-built codecs nest inside each other.
pub struct SelfCodec<T> {
    pub _marker: core::marker::PhantomData<T>,
}

impl<T> SelfCodec<T> {
    pub fn codec() -> (r: Self)
        ensures
            r == (SelfCodec::<T> { _marker: core::marker::PhantomData }),
    {
        SelfCodec { _marker: core::marker::PhantomData }
    }
}

impl<T> Default for SelfCodec<T> {
    fn default() -> (r: Self)
        ensures
            r == (SelfCodec::<T> { _marker: core::marker::PhantomData }),
    {
        SelfCodec { _marker: core::marker::PhantomData }
    }
}

impl<T: Measure> Measurer for SelfCodec<T> {
    type Decoded = T;

    open spec fn spec_enc(&self, v: T::V) -> Option<Seq<u8>> {
        T::encoded_of(v)
    }

    open spec fn spec_enc_fail(&self, v: T::V, e: EncodeError) -> bool {
        T::enc_fail_of(v, e)
    }

    fn measure(&self, decoded: &T) -> (r: Result<usize, EncodeError>) {
        decoded.measure()
    }
}

impl<T: MeasureFixed> FixedMeasurer for SelfCodec<T> {
    open spec fn spec_fixed(&self) -> nat {
        T::fixed_size()
    }

    proof fn lemma_fixed(&self, v: T::V) {
        T::lemma_fixed(v);
    }

    fn measure_fixed(&self) -> (r: usize) {
        T::measure_fixed()
    }
}

impl<T: Encode> Encoder for SelfCodec<T> {
    fn encode(
        &self,
        decoded: &T,
        encoded: &mut Vec<u8>,
        offset: &mut usize,
    ) -> (r: Result<(), EncodeError>) {
        decoded.encode(encoded, offset)
    }
}

impl<'e, T: Decode<'e>> BorrowedDecoder<'e> for SelfCodec<T> {
    type BDecoded = T;

    open spec fn spec_dec(&self, buf: Seq<u8>, pos: int) -> Result<(T::V, int), DecodeError> {
        T::decoded_at(buf, pos)
    }

    open spec fn canonical(&self) -> bool {
        T::canonical_wire()
    }

    open spec fn short_input_eof(&self) -> bool {
        T::short_wire_eof()
    }

    fn borrowed_decode(&self, encoded: &'e [u8], offset: &mut usize) -> (r: Result<
        T,
        DecodeError,
    >) {
        T::decode(encoded, offset)
    }

    proof fn lemma_round_trip(&self, buf: Seq<u8>, pos: int, v: T::V) {
        T::lemma_round_trip(buf, pos, v);
    }

    proof fn lemma_canonical(&self, buf: Seq<u8>, pos: int) {
        T::lemma_canonical(buf, pos);
    }

    proof fn lemma_short_eof(&self, buf: Seq<u8>, pos: int, v: T::V, k: int) {
        T::lemma_short_eof(buf, pos, v, k);
    }
}

impl Measure for u8 {
    open spec fn encoded_of(v: u8) -> Option<Seq<u8>> {
        Some(seq![v])
    }

    fn measure(&self) -> (r: Result<usize, EncodeError>) {
        Ok(1)
    }
}

impl MeasureFixed for u8 {
    open spec fn fixed_size() -> nat {
        1
    }

    proof fn lemma_fixed(v: u8) {
    }

    fn measure_fixed() -> (r: usize) {
        1
    }
}

impl Encode for u8 {
    fn encode(&self, encoded: &mut Vec<u8>, offset: &mut usize) -> (r: Result<(), EncodeError>) {
        write_byte(encoded, offset, *self)
    }
}

impl<'e> Decode<'e> for u8 {
    open spec fn decoded_at(buf: Seq<u8>, pos: int) -> Result<(u8, int), DecodeError> {
        if pos < buf.len() {
            Ok((buf[pos], pos + 1))
        } else {
            Err(DecodeError::EOF)
        }
    }

    open spec fn canonical_wire() -> bool {
        true
    }

    open spec fn short_wire_eof() -> bool {
        true
    }

    fn decode(encoded: &'e [u8], offset: &mut usize) -> (r: Result<u8, DecodeError>) {
        read_byte(encoded, offset)
    }

    proof fn lemma_round_trip(buf: Seq<u8>, pos: int, v: u8) {
        assert(buf.subrange(pos, pos + 1)[0] == buf[pos]);
    }

    proof fn lemma_canonical(buf: Seq<u8>, pos: int) {
        if pos < buf.len() {
            assert(buf.subrange(pos, pos + 1) =~= seq![buf[pos]]);
        }
    }

    proof fn lemma_short_eof(buf: Seq<u8>, pos: int, v: u8, k: int) {
    }
}

impl DecodeOwned for u8 {

}

impl Measure for bool {
    open spec fn encoded_of(v: bool) -> Option<Seq<u8>> {
        Some(seq![if v { 1u8 } else { 0u8 }])
    }

    fn measure(&self) -> (r: Result<usize, EncodeError>) {
        Ok(1)
    }
}

impl MeasureFixed for bool {
    open spec fn fixed_size() -> nat {
        1
    }

    proof fn lemma_fixed(v: bool) {
    }

    fn measure_fixed() -> (r: usize) {
        1
    }
}

impl Encode for bool {
    fn encode(&self, encoded: &mut Vec<u8>, offset: &mut usize) -> (r: Result<(), EncodeError>) {
        let byte: u8 = if *self {
            1
        } else {
            0
        };
        write_byte(encoded, offset, byte)
    }
}

impl<'e> Decode<'e> for bool {
    open spec fn decoded_at(buf: Seq<u8>, pos: int) -> Result<(bool, int), DecodeError> {
        if pos < buf.len() {
            if buf[pos] == 0u8 {
                Ok((false, pos + 1))
            } else if buf[pos] == 1u8 {
                Ok((true, pos + 1))
            } else {
                Err(DecodeError::InvalidData)
            }
        } else {
            Err(DecodeError::EOF)
        }
    }

    open spec fn canonical_wire() -> bool {
        true
    }

    open spec fn short_wire_eof() -> bool {
        true
    }

    fn decode(encoded: &'e [u8], offset: &mut usize) -> (r: Result<bool, DecodeError>) {
        let byte = read_byte(encoded, offset)?;
        match byte {
            0 => Ok(false),
            1 => Ok(true),
            _ => Err(DecodeError::InvalidData),
        }
    }

    proof fn lemma_round_trip(buf: Seq<u8>, pos: int, v: bool) {
        assert(buf.subrange(pos, pos + 1)[0] == buf[pos]);
    }

    proof fn lemma_canonical(buf: Seq<u8>, pos: int) {
        if pos < buf.len() {
            if buf[pos] == 0u8 {
                assert(buf.subrange(pos, pos + 1) =~= seq![0u8]);
            } else if buf[pos] == 1u8 {
                assert(buf.subrange(pos, pos + 1) =~= seq![1u8]);
            }
        }
    }

    proof fn lemma_short_eof(buf: Seq<u8>, pos: int, v: bool, k: int) {
    }
}

impl DecodeOwned for bool {

}

impl<const N: usize> Measure for [u8; N] {
    open spec fn encoded_of(v: Seq<u8>) -> Option<Seq<u8>> {
        if v.len() == N {
            Some(v)
        } else {
            None
        }
    }

    fn measure(&self) -> (r: Result<usize, EncodeError>) {
        proof {
            broadcast use vstd::array::group_array_axioms;

            assert(self.deep_view() =~= self@);
        }
        Ok(N)
    }
}

impl<const N: usize> MeasureFixed for [u8; N] {
    open spec fn fixed_size() -> nat {
        N as nat
    }

    proof fn lemma_fixed(v: Seq<u8>) {
    }

    fn measure_fixed() -> (r: usize) {
        N
    }
}

impl<const N: usize> Encode for [u8; N] {
    fn encode(&self, encoded: &mut Vec<u8>, offset: &mut usize) -> (r: Result<(), EncodeError>) {
        proof {
            broadcast use vstd::array::group_array_axioms;

            assert(self.deep_view() =~= self@);
        }
        crate::bytes::write_run(encoded, offset, self.as_slice())
    }
}

impl<'e, const N: usize> Decode<'e> for [u8; N] {
    open spec fn decoded_at(buf: Seq<u8>, pos: int) -> Result<(Seq<u8>, int), DecodeError> {
        if pos + N <= buf.len() {
            Ok((buf.subrange(pos, pos + N), pos + N))
        } else {
            Err(DecodeError::EOF)
        }
    }

    open spec fn canonical_wire() -> bool {
        true
    }

    open spec fn short_wire_eof() -> bool {
        true
    }

    /// Room for all `N` bytes is checked before any read, so a failed
    /// decode leaves the cursor untouched.
    fn decode(encoded: &'e [u8], offset: &mut usize) -> (r: Result<[u8; N], DecodeError>)
        ensures
            r is Err ==> *final(offset) == *old(offset),
    {
        proof {
            broadcast use vstd::array::group_array_axioms;

        }
        if N > encoded.len() - *offset {
            return Err(DecodeError::EOF);
        }
        let start: usize = *offset;
        let mut arr: [u8; N] = vstd::array::array_fill_for_copy_types(0u8);
        let mut i: usize = 0;
        while i < N
            invariant
                start + N <= encoded.len(),
                0 <= i <= N,
                forall|j: int| 0 <= j < i ==> arr@[j] == encoded@[start + j],
            decreases N - i,
        {
            arr[i] = encoded[start + i];
            i = i + 1;
        }
        *offset = start + N;
        proof {
            broadcast use vstd::array::group_array_axioms;

            assert(arr.deep_view() =~= encoded@.subrange(start as int, start + N));
        }
        Ok(arr)
    }

    proof fn lemma_round_trip(buf: Seq<u8>, pos: int, v: Seq<u8>) {
    }

    proof fn lemma_canonical(buf: Seq<u8>, pos: int) {
    }

    proof fn lemma_short_eof(buf: Seq<u8>, pos: int, v: Seq<u8>, k: int) {
    }
}

impl<const N: usize> DecodeOwned for [u8; N] {

}

impl<T: Measure> Measure for Box<T> {
    open spec fn encoded_of(v: T::V) -> Option<Seq<u8>> {
        T::encoded_of(v)
    }

    open spec fn enc_fail_of(v: T::V, e: EncodeError) -> bool {
        T::enc_fail_of(v, e)
    }

    fn measure(&self) -> (r: Result<usize, EncodeError>) {
        (**self).measure()
    }
}

impl<T: MeasureFixed> MeasureFixed for Box<T> {
    open spec fn fixed_size() -> nat {
        T::fixed_size()
    }

    proof fn lemma_fixed(v: T::V) {
        T::lemma_fixed(v);
    }

    fn measure_fixed() -> (r: usize) {
        T::measure_fixed()
    }
}

impl<T: Encode> Encode for Box<T> {
    fn encode(&self, encoded: &mut Vec<u8>, offset: &mut usize) -> (r: Result<(), EncodeError>) {
        (**self).encode(encoded, offset)
    }
}

impl<'e, T: Decode<'e>> Decode<'e> for Box<T> {
    open spec fn decoded_at(buf: Seq<u8>, pos: int) -> Result<(T::V, int), DecodeError> {
        T::decoded_at(buf, pos)
    }

    open spec fn canonical_wire() -> bool {
        T::canonical_wire()
    }

    open spec fn short_wire_eof() -> bool {
        T::short_wire_eof()
    }

    fn decode(encoded: &'e [u8], offset: &mut usize) -> (r: Result<Box<T>, DecodeError>) {
        let value = T::decode(encoded, offset)?;
        Ok(Box::new(value))
    }

    proof fn lemma_round_trip(buf: Seq<u8>, pos: int, v: T::V) {
        T::lemma_round_trip(buf, pos, v);
    }

    proof fn lemma_canonical(buf: Seq<u8>, pos: int) {
        T::lemma_canonical(buf, pos);
    }

    proof fn lemma_short_eof(buf: Seq<u8>, pos: int, v: T::V, k: int) {
        T::lemma_short_eof(buf, pos, v, k);
    }
}

impl<T: DecodeOwned> DecodeOwned for Box<T> {

}

} // verus!
