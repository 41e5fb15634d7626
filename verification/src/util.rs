//! Conversion adapters: reinterpreting one wire representation as another
//! logical type through fallible value conversions, and bridging borrowed
//! decodes into owned values.
use vstd::prelude::*;

use core::marker::PhantomData;

use crate::BorrowedDecoder;
use crate::DecodeError;
use crate::EncodeError;
use crate::Encoder;
use crate::FixedMeasurer;
use crate::Measurer;

verus! {

/// A pair of fallible conversions between a logical type and the wire
/// type `Mid` of an underlying codec; the two directions are exact partial
/// inverses, so converted codecs round-trip.
pub trait Adapt<Mid: DeepView>: DeepView + Sized {
    /// The conversion applied after decoding, or `None` when the wire
    /// value has no counterpart.
    spec fn spec_from_mid(m: Mid::V) -> Option<Self::V>;

    /// The conversion applied before encoding, or `None` when the value
    /// cannot be represented on the wire.
    spec fn spec_into_mid(v: Self::V) -> Option<Mid::V>;

    /// Whatever converts onto the wire converts back to itself.
    proof fn lemma_adapt_round(v: Self::V)
        ensures
            Self::spec_into_mid(v) matches Some(m) ==> Self::spec_from_mid(m) == Some(v),
    ;

    /// Whatever converts off the wire converts back to the same wire value.
    proof fn lemma_adapt_back(m: Mid::V)
        ensures
            Self::spec_from_mid(m) matches Some(v) ==> Self::spec_into_mid(v) == Some(m),
    ;

    fn adapt_from(m: Mid) -> (r: Result<Self, DecodeError>)
        ensures
            match Self::spec_from_mid(m.deep_view()) {
                Some(v) => r matches Ok(x) && x.deep_view() == v,
                None => r matches Err(e) && e == DecodeError::CodecFailure,
            },
    ;

    fn adapt_into(&self) -> (r: Result<Mid, EncodeError>)
        ensures
            match Self::spec_into_mid(self.deep_view()) {
                Some(m) => r matches Ok(x) && x.deep_view() == m,
                None => r matches Err(e) && e == EncodeError::CodecFailure,
            },
    ;
}

impl Adapt<u8> for usize {
    open spec fn spec_from_mid(m: u8) -> Option<usize> {
        Some(m as usize)
    }

    open spec fn spec_into_mid(v: usize) -> Option<u8> {
        if v <= u8::MAX {
            Some(v as u8)
        } else {
            None
        }
    }

    proof fn lemma_adapt_round(v: usize) {
    }

    proof fn lemma_adapt_back(m: u8) {
    }

    fn adapt_from(m: u8) -> (r: Result<usize, DecodeError>) {
        Ok(m as usize)
    }

    fn adapt_into(&self) -> (r: Result<u8, EncodeError>) {
        if *self > u8::MAX as usize {
            return Err(EncodeError::CodecFailure);
        }
        Ok(*self as u8)
    }
}

impl Adapt<u16> for usize {
    open spec fn spec_from_mid(m: u16) -> Option<usize> {
        Some(m as usize)
    }

    open spec fn spec_into_mid(v: usize) -> Option<u16> {
        if v <= u16::MAX {
            Some(v as u16)
        } else {
            None
        }
    }

    proof fn lemma_adapt_round(v: usize) {
    }

    proof fn lemma_adapt_back(m: u16) {
    }

    fn adapt_from(m: u16) -> (r: Result<usize, DecodeError>) {
        Ok(m as usize)
    }

    fn adapt_into(&self) -> (r: Result<u16, EncodeError>) {
        if *self > u16::MAX as usize {
            return Err(EncodeError::CodecFailure);
        }
        Ok(*self as u16)
    }
}

impl Adapt<u32> for usize {
    open spec fn spec_from_mid(m: u32) -> Option<usize> {
        if m as int <= usize::MAX as int {
            Some(m as usize)
        } else {
            None
        }
    }

    open spec fn spec_into_mid(v: usize) -> Option<u32> {
        if v <= u32::MAX as usize {
            Some(v as u32)
        } else {
            None
        }
    }

    proof fn lemma_adapt_round(v: usize) {
    }

    proof fn lemma_adapt_back(m: u32) {
    }

    fn adapt_from(m: u32) -> (r: Result<usize, DecodeError>) {
        if (m as u64) > (usize::MAX as u64) {
            return Err(DecodeError::CodecFailure);
        }
        Ok(m as usize)
    }

    fn adapt_into(&self) -> (r: Result<u32, EncodeError>) {
        if *self > u32::MAX as usize {
            return Err(EncodeError::CodecFailure);
        }
        Ok(*self as u32)
    }
}

impl Adapt<u64> for usize {
    open spec fn spec_from_mid(m: u64) -> Option<usize> {
        if m as int <= usize::MAX as int {
            Some(m as usize)
        } else {
            None
        }
    }

    open spec fn spec_into_mid(v: usize) -> Option<u64> {
        Some(v as u64)
    }

    proof fn lemma_adapt_round(v: usize) {
    }

    proof fn lemma_adapt_back(m: u64) {
    }

    fn adapt_from(m: u64) -> (r: Result<usize, DecodeError>) {
        if m > usize::MAX as u64 {
            return Err(DecodeError::CodecFailure);
        }
        Ok(m as usize)
    }

    fn adapt_into(&self) -> (r: Result<u64, EncodeError>) {
        Ok(*self as u64)
    }
}

/// A symmetric type-conversion adapter: decodes through the underlying
/// codec then converts into the logical type, and converts back before
/// encoding; either direction may fail with a conversion error.
pub struct Convert<Codec, Decoded> {
    pub codec: Codec,
    pub _marker: PhantomData<Decoded>,
}

impl<Codec, Decoded> Convert<Codec, Decoded> {
    pub fn codec(codec: Codec) -> (r: Self)
        ensures
            r.codec == codec,
    {
        Self { codec, _marker: PhantomData }
    }
}

impl<Codec: Default, Decoded> Default for Convert<Codec, Decoded> {
    fn default() -> (r: Self)
        ensures
            call_ensures(Codec::default, (), r.codec),
    {
        Self { codec: Codec::default(), _marker: PhantomData }
    }
}

impl<Codec, D> Measurer for Convert<Codec, D> where
    Codec: Measurer,
    D: Adapt<<Codec as Measurer>::Decoded>,
 {
    type Decoded = D;

    open spec fn spec_enc(&self, v: D::V) -> Option<Seq<u8>> {
        match D::spec_into_mid(v) {
            None => None,
            Some(m) => self.codec.spec_enc(m),
        }
    }

    open spec fn spec_enc_fail(&self, v: D::V, e: EncodeError) -> bool {
        match D::spec_into_mid(v) {
            None => e == EncodeError::CodecFailure,
            Some(m) => self.codec.spec_enc_fail(m, e),
        }
    }

    fn measure(&self, decoded: &D) -> (r: Result<usize, EncodeError>) {
        let mid = match decoded.adapt_into() {
            Ok(mid) => mid,
            Err(e) => {
                return Err(e);
            },
        };
        self.codec.measure(&mid)
    }
}

impl<Codec, D> FixedMeasurer for Convert<Codec, D> where
    Codec: FixedMeasurer,
    D: Adapt<<Codec as Measurer>::Decoded>,
 {
    open spec fn spec_fixed(&self) -> nat {
        self.codec.spec_fixed()
    }

    proof fn lemma_fixed(&self, v: D::V) {
        if D::spec_into_mid(v) is Some {
            self.codec.lemma_fixed(D::spec_into_mid(v)->0);
        }
    }

    fn measure_fixed(&self) -> (r: usize) {
        self.codec.measure_fixed()
    }
}

impl<Codec, D> Encoder for Convert<Codec, D> where
    Codec: Encoder,
    D: Adapt<<Codec as Measurer>::Decoded>,
 {
    fn encode(
        &self,
        decoded: &D,
        encoded: &mut Vec<u8>,
        offset: &mut usize,
    ) -> (r: Result<(), EncodeError>) {
        let mid = match decoded.adapt_into() {
            Ok(mid) => mid,
            Err(e) => {
                return Err(e);
            },
        };
        self.codec.encode(&mid, encoded, offset)
    }
}

impl<'e, Codec, D> BorrowedDecoder<'e> for Convert<Codec, D> where
    Codec: for<'x> BorrowedDecoder<'x, BDecoded = <Codec as Measurer>::Decoded>,
    D: Adapt<<Codec as Measurer>::Decoded>,
 {
    type BDecoded = D;

    open spec fn spec_dec(&self, buf: Seq<u8>, pos: int) -> Result<(D::V, int), DecodeError> {
        match self.codec.spec_dec(buf, pos) {
            Err(e) => Err(e),
            Ok((m, end)) => match D::spec_from_mid(m) {
                Some(v) => Ok((v, end)),
                None => Err(DecodeError::CodecFailure),
            },
        }
    }

    open spec fn canonical(&self) -> bool {
        self.codec.canonical()
    }

    open spec fn short_input_eof(&self) -> bool {
        self.codec.short_input_eof()
    }

    /// Whenever the underlying decode succeeds the cursor sits exactly
    /// after the consumed encoding, also when the conversion then fails.
    fn borrowed_decode(&self, encoded: &'e [u8], offset: &mut usize) -> (r: Result<
        D,
        DecodeError,
    >)
        ensures
            self.codec.spec_dec(encoded@, *old(offset) as int) matches Ok((m, end))
                ==> *final(offset) == end,
    {
        let mid = match self.codec.borrowed_decode(encoded, offset) {
            Ok(mid) => mid,
            Err(e) => {
                return Err(e);
            },
        };
        D::adapt_from(mid)
    }

    proof fn lemma_round_trip(&self, buf: Seq<u8>, pos: int, v: D::V) {
        let m = D::spec_into_mid(v)->0;
        self.codec.lemma_round_trip(buf, pos, m);
        D::lemma_adapt_round(v);
    }

    proof fn lemma_canonical(&self, buf: Seq<u8>, pos: int) {
        if self.spec_dec(buf, pos) is Ok {
            self.codec.lemma_canonical(buf, pos);
            let (m, end) = self.codec.spec_dec(buf, pos)->Ok_0;
            D::lemma_adapt_back(m);
        }
    }

    proof fn lemma_short_eof(&self, buf: Seq<u8>, pos: int, v: D::V, k: int) {
        let m = D::spec_into_mid(v)->0;
        self.codec.lemma_short_eof(buf, pos, m, k);
    }
}

/// Copying a borrowed decoded value out into an owned one with the same
/// abstraction.
pub trait CopyOut<B: DeepView>: DeepView<V = <B as DeepView>::V> + Sized {
    fn copy_out(b: B) -> (r: Self)
        ensures
            r.deep_view() == b.deep_view(),
    ;
}

impl CopyOut<&[u8]> for Vec<u8> {
    fn copy_out(b: &[u8]) -> (r: Vec<u8>) {
        let v = vstd::slice::slice_to_vec(b);
        proof {
            crate::bytes::lemma_vec_u8_deep_view(v);
            crate::bytes::lemma_slice_u8_deep_view(b);
        }
        v
    }
}

impl CopyOut<&str> for String {
    fn copy_out(b: &str) -> (r: String) {
        b.to_owned()
    }
}

/// Borrowing a value as the underlying codec's owned type when the two
/// agree.
pub trait ViewRef<D: DeepView>: DeepView<V = <D as DeepView>::V> {
    fn view_ref(&self) -> (r: &D)
        ensures
            r.deep_view() == self.deep_view(),
    ;
}

impl<D: DeepView> ViewRef<D> for D {
    fn view_ref(&self) -> (r: &D) {
        self
    }
}

/// Bridges a borrowing codec to an owned logical type: decoding copies the
/// borrowed value out, encoding and measuring borrow the owned value.
pub struct Owned<Codec, T> {
    pub codec: Codec,
    pub _marker: PhantomData<T>,
}

impl<Codec, T> Owned<Codec, T> {
    pub fn codec(codec: Codec) -> (r: Self)
        ensures
            r.codec == codec,
    {
        Self { codec, _marker: PhantomData }
    }
}

impl<Codec: Default, T> Default for Owned<Codec, T> {
    fn default() -> (r: Self)
        ensures
            call_ensures(Codec::default, (), r.codec),
    {
        Self { codec: Codec::default(), _marker: PhantomData }
    }
}

impl<Codec, T> Measurer for Owned<Codec, T> where
    Codec: Measurer,
    T: ViewRef<<Codec as Measurer>::Decoded>,
 {
    type Decoded = T;

    open spec fn spec_enc(&self, v: T::V) -> Option<Seq<u8>> {
        self.codec.spec_enc(v)
    }

    open spec fn spec_enc_fail(&self, v: T::V, e: EncodeError) -> bool {
        self.codec.spec_enc_fail(v, e)
    }

    fn measure(&self, decoded: &T) -> (r: Result<usize, EncodeError>) {
        self.codec.measure(decoded.view_ref())
    }
}

impl<Codec, T> FixedMeasurer for Owned<Codec, T> where
    Codec: FixedMeasurer,
    T: ViewRef<<Codec as Measurer>::Decoded>,
 {
    open spec fn spec_fixed(&self) -> nat {
        self.codec.spec_fixed()
    }

    proof fn lemma_fixed(&self, v: T::V) {
        self.codec.lemma_fixed(v);
    }

    fn measure_fixed(&self) -> (r: usize) {
        self.codec.measure_fixed()
    }
}

impl<Codec, T> Encoder for Owned<Codec, T> where
    Codec: Encoder,
    T: ViewRef<<Codec as Measurer>::Decoded>,
 {
    fn encode(
        &self,
        decoded: &T,
        encoded: &mut Vec<u8>,
        offset: &mut usize,
    ) -> (r: Result<(), EncodeError>) {
        self.codec.encode(decoded.view_ref(), encoded, offset)
    }
}

impl<'e, Codec, T> BorrowedDecoder<'e> for Owned<Codec, T> where
    Codec: BorrowedDecoder<'e>,
    T: ViewRef<<Codec as Measurer>::Decoded> + CopyOut<<Codec as BorrowedDecoder<'e>>::BDecoded>,
 {
    type BDecoded = T;

    open spec fn spec_dec(&self, buf: Seq<u8>, pos: int) -> Result<(T::V, int), DecodeError> {
        self.codec.spec_dec(buf, pos)
    }

    open spec fn canonical(&self) -> bool {
        self.codec.canonical()
    }

    open spec fn short_input_eof(&self) -> bool {
        self.codec.short_input_eof()
    }

    fn borrowed_decode(&self, encoded: &'e [u8], offset: &mut usize) -> (r: Result<
        T,
        DecodeError,
    >) {
        let b = match self.codec.borrowed_decode(encoded, offset) {
            Ok(b) => b,
            Err(e) => {
                return Err(e);
            },
        };
        Ok(T::copy_out(b))
    }

    proof fn lemma_round_trip(&self, buf: Seq<u8>, pos: int, v: T::V) {
        self.codec.lemma_round_trip(buf, pos, v);
    }

    proof fn lemma_canonical(&self, buf: Seq<u8>, pos: int) {
        self.codec.lemma_canonical(buf, pos);
    }

    proof fn lemma_short_eof(&self, buf: Seq<u8>, pos: int, v: T::V, k: int) {
        self.codec.lemma_short_eof(buf, pos, v, k);
    }
}


/// A decode-only conversion adapter: decodes through the underlying codec
/// and converts the result into the logical type. Measuring converts the
/// other way, so sizes still agree with what an encode of the value
/// through the same underlying codec would write.
pub struct ConvertDecoded<Decoded, Codec> {
    pub codec: Codec,
    pub _marker: PhantomData<Decoded>,
}

impl<Decoded, Codec> ConvertDecoded<Decoded, Codec> {
    pub fn codec(codec: Codec) -> (r: Self)
        ensures
            r.codec == codec,
    {
        Self { codec, _marker: PhantomData }
    }
}

impl<D, Codec> Measurer for ConvertDecoded<D, Codec> where
    Codec: Measurer,
    D: Adapt<<Codec as Measurer>::Decoded>,
 {
    type Decoded = D;

    open spec fn spec_enc(&self, v: D::V) -> Option<Seq<u8>> {
        match D::spec_into_mid(v) {
            None => None,
            Some(m) => self.codec.spec_enc(m),
        }
    }

    open spec fn spec_enc_fail(&self, v: D::V, e: EncodeError) -> bool {
        match D::spec_into_mid(v) {
            None => e == EncodeError::CodecFailure,
            Some(m) => self.codec.spec_enc_fail(m, e),
        }
    }

    fn measure(&self, decoded: &D) -> (r: Result<usize, EncodeError>) {
        let mid = match decoded.adapt_into() {
            Ok(mid) => mid,
            Err(e) => {
                return Err(e);
            },
        };
        self.codec.measure(&mid)
    }
}

impl<'e, Codec, D> BorrowedDecoder<'e> for ConvertDecoded<D, Codec> where
    Codec: for<'x> BorrowedDecoder<'x, BDecoded = <Codec as Measurer>::Decoded>,
    D: Adapt<<Codec as Measurer>::Decoded>,
 {
    type BDecoded = D;

    open spec fn spec_dec(&self, buf: Seq<u8>, pos: int) -> Result<(D::V, int), DecodeError> {
        match self.codec.spec_dec(buf, pos) {
            Err(e) => Err(e),
            Ok((m, end)) => match D::spec_from_mid(m) {
                Some(v) => Ok((v, end)),
                None => Err(DecodeError::CodecFailure),
            },
        }
    }

    open spec fn canonical(&self) -> bool {
        self.codec.canonical()
    }

    open spec fn short_input_eof(&self) -> bool {
        self.codec.short_input_eof()
    }

    /// Whenever the underlying decode succeeds the cursor sits exactly
    /// after the consumed encoding, also when the conversion then fails.
    fn borrowed_decode(&self, encoded: &'e [u8], offset: &mut usize) -> (r: Result<
        D,
        DecodeError,
    >)
        ensures
            self.codec.spec_dec(encoded@, *old(offset) as int) matches Ok((m, end))
                ==> *final(offset) == end,
    {
        let mid = match self.codec.borrowed_decode(encoded, offset) {
            Ok(mid) => mid,
            Err(e) => {
                return Err(e);
            },
        };
        D::adapt_from(mid)
    }

    proof fn lemma_round_trip(&self, buf: Seq<u8>, pos: int, v: D::V) {
        let m = D::spec_into_mid(v)->0;
        self.codec.lemma_round_trip(buf, pos, m);
        D::lemma_adapt_round(v);
    }

    proof fn lemma_canonical(&self, buf: Seq<u8>, pos: int) {
        if self.spec_dec(buf, pos) is Ok {
            self.codec.lemma_canonical(buf, pos);
            let (m, end) = self.codec.spec_dec(buf, pos)->Ok_0;
            D::lemma_adapt_back(m);
        }
    }

    proof fn lemma_short_eof(&self, buf: Seq<u8>, pos: int, v: D::V, k: int) {
        let m = D::spec_into_mid(v)->0;
        self.codec.lemma_short_eof(buf, pos, m, k);
    }
}

/// An encode-only conversion adapter: converts the logical value and
/// encodes it through the underlying codec.
pub struct ConvertEncoded<Codec, Decoded> {
    pub codec: Codec,
    pub _marker: PhantomData<Decoded>,
}

impl<Codec, Decoded> ConvertEncoded<Codec, Decoded> {
    pub fn codec(codec: Codec) -> (r: Self)
        ensures
            r.codec == codec,
    {
        Self { codec, _marker: PhantomData }
    }
}

impl<Codec, D> Measurer for ConvertEncoded<Codec, D> where
    Codec: Measurer,
    D: Adapt<<Codec as Measurer>::Decoded>,
 {
    type Decoded = D;

    open spec fn spec_enc(&self, v: D::V) -> Option<Seq<u8>> {
        match D::spec_into_mid(v) {
            None => None,
            Some(m) => self.codec.spec_enc(m),
        }
    }

    open spec fn spec_enc_fail(&self, v: D::V, e: EncodeError) -> bool {
        match D::spec_into_mid(v) {
            None => e == EncodeError::CodecFailure,
            Some(m) => self.codec.spec_enc_fail(m, e),
        }
    }

    fn measure(&self, decoded: &D) -> (r: Result<usize, EncodeError>) {
        let mid = match decoded.adapt_into() {
            Ok(mid) => mid,
            Err(e) => {
                return Err(e);
            },
        };
        self.codec.measure(&mid)
    }
}

impl<Codec, D> FixedMeasurer for ConvertEncoded<Codec, D> where
    Codec: FixedMeasurer,
    D: Adapt<<Codec as Measurer>::Decoded>,
 {
    open spec fn spec_fixed(&self) -> nat {
        self.codec.spec_fixed()
    }

    proof fn lemma_fixed(&self, v: D::V) {
        if D::spec_into_mid(v) is Some {
            self.codec.lemma_fixed(D::spec_into_mid(v)->0);
        }
    }

    fn measure_fixed(&self) -> (r: usize) {
        self.codec.measure_fixed()
    }
}

impl<Codec, D> Encoder for ConvertEncoded<Codec, D> where
    Codec: Encoder,
    D: Adapt<<Codec as Measurer>::Decoded>,
 {
    fn encode(
        &self,
        decoded: &D,
        encoded: &mut Vec<u8>,
        offset: &mut usize,
    ) -> (r: Result<(), EncodeError>) {
        let mid = match decoded.adapt_into() {
            Ok(mid) => mid,
            Err(e) => {
                return Err(e);
            },
        };
        self.codec.encode(&mid, encoded, offset)
    }
}

/// An asymmetric adapter pairing an independent encode path and decode
/// path. The two sides are not tied to each other, so no round-trip law is
/// claimed for the pair: each direction carries only its own side's
/// guarantee, and its sizing follows the encode side.
pub struct Asymmetric<E, D> {
    pub encoder: E,
    pub decoder: D,
}

impl<E, D> Asymmetric<E, D> {
    pub fn codec(encoder: E, decoder: D) -> (r: Self)
        ensures
            r.encoder == encoder,
            r.decoder == decoder,
    {
        Self { encoder, decoder }
    }

    /// Decodes with the decode-side codec.
    pub fn borrowed_decode<'e>(&self, encoded: &'e [u8], offset: &mut usize) -> (r: Result<
        <D as BorrowedDecoder<'e>>::BDecoded,
        DecodeError,
    >) where D: BorrowedDecoder<'e>
        requires
            *old(offset) <= encoded.len(),
        ensures
            *old(offset) <= *final(offset) <= encoded.len(),
            match self.decoder.spec_dec(encoded@, *old(offset) as int) {
                Ok((v, end)) => r matches Ok(d) && d.deep_view() == v && *final(offset) == end,
                Err(e) => r matches Err(e2) && e2 == e,
            },
    {
        self.decoder.borrowed_decode(encoded, offset)
    }
}

impl<E: Measurer, D> Measurer for Asymmetric<E, D> {
    type Decoded = E::Decoded;

    open spec fn spec_enc(&self, v: <E::Decoded as DeepView>::V) -> Option<Seq<u8>> {
        self.encoder.spec_enc(v)
    }

    open spec fn spec_enc_fail(&self, v: <E::Decoded as DeepView>::V, e: EncodeError) -> bool {
        self.encoder.spec_enc_fail(v, e)
    }

    fn measure(&self, decoded: &E::Decoded) -> (r: Result<usize, EncodeError>) {
        self.encoder.measure(decoded)
    }
}

impl<E: FixedMeasurer, D> FixedMeasurer for Asymmetric<E, D> {
    open spec fn spec_fixed(&self) -> nat {
        self.encoder.spec_fixed()
    }

    proof fn lemma_fixed(&self, v: <E::Decoded as DeepView>::V) {
        self.encoder.lemma_fixed(v);
    }

    fn measure_fixed(&self) -> (r: usize) {
        self.encoder.measure_fixed()
    }
}

impl<E: Encoder, D> Encoder for Asymmetric<E, D> {
    fn encode(
        &self,
        decoded: &E::Decoded,
        encoded: &mut Vec<u8>,
        offset: &mut usize,
    ) -> (r: Result<(), EncodeError>) {
        self.encoder.encode(decoded, encoded, offset)
    }
}

} // verus!
