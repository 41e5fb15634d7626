//! Length-prefixed UTF-8 text and nul-terminated byte strings.
//!
//! The text codecs write a length prefix followed by the UTF-8 bytes and
//! validate UTF-8 on decode; `Str` hands back a zero-copy view into the
//! buffer, `Text` copies into an owned value. The nul-terminated codecs
//! scan for the first zero byte; `ZString` is the owned nul-free byte
//! string they encode.
use vstd::prelude::*;

use vstd::string::StringSliceAdditionalSpecFns;
use vstd::utf8::decode_utf8;
use vstd::utf8::encode_utf8;
use vstd::utf8::valid_utf8;

use crate::bytes::lemma_spliced_push;
use crate::bytes::read_run;
use crate::bytes::write_byte;
use crate::bytes::write_run;
use crate::BorrowedDecoder;
use crate::DecodeError;
use crate::EncodeError;
use crate::Encoder;
use crate::Measurer;

verus! {

/// Relies on str::from_utf8: it accepts exactly the valid UTF-8 byte
/// sequences, and the returned string slice views the same bytes.
#[verifier::external_body]
pub(crate) fn try_from_utf8(bytes: &[u8]) -> (r: Option<&str>)
    ensures
        r is Some <==> valid_utf8(bytes@),
        r matches Some(s) ==> s.spec_bytes() == bytes@,
{
    std::str::from_utf8(bytes).ok()
}

/// A length-prefixed UTF-8 string decoded as a zero-copy view into the
/// buffer.
pub struct Str<Length> {
    pub length: Length,
}

impl<Length> Str<Length> {
    pub fn codec(length: Length) -> (r: Self)
        ensures
            r.length == length,
    {
        Self { length }
    }
}

impl<Length: Default> Default for Str<Length> {
    fn default() -> (r: Self)
        ensures
            call_ensures(Length::default, (), r.length),
    {
        Self { length: Length::default() }
    }
}

impl<Length: Measurer<Decoded = usize>> Measurer for Str<Length> {
    type Decoded = String;

    open spec fn spec_enc(&self, v: Seq<char>) -> Option<Seq<u8>> {
        let b = encode_utf8(v);
        if b.len() > usize::MAX {
            None
        } else {
            match self.length.spec_enc(b.len() as usize) {
                None => None,
                Some(p) => if p.len() + b.len() <= usize::MAX {
                    Some(p + b)
                } else {
                    None
                },
            }
        }
    }

    open spec fn spec_enc_fail(&self, v: Seq<char>, e: EncodeError) -> bool {
        let b = encode_utf8(v);
        (b.len() <= usize::MAX && self.length.spec_enc(b.len() as usize) is None
            && self.length.spec_enc_fail(b.len() as usize, e)) || e == EncodeError::InvalidUSize
    }

    #[verifier::spinoff_prover]
    #[verifier::rlimit(30)]
    fn measure(&self, decoded: &String) -> (r: Result<usize, EncodeError>) {
        let s: &str = decoded.as_str();
        let n: usize = s.as_bytes().len();
        let prefix = self.length.measure(&n)?;
        if n > usize::MAX - prefix {
            return Err(EncodeError::InvalidUSize);
        }
        Ok(prefix + n)
    }
}

impl<Length: Encoder<Decoded = usize>> Encoder for Str<Length> {
    fn encode(
        &self,
        decoded: &String,
        encoded: &mut Vec<u8>,
        offset: &mut usize,
    ) -> (r: Result<(), EncodeError>) {
        let s: &str = decoded.as_str();
        let n: usize = s.as_bytes().len();
        match self.length.encode(&n, encoded, offset) {
            Ok(()) => {
            },
            Err(e) => {
                return Err(e);
            },
        }
        let ghost mid = encoded@;
        let ghost p = self.length.spec_enc(n).unwrap();
        let r = write_run(encoded, offset, s.as_bytes());
        proof {
            if r is Ok {
                crate::bytes::lemma_spliced_concat(
                    old(encoded)@,
                    mid,
                    encoded@,
                    *old(offset) as int,
                    p,
                    encode_utf8(decoded@),
                );
            } else {
                crate::bytes::lemma_spliced_prefix_eq(
                    old(encoded)@,
                    mid,
                    *old(offset) as int,
                    p,
                    *old(offset) as int,
                );
            }
        }
        r
    }
}

impl<'e, Length> BorrowedDecoder<'e> for Str<Length> where
    Length: for<'x> BorrowedDecoder<'x, Decoded = usize, BDecoded = usize>,
 {
    type BDecoded = &'e str;

    open spec fn spec_dec(&self, buf: Seq<u8>, pos: int) -> Result<(Seq<char>, int), DecodeError> {
        match self.length.spec_dec(buf, pos) {
            Err(e) => Err(e),
            Ok((n, p1)) => if p1 + n <= buf.len() {
                if valid_utf8(buf.subrange(p1, p1 + n)) {
                    Ok((decode_utf8(buf.subrange(p1, p1 + n)), p1 + n))
                } else {
                    Err(DecodeError::InvalidData)
                }
            } else {
                Err(DecodeError::EOF)
            },
        }
    }

    open spec fn canonical(&self) -> bool {
        self.length.canonical()
    }

    open spec fn short_input_eof(&self) -> bool {
        self.length.short_input_eof()
    }

    #[verifier::spinoff_prover]
    #[verifier::rlimit(30)]
    fn borrowed_decode(&self, encoded: &'e [u8], offset: &mut usize) -> (r: Result<
        &'e str,
        DecodeError,
    >) {
        let n: usize = match self.length.borrowed_decode(encoded, offset) {
            Ok(n) => n,
            Err(e) => {
                return Err(e);
            },
        };
        let run = read_run(encoded, offset, n)?;
        match try_from_utf8(run) {
            Some(s) => {
                proof {
                    vstd::utf8::encode_utf8_decode_utf8(s@);
                }
                Ok(s)
            },
            None => Err(DecodeError::InvalidData),
        }
    }

    proof fn lemma_round_trip(&self, buf: Seq<u8>, pos: int, v: Seq<char>) {
        let b = encode_utf8(v);
        let p = self.length.spec_enc(b.len() as usize).unwrap();
        let s = self.spec_enc(v).unwrap();
        assert(s == p + b);
        assert(buf.subrange(pos, pos + p.len() as int) == p) by {
            assert forall|j: int| 0 <= j < p.len() implies #[trigger] (buf.subrange(
                pos,
                pos + p.len() as int,
            )[j]) == p[j] by {
                assert(buf.subrange(pos, pos + s.len() as int)[j] == buf[pos + j]);
                assert((p + b)[j] == p[j]);
            }
            assert(buf.subrange(pos, pos + p.len() as int) =~= p);
        }
        self.length.lemma_round_trip(buf, pos, b.len() as usize);
        assert(buf.subrange(pos + p.len(), pos + s.len() as int) == b) by {
            assert forall|j: int| 0 <= j < b.len() implies #[trigger] (buf.subrange(
                pos + p.len(),
                pos + s.len() as int,
            )[j]) == b[j] by {
                assert(buf.subrange(pos, pos + s.len() as int)[p.len() + j] == buf[pos + p.len()
                    + j]);
                assert((p + b)[p.len() + j] == b[j]);
            }
            assert(buf.subrange(pos + p.len(), pos + s.len() as int) =~= b);
        }
        vstd::utf8::encode_utf8_valid_utf8(v);
        vstd::utf8::encode_utf8_decode_utf8(v);
    }

    proof fn lemma_canonical(&self, buf: Seq<u8>, pos: int) {
        if self.spec_dec(buf, pos) is Ok {
            let (n, p1) = self.length.spec_dec(buf, pos)->Ok_0;
            self.length.lemma_canonical(buf, pos);
            let b = buf.subrange(p1, p1 + n);
            vstd::utf8::decode_utf8_encode_utf8(b);
            assert(encode_utf8(decode_utf8(b)) == b);
            assert(buf.subrange(pos, p1 + n) =~= buf.subrange(pos, p1) + b);
        }
    }

    proof fn lemma_short_eof(&self, buf: Seq<u8>, pos: int, v: Seq<char>, k: int) {
        let b = encode_utf8(v);
        let p = self.length.spec_enc(b.len() as usize).unwrap();
        let s = self.spec_enc(v).unwrap();
        assert(s == p + b);
        if k < p.len() {
            assert(buf.subrange(pos, pos + k) == p.subrange(0, k)) by {
                assert forall|j: int| 0 <= j < k implies #[trigger] (buf.subrange(pos, pos + k)[j])
                    == p.subrange(0, k)[j] by {
                    assert(s.subrange(0, k)[j] == s[j]);
                    assert((p + b)[j] == p[j]);
                }
                assert(buf.subrange(pos, pos + k) =~= p.subrange(0, k));
            }
            self.length.lemma_short_eof(buf, pos, b.len() as usize, k);
        } else {
            assert(buf.subrange(pos, pos + p.len() as int) == p) by {
                assert forall|j: int| 0 <= j < p.len() implies #[trigger] (buf.subrange(
                    pos,
                    pos + p.len() as int,
                )[j]) == p[j] by {
                    assert(s.subrange(0, k)[j] == s[j]);
                    assert((p + b)[j] == p[j]);
                }
                assert(buf.subrange(pos, pos + p.len() as int) =~= p);
            }
            self.length.lemma_round_trip(buf, pos, b.len() as usize);
        }
    }
}

/// A length-prefixed UTF-8 string decoded into an owned value.
pub struct Text<Length> {
    pub length: Length,
}

impl<Length> Text<Length> {
    pub fn codec(length: Length) -> (r: Self)
        ensures
            r.length == length,
    {
        Self { length }
    }
}

impl<Length: Default> Default for Text<Length> {
    fn default() -> (r: Self)
        ensures
            call_ensures(Length::default, (), r.length),
    {
        Self { length: Length::default() }
    }
}

impl<Length: Measurer<Decoded = usize>> Measurer for Text<Length> {
    type Decoded = String;

    open spec fn spec_enc(&self, v: Seq<char>) -> Option<Seq<u8>> {
        let b = encode_utf8(v);
        if b.len() > usize::MAX {
            None
        } else {
            match self.length.spec_enc(b.len() as usize) {
                None => None,
                Some(p) => if p.len() + b.len() <= usize::MAX {
                    Some(p + b)
                } else {
                    None
                },
            }
        }
    }

    open spec fn spec_enc_fail(&self, v: Seq<char>, e: EncodeError) -> bool {
        let b = encode_utf8(v);
        (b.len() <= usize::MAX && self.length.spec_enc(b.len() as usize) is None
            && self.length.spec_enc_fail(b.len() as usize, e)) || e == EncodeError::InvalidUSize
    }

    #[verifier::spinoff_prover]
    #[verifier::rlimit(30)]
    fn measure(&self, decoded: &String) -> (r: Result<usize, EncodeError>) {
        let s: &str = decoded.as_str();
        let n: usize = s.as_bytes().len();
        let prefix = self.length.measure(&n)?;
        if n > usize::MAX - prefix {
            return Err(EncodeError::InvalidUSize);
        }
        Ok(prefix + n)
    }
}

impl<Length: Encoder<Decoded = usize>> Encoder for Text<Length> {
    fn encode(
        &self,
        decoded: &String,
        encoded: &mut Vec<u8>,
        offset: &mut usize,
    ) -> (r: Result<(), EncodeError>) {
        let s: &str = decoded.as_str();
        let n: usize = s.as_bytes().len();
        match self.length.encode(&n, encoded, offset) {
            Ok(()) => {
            },
            Err(e) => {
                return Err(e);
            },
        }
        let ghost mid = encoded@;
        let ghost p = self.length.spec_enc(n).unwrap();
        let r = write_run(encoded, offset, s.as_bytes());
        proof {
            if r is Ok {
                crate::bytes::lemma_spliced_concat(
                    old(encoded)@,
                    mid,
                    encoded@,
                    *old(offset) as int,
                    p,
                    encode_utf8(decoded@),
                );
            } else {
                crate::bytes::lemma_spliced_prefix_eq(
                    old(encoded)@,
                    mid,
                    *old(offset) as int,
                    p,
                    *old(offset) as int,
                );
            }
        }
        r
    }
}

impl<'e, Length> BorrowedDecoder<'e> for Text<Length> where
    Length: for<'x> BorrowedDecoder<'x, Decoded = usize, BDecoded = usize>,
 {
    type BDecoded = String;

    open spec fn spec_dec(&self, buf: Seq<u8>, pos: int) -> Result<(Seq<char>, int), DecodeError> {
        match self.length.spec_dec(buf, pos) {
            Err(e) => Err(e),
            Ok((n, p1)) => if p1 + n <= buf.len() {
                if valid_utf8(buf.subrange(p1, p1 + n)) {
                    Ok((decode_utf8(buf.subrange(p1, p1 + n)), p1 + n))
                } else {
                    Err(DecodeError::InvalidData)
                }
            } else {
                Err(DecodeError::EOF)
            },
        }
    }

    open spec fn canonical(&self) -> bool {
        self.length.canonical()
    }

    open spec fn short_input_eof(&self) -> bool {
        self.length.short_input_eof()
    }

    #[verifier::spinoff_prover]
    #[verifier::rlimit(30)]
    fn borrowed_decode(&self, encoded: &'e [u8], offset: &mut usize) -> (r: Result<
        String,
        DecodeError,
    >) {
        let n: usize = match self.length.borrowed_decode(encoded, offset) {
            Ok(n) => n,
            Err(e) => {
                return Err(e);
            },
        };
        let run = read_run(encoded, offset, n)?;
        match try_from_utf8(run) {
            Some(s) => {
                proof {
                    vstd::utf8::encode_utf8_decode_utf8(s@);
                }
                Ok(s.to_owned())
            },
            None => Err(DecodeError::InvalidData),
        }
    }

    proof fn lemma_round_trip(&self, buf: Seq<u8>, pos: int, v: Seq<char>) {
        let st = Str { length: self.length };
        assert(st.spec_enc(v) == self.spec_enc(v));
        assert(st.spec_dec(buf, pos) == self.spec_dec(buf, pos));
        st.lemma_round_trip(buf, pos, v);
    }

    proof fn lemma_canonical(&self, buf: Seq<u8>, pos: int) {
        let st = Str { length: self.length };
        assert(st.spec_dec(buf, pos) == self.spec_dec(buf, pos));
        st.lemma_canonical(buf, pos);
        if self.spec_dec(buf, pos) is Ok {
            let (vc, end) = self.spec_dec(buf, pos)->Ok_0;
            assert(st.spec_enc(vc) == self.spec_enc(vc));
        }
    }

    proof fn lemma_short_eof(&self, buf: Seq<u8>, pos: int, v: Seq<char>, k: int) {
        let st = Str { length: self.length };
        assert(st.spec_enc(v) == self.spec_enc(v));
        assert(st.spec_dec(buf, pos) == self.spec_dec(buf, pos));
        st.lemma_short_eof(buf, pos, v, k);
    }
}

} // verus!

verus! {

/// The position of the first zero byte at or after `pos`, if any.
pub open spec fn find_nul(buf: Seq<u8>, pos: int) -> Option<int>
    decreases buf.len() - pos,
{
    if pos < 0 || pos >= buf.len() {
        None
    } else if buf[pos] == 0u8 {
        Some(pos)
    } else {
        find_nul(buf, pos + 1)
    }
}

proof fn lemma_find_nul_some(buf: Seq<u8>, pos: int, z: int)
    requires
        0 <= pos <= z < buf.len(),
        forall|i: int| pos <= i < z ==> buf[i] != 0u8,
        buf[z] == 0u8,
    ensures
        find_nul(buf, pos) == Some(z),
    decreases z - pos,
{
    if pos < z {
        lemma_find_nul_some(buf, pos + 1, z);
    }
}

proof fn lemma_find_nul_props(buf: Seq<u8>, pos: int)
    requires
        0 <= pos,
        find_nul(buf, pos) is Some,
    ensures
        ({
            let z = find_nul(buf, pos)->0;
            &&& pos <= z < buf.len()
            &&& buf[z] == 0u8
            &&& forall|i: int| pos <= i < z ==> buf[i] != 0u8
        }),
    decreases buf.len() - pos,
{
    if pos < buf.len() && buf[pos] != 0u8 {
        lemma_find_nul_props(buf, pos + 1);
    }
}

/// An owned byte string with no zero byte in it: the value the
/// nul-terminated codecs encode and decode.
#[derive(Debug, PartialEq, Eq)]
pub struct ZString {
    bytes: Vec<u8>,
}

impl ZString {
    /// No byte of the string is zero.
    #[verifier::type_invariant]
    pub closed spec fn nul_free(&self) -> bool {
        forall|i: int| 0 <= i < self.bytes@.len() ==> self.bytes@[i] != 0u8
    }

    /// Accepts exactly the byte strings without a zero byte.
    pub fn new(bytes: Vec<u8>) -> (r: Option<ZString>)
        ensures
            if forall|i: int| 0 <= i < bytes@.len() ==> bytes@[i] != 0u8 {
                r matches Some(z) && z.deep_view() == bytes@
            } else {
                r is None
            },
    {
        let mut i: usize = 0;
        while i < bytes.len()
            invariant
                0 <= i <= bytes.len(),
                forall|j: int| 0 <= j < i ==> bytes@[j] != 0u8,
            decreases bytes.len() - i,
        {
            if bytes[i] == 0 {
                return None;
            }
            i = i + 1;
        }
        proof {
            crate::bytes::lemma_vec_u8_deep_view(bytes);
        }
        Some(ZString { bytes })
    }

    /// The bytes of the string, without any terminator.
    pub fn as_bytes(&self) -> (r: &[u8])
        ensures
            r@ == self.deep_view(),
            forall|i: int| 0 <= i < r@.len() ==> r@[i] != 0u8,
    {
        proof {
            use_type_invariant(self);
            crate::bytes::lemma_vec_u8_deep_view(self.bytes);
        }
        self.bytes.as_slice()
    }
}

impl DeepView for ZString {
    type V = Seq<u8>;

    closed spec fn deep_view(&self) -> Seq<u8> {
        self.bytes@
    }
}

/// The wire bytes of a nul-terminated string: the bytes, then one zero
/// byte; only nul-free byte strings are encodable.
pub open spec fn spec_enc_nul_terminated(v: Seq<u8>) -> Option<Seq<u8>> {
    if v.len() + 1 <= usize::MAX && (forall|i: int| 0 <= i < v.len() ==> v[i] != 0u8) {
        Some(v.push(0u8))
    } else {
        None
    }
}

/// Reading a nul-terminated string at `pos`: everything before the first
/// zero byte, consuming the terminator too; `InvalidData` when no zero
/// byte remains.
pub open spec fn spec_dec_nul_terminated(buf: Seq<u8>, pos: int) -> Result<
    (Seq<u8>, int),
    DecodeError,
> {
    match find_nul(buf, pos) {
        None => Err(DecodeError::InvalidData),
        Some(z) => Ok((buf.subrange(pos, z), z + 1)),
    }
}

/// A nul-terminated byte string decoded as a zero-copy view of its bytes,
/// without the terminator.
pub struct CStr;

impl CStr {
    pub fn codec() -> (r: Self)
        ensures
            r == CStr,
    {
        CStr
    }
}

impl Default for CStr {
    fn default() -> (r: Self)
        ensures
            r == CStr,
    {
        CStr
    }
}

impl Measurer for CStr {
    type Decoded = ZString;

    open spec fn spec_enc(&self, v: Seq<u8>) -> Option<Seq<u8>> {
        spec_enc_nul_terminated(v)
    }

    open spec fn spec_enc_fail(&self, v: Seq<u8>, e: EncodeError) -> bool {
        e == EncodeError::InvalidUSize
    }

    #[verifier::spinoff_prover]
    fn measure(&self, decoded: &ZString) -> (r: Result<usize, EncodeError>) {
        let b = decoded.as_bytes();
        let n = b.len();
        if n > usize::MAX - 1 {
            return Err(EncodeError::InvalidUSize);
        }
        Ok(n + 1)
    }
}

impl Encoder for CStr {
    /// The whole room — bytes plus terminator — is checked before any
    /// write, so a failed encode leaves the buffer and the cursor exactly
    /// as they were.
    fn encode(
        &self,
        decoded: &ZString,
        encoded: &mut Vec<u8>,
        offset: &mut usize,
    ) -> (r: Result<(), EncodeError>)
        ensures
            r is Err ==> final(encoded)@ == old(encoded)@ && *final(offset) == *old(offset),
    {
        let b = decoded.as_bytes();
        if b.len() >= encoded.len() - *offset {
            return Err(EncodeError::BufferTooSmall);
        }
        match write_run(encoded, offset, b) {
            Ok(()) => {
            },
            Err(e) => {
                return Err(e);
            },
        }
        let ghost mid = encoded@;
        let r = write_byte(encoded, offset, 0);
        proof {
            if r is Ok {
                lemma_spliced_push(
                    old(encoded)@,
                    mid,
                    encoded@,
                    *old(offset) as int,
                    decoded.deep_view(),
                    0u8,
                );
            }
        }
        r
    }
}

impl<'e> BorrowedDecoder<'e> for CStr {
    type BDecoded = &'e [u8];

    open spec fn spec_dec(&self, buf: Seq<u8>, pos: int) -> Result<(Seq<u8>, int), DecodeError> {
        spec_dec_nul_terminated(buf, pos)
    }

    open spec fn canonical(&self) -> bool {
        true
    }

    open spec fn short_input_eof(&self) -> bool {
        false
    }

    /// A failed scan — no nul byte remains — leaves the cursor untouched.
    #[verifier::spinoff_prover]
    fn borrowed_decode(&self, encoded: &'e [u8], offset: &mut usize) -> (r: Result<
        &'e [u8],
        DecodeError,
    >)
        ensures
            r is Err ==> *final(offset) == *old(offset),
    {
        let start: usize = *offset;
        let mut i: usize = start;
        loop
            invariant
                start == *old(offset),
                *offset == start,
                start <= i <= encoded.len(),
                find_nul(encoded@, start as int) == find_nul(encoded@, i as int),
            decreases encoded.len() - i,
        {
            if i >= encoded.len() {
                return Err(DecodeError::InvalidData);
            }
            if encoded[i] == 0 {
                let run = vstd::slice::slice_subrange(encoded, start, i);
                *offset = i + 1;
                proof {
                    crate::bytes::lemma_slice_u8_deep_view(run);
                }
                return Ok(run);
            }
            i = i + 1;
        }
    }

    proof fn lemma_round_trip(&self, buf: Seq<u8>, pos: int, v: Seq<u8>) {
        let s = self.spec_enc(v)->0;
        assert(s == v.push(0u8));
        let z = pos + v.len() as int;
        assert(buf[z] == 0u8) by {
            assert(buf.subrange(pos, pos + s.len() as int)[v.len() as int] == buf[z]);
            assert(v.push(0u8)[v.len() as int] == 0u8);
        }
        assert forall|i: int| pos <= i < z implies buf[i] != 0u8 by {
            assert(buf.subrange(pos, pos + s.len() as int)[i - pos] == buf[i]);
            assert(v.push(0u8)[i - pos] == v[i - pos]);
        }
        lemma_find_nul_some(buf, pos, z);
        assert(buf.subrange(pos, z) == v) by {
            assert forall|j: int| 0 <= j < v.len() implies #[trigger] (buf.subrange(pos, z)[j])
                == v[j] by {
                assert(buf.subrange(pos, pos + s.len() as int)[j] == buf[pos + j]);
                assert(v.push(0u8)[j] == v[j]);
            }
            assert(buf.subrange(pos, z) =~= v);
        }
    }

    proof fn lemma_canonical(&self, buf: Seq<u8>, pos: int) {
        if self.spec_dec(buf, pos) is Ok {
            lemma_find_nul_props(buf, pos);
            let z = find_nul(buf, pos)->0;
            let v = buf.subrange(pos, z);
            assert(forall|i: int| 0 <= i < v.len() ==> v[i] != 0u8);
            assert(v.push(0u8) =~= buf.subrange(pos, z + 1));
        }
    }

    proof fn lemma_short_eof(&self, buf: Seq<u8>, pos: int, v: Seq<u8>, k: int) {
    }
}

/// A nul-terminated byte string decoded into an owned [`ZString`].
pub struct CString;

impl CString {
    pub fn codec() -> (r: Self)
        ensures
            r == CString,
    {
        CString
    }
}

impl Default for CString {
    fn default() -> (r: Self)
        ensures
            r == CString,
    {
        CString
    }
}

impl Measurer for CString {
    type Decoded = ZString;

    open spec fn spec_enc(&self, v: Seq<u8>) -> Option<Seq<u8>> {
        spec_enc_nul_terminated(v)
    }

    open spec fn spec_enc_fail(&self, v: Seq<u8>, e: EncodeError) -> bool {
        e == EncodeError::InvalidUSize
    }

    fn measure(&self, decoded: &ZString) -> (r: Result<usize, EncodeError>) {
        CStr.measure(decoded)
    }
}

impl Encoder for CString {
    /// As for [`CStr`]: a failed encode leaves buffer and cursor unchanged.
    fn encode(
        &self,
        decoded: &ZString,
        encoded: &mut Vec<u8>,
        offset: &mut usize,
    ) -> (r: Result<(), EncodeError>)
        ensures
            r is Err ==> final(encoded)@ == old(encoded)@ && *final(offset) == *old(offset),
    {
        CStr.encode(decoded, encoded, offset)
    }
}

impl<'e> BorrowedDecoder<'e> for CString {
    type BDecoded = ZString;

    open spec fn spec_dec(&self, buf: Seq<u8>, pos: int) -> Result<(Seq<u8>, int), DecodeError> {
        spec_dec_nul_terminated(buf, pos)
    }

    open spec fn canonical(&self) -> bool {
        true
    }

    open spec fn short_input_eof(&self) -> bool {
        false
    }

    /// As for [`CStr`]: a failed scan leaves the cursor untouched.
    fn borrowed_decode(&self, encoded: &'e [u8], offset: &mut usize) -> (r: Result<
        ZString,
        DecodeError,
    >)
        ensures
            r is Err ==> *final(offset) == *old(offset),
    {
        let run = match CStr.borrowed_decode(encoded, offset) {
            Ok(run) => run,
            Err(e) => {
                return Err(e);
            },
        };
        proof {
            lemma_find_nul_props(encoded@, *old(offset) as int);
        }
        let bytes = vstd::slice::slice_to_vec(run);
        proof {
            crate::bytes::lemma_vec_u8_deep_view(bytes);
            crate::bytes::lemma_slice_u8_deep_view(run);
        }
        Ok(ZString { bytes })
    }

    proof fn lemma_round_trip(&self, buf: Seq<u8>, pos: int, v: Seq<u8>) {
        CStr.lemma_round_trip(buf, pos, v);
    }

    proof fn lemma_canonical(&self, buf: Seq<u8>, pos: int) {
        CStr.lemma_canonical(buf, pos);
    }

    proof fn lemma_short_eof(&self, buf: Seq<u8>, pos: int, v: Seq<u8>, k: int) {
    }
}


impl crate::Measure for ZString {
    open spec fn encoded_of(v: Seq<u8>) -> Option<Seq<u8>> {
        spec_enc_nul_terminated(v)
    }

    open spec fn enc_fail_of(v: Seq<u8>, e: EncodeError) -> bool {
        e == EncodeError::InvalidUSize
    }

    fn measure(&self) -> (r: Result<usize, EncodeError>) {
        CString.measure(self)
    }
}

impl crate::Encode for ZString {
    /// As for [`CStr`]: a failed encode leaves buffer and cursor unchanged.
    fn encode(&self, encoded: &mut Vec<u8>, offset: &mut usize) -> (r: Result<(), EncodeError>)
        ensures
            r is Err ==> final(encoded)@ == old(encoded)@ && *final(offset) == *old(offset),
    {
        CString.encode(self, encoded, offset)
    }
}

impl<'e> crate::Decode<'e> for ZString {
    open spec fn decoded_at(buf: Seq<u8>, pos: int) -> Result<(Seq<u8>, int), DecodeError> {
        spec_dec_nul_terminated(buf, pos)
    }

    open spec fn canonical_wire() -> bool {
        true
    }

    open spec fn short_wire_eof() -> bool {
        false
    }

    /// As for [`CStr`]: a failed scan leaves the cursor untouched.
    fn decode(encoded: &'e [u8], offset: &mut usize) -> (r: Result<ZString, DecodeError>)
        ensures
            r is Err ==> *final(offset) == *old(offset),
    {
        CString.borrowed_decode(encoded, offset)
    }

    proof fn lemma_round_trip(buf: Seq<u8>, pos: int, v: Seq<u8>) {
        CString.lemma_round_trip(buf, pos, v);
    }

    proof fn lemma_canonical(buf: Seq<u8>, pos: int) {
        CString.lemma_canonical(buf, pos);
    }

    proof fn lemma_short_eof(buf: Seq<u8>, pos: int, v: Seq<u8>, k: int) {
    }
}

impl crate::DecodeOwned for ZString {

}

} // verus!
