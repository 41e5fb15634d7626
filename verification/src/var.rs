//! Variable-length encodings: the base-128 integer codec used for compact
//! lengths, its narrowing variants, and the length-prefixed containers.
//!
//! The integer wire format splits a value into 7-bit groups (septets), most
//! significant first, drops leading zero groups (keeping one group for the
//! value zero), and sets bit 7 on every emitted byte except the last.
use vstd::prelude::*;

pub mod strings;

use crate::bytes::lemma_spliced_byte;
use crate::bytes::lemma_spliced_push;
use crate::bytes::spliced;
use crate::bytes::write_byte;
use crate::BorrowedDecoder;
use crate::DecodeError;
use crate::EncodeError;
use crate::Encoder;
use crate::Measurer;

verus! {

/// 128 raised to `k`.
pub open spec fn pow128(k: nat) -> nat
    decreases k,
{
    if k == 0 {
        1
    } else {
        128 * pow128((k - 1) as nat)
    }
}

/// How many base-128 digits `n` has; one digit for zero.
pub open spec fn digit_count(n: nat) -> nat
    decreases n,
{
    if n < 128 {
        1
    } else {
        1 + digit_count(n / 128)
    }
}

/// The base-128 digits of `m`, most significant first, each with the
/// continuation flag (bit 7) set.
pub open spec fn varint_cont(m: nat) -> Seq<u8>
    decreases m,
{
    if m < 128 {
        seq![(m + 128) as u8]
    } else {
        varint_cont(m / 128) + seq![(m % 128 + 128) as u8]
    }
}

/// The canonical wire bytes of `n`: its base-128 digits, most significant
/// first and shortest form, flagged on every byte but the last.
pub open spec fn varint_enc(n: nat) -> Seq<u8> {
    if n < 128 {
        seq![n as u8]
    } else {
        varint_cont(n / 128) + seq![(n % 128) as u8]
    }
}

/// A functional model of the varint reader: starting at `pos` with
/// `septets` groups already read into `acc`, consume flagged bytes until a
/// byte with bit 7 clear ends the value. Reading an eleventh group is
/// `InvalidData`; running out of buffer first is `EOF`.
pub open spec fn varint_dec_at(buf: Seq<u8>, pos: int, septets: nat, acc: nat) -> Result<
    (nat, int),
    DecodeError,
>
    decreases buf.len() - pos,
{
    if pos < 0 || pos >= buf.len() {
        Err(DecodeError::EOF)
    } else if septets >= 10 {
        Err(DecodeError::InvalidData)
    } else {
        let b = buf[pos];
        let acc2 = acc * 128 + (b as nat) % 128;
        if b < 128 {
            Ok((acc2, pos + 1))
        } else {
            varint_dec_at(buf, pos + 1, septets + 1, acc2)
        }
    }
}

/// The reader's result truncated to 64 bits, as the codec returns it.
pub open spec fn varint_dec(buf: Seq<u8>, pos: int) -> Result<(u64, int), DecodeError> {
    match varint_dec_at(buf, pos, 0, 0) {
        Ok((n, end)) => Ok(((n % 0x1_0000_0000_0000_0000) as u64, end)),
        Err(e) => Err(e),
    }
}

pub proof fn lemma_pow128_pos(k: nat)
    ensures
        pow128(k) >= 1,
    decreases k,
{
    if k > 0 {
        lemma_pow128_pos((k - 1) as nat);
    }
}

pub proof fn lemma_pow128_le(a: nat, b: nat)
    requires
        a <= b,
    ensures
        pow128(a) <= pow128(b),
    decreases b,
{
    if a < b {
        lemma_pow128_le(a, (b - 1) as nat);
        lemma_pow128_pos((b - 1) as nat);
        assert(pow128(b) == 128 * pow128((b - 1) as nat));
    }
}

pub proof fn lemma_pow128_10()
    ensures
        pow128(9) == 0x8000_0000_0000_0000,
        pow128(10) == 0x40_0000_0000_0000_0000,
{
    reveal_with_fuel(pow128, 11);
}

/// `n` always lies below 128 to the power of its digit count.
pub proof fn lemma_digit_count_bound(n: nat)
    ensures
        1 <= digit_count(n),
        n < pow128(digit_count(n)),
    decreases n,
{
    if n < 128 {
        assert(digit_count(n) == 1);
        assert(pow128(1nat) == 128) by {
            reveal_with_fuel(pow128, 2);
        }
    } else {
        lemma_digit_count_bound(n / 128);
        let d = digit_count(n / 128);
        let p = pow128(d);
        assert(digit_count(n) == 1 + d);
        assert(pow128((1 + d) as nat) == 128 * p);
        assert(pow128(digit_count(n)) == pow128((1 + d) as nat));
        vstd::arithmetic::div_mod::lemma_fundamental_div_mod(n as int, 128);
        assert(n == 128 * (n / 128) + n % 128);
        assert(n / 128 <= p - 1);
        assert(128 * (n / 128) <= 128 * (p - 1)) by (nonlinear_arith)
            requires
                n / 128 <= p - 1,
        {
        }
        assert(n < 128 * p);
    }
}

/// A value below `pow128(k)` has at most `k` digits.
pub proof fn lemma_digit_count_le(n: nat, k: nat)
    requires
        1 <= k,
        n < pow128(k),
    ensures
        digit_count(n) <= k,
    decreases k,
{
    if n < 128 {
    } else {
        let p = pow128((k - 1) as nat);
        assert(pow128(k) == 128 * p);
        assert(k >= 2) by {
            if k == 1 {
                reveal_with_fuel(pow128, 2);
            }
        }
        vstd::arithmetic::div_mod::lemma_fundamental_div_mod(n as int, 128);
        assert(n == 128 * (n / 128) + n % 128);
        assert(n / 128 < p) by (nonlinear_arith)
            requires
                n == 128 * (n / 128) + n % 128,
                0 <= n % 128 < 128,
                n < 128 * p,
        {
        }
        lemma_digit_count_le(n / 128, (k - 1) as nat);
        assert(digit_count(n) == 1 + digit_count(n / 128));
    }
}

/// The flagged digit run of `m` has exactly `digit_count(m)` bytes, all
/// carrying the continuation flag.
pub proof fn lemma_varint_cont_shape(m: nat)
    ensures
        varint_cont(m).len() == digit_count(m),
        forall|i: int| 0 <= i < varint_cont(m).len() ==> varint_cont(m)[i] >= 128,
    decreases m,
{
    if m < 128 {
    } else {
        lemma_varint_cont_shape(m / 128);
        let head = varint_cont(m / 128);
        let tail = seq![(m % 128 + 128) as u8];
        assert(varint_cont(m) == head + tail);
        assert forall|i: int| 0 <= i < varint_cont(m).len() implies varint_cont(m)[i] >= 128 by {
            if i < head.len() {
                assert(varint_cont(m)[i] == head[i]);
            } else {
                assert(varint_cont(m)[i] == tail[i - head.len()]);
            }
        }
    }
}

/// The encoding of `n` has exactly `digit_count(n)` bytes; every byte but
/// the last is flagged, and the last is not.
pub proof fn lemma_varint_enc_shape(n: nat)
    ensures
        varint_enc(n).len() == digit_count(n),
        forall|i: int| 0 <= i < varint_enc(n).len() - 1 ==> varint_enc(n)[i] >= 128,
        varint_enc(n)[varint_enc(n).len() - 1] < 128,
{
    if n < 128 {
    } else {
        lemma_varint_cont_shape(n / 128);
        let head = varint_cont(n / 128);
        let tail = seq![(n % 128) as u8];
        assert(varint_enc(n) == head + tail);
        assert(digit_count(n) == 1 + digit_count(n / 128));
        assert(varint_enc(n)[varint_enc(n).len() - 1] == tail[0]);
        assert forall|i: int| 0 <= i < varint_enc(n).len() - 1 implies varint_enc(n)[i]
            >= 128 by {
            assert(varint_enc(n)[i] == head[i]);
        }
    }
}

/// Reading the flagged digit run of `m` carries the accumulated prefix
/// through: the reader ends up just past the run holding the prefix
/// shifted by the run's digits plus `m`.
proof fn lemma_varint_dec_cont(buf: Seq<u8>, pos: int, m: nat, septets: nat, acc: nat)
    requires
        0 <= pos,
        septets + digit_count(m) <= 10,
        pos + digit_count(m) <= buf.len(),
        buf.subrange(pos, pos + digit_count(m) as int) == varint_cont(m),
    ensures
        varint_dec_at(buf, pos, septets, acc) == varint_dec_at(
            buf,
            pos + digit_count(m) as int,
            septets + digit_count(m),
            acc * pow128(digit_count(m)) + m,
        ),
    decreases m,
{
    lemma_varint_cont_shape(m);
    let c = digit_count(m) as int;
    if m < 128 {
        assert(buf[pos] == buf.subrange(pos, pos + c)[0]);
        assert(buf[pos] == (m + 128) as u8);
        assert((buf[pos] as nat) % 128 == m);
        assert(buf[pos] >= 128);
        assert(pow128(1nat) == 128) by {
            reveal_with_fuel(pow128, 2);
        }
    } else {
        let head = varint_cont(m / 128);
        let tail = seq![(m % 128 + 128) as u8];
        assert(varint_cont(m) == head + tail);
        lemma_varint_cont_shape(m / 128);
        let c1 = digit_count(m / 128) as int;
        assert(c == c1 + 1);
        assert(buf.subrange(pos, pos + c1) == head) by {
            assert forall|i: int| 0 <= i < c1 implies buf.subrange(pos, pos + c1)[i]
                == head[i] by {
                assert(buf.subrange(pos, pos + c)[i] == buf[pos + i]);
                assert(varint_cont(m)[i] == head[i]);
            }
            assert(buf.subrange(pos, pos + c1) =~= head);
        }
        lemma_varint_dec_cont(buf, pos, m / 128, septets, acc);
        let acc1 = acc * pow128(digit_count((m / 128) as nat)) + m / 128;
        assert(buf[pos + c1] == buf.subrange(pos, pos + c)[c1]);
        assert(buf[pos + c1] == (m % 128 + 128) as u8);
        assert(buf[pos + c1] >= 128);
        assert((buf[pos + c1] as nat) % 128 == m % 128);
        assert(varint_dec_at(buf, pos + c1, septets + digit_count((m / 128) as nat), acc1)
            == varint_dec_at(buf, pos + c, (septets + digit_count((m / 128) as nat) + 1) as nat, acc1 * 128 + m % 128));
        vstd::arithmetic::div_mod::lemma_fundamental_div_mod(m as int, 128);
        assert(acc1 * 128 + m % 128 == acc * pow128(digit_count(m)) + m) by (nonlinear_arith)
            requires
                acc1 == acc * pow128(digit_count((m / 128) as nat)) + m / 128,
                pow128(digit_count(m)) == 128 * pow128(digit_count((m / 128) as nat)),
                m == 128 * (m / 128) + m % 128,
        {
        }
    }
}

/// Decoding the canonical encoding of `n` yields `n` and ends right after
/// it, whatever lies around it in the buffer.
pub proof fn lemma_varint_round_trip(buf: Seq<u8>, pos: int, n: nat)
    requires
        n < 0x1_0000_0000_0000_0000,
        0 <= pos,
        pos + varint_enc(n).len() <= buf.len(),
        buf.subrange(pos, pos + varint_enc(n).len() as int) == varint_enc(n),
    ensures
        varint_dec_at(buf, pos, 0, 0) == Ok::<_, DecodeError>(
            (n, pos + varint_enc(n).len() as int),
        ),
        varint_dec(buf, pos) == Ok::<_, DecodeError>((n as u64, pos + varint_enc(n).len() as int)),
{
    lemma_varint_enc_shape(n);
    lemma_pow128_10();
    if n < 128 {
        assert(buf[pos] == buf.subrange(pos, pos + 1)[0]);
        assert(buf[pos] == n as u8);
    } else {
        let head = varint_cont(n / 128);
        let tail = seq![(n % 128) as u8];
        assert(varint_enc(n) == head + tail);
        lemma_varint_cont_shape(n / 128);
        let c1 = digit_count(n / 128) as int;
        let c = varint_enc(n).len() as int;
        assert(c == c1 + 1);
        assert(digit_count((n / 128) as nat) <= 9) by {
            vstd::arithmetic::div_mod::lemma_fundamental_div_mod(n as int, 128);
            assert(n / 128 < pow128(9nat)) by (nonlinear_arith)
                requires
                    n == 128 * (n / 128) + n % 128,
                    0 <= n % 128 < 128,
                    n < 0x1_0000_0000_0000_0000,
                    pow128(9nat) == 0x8000_0000_0000_0000,
            {
            }
            lemma_digit_count_le((n / 128) as nat, 9);
        }
        assert(buf.subrange(pos, pos + c1) == head) by {
            assert forall|i: int| 0 <= i < c1 implies buf.subrange(pos, pos + c1)[i]
                == head[i] by {
                assert(buf.subrange(pos, pos + c)[i] == buf[pos + i]);
                assert(varint_enc(n)[i] == head[i]);
            }
            assert(buf.subrange(pos, pos + c1) =~= head);
        }
        lemma_varint_dec_cont(buf, pos, (n / 128) as nat, 0, 0);
        assert(buf[pos + c1] == buf.subrange(pos, pos + c)[c1]);
        assert(buf[pos + c1] == (n % 128) as u8);
        assert(buf[pos + c1] < 128);
        let acc1 = 0 * pow128(digit_count((n / 128) as nat)) + n / 128;
        assert(acc1 == n / 128);
        assert(varint_dec_at(buf, pos + c1, digit_count((n / 128) as nat), acc1)
            == Ok::<_, DecodeError>((acc1 * 128 + (n % 128), pos + c)));
        vstd::arithmetic::div_mod::lemma_fundamental_div_mod(n as int, 128);
        assert(acc1 * 128 + n % 128 == n);
    }
}

/// A buffer that ends while every byte from `pos` on carries the
/// continuation flag decodes to `EOF`, as long as fewer than ten groups
/// would be read.
proof fn lemma_varint_dec_flagged_eof(buf: Seq<u8>, pos: int, septets: nat, acc: nat)
    requires
        0 <= pos <= buf.len(),
        forall|i: int| pos <= i < buf.len() ==> buf[i] >= 128,
        septets + (buf.len() - pos) <= 10,
    ensures
        varint_dec_at(buf, pos, septets, acc) == Err::<(nat, int), _>(DecodeError::EOF),
    decreases buf.len() - pos,
{
    if pos < buf.len() {
        lemma_varint_dec_flagged_eof(
            buf,
            pos + 1,
            septets + 1,
            acc * 128 + (buf[pos] as nat) % 128,
        );
    }
}

/// A buffer ending part-way through the canonical encoding of `n` decodes
/// to `EOF`.
pub proof fn lemma_varint_short_eof(buf: Seq<u8>, pos: int, n: nat, k: int)
    requires
        n < 0x1_0000_0000_0000_0000,
        0 <= pos,
        0 <= k < varint_enc(n).len(),
        buf.len() == pos + k,
        buf.subrange(pos, pos + k) == varint_enc(n).subrange(0, k),
    ensures
        varint_dec(buf, pos) == Err::<(u64, int), _>(DecodeError::EOF),
{
    let s = varint_enc(n);
    lemma_varint_enc_shape(n);
    lemma_pow128_10();
    lemma_digit_count_le(n, 10);
    assert forall|i: int| pos <= i < buf.len() implies buf[i] >= 128 by {
        assert(buf.subrange(pos, pos + k)[i - pos] == buf[i]);
        assert(s.subrange(0, k)[i - pos] == s[i - pos]);
        assert(i - pos < s.len() - 1);
    }
    lemma_varint_dec_flagged_eof(buf, pos, 0, 0);
}

/// Writes the flagged digit run of `m`.
fn encode_cont(m: u64, encoded: &mut Vec<u8>, offset: &mut usize) -> (r: Result<(), EncodeError>)
    requires
        *old(offset) <= old(encoded).len(),
    ensures
        final(encoded).len() == old(encoded).len(),
        *old(offset) <= *final(offset) <= final(encoded).len(),
        ({
            let s = varint_cont(m as nat);
            &&& (r is Ok <==> *old(offset) + s.len() <= final(encoded).len())
            &&& r is Ok ==> *final(offset) == *old(offset) + s.len() && spliced(
                old(encoded)@,
                final(encoded)@,
                *old(offset) as int,
                s,
            )
            &&& r is Err ==> r == Err::<(), EncodeError>(EncodeError::BufferTooSmall)
        }),
        r is Err ==> final(encoded)@.subrange(0, *old(offset) as int) == old(encoded)@.subrange(
            0,
            *old(offset) as int,
        ),
    decreases m,
{
    proof {
        lemma_varint_cont_shape(m as nat);
    }
    if m < 128 {
        let byte: u8 = (m + 128) as u8;
        let r = write_byte(encoded, offset, byte);
        proof {
            if r is Ok {
                lemma_spliced_byte(old(encoded)@, encoded@, *old(offset) as int, byte);
                assert(varint_cont(m as nat) == seq![byte]);
            }
        }
        r
    } else {
        match encode_cont(m / 128, encoded, offset) {
            Ok(()) => {
                let byte: u8 = (m % 128 + 128) as u8;
                let ghost mid = encoded@;
                let r = write_byte(encoded, offset, byte);
                proof {
                    let s1 = varint_cont(((m as nat) / 128) as nat);
                    assert(varint_cont(m as nat) == s1 + seq![byte]);
                    if r is Ok {
                        lemma_spliced_push(
                            old(encoded)@,
                            mid,
                            encoded@,
                            *old(offset) as int,
                            s1,
                            byte,
                        );
                        assert(s1.push(byte) == s1 + seq![byte]) by {
                            assert(s1.push(byte) =~= s1 + seq![byte]);
                        }
                    } else {
                        crate::bytes::lemma_spliced_prefix_eq(
                            old(encoded)@,
                            mid,
                            *old(offset) as int,
                            s1,
                            *old(offset) as int,
                        );
                    }
                }
                r
            }
            Err(e) => Err(e),
        }
    }
}

/// The septet-based variable-length codec for `u64`.
#[derive(Clone, Copy)]
pub struct U64BE;

impl U64BE {
    pub fn codec() -> (r: Self)
        ensures
            r == U64BE,
    {
        U64BE
    }
}

impl Default for U64BE {
    fn default() -> (r: Self)
        ensures
            r == U64BE,
    {
        U64BE
    }
}

impl Measurer for U64BE {
    type Decoded = u64;

    open spec fn spec_enc(&self, v: u64) -> Option<Seq<u8>> {
        Some(varint_enc(v as nat))
    }

    #[verifier::rlimit(50)]
    fn measure(&self, decoded: &u64) -> (r: Result<usize, EncodeError>) {
        proof {
            lemma_pow128_10();
            lemma_digit_count_le(*decoded as nat, 10);
            lemma_varint_enc_shape(*decoded as nat);
        }
        let mut c: usize = 1;
        let mut m: u64 = *decoded;
        while m >= 128
            invariant
                digit_count(*decoded as nat) <= 10,
                1 <= c <= 10,
                digit_count(*decoded as nat) == c - 1 + digit_count(m as nat),
            decreases m,
        {
            proof {
                assert(digit_count(m as nat) == 1 + digit_count((m as nat) / 128));
                lemma_digit_count_bound((m as nat) / 128);
            }
            m = m / 128;
            c = c + 1;
        }
        proof {
            assert(m < 128);
            assert(digit_count(m as nat) == 1);
            assert(digit_count(*decoded as nat) == c - 1 + digit_count(m as nat));
            assert(digit_count(*decoded as nat) == c);
            lemma_varint_enc_shape(*decoded as nat);
            assert(varint_enc(*decoded as nat).len() == digit_count(*decoded as nat));
            assert(self.spec_enc(decoded.deep_view()) == Some(varint_enc(*decoded as nat)));
        }
        Ok(c)
    }
}

impl Encoder for U64BE {
    fn encode(
        &self,
        decoded: &u64,
        encoded: &mut Vec<u8>,
        offset: &mut usize,
    ) -> (r: Result<(), EncodeError>) {
        let n: u64 = *decoded;
        proof {
            lemma_varint_enc_shape(n as nat);
        }
        if n < 128 {
            let byte: u8 = n as u8;
            let r = write_byte(encoded, offset, byte);
            proof {
                if r is Ok {
                    lemma_spliced_byte(old(encoded)@, encoded@, *old(offset) as int, byte);
                    assert(varint_enc(n as nat) == seq![byte]);
                }
            }
            r
        } else {
            match encode_cont(n / 128, encoded, offset) {
                Ok(()) => {
                    let byte: u8 = (n % 128) as u8;
                    let ghost mid = encoded@;
                    let r = write_byte(encoded, offset, byte);
                    proof {
                        let s1 = varint_cont(((n as nat) / 128) as nat);
                        assert(varint_enc(n as nat) == s1 + seq![byte]);
                        if r is Ok {
                            lemma_spliced_push(
                                old(encoded)@,
                                mid,
                                encoded@,
                                *old(offset) as int,
                                s1,
                                byte,
                            );
                            assert(s1.push(byte) == s1 + seq![byte]) by {
                                assert(s1.push(byte) =~= s1 + seq![byte]);
                            }
                        } else {
                            crate::bytes::lemma_spliced_prefix_eq(
                                old(encoded)@,
                                mid,
                                *old(offset) as int,
                                s1,
                                *old(offset) as int,
                            );
                        }
                    }
                    r
                }
                Err(e) => Err(e),
            }
        }
    }
}

impl<'e> BorrowedDecoder<'e> for U64BE {
    type BDecoded = u64;

    open spec fn spec_dec(&self, buf: Seq<u8>, pos: int) -> Result<(u64, int), DecodeError> {
        varint_dec(buf, pos)
    }

    open spec fn canonical(&self) -> bool {
        false
    }

    open spec fn short_input_eof(&self) -> bool {
        true
    }

    /// After a failure the cursor sits exactly where the reader stopped:
    /// at the end of the buffer for `EOF`, and past the eleventh byte —
    /// which is read and discarded — for `InvalidData`.
    #[verifier::spinoff_prover]
    #[verifier::rlimit(30)]
    fn borrowed_decode(&self, encoded: &'e [u8], offset: &mut usize) -> (r: Result<
        u64,
        DecodeError,
    >)
        ensures
            r == Err::<u64, DecodeError>(DecodeError::EOF) ==> *final(offset) == encoded.len(),
            r == Err::<u64, DecodeError>(DecodeError::InvalidData) ==> *final(offset) == *old(
                offset,
            ) + 11,
    {
        let mut acc: u128 = 0;
        let mut count: usize = 0;
        proof {
            lemma_pow128_10();
            reveal_with_fuel(pow128, 2);
        }
        loop
            invariant
                *old(offset) <= *offset <= encoded.len(),
                count <= 10,
                *offset == *old(offset) + count,
                acc < pow128(count as nat),
                pow128(10) == 0x40_0000_0000_0000_0000,
                varint_dec_at(encoded@, *old(offset) as int, 0, 0) == varint_dec_at(
                    encoded@,
                    *offset as int,
                    count as nat,
                    acc as nat,
                ),
            decreases encoded.len() - *offset,
        {
            if *offset >= encoded.len() {
                proof {
                    assert(varint_dec_at(encoded@, *offset as int, count as nat, acc as nat)
                        == Err::<(nat, int), _>(DecodeError::EOF));
                }
                return Err(DecodeError::EOF);
            }
            if count >= 10 {
                proof {
                    assert(varint_dec_at(encoded@, *offset as int, count as nat, acc as nat)
                        == Err::<(nat, int), _>(DecodeError::InvalidData));
                }
                *offset = *offset + 1;
                return Err(DecodeError::InvalidData);
            }
            let b: u8 = encoded[*offset];
            let ghost pos0 = *offset as int;
            let ghost count0 = count as nat;
            let ghost acc0 = acc as nat;
            *offset = *offset + 1;
            proof {
                assert(pow128((count + 1) as nat) == 128 * pow128(count as nat));
                lemma_pow128_le((count + 1) as nat, 10);
                assert(acc * 128 + 127 < 128 * pow128(count as nat)) by (nonlinear_arith)
                    requires
                        acc < pow128(count as nat),
                {
                }
            }
            acc = acc * 128 + (b % 128) as u128;
            count = count + 1;
            proof {
                assert((b as nat) % 128 == (b % 128) as nat);
                assert(acc as nat == acc0 * 128 + (b as nat) % 128);
                if b < 128 {
                    assert(varint_dec_at(encoded@, pos0, count0, acc0) == Ok::<_, DecodeError>(
                        (acc as nat, *offset as int),
                    ));
                } else {
                    assert(varint_dec_at(encoded@, pos0, count0, acc0) == varint_dec_at(
                        encoded@,
                        *offset as int,
                        count as nat,
                        acc as nat,
                    ));
                }
            }
            if b < 128 {
                let t: u64 = (acc % 0x1_0000_0000_0000_0000u128) as u64;
                return Ok(t);
            }
        }
    }

    proof fn lemma_round_trip(&self, buf: Seq<u8>, pos: int, v: u64) {
        lemma_varint_round_trip(buf, pos, v as nat);
    }

    proof fn lemma_canonical(&self, buf: Seq<u8>, pos: int) {
    }

    proof fn lemma_short_eof(&self, buf: Seq<u8>, pos: int, v: u64, k: int) {
        let s = varint_enc(v as nat);
        lemma_varint_enc_shape(v as nat);
        lemma_pow128_10();
        lemma_digit_count_le(v as nat, 10);
        assert forall|i: int| pos <= i < buf.len() implies buf[i] >= 128 by {
            assert(buf.subrange(pos, pos + k)[i - pos] == buf[i]);
            assert(s.subrange(0, k)[i - pos] == s[i - pos]);
            assert(i - pos < s.len() - 1);
        }
        lemma_varint_dec_flagged_eof(buf, pos, 0, 0);
    }
}

/// The `i`-th base-128 digit of `n`, counting from the least significant.
pub open spec fn septet_at(n: nat, i: nat) -> nat {
    (n / pow128(i)) % 128
}

/// The value of the `i` least significant septets of `s`, low group first.
pub open spec fn septets_le_value(s: Seq<u8>, i: int) -> nat
    decreases i,
{
    if i <= 0 {
        0
    } else {
        septets_le_value(s, i - 1) + ((s[i - 1] as nat) % 128) * pow128((i - 1) as nat)
    }
}

impl U64BE {
    /// Splits `num` into ten septets, least significant group first.
    pub fn into_septets_le(num: u64) -> (r: [u8; 10])
        ensures
            forall|i: int| 0 <= i < 10 ==> r@[i] as nat == septet_at(num as nat, i as nat),
    {
        proof {
            broadcast use vstd::array::group_array_axioms;

        }
        let mut arr: [u8; 10] = [0; 10];
        let mut m: u64 = num;
        let mut i: usize = 0;
        proof {
            assert(pow128(0nat) == 1);
            assert((num as nat) / 1 == num as nat);
        }
        while i < 10
            invariant
                0 <= i <= 10,
                m as nat == (num as nat) / pow128(i as nat),
                forall|j: int| 0 <= j < i ==> arr@[j] as nat == septet_at(num as nat, j as nat),
            decreases 10 - i,
        {
            proof {
                broadcast use vstd::array::group_array_axioms;

                lemma_pow128_pos(i as nat);
                assert(pow128((i + 1) as nat) == 128 * pow128(i as nat));
                vstd::arithmetic::div_mod::lemma_div_denominator(
                    num as int,
                    pow128(i as nat) as int,
                    128,
                );
                assert((num as nat) / (pow128(i as nat) * 128) == (num as nat) / pow128(
                    (i + 1) as nat,
                ));
            }
            arr[i] = (m % 128) as u8;
            m = m / 128;
            i = i + 1;
        }
        arr
    }

    /// Splits `num` into ten septets, most significant group first.
    pub fn into_septets_be(num: u64) -> (r: [u8; 10])
        ensures
            forall|i: int| 0 <= i < 10 ==> r@[i] as nat == septet_at(num as nat, (9 - i) as nat),
    {
        proof {
            broadcast use vstd::array::group_array_axioms;

        }
        let le = Self::into_septets_le(num);
        let mut arr: [u8; 10] = [0; 10];
        let mut i: usize = 0;
        while i < 10
            invariant
                0 <= i <= 10,
                forall|j: int| 0 <= j < 10 ==> le@[j] as nat == septet_at(num as nat, j as nat),
                forall|j: int| 0 <= j < i ==> arr@[j] as nat == septet_at(
                    num as nat,
                    (9 - j) as nat,
                ),
            decreases 10 - i,
        {
            arr[i] = le[9 - i];
            i = i + 1;
        }
        arr
    }

    /// Reassembles a value from ten septets given least significant group
    /// first, keeping the low 64 bits.
    pub fn from_septets_le(septets_le: [u8; 10]) -> (r: u64)
        ensures
            r as nat == septets_le_value(septets_le@, 10) % 0x1_0000_0000_0000_0000,
    {
        proof {
            broadcast use vstd::array::group_array_axioms;

            lemma_pow128_10();
        }
        let mut acc: u128 = 0;
        let mut p: u128 = 1;
        let mut i: usize = 0;
        while i < 10
            invariant
                0 <= i <= 10,
                p as nat == pow128(i as nat),
                acc as nat == septets_le_value(septets_le@, i as int),
                (acc as nat) < pow128(i as nat),
                pow128(10) == 0x40_0000_0000_0000_0000,
            decreases 10 - i,
        {
            proof {
                broadcast use vstd::array::group_array_axioms;

                lemma_pow128_le((i + 1) as nat, 10);
                assert(pow128((i + 1) as nat) == 128 * pow128(i as nat));
                assert(acc + 127 * p < 128 * pow128(i as nat)) by (nonlinear_arith)
                    requires
                        acc < pow128(i as nat),
                        p == pow128(i as nat),
                {
                }
                assert(((septets_le@[i as int] as nat) % 128) * pow128(i as nat) <= 127 * p)
                    by (nonlinear_arith)
                    requires
                        p == pow128(i as nat),
                        (septets_le@[i as int] as nat) % 128 <= 127,
                {
                }
            }
            acc = acc + ((septets_le[i] % 128) as u128) * p;
            if i < 9 {
                p = p * 128;
            } else {
                proof {
                    reveal_with_fuel(pow128, 11);
                }
                p = p * 128;
            }
            i = i + 1;
        }
        (acc % 0x1_0000_0000_0000_0000u128) as u64
    }

    /// Reassembles a value from ten septets given most significant group
    /// first.
    pub fn from_septets_be(septets_be: [u8; 10]) -> (r: u64)
        ensures
            ({
                let rev = septets_be@.reverse();
                r as nat == septets_le_value(rev, 10) % 0x1_0000_0000_0000_0000
            }),
    {
        proof {
            broadcast use vstd::array::group_array_axioms;

        }
        let mut le: [u8; 10] = [0; 10];
        let mut i: usize = 0;
        while i < 10
            invariant
                0 <= i <= 10,
                forall|j: int| 0 <= j < i ==> le@[j] == septets_be@[9 - j],
            decreases 10 - i,
        {
            le[i] = septets_be[9 - i];
            i = i + 1;
        }
        proof {
            assert(le@ =~= septets_be@.reverse());
        }
        Self::from_septets_le(le)
    }
}

/// The variable-length codec narrowed to `usize`; decoding fails with
/// `ConversionFailure` when the 64-bit value does not fit.
pub struct USizeBE;

impl USizeBE {
    pub fn codec() -> (r: Self)
        ensures
            r == USizeBE,
    {
        USizeBE
    }
}

impl Default for USizeBE {
    fn default() -> (r: Self)
        ensures
            r == USizeBE,
    {
        USizeBE
    }
}

impl Measurer for USizeBE {
    type Decoded = usize;

    open spec fn spec_enc(&self, v: usize) -> Option<Seq<u8>> {
        Some(varint_enc(v as nat))
    }

    fn measure(&self, decoded: &usize) -> (r: Result<usize, EncodeError>) {
        let wide: u64 = *decoded as u64;
        U64BE.measure(&wide)
    }
}

impl Encoder for USizeBE {
    fn encode(
        &self,
        decoded: &usize,
        encoded: &mut Vec<u8>,
        offset: &mut usize,
    ) -> (r: Result<(), EncodeError>) {
        let wide: u64 = *decoded as u64;
        U64BE.encode(&wide, encoded, offset)
    }
}

impl<'e> BorrowedDecoder<'e> for USizeBE {
    type BDecoded = usize;

    open spec fn spec_dec(&self, buf: Seq<u8>, pos: int) -> Result<(usize, int), DecodeError> {
        match varint_dec(buf, pos) {
            Ok((n, end)) => if n <= usize::MAX {
                Ok((n as usize, end))
            } else {
                Err(DecodeError::ConversionFailure)
            },
            Err(e) => Err(e),
        }
    }

    open spec fn canonical(&self) -> bool {
        false
    }

    open spec fn short_input_eof(&self) -> bool {
        true
    }

    /// Whenever the wide varint decodes the cursor sits exactly after it,
    /// also when the narrowing then fails.
    fn borrowed_decode(&self, encoded: &'e [u8], offset: &mut usize) -> (r: Result<
        usize,
        DecodeError,
    >)
        ensures
            varint_dec(encoded@, *old(offset) as int) matches Ok((n, end)) ==> *final(offset)
                == end,
    {
        let wide = U64BE.borrowed_decode(encoded, offset)?;
        if wide > usize::MAX as u64 {
            return Err(DecodeError::ConversionFailure);
        }
        Ok(wide as usize)
    }

    proof fn lemma_round_trip(&self, buf: Seq<u8>, pos: int, v: usize) {
        lemma_varint_round_trip(buf, pos, v as nat);
    }

    proof fn lemma_canonical(&self, buf: Seq<u8>, pos: int) {
    }

    proof fn lemma_short_eof(&self, buf: Seq<u8>, pos: int, v: usize, k: int) {
        U64BE.lemma_short_eof(buf, pos, v as u64, k);
    }
}

/// The variable-length codec narrowed to `u32`.
pub struct U32BE;

impl U32BE {
    pub fn codec() -> (r: Self)
        ensures
            r == U32BE,
    {
        U32BE
    }
}

impl Default for U32BE {
    fn default() -> (r: Self)
        ensures
            r == U32BE,
    {
        U32BE
    }
}

impl Measurer for U32BE {
    type Decoded = u32;

    open spec fn spec_enc(&self, v: u32) -> Option<Seq<u8>> {
        Some(varint_enc(v as nat))
    }

    fn measure(&self, decoded: &u32) -> (r: Result<usize, EncodeError>) {
        let wide: u64 = *decoded as u64;
        U64BE.measure(&wide)
    }
}

impl Encoder for U32BE {
    fn encode(
        &self,
        decoded: &u32,
        encoded: &mut Vec<u8>,
        offset: &mut usize,
    ) -> (r: Result<(), EncodeError>) {
        let wide: u64 = *decoded as u64;
        U64BE.encode(&wide, encoded, offset)
    }
}

impl<'e> BorrowedDecoder<'e> for U32BE {
    type BDecoded = u32;

    open spec fn spec_dec(&self, buf: Seq<u8>, pos: int) -> Result<(u32, int), DecodeError> {
        match varint_dec(buf, pos) {
            Ok((n, end)) => if n <= u32::MAX {
                Ok((n as u32, end))
            } else {
                Err(DecodeError::ConversionFailure)
            },
            Err(e) => Err(e),
        }
    }

    open spec fn canonical(&self) -> bool {
        false
    }

    open spec fn short_input_eof(&self) -> bool {
        true
    }

    /// Whenever the wide varint decodes the cursor sits exactly after it,
    /// also when the narrowing then fails.
    fn borrowed_decode(&self, encoded: &'e [u8], offset: &mut usize) -> (r: Result<
        u32,
        DecodeError,
    >)
        ensures
            varint_dec(encoded@, *old(offset) as int) matches Ok((n, end)) ==> *final(offset)
                == end,
    {
        let wide = U64BE.borrowed_decode(encoded, offset)?;
        if wide > u32::MAX as u64 {
            return Err(DecodeError::ConversionFailure);
        }
        Ok(wide as u32)
    }

    proof fn lemma_round_trip(&self, buf: Seq<u8>, pos: int, v: u32) {
        lemma_varint_round_trip(buf, pos, v as nat);
    }

    proof fn lemma_canonical(&self, buf: Seq<u8>, pos: int) {
    }

    proof fn lemma_short_eof(&self, buf: Seq<u8>, pos: int, v: u32, k: int) {
        U64BE.lemma_short_eof(buf, pos, v as u64, k);
    }
}

/// The variable-length codec narrowed to `u16`.
pub struct U16BE;

impl U16BE {
    pub fn codec() -> (r: Self)
        ensures
            r == U16BE,
    {
        U16BE
    }
}

impl Default for U16BE {
    fn default() -> (r: Self)
        ensures
            r == U16BE,
    {
        U16BE
    }
}

impl Measurer for U16BE {
    type Decoded = u16;

    open spec fn spec_enc(&self, v: u16) -> Option<Seq<u8>> {
        Some(varint_enc(v as nat))
    }

    fn measure(&self, decoded: &u16) -> (r: Result<usize, EncodeError>) {
        let wide: u64 = *decoded as u64;
        U64BE.measure(&wide)
    }
}

impl Encoder for U16BE {
    fn encode(
        &self,
        decoded: &u16,
        encoded: &mut Vec<u8>,
        offset: &mut usize,
    ) -> (r: Result<(), EncodeError>) {
        let wide: u64 = *decoded as u64;
        U64BE.encode(&wide, encoded, offset)
    }
}

impl<'e> BorrowedDecoder<'e> for U16BE {
    type BDecoded = u16;

    open spec fn spec_dec(&self, buf: Seq<u8>, pos: int) -> Result<(u16, int), DecodeError> {
        match varint_dec(buf, pos) {
            Ok((n, end)) => if n <= u16::MAX {
                Ok((n as u16, end))
            } else {
                Err(DecodeError::ConversionFailure)
            },
            Err(e) => Err(e),
        }
    }

    open spec fn canonical(&self) -> bool {
        false
    }

    open spec fn short_input_eof(&self) -> bool {
        true
    }

    /// Whenever the wide varint decodes the cursor sits exactly after it,
    /// also when the narrowing then fails.
    fn borrowed_decode(&self, encoded: &'e [u8], offset: &mut usize) -> (r: Result<
        u16,
        DecodeError,
    >)
        ensures
            varint_dec(encoded@, *old(offset) as int) matches Ok((n, end)) ==> *final(offset)
                == end,
    {
        let wide = U64BE.borrowed_decode(encoded, offset)?;
        if wide > u16::MAX as u64 {
            return Err(DecodeError::ConversionFailure);
        }
        Ok(wide as u16)
    }

    proof fn lemma_round_trip(&self, buf: Seq<u8>, pos: int, v: u16) {
        lemma_varint_round_trip(buf, pos, v as nat);
    }

    proof fn lemma_canonical(&self, buf: Seq<u8>, pos: int) {
    }

    proof fn lemma_short_eof(&self, buf: Seq<u8>, pos: int, v: u16, k: int) {
        U64BE.lemma_short_eof(buf, pos, v as u64, k);
    }
}

} // verus!

verus! {

/// The concatenated encodings of the items of `v` from index `i` on, or
/// `None` if any of them is not encodable.
pub open spec fn enc_items_from<I: Measurer>(
    item: I,
    v: Seq<<I::Decoded as DeepView>::V>,
    i: int,
) -> Option<Seq<u8>>
    decreases v.len() - i,
{
    if i < 0 || i >= v.len() {
        Some(Seq::empty())
    } else {
        match item.spec_enc(v[i]) {
            None => None,
            Some(s0) => match enc_items_from(item, v, i + 1) {
                None => None,
                Some(rest) => Some(s0 + rest),
            },
        }
    }
}

/// Decoding `count` items in order starting at `pos`: the decoded
/// abstractions in order and the cursor after them, or the first error.
pub open spec fn dec_items<'e, I: BorrowedDecoder<'e>>(
    item: I,
    buf: Seq<u8>,
    pos: int,
    count: int,
) -> Result<(Seq<<I::Decoded as DeepView>::V>, int), DecodeError>
    decreases count,
{
    if count <= 0 {
        Ok((Seq::empty(), pos))
    } else {
        match item.spec_dec(buf, pos) {
            Err(e) => Err(e),
            Ok((v0, p1)) => match dec_items(item, buf, p1, count - 1) {
                Err(e) => Err(e),
                Ok((rest, end)) => Ok((seq![v0] + rest, end)),
            },
        }
    }
}

/// A length-prefixed sequence: a length codec for the count, then each item
/// in order with the item codec.
pub struct List<Length, Item> {
    pub length: Length,
    pub item: Item,
}

impl<Length, Item> List<Length, Item> {
    pub fn codec(length: Length, item: Item) -> (r: Self)
        ensures
            r.length == length,
            r.item == item,
    {
        Self { length, item }
    }
}

impl<Length: Default, Item: Default> Default for List<Length, Item> {
    fn default() -> (r: Self)
        ensures
            call_ensures(Length::default, (), r.length),
            call_ensures(Item::default, (), r.item),
    {
        Self { length: Length::default(), item: Item::default() }
    }
}

impl<Length, Item> Measurer for List<Length, Item> where
    Length: Measurer<Decoded = usize>,
    Item: Measurer,
 {
    type Decoded = Vec<Item::Decoded>;

    open spec fn spec_enc(&self, v: Seq<<Item::Decoded as DeepView>::V>) -> Option<Seq<u8>> {
        if v.len() > usize::MAX {
            None
        } else {
            match (self.length.spec_enc(v.len() as usize), enc_items_from(self.item, v, 0)) {
                (Some(p), Some(items)) => if p.len() + items.len() <= usize::MAX {
                    Some(p + items)
                } else {
                    None
                },
                _ => None,
            }
        }
    }

    open spec fn spec_enc_fail(&self, v: Seq<<Item::Decoded as DeepView>::V>, e: EncodeError) -> bool {
        ||| (v.len() <= usize::MAX && self.length.spec_enc(v.len() as usize) is None
            && self.length.spec_enc_fail(v.len() as usize, e))
        ||| (exists|i: int|
            0 <= i < v.len() && (#[trigger] self.item.spec_enc(v[i])) is None
                && self.item.spec_enc_fail(v[i], e))
        ||| e == EncodeError::InvalidUSize
    }

    fn measure(&self, decoded: &Vec<Item::Decoded>) -> (r: Result<usize, EncodeError>) {
        let ghost dv = decoded.deep_view();
        let n: usize = decoded.len();
        proof {
            assert(dv.len() == n);
        }
        let prefix = self.length.measure(&n)?;
        let mut total: usize = prefix;
        let mut idx: usize = 0;
        while idx < decoded.len()
            invariant
                self.length.spec_enc(dv.len() as usize) matches Some(p) && p.len() <= total,
                dv.len() == decoded.len() <= usize::MAX,
                0 <= idx <= decoded.len(),
                dv == decoded.deep_view(),
                match enc_items_from(self.item, dv, idx as int) {
                    None => self.spec_enc(dv) is None,
                    Some(rest) => {
                        &&& (self.spec_enc(dv) matches Some(s) ==> s.len() == total + rest.len())
                        &&& (self.spec_enc(dv) is None ==> total + rest.len() > usize::MAX)
                    },
                },
            decreases decoded.len() - idx,
        {
            proof {
                assert(decoded.deep_view()[idx as int] == decoded@[idx as int].deep_view());
            }
            let m = match self.item.measure(&decoded[idx]) {
                Ok(m) => m,
                Err(e) => {
                    return Err(e);
                },
            };
            if m > usize::MAX - total {
                return Err(EncodeError::InvalidUSize);
            }
            total = total + m;
            idx = idx + 1;
        }
        Ok(total)
    }
}

impl<Length, Item> Encoder for List<Length, Item> where
    Length: Encoder<Decoded = usize>,
    Item: Encoder,
 {
    fn encode(
        &self,
        decoded: &Vec<Item::Decoded>,
        encoded: &mut Vec<u8>,
        offset: &mut usize,
    ) -> (r: Result<(), EncodeError>) {
        let ghost dv = decoded.deep_view();
        let ghost at = *offset as int;
        let n: usize = decoded.len();
        proof {
            assert(dv.len() == n);
        }
        match self.length.encode(&n, encoded, offset) {
            Ok(()) => {
            },
            Err(e) => {
                return Err(e);
            },
        }
        let ghost prefix = self.length.spec_enc(n).unwrap();
        let mut idx: usize = 0;
        while idx < decoded.len()
            invariant
                encoded.len() == old(encoded).len(),
                at == *old(offset) as int,
                self.length.spec_enc(dv.len() as usize) == Some(prefix),
                dv.len() == decoded.len() <= usize::MAX,
                0 <= idx <= decoded.len(),
                dv == decoded.deep_view(),
                at <= *offset <= encoded.len(),
                ({
                    let written = encoded@.subrange(at, *offset as int);
                    &&& spliced(old(encoded)@, encoded@, at, written)
                    &&& written.len() >= prefix.len()
                    &&& written.subrange(0, prefix.len() as int) == prefix
                    &&& match enc_items_from(self.item, dv, idx as int) {
                        None => self.spec_enc(dv) is None,
                        Some(rest) => {
                            &&& (self.spec_enc(dv) matches Some(s) ==> s == written + rest)
                            &&& (self.spec_enc(dv) is None ==> written.len() + rest.len()
                                > usize::MAX)
                        },
                    }
                }),
            decreases decoded.len() - idx,
        {
            let ghost mid = encoded@;
            let ghost off_mid = *offset as int;
            let r = self.item.encode(&decoded[idx], encoded, offset);
            proof {
                assert(decoded.deep_view()[idx as int] == decoded@[idx as int].deep_view());
                let written = mid.subrange(at, off_mid);
                match r {
                    Ok(()) => {
                        let si = self.item.spec_enc(dv[idx as int]).unwrap();
                        crate::bytes::lemma_spliced_concat(
                            old(encoded)@,
                            mid,
                            encoded@,
                            at,
                            written,
                            si,
                        );
                        assert(encoded@.subrange(at, *offset as int) == written + si) by {
                            assert(spliced(mid, encoded@, off_mid, si));
                            assert(encoded@.subrange(at, *offset as int) =~= written + si);
                        }
                        assert((written + si).subrange(0, prefix.len() as int) =~= prefix);
                    },
                    Err(_) => {
                        crate::bytes::lemma_spliced_prefix_eq(
                            old(encoded)@,
                            mid,
                            at,
                            written,
                            at,
                        );
                    },
                }
            }
            match r {
                Ok(()) => {
                },
                Err(e) => {
                    return Err(e);
                },
            }
            idx = idx + 1;
        }
        proof {
            let written = encoded@.subrange(at, *offset as int);
            assert(enc_items_from(self.item, dv, dv.len() as int) == Some(Seq::<u8>::empty()));
            assert(written + Seq::<u8>::empty() =~= written);
            assert(self.spec_enc(dv) matches Some(s) ==> s == written);
            assert(written.len() <= usize::MAX);
            if self.spec_enc(dv) is None {
                assert(false);
            }
        }
        Ok(())
    }
}

/// The decodings of the first items compose with the remaining ones: used
/// to move one decoded item out of the recursion.
pub proof fn lemma_dec_items_unfold<'e, I: BorrowedDecoder<'e>>(
    item: I,
    buf: Seq<u8>,
    pos: int,
    count: int,
)
    requires
        count > 0,
    ensures
        dec_items(item, buf, pos, count) == (match item.spec_dec(buf, pos) {
            Err(e) => Err(e),
            Ok((v0, p1)) => match dec_items(item, buf, p1, count - 1) {
                Err(e) => Err(e),
                Ok((rest, end)) => Ok((seq![v0] + rest, end)),
            },
        }),
{
}

impl<'e, Length, Item> BorrowedDecoder<'e> for List<Length, Item> where
    Length: for<'x> BorrowedDecoder<'x, Decoded = usize, BDecoded = usize>,
    Item: BorrowedDecoder<'e>,
 {
    type BDecoded = Vec<Item::BDecoded>;

    open spec fn spec_dec(&self, buf: Seq<u8>, pos: int) -> Result<
        (Seq<<Item::Decoded as DeepView>::V>, int),
        DecodeError,
    > {
        match self.length.spec_dec(buf, pos) {
            Err(e) => Err(e),
            Ok((n, p1)) => dec_items(self.item, buf, p1, n as int),
        }
    }

    open spec fn canonical(&self) -> bool {
        self.length.canonical() && self.item.canonical()
    }

    open spec fn short_input_eof(&self) -> bool {
        self.length.short_input_eof() && self.item.short_input_eof()
    }

    fn borrowed_decode(&self, encoded: &'e [u8], offset: &mut usize) -> (r: Result<
        Vec<Item::BDecoded>,
        DecodeError,
    >) {
        let n: usize = match self.length.borrowed_decode(encoded, offset) {
            Ok(n) => n,
            Err(e) => {
                return Err(e);
            },
        };
        let mut out: Vec<Item::BDecoded> = Vec::new();
        let mut remaining: usize = n;
        proof {
            assert(out.deep_view() =~= Seq::<<Item::Decoded as DeepView>::V>::empty());
        }
        while remaining > 0
            invariant
                *old(offset) <= *offset <= encoded.len(),
                remaining <= n,
                ({
                    let whole = match self.length.spec_dec(encoded@, *old(offset) as int) {
                        Err(e) => Err(e),
                        Ok((n2, p1)) => dec_items(self.item, encoded@, p1, n2 as int),
                    };
                    whole == match dec_items(
                        self.item,
                        encoded@,
                        *offset as int,
                        remaining as int,
                    ) {
                        Err(e) => Err(e),
                        Ok((rest, end)) => Ok((out.deep_view() + rest, end)),
                    }
                }),
            decreases remaining,
        {
            let ghost out0 = out;
            let ghost pos0 = *offset as int;
            let item = match self.item.borrowed_decode(encoded, offset) {
                Ok(d) => d,
                Err(e) => {
                    return Err(e);
                },
            };
            out.push(item);
            remaining = remaining - 1;
            proof {
                lemma_dec_items_unfold(self.item, encoded@, pos0, remaining as int + 1);
                crate::lemma_vec_push_deep_view(out0, out, item);
                match dec_items(self.item, encoded@, *offset as int, remaining as int) {
                    Err(_) => {
                    },
                    Ok((rest, end)) => {
                        assert(out0.deep_view() + (seq![item.deep_view()] + rest)
                            =~= out.deep_view() + rest);
                    },
                }
            }
        }
        proof {
            assert(dec_items(self.item, encoded@, *offset as int, 0)
                == Ok::<_, DecodeError>((Seq::<<Item::Decoded as DeepView>::V>::empty(), *offset as int)));
            assert(out.deep_view() + Seq::<<Item::Decoded as DeepView>::V>::empty()
                =~= out.deep_view());
        }
        Ok(out)
    }

    proof fn lemma_round_trip(
        &self,
        buf: Seq<u8>,
        pos: int,
        v: Seq<<Item::Decoded as DeepView>::V>,
    ) {
        let p = self.length.spec_enc(v.len() as usize).unwrap();
        let items = enc_items_from(self.item, v, 0).unwrap();
        let s = self.spec_enc(v).unwrap();
        assert(s == p + items);
        assert(buf.subrange(pos, pos + p.len() as int) == p) by {
            assert forall|j: int| 0 <= j < p.len() implies buf.subrange(
                pos,
                pos + p.len() as int,
            )[j] == p[j] by {
                assert(buf.subrange(pos, pos + s.len() as int)[j] == buf[pos + j]);
                assert((p + items)[j] == p[j]);
            }
            assert(buf.subrange(pos, pos + p.len() as int) =~= p);
        }
        self.length.lemma_round_trip(buf, pos, v.len() as usize);
        assert(buf.subrange(pos + p.len(), pos + s.len() as int) == items) by {
            assert forall|j: int| 0 <= j < items.len() implies buf.subrange(
                pos + p.len(),
                pos + s.len() as int,
            )[j] == items[j] by {
                assert(buf.subrange(pos, pos + s.len() as int)[p.len() + j] == buf[pos + p.len()
                    + j]);
                assert((p + items)[p.len() + j] == items[j]);
            }
            assert(buf.subrange(pos + p.len(), pos + s.len() as int) =~= items);
        }
        lemma_dec_items_round_trip(self.item, buf, v, 0, pos + p.len() as int);
        assert(v.subrange(0, v.len() as int) == v);
    }

    proof fn lemma_canonical(&self, buf: Seq<u8>, pos: int) {
        if self.spec_dec(buf, pos) is Ok {
            let (n, p1) = self.length.spec_dec(buf, pos).unwrap();
            self.length.lemma_canonical(buf, pos);
            let p = buf.subrange(pos, p1);
            lemma_dec_items_canonical(self.item, buf, p1, n as int);
            let (vs, end) = dec_items(self.item, buf, p1, n as int).unwrap();
            let items = buf.subrange(p1, end);
            assert(vs.len() == n);
            assert(self.length.spec_enc(vs.len() as usize) == Some(p));
            assert(buf.subrange(pos, end) =~= p + items);
        }
    }

    proof fn lemma_short_eof(
        &self,
        buf: Seq<u8>,
        pos: int,
        v: Seq<<Item::Decoded as DeepView>::V>,
        k: int,
    ) {
        let p = self.length.spec_enc(v.len() as usize).unwrap();
        let items = enc_items_from(self.item, v, 0).unwrap();
        let s = self.spec_enc(v).unwrap();
        assert(s == p + items);
        if k < p.len() {
            assert(buf.subrange(pos, pos + k) == p.subrange(0, k)) by {
                assert forall|j: int| 0 <= j < k implies buf.subrange(pos, pos + k)[j]
                    == p.subrange(0, k)[j] by {
                    assert(s.subrange(0, k)[j] == s[j]);
                    assert((p + items)[j] == p[j]);
                }
                assert(buf.subrange(pos, pos + k) =~= p.subrange(0, k));
            }
            self.length.lemma_short_eof(buf, pos, v.len() as usize, k);
        } else {
            assert(buf.subrange(pos, pos + p.len() as int) == p) by {
                assert forall|j: int| 0 <= j < p.len() implies buf.subrange(
                    pos,
                    pos + p.len() as int,
                )[j] == p[j] by {
                    assert(s.subrange(0, k)[j] == s[j]);
                    assert((p + items)[j] == p[j]);
                }
                assert(buf.subrange(pos, pos + p.len() as int) =~= p);
            }
            self.length.lemma_round_trip(buf, pos, v.len() as usize);
            assert(buf.subrange(pos + p.len(), pos + k) == items.subrange(0, k - p.len())) by {
                assert forall|j: int| 0 <= j < k - p.len() implies #[trigger] (buf.subrange(
                    pos + p.len(),
                    pos + k,
                )[j]) == items.subrange(0, k - p.len())[j] by {
                    assert(s.subrange(0, k)[p.len() + j] == s[p.len() + j]);
                    assert((p + items)[p.len() + j] == items[j]);
                }
                assert(buf.subrange(pos + p.len(), pos + k) =~= items.subrange(0, k - p.len()));
            }
            lemma_dec_items_short(self.item, buf, v, 0, pos + p.len() as int, k - p.len() as int);
        }
    }
}

/// Round trip for a run of items: decoding the concatenated encodings of
/// the items of `v` from `i` on yields exactly those items.
pub proof fn lemma_dec_items_round_trip<'e, I: BorrowedDecoder<'e>>(
    item: I,
    buf: Seq<u8>,
    v: Seq<<I::Decoded as DeepView>::V>,
    i: int,
    pos: int,
)
    requires
        0 <= i <= v.len(),
        0 <= pos,
        enc_items_from(item, v, i) is Some,
        pos + enc_items_from(item, v, i)->0.len() <= buf.len(),
        buf.subrange(pos, pos + enc_items_from(item, v, i)->0.len() as int) == enc_items_from(
            item,
            v,
            i,
        )->0,
    ensures
        dec_items(item, buf, pos, v.len() - i) == Ok::<_, DecodeError>(
            (v.subrange(i, v.len() as int), pos + enc_items_from(item, v, i)->0.len() as int),
        ),
    decreases v.len() - i,
{
    let bytes = enc_items_from(item, v, i)->0;
    if i == v.len() {
        assert(v.subrange(i, v.len() as int) =~= Seq::<<I::Decoded as DeepView>::V>::empty());
    } else {
        let s0 = item.spec_enc(v[i])->0;
        let rest = enc_items_from(item, v, i + 1)->0;
        assert(bytes == s0 + rest);
        assert(buf.subrange(pos, pos + s0.len() as int) == s0) by {
            assert forall|j: int| 0 <= j < s0.len() implies buf.subrange(
                pos,
                pos + s0.len() as int,
            )[j] == s0[j] by {
                assert(buf.subrange(pos, pos + bytes.len() as int)[j] == buf[pos + j]);
                assert((s0 + rest)[j] == s0[j]);
            }
            assert(buf.subrange(pos, pos + s0.len() as int) =~= s0);
        }
        item.lemma_round_trip(buf, pos, v[i]);
        assert(buf.subrange(pos + s0.len(), pos + bytes.len() as int) == rest) by {
            assert forall|j: int| 0 <= j < rest.len() implies buf.subrange(
                pos + s0.len(),
                pos + bytes.len() as int,
            )[j] == rest[j] by {
                assert(buf.subrange(pos, pos + bytes.len() as int)[s0.len() + j] == buf[pos
                    + s0.len() + j]);
                assert((s0 + rest)[s0.len() + j] == rest[j]);
            }
            assert(buf.subrange(pos + s0.len(), pos + bytes.len() as int) =~= rest);
        }
        lemma_dec_items_round_trip(item, buf, v, i + 1, pos + s0.len() as int);
        lemma_dec_items_unfold(item, buf, pos, v.len() - i);
        assert(seq![v[i]] + v.subrange(i + 1, v.len() as int) =~= v.subrange(i, v.len() as int));
    }
}

/// Canonicity for a run of items: whatever a run of `count` item decodes
/// consumed is exactly the concatenated canonical encodings of the decoded
/// items, when the item codec is canonical.
pub proof fn lemma_dec_items_canonical<'e, I: BorrowedDecoder<'e>>(
    item: I,
    buf: Seq<u8>,
    pos: int,
    count: int,
)
    requires
        item.canonical(),
        0 <= pos <= buf.len(),
        buf.len() <= usize::MAX,
        count >= 0,
        dec_items(item, buf, pos, count) is Ok,
    ensures
        ({
            let (vs, end) = dec_items(item, buf, pos, count)->Ok_0;
            &&& vs.len() == count
            &&& pos <= end <= buf.len()
            &&& enc_items_from(item, vs, 0) == Some(buf.subrange(pos, end))
        }),
    decreases count,
{
    if count <= 0 {
        let (vs, end) = dec_items(item, buf, pos, count)->Ok_0;
        assert(buf.subrange(pos, pos) =~= Seq::<u8>::empty());
    } else {
        lemma_dec_items_unfold(item, buf, pos, count);
        let (v0, p1) = item.spec_dec(buf, pos)->Ok_0;
        item.lemma_canonical(buf, pos);
        lemma_dec_items_canonical(item, buf, p1, count - 1);
        let (rest, end) = dec_items(item, buf, p1, count - 1)->Ok_0;
        let vs = seq![v0] + rest;
        assert(vs.len() == count);
        assert(vs[0] == v0);
        assert(rest =~= vs.subrange(1, vs.len() as int));
        lemma_enc_items_shift(item, vs);
        assert(item.spec_enc(v0) == Some(buf.subrange(pos, p1)));
        assert(enc_items_from(item, rest, 0) == Some(buf.subrange(p1, end)));
        assert(buf.subrange(pos, p1) + buf.subrange(p1, end) =~= buf.subrange(pos, end));
    }
}

/// Shifting a run of items by one: the encodings of all of `vs` are the
/// encoding of its first item followed by the encodings of the rest.
proof fn lemma_enc_items_shift<I: Measurer>(item: I, vs: Seq<<I::Decoded as DeepView>::V>)
    requires
        vs.len() > 0,
    ensures
        enc_items_from(item, vs, 0) == (match (
            item.spec_enc(vs[0]),
            enc_items_from(item, vs.subrange(1, vs.len() as int), 0),
        ) {
            (Some(s0), Some(rest)) => Some(s0 + rest),
            _ => None,
        }),
{
    lemma_enc_items_tail_one(item, vs, 1, 1);
    let tail = vs.subrange(1, vs.len() as int);
    assert(enc_items_from(item, vs, 1) == enc_items_from(item, tail, 0));
    assert(enc_items_from(item, vs, 0) == (match item.spec_enc(vs[0]) {
        None => None,
        Some(s0) => match enc_items_from(item, vs, 1) {
            None => None,
            Some(rest) => Some(s0 + rest),
        },
    }));
}

proof fn lemma_enc_items_tail_one<I: Measurer>(
    item: I,
    vs: Seq<<I::Decoded as DeepView>::V>,
    j: int,
    i: int,
)
    requires
        0 <= j <= i <= vs.len(),
    ensures
        enc_items_from(item, vs, i) == enc_items_from(
            item,
            vs.subrange(j, vs.len() as int),
            i - j,
        ),
    decreases vs.len() - i,
{
    let tail = vs.subrange(j, vs.len() as int);
    if i == vs.len() {
    } else {
        assert(vs[i] == tail[i - j]);
        lemma_enc_items_tail_one(item, vs, j, i + 1);
    }
}

/// A truncated run of item encodings decodes to `EOF` when the item codec
/// reports truncation as `EOF`.
pub proof fn lemma_dec_items_short<'e, I: BorrowedDecoder<'e>>(
    item: I,
    buf: Seq<u8>,
    v: Seq<<I::Decoded as DeepView>::V>,
    i: int,
    pos: int,
    k: int,
)
    requires
        item.short_input_eof(),
        0 <= i <= v.len(),
        0 <= pos,
        enc_items_from(item, v, i) is Some,
        0 <= k < enc_items_from(item, v, i)->0.len(),
        buf.len() == pos + k,
        buf.subrange(pos, pos + k) == enc_items_from(item, v, i)->0.subrange(0, k),
    ensures
        dec_items(item, buf, pos, v.len() - i) == Err::<
            (Seq<<I::Decoded as DeepView>::V>, int),
            _,
        >(DecodeError::EOF),
    decreases v.len() - i,
{
    let bytes = enc_items_from(item, v, i)->0;
    let s0 = item.spec_enc(v[i])->0;
    let rest = enc_items_from(item, v, i + 1)->0;
    assert(bytes == s0 + rest);
    lemma_dec_items_unfold(item, buf, pos, v.len() - i);
    if k < s0.len() {
        assert(buf.subrange(pos, pos + k) == s0.subrange(0, k)) by {
            assert forall|j: int| 0 <= j < k implies buf.subrange(pos, pos + k)[j]
                == s0.subrange(0, k)[j] by {
                assert(bytes.subrange(0, k)[j] == bytes[j]);
                assert((s0 + rest)[j] == s0[j]);
            }
            assert(buf.subrange(pos, pos + k) =~= s0.subrange(0, k));
        }
        item.lemma_short_eof(buf, pos, v[i], k);
    } else {
        assert(buf.subrange(pos, pos + s0.len() as int) == s0) by {
            assert forall|j: int| 0 <= j < s0.len() implies buf.subrange(
                pos,
                pos + s0.len() as int,
            )[j] == s0[j] by {
                assert(bytes.subrange(0, k)[j] == bytes[j]);
                assert((s0 + rest)[j] == s0[j]);
            }
            assert(buf.subrange(pos, pos + s0.len() as int) =~= s0);
        }
        item.lemma_round_trip(buf, pos, v[i]);
        assert(buf.subrange(pos + s0.len(), pos + k) == rest.subrange(0, k - s0.len())) by {
            assert forall|j: int| 0 <= j < k - s0.len() implies #[trigger] (buf.subrange(
                pos + s0.len(),
                pos + k,
            )[j]) == rest.subrange(0, k - s0.len())[j] by {
                assert(bytes.subrange(0, k)[s0.len() + j] == bytes[s0.len() + j]);
                assert((s0 + rest)[s0.len() + j] == rest[j]);
            }
            assert(buf.subrange(pos + s0.len(), pos + k) =~= rest.subrange(0, k - s0.len()));
        }
        lemma_dec_items_short(item, buf, v, i + 1, pos + s0.len() as int, k - s0.len() as int);
    }
}

} // verus!

verus! {

/// An optional value: one flag byte, then the item when present. On the
/// wire the flag byte `1` means absent and `0` means present followed by
/// the item, a convention kept for wire compatibility.
pub struct Opt<Item> {
    pub item: Item,
}

impl<Item> Opt<Item> {
    pub fn codec(item: Item) -> (r: Self)
        ensures
            r.item == item,
    {
        Self { item }
    }
}

impl<Item: Default> Default for Opt<Item> {
    fn default() -> (r: Self)
        ensures
            call_ensures(Item::default, (), r.item),
    {
        Self { item: Item::default() }
    }
}

impl<Item: Measurer> Measurer for Opt<Item> {
    type Decoded = Option<Item::Decoded>;

    open spec fn spec_enc(&self, v: Option<<Item::Decoded as DeepView>::V>) -> Option<Seq<u8>> {
        match v {
            None => Some(seq![1u8]),
            Some(x) => match self.item.spec_enc(x) {
                None => None,
                Some(s) => if 1 + s.len() <= usize::MAX {
                    Some(seq![0u8] + s)
                } else {
                    None
                },
            },
        }
    }

    open spec fn spec_enc_fail(
        &self,
        v: Option<<Item::Decoded as DeepView>::V>,
        e: EncodeError,
    ) -> bool {
        match v {
            None => false,
            Some(x) => (self.item.spec_enc(x) is None && self.item.spec_enc_fail(x, e))
                || e == EncodeError::InvalidUSize,
        }
    }

    fn measure(&self, decoded: &Option<Item::Decoded>) -> (r: Result<usize, EncodeError>) {
        match decoded {
            None => Ok(1),
            Some(x) => {
                let m = self.item.measure(x)?;
                if m > usize::MAX - 1 {
                    return Err(EncodeError::InvalidUSize);
                }
                Ok(1 + m)
            },
        }
    }
}

impl<Item: Encoder> Encoder for Opt<Item> {
    fn encode(
        &self,
        decoded: &Option<Item::Decoded>,
        encoded: &mut Vec<u8>,
        offset: &mut usize,
    ) -> (r: Result<(), EncodeError>) {
        match decoded {
            None => {
                let r = write_byte(encoded, offset, 1);
                proof {
                    if r is Ok {
                        lemma_spliced_byte(old(encoded)@, encoded@, *old(offset) as int, 1);
                    }
                }
                r
            },
            Some(x) => {
                let r0 = write_byte(encoded, offset, 0);
                proof {
                    if r0 is Ok {
                        lemma_spliced_byte(old(encoded)@, encoded@, *old(offset) as int, 0);
                    }
                }
                match r0 {
                    Ok(()) => {
                    },
                    Err(e) => {
                        return Err(e);
                    },
                }
                let ghost mid = encoded@;
                let ghost off_mid = *offset as int;
                let r = self.item.encode(x, encoded, offset);
                proof {
                    match self.item.spec_enc(x.deep_view()) {
                        Some(s) => {
                            if r is Ok {
                                crate::bytes::lemma_spliced_concat(
                                    old(encoded)@,
                                    mid,
                                    encoded@,
                                    *old(offset) as int,
                                    seq![0u8],
                                    s,
                                );
                            } else {
                                crate::bytes::lemma_spliced_prefix_eq(
                                    old(encoded)@,
                                    mid,
                                    *old(offset) as int,
                                    seq![0u8],
                                    *old(offset) as int,
                                );
                            }
                        },
                        None => {
                            crate::bytes::lemma_spliced_prefix_eq(
                                old(encoded)@,
                                mid,
                                *old(offset) as int,
                                seq![0u8],
                                *old(offset) as int,
                            );
                        },
                    }
                }
                r
            },
        }
    }
}

impl<'e, Item: BorrowedDecoder<'e>> BorrowedDecoder<'e> for Opt<Item> {
    type BDecoded = Option<Item::BDecoded>;

    open spec fn spec_dec(&self, buf: Seq<u8>, pos: int) -> Result<
        (Option<<Item::Decoded as DeepView>::V>, int),
        DecodeError,
    > {
        if pos < 0 || pos >= buf.len() {
            Err(DecodeError::EOF)
        } else if buf[pos] == 1u8 {
            Ok((None, pos + 1))
        } else if buf[pos] == 0u8 {
            match self.item.spec_dec(buf, pos + 1) {
                Err(e) => Err(e),
                Ok((x, end)) => Ok((Some(x), end)),
            }
        } else {
            Err(DecodeError::InvalidData)
        }
    }

    open spec fn canonical(&self) -> bool {
        self.item.canonical()
    }

    open spec fn short_input_eof(&self) -> bool {
        self.item.short_input_eof()
    }

    fn borrowed_decode(&self, encoded: &'e [u8], offset: &mut usize) -> (r: Result<
        Option<Item::BDecoded>,
        DecodeError,
    >) {
        let flag = crate::bytes::read_byte(encoded, offset)?;
        match flag {
            1 => Ok(None),
            0 => {
                let x = match self.item.borrowed_decode(encoded, offset) {
                    Ok(x) => x,
                    Err(e) => {
                        return Err(e);
                    },
                };
                Ok(Some(x))
            },
            _ => Err(DecodeError::InvalidData),
        }
    }

    proof fn lemma_round_trip(
        &self,
        buf: Seq<u8>,
        pos: int,
        v: Option<<Item::Decoded as DeepView>::V>,
    ) {
        let s = self.spec_enc(v)->0;
        match v {
            None => {
                assert(buf[pos] == buf.subrange(pos, pos + 1)[0]);
            },
            Some(x) => {
                let si = self.item.spec_enc(x)->0;
                assert(s == seq![0u8] + si);
                assert(buf[pos] == buf.subrange(pos, pos + s.len() as int)[0]);
                assert(buf[pos] == 0u8);
                assert(buf.subrange(pos + 1, pos + s.len() as int) == si) by {
                    assert forall|j: int| 0 <= j < si.len() implies #[trigger] (buf.subrange(
                        pos + 1,
                        pos + s.len() as int,
                    )[j]) == si[j] by {
                        assert(buf.subrange(pos, pos + s.len() as int)[1 + j] == buf[pos + 1 + j]);
                        assert((seq![0u8] + si)[1 + j] == si[j]);
                    }
                    assert(buf.subrange(pos + 1, pos + s.len() as int) =~= si);
                }
                self.item.lemma_round_trip(buf, pos + 1, x);
            },
        }
    }

    proof fn lemma_canonical(&self, buf: Seq<u8>, pos: int) {
        if self.spec_dec(buf, pos) is Ok {
            if buf[pos] == 1u8 {
                assert(buf.subrange(pos, pos + 1) =~= seq![1u8]);
            } else {
                let (x, end) = self.item.spec_dec(buf, pos + 1)->Ok_0;
                self.item.lemma_canonical(buf, pos + 1);
                let si = buf.subrange(pos + 1, end);
                assert(buf.subrange(pos, end) =~= seq![0u8] + si);
            }
        }
    }

    proof fn lemma_short_eof(
        &self,
        buf: Seq<u8>,
        pos: int,
        v: Option<<Item::Decoded as DeepView>::V>,
        k: int,
    ) {
        let s = self.spec_enc(v)->0;
        if k == 0 {
        } else {
            match v {
                None => {
                },
                Some(x) => {
                    let si = self.item.spec_enc(x)->0;
                    assert(s == seq![0u8] + si);
                    assert(buf[pos] == s.subrange(0, k)[0]);
                    assert(buf[pos] == 0u8);
                    assert(buf.subrange(pos + 1, pos + k) == si.subrange(0, k - 1)) by {
                        assert forall|j: int| 0 <= j < k - 1 implies #[trigger] (buf.subrange(
                            pos + 1,
                            pos + k,
                        )[j]) == si.subrange(0, k - 1)[j] by {
                            assert(buf.subrange(pos, pos + k)[1 + j] == buf[pos + 1 + j]);
                            assert(s.subrange(0, k)[1 + j] == s[1 + j]);
                            assert((seq![0u8] + si)[1 + j] == si[j]);
                        }
                        assert(buf.subrange(pos + 1, pos + k) =~= si.subrange(0, k - 1));
                    }
                    self.item.lemma_short_eof(buf, pos + 1, x, k - 1);
                },
            }
        }
    }
}

/// A length-prefixed run of raw bytes.
pub struct Slice<Length> {
    pub length: Length,
}

impl<Length> Slice<Length> {
    pub fn codec(length: Length) -> (r: Self)
        ensures
            r.length == length,
    {
        Self { length }
    }
}

impl<Length: Default> Default for Slice<Length> {
    fn default() -> (r: Self)
        ensures
            call_ensures(Length::default, (), r.length),
    {
        Self { length: Length::default() }
    }
}

impl<Length: Measurer<Decoded = usize>> Measurer for Slice<Length> {
    type Decoded = Vec<u8>;

    open spec fn spec_enc(&self, v: Seq<u8>) -> Option<Seq<u8>> {
        if v.len() > usize::MAX {
            None
        } else {
            match self.length.spec_enc(v.len() as usize) {
                None => None,
                Some(p) => if p.len() + v.len() <= usize::MAX {
                    Some(p + v)
                } else {
                    None
                },
            }
        }
    }

    open spec fn spec_enc_fail(&self, v: Seq<u8>, e: EncodeError) -> bool {
        (v.len() <= usize::MAX && self.length.spec_enc(v.len() as usize) is None
            && self.length.spec_enc_fail(v.len() as usize, e)) || e == EncodeError::InvalidUSize
    }

    fn measure(&self, decoded: &Vec<u8>) -> (r: Result<usize, EncodeError>) {
        proof {
            crate::bytes::lemma_vec_u8_deep_view(*decoded);
        }
        let n: usize = decoded.len();
        let prefix = self.length.measure(&n)?;
        if n > usize::MAX - prefix {
            return Err(EncodeError::InvalidUSize);
        }
        Ok(prefix + n)
    }
}

impl<Length: Encoder<Decoded = usize>> Encoder for Slice<Length> {
    fn encode(
        &self,
        decoded: &Vec<u8>,
        encoded: &mut Vec<u8>,
        offset: &mut usize,
    ) -> (r: Result<(), EncodeError>) {
        proof {
            crate::bytes::lemma_vec_u8_deep_view(*decoded);
        }
        let n: usize = decoded.len();
        match self.length.encode(&n, encoded, offset) {
            Ok(()) => {
            },
            Err(e) => {
                return Err(e);
            },
        }
        let ghost mid = encoded@;
        let ghost p = self.length.spec_enc(n).unwrap();
        let r = crate::bytes::write_run(encoded, offset, decoded.as_slice());
        proof {
            if r is Ok {
                crate::bytes::lemma_spliced_concat(
                    old(encoded)@,
                    mid,
                    encoded@,
                    *old(offset) as int,
                    p,
                    decoded@,
                );
            } else {
                crate::bytes::lemma_spliced_prefix_eq(
                    old(encoded)@,
                    mid,
                    *old(offset) as int,
                    p,
                    *old(offset) as int,
                );
            }
        }
        r
    }
}

impl<'e, Length> BorrowedDecoder<'e> for Slice<Length> where
    Length: for<'x> BorrowedDecoder<'x, Decoded = usize, BDecoded = usize>,
 {
    type BDecoded = &'e [u8];

    open spec fn spec_dec(&self, buf: Seq<u8>, pos: int) -> Result<(Seq<u8>, int), DecodeError> {
        match self.length.spec_dec(buf, pos) {
            Err(e) => Err(e),
            Ok((n, p1)) => if p1 + n <= buf.len() {
                Ok((buf.subrange(p1, p1 + n), p1 + n))
            } else {
                Err(DecodeError::EOF)
            },
        }
    }

    open spec fn canonical(&self) -> bool {
        self.length.canonical()
    }

    open spec fn short_input_eof(&self) -> bool {
        self.length.short_input_eof()
    }

    fn borrowed_decode(&self, encoded: &'e [u8], offset: &mut usize) -> (r: Result<
        &'e [u8],
        DecodeError,
    >) {
        let n: usize = match self.length.borrowed_decode(encoded, offset) {
            Ok(n) => n,
            Err(e) => {
                return Err(e);
            },
        };
        let run = crate::bytes::read_run(encoded, offset, n)?;
        proof {
            crate::bytes::lemma_slice_u8_deep_view(run);
        }
        Ok(run)
    }

    proof fn lemma_round_trip(&self, buf: Seq<u8>, pos: int, v: Seq<u8>) {
        let p = self.length.spec_enc(v.len() as usize).unwrap();
        let s = self.spec_enc(v).unwrap();
        assert(s == p + v);
        assert(buf.subrange(pos, pos + p.len() as int) == p) by {
            assert forall|j: int| 0 <= j < p.len() implies #[trigger] (buf.subrange(
                pos,
                pos + p.len() as int,
            )[j]) == p[j] by {
                assert(buf.subrange(pos, pos + s.len() as int)[j] == buf[pos + j]);
                assert((p + v)[j] == p[j]);
            }
            assert(buf.subrange(pos, pos + p.len() as int) =~= p);
        }
        self.length.lemma_round_trip(buf, pos, v.len() as usize);
        assert(buf.subrange(pos + p.len(), pos + s.len() as int) == v) by {
            assert forall|j: int| 0 <= j < v.len() implies #[trigger] (buf.subrange(
                pos + p.len(),
                pos + s.len() as int,
            )[j]) == v[j] by {
                assert(buf.subrange(pos, pos + s.len() as int)[p.len() + j] == buf[pos + p.len()
                    + j]);
                assert((p + v)[p.len() + j] == v[j]);
            }
            assert(buf.subrange(pos + p.len(), pos + s.len() as int) =~= v);
        }
    }

    proof fn lemma_canonical(&self, buf: Seq<u8>, pos: int) {
        if self.spec_dec(buf, pos) is Ok {
            let (n, p1) = self.length.spec_dec(buf, pos)->Ok_0;
            self.length.lemma_canonical(buf, pos);
            let vs = buf.subrange(p1, p1 + n);
            assert(vs.len() == n);
            assert(buf.subrange(pos, p1 + n) =~= buf.subrange(pos, p1) + vs);
        }
    }

    proof fn lemma_short_eof(&self, buf: Seq<u8>, pos: int, v: Seq<u8>, k: int) {
        let p = self.length.spec_enc(v.len() as usize).unwrap();
        let s = self.spec_enc(v).unwrap();
        assert(s == p + v);
        if k < p.len() {
            assert(buf.subrange(pos, pos + k) == p.subrange(0, k)) by {
                assert forall|j: int| 0 <= j < k implies #[trigger] (buf.subrange(pos, pos + k)[j])
                    == p.subrange(0, k)[j] by {
                    assert(s.subrange(0, k)[j] == s[j]);
                    assert((p + v)[j] == p[j]);
                }
                assert(buf.subrange(pos, pos + k) =~= p.subrange(0, k));
            }
            self.length.lemma_short_eof(buf, pos, v.len() as usize, k);
        } else {
            assert(buf.subrange(pos, pos + p.len() as int) == p) by {
                assert forall|j: int| 0 <= j < p.len() implies #[trigger] (buf.subrange(
                    pos,
                    pos + p.len() as int,
                )[j]) == p[j] by {
                    assert(s.subrange(0, k)[j] == s[j]);
                    assert((p + v)[j] == p[j]);
                }
                assert(buf.subrange(pos, pos + p.len() as int) =~= p);
            }
            self.length.lemma_round_trip(buf, pos, v.len() as usize);
        }
    }
}

/// Every byte from the cursor to the end of the buffer, with no framing.
/// Only meaningful as the last field of a record, so it is not a composable
/// decoder: decoding it never fails and always consumes the rest.
pub struct Remaining;

impl Default for Remaining {
    fn default() -> (r: Self)
        ensures
            r == Remaining,
    {
        Remaining
    }
}

impl Remaining {
    pub fn codec() -> (r: Self)
        ensures
            r == Remaining,
    {
        Remaining
    }

    /// Returns the rest of the buffer and moves the cursor to its end.
    pub fn borrowed_decode<'e>(&self, encoded: &'e [u8], offset: &mut usize) -> (r: Result<
        &'e [u8],
        DecodeError,
    >)
        requires
            *old(offset) <= encoded.len(),
        ensures
            *final(offset) == encoded.len(),
            r matches Ok(run) && run@ == encoded@.subrange(
                *old(offset) as int,
                encoded.len() as int,
            ),
    {
        let run = crate::bytes::read_run(encoded, offset, encoded.len() - *offset)?;
        Ok(run)
    }
}

impl Measurer for Remaining {
    type Decoded = Vec<u8>;

    open spec fn spec_enc(&self, v: Seq<u8>) -> Option<Seq<u8>> {
        if v.len() <= usize::MAX {
            Some(v)
        } else {
            None
        }
    }

    fn measure(&self, decoded: &Vec<u8>) -> (r: Result<usize, EncodeError>) {
        proof {
            crate::bytes::lemma_vec_u8_deep_view(*decoded);
        }
        Ok(decoded.len())
    }
}

impl Encoder for Remaining {
    /// The room is checked before any write, so a failed encode leaves the
    /// buffer and the cursor exactly as they were.
    fn encode(
        &self,
        decoded: &Vec<u8>,
        encoded: &mut Vec<u8>,
        offset: &mut usize,
    ) -> (r: Result<(), EncodeError>)
        ensures
            r is Err ==> final(encoded)@ == old(encoded)@ && *final(offset) == *old(offset),
    {
        proof {
            crate::bytes::lemma_vec_u8_deep_view(*decoded);
        }
        crate::bytes::write_run(encoded, offset, decoded.as_slice())
    }
}

} // verus!
