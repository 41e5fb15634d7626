//! Fixed-width integer codecs: raw `width/8` bytes in big- or
//! little-endian order, with no padding or alignment.
use vstd::prelude::*;

use crate::bytes::lemma_spliced_byte;
use crate::bytes::lemma_spliced_concat;
use crate::bytes::lemma_spliced_push;
use crate::bytes::spliced;
use crate::bytes::write_byte;
use crate::BorrowedDecoder;
use crate::DecodeError;
use crate::EncodeError;
use crate::Encoder;
use crate::FixedMeasurer;
use crate::Measurer;

verus! {

/// 256 raised to `k`.
pub open spec fn pow256(k: nat) -> nat
    decreases k,
{
    if k == 0 {
        1
    } else {
        256 * pow256((k - 1) as nat)
    }
}

pub proof fn lemma_pow256_pos(k: nat)
    ensures
        pow256(k) >= 1,
    decreases k,
{
    if k > 0 {
        lemma_pow256_pos((k - 1) as nat);
    }
}

pub proof fn lemma_pow256_widths()
    ensures
        pow256(1) == 0x100,
        pow256(2) == 0x1_0000,
        pow256(4) == 0x1_0000_0000,
        pow256(8) == 0x1_0000_0000_0000_0000,
        pow256(15) == 0x1_0000_0000_0000_0000_0000_0000_0000_00,
        pow256(16) == 0x1_0000_0000_0000_0000_0000_0000_0000_0000,
{
    reveal_with_fuel(pow256, 17);
}

/// The `w` bytes of `v`, most significant first.
pub open spec fn be_bytes(v: nat, w: nat) -> Seq<u8>
    decreases w,
{
    if w == 0 {
        Seq::empty()
    } else {
        be_bytes(v / 256, (w - 1) as nat) + seq![(v % 256) as u8]
    }
}

/// The `w` bytes of `v`, least significant first.
pub open spec fn le_bytes(v: nat, w: nat) -> Seq<u8>
    decreases w,
{
    if w == 0 {
        Seq::empty()
    } else {
        seq![(v % 256) as u8] + le_bytes(v / 256, (w - 1) as nat)
    }
}

/// The value of the `w` bytes at `pos`, read most significant first.
pub open spec fn be_value_at(buf: Seq<u8>, pos: int, w: nat) -> nat
    decreases w,
{
    if w == 0 {
        0
    } else {
        be_value_at(buf, pos, (w - 1) as nat) * 256 + (buf[pos + w - 1] as nat)
    }
}

/// The value of the `w` bytes at `pos`, read least significant first.
pub open spec fn le_value_at(buf: Seq<u8>, pos: int, w: nat) -> nat
    decreases w,
{
    if w == 0 {
        0
    } else {
        le_value_at(buf, pos, (w - 1) as nat) + (buf[pos + w - 1] as nat) * pow256((w - 1) as nat)
    }
}

pub proof fn lemma_be_bytes_len(v: nat, w: nat)
    ensures
        be_bytes(v, w).len() == w,
    decreases w,
{
    if w > 0 {
        lemma_be_bytes_len(v / 256, (w - 1) as nat);
    }
}

pub proof fn lemma_le_bytes_len(v: nat, w: nat)
    ensures
        le_bytes(v, w).len() == w,
    decreases w,
{
    if w > 0 {
        lemma_le_bytes_len(v / 256, (w - 1) as nat);
    }
}

/// Reading back the big-endian bytes of `v` yields `v`.
pub proof fn lemma_be_round(buf: Seq<u8>, pos: int, v: nat, w: nat)
    requires
        v < pow256(w),
        0 <= pos,
        pos + w <= buf.len(),
        buf.subrange(pos, pos + w) == be_bytes(v, w),
    ensures
        be_value_at(buf, pos, w) == v,
    decreases w,
{
    lemma_be_bytes_len(v, w);
    if w == 0 {
    } else {
        let head = be_bytes(v / 256, (w - 1) as nat);
        let s = be_bytes(v, w);
        assert(s == head + seq![(v % 256) as u8]);
        lemma_be_bytes_len(v / 256, (w - 1) as nat);
        assert(buf.subrange(pos, pos + w - 1) == head) by {
            assert forall|j: int| 0 <= j < w - 1 implies #[trigger] (buf.subrange(
                pos,
                pos + w - 1,
            )[j]) == head[j] by {
                assert(buf.subrange(pos, pos + w)[j] == buf[pos + j]);
                assert((head + seq![(v % 256) as u8])[j] == head[j]);
            }
            assert(buf.subrange(pos, pos + w - 1) =~= head);
        }
        assert(v / 256 < pow256((w - 1) as nat)) by {
            vstd::arithmetic::div_mod::lemma_fundamental_div_mod(v as int, 256);
            assert(v / 256 < pow256((w - 1) as nat)) by (nonlinear_arith)
                requires
                    v == 256 * (v / 256) + v % 256,
                    0 <= v % 256 < 256,
                    v < 256 * pow256((w - 1) as nat),
            {
            }
        }
        lemma_be_round(buf, pos, v / 256, (w - 1) as nat);
        assert(buf[pos + w - 1] == s[w - 1]);
        assert(s[w - 1] == (v % 256) as u8);
        vstd::arithmetic::div_mod::lemma_fundamental_div_mod(v as int, 256);
    }
}

/// The bytes at `pos` are the big-endian encoding of their own value.
pub proof fn lemma_be_canonical(buf: Seq<u8>, pos: int, w: nat)
    requires
        0 <= pos,
        pos + w <= buf.len(),
    ensures
        be_value_at(buf, pos, w) < pow256(w),
        be_bytes(be_value_at(buf, pos, w), w) == buf.subrange(pos, pos + w),
    decreases w,
{
    if w == 0 {
        assert(buf.subrange(pos, pos) =~= Seq::<u8>::empty());
    } else {
        lemma_be_canonical(buf, pos, (w - 1) as nat);
        let hi = be_value_at(buf, pos, (w - 1) as nat);
        let v = be_value_at(buf, pos, w);
        assert(v == hi * 256 + (buf[pos + w - 1] as nat));
        assert(v < pow256(w)) by (nonlinear_arith)
            requires
                hi < pow256((w - 1) as nat),
                v == hi * 256 + (buf[pos + w - 1] as nat),
                (buf[pos + w - 1] as nat) < 256,
                pow256(w) == 256 * pow256((w - 1) as nat),
        {
        }
        assert(v / 256 == hi && v % 256 == (buf[pos + w - 1] as nat)) by (nonlinear_arith)
            requires
                v == hi * 256 + (buf[pos + w - 1] as nat),
                0 <= (buf[pos + w - 1] as nat) < 256,
                hi >= 0,
        {
        }
        assert(be_bytes(v, w) == be_bytes(hi, (w - 1) as nat) + seq![(v % 256) as u8]);
        lemma_be_bytes_len(hi, (w - 1) as nat);
        assert(be_bytes(v, w) =~= buf.subrange(pos, pos + w));
    }
}

/// Reading back the little-endian bytes of `v` yields `v`.
pub proof fn lemma_le_round(buf: Seq<u8>, pos: int, v: nat, w: nat)
    requires
        v < pow256(w),
        0 <= pos,
        pos + w <= buf.len(),
        buf.subrange(pos, pos + w) == le_bytes(v, w),
    ensures
        le_value_at(buf, pos, w) == v,
    decreases w,
{
    lemma_le_bytes_len(v, w);
    if w == 0 {
    } else {
        let tail = le_bytes(v / 256, (w - 1) as nat);
        let s = le_bytes(v, w);
        assert(s == seq![(v % 256) as u8] + tail);
        lemma_le_bytes_len(v / 256, (w - 1) as nat);
        vstd::arithmetic::div_mod::lemma_fundamental_div_mod(v as int, 256);
        assert(v / 256 < pow256((w - 1) as nat)) by (nonlinear_arith)
            requires
                v == 256 * (v / 256) + v % 256,
                0 <= v % 256 < 256,
                v < 256 * pow256((w - 1) as nat),
        {
        }
        // the low `w - 1` positions of the shifted value sit one byte later
        lemma_le_shift(buf, pos, v, w);
    }
}

/// Helper for the little-endian round trip: the value of the `w` bytes at
/// `pos` decomposes into the first byte plus 256 times the value of the
/// remaining `w - 1` bytes.
proof fn lemma_le_split(buf: Seq<u8>, pos: int, w: nat)
    requires
        w >= 1,
        0 <= pos,
        pos + w <= buf.len(),
    ensures
        le_value_at(buf, pos, w) == (buf[pos] as nat) + 256 * le_value_at(buf, pos + 1, (w - 1) as nat),
    decreases w,
{
    if w == 1 {
        assert(le_value_at(buf, pos, 1) == le_value_at(buf, pos, 0) + (buf[pos + 1 - 1] as nat)
            * pow256(0nat));
        assert(le_value_at(buf, pos, 0) == 0);
        assert(pow256(0nat) == 1);
        assert((buf[pos] as nat) * 1 == buf[pos] as nat);
    } else {
        lemma_le_split(buf, pos, (w - 1) as nat);
        let inner = le_value_at(buf, pos + 1, (w - 2) as nat);
        assert(le_value_at(buf, pos + 1, (w - 1) as nat) == inner + (buf[pos + 1 + w - 2] as nat)
            * pow256((w - 2) as nat));
        assert(le_value_at(buf, pos, w) == le_value_at(buf, pos, (w - 1) as nat) + (buf[pos + w
            - 1] as nat) * pow256((w - 1) as nat));
        assert(pow256((w - 1) as nat) == 256 * pow256((w - 2) as nat));
        assert((buf[pos + w - 1] as nat) * (256 * pow256((w - 2) as nat)) == 256 * ((buf[pos + w
            - 1] as nat) * pow256((w - 2) as nat))) by (nonlinear_arith);
        assert((buf[pos] as nat) + 256 * (inner + (buf[pos + w - 1] as nat) * pow256((w - 2) as nat))
            == (buf[pos] as nat) + 256 * inner + 256 * ((buf[pos + w - 1] as nat) * pow256(
            (w - 2) as nat,
        ))) by (nonlinear_arith);
    }
}

proof fn lemma_le_shift(buf: Seq<u8>, pos: int, v: nat, w: nat)
    requires
        w >= 1,
        v < pow256(w),
        0 <= pos,
        pos + w <= buf.len(),
        buf.subrange(pos, pos + w) == le_bytes(v, w),
    ensures
        le_value_at(buf, pos, w) == v,
    decreases w,
{
    let s = le_bytes(v, w);
    let tail = le_bytes(v / 256, (w - 1) as nat);
    assert(s == seq![(v % 256) as u8] + tail);
    lemma_le_bytes_len(v, w);
    lemma_le_bytes_len(v / 256, (w - 1) as nat);
    assert(buf[pos] == s[0]);
    assert(s[0] == (v % 256) as u8);
    lemma_le_split(buf, pos, w);
    vstd::arithmetic::div_mod::lemma_fundamental_div_mod(v as int, 256);
    if w == 1 {
        assert(le_value_at(buf, pos + 1, 0nat) == 0);
    } else {
        assert(buf.subrange(pos + 1, pos + w) == tail) by {
            assert forall|j: int| 0 <= j < w - 1 implies #[trigger] (buf.subrange(
                pos + 1,
                pos + w,
            )[j]) == tail[j] by {
                assert(buf.subrange(pos, pos + w)[1 + j] == buf[pos + 1 + j]);
                assert((seq![(v % 256) as u8] + tail)[1 + j] == tail[j]);
            }
            assert(buf.subrange(pos + 1, pos + w) =~= tail);
        }
        assert(v / 256 < pow256((w - 1) as nat)) by (nonlinear_arith)
            requires
                v == 256 * (v / 256) + v % 256,
                0 <= v % 256 < 256,
                v < 256 * pow256((w - 1) as nat),
        {
        }
        lemma_le_shift(buf, pos + 1, v / 256, (w - 1) as nat);
    }
}

/// The bytes at `pos` are the little-endian encoding of their own value.
pub proof fn lemma_le_canonical(buf: Seq<u8>, pos: int, w: nat)
    requires
        0 <= pos,
        pos + w <= buf.len(),
    ensures
        le_value_at(buf, pos, w) < pow256(w),
        le_bytes(le_value_at(buf, pos, w), w) == buf.subrange(pos, pos + w),
    decreases w,
{
    if w == 0 {
        assert(buf.subrange(pos, pos) =~= Seq::<u8>::empty());
    } else {
        lemma_le_split(buf, pos, w);
        lemma_le_canonical(buf, pos + 1, (w - 1) as nat);
        let rest = le_value_at(buf, pos + 1, (w - 1) as nat);
        let v = le_value_at(buf, pos, w);
        assert(v == (buf[pos] as nat) + 256 * rest);
        assert(v < pow256(w)) by (nonlinear_arith)
            requires
                rest < pow256((w - 1) as nat),
                v == (buf[pos] as nat) + 256 * rest,
                (buf[pos] as nat) < 256,
                pow256(w) == 256 * pow256((w - 1) as nat),
        {
        }
        assert(v / 256 == rest && v % 256 == (buf[pos] as nat)) by (nonlinear_arith)
            requires
                v == (buf[pos] as nat) + 256 * rest,
                0 <= (buf[pos] as nat) < 256,
                rest >= 0,
        {
        }
        assert(le_bytes(v, w) == seq![(v % 256) as u8] + le_bytes(rest, (w - 1) as nat));
        lemma_le_bytes_len(rest, (w - 1) as nat);
        assert(le_bytes(v, w) =~= buf.subrange(pos, pos + w));
    }
}

/// Reads `w` bytes most significant first.
pub(crate) fn read_be(encoded: &[u8], offset: &mut usize, w: usize) -> (r: Result<
    u128,
    DecodeError,
>)
    requires
        *old(offset) <= encoded.len(),
        1 <= w <= 16,
    ensures
        *old(offset) <= *final(offset) <= encoded.len(),
        if *old(offset) + w <= encoded.len() {
            &&& r matches Ok(acc) && acc as nat == be_value_at(
                encoded@,
                *old(offset) as int,
                w as nat,
            )
            &&& *final(offset) == *old(offset) + w
        } else {
            &&& r matches Err(e) && e == DecodeError::EOF
            &&& *final(offset) == *old(offset)
        },
{
    if w > encoded.len() - *offset {
        return Err(DecodeError::EOF);
    }
    let start: usize = *offset;
    proof {
        lemma_pow256_widths();
        lemma_be_canonical(encoded@, start as int, w as nat);
    }
    let mut acc: u128 = 0;
    let mut i: usize = 0;
    while i < w
        invariant
            start + w <= encoded.len(),
            w <= 16,
            0 <= i <= w,
            pow256(16) == 0x1_0000_0000_0000_0000_0000_0000_0000_0000,
            acc as nat == be_value_at(encoded@, start as int, i as nat),
            (acc as nat) < pow256(i as nat),
        decreases w - i,
    {
        proof {
            lemma_be_canonical(encoded@, start as int, (i + 1) as nat);
            lemma_pow256_le((i + 1) as nat, 16);
        }
        acc = acc * 256 + (encoded[start + i] as u128);
        i = i + 1;
    }
    *offset = start + w;
    Ok(acc)
}

pub proof fn lemma_pow256_le(a: nat, b: nat)
    requires
        a <= b,
    ensures
        pow256(a) <= pow256(b),
    decreases b,
{
    if a < b {
        lemma_pow256_le(a, (b - 1) as nat);
        lemma_pow256_pos((b - 1) as nat);
        assert(pow256(b) == 256 * pow256((b - 1) as nat));
    }
}

/// Reads `w` bytes least significant first.
pub(crate) fn read_le(encoded: &[u8], offset: &mut usize, w: usize) -> (r: Result<
    u128,
    DecodeError,
>)
    requires
        *old(offset) <= encoded.len(),
        1 <= w <= 16,
    ensures
        *old(offset) <= *final(offset) <= encoded.len(),
        if *old(offset) + w <= encoded.len() {
            &&& r matches Ok(acc) && acc as nat == le_value_at(
                encoded@,
                *old(offset) as int,
                w as nat,
            )
            &&& *final(offset) == *old(offset) + w
        } else {
            &&& r matches Err(e) && e == DecodeError::EOF
            &&& *final(offset) == *old(offset)
        },
{
    if w > encoded.len() - *offset {
        return Err(DecodeError::EOF);
    }
    let start: usize = *offset;
    proof {
        lemma_pow256_widths();
    }
    let mut acc: u128 = 0;
    let mut p: u128 = 1;
    let mut i: usize = 0;
    while i < w
        invariant
            start + w <= encoded.len(),
            w <= 16,
            0 <= i <= w,
            pow256(16) == 0x1_0000_0000_0000_0000_0000_0000_0000_0000,
            pow256(15) == 0x1_0000_0000_0000_0000_0000_0000_0000_00,
            i < w ==> p as nat == pow256(i as nat),
            acc as nat == le_value_at(encoded@, start as int, i as nat),
            (acc as nat) < pow256(i as nat),
        decreases w - i,
    {
        proof {
            lemma_le_canonical(encoded@, start as int, (i + 1) as nat);
            lemma_pow256_le((i + 1) as nat, 16);
            lemma_pow256_le(i as nat, 15);
            assert(pow256((i + 1) as nat) == 256 * pow256(i as nat));
            lemma_pow256_pos(i as nat);
            assert((encoded@[start + i] as nat) * pow256(i as nat) + pow256(i as nat) <= 256
                * pow256(i as nat)) by (nonlinear_arith)
                requires
                    (encoded@[start + i] as nat) < 256,
                    pow256(i as nat) >= 1,
            {
            }
            assert((acc as nat) + (encoded@[start + i] as nat) * (p as nat) < pow256(
                (i + 1) as nat,
            ));
        }
        acc = acc + (encoded[start + i] as u128) * p;
        i = i + 1;
        if i < w {
            proof {
                lemma_pow256_le(i as nat, 15);
                assert(pow256(i as nat) == 256 * pow256((i - 1) as nat));
            }
            p = p * 256;
        }
    }
    *offset = start + w;
    Ok(acc)
}

/// Writes the `w` bytes of `v`, most significant first.
pub(crate) fn write_be(encoded: &mut Vec<u8>, offset: &mut usize, v: u128, w: usize) -> (r: Result<
    (),
    EncodeError,
>)
    requires
        *old(offset) <= old(encoded).len(),
        1 <= w <= 16,
    ensures
        final(encoded).len() == old(encoded).len(),
        *old(offset) <= *final(offset) <= final(encoded).len(),
        ({
            let s = be_bytes(v as nat, w as nat);
            &&& (r is Ok <==> *old(offset) + w <= final(encoded).len())
            &&& r is Ok ==> *final(offset) == *old(offset) + w && spliced(
                old(encoded)@,
                final(encoded)@,
                *old(offset) as int,
                s,
            )
        }),
        r is Err ==> r->Err_0 == EncodeError::BufferTooSmall,
        r is Err ==> final(encoded)@.subrange(0, *old(offset) as int) == old(encoded)@.subrange(
            0,
            *old(offset) as int,
        ),
    decreases w,
{
    proof {
        lemma_be_bytes_len(v as nat, w as nat);
    }
    if w == 1 {
        let byte: u8 = (v % 256) as u8;
        let r = write_byte(encoded, offset, byte);
        proof {
            if r is Ok {
                lemma_spliced_byte(old(encoded)@, encoded@, *old(offset) as int, byte);
                assert(be_bytes(v as nat, 1) == be_bytes((v as nat) / 256, 0nat) + seq![byte]);
                assert(be_bytes((v as nat) / 256, 0nat) + seq![byte] =~= seq![byte]);
            }
        }
        r
    } else {
        match write_be(encoded, offset, v / 256, w - 1) {
            Ok(()) => {
                let byte: u8 = (v % 256) as u8;
                let ghost mid = encoded@;
                let r = write_byte(encoded, offset, byte);
                proof {
                    let s1 = be_bytes((v as nat) / 256, (w - 1) as nat);
                    lemma_be_bytes_len((v as nat) / 256, (w - 1) as nat);
                    assert(be_bytes(v as nat, w as nat) == s1 + seq![byte]);
                    if r is Ok {
                        lemma_spliced_push(
                            old(encoded)@,
                            mid,
                            encoded@,
                            *old(offset) as int,
                            s1,
                            byte,
                        );
                        assert(s1.push(byte) =~= s1 + seq![byte]);
                    } else {
                        crate::bytes::lemma_spliced_prefix_eq(
                            old(encoded)@,
                            mid,
                            *old(offset) as int,
                            s1,
                            *old(offset) as int,
                        );
                    }
                }
                r
            },
            Err(e) => Err(e),
        }
    }
}

/// Writes the `w` bytes of `v`, least significant first.
pub(crate) fn write_le(encoded: &mut Vec<u8>, offset: &mut usize, v: u128, w: usize) -> (r: Result<
    (),
    EncodeError,
>)
    requires
        *old(offset) <= old(encoded).len(),
        1 <= w <= 16,
    ensures
        final(encoded).len() == old(encoded).len(),
        *old(offset) <= *final(offset) <= final(encoded).len(),
        ({
            let s = le_bytes(v as nat, w as nat);
            &&& (r is Ok <==> *old(offset) + w <= final(encoded).len())
            &&& r is Ok ==> *final(offset) == *old(offset) + w && spliced(
                old(encoded)@,
                final(encoded)@,
                *old(offset) as int,
                s,
            )
        }),
        r is Err ==> r->Err_0 == EncodeError::BufferTooSmall,
        r is Err ==> final(encoded)@.subrange(0, *old(offset) as int) == old(encoded)@.subrange(
            0,
            *old(offset) as int,
        ),
    decreases w,
{
    proof {
        lemma_le_bytes_len(v as nat, w as nat);
    }
    let byte: u8 = (v % 256) as u8;
    let r0 = write_byte(encoded, offset, byte);
    proof {
        if r0 is Ok {
            lemma_spliced_byte(old(encoded)@, encoded@, *old(offset) as int, byte);
        }
    }
    match r0 {
        Ok(()) => {
        },
        Err(e) => {
            proof {
                assert(le_bytes(v as nat, w as nat).len() == w);
            }
            return Err(e);
        },
    }
    if w == 1 {
        proof {
            assert(le_bytes(v as nat, 1) == seq![byte] + le_bytes((v as nat) / 256, 0nat));
            assert(seq![byte] + le_bytes((v as nat) / 256, 0nat) =~= seq![byte]);
        }
        Ok(())
    } else {
        let ghost mid = encoded@;
        let r = write_le(encoded, offset, v / 256, w - 1);
        proof {
            let tail = le_bytes((v as nat) / 256, (w - 1) as nat);
            lemma_le_bytes_len((v as nat) / 256, (w - 1) as nat);
            assert(le_bytes(v as nat, w as nat) == seq![byte] + tail);
            if r is Ok {
                lemma_spliced_concat(
                    old(encoded)@,
                    mid,
                    encoded@,
                    *old(offset) as int,
                    seq![byte],
                    tail,
                );
            } else {
                crate::bytes::lemma_spliced_prefix_eq(
                    old(encoded)@,
                    mid,
                    *old(offset) as int,
                    seq![byte],
                    *old(offset) as int,
                );
            }
        }
        r
    }
}

} // verus!

verus! {

/// The two's-complement value of an `i16` as an unsigned number.
pub open spec fn wrap_i16(v: i16) -> nat {
    if v >= 0 {
        v as nat
    } else {
        (v + 0x1_0000) as nat
    }
}

/// The signed reading of an unsigned 16-bit number.
pub open spec fn unwrap_i16(n: nat) -> i16 {
    if n < 0x8000 {
        n as i16
    } else {
        (n - 0x1_0000) as i16
    }
}

/// The two's-complement value of an `i32` as an unsigned number.
pub open spec fn wrap_i32(v: i32) -> nat {
    if v >= 0 {
        v as nat
    } else {
        (v + 0x1_0000_0000) as nat
    }
}

/// The signed reading of an unsigned 32-bit number.
pub open spec fn unwrap_i32(n: nat) -> i32 {
    if n < 0x8000_0000 {
        n as i32
    } else {
        (n - 0x1_0000_0000) as i32
    }
}

/// The two's-complement value of an `i64` as an unsigned number.
pub open spec fn wrap_i64(v: i64) -> nat {
    if v >= 0 {
        v as nat
    } else {
        (v + 0x1_0000_0000_0000_0000) as nat
    }
}

/// The signed reading of an unsigned 64-bit number.
pub open spec fn unwrap_i64(n: nat) -> i64 {
    if n < 0x8000_0000_0000_0000 {
        n as i64
    } else {
        (n - 0x1_0000_0000_0000_0000) as i64
    }
}

/// The two's-complement value of an `i128` as an unsigned number.
pub open spec fn wrap_i128(v: i128) -> nat {
    if v >= 0 {
        v as nat
    } else {
        (v + 0x1_0000_0000_0000_0000_0000_0000_0000_0000) as nat
    }
}

/// The signed reading of an unsigned 128-bit number.
pub open spec fn unwrap_i128(n: nat) -> i128 {
    if n < 0x8000_0000_0000_0000_0000_0000_0000_0000 {
        n as i128
    } else {
        (n - 0x1_0000_0000_0000_0000_0000_0000_0000_0000) as i128
    }
}

/// The fixed-width big-endian codec for `u16`.
pub struct U16BE;

impl U16BE {
    pub fn codec() -> (r: Self)
        ensures
            r == U16BE,
    {
        U16BE
    }
}

impl Default for U16BE {
    fn default() -> (r: Self)
        ensures
            r == U16BE,
    {
        U16BE
    }
}

impl Measurer for U16BE {
    type Decoded = u16;

    open spec fn spec_enc(&self, v: u16) -> Option<Seq<u8>> {
        Some(be_bytes(v as nat, 2))
    }

    #[verifier::rlimit(30)]
    #[verifier::spinoff_prover]
    fn measure(&self, decoded: &u16) -> (r: Result<usize, EncodeError>) {
        proof {
            let v = *decoded;
            lemma_be_bytes_len(v as nat, 2);
            assert(self.spec_enc(decoded.deep_view()) == Some(be_bytes(*decoded as nat, 2)));
        }
        Ok(2)
    }
}

impl FixedMeasurer for U16BE {
    open spec fn spec_fixed(&self) -> nat {
        2
    }

    proof fn lemma_fixed(&self, v: u16) {
        lemma_be_bytes_len(v as nat, 2);
    }

    fn measure_fixed(&self) -> (r: usize) {
        2
    }
}

impl Encoder for U16BE {
    #[verifier::rlimit(30)]
    fn encode(
        &self,
        decoded: &u16,
        encoded: &mut Vec<u8>,
        offset: &mut usize,
    ) -> (r: Result<(), EncodeError>) {
        proof {
            lemma_be_bytes_len(*decoded as nat, 2);
            assert(self.spec_enc(decoded.deep_view()) == Some(be_bytes(*decoded as nat, 2)));
        }
        write_be(encoded, offset, *decoded as u128, 2)
    }
}

impl<'e> BorrowedDecoder<'e> for U16BE {
    type BDecoded = u16;

    open spec fn spec_dec(&self, buf: Seq<u8>, pos: int) -> Result<(u16, int), DecodeError> {
        if pos >= 0 && pos + 2 <= buf.len() {
            Ok((be_value_at(buf, pos, 2) as u16, pos + 2))
        } else {
            Err(DecodeError::EOF)
        }
    }

    open spec fn canonical(&self) -> bool {
        true
    }

    open spec fn short_input_eof(&self) -> bool {
        true
    }

    #[verifier::rlimit(30)]
    #[verifier::spinoff_prover]
    fn borrowed_decode(&self, encoded: &'e [u8], offset: &mut usize) -> (r: Result<
        u16,
        DecodeError,
    >) {
        let ghost pos = *offset as int;
        let acc = match read_be(encoded, offset, 2) {
            Ok(acc) => acc,
            Err(e) => {
                proof {
                    assert(self.spec_dec(encoded@, pos) == Err::<(u16, int), _>(
                        DecodeError::EOF,
                    ));
                }
                return Err(e);
            },
        };
        proof {
            lemma_pow256_widths();
            lemma_be_canonical(encoded@, pos, 2);
            assert((acc as u16) as nat == be_value_at(encoded@, pos, 2));
            assert(self.spec_dec(encoded@, pos) == Ok::<_, DecodeError>(
                (acc as u16, pos + 2),
            ));
        }
        Ok(acc as u16)
    }

    proof fn lemma_round_trip(&self, buf: Seq<u8>, pos: int, v: u16) {
        lemma_pow256_widths();
        lemma_be_bytes_len(v as nat, 2);
        lemma_be_round(buf, pos, v as nat, 2);
    }

    proof fn lemma_canonical(&self, buf: Seq<u8>, pos: int) {
        if self.spec_dec(buf, pos) is Ok {
            lemma_pow256_widths();
            lemma_be_canonical(buf, pos, 2);
        }
    }

    proof fn lemma_short_eof(&self, buf: Seq<u8>, pos: int, v: u16, k: int) {
        lemma_be_bytes_len(v as nat, 2);
    }
}

/// The fixed-width big-endian codec for `u32`.
pub struct U32BE;

impl U32BE {
    pub fn codec() -> (r: Self)
        ensures
            r == U32BE,
    {
        U32BE
    }
}

impl Default for U32BE {
    fn default() -> (r: Self)
        ensures
            r == U32BE,
    {
        U32BE
    }
}

impl Measurer for U32BE {
    type Decoded = u32;

    open spec fn spec_enc(&self, v: u32) -> Option<Seq<u8>> {
        Some(be_bytes(v as nat, 4))
    }

    #[verifier::rlimit(30)]
    #[verifier::spinoff_prover]
    fn measure(&self, decoded: &u32) -> (r: Result<usize, EncodeError>) {
        proof {
            let v = *decoded;
            lemma_be_bytes_len(v as nat, 4);
            assert(self.spec_enc(decoded.deep_view()) == Some(be_bytes(*decoded as nat, 4)));
        }
        Ok(4)
    }
}

impl FixedMeasurer for U32BE {
    open spec fn spec_fixed(&self) -> nat {
        4
    }

    proof fn lemma_fixed(&self, v: u32) {
        lemma_be_bytes_len(v as nat, 4);
    }

    fn measure_fixed(&self) -> (r: usize) {
        4
    }
}

impl Encoder for U32BE {
    #[verifier::rlimit(30)]
    fn encode(
        &self,
        decoded: &u32,
        encoded: &mut Vec<u8>,
        offset: &mut usize,
    ) -> (r: Result<(), EncodeError>) {
        proof {
            lemma_be_bytes_len(*decoded as nat, 4);
            assert(self.spec_enc(decoded.deep_view()) == Some(be_bytes(*decoded as nat, 4)));
        }
        write_be(encoded, offset, *decoded as u128, 4)
    }
}

impl<'e> BorrowedDecoder<'e> for U32BE {
    type BDecoded = u32;

    open spec fn spec_dec(&self, buf: Seq<u8>, pos: int) -> Result<(u32, int), DecodeError> {
        if pos >= 0 && pos + 4 <= buf.len() {
            Ok((be_value_at(buf, pos, 4) as u32, pos + 4))
        } else {
            Err(DecodeError::EOF)
        }
    }

    open spec fn canonical(&self) -> bool {
        true
    }

    open spec fn short_input_eof(&self) -> bool {
        true
    }

    #[verifier::rlimit(30)]
    #[verifier::spinoff_prover]
    fn borrowed_decode(&self, encoded: &'e [u8], offset: &mut usize) -> (r: Result<
        u32,
        DecodeError,
    >) {
        let ghost pos = *offset as int;
        let acc = match read_be(encoded, offset, 4) {
            Ok(acc) => acc,
            Err(e) => {
                proof {
                    assert(self.spec_dec(encoded@, pos) == Err::<(u32, int), _>(
                        DecodeError::EOF,
                    ));
                }
                return Err(e);
            },
        };
        proof {
            lemma_pow256_widths();
            lemma_be_canonical(encoded@, pos, 4);
            assert((acc as u32) as nat == be_value_at(encoded@, pos, 4));
            assert(self.spec_dec(encoded@, pos) == Ok::<_, DecodeError>(
                (acc as u32, pos + 4),
            ));
        }
        Ok(acc as u32)
    }

    proof fn lemma_round_trip(&self, buf: Seq<u8>, pos: int, v: u32) {
        lemma_pow256_widths();
        lemma_be_bytes_len(v as nat, 4);
        lemma_be_round(buf, pos, v as nat, 4);
    }

    proof fn lemma_canonical(&self, buf: Seq<u8>, pos: int) {
        if self.spec_dec(buf, pos) is Ok {
            lemma_pow256_widths();
            lemma_be_canonical(buf, pos, 4);
        }
    }

    proof fn lemma_short_eof(&self, buf: Seq<u8>, pos: int, v: u32, k: int) {
        lemma_be_bytes_len(v as nat, 4);
    }
}

/// The fixed-width big-endian codec for `u64`.
pub struct U64BE;

impl U64BE {
    pub fn codec() -> (r: Self)
        ensures
            r == U64BE,
    {
        U64BE
    }
}

impl Default for U64BE {
    fn default() -> (r: Self)
        ensures
            r == U64BE,
    {
        U64BE
    }
}

impl Measurer for U64BE {
    type Decoded = u64;

    open spec fn spec_enc(&self, v: u64) -> Option<Seq<u8>> {
        Some(be_bytes(v as nat, 8))
    }

    #[verifier::rlimit(30)]
    #[verifier::spinoff_prover]
    fn measure(&self, decoded: &u64) -> (r: Result<usize, EncodeError>) {
        proof {
            let v = *decoded;
            lemma_be_bytes_len(v as nat, 8);
            assert(self.spec_enc(decoded.deep_view()) == Some(be_bytes(*decoded as nat, 8)));
        }
        Ok(8)
    }
}

impl FixedMeasurer for U64BE {
    open spec fn spec_fixed(&self) -> nat {
        8
    }

    proof fn lemma_fixed(&self, v: u64) {
        lemma_be_bytes_len(v as nat, 8);
    }

    fn measure_fixed(&self) -> (r: usize) {
        8
    }
}

impl Encoder for U64BE {
    #[verifier::rlimit(30)]
    fn encode(
        &self,
        decoded: &u64,
        encoded: &mut Vec<u8>,
        offset: &mut usize,
    ) -> (r: Result<(), EncodeError>) {
        proof {
            lemma_be_bytes_len(*decoded as nat, 8);
            assert(self.spec_enc(decoded.deep_view()) == Some(be_bytes(*decoded as nat, 8)));
        }
        write_be(encoded, offset, *decoded as u128, 8)
    }
}

impl<'e> BorrowedDecoder<'e> for U64BE {
    type BDecoded = u64;

    open spec fn spec_dec(&self, buf: Seq<u8>, pos: int) -> Result<(u64, int), DecodeError> {
        if pos >= 0 && pos + 8 <= buf.len() {
            Ok((be_value_at(buf, pos, 8) as u64, pos + 8))
        } else {
            Err(DecodeError::EOF)
        }
    }

    open spec fn canonical(&self) -> bool {
        true
    }

    open spec fn short_input_eof(&self) -> bool {
        true
    }

    #[verifier::rlimit(30)]
    #[verifier::spinoff_prover]
    fn borrowed_decode(&self, encoded: &'e [u8], offset: &mut usize) -> (r: Result<
        u64,
        DecodeError,
    >) {
        let ghost pos = *offset as int;
        let acc = match read_be(encoded, offset, 8) {
            Ok(acc) => acc,
            Err(e) => {
                proof {
                    assert(self.spec_dec(encoded@, pos) == Err::<(u64, int), _>(
                        DecodeError::EOF,
                    ));
                }
                return Err(e);
            },
        };
        proof {
            lemma_pow256_widths();
            lemma_be_canonical(encoded@, pos, 8);
            assert((acc as u64) as nat == be_value_at(encoded@, pos, 8));
            assert(self.spec_dec(encoded@, pos) == Ok::<_, DecodeError>(
                (acc as u64, pos + 8),
            ));
        }
        Ok(acc as u64)
    }

    proof fn lemma_round_trip(&self, buf: Seq<u8>, pos: int, v: u64) {
        lemma_pow256_widths();
        lemma_be_bytes_len(v as nat, 8);
        lemma_be_round(buf, pos, v as nat, 8);
    }

    proof fn lemma_canonical(&self, buf: Seq<u8>, pos: int) {
        if self.spec_dec(buf, pos) is Ok {
            lemma_pow256_widths();
            lemma_be_canonical(buf, pos, 8);
        }
    }

    proof fn lemma_short_eof(&self, buf: Seq<u8>, pos: int, v: u64, k: int) {
        lemma_be_bytes_len(v as nat, 8);
    }
}

/// The fixed-width big-endian codec for `u128`.
pub struct U128BE;

impl U128BE {
    pub fn codec() -> (r: Self)
        ensures
            r == U128BE,
    {
        U128BE
    }
}

impl Default for U128BE {
    fn default() -> (r: Self)
        ensures
            r == U128BE,
    {
        U128BE
    }
}

impl Measurer for U128BE {
    type Decoded = u128;

    open spec fn spec_enc(&self, v: u128) -> Option<Seq<u8>> {
        Some(be_bytes(v as nat, 16))
    }

    #[verifier::rlimit(30)]
    #[verifier::spinoff_prover]
    fn measure(&self, decoded: &u128) -> (r: Result<usize, EncodeError>) {
        proof {
            let v = *decoded;
            lemma_be_bytes_len(v as nat, 16);
            assert(self.spec_enc(decoded.deep_view()) == Some(be_bytes(*decoded as nat, 16)));
        }
        Ok(16)
    }
}

impl FixedMeasurer for U128BE {
    open spec fn spec_fixed(&self) -> nat {
        16
    }

    proof fn lemma_fixed(&self, v: u128) {
        lemma_be_bytes_len(v as nat, 16);
    }

    fn measure_fixed(&self) -> (r: usize) {
        16
    }
}

impl Encoder for U128BE {
    #[verifier::rlimit(30)]
    fn encode(
        &self,
        decoded: &u128,
        encoded: &mut Vec<u8>,
        offset: &mut usize,
    ) -> (r: Result<(), EncodeError>) {
        proof {
            lemma_be_bytes_len(*decoded as nat, 16);
            assert(self.spec_enc(decoded.deep_view()) == Some(be_bytes(*decoded as nat, 16)));
        }
        write_be(encoded, offset, *decoded as u128, 16)
    }
}

impl<'e> BorrowedDecoder<'e> for U128BE {
    type BDecoded = u128;

    open spec fn spec_dec(&self, buf: Seq<u8>, pos: int) -> Result<(u128, int), DecodeError> {
        if pos >= 0 && pos + 16 <= buf.len() {
            Ok((be_value_at(buf, pos, 16) as u128, pos + 16))
        } else {
            Err(DecodeError::EOF)
        }
    }

    open spec fn canonical(&self) -> bool {
        true
    }

    open spec fn short_input_eof(&self) -> bool {
        true
    }

    #[verifier::rlimit(30)]
    #[verifier::spinoff_prover]
    fn borrowed_decode(&self, encoded: &'e [u8], offset: &mut usize) -> (r: Result<
        u128,
        DecodeError,
    >) {
        let ghost pos = *offset as int;
        let acc = match read_be(encoded, offset, 16) {
            Ok(acc) => acc,
            Err(e) => {
                proof {
                    assert(self.spec_dec(encoded@, pos) == Err::<(u128, int), _>(
                        DecodeError::EOF,
                    ));
                }
                return Err(e);
            },
        };
        proof {
            lemma_pow256_widths();
            lemma_be_canonical(encoded@, pos, 16);
            assert((acc as u128) as nat == be_value_at(encoded@, pos, 16));
            assert(self.spec_dec(encoded@, pos) == Ok::<_, DecodeError>(
                (acc as u128, pos + 16),
            ));
        }
        Ok(acc as u128)
    }

    proof fn lemma_round_trip(&self, buf: Seq<u8>, pos: int, v: u128) {
        lemma_pow256_widths();
        lemma_be_bytes_len(v as nat, 16);
        lemma_be_round(buf, pos, v as nat, 16);
    }

    proof fn lemma_canonical(&self, buf: Seq<u8>, pos: int) {
        if self.spec_dec(buf, pos) is Ok {
            lemma_pow256_widths();
            lemma_be_canonical(buf, pos, 16);
        }
    }

    proof fn lemma_short_eof(&self, buf: Seq<u8>, pos: int, v: u128, k: int) {
        lemma_be_bytes_len(v as nat, 16);
    }
}

/// The fixed-width big-endian codec for `i16`.
pub struct I16BE;

impl I16BE {
    pub fn codec() -> (r: Self)
        ensures
            r == I16BE,
    {
        I16BE
    }
}

impl Default for I16BE {
    fn default() -> (r: Self)
        ensures
            r == I16BE,
    {
        I16BE
    }
}

impl Measurer for I16BE {
    type Decoded = i16;

    open spec fn spec_enc(&self, v: i16) -> Option<Seq<u8>> {
        Some(be_bytes(wrap_i16(v), 2))
    }

    #[verifier::rlimit(30)]
    #[verifier::spinoff_prover]
    fn measure(&self, decoded: &i16) -> (r: Result<usize, EncodeError>) {
        proof {
            let v = *decoded;
            lemma_be_bytes_len(wrap_i16(v), 2);
            assert(self.spec_enc(decoded.deep_view()) == Some(be_bytes(wrap_i16(*decoded), 2)));
        }
        Ok(2)
    }
}

impl FixedMeasurer for I16BE {
    open spec fn spec_fixed(&self) -> nat {
        2
    }

    proof fn lemma_fixed(&self, v: i16) {
        lemma_be_bytes_len(wrap_i16(v), 2);
    }

    fn measure_fixed(&self) -> (r: usize) {
        2
    }
}

impl Encoder for I16BE {
    #[verifier::rlimit(30)]
    fn encode(
        &self,
        decoded: &i16,
        encoded: &mut Vec<u8>,
        offset: &mut usize,
    ) -> (r: Result<(), EncodeError>) {
        let u: u16 = if *decoded >= 0 {
            *decoded as u16
        } else {
            ((*decoded as i32) + 0x1_0000) as u16
        };
        proof {
            assert(u as nat == wrap_i16(*decoded));
            lemma_be_bytes_len(wrap_i16(*decoded), 2);
            assert(self.spec_enc(decoded.deep_view()) == Some(be_bytes(
                wrap_i16(*decoded),
                2,
            )));
        }
        write_be(encoded, offset, u as u128, 2)
    }
}

impl<'e> BorrowedDecoder<'e> for I16BE {
    type BDecoded = i16;

    open spec fn spec_dec(&self, buf: Seq<u8>, pos: int) -> Result<(i16, int), DecodeError> {
        if pos >= 0 && pos + 2 <= buf.len() {
            Ok((unwrap_i16(be_value_at(buf, pos, 2)), pos + 2))
        } else {
            Err(DecodeError::EOF)
        }
    }

    open spec fn canonical(&self) -> bool {
        true
    }

    open spec fn short_input_eof(&self) -> bool {
        true
    }

    #[verifier::rlimit(30)]
    #[verifier::spinoff_prover]
    fn borrowed_decode(&self, encoded: &'e [u8], offset: &mut usize) -> (r: Result<
        i16,
        DecodeError,
    >) {
        let ghost pos = *offset as int;
        let acc = match read_be(encoded, offset, 2) {
            Ok(acc) => acc,
            Err(e) => {
                proof {
                    assert(self.spec_dec(encoded@, pos) == Err::<(i16, int), _>(
                        DecodeError::EOF,
                    ));
                }
                return Err(e);
            },
        };
        proof {
            lemma_pow256_widths();
            lemma_be_canonical(encoded@, pos, 2);
        }
        let n: u16 = acc as u16;
        let value: i16 = if n < 0x8000 {
            n as i16
        } else {
            ((n as i32) - 0x1_0000) as i16
        };
        proof {
            assert(value == unwrap_i16(be_value_at(encoded@, pos, 2)));
            assert(self.spec_dec(encoded@, pos) == Ok::<_, DecodeError>((value, pos + 2)));
        }
        Ok(value)
    }

    proof fn lemma_round_trip(&self, buf: Seq<u8>, pos: int, v: i16) {
        lemma_pow256_widths();
        lemma_be_bytes_len(wrap_i16(v), 2);
        lemma_be_round(buf, pos, wrap_i16(v), 2);
        assert(unwrap_i16(wrap_i16(v)) == v);
    }

    proof fn lemma_canonical(&self, buf: Seq<u8>, pos: int) {
        if self.spec_dec(buf, pos) is Ok {
            lemma_pow256_widths();
            lemma_be_canonical(buf, pos, 2);
            let n = be_value_at(buf, pos, 2);
            assert(wrap_i16(unwrap_i16(n)) == n);
        }
    }

    proof fn lemma_short_eof(&self, buf: Seq<u8>, pos: int, v: i16, k: int) {
        lemma_be_bytes_len(wrap_i16(v), 2);
    }
}

/// The fixed-width big-endian codec for `i32`.
pub struct I32BE;

impl I32BE {
    pub fn codec() -> (r: Self)
        ensures
            r == I32BE,
    {
        I32BE
    }
}

impl Default for I32BE {
    fn default() -> (r: Self)
        ensures
            r == I32BE,
    {
        I32BE
    }
}

impl Measurer for I32BE {
    type Decoded = i32;

    open spec fn spec_enc(&self, v: i32) -> Option<Seq<u8>> {
        Some(be_bytes(wrap_i32(v), 4))
    }

    #[verifier::rlimit(30)]
    #[verifier::spinoff_prover]
    fn measure(&self, decoded: &i32) -> (r: Result<usize, EncodeError>) {
        proof {
            let v = *decoded;
            lemma_be_bytes_len(wrap_i32(v), 4);
            assert(self.spec_enc(decoded.deep_view()) == Some(be_bytes(wrap_i32(*decoded), 4)));
        }
        Ok(4)
    }
}

impl FixedMeasurer for I32BE {
    open spec fn spec_fixed(&self) -> nat {
        4
    }

    proof fn lemma_fixed(&self, v: i32) {
        lemma_be_bytes_len(wrap_i32(v), 4);
    }

    fn measure_fixed(&self) -> (r: usize) {
        4
    }
}

impl Encoder for I32BE {
    #[verifier::rlimit(30)]
    fn encode(
        &self,
        decoded: &i32,
        encoded: &mut Vec<u8>,
        offset: &mut usize,
    ) -> (r: Result<(), EncodeError>) {
        let u: u32 = if *decoded >= 0 {
            *decoded as u32
        } else {
            ((*decoded as i64) + 0x1_0000_0000) as u32
        };
        proof {
            assert(u as nat == wrap_i32(*decoded));
            lemma_be_bytes_len(wrap_i32(*decoded), 4);
            assert(self.spec_enc(decoded.deep_view()) == Some(be_bytes(
                wrap_i32(*decoded),
                4,
            )));
        }
        write_be(encoded, offset, u as u128, 4)
    }
}

impl<'e> BorrowedDecoder<'e> for I32BE {
    type BDecoded = i32;

    open spec fn spec_dec(&self, buf: Seq<u8>, pos: int) -> Result<(i32, int), DecodeError> {
        if pos >= 0 && pos + 4 <= buf.len() {
            Ok((unwrap_i32(be_value_at(buf, pos, 4)), pos + 4))
        } else {
            Err(DecodeError::EOF)
        }
    }

    open spec fn canonical(&self) -> bool {
        true
    }

    open spec fn short_input_eof(&self) -> bool {
        true
    }

    #[verifier::rlimit(30)]
    #[verifier::spinoff_prover]
    fn borrowed_decode(&self, encoded: &'e [u8], offset: &mut usize) -> (r: Result<
        i32,
        DecodeError,
    >) {
        let ghost pos = *offset as int;
        let acc = match read_be(encoded, offset, 4) {
            Ok(acc) => acc,
            Err(e) => {
                proof {
                    assert(self.spec_dec(encoded@, pos) == Err::<(i32, int), _>(
                        DecodeError::EOF,
                    ));
                }
                return Err(e);
            },
        };
        proof {
            lemma_pow256_widths();
            lemma_be_canonical(encoded@, pos, 4);
        }
        let n: u32 = acc as u32;
        let value: i32 = if n < 0x8000_0000 {
            n as i32
        } else {
            ((n as i64) - 0x1_0000_0000) as i32
        };
        proof {
            assert(value == unwrap_i32(be_value_at(encoded@, pos, 4)));
            assert(self.spec_dec(encoded@, pos) == Ok::<_, DecodeError>((value, pos + 4)));
        }
        Ok(value)
    }

    proof fn lemma_round_trip(&self, buf: Seq<u8>, pos: int, v: i32) {
        lemma_pow256_widths();
        lemma_be_bytes_len(wrap_i32(v), 4);
        lemma_be_round(buf, pos, wrap_i32(v), 4);
        assert(unwrap_i32(wrap_i32(v)) == v);
    }

    proof fn lemma_canonical(&self, buf: Seq<u8>, pos: int) {
        if self.spec_dec(buf, pos) is Ok {
            lemma_pow256_widths();
            lemma_be_canonical(buf, pos, 4);
            let n = be_value_at(buf, pos, 4);
            assert(wrap_i32(unwrap_i32(n)) == n);
        }
    }

    proof fn lemma_short_eof(&self, buf: Seq<u8>, pos: int, v: i32, k: int) {
        lemma_be_bytes_len(wrap_i32(v), 4);
    }
}

/// The fixed-width big-endian codec for `i64`.
pub struct I64BE;

impl I64BE {
    pub fn codec() -> (r: Self)
        ensures
            r == I64BE,
    {
        I64BE
    }
}

impl Default for I64BE {
    fn default() -> (r: Self)
        ensures
            r == I64BE,
    {
        I64BE
    }
}

impl Measurer for I64BE {
    type Decoded = i64;

    open spec fn spec_enc(&self, v: i64) -> Option<Seq<u8>> {
        Some(be_bytes(wrap_i64(v), 8))
    }

    #[verifier::rlimit(30)]
    #[verifier::spinoff_prover]
    fn measure(&self, decoded: &i64) -> (r: Result<usize, EncodeError>) {
        proof {
            let v = *decoded;
            lemma_be_bytes_len(wrap_i64(v), 8);
            assert(self.spec_enc(decoded.deep_view()) == Some(be_bytes(wrap_i64(*decoded), 8)));
        }
        Ok(8)
    }
}

impl FixedMeasurer for I64BE {
    open spec fn spec_fixed(&self) -> nat {
        8
    }

    proof fn lemma_fixed(&self, v: i64) {
        lemma_be_bytes_len(wrap_i64(v), 8);
    }

    fn measure_fixed(&self) -> (r: usize) {
        8
    }
}

impl Encoder for I64BE {
    #[verifier::rlimit(30)]
    fn encode(
        &self,
        decoded: &i64,
        encoded: &mut Vec<u8>,
        offset: &mut usize,
    ) -> (r: Result<(), EncodeError>) {
        let u: u64 = if *decoded >= 0 {
            *decoded as u64
        } else {
            ((*decoded as i128) + 0x1_0000_0000_0000_0000) as u64
        };
        proof {
            assert(u as nat == wrap_i64(*decoded));
            lemma_be_bytes_len(wrap_i64(*decoded), 8);
            assert(self.spec_enc(decoded.deep_view()) == Some(be_bytes(
                wrap_i64(*decoded),
                8,
            )));
        }
        write_be(encoded, offset, u as u128, 8)
    }
}

impl<'e> BorrowedDecoder<'e> for I64BE {
    type BDecoded = i64;

    open spec fn spec_dec(&self, buf: Seq<u8>, pos: int) -> Result<(i64, int), DecodeError> {
        if pos >= 0 && pos + 8 <= buf.len() {
            Ok((unwrap_i64(be_value_at(buf, pos, 8)), pos + 8))
        } else {
            Err(DecodeError::EOF)
        }
    }

    open spec fn canonical(&self) -> bool {
        true
    }

    open spec fn short_input_eof(&self) -> bool {
        true
    }

    #[verifier::rlimit(30)]
    #[verifier::spinoff_prover]
    fn borrowed_decode(&self, encoded: &'e [u8], offset: &mut usize) -> (r: Result<
        i64,
        DecodeError,
    >) {
        let ghost pos = *offset as int;
        let acc = match read_be(encoded, offset, 8) {
            Ok(acc) => acc,
            Err(e) => {
                proof {
                    assert(self.spec_dec(encoded@, pos) == Err::<(i64, int), _>(
                        DecodeError::EOF,
                    ));
                }
                return Err(e);
            },
        };
        proof {
            lemma_pow256_widths();
            lemma_be_canonical(encoded@, pos, 8);
        }
        let n: u64 = acc as u64;
        let value: i64 = if n < 0x8000_0000_0000_0000 {
            n as i64
        } else {
            ((n as i128) - 0x1_0000_0000_0000_0000) as i64
        };
        proof {
            assert(value == unwrap_i64(be_value_at(encoded@, pos, 8)));
            assert(self.spec_dec(encoded@, pos) == Ok::<_, DecodeError>((value, pos + 8)));
        }
        Ok(value)
    }

    proof fn lemma_round_trip(&self, buf: Seq<u8>, pos: int, v: i64) {
        lemma_pow256_widths();
        lemma_be_bytes_len(wrap_i64(v), 8);
        lemma_be_round(buf, pos, wrap_i64(v), 8);
        assert(unwrap_i64(wrap_i64(v)) == v);
    }

    proof fn lemma_canonical(&self, buf: Seq<u8>, pos: int) {
        if self.spec_dec(buf, pos) is Ok {
            lemma_pow256_widths();
            lemma_be_canonical(buf, pos, 8);
            let n = be_value_at(buf, pos, 8);
            assert(wrap_i64(unwrap_i64(n)) == n);
        }
    }

    proof fn lemma_short_eof(&self, buf: Seq<u8>, pos: int, v: i64, k: int) {
        lemma_be_bytes_len(wrap_i64(v), 8);
    }
}

/// The fixed-width big-endian codec for `i128`.
pub struct I128BE;

impl I128BE {
    pub fn codec() -> (r: Self)
        ensures
            r == I128BE,
    {
        I128BE
    }
}

impl Default for I128BE {
    fn default() -> (r: Self)
        ensures
            r == I128BE,
    {
        I128BE
    }
}

impl Measurer for I128BE {
    type Decoded = i128;

    open spec fn spec_enc(&self, v: i128) -> Option<Seq<u8>> {
        Some(be_bytes(wrap_i128(v), 16))
    }

    #[verifier::rlimit(30)]
    #[verifier::spinoff_prover]
    fn measure(&self, decoded: &i128) -> (r: Result<usize, EncodeError>) {
        proof {
            let v = *decoded;
            lemma_be_bytes_len(wrap_i128(v), 16);
            assert(self.spec_enc(decoded.deep_view()) == Some(be_bytes(wrap_i128(*decoded), 16)));
        }
        Ok(16)
    }
}

impl FixedMeasurer for I128BE {
    open spec fn spec_fixed(&self) -> nat {
        16
    }

    proof fn lemma_fixed(&self, v: i128) {
        lemma_be_bytes_len(wrap_i128(v), 16);
    }

    fn measure_fixed(&self) -> (r: usize) {
        16
    }
}

impl Encoder for I128BE {
    #[verifier::rlimit(30)]
    fn encode(
        &self,
        decoded: &i128,
        encoded: &mut Vec<u8>,
        offset: &mut usize,
    ) -> (r: Result<(), EncodeError>) {
        let u: u128 = if *decoded >= 0 {
            *decoded as u128
        } else {
            u128::MAX - ((-(*decoded + 1)) as u128)
        };
        proof {
            assert(u as nat == wrap_i128(*decoded));
            lemma_be_bytes_len(wrap_i128(*decoded), 16);
            assert(self.spec_enc(decoded.deep_view()) == Some(be_bytes(
                wrap_i128(*decoded),
                16,
            )));
        }
        write_be(encoded, offset, u as u128, 16)
    }
}

impl<'e> BorrowedDecoder<'e> for I128BE {
    type BDecoded = i128;

    open spec fn spec_dec(&self, buf: Seq<u8>, pos: int) -> Result<(i128, int), DecodeError> {
        if pos >= 0 && pos + 16 <= buf.len() {
            Ok((unwrap_i128(be_value_at(buf, pos, 16)), pos + 16))
        } else {
            Err(DecodeError::EOF)
        }
    }

    open spec fn canonical(&self) -> bool {
        true
    }

    open spec fn short_input_eof(&self) -> bool {
        true
    }

    #[verifier::rlimit(30)]
    #[verifier::spinoff_prover]
    fn borrowed_decode(&self, encoded: &'e [u8], offset: &mut usize) -> (r: Result<
        i128,
        DecodeError,
    >) {
        let ghost pos = *offset as int;
        let acc = match read_be(encoded, offset, 16) {
            Ok(acc) => acc,
            Err(e) => {
                proof {
                    assert(self.spec_dec(encoded@, pos) == Err::<(i128, int), _>(
                        DecodeError::EOF,
                    ));
                }
                return Err(e);
            },
        };
        proof {
            lemma_pow256_widths();
            lemma_be_canonical(encoded@, pos, 16);
        }
        let n: u128 = acc;
        let value: i128 = if n < 0x8000_0000_0000_0000_0000_0000_0000_0000 {
            n as i128
        } else {
            -((u128::MAX - n) as i128) - 1
        };
        proof {
            assert(value == unwrap_i128(be_value_at(encoded@, pos, 16)));
            assert(self.spec_dec(encoded@, pos) == Ok::<_, DecodeError>((value, pos + 16)));
        }
        Ok(value)
    }

    proof fn lemma_round_trip(&self, buf: Seq<u8>, pos: int, v: i128) {
        lemma_pow256_widths();
        lemma_be_bytes_len(wrap_i128(v), 16);
        lemma_be_round(buf, pos, wrap_i128(v), 16);
        assert(unwrap_i128(wrap_i128(v)) == v);
    }

    proof fn lemma_canonical(&self, buf: Seq<u8>, pos: int) {
        if self.spec_dec(buf, pos) is Ok {
            lemma_pow256_widths();
            lemma_be_canonical(buf, pos, 16);
            let n = be_value_at(buf, pos, 16);
            assert(wrap_i128(unwrap_i128(n)) == n);
        }
    }

    proof fn lemma_short_eof(&self, buf: Seq<u8>, pos: int, v: i128, k: int) {
        lemma_be_bytes_len(wrap_i128(v), 16);
    }
}

/// The fixed-width little-endian codec for `u16`.
pub struct U16LE;

impl U16LE {
    pub fn codec() -> (r: Self)
        ensures
            r == U16LE,
    {
        U16LE
    }
}

impl Default for U16LE {
    fn default() -> (r: Self)
        ensures
            r == U16LE,
    {
        U16LE
    }
}

impl Measurer for U16LE {
    type Decoded = u16;

    open spec fn spec_enc(&self, v: u16) -> Option<Seq<u8>> {
        Some(le_bytes(v as nat, 2))
    }

    #[verifier::rlimit(30)]
    #[verifier::spinoff_prover]
    fn measure(&self, decoded: &u16) -> (r: Result<usize, EncodeError>) {
        proof {
            let v = *decoded;
            lemma_le_bytes_len(v as nat, 2);
            assert(self.spec_enc(decoded.deep_view()) == Some(le_bytes(*decoded as nat, 2)));
        }
        Ok(2)
    }
}

impl FixedMeasurer for U16LE {
    open spec fn spec_fixed(&self) -> nat {
        2
    }

    proof fn lemma_fixed(&self, v: u16) {
        lemma_le_bytes_len(v as nat, 2);
    }

    fn measure_fixed(&self) -> (r: usize) {
        2
    }
}

impl Encoder for U16LE {
    #[verifier::rlimit(30)]
    fn encode(
        &self,
        decoded: &u16,
        encoded: &mut Vec<u8>,
        offset: &mut usize,
    ) -> (r: Result<(), EncodeError>) {
        proof {
            lemma_le_bytes_len(*decoded as nat, 2);
            assert(self.spec_enc(decoded.deep_view()) == Some(le_bytes(*decoded as nat, 2)));
        }
        write_le(encoded, offset, *decoded as u128, 2)
    }
}

impl<'e> BorrowedDecoder<'e> for U16LE {
    type BDecoded = u16;

    open spec fn spec_dec(&self, buf: Seq<u8>, pos: int) -> Result<(u16, int), DecodeError> {
        if pos >= 0 && pos + 2 <= buf.len() {
            Ok((le_value_at(buf, pos, 2) as u16, pos + 2))
        } else {
            Err(DecodeError::EOF)
        }
    }

    open spec fn canonical(&self) -> bool {
        true
    }

    open spec fn short_input_eof(&self) -> bool {
        true
    }

    #[verifier::rlimit(30)]
    #[verifier::spinoff_prover]
    fn borrowed_decode(&self, encoded: &'e [u8], offset: &mut usize) -> (r: Result<
        u16,
        DecodeError,
    >) {
        let ghost pos = *offset as int;
        let acc = match read_le(encoded, offset, 2) {
            Ok(acc) => acc,
            Err(e) => {
                proof {
                    assert(self.spec_dec(encoded@, pos) == Err::<(u16, int), _>(
                        DecodeError::EOF,
                    ));
                }
                return Err(e);
            },
        };
        proof {
            lemma_pow256_widths();
            lemma_le_canonical(encoded@, pos, 2);
            assert((acc as u16) as nat == le_value_at(encoded@, pos, 2));
            assert(self.spec_dec(encoded@, pos) == Ok::<_, DecodeError>(
                (acc as u16, pos + 2),
            ));
        }
        Ok(acc as u16)
    }

    proof fn lemma_round_trip(&self, buf: Seq<u8>, pos: int, v: u16) {
        lemma_pow256_widths();
        lemma_le_bytes_len(v as nat, 2);
        lemma_le_round(buf, pos, v as nat, 2);
    }

    proof fn lemma_canonical(&self, buf: Seq<u8>, pos: int) {
        if self.spec_dec(buf, pos) is Ok {
            lemma_pow256_widths();
            lemma_le_canonical(buf, pos, 2);
        }
    }

    proof fn lemma_short_eof(&self, buf: Seq<u8>, pos: int, v: u16, k: int) {
        lemma_le_bytes_len(v as nat, 2);
    }
}

/// The fixed-width little-endian codec for `u32`.
pub struct U32LE;

impl U32LE {
    pub fn codec() -> (r: Self)
        ensures
            r == U32LE,
    {
        U32LE
    }
}

impl Default for U32LE {
    fn default() -> (r: Self)
        ensures
            r == U32LE,
    {
        U32LE
    }
}

impl Measurer for U32LE {
    type Decoded = u32;

    open spec fn spec_enc(&self, v: u32) -> Option<Seq<u8>> {
        Some(le_bytes(v as nat, 4))
    }

    #[verifier::rlimit(30)]
    #[verifier::spinoff_prover]
    fn measure(&self, decoded: &u32) -> (r: Result<usize, EncodeError>) {
        proof {
            let v = *decoded;
            lemma_le_bytes_len(v as nat, 4);
            assert(self.spec_enc(decoded.deep_view()) == Some(le_bytes(*decoded as nat, 4)));
        }
        Ok(4)
    }
}

impl FixedMeasurer for U32LE {
    open spec fn spec_fixed(&self) -> nat {
        4
    }

    proof fn lemma_fixed(&self, v: u32) {
        lemma_le_bytes_len(v as nat, 4);
    }

    fn measure_fixed(&self) -> (r: usize) {
        4
    }
}

impl Encoder for U32LE {
    #[verifier::rlimit(30)]
    fn encode(
        &self,
        decoded: &u32,
        encoded: &mut Vec<u8>,
        offset: &mut usize,
    ) -> (r: Result<(), EncodeError>) {
        proof {
            lemma_le_bytes_len(*decoded as nat, 4);
            assert(self.spec_enc(decoded.deep_view()) == Some(le_bytes(*decoded as nat, 4)));
        }
        write_le(encoded, offset, *decoded as u128, 4)
    }
}

impl<'e> BorrowedDecoder<'e> for U32LE {
    type BDecoded = u32;

    open spec fn spec_dec(&self, buf: Seq<u8>, pos: int) -> Result<(u32, int), DecodeError> {
        if pos >= 0 && pos + 4 <= buf.len() {
            Ok((le_value_at(buf, pos, 4) as u32, pos + 4))
        } else {
            Err(DecodeError::EOF)
        }
    }

    open spec fn canonical(&self) -> bool {
        true
    }

    open spec fn short_input_eof(&self) -> bool {
        true
    }

    #[verifier::rlimit(30)]
    #[verifier::spinoff_prover]
    fn borrowed_decode(&self, encoded: &'e [u8], offset: &mut usize) -> (r: Result<
        u32,
        DecodeError,
    >) {
        let ghost pos = *offset as int;
        let acc = match read_le(encoded, offset, 4) {
            Ok(acc) => acc,
            Err(e) => {
                proof {
                    assert(self.spec_dec(encoded@, pos) == Err::<(u32, int), _>(
                        DecodeError::EOF,
                    ));
                }
                return Err(e);
            },
        };
        proof {
            lemma_pow256_widths();
            lemma_le_canonical(encoded@, pos, 4);
            assert((acc as u32) as nat == le_value_at(encoded@, pos, 4));
            assert(self.spec_dec(encoded@, pos) == Ok::<_, DecodeError>(
                (acc as u32, pos + 4),
            ));
        }
        Ok(acc as u32)
    }

    proof fn lemma_round_trip(&self, buf: Seq<u8>, pos: int, v: u32) {
        lemma_pow256_widths();
        lemma_le_bytes_len(v as nat, 4);
        lemma_le_round(buf, pos, v as nat, 4);
    }

    proof fn lemma_canonical(&self, buf: Seq<u8>, pos: int) {
        if self.spec_dec(buf, pos) is Ok {
            lemma_pow256_widths();
            lemma_le_canonical(buf, pos, 4);
        }
    }

    proof fn lemma_short_eof(&self, buf: Seq<u8>, pos: int, v: u32, k: int) {
        lemma_le_bytes_len(v as nat, 4);
    }
}

/// The fixed-width little-endian codec for `u64`.
pub struct U64LE;

impl U64LE {
    pub fn codec() -> (r: Self)
        ensures
            r == U64LE,
    {
        U64LE
    }
}

impl Default for U64LE {
    fn default() -> (r: Self)
        ensures
            r == U64LE,
    {
        U64LE
    }
}

impl Measurer for U64LE {
    type Decoded = u64;

    open spec fn spec_enc(&self, v: u64) -> Option<Seq<u8>> {
        Some(le_bytes(v as nat, 8))
    }

    #[verifier::rlimit(30)]
    #[verifier::spinoff_prover]
    fn measure(&self, decoded: &u64) -> (r: Result<usize, EncodeError>) {
        proof {
            let v = *decoded;
            lemma_le_bytes_len(v as nat, 8);
            assert(self.spec_enc(decoded.deep_view()) == Some(le_bytes(*decoded as nat, 8)));
        }
        Ok(8)
    }
}

impl FixedMeasurer for U64LE {
    open spec fn spec_fixed(&self) -> nat {
        8
    }

    proof fn lemma_fixed(&self, v: u64) {
        lemma_le_bytes_len(v as nat, 8);
    }

    fn measure_fixed(&self) -> (r: usize) {
        8
    }
}

impl Encoder for U64LE {
    #[verifier::rlimit(30)]
    fn encode(
        &self,
        decoded: &u64,
        encoded: &mut Vec<u8>,
        offset: &mut usize,
    ) -> (r: Result<(), EncodeError>) {
        proof {
            lemma_le_bytes_len(*decoded as nat, 8);
            assert(self.spec_enc(decoded.deep_view()) == Some(le_bytes(*decoded as nat, 8)));
        }
        write_le(encoded, offset, *decoded as u128, 8)
    }
}

impl<'e> BorrowedDecoder<'e> for U64LE {
    type BDecoded = u64;

    open spec fn spec_dec(&self, buf: Seq<u8>, pos: int) -> Result<(u64, int), DecodeError> {
        if pos >= 0 && pos + 8 <= buf.len() {
            Ok((le_value_at(buf, pos, 8) as u64, pos + 8))
        } else {
            Err(DecodeError::EOF)
        }
    }

    open spec fn canonical(&self) -> bool {
        true
    }

    open spec fn short_input_eof(&self) -> bool {
        true
    }

    #[verifier::rlimit(30)]
    #[verifier::spinoff_prover]
    fn borrowed_decode(&self, encoded: &'e [u8], offset: &mut usize) -> (r: Result<
        u64,
        DecodeError,
    >) {
        let ghost pos = *offset as int;
        let acc = match read_le(encoded, offset, 8) {
            Ok(acc) => acc,
            Err(e) => {
                proof {
                    assert(self.spec_dec(encoded@, pos) == Err::<(u64, int), _>(
                        DecodeError::EOF,
                    ));
                }
                return Err(e);
            },
        };
        proof {
            lemma_pow256_widths();
            lemma_le_canonical(encoded@, pos, 8);
            assert((acc as u64) as nat == le_value_at(encoded@, pos, 8));
            assert(self.spec_dec(encoded@, pos) == Ok::<_, DecodeError>(
                (acc as u64, pos + 8),
            ));
        }
        Ok(acc as u64)
    }

    proof fn lemma_round_trip(&self, buf: Seq<u8>, pos: int, v: u64) {
        lemma_pow256_widths();
        lemma_le_bytes_len(v as nat, 8);
        lemma_le_round(buf, pos, v as nat, 8);
    }

    proof fn lemma_canonical(&self, buf: Seq<u8>, pos: int) {
        if self.spec_dec(buf, pos) is Ok {
            lemma_pow256_widths();
            lemma_le_canonical(buf, pos, 8);
        }
    }

    proof fn lemma_short_eof(&self, buf: Seq<u8>, pos: int, v: u64, k: int) {
        lemma_le_bytes_len(v as nat, 8);
    }
}

/// The fixed-width little-endian codec for `u128`.
pub struct U128LE;

impl U128LE {
    pub fn codec() -> (r: Self)
        ensures
            r == U128LE,
    {
        U128LE
    }
}

impl Default for U128LE {
    fn default() -> (r: Self)
        ensures
            r == U128LE,
    {
        U128LE
    }
}

impl Measurer for U128LE {
    type Decoded = u128;

    open spec fn spec_enc(&self, v: u128) -> Option<Seq<u8>> {
        Some(le_bytes(v as nat, 16))
    }

    #[verifier::rlimit(30)]
    #[verifier::spinoff_prover]
    fn measure(&self, decoded: &u128) -> (r: Result<usize, EncodeError>) {
        proof {
            let v = *decoded;
            lemma_le_bytes_len(v as nat, 16);
            assert(self.spec_enc(decoded.deep_view()) == Some(le_bytes(*decoded as nat, 16)));
        }
        Ok(16)
    }
}

impl FixedMeasurer for U128LE {
    open spec fn spec_fixed(&self) -> nat {
        16
    }

    proof fn lemma_fixed(&self, v: u128) {
        lemma_le_bytes_len(v as nat, 16);
    }

    fn measure_fixed(&self) -> (r: usize) {
        16
    }
}

impl Encoder for U128LE {
    #[verifier::rlimit(30)]
    fn encode(
        &self,
        decoded: &u128,
        encoded: &mut Vec<u8>,
        offset: &mut usize,
    ) -> (r: Result<(), EncodeError>) {
        proof {
            lemma_le_bytes_len(*decoded as nat, 16);
            assert(self.spec_enc(decoded.deep_view()) == Some(le_bytes(*decoded as nat, 16)));
        }
        write_le(encoded, offset, *decoded as u128, 16)
    }
}

impl<'e> BorrowedDecoder<'e> for U128LE {
    type BDecoded = u128;

    open spec fn spec_dec(&self, buf: Seq<u8>, pos: int) -> Result<(u128, int), DecodeError> {
        if pos >= 0 && pos + 16 <= buf.len() {
            Ok((le_value_at(buf, pos, 16) as u128, pos + 16))
        } else {
            Err(DecodeError::EOF)
        }
    }

    open spec fn canonical(&self) -> bool {
        true
    }

    open spec fn short_input_eof(&self) -> bool {
        true
    }

    #[verifier::rlimit(30)]
    #[verifier::spinoff_prover]
    fn borrowed_decode(&self, encoded: &'e [u8], offset: &mut usize) -> (r: Result<
        u128,
        DecodeError,
    >) {
        let ghost pos = *offset as int;
        let acc = match read_le(encoded, offset, 16) {
            Ok(acc) => acc,
            Err(e) => {
                proof {
                    assert(self.spec_dec(encoded@, pos) == Err::<(u128, int), _>(
                        DecodeError::EOF,
                    ));
                }
                return Err(e);
            },
        };
        proof {
            lemma_pow256_widths();
            lemma_le_canonical(encoded@, pos, 16);
            assert((acc as u128) as nat == le_value_at(encoded@, pos, 16));
            assert(self.spec_dec(encoded@, pos) == Ok::<_, DecodeError>(
                (acc as u128, pos + 16),
            ));
        }
        Ok(acc as u128)
    }

    proof fn lemma_round_trip(&self, buf: Seq<u8>, pos: int, v: u128) {
        lemma_pow256_widths();
        lemma_le_bytes_len(v as nat, 16);
        lemma_le_round(buf, pos, v as nat, 16);
    }

    proof fn lemma_canonical(&self, buf: Seq<u8>, pos: int) {
        if self.spec_dec(buf, pos) is Ok {
            lemma_pow256_widths();
            lemma_le_canonical(buf, pos, 16);
        }
    }

    proof fn lemma_short_eof(&self, buf: Seq<u8>, pos: int, v: u128, k: int) {
        lemma_le_bytes_len(v as nat, 16);
    }
}

/// The fixed-width little-endian codec for `i16`.
pub struct I16LE;

impl I16LE {
    pub fn codec() -> (r: Self)
        ensures
            r == I16LE,
    {
        I16LE
    }
}

impl Default for I16LE {
    fn default() -> (r: Self)
        ensures
            r == I16LE,
    {
        I16LE
    }
}

impl Measurer for I16LE {
    type Decoded = i16;

    open spec fn spec_enc(&self, v: i16) -> Option<Seq<u8>> {
        Some(le_bytes(wrap_i16(v), 2))
    }

    #[verifier::rlimit(30)]
    #[verifier::spinoff_prover]
    fn measure(&self, decoded: &i16) -> (r: Result<usize, EncodeError>) {
        proof {
            let v = *decoded;
            lemma_le_bytes_len(wrap_i16(v), 2);
            assert(self.spec_enc(decoded.deep_view()) == Some(le_bytes(wrap_i16(*decoded), 2)));
        }
        Ok(2)
    }
}

impl FixedMeasurer for I16LE {
    open spec fn spec_fixed(&self) -> nat {
        2
    }

    proof fn lemma_fixed(&self, v: i16) {
        lemma_le_bytes_len(wrap_i16(v), 2);
    }

    fn measure_fixed(&self) -> (r: usize) {
        2
    }
}

impl Encoder for I16LE {
    #[verifier::rlimit(30)]
    fn encode(
        &self,
        decoded: &i16,
        encoded: &mut Vec<u8>,
        offset: &mut usize,
    ) -> (r: Result<(), EncodeError>) {
        let u: u16 = if *decoded >= 0 {
            *decoded as u16
        } else {
            ((*decoded as i32) + 0x1_0000) as u16
        };
        proof {
            assert(u as nat == wrap_i16(*decoded));
            lemma_le_bytes_len(wrap_i16(*decoded), 2);
            assert(self.spec_enc(decoded.deep_view()) == Some(le_bytes(
                wrap_i16(*decoded),
                2,
            )));
        }
        write_le(encoded, offset, u as u128, 2)
    }
}

impl<'e> BorrowedDecoder<'e> for I16LE {
    type BDecoded = i16;

    open spec fn spec_dec(&self, buf: Seq<u8>, pos: int) -> Result<(i16, int), DecodeError> {
        if pos >= 0 && pos + 2 <= buf.len() {
            Ok((unwrap_i16(le_value_at(buf, pos, 2)), pos + 2))
        } else {
            Err(DecodeError::EOF)
        }
    }

    open spec fn canonical(&self) -> bool {
        true
    }

    open spec fn short_input_eof(&self) -> bool {
        true
    }

    #[verifier::rlimit(30)]
    #[verifier::spinoff_prover]
    fn borrowed_decode(&self, encoded: &'e [u8], offset: &mut usize) -> (r: Result<
        i16,
        DecodeError,
    >) {
        let ghost pos = *offset as int;
        let acc = match read_le(encoded, offset, 2) {
            Ok(acc) => acc,
            Err(e) => {
                proof {
                    assert(self.spec_dec(encoded@, pos) == Err::<(i16, int), _>(
                        DecodeError::EOF,
                    ));
                }
                return Err(e);
            },
        };
        proof {
            lemma_pow256_widths();
            lemma_le_canonical(encoded@, pos, 2);
        }
        let n: u16 = acc as u16;
        let value: i16 = if n < 0x8000 {
            n as i16
        } else {
            ((n as i32) - 0x1_0000) as i16
        };
        proof {
            assert(value == unwrap_i16(le_value_at(encoded@, pos, 2)));
            assert(self.spec_dec(encoded@, pos) == Ok::<_, DecodeError>((value, pos + 2)));
        }
        Ok(value)
    }

    proof fn lemma_round_trip(&self, buf: Seq<u8>, pos: int, v: i16) {
        lemma_pow256_widths();
        lemma_le_bytes_len(wrap_i16(v), 2);
        lemma_le_round(buf, pos, wrap_i16(v), 2);
        assert(unwrap_i16(wrap_i16(v)) == v);
    }

    proof fn lemma_canonical(&self, buf: Seq<u8>, pos: int) {
        if self.spec_dec(buf, pos) is Ok {
            lemma_pow256_widths();
            lemma_le_canonical(buf, pos, 2);
            let n = le_value_at(buf, pos, 2);
            assert(wrap_i16(unwrap_i16(n)) == n);
        }
    }

    proof fn lemma_short_eof(&self, buf: Seq<u8>, pos: int, v: i16, k: int) {
        lemma_le_bytes_len(wrap_i16(v), 2);
    }
}

/// The fixed-width little-endian codec for `i32`.
pub struct I32LE;

impl I32LE {
    pub fn codec() -> (r: Self)
        ensures
            r == I32LE,
    {
        I32LE
    }
}

impl Default for I32LE {
    fn default() -> (r: Self)
        ensures
            r == I32LE,
    {
        I32LE
    }
}

impl Measurer for I32LE {
    type Decoded = i32;

    open spec fn spec_enc(&self, v: i32) -> Option<Seq<u8>> {
        Some(le_bytes(wrap_i32(v), 4))
    }

    #[verifier::rlimit(30)]
    #[verifier::spinoff_prover]
    fn measure(&self, decoded: &i32) -> (r: Result<usize, EncodeError>) {
        proof {
            let v = *decoded;
            lemma_le_bytes_len(wrap_i32(v), 4);
            assert(self.spec_enc(decoded.deep_view()) == Some(le_bytes(wrap_i32(*decoded), 4)));
        }
        Ok(4)
    }
}

impl FixedMeasurer for I32LE {
    open spec fn spec_fixed(&self) -> nat {
        4
    }

    proof fn lemma_fixed(&self, v: i32) {
        lemma_le_bytes_len(wrap_i32(v), 4);
    }

    fn measure_fixed(&self) -> (r: usize) {
        4
    }
}

impl Encoder for I32LE {
    #[verifier::rlimit(30)]
    fn encode(
        &self,
        decoded: &i32,
        encoded: &mut Vec<u8>,
        offset: &mut usize,
    ) -> (r: Result<(), EncodeError>) {
        let u: u32 = if *decoded >= 0 {
            *decoded as u32
        } else {
            ((*decoded as i64) + 0x1_0000_0000) as u32
        };
        proof {
            assert(u as nat == wrap_i32(*decoded));
            lemma_le_bytes_len(wrap_i32(*decoded), 4);
            assert(self.spec_enc(decoded.deep_view()) == Some(le_bytes(
                wrap_i32(*decoded),
                4,
            )));
        }
        write_le(encoded, offset, u as u128, 4)
    }
}

impl<'e> BorrowedDecoder<'e> for I32LE {
    type BDecoded = i32;

    open spec fn spec_dec(&self, buf: Seq<u8>, pos: int) -> Result<(i32, int), DecodeError> {
        if pos >= 0 && pos + 4 <= buf.len() {
            Ok((unwrap_i32(le_value_at(buf, pos, 4)), pos + 4))
        } else {
            Err(DecodeError::EOF)
        }
    }

    open spec fn canonical(&self) -> bool {
        true
    }

    open spec fn short_input_eof(&self) -> bool {
        true
    }

    #[verifier::rlimit(30)]
    #[verifier::spinoff_prover]
    fn borrowed_decode(&self, encoded: &'e [u8], offset: &mut usize) -> (r: Result<
        i32,
        DecodeError,
    >) {
        let ghost pos = *offset as int;
        let acc = match read_le(encoded, offset, 4) {
            Ok(acc) => acc,
            Err(e) => {
                proof {
                    assert(self.spec_dec(encoded@, pos) == Err::<(i32, int), _>(
                        DecodeError::EOF,
                    ));
                }
                return Err(e);
            },
        };
        proof {
            lemma_pow256_widths();
            lemma_le_canonical(encoded@, pos, 4);
        }
        let n: u32 = acc as u32;
        let value: i32 = if n < 0x8000_0000 {
            n as i32
        } else {
            ((n as i64) - 0x1_0000_0000) as i32
        };
        proof {
            assert(value == unwrap_i32(le_value_at(encoded@, pos, 4)));
            assert(self.spec_dec(encoded@, pos) == Ok::<_, DecodeError>((value, pos + 4)));
        }
        Ok(value)
    }

    proof fn lemma_round_trip(&self, buf: Seq<u8>, pos: int, v: i32) {
        lemma_pow256_widths();
        lemma_le_bytes_len(wrap_i32(v), 4);
        lemma_le_round(buf, pos, wrap_i32(v), 4);
        assert(unwrap_i32(wrap_i32(v)) == v);
    }

    proof fn lemma_canonical(&self, buf: Seq<u8>, pos: int) {
        if self.spec_dec(buf, pos) is Ok {
            lemma_pow256_widths();
            lemma_le_canonical(buf, pos, 4);
            let n = le_value_at(buf, pos, 4);
            assert(wrap_i32(unwrap_i32(n)) == n);
        }
    }

    proof fn lemma_short_eof(&self, buf: Seq<u8>, pos: int, v: i32, k: int) {
        lemma_le_bytes_len(wrap_i32(v), 4);
    }
}

/// The fixed-width little-endian codec for `i64`.
pub struct I64LE;

impl I64LE {
    pub fn codec() -> (r: Self)
        ensures
            r == I64LE,
    {
        I64LE
    }
}

impl Default for I64LE {
    fn default() -> (r: Self)
        ensures
            r == I64LE,
    {
        I64LE
    }
}

impl Measurer for I64LE {
    type Decoded = i64;

    open spec fn spec_enc(&self, v: i64) -> Option<Seq<u8>> {
        Some(le_bytes(wrap_i64(v), 8))
    }

    #[verifier::rlimit(30)]
    #[verifier::spinoff_prover]
    fn measure(&self, decoded: &i64) -> (r: Result<usize, EncodeError>) {
        proof {
            let v = *decoded;
            lemma_le_bytes_len(wrap_i64(v), 8);
            assert(self.spec_enc(decoded.deep_view()) == Some(le_bytes(wrap_i64(*decoded), 8)));
        }
        Ok(8)
    }
}

impl FixedMeasurer for I64LE {
    open spec fn spec_fixed(&self) -> nat {
        8
    }

    proof fn lemma_fixed(&self, v: i64) {
        lemma_le_bytes_len(wrap_i64(v), 8);
    }

    fn measure_fixed(&self) -> (r: usize) {
        8
    }
}

impl Encoder for I64LE {
    #[verifier::rlimit(30)]
    fn encode(
        &self,
        decoded: &i64,
        encoded: &mut Vec<u8>,
        offset: &mut usize,
    ) -> (r: Result<(), EncodeError>) {
        let u: u64 = if *decoded >= 0 {
            *decoded as u64
        } else {
            ((*decoded as i128) + 0x1_0000_0000_0000_0000) as u64
        };
        proof {
            assert(u as nat == wrap_i64(*decoded));
            lemma_le_bytes_len(wrap_i64(*decoded), 8);
            assert(self.spec_enc(decoded.deep_view()) == Some(le_bytes(
                wrap_i64(*decoded),
                8,
            )));
        }
        write_le(encoded, offset, u as u128, 8)
    }
}

impl<'e> BorrowedDecoder<'e> for I64LE {
    type BDecoded = i64;

    open spec fn spec_dec(&self, buf: Seq<u8>, pos: int) -> Result<(i64, int), DecodeError> {
        if pos >= 0 && pos + 8 <= buf.len() {
            Ok((unwrap_i64(le_value_at(buf, pos, 8)), pos + 8))
        } else {
            Err(DecodeError::EOF)
        }
    }

    open spec fn canonical(&self) -> bool {
        true
    }

    open spec fn short_input_eof(&self) -> bool {
        true
    }

    #[verifier::rlimit(30)]
    #[verifier::spinoff_prover]
    fn borrowed_decode(&self, encoded: &'e [u8], offset: &mut usize) -> (r: Result<
        i64,
        DecodeError,
    >) {
        let ghost pos = *offset as int;
        let acc = match read_le(encoded, offset, 8) {
            Ok(acc) => acc,
            Err(e) => {
                proof {
                    assert(self.spec_dec(encoded@, pos) == Err::<(i64, int), _>(
                        DecodeError::EOF,
                    ));
                }
                return Err(e);
            },
        };
        proof {
            lemma_pow256_widths();
            lemma_le_canonical(encoded@, pos, 8);
        }
        let n: u64 = acc as u64;
        let value: i64 = if n < 0x8000_0000_0000_0000 {
            n as i64
        } else {
            ((n as i128) - 0x1_0000_0000_0000_0000) as i64
        };
        proof {
            assert(value == unwrap_i64(le_value_at(encoded@, pos, 8)));
            assert(self.spec_dec(encoded@, pos) == Ok::<_, DecodeError>((value, pos + 8)));
        }
        Ok(value)
    }

    proof fn lemma_round_trip(&self, buf: Seq<u8>, pos: int, v: i64) {
        lemma_pow256_widths();
        lemma_le_bytes_len(wrap_i64(v), 8);
        lemma_le_round(buf, pos, wrap_i64(v), 8);
        assert(unwrap_i64(wrap_i64(v)) == v);
    }

    proof fn lemma_canonical(&self, buf: Seq<u8>, pos: int) {
        if self.spec_dec(buf, pos) is Ok {
            lemma_pow256_widths();
            lemma_le_canonical(buf, pos, 8);
            let n = le_value_at(buf, pos, 8);
            assert(wrap_i64(unwrap_i64(n)) == n);
        }
    }

    proof fn lemma_short_eof(&self, buf: Seq<u8>, pos: int, v: i64, k: int) {
        lemma_le_bytes_len(wrap_i64(v), 8);
    }
}

/// The fixed-width little-endian codec for `i128`.
pub struct I128LE;

impl I128LE {
    pub fn codec() -> (r: Self)
        ensures
            r == I128LE,
    {
        I128LE
    }
}

impl Default for I128LE {
    fn default() -> (r: Self)
        ensures
            r == I128LE,
    {
        I128LE
    }
}

impl Measurer for I128LE {
    type Decoded = i128;

    open spec fn spec_enc(&self, v: i128) -> Option<Seq<u8>> {
        Some(le_bytes(wrap_i128(v), 16))
    }

    #[verifier::rlimit(30)]
    #[verifier::spinoff_prover]
    fn measure(&self, decoded: &i128) -> (r: Result<usize, EncodeError>) {
        proof {
            let v = *decoded;
            lemma_le_bytes_len(wrap_i128(v), 16);
            assert(self.spec_enc(decoded.deep_view()) == Some(le_bytes(wrap_i128(*decoded), 16)));
        }
        Ok(16)
    }
}

impl FixedMeasurer for I128LE {
    open spec fn spec_fixed(&self) -> nat {
        16
    }

    proof fn lemma_fixed(&self, v: i128) {
        lemma_le_bytes_len(wrap_i128(v), 16);
    }

    fn measure_fixed(&self) -> (r: usize) {
        16
    }
}

impl Encoder for I128LE {
    #[verifier::rlimit(30)]
    fn encode(
        &self,
        decoded: &i128,
        encoded: &mut Vec<u8>,
        offset: &mut usize,
    ) -> (r: Result<(), EncodeError>) {
        let u: u128 = if *decoded >= 0 {
            *decoded as u128
        } else {
            u128::MAX - ((-(*decoded + 1)) as u128)
        };
        proof {
            assert(u as nat == wrap_i128(*decoded));
            lemma_le_bytes_len(wrap_i128(*decoded), 16);
            assert(self.spec_enc(decoded.deep_view()) == Some(le_bytes(
                wrap_i128(*decoded),
                16,
            )));
        }
        write_le(encoded, offset, u as u128, 16)
    }
}

impl<'e> BorrowedDecoder<'e> for I128LE {
    type BDecoded = i128;

    open spec fn spec_dec(&self, buf: Seq<u8>, pos: int) -> Result<(i128, int), DecodeError> {
        if pos >= 0 && pos + 16 <= buf.len() {
            Ok((unwrap_i128(le_value_at(buf, pos, 16)), pos + 16))
        } else {
            Err(DecodeError::EOF)
        }
    }

    open spec fn canonical(&self) -> bool {
        true
    }

    open spec fn short_input_eof(&self) -> bool {
        true
    }

    #[verifier::rlimit(30)]
    #[verifier::spinoff_prover]
    fn borrowed_decode(&self, encoded: &'e [u8], offset: &mut usize) -> (r: Result<
        i128,
        DecodeError,
    >) {
        let ghost pos = *offset as int;
        let acc = match read_le(encoded, offset, 16) {
            Ok(acc) => acc,
            Err(e) => {
                proof {
                    assert(self.spec_dec(encoded@, pos) == Err::<(i128, int), _>(
                        DecodeError::EOF,
                    ));
                }
                return Err(e);
            },
        };
        proof {
            lemma_pow256_widths();
            lemma_le_canonical(encoded@, pos, 16);
        }
        let n: u128 = acc;
        let value: i128 = if n < 0x8000_0000_0000_0000_0000_0000_0000_0000 {
            n as i128
        } else {
            -((u128::MAX - n) as i128) - 1
        };
        proof {
            assert(value == unwrap_i128(le_value_at(encoded@, pos, 16)));
            assert(self.spec_dec(encoded@, pos) == Ok::<_, DecodeError>((value, pos + 16)));
        }
        Ok(value)
    }

    proof fn lemma_round_trip(&self, buf: Seq<u8>, pos: int, v: i128) {
        lemma_pow256_widths();
        lemma_le_bytes_len(wrap_i128(v), 16);
        lemma_le_round(buf, pos, wrap_i128(v), 16);
        assert(unwrap_i128(wrap_i128(v)) == v);
    }

    proof fn lemma_canonical(&self, buf: Seq<u8>, pos: int) {
        if self.spec_dec(buf, pos) is Ok {
            lemma_pow256_widths();
            lemma_le_canonical(buf, pos, 16);
            let n = le_value_at(buf, pos, 16);
            assert(wrap_i128(unwrap_i128(n)) == n);
        }
    }

    proof fn lemma_short_eof(&self, buf: Seq<u8>, pos: int, v: i128, k: int) {
        lemma_le_bytes_len(wrap_i128(v), 16);
    }
}

} // verus!
