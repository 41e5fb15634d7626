//! A worked record schema built against the combinator API, written the
//! way the external schema layer is expected to emit it.
//!
//! [`Person`] is a record whose fields decode and encode in declaration
//! order, each with its chosen codec: a big-endian `u32` id, a UTF-8 name
//! with a one-byte length prefix, a fixed-size sub-record, and a
//! varint-length-prefixed list of a tagged union. [`Color`] is the union:
//! a `u16` little-endian discriminant chooses the variant, then the
//! variant's fields follow; an unknown discriminant fails with
//! `InvalidDiscriminant`. Its `Gradient` variant nests two further colors,
//! exercising recursive dispatch.
use vstd::prelude::*;

use crate::bytes::read_byte;
use crate::bytes::spliced;
use crate::bytes::write_byte;
use crate::prim::be_bytes;
use vstd::utf8::decode_utf8;
use vstd::utf8::encode_utf8;
use vstd::utf8::valid_utf8;
use crate::prim::be_value_at;
use crate::prim::le_bytes;
use crate::prim::le_value_at;
use crate::prim::lemma_be_bytes_len;
use crate::prim::lemma_le_bytes_len;
use crate::prim::lemma_pow256_widths;
use crate::BorrowedDecoder;
use crate::Decode;
use crate::DecodeError;
use crate::DecodeOwned;
use crate::Encode;
use crate::EncodeError;
use crate::Encoder;
use crate::Measure;
use crate::MeasureFixed;
use crate::Measurer;

verus! {

/// A fixed-size sub-record: two single bytes and a big-endian year.
#[derive(Debug, Clone, Copy, PartialEq, Eq, Structural)]
pub struct Date {
    pub day: u8,
    pub month: u8,
    pub year: u16,
}

impl DeepView for Date {
    type V = Date;

    open spec fn deep_view(&self) -> Date {
        *self
    }
}

impl Measure for Date {
    open spec fn encoded_of(v: Date) -> Option<Seq<u8>> {
        Some(seq![v.day, v.month] + be_bytes(v.year as nat, 2))
    }

    fn measure(&self) -> (r: Result<usize, EncodeError>) {
        proof {
            lemma_be_bytes_len(self.year as nat, 2);
        }
        Ok(4)
    }
}

impl MeasureFixed for Date {
    open spec fn fixed_size() -> nat {
        4
    }

    proof fn lemma_fixed(v: Date) {
        lemma_be_bytes_len(v.year as nat, 2);
    }

    fn measure_fixed() -> (r: usize) {
        4
    }
}

impl Encode for Date {
    fn encode(&self, encoded: &mut Vec<u8>, offset: &mut usize) -> (r: Result<(), EncodeError>) {
        proof {
            lemma_be_bytes_len(self.year as nat, 2);
        }
        let ghost pre = encoded@;
        let ghost at = *offset as int;
        match write_byte(encoded, offset, self.day) {
            Ok(()) => {
            },
            Err(e) => {
                return Err(e);
            },
        }
        proof {
            crate::bytes::lemma_spliced_byte(pre, encoded@, at, self.day);
        }
        let ghost mid1 = encoded@;
        match write_byte(encoded, offset, self.month) {
            Ok(()) => {
            },
            Err(e) => {
                proof {
                    crate::bytes::lemma_spliced_prefix_eq(pre, mid1, at, seq![self.day], at);
                }
                return Err(e);
            },
        }
        proof {
            crate::bytes::lemma_spliced_push(pre, mid1, encoded@, at, seq![self.day], self.month);
        }
        let ghost mid2 = encoded@;
        let r = crate::prim::U16BE.encode(&self.year, encoded, offset);
        proof {
            let two = seq![self.day].push(self.month);
            assert(two =~= seq![self.day, self.month]);
            if r is Ok {
                crate::bytes::lemma_spliced_concat(
                    pre,
                    mid2,
                    encoded@,
                    at,
                    two,
                    be_bytes(self.year as nat, 2),
                );
            } else {
                crate::bytes::lemma_spliced_prefix_eq(pre, mid2, at, two, at);
            }
        }
        r
    }
}

/// Reading a date at `pos`: its four bytes, or `EOF`.
pub open spec fn date_dec(buf: Seq<u8>, pos: int) -> Result<(Date, int), DecodeError> {
    if pos >= 0 && pos + 4 <= buf.len() {
        Ok(
            (
                Date {
                    day: buf[pos],
                    month: buf[pos + 1],
                    year: be_value_at(buf, pos + 2, 2) as u16,
                },
                pos + 4,
            ),
        )
    } else {
        Err(DecodeError::EOF)
    }
}

impl<'e> Decode<'e> for Date {
    open spec fn decoded_at(buf: Seq<u8>, pos: int) -> Result<(Date, int), DecodeError> {
        date_dec(buf, pos)
    }

    open spec fn canonical_wire() -> bool {
        true
    }

    open spec fn short_wire_eof() -> bool {
        true
    }

    fn decode(encoded: &'e [u8], offset: &mut usize) -> (r: Result<Date, DecodeError>) {
        if encoded.len() - *offset < 4 {
            return Err(DecodeError::EOF);
        }
        let day = read_byte(encoded, offset)?;
        let month = read_byte(encoded, offset)?;
        let year = crate::prim::U16BE.borrowed_decode(encoded, offset)?;
        Ok(Date { day, month, year })
    }

    proof fn lemma_round_trip(buf: Seq<u8>, pos: int, v: Date) {
        let s = Self::encoded_of(v)->0;
        lemma_be_bytes_len(v.year as nat, 2);
        lemma_pow256_widths();
        assert(buf[pos] == buf.subrange(pos, pos + 4)[0]);
        assert(buf[pos + 1] == buf.subrange(pos, pos + 4)[1]);
        assert(buf.subrange(pos + 2, pos + 4) == be_bytes(v.year as nat, 2)) by {
            assert forall|j: int| 0 <= j < 2 implies #[trigger] (buf.subrange(pos + 2, pos + 4)[j])
                == be_bytes(v.year as nat, 2)[j] by {
                assert(buf.subrange(pos, pos + 4)[2 + j] == buf[pos + 2 + j]);
                assert((seq![v.day, v.month] + be_bytes(v.year as nat, 2))[2 + j] == be_bytes(
                    v.year as nat,
                    2,
                )[j]);
            }
            assert(buf.subrange(pos + 2, pos + 4) =~= be_bytes(v.year as nat, 2));
        }
        crate::prim::lemma_be_round(buf, pos + 2, v.year as nat, 2);
    }

    proof fn lemma_canonical(buf: Seq<u8>, pos: int) {
        if Self::decoded_at(buf, pos) is Ok {
            lemma_pow256_widths();
            crate::prim::lemma_be_canonical(buf, pos + 2, 2);
            let v = Self::decoded_at(buf, pos)->Ok_0.0;
            lemma_be_bytes_len(v.year as nat, 2);
            assert(Self::encoded_of(v)->0 =~= buf.subrange(pos, pos + 4));
        }
    }

    proof fn lemma_short_eof(buf: Seq<u8>, pos: int, v: Date, k: int) {
        lemma_be_bytes_len(v.year as nat, 2);
    }
}

impl DecodeOwned for Date {

}

/// A tagged union dispatched on a `u16` little-endian discriminant.
#[derive(Debug, PartialEq, Eq)]
pub enum Color {
    Red,
    Green,
    Blue,
    Grayscale(u16),
    RGBa { red: u8, green: u8, blue: u8, alpha: u16 },
    Gradient(Box<Color>, Box<Color>),
    ColorCode(u64),
    Unknown(),
}

impl DeepView for Color {
    type V = Color;

    open spec fn deep_view(&self) -> Color {
        *self
    }
}

impl Clone for Color {
    fn clone(&self) -> (r: Self)
        ensures
            r == *self,
        decreases *self,
    {
        match self {
            Color::Red => Color::Red,
            Color::Green => Color::Green,
            Color::Blue => Color::Blue,
            Color::Grayscale(x) => Color::Grayscale(*x),
            Color::RGBa { red, green, blue, alpha } => Color::RGBa {
                red: *red,
                green: *green,
                blue: *blue,
                alpha: *alpha,
            },
            Color::Gradient(a, b) => Color::Gradient(
                Box::new((**a).clone()),
                Box::new((**b).clone()),
            ),
            Color::ColorCode(x) => Color::ColorCode(*x),
            Color::Unknown() => Color::Unknown(),
        }
    }
}

/// The wire bytes of a color: its variant's discriminant, then the
/// variant's fields in declaration order.
pub open spec fn color_enc(c: Color) -> Option<Seq<u8>>
    decreases c,
{
    match c {
        Color::Red => Some(le_bytes(1, 2)),
        Color::Green => Some(le_bytes(2, 2)),
        Color::Blue => Some(le_bytes(3, 2)),
        Color::Grayscale(x) => Some(le_bytes(4, 2) + be_bytes(x as nat, 2)),
        Color::RGBa { red, green, blue, alpha } => Some(
            le_bytes(5, 2) + seq![red, green, blue] + be_bytes(alpha as nat, 2),
        ),
        Color::Gradient(a, b) => match (color_enc(*a), color_enc(*b)) {
            (Some(sa), Some(sb)) => if 2 + sa.len() + sb.len() <= usize::MAX {
                Some(le_bytes(6, 2) + sa + sb)
            } else {
                None
            },
            _ => None,
        },
        Color::ColorCode(x) => Some(le_bytes(7, 2) + be_bytes(x as nat, 8)),
        Color::Unknown() => Some(le_bytes(255, 2)),
    }
}

/// A functional model of color decoding, with `fuel` bounding the
/// recursion depth; any fuel at least the remaining buffer length gives
/// the decoder's exact behaviour.
pub open spec fn color_dec(buf: Seq<u8>, pos: int, fuel: nat) -> Result<(Color, int), DecodeError>
    decreases fuel,
{
    if pos < 0 || pos + 2 > buf.len() {
        Err(DecodeError::EOF)
    } else {
        let d = le_value_at(buf, pos, 2);
        let p = pos + 2;
        if d == 1 {
            Ok((Color::Red, p))
        } else if d == 2 {
            Ok((Color::Green, p))
        } else if d == 3 {
            Ok((Color::Blue, p))
        } else if d == 4 {
            if p + 2 <= buf.len() {
                Ok((Color::Grayscale(be_value_at(buf, p, 2) as u16), p + 2))
            } else {
                Err(DecodeError::EOF)
            }
        } else if d == 5 {
            if p + 5 <= buf.len() {
                Ok(
                    (
                        Color::RGBa {
                            red: buf[p],
                            green: buf[p + 1],
                            blue: buf[p + 2],
                            alpha: be_value_at(buf, p + 3, 2) as u16,
                        },
                        p + 5,
                    ),
                )
            } else {
                Err(DecodeError::EOF)
            }
        } else if d == 6 {
            if fuel == 0 {
                Err(DecodeError::EOF)
            } else {
                match color_dec(buf, p, (fuel - 1) as nat) {
                    Err(e) => Err(e),
                    Ok((a, p1)) => match color_dec(buf, p1, (fuel - 1) as nat) {
                        Err(e) => Err(e),
                        Ok((b, p2)) => Ok((Color::Gradient(Box::new(a), Box::new(b)), p2)),
                    },
                }
            }
        } else if d == 7 {
            if p + 8 <= buf.len() {
                Ok((Color::ColorCode(be_value_at(buf, p, 8) as u64), p + 8))
            } else {
                Err(DecodeError::EOF)
            }
        } else if d == 255 {
            Ok((Color::Unknown(), p))
        } else {
            Err(DecodeError::InvalidDiscriminant)
        }
    }
}

/// The fuel that makes the model exact at `pos`.
pub open spec fn color_fuel(buf: Seq<u8>, pos: int) -> nat {
    if 0 <= pos <= buf.len() {
        (buf.len() - pos) as nat
    } else {
        0
    }
}

/// A successful color decode consumes at least its discriminant and stays
/// inside the buffer.
pub proof fn lemma_color_dec_pos(buf: Seq<u8>, pos: int, fuel: nat)
    ensures
        color_dec(buf, pos, fuel) matches Ok((c, end)) ==> pos + 2 <= end <= buf.len(),
    decreases fuel,
{
    if 0 <= pos && pos + 2 <= buf.len() {
        let d = le_value_at(buf, pos, 2);
        let p = pos + 2;
        if d == 6 && fuel > 0 {
            lemma_color_dec_pos(buf, p, (fuel - 1) as nat);
            if color_dec(buf, p, (fuel - 1) as nat) is Ok {
                let p1 = color_dec(buf, p, (fuel - 1) as nat)->Ok_0.1;
                lemma_color_dec_pos(buf, p1, (fuel - 1) as nat);
            }
        }
    }
}

/// Any two fuels at least the remaining buffer length decode alike.
pub proof fn lemma_color_dec_fuel(buf: Seq<u8>, pos: int, f1: nat, f2: nat)
    requires
        buf.len() - pos <= f1,
        buf.len() - pos <= f2,
    ensures
        color_dec(buf, pos, f1) == color_dec(buf, pos, f2),
    decreases f1,
{
    if 0 <= pos && pos + 2 <= buf.len() {
        let d = le_value_at(buf, pos, 2);
        let p = pos + 2;
        if d == 6 {
            lemma_color_dec_fuel(buf, p, (f1 - 1) as nat, (f2 - 1) as nat);
            if color_dec(buf, p, (f1 - 1) as nat) is Ok {
                let p1 = color_dec(buf, p, (f1 - 1) as nat)->Ok_0.1;
                lemma_color_dec_pos(buf, p, (f1 - 1) as nat);
                lemma_color_dec_fuel(buf, p1, (f1 - 1) as nat, (f2 - 1) as nat);
            }
        }
    }
}




} // verus!

verus! {

impl Measure for Color {
    open spec fn encoded_of(v: Color) -> Option<Seq<u8>> {
        color_enc(v)
    }

    open spec fn enc_fail_of(v: Color, e: EncodeError) -> bool {
        e == EncodeError::InvalidUSize
    }

    fn measure(&self) -> (r: Result<usize, EncodeError>)
        decreases *self,
    {
        match self {
            Color::Red => {
                proof {
                    lemma_le_bytes_len(1, 2);
                }
                Ok(2)
            },
            Color::Green => {
                proof {
                    lemma_le_bytes_len(2, 2);
                }
                Ok(2)
            },
            Color::Blue => {
                proof {
                    lemma_le_bytes_len(3, 2);
                }
                Ok(2)
            },
            Color::Grayscale(x) => {
                proof {
                    lemma_le_bytes_len(4, 2);
                    lemma_be_bytes_len(*x as nat, 2);
                }
                Ok(4)
            },
            Color::RGBa { red, green, blue, alpha } => {
                proof {
                    lemma_le_bytes_len(5, 2);
                    lemma_be_bytes_len(*alpha as nat, 2);
                }
                Ok(7)
            },
            Color::Gradient(a, b) => {
                proof {
                    lemma_le_bytes_len(6, 2);
                }
                let ma = match (&**a).measure() {
                    Ok(m) => m,
                    Err(e) => {
                        return Err(e);
                    },
                };
                let mb = match (&**b).measure() {
                    Ok(m) => m,
                    Err(e) => {
                        return Err(e);
                    },
                };
                if ma > usize::MAX - 2 {
                    return Err(EncodeError::InvalidUSize);
                }
                if mb > usize::MAX - 2 - ma {
                    return Err(EncodeError::InvalidUSize);
                }
                Ok(2 + ma + mb)
            },
            Color::ColorCode(x) => {
                proof {
                    lemma_le_bytes_len(7, 2);
                    lemma_be_bytes_len(*x as nat, 8);
                }
                Ok(10)
            },
            Color::Unknown() => {
                proof {
                    lemma_le_bytes_len(255, 2);
                }
                Ok(2)
            },
        }
    }
}

impl Encode for Color {
    #[verifier::spinoff_prover]
    #[verifier::rlimit(100)]
    fn encode(&self, encoded: &mut Vec<u8>, offset: &mut usize) -> (r: Result<(), EncodeError>)
        decreases *self,
    {
        let ghost pre = encoded@;
        let ghost at = *offset as int;
        match self {
            Color::Red => {
                let disc: u16 = 1;
                crate::prim::U16LE.encode(&disc, encoded, offset)
            },
            Color::Green => {
                let disc: u16 = 2;
                crate::prim::U16LE.encode(&disc, encoded, offset)
            },
            Color::Blue => {
                let disc: u16 = 3;
                crate::prim::U16LE.encode(&disc, encoded, offset)
            },
            Color::Grayscale(x) => {
                proof {
                    lemma_le_bytes_len(4, 2);
                    lemma_be_bytes_len(*x as nat, 2);
                }
                let disc: u16 = 4;
                match crate::prim::U16LE.encode(&disc, encoded, offset) {
                    Ok(()) => {
                    },
                    Err(e) => {
                        return Err(e);
                    },
                }
                let ghost mid = encoded@;
                let r = crate::prim::U16BE.encode(x, encoded, offset);
                proof {
                    if r is Ok {
                        crate::bytes::lemma_spliced_concat(
                            pre,
                            mid,
                            encoded@,
                            at,
                            le_bytes(4, 2),
                            be_bytes(*x as nat, 2),
                        );
                    } else {
                        crate::bytes::lemma_spliced_prefix_eq(pre, mid, at, le_bytes(4, 2), at);
                    }
                }
                r
            },
            Color::RGBa { red, green, blue, alpha } => {
                proof {
                    lemma_le_bytes_len(5, 2);
                    lemma_be_bytes_len(*alpha as nat, 2);
                }
                let disc: u16 = 5;
                match crate::prim::U16LE.encode(&disc, encoded, offset) {
                    Ok(()) => {
                    },
                    Err(e) => {
                        return Err(e);
                    },
                }
                let ghost m1 = encoded@;
                match write_byte(encoded, offset, *red) {
                    Ok(()) => {
                    },
                    Err(e) => {
                        proof {
                            crate::bytes::lemma_spliced_prefix_eq(pre, m1, at, le_bytes(5, 2), at);
                        }
                        return Err(e);
                    },
                }
                proof {
                    crate::bytes::lemma_spliced_push(
                        pre,
                        m1,
                        encoded@,
                        at,
                        le_bytes(5, 2),
                        *red,
                    );
                }
                let ghost m2 = encoded@;
                match write_byte(encoded, offset, *green) {
                    Ok(()) => {
                    },
                    Err(e) => {
                        proof {
                            crate::bytes::lemma_spliced_prefix_eq(
                                pre,
                                m2,
                                at,
                                le_bytes(5, 2).push(*red),
                                at,
                            );
                        }
                        return Err(e);
                    },
                }
                proof {
                    crate::bytes::lemma_spliced_push(
                        pre,
                        m2,
                        encoded@,
                        at,
                        le_bytes(5, 2).push(*red),
                        *green,
                    );
                }
                let ghost m3 = encoded@;
                match write_byte(encoded, offset, *blue) {
                    Ok(()) => {
                    },
                    Err(e) => {
                        proof {
                            crate::bytes::lemma_spliced_prefix_eq(
                                pre,
                                m3,
                                at,
                                le_bytes(5, 2).push(*red).push(*green),
                                at,
                            );
                        }
                        return Err(e);
                    },
                }
                proof {
                    crate::bytes::lemma_spliced_push(
                        pre,
                        m3,
                        encoded@,
                        at,
                        le_bytes(5, 2).push(*red).push(*green),
                        *blue,
                    );
                }
                let ghost m4 = encoded@;
                let ghost head = le_bytes(5, 2).push(*red).push(*green).push(*blue);
                let r = crate::prim::U16BE.encode(alpha, encoded, offset);
                proof {
                    assert(head =~= le_bytes(5, 2) + seq![*red, *green, *blue]);
                    if r is Ok {
                        crate::bytes::lemma_spliced_concat(
                            pre,
                            m4,
                            encoded@,
                            at,
                            head,
                            be_bytes(*alpha as nat, 2),
                        );
                    } else {
                        crate::bytes::lemma_spliced_prefix_eq(pre, m4, at, head, at);
                    }
                }
                r
            },
            Color::Gradient(a, b) => {
                proof {
                    lemma_le_bytes_len(6, 2);
                }
                let disc: u16 = 6;
                match crate::prim::U16LE.encode(&disc, encoded, offset) {
                    Ok(()) => {
                    },
                    Err(e) => {
                        return Err(e);
                    },
                }
                let ghost m1 = encoded@;
                match (&**a).encode(encoded, offset) {
                    Ok(()) => {
                    },
                    Err(e) => {
                        proof {
                            crate::bytes::lemma_spliced_prefix_eq(pre, m1, at, le_bytes(6, 2), at);
                        }
                        return Err(e);
                    },
                }
                proof {
                    let sa = color_enc(**a).unwrap();
                    crate::bytes::lemma_spliced_concat(pre, m1, encoded@, at, le_bytes(6, 2), sa);
                }
                let ghost m2 = encoded@;
                let ghost head = le_bytes(6, 2) + color_enc(**a).unwrap();
                let r = (&**b).encode(encoded, offset);
                proof {
                    match color_enc(**b) {
                        Some(sb) => {
                            if r is Ok {
                                crate::bytes::lemma_spliced_concat(
                                    pre,
                                    m2,
                                    encoded@,
                                    at,
                                    head,
                                    sb,
                                );
                                assert(at + head.len() + sb.len() <= encoded.len()
                                    <= usize::MAX);
                            } else {
                                crate::bytes::lemma_spliced_prefix_eq(pre, m2, at, head, at);
                            }
                        },
                        None => {
                            crate::bytes::lemma_spliced_prefix_eq(pre, m2, at, head, at);
                        },
                    }
                }
                r
            },
            Color::ColorCode(x) => {
                proof {
                    lemma_le_bytes_len(7, 2);
                    lemma_be_bytes_len(*x as nat, 8);
                }
                let disc: u16 = 7;
                match crate::prim::U16LE.encode(&disc, encoded, offset) {
                    Ok(()) => {
                    },
                    Err(e) => {
                        return Err(e);
                    },
                }
                let ghost mid = encoded@;
                let r = crate::prim::U64BE.encode(x, encoded, offset);
                proof {
                    if r is Ok {
                        crate::bytes::lemma_spliced_concat(
                            pre,
                            mid,
                            encoded@,
                            at,
                            le_bytes(7, 2),
                            be_bytes(*x as nat, 8),
                        );
                    } else {
                        crate::bytes::lemma_spliced_prefix_eq(pre, mid, at, le_bytes(7, 2), at);
                    }
                }
                r
            },
            Color::Unknown() => {
                let disc: u16 = 255;
                crate::prim::U16LE.encode(&disc, encoded, offset)
            },
        }
    }
}

impl<'e> Decode<'e> for Color {
    open spec fn decoded_at(buf: Seq<u8>, pos: int) -> Result<(Color, int), DecodeError> {
        color_dec(buf, pos, color_fuel(buf, pos))
    }

    open spec fn canonical_wire() -> bool {
        true
    }

    open spec fn short_wire_eof() -> bool {
        false
    }

    fn decode(encoded: &'e [u8], offset: &mut usize) -> (r: Result<Color, DecodeError>)
        decreases encoded.len() - *offset,
    {
        let ghost pos0 = *offset as int;
        let d = match crate::prim::U16LE.borrowed_decode(encoded, offset) {
            Ok(d) => d,
            Err(e) => {
                return Err(e);
            },
        };
        proof {
            lemma_pow256_widths();
            crate::prim::lemma_le_canonical(encoded@, pos0, 2);
            assert(le_value_at(encoded@, pos0, 2) == d as nat);
        }
        match d {
            1 => Ok(Color::Red),
            2 => Ok(Color::Green),
            3 => Ok(Color::Blue),
            4 => {
                let x = crate::prim::U16BE.borrowed_decode(encoded, offset)?;
                Ok(Color::Grayscale(x))
            },
            5 => {
                let ghost p = *offset as int;
                if encoded.len() - *offset < 5 {
                    return Err(DecodeError::EOF);
                }
                let red = read_byte(encoded, offset)?;
                let green = read_byte(encoded, offset)?;
                let blue = read_byte(encoded, offset)?;
                let alpha = crate::prim::U16BE.borrowed_decode(encoded, offset)?;
                Ok(Color::RGBa { red, green, blue, alpha })
            },
            6 => {
                proof {
                    assert(color_fuel(encoded@, pos0) >= 2);
                    lemma_color_dec_fuel(
                        encoded@,
                        *offset as int,
                        (color_fuel(encoded@, pos0) - 1) as nat,
                        color_fuel(encoded@, *offset as int),
                    );
                }
                let ghost p = *offset as int;
                let a = match Color::decode(encoded, offset) {
                    Ok(a) => a,
                    Err(e) => {
                        return Err(e);
                    },
                };
                proof {
                    lemma_color_dec_pos(encoded@, p, color_fuel(encoded@, p));
                    lemma_color_dec_fuel(
                        encoded@,
                        *offset as int,
                        (color_fuel(encoded@, pos0) - 1) as nat,
                        color_fuel(encoded@, *offset as int),
                    );
                }
                let b = match Color::decode(encoded, offset) {
                    Ok(b) => b,
                    Err(e) => {
                        return Err(e);
                    },
                };
                Ok(Color::Gradient(Box::new(a), Box::new(b)))
            },
            7 => {
                let x = crate::prim::U64BE.borrowed_decode(encoded, offset)?;
                Ok(Color::ColorCode(x))
            },
            255 => Ok(Color::Unknown()),
            _ => Err(DecodeError::InvalidDiscriminant),
        }
    }

    proof fn lemma_round_trip(buf: Seq<u8>, pos: int, v: Color)
        decreases v,
    {
        let s = color_enc(v)->0;
        lemma_pow256_widths();
        match v {
            Color::Red => {
                lemma_le_bytes_len(1, 2);
                crate::prim::lemma_le_round(buf, pos, 1, 2);
            },
            Color::Green => {
                lemma_le_bytes_len(2, 2);
                crate::prim::lemma_le_round(buf, pos, 2, 2);
            },
            Color::Blue => {
                lemma_le_bytes_len(3, 2);
                crate::prim::lemma_le_round(buf, pos, 3, 2);
            },
            Color::Grayscale(x) => {
                lemma_le_bytes_len(4, 2);
                lemma_be_bytes_len(x as nat, 2);
                crate::bytes::lemma_window_cut(buf, pos, s, 0, 2);
                assert(s.subrange(0, 2) =~= le_bytes(4, 2));
                crate::prim::lemma_le_round(buf, pos, 4, 2);
                crate::bytes::lemma_window_cut(buf, pos, s, 2, 4);
                assert(s.subrange(2, 4) =~= be_bytes(x as nat, 2));
                crate::prim::lemma_be_round(buf, pos + 2, x as nat, 2);
            },
            Color::RGBa { red, green, blue, alpha } => {
                lemma_le_bytes_len(5, 2);
                lemma_be_bytes_len(alpha as nat, 2);
                crate::bytes::lemma_window_cut(buf, pos, s, 0, 2);
                assert(s.subrange(0, 2) =~= le_bytes(5, 2));
                crate::prim::lemma_le_round(buf, pos, 5, 2);
                assert(buf[pos + 2] == red && buf[pos + 3] == green && buf[pos + 4] == blue) by {
                    assert(buf.subrange(pos, pos + 7)[2] == buf[pos + 2]);
                    assert(buf.subrange(pos, pos + 7)[3] == buf[pos + 3]);
                    assert(buf.subrange(pos, pos + 7)[4] == buf[pos + 4]);
                    assert(s[2] == red && s[3] == green && s[4] == blue);
                }
                crate::bytes::lemma_window_cut(buf, pos, s, 5, 7);
                assert(s.subrange(5, 7) =~= be_bytes(alpha as nat, 2));
                crate::prim::lemma_be_round(buf, pos + 5, alpha as nat, 2);
            },
            Color::Gradient(a, b) => {
                lemma_le_bytes_len(6, 2);
                let sa = color_enc(*a)->0;
                let sb = color_enc(*b)->0;
                assert(s == le_bytes(6, 2) + sa + sb);
                crate::bytes::lemma_window_cut(buf, pos, s, 0, 2);
                assert(s.subrange(0, 2) =~= le_bytes(6, 2));
                crate::prim::lemma_le_round(buf, pos, 6, 2);
                let p = pos + 2;
                crate::bytes::lemma_window_cut(buf, pos, s, 2, 2 + sa.len() as int);
                assert(s.subrange(2, 2 + sa.len() as int) =~= sa);
                Self::lemma_round_trip(buf, p, *a);
                let p1 = p + sa.len() as int;
                crate::bytes::lemma_window_cut(buf, pos, s, 2 + sa.len() as int, s.len() as int);
                assert(s.subrange(2 + sa.len() as int, s.len() as int) =~= sb);
                Self::lemma_round_trip(buf, p1, *b);
                let fuel = color_fuel(buf, pos);
                assert(fuel >= s.len() >= 2);
                lemma_color_dec_fuel(buf, p, (fuel - 1) as nat, color_fuel(buf, p));
                lemma_color_dec_fuel(buf, p1, (fuel - 1) as nat, color_fuel(buf, p1));
                assert(color_dec(buf, pos, fuel) == Ok::<_, DecodeError>(
                    (Color::Gradient(Box::new(*a), Box::new(*b)), p1 + sb.len() as int),
                ));
                assert(Color::Gradient(Box::new(*a), Box::new(*b)) == v);
            },
            Color::ColorCode(x) => {
                lemma_le_bytes_len(7, 2);
                lemma_be_bytes_len(x as nat, 8);
                crate::bytes::lemma_window_cut(buf, pos, s, 0, 2);
                assert(s.subrange(0, 2) =~= le_bytes(7, 2));
                crate::prim::lemma_le_round(buf, pos, 7, 2);
                crate::bytes::lemma_window_cut(buf, pos, s, 2, 10);
                assert(s.subrange(2, 10) =~= be_bytes(x as nat, 8));
                crate::prim::lemma_be_round(buf, pos + 2, x as nat, 8);
            },
            Color::Unknown() => {
                lemma_le_bytes_len(255, 2);
                crate::prim::lemma_le_round(buf, pos, 255, 2);
            },
        }
    }

    proof fn lemma_canonical(buf: Seq<u8>, pos: int) {
        lemma_color_dec_canonical(buf, pos, color_fuel(buf, pos));
    }

    proof fn lemma_short_eof(buf: Seq<u8>, pos: int, v: Color, k: int) {
        lemma_color_short_eof(buf, pos, v, k);
    }
}

/// A buffer ending part-way through a color encoding decodes to `EOF`.
#[verifier::rlimit(100)]
proof fn lemma_color_short_eof(buf: Seq<u8>, pos: int, v: Color, k: int)
    requires
        0 <= pos,
        color_enc(v) is Some,
        0 <= k < color_enc(v)->0.len(),
        buf.len() == pos + k,
        buf.subrange(pos, pos + k) == color_enc(v)->0.subrange(0, k),
    ensures
        color_dec(buf, pos, color_fuel(buf, pos)) == Err::<(Color, int), _>(DecodeError::EOF),
    decreases v,
{
    {
        let s = color_enc(v)->0;
        lemma_pow256_widths();
        lemma_color_enc_len(v);
        if k < 2 {
        } else {
            assert(buf.subrange(pos, pos + 2) == s.subrange(0, 2)) by {
                assert forall|j: int| 0 <= j < 2 implies #[trigger] (buf.subrange(pos, pos + 2)[j])
                    == s.subrange(0, 2)[j] by {
                    assert(buf.subrange(pos, pos + k)[j] == buf[pos + j]);
                    assert(s.subrange(0, k)[j] == s[j]);
                }
                assert(buf.subrange(pos, pos + 2) =~= s.subrange(0, 2));
            }
            match v {
                Color::Red => {
                    lemma_le_bytes_len(1, 2);
                },
                Color::Green => {
                    lemma_le_bytes_len(2, 2);
                },
                Color::Blue => {
                    lemma_le_bytes_len(3, 2);
                },
                Color::Unknown() => {
                    lemma_le_bytes_len(255, 2);
                },
                Color::Grayscale(x) => {
                    lemma_le_bytes_len(4, 2);
                    lemma_be_bytes_len(x as nat, 2);
                    assert(s.subrange(0, 2) =~= le_bytes(4, 2));
                    crate::prim::lemma_le_round(buf, pos, 4, 2);
                },
                Color::RGBa { red, green, blue, alpha } => {
                    lemma_le_bytes_len(5, 2);
                    lemma_be_bytes_len(alpha as nat, 2);
                    assert(s.subrange(0, 2) =~= le_bytes(5, 2));
                    crate::prim::lemma_le_round(buf, pos, 5, 2);
                },
                Color::ColorCode(x) => {
                    lemma_le_bytes_len(7, 2);
                    lemma_be_bytes_len(x as nat, 8);
                    assert(s.subrange(0, 2) =~= le_bytes(7, 2));
                    crate::prim::lemma_le_round(buf, pos, 7, 2);
                },
                Color::Gradient(a, b) => {
                    lemma_le_bytes_len(6, 2);
                    let sa = color_enc(*a)->0;
                    let sb = color_enc(*b)->0;
                    assert(s == le_bytes(6, 2) + sa + sb);
                    assert(s.subrange(0, 2) =~= le_bytes(6, 2));
                    crate::prim::lemma_le_round(buf, pos, 6, 2);
                    let p = pos + 2;
                    let fuel = color_fuel(buf, pos);
                    assert(fuel == k);
                    lemma_color_enc_len(*a);
                    lemma_color_enc_len(*b);
                    if k < 2 + sa.len() {
                        assert(buf.subrange(p, pos + k) == sa.subrange(0, k - 2)) by {
                            assert forall|j: int| 0 <= j < k - 2 implies #[trigger] (buf.subrange(
                                p,
                                pos + k,
                            )[j]) == sa.subrange(0, k - 2)[j] by {
                                assert(buf.subrange(pos, pos + k)[2 + j] == buf[pos + 2 + j]);
                                assert(s.subrange(0, k)[2 + j] == s[2 + j]);
                                assert((le_bytes(6, 2) + sa + sb)[2 + j] == sa[j]);
                            }
                            assert(buf.subrange(p, pos + k) =~= sa.subrange(0, k - 2));
                        }
                        lemma_color_short_eof(buf, p, *a, k - 2);
                        lemma_color_dec_fuel(buf, p, (fuel - 1) as nat, color_fuel(buf, p));
                    } else {
                        assert(buf.subrange(p, p + sa.len() as int) == sa) by {
                            assert forall|j: int| 0 <= j < sa.len() implies #[trigger] (
                            buf.subrange(p, p + sa.len() as int)[j]) == sa[j] by {
                                assert(buf.subrange(pos, pos + k)[2 + j] == buf[pos + 2 + j]);
                                assert(s.subrange(0, k)[2 + j] == s[2 + j]);
                                assert((le_bytes(6, 2) + sa + sb)[2 + j] == sa[j]);
                            }
                            assert(buf.subrange(p, p + sa.len() as int) =~= sa);
                        }
                        <Color as Decode>::lemma_round_trip(buf, p, *a);
                        lemma_color_dec_fuel(buf, p, (fuel - 1) as nat, color_fuel(buf, p));
                        let p1 = p + sa.len() as int;
                        assert(buf.subrange(p1, pos + k) == sb.subrange(0, k - 2 - sa.len()))
                            by {
                            assert forall|j: int| 0 <= j < k - 2 - sa.len() implies #[trigger] (
                            buf.subrange(p1, pos + k)[j]) == sb.subrange(
                                0,
                                k - 2 - sa.len(),
                            )[j] by {
                                assert(buf.subrange(pos, pos + k)[2 + sa.len() + j] == buf[pos + 2
                                    + sa.len() + j]);
                                assert(s.subrange(0, k)[2 + sa.len() + j] == s[2 + sa.len() + j]);
                                assert((le_bytes(6, 2) + sa + sb)[2 + sa.len() + j] == sb[j]);
                            }
                            assert(buf.subrange(p1, pos + k) =~= sb.subrange(
                                0,
                                k - 2 - sa.len(),
                            ));
                        }
                        lemma_color_short_eof(buf, p1, *b, k - 2 - sa.len());
                        lemma_color_dec_fuel(buf, p1, (fuel - 1) as nat, color_fuel(buf, p1));
                    }
                },
            }
        }
    }
}

/// Every color encoding starts with its two discriminant bytes.
proof fn lemma_color_enc_len(v: Color)
    ensures
        color_enc(v) matches Some(s) ==> s.len() >= 2,
{
    match v {
        Color::Red => {
            lemma_le_bytes_len(1, 2);
        },
        Color::Green => {
            lemma_le_bytes_len(2, 2);
        },
        Color::Blue => {
            lemma_le_bytes_len(3, 2);
        },
        Color::Grayscale(x) => {
            lemma_le_bytes_len(4, 2);
        },
        Color::RGBa { red, green, blue, alpha } => {
            lemma_le_bytes_len(5, 2);
        },
        Color::Gradient(a, b) => {
            lemma_le_bytes_len(6, 2);
        },
        Color::ColorCode(x) => {
            lemma_le_bytes_len(7, 2);
        },
        Color::Unknown() => {
            lemma_le_bytes_len(255, 2);
        },
    }
}

/// Whatever a color decode consumed is exactly the canonical encoding of
/// the decoded color: the union accepts only its own encodings.
proof fn lemma_color_dec_canonical(buf: Seq<u8>, pos: int, fuel: nat)
    requires
        0 <= pos,
        buf.len() <= usize::MAX,
    ensures
        color_dec(buf, pos, fuel) matches Ok((c, end)) ==> pos + 2 <= end <= buf.len()
            && color_enc(c) == Some(buf.subrange(pos, end)),
    decreases fuel,
{
    if pos + 2 <= buf.len() {
        lemma_pow256_widths();
        crate::prim::lemma_le_canonical(buf, pos, 2);
        let d = le_value_at(buf, pos, 2);
        let p = pos + 2;
        assert(le_bytes(d, 2) == buf.subrange(pos, p));
        lemma_le_bytes_len(d, 2);
        if d == 1 || d == 2 || d == 3 || d == 255 {
        } else if d == 4 {
            if p + 2 <= buf.len() {
                crate::prim::lemma_be_canonical(buf, p, 2);
                let x = be_value_at(buf, p, 2) as u16;
                lemma_be_bytes_len(x as nat, 2);
                assert(color_enc(Color::Grayscale(x)) == Some(le_bytes(4, 2) + be_bytes(
                    x as nat,
                    2,
                )));
                assert(le_bytes(4, 2) + be_bytes(x as nat, 2) =~= buf.subrange(pos, p + 2));
            }
        } else if d == 5 {
            if p + 5 <= buf.len() {
                crate::prim::lemma_be_canonical(buf, p + 3, 2);
                let alpha = be_value_at(buf, p + 3, 2) as u16;
                lemma_be_bytes_len(alpha as nat, 2);
                assert(le_bytes(5, 2) + seq![buf[p], buf[p + 1], buf[p + 2]] + be_bytes(
                    alpha as nat,
                    2,
                ) =~= buf.subrange(pos, p + 5));
            }
        } else if d == 6 {
            if fuel > 0 {
                lemma_color_dec_canonical(buf, p, (fuel - 1) as nat);
                if color_dec(buf, p, (fuel - 1) as nat) is Ok {
                    let (a, p1) = color_dec(buf, p, (fuel - 1) as nat)->Ok_0;
                    lemma_color_dec_canonical(buf, p1, (fuel - 1) as nat);
                    if color_dec(buf, p1, (fuel - 1) as nat) is Ok {
                        let (b, p2) = color_dec(buf, p1, (fuel - 1) as nat)->Ok_0;
                        let sa = color_enc(a)->0;
                        let sb = color_enc(b)->0;
                        assert(2 + sa.len() + sb.len() == p2 - pos <= usize::MAX);
                        assert(le_bytes(6, 2) + sa + sb =~= buf.subrange(pos, p2));
                        assert(color_enc(Color::Gradient(Box::new(a), Box::new(b)))
                            == Some(le_bytes(6, 2) + sa + sb));
                    }
                }
            }
        } else if d == 7 {
            if p + 8 <= buf.len() {
                crate::prim::lemma_be_canonical(buf, p, 8);
                let x = be_value_at(buf, p, 8) as u64;
                lemma_be_bytes_len(x as nat, 8);
                assert(le_bytes(7, 2) + be_bytes(x as nat, 8) =~= buf.subrange(pos, p + 8));
            }
        }
    }
}

impl DecodeOwned for Color {

}




} // verus!

verus! {

/// The wire bytes of the name field: a one-byte length, then the UTF-8
/// bytes; names longer than 255 bytes are not encodable.
pub open spec fn name_enc(chars: Seq<char>) -> Option<Seq<u8>> {
    let b = encode_utf8(chars);
    if b.len() <= 255 {
        Some(seq![b.len() as u8] + b)
    } else {
        None
    }
}

/// Reading the name field at `pos`.
pub open spec fn name_dec(buf: Seq<u8>, pos: int) -> Result<(Seq<char>, int), DecodeError> {
    if pos < 0 || pos >= buf.len() {
        Err(DecodeError::EOF)
    } else {
        let n = buf[pos] as int;
        let p = pos + 1;
        if p + n <= buf.len() {
            if valid_utf8(buf.subrange(p, p + n)) {
                Ok((decode_utf8(buf.subrange(p, p + n)), p + n))
            } else {
                Err(DecodeError::InvalidData)
            }
        } else {
            Err(DecodeError::EOF)
        }
    }
}

/// The concatenated encodings of the colors of `cs` from index `i` on.
pub open spec fn colors_enc_from(cs: Seq<Color>, i: int) -> Option<Seq<u8>>
    decreases cs.len() - i,
{
    if i < 0 || i >= cs.len() {
        Some(Seq::empty())
    } else {
        match color_enc(cs[i]) {
            None => None,
            Some(s0) => match colors_enc_from(cs, i + 1) {
                None => None,
                Some(rest) => Some(s0 + rest),
            },
        }
    }
}

/// The wire bytes of the color list: a varint count, then each color.
pub open spec fn colors_enc(cs: Seq<Color>) -> Option<Seq<u8>> {
    if cs.len() > usize::MAX {
        None
    } else {
        let p = crate::var::varint_enc(cs.len());
        match colors_enc_from(cs, 0) {
            None => None,
            Some(items) => if p.len() + items.len() <= usize::MAX {
                Some(p + items)
            } else {
                None
            },
        }
    }
}

/// Reading `count` colors in order starting at `pos`.
pub open spec fn colors_items_dec(buf: Seq<u8>, pos: int, count: int) -> Result<
    (Seq<Color>, int),
    DecodeError,
>
    decreases count,
{
    if count <= 0 {
        Ok((Seq::empty(), pos))
    } else {
        match color_dec(buf, pos, color_fuel(buf, pos)) {
            Err(e) => Err(e),
            Ok((c, p)) => match colors_items_dec(buf, p, count - 1) {
                Err(e) => Err(e),
                Ok((rest, end)) => Ok((seq![c] + rest, end)),
            },
        }
    }
}

proof fn lemma_colors_items_unfold(buf: Seq<u8>, pos: int, count: int)
    requires
        count > 0,
    ensures
        colors_items_dec(buf, pos, count) == (match color_dec(buf, pos, color_fuel(buf, pos)) {
            Err(e) => Err(e),
            Ok((c, p)) => match colors_items_dec(buf, p, count - 1) {
                Err(e) => Err(e),
                Ok((rest, end)) => Ok((seq![c] + rest, end)),
            },
        }),
{
}

/// Reading the color list at `pos`.
pub open spec fn colors_dec(buf: Seq<u8>, pos: int) -> Result<(Seq<Color>, int), DecodeError> {
    match crate::var::varint_dec(buf, pos) {
        Err(e) => Err(e),
        Ok((n, p)) => if n <= usize::MAX {
            colors_items_dec(buf, p, n as int)
        } else {
            Err(DecodeError::ConversionFailure)
        },
    }
}

/// The abstraction of a [`Person`]: its fields with collections and text
/// abstracted.
pub struct PersonV {
    pub id: u32,
    pub name: Seq<char>,
    pub birthday: Date,
    pub favorite_colors: Seq<Color>,
}

/// A record whose fields encode in declaration order, each with its own
/// codec: a big-endian id, a one-byte-length-prefixed UTF-8 name, a fixed
/// sub-record, and a varint-counted list of tagged unions.
#[derive(Debug, PartialEq, Eq)]
pub struct Person {
    pub id: u32,
    pub name: String,
    pub birthday: Date,
    pub favorite_colors: Vec<Color>,
}

impl DeepView for Person {
    type V = PersonV;

    open spec fn deep_view(&self) -> PersonV {
        PersonV {
            id: self.id,
            name: self.name@,
            birthday: self.birthday,
            favorite_colors: self.favorite_colors.deep_view(),
        }
    }
}

impl Measure for Person {
    open spec fn encoded_of(v: PersonV) -> Option<Seq<u8>> {
        match (name_enc(v.name), colors_enc(v.favorite_colors)) {
            (Some(name_s), Some(colors_s)) => {
                let id_s = be_bytes(v.id as nat, 4);
                let date_s = seq![v.birthday.day, v.birthday.month] + be_bytes(
                    v.birthday.year as nat,
                    2,
                );
                if 4 + name_s.len() + 4 + colors_s.len() <= usize::MAX {
                    Some(id_s + name_s + date_s + colors_s)
                } else {
                    None
                }
            },
            _ => None,
        }
    }

    open spec fn enc_fail_of(v: PersonV, e: EncodeError) -> bool {
        match name_enc(v.name) {
            None => e == EncodeError::CodecFailure,
            Some(_) => e == EncodeError::InvalidUSize,
        }
    }

    fn measure(&self) -> (r: Result<usize, EncodeError>) {
        let ghost v = self.deep_view();
        proof {
            lemma_be_bytes_len(self.id as nat, 4);
            lemma_be_bytes_len(self.birthday.year as nat, 2);
        }
        let name_len: usize = self.name.as_str().as_bytes().len();
        if name_len > 255 {
            return Err(EncodeError::CodecFailure);
        }
        proof {
            assert(name_enc(v.name) is Some);
        }
        let n_colors: usize = self.favorite_colors.len();
        proof {
            assert(v.favorite_colors.len() == n_colors);
        }
        let m_count = crate::var::USizeBE.measure(&n_colors)?;
        let mut m_items: usize = 0;
        let mut idx: usize = 0;
        while idx < self.favorite_colors.len()
            invariant
                v == self.deep_view(),
                v.favorite_colors == self.favorite_colors.deep_view(),
                v.favorite_colors.len() == self.favorite_colors.len(),
                0 <= idx <= self.favorite_colors.len(),
                name_enc(v.name) is Some,
                match colors_enc_from(v.favorite_colors, idx as int) {
                    None => colors_enc_from(v.favorite_colors, 0) is None,
                    Some(rest) => {
                        &&& (colors_enc_from(v.favorite_colors, 0) matches Some(whole)
                            ==> whole.len() == m_items + rest.len())
                        &&& colors_enc_from(v.favorite_colors, 0) is Some
                    },
                },
            decreases self.favorite_colors.len() - idx,
        {
            proof {
                assert(self.favorite_colors.deep_view()[idx as int]
                    == self.favorite_colors@[idx as int].deep_view());
            }
            let m = match self.favorite_colors[idx].measure() {
                Ok(m) => m,
                Err(e) => {
                    return Err(e);
                },
            };
            if m > usize::MAX - m_items {
                return Err(EncodeError::InvalidUSize);
            }
            m_items = m_items + m;
            idx = idx + 1;
        }
        proof {
            assert(colors_enc_from(v.favorite_colors, v.favorite_colors.len() as int)
                == Some(Seq::<u8>::empty()));
        }
        if m_items > usize::MAX - m_count {
            return Err(EncodeError::InvalidUSize);
        }
        let m_colors = m_count + m_items;
        if m_colors > usize::MAX - 9 - name_len {
            return Err(EncodeError::InvalidUSize);
        }
        proof {
            let name_s = name_enc(v.name)->0;
            let colors_s = colors_enc(v.favorite_colors)->0;
            assert(name_s.len() == 1 + name_len);
            assert(colors_s.len() == m_colors);
            assert(Self::encoded_of(v)->0.len() == 4 + name_s.len() + 4 + colors_s.len());
        }
        Ok(4 + 1 + name_len + 4 + m_colors)
    }
}


impl Encode for Person {
    #[verifier::rlimit(80)]
    fn encode(&self, encoded: &mut Vec<u8>, offset: &mut usize) -> (r: Result<(), EncodeError>) {
        let ghost v = self.deep_view();
        let ghost pre = encoded@;
        let ghost at = *offset as int;
        proof {
            lemma_be_bytes_len(self.id as nat, 4);
            lemma_be_bytes_len(self.birthday.year as nat, 2);
        }
        let name_len: usize = self.name.as_str().as_bytes().len();
        if name_len > 255 {
            return Err(EncodeError::CodecFailure);
        }
        let ghost id_s = be_bytes(v.id as nat, 4);
        let ghost name_s = name_enc(v.name)->0;
        let ghost date_s = seq![v.birthday.day, v.birthday.month] + be_bytes(
            v.birthday.year as nat,
            2,
        );
        match crate::prim::U32BE.encode(&self.id, encoded, offset) {
            Ok(()) => {
            },
            Err(e) => {
                return Err(e);
            },
        }
        let ghost m1 = encoded@;
        match write_byte(encoded, offset, name_len as u8) {
            Ok(()) => {
                proof {
                    crate::bytes::lemma_spliced_push(
                        pre,
                        m1,
                        encoded@,
                        at,
                        id_s,
                        name_len as u8,
                    );
                }
            },
            Err(e) => {
                proof {
                    crate::bytes::lemma_spliced_prefix_eq(pre, m1, at, id_s, at);
                }
                return Err(e);
            },
        }
        let ghost m2 = encoded@;
        let r_nb = crate::bytes::write_run(encoded, offset, self.name.as_str().as_bytes());
        proof {
            let b = encode_utf8(v.name);
            assert(name_s == seq![b.len() as u8] + b);
            assert(id_s.push(name_len as u8) =~= id_s + seq![name_len as u8]);
            if r_nb is Ok {
                crate::bytes::lemma_spliced_concat(
                    pre,
                    m2,
                    encoded@,
                    at,
                    id_s + seq![name_len as u8],
                    b,
                );
                assert((id_s + seq![name_len as u8]) + b =~= id_s + name_s);
            } else {
                crate::bytes::lemma_spliced_prefix_eq(pre, m2, at, id_s + seq![name_len as u8], at);
            }
        }
        match r_nb {
            Ok(()) => {
            },
            Err(e) => {
                return Err(e);
            },
        }
        let ghost m3 = encoded@;
        let r_date = self.birthday.encode(encoded, offset);
        proof {
            if r_date is Ok {
                crate::bytes::lemma_spliced_concat(pre, m3, encoded@, at, id_s + name_s, date_s);
                assert((id_s + name_s) + date_s =~= id_s + name_s + date_s);
            } else {
                crate::bytes::lemma_spliced_prefix_eq(pre, m3, at, id_s + name_s, at);
            }
        }
        match r_date {
            Ok(()) => {
            },
            Err(e) => {
                return Err(e);
            },
        }
        let n_colors: usize = self.favorite_colors.len();
        proof {
            assert(v.favorite_colors.len() == n_colors);
        }
        let ghost m4 = encoded@;
        let ghost count_s = crate::var::varint_enc(n_colors as nat);
        let r_count = crate::var::USizeBE.encode(&n_colors, encoded, offset);
        proof {
            if r_count is Ok {
                crate::bytes::lemma_spliced_concat(
                    pre,
                    m4,
                    encoded@,
                    at,
                    id_s + name_s + date_s,
                    count_s,
                );
                assert((id_s + name_s + date_s) + count_s =~= id_s + name_s + date_s + count_s);
            } else {
                crate::bytes::lemma_spliced_prefix_eq(pre, m4, at, id_s + name_s + date_s, at);
            }
        }
        match r_count {
            Ok(()) => {
            },
            Err(e) => {
                return Err(e);
            },
        }
        let ghost head = id_s + name_s + date_s + count_s;
        let mut idx: usize = 0;
        while idx < self.favorite_colors.len()
            invariant
                encoded.len() == old(encoded).len(),
                at == *old(offset) as int,
                v == self.deep_view(),
                v.favorite_colors == self.favorite_colors.deep_view(),
                v.favorite_colors.len() == self.favorite_colors.len(),
                0 <= idx <= self.favorite_colors.len(),
                at <= *offset <= encoded.len(),
                name_enc(v.name) is Some,
                id_s == be_bytes(v.id as nat, 4),
                name_s == name_enc(v.name)->0,
                date_s == seq![v.birthday.day, v.birthday.month] + be_bytes(
                    v.birthday.year as nat,
                    2,
                ),
                count_s == crate::var::varint_enc(v.favorite_colors.len()),
                head == id_s + name_s + date_s + count_s,
                ({
                    let written = encoded@.subrange(at, *offset as int);
                    &&& spliced(old(encoded)@, encoded@, at, written)
                    &&& written.len() >= head.len()
                    &&& written.subrange(0, head.len() as int) == head
                    &&& match colors_enc_from(v.favorite_colors, idx as int) {
                        None => colors_enc_from(v.favorite_colors, 0) is None,
                        Some(rest) => {
                            &&& colors_enc_from(v.favorite_colors, 0) is Some
                            &&& (colors_enc_from(v.favorite_colors, 0) matches Some(whole)
                                ==> head + whole == written + rest)
                        },
                    }
                }),
            decreases self.favorite_colors.len() - idx,
        {
            let ghost mid = encoded@;
            let ghost off_mid = *offset as int;
            let r = self.favorite_colors[idx].encode(encoded, offset);
            proof {
                assert(self.favorite_colors.deep_view()[idx as int]
                    == self.favorite_colors@[idx as int].deep_view());
                let written = mid.subrange(at, off_mid);
                match r {
                    Ok(()) => {
                        let si = color_enc(v.favorite_colors[idx as int]).unwrap();
                        crate::bytes::lemma_spliced_concat(
                            old(encoded)@,
                            mid,
                            encoded@,
                            at,
                            written,
                            si,
                        );
                        assert(encoded@.subrange(at, *offset as int) == written + si) by {
                            assert(spliced(mid, encoded@, off_mid, si));
                            assert(encoded@.subrange(at, *offset as int) =~= written + si);
                        }
                        assert((written + si).subrange(0, head.len() as int) =~= head);
                    },
                    Err(_) => {
                        crate::bytes::lemma_spliced_prefix_eq(
                            old(encoded)@,
                            mid,
                            at,
                            written,
                            at,
                        );
                    },
                }
            }
            match r {
                Ok(()) => {
                },
                Err(e) => {
                    return Err(e);
                },
            }
            idx = idx + 1;
        }
        proof {
            let written = encoded@.subrange(at, *offset as int);
            assert(colors_enc_from(v.favorite_colors, v.favorite_colors.len() as int)
                == Some(Seq::<u8>::empty()));
            if colors_enc_from(v.favorite_colors, 0) is None {
                assert(false);
            }
            let whole = colors_enc_from(v.favorite_colors, 0)->0;
            assert(head + whole == written + Seq::<u8>::empty());
            assert(written + Seq::<u8>::empty() =~= written);
            assert(count_s.len() + whole.len() <= written.len() <= usize::MAX);
            let colors_s = colors_enc(v.favorite_colors)->0;
            assert(colors_s == count_s + whole);
            assert(4 + name_s.len() + 4 + colors_s.len() == written.len());
            let s = Self::encoded_of(v)->0;
            assert(s == id_s + name_s + date_s + colors_s);
            assert(s =~= (id_s + name_s + date_s + count_s) + whole);
            assert(s == written);
        }
        Ok(())
    }
}


/// Round trip for a run of colors: decoding the concatenated encodings of
/// the colors of `cs` from `i` on yields exactly those colors.
proof fn lemma_colors_items_round_trip(buf: Seq<u8>, cs: Seq<Color>, i: int, pos: int)
    requires
        0 <= i <= cs.len(),
        0 <= pos,
        colors_enc_from(cs, i) is Some,
        pos + colors_enc_from(cs, i)->0.len() <= buf.len(),
        buf.subrange(pos, pos + colors_enc_from(cs, i)->0.len() as int) == colors_enc_from(
            cs,
            i,
        )->0,
    ensures
        colors_items_dec(buf, pos, cs.len() - i) == Ok::<_, DecodeError>(
            (cs.subrange(i, cs.len() as int), pos + colors_enc_from(cs, i)->0.len() as int),
        ),
    decreases cs.len() - i,
{
    let bytes = colors_enc_from(cs, i)->0;
    if i == cs.len() {
        assert(cs.subrange(i, cs.len() as int) =~= Seq::<Color>::empty());
    } else {
        let s0 = color_enc(cs[i])->0;
        let rest = colors_enc_from(cs, i + 1)->0;
        assert(bytes == s0 + rest);
        crate::bytes::lemma_window_cut(buf, pos, bytes, 0, s0.len() as int);
        assert(bytes.subrange(0, s0.len() as int) =~= s0);
        <Color as Decode>::lemma_round_trip(buf, pos, cs[i]);
        crate::bytes::lemma_window_cut(buf, pos, bytes, s0.len() as int, bytes.len() as int);
        assert(bytes.subrange(s0.len() as int, bytes.len() as int) =~= rest);
        lemma_colors_items_round_trip(buf, cs, i + 1, pos + s0.len() as int);
        lemma_colors_items_unfold(buf, pos, cs.len() - i);
        assert(seq![cs[i]] + cs.subrange(i + 1, cs.len() as int) =~= cs.subrange(
            i,
            cs.len() as int,
        ));
    }
}

/// A truncated run of color encodings decodes to `EOF`.
proof fn lemma_colors_items_short(buf: Seq<u8>, cs: Seq<Color>, i: int, pos: int, k: int)
    requires
        0 <= i <= cs.len(),
        0 <= pos,
        colors_enc_from(cs, i) is Some,
        0 <= k < colors_enc_from(cs, i)->0.len(),
        buf.len() == pos + k,
        buf.subrange(pos, pos + k) == colors_enc_from(cs, i)->0.subrange(0, k),
    ensures
        colors_items_dec(buf, pos, cs.len() - i) == Err::<(Seq<Color>, int), _>(DecodeError::EOF),
    decreases cs.len() - i,
{
    let bytes = colors_enc_from(cs, i)->0;
    let s0 = color_enc(cs[i])->0;
    let rest = colors_enc_from(cs, i + 1)->0;
    assert(bytes == s0 + rest);
    lemma_colors_items_unfold(buf, pos, cs.len() - i);
    if k < s0.len() {
        assert(buf.subrange(pos, pos + k) == s0.subrange(0, k)) by {
            assert forall|j: int| 0 <= j < k implies #[trigger] (buf.subrange(pos, pos + k)[j])
                == s0.subrange(0, k)[j] by {
                assert(bytes.subrange(0, k)[j] == bytes[j]);
                assert((s0 + rest)[j] == s0[j]);
            }
            assert(buf.subrange(pos, pos + k) =~= s0.subrange(0, k));
        }
        lemma_color_short_eof(buf, pos, cs[i], k);
    } else {
        assert(buf.subrange(pos, pos + s0.len() as int) == s0) by {
            assert forall|j: int| 0 <= j < s0.len() implies #[trigger] (buf.subrange(
                pos,
                pos + s0.len() as int,
            )[j]) == s0[j] by {
                assert(bytes.subrange(0, k)[j] == bytes[j]);
                assert((s0 + rest)[j] == s0[j]);
            }
            assert(buf.subrange(pos, pos + s0.len() as int) =~= s0);
        }
        <Color as Decode>::lemma_round_trip(buf, pos, cs[i]);
        assert(buf.subrange(pos + s0.len(), pos + k) == rest.subrange(0, k - s0.len())) by {
            assert forall|j: int| 0 <= j < k - s0.len() implies #[trigger] (buf.subrange(
                pos + s0.len(),
                pos + k,
            )[j]) == rest.subrange(0, k - s0.len())[j] by {
                assert(bytes.subrange(0, k)[s0.len() + j] == bytes[s0.len() + j]);
                assert((s0 + rest)[s0.len() + j] == rest[j]);
            }
            assert(buf.subrange(pos + s0.len(), pos + k) =~= rest.subrange(0, k - s0.len()));
        }
        lemma_colors_items_short(buf, cs, i + 1, pos + s0.len() as int, k - s0.len() as int);
    }
}

impl<'e> Decode<'e> for Person {
    open spec fn decoded_at(buf: Seq<u8>, pos: int) -> Result<(PersonV, int), DecodeError> {
        if pos < 0 || pos + 4 > buf.len() {
            Err(DecodeError::EOF)
        } else {
            let id = be_value_at(buf, pos, 4) as u32;
            match name_dec(buf, pos + 4) {
                Err(e) => Err(e),
                Ok((name, p2)) => match date_dec(buf, p2) {
                    Err(e) => Err(e),
                    Ok((birthday, p3)) => match colors_dec(buf, p3) {
                        Err(e) => Err(e),
                        Ok((favorite_colors, end)) => Ok(
                            (PersonV { id, name, birthday, favorite_colors }, end),
                        ),
                    },
                },
            }
        }
    }

    open spec fn canonical_wire() -> bool {
        false
    }

    open spec fn short_wire_eof() -> bool {
        true
    }

    #[verifier::rlimit(80)]
    fn decode(encoded: &'e [u8], offset: &mut usize) -> (r: Result<Person, DecodeError>) {
        let ghost pos0 = *offset as int;
        let id = match crate::prim::U32BE.borrowed_decode(encoded, offset) {
            Ok(id) => id,
            Err(e) => {
                return Err(e);
            },
        };
        let name_len = match crate::bytes::read_byte(encoded, offset) {
            Ok(b) => b,
            Err(e) => {
                return Err(e);
            },
        };
        let run = match crate::bytes::read_run(encoded, offset, name_len as usize) {
            Ok(run) => run,
            Err(e) => {
                return Err(e);
            },
        };
        let name: String = match crate::var::strings::try_from_utf8(run) {
            Some(s) => {
                proof {
                    vstd::utf8::encode_utf8_decode_utf8(s@);
                }
                s.to_owned()
            },
            None => {
                return Err(DecodeError::InvalidData);
            },
        };
        let birthday = match Date::decode(encoded, offset) {
            Ok(d) => d,
            Err(e) => {
                return Err(e);
            },
        };
        let ghost p3 = *offset as int;
        let count = match crate::var::USizeBE.borrowed_decode(encoded, offset) {
            Ok(n) => n,
            Err(e) => {
                return Err(e);
            },
        };
        let ghost p4 = *offset as int;
        let mut favorite_colors: Vec<Color> = Vec::new();
        let mut remaining: usize = count;
        proof {
            assert(favorite_colors.deep_view() =~= Seq::<Color>::empty());
        }
        while remaining > 0
            invariant
                pos0 == *old(offset) as int,
                0 <= pos0 <= p4,
                p4 <= *offset <= encoded.len(),
                remaining <= count,
                match colors_items_dec(encoded@, *offset as int, remaining as int) {
                    Err(e) => Self::decoded_at(encoded@, pos0) == Err::<(PersonV, int), _>(e),
                    Ok((rest, end)) => Self::decoded_at(encoded@, pos0) == Ok::<_, DecodeError>(
                        (
                            PersonV {
                                id: id,
                                name: name@,
                                birthday: birthday,
                                favorite_colors: favorite_colors.deep_view() + rest,
                            },
                            end,
                        ),
                    ),
                },
            decreases remaining,
        {
            let ghost out0 = favorite_colors;
            let ghost posi = *offset as int;
            let c = match Color::decode(encoded, offset) {
                Ok(c) => c,
                Err(e) => {
                    return Err(e);
                },
            };
            favorite_colors.push(c);
            remaining = remaining - 1;
            proof {
                lemma_colors_items_unfold(encoded@, posi, remaining as int + 1);
                crate::lemma_vec_push_deep_view(out0, favorite_colors, c);
                match colors_items_dec(encoded@, *offset as int, remaining as int) {
                    Err(_) => {
                    },
                    Ok((rest, end)) => {
                        assert(out0.deep_view() + (seq![c.deep_view()] + rest)
                            =~= favorite_colors.deep_view() + rest);
                    },
                }
            }
        }
        proof {
            assert(colors_items_dec(encoded@, *offset as int, 0) == Ok::<_, DecodeError>(
                (Seq::<Color>::empty(), *offset as int),
            ));
            assert(favorite_colors.deep_view() + Seq::<Color>::empty()
                =~= favorite_colors.deep_view());
        }
        Ok(Person { id, name, birthday, favorite_colors })
    }

    #[verifier::rlimit(100)]
    proof fn lemma_round_trip(buf: Seq<u8>, pos: int, v: PersonV) {
        let s = Self::encoded_of(v)->0;
        let id_s = be_bytes(v.id as nat, 4);
        let name_s = name_enc(v.name)->0;
        let date_s = seq![v.birthday.day, v.birthday.month] + be_bytes(v.birthday.year as nat, 2);
        let colors_s = colors_enc(v.favorite_colors)->0;
        let b = encode_utf8(v.name);
        lemma_be_bytes_len(v.id as nat, 4);
        lemma_be_bytes_len(v.birthday.year as nat, 2);
        lemma_pow256_widths();
        assert(s == id_s + name_s + date_s + colors_s);
        assert(name_s == seq![b.len() as u8] + b);
        assert(date_s.len() == 4);
        let p1 = pos + 4;
        let p2 = p1 + name_s.len() as int;
        let p3 = p2 + 4;
        crate::bytes::lemma_window_cut(buf, pos, s, 0, 4);
        assert(s.subrange(0, 4) =~= id_s);
        crate::prim::lemma_be_round(buf, pos, v.id as nat, 4);
        crate::bytes::lemma_window_cut(buf, pos, s, 4, 4 + name_s.len() as int);
        assert(s.subrange(4, 4 + name_s.len() as int) =~= name_s);
        assert(buf[p1] == name_s[0]) by {
            assert(buf.subrange(p1, p1 + name_s.len() as int)[0] == buf[p1]);
        }
        assert(buf[p1] == b.len() as u8);
        crate::bytes::lemma_window_cut(buf, p1, name_s, 1, name_s.len() as int);
        assert(name_s.subrange(1, name_s.len() as int) =~= b);
        vstd::utf8::encode_utf8_valid_utf8(v.name);
        vstd::utf8::encode_utf8_decode_utf8(v.name);
        assert(name_dec(buf, p1) == Ok::<_, DecodeError>((v.name, p2)));
        crate::bytes::lemma_window_cut(buf, pos, s, 4 + name_s.len() as int, 8 + name_s.len() as int);
        assert(s.subrange(4 + name_s.len() as int, 8 + name_s.len() as int) =~= date_s);
        <Date as Decode>::lemma_round_trip(buf, p2, v.birthday);
        crate::bytes::lemma_window_cut(buf, pos, s, 8 + name_s.len() as int, s.len() as int);
        assert(s.subrange(8 + name_s.len() as int, s.len() as int) =~= colors_s);
        let count_s = crate::var::varint_enc(v.favorite_colors.len());
        let items_s = colors_enc_from(v.favorite_colors, 0)->0;
        assert(colors_s == count_s + items_s);
        crate::bytes::lemma_window_cut(buf, p3, colors_s, 0, count_s.len() as int);
        assert(colors_s.subrange(0, count_s.len() as int) =~= count_s);
        crate::var::lemma_varint_round_trip(buf, p3, v.favorite_colors.len());
        let p4 = p3 + count_s.len() as int;
        crate::bytes::lemma_window_cut(buf, p3, colors_s, count_s.len() as int, colors_s.len() as int);
        assert(colors_s.subrange(count_s.len() as int, colors_s.len() as int) =~= items_s);
        lemma_colors_items_round_trip(buf, v.favorite_colors, 0, p4);
        assert(v.favorite_colors.subrange(0, v.favorite_colors.len() as int)
            =~= v.favorite_colors);
    }

    proof fn lemma_canonical(buf: Seq<u8>, pos: int) {
    }

    #[verifier::rlimit(100)]
    proof fn lemma_short_eof(buf: Seq<u8>, pos: int, v: PersonV, k: int) {
        let s = Self::encoded_of(v)->0;
        let id_s = be_bytes(v.id as nat, 4);
        let name_s = name_enc(v.name)->0;
        let date_s = seq![v.birthday.day, v.birthday.month] + be_bytes(v.birthday.year as nat, 2);
        let colors_s = colors_enc(v.favorite_colors)->0;
        let b = encode_utf8(v.name);
        lemma_be_bytes_len(v.id as nat, 4);
        lemma_be_bytes_len(v.birthday.year as nat, 2);
        lemma_pow256_widths();
        assert(s == id_s + name_s + date_s + colors_s);
        assert(name_s == seq![b.len() as u8] + b);
        assert(date_s.len() == 4);
        let p1 = pos + 4;
        let p2 = p1 + name_s.len() as int;
        let p3 = p2 + 4;
        if k < 4 {
        } else {
            crate::bytes::lemma_window_cut_prefix(buf, pos, s, k, 0, 4);
            assert(s.subrange(0, 4) =~= id_s);
            crate::prim::lemma_be_round(buf, pos, v.id as nat, 4);
            if k == 4 {
                assert(name_dec(buf, p1) == Err::<(Seq<char>, int), _>(DecodeError::EOF));
            } else if k < 4 + name_s.len() {
                assert(buf[p1] == name_s[0]) by {
                    assert(buf.subrange(pos, pos + k)[4] == buf[p1]);
                    assert(s.subrange(0, k)[4] == s[4]);
                    assert((id_s + name_s + date_s + colors_s)[4] == name_s[0]);
                }
                assert(buf[p1] == b.len() as u8);
                assert(p1 + 1 + b.len() > buf.len());
                assert(name_dec(buf, p1) == Err::<(Seq<char>, int), _>(DecodeError::EOF));
            } else {
                crate::bytes::lemma_window_cut_prefix(buf, pos, s, k, 4, 4 + name_s.len() as int);
                assert(s.subrange(4, 4 + name_s.len() as int) =~= name_s);
                assert(buf[p1] == name_s[0]) by {
                    assert(buf.subrange(p1, p1 + name_s.len() as int)[0] == buf[p1]);
                }
                assert(buf[p1] == b.len() as u8);
                crate::bytes::lemma_window_cut(buf, p1, name_s, 1, name_s.len() as int);
                assert(name_s.subrange(1, name_s.len() as int) =~= b);
                vstd::utf8::encode_utf8_valid_utf8(v.name);
                vstd::utf8::encode_utf8_decode_utf8(v.name);
                assert(name_dec(buf, p1) == Ok::<_, DecodeError>((v.name, p2)));
                if k < 8 + name_s.len() {
                    assert(date_dec(buf, p2) == Err::<(Date, int), _>(DecodeError::EOF));
                } else {
                    crate::bytes::lemma_window_cut_prefix(
                        buf,
                        pos,
                        s,
                        k,
                        4 + name_s.len() as int,
                        8 + name_s.len() as int,
                    );
                    assert(s.subrange(4 + name_s.len() as int, 8 + name_s.len() as int)
                        =~= date_s);
                    <Date as Decode>::lemma_round_trip(buf, p2, v.birthday);
                    let count_s = crate::var::varint_enc(v.favorite_colors.len());
                    let items_s = colors_enc_from(v.favorite_colors, 0)->0;
                    assert(colors_s == count_s + items_s);
                    let kc = k - (8 + name_s.len() as int);
                    assert(buf.subrange(p3, pos + k) == colors_s.subrange(0, kc)) by {
                        assert forall|j: int| 0 <= j < kc implies #[trigger] (buf.subrange(
                            p3,
                            pos + k,
                        )[j]) == colors_s.subrange(0, kc)[j] by {
                            assert(buf.subrange(pos, pos + k)[8 + name_s.len() + j] == buf[pos + 8
                                + name_s.len() + j]);
                            assert(s.subrange(0, k)[8 + name_s.len() + j] == s[8 + name_s.len()
                                + j]);
                            assert((id_s + name_s + date_s + colors_s)[8 + name_s.len() + j]
                                == colors_s[j]);
                        }
                        assert(buf.subrange(p3, pos + k) =~= colors_s.subrange(0, kc));
                    }
                    if kc < count_s.len() {
                        crate::bytes::lemma_window_cut_prefix(
                            buf,
                            p3,
                            colors_s,
                            kc,
                            0,
                            kc,
                        );
                        assert(buf.subrange(p3, p3 + kc) == count_s.subrange(0, kc)) by {
                            assert forall|j: int| 0 <= j < kc implies #[trigger] (buf.subrange(
                                p3,
                                p3 + kc,
                            )[j]) == count_s.subrange(0, kc)[j] by {
                                assert(colors_s.subrange(0, kc)[j] == colors_s[j]);
                                assert((count_s + items_s)[j] == count_s[j]);
                            }
                            assert(buf.subrange(p3, p3 + kc) =~= count_s.subrange(0, kc));
                        }
                        crate::var::lemma_varint_short_eof(
                            buf,
                            p3,
                            v.favorite_colors.len(),
                            kc,
                        );
                    } else {
                        crate::bytes::lemma_window_cut_prefix(
                            buf,
                            p3,
                            colors_s,
                            kc,
                            0,
                            count_s.len() as int,
                        );
                        assert(colors_s.subrange(0, count_s.len() as int) =~= count_s);
                        crate::var::lemma_varint_round_trip(buf, p3, v.favorite_colors.len());
                        let p4 = p3 + count_s.len() as int;
                        let ki = kc - count_s.len() as int;
                        assert(buf.subrange(p4, pos + k) == items_s.subrange(0, ki)) by {
                            assert forall|j: int| 0 <= j < ki implies #[trigger] (buf.subrange(
                                p4,
                                pos + k,
                            )[j]) == items_s.subrange(0, ki)[j] by {
                                assert(buf.subrange(p3, pos + k)[count_s.len() + j] == buf[p3
                                    + count_s.len() + j]);
                                assert(colors_s.subrange(0, kc)[count_s.len() + j]
                                    == colors_s[count_s.len() + j]);
                                assert((count_s + items_s)[count_s.len() + j] == items_s[j]);
                            }
                            assert(buf.subrange(p4, pos + k) =~= items_s.subrange(0, ki));
                        }
                        lemma_colors_items_short(buf, v.favorite_colors, 0, p4, ki);
                    }
                }
            }
        }
    }
}

impl DecodeOwned for Person {

}

} // verus!
