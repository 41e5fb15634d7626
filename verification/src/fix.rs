//! The fixed-size array combinator: exactly `N` items back to back, with
//! no length prefix.
//!
//! Decoding accumulates into a growable buffer and only hands the
//! collection out once all `N` item decodes succeeded, so no partial array
//! ever escapes.
use vstd::prelude::*;

use crate::bytes::spliced;
use crate::var::dec_items;
use crate::var::enc_items_from;
use crate::var::lemma_dec_items_canonical;
use crate::var::lemma_dec_items_round_trip;
use crate::var::lemma_dec_items_short;
use crate::var::lemma_dec_items_unfold;
use crate::BorrowedDecoder;
use crate::DecodeError;
use crate::EncodeError;
use crate::Encoder;
use crate::FixedMeasurer;
use crate::Measurer;

verus! {

/// The concatenated encodings of a run of items whose sizes are all
/// `spec_fixed` take `count` times that size.
pub proof fn lemma_enc_items_fixed<I: FixedMeasurer>(
    item: I,
    v: Seq<<I::Decoded as DeepView>::V>,
    i: int,
)
    requires
        0 <= i <= v.len(),
        enc_items_from(item, v, i) is Some,
    ensures
        enc_items_from(item, v, i)->0.len() == (v.len() - i) * item.spec_fixed(),
    decreases v.len() - i,
{
    if i == v.len() {
        assert(enc_items_from(item, v, i) == Some(Seq::<u8>::empty()));
        assert((v.len() - i) * item.spec_fixed() == 0);
    } else {
        assert(item.spec_enc(v[i]) is Some && enc_items_from(item, v, i + 1) is Some);
        let s0 = item.spec_enc(v[i])->0;
        let rest = enc_items_from(item, v, i + 1)->0;
        assert(enc_items_from(item, v, i)->0 == s0 + rest);
        item.lemma_fixed(v[i]);
        lemma_enc_items_fixed(item, v, i + 1);
        assert((v.len() - i) * item.spec_fixed() == item.spec_fixed() + (v.len() - i - 1)
            * item.spec_fixed()) by (nonlinear_arith);
        assert(enc_items_from(item, v, i)->0.len() == s0.len() + rest.len());
        assert(s0.len() == item.spec_fixed());
        assert(rest.len() == (v.len() - i - 1) * item.spec_fixed());
    }
}

/// A run of exactly `N` items, each encoded with the item codec.
pub struct Array<Item, const N: usize>(pub Item);

impl<Item, const N: usize> Array<Item, N> {
    pub fn codec(item: Item) -> (r: Self)
        ensures
            r.0 == item,
    {
        Array(item)
    }
}

impl<Item: Default, const N: usize> Default for Array<Item, N> {
    fn default() -> (r: Self)
        ensures
            call_ensures(Item::default, (), r.0),
    {
        Array(Item::default())
    }
}

impl<Item: Measurer, const N: usize> Measurer for Array<Item, N> {
    type Decoded = Vec<Item::Decoded>;

    open spec fn spec_enc(&self, v: Seq<<Item::Decoded as DeepView>::V>) -> Option<Seq<u8>> {
        if v.len() != N {
            None
        } else {
            match enc_items_from(self.0, v, 0) {
                None => None,
                Some(items) => if items.len() <= usize::MAX {
                    Some(items)
                } else {
                    None
                },
            }
        }
    }

    open spec fn spec_enc_fail(&self, v: Seq<<Item::Decoded as DeepView>::V>, e: EncodeError) -> bool {
        if v.len() != N {
            e == EncodeError::CodecFailure
        } else {
            (exists|i: int|
                0 <= i < v.len() && (#[trigger] self.0.spec_enc(v[i])) is None
                    && self.0.spec_enc_fail(v[i], e)) || e == EncodeError::InvalidUSize
        }
    }

    fn measure(&self, decoded: &Vec<Item::Decoded>) -> (r: Result<usize, EncodeError>) {
        let ghost dv = decoded.deep_view();
        proof {
            assert(dv.len() == decoded@.len());
        }
        if decoded.len() != N {
            return Err(EncodeError::CodecFailure);
        }
        let mut total: usize = 0;
        let mut idx: usize = 0;
        while idx < decoded.len()
            invariant
                dv.len() == decoded.len() == N,
                0 <= idx <= decoded.len(),
                dv == decoded.deep_view(),
                match enc_items_from(self.0, dv, idx as int) {
                    None => self.spec_enc(dv) is None,
                    Some(rest) => {
                        &&& (self.spec_enc(dv) matches Some(s) ==> s.len() == total + rest.len())
                        &&& (self.spec_enc(dv) is None ==> total + rest.len() > usize::MAX)
                    },
                },
            decreases decoded.len() - idx,
        {
            proof {
                assert(decoded.deep_view()[idx as int] == decoded@[idx as int].deep_view());
            }
            let m = match self.0.measure(&decoded[idx]) {
                Ok(m) => m,
                Err(e) => {
                    return Err(e);
                },
            };
            if m > usize::MAX - total {
                return Err(EncodeError::InvalidUSize);
            }
            total = total + m;
            idx = idx + 1;
        }
        Ok(total)
    }
}

impl<Item: FixedMeasurer, const N: usize> FixedMeasurer for Array<Item, N> {
    open spec fn spec_fixed(&self) -> nat {
        (N as nat) * self.0.spec_fixed()
    }

    proof fn lemma_fixed(&self, v: Seq<<Item::Decoded as DeepView>::V>) {
        if self.spec_enc(v) is Some {
            lemma_enc_items_fixed(self.0, v, 0);
        }
    }

    fn measure_fixed(&self) -> (r: usize) {
        if N == 0 {
            return 0;
        }
        proof {
            assert(self.0.spec_fixed() <= (N as nat) * self.0.spec_fixed()) by (nonlinear_arith)
                requires
                    N >= 1,
                    self.0.spec_fixed() >= 0,
            {
            }
        }
        let f = self.0.measure_fixed();
        N * f
    }
}

impl<Item: Encoder, const N: usize> Encoder for Array<Item, N> {
    fn encode(
        &self,
        decoded: &Vec<Item::Decoded>,
        encoded: &mut Vec<u8>,
        offset: &mut usize,
    ) -> (r: Result<(), EncodeError>) {
        let ghost dv = decoded.deep_view();
        let ghost at = *offset as int;
        proof {
            assert(dv.len() == decoded@.len());
        }
        if decoded.len() != N {
            return Err(EncodeError::CodecFailure);
        }
        proof {
            crate::bytes::lemma_spliced_empty(encoded@, at);
            assert(encoded@.subrange(at, at) =~= Seq::<u8>::empty());
        }
        let mut idx: usize = 0;
        while idx < decoded.len()
            invariant
                encoded.len() == old(encoded).len(),
                at == *old(offset) as int,
                dv.len() == decoded.len() == N,
                0 <= idx <= decoded.len(),
                dv == decoded.deep_view(),
                at <= *offset <= encoded.len(),
                ({
                    let written = encoded@.subrange(at, *offset as int);
                    &&& spliced(old(encoded)@, encoded@, at, written)
                    &&& match enc_items_from(self.0, dv, idx as int) {
                        None => self.spec_enc(dv) is None,
                        Some(rest) => {
                            &&& (self.spec_enc(dv) matches Some(s) ==> s == written + rest)
                            &&& (self.spec_enc(dv) is None ==> written.len() + rest.len()
                                > usize::MAX)
                        },
                    }
                }),
            decreases decoded.len() - idx,
        {
            let ghost mid = encoded@;
            let ghost off_mid = *offset as int;
            let r = self.0.encode(&decoded[idx], encoded, offset);
            proof {
                assert(decoded.deep_view()[idx as int] == decoded@[idx as int].deep_view());
                let written = mid.subrange(at, off_mid);
                match r {
                    Ok(()) => {
                        let si = self.0.spec_enc(dv[idx as int]).unwrap();
                        crate::bytes::lemma_spliced_concat(
                            old(encoded)@,
                            mid,
                            encoded@,
                            at,
                            written,
                            si,
                        );
                        assert(encoded@.subrange(at, *offset as int) == written + si) by {
                            assert(spliced(mid, encoded@, off_mid, si));
                            assert(encoded@.subrange(at, *offset as int) =~= written + si);
                        }
                    },
                    Err(_) => {
                        crate::bytes::lemma_spliced_prefix_eq(
                            old(encoded)@,
                            mid,
                            at,
                            written,
                            at,
                        );
                    },
                }
            }
            match r {
                Ok(()) => {
                },
                Err(e) => {
                    return Err(e);
                },
            }
            idx = idx + 1;
        }
        proof {
            let written = encoded@.subrange(at, *offset as int);
            assert(enc_items_from(self.0, dv, dv.len() as int) == Some(Seq::<u8>::empty()));
            assert(written + Seq::<u8>::empty() =~= written);
            assert(written.len() <= usize::MAX);
            if self.spec_enc(dv) is None {
                assert(false);
            }
        }
        Ok(())
    }
}

impl<'e, Item: BorrowedDecoder<'e>, const N: usize> BorrowedDecoder<'e> for Array<Item, N> {
    type BDecoded = Vec<Item::BDecoded>;

    open spec fn spec_dec(&self, buf: Seq<u8>, pos: int) -> Result<
        (Seq<<Item::Decoded as DeepView>::V>, int),
        DecodeError,
    > {
        dec_items(self.0, buf, pos, N as int)
    }

    open spec fn canonical(&self) -> bool {
        self.0.canonical()
    }

    open spec fn short_input_eof(&self) -> bool {
        self.0.short_input_eof()
    }

    fn borrowed_decode(&self, encoded: &'e [u8], offset: &mut usize) -> (r: Result<
        Vec<Item::BDecoded>,
        DecodeError,
    >) {
        let mut out: Vec<Item::BDecoded> = Vec::new();
        let mut remaining: usize = N;
        proof {
            assert(out.deep_view() =~= Seq::<<Item::Decoded as DeepView>::V>::empty());
        }
        while remaining > 0
            invariant
                *old(offset) <= *offset <= encoded.len(),
                remaining <= N,
                dec_items(self.0, encoded@, *old(offset) as int, N as int) == (match dec_items(
                    self.0,
                    encoded@,
                    *offset as int,
                    remaining as int,
                ) {
                    Err(e) => Err(e),
                    Ok((rest, end)) => Ok((out.deep_view() + rest, end)),
                }),
            decreases remaining,
        {
            let ghost out0 = out;
            let ghost pos0 = *offset as int;
            let item = match self.0.borrowed_decode(encoded, offset) {
                Ok(d) => d,
                Err(e) => {
                    return Err(e);
                },
            };
            out.push(item);
            remaining = remaining - 1;
            proof {
                lemma_dec_items_unfold(self.0, encoded@, pos0, remaining as int + 1);
                crate::lemma_vec_push_deep_view(out0, out, item);
                match dec_items(self.0, encoded@, *offset as int, remaining as int) {
                    Err(_) => {
                    },
                    Ok((rest, end)) => {
                        assert(out0.deep_view() + (seq![item.deep_view()] + rest) =~= out.deep_view()
                            + rest);
                    },
                }
            }
        }
        proof {
            assert(dec_items(self.0, encoded@, *offset as int, 0) == Ok::<_, DecodeError>(
                (Seq::<<Item::Decoded as DeepView>::V>::empty(), *offset as int),
            ));
            assert(out.deep_view() + Seq::<<Item::Decoded as DeepView>::V>::empty()
                =~= out.deep_view());
        }
        Ok(out)
    }

    proof fn lemma_round_trip(
        &self,
        buf: Seq<u8>,
        pos: int,
        v: Seq<<Item::Decoded as DeepView>::V>,
    ) {
        lemma_dec_items_round_trip(self.0, buf, v, 0, pos);
        assert(v.subrange(0, v.len() as int) == v);
    }

    proof fn lemma_canonical(&self, buf: Seq<u8>, pos: int) {
        if self.spec_dec(buf, pos) is Ok {
            lemma_dec_items_canonical(self.0, buf, pos, N as int);
        }
    }

    proof fn lemma_short_eof(
        &self,
        buf: Seq<u8>,
        pos: int,
        v: Seq<<Item::Decoded as DeepView>::V>,
        k: int,
    ) {
        lemma_dec_items_short(self.0, buf, v, 0, pos, k);
    }
}

} // verus!
