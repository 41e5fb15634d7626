//! Byte-level reads and writes shared by every codec: a single byte, or a
//! run of bytes, at a caller-owned cursor.
use vstd::prelude::*;

use crate::DecodeError;
use crate::EncodeError;

verus! {

/// `post` is `pre` with the bytes of `s` laid down at position `at` and
/// everything else unchanged.
pub open spec fn spliced(pre: Seq<u8>, post: Seq<u8>, at: int, s: Seq<u8>) -> bool {
    &&& 0 <= at
    &&& at + s.len() <= pre.len()
    &&& post =~= pre.subrange(0, at) + s + pre.subrange(at + s.len(), pre.len() as int)
}

/// Writing nothing is a splice of the empty sequence.
pub proof fn lemma_spliced_empty(pre: Seq<u8>, at: int)
    requires
        0 <= at <= pre.len(),
    ensures
        spliced(pre, pre, at, Seq::empty()),
{
    assert(pre =~= pre.subrange(0, at) + Seq::<u8>::empty() + pre.subrange(at, pre.len() as int));
}

/// Updating one byte is a splice of a one-byte sequence.
pub proof fn lemma_spliced_byte(pre: Seq<u8>, post: Seq<u8>, at: int, b: u8)
    requires
        0 <= at < pre.len(),
        post == pre.update(at, b),
    ensures
        spliced(pre, post, at, seq![b]),
{
    assert(post =~= pre.subrange(0, at) + seq![b] + pre.subrange(at + 1, pre.len() as int));
}

/// A splice followed by one more written byte is a splice of the longer run.
pub proof fn lemma_spliced_push(pre: Seq<u8>, mid: Seq<u8>, post: Seq<u8>, at: int, s: Seq<u8>, b: u8)
    requires
        spliced(pre, mid, at, s),
        at + s.len() < pre.len(),
        post == mid.update(at + s.len(), b),
    ensures
        spliced(pre, post, at, s.push(b)),
{
    assert(post =~= pre.subrange(0, at) + s.push(b) + pre.subrange(
        at + s.len() + 1,
        pre.len() as int,
    ));
}

/// Two adjacent splices are a splice of the concatenation.
pub proof fn lemma_spliced_concat(
    pre: Seq<u8>,
    mid: Seq<u8>,
    post: Seq<u8>,
    at: int,
    s1: Seq<u8>,
    s2: Seq<u8>,
)
    requires
        spliced(pre, mid, at, s1),
        spliced(mid, post, at + s1.len(), s2),
    ensures
        spliced(pre, post, at, s1 + s2),
{
    assert(post =~= pre.subrange(0, at) + (s1 + s2) + pre.subrange(
        at + s1.len() + s2.len(),
        pre.len() as int,
    ));
}

/// A splice leaves every strict prefix that ends at or before it unchanged.
pub proof fn lemma_spliced_prefix_eq(pre: Seq<u8>, post: Seq<u8>, at: int, s: Seq<u8>, j: int)
    requires
        spliced(pre, post, at, s),
        0 <= j <= at,
    ensures
        post.subrange(0, j) == pre.subrange(0, j),
{
    assert(post.subrange(0, j) =~= pre.subrange(0, j));
}

/// Cutting a window out of a matched region: if the bytes at `pos` are
/// `s`, any sub-window of them is the matching part of `s`.
pub proof fn lemma_window_cut(buf: Seq<u8>, pos: int, s: Seq<u8>, a: int, b: int)
    requires
        0 <= pos,
        0 <= a <= b <= s.len(),
        pos + s.len() <= buf.len(),
        buf.subrange(pos, pos + s.len() as int) == s,
    ensures
        buf.subrange(pos + a, pos + b) == s.subrange(a, b),
{
    assert forall|j: int| 0 <= j < b - a implies #[trigger] (buf.subrange(pos + a, pos + b)[j])
        == s.subrange(a, b)[j] by {
        assert(buf.subrange(pos, pos + s.len() as int)[a + j] == buf[pos + a + j]);
    }
    assert(buf.subrange(pos + a, pos + b) =~= s.subrange(a, b));
}

/// Cutting a window out of a matched prefix: if the `k` bytes at `pos`
/// are the first `k` bytes of `s`, any sub-window inside them is the
/// matching part of `s`.
pub proof fn lemma_window_cut_prefix(buf: Seq<u8>, pos: int, s: Seq<u8>, k: int, a: int, b: int)
    requires
        0 <= pos,
        0 <= a <= b <= k <= s.len(),
        pos + k <= buf.len(),
        buf.subrange(pos, pos + k) == s.subrange(0, k),
    ensures
        buf.subrange(pos + a, pos + b) == s.subrange(a, b),
{
    assert forall|j: int| 0 <= j < b - a implies #[trigger] (buf.subrange(pos + a, pos + b)[j])
        == s.subrange(a, b)[j] by {
        assert(buf.subrange(pos, pos + k)[a + j] == buf[pos + a + j]);
        assert(s.subrange(0, k)[a + j] == s[a + j]);
    }
    assert(buf.subrange(pos + a, pos + b) =~= s.subrange(a, b));
}

/// For byte containers the deep view and the plain view agree.
pub proof fn lemma_vec_u8_deep_view(v: Vec<u8>)
    ensures
        v.deep_view() == v@,
{
    assert(v.deep_view() =~= v@);
}

/// For byte slices the deep view and the plain view agree.
pub proof fn lemma_slice_u8_deep_view(s: &[u8])
    ensures
        s.deep_view() == s@,
{
    assert(s.deep_view() =~= s@);
}

pub(crate) fn read_byte(encoded: &[u8], offset: &mut usize) -> (r: Result<u8, DecodeError>)
    requires
        *old(offset) <= encoded.len(),
    ensures
        *old(offset) <= *final(offset) <= encoded.len(),
        if *old(offset) < encoded.len() {
            &&& r matches Ok(b) && b == encoded@[*old(offset) as int]
            &&& *final(offset) == *old(offset) + 1
        } else {
            &&& r matches Err(e) && e == DecodeError::EOF
            &&& *final(offset) == *old(offset)
        },
{
    if *offset >= encoded.len() {
        return Err(DecodeError::EOF);
    }
    let b = encoded[*offset];
    *offset = *offset + 1;
    Ok(b)
}

pub(crate) fn read_run<'e>(encoded: &'e [u8], offset: &mut usize, count: usize) -> (r: Result<
    &'e [u8],
    DecodeError,
>)
    requires
        *old(offset) <= encoded.len(),
    ensures
        *old(offset) <= *final(offset) <= encoded.len(),
        if *old(offset) + count <= encoded.len() {
            &&& r matches Ok(run) && run@ == encoded@.subrange(
                *old(offset) as int,
                *old(offset) + count,
            )
            &&& *final(offset) == *old(offset) + count
        } else {
            &&& r matches Err(e) && e == DecodeError::EOF
            &&& *final(offset) == *old(offset)
        },
{
    if count > encoded.len() - *offset {
        return Err(DecodeError::EOF);
    }
    let run = vstd::slice::slice_subrange(encoded, *offset, *offset + count);
    *offset = *offset + count;
    Ok(run)
}

pub(crate) fn write_byte(encoded: &mut Vec<u8>, offset: &mut usize, b: u8) -> (r: Result<
    (),
    EncodeError,
>)
    requires
        *old(offset) <= old(encoded).len(),
    ensures
        final(encoded).len() == old(encoded).len(),
        *old(offset) <= *final(offset) <= final(encoded).len(),
        if *old(offset) < old(encoded).len() {
            &&& r is Ok
            &&& final(encoded)@ == old(encoded)@.update(*old(offset) as int, b)
            &&& *final(offset) == *old(offset) + 1
        } else {
            &&& r matches Err(e) && e == EncodeError::BufferTooSmall
            &&& final(encoded)@ == old(encoded)@
            &&& *final(offset) == *old(offset)
        },
{
    if *offset >= encoded.len() {
        return Err(EncodeError::BufferTooSmall);
    }
    encoded[*offset] = b;
    *offset = *offset + 1;
    Ok(())
}

pub(crate) fn write_run(encoded: &mut Vec<u8>, offset: &mut usize, bytes: &[u8]) -> (r: Result<
    (),
    EncodeError,
>)
    requires
        *old(offset) <= old(encoded).len(),
    ensures
        final(encoded).len() == old(encoded).len(),
        *old(offset) <= *final(offset) <= final(encoded).len(),
        if *old(offset) + bytes.len() <= old(encoded).len() {
            &&& r is Ok
            &&& spliced(old(encoded)@, final(encoded)@, *old(offset) as int, bytes@)
            &&& *final(offset) == *old(offset) + bytes.len()
        } else {
            &&& r matches Err(e) && e == EncodeError::BufferTooSmall
            &&& final(encoded)@ == old(encoded)@
            &&& *final(offset) == *old(offset)
        },
{
    if bytes.len() > encoded.len() - *offset {
        return Err(EncodeError::BufferTooSmall);
    }
    let start: usize = *offset;
    let mut i: usize = 0;
    while i < bytes.len()
        invariant
            start + bytes.len() <= encoded.len(),
            0 <= i <= bytes.len(),
            encoded.len() == old(encoded).len(),
            encoded@ =~= old(encoded)@.subrange(0, start as int) + bytes@.subrange(0, i as int)
                + old(encoded)@.subrange(start + i, encoded.len() as int),
        decreases bytes.len() - i,
    {
        encoded[start + i] = bytes[i];
        assert(encoded@ =~= old(encoded)@.subrange(0, start as int) + bytes@.subrange(
            0,
            i + 1,
        ) + old(encoded)@.subrange(start + i + 1, encoded.len() as int));
        i = i + 1;
    }
    *offset = start + bytes.len();
    assert(bytes@.subrange(0, bytes.len() as int) == bytes@);
    Ok(())
}

} // verus!
