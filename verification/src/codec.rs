//! Little-endian integer encoding shared by every on-disk format of the crate.
use vstd::prelude::*;
use vstd::bytes::*;

verus! {

broadcast use vstd::seq_lib::group_seq_properties;

/// Appends the four little-endian bytes of `x`.
pub fn push_u32_le(out: &mut Vec<u8>, x: u32)
    ensures
        final(out)@ == old(out)@ + spec_u32_to_le_bytes(x),
{
    let mut b = u32_to_le_bytes(x);
    out.append(&mut b);
}

/// Appends the two little-endian bytes of `x`.
pub fn push_u16_le(out: &mut Vec<u8>, x: u16)
    ensures
        final(out)@ == old(out)@ + spec_u16_to_le_bytes(x),
{
    let mut b = u16_to_le_bytes(x);
    out.append(&mut b);
}

/// Appends the eight little-endian bytes of `x`.
pub fn push_u64_le(out: &mut Vec<u8>, x: u64)
    ensures
        final(out)@ == old(out)@ + spec_u64_to_le_bytes(x),
{
    let mut b = u64_to_le_bytes(x);
    out.append(&mut b);
}

/// Reads the little-endian `u32` stored at `pos`.
pub fn read_u32_le(data: &[u8], pos: usize) -> (x: u32)
    requires
        pos + 4 <= data.len(),
    ensures
        x == spec_u32_from_le_bytes(data@.subrange(pos as int, pos + 4)),
{
    let s = vstd::slice::slice_subrange(data, pos, pos + 4);
    u32_from_le_bytes(s)
}

/// Reads the little-endian `u16` stored at `pos`.
pub fn read_u16_le(data: &[u8], pos: usize) -> (x: u16)
    requires
        pos + 2 <= data.len(),
    ensures
        x == spec_u16_from_le_bytes(data@.subrange(pos as int, pos + 2)),
{
    let s = vstd::slice::slice_subrange(data, pos, pos + 2);
    u16_from_le_bytes(s)
}

/// Reads the little-endian `u64` stored at `pos`.
pub fn read_u64_le(data: &[u8], pos: usize) -> (x: u64)
    requires
        pos + 8 <= data.len(),
    ensures
        x == spec_u64_from_le_bytes(data@.subrange(pos as int, pos + 8)),
{
    let s = vstd::slice::slice_subrange(data, pos, pos + 8);
    u64_from_le_bytes(s)
}

/// The sequence of bytes that encodes `xs` as consecutive little-endian `u32`s.
pub open spec fn u32s_le(xs: Seq<u32>) -> Seq<u8>
    decreases xs.len(),
{
    if xs.len() == 0 {
        Seq::empty()
    } else {
        u32s_le(xs.drop_last()) + spec_u32_to_le_bytes(xs.last())
    }
}

/// Encoding `xs` takes four bytes per element, and element `i` sits at `4 * i`.
pub proof fn lemma_u32s_le(xs: Seq<u32>)
    ensures
        u32s_le(xs).len() == 4 * xs.len(),
        forall|i: int|
            0 <= i < xs.len() ==> #[trigger] u32s_le(xs).subrange(4 * i, 4 * i + 4)
                == spec_u32_to_le_bytes(xs[i]),
    decreases xs.len(),
{
    lemma_auto_spec_u32_to_from_le_bytes();
    if xs.len() > 0 {
        let p = xs.drop_last();
        lemma_u32s_le(p);
        assert forall|i: int| 0 <= i < xs.len() implies #[trigger] u32s_le(xs).subrange(
            4 * i,
            4 * i + 4,
        ) == spec_u32_to_le_bytes(xs[i]) by {
            let a = u32s_le(p);
            let b = spec_u32_to_le_bytes(xs.last());
            if i < p.len() {
                assert(u32s_le(xs).subrange(4 * i, 4 * i + 4) =~= a.subrange(4 * i, 4 * i + 4));
                assert(p[i] == xs[i]);
            } else {
                assert(u32s_le(xs).subrange(4 * i, 4 * i + 4) =~= b);
            }
        }
    }
}

/// The `u32` stored little-endian in word `i` (bytes `4 * i .. 4 * i + 4`) of `s`.
pub open spec fn word_at(s: Seq<u8>, i: int) -> u32 {
    spec_u32_from_le_bytes(s.subrange(4 * i, 4 * i + 4))
}

/// The words of an encoding read back as written, whatever follows it.
pub proof fn lemma_words_read_back(xs: Seq<u32>, rest: Seq<u8>)
    ensures
        (u32s_le(xs) + rest).len() == 4 * xs.len() + rest.len(),
        forall|i: int| 0 <= i < xs.len() ==> #[trigger] word_at(u32s_le(xs) + rest, i) == xs[i],
{
    lemma_u32s_le(xs);
    lemma_auto_spec_u32_to_from_le_bytes();
    assert forall|i: int| 0 <= i < xs.len() implies #[trigger] word_at(u32s_le(xs) + rest, i) == xs[i] by {
        assert((u32s_le(xs) + rest).subrange(4 * i, 4 * i + 4) =~= u32s_le(xs).subrange(4 * i, 4 * i + 4));
    }
}

/// Appending a word to an encoding appends its four bytes.
pub proof fn lemma_u32s_le_push(xs: Seq<u32>, x: u32)
    ensures
        u32s_le(xs.push(x)) == u32s_le(xs) + spec_u32_to_le_bytes(x),
{
    assert(xs.push(x).drop_last() =~= xs);
}

/// Reads word `i` of `data`.
pub fn read_word(data: &[u8], i: usize) -> (x: u32)
    requires
        4 * i + 4 <= data.len(),
    ensures
        x == word_at(data@, i as int),
{
    read_u32_le(data, 4 * i)
}

} // verus!
