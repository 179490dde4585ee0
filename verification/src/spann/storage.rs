//! On-disk layout of a SPANN index file.
//!
//! The file starts with a 15-byte header (number of posting lists as `u64`,
//! dimension as `u32`, three flag bytes), followed by a table reserved at 22
//! bytes per posting list of which the first 20 hold each list's `ListInfo`.
//! Each posting list follows, starting on an 8 KiB page boundary and padded to
//! a whole number of pages; its bytes are the vector ids as little-endian
//! `u32`s and then the vector payload, zstd-compressed when compression is on.
use vstd::prelude::*;
use vstd::bytes::*;
use crate::codec::{push_u16_le, push_u32_le, push_u64_le, read_u16_le, read_u32_le, read_u64_le, u32s_le, lemma_u32s_le};
use crate::spann::compression::{zstd_encode_all, zstd_decode_all, zstd_frame, zstd_unframe};

verus! {

broadcast use vstd::seq_lib::group_seq_properties;

/// Size of a page; posting lists start on page boundaries.
pub const PAGE_SIZE: usize = 8192;

/// Bytes reserved per posting list in the table after the header.
pub const LIST_INFO_SIZE: usize = 22;

/// Bytes actually written per `ListInfo`.
pub const LIST_INFO_ENCODED_SIZE: usize = 20;

/// Size of the file header.
pub const HEADER_SIZE: usize = 15;

/// Zstd level used for posting lists.
pub const POSTING_COMPRESSION_LEVEL: i32 = 3;

/// Where a posting list lies in the file.
#[derive(Clone, Copy, Debug, PartialEq, Eq, Structural)]
pub struct ListInfo {
    pub offset: u64,
    pub page_count: u16,
    pub ele_count: u16,
    pub total_bytes: u32,
    pub page_offset: u32,
}

/// Header of an index file.
#[derive(Clone, Copy, Debug, PartialEq, Eq, Structural)]
pub struct StorageHeader {
    pub num_postings: u64,
    pub dim: u32,
    pub enable_compression: bool,
    pub enable_delta: bool,
    pub has_quantization: bool,
}

/// Why an index file could not be written or read.
#[derive(Debug)]
pub enum StorageError {
    /// Zstd refused to compress or decompress a posting list.
    Compression(std::io::Error),
    /// The file ends before data that its header or table announces.
    Truncated,
    /// The layout would not fit in memory addresses.
    TooLarge,
}

/// Quantized codes of a posting list with the metadata of their quantizer.
pub struct QuantizedBlock {
    pub metadata: Vec<u8>,
    pub codes: Vec<u8>,
}

/// A posting list as handed to `SPANNStorage::save`: its vector ids, its
/// quantized form if it has one, and the encoded bytes of its full-precision
/// vectors.
pub struct PostingPayload {
    pub vector_ids: Vec<usize>,
    pub quantized: Option<QuantizedBlock>,
    pub vector_bytes: Vec<u8>,
}

pub struct SPANNStorage {
    list_infos: Vec<ListInfo>,
}

// ----- byte formats -------------------------------------------------------

/// The 20 bytes that encode a `ListInfo`.
pub open spec fn list_info_bytes(i: ListInfo) -> Seq<u8> {
    spec_u64_to_le_bytes(i.offset) + spec_u16_to_le_bytes(i.page_count) + spec_u16_to_le_bytes(i.ele_count)
        + spec_u32_to_le_bytes(i.total_bytes) + spec_u32_to_le_bytes(i.page_offset)
}

/// The `ListInfo` read from the 20 bytes at the start of `s`.
pub open spec fn list_info_from_bytes(s: Seq<u8>) -> ListInfo {
    ListInfo {
        offset: spec_u64_from_le_bytes(s.subrange(0, 8)),
        page_count: spec_u16_from_le_bytes(s.subrange(8, 10)),
        ele_count: spec_u16_from_le_bytes(s.subrange(10, 12)),
        total_bytes: spec_u32_from_le_bytes(s.subrange(12, 16)),
        page_offset: spec_u32_from_le_bytes(s.subrange(16, 20)),
    }
}

/// The encodings of `infos`, one after the other.
pub open spec fn list_infos_bytes(infos: Seq<ListInfo>) -> Seq<u8>
    decreases infos.len(),
{
    if infos.len() == 0 {
        Seq::empty()
    } else {
        list_infos_bytes(infos.drop_last()) + list_info_bytes(infos.last())
    }
}

/// The `n` list infos encoded one after the other at the start of `s`.
pub open spec fn list_infos_from_bytes(s: Seq<u8>, n: nat) -> Seq<ListInfo> {
    Seq::new(n, |k: int| list_info_from_bytes(s.subrange(20 * k, 20 * k + 20)))
}

/// Byte that stores a flag.
pub open spec fn flag_byte(b: bool) -> u8 {
    if b { 1 } else { 0 }
}

/// The 15 bytes of a header.
pub open spec fn header_bytes(h: StorageHeader) -> Seq<u8> {
    spec_u64_to_le_bytes(h.num_postings) + spec_u32_to_le_bytes(h.dim) + seq![
        flag_byte(h.enable_compression),
        flag_byte(h.enable_delta),
        flag_byte(h.has_quantization),
    ]
}

/// The header read from the first 15 bytes of `s`; a flag is set when its byte
/// is not zero.
pub open spec fn header_from_bytes(s: Seq<u8>) -> StorageHeader {
    StorageHeader {
        num_postings: spec_u64_from_le_bytes(s.subrange(0, 8)),
        dim: spec_u32_from_le_bytes(s.subrange(8, 12)),
        enable_compression: s[12] != 0,
        enable_delta: s[13] != 0,
        has_quantization: s[14] != 0,
    }
}

/// `n` zero bytes.
pub open spec fn zeros(n: nat) -> Seq<u8> {
    Seq::new(n, |i: int| 0u8)
}

/// Bytes needed after `n` to reach the next page boundary.
pub open spec fn page_padding(n: int) -> int {
    (PAGE_SIZE - n % (PAGE_SIZE as int)) % (PAGE_SIZE as int)
}

/// `n` rounded up to a whole number of pages.
pub open spec fn round_up_page(n: int) -> int {
    n + page_padding(n)
}

pub proof fn lemma_round_up_page(n: int)
    requires
        0 <= n,
    ensures
        round_up_page(n) % (PAGE_SIZE as int) == 0,
        n <= round_up_page(n) < n + PAGE_SIZE,
        0 <= page_padding(n) < PAGE_SIZE,
        n % (PAGE_SIZE as int) == 0 ==> round_up_page(n) == n,
{
    let p = PAGE_SIZE as int;
    assert(n == (n / p) * p + n % p) by (nonlinear_arith)
        requires p > 0;
    if n % p != 0 {
        assert(round_up_page(n) == (n / p) * p + p);
        assert(((n / p) * p + p) % p == 0) by (nonlinear_arith)
            requires p > 0;
    }
}

// ----- posting records ----------------------------------------------------

/// Vector ids as they are written: each truncated to 32 bits.
pub open spec fn ids_as_u32(ids: Seq<usize>) -> Seq<u32> {
    ids.map_values(|x: usize| x as u32)
}

/// What follows the vector ids of a posting list: the quantizer metadata
/// (length-prefixed) and the codes when quantized data is saved and the list
/// has some, the full-precision vector bytes otherwise.
pub open spec fn posting_body(p: PostingPayload, save_quantized: bool) -> Seq<u8> {
    if save_quantized && p.quantized is Some {
        let q = p.quantized->Some_0;
        spec_u32_to_le_bytes(q.metadata@.len() as u32) + q.metadata@ + q.codes@
    } else {
        p.vector_bytes@
    }
}

/// Uncompressed bytes of a posting list.
pub open spec fn raw_posting(p: PostingPayload, save_quantized: bool) -> Seq<u8> {
    u32s_le(ids_as_u32(p.vector_ids@)) + posting_body(p, save_quantized)
}

/// Bytes of a posting list as stored in the file (with compression, the zstd
/// frame of its bytes; see `compressible`).
pub open spec fn stored_posting(p: PostingPayload, save_quantized: bool, compression: bool) -> Seq<u8> {
    if compression {
        zstd_frame(raw_posting(p, save_quantized), POSTING_COMPRESSION_LEVEL)->Some_0
    } else {
        raw_posting(p, save_quantized)
    }
}

/// Zstd compresses a posting list without error, or compression is off.
pub open spec fn compressible(p: PostingPayload, save_quantized: bool, compression: bool) -> bool {
    compression ==> zstd_frame(raw_posting(p, save_quantized), POSTING_COMPRESSION_LEVEL) is Some
}

/// Every posting list is compressible.
pub open spec fn all_compressible(ps: Seq<PostingPayload>, save_quantized: bool, compression: bool) -> bool {
    forall|k: int| 0 <= k < ps.len() ==> #[trigger] compressible(ps[k], save_quantized, compression)
}

/// File position reached after writing the first `k` posting lists, starting at `base`.
pub open spec fn pos_after(base: int, ps: Seq<PostingPayload>, sq: bool, c: bool, k: nat) -> int
    decreases k,
{
    if k == 0 {
        base
    } else {
        round_up_page(pos_after(base, ps, sq, c, (k - 1) as nat)) + round_up_page(
            stored_posting(ps[k - 1], sq, c).len() as int,
        )
    }
}

/// Where the table of list infos ends and the first posting list may start.
pub open spec fn table_end(n: nat) -> int {
    HEADER_SIZE + LIST_INFO_SIZE * n
}

/// Bytes written after the table for the first `k` posting lists, starting at
/// file position `base`: for each list, zeros up to the next page boundary,
/// its stored bytes, then zeros up to the end of its last page.
pub open spec fn body_bytes(base: int, ps: Seq<PostingPayload>, sq: bool, c: bool, k: nat) -> Seq<u8>
    decreases k,
{
    if k == 0 {
        Seq::empty()
    } else {
        let stored = stored_posting(ps[k - 1], sq, c);
        body_bytes(base, ps, sq, c, (k - 1) as nat) + zeros(page_padding(pos_after(base, ps, sq, c, (k - 1) as nat)) as nat)
            + stored + zeros(page_padding(stored.len() as int) as nat)
    }
}

/// The `ListInfo` written for posting list `k`.
pub open spec fn expected_info(ps: Seq<PostingPayload>, sq: bool, c: bool, k: int) -> ListInfo {
    let len = stored_posting(ps[k], sq, c).len() as int;
    ListInfo {
        offset: round_up_page(pos_after(table_end(ps.len()), ps, sq, c, k as nat)) as u64,
        page_count: (round_up_page(len) / (PAGE_SIZE as int)) as u16,
        ele_count: ps[k].vector_ids@.len() as u16,
        total_bytes: len as u32,
        page_offset: 0,
    }
}


// ----- encoding and decoding ----------------------------------------------

/// Encodes one `ListInfo` in 20 bytes.
pub fn encode_list_info(out: &mut Vec<u8>, info: &ListInfo)
    ensures
        final(out)@ == old(out)@ + list_info_bytes(*info),
{
    push_u64_le(out, info.offset);
    push_u16_le(out, info.page_count);
    push_u16_le(out, info.ele_count);
    push_u32_le(out, info.total_bytes);
    push_u32_le(out, info.page_offset);
}

/// Encodes the header in 15 bytes.
pub fn encode_header(out: &mut Vec<u8>, h: &StorageHeader)
    ensures
        final(out)@ == old(out)@ + header_bytes(*h),
{
    push_u64_le(out, h.num_postings);
    push_u32_le(out, h.dim);
    out.push(if h.enable_compression { 1u8 } else { 0u8 });
    out.push(if h.enable_delta { 1u8 } else { 0u8 });
    out.push(if h.has_quantization { 1u8 } else { 0u8 });
    proof {
        assert(final(out)@ =~= old(out)@ + header_bytes(*h));
    }
}

/// Reads the header at the start of a file; `None` when the file is shorter
/// than a header.
pub fn parse_header(bytes: &[u8]) -> (r: Option<StorageHeader>)
    ensures
        bytes@.len() < HEADER_SIZE ==> r is None,
        bytes@.len() >= HEADER_SIZE ==> r == Some(header_from_bytes(bytes@)),
{
    if bytes.len() < HEADER_SIZE {
        return None;
    }
    let num_postings = read_u64_le(bytes, 0);
    let dim = read_u32_le(bytes, 8);
    Some(StorageHeader {
        num_postings,
        dim,
        enable_compression: bytes[12] != 0,
        enable_delta: bytes[13] != 0,
        has_quantization: bytes[14] != 0,
    })
}

/// Reads `n` list infos stored one after the other at the start of `bytes`;
/// `None` when the bytes are too few.
pub fn parse_list_infos(bytes: &[u8], n: usize) -> (r: Option<Vec<ListInfo>>)
    ensures
        bytes@.len() < 20 * n ==> r is None,
        bytes@.len() >= 20 * n ==> (r matches Some(v) && v@ == list_infos_from_bytes(bytes@, n as nat)),
{
    if n > bytes.len() / 20 {
        return None;
    }
    let mut infos: Vec<ListInfo> = Vec::new();
    let mut k: usize = 0;
    while k < n
        invariant
            k <= n,
            20 * n <= bytes.len(),
            infos@ == list_infos_from_bytes(bytes@, n as nat).take(k as int),
        decreases n - k,
    {
        let pos = 20 * k;
        let info = ListInfo {
            offset: read_u64_le(bytes, pos),
            page_count: read_u16_le(bytes, pos + 8),
            ele_count: read_u16_le(bytes, pos + 10),
            total_bytes: read_u32_le(bytes, pos + 12),
            page_offset: read_u32_le(bytes, pos + 16),
        };
        proof {
            let r = bytes@.subrange(pos as int, pos + 20);
            assert(r.subrange(0, 8) =~= bytes@.subrange(pos as int, pos + 8));
            assert(r.subrange(8, 10) =~= bytes@.subrange(pos + 8, pos + 10));
            assert(r.subrange(10, 12) =~= bytes@.subrange(pos + 10, pos + 12));
            assert(r.subrange(12, 16) =~= bytes@.subrange(pos + 12, pos + 16));
            assert(r.subrange(16, 20) =~= bytes@.subrange(pos + 16, pos + 20));
        }
        infos.push(info);
        k = k + 1;
        proof {
            assert(infos@ =~= list_infos_from_bytes(bytes@, n as nat).take(k as int));
        }
    }
    proof {
        assert(infos@ =~= list_infos_from_bytes(bytes@, n as nat));
    }
    Some(infos)
}

/// Reading back the encoding of a header, whatever follows it, gives the header.
pub proof fn lemma_header_roundtrip(h: StorageHeader, rest: Seq<u8>)
    ensures
        header_from_bytes(header_bytes(h) + rest) == h,
{
    lemma_auto_spec_u64_to_from_le_bytes();
    lemma_auto_spec_u32_to_from_le_bytes();
    let s = header_bytes(h) + rest;
    assert(s.subrange(0, 8) =~= spec_u64_to_le_bytes(h.num_postings));
    assert(s.subrange(8, 12) =~= spec_u32_to_le_bytes(h.dim));
}

/// Reading back the encoding of one list info gives the list info.
proof fn lemma_list_info_roundtrip(i: ListInfo)
    ensures
        list_info_bytes(i).len() == 20,
        list_info_from_bytes(list_info_bytes(i)) == i,
{
    lemma_auto_spec_u64_to_from_le_bytes();
    lemma_auto_spec_u32_to_from_le_bytes();
    lemma_auto_spec_u16_to_from_le_bytes();
    let s = list_info_bytes(i);
    assert(s.subrange(0, 8) =~= spec_u64_to_le_bytes(i.offset));
    assert(s.subrange(8, 10) =~= spec_u16_to_le_bytes(i.page_count));
    assert(s.subrange(10, 12) =~= spec_u16_to_le_bytes(i.ele_count));
    assert(s.subrange(12, 16) =~= spec_u32_to_le_bytes(i.total_bytes));
    assert(s.subrange(16, 20) =~= spec_u32_to_le_bytes(i.page_offset));
}

/// The encodings of list infos take 20 bytes each, info `k` at `20 * k`.
proof fn lemma_list_infos_bytes(infos: Seq<ListInfo>)
    ensures
        list_infos_bytes(infos).len() == 20 * infos.len(),
        forall|k: int|
            0 <= k < infos.len() ==> #[trigger] list_infos_bytes(infos).subrange(20 * k, 20 * k + 20)
                == list_info_bytes(infos[k]),
    decreases infos.len(),
{
    if infos.len() > 0 {
        let p = infos.drop_last();
        lemma_list_infos_bytes(p);
        lemma_list_info_roundtrip(infos.last());
        assert forall|k: int| 0 <= k < infos.len() implies #[trigger] list_infos_bytes(infos).subrange(
            20 * k,
            20 * k + 20,
        ) == list_info_bytes(infos[k]) by {
            if k < p.len() {
                assert(list_infos_bytes(infos).subrange(20 * k, 20 * k + 20) =~= list_infos_bytes(p).subrange(
                    20 * k,
                    20 * k + 20,
                ));
                assert(p[k] == infos[k]);
            } else {
                assert(list_infos_bytes(infos).subrange(20 * k, 20 * k + 20) =~= list_info_bytes(infos.last()));
            }
        }
    }
}

/// Reading back the encodings of list infos, whatever follows them, gives the list infos.
pub proof fn lemma_list_infos_roundtrip(infos: Seq<ListInfo>, rest: Seq<u8>)
    ensures
        list_infos_from_bytes(list_infos_bytes(infos) + rest, infos.len()) == infos,
{
    lemma_list_infos_bytes(infos);
    let s = list_infos_bytes(infos) + rest;
    assert forall|k: int| 0 <= k < infos.len() implies #[trigger] list_infos_from_bytes(s, infos.len())[k] == infos[k] by {
        assert(s.subrange(20 * k, 20 * k + 20) =~= list_infos_bytes(infos).subrange(20 * k, 20 * k + 20));
        lemma_list_info_roundtrip(infos[k]);
    }
    assert(list_infos_from_bytes(s, infos.len()) =~= infos);
}

/// Builds the uncompressed bytes of a posting list.
pub fn build_raw_posting(p: &PostingPayload, save_quantized: bool) -> (raw: Vec<u8>)
    ensures
        raw@ == raw_posting(*p, save_quantized),
{
    let mut out: Vec<u8> = Vec::new();
    let n = p.vector_ids.len();
    let mut i: usize = 0;
    while i < n
        invariant
            i <= n,
            n == p.vector_ids@.len(),
            out@ == u32s_le(ids_as_u32(p.vector_ids@.take(i as int))),
        decreases n - i,
    {
        push_u32_le(&mut out, p.vector_ids[i] as u32);
        i = i + 1;
        proof {
            let t = ids_as_u32(p.vector_ids@.take(i as int));
            assert(t.drop_last() =~= ids_as_u32(p.vector_ids@.take(i - 1)));
            assert(t.last() == p.vector_ids@[i - 1] as u32);
        }
    }
    proof {
        assert(p.vector_ids@.take(n as int) =~= p.vector_ids@);
    }
    match &p.quantized {
        Some(q) if save_quantized => {
            push_u32_le(&mut out, q.metadata.len() as u32);
            let mut m = q.metadata.clone();
            out.append(&mut m);
            let mut c = q.codes.clone();
            out.append(&mut c);
        },
        _ => {
            let mut v = p.vector_bytes.clone();
            out.append(&mut v);
        },
    }
    proof {
        assert(out@ =~= raw_posting(*p, save_quantized));
    }
    out
}


/// Start of posting list `k` in the file.
pub open spec fn posting_start(ps: Seq<PostingPayload>, sq: bool, c: bool, k: int) -> int {
    round_up_page(pos_after(table_end(ps.len()), ps, sq, c, k as nat))
}

/// Length of posting list `k` as stored.
pub open spec fn posting_len(ps: Seq<PostingPayload>, sq: bool, c: bool, k: int) -> int {
    stored_posting(ps[k], sq, c).len() as int
}

proof fn lemma_pos_after_monotone(base: int, ps: Seq<PostingPayload>, sq: bool, c: bool, j: nat, k: nat)
    requires
        0 <= base,
        j <= k,
    ensures
        pos_after(base, ps, sq, c, j) <= pos_after(base, ps, sq, c, k),
        0 <= pos_after(base, ps, sq, c, j),
    decreases k,
{
    if k > 0 {
        if j < k {
            lemma_pos_after_monotone(base, ps, sq, c, j, (k - 1) as nat);
        }
        lemma_pos_after_monotone(base, ps, sq, c, (k - 1) as nat, (k - 1) as nat);
        lemma_round_up_page(pos_after(base, ps, sq, c, (k - 1) as nat));
        lemma_round_up_page(stored_posting(ps[k - 1], sq, c).len() as int);
    }
}

/// Where each posting list lies in the bytes after the table: list `j`
/// starts on a page boundary at `posting_start`, and its stored bytes sit
/// there.
proof fn lemma_body_regions(base: int, ps: Seq<PostingPayload>, sq: bool, c: bool, k: nat)
    requires
        0 <= base,
        k <= ps.len(),
        base == table_end(ps.len()),
    ensures
        body_bytes(base, ps, sq, c, k).len() == pos_after(base, ps, sq, c, k) - base,
        forall|j: int|
            0 <= j < k ==> #[trigger] posting_start(ps, sq, c, j) % (PAGE_SIZE as int) == 0
                && base <= posting_start(ps, sq, c, j)
                && posting_start(ps, sq, c, j) + posting_len(ps, sq, c, j) <= pos_after(base, ps, sq, c, k)
                && body_bytes(base, ps, sq, c, k).subrange(
                posting_start(ps, sq, c, j) - base,
                posting_start(ps, sq, c, j) - base + posting_len(ps, sq, c, j),
            ) == stored_posting(ps[j], sq, c),
    decreases k,
{
    if k > 0 {
        let km = (k - 1) as nat;
        lemma_body_regions(base, ps, sq, c, km);
        let prev = body_bytes(base, ps, sq, c, km);
        let cur = pos_after(base, ps, sq, c, km);
        let stored = stored_posting(ps[km as int], sq, c);
        lemma_pos_after_monotone(base, ps, sq, c, 0, km);
        lemma_round_up_page(cur);
        lemma_round_up_page(stored.len() as int);
        let whole = body_bytes(base, ps, sq, c, k);
        let start = posting_start(ps, sq, c, km as int);
        assert(start == cur + page_padding(cur));
        assert(whole.len() == pos_after(base, ps, sq, c, k) - base);
        assert forall|j: int|
            0 <= j < k implies #[trigger] posting_start(ps, sq, c, j) % (PAGE_SIZE as int) == 0
                && base <= posting_start(ps, sq, c, j)
                && posting_start(ps, sq, c, j) + posting_len(ps, sq, c, j) <= pos_after(base, ps, sq, c, k)
                && whole.subrange(
                posting_start(ps, sq, c, j) - base,
                posting_start(ps, sq, c, j) - base + posting_len(ps, sq, c, j),
            ) == stored_posting(ps[j], sq, c) by {
            if j < km {
                assert(whole.subrange(
                    posting_start(ps, sq, c, j) - base,
                    posting_start(ps, sq, c, j) - base + posting_len(ps, sq, c, j),
                ) =~= prev.subrange(
                    posting_start(ps, sq, c, j) - base,
                    posting_start(ps, sq, c, j) - base + posting_len(ps, sq, c, j),
                ));
            } else {
                assert(whole.subrange(start - base, start - base + stored.len()) =~= stored);
            }
        }
    }
}

/// Appends `n` zero bytes.
fn push_zeros(out: &mut Vec<u8>, n: usize)
    ensures
        final(out)@ == old(out)@ + zeros(n as nat),
{
    let mut i: usize = 0;
    while i < n
        invariant
            i <= n,
            out@ == old(out)@ + zeros(i as nat),
        decreases n - i,
    {
        out.push(0u8);
        i = i + 1;
        proof {
            assert(out@ =~= old(out)@ + zeros(i as nat));
        }
    }
}

/// `image` is the file that `SPANNStorage::save` lays out for `ps` with these
/// settings, and `infos` the list infos it records: the header, the table
/// and its two reserved zero bytes per list, and each posting list's stored
/// bytes on a page boundary, padded with zeros, which decode back to the
/// uncompressed bytes.
#[verifier::opaque]
pub open spec fn is_saved_image(
    image: Seq<u8>,
    infos: Seq<ListInfo>,
    ps: Seq<PostingPayload>,
    dim: usize,
    c: bool,
    d: bool,
    sq: bool,
) -> bool {
    let n = ps.len();
    &&& image == header_bytes(
        StorageHeader { num_postings: n as u64, dim: dim as u32, enable_compression: c, enable_delta: d, has_quantization: sq },
    ) + list_infos_bytes(infos) + zeros(2 * n) + body_bytes(table_end(n), ps, sq, c, n)
    &&& image.len() == pos_after(table_end(n), ps, sq, c, n)
    &&& image.subrange(0, HEADER_SIZE as int) == header_bytes(
        StorageHeader { num_postings: n as u64, dim: dim as u32, enable_compression: c, enable_delta: d, has_quantization: sq },
    )
    &&& infos.len() == n
    &&& image.subrange(HEADER_SIZE as int, HEADER_SIZE + 20 * n) == list_infos_bytes(infos)
    &&& forall|k: int| 0 <= k < n ==> #[trigger] infos[k] == expected_info(ps, sq, c, k)
    &&& forall|k: int|
        0 <= k < n ==> posting_start(ps, sq, c, k) % (PAGE_SIZE as int) == 0 && #[trigger] image.subrange(
            posting_start(ps, sq, c, k),
            posting_start(ps, sq, c, k) + posting_len(ps, sq, c, k),
        ) == stored_posting(ps[k], sq, c)
    &&& forall|k: int|
        0 <= k < n ==> #[trigger] decoded_bytes(stored_posting(ps[k], sq, c), c) == Some(raw_posting(ps[k], sq))
}

impl SPANNStorage {
    /// List infos recorded by the last save.
    pub closed spec fn infos(self) -> Seq<ListInfo> {
        self.list_infos@
    }

    /// Storage with no list infos recorded.
    pub fn new() -> (st: Self)
        ensures
            st.infos() == Seq::<ListInfo>::empty(),
    {
        SPANNStorage { list_infos: Vec::new() }
    }

    /// Lays out an index file for `postings` and returns its bytes; the caller
    /// writes them. The header records the number of posting lists, `dim`
    /// (truncated to 32 bits) and the three flags. Each posting list is stored
    /// as its ids and body, zstd-compressed at level 3 when compression is on,
    /// starting on a page boundary and padded to whole pages; its `ListInfo`
    /// (also kept in `self`) gives its offset, page count, element count
    /// and stored length, with a page offset of 0. The save succeeds exactly
    /// when zstd compresses every posting list (or compression is off) and the
    /// file fits in memory addresses; otherwise it returns `Compression` for a
    /// list zstd refused or `TooLarge` for a file too large.
    #[verifier::rlimit(100)]
    #[verifier::spinoff_prover]
    pub fn save(
        &mut self,
        postings: &[PostingPayload],
        dim: usize,
        enable_compression: bool,
        enable_delta: bool,
        save_quantized: bool,
    ) -> (r: Result<Vec<u8>, StorageError>)
        ensures
            r matches Ok(image) ==> is_saved_image(
                image@,
                final(self).infos(),
                postings@,
                dim,
                enable_compression,
                enable_delta,
                save_quantized,
            ),
            r is Ok <==> all_compressible(postings@, save_quantized, enable_compression) && pos_after(
                table_end(postings@.len()),
                postings@,
                save_quantized,
                enable_compression,
                postings@.len(),
            ) <= usize::MAX,
            r matches Err(e) ==> (e is TooLarge || e is Compression),
            r matches Err(e) && e is Compression ==> !all_compressible(postings@, save_quantized, enable_compression),
            r matches Err(e) && e is TooLarge ==> pos_after(
                table_end(postings@.len()),
                postings@,
                save_quantized,
                enable_compression,
                postings@.len(),
            ) > usize::MAX,
    {
        let ghost ps = postings@;
        let ghost sq = save_quantized;
        let ghost c = enable_compression;
        let n = postings.len();
        if n > (usize::MAX - HEADER_SIZE) / LIST_INFO_SIZE {
            proof {
                lemma_pos_after_monotone(table_end(n as nat), ps, sq, c, 0, n as nat);
            }
            return Err(StorageError::TooLarge);
        }
        let base = HEADER_SIZE + LIST_INFO_SIZE * n;
        self.list_infos.clear();
        let mut body: Vec<u8> = Vec::new();
        let mut k: usize = 0;
        while k < n
            invariant
                n == ps.len(),
                ps == postings@,
                base == table_end(n as nat),
                k <= n,
                base + body@.len() <= usize::MAX,
                base + body@.len() == pos_after(base as int, ps, sq, c, k as nat),
                self.list_infos@.len() == k,
                forall|j: int| 0 <= j < k ==> #[trigger] self.list_infos@[j] == expected_info(ps, sq, c, j),
                c == enable_compression,
                sq == save_quantized,
                forall|j: int| 0 <= j < k ==> #[trigger] decoded_bytes(stored_posting(ps[j], sq, c), c) == Some(raw_posting(ps[j], sq)),
                forall|j: int| 0 <= j < k ==> #[trigger] compressible(ps[j], sq, c),
                body@ == body_bytes(base as int, ps, sq, c, k as nat),
            decreases n - k,
        {
            let raw = build_raw_posting(&postings[k], save_quantized);
            proof {
                assert(raw@ == raw_posting(ps[k as int], sq));
            }
            let data = if enable_compression {
                match zstd_encode_all(raw.as_slice(), POSTING_COMPRESSION_LEVEL) {
                    Ok(v) => v,
                    Err(e) => {
                        proof {
                            assert(!compressible(ps[k as int], sq, c));
                        }
                        return Err(StorageError::Compression(e));
                    },
                }
            } else {
                raw
            };
            let cur = base + body.len();
            let pad_before = (PAGE_SIZE - cur % PAGE_SIZE) % PAGE_SIZE;
            let dlen = data.len();
            let pad_after = (PAGE_SIZE - dlen % PAGE_SIZE) % PAGE_SIZE;
            proof {
                lemma_round_up_page(cur as int);
                lemma_round_up_page(dlen as int);
                lemma_pos_after_monotone(base as int, ps, sq, c, (k + 1) as nat, n as nat);
                assert(data@ == stored_posting(ps[k as int], sq, c));
                assert(compressible(ps[k as int], sq, c));
                assert(decoded_bytes(stored_posting(ps[k as int], sq, c), c) == Some(raw_posting(ps[k as int], sq)));
                assert(pos_after(base as int, ps, sq, c, (k + 1) as nat) == cur + pad_before + dlen + pad_after);
            }
            if cur > usize::MAX - pad_before {
                return Err(StorageError::TooLarge);
            }
            let aligned = cur + pad_before;
            if dlen > usize::MAX - pad_after {
                return Err(StorageError::TooLarge);
            }
            let aligned_size = dlen + pad_after;
            if aligned > usize::MAX - aligned_size {
                return Err(StorageError::TooLarge);
            }
            push_zeros(&mut body, pad_before);
            let mut d = data;
            body.append(&mut d);
            push_zeros(&mut body, pad_after);
            proof {
                assert(pad_before == page_padding(cur as int));
                assert(pad_after == page_padding(dlen as int));
                assert(body@ =~= body_bytes(base as int, ps, sq, c, (k + 1) as nat));
            }
            let info = ListInfo {
                offset: aligned as u64,
                page_count: (aligned_size / PAGE_SIZE) as u16,
                ele_count: postings[k].vector_ids.len() as u16,
                total_bytes: dlen as u32,
                page_offset: 0,
            };
            self.list_infos.push(info);
            proof {
                let kk = k as int;
                assert(posting_start(ps, sq, c, kk) == aligned);
                assert(posting_len(ps, sq, c, kk) == dlen);
                assert(self.list_infos@[kk] == expected_info(ps, sq, c, kk));
            }
            k = k + 1;
        }
        let mut image: Vec<u8> = Vec::new();
        let header = StorageHeader {
            num_postings: n as u64,
            dim: dim as u32,
            enable_compression,
            enable_delta,
            has_quantization: save_quantized,
        };
        encode_header(&mut image, &header);
        let mut j: usize = 0;
        while j < n
            invariant
                j <= n,
                n == self.list_infos@.len(),
                image@ == header_bytes(header) + list_infos_bytes(self.list_infos@.take(j as int)),
            decreases n - j,
        {
            encode_list_info(&mut image, &self.list_infos[j]);
            j = j + 1;
            proof {
                assert(self.list_infos@.take(j as int).drop_last() =~= self.list_infos@.take(j - 1));
                assert(image@ =~= header_bytes(header) + list_infos_bytes(self.list_infos@.take(j as int)));
            }
        }
        proof {
            assert(self.list_infos@.take(n as int) =~= self.list_infos@);
            lemma_list_infos_bytes(self.list_infos@);
        }
        push_zeros(&mut image, 2 * n);
        proof {
            lemma_auto_spec_u64_to_from_le_bytes();
            lemma_auto_spec_u32_to_from_le_bytes();
            assert(header_bytes(header).len() == 15);
        }
        proof {
            lemma_body_regions(base as int, ps, sq, c, n as nat);
        }
        let ghost head = image@;
        let ghost final_body = body@;
        image.append(&mut body);
        proof {
            assert(image@ =~= header_bytes(header) + list_infos_bytes(self.list_infos@) + zeros(2 * n as nat) + body_bytes(
                base as int,
                ps,
                sq,
                c,
                n as nat,
            ));
            assert(head.len() == base);
            assert(image@.subrange(0, HEADER_SIZE as int) =~= header_bytes(header));
            assert(image@.subrange(HEADER_SIZE as int, HEADER_SIZE + 20 * n) =~= list_infos_bytes(self.list_infos@));
            assert forall|k: int| 0 <= k < n implies posting_start(ps, sq, c, k) % (PAGE_SIZE as int) == 0
                && #[trigger] image@.subrange(
                posting_start(ps, sq, c, k),
                posting_start(ps, sq, c, k) + posting_len(ps, sq, c, k),
            ) == stored_posting(ps[k], sq, c) by {
                assert(image@.subrange(
                    posting_start(ps, sq, c, k),
                    posting_start(ps, sq, c, k) + posting_len(ps, sq, c, k),
                ) =~= final_body.subrange(
                    posting_start(ps, sq, c, k) - base,
                    posting_start(ps, sq, c, k) - base + posting_len(ps, sq, c, k),
                ));
            }
            reveal(is_saved_image);
        }
        Ok(image)
    }
}


/// A posting list read back from an index file: its head id (its first vector
/// id, or its position when it is empty), its vector ids, and its decompressed
/// bytes, in which the vector payload starts at `4 * vector_ids.len()`.
pub struct LoadedPosting {
    pub head_id: usize,
    pub vector_ids: Vec<usize>,
    pub buffer: Vec<u8>,
}

/// The integer part of an index file: header, list infos, posting lists, and
/// the largest vector id met (0 when there is none).
pub struct LoadedIndex {
    pub header: StorageHeader,
    pub list_infos: Vec<ListInfo>,
    pub postings: Vec<LoadedPosting>,
    pub max_vector_id: usize,
}

/// The `n` little-endian `u32`s at the start of `buf`, as ids.
pub open spec fn ids_from_bytes(buf: Seq<u8>, n: nat) -> Seq<usize> {
    Seq::new(n, |i: int| spec_u32_from_le_bytes(buf.subrange(4 * i, 4 * i + 4)) as usize)
}

/// Number of posting lists announced by the file's header.
pub open spec fn file_posting_count(file: Seq<u8>) -> nat {
    (header_from_bytes(file).num_postings as usize) as nat
}

/// List infos of the file's table.
pub open spec fn file_list_infos(file: Seq<u8>) -> Seq<ListInfo> {
    list_infos_from_bytes(file.skip(HEADER_SIZE as int), file_posting_count(file))
}

/// The stored bytes of the posting list described by `info` lie inside the file.
pub open spec fn region_in_file(file: Seq<u8>, info: ListInfo) -> bool {
    info.offset + info.total_bytes <= file.len()
}

/// Stored bytes of the posting list described by `info`.
pub open spec fn file_region(file: Seq<u8>, info: ListInfo) -> Seq<u8> {
    file.subrange(info.offset as int, info.offset + info.total_bytes)
}

/// Decompressed bytes of a stored posting list, or `None` when zstd rejects them.
pub open spec fn decoded_bytes(stored: Seq<u8>, compression: bool) -> Option<Seq<u8>> {
    if compression {
        zstd_unframe(stored)
    } else {
        Some(stored)
    }
}

/// Posting list `k` of the file can be read: it lies in the file, decodes, and
/// holds at least its announced number of ids.
pub open spec fn posting_loadable(file: Seq<u8>, k: int) -> bool {
    let info = file_list_infos(file)[k];
    let c = header_from_bytes(file).enable_compression;
    &&& region_in_file(file, info)
    &&& decoded_bytes(file_region(file, info), c) is Some
    &&& decoded_bytes(file_region(file, info), c)->Some_0.len() >= 4 * info.ele_count
}

/// The whole file can be read.
pub open spec fn file_loadable(file: Seq<u8>) -> bool {
    &&& file.len() >= HEADER_SIZE
    &&& file.len() >= HEADER_SIZE + 20 * file_posting_count(file)
    &&& forall|k: int| 0 <= k < file_posting_count(file) ==> #[trigger] posting_loadable(file, k)
}

/// Copies `data` out of a file, decompressing it when `compressed`.
pub fn decode_stored(data: &[u8], compressed: bool) -> (r: Result<Vec<u8>, StorageError>)
    ensures
        r matches Ok(v) ==> decoded_bytes(data@, compressed) == Some(v@),
        r is Err ==> decoded_bytes(data@, compressed) is None,
        r matches Err(e) ==> e is Compression,
{
    if compressed {
        match zstd_decode_all(data) {
            Ok(v) => Ok(v),
            Err(e) => Err(StorageError::Compression(e)),
        }
    } else {
        Ok(vstd::slice::slice_to_vec(data))
    }
}

/// Reads the first `count` little-endian `u32`s of `buffer` as vector ids.
pub fn parse_vector_ids(buffer: &[u8], count: usize) -> (ids: Vec<usize>)
    requires
        4 * count <= buffer@.len(),
    ensures
        ids@ == ids_from_bytes(buffer@, count as nat),
{
    let mut ids: Vec<usize> = Vec::new();
    let mut i: usize = 0;
    while i < count
        invariant
            i <= count,
            4 * count <= buffer@.len(),
            buffer@.len() == buffer.len(),
            ids@ == ids_from_bytes(buffer@, count as nat).take(i as int),
        decreases count - i,
    {
        let id = read_u32_le(buffer, 4 * i) as usize;
        ids.push(id);
        i = i + 1;
        proof {
            assert(ids@ =~= ids_from_bytes(buffer@, count as nat).take(i as int));
        }
    }
    proof {
        assert(ids@ =~= ids_from_bytes(buffer@, count as nat));
    }
    ids
}

/// Reads the integer part of an index file from its bytes: the header, the
/// list infos, and for each posting list its decompressed bytes and vector ids.
/// It succeeds exactly when the file is loadable; a short file or a posting
/// list with fewer bytes than its ids need gives `Truncated`, and a zstd
/// failure gives `Compression`.
#[verifier::rlimit(60)]
pub fn load(file: &[u8]) -> (r: Result<LoadedIndex, StorageError>)
    ensures
        r is Ok <==> file_loadable(file@),
        r matches Err(e) ==> (e is Truncated || e is Compression),
        r matches Ok(l) ==> {
            let infos = file_list_infos(file@);
            let c = header_from_bytes(file@).enable_compression;
            &&& l.header == header_from_bytes(file@)
            &&& l.list_infos@ == infos
            &&& l.postings@.len() == infos.len()
            &&& forall|k: int|
                0 <= k < infos.len() ==> {
                    let p = #[trigger] l.postings@[k];
                    &&& decoded_bytes(file_region(file@, infos[k]), c) == Some(p.buffer@)
                    &&& p.vector_ids@ == ids_from_bytes(p.buffer@, infos[k].ele_count as nat)
                    &&& p.head_id == (if infos[k].ele_count > 0 { p.vector_ids@[0] } else { k as usize })
                }
            &&& forall|k: int, i: int|
                0 <= k < infos.len() && 0 <= i < l.postings@[k].vector_ids@.len() ==> #[trigger] l.postings@[k].vector_ids@[i]
                    <= l.max_vector_id
            &&& (l.max_vector_id == 0 || exists|k: int, i: int|
                0 <= k < infos.len() && 0 <= i < l.postings@[k].vector_ids@.len() && #[trigger] l.postings@[k].vector_ids@[i]
                    == l.max_vector_id)
        },
{
    let header = match parse_header(file) {
        Some(h) => h,
        None => {
            return Err(StorageError::Truncated);
        },
    };
    let n = (#[verifier::truncate] (header.num_postings as usize));
    let table = vstd::slice::slice_subrange(file, HEADER_SIZE, file.len());
    proof {
        assert(table@ =~= file@.skip(HEADER_SIZE as int));
    }
    let list_infos = match parse_list_infos(table, n) {
        Some(v) => v,
        None => {
            return Err(StorageError::Truncated);
        },
    };
    let ghost infos = file_list_infos(file@);
    let c = header.enable_compression;
    let mut postings: Vec<LoadedPosting> = Vec::new();
    let mut max_id: usize = 0;
    let mut k: usize = 0;
    while k < n
        invariant
            k <= n,
            n == file_posting_count(file@),
            header == header_from_bytes(file@),
            c == header.enable_compression,
            list_infos@ == infos,
            infos == file_list_infos(file@),
            infos.len() == n,
            file@.len() >= HEADER_SIZE + 20 * n,
            file@.len() == file.len(),
            postings@.len() == k,
            forall|j: int| 0 <= j < k ==> #[trigger] posting_loadable(file@, j),
            forall|j: int|
                0 <= j < k ==> {
                    let p = #[trigger] postings@[j];
                    &&& decoded_bytes(file_region(file@, infos[j]), c) == Some(p.buffer@)
                    &&& p.vector_ids@ == ids_from_bytes(p.buffer@, infos[j].ele_count as nat)
                    &&& p.head_id == (if infos[j].ele_count > 0 { p.vector_ids@[0] } else { j as usize })
                },
            forall|j: int, i: int|
                0 <= j < k && 0 <= i < postings@[j].vector_ids@.len() ==> #[trigger] postings@[j].vector_ids@[i] <= max_id,
            max_id == 0 || exists|j: int, i: int|
                0 <= j < k && 0 <= i < postings@[j].vector_ids@.len() && #[trigger] postings@[j].vector_ids@[i] == max_id,
        decreases n - k,
    {
        let info = list_infos[k];
        if info.offset > file.len() as u64 || (info.total_bytes as u64) > (file.len() as u64) - info.offset {
            proof {
                assert(!posting_loadable(file@, k as int));
            }
            return Err(StorageError::Truncated);
        }
        let start = info.offset as usize;
        let end = start + info.total_bytes as usize;
        let region = vstd::slice::slice_subrange(file, start, end);
        let buffer = match decode_stored(region, c) {
            Ok(b) => b,
            Err(e) => {
                proof {
                    assert(region@ == file_region(file@, infos[k as int]));
                    assert(!posting_loadable(file@, k as int));
                }
                return Err(e);
            },
        };
        proof {
            assert(region@ == file_region(file@, infos[k as int]));
        }
        let count = info.ele_count as usize;
        if count > buffer.len() / 4 {
            proof {
                assert(!posting_loadable(file@, k as int));
            }
            return Err(StorageError::Truncated);
        }
        let vector_ids = parse_vector_ids(buffer.as_slice(), count);
        let head_id = if count > 0 { vector_ids[0] } else { k };
        let ghost old_max = max_id;
        let ghost prev = postings@;
        let mut i: usize = 0;
        while i < count
            invariant
                i <= count,
                count == vector_ids@.len(),
                old_max <= max_id,
                forall|t: int| 0 <= t < i ==> #[trigger] vector_ids@[t] <= max_id,
                max_id == old_max || exists|t: int| 0 <= t < i && #[trigger] vector_ids@[t] == max_id,
            decreases count - i,
        {
            if vector_ids[i] > max_id {
                max_id = vector_ids[i];
            }
            i = i + 1;
        }
        postings.push(LoadedPosting { head_id, vector_ids, buffer });
        proof {
            let kk = k as int;
            assert(posting_loadable(file@, kk));
            assert forall|j: int, t: int|
                0 <= j < kk + 1 && 0 <= t < postings@[j].vector_ids@.len() implies #[trigger] postings@[j].vector_ids@[t] <= max_id by {
                if j < kk {
                    assert(postings@[j] == prev[j]);
                }
            }
            if max_id != 0 {
                if max_id == old_max {
                    let (j, t) = choose|j: int, t: int|
                        0 <= j < kk && 0 <= t < prev[j].vector_ids@.len() && #[trigger] prev[j].vector_ids@[t] == old_max;
                    assert(postings@[j] == prev[j]);
                    assert(postings@[j].vector_ids@[t] == max_id);
                } else {
                    let t = choose|t: int| 0 <= t < count && #[trigger] postings@[kk].vector_ids@[t] == max_id;
                    assert(postings@[kk].vector_ids@[t] == max_id);
                }
            }
        }
        k = k + 1;
    }
    let l = LoadedIndex { header, list_infos, postings, max_vector_id: max_id };
    proof {
        assert(l.postings@.len() == infos.len());
        assert(forall|j: int, i: int|
            0 <= j < infos.len() && 0 <= i < l.postings@[j].vector_ids@.len() ==> #[trigger] l.postings@[j].vector_ids@[i]
                <= l.max_vector_id);
        assert(l.max_vector_id == 0 || exists|j: int, i: int|
            0 <= j < infos.len() && 0 <= i < l.postings@[j].vector_ids@.len() && #[trigger] l.postings@[j].vector_ids@[i]
                == l.max_vector_id);
    }
    Ok(l)
}


/// Reading back the little-endian `u32` encoding of ids gives the ids, when each
/// fits in 32 bits, whatever follows them.
pub proof fn lemma_ids_roundtrip(ids: Seq<usize>, rest: Seq<u8>)
    requires
        forall|i: int| 0 <= i < ids.len() ==> #[trigger] ids[i] <= u32::MAX,
    ensures
        ids_from_bytes(u32s_le(ids_as_u32(ids)) + rest, ids.len()) == ids,
        (u32s_le(ids_as_u32(ids)) + rest).len() == 4 * ids.len() + rest.len(),
{
    let w = ids_as_u32(ids);
    lemma_u32s_le(w);
    lemma_auto_spec_u32_to_from_le_bytes();
    let b = u32s_le(w) + rest;
    assert forall|i: int| 0 <= i < ids.len() implies #[trigger] ids_from_bytes(b, ids.len())[i] == ids[i] by {
        assert(b.subrange(4 * i, 4 * i + 4) =~= u32s_le(w).subrange(4 * i, 4 * i + 4));
        assert(w[i] == ids[i] as u32);
    }
    assert(ids_from_bytes(b, ids.len()) =~= ids);
}

/// Posting list `k` of a saved image reads back.
proof fn lemma_saved_posting_reads_back(
    image: Seq<u8>,
    infos: Seq<ListInfo>,
    ps: Seq<PostingPayload>,
    dim: usize,
    c: bool,
    d: bool,
    sq: bool,
    k: int,
)
    requires
        is_saved_image(image, infos, ps, dim, c, d, sq),
        image.len() <= usize::MAX,
        0 <= k < ps.len(),
        ps[k].vector_ids@.len() <= u16::MAX,
        forall|i: int| 0 <= i < ps[k].vector_ids@.len() ==> #[trigger] ps[k].vector_ids@[i] <= u32::MAX,
        stored_posting(ps[k], sq, c).len() <= u32::MAX,
    ensures
        region_in_file(image, infos[k]),
        decoded_bytes(file_region(image, infos[k]), c) == Some(raw_posting(ps[k], sq)),
        ids_from_bytes(raw_posting(ps[k], sq), infos[k].ele_count as nat) == ps[k].vector_ids@,
        raw_posting(ps[k], sq).len() >= 4 * infos[k].ele_count,
{
    reveal(is_saved_image);
    let n = ps.len();
    let start = posting_start(ps, sq, c, k);
    let len = posting_len(ps, sq, c, k);
    lemma_pos_after_monotone(table_end(n), ps, sq, c, k as nat, (k + 1) as nat);
    lemma_pos_after_monotone(table_end(n), ps, sq, c, (k + 1) as nat, n);
    lemma_round_up_page(pos_after(table_end(n), ps, sq, c, k as nat));
    lemma_round_up_page(len);
    assert(infos[k] == expected_info(ps, sq, c, k));
    assert(infos[k].offset == start);
    assert(infos[k].total_bytes == len);
    assert(image.subrange(start, start + len) == stored_posting(ps[k], sq, c));
    assert(file_region(image, infos[k]) == stored_posting(ps[k], sq, c));
    assert(decoded_bytes(stored_posting(ps[k], sq, c), c) == Some(raw_posting(ps[k], sq)));
    lemma_ids_roundtrip(ps[k].vector_ids@, posting_body(ps[k], sq));
    assert(infos[k].ele_count == ps[k].vector_ids@.len());
}

/// Header and table of a saved image read back.
proof fn lemma_saved_header_table(
    image: Seq<u8>,
    infos: Seq<ListInfo>,
    ps: Seq<PostingPayload>,
    dim: usize,
    c: bool,
    d: bool,
    sq: bool,
)
    requires
        ps.len() <= usize::MAX,
        is_saved_image(image, infos, ps, dim, c, d, sq),
    ensures
        image.len() >= HEADER_SIZE + 20 * ps.len(),
        header_from_bytes(image) == (StorageHeader {
            num_postings: ps.len() as u64,
            dim: dim as u32,
            enable_compression: c,
            enable_delta: d,
            has_quantization: sq,
        }),
        file_posting_count(image) == ps.len(),
        file_list_infos(image) == infos,
{
    reveal(is_saved_image);
    let n = ps.len();
    let m = 20 * (n as int);
    let h = StorageHeader { num_postings: n as u64, dim: dim as u32, enable_compression: c, enable_delta: d, has_quantization: sq };
    lemma_pos_after_monotone(table_end(n), ps, sq, c, 0, n);
    assert(image =~= image.subrange(0, HEADER_SIZE as int) + image.skip(HEADER_SIZE as int));
    lemma_header_roundtrip(h, image.skip(HEADER_SIZE as int));
    assert(header_from_bytes(image) == h);
    assert(file_posting_count(image) == n);
    let t = image.skip(HEADER_SIZE as int);
    assert(t =~= t.subrange(0, m) + t.skip(m));
    assert(t.subrange(0, m) =~= image.subrange(HEADER_SIZE as int, HEADER_SIZE + m));
    lemma_list_infos_roundtrip(infos, t.skip(m));
}

/// Law: an index file laid out by `save` reads back. Provided every posting
/// list has fewer than 2^16 ids, each id fits in 32 bits and each stored list
/// is shorter than 4 GiB, the file is loadable; its header and list infos are
/// those written; each posting list decodes to its uncompressed bytes; and the
/// ids read from those bytes are the ids that were saved.
pub proof fn lemma_save_then_load(
    image: Seq<u8>,
    infos: Seq<ListInfo>,
    ps: Seq<PostingPayload>,
    dim: usize,
    c: bool,
    d: bool,
    sq: bool,
)
    requires
        ps.len() <= usize::MAX,
        image.len() <= usize::MAX,
        is_saved_image(image, infos, ps, dim, c, d, sq),
        forall|k: int| 0 <= k < ps.len() ==> #[trigger] ps[k].vector_ids@.len() <= u16::MAX,
        forall|k: int, i: int|
            0 <= k < ps.len() && 0 <= i < ps[k].vector_ids@.len() ==> #[trigger] ps[k].vector_ids@[i] <= u32::MAX,
        forall|k: int| 0 <= k < ps.len() ==> #[trigger] stored_posting(ps[k], sq, c).len() <= u32::MAX,
    ensures
        file_loadable(image),
        header_from_bytes(image) == (StorageHeader {
            num_postings: ps.len() as u64,
            dim: dim as u32,
            enable_compression: c,
            enable_delta: d,
            has_quantization: sq,
        }),
        file_list_infos(image) == infos,
        forall|k: int|
            0 <= k < ps.len() ==> #[trigger] decoded_bytes(file_region(image, infos[k]), c) == Some(
                raw_posting(ps[k], sq),
            ),
        forall|k: int|
            0 <= k < ps.len() ==> #[trigger] ids_from_bytes(raw_posting(ps[k], sq), infos[k].ele_count as nat)
                == ps[k].vector_ids@,
{
    let n = ps.len();
    lemma_saved_header_table(image, infos, ps, dim, c, d, sq);
    assert forall|k: int| 0 <= k < n implies #[trigger] decoded_bytes(file_region(image, infos[k]), c) == Some(
        raw_posting(ps[k], sq),
    ) && ids_from_bytes(raw_posting(ps[k], sq), infos[k].ele_count as nat) == ps[k].vector_ids@
        && posting_loadable(image, k) by {
        lemma_saved_posting_reads_back(image, infos, ps, dim, c, d, sq, k);
    }
    assert forall|k: int| 0 <= k < n implies #[trigger] ids_from_bytes(raw_posting(ps[k], sq), infos[k].ele_count as nat)
        == ps[k].vector_ids@ by {
        lemma_saved_posting_reads_back(image, infos, ps, dim, c, d, sq, k);
    }
}


/// Bytes of the posting list described by `info` inside a page-aligned read
/// that starts at the page holding `info.offset`.
pub open spec fn direct_region(pages: Seq<u8>, info: ListInfo) -> Seq<u8> {
    pages.subrange(info.page_offset as int, info.page_offset + info.total_bytes)
}

impl SPANNStorage {
    /// Where a direct (page-aligned) read of the posting list described by
    /// `info` starts, and how many bytes it reads: the page holding its offset,
    /// and its page count times the page size.
    pub fn direct_read_window(info: &ListInfo) -> (r: (u64, usize))
        requires
            info.page_count * PAGE_SIZE <= usize::MAX,
        ensures
            r.0 == (info.offset / (PAGE_SIZE as u64)) * (PAGE_SIZE as u64),
            r.1 == info.page_count * PAGE_SIZE,
    {
        let page = PAGE_SIZE as u64;
        let q = info.offset / page;
        proof {
            assert(q * page <= info.offset) by (nonlinear_arith)
                requires q == info.offset / page, page > 0;
        }
        (q * page, info.page_count as usize * PAGE_SIZE)
    }

    /// Takes the posting list out of the pages read for it (skipping its page
    /// offset) and decompresses it when compression is on.
    pub fn read_posting_direct(pages: &[u8], info: &ListInfo, enable_compression: bool) -> (r: Result<Vec<u8>, StorageError>)
        requires
            info.page_offset + info.total_bytes <= pages.len(),
        ensures
            r matches Ok(v) ==> decoded_bytes(direct_region(pages@, *info), enable_compression) == Some(v@),
            r is Err ==> decoded_bytes(direct_region(pages@, *info), enable_compression) is None,
    {
        let start = info.page_offset as usize;
        let end = start + info.total_bytes as usize;
        let data = vstd::slice::slice_subrange(pages, start, end);
        decode_stored(data, enable_compression)
    }

    /// A zero-filled buffer of `size` bytes for direct reads.
    pub fn alloc_aligned_buffer(size: usize) -> (b: Vec<u8>)
        ensures
            b@ == zeros(size as nat),
    {
        let mut b: Vec<u8> = Vec::new();
        push_zeros(&mut b, size);
        proof {
            assert(b@ =~= zeros(size as nat));
        }
        b
    }
}

/// Law: a direct read of a saved file gives back its posting lists. When
/// `image` is the file `save` laid out (the file addressable, and list `k`
/// shorter than 4 GiB and than 65536 pages, so that its page count is
/// recorded whole), the direct-read window of list `k` (`direct_read_window`:
/// the page holding its offset, for its recorded number of pages) lies inside
/// the file and covers the list, and the bytes it reads decode to the list's
/// uncompressed bytes.
pub proof fn lemma_direct_read_of_saved(
    image: Seq<u8>,
    infos: Seq<ListInfo>,
    ps: Seq<PostingPayload>,
    dim: usize,
    c: bool,
    d: bool,
    sq: bool,
    k: int,
)
    requires
        image.len() <= usize::MAX,
        is_saved_image(image, infos, ps, dim, c, d, sq),
        0 <= k < ps.len(),
        stored_posting(ps[k], sq, c).len() <= u32::MAX,
        round_up_page(stored_posting(ps[k], sq, c).len() as int) <= 65535 * PAGE_SIZE,
    ensures
        ({
            let info = infos[k];
            let w0 = (info.offset / (PAGE_SIZE as u64)) * (PAGE_SIZE as u64);
            let w1 = info.page_count * PAGE_SIZE;
            &&& w0 + w1 <= image.len()
            &&& info.page_offset + info.total_bytes <= w1
            &&& decoded_bytes(direct_region(image.subrange(w0 as int, w0 + w1), info), c) == Some(raw_posting(ps[k], sq))
        }),
{
    reveal(is_saved_image);
    let n = ps.len();
    let start = posting_start(ps, sq, c, k);
    let len = posting_len(ps, sq, c, k);
    assert(infos[k] == expected_info(ps, sq, c, k));
    lemma_pos_after_monotone(table_end(n), ps, sq, c, k as nat, n);
    lemma_pos_after_monotone(table_end(n), ps, sq, c, (k + 1) as nat, n);
    lemma_round_up_page(pos_after(table_end(n), ps, sq, c, k as nat));
    lemma_round_up_page(len);
    let r = round_up_page(len);
    assert(start + r == pos_after(table_end(n), ps, sq, c, (k + 1) as nat));
    assert(start + r <= image.len());
    assert(infos[k].offset == start);
    assert(infos[k].total_bytes == len);
    assert(start % (PAGE_SIZE as int) == 0);
    let off = infos[k].offset;
    assert((off / (PAGE_SIZE as u64)) * (PAGE_SIZE as u64) == off) by (nonlinear_arith)
        requires
            off % 8192 == 0,
            PAGE_SIZE == 8192,
    ;
    assert((r / 8192) * 8192 == r) by (nonlinear_arith)
        requires
            r % 8192 == 0,
    ;
    assert(r / 8192 <= 65535) by (nonlinear_arith)
        requires
            r <= 65535 * 8192,
            r >= 0,
    ;
    assert(infos[k].page_count == r / (PAGE_SIZE as int));
    assert(infos[k].page_count * PAGE_SIZE == r);
    assert(infos[k].page_offset == 0);
    let pages = image.subrange(start, start + r);
    assert forall|i: int| 0 <= i < len implies #[trigger] direct_region(pages, infos[k])[i] == image.subrange(start, start + len)[i] by {
        assert(direct_region(pages, infos[k])[i] == pages[i]);
    }
    assert(direct_region(pages, infos[k]) =~= image.subrange(start, start + len));
}

/// A posting list of a saved file, read whole pages at a time from its offset,
/// stays inside the file: its offset plus its length rounded up to a page is
/// at most the file's length.
pub proof fn lemma_saved_list_inside(
    image: Seq<u8>,
    infos: Seq<ListInfo>,
    ps: Seq<PostingPayload>,
    dim: usize,
    c: bool,
    d: bool,
    sq: bool,
    k: int,
)
    requires
        image.len() <= usize::MAX,
        is_saved_image(image, infos, ps, dim, c, d, sq),
        0 <= k < ps.len(),
        stored_posting(ps[k], sq, c).len() <= u32::MAX,
    ensures
        infos.len() == ps.len(),
        infos[k].offset + round_up_page(infos[k].total_bytes as int) <= image.len(),
        image.subrange(infos[k].offset as int, infos[k].offset + infos[k].total_bytes) == stored_posting(ps[k], sq, c),
        decoded_bytes(stored_posting(ps[k], sq, c), c) == Some(raw_posting(ps[k], sq)),
{
    reveal(is_saved_image);
    let n = ps.len();
    let start = posting_start(ps, sq, c, k);
    let len = posting_len(ps, sq, c, k);
    assert(infos[k] == expected_info(ps, sq, c, k));
    assert(image.subrange(start, start + len) == stored_posting(ps[k], sq, c));
    assert(decoded_bytes(stored_posting(ps[k], sq, c), c) == Some(raw_posting(ps[k], sq)));
    lemma_pos_after_monotone(table_end(n), ps, sq, c, k as nat, n);
    lemma_pos_after_monotone(table_end(n), ps, sq, c, (k + 1) as nat, n);
    lemma_round_up_page(pos_after(table_end(n), ps, sq, c, k as nat));
    lemma_round_up_page(len);
    assert(start + round_up_page(len) == pos_after(table_end(n), ps, sq, c, (k + 1) as nat));
    assert(infos[k].offset == start);
    assert(infos[k].total_bytes == len);
}

} // verus!
