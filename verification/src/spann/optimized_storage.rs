//! Posting-list loading with direct I/O: reads are rounded up to whole 4 KiB
//! blocks when direct I/O is in use. The reads themselves are done by the caller.
use vstd::prelude::*;
use crate::spann::storage::{ListInfo, StorageError, decode_stored, decoded_bytes};

verus! {

/// Block size that direct reads are rounded up to.
pub const DIRECT_IO_BLOCK: usize = 4096;

/// Bytes a load of `info` reads: its stored length, rounded up to whole blocks
/// under direct I/O.
pub open spec fn read_size_for(info: ListInfo, direct: bool) -> int {
    if direct {
        ((info.total_bytes + 4095) / 4096) * 4096
    } else {
        info.total_bytes as int
    }
}

pub struct OptimizedAsyncStorage {
    path: String,
    list_infos: Vec<ListInfo>,
    enable_compression: bool,
    enable_delta: bool,
    enable_direct_io: bool,
}

impl OptimizedAsyncStorage {
    /// List infos of the index file.
    pub closed spec fn infos(self) -> Seq<ListInfo> {
        self.list_infos@
    }

    /// Path of the index file.
    pub closed spec fn file_path(self) -> Seq<char> {
        self.path@
    }

    /// Whether posting lists are compressed.
    pub closed spec fn compressed(self) -> bool {
        self.enable_compression
    }

    /// Whether vectors are stored as deltas from their head.
    pub closed spec fn delta(self) -> bool {
        self.enable_delta
    }

    /// Whether reads use direct I/O.
    pub closed spec fn direct_io(self) -> bool {
        self.enable_direct_io
    }

    /// Storage for the index file at `path`; direct I/O is used when the
    /// platform supports it.
    pub fn new(
        path: String,
        list_infos: Vec<ListInfo>,
        enable_compression: bool,
        enable_delta: bool,
        direct_io_supported: bool,
    ) -> (s: Self)
        ensures
            s.file_path() == path@,
            s.infos() == list_infos@,
            s.compressed() == enable_compression,
            s.delta() == enable_delta,
            s.direct_io() == direct_io_supported,
    {
        OptimizedAsyncStorage { path, list_infos, enable_compression, enable_delta, enable_direct_io: direct_io_supported }
    }

    /// Path of the index file, for the reader.
    pub fn path(&self) -> (p: &String)
        ensures
            p@ == self.file_path(),
    {
        &self.path
    }

    pub fn is_delta_enabled(&self) -> (b: bool)
        ensures
            b == self.delta(),
    {
        self.enable_delta
    }

    /// Whether reads use direct I/O.
    pub fn is_direct_io(&self) -> (b: bool)
        ensures
            b == self.direct_io(),
    {
        self.enable_direct_io
    }

    /// Where posting list `posting_id` lies in the file.
    pub fn get_list_info(&self, posting_id: usize) -> (i: &ListInfo)
        requires
            posting_id < self.infos().len(),
        ensures
            *i == self.infos()[posting_id as int],
    {
        &self.list_infos[posting_id]
    }

    pub fn num_postings(&self) -> (n: usize)
        ensures
            n == self.infos().len(),
    {
        self.list_infos.len()
    }

    /// Offset and length of the read that loads posting list `posting_id`.
    pub fn read_request(&self, posting_id: usize) -> (r: (u64, usize))
        requires
            posting_id < self.infos().len(),
            read_size_for(self.infos()[posting_id as int], self.direct_io()) <= usize::MAX,
        ensures
            r.0 == self.infos()[posting_id as int].offset,
            r.1 == read_size_for(self.infos()[posting_id as int], self.direct_io()),
    {
        let info = &self.list_infos[posting_id];
        let total = info.total_bytes as usize;
        let size = if self.enable_direct_io {
            let rounded = (info.total_bytes as u64 + 4095) / 4096 * 4096;
            rounded as usize
        } else {
            total
        };
        (info.offset, size)
    }

    /// Turns the bytes read for posting list `posting_id` into its bytes: keeps
    /// the first `total_bytes` and decompresses them when compression is on.
    pub fn finish_posting(&self, read: &[u8], posting_id: usize) -> (r: Result<Vec<u8>, StorageError>)
        requires
            posting_id < self.infos().len(),
            self.infos()[posting_id as int].total_bytes <= read@.len(),
        ensures
            r matches Ok(v) ==> decoded_bytes(
                read@.take(self.infos()[posting_id as int].total_bytes as int),
                self.compressed(),
            ) == Some(v@),
            r is Err ==> decoded_bytes(
                read@.take(self.infos()[posting_id as int].total_bytes as int),
                self.compressed(),
            ) is None,
    {
        let total = self.list_infos[posting_id].total_bytes as usize;
        let data = vstd::slice::slice_subrange(read, 0, total);
        proof {
            assert(data@ =~= read@.take(total as int));
        }
        decode_stored(data, self.enable_compression)
    }

    /// Offset and length of the region each of `posting_ids` occupies, for
    /// read-ahead hints.
    pub fn prefetch_ranges(&self, posting_ids: &[usize]) -> (r: Vec<(u64, u32)>)
        requires
            forall|i: int| 0 <= i < posting_ids@.len() ==> #[trigger] posting_ids@[i] < self.infos().len(),
        ensures
            r@.len() == posting_ids@.len(),
            forall|i: int|
                0 <= i < posting_ids@.len() ==> #[trigger] r@[i] == (
                    self.infos()[posting_ids@[i] as int].offset,
                    self.infos()[posting_ids@[i] as int].total_bytes,
                ),
    {
        let mut r: Vec<(u64, u32)> = Vec::new();
        let mut i: usize = 0;
        while i < posting_ids.len()
            invariant
                i <= posting_ids@.len(),
                r@.len() == i,
                forall|t: int| 0 <= t < posting_ids@.len() ==> #[trigger] posting_ids@[t] < self.infos().len(),
                forall|t: int|
                    0 <= t < i ==> #[trigger] r@[t] == (
                        self.infos()[posting_ids@[t] as int].offset,
                        self.infos()[posting_ids@[t] as int].total_bytes,
                    ),
            decreases posting_ids@.len() - i,
        {
            let info = &self.list_infos[posting_ids[i]];
            r.push((info.offset, info.total_bytes));
            i = i + 1;
        }
        r
    }
}

/// A load reads at least the stored bytes of its posting list.
pub proof fn lemma_read_covers(info: ListInfo, direct: bool)
    ensures
        read_size_for(info, direct) >= info.total_bytes,
{
    if direct {
        let t = info.total_bytes as int;
        assert(((t + 4095) / 4096) * 4096 >= t) by (nonlinear_arith)
            requires
                t >= 0,
        ;
    }
}

/// Law: the two loaders agree. For a file `file`, the posting list that
/// `OptimizedAsyncStorage` decodes from its read (`read_request`: the offset,
/// and the stored length rounded up to whole blocks under direct I/O) is the
/// one that `AsyncStorage` decodes from the stored bytes at that offset, when
/// both hold the same list infos and compression flag and the read lies inside
/// the file.
pub proof fn lemma_loaders_agree(
    o: OptimizedAsyncStorage,
    a: crate::spann::async_storage::AsyncStorage,
    file: Seq<u8>,
    posting_id: int,
)
    requires
        o.infos() == a.infos(),
        o.compressed() == a.compressed(),
        0 <= posting_id < o.infos().len(),
        o.infos()[posting_id].offset + read_size_for(o.infos()[posting_id], o.direct_io()) <= file.len(),
    ensures
        ({
            let info = o.infos()[posting_id];
            let read = file.subrange(info.offset as int, info.offset + read_size_for(info, o.direct_io()));
            let stored = file.subrange(info.offset as int, info.offset + info.total_bytes);
            &&& info.total_bytes <= read.len()
            &&& decoded_bytes(read.take(info.total_bytes as int), o.compressed()) == decoded_bytes(stored, a.compressed())
        }),
{
    let info = o.infos()[posting_id];
    lemma_read_covers(info, o.direct_io());
    let read = file.subrange(info.offset as int, info.offset + read_size_for(info, o.direct_io()));
    assert(read.take(info.total_bytes as int) =~= file.subrange(info.offset as int, info.offset + info.total_bytes));
}

/// Law: on a saved file the two loaders agree and give back the list. When
/// `image` is the file `save` laid out and both storages hold its list infos
/// and compression flag, the read that `OptimizedAsyncStorage` plans for list
/// `k` (rounded up to whole 4 KiB blocks under direct I/O) lies inside the
/// file, and what each loader decodes is the list's uncompressed bytes.
pub proof fn lemma_loaders_agree_on_saved(
    o: OptimizedAsyncStorage,
    a: crate::spann::async_storage::AsyncStorage,
    image: Seq<u8>,
    ps: Seq<crate::spann::storage::PostingPayload>,
    dim: usize,
    d: bool,
    sq: bool,
    k: int,
)
    requires
        image.len() <= usize::MAX,
        crate::spann::storage::is_saved_image(image, o.infos(), ps, dim, o.compressed(), d, sq),
        a.infos() == o.infos(),
        a.compressed() == o.compressed(),
        0 <= k < ps.len(),
        crate::spann::storage::stored_posting(ps[k], sq, o.compressed()).len() <= u32::MAX,
    ensures
        ({
            let info = o.infos()[k];
            let read = image.subrange(info.offset as int, info.offset + read_size_for(info, o.direct_io()));
            let stored = image.subrange(info.offset as int, info.offset + info.total_bytes);
            &&& info.offset + read_size_for(info, o.direct_io()) <= image.len()
            &&& info.total_bytes <= read.len()
            &&& decoded_bytes(read.take(info.total_bytes as int), o.compressed()) == Some(
                crate::spann::storage::raw_posting(ps[k], sq),
            )
            &&& decoded_bytes(stored, a.compressed()) == Some(crate::spann::storage::raw_posting(ps[k], sq))
        }),
{
    crate::spann::storage::lemma_saved_list_inside(image, o.infos(), ps, dim, o.compressed(), d, sq, k);
    let info = o.infos()[k];
    let t = info.total_bytes as int;
    let r = crate::spann::storage::round_up_page(t);
    crate::spann::storage::lemma_round_up_page(t);
    if o.direct_io() {
        let q = r / 4096;
        assert(r == q * 4096) by (nonlinear_arith)
            requires
                r % 8192 == 0,
                q == r / 4096,
        ;
        assert(t + 4095 < (q + 1) * 4096) by (nonlinear_arith)
            requires
                r == q * 4096,
                r >= t,
        ;
        assert((t + 4095) / 4096 <= q) by (nonlinear_arith)
            requires
                t + 4095 < (q + 1) * 4096,
                t >= 0,
                q >= 0,
        ;
        assert(((t + 4095) / 4096) * 4096 <= q * 4096) by (nonlinear_arith)
            requires
                (t + 4095) / 4096 <= q,
                t >= 0,
        ;
    }
    lemma_loaders_agree(o, a, image, k);
}

} // verus!
