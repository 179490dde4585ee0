//! Posting lists kept one per file: a 12-byte header (cluster id, number of
//! vectors, length of the quantized data, each a little-endian `u32`), the
//! vector ids as `u32`s, then the quantized data.
use vstd::prelude::*;
use vstd::bytes::*;
use crate::codec::{push_u32_le, read_u32_le, u32s_le, lemma_u32s_le};
use crate::spann::storage::{ids_as_u32, ids_from_bytes, lemma_ids_roundtrip};

verus! {

broadcast use vstd::seq_lib::group_seq_properties;

#[derive(Clone)]
pub struct PostingList {
    pub cluster_id: usize,
    pub vector_ids: Vec<usize>,
    pub quantized_data: Vec<u8>,
}

/// The bytes of the file that holds posting list `p`.
pub open spec fn posting_file_bytes(p: PostingList) -> Seq<u8> {
    spec_u32_to_le_bytes(p.cluster_id as u32) + spec_u32_to_le_bytes(p.vector_ids@.len() as u32)
        + spec_u32_to_le_bytes(p.quantized_data@.len() as u32) + u32s_le(ids_as_u32(p.vector_ids@))
        + p.quantized_data@
}

/// The `u32` stored at `pos` in `b`.
pub open spec fn u32_at(b: Seq<u8>, pos: int) -> u32 {
    spec_u32_from_le_bytes(b.subrange(pos, pos + 4))
}

/// Number of bytes a posting file needs according to its header.
pub open spec fn posting_file_len(b: Seq<u8>) -> int {
    12 + 4 * (u32_at(b, 4) as int) + u32_at(b, 8) as int
}

impl PostingList {
    /// An empty posting list for `cluster_id`.
    pub fn new(cluster_id: usize) -> (p: Self)
        ensures
            p.cluster_id == cluster_id,
            p.vector_ids@ == Seq::<usize>::empty(),
            p.quantized_data@ == Seq::<u8>::empty(),
    {
        PostingList { cluster_id, vector_ids: Vec::new(), quantized_data: Vec::new() }
    }

    /// Appends a vector id and its quantized code.
    pub fn add_vector(&mut self, vector_id: usize, quantized: &[u8])
        ensures
            final(self).cluster_id == old(self).cluster_id,
            final(self).vector_ids@ == old(self).vector_ids@.push(vector_id),
            final(self).quantized_data@ == old(self).quantized_data@ + quantized@,
    {
        self.vector_ids.push(vector_id);
        let mut q = vstd::slice::slice_to_vec(quantized);
        self.quantized_data.append(&mut q);
    }

    pub fn len(&self) -> (n: usize)
        ensures
            n == self.vector_ids@.len(),
    {
        self.vector_ids.len()
    }

    /// The bytes of this posting list's file; each number is truncated to 32 bits.
    pub fn save(&self) -> (b: Vec<u8>)
        ensures
            b@ == posting_file_bytes(*self),
    {
        let mut out: Vec<u8> = Vec::new();
        push_u32_le(&mut out, self.cluster_id as u32);
        push_u32_le(&mut out, self.vector_ids.len() as u32);
        push_u32_le(&mut out, self.quantized_data.len() as u32);
        let ghost head = out@;
        let n = self.vector_ids.len();
        let mut i: usize = 0;
        while i < n
            invariant
                i <= n,
                n == self.vector_ids@.len(),
                out@ == head + u32s_le(ids_as_u32(self.vector_ids@.take(i as int))),
            decreases n - i,
        {
            push_u32_le(&mut out, self.vector_ids[i] as u32);
            i = i + 1;
            proof {
                let t = ids_as_u32(self.vector_ids@.take(i as int));
                assert(t.drop_last() =~= ids_as_u32(self.vector_ids@.take(i - 1)));
            }
        }
        proof {
            assert(self.vector_ids@.take(n as int) =~= self.vector_ids@);
        }
        let mut q = self.quantized_data.clone();
        out.append(&mut q);
        proof {
            assert(out@ =~= posting_file_bytes(*self));
        }
        out
    }

    /// Reads a posting list from the bytes of its file; `None` when the file is
    /// shorter than its header announces. Bytes after the quantized data are ignored.
    pub fn load(bytes: &[u8]) -> (r: Option<Self>)
        ensures
            (bytes@.len() >= 12 && bytes@.len() >= posting_file_len(bytes@)) <==> r is Some,
            r matches Some(p) ==> {
                let count = u32_at(bytes@, 4) as int;
                let dlen = u32_at(bytes@, 8) as int;
                &&& p.cluster_id == u32_at(bytes@, 0) as usize
                &&& p.vector_ids@ == ids_from_bytes(bytes@.skip(12), count as nat)
                &&& p.quantized_data@ == bytes@.subrange(12 + 4 * count, 12 + 4 * count + dlen)
            },
    {
        if bytes.len() < 12 {
            return None;
        }
        let cluster_id = read_u32_le(bytes, 0) as usize;
        let count = read_u32_le(bytes, 4) as usize;
        let dlen = read_u32_le(bytes, 8) as usize;
        let rest = vstd::slice::slice_subrange(bytes, 12, bytes.len());
        proof {
            assert(rest@ =~= bytes@.skip(12));
        }
        if count > rest.len() / 4 {
            return None;
        }
        if dlen > rest.len() - 4 * count {
            return None;
        }
        let vector_ids = crate::spann::storage::parse_vector_ids(rest, count);
        let start = 12 + 4 * count;
        let quantized_data = vstd::slice::slice_to_vec(vstd::slice::slice_subrange(bytes, start, start + dlen));
        Some(PostingList { cluster_id, vector_ids, quantized_data })
    }
}

/// Law: a posting list saved to bytes loads back unchanged, provided its
/// cluster id, its ids, and its sizes fit in 32 bits.
pub proof fn lemma_posting_save_load(p: PostingList)
    requires
        p.cluster_id <= u32::MAX,
        p.vector_ids@.len() <= u32::MAX,
        p.quantized_data@.len() <= u32::MAX,
        forall|i: int| 0 <= i < p.vector_ids@.len() ==> #[trigger] p.vector_ids@[i] <= u32::MAX,
    ensures
        ({
            let b = posting_file_bytes(p);
            &&& b.len() >= 12
            &&& b.len() >= posting_file_len(b)
            &&& u32_at(b, 0) as usize == p.cluster_id
            &&& ids_from_bytes(b.skip(12), u32_at(b, 4) as nat) == p.vector_ids@
            &&& b.subrange(12 + 4 * (u32_at(b, 4) as int), 12 + 4 * (u32_at(b, 4) as int) + u32_at(b, 8) as int)
                == p.quantized_data@
        }),
{
    lemma_auto_spec_u32_to_from_le_bytes();
    let b = posting_file_bytes(p);
    let ids = u32s_le(ids_as_u32(p.vector_ids@));
    lemma_u32s_le(ids_as_u32(p.vector_ids@));
    let n = p.vector_ids@.len() as int;
    assert(b.subrange(0, 4) =~= spec_u32_to_le_bytes(p.cluster_id as u32));
    assert(b.subrange(4, 8) =~= spec_u32_to_le_bytes(n as u32));
    assert(b.subrange(8, 12) =~= spec_u32_to_le_bytes(p.quantized_data@.len() as u32));
    assert(b.skip(12) =~= ids + p.quantized_data@);
    lemma_ids_roundtrip(p.vector_ids@, p.quantized_data@);
    assert(b.subrange(12 + 4 * n, 12 + 4 * n + p.quantized_data@.len() as int) =~= p.quantized_data@);
}

pub struct PostingListManager {
    posting_lists: Vec<PostingList>,
    base_path: String,
}

impl PostingListManager {
    /// Posting lists held in memory.
    pub closed spec fn lists(self) -> Seq<PostingList> {
        self.posting_lists@
    }

    /// Directory of the posting files.
    pub closed spec fn directory(self) -> Seq<char> {
        self.base_path@
    }

    /// A manager with no posting lists for the directory `base_path` (the
    /// caller creates the directory).
    pub fn new(base_path: String) -> (m: Self)
        ensures
            m.lists() == Seq::<PostingList>::empty(),
            m.directory() == base_path@,
    {
        PostingListManager { posting_lists: Vec::new(), base_path }
    }

    /// Directory of the posting files.
    pub fn base_path(&self) -> (p: &String)
        ensures
            p@ == self.directory(),
    {
        &self.base_path
    }

    pub fn add_posting_list(&mut self, posting: PostingList)
        ensures
            final(self).lists() == old(self).lists().push(posting),
            final(self).directory() == old(self).directory(),
    {
        self.posting_lists.push(posting);
    }

    /// The file contents of every posting list with its cluster id, in order;
    /// the caller writes each to `posting_<cluster id>.bin` in the directory.
    pub fn save_all(&self) -> (files: Vec<(usize, Vec<u8>)>)
        ensures
            files@.len() == self.lists().len(),
            forall|i: int|
                0 <= i < files@.len() ==> (#[trigger] files@[i]).0 == self.lists()[i].cluster_id && files@[i].1@
                    == posting_file_bytes(self.lists()[i]),
    {
        let mut files: Vec<(usize, Vec<u8>)> = Vec::new();
        let mut i: usize = 0;
        while i < self.posting_lists.len()
            invariant
                i <= self.posting_lists@.len(),
                files@.len() == i,
                forall|t: int|
                    0 <= t < i ==> (#[trigger] files@[t]).0 == self.posting_lists@[t].cluster_id && files@[t].1@
                        == posting_file_bytes(self.posting_lists@[t]),
            decreases self.posting_lists@.len() - i,
        {
            let p = &self.posting_lists[i];
            files.push((p.cluster_id, p.save()));
            i = i + 1;
        }
        files
    }

    /// The first posting list of `cluster_id`, if any.
    pub fn get_posting(&self, cluster_id: usize) -> (r: Option<&PostingList>)
        ensures
            r matches Some(p) ==> exists|i: int|
                0 <= i < self.lists().len() && self.lists()[i] == *p && p.cluster_id == cluster_id && forall|j: int|
                    0 <= j < i ==> (#[trigger] self.lists()[j]).cluster_id != cluster_id,
            r is None ==> forall|j: int| 0 <= j < self.lists().len() ==> (#[trigger] self.lists()[j]).cluster_id != cluster_id,
    {
        let mut i: usize = 0;
        while i < self.posting_lists.len()
            invariant
                i <= self.posting_lists@.len(),
                forall|j: int| 0 <= j < i ==> (#[trigger] self.posting_lists@[j]).cluster_id != cluster_id,
            decreases self.posting_lists@.len() - i,
        {
            if self.posting_lists[i].cluster_id == cluster_id {
                proof {
                    assert(self.lists()[i as int] == self.posting_lists@[i as int]);
                }
                return Some(&self.posting_lists[i]);
            }
            i = i + 1;
        }
        None
    }
}

} // verus!
