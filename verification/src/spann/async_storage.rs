//! Asynchronous posting-list loading: the reads themselves are done by the
//! caller; this type holds where each posting list lies and turns the bytes
//! read into the posting list's bytes.
use vstd::prelude::*;
use crate::spann::storage::{ListInfo, StorageError, SPANNStorage, decode_stored, decoded_bytes, direct_region};

verus! {

pub struct AsyncStorage {
    path: String,
    list_infos: Vec<ListInfo>,
    enable_compression: bool,
    enable_delta: bool,
}

impl AsyncStorage {
    /// List infos of the index file.
    pub closed spec fn infos(self) -> Seq<ListInfo> {
        self.list_infos@
    }

    /// Path of the index file.
    pub closed spec fn file_path(self) -> Seq<char> {
        self.path@
    }

    /// Whether posting lists are compressed.
    pub closed spec fn compressed(self) -> bool {
        self.enable_compression
    }

    /// Whether vectors are stored as deltas from their head.
    pub closed spec fn delta(self) -> bool {
        self.enable_delta
    }

    pub fn new(path: String, list_infos: Vec<ListInfo>, enable_compression: bool, enable_delta: bool) -> (s: Self)
        ensures
            s.file_path() == path@,
            s.infos() == list_infos@,
            s.compressed() == enable_compression,
            s.delta() == enable_delta,
    {
        AsyncStorage { path, list_infos, enable_compression, enable_delta }
    }

    /// Path of the index file, for the reader.
    pub fn path(&self) -> (p: &String)
        ensures
            p@ == self.file_path(),
    {
        &self.path
    }

    /// Number of posting lists in the file.
    pub fn num_postings(&self) -> (n: usize)
        ensures
            n == self.infos().len(),
    {
        self.list_infos.len()
    }

    /// Where posting list `posting_id` lies in the file.
    pub fn list_info(&self, posting_id: usize) -> (i: ListInfo)
        requires
            posting_id < self.infos().len(),
        ensures
            i == self.infos()[posting_id as int],
    {
        self.list_infos[posting_id]
    }

    /// Turns the `total_bytes` bytes read at a posting list's offset into the
    /// posting list's bytes, decompressing them when compression is on.
    pub fn finish_posting(&self, stored: &[u8]) -> (r: Result<Vec<u8>, StorageError>)
        ensures
            r matches Ok(v) ==> decoded_bytes(stored@, self.compressed()) == Some(v@),
            r is Err ==> decoded_bytes(stored@, self.compressed()) is None,
    {
        decode_stored(stored, self.enable_compression)
    }

    /// Turns the pages read for posting list `posting_id` with direct I/O into
    /// the posting list's bytes.
    pub fn finish_posting_direct(&self, pages: &[u8], posting_id: usize) -> (r: Result<Vec<u8>, StorageError>)
        requires
            posting_id < self.infos().len(),
            self.infos()[posting_id as int].page_offset + self.infos()[posting_id as int].total_bytes <= pages.len(),
        ensures
            r matches Ok(v) ==> decoded_bytes(direct_region(pages@, self.infos()[posting_id as int]), self.compressed())
                == Some(v@),
            r is Err ==> decoded_bytes(direct_region(pages@, self.infos()[posting_id as int]), self.compressed()) is None,
    {
        let info = self.list_infos[posting_id];
        SPANNStorage::read_posting_direct(pages, &info, self.enable_compression)
    }
}

} // verus!
