//! Zstd compression of posting lists, optionally with a trained dictionary.
//! The zstd crate does the compressing; this module fixes what is handed to
//! it and what comes back.
use vstd::prelude::*;

verus! {

#[verifier::external_type_specification]
#[verifier::external_body]
pub struct ExIoError(std::io::Error);

/// The zstd frame that `zstd::encode_all` produces for `data` at `level`, or
/// `None` when it returns an error.
pub uninterp spec fn zstd_frame(data: Seq<u8>, level: i32) -> Option<Seq<u8>>;

/// What `zstd::decode_all` gives back for `data`: the decompressed bytes, or
/// `None` when it rejects the input.
pub uninterp spec fn zstd_unframe(data: Seq<u8>) -> Option<Seq<u8>>;

/// The dictionary that `zstd::dict::from_continuous` trains from the
/// concatenated samples, their sizes and the size limit, or `None` when it fails.
pub uninterp spec fn zstd_trained_dictionary(samples: Seq<u8>, sizes: Seq<usize>, max_size: usize) -> Option<Seq<u8>>;

/// The frame that a `zstd::bulk::Compressor` made with `dict` at `level`
/// produces for `data`, or `None` when making it or compressing fails.
pub uninterp spec fn zstd_dict_frame(data: Seq<u8>, dict: Seq<u8>, level: i32) -> Option<Seq<u8>>;

/// What a `zstd::bulk::Decompressor` made with `dict` gives back for `data`
/// with room for `capacity` bytes, or `None` when making it or decompressing fails.
pub uninterp spec fn zstd_dict_unframe(data: Seq<u8>, dict: Seq<u8>, capacity: usize) -> Option<Seq<u8>>;

/// Calls `zstd::encode_all` on `data`. Claims: the result is the named frame
/// of `data` at `level` (an error exactly when the name is `None`), and
/// decoding that frame with `zstd::decode_all` gives `data` back (zstd is
/// lossless).
#[verifier::external_body]
pub(crate) fn zstd_encode_all(data: &[u8], level: i32) -> (r: Result<Vec<u8>, std::io::Error>)
    ensures
        r matches Ok(v) ==> zstd_frame(data@, level) == Some(v@),
        r is Err ==> zstd_frame(data@, level) is None,
        r matches Ok(v) ==> zstd_unframe(v@) == Some(data@),
{
    zstd::encode_all(data, level)
}

/// Calls `zstd::decode_all` on `data`. Claims: the call succeeds exactly when
/// the named decoding of `data` exists, and then returns it.
#[verifier::external_body]
pub(crate) fn zstd_decode_all(data: &[u8]) -> (r: Result<Vec<u8>, std::io::Error>)
    ensures
        r matches Ok(v) ==> zstd_unframe(data@) == Some(v@),
        r is Err ==> zstd_unframe(data@) is None,
{
    zstd::decode_all(data)
}

/// Calls `zstd::dict::from_continuous`. Claims: on success the result is the
/// named dictionary for these samples, sizes and limit, and on failure that
/// name is `None`.
#[verifier::external_body]
fn zstd_train_from_continuous(samples: &[u8], sizes: &[usize], max_size: usize) -> (r: Result<Vec<u8>, std::io::Error>)
    ensures
        r matches Ok(v) ==> zstd_trained_dictionary(samples@, sizes@, max_size) == Some(v@),
        r is Err ==> zstd_trained_dictionary(samples@, sizes@, max_size) is None,
{
    zstd::dict::from_continuous(samples, sizes, max_size)
}

/// Makes a `zstd::bulk::Compressor` with `Compressor::with_dictionary(level,
/// dict)` and calls its `compress` on `data`. Claims: the result is the named
/// dictionary frame (an error exactly when the name is `None`), and a
/// decompressor made with the same dictionary, given room for at least
/// `data.len()` bytes, gives `data` back (zstd is lossless).
#[verifier::external_body]
fn zstd_compress_with_dict(level: i32, dict: &[u8], data: &[u8]) -> (r: Result<Vec<u8>, std::io::Error>)
    ensures
        r matches Ok(v) ==> zstd_dict_frame(data@, dict@, level) == Some(v@),
        r is Err ==> zstd_dict_frame(data@, dict@, level) is None,
        r matches Ok(v) ==> forall|cap: usize|
            data@.len() <= cap ==> #[trigger] zstd_dict_unframe(v@, dict@, cap) == Some(data@),
{
    match zstd::bulk::Compressor::with_dictionary(level, dict) {
        Ok(mut c) => c.compress(data),
        Err(e) => Err(e),
    }
}

/// Makes a `zstd::bulk::Decompressor` with `Decompressor::with_dictionary(dict)`
/// and calls its `decompress` on `data` with room for `capacity` bytes.
/// Claims: the result is the named dictionary decoding (an error exactly when
/// the name is `None`), and, as its documentation states, at most `capacity`
/// bytes long.
#[verifier::external_body]
fn zstd_decompress_with_dict(dict: &[u8], data: &[u8], capacity: usize) -> (r: Result<Vec<u8>, std::io::Error>)
    ensures
        r matches Ok(v) ==> zstd_dict_unframe(data@, dict@, capacity) == Some(v@),
        r is Err ==> zstd_dict_unframe(data@, dict@, capacity) is None,
        r matches Ok(v) ==> v@.len() <= capacity,
{
    match zstd::bulk::Decompressor::with_dictionary(dict) {
        Ok(mut d) => d.decompress(data, capacity),
        Err(e) => Err(e),
    }
}

/// Largest output that a dictionary decompression may produce.
pub const DICT_DECOMPRESS_CAPACITY: usize = 10485760;

/// Concatenation of the samples.
pub open spec fn concat_samples(samples: Seq<Vec<u8>>) -> Seq<u8>
    decreases samples.len(),
{
    if samples.len() == 0 {
        Seq::empty()
    } else {
        concat_samples(samples.drop_last()) + samples.last()@
    }
}

/// Lengths of the samples.
pub open spec fn sample_sizes(samples: Seq<Vec<u8>>) -> Seq<usize> {
    samples.map_values(|s: Vec<u8>| s@.len() as usize)
}

pub struct ZstdCompressor {
    dict: Option<Vec<u8>>,
    level: i32,
}

impl ZstdCompressor {
    /// Dictionary currently in use, if any.
    pub closed spec fn dictionary(self) -> Option<Seq<u8>> {
        match self.dict {
            Some(d) => Some(d@),
            None => None,
        }
    }

    /// Compression level.
    pub closed spec fn compression_level(self) -> i32 {
        self.level
    }

    /// A compressor at `level` without a dictionary.
    pub fn new(level: i32) -> (c: Self)
        ensures
            c.dictionary() is None,
            c.compression_level() == level,
    {
        ZstdCompressor { dict: None, level }
    }

    /// Trains a dictionary of at most `dict_size` bytes from the samples. With no
    /// samples nothing changes. Otherwise the samples are handed to zstd
    /// concatenated, with their sizes; on success the trained dictionary
    /// replaces the current one, on failure the error is returned and the
    /// compressor is unchanged.
    pub fn train_dict(&mut self, samples: &[Vec<u8>], dict_size: usize) -> (r: Result<(), std::io::Error>)
        requires
            concat_samples(samples@).len() <= usize::MAX,
        ensures
            final(self).compression_level() == old(self).compression_level(),
            samples@.len() == 0 ==> r is Ok && final(self).dictionary() == old(self).dictionary(),
            samples@.len() > 0 ==> (r is Ok <==> zstd_trained_dictionary(
                concat_samples(samples@),
                sample_sizes(samples@),
                dict_size,
            ) is Some),
            samples@.len() > 0 && r is Ok ==> final(self).dictionary() == zstd_trained_dictionary(
                concat_samples(samples@),
                sample_sizes(samples@),
                dict_size,
            ),
            r is Err ==> final(self).dictionary() == old(self).dictionary(),
    {
        if samples.len() == 0 {
            return Ok(());
        }
        let mut buffer: Vec<u8> = Vec::new();
        let mut sizes: Vec<usize> = Vec::new();
        let mut i: usize = 0;
        while i < samples.len()
            invariant
                i <= samples@.len(),
                concat_samples(samples@).len() <= usize::MAX,
                buffer@ == concat_samples(samples@.take(i as int)),
                sizes@ == sample_sizes(samples@.take(i as int)),
            decreases samples@.len() - i,
        {
            proof {
                lemma_concat_prefix_len(samples@, i as int + 1);
                assert(samples@.take(i + 1).drop_last() =~= samples@.take(i as int));
            }
            let mut piece = samples[i].clone();
            sizes.push(piece.len());
            buffer.append(&mut piece);
            i = i + 1;
            proof {
                assert(sizes@ =~= sample_sizes(samples@.take(i as int)));
            }
        }
        proof {
            assert(samples@.take(samples@.len() as int) =~= samples@);
        }
        match zstd_train_from_continuous(buffer.as_slice(), sizes.as_slice(), dict_size) {
            Ok(d) => {
                self.dict = Some(d);
                Ok(())
            },
            Err(e) => Err(e),
        }
    }

    /// Compresses `data`. Without a dictionary this is `zstd::encode_all` at the
    /// compressor's level; with one, a bulk compressor made from the dictionary
    /// and the level compresses `data`. Either way the result is zstd's frame
    /// (an error exactly when zstd fails), and decompressing it with this
    /// compressor's settings gives `data` back (with a dictionary, when `data`
    /// fits in the 10 MiB that `decompress` allows).
    pub fn compress(&self, data: &[u8]) -> (r: Result<Vec<u8>, std::io::Error>)
        ensures
            match self.dictionary() {
                None => {
                    &&& r matches Ok(v) ==> zstd_frame(data@, self.compression_level()) == Some(v@)
                    &&& r is Err <==> zstd_frame(data@, self.compression_level()) is None
                    &&& r matches Ok(v) ==> zstd_unframe(v@) == Some(data@)
                },
                Some(d) => {
                    &&& r matches Ok(v) ==> zstd_dict_frame(data@, d, self.compression_level()) == Some(v@)
                    &&& r is Err <==> zstd_dict_frame(data@, d, self.compression_level()) is None
                    &&& r matches Ok(v) ==> (data@.len() <= DICT_DECOMPRESS_CAPACITY ==> zstd_dict_unframe(
                        v@,
                        d,
                        DICT_DECOMPRESS_CAPACITY,
                    ) == Some(data@))
                },
            },
    {
        match &self.dict {
            Some(dict) => zstd_compress_with_dict(self.level, dict.as_slice(), data),
            None => zstd_encode_all(data, self.level),
        }
    }

    /// Decompresses `data`. Without a dictionary this is `zstd::decode_all`, which
    /// succeeds exactly when `data` is a valid zstd stream; with one, a bulk
    /// decompressor made from the dictionary, with room for 10 MiB, decodes it.
    pub fn decompress(&self, data: &[u8]) -> (r: Result<Vec<u8>, std::io::Error>)
        ensures
            match self.dictionary() {
                None => {
                    &&& r matches Ok(v) ==> zstd_unframe(data@) == Some(v@)
                    &&& r is Err <==> zstd_unframe(data@) is None
                },
                Some(d) => {
                    &&& r matches Ok(v) ==> zstd_dict_unframe(data@, d, DICT_DECOMPRESS_CAPACITY) == Some(v@)
                    &&& r is Err <==> zstd_dict_unframe(data@, d, DICT_DECOMPRESS_CAPACITY) is None
                    &&& r matches Ok(v) ==> v@.len() <= DICT_DECOMPRESS_CAPACITY
                },
            },
    {
        match &self.dict {
            Some(dict) => zstd_decompress_with_dict(dict.as_slice(), data, DICT_DECOMPRESS_CAPACITY),
            None => zstd_decode_all(data),
        }
    }

    /// The dictionary, for saving.
    pub fn get_dict(&self) -> (d: Option<&[u8]>)
        ensures
            match d {
                Some(s) => self.dictionary() == Some(s@),
                None => self.dictionary() is None,
            },
    {
        match &self.dict {
            Some(v) => Some(v.as_slice()),
            None => None,
        }
    }

    /// Installs a dictionary loaded from elsewhere.
    pub fn set_dict(&mut self, dict: Vec<u8>)
        ensures
            final(self).dictionary() == Some(dict@),
            final(self).compression_level() == old(self).compression_level(),
    {
        self.dict = Some(dict);
    }
}

/// The concatenation of a prefix is no longer than the whole concatenation.
proof fn lemma_concat_prefix_len(samples: Seq<Vec<u8>>, n: int)
    requires
        0 <= n <= samples.len(),
    ensures
        concat_samples(samples.take(n)).len() <= concat_samples(samples).len(),
    decreases samples.len(),
{
    if n < samples.len() {
        assert(samples.drop_last().take(n) =~= samples.take(n));
        lemma_concat_prefix_len(samples.drop_last(), n);
    } else {
        assert(samples.take(n) =~= samples);
    }
}

} // verus!
