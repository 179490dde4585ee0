//! Batches of byte items spilled to a temporary file while an index is built.
//! Each item is framed as its length (little-endian `u32`) followed by its
//! bytes. Reading and writing the file is left to the caller: `flush` returns
//! the bytes to append, `load_batch` reads items out of the file's bytes.
use vstd::prelude::*;
use vstd::bytes::*;
use crate::codec::{push_u32_le, read_u32_le};
use vstd::string::StringExecFns;

verus! {

broadcast use vstd::seq_lib::group_seq_properties;

/// Decimal digits of `n`.
pub open spec fn decimal(n: nat) -> Seq<char>
    decreases n,
{
    if n < 10 {
        seq![(('0' as u32) + n) as char]
    } else {
        decimal(n / 10).push((('0' as u32) + n % 10) as char)
    }
}

/// Calls `u32::to_string` (`Display` for `u32`). Claims what its documentation
/// gives: the decimal digits of `n`, without sign or leading zeros.
#[verifier::external_body]
fn decimal_string(n: u32) -> (s: String)
    ensures
        s@ == decimal(n as nat),
{
    n.to_string()
}

/// The temporary file path `<dir>/batch_tmp_<pid>`.
fn batch_tmp_path(dir: &str, pid: u32) -> (p: String)
    ensures
        p@ == dir@ + seq!['/', 'b', 'a', 't', 'c', 'h', '_', 't', 'm', 'p', '_'] + decimal(pid as nat),
{
    let mut p = String::from_str(dir);
    p.append("/batch_tmp_");
    let digits = decimal_string(pid);
    p.append(digits.as_str());
    proof {
        reveal_strlit("/batch_tmp_");
        assert("/batch_tmp_"@ =~= seq!['/', 'b', 'a', 't', 'c', 'h', '_', 't', 'm', 'p', '_']);
    }
    p
}

/// The frame of one item: its length as a little-endian `u32`, then its bytes.
pub open spec fn frame(item: Seq<u8>) -> Seq<u8> {
    spec_u32_to_le_bytes(item.len() as u32) + item
}

/// Frames of `items`, one after the other.
pub open spec fn frames(items: Seq<Seq<u8>>) -> Seq<u8>
    decreases items.len(),
{
    if items.len() == 0 {
        Seq::empty()
    } else {
        frames(items.drop_last()) + frame(items.last())
    }
}

/// Length stored in the frame header at `pos`.
pub open spec fn len_at(data: Seq<u8>, pos: int) -> int {
    spec_u32_from_le_bytes(data.subrange(pos, pos + 4)) as int
}

/// Position reached by skipping `count` frames from `pos`, or `None` when a
/// frame header cannot be read. Skipping past the end of the data is allowed;
/// the position is then the end.
pub open spec fn skip_frames(data: Seq<u8>, pos: int, count: nat) -> Option<int>
    decreases count,
{
    if count == 0 {
        Some(pos)
    } else if pos + 4 > data.len() {
        None
    } else {
        let next = pos + 4 + len_at(data, pos);
        skip_frames(data, if next > data.len() { data.len() as int } else { next }, (count - 1) as nat)
    }
}

/// Up to `count` items read from `pos`: reading stops without error at a
/// missing frame header, and fails when a frame's bytes run past the end.
pub open spec fn read_frames(data: Seq<u8>, pos: int, count: nat) -> Option<Seq<Seq<u8>>>
    decreases count,
{
    if count == 0 || pos + 4 > data.len() {
        Some(Seq::empty())
    } else {
        let l = len_at(data, pos);
        if pos + 4 + l > data.len() {
            None
        } else {
            match read_frames(data, pos + 4 + l, (count - 1) as nat) {
                Some(rest) => Some(seq![data.subrange(pos + 4, pos + 4 + l)] + rest),
                None => None,
            }
        }
    }
}

/// Items `start..end` of a batch file: `None` when the file is malformed.
pub open spec fn batch_items(data: Seq<u8>, start: nat, end: nat) -> Option<Seq<Seq<u8>>> {
    match skip_frames(data, 0, start) {
        Some(p) => read_frames(data, p, if end > start { (end - start) as nat } else { 0 }),
        None => None,
    }
}

/// A batch file ends before an item it should contain.
#[derive(Debug, PartialEq, Eq, Structural)]
pub enum BatchError {
    Truncated,
}

pub struct BatchProcessor {
    tmp_file: String,
    batch_size: usize,
    current_batch: Vec<Vec<u8>>,
    total_items: usize,
}

impl BatchProcessor {
    /// Items waiting for the next flush.
    pub closed spec fn pending(self) -> Seq<Seq<u8>> {
        self.current_batch@.map_values(|v: Vec<u8>| v@)
    }

    /// Number of items added so far.
    pub closed spec fn added(self) -> nat {
        self.total_items as nat
    }

    /// Batch size that triggers a flush.
    pub closed spec fn limit(self) -> usize {
        self.batch_size
    }

    /// Path of the temporary file.
    pub closed spec fn path(self) -> Seq<char> {
        self.tmp_file@
    }

    /// A processor that spills to `<tmp_dir>/batch_tmp_<process_id>` every
    /// `batch_size` items.
    pub fn new(tmp_dir: &str, batch_size: usize, process_id: u32) -> (b: Self)
        ensures
            b.path() == tmp_dir@ + seq!['/', 'b', 'a', 't', 'c', 'h', '_', 't', 'm', 'p', '_'] + decimal(process_id as nat),
            b.limit() == batch_size,
            b.pending() == Seq::<Seq<u8>>::empty(),
            b.added() == 0,
    {
        let tmp_file = batch_tmp_path(tmp_dir, process_id);
        let b = BatchProcessor { tmp_file, batch_size, current_batch: Vec::new(), total_items: 0 };
        proof {
            assert(b.pending() =~= Seq::<Seq<u8>>::empty());
        }
        b
    }

    /// Path of the temporary file.
    pub fn tmp_file(&self) -> (p: &String)
        ensures
            p@ == self.path(),
    {
        &self.tmp_file
    }

    /// Adds an item; returns whether the batch has reached its size and must
    /// be flushed.
    pub fn add(&mut self, item: Vec<u8>) -> (flush_due: bool)
        requires
            old(self).added() < usize::MAX,
        ensures
            final(self).pending() == old(self).pending().push(item@),
            final(self).added() == old(self).added() + 1,
            final(self).limit() == old(self).limit(),
            final(self).path() == old(self).path(),
            flush_due == (final(self).pending().len() >= final(self).limit()),
    {
        let ghost item_view = item@;
        self.current_batch.push(item);
        self.total_items = self.total_items + 1;
        proof {
            assert(self.pending() =~= old(self).pending().push(item_view));
        }
        self.current_batch.len() >= self.batch_size
    }

    /// The bytes to append to the temporary file for a flush: the frames of the
    /// pending items (nothing when none is pending). The items stay pending
    /// until the caller reports with `flushed` that the bytes were written.
    pub fn flush(&self) -> (bytes: Vec<u8>)
        requires
            forall|i: int| 0 <= i < self.pending().len() ==> #[trigger] self.pending()[i].len() <= u32::MAX,
        ensures
            bytes@ == frames(self.pending()),
    {
        let mut out: Vec<u8> = Vec::new();
        let n = self.current_batch.len();
        let mut i: usize = 0;
        while i < n
            invariant
                i <= n,
                n == self.current_batch@.len(),
                forall|j: int| 0 <= j < self.pending().len() ==> #[trigger] self.pending()[j].len() <= u32::MAX,
                out@ == frames(self.pending().take(i as int)),
            decreases n - i,
        {
            let len = self.current_batch[i].len();
            push_u32_le(&mut out, len as u32);
            let mut item = self.current_batch[i].clone();
            proof {
                assert(item@ == self.pending()[i as int]);
            }
            out.append(&mut item);
            i = i + 1;
            proof {
                assert(self.pending().take(i as int).drop_last() =~= self.pending().take(i - 1));
            }
        }
        proof {
            assert(self.pending().take(n as int) =~= self.pending());
        }
        out
    }

    /// Records that the bytes of the last `flush` were written: the batch is
    /// emptied. The count of items added is kept.
    pub fn flushed(&mut self)
        ensures
            final(self).pending() == Seq::<Seq<u8>>::empty(),
            final(self).added() == old(self).added(),
            final(self).limit() == old(self).limit(),
            final(self).path() == old(self).path(),
    {
        self.current_batch.clear();
        proof {
            assert(self.pending() =~= Seq::<Seq<u8>>::empty());
        }
    }

    /// Items `start..end` of the temporary file whose bytes are `file`: `start`
    /// frames are skipped (their headers must be readable), then items are read
    /// until `end` or until no further frame header is present. A frame whose
    /// bytes run past the end gives `Truncated`.
    pub fn load_batch(&self, file: &[u8], start: usize, end: usize) -> (r: Result<Vec<Vec<u8>>, BatchError>)
        ensures
            match batch_items(file@, start as nat, end as nat) {
                Some(items) => r matches Ok(v) && v@.map_values(|x: Vec<u8>| x@) == items,
                None => r is Err,
            },
    {
        let len = file.len();
        let mut pos: usize = 0;
        let mut current: usize = 0;
        while current < start
            invariant
                current <= start,
                len == file@.len(),
                pos <= len,
                skip_frames(file@, 0, start as nat) == skip_frames(file@, pos as int, (start - current) as nat),
            decreases start - current,
        {
            if len < 4 || pos > len - 4 {
                return Err(BatchError::Truncated);
            }
            let l = read_u32_le(file, pos) as usize;
            let after_header = pos + 4;
            pos = if l > len - after_header { len } else { after_header + l };
            current = current + 1;
        }
        let mut result: Vec<Vec<u8>> = Vec::new();
        let count: usize = if end > start { end - start } else { 0 };
        let ghost p0 = pos as int;
        proof {
            assert(skip_frames(file@, pos as int, 0) == Some(pos as int));
            assert(batch_items(file@, start as nat, end as nat) == read_frames(file@, p0, count as nat));
            assert(result@.map_values(|x: Vec<u8>| x@) =~= Seq::<Seq<u8>>::empty());
        }
        let mut k: usize = 0;
        while k < count
            invariant
                k <= count,
                len == file@.len(),
                pos <= len,
                batch_items(file@, start as nat, end as nat) == read_frames(file@, p0, count as nat),
                read_frames(file@, p0, count as nat) matches Some(all) ==> read_frames(file@, pos as int, (count - k) as nat)
                    matches Some(rest) && all == result@.map_values(|x: Vec<u8>| x@) + rest,
                read_frames(file@, p0, count as nat) is None ==> read_frames(file@, pos as int, (count - k) as nat) is None,
            decreases count - k,
        {
            if len < 4 || pos > len - 4 {
                proof {
                    assert(result@.map_values(|x: Vec<u8>| x@) + Seq::<Seq<u8>>::empty() =~= result@.map_values(|x: Vec<u8>| x@));
                    assert(read_frames(file@, pos as int, (count - k) as nat) == Some(Seq::<Seq<u8>>::empty()));
                    assert(read_frames(file@, p0, count as nat) is Some);
                    let all = read_frames(file@, p0, count as nat)->Some_0;
                    assert(all == result@.map_values(|x: Vec<u8>| x@) + Seq::<Seq<u8>>::empty());
                    assert(all =~= result@.map_values(|x: Vec<u8>| x@));
                }
                return Ok(result);
            }
            let l = read_u32_le(file, pos) as usize;
            let body = pos + 4;
            if l > len - body {
                proof {
                    assert(len_at(file@, pos as int) == l);
                    assert(read_frames(file@, pos as int, (count - k) as nat) is None);
                }
                return Err(BatchError::Truncated);
            }
            let item = vstd::slice::slice_to_vec(vstd::slice::slice_subrange(file, body, body + l));
            let ghost before = result@.map_values(|x: Vec<u8>| x@);
            result.push(item);
            proof {
                assert(result@.map_values(|x: Vec<u8>| x@) =~= before.push(file@.subrange(body as int, body + l)));
                if let Some(all) = read_frames(file@, p0, count as nat) {
                    let rest = read_frames(file@, (body + l) as int, (count - k - 1) as nat)->Some_0;
                    assert(all =~= result@.map_values(|x: Vec<u8>| x@) + rest);
                }
            }
            pos = body + l;
            k = k + 1;
        }
        proof {
            assert(read_frames(file@, pos as int, 0) == Some(Seq::<Seq<u8>>::empty()));
            if let Some(all) = read_frames(file@, p0, count as nat) {
                assert(all =~= result@.map_values(|x: Vec<u8>| x@) + Seq::<Seq<u8>>::empty());
            }
        }
        Ok(result)
    }

    pub fn total(&self) -> (n: usize)
        ensures
            n == self.added(),
    {
        self.total_items
    }
}


/// Law: the frames of two lists of items, one after the other, are the frames
/// of the concatenated list; appending each flush to the file therefore
/// leaves the frames of every item flushed, in order.
pub proof fn lemma_frames_append(a: Seq<Seq<u8>>, b: Seq<Seq<u8>>)
    ensures
        frames(a + b) == frames(a) + frames(b),
    decreases b.len(),
{
    if b.len() == 0 {
        assert(a + b =~= a);
    } else {
        lemma_frames_append(a, b.drop_last());
        assert((a + b).drop_last() =~= a + b.drop_last());
        assert((a + b).last() == b.last());
    }
}

/// Position of item `i` in the frames of `items`.
pub open spec fn frame_pos(items: Seq<Seq<u8>>, i: int) -> int {
    frames(items.take(i)).len() as int
}

/// Frame `i` of the frames of `items` holds item `i`.
proof fn lemma_frame_at(items: Seq<Seq<u8>>, i: int)
    requires
        0 <= i < items.len(),
        forall|j: int| 0 <= j < items.len() ==> #[trigger] items[j].len() <= u32::MAX,
    ensures
        frame_pos(items, i) + 4 + items[i].len() == frame_pos(items, i + 1),
        frame_pos(items, i + 1) <= frames(items).len(),
        len_at(frames(items), frame_pos(items, i)) == items[i].len(),
        frames(items).subrange(frame_pos(items, i) + 4, frame_pos(items, i + 1)) == items[i],
{
    lemma_auto_spec_u32_to_from_le_bytes();
    let f = frames(items);
    assert(items =~= items.take(i + 1) + items.skip(i + 1));
    lemma_frames_append(items.take(i + 1), items.skip(i + 1));
    assert(items.take(i + 1).drop_last() =~= items.take(i));
    let p = frame_pos(items, i);
    let a = frames(items.take(i));
    let fr = frame(items[i]);
    assert(frames(items.take(i + 1)) == a + fr);
    assert(f == a + fr + frames(items.skip(i + 1)));
    assert(f.subrange(p, p + 4) =~= spec_u32_to_le_bytes(items[i].len() as u32));
    assert(f.subrange(p + 4, p + 4 + items[i].len()) =~= items[i]);
}

/// Skipping frames from the start of item `i` lands on the start of item `i + c`.
proof fn lemma_skip_frames(items: Seq<Seq<u8>>, i: int, c: nat)
    requires
        0 <= i,
        i + c <= items.len(),
        forall|j: int| 0 <= j < items.len() ==> #[trigger] items[j].len() <= u32::MAX,
    ensures
        skip_frames(frames(items), frame_pos(items, i), c) == Some(frame_pos(items, i + c)),
    decreases c,
{
    if c > 0 {
        lemma_frame_at(items, i);
        lemma_skip_frames(items, i + 1, (c - 1) as nat);
    }
}

/// Reading `c` frames from the start of item `i` gives items `i..i + c`, cut
/// at the end of the list.
proof fn lemma_read_frames(items: Seq<Seq<u8>>, i: int, c: nat)
    requires
        0 <= i <= items.len(),
        forall|j: int| 0 <= j < items.len() ==> #[trigger] items[j].len() <= u32::MAX,
    ensures
        read_frames(frames(items), frame_pos(items, i), c) == Some(
            items.subrange(i, if i + c <= items.len() { i + c } else { items.len() as int }),
        ),
    decreases c,
{
    if i == items.len() {
        assert(items.take(i) =~= items);
    }
    if c > 0 && i < items.len() {
        lemma_frame_at(items, i);
        lemma_read_frames(items, i + 1, (c - 1) as nat);
        let e = if i + c <= items.len() { i + c } else { items.len() as int };
        assert(items.subrange(i, e) =~= seq![items[i]] + items.subrange(i + 1, e));
    } else if c == 0 {
        assert(items.subrange(i, i) =~= Seq::<Seq<u8>>::empty());
    } else {
        assert(items.subrange(i, items.len() as int) =~= Seq::<Seq<u8>>::empty());
    }
}

/// Law: loading items `start..end` from the frames of `items` gives exactly
/// those items (up to the end of the list), when `start` is within the list
/// and every item is shorter than 4 GiB.
pub proof fn lemma_load_batch_of_frames(items: Seq<Seq<u8>>, start: nat, end: nat)
    requires
        start <= items.len(),
        forall|j: int| 0 <= j < items.len() ==> #[trigger] items[j].len() <= u32::MAX,
    ensures
        batch_items(frames(items), start, end) == Some(
            items.subrange(start as int, if start <= end && end <= items.len() { end as int } else if end < start { start as int } else { items.len() as int }),
        ),
{
    assert(items.take(0) =~= Seq::<Seq<u8>>::empty());
    lemma_skip_frames(items, 0, start);
    let c: nat = if end > start { (end - start) as nat } else { 0 };
    lemma_read_frames(items, start as int, c);
}

/// Skipping `a + b` frames is skipping `a` frames, then `b` more.
proof fn lemma_skip_compose(data: Seq<u8>, pos: int, a: nat, b: nat)
    ensures
        skip_frames(data, pos, a + b) == match skip_frames(data, pos, a) {
            Some(q) => skip_frames(data, q, b),
            None => None,
        },
    decreases a,
{
    if a > 0 && pos + 4 <= data.len() {
        let next = pos + 4 + len_at(data, pos);
        let q = if next > data.len() { data.len() as int } else { next };
        lemma_skip_compose(data, q, (a - 1) as nat, b);
        assert((a + b - 1) as nat == ((a - 1) as nat + b) as nat);
    }
}

/// Law: loading from the frames of `items` with `start` past the last item
/// fails, since the header of the frame after the last one cannot be read.
pub proof fn lemma_load_batch_past_end(items: Seq<Seq<u8>>, start: nat, end: nat)
    requires
        start > items.len(),
        forall|j: int| 0 <= j < items.len() ==> #[trigger] items[j].len() <= u32::MAX,
    ensures
        batch_items(frames(items), start, end) is None,
{
    let n = items.len();
    assert(items.take(0) =~= Seq::<Seq<u8>>::empty());
    lemma_skip_frames(items, 0, n);
    assert(items.take(n as int) =~= items);
    lemma_skip_compose(frames(items), 0, n, (start - n) as nat);
    assert(start == n + (start - n) as nat);
    assert(skip_frames(frames(items), frames(items).len() as int, (start - n) as nat) is None);
}

/// Number of `true` entries.
pub open spec fn count_true(s: Seq<bool>) -> nat
    decreases s.len(),
{
    if s.len() == 0 {
        0
    } else {
        count_true(s.drop_last()) + if s.last() { 1nat } else { 0nat }
    }
}

/// Law: a processor made by `new` and then given `m` items, one `add` each,
/// with any `flush`/`flushed` in between (each step adds one to the count or
/// keeps it), counts `m` items.
pub proof fn lemma_total_counts_adds(steps: Seq<BatchProcessor>, is_add: Seq<bool>)
    requires
        steps.len() == is_add.len() + 1,
        steps[0].added() == 0,
        forall|i: int| 0 <= i < is_add.len() ==> #[trigger] steps[i + 1].added() == steps[i].added() + if is_add[i] { 1nat } else { 0nat },
    ensures
        steps.last().added() == count_true(is_add),
    decreases is_add.len(),
{
    if is_add.len() > 0 {
        let k = is_add.len() - 1;
        assert(steps.drop_last()[0] == steps[0]);
        assert forall|i: int| 0 <= i < is_add.drop_last().len() implies #[trigger] steps.drop_last()[i + 1].added()
            == steps.drop_last()[i].added() + if is_add.drop_last()[i] { 1nat } else { 0nat } by {
            assert(steps.drop_last()[i + 1] == steps[i + 1]);
            assert(steps.drop_last()[i] == steps[i]);
            assert(is_add.drop_last()[i] == is_add[i]);
            assert(steps[i + 1].added() == steps[i].added() + if is_add[i] { 1nat } else { 0nat });
        }
        lemma_total_counts_adds(steps.drop_last(), is_add.drop_last());
        assert(steps[k + 1].added() == steps[k].added() + if is_add[k] { 1nat } else { 0nat });
    }
}

} // verus!
