//! Layouts of vector files: records that each start with their length
//! (`.fvecs`, `.ivecs`), and matrices that start with their row and column
//! counts. Components are returned as raw 32-bit words; the caller reads them
//! as `f32` or `i32`.
use vstd::prelude::*;
use crate::codec::{read_word, word_at};

verus! {

/// Records stored from byte `pos` of `data`: each is a length `d` then `d`
/// words. Reading stops where fewer than four bytes remain; `None` when a
/// record's words run past the end.
pub open spec fn dim_records(data: Seq<u8>, pos: int) -> Option<Seq<Seq<u32>>>
    decreases data.len() - pos,
{
    if pos < 0 || pos + 4 > data.len() {
        Some(Seq::empty())
    } else {
        let d = word_at(data.skip(pos), 0) as int;
        let end = pos + 4 + 4 * d;
        if end > data.len() {
            None
        } else {
            match dim_records(data, end) {
                Some(rest) => Some(seq![Seq::new(d as nat, |j: int| word_at(data.skip(pos + 4), j))] + rest),
                None => None,
            }
        }
    }
}

/// The rows of a matrix file: word 0 is the row count `n`, word 1 the column
/// count `d`, then `n * d` words row after row.
pub open spec fn matrix_rows(data: Seq<u8>) -> Seq<Seq<u32>> {
    let n = word_at(data, 0) as int;
    let d = word_at(data, 1) as int;
    Seq::new(n as nat, |r: int| Seq::new(d as nat, |c: int| word_at(data, 2 + r * d + c)))
}

/// Whether `data` holds the whole matrix that its counts announce.
pub open spec fn matrix_complete(data: Seq<u8>) -> bool {
    8 <= data.len() && 4 * (2 + word_at(data, 0) * word_at(data, 1)) <= data.len()
}

proof fn lemma_word_shift(data: Seq<u8>, pos: int, j: int)
    requires
        0 <= pos,
        0 <= j,
        pos + 4 * j + 4 <= data.len(),
    ensures
        word_at(data.skip(pos), j) == vstd::bytes::spec_u32_from_le_bytes(data.subrange(pos + 4 * j, pos + 4 * j + 4)),
{
    assert(data.skip(pos).subrange(4 * j, 4 * j + 4) =~= data.subrange(pos + 4 * j, pos + 4 * j + 4));
}

/// Reads every record of a length-prefixed vector file; `None` when the last
/// record is cut short.
pub fn parse_dim_records(data: &[u8]) -> (r: Option<Vec<Vec<u32>>>)
    ensures
        match dim_records(data@, 0) {
            Some(rows) => r matches Some(v) && v@.len() == rows.len() && forall|i: int|
                0 <= i < rows.len() ==> (#[trigger] v@[i])@ == rows[i],
            None => r is None,
        },
{
    let ghost s = data@;
    let len = data.len();
    let mut out: Vec<Vec<u32>> = Vec::new();
    let mut pos: usize = 0;
    while len >= 4 && pos <= len - 4
        invariant
            s == data@,
            len == s.len(),
            pos <= len,
            dim_records(s, 0) == match dim_records(s, pos as int) {
                Some(rest) => Some(Seq::new(out@.len(), |i: int| out@[i]@) + rest),
                None => None::<Seq<Seq<u32>>>,
            },
        decreases len - pos,
    {
        let d = crate::codec::read_u32_le(data, pos) as usize;
        proof {
            assert(data@.subrange(pos as int, pos + 4) =~= s.skip(pos as int).subrange(0, 4));
        }
        if d > (len - pos - 4) / 4 {
            proof {
                assert(pos + 4 + 4 * d > len);
                assert(dim_records(s, pos as int) is None);
            }
            return None;
        }
        let mut row: Vec<u32> = Vec::new();
        let mut j: usize = 0;
        while j < d
            invariant
                s == data@,
                len == s.len(),
                pos + 4 + 4 * d <= len,
                j <= d,
                row@ == Seq::new(j as nat, |t: int| word_at(s.skip(pos + 4), t)),
            decreases d - j,
        {
            let x = crate::codec::read_u32_le(data, pos + 4 + 4 * j);
            proof {
                lemma_word_shift(s, pos + 4, j as int);
            }
            row.push(x);
            assert(row@ =~= Seq::new((j + 1) as nat, |t: int| word_at(s.skip(pos + 4), t)));
            j = j + 1;
        }
        let ghost before = Seq::new(out@.len(), |i: int| out@[i]@);
        out.push(row);
        proof {
            let rec = Seq::new(d as nat, |t: int| word_at(s.skip(pos + 4), t));
            assert(Seq::new(out@.len(), |i: int| out@[i]@) =~= before.push(rec));
            match dim_records(s, pos + 4 + 4 * d) {
                Some(rest) => {
                    assert(before + (seq![rec] + rest) =~= before.push(rec) + rest);
                },
                None => {},
            }
        }
        pos = pos + 4 + 4 * d;
    }
    proof {
        assert(Seq::new(out@.len(), |i: int| out@[i]@) + Seq::<Seq<u32>>::empty() =~= Seq::new(
            out@.len(),
            |i: int| out@[i]@,
        ));
    }
    Some(out)
}

/// Reads the rows of a matrix file; `None` when the file is shorter than its
/// counts announce.
pub fn parse_matrix(data: &[u8]) -> (r: Option<Vec<Vec<u32>>>)
    ensures
        r is Some <==> matrix_complete(data@),
        r matches Some(v) ==> v@.len() == matrix_rows(data@).len() && forall|i: int|
            0 <= i < v@.len() ==> (#[trigger] v@[i])@ == matrix_rows(data@)[i],
{
    let ghost s = data@;
    let total = data.len() / 4;
    if total < 2 {
        return None;
    }
    let n = read_word(data, 0) as usize;
    let d = read_word(data, 1) as usize;
    let room = total - 2;
    if d > 0 && n > room / d {
        proof {
            let lim = room / d;
            assert(4 * (2 + n * d) > s.len()) by (nonlinear_arith)
                requires
                    d > 0,
                    n > lim,
                    lim == room / d,
                    room == total - 2,
                    total == s.len() / 4,
            {
                assert(n * d >= (lim + 1) * d);
                assert((lim + 1) * d > room);
            }
        }
        return None;
    }
    proof {
        if d > 0 {
            let lim = room / d;
            assert(n * d <= room) by (nonlinear_arith)
                requires
                    d > 0,
                    n <= lim,
                    lim == room / d,
            {
                assert(n * d <= lim * d);
                assert(lim * d <= room);
            }
        } else {
            assert(n * d == 0) by (nonlinear_arith)
                requires
                    d == 0,
            ;
        }
    }
    let mut rows: Vec<Vec<u32>> = Vec::new();
    let mut pos: usize = 2;
    let mut r: usize = 0;
    while r < n
        invariant
            s == data@,
            total == s.len() / 4,
            n == word_at(s, 0),
            d == word_at(s, 1),
            n * d <= total - 2,
            total >= 2,
            r <= n,
            pos == 2 + r * d,
            rows@.len() == r,
            forall|i: int| 0 <= i < r ==> (#[trigger] rows@[i])@ == matrix_rows(s)[i],
        decreases n - r,
    {
        assert(pos + d <= total) by (nonlinear_arith)
            requires
                pos == 2 + r * d,
                r < n,
                n * d <= total - 2,
        {
            assert((r + 1) * d <= n * d);
        }
        let mut row: Vec<u32> = Vec::new();
        let mut c: usize = 0;
        while c < d
            invariant
                s == data@,
                total == s.len() / 4,
                pos + d <= total,
                c <= d,
                row@ == Seq::new(c as nat, |t: int| word_at(s, pos + t)),
            decreases d - c,
        {
            row.push(read_word(data, pos + c));
            assert(row@ =~= Seq::new((c + 1) as nat, |t: int| word_at(s, pos + t)));
            c = c + 1;
        }
        assert(row@ =~= matrix_rows(s)[r as int]);
        rows.push(row);
        pos = pos + d;
        assert(pos == 2 + (r + 1) * d) by (nonlinear_arith)
            requires
                pos == 2 + r * d + d,
        ;
        r = r + 1;
    }
    Some(rows)
}

} // verus!
