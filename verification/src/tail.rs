//! Reading the last record of a cache text without scanning all of it:
//! a backward, chunk-by-chunk search for the final line terminator.

use vstd::prelude::*;
use vstd::slice::{slice_subrange, slice_to_vec};

verus! {

/// The suffix of a byte text after its last newline; the whole text when
/// it has none.
pub open spec fn tail_after_newline(s: Seq<u8>) -> Seq<u8>
    decreases s.len(),
{
    if s.len() == 0 {
        s
    } else if s.last() == 10 {
        seq![]
    } else {
        tail_after_newline(s.drop_last()).push(s.last())
    }
}

/// The text's length with one trailing line terminator ignored.
pub open spec fn content_len(s: Seq<u8>) -> int {
    if s.len() > 0 && s.last() == 10 {
        s.len() - 1
    } else {
        s.len() as int
    }
}

/// The last record of a cache text: what stands after the final newline,
/// one trailing terminator ignored; the whole text when it has a single
/// record.
pub open spec fn last_record(s: Seq<u8>) -> Seq<u8> {
    tail_after_newline(s.take(content_len(s)))
}

/// The suffix after position `i` is the tail when `i` holds the last
/// newline (or `i == -1` and there is none).
proof fn lemma_tail_at(c: Seq<u8>, i: int)
    requires
        -1 <= i < c.len() || (i == -1 && c.len() == 0),
        i >= 0 ==> c[i] == 10,
        forall|j: int| i < j < c.len() ==> c[j] != 10,
    ensures
        tail_after_newline(c) == c.subrange(i + 1, c.len() as int),
    decreases c.len(),
{
    if c.len() == 0 {
        assert(tail_after_newline(c) =~= c.subrange(i + 1, c.len() as int));
    } else if i == c.len() - 1 {
        assert(tail_after_newline(c) =~= c.subrange(i + 1, c.len() as int));
    } else {
        assert(c.last() != 10);
        lemma_tail_at(c.drop_last(), i);
        assert(tail_after_newline(c) == tail_after_newline(c.drop_last()).push(c.last()));
        assert(c.drop_last().subrange(i + 1, c.len() - 1).push(c.last()) =~= c.subrange(
            i + 1,
            c.len() as int,
        ));
    }
}

/// Extract the last record of a cache text, searching backward from the
/// end in chunks of `chunk_size` bytes, so that only the final record
/// and a bounded number of chunks are examined. For every chunk size the
/// result is exactly what a scan of the whole text would give.
pub fn last_line(data: &[u8], chunk_size: usize) -> (r: Vec<u8>)
    requires
        chunk_size >= 1,
    ensures
        r@ == last_record(data@),
{
    let n = data.len();
    let m = if n > 0 && data[n - 1] == 10 {
        n - 1
    } else {
        n
    };
    let ghost c = data@.take(m as int);
    proof {
        assert(m == content_len(data@));
    }
    let mut hi: usize = m;
    while hi > 0
        invariant
            hi <= m,
            m <= n,
            n == data@.len(),
            c == data@.take(m as int),
            m == content_len(data@),
            chunk_size >= 1,
            forall|j: int| hi <= j < m ==> c[j] != 10,
        decreases hi,
    {
        let lo = if hi >= chunk_size {
            hi - chunk_size
        } else {
            0
        };
        let mut j = hi;
        while j > lo
            invariant
                lo <= j <= hi <= m <= n,
                n == data@.len(),
                c == data@.take(m as int),
                m == content_len(data@),
                forall|p: int| j <= p < m ==> c[p] != 10,
            decreases j,
        {
            if data[j - 1] == 10 {
                proof {
                    lemma_tail_at(c, j - 1);
                }
                let rec = slice_subrange(data, j, m);
                proof {
                    assert(rec@ =~= c.subrange(j as int, m as int));
                }
                return slice_to_vec(rec);
            }
            proof {
                assert(c[j - 1] != 10);
            }
            j -= 1;
        }
        hi = lo;
    }
    proof {
        lemma_tail_at(c, -1);
    }
    let rec = slice_subrange(data, 0, m);
    proof {
        assert(rec@ =~= c.subrange(0, m as int));
    }
    slice_to_vec(rec)
}

} // verus!
