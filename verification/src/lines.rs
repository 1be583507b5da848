//! Splitting byte text into fields and line records.

use vstd::prelude::*;

verus! {

/// Split a byte text at every occurrence of `d`: one segment more than
/// there are delimiters, so empty text yields one empty segment.
pub open spec fn split_spec(s: Seq<u8>, d: u8) -> Seq<Seq<u8>>
    decreases s.len(),
{
    if s.len() == 0 {
        seq![seq![]]
    } else {
        let prev = split_spec(s.drop_last(), d);
        if s.last() == d {
            prev.push(seq![])
        } else {
            prev.update(prev.len() - 1, prev.last().push(s.last()))
        }
    }
}

/// A split has at least one segment.
pub proof fn lemma_split_spec_len(s: Seq<u8>, d: u8)
    ensures
        split_spec(s, d).len() >= 1,
    decreases s.len(),
{
    if s.len() > 0 {
        lemma_split_spec_len(s.drop_last(), d);
    }
}

/// The records of a byte text: the segments between delimiters, except
/// that text ending with the delimiter has no empty final record, and
/// empty text has no records at all.
pub open spec fn record_seq(s: Seq<u8>, d: u8) -> Seq<Seq<u8>> {
    if s.len() == 0 {
        seq![]
    } else if s.last() == d {
        split_spec(s, d).drop_last()
    } else {
        split_spec(s, d)
    }
}

/// Split a byte text at every occurrence of `d`.
pub fn split_all(data: &[u8], d: u8) -> (r: Vec<Vec<u8>>)
    ensures
        r.deep_view() == split_spec(data@, d),
{
    let n = data.len();
    let mut done: Vec<Vec<u8>> = Vec::new();
    let mut cur: Vec<u8> = Vec::new();
    let mut i: usize = 0;
    while i < n
        invariant
            i <= n,
            n == data@.len(),
            done.deep_view().push(cur@) =~~= split_spec(data@.take(i as int), d),
        decreases n - i,
    {
        let b = data[i];
        proof {
            assert(data@.take(i + 1).drop_last() =~~= data@.take(i as int));
            assert(data@.take(i + 1).last() == data@[i as int]);
        }
        if b == d {
            let ghost old_done = done.deep_view();
            let ghost old_cur = cur@;
            done.push(cur);
            cur = Vec::new();
            proof {
                assert(done.deep_view() =~~= old_done.push(old_cur));
                assert(done.deep_view().push(cur@) =~~= split_spec(data@.take(i + 1), d));
            }
        } else {
            let ghost prev = done.deep_view().push(cur@);
            cur.push(b);
            proof {
                assert(done.deep_view().push(cur@) =~~= prev.update(
                    prev.len() - 1,
                    prev.last().push(data@[i as int]),
                ));
            }
        }
        i += 1;
    }
    proof {
        assert(data@.take(n as int) =~~= data@);
    }
    done.push(cur);
    proof {
        assert(done.deep_view() =~~= split_spec(data@, d));
    }
    done
}

/// Split a byte text into its records at `d`.
pub fn split_records(data: &[u8], d: u8) -> (r: Vec<Vec<u8>>)
    ensures
        r.deep_view() == record_seq(data@, d),
{
    if data.len() == 0 {
        let r: Vec<Vec<u8>> = Vec::new();
        proof {
            assert(r.deep_view() =~~= record_seq(data@, d));
        }
        return r;
    }
    let mut r = split_all(data, d);
    if data[data.len() - 1] == d {
        proof {
            lemma_split_spec_len(data@, d);
        }
        let ghost pre = r.deep_view();
        r.pop();
        proof {
            assert(r.deep_view() =~~= pre.drop_last());
        }
    }
    r
}

} // verus!
