//! The history set: identifiers of commits already evaluated, read from
//! line-oriented text where only the leading run of hex characters of
//! each record is the identifier.

use vstd::prelude::*;
use crate::lines::{record_seq, split_records};
use crate::oid::{
    contains_oid, decode_hex, is_hex_digit, is_hex_digit_exec, parse_err_spec, valid_hex, Oid,
    OidParseError,
};
use vstd::slice::slice_subrange;

verus! {

/// Length of the maximal leading run of hex digit characters.
pub open spec fn hex_run_len(l: Seq<u8>) -> int
    decreases l.len(),
{
    if l.len() == 0 {
        0
    } else if !is_hex_digit(l[0]) {
        0
    } else {
        1 + hex_run_len(l.drop_first())
    }
}

/// The maximal leading run of hex digit characters.
pub open spec fn hex_run(l: Seq<u8>) -> Seq<u8> {
    l.take(hex_run_len(l))
}

/// The run length is the position of the first non-hex character.
proof fn lemma_hex_run_len_at(l: Seq<u8>, i: int)
    requires
        0 <= i <= l.len(),
        forall|j: int| 0 <= j < i ==> is_hex_digit(l[j]),
        i < l.len() ==> !is_hex_digit(l[i]),
    ensures
        hex_run_len(l) == i,
    decreases l.len(),
{
    if l.len() == 0 {
    } else if i == 0 {
    } else {
        assert(is_hex_digit(l[0]));
        lemma_hex_run_len_at(l.drop_first(), i - 1);
    }
}

/// Whether a history record is well formed: its leading hex run is
/// valid hex text (in particular, of even length).
pub open spec fn record_ok(l: Seq<u8>) -> bool {
    valid_hex(hex_run(l))
}

/// The identifier a history record denotes.
pub open spec fn record_oid(l: Seq<u8>) -> Seq<u8> {
    decode_hex(hex_run(l))
}

/// The set of identifiers a history text holds, one per record.
pub open spec fn history_set(s: Seq<u8>) -> Set<Seq<u8>> {
    record_seq(s, 10).map_values(|l: Seq<u8>| record_oid(l)).to_set()
}

/// The identifiers of the records in record order, keeping the first
/// occurrence of each.
pub open spec fn history_seq(recs: Seq<Seq<u8>>) -> Seq<Seq<u8>>
    decreases recs.len(),
{
    if recs.len() == 0 {
        seq![]
    } else {
        let prefix = history_seq(recs.drop_last());
        if prefix.contains(record_oid(recs.last())) {
            prefix
        } else {
            prefix.push(record_oid(recs.last()))
        }
    }
}

/// A history record whose leading hex run failed to parse.
#[derive(Debug)]
pub struct HistoryError {
    /// Index of the offending record.
    pub record: usize,
    /// Why its leading run is not an identifier.
    pub cause: OidParseError,
}

/// Parse the identifier at the head of a history record: the maximal
/// leading run of hex characters is the identifier; whatever follows
/// (such as a timestamp field) is ignored.
pub fn parse_history_line(line: &[u8]) -> (r: Result<Oid, OidParseError>)
    ensures
        r is Ok <==> record_ok(line@),
        r matches Ok(o) ==> o@ == record_oid(line@),
        r matches Err(e) ==> parse_err_spec(hex_run(line@), e),
{
    let n = line.len();
    let mut i: usize = 0;
    while i < n && is_hex_digit_exec(line[i])
        invariant
            i <= n,
            n == line@.len(),
            forall|j: int| 0 <= j < i ==> is_hex_digit(line@[j]),
        decreases n - i,
    {
        i += 1;
    }
    proof {
        lemma_hex_run_len_at(line@, i as int);
    }
    let run = slice_subrange(line, 0, i);
    proof {
        assert(run@ =~= hex_run(line@));
    }
    Oid::parse(run)
}

/// Read the history set from line-oriented text: one identifier per
/// record, duplicates collapsed. Fails on the first record whose leading
/// hex run is not valid hex, naming that record.
pub fn read_history(input: &[u8]) -> (r: Result<Vec<Oid>, HistoryError>)
    ensures
        r is Ok <==> (forall|i: int|
            0 <= i < record_seq(input@, 10).len() ==> record_ok(record_seq(input@, 10)[i])),
        r matches Ok(v) ==> {
            &&& v.deep_view() == history_seq(record_seq(input@, 10))
            &&& v.deep_view().to_set() == history_set(input@)
            &&& v.deep_view().no_duplicates()
        },
        r matches Err(e) ==> {
            let recs = record_seq(input@, 10);
            &&& 0 <= e.record < recs.len()
            &&& !record_ok(recs[e.record as int])
            &&& (forall|j: int| 0 <= j < e.record ==> record_ok(recs[j]))
            &&& parse_err_spec(hex_run(recs[e.record as int]), e.cause)
        },
{
    let lines = split_records(input, 10);
    let ghost recs = record_seq(input@, 10);
    let n = lines.len();
    let mut out: Vec<Oid> = Vec::new();
    let mut k: usize = 0;
    while k < n
        invariant
            k <= n,
            n == lines@.len(),
            lines.deep_view() == recs,
            recs == record_seq(input@, 10),
            forall|j: int| 0 <= j < k ==> record_ok(recs[j]),
            out.deep_view() == history_seq(recs.take(k as int)),
            out.deep_view().to_set() == recs.take(k as int).map_values(
                |l: Seq<u8>| record_oid(l),
            ).to_set(),
            out.deep_view().no_duplicates(),
        decreases n - k,
    {
        let ghost pre = out.deep_view();
        match parse_history_line(lines[k].as_slice()) {
            Ok(o) => {
                proof {
                    assert(lines.deep_view()[k as int] == lines@[k as int]@);
                }
                let ghost ov = o@;
                let had = contains_oid(&out, &o);
                if !had {
                    out.push(o);
                    proof {
                        assert(out.deep_view() =~~= pre.push(ov));
                    }
                }
                proof {
                    let f = |l: Seq<u8>| record_oid(l);
                    assert(recs.take(k + 1).drop_last() =~= recs.take(k as int));
                    assert(recs.take(k + 1).last() == recs[k as int]);
                    assert(ov == f(recs[k as int]));
                    assert(recs.take(k + 1).map_values(f) =~= recs.take(k as int).map_values(
                        f,
                    ).push(f(recs[k as int])));
                    recs.take(k as int).map_values(f).lemma_push_to_set_commute(ov);
                    if had {
                        assert(pre.to_set().insert(ov) =~= pre.to_set());
                    } else {
                        pre.lemma_push_to_set_commute(ov);
                    }
                    assert(out.deep_view().to_set() =~= recs.take(k + 1).map_values(f).to_set());
                }
            },
            Err(cause) => {
                proof {
                    assert(lines.deep_view()[k as int] == lines@[k as int]@);
                }
                return Err(HistoryError { record: k, cause });
            },
        }
        k += 1;
    }
    proof {
        assert(recs.take(n as int) =~= recs);
    }
    Ok(out)
}

} // verus!
