//! Commit identifiers: immutable byte sequences with a canonical
//! lowercase-hex text form, two hex characters per byte.

use vstd::prelude::*;

verus! {

/// True for the ASCII characters that may appear in hex text.
pub open spec fn is_hex_digit(c: u8) -> bool {
    (48 <= c <= 57) || (97 <= c <= 102) || (65 <= c <= 70)
}

/// Numeric value of a hex digit character.
pub open spec fn hex_digit_value(c: u8) -> u8
    recommends
        is_hex_digit(c),
{
    if 48 <= c <= 57 {
        (c - 48) as u8
    } else if 97 <= c <= 102 {
        (c - 87) as u8
    } else {
        (c - 55) as u8
    }
}

/// How many two-character chunks a hex text has; a lone trailing
/// character of an odd-length text forms a chunk of its own.
pub open spec fn chunk_count(s: Seq<u8>) -> int {
    ((s.len() + 1) / 2) as int
}

/// The chunk at index `i`: two characters, or the lone trailing one.
pub open spec fn chunk_at(s: Seq<u8>, i: int) -> Seq<u8> {
    if 2 * i + 2 <= s.len() {
        s.subrange(2 * i, 2 * i + 2)
    } else {
        s.subrange(2 * i, s.len() as int)
    }
}

/// Whether chunk `i` is a full pair of hex digit characters.
pub open spec fn chunk_ok(s: Seq<u8>, i: int) -> bool {
    &&& 2 * i + 2 <= s.len()
    &&& is_hex_digit(s[2 * i])
    &&& is_hex_digit(s[2 * i + 1])
}

/// A hex text is valid when every chunk is a full, valid pair; an
/// odd-length text is never valid.
pub open spec fn valid_hex(s: Seq<u8>) -> bool {
    forall|i: int| 0 <= i < chunk_count(s) ==> chunk_ok(s, i)
}

/// The byte sequence a valid hex text denotes.
pub open spec fn decode_hex(s: Seq<u8>) -> Seq<u8>
    recommends
        valid_hex(s),
    decreases s.len(),
{
    if s.len() < 2 {
        seq![]
    } else {
        decode_hex(s.drop_last().drop_last()).push(
            (hex_digit_value(s[s.len() - 2]) * 16 + hex_digit_value(s[s.len() - 1])) as u8,
        )
    }
}

/// The lowercase hex character for a value below sixteen.
pub open spec fn hex_char(v: u8) -> u8
    recommends
        v < 16,
{
    if v < 10 {
        (v + 48) as u8
    } else {
        (v + 87) as u8
    }
}

/// Canonical lowercase hex text of a byte sequence.
pub open spec fn encode_hex(b: Seq<u8>) -> Seq<u8>
    decreases b.len(),
{
    if b.len() == 0 {
        seq![]
    } else {
        encode_hex(b.drop_last()) + seq![hex_char(b.last() / 16), hex_char(b.last() % 16)]
    }
}

/// Why hex text failed to parse: the first offending chunk, kept as it
/// stood in the input (a non-hex pair, or the lone trailing character of
/// an odd-length text).
#[derive(Debug)]
pub struct OidParseError {
    pub chunk: Vec<u8>,
}

/// The error `Oid::parse` reports of invalid hex text: it carries the
/// first chunk that is not a valid hex pair.
pub open spec fn parse_err_spec(s: Seq<u8>, e: OidParseError) -> bool {
    exists|i: int|
        {
            &&& 0 <= i < chunk_count(s)
            &&& !chunk_ok(s, i)
            &&& (forall|j: int| 0 <= j < i ==> chunk_ok(s, j))
            &&& e.chunk@ == chunk_at(s, i)
        }
}

/// An immutable identifier decoded from hex text.
#[derive(Debug)]
pub struct Oid {
    bytes: Vec<u8>,
}

impl View for Oid {
    type V = Seq<u8>;

    closed spec fn view(&self) -> Seq<u8> {
        self.bytes@
    }
}

impl DeepView for Oid {
    type V = Seq<u8>;

    open spec fn deep_view(&self) -> Seq<u8> {
        self@
    }
}

impl Clone for Oid {
    fn clone(&self) -> (r: Oid)
        ensures
            r@ == self@,
    {
        Oid { bytes: copy_bytes(self.bytes.as_slice()) }
    }
}

impl PartialEq for Oid {
    fn eq(&self, other: &Oid) -> (r: bool) {
        bytes_eq(self.bytes.as_slice(), other.bytes.as_slice())
    }
}

impl Eq for Oid {

}

impl vstd::std_specs::cmp::PartialEqSpecImpl for Oid {
    open spec fn obeys_eq_spec() -> bool {
        true
    }

    open spec fn eq_spec(&self, other: &Oid) -> bool {
        self@ == other@
    }
}

/// Whether two byte slices hold the same bytes.
pub fn bytes_eq(a: &[u8], b: &[u8]) -> (r: bool)
    ensures
        r == (a@ == b@),
{
    if a.len() != b.len() {
        proof {
            assert(a@.len() != b@.len());
        }
        return false;
    }
    let n = a.len();
    let mut i: usize = 0;
    while i < n
        invariant
            i <= n,
            n == a@.len() == b@.len(),
            forall|j: int| 0 <= j < i ==> a@[j] == b@[j],
        decreases n - i,
    {
        if a[i] != b[i] {
            return false;
        }
        i += 1;
    }
    proof {
        assert(a@ =~= b@);
    }
    true
}

/// A fresh vector holding the same bytes as the slice.
pub fn copy_bytes(a: &[u8]) -> (r: Vec<u8>)
    ensures
        r@ == a@,
{
    let mut out: Vec<u8> = Vec::new();
    let n = a.len();
    let mut i: usize = 0;
    while i < n
        invariant
            i <= n,
            n == a@.len(),
            out@ == a@.take(i as int),
        decreases n - i,
    {
        out.push(a[i]);
        proof {
            assert(a@.take(i + 1) =~= a@.take(i as int).push(a@[i as int]));
        }
        i += 1;
    }
    proof {
        assert(a@.take(n as int) =~= a@);
    }
    out
}

/// Whether a byte is a hex digit character.
pub fn is_hex_digit_exec(c: u8) -> (r: bool)
    ensures
        r == is_hex_digit(c),
{
    (48 <= c && c <= 57) || (97 <= c && c <= 102) || (65 <= c && c <= 70)
}

/// Whether some identifier in the vector holds the given bytes.
pub fn contains_oid(v: &Vec<Oid>, o: &Oid) -> (r: bool)
    ensures
        r == v.deep_view().contains(o@),
{
    let n = v.len();
    let mut i: usize = 0;
    while i < n
        invariant
            i <= n,
            n == v@.len(),
            forall|j: int| 0 <= j < i ==> v.deep_view()[j] != o@,
        decreases n - i,
    {
        if &v[i] == o {
            proof {
                assert(v.deep_view()[i as int] == o@);
            }
            return true;
        }
        i += 1;
    }
    false
}

/// The value of a hex digit character, or `None` for any other byte.
fn hex_val(c: u8) -> (r: Option<u8>)
    ensures
        r is Some <==> is_hex_digit(c),
        r matches Some(v) ==> v == hex_digit_value(c),
{
    if 48 <= c && c <= 57 {
        Some(c - 48)
    } else if 97 <= c && c <= 102 {
        Some(c - 87)
    } else if 65 <= c && c <= 70 {
        Some(c - 55)
    } else {
        None
    }
}

/// The lowercase hex character of a value below sixteen.
fn hex_char_exec(v: u8) -> (r: u8)
    requires
        v < 16,
    ensures
        r == hex_char(v),
{
    if v < 10 {
        v + 48
    } else {
        v + 87
    }
}

impl Oid {
    /// Parse hex text, two characters per byte. Succeeds exactly on
    /// valid hex text and decodes the full value; fails on odd-length
    /// text or a non-hex pair, reporting the first offending chunk.
    pub fn parse(bytes: &[u8]) -> (r: Result<Oid, OidParseError>)
        ensures
            r is Ok <==> valid_hex(bytes@),
            r matches Ok(o) ==> o@ == decode_hex(bytes@),
            r matches Err(e) ==> parse_err_spec(bytes@, e),
    {
        let n = bytes.len();
        let mut out: Vec<u8> = Vec::new();
        let mut idx: usize = 0;
        while idx < n && idx + 1 < n
            invariant
                idx % 2 == 0,
                idx <= n,
                n == bytes@.len(),
                forall|j: int| 0 <= j < idx / 2 ==> chunk_ok(bytes@, j),
                out@ == decode_hex(bytes@.take(idx as int)),
            decreases n - idx,
        {
            let hi = bytes[idx];
            let lo = bytes[idx + 1];
            match (hex_val(hi), hex_val(lo)) {
                (Some(h), Some(l)) => {
                    out.push(h * 16 + l);
                    proof {
                        let s = bytes@;
                        let t = s.take(idx + 2);
                        assert(t.drop_last().drop_last() =~= s.take(idx as int));
                        assert(t[t.len() - 2] == s[idx as int]);
                        assert(t[t.len() - 1] == s[idx + 1]);
                        assert(chunk_ok(s, idx as int / 2)) by {
                            assert(2 * (idx as int / 2) == idx as int);
                        }
                    }
                },
                _ => {
                    let chunk = vec![hi, lo];
                    proof {
                        let s = bytes@;
                        let i = idx as int / 2;
                        assert(2 * i == idx as int);
                        assert(!chunk_ok(s, i));
                        assert(chunk@ =~= chunk_at(s, i));
                        assert(0 <= i < chunk_count(s));
                    }
                    return Err(OidParseError { chunk });
                },
            }
            idx += 2;
        }
        if idx < n {
            let chunk = vec![bytes[idx]];
            proof {
                let s = bytes@;
                let i = idx as int / 2;
                assert(2 * i == idx as int);
                assert(idx + 1 == n);
                assert(!chunk_ok(s, i));
                assert(chunk@ =~= chunk_at(s, i));
                assert(0 <= i < chunk_count(s));
            }
            return Err(OidParseError { chunk });
        }
        proof {
            let s = bytes@;
            assert(idx == n);
            assert(valid_hex(s)) by {
                assert(forall|i: int| 0 <= i < chunk_count(s) ==> chunk_ok(s, i)) by {
                    assert(chunk_count(s) == n as int / 2);
                }
            }
            assert(s.take(n as int) =~= s);
        }
        Ok(Oid { bytes: out })
    }

    /// Canonical text form: lowercase hex, two characters per byte.
    pub fn to_hex(&self) -> (r: Vec<u8>)
        ensures
            r@ == encode_hex(self@),
    {
        let n = self.bytes.len();
        let mut out: Vec<u8> = Vec::new();
        let mut i: usize = 0;
        while i < n
            invariant
                i <= n,
                n == self@.len(),
                out@ == encode_hex(self@.take(i as int)),
            decreases n - i,
        {
            let b = self.bytes[i];
            out.push(hex_char_exec(b / 16));
            out.push(hex_char_exec(b % 16));
            proof {
                let s = self@;
                let t = s.take(i + 1);
                assert(t.drop_last() =~= s.take(i as int));
                assert(t.last() == s[i as int]);
                assert(out@ =~= encode_hex(s.take(i as int))
                    + seq![hex_char(s[i as int] / 16), hex_char(s[i as int] % 16)]);
            }
            i += 1;
        }
        proof {
            assert(self@.take(n as int) =~= self@);
        }
        out
    }
}

/// The length of a canonical hex text: two characters per byte.
pub proof fn lemma_encode_hex_len(b: Seq<u8>)
    ensures
        encode_hex(b).len() == 2 * b.len(),
    decreases b.len(),
{
    if b.len() > 0 {
        lemma_encode_hex_len(b.drop_last());
    }
}

/// Round trip: the canonical hex text of any byte sequence is valid hex
/// and parses back to that same sequence.
pub proof fn lemma_hex_round_trip(b: Seq<u8>)
    ensures
        valid_hex(encode_hex(b)),
        decode_hex(encode_hex(b)) == b,
    decreases b.len(),
{
    lemma_encode_hex_len(b);
    if b.len() == 0 {
        assert(decode_hex(encode_hex(b)) =~= b);
    } else {
        lemma_hex_round_trip(b.drop_last());
        lemma_encode_hex_len(b.drop_last());
        let e = encode_hex(b);
        let ep = encode_hex(b.drop_last());
        let hi = hex_char(b.last() / 16);
        let lo = hex_char(b.last() % 16);
        assert(e == ep + seq![hi, lo]);
        assert(valid_hex(e)) by {
            assert forall|i: int| 0 <= i < chunk_count(e) implies chunk_ok(e, i) by {
                if 2 * i + 2 <= ep.len() {
                    assert(chunk_ok(ep, i));
                    assert(e[2 * i] == ep[2 * i]);
                    assert(e[2 * i + 1] == ep[2 * i + 1]);
                } else {
                    assert(e[2 * i] == hi);
                    assert(e[2 * i + 1] == lo);
                }
            }
        }
        assert(decode_hex(e) == b) by {
            assert(e.drop_last().drop_last() =~= ep);
            assert(e[e.len() - 2] == hi && e[e.len() - 1] == lo);
            assert(hex_digit_value(hi) == b.last() / 16);
            assert(hex_digit_value(lo) == b.last() % 16);
            assert(b.last() / 16 * 16 + b.last() % 16 == b.last()) by {
                vstd::arithmetic::div_mod::lemma_fundamental_div_mod(b.last() as int, 16);
            }
            assert(decode_hex(e) == decode_hex(ep).push(b.last()));
            assert(decode_hex(ep).push(b.last()) =~= b);
        }
    }
}

} // verus!
