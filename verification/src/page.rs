//! Pagination of the remote evaluation listing: extracting the page
//! number from a query suffix such as `?page=588`.

use vstd::prelude::*;

verus! {

/// Whether a character is an ASCII decimal digit.
pub open spec fn is_digit(c: char) -> bool {
    48 <= c as u32 <= 57
}

/// Whether every character of the text is a decimal digit.
pub open spec fn all_digits(s: Seq<char>) -> bool {
    forall|i: int| 0 <= i < s.len() ==> is_digit(s[i])
}

/// The numeric value of a digit text.
pub open spec fn digits_val(s: Seq<char>) -> int
    recommends
        all_digits(s),
    decreases s.len(),
{
    if s.len() == 0 {
        0
    } else {
        digits_val(s.drop_last()) * 10 + (s.last() as u32 - 48)
    }
}

/// The digit body of an unsigned number text: what follows one optional
/// leading plus sign.
pub open spec fn number_body(s: Seq<char>) -> Seq<char> {
    if s.len() > 0 && s[0] == '+' {
        s.drop_first()
    } else {
        s
    }
}

/// What parsing a text as a 32-bit unsigned number yields: its value
/// when the text is an optional plus sign followed by at least one digit
/// and the value fits; nothing otherwise.
pub open spec fn parse_u32_spec(s: Seq<char>) -> Option<u32> {
    let body = number_body(s);
    if body.len() >= 1 && all_digits(body) && digits_val(body) <= u32::MAX {
        Some(digits_val(body) as u32)
    } else {
        None
    }
}

/// Position of the first `=` in the text; the text's length when it has
/// none.
pub open spec fn first_eq(s: Seq<char>) -> int
    decreases s.len(),
{
    if s.len() == 0 {
        0
    } else if s[0] == '=' {
        0
    } else {
        1 + first_eq(s.drop_first())
    }
}

/// The page number a query suffix carries: the text after its first `=`,
/// read as an unsigned number; nothing when there is no `=` or the tail
/// is not a number.
pub open spec fn parse_page_spec(s: Seq<char>) -> Option<u32> {
    if first_eq(s) < s.len() {
        parse_u32_spec(s.skip(first_eq(s) + 1))
    } else {
        None
    }
}

/// `first_eq` is the position of the first `=`.
proof fn lemma_first_eq_at(s: Seq<char>, i: int)
    requires
        0 <= i <= s.len(),
        forall|j: int| 0 <= j < i ==> s[j] != '=',
        i < s.len() ==> s[i] == '=',
    ensures
        first_eq(s) == i,
    decreases s.len(),
{
    if s.len() == 0 {
    } else if i == 0 {
    } else {
        lemma_first_eq_at(s.drop_first(), i - 1);
    }
}

/// A digit text's value is not negative.
proof fn lemma_digits_val_nonneg(s: Seq<char>)
    requires
        all_digits(s),
    ensures
        digits_val(s) >= 0,
    decreases s.len(),
{
    if s.len() > 0 {
        assert(all_digits(s.drop_last()));
        lemma_digits_val_nonneg(s.drop_last());
    }
}

/// Extending a digit text never lowers its value.
proof fn lemma_digits_val_mono(s: Seq<char>, k: int)
    requires
        all_digits(s),
        0 <= k <= s.len(),
    ensures
        digits_val(s) >= digits_val(s.take(k)),
    decreases s.len() - k,
{
    if k < s.len() {
        lemma_digits_val_mono(s, k + 1);
        assert(s.take(k + 1).drop_last() =~= s.take(k));
        assert(all_digits(s.take(k)));
        lemma_digits_val_nonneg(s.take(k));
        assert(digits_val(s.take(k + 1)) >= digits_val(s.take(k)));
    } else {
        assert(s.take(k) =~= s);
    }
}

/// Extract the page number from a pagination query suffix: whatever
/// stands after the first `=`, when it parses as an unsigned number.
pub fn parse_page(page_suffix: &str) -> (r: Option<u32>)
    ensures
        r == parse_page_spec(page_suffix@),
{
    let ghost s = page_suffix@;
    let n = page_suffix.unicode_len();
    let mut i: usize = 0;
    while i < n && page_suffix.get_char(i) != '='
        invariant
            i <= n,
            n == s.len(),
            s == page_suffix@,
            forall|j: int| 0 <= j < i ==> s[j] != '=',
        decreases n - i,
    {
        i += 1;
    }
    proof {
        lemma_first_eq_at(s, i as int);
    }
    if i == n {
        return None;
    }
    let sb = i + 1;
    let ghost body = s.skip(sb as int);
    if sb == n {
        proof {
            assert(number_body(body).len() == 0);
        }
        return None;
    }
    let db = if page_suffix.get_char(sb) == '+' {
        sb + 1
    } else {
        sb
    };
    let ghost digits = s.skip(db as int);
    proof {
        assert(number_body(body) =~= digits);
    }
    if db == n {
        return None;
    }
    let mut acc: u64 = 0;
    let mut j = db;
    while j < n
        invariant
            db <= j <= n,
            n == s.len(),
            s == page_suffix@,
            db <= n,
            i < n,
            first_eq(s) == i as int,
            number_body(s.skip(i + 1)) == digits,
            digits.len() >= 1,
            digits == s.skip(db as int),
            forall|p: int| 0 <= p < j - db ==> is_digit(digits[p]),
            acc == digits_val(digits.take(j - db)),
            acc <= u32::MAX,
        decreases n - j,
    {
        let c = page_suffix.get_char(j);
        let u = c as u32;
        if u < 48 || u > 57 {
            proof {
                assert(!is_digit(digits[j - db]));
            }
            return None;
        }
        let d = (u - 48) as u64;
        let next = acc * 10 + d;
        proof {
            assert(digits.take(j - db + 1).drop_last() =~= digits.take(j - db));
            assert(digits.take(j - db + 1).last() == digits[j - db]);
        }
        if next > 0xffff_ffff {
            proof {
                if all_digits(digits) {
                    lemma_digits_val_mono(digits, j - db + 1);
                }
            }
            return None;
        }
        acc = next;
        j += 1;
    }
    proof {
        assert(digits.take(n - db) =~= digits);
        assert(all_digits(digits));
    }
    Some(acc as u32)
}

} // verus!
