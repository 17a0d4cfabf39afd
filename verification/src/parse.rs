//! Parsing of the length-range input string.
//!
//! `"3-5"` and `"5-3"` both denote the range `(3, 5)`; `"4"` denotes
//! `(4, 4)`; anything else — a part that is not a plain decimal number, or
//! more than one separator — parses to nothing and the caller falls back to
//! its default range.

use vstd::prelude::*;
use vstd::string::StrSliceExecFns;
use vstd::arithmetic::div_mod::lemma_fundamental_div_mod;
use vstd::arithmetic::mul::lemma_mul_inequality;

verus! {

/// A decimal digit.
pub open spec fn is_digit(c: char) -> bool {
    '0' <= c && c <= '9'
}

/// The value of a decimal digit.
pub open spec fn digit_val(c: char) -> nat
    recommends
        is_digit(c),
{
    ((c as u32) - ('0' as u32)) as nat
}

/// A non-empty string of decimal digits.
pub open spec fn all_digits(s: Seq<char>) -> bool {
    s.len() > 0 && forall|i: int| 0 <= i < s.len() ==> is_digit(#[trigger] s[i])
}

/// The number a digit string denotes, most significant digit first.
pub open spec fn digits_val(s: Seq<char>) -> nat
    decreases s.len(),
{
    if s.len() == 0 {
        0
    } else {
        digits_val(s.drop_last()) * 10 + digit_val(s.last())
    }
}

/// The string parses as a machine-sized non-negative integer.
pub open spec fn parses_as_usize(s: Seq<char>) -> bool {
    all_digits(s) && digits_val(s) <= usize::MAX
}

/// A prefix never denotes more than the whole string.
pub proof fn lemma_digits_val_take_le(s: Seq<char>, j: int)
    requires
        0 <= j <= s.len(),
    ensures
        digits_val(s.take(j)) <= digits_val(s),
    decreases s.len() - j,
{
    if j == s.len() {
        assert(s.take(j) =~= s);
    } else {
        assert(s.take(j + 1).drop_last() =~= s.take(j));
        lemma_digits_val_take_le(s, j + 1);
    }
}

/// `k` is the position of the first separator in `s`.
pub open spec fn is_first_hyphen(s: Seq<char>, k: int) -> bool {
    &&& 0 <= k < s.len()
    &&& s[k] == '-'
    &&& forall|j: int| 0 <= j < k ==> s[j] != '-'
}

/// A string that contains a separator has a first one.
pub proof fn lemma_first_hyphen_exists(s: Seq<char>)
    requires
        s.contains('-'),
    ensures
        exists|k: int| is_first_hyphen(s, k),
    decreases s.len(),
{
    if s[0] == '-' {
        assert(is_first_hyphen(s, 0));
    } else {
        let i = choose|i: int| 0 <= i < s.len() && s[i] == '-';
        assert(s.skip(1)[i - 1] == '-');
        assert(s.skip(1).contains('-'));
        lemma_first_hyphen_exists(s.skip(1));
        let k = choose|k: int| is_first_hyphen(s.skip(1), k);
        assert(forall|j: int| 0 <= j < k ==> s.skip(1)[j] != '-');
        assert(forall|j: int| 1 <= j < k + 1 ==> s[j] == s.skip(1)[j - 1]);
        assert(is_first_hyphen(s, k + 1));
    }
}

/// The first separator position is unique.
pub proof fn lemma_first_hyphen_unique(s: Seq<char>, k1: int, k2: int)
    requires
        is_first_hyphen(s, k1),
        is_first_hyphen(s, k2),
    ensures
        k1 == k2,
{
}

/// What `parse_len` returns: the range a length-spec string denotes, with
/// the smaller bound first, or nothing when the string does not denote one.
pub open spec fn parse_len_spec(s: Seq<char>) -> Option<(usize, usize)> {
    if s.contains('-') {
        let k = choose|k: int| is_first_hyphen(s, k);
        let a = s.take(k);
        let b = s.skip(k + 1);
        if !b.contains('-') && parses_as_usize(a) && parses_as_usize(b) {
            let va = digits_val(a) as usize;
            let vb = digits_val(b) as usize;
            if va <= vb {
                Some((va, vb))
            } else {
                Some((vb, va))
            }
        } else {
            None
        }
    } else {
        if parses_as_usize(s) {
            Some((digits_val(s) as usize, digits_val(s) as usize))
        } else {
            None
        }
    }
}

/// Parse a non-empty digit string into a number, or nothing when the string
/// is empty, holds a non-digit, or denotes a number too large for `usize`.
pub fn parse_usize(s: &str) -> (r: Option<usize>)
    ensures
        r == (if parses_as_usize(s@) {
            Some(digits_val(s@) as usize)
        } else {
            None::<usize>
        }),
{
    let n = s.unicode_len();
    if n == 0 {
        return None;
    }
    let mut acc: usize = 0;
    let mut i: usize = 0;
    while i < n
        invariant
            i <= n,
            n == s@.len(),
            forall|k: int| 0 <= k < i ==> is_digit(#[trigger] s@[k]),
            acc == digits_val(s@.take(i as int)),
        decreases n - i,
    {
        let c = s.get_char(i);
        if c < '0' || c > '9' {
            return None;
        }
        let d: usize = ((c as u8) - 48) as usize;
        proof {
            assert(d == digit_val(c));
            assert(s@.take(i + 1).drop_last() =~= s@.take(i as int));
            assert(s@.take(i + 1).last() == s@[i as int]);
        }
        let q: usize = (usize::MAX - d) / 10;
        proof {
            lemma_fundamental_div_mod((usize::MAX - d) as int, 10);
            if acc <= q {
                lemma_mul_inequality(acc as int, q as int, 10);
            } else {
                lemma_mul_inequality(q + 1, acc as int, 10);
                assert(digits_val(s@.take(i + 1)) > usize::MAX);
                lemma_digits_val_take_le(s@, i + 1);
            }
        }
        if acc > q {
            return None;
        }
        acc = acc * 10 + d;
        i = i + 1;
    }
    proof {
        assert(s@.take(n as int) =~= s@);
    }
    Some(acc)
}

/// Parse a length-spec string: either a single number, used for both bounds,
/// or two numbers around a separator, reordered so the smaller comes first.
pub fn parse_len(input: &str) -> (r: Option<(usize, usize)>)
    ensures
        r == parse_len_spec(input@),
{
    let n = input.unicode_len();
    let mut k: usize = 0;
    while k < n && input.get_char(k) != '-'
        invariant
            k <= n,
            n == input@.len(),
            forall|j: int| 0 <= j < k ==> input@[j] != '-',
        decreases n - k,
    {
        k = k + 1;
    }
    if k == n {
        // no separator anywhere
        proof {
            assert(!input@.contains('-'));
        }
        return match parse_usize(input) {
            Some(v) => Some((v, v)),
            None => None,
        };
    }
    proof {
        assert(input@[k as int] == '-');
        assert(input@.contains('-'));
        assert(is_first_hyphen(input@, k as int));
        let kk = choose|kk: int| is_first_hyphen(input@, kk);
        lemma_first_hyphen_unique(input@, kk, k as int);
    }
    // look for a second separator after the first
    let mut j: usize = k + 1;
    while j < n && input.get_char(j) != '-'
        invariant
            k < j <= n,
            n == input@.len(),
            forall|m: int| k < m < j ==> input@[m] != '-',
        decreases n - j,
    {
        j = j + 1;
    }
    let b_view = Ghost(input@.skip(k + 1));
    if j < n {
        proof {
            assert(b_view@[j - k - 1] == '-');
            assert(b_view@.contains('-'));
        }
        return None;
    }
    proof {
        assert(forall|m: int| 0 <= m < b_view@.len() ==> b_view@[m] == input@[m + k + 1]);
        assert(!b_view@.contains('-'));
    }
    let a = input.substring_char(0, k);
    let b = input.substring_char(k + 1, n);
    proof {
        assert(a@ =~= input@.take(k as int));
        assert(b@ =~= input@.skip(k + 1));
    }
    match (parse_usize(a), parse_usize(b)) {
        (Some(va), Some(vb)) => {
            if va <= vb {
                Some((va, vb))
            } else {
                Some((vb, va))
            }
        },
        _ => None,
    }
}

} // verus!
