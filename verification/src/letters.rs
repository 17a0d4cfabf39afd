//! Letter-set criteria: distinct letters of a spec string, its alphabet
//! complement, and per-letter occurrence caps.

use vstd::prelude::*;
use vstd::string::StrSliceExecFns;
use crate::model::{count_of, latin_alphabet, lemma_count_of_le_len, within_caps, avoids_all,
    shares_a_letter};
use crate::text::{count_char, str_contains_char, vec_contains_char};

verus! {

broadcast use vstd::seq_lib::lemma_seq_contains_after_push;

/// The distinct characters of `x`, in order of first occurrence.
///
/// Only the set of characters is promised, not their order: the criteria
/// built from this list (complement, caps, shared-letter tests) do not
/// depend on it.
pub fn unique_input(x: &str) -> (r: Vec<char>)
    ensures
        forall|c: char| r@.contains(c) <==> x@.contains(c),
        forall|i: int, j: int| 0 <= i < j < r@.len() ==> r@[i] != r@[j],
{
    let n = x.unicode_len();
    let mut r: Vec<char> = Vec::new();
    let mut i: usize = 0;
    while i < n
        invariant
            i <= n,
            n == x@.len(),
            forall|c: char| r@.contains(c) ==> x@.contains(c),
            forall|k: int| 0 <= k < i ==> r@.contains(x@[k]),
            forall|a: int, b: int| 0 <= a < b < r@.len() ==> r@[a] != r@[b],
        decreases n - i,
    {
        let c = x.get_char(i);
        if !vec_contains_char(&r, c) {
            r.push(c);
        }
        i = i + 1;
    }
    assert forall|c: char| x@.contains(c) implies r@.contains(c) by {
        let k = choose|k: int| 0 <= k < x@.len() && x@[k] == c;
        assert(r@.contains(x@[k]));
    }
    r
}

/// The lowercase Latin alphabet as an executable list.
pub fn alphabet() -> (r: Vec<char>)
    ensures
        r@ == latin_alphabet(),
{
    let r: Vec<char> = vec![
        'a', 'b', 'c', 'd', 'e', 'f', 'g', 'h', 'i', 'j', 'k', 'l', 'm', 'n', 'o', 'p', 'q', 'r',
        's', 't', 'u', 'v', 'w', 'x', 'y', 'z',
    ];
    proof {
        assert(r@ =~= latin_alphabet());
    }
    r
}

/// The spec function behind `complement`: the alphabet letters that do not
/// occur in `letter_set`.
pub open spec fn complement_of(letter_set: Seq<char>) -> Seq<char> {
    latin_alphabet().filter(|c: char| !letter_set.contains(c))
}

/// The letters of the alphabet that are missing from `letter_set`, in
/// alphabetical order.
pub fn complement(letter_set: &Vec<char>) -> (r: Vec<char>)
    ensures
        r@ == complement_of(letter_set@),
{
    let alpha = alphabet();
    let mut r: Vec<char> = Vec::new();
    let mut i: usize = 0;
    while i < alpha.len()
        invariant
            i <= alpha@.len(),
            alpha@ == latin_alphabet(),
            r@ == latin_alphabet().take(i as int).filter(|c: char| !letter_set@.contains(c)),
        decreases alpha@.len() - i,
    {
        proof {
            crate::filtering::lemma_filter_take_step(
                latin_alphabet(),
                |c: char| !letter_set@.contains(c),
                i as int,
            );
        }
        if !vec_contains_char(letter_set, alpha[i]) {
            r.push(alpha[i]);
        }
        i = i + 1;
    }
    proof {
        assert(latin_alphabet().take(26) =~= latin_alphabet());
    }
    r
}

/// The per-letter occurrence caps a spec string imposes: each letter of
/// `lset` paired with the number of times it occurs in `x`.
pub fn input_distribution(x: &str, lset: &Vec<char>) -> (r: Vec<(char, usize)>)
    ensures
        r@.len() == lset@.len(),
        forall|i: int|
            0 <= i < lset@.len() ==> (#[trigger] r@[i]).0 == lset@[i] && r@[i].1 == count_of(
                x@,
                lset@[i],
            ),
{
    let mut r: Vec<(char, usize)> = Vec::new();
    let mut i: usize = 0;
    while i < lset.len()
        invariant
            i <= lset@.len(),
            r@.len() == i,
            forall|k: int|
                0 <= k < i ==> (#[trigger] r@[k]).0 == lset@[k] && r@[k].1 == count_of(
                    x@,
                    lset@[k],
                ),
        decreases lset@.len() - i,
    {
        let c = lset[i];
        proof {
            lemma_count_of_le_len(x@, c);
        }
        let count = count_char(x, c);
        r.push((c, count));
        i = i + 1;
    }
    r
}

/// Whether the word stays within every occurrence cap of `dist`.
pub fn filter_distribution_max(x: &str, dist: &Vec<(char, usize)>) -> (r: bool)
    ensures
        r == within_caps(x@, dist@),
{
    let mut i: usize = 0;
    while i < dist.len()
        invariant
            i <= dist@.len(),
            forall|k: int| 0 <= k < i ==> count_of(x@, dist@[k].0) <= dist@[k].1,
        decreases dist@.len() - i,
    {
        let count = count_char(x, dist[i].0);
        if count > dist[i].1 {
            return false;
        }
        i = i + 1;
    }
    true
}

/// Whether the word's length lies in the inclusive range `[inf, sup]`.
pub fn filter_len(x: &str, inf: usize, sup: usize) -> (r: bool)
    ensures
        r == (inf <= x@.len() <= sup),
{
    let n = x.unicode_len();
    n >= inf && n <= sup
}

/// Whether the word contains at least one of the letters of `lset`.
pub fn shares_any(x: &String, lset: &Vec<char>) -> (r: bool)
    ensures
        r == shares_a_letter(x@, lset@),
{
    let mut i: usize = 0;
    while i < lset.len()
        invariant
            i <= lset@.len(),
            forall|k: int| 0 <= k < i ==> !x@.contains(#[trigger] lset@[k]),
        decreases lset@.len() - i,
    {
        if str_contains_char(x.as_str(), lset[i]) {
            return true;
        }
        i = i + 1;
    }
    false
}

/// Whether the word contains none of the letters of `lset`.
pub fn filter_letter(x: &String, lset: &Vec<char>) -> (r: bool)
    ensures
        r == avoids_all(x@, lset@),
{
    let mut i: usize = 0;
    while i < lset.len()
        invariant
            i <= lset@.len(),
            forall|k: int| 0 <= k < i ==> !x@.contains(lset@[k]),
        decreases lset@.len() - i,
    {
        if str_contains_char(x.as_str(), lset[i]) {
            return false;
        }
        i = i + 1;
    }
    true
}

} // verus!
