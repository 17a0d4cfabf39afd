//! Laws of the filtering pipeline, stated and proved once for all stores.

use vstd::prelude::*;
use crate::dictionary::{complement_filtered, distribution_filtered, strict_filtered,
    inclusive_filtered, pattern_filtered, strict_matches};
use crate::model::{avoids_all, count_of, latin_alphabet, matches_pattern, shares_a_letter,
    within_caps, lemma_count_of_zero_iff_absent};
use crate::filtering::{lemma_filter_idempotent, lemma_filter_contains_iff};

verus! {

/// Filtering an already complement-filtered store by the same forbidden
/// letters again changes nothing.
pub proof fn lemma_complement_filter_idempotent(ws: Seq<Seq<char>>, comp: Seq<char>)
    ensures
        complement_filtered(complement_filtered(ws, comp), comp) == complement_filtered(ws, comp),
{
    lemma_filter_idempotent(ws, |w: Seq<char>| avoids_all(w, comp));
}

/// Filtering an already distribution-filtered store by the same caps again
/// changes nothing.
pub proof fn lemma_distribution_filter_idempotent(ws: Seq<Seq<char>>, caps: Seq<(char, usize)>)
    ensures
        distribution_filtered(distribution_filtered(ws, caps), caps) == distribution_filtered(
            ws,
            caps,
        ),
{
    lemma_filter_idempotent(ws, |w: Seq<char>| within_caps(w, caps));
}

/// Strict letter-set filtering is idempotent.
pub proof fn lemma_strict_filter_idempotent(ws: Seq<Seq<char>>, s: Seq<char>)
    ensures
        strict_filtered(strict_filtered(ws, s), s) == strict_filtered(ws, s),
{
    lemma_filter_idempotent(ws, |w: Seq<char>| strict_matches(w, s));
}

/// Inclusive letter-set filtering is idempotent.
pub proof fn lemma_inclusive_filter_idempotent(ws: Seq<Seq<char>>, s: Seq<char>)
    ensures
        inclusive_filtered(inclusive_filtered(ws, s), s) == inclusive_filtered(ws, s),
{
    lemma_filter_idempotent(ws, |w: Seq<char>| shares_a_letter(w, s));
}

/// Pattern filtering is idempotent.
pub proof fn lemma_pattern_filter_idempotent(ws: Seq<Seq<char>>, p: Seq<char>)
    ensures
        pattern_filtered(pattern_filtered(ws, p), p) == pattern_filtered(ws, p),
{
    lemma_filter_idempotent(ws, |w: Seq<char>| matches_pattern(w, p));
}

/// A word holding at least one Latin lowercase letter.
pub open spec fn has_latin_letter(w: Seq<char>) -> bool {
    exists|i: int| 0 <= i < w.len() && latin_alphabet().contains(w[i])
}

/// Over words that hold at least one Latin lowercase letter, the strict
/// letter filter admits only words the inclusive filter also admits.  (A
/// word with no such letter — the empty word, say — passes the strict
/// filter vacuously but shares no letter with the spec.)
pub proof fn lemma_strict_subset_of_inclusive(ws: Seq<Seq<char>>, s: Seq<char>)
    requires
        forall|k: int| 0 <= k < ws.len() ==> has_latin_letter(#[trigger] ws[k]),
    ensures
        forall|w: Seq<char>|
            strict_filtered(ws, s).contains(w) ==> inclusive_filtered(ws, s).contains(w),
{
    assert forall|w: Seq<char>|
        strict_filtered(ws, s).contains(w) implies inclusive_filtered(ws, s).contains(w) by {
        lemma_filter_contains_iff(ws, |x: Seq<char>| strict_matches(x, s), w);
        assert(ws.contains(w) && strict_matches(w, s));
        let k = choose|k: int| 0 <= k < ws.len() && ws[k] == w;
        assert(has_latin_letter(ws[k]));
        let i = choose|i: int| 0 <= i < w.len() && latin_alphabet().contains(w[i]);
        let c = w[i];
        assert(w.contains(c));
        assert(s.contains(c));
        let m = choose|m: int| 0 <= m < s.len() && s[m] == c;
        assert(w.contains(s[m]));
        assert(shares_a_letter(w, s));
        lemma_filter_contains_iff(ws, |x: Seq<char>| shares_a_letter(x, s), w);
    }
}

/// A word stands in the pattern-filtered store exactly when it stands in
/// the store and has the pattern's length and the pattern's character at
/// every non-wildcard position.
pub proof fn lemma_pattern_filter_characterization(ws: Seq<Seq<char>>, p: Seq<char>, w: Seq<char>)
    ensures
        pattern_filtered(ws, p).contains(w) <==> (ws.contains(w) && matches_pattern(w, p)),
{
    lemma_filter_contains_iff(ws, |x: Seq<char>| matches_pattern(x, p), w);
}

/// Over words made only of Latin lowercase letters, strict matching says
/// exactly that the word is a sub-multiset of the spec string: every
/// character occurs at most as often as there.
pub proof fn lemma_strict_is_submultiset(w: Seq<char>, s: Seq<char>)
    requires
        forall|i: int| 0 <= i < w.len() ==> latin_alphabet().contains(#[trigger] w[i]),
    ensures
        strict_matches(w, s) <==> (forall|c: char| count_of(w, c) <= count_of(s, c)),
{
    if strict_matches(w, s) {
        assert forall|c: char| count_of(w, c) <= count_of(s, c) by {
            lemma_count_of_zero_iff_absent(w, c);
            lemma_count_of_zero_iff_absent(s, c);
            if w.contains(c) {
                let i = choose|i: int| 0 <= i < w.len() && w[i] == c;
                assert(latin_alphabet().contains(w[i]));
                if !s.contains(c) {
                    assert(!w.contains(c));
                }
            }
        }
    }
    if forall|c: char| count_of(w, c) <= count_of(s, c) {
        assert forall|c: char|
            latin_alphabet().contains(c) && !s.contains(c) implies !w.contains(c) by {
            lemma_count_of_zero_iff_absent(w, c);
            lemma_count_of_zero_iff_absent(s, c);
            assert(count_of(w, c) <= count_of(s, c));
        }
    }
}

} // verus!
