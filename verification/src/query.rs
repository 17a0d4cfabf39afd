//! A full query: load the corpus with the requested length range, then apply
//! the selected letter filter and the pattern filter.
//!
//! Absent criteria — an empty letter spec, an empty pattern, a length spec
//! that does not parse — are identity transforms or fall back to the default
//! range.

use vstd::prelude::*;
use vstd::string::StrSliceExecFns;
use crate::dictionary::{Dictionary, loadable, strict_matches, views_of};
use crate::model::{matches_pattern, shares_a_letter};
use crate::parse::{parse_len, parse_len_spec};
use crate::filtering::lemma_filter_contains_iff;

verus! {

/// The default length range used when the length spec does not parse.
pub const DEFAULT_INF: usize = 0;

/// The default upper length bound used when the length spec does not parse.
pub const DEFAULT_SUP: usize = 22;

/// The length bounds a query runs with: the parsed length spec, or the
/// default full range when it does not parse.
pub open spec fn query_bounds(len_spec: Seq<char>) -> (usize, usize) {
    match parse_len_spec(len_spec) {
        Some(p) => p,
        None => (DEFAULT_INF, DEFAULT_SUP),
    }
}

/// Whether a word satisfies the letter and pattern criteria of a query; an
/// empty criterion constrains nothing.
pub open spec fn criteria_match(
    w: Seq<char>,
    letters: Seq<char>,
    strict: bool,
    pattern: Seq<char>,
) -> bool {
    &&& (letters.len() == 0 || (if strict {
        strict_matches(w, letters)
    } else {
        shares_a_letter(w, letters)
    }))
    &&& (pattern.len() == 0 || matches_pattern(w, pattern))
}

/// Run a query: build the store for the corpus and length spec, then narrow
/// it by the letter spec (strictly or inclusively) and the pattern.  The
/// result holds exactly the eligible corpus words that meet every present
/// criterion.
pub fn run_query(
    lines: &Vec<String>,
    length_spec: &str,
    letters: &str,
    strict: bool,
    pattern: &str,
) -> (d: Dictionary)
    ensures
        d.wf(),
        forall|w: Seq<char>|
            d@.contains(w) <==> (loadable(
                views_of(lines@),
                query_bounds(length_spec@).0 as nat,
                query_bounds(length_spec@).1 as nat,
                w,
            ) && criteria_match(w, letters@, strict, pattern@)),
{
    let (inf, sup) = match parse_len(length_spec) {
        Some(p) => p,
        None => (DEFAULT_INF, DEFAULT_SUP),
    };
    let d0 = Dictionary::load(lines, inf, sup);
    let ghost v0 = d0@;
    let with_letters = letters.unicode_len() > 0;
    let d1 = if with_letters {
        if strict {
            d0.filter_by_substr(letters)
        } else {
            d0.filter_by_substr_inclusive(letters)
        }
    } else {
        d0
    };
    let ghost v1 = d1@;
    let d2 = if pattern.unicode_len() > 0 {
        d1.filter_by_pattern(pattern)
    } else {
        d1
    };
    proof {
        assert forall|w: Seq<char>|
            d2@.contains(w) <==> (loadable(
                views_of(lines@),
                query_bounds(length_spec@).0 as nat,
                query_bounds(length_spec@).1 as nat,
                w,
            ) && criteria_match(w, letters@, strict, pattern@)) by {
            if with_letters {
                if strict {
                    lemma_filter_contains_iff(v0, |x: Seq<char>| strict_matches(x, letters@), w);
                } else {
                    lemma_filter_contains_iff(v0, |x: Seq<char>| shares_a_letter(x, letters@), w);
                }
            }
            if pattern@.len() > 0 {
                lemma_filter_contains_iff(v1, |x: Seq<char>| matches_pattern(x, pattern@), w);
            }
        }
    }
    d2
}

} // verus!
