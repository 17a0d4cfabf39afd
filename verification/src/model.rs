//! Mathematical model of words and filtering criteria.
//!
//! A word is a `Seq<char>`; a store of words is a `Seq<Seq<char>>`.  The spec
//! functions here say what it means for a word to satisfy each filtering
//! criterion, and define the character-level notions (occurrence counts,
//! lowercasing) that the criteria are built from.

use vstd::prelude::*;

verus! {

/// Number of occurrences of the character `c` in `s`.
pub open spec fn count_of(s: Seq<char>, c: char) -> nat
    decreases s.len(),
{
    if s.len() == 0 {
        0
    } else {
        count_of(s.drop_last(), c) + if s.last() == c {
            1nat
        } else {
            0nat
        }
    }
}

/// The occurrence count never exceeds the length of the sequence.
pub proof fn lemma_count_of_le_len(s: Seq<char>, c: char)
    ensures
        count_of(s, c) <= s.len(),
    decreases s.len(),
{
    if s.len() > 0 {
        lemma_count_of_le_len(s.drop_last(), c);
    }
}

/// A character occurs zero times exactly when the sequence does not contain it.
pub proof fn lemma_count_of_zero_iff_absent(s: Seq<char>, c: char)
    ensures
        count_of(s, c) == 0 <==> !s.contains(c),
    decreases s.len(),
{
    if s.len() > 0 {
        lemma_count_of_zero_iff_absent(s.drop_last(), c);
        if s.contains(c) {
            let i = choose|i: int| 0 <= i < s.len() && s[i] == c;
            if i < s.len() - 1 {
                assert(s.drop_last()[i] == c);
                assert(s.drop_last().contains(c));
            }
        } else {
            assert(forall|i: int| 0 <= i < s.len() - 1 ==> s.drop_last()[i] == s[i]);
            assert(!s.drop_last().contains(c));
        }
    }
}

/// Extending a prefix by one character adjusts the count for that character.
pub proof fn lemma_count_of_take_step(s: Seq<char>, c: char, i: int)
    requires
        0 <= i < s.len(),
    ensures
        count_of(s.take(i + 1), c) == count_of(s.take(i), c) + if s[i] == c {
            1nat
        } else {
            0nat
        },
{
    assert(s.take(i + 1).drop_last() =~= s.take(i));
    assert(s.take(i + 1).last() == s[i]);
}

/// ASCII lowercasing of a single character: uppercase Latin letters map to
/// their lowercase counterparts, every other character is unchanged.
pub open spec fn lower_char(c: char) -> char {
    if 'A' <= c && c <= 'Z' {
        (((c as u8) + 32) as char)
    } else {
        c
    }
}

/// ASCII lowercasing of a whole word, character by character.
pub open spec fn lower_seq(s: Seq<char>) -> Seq<char> {
    s.map_values(|c: char| lower_char(c))
}

/// Lowercasing is idempotent on words.
pub proof fn lemma_lower_seq_idempotent(s: Seq<char>)
    ensures
        lower_seq(lower_seq(s)) == lower_seq(s),
{
    assert(lower_seq(lower_seq(s)) =~= lower_seq(s));
}

/// Lowercasing neither introduces nor removes apostrophes.
pub proof fn lemma_lower_seq_apostrophe(s: Seq<char>)
    ensures
        lower_seq(s).contains('\'') <==> s.contains('\''),
{
    if s.contains('\'') {
        let i = choose|i: int| 0 <= i < s.len() && s[i] == '\'';
        assert(lower_seq(s)[i] == '\'');
    }
    if lower_seq(s).contains('\'') {
        let i = choose|i: int| 0 <= i < s.len() && lower_seq(s)[i] == '\'';
        assert(lower_char(s[i]) == '\'');
        assert(s[i] == '\'');
    }
}

/// The word contains none of the characters of `forbidden`.
pub open spec fn avoids_all(w: Seq<char>, forbidden: Seq<char>) -> bool {
    forall|i: int| 0 <= i < forbidden.len() ==> !w.contains(forbidden[i])
}

/// For every `(letter, cap)` pair, the word holds at most `cap` occurrences
/// of `letter`.
pub open spec fn within_caps(w: Seq<char>, caps: Seq<(char, usize)>) -> bool {
    forall|i: int| 0 <= i < caps.len() ==> count_of(w, caps[i].0) <= caps[i].1
}

/// The word contains at least one of the characters of `letters`.
pub open spec fn shares_a_letter(w: Seq<char>, letters: Seq<char>) -> bool {
    exists|i: int| 0 <= i < letters.len() && w.contains(letters[i])
}

/// The word matches the pattern: same length, and at every position whose
/// pattern character is not the wildcard `'-'`, the word agrees with the
/// pattern.
pub open spec fn matches_pattern(w: Seq<char>, p: Seq<char>) -> bool {
    &&& w.len() == p.len()
    &&& forall|i: int| 0 <= i < p.len() && p[i] != '-' ==> w[i] == p[i]
}

/// The 26 lowercase Latin letters, in alphabetical order.
pub open spec fn latin_alphabet() -> Seq<char> {
    seq![
        'a', 'b', 'c', 'd', 'e', 'f', 'g', 'h', 'i', 'j', 'k', 'l', 'm', 'n', 'o', 'p', 'q', 'r',
        's', 't', 'u', 'v', 'w', 'x', 'y', 'z',
    ]
}

} // verus!
