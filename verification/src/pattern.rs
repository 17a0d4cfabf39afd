//! Positional pattern criteria.
//!
//! A pattern string pins a character at every position that is not the
//! wildcard marker `'-'`.  A word matches a pattern when it has the pattern's
//! length and agrees with it at every pinned position.

use vstd::prelude::*;
use vstd::string::StrSliceExecFns;
use crate::model::matches_pattern;

verus! {

/// The `(character, position)` pins of a pattern: one pin per position whose
/// character is not the wildcard `'-'`, in order of position.
pub open spec fn pins_of(p: Seq<char>) -> Seq<(char, usize)>
    decreases p.len(),
{
    if p.len() == 0 {
        Seq::empty()
    } else if p.last() != '-' {
        pins_of(p.drop_last()).push((p.last(), (p.len() - 1) as usize))
    } else {
        pins_of(p.drop_last())
    }
}

/// The word agrees with every pin whose position falls inside the word.
pub open spec fn matches_pins(w: Seq<char>, pins: Seq<(char, usize)>) -> bool {
    forall|i: int| 0 <= i < pins.len() && pins[i].1 < w.len() ==> w[pins[i].1 as int] == pins[i].0
}

/// Every pin of a pattern sits at a position inside the pattern and carries
/// that position's character.
pub proof fn lemma_pins_of_positions(p: Seq<char>)
    requires
        p.len() <= usize::MAX,
    ensures
        forall|i: int|
            0 <= i < pins_of(p).len() ==> (#[trigger] pins_of(p)[i]).1 < p.len()
                && p[pins_of(p)[i].1 as int] == pins_of(p)[i].0 && pins_of(p)[i].0 != '-',
        forall|k: int| 0 <= k < p.len() && p[k] != '-' ==> pins_of(p).contains((p[k], k as usize)),
    decreases p.len(),
{
    broadcast use vstd::seq_lib::lemma_seq_contains_after_push;

    if p.len() > 0 {
        let q = p.drop_last();
        lemma_pins_of_positions(q);
        assert(forall|k: int| 0 <= k < q.len() ==> p[k] == #[trigger] q[k]);
        let sub = pins_of(q);
        if p.last() != '-' {
            let pin = (p.last(), (p.len() - 1) as usize);
            assert(pins_of(p) == sub.push(pin));
            assert forall|i: int|
                0 <= i < pins_of(p).len() implies (#[trigger] pins_of(p)[i]).1 < p.len()
                && p[pins_of(p)[i].1 as int] == pins_of(p)[i].0 && pins_of(p)[i].0 != '-' by {
                if i < sub.len() {
                    assert(pins_of(p)[i] == sub[i]);
                    assert(q[sub[i].1 as int] == sub[i].0);
                } else {
                    assert(pins_of(p)[i] == pin);
                }
            }
            assert forall|k: int|
                0 <= k < p.len() && p[k] != '-' implies pins_of(p).contains(
                (p[k], k as usize),
            ) by {
                if k < p.len() - 1 {
                    assert(sub.contains((q[k], k as usize)));
                } else {
                    assert(pins_of(p)[sub.len() as int] == pin);
                    assert(pins_of(p).contains(pin));
                }
            }
        } else {
            assert(pins_of(p) == sub);
            assert forall|k: int|
                0 <= k < p.len() && p[k] != '-' implies pins_of(p).contains(
                (p[k], k as usize),
            ) by {
                assert(k < p.len() - 1);
                assert(sub.contains((q[k], k as usize)));
            }
        }
    }
}

/// A word of the pattern's length matches the pattern exactly when it agrees
/// with all of the pattern's pins.
pub proof fn lemma_pins_characterize_pattern(w: Seq<char>, p: Seq<char>)
    requires
        w.len() == p.len(),
        p.len() <= usize::MAX,
    ensures
        matches_pins(w, pins_of(p)) <==> matches_pattern(w, p),
{
    lemma_pins_of_positions(p);
    if matches_pins(w, pins_of(p)) {
        assert forall|i: int| 0 <= i < p.len() && p[i] != '-' implies w[i] == p[i] by {
            assert(pins_of(p).contains((p[i], i as usize)));
            let j = choose|j: int| 0 <= j < pins_of(p).len() && pins_of(p)[j] == (p[i], i as usize);
            assert(w[pins_of(p)[j].1 as int] == pins_of(p)[j].0);
        }
    }
}

/// Scan the pattern string and collect its pins.
pub fn pattern_parser(x: &str) -> (r: Vec<(char, usize)>)
    ensures
        r@ == pins_of(x@),
{
    let n = x.unicode_len();
    let mut r: Vec<(char, usize)> = Vec::new();
    let mut i: usize = 0;
    while i < n
        invariant
            i <= n,
            n == x@.len(),
            r@ == pins_of(x@.take(i as int)),
        decreases n - i,
    {
        let c = x.get_char(i);
        proof {
            assert(x@.take(i + 1).drop_last() =~= x@.take(i as int));
            assert(x@.take(i + 1).last() == x@[i as int]);
        }
        if c != '-' {
            r.push((c, i));
        }
        i = i + 1;
    }
    proof {
        assert(x@.take(n as int) =~= x@);
    }
    r
}

/// Whether the word agrees with every pin that falls inside it.
pub fn filter_pattern(x: &str, fltr: &Vec<(char, usize)>) -> (r: bool)
    ensures
        r == matches_pins(x@, fltr@),
{
    let n = x.unicode_len();
    let mut i: usize = 0;
    while i < fltr.len()
        invariant
            i <= fltr@.len(),
            n == x@.len(),
            forall|k: int|
                0 <= k < i && fltr@[k].1 < x@.len() ==> x@[fltr@[k].1 as int] == fltr@[k].0,
        decreases fltr@.len() - i,
    {
        let (c, idx) = fltr[i];
        if idx < n {
            if x.get_char(idx) != c {
                return false;
            }
        }
        i = i + 1;
    }
    true
}

} // verus!
