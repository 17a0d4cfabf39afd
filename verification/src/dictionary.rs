//! The word store and its operations.
//!
//! A `Dictionary` is a lexicographically sorted, duplicate-free list of
//! words.  It is built once from a corpus and then narrowed by pure filter
//! operations, each of which returns a new store and leaves its receiver
//! untouched.

use vstd::prelude::*;
use vstd::string::{StrSliceExecFns, StringExecFns};
use crate::model::{avoids_all, count_of, latin_alphabet, lower_seq, matches_pattern,
    lemma_lower_seq_apostrophe, lemma_lower_seq_idempotent, shares_a_letter, within_caps};
use crate::order::{lex_lt, sorted_strict, lemma_lex_lt_trichotomy, lemma_lex_lt_trans};
use crate::text::{push_char, to_lower, str_contains_char, lex_lt_exec};
use crate::letters::{unique_input, complement, complement_of, input_distribution,
    filter_distribution_max, filter_len, filter_letter, shares_any};
use crate::pattern::{pins_of, pattern_parser, filter_pattern, lemma_pins_characterize_pattern};
use crate::filtering::{lemma_filter_take_step, lemma_filter_sorted, lemma_filter_compose,
    lemma_filter_congruent};
use crate::random::{mix, mix_exec, time_seed};

verus! {

/// The word views of a list of strings.
pub open spec fn views_of(ws: Seq<String>) -> Seq<Seq<char>> {
    Seq::new(ws.len(), |i: int| ws[i]@)
}

/// A corpus line that belongs in a store built with the range `[inf, sup]`:
/// length within the range and free of apostrophes.
pub open spec fn eligible_line(l: Seq<char>, inf: nat, sup: nat) -> bool {
    inf <= l.len() <= sup && !l.contains('\'')
}

/// The word `w` is what some eligible line of `lines` lowercases to.
pub open spec fn loadable(lines: Seq<Seq<char>>, inf: nat, sup: nat, w: Seq<char>) -> bool {
    exists|i: int|
        0 <= i < lines.len() && eligible_line(#[trigger] lines[i], inf, sup) && w == lower_seq(
            lines[i],
        )
}

/// The words that survive the complement filter: those containing none of
/// the forbidden letters.
pub open spec fn complement_filtered(ws: Seq<Seq<char>>, comp: Seq<char>) -> Seq<Seq<char>> {
    ws.filter(|w: Seq<char>| avoids_all(w, comp))
}

/// The words that survive the distribution filter: those within every
/// occurrence cap.
pub open spec fn distribution_filtered(ws: Seq<Seq<char>>, caps: Seq<(char, usize)>) -> Seq<
    Seq<char>,
> {
    ws.filter(|w: Seq<char>| within_caps(w, caps))
}

/// Strict letter-set matching: the word uses no alphabet letter outside the
/// spec string, and no letter more often than the spec string holds it.
pub open spec fn strict_matches(w: Seq<char>, s: Seq<char>) -> bool {
    &&& forall|c: char| latin_alphabet().contains(c) && !s.contains(c) ==> !w.contains(c)
    &&& forall|c: char| s.contains(c) ==> count_of(w, c) <= count_of(s, c)
}

/// The words that survive strict letter-set matching against `s`.
pub open spec fn strict_filtered(ws: Seq<Seq<char>>, s: Seq<char>) -> Seq<Seq<char>> {
    ws.filter(|w: Seq<char>| strict_matches(w, s))
}

/// The words that survive inclusive letter-set matching against `s`: those
/// sharing at least one letter with it.
pub open spec fn inclusive_filtered(ws: Seq<Seq<char>>, s: Seq<char>) -> Seq<Seq<char>> {
    ws.filter(|w: Seq<char>| shares_a_letter(w, s))
}

/// The words that match the pattern `p`.
pub open spec fn pattern_filtered(ws: Seq<Seq<char>>, p: Seq<char>) -> Seq<Seq<char>> {
    ws.filter(|w: Seq<char>| matches_pattern(w, p))
}

/// The words joined by single spaces.
pub open spec fn join_words(ws: Seq<Seq<char>>) -> Seq<char>
    decreases ws.len(),
{
    if ws.len() == 0 {
        Seq::empty()
    } else if ws.len() == 1 {
        ws[0]
    } else {
        join_words(ws.drop_last()) + seq![' '] + ws.last()
    }
}

/// How many leading words fit in the character budget, counting each word's
/// length plus one for its separator.
pub open spec fn shown_count(ws: Seq<Seq<char>>, budget: int) -> int
    decreases ws.len(),
{
    if ws.len() == 0 {
        0
    } else if ws[0].len() + 1 > budget {
        0
    } else {
        1 + shown_count(ws.skip(1), budget - (ws[0].len() + 1))
    }
}

/// The ceiling on the rendered listing's character count.
pub const OUTPUT_LIMIT: usize = 600;

/// A sorted, duplicate-free store of lowercase words.
pub struct Dictionary {
    words: Vec<String>,
}

impl View for Dictionary {
    type V = Seq<Seq<char>>;

    closed spec fn view(&self) -> Seq<Seq<char>> {
        views_of(self.words@)
    }
}

/// Insert a word into a sorted, duplicate-free list, keeping it sorted and
/// duplicate-free; a word already present is left alone.
fn insert_sorted_unique(v: &mut Vec<String>, w: String)
    requires
        sorted_strict(views_of(old(v)@)),
    ensures
        sorted_strict(views_of(final(v)@)),
        forall|x: Seq<char>|
            views_of(final(v)@).contains(x) <==> (views_of(old(v)@).contains(x) || x == w@),
{
    let ghost vs = views_of(v@);
    let mut i: usize = 0;
    while i < v.len() && lex_lt_exec(v[i].as_str(), w.as_str())
        invariant
            i <= v@.len(),
            v@ == old(v)@,
            forall|k: int| 0 <= k < i ==> lex_lt(views_of(v@)[k], w@),
        decreases v@.len() - i,
    {
        i = i + 1;
    }
    if i < v.len() && v[i].eq(&w) {
        proof {
            assert(views_of(v@)[i as int] == w@);
            assert(views_of(v@).contains(w@));
        }
        return ;
    }
    proof {
        if i < v@.len() {
            lemma_lex_lt_trichotomy(views_of(v@)[i as int], w@);
            assert(lex_lt(w@, views_of(v@)[i as int]));
        }
    }
    let ghost old_vs = views_of(v@);
    v.insert(i, w);
    proof {
        let new_vs = views_of(v@);
        assert(new_vs.len() == old_vs.len() + 1);
        assert(forall|k: int| 0 <= k < i ==> new_vs[k] == old_vs[k]);
        assert(new_vs[i as int] == w@);
        assert(forall|k: int| i < k < new_vs.len() ==> new_vs[k] == old_vs[k - 1]);
        assert forall|a: int, b: int| 0 <= a < b < new_vs.len() implies lex_lt(
            new_vs[a],
            new_vs[b],
        ) by {
            if b < i {
                assert(lex_lt(old_vs[a], old_vs[b]));
            } else if b == i {
                assert(lex_lt(old_vs[a], w@));
            } else if a < i {
                assert(lex_lt(old_vs[a], old_vs[b - 1]));
            } else if a == i {
                if b - 1 > i {
                    lemma_lex_lt_trans(w@, old_vs[i as int], old_vs[b - 1]);
                }
            } else {
                assert(lex_lt(old_vs[a - 1], old_vs[b - 1]));
            }
        }
        assert forall|x: Seq<char>| new_vs.contains(x) implies (old_vs.contains(x) || x
            == w@) by {
            let k = choose|k: int| 0 <= k < new_vs.len() && new_vs[k] == x;
            if k < i {
                assert(old_vs[k] == x);
            } else if k > i {
                assert(old_vs[k - 1] == x);
            }
        }
        assert forall|x: Seq<char>| old_vs.contains(x) implies new_vs.contains(x) by {
            let k = choose|k: int| 0 <= k < old_vs.len() && old_vs[k] == x;
            if k < i {
                assert(new_vs[k] == x);
            } else {
                assert(new_vs[k + 1] == x);
            }
        }
        assert(new_vs.contains(w@)) by {
            assert(new_vs[i as int] == w@);
        }
    }
}

impl Dictionary {
    /// The store invariant: strictly sorted in lexicographic order, which
    /// also rules out duplicates.
    pub open spec fn wf(&self) -> bool {
        sorted_strict(self@)
    }

    /// The words of the store, in order.
    pub fn words(&self) -> (r: &Vec<String>)
        ensures
            views_of(r@) == self@,
    {
        &self.words
    }

    /// Number of words in the store.
    pub fn len(&self) -> (r: usize)
        ensures
            r == self@.len(),
    {
        self.words.len()
    }

    /// Build a store from the lines of a corpus: keep every line whose
    /// length lies in `[inf, sup]` and which holds no apostrophe, lowercase
    /// it, drop duplicates, and sort the result.
    pub fn load(lines: &Vec<String>, inf: usize, sup: usize) -> (d: Dictionary)
        ensures
            d.wf(),
            forall|w: Seq<char>|
                d@.contains(w) <==> loadable(views_of(lines@), inf as nat, sup as nat, w),
            forall|k: int|
                0 <= k < d@.len() ==> inf <= (#[trigger] d@[k]).len() <= sup && !d@[k].contains(
                    '\'',
                ) && lower_seq(d@[k]) == d@[k],
            forall|i: int, j: int|
                0 <= i < d@.len() && 0 <= j < d@.len() && i != j ==> d@[i] != d@[j],
    {
        let ghost ls = views_of(lines@);
        let mut words: Vec<String> = Vec::new();
        let mut i: usize = 0;
        while i < lines.len()
            invariant
                i <= lines@.len(),
                ls == views_of(lines@),
                sorted_strict(views_of(words@)),
                forall|w: Seq<char>|
                    views_of(words@).contains(w) <==> (exists|j: int|
                        0 <= j < i && eligible_line(#[trigger] ls[j], inf as nat, sup as nat) && w
                            == lower_seq(ls[j])),
            decreases lines@.len() - i,
        {
            let line = &lines[i];
            proof {
                assert(ls[i as int] == line@);
            }
            if filter_len(line.as_str(), inf, sup) && !str_contains_char(line.as_str(), '\'') {
                let w = to_lower(line.as_str());
                insert_sorted_unique(&mut words, w);
                proof {
                    assert forall|x: Seq<char>|
                        views_of(words@).contains(x) implies (exists|j: int|
                        0 <= j < i + 1 && eligible_line(#[trigger] ls[j], inf as nat, sup as nat)
                            && x == lower_seq(ls[j])) by {
                        if x == lower_seq(ls[i as int]) {
                            assert(eligible_line(ls[i as int], inf as nat, sup as nat));
                        }
                    }
                }
            } else {
                proof {
                    assert forall|w: Seq<char>|
                        views_of(words@).contains(w) <==> (exists|j: int|
                            0 <= j < i + 1 && eligible_line(#[trigger] ls[j], inf as nat, sup as nat)
                                && w == lower_seq(ls[j])) by {
                        assert(!eligible_line(ls[i as int], inf as nat, sup as nat));
                        assert forall|j: int|
                            0 <= j < i + 1 && eligible_line(#[trigger] ls[j], inf as nat, sup as nat)
                                implies j < i by {}
                    }
                }
            }
            i = i + 1;
        }
        let d = Dictionary { words };
        proof {
            assert forall|k: int|
                0 <= k < d@.len() implies inf <= (#[trigger] d@[k]).len() <= sup && !d@[k].contains(
                '\'',
            ) && lower_seq(d@[k]) == d@[k] by {
                assert(d@.contains(d@[k]));
                let j = choose|j: int|
                    0 <= j < ls.len() && eligible_line(#[trigger] ls[j], inf as nat, sup as nat)
                        && d@[k] == lower_seq(ls[j]);
                lemma_lower_seq_apostrophe(ls[j]);
                lemma_lower_seq_idempotent(ls[j]);
            }
            crate::order::lemma_sorted_strict_unique(d@);
        }
        d
    }

    /// Render the store as a space-joined listing of its leading words, as
    /// many as fit in the output ceiling, or a fixed sentinel when the store
    /// is empty.
    pub fn to_string(&self) -> (r: String)
        ensures
            self@.len() == 0 ==> r@ == "No words found"@,
            self@.len() > 0 ==> r@ == join_words(
                self@.take(shown_count(self@, OUTPUT_LIMIT as int)),
            ),
    {
        if self.words.len() == 0 {
            return "No words found".to_owned();
        }
        let ghost ws = self@;
        let mut out = String::new();
        let mut total: usize = 0;
        let mut i: usize = 0;
        let mut stop = false;
        proof {
            assert(ws.skip(0) =~= ws);
        }
        while i < self.words.len() && !stop
            invariant
                i <= ws.len(),
                ws == views_of(self.words@),
                total <= OUTPUT_LIMIT,
                out@ == join_words(ws.take(i as int)),
                !stop ==> shown_count(ws, OUTPUT_LIMIT as int) == i + shown_count(
                    ws.skip(i as int),
                    OUTPUT_LIMIT - total,
                ),
                stop ==> shown_count(ws, OUTPUT_LIMIT as int) == i,
            decreases ws.len() - i + (if stop {
                0int
            } else {
                1int
            }),
        {
            let w = &self.words[i];
            let l = w.as_str().unicode_len();
            proof {
                assert(ws[i as int] == w@);
                assert(ws.skip(i as int)[0] == ws[i as int]);
            }
            if l >= OUTPUT_LIMIT - total {
                stop = true;
            } else {
                let ghost prev_out = out@;
                if i > 0 {
                    push_char(&mut out, ' ');
                }
                out.append(w.as_str());
                proof {
                    assert(ws.take(i + 1).drop_last() =~= ws.take(i as int));
                    assert(ws.take(i + 1).last() == ws[i as int]);
                    if i == 0 {
                        assert(out@ =~= ws.take(1)[0]);
                    } else {
                        assert(out@ =~= join_words(ws.take(i as int)) + seq![' '] + ws[i as int]);
                    }
                    assert(ws.skip(i as int).skip(1) =~= ws.skip(i + 1));
                }
                total = total + l + 1;
                i = i + 1;
            }
        }
        proof {
            if !stop {
                assert(i == ws.len());
                assert(ws.skip(i as int).len() == 0);
            }
            assert(shown_count(ws, OUTPUT_LIMIT as int) == i);
        }
        out
    }

    /// The word at the pseudo-random index the seed mixes to.
    pub fn pick(&self, seed: u64) -> (r: String)
        requires
            self@.len() > 0,
        ensures
            r@ == self@[mix(seed) as int % self@.len() as int],
            self@.contains(r@),
    {
        let len = self.words.len();
        let m = mix_exec(seed);
        let idx64 = m % (len as u64);
        let idx = idx64 as usize;
        proof {
            assert(idx64 < len as u64);
            assert(self@[idx as int] == self.words@[idx as int]@);
        }
        let r = self.words[idx].clone();
        proof {
            assert(self@.contains(self@[idx as int]));
        }
        r
    }

    /// One pseudo-randomly chosen word of the store, or a fixed sentinel on
    /// an empty store.  The seed is drawn fresh from the clock on every
    /// call, so no particular word is promised, only membership.
    pub fn access_random(&self) -> (r: String)
        ensures
            self@.len() == 0 ==> r@ == "No word found"@,
            self@.len() > 0 ==> self@.contains(r@),
    {
        if self.words.len() == 0 {
            return "No word found".to_owned();
        }
        let seed = time_seed();
        self.pick(seed)
    }

    /// Keep only the words that contain none of the letters of `comp`.
    pub fn filter_by_complement(&self, comp: &Vec<char>) -> (d: Dictionary)
        ensures
            d@ == complement_filtered(self@, comp@),
            self.wf() ==> d.wf(),
    {
        let ghost ws = self@;
        let ghost p = |w: Seq<char>| avoids_all(w, comp@);
        let mut words: Vec<String> = Vec::new();
        let mut i: usize = 0;
        while i < self.words.len()
            invariant
                i <= self.words@.len(),
                ws == views_of(self.words@),
                p == (|w: Seq<char>| avoids_all(w, comp@)),
                views_of(words@) == ws.take(i as int).filter(p),
            decreases self.words@.len() - i,
        {
            proof {
                lemma_filter_take_step(ws, p, i as int);
                assert(ws[i as int] == self.words@[i as int]@);
            }
            let ghost prev = words@;
            if filter_letter(&self.words[i], comp) {
                words.push(self.words[i].clone());
                proof {
                    assert(views_of(words@) =~= views_of(prev).push(ws[i as int]));
                }
            }
            i = i + 1;
        }
        proof {
            assert(ws.take(ws.len() as int) =~= ws);
            if self.wf() {
                lemma_filter_sorted(ws, p);
            }
        }
        Dictionary { words }
    }

    /// Keep only the words that stay within every occurrence cap of `dist`.
    pub fn filter_by_distribution(&self, dist: Vec<(char, usize)>) -> (d: Dictionary)
        ensures
            d@ == distribution_filtered(self@, dist@),
            self.wf() ==> d.wf(),
    {
        let ghost ws = self@;
        let ghost p = |w: Seq<char>| within_caps(w, dist@);
        let mut words: Vec<String> = Vec::new();
        let mut i: usize = 0;
        while i < self.words.len()
            invariant
                i <= self.words@.len(),
                ws == views_of(self.words@),
                p == (|w: Seq<char>| within_caps(w, dist@)),
                views_of(words@) == ws.take(i as int).filter(p),
            decreases self.words@.len() - i,
        {
            proof {
                lemma_filter_take_step(ws, p, i as int);
                assert(ws[i as int] == self.words@[i as int]@);
            }
            let ghost prev = words@;
            if filter_distribution_max(self.words[i].as_str(), &dist) {
                words.push(self.words[i].clone());
                proof {
                    assert(views_of(words@) =~= views_of(prev).push(ws[i as int]));
                }
            }
            i = i + 1;
        }
        proof {
            assert(ws.take(ws.len() as int) =~= ws);
            if self.wf() {
                lemma_filter_sorted(ws, p);
            }
        }
        Dictionary { words }
    }

    /// Keep only the words that match the pattern: same length, agreeing
    /// with every non-wildcard pattern position.
    pub fn filter_by_pattern(&self, pattern: &str) -> (d: Dictionary)
        ensures
            d@ == pattern_filtered(self@, pattern@),
            self.wf() ==> d.wf(),
    {
        let ghost ws = self@;
        let ghost p = |w: Seq<char>| matches_pattern(w, pattern@);
        let pat = pattern_parser(pattern);
        let n = pattern.unicode_len();
        let mut words: Vec<String> = Vec::new();
        let mut i: usize = 0;
        while i < self.words.len()
            invariant
                i <= self.words@.len(),
                ws == views_of(self.words@),
                p == (|w: Seq<char>| matches_pattern(w, pattern@)),
                pat@ == pins_of(pattern@),
                n == pattern@.len(),
                views_of(words@) == ws.take(i as int).filter(p),
            decreases self.words@.len() - i,
        {
            proof {
                lemma_filter_take_step(ws, p, i as int);
                assert(ws[i as int] == self.words@[i as int]@);
            }
            let ghost prev = words@;
            let word = &self.words[i];
            let same_len = word.as_str().unicode_len() == n;
            if filter_pattern(word.as_str(), &pat) && same_len {
                proof {
                    lemma_pins_characterize_pattern(word@, pattern@);
                }
                words.push(word.clone());
                proof {
                    assert(views_of(words@) =~= views_of(prev).push(ws[i as int]));
                }
            } else {
                proof {
                    if same_len {
                        lemma_pins_characterize_pattern(word@, pattern@);
                    }
                    assert(!p(ws[i as int]));
                }
            }
            i = i + 1;
        }
        proof {
            assert(ws.take(ws.len() as int) =~= ws);
            if self.wf() {
                lemma_filter_sorted(ws, p);
            }
        }
        Dictionary { words }
    }

    /// Keep only the words that share at least one letter with `substr`.
    pub fn filter_by_substr_inclusive(&self, substr: &str) -> (d: Dictionary)
        ensures
            d@ == inclusive_filtered(self@, substr@),
            self.wf() ==> d.wf(),
    {
        let ghost ws = self@;
        let ghost p = |w: Seq<char>| shares_a_letter(w, substr@);
        let charvec = unique_input(substr);
        let mut words: Vec<String> = Vec::new();
        let mut i: usize = 0;
        while i < self.words.len()
            invariant
                i <= self.words@.len(),
                ws == views_of(self.words@),
                p == (|w: Seq<char>| shares_a_letter(w, substr@)),
                forall|c: char| charvec@.contains(c) <==> substr@.contains(c),
                views_of(words@) == ws.take(i as int).filter(p),
            decreases self.words@.len() - i,
        {
            proof {
                lemma_filter_take_step(ws, p, i as int);
                assert(ws[i as int] == self.words@[i as int]@);
            }
            let ghost prev = words@;
            let word = &self.words[i];
            let keep = shares_any(word, &charvec);
            proof {
                assert(keep == p(ws[i as int])) by {
                    if shares_a_letter(word@, charvec@) {
                        let k = choose|k: int|
                            0 <= k < charvec@.len() && word@.contains(charvec@[k]);
                        assert(substr@.contains(charvec@[k]));
                        let m = choose|m: int| 0 <= m < substr@.len() && substr@[m] == charvec@[k];
                        assert(word@.contains(substr@[m]));
                    }
                    if shares_a_letter(word@, substr@) {
                        let k = choose|k: int| 0 <= k < substr@.len() && word@.contains(substr@[k]);
                        assert(charvec@.contains(substr@[k]));
                        let m = choose|m: int|
                            0 <= m < charvec@.len() && charvec@[m] == substr@[k];
                        assert(word@.contains(charvec@[m]));
                    }
                }
            }
            if keep {
                words.push(word.clone());
                proof {
                    assert(views_of(words@) =~= views_of(prev).push(ws[i as int]));
                }
            }
            i = i + 1;
        }
        proof {
            assert(ws.take(ws.len() as int) =~= ws);
            if self.wf() {
                lemma_filter_sorted(ws, p);
            }
        }
        Dictionary { words }
    }

    /// Keep only the words whose letters can be drawn from `substr`: no
    /// alphabet letter outside it, and no letter more often than it occurs
    /// there.  Implemented as the complement filter followed by the
    /// distribution filter.
    pub fn filter_by_substr(&self, substr: &str) -> (d: Dictionary)
        ensures
            d@ == strict_filtered(self@, substr@),
            self.wf() ==> d.wf(),
    {
        let ghost ws = self@;
        let lset = unique_input(substr);
        let comp = complement(&lset);
        let dist = input_distribution(substr, &lset);
        let interim = self.filter_by_complement(&comp);
        let d = interim.filter_by_distribution(dist);
        proof {
            let pc = |w: Seq<char>| avoids_all(w, comp@);
            let pd = |w: Seq<char>| within_caps(w, dist@);
            let pb = |w: Seq<char>| pc(w) && pd(w);
            let ps = |w: Seq<char>| strict_matches(w, substr@);
            assert(dist@.map_values(|pr: (char, usize)| pr.0) =~= lset@);
            assert forall|i: int|
                0 <= i < dist@.len() implies (#[trigger] dist@[i]).1 == count_of(
                substr@,
                dist@[i].0,
            ) by {
                assert(dist@[i].0 == lset@[i] && dist@[i].1 == count_of(substr@, lset@[i]));
            }
            lemma_filter_compose(ws, pc, pd);
            assert forall|w: Seq<char>| #[trigger] pb(w) == ps(w) by {
                lemma_strict_equivalence(w, substr@, dist@, comp@);
            }
            lemma_filter_congruent(ws, pb, ps);
            if self.wf() {
                lemma_filter_sorted(ws, ps);
            }
        }
        d
    }
}

/// The complement filter and the distribution filter built from one letter
/// spec together implement strict matching against it.
proof fn lemma_strict_equivalence(
    w: Seq<char>,
    s: Seq<char>,
    dist: Seq<(char, usize)>,
    comp: Seq<char>,
)
    requires
        comp == complement_of(dist.map_values(|pr: (char, usize)| pr.0)),
        forall|c: char|
            dist.map_values(|pr: (char, usize)| pr.0).contains(c) <==> s.contains(c),
        forall|i: int|
            0 <= i < dist.len() ==> (#[trigger] dist[i]).1 == count_of(s, dist[i].0),
    ensures
        (avoids_all(w, comp) && within_caps(w, dist)) == strict_matches(w, s),
{
    let lset = dist.map_values(|pr: (char, usize)| pr.0);
    let pc = |c: char| !lset.contains(c);
    if avoids_all(w, comp) && within_caps(w, dist) {
        assert forall|c: char|
            latin_alphabet().contains(c) && !s.contains(c) implies !w.contains(c) by {
            let ai = choose|ai: int|
                0 <= ai < latin_alphabet().len() && latin_alphabet()[ai] == c;
            assert(pc(latin_alphabet()[ai]));
            latin_alphabet().lemma_filter_contains(pc, ai);
            assert(comp.contains(c));
            let ci = choose|ci: int| 0 <= ci < comp.len() && comp[ci] == c;
            assert(!w.contains(comp[ci]));
        }
        assert forall|c: char| s.contains(c) implies count_of(w, c) <= count_of(s, c) by {
            assert(lset.contains(c));
            let li = choose|li: int| 0 <= li < lset.len() && lset[li] == c;
            assert(dist[li].0 == c);
            assert(count_of(w, dist[li].0) <= dist[li].1);
        }
    }
    if strict_matches(w, s) {
        assert forall|i: int| 0 <= i < comp.len() implies !w.contains(#[trigger] comp[i]) by {
            crate::filtering::lemma_filter_membership(latin_alphabet(), pc, i);
            latin_alphabet().lemma_filter_pred(pc, i);
            assert(!lset.contains(comp[i]));
            assert(!s.contains(comp[i]));
        }
        assert forall|i: int|
            0 <= i < dist.len() implies count_of(w, (#[trigger] dist[i]).0) <= dist[i].1 by {
            assert(lset[i] == dist[i].0);
            assert(lset.contains(dist[i].0));
            assert(s.contains(dist[i].0));
        }
    }
}

} // verus!
