use word_assistant::dictionary::Dictionary;
use word_assistant::letters::{complement, input_distribution, unique_input};

fn corpus(words: &[&str]) -> Vec<String> {
    words.iter().map(|w| w.to_string()).collect()
}

#[test]
fn strict_letter_spec_scenario() {
    let lines = corpus(&["cat", "car", "bar", "art"]);
    let d = Dictionary::load(&lines, 0, 22);
    let filtered = d.filter_by_substr("cart");
    // "bar" needs a 'b', which "cart" does not offer
    assert_eq!(filtered.words(), &corpus(&["art", "car", "cat"]));
}

#[test]
fn strict_letter_spec_caps_multiplicity() {
    // the spec "aab" offers two a's and one b
    let lines = corpus(&["aa", "aaa", "ab", "b", "aab"]);
    let d = Dictionary::load(&lines, 0, 22);
    let filtered = d.filter_by_substr("aab");
    assert_eq!(filtered.words(), &corpus(&["aa", "aab", "ab", "b"]));
}

#[test]
fn inclusive_letter_spec_keeps_any_shared_letter() {
    let lines = corpus(&["cat", "dog", "bee", "fig"]);
    let d = Dictionary::load(&lines, 0, 22);
    let filtered = d.filter_by_substr_inclusive("og");
    assert_eq!(filtered.words(), &corpus(&["dog", "fig"]));
}

#[test]
fn strict_output_is_subset_of_inclusive_output() {
    let lines = corpus(&["cat", "car", "bar", "art", "tart", "attic"]);
    let d = Dictionary::load(&lines, 0, 22);
    let strict = d.filter_by_substr("cart");
    let inclusive = d.filter_by_substr_inclusive("cart");
    for w in strict.words() {
        assert!(inclusive.words().contains(w));
    }
}

#[test]
fn pattern_scenario_matches_all() {
    let lines = corpus(&["cat", "art", "bat", "cot"]);
    let d = Dictionary::load(&lines, 0, 22);
    let filtered = d.filter_by_pattern("--t");
    assert_eq!(filtered.words(), &corpus(&["art", "bat", "cat", "cot"]));
}

#[test]
fn pattern_pins_position_and_length() {
    let lines = corpus(&["cat", "cart", "cut", "act", "ct"]);
    let d = Dictionary::load(&lines, 0, 22);
    let filtered = d.filter_by_pattern("c-t");
    assert_eq!(filtered.words(), &corpus(&["cat", "cut"]));
}

#[test]
fn all_wildcard_pattern_keeps_every_word_of_that_length() {
    let lines = corpus(&["cat", "dog", "bee", "ant", "horse"]);
    let d = Dictionary::load(&lines, 0, 22);
    let filtered = d.filter_by_pattern("---");
    assert_eq!(filtered.words(), &corpus(&["ant", "bee", "cat", "dog"]));
}

#[test]
fn filters_are_idempotent() {
    let lines = corpus(&["cat", "car", "bar", "art", "tart"]);
    let d = Dictionary::load(&lines, 0, 22);

    let strict_once = d.filter_by_substr("cart");
    let strict_twice = strict_once.filter_by_substr("cart");
    assert_eq!(strict_once.words(), strict_twice.words());

    let incl_once = d.filter_by_substr_inclusive("cart");
    let incl_twice = incl_once.filter_by_substr_inclusive("cart");
    assert_eq!(incl_once.words(), incl_twice.words());

    let pat_once = d.filter_by_pattern("--t");
    let pat_twice = pat_once.filter_by_pattern("--t");
    assert_eq!(pat_once.words(), pat_twice.words());

    let comp = complement(&unique_input("cart"));
    let comp_once = d.filter_by_complement(&comp);
    let comp_twice = comp_once.filter_by_complement(&comp);
    assert_eq!(comp_once.words(), comp_twice.words());

    let dist = input_distribution("cart", &unique_input("cart"));
    let dist_once = d.filter_by_distribution(dist.clone());
    let dist_twice = dist_once.filter_by_distribution(dist);
    assert_eq!(dist_once.words(), dist_twice.words());
}

#[test]
fn complement_is_the_alphabet_without_the_spec_letters() {
    let comp = complement(&unique_input("cart"));
    let expected: Vec<char> = "bdefghijklmnopqsuvwxyz".chars().collect();
    assert_eq!(comp, expected);
}

#[test]
fn input_distribution_counts_occurrences() {
    let lset = unique_input("aab");
    let mut dist = input_distribution("aab", &lset);
    dist.sort();
    assert_eq!(dist, vec![('a', 2), ('b', 1)]);
}

#[test]
fn unique_input_drops_duplicates() {
    let mut letters = unique_input("banana");
    letters.sort();
    assert_eq!(letters, vec!['a', 'b', 'n']);
}

#[test]
fn empty_store_after_filtering_renders_sentinels() {
    let lines = corpus(&["cat", "dog"]);
    let d = Dictionary::load(&lines, 0, 22);
    let filtered = d.filter_by_pattern("zzz");
    assert_eq!(filtered.len(), 0);
    assert_eq!(filtered.to_string(), "No words found");
    assert_eq!(filtered.access_random(), "No word found");
}
