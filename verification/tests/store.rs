use word_assistant::dictionary::Dictionary;
use word_assistant::text::to_lower;

fn corpus(words: &[&str]) -> Vec<String> {
    words.iter().map(|w| w.to_string()).collect()
}

#[test]
fn load_filters_sorts_dedups() {
    let lines = corpus(&["Cat", "cat", "don't", "bee", "a", "elephant", "bee"]);
    let d = Dictionary::load(&lines, 2, 4);
    assert_eq!(d.words(), &corpus(&["bee", "cat"]));
}

#[test]
fn load_keeps_range_bounds_inclusive() {
    let lines = corpus(&["ab", "abc", "abcd", "abcde"]);
    let d = Dictionary::load(&lines, 3, 4);
    assert_eq!(d.words(), &corpus(&["abc", "abcd"]));
}

#[test]
fn load_lowercases_everything() {
    let lines = corpus(&["HELLO", "World"]);
    let d = Dictionary::load(&lines, 0, 22);
    assert_eq!(d.words(), &corpus(&["hello", "world"]));
}

#[test]
fn empty_store_sentinels() {
    let lines: Vec<String> = Vec::new();
    let d = Dictionary::load(&lines, 0, 22);
    assert_eq!(d.len(), 0);
    assert_eq!(d.to_string(), "No words found");
    assert_eq!(d.access_random(), "No word found");
}

#[test]
fn to_string_joins_with_spaces() {
    let lines = corpus(&["cat", "car", "bar", "art"]);
    let d = Dictionary::load(&lines, 0, 22);
    assert_eq!(d.to_string(), "art bar car cat");
}

#[test]
fn to_string_truncates_at_ceiling() {
    // 160 distinct three-letter words cost four characters each; only the
    // first 150 fit under the 600-character ceiling.
    let mut words: Vec<String> = Vec::new();
    for a in 0..13u8 {
        for b in 0..13u8 {
            words.push(format!("{}{}x", (b'a' + a) as char, (b'a' + b) as char));
        }
    }
    words.truncate(160);
    let d = Dictionary::load(&words, 0, 22);
    let expected = words[..150].join(" ");
    assert_eq!(d.to_string(), expected);
}

#[test]
fn access_random_returns_a_member() {
    let lines = corpus(&["cat", "car", "bar", "art"]);
    let d = Dictionary::load(&lines, 0, 22);
    for _ in 0..10 {
        let w = d.access_random();
        assert!(d.words().contains(&w));
    }
}

#[test]
fn pick_uses_the_mixed_seed_modulo_len() {
    let lines = corpus(&["art", "bar", "car", "cat"]);
    let d = Dictionary::load(&lines, 0, 22);
    for seed in [0u64, 1, 7, 42, 0xDEAD_BEEF, u64::MAX] {
        let mut x = seed;
        x ^= x.wrapping_shr(12);
        x ^= x.wrapping_shl(25);
        x ^= x.wrapping_shr(27);
        x = x.wrapping_mul(0x2545F4914F6CDD1D);
        let expected = &d.words()[(x % 4) as usize];
        assert_eq!(&d.pick(seed), expected);
    }
}

#[test]
fn lowercasing_is_ascii_only_and_total() {
    assert_eq!(to_lower("HeLLo"), "hello");
    assert_eq!(to_lower("A"), "a");
    assert_eq!(to_lower("already lower 123"), "already lower 123");
    assert_eq!(to_lower(""), "");
}
