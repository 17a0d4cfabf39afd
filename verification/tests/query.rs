use word_assistant::query::run_query;

fn corpus(words: &[&str]) -> Vec<String> {
    words.iter().map(|w| w.to_string()).collect()
}

#[test]
fn query_composes_all_criteria() {
    let lines = corpus(&["cat", "car", "bar", "art", "tart", "at"]);
    let d = run_query(&lines, "3", "cart", true, "--t");
    // length 3, letters drawn from "cart", 't' pinned at the end
    assert_eq!(d.words(), &corpus(&["art", "cat"]));
}

#[test]
fn query_without_criteria_keeps_the_default_range() {
    let lines = corpus(&["cat", "car", "bar", "art"]);
    let d = run_query(&lines, "", "", true, "");
    assert_eq!(d.words(), &corpus(&["art", "bar", "car", "cat"]));
}

#[test]
fn query_falls_back_on_unparsable_length_spec() {
    let lines = corpus(&["cat", "elephant"]);
    let d = run_query(&lines, "not a range", "", false, "");
    assert_eq!(d.words(), &corpus(&["cat", "elephant"]));
}

#[test]
fn query_inclusive_mode_keeps_shared_letters() {
    let lines = corpus(&["cat", "dog", "bee"]);
    let d = run_query(&lines, "", "o", false, "");
    assert_eq!(d.words(), &corpus(&["dog"]));
}

#[test]
fn query_with_no_match_renders_the_sentinel() {
    let lines = corpus(&["cat", "dog"]);
    let d = run_query(&lines, "", "", true, "xxxx");
    assert_eq!(d.to_string(), "No words found");
    assert_eq!(d.access_random(), "No word found");
}
