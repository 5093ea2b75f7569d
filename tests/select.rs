use spellfix::frequency::Frequency;
use spellfix::select::{candidates, find_most_likely, known, EditDistanceLevel};
use spellfix::text::{correct, correct_tokens, tokenize, vocabulary};
use spellfix::word_set::WordSet;

fn set_of(words: &[&str]) -> WordSet {
    let mut set = WordSet::new();
    for w in words {
        set.insert(w.to_string());
    }
    set
}

fn strings(words: &[&str]) -> Vec<String> {
    words.iter().map(|w| w.to_string()).collect()
}

#[test]
fn known_word_is_exact() {
    let k = set_of(&["the", "then", "they"]);
    let (c, level) = candidates("the", &k);
    assert_eq!(level, EditDistanceLevel::Exact);
    assert_eq!(c, strings(&["the"]));
}

#[test]
fn one_edit_wins_over_two() {
    let k = set_of(&["cat", "cart", "carts"]);
    let (mut c, level) = candidates("cst", &k);
    assert_eq!(level, EditDistanceLevel::One);
    c.sort();
    assert_eq!(c, strings(&["cat"]));
}

#[test]
fn two_edits_when_none_at_one() {
    let k = set_of(&["carts", "dog"]);
    let (c, level) = candidates("cart", &k);
    assert_eq!(level, EditDistanceLevel::One);
    assert_eq!(c, strings(&["carts"]));
    let (c, level) = candidates("crt", &k);
    assert_eq!(level, EditDistanceLevel::Two);
    assert_eq!(c, strings(&["carts"]));
}

#[test]
fn nothing_near_keeps_the_word() {
    let k = set_of(&["elephant"]);
    let (c, level) = candidates("zq", &k);
    assert_eq!(level, EditDistanceLevel::Unchanged);
    assert_eq!(c, strings(&["zq"]));
}

#[test]
fn known_filters_in_order() {
    let k = set_of(&["b", "d"]);
    assert_eq!(known(&strings(&["a", "d", "c", "b"]), &k), Some(strings(&["d", "b"])));
    assert_eq!(known(&strings(&["a", "c"]), &k), None);
    assert_eq!(known(&Vec::new(), &k), None);
}

#[test]
fn most_likely_is_most_frequent() {
    let freq = Frequency::new(vec!["a", "b", "b", "c"]);
    assert_eq!(find_most_likely(&strings(&["a", "b", "c"]), &freq), "b");
}

#[test]
fn most_likely_ties_keep_the_first() {
    let freq = Frequency::new(vec!["a", "b", "c", "c", "b"]);
    assert_eq!(find_most_likely(&strings(&["a", "c", "b"]), &freq), "c");
    assert_eq!(find_most_likely(&strings(&["x", "y"]), &freq), "x");
}

#[test]
fn tokenize_splits_on_non_word_characters() {
    let t = tokenize("Hello, world_1! It's  fine.");
    assert_eq!(t, strings(&["Hello", "world_1", "It", "s", "fine"]));
    assert_eq!(tokenize(""), Vec::<String>::new());
    assert_eq!(tokenize(" ,. "), Vec::<String>::new());
}

#[test]
fn vocabulary_keeps_each_word_once() {
    let v = vocabulary(&strings(&["a", "b", "a", "c", "b"]));
    assert_eq!(v.len(), 3);
    assert!(v.contains("a") && v.contains("b") && v.contains("c"));
    assert!(!v.contains("d"));
}

#[test]
fn corrects_somthing_to_something() {
    let mut corpus = String::new();
    for _ in 0..20 {
        corpus.push_str("Something is there, something else. ");
    }
    corpus.push_str("nothing soothing seething.");
    let r = correct(&corpus, "somthing");
    assert_eq!(r, ("something".to_string(), EditDistanceLevel::One));
}

#[test]
fn correction_prefers_frequent_word() {
    let tokens = strings(&["cat", "cot", "cot", "cut"]);
    assert_eq!(correct_tokens(&tokens, "cit"), ("cot".to_string(), EditDistanceLevel::One));
    assert_eq!(correct_tokens(&tokens, "cat"), ("cat".to_string(), EditDistanceLevel::Exact));
    assert_eq!(correct_tokens(&tokens, "qqqq"), ("qqqq".to_string(), EditDistanceLevel::Unchanged));
}
