use spellfix::frequency::Frequency;

#[test]
fn frequency() {
    let words = vec!["the", "the", "the", "ploy"];
    let frequency = Frequency::new(words);

    assert_eq!(frequency.get("the"), Some(3));
    assert_eq!(frequency.get("ploy"), Some(1));
    assert_eq!(frequency.get("dada"), None);
}

#[test]
fn count_ratio() {
    let words = vec!["the", "the", "the", "ploy"];
    let frequency = Frequency::new(words);

    let ratio = |w: &str| frequency.count(w) as f64 / frequency.num_words() as f64;
    assert_eq!(ratio("the"), 0.75);
    assert_eq!(ratio("ploy"), 0.25);
    assert_eq!(ratio("dada"), 0.0);
}

#[test]
fn words_are_counted_in_lowercase() {
    let frequency = Frequency::new(vec!["The", "THE", "the", "Ploy"]);
    assert_eq!(frequency.get("the"), Some(3));
    assert_eq!(frequency.get("ploy"), Some(1));
    assert_eq!(frequency.get("The"), None);
    assert_eq!(frequency.num_words(), 4);
}

#[test]
fn empty_frequency() {
    let frequency = Frequency::new(vec![]);
    assert_eq!(frequency.num_words(), 0);
    assert_eq!(frequency.count("a"), 0);
}

#[test]
fn folded_words_are_counted_as_given() {
    let words = vec!["a".to_string(), "B".to_string(), "a".to_string()];
    let frequency = Frequency::from_folded(&words);
    assert_eq!(frequency.count("a"), 2);
    assert_eq!(frequency.count("B"), 1);
    assert_eq!(frequency.count("b"), 0);
    assert_eq!(frequency.num_words(), 3);
}
