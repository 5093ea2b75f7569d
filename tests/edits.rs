use spellfix::word_set::WordSet;

#[test]
fn deletes() {
    let mut set = WordSet::new();
    let word = "abc";

    spellfix::edits::deletes(word, &mut set);

    assert_eq!(set.len(), 3);
    assert!(set.contains("bc"));
    assert!(set.contains("ac"));
    assert!(set.contains("ab"));
}

#[test]
fn inserts() {
    let mut set = WordSet::new();
    let word = "abc";

    spellfix::edits::inserts(word, &mut set);

    assert_eq!(set.len(), ((word.len() + 1) * 26) - word.len());
}

#[test]
fn replaces() {
    let mut set = WordSet::new();
    let word = "abc";

    spellfix::edits::replaces(word, &mut set);

    assert_eq!(set.len(), ((word.len()) * 26) - (word.len() - 1));
}

#[test]
fn transposes() {
    let mut set = WordSet::new();
    let word = "abc";

    spellfix::edits::transposes(word, &mut set);

    assert_eq!(set.len(), word.len() - 1);
}

#[test]
fn edit1() {
    let word = "somthing";

    let set = spellfix::edits::edits1(word);

    assert_eq!(set.len(), 442);
}

#[test]
fn transposes_of_abc_swap_neighbours() {
    let mut set = WordSet::new();
    spellfix::edits::transposes("abc", &mut set);
    assert!(set.contains("bac"));
    assert!(set.contains("acb"));
    assert!(!set.contains("abc"));
}

#[test]
fn empty_word_has_only_insertions() {
    let mut set = WordSet::new();
    spellfix::edits::deletes("", &mut set);
    spellfix::edits::transposes("", &mut set);
    spellfix::edits::replaces("", &mut set);
    assert_eq!(set.len(), 0);
    spellfix::edits::inserts("", &mut set);
    assert_eq!(set.len(), 26);
    assert!(set.contains("a"));
    assert!(set.contains("z"));
    assert_eq!(spellfix::edits::edits1("").len(), 26);
}

#[test]
fn single_letter_has_no_transposition() {
    let mut set = WordSet::new();
    spellfix::edits::transposes("x", &mut set);
    assert_eq!(set.len(), 0);
}

#[test]
fn family_sizes_without_collisions() {
    let word = "xyz";
    let mut d = WordSet::new();
    spellfix::edits::deletes(word, &mut d);
    assert!(d.len() <= 3);
    let mut r = WordSet::new();
    spellfix::edits::replaces(word, &mut r);
    assert!(r.len() <= 26 * 3);
    let mut i = WordSet::new();
    spellfix::edits::inserts(word, &mut i);
    assert!(i.len() <= 26 * 4);
    let mut t = WordSet::new();
    spellfix::edits::transposes(word, &mut t);
    assert!(t.len() <= 2);
}

#[test]
fn repeated_letters_collide() {
    let mut set = WordSet::new();
    spellfix::edits::deletes("aab", &mut set);
    assert_eq!(set.len(), 2);
    let mut t = WordSet::new();
    spellfix::edits::transposes("aa", &mut t);
    assert_eq!(t.len(), 1);
    assert!(t.contains("aa"));
}

#[test]
fn replacement_and_insertion_use_lowercase_letters() {
    let mut set = WordSet::new();
    spellfix::edits::replaces("cat", &mut set);
    assert!(set.contains("bat"));
    assert!(set.contains("cut"));
    assert!(set.contains("caz"));
    assert!(!set.contains("Cat"));
    let mut ins = WordSet::new();
    spellfix::edits::inserts("cat", &mut ins);
    assert!(ins.contains("scat"));
    assert!(ins.contains("cart"));
    assert!(ins.contains("cats"));
}

#[test]
fn edits1_has_no_duplicates() {
    let v = spellfix::edits::edits1("abc");
    for i in 0..v.len() {
        for j in (i + 1)..v.len() {
            assert_ne!(v[i], v[j]);
        }
    }
    assert!(v.contains(&"bc".to_string()));
    assert!(v.contains(&"bac".to_string()));
    assert!(v.contains(&"abd".to_string()));
    assert!(v.contains(&"abcd".to_string()));
}

#[test]
fn edits2_reaches_two_edits() {
    let v = spellfix::edits::edits2("ab");
    assert!(v.contains(&"b".to_string()));
    assert!(v.contains(&"abcd".to_string()));
    assert!(v.contains(&"".to_string()));
    assert!(v.contains(&"ba".to_string()));
    assert!(v.contains(&"xy".to_string()));
    assert!(!v.contains(&"abcde".to_string()));
    for i in 0..v.len() {
        for j in (i + 1)..v.len() {
            assert_ne!(v[i], v[j]);
        }
    }
}

#[test]
fn unicode_word_is_edited_by_characters() {
    let mut set = WordSet::new();
    spellfix::edits::deletes("été", &mut set);
    assert_eq!(set.len(), 3);
    assert!(set.contains("éé"));
    assert!(set.contains("té"));
    assert!(set.contains("ét"));
}
