use vstd::prelude::*;
use crate::word_set::{views, WordSet};

verus! {

/// The letters that replacements and insertions draw from.
pub const ALPHABET: &'static str = "abcdefghijklmnopqrstuvwxyz";

pub open spec fn is_letter(c: char) -> bool {
    ALPHABET@.contains(c)
}

/// The word with the character at `i` swapped with the one after it.
pub open spec fn transposed(w: Seq<char>, i: int) -> Seq<char> {
    w.update(i, w[i + 1]).update(i + 1, w[i])
}

/// Words obtained by removing one character.
pub open spec fn deletes_of(w: Seq<char>) -> Set<Seq<char>> {
    Set::new(|s: Seq<char>| exists|i: int| 0 <= i < w.len() && s == w.remove(i))
}

/// Words obtained by swapping two adjacent characters.
pub open spec fn transposes_of(w: Seq<char>) -> Set<Seq<char>> {
    Set::new(|s: Seq<char>| exists|i: int| 0 <= i < w.len() - 1 && s == transposed(w, i))
}

/// Words obtained by putting a letter in place of one character.
pub open spec fn replaces_of(w: Seq<char>) -> Set<Seq<char>> {
    Set::new(
        |s: Seq<char>| exists|i: int, c: char| 0 <= i < w.len() && is_letter(c) && s == w.update(i, c),
    )
}

/// Words obtained by putting a letter before any position, or at the end.
pub open spec fn inserts_of(w: Seq<char>) -> Set<Seq<char>> {
    Set::new(
        |s: Seq<char>| exists|i: int, c: char| 0 <= i <= w.len() && is_letter(c) && s == w.insert(i, c),
    )
}

/// Words at one edit from `w`.
pub open spec fn edits1_of(w: Seq<char>) -> Set<Seq<char>> {
    deletes_of(w) + transposes_of(w) + replaces_of(w) + inserts_of(w)
}

/// Words reached from `w` by one edit applied to a word at one edit from `w`.
pub open spec fn edits2_of(w: Seq<char>) -> Set<Seq<char>> {
    Set::new(|s: Seq<char>| exists|v: Seq<char>| edits1_of(w).contains(v) && edits1_of(v).contains(s))
}

/// Adds to `set` every word obtained from `word` by removing one character.
pub fn deletes(word: &str, set: &mut WordSet)
    requires
        old(set).wf(),
    ensures
        final(set).wf(),
        final(set)@ == old(set)@ + deletes_of(word@),
{
    let n = word.unicode_len();
    let ghost w = word@;
    let mut pos: usize = 0;
    assert(set@ =~= old(set)@ + Set::new(
        |s: Seq<char>| exists|i: int| 0 <= i < 0 && s == w.remove(i),
    ));
    while pos < n
        invariant
            w == word@,
            n == w.len(),
            pos <= n,
            set.wf(),
            set@ == old(set)@ + Set::new(
                |s: Seq<char>| exists|i: int| 0 <= i < pos && s == w.remove(i),
            ),
        decreases n - pos,
    {
        let mut new = String::new();
        new.append(word.substring_char(0, pos));
        new.append(word.substring_char(pos + 1, n));
        assert(new@ =~= w.remove(pos as int));
        let ghost before = set@;
        set.insert(new);
        pos = pos + 1;
        assert(set@ =~= old(set)@ + Set::new(
            |s: Seq<char>| exists|i: int| 0 <= i < pos && s == w.remove(i),
        )) by {
            assert forall|s: Seq<char>| (exists|i: int| 0 <= i < pos && s == w.remove(i))
                implies before.contains(s) || s == w.remove(pos - 1) by {
                let i = choose|i: int| 0 <= i < pos && s == w.remove(i);
                if i < pos - 1 {
                    assert(exists|j: int| 0 <= j < pos - 1 && s == w.remove(j));
                }
            }
        }
    }
    assert(set@ =~= old(set)@ + deletes_of(w));
}

/// Adds to `set` every word obtained from `word` by swapping two adjacent characters.
pub fn transposes(word: &str, set: &mut WordSet)
    requires
        old(set).wf(),
    ensures
        final(set).wf(),
        final(set)@ == old(set)@ + transposes_of(word@),
{
    let n = word.unicode_len();
    let ghost w = word@;
    let mut pos: usize = 0;
    assert(set@ =~= old(set)@ + Set::new(
        |s: Seq<char>| exists|i: int| 0 <= i < 0 && s == transposed(w, i),
    ));
    while pos + 1 < n
        invariant
            w == word@,
            n == w.len(),
            pos < n || n == 0,
            pos == 0 || pos + 1 <= n,
            set.wf(),
            set@ == old(set)@ + Set::new(
                |s: Seq<char>| exists|i: int| 0 <= i < pos && s == transposed(w, i),
            ),
        decreases n - pos,
    {
        let mut new = String::new();
        new.append(word.substring_char(0, pos));
        new.append(word.substring_char(pos + 1, pos + 2));
        new.append(word.substring_char(pos, pos + 1));
        new.append(word.substring_char(pos + 2, n));
        assert(new@ =~= transposed(w, pos as int));
        let ghost before = set@;
        set.insert(new);
        pos = pos + 1;
        assert(set@ =~= old(set)@ + Set::new(
            |s: Seq<char>| exists|i: int| 0 <= i < pos && s == transposed(w, i),
        )) by {
            assert forall|s: Seq<char>| (exists|i: int| 0 <= i < pos && s == transposed(w, i))
                implies before.contains(s) || s == transposed(w, pos - 1) by {
                let i = choose|i: int| 0 <= i < pos && s == transposed(w, i);
                if i < pos - 1 {
                    assert(exists|j: int| 0 <= j < pos - 1 && s == transposed(w, j));
                }
            }
        }
    }
    assert(set@ =~= old(set)@ + transposes_of(w));
}

proof fn lemma_alphabet_len()
    ensures
        ALPHABET@.len() == 26,
{
    reveal_strlit("abcdefghijklmnopqrstuvwxyz");
}

/// The letter at index `k` of the alphabet, as a one-character string.
fn letter(k: usize) -> (r: &'static str)
    requires
        k < 26,
    ensures
        ALPHABET@.len() == 26,
        r@ == seq![ALPHABET@[k as int]],
{
    proof {
        lemma_alphabet_len();
    }
    let r = ALPHABET.substring_char(k, k + 1);
    assert(r@ =~= seq![ALPHABET@[k as int]]);
    r
}

/// Replacements at positions before `pos`, and at `pos` by the first `k` letters.
spec fn replaces_upto(w: Seq<char>, pos: int, k: int) -> Set<Seq<char>> {
    Set::new(
        |s: Seq<char>| exists|i: int, c: char| 0 <= i < pos && is_letter(c) && s == w.update(i, c),
    ) + Set::new(|s: Seq<char>| exists|j: int| 0 <= j < k && s == w.update(pos, ALPHABET@[j]))
}

/// Adds to `set` every word obtained from `word` by putting a letter in place of one character.
pub fn replaces(word: &str, set: &mut WordSet)
    requires
        old(set).wf(),
    ensures
        final(set).wf(),
        final(set)@ == old(set)@ + replaces_of(word@),
{
    proof {
        lemma_alphabet_len();
    }
    let n = word.unicode_len();
    let ghost w = word@;
    let mut pos: usize = 0;
    assert(set@ =~= old(set)@ + replaces_upto(w, 0, 0));
    while pos < n
        invariant
            w == word@,
            n == w.len(),
            pos <= n,
            ALPHABET@.len() == 26,
            set.wf(),
            set@ == old(set)@ + replaces_upto(w, pos as int, 0),
        decreases n - pos,
    {
        let mut k: usize = 0;
        while k < 26
            invariant
                w == word@,
                n == w.len(),
                pos < n,
                ALPHABET@.len() == 26,
                k <= 26,
                set.wf(),
                set@ == old(set)@ + replaces_upto(w, pos as int, k as int),
            decreases 26 - k,
        {
            let mut new = String::new();
            new.append(word.substring_char(0, pos));
            new.append(letter(k));
            new.append(word.substring_char(pos + 1, n));
            assert(new@ =~= w.update(pos as int, ALPHABET@[k as int]));
            let ghost before = set@;
            set.insert(new);
            k = k + 1;
            assert(set@ =~= old(set)@ + replaces_upto(w, pos as int, k as int)) by {
                assert forall|s: Seq<char>| replaces_upto(w, pos as int, k as int).contains(s)
                    implies before.contains(s) || s == w.update(pos as int, ALPHABET@[k - 1]) by {
                    if exists|j: int| 0 <= j < k && s == w.update(pos as int, ALPHABET@[j]) {
                        let j = choose|j: int| 0 <= j < k && s == w.update(pos as int, ALPHABET@[j]);
                        if j < k - 1 {
                            assert(replaces_upto(w, pos as int, k - 1).contains(s));
                        }
                    }
                }
                assert forall|s: Seq<char>| replaces_upto(w, pos as int, k - 1).contains(s)
                    implies replaces_upto(w, pos as int, k as int).contains(s) by {
                    if exists|j: int| 0 <= j < k - 1 && s == w.update(pos as int, ALPHABET@[j]) {
                        let j = choose|j: int| 0 <= j < k - 1 && s == w.update(pos as int, ALPHABET@[j]);
                        assert(0 <= j < k && s == w.update(pos as int, ALPHABET@[j]));
                    }
                }
                assert(replaces_upto(w, pos as int, k as int).contains(
                    w.update(pos as int, ALPHABET@[k - 1]),
                ));
            }
        }
        let ghost p = pos as int;
        pos = pos + 1;
        assert(replaces_upto(w, p, 26) =~= replaces_upto(w, p + 1, 0)) by {
            assert forall|s: Seq<char>| replaces_upto(w, p, 26).contains(s)
                implies replaces_upto(w, p + 1, 0).contains(s) by {
                if exists|j: int| 0 <= j < 26 && s == w.update(p, ALPHABET@[j]) {
                    let j = choose|j: int| 0 <= j < 26 && s == w.update(p, ALPHABET@[j]);
                    assert(is_letter(ALPHABET@[j]));
                    assert(0 <= p < p + 1 && s == w.update(p, ALPHABET@[j]));
                } else {
                    let (i, c) = choose|i: int, c: char|
                        0 <= i < p && is_letter(c) && s == w.update(i, c);
                    assert(0 <= i < p + 1 && is_letter(c) && s == w.update(i, c));
                }
            }
            assert forall|s: Seq<char>| replaces_upto(w, p + 1, 0).contains(s)
                implies replaces_upto(w, p, 26).contains(s) by {
                let (i, c) = choose|i: int, c: char|
                    0 <= i < p + 1 && is_letter(c) && s == w.update(i, c);
                if i == p {
                    let j = choose|j: int| 0 <= j < ALPHABET@.len() && ALPHABET@[j] == c;
                    assert(0 <= j < 26 && s == w.update(p, ALPHABET@[j]));
                } else {
                    assert(0 <= i < p && is_letter(c) && s == w.update(i, c));
                }
            }
        }
    }
    assert(replaces_upto(w, n as int, 0) =~= replaces_of(w));
}

/// Words obtained by putting a letter before position `pos`.
spec fn inserts_at(w: Seq<char>, pos: int) -> Set<Seq<char>> {
    Set::new(|s: Seq<char>| exists|c: char| is_letter(c) && s == w.insert(pos, c))
}

/// Adds to `set` every word obtained from `word` by putting a letter before position `pos`.
fn insert_letters_at(word: &str, n: usize, pos: usize, set: &mut WordSet)
    requires
        old(set).wf(),
        n == word@.len(),
        pos <= n,
    ensures
        final(set).wf(),
        final(set)@ == old(set)@ + inserts_at(word@, pos as int),
{
    proof {
        lemma_alphabet_len();
    }
    let ghost w = word@;
    let ghost p = pos as int;
    let mut k: usize = 0;
    assert(set@ =~= old(set)@ + Set::new(
        |s: Seq<char>| exists|j: int| 0 <= j < 0 && s == w.insert(p, ALPHABET@[j]),
    ));
    while k < 26
        invariant
            w == word@,
            n == w.len(),
            p == pos,
            pos <= n,
            ALPHABET@.len() == 26,
            k <= 26,
            set.wf(),
            set@ == old(set)@ + Set::new(
                |s: Seq<char>| exists|j: int| 0 <= j < k && s == w.insert(p, ALPHABET@[j]),
            ),
        decreases 26 - k,
    {
        let mut new = String::new();
        new.append(word.substring_char(0, pos));
        new.append(letter(k));
        new.append(word.substring_char(pos, n));
        assert(new@ =~= w.insert(p, ALPHABET@[k as int]));
        let ghost before = set@;
        set.insert(new);
        k = k + 1;
        assert(set@ =~= old(set)@ + Set::new(
            |s: Seq<char>| exists|j: int| 0 <= j < k && s == w.insert(p, ALPHABET@[j]),
        )) by {
            assert forall|s: Seq<char>|
                (exists|j: int| 0 <= j < k && s == w.insert(p, ALPHABET@[j]))
                implies before.contains(s) || s == w.insert(p, ALPHABET@[k - 1]) by {
                let j = choose|j: int| 0 <= j < k && s == w.insert(p, ALPHABET@[j]);
                if j < k - 1 {
                    assert(exists|i: int| 0 <= i < k - 1 && s == w.insert(p, ALPHABET@[i]));
                }
            }
        }
    }
    assert(set@ =~= old(set)@ + inserts_at(w, p)) by {
        assert forall|s: Seq<char>| inserts_at(w, p).contains(s)
            implies (exists|j: int| 0 <= j < 26 && s == w.insert(p, ALPHABET@[j])) by {
            let c = choose|c: char| is_letter(c) && s == w.insert(p, c);
            let j = choose|j: int| 0 <= j < ALPHABET@.len() && ALPHABET@[j] == c;
            assert(0 <= j < 26 && s == w.insert(p, ALPHABET@[j]));
        }
        assert forall|s: Seq<char>| (exists|j: int| 0 <= j < 26 && s == w.insert(p, ALPHABET@[j]))
            implies inserts_at(w, p).contains(s) by {
            let j = choose|j: int| 0 <= j < 26 && s == w.insert(p, ALPHABET@[j]);
            assert(is_letter(ALPHABET@[j]));
        }
    }
}

/// Adds to `set` every word obtained from `word` by inserting one letter.
pub fn inserts(word: &str, set: &mut WordSet)
    requires
        old(set).wf(),
    ensures
        final(set).wf(),
        final(set)@ == old(set)@ + inserts_of(word@),
{
    let n = word.unicode_len();
    let ghost w = word@;
    let mut pos: usize = 0;
    assert(set@ =~= old(set)@ + Set::new(
        |s: Seq<char>| exists|i: int, c: char| 0 <= i < 0 && is_letter(c) && s == w.insert(i, c),
    ));
    while pos < n
        invariant
            w == word@,
            n == w.len(),
            pos <= n,
            set.wf(),
            set@ == old(set)@ + Set::new(
                |s: Seq<char>| exists|i: int, c: char| 0 <= i < pos && is_letter(c) && s == w.insert(i, c),
            ),
        decreases n - pos,
    {
        insert_letters_at(word, n, pos, set);
        proof {
            lemma_inserts_step(w, pos as int);
        }
        pos = pos + 1;
        assert(set@ =~= old(set)@ + Set::new(
            |s: Seq<char>| exists|i: int, c: char| 0 <= i < pos && is_letter(c) && s == w.insert(i, c),
        ));
    }
    insert_letters_at(word, n, n, set);
    proof {
        lemma_inserts_step(w, n as int);
    }
    assert(set@ =~= old(set)@ + inserts_of(w));
}

/// Insertions before positions up to `p` are those before positions below `p`
/// together with those before `p`.
proof fn lemma_inserts_step(w: Seq<char>, p: int)
    requires
        0 <= p <= w.len(),
    ensures
        Set::new(
            |s: Seq<char>| exists|i: int, c: char| 0 <= i < p + 1 && is_letter(c) && s == w.insert(i, c),
        ) =~= Set::new(
            |s: Seq<char>| exists|i: int, c: char| 0 <= i < p && is_letter(c) && s == w.insert(i, c),
        ) + inserts_at(w, p),
{
    assert forall|s: Seq<char>|
        (exists|i: int, c: char| 0 <= i < p + 1 && is_letter(c) && s == w.insert(i, c))
        implies (exists|i: int, c: char| 0 <= i < p && is_letter(c) && s == w.insert(i, c))
            || inserts_at(w, p).contains(s) by {
        let (i, c) = choose|i: int, c: char| 0 <= i < p + 1 && is_letter(c) && s == w.insert(i, c);
        if i == p {
            assert(is_letter(c) && s == w.insert(p, c));
        } else {
            assert(0 <= i < p && is_letter(c) && s == w.insert(i, c));
        }
    }
    assert forall|s: Seq<char>| inserts_at(w, p).contains(s)
        implies (exists|i: int, c: char| 0 <= i < p + 1 && is_letter(c) && s == w.insert(i, c)) by {
        let c = choose|c: char| is_letter(c) && s == w.insert(p, c);
        assert(0 <= p < p + 1 && is_letter(c) && s == w.insert(p, c));
    }
}

/// Adds to `set` every word at one edit from `word`.
pub fn add_edits1(word: &str, set: &mut WordSet)
    requires
        old(set).wf(),
    ensures
        final(set).wf(),
        final(set)@ == old(set)@ + edits1_of(word@),
{
    deletes(word, set);
    transposes(word, set);
    replaces(word, set);
    inserts(word, set);
    assert(set@ =~= old(set)@ + edits1_of(word@));
}

/// Every word at one edit from `word`, each once.
pub fn edits1(word: &str) -> (r: Vec<String>)
    ensures
        views(r@).no_duplicates(),
        views(r@).to_set() == edits1_of(word@),
{
    let mut set = WordSet::new();
    add_edits1(word, &mut set);
    assert(set@ =~= edits1_of(word@));
    set.into_vec()
}

/// Every word reached by applying one edit to a word at one edit from `word`, each once.
pub fn edits2(word: &str) -> (r: Vec<String>)
    ensures
        views(r@).no_duplicates(),
        views(r@).to_set() == edits2_of(word@),
{
    let first = edits1(word);
    let ghost w = word@;
    let mut set = WordSet::new();
    let mut idx: usize = 0;
    while idx < first.len()
        invariant
            w == word@,
            idx <= first@.len(),
            views(first@).to_set() == edits1_of(w),
            set.wf(),
            forall|s: Seq<char>| #[trigger] set@.contains(s) <==> exists|i: int|
                0 <= i < idx && edits1_of(first@[i]@).contains(s),
        decreases first@.len() - idx,
    {
        let ghost before = set@;
        add_edits1(first[idx].as_str(), &mut set);
        idx = idx + 1;
        assert forall|s: Seq<char>| #[trigger] set@.contains(s) <==> exists|i: int|
            0 <= i < idx && edits1_of(first@[i]@).contains(s) by {
            if set@.contains(s) && !before.contains(s) {
                assert(edits1_of(first@[idx - 1]@).contains(s));
            }
            if exists|i: int| 0 <= i < idx && edits1_of(first@[i]@).contains(s) {
                let i = choose|i: int| 0 <= i < idx && edits1_of(first@[i]@).contains(s);
                if i < idx - 1 {
                    assert(before.contains(s));
                }
            }
        }
    }
    assert(set@ =~= edits2_of(w)) by {
        assert forall|s: Seq<char>| set@.contains(s) implies edits2_of(w).contains(s) by {
            let i = choose|i: int| 0 <= i < first@.len() && edits1_of(first@[i]@).contains(s);
            assert(views(first@)[i] == first@[i]@);
            assert(views(first@).to_set().contains(first@[i]@));
        }
        assert forall|s: Seq<char>| edits2_of(w).contains(s) implies set@.contains(s) by {
            let v = choose|v: Seq<char>| edits1_of(w).contains(v) && edits1_of(v).contains(s);
            assert(views(first@).to_set().contains(v));
            let i = choose|i: int| 0 <= i < views(first@).len() && views(first@)[i] == v;
            assert(first@[i]@ == v);
        }
    }
    set.into_vec()
}

/// Each edit family of a word of length `n` has finitely many words: at most `n`
/// deletions, `n - 1` transpositions (none where `n` is 0), `26 n` replacements
/// and `26 (n + 1)` insertions.
pub proof fn lemma_edit_family_sizes(w: Seq<char>)
    ensures
        deletes_of(w).finite(),
        deletes_of(w).len() <= w.len(),
        transposes_of(w).finite(),
        transposes_of(w).len() <= if w.len() >= 1 { w.len() - 1 } else { 0 },
        replaces_of(w).finite(),
        replaces_of(w).len() <= 26 * w.len(),
        inserts_of(w).finite(),
        inserts_of(w).len() <= 26 * (w.len() + 1),
{
    lemma_alphabet_len();
    let n = w.len() as int;

    let d = Seq::new(n as nat, |i: int| w.remove(i));
    assert(deletes_of(w).subset_of(d.to_set())) by {
        assert forall|s: Seq<char>| deletes_of(w).contains(s) implies d.to_set().contains(s) by {
            let i = choose|i: int| 0 <= i < w.len() && s == w.remove(i);
            assert(d[i] == s);
        }
    }
    bound_by_seq(deletes_of(w), d);

    let tn: int = if n >= 1 { n - 1 } else { 0 };
    let t = Seq::new(tn as nat, |i: int| transposed(w, i));
    assert(transposes_of(w).subset_of(t.to_set())) by {
        assert forall|s: Seq<char>| transposes_of(w).contains(s) implies t.to_set().contains(s) by {
            let i = choose|i: int| 0 <= i < w.len() - 1 && s == transposed(w, i);
            assert(t[i] == s);
        }
    }
    bound_by_seq(transposes_of(w), t);

    let r = Seq::new((26 * n) as nat, |k: int| w.update(k / 26, ALPHABET@[k % 26]));
    assert(replaces_of(w).subset_of(r.to_set())) by {
        assert forall|s: Seq<char>| replaces_of(w).contains(s) implies r.to_set().contains(s) by {
            let (i, c) = choose|i: int, c: char| 0 <= i < w.len() && is_letter(c) && s == w.update(i, c);
            let j = choose|j: int| 0 <= j < ALPHABET@.len() && ALPHABET@[j] == c;
            let k = i * 26 + j;
            vstd::arithmetic::div_mod::lemma_fundamental_div_mod_converse(k, 26, i, j);
            assert(r[k] == s);
        }
    }
    bound_by_seq(replaces_of(w), r);

    let m = Seq::new((26 * (n + 1)) as nat, |k: int| w.insert(k / 26, ALPHABET@[k % 26]));
    assert(inserts_of(w).subset_of(m.to_set())) by {
        assert forall|s: Seq<char>| inserts_of(w).contains(s) implies m.to_set().contains(s) by {
            let (i, c) = choose|i: int, c: char| 0 <= i <= w.len() && is_letter(c) && s == w.insert(i, c);
            let j = choose|j: int| 0 <= j < ALPHABET@.len() && ALPHABET@[j] == c;
            let k = i * 26 + j;
            vstd::arithmetic::div_mod::lemma_fundamental_div_mod_converse(k, 26, i, j);
            assert(m[k] == s);
        }
    }
    bound_by_seq(inserts_of(w), m);
}

/// A set whose words all stand in `s` is finite and no larger than `s` is long.
proof fn bound_by_seq(set: Set<Seq<char>>, s: Seq<Seq<char>>)
    requires
        set.subset_of(s.to_set()),
    ensures
        set.finite(),
        set.len() <= s.len(),
{
    vstd::seq_lib::seq_to_set_is_finite(s);
    vstd::set_lib::lemma_len_subset(set, s.to_set());
    s.lemma_cardinality_of_set();
}

} // verus!
