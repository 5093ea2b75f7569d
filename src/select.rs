use vstd::prelude::*;
use crate::edits::{edits1, edits1_of, edits2, edits2_of};
use crate::frequency::{occurrences, Frequency};
use crate::word_set::{views, WordSet};

verus! {

/// The stage of the search that produced the candidates.
#[derive(Clone, Copy, Debug, PartialEq, Eq, Structural)]
pub enum EditDistanceLevel {
    /// The word itself is known.
    Exact,
    /// Known words at one edit.
    One,
    /// Known words at two edits.
    Two,
    /// Nothing known nearby: the word is kept.
    Unchanged,
}

/// The elements of `vs` that are in `known`, in order.
pub open spec fn known_of(vs: Seq<Seq<char>>, known: Set<Seq<char>>) -> Seq<Seq<char>> {
    vs.filter(|s: Seq<char>| known.contains(s))
}

/// `known_of` on a non-empty sequence, by its last element.
proof fn lemma_known_of_last(vs: Seq<Seq<char>>, known: Set<Seq<char>>)
    requires
        vs.len() > 0,
    ensures
        known_of(vs, known) == if known.contains(vs.last()) {
            known_of(vs.drop_last(), known).push(vs.last())
        } else {
            known_of(vs.drop_last(), known)
        },
{
    reveal(Seq::filter);
}

/// The candidates for `w`, and the stage that found them: the word itself where it
/// is known, else the known words at one edit, else those at two edits, else the
/// word itself.
pub open spec fn cascade(w: Seq<char>, known: Set<Seq<char>>) -> (Set<Seq<char>>, EditDistanceLevel) {
    if known.contains(w) {
        (set![w], EditDistanceLevel::Exact)
    } else if edits1_of(w).intersect(known) != Set::<Seq<char>>::empty() {
        (edits1_of(w).intersect(known), EditDistanceLevel::One)
    } else if edits2_of(w).intersect(known) != Set::<Seq<char>>::empty() {
        (edits2_of(w).intersect(known), EditDistanceLevel::Two)
    } else {
        (set![w], EditDistanceLevel::Unchanged)
    }
}

/// A known word is its own only candidate, found at the first stage, whatever
/// the words near it.
pub proof fn lemma_known_word_is_kept(w: Seq<char>, known: Set<Seq<char>>)
    requires
        known.contains(w),
    ensures
        cascade(w, known) == (set![w], EditDistanceLevel::Exact),
{
}

/// Where an unknown word has known words both at one and at two edits, the
/// candidates are those at one edit.
pub proof fn lemma_nearer_edits_first(w: Seq<char>, known: Set<Seq<char>>)
    requires
        !known.contains(w),
        edits1_of(w).intersect(known) != Set::<Seq<char>>::empty(),
        edits2_of(w).intersect(known) != Set::<Seq<char>>::empty(),
    ensures
        cascade(w, known) == (edits1_of(w).intersect(known), EditDistanceLevel::One),
{
}

proof fn lemma_known_of(vs: Seq<Seq<char>>, known: Set<Seq<char>>)
    ensures
        forall|s: Seq<char>| #[trigger] known_of(vs, known).contains(s) <==> vs.contains(s) && known.contains(s),
        vs.no_duplicates() ==> known_of(vs, known).no_duplicates(),
    decreases vs.len(),
{
    if vs.len() > 0 {
        let init = vs.drop_last();
        lemma_known_of(init, known);
        lemma_known_of_last(vs, known);
        assert(init.push(vs.last()) =~= vs);
        assert forall|s: Seq<char>| #[trigger] known_of(vs, known).contains(s)
            <==> vs.contains(s) && known.contains(s) by {
            if vs.contains(s) && s != vs.last() {
                let k = choose|k: int| 0 <= k < vs.len() && vs[k] == s;
                assert(init[k] == s);
            }
            if known_of(init, known).contains(s) {
                let k = choose|k: int| 0 <= k < init.len() && init[k] == s;
                assert(vs[k] == s);
            }
            if known.contains(vs.last()) {
                let r = known_of(init, known);
                assert(r.push(vs.last())[r.len() as int] == vs.last());
                if r.push(vs.last()).contains(s) && s != vs.last() {
                    let k = choose|k: int| 0 <= k < r.len() + 1 && r.push(vs.last())[k] == s;
                    assert(r[k] == s);
                }
                if r.contains(s) {
                    let k = choose|k: int| 0 <= k < r.len() && r[k] == s;
                    assert(r.push(vs.last())[k] == s);
                }
            }
        }
        if vs.no_duplicates() && known.contains(vs.last()) {
            assert(init.no_duplicates());
            assert(!init.contains(vs.last()));
            let r = known_of(init, known);
            let r2 = r.push(vs.last());
            assert forall|a: int, b: int| 0 <= a < r2.len() && 0 <= b < r2.len() && a != b
                implies r2[a] != r2[b] by {
                if b == r.len() {
                    assert(r.contains(r2[a]));
                } else if a == r.len() {
                    assert(r.contains(r2[b]));
                }
            }
        }
    }
}

/// The words of `variants` that are in `words`, in order; `None` where there are none.
pub fn known(variants: &Vec<String>, words: &WordSet) -> (r: Option<Vec<String>>)
    requires
        words.wf(),
    ensures
        match r {
            Some(v) => v@.len() > 0 && views(v@) == known_of(views(variants@), words@),
            None => known_of(views(variants@), words@).len() == 0,
        },
{
    let mut found: Vec<String> = Vec::new();
    let mut i: usize = 0;
    let ghost vs = views(variants@);
    while i < variants.len()
        invariant
            vs == views(variants@),
            words.wf(),
            i <= variants@.len(),
            views(found@) == known_of(vs.take(i as int), words@),
        decreases variants@.len() - i,
    {
        let ghost before = found@;
        assert(vs.take(i + 1).drop_last() =~= vs.take(i as int));
        proof {
            lemma_known_of_last(vs.take(i + 1), words@);
        }
        if words.contains(variants[i].as_str()) {
            found.push(variants[i].clone());
            assert(views(found@) =~= views(before).push(vs[i as int]));
        }
        i = i + 1;
    }
    assert(vs.take(i as int) =~= vs);
    if found.len() == 0 {
        None
    } else {
        Some(found)
    }
}

/// The known words of `vs`, as a set, and whether there are any.
proof fn lemma_known_set(vs: Seq<Seq<char>>, known: Set<Seq<char>>, all: Set<Seq<char>>)
    requires
        vs.to_set() == all,
    ensures
        known_of(vs, known).to_set() == all.intersect(known),
        vs.no_duplicates() ==> known_of(vs, known).no_duplicates(),
        known_of(vs, known).len() == 0 <==> all.intersect(known) == Set::<Seq<char>>::empty(),
{
    lemma_known_of(vs, known);
    let r = known_of(vs, known);
    assert(r.to_set() =~= all.intersect(known));
    if r.len() == 0 {
        assert(all.intersect(known) =~= Set::<Seq<char>>::empty());
    } else {
        assert(r.to_set().contains(r[0]));
    }
}

/// A vector that holds `word` alone.
fn single(word: &str) -> (r: Vec<String>)
    ensures
        r@.len() == 1,
        views(r@) == seq![word@],
        views(r@).to_set() == set![word@],
        views(r@).no_duplicates(),
{
    let mut r: Vec<String> = Vec::new();
    r.push(String::from_str(word));
    assert(views(r@) =~= seq![word@]);
    assert(views(r@).to_set() =~= set![word@]) by {
        assert(views(r@)[0] == word@);
    }
    r
}

/// The candidates for `word` among `known_words`, and the stage that found them.
pub fn candidates(word: &str, known_words: &WordSet) -> (r: (Vec<String>, EditDistanceLevel))
    requires
        known_words.wf(),
    ensures
        r.1 == cascade(word@, known_words@).1,
        views(r.0@).to_set() == cascade(word@, known_words@).0,
        views(r.0@).no_duplicates(),
        r.0@.len() > 0,
{
    let ghost w = word@;
    let ghost k = known_words@;
    if known_words.contains(word) {
        let r = single(word);
        return (r, EditDistanceLevel::Exact);
    }
    let near = edits1(word);
    proof {
        lemma_known_set(views(near@), k, edits1_of(w));
    }
    if let Some(found) = known(&near, known_words) {
        return (found, EditDistanceLevel::One);
    }
    let far = edits2(word);
    proof {
        lemma_known_set(views(far@), k, edits2_of(w));
    }
    if let Some(found) = known(&far, known_words) {
        return (found, EditDistanceLevel::Two);
    }
    let r = single(word);
    (r, EditDistanceLevel::Unchanged)
}

/// The first of `candidates` whose count in `freq` is the greatest. All counts
/// share one denominator, so this is also the first candidate of greatest
/// probability; where no candidate was counted, it is the first one.
pub fn find_most_likely(candidates: &Vec<String>, freq: &Frequency) -> (r: String)
    requires
        candidates@.len() > 0,
        freq.wf(),
    ensures
        exists|i: int|
            0 <= i < candidates@.len() && r@ == candidates@[i]@
            && (forall|j: int| 0 <= j < candidates@.len()
                ==> occurrences(freq.words(), #[trigger] candidates@[j]@) <= occurrences(freq.words(), r@))
            && (forall|j: int| 0 <= j < i
                ==> occurrences(freq.words(), #[trigger] candidates@[j]@) < occurrences(freq.words(), r@)),
{
    let mut best: usize = 0;
    let mut best_count = freq.count(candidates[0].as_str());
    let mut i: usize = 1;
    while i < candidates.len()
        invariant
            freq.wf(),
            best < i <= candidates@.len(),
            best_count == occurrences(freq.words(), candidates@[best as int]@),
            forall|j: int| 0 <= j < i
                ==> occurrences(freq.words(), #[trigger] candidates@[j]@) <= best_count,
            forall|j: int| 0 <= j < best
                ==> occurrences(freq.words(), #[trigger] candidates@[j]@) < best_count,
        decreases candidates@.len() - i,
    {
        let c = freq.count(candidates[i].as_str());
        if c > best_count {
            best = i;
            best_count = c;
        }
        i = i + 1;
    }
    candidates[best].clone()
}

} // verus!
