use vstd::prelude::*;
use crate::word_set::{views, WordIndex};

verus! {

/// The lowercase form of a string, as `str::to_lowercase` computes it.
pub uninterp spec fn lower_of(s: Seq<char>) -> Seq<char>;

/// Relies on `str::to_lowercase`: the lowercase form depends on the characters alone.
#[verifier::external_body]
fn lowercase(s: &str) -> (r: String)
    ensures
        r@ == lower_of(s@),
{
    s.to_lowercase()
}

/// How many times `w` occurs in `ws`.
pub open spec fn occurrences(ws: Seq<Seq<char>>, w: Seq<char>) -> nat
    decreases ws.len(),
{
    if ws.len() == 0 {
        0
    } else {
        occurrences(ws.drop_last(), w) + if ws.last() == w { 1nat } else { 0nat }
    }
}

proof fn lemma_occurrences_push(ws: Seq<Seq<char>>, x: Seq<char>, w: Seq<char>)
    ensures
        occurrences(ws.push(x), w) == occurrences(ws, w) + if x == w { 1nat } else { 0nat },
        occurrences(ws, w) <= ws.len(),
    decreases ws.len(),
{
    assert(ws.push(x).drop_last() =~= ws);
    if ws.len() > 0 {
        lemma_occurrences_push(ws.drop_last(), ws.last(), w);
        assert(ws.drop_last().push(ws.last()) =~= ws);
    }
}

/// The index of `word` in `index`, or the number of its words where it is not there.
fn find_word(index: &WordIndex, word: &String) -> (r: usize)
    requires
        index.wf(),
    ensures
        r <= index.words().len(),
        r < index.words().len() ==> index.words()[r as int]@ == word@,
        forall|k: int| 0 <= k < index.words().len() && k != r ==> index.words()[k]@ != word@,
{
    match index.find(word) {
        Some(i) => i,
        None => index.len(),
    }
}

/// Occurrence counts of case-folded words, and the number of words counted,
/// repeats included, which is the denominator of a word's probability.
pub struct Frequency {
    keys: WordIndex,
    counts: Vec<usize>,
    num_words: usize,
    folded: Ghost<Seq<Seq<char>>>,
}

impl Frequency {
    /// The counted words, case-folded, in the order they were given.
    pub closed spec fn words(&self) -> Seq<Seq<char>> {
        self.folded@
    }

    pub closed spec fn wf(&self) -> bool {
        &&& self.keys.words().len() == self.counts@.len()
        &&& self.keys.wf()
        &&& self.num_words == self.folded@.len()
        &&& forall|i: int| 0 <= i < self.keys.words().len()
            ==> #[trigger] self.counts@[i] == occurrences(self.folded@, self.keys.words()[i]@)
        &&& forall|w: Seq<char>| occurrences(self.folded@, w) > 0 ==> views(self.keys.words()).contains(w)
    }

    /// Counts words that are already case-folded.
    pub fn from_folded(words: &Vec<String>) -> (r: Frequency)
        ensures
            r.wf(),
            r.words() == views(words@),
    {
        let mut keys = WordIndex::new();
        let mut counts: Vec<usize> = Vec::new();
        let mut i: usize = 0;
        let ghost all = views(words@);
        assert forall|w: Seq<char>| occurrences(all.take(0), w) == 0 by {
            assert(all.take(0).len() == 0);
        }
        while i < words.len()
            invariant
                all == views(words@),
                i <= words@.len(),
                keys.words().len() == counts@.len(),
                keys.wf(),
                forall|j: int| 0 <= j < keys.words().len()
                    ==> #[trigger] counts@[j] == occurrences(all.take(i as int), keys.words()[j]@),
                forall|w: Seq<char>| occurrences(all.take(i as int), w) > 0 ==> views(keys.words()).contains(w),
            decreases words@.len() - i,
        {
            let ghost prev = all.take(i as int);
            let ghost x = words@[i as int]@;
            assert(all.take(i + 1) == prev.push(x));
            let j = find_word(&keys, &words[i]);
            let ghost keys0 = keys.words();
            let ghost counts0 = counts@;
            proof {
                assert forall|w: Seq<char>| #[trigger] occurrences(prev.push(x), w)
                    == occurrences(prev, w) + if x == w { 1nat } else { 0nat } by {
                    lemma_occurrences_push(prev, x, w);
                }
            }
            let ghost found = j < keys.words().len();
            if j < keys.len() {
                proof {
                    lemma_occurrences_push(prev, x, x);
                    assert(views(keys.words())[j as int] == x);
                }
                let c = counts[j];
                counts.set(j, c + 1);
            } else {
                proof {
                    if views(keys.words()).contains(x) {
                        let k = choose|k: int| 0 <= k < views(keys.words()).len() && views(keys.words())[k] == x;
                        assert(keys.words()[k]@ == x);
                    }
                }
                keys.add(words[i].clone());
                counts.push(1);
                proof {
                    assert(views(keys.words()) =~= views(keys0).push(x));
                    assert(views(keys.words())[keys.words().len() - 1] == x);
                }
            }
            proof {
                assert forall|k: int| 0 <= k < keys.words().len()
                    implies #[trigger] counts@[k] == occurrences(prev.push(x), keys.words()[k]@) by {
                    if found {
                        assert(keys.words()[k] == keys0[k]);
                        assert(counts0[k] == occurrences(prev, keys0[k]@));
                        if k == j {
                            assert(keys.words()[k]@ == x);
                            assert(counts@[k] == counts0[k] + 1);
                            assert(occurrences(prev.push(x), x) == occurrences(prev, x) + 1);
                        } else {
                            assert(counts@[k] == counts0[k]);
                            assert(views(keys.words())[k] == keys.words()[k]@);
                            assert(views(keys.words())[j as int] == keys.words()[j as int]@);
                        }
                    } else if k < keys0.len() {
                        assert(keys.words()[k] == keys0[k]);
                        assert(counts@[k] == counts0[k]);
                        assert(views(keys0)[k] == keys0[k]@);
                    } else {
                        assert(keys.words()[k]@ == x);
                        assert(occurrences(prev, x) == 0);
                    }
                }
                assert forall|w: Seq<char>| occurrences(prev.push(x), w) > 0
                    implies views(keys.words()).contains(w) by {
                    if w != x {
                        assert(occurrences(prev.push(x), w) == occurrences(prev, w));
                        assert(views(keys0).contains(w));
                        let k = choose|k: int| 0 <= k < views(keys0).len() && views(keys0)[k] == w;
                        if found {
                            assert(keys.words() == keys0);
                        } else {
                            assert(views(keys.words()) == views(keys0).push(x));
                        }
                        assert(views(keys.words())[k] == w);
                    } else if found {
                        assert(views(keys.words())[j as int] == x);
                    } else {
                        assert(views(keys.words())[keys.words().len() - 1] == x);
                    }
                }
            }
            i = i + 1;
        }
        assert(all.take(i as int) =~= all);
        Frequency { keys, counts, num_words: words.len(), folded: Ghost(all) }
    }

    /// Counts the lowercase forms of `words`; every word counts towards the total.
    pub fn new(words: Vec<&str>) -> (r: Frequency)
        ensures
            r.wf(),
            r.words() == words@.map_values(|s: &str| lower_of(s@)),
    {
        let mut folded: Vec<String> = Vec::new();
        let mut i: usize = 0;
        while i < words.len()
            invariant
                i <= words@.len(),
                folded@.len() == i,
                forall|k: int| 0 <= k < i ==> #[trigger] folded@[k]@ == lower_of(words@[k]@),
            decreases words@.len() - i,
        {
            let lower = lowercase(words[i]);
            folded.push(lower);
            i = i + 1;
        }
        assert(views(folded@) =~= words@.map_values(|s: &str| lower_of(s@)));
        Frequency::from_folded(&folded)
    }

    /// How many of the counted words equal `word`; `word` is looked up as given,
    /// so only a lowercase word can match.
    pub fn count(&self, word: &str) -> (r: usize)
        requires
            self.wf(),
        ensures
            r == occurrences(self.words(), word@),
    {
        let key = String::from_str(word);
        let j = find_word(&self.keys, &key);
        if j < self.keys.len() {
            self.counts[j]
        } else {
            proof {
                if occurrences(self.words(), word@) > 0 {
                    assert(occurrences(self.folded@, word@) > 0);
                    assert(views(self.keys.words()).contains(word@));
                    let k = choose|k: int| 0 <= k < views(self.keys.words()).len() && views(self.keys.words())[k] == word@;
                    assert(self.keys.words()[k]@ == word@);
                }
            }
            0
        }
    }

    /// The count of `word`, or `None` where it was never counted.
    pub fn get(&self, word: &str) -> (r: Option<usize>)
        requires
            self.wf(),
        ensures
            r == if occurrences(self.words(), word@) > 0 {
                Some(occurrences(self.words(), word@) as usize)
            } else {
                None::<usize>
            },
    {
        let c = self.count(word);
        if c > 0 {
            Some(c)
        } else {
            None
        }
    }

    /// How many words were counted, repeats included.
    pub fn num_words(&self) -> (r: usize)
        requires
            self.wf(),
        ensures
            r == self.words().len(),
    {
        self.num_words
    }
}

} // verus!
