use vstd::prelude::*;

verus! {

/// The character sequences of a sequence of strings.
pub open spec fn views(v: Seq<String>) -> Seq<Seq<char>> {
    v.map_values(|s: String| s@)
}

/// The number of buckets of a `WordIndex`.
pub const BUCKETS: usize = 4096;

/// The bucket of a word: a mix of its length and its first and last characters.
pub open spec fn bucket_of(w: Seq<char>) -> int {
    if w.len() == 0 {
        0
    } else {
        ((w.len() as int % (BUCKETS as int)) * 31 + (w[0] as u32) as int * 131 + (w.last() as u32) as int) % (
        BUCKETS as int)
    }
}

fn bucket(word: &str) -> (r: usize)
    ensures
        r == bucket_of(word@),
        r < BUCKETS,
{
    let n = word.unicode_len();
    if n == 0 {
        return 0;
    }
    let first = word.get_char(0) as u32 as u64;
    let last = word.get_char(n - 1) as u32 as u64;
    let len = (n % BUCKETS) as u64;
    ((len * 31 + first * 131 + last) % (BUCKETS as u64)) as usize
}

/// Distinct words, each at the index where it was added, found through buckets
/// of indices.
///
/// This stands in for `HashSet<String>` and `HashMap<String, _>`: vstd specifies
/// those only for key types that it knows to hash consistently with `==`
/// (`obeys_key_model`), which it states for integers but not for `String`, so
/// nothing could be proved of a lookup by a word there.
pub struct WordIndex {
    words: Vec<String>,
    buckets: Vec<Vec<usize>>,
}

impl WordIndex {
    /// The words, in the order they were added.
    pub closed spec fn words(&self) -> Seq<String> {
        self.words@
    }

    pub closed spec fn wf(&self) -> bool {
        &&& views(self.words@).no_duplicates()
        &&& self.buckets@.len() == BUCKETS
        &&& forall|b: int, k: int| 0 <= b < BUCKETS && 0 <= k < self.buckets@[b]@.len()
            ==> #[trigger] self.buckets@[b]@[k] < self.words@.len()
                && bucket_of(self.words@[self.buckets@[b]@[k] as int]@) == b
        &&& forall|i: int| 0 <= i < self.words@.len()
            ==> #[trigger] self.buckets@[bucket_of(self.words@[i]@)]@.contains(i as usize)
    }

    pub fn new() -> (r: WordIndex)
        ensures
            r.wf(),
            r.words() == Seq::<String>::empty(),
    {
        let mut buckets: Vec<Vec<usize>> = Vec::new();
        let mut b: usize = 0;
        while b < BUCKETS
            invariant
                b <= BUCKETS,
                buckets@.len() == b,
                forall|c: int| 0 <= c < b ==> #[trigger] buckets@[c]@.len() == 0,
            decreases BUCKETS - b,
        {
            buckets.push(Vec::new());
            b = b + 1;
        }
        WordIndex { words: Vec::new(), buckets }
    }

    pub fn len(&self) -> (r: usize)
        ensures
            r == self.words().len(),
    {
        self.words.len()
    }

    /// The index of `word`, or `None` where it was not added.
    pub fn find(&self, word: &String) -> (r: Option<usize>)
        requires
            self.wf(),
        ensures
            match r {
                Some(i) => i < self.words().len() && self.words()[i as int]@ == word@
                    && forall|k: int| 0 <= k < self.words().len() && k != i ==> self.words()[k]@ != word@,
                None => forall|i: int| 0 <= i < self.words().len() ==> self.words()[i]@ != word@,
            },
    {
        let b = bucket(word.as_str());
        let count = self.words.len();
        let ids = &self.buckets[b];
        let mut k: usize = 0;
        while k < ids.len()
            invariant
                self.wf(),
                count == self.words@.len(),
                b == bucket_of(word@),
                b < BUCKETS,
                ids@ == self.buckets@[b as int]@,
                k <= ids@.len(),
                forall|m: int| 0 <= m < k ==> self.words@[ids@[m] as int]@ != word@,
            decreases ids@.len() - k,
        {
            let id = ids[k];
            assert(id < self.words@.len());
            if self.words[id] == *word {
                proof {
                    assert forall|k: int| 0 <= k < self.words@.len() && k != id
                        implies self.words@[k]@ != word@ by {
                        assert(views(self.words@)[k] != views(self.words@)[id as int]);
                    }
                }
                return Some(id);
            }
            k = k + 1;
        }
        proof {
            assert forall|i: int| 0 <= i < self.words@.len() implies self.words@[i]@ != word@ by {
                if self.words@[i]@ == word@ {
                    assert(self.buckets@[bucket_of(self.words@[i]@)]@.contains(i as usize));
                    assert(bucket_of(self.words@[i]@) == b);
                    assert(ids@.contains(i as usize));
                    let m = choose|m: int| 0 <= m < ids@.len() && ids@[m] == i as usize;
                    assert((i as usize) as int == i);
                    assert(self.words@[ids@[m] as int]@ != word@);
                }
            }
        }
        None
    }

    /// Adds a word that is not there yet, at the next index.
    pub fn add(&mut self, word: String)
        requires
            old(self).wf(),
            forall|i: int| 0 <= i < old(self).words().len() ==> old(self).words()[i]@ != word@,
        ensures
            final(self).wf(),
            final(self).words() == old(self).words().push(word),
    {
        let b = bucket(word.as_str());
        let id = self.words.len();
        let ghost w = word@;
        let ghost old_words = self.words@;
        let ghost old_buckets = self.buckets@;
        let mut ids: Vec<usize> = Vec::new();
        self.buckets.set_and_swap(b, &mut ids);
        ids.push(id);
        self.buckets.set_and_swap(b, &mut ids);
        self.words.push(word);
        proof {
            assert(views(self.words@) =~= views(old_words).push(w));
            assert(views(old_words).no_duplicates());
            assert(old(self).words() == old_words);
            assert(forall|i: int| 0 <= i < old_words.len() ==> old_words[i]@ != w);
            assert forall|x: int, y: int| 0 <= x < views(self.words@).len() && 0 <= y < views(self.words@).len() && x != y
                implies views(self.words@)[x] != views(self.words@)[y] by {
                if y == id as int {
                    assert(old_words[x]@ != w);
                } else if x == id as int {
                    assert(old_words[y]@ != w);
                }
            }
            assert(self.buckets@[b as int]@ == old_buckets[b as int]@.push(id));
            assert forall|c: int, k: int| 0 <= c < BUCKETS && 0 <= k < self.buckets@[c]@.len()
                implies #[trigger] self.buckets@[c]@[k] < self.words@.len()
                    && bucket_of(self.words@[self.buckets@[c]@[k] as int]@) == c by {
                if c != b as int || k < old_buckets[c]@.len() {
                    assert(self.buckets@[c]@[k] == old_buckets[c]@[k]);
                }
            }
            assert forall|i: int| 0 <= i < self.words@.len()
                implies #[trigger] self.buckets@[bucket_of(self.words@[i]@)]@.contains(i as usize) by {
                let c = bucket_of(self.words@[i]@);
                if i < id as int {
                    assert(self.words@[i] == old_words[i]);
                    assert(old_buckets[c]@.contains(i as usize));
                    let k = choose|k: int| 0 <= k < old_buckets[c]@.len() && old_buckets[c]@[k] == i as usize;
                    assert(self.buckets@[c]@[k] == i as usize);
                } else {
                    assert(self.buckets@[c]@[old_buckets[c]@.len() as int] == id);
                }
            }
        }
    }

    pub fn into_vec(self) -> (r: Vec<String>)
        ensures
            r@ == self.words(),
    {
        self.words
    }
}

/// A set of words that keeps each word once, in the order of first insertion.
pub struct WordSet {
    index: WordIndex,
}

impl View for WordSet {
    type V = Set<Seq<char>>;

    closed spec fn view(&self) -> Set<Seq<char>> {
        views(self.index.words()).to_set()
    }
}

impl WordSet {
    pub closed spec fn wf(&self) -> bool {
        self.index.wf()
    }

    pub fn new() -> (r: WordSet)
        ensures
            r.wf(),
            r@ == Set::<Seq<char>>::empty(),
    {
        let r = WordSet { index: WordIndex::new() };
        assert(r@ =~= Set::<Seq<char>>::empty());
        r
    }

    pub fn len(&self) -> (r: usize)
        requires
            self.wf(),
        ensures
            r == self@.len(),
    {
        proof {
            views(self.index.words()).unique_seq_to_set();
        }
        self.index.len()
    }

    pub fn contains(&self, word: &str) -> (r: bool)
        requires
            self.wf(),
        ensures
            r == self@.contains(word@),
    {
        let key = String::from_str(word);
        let found = self.index.find(&key);
        proof {
            let ws = self.index.words();
            if let Some(i) = found {
                assert(views(ws)[i as int] == word@);
            } else if self@.contains(word@) {
                let j = choose|j: int| 0 <= j < views(ws).len() && views(ws)[j] == word@;
                assert(ws[j]@ == word@);
            }
        }
        found.is_some()
    }

    pub fn insert(&mut self, word: String)
        requires
            old(self).wf(),
        ensures
            final(self).wf(),
            final(self)@ == old(self)@.insert(word@),
    {
        let ghost w = word@;
        let ghost ws = self.index.words();
        match self.index.find(&word) {
            Some(i) => {
                assert(views(ws)[i as int] == w);
                assert(self@ =~= old(self)@.insert(w));
            },
            None => {
                self.index.add(word);
                proof {
                    assert(views(self.index.words()) =~= views(ws).push(w));
                    views(ws).lemma_push_to_set_commute(w);
                }
            },
        }
    }

    /// The stored words, each once, in the order of first insertion.
    pub fn into_vec(self) -> (r: Vec<String>)
        requires
            self.wf(),
        ensures
            views(r@).no_duplicates(),
            views(r@).to_set() == self@,
    {
        self.index.into_vec()
    }
}

} // verus!
