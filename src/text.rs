use vstd::prelude::*;
use crate::frequency::{lower_of, occurrences, Frequency};
use crate::select::{candidates, cascade, find_most_likely, EditDistanceLevel};
use crate::word_set::{views, WordSet};

verus! {

/// Maximal runs of word characters: letters, digits and underscores.
pub const WORD_PATTERN: &'static str = "\\w+";

/// The successive non-overlapping matches of the regular expression `pattern`
/// in `text`, as the `regex` crate finds them.
pub uninterp spec fn regex_matches(pattern: Seq<char>, text: Seq<char>) -> Seq<Seq<char>>;

/// Relies on `regex::Regex::new`, which fails only on a pattern that is invalid
/// or compiles past the default size limit (neither holds of `\w+`), and on
/// `Regex::find_iter`, whose matches depend on the pattern and the text alone.
#[verifier::external_body]
fn find_all(pattern: &str, text: &str) -> (r: Option<Vec<String>>)
    ensures
        pattern@ == WORD_PATTERN@ ==> r is Some,
        r is Some ==> views(r->0@) == regex_matches(pattern@, text@),
{
    match regex::Regex::new(pattern) {
        Ok(re) => Some(re.find_iter(text).map(|m| m.as_str().to_string()).collect()),
        Err(_) => None,
    }
}

/// The words of `text`, in order and with repeats.
pub fn tokenize(text: &str) -> (r: Vec<String>)
    ensures
        views(r@) == regex_matches(WORD_PATTERN@, text@),
{
    match find_all(WORD_PATTERN, text) {
        Some(words) => words,
        None => {
            proof {
                assert(false);
            }
            Vec::new()
        },
    }
}

/// The distinct words of `tokens`.
pub fn vocabulary(tokens: &Vec<String>) -> (r: WordSet)
    ensures
        r.wf(),
        r@ == views(tokens@).to_set(),
{
    let mut set = WordSet::new();
    let mut i: usize = 0;
    while i < tokens.len()
        invariant
            i <= tokens@.len(),
            set.wf(),
            set@ == views(tokens@.take(i as int)).to_set(),
        decreases tokens@.len() - i,
    {
        set.insert(tokens[i].clone());
        proof {
            assert(views(tokens@.take(i + 1)) =~= views(tokens@.take(i as int)).push(tokens@[i as int]@));
            views(tokens@.take(i as int)).lemma_push_to_set_commute(tokens@[i as int]@);
        }
        i = i + 1;
    }
    assert(tokens@.take(i as int) =~= tokens@);
    set
}

/// `r` is a correction of `word` for a corpus of words `corpus`: the stage is the
/// one the cascade reaches over the corpus's vocabulary, and the word is a
/// candidate of that stage whose lowercase count in the corpus no other
/// candidate exceeds.
pub open spec fn is_correction(
    corpus: Seq<Seq<char>>,
    word: Seq<char>,
    r: (Seq<char>, EditDistanceLevel),
) -> bool {
    let (cands, level) = cascade(word, corpus.to_set());
    let folded = corpus.map_values(|s: Seq<char>| lower_of(s));
    &&& r.1 == level
    &&& cands.contains(r.0)
    &&& forall|c: Seq<char>| cands.contains(c) ==> occurrences(folded, c) <= occurrences(folded, r.0)
}

/// The most likely intended word for `word`, given the words of a corpus.
pub fn correct_tokens(tokens: &Vec<String>, word: &str) -> (r: (String, EditDistanceLevel))
    ensures
        is_correction(views(tokens@), word@, (r.0@, r.1)),
{
    let known = vocabulary(tokens);
    let mut refs: Vec<&str> = Vec::new();
    let mut i: usize = 0;
    while i < tokens.len()
        invariant
            i <= tokens@.len(),
            refs@.len() == i,
            forall|k: int| 0 <= k < i ==> #[trigger] refs@[k]@ == tokens@[k]@,
        decreases tokens@.len() - i,
    {
        refs.push(tokens[i].as_str());
        i = i + 1;
    }
    let freq = Frequency::new(refs);
    let ghost all = views(tokens@);
    assert(freq.words() =~= all.map_values(|s: Seq<char>| lower_of(s)));
    let (cands, level) = candidates(word, &known);
    let best = find_most_likely(&cands, &freq);
    proof {
        let set = cascade(word@, all.to_set()).0;
        let idx = choose|idx: int| 0 <= idx < cands@.len() && best@ == cands@[idx]@
            && (forall|j: int| 0 <= j < cands@.len()
                ==> occurrences(freq.words(), #[trigger] cands@[j]@) <= occurrences(freq.words(), best@));
        assert(views(cands@)[idx] == best@);
        assert forall|c: Seq<char>| set.contains(c) implies occurrences(freq.words(), c) <= occurrences(
            freq.words(),
            best@,
        ) by {
            assert(views(cands@).to_set().contains(c));
            let j = choose|j: int| 0 <= j < views(cands@).len() && views(cands@)[j] == c;
            assert(cands@[j]@ == c);
        }
    }
    (best, level)
}

/// The most likely intended word for `word`, given the text of a corpus.
pub fn correct(corpus: &str, word: &str) -> (r: (String, EditDistanceLevel))
    ensures
        is_correction(regex_matches(WORD_PATTERN@, corpus@), word@, (r.0@, r.1)),
{
    let tokens = tokenize(corpus);
    correct_tokens(&tokens, word)
}

} // verus!
