//! The index of counted words.
//!
//! An index is a plain vector of [`IndexedWord`]s. Words are folded to lower
//! case before they are compared, every word has one entry, and a new word
//! goes to the end, so the entries stand in the order in which their words
//! were first seen.
//!
//! Contracts speak of an index through [`counts`], and of what adding a word
//! does to it through [`recorded`].

use vstd::prelude::*;

verus! {

/// A counted word.
#[derive(Debug, PartialEq)]
pub struct IndexedWord {
    /// The word that's indexed.
    pub word: String,
    /// The amount of times this word appeared.
    pub appeared: i64,
}

/// What an [`IndexedWord`] stands for.
pub struct WordCount {
    /// The characters of the word.
    pub word: Seq<char>,
    /// The number of times the word was seen.
    pub appeared: int,
}

impl View for IndexedWord {
    type V = WordCount;

    open spec fn view(&self) -> WordCount {
        WordCount { word: self.word@, appeared: self.appeared as int }
    }
}

/// The function that gives each entry what it stands for.
pub open spec fn count_of() -> spec_fn(IndexedWord) -> WordCount {
    |entry: IndexedWord| entry@
}

/// The function that gives each count the number of times its word was seen.
pub open spec fn by_count() -> spec_fn(WordCount) -> int {
    |count: WordCount| count.appeared
}

/// What an index stands for: the counts of its entries, in their order.
pub open spec fn counts(index: Seq<IndexedWord>) -> Seq<WordCount> {
    index.map_values(count_of())
}

/// Whether some entry of `index` holds `word`.
pub open spec fn holds(index: Seq<WordCount>, word: Seq<char>) -> bool {
    exists|at: int| 0 <= at < index.len() && (#[trigger] index[at]).word == word
}

/// Whether `at` is the place of the first entry of `index` that holds `word`.
pub open spec fn is_first(index: Seq<WordCount>, word: Seq<char>, at: int) -> bool {
    &&& 0 <= at < index.len()
    &&& index[at].word == word
    &&& forall|before: int| 0 <= before < at ==> index[before].word != word
}

/// The index after one more sighting of `word`, which is already folded.
///
/// The first entry that holds the word counts one more and stays where it
/// is. Where no entry holds it, a new entry with a count of one goes to the
/// end.
pub open spec fn recorded(index: Seq<WordCount>, word: Seq<char>) -> Seq<WordCount> {
    if exists|at: int| is_first(index, word, at) {
        let at = choose|at: int| is_first(index, word, at);
        index.update(at, WordCount { word, appeared: index[at].appeared + 1 })
    } else {
        index.push(WordCount { word, appeared: 1 })
    }
}

/// The number of times that `index` tells `word` was seen: the count of its
/// first entry that holds the word, and zero where none does.
pub open spec fn count_in(index: Seq<WordCount>, word: Seq<char>) -> int {
    if exists|at: int| is_first(index, word, at) {
        index[choose|at: int| is_first(index, word, at)].appeared
    } else {
        0
    }
}

/// Whether `index` is as adding words leaves it: no two entries hold the
/// same word, and every word was seen at least once.
pub open spec fn well_formed(index: Seq<WordCount>) -> bool {
    &&& forall|i: int, j: int|
        0 <= i < j < index.len() ==> (#[trigger] index[i]).word != (#[trigger] index[j]).word
    &&& forall|i: int| 0 <= i < index.len() ==> (#[trigger] index[i]).appeared >= 1
}

/// The lower-case form of a string, as `str::to_lowercase` gives it.
pub uninterp spec fn lowercase(text: Seq<char>) -> Seq<char>;

/// `str::to_lowercase` returns the lower-case form of the string it is given;
/// the result depends on the characters of the string alone.
pub assume_specification[ str::to_lowercase ](text: &str) -> (folded: String)
    ensures
        folded@ == lowercase(text@),
;

/// The index after every word of `words`, first to last, was folded to lower
/// case and seen once more.
pub open spec fn recorded_all(index: Seq<WordCount>, words: Seq<Seq<char>>) -> Seq<WordCount>
    decreases words.len(),
{
    if words.len() == 0 {
        index
    } else {
        recorded(recorded_all(index, words.drop_last()), lowercase(words.last()))
    }
}

/// The test that a word has `word` as its lower-case form.
pub open spec fn folds_to(word: Seq<char>) -> spec_fn(Seq<char>) -> bool {
    |seen: Seq<char>| lowercase(seen) == word
}

/// The number of words of `words` that have `word` as their lower-case form.
pub open spec fn sightings(words: Seq<Seq<char>>, word: Seq<char>) -> nat {
    words.filter(folds_to(word)).len()
}

/// Whether one of `words` has `word` as its lower-case form.
pub open spec fn seen_in(words: Seq<Seq<char>>, word: Seq<char>) -> bool {
    exists|k: int| 0 <= k < words.len() && lowercase(#[trigger] words[k]) == word
}

/// Where some entry holds a word, one entry is the first to hold it.
proof fn lemma_some_entry_is_first(index: Seq<WordCount>, word: Seq<char>, at: int)
    requires
        0 <= at < index.len(),
        index[at].word == word,
    ensures
        exists|first: int| is_first(index, word, first) && first <= at,
    decreases at,
{
    if exists|before: int| 0 <= before < at && index[before].word == word {
        let before = choose|before: int| 0 <= before < at && index[before].word == word;
        lemma_some_entry_is_first(index, word, before);
    } else {
        assert(is_first(index, word, at));
    }
}

/// One more sighting moves no entry: every word keeps its place, and a word
/// that the index did not hold goes to the end.
pub proof fn lemma_recorded_places(index: Seq<WordCount>, word: Seq<char>)
    ensures
        forall|at: int|
            0 <= at < index.len() ==> (#[trigger] recorded(index, word)[at]).word
                == index[at].word,
        holds(index, word) ==> recorded(index, word).len() == index.len(),
        !holds(index, word) ==> recorded(index, word) == index.push(
            WordCount { word, appeared: 1 },
        ),
{
    if holds(index, word) {
        let at = choose|at: int| 0 <= at < index.len() && (#[trigger] index[at]).word == word;
        lemma_some_entry_is_first(index, word, at);
    }
    if exists|at: int| is_first(index, word, at) {
        let at = choose|at: int| is_first(index, word, at);
        assert(index[at].word == word);
    }
}

/// One more sighting of a word adds one to what the index tells of that
/// word, and leaves what it tells of every other word.
pub proof fn lemma_recorded_count(index: Seq<WordCount>, word: Seq<char>, other: Seq<char>)
    ensures
        count_in(recorded(index, word), other) == count_in(index, other) + if other == word {
            1int
        } else {
            0int
        },
{
    let after = recorded(index, word);
    lemma_recorded_places(index, word);
    assert forall|place: int| 0 <= place < index.len() implies (is_first(after, other, place)
        <==> is_first(index, other, place)) by {
        assert(after[place].word == index[place].word);
        assert forall|before: int| 0 <= before < place implies (after[before].word != other
            <==> index[before].word != other) by {
            assert(after[before].word == index[before].word);
        }
    }
    if exists|place: int| is_first(index, other, place) {
        let place = choose|place: int| is_first(index, other, place);
        assert(is_first(after, other, place));
        let place_after = choose|place: int| is_first(after, other, place);
        assert(place_after == place) by {
            if place_after < place {
                assert(after[place_after].word == index[place_after].word);
            }
        }
        if other == word {
            assert(place == choose|at: int| is_first(index, word, at));
        }
    } else if exists|place: int| is_first(after, other, place) {
        let place_after = choose|place: int| is_first(after, other, place);
        assert(place_after == index.len());
        assert(!holds(index, word)) by {
            if holds(index, word) {
                assert(after.len() == index.len());
            }
        }
    } else if other == word {
        if holds(index, word) {
            let at = choose|at: int| 0 <= at < index.len() && (#[trigger] index[at]).word == word;
            lemma_some_entry_is_first(index, word, at);
        } else {
            assert(is_first(after, word, index.len() as int));
        }
    }
}

/// One more sighting leaves a well-formed index well-formed.
pub proof fn lemma_recorded_well_formed(index: Seq<WordCount>, word: Seq<char>)
    requires
        well_formed(index),
    ensures
        well_formed(recorded(index, word)),
{
    let after = recorded(index, word);
    lemma_recorded_places(index, word);
    assert forall|i: int, j: int| 0 <= i < j < after.len() implies (#[trigger] after[i]).word != (
    #[trigger] after[j]).word by {
        assert(after[i].word == index[i].word);
        if j < index.len() {
            assert(after[j].word == index[j].word);
        }
    }
}

/// One more sighting raises no count by more than one, and a new entry
/// counts one.
pub proof fn lemma_recorded_limit(index: Seq<WordCount>, word: Seq<char>, limit: int)
    requires
        0 <= limit,
        forall|at: int| 0 <= at < index.len() ==> (#[trigger] index[at]).appeared <= limit,
    ensures
        forall|at: int|
            0 <= at < recorded(index, word).len() ==> (#[trigger] recorded(
                index,
                word,
            )[at]).appeared <= limit + 1,
{
}

/// Adding words leaves a well-formed index well-formed.
pub proof fn lemma_recorded_all_well_formed(index: Seq<WordCount>, words: Seq<Seq<char>>)
    requires
        well_formed(index),
    ensures
        well_formed(recorded_all(index, words)),
    decreases words.len(),
{
    if words.len() > 0 {
        lemma_recorded_all_well_formed(index, words.drop_last());
        lemma_recorded_well_formed(
            recorded_all(index, words.drop_last()),
            lowercase(words.last()),
        );
    }
}

/// After words were added, the index tells of each word the number that it
/// told before and the number of times the word was among those added.
pub proof fn lemma_recorded_all_count(
    index: Seq<WordCount>,
    words: Seq<Seq<char>>,
    word: Seq<char>,
)
    ensures
        count_in(recorded_all(index, words), word) == count_in(index, word) + sightings(
            words,
            word,
        ),
    decreases words.len(),
{
    reveal(Seq::filter);
    if words.len() > 0 {
        lemma_recorded_all_count(index, words.drop_last(), word);
        lemma_recorded_count(
            recorded_all(index, words.drop_last()),
            lowercase(words.last()),
            word,
        );
    }
}

/// An index that was empty before words were added holds the words that were
/// added and no others, in the order in which they were first seen: wherever
/// the word of an entry stands among the words added, the word of every
/// earlier entry stands before it.
pub proof fn lemma_first_seen_order(words: Seq<Seq<char>>)
    ensures
        forall|word: Seq<char>|
            #[trigger] holds(recorded_all(Seq::empty(), words), word) <==> seen_in(words, word),
        forall|i: int, j: int, k: int|
            0 <= i < j < recorded_all(Seq::empty(), words).len() && 0 <= k < words.len()
                && lowercase(#[trigger] words[k]) == (#[trigger] recorded_all(
                Seq::empty(),
                words,
            )[j]).word ==> seen_in(
                words.take(k),
                (#[trigger] recorded_all(Seq::empty(), words)[i]).word,
            ),
    decreases words.len(),
{
    let index = recorded_all(Seq::empty(), words);
    if words.len() > 0 {
        let earlier = words.drop_last();
        let before = recorded_all(Seq::empty(), earlier);
        let last = lowercase(words.last());
        let new = words.len() - 1;
        lemma_first_seen_order(earlier);
        lemma_recorded_places(before, last);
        assert forall|word: Seq<char>| #[trigger] holds(index, word) <==> seen_in(words, word) by {
            if holds(index, word) {
                let at = choose|at: int| 0 <= at < index.len() && (#[trigger] index[at]).word
                    == word;
                if at < before.len() {
                    assert(before[at].word == word);
                    assert(holds(before, word));
                    let k = choose|k: int|
                        0 <= k < earlier.len() && lowercase(#[trigger] earlier[k]) == word;
                    assert(lowercase(words[k]) == word);
                } else {
                    assert(lowercase(words[new]) == word);
                }
            }
            if seen_in(words, word) {
                let k = choose|k: int|
                    0 <= k < words.len() && lowercase(#[trigger] words[k]) == word;
                if k < new {
                    assert(lowercase(earlier[k]) == word);
                    assert(holds(before, word));
                    let at = choose|at: int| 0 <= at < before.len() && (#[trigger] before[at]).word
                        == word;
                    assert(index[at].word == word);
                } else if holds(before, last) {
                    let at = choose|at: int| 0 <= at < before.len() && (#[trigger] before[at]).word
                        == last;
                    assert(index[at].word == word);
                } else {
                    assert(index[before.len() as int].word == word);
                }
            }
        }
        assert forall|i: int, j: int, k: int|
            0 <= i < j < index.len() && 0 <= k < words.len() && lowercase(#[trigger] words[k]) == (
            #[trigger] index[j]).word implies seen_in(
            words.take(k),
            (#[trigger] index[i]).word,
        ) by {
            assert(index[i].word == before[i].word);
            assert(holds(before, before[i].word));
            if k == new {
                assert(words.take(k) =~= earlier);
            } else {
                assert(lowercase(earlier[k]) == index[j].word);
                if j < before.len() {
                    assert(index[j].word == before[j].word);
                    assert(earlier.take(k) =~= words.take(k));
                } else {
                    assert(seen_in(earlier, last));
                    assert(holds(before, last));
                }
            }
        }
    }
}

/// Count one more sighting of a word that is already folded to lower case.
///
/// The first entry that holds the word counts one more. Where no entry holds
/// it, a new entry with a count of one is appended. That count must be able
/// to rise.
pub fn add_folded_word(folded: String, index: &mut Vec<IndexedWord>)
    requires
        forall|at: int|
            is_first(counts(old(index)@), folded@, at) ==> old(index)@[at].appeared < i64::MAX,
    ensures
        counts(final(index)@) == recorded(counts(old(index)@), folded@),
        well_formed(counts(old(index)@)) ==> well_formed(counts(final(index)@)),
{
    proof {
        if well_formed(counts(index@)) {
            lemma_recorded_well_formed(counts(index@), folded@);
        }
    }
    let mut at: usize = 0;
    while at < index.len()
        invariant
            at <= index.len(),
            index@ == old(index)@,
            forall|before: int| 0 <= before < at ==> counts(index@)[before].word != folded@,
            forall|first: int|
                is_first(counts(index@), folded@, first) ==> index@[first].appeared < i64::MAX,
        decreases index.len() - at,
    {
        if index[at].word == folded {
            assert(is_first(counts(index@), folded@, at as int));
            index[at].appeared += 1;
            assert(counts(index@) =~= recorded(counts(old(index)@), folded@));
            return ;
        }
        at += 1;
    }
    assert(forall|at: int| !is_first(counts(index@), folded@, at));
    let new_word = IndexedWord { word: folded, appeared: 1 };
    index.push(new_word);
    assert(counts(index@) =~= recorded(counts(old(index)@), folded@));
}

/// Add a word to a given index.
///
/// The word is folded to lower case first. A word that the index already
/// holds counts one more; a new word is appended with a count of one. No
/// count of the index may stand at its limit.
pub fn add_word(word: String, index: &mut Vec<IndexedWord>)
    requires
        forall|at: int| 0 <= at < old(index).len() ==> old(index)@[at].appeared < i64::MAX,
    ensures
        counts(final(index)@) == recorded(counts(old(index)@), lowercase(word@)),
        well_formed(counts(old(index)@)) ==> well_formed(counts(final(index)@)),
{
    let folded = word.as_str().to_lowercase();
    add_folded_word(folded, index);
}

} // verus!
