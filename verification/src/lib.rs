//! Count the words of a text.
//!
//! Words are counted without regard to case and ranked by the number of times
//! they appear, the most frequent first.

use vstd::prelude::*;

pub mod listing;
pub mod pivot_sort;
pub mod resorting;
pub mod tokenizer;
pub mod word_index;

use crate::pivot_sort::{
    is_descending, lemma_pivot_sorted_descends, lemma_pivot_sorted_maps,
    lemma_pivot_sorted_permutes, pivot_sort_high_to_low, pivot_sorted, weight_of,
};
use crate::tokenizer::{is_run, lemma_words_after_run, take_character, words};
use crate::word_index::{
    add_word, by_count, count_in, count_of, counts, is_first, lemma_recorded_all_count,
    lemma_recorded_all_well_formed, lemma_recorded_limit, lowercase, recorded_all, sightings,
    well_formed, IndexedWord, WordCount,
};

verus! {

/// Words are sorted by the amount of times they appeared.
impl pivot_sort::Sortable for word_index::IndexedWord {
    open spec fn weight_spec(&self) -> i64 {
        self.appeared
    }

    fn weight(&self) -> i64 {
        self.appeared
    }
}

/// Count the appearances of each word in a string.
///
/// Every word of `input` is added to `word_index`, which is then sorted from
/// the most frequent word to the least frequent.
///
/// A count is an `i64`: the text may not have more characters than that can
/// hold, and every count that the index holds already must leave room for
/// them.
pub fn count_words(input: &str, word_index: &mut Vec<IndexedWord>)
    requires
        input@.len() <= i64::MAX,
        forall|at: int|
            0 <= at < old(word_index).len() ==> old(word_index)@[at].appeared + input@.len()
                <= i64::MAX,
    ensures
        counts(final(word_index)@) == pivot_sorted(
            recorded_all(counts(old(word_index)@), words(input@)),
            by_count(),
        ),
        is_descending(counts(final(word_index)@), by_count()),
        well_formed(counts(old(word_index)@)) ==> well_formed(counts(final(word_index)@)),
{
    let mut current_word = String::new();
    let ghost mut done: Seq<Seq<char>> = Seq::empty();
    assert(current_word@ + input@.skip(0) =~= input@);

    for character in it: input.chars()
        invariant
            it.seq() == input@,
            input@.len() <= i64::MAX,
            is_run(current_word@),
            words(input@) == done + words(current_word@ + input@.skip(it.index())),
            counts(word_index@) == recorded_all(counts(old(word_index)@), done),
            done.len() + (if current_word@.len() > 0 {
                1int
            } else {
                0int
            }) <= it.index(),
            forall|at: int|
                0 <= at < word_index.len() ==> word_index@[at].appeared + input@.len() <= i64::MAX
                    + done.len(),
    {
        let ghost before = current_word@;
        let ghost rest = input@.skip(it.index());
        let ghost after = input@.skip(it.index() + 1);
        assert(rest =~= seq![character] + after);
        assert(rest.drop_first() =~= after);
        let in_word = character.is_alphanumeric();
        match take_character(&mut current_word, character, in_word) {
            Some(word) => {
                proof {
                    lemma_words_after_run(before, rest);
                    lemma_recorded_limit(
                        counts(word_index@),
                        lowercase(word@),
                        i64::MAX - input@.len() + done.len(),
                    );
                    assert(done + (seq![before] + words(after)) =~= done.push(before) + words(
                        after,
                    ));
                    assert(done.push(before).drop_last() =~= done);
                    done = done.push(before);
                    assert(current_word@ + after =~= after);
                }
                add_word(word, word_index);
                assert forall|at: int| 0 <= at < word_index.len() implies word_index@[at].appeared
                    + input@.len() <= i64::MAX + done.len() by {
                    assert(counts(word_index@)[at].appeared == word_index@[at].appeared);
                }
            },
            None => {
                proof {
                    if in_word {
                        assert(current_word@ + after =~= before + rest);
                    } else {
                        assert(before + rest =~= rest);
                        assert(current_word@ + after =~= after);
                    }
                }
            },
        }
    }

    let ghost last = current_word@;
    assert(last + input@.skip(input@.len() as int) =~= last);
    if !current_word.as_str().is_empty() {
        proof {
            lemma_words_after_run(last, Seq::empty());
            lemma_recorded_limit(
                counts(word_index@),
                lowercase(last),
                i64::MAX - input@.len() + done.len(),
            );
            assert(last + Seq::<char>::empty() =~= last);
            assert(done + (seq![last] + words(Seq::empty())) =~= done.push(last));
            assert(done.push(last).drop_last() =~= done);
            done = done.push(last);
        }
        add_word(current_word, word_index);
    } else {
        assert(done + words(last) =~= done);
    }

    proof {
        let unsorted = counts(word_index@);
        lemma_pivot_sorted_maps(word_index@, count_of(), weight_of::<IndexedWord>(), by_count());
        lemma_pivot_sorted_descends(unsorted, by_count());
        if well_formed(counts(old(word_index)@)) {
            lemma_recorded_all_well_formed(counts(old(word_index)@), words(input@));
            lemma_ranked_well_formed(unsorted);
        }
    }
    pivot_sort_high_to_low(word_index);
}

/// Sorting a well-formed index by its counts leaves it well-formed.
pub proof fn lemma_ranked_well_formed(index: Seq<WordCount>)
    requires
        well_formed(index),
    ensures
        well_formed(pivot_sorted(index, by_count())),
{
    let ranked = pivot_sorted(index, by_count());
    lemma_pivot_sorted_permutes(index, by_count());
    index.lemma_multiset_has_no_duplicates();
    ranked.lemma_multiset_has_no_duplicates_conv();
    assert forall|i: int| 0 <= i < ranked.len() implies index.contains(#[trigger] ranked[i]) by {
        vstd::seq_lib::to_multiset_contains(ranked, ranked[i]);
        vstd::seq_lib::to_multiset_contains(index, ranked[i]);
        assert(ranked.contains(ranked[i]));
    }
    assert forall|i: int, j: int| 0 <= i < j < ranked.len() implies (#[trigger] ranked[i]).word != (
    #[trigger] ranked[j]).word by {
        assert(index.contains(ranked[i]));
        assert(index.contains(ranked[j]));
    }
    assert forall|i: int| 0 <= i < ranked.len() implies (#[trigger] ranked[i]).appeared >= 1 by {
        assert(index.contains(ranked[i]));
    }
}

/// Sorting a well-formed index by its counts changes of no word what the
/// index tells of it.
pub proof fn lemma_ranked_count(index: Seq<WordCount>, word: Seq<char>)
    requires
        well_formed(index),
    ensures
        count_in(pivot_sorted(index, by_count()), word) == count_in(index, word),
{
    let ranked = pivot_sorted(index, by_count());
    lemma_ranked_well_formed(index);
    lemma_pivot_sorted_permutes(index, by_count());
    if exists|at: int| is_first(index, word, at) {
        let at = choose|at: int| is_first(index, word, at);
        vstd::seq_lib::to_multiset_contains(ranked, index[at]);
        vstd::seq_lib::to_multiset_contains(index, index[at]);
        assert(index.contains(index[at]));
        let place = choose|place: int| 0 <= place < ranked.len() && ranked[place] == index[at];
        assert(is_first(ranked, word, place));
        let first = choose|first: int| is_first(ranked, word, first);
        assert(first == place);
    } else if exists|place: int| is_first(ranked, word, place) {
        let place = choose|place: int| is_first(ranked, word, place);
        vstd::seq_lib::to_multiset_contains(ranked, ranked[place]);
        vstd::seq_lib::to_multiset_contains(index, ranked[place]);
        assert(ranked.contains(ranked[place]));
        let at = choose|at: int| 0 <= at < index.len() && index[at] == ranked[place];
        assert(exists|first: int| is_first(index, word, first)) by {
            if exists|before: int| 0 <= before < at && index[before].word == word {
                let before = choose|before: int| 0 <= before < at && index[before].word == word;
                assert(index[before].word != index[at].word);
            } else {
                assert(is_first(index, word, at));
            }
        }
    }
}

/// Counting the words of a text into an empty index tells of every word how
/// often it stands in the text.
pub proof fn lemma_counted(text: Seq<char>, word: Seq<char>)
    ensures
        count_in(pivot_sorted(recorded_all(Seq::empty(), words(text)), by_count()), word)
            == sightings(words(text), word),
{
    let empty = Seq::<WordCount>::empty();
    lemma_recorded_all_well_formed(empty, words(text));
    lemma_recorded_all_count(empty, words(text), word);
    lemma_ranked_count(recorded_all(empty, words(text)), word);
}

} // verus!
