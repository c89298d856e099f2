//! Splitting a text into words.
//!
//! A word is a run of alphanumeric characters that no alphanumeric character
//! precedes or follows. Whatever stands between two words separates them and
//! is dropped.

use vstd::prelude::*;

verus! {

/// Whether a character is alphanumeric, as `char::is_alphanumeric` tells.
pub uninterp spec fn alphanumeric(character: char) -> bool;

/// `char::is_alphanumeric` tells whether the character is a letter or a
/// number; the answer depends on the character alone.
pub assume_specification[ char::is_alphanumeric ](character: char) -> (yes: bool)
    ensures
        yes == alphanumeric(character),
;

/// `String::push` appends the character to the end of the string.
pub assume_specification[ String::push ](text: &mut String, character: char)
    ensures
        final(text)@ == old(text)@.push(character),
;

/// Whether every character of `run` is alphanumeric.
pub open spec fn is_run(run: Seq<char>) -> bool {
    forall|k: int| 0 <= k < run.len() ==> alphanumeric(#[trigger] run[k])
}

/// The number of alphanumeric characters that `text` starts with.
pub open spec fn run_length(text: Seq<char>) -> nat
    decreases text.len(),
{
    if text.len() > 0 && alphanumeric(text[0]) {
        1 + run_length(text.drop_first())
    } else {
        0
    }
}

/// The words of `text`, first to last.
///
/// A text that starts with a separator has the words of what follows the
/// separator. Any other text starts with a word, which is the longest run
/// that it starts with, and goes on with the words of what follows that run.
pub open spec fn words(text: Seq<char>) -> Seq<Seq<char>>
    decreases text.len(),
    via words_terminates
{
    if text.len() == 0 {
        Seq::empty()
    } else if alphanumeric(text[0]) {
        let n = run_length(text) as int;
        seq![text.take(n)] + words(text.skip(n))
    } else {
        words(text.drop_first())
    }
}

#[via_fn]
proof fn words_terminates(text: Seq<char>) {
    lemma_run_length_bound(text);
}

/// A text starts with no more characters than it has.
proof fn lemma_run_length_bound(text: Seq<char>)
    ensures
        run_length(text) <= text.len(),
    decreases text.len(),
{
    if text.len() > 0 {
        lemma_run_length_bound(text.drop_first());
    }
}

/// The characters that [`run_length`] counts are a run, and what follows
/// them is a separator or the end of the text.
pub proof fn lemma_run_length_ends(text: Seq<char>)
    ensures
        run_length(text) <= text.len(),
        is_run(text.take(run_length(text) as int)),
        run_length(text) < text.len() ==> !alphanumeric(text[run_length(text) as int]),
    decreases text.len(),
{
    if text.len() > 0 && alphanumeric(text[0]) {
        let rest = text.drop_first();
        let n = run_length(text) as int;
        lemma_run_length_ends(rest);
        assert forall|k: int| 0 <= k < n implies alphanumeric(#[trigger] text.take(n)[k]) by {
            if k > 0 {
                assert(text.take(n)[k] == rest.take(n - 1)[k - 1]);
            }
        }
        if n < text.len() {
            assert(text[n] == rest[n - 1]);
        }
    }
}

/// Every word is a run of at least one character.
pub proof fn lemma_words_are_runs(text: Seq<char>)
    ensures
        forall|k: int|
            0 <= k < words(text).len() ==> (#[trigger] words(text)[k]).len() > 0 && is_run(
                words(text)[k],
            ),
    decreases text.len(),
{
    if text.len() > 0 {
        if alphanumeric(text[0]) {
            let n = run_length(text) as int;
            lemma_run_length_ends(text);
            lemma_words_are_runs(text.skip(n));
            assert(words(text) == seq![text.take(n)] + words(text.skip(n)));
            assert forall|k: int| 0 <= k < words(text).len() implies (#[trigger] words(
                text,
            )[k]).len() > 0 && is_run(words(text)[k]) by {
                if k > 0 {
                    assert(words(text)[k] == words(text.skip(n))[k - 1]);
                } else {
                    assert(words(text)[0] == text.take(n));
                }
            }
        } else {
            lemma_words_are_runs(text.drop_first());
            assert(words(text) == words(text.drop_first()));
        }
    }
}

/// A text that is cut where a separator stands, on either side of the cut,
/// has the words of its first part and then those of its second part.
pub proof fn lemma_words_of_parts(first: Seq<char>, second: Seq<char>)
    requires
        first.len() == 0 || second.len() == 0 || !alphanumeric(first.last()) || !alphanumeric(
            second[0],
        ),
    ensures
        words(first + second) == words(first) + words(second),
    decreases first.len(),
{
    let text = first + second;
    if first.len() == 0 {
        assert(text =~= second);
        assert(words(first) + words(second) =~= words(second));
    } else if !alphanumeric(first[0]) {
        let rest = first.drop_first();
        assert(text.drop_first() =~= rest + second);
        if rest.len() > 0 {
            assert(rest.last() == first.last());
        }
        lemma_words_of_parts(rest, second);
    } else {
        let n = run_length(first) as int;
        lemma_run_length_ends(first);
        let run = first.take(n);
        let rest = first.skip(n);
        assert(first =~= run + rest);
        assert(text =~= run + (rest + second));
        if n < first.len() {
            assert(rest[0] == first[n]);
            assert((rest + second)[0] == rest[0]);
            assert(rest.last() == first.last());
            lemma_words_after_run(run, rest + second);
            lemma_words_after_run(run, rest);
            lemma_words_of_parts(rest, second);
            assert(seq![run] + (words(rest) + words(second)) =~= seq![run] + words(rest) + words(
                second,
            ));
        } else {
            assert(run =~= first);
            assert(rest + second =~= second);
            assert(alphanumeric(first[first.len() - 1])) by {
                assert(run[first.len() - 1] == first[first.len() - 1]);
            }
            lemma_words_after_run(first, second);
            lemma_words_after_run(first, Seq::empty());
            assert(first + Seq::<char>::empty() =~= first);
            assert(seq![first] + words(Seq::<char>::empty()) =~= seq![first]);
        }
    }
}

/// A run that a separator or the end of the text follows is counted whole.
proof fn lemma_run_length_of_run(run: Seq<char>, rest: Seq<char>)
    requires
        is_run(run),
        rest.len() == 0 || !alphanumeric(rest[0]),
    ensures
        run_length(run + rest) == run.len(),
    decreases run.len(),
{
    if run.len() == 0 {
        assert(run + rest =~= rest);
    } else {
        assert((run + rest).drop_first() =~= run.drop_first() + rest);
        assert(alphanumeric(run[0]));
        assert forall|k: int| 0 <= k < run.drop_first().len() implies alphanumeric(
            #[trigger] run.drop_first()[k],
        ) by {
            assert(run.drop_first()[k] == run[k + 1]);
        }
        lemma_run_length_of_run(run.drop_first(), rest);
    }
}

/// A run that a separator or the end of the text follows is the first word
/// of the text, and the other words are those of what follows the run.
pub proof fn lemma_words_after_run(run: Seq<char>, rest: Seq<char>)
    requires
        is_run(run),
        run.len() > 0,
        rest.len() == 0 || !alphanumeric(rest[0]),
    ensures
        words(run + rest) == seq![run] + words(rest),
{
    lemma_run_length_of_run(run, rest);
    assert(alphanumeric(run[0]));
    assert((run + rest).take(run.len() as int) =~= run);
    assert((run + rest).skip(run.len() as int) =~= rest);
}

/// Take one character of a text into the word that is being read.
///
/// `in_word` tells whether the character belongs to a word. One that does is
/// appended to `current_word`. One that does not ends the word that was being
/// read: that word is handed out, if it held anything, and `current_word` is
/// left empty.
pub fn take_character(current_word: &mut String, character: char, in_word: bool) -> (finished:
    Option<String>)
    ensures
        in_word ==> finished is None && final(current_word)@ == old(current_word)@.push(character),
        !in_word ==> final(current_word)@ == Seq::<char>::empty(),
        !in_word && old(current_word)@.len() == 0 ==> finished is None,
        !in_word && old(current_word)@.len() > 0 ==> finished is Some && finished->0@ == old(
            current_word,
        )@,
{
    if in_word {
        current_word.push(character);
        None
    } else if current_word.as_str().is_empty() {
        assert(current_word@ =~= Seq::<char>::empty());
        None
    } else {
        let mut word = String::new();
        std::mem::swap(current_word, &mut word);
        Some(word)
    }
}

} // verus!
