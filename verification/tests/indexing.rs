use lib_word_count::pivot_sort::pivot_sort_high_to_low;
use lib_word_count::word_index::{add_folded_word, add_word, IndexedWord};

fn entry(word: &str, appeared: i64) -> IndexedWord {
    IndexedWord { word: word.to_string(), appeared }
}

#[test]
fn indexed_word_holds_a_word_and_its_count() {
    let indexed_word = IndexedWord { word: "Text".to_string(), appeared: 12 };
    assert_eq!(indexed_word.word, "Text".to_string());
    assert_eq!(indexed_word.appeared, 12i64);
}

#[test]
fn add_word_counts_without_regard_to_case() {
    let mut index = Vec::new();
    add_word("Hello".to_string(), &mut index);
    add_word("hELLO".to_string(), &mut index);
    add_word("World".to_string(), &mut index);
    add_word("HELLO".to_string(), &mut index);
    add_word("PFUDOR".to_string(), &mut index);
    assert_eq!(index.len(), 3);
    assert_eq!(index[0], entry("hello", 3));
    assert_eq!(index[1], entry("world", 1));
    assert_eq!(index[2], entry("pfudor", 1));
}

#[test]
fn three_spellings_make_one_entry() {
    let mut index = Vec::new();
    add_word("Hello".to_string(), &mut index);
    add_word("hELLO".to_string(), &mut index);
    add_word("HELLO".to_string(), &mut index);
    assert_eq!(index, vec![entry("hello", 3)]);
}

#[test]
fn a_new_word_starts_at_one_at_the_end() {
    let mut index = vec![entry("first", 4), entry("second", 2)];
    add_word("Third".to_string(), &mut index);
    assert_eq!(index, vec![entry("first", 4), entry("second", 2), entry("third", 1)]);
}

#[test]
fn a_known_word_counts_one_more_in_place() {
    let mut index = vec![entry("first", 4), entry("second", 2), entry("third", 1)];
    add_word("SECOND".to_string(), &mut index);
    assert_eq!(index, vec![entry("first", 4), entry("second", 3), entry("third", 1)]);
}

#[test]
fn only_the_first_of_two_equal_entries_counts() {
    let mut index = vec![entry("twice", 1), entry("other", 1), entry("twice", 5)];
    add_word("Twice".to_string(), &mut index);
    assert_eq!(index, vec![entry("twice", 2), entry("other", 1), entry("twice", 5)]);
}

#[test]
fn a_count_just_below_the_limit_can_rise() {
    let mut index = vec![entry("many", i64::MAX - 1)];
    add_word("many".to_string(), &mut index);
    assert_eq!(index, vec![entry("many", i64::MAX)]);
}

#[test]
fn a_full_count_does_not_hinder_another_word() {
    let mut index = vec![entry("full", i64::MAX)];
    add_folded_word("other".to_string(), &mut index);
    assert_eq!(index, vec![entry("full", i64::MAX), entry("other", 1)]);
}

#[test]
fn add_folded_word_takes_the_word_as_it_is() {
    let mut index = Vec::new();
    add_folded_word("hello".to_string(), &mut index);
    add_folded_word("hello".to_string(), &mut index);
    add_folded_word("Hello".to_string(), &mut index);
    assert_eq!(index, vec![entry("hello", 2), entry("Hello", 1)]);
}

#[test]
fn add_word_folds_letters_beyond_ascii() {
    let mut index = Vec::new();
    add_word("ÉCOLE".to_string(), &mut index);
    add_word("école".to_string(), &mut index);
    add_word("ΟΔΟΣ".to_string(), &mut index);
    add_word("Straße".to_string(), &mut index);
    assert_eq!(index, vec![entry("école", 2), entry("οδος", 1), entry("straße", 1)]);
}

#[test]
fn entries_stand_in_the_order_their_words_were_first_seen() {
    let mut index = Vec::new();
    for word in ["I", "like", "cookies", "Mmm", "Cookies"] {
        add_word(word.to_string(), &mut index);
    }
    assert_eq!(index.len(), 4);
    assert_eq!(
        index,
        vec![entry("i", 1), entry("like", 1), entry("cookies", 2), entry("mmm", 1)]
    );
}

#[test]
fn the_most_frequent_word_comes_first_after_sorting() {
    let mut index = Vec::new();
    for word in ["I", "like", "cookies", "Mmm", "Cookies"] {
        add_word(word.to_string(), &mut index);
    }
    pivot_sort_high_to_low(&mut index);
    assert_eq!(
        index,
        vec![entry("cookies", 2), entry("mmm", 1), entry("like", 1), entry("i", 1)]
    );
}
