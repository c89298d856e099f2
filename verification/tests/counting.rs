use lib_word_count::count_words;
use lib_word_count::tokenizer::take_character;
use lib_word_count::word_index::IndexedWord;

fn entry(word: &str, appeared: i64) -> IndexedWord {
    IndexedWord { word: word.to_string(), appeared }
}

fn counted(input: &str) -> Vec<IndexedWord> {
    let mut word_index = Vec::new();
    count_words(input, &mut word_index);
    word_index
}

#[test]
fn counts_the_words_of_a_sentence() {
    let word_index = counted("I like cookies. Mmm... Cookies.");
    assert_eq!(word_index.len(), 4);
    assert_eq!(
        word_index,
        vec![entry("cookies", 2), entry("mmm", 1), entry("like", 1), entry("i", 1)]
    );
}

#[test]
fn counts_nothing_in_an_empty_text() {
    assert_eq!(counted(""), Vec::new());
}

#[test]
fn counts_nothing_between_separators() {
    assert_eq!(counted(" .,;!?\n\t--- "), Vec::new());
}

#[test]
fn counts_a_word_that_ends_the_text() {
    assert_eq!(counted("hello world"), vec![entry("world", 1), entry("hello", 1)]);
    assert_eq!(counted("word"), vec![entry("word", 1)]);
}

#[test]
fn counts_a_word_that_starts_the_text() {
    assert_eq!(counted("one, two"), vec![entry("two", 1), entry("one", 1)]);
}

#[test]
fn several_separators_separate_once() {
    assert_eq!(counted("a -- a ... b"), vec![entry("a", 2), entry("b", 1)]);
}

#[test]
fn digits_and_letters_make_words() {
    assert_eq!(
        counted("abc123 456 x_y"),
        vec![entry("y", 1), entry("x", 1), entry("456", 1), entry("abc123", 1)]
    );
}

#[test]
fn letters_beyond_ascii_make_words() {
    assert_eq!(counted("Café, café; CAFÉ!"), vec![entry("café", 3)]);
    assert_eq!(counted("naïve—naïve"), vec![entry("naïve", 2)]);
}

#[test]
fn counts_into_an_index_that_holds_words() {
    let mut word_index = vec![entry("b", 1), entry("a", 1)];
    count_words("A c a", &mut word_index);
    assert_eq!(word_index, vec![entry("a", 3), entry("c", 1), entry("b", 1)]);
}

#[test]
fn ranks_by_the_number_of_appearances() {
    let word_index = counted("x y y z z z y z z");
    assert_eq!(word_index, vec![entry("z", 5), entry("y", 3), entry("x", 1)]);
}

#[test]
fn a_character_of_a_word_is_appended() {
    let mut current_word = "ab".to_string();
    let finished = take_character(&mut current_word, 'c', true);
    assert_eq!(finished, None);
    assert_eq!(current_word, "abc");
}

#[test]
fn a_separator_ends_the_word() {
    let mut current_word = "ab".to_string();
    let finished = take_character(&mut current_word, '.', false);
    assert_eq!(finished, Some("ab".to_string()));
    assert_eq!(current_word, "");
}

#[test]
fn a_separator_after_a_separator_ends_nothing() {
    let mut current_word = String::new();
    let finished = take_character(&mut current_word, ' ', false);
    assert_eq!(finished, None);
    assert_eq!(current_word, "");
}

#[test]
fn the_caller_decides_what_belongs_to_a_word() {
    let mut current_word = String::new();
    assert_eq!(take_character(&mut current_word, '-', true), None);
    assert_eq!(take_character(&mut current_word, 'a', true), None);
    assert_eq!(take_character(&mut current_word, 'b', false), Some("-a".to_string()));
    assert_eq!(current_word, "");
}

#[test]
fn short_words_are_followed_by_two_tabs() {
    assert_eq!(lib_word_count::listing::tabs_after(""), 2);
    assert_eq!(lib_word_count::listing::tabs_after("a"), 2);
    assert_eq!(lib_word_count::listing::tabs_after("four"), 2);
}

#[test]
fn long_words_are_followed_by_one_tab() {
    assert_eq!(lib_word_count::listing::tabs_after("fiver"), 1);
    assert_eq!(lib_word_count::listing::tabs_after("cookies"), 1);
}

#[test]
fn the_length_of_a_word_is_counted_in_bytes() {
    // three characters, six bytes
    assert_eq!(lib_word_count::listing::tabs_after("ééé"), 1);
    // two characters, four bytes
    assert_eq!(lib_word_count::listing::tabs_after("éé"), 2);
}
