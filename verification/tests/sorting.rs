use lib_word_count::pivot_sort::{pivot_sort_high_to_low, Sortable};
use lib_word_count::word_index::IndexedWord;

// The id tells items of equal weight apart.
#[derive(Debug, PartialEq, Clone)]
struct Something {
    weight: i64,
    id: i64,
}

impl Sortable for Something {
    fn weight(&self) -> i64 {
        self.weight
    }
}

fn some(weight: i64, id: i64) -> Something {
    Something { weight, id }
}

fn entry(word: &str, appeared: i64) -> IndexedWord {
    IndexedWord { word: word.to_string(), appeared }
}

#[test]
fn weight_is_the_value_to_sort_by() {
    let something = some(2, 7);
    assert_eq!(something.weight(), 2i64);
    assert_eq!(entry("text", 12).weight(), 12i64);
}

#[test]
fn sorts_an_empty_vector() {
    let mut items: Vec<Something> = Vec::new();
    pivot_sort_high_to_low(&mut items);
    assert!(items.is_empty());
}

#[test]
fn sorts_a_single_item() {
    let mut items = vec![some(3, 1)];
    pivot_sort_high_to_low(&mut items);
    assert_eq!(items, vec![some(3, 1)]);
}

#[test]
fn sorts_from_highest_to_lowest() {
    let mut sort_me = vec![
        some(5, 1),
        some(2, 1),
        some(1, 1),
        some(3, 1),
        some(2, 2),
        some(5, 2),
        some(4, 1),
    ];
    pivot_sort_high_to_low(&mut sort_me);
    assert_eq!(
        sort_me,
        vec![
            some(5, 1),
            some(5, 2),
            some(4, 1),
            some(3, 1),
            some(2, 1),
            some(2, 2),
            some(1, 1),
        ]
    );
}

#[test]
fn sorts_negative_and_extreme_weights() {
    let mut items = vec![some(0, 1), some(i64::MIN, 2), some(-1, 3), some(i64::MAX, 4)];
    pivot_sort_high_to_low(&mut items);
    assert_eq!(items, vec![some(i64::MAX, 4), some(0, 1), some(-1, 3), some(i64::MIN, 2)]);
}

#[test]
fn equal_weights_come_out_last_first() {
    let mut items = vec![some(1, 1), some(1, 2), some(1, 3)];
    pivot_sort_high_to_low(&mut items);
    assert_eq!(items, vec![some(1, 3), some(1, 2), some(1, 1)]);
}

#[test]
fn heavier_and_lighter_buckets_are_sorted_again() {
    // pivot (2, 9); the heavier bucket is filled as (3, 2), (3, 1) and sorted
    // to (3, 1), (3, 2); the lighter one is filled as (1, 2), (1, 1) and
    // sorted to (1, 1), (1, 2)
    let mut items = vec![some(3, 1), some(1, 1), some(3, 2), some(1, 2), some(2, 9)];
    pivot_sort_high_to_low(&mut items);
    assert_eq!(items, vec![some(3, 1), some(3, 2), some(2, 9), some(1, 1), some(1, 2)]);
}

#[test]
fn sorted_input_without_ties_stays_as_it_is() {
    let sorted = vec![some(9, 1), some(7, 2), some(4, 3), some(2, 4), some(-3, 5)];
    let mut items = sorted.clone();
    pivot_sort_high_to_low(&mut items);
    assert_eq!(items, sorted);
    pivot_sort_high_to_low(&mut items);
    assert_eq!(items, sorted);
}

#[test]
fn sorted_input_with_ties_keeps_its_weights() {
    let sorted = vec![some(2, 1), some(2, 2), some(1, 1), some(1, 2)];
    let mut items = sorted.clone();
    pivot_sort_high_to_low(&mut items);
    // the run of the lowest weight is turned around, the one above it stays
    assert_eq!(items, vec![some(2, 1), some(2, 2), some(1, 2), some(1, 1)]);
    pivot_sort_high_to_low(&mut items);
    assert_eq!(items, sorted);
}

#[test]
fn sorted_input_of_three_runs() {
    let mut items =
        vec![some(3, 1), some(3, 2), some(2, 1), some(2, 2), some(1, 1), some(1, 2)];
    pivot_sort_high_to_low(&mut items);
    assert_eq!(
        items,
        vec![some(3, 1), some(3, 2), some(2, 2), some(2, 1), some(1, 2), some(1, 1)]
    );
}

#[test]
fn reversed_input_is_sorted() {
    let mut items = vec![some(1, 1), some(2, 2), some(3, 3), some(4, 4)];
    pivot_sort_high_to_low(&mut items);
    assert_eq!(items, vec![some(4, 4), some(3, 3), some(2, 2), some(1, 1)]);
}

fn scrambled(len: usize) -> Vec<Something> {
    let mut state: u64 = 0x2545_f491_4f6c_dd1d;
    let mut items = Vec::new();
    for id in 0..len {
        state = state.wrapping_mul(6364136223846793005).wrapping_add(1442695040888963407);
        items.push(some(((state >> 33) % 17) as i64 - 8, id as i64));
    }
    items
}

#[test]
fn output_is_a_permutation_of_the_input() {
    let input = scrambled(200);
    let mut items = input.clone();
    pivot_sort_high_to_low(&mut items);
    assert_eq!(items.len(), input.len());
    let mut ids: Vec<i64> = items.iter().map(|item| item.id).collect();
    ids.sort();
    let expected: Vec<i64> = (0..200).collect();
    assert_eq!(ids, expected);
    for item in &items {
        assert_eq!(input[item.id as usize], *item);
    }
}

#[test]
fn output_weights_never_rise() {
    let mut items = scrambled(200);
    pivot_sort_high_to_low(&mut items);
    for i in 0..items.len() {
        for j in i..items.len() {
            assert!(items[i].weight >= items[j].weight);
        }
    }
}

#[test]
fn sorts_indexed_words_by_their_count() {
    let mut index = vec![entry("a", 1), entry("b", 3), entry("c", 2)];
    pivot_sort_high_to_low(&mut index);
    assert_eq!(index, vec![entry("b", 3), entry("c", 2), entry("a", 1)]);
}

#[test]
fn sorted_input_of_four_runs() {
    // the two upper runs stay, the two lower ones are turned around
    let mut items = vec![
        some(4, 1),
        some(4, 2),
        some(3, 1),
        some(3, 2),
        some(2, 1),
        some(2, 2),
        some(1, 1),
        some(1, 2),
    ];
    pivot_sort_high_to_low(&mut items);
    assert_eq!(
        items,
        vec![
            some(4, 1),
            some(4, 2),
            some(3, 1),
            some(3, 2),
            some(2, 2),
            some(2, 1),
            some(1, 2),
            some(1, 1),
        ]
    );
}

#[test]
fn sorted_input_of_five_runs() {
    // the run in the middle has as many weights above it as below it
    let mut items = vec![
        some(5, 1),
        some(5, 2),
        some(4, 1),
        some(4, 2),
        some(3, 1),
        some(3, 2),
        some(3, 3),
        some(2, 1),
        some(2, 2),
        some(1, 1),
        some(1, 2),
    ];
    pivot_sort_high_to_low(&mut items);
    assert_eq!(
        items,
        vec![
            some(5, 1),
            some(5, 2),
            some(4, 1),
            some(4, 2),
            some(3, 3),
            some(3, 2),
            some(3, 1),
            some(2, 2),
            some(2, 1),
            some(1, 2),
            some(1, 1),
        ]
    );
}

#[test]
fn sorted_input_with_equal_items_in_its_runs_stays_as_it_is() {
    let sorted = vec![some(2, 1), some(2, 2), some(1, 7), some(1, 7), some(1, 7)];
    let mut items = sorted.clone();
    pivot_sort_high_to_low(&mut items);
    assert_eq!(items, sorted);
}

#[test]
fn sorting_twice_more_gives_a_sorted_sequence_back() {
    let mut items = scrambled(200);
    pivot_sort_high_to_low(&mut items);
    let sorted = items.clone();
    pivot_sort_high_to_low(&mut items);
    pivot_sort_high_to_low(&mut items);
    assert_eq!(items, sorted);
}
