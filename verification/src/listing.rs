//! Lining up a listing of counted words.

use vstd::prelude::*;

verus! {

/// The number of tabs that separate a word from its count in a listing.
///
/// A word of five bytes or more is followed by one tab and a shorter word by
/// two, so that the counts behind words of up to twelve bytes, which are
/// printed between quotes and before a colon, start in the same column.
pub fn tabs_after(word: &str) -> (tabs: usize)
    ensures
        tabs == if word.len() >= 5 {
            1usize
        } else {
            2usize
        },
{
    if word.len() >= 5 {
        1
    } else {
        2
    }
}

} // verus!
