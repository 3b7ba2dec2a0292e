//! What the anagram enumerator may use: a minimum word length and an
//! optional cap on the number of words.

use vstd::prelude::*;

use crate::anagram_key::AnagramKey;

verus! {

#[derive(Clone, Copy, Debug)]
pub struct AnagramSettings {
    pub min_word_length: u8,
    pub max_words: Option<usize>,
}

impl AnagramSettings {
    /// Whether a key is long enough to stand as a word.
    pub fn allow_key(&self, key: &AnagramKey) -> (r: bool)
        ensures
            r == (key.len >= self.min_word_length),
    {
        key.is_length_at_least(self.min_word_length)
    }
}

} // verus!
