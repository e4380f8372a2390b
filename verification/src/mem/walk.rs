//! The decisions of an allocation in a bitmap tree, each taken upon the
//! value of one word: where the walk down from the root goes on, whether
//! a claim of a leaf bit was won, and whether a word has become full.
//!
//! The tree that one owner holds and the tree that several processors
//! share take the same decisions; they differ in how they read and write
//! the words.

use super::bits::{bit_mask, bit_set, lowest_clear_bit};
use super::geometry::layer_len;
use super::page_alloc::{lemma_child_index, lemma_layers_ordered};
use super::{MAX_HEIGHT, WORD_BITS, WORD_MAX};
use vstd::prelude::*;

verus! {

/// What the walk down the tree does on a word.
#[derive(Clone, Copy, Debug, PartialEq, Eq, Structural)]
pub enum Descent {
    /// The root word is full: the tree has no free page.
    Full,
    /// A word below the root is full, though the bit that led to it was
    /// clear: another processor has changed the tree. Start over.
    Raced,
    /// The word is a leaf word, and this bit of it is clear.
    Leaf(usize),
    /// Go on with this word of the next layer.
    Down(usize),
}

/// What the walk down the tree does on word `word_idx` of layer `layer`,
/// in a tree of height `height`, when the word holds `word`.
pub open spec fn descent_of(word: u64, layer: int, height: int, word_idx: int) -> Descent {
    let bit = vstd::std_specs::bits::u64_trailing_ones(word) as int;
    if bit == 64 {
        if layer == 0 {
            Descent::Full
        } else {
            Descent::Raced
        }
    } else if layer == height - 1 {
        Descent::Leaf(bit as usize)
    } else {
        Descent::Down((word_idx * 64 + bit) as usize)
    }
}

/// Decides how the walk down the tree goes on from a word.
pub fn descend(word: u64, layer: usize, height: usize, word_idx: usize) -> (r: Descent)
    requires
        layer < height <= MAX_HEIGHT,
        word_idx < layer_len(layer as nat),
    ensures
        r == descent_of(word, layer as int, height as int, word_idx as int),
        match r {
            Descent::Leaf(bit) => bit < 64 && !bit_set(word, bit as int),
            Descent::Down(next) => next < layer_len((layer + 1) as nat) && next / 64 == word_idx
                && !bit_set(word, (next % 64) as int),
            _ => word == WORD_MAX,
        },
{
    let bit_idx = lowest_clear_bit(word);
    if bit_idx == WORD_BITS {
        // Full root word means no free pages left in this tree
        // Full word in non root word means another thread modified the tree and we should restart the search
        if layer == 0 {
            return Descent::Full;
        }
        return Descent::Raced;
    }
    // Reached leaf layer
    if layer == height - 1 {
        return Descent::Leaf(bit_idx);
    }
    proof {
        lemma_layers_ordered();
        lemma_child_index(layer as nat, word_idx as nat, bit_idx as nat);
    }
    Descent::Down(word_idx * WORD_BITS + bit_idx)
}

/// Whether the read-modify-write that set bit `bit` of a word claimed the
/// bit: it did if the bit was clear in the value that the word held before.
pub fn claim_won(old: u64, bit: usize) -> (r: bool)
    requires
        bit < 64,
    ensures
        r == !bit_set(old, bit as int),
{
    let mask = bit_mask(bit);
    proof {
        let b = bit as u64;
        assert((old & (1u64 << b) == 0) == !((old >> b) & 1 == 1)) by (bit_vector)
            requires
                b < 64,
        ;
    }
    old & mask == 0
}

/// Whether a word that held `old` is full once its bit `bit` is set.
pub fn fills_word(old: u64, bit: usize) -> (r: bool)
    requires
        bit < 64,
    ensures
        r == ((old | (1u64 << (bit as u64))) == WORD_MAX),
{
    let mask = bit_mask(bit);
    old | mask == WORD_MAX
}

} // verus!
