//! The bitmap tree for use by several processors at once.
//!
//! The words are atomic, and the tree is changed through shared
//! references. An attempt to allocate walks down from the root along the
//! lowest clear bits, claims a leaf bit with one atomic read-modify-write,
//! and then marks, layer by layer, every word that it saw become full. No
//! lock is taken. An attempt that finds another processor in its way gives
//! up and reports so; the caller starts over from the root.
//!
//! What the words hold depends on what other processors do, so the
//! functions here promise only what holds whatever the words held. What
//! is decided upon the value of a word is decided by the functions of the
//! module `walk`, whose results are exact.

use super::bits::bit_mask;
use super::geometry::{layer_len, layer_offset};
use super::page_alloc::{
    layer_start, lemma_child_index, lemma_layers_ordered, lemma_leaf_index, lemma_parent_index,
};
use super::walk::{claim_won, descend, fills_word, Descent};
use super::{MAX_HEIGHT, WORD_BITS};
use std::sync::atomic::{AtomicU64, Ordering};
use vstd::prelude::*;

verus! {

/// How an attempt to allocate a page ended.
#[derive(Clone, Copy, Debug, PartialEq, Eq, Structural)]
pub enum Attempt {
    /// This page was claimed.
    Allocated(usize),
    /// The tree has no free page.
    Full,
    /// Another processor was in the way; nothing was claimed.
    Raced,
}

/// Reads a word. The read is an acquire: what the walk down the tree
/// decides upon it comes before the claim that the decision leads to.
fn load_acquire(word: &AtomicU64) -> u64 {
    word.load(Ordering::Acquire)
}

/// Sets the bits of `mask` in a word, in one atomic step, and returns what
/// the word held before.
fn fetch_set(word: &AtomicU64, mask: u64) -> u64 {
    word.fetch_or(mask, Ordering::AcqRel)
}

/// Clears the bits of `mask` in a word, in one atomic step, and returns
/// what the word held before.
fn fetch_clear(word: &AtomicU64, mask: u64) -> u64 {
    word.fetch_and(!mask, Ordering::AcqRel)
}

/// A bitmap tree of atomic words.
pub struct SharedTree {
    words: Vec<AtomicU64>,
    height: usize,
}

impl SharedTree {
    /// Number of layers of the tree.
    pub closed spec fn height(&self) -> nat {
        self.height as nat
    }

    /// Number of words of the tree.
    pub closed spec fn num_words(&self) -> nat {
        self.words@.len()
    }

    /// Number of pages the tree has a leaf bit for.
    pub open spec fn capacity(&self) -> nat {
        layer_len(self.height())
    }

    /// The tree has a supported height and the matching number of words.
    pub open spec fn wf(&self) -> bool {
        &&& 1 <= self.height() <= MAX_HEIGHT
        &&& self.num_words() == layer_offset(self.height())
    }

    /// A tree of the given height with every word zero.
    pub fn new(height: usize) -> (tree: Self)
        requires
            1 <= height <= MAX_HEIGHT,
        ensures
            tree.wf(),
            tree.height() == height,
    {
        let total = layer_start(height);
        let mut words: Vec<AtomicU64> = Vec::new();
        let mut i: usize = 0;
        while i < total
            invariant
                i <= total,
                words@.len() == i,
            decreases total - i,
        {
            words.push(AtomicU64::new(0));
            i = i + 1;
        }
        SharedTree { words, height }
    }

    /// Height of the tree.
    pub fn get_height(&self) -> (h: usize)
        ensures
            h == self.height(),
    {
        self.height
    }

    /// Total number of words of the tree.
    pub fn word_count(&self) -> (n: usize)
        ensures
            n == self.num_words(),
    {
        self.words.len()
    }

    /// What word `idx` of the flat word sequence holds at the moment.
    pub fn load_word(&self, idx: usize) -> u64
        requires
            idx < self.num_words(),
    {
        load_acquire(&self.words[idx])
    }

    /// Makes one attempt to allocate a page: walks down from the root to
    /// a leaf bit that looks free, tries to claim it, and, if it got the
    /// bit, marks upwards every word that it saw become full.
    pub fn try_allocate(&self) -> (r: Attempt)
        requires
            self.wf(),
        ensures
            match r {
                Attempt::Allocated(page) => page < self.capacity(),
                _ => true,
            },
    {
        let height = self.height;
        // Walk through the tree to find a free page
        let mut layer: usize = 0;
        let mut word_idx: usize = 0;
        let mut leaf_bit_idx: usize = 0;
        let mut found = false;
        proof {
            lemma_layers_ordered();
        }
        while !found
            invariant
                self.wf(),
                height == self.height(),
                layer < height,
                word_idx < layer_len(layer as nat),
                found ==> layer == height - 1 && leaf_bit_idx < 64,
            decreases height - layer, (if found { 0int } else { 1int }),
        {
            proof {
                lemma_layers_ordered();
            }
            let word = load_acquire(&self.words[layer_start(layer) + word_idx]);
            match descend(word, layer, height, word_idx) {
                Descent::Full => {
                    return Attempt::Full;
                },
                Descent::Raced => {
                    return Attempt::Raced;
                },
                Descent::Leaf(bit_idx) => {
                    leaf_bit_idx = bit_idx;
                    found = true;
                },
                Descent::Down(next) => {
                    word_idx = next;
                    layer = layer + 1;
                },
            }
        }
        let leaf_word_idx = word_idx;
        proof {
            lemma_layers_ordered();
            lemma_child_index(layer as nat, leaf_word_idx as nat, leaf_bit_idx as nat);
        }
        // Free page's index
        let page_idx = leaf_word_idx * WORD_BITS + leaf_bit_idx;
        // Mark the page as occupied in the leaf word
        let old = fetch_set(&self.words[layer_start(layer) + leaf_word_idx], bit_mask(leaf_bit_idx));
        // If the bit was already set in the `old` value, it means another thread swooped in and allocated
        // this page before we could
        if !claim_won(old, leaf_bit_idx) {
            return Attempt::Raced;
        }
        // Walk up the tree, updating the middle and root words
        let mut child_word_full = fills_word(old, leaf_bit_idx);
        let mut idx = leaf_word_idx;
        while layer > 0
            invariant
                self.wf(),
                height == self.height(),
                layer < height,
                idx < layer_len(layer as nat),
            decreases layer,
        {
            proof {
                lemma_layers_ordered();
                lemma_parent_index(layer as nat, idx as nat);
            }
            let parent_idx = idx / WORD_BITS;
            let parent_bit = idx % WORD_BITS;
            if child_word_full {
                let old = fetch_set(
                    &self.words[layer_start(layer - 1) + parent_idx],
                    bit_mask(parent_bit),
                );
                child_word_full = fills_word(old, parent_bit);
            }
            idx = parent_idx;
            layer = layer - 1;
        }
        Attempt::Allocated(page_idx)
    }

    /// Allocates a page, starting over when another processor gets in the
    /// way, up to `attempts` times in all. The result is that of the last
    /// attempt, or `Raced` if no attempt was allowed.
    pub fn allocate(&self, attempts: usize) -> (r: Attempt)
        requires
            self.wf(),
        ensures
            attempts == 0 ==> r == Attempt::Raced,
            match r {
                Attempt::Allocated(page) => page < self.capacity(),
                _ => true,
            },
    {
        let mut left = attempts;
        while left > 0
            invariant
                self.wf(),
                left <= attempts,
            decreases left,
        {
            match self.try_allocate() {
                Attempt::Raced => {},
                done => {
                    return done;
                },
            }
            left = left - 1;
        }
        Attempt::Raced
    }

    /// Frees page `page_idx`: clears its leaf bit, and then the bit above
    /// it in every layer up to the root.
    pub fn free(&self, page_idx: usize)
        requires
            self.wf(),
            page_idx < self.capacity(),
    {
        let height = self.height;
        proof {
            lemma_layers_ordered();
            lemma_leaf_index(height as nat, page_idx as nat);
        }
        // Mark this page as available in the leaf layer, and walk up the tree updating the middle and root words
        let mut word_idx = page_idx / WORD_BITS;
        let mut bit_idx = page_idx % WORD_BITS;
        let mut layer = height;
        while layer > 0
            invariant
                self.wf(),
                height == self.height(),
                layer <= height,
                bit_idx < 64,
                layer > 0 ==> word_idx < layer_len((layer - 1) as nat),
            decreases layer,
        {
            layer = layer - 1;
            proof {
                lemma_layers_ordered();
                if layer > 0 {
                    lemma_parent_index(layer as nat, word_idx as nat);
                }
            }
            fetch_clear(&self.words[layer_start(layer) + word_idx], bit_mask(bit_idx));
            bit_idx = word_idx % WORD_BITS;
            word_idx = word_idx / WORD_BITS;
        }
    }
}

} // verus!
