//! The bitmap tree that tracks which pages of one memory region are taken.
//!
//! The tree is a flat sequence of 64-bit words, root layer first. A leaf bit
//! is set when its page is allocated; a bit of an inner word is set when the
//! child word it stands for is entirely full.

use super::bits::{
    bit_set, lemma_clear_bit, lemma_full_and_empty, lemma_or_bit, lemma_trailing_ones,
};
use super::geometry::{
    div_ceil, ilog, layer_len, layer_offset, lemma_layer_values, lemma_power_monotonic,
    lemma_power_positive, lemma_power_strictly_monotonic, pow, power,
};
use super::walk::{descend, descent_of, fills_word, Descent};
use super::{MAX_HEIGHT, PAGE_SIZE, WORD_BITS, WORD_MAX};
use vstd::prelude::*;
use vstd::slice::slice_subrange;

verus! {

/// Height of the smallest tree that has a leaf bit for each of `pages` pages.
pub open spec fn height_for_pages(pages: nat) -> nat
    decreases pages,
{
    if pages <= 64 {
        1
    } else {
        1 + height_for_pages((pages + 63) / 64)
    }
}

/// Number of pages that a region of `len` bytes occupies.
pub open spec fn pages_for_len(len: nat) -> nat {
    (len + 4095) / 4096
}

/// A page allocator for one region: a bitmap tree of fixed height.
pub struct TreeAlloc {
    words: Vec<u64>,
    height: usize,
}

impl TreeAlloc {
    /// The words of the tree, root layer first.
    pub closed spec fn words(&self) -> Seq<u64> {
        self.words@
    }

    /// Number of layers of the tree.
    pub closed spec fn height(&self) -> nat {
        self.height as nat
    }

    /// Number of pages the tree has a leaf bit for.
    pub open spec fn capacity(&self) -> nat {
        layer_len(self.height())
    }

    /// Word `idx` of layer `layer`.
    pub open spec fn word(&self, layer: nat, idx: nat) -> u64 {
        self.words()[(layer_offset(layer) + idx) as int]
    }

    /// Whether page `page` is marked as allocated in the leaf layer.
    pub open spec fn is_allocated(&self, page: nat) -> bool {
        bit_set(self.word((self.height() - 1) as nat, page / 64), (page % 64) as int)
    }

    /// Number of pages that one word of layer `layer` stands for.
    pub open spec fn reach(&self, layer: nat) -> nat {
        power(64, (self.height() - layer) as nat)
    }

    /// The set of allocated pages.
    pub open spec fn allocated(&self) -> Set<int> {
        Set::new(|p: int| 0 <= p < self.capacity() && self.is_allocated(p as nat))
    }

    /// Number of allocated pages, which is the number of set leaf bits.
    pub open spec fn live_pages(&self) -> nat {
        self.allocated().len()
    }

    /// Whether every page is allocated.
    pub open spec fn is_full(&self) -> bool {
        forall|p: nat| p < self.capacity() ==> self.is_allocated(p)
    }

    /// Bit `bit` of word `idx` in inner layer `layer` is set exactly when the
    /// child word it stands for is all ones.
    pub open spec fn summary_ok(&self, layer: nat, idx: nat, bit: nat) -> bool {
        bit_set(self.word(layer, idx), bit as int) <==> self.word(layer + 1, idx * 64 + bit)
            == WORD_MAX
    }

    /// Every bit of every inner word summarizes its child word exactly.
    pub open spec fn summaries_exact(&self) -> bool {
        forall|layer: nat, idx: nat, bit: nat|
            layer + 1 < self.height() && idx < layer_len(layer) && bit < 64
                ==> #[trigger] self.summary_ok(layer, idx, bit)
    }

    /// The tree has a supported height, the matching number of words, and
    /// exact summaries.
    pub open spec fn wf(&self) -> bool {
        &&& 1 <= self.height() <= MAX_HEIGHT
        &&& self.words().len() == layer_offset(self.height())
        &&& self.summaries_exact()
    }

    /// `post` is `self` after page `page`, free until then, was allocated.
    pub open spec fn allocates(&self, post: &TreeAlloc, page: nat) -> bool {
        &&& post.height() == self.height()
        &&& page < self.capacity()
        &&& !self.is_allocated(page)
        &&& forall|q: nat|
            q < self.capacity() ==> (post.is_allocated(q) <==> (q == page || self.is_allocated(q)))
    }

    /// `post` is `self` after page `page` was freed.
    pub open spec fn frees(&self, post: &TreeAlloc, page: nat) -> bool {
        &&& post.height() == self.height()
        &&& page < self.capacity()
        &&& forall|q: nat|
            q < self.capacity() ==> (post.is_allocated(q) <==> (q != page && self.is_allocated(q)))
    }

    // Tree geometry functions

    /// Total number of words of a tree whose leaf layer has `num_leaf_words`
    /// words.
    pub fn total_words_from_leaf_words(num_leaf_words: usize) -> (r: usize)
        requires
            num_leaf_words >= 1,
            64 * num_leaf_words <= usize::MAX,
        ensures
            r == (64 * num_leaf_words - 1) / 63,
            forall|h: nat| 1 <= h && num_leaf_words == layer_len((h - 1) as nat) ==> r == layer_offset(h),
    {
        proof {
            assert forall|h: nat| 1 <= h && num_leaf_words == layer_len((h - 1) as nat) implies (64
                * num_leaf_words - 1) / 63 == layer_offset(h) by {
                lemma_offset_closed_form(h);
            }
        }
        (WORD_BITS * num_leaf_words - 1) / (WORD_BITS - 1)
    }

    /// Height of a tree whose leaf layer has `num_leaf_words` words.
    pub fn height_from_leaf_words(num_leaf_words: usize) -> (r: usize)
        requires
            num_leaf_words >= 1,
        ensures
            r >= 1,
            layer_len((r - 1) as nat) <= num_leaf_words < layer_len(r as nat),
    {
        ilog(num_leaf_words, WORD_BITS) + 1
    }

    /// Number of leaf words of a tree that has `num_total_words` words.
    pub fn leaf_words_from_total_words(num_total_words: usize) -> (r: usize)
        requires
            63 * num_total_words + 1 <= usize::MAX,
        ensures
            r == (63 * num_total_words + 1) / 64,
            forall|h: nat| 1 <= h && num_total_words == layer_offset(h) ==> r == layer_len((h - 1) as nat),
    {
        proof {
            assert forall|h: nat| 1 <= h && num_total_words == layer_offset(h) implies (63
                * num_total_words + 1) / 64 == layer_len((h - 1) as nat) by {
                lemma_offset_closed_form(h);
            }
        }
        ((WORD_BITS - 1) * num_total_words + 1) / WORD_BITS
    }

    /// Height of a tree that has `num_total_words` words.
    pub fn height_from_total_words(num_total_words: usize) -> (r: usize)
        requires
            num_total_words >= 1,
            63 * num_total_words + 1 <= usize::MAX,
        ensures
            r >= 1,
            forall|h: nat| 1 <= h && num_total_words == layer_offset(h) ==> r == h,
    {
        let leaf_words = Self::leaf_words_from_total_words(num_total_words);
        let r = Self::height_from_leaf_words(leaf_words);
        proof {
            assert forall|h: nat| 1 <= h && num_total_words == layer_offset(h) implies r == h by {
                assert(leaf_words == layer_len((h - 1) as nat));
                if r < h {
                    lemma_power_monotonic(64, r as nat, (h - 1) as nat);
                } else if r > h {
                    lemma_power_strictly_monotonic(64, (h - 1) as nat, (r - 1) as nat);
                }
            }
        }
        r
    }

    /// The words of layer `layer` of a tree stored as a flat slice.
    pub fn tree_layer<T>(tree: &[T], layer: u32) -> (r: &[T])
        requires
            layer_offset((layer + 1) as nat) <= tree@.len(),
        ensures
            r@ == tree@.subrange(
                layer_offset(layer as nat) as int,
                layer_offset((layer + 1) as nat) as int,
            ),
    {
        proof {
            lemma_offset_closed_form(layer as nat);
            lemma_offset_closed_form((layer + 1) as nat);
            lemma_power_positive(64, layer as nat);
            assert(layer_offset((layer + 1) as nat) == layer_offset(layer as nat) + layer_len(
                layer as nat,
            ));
        }
        proof {
            vstd::slice::axiom_spec_len(tree);
        }
        let len = pow(WORD_BITS, layer as usize);
        let offset = (len - 1) / (WORD_BITS - 1);
        slice_subrange(tree, offset, offset + len)
    }

    /// Number of leaf words of the tree for a region of `num_pages` pages:
    /// the words needed to give each page a bit, rounded up to a power of
    /// the branching factor. Returns `None` if the tree would be higher
    /// than `MAX_HEIGHT`.
    pub fn leaf_words_for(num_pages: usize) -> (r: Option<usize>)
        requires
            num_pages >= 1,
        ensures
            r == if height_for_pages(num_pages as nat) <= MAX_HEIGHT {
                Some(layer_len((height_for_pages(num_pages as nat) - 1) as nat) as usize)
            } else {
                None
            },
            height_for_pages(num_pages as nat) >= 1,
    {
        // Number of leaf words
        let num_leaf_words_unrounded = div_ceil(num_pages, WORD_BITS);
        proof {
            lemma_layer_values();
            lemma_layers_ordered();
            lemma_height_covers(num_pages as nat);
        }
        if num_leaf_words_unrounded > 16777216 {
            proof {
                let h = height_for_pages(num_pages as nat);
                if h <= MAX_HEIGHT {
                    lemma_power_monotonic(64, h, 5);
                }
            }
            return None;
        }
        // Number of leaf words rounded up to a valid tree shape, which is
        // a power of the branching factor
        assert(num_leaf_words_unrounded <= power(64, 4) && power(64, 4) <= usize::MAX);
        let num_leaf_words = Self::round_up_to_power(num_leaf_words_unrounded, WORD_BITS);
        proof {
            let k = choose|k: nat|
                num_leaf_words == #[trigger] power(64, k) && (k == 0 || power(64, (k - 1) as nat)
                    < num_leaf_words_unrounded);
            if k > 4 {
                lemma_power_monotonic(64, 4, (k - 1) as nat);
            }
            lemma_power_monotonic(64, k, 4);
            lemma_height_characterization(num_pages as nat, k + 1);
            assert(num_leaf_words == layer_len(((k + 1) - 1) as nat));
        }
        Some(num_leaf_words)
    }

    /// Calculates the space in bytes that the tree of a region of `len`
    /// bytes takes. Returns `None` if the region is so large that its tree
    /// would be higher than `MAX_HEIGHT`.
    pub fn calc_size_for(len: usize) -> (r: Option<usize>)
        requires
            len >= 1,
        ensures
            r == if height_for_pages(pages_for_len(len as nat)) <= MAX_HEIGHT {
                Some((8 * layer_offset(height_for_pages(pages_for_len(len as nat)))) as usize)
            } else {
                None
            },
    {
        // Pages occupied by this region
        let num_pages = div_ceil(len, PAGE_SIZE);
        match Self::leaf_words_for(num_pages) {
            Some(num_leaf_words) => {
                proof {
                    lemma_layers_ordered();
                    lemma_offset_monotonic(height_for_pages(num_pages as nat), 5);
                }
                // Total number of words in the tree
                let num_total_words = Self::total_words_from_leaf_words(num_leaf_words);
                // Space needed for the tree
                Some(num_total_words * 8)
            },
            None => None,
        }
    }

    /// Rounds `num` up to the nearest power of `base`.
    pub fn round_up_to_power(num: usize, base: usize) -> (r: usize)
        requires
            num >= 1,
            base >= 2,
            exists|k: nat| num <= #[trigger] power(base as nat, k) && power(base as nat, k) <= usize::MAX,
        ensures
            r >= num,
            exists|k: nat|
                r == #[trigger] power(base as nat, k) && (k == 0 || power(
                    base as nat,
                    (k - 1) as nat,
                ) < num),
    {
        let log = ilog(num, base);
        proof {
            // A power of `base` that fits and is at least `num` has an
            // exponent of at least `log`.
            let k = choose|k: nat| num <= #[trigger] power(base as nat, k) && power(base as nat, k) <= usize::MAX;
            if k < log {
                lemma_power_strictly_monotonic(base as nat, k, log as nat);
            }
            lemma_power_monotonic(base as nat, log as nat, k);
        }
        let low = pow(base, log);
        if low == num {
            proof {
                if log > 0 {
                    lemma_power_strictly_monotonic(base as nat, (log - 1) as nat, log as nat);
                }
                assert(num == power(base as nat, log as nat));
            }
            num
        } else {
            proof {
                let k = choose|k: nat| num <= #[trigger] power(base as nat, k) && power(base as nat, k) <= usize::MAX;
                if k < log + 1 {
                    lemma_power_monotonic(base as nat, k, log as nat);
                }
                lemma_power_monotonic(base as nat, (log + 1) as nat, k);
            }
            let r = pow(base, log + 1);
            proof {
                assert(r == power(base as nat, (log + 1) as nat));
                assert(power(base as nat, ((log + 1) - 1) as nat) < num);
            }
            r
        }
    }
}

impl TreeAlloc {
    /// A tree of the given height with every page free.
    pub fn new(height: usize) -> (tree: Self)
        requires
            1 <= height <= MAX_HEIGHT,
        ensures
            tree.wf(),
            tree.height() == height,
            forall|p: nat| p < tree.capacity() ==> !tree.is_allocated(p),
            tree.live_pages() == 0,
    {
        let total = layer_start(height);
        let words = vec![0u64; total];
        let tree = TreeAlloc { words, height };
        proof {
            lemma_layers_ordered();
            assert forall|layer: nat, idx: nat, bit: nat|
                layer + 1 < tree.height() && idx < layer_len(layer) && bit
                    < 64 implies #[trigger] tree.summary_ok(layer, idx, bit) by {
                lemma_child_index(layer, idx, bit);
                lemma_full_and_empty(bit as u64);
            }
            assert forall|p: nat| p < tree.capacity() implies !tree.is_allocated(p) by {
                lemma_leaf_index(tree.height(), p);
                lemma_full_and_empty((p % 64) as u64);
            }
            assert(tree.allocated() =~= Set::<int>::empty());
        }
        tree
    }

    /// Height of the tree.
    pub fn get_height(&self) -> (h: usize)
        ensures
            h == self.height(),
    {
        self.height
    }

    /// Word `idx` of the flat word sequence.
    pub fn get_word(&self, idx: usize) -> (w: u64)
        requires
            idx < self.words().len(),
        ensures
            w == self.words()[idx as int],
    {
        self.words[idx]
    }

    /// Total number of words of the tree.
    pub fn num_words(&self) -> (n: usize)
        ensures
            n == self.words().len(),
    {
        self.words.len()
    }

    /// The lowest free page, if there is one.
    #[verifier::rlimit(30)]
    pub fn find_free(&self) -> (r: Option<usize>)
        requires
            self.wf(),
        ensures
            match r {
                Some(p) => p < self.capacity() && !self.is_allocated(p as nat) && forall|q: nat|
                    q < p ==> self.is_allocated(q),
                None => self.is_full(),
            },
    {
        let height = self.height;
        // Walk through the tree to find a free page
        let mut layer: usize = 0;
        let mut word_idx: usize = 0;
        proof {
            lemma_layers_ordered();
        }
        loop
            invariant
                self.wf(),
                height == self.height(),
                layer < height,
                word_idx < layer_len(layer as nat),
                layer > 0 ==> self.word(layer as nat, word_idx as nat) != WORD_MAX,
                forall|q: nat| q < word_idx * self.reach(layer as nat) ==> self.is_allocated(q),
            decreases height - layer,
        {
            proof {
                lemma_layers_ordered();
            }
            let w = self.words[layer_start(layer) + word_idx];
            proof {
                lemma_trailing_ones(w);
            }
            match descend(w, layer, height, word_idx) {
                Descent::Full => {
                    // Full root word means no free pages left in this tree
                    proof {
                        self.lemma_full_root();
                    }
                    return None;
                },
                Descent::Raced => {
                    // The tree is not shared: a word that is reached
                    // through a clear bit is not full
                    proof {
                        assert(false);
                    }
                    return None;
                },
                Descent::Leaf(bit) => {
                    let page = word_idx * WORD_BITS + bit;
                    proof {
                        assert(self.reach(layer as nat) == 64) by {
                            reveal_with_fuel(power, 2);
                        }
                        assert(layer_len(height as nat) == 64 * layer_len(layer as nat));
                        assert forall|q: nat| q < page implies self.is_allocated(q) by {
                            if q >= word_idx * 64 {
                                assert(q / 64 == word_idx as nat);
                                assert(bit_set(w, (q % 64) as int));
                            }
                        }
                        assert(page / 64 == word_idx);
                        assert(page % 64 == bit);
                    }
                    return Some(page);
                },
                Descent::Down(next) => {
                    proof {
                        let bit = (next % 64) as nat;
                        let r1 = self.reach((layer + 1) as nat);
                        lemma_power_positive(64, (height - layer - 1) as nat);
                        assert(self.reach(layer as nat) == 64 * r1);
                        assert(self.summary_ok(layer as nat, word_idx as nat, bit));
                        assert(next == word_idx * 64 + bit);
                        assert forall|q: nat| q < next * r1 implies self.is_allocated(q) by {
                            if q >= word_idx * self.reach(layer as nat) {
                                assert(word_idx * self.reach(layer as nat) == (word_idx * 64)
                                    * r1) by (nonlinear_arith)
                                    requires
                                        self.reach(layer as nat) == 64 * r1,
                                ;
                                lemma_div_bounds(q, r1, (word_idx * 64) as nat, next as nat);
                                let j = (q / r1 - word_idx * 64) as nat;
                                assert(bit_set(w, j as int));
                                assert(word_idx * 64 + j == q / r1);
                                self.lemma_set_bit_covers(layer as nat, word_idx as nat, j, q);
                            }
                        }
                    }
                    word_idx = next;
                    layer = layer + 1;
                },
            }
        }
    }

    /// Marks the free page `page` as allocated and records, layer by
    /// layer, every word that became full on the way up.
    #[verifier::rlimit(30)]
    pub fn mark(&mut self, page: usize)
        requires
            old(self).wf(),
            page < old(self).capacity(),
            !old(self).is_allocated(page as nat),
        ensures
            final(self).wf(),
            old(self).allocates(final(self), page as nat),
            final(self).live_pages() == old(self).live_pages() + 1,
    {
        let ghost pre = *self;
        let height = self.height;
        let mut layer: usize = height - 1;
        let mut idx: usize = page / WORD_BITS;
        let bit: usize = page % WORD_BITS;
        proof {
            lemma_layers_ordered();
            lemma_leaf_index(height as nat, page as nat);
        }
        let pos = layer_start(layer) + idx;
        let w = self.words[pos];
        let new_word = w | (1u64 << bit);
        self.words.set(pos, new_word);
        let mut child_full = fills_word(w, bit);
        let ghost leaves = self.words@;
        proof {
            assert forall|q: nat| q < pre.capacity() implies (self.is_allocated(q) <==> (q
                == page || pre.is_allocated(q))) by {
                lemma_leaf_index(height as nat, q);
                if q / 64 == idx as nat {
                    lemma_or_bit(w, bit as u64, (q % 64) as u64);
                }
            }
            assert forall|l: nat, i: nat, b: nat|
                l + 1 < height && i < layer_len(l) && b < 64 && !(l + 1 == layer && i == idx / 64
                    && b == idx % 64) implies #[trigger] self.summary_ok(l, i, b) by {
                assert(pre.summary_ok(l, i, b));
                lemma_child_index(l, i, b);
            }
            if layer > 0 {
                lemma_parent_index(layer as nat, idx as nat);
                assert(pre.summary_ok((layer - 1) as nat, (idx / 64) as nat, (idx % 64) as nat));
                lemma_full_and_empty(bit as u64);
            }
        }
        while layer > 0 && child_full
            invariant
                height == self.height(),
                1 <= height <= MAX_HEIGHT,
                self.words().len() == layer_offset(height as nat),
                layer < height,
                idx < layer_len(layer as nat),
                leaves.len() == self.words().len(),
                forall|i: int|
                    layer_offset((height - 1) as nat) <= i < self.words().len() ==> self.words()[i]
                        == leaves[i],
                child_full == (self.word(layer as nat, idx as nat) == WORD_MAX),
                child_full && layer > 0 ==> !bit_set(
                    self.word((layer - 1) as nat, (idx / 64) as nat),
                    (idx % 64) as int,
                ),
                forall|l: nat, i: nat, b: nat|
                    l + 1 < height && i < layer_len(l) && b < 64 && !(child_full && l + 1 == layer
                        && i == idx / 64 && b == idx % 64) ==> #[trigger] self.summary_ok(l, i, b),
            decreases layer,
        {
            let ghost before = *self;
            let parent_idx = idx / WORD_BITS;
            let parent_bit = idx % WORD_BITS;
            proof {
                lemma_layers_ordered();
                lemma_parent_index(layer as nat, idx as nat);
            }
            let parent_pos = layer_start(layer - 1) + parent_idx;
            let parent_word = self.words[parent_pos];
            let new_parent = parent_word | (1u64 << parent_bit);
            self.words.set(parent_pos, new_parent);
            child_full = fills_word(parent_word, parent_bit);
            proof {
                let pl = (layer - 1) as nat;
                assert(self.word(pl, parent_idx as nat) == new_parent);
                assert forall|l: nat, i: nat, b: nat|
                    l + 1 < height && i < layer_len(l) && b < 64 && !(child_full && l + 1 == pl
                        && i == parent_idx / 64 && b == parent_idx % 64)
                        implies #[trigger] self.summary_ok(l, i, b) by {
                    lemma_child_index(l, i, b);
                    let child = (i * 64 + b) as nat;
                    if l == pl && i == parent_idx {
                        // The word just written is the summary word.
                        lemma_or_bit(parent_word, parent_bit as u64, b as u64);
                        assert(self.word(l + 1, child) == before.word(l + 1, child));
                        if b != parent_bit {
                            assert(before.summary_ok(l, i, b));
                        }
                    } else if l + 1 == pl && child == parent_idx {
                        // The word just written is the child word.
                        assert(i == parent_idx / 64 && b == parent_idx % 64);
                        assert(before.summary_ok(l, i, b));
                        assert(self.word(l, i) == before.word(l, i));
                        lemma_full_and_empty(parent_bit as u64);
                    } else {
                        assert(before.summary_ok(l, i, b));
                        assert(self.word(l, i) == before.word(l, i));
                        assert(self.word(l + 1, child) == before.word(l + 1, child));
                    }
                }
                if pl > 0 {
                    lemma_parent_index(pl, parent_idx as nat);
                    assert(before.summary_ok(
                        (pl - 1) as nat,
                        (parent_idx / 64) as nat,
                        (parent_idx % 64) as nat,
                    ));
                    lemma_full_and_empty(parent_bit as u64);
                    assert(self.word((pl - 1) as nat, (parent_idx / 64) as nat) == before.word(
                        (pl - 1) as nat,
                        (parent_idx / 64) as nat,
                    ));
                }
            }
            idx = parent_idx;
            layer = layer - 1;
        }
        proof {
            assert forall|q: nat| q < pre.capacity() implies (self.is_allocated(q) <==> (q
                == page || pre.is_allocated(q))) by {
                lemma_leaf_index(height as nat, q);
            }
            assert(self.allocated() =~= pre.allocated().insert(page as int));
            pre.lemma_allocated_finite();
        }
    }

    /// Allocates the lowest free page. Returns `None` when the tree is full.
    pub fn allocate(&mut self) -> (r: Option<usize>)
        requires
            old(self).wf(),
        ensures
            final(self).wf(),
            final(self).height() == old(self).height(),
            match r {
                Some(p) => {
                    &&& old(self).allocates(final(self), p as nat)
                    &&& forall|q: nat| q < p ==> old(self).is_allocated(q)
                    &&& final(self).live_pages() == old(self).live_pages() + 1
                },
                None => old(self).is_full() && final(self).words() == old(self).words(),
            },
    {
        match self.find_free() {
            Some(page) => {
                self.mark(page);
                Some(page)
            },
            None => None,
        }
    }

    /// Frees page `page` and clears the summary bit of every word above it.
    #[verifier::rlimit(30)]
    pub fn free(&mut self, page: usize)
        requires
            old(self).wf(),
            page < old(self).capacity(),
        ensures
            final(self).wf(),
            old(self).frees(final(self), page as nat),
            old(self).is_allocated(page as nat) ==> final(self).live_pages() + 1 == old(
                self,
            ).live_pages(),
            !old(self).is_allocated(page as nat) ==> final(self).words() == old(self).words(),
    {
        let ghost pre = *self;
        let height = self.height;
        let mut layer: usize = height - 1;
        let mut idx: usize = page / WORD_BITS;
        let bit: usize = page % WORD_BITS;
        proof {
            lemma_layers_ordered();
            lemma_leaf_index(height as nat, page as nat);
        }
        let pos = layer_start(layer) + idx;
        let w = self.words[pos];
        let new_word = w & !(1u64 << bit);
        self.words.set(pos, new_word);
        let ghost leaves = self.words@;
        proof {
            lemma_clear_bit(w, bit as u64, bit as u64);
            lemma_full_and_empty(bit as u64);
            assert forall|q: nat| q < pre.capacity() implies (self.is_allocated(q) <==> (q
                != page && pre.is_allocated(q))) by {
                lemma_leaf_index(height as nat, q);
                if q / 64 == idx as nat {
                    lemma_clear_bit(w, bit as u64, (q % 64) as u64);
                }
            }
            assert forall|l: nat, i: nat, b: nat|
                l + 1 < height && i < layer_len(l) && b < 64 && !(l + 1 == layer && i == idx / 64
                    && b == idx % 64) implies #[trigger] self.summary_ok(l, i, b) by {
                assert(pre.summary_ok(l, i, b));
                lemma_child_index(l, i, b);
            }
            if !pre.is_allocated(page as nat) {
                assert(new_word == w) by {
                    assert forall|j: int| 0 <= j < 64 implies bit_set(new_word, j) == bit_set(
                        w,
                        j,
                    ) by {
                        lemma_clear_bit(w, bit as u64, j as u64);
                    }
                    super::bits::lemma_bits_determine_word(new_word, w);
                }
                assert(self.words@ =~= pre.words@);
            }
        }
        while layer > 0
            invariant
                height == self.height(),
                1 <= height <= MAX_HEIGHT,
                self.words().len() == layer_offset(height as nat),
                layer < height,
                idx < layer_len(layer as nat),
                leaves.len() == self.words().len(),
                forall|i: int|
                    layer_offset((height - 1) as nat) <= i < self.words().len() ==> self.words()[i]
                        == leaves[i],
                self.word(layer as nat, idx as nat) != WORD_MAX,
                !pre.is_allocated(page as nat) ==> self.words() == pre.words(),
                pre.wf(),
                pre.height() == height,
                forall|l: nat, i: nat, b: nat|
                    l + 1 < height && i < layer_len(l) && b < 64 && !(l + 1 == layer && i == idx
                        / 64 && b == idx % 64) ==> #[trigger] self.summary_ok(l, i, b),
            decreases layer,
        {
            let ghost before = *self;
            let parent_idx = idx / WORD_BITS;
            let parent_bit = idx % WORD_BITS;
            proof {
                lemma_layers_ordered();
                lemma_parent_index(layer as nat, idx as nat);
            }
            let parent_pos = layer_start(layer - 1) + parent_idx;
            let parent_word = self.words[parent_pos];
            let new_parent = parent_word & !(1u64 << parent_bit);
            self.words.set(parent_pos, new_parent);
            proof {
                let pl = (layer - 1) as nat;
                assert(self.word(pl, parent_idx as nat) == new_parent);
                lemma_clear_bit(parent_word, parent_bit as u64, parent_bit as u64);
                lemma_full_and_empty(parent_bit as u64);
                assert forall|l: nat, i: nat, b: nat|
                    l + 1 < height && i < layer_len(l) && b < 64 && !(l + 1 == pl && i
                        == parent_idx / 64 && b == parent_idx % 64)
                        implies #[trigger] self.summary_ok(l, i, b) by {
                    lemma_child_index(l, i, b);
                    let child = (i * 64 + b) as nat;
                    if l == pl && i == parent_idx {
                        lemma_clear_bit(parent_word, parent_bit as u64, b as u64);
                        assert(self.word(l + 1, child) == before.word(l + 1, child));
                        if b != parent_bit {
                            assert(before.summary_ok(l, i, b));
                        }
                    } else if l + 1 == pl && child == parent_idx {
                        assert(i == parent_idx / 64 && b == parent_idx % 64);
                    } else {
                        assert(before.summary_ok(l, i, b));
                        assert(self.word(l, i) == before.word(l, i));
                        assert(self.word(l + 1, child) == before.word(l + 1, child));
                    }
                }
                if !pre.is_allocated(page as nat) {
                    // The child word was not full before either, so the
                    // parent's bit was already clear.
                    assert(pre.summary_ok(pl, parent_idx as nat, parent_bit as nat));
                    assert(new_parent == parent_word) by {
                        assert forall|j: int| 0 <= j < 64 implies bit_set(new_parent, j)
                            == bit_set(parent_word, j) by {
                            lemma_clear_bit(parent_word, parent_bit as u64, j as u64);
                        }
                        super::bits::lemma_bits_determine_word(new_parent, parent_word);
                    }
                    assert(self.words@ =~= pre.words@);
                }
            }
            idx = parent_idx;
            layer = layer - 1;
        }
        proof {
            assert forall|q: nat| q < pre.capacity() implies (self.is_allocated(q) <==> (q
                != page && pre.is_allocated(q))) by {
                lemma_leaf_index(height as nat, q);
            }
            if pre.is_allocated(page as nat) {
                assert(self.allocated() =~= pre.allocated().remove(page as int));
                pre.lemma_allocated_finite();
            }
        }
    }

    /// A set bit of any layer means that every page below it is allocated.
    pub proof fn lemma_set_bit_covers(&self, layer: nat, idx: nat, bit: nat, p: nat)
        requires
            self.wf(),
            layer < self.height(),
            idx < layer_len(layer),
            bit < 64,
            bit_set(self.word(layer, idx), bit as int),
            (idx * 64 + bit) * self.reach(layer + 1) <= p < (idx * 64 + bit + 1) * self.reach(
                layer + 1,
            ),
        ensures
            p < self.capacity(),
            self.is_allocated(p),
        decreases self.height() - layer,
    {
        let h = self.height();
        let child = idx * 64 + bit;
        lemma_child_index(layer, idx, bit);
        if layer + 1 == h {
            assert(self.reach(layer + 1) == 1) by {
                reveal_with_fuel(power, 1);
            }
            assert(p == child) by (nonlinear_arith)
                requires
                    child * 1 <= p < (child + 1) * 1,
            ;
            assert(p / 64 == idx && p % 64 == bit);
        } else {
            let r2 = self.reach(layer + 2);
            lemma_power_positive(64, (h - layer - 2) as nat);
            assert(self.reach(layer + 1) == 64 * r2);
            assert(self.summary_ok(layer, idx, bit));
            assert(child * (64 * r2) == (child * 64) * r2) by (nonlinear_arith);
            assert((child + 1) * (64 * r2) == (child * 64 + 64) * r2) by (nonlinear_arith);
            lemma_div_bounds(p, r2, child * 64, child * 64 + 64);
            let b2 = (p / r2 - child * 64) as nat;
            lemma_full_and_empty(b2 as u64);
            assert(child * 64 + b2 == p / r2);
            self.lemma_set_bit_covers(layer + 1, child, b2, p);
        }
    }

    /// A full root word means that every page is allocated.
    pub proof fn lemma_full_root(&self)
        requires
            self.wf(),
            self.word(0, 0) == WORD_MAX,
        ensures
            self.is_full(),
    {
        let r1 = self.reach(1);
        lemma_power_positive(64, (self.height() - 1) as nat);
        assert(self.capacity() == 64 * r1);
        assert forall|p: nat| p < self.capacity() implies self.is_allocated(p) by {
            assert(0 * r1 == 0) by (nonlinear_arith);
            lemma_div_bounds(p, r1, 0, 64);
            let b = p / r1;
            lemma_full_and_empty(b as u64);
            assert(layer_len(0) == 1) by {
                reveal_with_fuel(power, 1);
            }
            self.lemma_set_bit_covers(0, 0, b, p);
        }
    }

    /// The set of allocated pages is finite and no larger than the capacity.
    pub proof fn lemma_allocated_finite(&self)
        ensures
            self.allocated().finite(),
            self.allocated().len() <= self.capacity(),
    {
        let all = vstd::set_lib::set_int_range(0, self.capacity() as int);
        vstd::set_lib::lemma_int_range(0, self.capacity() as int);
        assert(self.allocated().subset_of(all));
        vstd::set_lib::lemma_len_subset(self.allocated(), all);
    }
}

/// First word index of layer `layer`.
pub(crate) fn layer_start(layer: usize) -> (r: usize)
    requires
        layer <= MAX_HEIGHT,
    ensures
        r == layer_offset(layer as nat),
{
    proof {
        lemma_layer_values();
        lemma_layers_ordered();
        lemma_offset_closed_form(layer as nat);
    }
    (pow(WORD_BITS, layer) - 1) / (WORD_BITS - 1)
}

/// Layers follow one another without gaps, and a tree of supported height
/// fits in 32 bits.
pub proof fn lemma_layers_ordered()
    ensures
        forall|l: nat| #[trigger] layer_offset(l + 1) == layer_offset(l) + layer_len(l),
        forall|l: nat| #[trigger] layer_len(l + 1) == 64 * layer_len(l),
        forall|l: nat| #[trigger] layer_len(l) >= 1,
        forall|a: nat, b: nat| a <= b ==> #[trigger] layer_offset(a) <= #[trigger] layer_offset(b),
        forall|a: nat, b: nat|
            a < b ==> #[trigger] layer_offset(a) + layer_len(a) <= #[trigger] layer_offset(b),
        forall|l: nat| l <= MAX_HEIGHT ==> #[trigger] layer_len(l) <= 1073741824,
        forall|l: nat| l <= MAX_HEIGHT ==> #[trigger] layer_offset(l) <= 17043521,
{
    assert forall|l: nat| #[trigger] layer_len(l) >= 1 by {
        lemma_power_positive(64, l);
    }
    assert forall|a: nat, b: nat| a <= b implies #[trigger] layer_offset(a) <= #[trigger] layer_offset(
        b,
    ) by {
        lemma_offset_monotonic(a, b);
    }
    assert forall|a: nat, b: nat| a < b implies #[trigger] layer_offset(a) + layer_len(a)
        <= #[trigger] layer_offset(b) by {
        lemma_offset_monotonic(a + 1, b);
    }
    assert forall|l: nat| l <= MAX_HEIGHT implies #[trigger] layer_len(l) <= 1073741824 by {
        lemma_layer_values();
        lemma_power_monotonic(64, l, 5);
    }
    assert forall|l: nat| l <= MAX_HEIGHT implies #[trigger] layer_offset(l) <= 17043521 by {
        lemma_layer_values();
        lemma_offset_monotonic(l, 5);
    }
}

/// Layer offsets do not decrease with the layer.
pub proof fn lemma_offset_monotonic(a: nat, b: nat)
    requires
        a <= b,
    ensures
        layer_offset(a) <= layer_offset(b),
    decreases b,
{
    if a < b {
        lemma_offset_monotonic(a, (b - 1) as nat);
    }
}

/// The child word of a bit lies in the next layer.
pub proof fn lemma_child_index(layer: nat, idx: nat, bit: nat)
    requires
        idx < layer_len(layer),
        bit < 64,
    ensures
        idx * 64 + bit < layer_len(layer + 1),
        (idx * 64 + bit) / 64 == idx,
        (idx * 64 + bit) % 64 == bit,
{
    assert(layer_len(layer + 1) == 64 * layer_len(layer));
}

/// The parent of a word lies in the previous layer.
pub proof fn lemma_parent_index(layer: nat, idx: nat)
    requires
        layer >= 1,
        idx < layer_len(layer),
    ensures
        idx / 64 < layer_len((layer - 1) as nat),
        (idx / 64) * 64 + idx % 64 == idx,
{
    assert(layer_len(layer) == 64 * layer_len((layer - 1) as nat));
}

/// The leaf word of a page lies in the leaf layer.
pub proof fn lemma_leaf_index(height: nat, page: nat)
    requires
        height >= 1,
        page < layer_len(height),
    ensures
        page / 64 < layer_len((height - 1) as nat),
        page % 64 < 64,
{
    assert(layer_len(height) == 64 * layer_len((height - 1) as nat));
}

/// A number between two multiples of `s` has its quotient by `s` between
/// the two factors.
pub proof fn lemma_div_bounds(p: nat, s: nat, lo: nat, hi: nat)
    requires
        s >= 1,
        lo * s <= p < hi * s,
    ensures
        lo <= p / s < hi,
        (p / s) * s <= p < (p / s + 1) * s,
{
    vstd::arithmetic::div_mod::lemma_fundamental_div_mod(p as int, s as int);
    let k = p / s;
    assert(s * k == k * s) by (nonlinear_arith);
    assert((k + 1) * s == k * s + s) by (nonlinear_arith);
    assert(lo <= k) by (nonlinear_arith)
        requires
            lo * s <= p,
            p < (k + 1) * s,
            s >= 1,
    ;
    assert(k < hi) by (nonlinear_arith)
        requires
            k * s <= p,
            p < hi * s,
            s >= 1,
    ;
}

/// A tree of height `height_for_pages(pages)` has a leaf bit for each page.
pub proof fn lemma_height_covers(pages: nat)
    ensures
        height_for_pages(pages) >= 1,
        pages <= layer_len(height_for_pages(pages)),
    decreases pages,
{
    reveal_with_fuel(power, 2);
    if pages > 64 {
        lemma_height_covers((pages + 63) / 64);
        let h = height_for_pages((pages + 63) / 64);
        assert(layer_len(h + 1) == 64 * layer_len(h));
    }
}

/// `height_for_pages(pages)` is the one height whose tree covers `pages`
/// pages while the next lower tree does not.
pub proof fn lemma_height_characterization(pages: nat, h: nat)
    requires
        h >= 1,
        pages <= layer_len(h),
        h == 1 || layer_len((h - 1) as nat) < pages,
    ensures
        height_for_pages(pages) == h,
    decreases h,
{
    reveal_with_fuel(power, 2);
    if pages <= 64 {
        if h > 1 {
            lemma_power_monotonic(64, 1, (h - 1) as nat);
        }
    } else {
        assert(h >= 2);
        let up = (pages + 63) / 64;
        assert(layer_len(h) == 64 * layer_len((h - 1) as nat));
        if h > 2 {
            assert(layer_len((h - 1) as nat) == 64 * layer_len((h - 2) as nat));
        }
        lemma_height_characterization(up, (h - 1) as nat);
    }
}

/// Every flat word index of a tree belongs to exactly one layer.
pub proof fn lemma_locate_word(height: nat, i: nat) -> (r: (nat, nat))
    requires
        i < layer_offset(height),
    ensures
        r.0 < height,
        r.1 < layer_len(r.0),
        i == layer_offset(r.0) + r.1,
    decreases height,
{
    if i >= layer_offset((height - 1) as nat) {
        ((height - 1) as nat, (i - layer_offset((height - 1) as nat)) as nat)
    } else {
        lemma_locate_word((height - 1) as nat, i)
    }
}

impl TreeAlloc {
    /// Two well-formed trees of one height that agree on which pages are
    /// allocated agree on every word of layer `layer`.
    pub proof fn lemma_layer_determined(&self, other: &TreeAlloc, layer: nat)
        requires
            self.wf(),
            other.wf(),
            self.height() == other.height(),
            forall|p: nat| p < self.capacity() ==> self.is_allocated(p) == other.is_allocated(p),
            layer < self.height(),
        ensures
            forall|idx: nat| idx < layer_len(layer) ==> self.word(layer, idx) == other.word(layer, idx),
        decreases self.height() - layer,
    {
        let h = self.height();
        if layer + 1 < h {
            self.lemma_layer_determined(other, layer + 1);
        }
        assert forall|idx: nat| idx < layer_len(layer) implies self.word(layer, idx) == other.word(
            layer,
            idx,
        ) by {
            assert forall|j: int| 0 <= j < 64 implies bit_set(self.word(layer, idx), j) == bit_set(
                other.word(layer, idx),
                j,
            ) by {
                lemma_child_index(layer, idx, j as nat);
                if layer + 1 == h {
                    let p = idx * 64 + j as nat;
                    assert(self.is_allocated(p) == other.is_allocated(p));
                } else {
                    assert(self.summary_ok(layer, idx, j as nat));
                    assert(other.summary_ok(layer, idx, j as nat));
                }
            }
            super::bits::lemma_bits_determine_word(self.word(layer, idx), other.word(layer, idx));
        }
    }

    /// The leaf bits determine the whole tree: two well-formed trees of one
    /// height that agree on which pages are allocated have the same words.
    pub proof fn lemma_leaves_determine_tree(&self, other: &TreeAlloc)
        requires
            self.wf(),
            other.wf(),
            self.height() == other.height(),
            forall|p: nat| p < self.capacity() ==> self.is_allocated(p) == other.is_allocated(p),
        ensures
            self.words() == other.words(),
    {
        assert forall|i: int| 0 <= i < self.words().len() implies self.words()[i] == other.words()[i] by {
            let (layer, idx) = lemma_locate_word(self.height(), i as nat);
            self.lemma_layer_determined(other, layer);
            assert(self.word(layer, idx) == other.word(layer, idx));
        }
        assert(self.words() =~= other.words());
    }

    /// A tree in which the first 64 pages are allocated, and no others,
    /// has exactly one full leaf word, the first. If the tree has a layer
    /// above the leaves, the bit that stands for that word is set there;
    /// if it has none, the tree is full.
    pub proof fn lemma_first_word_filled(&self)
        requires
            self.wf(),
            forall|p: nat| p < self.capacity() ==> (self.is_allocated(p) <==> p < 64),
        ensures
            self.word((self.height() - 1) as nat, 0) == WORD_MAX,
            forall|idx: nat|
                1 <= idx < layer_len((self.height() - 1) as nat) ==> #[trigger] self.word(
                    (self.height() - 1) as nat,
                    idx,
                ) != WORD_MAX,
            self.height() >= 2 ==> bit_set(self.word((self.height() - 2) as nat, 0), 0),
            self.height() == 1 ==> self.is_full(),
    {
        let h = self.height();
        let leaves = (h - 1) as nat;
        lemma_layers_ordered();
        assert(self.capacity() == 64 * layer_len(leaves));
        assert forall|j: int| 0 <= j < 64 implies bit_set(self.word(leaves, 0), j) == bit_set(
            WORD_MAX,
            j,
        ) by {
            assert(self.is_allocated(j as nat));
            lemma_full_and_empty(j as u64);
        }
        super::bits::lemma_bits_determine_word(self.word(leaves, 0), WORD_MAX);
        assert forall|idx: nat| 1 <= idx < layer_len(leaves) implies #[trigger] self.word(
            leaves,
            idx,
        ) != WORD_MAX by {
            let p = idx * 64;
            assert(p / 64 == idx && p % 64 == 0);
            assert(!self.is_allocated(p));
            lemma_full_and_empty(0);
        }
        if h >= 2 {
            assert(self.summary_ok((h - 2) as nat, 0, 0));
            assert(layer_len((h - 2) as nat) >= 1);
        }
    }

    /// On a tree that no one else changes, the walk down never finds a
    /// race: a word that is reached through a clear bit is not full. And
    /// it finds the root full only if every page is allocated.
    pub proof fn lemma_walk_alone_never_races(&self, layer: nat, word_idx: nat)
        requires
            self.wf(),
            layer < self.height(),
            word_idx < layer_len(layer),
            layer > 0 ==> !bit_set(
                self.word((layer - 1) as nat, word_idx / 64),
                (word_idx % 64) as int,
            ),
        ensures
            descent_of(
                self.word(layer, word_idx),
                layer as int,
                self.height() as int,
                word_idx as int,
            ) != Descent::Raced,
            descent_of(
                self.word(layer, word_idx),
                layer as int,
                self.height() as int,
                word_idx as int,
            ) == Descent::Full ==> self.is_full(),
    {
        let word = self.word(layer, word_idx);
        lemma_trailing_ones(word);
        if layer > 0 {
            lemma_parent_index(layer, word_idx);
            assert(self.summary_ok((layer - 1) as nat, word_idx / 64, word_idx % 64));
        } else if word == WORD_MAX {
            lemma_layers_ordered();
            assert(layer_len(0) == 1) by {
                lemma_layer_values();
            }
            self.lemma_full_root();
        }
    }

    /// Freeing the page that an allocation returned restores every word of
    /// the tree, and with it the leaf word of the page, to what it was
    /// before the allocation.
    pub proof fn lemma_free_undoes_allocate(&self, mid: &TreeAlloc, post: &TreeAlloc, page: nat)
        requires
            self.wf(),
            mid.wf(),
            post.wf(),
            self.allocates(mid, page),
            mid.frees(post, page),
        ensures
            post.words() == self.words(),
    {
        post.lemma_leaves_determine_tree(self);
    }
}

/// The word count of a tree in closed form: `63 * offset(h) + 1 == 64^h`.
pub proof fn lemma_offset_closed_form(h: nat)
    ensures
        63 * layer_offset(h) + 1 == layer_len(h),
        h >= 1 ==> (64 * layer_len((h - 1) as nat) - 1) / 63 == layer_offset(h),
        h >= 1 ==> (63 * layer_offset(h) + 1) / 64 == layer_len((h - 1) as nat),
        (layer_len(h) - 1) / 63 == layer_offset(h),
    decreases h,
{
    if h > 0 {
        lemma_offset_closed_form((h - 1) as nat);
        assert(layer_len(h) == 64 * layer_len((h - 1) as nat));
    }
}

} // verus!
