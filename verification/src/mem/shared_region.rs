//! Memory regions with trees of atomic words, and the page allocator over
//! them that several processors use at once.

use super::page_alloc::{height_for_pages, lemma_height_covers, TreeAlloc};
use super::region::{usable_entries, MemoryMapEntry};
use super::shared_tree::{Attempt, SharedTree};
use super::{PageNum, MAX_HEIGHT, PAGE_SIZE};
use vstd::prelude::*;

verus! {

/// A contiguous range of usable pages with its tree of atomic words.
pub struct SharedRegion {
    base_page: PageNum,
    num_pages: usize,
    tree: SharedTree,
}

impl SharedRegion {
    /// Number of the region's first page.
    pub closed spec fn base_page(&self) -> nat {
        self.base_page as nat
    }

    /// Number of pages in the region.
    pub closed spec fn num_pages(&self) -> nat {
        self.num_pages as nat
    }

    /// The region's tree.
    pub closed spec fn tree(&self) -> SharedTree {
        self.tree
    }

    /// The tree is the smallest that covers the region.
    pub open spec fn wf(&self) -> bool {
        &&& self.tree().wf()
        &&& 1 <= self.num_pages() <= self.tree().capacity()
        &&& self.tree().height() == height_for_pages(self.num_pages())
        &&& self.base_page() + self.num_pages() <= usize::MAX
    }

    /// Whether page number `page` lies in the region.
    pub open spec fn covers(&self, page: nat) -> bool {
        self.base_page() <= page < self.base_page() + self.num_pages()
    }

    /// A region of `num_pages` pages that starts at page `base_page`, with
    /// every word of its tree zero.
    pub fn new(base_page: PageNum, num_pages: usize) -> (region: Self)
        requires
            num_pages >= 1,
            base_page + num_pages <= usize::MAX,
            height_for_pages(num_pages as nat) <= MAX_HEIGHT,
        ensures
            region.wf(),
            region.base_page() == base_page,
            region.num_pages() == num_pages,
    {
        proof {
            super::page_alloc::lemma_layers_ordered();
            lemma_height_covers(num_pages as nat);
        }
        let leaf_words = TreeAlloc::leaf_words_for(num_pages);
        let height = TreeAlloc::height_from_leaf_words(leaf_words.unwrap());
        proof {
            let h = height_for_pages(num_pages as nat);
            if height < h {
                super::geometry::lemma_power_monotonic(64, height as nat, (h - 1) as nat);
            } else if height > h {
                super::geometry::lemma_power_strictly_monotonic(
                    64,
                    (h - 1) as nat,
                    (height - 1) as nat,
                );
            }
        }
        SharedRegion { base_page, num_pages, tree: SharedTree::new(height) }
    }

    /// Makes one attempt to allocate a page of the region. A page that the
    /// tree has a bit for but that lies past the end of the region is
    /// given back at once, and the region reported as full.
    pub fn try_allocate(&self) -> (r: Attempt)
        requires
            self.wf(),
        ensures
            match r {
                Attempt::Allocated(page) => self.covers(page as nat),
                _ => true,
            },
    {
        let inner = self.tree.try_allocate();
        match inner {
            Attempt::Allocated(idx) => {
                if idx >= self.num_pages {
                    self.tree.free(idx);
                }
            },
            _ => {},
        }
        self.settle(inner)
    }

    /// What an attempt on the region comes to when the attempt on its tree
    /// came to `inner`: the index of a page of the region becomes that
    /// page's number, an index past the end of the region means that the
    /// region is full, and the other two outcomes stand.
    pub open spec fn settled(&self, inner: Attempt) -> Attempt {
        match inner {
            Attempt::Allocated(idx) => if idx < self.num_pages() {
                Attempt::Allocated((self.base_page() + idx) as usize)
            } else {
                Attempt::Full
            },
            Attempt::Full => Attempt::Full,
            Attempt::Raced => Attempt::Raced,
        }
    }

    /// Turns the outcome of an attempt on the region's tree into the
    /// outcome of the attempt on the region.
    pub fn settle(&self, inner: Attempt) -> (r: Attempt)
        requires
            self.wf(),
        ensures
            r == self.settled(inner),
            match r {
                Attempt::Allocated(page) => self.covers(page as nat),
                _ => true,
            },
    {
        match inner {
            Attempt::Allocated(idx) => {
                if idx < self.num_pages {
                    Attempt::Allocated(self.base_page + idx)
                } else {
                    Attempt::Full
                }
            },
            Attempt::Full => Attempt::Full,
            Attempt::Raced => Attempt::Raced,
        }
    }

    /// Frees page number `page` of the region.
    pub fn free(&self, page: PageNum)
        requires
            self.wf(),
            self.covers(page as nat),
    {
        self.tree.free(page - self.base_page);
    }

    /// Whether page number `page` lies in the region.
    pub fn contains(&self, page: PageNum) -> (r: bool)
        requires
            self.wf(),
        ensures
            r == self.covers(page as nat),
    {
        self.base_page <= page && page - self.base_page < self.num_pages
    }
}

/// The physical page allocator for several processors: an ordered sequence
/// of regions with trees of atomic words.
pub struct SharedPageAlloc {
    regions: Vec<SharedRegion>,
}

impl SharedPageAlloc {
    /// The regions, in the order in which they are tried.
    pub closed spec fn regions(&self) -> Seq<SharedRegion> {
        self.regions@
    }

    /// Every region is well-formed.
    pub open spec fn wf(&self) -> bool {
        forall|i: int| 0 <= i < self.regions().len() ==> (#[trigger] self.regions()[i]).wf()
    }

    /// Whether some region covers page number `page`.
    pub open spec fn covers(&self, page: nat) -> bool {
        exists|i: int| 0 <= i < self.regions().len() && (#[trigger] self.regions()[i]).covers(page)
    }

    /// Builds the allocator from the boot memory map: one region for each
    /// usable entry, in the order of the map.
    pub fn init(memmap: &Vec<MemoryMapEntry>) -> (pa: Self)
        requires
            forall|i: int|
                0 <= i < memmap@.len() && (#[trigger] memmap@[i]).kind.usable() ==> memmap@[i].valid(),
        ensures
            pa.wf(),
            pa.regions().len() == usable_entries(memmap@, memmap@.len()).len(),
            forall|j: int|
                0 <= j < pa.regions().len() ==> {
                    let entry = usable_entries(memmap@, memmap@.len())[j];
                    &&& (#[trigger] pa.regions()[j]).base_page() == entry.base / 4096
                    &&& pa.regions()[j].num_pages() == entry.length / 4096
                },
    {
        let mut regions: Vec<SharedRegion> = Vec::new();
        let mut i: usize = 0;
        while i < memmap.len()
            invariant
                i <= memmap@.len(),
                forall|k: int|
                    0 <= k < memmap@.len() && (#[trigger] memmap@[k]).kind.usable()
                        ==> memmap@[k].valid(),
                regions@.len() == usable_entries(memmap@, i as nat).len(),
                forall|j: int|
                    0 <= j < regions@.len() ==> {
                        let entry = usable_entries(memmap@, i as nat)[j];
                        &&& (#[trigger] regions@[j]).wf()
                        &&& regions@[j].base_page() == entry.base / 4096
                        &&& regions@[j].num_pages() == entry.length / 4096
                    },
            decreases memmap@.len() - i,
        {
            let entry = memmap[i];
            if entry.kind.is_usable() {
                regions.push(SharedRegion::new(entry.base / PAGE_SIZE, entry.length / PAGE_SIZE));
            }
            i = i + 1;
        }
        SharedPageAlloc { regions }
    }

    /// Number of regions.
    pub fn num_regions(&self) -> (n: usize)
        ensures
            n == self.regions().len(),
    {
        self.regions.len()
    }

    /// Makes one attempt to allocate a page, first-fit over the regions:
    /// a region that reports to be full is passed over; a race in a
    /// region ends the attempt. With no region there is no page to give.
    pub fn try_allocate(&self) -> (r: Attempt)
        requires
            self.wf(),
        ensures
            self.regions().len() == 0 ==> r == Attempt::Full,
            match r {
                Attempt::Allocated(page) => self.covers(page as nat),
                _ => true,
            },
    {
        let mut i: usize = 0;
        while i < self.regions.len()
            invariant
                i <= self.regions().len(),
                self.wf(),
            decreases self.regions().len() - i,
        {
            assert(self.regions()[i as int].wf());
            match self.regions[i].try_allocate() {
                Attempt::Allocated(page) => {
                    return Attempt::Allocated(page);
                },
                Attempt::Raced => {
                    return Attempt::Raced;
                },
                Attempt::Full => {},
            }
            i = i + 1;
        }
        Attempt::Full
    }

    /// Frees page number `page` in the first region that covers it.
    pub fn free(&self, page: PageNum)
        requires
            self.wf(),
            self.covers(page as nat),
    {
        let mut i: usize = 0;
        while i < self.regions.len()
            invariant
                i <= self.regions().len(),
                self.wf(),
                forall|j: int| 0 <= j < i ==> !(#[trigger] self.regions()[j]).covers(page as nat),
            decreases self.regions().len() - i,
        {
            assert(self.regions()[i as int].wf());
            if self.regions[i].contains(page) {
                self.regions[i].free(page);
                return ;
            }
            i = i + 1;
        }
    }
}

} // verus!
