//! Memory regions and the allocator that hands out their pages first-fit.

use super::bump_alloc::{align_up, bumped, fits_at, mock_fits_at, BumpAlloc};
use super::geometry::{layer_offset, lemma_power_monotonic, lemma_power_strictly_monotonic};
use super::page_alloc::{height_for_pages, lemma_layers_ordered, TreeAlloc};
use super::{PageNum, MAX_HEIGHT, PAGE_SIZE};
use vstd::layout::{align_of, size_of};
use vstd::prelude::*;

verus! {

/// What a range of physical memory is used for, as the boot handoff
/// reports it.
#[derive(Clone, Copy, Debug, PartialEq, Eq, Structural)]
pub enum MemoryKind {
    Usable,
    Reserved,
    AcpiReclaimable,
    AcpiNvs,
    BadMemory,
    BootloaderReclaimable,
    KernelAndModules,
    Framebuffer,
}

impl MemoryKind {
    /// Whether pages of this kind may be handed out.
    pub open spec fn usable(self) -> bool {
        self == MemoryKind::Usable || self == MemoryKind::BootloaderReclaimable || self
            == MemoryKind::AcpiReclaimable
    }

    /// Whether pages of this kind may be handed out.
    pub fn is_usable(self) -> (r: bool)
        ensures
            r == self.usable(),
    {
        match self {
            MemoryKind::Usable => true,
            MemoryKind::BootloaderReclaimable => true,
            MemoryKind::AcpiReclaimable => true,
            _ => false,
        }
    }
}

/// One entry of the boot memory map.
#[derive(Clone, Copy, Debug)]
pub struct MemoryMapEntry {
    /// Physical address of the first byte.
    pub base: usize,
    /// Length in bytes.
    pub length: usize,
    pub kind: MemoryKind,
}

impl MemoryMapEntry {
    /// The entry starts and ends on a page boundary, is not empty, and its
    /// tree is of supported height.
    pub open spec fn valid(self) -> bool {
        &&& self.base % 4096 == 0
        &&& self.length % 4096 == 0
        &&& self.length >= 4096
        &&& self.base + self.length <= usize::MAX
        &&& height_for_pages((self.length / 4096) as nat) <= MAX_HEIGHT
    }

    /// Whether a region can be made of this entry.
    pub fn is_valid(&self) -> (r: bool)
        ensures
            r == self.valid(),
    {
        if self.base % PAGE_SIZE != 0 || self.length % PAGE_SIZE != 0 || self.length < PAGE_SIZE {
            return false;
        }
        if self.length > usize::MAX - self.base {
            return false;
        }
        TreeAlloc::leaf_words_for(self.length / PAGE_SIZE).is_some()
    }
}

/// The usable entries among the first `n` entries of a memory map, in order.
pub open spec fn usable_entries(memmap: Seq<MemoryMapEntry>, n: nat) -> Seq<MemoryMapEntry>
    decreases n,
{
    if n == 0 || n > memmap.len() {
        Seq::empty()
    } else if memmap[n - 1].kind.usable() {
        usable_entries(memmap, (n - 1) as nat).push(memmap[n - 1])
    } else {
        usable_entries(memmap, (n - 1) as nat)
    }
}

/// Number of words of the tree of a memory map entry.
pub open spec fn tree_words(entry: MemoryMapEntry) -> int {
    layer_offset(height_for_pages((entry.length / 4096) as nat)) as int
}

/// Where the bump pointer stands, having started at `ptr`, after the trees
/// of the usable entries among the first `n` entries of a memory map were
/// laid out, one after the other.
pub open spec fn layout_end(memmap: Seq<MemoryMapEntry>, n: nat, ptr: int) -> int
    decreases n,
{
    if n == 0 || n > memmap.len() {
        ptr
    } else if memmap[n - 1].kind.usable() {
        bumped(
            layout_end(memmap, (n - 1) as nat, ptr),
            size_of::<u64>() as int,
            align_of::<u64>() as int,
            tree_words(memmap[n - 1]),
        )
    } else {
        layout_end(memmap, (n - 1) as nat, ptr)
    }
}

/// The addresses at which the trees of the usable entries among the first
/// `n` entries of a memory map are laid out, in order.
pub open spec fn tree_addrs(memmap: Seq<MemoryMapEntry>, n: nat, ptr: int) -> Seq<int>
    decreases n,
{
    if n == 0 || n > memmap.len() {
        Seq::empty()
    } else if memmap[n - 1].kind.usable() {
        tree_addrs(memmap, (n - 1) as nat, ptr).push(
            align_up(layout_end(memmap, (n - 1) as nat, ptr), align_of::<u64>() as int),
        )
    } else {
        tree_addrs(memmap, (n - 1) as nat, ptr)
    }
}

/// Whether the trees of the usable entries among the first `n` entries of
/// a memory map, laid out from `ptr` on, fit in a buffer whose last byte
/// is at `last_addr`.
pub open spec fn layout_fits(memmap: Seq<MemoryMapEntry>, n: nat, ptr: int, last_addr: int) -> bool
    decreases n,
{
    if n == 0 || n > memmap.len() {
        true
    } else {
        &&& layout_fits(memmap, (n - 1) as nat, ptr, last_addr)
        &&& memmap[n - 1].kind.usable() ==> fits_at(
            layout_end(memmap, (n - 1) as nat, ptr),
            last_addr,
            size_of::<u64>() as int,
            align_of::<u64>() as int,
            tree_words(memmap[n - 1]),
        )
    }
}

/// Whether the mock pass over the first `n` entries of a memory map can
/// run from `ptr` on in a buffer whose last byte is at `last_addr`: each
/// tree starts within the buffer and ends within the address space.
pub open spec fn layout_mock_fits(memmap: Seq<MemoryMapEntry>, n: nat, ptr: int, last_addr: int) -> bool
    decreases n,
{
    if n == 0 || n > memmap.len() {
        true
    } else {
        &&& layout_mock_fits(memmap, (n - 1) as nat, ptr, last_addr)
        &&& memmap[n - 1].kind.usable() ==> mock_fits_at(
            layout_end(memmap, (n - 1) as nat, ptr),
            last_addr,
            size_of::<u64>() as int,
            align_of::<u64>() as int,
            tree_words(memmap[n - 1]),
        )
    }
}

/// Number of words of the tree of a region of `num_pages` pages.
pub fn tree_words_for(num_pages: usize) -> (words: usize)
    requires
        num_pages >= 1,
        height_for_pages(num_pages as nat) <= MAX_HEIGHT,
    ensures
        words == layer_offset(height_for_pages(num_pages as nat)),
        words >= 1,
{
    proof {
        lemma_layers_ordered();
        super::page_alloc::lemma_offset_monotonic(1, height_for_pages(num_pages as nat));
        super::geometry::lemma_layer_values();
    }
    let leaf_words = TreeAlloc::leaf_words_for(num_pages).unwrap();
    TreeAlloc::total_words_from_leaf_words(leaf_words)
}

/// A contiguous range of usable pages with its occupancy tree.
pub struct Region {
    base_page: PageNum,
    num_pages: usize,
    tree_addr: usize,
    tree: TreeAlloc,
}

impl Region {
    /// Number of the region's first page.
    pub closed spec fn base_page(&self) -> nat {
        self.base_page as nat
    }

    /// Number of pages in the region.
    pub closed spec fn num_pages(&self) -> nat {
        self.num_pages as nat
    }

    /// The region's occupancy tree, indexed by page offset within the region.
    pub closed spec fn tree(&self) -> TreeAlloc {
        self.tree
    }

    /// The address at which the words of the region's tree are laid out.
    pub closed spec fn tree_addr(&self) -> int {
        self.tree_addr as int
    }

    /// The tree is well-formed, is the smallest that covers the region,
    /// and marks no page beyond the region's end.
    pub open spec fn wf(&self) -> bool {
        &&& self.tree().wf()
        &&& 1 <= self.num_pages() <= self.tree().capacity()
        &&& self.tree().height() == height_for_pages(self.num_pages())
        &&& self.base_page() + self.num_pages() <= usize::MAX
        &&& forall|p: nat|
            self.num_pages() <= p < self.tree().capacity() ==> !self.tree().is_allocated(p)
    }

    /// Whether page number `page` lies in the region.
    pub open spec fn covers(&self, page: nat) -> bool {
        self.base_page() <= page < self.base_page() + self.num_pages()
    }

    /// Whether every page of the region is allocated.
    pub open spec fn exhausted(&self) -> bool {
        forall|p: nat| p < self.num_pages() ==> self.tree().is_allocated(p)
    }

    /// `post` is `self` after page number `page`, the lowest free page of
    /// the region, was handed out.
    pub open spec fn hands_out(&self, post: &Region, page: nat) -> bool {
        &&& self.covers(page)
        &&& post.base_page() == self.base_page()
        &&& post.num_pages() == self.num_pages()
        &&& post.tree_addr() == self.tree_addr()
        &&& self.tree().allocates(&post.tree(), (page - self.base_page()) as nat)
        &&& forall|q: nat| q < page - self.base_page() ==> self.tree().is_allocated(q)
        &&& post.tree().live_pages() == self.tree().live_pages() + 1
    }

    /// `post` is `self` after page number `page` was taken back.
    pub open spec fn takes_back(&self, post: &Region, page: nat) -> bool {
        &&& self.covers(page)
        &&& post.base_page() == self.base_page()
        &&& post.num_pages() == self.num_pages()
        &&& post.tree_addr() == self.tree_addr()
        &&& self.tree().frees(&post.tree(), (page - self.base_page()) as nat)
        &&& self.tree().is_allocated((page - self.base_page()) as nat)
            ==> post.tree().live_pages() + 1 == self.tree().live_pages()
    }

    /// A region of `num_pages` pages that starts at page `base_page`, with
    /// every page free. The words of its tree are laid out at `tree_addr`.
    pub fn new(base_page: PageNum, num_pages: usize, tree_addr: usize) -> (region: Self)
        requires
            num_pages >= 1,
            base_page + num_pages <= usize::MAX,
            height_for_pages(num_pages as nat) <= MAX_HEIGHT,
        ensures
            region.wf(),
            region.base_page() == base_page,
            region.num_pages() == num_pages,
            region.tree_addr() == tree_addr,
            region.tree().live_pages() == 0,
            forall|p: nat| p < region.tree().capacity() ==> !region.tree().is_allocated(p),
    {
        proof {
            lemma_layers_ordered();
        }
        let leaf_words = TreeAlloc::leaf_words_for(num_pages);
        let height = TreeAlloc::height_from_leaf_words(leaf_words.unwrap());
        proof {
            let h = height_for_pages(num_pages as nat);
            if height < h {
                lemma_power_monotonic(64, height as nat, (h - 1) as nat);
            } else if height > h {
                lemma_power_strictly_monotonic(64, (h - 1) as nat, (height - 1) as nat);
            }
            super::page_alloc::lemma_height_covers(num_pages as nat);
        }
        Region { base_page, num_pages, tree_addr, tree: TreeAlloc::new(height) }
    }

    /// Hands out the lowest free page of the region. Returns `None` when
    /// every page of the region is allocated.
    pub fn allocate(&mut self) -> (r: Option<PageNum>)
        requires
            old(self).wf(),
        ensures
            final(self).wf(),
            match r {
                Some(page) => old(self).hands_out(final(self), page as nat),
                None => old(self).exhausted() && *final(self) == *old(self),
            },
    {
        match self.tree.find_free() {
            Some(idx) => {
                if idx < self.num_pages {
                    self.tree.mark(idx);
                    Some(self.base_page + idx)
                } else {
                    None
                }
            },
            None => None,
        }
    }

    /// Takes back page number `page` of the region.
    pub fn free(&mut self, page: PageNum)
        requires
            old(self).wf(),
            old(self).covers(page as nat),
        ensures
            final(self).wf(),
            old(self).takes_back(final(self), page as nat),
    {
        self.tree.free(page - self.base_page);
    }

    /// Whether page number `page` lies in the region.
    pub fn contains(&self, page: PageNum) -> (r: bool)
        requires
            self.wf(),
        ensures
            r == self.covers(page as nat),
    {
        self.base_page <= page && page - self.base_page < self.num_pages
    }
}

/// The physical page allocator: an ordered sequence of regions.
pub struct PageAlloc {
    regions: Vec<Region>,
}

impl PageAlloc {
    /// The regions, in the order in which they are tried.
    pub closed spec fn regions(&self) -> Seq<Region> {
        self.regions@
    }

    /// Every region is well-formed.
    pub open spec fn wf(&self) -> bool {
        forall|i: int| 0 <= i < self.regions().len() ==> (#[trigger] self.regions()[i]).wf()
    }

    /// Whether some region covers page number `page`.
    pub open spec fn covers(&self, page: nat) -> bool {
        exists|i: int| 0 <= i < self.regions().len() && (#[trigger] self.regions()[i]).covers(page)
    }

    /// `post` is `self` after region `i` handed out page `page` and all
    /// regions before it were found exhausted.
    pub open spec fn hands_out_from(&self, post: &PageAlloc, i: int, page: nat) -> bool {
        &&& 0 <= i < self.regions().len()
        &&& post.regions().len() == self.regions().len()
        &&& self.regions()[i].hands_out(&post.regions()[i], page)
        &&& forall|j: int| 0 <= j < i ==> (#[trigger] self.regions()[j]).exhausted()
        &&& forall|j: int|
            0 <= j < self.regions().len() && j != i ==> #[trigger] post.regions()[j]
                == self.regions()[j]
    }

    /// `post` is `self` after the first region that had a free page handed
    /// out page `page`, its lowest free page.
    pub open spec fn hands_out(&self, post: &PageAlloc, page: nat) -> bool {
        exists|i: int| #[trigger] self.hands_out_from(post, i, page)
    }

    /// `post` is `self` after the first region that covers `page` took the
    /// page back.
    pub open spec fn takes_back(&self, post: &PageAlloc, page: nat) -> bool {
        exists|i: int| #[trigger] self.takes_back_in(post, i, page)
    }

    /// `post` is `self` after region `i`, the first that covers `page`,
    /// took the page back.
    pub open spec fn takes_back_in(&self, post: &PageAlloc, i: int, page: nat) -> bool {
        &&& 0 <= i < self.regions().len()
        &&& post.regions().len() == self.regions().len()
        &&& self.regions()[i].takes_back(&post.regions()[i], page)
        &&& forall|j: int| 0 <= j < i ==> !(#[trigger] self.regions()[j]).covers(page)
        &&& forall|j: int|
            0 <= j < self.regions().len() && j != i ==> #[trigger] post.regions()[j]
                == self.regions()[j]
    }

    /// The mock pass over the boot memory map: moves the bump pointer past
    /// the trees of the usable entries, as `init` does, and creates
    /// nothing. The last tree may reach past the end of the buffer.
    pub fn mock_init(memmap: &Vec<MemoryMapEntry>, bump: &mut BumpAlloc)
        requires
            forall|i: int|
                0 <= i < memmap@.len() && (#[trigger] memmap@[i]).kind.usable() ==> memmap@[i].valid(),
            layout_mock_fits(memmap@, memmap@.len(), old(bump).ptr(), old(bump).last_addr()),
        ensures
            final(bump).ptr() == layout_end(memmap@, memmap@.len(), old(bump).ptr()),
            final(bump).last_addr() == old(bump).last_addr(),
    {
        let mut i: usize = 0;
        while i < memmap.len()
            invariant
                i <= memmap@.len(),
                forall|k: int|
                    0 <= k < memmap@.len() && (#[trigger] memmap@[k]).kind.usable()
                        ==> memmap@[k].valid(),
                layout_mock_fits(memmap@, memmap@.len(), old(bump).ptr(), old(bump).last_addr()),
                bump.ptr() == layout_end(memmap@, i as nat, old(bump).ptr()),
                bump.last_addr() == old(bump).last_addr(),
            decreases memmap@.len() - i,
        {
            let entry = memmap[i];
            proof {
                lemma_layout_mock_fits_prefix(
                    memmap@,
                    memmap@.len(),
                    (i + 1) as nat,
                    old(bump).ptr(),
                    old(bump).last_addr(),
                );
            }
            if entry.kind.is_usable() {
                bump.alloc_slice_mock::<u64>(tree_words_for(entry.length / PAGE_SIZE));
            }
            i = i + 1;
        }
    }

    /// Whether the mock pass over the boot memory map can run with the
    /// bump allocator as it stands.
    pub fn mock_fits(memmap: &Vec<MemoryMapEntry>, bump: &BumpAlloc) -> (r: bool)
        requires
            forall|i: int|
                0 <= i < memmap@.len() && (#[trigger] memmap@[i]).kind.usable() ==> memmap@[i].valid(),
        ensures
            r == layout_mock_fits(memmap@, memmap@.len(), bump.ptr(), bump.last_addr()),
    {
        let mut probe = *bump;
        let mut i: usize = 0;
        while i < memmap.len()
            invariant
                i <= memmap@.len(),
                forall|k: int|
                    0 <= k < memmap@.len() && (#[trigger] memmap@[k]).kind.usable()
                        ==> memmap@[k].valid(),
                layout_mock_fits(memmap@, i as nat, bump.ptr(), bump.last_addr()),
                probe.ptr() == layout_end(memmap@, i as nat, bump.ptr()),
                probe.last_addr() == bump.last_addr(),
            decreases memmap@.len() - i,
        {
            let entry = memmap[i];
            if entry.kind.is_usable() {
                let words = tree_words_for(entry.length / PAGE_SIZE);
                if !probe.mock_in_bounds::<u64>(words) {
                    proof {
                        assert(!layout_mock_fits(
                            memmap@,
                            (i + 1) as nat,
                            bump.ptr(),
                            bump.last_addr(),
                        ));
                        if layout_mock_fits(memmap@, memmap@.len(), bump.ptr(), bump.last_addr()) {
                            lemma_layout_mock_fits_prefix(
                                memmap@,
                                memmap@.len(),
                                (i + 1) as nat,
                                bump.ptr(),
                                bump.last_addr(),
                            );
                        }
                    }
                    return false;
                }
                probe.alloc_slice_mock::<u64>(words);
            }
            i = i + 1;
        }
        true
    }

    /// Whether the trees of the usable entries of the boot memory map fit
    /// in what is left of the bump allocator's buffer.
    pub fn metadata_fits(memmap: &Vec<MemoryMapEntry>, bump: &BumpAlloc) -> (r: bool)
        requires
            forall|i: int|
                0 <= i < memmap@.len() && (#[trigger] memmap@[i]).kind.usable() ==> memmap@[i].valid(),
        ensures
            r == layout_fits(memmap@, memmap@.len(), bump.ptr(), bump.last_addr()),
    {
        let mut probe = *bump;
        let mut i: usize = 0;
        while i < memmap.len()
            invariant
                i <= memmap@.len(),
                forall|k: int|
                    0 <= k < memmap@.len() && (#[trigger] memmap@[k]).kind.usable()
                        ==> memmap@[k].valid(),
                layout_fits(memmap@, i as nat, bump.ptr(), bump.last_addr()),
                probe.ptr() == layout_end(memmap@, i as nat, bump.ptr()),
                probe.last_addr() == bump.last_addr(),
            decreases memmap@.len() - i,
        {
            let entry = memmap[i];
            if entry.kind.is_usable() {
                let words = tree_words_for(entry.length / PAGE_SIZE);
                if !probe.slice_in_bounds::<u64>(words) {
                    proof {
                        assert(!layout_fits(
                            memmap@,
                            (i + 1) as nat,
                            bump.ptr(),
                            bump.last_addr(),
                        ));
                        if layout_fits(memmap@, memmap@.len(), bump.ptr(), bump.last_addr()) {
                            lemma_layout_fits_prefix(
                                memmap@,
                                memmap@.len(),
                                (i + 1) as nat,
                                bump.ptr(),
                                bump.last_addr(),
                            );
                        }
                    }
                    return false;
                }
                proof {
                    probe.lemma_addresses();
                }
                probe.alloc_slice_mock::<u64>(words);
            }
            i = i + 1;
        }
        true
    }

    /// Builds the allocator from the boot memory map: one region, with
    /// every page free, for each usable entry, in the order of the map.
    /// The trees of the regions are laid out with the bump allocator.
    #[verifier::rlimit(30)]
    pub fn init(memmap: &Vec<MemoryMapEntry>, bump: &mut BumpAlloc) -> (pa: Self)
        requires
            forall|i: int|
                0 <= i < memmap@.len() && (#[trigger] memmap@[i]).kind.usable() ==> memmap@[i].valid(),
            layout_fits(memmap@, memmap@.len(), old(bump).ptr(), old(bump).last_addr()),
        ensures
            pa.wf(),
            final(bump).ptr() == layout_end(memmap@, memmap@.len(), old(bump).ptr()),
            final(bump).last_addr() == old(bump).last_addr(),
            pa.regions().len() == usable_entries(memmap@, memmap@.len()).len(),
            pa.regions().len() == tree_addrs(memmap@, memmap@.len(), old(bump).ptr()).len(),
            forall|j: int|
                0 <= j < pa.regions().len() ==> {
                    let entry = usable_entries(memmap@, memmap@.len())[j];
                    &&& (#[trigger] pa.regions()[j]).base_page() == entry.base / 4096
                    &&& pa.regions()[j].num_pages() == entry.length / 4096
                    &&& pa.regions()[j].tree().live_pages() == 0
                    &&& pa.regions()[j].tree_addr() == tree_addrs(
                        memmap@,
                        memmap@.len(),
                        old(bump).ptr(),
                    )[j]
                },
    {
        let mut regions: Vec<Region> = Vec::new();
        let mut i: usize = 0;
        let ghost start = bump.ptr();
        while i < memmap.len()
            invariant
                i <= memmap@.len(),
                start == old(bump).ptr(),
                forall|k: int|
                    0 <= k < memmap@.len() && (#[trigger] memmap@[k]).kind.usable()
                        ==> memmap@[k].valid(),
                layout_fits(memmap@, memmap@.len(), start, old(bump).last_addr()),
                bump.ptr() == layout_end(memmap@, i as nat, start),
                bump.last_addr() == old(bump).last_addr(),
                regions@.len() == usable_entries(memmap@, i as nat).len(),
                regions@.len() == tree_addrs(memmap@, i as nat, start).len(),
                forall|j: int|
                    0 <= j < regions@.len() ==> {
                        let entry = usable_entries(memmap@, i as nat)[j];
                        &&& (#[trigger] regions@[j]).wf()
                        &&& regions@[j].base_page() == entry.base / 4096
                        &&& regions@[j].num_pages() == entry.length / 4096
                        &&& regions@[j].tree().live_pages() == 0
                        &&& regions@[j].tree_addr() == tree_addrs(memmap@, i as nat, start)[j]
                    },
            decreases memmap@.len() - i,
        {
            let entry = memmap[i];
            proof {
                lemma_layout_fits_prefix(
                    memmap@,
                    memmap@.len(),
                    (i + 1) as nat,
                    start,
                    old(bump).last_addr(),
                );
            }
            if entry.kind.is_usable() {
                let num_pages = entry.length / PAGE_SIZE;
                let tree_addr = bump.alloc_slice::<u64>(tree_words_for(num_pages));
                let region = Region::new(entry.base / PAGE_SIZE, num_pages, tree_addr);
                regions.push(region);
            }
            i = i + 1;
        }
        PageAlloc { regions }
    }

    /// Number of regions.
    pub fn num_regions(&self) -> (n: usize)
        ensures
            n == self.regions().len(),
    {
        self.regions.len()
    }

    /// Allocates a page, first-fit over the regions, and tells which region
    /// handed it out. Returns `None` when every region is exhausted.
    pub fn allocate_from(&mut self) -> (r: Option<(usize, PageNum)>)
        requires
            old(self).wf(),
        ensures
            final(self).wf(),
            match r {
                Some((idx, page)) => old(self).hands_out_from(final(self), idx as int, page as nat),
                None => {
                    &&& forall|j: int|
                        0 <= j < old(self).regions().len() ==> (#[trigger] old(
                            self,
                        ).regions()[j]).exhausted()
                    &&& final(self).regions() == old(self).regions()
                },
            },
    {
        let mut i: usize = 0;
        while i < self.regions.len()
            invariant
                i <= self.regions@.len(),
                self.regions@ == old(self).regions@,
                self.wf(),
                forall|j: int| 0 <= j < i ==> (#[trigger] self.regions@[j]).exhausted(),
            decreases self.regions@.len() - i,
        {
            assert(self.regions()[i as int].wf());
            let region = &mut self.regions[i];
            let got = region.allocate();
            match got {
                Some(page) => {
                    proof {
                        assert forall|j: int| 0 <= j < self.regions().len() implies (
                        #[trigger] self.regions()[j]).wf() by {
                            if j != i {
                                assert(old(self).regions()[j].wf());
                            }
                        }
                        assert(old(self).hands_out_from(self, i as int, page as nat));
                    }
                    return Some((i, page));
                },
                None => {
                    assert(self.regions@ =~= old(self).regions@);
                },
            }
            i = i + 1;
        }
        None
    }

    /// Allocates a page, first-fit over the regions. Returns `None` when
    /// every region is exhausted.
    pub fn allocate(&mut self) -> (r: Option<PageNum>)
        requires
            old(self).wf(),
        ensures
            final(self).wf(),
            match r {
                Some(page) => old(self).hands_out(final(self), page as nat),
                None => {
                    &&& forall|j: int|
                        0 <= j < old(self).regions().len() ==> (#[trigger] old(
                            self,
                        ).regions()[j]).exhausted()
                    &&& final(self).regions() == old(self).regions()
                },
            },
    {
        let from = self.allocate_from();
        match from {
            Some((idx, page)) => {
                assert(old(self).hands_out_from(self, idx as int, page as nat));
                assert(old(self).hands_out_from(final(self), idx as int, page as nat));
                return Some(page);
            },
            None => {
                return None;
            },
        }
    }

    /// Takes back page number `page` in the region at position `idx`.
    pub fn free_in(&mut self, idx: usize, page: PageNum)
        requires
            old(self).wf(),
            idx < old(self).regions().len(),
            old(self).regions()[idx as int].covers(page as nat),
        ensures
            final(self).wf(),
            final(self).regions().len() == old(self).regions().len(),
            old(self).regions()[idx as int].takes_back(
                &final(self).regions()[idx as int],
                page as nat,
            ),
            forall|j: int|
                0 <= j < old(self).regions().len() && j != idx ==> #[trigger] final(self).regions()[j] == old(self).regions()[j],
    {
        assert(self.regions()[idx as int].wf());
        let region = &mut self.regions[idx];
        region.free(page);
        proof {
            assert forall|j: int| 0 <= j < self.regions().len() implies (
            #[trigger] self.regions()[j]).wf() by {
                if j != idx {
                    assert(old(self).regions()[j].wf());
                }
            }
        }
    }

    /// Takes back page number `page` in the first region that covers it.
    pub fn free(&mut self, page: PageNum)
        requires
            old(self).wf(),
            old(self).covers(page as nat),
        ensures
            final(self).wf(),
            old(self).takes_back(final(self), page as nat),
    {
        let mut i: usize = 0;
        while i < self.regions.len()
            invariant
                i <= self.regions@.len(),
                self.regions@ == old(self).regions@,
                self.wf(),
                self.covers(page as nat),
                forall|j: int| 0 <= j < i ==> !(#[trigger] self.regions@[j]).covers(page as nat),
            decreases self.regions@.len() - i,
        {
            if self.regions[i].contains(page) {
                assert(self.regions()[i as int].wf());
                let region = &mut self.regions[i];
                region.free(page);
                proof {
                    assert forall|j: int| 0 <= j < self.regions().len() implies (
                    #[trigger] self.regions()[j]).wf() by {
                        if j != i {
                            assert(old(self).regions()[j].wf());
                        }
                    }
                    assert(old(self).takes_back_in(self, i as int, page as nat));
                }
                return ;
            }
            i = i + 1;
        }
        proof {
            let k = choose|k: int|
                0 <= k < self.regions().len() && (#[trigger] self.regions()[k]).covers(page as nat);
            assert(!self.regions@[k].covers(page as nat));
        }
    }
}

/// A layout that fits fits up to each of its entries.
pub proof fn lemma_layout_fits_prefix(
    memmap: Seq<MemoryMapEntry>,
    n: nat,
    k: nat,
    ptr: int,
    last_addr: int,
)
    requires
        layout_fits(memmap, n, ptr, last_addr),
        k <= n <= memmap.len(),
    ensures
        layout_fits(memmap, k, ptr, last_addr),
    decreases n,
{
    if k < n {
        lemma_layout_fits_prefix(memmap, (n - 1) as nat, k, ptr, last_addr);
    }
}

/// A mock pass that can run can run up to each of its entries.
pub proof fn lemma_layout_mock_fits_prefix(
    memmap: Seq<MemoryMapEntry>,
    n: nat,
    k: nat,
    ptr: int,
    last_addr: int,
)
    requires
        layout_mock_fits(memmap, n, ptr, last_addr),
        k <= n <= memmap.len(),
    ensures
        layout_mock_fits(memmap, k, ptr, last_addr),
    decreases n,
{
    if k < n {
        lemma_layout_mock_fits_prefix(memmap, (n - 1) as nat, k, ptr, last_addr);
    }
}

/// Where the actual pass can run, the mock pass can run.
pub proof fn lemma_fits_for_mock(memmap: Seq<MemoryMapEntry>, n: nat, ptr: int, last_addr: int)
    requires
        layout_fits(memmap, n, ptr, last_addr),
        last_addr <= usize::MAX,
    ensures
        layout_mock_fits(memmap, n, ptr, last_addr),
    decreases n,
{
    if n > 0 && n <= memmap.len() {
        lemma_fits_for_mock(memmap, (n - 1) as nat, ptr, last_addr);
    }
}

/// The mock pass and the actual pass lay the trees out alike: started
/// with the bump pointer at the same address, both leave it at the same
/// address.
pub proof fn lemma_passes_lay_out_alike(
    memmap: Seq<MemoryMapEntry>,
    mock_before: &BumpAlloc,
    mock_after: &BumpAlloc,
    actual_before: &BumpAlloc,
    actual_after: &BumpAlloc,
)
    requires
        mock_before.ptr() == actual_before.ptr(),
        mock_after.ptr() == layout_end(memmap, memmap.len(), mock_before.ptr()),
        actual_after.ptr() == layout_end(memmap, memmap.len(), actual_before.ptr()),
    ensures
        mock_after.ptr() == actual_after.ptr(),
{
}

} // verus!
