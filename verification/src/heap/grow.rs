//! How the heap obtains chunks from the page allocator.
//!
//! A chunk is 512 pages in a row, the first of them on a chunk boundary.
//! The page allocator hands out single pages, lowest first, so the heap
//! allocates 512 pages one by one and checks that they follow one another.
//! If they do not, or the page allocator runs out, the pages allocated so
//! far go back, each to the region that handed it out.
//!
//! Chunks are kept for good: the heap does not give a chunk back once it
//! is linked.

use super::chunk::{CHUNK_ALIGN, CHUNK_SIZE};
use super::Heap;
use crate::mem::region::{PageAlloc, Region};
use crate::mem::{PageNum, PAGE_SIZE};
use vstd::prelude::*;

verus! {

/// Number of pages in a chunk.
pub const CHUNK_PAGES: usize = 512;

/// The pages `first`, `first + 1`, ... , each with the region that handed
/// it out.
pub open spec fn run(owners: Seq<usize>, first: int) -> Seq<(int, int)> {
    Seq::new(owners.len(), |k: int| (owners[k] as int, first + k))
}

/// Region `after` is region `before`, at position `idx`, with the pages
/// allocated that are paired with `idx` in `taken`.
pub open spec fn region_extended(
    before: &Region,
    after: &Region,
    idx: int,
    taken: Seq<(int, int)>,
) -> bool {
    &&& after.base_page() == before.base_page()
    &&& after.num_pages() == before.num_pages()
    &&& after.tree_addr() == before.tree_addr()
    &&& after.tree().height() == before.tree().height()
    &&& forall|q: nat|
        q < before.tree().capacity() ==> (#[trigger] after.tree().is_allocated(q) <==> (
        before.tree().is_allocated(q) || taken.contains((idx, (before.base_page() + q) as int))))
}

/// `post` is `pre` with the pages of `taken` allocated, each in the region
/// it is paired with, where it was free in `pre`.
pub open spec fn extended_by(pre: &PageAlloc, post: &PageAlloc, taken: Seq<(int, int)>) -> bool {
    &&& post.regions().len() == pre.regions().len()
    &&& forall|i: int|
        0 <= i < pre.regions().len() ==> region_extended(
            &pre.regions()[i],
            &(#[trigger] post.regions()[i]),
            i,
            taken,
        )
    &&& forall|k: int|
        0 <= k < taken.len() ==> {
            let (i, page) = #[trigger] taken[k];
            &&& 0 <= i < pre.regions().len()
            &&& page >= 0
            &&& pre.regions()[i].covers(page as nat)
            &&& !pre.regions()[i].tree().is_allocated((page - pre.regions()[i].base_page()) as nat)
        }
    &&& taken.no_duplicates()
}

/// `post` has in each region the pages allocated that `pre` has.
pub open spec fn same_pages(pre: &PageAlloc, post: &PageAlloc) -> bool {
    extended_by(pre, post, Seq::<(int, int)>::empty())
}

/// The pages of a chunk: the number of the first page, and for each page
/// the position of the region that handed it out.
pub struct ChunkPages {
    pub first: PageNum,
    pub owners: Vec<usize>,
}

/// One more page was allocated: the page allocator is extended by one
/// more pair.
#[verifier::rlimit(30)]
proof fn lemma_extend(
    pre: &PageAlloc,
    mid: &PageAlloc,
    post: &PageAlloc,
    taken: Seq<(int, int)>,
    idx: int,
    page: int,
)
    requires
        pre.wf(),
        mid.wf(),
        extended_by(pre, mid, taken),
        page >= 0,
        mid.hands_out_from(post, idx, page as nat),
    ensures
        extended_by(pre, post, taken.push((idx, page))),
{
    let more = taken.push((idx, page));
    let base = pre.regions()[idx].base_page();
    assert(0 <= idx < mid.regions().len());
    assert(region_extended(&pre.regions()[idx], &mid.regions()[idx], idx, taken));
    assert(mid.regions()[idx].wf());
    assert(mid.regions()[idx].hands_out(&post.regions()[idx], page as nat));
    assert(mid.regions()[idx].covers(page as nat));
    assert(page >= 0);
    let off = (page - base) as nat;
    assert(mid.regions()[idx].tree().allocates(&post.regions()[idx].tree(), off));
    assert(!mid.regions()[idx].tree().is_allocated(off));
    assert(!taken.contains((idx, page))) by {
        assert(off < pre.regions()[idx].tree().capacity());
        assert(base + off == page);
    }
    assert forall|i: int| 0 <= i < pre.regions().len() implies region_extended(
        &pre.regions()[i],
        &(#[trigger] post.regions()[i]),
        i,
        more,
    ) by {
        assert(region_extended(&pre.regions()[i], &mid.regions()[i], i, taken));
        let a = pre.regions()[i];
        assert forall|q: nat| q < a.tree().capacity() implies (#[trigger] post.regions()[i].tree().is_allocated(
            q,
        ) <==> (a.tree().is_allocated(q) || more.contains((i, (a.base_page() + q) as int)))) by {
            assert(mid.regions()[i].tree().is_allocated(q) <==> (a.tree().is_allocated(q)
                || taken.contains((i, (a.base_page() + q) as int))));
            let pair = (i, (a.base_page() + q) as int);
            assert(more.contains(pair) <==> (taken.contains(pair) || pair == (idx, page))) by {
                if taken.contains(pair) {
                    let k = taken.index_of(pair);
                    assert(more[k] == pair);
                }
                if pair == (idx, page) {
                    assert(more[more.len() - 1] == pair);
                }
                if more.contains(pair) {
                    let k = more.index_of(pair);
                    if k < taken.len() {
                        assert(taken[k] == pair);
                    }
                }
            }
            if i != idx {
                assert(post.regions()[i] == mid.regions()[i]);
            }
        }
    }
    assert forall|k: int| 0 <= k < more.len() implies {
        let (i, p) = #[trigger] more[k];
        &&& 0 <= i < pre.regions().len()
        &&& p >= 0
        &&& pre.regions()[i].covers(p as nat)
        &&& !pre.regions()[i].tree().is_allocated((p - pre.regions()[i].base_page()) as nat)
    } by {
        if k < taken.len() {
            assert(more[k] == taken[k]);
        } else {
            assert(pre.regions()[idx].tree().is_allocated(off) ==> mid.regions()[idx].tree().is_allocated(off));
        }
    }
    assert forall|a: int, b: int| 0 <= a < more.len() && 0 <= b < more.len() && a != b
        implies more[a] != more[b] by {
        if a < taken.len() && b < taken.len() {
            assert(taken[a] != taken[b]);
        } else if a < taken.len() {
            assert(taken.contains(taken[a]));
        } else {
            assert(taken.contains(taken[b]));
        }
    }
}

/// The page of the last pair went back to its region: the page allocator
/// is extended by one pair less.
#[verifier::rlimit(30)]
proof fn lemma_shrink(
    pre: &PageAlloc,
    mid: &PageAlloc,
    post: &PageAlloc,
    taken: Seq<(int, int)>,
)
    requires
        pre.wf(),
        mid.wf(),
        taken.len() > 0,
        extended_by(pre, mid, taken),
        post.regions().len() == mid.regions().len(),
        mid.regions()[taken.last().0].takes_back(
            &post.regions()[taken.last().0],
            taken.last().1 as nat,
        ),
        forall|j: int|
            0 <= j < mid.regions().len() && j != taken.last().0 ==> #[trigger] post.regions()[j]
                == mid.regions()[j],
    ensures
        extended_by(pre, post, taken.drop_last()),
{
    let less = taken.drop_last();
    let (idx, page) = taken.last();
    assert(taken[taken.len() - 1] == (idx, page));
    let base = pre.regions()[idx].base_page();
    assert(region_extended(&pre.regions()[idx], &mid.regions()[idx], idx, taken));
    assert(mid.regions()[idx].wf());
    assert(pre.regions()[idx].covers(page as nat));
    let off = (page - base) as nat;
    assert(mid.regions()[idx].tree().frees(&post.regions()[idx].tree(), off));
    assert(!pre.regions()[idx].tree().is_allocated(off));
    assert forall|i: int| 0 <= i < pre.regions().len() implies region_extended(
        &pre.regions()[i],
        &(#[trigger] post.regions()[i]),
        i,
        less,
    ) by {
        assert(region_extended(&pre.regions()[i], &mid.regions()[i], i, taken));
        let a = pre.regions()[i];
        assert forall|q: nat| q < a.tree().capacity() implies (#[trigger] post.regions()[i].tree().is_allocated(
            q,
        ) <==> (a.tree().is_allocated(q) || less.contains((i, (a.base_page() + q) as int)))) by {
            assert(mid.regions()[i].tree().is_allocated(q) <==> (a.tree().is_allocated(q)
                || taken.contains((i, (a.base_page() + q) as int))));
            let pair = (i, (a.base_page() + q) as int);
            assert(taken.contains(pair) <==> (less.contains(pair) || pair == (idx, page))) by {
                if less.contains(pair) {
                    let k = less.index_of(pair);
                    assert(taken[k] == pair);
                }
                if taken.contains(pair) {
                    let k = taken.index_of(pair);
                    if k < less.len() {
                        assert(less[k] == pair);
                    }
                }
            }
            assert(!less.contains((idx, page))) by {
                if less.contains((idx, page)) {
                    let k = less.index_of((idx, page));
                    assert(taken[k] == taken[taken.len() - 1]);
                }
            }
            if i != idx {
                assert(post.regions()[i] == mid.regions()[i]);
            } else {
                assert(post.regions()[i].tree().is_allocated(q) <==> (q != off
                    && mid.regions()[i].tree().is_allocated(q)));
            }
        }
    }
    assert forall|k: int| 0 <= k < less.len() implies {
        let (i, p) = #[trigger] less[k];
        &&& 0 <= i < pre.regions().len()
        &&& p >= 0
        &&& pre.regions()[i].covers(p as nat)
        &&& !pre.regions()[i].tree().is_allocated((p - pre.regions()[i].base_page()) as nat)
    } by {
        assert(less[k] == taken[k]);
    }
    assert forall|a: int, b: int| 0 <= a < less.len() && 0 <= b < less.len() && a != b
        implies less[a] != less[b] by {
        assert(taken[a] != taken[b]);
    }
}

/// Gives the pages of a run back, each to the region that handed it out.
fn release_run(
    pages: &mut PageAlloc,
    first: PageNum,
    owners: &Vec<usize>,
    Ghost(pre): Ghost<PageAlloc>,
)
    requires
        pre.wf(),
        old(pages).wf(),
        extended_by(&pre, old(pages), run(owners@, first as int)),
        first + owners@.len() <= usize::MAX,
    ensures
        final(pages).wf(),
        same_pages(&pre, final(pages)),
{
    let mut n: usize = owners.len();
    proof {
        assert(run(owners@, first as int).take(n as int) =~= run(owners@, first as int));
    }
    while n > 0
        invariant
            n <= owners@.len(),
            pre.wf(),
            pages.wf(),
            first + owners@.len() <= usize::MAX,
            extended_by(&pre, pages, run(owners@, first as int).take(n as int)),
        decreases n,
    {
        let ghost taken = run(owners@, first as int).take(n as int);
        let ghost mid = *pages;
        n = n - 1;
        proof {
            assert(taken[n as int] == (owners@[n as int] as int, first + n));
            assert(taken.last() == taken[n as int]);
            assert(region_extended(
                &pre.regions()[owners@[n as int] as int],
                &mid.regions()[owners@[n as int] as int],
                owners@[n as int] as int,
                taken,
            ));
        }
        pages.free_in(owners[n], first + n);
        proof {
            lemma_shrink(&pre, &mid, pages, taken);
            assert(taken.drop_last() =~= run(owners@, first as int).take(n as int));
        }
    }
    proof {
        assert(run(owners@, first as int).take(0) =~= Seq::<(int, int)>::empty());
    }
}

/// Region `idx` is the first region with a free page; its lowest free
/// page is `first`, which lies on a chunk boundary; and this page and the
/// 511 pages after it are free pages of the region.
pub open spec fn has_free_run(pages: &PageAlloc, idx: int, first: int) -> bool {
    &&& 0 <= idx < pages.regions().len()
    &&& forall|j: int| 0 <= j < idx ==> (#[trigger] pages.regions()[j]).exhausted()
    &&& first % 512 == 0
    &&& pages.regions()[idx].base_page() <= first
    &&& first + 512 <= pages.regions()[idx].base_page() + pages.regions()[idx].num_pages()
    &&& forall|q: nat|
        q < first - pages.regions()[idx].base_page()
            ==> #[trigger] pages.regions()[idx].tree().is_allocated(q)
    &&& forall|q: nat|
        first - pages.regions()[idx].base_page() <= q < first - pages.regions()[idx].base_page()
            + 512 ==> !(#[trigger] pages.regions()[idx].tree().is_allocated(q))
}

/// At most one region and page make up the free run of a page allocator.
pub proof fn lemma_free_run_unique(pages: &PageAlloc, idx: int, first: int, idx2: int, first2: int)
    requires
        pages.wf(),
        has_free_run(pages, idx, first),
        has_free_run(pages, idx2, first2),
    ensures
        idx == idx2,
        first == first2,
{
    let off = |i: int, f: int| (f - pages.regions()[i].base_page()) as nat;
    if idx < idx2 {
        assert(pages.regions()[idx].exhausted());
        assert(!pages.regions()[idx].tree().is_allocated(off(idx, first)));
    } else if idx2 < idx {
        assert(pages.regions()[idx2].exhausted());
        assert(!pages.regions()[idx2].tree().is_allocated(off(idx2, first2)));
    } else {
        if first < first2 {
            assert(!pages.regions()[idx].tree().is_allocated(off(idx, first)));
        } else if first2 < first {
            assert(!pages.regions()[idx].tree().is_allocated(off(idx, first2)));
        }
    }
}

/// A page allocator whose first region is untouched, starts on a chunk
/// boundary and has at least 512 pages has a free run at the start of
/// that region.
pub proof fn lemma_fresh_region_has_free_run(pages: &PageAlloc)
    requires
        pages.wf(),
        pages.regions().len() > 0,
        pages.regions()[0].tree().live_pages() == 0,
        pages.regions()[0].base_page() % 512 == 0,
        pages.regions()[0].num_pages() >= 512,
    ensures
        has_free_run(pages, 0, pages.regions()[0].base_page() as int),
{
    let region = pages.regions()[0];
    assert(region.wf());
    region.tree().lemma_allocated_finite();
    region.tree().allocated().lemma_len0_is_empty();
    assert forall|q: nat| q < region.tree().capacity() implies !region.tree().is_allocated(q) by {
        assert(!region.tree().allocated().contains(q as int));
    }
}

/// While the pages of a free run are allocated one by one, the page
/// allocator has a free page, and the page that it hands out next is the
/// next page of the run.
proof fn lemma_run_goes_on(
    pre: &PageAlloc,
    cur: &PageAlloc,
    idx: int,
    first: int,
    owners: Seq<usize>,
)
    requires
        pre.wf(),
        cur.wf(),
        has_free_run(pre, idx, first),
        owners.len() < CHUNK_PAGES,
        forall|k: int| 0 <= k < owners.len() ==> #[trigger] owners[k] == idx,
        extended_by(pre, cur, run(owners, first)),
    ensures
        !cur.regions()[idx].exhausted(),
        forall|post: PageAlloc, i: int, page: nat| #[trigger]
            cur.hands_out_from(&post, i, page) ==> i == idx && page == first + owners.len(),
{
    let taken = run(owners, first);
    let n = owners.len() as int;
    let base = pre.regions()[idx].base_page() as int;
    let next = (first - base + n) as nat;
    assert(region_extended(&pre.regions()[idx], &cur.regions()[idx], idx, taken));
    assert(pre.regions()[idx].wf());
    assert(cur.regions()[idx].wf());
    // The next page of the run is free.
    assert(!cur.regions()[idx].tree().is_allocated(next)) by {
        assert(!pre.regions()[idx].tree().is_allocated(next));
        if taken.contains((idx, (base + next) as int)) {
            let k = taken.index_of((idx, (base + next) as int));
            assert(taken[k] == (idx, first + k));
        }
    }
    // Every page of the region below it is allocated.
    assert forall|q: nat| q < next implies cur.regions()[idx].tree().is_allocated(q) by {
        if q >= first - base {
            let k = q - (first - base);
            assert(taken[k] == (idx, first + k));
            assert(taken.contains((idx, (base + q) as int)));
        } else {
            assert(pre.regions()[idx].tree().is_allocated(q));
        }
    }
    assert forall|post: PageAlloc, i: int, page: nat| #[trigger]
        cur.hands_out_from(&post, i, page) implies i == idx && page == first + n by {
        if i < idx {
            // An earlier region has no free page.
            assert(region_extended(&pre.regions()[i], &cur.regions()[i], i, taken));
            assert(pre.regions()[i].exhausted());
            assert(pre.regions()[i].wf());
            let off = (page - cur.regions()[i].base_page()) as nat;
            assert(pre.regions()[i].tree().is_allocated(off));
            assert(cur.regions()[i].tree().is_allocated(off));
        } else if i > idx {
            assert(cur.regions()[idx].exhausted());
        } else {
            let off = (page - base) as nat;
            if off < next {
                assert(cur.regions()[idx].tree().is_allocated(off));
            } else if off > next {
                assert(cur.regions()[idx].tree().is_allocated(next));
            }
        }
    }
}

/// Obtains the pages of a chunk from the page allocator: `CHUNK_PAGES`
/// pages in a row, the first on a chunk boundary. Returns `None`, and
/// leaves no page allocated that was not, if the page allocator runs out
/// or hands out a page that does not continue the row.
///
/// The pages are obtained wherever the lowest free page of the first
/// region that has a free page lies on a chunk boundary and is followed,
/// within the region, by 511 free pages.
#[verifier::rlimit(30)]
pub fn acquire_chunk(pages: &mut PageAlloc) -> (r: Option<ChunkPages>)
    requires
        old(pages).wf(),
    ensures
        final(pages).wf(),
        match r {
            Some(chunk) => {
                &&& chunk.first % CHUNK_PAGES == 0
                &&& chunk.owners@.len() == CHUNK_PAGES
                &&& chunk.first + CHUNK_PAGES <= usize::MAX
                &&& extended_by(old(pages), final(pages), run(chunk.owners@, chunk.first as int))
            },
            None => same_pages(old(pages), final(pages)),
        },
        forall|idx: int, first: int| #[trigger]
            has_free_run(old(pages), idx, first) ==> r.is_some() && r.unwrap().first == first,
{
    let ghost pre = *pages;
    let ghost promised = exists|idx: int, first: int| #[trigger] has_free_run(&pre, idx, first);
    let ghost (run_idx, run_first) = choose|idx: int, first: int| #[trigger]
        has_free_run(&pre, idx, first);
    let mut owners: Vec<usize> = Vec::new();
    let mut first: PageNum = 0;
    proof {
        assert(run(owners@, first as int) =~= Seq::<(int, int)>::empty());
        lemma_same_pages(&pre);
        assert forall|idx: int, first: int| #[trigger]
            has_free_run(&pre, idx, first) implies idx == run_idx && first == run_first by {
            lemma_free_run_unique(&pre, idx, first, run_idx, run_first);
        }
    }
    while owners.len() < CHUNK_PAGES
        invariant
            owners@.len() <= CHUNK_PAGES,
            pre == *old(pages),
            pre.wf(),
            pages.wf(),
            owners@.len() > 0 ==> first % CHUNK_PAGES == 0,
            first + owners@.len() <= usize::MAX,
            extended_by(&pre, pages, run(owners@, first as int)),
            promised ==> has_free_run(&pre, run_idx, run_first),
            promised && owners@.len() > 0 ==> first == run_first,
            promised ==> forall|k: int| 0 <= k < owners@.len() ==> #[trigger] owners@[k] == run_idx,
            forall|idx: int, first: int| #[trigger]
                has_free_run(&pre, idx, first) ==> promised && idx == run_idx && first
                    == run_first,
        decreases CHUNK_PAGES - owners@.len(),
    {
        let ghost mid = *pages;
        let ghost taken = run(owners@, first as int);
        proof {
            if promised {
                if owners@.len() == 0 {
                    assert(taken =~= run(owners@, run_first));
                }
                lemma_run_goes_on(&pre, &mid, run_idx, run_first, owners@);
            }
        }
        match pages.allocate_from() {
            Some((idx, page)) => {
                proof {
                    if promised {
                        assert(mid.hands_out_from(pages, idx as int, page as nat));
                        assert(idx == run_idx && page == run_first + owners@.len());
                    }
                    lemma_extend(&pre, &mid, pages, taken, idx as int, page as int);
                    assert(taken.push((idx as int, page as int))[taken.len() as int] == (
                        idx as int,
                        page as int,
                    ));
                }
                let in_row = if owners.len() == 0 {
                    page % CHUNK_PAGES == 0
                } else {
                    page >= first && page - first == owners.len()
                };
                if owners.len() == 0 {
                    first = page;
                }
                if !in_row {
                    // This page does not continue the row: give it back,
                    // and with it the pages of the row
                    let ghost with_page = *pages;
                    proof {
                        assert(mid.regions()[idx as int].wf());
                    }
                    pages.free_in(idx, page);
                    proof {
                        lemma_shrink(&pre, &with_page, pages, taken.push((idx as int, page as int)));
                        assert(taken.push((idx as int, page as int)).drop_last() =~= taken);
                        if owners@.len() == 0 {
                            assert(taken =~= run(owners@, first as int));
                        }
                    }
                    release_run(pages, first, &owners, Ghost(pre));
                    return None;
                }
                owners.push(idx);
                proof {
                    assert(run(owners@, first as int) =~= taken.push((idx as int, page as int)))
                        by {
                        if owners@.len() == 1 {
                            assert(taken.len() == 0);
                        }
                    }
                    assert(mid.regions()[idx as int].wf());
                }
            },
            None => {
                proof {
                    if promised {
                        assert(mid.regions()[run_idx].exhausted());
                    }
                }
                release_run(pages, first, &owners, Ghost(pre));
                return None;
            },
        }
    }
    Some(ChunkPages { first, owners })
}

/// A page allocator has in each region the pages allocated that it has.
pub proof fn lemma_same_pages(pages: &PageAlloc)
    requires
        pages.wf(),
    ensures
        same_pages(pages, pages),
{
    let none = Seq::<(int, int)>::empty();
    assert forall|i: int| 0 <= i < pages.regions().len() implies region_extended(
        &pages.regions()[i],
        &(#[trigger] pages.regions()[i]),
        i,
        none,
    ) by {}
}

/// `post` is `pre` with the pages of one chunk allocated, whose address
/// in the direct map at `hhdm_offset` is `base`.
pub open spec fn chunk_taken(pre: &PageAlloc, post: &PageAlloc, base: int, hhdm_offset: int) -> bool {
    exists|owners: Seq<usize>, first: int| #[trigger]
        extended_by(pre, post, run(owners, first)) && owners.len() == CHUNK_PAGES && first
            % (CHUNK_PAGES as int) == 0 && base == first * 4096 + hhdm_offset
}

/// Whether the chunk whose first page is `first` can be linked to the heap
/// at its address in the direct map at `hhdm_offset`: the address is
/// within the address space, lies on a chunk boundary, and is not the
/// address of a chunk of the heap.
pub open spec fn can_link(heap: &Heap, first: int, hhdm_offset: int) -> bool {
    &&& first * 4096 + hhdm_offset + CHUNK_SIZE <= usize::MAX
    &&& (first * 4096 + hhdm_offset) % (CHUNK_ALIGN as int) == 0
    &&& !heap.chunks().has_chunk(first * 4096 + hhdm_offset)
}

impl Heap {
    /// Grows the heap by one chunk: obtains the pages of a chunk from the
    /// page allocator and links the chunk, at its address in the direct
    /// map at `hhdm_offset`, to the end of the chunk list. Returns whether
    /// the heap has grown; if not, no page is left allocated that was not.
    ///
    /// The heap grows wherever the page allocator has a free run of pages
    /// for a chunk that can be linked.
    #[verifier::rlimit(30)]
    pub fn grow(&mut self, pages: &mut PageAlloc, hhdm_offset: usize) -> (grown: bool)
        requires
            old(self).wf(),
            old(pages).wf(),
        ensures
            final(self).wf(),
            final(pages).wf(),
            final(self).pool() == old(self).pool(),
            final(self).chunks().allocated() == old(self).chunks().allocated(),
            grown ==> {
                &&& final(self).chunks().chunks().len() == old(self).chunks().chunks().len() + 1
                &&& final(self).chunks().chunks().last().occupied_count() == 0
                &&& !old(self).chunks().has_chunk(final(self).chunks().chunks().last().base())
                &&& chunk_taken(
                    old(pages),
                    final(pages),
                    final(self).chunks().chunks().last().base(),
                    hhdm_offset as int,
                )
            },
            !grown ==> {
                &&& final(self).chunks().chunks() == old(self).chunks().chunks()
                &&& same_pages(old(pages), final(pages))
            },
            forall|idx: int, first: int| #[trigger]
                has_free_run(old(pages), idx, first) && can_link(
                    old(self),
                    first,
                    hhdm_offset as int,
                ) ==> grown,
    {
        let ghost pre = *pages;
        let chunk = match acquire_chunk(pages) {
            Some(chunk) => chunk,
            None => {
                return false;
            },
        };
        // Address of the chunk in the direct map
        let base = match chunk.first.checked_mul(PAGE_SIZE) {
            Some(phys) => phys.checked_add(hhdm_offset),
            None => None,
        };
        let base = match base {
            Some(base) => {
                if base % CHUNK_ALIGN != 0 || base > usize::MAX - CHUNK_SIZE || self.has_chunk(
                    base,
                ) {
                    None
                } else {
                    Some(base)
                }
            },
            None => None,
        };
        match base {
            Some(base) => {
                self.add_chunk(base, (usize::MAX - base) / CHUNK_SIZE - 1);
                proof {
                    assert(extended_by(&pre, pages, run(chunk.owners@, chunk.first as int)));
                }
                true
            },
            None => {
                // The chunk cannot be linked: give its pages back
                release_run(pages, chunk.first, &chunk.owners, Ghost(pre));
                false
            },
        }
    }

    /// Hands out a slot, as `alloc_slot` does, and grows the heap by a
    /// chunk from the page allocator if no chunk has a free slot. Returns
    /// `None` if no chunk has a free slot and the heap cannot grow.
    pub fn alloc_slot_or_grow(&mut self, pages: &mut PageAlloc, hhdm_offset: usize) -> (r: Option<
        usize,
    >)
        requires
            old(self).wf(),
            old(pages).wf(),
        ensures
            final(self).wf(),
            final(pages).wf(),
            final(self).pool() == old(self).pool(),
            match r {
                Some(ptr) => {
                    &&& !old(self).chunks().allocated().contains(ptr)
                    &&& final(self).owns_slot(ptr)
                    &&& final(self).chunks().allocated() == old(self).chunks().allocated().insert(
                        ptr,
                    )
                    &&& final(self).chunks().metadata_of(ptr) == 0
                },
                None => {
                    &&& old(self).chunks().is_exhausted()
                    &&& final(self).chunks().chunks() == old(self).chunks().chunks()
                    &&& same_pages(old(pages), final(pages))
                },
            },
            forall|idx: int, first: int| #[trigger]
                has_free_run(old(pages), idx, first) && can_link(
                    old(self),
                    first,
                    hhdm_offset as int,
                ) ==> r.is_some(),
    {
        let ghost pre = *self;
        match self.alloc_slot() {
            Some(ptr) => {
                proof {
                    lemma_same_pages(pages);
                    assert(!pre.chunks().allocated().contains(ptr));
                }
                Some(ptr)
            },
            None => {
                if self.grow(pages, hhdm_offset) {
                    let ghost mid = *self;
                    let r = self.alloc_slot();
                    proof {
                        // The chunk that was linked has a free slot.
                        let last = mid.chunks().chunks().len() - 1;
                        if r.is_none() {
                            assert(mid.chunks().chunks()[last].is_full());
                            assert(mid.chunks().chunks()[last].wf());
                            mid.chunks().chunks()[last].lemma_full_count();
                        }
                        let ptr = r.unwrap();
                        assert(!mid.chunks().allocated().contains(ptr));
                        assert(!pre.chunks().allocated().contains(ptr));
                    }
                    r
                } else {
                    None
                }
            },
        }
    }

    /// Allocates an object of 256 bytes from the pool, as `alloc_object`
    /// does, and grows the heap by a chunk from the page allocator if the
    /// pool needs a slot and no chunk has one. Returns `None` if the pool
    /// needs a slot, no chunk has one, and the heap cannot grow.
    pub fn alloc_object_or_grow(&mut self, pages: &mut PageAlloc, hhdm_offset: usize) -> (r:
        Option<usize>)
        requires
            old(self).wf(),
            old(pages).wf(),
        ensures
            final(self).wf(),
            final(pages).wf(),
            match r {
                Some(obj) => {
                    &&& !old(self).pool().is_live(obj as int)
                    &&& final(self).pool().live() == old(self).pool().live().insert(obj as int)
                    &&& final(self).pool().live_objects() == old(self).pool().live_objects() + 1
                },
                None => {
                    &&& old(self).pool().free_list().len() == 0
                    &&& old(self).chunks().is_exhausted()
                    &&& final(self).pool().live() == old(self).pool().live()
                    &&& same_pages(old(pages), final(pages))
                },
            },
            forall|idx: int, first: int| #[trigger]
                has_free_run(old(pages), idx, first) && can_link(
                    old(self),
                    first,
                    hhdm_offset as int,
                ) ==> r.is_some(),
    {
        match self.alloc_object() {
            Some(obj) => Some(obj),
            None => {
                if self.grow(pages, hhdm_offset) {
                    let ghost mid = *self;
                    let r = self.alloc_object();
                    proof {
                        // The chunk that was linked has a free slot.
                        let last = mid.chunks().chunks().len() - 1;
                        if r.is_none() {
                            assert(mid.chunks().chunks()[last].is_full());
                            assert(mid.chunks().chunks()[last].wf());
                            mid.chunks().chunks()[last].lemma_full_count();
                        }
                    }
                    r
                } else {
                    None
                }
            },
        }
    }
}

} // verus!
