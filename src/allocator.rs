use vstd::prelude::*;
use crate::memory::{FrameAllocator, PAGE_SIZE};
use crate::paging::{
    leaf_entry_at, leaf_flags_ok, map_result, missing_at, parent_walk, table_index, MapToError, MapperFlush, PageMapper,
    ParentWalk, PhysMemory, PRESENT, WRITABLE,
};

verus! {

/// Virtual address where the heap window starts.
pub const HEAP_START: u64 = 0x4242_4242_0000;

/// Size of the heap window in bytes.
pub const HEAP_SIZE: u64 = 1024 * 1024;

/// Virtual addresses below this bound are canonical with bit 47 clear.
pub const LOWER_HALF_END: u64 = 0x8000_0000_0000;

/// Relies on x86_64's `Page::containing_address`: the start of the 4KiB page
/// that holds `addr` (`VirtAddr::new` accepts it, since bits 47 to 63 are clear).
#[verifier::external_body]
fn page_containing(addr: u64) -> (r: u64)
    requires
        addr < LOWER_HALF_END,
    ensures
        r == addr - addr % 4096,
{
    x86_64::structures::paging::Page::<x86_64::structures::paging::Size4KiB>::containing_address(
        x86_64::VirtAddr::new(addr),
    ).start_address().as_u64()
}

/// Whether `a` lies in the heap window.
pub open spec fn in_heap(a: u64) -> bool {
    HEAP_START <= a < HEAP_START + HEAP_SIZE
}

/// Pages in the heap window.
pub const HEAP_PAGES: u64 = 256;

/// Start of page `k` of the heap window.
pub open spec fn heap_page(k: int) -> u64 {
    (HEAP_START + k * PAGE_SIZE) as u64
}

/// The pages of the heap window differ only in their level-1 index, which
/// runs up from 32.
proof fn lemma_heap_page_indices(k: int)
    requires
        0 <= k < HEAP_PAGES,
    ensures
        table_index(heap_page(k), 4) == table_index(HEAP_START, 4),
        table_index(heap_page(k), 3) == table_index(HEAP_START, 3),
        table_index(heap_page(k), 2) == table_index(HEAP_START, 2),
        table_index(heap_page(k), 1) == 32 + k,
{
    assert(heap_page(k) == 0x4242_4242_0000 + k * 4096);
    assert((0x4242_4242_0000 + k * 4096) / 4096 == 0x4_2424_2420 + k) by (nonlinear_arith)
        requires
            0 <= k < 256,
    ;
}

/// Walks that use the same indices above level 1 end alike.
proof fn lemma_parent_walk_same_upper(mem: PhysMemory, t: u64, a: u64, b: u64, level: nat)
    requires
        1 <= level <= 4,
        forall|l: nat| 2 <= l <= level ==> table_index(a, l) == table_index(b, l),
    ensures
        parent_walk(mem, t, a, level) == parent_walk(mem, t, b, level),
    decreases level,
{
    if level > 1 {
        assert(table_index(a, level) == table_index(b, level));
        let e = mem.entry(t, table_index(a, level));
        lemma_parent_walk_same_upper(mem, crate::paging::entry_addr(e), a, b, (level - 1) as nat);
    }
}

/// Frames that backing the heap window takes, or `None` where it cannot be
/// done: a huge page lies above the window, or a page of it is mapped already.
pub open spec fn heap_frames_needed(mem: PhysMemory, root: u64) -> Option<nat> {
    match parent_walk(mem, root, HEAP_START, 4) {
        ParentWalk::Huge => None,
        ParentWalk::Missing(n) => Some((n + HEAP_PAGES) as nat),
        ParentWalk::Leaf(t) => if forall|k: int|
            0 <= k < HEAP_PAGES ==> mem.entry(t, #[trigger] table_index(heap_page(k), 1)) == 0 {
            Some(HEAP_PAGES as nat)
        } else {
            None
        },
    }
}

/// Whether `avail` frames suffice to back the heap window.
pub open spec fn heap_can_be_backed(mem: PhysMemory, root: u64, avail: nat) -> bool {
    match heap_frames_needed(mem, root) {
        Some(n) => n <= avail,
        None => false,
    }
}

/// Page `k` of the window is mapped, present and writable, to a frame that
/// came from `frames`.
pub open spec fn heap_page_backed(m: PageMapper, frames: Seq<u64>, k: int) -> bool {
    &&& m.translation_of(heap_page(k)) is Some
    &&& frames.contains(m.translation_of(heap_page(k))->Some_0)
    &&& leaf_entry_at(m.memory(), m.root(), heap_page(k), 4, table_index(heap_page(k), 1))
        == m.translation_of(heap_page(k))->Some_0 | (PRESENT | WRITABLE)
}

/// Backing the window stopped at page `k` with `e`: the pages before `k`
/// are backed by frames from `frames`, each page from `k` on has the
/// level-1 entry it had before the call, and `e` tells why page `k` could
/// not be mapped: the frame source ran dry, a huge page lies above the
/// window, or page `k` was mapped before the call.
pub open spec fn heap_failed_at(
    before: PageMapper,
    after: PageMapper,
    frames: Seq<u64>,
    pending_after: Seq<u64>,
    k: int,
    e: MapToError,
) -> bool {
    &&& forall|j: int| 0 <= j < k ==> #[trigger] heap_page_backed(after, frames, j)
    &&& forall|j: int|
        k <= j < HEAP_PAGES ==> #[trigger] leaf_entry_at(
            after.memory(),
            after.root(),
            heap_page(j),
            4,
            table_index(heap_page(j), 1),
        ) == leaf_entry_at(before.memory(), before.root(), heap_page(j), 4, table_index(heap_page(j), 1))
    &&& match e {
        MapToError::FrameAllocationFailed => pending_after.len() == 0,
        MapToError::ParentEntryHugePage => k == 0 && parent_walk(
            before.memory(),
            before.root(),
            HEAP_START,
            4,
        ) is Huge,
        MapToError::PageAlreadyMapped(_) => leaf_entry_at(
            before.memory(),
            before.root(),
            HEAP_START,
            4,
            table_index(heap_page(k), 1),
        ) != 0,
    }
}

/// Pages of the window that the mapper backs: the facts kept while the
/// window is filled, read page by page.
proof fn lemma_backed_pages(m: PageMapper, m0: PageMapper, frames: Seq<u64>, pos: Seq<int>, k: int)
    requires
        0 <= k <= HEAP_PAGES,
        pos.len() == k,
        m.root() == m0.root(),
        forall|j: int| 0 <= j < pos.len() ==> 0 <= #[trigger] pos[j] < frames.len(),
        forall|j: int|
            0 <= j < pos.len() ==> #[trigger] m.translation_of(heap_page(j)) == Some(frames[pos[j]]),
        forall|j: int|
            0 <= j < pos.len() ==> #[trigger] leaf_entry_at(
                m.memory(),
                m.root(),
                HEAP_START,
                4,
                table_index(heap_page(j), 1),
            ) == frames[pos[j]] | 0x3u64,
        forall|j: int|
            pos.len() <= j < HEAP_PAGES ==> #[trigger] leaf_entry_at(
                m.memory(),
                m.root(),
                HEAP_START,
                4,
                table_index(heap_page(j), 1),
            ) == leaf_entry_at(m0.memory(), m0.root(), HEAP_START, 4, table_index(heap_page(j), 1)),
    ensures
        forall|j: int| 0 <= j < k ==> #[trigger] heap_page_backed(m, frames, j),
        forall|j: int|
            k <= j < HEAP_PAGES ==> #[trigger] leaf_entry_at(
                m.memory(),
                m.root(),
                heap_page(j),
                4,
                table_index(heap_page(j), 1),
            ) == leaf_entry_at(m0.memory(), m0.root(), heap_page(j), 4, table_index(heap_page(j), 1)),
{
    assert(PRESENT | WRITABLE == 0x3u64) by (bit_vector)
        requires
            PRESENT == 1,
            WRITABLE == 2,
    ;
    assert forall|j: int| 0 <= j < k implies #[trigger] heap_page_backed(m, frames, j) by {
        lemma_heap_page_indices(j);
        lemma_parent_walk_same_upper(m.memory(), m.root(), heap_page(j), HEAP_START, 4);
        let ij = table_index(heap_page(j), 1);
        assert(leaf_entry_at(m.memory(), m.root(), heap_page(j), 4, ij) == leaf_entry_at(
            m.memory(),
            m.root(),
            HEAP_START,
            4,
            ij,
        ));
        assert(m.translation_of(heap_page(j)) == Some(frames[pos[j]]));
        assert(frames.contains(frames[pos[j]]));
    }
    assert forall|j: int| k <= j < HEAP_PAGES implies #[trigger] leaf_entry_at(
        m.memory(),
        m.root(),
        heap_page(j),
        4,
        table_index(heap_page(j), 1),
    ) == leaf_entry_at(m0.memory(), m0.root(), heap_page(j), 4, table_index(heap_page(j), 1)) by {
        lemma_heap_page_indices(j);
        lemma_parent_walk_same_upper(m.memory(), m.root(), heap_page(j), HEAP_START, 4);
        lemma_parent_walk_same_upper(m0.memory(), m0.root(), heap_page(j), HEAP_START, 4);
        let ij = table_index(heap_page(j), 1);
        assert(leaf_entry_at(m.memory(), m.root(), heap_page(j), 4, ij) == leaf_entry_at(
            m.memory(),
            m.root(),
            HEAP_START,
            4,
            ij,
        ));
        assert(leaf_entry_at(m0.memory(), m0.root(), heap_page(j), 4, ij) == leaf_entry_at(
            m0.memory(),
            m0.root(),
            HEAP_START,
            4,
            ij,
        ));
    }
}

/// The pages of the window from `k` on can all be mapped with `avail`
/// frames: no huge page lies above the window, enough frames are left for
/// the missing tables and the pages, and none of those pages is mapped.
spec fn heap_ready(mem: PhysMemory, root: u64, k: int, avail: nat) -> bool {
    let w = parent_walk(mem, root, HEAP_START, 4);
    &&& !(w is Huge)
    &&& missing_at(mem, root, HEAP_START, 4) + (HEAP_PAGES - k) <= avail
    &&& w matches ParentWalk::Leaf(t) ==> forall|k2: int|
        k <= k2 < HEAP_PAGES ==> mem.entry(t, #[trigger] table_index(heap_page(k2), 1)) == 0
}

/// Back every page of the heap window with a fresh frame, present and
/// writable. On success the pages whose translations must be flushed are
/// returned, lowest first; the first failure ends the work and is returned,
/// and the pages mapped before it stay mapped.
pub fn init_heap<A: FrameAllocator>(mapper: &mut PageMapper, frame_allocator: &mut A) -> (r: Result<
    Vec<MapperFlush>,
    MapToError,
>)
    requires
        old(mapper).wf(),
        old(mapper).frames_fresh(old(frame_allocator).pending()),
    ensures
        final(mapper).wf(),
        final(mapper).root() == old(mapper).root(),
        final(mapper).frames_fresh(final(frame_allocator).pending()),
        forall|a: u64| #[trigger]
            old(mapper).translation_of(a) is Some ==> final(mapper).translation_of(a) == old(
                mapper,
            ).translation_of(a),
        r is Ok <==> heap_can_be_backed(
            old(mapper).memory(),
            old(mapper).root(),
            old(frame_allocator).pending().len(),
        ),
        r matches Ok(flushes) ==> {
            &&& flushes@.len() == HEAP_SIZE / PAGE_SIZE
            &&& forall|k: int|
                0 <= k < flushes@.len() ==> (#[trigger] flushes@[k]).page == HEAP_START + k
                    * PAGE_SIZE
            &&& forall|a: u64| in_heap(a) ==> (#[trigger] final(mapper).translation_of(a)) is Some
            &&& final(frame_allocator).pending() == old(frame_allocator).pending().subrange(
                HEAP_PAGES + missing_at(old(mapper).memory(), old(mapper).root(), HEAP_START, 4),
                old(frame_allocator).pending().len() as int,
            )
            &&& forall|k: int|
                0 <= k < HEAP_PAGES ==> heap_page_backed(
                    *final(mapper),
                    old(frame_allocator).pending(),
                    k,
                )
            &&& forall|k1: int, k2: int|
                0 <= k1 < k2 < HEAP_PAGES ==> #[trigger] final(mapper).translation_of(heap_page(k1))
                    != #[trigger] final(mapper).translation_of(heap_page(k2))
        },
        r matches Err(e) ==> exists|k: int|
            0 <= k < HEAP_PAGES && #[trigger] heap_failed_at(
                *old(mapper),
                *final(mapper),
                old(frame_allocator).pending(),
                final(frame_allocator).pending(),
                k,
                e,
            ),
{
    let start_page = page_containing(HEAP_START);
    let end_page = page_containing(HEAP_START + HEAP_SIZE - 1);
    assert(end_page == HEAP_START + HEAP_SIZE - PAGE_SIZE);
    let flags = WRITABLE | PRESENT;
    assert(flags == 0x3u64) by (bit_vector)
        requires
            flags == 0x2u64 | 0x1u64,
    ;
    assert(leaf_flags_ok(0x3u64)) by (bit_vector);
    assert(leaf_flags_ok(flags));
    let ghost m0 = *mapper;
    let ghost pend0 = frame_allocator.pending();
    let ghost owed = heap_can_be_backed(m0.memory(), m0.root(), frame_allocator.pending().len());
    let ghost root = m0.root();
    let ghost mut consumed: int = 0;
    let ghost mut pos: Seq<int> = Seq::empty();
    proof {
        let w = parent_walk(m0.memory(), m0.root(), HEAP_START, 4);
        if w is Leaf {
            let t = w->Leaf_0;
            if heap_ready(m0.memory(), m0.root(), 0, frame_allocator.pending().len()) {
                assert forall|k: int| 0 <= k < HEAP_PAGES implies m0.memory().entry(
                    t,
                    #[trigger] table_index(heap_page(k), 1),
                ) == 0 by {}
            }
        }
        assert(pend0.subrange(0, pend0.len() as int) =~= pend0);
    }
    let mut flushes: Vec<MapperFlush> = Vec::new();
    let mut page = start_page;
    while page <= end_page
        invariant
            mapper.wf(),
            mapper.root() == root,
            mapper.frames_fresh(frame_allocator.pending()),
            m0 == *old(mapper),
            m0.wf(),
            root == m0.root(),
            pend0 == old(frame_allocator).pending(),
            m0.frames_fresh(pend0),
            leaf_flags_ok(flags),
            flags == 0x3u64,
            start_page == HEAP_START,
            end_page == HEAP_START + HEAP_SIZE - PAGE_SIZE,
            HEAP_START <= page <= end_page + PAGE_SIZE,
            page % PAGE_SIZE == 0,
            flushes@.len() * PAGE_SIZE == page - HEAP_START,
            forall|k: int|
                0 <= k < flushes@.len() ==> (#[trigger] flushes@[k]).page == HEAP_START + k
                    * PAGE_SIZE,
            forall|a: u64| HEAP_START <= a < page ==> (#[trigger] mapper.translation_of(a)) is Some,
            forall|a: u64| #[trigger]
                m0.translation_of(a) is Some ==> mapper.translation_of(a) == m0.translation_of(
                    a,
                ),
            owed == heap_can_be_backed(
                old(mapper).memory(),
                old(mapper).root(),
                old(frame_allocator).pending().len(),
            ),
            page == heap_page(flushes@.len() as int),
            owed == heap_ready(
                mapper.memory(),
                mapper.root(),
                flushes@.len() as int,
                frame_allocator.pending().len(),
            ),
            flushes@.len() > 0 ==> parent_walk(mapper.memory(), mapper.root(), HEAP_START, 4) is Leaf,
            flushes@.len() == 0 ==> *mapper == m0 && consumed == 0,
            flushes@.len() > 0 ==> consumed == flushes@.len() + missing_at(m0.memory(), root, HEAP_START, 4),
            0 <= consumed <= pend0.len(),
            frame_allocator.pending() == pend0.subrange(consumed, pend0.len() as int),
            pos.len() == flushes@.len(),
            forall|j: int| 0 <= j < pos.len() ==> 0 <= #[trigger] pos[j] < consumed,
            forall|j1: int, j2: int| 0 <= j1 < j2 < pos.len() ==> #[trigger] pos[j1] < #[trigger] pos[j2],
            forall|j: int|
                0 <= j < pos.len() ==> #[trigger] mapper.translation_of(heap_page(j)) == Some(
                    pend0[pos[j]],
                ),
            forall|j: int|
                0 <= j < pos.len() ==> #[trigger] leaf_entry_at(
                    mapper.memory(),
                    root,
                    HEAP_START,
                    4,
                    table_index(heap_page(j), 1),
                ) == pend0[pos[j]] | 0x3u64,
            forall|j: int|
                pos.len() <= j < HEAP_PAGES ==> #[trigger] leaf_entry_at(
                    mapper.memory(),
                    root,
                    HEAP_START,
                    4,
                    table_index(heap_page(j), 1),
                ) == leaf_entry_at(m0.memory(), root, HEAP_START, 4, table_index(heap_page(j), 1)),
        decreases end_page + PAGE_SIZE - page,
    {
        let ghost k = flushes@.len() as int;
        proof {
            assert(k < HEAP_PAGES) by (nonlinear_arith)
                requires
                    k * 4096 == page - HEAP_START,
                    page <= HEAP_START + HEAP_SIZE - 4096,
                    HEAP_SIZE == 1048576,
            ;
            lemma_heap_page_indices(k);
            lemma_parent_walk_same_upper(mapper.memory(), mapper.root(), page, HEAP_START, 4);
        }
        let frame = match frame_allocator.allocate_frame() {
            Some(f) => f,
            None => {
                proof {
                    lemma_backed_pages(*mapper, m0, pend0, pos, k);
                    assert(heap_failed_at(m0, *mapper, pend0, frame_allocator.pending(), k, MapToError::FrameAllocationFailed));
                }
                return Err(MapToError::FrameAllocationFailed);
            },
        };
        let ghost before = *mapper;
        let ghost pend = frame_allocator.pending();
        proof {
            assert(frame == pend0[consumed]);
            assert(pend =~= pend0.subrange(consumed + 1, pend0.len() as int));
            let np = frame_allocator.pending();
            assert forall|i: int, j: int| 0 <= i < j < np.len() implies np[i] != np[j] by {}
            if owed {
                let w = parent_walk(mapper.memory(), mapper.root(), HEAP_START, 4);
                if w is Leaf {
                    assert(mapper.memory().entry(w->Leaf_0, table_index(heap_page(k), 1)) == 0);
                }
                assert(map_result(mapper.memory(), mapper.root(), page, frame, pend.len()) is Ok);
            }
        }
        match mapper.map_to(page, frame, flags, frame_allocator) {
            Ok(flush) => {
                flushes.push(flush);
            },
            Err(e) => {
                proof {
                    lemma_parent_walk_same_upper(before.memory(), root, page, HEAP_START, 4);
                    lemma_parent_walk_same_upper(mapper.memory(), root, page, HEAP_START, 4);
                    assert forall|j: int| 0 <= j < k implies #[trigger] mapper.translation_of(heap_page(j)) == Some(pend0[pos[j]]) by {
                        assert(before.translation_of(heap_page(j)) == Some(pend0[pos[j]]));
                    }
                    assert forall|j: int| 0 <= j < HEAP_PAGES implies #[trigger] leaf_entry_at(
                        mapper.memory(),
                        root,
                        HEAP_START,
                        4,
                        table_index(heap_page(j), 1),
                    ) == leaf_entry_at(before.memory(), root, HEAP_START, 4, table_index(heap_page(j), 1)) by {
                        let ij = table_index(heap_page(j), 1);
                        assert(leaf_entry_at(mapper.memory(), root, page, 4, ij) == leaf_entry_at(before.memory(), root, page, 4, ij));
                    }
                    lemma_backed_pages(*mapper, m0, pend0, pos, k);
                    if e is PageAlreadyMapped {
                        assert(leaf_entry_at(before.memory(), root, HEAP_START, 4, table_index(heap_page(k), 1)) != 0);
                    }
                    assert(heap_failed_at(m0, *mapper, pend0, frame_allocator.pending(), k, e));
                }
                return Err(e);
            },
        }
        proof {
            let w0 = parent_walk(before.memory(), before.root(), HEAP_START, 4);
            let w = parent_walk(mapper.memory(), mapper.root(), HEAP_START, 4);
            lemma_parent_walk_same_upper(mapper.memory(), mapper.root(), page, HEAP_START, 4);
            lemma_parent_walk_same_upper(before.memory(), root, page, HEAP_START, 4);
            let t = w->Leaf_0;
            assert(map_result(before.memory(), before.root(), page, frame, pend.len()) is Ok);
            assert forall|k2: int| k + 1 <= k2 < HEAP_PAGES implies mapper.memory().entry(
                t,
                #[trigger] table_index(heap_page(k2), 1),
            ) == (match w0 {
                ParentWalk::Leaf(t0) => before.memory().entry(t0, table_index(heap_page(k2), 1)),
                _ => 0,
            }) by {
                lemma_heap_page_indices(k2);
                let j = table_index(heap_page(k2), 1);
                assert(leaf_entry_at(mapper.memory(), mapper.root(), page, 4, j)
                    == leaf_entry_at(before.memory(), before.root(), page, 4, j));
            }
            let now = heap_ready(mapper.memory(), mapper.root(), k + 1, frame_allocator.pending().len());
            let then = heap_ready(before.memory(), before.root(), k, pend.len() + 1);
            if now {
                if w0 is Leaf {
                    assert forall|k2: int| k <= k2 < HEAP_PAGES implies before.memory().entry(
                        w0->Leaf_0,
                        #[trigger] table_index(heap_page(k2), 1),
                    ) == 0 by {
                        if k2 > k {
                            assert(mapper.memory().entry(t, table_index(heap_page(k2), 1)) == 0);
                        }
                    }
                }
                assert(then);
            }
            if then {
                assert(now);
            }
            // frames taken by this page: its leaf frame, then the tables it created
            let miss = missing_at(before.memory(), root, page, 4);
            if k > 0 {
                assert(miss == 0);
            }
            let fp = frame_allocator.pending();
            assert(fp =~= pend0.subrange(consumed + 1 + miss, pend0.len() as int));
            assert((page + 0) as u64 == page);
            assert(mapper.translation_of((page + 0) as u64) == Some((frame + 0) as u64));
            let new_pos = pos.push(consumed);
            assert forall|j: int| 0 <= j < new_pos.len() implies #[trigger] leaf_entry_at(
                mapper.memory(),
                root,
                HEAP_START,
                4,
                table_index(heap_page(j), 1),
            ) == pend0[new_pos[j]] | 0x3u64 by {
                lemma_heap_page_indices(j);
                let ij = table_index(heap_page(j), 1);
                assert(leaf_entry_at(mapper.memory(), root, page, 4, ij) == leaf_entry_at(
                    mapper.memory(),
                    root,
                    HEAP_START,
                    4,
                    ij,
                ));
                assert(leaf_entry_at(before.memory(), root, page, 4, ij) == leaf_entry_at(
                    before.memory(),
                    root,
                    HEAP_START,
                    4,
                    ij,
                ));
                if j < k {
                    assert(new_pos[j] == pos[j]);
                    assert(leaf_entry_at(mapper.memory(), root, page, 4, ij)
                        == leaf_entry_at(before.memory(), root, page, 4, ij));
                } else {
                    assert(ij == table_index(page, 1));
                    assert(new_pos[j] == consumed);
                }
            }
            assert forall|j: int| new_pos.len() <= j < HEAP_PAGES implies #[trigger] leaf_entry_at(
                mapper.memory(),
                root,
                HEAP_START,
                4,
                table_index(heap_page(j), 1),
            ) == leaf_entry_at(m0.memory(), root, HEAP_START, 4, table_index(heap_page(j), 1)) by {
                lemma_heap_page_indices(j);
                let ij = table_index(heap_page(j), 1);
                assert(ij != table_index(page, 1));
                assert(leaf_entry_at(mapper.memory(), root, page, 4, ij)
                    == leaf_entry_at(before.memory(), root, page, 4, ij));
                assert(leaf_entry_at(mapper.memory(), root, page, 4, ij) == leaf_entry_at(
                    mapper.memory(),
                    root,
                    HEAP_START,
                    4,
                    ij,
                ));
                assert(leaf_entry_at(before.memory(), root, page, 4, ij) == leaf_entry_at(
                    before.memory(),
                    root,
                    HEAP_START,
                    4,
                    ij,
                ));
            }
            assert forall|j: int| 0 <= j < new_pos.len() implies #[trigger] mapper.translation_of(heap_page(j)) == Some(
                pend0[new_pos[j]],
            ) by {
                if j < k {
                    assert(new_pos[j] == pos[j]);
                    assert(before.translation_of(heap_page(j)) == Some(pend0[pos[j]]));
                }
            }
            consumed = consumed + 1 + miss;
            pos = new_pos;
        }
        proof {
            assert forall|a: u64| HEAP_START <= a < page + PAGE_SIZE implies (#[trigger] mapper.translation_of(a)) is Some by {
                if a >= page {
                    let off = (a - page) as u64;
                    assert(a == (page + off) as u64);
                    assert(mapper.translation_of((page + off) as u64) is Some);
                } else {
                    assert(before.translation_of(a) is Some);
                }
            }
            assert(flushes@.len() * PAGE_SIZE == page + PAGE_SIZE - HEAP_START) by (nonlinear_arith)
                requires
                    flushes@.len() == (flushes@.len() - 1) + 1,
                    (flushes@.len() - 1) * PAGE_SIZE == page - HEAP_START,
            ;
        }
        page = page + PAGE_SIZE;
    }
    assert(flushes@.len() == HEAP_SIZE / PAGE_SIZE) by (nonlinear_arith)
        requires
            flushes@.len() * 4096 == HEAP_SIZE,
            HEAP_SIZE == 1048576,
            PAGE_SIZE == 4096,
    ;
    proof {
        assert forall|k: int| 0 <= k < HEAP_PAGES implies heap_page_backed(*mapper, pend0, k) by {
            lemma_heap_page_indices(k);
            lemma_parent_walk_same_upper(mapper.memory(), root, heap_page(k), HEAP_START, 4);
            assert(mapper.translation_of(heap_page(k)) == Some(pend0[pos[k]]));
            assert(pend0.contains(pend0[pos[k]]));
            let ik = table_index(heap_page(k), 1);
            assert(leaf_entry_at(mapper.memory(), root, heap_page(k), 4, ik) == leaf_entry_at(
                mapper.memory(),
                root,
                HEAP_START,
                4,
                ik,
            ));
            assert(PRESENT | WRITABLE == 0x3u64) by (bit_vector)
                requires
                    PRESENT == 1,
                    WRITABLE == 2,
            ;
        }
        assert forall|k1: int, k2: int| 0 <= k1 < k2 < HEAP_PAGES implies #[trigger] mapper.translation_of(heap_page(k1))
            != #[trigger] mapper.translation_of(heap_page(k2)) by {
            assert(mapper.translation_of(heap_page(k1)) == Some(pend0[pos[k1]]));
            assert(mapper.translation_of(heap_page(k2)) == Some(pend0[pos[k2]]));
            assert(pos[k1] < pos[k2]);
        }
    }
    Ok(flushes)
}

/// Flags of the heap window's pages: present and writable.
pub const HEAP_PAGE_FLAGS: u64 = 0x3;

/// What the work of backing the heap window asks for next.
#[derive(Debug, Clone, Copy, PartialEq, Eq)]
pub enum HeapStep {
    /// Take a frame and map this page with `HEAP_PAGE_FLAGS`, then flush it.
    MapPage { page: u64 },
    /// Every page is mapped: hand the window to the allocator.
    InitAllocator { start: u64, size: u64 },
    /// Stop with this error; the pages mapped so far stay mapped.
    Fail(MapToError),
}

/// What happened since the last step.
#[derive(Debug, Clone, Copy, PartialEq, Eq)]
pub enum HeapEvent {
    /// Nothing yet: the work begins.
    Start,
    /// The page asked for is mapped and flushed.
    PageMapped,
    /// The frame source had no frame for the page.
    NoFrame,
    /// Mapping the page failed with this error.
    MapFailed(MapToError),
}

/// The next step of backing the heap window, after `mapped` pages are done
/// and `event` happened: pages go in address order, one frame each; the
/// first failure stops the work; the allocator is set up only after the
/// last page.
pub fn heap_init_step(mapped: u64, event: HeapEvent) -> (r: (u64, HeapStep))
    requires
        event == HeapEvent::PageMapped ==> mapped < HEAP_PAGES,
    ensures
        match event {
            HeapEvent::Start => r == (0u64, HeapStep::MapPage { page: HEAP_START }),
            HeapEvent::PageMapped => {
                &&& r.0 == mapped + 1
                &&& r.1 == if mapped + 1 < HEAP_PAGES {
                    HeapStep::MapPage { page: heap_page(mapped + 1) }
                } else {
                    HeapStep::InitAllocator { start: HEAP_START, size: HEAP_SIZE }
                }
            },
            HeapEvent::NoFrame => r == (mapped, HeapStep::Fail(MapToError::FrameAllocationFailed)),
            HeapEvent::MapFailed(e) => r == (mapped, HeapStep::Fail(e)),
        },
{
    match event {
        HeapEvent::Start => (0, HeapStep::MapPage { page: HEAP_START }),
        HeapEvent::PageMapped => {
            let done = mapped + 1;
            if done < HEAP_PAGES {
                assert(HEAP_START + done * PAGE_SIZE < 0x1_0000_0000_0000) by (nonlinear_arith)
                    requires
                        done < 256,
                ;
                (done, HeapStep::MapPage { page: HEAP_START + done * PAGE_SIZE })
            } else {
                (done, HeapStep::InitAllocator { start: HEAP_START, size: HEAP_SIZE })
            }
        },
        HeapEvent::NoFrame => (mapped, HeapStep::Fail(MapToError::FrameAllocationFailed)),
        HeapEvent::MapFailed(e) => (mapped, HeapStep::Fail(e)),
    }
}

} // verus!
