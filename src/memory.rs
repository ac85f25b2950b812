use vstd::prelude::*;
use crate::paging::{leaf_entry_at, leaf_flags_ok, map_result, table_index, MapToError, MapperFlush, PageMapper, walk, Walk};

verus! {

/// Size in bytes of a page and of a physical frame.
pub const PAGE_SIZE: u64 = 4096;

/// Physical addresses are below this bound (bits 52 to 63 are zero).
pub const PHYS_ADDR_LIMIT: u64 = 0x0010_0000_0000_0000;

/// How the boot environment classified a physical range.
#[derive(Debug, Clone, Copy, PartialEq, Eq)]
pub enum MemoryRegionType {
    Usable,
    Reserved,
}

/// A physical range `[start_addr, end_addr)` reported by the boot environment.
#[derive(Debug, Clone, Copy, PartialEq, Eq)]
pub struct MemoryRegion {
    pub start_addr: u64,
    pub end_addr: u64,
    pub region_type: MemoryRegionType,
}

pub open spec fn region_wf(r: MemoryRegion) -> bool {
    &&& r.start_addr % PAGE_SIZE == 0
    &&& r.end_addr % PAGE_SIZE == 0
    &&& r.start_addr <= r.end_addr
    &&& r.end_addr <= PHYS_ADDR_LIMIT
}

/// Every region is frame-aligned and addressable, and the regions are sorted
/// and pairwise disjoint.
pub open spec fn memory_map_wf(rs: Seq<MemoryRegion>) -> bool {
    &&& forall|i: int| 0 <= i < rs.len() ==> region_wf(#[trigger] rs[i])
    &&& forall|i: int, j: int| 0 <= i < j < rs.len() ==> (#[trigger] rs[i]).end_addr <= (#[trigger] rs[j]).start_addr
}

pub open spec fn is_usable(r: MemoryRegion) -> bool {
    r.region_type == MemoryRegionType::Usable
}

/// Number of frames in a region.
pub open spec fn frame_count(r: MemoryRegion) -> nat {
    ((r.end_addr - r.start_addr) / PAGE_SIZE as int) as nat
}

/// Start addresses of the frames of a region, lowest first.
pub open spec fn region_frames(r: MemoryRegion) -> Seq<u64> {
    Seq::new(frame_count(r), |k: int| (r.start_addr + k * PAGE_SIZE) as u64)
}

/// Start addresses of all usable frames of a memory map, in map order.
pub open spec fn usable_frames(rs: Seq<MemoryRegion>) -> Seq<u64>
    decreases rs.len(),
{
    if rs.len() == 0 {
        Seq::empty()
    } else {
        usable_frames(rs.drop_last()) + if is_usable(rs.last()) {
            region_frames(rs.last())
        } else {
            Seq::empty()
        }
    }
}

/// What the frame source hands out at cursor position `n`.
pub open spec fn frame_at(rs: Seq<MemoryRegion>, n: int) -> Option<u64> {
    if 0 <= n < usable_frames(rs).len() {
        Some(usable_frames(rs)[n])
    } else {
        None
    }
}

/// Relies on x86_64's `PhysFrame::containing_address`: the start of the 4KiB
/// frame that holds `addr` (the address with its low twelve bits cleared).
#[verifier::external_body]
fn frame_containing(addr: u64) -> (r: u64)
    requires
        addr < PHYS_ADDR_LIMIT,
    ensures
        r == addr - addr % PAGE_SIZE,
{
    x86_64::structures::paging::PhysFrame::<x86_64::structures::paging::Size4KiB>::containing_address(
        x86_64::PhysAddr::new(addr),
    ).start_address().as_u64()
}


/// The end of the highest region, or zero for an empty map.
pub open spec fn map_end(rs: Seq<MemoryRegion>) -> int {
    if rs.len() == 0 {
        0
    } else {
        rs.last().end_addr as int
    }
}

/// The usable frames of a prefix of the map come first among those of the map.
proof fn lemma_usable_frames_prefix(rs: Seq<MemoryRegion>, j: int)
    requires
        0 <= j <= rs.len(),
    ensures
        usable_frames(rs.take(j)).len() <= usable_frames(rs).len(),
        forall|k: int|
            0 <= k < usable_frames(rs.take(j)).len() ==> usable_frames(rs.take(j))[k]
                == #[trigger] usable_frames(rs)[k],
    decreases rs.len(),
{
    if j == rs.len() {
        assert(rs.take(j) =~= rs);
    } else {
        let d = rs.drop_last();
        assert(rs.take(j) =~= d.take(j));
        lemma_usable_frames_prefix(d, j);
    }
}

/// Extending a prefix of the map by one region appends that region's frames.
proof fn lemma_usable_frames_step(rs: Seq<MemoryRegion>, i: int)
    requires
        0 <= i < rs.len(),
    ensures
        usable_frames(rs.take(i + 1)) == usable_frames(rs.take(i)) + if is_usable(rs[i]) {
            region_frames(rs[i])
        } else {
            Seq::<u64>::empty()
        },
{
    let t = rs.take(i + 1);
    assert(t.drop_last() =~= rs.take(i));
    assert(t.last() == rs[i]);
}

/// Whether the frame at `f` lies in a usable region of the map.
pub open spec fn in_usable_region(rs: Seq<MemoryRegion>, f: u64) -> bool {
    exists|i: int|
        0 <= i < rs.len() && is_usable(rs[i]) && rs[i].start_addr <= f && f < #[trigger] rs[i].end_addr
}

/// Every usable frame of a map lies in a usable region of it.
pub proof fn lemma_usable_frames_in_regions(rs: Seq<MemoryRegion>)
    requires
        memory_map_wf(rs),
    ensures
        forall|k: int|
            0 <= k < usable_frames(rs).len() ==> in_usable_region(rs, #[trigger] usable_frames(rs)[k]),
    decreases rs.len(),
{
    if rs.len() > 0 {
        let d = rs.drop_last();
        let r = rs.last();
        assert(rs[rs.len() - 1] == r);
        assert(memory_map_wf(d)) by {
            assert forall|i: int| 0 <= i < d.len() implies region_wf(#[trigger] d[i]) by {
                assert(d[i] == rs[i]);
            }
            assert forall|i: int, j: int| 0 <= i < j < d.len() implies (#[trigger] d[i]).end_addr
                <= (#[trigger] d[j]).start_addr by {
                assert(d[i] == rs[i] && d[j] == rs[j]);
            }
        }
        lemma_usable_frames_in_regions(d);
        let a = usable_frames(d);
        let s = usable_frames(rs);
        assert forall|k: int| 0 <= k < s.len() implies in_usable_region(rs, #[trigger] s[k]) by {
            if k < a.len() {
                let i = choose|i: int|
                    0 <= i < d.len() && is_usable(d[i]) && d[i].start_addr <= a[k] && a[k]
                        < #[trigger] d[i].end_addr;
                assert(rs[i] == d[i]);
            } else {
                let m = k - a.len();
                assert(region_wf(r));
                assert(m * 4096 + 4096 <= frame_count(r) * 4096) by (nonlinear_arith)
                    requires
                        m < frame_count(r),
                ;
                assert(frame_count(r) * 4096 <= r.end_addr - r.start_addr) by (nonlinear_arith)
                    requires
                        frame_count(r) == (r.end_addr - r.start_addr) / 4096,
                        r.start_addr <= r.end_addr,
                ;
                assert(s[k] == r.start_addr + m * 4096);
                assert(rs[rs.len() - 1].end_addr == r.end_addr);
            }
        }
    }
}

/// In a well-formed map the usable frames are aligned, strictly increasing
/// and below the end of the map, and there are at most `map_end / 4096` of them.
pub proof fn lemma_usable_frames_layout(rs: Seq<MemoryRegion>)
    requires
        memory_map_wf(rs),
    ensures
        map_end(rs) <= PHYS_ADDR_LIMIT,
        usable_frames(rs).len() * PAGE_SIZE <= map_end(rs),
        forall|k: int|
            0 <= k < usable_frames(rs).len() ==> (#[trigger] usable_frames(rs)[k]) % PAGE_SIZE == 0
                && usable_frames(rs)[k] + PAGE_SIZE <= map_end(rs),
        forall|i: int, j: int|
            0 <= i < j < usable_frames(rs).len() ==> (#[trigger] usable_frames(rs)[i]) < (
            #[trigger] usable_frames(rs)[j]),
    decreases rs.len(),
{
    if rs.len() > 0 {
        let d = rs.drop_last();
        let r = rs.last();
        assert(rs[rs.len() - 1] == r);
        assert(region_wf(r));
        assert(memory_map_wf(d)) by {
            assert forall|i: int| 0 <= i < d.len() implies region_wf(#[trigger] d[i]) by {
                assert(d[i] == rs[i]);
            }
            assert forall|i: int, j: int| 0 <= i < j < d.len() implies (#[trigger] d[i]).end_addr
                <= (#[trigger] d[j]).start_addr by {
                assert(d[i] == rs[i] && d[j] == rs[j]);
            }
        }
        lemma_usable_frames_layout(d);
        if d.len() > 0 {
            assert(d.last() == rs[rs.len() - 2]);
            assert(rs[rs.len() - 2].end_addr <= rs[rs.len() - 1].start_addr);
        }
        let a = usable_frames(d);
        let b: Seq<u64> = if is_usable(r) {
            region_frames(r)
        } else {
            Seq::empty()
        };
        let s = usable_frames(rs);
        assert(s == a + b);
        let start = r.start_addr as int;
        let end = r.end_addr as int;
        let count = frame_count(r) as int;
        assert(count * 4096 == end - start) by {
            assert((end - start) % 4096 == 0) by {
                assert(start % 4096 == 0 && end % 4096 == 0);
            }
        }
        assert forall|k: int| 0 <= k < b.len() implies (#[trigger] b[k]) as int == start + k * 4096
            && b[k] % PAGE_SIZE == 0 && b[k] + PAGE_SIZE <= end by {
            assert(k * 4096 + 4096 <= count * 4096) by (nonlinear_arith)
                requires
                    k < count,
            ;
            assert((start + k * 4096) % 4096 == 0) by (nonlinear_arith)
                requires
                    start % 4096 == 0,
            ;
        }
        assert(b.len() * 4096 <= end - start) by (nonlinear_arith)
            requires
                b.len() <= count,
                count * 4096 == end - start,
        ;
        assert(s.len() * PAGE_SIZE <= map_end(rs)) by (nonlinear_arith)
            requires
                s.len() == a.len() + b.len(),
                a.len() * 4096 <= map_end(d),
                map_end(d) <= start,
                b.len() * 4096 <= end - start,
                map_end(rs) == end,
        ;
        assert forall|k: int| 0 <= k < s.len() implies (#[trigger] s[k]) % PAGE_SIZE == 0 && s[k]
            + PAGE_SIZE <= map_end(rs) by {
            if k >= a.len() {
                assert(s[k] == b[k - a.len()]);
            }
        }
        assert forall|i: int, j: int| 0 <= i < j < s.len() implies (#[trigger] s[i]) < (
        #[trigger] s[j]) by {
            if j < a.len() {
            } else if i >= a.len() {
                assert(s[i] == b[i - a.len()] && s[j] == b[j - a.len()]);
                assert((i - a.len()) * 4096 < (j - a.len()) * 4096) by (nonlinear_arith)
                    requires
                        i < j,
                ;
            } else {
                assert(s[j] == b[j - a.len()]);
            }
        }
    }
}

/// Whether a memory map is well formed, as the frame source needs it.
pub fn memory_map_is_valid(rs: &[MemoryRegion]) -> (r: bool)
    ensures
        r == memory_map_wf(rs@),
{
    let mut i: usize = 0;
    while i < rs.len()
        invariant
            i <= rs@.len(),
            forall|a: int| 0 <= a < i ==> region_wf(#[trigger] rs@[a]),
            forall|a: int, b: int| 0 <= a < b < i ==> (#[trigger] rs@[a]).end_addr <= (#[trigger] rs@[b]).start_addr,
            forall|a: int| 0 <= a < i ==> (#[trigger] rs@[a]).end_addr <= rs@[i - 1].end_addr,
        decreases rs@.len() - i,
    {
        let r = rs[i];
        if !(r.start_addr % PAGE_SIZE == 0 && r.end_addr % PAGE_SIZE == 0 && r.start_addr <= r.end_addr
            && r.end_addr <= PHYS_ADDR_LIMIT) {
            assert(!region_wf(rs@[i as int]));
            return false;
        }
        if i > 0 && rs[i - 1].end_addr > r.start_addr {
            assert(!((rs@[i - 1]).end_addr <= (rs@[i as int]).start_addr));
            return false;
        }
        i = i + 1;
    }
    true
}

/// Hands out physical frames; each call returns the next frame it holds, if
/// any is left.
pub trait FrameAllocator {
    /// The frames that the following calls return, in order.
    spec fn pending(&self) -> Seq<u64>;

    fn allocate_frame(&mut self) -> (r: Option<u64>)
        ensures
            old(self).pending().len() == 0 ==> {
                &&& r.is_none()
                &&& final(self).pending() == old(self).pending()
            },
            old(self).pending().len() > 0 ==> {
                &&& r == Some(old(self).pending()[0])
                &&& final(self).pending() == old(self).pending().drop_first()
            },
    ;
}

/// The frames that a frame source with cursor `next` has still to hand out.
pub open spec fn frames_after(rs: Seq<MemoryRegion>, next: int) -> Seq<u64> {
    if next < usable_frames(rs).len() {
        usable_frames(rs).subrange(next, usable_frames(rs).len() as int)
    } else {
        Seq::empty()
    }
}

/// A frame source over the boot memory map: it hands out the usable frames
/// in map order, one per call, and never the same frame twice.
pub struct BootInfoFrameAllocator<'a> {
    memory_map: &'a [MemoryRegion],
    next: u64,
}

impl<'a> BootInfoFrameAllocator<'a> {
    #[verifier::type_invariant]
    spec fn inv(&self) -> bool {
        memory_map_wf(self.memory_map@)
    }

    pub closed spec fn memory_map(&self) -> Seq<MemoryRegion> {
        self.memory_map@
    }

    /// How many calls of `allocate_frame` were made.
    pub closed spec fn cursor(&self) -> nat {
        self.next as nat
    }

    pub open spec fn wf(&self) -> bool {
        memory_map_wf(self.memory_map())
    }

    /// Create a frame source from a memory map whose usable frames are really unused.
    pub fn init(memory_map: &'a [MemoryRegion]) -> (r: Self)
        requires
            memory_map_wf(memory_map@),
        ensures
            r.wf(),
            r.memory_map() == memory_map@,
            r.cursor() == 0,
            r.pending() == usable_frames(memory_map@),
    {
        let r = BootInfoFrameAllocator { memory_map, next: 0 };
        assert(usable_frames(memory_map@).subrange(0, usable_frames(memory_map@).len() as int)
            =~= usable_frames(memory_map@));
        r
    }

    /// The usable frame at position `n` of the memory map, if there is one.
    fn usable_frame_at(&self, n: u64) -> (r: Option<u64>)
        requires
            self.wf(),
        ensures
            r == frame_at(self.memory_map(), n as int),
    {
        let ghost rs = self.memory_map@;
        proof {
            lemma_usable_frames_layout(rs);
        }
        let mut remaining: u64 = n;
        let mut i: usize = 0;
        while i < self.memory_map.len()
            invariant
                0 <= i <= rs.len(),
                rs == self.memory_map@,
                memory_map_wf(rs),
                n == usable_frames(rs.take(i as int)).len() + remaining,
                forall|k: int|
                    0 <= k < usable_frames(rs).len() ==> (#[trigger] usable_frames(rs)[k]) + PAGE_SIZE
                        <= map_end(rs),
                map_end(rs) <= PHYS_ADDR_LIMIT,
            decreases rs.len() - i,
        {
            let r = self.memory_map[i];
            proof {
                lemma_usable_frames_step(rs, i as int);
                lemma_usable_frames_prefix(rs, i + 1);
                assert(region_wf(rs[i as int]));
            }
            match r.region_type {
                MemoryRegionType::Usable => {
                    let count: u64 = (r.end_addr - r.start_addr) / PAGE_SIZE;
                    if remaining < count {
                        assert(remaining * PAGE_SIZE < r.end_addr - r.start_addr) by (nonlinear_arith)
                            requires
                                remaining < count,
                                count == (r.end_addr - r.start_addr) / 4096,
                                PAGE_SIZE == 4096,
                        ;
                        let addr = r.start_addr + remaining * PAGE_SIZE;
                        let f = frame_containing(addr);
                        proof {
                            let pre = usable_frames(rs.take(i as int));
                            let k = pre.len() + remaining;
                            assert(usable_frames(rs.take(i + 1))[k] == region_frames(r)[
                                remaining as int]);
                            assert(addr % 4096 == 0) by (nonlinear_arith)
                                requires
                                    addr == r.start_addr + remaining * 4096,
                                    r.start_addr % 4096 == 0,
                            ;
                        }
                        return Some(f);
                    }
                    remaining = remaining - count;
                },
                MemoryRegionType::Reserved => {},
            }
            i = i + 1;
        }
        assert(rs.take(i as int) =~= rs);
        None
    }
}

impl<'a> BootInfoFrameAllocator<'a> {
    /// Hand out the usable frame at the cursor, if there is one, and move the
    /// cursor on, whether a frame was left or not.
    pub fn allocate_frame(&mut self) -> (r: Option<u64>)
        ensures
            final(self).wf() == old(self).wf(),
            final(self).memory_map() == old(self).memory_map(),
            final(self).cursor() <= u64::MAX,
            old(self).cursor() < u64::MAX ==> final(self).cursor() == old(self).cursor() + 1,
            old(self).cursor() == u64::MAX ==> final(self).cursor() == old(self).cursor(),
            r == frame_at(old(self).memory_map(), old(self).cursor() as int),
            r matches Some(f) ==> {
                &&& f % PAGE_SIZE == 0
                &&& f < PHYS_ADDR_LIMIT
                &&& in_usable_region(old(self).memory_map(), f)
                &&& forall|j: int|
                    0 <= j < old(self).cursor() ==> #[trigger] frame_at(old(self).memory_map(), j)
                        != Some(f)
            },
    {
        proof {
            use_type_invariant(&*self);
        }
        let frame = self.usable_frame_at(self.next);
        proof {
            let rs = self.memory_map@;
            lemma_usable_frames_layout(rs);
            lemma_usable_frames_in_regions(rs);
            let s = usable_frames(rs);
            if self.next < s.len() {
                assert(in_usable_region(rs, s[self.next as int]));
                assert forall|j: int| 0 <= j < self.next implies #[trigger] frame_at(rs, j)
                    != Some(s[self.next as int]) by {
                    assert(s[j] < s[self.next as int]);
                }
            }
        }
        if self.next < u64::MAX {
            self.next = self.next + 1;
        }
        frame
    }
}

impl<'a> BootInfoFrameAllocator<'a> {
    /// The cursor fits its counter, and the frames still to come are
    /// distinct, aligned, addressable and inside usable regions.
    pub proof fn lemma_pending(&self)
        requires
            self.wf(),
        ensures
            self.cursor() <= u64::MAX,
            forall|i: int, j: int|
                0 <= i < j < self.pending().len() ==> self.pending()[i] != self.pending()[j],
            forall|i: int|
                0 <= i < self.pending().len() ==> (#[trigger] self.pending()[i]) % 4096 == 0
                    && self.pending()[i] < PHYS_ADDR_LIMIT && in_usable_region(
                    self.memory_map(),
                    self.pending()[i],
                ),
    {
        lemma_pending_frames(self.memory_map(), self.cursor() as int);
    }
}

impl<'a> FrameAllocator for BootInfoFrameAllocator<'a> {
    open spec fn pending(&self) -> Seq<u64> {
        frames_after(self.memory_map(), self.cursor() as int)
    }

    fn allocate_frame(&mut self) -> (r: Option<u64>) {
        let ghost rs = self.memory_map();
        let ghost c = self.cursor() as int;
        let frame = BootInfoFrameAllocator::allocate_frame(self);
        proof {
            use_type_invariant(&*self);
            lemma_usable_frames_layout(rs);
            let s = usable_frames(rs);
            assert(s.len() * 4096 <= PHYS_ADDR_LIMIT);
            if c < s.len() {
                assert(frames_after(rs, c)[0] == s[c]);
                assert(frames_after(rs, c + 1) =~= frames_after(rs, c).drop_first());
            }
        }
        frame
    }
}

/// A frame source that holds no frame.
pub struct EmptyFrameAllocator;

impl FrameAllocator for EmptyFrameAllocator {
    open spec fn pending(&self) -> Seq<u64> {
        Seq::empty()
    }

    fn allocate_frame(&mut self) -> (r: Option<u64>) {
        None
    }
}


/// With N usable frames in a well-formed map, the first N calls of
/// `allocate_frame` hand out N pairwise-distinct frames, in map order, and
/// every later call hands out none.
pub proof fn lemma_frame_source_exhaustion(rs: Seq<MemoryRegion>)
    requires
        memory_map_wf(rs),
    ensures
        frames_after(rs, 0) == usable_frames(rs),
        forall|n: int|
            0 <= n < usable_frames(rs).len() ==> #[trigger] frames_after(rs, n).len() > 0
                && frames_after(rs, n)[0] == usable_frames(rs)[n] && frames_after(rs, n + 1)
                == frames_after(rs, n).drop_first(),
        forall|n: int| n >= usable_frames(rs).len() ==> #[trigger] frames_after(rs, n).len() == 0,
        forall|i: int, j: int|
            0 <= i < j < usable_frames(rs).len() ==> usable_frames(rs)[i] != usable_frames(rs)[j],
        forall|n: int| 0 <= n < usable_frames(rs).len() ==> (#[trigger] frame_at(rs, n)) is Some,
        forall|i: int, j: int|
            0 <= i < j < usable_frames(rs).len() ==> #[trigger] frame_at(rs, i) != #[trigger] frame_at(rs, j),
        frame_at(rs, usable_frames(rs).len() as int) is None,
{
    lemma_usable_frames_layout(rs);
    let s = usable_frames(rs);
    assert(frames_after(rs, 0) =~= s);
    assert forall|n: int| 0 <= n < s.len() implies #[trigger] frames_after(rs, n).len() > 0
        && frames_after(rs, n)[0] == s[n] && frames_after(rs, n + 1) == frames_after(
        rs,
        n,
    ).drop_first() by {
        assert(frames_after(rs, n + 1) =~= frames_after(rs, n).drop_first());
    }
    assert forall|i: int, j: int| 0 <= i < j < s.len() implies s[i] != s[j] by {
        assert(s[i] < s[j]);
    }
}

/// The frames still to come from a frame source over a well-formed map are
/// distinct, aligned, addressable and inside usable regions.
pub proof fn lemma_pending_frames(rs: Seq<MemoryRegion>, next: int)
    requires
        memory_map_wf(rs),
        0 <= next,
    ensures
        forall|i: int, j: int|
            0 <= i < j < frames_after(rs, next).len() ==> frames_after(rs, next)[i] != frames_after(
                rs,
                next,
            )[j],
        forall|i: int|
            0 <= i < frames_after(rs, next).len() ==> (#[trigger] frames_after(rs, next)[i]) % 4096
                == 0 && frames_after(rs, next)[i] < PHYS_ADDR_LIMIT && in_usable_region(rs, frames_after(rs, next)[i]),
{
    lemma_usable_frames_layout(rs);
    lemma_usable_frames_in_regions(rs);
    let s = usable_frames(rs);
    let p = frames_after(rs, next);
    assert forall|i: int, j: int| 0 <= i < j < p.len() implies p[i] != p[j] by {
        assert(p[i] == s[next + i] && p[j] == s[next + j]);
        assert(s[next + i] < s[next + j]);
    }
    assert forall|i: int| 0 <= i < p.len() implies (#[trigger] p[i]) % 4096 == 0 && p[i]
        < PHYS_ADDR_LIMIT && in_usable_region(rs, p[i]) by {
        assert(p[i] == s[next + i]);
    }
}

/// A new page-table hierarchy whose level-4 table, in frame
/// `level_4_frame`, starts out empty: nothing is mapped yet.
pub fn init(level_4_frame: u64) -> (r: PageMapper)
    ensures
        r.wf(),
        r.root() == level_4_frame,
        forall|f: u64| r.memory().holds(f) == (f == level_4_frame),
        forall|f: u64, i: int| r.memory().entry(f, i) == 0,
        forall|a: u64| r.translation_of(a).is_none(),
{
    let r = PageMapper::new(level_4_frame);
    assert forall|a: u64| r.translation_of(a).is_none() by {
        assert(walk(r.memory(), level_4_frame, a, 4) == Walk::NotMapped) by {
            assert(0u64 & 0x1u64 == 0) by (bit_vector);
        }
    }
    r
}

/// The physical address that `virt_addr` is mapped to, or `None` where it is
/// not mapped. The walk must not meet a huge page.
pub fn translate_addr_v2p(virt_addr: u64, mapper: &PageMapper) -> (r: Option<u64>)
    requires
        mapper.wf(),
        walk(mapper.memory(), mapper.root(), virt_addr, 4) != Walk::Huge,
    ensures
        r == mapper.translation_of(virt_addr),
{
    mapper.translate(virt_addr)
}

/// Physical address of the text-mode frame buffer.
pub const VGA_BUFFER_ADDR: u64 = 0xb8000;

/// Map `page` to the text-mode frame buffer, present and writable. Tables
/// that are missing on the way are created empty from `frame_allocator`.
/// A page mapped already, a huge page on the way, or a frame source that
/// runs dry is returned as the error, for the caller to treat as fatal.
pub fn create_mapping_to_vga<A: FrameAllocator>(
    page: u64,
    mapper: &mut PageMapper,
    frame_allocator: &mut A,
) -> (r: Result<MapperFlush, MapToError>)
    requires
        old(mapper).wf(),
        page % PAGE_SIZE == 0,
        old(mapper).frames_fresh(old(frame_allocator).pending()),
    ensures
        final(mapper).wf(),
        final(mapper).root() == old(mapper).root(),
        final(mapper).frames_fresh(final(frame_allocator).pending()),
        match r {
            Ok(fl) => fl.page == page && map_result(old(mapper).memory(), old(mapper).root(), page, VGA_BUFFER_ADDR, old(frame_allocator).pending().len()) == Ok::<(), MapToError>(()),
            Err(e) => map_result(old(mapper).memory(), old(mapper).root(), page, VGA_BUFFER_ADDR, old(frame_allocator).pending().len()) == Err::<(), MapToError>(e),
        },
        r is Ok ==> forall|off: u64|
            off < 4096 ==> #[trigger] final(mapper).translation_of((page + off) as u64) == Some(
                (VGA_BUFFER_ADDR + off) as u64,
            ),
        r is Ok ==> leaf_entry_at(final(mapper).memory(), final(mapper).root(), page, 4, table_index(page, 1))
            == VGA_BUFFER_ADDR | (crate::paging::PRESENT | crate::paging::WRITABLE),
        forall|a: u64| #[trigger]
            old(mapper).translation_of(a) is Some ==> final(mapper).translation_of(a) == old(
                mapper,
            ).translation_of(a),
        r is Ok ==> forall|j: int|
            j != table_index(page, 1) ==> #[trigger] leaf_entry_at(
                final(mapper).memory(),
                final(mapper).root(),
                page,
                4,
                j,
            ) == leaf_entry_at(old(mapper).memory(), old(mapper).root(), page, 4, j),
        PageMapper::new_tables_from(*old(mapper), *final(mapper), old(frame_allocator).pending()),
        PageMapper::new_tables_clean(*old(mapper), *final(mapper), page),
{
    let flags = crate::paging::PRESENT | crate::paging::WRITABLE;
    assert(flags == 0x3u64) by (bit_vector)
        requires
            flags == 0x1u64 | 0x2u64,
    ;
    assert(leaf_flags_ok(0x3u64)) by (bit_vector);
    mapper.map_to(page, VGA_BUFFER_ADDR, flags, frame_allocator)
}

} // verus!
