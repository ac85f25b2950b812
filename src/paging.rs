use vstd::prelude::*;
use crate::memory::{FrameAllocator, PAGE_SIZE, PHYS_ADDR_LIMIT};

verus! {

/// Entries in one page table.
pub const ENTRY_COUNT: usize = 512;

/// Entry flag: the entry maps a frame.
pub const PRESENT: u64 = 0x1;

/// Entry flag: writes are allowed through the entry.
pub const WRITABLE: u64 = 0x2;

/// Entry flag: user-mode code may access through the entry.
pub const USER_ACCESSIBLE: u64 = 0x4;

/// Entry flag: above level 1, the entry maps a huge page instead of a table.
pub const HUGE_PAGE: u64 = 0x80;

/// Bits of an entry that hold the physical address of the frame it maps.
pub const ADDR_MASK: u64 = 0x000f_ffff_ffff_f000;

pub open spec fn is_present(e: u64) -> bool {
    e & 0x1u64 != 0
}

pub open spec fn is_huge(e: u64) -> bool {
    e & 0x80u64 != 0
}

/// The frame an entry points to.
pub open spec fn entry_addr(e: u64) -> u64 {
    e & 0x000f_ffff_ffff_f000u64
}

/// The number of the virtual page that holds `addr`.
pub open spec fn page_number(addr: u64) -> int {
    addr as int / 4096
}

/// The index into the table of `level` (4 is the root, 1 the last) that
/// translating `addr` uses: nine bits of the page number per level.
pub open spec fn table_index(addr: u64, level: nat) -> int {
    if level <= 1 {
        page_number(addr) % 512
    } else if level == 2 {
        page_number(addr) / 0x200 % 512
    } else if level == 3 {
        page_number(addr) / 0x4_0000 % 512
    } else {
        page_number(addr) / 0x800_0000 % 512
    }
}

/// Relies on x86_64's `VirtAddr::p4_index`: bits 39 to 47 of the address.
#[verifier::external_body]
fn p4_index(addr: u64) -> (r: usize)
    ensures
        r == table_index(addr, 4),
{
    usize::from(x86_64::VirtAddr::new_truncate(addr).p4_index())
}

/// Relies on x86_64's `VirtAddr::p3_index`: bits 30 to 38 of the address.
#[verifier::external_body]
fn p3_index(addr: u64) -> (r: usize)
    ensures
        r == table_index(addr, 3),
{
    usize::from(x86_64::VirtAddr::new_truncate(addr).p3_index())
}

/// Relies on x86_64's `VirtAddr::p2_index`: bits 21 to 29 of the address.
#[verifier::external_body]
fn p2_index(addr: u64) -> (r: usize)
    ensures
        r == table_index(addr, 2),
{
    usize::from(x86_64::VirtAddr::new_truncate(addr).p2_index())
}

/// Relies on x86_64's `VirtAddr::p1_index`: bits 12 to 20 of the address.
#[verifier::external_body]
fn p1_index(addr: u64) -> (r: usize)
    ensures
        r == table_index(addr, 1),
{
    usize::from(x86_64::VirtAddr::new_truncate(addr).p1_index())
}

/// Relies on x86_64's `VirtAddr::page_offset`: the low twelve bits of the address.
#[verifier::external_body]
fn page_offset(addr: u64) -> (r: u64)
    ensures
        r == addr % 4096,
{
    u64::from(x86_64::VirtAddr::new_truncate(addr).page_offset())
}

/// The physical memory that holds page tables: each table is 512 entries in
/// one frame, found by the frame's address. A frame that holds no table
/// reads as zeroed memory.
pub struct PhysMemory {
    frames: Vec<u64>,
    entries: Vec<u64>,
}

proof fn lemma_slot_bounds(k: int, i: int, n: int)
    requires
        0 <= k < n,
        0 <= i < 512,
    ensures
        0 <= k * 512 + i < n * 512,
{
    assert(0 <= k * 512 + i < n * 512) by (nonlinear_arith)
        requires
            0 <= k < n,
            0 <= i < 512,
    ;
}

proof fn lemma_slot_distinct(k: int, i: int, l: int, j: int)
    requires
        0 <= k,
        0 <= l,
        0 <= i < 512,
        0 <= j < 512,
        k != l || i != j,
    ensures
        k * 512 + i != l * 512 + j,
{
    if k == l {
    } else if k < l {
        assert(k * 512 + i < l * 512 + j) by (nonlinear_arith)
            requires
                k < l,
                0 <= i < 512,
                0 <= j,
        ;
    } else {
        assert(l * 512 + j < k * 512 + i) by (nonlinear_arith)
            requires
                l < k,
                0 <= j < 512,
                0 <= i,
        ;
    }
}

impl PhysMemory {
    pub closed spec fn wf(&self) -> bool {
        &&& self.entries@.len() == self.frames@.len() * 512
        &&& forall|a: int, b: int|
            0 <= a < b < self.frames@.len() ==> self.frames@[a] != self.frames@[b]
    }

    /// Whether the frame at `f` holds a page table.
    pub closed spec fn holds(&self, f: u64) -> bool {
        self.frames@.contains(f)
    }

    spec fn slot(&self, f: u64) -> int {
        choose|k: int| 0 <= k < self.frames@.len() && self.frames@[k] == f
    }

    /// Entry `i` of the table in frame `f`.
    pub closed spec fn entry(&self, f: u64, i: int) -> u64 {
        if self.holds(f) && 0 <= i < 512 {
            self.entries@[self.slot(f) * 512 + i]
        } else {
            0
        }
    }

    proof fn lemma_slot(&self, k: int)
        requires
            self.wf(),
            0 <= k < self.frames@.len(),
        ensures
            self.holds(self.frames@[k]),
            self.slot(self.frames@[k]) == k,
    {
        let f = self.frames@[k];
        assert(self.frames@.contains(f));
        let s = self.slot(f);
        assert(0 <= s < self.frames@.len() && self.frames@[s] == f);
        if s < k {
            assert(self.frames@[s] != self.frames@[k]);
        } else if k < s {
            assert(self.frames@[k] != self.frames@[s]);
        }
    }

    /// Memory in which no frame holds a table yet.
    pub fn new() -> (r: Self)
        ensures
            r.wf(),
            forall|f: u64| !r.holds(f),
    {
        PhysMemory { frames: Vec::new(), entries: Vec::new() }
    }

    fn find(&self, f: u64) -> (r: Option<usize>)
        requires
            self.wf(),
        ensures
            match r {
                Some(k) => k < self.frames@.len() && self.frames@[k as int] == f && self.slot(f)
                    == k,
                None => !self.holds(f),
            },
    {
        let mut k: usize = 0;
        while k < self.frames.len()
            invariant
                self.wf(),
                k <= self.frames@.len(),
                forall|j: int| 0 <= j < k ==> self.frames@[j] != f,
            decreases self.frames@.len() - k,
        {
            if self.frames[k] == f {
                proof {
                    self.lemma_slot(k as int);
                }
                return Some(k);
            }
            k = k + 1;
        }
        None
    }

    /// Entry `i` of the table in frame `f`.
    pub fn read_entry(&self, f: u64, i: usize) -> (r: u64)
        requires
            self.wf(),
            i < ENTRY_COUNT,
        ensures
            r == self.entry(f, i as int),
    {
        match self.find(f) {
            Some(k) => {
                let n_entries = self.entries.len();
                proof {
                    lemma_slot_bounds(k as int, i as int, self.frames@.len() as int);
                    assert(k * 512 + i < n_entries);
                }
                self.entries[k * ENTRY_COUNT + i]
            },
            None => 0,
        }
    }

    /// Set entry `i` of the table in frame `f` to `v`.
    pub fn write_entry(&mut self, f: u64, i: usize, v: u64)
        requires
            old(self).wf(),
            old(self).holds(f),
            i < ENTRY_COUNT,
        ensures
            final(self).wf(),
            forall|g: u64| final(self).holds(g) == old(self).holds(g),
            forall|g: u64, j: int|
                #[trigger] final(self).entry(g, j) == if g == f && j == i {
                    v
                } else {
                    old(self).entry(g, j)
                },
    {
        let k = match self.find(f) {
            Some(k) => k,
            None => {
                proof {
                    assert(false);
                }
                0
            },
        };
        let n_entries = self.entries.len();
        proof {
            lemma_slot_bounds(k as int, i as int, self.frames@.len() as int);
            assert(k * 512 + i < n_entries);
        }
        let ghost pre = *self;
        self.entries.set(k * ENTRY_COUNT + i, v);
        proof {
            assert(self.frames@ == pre.frames@);
            assert forall|g: u64, j: int|
                #[trigger] self.entry(g, j) == if g == f && j == i {
                    v
                } else {
                    pre.entry(g, j)
                } by {
                assert(self.holds(g) == pre.holds(g));
                assert(self.slot(g) == pre.slot(g));
                if self.holds(g) && 0 <= j < 512 {
                    let s = pre.slot(g);
                    assert(0 <= s < pre.frames@.len() && pre.frames@[s] == g);
                    lemma_slot_bounds(s, j, pre.frames@.len() as int);
                    if g != f || j != i {
                        if g != f {
                            assert(s != k);
                        }
                        lemma_slot_distinct(s, j, k as int, i as int);
                    }
                }
            }
        }
    }

    /// Make the frame at `f` hold a zeroed table.
    pub fn add_table(&mut self, f: u64)
        requires
            old(self).wf(),
            !old(self).holds(f),
        ensures
            final(self).wf(),
            forall|g: u64| #[trigger] final(self).holds(g) == (old(self).holds(g) || g == f),
            forall|g: u64, j: int|
                #[trigger] final(self).entry(g, j) == if g == f {
                    0
                } else {
                    old(self).entry(g, j)
                },
    {
        let ghost pre = *self;
        let ghost n = pre.frames@.len() as int;
        self.frames.push(f);
        let mut c: usize = 0;
        while c < ENTRY_COUNT
            invariant
                c <= ENTRY_COUNT,
                self.frames@ == pre.frames@.push(f),
                self.entries@.len() == n * 512 + c,
                forall|x: int| 0 <= x < n * 512 ==> self.entries@[x] == pre.entries@[x],
                forall|x: int| n * 512 <= x < n * 512 + c ==> self.entries@[x] == 0,
            decreases ENTRY_COUNT - c,
        {
            self.entries.push(0);
            c = c + 1;
        }
        proof {
            assert(self.entries@.len() == self.frames@.len() * 512) by (nonlinear_arith)
                requires
                    self.entries@.len() == n * 512 + 512,
                    self.frames@.len() == n + 1,
            ;
            assert forall|a: int, b: int| 0 <= a < b < self.frames@.len() implies self.frames@[a]
                != self.frames@[b] by {
                if b == n {
                    assert(pre.frames@[a] == self.frames@[a]);
                    assert(pre.frames@.contains(self.frames@[a]));
                } else {
                    assert(pre.frames@[a] != pre.frames@[b]);
                }
            }
            assert forall|g: u64| #[trigger] self.holds(g) == (pre.holds(g) || g == f) by {
                if pre.holds(g) {
                    let k = choose|k: int| 0 <= k < n && pre.frames@[k] == g;
                    assert(self.frames@[k] == g);
                }
                if g == f {
                    assert(self.frames@[n] == f);
                }
                if self.holds(g) && g != f {
                    let k = choose|k: int| 0 <= k < n + 1 && self.frames@[k] == g;
                    assert(k != n);
                    assert(pre.frames@[k] == g);
                }
            }
            assert forall|g: u64, j: int|
                #[trigger] self.entry(g, j) == if g == f {
                    0
                } else {
                    pre.entry(g, j)
                } by {
                if self.holds(g) && 0 <= j < 512 {
                    let s = self.slot(g);
                    self.lemma_slot(s);
                    lemma_slot_bounds(s, j, n + 1);
                    if g == f {
                        self.lemma_slot(n);
                        assert(s == n);
                        assert(n * 512 <= s * 512 + j < n * 512 + 512) by (nonlinear_arith)
                            requires
                                s == n,
                                0 <= j < 512,
                        ;
                    } else {
                        assert(s != n);
                        assert(pre.frames@[s] == g);
                        pre.lemma_slot(s);
                        lemma_slot_bounds(s, j, n);
                    }
                }
            }
        }
    }
}


/// Where a walk of the table hierarchy for one address ends.
pub enum Walk {
    /// A present level-1 entry maps the page to this frame.
    Mapped(u64),
    /// Some entry on the way is not present.
    NotMapped,
    /// A present entry above level 1 maps a huge page.
    Huge,
}

/// The walk for `addr` from the table in frame `table` at `level` down to level 1.
pub open spec fn walk(mem: PhysMemory, table: u64, addr: u64, level: nat) -> Walk
    decreases level,
{
    let e = mem.entry(table, table_index(addr, level));
    if level == 0 || !is_present(e) {
        Walk::NotMapped
    } else if level == 1 {
        Walk::Mapped(entry_addr(e))
    } else if is_huge(e) {
        Walk::Huge
    } else {
        walk(mem, entry_addr(e), addr, (level - 1) as nat)
    }
}

/// The physical address that `addr` translates to under the hierarchy rooted at `root`.
pub open spec fn translation(mem: PhysMemory, root: u64, addr: u64) -> Option<u64> {
    match walk(mem, root, addr, 4) {
        Walk::Mapped(f) => Some((f + addr % 4096) as u64),
        _ => None,
    }
}

/// Where the tables above level 1 lead for `page`, before anything is created.
pub enum ParentWalk {
    /// An entry on the way is unused: this many tables must be created.
    Missing(nat),
    /// An entry on the way maps a huge page.
    Huge,
    /// The level-1 table is in this frame.
    Leaf(u64),
}

pub open spec fn parent_walk(mem: PhysMemory, table: u64, page: u64, level: nat) -> ParentWalk
    decreases level,
{
    let e = mem.entry(table, table_index(page, level));
    if level <= 1 {
        ParentWalk::Leaf(table)
    } else if e == 0 {
        ParentWalk::Missing((level - 1) as nat)
    } else if is_huge(e) {
        ParentWalk::Huge
    } else {
        parent_walk(mem, entry_addr(e), page, (level - 1) as nat)
    }
}

/// Why a page could not be mapped.
#[derive(Debug, Clone, Copy, PartialEq, Eq)]
pub enum MapToError {
    /// The frame source ran out while a table had to be created.
    FrameAllocationFailed,
    /// An entry above level 1 on the way maps a huge page.
    ParentEntryHugePage,
    /// The page is mapped already; the frame it was to be mapped to.
    PageAlreadyMapped(u64),
}

/// What mapping `page` to `frame` gives, when `available` frames can be had.
pub open spec fn map_result(mem: PhysMemory, root: u64, page: u64, frame: u64, available: nat) -> Result<(), MapToError> {
    map_result_at(mem, root, page, 4, frame, available)
}

/// What mapping `page` gives from the table in frame `table` at `level` down,
/// when `available` frames can be had.
pub open spec fn map_result_at(
    mem: PhysMemory,
    table: u64,
    page: u64,
    level: nat,
    frame: u64,
    available: nat,
) -> Result<(), MapToError> {
    match parent_walk(mem, table, page, level) {
        ParentWalk::Huge => Err(MapToError::ParentEntryHugePage),
        ParentWalk::Missing(n) => if n <= available {
            Ok(())
        } else {
            Err(MapToError::FrameAllocationFailed)
        },
        ParentWalk::Leaf(t) => if mem.entry(t, table_index(page, 1)) != 0 {
            Err(MapToError::PageAlreadyMapped(frame))
        } else {
            Ok(())
        },
    }
}

/// How many tables mapping `page` from `table` at `level` has to create.
pub open spec fn missing_at(mem: PhysMemory, table: u64, page: u64, level: nat) -> nat {
    match parent_walk(mem, table, page, level) {
        ParentWalk::Missing(n) => n,
        _ => 0,
    }
}

/// Entry `j` of the level-1 table that the walk for `page` reaches, or zero
/// where it reaches none.
pub open spec fn leaf_entry_at(mem: PhysMemory, table: u64, page: u64, level: nat, j: int) -> u64 {
    match parent_walk(mem, table, page, level) {
        ParentWalk::Leaf(t) => mem.entry(t, j),
        _ => 0,
    }
}

/// Flags that a level-1 entry may be written with: present, not huge, and
/// clear of the address bits.
pub open spec fn leaf_flags_ok(flags: u64) -> bool {
    &&& flags & 0x1u64 != 0
    &&& flags & 0x80u64 == 0
    &&& flags & 0x000f_ffff_ffff_f000u64 == 0
}

/// The page whose translation must be invalidated before a new mapping is in effect.
#[derive(Debug, Clone, Copy, PartialEq, Eq)]
pub struct MapperFlush {
    pub page: u64,
}

proof fn lemma_parent_flags(flags: u64, p: u64)
    requires
        flags & 0x1u64 != 0,
        p == flags & 0x7u64,
    ensures
        p & 0x1u64 != 0,
        p & 0x80u64 == 0,
        p & 0x000f_ffff_ffff_f000u64 == 0,
{
    assert(p & 0x1u64 != 0 && p & 0x80u64 == 0 && p & 0x000f_ffff_ffff_f000u64 == 0) by (bit_vector)
        requires
            flags & 0x1u64 != 0,
            p == flags & 0x7u64,
    ;
}

/// Adding flags to a used entry keeps its frame and hugeness and makes it present.
proof fn lemma_add_flags(e: u64, p: u64)
    requires
        p & 0x1u64 != 0,
        p & 0x80u64 == 0,
        p & 0x000f_ffff_ffff_f000u64 == 0,
    ensures
        entry_addr(e | p) == entry_addr(e),
        is_huge(e | p) == is_huge(e),
        is_present(e | p),
        e | p != 0,
{
    assert(((e | p) & 0x000f_ffff_ffff_f000u64) == (e & 0x000f_ffff_ffff_f000u64) && (((e | p)
        & 0x80u64) != 0) == ((e & 0x80u64) != 0) && (e | p) & 0x1u64 != 0 && e | p != 0)
        by (bit_vector)
        requires
            p & 0x1u64 != 0,
            p & 0x80u64 == 0,
            p & 0x000f_ffff_ffff_f000u64 == 0,
    ;
}

/// An entry made of an aligned frame and flags points to that frame.
proof fn lemma_frame_entry(f: u64, p: u64)
    requires
        f % 4096 == 0,
        f < 0x0010_0000_0000_0000,
        p & 0x1u64 != 0,
        p & 0x80u64 == 0,
        p & 0x000f_ffff_ffff_f000u64 == 0,
    ensures
        entry_addr(f | p) == f,
        !is_huge(f | p),
        is_present(f | p),
        f | p != 0,
{
    assert(f & 0xfffu64 == 0) by (bit_vector)
        requires
            f % 4096 == 0,
    ;
    assert(((f | p) & 0x000f_ffff_ffff_f000u64) == f && ((f | p) & 0x80u64) == 0 && (f | p)
        & 0x1u64 != 0 && f | p != 0) by (bit_vector)
        requires
            f & 0xfffu64 == 0,
            f < 0x0010_0000_0000_0000u64,
            p & 0x1u64 != 0,
            p & 0x80u64 == 0,
            p & 0x000f_ffff_ffff_f000u64 == 0,
    ;
}


proof fn lemma_present_nonzero(e: u64)
    requires
        is_present(e),
    ensures
        e != 0,
{
    assert(e & 0x1u64 != 0 ==> e != 0) by (bit_vector);
}

proof fn lemma_addr_bound(e: u64)
    ensures
        entry_addr(e) < PHYS_ADDR_LIMIT,
        entry_addr(e) % 4096 == 0,
{
    assert((e & 0x000f_ffff_ffff_f000u64) < 0x0010_0000_0000_0000u64 && (e
        & 0x000f_ffff_ffff_f000u64) % 4096 == 0) by (bit_vector);
}

/// A later value `n` of an entry whose earlier value was `o`: an unused entry
/// may take any value, a used one keeps its frame and hugeness and stays present.
pub open spec fn entry_kept(o: u64, n: u64) -> bool {
    o == 0 || (n != 0 && entry_addr(n) == entry_addr(o) && is_huge(n) == is_huge(o) && (
    is_present(o) ==> is_present(n)))
}

/// Every table of `old` is still in `new`, and each of its entries is kept.
pub open spec fn memory_grows(old: PhysMemory, new: PhysMemory) -> bool {
    forall|g: u64|
        #[trigger] old.holds(g) ==> new.holds(g) && forall|j: int|
            0 <= j < 512 ==> entry_kept(old.entry(g, j), #[trigger] new.entry(g, j))
}

proof fn lemma_memory_grows_trans(a: PhysMemory, b: PhysMemory, c: PhysMemory)
    requires
        memory_grows(a, b),
        memory_grows(b, c),
    ensures
        memory_grows(a, c),
{
    assert forall|g: u64| #[trigger] a.holds(g) implies c.holds(g) && forall|j: int|
        0 <= j < 512 ==> entry_kept(a.entry(g, j), #[trigger] c.entry(g, j)) by {
        assert forall|j: int| 0 <= j < 512 implies entry_kept(a.entry(g, j), #[trigger] c.entry(
            g,
            j,
        )) by {
            assert(entry_kept(a.entry(g, j), b.entry(g, j)));
            assert(entry_kept(b.entry(g, j), c.entry(g, j)));
        }
    }
}

/// A walk that reached a frame reaches the same frame after the memory grew.
proof fn lemma_walk_kept(old: PhysMemory, new: PhysMemory, t: u64, addr: u64, level: nat)
    requires
        memory_grows(old, new),
        walk(old, t, addr, level) is Mapped,
    ensures
        walk(new, t, addr, level) == walk(old, t, addr, level),
    decreases level,
{
    let i = table_index(addr, level);
    assert(0 <= i < 512);
    let e = old.entry(t, i);
    assert(e != 0) by {
        assert(e & 0x1u64 != 0);
        assert(0u64 & 0x1u64 == 0) by (bit_vector);
    }
    assert(old.holds(t));
    assert(entry_kept(e, new.entry(t, i)));
    if level > 1 {
        lemma_walk_kept(old, new, entry_addr(e), addr, (level - 1) as nat);
    }
}

/// The table hierarchy of one address space: the root table, the physical
/// memory that holds the tables, and the level of each table.
pub struct PageMapper {
    level_4_frame: u64,
    memory: PhysMemory,
    levels: Ghost<Map<u64, nat>>,
}

impl PageMapper {
    /// The frame of the root (level 4) table.
    pub closed spec fn root(&self) -> u64 {
        self.level_4_frame
    }

    pub closed spec fn memory(&self) -> PhysMemory {
        self.memory
    }

    /// The level of the table in frame `f`.
    pub closed spec fn level_of(&self, f: u64) -> nat {
        self.levels@[f]
    }

    /// The root is a level-4 table, and each used entry above level 1 that
    /// maps no huge page points to a table one level lower.
    pub closed spec fn wf(&self) -> bool {
        &&& self.memory.wf()
        &&& self.memory.holds(self.level_4_frame)
        &&& self.levels@[self.level_4_frame] == 4
        &&& forall|f: u64| #[trigger] self.memory.holds(f) ==> 1 <= self.levels@[f] <= 4
        &&& forall|f: u64, i: int|
            self.memory.holds(f) && self.levels@[f] >= 2 && 0 <= i < 512 && #[trigger] self.memory.entry(
                f,
                i,
            ) != 0 && !is_huge(self.memory.entry(f, i)) ==> self.memory.holds(
                entry_addr(self.memory.entry(f, i)),
            ) && self.levels@[entry_addr(self.memory.entry(f, i))] == self.levels@[f] - 1
    }

    /// The physical address that `addr` translates to.
    pub open spec fn translation_of(&self, addr: u64) -> Option<u64> {
        translation(self.memory(), self.root(), addr)
    }

    /// Frames that can become tables: distinct, aligned, addressable, and
    /// not holding a table already.
    pub open spec fn frames_fresh(&self, pending: Seq<u64>) -> bool {
        &&& forall|i: int, j: int| 0 <= i < j < pending.len() ==> pending[i] != pending[j]
        &&& forall|i: int|
            0 <= i < pending.len() ==> (#[trigger] pending[i]) % 4096 == 0 && pending[i]
                < PHYS_ADDR_LIMIT && !self.memory().holds(pending[i])
    }

    /// An address space whose root table, in frame `level_4_frame`, is empty.
    pub fn new(level_4_frame: u64) -> (r: Self)
        ensures
            r.wf(),
            r.root() == level_4_frame,
            forall|f: u64| r.memory().holds(f) == (f == level_4_frame),
            forall|f: u64, i: int| r.memory().entry(f, i) == 0,
    {
        let mut memory = PhysMemory::new();
        memory.add_table(level_4_frame);
        PageMapper {
            level_4_frame,
            memory,
            levels: Ghost(Map::empty().insert(level_4_frame, 4)),
        }
    }

    /// The physical address that `addr` translates to, or `None` where an
    /// entry on the way is not present.
    pub fn translate(&self, addr: u64) -> (r: Option<u64>)
        requires
            self.wf(),
            walk(self.memory(), self.root(), addr, 4) != Walk::Huge,
        ensures
            r == self.translation_of(addr),
    {
        let indexes: [usize; 4] = [p4_index(addr), p3_index(addr), p2_index(addr), p1_index(addr)];
        let ghost w = walk(self.memory, self.level_4_frame, addr, 4);
        let mut cur: u64 = self.level_4_frame;
        let mut j: usize = 0;
        while j < 4
            invariant
                j <= 4,
                self.memory.wf(),
                w == walk(self.memory, self.level_4_frame, addr, 4),
                w != Walk::Huge,
                forall|k: int| 0 <= k < 4 ==> #[trigger] indexes@[k] == table_index(addr, (4 - k) as nat),
                j < 4 ==> w == walk(self.memory, cur, addr, (4 - j) as nat),
                j == 4 ==> w == Walk::Mapped(cur) && cur < PHYS_ADDR_LIMIT,
            decreases 4 - j,
        {
            assert(indexes@[j as int] == table_index(addr, (4 - j) as nat));
            let e = self.memory.read_entry(cur, indexes[j]);
            if e & PRESENT == 0 {
                return None;
            }
            proof {
                lemma_addr_bound(e);
            }
            cur = e & ADDR_MASK;
            j = j + 1;
        }
        let off = page_offset(addr);
        Some(cur + off)
    }

    /// Follow entry `index` of `table` to the next table, creating a zeroed
    /// one from a fresh frame where the entry is unused.
    fn create_next_table<A: FrameAllocator>(
        &mut self,
        table: u64,
        index: usize,
        insert_flags: u64,
        allocator: &mut A,
    ) -> (r: Result<u64, MapToError>)
        requires
            old(self).wf(),
            old(self).memory().holds(table),
            old(self).level_of(table) >= 2,
            index < ENTRY_COUNT,
            insert_flags & 0x1u64 != 0,
            insert_flags & 0x80u64 == 0,
            insert_flags & 0x000f_ffff_ffff_f000u64 == 0,
            old(self).frames_fresh(old(allocator).pending()),
        ensures
            final(self).wf(),
            final(self).root() == old(self).root(),
            final(self).frames_fresh(final(allocator).pending()),
            memory_grows(old(self).memory(), final(self).memory()),
            forall|g: u64| #[trigger]
                old(self).memory().holds(g) ==> final(self).level_of(g) == old(self).level_of(g),
            forall|g: u64, j: int|
                old(self).memory().holds(g) && !(g == table && j == index) ==> #[trigger] final(self).memory().entry(g, j) == old(self).memory().entry(g, j),
            ({
                let e = old(self).memory().entry(table, index as int);
                let pending = old(allocator).pending();
                if e == 0 && pending.len() == 0 {
                    &&& r == Err::<u64, MapToError>(MapToError::FrameAllocationFailed)
                    &&& final(allocator).pending() == pending
                    &&& *final(self) == *old(self)
                } else if e == 0 {
                    &&& r == Ok::<u64, MapToError>(pending[0])
                    &&& final(allocator).pending() == pending.drop_first()
                    &&& forall|j: int| #[trigger] final(self).memory().entry(pending[0], j) == 0
                } else {
                    &&& final(allocator).pending() == pending
                    &&& r == if is_huge(e) {
                        Err::<u64, MapToError>(MapToError::ParentEntryHugePage)
                    } else {
                        Ok::<u64, MapToError>(entry_addr(e))
                    }
                }
            }),
            forall|g: u64| #[trigger]
                final(self).memory().holds(g) ==> old(self).memory().holds(g) || (old(
                    self,
                ).memory().entry(table, index as int) == 0 && old(allocator).pending().len() > 0
                    && g == old(allocator).pending()[0]),
            r matches Ok(t) ==> {
                &&& final(self).memory().holds(t)
                &&& final(self).level_of(t) == old(self).level_of(table) - 1
                &&& is_present(final(self).memory().entry(table, index as int))
                &&& !is_huge(final(self).memory().entry(table, index as int))
                &&& entry_addr(final(self).memory().entry(table, index as int)) == t
            },
    {
        let ghost pre = *self;
        let ghost pending = allocator.pending();
        let e = self.memory.read_entry(table, index);
        if e == 0 {
            match allocator.allocate_frame() {
                Some(f) => {
                    assert(pending[0] == f);
                    self.memory.add_table(f);
                    let ghost mid = self.memory;
                    let entry = f | insert_flags;
                    self.memory.write_entry(table, index, entry);
                    proof {
                        lemma_frame_entry(f, insert_flags);
                        self.levels = Ghost(self.levels@.insert(f, (pre.levels@[table] - 1) as nat));
                        assert(self.levels@[table] == pre.levels@[table]);
                        assert forall|g: u64, i: int|
                            self.memory.holds(g) && self.levels@[g] >= 2 && 0 <= i < 512
                                && #[trigger] self.memory.entry(g, i) != 0 && !is_huge(
                                self.memory.entry(g, i),
                            ) implies self.memory.holds(entry_addr(self.memory.entry(g, i)))
                            && self.levels@[entry_addr(self.memory.entry(g, i))]
                            == self.levels@[g] - 1 by {
                            if g == table && i == index {
                            } else if g == f {
                            } else {
                                assert(pre.memory.entry(g, i) == self.memory.entry(g, i));
                                let a = entry_addr(self.memory.entry(g, i));
                                assert(pre.memory.holds(a));
                            }
                        }
                        assert forall|g: u64| #[trigger]
                            self.memory.holds(g) implies 1 <= self.levels@[g] <= 4 by {
                            if g != f {
                                assert(pre.memory.holds(g));
                            }
                        }
                        let np = allocator.pending();
                        assert forall|i: int| 0 <= i < np.len() implies (#[trigger] np[i]) % 4096
                            == 0 && np[i] < PHYS_ADDR_LIMIT && !self.memory.holds(np[i]) by {
                            assert(np[i] == pending[i + 1]);
                            assert(pending[0] != pending[i + 1]);
                        }
                        assert forall|i: int, j: int| 0 <= i < j < np.len() implies np[i]
                            != np[j] by {
                            assert(np[i] == pending[i + 1] && np[j] == pending[j + 1]);
                        }
                        assert forall|g: u64| #[trigger] pre.memory.holds(g) implies self.memory.holds(
                            g,
                        ) && forall|j: int|
                            0 <= j < 512 ==> entry_kept(pre.memory.entry(g, j), #[trigger] self.memory.entry(g, j)) by {
                            assert(g != f);
                        }
                    }
                    Ok(f)
                },
                None => Err(MapToError::FrameAllocationFailed),
            }
        } else {
            let entry = e | insert_flags;
            self.memory.write_entry(table, index, entry);
            proof {
                lemma_add_flags(e, insert_flags);
                assert forall|g: u64, i: int|
                    self.memory.holds(g) && self.levels@[g] >= 2 && 0 <= i < 512
                        && #[trigger] self.memory.entry(g, i) != 0 && !is_huge(
                        self.memory.entry(g, i),
                    ) implies self.memory.holds(entry_addr(self.memory.entry(g, i)))
                    && self.levels@[entry_addr(self.memory.entry(g, i))] == self.levels@[g] - 1 by {
                    if g == table && i == index {
                        assert(pre.memory.entry(g, i) == e);
                    } else {
                        assert(pre.memory.entry(g, i) == self.memory.entry(g, i));
                    }
                }
                assert forall|g: u64| #[trigger] self.memory.holds(g) implies 1 <= self.levels@[g]
                    <= 4 by {
                    assert(pre.memory.holds(g));
                }
                assert forall|g: u64| #[trigger] pre.memory.holds(g) implies self.memory.holds(g)
                    && forall|j: int|
                    0 <= j < 512 ==> entry_kept(pre.memory.entry(g, j), #[trigger] self.memory.entry(g, j)) by {
                }
            }
            if e & HUGE_PAGE != 0 {
                Err(MapToError::ParentEntryHugePage)
            } else {
                Ok(e & ADDR_MASK)
            }
        }
    }

    /// Below a changed table, a walk of the tables above level 1 reads what it read before.
    proof fn lemma_walk_below(before: Self, after: Self, table: u64, x: u64, page: u64, l: nat)
        requires
            before.wf(),
            before.memory().holds(x),
            before.level_of(x) == l,
            1 <= l < before.level_of(table),
            forall|g: u64| #[trigger]
                before.memory().holds(g) ==> after.memory().holds(g) && after.level_of(g)
                    == before.level_of(g),
            forall|g: u64, j: int|
                before.memory().holds(g) && g != table ==> #[trigger] after.memory().entry(g, j)
                    == before.memory().entry(g, j),
        ensures
            parent_walk(after.memory(), x, page, l) == parent_walk(before.memory(), x, page, l),
            parent_walk(before.memory(), x, page, l) matches ParentWalk::Leaf(t1) ==> forall|j: int| #[trigger] after.memory().entry(t1, j) == before.memory().entry(t1, j),
        decreases l,
    {
        if l > 1 {
            let e = before.memory().entry(x, table_index(page, l));
            assert(after.memory().entry(x, table_index(page, l)) == e);
            if e != 0 && !is_huge(e) {
                assert(0 <= table_index(page, l) < 512);
                Self::lemma_walk_below(before, after, table, entry_addr(e), page, (l - 1) as nat);
            }
        }
    }

    /// One step of `map_to` leaves the outcome of the rest of the walk as it was.
    proof fn lemma_map_step(
        before: Self,
        after: Self,
        table: u64,
        page: u64,
        frame: u64,
        pb: Seq<u64>,
        pa: Seq<u64>,
        t: u64,
    )
        requires
            before.wf(),
            before.memory().holds(table),
            2 <= before.level_of(table) <= 4,
            before.frames_fresh(pb),
            forall|g: u64| #[trigger]
                before.memory().holds(g) ==> after.memory().holds(g) && after.level_of(g)
                    == before.level_of(g),
            forall|g: u64, j: int|
                before.memory().holds(g) && !(g == table && j == table_index(page, before.level_of(table))) ==> #[trigger] after.memory().entry(g, j) == before.memory().entry(g, j),
            ({
                let e = before.memory().entry(table, table_index(page, before.level_of(table)));
                if e == 0 {
                    &&& pb.len() > 0
                    &&& t == pb[0]
                    &&& pa == pb.drop_first()
                    &&& forall|j: int| #[trigger] after.memory().entry(pb[0], j) == 0
                } else {
                    &&& pa == pb
                    &&& !is_huge(e)
                    &&& t == entry_addr(e)
                }
            }),
        ensures
            map_result_at(before.memory(), table, page, before.level_of(table), frame, pb.len())
                == map_result_at(after.memory(), t, page, (before.level_of(table) - 1) as nat, frame, pa.len()),
            pa.len() <= pb.len(),
            missing_at(before.memory(), table, page, before.level_of(table)) == (pb.len() - pa.len()) + missing_at(after.memory(), t, page, (before.level_of(table) - 1) as nat),
            forall|j: int| #[trigger] leaf_entry_at(before.memory(), table, page, before.level_of(table), j) == leaf_entry_at(after.memory(), t, page, (before.level_of(table) - 1) as nat, j),
    {
        let l = before.level_of(table);
        let e = before.memory().entry(table, table_index(page, l));
        assert(0 <= table_index(page, l) < 512);
        if e != 0 {
            Self::lemma_walk_below(before, after, table, t, page, (l - 1) as nat);
        } else {
            assert forall|j: int| #[trigger] leaf_entry_at(before.memory(), table, page, l, j)
                == leaf_entry_at(after.memory(), t, page, (l - 1) as nat, j) by {
                assert(after.memory().entry(t, j) == 0);
            }
        }
    }

    /// Tables held by `after` but not by `before` came from `frames`.
    pub open spec fn new_tables_from(before: Self, after: Self, frames: Seq<u64>) -> bool {
        forall|g: u64| #[trigger]
            after.memory().holds(g) && !before.memory().holds(g) ==> frames.contains(g)
    }

    /// Tables held by `after` but not by `before` are zero but for the one
    /// entry that the walk for `page` uses at their level.
    pub open spec fn new_tables_clean(before: Self, after: Self, page: u64) -> bool {
        forall|g: u64, j: int|
            after.memory().holds(g) && !before.memory().holds(g) && 0 <= j < 512 && j
                != table_index(page, after.level_of(g)) ==> #[trigger] after.memory().entry(g, j)
                == 0
    }

    /// A step that writes only the entry the walk for `page` uses in `table`,
    /// and adds only zeroed tables, keeps the new tables clean.
    proof fn lemma_clean_step(s0: Self, s: Self, s2: Self, table: u64, page: u64)
        requires
            Self::new_tables_clean(s0, s, page),
            forall|g: u64| #[trigger] s0.memory().holds(g) ==> s.memory().holds(g),
            forall|g: u64| #[trigger]
                s.memory().holds(g) ==> s2.memory().holds(g) && s2.level_of(g) == s.level_of(g),
            forall|g: u64, j: int|
                s.memory().holds(g) && !(g == table && j == table_index(page, s.level_of(table)))
                    ==> #[trigger] s2.memory().entry(g, j) == s.memory().entry(g, j),
            forall|g: u64, j: int|
                s2.memory().holds(g) && !s.memory().holds(g) ==> #[trigger] s2.memory().entry(g, j)
                    == 0,
        ensures
            Self::new_tables_clean(s0, s2, page),
    {
        assert forall|g: u64, j: int|
            s2.memory().holds(g) && !s0.memory().holds(g) && 0 <= j < 512 && j != table_index(
                page,
                s2.level_of(g),
            ) implies #[trigger] s2.memory().entry(g, j) == 0 by {
            if s.memory().holds(g) {
                assert(s2.memory().entry(g, j) == s.memory().entry(g, j));
            }
        }
    }

    /// New tables that came from a suffix of `frames`, or from its rest,
    /// came from `frames`.
    proof fn lemma_new_from_step(s0: Self, s: Self, s2: Self, frames: Seq<u64>, rest: Seq<u64>, c: int)
        requires
            Self::new_tables_from(s0, s, frames),
            forall|g: u64| #[trigger] s0.memory().holds(g) ==> s.memory().holds(g),
            0 <= c <= frames.len(),
            rest == frames.subrange(c, frames.len() as int),
            forall|g: u64| #[trigger]
                s2.memory().holds(g) ==> s.memory().holds(g) || (rest.len() > 0 && g == rest[0]),
        ensures
            Self::new_tables_from(s0, s2, frames),
    {
        assert forall|g: u64| #[trigger] s2.memory().holds(g) && !s0.memory().holds(g) implies frames.contains(g) by {
            if !s.memory().holds(g) {
                assert(frames[c] == g);
            }
        }
    }

    /// One step of `map_to` keeps its new tables clean and drawn from `frames`.
    proof fn lemma_after_step(s0: Self, s: Self, s2: Self, table: u64, page: u64, frames: Seq<u64>, rest: Seq<u64>)
        requires
            Self::new_tables_clean(s0, s, page),
            Self::new_tables_from(s0, s, frames),
            forall|g: u64| #[trigger] s0.memory().holds(g) ==> s.memory().holds(g),
            rest.len() <= frames.len(),
            rest == frames.subrange(frames.len() - rest.len(), frames.len() as int),
            forall|g: u64| #[trigger]
                s.memory().holds(g) ==> s2.memory().holds(g) && s2.level_of(g) == s.level_of(g),
            forall|g: u64, j: int|
                s.memory().holds(g) && !(g == table && j == table_index(page, s.level_of(table)))
                    ==> #[trigger] s2.memory().entry(g, j) == s.memory().entry(g, j),
            forall|g: u64| #[trigger]
                s2.memory().holds(g) ==> s.memory().holds(g) || (rest.len() > 0 && g == rest[0]),
            (forall|g: u64| #[trigger] s2.memory().holds(g) ==> s.memory().holds(g)) || (rest.len()
                > 0 && forall|j: int| #[trigger] s2.memory().entry(rest[0], j) == 0),
        ensures
            Self::new_tables_clean(s0, s2, page),
            Self::new_tables_from(s0, s2, frames),
            forall|g: u64| #[trigger] s0.memory().holds(g) ==> s2.memory().holds(g),
    {
        assert forall|g: u64, j: int|
            s2.memory().holds(g) && !s.memory().holds(g) implies #[trigger] s2.memory().entry(g, j)
            == 0 by {
            assert(g == rest[0]);
        }
        Self::lemma_clean_step(s0, s, s2, table, page);
        Self::lemma_new_from_step(s0, s, s2, frames, rest, frames.len() - rest.len());
    }

    /// A used entry that maps no huge page leads the walk to the next table.
    proof fn lemma_walk_through(mem: PhysMemory, table: u64, page: u64, level: nat, next: u64)
        requires
            2 <= level <= 4,
            is_present(mem.entry(table, table_index(page, level))),
            !is_huge(mem.entry(table, table_index(page, level))),
            entry_addr(mem.entry(table, table_index(page, level))) == next,
        ensures
            parent_walk(mem, table, page, level) == parent_walk(mem, next, page, (level - 1) as nat),
            forall|j: int| #[trigger] leaf_entry_at(mem, table, page, level, j) == leaf_entry_at(mem, next, page, (level - 1) as nat, j),
    {
        lemma_present_nonzero(mem.entry(table, table_index(page, level)));
    }

    /// A used entry that maps a huge page ends the walk, before and after it
    /// is kept.
    proof fn lemma_huge_kept(a: PhysMemory, b: PhysMemory, table: u64, page: u64, level: nat)
        requires
            2 <= level <= 4,
            a.holds(table),
            memory_grows(a, b),
            a.entry(table, table_index(page, level)) != 0,
            is_huge(a.entry(table, table_index(page, level))),
        ensures
            forall|j: int| #[trigger] leaf_entry_at(b, table, page, level, j) == leaf_entry_at(a, table, page, level, j),
    {
        assert(0 <= table_index(page, level) < 512);
        assert(entry_kept(a.entry(table, table_index(page, level)), b.entry(table, table_index(page, level))));
    }

    /// Translations that existed survive a growth of the memory.
    proof fn lemma_translations_kept(before: Self, after: Self)
        requires
            memory_grows(before.memory(), after.memory()),
            before.root() == after.root(),
        ensures
            forall|a: u64| #[trigger]
                before.translation_of(a) is Some ==> after.translation_of(a)
                    == before.translation_of(a),
    {
        assert forall|a: u64| #[trigger] before.translation_of(a) is Some implies after.translation_of(a)
            == before.translation_of(a) by {
            lemma_walk_kept(before.memory(), after.memory(), before.root(), a, 4);
        }
    }

    /// Map `page` to `frame` with `flags`, creating the missing tables,
    /// empty, from frames of `allocator`. The returned page must be flushed
    /// from the translation cache before the mapping is in effect. A page
    /// mapped already, a huge page on the way, or a frame source that runs
    /// dry is returned as the error.
    #[verifier::spinoff_prover]
    #[verifier::rlimit(60)]
    pub fn map_to<A: FrameAllocator>(
        &mut self,
        page: u64,
        frame: u64,
        flags: u64,
        allocator: &mut A,
    ) -> (r: Result<MapperFlush, MapToError>)
        requires
            old(self).wf(),
            page % 4096 == 0,
            frame % 4096 == 0,
            frame < PHYS_ADDR_LIMIT,
            leaf_flags_ok(flags),
            old(self).frames_fresh(old(allocator).pending()),
        ensures
            final(self).wf(),
            final(self).root() == old(self).root(),
            final(self).frames_fresh(final(allocator).pending()),
            final(allocator).pending().len() <= old(allocator).pending().len(),
            final(allocator).pending() == old(allocator).pending().subrange(
                old(allocator).pending().len() - final(allocator).pending().len(),
                old(allocator).pending().len() as int,
            ),
            memory_grows(old(self).memory(), final(self).memory()),
            match r {
                Ok(fl) => fl.page == page && map_result(old(self).memory(), old(self).root(), page, frame, old(allocator).pending().len()) == Ok::<(), MapToError>(()),
                Err(e) => map_result(old(self).memory(), old(self).root(), page, frame, old(allocator).pending().len()) == Err::<(), MapToError>(e),
            },
            r is Ok ==> forall|off: u64|
                off < 4096 ==> #[trigger] final(self).translation_of((page + off) as u64) == Some(
                    (frame + off) as u64,
                ),
            r is Ok ==> final(allocator).pending().len() + missing_at(old(self).memory(), old(self).root(), page, 4) == old(allocator).pending().len(),
            r is Ok ==> parent_walk(final(self).memory(), final(self).root(), page, 4) is Leaf,
            r is Ok ==> leaf_entry_at(final(self).memory(), final(self).root(), page, 4, table_index(page, 1)) == frame | flags,
            r == Err::<MapperFlush, MapToError>(MapToError::FrameAllocationFailed) ==> final(allocator).pending().len() == 0,
            r is Ok ==> forall|j: int| j != table_index(page, 1) ==> #[trigger] leaf_entry_at(final(self).memory(), final(self).root(), page, 4, j) == leaf_entry_at(old(self).memory(), old(self).root(), page, 4, j),
            forall|a: u64| #[trigger]
                old(self).translation_of(a) is Some ==> final(self).translation_of(a) == old(
                    self,
                ).translation_of(a),
            Self::new_tables_from(*old(self), *final(self), old(allocator).pending()),
            Self::new_tables_clean(*old(self), *final(self), page),
            r is Err ==> forall|j: int| #[trigger] leaf_entry_at(final(self).memory(), final(self).root(), page, 4, j) == leaf_entry_at(old(self).memory(), old(self).root(), page, 4, j),
    {
        assert(0x1u64 | 0x2u64 | 0x4u64 == 0x7u64) by (bit_vector);
        let parent_flags = flags & (PRESENT | WRITABLE | USER_ACCESSIBLE);
        proof {
            lemma_parent_flags(flags, parent_flags);
        }
        let ghost s0 = *self;
        let ghost pend0 = allocator.pending();
        let root = self.level_4_frame;
        let i4 = p4_index(page);
        let i3 = p3_index(page);
        let i2 = p2_index(page);
        let i1 = p1_index(page);
        proof {
            assert(pend0 =~= pend0.subrange(0, pend0.len() as int));
        }
        let p3 = match self.create_next_table(root, i4, parent_flags, allocator) {
            Ok(t) => t,
            Err(e) => {
                proof {
                    Self::lemma_translations_kept(s0, *self);
                    Self::lemma_after_step(s0, s0, *self, root, page, pend0, pend0);
                    if s0.memory.entry(root, i4 as int) != 0 {
                        Self::lemma_huge_kept(s0.memory, self.memory, root, page, 4);
                    }
                }
                return Err(e);
            },
        };
        let ghost s1 = *self;
        let ghost pend1 = allocator.pending();
        proof {
            Self::lemma_after_step(s0, s0, s1, root, page, pend0, pend0);
            assert(pend1 =~= pend0.subrange(pend0.len() - pend1.len(), pend0.len() as int));
        }
        proof {
            Self::lemma_map_step(s0, s1, root, page, frame, pend0, pend1, p3);
        }
        let p2 = match self.create_next_table(p3, i3, parent_flags, allocator) {
            Ok(t) => t,
            Err(e) => {
                proof {
                    lemma_memory_grows_trans(s0.memory, s1.memory, self.memory);
                    Self::lemma_translations_kept(s0, *self);
                    Self::lemma_after_step(s0, s1, *self, p3, page, pend0, pend1);
                    Self::lemma_walk_through(s1.memory, root, page, 4, p3);
                    assert(self.memory.entry(root, i4 as int) == s1.memory.entry(root, i4 as int));
                    Self::lemma_walk_through(self.memory, root, page, 4, p3);
                    if s1.memory.entry(p3, i3 as int) != 0 {
                        Self::lemma_huge_kept(s1.memory, self.memory, p3, page, 3);
                    }
                }
                return Err(e);
            },
        };
        let ghost s2 = *self;
        let ghost pend2 = allocator.pending();
        proof {
            Self::lemma_map_step(s1, s2, p3, page, frame, pend1, pend2, p2);
            lemma_memory_grows_trans(s0.memory, s1.memory, s2.memory);
            Self::lemma_after_step(s0, s1, s2, p3, page, pend0, pend1);
            assert(pend2 =~= pend0.subrange(pend0.len() - pend2.len(), pend0.len() as int));
        }
        let p1 = match self.create_next_table(p2, i2, parent_flags, allocator) {
            Ok(t) => t,
            Err(e) => {
                proof {
                    lemma_memory_grows_trans(s0.memory, s2.memory, self.memory);
                    Self::lemma_translations_kept(s0, *self);
                    Self::lemma_after_step(s0, s2, *self, p2, page, pend0, pend2);
                    assert(s2.memory.entry(root, i4 as int) == s1.memory.entry(root, i4 as int));
                    Self::lemma_walk_through(s2.memory, root, page, 4, p3);
                    Self::lemma_walk_through(s2.memory, p3, page, 3, p2);
                    assert(self.memory.entry(root, i4 as int) == s2.memory.entry(root, i4 as int));
                    assert(self.memory.entry(p3, i3 as int) == s2.memory.entry(p3, i3 as int));
                    Self::lemma_walk_through(self.memory, root, page, 4, p3);
                    Self::lemma_walk_through(self.memory, p3, page, 3, p2);
                    if s2.memory.entry(p2, i2 as int) != 0 {
                        Self::lemma_huge_kept(s2.memory, self.memory, p2, page, 2);
                    }
                }
                return Err(e);
            },
        };
        let ghost s3 = *self;
        let ghost pend3 = allocator.pending();
        proof {
            Self::lemma_map_step(s2, s3, p2, page, frame, pend2, allocator.pending(), p1);
            lemma_memory_grows_trans(s0.memory, s2.memory, s3.memory);
            Self::lemma_after_step(s0, s2, s3, p2, page, pend0, pend2);
            assert(pend3 =~= pend0.subrange(pend0.len() - pend3.len(), pend0.len() as int));
        }
        let e = self.memory.read_entry(p1, i1);
        if e != 0 {
            proof {
                Self::lemma_translations_kept(s0, *self);
                assert(s3.memory.entry(root, i4 as int) == s1.memory.entry(root, i4 as int));
                assert(s3.memory.entry(p3, i3 as int) == s2.memory.entry(p3, i3 as int));
                Self::lemma_walk_through(s3.memory, root, page, 4, p3);
                Self::lemma_walk_through(s3.memory, p3, page, 3, p2);
                Self::lemma_walk_through(s3.memory, p2, page, 2, p1);
            }
            return Err(MapToError::PageAlreadyMapped(frame));
        }
        self.memory.write_entry(p1, i1, frame | flags);
        proof {
            Self::lemma_after_step(s0, s3, *self, p1, page, pend0, pend3);
        }
        proof {
            lemma_frame_entry(frame, flags);
            assert forall|g: u64, i: int|
                self.memory.holds(g) && self.levels@[g] >= 2 && 0 <= i < 512
                    && #[trigger] self.memory.entry(g, i) != 0 && !is_huge(
                    self.memory.entry(g, i),
                ) implies self.memory.holds(entry_addr(self.memory.entry(g, i)))
                && self.levels@[entry_addr(self.memory.entry(g, i))] == self.levels@[g] - 1 by {
                assert(g != p1);
                assert(s3.memory.entry(g, i) == self.memory.entry(g, i));
            }
            assert forall|g: u64| #[trigger] s3.memory.holds(g) implies self.memory.holds(g)
                && forall|j: int|
                0 <= j < 512 ==> entry_kept(s3.memory.entry(g, j), #[trigger] self.memory.entry(g, j)) by {
            }
            lemma_memory_grows_trans(s0.memory, s3.memory, self.memory);
            assert forall|off: u64| off < 4096 implies #[trigger] self.translation_of((page + off) as u64)
                == Some((frame + off) as u64) by {
                let a = (page + off) as u64;
                assert(page_number(a) == page_number(page)) by (nonlinear_arith)
                    requires
                        page % 4096 == 0,
                        off < 4096,
                        a == page + off,
                ;
                assert(a % 4096 == off) by (nonlinear_arith)
                    requires
                        page % 4096 == 0,
                        off < 4096,
                        a == page + off,
                ;
                assert(self.memory.entry(root, i4 as int) == s1.memory.entry(root, i4 as int));
                assert(self.memory.entry(p3, i3 as int) == s2.memory.entry(p3, i3 as int));
                assert(self.memory.entry(p2, i2 as int) == s3.memory.entry(p2, i2 as int));
                assert(walk(self.memory, p1, a, 1) == Walk::Mapped(frame));
                assert(walk(self.memory, p2, a, 2) == Walk::Mapped(frame));
                assert(walk(self.memory, p3, a, 3) == Walk::Mapped(frame));
            }
            Self::lemma_translations_kept(s0, *self);
            assert(self.memory.entry(root, i4 as int) == s1.memory.entry(root, i4 as int));
            assert(self.memory.entry(p3, i3 as int) == s2.memory.entry(p3, i3 as int));
            assert(self.memory.entry(p2, i2 as int) == s3.memory.entry(p2, i2 as int));
            lemma_present_nonzero(self.memory.entry(root, i4 as int));
            lemma_present_nonzero(self.memory.entry(p3, i3 as int));
            lemma_present_nonzero(self.memory.entry(p2, i2 as int));
            assert(parent_walk(self.memory, p1, page, 1) == ParentWalk::Leaf(p1));
            assert(parent_walk(self.memory, p2, page, 2) == ParentWalk::Leaf(p1));
            assert(parent_walk(self.memory, p3, page, 3) == ParentWalk::Leaf(p1));
            assert(parent_walk(self.memory, root, page, 4) == ParentWalk::Leaf(p1));
            assert forall|j: int| j != table_index(page, 1) implies #[trigger] leaf_entry_at(self.memory, root, page, 4, j)
                == leaf_entry_at(s0.memory, root, page, 4, j) by {
                assert(leaf_entry_at(s0.memory, root, page, 4, j) == leaf_entry_at(s1.memory, p3, page, 3, j));
                assert(leaf_entry_at(s1.memory, p3, page, 3, j) == leaf_entry_at(s2.memory, p2, page, 2, j));
                assert(leaf_entry_at(s2.memory, p2, page, 2, j) == leaf_entry_at(s3.memory, p1, page, 1, j));
            }
        }
        Ok(MapperFlush { page })
    }
}

} // verus!
