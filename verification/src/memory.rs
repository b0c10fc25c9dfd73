//! Physical frames, the memory map that says which of them are free, and the suppliers
//! that hand them out.
//!
//! `BootInfoFrameAllocator` works before there is a heap: its record of frames is a table
//! of fixed size. Frames that the table has no room for are left out.

use crate::allocator::{lemma_round_up, lemma_round_up_least, round_up};
use vstd::arithmetic::div_mod::{lemma_fundamental_div_mod, lemma_mod_decreases};
use vstd::prelude::*;

verus! {

/// Bytes in a frame.
pub const FRAME_SIZE: u64 = 4096;

/// How many frames `BootInfoFrameAllocator` records at most.
pub const SIZE_USABLE_FRAMES: usize = 32007;

/// A frame of physical memory, known by the address of its first byte, which is a
/// multiple of `FRAME_SIZE`.
#[derive(Clone, Copy, Debug, PartialEq, Eq)]
pub struct PhysicalFrame {
    start_address: u64,
}

impl PhysicalFrame {
    /// The address of the first byte, in specifications.
    pub closed spec fn spec_start_address(&self) -> u64 {
        self.start_address
    }

    /// What holds of every frame.
    #[verifier::type_invariant]
    pub open spec fn valid(self) -> bool {
        self.spec_start_address() % FRAME_SIZE == 0
    }

    /// The frame in which `address` lies.
    pub fn containing_address(address: u64) -> (frame: Self)
        ensures
            frame.start_address() == address - address % FRAME_SIZE,
    {
        proof {
            lemma_fundamental_div_mod(address as int, FRAME_SIZE as int);
            lemma_mod_decreases(address as nat, FRAME_SIZE as nat);
            vstd::arithmetic::div_mod::lemma_mod_multiples_basic(
                address as int / (FRAME_SIZE as int),
                FRAME_SIZE as int,
            );
        }
        Self { start_address: address - address % FRAME_SIZE }
    }

    /// The address of the first byte.
    #[verifier::when_used_as_spec(spec_start_address)]
    pub fn start_address(&self) -> (address: u64)
        ensures
            address == self.spec_start_address(),
    {
        self.start_address
    }
}

/// The index of the entry that leads to `addr` in the page table of level `level`, for
/// the levels from 1 to 4. Each table has 512 entries, and the lowest 12 bits of an
/// address are the place in its page.
pub open spec fn table_index(addr: u64, level: int) -> int {
    if level == 4 {
        (addr as int / 0x80_0000_0000) % 512
    } else if level == 3 {
        (addr as int / 0x4000_0000) % 512
    } else if level == 2 {
        (addr as int / 0x20_0000) % 512
    } else {
        (addr as int / 0x1000) % 512
    }
}

/// The virtual addresses of the four page tables that map `addr`, from level 4 down to
/// level 1, where the last entry of the table of level 4 leads to that table itself.
///
/// Through that entry the walk of the page tables ends one table early for every time
/// it is taken: the address of a table has index 511 in front, and behind it the
/// indexes that lead from the table of level 4 to it.
pub fn recursive_virt_addr(addr: u64) -> (tables: [u64; 4])
    ensures
        tables[0] == 0xffff_ffff_ffff_f000,
        tables[1] == 0xffff_ffff_ffe0_0000 + 0x1000 * table_index(addr, 4),
        tables[2] == 0xffff_ffff_c000_0000 + 0x20_0000 * table_index(addr, 4) + 0x1000
            * table_index(addr, 3),
        tables[3] == 0xffff_ff80_0000_0000 + 0x4000_0000 * table_index(addr, 4) + 0x20_0000
            * table_index(addr, 3) + 0x1000 * table_index(addr, 2),
{
    let r: u64 = 0o777;
    let sign: u64 = 0o177777 << 48;
    let l4_idx: u64 = (addr >> 39) & r;
    let l3_idx: u64 = (addr >> 30) & r;
    let l2_idx: u64 = (addr >> 21) & r;
    let level_4_table_addr: u64 = sign | (r << 39) | (r << 30) | (r << 21) | (r << 12);
    let level_3_table_addr: u64 = sign | (r << 39) | (r << 30) | (r << 21) | (l4_idx << 12);
    let level_2_table_addr: u64 = sign | (r << 39) | (r << 30) | (l4_idx << 21) | (l3_idx << 12);
    let level_1_table_addr: u64 = sign | (r << 39) | (l4_idx << 30) | (l3_idx << 21) | (l2_idx
        << 12);
    assert(l4_idx == (addr / 0x80_0000_0000) % 512 && l3_idx == (addr / 0x4000_0000) % 512
        && l2_idx == (addr / 0x20_0000) % 512) by (bit_vector)
        requires
            r == 0o777,
            l4_idx == (addr >> 39) & r,
            l3_idx == (addr >> 30) & r,
            l2_idx == (addr >> 21) & r,
    ;
    assert(level_4_table_addr == 0xffff_ffff_ffff_f000 && level_3_table_addr
        == 0xffff_ffff_ffe0_0000 + 0x1000 * l4_idx && level_2_table_addr == 0xffff_ffff_c000_0000
        + 0x20_0000 * l4_idx + 0x1000 * l3_idx && level_1_table_addr == 0xffff_ff80_0000_0000
        + 0x4000_0000 * l4_idx + 0x20_0000 * l3_idx + 0x1000 * l2_idx) by (bit_vector)
        requires
            r == 0o777,
            sign == 0o177777u64 << 48,
            l4_idx < 512,
            l3_idx < 512,
            l2_idx < 512,
            level_4_table_addr == sign | (r << 39) | (r << 30) | (r << 21) | (r << 12),
            level_3_table_addr == sign | (r << 39) | (r << 30) | (r << 21) | (l4_idx << 12),
            level_2_table_addr == sign | (r << 39) | (r << 30) | (l4_idx << 21) | (l3_idx << 12),
            level_1_table_addr == sign | (r << 39) | (l4_idx << 30) | (l3_idx << 21) | (l2_idx
                << 12),
    ;
    [level_4_table_addr, level_3_table_addr, level_2_table_addr, level_1_table_addr]
}

/// What a range of physical memory is used for, as far as the suppliers care.
#[derive(Clone, Copy, Debug, PartialEq, Eq)]
pub enum MemoryRegionType {
    /// Free memory.
    Usable,
    /// Memory that must not be touched.
    Reserved,
    /// Memory in any other use.
    Other,
}

/// An entry of the memory map: the physical addresses from `start_addr` up to, and
/// without, `end_addr`, and what they are used for.
#[derive(Clone, Copy, Debug, PartialEq, Eq)]
pub struct MemoryRegion {
    pub start_addr: u64,
    pub end_addr: u64,
    pub region_type: MemoryRegionType,
}

/// The multiples of `FRAME_SIZE` from `addr` up to, and without, `end`, in ascending
/// order, where `addr` is one of them.
pub open spec fn frames_from(addr: int, end: int) -> Seq<int>
    decreases (if addr < end {
            end - addr
        } else {
            0
        }),
{
    if addr < end {
        seq![addr] + frames_from(addr + FRAME_SIZE, end)
    } else {
        Seq::empty()
    }
}

/// The addresses of the frames that lie in `region`, in ascending order, where the
/// region is usable; none where it is not.
pub open spec fn region_frames(region: MemoryRegion) -> Seq<int> {
    if region.region_type is Usable {
        frames_from(round_up(region.start_addr as int, FRAME_SIZE as int), region.end_addr as int)
    } else {
        Seq::empty()
    }
}

/// The addresses of the frames that lie in the usable regions of `memory_map`: region by
/// region in the order of the map, and in ascending order within a region.
pub open spec fn usable_frames(memory_map: Seq<MemoryRegion>) -> Seq<int>
    decreases memory_map.len(),
{
    if memory_map.len() == 0 {
        Seq::empty()
    } else {
        usable_frames(memory_map.drop_last()) + region_frames(memory_map.last())
    }
}

/// The frames of which a supplier made from `memory_map` keeps a record: the first
/// `SIZE_USABLE_FRAMES` usable frames.
pub open spec fn recorded_frames(memory_map: Seq<MemoryRegion>) -> Seq<int> {
    let all = usable_frames(memory_map);
    if all.len() > SIZE_USABLE_FRAMES {
        all.take(SIZE_USABLE_FRAMES as int)
    } else {
        all
    }
}

/// Whether no two usable regions of `memory_map` share a byte.
pub open spec fn usable_regions_disjoint(memory_map: Seq<MemoryRegion>) -> bool {
    forall|i: int, j: int|
        0 <= i < j < memory_map.len() && (#[trigger] memory_map[i]).region_type is Usable
            && (#[trigger] memory_map[j]).region_type is Usable ==> memory_map[i].end_addr
            <= memory_map[j].start_addr || memory_map[j].end_addr <= memory_map[i].start_addr
}

/// The `k`-th of the frames from `addr` lies `k` frames behind `addr`, before `end`.
pub proof fn lemma_frames_from(addr: int, end: int, k: int)
    requires
        0 <= k < frames_from(addr, end).len(),
    ensures
        frames_from(addr, end)[k] == addr + FRAME_SIZE * k,
        addr + FRAME_SIZE * k < end,
    decreases k,
{
    if k > 0 {
        lemma_frames_from(addr + FRAME_SIZE, end, k - 1);
    }
}

/// As long as the frame `k` frames behind `addr` starts before `end`, it is among the
/// frames from `addr`.
pub proof fn lemma_frames_from_len(addr: int, end: int, k: int)
    requires
        0 <= k,
        addr + FRAME_SIZE * k < end,
    ensures
        k < frames_from(addr, end).len(),
    decreases k,
{
    if k > 0 {
        lemma_frames_from_len(addr + FRAME_SIZE, end, k - 1);
    }
}

/// Every frame of a region is a multiple of `FRAME_SIZE` inside the region, and they
/// ascend.
pub proof fn lemma_region_frames(region: MemoryRegion, k: int)
    requires
        0 <= k < region_frames(region).len(),
    ensures
        region.region_type is Usable,
        region_frames(region)[k] % (FRAME_SIZE as int) == 0,
        region.start_addr <= region_frames(region)[k] < region.end_addr,
        region_frames(region)[k] == region_frames(region)[0] + FRAME_SIZE * k,
{
    let first = round_up(region.start_addr as int, FRAME_SIZE as int);
    lemma_round_up(region.start_addr as int, FRAME_SIZE as int);
    lemma_frames_from(first, region.end_addr as int, k);
    lemma_frames_from(first, region.end_addr as int, 0);
    lemma_fundamental_div_mod(first, FRAME_SIZE as int);
    let q = first / (FRAME_SIZE as int);
    assert(first + FRAME_SIZE * k == (q + k) * FRAME_SIZE) by (nonlinear_arith)
        requires
            first == FRAME_SIZE * q,
    ;
    vstd::arithmetic::div_mod::lemma_mod_multiples_basic(q + k, FRAME_SIZE as int);
}

/// Every multiple of `FRAME_SIZE` from `addr` up to `end` is among the frames from
/// `addr`.
proof fn lemma_frames_from_complete(addr: int, end: int, x: int)
    requires
        addr % (FRAME_SIZE as int) == 0,
        x % (FRAME_SIZE as int) == 0,
        addr <= x < end,
    ensures
        frames_from(addr, end).contains(x),
    decreases end - addr,
{
    let all = frames_from(addr, end);
    if x == addr {
        assert(all[0] == x);
    } else {
        // the next multiple behind `addr` is `addr + FRAME_SIZE`, so `x` is not below it
        let next = addr + FRAME_SIZE;
        lemma_round_up(addr + 1, FRAME_SIZE as int);
        lemma_round_up_least(addr + 1, FRAME_SIZE as int, x);
        assert(round_up(addr + 1, FRAME_SIZE as int) == next) by {
            lemma_fundamental_div_mod(addr, FRAME_SIZE as int);
            lemma_fundamental_div_mod(addr + 1, FRAME_SIZE as int);
            let q = addr / (FRAME_SIZE as int);
            vstd::arithmetic::div_mod::lemma_fundamental_div_mod_converse(
                addr + 1,
                FRAME_SIZE as int,
                q,
                1,
            );
        }
        lemma_frames_from_complete(next, end, x);
        let rest = frames_from(next, end);
        let k = choose|k: int| 0 <= k < rest.len() && rest[k] == x;
        assert(all[k + 1] == x);
    }
}

/// Every multiple of `FRAME_SIZE` inside a usable region is one of its frames.
pub proof fn lemma_region_frames_complete(region: MemoryRegion, x: int)
    requires
        region.region_type is Usable,
        x % (FRAME_SIZE as int) == 0,
        region.start_addr <= x < region.end_addr,
    ensures
        region_frames(region).contains(x),
{
    let first = round_up(region.start_addr as int, FRAME_SIZE as int);
    lemma_round_up(region.start_addr as int, FRAME_SIZE as int);
    lemma_round_up_least(region.start_addr as int, FRAME_SIZE as int, x);
    lemma_frames_from_complete(first, region.end_addr as int, x);
}

/// The usable frames of the first `i + 1` regions are those of the first `i`, followed
/// by those of region `i`.
pub proof fn lemma_usable_frames_step(memory_map: Seq<MemoryRegion>, i: int)
    requires
        0 <= i < memory_map.len(),
    ensures
        usable_frames(memory_map.take(i + 1)) == usable_frames(memory_map.take(i))
            + region_frames(memory_map[i]),
{
    let longer = memory_map.take(i + 1);
    assert(longer.drop_last() =~= memory_map.take(i));
    assert(longer.last() == memory_map[i]);
}

/// The usable frames of the first `i` regions stand at the front of the usable frames
/// of all regions.
pub proof fn lemma_usable_frames_prefix(memory_map: Seq<MemoryRegion>, i: int)
    requires
        0 <= i <= memory_map.len(),
    ensures
        usable_frames(memory_map.take(i)).len() <= usable_frames(memory_map).len(),
        usable_frames(memory_map.take(i)) == usable_frames(memory_map).take(
            usable_frames(memory_map.take(i)).len() as int,
        ),
    decreases memory_map.len() - i,
{
    if i == memory_map.len() {
        assert(memory_map.take(i) =~= memory_map);
        assert(usable_frames(memory_map).take(usable_frames(memory_map).len() as int)
            =~= usable_frames(memory_map));
    } else {
        lemma_usable_frames_step(memory_map, i);
        lemma_usable_frames_prefix(memory_map, i + 1);
        let short = usable_frames(memory_map.take(i));
        let longer = usable_frames(memory_map.take(i + 1));
        let all = usable_frames(memory_map);
        assert(short =~= all.take(short.len() as int)) by {
            assert(longer == all.take(longer.len() as int));
            assert forall|k: int| 0 <= k < short.len() implies short[k] == all[k] by {
                assert(longer[k] == short[k]);
                assert(all.take(longer.len() as int)[k] == all[k]);
            }
        }
    }
}

/// Every usable frame lies in a usable region of the map, at a multiple of `FRAME_SIZE`.
pub proof fn lemma_usable_frames_origin(memory_map: Seq<MemoryRegion>, n: int) -> (origin: (
    int,
    int,
))
    requires
        0 <= n < usable_frames(memory_map).len(),
    ensures
        0 <= origin.0 < memory_map.len(),
        0 <= origin.1 < region_frames(memory_map[origin.0]).len(),
        usable_frames(memory_map)[n] == region_frames(memory_map[origin.0])[origin.1],
        origin.0 == memory_map.len() - 1 <==> n >= usable_frames(memory_map.drop_last()).len(),
        origin.0 == memory_map.len() - 1 ==> origin.1 == n - usable_frames(
            memory_map.drop_last(),
        ).len(),
    decreases memory_map.len(),
{
    let front = usable_frames(memory_map.drop_last());
    if n < front.len() {
        let origin = lemma_usable_frames_origin(memory_map.drop_last(), n);
        origin
    } else {
        ((memory_map.len() - 1) as int, n - front.len())
    }
}

/// Where no two usable regions share a byte, no address stands twice among the usable
/// frames.
pub proof fn lemma_usable_frames_distinct(memory_map: Seq<MemoryRegion>, m: int, n: int)
    requires
        usable_regions_disjoint(memory_map),
        0 <= m < n < usable_frames(memory_map).len(),
    ensures
        usable_frames(memory_map)[m] != usable_frames(memory_map)[n],
    decreases memory_map.len(),
{
    let front_map = memory_map.drop_last();
    let front = usable_frames(front_map);
    let last = memory_map.last();
    if n < front.len() {
        assert(usable_regions_disjoint(front_map)) by {
            assert forall|i: int, j: int|
                0 <= i < j < front_map.len() && (#[trigger] front_map[i]).region_type is Usable
                    && (#[trigger] front_map[j]).region_type is Usable implies front_map[i].end_addr
                <= front_map[j].start_addr || front_map[j].end_addr <= front_map[i].start_addr by {
                assert(front_map[i] == memory_map[i]);
                assert(front_map[j] == memory_map[j]);
            }
        }
        lemma_usable_frames_distinct(front_map, m, n);
    } else if m >= front.len() {
        lemma_region_frames(last, m - front.len());
        lemma_region_frames(last, n - front.len());
        assert(FRAME_SIZE * (m - front.len()) < FRAME_SIZE * (n - front.len())) by (nonlinear_arith)
            requires
                m < n,
        ;
    } else {
        let origin = lemma_usable_frames_origin(front_map, m);
        assert(front_map[origin.0] == memory_map[origin.0]);
        lemma_region_frames(memory_map[origin.0], origin.1);
        lemma_region_frames(last, n - front.len());
    }
}

/// The state of a frame supplier: the addresses of the frames on record, and how many
/// of them have been handed out.
#[verifier::ext_equal]
pub struct FrameSupplierView {
    /// The addresses of the recorded frames, in the order in which they are handed out.
    pub frames: Seq<int>,
    /// The cursor: the place of the frame that is handed out next.
    pub next: nat,
}

impl FrameSupplierView {
    /// What the next request returns: the frame at the cursor, or nothing once every
    /// recorded frame has been handed out.
    pub open spec fn allocate_result(self) -> Option<int> {
        if self.next < self.frames.len() {
            Some(self.frames[self.next as int])
        } else {
            None
        }
    }

    /// The state after a request: the cursor has moved on by one, unless every recorded
    /// frame had been handed out.
    pub open spec fn allocate(self) -> FrameSupplierView {
        if self.next < self.frames.len() {
            FrameSupplierView { next: self.next + 1, ..self }
        } else {
            self
        }
    }

    /// The state after `n` requests.
    pub open spec fn after(self, n: nat) -> FrameSupplierView
        decreases n,
    {
        if n == 0 {
            self
        } else {
            self.after((n - 1) as nat).allocate()
        }
    }

    /// Whether no address stands twice on record.
    pub open spec fn distinct(self) -> bool {
        forall|i: int, j: int|
            0 <= i < j < self.frames.len() ==> #[trigger] self.frames[i] != #[trigger] self.frames[j]
    }

    /// Requests move the cursor forward by one each, until it stands behind the record.
    pub proof fn lemma_after(self, n: nat)
        requires
            self.next <= self.frames.len(),
        ensures
            self.after(n).frames == self.frames,
            self.after(n).next == if self.next + n <= self.frames.len() {
                self.next + n
            } else {
                self.frames.len()
            },
        decreases n,
    {
        if n > 0 {
            self.lemma_after((n - 1) as nat);
        }
    }

    /// No address is handed out twice: of two different requests that both succeed, each
    /// gets a frame of its own.
    pub proof fn lemma_issued_once(self, m: nat, n: nat)
        requires
            self.next <= self.frames.len(),
            self.distinct(),
            m != n,
            self.after(m).allocate_result() is Some,
            self.after(n).allocate_result() is Some,
        ensures
            self.after(m).allocate_result() != self.after(n).allocate_result(),
    {
        self.lemma_after(m);
        self.lemma_after(n);
    }

    /// Once a request has failed, every later one fails.
    pub proof fn lemma_exhausted(self, m: nat, n: nat)
        requires
            self.next <= self.frames.len(),
            m <= n,
            self.after(m).allocate_result() is None,
        ensures
            self.after(n).allocate_result() is None,
            self.after(n) == self.after(m),
    {
        self.lemma_after(m);
        self.lemma_after(n);
    }
}

/// The state of a supplier right after it was made from `memory_map`.
pub open spec fn initial_supplier(memory_map: Seq<MemoryRegion>) -> FrameSupplierView {
    FrameSupplierView { frames: recorded_frames(memory_map), next: 0 }
}

/// Where no two usable regions of the map share a byte, no address stands twice on the
/// record of a supplier made from it.
pub proof fn lemma_record_distinct(memory_map: Seq<MemoryRegion>)
    requires
        usable_regions_disjoint(memory_map),
    ensures
        initial_supplier(memory_map).distinct(),
{
    let frames = recorded_frames(memory_map);
    assert forall|i: int, j: int| 0 <= i < j < frames.len() implies #[trigger] frames[i]
        != #[trigger] frames[j] by {
        lemma_usable_frames_distinct(memory_map, i, j);
    }
}

/// A supplier made from a map whose usable regions share no byte hands out no address
/// twice: of two different requests that both succeed, each gets a frame of its own.
pub proof fn lemma_supplier_issues_once(memory_map: Seq<MemoryRegion>, m: nat, n: nat)
    requires
        usable_regions_disjoint(memory_map),
        m != n,
        initial_supplier(memory_map).after(m).allocate_result() is Some,
        initial_supplier(memory_map).after(n).allocate_result() is Some,
    ensures
        initial_supplier(memory_map).after(m).allocate_result() != initial_supplier(
            memory_map,
        ).after(n).allocate_result(),
{
    lemma_record_distinct(memory_map);
    initial_supplier(memory_map).lemma_issued_once(m, n);
}

/// A frame supplier made from the memory map that the boot loader hands over. It makes a
/// record of the usable frames once, in a table of fixed size, and hands them out one by
/// one. A frame never comes back.
pub struct BootInfoFrameAllocator {
    next: usize,
    available_frames: [Option<PhysicalFrame>; SIZE_USABLE_FRAMES],
    recorded: usize,
    truncated: bool,
}

/// The addresses of the first `count` frames of `table`.
pub open spec fn addresses(table: Seq<Option<PhysicalFrame>>, count: int) -> Seq<int> {
    Seq::new(count as nat, |i: int| table[i]->0.start_address() as int)
}

impl View for BootInfoFrameAllocator {
    type V = FrameSupplierView;

    closed spec fn view(&self) -> FrameSupplierView {
        FrameSupplierView {
            frames: addresses(self.available_frames@, self.recorded as int),
            next: self.next as nat,
        }
    }
}

/// The first multiple of `FRAME_SIZE` that is not below `addr`, if `u64` holds it.
fn first_frame_from(addr: u64) -> (first: Option<u64>)
    ensures
        match first {
            Some(a) => a == round_up(addr as int, FRAME_SIZE as int),
            None => round_up(addr as int, FRAME_SIZE as int) > u64::MAX,
        },
{
    let remainder: u64 = addr % FRAME_SIZE;
    proof {
        lemma_mod_decreases(addr as nat, FRAME_SIZE as nat);
    }
    if remainder == 0 {
        Some(addr)
    } else {
        (addr - remainder).checked_add(FRAME_SIZE)
    }
}

/// Whether the first `count` places of `table` hold a frame each.
pub open spec fn filled(table: Seq<Option<PhysicalFrame>>, count: int) -> bool {
    forall|i: int| 0 <= i < count ==> (#[trigger] table[i]) is Some
}

/// Adds the frames of `region` to the `count` frames in `table`, as far as the table has
/// room. Returns how many frames the table holds then, and whether a frame was left out.
fn record_region(
    table: &mut [Option<PhysicalFrame>; SIZE_USABLE_FRAMES],
    count: usize,
    region: &MemoryRegion,
) -> (end: (usize, bool))
    requires
        count <= SIZE_USABLE_FRAMES,
        filled(old(table)@, count as int),
    ensures
        count <= end.0 <= SIZE_USABLE_FRAMES,
        filled(final(table)@, end.0 as int),
        end.1 == ((addresses(old(table)@, count as int) + region_frames(*region)).len()
            > SIZE_USABLE_FRAMES),
        addresses(final(table)@, end.0 as int) == if end.1 {
            (addresses(old(table)@, count as int) + region_frames(*region)).take(
                SIZE_USABLE_FRAMES as int,
            )
        } else {
            addresses(old(table)@, count as int) + region_frames(*region)
        },
{
    let ghost before = addresses(table@, count as int);
    let ghost all = before + region_frames(*region);
    match region.region_type {
        MemoryRegionType::Usable => {},
        _ => {
            assert(all =~= before);
            return (count, false);
        },
    }
    let end: u64 = region.end_addr;
    let mut addr: u64 = match first_frame_from(region.start_addr) {
        Some(first) => first,
        None => {
            assert(all =~= before);
            return (count, false);
        },
    };
    let mut n: usize = count;
    proof {
        lemma_round_up(region.start_addr as int, FRAME_SIZE as int);
        assert(addresses(table@, n as int) + frames_from(addr as int, end as int) =~= all);
    }
    while addr < end
        invariant
            count <= n <= SIZE_USABLE_FRAMES,
            filled(table@, n as int),
            all == addresses(old(table)@, count as int) + region_frames(*region),
            addr as int % (FRAME_SIZE as int) == 0,
            all == addresses(table@, n as int) + frames_from(addr as int, end as int),
        decreases (if addr < end {
                end - addr
            } else {
                0
            }),
    {
        let ghost done = addresses(table@, n as int);
        let ghost rest = frames_from(addr as int, end as int);
        if n >= SIZE_USABLE_FRAMES {
            assert(rest[0] == addr);
            assert(all.take(SIZE_USABLE_FRAMES as int) =~= done);
            return (n, true);
        }
        let frame = PhysicalFrame::containing_address(addr);
        table[n] = Some(frame);
        n += 1;
        proof {
            let later = frames_from(addr + FRAME_SIZE, end as int);
            assert(rest =~= seq![addr as int] + later);
            assert(addresses(table@, n as int) =~= done.push(addr as int));
            assert(done.push(addr as int) + later =~= done + rest);
            lemma_fundamental_div_mod(addr as int, FRAME_SIZE as int);
            let q = addr as int / (FRAME_SIZE as int);
            assert(addr + FRAME_SIZE == (q + 1) * FRAME_SIZE) by (nonlinear_arith)
                requires
                    addr == FRAME_SIZE * q,
            ;
            vstd::arithmetic::div_mod::lemma_mod_multiples_basic(q + 1, FRAME_SIZE as int);
        }
        addr = match addr.checked_add(FRAME_SIZE) {
            Some(next) => next,
            None => {
                assert(frames_from(addr + FRAME_SIZE, end as int) =~= Seq::<int>::empty());
                assert(all =~= addresses(table@, n as int));
                return (n, false);
            },
        };
    }
    assert(frames_from(addr as int, end as int) =~= Seq::<int>::empty());
    assert(all =~= addresses(table@, n as int));
    (n, false)
}

impl BootInfoFrameAllocator {
    /// What holds of every supplier: the recorded frames stand at the front of the
    /// table, and the cursor stands among them or right behind them.
    #[verifier::type_invariant]
    spec fn well_formed(self) -> bool {
        &&& self.next <= self.recorded <= SIZE_USABLE_FRAMES
        &&& filled(self.available_frames@, self.recorded as int)
    }

    /// Whether usable frames of the memory map were left out of the record, in
    /// specifications.
    pub closed spec fn spec_is_truncated(&self) -> bool {
        self.truncated
    }

    /// Makes a supplier from `memory_map`, with a record of its first
    /// `SIZE_USABLE_FRAMES` usable frames. Every region that the map calls usable must
    /// be free indeed: nothing here can tell.
    pub fn init(memory_map: &[MemoryRegion]) -> (supplier: Self)
        ensures
            supplier@ == initial_supplier(memory_map@),
            supplier.is_truncated() == (usable_frames(memory_map@).len() > SIZE_USABLE_FRAMES),
            supplier@.frames.len() <= SIZE_USABLE_FRAMES,
    {
        let mut table: [Option<PhysicalFrame>; SIZE_USABLE_FRAMES] = [None; SIZE_USABLE_FRAMES];
        let mut recorded: usize = 0;
        let mut truncated = false;
        let mut i: usize = 0;
        proof {
            assert(memory_map@.take(0) =~= Seq::<MemoryRegion>::empty());
            assert(addresses(table@, 0) =~= usable_frames(memory_map@.take(0)));
        }
        while i < memory_map.len() && !truncated
            invariant
                i <= memory_map.len(),
                recorded <= SIZE_USABLE_FRAMES,
                filled(table@, recorded as int),
                !truncated ==> addresses(table@, recorded as int) == usable_frames(
                    memory_map@.take(i as int),
                ),
                truncated ==> usable_frames(memory_map@).len() > SIZE_USABLE_FRAMES && addresses(
                    table@,
                    recorded as int,
                ) == usable_frames(memory_map@).take(SIZE_USABLE_FRAMES as int),
            decreases memory_map.len() - i,
        {
            proof {
                lemma_usable_frames_step(memory_map@, i as int);
                lemma_usable_frames_prefix(memory_map@, i + 1);
            }
            let region = memory_map[i];
            let end = record_region(&mut table, recorded, &region);
            recorded = end.0;
            truncated = end.1;
            proof {
                if truncated {
                    let longer = usable_frames(memory_map@.take(i + 1));
                    let all = usable_frames(memory_map@);
                    assert(longer.take(SIZE_USABLE_FRAMES as int) =~= all.take(
                        SIZE_USABLE_FRAMES as int,
                    )) by {
                        assert(longer == all.take(longer.len() as int));
                    }
                }
            }
            i += 1;
        }
        proof {
            if !truncated {
                assert(memory_map@.take(i as int) =~= memory_map@);
            }
        }
        Self { next: 0, available_frames: table, recorded, truncated }
    }

    /// Whether usable frames of the memory map were left out of the record.
    #[verifier::when_used_as_spec(spec_is_truncated)]
    pub fn is_truncated(&self) -> (truncated: bool)
        ensures
            truncated == self.spec_is_truncated(),
    {
        self.truncated
    }

    /// How many frames are on record.
    pub fn recorded(&self) -> (count: usize)
        ensures
            count == self@.frames.len(),
    {
        proof {
            use_type_invariant(self);
        }
        self.recorded
    }

    /// Hands out the recorded frame at the cursor and moves the cursor on. Once every
    /// recorded frame has been handed out, each request fails and changes nothing.
    pub fn allocate_frame(&mut self) -> (frame: Option<PhysicalFrame>)
        ensures
            final(self)@ == old(self)@.allocate(),
            final(self).is_truncated() == old(self).is_truncated(),
            match frame {
                Some(f) => old(self)@.allocate_result() == Some(f.start_address() as int),
                None => old(self)@.allocate_result() is None,
            },
    {
        proof {
            use_type_invariant(&*self);
        }
        if self.next < self.recorded {
            let frame = self.available_frames[self.next];
            self.next += 1;
            frame
        } else {
            None
        }
    }
}

/// A frame supplier without frames.
pub struct EmptyFrameAllocator;

impl EmptyFrameAllocator {
    /// Hands out nothing.
    pub fn allocate_frame(&mut self) -> (frame: Option<PhysicalFrame>)
        ensures
            frame is None,
    {
        None
    }
}

} // verus!
