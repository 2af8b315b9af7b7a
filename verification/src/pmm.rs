//! The physical-memory manager: a frame allocator whose state is one flag per
//! page frame, set while the frame is in use and clear while it is free.

use crate::bitmap::{lemma_fill, Bitmap};
use crate::memory_map::{account, map_fits, total_length, usable_top, used_length};
use crate::memory_map::{MemoryRegion, MemoryTotals, RegionKind};
use limine::memory_map::{Entry, EntryType};
use limine::request::MemoryMapRequest;
use limine::response::MemoryMapResponse;
use vstd::prelude::*;

verus! {

/// Why an allocator could not be initialized.
#[derive(Clone, Copy, Debug, PartialEq, Eq, Structural)]
pub enum InitError {
    /// The boot protocol gave no memory map.
    MapUnavailable,
    /// The page size is not a power of two.
    PageSizeNotPowerOfTwo,
    /// The totals of the memory map do not fit in a machine word.
    MapOutOfRange,
    /// The storage handed in cannot hold the bitmap.
    StorageTooSmall,
}

/// Number of page-sized steps at the start of a region based at address 0
/// that stay marked as used, so that the null address never names a free
/// frame.
pub const LOW_MEMORY_RESERVED_STEPS: usize = 1;

/// Whether `n` is a power of two.
pub open spec fn is_power_of_two(n: nat) -> bool
    decreases n,
{
    n == 1 || (n > 1 && n % 2 == 0 && is_power_of_two(n / 2))
}

/// Number of whole page frames below `top`.
pub open spec fn frame_count(top: nat, page_size: nat) -> nat {
    if page_size == 0 {
        0
    } else {
        top / page_size
    }
}

/// Number of bytes that hold one flag for each of `frames` frames.
pub open spec fn bitmap_bytes(frames: nat) -> nat {
    (frames + 7) / 8
}

/// The step at which the walk over `region` starts.
pub open spec fn first_step(region: MemoryRegion) -> nat {
    if region.base == 0 {
        LOW_MEMORY_RESERVED_STEPS as nat
    } else {
        0
    }
}

/// Whether step number `step` of the walk over `region`, `page_size` bytes
/// at a time, lands in frame `frame` and so frees it.
pub open spec fn walk_frees(region: MemoryRegion, page_size: nat, step: nat, frame: int) -> bool {
    &&& region.kind is Usable
    &&& step >= first_step(region)
    &&& step * page_size < region.length
    &&& (region.base + step * page_size) / (page_size as int) == frame
}

/// Whether the walk over some usable region of `map` frees `frame`.
pub open spec fn frame_freed(map: Seq<MemoryRegion>, page_size: nat, frame: int) -> bool {
    exists|j: int, step: nat|
        0 <= j < map.len() && #[trigger] walk_frees(map[j], page_size, step, frame)
}

/// The flags of a freshly initialized allocator: one per frame below the
/// top of usable memory, rounded up to whole bytes; a flag is clear exactly
/// where the walk over a usable region frees its frame.
pub open spec fn frame_flags(map: Seq<MemoryRegion>, page_size: nat) -> Seq<bool> {
    Seq::new(
        8 * bitmap_bytes(frame_count(usable_top(map), page_size)),
        |frame: int| !frame_freed(map, page_size, frame),
    )
}

/// The size in bytes of the bitmap for the frames of `page_size` bytes that
/// lie wholly below `usable_memory_top`: one flag each, rounded up to whole
/// bytes. Bytes beyond the last whole page are not tracked.
pub fn bitmap_size_bytes(usable_memory_top: usize, page_size: usize) -> (size: usize)
    requires
        page_size > 0,
    ensures
        size == bitmap_bytes(frame_count(usable_memory_top as nat, page_size as nat)),
{
    let entry_count: usize = usable_memory_top / page_size;
    if entry_count % 8 == 0 {
        entry_count / 8
    } else {
        entry_count / 8 + 1
    }
}

/// Decides whether `n` is a power of two.
pub fn check_power_of_two(n: usize) -> (yes: bool)
    ensures
        yes == is_power_of_two(n as nat),
{
    if n == 0 {
        return false;
    }
    let mut m: usize = n;
    while m % 2 == 0
        invariant
            m > 0,
            is_power_of_two(m as nat) == is_power_of_two(n as nat),
        decreases m,
    {
        m = m / 2;
    }
    m == 1
}

/// Whether one of the first `upto` steps of the walk over `region` frees
/// `frame`.
spec fn freed_by_steps(region: MemoryRegion, page_size: nat, upto: nat, frame: int) -> bool {
    exists|step: nat| step < upto && #[trigger] walk_frees(region, page_size, step, frame)
}

/// Whether the walk over one of the first `count` regions of `map` frees
/// `frame`.
spec fn freed_by_regions(
    map: Seq<MemoryRegion>,
    page_size: nat,
    count: int,
    frame: int,
) -> bool {
    exists|j: int, step: nat|
        0 <= j < count && j < map.len() && #[trigger] walk_frees(map[j], page_size, step, frame)
}

/// Every usable region of a map ends at or below the top of usable memory.
proof fn lemma_usable_end_below_top(map: Seq<MemoryRegion>, j: int)
    requires
        0 <= j < map.len(),
        map[j].kind is Usable,
    ensures
        map[j].base + map[j].length <= usable_top(map),
    decreases map.len(),
{
    if j < map.len() - 1 {
        lemma_usable_end_below_top(map.drop_last(), j);
    }
}

/// A walk that has gone `upto` steps and reached the end of its region has
/// made every step that frees a frame.
proof fn lemma_walk_complete(region: MemoryRegion, page_size: nat, upto: nat, frame: int)
    requires
        upto * page_size >= region.length,
    ensures
        freed_by_steps(region, page_size, upto, frame) == (exists|step: nat| #[trigger]
            walk_frees(region, page_size, step, frame)),
{
    if exists|step: nat| #[trigger] walk_frees(region, page_size, step, frame) {
        let step = choose|step: nat| #[trigger] walk_frees(region, page_size, step, frame);
        if step >= upto {
            assert(step * page_size >= upto * page_size) by (nonlinear_arith)
                requires
                    step >= upto,
            ;
        }
        assert(step < upto);
    }
}

/// Second pass over the memory map: walks every usable region one page at a
/// time and clears the flag of each frame that a step lands in. Steps that
/// land beyond the bitmap change nothing.
fn release_usable(bitmap: &mut Bitmap, map: &[MemoryRegion], page_size: usize)
    requires
        page_size > 0,
        usable_top(map@) <= usize::MAX,
    ensures
        final(bitmap)@.len() == old(bitmap)@.len(),
        forall|frame: int|
            0 <= frame < old(bitmap)@.len() ==> final(bitmap)@[frame] == (old(bitmap)@[frame]
                && !frame_freed(map@, page_size as nat, frame)),
{
    let ghost before = bitmap@;
    let ghost ps = page_size as nat;
    let mut j: usize = 0;
    while j < map.len()
        invariant
            page_size > 0,
            ps == page_size,
            usable_top(map@) <= usize::MAX,
            j <= map@.len(),
            bitmap@.len() == before.len(),
            forall|frame: int|
                0 <= frame < before.len() ==> #[trigger] bitmap@[frame] == (before[frame]
                    && !freed_by_regions(map@, ps, j as int, frame)),
        decreases map@.len() - j,
    {
        let entry: MemoryRegion = map[j];
        let ghost at_region = bitmap@;
        let ghost mut step: nat = 0;
        if entry.kind == RegionKind::Usable {
            proof {
                lemma_usable_end_below_top(map@, j as int);
            }
            let base: usize = entry.base as usize;
            let length: usize = entry.length as usize;
            let mut offset: usize = 0;
            let mut finished: bool = false;
            if base == 0 {
                // The walk over a region at address 0 starts one page in.
                if page_size < length {
                    offset = page_size;
                } else {
                    finished = true;
                }
            }
            proof {
                step = first_step(entry);
                assert(step * ps == ps || step == 0) by (nonlinear_arith)
                    requires
                        step == 0 || step == 1,
                ;
            }
            while !finished && offset < length
                invariant
                    page_size > 0,
                    ps == page_size,
                    j < map@.len(),
                    entry == map@[j as int],
                    entry.kind is Usable,
                    at_region.len() == before.len(),
                    base == entry.base,
                    length == entry.length,
                    base + length <= usize::MAX,
                    step >= first_step(entry),
                    finished ==> step * ps >= length,
                    !finished ==> offset == step * ps,
                    bitmap@.len() == before.len(),
                    forall|frame: int|
                        0 <= frame < before.len() ==> #[trigger] bitmap@[frame] == (
                            at_region[frame] && !freed_by_steps(entry, ps, step, frame)),
                decreases length - offset, if finished { 0int } else { 1int },
            {
                let address: usize = base + offset;
                let index: usize = address / page_size;
                let ghost prior = bitmap@;
                bitmap.set(index, false);
                proof {
                    assert(walk_frees(entry, ps, step, index as int));
                    assert((step + 1) * ps == step * ps + ps) by (nonlinear_arith);
                    assert forall|frame: int| 0 <= frame < before.len() implies bitmap@[frame]
                        == (at_region[frame] && !freed_by_steps(entry, ps, step + 1, frame)) by {
                        if freed_by_steps(entry, ps, step + 1, frame) {
                            let s = choose|s: nat|
                                s < step + 1 && #[trigger] walk_frees(entry, ps, s, frame);
                            if s < step {
                                assert(freed_by_steps(entry, ps, step, frame));
                            } else {
                                assert(frame == index);
                            }
                        }
                        if freed_by_steps(entry, ps, step, frame) {
                            let s = choose|s: nat|
                                s < step && #[trigger] walk_frees(entry, ps, s, frame);
                            assert(s < step + 1 && walk_frees(entry, ps, s, frame));
                        }
                        if frame == index {
                            assert(step < step + 1 && walk_frees(entry, ps, step, frame));
                        }
                        assert(bitmap@[frame] == (prior[frame] && frame != index));
                    }
                    step = step + 1;
                }
                if length - offset <= page_size {
                    finished = true;
                } else {
                    offset = offset + page_size;
                }
            }
        }
        proof {
            assert forall|frame: int| 0 <= frame < before.len() implies bitmap@[frame] == (
                before[frame] && !freed_by_regions(map@, ps, j + 1, frame)) by {
                let here = exists|s: nat| #[trigger] walk_frees(entry, ps, s, frame);
                if entry.kind is Usable {
                    lemma_walk_complete(entry, ps, step, frame);
                } else {
                    assert(bitmap@ == at_region);
                }
                assert(bitmap@[frame] == (at_region[frame] && !here));
                if freed_by_regions(map@, ps, j + 1, frame) {
                    let (i, s): (int, nat) = choose|i: int, s: nat|
                        0 <= i < j + 1 && i < map@.len() && #[trigger] walk_frees(
                            map@[i],
                            ps,
                            s,
                            frame,
                        );
                    if i < j {
                        assert(freed_by_regions(map@, ps, j as int, frame));
                    } else {
                        assert(walk_frees(entry, ps, s, frame));
                    }
                }
                if freed_by_regions(map@, ps, j as int, frame) {
                    let (i, s): (int, nat) = choose|i: int, s: nat|
                        0 <= i < j && i < map@.len() && #[trigger] walk_frees(
                            map@[i],
                            ps,
                            s,
                            frame,
                        );
                    assert(0 <= i < j + 1 && walk_frees(map@[i], ps, s, frame));
                }
                if here {
                    let s = choose|s: nat| #[trigger] walk_frees(entry, ps, s, frame);
                    assert(walk_frees(map@[j as int], ps, s, frame));
                }
            }
        }
        j += 1;
    }
    proof {
        assert forall|frame: int| 0 <= frame < before.len() implies freed_by_regions(
            map@,
            ps,
            j as int,
            frame,
        ) == frame_freed(map@, ps, frame) by {
            if frame_freed(map@, ps, frame) {
                let (i, s): (int, nat) = choose|i: int, s: nat|
                    0 <= i < map@.len() && #[trigger] walk_frees(map@[i], ps, s, frame);
                assert(0 <= i < j && walk_frees(map@[i], ps, s, frame));
            }
        }
    }
}

/// Whether `frame` shares at least one byte with `region` and `region` is
/// usable.
pub open spec fn overlaps_usable(region: MemoryRegion, page_size: nat, frame: int) -> bool {
    &&& region.kind is Usable
    &&& region.base < (frame + 1) * page_size
    &&& frame * page_size < region.base + region.length
}

/// Only a frame that shares a byte with some usable region is ever freed:
/// frames that lie outside every usable region stay marked as used.
pub proof fn lemma_freed_frame_is_usable(map: Seq<MemoryRegion>, page_size: nat, frame: int)
    requires
        page_size > 0,
        frame_freed(map, page_size, frame),
    ensures
        exists|j: int| 0 <= j < map.len() && overlaps_usable(#[trigger] map[j], page_size, frame),
{
    let (j, step): (int, nat) = choose|j: int, step: nat|
        0 <= j < map.len() && #[trigger] walk_frees(map[j], page_size, step, frame);
    let address: int = map[j].base + step * page_size;
    assert(step * page_size >= 0) by (nonlinear_arith);
    assert(frame * page_size <= address < (frame + 1) * page_size) by (nonlinear_arith)
        requires
            page_size > 0,
            address >= 0,
            frame == address / (page_size as int),
    ;
    assert(overlaps_usable(map[j], page_size, frame));
}

/// Where every usable region starts on a page boundary, the frame at
/// address 0 is never freed.
pub proof fn lemma_first_frame_stays_used(map: Seq<MemoryRegion>, page_size: nat)
    requires
        page_size > 0,
        forall|j: int|
            0 <= j < map.len() && (#[trigger] map[j]).kind is Usable ==> map[j].base as nat
                % page_size == 0,
    ensures
        !frame_freed(map, page_size, 0),
{
    if frame_freed(map, page_size, 0) {
        let (j, step): (int, nat) = choose|j: int, step: nat|
            0 <= j < map.len() && #[trigger] walk_frees(map[j], page_size, step, 0);
        let base: int = map[j].base as int;
        assert(base % (page_size as int) == 0);
        assert(base + step * page_size >= page_size) by (nonlinear_arith)
            requires
                page_size > 0,
                base >= 0,
                base % (page_size as int) == 0,
                base == 0 ==> step >= 1,
        ;
        assert((base + step * page_size) / (page_size as int) >= 1) by (nonlinear_arith)
            requires
                page_size > 0,
                base + step * page_size >= page_size,
        ;
        assert(false);
    }
}

/// Every frame but the one at address 0 that starts inside a usable region
/// which itself starts on a page boundary is freed.
pub proof fn lemma_frame_in_aligned_region_is_freed(
    map: Seq<MemoryRegion>,
    page_size: nat,
    j: int,
    frame: int,
)
    requires
        page_size > 0,
        0 <= j < map.len(),
        map[j].kind is Usable,
        map[j].base as nat % page_size == 0,
        frame > 0,
        map[j].base <= frame * page_size < map[j].base + map[j].length,
    ensures
        frame_freed(map, page_size, frame),
{
    let base: int = map[j].base as int;
    let first: int = base / (page_size as int);
    assert(first * page_size == base && first <= frame) by (nonlinear_arith)
        requires
            page_size > 0,
            base >= 0,
            base % (page_size as int) == 0,
            first == base / (page_size as int),
            base <= frame * page_size,
    ;
    let step: nat = (frame - first) as nat;
    assert(step * page_size == frame * page_size - base) by (nonlinear_arith)
        requires
            step == frame - first,
            first * page_size == base,
    ;
    assert((frame * page_size) / (page_size as int) == frame) by (nonlinear_arith)
        requires
            page_size > 0,
    ;
    assert(walk_frees(map[j], page_size, step, frame));
}

/// Whether a region of `len` bytes can back a bitmap of `needed` bytes whose
/// flags can still be counted in a machine word.
pub open spec fn storage_holds(len: nat, needed: nat) -> bool {
    needed <= len && 8 * needed <= usize::MAX
}

/// How initialization ends, decided in this order: no memory map; a page
/// size that is not a power of two; totals that do not fit; storage that is
/// too small; success.
pub open spec fn init_outcome(
    map: Option<Seq<MemoryRegion>>,
    page_size: nat,
    storage_len: nat,
) -> Result<(), InitError> {
    match map {
        None => Err(InitError::MapUnavailable),
        Some(regions) => {
            if !is_power_of_two(page_size) {
                Err(InitError::PageSizeNotPowerOfTwo)
            } else if !map_fits(regions) {
                Err(InitError::MapOutOfRange)
            } else if !storage_holds(
                storage_len,
                bitmap_bytes(frame_count(usable_top(regions), page_size)),
            ) {
                Err(InitError::StorageTooSmall)
            } else {
                Ok(())
            }
        },
    }
}

/// The mathematical model of an allocator.
pub struct AllocatorState {
    /// One flag per tracked frame, `true` for used and `false` for free;
    /// `None` until the allocator has been initialized.
    pub frames: Option<Seq<bool>>,
    pub page_size: nat,
    pub total_memory: nat,
    pub used_memory: nat,
    pub usable_memory_top: nat,
    pub last_index: nat,
}

/// The state of an allocator initialized from `map` with frames of
/// `page_size` bytes. The search cursor is not touched by initialization.
pub open spec fn initialized(map: Seq<MemoryRegion>, page_size: nat, last_index: nat)
    -> AllocatorState {
    AllocatorState {
        frames: Some(frame_flags(map, page_size)),
        page_size,
        total_memory: total_length(map),
        used_memory: used_length(map),
        usable_memory_top: usable_top(map),
        last_index,
    }
}

/// How an initialization relates the allocator before and after it to the
/// memory map that it was given: on failure nothing changes, on success the
/// allocator is the one that the map describes.
pub open spec fn init_relation(
    before: AllocatorState,
    after: AllocatorState,
    map: Option<Seq<MemoryRegion>>,
    page_size: nat,
    storage_len: nat,
    outcome: Result<(), InitError>,
) -> bool {
    &&& outcome == init_outcome(map, page_size, storage_len)
    &&& outcome is Err ==> after == before
    &&& outcome is Ok ==> map is Some && after == initialized(
        map->Some_0,
        page_size,
        before.last_index,
    )
}

/// Whether the bytes of a storage region that lie behind the first `used`
/// are the same in `after` as in `before`. They are counted from the end of
/// the region, which is where both hold them.
pub open spec fn rest_untouched(before: Seq<u8>, after: Seq<u8>, used: nat) -> bool {
    let kept = before.len() - used;
    &&& 0 <= kept <= after.len()
    &&& after.subrange(after.len() - kept, after.len() as int) == before.subrange(
        used as int,
        before.len() as int,
    )
}

/// How a successful initialization from `map` leaves the storage: only the
/// bytes that the bitmap needs may have changed.
pub open spec fn storage_kept(
    before: Seq<u8>,
    after: Seq<u8>,
    map: Seq<MemoryRegion>,
    page_size: nat,
) -> bool {
    rest_untouched(before, after, bitmap_bytes(frame_count(usable_top(map), page_size)))
}

/// The contents of an optional memory map.
pub open spec fn regions_of(map: Option<&[MemoryRegion]>) -> Option<Seq<MemoryRegion>> {
    match map {
        Some(regions) => Some(regions@),
        None => None,
    }
}

/// `limine::request::MemoryMapRequest`: the request that the bootloader
/// answers with the memory map. Opaque here.
#[verifier::external_type_specification]
#[verifier::external_body]
pub struct ExMemoryMapRequest(limine::request::MemoryMapRequest);

/// `limine::response::MemoryMapResponse`: the bootloader's answer. Opaque
/// here.
#[verifier::external_type_specification]
#[verifier::external_body]
pub struct ExMemoryMapResponse(limine::response::MemoryMapResponse);

/// `limine::memory_map::Entry`: one entry of the bootloader's memory map.
/// Opaque here; `region_of` copies it into a `MemoryRegion`.
#[verifier::external_type_specification]
#[verifier::external_body]
pub struct ExEntry(limine::memory_map::Entry);

/// `MemoryMapRequest::get_response` returns the bootloader's answer, or
/// `None` where it has not answered. Nothing is claimed of which.
pub assume_specification[ MemoryMapRequest::get_response ](
    request: &MemoryMapRequest,
) -> (response: Option<&MemoryMapResponse>)
;

/// `MemoryMapResponse::entries` returns the entries that the bootloader
/// wrote. Nothing is claimed of them.
pub assume_specification[ MemoryMapResponse::entries ](response: &MemoryMapResponse) -> (entries:
    &[&Entry])
;

/// Copies one `limine::memory_map::Entry` into a `MemoryRegion`: base and
/// length as they are, the entry type as the kind of the same name, every
/// type without one as `Other`. Nothing is claimed of the result: it is
/// whatever the bootloader wrote.
#[verifier::external_body]
fn region_of(entry: &Entry) -> (region: MemoryRegion) {
    let kind = match entry.entry_type {
        EntryType::USABLE => RegionKind::Usable,
        EntryType::ACPI_RECLAIMABLE => RegionKind::AcpiReclaimable,
        EntryType::BOOTLOADER_RECLAIMABLE => RegionKind::BootloaderReclaimable,
        EntryType::EXECUTABLE_AND_MODULES => RegionKind::ExecutableAndModules,
        _ => RegionKind::Other,
    };
    MemoryRegion { base: entry.base, length: entry.length, kind }
}

/// A frame allocator backed by a bitmap with one flag per page frame.
pub struct BitmapAllocator<'a> {
    page_bitmap: Option<Bitmap<'a>>,
    page_size: usize,
    total_memory: usize,
    used_memory: usize,
    usable_memory_top: usize,
    last_index: usize,
}

impl<'a> View for BitmapAllocator<'a> {
    type V = AllocatorState;

    closed spec fn view(&self) -> AllocatorState {
        AllocatorState {
            frames: match self.page_bitmap {
                Some(bitmap) => Some(bitmap@),
                None => None,
            },
            page_size: self.page_size as nat,
            total_memory: self.total_memory as nat,
            used_memory: self.used_memory as nat,
            usable_memory_top: self.usable_memory_top as nat,
            last_index: self.last_index as nat,
        }
    }
}

impl<'a> BitmapAllocator<'a> {
    /// An allocator that tracks no frames yet: every figure is zero.
    pub fn new() -> (allocator: Self)
        ensures
            allocator@ == (AllocatorState {
                frames: None,
                page_size: 0,
                total_memory: 0,
                used_memory: 0,
                usable_memory_top: 0,
                last_index: 0,
            }),
    {
        BitmapAllocator {
            page_bitmap: None,
            page_size: 0,
            total_memory: 0,
            used_memory: 0,
            usable_memory_top: 0,
            last_index: 0,
        }
    }

    /// The bitmap with one flag per frame, or `None` before initialization.
    pub fn bitmap(&self) -> (bitmap: Option<&Bitmap<'a>>)
        ensures
            match bitmap {
                Some(flags) => self@.frames == Some(flags@),
                None => self@.frames is None,
            },
    {
        match &self.page_bitmap {
            Some(flags) => Some(flags),
            None => None,
        }
    }

    /// Bytes per page frame.
    pub fn page_size(&self) -> (bytes: usize)
        ensures
            bytes == self@.page_size,
    {
        self.page_size
    }

    /// Sum of the lengths of all regions of the memory map.
    pub fn total_memory(&self) -> (bytes: usize)
        ensures
            bytes == self@.total_memory,
    {
        self.total_memory
    }

    /// Sum of the lengths of the regions that hold memory in use.
    pub fn used_memory(&self) -> (bytes: usize)
        ensures
            bytes == self@.used_memory,
    {
        self.used_memory
    }

    /// The highest end address of any usable region.
    pub fn usable_memory_top(&self) -> (address: usize)
        ensures
            address == self@.usable_memory_top,
    {
        self.usable_memory_top
    }

    /// The cursor from which a search for a free frame would start.
    pub fn last_index(&self) -> (index: usize)
        ensures
            index == self@.last_index,
    {
        self.last_index
    }

    /// Initializes the allocator from a memory map that was already read, or
    /// from the fact that none could be had. The bitmap is laid over the
    /// first bytes of `storage`, as many as the frames below the top of
    /// usable memory need; the bytes behind them are left as they are, and
    /// on failure so is all of `storage`.
    pub fn initialize_from(
        &mut self,
        map: Option<&[MemoryRegion]>,
        page_size: usize,
        storage: &'a mut [u8],
    ) -> (outcome: Result<(), InitError>)
        ensures
            init_relation(
                old(self)@,
                final(self)@,
                regions_of(map),
                page_size as nat,
                old(storage)@.len(),
                outcome,
            ),
            outcome is Err ==> final(storage)@ == old(storage)@,
            outcome is Ok ==> map is Some && storage_kept(
                old(storage)@,
                final(storage)@,
                map->Some_0@,
                page_size as nat,
            ),
    {
        let regions: &[MemoryRegion] = match map {
            Some(regions) => regions,
            None => {
                return Err(InitError::MapUnavailable);
            },
        };
        if !check_power_of_two(page_size) {
            return Err(InitError::PageSizeNotPowerOfTwo);
        }
        let totals: MemoryTotals = match account(regions) {
            Some(totals) => totals,
            None => {
                return Err(InitError::MapOutOfRange);
            },
        };
        let size_bytes: usize = bitmap_size_bytes(totals.usable_memory_top, page_size);
        if size_bytes > storage.len() || size_bytes > usize::MAX / 8 {
            return Err(InitError::StorageTooSmall);
        }
        let (region, rest) = storage.split_at_mut(size_bytes);
        proof {
            let after = final(region)@ + rest@;
            assert(after.subrange(after.len() - rest@.len(), after.len() as int) =~= rest@);
        }
        let mut bitmap = Bitmap::from_raw(region);
        bitmap.set_all(0xff);
        proof {
            assert forall|i: int| 0 <= i < bitmap@.len() implies bitmap@[i] by {
                lemma_fill(size_bytes as nat, i);
            }
        }
        release_usable(&mut bitmap, regions, page_size);
        proof {
            assert(bitmap@ =~= frame_flags(regions@, page_size as nat));
        }
        self.page_bitmap = Some(bitmap);
        self.page_size = page_size;
        self.total_memory = totals.total_memory;
        self.used_memory = totals.used_memory;
        self.usable_memory_top = totals.usable_memory_top;
        Ok(())
    }

    /// Initializes the allocator from the memory map that the bootloader
    /// left in answer to `mmap_request`. Whatever the bootloader wrote, the
    /// outcome is the one that `initialize_from` gives for some memory map,
    /// or for none; a page size that is not a power of two always fails.
    /// The storage behind the bitmap's bytes is left as it is.
    pub fn initialize(
        &mut self,
        mmap_request: &MemoryMapRequest,
        page_size: usize,
        storage: &'a mut [u8],
    ) -> (outcome: Result<(), InitError>)
        ensures
            exists|map: Option<Seq<MemoryRegion>>|
                {
                    &&& init_relation(
                        old(self)@,
                        final(self)@,
                        map,
                        page_size as nat,
                        old(storage)@.len(),
                        outcome,
                    )
                    &&& outcome is Ok ==> map is Some && storage_kept(
                        old(storage)@,
                        final(storage)@,
                        map->Some_0,
                        page_size as nat,
                    )
                },
            !is_power_of_two(page_size as nat) ==> outcome is Err,
            outcome is Err ==> final(storage)@ == old(storage)@,
    {
        let response: &MemoryMapResponse = match mmap_request.get_response() {
            Some(response) => response,
            None => {
                let outcome = self.initialize_from(None, page_size, storage);
                assert(init_relation(
                    old(self)@,
                    self@,
                    None,
                    page_size as nat,
                    old(storage)@.len(),
                    outcome,
                ));
                return outcome;
            },
        };
        let entries: &[&Entry] = response.entries();
        let mut regions: Vec<MemoryRegion> = Vec::new();
        let mut i: usize = 0;
        while i < entries.len()
            invariant
                i <= entries@.len(),
            decreases entries@.len() - i,
        {
            regions.push(region_of(entries[i]));
            i += 1;
        }
        let outcome = self.initialize_from(Some(regions.as_slice()), page_size, storage);
        assert(init_relation(
            old(self)@,
            self@,
            Some(regions@),
            page_size as nat,
            old(storage)@.len(),
            outcome,
        ));
        outcome
    }
}

} // verus!
