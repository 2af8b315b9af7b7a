//! The memory map that the boot protocol hands over, as plain values, and the
//! totals that the frame allocator derives from it.

use vstd::prelude::*;

verus! {

/// What a region of the memory map is used for.
#[derive(Clone, Copy, Debug, PartialEq, Eq, Structural)]
pub enum RegionKind {
    /// Free for general use.
    Usable,
    /// Held by ACPI tables; can be reclaimed later.
    AcpiReclaimable,
    /// Held by the bootloader; can be reclaimed later.
    BootloaderReclaimable,
    /// Occupied by the kernel image and its modules.
    ExecutableAndModules,
    /// Reserved, damaged, or of any other type.
    Other,
}

/// One entry of the memory map: `length` bytes of physical memory from `base`.
#[derive(Clone, Copy, Debug)]
pub struct MemoryRegion {
    pub base: u64,
    pub length: u64,
    pub kind: RegionKind,
}

/// The three figures that one pass over the memory map yields.
#[derive(Clone, Copy, Debug)]
pub struct MemoryTotals {
    /// Sum of the lengths of all regions.
    pub total_memory: usize,
    /// Sum of the lengths of the regions that hold memory in use.
    pub used_memory: usize,
    /// The highest end address of any usable region.
    pub usable_memory_top: usize,
}

impl RegionKind {
    /// Whether a region of this kind is memory that exists but is occupied:
    /// either reclaimable later or taken by the kernel image and modules.
    pub open spec fn counts_as_used(self) -> bool {
        self is AcpiReclaimable || self is BootloaderReclaimable || self is ExecutableAndModules
    }
}

/// Sum of the lengths of all regions of `map`.
pub open spec fn total_length(map: Seq<MemoryRegion>) -> nat
    decreases map.len(),
{
    if map.len() == 0 {
        0
    } else {
        total_length(map.drop_last()) + map.last().length as nat
    }
}

/// Sum of the lengths of the regions of `map` that count as used.
pub open spec fn used_length(map: Seq<MemoryRegion>) -> nat
    decreases map.len(),
{
    if map.len() == 0 {
        0
    } else if map.last().kind.counts_as_used() {
        used_length(map.drop_last()) + map.last().length as nat
    } else {
        used_length(map.drop_last())
    }
}

/// The highest end address (`base + length`) of any usable region of `map`,
/// or 0 where it has none.
pub open spec fn usable_top(map: Seq<MemoryRegion>) -> nat
    decreases map.len(),
{
    if map.len() == 0 {
        0
    } else {
        let rest = usable_top(map.drop_last());
        let top = (map.last().base + map.last().length) as nat;
        if map.last().kind is Usable && top > rest {
            top
        } else {
            rest
        }
    }
}

/// Whether the totals of `map` can be held in machine words: the sum of all
/// lengths and the end of every usable region fit in a `usize`.
pub open spec fn map_fits(map: Seq<MemoryRegion>) -> bool {
    total_length(map) <= usize::MAX && usable_top(map) <= usize::MAX
}

/// The totals of a prefix never exceed those of the whole map.
proof fn lemma_prefix_totals(map: Seq<MemoryRegion>, n: int)
    requires
        0 <= n <= map.len(),
    ensures
        total_length(map.take(n)) <= total_length(map),
        used_length(map.take(n)) <= used_length(map),
        usable_top(map.take(n)) <= usable_top(map),
    decreases map.len(),
{
    if n == map.len() {
        assert(map.take(n) =~= map);
    } else {
        assert(map.drop_last().take(n) =~= map.take(n));
        lemma_prefix_totals(map.drop_last(), n);
    }
}

/// The used total never exceeds the total of all regions.
pub proof fn lemma_used_within_total(map: Seq<MemoryRegion>)
    ensures
        used_length(map) <= total_length(map),
    decreases map.len(),
{
    if map.len() > 0 {
        lemma_used_within_total(map.drop_last());
    }
}

/// One pass over the memory map: the sum of all lengths, the sum of the
/// lengths in use, and the highest end of a usable region. `None` exactly
/// when one of them does not fit in a machine word.
pub fn account(map: &[MemoryRegion]) -> (totals: Option<MemoryTotals>)
    ensures
        totals is Some <==> map_fits(map@),
        totals matches Some(t) ==> {
            &&& t.total_memory == total_length(map@)
            &&& t.used_memory == used_length(map@)
            &&& t.usable_memory_top == usable_top(map@)
        },
{
    let mut total: usize = 0;
    let mut used: usize = 0;
    let mut top: usize = 0;
    let mut i: usize = 0;
    while i < map.len()
        invariant
            i <= map@.len(),
            total == total_length(map@.take(i as int)),
            used == used_length(map@.take(i as int)),
            top == usable_top(map@.take(i as int)),
        decreases map@.len() - i,
    {
        let entry: MemoryRegion = map[i];
        proof {
            assert(map@.take(i + 1).drop_last() =~= map@.take(i as int));
            lemma_prefix_totals(map@, i + 1);
            lemma_used_within_total(map@.take(i + 1));
        }
        if entry.length > usize::MAX as u64 || total > usize::MAX - entry.length as usize {
            return None;
        }
        total = total + entry.length as usize;
        match entry.kind {
            RegionKind::Usable => {
                if entry.base > u64::MAX - entry.length {
                    return None;
                }
                let end: u64 = entry.base + entry.length;
                if end > usize::MAX as u64 {
                    return None;
                }
                if end as usize > top {
                    top = end as usize;
                }
            },
            RegionKind::AcpiReclaimable
            | RegionKind::BootloaderReclaimable
            | RegionKind::ExecutableAndModules => {
                used = used + entry.length as usize;
            },
            RegionKind::Other => {},
        }
        i += 1;
    }
    proof {
        assert(map@.take(i as int) =~= map@);
    }
    Some(MemoryTotals { total_memory: total, used_memory: used, usable_memory_top: top })
}

} // verus!
