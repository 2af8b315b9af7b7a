use frame_bitmap::bitmap::Bitmap;
use frame_bitmap::memory_map::{account, MemoryRegion, RegionKind};
use frame_bitmap::pmm::{bitmap_size_bytes, check_power_of_two, BitmapAllocator, InitError};
use limine::request::MemoryMapRequest;

fn region(base: u64, length: u64, kind: RegionKind) -> MemoryRegion {
    MemoryRegion { base, length, kind }
}

fn flags(bitmap: &Bitmap) -> Vec<bool> {
    (0..bitmap.bit_count()).map(|i| bitmap.get(i)).collect()
}

#[test]
fn usable_region_at_zero_keeps_the_first_frame_reserved() {
    let map = vec![region(0x0, 0x100000, RegionKind::Usable)];
    let mut storage = vec![0u8; 32];
    let mut allocator = BitmapAllocator::new();
    assert_eq!(allocator.initialize_from(Some(&map), 4096, &mut storage), Ok(()));
    let bitmap = allocator.bitmap().unwrap();
    assert_eq!(bitmap.bit_count(), 0x100000 / 4096);
    assert!(bitmap.get(0));
    for frame in 1..0x100000 / 4096 {
        assert!(!bitmap.get(frame));
    }
    assert_eq!(bitmap.find_first_not_set(0, bitmap.bit_count()), Some(1));
    assert_eq!(allocator.page_size(), 4096);
    assert_eq!(allocator.total_memory(), 0x100000);
    assert_eq!(allocator.used_memory(), 0);
    assert_eq!(allocator.usable_memory_top(), 0x100000);
    assert_eq!(allocator.last_index(), 0);
}

#[test]
fn reserved_region_below_a_single_usable_page() {
    let map = vec![
        region(0x200000, 0x1000, RegionKind::Usable),
        region(0x0, 0x200000, RegionKind::Other),
    ];
    let mut storage = vec![0xc3u8; 128];
    let mut allocator = BitmapAllocator::new();
    assert_eq!(allocator.initialize_from(Some(&map), 4096, &mut storage), Ok(()));
    assert_eq!(allocator.usable_memory_top(), 0x201000);
    assert_eq!(allocator.total_memory(), 0x201000);
    assert_eq!(allocator.used_memory(), 0);
    let bitmap = allocator.bitmap().unwrap();
    let entry_count = 0x201000 / 4096;
    assert_eq!(entry_count, 513);
    assert_eq!(bitmap.bit_count(), 8 * ((entry_count + 7) / 8));
    let all = flags(bitmap);
    assert_eq!(all.iter().filter(|used| !**used).count(), 1);
    assert!(!bitmap.get(0x200000 / 4096));
    assert_eq!(bitmap.find_first_not_set(0, bitmap.bit_count()), Some(512));
}

#[test]
fn page_size_that_is_no_power_of_two_is_rejected() {
    let map = vec![region(0x0, 0x100000, RegionKind::Usable)];
    let mut storage = vec![0x3cu8; 64];
    {
        let mut allocator = BitmapAllocator::new();
        assert_eq!(
            allocator.initialize_from(Some(&map), 4097, &mut storage),
            Err(InitError::PageSizeNotPowerOfTwo)
        );
        assert!(allocator.bitmap().is_none());
        assert_eq!(allocator.page_size(), 0);
        assert_eq!(allocator.total_memory(), 0);
        assert_eq!(allocator.used_memory(), 0);
        assert_eq!(allocator.usable_memory_top(), 0);
        assert_eq!(allocator.last_index(), 0);
    }
    assert_eq!(storage, vec![0x3cu8; 64]);
    let mut other = vec![0x3cu8; 64];
    let mut allocator = BitmapAllocator::new();
    assert_eq!(
        allocator.initialize_from(Some(&map), 0, &mut other),
        Err(InitError::PageSizeNotPowerOfTwo)
    );
}

#[test]
fn missing_memory_map_is_reported() {
    let mut storage = vec![0x77u8; 16];
    {
        let mut allocator = BitmapAllocator::new();
        assert_eq!(
            allocator.initialize_from(None, 4096, &mut storage),
            Err(InitError::MapUnavailable)
        );
        assert!(allocator.bitmap().is_none());
        assert_eq!(allocator.total_memory(), 0);
    }
    assert_eq!(storage, vec![0x77u8; 16]);
    let mut other = vec![0u8; 16];
    let mut allocator = BitmapAllocator::new();
    assert_eq!(
        allocator.initialize_from(None, 4097, &mut other),
        Err(InitError::MapUnavailable)
    );
}

#[test]
fn unanswered_request_leaves_the_allocator_untouched() {
    let request = MemoryMapRequest::new();
    let mut storage = vec![0x77u8; 16];
    {
        let mut allocator = BitmapAllocator::new();
        assert_eq!(
            allocator.initialize(&request, 4096, &mut storage),
            Err(InitError::MapUnavailable)
        );
        assert!(allocator.bitmap().is_none());
        assert_eq!(allocator.page_size(), 0);
        assert_eq!(allocator.total_memory(), 0);
    }
    assert_eq!(storage, vec![0x77u8; 16]);
}

#[test]
fn storage_that_is_too_small_is_rejected() {
    let map = vec![region(0x0, 0x100000, RegionKind::Usable)];
    let mut storage = vec![0x11u8; 31];
    {
        let mut allocator = BitmapAllocator::new();
        assert_eq!(
            allocator.initialize_from(Some(&map), 4096, &mut storage),
            Err(InitError::StorageTooSmall)
        );
        assert!(allocator.bitmap().is_none());
        assert_eq!(allocator.total_memory(), 0);
    }
    assert_eq!(storage, vec![0x11u8; 31]);
}

#[test]
fn memory_map_whose_totals_overflow_is_rejected() {
    let map = vec![
        region(0x1000, u64::MAX - 0x10, RegionKind::Other),
        region(0x2000, 0x1000, RegionKind::Other),
    ];
    let mut storage = vec![0u8; 8];
    let mut allocator = BitmapAllocator::new();
    assert_eq!(
        allocator.initialize_from(Some(&map), 4096, &mut storage),
        Err(InitError::MapOutOfRange)
    );
    let map = vec![region(u64::MAX - 0x10, 0x1000, RegionKind::Usable)];
    let mut other = vec![0u8; 8];
    let mut allocator = BitmapAllocator::new();
    assert_eq!(
        allocator.initialize_from(Some(&map), 4096, &mut other),
        Err(InitError::MapOutOfRange)
    );
    assert!(account(&map).is_none());
}

#[test]
fn storage_beyond_the_bitmap_is_left_alone() {
    let map = vec![region(0x4000, 0x4000, RegionKind::Usable)];
    let mut storage = vec![0x6bu8; 4];
    {
        let mut allocator = BitmapAllocator::new();
        assert_eq!(allocator.initialize_from(Some(&map), 4096, &mut storage), Ok(()));
        assert_eq!(allocator.bitmap().unwrap().bit_count(), 8);
    }
    assert_eq!(storage, vec![0b0000_1111u8, 0x6b, 0x6b, 0x6b]);
}

#[test]
fn accounting_sorts_lengths_by_kind() {
    let map = vec![
        region(0x0, 0x1000, RegionKind::Other),
        region(0x1000, 0x3000, RegionKind::Usable),
        region(0x4000, 0x2000, RegionKind::AcpiReclaimable),
        region(0x6000, 0x5000, RegionKind::BootloaderReclaimable),
        region(0x10000, 0x8000, RegionKind::ExecutableAndModules),
        region(0x20000, 0x1800, RegionKind::Usable),
        region(0x40000, 0x1000, RegionKind::Other),
    ];
    let totals = account(&map).unwrap();
    assert_eq!(totals.total_memory, 0x1000 + 0x3000 + 0x2000 + 0x5000 + 0x8000 + 0x1800 + 0x1000);
    assert_eq!(totals.used_memory, 0x2000 + 0x5000 + 0x8000);
    assert_eq!(totals.usable_memory_top, 0x21800);
    let empty = account(&[]).unwrap();
    assert_eq!(empty.total_memory, 0);
    assert_eq!(empty.used_memory, 0);
    assert_eq!(empty.usable_memory_top, 0);
}

#[test]
fn mixed_map_frees_only_usable_frames() {
    let map = vec![
        region(0x0, 0x1000, RegionKind::Other),
        region(0x1000, 0x3000, RegionKind::Usable),
        region(0x4000, 0x2000, RegionKind::AcpiReclaimable),
        region(0x8000, 0x2000, RegionKind::Usable),
    ];
    let mut storage = vec![0x99u8; 2];
    {
        let mut allocator = BitmapAllocator::new();
        assert_eq!(allocator.initialize_from(Some(&map), 0x1000, &mut storage), Ok(()));
        assert_eq!(allocator.usable_memory_top(), 0xa000);
        assert_eq!(allocator.total_memory(), 0x8000);
        assert_eq!(allocator.used_memory(), 0x2000);
        let bitmap = allocator.bitmap().unwrap();
        assert_eq!(bitmap.bit_count(), 16);
        let free: Vec<usize> = (0..16).filter(|i| !bitmap.get(*i)).collect();
        assert_eq!(free, vec![1, 2, 3, 8, 9]);
    }
    assert_eq!(storage, vec![0b1111_0001u8, 0b1111_1100u8]);
}

#[test]
fn region_at_zero_shorter_than_a_page_frees_nothing() {
    let map = vec![region(0x0, 0x800, RegionKind::Usable)];
    let mut storage = vec![0u8; 1];
    let mut allocator = BitmapAllocator::new();
    assert_eq!(allocator.initialize_from(Some(&map), 0x1000, &mut storage), Ok(()));
    assert_eq!(allocator.usable_memory_top(), 0x800);
    assert_eq!(allocator.bitmap().unwrap().bit_count(), 0);
}

#[test]
fn partial_last_page_is_walked_but_counted_out() {
    let map = vec![region(0x0, 0x5800, RegionKind::Usable)];
    let mut storage = vec![0u8; 1];
    let mut allocator = BitmapAllocator::new();
    assert_eq!(allocator.initialize_from(Some(&map), 0x1000, &mut storage), Ok(()));
    let bitmap = allocator.bitmap().unwrap();
    assert_eq!(bitmap.bit_count(), 8);
    let free: Vec<usize> = (0..8).filter(|i| !bitmap.get(*i)).collect();
    assert_eq!(free, vec![1, 2, 3, 4, 5]);
}

#[test]
fn empty_memory_map_tracks_no_frames() {
    let map: Vec<MemoryRegion> = Vec::new();
    let mut storage = vec![0xeeu8; 2];
    {
        let mut allocator = BitmapAllocator::new();
        assert_eq!(allocator.initialize_from(Some(&map), 4096, &mut storage), Ok(()));
        assert_eq!(allocator.page_size(), 4096);
        assert_eq!(allocator.total_memory(), 0);
        assert_eq!(allocator.bitmap().unwrap().bit_count(), 0);
    }
    assert_eq!(storage, vec![0xeeu8; 2]);
}

#[test]
fn powers_of_two_are_recognised() {
    for shift in 0..usize::BITS {
        assert!(check_power_of_two(1usize << shift));
    }
    for n in [0usize, 3, 5, 6, 7, 9, 12, 4095, 4097, 6144, usize::MAX] {
        assert!(!check_power_of_two(n));
    }
    for n in 0usize..2000 {
        assert_eq!(check_power_of_two(n), n.is_power_of_two());
    }
}

#[test]
fn bitmap_size_rounds_up_to_whole_bytes() {
    assert_eq!(bitmap_size_bytes(0, 4096), 0);
    assert_eq!(bitmap_size_bytes(4095, 4096), 0);
    assert_eq!(bitmap_size_bytes(4096, 4096), 1);
    assert_eq!(bitmap_size_bytes(8 * 4096, 4096), 1);
    assert_eq!(bitmap_size_bytes(9 * 4096, 4096), 2);
    assert_eq!(bitmap_size_bytes(0x201000, 4096), 65);
    assert_eq!(bitmap_size_bytes(0x100000, 4096), 32);
    assert_eq!(bitmap_size_bytes(usize::MAX, 1), usize::MAX / 8 + 1);
}

#[test]
fn second_initialization_replaces_the_first() {
    let first = vec![region(0x0, 0x8000, RegionKind::Usable)];
    let second = vec![
        region(0x1000, 0x1000, RegionKind::Usable),
        region(0x2000, 0x1000, RegionKind::ExecutableAndModules),
    ];
    let mut storage_a = vec![0u8; 1];
    let mut storage_b = vec![0u8; 1];
    let mut allocator = BitmapAllocator::new();
    assert_eq!(allocator.initialize_from(Some(&first), 0x1000, &mut storage_a), Ok(()));
    assert_eq!(allocator.total_memory(), 0x8000);
    assert_eq!(allocator.initialize_from(Some(&second), 0x1000, &mut storage_b), Ok(()));
    assert_eq!(allocator.total_memory(), 0x2000);
    assert_eq!(allocator.used_memory(), 0x1000);
    assert_eq!(allocator.usable_memory_top(), 0x2000);
    let bitmap = allocator.bitmap().unwrap();
    let free: Vec<usize> = (0..bitmap.bit_count()).filter(|i| !bitmap.get(*i)).collect();
    assert_eq!(free, vec![1]);
}
