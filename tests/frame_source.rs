use h_os::memory::{memory_map_is_valid, BootInfoFrameAllocator, EmptyFrameAllocator, FrameAllocator, MemoryRegion, MemoryRegionType};

fn region(start: u64, end: u64, usable: bool) -> MemoryRegion {
    MemoryRegion {
        start_addr: start,
        end_addr: end,
        region_type: if usable { MemoryRegionType::Usable } else { MemoryRegionType::Reserved },
    }
}

fn sample_map() -> Vec<MemoryRegion> {
    vec![
        region(0x0, 0x1000, false),
        region(0x1000, 0x4000, true),
        region(0x4000, 0x5000, false),
        region(0x10000, 0x12000, true),
        region(0x12000, 0x12000, true),
    ]
}

#[test]
fn n_frames_then_exhausted() {
    let map = sample_map();
    let mut a = BootInfoFrameAllocator::init(&map);
    let mut seen = Vec::new();
    for _ in 0..5 {
        let f = a.allocate_frame().expect("a usable frame is left");
        assert!(!seen.contains(&f));
        assert_eq!(f % 4096, 0);
        seen.push(f);
    }
    assert_eq!(a.allocate_frame(), None);
    assert_eq!(a.allocate_frame(), None);
}

#[test]
fn frames_come_in_map_order() {
    let map = sample_map();
    let mut a = BootInfoFrameAllocator::init(&map);
    let got: Vec<u64> = (0..5).map(|_| a.allocate_frame().unwrap()).collect();
    assert_eq!(got, vec![0x1000, 0x2000, 0x3000, 0x10000, 0x11000]);
}

#[test]
fn reserved_regions_give_nothing() {
    let map = [region(0x0, 0x8000, false)];
    let mut a = BootInfoFrameAllocator::init(&map);
    assert_eq!(a.allocate_frame(), None);
}

#[test]
fn empty_map_gives_nothing() {
    let mut a = BootInfoFrameAllocator::init(&[]);
    assert_eq!(a.allocate_frame(), None);
}

#[test]
fn empty_frame_allocator_gives_nothing() {
    let mut a = EmptyFrameAllocator;
    assert_eq!(a.allocate_frame(), None);
    assert_eq!(a.allocate_frame(), None);
}

#[test]
fn memory_map_validity() {
    assert!(memory_map_is_valid(&sample_map()));
    assert!(memory_map_is_valid(&[]));
    assert!(!memory_map_is_valid(&[region(0x1000, 0x3000, true), region(0x2000, 0x4000, true)]));
    assert!(!memory_map_is_valid(&[region(0x1001, 0x3000, true)]));
    assert!(!memory_map_is_valid(&[region(0x3000, 0x1000, true)]));
    assert!(!memory_map_is_valid(&[region(0x0, 0x0020_0000_0000_0000, true)]));
}

#[test]
fn frames_high_in_physical_memory() {
    let top = 0x0010_0000_0000_0000u64;
    let map = [region(top - 0x2000, top, true)];
    let mut a = BootInfoFrameAllocator::init(&map);
    assert_eq!(a.allocate_frame(), Some(top - 0x2000));
    assert_eq!(a.allocate_frame(), Some(top - 0x1000));
    assert_eq!(a.allocate_frame(), None);
}
