use h_os::allocator::{heap_init_step, init_heap, HeapEvent, HeapStep, HEAP_PAGES, HEAP_SIZE, HEAP_START};
use h_os::memory::{self, create_mapping_to_vga, translate_addr_v2p, BootInfoFrameAllocator, EmptyFrameAllocator, MemoryRegion, MemoryRegionType};
use h_os::paging::{MapToError, PRESENT, WRITABLE};

fn frames(start: u64, count: u64) -> BootInfoFrameAllocator<'static> {
    let map = vec![MemoryRegion {
        start_addr: start,
        end_addr: start + count * 4096,
        region_type: MemoryRegionType::Usable,
    }];
    BootInfoFrameAllocator::init(Vec::leak(map))
}

#[test]
fn map_then_translate_gives_frame_plus_offset() {
    let mut mapper = memory::init(0x1000);
    let mut alloc = frames(0x100000, 16);
    let page = 0x1234_5000u64;
    let frame = 0xabc000u64;
    let flush = mapper.map_to(page, frame, PRESENT | WRITABLE, &mut alloc).unwrap();
    assert_eq!(flush.page, page);
    for off in [0u64, 1, 0x7ff, 0xfff] {
        assert_eq!(translate_addr_v2p(page + off, &mapper), Some(frame + off));
    }
    assert_eq!(translate_addr_v2p(page + 0x1000, &mapper), None);
    assert_eq!(translate_addr_v2p(page - 1, &mapper), None);
}

#[test]
fn fresh_address_space_maps_nothing() {
    let mapper = memory::init(0x1000);
    assert_eq!(translate_addr_v2p(0, &mapper), None);
    assert_eq!(translate_addr_v2p(0xdead_b000, &mapper), None);
}

#[test]
fn pages_differing_at_each_level_stay_apart() {
    let mut mapper = memory::init(0x1000);
    let mut alloc = frames(0x100000, 64);
    let base = 0x0000_1000_0000_0000u64;
    let pages = [base, base + (1 << 12), base + (1 << 21), base + (1 << 30), base + (1 << 39)];
    for (k, p) in pages.iter().enumerate() {
        mapper.map_to(*p, 0x4000_0000 + (k as u64) * 0x1000, PRESENT, &mut alloc).unwrap();
    }
    for (k, p) in pages.iter().enumerate() {
        assert_eq!(translate_addr_v2p(*p + 8, &mapper), Some(0x4000_0000 + (k as u64) * 0x1000 + 8));
    }
}

#[test]
fn tables_are_shared_between_neighbouring_pages() {
    let mut mapper = memory::init(0x1000);
    let mut alloc = frames(0x100000, 5);
    mapper.map_to(0x20_0000, 0x50_0000, PRESENT, &mut alloc).unwrap();
    // three tables and no more are taken for the first page
    mapper.map_to(0x20_1000, 0x50_1000, PRESENT, &mut alloc).unwrap();
    mapper.map_to(0x20_2000, 0x50_2000, PRESENT, &mut alloc).unwrap();
    assert_eq!(translate_addr_v2p(0x20_1abc, &mapper), Some(0x50_1abc));
}

#[test]
fn mapping_a_page_twice_fails() {
    let mut mapper = memory::init(0x1000);
    let mut alloc = frames(0x100000, 8);
    mapper.map_to(0x7000, 0x9000, PRESENT, &mut alloc).unwrap();
    assert_eq!(
        mapper.map_to(0x7000, 0xa000, PRESENT, &mut alloc),
        Err(MapToError::PageAlreadyMapped(0xa000))
    );
    assert_eq!(translate_addr_v2p(0x7010, &mapper), Some(0x9010));
}

#[test]
fn no_frames_for_tables_fails() {
    let mut mapper = memory::init(0x1000);
    let mut alloc = EmptyFrameAllocator;
    assert_eq!(
        mapper.map_to(0x7000, 0x9000, PRESENT, &mut alloc),
        Err(MapToError::FrameAllocationFailed)
    );
    let mut two = frames(0x100000, 2);
    assert_eq!(
        mapper.map_to(0x7000, 0x9000, PRESENT, &mut two),
        Err(MapToError::FrameAllocationFailed)
    );
    let mut three = frames(0x200000, 3);
    assert!(mapper.map_to(0x7000, 0x9000, PRESENT, &mut three).is_ok());
    assert_eq!(translate_addr_v2p(0x7fff, &mapper), Some(0x9fff));
}

#[test]
fn vga_mapping() {
    let mut mapper = memory::init(0x1000);
    let mut alloc = frames(0x100000, 8);
    let flush = create_mapping_to_vga(0xdead_b000, &mut mapper, &mut alloc).unwrap();
    assert_eq!(flush.page, 0xdead_b000);
    assert_eq!(translate_addr_v2p(0xdead_b000, &mapper), Some(0xb8000));
    assert_eq!(translate_addr_v2p(0xdead_bf9f, &mapper), Some(0xb8f9f));
}

#[test]
fn heap_window_is_backed() {
    let mut mapper = memory::init(0x1000);
    let mut alloc = frames(0x100000, 300);
    let flushes = init_heap(&mut mapper, &mut alloc).unwrap();
    assert_eq!(flushes.len() as u64, HEAP_SIZE / 4096);
    assert_eq!(flushes[0].page, HEAP_START);
    assert_eq!(flushes[255].page, HEAP_START + HEAP_SIZE - 4096);
    assert!(translate_addr_v2p(HEAP_START, &mapper).is_some());
    assert!(translate_addr_v2p(HEAP_START + HEAP_SIZE / 2 + 3, &mapper).is_some());
    assert!(translate_addr_v2p(HEAP_START + HEAP_SIZE - 1, &mapper).is_some());
    assert_eq!(translate_addr_v2p(HEAP_START + HEAP_SIZE, &mapper), None);
    assert_eq!(translate_addr_v2p(HEAP_START - 1, &mapper), None);
}

#[test]
fn heap_pages_get_distinct_frames() {
    let mut mapper = memory::init(0x1000);
    let mut alloc = frames(0x100000, 300);
    init_heap(&mut mapper, &mut alloc).unwrap();
    let mut seen = Vec::new();
    for k in 0..(HEAP_SIZE / 4096) {
        let f = translate_addr_v2p(HEAP_START + k * 4096, &mapper).unwrap();
        assert!(!seen.contains(&f));
        seen.push(f);
    }
}

#[test]
fn heap_fails_when_frames_run_out() {
    let mut mapper = memory::init(0x1000);
    let mut alloc = frames(0x100000, 100);
    assert_eq!(init_heap(&mut mapper, &mut alloc), Err(MapToError::FrameAllocationFailed));
    // the pages mapped before the failure stay mapped
    assert!(translate_addr_v2p(HEAP_START, &mapper).is_some());
}

#[test]
fn heap_fails_when_a_page_is_mapped_already() {
    let mut mapper = memory::init(0x1000);
    let mut alloc = frames(0x100000, 400);
    mapper.map_to(HEAP_START + 5 * 4096, 0x7000_0000, PRESENT, &mut alloc).unwrap();
    match init_heap(&mut mapper, &mut alloc) {
        Err(MapToError::PageAlreadyMapped(_)) => {}
        other => panic!("expected PageAlreadyMapped, got {:?}", other),
    }
    assert_eq!(translate_addr_v2p(HEAP_START + 5 * 4096, &mapper), Some(0x7000_0000));
    assert!(translate_addr_v2p(HEAP_START + 4 * 4096, &mapper).is_some());
}

#[test]
fn heap_needs_exactly_its_pages_and_tables() {
    let mut mapper = memory::init(0x1000);
    let mut short = frames(0x100000, 258);
    assert_eq!(init_heap(&mut mapper, &mut short), Err(MapToError::FrameAllocationFailed));
    let mut mapper = memory::init(0x1000);
    let mut exact = frames(0x100000, 259);
    assert!(init_heap(&mut mapper, &mut exact).is_ok());
}

#[test]
fn heap_steps_go_page_by_page() {
    let (mut mapped, mut step) = heap_init_step(0, HeapEvent::Start);
    assert_eq!((mapped, step), (0, HeapStep::MapPage { page: HEAP_START }));
    let mut pages = vec![];
    while let HeapStep::MapPage { page } = step {
        pages.push(page);
        (mapped, step) = heap_init_step(mapped, HeapEvent::PageMapped);
    }
    assert_eq!(mapped, HEAP_PAGES);
    assert_eq!(pages.len() as u64, HEAP_PAGES);
    assert_eq!(pages[1], HEAP_START + 4096);
    assert_eq!(pages[255], HEAP_START + HEAP_SIZE - 4096);
    assert_eq!(step, HeapStep::InitAllocator { start: HEAP_START, size: HEAP_SIZE });
}

#[test]
fn heap_steps_stop_at_first_failure() {
    assert_eq!(
        heap_init_step(7, HeapEvent::NoFrame),
        (7, HeapStep::Fail(MapToError::FrameAllocationFailed))
    );
    assert_eq!(
        heap_init_step(3, HeapEvent::MapFailed(MapToError::PageAlreadyMapped(0x9000))),
        (3, HeapStep::Fail(MapToError::PageAlreadyMapped(0x9000)))
    );
}

#[test]
fn heap_takes_its_pages_and_tables_from_the_source() {
    let mut mapper = memory::init(0x1000);
    let mut alloc = frames(0x100000, 300);
    init_heap(&mut mapper, &mut alloc).unwrap();
    // 256 leaf frames and three tables were taken
    let mut rest = 0;
    while h_os::memory::FrameAllocator::allocate_frame(&mut alloc).is_some() {
        rest += 1;
    }
    assert_eq!(rest, 300 - 256 - 3);
}

#[test]
fn vga_mapping_leaves_new_tables_otherwise_empty() {
    let mut mapper = memory::init(0x1000);
    let mut alloc = frames(0x100000, 8);
    create_mapping_to_vga(0x4000_0000, &mut mapper, &mut alloc).unwrap();
    assert_eq!(translate_addr_v2p(0x4000_0000, &mapper), Some(0xb8000));
    assert_eq!(translate_addr_v2p(0x4000_1000, &mapper), None);
    assert_eq!(translate_addr_v2p(0x4020_0000, &mapper), None);
    assert_eq!(translate_addr_v2p(0x8000_0000, &mapper), None);
}

#[test]
fn heap_without_frames_maps_nothing() {
    let mut mapper = memory::init(0x1000);
    let mut alloc = EmptyFrameAllocator;
    assert_eq!(init_heap(&mut mapper, &mut alloc), Err(MapToError::FrameAllocationFailed));
    assert_eq!(translate_addr_v2p(HEAP_START, &mapper), None);
    assert_eq!(translate_addr_v2p(HEAP_START + HEAP_SIZE - 1, &mapper), None);
}
