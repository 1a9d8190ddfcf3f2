use oscore::mem::{
    map_page, space_mmap, space_munmap, translate, v_to_p, AddressSpace, PageTable, PAGE_SIZE,
};
use oscore::process::Process;
use oscore::sysproc::{sys_mmap, sys_munmap, sys_sbrk, time_val_from_us};

fn empty_space() -> AddressSpace {
    AddressSpace {
        regions: Vec::new(),
        heap_bottom: 0x8000,
        brk: 0x8000,
        page_table: PageTable { entries: Vec::new() },
    }
}

fn proc_with_empty_space() -> Process {
    Process::make(0, None, empty_space())
}

#[test]
fn mmap_then_munmap_roundtrip() {
    let mut p = proc_with_empty_space();
    assert_eq!(sys_mmap(&mut p, 0x1000, 0x2000, 0b011), 0);
    assert_eq!(p.space.regions.len(), 1);
    assert_eq!(sys_munmap(&mut p, 0x1000, 0x2000), 0);
    assert_eq!(p.space.regions.len(), 0);
}

#[test]
fn mmap_unaligned_start_fails() {
    let mut p = proc_with_empty_space();
    assert_eq!(sys_mmap(&mut p, 0x1001, 0x100, 0b001), -1);
    assert_eq!(p.space.regions.len(), 0);
}

#[test]
fn mmap_bad_permission_fails() {
    let mut p = proc_with_empty_space();
    // a bit outside the low 3
    assert_eq!(sys_mmap(&mut p, 0x1000, 0x100, 0b1000), -1);
    // no access at all
    assert_eq!(sys_mmap(&mut p, 0x1000, 0x100, 0), -1);
    assert_eq!(p.space.regions.len(), 0);
}

#[test]
fn mmap_overlap_fails() {
    let mut p = proc_with_empty_space();
    assert_eq!(sys_mmap(&mut p, 0x1000, 0x2000, 0b111), 0);
    assert_eq!(sys_mmap(&mut p, 0x2000, 0x1000, 0b001), -1);
    assert_eq!(p.space.regions.len(), 1);
}

#[test]
fn mmap_zero_length_is_noop_success() {
    let mut p = proc_with_empty_space();
    assert_eq!(sys_mmap(&mut p, 0x1000, 0, 0b001), 0);
    assert_eq!(p.space.regions.len(), 0);
}

#[test]
fn munmap_mismatch_fails() {
    let mut p = proc_with_empty_space();
    assert_eq!(sys_mmap(&mut p, 0x1000, 0x1000, 0b111), 0);
    // half the region
    assert_eq!(sys_munmap(&mut p, 0x1000, 0x800), -1);
    // a range never mapped
    assert_eq!(sys_munmap(&mut p, 0x3000, 0x1000), -1);
    assert_eq!(p.space.regions.len(), 1);
}

#[test]
fn munmap_zero_length_is_noop_success() {
    let mut p = proc_with_empty_space();
    assert_eq!(sys_mmap(&mut p, 0x1000, 0x1000, 0b111), 0);
    assert_eq!(sys_munmap(&mut p, 0x1000, 0), 0);
    assert_eq!(p.space.regions.len(), 1);
}

#[test]
fn munmap_covers_two_adjacent_regions() {
    let mut p = proc_with_empty_space();
    assert_eq!(sys_mmap(&mut p, 0x1000, 0x1000, 0b001), 0);
    assert_eq!(sys_mmap(&mut p, 0x2000, 0x1000, 0b010), 0);
    assert_eq!(sys_munmap(&mut p, 0x1000, 0x2000), 0);
    assert_eq!(p.space.regions.len(), 0);
}

#[test]
fn sbrk_zero_reports_break_unchanged() {
    let mut p = proc_with_empty_space();
    assert_eq!(sys_sbrk(&mut p, 0), 0x8000);
    assert_eq!(p.space.brk, 0x8000);
}

#[test]
fn sbrk_roundtrip_restores_break() {
    let mut p = proc_with_empty_space();
    assert_eq!(sys_sbrk(&mut p, 0x100), 0x8000);
    assert_eq!(p.space.brk, 0x8100);
    assert_eq!(sys_sbrk(&mut p, -0x100), 0x8100);
    assert_eq!(p.space.brk, 0x8000);
}

#[test]
fn sbrk_below_heap_bottom_fails() {
    let mut p = proc_with_empty_space();
    assert_eq!(sys_sbrk(&mut p, -1), -1);
    assert_eq!(p.space.brk, 0x8000);
}

#[test]
fn translate_finds_mapping_and_misses_unmapped() {
    let mut pt = PageTable { entries: Vec::new() };
    map_page(&mut pt, 5, 7);
    assert_eq!(translate(&pt, 5), Some(7));
    assert_eq!(translate(&pt, 9), None);
}

#[test]
fn map_page_shadows_older_entry() {
    let mut pt = PageTable { entries: Vec::new() };
    map_page(&mut pt, 5, 7);
    map_page(&mut pt, 5, 11);
    assert_eq!(translate(&pt, 5), Some(11));
}

#[test]
fn v_to_p_combines_frame_and_offset() {
    let mut pt = PageTable { entries: Vec::new() };
    map_page(&mut pt, 5, 7);
    let va = 5 * PAGE_SIZE + 123;
    assert_eq!(v_to_p(&pt, va), 7 * PAGE_SIZE + 123);
}

#[test]
fn space_ops_work_directly_on_a_space() {
    let mut s = empty_space();
    assert_eq!(space_mmap(&mut s, 0x4000, 0x1000, 0b101), 0);
    assert_eq!(space_munmap(&mut s, 0x4000, 0x1000), 0);
    assert_eq!(s.regions.len(), 0);
}

#[test]
fn time_val_splits_microseconds() {
    let tv = time_val_from_us(3_500_042);
    assert_eq!(tv.sec, 3);
    assert_eq!(tv.usec, 500_042);
}
