use sv39_mm::fs::File;
use sv39_mm::page_table::PageTable;
use sv39_mm::phys::PhysMem;
use sv39_mm::pte::{PageTableEntry, PteFlags, FLAG_R, FLAG_U, FLAG_V, FLAG_W, FLAG_X};
use sv39_mm::translate::{
    copy_from_user, copy_to_user, translated_array_copy, translated_byte_buffer, translated_ref,
    translated_ref_array, translated_refmut, translated_str,
};
use sv39_mm::user_buf::{Fragment, UserBuffer};
use sv39_mm::{PPN_MASK, PAGE_SIZE};

fn flags(bits: u8) -> PteFlags {
    PteFlags::from_bits(bits)
}

/// A fresh arena with `n` extra live data frames beyond whatever the caller
/// allocates later; returns the arena and the data frames' page numbers.
fn arena_with_frames(n: usize) -> (PhysMem, Vec<u64>) {
    let mut mem = PhysMem::new();
    let mut frames = Vec::new();
    for _ in 0..n {
        frames.push(mem.alloc_frame().unwrap());
    }
    (mem, frames)
}

#[test]
fn pte_round_trip_exact() {
    let e = PageTableEntry::new(0x12345, flags(FLAG_V | FLAG_R | FLAG_W));
    assert_eq!(e.bits, (0x12345u64 << 10) | 0b111);
    assert_eq!(e.ppn(), 0x12345);
    assert_eq!(e.flags().bits, FLAG_V | FLAG_R | FLAG_W);
    assert!(e.is_valid());
    assert!(e.readable());
    assert!(e.writable());
    assert!(!e.executable());
}

#[test]
fn pte_round_trip_all_flag_bits() {
    for bits in [0u8, 1, 2, 0x0F, 0x55, 0xAA, 0xFF] {
        let e = PageTableEntry::new(PPN_MASK, flags(bits));
        assert_eq!(e.ppn(), PPN_MASK);
        assert_eq!(e.flags().bits, bits);
    }
}

#[test]
fn flag_sets_union_and_contain() {
    let rw = PteFlags::from_bits(FLAG_R).union(PteFlags::from_bits(FLAG_W));
    assert_eq!(rw.bits, FLAG_R | FLAG_W);
    assert!(rw.contains(PteFlags::from_bits(FLAG_R)));
    assert!(!rw.contains(PteFlags::from_bits(FLAG_X)));
    assert_eq!(PteFlags::empty().bits, 0);
}

#[test]
fn pte_empty_is_invalid() {
    let e = PageTableEntry::empty();
    assert_eq!(e.bits, 0);
    assert!(!e.is_valid());
    assert_eq!(e.ppn(), 0);
}

#[test]
fn set_flags_touches_only_rwx_mask() {
    let mut e = PageTableEntry::new(0x7ABCD, flags(0xFF));
    let before = e.bits;
    e.set_flags((FLAG_W | FLAG_X) as u64);
    assert_eq!(e.bits & !0b1110u64, before & !0b1110u64);
    assert_eq!(e.bits & 0b1110u64, (FLAG_W | FLAG_X) as u64);
    assert!(e.is_valid());
    assert_eq!(e.ppn(), 0x7ABCD);
}

#[test]
fn fresh_table_translates_nothing() {
    let mut mem = PhysMem::new();
    let pt = PageTable::new(&mut mem);
    for vpn in [0u64, 1, 0x12345, 0x7FF_FFFF] {
        assert!(pt.translate(&mem, vpn).is_none());
    }
}

#[test]
fn map_then_translate_yields_entry() {
    let (mut mem, frames) = arena_with_frames(0);
    assert!(frames.is_empty());
    let mut pt = PageTable::new(&mut mem);
    let data = mem.alloc_frame().unwrap();
    let vpn = 0x12345u64;
    pt.map(&mut mem, vpn, data, flags(FLAG_R | FLAG_W | FLAG_U));
    let e = pt.translate(&mem, vpn).unwrap();
    assert_eq!(e.ppn(), data);
    assert_eq!(e.flags().bits, FLAG_R | FLAG_W | FLAG_U | FLAG_V);
    assert!(e.is_valid());
    // a neighbouring page is still unmapped
    assert!(pt.translate(&mem, vpn + 1).map_or(true, |o| !o.is_valid()));
}

#[test]
fn unmap_after_map_leaves_absence() {
    let mut mem = PhysMem::new();
    let mut pt = PageTable::new(&mut mem);
    let data = mem.alloc_frame().unwrap();
    let vpn = 0x54321u64;
    pt.map(&mut mem, vpn, data, flags(FLAG_R));
    assert!(pt.translate(&mem, vpn).unwrap().is_valid());
    pt.unmap(&mut mem, vpn);
    let after = pt.translate(&mem, vpn);
    assert!(after.map_or(true, |e| !e.is_valid()));
}

#[test]
fn token_low_bits_hold_root_and_stay_stable() {
    let mut mem = PhysMem::new();
    let mut pt = PageTable::new(&mut mem);
    let t1 = pt.token();
    assert_eq!(t1 & PPN_MASK, pt.root_ppn);
    assert_eq!(t1 >> 60, 8);
    let t2 = pt.token();
    assert_eq!(t1, t2);
    let data = mem.alloc_frame().unwrap();
    pt.map(&mut mem, 7, data, flags(FLAG_R));
    assert_eq!(pt.token(), t1);
}

#[test]
fn from_token_reconstructs_root() {
    let mut mem = PhysMem::new();
    let pt = PageTable::new(&mut mem);
    let view = PageTable::from_token(pt.token());
    assert_eq!(view.root_ppn, pt.root_ppn);
    assert!(view.frames.is_empty());
}

#[test]
fn set_pte_flags_fails_on_missing_level() {
    let mut mem = PhysMem::new();
    let pt = PageTable::new(&mut mem);
    assert_eq!(pt.set_pte_flags(&mut mem, 0x11111, (FLAG_R | FLAG_W) as u64), -1);
}

#[test]
fn set_pte_flags_rewrites_only_permissions() {
    let mut mem = PhysMem::new();
    let mut pt = PageTable::new(&mut mem);
    let data = mem.alloc_frame().unwrap();
    let vpn = 0x23456u64;
    pt.map(&mut mem, vpn, data, flags(FLAG_R | FLAG_W | FLAG_U));
    let before = pt.translate(&mem, vpn).unwrap();
    assert_eq!(pt.set_pte_flags(&mut mem, vpn, FLAG_X as u64), 0);
    let after = pt.translate(&mem, vpn).unwrap();
    assert_eq!(after.bits & !0b1110u64, before.bits & !0b1110u64);
    assert_eq!(after.bits & 0b1110u64, FLAG_X as u64);
    assert!(after.is_valid());
    assert_eq!(after.ppn(), data);
}

#[test]
fn translate_va_splices_offset() {
    let mut mem = PhysMem::new();
    let mut pt = PageTable::new(&mut mem);
    let data = mem.alloc_frame().unwrap();
    let vpn = 0x00042u64;
    pt.map(&mut mem, vpn, data, flags(FLAG_R));
    let va = vpn * 4096 + 77;
    assert_eq!(pt.translate_va(&mem, va), Some(data * 4096 + 77));
    assert_eq!(pt.translate_va(&mem, 0x200042 * 4096), None);
}

#[test]
fn release_frees_every_owned_frame_exactly_once() {
    let mut mem = PhysMem::new();
    let mut pt = PageTable::new(&mut mem);
    let data = mem.alloc_frame().unwrap();
    pt.map(&mut mem, 0x12345, data, flags(FLAG_R));
    pt.map(&mut mem, 0x54321, data, flags(FLAG_R));
    let owned = pt.frames.clone();
    // root plus intermediate levels of two disjoint paths
    assert_eq!(owned.len(), 5);
    for p in &owned {
        assert!(mem.check_live(*p));
    }
    pt.release(&mut mem);
    for p in &owned {
        assert!(!mem.check_live(*p));
    }
    // the data frame was never owned by the table
    assert!(mem.check_live(data));
}

#[test]
fn buffer_len_sums_fragments() {
    let buf = UserBuffer::new(vec![
        Fragment { ppn: 0, start: 10, end: 13 },
        Fragment { ppn: 1, start: 100, end: 105 },
    ]);
    assert_eq!(buf.len(), 8);
}

#[test]
fn buffer_write_two_fragments_capacity_eight() {
    let (mut mem, frames) = arena_with_frames(2);
    let buf = UserBuffer::new(vec![
        Fragment { ppn: frames[0], start: 10, end: 13 },
        Fragment { ppn: frames[1], start: 100, end: 105 },
    ]);
    let src: Vec<u8> = vec![1, 2, 3, 4, 5, 6, 7, 8, 9, 10];
    let written = buf.write(&mut mem, &src);
    assert_eq!(written, 8);
    assert_eq!(
        (0..3).map(|k| mem.read_byte(frames[0], 10 + k)).collect::<Vec<u8>>(),
        &src[0..3]
    );
    assert_eq!(
        (0..5).map(|k| mem.read_byte(frames[1], 100 + k)).collect::<Vec<u8>>(),
        &src[3..8]
    );
    // a byte outside the fragments is untouched
    assert_eq!(mem.read_byte(frames[0], 13), 0);
}

#[test]
fn buffer_write_short_source_stops_early() {
    let (mut mem, frames) = arena_with_frames(1);
    let buf = UserBuffer::new(vec![Fragment { ppn: frames[0], start: 0, end: 8 }]);
    let src: Vec<u8> = vec![9, 8, 7];
    assert_eq!(buf.write(&mut mem, &src), 3);
    assert_eq!(mem.read_byte(frames[0], 0), 9);
    assert_eq!(mem.read_byte(frames[0], 2), 7);
    assert_eq!(mem.read_byte(frames[0], 3), 0);
}

#[test]
fn buffer_read_gathers_in_order() {
    let (mut mem, frames) = arena_with_frames(2);
    for (k, v) in [(10, 11u8), (11, 22), (12, 33)] {
        mem.write_byte(frames[0], k, v);
    }
    for (k, v) in [(0, 44u8), (1, 55)] {
        mem.write_byte(frames[1], k, v);
    }
    let buf = UserBuffer::new(vec![
        Fragment { ppn: frames[0], start: 10, end: 13 },
        Fragment { ppn: frames[1], start: 0, end: 2 },
    ]);
    let mut dst: Vec<u8> = vec![0; 10];
    assert_eq!(buf.read(&mem, &mut dst), 5);
    assert_eq!(dst, vec![11, 22, 33, 44, 55, 0, 0, 0, 0, 0]);
    let mut short: Vec<u8> = vec![0; 2];
    assert_eq!(buf.read(&mem, &mut short), 2);
    assert_eq!(short, vec![11, 22]);
}

#[test]
fn buffer_read_as_vec_appends_everything() {
    let (mut mem, frames) = arena_with_frames(1);
    mem.write_byte(frames[0], 5, 77);
    mem.write_byte(frames[0], 6, 88);
    let buf = UserBuffer::new(vec![Fragment { ppn: frames[0], start: 5, end: 7 }]);
    let mut out: Vec<u8> = vec![42];
    assert_eq!(buf.read_as_vec(&mem, &mut out, 2), 2);
    assert_eq!(out, vec![42, 77, 88]);
}

#[test]
fn buffer_iterator_walks_byte_locations_in_order() {
    let buf = UserBuffer::new(vec![
        Fragment { ppn: 4, start: 10, end: 12 },
        Fragment { ppn: 9, start: 0, end: 1 },
    ]);
    let mut it = buf.into_iter();
    let expected = [(4u64, 10usize), (4, 11), (9, 0)];
    for (ppn, off) in expected {
        let loc = it.next().unwrap();
        assert_eq!((loc.ppn, loc.off), (ppn, off));
    }
    assert!(it.next().is_none());
    assert!(it.next().is_none());
}

/// A mapped three-page window starting at `vpn`; returns the arena, the
/// table and the three data frames.
fn mapped_window(vpn: u64) -> (PhysMem, PageTable, Vec<u64>) {
    let mut mem = PhysMem::new();
    let mut pt = PageTable::new(&mut mem);
    let mut frames = Vec::new();
    for k in 0..3 {
        let f = mem.alloc_frame().unwrap();
        pt.map(&mut mem, vpn + k, f, flags(FLAG_R | FLAG_W | FLAG_U));
        frames.push(f);
    }
    (mem, pt, frames)
}

#[test]
fn byte_buffer_empty_range_has_no_fragment() {
    let (mem, pt, _frames) = mapped_window(0x300);
    let v = translated_byte_buffer(&pt, &mem, 0x300 * 4096, 0);
    assert!(v.is_empty());
}

#[test]
fn translated_str_empty_string() {
    let (mut mem, pt, frames) = mapped_window(0x41);
    mem.write_byte(frames[0], 0, 0);
    assert!(translated_str(&pt, &mem, 0x41 * 4096).is_empty());
}

#[test]
fn byte_buffer_single_page_is_one_fragment() {
    let vpn = 0x300u64;
    let (mem, pt, frames) = mapped_window(vpn);
    let ptr = vpn * 4096 + 10;
    let v = translated_byte_buffer(&pt, &mem, ptr, 100);
    assert_eq!(v.len(), 1);
    assert_eq!(v[0].ppn, frames[0]);
    assert_eq!(v[0].start, 10);
    assert_eq!(v[0].end, 110);
}

#[test]
fn byte_buffer_spanning_pages_splits_at_boundaries() {
    let vpn = 0x300u64;
    let (mem, pt, frames) = mapped_window(vpn);
    let ptr = vpn * 4096 + 4000;
    let v = translated_byte_buffer(&pt, &mem, ptr, 5000);
    assert_eq!(v.len(), 3);
    let lens: Vec<usize> = v.iter().map(|f| f.end - f.start).collect();
    assert_eq!(lens, vec![96, 4096, 808]);
    assert_eq!(lens.iter().sum::<usize>(), 5000);
    assert_eq!(v[0].ppn, frames[0]);
    assert_eq!(v[1].ppn, frames[1]);
    assert_eq!(v[2].ppn, frames[2]);
    for f in &v {
        assert!(f.end <= PAGE_SIZE);
    }
}

#[test]
fn translated_str_stops_at_terminator() {
    let vpn = 0x40u64;
    let (mut mem, pt, frames) = mapped_window(vpn);
    let text = [104u8, 101, 108, 108, 111];
    for (k, b) in text.iter().enumerate() {
        mem.write_byte(frames[0], 20 + k, *b);
    }
    mem.write_byte(frames[0], 20 + text.len(), 0);
    let s = translated_str(&pt, &mem, vpn * 4096 + 20);
    assert_eq!(s, text.to_vec());
}

#[test]
fn translated_ref_points_into_the_frame() {
    let vpn = 0x55u64;
    let (mem, pt, frames) = mapped_window(vpn);
    let va = vpn * 4096 + 120;
    let loc = translated_ref(&pt, &mem, va, 8);
    assert_eq!(loc.ppn, frames[0]);
    assert_eq!(loc.off, 120);
    let loc2 = translated_refmut(&pt, &mem, va, 8);
    assert_eq!((loc2.ppn, loc2.off), (loc.ppn, loc.off));
}

#[test]
fn translated_ref_array_steps_by_element_size() {
    let vpn = 0x66u64;
    let (mem, pt, frames) = mapped_window(vpn);
    let va = vpn * 4096 + 16;
    let locs = translated_ref_array(&pt, &mem, va, 8, 4);
    assert_eq!(locs.len(), 4);
    for (i, loc) in locs.iter().enumerate() {
        assert_eq!(loc.ppn, frames[0]);
        assert_eq!(loc.off, 16 + 8 * i);
    }
}

#[test]
fn translated_array_copy_marshals_each_element() {
    let vpn = 0x77u64;
    let (mut mem, pt, frames) = mapped_window(vpn);
    for k in 0..8 {
        mem.write_byte(frames[0], k, (k as u8) + 1);
    }
    let copies = translated_array_copy(&pt, &mem, vpn * 4096, 4, 2);
    assert_eq!(copies.len(), 2);
    assert_eq!(copies[0], vec![1, 2, 3, 4]);
    assert_eq!(copies[1], vec![5, 6, 7, 8]);
}

#[test]
fn copy_round_trip_through_user_space() {
    let vpn = 0x88u64;
    let (mut mem, pt, _frames) = mapped_window(vpn);
    let dst_va = vpn * 4096 + 4090;
    let payload: Vec<u8> = (0u8..32).collect();
    let wrote = copy_to_user(&pt, &mut mem, dst_va, &payload, 32);
    assert_eq!(wrote, 32);
    let mut back: Vec<u8> = vec![0; 32];
    let got = copy_from_user(&pt, &mem, &mut back, dst_va, 32);
    assert_eq!(got, 32);
    assert_eq!(back, payload);
}

/// A sink stream that counts what it is offered: exercises the capability
/// interface from outside the library.
struct NullSink;

impl File for NullSink {
    fn readable(&self) -> bool {
        false
    }
    fn writable(&self) -> bool {
        true
    }
    fn read(&self, _mem: &mut PhysMem, _buf: UserBuffer) -> usize {
        0
    }
    fn write(&self, _mem: &mut PhysMem, buf: UserBuffer) -> usize {
        buf.len()
    }
}

#[test]
fn file_capability_dispatches() {
    let (mut mem, frames) = arena_with_frames(1);
    let sink = NullSink;
    assert!(sink.writable());
    assert!(!sink.readable());
    let buf = UserBuffer::new(vec![Fragment { ppn: frames[0], start: 0, end: 6 }]);
    assert_eq!(sink.write(&mut mem, buf), 6);
    assert_eq!(sink.ioctl(0, 0), 0);
}
