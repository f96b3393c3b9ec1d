//! Cross-address-space translation helpers: byte ranges, zero-terminated
//! byte strings, scalar locations and arrays, against a page-table view
//! built from a caller-supplied token.
use vstd::prelude::*;
use crate::page_table::PageTable;
use crate::phys::{PhysLoc, PhysMem};
use crate::pte::bits_ppn;
use crate::user_buf::{buf_bytes, buf_wf, frag_len, frags_len, lemma_buf_push, Fragment, UserBuffer};
use crate::{ENTRY_COUNT, PAGE_SIZE};

verus! {

/// One past the highest virtual address of the 39-bit address space.
pub const VA_END: u64 = 0x80_0000_0000;

/// The frame behind the page of virtual address `va`.
pub open spec fn va_ppn(pt: PageTable, mem: PhysMem, va: u64) -> u64 {
    bits_ppn(pt.leaf(mem, va / 4096))
}

/// The byte a virtual address denotes, through the leaf mapping of its page.
pub open spec fn va_byte(pt: PageTable, mem: PhysMem, va: u64) -> u8 {
    mem.byte(va_ppn(pt, mem, va), (va % 4096) as int)
}

/// The `n` bytes starting at virtual address `va`.
pub open spec fn va_bytes(pt: PageTable, mem: PhysMem, va: u64, n: int) -> Seq<u8> {
    Seq::new(n as nat, |k: int| va_byte(pt, mem, (va + k) as u64))
}

/// Every page the range [`ptr`,`ptr+len`) touches is mapped to a live frame.
pub open spec fn range_mapped(pt: PageTable, mem: PhysMem, ptr: u64, len: u64) -> bool {
    forall|vpn: u64|
        ptr / 4096 <= vpn <= (ptr + len - 1) / 4096 ==> #[trigger] pt.spec_mapped(mem, vpn)
            && mem.is_live(bits_ppn(pt.leaf(mem, vpn)))
}

/// The pages of the range map to pairwise distinct frames, so the byte
/// ranges handed out never alias.
pub open spec fn range_frames_distinct(pt: PageTable, mem: PhysMem, ptr: u64, len: u64) -> bool {
    forall|a: u64, b: u64|
        #![trigger pt.leaf(mem, a), pt.leaf(mem, b)]
        ptr / 4096 <= a < b <= (ptr + len - 1) / 4096 ==> bits_ppn(pt.leaf(mem, a)) != bits_ppn(
            pt.leaf(mem, b),
        )
}

/// Two arenas hold the same page tables: equally many frames, every entry
/// word equal. Data bytes may differ.
pub open spec fn same_tables(m1: PhysMem, m2: PhysMem) -> bool {
    &&& m2.wf()
    &&& m2.frames@.len() == m1.frames@.len()
    &&& forall|p: u64, i: int|
        p < m1.frames@.len() && 0 <= i < ENTRY_COUNT ==> m2.entry(p, i) == #[trigger] m1.entry(
            p,
            i,
        )
}

/// A walk reads only table entries, so two arenas with the same tables give
/// every virtual page the same leaf entry.
pub proof fn lemma_same_tables_find(pt: PageTable, m1: PhysMem, m2: PhysMem, vpn: u64)
    requires
        pt.wf_in(m1),
        same_tables(m1, m2),
    ensures
        pt.path_exists(m2, vpn) == pt.path_exists(m1, vpn),
        pt.spec_find(m2, vpn) == pt.spec_find(m1, vpn),
        pt.path_exists(m1, vpn) ==> pt.leaf(m2, vpn) == pt.leaf(m1, vpn) && pt.l2_ppn(m2, vpn)
            == pt.l2_ppn(m1, vpn),
{
    assert((vpn >> 18) & 0x1FF < 512 && (vpn >> 9) & 0x1FF < 512 && vpn & 0x1FF < 512)
        by (bit_vector);
    let i0 = crate::page_table::spec_idx0(vpn) as int;
    let i1 = crate::page_table::spec_idx1(vpn) as int;
    let i2 = crate::page_table::spec_idx2(vpn) as int;
    assert(m1.is_live(pt.root_ppn));
    assert(m2.entry(pt.root_ppn, i0) == m1.entry(pt.root_ppn, i0));
    if pt.l1_valid(m1, i0) {
        assert(m1.is_live(pt.l1_at(m1, i0)));
        assert(m2.entry(pt.l1_at(m1, i0), i1) == m1.entry(pt.l1_at(m1, i0), i1));
        if pt.l2_valid(m1, i0, i1) {
            assert(m1.is_live(pt.l2_at(m1, i0, i1)));
            assert(m2.entry(pt.l2_at(m1, i0, i1), i2) == m1.entry(pt.l2_at(m1, i0, i1), i2));
        }
    }
}

/// With the same tables and the same liveness, a well-formed tree stays
/// well formed.
pub proof fn lemma_same_tables_wf(pt: PageTable, m1: PhysMem, m2: PhysMem)
    requires
        pt.wf_in(m1),
        same_tables(m1, m2),
        m2.live@ == m1.live@,
    ensures
        pt.wf_in(m2),
{
    assert(m1.is_live(pt.root_ppn));
    assert forall|i: int|
        0 <= i < ENTRY_COUNT implies #[trigger] pt.l1_valid(m2, i) == pt.l1_valid(m1, i)
        && pt.l1_at(m2, i) == pt.l1_at(m1, i) by {
        assert(m2.entry(pt.root_ppn, i) == m1.entry(pt.root_ppn, i));
    }
    assert forall|i: int, j: int|
        0 <= i < ENTRY_COUNT && 0 <= j < ENTRY_COUNT && pt.l1_valid(m1, i) implies {
        &&& #[trigger] pt.l2_valid(m2, i, j) == pt.l2_valid(m1, i, j)
        &&& pt.l2_at(m2, i, j) == pt.l2_at(m1, i, j)
    } by {
        assert(m1.is_live(pt.l1_at(m1, i)));
        assert(m2.entry(pt.l1_at(m1, i), j) == m1.entry(pt.l1_at(m1, i), j));
    }
    assert forall|p: u64| #[trigger] m1.is_live(p) implies m2.is_live(p) by {
        assert(m2.live@[p as int] == m1.live@[p as int]);
    }
}

/// Split [`ptr`,`ptr+len`) into the minimal ordered sequence of same-page
/// fragments: one per spanned page, clipped to the page boundary or the
/// range end. The fragments are disjoint, their lengths sum to `len`, and —
/// under any arena with the same tables — their bytes are exactly the bytes
/// the range denotes. Every spanned page must be mapped: this primitive does
/// not validate on the caller's behalf.
pub fn translated_byte_buffer(pt: &PageTable, mem: &PhysMem, ptr: u64, len: u64) -> (r: Vec<
    Fragment,
>)
    requires
        pt.wf_in(*mem),
        len > 0 ==> ptr + len <= VA_END,
        len > 0 ==> range_mapped(*pt, *mem, ptr, len),
        len > 0 ==> range_frames_distinct(*pt, *mem, ptr, len),
    ensures
        buf_wf(*mem, r@),
        frags_len(r@) == len,
        len == 0 ==> r@.len() == 0,
        len > 0 ==> r@.len() == (ptr + len - 1) / 4096 - ptr / 4096 + 1,
        forall|m2: PhysMem| #[trigger]
            same_tables(*mem, m2) ==> buf_bytes(m2, r@) == va_bytes(*pt, m2, ptr, len as int),
        forall|p: u64, o: int| #[trigger]
            crate::user_buf::covered(r@, p, o) ==> exists|k: int|
                0 <= k < len && p == #[trigger] va_ppn(*pt, *mem, (ptr + k) as u64) && o == ((ptr
                    + k) as u64) % 4096,
{
    let ghost m = *mem;
    let mut v: Vec<Fragment> = Vec::new();
    let mut start = ptr;
    let end = ptr + len;
    proof {
        assert forall|m2: PhysMem| #[trigger] same_tables(m, m2) implies buf_bytes(m2, v@)
            == va_bytes(*pt, m2, ptr, 0) by {
            assert(buf_bytes(m2, v@) =~= va_bytes(*pt, m2, ptr, 0));
        }
    }
    while start < end
        invariant
            pt.wf_in(m),
            m == *mem,
            ptr <= start <= end,
            end == ptr + len,
            len > 0 ==> end <= VA_END,
            len > 0 ==> range_mapped(*pt, m, ptr, len),
            len > 0 ==> range_frames_distinct(*pt, m, ptr, len),
            buf_wf(m, v@),
            frags_len(v@) == start - ptr,
            start == ptr ==> v@.len() == 0,
            start > ptr ==> v@.len() == (start - 1) / 4096 - ptr / 4096 + 1,
            start > ptr && start < end ==> start % 4096 == 0,
            start < end ==> start / 4096 == ptr / 4096 + v@.len(),
            forall|k: int|
                0 <= k < v@.len() ==> (#[trigger] v@[k]).ppn == bits_ppn(
                    pt.leaf(m, (ptr / 4096 + k) as u64),
                ),
            forall|m2: PhysMem| #[trigger]
                same_tables(m, m2) ==> buf_bytes(m2, v@) == va_bytes(
                    *pt,
                    m2,
                    ptr,
                    start - ptr,
                ),
            forall|p: u64, o: int| #[trigger]
                crate::user_buf::covered(v@, p, o) ==> exists|k: int|
                    0 <= k < start - ptr && p == #[trigger] va_ppn(*pt, m, (ptr + k) as u64) && o
                        == ((ptr + k) as u64) % 4096,
        decreases end - start,
    {
        let vpn = start / 4096;
        let off = (start % 4096) as usize;
        proof {
            assert(start % 4096 < 4096) by (nonlinear_arith);
            assert(start / 4096 <= (end - 1) / 4096 && ptr / 4096 <= start / 4096
                && (end - 1) / 4096 < 0x800_0000) by (nonlinear_arith)
                requires
                    ptr <= start < end,
                    end <= 0x80_0000_0000u64,
            ;
            assert(len > 0);
            assert(ptr / 4096 <= vpn);
            assert(end - 1 == ptr + len - 1);
            assert(vpn <= (ptr + len - 1) / 4096);
            assert(pt.spec_mapped(m, vpn) && m.is_live(bits_ppn(pt.leaf(m, vpn))));
        }
        let pte = pt.translate(mem, vpn).unwrap();
        let ppn = pte.ppn();
        let page_end = (vpn + 1) * 4096;
        proof {
            assert(vpn * 4096 <= start < (vpn + 1) * 4096 && (vpn + 1) * 4096 == vpn * 4096 + 4096)
                by (nonlinear_arith)
                requires
                    vpn == start / 4096,
                    start < 0x80_0000_0000u64,
            ;
        }
        let seg_end = if end < page_end {
            end
        } else {
            page_end
        };
        let flen = (seg_end - start) as usize;
        let frag = Fragment { ppn, start: off, end: off + flen };
        proof {
            assert(off + flen <= 4096) by (nonlinear_arith)
                requires
                    off == start % 4096,
                    flen == seg_end - start,
                    seg_end <= (start / 4096 + 1) * 4096,
                    vpn == start / 4096,
                    start >= vpn * 4096,
            ;
        }
        let ghost vold = v@;
        v.push(frag);
        let ghost snew = start;
        proof {
            // the new fragment covers page `vpn == ptr/4096 + vold.len()`
            assert(frag.ppn == bits_ppn(pt.leaf(m, vpn)));
            assert(vpn == ptr / 4096 + vold.len());
            // well-formedness: bounds, non-emptiness, disjointness from all
            // earlier fragments, whose frames are those of earlier pages
            assert(buf_wf(m, v@)) by {
                assert forall|k: int| 0 <= k < v@.len() implies (#[trigger] v@[k]).wf()
                    && v@[k].ppn < m.frames@.len() by {
                    if k < vold.len() {
                        assert(v@[k] == vold[k]);
                    } else {
                        assert(v@[k] == frag);
                        assert(m.is_live(frag.ppn));
                    }
                }
                assert forall|a: int, b: int|
                    0 <= a < b < v@.len() implies crate::user_buf::frags_disjoint(
                    #[trigger] v@[a],
                    #[trigger] v@[b],
                ) by {
                    if b < vold.len() {
                        assert(v@[a] == vold[a] && v@[b] == vold[b]);
                    } else {
                        assert(v@[b] == frag && v@[a] == vold[a]);
                        let pa = (ptr / 4096 + a) as u64;
                        assert(bits_ppn(pt.leaf(m, pa)) != bits_ppn(pt.leaf(m, vpn)));
                    }
                }
            }
            crate::user_buf::lemma_frags_len_push(vold, frag);
            // contents, for every arena with the same tables
            assert forall|m2: PhysMem| #[trigger] same_tables(m, m2) implies buf_bytes(m2, v@)
                == va_bytes(*pt, m2, ptr, seg_end - ptr) by {
                lemma_buf_push(m2, vold, frag);
                lemma_same_tables_find(*pt, m, m2, vpn);
                assert forall|k: int| 0 <= k < frag_len(frag) implies crate::user_buf::frag_bytes(
                    m2,
                    frag,
                )[k] == va_byte(*pt, m2, (start + k) as u64) by {
                    let va = (start + k) as u64;
                    assert(va / 4096 == vpn && va % 4096 == off + k) by (nonlinear_arith)
                        requires
                            va == start + k,
                            vpn == start / 4096,
                            off == start % 4096,
                            0 <= k,
                            off + k < 4096,
                            start + k < 0x80_0000_0000u64,
                    ;
                    lemma_same_tables_find(*pt, m, m2, va / 4096);
                    assert(va_ppn(*pt, m2, va) == frag.ppn);
                }
                assert(buf_bytes(m2, v@) =~= va_bytes(*pt, m2, ptr, seg_end - ptr));
            }
            // page count bookkeeping
            assert((seg_end - 1) / 4096 == vpn) by (nonlinear_arith)
                requires
                    vpn == start / 4096,
                    start < seg_end,
                    seg_end <= (vpn + 1) * 4096,
                    start >= vpn * 4096,
            ;
            if seg_end < end {
                assert(seg_end == (vpn + 1) * 4096);
                assert(seg_end % 4096 == 0 && seg_end / 4096 == vpn + 1) by (nonlinear_arith)
                    requires
                        seg_end == (vpn + 1) * 4096,
                        seg_end <= 0x80_0000_0000u64,
                ;
            }
            // every covered location of the grown buffer belongs to some
            // translated address of the range handled so far
            assert forall|p: u64, o: int| #[trigger]
                crate::user_buf::covered(v@, p, o) implies exists|k: int|
                0 <= k < seg_end - ptr && p == #[trigger] va_ppn(*pt, m, (ptr + k) as u64) && o
                    == ((ptr + k) as u64) % 4096 by {
                let i = choose|i: int|
                    0 <= i < v@.len() && (#[trigger] v@[i]).ppn == p && v@[i].start <= o
                        < v@[i].end;
                if i < vold.len() {
                    assert(crate::user_buf::covered(vold, p, o));
                    let k = choose|k: int|
                        0 <= k < start - ptr && p == #[trigger] va_ppn(*pt, m, (ptr + k) as u64)
                            && o == ((ptr + k) as u64) % 4096;
                    assert(0 <= k < seg_end - ptr && p == va_ppn(*pt, m, (ptr + k) as u64) && o
                        == ((ptr + k) as u64) % 4096);
                } else {
                    assert(v@[i] == frag);
                    let k = (o - off) + (start - ptr);
                    let va = (ptr + k) as u64;
                    assert(va == vpn * 4096 + o) by (nonlinear_arith)
                        requires
                            va == start + (o - off),
                            vpn == start / 4096,
                            off == start % 4096,
                            start < 0x80_0000_0000u64,
                            0 <= o,
                    ;
                    assert(va / 4096 == vpn && va % 4096 == o) by (nonlinear_arith)
                        requires
                            va == vpn * 4096 + o,
                            0 <= o < 4096,
                            0 <= vpn,
                    ;
                    assert(0 <= k < seg_end - ptr && p == va_ppn(*pt, m, (ptr + k) as u64) && o
                        == ((ptr + k) as u64) % 4096);
                }
            }
        }
        start = seg_end;
    }
    proof {
        if len > 0 {
            assert(start == end);
            assert(end - 1 == ptr + len - 1);
        }
    }
    v
}

/// The location of one scalar value in physical memory: the page of `va`
/// translated, the offset carried over. The value must not straddle a page
/// boundary — an explicit, unchecked limitation of this raw variant — and
/// its page must be mapped to a live frame.
pub fn translated_ref(pt: &PageTable, mem: &PhysMem, va: u64, size: usize) -> (r: PhysLoc)
    requires
        pt.wf_in(*mem),
        pt.spec_mapped(*mem, va / 4096),
        mem.is_live(va_ppn(*pt, *mem, va)),
        va % 4096 + size <= PAGE_SIZE,
        va < VA_END,
    ensures
        r.ppn == va_ppn(*pt, *mem, va),
        r.off == va % 4096,
        r.ppn < mem.frames@.len(),
        r.off + size <= PAGE_SIZE,
{
    let vpn = va / 4096;
    let pte = pt.translate(mem, vpn).unwrap();
    let ppn = pte.ppn();
    proof {
        assert(va % 4096 < 4096) by (nonlinear_arith);
    }
    PhysLoc { ppn, off: (va % 4096) as usize }
}

/// The mutable-intent variant of `translated_ref`: the same translated
/// location, handed out for writing through the arena.
pub fn translated_refmut(pt: &PageTable, mem: &PhysMem, va: u64, size: usize) -> (r: PhysLoc)
    requires
        pt.wf_in(*mem),
        pt.spec_mapped(*mem, va / 4096),
        mem.is_live(va_ppn(*pt, *mem, va)),
        va % 4096 + size <= PAGE_SIZE,
        va < VA_END,
    ensures
        r.ppn == va_ppn(*pt, *mem, va),
        r.off == va % 4096,
        r.ppn < mem.frames@.len(),
        r.off + size <= PAGE_SIZE,
{
    translated_ref(pt, mem, va, size)
}

/// Position `n` ends the zero-terminated byte string at `ptr`: every page up
/// to it is mapped to a live frame, the byte there is zero and no earlier
/// byte is.
pub open spec fn cstr_end(pt: PageTable, mem: PhysMem, ptr: u64, n: int) -> bool {
    &&& 0 <= n
    &&& ptr + n < VA_END
    &&& forall|k: int|
        0 <= k <= n ==> #[trigger] pt.spec_mapped(mem, ((ptr + k) as u64) / 4096) && mem.is_live(
            va_ppn(pt, mem, (ptr + k) as u64),
        )
    &&& va_byte(pt, mem, (ptr + n) as u64) == 0
    &&& forall|k: int| 0 <= k < n ==> #[trigger] va_byte(pt, mem, (ptr + k) as u64) != 0
}

/// Load the zero-terminated byte string at `ptr` from the other address
/// space, one independent single-byte translation per character, without the
/// terminator. A byte stands for one character; multi-byte text is out of
/// scope here.
pub fn translated_str(pt: &PageTable, mem: &PhysMem, ptr: u64) -> (r: Vec<u8>)
    requires
        pt.wf_in(*mem),
        exists|n: int| cstr_end(*pt, *mem, ptr, n),
    ensures
        cstr_end(*pt, *mem, ptr, r@.len() as int),
        r@ == va_bytes(*pt, *mem, ptr, r@.len() as int),
{
    let ghost n = choose|n: int| cstr_end(*pt, *mem, ptr, n);
    let mut s: Vec<u8> = Vec::new();
    let mut va = ptr;
    loop
        invariant
            pt.wf_in(*mem),
            cstr_end(*pt, *mem, ptr, n),
            va == ptr + s@.len(),
            s@.len() <= n,
            s@ == va_bytes(*pt, *mem, ptr, s@.len() as int),
            forall|k: int| 0 <= k < s@.len() ==> s@[k] != 0,
        decreases n - s@.len(),
    {
        proof {
            assert(pt.spec_mapped(*mem, ((ptr + (va - ptr)) as u64) / 4096));
            assert(va % 4096 < 4096) by (nonlinear_arith);
        }
        let vpn = va / 4096;
        let pte = pt.translate(mem, vpn).unwrap();
        let off = (va % 4096) as usize;
        let b = mem.read_byte(pte.ppn(), off);
        proof {
            assert(b == va_byte(*pt, *mem, va));
        }
        if b == 0 {
            proof {
                if s@.len() < n {
                    assert(va_byte(*pt, *mem, (ptr + s@.len() as int) as u64) != 0);
                    assert(false);
                }
            }
            return s;
        }
        proof {
            if s@.len() == n {
                assert(va_byte(*pt, *mem, (ptr + n) as u64) == 0);
                assert(false);
            }
        }
        s.push(b);
        va = va + 1;
        proof {
            assert(s@ =~= va_bytes(*pt, *mem, ptr, s@.len() as int));
        }
    }
}

/// The locations of `len` array elements of byte size `elem_size`, each
/// element's address translated independently at stride `elem_size`. No
/// element may straddle a page boundary: this is the raw-reference variant.
pub fn translated_ref_array(pt: &PageTable, mem: &PhysMem, va: u64, elem_size: usize, len: usize)
    -> (r: Vec<PhysLoc>)
    requires
        pt.wf_in(*mem),
        elem_size >= 1,
        va + len * elem_size <= VA_END,
        forall|i: int|
            0 <= i < len ==> #[trigger] pt.spec_mapped(*mem, ((va + i * elem_size) as u64) / 4096)
                && mem.is_live(va_ppn(*pt, *mem, (va + i * elem_size) as u64)) && ((va + i
                * elem_size) as u64) % 4096 + elem_size <= PAGE_SIZE,
    ensures
        r@.len() == len,
        forall|i: int|
            0 <= i < len ==> (#[trigger] r@[i]).ppn == va_ppn(*pt, *mem, (va + i * elem_size) as u64)
                && r@[i].off == ((va + i * elem_size) as u64) % 4096,
{
    let mut r: Vec<PhysLoc> = Vec::new();
    let mut cur = va;
    let mut i: usize = 0;
    proof {
        assert(len * elem_size >= 0) by (nonlinear_arith);
    }
    while i < len
        invariant
            pt.wf_in(*mem),
            elem_size >= 1,
            va + len * elem_size <= VA_END,
            forall|j: int|
                0 <= j < len ==> #[trigger] pt.spec_mapped(
                    *mem,
                    ((va + j * elem_size) as u64) / 4096,
                ) && mem.is_live(va_ppn(*pt, *mem, (va + j * elem_size) as u64)) && ((va + j
                    * elem_size) as u64) % 4096 + elem_size <= PAGE_SIZE,
            i <= len,
            cur == va + i * elem_size,
            r@.len() == i,
            forall|j: int|
                0 <= j < i ==> (#[trigger] r@[j]).ppn == va_ppn(
                    *pt,
                    *mem,
                    (va + j * elem_size) as u64,
                ) && r@[j].off == ((va + j * elem_size) as u64) % 4096,
        decreases len - i,
    {
        proof {
            assert(i * elem_size + elem_size <= len * elem_size && 0 <= i * elem_size)
                by (nonlinear_arith)
                requires
                    0 <= i < len,
                    elem_size >= 0,
            ;
        }
        proof {
            assert(pt.spec_mapped(*mem, ((va + i as int * elem_size) as u64) / 4096)
                && mem.is_live(va_ppn(*pt, *mem, (va + i as int * elem_size) as u64)));
            assert(cur == (va + i as int * elem_size) as u64);
        }
        let loc = translated_ref(pt, mem, cur, elem_size);
        r.push(loc);
        cur = cur + elem_size as u64;
        i = i + 1;
        proof {
            assert((i - 1) * elem_size + elem_size == i as int * elem_size) by (nonlinear_arith);
        }
    }
    r
}

/// A copy of `len` array elements of byte size `elem_size`, each element
/// gathered bytewise through a scatter/gather buffer — defensive against
/// elements straddling page boundaries, unlike the raw-reference variant.
pub fn translated_array_copy(pt: &PageTable, mem: &PhysMem, va: u64, elem_size: usize, len: usize)
    -> (r: Vec<Vec<u8>>)
    requires
        pt.wf_in(*mem),
        elem_size > 0,
        va + len * elem_size <= VA_END,
        forall|i: int|
            0 <= i < len ==> #[trigger] range_mapped(
                *pt,
                *mem,
                (va + i * elem_size) as u64,
                elem_size as u64,
            ) && range_frames_distinct(*pt, *mem, (va + i * elem_size) as u64, elem_size as u64),
    ensures
        r@.len() == len,
        forall|i: int|
            0 <= i < len ==> (#[trigger] r@[i])@ == va_bytes(
                *pt,
                *mem,
                (va + i * elem_size) as u64,
                elem_size as int,
            ),
{
    let mut r: Vec<Vec<u8>> = Vec::new();
    let mut cur = va;
    let mut i: usize = 0;
    proof {
        assert(len * elem_size >= 0) by (nonlinear_arith);
    }
    while i < len
        invariant
            pt.wf_in(*mem),
            mem.wf(),
            elem_size > 0,
            va + len * elem_size <= VA_END,
            forall|j: int|
                0 <= j < len ==> #[trigger] range_mapped(
                    *pt,
                    *mem,
                    (va + j * elem_size) as u64,
                    elem_size as u64,
                ) && range_frames_distinct(
                    *pt,
                    *mem,
                    (va + j * elem_size) as u64,
                    elem_size as u64,
                ),
            i <= len,
            cur == va + i * elem_size,
            r@.len() == i,
            forall|j: int|
                0 <= j < i ==> (#[trigger] r@[j])@ == va_bytes(
                    *pt,
                    *mem,
                    (va + j * elem_size) as u64,
                    elem_size as int,
                ),
        decreases len - i,
    {
        proof {
            assert(i * elem_size + elem_size <= len * elem_size && 0 <= i * elem_size)
                by (nonlinear_arith)
                requires
                    0 <= i < len,
                    elem_size >= 0,
            ;
        }
        proof {
            assert(range_mapped(*pt, *mem, (va + i as int * elem_size) as u64, elem_size as u64)
                && range_frames_distinct(
                *pt,
                *mem,
                (va + i as int * elem_size) as u64,
                elem_size as u64,
            ));
            assert(cur == (va + i as int * elem_size) as u64);
        }
        let frags = translated_byte_buffer(pt, mem, cur, elem_size as u64);
        let buf = UserBuffer::new(frags);
        let mut bytes: Vec<u8> = Vec::new();
        buf.read_as_vec(mem, &mut bytes, elem_size);
        proof {
            assert(same_tables(*mem, *mem));
            assert(bytes@ =~= va_bytes(*pt, *mem, cur, elem_size as int));
        }
        r.push(bytes);
        cur = cur + elem_size as u64;
        i = i + 1;
        proof {
            assert((i - 1) * elem_size + elem_size == i as int * elem_size) by (nonlinear_arith);
        }
    }
    r
}

/// Gather `size` bytes from the address space behind `pt` into the
/// kernel-side vector `dst`, overwriting its first `min(size, len(dst))`
/// bytes. The address-space token is threaded explicitly through `pt` rather
/// than read from an ambient task context.
pub fn copy_from_user(pt: &PageTable, mem: &PhysMem, dst: &mut Vec<u8>, src: u64, size: u64) -> (r:
    usize)
    requires
        pt.wf_in(*mem),
        size > 0 ==> src + size <= VA_END && range_mapped(*pt, *mem, src, size)
            && range_frames_distinct(*pt, *mem, src, size),
        size <= usize::MAX,
    ensures
        final(dst)@.len() == old(dst)@.len(),
        size <= old(dst)@.len() ==> r == size,
        size > old(dst)@.len() ==> r == old(dst)@.len(),
        final(dst)@ == va_bytes(*pt, *mem, src, size as int).take(r as int) + old(dst)@.skip(
            r as int,
        ),
{
    let frags = translated_byte_buffer(pt, mem, src, size);
    let buf = UserBuffer::new(frags);
    proof {
        assert(same_tables(*mem, *mem));
    }
    buf.read(mem, dst)
}

/// Scatter `min(size, len(src))` bytes of the kernel-side vector `src` into
/// the address space behind `pt` at `dst`: afterwards the range holds that
/// prefix of `src` followed by its own old bytes, and no page table entry or
/// liveness record has moved. The token is threaded explicitly through `pt`.
pub fn copy_to_user(pt: &PageTable, mem: &mut PhysMem, dst: u64, src: &Vec<u8>, size: u64) -> (r:
    usize)
    requires
        pt.wf_in(*old(mem)),
        size > 0 ==> dst + size <= VA_END && range_mapped(*pt, *old(mem), dst, size)
            && range_frames_distinct(*pt, *old(mem), dst, size),
        size <= usize::MAX,
    ensures
        final(mem).wf(),
        pt.wf_in(*final(mem)),
        same_tables(*old(mem), *final(mem)),
        final(mem).live@ == old(mem).live@,
        size <= src@.len() ==> r == size,
        size > src@.len() ==> r == src@.len(),
        va_bytes(*pt, *final(mem), dst, size as int) == src@.take(r as int) + va_bytes(
            *pt,
            *old(mem),
            dst,
            size as int,
        ).skip(r as int),
        forall|p: u64, o: int|
            p < old(mem).frames@.len() && 0 <= o < PAGE_SIZE && (forall|k: int|
                0 <= k < size ==> !(p == #[trigger] va_ppn(*pt, *old(mem), (dst + k) as u64) && o
                    == ((dst + k) as u64) % 4096)) ==> final(mem).byte(p, o) == #[trigger] old(
                mem,
            ).byte(p, o),
{
    let ghost m0 = *old(mem);
    let frags = translated_byte_buffer(pt, mem, dst, size);
    let buf = UserBuffer::new(frags);
    proof {
        assert(same_tables(m0, m0));
    }
    let ghost fr = frags@;
    let r = buf.write(mem, src);
    proof {
        assert(same_tables(m0, *mem));
        lemma_same_tables_wf(*pt, m0, *mem);
        assert forall|p: u64, o: int|
            p < m0.frames@.len() && 0 <= o < PAGE_SIZE && (forall|k: int|
                0 <= k < size ==> !(p == #[trigger] va_ppn(*pt, m0, (dst + k) as u64) && o == ((
                dst + k) as u64) % 4096)) implies mem.byte(p, o) == #[trigger] m0.byte(p, o) by {
            if crate::user_buf::covered(fr, p, o) {
                let k = choose|k: int|
                    0 <= k < size && p == #[trigger] va_ppn(*pt, m0, (dst + k) as u64) && o == ((
                    dst + k) as u64) % 4096;
                assert(!(p == va_ppn(*pt, m0, (dst + k) as u64) && o == ((dst + k) as u64)
                    % 4096));
                assert(false);
            }
        }
    }
    r
}

} // verus!
