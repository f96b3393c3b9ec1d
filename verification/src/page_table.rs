//! Three-level page table over the frame arena: walking, on-demand creation
//! of intermediate levels, mapping and unmapping of leaves, translation, and
//! the hardware root-pointer token.
use vstd::prelude::*;
use crate::phys::PhysMem;
use crate::pte::{PageTableEntry, PteFlags, bits_flags, bits_ppn, bits_valid, FLAG_V, PERM_MASK};
use crate::{ENTRY_COUNT, PAGE_SIZE, PPN_MASK, VPN_MASK};

verus! {

/// Translation-mode tag the hardware expects in the token's top bits.
pub const MODE_TAG: u64 = 8;

/// Level-0 index: bits [18,27) of the virtual page number.
pub open spec fn spec_idx0(vpn: u64) -> u64 {
    (vpn >> 18) & 0x1FF
}

/// Level-1 index: bits [9,18) of the virtual page number.
pub open spec fn spec_idx1(vpn: u64) -> u64 {
    (vpn >> 9) & 0x1FF
}

/// Level-2 (leaf) index: bits [0,9) of the virtual page number.
pub open spec fn spec_idx2(vpn: u64) -> u64 {
    vpn & 0x1FF
}

fn idx0(vpn: u64) -> (r: usize)
    ensures
        r == spec_idx0(vpn),
        r < ENTRY_COUNT,
{
    let m = (vpn >> 18) & 0x1FF;
    proof {
        assert((vpn >> 18) & 0x1FF < 512) by (bit_vector);
    }
    m as usize
}

fn idx1(vpn: u64) -> (r: usize)
    ensures
        r == spec_idx1(vpn),
        r < ENTRY_COUNT,
{
    let m = (vpn >> 9) & 0x1FF;
    proof {
        assert((vpn >> 9) & 0x1FF < 512) by (bit_vector);
    }
    m as usize
}

fn idx2(vpn: u64) -> (r: usize)
    ensures
        r == spec_idx2(vpn),
        r < ENTRY_COUNT,
{
    let m = vpn & 0x1FF;
    proof {
        assert(vpn & 0x1FF < 512) by (bit_vector);
    }
    m as usize
}

/// Growing the arena by fresh frames — allocating data pages between table
/// operations — leaves a table's well-formedness, its ownership and every
/// walk's outcome untouched: the walk never reads a frame that did not exist.
pub proof fn lemma_arena_grow(pt: PageTable, m1: PhysMem, m2: PhysMem)
    requires
        pt.wf_in(m1),
        m2.wf(),
        m1.frames@.len() <= m2.frames@.len(),
        forall|q: int| 0 <= q < m1.frames@.len() ==> m2.frames@[q] == #[trigger] m1.frames@[q],
        forall|p: u64| p < m1.frames@.len() ==> m2.is_live(p) == #[trigger] m1.is_live(p),
    ensures
        pt.wf_in(m2),
        pt.owns(m1) ==> pt.owns(m2),
        forall|vpn: u64| #[trigger] pt.spec_find(m2, vpn) == pt.spec_find(m1, vpn),
        forall|vpn: u64| #[trigger] pt.spec_mapped(m2, vpn) == pt.spec_mapped(m1, vpn),
{
    assert(m1.frames@.len() == m1.live@.len());
    assert forall|p: u64, i: int|
        p < m1.frames@.len() && 0 <= i < ENTRY_COUNT implies m2.entry(p, i) == #[trigger] m1.entry(
        p,
        i,
    ) by {
        assert(m2.frames@[p as int] == m1.frames@[p as int]);
    }
    assert(m1.is_live(pt.root_ppn) && m2.is_live(pt.root_ppn));
    assert forall|i: int|
        0 <= i < ENTRY_COUNT implies #[trigger] pt.l1_valid(m2, i) == pt.l1_valid(m1, i)
        && pt.l1_at(m2, i) == pt.l1_at(m1, i) by {
        assert(m2.entry(pt.root_ppn, i) == m1.entry(pt.root_ppn, i));
    }
    assert forall|i: int, j: int|
        0 <= i < ENTRY_COUNT && 0 <= j < ENTRY_COUNT && pt.l1_valid(m1, i) implies {
        &&& #[trigger] pt.l2_valid(m2, i, j) == pt.l2_valid(m1, i, j)
        &&& pt.l2_at(m2, i, j) == pt.l2_at(m1, i, j)
    } by {
        assert(m1.is_live(pt.l1_at(m1, i)));
        assert(m2.entry(pt.l1_at(m1, i), j) == m1.entry(pt.l1_at(m1, i), j));
    }
    assert forall|vpn: u64| #[trigger]
        pt.spec_find(m2, vpn) == pt.spec_find(m1, vpn) by {
        assert((vpn >> 18) & 0x1FF < 512 && (vpn >> 9) & 0x1FF < 512 && vpn & 0x1FF < 512)
            by (bit_vector);
        let i0 = spec_idx0(vpn) as int;
        let i1 = spec_idx1(vpn) as int;
        let i2 = spec_idx2(vpn) as int;
        if pt.l1_valid(m1, i0) && pt.l2_valid(m1, i0, i1) {
            assert(m1.is_live(pt.l2_at(m1, i0, i1)));
            assert(m2.entry(pt.l2_at(m1, i0, i1), i2) == m1.entry(pt.l2_at(m1, i0, i1), i2));
        }
    }
    assert forall|vpn: u64| #[trigger]
        pt.spec_mapped(m2, vpn) == pt.spec_mapped(m1, vpn) by {
        assert(pt.spec_find(m2, vpn) == pt.spec_find(m1, vpn));
    }
}

/// A token built from a root page number carries that page number unaltered
/// in its low 44 bits and the translation-mode tag in its top four: encoding
/// loses nothing, and two calls on the same unmodified root agree bit for bit.
pub proof fn lemma_token_fields(root: u64)
    requires
        root <= PPN_MASK,
    ensures
        ((MODE_TAG << 60) | root) & PPN_MASK == root,
        ((MODE_TAG << 60) | root) >> 60 == MODE_TAG,
{
    assert(root <= 0xFFF_FFFF_FFFF ==> ((8u64 << 60) | root) & 0xFFF_FFFF_FFFF == root && ((8u64
        << 60) | root) >> 60 == 8) by (bit_vector);
}

/// Two virtual page numbers with the same three indices are the same number.
pub proof fn lemma_vpn_indices_injective(a: u64, b: u64)
    requires
        a <= VPN_MASK,
        b <= VPN_MASK,
        spec_idx0(a) == spec_idx0(b),
        spec_idx1(a) == spec_idx1(b),
        spec_idx2(a) == spec_idx2(b),
    ensures
        a == b,
{
    assert(a <= 0x7FF_FFFF && b <= 0x7FF_FFFF && (a >> 18) & 0x1FF == (b >> 18) & 0x1FF && (a >> 9)
        & 0x1FF == (b >> 9) & 0x1FF && a & 0x1FF == b & 0x1FF ==> a == b) by (bit_vector);
}

/// A page table: the root frame's page number, plus the page numbers of every
/// frame this table allocated and owns (for an owner, the root first). A view
/// built by `from_token` owns nothing: its list is empty.
pub struct PageTable {
    pub root_ppn: u64,
    pub frames: Vec<u64>,
}

/// Linking a fresh zeroed frame `f` into an invalid root slot `i0` keeps the
/// tree well formed and owned, and changes no walk's outcome at all: every
/// path through the new slot still ends at an invalid level-1 entry.
proof fn lemma_link_level0(
    pt_old: PageTable,
    pt_new: PageTable,
    m0: PhysMem,
    mb: PhysMem,
    i0: int,
    f: u64,
)
    requires
        pt_old.wf_in(m0),
        pt_old.owns(m0),
        0 <= i0 < ENTRY_COUNT,
        !bits_valid(m0.entry(pt_old.root_ppn, i0)),
        f == m0.frames@.len(),
        f <= PPN_MASK,
        mb.wf(),
        mb.frames@.len() == m0.frames@.len() + 1,
        mb.live@ == m0.live@.push(true),
        forall|j: int| 0 <= j < ENTRY_COUNT ==> mb.entry(f, j) == 0,
        mb.entry(pt_old.root_ppn, i0) == (f << 10) | 1,
        forall|p: u64, i: int|
            p < m0.frames@.len() && 0 <= i < ENTRY_COUNT && !(p == pt_old.root_ppn && i == i0)
                ==> mb.entry(p, i) == #[trigger] m0.entry(p, i),
        pt_new.root_ppn == pt_old.root_ppn,
        pt_new.frames@ == pt_old.frames@.push(f),
    ensures
        pt_new.wf_in(mb),
        pt_new.owns(mb),
        pt_new.l1_valid(mb, i0),
        pt_new.l1_at(mb, i0) == f,
        forall|v2: u64| #[trigger] pt_new.spec_find(mb, v2) == pt_old.spec_find(m0, v2),
{
    let root = pt_old.root_ppn;
    assert(m0.frames@.len() == m0.live@.len());
    assert forall|p: u64| #[trigger] m0.is_live(p) implies p < f && mb.is_live(p) by {
        assert(mb.live@[p as int] == m0.live@[p as int]);
    }
    assert(mb.is_live(f)) by {
        assert(mb.live@[f as int] == true);
    }
    assert(root < m0.frames@.len());
    assert(bits_ppn((f << 10) | 1) == f) by {
        crate::pte::lemma_pte_round_trip(f, 1u8);
    }
    assert(bits_valid((f << 10) | 1)) by {
        assert(((f << 10) | 1u64) & 1u64 == 1u64) by (bit_vector);
    }
    assert(!bits_valid(0)) by {
        assert(0u64 & 1u64 != 1u64) by (bit_vector);
    }
    assert(pt_new.l1_valid(mb, i0) && pt_new.l1_at(mb, i0) == f);
    assert forall|i: int|
        0 <= i < ENTRY_COUNT && i != i0 implies #[trigger] pt_new.l1_valid(mb, i)
        == pt_old.l1_valid(m0, i) && pt_new.l1_at(mb, i) == pt_old.l1_at(m0, i) by {
        assert(mb.entry(root, i) == m0.entry(root, i));
    }
    assert forall|i: int, j: int|
        0 <= i < ENTRY_COUNT && i != i0 && 0 <= j < ENTRY_COUNT && pt_old.l1_valid(m0, i) implies {
        &&& mb.entry(pt_old.l1_at(m0, i), j) == m0.entry(pt_old.l1_at(m0, i), j)
        &&& #[trigger] pt_new.l2_valid(mb, i, j) == pt_old.l2_valid(m0, i, j)
        &&& pt_new.l2_at(mb, i, j) == pt_old.l2_at(m0, i, j)
    } by {
        assert(pt_old.l1_at(m0, i) != root);
        assert(m0.is_live(pt_old.l1_at(m0, i)));
    }
    assert forall|j: int| 0 <= j < ENTRY_COUNT implies !pt_new.l2_valid(mb, i0, j) by {
        assert(mb.entry(f, j) == 0);
    }
    assert(pt_new.wf_in(mb)) by {
        assert forall|i: int|
            0 <= i < ENTRY_COUNT && pt_new.l1_valid(mb, i) implies {
            &&& mb.is_live(#[trigger] pt_new.l1_at(mb, i))
            &&& pt_new.l1_at(mb, i) != root
        } by {
            if i != i0 {
                assert(m0.is_live(pt_old.l1_at(m0, i)));
            }
        }
        assert forall|i: int, k: int|
            0 <= i < ENTRY_COUNT && 0 <= k < ENTRY_COUNT && i != k && pt_new.l1_valid(mb, i)
                && pt_new.l1_valid(mb, k) implies #[trigger] pt_new.l1_at(mb, i)
            != #[trigger] pt_new.l1_at(mb, k) by {
            if i == i0 {
                assert(m0.is_live(pt_old.l1_at(m0, k)));
            } else if k == i0 {
                assert(m0.is_live(pt_old.l1_at(m0, i)));
            }
        }
        assert forall|i: int, j: int|
            0 <= i < ENTRY_COUNT && 0 <= j < ENTRY_COUNT && pt_new.l2_valid(mb, i, j) implies {
            &&& mb.is_live(#[trigger] pt_new.l2_at(mb, i, j))
            &&& pt_new.l2_at(mb, i, j) != root
        } by {
            assert(i != i0);
            assert(m0.is_live(pt_old.l2_at(m0, i, j)));
        }
        assert forall|i: int, j: int, k: int|
            0 <= i < ENTRY_COUNT && 0 <= j < ENTRY_COUNT && 0 <= k < ENTRY_COUNT && pt_new.l2_valid(
                mb,
                i,
                j,
            ) && pt_new.l1_valid(mb, k) implies #[trigger] pt_new.l2_at(mb, i, j)
            != #[trigger] pt_new.l1_at(mb, k) by {
            assert(i != i0);
            assert(m0.is_live(pt_old.l2_at(m0, i, j)));
            if k != i0 {
                assert(pt_old.l2_at(m0, i, j) != pt_old.l1_at(m0, k));
            }
        }
        assert forall|i: int, j: int, i2: int, j2: int|
            0 <= i < ENTRY_COUNT && 0 <= j < ENTRY_COUNT && 0 <= i2 < ENTRY_COUNT && 0 <= j2
                < ENTRY_COUNT && !(i == i2 && j == j2) && pt_new.l2_valid(mb, i, j)
                && pt_new.l2_valid(mb, i2, j2) implies #[trigger] pt_new.l2_at(mb, i, j)
            != #[trigger] pt_new.l2_at(mb, i2, j2) by {
            assert(i != i0 && i2 != i0);
        }
    }
    assert(pt_new.owns(mb)) by {
        assert(pt_new.frames@[0] == root);
        assert forall|k: int| 0 <= k < pt_old.frames@.len() implies pt_old.frames@[k] != f by {
            assert(m0.is_live(pt_old.frames@[k]));
        }
        assert(pt_new.frames@.no_duplicates()) by {
            assert forall|a: int, b: int|
                0 <= a < pt_new.frames@.len() && 0 <= b < pt_new.frames@.len() && a
                    != b implies pt_new.frames@[a] != pt_new.frames@[b] by {
                if a < pt_old.frames@.len() && b < pt_old.frames@.len() {
                    assert(pt_old.frames@.no_duplicates());
                }
            }
        }
        assert forall|x: u64| pt_old.frames@.contains(x) implies pt_new.frames@.contains(x) by {
            let k = choose|k: int| 0 <= k < pt_old.frames@.len() && pt_old.frames@[k] == x;
            assert(pt_new.frames@[k] == x);
        }
        assert(pt_new.frames@[pt_old.frames@.len() as int] == f);
        assert(pt_new.frames@.contains(f));
    }
    assert forall|v2: u64| #[trigger]
        pt_new.spec_find(mb, v2) == pt_old.spec_find(m0, v2) by {
        assert((v2 >> 18) & 0x1FF < 512 && (v2 >> 9) & 0x1FF < 512 && v2 & 0x1FF < 512)
            by (bit_vector);
        let j0 = spec_idx0(v2) as int;
        let j1 = spec_idx1(v2) as int;
        let j2 = spec_idx2(v2) as int;
        if j0 == i0 {
            assert(pt_old.spec_find(m0, v2) is None);
            assert(pt_new.l1_ppn(mb, v2) == f);
            assert(mb.entry(f, j1) == 0);
            assert(pt_new.spec_find(mb, v2) is None);
        } else {
            assert(pt_new.l1_valid(mb, j0) == pt_old.l1_valid(m0, j0));
            if pt_old.l1_valid(m0, j0) {
                assert(pt_new.l2_valid(mb, j0, j1) == pt_old.l2_valid(m0, j0, j1));
                if pt_old.l2_valid(m0, j0, j1) {
                    let t = pt_old.l2_at(m0, j0, j1);
                    assert(m0.is_live(t) && t != root);
                    assert(mb.entry(t, j2) == m0.entry(t, j2));
                }
            }
        }
    }
}

/// Linking a fresh zeroed frame `f2` into invalid slot `i1` of the level-1
/// table behind root slot `i0` keeps the tree well formed and owned; paths
/// through (`i0`,`i1`) now end at a zero leaf, every other walk is untouched.
proof fn lemma_link_level1(
    pt_old: PageTable,
    pt_new: PageTable,
    mm: PhysMem,
    md: PhysMem,
    i0: int,
    i1: int,
    f2: u64,
)
    requires
        pt_old.wf_in(mm),
        pt_old.owns(mm),
        0 <= i0 < ENTRY_COUNT,
        0 <= i1 < ENTRY_COUNT,
        pt_old.l1_valid(mm, i0),
        !bits_valid(mm.entry(pt_old.l1_at(mm, i0), i1)),
        f2 == mm.frames@.len(),
        f2 <= PPN_MASK,
        md.wf(),
        md.frames@.len() == mm.frames@.len() + 1,
        md.live@ == mm.live@.push(true),
        forall|j: int| 0 <= j < ENTRY_COUNT ==> md.entry(f2, j) == 0,
        md.entry(pt_old.l1_at(mm, i0), i1) == (f2 << 10) | 1,
        forall|p: u64, i: int|
            p < mm.frames@.len() && 0 <= i < ENTRY_COUNT && !(p == pt_old.l1_at(mm, i0) && i == i1)
                ==> md.entry(p, i) == #[trigger] mm.entry(p, i),
        pt_new.root_ppn == pt_old.root_ppn,
        pt_new.frames@ == pt_old.frames@.push(f2),
    ensures
        pt_new.wf_in(md),
        pt_new.owns(md),
        pt_new.l1_valid(md, i0),
        pt_new.l1_at(md, i0) == pt_old.l1_at(mm, i0),
        pt_new.l2_valid(md, i0, i1),
        pt_new.l2_at(md, i0, i1) == f2,
        forall|v2: u64|
            spec_idx0(v2) == i0 && spec_idx1(v2) == i1 ==> #[trigger] pt_new.spec_find(md, v2)
                == Some(0u64) && pt_old.spec_find(mm, v2) is None,
        forall|v2: u64|
            !(spec_idx0(v2) == i0 && spec_idx1(v2) == i1) ==> #[trigger] pt_new.spec_find(md, v2)
                == pt_old.spec_find(mm, v2),
{
    let root = pt_old.root_ppn;
    let t1 = pt_old.l1_at(mm, i0);
    assert(mm.frames@.len() == mm.live@.len());
    assert forall|p: u64| #[trigger] mm.is_live(p) implies p < f2 && md.is_live(p) by {
        assert(md.live@[p as int] == mm.live@[p as int]);
    }
    assert(md.is_live(f2)) by {
        assert(md.live@[f2 as int] == true);
    }
    assert(mm.is_live(t1) && t1 != root && root < mm.frames@.len());
    assert(bits_ppn((f2 << 10) | 1) == f2) by {
        crate::pte::lemma_pte_round_trip(f2, 1u8);
    }
    assert(bits_valid((f2 << 10) | 1)) by {
        assert(((f2 << 10) | 1u64) & 1u64 == 1u64) by (bit_vector);
    }
    assert(!bits_valid(0)) by {
        assert(0u64 & 1u64 != 1u64) by (bit_vector);
    }
    // root entries untouched
    assert forall|i: int|
        0 <= i < ENTRY_COUNT implies #[trigger] pt_new.l1_valid(md, i) == pt_old.l1_valid(mm, i)
        && pt_new.l1_at(md, i) == pt_old.l1_at(mm, i) by {
        assert(md.entry(root, i) == mm.entry(root, i));
    }
    // entries of level-1 tables other than t1 untouched; of t1, all but slot i1
    assert forall|i: int, j: int|
        0 <= i < ENTRY_COUNT && 0 <= j < ENTRY_COUNT && pt_old.l1_valid(mm, i) && !(pt_old.l1_at(
            mm,
            i,
        ) == t1 && j == i1) implies md.entry(pt_old.l1_at(mm, i), j) == mm.entry(
        pt_old.l1_at(mm, i),
        j,
    ) by {
        assert(mm.is_live(pt_old.l1_at(mm, i)));
    }
    assert forall|i: int|
        0 <= i < ENTRY_COUNT && i != i0 && pt_old.l1_valid(mm, i) implies pt_old.l1_at(mm, i)
        != t1 by {}
    assert(pt_new.l2_valid(md, i0, i1) && pt_new.l2_at(md, i0, i1) == f2);
    assert forall|i: int, j: int|
        0 <= i < ENTRY_COUNT && 0 <= j < ENTRY_COUNT && !(i == i0 && j == i1) && pt_old.l1_valid(
            mm,
            i,
        ) implies #[trigger] pt_new.l2_valid(md, i, j) == pt_old.l2_valid(mm, i, j) && (
    pt_old.l2_valid(mm, i, j) ==> pt_new.l2_at(md, i, j) == pt_old.l2_at(mm, i, j)) by {
        if i == i0 {
            assert(md.entry(t1, j) == mm.entry(t1, j));
        } else {
            assert(pt_old.l1_at(mm, i) != t1);
            assert(md.entry(pt_old.l1_at(mm, i), j) == mm.entry(pt_old.l1_at(mm, i), j));
        }
    }
    assert(pt_new.wf_in(md)) by {
        assert forall|i: int, j: int|
            0 <= i < ENTRY_COUNT && 0 <= j < ENTRY_COUNT && pt_new.l2_valid(md, i, j) implies {
            &&& md.is_live(#[trigger] pt_new.l2_at(md, i, j))
            &&& pt_new.l2_at(md, i, j) != root
        } by {
            if i == i0 && j == i1 {
            } else {
                assert(mm.is_live(pt_old.l2_at(mm, i, j)));
            }
        }
        assert forall|i: int, j: int, k: int|
            0 <= i < ENTRY_COUNT && 0 <= j < ENTRY_COUNT && 0 <= k < ENTRY_COUNT && pt_new.l2_valid(
                md,
                i,
                j,
            ) && pt_new.l1_valid(md, k) implies #[trigger] pt_new.l2_at(md, i, j)
            != #[trigger] pt_new.l1_at(md, k) by {
            assert(mm.is_live(pt_old.l1_at(mm, k)));
            if i == i0 && j == i1 {
            } else {
                assert(mm.is_live(pt_old.l2_at(mm, i, j)));
            }
        }
        assert forall|i: int, j: int, i2: int, j2: int|
            0 <= i < ENTRY_COUNT && 0 <= j < ENTRY_COUNT && 0 <= i2 < ENTRY_COUNT && 0 <= j2
                < ENTRY_COUNT && !(i == i2 && j == j2) && pt_new.l2_valid(md, i, j)
                && pt_new.l2_valid(md, i2, j2) implies #[trigger] pt_new.l2_at(md, i, j)
            != #[trigger] pt_new.l2_at(md, i2, j2) by {
            if i == i0 && j == i1 {
                assert(mm.is_live(pt_old.l2_at(mm, i2, j2)));
            } else if i2 == i0 && j2 == i1 {
                assert(mm.is_live(pt_old.l2_at(mm, i, j)));
            }
        }
    }
    assert(pt_new.owns(md)) by {
        assert(pt_new.frames@[0] == root);
        assert forall|k: int| 0 <= k < pt_old.frames@.len() implies pt_old.frames@[k] != f2 by {
            assert(mm.is_live(pt_old.frames@[k]));
        }
        assert(pt_new.frames@.no_duplicates()) by {
            assert forall|a: int, b: int|
                0 <= a < pt_new.frames@.len() && 0 <= b < pt_new.frames@.len() && a
                    != b implies pt_new.frames@[a] != pt_new.frames@[b] by {
                if a < pt_old.frames@.len() && b < pt_old.frames@.len() {
                    assert(pt_old.frames@.no_duplicates());
                }
            }
        }
        assert forall|x: u64| pt_old.frames@.contains(x) implies pt_new.frames@.contains(x) by {
            let k = choose|k: int| 0 <= k < pt_old.frames@.len() && pt_old.frames@[k] == x;
            assert(pt_new.frames@[k] == x);
        }
        assert(pt_new.frames@[pt_old.frames@.len() as int] == f2);
        assert(pt_new.frames@.contains(f2));
    }
    assert forall|v2: u64|
        spec_idx0(v2) == i0 && spec_idx1(v2) == i1 implies #[trigger] pt_new.spec_find(md, v2)
        == Some(0u64) && pt_old.spec_find(mm, v2) is None by {
        assert((v2 & 0x1FF) < 512) by (bit_vector);
        assert(pt_new.l1_ppn(md, v2) == t1);
        assert(pt_new.l2_ppn(md, v2) == f2);
        assert(md.entry(f2, spec_idx2(v2) as int) == 0);
    }
    assert forall|v2: u64|
        !(spec_idx0(v2) == i0 && spec_idx1(v2) == i1) implies #[trigger] pt_new.spec_find(md, v2)
        == pt_old.spec_find(mm, v2) by {
        assert((v2 >> 18) & 0x1FF < 512 && (v2 >> 9) & 0x1FF < 512 && v2 & 0x1FF < 512)
            by (bit_vector);
        let j0 = spec_idx0(v2) as int;
        let j1 = spec_idx1(v2) as int;
        let j2 = spec_idx2(v2) as int;
        if pt_old.l1_valid(mm, j0) {
            if j0 == i0 {
                assert(j1 != i1);
                assert(md.entry(t1, j1) == mm.entry(t1, j1));
            } else {
                assert(pt_old.l1_at(mm, j0) != t1);
                assert(md.entry(pt_old.l1_at(mm, j0), j1) == mm.entry(pt_old.l1_at(mm, j0), j1));
            }
            if pt_old.l2_valid(mm, j0, j1) {
                let t = pt_old.l2_at(mm, j0, j1);
                assert(mm.is_live(t));
                assert(t != pt_old.l1_at(mm, i0));
                assert(md.entry(t, j2) == mm.entry(t, j2));
            }
        }
    }
}

/// Rewriting the leaf slot of `vpn` (whose path exists) changes that one
/// walk's outcome to exactly the new word and no other walk at all; the tree
/// stays well formed, and an owner stays an owner.
proof fn lemma_leaf_write(pt: PageTable, m1: PhysMem, m2: PhysMem, vpn: u64, bits: u64)
    requires
        pt.wf_in(m1),
        vpn <= VPN_MASK,
        pt.path_exists(m1, vpn),
        m2.wf(),
        m2.frames@.len() == m1.frames@.len(),
        m2.live@ == m1.live@,
        m2.entry(pt.l2_ppn(m1, vpn), spec_idx2(vpn) as int) == bits,
        forall|p: u64, i: int|
            p < m1.frames@.len() && 0 <= i < ENTRY_COUNT && !(p == pt.l2_ppn(m1, vpn) && i
                == spec_idx2(vpn) as int) ==> m2.entry(p, i) == #[trigger] m1.entry(p, i),
    ensures
        pt.wf_in(m2),
        pt.spec_find(m2, vpn) == Some(bits),
        forall|v2: u64|
            v2 <= VPN_MASK && v2 != vpn ==> #[trigger] pt.spec_find(m2, v2) == pt.spec_find(
                m1,
                v2,
            ),
        pt.owns(m1) ==> pt.owns(m2),
{
    let root = pt.root_ppn;
    assert((vpn >> 18) & 0x1FF < 512 && (vpn >> 9) & 0x1FF < 512 && vpn & 0x1FF < 512)
        by (bit_vector);
    let i0 = spec_idx0(vpn) as int;
    let i1 = spec_idx1(vpn) as int;
    let i2 = spec_idx2(vpn) as int;
    let l2t = pt.l2_ppn(m1, vpn);
    assert(pt.l1_valid(m1, i0));
    assert(pt.l1_at(m1, i0) == pt.l1_ppn(m1, vpn));
    assert(pt.l2_valid(m1, i0, i1));
    assert(pt.l2_at(m1, i0, i1) == l2t);
    assert(l2t != root);
    assert(m1.is_live(l2t) && m1.is_live(root));
    assert forall|p: u64| #[trigger] m1.is_live(p) implies m2.is_live(p) && p
        < m1.frames@.len() by {}
    // root and every level-1 table keep their entries
    assert forall|i: int|
        0 <= i < ENTRY_COUNT implies #[trigger] pt.l1_valid(m2, i) == pt.l1_valid(m1, i)
        && pt.l1_at(m2, i) == pt.l1_at(m1, i) by {
        assert(m2.entry(root, i) == m1.entry(root, i));
    }
    assert forall|i: int, j: int|
        0 <= i < ENTRY_COUNT && 0 <= j < ENTRY_COUNT && pt.l1_valid(m1, i) implies {
        &&& md_entry_eq(m1, m2, pt.l1_at(m1, i), j)
        &&& #[trigger] pt.l2_valid(m2, i, j) == pt.l2_valid(m1, i, j)
        &&& pt.l2_at(m2, i, j) == pt.l2_at(m1, i, j)
    } by {
        assert(pt.l2_at(m1, i0, i1) != pt.l1_at(m1, i));
        assert(m1.is_live(pt.l1_at(m1, i)));
        assert(m2.entry(pt.l1_at(m1, i), j) == m1.entry(pt.l1_at(m1, i), j));
    }
    assert(pt.wf_in(m2));
    assert(pt.spec_find(m2, vpn) == Some(bits)) by {
        assert(pt.l1_ppn(m2, vpn) == pt.l1_at(m2, i0));
        assert(pt.l2_ppn(m2, vpn) == l2t);
    }
    assert forall|v2: u64|
        v2 <= VPN_MASK && v2 != vpn implies #[trigger] pt.spec_find(m2, v2) == pt.spec_find(
        m1,
        v2,
    ) by {
        assert((v2 >> 18) & 0x1FF < 512 && (v2 >> 9) & 0x1FF < 512 && v2 & 0x1FF < 512)
            by (bit_vector);
        let j0 = spec_idx0(v2) as int;
        let j1 = spec_idx1(v2) as int;
        let j2 = spec_idx2(v2) as int;
        if pt.l1_valid(m1, j0) && pt.l2_valid(m1, j0, j1) {
            let t = pt.l2_at(m1, j0, j1);
            assert(m1.is_live(t));
            if j0 == i0 && j1 == i1 {
                assert(t == l2t);
                if j2 == i2 {
                    lemma_vpn_indices_injective(v2, vpn);
                    assert(false);
                }
                assert(m2.entry(t, j2) == m1.entry(t, j2));
            } else {
                assert(t != l2t);
                assert(m2.entry(t, j2) == m1.entry(t, j2));
            }
        }
    }
    if pt.owns(m1) {
        assert(pt.owns(m2));
    }
}

/// Both arenas hold the same entry word at table `p`, slot `j`.
spec fn md_entry_eq(m1: PhysMem, m2: PhysMem, p: u64, j: int) -> bool {
    m2.entry(p, j) == m1.entry(p, j)
}

impl PageTable {
    /// The level-0 entry the walk for `vpn` reads.
    pub open spec fn l0e(self, mem: PhysMem, vpn: u64) -> u64 {
        mem.entry(self.root_ppn, spec_idx0(vpn) as int)
    }

    /// The level-1 table frame the walk for `vpn` goes through.
    pub open spec fn l1_ppn(self, mem: PhysMem, vpn: u64) -> u64 {
        bits_ppn(self.l0e(mem, vpn))
    }

    /// The level-1 entry the walk for `vpn` reads.
    pub open spec fn l1e(self, mem: PhysMem, vpn: u64) -> u64 {
        mem.entry(self.l1_ppn(mem, vpn), spec_idx1(vpn) as int)
    }

    /// The level-2 (leaf) table frame the walk for `vpn` goes through.
    pub open spec fn l2_ppn(self, mem: PhysMem, vpn: u64) -> u64 {
        bits_ppn(self.l1e(mem, vpn))
    }

    /// The leaf entry word for `vpn`.
    pub open spec fn leaf(self, mem: PhysMem, vpn: u64) -> u64 {
        mem.entry(self.l2_ppn(mem, vpn), spec_idx2(vpn) as int)
    }

    /// Whether both intermediate entries on `vpn`'s path are valid, so that a
    /// leaf entry for `vpn` exists at all.
    pub open spec fn path_exists(self, mem: PhysMem, vpn: u64) -> bool {
        bits_valid(self.l0e(mem, vpn)) && bits_valid(self.l1e(mem, vpn))
    }

    /// The read-only walk: the leaf entry word, or absence as soon as an
    /// intermediate entry is invalid.
    pub open spec fn spec_find(self, mem: PhysMem, vpn: u64) -> Option<u64> {
        if self.path_exists(mem, vpn) {
            Some(self.leaf(mem, vpn))
        } else {
            None
        }
    }

    /// Whether `vpn` has a valid leaf mapping.
    pub open spec fn spec_mapped(self, mem: PhysMem, vpn: u64) -> bool {
        self.path_exists(mem, vpn) && bits_valid(self.leaf(mem, vpn))
    }

    /// The level-1 table linked from root slot `i` (meaningful when valid).
    pub open spec fn l1_at(self, mem: PhysMem, i: int) -> u64 {
        bits_ppn(mem.entry(self.root_ppn, i))
    }

    /// Whether root slot `i` holds a valid link.
    pub open spec fn l1_valid(self, mem: PhysMem, i: int) -> bool {
        bits_valid(mem.entry(self.root_ppn, i))
    }

    /// The level-2 table linked from slot `j` of the level-1 table behind
    /// root slot `i` (meaningful when both links are valid).
    pub open spec fn l2_at(self, mem: PhysMem, i: int, j: int) -> u64 {
        bits_ppn(mem.entry(self.l1_at(mem, i), j))
    }

    /// Whether the two links leading to level-2 table (`i`,`j`) are valid.
    pub open spec fn l2_valid(self, mem: PhysMem, i: int, j: int) -> bool {
        self.l1_valid(mem, i) && bits_valid(mem.entry(self.l1_at(mem, i), j))
    }

    /// Well-formedness of the table tree inside the arena: every table frame
    /// the walk can reach is live, and the reachable table frames are pairwise
    /// distinct, so a write through one slot can never alter another level.
    pub open spec fn wf_in(self, mem: PhysMem) -> bool {
        &&& mem.wf()
        &&& mem.is_live(self.root_ppn)
        &&& forall|i: int|
            0 <= i < ENTRY_COUNT && self.l1_valid(mem, i) ==> mem.is_live(
                #[trigger] self.l1_at(mem, i),
            )
        &&& forall|i: int, j: int|
            0 <= i < ENTRY_COUNT && 0 <= j < ENTRY_COUNT && self.l2_valid(mem, i, j)
                ==> mem.is_live(#[trigger] self.l2_at(mem, i, j))
        &&& forall|i: int|
            0 <= i < ENTRY_COUNT && self.l1_valid(mem, i) ==> #[trigger] self.l1_at(mem, i)
                != self.root_ppn
        &&& forall|i: int, k: int|
            0 <= i < ENTRY_COUNT && 0 <= k < ENTRY_COUNT && i != k && self.l1_valid(mem, i)
                && self.l1_valid(mem, k) ==> #[trigger] self.l1_at(mem, i)
                != #[trigger] self.l1_at(mem, k)
        &&& forall|i: int, j: int|
            0 <= i < ENTRY_COUNT && 0 <= j < ENTRY_COUNT && self.l2_valid(mem, i, j)
                ==> #[trigger] self.l2_at(mem, i, j) != self.root_ppn
        &&& forall|i: int, j: int, k: int|
            0 <= i < ENTRY_COUNT && 0 <= j < ENTRY_COUNT && 0 <= k < ENTRY_COUNT && self.l2_valid(
                mem,
                i,
                j,
            ) && self.l1_valid(mem, k) ==> #[trigger] self.l2_at(mem, i, j)
                != #[trigger] self.l1_at(mem, k)
        &&& forall|i: int, j: int, i2: int, j2: int|
            0 <= i < ENTRY_COUNT && 0 <= j < ENTRY_COUNT && 0 <= i2 < ENTRY_COUNT && 0 <= j2
                < ENTRY_COUNT && !(i == i2 && j == j2) && self.l2_valid(mem, i, j)
                && self.l2_valid(mem, i2, j2) ==> #[trigger] self.l2_at(mem, i, j)
                != #[trigger] self.l2_at(mem, i2, j2)
    }

    /// Ownership: the frame list starts with the root, holds no duplicate,
    /// every listed frame is live, and every table frame the walk can reach is
    /// listed — nothing allocated for this tree can leak.
    pub open spec fn owns(self, mem: PhysMem) -> bool {
        &&& self.frames@.len() >= 1
        &&& self.frames@[0] == self.root_ppn
        &&& self.frames@.no_duplicates()
        &&& forall|k: int| 0 <= k < self.frames@.len() ==> mem.is_live(#[trigger] self.frames@[k])
        &&& forall|i: int|
            0 <= i < ENTRY_COUNT && self.l1_valid(mem, i) ==> self.frames@.contains(
                #[trigger] self.l1_at(mem, i),
            )
        &&& forall|i: int, j: int|
            0 <= i < ENTRY_COUNT && 0 <= j < ENTRY_COUNT && self.l2_valid(mem, i, j)
                ==> self.frames@.contains(#[trigger] self.l2_at(mem, i, j))
    }

    /// Build a table that owns a fresh zeroed root frame. Nothing is mapped
    /// under it yet: every walk returns absence.
    pub fn new(mem: &mut PhysMem) -> (r: PageTable)
        requires
            old(mem).wf(),
            old(mem).frames@.len() as u64 <= PPN_MASK,
        ensures
            final(mem).wf(),
            r.wf_in(*final(mem)),
            r.owns(*final(mem)),
            r.root_ppn == old(mem).frames@.len() as u64,
            r.frames@ =~= seq![r.root_ppn],
            final(mem).frames@.len() == old(mem).frames@.len() + 1,
            forall|q: int|
                0 <= q < old(mem).frames@.len() ==> final(mem).frames@[q] == old(mem).frames@[q],
            final(mem).live@ == old(mem).live@.push(true),
            forall|vpn: u64| #[trigger] r.spec_find(*final(mem), vpn) is None,
    {
        let root = mem.alloc_frame().unwrap();
        let mut frames: Vec<u64> = Vec::new();
        frames.push(root);
        let r = PageTable { root_ppn: root, frames };
        proof {
            assert(!bits_valid(0)) by (bit_vector);
            assert(forall|vpn: u64| #![trigger spec_idx0(vpn)] (vpn >> 18) & 0x1FF < 512)
                by (bit_vector);
            assert(forall|vpn: u64| !bits_valid(#[trigger] r.l0e(*mem, vpn)));
        }
        r
    }

    /// Rebuild a non-owning view over an existing root from a token's low
    /// 44 bits, good only for translation against that address space.
    pub fn from_token(token: u64) -> (r: PageTable)
        ensures
            r.root_ppn == token & PPN_MASK,
            r.frames@ =~= Seq::<u64>::empty(),
    {
        PageTable { root_ppn: token & PPN_MASK, frames: Vec::new() }
    }

    /// The hardware-consumable root pointer: mode tag in the top bits, the
    /// root frame's page number in the low 44 bits. A pure function of the
    /// root, so repeated calls on an unmodified table agree.
    pub fn token(&self) -> (r: u64)
        ensures
            r == (MODE_TAG << 60) | self.root_ppn,
    {
        (MODE_TAG << 60) | self.root_ppn
    }

    /// The read-only walk; absence as soon as an intermediate level is
    /// missing, never allocating.
    fn find_pte(&self, mem: &PhysMem, vpn: u64) -> (r: Option<u64>)
        requires
            self.wf_in(*mem),
        ensures
            r == self.spec_find(*mem, vpn),
    {
        let i0 = idx0(vpn);
        let e0 = mem.read_entry(self.root_ppn, i0);
        if e0 & (FLAG_V as u64) != (FLAG_V as u64) {
            return None;
        }
        let l1 = (e0 >> 10) & PPN_MASK;
        proof {
            assert(self.l1_valid(*mem, i0 as int) && l1 == self.l1_at(*mem, i0 as int));
        }
        let i1 = idx1(vpn);
        let e1 = mem.read_entry(l1, i1);
        if e1 & (FLAG_V as u64) != (FLAG_V as u64) {
            return None;
        }
        let l2 = (e1 >> 10) & PPN_MASK;
        proof {
            assert(self.l2_valid(*mem, i0 as int, i1 as int) && l2 == self.l2_at(
                *mem,
                i0 as int,
                i1 as int,
            ));
        }
        let i2 = idx2(vpn);
        Some(mem.read_entry(l2, i2))
    }

    /// Look `vpn` up; a copy of the leaf entry, or absence if an intermediate
    /// level is missing.
    pub fn translate(&self, mem: &PhysMem, vpn: u64) -> (r: Option<PageTableEntry>)
        requires
            self.wf_in(*mem),
        ensures
            r == match self.spec_find(*mem, vpn) {
                Some(b) => Some(PageTableEntry { bits: b }),
                None => None::<PageTableEntry>,
            },
    {
        match self.find_pte(mem, vpn) {
            Some(bits) => Some(PageTableEntry { bits }),
            None => None,
        }
    }

    /// Walk the three levels for `vpn` and return the location of its leaf
    /// slot (level-2 table frame, slot index), allocating a fresh zeroed frame
    /// for any missing intermediate level and linking it with only the valid
    /// bit set. When the path already exists nothing changes; no mapping ever
    /// appears or disappears here, and every existing leaf keeps its bits.
    fn find_pte_create(&mut self, mem: &mut PhysMem, vpn: u64) -> (r: (u64, usize))
        requires
            old(self).wf_in(*old(mem)),
            old(self).owns(*old(mem)),
            vpn <= VPN_MASK,
            old(self).path_exists(*old(mem), vpn) || old(mem).frames@.len() + 1 <= PPN_MASK,
        ensures
            final(self).wf_in(*final(mem)),
            final(self).owns(*final(mem)),
            final(self).root_ppn == old(self).root_ppn,
            old(self).frames@.is_prefix_of(final(self).frames@),
            final(mem).wf(),
            old(mem).frames@.len() <= final(mem).frames@.len() <= old(mem).frames@.len() + 2,
            forall|p: u64, o: int|
                p < old(mem).frames@.len() && 0 <= o < PAGE_SIZE ==> final(mem).byte(p, o) == old(mem).byte(p, o),
            forall|p: u64|
                p < old(mem).frames@.len() ==> final(mem).is_live(p) == old(mem).is_live(p),
            final(self).path_exists(*final(mem), vpn),
            r.0 == final(self).l2_ppn(*final(mem), vpn),
            r.1 == spec_idx2(vpn),
            r.1 < ENTRY_COUNT,
            r.0 < final(mem).frames@.len(),
            old(self).path_exists(*old(mem), vpn) ==> *final(mem) == *old(mem) && final(self).frames@ == old(self).frames@,
            !old(self).path_exists(*old(mem), vpn) ==> final(self).leaf(*final(mem), vpn) == 0,
            forall|v2: u64| #[trigger]
                final(self).spec_mapped(*final(mem), v2) == old(self).spec_mapped(*old(mem), v2),
            forall|v2: u64|
                old(self).spec_find(*old(mem), v2) is Some ==> #[trigger] final(self).spec_find(
                    *final(mem),
                    v2,
                ) == old(self).spec_find(*old(mem), v2),
    {
        let ghost m0 = *old(mem);
        let ghost pt0 = *old(self);
        let i0 = idx0(vpn);
        let i1 = idx1(vpn);
        let i2 = idx2(vpn);
        let e0 = mem.read_entry(self.root_ppn, i0);
        let l1: u64;
        if e0 & (FLAG_V as u64) == (FLAG_V as u64) {
            l1 = (e0 >> 10) & PPN_MASK;
            proof {
                assert(self.l1_valid(*mem, i0 as int));
                assert(self.l1_at(*mem, i0 as int) == l1);
            }
        } else {
            proof {
                if pt0.path_exists(m0, vpn) {
                    assert(bits_valid(pt0.l0e(m0, vpn)));
                    assert(false);
                }
            }
            let f = mem.alloc_frame().unwrap();
            let ghost ma = *mem;
            proof {
                assert forall|p: u64, i: int|
                    p < m0.frames@.len() && 0 <= i < ENTRY_COUNT implies #[trigger] ma.entry(p, i)
                    == m0.entry(p, i) by {
                    assert(ma.frames@[p as int] == m0.frames@[p as int]);
                }
                assert(self.root_ppn < m0.frames@.len());
                assert(self.root_ppn != f);
            }
            let link = (f << 10) | (FLAG_V as u64);
            mem.write_entry(self.root_ppn, i0, link);
            self.frames.push(f);
            l1 = f;
            proof {
                let mb = *mem;
                assert forall|j: int| 0 <= j < ENTRY_COUNT implies mb.entry(f, j) == 0 by {
                    assert(mb.entry(f, j) == ma.entry(f, j));
                }
                assert forall|p: u64, i: int|
                    p < m0.frames@.len() && 0 <= i < ENTRY_COUNT && !(p == pt0.root_ppn && i
                        == i0 as int) implies mb.entry(p, i) == #[trigger] m0.entry(p, i) by {
                    assert(mb.entry(p, i) == ma.entry(p, i));
                }
                assert forall|p: u64, o: int|
                    p < m0.frames@.len() && 0 <= o < PAGE_SIZE implies mb.byte(p, o)
                    == #[trigger] m0.byte(p, o) by {
                    assert(ma.frames@[p as int] == m0.frames@[p as int]);
                    assert(mb.byte(p, o) == ma.byte(p, o));
                }
                assert(mb.live@ == m0.live@.push(true));
                assert forall|p: u64| p < m0.frames@.len() implies mb.is_live(p) == #[trigger]
                    m0.is_live(p) by {
                    assert(mb.live@[p as int] == m0.live@[p as int]);
                }
                lemma_link_level0(pt0, *self, m0, mb, i0 as int, f);
            }
        }
        let ghost mm = *mem;
        let ghost ptm = *self;
        proof {
            assert(ptm.wf_in(mm));
            assert(ptm.owns(mm));
            assert(ptm.l1_valid(mm, i0 as int) && ptm.l1_at(mm, i0 as int) == l1);
            assert(mm.is_live(ptm.l1_at(mm, i0 as int)));
            assert(l1 < mm.frames@.len());
            assert(forall|v2: u64| #[trigger] ptm.spec_find(mm, v2) == pt0.spec_find(m0, v2));
            assert(forall|p: u64, o: int|
                p < m0.frames@.len() && 0 <= o < PAGE_SIZE ==> mm.byte(p, o) == #[trigger] m0.byte(
                    p,
                    o,
                ));
            assert(forall|p: u64| p < m0.frames@.len() ==> mm.is_live(p) == #[trigger] m0.is_live(p));
            assert(m0.frames@.len() <= mm.frames@.len() <= m0.frames@.len() + 1);
        }
        let e1 = mem.read_entry(l1, i1);
        let l2: u64;
        if e1 & (FLAG_V as u64) == (FLAG_V as u64) {
            l2 = (e1 >> 10) & PPN_MASK;
            proof {
                if !pt0.path_exists(m0, vpn) {
                    assert(!bits_valid(0)) by {
                        assert(0u64 & 1u64 != 1u64) by (bit_vector);
                    }
                    if bits_valid(pt0.l0e(m0, vpn)) {
                        assert(pt0.l1_ppn(m0, vpn) == l1);
                        assert(bits_valid(pt0.l1e(m0, vpn)));
                        assert(false);
                    } else {
                        assert(mm.entry(l1, i1 as int) == 0);
                        assert(false);
                    }
                }
                assert(self.l2_valid(mm, i0 as int, i1 as int));
                assert(self.l2_at(mm, i0 as int, i1 as int) == l2);
                assert(mm.is_live(self.l2_at(mm, i0 as int, i1 as int)));
                assert(self.path_exists(mm, vpn));
                assert(self.l2_ppn(mm, vpn) == l2);
                assert forall|v2: u64| #[trigger]
                    self.spec_mapped(mm, v2) == pt0.spec_mapped(m0, v2) by {
                    assert(self.spec_find(mm, v2) == pt0.spec_find(m0, v2));
                }
            }
        } else {
            proof {
                if pt0.path_exists(m0, vpn) {
                    assert(bits_valid(pt0.l0e(m0, vpn)));
                    assert(ptm.l1_at(mm, i0 as int) == pt0.l1_ppn(m0, vpn));
                    assert(bits_valid(pt0.l1e(m0, vpn)));
                    assert(false);
                }
            }
            let f2 = mem.alloc_frame().unwrap();
            let ghost mc = *mem;
            proof {
                assert forall|p: u64, i: int|
                    p < mm.frames@.len() && 0 <= i < ENTRY_COUNT implies #[trigger] mc.entry(p, i)
                    == mm.entry(p, i) by {
                    assert(mc.frames@[p as int] == mm.frames@[p as int]);
                }
                assert(l1 != f2);
            }
            let link2 = (f2 << 10) | (FLAG_V as u64);
            mem.write_entry(l1, i1, link2);
            self.frames.push(f2);
            l2 = f2;
            proof {
                let md = *mem;
                assert forall|j: int| 0 <= j < ENTRY_COUNT implies md.entry(f2, j) == 0 by {
                    assert(md.entry(f2, j) == mc.entry(f2, j));
                }
                assert forall|p: u64, i: int|
                    p < mm.frames@.len() && 0 <= i < ENTRY_COUNT && !(p == ptm.l1_at(
                        mm,
                        i0 as int,
                    ) && i == i1 as int) implies md.entry(p, i) == #[trigger] mm.entry(p, i) by {
                    assert(md.entry(p, i) == mc.entry(p, i));
                }
                assert(md.live@ == mm.live@.push(true));
                assert forall|p: u64, o: int|
                    p < m0.frames@.len() && 0 <= o < PAGE_SIZE implies md.byte(p, o)
                    == #[trigger] m0.byte(p, o) by {
                    assert(mc.frames@[p as int] == mm.frames@[p as int]);
                    assert(md.byte(p, o) == mc.byte(p, o));
                }
                assert forall|p: u64| p < m0.frames@.len() implies md.is_live(p) == #[trigger]
                    m0.is_live(p) by {
                    assert(md.live@[p as int] == mm.live@[p as int]);
                }
                lemma_link_level1(ptm, *self, mm, md, i0 as int, i1 as int, f2);
                assert(!bits_valid(0)) by {
                    assert(0u64 & 1u64 != 1u64) by (bit_vector);
                }
                assert(self.path_exists(md, vpn));
                assert(self.l2_ppn(md, vpn) == f2);
                assert(self.leaf(md, vpn) == 0);
                assert forall|v2: u64| #[trigger]
                    self.spec_mapped(md, v2) == pt0.spec_mapped(m0, v2) by {
                    if spec_idx0(v2) == i0 as int && spec_idx1(v2) == i1 as int {
                        assert(self.spec_find(md, v2) == Some(0u64));
                        assert(ptm.spec_find(mm, v2) is None);
                        assert(pt0.spec_find(m0, v2) is None);
                    } else {
                        assert(self.spec_find(md, v2) == ptm.spec_find(mm, v2));
                        assert(ptm.spec_find(mm, v2) == pt0.spec_find(m0, v2));
                    }
                }
                assert forall|v2: u64|
                    pt0.spec_find(m0, v2) is Some implies #[trigger] self.spec_find(md, v2)
                    == pt0.spec_find(m0, v2) by {
                    assert(ptm.spec_find(mm, v2) == pt0.spec_find(m0, v2));
                    if spec_idx0(v2) == i0 as int && spec_idx1(v2) == i1 as int {
                        assert(ptm.spec_find(mm, v2) is None);
                        assert(false);
                    } else {
                        assert(self.spec_find(md, v2) == ptm.spec_find(mm, v2));
                    }
                }
            }
        }
        proof {
            assert(self.path_exists(*mem, vpn));
        }
        (l2, i2)
    }

    /// Create the leaf mapping `vpn -> ppn` with `flags` plus the valid bit.
    /// Mapping an already-valid page is an address-space invariant break and
    /// is ruled out up front; every other page keeps its mapping, and no data
    /// byte of any pre-existing frame changes.
    pub fn map(&mut self, mem: &mut PhysMem, vpn: u64, ppn: u64, flags: PteFlags)
        requires
            old(self).wf_in(*old(mem)),
            old(self).owns(*old(mem)),
            vpn <= VPN_MASK,
            ppn <= PPN_MASK,
            old(mem).is_live(ppn),
            !old(self).spec_mapped(*old(mem), vpn),
            old(mem).frames@.len() + 1 <= PPN_MASK,
        ensures
            final(self).wf_in(*final(mem)),
            final(self).owns(*final(mem)),
            final(self).root_ppn == old(self).root_ppn,
            old(self).frames@.is_prefix_of(final(self).frames@),
            final(mem).wf(),
            final(self).spec_find(*final(mem), vpn) == Some(
                (ppn << 10) | ((flags.bits | FLAG_V) as u64),
            ),
            final(self).spec_mapped(*final(mem), vpn),
            bits_ppn(final(self).leaf(*final(mem), vpn)) == ppn,
            bits_flags(final(self).leaf(*final(mem), vpn)) == flags.bits | FLAG_V,
            forall|v2: u64|
                v2 <= VPN_MASK && v2 != vpn ==> #[trigger] final(self).spec_mapped(
                    *final(mem),
                    v2,
                ) == old(self).spec_mapped(*old(mem), v2),
            forall|v2: u64|
                v2 <= VPN_MASK && v2 != vpn && old(self).spec_mapped(*old(mem), v2)
                    ==> #[trigger] final(self).spec_find(*final(mem), v2) == old(self).spec_find(
                    *old(mem),
                    v2,
                ),
            old(mem).frames@.len() <= final(mem).frames@.len(),
            forall|p: u64, o: int|
                p < old(mem).frames@.len() && 0 <= o < PAGE_SIZE ==> final(mem).byte(p, o)
                    == #[trigger] old(mem).byte(p, o),
            forall|p: u64|
                p < old(mem).frames@.len() ==> final(mem).is_live(p) == #[trigger] old(
                    mem,
                ).is_live(p),
    {
        let ghost m0 = *old(mem);
        let ghost pt0 = *old(self);
        let (t, i) = self.find_pte_create(mem, vpn);
        let ghost m1 = *mem;
        let pte = PageTableEntry::new(ppn, flags.union(PteFlags::from_bits(FLAG_V)));
        proof {
            let fb = flags.bits;
            assert((fb | 1u8) & 1u8 == 1u8) by (bit_vector);
        }
        mem.write_entry(t, i, pte.bits);
        proof {
            lemma_leaf_write(*self, m1, *mem, vpn, pte.bits);
            assert(bits_valid(pte.bits));
            assert forall|v2: u64|
                v2 <= VPN_MASK && v2 != vpn implies #[trigger] self.spec_mapped(*mem, v2)
                == pt0.spec_mapped(m0, v2) by {
                assert(self.spec_find(*mem, v2) == self.spec_find(m1, v2));
                assert(self.spec_mapped(m1, v2) == pt0.spec_mapped(m0, v2));
            }
            assert forall|v2: u64|
                v2 <= VPN_MASK && v2 != vpn && pt0.spec_mapped(m0, v2) implies #[trigger]
                self.spec_find(*mem, v2) == pt0.spec_find(m0, v2) by {
                assert(pt0.spec_find(m0, v2) is Some);
                assert(self.spec_find(m1, v2) == pt0.spec_find(m0, v2));
                assert(self.spec_find(*mem, v2) == self.spec_find(m1, v2));
            }
            assert forall|p: u64, o: int|
                p < m0.frames@.len() && 0 <= o < PAGE_SIZE implies mem.byte(p, o)
                == #[trigger] m0.byte(p, o) by {
                assert(mem.byte(p, o) == m1.byte(p, o));
            }
        }
    }

    /// Clear the leaf mapping of `vpn` back to the empty entry. Unmapping a
    /// page that is not mapped is an invariant break and is ruled out up
    /// front; nothing else changes at all.
    pub fn unmap(&mut self, mem: &mut PhysMem, vpn: u64)
        requires
            old(self).wf_in(*old(mem)),
            old(self).owns(*old(mem)),
            vpn <= VPN_MASK,
            old(self).spec_mapped(*old(mem), vpn),
        ensures
            final(self).wf_in(*final(mem)),
            final(self).owns(*final(mem)),
            final(self).root_ppn == old(self).root_ppn,
            final(self).frames@ == old(self).frames@,
            final(mem).wf(),
            final(mem).frames@.len() == old(mem).frames@.len(),
            final(mem).live@ == old(mem).live@,
            final(self).spec_find(*final(mem), vpn) == Some(0u64),
            !final(self).spec_mapped(*final(mem), vpn),
            forall|v2: u64|
                v2 <= VPN_MASK && v2 != vpn ==> #[trigger] final(self).spec_find(*final(mem), v2)
                    == old(self).spec_find(*old(mem), v2),
            forall|p: u64, o: int|
                p < old(mem).frames@.len() && 0 <= o < PAGE_SIZE ==> final(mem).byte(p, o)
                    == #[trigger] old(mem).byte(p, o),
    {
        let ghost m0 = *old(mem);
        let (t, i) = self.find_pte_create(mem, vpn);
        let ghost m1 = *mem;
        let pte = PageTableEntry::empty();
        mem.write_entry(t, i, pte.bits);
        proof {
            lemma_leaf_write(*self, m1, *mem, vpn, 0);
            assert(!bits_valid(0)) by {
                assert(0u64 & 1u64 != 1u64) by (bit_vector);
            }
            assert forall|p: u64, o: int|
                p < m0.frames@.len() && 0 <= o < PAGE_SIZE implies mem.byte(p, o)
                == #[trigger] m0.byte(p, o) by {
                assert(mem.byte(p, o) == m1.byte(p, o));
            }
        }
    }

    /// Rewrite only the R/W/X permission bits of `vpn`'s leaf entry through
    /// the codec's narrow setter. Returns a failure code when an intermediate
    /// level is missing (and then changes nothing), otherwise zero.
    pub fn set_pte_flags(&self, mem: &mut PhysMem, vpn: u64, flags: u64) -> (r: isize)
        requires
            self.wf_in(*old(mem)),
            vpn <= VPN_MASK,
        ensures
            final(mem).wf(),
            self.wf_in(*final(mem)),
            self.owns(*old(mem)) ==> self.owns(*final(mem)),
            final(mem).frames@.len() == old(mem).frames@.len(),
            final(mem).live@ == old(mem).live@,
            !self.path_exists(*old(mem), vpn) ==> r == -1 && *final(mem) == *old(mem),
            self.path_exists(*old(mem), vpn) ==> r == 0 && self.spec_find(*final(mem), vpn)
                == Some(
                (self.leaf(*old(mem), vpn) & !PERM_MASK) | (flags & PERM_MASK),
            ),
            forall|v2: u64|
                v2 <= VPN_MASK && v2 != vpn ==> #[trigger] self.spec_find(*final(mem), v2)
                    == self.spec_find(*old(mem), v2),
            forall|p: u64, o: int|
                p < old(mem).frames@.len() && 0 <= o < PAGE_SIZE ==> final(mem).byte(p, o)
                    == #[trigger] old(mem).byte(p, o),
    {
        let ghost m0 = *old(mem);
        let i0 = idx0(vpn);
        let e0 = mem.read_entry(self.root_ppn, i0);
        if e0 & (FLAG_V as u64) != (FLAG_V as u64) {
            return -1;
        }
        let l1 = (e0 >> 10) & PPN_MASK;
        proof {
            assert(self.l1_valid(m0, i0 as int) && self.l1_at(m0, i0 as int) == l1);
            assert(m0.is_live(self.l1_at(m0, i0 as int)));
        }
        let i1 = idx1(vpn);
        let e1 = mem.read_entry(l1, i1);
        if e1 & (FLAG_V as u64) != (FLAG_V as u64) {
            return -1;
        }
        let l2 = (e1 >> 10) & PPN_MASK;
        proof {
            assert(self.l2_valid(m0, i0 as int, i1 as int) && self.l2_at(m0, i0 as int, i1 as int)
                == l2);
            assert(m0.is_live(self.l2_at(m0, i0 as int, i1 as int)));
            assert(self.path_exists(m0, vpn) && self.l2_ppn(m0, vpn) == l2);
        }
        let i2 = idx2(vpn);
        let mut leaf = PageTableEntry { bits: mem.read_entry(l2, i2) };
        proof {
            assert(leaf.bits == self.leaf(m0, vpn));
        }
        leaf.set_flags(flags);
        mem.write_entry(l2, i2, leaf.bits);
        proof {
            lemma_leaf_write(*self, m0, *mem, vpn, leaf.bits);
        }
        0
    }

    /// Give every owned frame back to the pool, the root included, each
    /// exactly once; no other frame's liveness moves. The explicit
    /// counterpart of tearing an address space down.
    pub fn release(self, mem: &mut PhysMem)
        requires
            old(mem).wf(),
            self.frames@.no_duplicates(),
            forall|k: int|
                0 <= k < self.frames@.len() ==> old(mem).is_live(#[trigger] self.frames@[k]),
        ensures
            final(mem).wf(),
            final(mem).frames@ == old(mem).frames@,
            final(mem).live@.len() == old(mem).live@.len(),
            forall|p: u64|
                p < old(mem).live@.len() ==> final(mem).is_live(p) == (old(mem).is_live(p)
                    && !self.frames@.contains(p)),
    {
        let ghost m0 = *old(mem);
        let mut k: usize = 0;
        while k < self.frames.len()
            invariant
                mem.wf(),
                k <= self.frames@.len(),
                self.frames@.no_duplicates(),
                forall|j: int|
                    0 <= j < self.frames@.len() ==> m0.is_live(#[trigger] self.frames@[j]),
                mem.frames@ == m0.frames@,
                mem.live@.len() == m0.live@.len(),
                forall|p: u64|
                    p < m0.live@.len() ==> #[trigger] mem.is_live(p) == (m0.is_live(p)
                        && !self.frames@.subrange(0, k as int).contains(p)),
            decreases self.frames@.len() - k,
        {
            let ghost prev = *mem;
            let p = self.frames[k];
            proof {
                assert(m0.is_live(p));
                if self.frames@.subrange(0, k as int).contains(p) {
                    let j = choose|j: int|
                        0 <= j < k && self.frames@.subrange(0, k as int)[j] == p;
                    assert(self.frames@[j] == p && self.frames@[k as int] == p);
                    assert(false);
                }
                assert(mem.is_live(p));
            }
            mem.free(p);
            k += 1;
            proof {
                let sub_new = self.frames@.subrange(0, k as int);
                let sub_old = self.frames@.subrange(0, k as int - 1);
                assert(sub_new =~= sub_old.push(p));
                assert forall|q: u64|
                    q < m0.live@.len() implies #[trigger] mem.is_live(q) == (m0.is_live(q)
                        && !sub_new.contains(q)) by {
                    if q == p {
                        assert(sub_new[k as int - 1] == p);
                        assert(sub_new.contains(p));
                        assert(!mem.is_live(p));
                    } else {
                        assert(mem.live@[q as int] == prev.live@[q as int]);
                        assert(mem.is_live(q) == prev.is_live(q));
                        if sub_new.contains(q) {
                            let j = choose|j: int| 0 <= j < k && sub_new[j] == q;
                            if j < k - 1 {
                                assert(sub_old[j] == q);
                                assert(sub_old.contains(q));
                            }
                        }
                        if sub_old.contains(q) {
                            let j = choose|j: int| 0 <= j < k - 1 && sub_old[j] == q;
                            assert(sub_new[j] == q);
                            assert(sub_new.contains(q));
                        }
                    }
                }
            }
        }
        proof {
            assert(self.frames@.subrange(0, self.frames@.len() as int) =~= self.frames@);
        }
    }

    /// Translate a full virtual address: floor it to its page, walk that
    /// page, and splice the page offset back onto the physical base.
    pub fn translate_va(&self, mem: &PhysMem, va: u64) -> (r: Option<u64>)
        requires
            self.wf_in(*mem),
        ensures
            r == match self.spec_find(*mem, va / 4096) {
                Some(b) => Some((bits_ppn(b) * 4096 + va % 4096) as u64),
                None => None::<u64>,
            },
    {
        let vpn = va / 4096;
        match self.find_pte(mem, vpn) {
            Some(b) => {
                let ppn = (b >> 10) & PPN_MASK;
                proof {
                    assert((b >> 10) & 0xFFF_FFFF_FFFF <= 0xFFF_FFFF_FFFF) by (bit_vector);
                }
                Some(ppn * 4096 + va % 4096)
            },
            None => None,
        }
    }
}

} // verus!
