//! Scatter/gather user buffer: one logically contiguous byte range realized
//! as an ordered sequence of disjoint page-bounded fragments of the frame
//! arena, with gather-read, scatter-write and a byte-location cursor.
use vstd::prelude::*;
use crate::phys::{PhysLoc, PhysMem};
use crate::PAGE_SIZE;

verus! {

/// One page-bounded piece of a buffer: a non-empty byte range
/// [`start`,`end`) inside frame `ppn`.
#[derive(Clone, Copy, PartialEq, Eq, Structural, Debug)]
pub struct Fragment {
    pub ppn: u64,
    pub start: usize,
    pub end: usize,
}

impl Fragment {
    pub open spec fn wf(self) -> bool {
        self.start < self.end <= PAGE_SIZE
    }
}

/// Byte length of one fragment.
pub open spec fn frag_len(f: Fragment) -> int {
    f.end - f.start
}

/// Total byte length of a fragment sequence.
pub open spec fn frags_len(fs: Seq<Fragment>) -> int
    decreases fs.len(),
{
    if fs.len() <= 0 {
        0
    } else {
        frag_len(fs[0]) + frags_len(fs.skip(1))
    }
}

/// The bytes one fragment denotes in the arena.
pub open spec fn frag_bytes(mem: PhysMem, f: Fragment) -> Seq<u8> {
    Seq::new(frag_len(f) as nat, |k: int| mem.byte(f.ppn, f.start + k))
}

/// The bytes a whole buffer denotes: its fragments' bytes in order.
pub open spec fn buf_bytes(mem: PhysMem, fs: Seq<Fragment>) -> Seq<u8>
    decreases fs.len(),
{
    if fs.len() <= 0 {
        Seq::empty()
    } else {
        frag_bytes(mem, fs[0]) + buf_bytes(mem, fs.skip(1))
    }
}

/// Two fragments name no byte location in common.
pub open spec fn frags_disjoint(a: Fragment, b: Fragment) -> bool {
    a.ppn != b.ppn || a.end <= b.start || b.end <= a.start
}

/// Whether location (`p`,`o`) lies inside some fragment of the buffer.
pub open spec fn covered(fs: Seq<Fragment>, p: u64, o: int) -> bool {
    exists|i: int| 0 <= i < fs.len() && (#[trigger] fs[i]).ppn == p && fs[i].start <= o < fs[i].end
}

/// Well-formedness of a buffer against an arena: every fragment is a
/// non-empty in-bounds page range, and fragments are pairwise disjoint, so a
/// write through one never shows through another.
pub open spec fn buf_wf(mem: PhysMem, fs: Seq<Fragment>) -> bool {
    &&& forall|i: int|
        0 <= i < fs.len() ==> (#[trigger] fs[i]).wf() && fs[i].ppn < mem.frames@.len()
    &&& forall|i: int, j: int|
        0 <= i < j < fs.len() ==> frags_disjoint(#[trigger] fs[i], #[trigger] fs[j])
}

/// A sequence of well-formed fragments has a non-negative total length.
pub proof fn lemma_frags_len_nonneg(fs: Seq<Fragment>)
    requires
        forall|i: int| 0 <= i < fs.len() ==> (#[trigger] fs[i]).wf(),
    ensures
        frags_len(fs) >= 0,
    decreases fs.len(),
{
    if fs.len() > 0 {
        assert forall|i: int| 0 <= i < fs.skip(1).len() implies (#[trigger] fs.skip(1)[i]).wf() by {
            assert(fs.skip(1)[i] == fs[i + 1]);
        }
        lemma_frags_len_nonneg(fs.skip(1));
    }
}

/// Splitting a fragment sequence splits its total length.
pub proof fn lemma_frags_len_split(fs: Seq<Fragment>, k: int)
    requires
        0 <= k <= fs.len(),
    ensures
        frags_len(fs) == frags_len(fs.take(k)) + frags_len(fs.skip(k)),
    decreases k,
{
    if k == 0 {
        assert(fs.take(0) =~= Seq::<Fragment>::empty());
        assert(fs.skip(0) =~= fs);
    } else {
        let rest = fs.skip(1);
        lemma_frags_len_split(rest, k - 1);
        assert(rest.take(k - 1) =~= fs.take(k).skip(1));
        assert(rest.skip(k - 1) =~= fs.skip(k));
        assert(fs.take(k)[0] == fs[0]);
    }
}

/// Appending one fragment adds its length to the total.
pub proof fn lemma_frags_len_push(fs: Seq<Fragment>, f: Fragment)
    ensures
        frags_len(fs.push(f)) == frags_len(fs) + frag_len(f),
    decreases fs.len(),
{
    if fs.len() == 0 {
        assert(fs.push(f)[0] == f);
        assert(fs.push(f).skip(1) =~= Seq::<Fragment>::empty());
        assert(frags_len(fs.push(f).skip(1)) == 0);
    } else {
        assert(fs.push(f).skip(1) =~= fs.skip(1).push(f));
        lemma_frags_len_push(fs.skip(1), f);
        assert(fs.push(f)[0] == fs[0]);
        assert(frags_len(fs.push(f)) == frag_len(fs[0]) + frags_len(fs.push(f).skip(1)));
        assert(frags_len(fs) == frag_len(fs[0]) + frags_len(fs.skip(1)));
    }
}

/// A buffer's byte count is the sum of non-negative fragment lengths; in
/// particular it is itself non-negative and equals the denoted bytes' length.
pub proof fn lemma_buf_len(mem: PhysMem, fs: Seq<Fragment>)
    requires
        forall|i: int| 0 <= i < fs.len() ==> (#[trigger] fs[i]).wf(),
    ensures
        frags_len(fs) >= 0,
        buf_bytes(mem, fs).len() == frags_len(fs),
    decreases fs.len(),
{
    if fs.len() > 0 {
        assert forall|i: int| 0 <= i < fs.skip(1).len() implies (#[trigger] fs.skip(1)[i]).wf() by {
            assert(fs.skip(1)[i] == fs[i + 1]);
        }
        lemma_buf_len(mem, fs.skip(1));
    }
}

/// Splitting a buffer at fragment `k` splits both its byte count and its
/// denoted bytes.
pub proof fn lemma_buf_split(mem: PhysMem, fs: Seq<Fragment>, k: int)
    requires
        0 <= k <= fs.len(),
    ensures
        frags_len(fs) == frags_len(fs.take(k)) + frags_len(fs.skip(k)),
        buf_bytes(mem, fs) == buf_bytes(mem, fs.take(k)) + buf_bytes(mem, fs.skip(k)),
    decreases k,
{
    if k == 0 {
        assert(fs.take(0) =~= Seq::<Fragment>::empty());
        assert(fs.skip(0) =~= fs);
        assert(buf_bytes(mem, fs.take(0)) + buf_bytes(mem, fs.skip(0)) =~= buf_bytes(mem, fs));
    } else {
        let rest = fs.skip(1);
        lemma_buf_split(mem, rest, k - 1);
        assert(rest.take(k - 1) =~= fs.take(k).skip(1));
        assert(rest.skip(k - 1) =~= fs.skip(k));
        assert(fs.take(k)[0] == fs[0]);
        assert(buf_bytes(mem, fs.take(k)) == frag_bytes(mem, fs[0]) + buf_bytes(
            mem,
            fs.take(k).skip(1),
        ));
        assert(buf_bytes(mem, fs) == frag_bytes(mem, fs[0]) + buf_bytes(mem, rest));
        assert(buf_bytes(mem, fs.take(k)) + buf_bytes(mem, fs.skip(k)) =~= buf_bytes(mem, fs));
    }
}

/// Appending one fragment appends its bytes and adds its length.
pub proof fn lemma_buf_push(mem: PhysMem, fs: Seq<Fragment>, f: Fragment)
    ensures
        frags_len(fs.push(f)) == frags_len(fs) + frag_len(f),
        buf_bytes(mem, fs.push(f)) == buf_bytes(mem, fs) + frag_bytes(mem, f),
    decreases fs.len(),
{
    if fs.len() == 0 {
        assert(fs.push(f)[0] == f);
        assert(fs.push(f).skip(1) =~= Seq::<Fragment>::empty());
        assert(frags_len(fs.push(f).skip(1)) == 0);
        assert(buf_bytes(mem, fs.push(f).skip(1)) == Seq::<u8>::empty());
        assert(buf_bytes(mem, fs.push(f)) == frag_bytes(mem, f) + buf_bytes(
            mem,
            fs.push(f).skip(1),
        ));
        assert(buf_bytes(mem, fs.push(f)) =~= buf_bytes(mem, fs) + frag_bytes(mem, f));
    } else {
        assert(fs.push(f).skip(1) =~= fs.skip(1).push(f));
        lemma_buf_push(mem, fs.skip(1), f);
        assert(fs.push(f)[0] == fs[0]);
        assert(frags_len(fs.push(f)) == frag_len(fs[0]) + frags_len(fs.skip(1).push(f)));
        assert(buf_bytes(mem, fs.push(f)) == frag_bytes(mem, fs[0]) + buf_bytes(
            mem,
            fs.skip(1).push(f),
        ));
        assert(buf_bytes(mem, fs.push(f)) =~= buf_bytes(mem, fs) + frag_bytes(mem, f));
    }
}

/// Two arenas that agree on every byte a buffer covers denote the same bytes
/// through it.
pub proof fn lemma_buf_congruence(m1: PhysMem, m2: PhysMem, fs: Seq<Fragment>)
    requires
        forall|i: int| 0 <= i < fs.len() ==> (#[trigger] fs[i]).wf(),
        forall|i: int, o: int|
            0 <= i < fs.len() && fs[i].start <= o < fs[i].end ==> m2.byte(fs[i].ppn, o)
                == #[trigger] m1.byte(fs[i].ppn, o),
    ensures
        buf_bytes(m2, fs) == buf_bytes(m1, fs),
    decreases fs.len(),
{
    if fs.len() > 0 {
        assert forall|i: int| 0 <= i < fs.skip(1).len() implies (#[trigger] fs.skip(
            1,
        )[i]).wf() by {
            assert(fs.skip(1)[i] == fs[i + 1]);
        }
        assert forall|i: int, o: int|
            0 <= i < fs.skip(1).len() && fs.skip(1)[i].start <= o < fs.skip(1)[i].end implies
            m2.byte(fs.skip(1)[i].ppn, o) == #[trigger] m1.byte(fs.skip(1)[i].ppn, o) by {
            assert(fs.skip(1)[i] == fs[i + 1]);
        }
        lemma_buf_congruence(m1, m2, fs.skip(1));
        assert forall|k: int| 0 <= k < frag_len(fs[0]) implies frag_bytes(m2, fs[0])[k]
            == frag_bytes(m1, fs[0])[k] by {
            assert(m2.byte(fs[0].ppn, fs[0].start + k) == m1.byte(fs[0].ppn, fs[0].start + k));
            assert(frag_bytes(m2, fs[0])[k] == m2.byte(fs[0].ppn, fs[0].start + k));
            assert(frag_bytes(m1, fs[0])[k] == m1.byte(fs[0].ppn, fs[0].start + k));
        }
        assert(frag_bytes(m2, fs[0]).len() == frag_bytes(m1, fs[0]).len());
        assert(frag_bytes(m2, fs[0]) =~= frag_bytes(m1, fs[0]));
        assert(buf_bytes(m2, fs) =~= buf_bytes(m1, fs));
    }
}

/// Writing one covered byte rewrites exactly the matching flat position of
/// the buffer's denoted bytes.
pub proof fn lemma_buf_update(m1: PhysMem, m2: PhysMem, fs: Seq<Fragment>, i: int, o: int)
    requires
        forall|k: int| 0 <= k < fs.len() ==> (#[trigger] fs[k]).wf(),
        forall|k: int, l: int|
            0 <= k < l < fs.len() ==> frags_disjoint(#[trigger] fs[k], #[trigger] fs[l]),
        0 <= i < fs.len(),
        fs[i].start <= o < fs[i].end,
        forall|k: int| 0 <= k < fs.len() ==> (#[trigger] fs[k]).ppn < m1.frames@.len(),
        m2.frames@.len() == m1.frames@.len(),
        forall|p: u64, q: int|
            p < m1.frames@.len() && 0 <= q < PAGE_SIZE && !(p == fs[i].ppn && q == o) ==> m2.byte(
                p,
                q,
            ) == #[trigger] m1.byte(p, q),
    ensures
        buf_bytes(m2, fs) == buf_bytes(m1, fs).update(
            frags_len(fs.take(i)) + (o - fs[i].start),
            m2.byte(fs[i].ppn, o),
        ),
    decreases i,
{
    let v = m2.byte(fs[i].ppn, o);
    lemma_buf_len(m1, fs);
    let rest = fs.skip(1);
    assert forall|k: int| 0 <= k < rest.len() implies (#[trigger] rest[k]).wf() by {
        assert(rest[k] == fs[k + 1]);
    }
    lemma_buf_len(m1, rest);
    if i == 0 {
        assert(frags_len(fs.take(0)) == 0);
        assert(frag_bytes(m2, fs[0]) =~= frag_bytes(m1, fs[0]).update(o - fs[0].start, v));
        assert forall|k: int, q: int|
            0 <= k < rest.len() && rest[k].start <= q < rest[k].end implies m2.byte(rest[k].ppn, q)
            == #[trigger] m1.byte(rest[k].ppn, q) by {
            assert(rest[k] == fs[k + 1]);
            assert(frags_disjoint(fs[0], fs[k + 1]));
        }
        lemma_buf_congruence(m1, m2, rest);
        assert(buf_bytes(m2, fs) =~= buf_bytes(m1, fs).update(o - fs[0].start, v));
    } else {
        assert forall|k: int, l: int|
            0 <= k < l < rest.len() implies frags_disjoint(
            #[trigger] rest[k],
            #[trigger] rest[l],
        ) by {
            assert(rest[k] == fs[k + 1] && rest[l] == fs[l + 1]);
        }
        assert(rest[i - 1] == fs[i]);
        lemma_buf_update(m1, m2, rest, i - 1, o);
        assert(frags_disjoint(fs[0], fs[i]));
        assert(frag_bytes(m2, fs[0]) =~= frag_bytes(m1, fs[0]));
        assert(rest.take(i - 1) =~= fs.take(i).skip(1));
        assert(fs.take(i)[0] == fs[0]);
        assert(frags_len(fs.take(i)) == frag_len(fs[0]) + frags_len(rest.take(i - 1)));
        let n = frags_len(rest.take(i - 1)) + (o - fs[i].start);
        assert(0 <= n < buf_bytes(m1, rest).len()) by {
            lemma_buf_split(m1, rest, i - 1);
            assert forall|k: int| 0 <= k < rest.take(i - 1).len() implies (#[trigger] rest.take(
                i - 1,
            )[k]).wf() by {
                assert(rest.take(i - 1)[k] == fs[k + 1]);
            }
            lemma_buf_len(m1, rest.take(i - 1));
            assert forall|k: int| 0 <= k < rest.skip(i - 1).len() implies (#[trigger] rest.skip(
                i - 1,
            )[k]).wf() by {
                assert(rest.skip(i - 1)[k] == fs[k + i]);
            }
            lemma_buf_len(m1, rest.skip(i - 1));
            assert(rest.skip(i - 1)[0] == fs[i]);
            assert(frags_len(rest.skip(i - 1)) >= frag_len(fs[i])) by {
                assert forall|k: int|
                    0 <= k < rest.skip(i - 1).skip(1).len() implies (#[trigger] rest.skip(
                    i - 1,
                ).skip(1)[k]).wf() by {
                    assert(rest.skip(i - 1).skip(1)[k] == fs[k + i + 1]);
                }
                lemma_buf_len(m1, rest.skip(i - 1).skip(1));
            }
        }
        assert(buf_bytes(m2, fs) =~= buf_bytes(m1, fs).update(
            frags_len(fs.take(i)) + (o - fs[i].start),
            v,
        ));
    }
}

/// The byte at flat position `frags_len(fs.take(i)) + j` of a buffer is byte
/// `fs[i].start + j` of frame `fs[i].ppn`.
pub proof fn lemma_buf_index(mem: PhysMem, fs: Seq<Fragment>, i: int, j: int)
    requires
        forall|k: int| 0 <= k < fs.len() ==> (#[trigger] fs[k]).wf(),
        0 <= i < fs.len(),
        0 <= j < frag_len(fs[i]),
    ensures
        0 <= frags_len(fs.take(i)) + j < frags_len(fs),
        buf_bytes(mem, fs)[frags_len(fs.take(i)) + j] == mem.byte(fs[i].ppn, fs[i].start + j),
{
    lemma_buf_split(mem, fs, i);
    assert forall|k: int| 0 <= k < fs.take(i).len() implies (#[trigger] fs.take(i)[k]).wf() by {
        assert(fs.take(i)[k] == fs[k]);
    }
    lemma_buf_len(mem, fs.take(i));
    assert forall|k: int| 0 <= k < fs.skip(i).len() implies (#[trigger] fs.skip(i)[k]).wf() by {
        assert(fs.skip(i)[k] == fs[k + i]);
    }
    lemma_buf_len(mem, fs.skip(i));
    let tail = fs.skip(i);
    assert(tail[0] == fs[i]);
    assert(buf_bytes(mem, tail) == frag_bytes(mem, tail[0]) + buf_bytes(mem, tail.skip(1)));
    assert(frag_bytes(mem, fs[i])[j] == mem.byte(fs[i].ppn, fs[i].start + j));
    assert forall|k: int| 0 <= k < tail.skip(1).len() implies (#[trigger] tail.skip(
        1,
    )[k]).wf() by {
        assert(tail.skip(1)[k] == fs[k + i + 1]);
    }
    lemma_buf_len(mem, tail.skip(1));
    assert(buf_bytes(mem, fs)[frags_len(fs.take(i)) + j] == buf_bytes(mem, tail)[j]);
}

/// The scatter/gather buffer: an ordered, non-owned sequence of disjoint
/// fragments standing for one logical byte range. It is valid only while the
/// mapping it was built from stays in place.
pub struct UserBuffer {
    pub buffers: Vec<Fragment>,
}

impl UserBuffer {
    pub fn new(buffers: Vec<Fragment>) -> (r: Self)
        ensures
            r.buffers@ == buffers@,
    {
        UserBuffer { buffers }
    }

    /// Total capacity in bytes: the sum of the fragments' lengths.
    pub fn len(&self) -> (r: usize)
        requires
            forall|i: int| 0 <= i < self.buffers@.len() ==> (#[trigger] self.buffers@[i]).wf(),
            frags_len(self.buffers@) <= usize::MAX,
        ensures
            r == frags_len(self.buffers@),
    {
        let ghost fs = self.buffers@;
        let mut total: usize = 0;
        let mut i: usize = 0;
        while i < self.buffers.len()
            invariant
                i <= fs.len(),
                forall|k: int| 0 <= k < fs.len() ==> (#[trigger] fs[k]).wf(),
                frags_len(fs) <= usize::MAX,
                total == frags_len(fs.take(i as int)),
                self.buffers@ == fs,
            decreases fs.len() - i,
        {
            let f = self.buffers[i];
            proof {
                assert(fs.take(i as int + 1) =~= fs.take(i as int).push(f));
                lemma_frags_len_push(fs.take(i as int), f);
                lemma_frags_len_split(fs, i as int + 1);
                assert forall|k: int| 0 <= k < fs.skip(i as int + 1).len() implies (
                #[trigger] fs.skip(i as int + 1)[k]).wf() by {
                    assert(fs.skip(i as int + 1)[k] == fs[k + i + 1]);
                }
                lemma_frags_len_nonneg(fs.skip(i as int + 1));
            }
            total = total + (f.end - f.start);
            i = i + 1;
        }
        proof {
            assert(fs.take(fs.len() as int) =~= fs);
        }
        total
    }

    /// Scatter-copy from a contiguous source: the first `min(capacity,
    /// len(src))` bytes of `src` fill the fragments in order, every later
    /// buffer byte and every byte outside the buffer keep their values, and
    /// no table entry or liveness record moves. Returns the bytes written.
    pub fn write(&self, mem: &mut PhysMem, src: &Vec<u8>) -> (r: usize)
        requires
            old(mem).wf(),
            buf_wf(*old(mem), self.buffers@),
            frags_len(self.buffers@) <= usize::MAX,
        ensures
            final(mem).wf(),
            frags_len(self.buffers@) <= src@.len() ==> r == frags_len(self.buffers@),
            frags_len(self.buffers@) > src@.len() ==> r == src@.len(),
            buf_bytes(*final(mem), self.buffers@) == src@.take(r as int) + buf_bytes(
                *old(mem),
                self.buffers@,
            ).skip(r as int),
            final(mem).frames@.len() == old(mem).frames@.len(),
            final(mem).live@ == old(mem).live@,
            forall|p: u64, q: int|
                p < old(mem).frames@.len() && 0 <= q < crate::ENTRY_COUNT ==> final(mem).entry(
                    p,
                    q,
                ) == #[trigger] old(mem).entry(p, q),
            forall|p: u64, o: int|
                p < old(mem).frames@.len() && 0 <= o < PAGE_SIZE && !covered(self.buffers@, p, o)
                    ==> final(mem).byte(p, o) == #[trigger] old(mem).byte(p, o),
    {
        let ghost m0 = *old(mem);
        let ghost fs = self.buffers@;
        let total = self.len();
        let n: usize = if total < src.len() {
            total
        } else {
            src.len()
        };
        proof {
            lemma_buf_len(m0, fs);
            assert(fs.take(0int) =~= Seq::<Fragment>::empty());
            assert(src@.take(0int) + buf_bytes(m0, fs).skip(0int) =~= buf_bytes(m0, fs));
        }
        let mut i: usize = 0;
        let mut cur: usize = 0;
        while i < self.buffers.len() && cur < n
            invariant
                mem.wf(),
                buf_wf(m0, fs),
                self.buffers@ == fs,
                n <= src@.len(),
                frags_len(fs) <= src@.len() ==> n == frags_len(fs),
                frags_len(fs) > src@.len() ==> n == src@.len(),
                i <= fs.len(),
                cur <= n,
                n <= frags_len(fs.take(i as int)) ==> cur == n,
                n > frags_len(fs.take(i as int)) ==> cur == frags_len(fs.take(i as int)),
                mem.frames@.len() == m0.frames@.len(),
                mem.live@ == m0.live@,
                forall|p: u64, q: int|
                    p < m0.frames@.len() && 0 <= q < crate::ENTRY_COUNT ==> mem.entry(p, q)
                        == #[trigger] m0.entry(p, q),
                forall|p: u64, o: int|
                    p < m0.frames@.len() && 0 <= o < PAGE_SIZE && !covered(fs, p, o) ==> mem.byte(
                        p,
                        o,
                    ) == #[trigger] m0.byte(p, o),
                buf_bytes(*mem, fs) == src@.take(cur as int) + buf_bytes(m0, fs).skip(cur as int),
            decreases fs.len() - i,
        {
            let f = self.buffers[i];
            proof {
                lemma_frags_len_split(fs, i as int);
                assert forall|k: int| 0 <= k < fs.skip(i as int).len() implies (#[trigger] fs.skip(
                    i as int,
                )[k]).wf() by {
                    assert(fs.skip(i as int)[k] == fs[k + i]);
                }
                lemma_frags_len_nonneg(fs.skip(i as int));
                assert forall|k: int| 0 <= k < fs.take(i as int).len() implies (#[trigger] fs.take(
                    i as int,
                )[k]).wf() by {
                    assert(fs.take(i as int)[k] == fs[k]);
                }
                lemma_frags_len_nonneg(fs.take(i as int));
                assert(fs.skip(i as int)[0] == fs[i as int]);
                assert forall|k: int|
                    0 <= k < fs.skip(i as int).skip(1).len() implies (#[trigger] fs.skip(
                    i as int,
                ).skip(1)[k]).wf() by {
                    assert(fs.skip(i as int).skip(1)[k] == fs[k + i + 1]);
                }
                lemma_frags_len_nonneg(fs.skip(i as int).skip(1));
            }
            let fl = f.end - f.start;
            let rem = n - cur;
            let cnt = if fl < rem {
                fl
            } else {
                rem
            };
            let ghost base = cur as int;
            let mut j: usize = 0;
            while j < cnt
                invariant
                    mem.wf(),
                    buf_wf(m0, fs),
                    self.buffers@ == fs,
                    i < fs.len(),
                    f == fs[i as int],
                    fl == frag_len(f),
                    n <= src@.len(),
                    base == frags_len(fs.take(i as int)),
                    base + fl <= frags_len(fs),
                    cnt <= fl,
                    base + cnt <= n,
                    j <= cnt,
                    cur == base + j,
                    mem.frames@.len() == m0.frames@.len(),
                    mem.live@ == m0.live@,
                    forall|p: u64, q: int|
                        p < m0.frames@.len() && 0 <= q < crate::ENTRY_COUNT ==> mem.entry(p, q)
                            == #[trigger] m0.entry(p, q),
                    forall|p: u64, o: int|
                        p < m0.frames@.len() && 0 <= o < PAGE_SIZE && !covered(fs, p, o)
                            ==> mem.byte(p, o) == #[trigger] m0.byte(p, o),
                    buf_bytes(*mem, fs) == src@.take(cur as int) + buf_bytes(m0, fs).skip(
                        cur as int,
                    ),
                decreases cnt - j,
            {
                let ghost mprev = *mem;
                mem.write_byte(f.ppn, f.start + j, src[cur]);
                proof {
                    lemma_buf_update(mprev, *mem, fs, i as int, f.start + j);
                    lemma_buf_len(m0, fs);
                    lemma_buf_len(mprev, fs);
                    assert(covered(fs, f.ppn, f.start + j));
                    assert(buf_bytes(*mem, fs) == buf_bytes(mprev, fs).update(
                        cur as int,
                        src@[cur as int],
                    ));
                    assert(buf_bytes(*mem, fs) =~= src@.take(cur as int + 1) + buf_bytes(
                        m0,
                        fs,
                    ).skip(cur as int + 1));
                }
                cur = cur + 1;
                j = j + 1;
            }
            i = i + 1;
            proof {
                assert(fs.take(i as int) =~= fs.take(i as int - 1).push(f));
                lemma_frags_len_push(fs.take(i as int - 1), f);
            }
        }
        proof {
            if cur < n {
                assert(fs.take(fs.len() as int) =~= fs);
                assert(false);
            }
        }
        n
    }

    /// Gather-copy into a contiguous destination: the first
    /// `min(capacity, len(dst))` bytes of `dst` become the buffer's bytes in
    /// order; the rest of `dst` keeps its values. Returns the bytes read.
    pub fn read(&self, mem: &PhysMem, dst: &mut Vec<u8>) -> (r: usize)
        requires
            mem.wf(),
            buf_wf(*mem, self.buffers@),
            frags_len(self.buffers@) <= usize::MAX,
        ensures
            final(dst)@.len() == old(dst)@.len(),
            frags_len(self.buffers@) <= old(dst)@.len() ==> r == frags_len(self.buffers@),
            frags_len(self.buffers@) > old(dst)@.len() ==> r == old(dst)@.len(),
            final(dst)@ == buf_bytes(*mem, self.buffers@).take(r as int) + old(dst)@.skip(
                r as int,
            ),
    {
        let ghost fs = self.buffers@;
        let ghost d0 = old(dst)@;
        let total = self.len();
        let n: usize = if total < dst.len() {
            total
        } else {
            dst.len()
        };
        proof {
            lemma_buf_len(*mem, fs);
            assert(buf_bytes(*mem, fs).take(0int) + d0.skip(0int) =~= d0);
        }
        let mut i: usize = 0;
        let mut cur: usize = 0;
        while i < self.buffers.len() && cur < n
            invariant
                mem.wf(),
                buf_wf(*mem, fs),
                self.buffers@ == fs,
                n <= d0.len(),
                frags_len(fs) <= d0.len() ==> n == frags_len(fs),
                frags_len(fs) > d0.len() ==> n == d0.len(),
                i <= fs.len(),
                cur <= n,
                n <= frags_len(fs.take(i as int)) ==> cur == n,
                n > frags_len(fs.take(i as int)) ==> cur == frags_len(fs.take(i as int)),
                dst@.len() == d0.len(),
                dst@ == buf_bytes(*mem, fs).take(cur as int) + d0.skip(cur as int),
            decreases fs.len() - i,
        {
            let f = self.buffers[i];
            proof {
                lemma_frags_len_split(fs, i as int);
                assert forall|k: int| 0 <= k < fs.skip(i as int).len() implies (#[trigger] fs.skip(
                    i as int,
                )[k]).wf() by {
                    assert(fs.skip(i as int)[k] == fs[k + i]);
                }
                lemma_frags_len_nonneg(fs.skip(i as int));
                assert forall|k: int| 0 <= k < fs.take(i as int).len() implies (#[trigger] fs.take(
                    i as int,
                )[k]).wf() by {
                    assert(fs.take(i as int)[k] == fs[k]);
                }
                lemma_frags_len_nonneg(fs.take(i as int));
                assert(fs.skip(i as int)[0] == fs[i as int]);
                assert forall|k: int|
                    0 <= k < fs.skip(i as int).skip(1).len() implies (#[trigger] fs.skip(
                    i as int,
                ).skip(1)[k]).wf() by {
                    assert(fs.skip(i as int).skip(1)[k] == fs[k + i + 1]);
                }
                lemma_frags_len_nonneg(fs.skip(i as int).skip(1));
            }
            let fl = f.end - f.start;
            let rem = n - cur;
            let cnt = if fl < rem {
                fl
            } else {
                rem
            };
            let ghost base = cur as int;
            let mut j: usize = 0;
            while j < cnt
                invariant
                    mem.wf(),
                    buf_wf(*mem, fs),
                    self.buffers@ == fs,
                    i < fs.len(),
                    f == fs[i as int],
                    fl == frag_len(f),
                    n <= d0.len(),
                    base == frags_len(fs.take(i as int)),
                    base + fl <= frags_len(fs),
                    cnt <= fl,
                    base + cnt <= n,
                    j <= cnt,
                    cur == base + j,
                    dst@.len() == d0.len(),
                    dst@ == buf_bytes(*mem, fs).take(cur as int) + d0.skip(cur as int),
                decreases cnt - j,
            {
                let ghost dprev = dst@;
                let b = mem.read_byte(f.ppn, f.start + j);
                proof {
                    lemma_buf_index(*mem, fs, i as int, j as int);
                    lemma_buf_len(*mem, fs);
                }
                dst[cur] = b;
                proof {
                    assert(dst@ == dprev.update(cur as int, b));
                    assert(dst@ =~= buf_bytes(*mem, fs).take(cur as int + 1) + d0.skip(
                        cur as int + 1,
                    ));
                }
                cur = cur + 1;
                j = j + 1;
            }
            i = i + 1;
            proof {
                assert(fs.take(i as int) =~= fs.take(i as int - 1).push(f));
                lemma_frags_len_push(fs.take(i as int - 1), f);
            }
        }
        proof {
            if cur < n {
                assert(fs.take(fs.len() as int) =~= fs);
                assert(false);
            }
        }
        n
    }

    /// Gather the whole buffer, appending its bytes to a growable
    /// destination. The `limit` argument is accepted for call-shape
    /// compatibility and not consulted: the entire buffer is appended.
    /// Returns the buffer's byte count.
    pub fn read_as_vec(&self, mem: &PhysMem, vec: &mut Vec<u8>, _limit: usize) -> (r: usize)
        requires
            mem.wf(),
            buf_wf(*mem, self.buffers@),
            frags_len(self.buffers@) <= usize::MAX,
            old(vec)@.len() + frags_len(self.buffers@) <= usize::MAX,
        ensures
            r == frags_len(self.buffers@),
            final(vec)@ == old(vec)@ + buf_bytes(*mem, self.buffers@),
    {
        let ghost fs = self.buffers@;
        let ghost v0 = old(vec)@;
        let total = self.len();
        proof {
            lemma_buf_len(*mem, fs);
            assert(v0 + buf_bytes(*mem, fs).take(0int) =~= v0);
        }
        let mut i: usize = 0;
        let mut cur: usize = 0;
        while i < self.buffers.len()
            invariant
                mem.wf(),
                buf_wf(*mem, fs),
                self.buffers@ == fs,
                total == frags_len(fs),
                total <= usize::MAX,
                v0.len() + total <= usize::MAX,
                i <= fs.len(),
                cur == frags_len(fs.take(i as int)),
                cur <= total,
                vec@ == v0 + buf_bytes(*mem, fs).take(cur as int),
            decreases fs.len() - i,
        {
            let f = self.buffers[i];
            proof {
                lemma_frags_len_split(fs, i as int);
                assert forall|k: int| 0 <= k < fs.skip(i as int).len() implies (#[trigger] fs.skip(
                    i as int,
                )[k]).wf() by {
                    assert(fs.skip(i as int)[k] == fs[k + i]);
                }
                lemma_frags_len_nonneg(fs.skip(i as int));
                assert forall|k: int| 0 <= k < fs.take(i as int).len() implies (#[trigger] fs.take(
                    i as int,
                )[k]).wf() by {
                    assert(fs.take(i as int)[k] == fs[k]);
                }
                lemma_frags_len_nonneg(fs.take(i as int));
                assert(fs.skip(i as int)[0] == fs[i as int]);
                assert forall|k: int|
                    0 <= k < fs.skip(i as int).skip(1).len() implies (#[trigger] fs.skip(
                    i as int,
                ).skip(1)[k]).wf() by {
                    assert(fs.skip(i as int).skip(1)[k] == fs[k + i + 1]);
                }
                lemma_frags_len_nonneg(fs.skip(i as int).skip(1));
            }
            let fl = f.end - f.start;
            let mut j: usize = 0;
            while j < fl
                invariant
                    mem.wf(),
                    buf_wf(*mem, fs),
                    self.buffers@ == fs,
                    i < fs.len(),
                    f == fs[i as int],
                    fl == frag_len(f),
                    total == frags_len(fs),
                    v0.len() + total <= usize::MAX,
                    frags_len(fs.take(i as int)) + fl <= total,
                    cur == frags_len(fs.take(i as int)) + j,
                    j <= fl,
                    vec@ == v0 + buf_bytes(*mem, fs).take(cur as int),
                decreases fl - j,
            {
                let b = mem.read_byte(f.ppn, f.start + j);
                proof {
                    lemma_buf_index(*mem, fs, i as int, j as int);
                    lemma_buf_len(*mem, fs);
                }
                vec.push(b);
                proof {
                    assert(vec@ =~= v0 + buf_bytes(*mem, fs).take(cur as int + 1));
                }
                cur = cur + 1;
                j = j + 1;
            }
            i = i + 1;
            proof {
                assert(fs.take(i as int) =~= fs.take(i as int - 1).push(f));
                lemma_frags_len_push(fs.take(i as int - 1), f);
            }
        }
        proof {
            assert(fs.take(fs.len() as int) =~= fs);
            assert(vec@ =~= v0 + buf_bytes(*mem, fs));
        }
        cur
    }

    /// Hand the buffer over to a byte-location cursor that walks all
    /// fragments in order.
    pub fn into_iter(self) -> (r: UserBufferIterator)
        ensures
            r.buffers@ == self.buffers@,
            r.current_buffer == 0,
            r.current_idx == 0,
    {
        UserBufferIterator { buffers: self.buffers, current_buffer: 0, current_idx: 0 }
    }
}

/// A finite, non-restartable cursor over a buffer's byte locations, fragment
/// by fragment and byte by byte.
pub struct UserBufferIterator {
    pub buffers: Vec<Fragment>,
    pub current_buffer: usize,
    pub current_idx: usize,
}

impl UserBufferIterator {
    pub open spec fn wf(self) -> bool {
        &&& forall|i: int| 0 <= i < self.buffers@.len() ==> (#[trigger] self.buffers@[i]).wf()
        &&& self.current_buffer <= self.buffers@.len()
        &&& self.current_buffer < self.buffers@.len() ==> self.current_idx < frag_len(
            self.buffers@[self.current_buffer as int],
        )
        &&& self.current_buffer >= self.buffers@.len() ==> self.current_idx == 0
    }

    /// How many byte locations the cursor has already produced.
    pub open spec fn pos(self) -> int {
        frags_len(self.buffers@.take(self.current_buffer as int)) + self.current_idx
    }

    /// The next byte location, in order; absence once every fragment is
    /// exhausted.
    pub fn next(&mut self) -> (r: Option<PhysLoc>)
        requires
            old(self).wf(),
        ensures
            final(self).wf(),
            final(self).buffers@ == old(self).buffers@,
            old(self).current_buffer >= old(self).buffers@.len() ==> r is None && *final(self)
                == *old(self),
            old(self).current_buffer < old(self).buffers@.len() ==> {
                let f = old(self).buffers@[old(self).current_buffer as int];
                &&& r == Some(
                    (PhysLoc { ppn: f.ppn, off: (f.start + old(self).current_idx) as usize }),
                )
                &&& final(self).pos() == old(self).pos() + 1
            },
    {
        if self.current_buffer >= self.buffers.len() {
            return None;
        }
        let ghost fs = self.buffers@;
        let ghost cb = self.current_buffer as int;
        let f = self.buffers[self.current_buffer];
        let loc = PhysLoc { ppn: f.ppn, off: f.start + self.current_idx };
        if self.current_idx + 1 == f.end - f.start {
            self.current_idx = 0;
            self.current_buffer = self.current_buffer + 1;
            proof {
                assert(fs.take(cb + 1) =~= fs.take(cb).push(f));
                lemma_frags_len_push(fs.take(cb), f);
            }
        } else {
            self.current_idx = self.current_idx + 1;
        }
        Some(loc)
    }
}

} // verus!

