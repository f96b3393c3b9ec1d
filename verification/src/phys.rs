//! Physical memory modeled as an indexed frame arena: every frame is a
//! bounds-checked, page-number-keyed view, either as 512 table entries or as
//! 4096 data bytes. The arena also plays the frame pool: it hands out fresh
//! zeroed frames and records which page numbers are currently live, so that
//! release discipline (no leak, no double free) is checkable.
use vstd::prelude::*;
use crate::{ENTRY_COUNT, PAGE_SIZE, PPN_MASK};

verus! {

/// One physical frame, viewable as a table (512 entry words) or as data
/// (4096 bytes). A frame serves as one or the other; the two views are kept
/// side by side so that accessors stay bounds-checked and index-keyed.
pub struct Frame {
    pub entries: Vec<u64>,
    pub bytes: Vec<u8>,
}

impl Frame {
    pub open spec fn wf(self) -> bool {
        &&& self.entries.len() == ENTRY_COUNT
        &&& self.bytes.len() == PAGE_SIZE
    }
}

/// A kernel-visible reference into physical memory: a frame's page number
/// plus a byte offset inside it.
#[derive(Clone, Copy, PartialEq, Eq, Structural, Debug)]
pub struct PhysLoc {
    pub ppn: u64,
    pub off: usize,
}

/// The frame arena: frames indexed by physical page number, plus the pool's
/// record of which page numbers are live (allocated and not yet released).
pub struct PhysMem {
    pub frames: Vec<Frame>,
    pub live: Vec<bool>,
}

impl PhysMem {
    pub open spec fn wf(self) -> bool {
        &&& self.frames.len() == self.live.len()
        &&& forall|p: int| 0 <= p < self.frames.len() ==> (#[trigger] self.frames[p]).wf()
    }

    /// Whether `ppn` names a frame that is allocated and not yet released.
    pub open spec fn is_live(self, ppn: u64) -> bool {
        &&& ppn < self.live.len()
        &&& self.live[ppn as int]
    }

    /// The entry word at slot `idx` of table frame `ppn`.
    pub open spec fn entry(self, ppn: u64, idx: int) -> u64 {
        self.frames[ppn as int].entries[idx]
    }

    /// The data byte at offset `off` of frame `ppn`.
    pub open spec fn byte(self, ppn: u64, off: int) -> u8 {
        self.frames[ppn as int].bytes[off]
    }

    /// An empty arena: no frame exists yet.
    pub fn new() -> (r: Self)
        ensures
            r.wf(),
            r.frames@.len() == 0,
    {
        PhysMem { frames: Vec::new(), live: Vec::new() }
    }

    /// How many frames the arena holds (live or released).
    pub fn frame_count(&self) -> (r: usize)
        ensures
            r == self.frames@.len(),
    {
        self.frames.len()
    }

    /// Whether `ppn` is live, as an executable check.
    pub fn check_live(&self, ppn: u64) -> (r: bool)
        requires
            self.wf(),
        ensures
            r == self.is_live(ppn),
    {
        if ppn < self.live.len() as u64 {
            self.live[ppn as usize]
        } else {
            false
        }
    }

    /// Allocate a fresh zeroed frame and mark it live. Fails exactly when the
    /// pool is exhausted, that is when no page number representable in 44 bits
    /// is left.
    pub fn alloc_frame(&mut self) -> (r: Option<u64>)
        requires
            old(self).wf(),
        ensures
            final(self).wf(),
            old(self).frames@.len() as u64 <= PPN_MASK ==> r == Some(
                old(self).frames@.len() as u64,
            ),
            old(self).frames@.len() as u64 > PPN_MASK ==> r.is_none() && *final(self) == *old(
                self,
            ),
            r.is_some() ==> {
                let p = r.unwrap();
                &&& p == old(self).frames@.len() as u64
                &&& p <= PPN_MASK
                &&& final(self).frames@.len() == old(self).frames@.len() + 1
                &&& final(self).live@ == old(self).live@.push(true)
                &&& forall|q: int|
                    0 <= q < old(self).frames@.len() ==> final(self).frames@[q] == old(
                        self,
                    ).frames@[q]
                &&& final(self).is_live(p)
                &&& forall|i: int| 0 <= i < ENTRY_COUNT ==> final(self).entry(p, i) == 0
                &&& forall|o: int| 0 <= o < PAGE_SIZE ==> final(self).byte(p, o) == 0
            },
    {
        if self.frames.len() as u64 > PPN_MASK {
            return None;
        }
        let ppn = self.frames.len() as u64;
        let mut entries: Vec<u64> = Vec::new();
        let mut bytes: Vec<u8> = Vec::new();
        while entries.len() < ENTRY_COUNT
            invariant
                entries@.len() <= ENTRY_COUNT,
                forall|i: int| 0 <= i < entries@.len() ==> entries@[i] == 0,
            decreases ENTRY_COUNT - entries@.len(),
        {
            entries.push(0);
        }
        while bytes.len() < PAGE_SIZE
            invariant
                bytes@.len() <= PAGE_SIZE,
                forall|o: int| 0 <= o < bytes@.len() ==> bytes@[o] == 0,
            decreases PAGE_SIZE - bytes@.len(),
        {
            bytes.push(0);
        }
        self.frames.push(Frame { entries, bytes });
        self.live.push(true);
        Some(ppn)
    }

    /// Release a live frame back to the pool. The frame's contents stay in
    /// the arena (nothing reads them through a live mapping any more), only
    /// its liveness is withdrawn; releasing twice is ruled out.
    pub fn free(&mut self, ppn: u64)
        requires
            old(self).wf(),
            old(self).is_live(ppn),
        ensures
            final(self).wf(),
            final(self).frames@ == old(self).frames@,
            final(self).live@ == old(self).live@.update(ppn as int, false),
    {
        let p = ppn as usize;
        self.live[p] = false;
    }

    /// Read the entry word at slot `idx` of table frame `ppn`.
    pub fn read_entry(&self, ppn: u64, idx: usize) -> (r: u64)
        requires
            self.wf(),
            ppn < self.frames@.len(),
            idx < ENTRY_COUNT,
        ensures
            r == self.entry(ppn, idx as int),
    {
        self.frames[ppn as usize].entries[idx]
    }

    /// Write the entry word at slot `idx` of table frame `ppn`; no other
    /// entry, no data byte and no liveness record changes.
    pub fn write_entry(&mut self, ppn: u64, idx: usize, bits: u64)
        requires
            old(self).wf(),
            ppn < old(self).frames@.len(),
            idx < ENTRY_COUNT,
        ensures
            final(self).wf(),
            final(self).frames@.len() == old(self).frames@.len(),
            final(self).live@ == old(self).live@,
            final(self).entry(ppn, idx as int) == bits,
            forall|p: u64, i: int|
                p < old(self).frames@.len() && 0 <= i < ENTRY_COUNT && !(p == ppn && i
                    == idx as int) ==> final(self).entry(p, i) == #[trigger] old(self).entry(p, i),
            forall|p: u64, o: int|
                p < old(self).frames@.len() && 0 <= o < PAGE_SIZE ==> final(self).byte(p, o)
                    == #[trigger] old(self).byte(p, o),
    {
        self.frames[ppn as usize].entries[idx] = bits;
    }

    /// Read the data byte at offset `off` of frame `ppn`.
    pub fn read_byte(&self, ppn: u64, off: usize) -> (r: u8)
        requires
            self.wf(),
            ppn < self.frames@.len(),
            off < PAGE_SIZE,
        ensures
            r == self.byte(ppn, off as int),
    {
        self.frames[ppn as usize].bytes[off]
    }

    /// Write the data byte at offset `off` of frame `ppn`; no other byte, no
    /// entry word and no liveness record changes.
    pub fn write_byte(&mut self, ppn: u64, off: usize, val: u8)
        requires
            old(self).wf(),
            ppn < old(self).frames@.len(),
            off < PAGE_SIZE,
        ensures
            final(self).wf(),
            final(self).frames@.len() == old(self).frames@.len(),
            final(self).live@ == old(self).live@,
            final(self).byte(ppn, off as int) == val,
            forall|p: u64, o: int|
                p < old(self).frames@.len() && 0 <= o < PAGE_SIZE && !(p == ppn && o
                    == off as int) ==> final(self).byte(p, o) == #[trigger] old(self).byte(p, o),
            forall|p: u64, i: int|
                p < old(self).frames@.len() && 0 <= i < ENTRY_COUNT ==> final(self).entry(p, i)
                    == #[trigger] old(self).entry(p, i),
    {
        self.frames[ppn as usize].bytes[off] = val;
    }
}

} // verus!
