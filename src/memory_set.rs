use crate::config::{PAGE_SIZE, USER_SPACE_END, USER_STACK_SIZE};
use crate::elf::{
    check_elf_header, lemma_fields_nonneg, elf_entry, elf_header_ok, entry_point, ph_count, program_header, program_header_count, seg_file_size,
    seg_flags, seg_is_load, seg_mem_size, seg_offset, seg_vaddr, ProgramSegment,
};
use crate::frame_allocator::{
    agree_on, frame_alloc, frame_is_zero, frame_release, in_frame, FrameAllocator, FrameTracker,
};
use crate::processor::Processor;
use crate::vpn_range::VAddrRange;
use vstd::prelude::*;

verus! {

/// Readable.
pub const PERM_R: u8 = 1 << 1;

/// Writable.
pub const PERM_W: u8 = 1 << 2;

/// Executable.
pub const PERM_X: u8 = 1 << 3;

/// Reachable from user mode.
pub const PERM_U: u8 = 1 << 4;

/// The access rights of a mapped region, a set of the `PERM_*` bits.
#[derive(Clone, Copy, Debug, PartialEq, Eq, Structural)]
pub struct MapPermission {
    pub bits: u8,
}

/// How a region is backed: `Framed` gives each page a frame of its own.
#[derive(Clone, Copy, Debug, PartialEq, Eq, Structural)]
pub enum MapType {
    Framed,
}

/// The frame numbers of a run of handles.
pub open spec fn ppns(v: Seq<FrameTracker>) -> Seq<usize> {
    v.map_values(|f: FrameTracker| f.ppn)
}

/// Largest multiple of the page size at or below `a`.
pub open spec fn floor_page(a: int) -> int {
    a - a % (PAGE_SIZE as int)
}

/// Smallest multiple of the page size at or above `a`.
pub open spec fn ceil_page(a: int) -> int {
    if a % (PAGE_SIZE as int) == 0 {
        a
    } else {
        a - a % (PAGE_SIZE as int) + PAGE_SIZE
    }
}

/// A contiguous range of pages with one permission set, and the frames behind them.
pub struct MapArea {
    pub vaddr_range: VAddrRange,
    pub data_frames: Vec<FrameTracker>,
    pub map_type: MapType,
    pub map_perm: MapPermission,
}

impl MapArea {
    pub open spec fn start(&self) -> int {
        self.vaddr_range.start() as int
    }

    pub open spec fn end(&self) -> int {
        self.vaddr_range.end() as int
    }

    pub open spec fn npages(&self) -> int {
        (self.end() - self.start()) / (PAGE_SIZE as int)
    }

    /// Frame `k` backs the page at `start() + k * PAGE_SIZE`.
    pub open spec fn frames(&self) -> Seq<usize> {
        ppns(self.data_frames@)
    }

    pub open spec fn perm(&self) -> MapPermission {
        self.map_perm
    }

    pub open spec fn range_ok(&self) -> bool {
        &&& self.start() % (PAGE_SIZE as int) == 0
        &&& self.end() % (PAGE_SIZE as int) == 0
        &&& 0 <= self.start() <= self.end() <= USER_SPACE_END
    }

    /// Every page has its frame, and the frames are pairwise distinct.
    pub open spec fn wf(&self) -> bool {
        &&& self.range_ok()
        &&& self.frames().len() == self.npages()
        &&& forall|k: int, l: int|
            0 <= k < l < self.frames().len() ==> #[trigger] self.frames()[k] != #[trigger] self.frames()[l]
    }

    /// The range is set and no page has a frame yet.
    pub open spec fn unmapped(&self) -> bool {
        self.range_ok() && self.frames().len() == 0
    }

    pub open spec fn contains_va(&self, va: int) -> bool {
        self.start() <= va < self.end()
    }

    pub open spec fn frame_of(&self, va: int) -> usize {
        self.frames()[(va - self.start()) / (PAGE_SIZE as int)]
    }

    /// Index in physical memory of the byte at `va`.
    pub open spec fn byte_index(&self, va: int) -> int {
        self.frame_of(va) * PAGE_SIZE + (va - self.start()) % (PAGE_SIZE as int)
    }

    pub open spec fn disjoint_from(&self, other: &MapArea) -> bool {
        self.end() <= other.start() || other.end() <= self.start()
    }

    /// A region over the pages that `[start_va, end_va)` touches, with no frames yet.
    pub fn new(start_va: usize, end_va: usize, map_type: MapType, map_perm: MapPermission) -> (r: Self)
        requires
            start_va <= end_va <= USER_SPACE_END,
        ensures
            r.unmapped(),
            r.start() == floor_page(start_va as int),
            r.end() == ceil_page(end_va as int),
            r.perm() == map_perm,
    {
        let start_vpn: usize = start_va - start_va % PAGE_SIZE;
        let end_vpn: usize = if end_va % PAGE_SIZE == 0 {
            end_va
        } else {
            end_va - end_va % PAGE_SIZE + PAGE_SIZE
        };
        MapArea {
            vaddr_range: VAddrRange::new(start_vpn, end_vpn),
            data_frames: Vec::new(),
            map_type,
            map_perm,
        }
    }

    /// A region with the range and permissions of `another`, with no frames yet.
    pub fn from_another(another: &MapArea) -> (r: Self)
        requires
            another.range_ok(),
        ensures
            r.unmapped(),
            r.start() == another.start(),
            r.end() == another.end(),
            r.perm() == another.perm(),
    {
        MapArea {
            vaddr_range: VAddrRange::new(another.vaddr_range.get_start(), another.vaddr_range.get_end()),
            data_frames: Vec::new(),
            map_type: another.map_type,
            map_perm: another.map_perm,
        }
    }

    pub fn permission(&self) -> (r: MapPermission)
        ensures
            r == self.perm(),
    {
        self.map_perm
    }

    /// Number of the frame behind page `k` of the region.
    pub fn frame_at(&self, k: usize) -> (r: usize)
        requires
            k < self.frames().len(),
        ensures
            r == self.frames()[k as int],
    {
        self.data_frames[k].ppn
    }

    /// Gives every page a fresh, cleaned frame.
    pub fn map(&mut self, fa: &mut FrameAllocator)
        requires
            old(self).unmapped(),
            old(fa).wf(),
            old(fa).free_count() >= old(self).npages(),
        ensures
            final(self).wf(),
            final(self).start() == old(self).start(),
            final(self).end() == old(self).end(),
            final(self).perm() == old(self).perm(),
            final(fa).wf(),
            final(fa).arena() == old(fa).arena(),
            final(fa).free_count() + old(self).npages() == old(fa).free_count(),
            final(fa).allocated() == old(fa).allocated().union(final(self).frames().to_set()),
            forall|k: int|
                0 <= k < final(self).frames().len() ==> !old(fa).allocated().contains(
                    #[trigger] final(self).frames()[k],
                ) && final(fa).arena().contains(final(self).frames()[k])
                    && frame_is_zero(final(fa).mem(), final(self).frames()[k] as int),
            agree_on(old(fa).mem(), final(fa).mem(), old(fa).allocated()),
    {
        let n: usize = (self.vaddr_range.get_end() - self.vaddr_range.get_start()) / PAGE_SIZE;
        let mut i: usize = 0;
        while i < n
            invariant
                n == old(self).npages(),
                i <= n,
                self.vaddr_range == old(self).vaddr_range,
                self.map_perm == old(self).map_perm,
                self.range_ok(),
                self.frames().len() == i,
                forall|k: int, l: int|
                    0 <= k < l < self.frames().len() ==> #[trigger] self.frames()[k] != #[trigger] self.frames()[l],
                fa.wf(),
                fa.arena() == old(fa).arena(),
                fa.free_count() + i == old(fa).free_count(),
                old(fa).free_count() >= n,
                fa.allocated() == old(fa).allocated().union(self.frames().to_set()),
                forall|k: int|
                    0 <= k < self.frames().len() ==> !old(fa).allocated().contains(#[trigger] self.frames()[k])
                        && fa.arena().contains(self.frames()[k])
                        && frame_is_zero(fa.mem(), self.frames()[k] as int),
                agree_on(old(fa).mem(), fa.mem(), old(fa).allocated()),
            decreases n - i,
        {
            let ghost before = fa.mem();
            let ghost alloc_before = fa.allocated();
            let ghost frames_before = self.frames();
            let t = frame_alloc(fa).unwrap();
            let ghost p = t.ppn;
            self.data_frames.push(t);
            proof {
                assert(self.frames() =~= frames_before.push(p));
                assert forall|k: int, l: int|
                    0 <= k < l < self.frames().len() implies #[trigger] self.frames()[k] != #[trigger] self.frames()[l] by {
                    if l == self.frames().len() - 1 {
                        assert(alloc_before.contains(frames_before[k]));
                    }
                }
                assert forall|q: usize| self.frames().contains(q) == (frames_before.contains(q) || q == p) by {
                    if frames_before.contains(q) {
                        let k = choose|k: int| 0 <= k < frames_before.len() && frames_before[k] == q;
                        assert(self.frames()[k] == q);
                    }
                    if self.frames().contains(q) && q != p {
                        let k = choose|k: int| 0 <= k < self.frames().len() && self.frames()[k] == q;
                        assert(frames_before[k] == q);
                    }
                    assert(self.frames()[self.frames().len() - 1] == p);
                }
                assert(self.frames().to_set() =~= frames_before.to_set().insert(p));
                assert forall|k: int|
                    0 <= k < self.frames().len() implies !old(fa).allocated().contains(#[trigger] self.frames()[k])
                        && fa.arena().contains(self.frames()[k])
                        && frame_is_zero(fa.mem(), self.frames()[k] as int) by {
                    if k < frames_before.len() {
                        let q = frames_before[k];
                        assert(alloc_before.contains(q));
                        fa.lemma_wf();
                        assert(fa.arena().contains(q));
                        assert forall|j: int| in_frame(j, q as int) implies #[trigger] fa.mem()[j] == 0u8 by {
                            assert(before[j] == 0u8);
                        }
                    }
                }
                assert forall|q: usize, j: int|
                    #![trigger old(fa).allocated().contains(q), fa.mem()[j]]
                    old(fa).allocated().contains(q) && in_frame(j, q as int) && 0 <= j < old(fa).mem().len()
                        implies old(fa).mem()[j] == fa.mem()[j] by {
                    assert(alloc_before.contains(q));
                    assert(before[j] == old(fa).mem()[j]);
                }
            }
            i = i + 1;
        }
    }

    /// Writes `data` at `start() + off`, byte by byte; the rest of memory stays.
    pub fn copy_data(&self, fa: &mut FrameAllocator, data: &[u8], off: usize)
        requires
            self.wf(),
            old(fa).wf(),
            forall|k: int| 0 <= k < self.frames().len() ==> old(fa).arena().contains(#[trigger] self.frames()[k]),
            off + data@.len() <= self.end() - self.start(),
        ensures
            final(fa).wf(),
            final(fa).same_bookkeeping(old(fa)),
            final(fa).mem().len() == old(fa).mem().len(),
            forall|va: int|
                #![trigger self.byte_index(va)]
                self.contains_va(va) ==> final(fa).mem()[self.byte_index(va)] == (if self.start() + off <= va
                    < self.start() + off + data@.len() {
                    data@[va - self.start() - off]
                } else {
                    old(fa).mem()[self.byte_index(va)]
                }),
            forall|i: int|
                #![trigger final(fa).mem()[i]]
                0 <= i < final(fa).mem().len() && (forall|k: int|
                    0 <= k < self.frames().len() ==> !in_frame(i, #[trigger] self.frames()[k] as int))
                    ==> final(fa).mem()[i] == old(fa).mem()[i],
    {
        proof {
            fa.lemma_same_bookkeeping(fa, fa);
        }
        let mut k: usize = 0;
        while k < data.len()
            invariant
                self.wf(),
                fa.wf(),
                fa.same_bookkeeping(old(fa)),
                fa.mem().len() == old(fa).mem().len(),
                forall|k: int| 0 <= k < self.frames().len() ==> fa.arena().contains(#[trigger] self.frames()[k]),
                fa.arena() == old(fa).arena(),
                off + data@.len() <= self.end() - self.start(),
                k <= data@.len(),
                forall|va: int|
                    #![trigger self.byte_index(va)]
                    self.contains_va(va) ==> fa.mem()[self.byte_index(va)] == (if self.start() + off <= va
                        < self.start() + off + k {
                        data@[va - self.start() - off]
                    } else {
                        old(fa).mem()[self.byte_index(va)]
                    }),
                forall|i: int|
                    #![trigger fa.mem()[i]]
                    0 <= i < fa.mem().len() && (forall|k: int|
                        0 <= k < self.frames().len() ==> !in_frame(i, #[trigger] self.frames()[k] as int))
                        ==> fa.mem()[i] == old(fa).mem()[i],
            decreases data@.len() - k,
        {
            let rel: usize = off + k;
            let pg: usize = rel / PAGE_SIZE;
            let o: usize = rel % PAGE_SIZE;
            let ppn = self.data_frames[pg].ppn;
            let ghost va = self.start() + rel;
            proof {
                assert(self.frames()[pg as int] == ppn);
                assert(fa.arena().contains(ppn));
                fa.lemma_wf();
                assert(self.frame_of(va) == ppn);
                assert(self.byte_index(va) == ppn * PAGE_SIZE + o);
            }
            let ghost before = fa.mem();
            let ghost fa_before = *fa;
            fa.write_byte(ppn * PAGE_SIZE + o, data[k]);
            proof {
                fa.lemma_same_bookkeeping(&fa_before, old(fa));
                assert forall|w: int|
                    #![trigger self.byte_index(w)]
                    self.contains_va(w) implies fa.mem()[self.byte_index(w)] == (if self.start() + off <= w
                        < self.start() + off + k + 1 {
                        data@[w - self.start() - off]
                    } else {
                        old(fa).mem()[self.byte_index(w)]
                    }) by {
                    if w != va {
                        self.lemma_byte_index_injective(w, va);
                    }
                }
                assert forall|i: int|
                    #![trigger fa.mem()[i]]
                    0 <= i < fa.mem().len() && (forall|k: int|
                        0 <= k < self.frames().len() ==> !in_frame(i, #[trigger] self.frames()[k] as int))
                        implies fa.mem()[i] == old(fa).mem()[i] by {
                    if i == ppn * PAGE_SIZE + o {
                        assert(!in_frame(i, self.frames()[pg as int] as int));
                    }
                    assert(before[i] == old(fa).mem()[i]);
                }
            }
            k = k + 1;
        }
    }

    /// Copies each frame of `src` over the frame behind the same page of `self`.
    pub fn copy_frames_from(&self, fa: &mut FrameAllocator, src: &MapArea)
        requires
            self.wf(),
            src.wf(),
            self.start() == src.start(),
            self.end() == src.end(),
            old(fa).wf(),
            forall|k: int| 0 <= k < self.frames().len() ==> old(fa).arena().contains(#[trigger] self.frames()[k]),
            forall|k: int|
                0 <= k < src.frames().len() ==> old(fa).arena().contains(#[trigger] src.frames()[k])
                    && !self.frames().contains(src.frames()[k]),
        ensures
            final(fa).wf(),
            final(fa).same_bookkeeping(old(fa)),
            final(fa).mem().len() == old(fa).mem().len(),
            forall|va: int|
                #![trigger self.byte_index(va)]
                self.contains_va(va) ==> final(fa).mem()[self.byte_index(va)] == old(fa).mem()[src.byte_index(va)],
            forall|q: usize, j: int|
                #![trigger final(fa).mem()[j], self.frames().contains(q)]
                in_frame(j, q as int) && 0 <= j < final(fa).mem().len() && !self.frames().contains(q) ==> final(fa).mem()[j]
                    == old(fa).mem()[j],
    {
        let ghost mem_pushed = fa.mem();
        let ghost fa_pushed = *fa;
        let n: usize = (src.vaddr_range.get_end() - src.vaddr_range.get_start()) / PAGE_SIZE;
        let mut k: usize = 0;
        proof {
            fa.lemma_same_bookkeeping(fa, fa);
        }
        while k < n
            invariant
                self.wf(),
                src.wf(),
                self.start() == src.start(),
                self.end() == src.end(),
                n == src.npages(),
                k <= n,
                fa.wf(),
                fa.same_bookkeeping(&fa_pushed),
                fa.mem().len() == mem_pushed.len(),
                mem_pushed == old(fa).mem(),
                fa_pushed == *old(fa),
                forall|k: int| 0 <= k < self.frames().len() ==> fa_pushed.arena().contains(#[trigger] self.frames()[k]),
                forall|k: int|
                    0 <= k < src.frames().len() ==> fa_pushed.arena().contains(#[trigger] src.frames()[k])
                        && !self.frames().contains(src.frames()[k]),
                forall|va: int|
                    #![trigger self.byte_index(va)]
                    self.contains_va(va) ==> fa.mem()[self.byte_index(va)] == if va < src.start() + k * PAGE_SIZE {
                        mem_pushed[src.byte_index(va)]
                    } else {
                        mem_pushed[self.byte_index(va)]
                    },
                forall|q: usize, j: int|
                    #![trigger fa.mem()[j], self.frames().contains(q)]
                    in_frame(j, q as int) && 0 <= j < fa.mem().len() && !self.frames().contains(q) ==> fa.mem()[j]
                        == mem_pushed[j],
            decreases n - k,
        {
            let sp = src.frame_at(k);
            let dp = self.frame_at(k);
            let ghost mem_k = fa.mem();
            let ghost fa_k = *fa;
            proof {
                fa.lemma_same_bookkeeping(&fa_pushed, &fa_pushed);
                fa.lemma_wf();
                assert(fa.arena().contains(sp));
                assert(fa.arena().contains(dp));
                assert(sp != dp);
            }
            fa.copy_frame(sp, dp);
            proof {
                fa.lemma_same_bookkeeping(&fa_k, &fa_pushed);
                assert forall|va: int|
                    #![trigger self.byte_index(va)]
                    self.contains_va(va) implies fa.mem()[self.byte_index(va)] == if va < src.start() + (k + 1) * PAGE_SIZE {
                        mem_pushed[src.byte_index(va)]
                    } else {
                        mem_pushed[self.byte_index(va)]
                    } by {
                    self.lemma_byte_index(va);
                    src.lemma_byte_index(va);
                    let pg = (va - self.start()) / (PAGE_SIZE as int);
                    let o = (va - self.start()) % (PAGE_SIZE as int);
                    let idx = self.byte_index(va);
                    fa_k.lemma_wf();
                    assert(fa_k.arena().contains(self.frames()[pg]));
                    assert(fa.mem()[idx] == if in_frame(idx, dp as int) {
                        mem_k[idx - dp * PAGE_SIZE + sp * PAGE_SIZE]
                    } else {
                        mem_k[idx]
                    });
                    if pg == k {
                        let sidx = src.byte_index(va);
                        assert(sidx == sp * PAGE_SIZE + o);
                        assert(fa_k.arena().contains(sp));
                        assert(!self.frames().contains(sp));
                        assert(mem_k[sidx] == mem_pushed[sidx]);
                    } else {
                        assert(self.frames()[pg] != self.frames()[k as int]) by {
                            if pg < k {
                            } else {
                            }
                        }
                        assert(!in_frame(idx, dp as int));
                    }
                }
                assert forall|q: usize, j: int|
                    #![trigger fa.mem()[j], self.frames().contains(q)]
                    in_frame(j, q as int) && 0 <= j < fa.mem().len() && !self.frames().contains(q) implies fa.mem()[j]
                        == mem_pushed[j] by {
                    assert(self.frames()[k as int] == dp);
                    assert(q != dp);
                    assert(mem_k[j] == mem_pushed[j]);
                }
            }
            k = k + 1;
        }
        proof {
            fa.lemma_same_bookkeeping(&fa_pushed, &fa_pushed);
            assert forall|va: int|
                #![trigger self.byte_index(va)]
                self.contains_va(va) implies fa.mem()[self.byte_index(va)] == old(fa).mem()[src.byte_index(va)] by {
                self.lemma_byte_index(va);
            }
        }
    }

    /// Where the byte at `va` lies: page `k` of the region, at offset `o` in its frame.
    pub proof fn lemma_byte_index(&self, va: int)
        requires
            self.wf(),
            self.contains_va(va),
        ensures
            ({
                let k = (va - self.start()) / (PAGE_SIZE as int);
                let o = (va - self.start()) % (PAGE_SIZE as int);
                &&& 0 <= k < self.frames().len()
                &&& 0 <= o < PAGE_SIZE
                &&& va - self.start() == k * PAGE_SIZE + o
                &&& self.byte_index(va) == self.frames()[k] * PAGE_SIZE + o
                &&& in_frame(self.byte_index(va), self.frames()[k] as int)
            }),
    {
        let rel = va - self.start();
        vstd::arithmetic::div_mod::lemma_fundamental_div_mod(rel, PAGE_SIZE as int);
        assert(rel < self.npages() * PAGE_SIZE);
    }

    /// Distinct addresses of the region lie at distinct bytes of memory.
    pub proof fn lemma_byte_index_injective(&self, va: int, vb: int)
        requires
            self.wf(),
            self.contains_va(va),
            self.contains_va(vb),
            va != vb,
        ensures
            self.byte_index(va) != self.byte_index(vb),
            in_frame(self.byte_index(va), self.frame_of(va) as int),
            0 <= (va - self.start()) / (PAGE_SIZE as int) < self.frames().len(),
    {
        let ra = va - self.start();
        let rb = vb - self.start();
        assert(0 <= ra / (PAGE_SIZE as int) < self.frames().len()) by {
            assert(ra < self.npages() * PAGE_SIZE);
        }
        assert(0 <= rb / (PAGE_SIZE as int) < self.frames().len()) by {
            assert(rb < self.npages() * PAGE_SIZE);
        }
        if ra / (PAGE_SIZE as int) != rb / (PAGE_SIZE as int) {
            assert(self.frame_of(va) != self.frame_of(vb)) by {
                let k = ra / (PAGE_SIZE as int);
                let l = rb / (PAGE_SIZE as int);
                if k < l {
                    assert(self.frames()[k] != self.frames()[l]);
                } else {
                    assert(self.frames()[l] != self.frames()[k]);
                }
            }
        }
    }
}


/// Index of the region of `areas` that holds `va`, or -1.
pub open spec fn area_index(areas: Seq<MapArea>, va: int) -> int {
    if exists|i: int| 0 <= i < areas.len() && #[trigger] areas[i].contains_va(va) {
        choose|i: int| 0 <= i < areas.len() && #[trigger] areas[i].contains_va(va)
    } else {
        -1
    }
}

/// Some region of `areas` holds frame `p`.
pub open spec fn owns_frame(areas: Seq<MapArea>, p: usize) -> bool {
    exists|i: int, k: int|
        0 <= i < areas.len() && 0 <= k < areas[i].frames().len() && #[trigger] areas[i].frames()[k] == p
}

/// Regions are mapped, pairwise disjoint, and no frame backs two pages or the root.
pub open spec fn areas_wf(areas: Seq<MapArea>, root: usize) -> bool {
    &&& forall|i: int| 0 <= i < areas.len() ==> (#[trigger] areas[i]).wf()
    &&& forall|i: int, j: int| #![trigger areas[i], areas[j]] 0 <= i < j < areas.len() ==> areas[i].disjoint_from(&areas[j])
    &&& forall|i: int, k: int|
        0 <= i < areas.len() && 0 <= k < areas[i].frames().len() ==> #[trigger] areas[i].frames()[k] != root
    &&& forall|i: int, j: int, k: int, l: int|
        0 <= i < j < areas.len() && 0 <= k < areas[i].frames().len() && 0 <= l < areas[j].frames().len()
            ==> #[trigger] areas[i].frames()[k] != #[trigger] areas[j].frames()[l]
}

pub proof fn lemma_area_index(areas: Seq<MapArea>, root: usize, va: int, i: int)
    requires
        areas_wf(areas, root),
        0 <= i < areas.len(),
        areas[i].contains_va(va),
    ensures
        area_index(areas, va) == i,
{
    let j = area_index(areas, va);
    assert(areas[i].contains_va(va));
    if j != i {
        if i < j {
            assert(areas[i].disjoint_from(&areas[j]));
        } else {
            assert(areas[j].disjoint_from(&areas[i]));
        }
    }
}

/// The address space of one process: the root frame of its page table and its
/// mapped regions, which own all the frames behind them.
pub struct MemorySet {
    root: FrameTracker,
    areas: Vec<MapArea>,
}

impl MemorySet {
    pub closed spec fn root(&self) -> usize {
        self.root.ppn
    }

    pub closed spec fn areas(&self) -> Seq<MapArea> {
        self.areas@
    }

    pub open spec fn wf(&self) -> bool {
        areas_wf(self.areas(), self.root())
    }

    /// Every frame that this address space owns, the root included.
    pub open spec fn frame_set(&self) -> Set<usize> {
        Set::new(|p: usize| p == self.root() || owns_frame(self.areas(), p))
    }

    /// No region overlaps `[start, end)`.
    pub open spec fn range_free(&self, start: int, end: int) -> bool {
        forall|i: int| 0 <= i < self.areas().len() ==> #[trigger] self.areas()[i].end() <= start || end <= self.areas()[i].start()
    }

    /// The frame behind `va` and the rights of its region, if `va` is mapped.
    pub open spec fn translate_spec(&self, va: int) -> Option<(usize, MapPermission)> {
        let i = area_index(self.areas(), va);
        if i < 0 {
            None
        } else {
            Some((self.areas()[i].frame_of(va), self.areas()[i].perm()))
        }
    }

    /// The byte that `va` reads in memory `mem`, if `va` is mapped.
    pub open spec fn byte_at(&self, mem: Seq<u8>, va: int) -> Option<u8> {
        let i = area_index(self.areas(), va);
        if i < 0 {
            None
        } else {
            Some(mem[self.areas()[i].byte_index(va)])
        }
    }

    /// All the frames of this address space lie inside `mem`.
    pub open spec fn fits(&self, mem: Seq<u8>) -> bool {
        forall|p: usize| #[trigger] self.frame_set().contains(p) ==> (p + 1) * PAGE_SIZE <= mem.len()
    }

    /// A mapped address lies in a frame of this address space.
    pub proof fn lemma_translate(&self, va: int)
        requires
            self.wf(),
            self.translate_spec(va) is Some,
        ensures
            ({
                let i = area_index(self.areas(), va);
                &&& 0 <= i < self.areas().len()
                &&& self.areas()[i].contains_va(va)
                &&& self.frame_set().contains(self.areas()[i].frame_of(va))
                &&& in_frame(self.areas()[i].byte_index(va), self.areas()[i].frame_of(va) as int)
            }),
    {
        let i = area_index(self.areas(), va);
        let a = self.areas()[i];
        assert(a.wf());
        let k = (va - a.start()) / (PAGE_SIZE as int);
        assert(0 <= k < a.frames().len()) by {
            assert(va - a.start() < a.npages() * PAGE_SIZE);
        }
        assert(owns_frame(self.areas(), a.frames()[k]));
    }

    /// What an address reads depends only on the bytes of this space's own frames.
    pub proof fn lemma_byte_at_agree(&self, m1: Seq<u8>, m2: Seq<u8>)
        requires
            self.wf(),
            self.fits(m1),
            agree_on(m1, m2, self.frame_set()),
        ensures
            forall|va: int| #[trigger] self.byte_at(m2, va) == self.byte_at(m1, va),
    {
        assert forall|va: int| #[trigger] self.byte_at(m2, va) == self.byte_at(m1, va) by {
            if self.translate_spec(va) is Some {
                self.lemma_translate(va);
                let i = area_index(self.areas(), va);
                let f = self.areas()[i].frame_of(va);
                let idx = self.areas()[i].byte_index(va);
                assert(self.frame_set().contains(f));
                assert(m1[idx] == m2[idx]);
            }
        }
    }

    /// A fresh address space: a cleaned root frame and no regions.
    pub fn new_bare(fa: &mut FrameAllocator) -> (r: Self)
        requires
            old(fa).wf(),
            old(fa).free_count() > 0,
        ensures
            r.wf(),
            r.areas().len() == 0,
            r.frame_set() == set![r.root()],
            !old(fa).allocated().contains(r.root()),
            final(fa).wf(),
            final(fa).arena() == old(fa).arena(),
            final(fa).allocated() == old(fa).allocated().insert(r.root()),
            final(fa).free_count() + 1 == old(fa).free_count(),
            agree_on(old(fa).mem(), final(fa).mem(), old(fa).allocated()),
            r.fits(final(fa).mem()),
            forall|va: int| r.translate_spec(va) is None,
    {
        let ghost before = fa.mem();
        let root = frame_alloc(fa).unwrap();
        let r = MemorySet { root, areas: Vec::new() };
        proof {
            fa.lemma_wf();
            assert(r.frame_set() =~= set![r.root()]);
            assert forall|q: usize, j: int|
                #![trigger old(fa).allocated().contains(q), fa.mem()[j]]
                old(fa).allocated().contains(q) && in_frame(j, q as int) && 0 <= j < old(fa).mem().len()
                    implies old(fa).mem()[j] == fa.mem()[j] by {
                assert(before[j] == old(fa).mem()[j]);
            }
        }
        r
    }

    /// Installs this address space's page-table root on the processor.
    pub fn activate(&self, processor: &mut Processor)
        ensures
            final(processor).root_spec() == self.root(),
            final(processor).current_spec() == old(processor).current_spec(),
            final(processor).idle_cx() == old(processor).idle_cx(),
    {
        processor.activate(self.root.ppn);
    }

    /// The page-table root that identifies this address space.
    pub fn token(&self) -> (r: usize)
        ensures
            r == self.root(),
    {
        self.root.ppn
    }

    /// Maps `map_area` with fresh cleaned frames, writes `data` at `off` bytes
    /// into it, and adds it to the regions.
    pub fn push(&mut self, fa: &mut FrameAllocator, map_area: MapArea, data: &[u8], off: usize)
        requires
            old(self).wf(),
            old(fa).wf(),
            old(self).frame_set().subset_of(old(fa).allocated()),
            map_area.unmapped(),
            old(self).range_free(map_area.start(), map_area.end()),
            old(fa).free_count() >= map_area.npages(),
            off + data@.len() <= map_area.end() - map_area.start(),
        ensures
            final(self).wf(),
            final(self).root() == old(self).root(),
            final(self).areas().len() == old(self).areas().len() + 1,
            forall|i: int| 0 <= i < old(self).areas().len() ==> final(self).areas()[i] == old(self).areas()[i],
            ({
                let a = final(self).areas().last();
                &&& a.start() == map_area.start()
                &&& a.end() == map_area.end()
                &&& a.perm() == map_area.perm()
                &&& forall|k: int| 0 <= k < a.frames().len() ==> !old(fa).allocated().contains(#[trigger] a.frames()[k])
                &&& final(fa).allocated() == old(fa).allocated().union(a.frames().to_set())
                &&& final(self).frame_set() == old(self).frame_set().union(a.frames().to_set())
            }),
            final(self).frame_set().subset_of(final(fa).allocated()),
            final(fa).wf(),
            final(fa).arena() == old(fa).arena(),
            final(fa).free_count() + map_area.npages() == old(fa).free_count(),
            agree_on(old(fa).mem(), final(fa).mem(), old(fa).allocated()),
            final(self).fits(final(fa).mem()),
            forall|va: int|
                #![trigger final(self).translate_spec(va)]
                final(self).translate_spec(va) == if map_area.contains_va(va) {
                    Some((final(self).areas().last().frame_of(va), map_area.perm()))
                } else {
                    old(self).translate_spec(va)
                },
            forall|va: int|
                #![trigger final(self).byte_at(final(fa).mem(), va)]
                final(self).byte_at(final(fa).mem(), va) == if map_area.contains_va(va) {
                    if map_area.start() + off <= va < map_area.start() + off + data@.len() {
                        Some(data@[va - map_area.start() - off])
                    } else {
                        Some(0u8)
                    }
                } else {
                    old(self).byte_at(old(fa).mem(), va)
                },
    {
        let mut map_area = map_area;
        let ghost old_alloc = fa.allocated();
        let ghost mem0 = fa.mem();
        map_area.map(fa);
        let ghost mem1 = fa.mem();
        let ghost fa1 = *fa;
        proof {
            fa.lemma_wf();
        }
        map_area.copy_data(fa, data, off);
        let ghost mem2 = fa.mem();
        proof {
            fa.lemma_same_bookkeeping(&fa1, &fa1);
        }
        self.areas.push(map_area);
        proof {
            let a = map_area;
            let old_areas = old(self).areas();
            let areas = self.areas();
            assert(areas =~= old_areas.push(a));
            assert(areas.last() == a);
            // distinct frames
            assert forall|i: int, j: int, k: int, l: int|
                0 <= i < j < areas.len() && 0 <= k < areas[i].frames().len() && 0 <= l < areas[j].frames().len()
                    implies #[trigger] areas[i].frames()[k] != #[trigger] areas[j].frames()[l] by {
                if j == areas.len() - 1 {
                    assert(owns_frame(old_areas, areas[i].frames()[k]));
                    assert(old(self).frame_set().contains(areas[i].frames()[k]));
                }
            }
            assert forall|i: int, k: int|
                0 <= i < areas.len() && 0 <= k < areas[i].frames().len() implies #[trigger] areas[i].frames()[k] != self.root() by {
                assert(old(self).frame_set().contains(self.root()));
            }
            assert forall|i: int, j: int| #![trigger areas[i], areas[j]] 0 <= i < j < areas.len() implies areas[i].disjoint_from(&areas[j]) by {
                if j == areas.len() - 1 {
                    assert(old_areas[i].end() <= a.start() || a.end() <= old_areas[i].start());
                }
            }
            assert(self.wf());
            // frame sets
            assert forall|p: usize| self.frame_set().contains(p) == old(self).frame_set().union(a.frames().to_set()).contains(p) by {
                if owns_frame(areas, p) {
                    let (i, k) = choose|i: int, k: int|
                        0 <= i < areas.len() && 0 <= k < areas[i].frames().len() && #[trigger] areas[i].frames()[k] == p;
                    if i < old_areas.len() {
                        assert(owns_frame(old_areas, p));
                    } else {
                        assert(a.frames().contains(p));
                    }
                }
                if owns_frame(old_areas, p) {
                    let (i, k) = choose|i: int, k: int|
                        0 <= i < old_areas.len() && 0 <= k < old_areas[i].frames().len() && #[trigger] old_areas[i].frames()[k] == p;
                    assert(areas[i].frames()[k] == p);
                }
                if a.frames().contains(p) {
                    let k = choose|k: int| 0 <= k < a.frames().len() && a.frames()[k] == p;
                    assert(areas[areas.len() - 1].frames()[k] == p);
                }
            }
            assert(self.frame_set() =~= old(self).frame_set().union(a.frames().to_set()));
            fa.lemma_wf();
            assert forall|p: usize| #[trigger] self.frame_set().contains(p) implies (p + 1) * PAGE_SIZE <= fa.mem().len() by {
                assert(fa.allocated().contains(p));
                assert(fa.arena().contains(p));
            }
            // memory outside the new frames is unchanged
            assert forall|q: usize, j: int|
                #![trigger old(fa).allocated().contains(q), fa.mem()[j]]
                old(fa).allocated().contains(q) && in_frame(j, q as int) && 0 <= j < old(fa).mem().len()
                    implies old(fa).mem()[j] == fa.mem()[j] by {
                assert(mem0[j] == mem1[j]);
                assert forall|k: int| 0 <= k < a.frames().len() implies !in_frame(j, #[trigger] a.frames()[k] as int) by {
                    assert(a.frames()[k] != q);
                }
            }
            // translation and bytes
            assert forall|va: int|
                #![trigger self.translate_spec(va)]
                self.translate_spec(va) == if a.contains_va(va) {
                    Some((a.frame_of(va), a.perm()))
                } else {
                    old(self).translate_spec(va)
                } by {
                if a.contains_va(va) {
                    lemma_area_index(areas, self.root(), va, areas.len() - 1);
                } else if old(self).translate_spec(va) is Some {
                    let i = area_index(old_areas, va);
                    assert(old_areas[i].contains_va(va));
                    lemma_area_index(areas, self.root(), va, i);
                } else {
                    if area_index(areas, va) >= 0 {
                        let i = area_index(areas, va);
                        assert(areas[i].contains_va(va));
                        assert(old_areas[i].contains_va(va));
                    }
                }
            }
            assert forall|va: int|
                #![trigger self.byte_at(fa.mem(), va)]
                self.byte_at(fa.mem(), va) == if a.contains_va(va) {
                    if a.start() + off <= va < a.start() + off + data@.len() {
                        Some(data@[va - a.start() - off])
                    } else {
                        Some(0u8)
                    }
                } else {
                    old(self).byte_at(old(fa).mem(), va)
                } by {
                assert(self.translate_spec(va) == if a.contains_va(va) {
                    Some((a.frame_of(va), a.perm()))
                } else {
                    old(self).translate_spec(va)
                });
                if a.contains_va(va) {
                    lemma_area_index(areas, self.root(), va, areas.len() - 1);
                    if !(a.start() + off <= va < a.start() + off + data@.len()) {
                        self.lemma_translate(va);
                        let idx = a.byte_index(va);
                        let k = (va - a.start()) / (PAGE_SIZE as int);
                        assert(frame_is_zero(mem1, a.frames()[k] as int));
                        assert(mem1[idx] == 0u8);
                    }
                } else if old(self).translate_spec(va) is Some {
                    let i = area_index(old_areas, va);
                    old(self).lemma_translate(va);
                    lemma_area_index(areas, self.root(), va, i);
                    let idx = old_areas[i].byte_index(va);
                    let f = old_areas[i].frame_of(va);
                    assert(old(fa).allocated().contains(f));
                    assert(old(fa).arena().contains(f));
                    assert(mem0[idx] == mem1[idx]);
                    assert forall|k: int| 0 <= k < a.frames().len() implies !in_frame(idx, #[trigger] a.frames()[k] as int) by {
                        assert(a.frames()[k] != f);
                    }
                    assert(mem2[idx] == mem1[idx]);
                }
            }
        }
    }
}


/// Total number of pages in `areas`.
pub open spec fn pages_of(areas: Seq<MapArea>) -> int
    decreases areas.len(),
{
    if areas.len() == 0 {
        0
    } else {
        pages_of(areas.drop_last()) + areas.last().npages()
    }
}

impl MemorySet {
    /// Number of pages mapped.
    pub open spec fn page_count(&self) -> int {
        pages_of(self.areas())
    }

    /// Index in physical memory of the byte at mapped address `va`.
    pub open spec fn byte_index(&self, va: int) -> int {
        self.areas()[area_index(self.areas(), va)].byte_index(va)
    }

    /// Every frame's bytes have an address that fits a machine word.
    pub open spec fn addressable(&self) -> bool {
        forall|p: usize| #[trigger] self.frame_set().contains(p) ==> (p + 1) * PAGE_SIZE <= usize::MAX
    }

    fn find_area(&self, va: usize) -> (r: Option<usize>)
        requires
            self.wf(),
        ensures
            r is None ==> area_index(self.areas(), va as int) < 0,
            r is Some ==> r->Some_0 == area_index(self.areas(), va as int) && r->Some_0 < self.areas().len()
                && self.areas()[r->Some_0 as int].contains_va(va as int),
    {
        let mut i: usize = 0;
        while i < self.areas.len()
            invariant
                self.wf(),
                i <= self.areas().len(),
                forall|j: int| 0 <= j < i ==> !(#[trigger] self.areas()[j]).contains_va(va as int),
            decreases self.areas().len() - i,
        {
            let a = &self.areas[i];
            if a.vaddr_range.get_start() <= va && va < a.vaddr_range.get_end() {
                proof {
                    lemma_area_index(self.areas(), self.root(), va as int, i as int);
                }
                return Some(i);
            }
            i = i + 1;
        }
        None
    }

    /// The physical address behind `va` and the rights of its region, if `va` is mapped.
    #[verifier::rlimit(50)]
    pub fn translate(&self, va: usize) -> (r: Option<(usize, MapPermission)>)
        requires
            self.wf(),
            self.addressable(),
        ensures
            r is None <==> self.translate_spec(va as int) is None,
            r is Some ==> {
                let (f, perm) = self.translate_spec(va as int)->Some_0;
                &&& r->Some_0.0 == f * PAGE_SIZE + va % PAGE_SIZE
                &&& r->Some_0.0 == self.byte_index(va as int)
                &&& r->Some_0.1 == perm
            },
    {
        match self.find_area(va) {
            None => None,
            Some(i) => {
                let a = &self.areas[i];
                let rel: usize = va - a.vaddr_range.get_start();
                let pg: usize = rel / PAGE_SIZE;
                proof {
                    self.lemma_translate(va as int);
                    assert(self.frame_set().contains(a.frames()[pg as int]));
                    assert((va - a.start()) % (PAGE_SIZE as int) == (va as int) % (PAGE_SIZE as int));
                }
                let ppn = a.frame_at(pg);
                Some((ppn * PAGE_SIZE + va % PAGE_SIZE, a.permission()))
            }
        }
    }

    /// The byte at `va`, if `va` is mapped.
    pub fn read_byte(&self, fa: &FrameAllocator, va: usize) -> (r: Option<u8>)
        requires
            self.wf(),
            fa.wf(),
            self.fits(fa.mem()),
        ensures
            r == self.byte_at(fa.mem(), va as int),
    {
        proof {
            fa.lemma_wf();
        }
        match self.translate(va) {
            None => None,
            Some((pa, _)) => {
                proof {
                    self.lemma_translate(va as int);
                }
                Some(fa.read_byte(pa))
            }
        }
    }

    /// Writes `b` at `va` when `va` is mapped, whatever the rights of its region;
    /// returns whether it did.
    pub fn write_byte(&self, fa: &mut FrameAllocator, va: usize, b: u8) -> (r: bool)
        requires
            self.wf(),
            old(fa).wf(),
            self.fits(old(fa).mem()),
        ensures
            r == (self.translate_spec(va as int) is Some),
            final(fa).wf(),
            final(fa).same_bookkeeping(old(fa)),
            r ==> final(fa).mem() == old(fa).mem().update(self.byte_index(va as int), b),
            r ==> self.byte_at(final(fa).mem(), va as int) == Some(b),
            r ==> in_frame(self.byte_index(va as int), self.translate_spec(va as int)->Some_0.0 as int),
            r ==> self.frame_set().contains(self.translate_spec(va as int)->Some_0.0),
            !r ==> *final(fa) == *old(fa),
    {
        proof {
            fa.lemma_wf();
            fa.lemma_same_bookkeeping(fa, fa);
        }
        match self.translate(va) {
            None => false,
            Some((pa, _)) => {
                proof {
                    self.lemma_translate(va as int);
                }
                fa.write_byte(pa, b);
                true
            }
        }
    }
}

proof fn lemma_pages_of_take(areas: Seq<MapArea>, i: int)
    requires
        0 <= i < areas.len(),
    ensures
        pages_of(areas.take(i + 1)) == pages_of(areas.take(i)) + areas[i].npages(),
{
    assert(areas.take(i + 1).drop_last() =~= areas.take(i));
}

proof fn lemma_pages_of_nonneg(areas: Seq<MapArea>)
    requires
        forall|i: int| 0 <= i < areas.len() ==> (#[trigger] areas[i]).range_ok(),
    ensures
        pages_of(areas) >= 0,
    decreases areas.len(),
{
    if areas.len() > 0 {
        lemma_pages_of_nonneg(areas.drop_last());
        assert(areas.last().range_ok());
    }
}

impl MemorySet {
    /// A copy of `user_space` in fresh frames: the same regions with the same
    /// rights, each page's bytes copied; `user_space` itself is left as it was.
    #[verifier::rlimit(100)]
    pub fn from_existed_user(user_space: &MemorySet, fa: &mut FrameAllocator) -> (r: MemorySet)
        requires
            user_space.wf(),
            old(fa).wf(),
            user_space.frame_set().subset_of(old(fa).allocated()),
            old(fa).free_count() >= user_space.page_count() + 1,
        ensures
            r.wf(),
            final(fa).wf(),
            final(fa).arena() == old(fa).arena(),
            r.frame_set().disjoint(old(fa).allocated()),
            final(fa).allocated() == old(fa).allocated().union(r.frame_set()),
            final(fa).free_count() + user_space.page_count() + 1 == old(fa).free_count(),
            r.page_count() == user_space.page_count(),
            r.areas().len() == user_space.areas().len(),
            forall|j: int|
                0 <= j < r.areas().len() ==> (#[trigger] r.areas()[j]).start() == user_space.areas()[j].start()
                    && r.areas()[j].end() == user_space.areas()[j].end() && r.areas()[j].perm()
                    == user_space.areas()[j].perm() && r.areas()[j].map_type == user_space.areas()[j].map_type,
            r.root() != user_space.root(),
            agree_on(old(fa).mem(), final(fa).mem(), old(fa).allocated()),
            r.fits(final(fa).mem()),
            forall|va: int|
                #![trigger r.translate_spec(va)]
                (r.translate_spec(va) is Some) == (user_space.translate_spec(va) is Some)
                    && (r.translate_spec(va) is Some ==> r.translate_spec(va)->Some_0.1
                    == user_space.translate_spec(va)->Some_0.1),
            forall|va: int| #[trigger] r.byte_at(final(fa).mem(), va) == user_space.byte_at(old(fa).mem(), va),
    {
        let ghost mem0 = fa.mem();
        let ghost alloc0 = fa.allocated();
        let ghost ua = user_space.areas();
        proof {
            lemma_pages_of_nonneg(ua);
            assert(ua.take(0) =~= Seq::<MapArea>::empty());
        }
        let mut memory_set = Self::new_bare(fa);
        let mut i: usize = 0;
        while i < user_space.areas.len()
            invariant
                user_space.wf(),
                ua == user_space.areas(),
                user_space.frame_set().subset_of(alloc0),
                0 <= i <= ua.len(),
                memory_set.wf(),
                memory_set.areas().len() == i,
                forall|j: int|
                    0 <= j < i ==> (#[trigger] memory_set.areas()[j]).start() == ua[j].start()
                        && memory_set.areas()[j].end() == ua[j].end() && memory_set.areas()[j].perm() == ua[j].perm(),
                fa.wf(),
                fa.arena() == old(fa).arena(),
                alloc0 == old(fa).allocated(),
                mem0 == old(fa).mem(),
                memory_set.frame_set().disjoint(alloc0),
                fa.allocated() == alloc0.union(memory_set.frame_set()),
                fa.free_count() + pages_of(ua.take(i as int)) + 1 == old(fa).free_count(),
                old(fa).free_count() >= pages_of(ua) + 1,
                agree_on(mem0, fa.mem(), alloc0),
                memory_set.fits(fa.mem()),
                forall|va: int|
                    #![trigger memory_set.translate_spec(va)]
                    (memory_set.translate_spec(va) is Some) == (0 <= area_index(ua, va) < i)
                        && (memory_set.translate_spec(va) is Some ==> memory_set.translate_spec(va)->Some_0.1
                        == user_space.translate_spec(va)->Some_0.1),
                forall|va: int|
                    #![trigger memory_set.byte_at(fa.mem(), va)]
                    memory_set.translate_spec(va) is Some ==> memory_set.byte_at(fa.mem(), va)
                        == user_space.byte_at(mem0, va),
            decreases ua.len() - i,
        {
            let src = &user_space.areas[i];
            let new_area = MapArea::from_another(src);
            proof {
                assert(ua[i as int].wf());
                lemma_pages_of_take(ua, i as int);
                assert(pages_of(ua.take(i as int + 1)) <= pages_of(ua)) by {
                    lemma_pages_prefix(ua, i as int + 1);
                }
                assert forall|j: int| 0 <= j < memory_set.areas().len() implies #[trigger] memory_set.areas()[j].end() <= new_area.start()
                    || new_area.end() <= memory_set.areas()[j].start() by {
                    assert(ua[j].disjoint_from(&ua[i as int]));
                }
                assert(memory_set.frame_set().subset_of(fa.allocated()));
            }
            let ghost ms_before = memory_set;
            let ghost mem_before = fa.mem();
            let ghost alloc_before = fa.allocated();
            proof {
                assert(alloc0.subset_of(alloc_before));
            }
            memory_set.push(fa, new_area, &[], 0);
            let ghost mem_pushed = fa.mem();
            let last: usize = memory_set.areas.len() - 1;
            proof {
                fa.lemma_same_bookkeeping(fa, fa);
                fa.lemma_wf();
                let dst = memory_set.areas()[last as int];
                assert forall|k: int| 0 <= k < dst.frames().len() implies fa.arena().contains(#[trigger] dst.frames()[k]) by {
                    assert(owns_frame(memory_set.areas(), dst.frames()[k]));
                    assert(memory_set.frame_set().contains(dst.frames()[k]));
                }
                assert forall|k: int| 0 <= k < src.frames().len() implies fa.arena().contains(#[trigger] src.frames()[k])
                    && !dst.frames().contains(src.frames()[k]) by {
                    assert(owns_frame(ua, src.frames()[k]));
                    assert(user_space.frame_set().contains(src.frames()[k]));
                    if dst.frames().contains(src.frames()[k]) {
                        let kk = choose|kk: int| 0 <= kk < dst.frames().len() && dst.frames()[kk] == src.frames()[k];
                        assert(!alloc_before.contains(dst.frames()[kk]));
                    }
                }
            }
            let ghost fa_pushed = *fa;
            memory_set.areas[last].copy_frames_from(fa, src);
            proof {
                let dst = memory_set.areas()[last as int];
                assert forall|va: int|
                    #![trigger dst.byte_index(va)]
                    dst.contains_va(va) implies fa.mem()[dst.byte_index(va)] == mem0[src.byte_index(va)] by {
                    src.lemma_byte_index(va);
                    let sidx = src.byte_index(va);
                    let sp = src.frame_of(va);
                    assert(owns_frame(ua, sp));
                    assert(alloc0.contains(sp));
                    assert(alloc_before.contains(sp));
                    fa_pushed.lemma_wf();
                    assert(mem_pushed[sidx] == mem_before[sidx]);
                    assert(mem_before[sidx] == mem0[sidx]);
                }
            }
            proof {
                let a = memory_set.areas()[last as int];
                fa.lemma_same_bookkeeping(&fa_pushed, &fa_pushed);
                // memory of the old frames is unchanged
                assert forall|q: usize, j: int|
                    #![trigger alloc0.contains(q), fa.mem()[j]]
                    alloc0.contains(q) && in_frame(j, q as int) && 0 <= j < mem0.len() implies mem0[j] == fa.mem()[j] by {
                    assert(alloc_before.contains(q));
                    assert(!a.frames().contains(q)) by {
                        if a.frames().contains(q) {
                            assert(a.frames().to_set().contains(q));
                            assert(memory_set.frame_set().contains(q));
                        }
                    }
                    assert(mem_before[j] == mem0[j]);
                    assert(mem_pushed[j] == mem_before[j]);
                    assert(fa.mem()[j] == mem_pushed[j]);
                }
                assert(memory_set.frame_set().disjoint(alloc0)) by {
                    assert forall|p: usize| a.frames().to_set().contains(p) implies !alloc0.contains(p) by {
                        let kk = choose|kk: int| 0 <= kk < a.frames().len() && a.frames()[kk] == p;
                        assert(!alloc_before.contains(a.frames()[kk]));
                    }
                }
                assert(fa.allocated() =~= alloc0.union(memory_set.frame_set()));
                assert forall|va: int|
                    #![trigger memory_set.translate_spec(va)]
                    (memory_set.translate_spec(va) is Some) == (0 <= area_index(ua, va) < i + 1)
                        && (memory_set.translate_spec(va) is Some ==> memory_set.translate_spec(va)->Some_0.1
                        == user_space.translate_spec(va)->Some_0.1) by {
                    if a.contains_va(va) {
                        lemma_area_index(ua, user_space.root(), va, i as int);
                    } else {
                        if area_index(ua, va) == i {
                            assert(ua[i as int].contains_va(va));
                        }
                    }
                }
                assert forall|va: int|
                    #![trigger memory_set.byte_at(fa.mem(), va)]
                    memory_set.translate_spec(va) is Some implies memory_set.byte_at(fa.mem(), va)
                        == user_space.byte_at(mem0, va) by {
                    if a.contains_va(va) {
                        lemma_area_index(memory_set.areas(), memory_set.root(), va, i as int);
                        lemma_area_index(ua, user_space.root(), va, i as int);
                        assert(fa.mem()[a.byte_index(va)] == mem0[src.byte_index(va)]);
                    } else {
                        let jj = area_index(memory_set.areas(), va);
                        memory_set.lemma_translate(va);
                        assert(jj < i);
                        assert(ms_before.translate_spec(va) is Some);
                        let idx = memory_set.areas()[jj].byte_index(va);
                        let f = memory_set.areas()[jj].frame_of(va);
                        assert(ms_before.byte_at(mem_before, va) == user_space.byte_at(mem0, va));
                        assert(memory_set.byte_at(mem_pushed, va) == ms_before.byte_at(mem_before, va));
                        assert(!a.frames().contains(f)) by {
                            if a.frames().contains(f) {
                                let kk = choose|kk: int| 0 <= kk < a.frames().len() && a.frames()[kk] == f;
                                let pg = (va - memory_set.areas()[jj].start()) / (PAGE_SIZE as int);
                                assert(memory_set.areas()[jj].frames()[pg] == f);
                            }
                        }
                        assert(in_frame(idx, f as int));
                        assert(fa.mem()[idx] == mem_pushed[idx]);
                    }
                }
            }
            i = i + 1;
        }
        proof {
            assert(ua.take(ua.len() as int) =~= ua);
            assert forall|va: int| #[trigger] memory_set.byte_at(fa.mem(), va) == user_space.byte_at(old(fa).mem(), va) by {
                if memory_set.translate_spec(va) is None {
                    if area_index(ua, va) >= 0 {
                        assert(0 <= area_index(ua, va) < ua.len());
                    }
                }
            }
            assert(memory_set.frame_set().contains(memory_set.root()));
            assert(user_space.frame_set().contains(user_space.root()));
            assert(memory_set.page_count() == user_space.page_count()) by {
                lemma_same_pages(memory_set.areas(), ua);
            }
        }
        memory_set
    }
}

proof fn lemma_pages_prefix(areas: Seq<MapArea>, n: int)
    requires
        0 <= n <= areas.len(),
        forall|i: int| 0 <= i < areas.len() ==> (#[trigger] areas[i]).range_ok(),
    ensures
        pages_of(areas.take(n)) <= pages_of(areas),
    decreases areas.len() - n,
{
    if n < areas.len() {
        lemma_pages_prefix(areas, n + 1);
        lemma_pages_of_take(areas, n);
        assert(areas[n].range_ok());
    } else {
        assert(areas.take(n) =~= areas);
    }
}

proof fn lemma_same_pages(a: Seq<MapArea>, b: Seq<MapArea>)
    requires
        a.len() == b.len(),
        forall|j: int| 0 <= j < a.len() ==> (#[trigger] a[j]).start() == b[j].start() && a[j].end() == b[j].end(),
    ensures
        pages_of(a) == pages_of(b),
    decreases a.len(),
{
    if a.len() > 0 {
        lemma_same_pages(a.drop_last(), b.drop_last());
    }
}

/// Gives every frame of `area` back.
fn release_area(fa: &mut FrameAllocator, area: MapArea)
    requires
        area.wf(),
        old(fa).wf(),
        area.frames().to_set().subset_of(old(fa).allocated()),
    ensures
        final(fa).wf(),
        final(fa).arena() == old(fa).arena(),
        final(fa).allocated() == old(fa).allocated().difference(area.frames().to_set()),
        final(fa).free_count() == old(fa).free_count() + area.npages(),
        final(fa).mem() == old(fa).mem(),
{
    let mut frames = area.data_frames;
    let ghost all = ppns(frames@);
    while frames.len() > 0
        invariant
            fa.wf(),
            fa.arena() == old(fa).arena(),
            fa.mem() == old(fa).mem(),
            all == area.frames(),
            area.wf(),
            ppns(frames@) == all.take(frames@.len() as int),
            frames@.len() <= all.len(),
            fa.allocated() == old(fa).allocated().difference(all.skip(frames@.len() as int).to_set()),
            fa.free_count() + frames@.len() == old(fa).free_count() + all.len(),
            all.to_set().subset_of(old(fa).allocated()),
        decreases frames@.len(),
    {
        let ghost n = frames@.len() as int;
        let ghost fb = frames@;
        let f = frames.pop().unwrap();
        proof {
            assert(fb =~= frames@.push(f));
            assert(f.ppn == all[n - 1]) by {
                assert(ppns(fb)[n - 1] == fb[n - 1].ppn);
                assert(all.take(n)[n - 1] == all[n - 1]);
            }
            assert(ppns(frames@) =~= all.take(n - 1));
            assert(all.to_set().contains(all[n - 1]));
            assert(!all.skip(n).to_set().contains(f.ppn)) by {
                if all.skip(n).to_set().contains(f.ppn) {
                    let j = choose|j: int| 0 <= j < all.skip(n).len() && #[trigger] all.skip(n)[j] == f.ppn;
                    assert(all[n + j] == all[n - 1]);
                }
            }
        }
        frame_release(fa, f);
        proof {
            assert(all.skip(n - 1).to_set() =~= all.skip(n).to_set().insert(all[n - 1])) by {
                assert forall|p: usize| #[trigger] all.skip(n - 1).to_set().contains(p) == all.skip(n).to_set().insert(all[n - 1]).contains(p) by {
                    if all.skip(n - 1).contains(p) {
                        let j = choose|j: int| 0 <= j < all.skip(n - 1).len() && #[trigger] all.skip(n - 1)[j] == p;
                        if j > 0 {
                            assert(all.skip(n)[j - 1] == p);
                        }
                    }
                    if all.skip(n).contains(p) {
                        let j = choose|j: int| 0 <= j < all.skip(n).len() && #[trigger] all.skip(n)[j] == p;
                        assert(all.skip(n - 1)[j + 1] == p);
                    }
                    assert(all.skip(n - 1)[0] == all[n - 1]);
                }
            }
            assert(fa.allocated() =~= old(fa).allocated().difference(all.skip(n - 1).to_set()));
        }
    }
    proof {
        assert(all.skip(0) =~= all);
    }
}

impl MemorySet {
    /// Gives back the frames of every region and forgets the regions; the root stays.
    pub fn recycle_data_pages(&mut self, fa: &mut FrameAllocator)
        requires
            old(self).wf(),
            old(fa).wf(),
            old(self).frame_set().subset_of(old(fa).allocated()),
        ensures
            final(self).wf(),
            final(self).root() == old(self).root(),
            final(self).areas().len() == 0,
            final(self).frame_set() == set![old(self).root()],
            final(fa).wf(),
            final(fa).arena() == old(fa).arena(),
            final(fa).allocated() == old(fa).allocated().difference(old(self).frame_set().remove(old(self).root())),
            final(fa).free_count() == old(fa).free_count() + old(self).page_count(),
            final(fa).mem() == old(fa).mem(),
            forall|va: int| final(self).translate_spec(va) is None,
    {
        while self.areas.len() > 0
            invariant
                self.wf(),
                self.root() == old(self).root(),
                fa.wf(),
                fa.arena() == old(fa).arena(),
                fa.mem() == old(fa).mem(),
                self.frame_set().subset_of(old(self).frame_set()),
                self.frame_set().subset_of(fa.allocated()),
                fa.allocated() == old(fa).allocated().difference(old(self).frame_set().difference(self.frame_set())),
                fa.free_count() + self.page_count() == old(fa).free_count() + old(self).page_count(),
                old(self).frame_set().subset_of(old(fa).allocated()),
            decreases self.areas().len(),
        {
            let ghost before = *self;
            let area = self.areas.pop().unwrap();
            proof {
                let bs = before.areas();
                assert(self.areas() =~= bs.drop_last());
                assert(area == bs.last());
                assert(area.wf());
                assert(self.wf());
                assert forall|p: usize| area.frames().to_set().contains(p) implies fa.allocated().contains(p) by {
                    let k = choose|k: int| 0 <= k < area.frames().len() && area.frames()[k] == p;
                    assert(owns_frame(bs, area.frames()[k]));
                    assert(before.frame_set().contains(p));
                }
                // the frame set loses exactly the frames of `area`
                assert forall|p: usize| #[trigger] self.frame_set().contains(p) == (before.frame_set().contains(p) && !area.frames().to_set().contains(p)) by {
                    if owns_frame(self.areas(), p) {
                        let (i, k) = choose|i: int, k: int| 0 <= i < self.areas().len() && 0 <= k < self.areas()[i].frames().len() && #[trigger] self.areas()[i].frames()[k] == p;
                        assert(bs[i].frames()[k] == p);
                        assert(owns_frame(bs, p));
                        if area.frames().to_set().contains(p) {
                            let l = choose|l: int| 0 <= l < area.frames().len() && area.frames()[l] == p;
                            assert(bs[bs.len() - 1].frames()[l] == p);
                        }
                    }
                    if p == self.root() && area.frames().to_set().contains(p) {
                        let l = choose|l: int| 0 <= l < area.frames().len() && area.frames()[l] == p;
                        assert(bs[bs.len() - 1].frames()[l] == p);
                    }
                    if owns_frame(bs, p) && !area.frames().to_set().contains(p) && p != self.root() {
                        let (i, k) = choose|i: int, k: int| 0 <= i < bs.len() && 0 <= k < bs[i].frames().len() && #[trigger] bs[i].frames()[k] == p;
                        if i == bs.len() - 1 {
                            assert(area.frames().contains(p));
                        }
                        assert(self.areas()[i].frames()[k] == p);
                    }
                }
                assert(pages_of(bs) == pages_of(self.areas()) + area.npages());
            }
            release_area(fa, area);
            proof {
                assert(fa.allocated() =~= old(fa).allocated().difference(old(self).frame_set().difference(self.frame_set())));
            }
        }
        proof {
            assert(self.frame_set() =~= set![old(self).root()]);
            assert(old(self).frame_set().difference(self.frame_set()) =~= old(self).frame_set().remove(old(self).root()));
            assert(self.areas() =~= Seq::<MapArea>::empty());
        }
    }

    /// Ends this address space: every frame, the root included, goes back.
    pub fn release(self, fa: &mut FrameAllocator)
        requires
            self.wf(),
            old(fa).wf(),
            self.frame_set().subset_of(old(fa).allocated()),
        ensures
            final(fa).wf(),
            final(fa).arena() == old(fa).arena(),
            final(fa).allocated() == old(fa).allocated().difference(self.frame_set()),
            final(fa).free_count() == old(fa).free_count() + self.page_count() + 1,
            final(fa).mem() == old(fa).mem(),
    {
        let mut ms = self;
        ms.recycle_data_pages(fa);
        let MemorySet { root, areas: _ } = ms;
        proof {
            assert(self.frame_set().contains(root.ppn));
        }
        frame_release(fa, root);
        proof {
            assert(fa.allocated() =~= old(fa).allocated().difference(self.frame_set()));
        }
    }
}

/// The rights of a loaded segment: user-accessible, plus read, write and
/// execute as its `p_flags` (PF_R = 4, PF_W = 2, PF_X = 1) give them.
pub open spec fn perm_of_flags(flags: u32) -> MapPermission {
    MapPermission {
        bits: PERM_U | (if flags & 4 == 4 { PERM_R } else { 0 }) | (if flags & 2 == 2 { PERM_W } else { 0 }) | (if flags
            & 1 == 1 {
            PERM_X
        } else {
            0
        }),
    }
}

pub fn perm_from_flags(flags: u32) -> (r: MapPermission)
    ensures
        r == perm_of_flags(flags),
{
    let mut bits: u8 = PERM_U;
    if flags & 4 == 4 {
        bits = bits | PERM_R;
    } else {
        bits = bits | 0;
    }
    if flags & 2 == 2 {
        bits = bits | PERM_W;
    } else {
        bits = bits | 0;
    }
    if flags & 1 == 1 {
        bits = bits | PERM_X;
    } else {
        bits = bits | 0;
    }
    MapPermission { bits }
}

/// First page of segment `i`.
pub open spec fn seg_start(s: Seq<u8>, i: int) -> int {
    floor_page(seg_vaddr(s, i))
}

/// End of the last page of segment `i`.
pub open spec fn seg_end(s: Seq<u8>, i: int) -> int {
    ceil_page(seg_vaddr(s, i) + seg_mem_size(s, i))
}

pub open spec fn seg_perm(s: Seq<u8>, i: int) -> MapPermission {
    perm_of_flags(seg_flags(s, i) as u32)
}

/// What address `va` of segment `i` holds once loaded: its file bytes, then zeros.
pub open spec fn seg_byte(s: Seq<u8>, i: int, va: int) -> u8 {
    if seg_vaddr(s, i) <= va < seg_vaddr(s, i) + seg_file_size(s, i) {
        s[seg_offset(s, i) + va - seg_vaddr(s, i)]
    } else {
        0
    }
}

/// Highest page end among the loadable segments of the first `n` headers, or 0.
pub open spec fn max_end(s: Seq<u8>, n: int) -> int
    decreases n,
{
    if n <= 0 {
        0
    } else if seg_is_load(s, n - 1) && seg_end(s, n - 1) > max_end(s, n - 1) {
        seg_end(s, n - 1)
    } else {
        max_end(s, n - 1)
    }
}

/// Pages taken by the loadable segments of the first `n` headers.
pub open spec fn load_pages(s: Seq<u8>, n: int) -> int
    decreases n,
{
    if n <= 0 {
        0
    } else if seg_is_load(s, n - 1) {
        load_pages(s, n - 1) + (seg_end(s, n - 1) - seg_start(s, n - 1)) / (PAGE_SIZE as int)
    } else {
        load_pages(s, n - 1)
    }
}

/// Bottom of the user stack: one guard page above the highest segment.
pub open spec fn stack_bottom(s: Seq<u8>) -> int {
    max_end(s, ph_count(s)) + PAGE_SIZE
}

pub open spec fn stack_top(s: Seq<u8>) -> int {
    stack_bottom(s) + USER_STACK_SIZE
}

/// Pages of a user stack.
pub open spec fn stack_pages() -> int {
    USER_STACK_SIZE as int / PAGE_SIZE as int
}

/// An image that the loader maps as it stands: readable headers in
/// little-endian order, loadable segments whose file bytes lie in the image and
/// fit their memory size, all inside user space, on pairwise distinct pages,
/// with room for the stack and an entry address in user space.
pub open spec fn elf_loadable(s: Seq<u8>) -> bool {
    &&& elf_header_ok(s)
    &&& s[5] == 1u8
    &&& elf_entry(s) < USER_SPACE_END
    &&& forall|i: int|
        0 <= i < ph_count(s) && #[trigger] seg_is_load(s, i) ==> seg_offset(s, i) + seg_file_size(s, i) <= s.len()
            && seg_file_size(s, i) <= seg_mem_size(s, i) && seg_vaddr(s, i) + seg_mem_size(s, i) <= USER_SPACE_END
    &&& forall|i: int, j: int|
        #![trigger seg_is_load(s, i), seg_is_load(s, j)]
        0 <= i < j < ph_count(s) && seg_is_load(s, i) && seg_is_load(s, j) ==> seg_end(s, i) <= seg_start(s, j)
            || seg_end(s, j) <= seg_start(s, i)
    &&& stack_top(s) <= USER_SPACE_END
}

proof fn lemma_max_end(s: Seq<u8>, n: int, j: int)
    requires
        0 <= j < n,
        seg_is_load(s, j),
    ensures
        seg_end(s, j) <= max_end(s, n),
    decreases n,
{
    if j < n - 1 {
        lemma_max_end(s, n - 1, j);
    }
}

proof fn lemma_max_end_mono(s: Seq<u8>, m: int, n: int)
    requires
        0 <= m <= n,
    ensures
        max_end(s, m) <= max_end(s, n),
    decreases n,
{
    if m < n {
        lemma_max_end_mono(s, m, n - 1);
    }
}

proof fn lemma_load_pages_mono(s: Seq<u8>, m: int, n: int)
    requires
        0 <= m <= n,
    ensures
        load_pages(s, m) <= load_pages(s, n),
    decreases n,
{
    if m < n {
        lemma_load_pages_mono(s, m, n - 1);
        lemma_fields_nonneg(s, n - 1);
    }
}

/// Indices of the loadable headers among the first `n`, in header order.
pub open spec fn load_headers(s: Seq<u8>, n: int) -> Seq<int>
    decreases n,
{
    if n <= 0 {
        Seq::empty()
    } else if seg_is_load(s, n - 1) {
        load_headers(s, n - 1).push(n - 1)
    } else {
        load_headers(s, n - 1)
    }
}

/// `ms` maps exactly the loadable segments among the first `n` headers of
/// image `s`, region `k` being that of segment `src_of[k]`, with their bytes in `mem`.
pub open spec fn loaded_upto(ms: MemorySet, mem: Seq<u8>, s: Seq<u8>, n: int, src_of: Seq<int>) -> bool {
    &&& src_of.len() == ms.areas().len()
    &&& forall|k: int|
        #![trigger src_of[k]]
        0 <= k < src_of.len() ==> 0 <= src_of[k] < n && seg_is_load(s, src_of[k]) && ms.areas()[k].start() == seg_start(
            s,
            src_of[k],
        ) && ms.areas()[k].end() == seg_end(s, src_of[k]) && ms.areas()[k].perm() == seg_perm(s, src_of[k])
    &&& forall|j: int, va: int|
        #![trigger seg_is_load(s, j), ms.translate_spec(va)]
        0 <= j < n && seg_is_load(s, j) && seg_start(s, j) <= va < seg_end(s, j) ==> ms.translate_spec(va) is Some
            && ms.translate_spec(va)->Some_0.1 == seg_perm(s, j) && ms.byte_at(mem, va) == Some(seg_byte(s, j, va))
    &&& forall|va: int|
        #![trigger ms.translate_spec(va)]
        ms.translate_spec(va) is Some ==> exists|j: int|
            0 <= j < n && #[trigger] seg_is_load(s, j) && seg_start(s, j) <= va < seg_end(s, j)
}

proof fn lemma_loaded_skip(ms: MemorySet, mem: Seq<u8>, s: Seq<u8>, n: int, src_of: Seq<int>)
    requires
        loaded_upto(ms, mem, s, n, src_of),
        !seg_is_load(s, n),
    ensures
        loaded_upto(ms, mem, s, n + 1, src_of),
{
    assert forall|k: int|
        #![trigger src_of[k]]
        0 <= k < src_of.len() implies 0 <= src_of[k] < n + 1 && seg_is_load(s, src_of[k]) && ms.areas()[k].start()
            == seg_start(s, src_of[k]) && ms.areas()[k].end() == seg_end(s, src_of[k]) by {
        assert(0 <= src_of[k] < n);
    }
    assert forall|j: int, va: int|
        #![trigger seg_is_load(s, j), ms.translate_spec(va)]
        0 <= j < n + 1 && seg_is_load(s, j) && seg_start(s, j) <= va < seg_end(s, j) implies ms.translate_spec(va) is Some
            && ms.translate_spec(va)->Some_0.1 == seg_perm(s, j) && ms.byte_at(mem, va) == Some(seg_byte(s, j, va)) by {
        assert(j != n);
    }
    assert forall|va: int|
        #![trigger ms.translate_spec(va)]
        ms.translate_spec(va) is Some implies exists|j: int|
            0 <= j < n + 1 && #[trigger] seg_is_load(s, j) && seg_start(s, j) <= va < seg_end(s, j) by {
        let j = choose|j: int| 0 <= j < n && #[trigger] seg_is_load(s, j) && seg_start(s, j) <= va < seg_end(s, j);
        assert(seg_is_load(s, j));
    }
}

impl MemorySet {
    /// Maps loadable segment `i` of `elf_data` and copies its file bytes in.
    #[verifier::rlimit(100)]
    fn map_segment(&mut self, fa: &mut FrameAllocator, elf_data: &Vec<u8>, i: u16, ph: &ProgramSegment, src_of: Ghost<Seq<int>>)
        requires
            elf_loadable(elf_data@),
            0 <= i < ph_count(elf_data@),
            seg_is_load(elf_data@, i as int),
            ph.offset as int == seg_offset(elf_data@, i as int),
            ph.vaddr as int == seg_vaddr(elf_data@, i as int),
            ph.file_size as int == seg_file_size(elf_data@, i as int),
            ph.mem_size as int == seg_mem_size(elf_data@, i as int),
            ph.flags as int == seg_flags(elf_data@, i as int),
            old(self).wf(),
            old(fa).wf(),
            old(self).frame_set().subset_of(old(fa).allocated()),
            old(fa).free_count() >= (seg_end(elf_data@, i as int) - seg_start(elf_data@, i as int)) / (PAGE_SIZE as int),
            loaded_upto(*old(self), old(fa).mem(), elf_data@, i as int, src_of@),
        ensures
            final(self).wf(),
            final(self).root() == old(self).root(),
            final(fa).wf(),
            final(fa).arena() == old(fa).arena(),
            (final(self).frame_set().difference(old(self).frame_set())).disjoint(old(fa).allocated()),
            old(self).frame_set().subset_of(final(self).frame_set()),
            final(fa).allocated() == old(fa).allocated().union(final(self).frame_set()),
            final(fa).free_count() + (seg_end(elf_data@, i as int) - seg_start(elf_data@, i as int)) / (PAGE_SIZE as int)
                == old(fa).free_count(),
            agree_on(old(fa).mem(), final(fa).mem(), old(fa).allocated()),
            final(self).fits(final(fa).mem()),
            final(self).areas().last().end() == seg_end(elf_data@, i as int),
            loaded_upto(*final(self), final(fa).mem(), elf_data@, i as int + 1, src_of@.push(i as int)),
    {
        let ghost s = elf_data@;
        let ghost ii = i as int;
        let start_va: usize = ph.vaddr as usize;
        let end_va: usize = (ph.vaddr + ph.mem_size) as usize;
        let map_perm = perm_from_flags(ph.flags);
        let map_area = MapArea::new(start_va, end_va, MapType::Framed, map_perm);
        let len = elf_data.len();
        proof {
            assert(seg_offset(s, ii) + seg_file_size(s, ii) <= s.len());
            lemma_fields_nonneg(s, ii);
        }
        let lo: usize = ph.offset as usize;
        let hi: usize = lo + ph.file_size as usize;
        let data = vstd::slice::slice_subrange(elf_data.as_slice(), lo, hi);
        let off: usize = start_va % PAGE_SIZE;
        proof {
            assert(self.range_free(map_area.start(), map_area.end())) by {
                assert forall|k: int| 0 <= k < self.areas().len() implies #[trigger] self.areas()[k].end()
                    <= map_area.start() || map_area.end() <= self.areas()[k].start() by {
                    let j = src_of@[k];
                    assert(old(self).areas()[k] == self.areas()[k]);
                    assert(seg_is_load(s, j));
                }
            }
            assert(data@.len() == seg_file_size(s, ii));
        }
        let ghost ms_before = *self;
        let ghost mem_before = fa.mem();
        self.push(fa, map_area, data, off);
        proof {
            let src2 = src_of@.push(ii);
            assert forall|k: int|
                #![trigger src2[k]]
                0 <= k < src2.len() implies 0 <= src2[k] < ii + 1 && seg_is_load(s, src2[k])
                    && self.areas()[k].start() == seg_start(s, src2[k]) && self.areas()[k].end()
                    == seg_end(s, src2[k]) && self.areas()[k].perm() == seg_perm(s, src2[k]) by {
                if k < src2.len() - 1 {
                    assert(self.areas()[k] == ms_before.areas()[k]);
                }
            }
            assert forall|j: int, va: int|
                #![trigger seg_is_load(s, j), self.translate_spec(va)]
                0 <= j < ii + 1 && seg_is_load(s, j) && seg_start(s, j) <= va < seg_end(s, j)
                    implies self.translate_spec(va) is Some && self.translate_spec(va)->Some_0.1 == seg_perm(s, j)
                    && self.byte_at(fa.mem(), va) == Some(seg_byte(s, j, va)) by {
                assert(self.byte_at(fa.mem(), va) == if map_area.contains_va(va) {
                    if map_area.start() + off <= va < map_area.start() + off + data@.len() {
                        Some(data@[va - map_area.start() - off])
                    } else {
                        Some(0u8)
                    }
                } else {
                    ms_before.byte_at(mem_before, va)
                });
                if j < ii {
                    assert(seg_is_load(s, j));
                    assert(!map_area.contains_va(va));
                    assert(ms_before.translate_spec(va) is Some);
                }
            }
            assert forall|va: int|
                #![trigger self.translate_spec(va)]
                self.translate_spec(va) is Some implies exists|j: int|
                    0 <= j < ii + 1 && #[trigger] seg_is_load(s, j) && seg_start(s, j) <= va < seg_end(s, j) by {
                if map_area.contains_va(va) {
                    assert(seg_is_load(s, ii));
                } else {
                    assert(ms_before.translate_spec(va) is Some);
                    let j = choose|j: int| 0 <= j < ii && #[trigger] seg_is_load(s, j) && seg_start(s, j) <= va < seg_end(s, j);
                    assert(seg_is_load(s, j));
                }
            }
            assert(fa.allocated() =~= old(fa).allocated().union(self.frame_set()));
            assert((self.frame_set().difference(old(self).frame_set())).disjoint(old(fa).allocated())) by {
                let a = self.areas().last();
                assert forall|p: usize| self.frame_set().difference(old(self).frame_set()).contains(p) implies !old(fa).allocated().contains(p) by {
                    assert(a.frames().to_set().contains(p));
                    let k = choose|k: int| 0 <= k < a.frames().len() && a.frames()[k] == p;
                }
            }
        }
    }

    /// Maps the user stack `[bottom, bottom + USER_STACK_SIZE)`, cleaned.
    fn map_user_stack(&mut self, fa: &mut FrameAllocator, bottom: usize)
        requires
            old(self).wf(),
            old(fa).wf(),
            old(self).frame_set().subset_of(old(fa).allocated()),
            bottom % PAGE_SIZE == 0,
            bottom + USER_STACK_SIZE <= USER_SPACE_END,
            old(self).range_free(bottom as int, bottom + USER_STACK_SIZE),
            old(fa).free_count() >= stack_pages(),
        ensures
            final(self).wf(),
            final(fa).wf(),
            final(fa).arena() == old(fa).arena(),
            (final(self).frame_set().difference(old(self).frame_set())).disjoint(old(fa).allocated()),
            old(self).frame_set().subset_of(final(self).frame_set()),
            final(fa).allocated() == old(fa).allocated().union(final(self).frame_set()),
            final(fa).free_count() + stack_pages() == old(fa).free_count(),
            agree_on(old(fa).mem(), final(fa).mem(), old(fa).allocated()),
            final(self).fits(final(fa).mem()),
            final(self).areas().len() == old(self).areas().len() + 1,
            forall|i: int| 0 <= i < old(self).areas().len() ==> final(self).areas()[i] == old(self).areas()[i],
            final(self).areas().last().start() == bottom,
            final(self).areas().last().end() == bottom + USER_STACK_SIZE,
            final(self).areas().last().perm() == (MapPermission { bits: PERM_R | PERM_W | PERM_U }),
            forall|va: int|
                #![trigger final(self).translate_spec(va)]
                final(self).translate_spec(va) == if bottom <= va < bottom + USER_STACK_SIZE {
                    final(self).translate_spec(va)
                } else {
                    old(self).translate_spec(va)
                },
            forall|va: int|
                #![trigger final(self).translate_spec(va)]
                bottom <= va < bottom + USER_STACK_SIZE ==> final(self).translate_spec(va) is Some
                    && final(self).translate_spec(va)->Some_0.1 == (MapPermission { bits: PERM_R | PERM_W | PERM_U })
                    && final(self).byte_at(final(fa).mem(), va) == Some(0u8),
            forall|va: int|
                #![trigger final(self).byte_at(final(fa).mem(), va)]
                !(bottom <= va < bottom + USER_STACK_SIZE) ==> final(self).byte_at(final(fa).mem(), va)
                    == old(self).byte_at(old(fa).mem(), va),
    {
        let stack_area = MapArea::new(
            bottom,
            bottom + USER_STACK_SIZE,
            MapType::Framed,
            MapPermission { bits: PERM_R | PERM_W | PERM_U },
        );
        self.push(fa, stack_area, &[], 0);
        proof {
            assert(fa.allocated() =~= old(fa).allocated().union(self.frame_set()));
            assert((self.frame_set().difference(old(self).frame_set())).disjoint(old(fa).allocated())) by {
                let a = self.areas().last();
                assert forall|p: usize| self.frame_set().difference(old(self).frame_set()).contains(p) implies !old(fa).allocated().contains(p) by {
                    assert(a.frames().to_set().contains(p));
                    let k = choose|k: int| 0 <= k < a.frames().len() && a.frames()[k] == p;
                }
            }
        }
    }

    /// Builds the address space of a program from its ELF image: one region per
    /// loadable segment, with its file bytes copied in and zeros after them,
    /// then a user stack above the highest segment with one guard page between.
    /// Returns the space, the top of the stack and the entry address.
    pub fn from_elf(fa: &mut FrameAllocator, elf_data: &Vec<u8>) -> (r: (MemorySet, usize, usize))
        requires
            old(fa).wf(),
            elf_loadable(elf_data@),
            old(fa).free_count() >= load_pages(elf_data@, ph_count(elf_data@)) + stack_pages() + 1,
        ensures
            r.0.wf(),
            r.1 == stack_top(elf_data@),
            r.1 % PAGE_SIZE == 0,
            r.2 == elf_entry(elf_data@),
            final(fa).wf(),
            final(fa).arena() == old(fa).arena(),
            r.0.frame_set().disjoint(old(fa).allocated()),
            final(fa).allocated() == old(fa).allocated().union(r.0.frame_set()),
            final(fa).free_count() + load_pages(elf_data@, ph_count(elf_data@)) + stack_pages() + 1
                == old(fa).free_count(),
            agree_on(old(fa).mem(), final(fa).mem(), old(fa).allocated()),
            r.0.fits(final(fa).mem()),
            ({
                let lh = load_headers(elf_data@, ph_count(elf_data@));
                let areas = r.0.areas();
                &&& areas.len() == lh.len() + 1
                &&& forall|k: int|
                    0 <= k < lh.len() ==> (#[trigger] areas[k]).start() == seg_start(elf_data@, lh[k]) && areas[k].end()
                        == seg_end(elf_data@, lh[k]) && areas[k].perm() == seg_perm(elf_data@, lh[k])
                &&& areas.last().start() == stack_bottom(elf_data@)
                &&& areas.last().end() == stack_top(elf_data@)
                &&& areas.last().perm() == (MapPermission { bits: PERM_R | PERM_W | PERM_U })
            }),
            forall|i: int, va: int|
                #![trigger seg_is_load(elf_data@, i), r.0.translate_spec(va)]
                0 <= i < ph_count(elf_data@) && seg_is_load(elf_data@, i) && seg_start(elf_data@, i) <= va < seg_end(
                    elf_data@,
                    i,
                ) ==> r.0.translate_spec(va) is Some && r.0.translate_spec(va)->Some_0.1 == seg_perm(elf_data@, i)
                    && r.0.byte_at(final(fa).mem(), va) == Some(seg_byte(elf_data@, i, va)),
            forall|va: int|
                #![trigger r.0.translate_spec(va)]
                stack_bottom(elf_data@) <= va < stack_top(elf_data@) ==> r.0.translate_spec(va) is Some
                    && r.0.translate_spec(va)->Some_0.1 == (MapPermission { bits: PERM_R | PERM_W | PERM_U })
                    && r.0.byte_at(final(fa).mem(), va) == Some(0u8),
            forall|va: int|
                #![trigger r.0.translate_spec(va)]
                r.0.translate_spec(va) is Some ==> (stack_bottom(elf_data@) <= va < stack_top(elf_data@)) || exists|i: int|
                    0 <= i < ph_count(elf_data@) && #[trigger] seg_is_load(elf_data@, i) && seg_start(elf_data@, i) <= va
                        < seg_end(elf_data@, i),
    {
        let ghost s = elf_data@;
        let ghost alloc0 = fa.allocated();
        let ghost mem0 = fa.mem();
        proof {
            lemma_fields_nonneg(s, 0);
            lemma_load_pages_mono(s, 0, ph_count(s));
        }
        let mut memory_set = Self::new_bare(fa);
        let ph_num = program_header_count(elf_data);
        let mut max_end_va: usize = 0;
        let ghost mut src_of: Seq<int> = Seq::empty();
        let mut i: u16 = 0;
        proof {
            assert(memory_set.frame_set().disjoint(alloc0));
        }
        while i < ph_num
            invariant
                s == elf_data@,
                elf_loadable(s),
                ph_num as int == ph_count(s),
                0 <= i <= ph_num,
                max_end_va as int == max_end(s, i as int),
                memory_set.wf(),
                fa.wf(),
                fa.arena() == old(fa).arena(),
                alloc0 == old(fa).allocated(),
                mem0 == old(fa).mem(),
                memory_set.frame_set().disjoint(alloc0),
                fa.allocated() == alloc0.union(memory_set.frame_set()),
                fa.free_count() + load_pages(s, i as int) + 1 == old(fa).free_count(),
                old(fa).free_count() >= load_pages(s, ph_count(s)) + stack_pages() + 1,
                agree_on(mem0, fa.mem(), alloc0),
                memory_set.fits(fa.mem()),
                loaded_upto(memory_set, fa.mem(), s, i as int, src_of),
                src_of == load_headers(s, i as int),
            decreases ph_num - i,
        {
            let ph = program_header(elf_data, i);
            if ph.is_load {
                proof {
                    lemma_load_pages_mono(s, i as int + 1, ph_count(s));
                    lemma_max_end_mono(s, i as int + 1, ph_count(s));
                }
                let ghost ms_before = memory_set;
                let ghost mem_before = fa.mem();
                let ghost alloc_before = fa.allocated();
                memory_set.map_segment(fa, elf_data, i, &ph, Ghost(src_of));
                proof {
                    src_of = src_of.push(i as int);
                    assert forall|p: usize| memory_set.frame_set().contains(p) implies !alloc0.contains(p) by {
                        if !ms_before.frame_set().contains(p) {
                            assert(memory_set.frame_set().difference(ms_before.frame_set()).contains(p));
                        }
                    }
                    assert(fa.allocated() =~= alloc0.union(memory_set.frame_set()));
                    assert forall|q: usize, j: int|
                        #![trigger alloc0.contains(q), fa.mem()[j]]
                        alloc0.contains(q) && in_frame(j, q as int) && 0 <= j < mem0.len() implies mem0[j] == fa.mem()[j] by {
                        assert(mem0[j] == mem_before[j]);
                        assert(alloc_before.contains(q));
                    }
                }
                let e = map_area_end(&memory_set);
                if max_end_va < e {
                    max_end_va = e;
                }
            } else {
                proof {
                    lemma_loaded_skip(memory_set, fa.mem(), s, i as int, src_of);
                }
            }
            i = i + 1;
        }
        proof {
            lemma_max_end_mono(s, ph_count(s), ph_count(s));
        }
        let user_stack_bottom: usize = max_end_va + PAGE_SIZE;
        let user_stack_top: usize = user_stack_bottom + USER_STACK_SIZE;
        proof {
            assert(memory_set.range_free(user_stack_bottom as int, user_stack_top as int)) by {
                assert forall|k: int| 0 <= k < memory_set.areas().len() implies #[trigger] memory_set.areas()[k].end()
                    <= user_stack_bottom || user_stack_top <= memory_set.areas()[k].start() by {
                    let j = src_of[k];
                    assert(memory_set.areas()[k].start() == seg_start(s, src_of[k]));
                    lemma_max_end(s, ph_count(s), j);
                }
            }
            assert(max_end_va % PAGE_SIZE == 0 && (user_stack_top as int) % (PAGE_SIZE as int) == 0) by {
                lemma_max_end_aligned(s, ph_count(s));
            }
        }
        let ghost ms_before = memory_set;
        let ghost mem_before = fa.mem();
        let ghost alloc_before = fa.allocated();
        memory_set.map_user_stack(fa, user_stack_bottom);
        proof {
            let lh = load_headers(s, ph_count(s));
            assert forall|k: int|
                0 <= k < lh.len() implies (#[trigger] memory_set.areas()[k]).start() == seg_start(s, lh[k])
                    && memory_set.areas()[k].end() == seg_end(s, lh[k]) && memory_set.areas()[k].perm() == seg_perm(s, lh[k]) by {
                assert(memory_set.areas()[k] == ms_before.areas()[k]);
                assert(src_of[k] == lh[k]);
            }
            assert forall|p: usize| memory_set.frame_set().contains(p) implies !alloc0.contains(p) by {
                if !ms_before.frame_set().contains(p) {
                    assert(memory_set.frame_set().difference(ms_before.frame_set()).contains(p));
                }
            }
            assert(fa.allocated() =~= alloc0.union(memory_set.frame_set()));
            assert forall|q: usize, j: int|
                #![trigger alloc0.contains(q), fa.mem()[j]]
                alloc0.contains(q) && in_frame(j, q as int) && 0 <= j < mem0.len() implies mem0[j] == fa.mem()[j] by {
                assert(mem0[j] == mem_before[j]);
                assert(alloc_before.contains(q));
            }
            assert forall|j: int, va: int|
                #![trigger seg_is_load(s, j), memory_set.translate_spec(va)]
                0 <= j < ph_count(s) && seg_is_load(s, j) && seg_start(s, j) <= va < seg_end(s, j)
                    implies memory_set.translate_spec(va) is Some && memory_set.translate_spec(va)->Some_0.1 == seg_perm(s, j)
                    && memory_set.byte_at(fa.mem(), va) == Some(seg_byte(s, j, va)) by {
                lemma_max_end(s, ph_count(s), j);
                assert(ms_before.translate_spec(va) is Some);
                assert(memory_set.byte_at(fa.mem(), va) == ms_before.byte_at(mem_before, va));
            }
            assert forall|va: int|
                #![trigger memory_set.translate_spec(va)]
                memory_set.translate_spec(va) is Some implies (stack_bottom(s) <= va < stack_top(s)) || exists|j: int|
                    0 <= j < ph_count(s) && #[trigger] seg_is_load(s, j) && seg_start(s, j) <= va < seg_end(s, j) by {
                if !(user_stack_bottom <= va < user_stack_top) {
                    assert(ms_before.translate_spec(va) is Some);
                }
            }
        }
        let entry = entry_point(elf_data);
        (memory_set, user_stack_top, entry as usize)
    }
}

/// Every loadable segment ends below the guard page under the stack.
pub proof fn lemma_seg_below_stack(s: Seq<u8>, i: int)
    requires
        0 <= i < ph_count(s),
        seg_is_load(s, i),
    ensures
        seg_end(s, i) + PAGE_SIZE <= stack_bottom(s),
{
    lemma_max_end(s, ph_count(s), i);
}

pub proof fn lemma_max_end_nonneg(s: Seq<u8>, n: int)
    ensures
        max_end(s, n) >= 0,
    decreases n,
{
    if n > 0 {
        lemma_max_end_nonneg(s, n - 1);
    }
}

proof fn lemma_max_end_aligned(s: Seq<u8>, n: int)
    ensures
        max_end(s, n) % (PAGE_SIZE as int) == 0,
    decreases n,
{
    if n > 0 {
        lemma_max_end_aligned(s, n - 1);
    }
}

/// End of the region added last.
fn map_area_end(ms: &MemorySet) -> (r: usize)
    requires
        ms.areas().len() > 0,
        ms.wf(),
    ensures
        r == ms.areas().last().end(),
{
    ms.areas[ms.areas.len() - 1].vaddr_range.get_end()
}

/// `256^k`.
pub open spec fn pow256(k: nat) -> int
    decreases k,
{
    if k == 0 {
        1
    } else {
        256 * pow256((k - 1) as nat)
    }
}

/// Byte `k` of `v` in little-endian order.
pub open spec fn word_byte(v: int, k: nat) -> u8 {
    ((v / pow256(k)) % 256) as u8
}

/// The number that the `n` bytes of `ms` from `va` form, little-endian; an
/// unmapped byte counts as zero.
pub open spec fn le_value(ms: MemorySet, mem: Seq<u8>, va: int, n: nat) -> int
    decreases n,
{
    if n == 0 {
        0
    } else {
        le_value(ms, mem, va, (n - 1) as nat) + (match ms.byte_at(mem, va + n - 1) {
            Some(b) => b as int,
            None => 0,
        }) * pow256((n - 1) as nat)
    }
}

/// Bytes laid out by `word_byte` read back as the number, modulo `256^n`.
pub proof fn lemma_le_value(ms: MemorySet, mem: Seq<u8>, va: int, v: int, n: nat)
    requires
        0 <= v,
        forall|k: int| 0 <= k < n ==> #[trigger] ms.byte_at(mem, va + k) == Some(word_byte(v, k as nat)),
    ensures
        le_value(ms, mem, va, n) == v % pow256(n),
    decreases n,
{
    if n > 0 {
        let m = (n - 1) as nat;
        lemma_le_value(ms, mem, va, v, m);
        lemma_pow256_pos(m);
        vstd::arithmetic::div_mod::lemma_mod_breakdown(v, pow256(m), 256);
        assert(ms.byte_at(mem, va + m) == Some(word_byte(v, m)));
        vstd::arithmetic::div_mod::lemma_div_pos_is_pos(v, pow256(m));
        assert(word_byte(v, m) as int == (v / pow256(m)) % 256);
        assert(pow256(n) == pow256(m) * 256);
        assert(le_value(ms, mem, va, n) == v % pow256(m) + ((v / pow256(m)) % 256) * pow256(m));
        vstd::arithmetic::mul::lemma_mul_is_commutative(pow256(m), (v / pow256(m)) % 256);
    } else {
        assert(pow256(0) == 1);
    }
}

/// `256^8 == 2^64`.
pub proof fn lemma_pow256_8()
    ensures
        pow256(8) == 0x1_0000_0000_0000_0000,
{
    assert(pow256(0) == 1);
    assert(pow256(1) == 0x100);
    assert(pow256(2) == 0x1_0000);
    assert(pow256(3) == 0x100_0000);
    assert(pow256(4) == 0x1_0000_0000);
    assert(pow256(5) == 0x100_0000_0000);
    assert(pow256(6) == 0x1_0000_0000_0000);
    assert(pow256(7) == 0x100_0000_0000_0000);
}

/// The eight little-endian bytes of `v`.
pub fn le_bytes(v: usize) -> (r: Vec<u8>)
    ensures
        r@.len() == 8,
        forall|k: int| 0 <= k < 8 ==> #[trigger] r@[k] == word_byte(v as int, k as nat),
{
    let mut r: Vec<u8> = Vec::new();
    let mut cur: usize = v;
    let mut k: usize = 0;
    while k < 8
        invariant
            k <= 8,
            r@.len() == k,
            cur as int == v as int / pow256(k as nat),
            forall|j: int| 0 <= j < k ==> #[trigger] r@[j] == word_byte(v as int, j as nat),
        decreases 8 - k,
    {
        proof {
            lemma_pow256_pos(k as nat);
            vstd::arithmetic::div_mod::lemma_div_denominator(v as int, pow256(k as nat), 256);
            assert(pow256((k + 1) as nat) == pow256(k as nat) * 256);
        }
        r.push((cur % 256) as u8);
        cur = cur / 256;
        k = k + 1;
    }
    r
}

pub proof fn lemma_pow256_pos(k: nat)
    ensures
        pow256(k) > 0,
    decreases k,
{
    if k > 0 {
        lemma_pow256_pos((k - 1) as nat);
    }
}

impl MemorySet {
    /// Distinct mapped addresses lie at distinct bytes of memory.
    pub proof fn lemma_byte_index_injective(&self, va: int, vb: int)
        requires
            self.wf(),
            self.translate_spec(va) is Some,
            self.translate_spec(vb) is Some,
            va != vb,
        ensures
            self.byte_index(va) != self.byte_index(vb),
    {
        self.lemma_translate(va);
        self.lemma_translate(vb);
        let i = area_index(self.areas(), va);
        let j = area_index(self.areas(), vb);
        if i == j {
            self.areas()[i].lemma_byte_index_injective(va, vb);
        } else {
            let a = self.areas()[i];
            let b = self.areas()[j];
            a.lemma_byte_index(va);
            b.lemma_byte_index(vb);
            let k = (va - a.start()) / (PAGE_SIZE as int);
            let l = (vb - b.start()) / (PAGE_SIZE as int);
            if i < j {
                assert(a.frames()[k] != b.frames()[l]);
            } else {
                assert(b.frames()[l] != a.frames()[k]);
            }
        }
    }

    /// Writes `bytes` at `[va, va + len)`; every address there must be mapped.
    pub fn write_bytes(&self, fa: &mut FrameAllocator, va: usize, bytes: &[u8])
        requires
            self.wf(),
            old(fa).wf(),
            self.fits(old(fa).mem()),
            va + bytes@.len() <= usize::MAX,
            forall|w: int| va <= w < va + bytes@.len() ==> (#[trigger] self.translate_spec(w)) is Some,
        ensures
            final(fa).wf(),
            final(fa).same_bookkeeping(old(fa)),
            final(fa).allocated() == old(fa).allocated(),
            final(fa).arena() == old(fa).arena(),
            final(fa).free_count() == old(fa).free_count(),
            final(fa).mem().len() == old(fa).mem().len(),
            forall|w: int|
                #![trigger self.byte_at(final(fa).mem(), w)]
                self.byte_at(final(fa).mem(), w) == if va <= w < va + bytes@.len() {
                    Some(bytes@[w - va])
                } else {
                    self.byte_at(old(fa).mem(), w)
                },
            forall|q: usize, j: int|
                #![trigger self.frame_set().contains(q), final(fa).mem()[j]]
                !self.frame_set().contains(q) && in_frame(j, q as int) && 0 <= j < old(fa).mem().len()
                    ==> final(fa).mem()[j] == old(fa).mem()[j],
    {
        proof {
            fa.lemma_same_bookkeeping(fa, fa);
        }
        let mut k: usize = 0;
        while k < bytes.len()
            invariant
                self.wf(),
                fa.wf(),
                fa.same_bookkeeping(old(fa)),
                fa.mem().len() == old(fa).mem().len(),
                self.fits(fa.mem()),
                k <= bytes@.len(),
                va + bytes@.len() <= usize::MAX,
                forall|w: int| va <= w < va + bytes@.len() ==> (#[trigger] self.translate_spec(w)) is Some,
                forall|w: int|
                    #![trigger self.byte_at(fa.mem(), w)]
                    self.byte_at(fa.mem(), w) == if va <= w < va + k {
                        Some(bytes@[w - va])
                    } else {
                        self.byte_at(old(fa).mem(), w)
                    },
                forall|q: usize, j: int|
                    #![trigger self.frame_set().contains(q), fa.mem()[j]]
                    !self.frame_set().contains(q) && in_frame(j, q as int) && 0 <= j < old(fa).mem().len()
                        ==> fa.mem()[j] == old(fa).mem()[j],
            decreases bytes@.len() - k,
        {
            let ghost before = fa.mem();
            let ghost fa_k = *fa;
            let ghost w0 = va + k;
            assert(self.translate_spec(w0) is Some);
            let ok = self.write_byte(fa, va + k, bytes[k]);
            proof {
                fa.lemma_same_bookkeeping(&fa_k, old(fa));
                assert forall|w: int|
                    #![trigger self.byte_at(fa.mem(), w)]
                    self.byte_at(fa.mem(), w) == if va <= w < va + k + 1 {
                        Some(bytes@[w - va])
                    } else {
                        self.byte_at(old(fa).mem(), w)
                    } by {
                    if w != w0 && self.translate_spec(w) is Some {
                        self.lemma_byte_index_injective(w, w0);
                        self.lemma_translate(w);
                        let f = self.areas()[area_index(self.areas(), w)].frame_of(w);
                        assert(self.frame_set().contains(f));
                        assert(0 <= self.byte_index(w) < before.len());
                        assert(fa.mem()[self.byte_index(w)] == before[self.byte_index(w)]);
                        assert(self.byte_at(fa.mem(), w) == self.byte_at(before, w));
                    }
                }
                assert forall|q: usize, j: int|
                    #![trigger self.frame_set().contains(q), fa.mem()[j]]
                    !self.frame_set().contains(q) && in_frame(j, q as int) && 0 <= j < old(fa).mem().len()
                        implies fa.mem()[j] == old(fa).mem()[j] by {
                    let f = self.translate_spec(w0)->Some_0.0;
                    assert(f != q);
                    assert(j != self.byte_index(w0));
                    assert(fa.mem()[j] == before[j]);
                }
            }
            k = k + 1;
        }
        proof {
            fa.lemma_same_bookkeeping(old(fa), old(fa));
        }
    }
}


/// Page bounds of a segment at `vaddr` of `mem_size` bytes, inside user space.
fn segment_pages(vaddr: usize, mem_size: usize) -> (r: (usize, usize))
    requires
        vaddr + mem_size <= USER_SPACE_END,
    ensures
        r.0 == floor_page(vaddr as int),
        r.1 == ceil_page(vaddr + mem_size),
        r.0 <= r.1 <= USER_SPACE_END,
        r.0 % PAGE_SIZE == 0,
        r.1 % PAGE_SIZE == 0,
{
    let end = vaddr + mem_size;
    let s = vaddr - vaddr % PAGE_SIZE;
    let e = if end % PAGE_SIZE == 0 {
        end
    } else {
        end - end % PAGE_SIZE + PAGE_SIZE
    };
    (s, e)
}

/// Whether `from_elf` takes the image as it stands (`elf_loadable`), and if so
/// how many free frames it uses.
pub fn check_elf(data: &Vec<u8>) -> (r: Option<u128>)
    ensures
        (r is Some) == elf_loadable(data@),
        r is Some ==> r->Some_0 == load_pages(data@, ph_count(data@)) + stack_pages() + 1,
{
    let ghost s = data@;
    if !check_elf_header(data) {
        return None;
    }
    let entry = entry_point(data);
    if entry >= USER_SPACE_END as u64 {
        return None;
    }
    let len = data.len();
    let n = program_header_count(data);
    let mut starts: Vec<usize> = Vec::new();
    let mut ends: Vec<usize> = Vec::new();
    let ghost mut idxs: Seq<int> = Seq::empty();
    let mut max_end_va: usize = 0;
    let mut pages: u128 = 0;
    let mut i: u16 = 0;
    while i < n
        invariant
            s == data@,
            len == s.len(),
            elf_header_ok(s),
            s[5] == 1u8,
            elf_entry(s) < USER_SPACE_END,
            n as int == ph_count(s),
            i <= n,
            starts@.len() == idxs.len(),
            ends@.len() == idxs.len(),
            forall|k: int|
                #![trigger idxs[k]]
                0 <= k < idxs.len() ==> 0 <= idxs[k] < i && seg_is_load(s, idxs[k]) && starts@[k] == seg_start(s, idxs[k])
                    && ends@[k] == seg_end(s, idxs[k]),
            forall|j: int| 0 <= j < i && #[trigger] seg_is_load(s, j) ==> exists|k: int| 0 <= k < idxs.len() && idxs[k] == j,
            forall|j: int|
                0 <= j < i && #[trigger] seg_is_load(s, j) ==> seg_offset(s, j) + seg_file_size(s, j) <= s.len()
                    && seg_file_size(s, j) <= seg_mem_size(s, j) && seg_vaddr(s, j) + seg_mem_size(s, j) <= USER_SPACE_END,
            forall|j1: int, j2: int|
                #![trigger seg_is_load(s, j1), seg_is_load(s, j2)]
                0 <= j1 < j2 < i && seg_is_load(s, j1) && seg_is_load(s, j2) ==> seg_end(s, j1) <= seg_start(s, j2)
                    || seg_end(s, j2) <= seg_start(s, j1),
            max_end_va as int == max_end(s, i as int),
            max_end_va <= USER_SPACE_END,
            pages as int == load_pages(s, i as int),
            pages as int <= (i as int) * 0x8_0000_0000_0000,
        decreases n - i,
    {
        let ph = program_header(data, i);
        let ghost ii = i as int;
        proof {
            lemma_fields_nonneg(s, ii);
        }
        if ph.is_load {
            if !(ph.offset <= len as u64 && ph.file_size <= len as u64 - ph.offset) {
                return None;
            }
            if ph.file_size > ph.mem_size {
                return None;
            }
            if !(ph.vaddr <= USER_SPACE_END as u64 && ph.mem_size <= USER_SPACE_END as u64 - ph.vaddr) {
                return None;
            }
            let (st, en) = segment_pages(ph.vaddr as usize, ph.mem_size as usize);
            let mut k: usize = 0;
            while k < starts.len()
                invariant
                    s == data@,
                    starts@.len() == idxs.len(),
                    ends@.len() == idxs.len(),
                    0 <= ii < ph_count(s),
                    seg_is_load(s, ii),
                    st == seg_start(s, ii),
                    en == seg_end(s, ii),
                    forall|kk: int|
                        #![trigger idxs[kk]]
                        0 <= kk < idxs.len() ==> 0 <= idxs[kk] < ii && seg_is_load(s, idxs[kk]) && starts@[kk] == seg_start(s, idxs[kk])
                            && ends@[kk] == seg_end(s, idxs[kk]),
                    k <= starts@.len(),
                    forall|kk: int| 0 <= kk < k ==> #[trigger] ends@[kk] <= st || en <= starts@[kk],
                decreases starts@.len() - k,
            {
                if !(ends[k] <= st || en <= starts[k]) {
                    proof {
                        let j = idxs[k as int];
                        assert(seg_is_load(s, j));
                        assert(!elf_loadable(s)) by {
                            if elf_loadable(s) {
                                assert(seg_is_load(s, j) && seg_is_load(s, ii));
                            }
                        }
                    }
                    return None;
                }
                k = k + 1;
            }
            starts.push(st);
            ends.push(en);
            proof {
                let old_idxs = idxs;
                idxs = idxs.push(ii);
                assert forall|j1: int, j2: int|
                    #![trigger seg_is_load(s, j1), seg_is_load(s, j2)]
                    0 <= j1 < j2 < ii + 1 && seg_is_load(s, j1) && seg_is_load(s, j2) implies seg_end(s, j1) <= seg_start(s, j2)
                        || seg_end(s, j2) <= seg_start(s, j1) by {
                    if j2 == ii {
                        let kk = choose|kk: int| 0 <= kk < old_idxs.len() && old_idxs[kk] == j1;
                        assert(ends@[kk] <= st || en <= starts@[kk]);
                        assert(old_idxs[kk] == j1);
                    }
                }
                assert forall|j: int| 0 <= j < ii + 1 && #[trigger] seg_is_load(s, j) implies exists|k: int| 0 <= k < idxs.len() && idxs[k] == j by {
                    if j == ii {
                        assert(idxs[idxs.len() - 1] == j);
                    } else {
                        let kk = choose|kk: int| 0 <= kk < old_idxs.len() && old_idxs[kk] == j;
                        assert(idxs[kk] == j);
                    }
                }
                assert forall|kk: int|
                    #![trigger idxs[kk]]
                    0 <= kk < idxs.len() implies 0 <= idxs[kk] < ii + 1 && seg_is_load(s, idxs[kk]) && starts@[kk] == seg_start(s, idxs[kk])
                        && ends@[kk] == seg_end(s, idxs[kk]) by {
                    if kk < old_idxs.len() {
                        assert(idxs[kk] == old_idxs[kk]);
                    }
                }
                crate::config::lemma_user_space_end();
                assert(((en - st) as int) / (PAGE_SIZE as int) <= (USER_SPACE_END as int) / (PAGE_SIZE as int)) by {
                    vstd::arithmetic::div_mod::lemma_div_is_ordered((en - st) as int, USER_SPACE_END as int, PAGE_SIZE as int);
                }
            }
            if max_end_va < en {
                max_end_va = en;
            }
            proof {
                assert((i as int) * 0x8_0000_0000_0000 + 0x8_0000_0000_0000 == (i as int + 1) * 0x8_0000_0000_0000) by (nonlinear_arith);
                assert((i as int + 1) * 0x8_0000_0000_0000 <= 0x10000 * 0x8_0000_0000_0000) by (nonlinear_arith)
                    requires
                        i < 0x10000,
                ;
            }
            pages = pages + ((en - st) / PAGE_SIZE) as u128;
        } else {
            proof {
                assert forall|j1: int, j2: int|
                    #![trigger seg_is_load(s, j1), seg_is_load(s, j2)]
                    0 <= j1 < j2 < ii + 1 && seg_is_load(s, j1) && seg_is_load(s, j2) implies seg_end(s, j1) <= seg_start(s, j2)
                        || seg_end(s, j2) <= seg_start(s, j1) by {
                    assert(j2 != ii);
                }
                assert((i as int) * 0x8_0000_0000_0000 <= (i as int + 1) * 0x8_0000_0000_0000) by (nonlinear_arith);
            }
        }
        i = i + 1;
    }
    if max_end_va > USER_SPACE_END - PAGE_SIZE - USER_STACK_SIZE {
        return None;
    }
    proof {
        lemma_load_pages_mono(s, 0, ph_count(s));
    }
    proof {
        assert((n as int) * 0x8_0000_0000_0000 <= 0x10000 * 0x8_0000_0000_0000) by (nonlinear_arith)
            requires
                n < 0x10000,
        ;
    }
    Some(pages + stack_pages_exec() as u128 + 1)
}

fn stack_pages_exec() -> (r: usize)
    ensures
        r == stack_pages(),
{
    USER_STACK_SIZE / PAGE_SIZE
}
} // verus!
