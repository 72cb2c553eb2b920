//! Address spaces: page-granular mappings from virtual page numbers to
//! physical frames with permission flags, and the physical frame allocator
//! that backs them.
use vstd::prelude::*;

verus! {

/// Bytes in one page.
pub const PAGE_SIZE: usize = 4096;

/// Page-table entry flag: the entry is valid.
pub const PTE_V: u8 = 1;
/// Page-table entry flag: readable.
pub const PTE_R: u8 = 2;
/// Page-table entry flag: writable.
pub const PTE_W: u8 = 4;
/// Page-table entry flag: executable.
pub const PTE_X: u8 = 8;
/// Page-table entry flag: accessible from user mode.
pub const PTE_U: u8 = 16;

/// Index of the page that holds byte `va`.
pub open spec fn page_floor(va: int) -> int {
    va / PAGE_SIZE as int
}

/// Index of the first page that starts at or after byte `va`.
pub open spec fn page_ceil(va: int) -> int {
    va / PAGE_SIZE as int + if va % PAGE_SIZE as int == 0 { 0int } else { 1int }
}

/// Page number of the page holding `va`.
pub fn floor_vpn(va: usize) -> (r: usize)
    ensures
        r == page_floor(va as int),
{
    va / PAGE_SIZE
}

/// Page number of the first page boundary at or after `va`.
pub fn ceil_vpn(va: usize) -> (r: usize)
    ensures
        r == page_ceil(va as int),
{
    if va % PAGE_SIZE == 0 {
        va / PAGE_SIZE
    } else {
        va / PAGE_SIZE + 1
    }
}

/// One page-table entry: a physical frame and its flags.
#[derive(Clone, Copy, Debug, PartialEq, Eq, Structural)]
pub struct PageTableEntry {
    pub ppn: usize,
    pub flags: u8,
}

impl PageTableEntry {
    pub open spec fn valid(&self) -> bool {
        self.flags & PTE_V != 0
    }

    /// Whether the entry maps a frame.
    pub fn is_valid(&self) -> (r: bool)
        ensures
            r == self.valid(),
    {
        self.flags & PTE_V != 0
    }
}

/// The entry for one virtual page.
#[derive(Clone, Copy, Debug)]
pub struct Mapping {
    pub vpn: usize,
    pub pte: PageTableEntry,
}

/// What a list of mappings says of `vpn`: the latest entry for it, if any.
pub open spec fn lookup(s: Seq<Mapping>, vpn: usize) -> Option<PageTableEntry>
    decreases s.len(),
{
    if s.len() == 0 {
        None
    } else if s.last().vpn == vpn {
        Some(s.last().pte)
    } else {
        lookup(s.drop_last(), vpn)
    }
}

/// `vpn` has an entry in `s` exactly when some mapping of `s` names it.
pub proof fn lemma_lookup_some(s: Seq<Mapping>, vpn: usize)
    ensures
        lookup(s, vpn).is_some() <==> exists|i: int| 0 <= i < s.len() && s[i].vpn == vpn,
    decreases s.len(),
{
    if s.len() > 0 {
        lemma_lookup_some(s.drop_last(), vpn);
        if lookup(s, vpn).is_some() && s.last().vpn != vpn {
            let i = choose|i: int| 0 <= i < s.len() - 1 && s.drop_last()[i].vpn == vpn;
            assert(s[i].vpn == vpn);
        }
        if exists|i: int| 0 <= i < s.len() && s[i].vpn == vpn {
            let i = choose|i: int| 0 <= i < s.len() && s[i].vpn == vpn;
            if i < s.len() - 1 {
                assert(s.drop_last()[i].vpn == vpn);
            }
        }
    }
}

/// No two entries of `s` are for the same page.
pub open spec fn unique_pages(s: Seq<Mapping>) -> bool {
    forall|i: int, j: int| 0 <= i < j < s.len() ==> (#[trigger] s[i]).vpn != (#[trigger] s[j]).vpn
}

/// An entry for a page that `s` does not map keeps the pages of `s` unique.
pub proof fn lemma_push_unique(s: Seq<Mapping>, m: Mapping)
    requires
        unique_pages(s),
        lookup(s, m.vpn).is_none(),
    ensures
        unique_pages(s.push(m)),
{
    lemma_lookup_some(s, m.vpn);
    let t = s.push(m);
    assert forall|i: int, j: int| 0 <= i < j < t.len() implies (#[trigger] t[i]).vpn != (#[trigger] t[j]).vpn by {
        if j == s.len() {
            assert(t[i] == s[i]);
        } else {
            assert(t[i] == s[i] && t[j] == s[j]);
        }
    }
}

/// Where pages are unique, the entry at `k` is the answer for its page.
pub proof fn lemma_lookup_at(s: Seq<Mapping>, k: int)
    requires
        unique_pages(s),
        0 <= k < s.len(),
    ensures
        lookup(s, s[k].vpn) == Some(s[k].pte),
    decreases s.len(),
{
    if k < s.len() - 1 {
        assert(s[k].vpn != s[s.len() - 1].vpn);
        let t = s.drop_last();
        assert(t[k] == s[k]);
        assert(unique_pages(t)) by {
            assert forall|i: int, j: int| 0 <= i < j < t.len() implies (#[trigger] t[i]).vpn != (#[trigger] t[j]).vpn by {
                assert(t[i] == s[i] && t[j] == s[j]);
            }
        }
        lemma_lookup_at(t, k);
    }
}

/// Removing the entry at `i` unmaps its page and leaves the others.
pub proof fn lemma_lookup_remove(s: Seq<Mapping>, i: int, u: usize)
    requires
        unique_pages(s),
        0 <= i < s.len(),
    ensures
        unique_pages(s.remove(i)),
        lookup(s.remove(i), u) == if u == s[i].vpn { None } else { lookup(s, u) },
{
    let t = s.remove(i);
    assert forall|a: int, b: int| 0 <= a < b < t.len() implies (#[trigger] t[a]).vpn != (#[trigger] t[b]).vpn by {
        let a2 = if a < i { a } else { a + 1 };
        let b2 = if b < i { b } else { b + 1 };
        assert(t[a] == s[a2] && t[b] == s[b2]);
    }
    lemma_lookup_some(t, u);
    lemma_lookup_some(s, u);
    if exists|j: int| 0 <= j < t.len() && t[j].vpn == u {
        let j = choose|j: int| 0 <= j < t.len() && t[j].vpn == u;
        let j2 = if j < i { j } else { j + 1 };
        assert(t[j] == s[j2]);
        lemma_lookup_at(t, j);
        lemma_lookup_at(s, j2);
    } else if u != s[i].vpn && lookup(s, u).is_some() {
        let k = choose|k: int| 0 <= k < s.len() && s[k].vpn == u;
        let k2 = if k < i { k } else { k - 1 };
        assert(t[k2] == s[k]);
    }
}

/// Pushing an entry makes it the answer for its page and leaves the others.
pub proof fn lemma_lookup_push(s: Seq<Mapping>, m: Mapping, vpn: usize)
    ensures
        lookup(s.push(m), vpn) == if m.vpn == vpn { Some(m.pte) } else { lookup(s, vpn) },
{
    assert(s.push(m).drop_last() =~= s);
}

/// The flags of an entry, if there is one.
pub open spec fn flags_of(e: Option<PageTableEntry>) -> Option<u8> {
    match e {
        Some(p) => Some(p.flags),
        None => None,
    }
}

/// Where every entry of `s` is valid, so is every answer of `lookup`.
pub proof fn lemma_lookup_valid(s: Seq<Mapping>, vpn: usize)
    requires
        forall|i: int| 0 <= i < s.len() ==> (#[trigger] s[i]).pte.valid(),
    ensures
        lookup(s, vpn).is_some() ==> lookup(s, vpn).unwrap().valid(),
    decreases s.len(),
{
    if s.len() > 0 {
        assert(s.last() == s[s.len() - 1]);
        lemma_lookup_valid(s.drop_last(), vpn);
    }
}

/// One loadable region of a program: the bytes `start_va .. end_va`,
/// mapped with the read / write / execute bits of `perm`.
#[derive(Clone, Copy, Debug)]
pub struct Segment {
    pub start_va: usize,
    pub end_va: usize,
    pub perm: u8,
}

/// First page of a segment.
pub open spec fn seg_first(g: Segment) -> int {
    page_floor(g.start_va as int)
}

/// One past the last page of a segment.
pub open spec fn seg_last(g: Segment) -> int {
    page_ceil(g.end_va as int)
}

/// The flags a segment's pages get.
pub open spec fn seg_flags(g: Segment) -> u8 {
    (g.perm & (PTE_R | PTE_W | PTE_X)) | PTE_V | PTE_U
}

/// Each segment is well formed and ends at or before the page where the
/// next one starts.
pub open spec fn segs_ordered(segs: Seq<Segment>) -> bool {
    forall|i: int|
        0 <= i < segs.len() ==> (#[trigger] segs[i]).start_va <= segs[i].end_va && (i + 1
            < segs.len() ==> seg_last(segs[i]) <= seg_first(segs[i + 1]))
}

/// Pages covered by the first `n` segments.
pub open spec fn pages_upto(segs: Seq<Segment>, n: int) -> int
    decreases n,
{
    if n <= 0 {
        0
    } else {
        pages_upto(segs, n - 1) + (seg_last(segs[n - 1]) - seg_first(segs[n - 1]))
    }
}

/// Page `v` lies in one of the first `n` segments.
pub open spec fn in_segs(segs: Seq<Segment>, n: int, v: usize) -> bool {
    exists|k: int| 0 <= k < n && seg_first(#[trigger] segs[k]) <= v < seg_last(segs[k])
}

/// Counting more segments never counts fewer pages.
pub proof fn lemma_pages_upto_mono(segs: Seq<Segment>, a: int, b: int)
    requires
        segs_ordered(segs),
        0 <= a <= b <= segs.len(),
    ensures
        pages_upto(segs, a) <= pages_upto(segs, b),
    decreases b - a,
{
    if a < b {
        lemma_pages_upto_mono(segs, a, b - 1);
        let g = segs[b - 1];
        assert(g.start_va <= g.end_va);
        assert(page_floor(g.start_va as int) <= page_floor(g.end_va as int)) by (nonlinear_arith)
            requires g.start_va <= g.end_va;
    }
}

/// In ordered segments, every page of an earlier segment lies before the
/// first page of a later one.
pub proof fn lemma_segs_apart(segs: Seq<Segment>, k: int, j: int)
    requires
        segs_ordered(segs),
        0 <= k < j < segs.len(),
    ensures
        seg_last(segs[k]) <= seg_first(segs[j]),
    decreases j - k,
{
    assert(segs[k].start_va <= segs[k].end_va);
    if k + 1 < j {
        lemma_segs_apart(segs, k + 1, j);
        let g = segs[k + 1];
        assert(g.start_va <= g.end_va);
        assert(seg_first(g) <= seg_last(g)) by {
            assert(page_floor(g.start_va as int) <= page_floor(g.end_va as int)) by (nonlinear_arith)
                requires g.start_va <= g.end_va;
        }
    }
}

/// The number of pages that `segs` cover, where they are ordered and the
/// number fits in a `usize`.
pub fn check_segments(segs: &Vec<Segment>) -> (r: Option<usize>)
    ensures
        r.is_some() <==> segs_ordered(segs@) && pages_upto(segs@, segs@.len() as int) <= usize::MAX,
        r.is_some() ==> r.unwrap() == pages_upto(segs@, segs@.len() as int),
{
    let n = segs.len();
    let mut total: usize = 0;
    let mut i: usize = 0;
    while i < n
        invariant
            n == segs@.len(),
            i <= n,
            total == pages_upto(segs@, i as int),
            forall|k: int| 0 <= k < i ==> (#[trigger] segs@[k]).start_va <= segs@[k].end_va && (k + 1
                < n ==> seg_last(segs@[k]) <= seg_first(segs@[k + 1])),
        decreases n - i,
    {
        let g = segs[i];
        if g.start_va > g.end_va {
            assert(!segs_ordered(segs@)) by {
                assert(segs@[i as int] == g);
            }
            return None;
        }
        let first = floor_vpn(g.start_va);
        let last = ceil_vpn(g.end_va);
        if i + 1 < n && last > floor_vpn(segs[i + 1].start_va) {
            assert(!segs_ordered(segs@)) by {
                assert(segs@[i as int] == g);
            }
            return None;
        }
        assert(first <= last) by (nonlinear_arith)
            requires first == page_floor(g.start_va as int), last == page_ceil(g.end_va as int),
                g.start_va <= g.end_va;
        if last - first > usize::MAX - total {
            proof {
                if segs_ordered(segs@) {
                    lemma_pages_upto_mono(segs@, i + 1, n as int);
                }
            }
            return None;
        }
        total = total + (last - first);
        i = i + 1;
    }
    Some(total)
}

/// The physical frames that are free: those from `current` up to `end`
/// never handed out, and those given back.
pub struct FrameAllocator {
    current: usize,
    end: usize,
    recycled: Vec<usize>,
}

impl FrameAllocator {
    pub closed spec fn wf(&self) -> bool {
        self.current <= self.end
    }

    /// Number of frames that can still be handed out.
    pub closed spec fn available(&self) -> nat {
        ((self.end - self.current) + self.recycled@.len()) as nat
    }

    /// The frames that are free: never handed out, or given back.
    pub closed spec fn free(&self) -> Set<usize> {
        Set::new(|f: usize| (self.current <= f < self.end) || self.recycled@.contains(f))
    }

    /// An allocator over the frames `start .. end`.
    pub fn new(start: usize, end: usize) -> (r: FrameAllocator)
        ensures
            r.wf(),
            r.available() == if start <= end { end - start } else { 0 },
    {
        let s = if start <= end { start } else { end };
        FrameAllocator { current: s, end, recycled: Vec::new() }
    }

    /// Whether `n` frames can be handed out.
    pub fn has_frames(&self, n: usize) -> (r: bool)
        requires
            self.wf(),
        ensures
            r == (n <= self.available()),
    {
        let fresh = self.end - self.current;
        n <= fresh || n - fresh <= self.recycled.len()
    }

    /// Hands out one free frame.
    pub fn alloc_frame(&mut self) -> (r: Option<usize>)
        requires
            old(self).wf(),
        ensures
            final(self).wf(),
            r.is_some() <==> old(self).available() > 0,
            r.is_some() ==> final(self).available() == old(self).available() - 1,
            r.is_some() ==> old(self).free().contains(r.unwrap()),
            final(self).free().subset_of(old(self).free()),
            r.is_none() ==> final(self).available() == old(self).available(),
    {
        if let Some(ppn) = self.recycled.pop() {
            assert(old(self).recycled@ == self.recycled@.push(ppn));
            assert(old(self).recycled@.contains(ppn)) by {
                assert(old(self).recycled@[old(self).recycled@.len() - 1] == ppn);
            }
            assert forall|f: usize| self.free().contains(f) implies old(self).free().contains(f) by {
                if self.recycled@.contains(f) {
                    let k = choose|k: int| 0 <= k < self.recycled@.len() && self.recycled@[k] == f;
                    assert(old(self).recycled@[k] == f);
                }
            }
            Some(ppn)
        } else if self.current < self.end {
            let ppn = self.current;
            self.current = self.current + 1;
            Some(ppn)
        } else {
            None
        }
    }

    /// Takes a frame back.
    pub fn dealloc_frame(&mut self, ppn: usize)
        requires
            old(self).wf(),
        ensures
            final(self).wf(),
            final(self).available() == old(self).available() + 1,
            final(self).free() == old(self).free().insert(ppn),
    {
        self.recycled.push(ppn);
        assert forall|f: usize| self.free().contains(f) == old(self).free().insert(ppn).contains(f) by {
            if self.recycled@.contains(f) && f != ppn {
                let k = choose|k: int| 0 <= k < self.recycled@.len() && self.recycled@[k] == f;
                assert(old(self).recycled@[k] == f);
            }
            if old(self).recycled@.contains(f) {
                let k = choose|k: int| 0 <= k < old(self).recycled@.len() && old(self).recycled@[k] == f;
                assert(self.recycled@[k] == f);
            }
            if f == ppn {
                assert(self.recycled@[self.recycled@.len() - 1] == ppn);
            }
        }
        assert(self.free() =~= old(self).free().insert(ppn));
    }
}


/// An address space: the entries of its page table, one per mapped page,
/// each owning the physical frame it maps.
pub struct MemorySet {
    token: usize,
    mappings: Vec<Mapping>,
}

impl MemorySet {
    /// The entry for page `vpn`, if it is mapped.
    pub closed spec fn translate_spec(&self, vpn: usize) -> Option<PageTableEntry> {
        lookup(self.mappings@, vpn)
    }

    /// Every entry of the page table is valid, and no page has two.
    pub closed spec fn wf(&self) -> bool {
        &&& forall|i: int| 0 <= i < self.mappings@.len() ==> (#[trigger] self.mappings@[i]).pte.valid()
        &&& unique_pages(self.mappings@)
    }

    /// The entries before `i` say nothing of the page of entry `i`.
    proof fn lemma_prefix_misses(&self, i: int)
        requires
            self.wf(),
            0 <= i < self.mappings@.len(),
        ensures
            lookup(self.mappings@.take(i), self.mappings@[i].vpn).is_none(),
    {
        let p = self.mappings@.take(i);
        lemma_lookup_some(p, self.mappings@[i].vpn);
        if lookup(p, self.mappings@[i].vpn).is_some() {
            let k = choose|k: int| 0 <= k < p.len() && p[k].vpn == self.mappings@[i].vpn;
            assert(self.mappings@[k].vpn == self.mappings@[i].vpn);
        }
    }

    /// Page `vpn` is mapped by a valid entry.
    pub open spec fn mapped(&self, vpn: usize) -> bool {
        self.translate_spec(vpn).is_some() && self.translate_spec(vpn).unwrap().valid()
    }

    pub closed spec fn token_spec(&self) -> usize {
        self.token
    }

    /// The frames this address space holds.
    pub closed spec fn frames_held(&self) -> Set<usize> {
        Set::new(|f: usize| exists|i: int| 0 <= i < self.mappings@.len() && self.mappings@[i].pte.ppn == f)
    }

    /// Number of mapped pages, each holding one frame.
    pub closed spec fn frame_count(&self) -> nat {
        self.mappings@.len()
    }

    /// Number of mapped pages.
    pub fn frame_count_exec(&self) -> (r: usize)
        ensures
            r == self.frame_count(),
    {
        self.mappings.len()
    }

    /// An empty address space identified by `token`.
    pub fn new(token: usize) -> (r: MemorySet)
        ensures
            r.wf(),
            r.token_spec() == token,
            r.frame_count() == 0,
            forall|v: usize| r.translate_spec(v).is_none(),
    {
        MemorySet { token, mappings: Vec::new() }
    }

    /// The token that identifies this address space's page table.
    pub fn token(&self) -> (r: usize)
        ensures
            r == self.token_spec(),
    {
        self.token
    }

    /// Looks up the entry of page `vpn`.
    pub fn translate(&self, vpn: usize) -> (r: Option<PageTableEntry>)
        ensures
            r == self.translate_spec(vpn),
    {
        let mut i = self.mappings.len();
        assert(self.mappings@.take(i as int) =~= self.mappings@);
        while i > 0
            invariant
                i <= self.mappings@.len(),
                lookup(self.mappings@, vpn) == lookup(self.mappings@.take(i as int), vpn),
            decreases i,
        {
            let m = self.mappings[i - 1];
            assert(self.mappings@.take(i as int).drop_last() =~= self.mappings@.take(i - 1));
            if m.vpn == vpn {
                return Some(m.pte);
            }
            i = i - 1;
        }
        None
    }

    /// Whether some page in `start .. end` is mapped.
    pub fn any_mapped(&self, start: usize, end: usize) -> (r: bool)
        requires
            self.wf(),
        ensures
            r == exists|v: usize| start <= v < end && self.mapped(v),
    {
        let mut i: usize = 0;
        while i < self.mappings.len()
            invariant
                self.wf(),
                i <= self.mappings@.len(),
                forall|k: int| 0 <= k < i ==> !(start <= #[trigger] self.mappings@[k].vpn < end),
            decreases self.mappings@.len() - i,
        {
            let v = self.mappings[i].vpn;
            if start <= v && v < end {
                proof {
                    lemma_lookup_some(self.mappings@, v);
                    lemma_lookup_valid(self.mappings@, v);
                    assert(self.mapped(v));
                }
                return true;
            }
            i = i + 1;
        }
        proof {
            assert forall|v: usize| start <= v < end implies !self.mapped(v) by {
                lemma_lookup_some(self.mappings@, v);
            }
        }
        false
    }

    /// Whether every page in `start .. end` is mapped.
    pub fn all_mapped(&self, start: usize, end: usize) -> (r: bool)
        ensures
            r == forall|v: usize| start <= v < end ==> self.mapped(v),
    {
        let mut v = start;
        while v < end
            invariant
                start <= v,
                forall|u: usize| start <= u < v ==> self.mapped(u),
            decreases end - v,
        {
            match self.translate(v) {
                Some(pte) => {
                    if !pte.is_valid() {
                        assert(!self.mapped(v));
                        return false;
                    }
                },
                None => {
                    assert(!self.mapped(v));
                    return false;
                },
            }
            v = v + 1;
        }
        true
    }


    /// Maps every page in `start .. end` to a newly allocated frame with
    /// `flags`. The caller has made sure that none of them is mapped.
    pub fn insert_framed_area(&mut self, frames: &mut FrameAllocator, start: usize, end: usize, flags: u8)
        requires
            old(self).wf(),
            old(frames).wf(),
            flags & PTE_V != 0,
            start <= end,
            end - start <= old(frames).available(),
            forall|v: usize| start <= v < end ==> !old(self).mapped(v),
        ensures
            final(self).wf(),
            final(frames).wf(),
            final(self).token_spec() == old(self).token_spec(),
            final(frames).available() == old(frames).available() - (end - start),
            final(self).frame_count() == old(self).frame_count() + (end - start),
            forall|v: usize| start <= v < end ==> (#[trigger] final(self).translate_spec(v)).is_some()
                && final(self).translate_spec(v).unwrap().flags == flags,
            forall|v: usize| !(start <= v < end) ==> #[trigger] final(self).translate_spec(v)
                == old(self).translate_spec(v),
    {
        let ghost old_maps = self.mappings@;
        let mut v = start;
        while v < end
            invariant
                start <= v <= end,
                frames.wf(),
                self.wf(),
                flags & PTE_V != 0,
                self.token == old(self).token,
                frames.available() == old(frames).available() - (v - start),
                end - start <= old(frames).available(),
                self.mappings@.len() == old_maps.len() + (v - start),
                forall|u: usize| start <= u < v ==> (#[trigger] lookup(self.mappings@, u)).is_some()
                    && lookup(self.mappings@, u).unwrap().flags == flags,
                forall|u: usize| !(start <= u < v) ==> #[trigger] lookup(self.mappings@, u)
                    == lookup(old_maps, u),
                forall|u: usize| start <= u < end ==> !old(self).mapped(u),
                old(self).wf(),
                old_maps == old(self).mappings@,
            decreases end - v,
        {
            let ppn = match frames.alloc_frame() {
                Some(p) => p,
                None => {
                    return;
                },
            };
            let m = Mapping { vpn: v, pte: PageTableEntry { ppn, flags } };
            proof {
                lemma_lookup_valid(old_maps, v);
                assert(!old(self).mapped(v));
                assert(old(self).translate_spec(v) == lookup(old_maps, v));
                assert(lookup(self.mappings@, v) == lookup(old_maps, v));
                lemma_push_unique(self.mappings@, m);
                assert forall|u: usize| #[trigger] lookup(self.mappings@.push(m), u)
                    == if m.vpn == u { Some(m.pte) } else { lookup(self.mappings@, u) } by {
                    lemma_lookup_push(self.mappings@, m, u);
                }
            }
            self.mappings.push(m);
            v = v + 1;
        }
    }

    /// Unmaps every page in `start .. end` and gives its frame back.
    pub fn delete_framed_area(&mut self, frames: &mut FrameAllocator, start: usize, end: usize)
        requires
            old(self).wf(),
            old(frames).wf(),
        ensures
            final(self).wf(),
            final(frames).wf(),
            final(self).token_spec() == old(self).token_spec(),
            final(frames).available() + final(self).frame_count() == old(frames).available()
                + old(self).frame_count(),
            forall|v: usize| start <= v < end ==> (#[trigger] final(self).translate_spec(v)).is_none(),
            forall|v: usize| !(start <= v < end) ==> #[trigger] final(self).translate_spec(v)
                == old(self).translate_spec(v),
    {
        let mut kept: Vec<Mapping> = Vec::new();
        let mut i: usize = 0;
        while i < self.mappings.len()
            invariant
                i <= self.mappings@.len(),
                self.wf(),
                frames.wf(),
                self == old(self),
                frames.available() + kept@.len() == old(frames).available() + i,
                forall|k: int| 0 <= k < kept@.len() ==> (#[trigger] kept@[k]).pte.valid(),
                unique_pages(kept@),
                forall|u: usize| #[trigger] lookup(kept@, u) == if start <= u < end {
                    None
                } else {
                    lookup(self.mappings@.take(i as int), u)
                },
            decreases self.mappings@.len() - i,
        {
            let m = self.mappings[i];
            proof {
                assert(self.mappings@.take(i + 1).drop_last() =~= self.mappings@.take(i as int));
                assert(self.mappings@[i as int].pte.valid());
                assert forall|u: usize| #[trigger] lookup(kept@.push(m), u)
                    == if m.vpn == u { Some(m.pte) } else { lookup(kept@, u) } by {
                    lemma_lookup_push(kept@, m, u);
                }
            }
            if start <= m.vpn && m.vpn < end {
                frames.dealloc_frame(m.pte.ppn);
            } else {
                proof {
                    self.lemma_prefix_misses(i as int);
                    lemma_push_unique(kept@, m);
                }
                kept.push(m);
            }
            i = i + 1;
        }
        assert(self.mappings@.take(i as int) =~= self.mappings@);
        self.mappings = kept;
    }

    /// A copy of this address space under `token`: the same pages with the
    /// same flags, each on a newly allocated frame.
    pub fn duplicate(&self, frames: &mut FrameAllocator, token: usize) -> (r: MemorySet)
        requires
            self.wf(),
            old(frames).wf(),
            self.frame_count() <= old(frames).available(),
        ensures
            r.wf(),
            final(frames).wf(),
            r.token_spec() == token,
            r.frame_count() == self.frame_count(),
            final(frames).available() == old(frames).available() - self.frame_count(),
            forall|v: usize| #[trigger] flags_of(r.translate_spec(v)) == flags_of(self.translate_spec(v)),
            r.frames_held().subset_of(old(frames).free()),
            final(frames).free().subset_of(old(frames).free()),
    {
        let mut copy: Vec<Mapping> = Vec::new();
        let mut i: usize = 0;
        while i < self.mappings.len()
            invariant
                i <= self.mappings@.len(),
                self.wf(),
                frames.wf(),
                copy@.len() == i,
                frames.available() == old(frames).available() - i,
                frames.free().subset_of(old(frames).free()),
                forall|k: int| 0 <= k < copy@.len() ==> old(frames).free().contains(#[trigger] copy@[k].pte.ppn),
                self.mappings@.len() <= old(frames).available(),
                forall|k: int| 0 <= k < copy@.len() ==> (#[trigger] copy@[k]).pte.valid(),
                unique_pages(copy@),
                forall|u: usize| #[trigger] flags_of(lookup(copy@, u))
                    == flags_of(lookup(self.mappings@.take(i as int), u)),
            decreases self.mappings@.len() - i,
        {
            let m = self.mappings[i];
            let ppn = match frames.alloc_frame() {
                Some(p) => p,
                None => {
                    return MemorySet { token, mappings: copy };
                },
            };
            let c = Mapping { vpn: m.vpn, pte: PageTableEntry { ppn, flags: m.pte.flags } };
            proof {
                self.lemma_prefix_misses(i as int);
                assert(flags_of(lookup(copy@, c.vpn)) == flags_of(lookup(self.mappings@.take(i as int), c.vpn)));
                lemma_push_unique(copy@, c);
                assert(self.mappings@.take(i + 1).drop_last() =~= self.mappings@.take(i as int));
                assert(self.mappings@[i as int].pte.valid());
                assert forall|u: usize| #[trigger] flags_of(lookup(copy@.push(c), u))
                    == flags_of(lookup(self.mappings@.take(i + 1), u)) by {
                    lemma_lookup_push(copy@, c, u);
                }
            }
            copy.push(c);
            i = i + 1;
        }
        assert(self.mappings@.take(i as int) =~= self.mappings@);
        let r = MemorySet { token, mappings: copy };
        assert forall|f: usize| r.frames_held().contains(f) implies old(frames).free().contains(f) by {
            let k = choose|k: int| 0 <= k < r.mappings@.len() && r.mappings@[k].pte.ppn == f;
            assert(old(frames).free().contains(copy@[k].pte.ppn));
        }
        r
    }

    /// Unmaps every page and gives all frames back.
    pub fn recycle_data_pages(&mut self, frames: &mut FrameAllocator)
        requires
            old(self).wf(),
            old(frames).wf(),
        ensures
            final(self).wf(),
            final(frames).wf(),
            final(self).token_spec() == old(self).token_spec(),
            final(self).frame_count() == 0,
            final(frames).available() == old(frames).available() + old(self).frame_count(),
            forall|v: usize| (#[trigger] final(self).translate_spec(v)).is_none(),
    {
        let mut i: usize = 0;
        while i < self.mappings.len()
            invariant
                i <= self.mappings@.len(),
                frames.wf(),
                frames.available() == old(frames).available() + i,
            decreases self.mappings@.len() - i,
        {
            frames.dealloc_frame(self.mappings[i].pte.ppn);
            i = i + 1;
        }
        self.mappings = Vec::new();
    }

    /// A new address space under `token` holding the pages of `segs`, or
    /// `None` where the segments are out of order or more frames are needed
    /// than are free.
    pub fn from_segments(frames: &mut FrameAllocator, token: usize, segs: &Vec<Segment>) -> (r: Option<MemorySet>)
        requires
            old(frames).wf(),
        ensures
            final(frames).wf(),
            r.is_some() <==> segs_ordered(segs@) && pages_upto(segs@, segs@.len() as int)
                <= old(frames).available() && pages_upto(segs@, segs@.len() as int) <= usize::MAX,
            r.is_none() ==> *final(frames) == *old(frames),
            r.is_some() ==> {
                let ms = r.unwrap();
                &&& ms.wf()
                &&& ms.token_spec() == token
                &&& ms.frame_count() == pages_upto(segs@, segs@.len() as int)
                &&& final(frames).available() == old(frames).available() - ms.frame_count()
                &&& forall|v: usize| (#[trigger] ms.translate_spec(v)).is_some() <==> in_segs(segs@, segs@.len() as int, v)
                &&& forall|k: int, v: usize| #![trigger segs@[k], ms.translate_spec(v)] 0 <= k < segs@.len() && seg_first(segs@[k]) <= v < seg_last(segs@[k])
                    ==> ms.translate_spec(v).unwrap().flags == seg_flags(segs@[k])
            },
    {
        let n = segs.len();
        let total = match check_segments(segs) {
            Some(t) => t,
            None => {
                return None;
            },
        };
        if !frames.has_frames(total) {
            return None;
        }
        let mut ms = MemorySet::new(token);
        let mut j: usize = 0;
        while j < n
            invariant
                n == segs@.len(),
                j <= n,
                segs_ordered(segs@),
                ms.wf(),
                frames.wf(),
                ms.token_spec() == token,
                total == pages_upto(segs@, n as int),
                total <= old(frames).available(),
                ms.frame_count() == pages_upto(segs@, j as int),
                frames.available() == old(frames).available() - ms.frame_count(),
                forall|v: usize| (#[trigger] ms.translate_spec(v)).is_some() <==> in_segs(segs@, j as int, v),
                forall|k: int, v: usize| #![trigger segs@[k], ms.translate_spec(v)] 0 <= k < j && seg_first(segs@[k]) <= v < seg_last(segs@[k])
                    ==> ms.translate_spec(v).unwrap().flags == seg_flags(segs@[k]),
                forall|v: usize| #[trigger] ms.mapped(v) <==> ms.translate_spec(v).is_some(),
            decreases n - j,
        {
            let g = segs[j];
            let first = floor_vpn(g.start_va);
            let last = ceil_vpn(g.end_va);
            proof {
                assert(segs@[j as int].start_va <= segs@[j as int].end_va);
                assert(first <= last) by (nonlinear_arith)
                    requires first == page_floor(g.start_va as int), last == page_ceil(g.end_va as int),
                        g.start_va <= g.end_va;
                lemma_pages_upto_mono(segs@, j as int + 1, n as int);
                assert forall|v: usize| first <= v < last implies !ms.mapped(v) by {
                    if in_segs(segs@, j as int, v) {
                        let k = choose|k: int| 0 <= k < j && seg_first(#[trigger] segs@[k]) <= v < seg_last(segs@[k]);
                        lemma_segs_apart(segs@, k, j as int);
                    }
                }
            }
            let perm = g.perm;
            let flags = (perm & (PTE_R | PTE_W | PTE_X)) | PTE_V | PTE_U;
            assert(flags & 1u8 != 0) by (bit_vector)
                requires flags == (perm & (2u8 | 4u8 | 8u8)) | 1u8 | 16u8;
            let ghost before = ms;
            ms.insert_framed_area(frames, first, last, flags);
            proof {
                assert forall|v: usize| #[trigger] ms.translate_spec(v).is_some() <==> in_segs(segs@, j + 1, v) by {
                    if first <= v < last {
                        assert(seg_first(segs@[j as int]) <= v < seg_last(segs@[j as int]));
                    } else {
                        assert(before.translate_spec(v) == ms.translate_spec(v));
                        if in_segs(segs@, j + 1, v) {
                            let k = choose|k: int| 0 <= k < j + 1 && seg_first(#[trigger] segs@[k]) <= v < seg_last(segs@[k]);
                            assert(k < j);
                        }
                    }
                }
                assert forall|k: int, v: usize| #![trigger segs@[k], ms.translate_spec(v)] 0 <= k < j + 1 && seg_first(segs@[k]) <= v < seg_last(segs@[k])
                    implies ms.translate_spec(v).unwrap().flags == seg_flags(segs@[k]) by {
                    if k < j {
                        lemma_segs_apart(segs@, k, j as int);
                        assert(before.translate_spec(v) == ms.translate_spec(v));
                        assert(before.translate_spec(v).unwrap().flags == seg_flags(segs@[k]));
                    } else {
                        assert(segs@[k] == g);
                    }
                }
                assert forall|v: usize| #[trigger] ms.mapped(v) <==> ms.translate_spec(v).is_some() by {
                    lemma_lookup_valid(ms.mappings@, v);
                }
            }
            j = j + 1;
        }
        Some(ms)
    }

    /// The physical address behind the `size` bytes at user address `va`,
    /// where they lie in one mapped page. A span that crosses into a second
    /// page gets `None`: its bytes need not be contiguous in physical memory.
    pub fn translate_va(&self, va: usize, size: usize) -> (r: Option<usize>)
        requires
            self.wf(),
        ensures
            r.is_some() <==> {
                &&& size <= PAGE_SIZE - va % PAGE_SIZE
                &&& self.mapped((va / PAGE_SIZE) as usize)
                &&& self.translate_spec((va / PAGE_SIZE) as usize).unwrap().ppn * PAGE_SIZE + va % PAGE_SIZE
                    <= usize::MAX
            },
            r.is_some() ==> r.unwrap() == self.translate_spec((va / PAGE_SIZE) as usize).unwrap().ppn * PAGE_SIZE
                + va % PAGE_SIZE,
    {
        let offset = va % PAGE_SIZE;
        if size > PAGE_SIZE - offset {
            return None;
        }
        match self.translate(va / PAGE_SIZE) {
            Some(pte) => {
                proof {
                    lemma_lookup_valid(self.mappings@, (va / PAGE_SIZE) as usize);
                }
                if pte.ppn > (usize::MAX - offset) / PAGE_SIZE {
                    assert(pte.ppn * PAGE_SIZE + offset > usize::MAX) by (nonlinear_arith)
                        requires pte.ppn > (usize::MAX - offset) / 4096, offset < 4096;
                    return None;
                }
                assert(pte.ppn * PAGE_SIZE + offset <= usize::MAX) by (nonlinear_arith)
                    requires pte.ppn <= (usize::MAX - offset) / 4096, offset < 4096;
                Some(pte.ppn * PAGE_SIZE + offset)
            },
            None => None,
        }
    }

    /// Unmaps the mapped page `vpn` and gives its frame back.
    pub fn unmap_page(&mut self, frames: &mut FrameAllocator, vpn: usize)
        requires
            old(self).wf(),
            old(frames).wf(),
            old(self).mapped(vpn),
        ensures
            final(self).wf(),
            final(frames).wf(),
            final(self).token_spec() == old(self).token_spec(),
            final(frames).available() == old(frames).available() + 1,
            final(self).frame_count() + 1 == old(self).frame_count(),
            final(self).translate_spec(vpn).is_none(),
            forall|v: usize| v != vpn ==> #[trigger] final(self).translate_spec(v) == old(self).translate_spec(v),
    {
        proof {
            lemma_lookup_some(self.mappings@, vpn);
        }
        let mut i: usize = 0;
        while i < self.mappings.len()
            invariant
                *self == *old(self),
                *frames == *old(frames),
                frames.wf(),
                old(self).wf(),
                exists|k: int| i <= k < self.mappings@.len() && self.mappings@[k].vpn == vpn,
            decreases self.mappings@.len() - i,
        {
            if self.mappings[i].vpn == vpn {
                let ghost s = self.mappings@;
                let m = self.mappings.remove(i);
                proof {
                    assert forall|v: usize| #[trigger] lookup(self.mappings@, v) == if v == vpn { None } else { lookup(s, v) } by {
                        lemma_lookup_remove(s, i as int, v);
                    }
                    lemma_lookup_remove(s, i as int, vpn);
                    assert forall|k: int| 0 <= k < self.mappings@.len() implies (#[trigger] self.mappings@[k]).pte.valid() by {
                        let k2 = if k < i { k } else { k + 1 };
                        assert(self.mappings@[k] == s[k2]);
                    }
                }
                frames.dealloc_frame(m.pte.ppn);
                return;
            }
            i = i + 1;
        }
    }
}

} // verus!
