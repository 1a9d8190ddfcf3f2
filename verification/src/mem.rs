//! Address translation and memory-region management.
//!
//! A process's address space is a list of pairwise-disjoint half-open byte
//! ranges `[start, end)` carrying an rwx permission mask, plus a program
//! break and a page table mapping virtual page numbers to physical page
//! frames.  The page-table structure itself belongs to an external
//! collaborator; here it is modelled as the plain data the translation
//! logic reads.

use vstd::prelude::*;

verus! {

/// Size of one virtual-memory page in bytes.
pub const PAGE_SIZE: usize = 4096;

/// Largest physical page number the model accepts; keeps
/// `ppn * PAGE_SIZE + page_offset` within `usize`.
pub const MAX_PPN: usize = 0xF_FFFF;

/// One mapped region `[start, end)` with a permission mask in the low
/// 3 bits (readable / writable / executable).
#[derive(Clone, Copy, PartialEq, Eq, Structural)]
pub struct MemRegion {
    pub start: usize,
    pub end: usize,
    pub perm: usize,
}

/// One page-table entry: virtual page number to physical page number.
#[derive(Clone, Copy, PartialEq, Eq, Structural)]
pub struct PageEntry {
    pub vpn: usize,
    pub ppn: usize,
}

/// The current process's page table, as the translation logic sees it.
pub struct PageTable {
    pub entries: Vec<PageEntry>,
}

/// A process's address space: mapped regions, the heap segment bounds,
/// and the page table.
pub struct AddressSpace {
    pub regions: Vec<MemRegion>,
    pub heap_bottom: usize,
    pub brk: usize,
    pub page_table: PageTable,
}

/// A single region is well formed: non-empty, page-aligned start, and a
/// non-zero permission mask within the low 3 bits.
pub open spec fn region_wf(r: MemRegion) -> bool {
    &&& r.start < r.end
    &&& (r.start as int) % (PAGE_SIZE as int) == 0
    &&& 0 < r.perm <= 7
}

/// Two regions share at least one byte.
pub open spec fn regions_overlap(a: MemRegion, b: MemRegion) -> bool {
    a.start < b.end && b.start < a.end
}

/// The region `[start, end)` overlaps `r`.
pub open spec fn range_overlaps(r: MemRegion, start: int, end: int) -> bool {
    r.start < end && start < r.end
}

/// The region `r` lies entirely inside `[start, end)`.
pub open spec fn range_contains(r: MemRegion, start: int, end: int) -> bool {
    start <= r.start && r.end <= end
}

/// All regions well formed and pairwise disjoint.
pub open spec fn regions_wf(rs: Seq<MemRegion>) -> bool {
    &&& forall|i: int| 0 <= i < rs.len() ==> region_wf(#[trigger] rs[i])
    &&& forall|i: int, j: int|
        0 <= i < rs.len() && 0 <= j < rs.len() && i != j ==> !regions_overlap(
            #[trigger] rs[i],
            #[trigger] rs[j],
        )
}

/// Every physical page number in the table is small enough that a
/// translated address fits in `usize`.
pub open spec fn pt_wf(pt: PageTable) -> bool {
    forall|i: int| 0 <= i < pt.entries@.len() ==> (#[trigger] pt.entries@[i]).ppn <= MAX_PPN
}

/// Largest program break the model accepts; keeps the break
/// representable as a non-negative `isize` on every word size.
pub const BRK_LIMIT: usize = 0x7FFF_FFFF;

/// A well-formed address space: disjoint well-formed regions, the break
/// never below the heap bottom and within [`BRK_LIMIT`], and a
/// well-formed page table.
pub open spec fn space_wf(s: AddressSpace) -> bool {
    &&& regions_wf(s.regions@)
    &&& s.heap_bottom <= s.brk
    &&& s.brk <= BRK_LIMIT
    &&& pt_wf(s.page_table)
}

/// First-match lookup of a virtual page number in the page table.
pub open spec fn pt_lookup(entries: Seq<PageEntry>, vpn: usize) -> Option<usize>
    decreases entries.len(),
{
    if entries.len() == 0 {
        None
    } else if entries[0].vpn == vpn {
        Some(entries[0].ppn)
    } else {
        pt_lookup(entries.skip(1), vpn)
    }
}

/// Look a virtual page number up in the page table.
pub fn translate(pt: &PageTable, vpn: usize) -> (r: Option<usize>)
    ensures
        r == pt_lookup(pt.entries@, vpn),
{
    let n = pt.entries.len();
    let mut i: usize = 0;
    assert(pt.entries@.skip(0) =~= pt.entries@);
    while i < n
        invariant
            i <= n,
            n == pt.entries@.len(),
            pt_lookup(pt.entries@, vpn) == pt_lookup(pt.entries@.skip(i as int), vpn),
        decreases n - i,
    {
        let e = pt.entries[i];
        assert(pt.entries@.skip(i as int)[0] == pt.entries@[i as int]);
        if e.vpn == vpn {
            return Some(e.ppn);
        }
        assert(pt.entries@.skip(i as int).skip(1) =~= pt.entries@.skip(i as int + 1));
        i = i + 1;
    }
    assert(pt.entries@.skip(n as int) =~= Seq::<PageEntry>::empty());
    None
}

/// Install a fresh mapping for `vpn`; it shadows any older entry for the
/// same virtual page.
pub fn map_page(pt: &mut PageTable, vpn: usize, ppn: usize)
    requires
        ppn <= MAX_PPN,
        pt_wf(*old(pt)),
    ensures
        pt_wf(*final(pt)),
        pt_lookup(final(pt).entries@, vpn) == Some(ppn),
        forall|w: usize| w != vpn ==> pt_lookup(final(pt).entries@, w) == pt_lookup(
            old(pt).entries@,
            w,
        ),
{
    pt.entries.insert(0, PageEntry { vpn, ppn });
    assert forall|w: usize| w != vpn implies pt_lookup(pt.entries@, w) == pt_lookup(
        old(pt).entries@,
        w,
    ) by {
        assert(pt.entries@.skip(1) =~= old(pt).entries@);
    }
    assert(pt_lookup(pt.entries@, vpn) == Some(ppn));
}

/// Translate a user virtual address into a kernel-accessible physical
/// address through the current page table.  An unmapped page is a fatal
/// fault in the calling process, so callers must establish the mapping
/// first (check with [`translate`]).
pub fn v_to_p(pt: &PageTable, va: usize) -> (r: usize)
    requires
        pt_wf(*pt),
        pt_lookup(pt.entries@, (va / PAGE_SIZE) as usize).is_some(),
    ensures
        r == pt_lookup(pt.entries@, (va / PAGE_SIZE) as usize).unwrap() * PAGE_SIZE + va % PAGE_SIZE,
{
    let vpn: usize = va / PAGE_SIZE;
    let offset: usize = va % PAGE_SIZE;
    let ppn = match translate(pt, vpn) {
        Some(p) => p,
        None => {
            // unreachable: the precondition guarantees a mapping
            proof {
                assert(false);
            }
            0
        },
    };
    proof {
        lemma_pt_lookup_bound(pt.entries@, vpn);
    }
    ppn * PAGE_SIZE + offset
}

/// The address is a whole number of pages from the start of memory.
pub open spec fn page_aligned(a: int) -> bool {
    a % (PAGE_SIZE as int) == 0
}

/// A permission mask is acceptable: some bit set, none outside the low 3.
pub open spec fn valid_port(port: usize) -> bool {
    0 < port <= 7
}

/// No region of `rs` shares a byte with `[start, end)`.
pub open spec fn range_free(rs: Seq<MemRegion>, start: int, end: int) -> bool {
    forall|i: int| 0 <= i < rs.len() ==> !range_overlaps(#[trigger] rs[i], start, end)
}

/// Every region of `rs` that touches `[start, end)` lies wholly inside it.
pub open spec fn no_partial_overlap(rs: Seq<MemRegion>, start: int, end: int) -> bool {
    forall|i: int|
        0 <= i < rs.len() && range_overlaps(#[trigger] rs[i], start, end) ==> range_contains(
            rs[i],
            start,
            end,
        )
}

/// Total length of the regions of `rs` lying wholly inside `[start, end)`.
pub open spec fn contained_len(rs: Seq<MemRegion>, start: int, end: int) -> int
    decreases rs.len(),
{
    if rs.len() == 0 {
        0
    } else {
        contained_len(rs.drop_last(), start, end) + if range_contains(rs.last(), start, end) {
            rs.last().end - rs.last().start
        } else {
            0
        }
    }
}

/// `[start, end)` is tiled exactly by whole regions of `rs`: no region
/// straddles an edge, and the contained regions fill the whole range.
/// (With the regions pairwise disjoint, their lengths summing to the
/// range's length is the same as covering every byte of it.)
pub open spec fn covers_exactly(rs: Seq<MemRegion>, start: int, end: int) -> bool {
    no_partial_overlap(rs, start, end) && contained_len(rs, start, end) == end - start
}

/// The regions of `rs` that do not lie wholly inside `[start, end)`,
/// in their original order: what `munmap` leaves behind.
pub open spec fn keep_outside(rs: Seq<MemRegion>, start: int, end: int) -> Seq<MemRegion>
    decreases rs.len(),
{
    if rs.len() == 0 {
        Seq::empty()
    } else if range_contains(rs.last(), start, end) {
        keep_outside(rs.drop_last(), start, end)
    } else {
        keep_outside(rs.drop_last(), start, end).push(rs.last())
    }
}

/// A successful lookup returns a page number stored in the table, so it
/// respects the table's bound.
proof fn lemma_pt_lookup_bound(entries: Seq<PageEntry>, vpn: usize)
    requires
        forall|i: int| 0 <= i < entries.len() ==> (#[trigger] entries[i]).ppn <= MAX_PPN,
        pt_lookup(entries, vpn).is_some(),
    ensures
        pt_lookup(entries, vpn).unwrap() <= MAX_PPN,
    decreases entries.len(),
{
    if entries.len() > 0 && entries[0].vpn != vpn {
        assert(forall|i: int|
            0 <= i < entries.skip(1).len() ==> (#[trigger] entries.skip(1)[i]).ppn <= MAX_PPN);
        lemma_pt_lookup_bound(entries.skip(1), vpn);
    }
}

/// Every element kept by `keep_outside` comes from `rs` and is not
/// wholly inside the range.
proof fn lemma_keep_outside_contains(rs: Seq<MemRegion>, start: int, end: int, x: MemRegion)
    requires
        keep_outside(rs, start, end).contains(x),
    ensures
        rs.contains(x),
        !range_contains(x, start, end),
    decreases rs.len(),
{
    if rs.len() > 0 {
        let kept = keep_outside(rs, start, end);
        if !range_contains(rs.last(), start, end) && x == rs.last() {
            assert(rs.contains(x));
        } else {
            if !range_contains(rs.last(), start, end) {
                // x is in the pushed sequence but is not the pushed element
                let prev = keep_outside(rs.drop_last(), start, end);
                let k = choose|k: int| 0 <= k < kept.len() && kept[k] == x;
                assert(k < prev.len());
                assert(prev.contains(x));
            }
            lemma_keep_outside_contains(rs.drop_last(), start, end, x);
            let k = choose|k: int| 0 <= k < rs.drop_last().len() && rs.drop_last()[k] == x;
            assert(rs[k] == x);
        }
    }
}

/// What `munmap` keeps is again a well-formed, pairwise-disjoint set.
proof fn lemma_keep_outside_wf(rs: Seq<MemRegion>, start: int, end: int)
    requires
        regions_wf(rs),
    ensures
        regions_wf(keep_outside(rs, start, end)),
    decreases rs.len(),
{
    if rs.len() > 0 {
        let prev = rs.drop_last();
        assert(regions_wf(prev)) by {
            assert(forall|i: int| 0 <= i < prev.len() ==> prev[i] == rs[i]);
        }
        lemma_keep_outside_wf(prev, start, end);
        if !range_contains(rs.last(), start, end) {
            let kept_prev = keep_outside(prev, start, end);
            let last = rs.last();
            assert forall|i: int| 0 <= i < kept_prev.len() implies !regions_overlap(
                kept_prev[i],
                last,
            ) by {
                assert(kept_prev.contains(kept_prev[i]));
                lemma_keep_outside_contains(prev, start, end, kept_prev[i]);
                let k = choose|k: int| 0 <= k < prev.len() && prev[k] == kept_prev[i];
                assert(rs[k] == kept_prev[i]);
                assert(!regions_overlap(rs[k], rs[rs.len() - 1]));
            }
        }
    }
}

/// A prefix never holds more contained length than the whole sequence.
proof fn lemma_contained_len_mono(rs: Seq<MemRegion>, start: int, end: int, i: int)
    requires
        regions_wf(rs),
        0 <= i <= rs.len(),
    ensures
        contained_len(rs.subrange(0, i), start, end) <= contained_len(rs, start, end),
    decreases rs.len(),
{
    if i == rs.len() {
        assert(rs.subrange(0, i) =~= rs);
    } else {
        let prev = rs.drop_last();
        assert(regions_wf(prev)) by {
            assert(forall|j: int| 0 <= j < prev.len() ==> prev[j] == rs[j]);
        }
        assert(rs.subrange(0, i) =~= prev.subrange(0, i));
        lemma_contained_len_mono(prev, start, end, i);
        assert(region_wf(rs.last()));
    }
}

/// A range free of every region contains none of their length.
proof fn lemma_free_contained_zero(rs: Seq<MemRegion>, start: int, end: int)
    requires
        regions_wf(rs),
        range_free(rs, start, end),
        start < end,
    ensures
        contained_len(rs, start, end) == 0,
    decreases rs.len(),
{
    if rs.len() > 0 {
        let prev = rs.drop_last();
        assert(regions_wf(prev) && range_free(prev, start, end)) by {
            assert(forall|j: int| 0 <= j < prev.len() ==> prev[j] == rs[j]);
        }
        lemma_free_contained_zero(prev, start, end);
        let last = rs.last();
        assert(!range_overlaps(last, start, end));
        assert(region_wf(last));
        // a non-empty region wholly inside a non-empty range overlaps it
        assert(!range_contains(last, start, end));
    }
}

/// The region a successful `mmap(start, len, port)` registers.
pub open spec fn mmap_region(start: usize, len: usize, port: usize) -> MemRegion {
    MemRegion { start, end: (start + len) as usize, perm: port }
}

/// When `mmap` succeeds: acceptable permission bits, and (unless the
/// request is the zero-length no-op) a page-aligned start and a range
/// free of every existing region.
pub open spec fn mmap_ok(s: AddressSpace, start: usize, len: usize, port: usize) -> bool {
    valid_port(port) && (len == 0 || (page_aligned(start as int) && range_free(
        s.regions@,
        start as int,
        start + len,
    )))
}

/// When `munmap` succeeds: a zero-length no-op, or a page-aligned start
/// with the range exactly tiled by whole existing regions.
pub open spec fn munmap_ok(s: AddressSpace, start: usize, len: usize) -> bool {
    len == 0 || (page_aligned(start as int) && covers_exactly(s.regions@, start as int, start + len))
}

/// Register the region `[start, start + len)` with permission mask
/// `port` in the address space.  Returns 0 on success and -1 when the
/// start is unaligned, the permission mask is empty or has bits outside
/// the low 3, or the range overlaps an existing region; a failed request
/// changes nothing.  A zero-length request succeeds without effect.
pub fn space_mmap(s: &mut AddressSpace, start: usize, len: usize, port: usize) -> (r: isize)
    requires
        space_wf(*old(s)),
        start + len <= usize::MAX,
    ensures
        space_wf(*final(s)),
        r == 0 || r == -1,
        (r == 0) <==> mmap_ok(*old(s), start, len, port),
        r == -1 ==> *final(s) == *old(s),
        r == 0 && len == 0 ==> *final(s) == *old(s),
        r == 0 && len > 0 ==> final(s).regions@ == old(s).regions@.push(
            mmap_region(start, len, port),
        ),
        final(s).heap_bottom == old(s).heap_bottom,
        final(s).brk == old(s).brk,
        final(s).page_table == old(s).page_table,
{
    if port == 0 || port > 7 {
        return -1;
    }
    if len == 0 {
        return 0;
    }
    if start % PAGE_SIZE != 0 {
        return -1;
    }
    let end = start + len;
    let n = s.regions.len();
    let mut i: usize = 0;
    while i < n
        invariant
            i <= n,
            n == s.regions@.len(),
            s == old(s),
            space_wf(*s),
            valid_port(port),
            0 < len <= usize::MAX - start,
            start % PAGE_SIZE == 0,
            start as int + len as int == end as int,
            forall|j: int| 0 <= j < i ==> !range_overlaps(
                #[trigger] s.regions@[j],
                start as int,
                end as int,
            ),
        decreases n - i,
    {
        let reg = s.regions[i];
        if reg.start < end && start < reg.end {
            return -1;
        }
        i = i + 1;
    }
    s.regions.push(MemRegion { start, end, perm: port });
    proof {
        let rs = old(s).regions@;
        let nr = mmap_region(start, len, port);
        assert forall|a: int, b: int|
            0 <= a < s.regions@.len() && 0 <= b < s.regions@.len() && a != b implies !regions_overlap(
            #[trigger] s.regions@[a],
            #[trigger] s.regions@[b],
        ) by {
            if a < rs.len() && b < rs.len() {
                assert(!regions_overlap(rs[a], rs[b]));
            } else if a == rs.len() {
                assert(!range_overlaps(rs[b], start as int, end as int));
            } else {
                assert(!range_overlaps(rs[a], start as int, end as int));
            }
        }
    }
    0
}

/// Remove the mapping of `[start, start + len)`.  Returns 0 on success
/// and -1 when the start is unaligned or the range is not tiled exactly
/// by whole currently mapped regions; a failed request changes nothing.
/// A zero-length request succeeds without side effects.
pub fn space_munmap(s: &mut AddressSpace, start: usize, len: usize) -> (r: isize)
    requires
        space_wf(*old(s)),
        start + len <= usize::MAX,
    ensures
        space_wf(*final(s)),
        r == 0 || r == -1,
        (r == 0) <==> munmap_ok(*old(s), start, len),
        r == -1 ==> *final(s) == *old(s),
        r == 0 && len == 0 ==> *final(s) == *old(s),
        r == 0 && len > 0 ==> final(s).regions@ == keep_outside(
            old(s).regions@,
            start as int,
            start + len,
        ),
        r == 0 && len > 0 ==> range_free(final(s).regions@, start as int, start + len),
        final(s).heap_bottom == old(s).heap_bottom,
        final(s).brk == old(s).brk,
        final(s).page_table == old(s).page_table,
{
    if len == 0 {
        return 0;
    }
    if start % PAGE_SIZE != 0 {
        return -1;
    }
    let end = start + len;
    let ghost rs = s.regions@;
    let n = s.regions.len();
    let mut acc: usize = 0;
    let mut i: usize = 0;
    assert(rs.subrange(0, 0) =~= Seq::<MemRegion>::empty());
    while i < n
        invariant
            i <= n,
            n == s.regions@.len(),
            rs == s.regions@,
            space_wf(*s),
            s == old(s),
            start as int + len as int == end as int,
            start % PAGE_SIZE == 0,
            0 < len <= usize::MAX - start,
            no_partial_overlap(rs.subrange(0, i as int), start as int, end as int),
            acc == contained_len(rs.subrange(0, i as int), start as int, end as int),
            acc <= len,
        decreases n - i,
    {
        let reg = s.regions[i];
        proof {
            assert(rs.subrange(0, i + 1).drop_last() =~= rs.subrange(0, i as int));
            assert(rs.subrange(0, i + 1).last() == rs[i as int]);
        }
        if reg.start < end && start < reg.end {
            if start <= reg.start && reg.end <= end {
                let rlen = reg.end - reg.start;
                if rlen > len - acc {
                    proof {
                        lemma_contained_len_mono(rs, start as int, end as int, i + 1);
                    }
                    return -1;
                }
                acc = acc + rlen;
            } else {
                return -1;
            }
        }
        i = i + 1;
    }
    proof {
        assert(rs.subrange(0, n as int) =~= rs);
    }
    if acc != len {
        return -1;
    }
    // the range is tiled exactly: drop every contained region
    let mut kept: Vec<MemRegion> = Vec::new();
    let mut i: usize = 0;
    assert(rs.subrange(0, 0) =~= Seq::<MemRegion>::empty());
    while i < n
        invariant
            i <= n,
            n == s.regions@.len(),
            rs == s.regions@,
            s == old(s),
            start as int + len as int == end as int,
            kept@ == keep_outside(rs.subrange(0, i as int), start as int, end as int),
        decreases n - i,
    {
        let reg = s.regions[i];
        proof {
            assert(rs.subrange(0, i + 1).drop_last() =~= rs.subrange(0, i as int));
            assert(rs.subrange(0, i + 1).last() == rs[i as int]);
        }
        if !(start <= reg.start && reg.end <= end) {
            kept.push(reg);
        }
        i = i + 1;
    }
    proof {
        assert(rs.subrange(0, n as int) =~= rs);
        lemma_keep_outside_wf(rs, start as int, end as int);
        assert forall|j: int| 0 <= j < kept@.len() implies !range_overlaps(
            #[trigger] kept@[j],
            start as int,
            end as int,
        ) by {
            assert(kept@.contains(kept@[j]));
            lemma_keep_outside_contains(rs, start as int, end as int, kept@[j]);
            let k = choose|k: int| 0 <= k < rs.len() && rs[k] == kept@[j];
            assert(range_overlaps(rs[k], start as int, end as int) ==> range_contains(
                rs[k],
                start as int,
                end as int,
            ));
        }
    }
    s.regions = kept;
    0
}

/// When `sbrk` succeeds: the moved break stays between the heap bottom
/// and the model's break limit.
pub open spec fn sbrk_ok(s: AddressSpace, delta: int) -> bool {
    s.heap_bottom <= s.brk + delta <= BRK_LIMIT
}

/// The address space after a successful `sbrk`.
pub open spec fn sbrk_new(s: AddressSpace, delta: int) -> AddressSpace {
    AddressSpace { brk: (s.brk + delta) as usize, ..s }
}

/// Move the program break by `delta` bytes (negative shrinks).  Returns
/// the old break on success; returns -1 and changes nothing when the
/// break would fall below the heap bottom or beyond the break limit.
pub fn space_sbrk(s: &mut AddressSpace, delta: i32) -> (r: isize)
    requires
        space_wf(*old(s)),
    ensures
        space_wf(*final(s)),
        (r == -1) <==> !sbrk_ok(*old(s), delta as int),
        r == -1 ==> *final(s) == *old(s),
        r != -1 ==> r == old(s).brk && *final(s) == sbrk_new(*old(s), delta as int),
{
    let brk_i: i64 = s.brk as i64;
    let new_i: i64 = brk_i + delta as i64;
    if new_i < s.heap_bottom as i64 || new_i > BRK_LIMIT as i64 {
        return -1;
    }
    let old_brk = s.brk;
    s.brk = new_i as usize;
    old_brk as isize
}

/// Law: a mapping request accepted on a well-formed address space can be
/// unmapped again — the freshly registered region tiles its own range
/// exactly, so `munmap` of the same `(start, len)` succeeds.
pub proof fn lemma_mmap_then_munmap(rs: Seq<MemRegion>, start: usize, len: usize, port: usize)
    requires
        regions_wf(rs),
        valid_port(port),
        0 < len,
        start + len <= usize::MAX,
        page_aligned(start as int),
        range_free(rs, start as int, start + len),
    ensures
        covers_exactly(rs.push(mmap_region(start, len, port)), start as int, start + len),
{
    let end = start as int + len as int;
    let nr = mmap_region(start, len, port);
    let pushed = rs.push(nr);
    lemma_free_contained_zero(rs, start as int, end);
    assert(pushed.drop_last() =~= rs);
    assert(pushed.last() == nr);
    assert(range_contains(nr, start as int, end));
    assert(contained_len(pushed, start as int, end) == end - start as int);
    assert forall|i: int|
        0 <= i < pushed.len() && range_overlaps(#[trigger] pushed[i], start as int, end) implies
        range_contains(pushed[i], start as int, end) by {
        if i < rs.len() {
            assert(!range_overlaps(rs[i], start as int, end));
        }
    }
}

/// Law: the break is restored by a pair of opposite moves — after a
/// successful `sbrk(delta)`, an `sbrk(-delta)` also succeeds and yields
/// the original address space again.
pub proof fn lemma_sbrk_roundtrip(s: AddressSpace, delta: int)
    requires
        space_wf(s),
        sbrk_ok(s, delta),
    ensures
        sbrk_ok(sbrk_new(s, delta), -delta),
        sbrk_new(sbrk_new(s, delta), -delta) == s,
{
}

} // verus!
