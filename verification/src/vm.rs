//! A segmented virtual-memory implementation: an address-ordered collection of
//! non-overlapping byte segments with per-segment protection, byte and slice
//! access, overlap-rejecting insertion, and range unmapping that trims or
//! splits the affected segments.

use vstd::prelude::*;

use crate::elf::{models_of, Protection, Segment, SegmentModel};

verus! {

/// The faults an address-space operation can report. All are deterministic
/// functions of the current mapped state and the call's arguments.
#[derive(Debug)]
pub enum Error {
    InsertOverlap { new: usize, overlapping: Vec<usize> },
    SliceOutOfBounds { addr: usize, len: usize },
    Protection { addr: usize, available: Protection, required: Protection },
    UnmappedAddress(usize),
}

/// Well-formedness of the stored segments: every segment is non-empty, lies
/// within the address range, and the sequence is sorted by address with
/// pairwise-disjoint half-open ranges.
pub open spec fn segs_wf(segs: Seq<SegmentModel>) -> bool {
    &&& forall|i: int| 0 <= i < segs.len() ==> (#[trigger] segs[i]).bytes.len() > 0
    &&& forall|i: int|
        0 <= i < segs.len() ==> 0 <= (#[trigger] segs[i]).start && segs[i].end() <= usize::MAX
    &&& forall|i: int, j: int|
        0 <= i < j < segs.len() ==> (#[trigger] segs[i]).end() <= (#[trigger] segs[j]).start
}

/// Whether some stored segment covers `addr`.
pub open spec fn segs_mapped(segs: Seq<SegmentModel>, addr: int) -> bool {
    exists|i: int| 0 <= i < segs.len() && (#[trigger] segs[i]).contains_addr(addr)
}

/// The index of the segment covering `addr`; meaningful only when
/// `segs_mapped` holds (it is then unique, by disjointness).
pub open spec fn seg_index_of(segs: Seq<SegmentModel>, addr: int) -> int {
    choose|i: int| 0 <= i < segs.len() && (#[trigger] segs[i]).contains_addr(addr)
}

/// The byte stored at a mapped address.
pub open spec fn byte_at(segs: Seq<SegmentModel>, addr: int) -> u8 {
    let s = segs[seg_index_of(segs, addr)];
    s.bytes[addr - s.start]
}

/// The `len` bytes stored from a mapped address on, when they lie inside the
/// covering segment.
pub open spec fn bytes_at(segs: Seq<SegmentModel>, addr: int, len: int) -> Seq<u8> {
    let s = segs[seg_index_of(segs, addr)];
    s.bytes.subrange(addr - s.start, addr - s.start + len)
}

/// Whether `[addr, addr + len)` lies entirely within the single segment that
/// covers `addr`. Spanning several segments never counts as in bounds.
pub open spec fn slice_in_bounds(segs: Seq<SegmentModel>, addr: int, len: int) -> bool {
    segs_mapped(segs, addr) && addr + len <= segs[seg_index_of(segs, addr)].end()
}

/// `data` with the range starting at `off` overwritten by `buf`.
pub open spec fn splice_bytes(data: Seq<u8>, off: int, buf: Seq<u8>) -> Seq<u8> {
    data.subrange(0, off) + buf + data.subrange(off + buf.len(), data.len() as int)
}

/// The stored segments after writing `buf` at `addr`: the covering segment's
/// buffer is patched in place and everything else is untouched.
pub open spec fn write_bytes(segs: Seq<SegmentModel>, addr: int, buf: Seq<u8>) -> Seq<
    SegmentModel,
> {
    let idx = seg_index_of(segs, addr);
    let s = segs[idx];
    segs.update(
        idx,
        SegmentModel {
            start: s.start,
            protection: s.protection,
            bytes: splice_bytes(s.bytes, addr - s.start, buf),
        },
    )
}

/// Whether a stored segment's range intersects the candidate range
/// `[new, new + len)`: either the segment extends past `new` from the left,
/// or it begins strictly inside the candidate range.
pub open spec fn overlaps_range(s: SegmentModel, new: int, len: int) -> bool {
    (s.start <= new && new < s.end()) || (new < s.start && s.start < new + len)
}

/// The starts of the segments whose ranges intersect `[new, new + len)`, in
/// storage order (ascending, when the segments are well formed).
pub open spec fn overlapping_starts(segs: Seq<SegmentModel>, new: int, len: int) -> Seq<int>
    decreases segs.len(),
{
    if segs.len() == 0 {
        Seq::empty()
    } else {
        let rest = overlapping_starts(segs.drop_last(), new, len);
        if overlaps_range(segs.last(), new, len) {
            rest.push(segs.last().start)
        } else {
            rest
        }
    }
}

/// A sequence of machine addresses, as mathematical integers.
pub open spec fn as_ints(s: Seq<usize>) -> Seq<int> {
    s.map_values(|x: usize| x as int)
}

/// `segs` with `s` inserted at its place in the address order.
pub open spec fn seq_insert_sorted(segs: Seq<SegmentModel>, s: SegmentModel) -> Seq<SegmentModel>
    decreases segs.len(),
{
    if segs.len() == 0 {
        seq![s]
    } else if s.start < segs[0].start {
        seq![s] + segs
    } else {
        seq![segs[0]] + seq_insert_sorted(segs.drop_first(), s)
    }
}

/// The position a new start address takes in the address order.
pub open spec fn insert_point(segs: Seq<SegmentModel>, start: int) -> int
    decreases segs.len(),
{
    if segs.len() == 0 {
        0
    } else if start < segs[0].start {
        0
    } else {
        1 + insert_point(segs.drop_first(), start)
    }
}

/// Everything before the insertion point starts no later than the new start,
/// everything at or after it strictly later.
proof fn lemma_insert_point(segs: Seq<SegmentModel>, start: int)
    requires
        segs_wf(segs),
    ensures
        ({
            let idx = insert_point(segs, start);
            &&& 0 <= idx <= segs.len()
            &&& forall|j: int| 0 <= j < idx ==> (#[trigger] segs[j]).start <= start
            &&& forall|j: int| idx <= j < segs.len() ==> start < (#[trigger] segs[j]).start
        }),
    decreases segs.len(),
{
    if segs.len() > 0 {
        let t = segs.drop_first();
        assert(forall|i: int| 0 <= i < t.len() ==> t[i] == #[trigger] segs[i + 1]);
        assert(segs_wf(t));
        lemma_insert_point(t, start);
        if start < segs[0].start {
            assert forall|j: int| 0 <= j < segs.len() implies start < (
            #[trigger] segs[j]).start by {
                if j > 0 {
                    assert(segs[0].end() <= segs[j].start);
                    assert(segs[0].bytes.len() > 0);
                }
            }
        } else {
            let idx = insert_point(segs, start);
            assert(idx == 1 + insert_point(t, start));
            assert forall|j: int| 0 <= j < idx implies (#[trigger] segs[j]).start <= start by {
                if j > 0 {
                    assert(t[j - 1].start <= start);
                }
            }
            assert forall|j: int| idx <= j < segs.len() implies start < (
            #[trigger] segs[j]).start by {
                assert(start < t[j - 1].start);
            }
        }
    }
}

/// Insertion adds exactly the new segment's addresses: afterwards an address
/// is mapped iff it was mapped before or the new segment covers it, every
/// old address keeps its byte, and the new range holds the new bytes.
pub proof fn lemma_insert_coverage(segs: Seq<SegmentModel>, s: SegmentModel, addr: int)
    requires
        segs_wf(segs),
        s.bytes.len() > 0,
        0 <= s.start,
        s.end() <= usize::MAX,
        forall|i: int|
            0 <= i < segs.len() ==> !overlaps_range(#[trigger] segs[i], s.start, s.bytes.len() as int),
    ensures
        segs_wf(seq_insert_sorted(segs, s)),
        segs_mapped(seq_insert_sorted(segs, s), addr) <==> (segs_mapped(segs, addr)
            || s.contains_addr(addr)),
        segs_mapped(segs, addr) ==> byte_at(seq_insert_sorted(segs, s), addr) == byte_at(
            segs,
            addr,
        ),
        s.contains_addr(addr) ==> byte_at(seq_insert_sorted(segs, s), addr) == s.bytes[addr
            - s.start],
{
    lemma_insert_point(segs, s.start);
    let idx = insert_point(segs, s.start);
    lemma_insert_sorted_at(segs, s, idx);
    lemma_wf_insert(segs, s, idx);
    let r = segs.insert(idx, s);
    assert(r =~= segs.take(idx) + seq![s] + segs.skip(idx));
    assert(segs =~= segs.take(idx) + segs.skip(idx));
    lemma_mapped_append(segs.take(idx) + seq![s], segs.skip(idx), addr);
    lemma_mapped_append(segs.take(idx), seq![s], addr);
    lemma_mapped_append(segs.take(idx), segs.skip(idx), addr);
    if s.contains_addr(addr) {
        assert(seq![s][0].contains_addr(addr));
        assert(segs_mapped(seq![s], addr));
        assert(r[idx] == s);
        lemma_containing_unique(r, addr, idx);
    }
    if segs_mapped(seq![s], addr) {
        let i = seg_index_of(seq![s], addr);
        assert(seq![s][i].contains_addr(addr));
        assert(s.contains_addr(addr));
    }
    if segs_mapped(segs, addr) {
        let i = seg_index_of(segs, addr);
        assert(segs[i].contains_addr(addr));
        if i < idx {
            assert(r[i] == segs[i]);
            lemma_containing_unique(r, addr, i);
        } else {
            assert(r[i + 1] == segs[i]);
            lemma_containing_unique(r, addr, i + 1);
        }
        assert(segs_mapped(r, addr));
        assert(byte_at(r, addr) == byte_at(segs, addr));
    }
}

/// No segment of `segs` overlaps `[new, new + len)` exactly when the overlap
/// set is empty.
pub proof fn lemma_no_overlap_iff_empty(segs: Seq<SegmentModel>, new: int, len: int)
    ensures
        overlapping_starts(segs, new, len).len() == 0 <==> (forall|i: int|
            0 <= i < segs.len() ==> !overlaps_range(#[trigger] segs[i], new, len)),
    decreases segs.len(),
{
    if segs.len() > 0 {
        lemma_no_overlap_iff_empty(segs.drop_last(), new, len);
        assert(forall|i: int|
            0 <= i < segs.len() - 1 ==> segs.drop_last()[i] == #[trigger] segs[i]);
        assert(segs.last() == segs[segs.len() - 1]);
    }
}

/// Inserting at the position where every earlier segment starts no later and
/// every later one starts strictly later realizes the sorted insertion.
proof fn lemma_insert_sorted_at(segs: Seq<SegmentModel>, s: SegmentModel, idx: int)
    requires
        0 <= idx <= segs.len(),
        forall|j: int| 0 <= j < idx ==> (#[trigger] segs[j]).start <= s.start,
        forall|j: int| idx <= j < segs.len() ==> s.start < (#[trigger] segs[j]).start,
    ensures
        seq_insert_sorted(segs, s) == segs.insert(idx, s),
    decreases segs.len(),
{
    if segs.len() == 0 {
        assert(seq_insert_sorted(segs, s) =~= segs.insert(0, s));
    } else if idx == 0 {
        assert(seq_insert_sorted(segs, s) =~= segs.insert(0, s));
    } else {
        lemma_insert_sorted_at(segs.drop_first(), s, idx - 1);
        assert(seq_insert_sorted(segs, s) =~= segs.insert(idx, s));
    }
}

/// Inserting a segment that overlaps nothing keeps the segments well formed.
proof fn lemma_wf_insert(segs: Seq<SegmentModel>, s: SegmentModel, idx: int)
    requires
        segs_wf(segs),
        s.bytes.len() > 0,
        0 <= s.start,
        s.end() <= usize::MAX,
        forall|i: int| 0 <= i < segs.len() ==> !overlaps_range(#[trigger] segs[i], s.start, s.bytes.len() as int),
        0 <= idx <= segs.len(),
        forall|j: int| 0 <= j < idx ==> (#[trigger] segs[j]).start <= s.start,
        forall|j: int| idx <= j < segs.len() ==> s.start < (#[trigger] segs[j]).start,
    ensures
        segs_wf(segs.insert(idx, s)),
{
    let result = segs.insert(idx, s);
    assert forall|j: int| 0 <= j < idx implies (#[trigger] segs[j]).end() <= s.start by {
        assert(!overlaps_range(segs[j], s.start, s.bytes.len() as int));
    }
    assert forall|j: int| idx <= j < segs.len() implies s.end() <= (#[trigger] segs[j]).start by {
        assert(!overlaps_range(segs[j], s.start, s.bytes.len() as int));
    }
    assert forall|i: int, j: int|
        0 <= i < j < result.len() implies (#[trigger] result[i]).end() <= (
    #[trigger] result[j]).start by {
        if i < idx && j < idx {
            assert(result[i] == segs[i] && result[j] == segs[j]);
        } else if i < idx && j == idx {
            assert(result[i] == segs[i] && result[j] == s);
        } else if i < idx && j > idx {
            assert(result[i] == segs[i] && result[j] == segs[j - 1]);
        } else if i == idx {
            assert(result[i] == s && result[j] == segs[j - 1]);
        } else {
            assert(result[i] == segs[i - 1] && result[j] == segs[j - 1]);
        }
    }
}

/// The pieces a single segment leaves behind when `[del_start, del_start +
/// del_len)` is unmapped: the segment itself when the ranges do not intersect,
/// nothing under full containment, the surviving prefix or suffix under a
/// one-sided overlap, and a head and a tail under a strict interior overlap.
pub open spec fn resolve_segment(s: SegmentModel, del_start: int, del_len: int) -> Seq<
    SegmentModel,
> {
    let del_end = del_start + del_len;
    if !overlaps_range(s, del_start, del_len) {
        seq![s]
    } else if del_start <= s.start && del_end >= s.end() {
        Seq::empty()
    } else if del_start <= s.start || del_end >= s.end() {
        if s.start < del_start {
            seq![seg_prefix(s, del_start)]
        } else {
            seq![seg_suffix(s, del_end)]
        }
    } else {
        seq![seg_prefix(s, del_start), seg_suffix(s, del_end)]
    }
}

/// The head piece `[s.start, cut)` of a segment, with its bytes.
pub open spec fn seg_prefix(s: SegmentModel, cut: int) -> SegmentModel {
    SegmentModel {
        start: s.start,
        protection: s.protection,
        bytes: s.bytes.subrange(0, cut - s.start),
    }
}

/// The tail piece `[cut, s.end())` of a segment, with its bytes.
pub open spec fn seg_suffix(s: SegmentModel, cut: int) -> SegmentModel {
    SegmentModel {
        start: cut,
        protection: s.protection,
        bytes: s.bytes.subrange(cut - s.start, s.bytes.len() as int),
    }
}

/// The stored segments after unmapping `[start, start + len)`: what every
/// segment, in order, leaves behind.
pub open spec fn unmap_seq(segs: Seq<SegmentModel>, start: int, len: int) -> Seq<SegmentModel>
    decreases segs.len(),
{
    if segs.len() == 0 {
        Seq::empty()
    } else {
        resolve_segment(segs[0], start, len) + unmap_seq(segs.drop_first(), start, len)
    }
}

/// Unmapping distributes over concatenation.
proof fn lemma_unmap_seq_append(a: Seq<SegmentModel>, b: Seq<SegmentModel>, start: int, len: int)
    ensures
        unmap_seq(a + b, start, len) == unmap_seq(a, start, len) + unmap_seq(b, start, len),
    decreases a.len(),
{
    if a.len() == 0 {
        assert(a + b =~= b);
        assert(unmap_seq(a, start, len) + unmap_seq(b, start, len) =~= unmap_seq(b, start, len));
    } else {
        assert((a + b).drop_first() =~= a.drop_first() + b);
        assert((a + b)[0] == a[0]);
        lemma_unmap_seq_append(a.drop_first(), b, start, len);
        assert(unmap_seq(a + b, start, len) =~= unmap_seq(a, start, len) + unmap_seq(
            b,
            start,
            len,
        ));
    }
}

/// A no-op unmap: unmapping a range that intersects no stored segment
/// changes nothing (and `unmap` always reports success).
pub proof fn lemma_unmap_seq_no_overlap(segs: Seq<SegmentModel>, start: int, len: int)
    requires
        forall|i: int| 0 <= i < segs.len() ==> !overlaps_range(#[trigger] segs[i], start, len),
    ensures
        unmap_seq(segs, start, len) == segs,
    decreases segs.len(),
{
    if segs.len() > 0 {
        assert(forall|i: int|
            0 <= i < segs.len() - 1 ==> segs.drop_first()[i] == #[trigger] segs[i + 1]);
        lemma_unmap_seq_no_overlap(segs.drop_first(), start, len);
        assert(unmap_seq(segs, start, len) =~= segs);
    }
}

/// Unmapping a range that wholly contains every segment removes them all.
proof fn lemma_unmap_seq_contained(segs: Seq<SegmentModel>, start: int, len: int)
    requires
        forall|i: int|
            0 <= i < segs.len() ==> (#[trigger] segs[i]).bytes.len() > 0 && start <= segs[i].start
                && segs[i].end() <= start + len,
    ensures
        unmap_seq(segs, start, len) == Seq::<SegmentModel>::empty(),
    decreases segs.len(),
{
    if segs.len() > 0 {
        assert(forall|i: int|
            0 <= i < segs.len() - 1 ==> segs.drop_first()[i] == #[trigger] segs[i + 1]);
        lemma_unmap_seq_contained(segs.drop_first(), start, len);
        assert(overlaps_range(segs[0], start, len));
        assert(unmap_seq(segs, start, len) =~= Seq::<SegmentModel>::empty());
    }
}

/// What a single overlapping segment leaves behind is non-empty segments that
/// lie within the original's range, in ascending disjoint order.
proof fn lemma_resolve_bounds(s: SegmentModel, del_start: int, del_len: int)
    requires
        s.bytes.len() > 0,
        0 <= del_len,
    ensures
        ({
            let r = resolve_segment(s, del_start, del_len);
            &&& forall|k: int|
                0 <= k < r.len() ==> (#[trigger] r[k]).bytes.len() > 0 && s.start <= r[k].start
                    && r[k].end() <= s.end()
            &&& forall|k: int, l: int| 0 <= k < l < r.len() ==> (#[trigger] r[k]).end() <= (#[trigger] r[l]).start
        }),
{
}

/// Unmapping preserves well-formedness, and every resulting segment lies
/// within the address span of the originals.
proof fn lemma_unmap_seq_wf(segs: Seq<SegmentModel>, start: int, len: int)
    requires
        segs_wf(segs),
        0 <= len,
    ensures
        ({
            let r = unmap_seq(segs, start, len);
            &&& segs_wf(r)
            &&& forall|k: int|
                0 <= k < r.len() ==> segs.len() > 0 && segs[0].start <= (#[trigger] r[k]).start
                    && r[k].end() <= segs.last().end()
        }),
    decreases segs.len(),
{
    if segs.len() > 0 {
        let head = segs[0];
        let tail = segs.drop_first();
        let hr = resolve_segment(head, start, len);
        let tr = unmap_seq(tail, start, len);
        let r = unmap_seq(segs, start, len);
        assert(forall|i: int| 0 <= i < tail.len() ==> tail[i] == #[trigger] segs[i + 1]);
        assert(segs_wf(tail));
        lemma_unmap_seq_wf(tail, start, len);
        lemma_resolve_bounds(head, start, len);
        assert(r == hr + tr);
        if tail.len() > 0 {
            assert(head.end() <= tail[0].start);
            assert(segs.last() == tail.last());
        } else {
            assert(tr.len() == 0);
            assert(segs.last() == head);
        }
        assert forall|k: int, l: int|
            0 <= k < l < r.len() implies (#[trigger] r[k]).end() <= (#[trigger] r[l]).start by {
            if l < hr.len() {
                assert(r[k] == hr[k] && r[l] == hr[l]);
            } else if k >= hr.len() {
                assert(r[k] == tr[k - hr.len()] && r[l] == tr[l - hr.len()]);
            } else {
                assert(r[k] == hr[k] && r[l] == tr[l - hr.len()]);
                assert(hr[k].end() <= head.end());
                assert(tail[0].start <= tr[l - hr.len()].start);
            }
        }
        assert(segs_wf(r));
    }
}

/// When the segments overlapping `[a, a + l)` are exactly those at indices
/// `[lo, hi)`, unmapping resolves the first and the last of them and removes
/// the ones strictly between; everything else is untouched.
proof fn lemma_unmap_decompose(segs: Seq<SegmentModel>, a: int, l: int, lo: int, hi: int)
    requires
        segs_wf(segs),
        0 <= l,
        0 <= lo < hi <= segs.len(),
        forall|j: int| 0 <= j < lo ==> !overlaps_range(#[trigger] segs[j], a, l),
        forall|j: int| lo <= j < hi ==> overlaps_range(#[trigger] segs[j], a, l),
        forall|j: int| hi <= j < segs.len() ==> !overlaps_range(#[trigger] segs[j], a, l),
    ensures
        hi - lo == 1 ==> unmap_seq(segs, a, l) == segs.take(lo) + resolve_segment(segs[lo], a, l)
            + segs.skip(hi),
        hi - lo >= 2 ==> unmap_seq(segs, a, l) == segs.take(lo) + resolve_segment(segs[lo], a, l)
            + resolve_segment(segs[hi - 1], a, l) + segs.skip(hi),
{
    let before = segs.take(lo);
    let after = segs.skip(hi);
    let first = segs.subrange(lo, lo + 1);
    assert(unmap_seq(Seq::<SegmentModel>::empty(), a, l) == Seq::<SegmentModel>::empty());
    assert(first.drop_first() =~= Seq::<SegmentModel>::empty());
    assert(first[0] == segs[lo]);
    assert(unmap_seq(first, a, l) =~= resolve_segment(segs[lo], a, l));
    lemma_unmap_seq_no_overlap(before, a, l);
    lemma_unmap_seq_no_overlap(after, a, l);
    if hi - lo == 1 {
        assert(segs =~= before + first + after);
        lemma_unmap_seq_append(before + first, after, a, l);
        lemma_unmap_seq_append(before, first, a, l);
        assert(unmap_seq(segs, a, l) =~= before + resolve_segment(segs[lo], a, l) + after);
    } else {
        let middle = segs.subrange(lo + 1, hi - 1);
        let last_part = segs.subrange(hi - 1, hi);
        assert(last_part.drop_first() =~= Seq::<SegmentModel>::empty());
        assert(last_part[0] == segs[hi - 1]);
        assert(unmap_seq(last_part, a, l) =~= resolve_segment(segs[hi - 1], a, l));
        assert forall|j: int|
            0 <= j < middle.len() implies (#[trigger] middle[j]).bytes.len() > 0 && a
            <= middle[j].start && middle[j].end() <= a + l by {
            let k = j + lo + 1;
            assert(middle[j] == segs[k]);
            assert(overlaps_range(segs[k], a, l));
            // every overlapping segment after the first starts past `a`
            if segs[k].start <= a {
                assert(segs[lo].end() <= segs[k].start);
                assert(!overlaps_range(segs[lo], a, l));
            }
            // and ends no later than the last overlapping segment begins
            assert(segs[k].end() <= segs[hi - 1].start);
            if segs[hi - 1].start <= a {
                assert(segs[lo].end() <= segs[hi - 1].start);
                assert(!overlaps_range(segs[lo], a, l));
            }
            assert(segs[hi - 1].start < a + l);
        }
        lemma_unmap_seq_contained(middle, a, l);
        assert(segs =~= before + first + middle + last_part + after);
        lemma_unmap_seq_append(before + first + middle + last_part, after, a, l);
        lemma_unmap_seq_append(before + first + middle, last_part, a, l);
        lemma_unmap_seq_append(before + first, middle, a, l);
        lemma_unmap_seq_append(before, first, a, l);
        assert(unmap_seq(segs, a, l) =~= before + resolve_segment(segs[lo], a, l)
            + resolve_segment(segs[hi - 1], a, l) + after);
    }
}

/// An address is covered by a concatenation iff one of the parts covers it.
proof fn lemma_mapped_append(a: Seq<SegmentModel>, b: Seq<SegmentModel>, addr: int)
    ensures
        segs_mapped(a + b, addr) <==> segs_mapped(a, addr) || segs_mapped(b, addr),
{
    let c = a + b;
    if segs_mapped(a, addr) {
        let i = seg_index_of(a, addr);
        assert(c[i] == a[i]);
        assert(c[i].contains_addr(addr));
    }
    if segs_mapped(b, addr) {
        let i = seg_index_of(b, addr);
        assert(c[i + a.len()] == b[i]);
        assert(c[i + a.len()].contains_addr(addr));
    }
    if segs_mapped(c, addr) {
        let i = seg_index_of(c, addr);
        if i < a.len() {
            assert(a[i].contains_addr(addr));
        } else {
            assert(b[i - a.len()].contains_addr(addr));
        }
    }
}

/// What one segment leaves behind covers exactly its addresses outside the
/// deletion range, and every surviving address keeps its byte.
proof fn lemma_resolve_coverage(s: SegmentModel, del_start: int, del_len: int, addr: int)
    requires
        s.bytes.len() > 0,
        0 <= del_len,
    ensures
        ({
            let r = resolve_segment(s, del_start, del_len);
            &&& (segs_mapped(r, addr) <==> (s.contains_addr(addr) && !(del_start <= addr
                < del_start + del_len)))
            &&& forall|i: int|
                0 <= i < r.len() && (#[trigger] r[i]).contains_addr(addr) ==> r[i].bytes[addr
                    - r[i].start] == s.bytes[addr - s.start]
        }),
{
    lemma_resolve_bounds(s, del_start, del_len);
    let r = resolve_segment(s, del_start, del_len);
    let del_end = del_start + del_len;
    if s.contains_addr(addr) && !(del_start <= addr < del_end) {
        if !overlaps_range(s, del_start, del_len) {
            assert(r[0].contains_addr(addr));
        } else if del_start <= s.start && del_end >= s.end() {
            assert(del_start <= addr < del_end);
        } else if del_start <= s.start || del_end >= s.end() {
            if s.start < del_start {
                assert(addr < del_start);
                assert(r[0].contains_addr(addr));
            } else {
                assert(addr >= del_end);
                assert(r[0].contains_addr(addr));
            }
        } else {
            if addr < del_start {
                assert(r[0].contains_addr(addr));
            } else {
                assert(r[1].contains_addr(addr));
            }
        }
        assert(segs_mapped(r, addr));
    }
    if segs_mapped(r, addr) {
        let i = seg_index_of(r, addr);
        assert(r[i].contains_addr(addr));
        assert(s.start <= r[i].start && r[i].end() <= s.end());
        assert(s.contains_addr(addr));
    }
}

/// Unmapping removes exactly the requested range: an address is mapped
/// afterwards iff it was mapped before and lies outside `[start, start +
/// len)`, and every address mapped afterwards keeps its byte.
pub proof fn lemma_unmap_coverage(segs: Seq<SegmentModel>, start: int, len: int, addr: int)
    requires
        segs_wf(segs),
        0 <= len,
    ensures
        segs_mapped(unmap_seq(segs, start, len), addr) <==> (segs_mapped(segs, addr) && !(start
            <= addr < start + len)),
        segs_mapped(unmap_seq(segs, start, len), addr) ==> byte_at(
            unmap_seq(segs, start, len),
            addr,
        ) == byte_at(segs, addr),
    decreases segs.len(),
{
    lemma_unmap_seq_wf(segs, start, len);
    if segs.len() > 0 {
        let h = segs[0];
        let t = segs.drop_first();
        let hr = resolve_segment(h, start, len);
        let tr = unmap_seq(t, start, len);
        let r = unmap_seq(segs, start, len);
        assert(forall|i: int| 0 <= i < t.len() ==> t[i] == #[trigger] segs[i + 1]);
        assert(segs_wf(t));
        lemma_unmap_coverage(t, start, len, addr);
        lemma_unmap_seq_wf(t, start, len);
        lemma_resolve_coverage(h, start, len, addr);
        lemma_mapped_append(hr, tr, addr);
        assert(r == hr + tr);

        // an address of the originals is in the head segment or in the tail
        if segs_mapped(segs, addr) {
            let i = seg_index_of(segs, addr);
            if i > 0 {
                assert(t[i - 1].contains_addr(addr));
                assert(segs_mapped(t, addr));
            }
        }
        if segs_mapped(t, addr) {
            let i = seg_index_of(t, addr);
            assert(segs[i + 1].contains_addr(addr));
            assert(segs_mapped(segs, addr));
        }
        assert(segs_mapped(segs, addr) <==> h.contains_addr(addr) || segs_mapped(t, addr));

        if segs_mapped(r, addr) {
            if segs_mapped(hr, addr) {
                // the surviving piece carries the head segment's byte
                let i = seg_index_of(hr, addr);
                assert(hr[i].contains_addr(addr));
                assert(r[i] == hr[i]);
                lemma_containing_unique(r, addr, i);
                assert(byte_at(r, addr) == hr[i].bytes[addr - hr[i].start]);
                lemma_containing_unique(segs, addr, 0);
                assert(byte_at(segs, addr) == h.bytes[addr - h.start]);
            } else {
                // the surviving piece sits in the unmapped tail
                let j = seg_index_of(tr, addr);
                assert(tr[j].contains_addr(addr));
                assert(r[j + hr.len()] == tr[j]);
                lemma_containing_unique(r, addr, j + hr.len());
                lemma_containing_unique(tr, addr, j);
                assert(byte_at(r, addr) == byte_at(tr, addr));
                let i = seg_index_of(t, addr);
                assert(t[i].contains_addr(addr));
                assert(segs[i + 1] == t[i]);
                lemma_containing_unique(segs, addr, i + 1);
                lemma_containing_unique(t, addr, i);
                assert(byte_at(segs, addr) == byte_at(t, addr));
            }
        }
    }
}

/// The overlapping segments of a well-formed sequence are contiguous in
/// storage order.
proof fn lemma_overlap_contiguous(
    segs: Seq<SegmentModel>,
    new: int,
    len: int,
    i: int,
    k: int,
    j: int,
)
    requires
        segs_wf(segs),
        0 <= i <= k <= j < segs.len(),
        overlaps_range(segs[i], new, len),
        overlaps_range(segs[j], new, len),
    ensures
        overlaps_range(segs[k], new, len),
{
    if i < k && k < j {
        // every overlapping segment after the first starts past `new`
        if segs[j].start <= new {
            assert(segs[i].end() <= segs[j].start);
            assert(!overlaps_range(segs[i], new, len));
        }
        assert(new < segs[j].start && segs[j].start < new + len);
        if segs[i].start <= new {
            assert(new < segs[i].end());
            assert(segs[i].end() <= segs[k].start);
        } else {
            assert(segs[i].start <= segs[k].start);
        }
        assert(new < segs[k].start);
        assert(segs[k].end() <= segs[j].start);
        assert(segs[k].start < segs[k].end());
    }
}

/// Whether the `k`-th input segment would be accepted by `insert` into the
/// structure built from the inputs before it: it is empty, or overlaps
/// nothing built so far.
pub open spec fn step_ok(inputs: Seq<SegmentModel>, k: int) -> bool {
    let s = inputs[k];
    s.bytes.len() == 0 || overlapping_starts(
        built_prefix(inputs, k),
        s.start,
        s.bytes.len() as int,
    ).len() == 0
}

/// The address space built by inserting the first `k` inputs in order,
/// meaningful while every step up to `k` is accepted.
pub open spec fn built_prefix(inputs: Seq<SegmentModel>, k: int) -> Seq<SegmentModel>
    decreases k,
{
    if k <= 0 {
        Seq::empty()
    } else {
        let prev = built_prefix(inputs, k - 1);
        let s = inputs[k - 1];
        if s.bytes.len() == 0 {
            prev
        } else {
            seq_insert_sorted(prev, s)
        }
    }
}

/// Whether every one of the first `k` inputs is accepted in turn.
pub open spec fn prefix_ok(inputs: Seq<SegmentModel>, k: int) -> bool
    decreases k,
{
    k <= 0 || (prefix_ok(inputs, k - 1) && step_ok(inputs, k - 1))
}

/// The index of the first input that bulk construction rejects.
pub open spec fn first_conflict(inputs: Seq<SegmentModel>) -> int {
    choose|j: int| 0 <= j < inputs.len() && prefix_ok(inputs, j) && !step_ok(inputs, j)
}

/// Every step strictly before an accepted prefix is itself accepted.
proof fn lemma_prefix_ok_steps(inputs: Seq<SegmentModel>, k: int, m: int)
    requires
        prefix_ok(inputs, k),
        0 <= m < k,
    ensures
        step_ok(inputs, m),
        prefix_ok(inputs, m),
    decreases k,
{
    if m < k - 1 {
        lemma_prefix_ok_steps(inputs, k - 1, m);
    }
}

/// The capability set a read access requires.
pub open spec fn read_required() -> Protection {
    Protection { r: true, w: false, x: false }
}

/// The capability set a write access requires.
pub open spec fn write_required() -> Protection {
    Protection { r: false, w: true, x: false }
}

/// At most one segment of a well-formed sequence covers a given address.
pub proof fn lemma_containing_unique(segs: Seq<SegmentModel>, addr: int, i: int)
    requires
        segs_wf(segs),
        0 <= i < segs.len(),
        segs[i].contains_addr(addr),
    ensures
        segs_mapped(segs, addr),
        seg_index_of(segs, addr) == i,
{
    assert(segs_mapped(segs, addr));
    let j = seg_index_of(segs, addr);
    if j < i {
        assert(segs[j].end() <= segs[i].start);
    }
    if i < j {
        assert(segs[i].end() <= segs[j].start);
    }
}

/// Updating one segment in place, keeping its start and its extent, preserves
/// well-formedness.
proof fn lemma_wf_update_same_shape(segs: Seq<SegmentModel>, idx: int, s: SegmentModel)
    requires
        segs_wf(segs),
        0 <= idx < segs.len(),
        s.start == segs[idx].start,
        s.bytes.len() == segs[idx].bytes.len(),
    ensures
        segs_wf(segs.update(idx, s)),
{
}

/// Copy `len` bytes out of `data` starting at `off`.
fn read_range(data: &Vec<u8>, off: usize, len: usize) -> (r: Vec<u8>)
    requires
        off + len <= data@.len(),
    ensures
        r@ == data@.subrange(off as int, off + len),
{
    let n = data.len();
    let mut out: Vec<u8> = Vec::new();
    let mut k: usize = 0;
    while k < len
        invariant
            k <= len,
            off + len <= n,
            n == data@.len(),
            out@ == data@.subrange(off as int, off + k),
        decreases len - k,
    {
        out.push(data[off + k]);
        proof {
            assert(out@ =~= data@.subrange(off as int, off + k + 1));
        }
        k = k + 1;
    }
    out
}

/// Overwrite the bytes of `data` from `off` on with `buf`, in place.
fn overwrite(data: &mut Vec<u8>, off: usize, buf: &[u8])
    requires
        off + buf@.len() <= old(data)@.len(),
    ensures
        final(data)@ == splice_bytes(old(data)@, off as int, buf@),
{
    let ghost orig: Seq<u8> = data@;
    let n = data.len();
    let len = buf.len();
    let mut k: usize = 0;
    while k < len
        invariant
            k <= len,
            len == buf@.len(),
            off + len <= n,
            n == orig.len(),
            data@.len() == orig.len(),
            data@ == splice_bytes(orig, off as int, buf@.subrange(0, k as int)),
        decreases len - k,
    {
        data.set(off + k, buf[k]);
        proof {
            assert(data@ =~= splice_bytes(orig, off as int, buf@.subrange(0, k + 1)));
        }
        k = k + 1;
    }
    proof {
        assert(buf@.subrange(0, len as int) =~= buf@);
    }
}

/// Whether a stored segment's range intersects `[new, new + len)`.
fn seg_overlaps(s: &Segment, new: usize, len: usize) -> (r: bool)
    requires
        s@.end() <= usize::MAX,
    ensures
        r == overlaps_range(s@, new as int, len as int),
{
    let s_end = s.start + s.data.len();
    (s.start <= new && new < s_end) || (new < s.start && s.start - new < len)
}

/// Non-overlap: in a well-formed address space no address lies in two
/// distinct stored segments.
pub proof fn lemma_segments_disjoint(segs: Seq<SegmentModel>, i: int, j: int, addr: int)
    requires
        segs_wf(segs),
        0 <= i < segs.len(),
        0 <= j < segs.len(),
        i != j,
        segs[i].contains_addr(addr),
    ensures
        !segs[j].contains_addr(addr),
{
    if i < j {
        assert(segs[i].end() <= segs[j].start);
    } else {
        assert(segs[j].end() <= segs[i].start);
    }
}

/// The overlap list is strictly ascending, and every entry is the start of a
/// stored segment.
pub proof fn lemma_overlapping_starts_sorted(segs: Seq<SegmentModel>, new: int, len: int)
    requires
        segs_wf(segs),
    ensures
        ({
            let r = overlapping_starts(segs, new, len);
            &&& forall|p: int, q: int| 0 <= p < q < r.len() ==> r[p] < r[q]
            &&& forall|p: int|
                0 <= p < r.len() ==> exists|i: int|
                    0 <= i < segs.len() && #[trigger] r[p] == (#[trigger] segs[i]).start
        }),
    decreases segs.len(),
{
    if segs.len() > 0 {
        let dl = segs.drop_last();
        assert(forall|i: int| 0 <= i < dl.len() ==> dl[i] == #[trigger] segs[i]);
        assert(segs_wf(dl));
        lemma_overlapping_starts_sorted(dl, new, len);
        let rest = overlapping_starts(dl, new, len);
        let r = overlapping_starts(segs, new, len);
        assert forall|p: int| 0 <= p < r.len() implies exists|i: int|
            0 <= i < segs.len() && #[trigger] r[p] == (#[trigger] segs[i]).start by {
            if p < rest.len() {
                let i = choose|i: int| 0 <= i < dl.len() && rest[p] == (#[trigger] dl[i]).start;
                assert(r[p] == segs[i].start);
            } else {
                assert(r[p] == (segs[segs.len() - 1]).start);
            }
        }
        assert forall|p: int, q: int| 0 <= p < q < r.len() implies r[p] < r[q] by {
            if q < rest.len() {
                assert(r[p] == rest[p] && r[q] == rest[q]);
            } else {
                // the last entry comes from the last segment, past every other
                let i = choose|i: int| 0 <= i < dl.len() && rest[p] == (#[trigger] dl[i]).start;
                assert(segs[i].end() <= segs.last().start);
                assert(segs[i].bytes.len() > 0);
            }
        }
    }
}

/// Read/write round trip: after writing `buf` at a mapped address whose range
/// lies inside the covering segment, reading the same range back returns
/// exactly `buf`, and the address space stays well formed.
pub proof fn lemma_write_read_round_trip(segs: Seq<SegmentModel>, addr: int, buf: Seq<u8>)
    requires
        segs_wf(segs),
        slice_in_bounds(segs, addr, buf.len() as int),
    ensures
        segs_wf(write_bytes(segs, addr, buf)),
        slice_in_bounds(write_bytes(segs, addr, buf), addr, buf.len() as int),
        bytes_at(write_bytes(segs, addr, buf), addr, buf.len() as int) == buf,
{
    let i = seg_index_of(segs, addr);
    let s = segs[i];
    assert(0 <= i < segs.len() && s.contains_addr(addr));
    let off = addr - s.start;
    let w = write_bytes(segs, addr, buf);
    let s2 = w[i];
    assert(splice_bytes(s.bytes, off, buf).len() == s.bytes.len());
    lemma_wf_update_same_shape(segs, i, s2);
    assert(s2.contains_addr(addr));
    lemma_containing_unique(w, addr, i);
    assert(bytes_at(w, addr, buf.len() as int) =~= buf);
}

/// A segmented virtual memory: the exclusive owner of a set of disjoint
/// segments, kept sorted by start address.
#[derive(Debug)]
pub struct VirtualMemory {
    segments: Vec<Segment>,
}

impl View for VirtualMemory {
    type V = Seq<SegmentModel>;

    closed spec fn view(&self) -> Seq<SegmentModel> {
        self.segments@.map_values(|s: Segment| s@)
    }
}

impl Default for VirtualMemory {
    /// An address space with nothing mapped.
    fn default() -> (r: Self)
        ensures
            r@.len() == 0,
            r.wf(),
    {
        VirtualMemory { segments: Vec::new() }
    }
}

impl VirtualMemory {
    /// The non-overlap invariant; it holds after every public operation.
    pub open spec fn wf(&self) -> bool {
        segs_wf(self@)
    }

    /// Bulk construction: insert every given segment, in the given order, via
    /// `insert`. The first rejected segment aborts construction with its
    /// overlap error; there is no rollback, but the partial structure is
    /// discarded with this constructor.
    pub fn try_from_iter(segments: Vec<Segment>) -> (r: Result<VirtualMemory, Error>)
        requires
            forall|i: int|
                0 <= i < segments@.len() ==> (#[trigger] segments@[i])@.end() <= usize::MAX,
        ensures
            ({
                let models = models_of(segments@);
                let n = models.len() as int;
                if prefix_ok(models, n) {
                    r matches Ok(vm) && vm.wf() && vm@ == built_prefix(models, n)
                } else {
                    let j = first_conflict(models);
                    &&& 0 <= j < n
                    &&& prefix_ok(models, j)
                    &&& !step_ok(models, j)
                    &&& r matches Err(Error::InsertOverlap { new, overlapping })
                        && new == models[j].start
                        && as_ints(overlapping@) == overlapping_starts(
                        built_prefix(models, j),
                        models[j].start,
                        models[j].bytes.len() as int,
                    )
                }
            }),
    {
        let ghost models = models_of(segments@);
        let mut vm = VirtualMemory::default();
        let mut rest = segments;
        let n = rest.len();
        let mut k: usize = 0;
        while k < n
            invariant
                models == models_of(segments@),
                n == models.len(),
                k <= n,
                models_of(rest@) == models.skip(k as int),
                forall|i: int| 0 <= i < models.len() ==> (#[trigger] models[i]).end() <= usize::MAX,
                prefix_ok(models, k as int),
                vm.wf(),
                vm@ == built_prefix(models, k as int),
            decreases n - k,
        {
            proof {
                assert(rest@.len() == models.skip(k as int).len());
                assert(rest@[0]@ == models.skip(k as int)[0]);
            }
            let ghost prev_rest = rest@;
            let seg = rest.remove(0);
            proof {
                assert(seg@ == models[k as int]);
                assert forall|i: int| 0 <= i < rest@.len() implies (#[trigger] models_of(rest@)[i])
                    == models.skip(k + 1)[i] by {
                    assert(rest@[i] == prev_rest[i + 1]);
                    assert(models_of(prev_rest)[i + 1] == prev_rest[i + 1]@);
                }
                assert(models_of(rest@) =~= models.skip(k + 1));
                assert(models[k as int].end() <= usize::MAX);
            }
            match vm.insert(seg) {
                Ok(()) => {},
                Err(e) => {
                    proof {
                        assert(!step_ok(models, k as int));
                        if prefix_ok(models, n as int) {
                            lemma_prefix_ok_steps(models, n as int, k as int);
                        }
                        assert(exists|j: int|
                            0 <= j < models.len() && prefix_ok(models, j) && !step_ok(models, j))
                            by {
                            assert(prefix_ok(models, k as int) && !step_ok(models, k as int));
                        }
                        let j = first_conflict(models);
                        assert(0 <= j < n && prefix_ok(models, j) && !step_ok(models, j));
                        if j < k {
                            lemma_prefix_ok_steps(models, k as int, j);
                        }
                        if j > k {
                            lemma_prefix_ok_steps(models, j, k as int);
                        }
                        assert(j == k as int);
                    }
                    return Err(e);
                },
            }
            proof {
                assert(prefix_ok(models, k + 1));
            }
            k = k + 1;
        }
        Ok(vm)
    }

    /// Succeeds iff every capability in `required` is available; the error
    /// carries the faulting address and both capability sets.
    fn check_protection(addr: usize, available: Protection, required: Protection) -> (r: Result<
        (),
        Error,
    >)
        ensures
            r is Ok <==> available.permits(required),
            !available.permits(required) ==> r == Err::<(), Error>(
                Error::Protection { addr, available, required },
            ),
    {
        if (!required.r || available.r) && (!required.w || available.w) && (!required.x
            || available.x) {
            Ok(())
        } else {
            Err(Error::Protection { addr, available, required })
        }
    }

    /// The index of the segment containing `addr`, if any: a binary search
    /// for the last segment starting at or before `addr`, then a containment
    /// check against its extent.
    fn seg_index(&self, addr: usize) -> (r: Option<usize>)
        requires
            self.wf(),
        ensures
            match r {
                Some(i) => 0 <= i < self@.len() && self@[i as int].contains_addr(addr as int),
                None => !segs_mapped(self@, addr as int),
            },
    {
        let n = self.segments.len();
        if n == 0 {
            return None;
        }
        if self.segments[0].start > addr {
            proof {
                assert forall|j: int| 0 <= j < n implies !(#[trigger] self@[j]).contains_addr(
                    addr as int,
                ) by {
                    if j > 0 {
                        assert(self@[0].end() <= self@[j].start);
                        assert(self@[0].bytes.len() > 0);
                    }
                }
            }
            return None;
        }
        let mut lo: usize = 0;
        let mut hi: usize = n;
        while hi - lo > 1
            invariant
                self.wf(),
                n == self@.len(),
                lo < hi <= n,
                self@[lo as int].start <= addr,
                forall|j: int| hi <= j < n ==> addr < (#[trigger] self@[j]).start,
            decreases hi - lo,
        {
            let mid = lo + (hi - lo) / 2;
            if self.segments[mid].start <= addr {
                lo = mid;
            } else {
                proof {
                    assert forall|j: int| mid <= j < n implies addr < (
                    #[trigger] self@[j]).start by {
                        if j > mid {
                            assert(self@[mid as int].end() <= self@[j].start);
                            assert(self@[mid as int].bytes.len() > 0);
                        }
                    }
                }
                hi = mid;
            }
        }
        let s = &self.segments[lo];
        if addr - s.start < s.data.len() {
            Some(lo)
        } else {
            proof {
                assert forall|j: int| 0 <= j < n implies !(#[trigger] self@[j]).contains_addr(
                    addr as int,
                ) by {
                    if j < lo {
                        assert(self@[j].end() <= self@[lo as int].start);
                    }
                }
            }
            None
        }
    }

    /// How many segments are stored.
    pub fn segment_count(&self) -> (n: usize)
        ensures
            n == self@.len(),
    {
        self.segments.len()
    }

    /// The stored segment at position `i` in address order.
    pub fn segment_at(&self, i: usize) -> (s: &Segment)
        requires
            i < self@.len(),
        ensures
            s@ == self@[i as int],
    {
        &self.segments[i]
    }

    /// The segment which `addr` is in, or an unmapped-address fault.
    pub fn get_segment(&self, addr: usize) -> (r: Result<&Segment, Error>)
        requires
            self.wf(),
        ensures
            segs_mapped(self@, addr as int) ==> (r matches Ok(s) && s@ == self@[seg_index_of(
                self@,
                addr as int,
            )]),
            !segs_mapped(self@, addr as int) ==> r == Err::<&Segment, Error>(
                Error::UnmappedAddress(addr),
            ),
    {
        match self.seg_index(addr) {
            Some(i) => {
                proof {
                    lemma_containing_unique(self@, addr as int, i as int);
                }
                Ok(&self.segments[i])
            },
            None => Err(Error::UnmappedAddress(addr)),
        }
    }

    /// Read the byte at `addr`. Fails with `UnmappedAddress` when no segment
    /// covers `addr`, and with `Protection` when the covering segment is not
    /// readable; the byte is returned otherwise.
    pub fn read(&self, addr: usize) -> (r: Result<u8, Error>)
        requires
            self.wf(),
        ensures
            ({
                let segs = self@;
                let a = addr as int;
                if !segs_mapped(segs, a) {
                    r == Err::<u8, Error>(Error::UnmappedAddress(addr))
                } else {
                    let s = segs[seg_index_of(segs, a)];
                    if s.protection.permits(read_required()) {
                        r == Ok::<u8, Error>(byte_at(segs, a))
                    } else {
                        r == Err::<u8, Error>(
                            Error::Protection {
                                addr,
                                available: s.protection,
                                required: read_required(),
                            },
                        )
                    }
                }
            }),
    {
        let segment = match self.get_segment(addr) {
            Ok(s) => s,
            Err(e) => {
                return Err(e);
            },
        };
        let i = addr - segment.start;

        match Self::check_protection(
            addr,
            segment.protection,
            Protection { r: true, w: false, x: false },
        ) {
            Ok(()) => {},
            Err(e) => {
                return Err(e);
            },
        }

        Ok(segment.data[i])
    }

    /// Read `len` bytes starting at `addr`. The requested range must lie
    /// entirely within the single segment that contains `addr`; spanning
    /// several segments is never permitted. The checks come in the same order
    /// as for `read`: lookup, then protection, then bounds.
    pub fn read_slice(&self, addr: usize, len: usize) -> (r: Result<Vec<u8>, Error>)
        requires
            self.wf(),
        ensures
            ({
                let segs = self@;
                let a = addr as int;
                if !segs_mapped(segs, a) {
                    r == Err::<Vec<u8>, Error>(Error::UnmappedAddress(addr))
                } else {
                    let s = segs[seg_index_of(segs, a)];
                    if !s.protection.permits(read_required()) {
                        r == Err::<Vec<u8>, Error>(
                            Error::Protection {
                                addr,
                                available: s.protection,
                                required: read_required(),
                            },
                        )
                    } else if !slice_in_bounds(segs, a, len as int) {
                        r == Err::<Vec<u8>, Error>(Error::SliceOutOfBounds { addr, len })
                    } else {
                        r matches Ok(b) && b@ == bytes_at(segs, a, len as int)
                    }
                }
            }),
    {
        let segment = match self.get_segment(addr) {
            Ok(s) => s,
            Err(e) => {
                return Err(e);
            },
        };
        let i = addr - segment.start;

        match Self::check_protection(
            addr,
            segment.protection,
            Protection { r: true, w: false, x: false },
        ) {
            Ok(()) => {},
            Err(e) => {
                return Err(e);
            },
        }

        if len > segment.data.len() - i {
            return Err(Error::SliceOutOfBounds { addr, len });
        }

        Ok(read_range(&segment.data, i, len))
    }

    /// Write one byte at `addr`, in place. Fails with `UnmappedAddress` when
    /// no segment covers `addr` and with `Protection` when the covering
    /// segment is not writable; the address space is unchanged on failure.
    pub fn write(&mut self, addr: usize, val: u8) -> (r: Result<(), Error>)
        requires
            old(self).wf(),
        ensures
            final(self).wf(),
            ({
                let segs = old(self)@;
                let a = addr as int;
                if !segs_mapped(segs, a) {
                    r == Err::<(), Error>(Error::UnmappedAddress(addr)) && final(self)@ == segs
                } else {
                    let s = segs[seg_index_of(segs, a)];
                    if s.protection.permits(write_required()) {
                        r is Ok && final(self)@ == write_bytes(segs, a, seq![val])
                    } else {
                        r == Err::<(), Error>(
                            Error::Protection {
                                addr,
                                available: s.protection,
                                required: write_required(),
                            },
                        ) && final(self)@ == segs
                    }
                }
            }),
    {
        let idx = match self.seg_index(addr) {
            Some(i) => i,
            None => {
                return Err(Error::UnmappedAddress(addr));
            },
        };
        proof {
            lemma_containing_unique(self@, addr as int, idx as int);
        }

        let segment = &self.segments[idx];
        let i = addr - segment.start;

        match Self::check_protection(
            addr,
            segment.protection,
            Protection { r: false, w: true, x: false },
        ) {
            Ok(()) => {},
            Err(e) => {
                return Err(e);
            },
        }

        let ghost orig = self@;
        let seg = &mut self.segments[idx];
        seg.data.set(i, val);
        proof {
            let a = addr as int;
            let s = orig[idx as int];
            assert(self@ =~= orig.update(
                idx as int,
                SegmentModel {
                    start: s.start,
                    protection: s.protection,
                    bytes: s.bytes.update(a - s.start, val),
                },
            ));
            assert(s.bytes.update(a - s.start, val) =~= splice_bytes(s.bytes, a - s.start, seq![val]));
            assert(self@ =~~= write_bytes(orig, a, seq![val]));
            lemma_wf_update_same_shape(orig, idx as int, self@[idx as int]);
        }
        Ok(())
    }

    /// Write `buf` starting at `addr`, in place. The range must lie entirely
    /// within the single segment that contains `addr`; the checks come in the
    /// same order as for `read_slice`, and the address space is unchanged on
    /// failure.
    pub fn write_slice(&mut self, addr: usize, buf: &[u8]) -> (r: Result<(), Error>)
        requires
            old(self).wf(),
        ensures
            final(self).wf(),
            ({
                let segs = old(self)@;
                let a = addr as int;
                if !segs_mapped(segs, a) {
                    r == Err::<(), Error>(Error::UnmappedAddress(addr)) && final(self)@ == segs
                } else {
                    let s = segs[seg_index_of(segs, a)];
                    if !s.protection.permits(write_required()) {
                        r == Err::<(), Error>(
                            Error::Protection {
                                addr,
                                available: s.protection,
                                required: write_required(),
                            },
                        ) && final(self)@ == segs
                    } else if !slice_in_bounds(segs, a, buf@.len() as int) {
                        r == Err::<(), Error>(Error::SliceOutOfBounds { addr, len: buf@.len() as usize })
                            && final(self)@ == segs
                    } else {
                        r is Ok && final(self)@ == write_bytes(segs, a, buf@)
                    }
                }
            }),
    {
        let idx = match self.seg_index(addr) {
            Some(i) => i,
            None => {
                return Err(Error::UnmappedAddress(addr));
            },
        };
        proof {
            lemma_containing_unique(self@, addr as int, idx as int);
        }

        let segment = &self.segments[idx];
        let len = buf.len();
        let i = addr - segment.start;

        match Self::check_protection(
            addr,
            segment.protection,
            Protection { r: false, w: true, x: false },
        ) {
            Ok(()) => {},
            Err(e) => {
                return Err(e);
            },
        }

        if len > segment.data.len() - i {
            return Err(Error::SliceOutOfBounds { addr, len });
        }

        let ghost orig = self@;
        let seg = &mut self.segments[idx];
        overwrite(&mut seg.data, i, buf);
        proof {
            let a = addr as int;
            let s = orig[idx as int];
            assert(self@ =~= orig.update(
                idx as int,
                SegmentModel {
                    start: s.start,
                    protection: s.protection,
                    bytes: splice_bytes(s.bytes, a - s.start, buf@),
                },
            ));
            assert(self@ =~~= write_bytes(orig, a, buf@));
            lemma_wf_update_same_shape(orig, idx as int, self@[idx as int]);
        }
        Ok(())
    }

    /// The sorted starts of the segments whose ranges would overlap a segment
    /// placed at `new` with `len` bytes.
    pub fn get_overlapping(&self, new: usize, len: usize) -> (r: Vec<usize>)
        requires
            self.wf(),
        ensures
            as_ints(r@) == overlapping_starts(self@, new as int, len as int),
    {
        let n = self.segments.len();
        let mut r: Vec<usize> = Vec::new();
        let mut i: usize = 0;
        while i < n
            invariant
                self.wf(),
                n == self@.len(),
                i <= n,
                as_ints(r@) == overlapping_starts(self@.take(i as int), new as int, len as int),
            decreases n - i,
        {
            let s = &self.segments[i];
            proof {
                assert(self@[i as int].end() <= usize::MAX);
            }
            let s_end = s.start + s.data.len();
            let overlaps = (s.start <= new && new < s_end) || (new < s.start && s.start - new
                < len);
            proof {
                assert(overlaps == overlaps_range(self@[i as int], new as int, len as int));
            }
            if overlaps {
                r.push(s.start);
            }
            proof {
                assert(self@.take(i + 1).drop_last() =~= self@.take(i as int));
                assert(self@.take(i + 1).last() == self@[i as int]);
                assert(as_ints(r@) =~= overlapping_starts(
                    self@.take(i + 1),
                    new as int,
                    len as int,
                ));
            }
            i = i + 1;
        }
        proof {
            assert(self@.take(n as int) =~= self@);
        }
        r
    }

    /// Map a segment; it must end within the address range. A zero-length
    /// segment is a silent no-op success (never stored). Otherwise the
    /// segment is stored at its start iff its range intersects no stored
    /// segment; the failure carries the new segment's start and the sorted
    /// starts of every segment it overlaps, and leaves the address space
    /// unchanged.
    pub fn insert(&mut self, segment: Segment) -> (r: Result<(), Error>)
        requires
            old(self).wf(),
            segment@.end() <= usize::MAX,
        ensures
            final(self).wf(),
            ({
                let segs = old(self)@;
                let s = segment@;
                if s.bytes.len() == 0 {
                    r is Ok && final(self)@ == segs
                } else if overlapping_starts(segs, s.start, s.bytes.len() as int).len() == 0 {
                    r is Ok && final(self)@ == seq_insert_sorted(segs, s)
                } else {
                    r matches Err(Error::InsertOverlap { new, overlapping })
                        && new == segment.start
                        && as_ints(overlapping@) == overlapping_starts(segs, s.start, s.bytes.len() as int)
                        && final(self)@ == segs
                }
            }),
    {
        if segment.data.len() == 0 {
            return Ok(());
        }

        let overlapping = self.get_overlapping(segment.start, segment.data.len());

        if overlapping.len() == 0 {
            proof {
                assert(as_ints(overlapping@).len() == 0);
                lemma_no_overlap_iff_empty(self@, segment@.start, segment@.bytes.len() as int);
            }
            let n = self.segments.len();
            let mut idx: usize = 0;
            while idx < n && self.segments[idx].start <= segment.start
                invariant
                    self.wf(),
                    n == self@.len(),
                    idx <= n,
                    forall|j: int| 0 <= j < idx ==> (#[trigger] self@[j]).start <= segment@.start,
                decreases n - idx,
            {
                idx = idx + 1;
            }
            proof {
                let segs = self@;
                let s = segment@;
                assert forall|j: int| idx <= j < segs.len() implies s.start < (
                #[trigger] segs[j]).start by {
                    assert(s.start < segs[idx as int].start);
                    if j > idx {
                        assert(segs[idx as int].end() <= segs[j].start);
                        assert(segs[idx as int].bytes.len() > 0);
                    }
                }
                lemma_insert_sorted_at(segs, s, idx as int);
                lemma_wf_insert(segs, s, idx as int);
            }
            let ghost orig = self@;
            self.segments.insert(idx, segment);
            proof {
                assert(self@ =~= orig.insert(idx as int, segment@));
            }
            Ok(())
        } else {
            Err(Error::InsertOverlap { overlapping, new: segment.start })
        }
    }

    /// Replace the segment at `idx`, whose range is known to intersect the
    /// deletion range, by what it leaves behind: nothing, a trimmed side, or a
    /// head and a tail.
    fn resolve_at(&mut self, idx: usize, del_start: usize, del_len: usize)
        requires
            idx < old(self)@.len(),
            old(self)@[idx as int].bytes.len() > 0,
            old(self)@[idx as int].end() <= usize::MAX,
            overlaps_range(old(self)@[idx as int], del_start as int, del_len as int),
            del_start + del_len <= usize::MAX,
        ensures
            final(self)@ == old(self)@.take(idx as int) + resolve_segment(
                old(self)@[idx as int],
                del_start as int,
                del_len as int,
            ) + old(self)@.skip(idx + 1),
    {
        let ghost orig = self@;
        let ghost pieces = resolve_segment(orig[idx as int], del_start as int, del_len as int);
        let seg_ref = &self.segments[idx];
        let orig_start = seg_ref.start;
        let orig_len = seg_ref.data.len();
        let del_end = del_start + del_len;
        let orig_end = orig_start + orig_len;

        if del_start <= orig_start && del_end >= orig_end {
            // full containment: the segment disappears
            self.segments.remove(idx);
            proof {
                assert(self@ =~= orig.take(idx as int) + pieces + orig.skip(idx + 1));
            }
        } else if del_start <= orig_start || del_end >= orig_end {
            if orig_start < del_start {
                // the prefix before the deletion survives
                let keep = del_start - orig_start;
                let seg = &mut self.segments[idx];
                seg.data.truncate(keep);
                proof {
                    assert(self@[idx as int] == seg_prefix(orig[idx as int], del_start as int));
                    assert(self@ =~= orig.take(idx as int) + pieces + orig.skip(idx + 1));
                }
            } else {
                // the suffix after the deletion survives, re-keyed at its new start
                let cut = del_end - orig_start;
                let seg_ref2 = &self.segments[idx];
                let new_data = read_range(&seg_ref2.data, cut, orig_len - cut);
                let seg = &mut self.segments[idx];
                seg.data = new_data;
                seg.start = del_end;
                proof {
                    assert(self@[idx as int] == seg_suffix(orig[idx as int], del_end as int));
                    assert(self@ =~= orig.take(idx as int) + pieces + orig.skip(idx + 1));
                }
            }
        } else {
            // strict interior overlap: split into a head and a tail
            let head_len = del_start - orig_start;
            let cut = del_end - orig_start;
            let seg_ref2 = &self.segments[idx];
            let tail_data = read_range(&seg_ref2.data, cut, orig_len - cut);
            let tail = Segment { start: del_end, protection: seg_ref2.protection, data: tail_data };
            let seg = &mut self.segments[idx];
            seg.data.truncate(head_len);
            proof {
                assert(self@[idx as int] == seg_prefix(orig[idx as int], del_start as int));
                assert(self@.len() == orig.len());
            }
            let n_now = self.segments.len();
            proof {
                assert(n_now == self@.len());
            }
            self.segments.insert(idx + 1, tail);
            proof {
                assert(self@[idx as int] == seg_prefix(orig[idx as int], del_start as int));
                assert(self@[idx + 1] == seg_suffix(orig[idx as int], del_end as int));
                assert(self@ =~= orig.take(idx as int) + pieces + orig.skip(idx + 1));
            }
        }
    }

    /// Unmap `[start, start + len)`, a range that must end within the address
    /// range: any segment wholly inside it is removed, a segment straddling a
    /// boundary is trimmed or split, and nothing changes when no segment
    /// intersects it. Always succeeds.
    #[verifier::rlimit(50)]
    pub fn unmap(&mut self, start: usize, len: usize) -> (r: Result<(), Error>)
        requires
            old(self).wf(),
            start + len <= usize::MAX,
        ensures
            final(self).wf(),
            r is Ok,
            final(self)@ == unmap_seq(old(self)@, start as int, len as int),
    {
        let ghost orig = self@;
        let ghost a = start as int;
        let ghost l = len as int;
        let n = self.segments.len();

        // the overlapping segments form the contiguous index range [lo, hi)
        let mut lo: usize = 0;
        while lo < n
            invariant
                self.wf(),
                self@ == orig,
                a == start as int,
                l == len as int,
                n == orig.len(),
                lo <= n,
                forall|j: int| 0 <= j < lo ==> !overlaps_range(#[trigger] orig[j], a, l),
            ensures
                self.wf(),
                self@ == orig,
                lo <= n,
                forall|j: int| 0 <= j < lo ==> !overlaps_range(#[trigger] orig[j], a, l),
                lo < n ==> overlaps_range(orig[lo as int], a, l),
            decreases n - lo,
        {
            proof {
                assert(self@[lo as int] == orig[lo as int]);
                assert(orig[lo as int].end() <= usize::MAX);
            }
            if seg_overlaps(&self.segments[lo], start, len) {
                break;
            }
            lo = lo + 1;
        }
        let mut hi: usize = lo;
        while hi < n
            invariant
                self.wf(),
                self@ == orig,
                a == start as int,
                l == len as int,
                n == orig.len(),
                lo <= hi <= n,
                forall|j: int| 0 <= j < lo ==> !overlaps_range(#[trigger] orig[j], a, l),
                forall|j: int| lo <= j < hi ==> overlaps_range(#[trigger] orig[j], a, l),
                lo < n ==> overlaps_range(orig[lo as int], a, l),
            ensures
                self.wf(),
                self@ == orig,
                lo <= hi <= n,
                forall|j: int| 0 <= j < lo ==> !overlaps_range(#[trigger] orig[j], a, l),
                forall|j: int| lo <= j < hi ==> overlaps_range(#[trigger] orig[j], a, l),
                lo < n ==> overlaps_range(orig[lo as int], a, l),
                hi < n ==> !overlaps_range(orig[hi as int], a, l),
            decreases n - hi,
        {
            proof {
                assert(self@[hi as int] == orig[hi as int]);
                assert(orig[hi as int].end() <= usize::MAX);
            }
            if !seg_overlaps(&self.segments[hi], start, len) {
                break;
            }
            hi = hi + 1;
        }
        proof {
            assert forall|j: int| hi <= j < n implies !overlaps_range(
                #[trigger] orig[j],
                a,
                l,
            ) by {
                if overlaps_range(orig[j], a, l) {
                    assert(lo < n);
                    if j > hi {
                        lemma_overlap_contiguous(orig, a, l, lo as int, hi as int, j);
                    }
                    assert(overlaps_range(orig[hi as int], a, l));
                }
            }
            lemma_unmap_seq_wf(orig, a, l);
        }

        if lo == hi {
            proof {
                lemma_unmap_seq_no_overlap(orig, a, l);
            }
            return Ok(());
        }

        let ghost r_first = resolve_segment(orig[lo as int], a, l);
        let ghost r_last = resolve_segment(orig[hi - 1], a, l);

        if hi - lo >= 2 {
            self.resolve_at(hi - 1, start, len);
            proof {
                assert(self@ == orig.take(hi - 1) + r_last + orig.skip(hi as int));
            }
            let mut m: usize = hi - 1;
            while m > lo + 1
                invariant
                    lo + 1 <= m,
                    m <= hi - 1,
                    hi <= orig.len(),
                    self@ == orig.take(m as int) + r_last + orig.skip(hi as int),
                decreases m,
            {
                m = m - 1;
                let ghost prev = self@;
                proof {
                    assert(self@[m as int] == orig[m as int]);
                    assert(self@.len() > m);
                }
                self.segments.remove(m);
                proof {
                    assert(self@ =~= prev.remove(m as int));
                    assert(prev.remove(m as int) =~= orig.take(m as int) + r_last + orig.skip(
                        hi as int,
                    ));
                }
            }
            let ghost mid = self@;
            proof {
                assert(mid == orig.take(lo + 1) + r_last + orig.skip(hi as int));
                assert(mid[lo as int] == orig[lo as int]);
            }
            self.resolve_at(lo, start, len);
            proof {
                assert(mid.take(lo as int) =~= orig.take(lo as int));
                assert(mid.skip(lo + 1) =~= r_last + orig.skip(hi as int));
                lemma_unmap_decompose(orig, a, l, lo as int, hi as int);
                assert(self@ =~= orig.take(lo as int) + r_first + r_last + orig.skip(hi as int));
                assert(self@ =~= unmap_seq(orig, a, l));
            }
        } else {
            self.resolve_at(lo, start, len);
            proof {
                lemma_unmap_decompose(orig, a, l, lo as int, hi as int);
                assert(orig.skip(lo + 1) =~= orig.skip(hi as int));
                assert(self@ =~= orig.take(lo as int) + r_first + orig.skip(hi as int));
                assert(self@ =~= unmap_seq(orig, a, l));
            }
        }
        Ok(())
    }
}

} // verus!
