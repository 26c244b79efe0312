//! Placing areas in the image: processing order, offsets, overlap.
//!
//! Areas are processed in ascending order of their declared offset, those
//! without one first, and areas of equal key in the order they were given.
//! A running end starts at zero. Each area goes to its declared offset, or
//! to the running end where it declares none; it may not start before the
//! running end, which then moves to the end of that area.

use vstd::prelude::*;
use crate::area::Area;

verus! {

/// The most areas that one layout takes: with no more than these, the end
/// of the image fits in 64 bits.
pub const MAX_AREAS: usize = 0xffff_ffff;

/// Where every area lies and how long the image is.
#[derive(Debug, Clone, PartialEq, Eq)]
pub struct Layout {
    /// The resolved offset of each area, in processing order.
    pub offsets: Vec<u64>,
    /// The end of the last area: the length of the image.
    pub length: u64,
}

/// Why a list of areas cannot be laid out or filled.
#[derive(Debug, PartialEq, Eq)]
pub enum LayoutError {
    /// The area at `index` of the processing order starts at `offset`,
    /// before the end `last_end` of the area processed before it.
    Overlap { index: usize, last_end: u64, description: String, offset: u64 },
    /// The file at `path` holds `file_len` bytes, more than the `area_size`
    /// bytes of the area that it is meant for.
    FileTooLarge { path: String, file_len: usize, area_size: u32 },
}

/// The key by which areas are ordered: the declared offset, and below
/// every offset the key of an area that declares none.
pub open spec fn offset_key(a: Area) -> int {
    match a.offset {
        Some(x) => x as int,
        None => -1,
    }
}

/// `s`, ordered by key, with `a` put behind the last area whose key is not
/// above its own.
pub open spec fn inserted(s: Seq<Area>, a: Area) -> Seq<Area>
    decreases s.len(),
{
    if s.len() == 0 || offset_key(s.last()) <= offset_key(a) {
        s.push(a)
    } else {
        inserted(s.drop_last(), a).push(s.last())
    }
}

/// The processing order of `s`: its areas by ascending key, those of equal
/// key in the order they have in `s`.
pub open spec fn sorted_by_offset(s: Seq<Area>) -> Seq<Area>
    decreases s.len(),
{
    if s.len() == 0 {
        s
    } else {
        inserted(sorted_by_offset(s.drop_last()), s.last())
    }
}

/// No area of `s` has a smaller key than one before it.
pub open spec fn ordered(s: Seq<Area>) -> bool {
    forall|i: int, j: int| 0 <= i < j < s.len() ==> offset_key(s[i]) <= offset_key(s[j])
}

/// The running end after the first `n` areas of `areas` have been placed.
pub open spec fn end_after(areas: Seq<Area>, n: int) -> int
    decreases n, 0nat,
{
    if n <= 0 {
        0
    } else {
        offset_at(areas, n - 1) + areas[n - 1].size
    }
}

/// The resolved offset of the area at `i`: the declared one, or the running
/// end before it.
pub open spec fn offset_at(areas: Seq<Area>, i: int) -> int
    decreases i, 1nat,
{
    match areas[i].offset {
        Some(x) => x as int,
        None => if i <= 0 {
            0
        } else {
            end_after(areas, i)
        },
    }
}

/// The area at `i` starts before the running end.
pub open spec fn overlaps_at(areas: Seq<Area>, i: int) -> bool {
    offset_at(areas, i) < end_after(areas, i)
}

/// None of the first `n` areas starts before the running end.
pub open spec fn fits(areas: Seq<Area>, n: int) -> bool {
    forall|i: int| 0 <= i < n ==> !overlaps_at(areas, i)
}

/// `r` is what resolving the offsets of `areas`, in the order they stand
/// in, comes to. Where no area starts before the running end: the offset of
/// each area, and the end of the last as the length of the image. Otherwise
/// the overlap at the first area that does, with its place, its description
/// and offset, and the running end that it falls short of.
pub open spec fn resolved(areas: Seq<Area>, r: Result<Layout, LayoutError>) -> bool {
    match r {
        Ok(layout) => {
            &&& fits(areas, areas.len() as int)
            &&& layout.offsets@.len() == areas.len()
            &&& forall|i: int| 0 <= i < areas.len() ==> layout.offsets@[i] == offset_at(areas, i)
            &&& layout.length == end_after(areas, areas.len() as int)
        },
        Err(LayoutError::Overlap { index, last_end, description, offset }) => {
            &&& index < areas.len()
            &&& fits(areas, index as int)
            &&& overlaps_at(areas, index as int)
            &&& last_end == end_after(areas, index as int)
            &&& offset == offset_at(areas, index as int)
            &&& description == areas[index as int].description
        },
        Err(LayoutError::FileTooLarge { .. }) => false,
    }
}

/// The largest end of the first `n` areas, zero where there is none.
pub open spec fn max_end(areas: Seq<Area>, n: int) -> int
    decreases n,
{
    if n <= 0 {
        0
    } else {
        let rest = max_end(areas, n - 1);
        let end = offset_at(areas, n - 1) + areas[n - 1].size;
        if end > rest {
            end
        } else {
            rest
        }
    }
}

/// Every area of `s` declares its offset.
pub open spec fn all_explicit(s: Seq<Area>) -> bool {
    forall|i: int| 0 <= i < s.len() ==> (#[trigger] s[i]).offset is Some
}

/// Where an area that declares its offset ends.
pub open spec fn area_end(a: Area) -> int {
    offset_key(a) + a.size
}

/// The largest end of the areas of `s`, all of which declare their offset;
/// zero where there is none.
pub open spec fn largest_end(s: Seq<Area>) -> int
    decreases s.len(),
{
    if s.len() == 0 {
        0
    } else {
        let rest = largest_end(s.drop_last());
        if area_end(s.last()) > rest {
            area_end(s.last())
        } else {
            rest
        }
    }
}

/// Each area of `s` ends before the next one starts.
pub open spec fn chained(s: Seq<Area>) -> bool {
    forall|i: int|
        #![trigger s[i]]
        0 <= i < s.len() - 1 ==> area_end(s[i]) <= offset_key(s[i + 1])
}

/// Of any two areas of `s`, the one that is processed first ends before the
/// other starts: the one with the smaller offset, and of two with the same
/// offset the one that stands first in `s`.
pub open spec fn apart(s: Seq<Area>) -> bool {
    forall|i: int, j: int|
        0 <= i < s.len() && 0 <= j < s.len() && i != j && (offset_key(s[i]) < offset_key(s[j])
            || (offset_key(s[i]) == offset_key(s[j]) && i < j)) ==> area_end(s[i])
            <= offset_key(s[j])
}

/// Putting an area into a list makes the list one longer.
pub proof fn lemma_inserted_len(s: Seq<Area>, a: Area)
    ensures
        inserted(s, a).len() == s.len() + 1,
    decreases s.len(),
{
    if !(s.len() == 0 || offset_key(s.last()) <= offset_key(a)) {
        lemma_inserted_len(s.drop_last(), a);
    }
}

/// The processing order holds as many areas as the list it orders.
pub proof fn lemma_sorted_len(s: Seq<Area>)
    ensures
        sorted_by_offset(s).len() == s.len(),
    decreases s.len(),
{
    if s.len() > 0 {
        lemma_sorted_len(s.drop_last());
        lemma_inserted_len(sorted_by_offset(s.drop_last()), s.last());
    }
}

/// Where every area from `slot` on lies above `a`, and the one before
/// `slot` does not, `a` goes to `slot`.
pub proof fn lemma_inserted_at(s: Seq<Area>, a: Area, slot: int)
    requires
        0 <= slot <= s.len(),
        forall|k: int| slot <= k < s.len() ==> offset_key(s[k]) > offset_key(a),
        slot > 0 ==> offset_key(s[slot - 1]) <= offset_key(a),
    ensures
        inserted(s, a) == s.insert(slot, a),
    decreases s.len(),
{
    if slot == s.len() {
        assert(s.push(a) =~= s.insert(slot, a));
    } else {
        lemma_inserted_at(s.drop_last(), a, slot);
        assert(s.drop_last().insert(slot, a).push(s.last()) =~= s.insert(slot, a));
    }
}

/// Putting an area into an ordered list leaves it ordered.
pub proof fn lemma_inserted_ordered(s: Seq<Area>, a: Area)
    requires
        ordered(s),
    ensures
        ordered(inserted(s, a)),
        inserted(s, a).to_multiset() == s.to_multiset().insert(a),
    decreases s.len(),
{
    broadcast use vstd::seq_lib::group_to_multiset_ensures;

    if s.len() == 0 || offset_key(s.last()) <= offset_key(a) {
    } else {
        let front = s.drop_last();
        lemma_inserted_ordered(front, a);
        lemma_inserted_len(front, a);
        let mid = inserted(front, a);
        assert(s =~= front.push(s.last()));
        assert(mid.to_multiset().insert(s.last()) =~= s.to_multiset().insert(a));
        assert forall|i: int, j: int| 0 <= i < j < mid.push(s.last()).len() implies offset_key(
            mid.push(s.last())[i],
        ) <= offset_key(mid.push(s.last())[j]) by {
            if j == mid.len() {
                assert(mid.to_multiset().count(mid[i]) > 0);
                if mid[i] != a {
                    assert(front.to_multiset().count(mid[i]) > 0);
                    let k = choose|k: int| 0 <= k < front.len() && front[k] == mid[i];
                    assert(s[k] == front[k]);
                }
            }
        }
    }
}

/// The processing order is ordered by key and holds exactly the areas of
/// the list, each as often as the list does.
pub proof fn lemma_sorted_is_ordered_permutation(s: Seq<Area>)
    ensures
        ordered(sorted_by_offset(s)),
        sorted_by_offset(s).to_multiset() == s.to_multiset(),
    decreases s.len(),
{
    broadcast use vstd::seq_lib::group_to_multiset_ensures;

    if s.len() > 0 {
        lemma_sorted_is_ordered_permutation(s.drop_last());
        lemma_inserted_ordered(sorted_by_offset(s.drop_last()), s.last());
        assert(s =~= s.drop_last().push(s.last()));
    }
}

/// A list that is ordered already is its own processing order: areas of
/// equal key are never exchanged.
pub proof fn lemma_sorted_keeps_ordered(s: Seq<Area>)
    requires
        ordered(s),
    ensures
        sorted_by_offset(s) == s,
    decreases s.len(),
{
    if s.len() > 0 {
        lemma_sorted_keeps_ordered(s.drop_last());
        assert(s.drop_last().push(s.last()) =~= s);
        if s.len() > 1 {
            assert(s.drop_last().last() == s[s.len() - 2]);
        }
    }
}

/// Whether `a` may stand before `b`: its key is not above that of `b`.
fn not_above(a: &Area, b: &Area) -> (r: bool)
    ensures
        r == (offset_key(*a) <= offset_key(*b)),
{
    match (a.offset, b.offset) {
        (None, _) => true,
        (Some(_), None) => false,
        (Some(x), Some(y)) => x <= y,
    }
}

/// Brings the areas into processing order.
pub fn sort_by_offset(areas: &mut Vec<Area>)
    ensures
        final(areas)@ == sorted_by_offset(old(areas)@),
{
    let n = areas.len();
    let mut i: usize = 0;
    proof {
        assert(old(areas)@.subrange(0, 0) =~= Seq::<Area>::empty());
        assert(areas@ =~= sorted_by_offset(old(areas)@.subrange(0, 0)) + old(areas)@.subrange(
            0,
            n as int,
        ));
    }
    while i < n
        invariant
            i <= n,
            n == old(areas)@.len(),
            areas@.len() == n,
            areas@ == sorted_by_offset(old(areas)@.subrange(0, i as int)) + old(areas)@.subrange(
                i as int,
                n as int,
            ),
        decreases n - i,
    {
        let ghost front = sorted_by_offset(old(areas)@.subrange(0, i as int));
        let ghost back = old(areas)@.subrange(i as int + 1, n as int);
        proof {
            lemma_sorted_len(old(areas)@.subrange(0, i as int));
        }
        let area = areas.remove(i);
        assert(area == old(areas)@[i as int]);
        assert(areas@ =~= front + back);
        let mut slot: usize = i;
        while slot > 0 && !not_above(&areas[slot - 1], &area)
            invariant
                slot <= i,
                i < n,
                areas@.len() == n - 1,
                areas@ == front + back,
                front.len() == i,
                forall|k: int| slot <= k < i ==> offset_key(front[k]) > offset_key(area),
            decreases slot,
        {
            assert(areas@[slot - 1] == front[slot - 1]);
            slot -= 1;
        }
        areas.insert(slot, area);
        proof {
            if slot > 0 {
                assert((front + back)[slot - 1] == front[slot - 1]);
            }
            lemma_inserted_at(front, area, slot as int);
            assert((front + back).insert(slot as int, area) =~= front.insert(slot as int, area)
                + back);
            let next = old(areas)@.subrange(0, i as int + 1);
            assert(next.drop_last() =~= old(areas)@.subrange(0, i as int));
            assert(next.last() == area);
        }
        i += 1;
    }
    proof {
        assert(old(areas)@.subrange(0, n as int) =~= old(areas)@);
        assert(areas@ =~= sorted_by_offset(old(areas)@));
    }
}

/// The running end after `n` areas is at most
/// `n + 1` times the largest 32-bit number.
pub proof fn lemma_end_bound(areas: Seq<Area>, n: int)
    requires
        0 <= n <= areas.len(),
    ensures
        0 <= end_after(areas, n) <= (n + 1) * 0xffff_ffff,
    decreases n,
{
    if n > 0 {
        lemma_end_bound(areas, n - 1);
    }
}

/// Where no area overlaps, the running end never moves back.
pub proof fn lemma_end_monotone(areas: Seq<Area>, i: int, j: int)
    requires
        0 <= i <= j <= areas.len(),
        fits(areas, j),
    ensures
        end_after(areas, i) <= end_after(areas, j),
    decreases j - i,
{
    if i < j {
        lemma_end_monotone(areas, i, j - 1);
        assert(!overlaps_at(areas, j - 1));
    }
}

/// An area without a declared offset starts where the area before it
/// ends, and at zero where it is the first.
pub proof fn lemma_implicit_offset(areas: Seq<Area>, i: int)
    requires
        0 <= i < areas.len(),
        areas[i].offset is None,
    ensures
        i == 0 ==> offset_at(areas, i) == 0,
        i > 0 ==> offset_at(areas, i) == offset_at(areas, i - 1) + areas[i - 1].size,
        !overlaps_at(areas, i),
{
}

/// In a layout that succeeds, an area ends before any later one starts:
/// no two resolved ranges overlap.
pub proof fn lemma_fits_disjoint(areas: Seq<Area>, i: int, j: int)
    requires
        0 <= i < j < areas.len(),
        fits(areas, areas.len() as int),
    ensures
        offset_at(areas, i) + areas[i].size <= offset_at(areas, j),
{
    lemma_end_monotone(areas, i + 1, j);
    assert(!overlaps_at(areas, j));
}

/// Resolving the offsets succeeds exactly where no area starts before the
/// running end.
pub proof fn lemma_resolved_ok_iff_fits(areas: Seq<Area>, r: Result<Layout, LayoutError>)
    requires
        resolved(areas, r),
    ensures
        r is Ok <==> fits(areas, areas.len() as int),
        r is Err ==> r->Err_0 is Overlap,
{
}

/// Where the resolved range of an area reaches into that of a later one,
/// resolving the offsets fails with an overlap.
pub proof fn lemma_overlap_fails(
    areas: Seq<Area>,
    i: int,
    j: int,
    r: Result<Layout, LayoutError>,
)
    requires
        0 <= i < j < areas.len(),
        offset_at(areas, j) < offset_at(areas, i) + areas[i].size,
        resolved(areas, r),
    ensures
        r is Err,
        r->Err_0 is Overlap,
{
    if fits(areas, areas.len() as int) {
        lemma_fits_disjoint(areas, i, j);
    }
}

/// Where no area overlaps, the running end is the largest end so far.
pub proof fn lemma_end_is_max(areas: Seq<Area>, n: int)
    requires
        0 <= n <= areas.len(),
        fits(areas, n),
    ensures
        end_after(areas, n) == max_end(areas, n),
    decreases n,
{
    if n > 0 {
        lemma_end_is_max(areas, n - 1);
        assert(!overlaps_at(areas, n - 1));
    }
}

/// An area that ends before every area above it starts, and starts behind
/// the end of every other, keeps a list chained when it is put in; the
/// largest end is then that of the list or its own.
pub proof fn lemma_inserted_chained(s: Seq<Area>, a: Area)
    requires
        chained(s),
        forall|m: int|
            0 <= m < s.len() ==> if offset_key(#[trigger] s[m]) <= offset_key(a) {
                area_end(s[m]) <= offset_key(a)
            } else {
                area_end(a) <= offset_key(s[m])
            },
    ensures
        chained(inserted(s, a)),
        largest_end(inserted(s, a)) == if area_end(a) > largest_end(s) {
            area_end(a)
        } else {
            largest_end(s)
        },
    decreases s.len(),
{
    if s.len() == 0 || offset_key(s.last()) <= offset_key(a) {
        let r = s.push(a);
        assert(r.drop_last() =~= s);
        assert forall|i: int| #![trigger r[i]] 0 <= i < r.len() - 1 implies area_end(r[i])
            <= offset_key(r[i + 1]) by {
            assert(r[i] == s[i]);
            if i + 1 < s.len() {
                assert(r[i + 1] == s[i + 1]);
            }
        }
    } else {
        let front = s.drop_last();
        assert forall|i: int| #![trigger front[i]] 0 <= i < front.len() - 1 implies area_end(
            front[i],
        ) <= offset_key(front[i + 1]) by {
            assert(front[i] == s[i]);
        }
        assert forall|m: int| 0 <= m < front.len() implies if offset_key(#[trigger] front[m])
            <= offset_key(a) {
            area_end(front[m]) <= offset_key(a)
        } else {
            area_end(a) <= offset_key(front[m])
        } by {
            assert(front[m] == s[m]);
        }
        lemma_inserted_chained(front, a);
        lemma_inserted_len(front, a);
        let mid = inserted(front, a);
        let r = mid.push(s.last());
        assert(r.drop_last() =~= mid);
        assert(s[s.len() - 1] == s.last());
        assert forall|i: int| #![trigger r[i]] 0 <= i < r.len() - 1 implies area_end(r[i])
            <= offset_key(r[i + 1]) by {
            assert(r[i] == mid[i]);
            if i + 1 < mid.len() {
                assert(r[i + 1] == mid[i + 1]);
            } else {
                if front.len() == 0 || offset_key(front.last()) <= offset_key(a) {
                    assert(mid[i] == a);
                } else {
                    assert(mid[i] == front.last());
                    assert(front.last() == s[s.len() - 2]);
                }
            }
        }
    }
}

/// A chained list of areas that declare their offsets can be laid out as
/// it stands, and the image is then as long as the largest end of an area.
pub proof fn lemma_chained_end(s: Seq<Area>)
    requires
        all_explicit(s),
        chained(s),
    ensures
        fits(s, s.len() as int),
        end_after(s, s.len() as int) == largest_end(s),
    decreases s.len(),
{
    if s.len() > 0 {
        let front = s.drop_last();
        assert forall|i: int| #![trigger front[i]] 0 <= i < front.len() - 1 implies area_end(
            front[i],
        ) <= offset_key(front[i + 1]) by {
            assert(front[i] == s[i]);
        }
        assert forall|i: int| 0 <= i < front.len() implies (#[trigger] front[i]).offset is Some by {
            assert(front[i] == s[i]);
        }
        lemma_chained_end(front);
        assert(s[s.len() - 1].offset is Some);
        if front.len() > 0 {
            assert(s[s.len() - 2].offset is Some);
            assert(front.last() == s[s.len() - 2]);
            assert(end_after(front, front.len() as int) == area_end(front.last()));
        }
        assert forall|i: int| 0 <= i < s.len() implies !overlaps_at(s, i) by {
            assert(s[i].offset is Some);
            if i > 0 {
                assert(s[i - 1].offset is Some);
            }
        }
    }
}

/// Areas that all declare their offset and lie apart are laid out with
/// success, whatever order they are given in, and the image is as long as
/// the largest end of an area.
pub proof fn lemma_explicit_areas_lay_out(areas: Seq<Area>, r: Result<Layout, LayoutError>)
    requires
        all_explicit(areas),
        apart(areas),
        resolved(sorted_by_offset(areas), r),
    ensures
        r is Ok,
        r->Ok_0.length == largest_end(areas),
{
    lemma_explicit_areas_fit(areas);
    lemma_sorted_len(areas);
}

/// Areas that all declare their offset and lie apart are chained in
/// processing order, and the running end behind the last of them is the
/// largest end of an area.
pub proof fn lemma_explicit_areas_fit(areas: Seq<Area>)
    requires
        all_explicit(areas),
        apart(areas),
    ensures
        all_explicit(sorted_by_offset(areas)),
        chained(sorted_by_offset(areas)),
        fits(sorted_by_offset(areas), areas.len() as int),
        end_after(sorted_by_offset(areas), areas.len() as int) == largest_end(areas),
    decreases areas.len(),
{
    broadcast use vstd::seq_lib::group_to_multiset_ensures;

    lemma_sorted_len(areas);
    lemma_sorted_is_ordered_permutation(areas);
    let sorted = sorted_by_offset(areas);
    assert forall|i: int| 0 <= i < sorted.len() implies (#[trigger] sorted[i]).offset is Some by {
        assert(sorted.to_multiset().count(sorted[i]) > 0);
        assert(areas.to_multiset().count(sorted[i]) > 0);
        let k = choose|k: int| 0 <= k < areas.len() && areas[k] == sorted[i];
        assert(areas[k].offset is Some);
    }
    if areas.len() > 0 {
        let front = areas.drop_last();
        let last = areas.last();
        assert(last == areas[areas.len() - 1]);
        assert forall|i: int| 0 <= i < front.len() implies (#[trigger] front[i]).offset is Some by {
            assert(front[i] == areas[i]);
        }
        assert forall|i: int, j: int|
            0 <= i < front.len() && 0 <= j < front.len() && i != j && (offset_key(front[i])
                < offset_key(front[j]) || (offset_key(front[i]) == offset_key(front[j]) && i
                < j)) implies area_end(front[i]) <= offset_key(front[j]) by {
            assert(front[i] == areas[i]);
            assert(front[j] == areas[j]);
        }
        lemma_explicit_areas_fit(front);
        lemma_sorted_len(front);
        lemma_sorted_is_ordered_permutation(front);
        let mid = sorted_by_offset(front);
        assert forall|m: int| 0 <= m < mid.len() implies if offset_key(#[trigger] mid[m])
            <= offset_key(last) {
            area_end(mid[m]) <= offset_key(last)
        } else {
            area_end(last) <= offset_key(mid[m])
        } by {
            assert(mid.to_multiset().count(mid[m]) > 0);
            assert(front.to_multiset().count(mid[m]) > 0);
            let k = choose|k: int| 0 <= k < front.len() && front[k] == mid[m];
            assert(front[k] == areas[k]);
        }
        lemma_inserted_chained(mid, last);
        lemma_chained_end(mid);
    }
    lemma_chained_end(sorted);
}

/// Resolves the offset of every area, taking the areas in the order given.
///
/// Succeeds exactly where no area starts before the running end, with the
/// offset of each area and the end of the last. Otherwise the error names
/// the first area that does: its place, description and offset, and the
/// running end that it falls short of.
pub fn resolve_offsets(areas: &Vec<Area>) -> (r: Result<Layout, LayoutError>)
    requires
        areas.len() <= MAX_AREAS,
    ensures
        resolved(areas@, r),
{
    let n = areas.len();
    let mut offsets: Vec<u64> = Vec::new();
    let mut last_end: u64 = 0;
    let mut i: usize = 0;
    while i < n
        invariant
            i <= n,
            n == areas.len(),
            n <= MAX_AREAS,
            fits(areas@, i as int),
            offsets.len() == i,
            forall|k: int| 0 <= k < i ==> offsets[k] == offset_at(areas@, k),
            last_end == end_after(areas@, i as int),
        decreases n - i,
    {
        let area = &areas[i];
        let offset: u64 = match area.offset {
            Some(x) => x as u64,
            None => last_end,
        };
        proof {
            lemma_end_bound(areas@, i as int);
            lemma_end_bound(areas@, i as int + 1);
        }
        if offset < last_end {
            return Err(
                LayoutError::Overlap {
                    index: i,
                    last_end,
                    description: area.description.clone(),
                    offset,
                },
            );
        }
        last_end = offset + area.size as u64;
        offsets.push(offset);
        i += 1;
    }
    Ok(Layout { offsets, length: last_end })
}

/// Lays the areas out: brings them into processing order, then resolves
/// their offsets in that order.
///
/// The areas are left in processing order whatever the outcome. The layout
/// succeeds exactly where, in that order, no area starts before the end of
/// the one before it; the error names the first that does.
pub fn layout(areas: &mut Vec<Area>) -> (r: Result<Layout, LayoutError>)
    requires
        old(areas).len() <= MAX_AREAS,
    ensures
        final(areas)@ == sorted_by_offset(old(areas)@),
        resolved(final(areas)@, r),
{
    proof {
        lemma_sorted_len(areas@);
    }
    sort_by_offset(areas);
    resolve_offsets(areas)
}

} // verus!
