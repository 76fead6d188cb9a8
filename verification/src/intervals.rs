//! Sets of delivered byte ranges over a message of a fixed size.

use std::ops::Range;
use vstd::prelude::*;

verus! {

/// A list of half-open ranges `(start, end)` is canonical for a message of
/// `size` bytes when every range is non-empty and lies within `[0, size)`, and
/// the ranges are sorted with a non-empty hole between any two of them.
pub open spec fn canonical(ranges: Seq<(int, int)>, size: int) -> bool {
    &&& 0 <= size
    &&& forall|k: int|
        0 <= k < ranges.len() ==> 0 <= (#[trigger] ranges[k]).0 < ranges[k].1 <= size
    &&& forall|j: int, k: int|
        0 <= j < k < ranges.len() ==> (#[trigger] ranges[j]).1 < (#[trigger] ranges[k]).0
}

/// Whether byte `i` lies in one of the `ranges`.
pub open spec fn covered(ranges: Seq<(int, int)>, i: int) -> bool {
    exists|k: int| 0 <= k < ranges.len() && (#[trigger] ranges[k]).0 <= i < ranges[k].1
}

/// Whether `result` is the canonical list that covers what `ranges` covers
/// and, as far as it lies within `[0, size)`, the range `[lo, hi)`.
pub open spec fn is_union(
    result: Seq<(int, int)>,
    ranges: Seq<(int, int)>,
    size: int,
    lo: int,
    hi: int,
) -> bool {
    &&& canonical(result, size)
    &&& forall|i: int| #[trigger]
        covered(result, i) <==> covered(ranges, i) || (lo <= i < hi && 0 <= i < size)
}

/// The canonical list that covers what `ranges` covers and, as far as it lies
/// within `[0, size)`, the range `[lo, hi)`. There is exactly one such list.
pub open spec fn inserted(ranges: Seq<(int, int)>, size: int, lo: int, hi: int) -> Seq<(int, int)> {
    choose|result: Seq<(int, int)>| is_union(result, ranges, size, lo, hi)
}

/// The canonical list that covers all of `[0, size)`.
pub open spec fn full(size: int) -> Seq<(int, int)> {
    if size > 0 {
        seq![(0int, size)]
    } else {
        Seq::empty()
    }
}

/// The list after recording the ranges `inserts` one after the other,
/// starting with nothing delivered.
pub open spec fn insert_all(size: int, inserts: Seq<(int, int)>) -> Seq<(int, int)>
    decreases inserts.len(),
{
    if inserts.len() == 0 {
        Seq::empty()
    } else {
        inserted(
            insert_all(size, inserts.drop_last()),
            size,
            inserts.last().0,
            inserts.last().1,
        )
    }
}

/// The end of the range before position `pos`, or `0` in front of the first range.
pub open spec fn gap_lower(ranges: Seq<(int, int)>, pos: int) -> int {
    if pos <= 0 {
        0
    } else {
        ranges[pos - 1].1
    }
}

/// The start of the range at position `pos`, or `size` behind the last range.
pub open spec fn gap_upper(ranges: Seq<(int, int)>, size: int, pos: int) -> int {
    if pos < ranges.len() {
        ranges[pos].0
    } else {
        size
    }
}

/// The non-empty holes of `ranges` within `[0, size)` from hole number `pos`
/// on, in ascending order. Hole `pos` lies between range `pos - 1` and range `pos`.
pub open spec fn gaps_from(ranges: Seq<(int, int)>, size: int, pos: int) -> Seq<(int, int)>
    decreases ranges.len() + 1 - pos,
{
    if pos < 0 || pos > ranges.len() {
        Seq::empty()
    } else {
        let lower = gap_lower(ranges, pos);
        let upper = gap_upper(ranges, size, pos);
        let rest = gaps_from(ranges, size, pos + 1);
        if lower == upper {
            rest
        } else {
            seq![(lower, upper)] + rest
        }
    }
}

/// The pairs `(start, end)` of a list of ranges.
pub open spec fn range_pairs(v: Seq<Range<usize>>) -> Seq<(int, int)> {
    Seq::new(v.len(), |k: int| (v[k].start as int, v[k].end as int))
}

/// Inserting a range into a list adds exactly its bytes to what is covered.
proof fn lemma_covered_insert(s: Seq<(int, int)>, idx: int, r: (int, int), i: int)
    requires
        0 <= idx <= s.len(),
    ensures
        covered(s.insert(idx, r), i) <==> covered(s, i) || r.0 <= i < r.1,
{
    let t = s.insert(idx, r);
    if covered(s, i) {
        let k = choose|k: int| 0 <= k < s.len() && (#[trigger] s[k]).0 <= i < s[k].1;
        if k < idx {
            assert(t[k] == s[k]);
        } else {
            assert(t[k + 1] == s[k]);
        }
    }
    if r.0 <= i < r.1 {
        assert(t[idx] == r);
    }
    if covered(t, i) {
        let k = choose|k: int| 0 <= k < t.len() && (#[trigger] t[k]).0 <= i < t[k].1;
        if k < idx {
            assert(t[k] == s[k]);
        } else if k > idx {
            assert(t[k] == s[k - 1]);
        }
    }
}

/// Replacing two neighbours that touch or overlap by their hull covers the same bytes.
proof fn lemma_covered_merge(s: Seq<(int, int)>, p: int, i: int)
    requires
        0 <= p < s.len() - 1,
        s[p].0 <= s[p + 1].0 <= s[p].1,
        s[p].0 < s[p].1,
        s[p + 1].0 < s[p + 1].1,
    ensures
        covered(
            s.update(p, (s[p].0, if s[p].1 >= s[p + 1].1 { s[p].1 } else { s[p + 1].1 })).remove(
                p + 1,
            ),
            i,
        ) <==> covered(s, i),
{
    let hull = (s[p].0, if s[p].1 >= s[p + 1].1 { s[p].1 } else { s[p + 1].1 });
    let t = s.update(p, hull).remove(p + 1);
    if covered(s, i) {
        let k = choose|k: int| 0 <= k < s.len() && (#[trigger] s[k]).0 <= i < s[k].1;
        if k < p {
            assert(t[k] == s[k]);
        } else if k == p || k == p + 1 {
            assert(t[p] == hull);
        } else {
            assert(t[k - 1] == s[k]);
        }
    }
    if covered(t, i) {
        let k = choose|k: int| 0 <= k < t.len() && (#[trigger] t[k]).0 <= i < t[k].1;
        if k < p {
            assert(t[k] == s[k]);
        } else if k == p {
            assert(t[p] == hull);
            if i < s[p].1 {
                assert(s[p].0 <= i < s[p].1);
            } else {
                assert(s[p + 1].0 <= i < s[p + 1].1);
            }
        } else {
            assert(t[k] == s[k + 1]);
        }
    }
}

/// Two canonical lists that cover the same bytes are the same list.
pub proof fn lemma_canonical_unique(a: Seq<(int, int)>, b: Seq<(int, int)>, size: int)
    requires
        canonical(a, size),
        canonical(b, size),
        forall|i: int| #![trigger covered(a, i)] #![trigger covered(b, i)] covered(a, i) <==> covered(b, i),
    ensures
        a == b,
    decreases a.len(),
{
    if a.len() == 0 {
        if b.len() > 0 {
            assert(covered(b, b[0].0));
        }
        assert(a =~= b);
    } else if b.len() == 0 {
        assert(covered(a, a[0].0));
    } else {
        lemma_first_range(a, size);
        lemma_first_range(b, size);
        // Both lists start with the same range.
        assert(covered(a, a[0].0));
        assert(covered(b, b[0].0));
        assert(a[0].0 == b[0].0);
        assert(covered(a, a[0].1 - 1));
        assert(covered(b, b[0].1 - 1));
        assert(a[0].1 == b[0].1) by {
            if a[0].1 < b[0].1 {
                assert(b[0].0 <= a[0].1 < b[0].1);
                assert(covered(b, a[0].1));
            } else if b[0].1 < a[0].1 {
                assert(a[0].0 <= b[0].1 < a[0].1);
                assert(covered(a, b[0].1));
            }
        }
        let ta = a.subrange(1, a.len() as int);
        let tb = b.subrange(1, b.len() as int);
        assert forall|i: int| #![trigger covered(ta, i)] #![trigger covered(tb, i)] covered(ta, i) <==> covered(tb, i) by {
            lemma_covered_tail(a, size, i);
            lemma_covered_tail(b, size, i);
        }
        lemma_canonical_unique(ta, tb, size);
        assert(a =~= seq![a[0]] + ta);
        assert(b =~= seq![b[0]] + tb);
    }
}

/// A list that is the union is the list that [`inserted`] names.
pub proof fn lemma_inserted(
    result: Seq<(int, int)>,
    ranges: Seq<(int, int)>,
    size: int,
    lo: int,
    hi: int,
)
    requires
        is_union(result, ranges, size, lo, hi),
    ensures
        result == inserted(ranges, size, lo, hi),
{
    let chosen = inserted(ranges, size, lo, hi);
    assert(is_union(chosen, ranges, size, lo, hi));
    assert forall|i: int|
        #![trigger covered(result, i)]
        #![trigger covered(chosen, i)]
        covered(result, i) <==> covered(chosen, i) by {}
    lemma_canonical_unique(result, chosen, size);
}

/// For every set of bytes there is a canonical list that covers exactly the
/// bytes of the set within `[0, size)`.
pub proof fn lemma_canonical_exists(cov: spec_fn(int) -> bool, size: int) -> (r: Seq<(int, int)>)
    requires
        0 <= size,
    ensures
        canonical(r, size),
        forall|i: int| #[trigger] covered(r, i) <==> (0 <= i < size && cov(i)),
    decreases size,
{
    if size == 0 {
        Seq::empty()
    } else {
        let prev = lemma_canonical_exists(cov, size - 1);
        let last = prev.len() - 1;
        if !cov(size - 1) {
            assert forall|i: int| #[trigger] covered(prev, i) <==> (0 <= i < size && cov(i)) by {}
            prev
        } else if prev.len() > 0 && prev[last].1 == size - 1 {
            let grown = (prev[last].0, size);
            let r = prev.update(last, grown);
            assert forall|k: int| 0 <= k < r.len() implies 0 <= (#[trigger] r[k]).0 < r[k].1
                <= size by {
                if k != last {
                    assert(r[k] == prev[k]);
                } else {
                    assert(0 <= prev[last].0 < prev[last].1);
                }
            }
            assert forall|j: int, k: int| 0 <= j < k < r.len() implies (#[trigger] r[j]).1 < (
            #[trigger] r[k]).0 by {
                assert(prev[j].1 < prev[k].0);
            }
            assert forall|i: int| #[trigger] covered(r, i) <==> (0 <= i < size && cov(i)) by {
                if covered(r, i) {
                    let k = choose|k: int| 0 <= k < r.len() && (#[trigger] r[k]).0 <= i < r[k].1;
                    if k != last {
                        assert(prev[k] == r[k]);
                        assert(covered(prev, i));
                    } else if i < size - 1 {
                        assert(prev[last].0 <= i < prev[last].1);
                        assert(covered(prev, i));
                    }
                }
                if 0 <= i < size && cov(i) {
                    if i == size - 1 {
                        assert(r[last] == grown);
                        assert(0 <= prev[last].0 < prev[last].1);
                    } else {
                        assert(covered(prev, i));
                        let k = choose|k: int|
                            0 <= k < prev.len() && (#[trigger] prev[k]).0 <= i < prev[k].1;
                        if k != last {
                            assert(r[k] == prev[k]);
                        } else {
                            assert(r[last] == grown);
                        }
                    }
                }
            }
            r
        } else {
            let r = prev.push((size - 1, size));
            assert forall|k: int| 0 <= k < r.len() implies 0 <= (#[trigger] r[k]).0 < r[k].1
                <= size by {
                if k < prev.len() {
                    assert(r[k] == prev[k]);
                }
            }
            assert forall|j: int, k: int| 0 <= j < k < r.len() implies (#[trigger] r[j]).1 < (
            #[trigger] r[k]).0 by {
                if k < prev.len() {
                    assert(prev[j].1 < prev[k].0);
                } else {
                    assert(r[j] == prev[j]);
                    assert(prev[j].1 <= size - 1);
                    if j < last {
                        assert(prev[j].1 < prev[last].0);
                        assert(prev[last].0 < prev[last].1 <= size - 1);
                    }
                }
            }
            assert forall|i: int| #[trigger] covered(r, i) <==> (0 <= i < size && cov(i)) by {
                if covered(r, i) {
                    let k = choose|k: int| 0 <= k < r.len() && (#[trigger] r[k]).0 <= i < r[k].1;
                    if k < prev.len() {
                        assert(prev[k] == r[k]);
                        assert(covered(prev, i));
                    }
                }
                if 0 <= i < size && cov(i) {
                    if i == size - 1 {
                        assert(r[prev.len() as int] == (size - 1, size));
                    } else {
                        assert(covered(prev, i));
                        let k = choose|k: int|
                            0 <= k < prev.len() && (#[trigger] prev[k]).0 <= i < prev[k].1;
                        assert(r[k] == prev[k]);
                    }
                }
            }
            r
        }
    }
}

/// The list that [`inserted`] names is the union.
pub proof fn lemma_inserted_union(ranges: Seq<(int, int)>, size: int, lo: int, hi: int)
    requires
        canonical(ranges, size),
    ensures
        is_union(inserted(ranges, size, lo, hi), ranges, size, lo, hi),
{
    let cov = |i: int| covered(ranges, i) || lo <= i < hi;
    let r = lemma_canonical_exists(cov, size);
    assert forall|i: int| #[trigger]
        covered(r, i) <==> covered(ranges, i) || (lo <= i < hi && 0 <= i < size) by {
        if covered(ranges, i) {
            lemma_covered_within(ranges, size, i);
        }
    }
    assert(is_union(r, ranges, size, lo, hi));
}

/// What is left of the holes when the head of the first hole, up to `end`,
/// is taken.
pub open spec fn gaps_after_carving(gaps: Seq<(int, int)>, end: int) -> Seq<(int, int)> {
    if end < gaps[0].1 {
        gaps.update(0, (end, gaps[0].1))
    } else {
        gaps.subrange(1, gaps.len() as int)
    }
}

/// Recording the head of the first hole, up to `end`, leaves the holes
/// that [`gaps_after_carving`] names.
pub proof fn lemma_carve_gaps(ranges: Seq<(int, int)>, size: int, end: int)
    requires
        canonical(ranges, size),
        gaps_from(ranges, size, 0).len() > 0,
        gaps_from(ranges, size, 0)[0].0 < end <= gaps_from(ranges, size, 0)[0].1,
    ensures
        canonical(inserted(ranges, size, gaps_from(ranges, size, 0)[0].0, end), size),
        gaps_from(inserted(ranges, size, gaps_from(ranges, size, 0)[0].0, end), size, 0)
            == gaps_after_carving(gaps_from(ranges, size, 0), end),
{
    let gaps = gaps_from(ranges, size, 0);
    let lo = gaps[0].0;
    let next = inserted(ranges, size, lo, end);
    let left = gaps_after_carving(gaps, end);
    let next_gaps = gaps_from(next, size, 0);
    lemma_inserted_union(ranges, size, lo, end);
    lemma_gaps_from(ranges, size, 0);
    lemma_gaps_from(next, size, 0);
    assert(0 <= gaps[0].0 < gaps[0].1 <= size);
    assert forall|k: int| 0 <= k < left.len() implies 0 <= (#[trigger] left[k]).0 < left[k].1
        <= size by {
        if end < gaps[0].1 {
            if k > 0 {
                assert(left[k] == gaps[k]);
                assert(0 <= gaps[k].0 < gaps[k].1 <= size);
            }
        } else {
            assert(left[k] == gaps[k + 1]);
            assert(0 <= gaps[k + 1].0 < gaps[k + 1].1 <= size);
        }
    }
    assert forall|j: int, k: int| 0 <= j < k < left.len() implies (#[trigger] left[j]).1 < (
    #[trigger] left[k]).0 by {
        if end < gaps[0].1 {
            assert(gaps[j].1 < gaps[k].0);
        } else {
            assert(gaps[j + 1].1 < gaps[k + 1].0);
        }
    }
    assert forall|i: int|
        #![trigger covered(left, i)]
        #![trigger covered(next_gaps, i)]
        covered(left, i) <==> covered(next_gaps, i) by {
        // Both hold exactly the bytes of `gaps` that do not lie in `[lo, end)`.
        assert(covered(left, i) <==> covered(gaps, i) && !(lo <= i < end)) by {
            if covered(left, i) {
                let k = choose|k: int| 0 <= k < left.len() && (#[trigger] left[k]).0 <= i < left[k].1;
                if end < gaps[0].1 {
                    if k > 0 {
                        assert(left[k] == gaps[k]);
                        assert(gaps[0].1 < gaps[k].0);
                    } else {
                        assert(gaps[0].0 <= i < gaps[0].1);
                    }
                } else {
                    assert(left[k] == gaps[k + 1]);
                    assert(gaps[0].1 < gaps[k + 1].0);
                }
            }
            if covered(gaps, i) && !(lo <= i < end) {
                let k = choose|k: int| 0 <= k < gaps.len() && (#[trigger] gaps[k]).0 <= i < gaps[k].1;
                if end < gaps[0].1 {
                    if k > 0 {
                        assert(left[k] == gaps[k]);
                    } else {
                        assert(left[0] == (end, gaps[0].1));
                    }
                } else {
                    if k == 0 {
                        assert(false);
                    }
                    assert(left[k - 1] == gaps[k]);
                }
            }
        }
        if covered(next_gaps, i) {
            let k = choose|k: int|
                0 <= k < next_gaps.len() && (#[trigger] next_gaps[k]).0 <= i < next_gaps[k].1;
            assert(0 <= next_gaps[k].0 < next_gaps[k].1 <= size);
        }
        if covered(gaps, i) {
            let k = choose|k: int| 0 <= k < gaps.len() && (#[trigger] gaps[k]).0 <= i < gaps[k].1;
            assert(0 <= gaps[k].0 < gaps[k].1 <= size);
        }
    }
    lemma_canonical_unique(left, next_gaps, size);
}

/// After any sequence of inserts the ranges are sorted, disjoint and do not
/// touch, and they cover exactly the bytes of the message that an insert
/// held.
pub proof fn lemma_insert_all(size: int, inserts: Seq<(int, int)>)
    requires
        0 <= size,
    ensures
        canonical(insert_all(size, inserts), size),
        forall|i: int| #[trigger]
            covered(insert_all(size, inserts), i) <==> 0 <= i < size && covered(inserts, i),
    decreases inserts.len(),
{
    let all = insert_all(size, inserts);
    if inserts.len() == 0 {
        assert(canonical(all, size));
        assert forall|i: int| #[trigger] covered(all, i) <==> 0 <= i < size && covered(inserts, i) by {}
    } else {
        let init = inserts.drop_last();
        let last = inserts.last();
        lemma_insert_all(size, init);
        lemma_inserted_union(insert_all(size, init), size, last.0, last.1);
        assert forall|i: int| #[trigger] covered(all, i) <==> 0 <= i < size && covered(inserts, i) by {
            if covered(init, i) {
                let k = choose|k: int| 0 <= k < init.len() && (#[trigger] init[k]).0 <= i < init[k].1;
                assert(inserts[k] == init[k]);
            }
            if last.0 <= i < last.1 {
                assert(inserts[inserts.len() - 1] == last);
            }
            if covered(inserts, i) {
                let k = choose|k: int|
                    0 <= k < inserts.len() && (#[trigger] inserts[k]).0 <= i < inserts[k].1;
                if k < init.len() {
                    assert(init[k] == inserts[k]);
                }
            }
        }
    }
}

/// A canonical list is the one range `[0, size)` exactly where the message
/// is not empty and every byte of it is covered.
pub proof fn lemma_finished(ranges: Seq<(int, int)>, size: int)
    requires
        canonical(ranges, size),
    ensures
        ranges == seq![(0int, size)] <==> size > 0 && forall|i: int|
            0 <= i < size ==> #[trigger] covered(ranges, i),
{
    if ranges == seq![(0int, size)] {
        assert(ranges[0] == (0int, size));
        assert(0 <= ranges[0].0 < ranges[0].1);
        assert forall|i: int| 0 <= i < size implies #[trigger] covered(ranges, i) by {
            assert(ranges[0].0 <= i < ranges[0].1);
        }
    }
    if size > 0 && forall|i: int| 0 <= i < size ==> #[trigger] covered(ranges, i) {
        lemma_gaps_from(ranges, size, 0);
        let gaps = gaps_from(ranges, size, 0);
        if gaps.len() > 0 {
            assert(0 <= gaps[0].0 < gaps[0].1 <= size);
            assert(covered(gaps, gaps[0].0));
            assert(covered(ranges, gaps[0].0));
        }
        lemma_no_gaps_full(ranges, size);
    }
}

/// A canonical list covers only bytes of the message.
pub proof fn lemma_covered_within(ranges: Seq<(int, int)>, size: int, i: int)
    requires
        canonical(ranges, size),
        covered(ranges, i),
    ensures
        0 <= i < size,
{
}

/// A canonical list without holes is the full list.
pub proof fn lemma_no_gaps_full(ranges: Seq<(int, int)>, size: int)
    requires
        canonical(ranges, size),
        gaps_from(ranges, size, 0).len() == 0,
    ensures
        ranges == full(size),
{
    lemma_gaps_from(ranges, size, 0);
    let f = full(size);
    assert forall|i: int|
        #![trigger covered(ranges, i)]
        #![trigger covered(f, i)]
        covered(ranges, i) <==> covered(f, i) by {
        if covered(f, i) {
            assert(0 <= i < size);
            assert(!covered(gaps_from(ranges, size, 0), i));
        }
        if covered(ranges, i) {
            lemma_covered_within(ranges, size, i);
            assert(f[0] == (0int, size));
        }
    }
    lemma_canonical_unique(ranges, f, size);
}

/// In a canonical list the first range holds the least covered byte, and the
/// byte at its end is not covered.
proof fn lemma_first_range(a: Seq<(int, int)>, size: int)
    requires
        canonical(a, size),
        a.len() > 0,
    ensures
        forall|i: int| #[trigger] covered(a, i) ==> a[0].0 <= i,
        forall|i: int| a[0].0 <= i < a[0].1 ==> #[trigger] covered(a, i),
        !covered(a, a[0].1),
{
    assert forall|i: int| #[trigger] covered(a, i) implies a[0].0 <= i by {
        let k = choose|k: int| 0 <= k < a.len() && (#[trigger] a[k]).0 <= i < a[k].1;
        if k > 0 {
            assert(a[0].1 < a[k].0);
        }
    }
    if covered(a, a[0].1) {
        let k = choose|k: int| 0 <= k < a.len() && (#[trigger] a[k]).0 <= a[0].1 < a[k].1;
        if k > 0 {
            assert(a[0].1 < a[k].0);
        }
    }
}

/// The tail of a canonical list is canonical and covers what the list covers
/// behind its first range.
proof fn lemma_covered_tail(a: Seq<(int, int)>, size: int, i: int)
    requires
        canonical(a, size),
        a.len() > 0,
    ensures
        canonical(a.subrange(1, a.len() as int), size),
        covered(a.subrange(1, a.len() as int), i) <==> covered(a, i) && i >= a[0].1,
{
    let t = a.subrange(1, a.len() as int);
    assert forall|k: int| 0 <= k < t.len() implies 0 <= (#[trigger] t[k]).0 < t[k].1 <= size by {
        assert(t[k] == a[k + 1]);
    }
    assert forall|j: int, k: int| 0 <= j < k < t.len() implies (#[trigger] t[j]).1 < (
    #[trigger] t[k]).0 by {
        assert(t[j] == a[j + 1]);
        assert(t[k] == a[k + 1]);
    }
    if covered(t, i) {
        let k = choose|k: int| 0 <= k < t.len() && (#[trigger] t[k]).0 <= i < t[k].1;
        assert(t[k] == a[k + 1]);
        assert(a[0].1 < a[k + 1].0);
    }
    if covered(a, i) && i >= a[0].1 {
        let k = choose|k: int| 0 <= k < a.len() && (#[trigger] a[k]).0 <= i < a[k].1;
        assert(k > 0);
        assert(t[k - 1] == a[k]);
    }
}

/// The holes from number `pos` on are non-empty, ascending and apart, lie
/// between the end of range `pos - 1` and `size`, and hold exactly the bytes
/// there that no range covers.
pub proof fn lemma_gaps_from(ranges: Seq<(int, int)>, size: int, pos: int)
    requires
        canonical(ranges, size),
        0 <= pos <= ranges.len(),
    ensures
        forall|k: int|
            0 <= k < gaps_from(ranges, size, pos).len() ==> gap_lower(ranges, pos) <= (
            #[trigger] gaps_from(ranges, size, pos)[k]).0 < gaps_from(ranges, size, pos)[k].1
                <= size,
        forall|j: int, k: int|
            0 <= j < k < gaps_from(ranges, size, pos).len() ==> (#[trigger] gaps_from(
                ranges,
                size,
                pos,
            )[j]).1 < (#[trigger] gaps_from(ranges, size, pos)[k]).0,
        forall|i: int|
            #![trigger covered(gaps_from(ranges, size, pos), i)]
            #![trigger covered(ranges, i)]
            gap_lower(ranges, pos) <= i < size ==> (covered(gaps_from(ranges, size, pos), i)
                <==> !covered(ranges, i)),
    decreases ranges.len() - pos,
{
    let g = gaps_from(ranges, size, pos);
    let lower = gap_lower(ranges, pos);
    let upper = gap_upper(ranges, size, pos);
    let rest = gaps_from(ranges, size, pos + 1);
    if pos > 0 {
        assert(ranges[pos - 1].1 <= size);
    }
    if pos < ranges.len() {
        lemma_gaps_from(ranges, size, pos + 1);
        assert(lower < ranges[pos].1) by {
            if pos > 0 {
                assert(ranges[pos - 1].1 < ranges[pos].0);
            }
        }
    } else {
        assert(rest =~= Seq::empty());
    }
    assert(lower <= upper) by {
        if pos > 0 && pos < ranges.len() {
            assert(ranges[pos - 1].1 < ranges[pos].0);
        } else if pos < ranges.len() {
            assert(0 <= ranges[pos].0);
        }
    }
    let first = (lower, upper);
    if lower != upper {
        assert(g == seq![first] + rest);
        assert(g[0] == first);
        assert forall|k: int| 0 < k < g.len() implies g[k] == rest[k - 1] by {}
    } else {
        assert(g == rest);
    }
    assert forall|j: int, k: int| 0 <= j < k < g.len() implies (#[trigger] g[j]).1 < (
    #[trigger] g[k]).0 by {
        if lower != upper {
            assert(g[k] == rest[k - 1]);
            if j > 0 {
                assert(g[j] == rest[j - 1]);
            }
        }
    }
    assert forall|i: int|
        #![trigger covered(g, i)]
        #![trigger covered(ranges, i)]
        lower <= i < size implies (covered(g, i) <==> !covered(ranges, i)) by {
        if i < upper {
            // The byte lies in hole `pos`.
            assert(g[0] == first);
            assert(covered(g, i));
            if covered(ranges, i) {
                let k = choose|k: int|
                    0 <= k < ranges.len() && (#[trigger] ranges[k]).0 <= i < ranges[k].1;
                if k < pos {
                    if k < pos - 1 {
                        assert(ranges[k].1 < ranges[pos - 1].0);
                    }
                    assert(ranges[pos - 1].0 < ranges[pos - 1].1);
                } else if k > pos {
                    assert(ranges[pos].1 < ranges[k].0);
                }
            }
        } else {
            // Here `pos < ranges.len()`, and the byte lies at or behind range `pos`.
            assert(pos < ranges.len());
            if i < ranges[pos].1 {
                assert(covered(ranges, i));
                if covered(g, i) {
                    let k = choose|k: int| 0 <= k < g.len() && (#[trigger] g[k]).0 <= i < g[k].1;
                    if lower != upper && k > 0 {
                        assert(g[k] == rest[k - 1]);
                    }
                }
            } else {
                if covered(g, i) {
                    let k = choose|k: int| 0 <= k < g.len() && (#[trigger] g[k]).0 <= i < g[k].1;
                    if lower != upper {
                        assert(k > 0);
                        assert(g[k] == rest[k - 1]);
                    }
                    assert(covered(rest, i));
                }
                if covered(rest, i) {
                    let k = choose|k: int|
                        0 <= k < rest.len() && (#[trigger] rest[k]).0 <= i < rest[k].1;
                    if lower != upper {
                        assert(g[k + 1] == rest[k]);
                    }
                    assert(covered(g, i));
                }
            }
        }
    }
}

/// Range `k` of a canonical list ends behind byte `2 * k`, so a message of
/// `size` bytes has at most `(size + 1) / 2` ranges.
proof fn lemma_range_count(ranges: Seq<(int, int)>, size: int, k: int)
    requires
        canonical(ranges, size),
        0 <= k < ranges.len(),
    ensures
        ranges[k].1 >= 2 * k + 1,
        2 * k + 1 <= size,
    decreases k,
{
    if k > 0 {
        lemma_range_count(ranges, size, k - 1);
        assert(ranges[k - 1].1 < ranges[k].0);
    }
    assert(0 <= ranges[k].0 < ranges[k].1 <= size);
}

/// What portion of a message is delivered: a canonical list of byte ranges
/// within `[0, size)`.
pub struct DeliveredIntervals {
    size: usize,
    intervals: Vec<Range<usize>>,
}

/// A cursor over the holes of a [`DeliveredIntervals`], in ascending order.
pub struct DeliveredIntervalsGaps<'a> {
    next: usize,
    intervals: &'a DeliveredIntervals,
}

impl DeliveredIntervals {
    /// The size of the message in bytes.
    pub closed spec fn size(&self) -> int {
        self.size as int
    }

    /// The delivered ranges as pairs `(start, end)`.
    pub closed spec fn ranges(&self) -> Seq<(int, int)> {
        range_pairs(self.intervals@)
    }

    /// The ranges are canonical for the message's size.
    pub open spec fn wf(&self) -> bool {
        canonical(self.ranges(), self.size())
    }

    /// Whether byte `i` is delivered.
    pub open spec fn covers(&self, i: int) -> bool {
        covered(self.ranges(), i)
    }

    /// The undelivered holes as pairs `(start, end)`, in ascending order.
    pub open spec fn spec_gaps(&self) -> Seq<(int, int)> {
        gaps_from(self.ranges(), self.size(), 0)
    }

    /// The holes of a well-formed set are not empty, ascend with delivered
    /// bytes between any two of them, and hold exactly the bytes of the
    /// message that are not delivered.
    pub proof fn lemma_gaps(&self)
        requires
            self.wf(),
        ensures
            forall|k: int|
                0 <= k < self.spec_gaps().len() ==> 0 <= (#[trigger] self.spec_gaps()[k]).0
                    < self.spec_gaps()[k].1 <= self.size(),
            forall|j: int, k: int|
                0 <= j < k < self.spec_gaps().len() ==> (#[trigger] self.spec_gaps()[j]).1 < (
                #[trigger] self.spec_gaps()[k]).0,
            forall|i: int|
                #![trigger covered(self.spec_gaps(), i)]
                #![trigger self.covers(i)]
                0 <= i < self.size() ==> (covered(self.spec_gaps(), i) <==> !self.covers(i)),
    {
        lemma_gaps_from(self.ranges(), self.size(), 0);
    }

    /// Nothing delivered yet of a message of `size` bytes.
    pub fn new(size: usize) -> (d: Self)
        ensures
            d.wf(),
            d.size() == size,
            d.ranges() == Seq::<(int, int)>::empty(),
    {
        let d = DeliveredIntervals { size, intervals: Vec::new() };
        assert(d.ranges() =~= Seq::<(int, int)>::empty());
        d
    }

    /// The size of the message in bytes.
    pub fn len(&self) -> (n: usize)
        ensures
            n == self.size(),
    {
        self.size
    }

    /// A copy with the same size and ranges.
    pub fn duplicate(&self) -> (d: Self)
        ensures
            d.size() == self.size(),
            d.ranges() == self.ranges(),
    {
        let mut intervals: Vec<Range<usize>> = Vec::new();
        let mut k: usize = 0;
        while k < self.intervals.len()
            invariant
                k <= self.intervals.len(),
                intervals.len() == k,
                forall|j: int|
                    0 <= j < k ==> (#[trigger] intervals[j]).start == self.intervals[j].start
                        && intervals[j].end == self.intervals[j].end,
            decreases self.intervals.len() - k,
        {
            intervals.push(self.intervals[k].start..self.intervals[k].end);
            k += 1;
        }
        let d = DeliveredIntervals { size: self.size, intervals };
        assert(d.ranges() =~= self.ranges());
        d
    }

    /// The first position whose range starts at or behind `start`.
    fn position(&self, start: usize) -> (idx: usize)
        requires
            self.wf(),
        ensures
            idx <= self.intervals.len(),
            forall|k: int| 0 <= k < idx ==> (#[trigger] self.intervals[k]).start < start,
            forall|k: int|
                idx <= k < self.intervals.len() ==> (#[trigger] self.intervals[k]).start >= start,
    {
        let mut low: usize = 0;
        let mut high: usize = self.intervals.len();
        while low < high
            invariant
                self.wf(),
                low <= high <= self.intervals.len(),
                forall|k: int| 0 <= k < low ==> (#[trigger] self.intervals[k]).start < start,
                forall|k: int|
                    high <= k < self.intervals.len() ==> (#[trigger] self.intervals[k]).start
                        >= start,
            decreases high - low,
        {
            let mid: usize = low + (high - low) / 2;
            proof {
                let r = self.ranges();
                assert forall|k: int| 0 <= k < mid implies (#[trigger] self.intervals[k]).start
                    < self.intervals[mid as int].start by {
                    assert(r[k].1 < r[mid as int].0);
                    assert(r[k].0 < r[k].1);
                }
                assert forall|k: int|
                    mid < k < self.intervals.len() implies (#[trigger] self.intervals[k]).start
                    > self.intervals[mid as int].start by {
                    assert(r[mid as int].1 < r[k].0);
                    assert(r[mid as int].0 < r[mid as int].1);
                }
            }
            if self.intervals[mid].start < start {
                low = mid + 1;
            } else {
                high = mid;
            }
        }
        low
    }

    /// Records that `range` is delivered, as far as it lies within the
    /// message; an empty range changes nothing. Ranges that touch or overlap
    /// are merged.
    pub fn set_delivered(&mut self, range: Range<usize>)
        requires
            old(self).wf(),
        ensures
            final(self).wf(),
            final(self).size() == old(self).size(),
            forall|i: int|
                #![trigger final(self).covers(i)]
                #![trigger old(self).covers(i)]
                final(self).covers(i) <==> old(self).covers(i) || (range.start <= i < range.end
                    && i < old(self).size()),
            final(self).ranges() == inserted(
                old(self).ranges(),
                old(self).size(),
                range.start as int,
                range.end as int,
            ),
    {
        let start = range.start;
        let end = if range.end <= self.size {
            range.end
        } else {
            self.size
        };
        if start >= end {
            proof {
                lemma_inserted(
                    self.ranges(),
                    self.ranges(),
                    self.size(),
                    range.start as int,
                    range.end as int,
                );
            }
            return ;
        }
        let ghost before = self.ranges();
        let ghost size = self.size();
        let ghost first = self.intervals@;
        let index = self.position(start);
        self.intervals.insert(index, start..end);
        proof {
            let s = range_pairs(self.intervals@);
            assert(s =~= before.insert(index as int, (start as int, end as int)));
            assert forall|i: int| #[trigger]
                covered(s, i) <==> covered(before, i) || (start <= i && i < end) by {
                lemma_covered_insert(before, index as int, (start as int, end as int), i);
            }
            assert forall|k: int| 0 <= k < first.len() implies 0 <= (#[trigger] first[k]).start
                < first[k].end <= size by {
                assert(before[k] == (first[k].start as int, first[k].end as int));
            }
            assert forall|j: int, k: int| 0 <= j < k < first.len() implies (
            #[trigger] first[j]).start < (#[trigger] first[k]).start by {
                assert(before[j] == (first[j].start as int, first[j].end as int));
                assert(before[k] == (first[k].start as int, first[k].end as int));
                assert(before[j].1 < before[k].0);
            }
            assert forall|k: int| 0 <= k < self.intervals.len() implies 0 <= (
            #[trigger] self.intervals[k]).start < self.intervals[k].end <= size by {
                if k < index {
                    assert(self.intervals[k] == first[k]);
                } else if k > index {
                    assert(self.intervals[k] == first[k - 1]);
                }
            }
            assert forall|j: int, k: int| 0 <= j < k < self.intervals.len() implies (
            #[trigger] self.intervals[j]).start <= (#[trigger] self.intervals[k]).start by {
                let oj = if j < index { j } else { j - 1 };
                let ok = if k < index { k } else { k - 1 };
                if j != index {
                    assert(self.intervals[j] == first[oj]);
                }
                if k != index {
                    assert(self.intervals[k] == first[ok]);
                }
            }
        }
        let mut pointer: usize = 0;
        while pointer + 1 < self.intervals.len()
            invariant
                self.size() == size,
                pointer < self.intervals.len(),
                forall|k: int|
                    0 <= k < self.intervals.len() ==> 0 <= (#[trigger] self.intervals[k]).start
                        < self.intervals[k].end <= size,
                forall|j: int, k: int|
                    0 <= j < k < self.intervals.len() ==> (#[trigger] self.intervals[j]).start <= (
                    #[trigger] self.intervals[k]).start,
                forall|j: int, k: int|
                    0 <= j < k <= pointer ==> (#[trigger] self.intervals[j]).end < (
                    #[trigger] self.intervals[k]).start,
                forall|i: int|
                    #[trigger] covered(range_pairs(self.intervals@), i) <==> covered(before, i) || (
                    start <= i && i < end),
            decreases self.intervals.len() - pointer,
        {
            let lower_start = self.intervals[pointer].start;
            let lower_end = self.intervals[pointer].end;
            let higher_start = self.intervals[pointer + 1].start;
            let higher_end = self.intervals[pointer + 1].end;
            if higher_start <= lower_end {
                let hull_end = if lower_end >= higher_end {
                    lower_end
                } else {
                    higher_end
                };
                let ghost prev = self.intervals@;
                self.intervals.set(pointer, lower_start..hull_end);
                self.intervals.remove(pointer + 1);
                proof {
                    let s = range_pairs(prev);
                    let p = pointer as int;
                    let t = range_pairs(self.intervals@);
                    assert(s[p] == (lower_start as int, lower_end as int));
                    assert(s[p + 1] == (higher_start as int, higher_end as int));
                    assert(t =~= s.update(p, (s[p].0, if s[p].1 >= s[p + 1].1 {
                        s[p].1
                    } else {
                        s[p + 1].1
                    })).remove(p + 1));
                    assert forall|i: int|
                        #[trigger] covered(t, i) <==> covered(before, i) || (start <= i && i
                            < end) by {
                        lemma_covered_merge(s, p, i);
                    }
                    assert forall|j: int, k: int|
                        0 <= j < k < self.intervals.len() implies (
                    #[trigger] self.intervals[j]).start <= (#[trigger] self.intervals[k]).start by {
                        let oj = if j <= p { j } else { j + 1 };
                        let ok = if k <= p { k } else { k + 1 };
                        assert(prev[oj].start <= prev[ok].start);
                    }
                    assert forall|k: int| 0 <= k < self.intervals.len() implies 0 <= (
                    #[trigger] self.intervals[k]).start < self.intervals[k].end <= size by {
                        let ok = if k <= p { k } else { k + 1 };
                        assert(0 <= prev[ok].start < prev[ok].end <= size);
                        assert(0 <= prev[p + 1].start < prev[p + 1].end <= size);
                    }
                    assert forall|j: int, k: int| 0 <= j < k <= pointer implies (
                    #[trigger] self.intervals[j]).end < (#[trigger] self.intervals[k]).start by {
                        assert(prev[j].end < prev[k].start);
                    }
                }
            } else {
                proof {
                    assert forall|j: int, k: int| 0 <= j < k <= pointer + 1 implies (
                    #[trigger] self.intervals[j]).end < (#[trigger] self.intervals[k]).start by {
                        if k == pointer + 1 {
                            if j < pointer {
                                assert(self.intervals[j].end < self.intervals[pointer as int].start);
                            }
                            assert(self.intervals[pointer as int].start
                                < self.intervals[pointer as int].end);
                        }
                    }
                }
                pointer += 1;
            }
        }
        proof {
            let t = self.ranges();
            assert forall|k: int| 0 <= k < t.len() implies 0 <= (#[trigger] t[k]).0 < t[k].1
                <= size by {
                assert(0 <= self.intervals[k].start < self.intervals[k].end <= size);
            }
            assert forall|j: int, k: int| 0 <= j < k < t.len() implies (#[trigger] t[j]).1 < (
            #[trigger] t[k]).0 by {
                assert(self.intervals[j].end < self.intervals[k].start);
            }
            lemma_inserted(t, before, size, range.start as int, range.end as int);
        }
    }

    /// Whether the whole message is delivered: the list is the one range `[0, size)`.
    pub fn finished(&self) -> (b: bool)
        requires
            self.wf(),
        ensures
            b <==> self.ranges() == seq![(0int, self.size())],
    {
        if self.intervals.len() == 0 {
            assert(self.ranges().len() == 0);
            assert(seq![(0int, self.size())].len() == 1);
            return false;
        }
        proof {
            let r = self.ranges();
            assert(r[0] == (self.intervals[0].start as int, self.intervals[0].end as int));
            if r[0] == (0int, self.size()) {
                if r.len() > 1 {
                    assert(r[0].1 < r[1].0);
                    assert(r[1].0 < r[1].1 <= self.size());
                }
                assert(r =~= seq![(0int, self.size())]);
            }
        }
        self.intervals[0].start == 0 && self.intervals[0].end == self.size
    }

    /// The first undelivered hole, if any byte is undelivered.
    pub fn first_gap(&self) -> (r: Option<Range<usize>>)
        requires
            self.wf(),
        ensures
            match r {
                Some(gap) => self.spec_gaps().len() > 0 && self.spec_gaps()[0] == (
                    gap.start as int,
                    gap.end as int,
                ),
                None => self.spec_gaps().len() == 0,
            },
    {
        let mut gaps = self.gaps();
        gaps.next()
    }

    /// A cursor over the undelivered holes, in ascending order.
    pub fn gaps(&self) -> (g: DeliveredIntervalsGaps<'_>)
        requires
            self.wf(),
        ensures
            g.wf(),
            g.remaining() == self.spec_gaps(),
    {
        DeliveredIntervalsGaps { next: 0, intervals: self }
    }
}

impl<'a> DeliveredIntervalsGaps<'a> {
    /// The cursor's position is a hole number of a well-formed set.
    pub closed spec fn wf(&self) -> bool {
        &&& self.intervals.wf()
        &&& self.next <= self.intervals.intervals.len() + 1
    }

    /// The holes that the cursor has yet to hand out.
    pub closed spec fn remaining(&self) -> Seq<(int, int)> {
        gaps_from(self.intervals.ranges(), self.intervals.size(), self.next as int)
    }

    /// Hands out the next hole, or `None` when there is none left.
    pub fn next(&mut self) -> (r: Option<Range<usize>>)
        requires
            old(self).wf(),
        ensures
            final(self).wf(),
            match r {
                Some(gap) => old(self).remaining().len() > 0 && old(self).remaining()[0] == (
                    gap.start as int,
                    gap.end as int,
                ) && final(self).remaining() == old(self).remaining().subrange(
                    1,
                    old(self).remaining().len() as int,
                ),
                None => old(self).remaining().len() == 0 && final(self).remaining().len() == 0,
            },
    {
        let ghost ranges = self.intervals.ranges();
        let ghost size = self.intervals.size();
        let count = self.intervals.intervals.len();
        proof {
            if count > 0 {
                lemma_range_count(ranges, size, count - 1);
            }
        }
        while self.next <= count
            invariant
                self.intervals == old(self).intervals,
                self.intervals.wf(),
                ranges == self.intervals.ranges(),
                size == self.intervals.size(),
                count == self.intervals.intervals.len(),
                self.next <= count + 1,
                count < usize::MAX,
                gaps_from(ranges, size, self.next as int) == old(self).remaining(),
            decreases count + 1 - self.next,
        {
            let lower = if self.next == 0 {
                0
            } else {
                self.intervals.intervals[self.next - 1].end
            };
            let upper = if self.next < count {
                self.intervals.intervals[self.next].start
            } else {
                self.intervals.size
            };
            proof {
                assert(lower == gap_lower(ranges, self.next as int));
                assert(upper == gap_upper(ranges, size, self.next as int));
            }
            self.next += 1;
            if lower != upper {
                proof {
                    let rest = gaps_from(ranges, size, self.next as int);
                    let all = old(self).remaining();
                    assert(all == seq![(lower as int, upper as int)] + rest);
                    assert(rest =~= all.subrange(1, all.len() as int));
                }
                return Some(lower..upper);
            }
        }
        None
    }
}

} // verus!
