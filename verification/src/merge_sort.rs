//! Merge sort over `i32` vectors: a recursive and an iterative driver
//! around a two-pointer merge of sorted ranges.

use vstd::multiset::Multiset;
use vstd::prelude::*;

verus! {

/// A half-open index range within a vector: `start` inclusive, `end` exclusive.
#[derive(Clone, Copy, PartialEq, Eq, Structural, Debug)]
pub struct Bounds {
    pub start: usize,
    pub end: usize,
}

/// The sequence is in non-decreasing order.
pub open spec fn sorted(s: Seq<i32>) -> bool {
    forall|i: int, j: int| 0 <= i < j < s.len() ==> s[i] <= s[j]
}

/// The index where `split` parts a range in two.
pub open spec fn mid_of(b: Bounds) -> int {
    b.start + (b.end - b.start) / 2
}

/// Parts a range of at least two elements into a left and a right half,
/// the left one holding the smaller indices.
fn split(bounds: &Bounds) -> (r: (Bounds, Bounds))
    requires
        bounds.start + 2 <= bounds.end,
    ensures
        r.0.start == bounds.start,
        r.0.end == mid_of(*bounds),
        r.1.start == mid_of(*bounds),
        r.1.end == bounds.end,
{
    let n = bounds.end - bounds.start;
    let half = n / 2 - 1;
    let left = Bounds { start: bounds.start, end: bounds.start + half + 1 };
    let right = Bounds { start: left.end, end: bounds.end };
    (left, right)
}

proof fn lemma_multiset_add_insert_left(m1: Multiset<i32>, m2: Multiset<i32>, x: i32)
    ensures
        m1.insert(x).add(m2) == m1.add(m2).insert(x),
{
    assert(m1.insert(x).add(m2) =~= m1.add(m2).insert(x));
}

proof fn lemma_multiset_add_insert_right(m1: Multiset<i32>, m2: Multiset<i32>, x: i32)
    ensures
        m1.add(m2.insert(x)) == m1.add(m2).insert(x),
{
    assert(m1.add(m2.insert(x)) =~= m1.add(m2).insert(x));
}

proof fn lemma_subrange_push(s: Seq<i32>, lo: int, k: int)
    requires
        0 <= lo <= k < s.len(),
    ensures
        s.subrange(lo, k + 1).to_multiset() == s.subrange(lo, k).to_multiset().insert(s[k]),
{
    assert(s.subrange(lo, k + 1) =~= s.subrange(lo, k).push(s[k]));
    vstd::seq_lib::to_multiset_build(s.subrange(lo, k), s[k]);
}

proof fn lemma_take_push(s: Seq<i32>, k: int)
    requires
        0 <= k < s.len(),
    ensures
        s.take(k + 1).to_multiset() == s.take(k).to_multiset().insert(s[k]),
{
    assert(s.take(k + 1) =~= s.take(k).push(s[k]));
    vstd::seq_lib::to_multiset_build(s.take(k), s[k]);
}

/// Merges the two sorted halves of `a[bounds.start..bounds.end]` into one
/// sorted vector holding exactly the elements of that range.
pub fn merge(a: &Vec<i32>, bounds: &Bounds) -> (r: Vec<i32>)
    requires
        bounds.start + 2 <= bounds.end,
        bounds.end <= a.len(),
        sorted(a@.subrange(bounds.start as int, mid_of(*bounds))),
        sorted(a@.subrange(mid_of(*bounds), bounds.end as int)),
    ensures
        sorted(r@),
        r@.to_multiset() == a@.subrange(bounds.start as int, bounds.end as int).to_multiset(),
        r.len() == bounds.end - bounds.start,
{
    broadcast use vstd::seq_lib::group_to_multiset_ensures;

    let (left, right) = split(bounds);
    let ghost ls = left.start as int;
    let ghost le = left.end as int;
    let ghost rs = right.start as int;
    let ghost re = right.end as int;

    let mut result: Vec<i32> = Vec::new();
    let mut i: usize = left.start;
    let mut j: usize = right.start;

    while i < left.end && j < right.end
        invariant
            left.start <= i <= left.end,
            right.start <= j <= right.end,
            ls == left.start as int && le == left.end as int,
            rs == right.start as int && re == right.end as int,
            ls <= le && rs <= re && le == rs && re <= a.len(),
            sorted(a@.subrange(ls, le)),
            sorted(a@.subrange(rs, re)),
            sorted(result@),
            result@.to_multiset() == a@.subrange(ls, i as int).to_multiset().add(
                a@.subrange(rs, j as int).to_multiset(),
            ),
            result.len() == (i - left.start) + (j - right.start),
            result.len() > 0 && i < left.end ==> result@.last() <= a@[i as int],
            result.len() > 0 && j < right.end ==> result@.last() <= a@[j as int],
        decreases (left.end - i) + (right.end - j),
    {
        proof {
            assert(a@.subrange(ls, le)[i - ls] == a@[ls + (i - ls)]);
            assert(a@.subrange(rs, re)[j - rs] == a@[rs + (j - rs)]);
        }
        if a[i] < a[j] {
            push_in_order(a, &mut result, i, Ghost(ls), Ghost(le));
            proof {
                lemma_subrange_push(a@, ls, i as int);
                lemma_multiset_add_insert_left(
                    a@.subrange(ls, i as int).to_multiset(),
                    a@.subrange(rs, j as int).to_multiset(),
                    a@[i as int],
                );
            }
            i = i + 1;
        } else {
            push_in_order(a, &mut result, j, Ghost(rs), Ghost(re));
            proof {
                lemma_subrange_push(a@, rs, j as int);
                lemma_multiset_add_insert_right(
                    a@.subrange(ls, i as int).to_multiset(),
                    a@.subrange(rs, j as int).to_multiset(),
                    a@[j as int],
                );
            }
            j = j + 1;
        }
    }

    while i < left.end
        invariant
            left.start <= i <= left.end,
            right.start <= j <= right.end,
            ls == left.start as int && le == left.end as int,
            rs == right.start as int && re == right.end as int,
            ls <= le && rs <= re && le == rs && re <= a.len(),
            i < left.end ==> j == right.end,
            sorted(a@.subrange(ls, le)),
            sorted(result@),
            result@.to_multiset() == a@.subrange(ls, i as int).to_multiset().add(
                a@.subrange(rs, j as int).to_multiset(),
            ),
            result.len() == (i - left.start) + (j - right.start),
            result.len() > 0 && i < left.end ==> result@.last() <= a@[i as int],
            result.len() > 0 && j < right.end ==> result@.last() <= a@[j as int],
            sorted(a@.subrange(rs, re)),
        decreases left.end - i,
    {
        push_in_order(a, &mut result, i, Ghost(ls), Ghost(le));
        proof {
            lemma_subrange_push(a@, ls, i as int);
            lemma_multiset_add_insert_left(
                a@.subrange(ls, i as int).to_multiset(),
                a@.subrange(rs, j as int).to_multiset(),
                a@[i as int],
            );
        }
        i = i + 1;
    }

    while j < right.end
        invariant
            i == left.end,
            right.start <= j <= right.end,
            ls == left.start as int && le == left.end as int,
            rs == right.start as int && re == right.end as int,
            ls <= le && rs <= re && le == rs && re <= a.len(),
            sorted(a@.subrange(rs, re)),
            sorted(result@),
            result@.to_multiset() == a@.subrange(ls, le).to_multiset().add(
                a@.subrange(rs, j as int).to_multiset(),
            ),
            result.len() == (left.end - left.start) + (j - right.start),
            result.len() > 0 && j < right.end ==> result@.last() <= a@[j as int],
        decreases right.end - j,
    {
        push_in_order(a, &mut result, j, Ghost(rs), Ghost(re));
        proof {
            lemma_subrange_push(a@, rs, j as int);
            lemma_multiset_add_insert_right(
                a@.subrange(ls, le).to_multiset(),
                a@.subrange(rs, j as int).to_multiset(),
                a@[j as int],
            );
        }
        j = j + 1;
    }

    proof {
        assert(a@.subrange(bounds.start as int, bounds.end as int) =~= a@.subrange(ls, le)
            + a@.subrange(rs, re));
        vstd::seq_lib::lemma_multiset_commutative(a@.subrange(ls, le), a@.subrange(rs, re));
    }
    result
}

/// Appends `a[k]` to `result`, keeping `result` sorted: every remaining
/// element of the sorted range `a[lo..hi]` is at least `result`'s last.
fn push_in_order(
    a: &Vec<i32>,
    result: &mut Vec<i32>,
    k: usize,
    Ghost(lo): Ghost<int>,
    Ghost(hi): Ghost<int>,
)
    requires
        0 <= lo <= k < hi <= a.len(),
        sorted(a@.subrange(lo, hi)),
        sorted(old(result)@),
        old(result).len() > 0 ==> old(result)@.last() <= a@[k as int],
    ensures
        final(result)@ == old(result)@.push(a@[k as int]),
        final(result)@.to_multiset() == old(result)@.to_multiset().insert(a@[k as int]),
        sorted(final(result)@),
        k + 1 < hi ==> final(result)@.last() <= a@[k + 1],
{
    proof {
        vstd::seq_lib::to_multiset_build(old(result)@, a@[k as int]);
        let s = a@.subrange(lo, hi);
        assert(s[k - lo] == a@[lo + (k - lo)]);
        if k + 1 < hi {
            assert(s[k + 1 - lo] == a@[lo + (k + 1 - lo)]);
            assert(s[k - lo] <= s[k + 1 - lo]);
        }
        let pushed = old(result)@.push(a@[k as int]);
        assert forall|p: int, q: int| 0 <= p < q < pushed.len() implies pushed[p] <= pushed[q] by {
            if q < old(result)@.len() {
            } else {
                assert(pushed[q] == a@[k as int]);
                if old(result)@.len() > 0 && p < old(result)@.len() {
                    assert(old(result)@[p] <= old(result)@.last());
                }
            }
        }
    }
    result.push(a[k]);
}

/// Sorts `a[bounds.start..bounds.end]` in place by merging its two sorted
/// halves; the rest of the vector is untouched.
fn merge_and_update(a: &mut Vec<i32>, bounds: &Bounds)
    requires
        bounds.start + 2 <= bounds.end,
        bounds.end <= old(a).len(),
        sorted(old(a)@.subrange(bounds.start as int, mid_of(*bounds))),
        sorted(old(a)@.subrange(mid_of(*bounds), bounds.end as int)),
    ensures
        final(a).len() == old(a).len(),
        sorted(final(a)@.subrange(bounds.start as int, bounds.end as int)),
        final(a)@.subrange(bounds.start as int, bounds.end as int).to_multiset() == old(
            a,
        )@.subrange(bounds.start as int, bounds.end as int).to_multiset(),
        forall|k: int|
            0 <= k < old(a).len() && !(bounds.start <= k < bounds.end) ==> final(a)@[k] == old(
                a,
            )@[k],
{
    let merged = merge(a, bounds);
    let ghost bs = bounds.start as int;
    let ghost be = bounds.end as int;
    let ghost a0 = a@;
    let mut i: usize = 0;
    while i < merged.len()
        invariant
            merged.len() == be - bs,
            bs == bounds.start as int && be == bounds.end as int,
            0 <= i <= merged.len(),
            0 <= bs && be <= a.len() && a.len() == a0.len(),
            forall|k: int| 0 <= k < a0.len() && !(bs <= k < bs + i) ==> a@[k] == a0[k],
            forall|k: int| 0 <= k < i ==> a@[bs + k] == merged@[k],
        decreases merged.len() - i,
    {
        let idx = bounds.start + i;
        a.set(idx, merged[i]);
        i = i + 1;
    }
    proof {
        assert(a@.subrange(bs, be) =~= merged@);
    }
}

/// Sorts the vector by recursive top-down merge sort and hands it back.
pub fn merge_sort_recursive(a: &mut Vec<i32>) -> (r: &mut Vec<i32>)
    ensures
        (*r)@.to_multiset() == old(a)@.to_multiset(),
        sorted((*r)@),
        *final(a) == *final(r),
{
    let n = a.len();
    if n > 1 {
        let bounds = Bounds { start: 0, end: n };
        sort_range(a, &bounds);
        proof {
            assert(a@.subrange(0, n as int) =~= a@);
            assert(old(a)@.subrange(0, n as int) =~= old(a)@);
        }
    }
    a
}

/// Recursively sorts `a[bounds.start..bounds.end]` in place.
fn sort_range(a: &mut Vec<i32>, bounds: &Bounds)
    requires
        bounds.start < bounds.end,
        bounds.end <= old(a).len(),
    ensures
        final(a).len() == old(a).len(),
        sorted(final(a)@.subrange(bounds.start as int, bounds.end as int)),
        final(a)@.subrange(bounds.start as int, bounds.end as int).to_multiset() == old(
            a,
        )@.subrange(bounds.start as int, bounds.end as int).to_multiset(),
        forall|k: int|
            0 <= k < old(a).len() && !(bounds.start <= k < bounds.end) ==> final(a)@[k] == old(
                a,
            )@[k],
    decreases bounds.end - bounds.start,
{
    if bounds.end - bounds.start > 1 {
        let (left, right) = split(bounds);
        let ghost a0 = a@;
        sort_range(a, &left);
        let ghost a1 = a@;
        sort_range(a, &right);
        let ghost a2 = a@;
        proof {
            assert(a2.subrange(left.start as int, left.end as int) =~= a1.subrange(
                left.start as int,
                left.end as int,
            ));
            assert(a1.subrange(right.start as int, right.end as int) =~= a0.subrange(
                right.start as int,
                right.end as int,
            ));
            lemma_two_part_multiset(
                a0,
                a1,
                a2,
                bounds.start as int,
                mid_of(*bounds),
                bounds.end as int,
            );
        }
        merge_and_update(a, bounds);
    }
}

/// If the left part is permuted first and the right part second, the
/// multiset of the whole range is preserved.
proof fn lemma_two_part_multiset(a0: Seq<i32>, a1: Seq<i32>, a2: Seq<i32>, bs: int, m: int, be: int)
    requires
        0 <= bs <= m <= be <= a0.len(),
        a0.len() == a1.len() == a2.len(),
        a1.subrange(bs, m).to_multiset() == a0.subrange(bs, m).to_multiset(),
        forall|k: int| 0 <= k < a0.len() && !(bs <= k < m) ==> a1[k] == a0[k],
        a2.subrange(m, be).to_multiset() == a1.subrange(m, be).to_multiset(),
        forall|k: int| 0 <= k < a1.len() && !(m <= k < be) ==> a2[k] == a1[k],
    ensures
        a2.subrange(bs, be).to_multiset() == a0.subrange(bs, be).to_multiset(),
{
    assert(a1.subrange(m, be) =~= a0.subrange(m, be));
    assert(a2.subrange(bs, m) =~= a1.subrange(bs, m));
    assert(a0.subrange(bs, be) =~= a0.subrange(bs, m) + a0.subrange(m, be));
    assert(a2.subrange(bs, be) =~= a2.subrange(bs, m) + a2.subrange(m, be));
    vstd::seq_lib::lemma_multiset_commutative(a0.subrange(bs, m), a0.subrange(m, be));
    vstd::seq_lib::lemma_multiset_commutative(a2.subrange(bs, m), a2.subrange(m, be));
}

/// The concatenation of all runs, in order.
pub open spec fn concat_runs(runs: Seq<Vec<i32>>) -> Seq<i32>
    decreases runs.len(),
{
    if runs.len() == 0 {
        Seq::empty()
    } else {
        concat_runs(runs.drop_last()) + runs.last()@
    }
}

proof fn lemma_concat_push(runs: Seq<Vec<i32>>, x: Vec<i32>)
    ensures
        concat_runs(runs.push(x)) == concat_runs(runs) + x@,
{
    assert(runs.push(x).drop_last() =~= runs);
    assert(runs.push(x).last() == x);
}

proof fn lemma_singleton_runs_concat(runs: Seq<Vec<i32>>, a: Seq<i32>)
    requires
        runs.len() == a.len(),
        forall|k: int| 0 <= k < runs.len() ==> (#[trigger] runs[k])@ == seq![a[k]],
    ensures
        concat_runs(runs) == a,
    decreases runs.len(),
{
    if runs.len() == 0 {
        assert(concat_runs(runs) =~= a);
    } else {
        lemma_singleton_runs_concat(runs.drop_last(), a.drop_last());
        assert(concat_runs(runs) =~= a);
    }
}

/// Sorts the vector by iterative merge sort and hands it back: the
/// elements are split into singleton runs which are then merged pairwise,
/// level by level, until a single sorted run remains.
pub fn merge_sort_iterative(a: &mut Vec<i32>) -> (r: &mut Vec<i32>)
    ensures
        (*r)@.to_multiset() == old(a)@.to_multiset(),
        sorted((*r)@),
        *final(a) == *final(r),
{
    broadcast use vstd::seq_lib::group_to_multiset_ensures;

    let n = a.len();
    if n <= 1 {
        return a;
    }

    let mut runs: Vec<Vec<i32>> = Vec::new();
    let mut i: usize = 0;
    while i < a.len()
        invariant
            0 <= i <= a.len(),
            runs.len() == i,
            forall|k: int| 0 <= k < i ==> (#[trigger] runs@[k])@ == seq![a@[k]],
        decreases a.len() - i,
    {
        let mut run: Vec<i32> = Vec::new();
        run.push(a[i]);
        runs.push(run);
        i = i + 1;
    }
    proof {
        lemma_singleton_runs_concat(runs@, a@);
    }

    while runs.len() > 1
        invariant
            runs.len() >= 1,
            forall|k: int| 0 <= k < runs.len() ==> sorted((#[trigger] runs@[k])@),
            concat_runs(runs@).to_multiset() == a@.to_multiset(),
        decreases runs.len(),
    {
        runs = merge_pairs(runs);
    }

    let ghost runs_before = runs@;
    let sorted_run = runs.pop().unwrap();
    proof {
        assert(runs_before =~= runs@.push(sorted_run));
        lemma_concat_push(runs@, sorted_run);
        assert(runs@.len() == 0);
        assert(concat_runs(runs@) =~= Seq::<i32>::empty());
        assert(Seq::<i32>::empty() + sorted_run@ =~= sorted_run@);
        assert(sorted_run@.to_multiset() == a@.to_multiset());
        assert(sorted_run@.to_multiset().len() == sorted_run@.len());
        assert(a@.to_multiset().len() == a@.len());
        assert(a0_spliced(a@, sorted_run@, 0) =~= a@);
    }
    let ghost a_before = a@;
    let mut i: usize = 0;
    while i < sorted_run.len()
        invariant
            0 <= i <= sorted_run.len(),
            sorted_run.len() == a.len(),
            a_before.len() == sorted_run.len(),
            a@ == a0_spliced(a_before, sorted_run@, i as int),
        decreases sorted_run.len() - i,
    {
        a.set(i, sorted_run[i]);
        proof {
            assert(a@ =~= a0_spliced(a_before, sorted_run@, i + 1));
        }
        i = i + 1;
    }
    proof {
        assert(a@ =~= sorted_run@);
    }
    a
}

/// The first `i` elements of `merged` followed by the rest of `orig`.
pub open spec fn a0_spliced(orig: Seq<i32>, merged: Seq<i32>, i: int) -> Seq<i32> {
    merged.take(i) + orig.skip(i)
}

/// Splitting off the first `i + 2` runs adds exactly runs `i` and `i + 1`.
proof fn lemma_concat_take_two(runs: Seq<Vec<i32>>, i: int)
    requires
        0 <= i,
        i + 2 <= runs.len(),
    ensures
        concat_runs(runs.take(i + 2)) == concat_runs(runs.take(i)) + (runs[i]@ + runs[i + 1]@),
{
    assert(runs.take(i + 1) =~= runs.take(i).push(runs[i]));
    assert(runs.take(i + 2) =~= runs.take(i + 1).push(runs[i + 1]));
    lemma_concat_push(runs.take(i), runs[i]);
    lemma_concat_push(runs.take(i + 1), runs[i + 1]);
    assert((concat_runs(runs.take(i)) + runs[i]@) + runs[i + 1]@ =~= concat_runs(runs.take(i)) + (
    runs[i]@ + runs[i + 1]@));
}

/// Merges adjacent runs pairwise; an odd trailing run is carried over.
fn merge_pairs(runs: Vec<Vec<i32>>) -> (r: Vec<Vec<i32>>)
    requires
        runs.len() >= 2,
        forall|k: int| 0 <= k < runs.len() ==> sorted((#[trigger] runs@[k])@),
    ensures
        1 <= r.len() < runs.len(),
        forall|k: int| 0 <= k < r.len() ==> sorted((#[trigger] r@[k])@),
        concat_runs(r@).to_multiset() == concat_runs(runs@).to_multiset(),
{
    let mut out: Vec<Vec<i32>> = Vec::new();
    let mut i: usize = 0;
    while i + 1 < runs.len()
        invariant
            0 <= i <= runs.len(),
            i % 2 == 0,
            out.len() == i / 2,
            runs.len() >= 2,
            forall|k: int| 0 <= k < runs.len() ==> sorted((#[trigger] runs@[k])@),
            forall|k: int| 0 <= k < out.len() ==> sorted((#[trigger] out@[k])@),
            concat_runs(out@).to_multiset() == concat_runs(runs@.take(i as int)).to_multiset(),
        decreases runs.len() - i,
    {
        let merged = merge_two_runs(&runs[i], &runs[i + 1]);
        proof {
            lemma_concat_take_two(runs@, i as int);
            vstd::seq_lib::lemma_multiset_commutative(
                concat_runs(runs@.take(i as int)),
                runs@[i as int]@ + runs@[i + 1]@,
            );
            lemma_concat_push(out@, merged);
            vstd::seq_lib::lemma_multiset_commutative(concat_runs(out@), merged@);
        }
        out.push(merged);
        i = i + 2;
    }
    if i < runs.len() {
        let last = vec_clone_run(&runs, i);
        proof {
            assert(runs@.take(i + 1) =~= runs@.take(i as int).push(runs@[i as int]));
            lemma_concat_push(runs@.take(i as int), runs@[i as int]);
            assert(concat_runs(runs@.take(i + 1)) == concat_runs(runs@.take(i as int))
                + runs@[i as int]@);
            lemma_concat_push(out@, last);
            vstd::seq_lib::lemma_multiset_commutative(concat_runs(out@), last@);
            vstd::seq_lib::lemma_multiset_commutative(
                concat_runs(runs@.take(i as int)),
                runs@[i as int]@,
            );
            assert(runs@.take(i + 1) =~= runs@);
        }
        out.push(last);
    } else {
        proof {
            assert(runs@.take(i as int) =~= runs@);
        }
    }
    out
}

/// Clones run `i` out of the run list.
fn vec_clone_run(runs: &Vec<Vec<i32>>, i: usize) -> (r: Vec<i32>)
    requires
        i < runs.len(),
    ensures
        r@ == runs@[i as int]@,
{
    let src = &runs[i];
    let mut r: Vec<i32> = Vec::new();
    let mut k: usize = 0;
    while k < src.len()
        invariant
            0 <= k <= src.len(),
            src@ == runs@[i as int]@,
            r@ == src@.take(k as int),
        decreases src.len() - k,
    {
        r.push(src[k]);
        proof {
            assert(r@ =~= src@.take(k + 1));
        }
        k = k + 1;
    }
    proof {
        assert(src@.take(src@.len() as int) =~= src@);
    }
    r
}

/// Merges two whole sorted runs into one sorted run.
fn merge_two_runs(x: &Vec<i32>, y: &Vec<i32>) -> (r: Vec<i32>)
    requires
        sorted(x@),
        sorted(y@),
    ensures
        sorted(r@),
        r@.to_multiset() == (x@ + y@).to_multiset(),
{
    broadcast use vstd::seq_lib::group_to_multiset_ensures;

    let mut result: Vec<i32> = Vec::new();
    let mut i: usize = 0;
    let mut j: usize = 0;
    while i < x.len() || j < y.len()
        invariant
            0 <= i <= x.len(),
            0 <= j <= y.len(),
            sorted(x@),
            sorted(y@),
            sorted(result@),
            result@.to_multiset() == x@.take(i as int).to_multiset().add(
                y@.take(j as int).to_multiset(),
            ),
            result.len() > 0 && i < x.len() ==> result@.last() <= x@[i as int],
            result.len() > 0 && j < y.len() ==> result@.last() <= y@[j as int],
        decreases (x.len() - i) + (y.len() - j),
    {
        let take_left = if j >= y.len() {
            true
        } else if i >= x.len() {
            false
        } else {
            x[i] < y[j]
        };
        if take_left {
            proof {
                lemma_sorted_push(result@, x@, i as int);
                lemma_multiset_add_insert_left(
                    x@.take(i as int).to_multiset(),
                    y@.take(j as int).to_multiset(),
                    x@[i as int],
                );
                lemma_take_push(x@, i as int);
                vstd::seq_lib::to_multiset_build(result@, x@[i as int]);
            }
            result.push(x[i]);
            i = i + 1;
        } else {
            proof {
                lemma_sorted_push(result@, y@, j as int);
                lemma_multiset_add_insert_right(
                    x@.take(i as int).to_multiset(),
                    y@.take(j as int).to_multiset(),
                    y@[j as int],
                );
                lemma_take_push(y@, j as int);
                vstd::seq_lib::to_multiset_build(result@, y@[j as int]);
            }
            result.push(y[j]);
            j = j + 1;
        }
    }
    proof {
        assert(x@.take(x@.len() as int) =~= x@);
        assert(y@.take(y@.len() as int) =~= y@);
        vstd::seq_lib::lemma_multiset_commutative(x@, y@);
    }
    result
}

/// Appending the head of a sorted remainder keeps the result sorted.
proof fn lemma_sorted_push(s: Seq<i32>, src: Seq<i32>, k: int)
    requires
        sorted(s),
        sorted(src),
        0 <= k < src.len(),
        s.len() > 0 ==> s.last() <= src[k],
    ensures
        sorted(s.push(src[k])),
{
    let pushed = s.push(src[k]);
    assert forall|p: int, q: int| 0 <= p < q < pushed.len() implies pushed[p] <= pushed[q] by {
        if q < s.len() {
        } else {
            assert(pushed[q] == src[k]);
            if s.len() > 0 && p < s.len() {
                assert(s[p] <= s.last());
            }
        }
    }
}

} // verus!
