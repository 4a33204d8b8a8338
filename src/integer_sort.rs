use vstd::prelude::*;
use crate::step::{range_marks, Highlight, Progress, SortedNumbers, Step, StepSink};
use crate::util::swap_at;

verus! {

broadcast use vstd::seq_lib::group_to_multiset_ensures, vstd::multiset::group_multiset_axioms;

/// `s` is in ascending order.
pub open spec fn sorted(s: Seq<i64>) -> bool {
    forall|a: int, b: int| 0 <= a < b < s.len() ==> s[a] <= s[b]
}

/// `r` holds the same numbers as `s`, in ascending order.
pub open spec fn sorts(s: Seq<i64>, r: Seq<i64>) -> bool {
    sorted(r) && r.to_multiset() == s.to_multiset()
}

fn snapshot<S: StepSink>(sink: &mut S, snapshot: SortedNumbers)
    ensures
        final(sink).sent() == old(sink).sent().push(Step::SortedNumbers(snapshot)),
{
    sink.send(Step::SortedNumbers(snapshot));
}

/// `step` is a snapshot of `numbers` with the marks `marks`.
pub open spec fn shows(step: Step, numbers: Seq<i64>, marks: Map<usize, Highlight>) -> bool {
    step matches Step::SortedNumbers(sn) && sn.numbers@ == numbers && sn.marks() == marks
}

/// The marks of the first bubble-sort snapshot: positions 0 and 1 compared.
pub open spec fn first_compare() -> Map<usize, Highlight> {
    Map::<usize, Highlight>::empty().insert(0usize, Highlight::Compare).insert(1usize, Highlight::Compare)
}

/// Bubble sort: every pair `(i, j)` with `i < j` is compared, and swapped when
/// out of order.
pub fn bubble<S: StepSink>(numbers: Vec<i64>, sink: &mut S) -> (r: Vec<i64>)
    ensures
        sorts(numbers@, r@),
        final(sink).sent().len() >= old(sink).sent().len(),
        numbers.len() >= 2 ==> shows(final(sink).sent()[old(sink).sent().len() as int], numbers@, first_compare()),
        numbers.len() >= 1 ==> shows(
            final(sink).sent().last(),
            r@,
            range_marks(Map::empty(), 0, numbers.len() as int, Highlight::Correct),
        ),
{
    let ghost s0 = sink.sent().len();
    let mut v = numbers;
    let n = v.len();
    let mut i: usize = 0;
    while i < n
        invariant
            sink.sent().len() >= s0,
            i == 0 ==> v@ == numbers@ && sink.sent().len() == s0,
            i > 0 ==> sink.sent().len() > s0,
            i > 0 && n >= 2 ==> shows(sink.sent()[s0 as int], numbers@, first_compare()),
            i > 0 ==> shows(sink.sent().last(), v@, range_marks(Map::empty(), 0, i as int, Highlight::Correct)),
            n == v.len(),
            0 <= i <= n,
            v@.to_multiset() == numbers@.to_multiset(),
            forall|a: int, b: int| 0 <= a < b < i ==> v@[a] <= v@[b],
            forall|a: int, b: int| 0 <= a < i <= b < n ==> v@[a] <= v@[b],
        decreases n - i,
    {
        let mut j: usize = i + 1;
        while j < n
            invariant
                sink.sent().len() >= s0,
                i == 0 && j == 1 ==> v@ == numbers@ && sink.sent().len() == s0,
                i > 0 ==> sink.sent().len() > s0,
                (i > 0 || j > 1) ==> sink.sent().len() > s0,
                (i > 0 || j > 1) && n >= 2 ==> shows(sink.sent()[s0 as int], numbers@, first_compare()),
                n == v.len(),
                0 <= i < n,
                i + 1 <= j <= n,
                v@.to_multiset() == numbers@.to_multiset(),
                forall|a: int, b: int| 0 <= a < b < i ==> v@[a] <= v@[b],
                forall|a: int, b: int| 0 <= a < i <= b < n ==> v@[a] <= v@[b],
                forall|b: int| i < b < j ==> v@[i as int] <= v@[b],
            decreases n - j,
        {
            let ghost before = sink.sent();
            snapshot(
                sink,
                SortedNumbers::new(&v).highlight(i, Highlight::Compare).highlight(j, Highlight::Compare).progress(
                    Progress::grid(i, j - i, n),
                ),
            );
            proof {
                if before.len() > s0 {
                    assert(sink.sent()[s0 as int] == before[s0 as int]);
                }
                if i == 0 && j == 1 {
                    assert(shows(sink.sent()[s0 as int], numbers@, first_compare()));
                }
            }
            if v[i] > v[j] {
                swap_at(&mut v, i, j);
                let ghost before2 = sink.sent();
                snapshot(
                    sink,
                    SortedNumbers::new(&v).highlight(i, Highlight::Swap).highlight(j, Highlight::Swap).progress(
                        Progress::grid(i, j - i, n),
                    ),
                );
                assert(sink.sent()[s0 as int] == before2[s0 as int]);
            }
            j += 1;
        }
        let ghost before3 = sink.sent();
        snapshot(
            sink,
            SortedNumbers::new(&v).mark_range(0, i + 1, Highlight::Correct).progress(Progress::grid(i, n - i, n)),
        );
        proof {
            if before3.len() > s0 {
                assert(sink.sent()[s0 as int] == before3[s0 as int]);
            }
        }
        i += 1;
    }
    v
}

/// Selection sort: position `i` receives the least of the numbers from `i` on.
pub fn selection<S: StepSink>(numbers: Vec<i64>, sink: &mut S) -> (r: Vec<i64>)
    ensures
        sorts(numbers@, r@),
{
    let mut v = numbers;
    let n = v.len();
    let mut i: usize = 0;
    while i < n
        invariant
            n == v.len(),
            0 <= i <= n,
            v@.to_multiset() == numbers@.to_multiset(),
            forall|a: int, b: int| 0 <= a < b < i ==> v@[a] <= v@[b],
            forall|a: int, b: int| 0 <= a < i <= b < n ==> v@[a] <= v@[b],
        decreases n - i,
    {
        let mut min_index = i;
        let mut j: usize = i;
        while j < n
            invariant
                n == v.len(),
                0 <= i < n,
                i <= j <= n,
                i <= min_index < n,
                j > i ==> min_index < j,
                j == i ==> min_index == i,
                forall|b: int| i <= b < j ==> v@[min_index as int] <= v@[b],
            decreases n - j,
        {
            snapshot(
                sink,
                SortedNumbers::new(&v).highlights(vec![(j, Highlight::Compare), (min_index, Highlight::Compare)]).progress(
                    Progress::grid(i, j - i, n),
                ),
            );
            if v[j] < v[min_index] {
                min_index = j;
                snapshot(
                    sink,
                    SortedNumbers::new(&v).highlight(min_index, Highlight::Compare).progress(
                        Progress::grid(i, j - i, n),
                    ),
                );
            }
            j += 1;
        }
        if i != min_index {
            snapshot(
                sink,
                SortedNumbers::new(&v).highlights(vec![(i, Highlight::Swap), (min_index, Highlight::Swap)]).progress(
                    Progress::grid(i, n - i, n),
                ),
            );
            swap_at(&mut v, i, min_index);
            snapshot(
                sink,
                SortedNumbers::new(&v).highlights(vec![(i, Highlight::Swap), (min_index, Highlight::Swap)]).progress(
                    Progress::grid(i, n - i, n),
                ),
            );
        } else if i != n - 1 {
            snapshot(
                sink,
                SortedNumbers::new(&v).highlight(i, Highlight::Compare).progress(Progress::grid(i, n - i, n)),
            );
        }
        snapshot(
            sink,
            SortedNumbers::new(&v).mark_range(0, i + 1, Highlight::Correct).progress(Progress::grid(i, n - i, n)),
        );
        i += 1;
    }
    v
}

/// Insertion sort: the number at `i` moves left past every larger predecessor.
pub fn insertion<S: StepSink>(numbers: Vec<i64>, sink: &mut S) -> (r: Vec<i64>)
    ensures
        sorts(numbers@, r@),
{
    let mut v = numbers;
    let n = v.len();
    let mut i: usize = 0;
    while i < n
        invariant
            n == v.len(),
            0 <= i <= n,
            v@.to_multiset() == numbers@.to_multiset(),
            forall|a: int, b: int| 0 <= a < b < i ==> v@[a] <= v@[b],
        decreases n - i,
    {
        let next_to_insert = v[i];
        let mut index = i;
        while index > 0 && next_to_insert < v[index - 1]
            invariant
                n == v.len(),
                0 <= i < n,
                0 <= index <= i,
                v@.to_multiset() == numbers@.to_multiset(),
                v@[index as int] == next_to_insert,
                forall|a: int, b: int|
                    0 <= a < b <= i && a != index && b != index ==> v@[a] <= v@[b],
                forall|b: int| index < b <= i ==> next_to_insert < v@[b],
            decreases index,
        {
            snapshot(
                sink,
                SortedNumbers::new(&v).highlights(vec![(index, Highlight::Compare), (index - 1, Highlight::Compare)]).progress(
                    Progress::grid(i, n - index, n),
                ),
            );
            swap_at(&mut v, index, index - 1);
            snapshot(
                sink,
                SortedNumbers::new(&v).highlights(vec![(index, Highlight::Swap), (index - 1, Highlight::Swap)]).progress(
                    Progress::grid(i, n - index, n),
                ),
            );
            index -= 1;
        }
        assert forall|a: int, b: int| 0 <= a < b <= i implies v@[a] <= v@[b] by {
            if a == index {
            } else if b == index {
                assert(v@[a] <= v@[index - 1]);
            }
        }
        if index > 0 {
            snapshot(
                sink,
                SortedNumbers::new(&v).highlights(vec![(index, Highlight::Compare), (index - 1, Highlight::Compare)]).progress(
                    Progress::grid(i, n - index, n),
                ),
            );
            index -= 1;
        }
        if index > 0 {
            snapshot(
                sink,
                SortedNumbers::new(&v).highlights(vec![(index, Highlight::Compare), (index - 1, Highlight::Compare)]).progress(
                    Progress::grid(i, n - index, n),
                ),
            );
        }
        snapshot(
            sink,
            SortedNumbers::new(&v).mark_range(0, i + 1, Highlight::Correct).progress(Progress::grid(i, n - index, n)),
        );
        i += 1;
    }
    v
}

} // verus!

verus! {

/// Merges two sorted vectors into one sorted vector holding both.
pub fn merge_vectors(a: Vec<i64>, b: Vec<i64>) -> (r: Vec<i64>)
    ensures
        r@.to_multiset() == a@.to_multiset().add(b@.to_multiset()),
        sorted(a@) && sorted(b@) ==> sorted(r@),
{
    let mut result: Vec<i64> = Vec::new();
    let mut i: usize = 0;
    let mut j: usize = 0;
    while i < a.len() || j < b.len()
        invariant
            0 <= i <= a.len(),
            0 <= j <= b.len(),
            result.len() == i + j,
            result@.to_multiset() == a@.subrange(0, i as int).to_multiset().add(
                b@.subrange(0, j as int).to_multiset(),
            ),
            sorted(a@) && sorted(b@) ==> {
                &&& sorted(result@)
                &&& (result.len() > 0 && i < a.len()) ==> result@.last() <= a@[i as int]
                &&& (result.len() > 0 && j < b.len()) ==> result@.last() <= b@[j as int]
            },
        decreases a.len() + b.len() - i - j,
    {
        let take_a = if i < a.len() && j < b.len() {
            a[i] < b[j]
        } else {
            i < a.len()
        };
        let ghost old_result = result@;
        if take_a {
            result.push(a[i]);
            proof {
                assert(a@.subrange(0, i as int + 1) =~= a@.subrange(0, i as int).push(a@[i as int]));
            }
            i += 1;
        } else {
            result.push(b[j]);
            proof {
                assert(b@.subrange(0, j as int + 1) =~= b@.subrange(0, j as int).push(b@[j as int]));
            }
            j += 1;
        }
        proof {
            assert(result@ =~= old_result.push(result@.last()));
        }
    }
    assert(a@.subrange(0, i as int) =~= a@);
    assert(b@.subrange(0, j as int) =~= b@);
    result
}

/// The position of the first least element of `v[from..to]`, counted from
/// `from`.
fn position_min(v: &Vec<i64>, from: usize, to: usize) -> (r: usize)
    requires
        from < to <= v.len(),
    ensures
        from + r < to,
        forall|k: int| from <= k < to ==> v@[from + r] <= #[trigger] v@[k],
        forall|k: int| from <= k < from + r ==> v@[from + r] < #[trigger] v@[k],
{
    let mut best = from;
    let mut k = from + 1;
    while k < to
        invariant
            from <= best < k <= to,
            to <= v.len(),
            forall|x: int| from <= x < k ==> v@[best as int] <= #[trigger] v@[x],
            forall|x: int| from <= x < best ==> v@[best as int] < #[trigger] v@[x],
        decreases to - k,
    {
        if v[k] < v[best] {
            best = k;
        }
        k += 1;
    }
    best - from
}

/// Sorts `numbers[start..end]` by halves, showing each half as it is sorted
/// and merged.
pub fn merge_rec<S: StepSink>(numbers: &Vec<i64>, start: usize, end: usize, sink: &mut S) -> (r: Vec<
    i64,
>)
    requires
        start <= end <= numbers.len(),
    ensures
        sorts(numbers@.subrange(start as int, end as int), r@),
    decreases end - start,
{
    let mut local = numbers.clone();
    assert(local@ == numbers@);
    if end - start <= 1 {
        let mut out: Vec<i64> = Vec::new();
        if end - start == 1 {
            out.push(local[start]);
            assert(out@ =~= numbers@.subrange(start as int, end as int));
        } else {
            assert(out@ =~= numbers@.subrange(start as int, end as int));
        }
        return out;
    }
    snapshot(sink, SortedNumbers::new(&local).consider(start, end));
    let mid = start + (end - start) / 2;
    let to_merge_1 = merge_rec(&local, start, mid, sink);
    proof {
        vstd::seq_lib::to_multiset_len(to_merge_1@);
        vstd::seq_lib::to_multiset_len(local@.subrange(start as int, mid as int));
    }
    let mut k: usize = 0;
    while k < to_merge_1.len()
        invariant
            to_merge_1.len() == mid - start,
            start < mid < end <= local.len(),
            local.len() == numbers.len(),
            0 <= k <= to_merge_1.len(),
            local@.subrange(mid as int, end as int) == numbers@.subrange(mid as int, end as int),
        decreases to_merge_1.len() - k,
    {
        local.set(k + start, to_merge_1[k]);
        assert(local@.subrange(mid as int, end as int) =~= numbers@.subrange(mid as int, end as int));
        k += 1;
    }
    snapshot(sink, SortedNumbers::new(&local).mark_range(start, mid, Highlight::Correct));
    assert(local@.subrange(mid as int, end as int) == numbers@.subrange(mid as int, end as int));
    let to_merge_2 = merge_rec(&local, mid, end, sink);
    proof {
        vstd::seq_lib::to_multiset_len(to_merge_2@);
        vstd::seq_lib::to_multiset_len(local@.subrange(mid as int, end as int));
    }
    let mut k: usize = 0;
    while k < to_merge_2.len()
        invariant
            to_merge_2.len() == end - mid,
            start < mid < end <= local.len(),
            local.len() == numbers.len(),
            0 <= k <= to_merge_2.len(),
        decreases to_merge_2.len() - k,
    {
        local.set(k + mid, to_merge_2[k]);
        k += 1;
    }
    snapshot(sink, SortedNumbers::new(&local).mark_range(mid, end, Highlight::Correct));
    let mut index = start;
    while index < end
        invariant
            start <= index <= end <= local.len(),
        decreases end - index,
    {
        let min_index = position_min(&local, index, end);
        swap_at(&mut local, index, min_index + index);
        snapshot(sink, SortedNumbers::new(&local).mark_range(start, index, Highlight::Correct));
        index += 1;
    }
    proof {
        let s = numbers@.subrange(start as int, end as int);
        assert(s =~= numbers@.subrange(start as int, mid as int) + numbers@.subrange(mid as int, end as int));
        vstd::seq_lib::lemma_multiset_commutative(
            numbers@.subrange(start as int, mid as int),
            numbers@.subrange(mid as int, end as int),
        );
    }
    merge_vectors(to_merge_1, to_merge_2)
}

/// Merge sort of the whole vector.
pub fn merge<S: StepSink>(numbers: Vec<i64>, sink: &mut S) -> (r: Vec<i64>)
    ensures
        sorts(numbers@, r@),
{
    let n = numbers.len();
    let r = merge_rec(&numbers, 0, n, sink);
    assert(numbers@.subrange(0, n as int) =~= numbers@);
    r
}

} // verus!

verus! {

proof fn lemma_perm_below(s: Seq<i64>, r: Seq<i64>, pivot: i64)
    requires
        r.to_multiset() == s.to_multiset(),
        forall|i: int| 0 <= i < s.len() ==> s[i] < pivot,
    ensures
        forall|i: int| 0 <= i < r.len() ==> r[i] < pivot,
{
    assert forall|i: int| 0 <= i < r.len() implies r[i] < pivot by {
        assert(r.contains(r[i]));
        assert(r.to_multiset().count(r[i]) > 0);
        assert(s.contains(r[i]));
    }
}

proof fn lemma_perm_above(s: Seq<i64>, r: Seq<i64>, pivot: i64)
    requires
        r.to_multiset() == s.to_multiset(),
        forall|i: int| 0 <= i < s.len() ==> s[i] >= pivot,
    ensures
        forall|i: int| 0 <= i < r.len() ==> r[i] >= pivot,
{
    assert forall|i: int| 0 <= i < r.len() implies r[i] >= pivot by {
        assert(r.contains(r[i]));
        assert(r.to_multiset().count(r[i]) > 0);
        assert(s.contains(r[i]));
    }
}

/// Marks each index of `from..to` as smaller or larger than `pivot`.
fn classify(v: &Vec<i64>, from: usize, to: usize, pivot: i64) -> (r: Vec<(usize, Highlight)>)
    requires
        to <= v.len(),
{
    let mut r: Vec<(usize, Highlight)> = Vec::new();
    let mut i = from;
    while i < to
        invariant
            to <= v.len(),
        decreases to - i,
    {
        if v[i] < pivot {
            r.push((i, Highlight::Smaller));
        } else {
            r.push((i, Highlight::Larger));
        }
        i += 1;
    }
    r
}

/// Quick sort of `numbers[start..end]` in place: the first element is the
/// pivot; the smaller numbers go before it and the others after it, and each
/// side is sorted in turn. Elements outside the range are left as they are.
pub fn quick_rec<S: StepSink>(numbers: &mut Vec<i64>, start: usize, end: usize, sink: &mut S)
    requires
        start <= end <= old(numbers).len(),
    ensures
        final(numbers).len() == old(numbers).len(),
        sorts(
            old(numbers)@.subrange(start as int, end as int),
            final(numbers)@.subrange(start as int, end as int),
        ),
        forall|k: int|
            0 <= k < old(numbers).len() && !(start <= k < end) ==> final(numbers)@[k] == old(
                numbers,
            )@[k],
    decreases end - start,
{
    let ghost s0 = numbers@;
    if end - start <= 1 {
        return;
    }
    let pivot = numbers[start];
    let mut lt: Vec<i64> = Vec::new();
    let mut ge: Vec<i64> = Vec::new();
    let mut index: usize = 0;
    while index < end - start
        invariant
            numbers@ == s0,
            start + 1 < end <= numbers.len(),
            pivot == s0[start as int],
            0 <= index <= end - start,
            lt@.to_multiset().add(ge@.to_multiset()) == s0.subrange(
                start as int,
                start + index,
            ).to_multiset(),
            forall|i: int| 0 <= i < lt.len() ==> lt@[i] < pivot,
            forall|i: int| 0 <= i < ge.len() ==> ge@[i] >= pivot,
            index > 0 ==> ge.len() > 0 && ge@[0] == pivot,
            index == 0 ==> ge.len() == 0,
        decreases end - start - index,
    {
        let number = numbers[start + index];
        let marks = classify(numbers, start + 1, index + 1 + start, pivot);
        snapshot(
            sink,
            SortedNumbers::new(numbers).mark_range(start, end, Highlight::Consider).highlights(marks).highlight(
                start,
                Highlight::Pivot,
            ),
        );
        proof {
            assert(s0.subrange(start as int, start + index + 1) =~= s0.subrange(start as int, start + index).push(number));
        }
        if number < pivot {
            lt.push(number);
        } else {
            ge.push(number);
        }
        index += 1;
    }
    assert(s0.subrange(start as int, start + index) =~= s0.subrange(start as int, end as int));
    proof {
        vstd::seq_lib::to_multiset_len(lt@);
        vstd::seq_lib::to_multiset_len(ge@);
        vstd::seq_lib::to_multiset_len(s0.subrange(start as int, end as int));
        vstd::seq_lib::lemma_multiset_commutative(lt@, ge@);
    }
    let n_lt = lt.len();
    let mut k: usize = 0;
    while k < n_lt
        invariant
            numbers.len() == s0.len(),
            n_lt == lt.len(),
            n_lt + ge.len() == end - start,
            start + 1 < end <= numbers.len(),
            0 <= k <= n_lt,
            forall|x: int| 0 <= x < numbers.len() && !(start <= x < start + k) ==> numbers@[x] == s0[x],
            forall|x: int| start <= x < start + k ==> numbers@[x] == lt@[x - start],
        decreases n_lt - k,
    {
        numbers.set(start + k, lt[k]);
        k += 1;
    }
    let mut k: usize = 0;
    while k < ge.len()
        invariant
            numbers.len() == s0.len(),
            n_lt == lt.len(),
            n_lt + ge.len() == end - start,
            start + 1 < end <= numbers.len(),
            0 <= k <= ge.len(),
            forall|x: int| 0 <= x < numbers.len() && !(start <= x < start + n_lt + k) ==> numbers@[x] == s0[x],
            forall|x: int| start <= x < start + n_lt ==> numbers@[x] == lt@[x - start],
            forall|x: int| start + n_lt <= x < start + n_lt + k ==> numbers@[x] == ge@[x - start - n_lt],
        decreases ge.len() - k,
    {
        numbers.set(start + n_lt + k, ge[k]);
        k += 1;
    }
    let ghost s1 = numbers@;
    let p = start + n_lt;
    assert(s1.subrange(start as int, p as int) =~= lt@);
    assert(s1.subrange(p as int + 1, end as int) =~= ge@.subrange(1, ge.len() as int));
    assert(s1[p as int] == pivot);
    let mut marks: Vec<(usize, Highlight)> = Vec::new();
    let mut i = start;
    while i < end
        invariant
            start <= i <= end,
        decreases end - i,
    {
        if i - start < n_lt {
            marks.push((i, Highlight::Smaller));
        } else if i - start == n_lt {
            marks.push((i, Highlight::Pivot));
        } else {
            marks.push((i, Highlight::Larger));
        }
        i += 1;
    }
    snapshot(sink, SortedNumbers::new(numbers).highlights(marks).highlight(p, Highlight::Pivot));
    quick_rec(numbers, start, p, sink);
    let ghost s2 = numbers@;
    quick_rec(numbers, p + 1, end, sink);
    let ghost s3 = numbers@;
    snapshot(sink, SortedNumbers::new(numbers).mark_range(start, end, Highlight::Correct));
    proof {
        let left = s3.subrange(start as int, p as int);
        let right = s3.subrange(p as int + 1, end as int);
        assert(left =~= s2.subrange(start as int, p as int));
        assert(s2.subrange(p as int + 1, end as int) =~= s1.subrange(p as int + 1, end as int));
        assert(s3[p as int] == pivot);
        lemma_perm_below(lt@, left, pivot);
        let rest = ge@.subrange(1, ge.len() as int);
        assert(forall|i: int| 0 <= i < rest.len() ==> rest[i] == ge@[i + 1]);
        lemma_perm_above(rest, right, pivot);
        let whole = s3.subrange(start as int, end as int);
        assert(whole =~= left + seq![pivot] + right);
        assert forall|a: int, b: int| 0 <= a < b < whole.len() implies whole[a] <= whole[b] by {
            let q = (p - start) as int;
            if b < q {
                assert(whole[a] == left[a] && whole[b] == left[b]);
            } else if a > q {
                assert(whole[a] == right[a - q - 1] && whole[b] == right[b - q - 1]);
            } else if a < q {
                assert(whole[a] == left[a]);
                if b > q {
                    assert(whole[b] == right[b - q - 1]);
                }
            } else {
                assert(whole[b] == right[b - q - 1]);
            }
        }
        assert(ge@ =~= seq![pivot] + rest);
        vstd::seq_lib::lemma_multiset_commutative(left + seq![pivot], right);
        vstd::seq_lib::lemma_multiset_commutative(left, seq![pivot]);
        vstd::seq_lib::lemma_multiset_commutative(seq![pivot], rest);
        assert((left + seq![pivot]).to_multiset() == left.to_multiset().add(seq![pivot].to_multiset()));
        assert(whole.to_multiset() =~= lt@.to_multiset().add(ge@.to_multiset()));
    }
}

/// Quick sort of the whole vector.
pub fn quick<S: StepSink>(numbers: Vec<i64>, sink: &mut S) -> (r: Vec<i64>)
    ensures
        sorts(numbers@, r@),
{
    let mut v = numbers;
    let len = v.len();
    quick_rec(&mut v, 0, len, sink);
    assert(numbers@.subrange(0, len as int) =~= numbers@);
    assert(v@.subrange(0, len as int) =~= v@);
    v
}

} // verus!
