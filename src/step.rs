use vstd::prelude::*;
use crate::graph::Edge;
use crate::path::Path;

verus! {

/// How an index of a sort snapshot is marked.
#[derive(Clone, Copy, Debug, PartialEq, Eq, Structural, Hash)]
pub enum Highlight {
    Compare,
    Swap,
    Correct,
    Consider,
    Smaller,
    Larger,
    Pivot,
}

/// How far an algorithm has got, as the fraction `numerator / denominator`.
#[derive(Clone, Copy, Debug, PartialEq, Eq, Structural)]
pub struct Progress {
    pub numerator: u128,
    pub denominator: u128,
}

impl Progress {
    pub fn new(numerator: u128, denominator: u128) -> (r: Progress)
        ensures
            r.numerator == numerator,
            r.denominator == denominator,
    {
        Progress { numerator, denominator }
    }

    /// The whole of the work: `1 / 1`.
    pub fn complete() -> (r: Progress)
        ensures
            r.numerator == 1,
            r.denominator == 1,
    {
        Progress { numerator: 1, denominator: 1 }
    }

    /// The fraction `(outer * n + offset) / (n * n)` of a pass over an
    /// `n` by `n` grid.
    pub fn grid(outer: usize, offset: usize, n: usize) -> (r: Progress)
        requires
            outer < n,
            offset <= n,
        ensures
            r.numerator == outer * n + offset,
            r.denominator == n * n,
    {
        let o = outer as u128;
        let m = n as u128;
        assert(o * m + m <= m * m) by (nonlinear_arith)
            requires
                o + 1 <= m,
        ;
        assert(m * m <= u128::MAX) by (nonlinear_arith)
            requires
                m <= usize::MAX,
                usize::MAX < 0x1_0000_0000_0000_0000int,
        ;
        Progress { numerator: o * m + offset as u128, denominator: m * m }
    }

    /// The fraction `part / whole`.
    pub fn fraction(part: usize, whole: usize) -> (r: Progress)
        ensures
            r.numerator == part,
            r.denominator == whole,
    {
        Progress { numerator: part as u128, denominator: whole as u128 }
    }
}

/// The marks of a snapshot: a later mark of an index replaces an earlier one.
pub open spec fn marks(s: Seq<(usize, Highlight)>) -> Map<usize, Highlight>
    decreases s.len(),
{
    if s.len() == 0 {
        Map::empty()
    } else {
        marks(s.drop_last()).insert(s.last().0, s.last().1)
    }
}

/// A snapshot of an integer sort: the array and the marks on its indices.
#[derive(Clone, Debug)]
pub struct SortedNumbers {
    pub done: bool,
    pub progress: Option<Progress>,
    pub numbers: Vec<i64>,
    pub highlight: Vec<(usize, Highlight)>,
}

impl SortedNumbers {
    pub open spec fn marks(&self) -> Map<usize, Highlight> {
        marks(self.highlight@)
    }

    /// A snapshot of `numbers` with no marks.
    pub fn new(numbers: &Vec<i64>) -> (r: SortedNumbers)
        ensures
            r.numbers@ == numbers@,
            r.marks() == Map::<usize, Highlight>::empty(),
            !r.done,
            r.progress is None,
    {
        SortedNumbers { done: false, progress: None, numbers: numbers.clone(), highlight: Vec::new() }
    }

    pub fn progress(self, progress: Progress) -> (r: SortedNumbers)
        ensures
            r.numbers@ == self.numbers@,
            r.marks() == self.marks(),
            r.done == self.done,
            r.progress == Some(progress),
    {
        SortedNumbers { progress: Some(progress), ..self }
    }

    /// The final snapshot: done, with complete progress.
    pub fn done(self) -> (r: SortedNumbers)
        ensures
            r.numbers@ == self.numbers@,
            r.marks() == self.marks(),
            r.done,
            r.progress == Some(Progress { numerator: 1, denominator: 1 }),
    {
        SortedNumbers { done: true, progress: Some(Progress::complete()), ..self }
    }

    /// Marks `index` with `highlight`.
    pub fn highlight(self, index: usize, highlight: Highlight) -> (r: SortedNumbers)
        ensures
            r.numbers@ == self.numbers@,
            r.marks() == self.marks().insert(index, highlight),
            r.done == self.done,
            r.progress == self.progress,
    {
        let mut s = self;
        let ghost old_marks = s.highlight@;
        s.highlight.push((index, highlight));
        assert(s.highlight@.drop_last() =~= old_marks);
        s
    }

    /// Marks each index of `highlights` in turn.
    pub fn highlights(self, highlights: Vec<(usize, Highlight)>) -> (r: SortedNumbers)
        ensures
            r.numbers@ == self.numbers@,
            r.marks() == marks(self.highlight@ + highlights@),
            r.done == self.done,
            r.progress == self.progress,
    {
        let mut s = self;
        let ghost start = s.highlight@;
        let mut k: usize = 0;
        while k < highlights.len()
            invariant
                0 <= k <= highlights.len(),
                s.numbers@ == self.numbers@,
                s.done == self.done,
                s.progress == self.progress,
                s.highlight@ == start + highlights@.take(k as int),
            decreases highlights.len() - k,
        {
            s.highlight.push(highlights[k]);
            assert(start + highlights@.take(k as int + 1) =~= s.highlight@);
            k += 1;
        }
        assert(highlights@.take(k as int) =~= highlights@);
        s
    }

    /// Marks each index of `start..end` with `mark`.
    pub fn mark_range(self, start: usize, end: usize, mark: Highlight) -> (r: SortedNumbers)
        ensures
            r.numbers@ == self.numbers@,
            r.done == self.done,
            r.progress == self.progress,
            r.marks() == range_marks(self.marks(), start as int, end as int, mark),
    {
        let mut s = self;
        let mut i = start;
        while i < end
            invariant
                start <= end ==> start <= i <= end,
                start > end ==> i == start,
                s.numbers@ == self.numbers@,
                s.done == self.done,
                s.progress == self.progress,
                s.marks() == range_marks(self.marks(), start as int, i as int, mark),
            decreases end - i,
        {
            s = s.highlight(i, mark);
            i += 1;
        }
        s
    }

    /// Marks each index of `start..end` as under consideration.
    pub fn consider(self, start: usize, end: usize) -> (r: SortedNumbers)
        ensures
            r.numbers@ == self.numbers@,
            r.done == self.done,
            r.progress == self.progress,
            r.marks() == range_marks(self.marks(), start as int, end as int, Highlight::Consider),
    {
        self.mark_range(start, end, Highlight::Consider)
    }
}

/// `m` with each index of `start..end` marked with `mark`.
pub open spec fn range_marks(m: Map<usize, Highlight>, start: int, end: int, mark: Highlight) -> Map<
    usize,
    Highlight,
>
    decreases end - start,
{
    if end <= start {
        m
    } else {
        range_marks(m, start, end - 1, mark).insert((end - 1) as usize, mark)
    }
}

/// A step of a path construction: the edges chosen so far, and the finished
/// path once there is one.
#[derive(Clone, Debug)]
pub struct PathCreation {
    pub done_path: Option<Path>,
    pub current_edges: Vec<Edge>,
    pub progress: Option<Progress>,
}

/// The consecutive pairs of `p` as edges.
pub open spec fn edges_of(p: Seq<usize>) -> Seq<Edge> {
    Seq::new((if p.len() == 0 { 0 } else { p.len() - 1 }) as nat, |i: int| Edge(p[i], p[i + 1]))
}

impl Path {
    /// The edges between consecutive vertices.
    pub fn into_edges(self) -> (r: Vec<Edge>)
        ensures
            r@ == edges_of(self@),
    {
        let mut r: Vec<Edge> = Vec::new();
        let n = self.0.len();
        let mut i: usize = 0;
        while i + 1 < n
            invariant
                n == self@.len(),
                n >= 1 ==> i + 1 <= n,
                n == 0 ==> i == 0,
                r@.len() == i,
                forall|k: int| 0 <= k < i ==> #[trigger] r@[k] == Edge(self@[k], self@[k + 1]),
            decreases n - i,
        {
            r.push(Edge::new(self.0[i], self.0[i + 1]));
            i += 1;
        }
        assert(r@.len() == edges_of(self@).len());
        assert(r@ =~= edges_of(self@));
        r
    }
}

impl PathCreation {
    pub fn from_edges(edges: Vec<Edge>) -> (r: PathCreation)
        ensures
            r.current_edges@ == edges@,
            r.done_path is None,
            r.progress is None,
    {
        PathCreation { done_path: None, current_edges: edges, progress: None }
    }

    pub fn from_path(path: Path) -> (r: PathCreation)
        ensures
            r.current_edges@ == edges_of(path@),
            r.done_path is None,
            r.progress is None,
    {
        PathCreation { done_path: None, current_edges: path.into_edges(), progress: None }
    }

    /// The final step, which carries the finished path.
    pub fn done(path: Path) -> (r: PathCreation)
        ensures
            r.current_edges@ == edges_of(path@),
            r.done_path matches Some(p) && p@ == path@,
            r.progress == Some(Progress { numerator: 1, denominator: 1 }),
    {
        let copy = Path(path.0.clone());
        PathCreation { done_path: Some(copy), current_edges: path.into_edges(), progress: Some(Progress::complete()) }
    }

    pub fn progress(self, value: Progress) -> (r: PathCreation)
        ensures
            r.current_edges@ == self.current_edges@,
            r.done_path == self.done_path,
            r.progress == Some(value),
    {
        PathCreation { progress: Some(value), ..self }
    }
}

/// A step of a path improvement: the current path, and whether it is better
/// than the one before.
#[derive(Clone, Debug)]
pub struct PathImprovement {
    pub done: bool,
    pub better: bool,
    pub current_path: Path,
    pub progress: Option<Progress>,
}

impl PathImprovement {
    pub fn from_path(path: Path) -> (r: PathImprovement)
        ensures
            r.current_path@ == path@,
            r.better,
            !r.done,
            r.progress is None,
    {
        PathImprovement { current_path: path, better: true, done: false, progress: None }
    }

    pub fn done(self) -> (r: PathImprovement)
        ensures
            r.current_path@ == self.current_path@,
            r.better == self.better,
            r.done,
            r.progress == Some(Progress { numerator: 1, denominator: 1 }),
    {
        PathImprovement { progress: Some(Progress::complete()), done: true, ..self }
    }

    pub fn progress(self, value: Progress) -> (r: PathImprovement)
        ensures
            r.current_path@ == self.current_path@,
            r.better == self.better,
            r.done == self.done,
            r.progress == Some(value),
    {
        PathImprovement { progress: Some(value), ..self }
    }

    /// Marks the step as bringing no improvement.
    pub fn not_better(self) -> (r: PathImprovement)
        ensures
            r.current_path@ == self.current_path@,
            !r.better,
            r.done == self.done,
            r.progress == self.progress,
    {
        PathImprovement { better: false, ..self }
    }
}

/// An intermediate or final state that an algorithm hands to its sink.
#[derive(Clone, Debug)]
pub enum Step {
    SortedNumbers(SortedNumbers),
    PathCreation(PathCreation),
    PathImprovement(PathImprovement),
}

impl Step {
    /// Whether the pacing of emissions applies to this step: every step but an
    /// improvement marked as not better.
    pub fn relevant_information(&self) -> (r: bool)
        ensures
            r == !(self matches Step::PathImprovement(p) && !p.better),
    {
        match self {
            Step::PathImprovement(p) => p.better,
            _ => true,
        }
    }
}

/// Where an algorithm sends its steps, in the order it makes them.
pub trait StepSink {
    /// The steps sent so far, in order.
    spec fn sent(&self) -> Seq<Step>;

    fn send(&mut self, step: Step)
        ensures
            final(self).sent() == old(self).sent().push(step),
    ;
}

/// A sink that keeps every step it is sent.
pub struct StepLog {
    pub steps: Vec<Step>,
}

impl StepLog {
    pub fn new() -> (r: StepLog)
        ensures
            r.sent() == Seq::<Step>::empty(),
    {
        StepLog { steps: Vec::new() }
    }
}

/// Where a stream of steps leaves the library (to a client, say).
pub trait Outlet {
    fn deliver(&mut self, step: Step);
}

/// A sink that hands every step on to an outlet, in order, and keeps the
/// record of what it has handed on.
pub struct Streaming<O: Outlet> {
    pub outlet: O,
    log: Ghost<Seq<Step>>,
}

impl<O: Outlet> Streaming<O> {
    pub fn new(outlet: O) -> (r: Streaming<O>)
        ensures
            r.sent() == Seq::<Step>::empty(),
    {
        Streaming { outlet, log: Ghost(Seq::empty()) }
    }
}

impl<O: Outlet> StepSink for Streaming<O> {
    closed spec fn sent(&self) -> Seq<Step> {
        self.log@
    }

    fn send(&mut self, step: Step) {
        let ghost s = step;
        self.outlet.deliver(step);
        self.log = Ghost(self.log@.push(s));
    }
}

impl StepSink for StepLog {
    open spec fn sent(&self) -> Seq<Step> {
        self.steps@
    }

    fn send(&mut self, step: Step) {
        self.steps.push(step);
    }
}

/// The wait before an emission at time `now`, when the last relevant one was
/// at `last` (both in milliseconds) and relevant emissions are to stand
/// `latency` milliseconds apart: none for a step without relevant
/// information, else what is left of `latency` (saturated to `u64`).
pub open spec fn delay_spec(latency: u64, last: u128, now: u128, relevant: bool) -> int {
    if !relevant {
        0
    } else {
        let left = last + latency - now;
        if left <= 0 {
            0
        } else if left > u64::MAX {
            u64::MAX as int
        } else {
            left
        }
    }
}

/// How long to sleep before emitting a step at `now`.
pub fn send_delay(latency: u64, last: u128, now: u128, relevant: bool) -> (r: u64)
    ensures
        r == delay_spec(latency, last, now, relevant),
        relevant && last + latency - now <= u64::MAX ==> now + r >= last + latency,
        !relevant ==> r == 0,
{
    if !relevant {
        return 0;
    }
    if now >= last {
        let elapsed = now - last;
        if elapsed >= latency as u128 {
            0
        } else {
            (latency as u128 - elapsed) as u64
        }
    } else {
        let ahead = last - now;
        if ahead >= (u64::MAX - latency) as u128 {
            u64::MAX
        } else {
            latency + ahead as u64
        }
    }
}

} // verus!
