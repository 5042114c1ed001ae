//! Polyline thinning by chord deviation, as a sequence of decisions.
//!
//! The simplifier keeps the two ends of a polyline and works through a stack
//! of chords between kept points. For the chord on top it is handed the
//! deviation of every point strictly between the chord's ends, as unsigned
//! integers on any scale that grows with the distance from the chord. If the
//! largest deviation exceeds the tolerance, the point that has it is kept and
//! the chord is replaced by the two chords that meet there; otherwise every
//! point under the chord is dropped for good. Measuring deviations is the
//! caller's part; every decision is taken here.

use vstd::prelude::*;

verus! {

/// Why a dropped point was dropped: the chord it was measured against and
/// the deviation that was reported for it.
pub struct Verdict {
    pub start: int,
    pub end: int,
    pub deviation: u64,
}

/// The state of one simplification: which points are kept so far, and which
/// chords still wait for their deviations.
pub struct Simplifier {
    keep: Vec<bool>,
    pending: Vec<(usize, usize)>,
    tolerance: u64,
    verdicts: Ghost<Seq<Option<Verdict>>>,
}

/// Whether position `i` lies strictly between the ends of chord `r`.
pub open spec fn under(r: (usize, usize), i: int) -> bool {
    r.0 < i < r.1
}

/// Whether two chords share no position other than an end.
pub open spec fn apart(a: (usize, usize), b: (usize, usize)) -> bool {
    a.1 <= b.0 || b.1 <= a.0
}

/// The position of the first largest element of `deviations`; zero for an
/// empty sequence.
pub open spec fn peak(deviations: Seq<u64>) -> int
    decreases deviations.len(),
{
    if deviations.len() <= 1 {
        0
    } else {
        let before = peak(deviations.drop_last());
        if deviations.last() > deviations[before] {
            deviations.len() - 1
        } else {
            before
        }
    }
}

/// Whether a chord with these deviations under it is split: some point
/// deviates by more than the tolerance.
pub open spec fn splits(deviations: Seq<u64>, tolerance: u64) -> bool {
    deviations.len() > 0 && deviations[peak(deviations)] > tolerance
}

/// The mask a simplification starts from: both ends kept, and everything
/// kept where there are at most two points.
pub open spec fn ends_only(len: nat) -> Seq<bool> {
    Seq::new(len, |i: int| len <= 2 || i == 0 || i == len - 1)
}

/// The verdicts after the chord from `start` to `end` was dropped with
/// `deviations` reported for the points under it.
pub open spec fn settle(
    verdicts: Seq<Option<Verdict>>,
    start: int,
    end: int,
    deviations: Seq<u64>,
) -> Seq<Option<Verdict>> {
    Seq::new(
        verdicts.len(),
        |i: int|
            if start < i < end {
                Some(Verdict { start, end, deviation: deviations[i - start - 1] })
            } else {
                verdicts[i]
            },
    )
}

/// The verdicts before anything was decided: none for any position.
pub open spec fn unsettled(len: nat) -> Seq<Option<Verdict>> {
    Seq::new(len, |i: int| None::<Verdict>)
}

/// Work left in a stack of chords: each chord counts for twice its length
/// less one, so that splitting a chord and dropping one both lower it.
pub open spec fn effort(ranges: Seq<(usize, usize)>) -> int
    decreases ranges.len(),
{
    if ranges.len() == 0 {
        0
    } else {
        effort(ranges.drop_last()) + 2 * (ranges.last().1 - ranges.last().0) - 1
    }
}

/// The elements of `s` whose position is marked in `mask`, in order.
pub open spec fn marked<T>(s: Seq<T>, mask: Seq<bool>) -> Seq<T>
    recommends
        s.len() == mask.len(),
    decreases s.len(),
{
    if s.len() == 0 {
        Seq::empty()
    } else if mask.last() {
        marked(s.drop_last(), mask.drop_last()).push(s.last())
    } else {
        marked(s.drop_last(), mask.drop_last())
    }
}

/// `peak` names a position of the sequence, nothing in the sequence is
/// larger than the element there, and everything before it is smaller.
pub proof fn lemma_peak(deviations: Seq<u64>)
    requires
        deviations.len() > 0,
    ensures
        0 <= peak(deviations) < deviations.len(),
        forall|k: int|
            0 <= k < deviations.len() ==> #[trigger] deviations[k] <= deviations[peak(deviations)],
        forall|k: int|
            0 <= k < peak(deviations) ==> #[trigger] deviations[k] < deviations[peak(deviations)],
    decreases deviations.len(),
{
    if deviations.len() > 1 {
        let front = deviations.drop_last();
        lemma_peak(front);
        assert forall|k: int| 0 <= k < deviations.len() implies #[trigger] deviations[k]
            <= deviations[peak(deviations)] by {
            if k < front.len() {
                assert(front[k] == deviations[k]);
            }
        }
        assert forall|k: int| 0 <= k < peak(deviations) implies #[trigger] deviations[k]
            < deviations[peak(deviations)] by {
            assert(front[k] == deviations[k]);
        }
    }
}

proof fn lemma_effort_push(ranges: Seq<(usize, usize)>, r: (usize, usize))
    ensures
        effort(ranges.push(r)) == effort(ranges) + 2 * (r.1 - r.0) - 1,
{
    assert(ranges.push(r).drop_last() =~= ranges);
}

impl Simplifier {
    /// Which positions are kept so far.
    pub closed spec fn kept(&self) -> Seq<bool> {
        self.keep@
    }

    /// The chords that wait for their deviations; the last one is next.
    pub closed spec fn ranges(&self) -> Seq<(usize, usize)> {
        self.pending@
    }

    /// The largest deviation that lets a point be dropped.
    pub closed spec fn limit(&self) -> u64 {
        self.tolerance
    }

    /// For every position, the verdict by which it was dropped, if it was.
    pub closed spec fn verdicts(&self) -> Seq<Option<Verdict>> {
        self.verdicts@
    }

    /// A waiting chord joins two kept positions and has only undecided
    /// positions under it.
    pub open spec fn chord_ok(&self, r: (usize, usize)) -> bool {
        &&& r.0 < r.1 < self.kept().len()
        &&& self.kept()[r.0 as int]
        &&& self.kept()[r.1 as int]
        &&& forall|j: int|
            #![trigger self.kept()[j]]
            #![trigger self.verdicts()[j]]
            r.0 < j < r.1 ==> !self.kept()[j] && self.verdicts()[j] is None
    }

    /// Position `i` was dropped under a chord whose ends are kept, with a
    /// deviation within the tolerance, and nothing under that chord is kept.
    pub open spec fn settled(&self, i: int) -> bool {
        match self.verdicts()[i] {
            Some(v) => {
                &&& 0 <= v.start < i < v.end < self.kept().len()
                &&& self.kept()[v.start]
                &&& self.kept()[v.end]
                &&& v.deviation <= self.limit()
                &&& forall|j: int|
                    #![trigger self.kept()[j]]
                    #![trigger self.verdicts()[j]]
                    v.start < j < v.end ==> !self.kept()[j] && self.verdicts()[j] is Some
            },
            None => false,
        }
    }

    /// Position `i` lies under a waiting chord.
    pub open spec fn covered(&self, i: int) -> bool {
        exists|k: int| 0 <= k < self.ranges().len() && under(#[trigger] self.ranges()[k], i)
    }

    /// The invariant of a simplification: both ends are kept, the waiting
    /// chords are sound and pairwise apart, and every position that is not
    /// kept is either under a waiting chord or settled.
    pub open spec fn wf(&self) -> bool {
        &&& self.verdicts().len() == self.kept().len()
        &&& self.kept().len() > 0 ==> self.kept()[0] && self.kept()[self.kept().len() - 1]
        &&& forall|k: int|
            0 <= k < self.ranges().len() ==> self.chord_ok(#[trigger] self.ranges()[k])
        &&& forall|a: int, b: int|
            0 <= a < b < self.ranges().len() ==> apart(
                #[trigger] self.ranges()[a],
                #[trigger] self.ranges()[b],
            )
        &&& forall|i: int|
            0 <= i < self.kept().len() && !#[trigger] self.kept()[i] ==> self.covered(i)
                || self.settled(i)
    }

    /// Whether `next` is the state that follows this one when the chord on
    /// top of the stack is decided from `deviations`: split at the first
    /// largest deviation where that exceeds the tolerance, dropped with
    /// everything under it otherwise.
    pub open spec fn step(&self, deviations: Seq<u64>, next: Simplifier) -> bool {
        let r = self.ranges().last();
        let mid = (r.0 + 1 + peak(deviations)) as usize;
        &&& self.ranges().len() > 0
        &&& deviations.len() == r.1 - r.0 - 1
        &&& next.limit() == self.limit()
        &&& if splits(deviations, self.limit()) {
            &&& next.kept() == self.kept().update(mid as int, true)
            &&& next.ranges() == self.ranges().drop_last().push((r.0, mid)).push((mid, r.1))
            &&& next.verdicts() == self.verdicts()
        } else {
            &&& next.kept() == self.kept()
            &&& next.ranges() == self.ranges().drop_last()
            &&& next.verdicts() == settle(self.verdicts(), r.0 as int, r.1 as int, deviations)
        }
    }

    /// Work left: falls with every accepted call of `resolve`.
    pub open spec fn work(&self) -> int {
        effort(self.ranges())
    }

    /// Starts the simplification of `len` points: both ends kept and the
    /// chord between them waiting. With at most two points all are kept and
    /// nothing waits.
    pub fn new(len: usize, tolerance: u64) -> (s: Self)
        ensures
            s.wf(),
            s.kept() == ends_only(len as nat),
            s.ranges() == if len > 2 {
                seq![(0usize, (len - 1) as usize)]
            } else {
                Seq::<(usize, usize)>::empty()
            },
            s.limit() == tolerance,
            s.verdicts() == Seq::new(len as nat, |i: int| None::<Verdict>),
    {
        let mut keep: Vec<bool> = Vec::new();
        let mut i: usize = 0;
        while i < len
            invariant
                i <= len,
                keep.len() == i,
                forall|j: int| 0 <= j < i ==> keep[j] == (len <= 2 || j == 0 || j == len - 1),
            decreases len - i,
        {
            keep.push(len <= 2 || i == 0 || i == len - 1);
            i = i + 1;
        }
        let mut pending: Vec<(usize, usize)> = Vec::new();
        if len > 2 {
            pending.push((0, len - 1));
        }
        let s = Simplifier {
            keep,
            pending,
            tolerance,
            verdicts: Ghost(Seq::new(len as nat, |i: int| None::<Verdict>)),
        };
        proof {
            assert(s.kept() =~= ends_only(len as nat));
            if len > 2 {
                assert(s.ranges() =~= seq![(0usize, (len - 1) as usize)]);
                assert forall|i: int| 0 <= i < s.kept().len() && !#[trigger] s.kept()[i] implies s.covered(i) by {
                    assert(under(s.ranges()[0], i));
                }
            } else {
                assert(s.ranges() =~= Seq::<(usize, usize)>::empty());
            }
        }
        s
    }

    /// A finished simplification that keeps all of `len` points.
    pub fn keep_all(len: usize, tolerance: u64) -> (s: Self)
        ensures
            s.wf(),
            s.kept() == Seq::new(len as nat, |i: int| true),
            s.ranges() == Seq::<(usize, usize)>::empty(),
            s.limit() == tolerance,
            s.verdicts() == Seq::new(len as nat, |i: int| None::<Verdict>),
    {
        let mut keep: Vec<bool> = Vec::new();
        let mut i: usize = 0;
        while i < len
            invariant
                i <= len,
                keep.len() == i,
                forall|j: int| 0 <= j < i ==> keep[j],
            decreases len - i,
        {
            keep.push(true);
            i = i + 1;
        }
        let s = Simplifier {
            keep,
            pending: Vec::new(),
            tolerance,
            verdicts: Ghost(Seq::new(len as nat, |i: int| None::<Verdict>)),
        };
        proof {
            assert(s.kept() =~= Seq::new(len as nat, |i: int| true));
            assert(s.ranges() =~= Seq::<(usize, usize)>::empty());
        }
        s
    }

    /// The number of points under simplification.
    pub fn len(&self) -> (n: usize)
        ensures
            n == self.kept().len(),
    {
        self.keep.len()
    }

    /// The chord whose deviations `resolve` expects next, or `None` when the
    /// simplification is finished.
    pub fn next_range(&self) -> (r: Option<(usize, usize)>)
        ensures
            r == if self.ranges().len() > 0 {
                Some(self.ranges().last())
            } else {
                None
            },
    {
        let count: usize = self.pending.len();
        if count == 0 {
            None
        } else {
            Some(self.pending[count - 1])
        }
    }

    /// Whether position `i` is kept so far.
    pub fn is_kept(&self, i: usize) -> (b: bool)
        requires
            i < self.kept().len(),
        ensures
            b == self.kept()[i as int],
    {
        self.keep[i]
    }

    /// Decides the chord on top of the stack from the deviations of the
    /// points under it, given in order. The call is refused, and changes
    /// nothing, when no chord waits or when `deviations` has another length
    /// than the chord has points under it. Otherwise the chord leaves the
    /// stack: if the largest deviation exceeds the tolerance, the first point
    /// that has it is kept and the two chords that meet there are pushed, the
    /// later one on top; if not, every point under the chord is dropped.
    pub fn resolve(&mut self, deviations: &[u64]) -> (accepted: bool)
        requires
            old(self).wf(),
        ensures
            final(self).wf(),
            final(self).limit() == old(self).limit(),
            accepted == (old(self).ranges().len() > 0 && deviations@.len() == old(
                self,
            ).ranges().last().1 - old(self).ranges().last().0 - 1),
            !accepted ==> {
                &&& final(self).kept() == old(self).kept()
                &&& final(self).ranges() == old(self).ranges()
                &&& final(self).verdicts() == old(self).verdicts()
            },
            accepted && splits(deviations@, old(self).limit()) ==> {
                let r = old(self).ranges().last();
                let mid = (r.0 + 1 + peak(deviations@)) as usize;
                &&& r.0 < mid < r.1
                &&& final(self).kept() == old(self).kept().update(mid as int, true)
                &&& final(self).ranges() == old(self).ranges().drop_last().push((r.0, mid)).push(
                    (mid, r.1),
                )
                &&& final(self).verdicts() == old(self).verdicts()
            },
            accepted && !splits(deviations@, old(self).limit()) ==> {
                let r = old(self).ranges().last();
                &&& final(self).kept() == old(self).kept()
                &&& final(self).ranges() == old(self).ranges().drop_last()
                &&& final(self).verdicts() == settle(
                    old(self).verdicts(),
                    r.0 as int,
                    r.1 as int,
                    deviations@,
                )
            },
            accepted ==> final(self).work() < old(self).work(),
            accepted ==> old(self).step(deviations@, *final(self)),
    {
        let waiting: usize = self.pending.len();
        if waiting == 0 {
            return false;
        }
        let (start, end) = self.pending[waiting - 1];
        assert(self.chord_ok(self.ranges()[waiting - 1]));
        let count: usize = deviations.len();
        if count != end - start - 1 {
            return false;
        }
        self.pending.pop();
        let mut best: usize = 0;
        let mut i: usize = 1;
        while i < count
            invariant
                1 <= i,
                count == deviations@.len(),
                i <= count || count == 0,
                best < i,
                count > 0 ==> best == peak(deviations@.take(i as int)),
            decreases count - i,
        {
            proof {
                assert(deviations@.take(i + 1).drop_last() =~= deviations@.take(i as int));
            }
            if deviations[i] > deviations[best] {
                best = i;
            }
            i = i + 1;
        }
        proof {
            if count > 0 {
                assert(deviations@.take(i as int) =~= deviations@);
                lemma_peak(deviations@);
            }
        }
        if count > 0 && deviations[best] > self.tolerance {
            let mid: usize = start + 1 + best;
            self.keep.set(mid, true);
            self.pending.push((start, mid));
            self.pending.push((mid, end));
            proof {
                lemma_split_keeps_wf(*old(self), *self, mid);
            }
        } else {
            proof {
                self.verdicts@ = settle(old(self).verdicts(), start as int, end as int, deviations@);
                lemma_drop_keeps_wf(*old(self), *self, deviations@);
            }
        }
        true
    }

    /// The points at the kept positions, in their order.
    pub fn retain<T: Copy>(&self, points: &[T]) -> (out: Vec<T>)
        requires
            points@.len() == self.kept().len(),
        ensures
            out@ == marked(points@, self.kept()),
    {
        let mut out: Vec<T> = Vec::new();
        let mut i: usize = 0;
        while i < points.len()
            invariant
                i <= points@.len(),
                points@.len() == self.keep@.len(),
                out@ == marked(points@.take(i as int), self.keep@.take(i as int)),
            decreases points@.len() - i,
        {
            proof {
                assert(points@.take(i + 1).drop_last() =~= points@.take(i as int));
                assert(self.keep@.take(i + 1).drop_last() =~= self.keep@.take(i as int));
            }
            if self.keep[i] {
                out.push(points[i]);
            }
            i = i + 1;
        }
        proof {
            assert(points@.take(i as int) =~= points@);
            assert(self.keep@.take(i as int) =~= self.keep@);
        }
        out
    }
}

/// Keeping the point with the largest deviation and splitting the chord
/// there preserves the invariant and lowers the work left.
proof fn lemma_split_keeps_wf(before: Simplifier, after: Simplifier, mid: usize)
    requires
        before.wf(),
        before.ranges().len() > 0,
        before.ranges().last().0 < mid < before.ranges().last().1,
        after.limit() == before.limit(),
        after.kept() == before.kept().update(mid as int, true),
        after.verdicts() == before.verdicts(),
        after.ranges() == before.ranges().drop_last().push((before.ranges().last().0, mid)).push(
            (mid, before.ranges().last().1),
        ),
    ensures
        after.wf(),
        after.work() < before.work(),
{
    let n = before.ranges().len() as int;
    let r = before.ranges().last();
    let rest = before.ranges().drop_last();
    assert(before.chord_ok(before.ranges()[n - 1]));
    assert(!before.kept()[mid as int] && before.verdicts()[mid as int] is None);
    assert forall|k: int| 0 <= k < after.ranges().len() implies after.chord_ok(
        #[trigger] after.ranges()[k],
    ) by {
        if k < n - 1 {
            assert(before.chord_ok(before.ranges()[k]));
            assert(apart(before.ranges()[k], before.ranges()[n - 1]));
        }
    }
    assert forall|a: int, b: int| 0 <= a < b < after.ranges().len() implies apart(
        #[trigger] after.ranges()[a],
        #[trigger] after.ranges()[b],
    ) by {
        if a < n - 1 {
            assert(apart(before.ranges()[a], before.ranges()[n - 1]));
            if b < n - 1 {
                assert(apart(before.ranges()[a], before.ranges()[b]));
            }
        }
    }
    assert forall|i: int| 0 <= i < after.kept().len() && !#[trigger] after.kept()[i] implies (
    after.covered(i) || after.settled(i)) by {
        assert(!before.kept()[i]);
        if before.covered(i) {
            let k = choose|k: int| 0 <= k < before.ranges().len() && under(#[trigger] before.ranges()[k], i);
            if k < n - 1 {
                assert(under(after.ranges()[k], i));
            } else if i < mid {
                assert(under(after.ranges()[n - 1], i));
            } else {
                assert(under(after.ranges()[n], i));
            }
        } else {
            assert(before.settled(i));
            let v = before.verdicts()[i]->Some_0;
            assert forall|j: int| v.start < j < v.end implies !#[trigger] after.kept()[j]
                && after.verdicts()[j] is Some by {
                assert(!before.kept()[j]);
                assert(before.verdicts()[j] is Some);
            }
            assert(after.settled(i));
        }
    }
    lemma_effort_push(rest, (r.0, mid));
    lemma_effort_push(rest.push((r.0, mid)), (mid, r.1));
}

/// Dropping every point under a chord whose deviations all lie within the
/// tolerance preserves the invariant and lowers the work left.
proof fn lemma_drop_keeps_wf(before: Simplifier, after: Simplifier, deviations: Seq<u64>)
    requires
        before.wf(),
        before.ranges().len() > 0,
        deviations.len() == before.ranges().last().1 - before.ranges().last().0 - 1,
        !splits(deviations, before.limit()),
        after.limit() == before.limit(),
        after.kept() == before.kept(),
        after.ranges() == before.ranges().drop_last(),
        after.verdicts() == settle(
            before.verdicts(),
            before.ranges().last().0 as int,
            before.ranges().last().1 as int,
            deviations,
        ),
    ensures
        after.wf(),
        after.work() < before.work(),
{
    let n = before.ranges().len() as int;
    let r = before.ranges().last();
    assert(before.chord_ok(before.ranges()[n - 1]));
    if deviations.len() > 0 {
        lemma_peak(deviations);
    }
    assert forall|k: int| 0 <= k < after.ranges().len() implies after.chord_ok(
        #[trigger] after.ranges()[k],
    ) by {
        assert(before.chord_ok(before.ranges()[k]));
        assert(apart(before.ranges()[k], before.ranges()[n - 1]));
    }
    assert forall|a: int, b: int| 0 <= a < b < after.ranges().len() implies apart(
        #[trigger] after.ranges()[a],
        #[trigger] after.ranges()[b],
    ) by {
        assert(apart(before.ranges()[a], before.ranges()[b]));
    }
    assert forall|i: int| 0 <= i < after.kept().len() && !#[trigger] after.kept()[i] implies (
    after.covered(i) || after.settled(i)) by {
        if under(r, i) {
            assert(deviations[i - r.0 - 1] <= deviations[peak(deviations)]);
            assert(after.settled(i));
        } else if before.covered(i) {
            let k = choose|k: int| 0 <= k < before.ranges().len() && under(#[trigger] before.ranges()[k], i);
            assert(under(after.ranges()[k], i));
        } else {
            assert(before.settled(i));
            let v = before.verdicts()[i]->Some_0;
            assert forall|j: int| v.start < j < v.end implies !#[trigger] after.kept()[j]
                && after.verdicts()[j] is Some by {
                assert(!before.kept()[j]);
                assert(before.verdicts()[j] is Some);
            }
            assert(after.settled(i));
        }
    }
}

/// Every step keeps the invariant, lowers the work left, and leaves the
/// number of positions as it was.
pub proof fn lemma_step_keeps_wf(before: Simplifier, deviations: Seq<u64>, after: Simplifier)
    requires
        before.wf(),
        before.step(deviations, after),
    ensures
        after.wf(),
        after.work() < before.work(),
        after.kept().len() == before.kept().len(),
{
    let r = before.ranges().last();
    assert(before.chord_ok(before.ranges()[before.ranges().len() - 1]));
    if splits(deviations, before.limit()) {
        lemma_peak(deviations);
        lemma_split_keeps_wf(before, after, (r.0 + 1 + peak(deviations)) as usize);
    } else {
        lemma_drop_keeps_wf(before, after, deviations);
    }
}

/// Whatever was reported along the way, a simplification keeps the first
/// and the last position.
pub proof fn lemma_ends_kept(s: Simplifier)
    requires
        s.wf(),
        s.kept().len() > 0,
    ensures
        s.kept()[0],
        s.kept()[s.kept().len() - 1],
{
}

/// The retained points begin with the first point and end with the last,
/// whatever was reported along the way.
pub proof fn lemma_result_keeps_ends<T>(s: Simplifier, points: Seq<T>)
    requires
        s.wf(),
        points.len() == s.kept().len(),
        points.len() > 0,
    ensures
        marked(points, s.kept()).len() > 0,
        marked(points, s.kept()).first() == points.first(),
        marked(points, s.kept()).last() == points.last(),
{
    lemma_marked_first(points, s.kept());
    lemma_marked_last(points, s.kept());
}

/// In a finished simplification every dropped position lies under a chord
/// between two kept positions with nothing kept in between, and the
/// deviation reported for it against that chord is within the tolerance.
pub proof fn lemma_dropped_within_tolerance(s: Simplifier, i: int)
    requires
        s.wf(),
        s.ranges().len() == 0,
        0 <= i < s.kept().len(),
        !s.kept()[i],
    ensures
        s.verdicts()[i] is Some,
        ({
            let v = s.verdicts()[i]->Some_0;
            &&& 0 <= v.start < i < v.end < s.kept().len()
            &&& s.kept()[v.start]
            &&& s.kept()[v.end]
            &&& v.deviation <= s.limit()
            &&& forall|j: int| v.start < j < v.end ==> !#[trigger] s.kept()[j]
        }),
{
    assert(s.covered(i) || s.settled(i));
}

/// Selecting by a mask that marks the first position keeps the first
/// element first.
pub proof fn lemma_marked_first<T>(s: Seq<T>, mask: Seq<bool>)
    requires
        s.len() == mask.len(),
        s.len() > 0,
        mask[0],
    ensures
        marked(s, mask).len() > 0,
        marked(s, mask).first() == s.first(),
    decreases s.len(),
{
    if s.len() > 1 {
        lemma_marked_first(s.drop_last(), mask.drop_last());
        assert(marked(s.drop_last(), mask.drop_last()).first() == s.first());
    } else {
        assert(marked(s.drop_last(), mask.drop_last()) =~= Seq::<T>::empty());
    }
}

/// Selecting by a mask that marks the last position keeps the last element
/// last.
pub proof fn lemma_marked_last<T>(s: Seq<T>, mask: Seq<bool>)
    requires
        s.len() == mask.len(),
        s.len() > 0,
        mask.last(),
    ensures
        marked(s, mask).len() > 0,
        marked(s, mask).last() == s.last(),
{
}

/// How many of the first `i` positions are marked in `mask`.
pub open spec fn rank(mask: Seq<bool>, i: int) -> nat
    decreases i,
{
    if i <= 0 {
        0
    } else if mask[i - 1] {
        rank(mask, i - 1) + 1
    } else {
        rank(mask, i - 1)
    }
}

proof fn lemma_rank_prefix(a: Seq<bool>, b: Seq<bool>, i: int)
    requires
        0 <= i <= a.len(),
        i <= b.len(),
        forall|k: int| 0 <= k < i ==> a[k] == b[k],
    ensures
        rank(a, i) == rank(b, i),
    decreases i,
{
    if i > 0 {
        lemma_rank_prefix(a, b, i - 1);
    }
}

/// A selection has as many elements as its mask has marks.
pub proof fn lemma_marked_len<T>(s: Seq<T>, mask: Seq<bool>)
    requires
        s.len() == mask.len(),
    ensures
        marked(s, mask).len() == rank(mask, mask.len() as int),
    decreases s.len(),
{
    if s.len() > 0 {
        lemma_marked_len(s.drop_last(), mask.drop_last());
        lemma_rank_prefix(mask, mask.drop_last(), mask.len() - 1);
    }
}

/// A selection never has more elements than it selects from.
pub proof fn lemma_marked_at_most<T>(s: Seq<T>, mask: Seq<bool>)
    requires
        s.len() == mask.len(),
    ensures
        marked(s, mask).len() <= s.len(),
    decreases s.len(),
{
    if s.len() > 0 {
        lemma_marked_at_most(s.drop_last(), mask.drop_last());
    }
}

/// The element at a marked position stands in the selection at the rank of
/// that position.
pub proof fn lemma_marked_index<T>(s: Seq<T>, mask: Seq<bool>, i: int)
    requires
        s.len() == mask.len(),
        0 <= i < s.len(),
        mask[i],
    ensures
        rank(mask, i) < marked(s, mask).len(),
        marked(s, mask)[rank(mask, i) as int] == s[i],
    decreases s.len(),
{
    let front = s.drop_last();
    let front_mask = mask.drop_last();
    if i == s.len() - 1 {
        lemma_marked_len(front, front_mask);
        lemma_rank_prefix(mask, front_mask, i);
    } else {
        lemma_marked_index(front, front_mask, i);
        lemma_rank_prefix(mask, front_mask, i);
    }
}

/// Two marked positions with no mark between them are neighbours in rank.
pub proof fn lemma_rank_adjacent(mask: Seq<bool>, a: int, b: int)
    requires
        0 <= a < b <= mask.len(),
        mask[a],
        forall|j: int| a < j < b ==> !mask[j],
    ensures
        rank(mask, b) == rank(mask, a) + 1,
    decreases b - a,
{
    if b > a + 1 {
        lemma_rank_adjacent(mask, a, b - 1);
    }
}

/// In a finished simplification every dropped point was measured against a
/// chord that is a segment of the result: the two ends of the chord follow
/// one another among the retained points, and the deviation that was
/// reported for the dropped point against it is within the tolerance.
pub proof fn lemma_dropped_near_result<T>(s: Simplifier, points: Seq<T>, i: int)
    requires
        s.wf(),
        s.ranges().len() == 0,
        points.len() == s.kept().len(),
        0 <= i < s.kept().len(),
        !s.kept()[i],
    ensures
        s.verdicts()[i] is Some,
        ({
            let v = s.verdicts()[i]->Some_0;
            let k = rank(s.kept(), v.start) as int;
            let result = marked(points, s.kept());
            &&& 0 <= v.start < i < v.end < points.len()
            &&& v.deviation <= s.limit()
            &&& k + 1 < result.len()
            &&& result[k] == points[v.start]
            &&& result[k + 1] == points[v.end]
        }),
{
    lemma_dropped_within_tolerance(s, i);
    let v = s.verdicts()[i]->Some_0;
    lemma_rank_adjacent(s.kept(), v.start, v.end);
    lemma_marked_index(points, s.kept(), v.start);
    lemma_marked_index(points, s.kept(), v.end);
}

/// The work left is never negative, so a caller that resolves chord after
/// chord comes to an end.
pub proof fn lemma_work_bounded(s: Simplifier)
    requires
        s.wf(),
    ensures
        s.work() >= s.ranges().len(),
{
    lemma_effort_bounded(s, s.ranges().len() as int);
    assert(s.ranges().take(s.ranges().len() as int) =~= s.ranges());
}

proof fn lemma_effort_bounded(s: Simplifier, count: int)
    requires
        s.wf(),
        0 <= count <= s.ranges().len(),
    ensures
        effort(s.ranges().take(count)) >= count,
    decreases count,
{
    if count > 0 {
        lemma_effort_bounded(s, count - 1);
        assert(s.ranges().take(count).drop_last() =~= s.ranges().take(count - 1));
        assert(s.chord_ok(s.ranges()[count - 1]));
    }
}

} // verus!
