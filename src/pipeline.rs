//! Ordering layer: changesets may arrive in any order; samples are built
//! strictly in the order of the expected timestamps, one at a time.
use vstd::prelude::*;

use crate::change::{Changeset, ChangesetView};
use crate::label::{cohort_label, strftime_text};
use crate::change::ops_of;
use crate::sample::{ApplyError, Files, Sample, SampleView, next_sample};

verus! {

/// Changesets received so far, keyed by timestamp.
pub type Received = Map<int, ChangesetView>;

pub open spec fn ascending(expected: Seq<int>) -> bool {
    forall|i: int, j: int| 0 <= i < j < expected.len() ==> expected[i] < expected[j]
}

/// The files a new sample starts from: those of the last sample, or none.
pub open spec fn files_before(ss: Seq<SampleView>) -> Files {
    if ss.len() == 0 {
        Seq::empty()
    } else {
        ss.last().files
    }
}

/// The samples built from the changesets of the first `k` expected
/// timestamps, in order; `None` if one is missing or fails.
pub open spec fn run(expected: Seq<int>, r: Received, fmt: Seq<char>, k: nat) -> Option<
    Seq<SampleView>,
>
    decreases k,
{
    if k == 0 {
        Some(Seq::empty())
    } else {
        match run(expected, r, fmt, (k - 1) as nat) {
            None => None,
            Some(ss) => {
                let t = expected[k - 1];
                if !r.contains_key(t) {
                    None
                } else {
                    match strftime_text(t, fmt) {
                        None => None,
                        Some(label) => match next_sample(files_before(ss), t, r[t].ops, label) {
                            None => None,
                            Some(s) => Some(ss.push(s)),
                        },
                    }
                }
            },
        }
    }
}

/// Whether the changeset of the `i`-th expected timestamp has arrived and
/// builds a sample on those before it.
pub open spec fn builds(expected: Seq<int>, r: Received, fmt: Seq<char>, i: nat) -> bool {
    i < expected.len() && r.contains_key(expected[i as int]) && run(expected, r, fmt, i + 1) is Some
}

/// How many samples are built, walking the expected timestamps from `k`.
pub open spec fn settle(expected: Seq<int>, r: Received, fmt: Seq<char>, k: nat) -> nat
    decreases expected.len() - k,
{
    if k < expected.len() && builds(expected, r, fmt, k) {
        settle(expected, r, fmt, k + 1)
    } else {
        k
    }
}

/// The samples built from what was received.
pub open spec fn outcome(expected: Seq<int>, r: Received, fmt: Seq<char>) -> Seq<SampleView> {
    match run(expected, r, fmt, settle(expected, r, fmt, 0)) {
        Some(ss) => ss,
        None => Seq::empty(),
    }
}

/// Whether building stopped on a changeset that arrived but could not be applied.
pub open spec fn stalled(expected: Seq<int>, r: Received, fmt: Seq<char>) -> bool {
    let n = settle(expected, r, fmt, 0);
    n < expected.len() && r.contains_key(expected[n as int])
}

/// What receiving `cs` does: it is recorded when its timestamp is expected
/// and nothing was received for it before.
pub open spec fn feed(expected: Seq<int>, r: Received, cs: ChangesetView) -> Received {
    if expected.contains(cs.time) && !r.contains_key(cs.time) {
        r.insert(cs.time, cs)
    } else {
        r
    }
}

pub open spec fn feed_all(expected: Seq<int>, r: Received, css: Seq<ChangesetView>) -> Received
    decreases css.len(),
{
    if css.len() == 0 {
        r
    } else {
        feed(expected, feed_all(expected, r, css.drop_last()), css.last())
    }
}

/// Two received maps agree on the first `k` expected timestamps.
pub open spec fn agree_upto(expected: Seq<int>, r1: Received, r2: Received, k: nat) -> bool {
    forall|i: int|
        0 <= i < k ==> (r1.contains_key(#[trigger] expected[i]) == r2.contains_key(expected[i])
            && (r1.contains_key(expected[i]) ==> r1[expected[i]] == r2[expected[i]]))
}

pub proof fn lemma_run_agree(expected: Seq<int>, r1: Received, r2: Received, fmt: Seq<char>, k: nat)
    requires
        k <= expected.len(),
        agree_upto(expected, r1, r2, k),
    ensures
        run(expected, r1, fmt, k) == run(expected, r2, fmt, k),
    decreases k,
{
    if k > 0 {
        assert(agree_upto(expected, r1, r2, (k - 1) as nat));
        lemma_run_agree(expected, r1, r2, fmt, (k - 1) as nat);
        let t = expected[k - 1];
        assert(r1.contains_key(t) == r2.contains_key(t));
    }
}

/// A run that reaches `k` passes every earlier step.
pub proof fn lemma_run_prefix(expected: Seq<int>, r: Received, fmt: Seq<char>, k: nat, j: nat)
    requires
        j < k <= expected.len(),
        run(expected, r, fmt, k) is Some,
    ensures
        builds(expected, r, fmt, j),
    decreases k,
{
    if j + 1 < k {
        lemma_run_prefix(expected, r, fmt, (k - 1) as nat, j);
    }
}

pub proof fn lemma_run_len(expected: Seq<int>, r: Received, fmt: Seq<char>, k: nat)
    requires
        k <= expected.len(),
        run(expected, r, fmt, k) is Some,
    ensures
        run(expected, r, fmt, k).unwrap().len() == k,
        forall|i: int|
            0 <= i < k ==> (#[trigger] run(expected, r, fmt, k).unwrap()[i]).time == expected[i],
    decreases k,
{
    if k > 0 {
        lemma_run_len(expected, r, fmt, (k - 1) as nat);
    }
}

pub proof fn lemma_settle(expected: Seq<int>, r: Received, fmt: Seq<char>, k: nat, n: nat)
    requires
        k <= n <= expected.len(),
        forall|i: nat| k <= i < n ==> builds(expected, r, fmt, i),
        n == expected.len() || !builds(expected, r, fmt, n),
    ensures
        settle(expected, r, fmt, k) == n,
    decreases n - k,
{
    if k < n {
        lemma_settle(expected, r, fmt, k + 1, n);
    }
}

/// The samples and the stall after `n` built samples, seen from the run to `n`.
pub proof fn lemma_outcome(expected: Seq<int>, r: Received, fmt: Seq<char>, n: nat)
    requires
        n <= expected.len(),
        run(expected, r, fmt, n) is Some,
        n == expected.len() || !builds(expected, r, fmt, n),
    ensures
        settle(expected, r, fmt, 0) == n,
        outcome(expected, r, fmt) == run(expected, r, fmt, n).unwrap(),
        stalled(expected, r, fmt) == (n < expected.len() && r.contains_key(expected[n as int])),
{
    assert forall|i: nat| 0 <= i < n implies builds(expected, r, fmt, i) by {
        lemma_run_prefix(expected, r, fmt, n, i);
    }
    lemma_settle(expected, r, fmt, 0, n);
}

/// Why the pipeline refused a changeset or stopped.
#[derive(Clone, Copy, Debug, PartialEq, Eq, Structural)]
pub enum PipelineError {
    /// The expected timestamps are not strictly ascending.
    NotAscending,
    /// A changeset arrived whose timestamp is not expected.
    UnexpectedTimestamp { date_time: i64 },
    /// A second changeset arrived for a timestamp.
    DuplicateTimestamp { date_time: i64 },
    /// The cohort label of a timestamp could not be formatted.
    BadCohort { date_time: i64 },
    /// A changeset did not fit the sample before it.
    Inconsistent(ApplyError),
    /// The pipeline stopped on an earlier error and builds nothing more.
    Halted,
}

/// Receives changesets in any order and folds them onto samples in the
/// order of the expected timestamps. Once a changeset cannot be applied the
/// pipeline halts: every later sample would derive from a wrong one.
pub struct Pipeline {
    expected: Vec<i64>,
    fmt: String,
    pending: Vec<Changeset>,
    samples: Vec<Sample>,
    halted: bool,
    received: Ghost<Received>,
}

pub open spec fn times_view(v: Seq<i64>) -> Seq<int> {
    v.map_values(|t: i64| t as int)
}

pub open spec fn samples_view(v: Seq<Sample>) -> Seq<SampleView> {
    v.map_values(|s: Sample| s@)
}

impl Pipeline {
    /// The expected timestamps, in order.
    pub closed spec fn expected_times(&self) -> Seq<int> {
        times_view(self.expected@)
    }

    /// The pattern that cohort labels are formatted with.
    pub closed spec fn format(&self) -> Seq<char> {
        self.fmt@
    }

    /// Every changeset received, by timestamp.
    pub closed spec fn received(&self) -> Received {
        self.received@
    }

    pub closed spec fn built(&self) -> Seq<SampleView> {
        samples_view(self.samples@)
    }

    pub closed spec fn stopped(&self) -> bool {
        self.halted
    }

    pub closed spec fn pending_covers(&self) -> bool {
        let e = self.expected_times();
        let n = self.samples@.len();
        forall|t: int|
            #[trigger] self.received@.contains_key(t) ==> (exists|i: int|
                0 <= i < n && e[i] == t) || (exists|j: int|
                0 <= j < self.pending@.len() && (#[trigger] self.pending@[j]).date_time == t)
    }

    pub closed spec fn pending_ok(&self) -> bool {
        let e = self.expected_times();
        let n = self.samples@.len();
        &&& forall|j: int|
            0 <= j < self.pending@.len() ==> {
                let t = (#[trigger] self.pending@[j]).date_time as int;
                &&& self.received@.contains_key(t)
                &&& self.received@[t] == self.pending@[j]@
                &&& forall|i: int| 0 <= i < n ==> e[i] != t
            }
        &&& forall|a: int, b: int|
            0 <= a < self.pending@.len() && 0 <= b < self.pending@.len() && a != b ==> (
            #[trigger] self.pending@[a]).date_time != (#[trigger] self.pending@[b]).date_time
    }

    /// Everything but whether the next expected changeset is still waiting.
    pub closed spec fn core_wf(&self) -> bool {
        let e = self.expected_times();
        let r = self.received@;
        let n = self.samples@.len();
        &&& ascending(e)
        &&& n <= e.len()
        &&& forall|i: int| 0 <= i < n ==> (#[trigger] self.samples@[i]).wf()
        &&& run(e, r, self.fmt@, n) == Some(self.built())
        &&& forall|t: int| #[trigger] r.contains_key(t) ==> e.contains(t) && r[t].time == t
        &&& self.halted ==> n < e.len() && r.contains_key(e[n as int]) && !builds(
            e,
            r,
            self.fmt@,
            n,
        )
        &&& !self.halted ==> self.pending_covers()
        &&& self.pending_ok()
    }

    pub closed spec fn wf(&self) -> bool {
        let e = self.expected_times();
        let n = self.samples@.len();
        &&& self.core_wf()
        &&& !self.halted ==> n == e.len() || !self.received@.contains_key(e[n as int])
    }

    proof fn lemma_wf_outcome(&self)
        requires
            self.wf(),
        ensures
            self.built() == outcome(self.expected_times(), self.received(), self.format()),
            self.stopped() == stalled(self.expected_times(), self.received(), self.format()),
    {
        let e = self.expected_times();
        let n = self.samples@.len();
        if !self.halted && n < e.len() {
            assert(!builds(e, self.received@, self.fmt@, n));
        }
        lemma_outcome(e, self.received@, self.fmt@, n);
    }

    /// A pipeline expecting changesets for `expected`, labelling lines through `fmt`.
    pub fn new(expected: Vec<i64>, fmt: String) -> (r: Result<Pipeline, PipelineError>)
        ensures
            match r {
                Ok(p) => {
                    &&& ascending(times_view(expected@))
                    &&& p.wf()
                    &&& p.expected_times() == times_view(expected@)
                    &&& p.format() == fmt@
                    &&& p.received() == Map::<int, ChangesetView>::empty()
                    &&& p.built().len() == 0
                    &&& !p.stopped()
                },
                Err(e) => e == PipelineError::NotAscending && !ascending(times_view(expected@)),
            },
    {
        let mut i: usize = 1;
        while i < expected.len()
            invariant
                1 <= i,
                forall|a: int, b: int|
                    0 <= a < b < i && b < expected@.len() ==> expected@[a] < expected@[b],
            decreases expected@.len() - i,
        {
            if expected[i - 1] >= expected[i] {
                proof {
                    let e = times_view(expected@);
                    assert(e[i - 1] >= e[i as int]);
                }
                return Err(PipelineError::NotAscending);
            }
            proof {
                assert forall|a: int, b: int|
                    0 <= a < b < i + 1 && b < expected@.len() implies expected@[a]
                    < expected@[b] by {
                    if b == i && a < i - 1 {
                        assert(expected@[a] < expected@[i - 1]);
                    }
                }
            }
            i += 1;
        }
        let p = Pipeline {
            expected,
            fmt,
            pending: Vec::new(),
            samples: Vec::new(),
            halted: false,
            received: Ghost(Map::empty()),
        };
        proof {
            let e = times_view(p.expected@);
            assert(ascending(e)) by {
                assert forall|a: int, b: int| 0 <= a < b < e.len() implies e[a] < e[b] by {
                    assert(p.expected@[a] < p.expected@[b]);
                }
            }
            assert(p.built() =~= Seq::empty());
        }
        Ok(p)
    }

    /// Position of timestamp `t` among the expected ones.
    fn position(&self, t: i64) -> (r: Option<usize>)
        requires
            ascending(self.expected_times()),
        ensures
            match r {
                Some(m) => m < self.expected@.len() && self.expected_times()[m as int] == t,
                None => !self.expected_times().contains(t as int),
            },
    {
        let mut i: usize = 0;
        while i < self.expected.len()
            invariant
                i <= self.expected@.len(),
                forall|j: int| 0 <= j < i ==> self.expected@[j] != t,
            decreases self.expected@.len() - i,
        {
            if self.expected[i] == t {
                return Some(i);
            }
            i += 1;
        }
        proof {
            if self.expected_times().contains(t as int) {
                let j = choose|j: int|
                    0 <= j < self.expected_times().len() && self.expected_times()[j] == t;
                assert(self.expected@[j] == t);
            }
        }
        None
    }

    /// Position of the pending changeset for `t`.
    fn find_pending(&self, t: i64) -> (r: Option<usize>)
        ensures
            match r {
                Some(j) => j < self.pending@.len() && self.pending@[j as int].date_time == t,
                None => forall|j: int|
                    0 <= j < self.pending@.len() ==> (#[trigger] self.pending@[j]).date_time != t,
            },
    {
        let mut j: usize = 0;
        while j < self.pending.len()
            invariant
                j <= self.pending@.len(),
                forall|k: int| 0 <= k < j ==> (#[trigger] self.pending@[k]).date_time != t,
            decreases self.pending@.len() - j,
        {
            if self.pending[j].date_time == t {
                return Some(j);
            }
            j += 1;
        }
        None
    }

    /// Builds samples while the changeset of the next expected timestamp is pending.
    fn drain(&mut self) -> (r: Result<usize, PipelineError>)
        requires
            old(self).core_wf(),
            !old(self).halted,
        ensures
            final(self).wf(),
            final(self).expected@ == old(self).expected@,
            final(self).fmt == old(self).fmt,
            final(self).received == old(self).received,
            final(self).built().take(old(self).built().len() as int) == old(self).built(),
            match r {
                Ok(k) => !final(self).halted && final(self).built().len() == old(self).built().len()
                    + k,
                Err(e) => final(self).halted && (e is BadCohort || e is Inconsistent),
            },
    {
        let ghost e = self.expected_times();
        let ghost rc = self.received@;
        let ghost f = self.fmt@;
        let ghost n0 = self.samples@.len();
        let ghost b0 = self.built();
        let mut count: usize = 0;
        assert(self.built().take(n0 as int) =~= b0);
        assert(b0.len() == n0);
        loop
            invariant
                self.built().len() == self.samples@.len(),
                b0.len() == n0,
                b0 == old(self).built(),
                self.core_wf(),
                !self.halted,
                self.expected@ == old(self).expected@,
                self.fmt == old(self).fmt,
                self.received == old(self).received,
                e == self.expected_times(),
                rc == self.received@,
                f == self.fmt@,
                n0 <= self.samples@.len(),
                count == self.samples@.len() - n0,
                self.built().take(n0 as int) == b0,
            decreases e.len() - self.samples@.len(),
        {
            let n = self.samples.len();
            if n == self.expected.len() {
                return Ok(count);
            }
            let t = self.expected[n];
            let j = match self.find_pending(t) {
                Some(j) => j,
                None => {
                    proof {
                        if rc.contains_key(t as int) {
                            if exists|i: int| 0 <= i < n && e[i] == t {
                                let i = choose|i: int| 0 <= i < n && e[i] == t;
                                assert(e[i] < e[n as int]);
                            } else {
                                let j2 = choose|j2: int|
                                    0 <= j2 < self.pending@.len() && (#[trigger] self.pending@[
                                        j2
                                    ]).date_time == t;
                                assert(self.pending@[j2].date_time != t);
                            }
                        }
                    }
                    return Ok(count);
                },
            };
            let ghost ss = self.built();
            proof {
                assert(e[n as int] == t);
                assert(rc[t as int] == self.pending@[j as int]@);
            }
            let ghost pend0 = self.pending@;
            let cs = self.pending.remove(j);
            proof {
                assert forall|a: int, b: int|
                    0 <= a < self.pending@.len() && 0 <= b < self.pending@.len() && a != b implies (
                #[trigger] self.pending@[a]).date_time != (#[trigger] self.pending@[b]).date_time by {
                    let a2 = if a < j { a } else { a + 1 };
                    let b2 = if b < j { b } else { b + 1 };
                    assert(self.pending@[a] == pend0[a2]);
                    assert(self.pending@[b] == pend0[b2]);
                }
            }
            let label = match cohort_label(t, &self.fmt) {
                Some(l) => l,
                None => {
                    self.halted = true;
                    proof {
                        assert(run(e, rc, f, (n + 1) as nat) is None);
                        assert forall|a: int| 0 <= a < self.pending@.len() implies self.pending@[a]
                            == pend0[if a < j { a } else { a + 1 }] by {}
                    }
                    return Err(PipelineError::BadCohort { date_time: t });
                },
            };
            let res = if n == 0 {
                let empty = Sample::new(t);
                proof {
                    assert(empty@.files =~= files_before(ss));
                }
                empty.apply(&cs, &label)
            } else {
                proof {
                    assert(self.samples@[n - 1]@.files == files_before(ss));
                }
                self.samples[n - 1].apply(&cs, &label)
            };
            match res {
                Ok(smp) => {
                    self.samples.push(smp);
                    proof {
                        assert(self.built() =~= ss.push(smp@));
                        assert(self.built().take(n0 as int) =~= ss.take(n0 as int));
                        assert(run(e, rc, f, (n + 1) as nat) == Some(self.built()));
                        assert forall|a: int| 0 <= a < self.pending@.len() implies self.pending@[a]
                            == pend0[if a < j { a } else { a + 1 }] by {}
                        assert forall|t2: int| #[trigger] rc.contains_key(t2) implies (exists|i: int|
                            0 <= i < n + 1 && e[i] == t2) || (exists|j2: int|
                            0 <= j2 < self.pending@.len() && (#[trigger] self.pending@[j2]).date_time
                                == t2) by {
                            if exists|j3: int|
                                0 <= j3 < pend0.len() && (#[trigger] pend0[j3]).date_time == t2 {
                                let j3 = choose|j3: int|
                                    0 <= j3 < pend0.len() && (#[trigger] pend0[j3]).date_time == t2;
                                if j3 == j {
                                    assert(e[n as int] == t2);
                                } else if j3 < j {
                                    assert(self.pending@[j3] == pend0[j3]);
                                } else {
                                    assert(self.pending@[j3 - 1] == pend0[j3]);
                                }
                            } else {
                                let i = choose|i: int| 0 <= i < n && e[i] == t2;
                                assert(e[i] == t2);
                            }
                        }
                    }
                    count += 1;
                },
                Err(err) => {
                    self.halted = true;
                    proof {
                        assert(run(e, rc, f, (n + 1) as nat) is None);
                        assert forall|a: int| 0 <= a < self.pending@.len() implies self.pending@[a]
                            == pend0[if a < j { a } else { a + 1 }] by {}
                    }
                    return Err(PipelineError::Inconsistent(err));
                },
            }
        }
    }

    /// Receiving a changeset keeps the run up to `n + 1` when every expected
    /// timestamp up to `n` had already been received.
    proof fn lemma_feed_keeps(e: Seq<int>, r0: Received, cs: ChangesetView, f: Seq<char>, n: nat)
        requires
            ascending(e),
            n < e.len(),
            forall|i: int| 0 <= i <= n ==> r0.contains_key(#[trigger] e[i]),
        ensures
            agree_upto(e, r0, feed(e, r0, cs), n + 1),
            run(e, r0, f, n) == run(e, feed(e, r0, cs), f, n),
            run(e, r0, f, n + 1) == run(e, feed(e, r0, cs), f, n + 1),
    {
        lemma_run_agree(e, r0, feed(e, r0, cs), f, n + 1);
        assert(agree_upto(e, r0, feed(e, r0, cs), n));
        lemma_run_agree(e, r0, feed(e, r0, cs), f, n);
    }

    /// Receives one changeset and builds every sample that is now ready, in
    /// the order of the expected timestamps. Returns how many were built.
    pub fn deposit(&mut self, cs: Changeset) -> (r: Result<usize, PipelineError>)
        requires
            old(self).wf(),
        ensures
            final(self).wf(),
            final(self).expected_times() == old(self).expected_times(),
            final(self).format() == old(self).format(),
            final(self).received() == feed(old(self).expected_times(), old(self).received(), cs@),
            final(self).built() == outcome(
                final(self).expected_times(),
                final(self).received(),
                final(self).format(),
            ),
            final(self).stopped() == stalled(
                final(self).expected_times(),
                final(self).received(),
                final(self).format(),
            ),
            final(self).built().take(old(self).built().len() as int) == old(self).built(),
            old(self).stopped() ==> r == Err::<usize, PipelineError>(PipelineError::Halted),
            !old(self).stopped() && !old(self).expected_times().contains(cs.date_time as int) ==> r
                == Err::<usize, PipelineError>(
                PipelineError::UnexpectedTimestamp { date_time: cs.date_time },
            ),
            !old(self).stopped() && old(self).expected_times().contains(cs.date_time as int)
                && old(self).received().contains_key(cs.date_time as int) ==> r == Err::<
                usize,
                PipelineError,
            >(PipelineError::DuplicateTimestamp { date_time: cs.date_time }),
            !old(self).stopped() && old(self).expected_times().contains(cs.date_time as int)
                && !old(self).received().contains_key(cs.date_time as int) ==> match r {
                Ok(k) => !final(self).stopped() && final(self).built().len() == old(
                    self,
                ).built().len() + k,
                Err(e) => final(self).stopped() && (e is BadCohort || e is Inconsistent),
            },
    {
        let t = cs.date_time;
        let ghost e = self.expected_times();
        let ghost r0 = self.received@;
        let ghost f = self.fmt@;
        let ghost n = self.samples@.len();
        proof {
            assert(self.built().take(n as int) =~= self.built());
            assert(self.built().len() == n);
        }
        self.received = Ghost(feed(e, r0, cs@));
        if self.halted {
            proof {
                assert forall|i: int| 0 <= i <= n implies r0.contains_key(#[trigger] e[i]) by {
                    if i < n {
                        lemma_run_prefix(e, r0, f, n, i as nat);
                    }
                }
                Self::lemma_feed_keeps(e, r0, cs@, f, n);
                assert(!builds(e, self.received@, f, n));
                self.lemma_wf_outcome();
            }
            return Err(PipelineError::Halted);
        }
        match self.position(t) {
            None => {
                proof {
                    assert(self.received@ == r0);
                    self.lemma_wf_outcome();
                }
                Err(PipelineError::UnexpectedTimestamp { date_time: t })
            },
            Some(m) => {
                if m < self.samples.len() {
                    proof {
                        lemma_run_prefix(e, r0, f, n, m as nat);
                        assert(self.received@ == r0);
                        self.lemma_wf_outcome();
                    }
                    return Err(PipelineError::DuplicateTimestamp { date_time: t });
                }
                if let Some(j) = self.find_pending(t) {
                    proof {
                        assert(self.received@ == r0);
                        self.lemma_wf_outcome();
                    }
                    return Err(PipelineError::DuplicateTimestamp { date_time: t });
                }
                proof {
                    if r0.contains_key(t as int) {
                        if exists|i: int| 0 <= i < n && e[i] == t {
                            let i = choose|i: int| 0 <= i < n && e[i] == t;
                            assert(e[i] < e[m as int]);
                        } else {
                            let j2 = choose|j2: int|
                                0 <= j2 < self.pending@.len() && (#[trigger] self.pending@[
                                    j2
                                ]).date_time == t;
                            assert(self.pending@[j2].date_time != t);
                        }
                    }
                    assert(e.contains(t as int)) by {
                        assert(e[m as int] == t);
                    }
                    assert(self.received@ == r0.insert(t as int, cs@));
                    assert(agree_upto(e, r0, self.received@, n)) by {
                        assert forall|i: int| 0 <= i < n implies #[trigger] e[i] != t by {
                            assert(e[i] < e[m as int]);
                        }
                    }
                    lemma_run_agree(e, r0, self.received@, f, n);
                }
                let ghost pend0 = self.pending@;
                self.pending.push(cs);
                proof {
                    let rn = self.received@;
                    assert(e == self.expected_times());
                    assert(n == self.samples@.len());
                    assert forall|t2: int| #[trigger] self.received@.contains_key(t2) implies (exists|i: int|
                        0 <= i < n && e[i] == t2) || (exists|j2: int|
                        0 <= j2 < self.pending@.len() && (#[trigger] self.pending@[j2]).date_time
                            == t2) by {
                        if t2 == t {
                            assert(self.pending@[pend0.len() as int].date_time == t2);
                        } else if exists|j3: int|
                            0 <= j3 < pend0.len() && (#[trigger] pend0[j3]).date_time == t2 {
                            let j3 = choose|j3: int|
                                0 <= j3 < pend0.len() && (#[trigger] pend0[j3]).date_time == t2;
                            assert(self.pending@[j3] == pend0[j3]);
                        } else {
                            assert(old(self).pending_covers());
                            assert(old(self).received@.contains_key(t2));
                            assert(old(self).pending@ == pend0);
                            let i = choose|i: int| 0 <= i < n && e[i] == t2;
                            assert(e[i] == t2);
                        }
                    }
                    assert forall|j2: int| 0 <= j2 < self.pending@.len() implies {
                        let t3 = (#[trigger] self.pending@[j2]).date_time as int;
                        &&& rn.contains_key(t3)
                        &&& rn[t3] == self.pending@[j2]@
                        &&& forall|i: int| 0 <= i < n ==> e[i] != t3
                    } by {
                        if j2 < pend0.len() {
                            assert(self.pending@[j2] == pend0[j2]);
                        } else {
                            assert forall|i: int| 0 <= i < n implies e[i] != t by {
                                assert(e[i] < e[m as int]);
                            }
                        }
                    }
                    assert forall|a: int, b: int|
                        0 <= a < self.pending@.len() && 0 <= b < self.pending@.len() && a != b implies (
                    #[trigger] self.pending@[a]).date_time != (
                    #[trigger] self.pending@[b]).date_time by {
                        if a < pend0.len() {
                            assert(self.pending@[a] == pend0[a]);
                        }
                        if b < pend0.len() {
                            assert(self.pending@[b] == pend0[b]);
                        }
                    }
                    assert(self.pending_ok());
                    assert(self.pending_covers());
                }
                let r = self.drain();
                proof {
                    self.lemma_wf_outcome();
                }
                r
            },
        }
    }

    /// The samples built so far, in the order of the expected timestamps.
    pub fn samples(&self) -> (r: &Vec<Sample>)
        requires
            self.wf(),
        ensures
            samples_view(r@) == self.built(),
            forall|i: int| 0 <= i < r@.len() ==> (#[trigger] r@[i]).wf(),
    {
        &self.samples
    }

    /// The samples built, giving up the pipeline.
    pub fn into_samples(self) -> (r: Vec<Sample>)
        requires
            self.wf(),
        ensures
            samples_view(r@) == self.built(),
            forall|i: int| 0 <= i < r@.len() ==> (#[trigger] r@[i]).wf(),
    {
        self.samples
    }

    /// Whether the pipeline stopped on a changeset it could not apply.
    pub fn is_halted(&self) -> (r: bool)
        ensures
            r == self.stopped(),
    {
        self.halted
    }

    /// Whether a sample was built for every expected timestamp.
    pub fn is_complete(&self) -> (r: bool)
        requires
            self.wf(),
        ensures
            r == (self.built().len() == self.expected_times().len()),
    {
        self.samples.len() == self.expected.len()
    }

    /// The timestamp whose changeset the next sample needs, if any.
    pub fn next_expected(&self) -> (r: Option<i64>)
        requires
            self.wf(),
        ensures
            match r {
                Some(t) => self.built().len() < self.expected_times().len() && t
                    == self.expected_times()[self.built().len() as int],
                None => self.built().len() == self.expected_times().len(),
            },
    {
        if self.samples.len() < self.expected.len() {
            Some(self.expected[self.samples.len()])
        } else {
            None
        }
    }
}

/// The samples that the changesets build when applied in the order given,
/// each labelled by its own timestamp; `None` when a label cannot be
/// formatted or a changeset does not fit.
pub open spec fn fold_samples(css: Seq<ChangesetView>, fmt: Seq<char>) -> Option<Seq<SampleView>>
    decreases css.len(),
{
    if css.len() == 0 {
        Some(Seq::empty())
    } else {
        match fold_samples(css.drop_last(), fmt) {
            None => None,
            Some(ss) => {
                let cs = css.last();
                match strftime_text(cs.time, fmt) {
                    None => None,
                    Some(label) => match next_sample(files_before(ss), cs.time, cs.ops, label) {
                        None => None,
                        Some(s) => Some(ss.push(s)),
                    },
                }
            },
        }
    }
}

pub open spec fn changesets_view(v: Seq<Changeset>) -> Seq<ChangesetView> {
    v.map_values(|c: Changeset| c@)
}

impl Sample {
    /// Folds the changesets, in the order given, onto an empty history: one
    /// sample per changeset, each built on the one before.
    pub fn from_changesets(changes: Vec<Changeset>, cohort_fmt: &String) -> (r: Result<
        Vec<Sample>,
        PipelineError,
    >)
        ensures
            match r {
                Ok(v) => fold_samples(changesets_view(changes@), cohort_fmt@) == Some(
                    samples_view(v@),
                ) && forall|i: int| 0 <= i < v@.len() ==> (#[trigger] v@[i]).wf(),
                Err(e) => fold_samples(changesets_view(changes@), cohort_fmt@) is None && (
                e is BadCohort || e is Inconsistent),
            },
    {
        let ghost css = changesets_view(changes@);
        let mut out: Vec<Sample> = Vec::new();
        let mut i: usize = 0;
        while i < changes.len()
            invariant
                i <= changes@.len(),
                css == changesets_view(changes@),
                fold_samples(css.take(i as int), cohort_fmt@) == Some(samples_view(out@)),
                forall|j: int| 0 <= j < out@.len() ==> (#[trigger] out@[j]).wf(),
            decreases changes@.len() - i,
        {
            let cs = &changes[i];
            let t = cs.date_time;
            let ghost ss = samples_view(out@);
            proof {
                assert(css.take(i as int + 1).drop_last() =~= css.take(i as int));
                assert(css.take(i as int + 1).last() == cs@);
                assert(samples_view(out@).len() == out@.len());
            }
            let label = match cohort_label(t, cohort_fmt) {
                Some(l) => l,
                None => {
                    proof {
                        lemma_fold_stops(css, cohort_fmt@, (i + 1) as nat);
                    }
                    return Err(PipelineError::BadCohort { date_time: t });
                },
            };
            let res = if out.len() == 0 {
                let empty = Sample::new(t);
                proof {
                    assert(empty@.files =~= files_before(ss));
                }
                empty.apply(cs, &label)
            } else {
                proof {
                    assert(out@[out@.len() - 1]@.files == files_before(ss));
                }
                out[out.len() - 1].apply(cs, &label)
            };
            match res {
                Ok(s) => {
                    out.push(s);
                    proof {
                        assert(samples_view(out@) =~= ss.push(s@));
                    }
                },
                Err(e) => {
                    proof {
                        lemma_fold_stops(css, cohort_fmt@, (i + 1) as nat);
                    }
                    return Err(PipelineError::Inconsistent(e));
                },
            }
            i += 1;
        }
        proof {
            assert(css.take(i as int) =~= css);
        }
        Ok(out)
    }
}

/// A fold that fails on a prefix fails on the whole sequence.
pub proof fn lemma_fold_stops(css: Seq<ChangesetView>, fmt: Seq<char>, k: nat)
    requires
        k <= css.len(),
        fold_samples(css.take(k as int), fmt) is None,
    ensures
        fold_samples(css, fmt) is None,
    decreases css.len() - k,
{
    if k < css.len() {
        assert(css.take(k as int + 1).drop_last() =~= css.take(k as int));
        lemma_fold_stops(css, fmt, k + 1);
    } else {
        assert(css.take(k as int) =~= css);
    }
}

} // verus!
