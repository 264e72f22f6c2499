//! Properties of the accumulation model that hold for all inputs.
use vstd::prelude::*;

use crate::change::{ChangesetView, FileStatus, Hunk, Op, translation};
use crate::pipeline::{
    Received,
    ascending,
    builds,
    feed_all,
    files_before,
    fold_samples,
    lemma_outcome,
    lemma_run_len,
    outcome,
    run,
    settle,
    stalled,
};
use crate::sample::{
    Files,
    apply_ops,
    count_in,
    has_file,
    lemma_apply_op_other,
    lemma_apply_op_unique,
    lemma_set_lines_unique,
    lines_of,
    names_unique,
    op_clamps,
    spliced_in,
    spliced_out,
    touches,
};

verus! {

/// Whether every operation is an `Add` or a `Delete` on file `f`.
pub open spec fn line_ops_on(ops: Seq<Op>, f: Seq<char>) -> bool {
    forall|i: int|
        0 <= i < ops.len() ==> match #[trigger] ops[i] {
            Op::Add { file, .. } => file == f,
            Op::Delete { file, .. } => file == f,
            _ => false,
        }
}

/// Total length of the `Add` operations.
pub open spec fn added_lines(ops: Seq<Op>) -> int
    decreases ops.len(),
{
    if ops.len() == 0 {
        0
    } else {
        added_lines(ops.drop_last()) + match ops.last() {
            Op::Add { length, .. } => length as int,
            _ => 0,
        }
    }
}

/// Total length of the `Delete` operations.
pub open spec fn deleted_lines(ops: Seq<Op>) -> int
    decreases ops.len(),
{
    if ops.len() == 0 {
        0
    } else {
        deleted_lines(ops.drop_last()) + match ops.last() {
            Op::Delete { length, .. } => length as int,
            _ => 0,
        }
    }
}

/// Whether no deletion runs past the end of its file when the operations are applied in order.
pub open spec fn never_clamps(files: Files, ops: Seq<Op>, label: Seq<char>) -> bool {
    forall|k: int|
        0 <= k < ops.len() ==> match #[trigger] apply_ops(files, ops.take(k), label) {
            Some(fs) => !op_clamps(fs, ops[k]),
            None => true,
        }
}

/// Applying operations keeps file names unique.
pub proof fn lemma_apply_ops_unique(files: Files, ops: Seq<Op>, label: Seq<char>)
    requires
        names_unique(files),
        apply_ops(files, ops, label) is Some,
    ensures
        names_unique(apply_ops(files, ops, label).unwrap()),
    decreases ops.len(),
{
    if ops.len() > 0 {
        lemma_apply_ops_unique(files, ops.drop_last(), label);
        lemma_apply_op_unique(apply_ops(files, ops.drop_last(), label).unwrap(), ops.last(), label);
    }
}

/// Conservation: `Add` and `Delete` operations on one existing file change
/// its line count by the lines they add minus the lines they delete, as long
/// as no deletion runs past the end of the file.
pub proof fn lemma_conservation(files: Files, ops: Seq<Op>, label: Seq<char>, f: Seq<char>)
    requires
        names_unique(files),
        has_file(files, f),
        line_ops_on(ops, f),
        apply_ops(files, ops, label) is Some,
        never_clamps(files, ops, label),
    ensures
        lines_of(apply_ops(files, ops, label).unwrap(), f).len() == lines_of(files, f).len()
            + added_lines(ops) - deleted_lines(ops),
    decreases ops.len(),
{
    if ops.len() > 0 {
        let p = ops.drop_last();
        let n = (ops.len() - 1) as int;
        assert(line_ops_on(p, f)) by {
            assert forall|i: int| 0 <= i < p.len() implies match #[trigger] p[i] {
                Op::Add { file, .. } => file == f,
                Op::Delete { file, .. } => file == f,
                _ => false,
            } by {
                assert(p[i] == ops[i]);
            }
        }
        assert(never_clamps(files, p, label)) by {
            assert forall|k: int| 0 <= k < p.len() implies match #[trigger] apply_ops(
                files,
                p.take(k),
                label,
            ) {
                Some(fs) => !op_clamps(fs, p[k]),
                None => true,
            } by {
                assert(p.take(k) =~= ops.take(k));
                assert(p[k] == ops[k]);
            }
        }
        lemma_conservation(files, p, label, f);
        lemma_apply_ops_unique(files, p, label);
        let fs = apply_ops(files, p, label).unwrap();
        assert(ops.take(n) =~= p);
        assert(apply_ops(files, ops.take(n), label) == Some(fs));
        let last = ops[n];
        assert(match last {
            Op::Add { file, .. } => file == f,
            Op::Delete { file, .. } => file == f,
            _ => false,
        });
        match last {
            Op::Add { file, start, length } => {
                lemma_set_lines_unique(fs, f, spliced_in(lines_of(fs, f), start, length, label));
            },
            Op::Delete { file, start, length } => {
                assert(!op_clamps(fs, ops[n]));
                lemma_set_lines_unique(fs, f, spliced_out(lines_of(fs, f), start, length));
            },
            _ => {},
        }
    }
}

/// A file that no operation names keeps its presence and its lines.
pub proof fn lemma_untouched_file(files: Files, ops: Seq<Op>, label: Seq<char>, g: Seq<char>)
    requires
        names_unique(files),
        apply_ops(files, ops, label) is Some,
        !touches(ops, g),
    ensures
        has_file(apply_ops(files, ops, label).unwrap(), g) == has_file(files, g),
        lines_of(apply_ops(files, ops, label).unwrap(), g) == lines_of(files, g),
    decreases ops.len(),
{
    if ops.len() > 0 {
        let p = ops.drop_last();
        assert(!touches(p, g)) by {
            if touches(p, g) {
                let i = choose|i: int| 0 <= i < p.len() && #[trigger] p[i].file() == g;
                assert(ops[i].file() == g);
            }
        }
        lemma_untouched_file(files, p, label, g);
        lemma_apply_ops_unique(files, p, label);
        assert(ops[ops.len() - 1].file() != g);
        lemma_apply_op_other(apply_ops(files, p, label).unwrap(), ops.last(), label, g);
    }
}

/// Whether no two changesets share a timestamp.
pub open spec fn distinct_times(css: Seq<ChangesetView>) -> bool {
    forall|i: int, j: int|
        0 <= i < css.len() && 0 <= j < css.len() && i != j ==> #[trigger] css[i].time
            != #[trigger] css[j].time
}

/// The changesets of `css` whose timestamps are expected, by timestamp.
pub open spec fn received_of(expected: Seq<int>, css: Seq<ChangesetView>) -> Received {
    Map::new(
        |t: int| expected.contains(t) && exists|i: int| 0 <= i < css.len() && #[trigger] css[i].time == t,
        |t: int| css[choose|i: int| 0 <= i < css.len() && #[trigger] css[i].time == t],
    )
}

pub proof fn lemma_feed_all(expected: Seq<int>, css: Seq<ChangesetView>)
    requires
        distinct_times(css),
    ensures
        feed_all(expected, Map::empty(), css) == received_of(expected, css),
    decreases css.len(),
{
    if css.len() > 0 {
        let p = css.drop_last();
        let n = css.len() - 1;
        assert(distinct_times(p)) by {
            assert forall|i: int, j: int|
                0 <= i < p.len() && 0 <= j < p.len() && i != j implies #[trigger] p[i].time
                != #[trigger] p[j].time by {
                assert(p[i] == css[i] && p[j] == css[j]);
            }
        }
        lemma_feed_all(expected, p);
        let rp = received_of(expected, p);
        let last = css[n];
        assert(!rp.contains_key(last.time)) by {
            if rp.contains_key(last.time) {
                let i = choose|i: int| 0 <= i < p.len() && #[trigger] p[i].time == last.time;
                assert(css[i].time == last.time);
            }
        }
        let rc = received_of(expected, css);
        let fed = feed_all(expected, Map::empty(), css);
        assert forall|t: int| #[trigger] fed.contains_key(t) == rc.contains_key(t) by {
            if exists|i: int| 0 <= i < css.len() && #[trigger] css[i].time == t {
                let i = choose|i: int| 0 <= i < css.len() && #[trigger] css[i].time == t;
                if i < n {
                    assert(p[i].time == t);
                }
            }
            if exists|i: int| 0 <= i < p.len() && #[trigger] p[i].time == t {
                let i = choose|i: int| 0 <= i < p.len() && #[trigger] p[i].time == t;
                assert(css[i].time == t);
            }
        }
        assert forall|t: int| #[trigger] fed.contains_key(t) implies fed[t] == rc[t] by {
            let i = choose|i: int| 0 <= i < css.len() && #[trigger] css[i].time == t;
            if t == last.time {
                assert(i == n);
            } else {
                assert(i != n);
                assert(p[i].time == t);
                let k = choose|k: int| 0 <= k < p.len() && #[trigger] p[k].time == t;
                assert(css[k].time == t);
                assert(k == i);
            }
        }
        assert(fed =~= rc);
    }
}

/// Order independence: feeding the same changesets, no two with one
/// timestamp, in any two orders records the same changesets, and so builds
/// the same samples and stops in the same way.
pub proof fn lemma_arrival_order(
    expected: Seq<int>,
    fmt: Seq<char>,
    a: Seq<ChangesetView>,
    b: Seq<ChangesetView>,
)
    requires
        distinct_times(a),
        distinct_times(b),
        a.to_set() == b.to_set(),
    ensures
        feed_all(expected, Map::empty(), a) == feed_all(expected, Map::empty(), b),
        outcome(expected, feed_all(expected, Map::empty(), a), fmt) == outcome(
            expected,
            feed_all(expected, Map::empty(), b),
            fmt,
        ),
        stalled(expected, feed_all(expected, Map::empty(), a), fmt) == stalled(
            expected,
            feed_all(expected, Map::empty(), b),
            fmt,
        ),
{
    lemma_feed_all(expected, a);
    lemma_feed_all(expected, b);
    let ra = received_of(expected, a);
    let rb = received_of(expected, b);
    assert forall|t: int| #[trigger] ra.contains_key(t) == rb.contains_key(t) by {
        if exists|i: int| 0 <= i < a.len() && #[trigger] a[i].time == t {
            let i = choose|i: int| 0 <= i < a.len() && #[trigger] a[i].time == t;
            assert(a.to_set().contains(a[i]));
            assert(b.contains(a[i]));
            let j = choose|j: int| 0 <= j < b.len() && b[j] == a[i];
            assert(b[j].time == t);
        }
        if exists|j: int| 0 <= j < b.len() && #[trigger] b[j].time == t {
            let j = choose|j: int| 0 <= j < b.len() && #[trigger] b[j].time == t;
            assert(b.to_set().contains(b[j]));
            assert(a.contains(b[j]));
            let i = choose|i: int| 0 <= i < a.len() && a[i] == b[j];
            assert(a[i].time == t);
        }
    }
    assert forall|t: int| #[trigger] ra.contains_key(t) implies ra[t] == rb[t] by {
        let i = choose|i: int| 0 <= i < a.len() && #[trigger] a[i].time == t;
        assert(a.to_set().contains(a[i]));
        assert(b.contains(a[i]));
        let j = choose|j: int| 0 <= j < b.len() && b[j] == a[i];
        assert(b[j].time == t);
        let k = choose|k: int| 0 <= k < b.len() && #[trigger] b[k].time == t;
        assert(k == j);
    }
    assert(ra =~= rb);
}

/// Every sample of a run has unique file names.
pub proof fn lemma_run_unique(expected: Seq<int>, r: Received, fmt: Seq<char>, k: nat)
    requires
        k <= expected.len(),
        run(expected, r, fmt, k) is Some,
    ensures
        forall|i: int|
            0 <= i < k ==> names_unique(#[trigger] run(expected, r, fmt, k).unwrap()[i].files),
        names_unique(files_before(run(expected, r, fmt, k).unwrap())),
    decreases k,
{
    if k > 0 {
        lemma_run_unique(expected, r, fmt, (k - 1) as nat);
        lemma_run_len(expected, r, fmt, (k - 1) as nat);
        lemma_run_len(expected, r, fmt, k);
        let ss = run(expected, r, fmt, (k - 1) as nat).unwrap();
        let t = expected[k - 1];
        let label = crate::label::strftime_text(t, fmt).unwrap();
        lemma_apply_ops_unique(files_before(ss), r[t].ops, label);
        let ss2 = run(expected, r, fmt, k).unwrap();
        assert forall|i: int| 0 <= i < k implies names_unique(#[trigger] ss2[i].files) by {
            if i < k - 1 {
                assert(ss2[i] == ss[i]);
            }
        }
    } else {
        assert(files_before(Seq::<crate::sample::SampleView>::empty()) =~= Seq::empty());
    }
}

/// File `g` is present in `a` exactly when in `b`, with the same lines and
/// so the same number of lines of every cohort.
pub open spec fn same_file(a: Files, b: Files, g: Seq<char>) -> bool {
    &&& has_file(a, g) == has_file(b, g)
    &&& lines_of(a, g) == lines_of(b, g)
    &&& forall|label: Seq<char>|
        #[trigger] count_in(lines_of(a, g), label) == count_in(lines_of(b, g), label)
}

/// Steady files: a file that no changeset after sample `j` touches has, in
/// every later sample, the presence and lines it had in sample `j`, hence
/// the same number of lines of every cohort.
pub proof fn lemma_untouched_steady(
    expected: Seq<int>,
    r: Received,
    fmt: Seq<char>,
    k: nat,
    j: nat,
    g: Seq<char>,
)
    requires
        k <= expected.len(),
        run(expected, r, fmt, k) is Some,
        j < k,
        forall|i: int| j < i < k ==> !touches(r[#[trigger] expected[i]].ops, g),
    ensures
        forall|i: int|
            j <= i < k ==> same_file(
                #[trigger] run(expected, r, fmt, k).unwrap()[i].files,
                run(expected, r, fmt, k).unwrap()[j as int].files,
                g,
            ),
    decreases k,
{
    let ss = run(expected, r, fmt, k).unwrap();
    if j + 1 < k {
        lemma_untouched_steady(expected, r, fmt, (k - 1) as nat, j, g);
        let sp = run(expected, r, fmt, (k - 1) as nat).unwrap();
        lemma_run_unique(expected, r, fmt, (k - 1) as nat);
        let t = expected[k - 1];
        let label = crate::label::strftime_text(t, fmt).unwrap();
        assert(!touches(r[expected[k - 1]].ops, g));
        lemma_run_len(expected, r, fmt, (k - 1) as nat);
        lemma_run_len(expected, r, fmt, k);
        lemma_untouched_file(files_before(sp), r[t].ops, label, g);
        assert(ss == sp.push(ss[k - 1]));
        assert(files_before(sp) == sp[k - 2].files);
        assert(same_file(ss[k - 1].files, sp[k - 2].files, g));
        assert forall|i: int| j <= i < k implies same_file(
            #[trigger] ss[i].files,
            ss[j as int].files,
            g,
        ) by {
            if i < k - 1 {
                assert(ss[i] == sp[i]);
                assert(same_file(sp[i].files, sp[j as int].files, g));
            } else {
                assert(same_file(sp[k - 2].files, sp[j as int].files, g));
            }
        }
    }
}

/// Translation is a pure function: equal inputs give equal operations, so
/// two calls of `translate` on the same inputs return the same changes.
pub proof fn lemma_translate_deterministic(
    s1: FileStatus,
    p1: Seq<char>,
    h1: Hunk,
    s2: FileStatus,
    p2: Seq<char>,
    h2: Hunk,
)
    requires
        s1 == s2,
        p1 == p2,
        h1 == h2,
    ensures
        translation(s1, p1, h1) == translation(s2, p2, h2),
{
}

pub open spec fn times_of_changesets(css: Seq<ChangesetView>) -> Seq<int> {
    css.map_values(|c: ChangesetView| c.time)
}

proof fn lemma_run_is_fold(css: Seq<ChangesetView>, fmt: Seq<char>, k: nat)
    requires
        ascending(times_of_changesets(css)),
        k <= css.len(),
    ensures
        run(
            times_of_changesets(css),
            received_of(times_of_changesets(css), css),
            fmt,
            k,
        ) == fold_samples(css.take(k as int), fmt),
    decreases k,
{
    let e = times_of_changesets(css);
    let r = received_of(e, css);
    if k > 0 {
        lemma_run_is_fold(css, fmt, (k - 1) as nat);
        let t = e[k - 1];
        assert(css[k - 1].time == t);
        assert(e.contains(t));
        assert(r.contains_key(t));
        let i = choose|i: int| 0 <= i < css.len() && #[trigger] css[i].time == t;
        assert(e[i] == t);
        if i != k - 1 {
            if i < k - 1 {
                assert(e[i] < e[k - 1]);
            } else {
                assert(e[k - 1] < e[i]);
            }
        }
        assert(r[t] == css[k - 1]);
        assert(css.take(k as int).drop_last() =~= css.take(k - 1));
        assert(css.take(k as int).last() == css[k - 1]);
    } else {
        assert(css.take(0) =~= Seq::<ChangesetView>::empty());
    }
}

/// Arrival order against sequential folding: changesets with ascending
/// timestamps, fed in any order to a pipeline that expects exactly those
/// timestamps, build the samples that folding them in timestamp order
/// builds; the pipeline stalls exactly when that fold fails.
pub proof fn lemma_pipeline_matches_fold(
    css: Seq<ChangesetView>,
    fmt: Seq<char>,
    arrivals: Seq<ChangesetView>,
)
    requires
        ascending(times_of_changesets(css)),
        distinct_times(arrivals),
        arrivals.to_set() == css.to_set(),
    ensures
        fold_samples(css, fmt) is Some ==> outcome(
            times_of_changesets(css),
            feed_all(times_of_changesets(css), Map::empty(), arrivals),
            fmt,
        ) == fold_samples(css, fmt).unwrap() && !stalled(
            times_of_changesets(css),
            feed_all(times_of_changesets(css), Map::empty(), arrivals),
            fmt,
        ),
        fold_samples(css, fmt) is None ==> stalled(
            times_of_changesets(css),
            feed_all(times_of_changesets(css), Map::empty(), arrivals),
            fmt,
        ),
{
    let e = times_of_changesets(css);
    assert(distinct_times(css)) by {
        assert forall|i: int, j: int|
            0 <= i < css.len() && 0 <= j < css.len() && i != j implies #[trigger] css[i].time
            != #[trigger] css[j].time by {
            assert(e[i] == css[i].time && e[j] == css[j].time);
            if i < j {
                assert(e[i] < e[j]);
            } else {
                assert(e[j] < e[i]);
            }
        }
    }
    lemma_arrival_order(e, fmt, arrivals, css);
    lemma_feed_all(e, css);
    let r = received_of(e, css);
    let n = css.len();
    lemma_run_is_fold(css, fmt, n);
    assert(css.take(n as int) =~= css);
    if fold_samples(css, fmt) is Some {
        lemma_outcome(e, r, fmt, n);
    } else {
        let m = settle(e, r, fmt, 0);
        lemma_settle_bound(e, r, fmt, 0);
        if m == n {
            assert(run(e, r, fmt, m) is Some) by {
                lemma_settle_runs(e, r, fmt, 0);
            }
        }
        assert(m < n);
        assert(css[m as int].time == e[m as int]);
        assert(r.contains_key(e[m as int]));
    }
}

proof fn lemma_settle_bound(e: Seq<int>, r: Received, fmt: Seq<char>, k: nat)
    requires
        k <= e.len(),
    ensures
        k <= settle(e, r, fmt, k) <= e.len(),
    decreases e.len() - k,
{
    if k < e.len() && builds(e, r, fmt, k) {
        lemma_settle_bound(e, r, fmt, k + 1);
    }
}

/// The run reaches the point where settling stops.
proof fn lemma_settle_runs(e: Seq<int>, r: Received, fmt: Seq<char>, k: nat)
    requires
        k <= e.len(),
        run(e, r, fmt, k) is Some,
    ensures
        run(e, r, fmt, settle(e, r, fmt, k)) is Some,
    decreases e.len() - k,
{
    if k < e.len() && builds(e, r, fmt, k) {
        lemma_settle_runs(e, r, fmt, k + 1);
    }
}

} // verus!
