//! Which commits of a history are sampled, and the snapshot transitions between them.
use vstd::prelude::*;

verus! {

/// Positions, in a history ordered oldest first, of the commits kept when
/// kept commits must be at least `interval` seconds apart. The first commit
/// is kept; then the first `n` commits, the first one included, are walked
/// in order and each one at least `interval` after the last kept commit is
/// kept too (so with an interval of zero or less the first commit is kept twice).
pub open spec fn kept(times: Seq<int>, interval: int, n: nat) -> Seq<int>
    decreases n,
{
    if n == 0 {
        seq![0]
    } else {
        let acc = kept(times, interval, (n - 1) as nat);
        if times[n - 1] < times[acc.last()] + interval {
            acc
        } else {
            acc.push(n - 1)
        }
    }
}

pub proof fn lemma_kept_bounds(times: Seq<int>, interval: int, n: nat)
    requires
        0 < times.len(),
        n <= times.len(),
    ensures
        kept(times, interval, n).len() >= 1,
        kept(times, interval, n).len() <= n + 1,
        forall|k: int|
            0 <= k < kept(times, interval, n).len() ==> 0 <= #[trigger] kept(
                times,
                interval,
                n,
            )[k] < times.len(),
    decreases n,
{
    if n > 0 {
        lemma_kept_bounds(times, interval, (n - 1) as nat);
    }
}

/// With a positive interval the kept commits' times strictly ascend.
pub proof fn lemma_kept_ascending(times: Seq<int>, interval: int, n: nat)
    requires
        0 < times.len(),
        n <= times.len(),
        interval > 0,
    ensures
        forall|a: int, b: int|
            0 <= a < b < kept(times, interval, n).len() ==> times[kept(times, interval, n)[a]]
                < times[kept(times, interval, n)[b]],
    decreases n,
{
    lemma_kept_bounds(times, interval, n);
    if n > 0 {
        lemma_kept_ascending(times, interval, (n - 1) as nat);
        lemma_kept_bounds(times, interval, (n - 1) as nat);
        let acc = kept(times, interval, (n - 1) as nat);
        let ks = kept(times, interval, n);
        assert forall|a: int, b: int| 0 <= a < b < ks.len() implies times[ks[a]] < times[ks[b]] by {
            if b == acc.len() {
                assert(ks[b] == n - 1);
                if a < acc.len() - 1 {
                    assert(times[acc[a]] < times[acc[acc.len() - 1]]);
                }
            } else {
                assert(ks[a] == acc[a] && ks[b] == acc[b]);
            }
        }
    }
}

pub open spec fn times_of(v: Seq<i64>) -> Seq<int> {
    v.map_values(|t: i64| t as int)
}

/// Positions of the sampled commits among `times` (commit times, oldest
/// first); none for an empty history.
pub fn select_commits(times: &Vec<i64>, interval: i64) -> (r: Vec<usize>)
    ensures
        times@.len() == 0 ==> r@.len() == 0,
        times@.len() > 0 ==> r@.map_values(|i: usize| i as int) == kept(
            times_of(times@),
            interval as int,
            times@.len() as nat,
        ),
{
    let mut r: Vec<usize> = Vec::new();
    if times.len() == 0 {
        return r;
    }
    let ghost ts = times_of(times@);
    r.push(0);
    let mut last: usize = 0;
    let mut i: usize = 0;
    proof {
        assert(r@.map_values(|i: usize| i as int) =~= kept(ts, interval as int, 0));
    }
    while i < times.len()
        invariant
            0 < times@.len(),
            ts == times_of(times@),
            i <= times@.len(),
            r@.map_values(|i: usize| i as int) == kept(ts, interval as int, i as nat),
            last < times@.len(),
            last as int == kept(ts, interval as int, i as nat).last(),
        decreases times@.len() - i,
    {
        proof {
            lemma_kept_bounds(ts, interval as int, i as nat);
        }
        if (times[i] as i128) >= (times[last] as i128) + (interval as i128) {
            r.push(i);
            last = i;
            proof {
                assert(r@.map_values(|i: usize| i as int) =~= kept(
                    ts,
                    interval as int,
                    (i + 1) as nat,
                ));
            }
        }
        i += 1;
    }
    r
}

/// One snapshot transition: the tree before (none for the first), the tree
/// after, and the commit time of the later one.
#[derive(Clone, Copy, Debug, PartialEq, Eq, Structural)]
pub struct TreePair {
    pub left: Option<usize>,
    pub right: usize,
    pub date_time: i64,
}

/// The transitions between consecutive sampled commits, starting from the
/// empty tree before the first one; `right` and `left` are positions in `times`.
pub fn tree_pairs(times: &Vec<i64>, interval: i64) -> (r: Vec<TreePair>)
    ensures
        times@.len() == 0 ==> r@.len() == 0,
        times@.len() > 0 ==> {
            let ks = kept(times_of(times@), interval as int, times@.len() as nat);
            &&& r@.len() == ks.len()
            &&& forall|k: int|
                0 <= k < r@.len() ==> {
                    &&& (#[trigger] r@[k]).right as int == ks[k]
                    &&& r@[k].date_time == times@[ks[k]]
                    &&& r@[k].left == if k == 0 {
                        None
                    } else {
                        Some(ks[k - 1] as usize)
                    }
                }
        },
        interval > 0 ==> forall|a: int, b: int|
            0 <= a < b < r@.len() ==> #[trigger] r@[a].date_time < #[trigger] r@[b].date_time,
{
    let picks = select_commits(times, interval);
    let mut r: Vec<TreePair> = Vec::new();
    if picks.len() == 0 {
        return r;
    }
    let ghost ks = kept(times_of(times@), interval as int, times@.len() as nat);
    proof {
        lemma_kept_bounds(times_of(times@), interval as int, times@.len() as nat);
        assert forall|k: int| 0 <= k < picks@.len() implies picks@[k] as int == ks[k] by {
            assert(picks@.map_values(|i: usize| i as int)[k] == ks[k]);
        }
    }
    let mut k: usize = 0;
    while k < picks.len()
        invariant
            times@.len() > 0,
            picks@.len() == ks.len(),
            forall|j: int| 0 <= j < picks@.len() ==> picks@[j] as int == ks[j],
            forall|j: int| 0 <= j < ks.len() ==> 0 <= #[trigger] ks[j] < times@.len(),
            k <= picks@.len(),
            r@.len() == k,
            forall|j: int|
                0 <= j < k ==> {
                    &&& (#[trigger] r@[j]).right as int == ks[j]
                    &&& r@[j].date_time == times@[ks[j]]
                    &&& r@[j].left == if j == 0 {
                        None
                    } else {
                        Some(ks[j - 1] as usize)
                    }
                },
        decreases picks@.len() - k,
    {
        let right = picks[k];
        assert(0 <= ks[k as int] < times@.len());
        let left = if k == 0 {
            None
        } else {
            Some(picks[k - 1])
        };
        r.push(TreePair { left, right, date_time: times[right] });
        k += 1;
    }
    proof {
        if interval > 0 {
            lemma_kept_ascending(times_of(times@), interval as int, times@.len() as nat);
            assert forall|a: int, b: int| 0 <= a < b < r@.len() implies #[trigger] r@[a].date_time
                < #[trigger] r@[b].date_time by {
                assert(times_of(times@)[ks[a]] == times@[ks[a]]);
                assert(times_of(times@)[ks[b]] == times@[ks[b]]);
            }
        }
    }
    r
}

} // verus!
