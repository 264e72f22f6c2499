//! One analysis run over a repository's history.
use vstd::prelude::*;

use crate::label::{cohort_label, opt_text, strftime_text};
use crate::options::{Options, skips, source_of};
use crate::pipeline::{Pipeline, PipelineError, ascending, times_view};
use crate::select::{TreePair, kept, times_of, tree_pairs};

verus! {

/// A run over one repository, with its settings.
pub struct Axe {
    pub options: Options,
}

impl Axe {
    pub fn new(options: Options) -> (r: Axe)
        ensures
            r.options == options,
    {
        Axe { options }
    }

    /// The cohort label of the commit time `dt`.
    pub fn cohort_name(&self, dt: i64) -> (r: Option<String>)
        ensures
            opt_text(r) == strftime_text(dt as int, self.options.cohort_fmt@),
    {
        cohort_label(dt, &self.options.cohort_fmt)
    }

    /// Whether hunks of the file `filename` are left out of the analysis.
    pub fn skip_file(&self, filename: &String) -> (r: bool)
        ensures
            r == skips(source_of(self.options.ignore), source_of(self.options.only), filename@),
    {
        self.options.should_skip(filename)
    }

    /// The snapshot transitions to analyse, for commit times given oldest first.
    pub fn transitions(&self, times: &Vec<i64>) -> (r: Vec<TreePair>)
        ensures
            times@.len() == 0 ==> r@.len() == 0,
            times@.len() > 0 ==> {
                let ks = kept(times_of(times@), self.options.interval as int, times@.len() as nat);
                &&& r@.len() == ks.len()
                &&& forall|k: int|
                    0 <= k < r@.len() ==> {
                        &&& (#[trigger] r@[k]).right as int == ks[k]
                        &&& r@[k].date_time == times@[ks[k]]
                        &&& r@[k].left == if k == 0 {
                            None
                        } else {
                            Some(ks[k - 1] as usize)
                        }
                    }
            },
            self.options.interval > 0 ==> forall|a: int, b: int|
                0 <= a < b < r@.len() ==> #[trigger] r@[a].date_time < #[trigger] r@[b].date_time,
    {
        tree_pairs(times, self.options.interval)
    }

    /// A pipeline expecting one changeset per transition, in their order.
    pub fn pipeline(&self, pairs: &Vec<TreePair>) -> (r: Result<Pipeline, PipelineError>)
        ensures
            match r {
                Ok(p) => {
                    &&& p.wf()
                    &&& p.expected_times() == pairs@.map_values(|tp: TreePair| tp.date_time as int)
                    &&& p.format() == self.options.cohort_fmt@
                    &&& p.received() == Map::<int, crate::change::ChangesetView>::empty()
                    &&& p.built().len() == 0
                    &&& !p.stopped()
                },
                Err(e) => e == PipelineError::NotAscending && !ascending(
                    pairs@.map_values(|tp: TreePair| tp.date_time as int),
                ),
            },
    {
        let mut times: Vec<i64> = Vec::new();
        let mut i: usize = 0;
        while i < pairs.len()
            invariant
                i <= pairs@.len(),
                times@.len() == i,
                forall|j: int| 0 <= j < i ==> times@[j] == (#[trigger] pairs@[j]).date_time,
            decreases pairs@.len() - i,
        {
            times.push(pairs[i].date_time);
            i += 1;
        }
        proof {
            assert(times_view(times@) =~= pairs@.map_values(|tp: TreePair| tp.date_time as int));
        }
        Pipeline::new(times, self.options.cohort_fmt.clone())
    }
}

} // verus!
