//! Reduction of samples to the per-cohort line counts that are reported.
use vstd::prelude::*;
use vstd::string::StrSliceExecFns;

use crate::pipeline::samples_view;
use crate::sample::{Sample, SampleView, count_files};

verus! {

/// Lexicographic order of labels by code point (which is also the byte
/// order of their UTF-8 encoding).
pub open spec fn label_lt(a: Seq<char>, b: Seq<char>) -> bool
    decreases a.len(),
{
    if a.len() == 0 {
        b.len() > 0
    } else if b.len() == 0 {
        false
    } else if a[0] != b[0] {
        (a[0] as int) < (b[0] as int)
    } else {
        label_lt(a.drop_first(), b.drop_first())
    }
}

pub proof fn lemma_label_lt_irreflexive(a: Seq<char>)
    ensures
        !label_lt(a, a),
    decreases a.len(),
{
    if a.len() > 0 {
        lemma_label_lt_irreflexive(a.drop_first());
    }
}

pub proof fn lemma_label_lt_total(a: Seq<char>, b: Seq<char>)
    ensures
        a != b ==> label_lt(a, b) || label_lt(b, a),
        !(label_lt(a, b) && label_lt(b, a)),
    decreases a.len(),
{
    if a.len() > 0 && b.len() > 0 {
        if a[0] == b[0] {
            lemma_label_lt_total(a.drop_first(), b.drop_first());
            if a != b {
                assert(a =~= seq![a[0]] + a.drop_first());
                assert(b =~= seq![b[0]] + b.drop_first());
            }
        } else {
            assert((a[0] as int) != (b[0] as int));
        }
    } else if a.len() == 0 && b.len() == 0 {
        assert(a =~= b);
    }
}

pub proof fn lemma_label_lt_trans(a: Seq<char>, b: Seq<char>, c: Seq<char>)
    requires
        label_lt(a, b),
        label_lt(b, c),
    ensures
        label_lt(a, c),
    decreases a.len(),
{
    if a.len() > 0 && b.len() > 0 && c.len() > 0 {
        if a[0] == b[0] && b[0] == c[0] {
            lemma_label_lt_trans(a.drop_first(), b.drop_first(), c.drop_first());
        }
    }
}

/// Whether `a` comes before `b`.
fn less(a: &String, b: &String) -> (r: bool)
    ensures
        r == label_lt(a@, b@),
{
    let sa = a.as_str();
    let sb = b.as_str();
    let na = sa.unicode_len();
    let nb = sb.unicode_len();
    let mut i: usize = 0;
    assert(a@.skip(0) =~= a@);
    assert(b@.skip(0) =~= b@);
    while i < na && i < nb
        invariant
            na == a@.len(),
            nb == b@.len(),
            sa@ == a@,
            sb@ == b@,
            i <= na,
            i <= nb,
            label_lt(a@, b@) == label_lt(a@.skip(i as int), b@.skip(i as int)),
        decreases na - i,
    {
        let ca = sa.get_char(i);
        let cb = sb.get_char(i);
        if ca != cb {
            return (ca as u32) < (cb as u32);
        }
        proof {
            assert(a@.skip(i as int).drop_first() =~= a@.skip(i as int + 1));
            assert(b@.skip(i as int).drop_first() =~= b@.skip(i as int + 1));
        }
        i += 1;
    }
    i < nb
}

pub open spec fn strictly_sorted(v: Seq<Seq<char>>) -> bool {
    forall|i: int, j: int| 0 <= i < j < v.len() ==> label_lt(#[trigger] v[i], #[trigger] v[j])
}

pub open spec fn strings_view(v: Seq<String>) -> Seq<Seq<char>> {
    v.map_values(|s: String| s@)
}

/// Whether `label` is the cohort of one of the samples.
pub open spec fn cohort_of_some(samples: Seq<Sample>, label: Seq<char>) -> bool {
    exists|k: int| 0 <= k < samples.len() && #[trigger] samples[k]@.cohort == label
}

/// The distinct cohort labels of the samples, in ascending order: the
/// columns of the report.
pub fn all_cohorts(samples: &Vec<Sample>) -> (r: Vec<String>)
    ensures
        strictly_sorted(strings_view(r@)),
        forall|k: int|
            0 <= k < samples@.len() ==> strings_view(r@).contains(#[trigger] samples@[k]@.cohort),
        forall|i: int| 0 <= i < r@.len() ==> cohort_of_some(samples@, #[trigger] r@[i]@),
{
    let mut r: Vec<String> = Vec::new();
    let mut k: usize = 0;
    while k < samples.len()
        invariant
            k <= samples@.len(),
            strictly_sorted(strings_view(r@)),
            forall|m: int|
                0 <= m < k ==> strings_view(r@).contains(#[trigger] samples@[m]@.cohort),
            forall|i: int| 0 <= i < r@.len() ==> cohort_of_some(samples@, #[trigger] r@[i]@),
        decreases samples@.len() - k,
    {
        let label = samples[k].cohort();
        let ghost before = r@;
        let mut p: usize = 0;
        while p < r.len() && less(&r[p], &label)
            invariant
                p <= r@.len(),
                r@ == before,
                forall|i: int| 0 <= i < p ==> label_lt(#[trigger] strings_view(r@)[i], label@),
            decreases r@.len() - p,
        {
            p += 1;
        }
        if p < r.len() && r[p] == label {
            proof {
                assert(strings_view(r@)[p as int] == label@);
            }
        } else {
            proof {
                if p < r@.len() {
                    lemma_label_lt_total(label@, r@[p as int]@);
                }
            }
            r.insert(p, label);
            proof {
                let sv = strings_view(r@);
                assert(sv =~= strings_view(before).insert(p as int, label@));
                assert forall|i: int, j: int| 0 <= i < j < sv.len() implies label_lt(
                    #[trigger] sv[i],
                    #[trigger] sv[j],
                ) by {
                    let bv = strings_view(before);
                    if j < p {
                        assert(label_lt(bv[i], bv[j]));
                    } else if j == p {
                        assert(label_lt(bv[i], label@));
                    } else if i == p {
                        assert(label_lt(label@, bv[p as int]));
                        if j - 1 > p {
                            assert(label_lt(bv[p as int], bv[j - 1]));
                            lemma_label_lt_trans(label@, bv[p as int], bv[j - 1]);
                        }
                    } else if i < p {
                        assert(label_lt(bv[i], bv[j - 1]));
                    } else {
                        assert(label_lt(bv[i - 1], bv[j - 1]));
                    }
                }
                assert forall|m: int| 0 <= m < k implies sv.contains(
                    #[trigger] samples@[m]@.cohort,
                ) by {
                    let bv = strings_view(before);
                    let x = choose|x: int| 0 <= x < bv.len() && bv[x] == samples@[m]@.cohort;
                    if x < p {
                        assert(sv[x] == bv[x]);
                    } else {
                        assert(sv[x + 1] == bv[x]);
                    }
                }
                assert forall|i: int| 0 <= i < r@.len() implies cohort_of_some(
                    samples@,
                    #[trigger] r@[i]@,
                ) by {
                    if i == p {
                        assert(samples@[k as int]@.cohort == r@[i]@);
                    } else if i < p {
                        assert(r@[i] == before[i]);
                    } else {
                        assert(r@[i] == before[i - 1]);
                    }
                }
            }
        }
        proof {
            assert(strings_view(r@).contains(samples@[k as int]@.cohort)) by {
                if p < before.len() && before[p as int]@ == label@ {
                    assert(strings_view(r@)[p as int] == label@);
                } else {
                    assert(strings_view(r@)[p as int] == label@);
                }
            }
        }
        k += 1;
    }
    r
}

/// Lines of each cohort of `cohorts` in `sample`: one row of the report.
pub fn cohort_counts(sample: &Sample, cohorts: &Vec<String>) -> (r: Vec<u128>)
    ensures
        r@.len() == cohorts@.len(),
        forall|i: int|
            0 <= i < r@.len() ==> #[trigger] r@[i] == count_files(sample@.files, cohorts@[i]@),
{
    let mut r: Vec<u128> = Vec::new();
    let mut i: usize = 0;
    while i < cohorts.len()
        invariant
            i <= cohorts@.len(),
            r@.len() == i,
            forall|j: int|
                0 <= j < i ==> #[trigger] r@[j] == count_files(sample@.files, cohorts@[j]@),
        decreases cohorts@.len() - i,
    {
        r.push(sample.count_cohort_lines(&cohorts[i]));
        i += 1;
    }
    r
}

} // verus!
