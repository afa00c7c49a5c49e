//! How a group of files is cut into solid runs: the runs partition the group in order, each
//! is a single file or within the size cap, and each cut is forced.
use vstd::prelude::*;
use crate::archive::{split_fold, solid_runs};

verus! {

/// The total size of the files of `run`.
pub open spec fn run_size(run: Seq<usize>, sizes: Seq<int>) -> int
    decreases run.len(),
{
    if run.len() == 0 { 0 } else { run_size(run.drop_last(), sizes) + sizes[run.last() as int] }
}

/// The runs one after another.
pub open spec fn flatten_runs(runs: Seq<Seq<usize>>) -> Seq<usize>
    decreases runs.len(),
{
    if runs.len() == 0 { Seq::empty() } else { flatten_runs(runs.drop_last()) + runs.last() }
}

/// `runs` cuts `group` in order into non-empty runs, each a single file or within `cap`, and
/// every cut is forced: the run before it, with the next file added, would pass `cap`.
pub open spec fn partitions(runs: Seq<Seq<usize>>, group: Seq<usize>, sizes: Seq<int>, cap: int) -> bool {
    &&& flatten_runs(runs) == group
    &&& forall|i: int| 0 <= i < runs.len() ==> (#[trigger] runs[i]).len() > 0
        && (runs[i].len() == 1 || run_size(runs[i], sizes) <= cap)
    &&& forall|i: int| 0 <= i < runs.len() - 1 ==> run_size(#[trigger] runs[i], sizes) + sizes[runs[i + 1][0] as int] > cap
}

proof fn lemma_run_size_push(run: Seq<usize>, x: usize, sizes: Seq<int>)
    ensures
        run_size(run.push(x), sizes) == run_size(run, sizes) + sizes[x as int],
{
    assert(run.push(x).drop_last() =~= run);
}

proof fn lemma_flatten_push(runs: Seq<Seq<usize>>, r: Seq<usize>)
    ensures
        flatten_runs(runs.push(r)) == flatten_runs(runs) + r,
{
    assert(runs.push(r).drop_last() =~= runs);
}

#[verifier::rlimit(40)]
proof fn lemma_split_fold(group: Seq<usize>, sizes: Seq<int>, cap: int, k: int)
    requires
        0 <= k <= group.len(),
        forall|i: int| 0 <= i < group.len() ==> 0 <= (#[trigger] group[i]) < sizes.len(),
        forall|i: int| 0 <= i < sizes.len() ==> 0 <= #[trigger] sizes[i],
    ensures
        ({
            let (res, cur, cs) = split_fold(group, sizes, cap, k);
            &&& flatten_runs(res) + cur == group.take(k)
            &&& cs == run_size(cur, sizes)
            &&& (k > 0 ==> cur.len() > 0)
            &&& (cur.len() <= 1 || cs <= cap)
            &&& partitions(res, flatten_runs(res), sizes, cap)
            &&& (res.len() > 0 && cur.len() > 0 ==> run_size(res.last(), sizes) + sizes[cur[0] as int] > cap)
        }),
    decreases k,
{
    if k == 0 {
        assert(group.take(0) =~= Seq::<usize>::empty());
        assert(flatten_runs(Seq::<Seq<usize>>::empty()) + Seq::<usize>::empty() =~= Seq::<usize>::empty());
    } else {
        lemma_split_fold(group, sizes, cap, k - 1);
        let (res, cur, cs) = split_fold(group, sizes, cap, k - 1);
        let idx = group[k - 1];
        let f = sizes[idx as int];
        assert(group.take(k) =~= group.take(k - 1).push(idx));
        if cur.len() > 0 && cs + f > cap {
            let res2 = res.push(cur);
            lemma_flatten_push(res, cur);
            assert(run_size(seq![idx], sizes) == f) by {
                lemma_run_size_push(Seq::<usize>::empty(), idx, sizes);
                assert(Seq::<usize>::empty().push(idx) =~= seq![idx]);
            }
            assert(flatten_runs(res2) + seq![idx] =~= group.take(k));
            assert forall|i: int| 0 <= i < res2.len() implies (#[trigger] res2[i]).len() > 0
                && (res2[i].len() == 1 || run_size(res2[i], sizes) <= cap) by {
                if i < res.len() {
                    assert(res2[i] == res[i]);
                }
            }
            assert forall|i: int| 0 <= i < res2.len() - 1 implies run_size(#[trigger] res2[i], sizes) + sizes[res2[i + 1][0] as int] > cap by {
                assert(res2[i] == res[i]);
                if i < res.len() - 1 {
                    assert(res2[i + 1] == res[i + 1]);
                } else {
                    assert(res2[i + 1] == cur);
                }
            }
            assert(res2.last() == cur);
        } else {
            lemma_run_size_push(cur, idx, sizes);
            assert(flatten_runs(res) + cur.push(idx) =~= group.take(k));
            if cur.len() > 0 {
                assert(cur.push(idx)[0] == cur[0]);
            }
        }
    }
}

/// The solid runs of `group` partition it as `partitions` says.
pub proof fn lemma_solid_runs_partition(group: Seq<usize>, sizes: Seq<int>, cap: int)
    requires
        forall|i: int| 0 <= i < group.len() ==> 0 <= (#[trigger] group[i]) < sizes.len(),
        forall|i: int| 0 <= i < sizes.len() ==> 0 <= #[trigger] sizes[i],
    ensures
        partitions(solid_runs(group, sizes, cap), group, sizes, cap),
{
    let k = group.len() as int;
    lemma_split_fold(group, sizes, cap, k);
    let (res, cur, cs) = split_fold(group, sizes, cap, k);
    assert(group.take(k) =~= group);
    if cur.len() > 0 {
        let runs = res.push(cur);
        lemma_flatten_push(res, cur);
        assert forall|i: int| 0 <= i < runs.len() implies (#[trigger] runs[i]).len() > 0
            && (runs[i].len() == 1 || run_size(runs[i], sizes) <= cap) by {
            if i < res.len() {
                assert(runs[i] == res[i]);
            }
        }
        assert forall|i: int| 0 <= i < runs.len() - 1 implies run_size(#[trigger] runs[i], sizes) + sizes[runs[i + 1][0] as int] > cap by {
            assert(runs[i] == res[i]);
            if i < res.len() - 1 {
                assert(runs[i + 1] == res[i + 1]);
            } else {
                assert(runs[i + 1] == cur);
            }
        }
    } else {
        assert(flatten_runs(res) + cur =~= flatten_runs(res));
    }
}

} // verus!
