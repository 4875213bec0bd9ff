//! Ranking the anagram classes by candidate-class size, reporting the
//! largest ten, and naming the winning class.

use vstd::prelude::*;

use crate::anagram::CandidateIndex;
use crate::state::{matches_spec, GuessState};

verus! {

/// The number of candidates in class `k`.
pub open spec fn group_size(idx: CandidateIndex, k: int) -> int {
    idx.groups@[k]@.len() as int
}

/// The strict ranking order on class slots: smaller class first, and
/// among equal sizes the earlier slot first. A total order on distinct
/// slots, so the ranked order of an index is unique.
pub open spec fn rank_before(idx: CandidateIndex, a: int, b: int) -> bool {
    group_size(idx, a) < group_size(idx, b) || (group_size(idx, a) == group_size(idx, b) && a < b)
}

/// `order` lists every class slot exactly once, ascending by
/// [`rank_before`].
pub open spec fn is_rank_order(idx: CandidateIndex, order: Seq<usize>) -> bool {
    &&& order.len() == idx.groups@.len()
    &&& forall|i: int| 0 <= i < order.len() ==> (#[trigger] order[i]) < idx.groups@.len()
    &&& forall|i: int, j: int|
        0 <= i < j < order.len() ==> rank_before(idx, #[trigger] order[i] as int, #[trigger] order[j] as int)
    &&& forall|k: int| 0 <= k < idx.groups@.len() ==> order.contains(#[trigger] (k as usize))
}

/// Sorts the class slots ascending by class size, earlier slots first
/// among equal sizes.
pub fn rank_order(idx: &CandidateIndex) -> (order: Vec<usize>)
    ensures
        is_rank_order(*idx, order@),
{
    let n = idx.groups.len();
    let mut order: Vec<usize> = Vec::new();
    let mut k: usize = 0;
    while k < n
        invariant
            n == idx.groups@.len(),
            k <= n,
            order@.len() == k,
            forall|i: int| 0 <= i < order@.len() ==> (#[trigger] order@[i]) < k,
            forall|i: int, j: int|
                0 <= i < j < order@.len() ==> rank_before(
                    *idx,
                    #[trigger] order@[i] as int,
                    #[trigger] order@[j] as int,
                ),
            forall|m: int| 0 <= m < k ==> order@.contains(#[trigger] (m as usize)),
        decreases n - k,
    {
        let ghost before = order@;
        let sz = idx.groups[k].len();
        let mut p: usize = order.len();
        while p > 0 && sz < idx.groups[order[p - 1]].len()
            invariant
                n == idx.groups@.len(),
                k < n,
                sz == group_size(*idx, k as int),
                order@ == before,
                p <= order@.len(),
                forall|i: int| 0 <= i < order@.len() ==> (#[trigger] order@[i]) < k,
                forall|q: int|
                    p <= q < order@.len() ==> rank_before(*idx, k as int, #[trigger] order@[q] as int),
            decreases p,
        {
            p -= 1;
        }
        proof {
            if p > 0 {
                assert(group_size(*idx, before[p - 1] as int) <= sz);
                assert(rank_before(*idx, before[p - 1] as int, k as int));
            }
        }
        order.insert(p, k);
        proof {
            assert(order@ == before.insert(p as int, k as usize));
            assert(forall|q: int| 0 <= q < p ==> order@[q] == before[q]);
            assert(forall|q: int|
                p < q < order@.len() ==> order@[q] == before[q - 1]);
            assert(order@[p as int] == k as usize);
            assert forall|i: int, j: int| 0 <= i < j < order@.len() implies rank_before(
                *idx,
                order@[i] as int,
                order@[j] as int,
            ) by {
                if i == p as int {
                    assert(rank_before(*idx, k as int, before[j - 1] as int));
                } else if j == p as int {
                    if i < p as int {
                        if p > 0 && i < p as int - 1 {
                            assert(rank_before(*idx, before[i] as int, before[p - 1] as int));
                        }
                        assert(rank_before(*idx, before[p - 1] as int, k as int));
                    }
                }
            }
            assert forall|m: int| 0 <= m < k + 1 implies order@.contains(
                #[trigger] (m as usize),
            ) by {
                if m < k {
                    let q = choose|q: int| 0 <= q < before.len() && before[q] == m as usize;
                    if q < p as int {
                        assert(order@[q] == m as usize);
                    } else {
                        assert(order@[q + 1] == m as usize);
                    }
                } else {
                    assert(order@[p as int] == m as usize);
                }
            }
        }
        k += 1;
    }
    order
}

/// The report of the ten largest classes (all of them when there are
/// fewer): the last `min(10, n)` slots of the ranked order, each shown
/// as its single member and the count 1 when the class holds one word,
/// else as the class key and its member count.
pub fn top_report(idx: &CandidateIndex, order: &Vec<usize>) -> (report: Vec<(String, usize)>)
    requires
        idx.wf(),
        is_rank_order(*idx, order@),
    ensures
        report@.len() == if idx.groups@.len() < 10 {
            idx.groups@.len() as int
        } else {
            10
        },
        forall|j: int|
            0 <= j < report@.len() ==> {
                let g = order@[order@.len() - report@.len() + j] as int;
                (#[trigger] report@[j]).1 == idx.groups@[g]@.len() && (if idx.groups@[g]@.len()
                    == 1 {
                    report@[j].0@ == idx.groups@[g]@[0]@
                } else {
                    report@[j].0@ == idx.keys@[g]@
                })
            },
{
    let n = idx.groups.len();
    let cnt: usize = if n < 10 {
        n
    } else {
        10
    };
    let start = n - cnt;
    let mut report: Vec<(String, usize)> = Vec::new();
    let mut j: usize = 0;
    while j < cnt
        invariant
            idx.wf(),
            is_rank_order(*idx, order@),
            n == idx.groups@.len(),
            cnt == if n < 10 {
                n as int
            } else {
                10
            },
            start == n - cnt,
            j <= cnt,
            report@.len() == j,
            forall|q: int|
                0 <= q < j ==> {
                    let g = order@[start + q] as int;
                    (#[trigger] report@[q]).1 == idx.groups@[g]@.len() && (if idx.groups@[g]@.len()
                        == 1 {
                        report@[q].0@ == idx.groups@[g]@[0]@
                    } else {
                        report@[q].0@ == idx.keys@[g]@
                    })
                },
        decreases cnt - j,
    {
        let g = order[start + j];
        let size = idx.groups[g].len();
        if size == 1 {
            report.push((idx.groups[g][0].clone(), 1));
        } else {
            report.push((idx.keys[g].clone(), size));
        }
        j += 1;
    }
    report
}

/// The slot of the winning class: the one greatest under
/// [`rank_before`], so a class of globally largest size. `None` exactly
/// when no candidates remain.
pub fn winning_group(idx: &CandidateIndex) -> (r: Option<usize>)
    ensures
        r is None <==> idx.groups@.len() == 0,
        r matches Some(k) ==> k < idx.groups@.len() && forall|j: int|
            0 <= j < idx.groups@.len() && j != k ==> rank_before(*idx, j, k as int),
{
    let n = idx.groups.len();
    if n == 0 {
        return None;
    }
    let mut best: usize = 0;
    let mut j: usize = 1;
    while j < n
        invariant
            n == idx.groups@.len(),
            1 <= j <= n,
            best < j,
            forall|q: int| 0 <= q < j && q != best ==> rank_before(*idx, q, best as int),
        decreases n - j,
    {
        let ghost prev = best as int;
        if idx.groups[j].len() >= idx.groups[best].len() {
            best = j;
        }
        proof {
            assert forall|q: int| 0 <= q < j + 1 && q != best implies rank_before(
                *idx,
                q,
                best as int,
            ) by {
                if q != prev && q < j {
                    assert(rank_before(*idx, q, prev));
                }
            }
        }
        j += 1;
    }
    Some(best)
}

/// The members of class `k` that the matcher accepts — the re-filter
/// is redundant for an index built from matches, and kept as a
/// defensive check.
pub fn winner_members(idx: &CandidateIndex, k: usize, state: &GuessState) -> (r: Vec<String>)
    requires
        k < idx.groups@.len(),
    ensures
        r@ == idx.groups@[k as int]@.filter(|s: String| matches_spec(state@, s@)),
{
    let g = &idx.groups[k];
    let ghost gs = g@;
    let ghost pred = |s: String| matches_spec(state@, s@);
    let mut r: Vec<String> = Vec::new();
    let mut a: usize = 0;
    proof {
        assert(gs.take(0) =~= Seq::<String>::empty());
        assert(Seq::<String>::empty().filter(pred) =~= Seq::<String>::empty());
    }
    while a < g.len()
        invariant
            gs == g@,
            gs == idx.groups@[k as int]@,
            a <= gs.len(),
            r@ == gs.take(a as int).filter(pred),
            pred == (|s: String| matches_spec(state@, s@)),
        decreases gs.len() - a,
    {
        proof {
            gs.take(a as int).lemma_filter_push(gs[a as int], pred);
            assert(gs.take(a as int).push(gs[a as int]) =~= gs.take(a as int + 1));
        }
        if state.accepts(g[a].as_str()) {
            r.push(g[a].clone());
        }
        a += 1;
    }
    proof {
        assert(gs.take(gs.len() as int) =~= gs);
    }
    r
}

} // verus!