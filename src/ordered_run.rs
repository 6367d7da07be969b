//! The longest run of a sequence that is already in increasing order: the
//! rows of a keyed list that can stay where they are while the others move.

use vstd::prelude::*;

verus! {

/// `idx` picks positions of `p`, in increasing order, whose values increase.
pub open spec fn increasing_run(p: Seq<usize>, idx: Seq<int>) -> bool {
    &&& forall|k: int| 0 <= k < idx.len() ==> 0 <= #[trigger] idx[k] < p.len()
    &&& forall|k: int, l: int| 0 <= k < l < idx.len() ==> idx[k] < idx[l] && p[idx[k]] < p[idx[l]]
}

/// How many entries of `s` are true.
pub open spec fn count_true(s: Seq<bool>) -> nat
    decreases s.len(),
{
    if s.len() == 0 {
        0
    } else {
        count_true(s.drop_last()) + if s.last() { 1nat } else { 0nat }
    }
}

/// The positions marked in `keep` have increasing values of `p`, and no
/// increasing run of `p` is longer than the marked positions.
pub open spec fn longest_kept(p: Seq<usize>, keep: Seq<bool>) -> bool {
    &&& keep.len() == p.len()
    &&& forall|a: int, b: int| 0 <= a < b < p.len() && keep[a] && keep[b] ==> p[a] < p[b]
    &&& forall|idx: Seq<int>| #[trigger] increasing_run(p, idx) ==> idx.len() <= count_true(keep)
}

/// `best[j]` is at least one more than `best[i]` for every earlier, smaller `p[i]`.
spec fn dp_bound(p: Seq<usize>, best: Seq<usize>, n: int) -> bool {
    &&& forall|j: int| 0 <= j < n ==> #[trigger] best[j] >= 1
    &&& forall|i: int, j: int| 0 <= i < j < n && p[i] < p[j] ==> #[trigger] best[i] + 1 <= #[trigger] best[j]
}

/// Where `best[j] > 1`, `pred[j]` is an earlier, smaller entry one shorter.
spec fn dp_pred(p: Seq<usize>, best: Seq<usize>, pred: Seq<usize>, n: int) -> bool {
    forall|j: int| 0 <= j < n && #[trigger] best[j] > 1 ==> {
        &&& pred[j] < j
        &&& p[pred[j] as int] < p[j]
        &&& best[pred[j] as int] + 1 == best[j]
    }
}

proof fn lemma_run_bound(p: Seq<usize>, best: Seq<usize>, idx: Seq<int>)
    requires
        best.len() == p.len(),
        dp_bound(p, best, p.len() as int),
        increasing_run(p, idx),
        idx.len() > 0,
    ensures
        idx.len() <= best[idx.last()],
    decreases idx.len(),
{
    if idx.len() > 1 {
        let front = idx.drop_last();
        assert forall|k: int| 0 <= k < front.len() implies 0 <= #[trigger] front[k] < p.len() by {
            assert(front[k] == idx[k]);
        }
        assert forall|k: int, l: int| 0 <= k < l < front.len() implies front[k] < front[l] && p[front[k]] < p[front[l]] by {
            assert(front[k] == idx[k] && front[l] == idx[l]);
        }
        lemma_run_bound(p, best, front);
        let i = idx[idx.len() - 2];
        let j = idx.last();
        assert(0 <= i < p.len());
        assert(i < j && p[i] < p[j]);
    } else {
        assert(0 <= idx[0] < p.len());
    }
}

proof fn lemma_count_set(s: Seq<bool>, i: int)
    requires
        0 <= i < s.len(),
        !s[i],
    ensures
        count_true(s.update(i, true)) == count_true(s) + 1,
    decreases s.len(),
{
    let t = s.update(i, true);
    if i == s.len() - 1 {
        assert(t.drop_last() =~= s.drop_last());
    } else {
        assert(t.drop_last() =~= s.drop_last().update(i, true));
        lemma_count_set(s.drop_last(), i);
    }
}

proof fn lemma_count_none(n: nat)
    ensures
        count_true(Seq::new(n, |k: int| false)) == 0,
    decreases n,
{
    if n > 0 {
        assert(Seq::new(n, |k: int| false).drop_last() =~= Seq::new((n - 1) as nat, |k: int| false));
        lemma_count_none((n - 1) as nat);
    }
}

/// Marks a longest increasing run of `p`: the marked entries increase, and
/// no increasing run is longer.
pub fn longest_run(p: &Vec<usize>) -> (keep: Vec<bool>)
    ensures
        longest_kept(p@, keep@),
{
    let n = p.len();
    let mut best: Vec<usize> = Vec::new();
    let mut pred: Vec<usize> = Vec::new();
    let mut j: usize = 0;
    while j < n
        invariant
            n == p@.len(),
            j <= n,
            best@.len() == j,
            pred@.len() == j,
            dp_bound(p@, best@, j as int),
            dp_pred(p@, best@, pred@, j as int),
            forall|k: int| 0 <= k < j ==> #[trigger] best@[k] <= k + 1,
        decreases n - j,
    {
        let mut b: usize = 1;
        let mut pr: usize = 0;
        let mut i: usize = 0;
        while i < j
            invariant
                n == p@.len(),
                j < n,
                i <= j,
                best@.len() == j,
                forall|k: int| 0 <= k < j ==> #[trigger] best@[k] <= k + 1,
                1 <= b <= i + 1,
                forall|k: int| 0 <= k < i && p@[k] < p@[j as int] ==> best@[k] + 1 <= b,
                b > 1 ==> pr < i && p@[pr as int] < p@[j as int] && best@[pr as int] + 1 == b,
            decreases j - i,
        {
            if p[i] < p[j] && best[i] + 1 > b {
                b = best[i] + 1;
                pr = i;
            }
            i = i + 1;
        }
        best.push(b);
        pred.push(pr);
        proof {
            assert forall|x: int, y: int| 0 <= x < y < j + 1 && p@[x] < p@[y] implies #[trigger] best@[x] + 1 <= #[trigger] best@[y] by {
                if y < j {
                    assert(dp_bound(p@, best@.drop_last(), j as int));
                    assert(best@[x] == best@.drop_last()[x] && best@[y] == best@.drop_last()[y]);
                }
            }
            assert forall|y: int| 0 <= y < j + 1 && #[trigger] best@[y] > 1 implies {
                &&& pred@[y] < y
                &&& p@[pred@[y] as int] < p@[y]
                &&& best@[pred@[y] as int] + 1 == best@[y]
            } by {
                if y < j {
                    assert(best@[y] == best@.drop_last()[y]);
                    assert(pred@[y] == pred@.drop_last()[y]);
                }
            }
        }
        j = j + 1;
    }
    let mut keep: Vec<bool> = Vec::new();
    let mut k: usize = 0;
    while k < n
        invariant
            k <= n,
            keep@ == Seq::new(k as nat, |x: int| false),
        decreases n - k,
    {
        keep.push(false);
        proof {
            assert(keep@ =~= Seq::new((k + 1) as nat, |x: int| false));
        }
        k = k + 1;
    }
    proof {
        lemma_count_none(n as nat);
    }
    if n == 0 {
        proof {
            assert forall|idx: Seq<int>| #[trigger] increasing_run(p@, idx) implies idx.len() <= count_true(keep@) by {
                if idx.len() > 0 {
                    assert(0 <= idx[0] < p@.len());
                }
            }
        }
        return keep;
    }
    let mut e: usize = 0;
    let mut k: usize = 1;
    while k < n
        invariant
            n == p@.len(),
            best@.len() == n,
            e < k <= n,
            forall|x: int| 0 <= x < k ==> #[trigger] best@[x] <= best@[e as int],
        decreases n - k,
    {
        if best[k] > best[e] {
            e = k;
        }
        k = k + 1;
    }
    let mut cur: usize = e;
    loop
        invariant
            n == p@.len(),
            best@.len() == n,
            pred@.len() == n,
            keep@.len() == n,
            dp_bound(p@, best@, n as int),
            dp_pred(p@, best@, pred@, n as int),
            cur < n,
            e < n,
            forall|x: int| 0 <= x < n ==> #[trigger] best@[x] <= best@[e as int],
            !keep@[cur as int],
            forall|a: int| 0 <= a < n && #[trigger] keep@[a] ==> cur < a && p@[cur as int] < p@[a],
            forall|a: int, b: int| 0 <= a < b < n && keep@[a] && keep@[b] ==> p@[a] < p@[b],
            count_true(keep@) + best@[cur as int] == best@[e as int],
        decreases cur,
    {
        proof {
            lemma_count_set(keep@, cur as int);
        }
        keep.set(cur, true);
        if best[cur] == 1 {
            proof {
                assert forall|idx: Seq<int>| #[trigger] increasing_run(p@, idx) implies idx.len() <= count_true(keep@) by {
                    if idx.len() > 0 {
                        lemma_run_bound(p@, best@, idx);
                        assert(0 <= idx.last() < n);
                        assert(best@[idx.last()] <= best@[e as int]);
                    }
                }
            }
            return keep;
        }
        let nxt = pred[cur];
        proof {
            assert(best@[cur as int] > 1);
            assert(!keep@[nxt as int]);
        }
        cur = nxt;
    }
}

} // verus!
