//! Picking the best few of a list of scores: highest score first, and among
//! equal scores the one that stands first in the list.

use vstd::prelude::*;

verus! {

/// The entry at index `a` ranks before the entry at index `b`: its score is
/// higher, or the same and it stands earlier.
pub open spec fn outranks(scores: Seq<u64>, a: int, b: int) -> bool {
    scores[a] > scores[b] || (scores[a] == scores[b] && a < b)
}

/// The index `m` is one of the picks.
pub open spec fn listed(top: Seq<usize>, m: int) -> bool {
    exists|j: int| 0 <= j < top.len() && #[trigger] top[j] == m
}

/// `top` holds the indices of the `k` best scores, best first; of all of
/// them where there are fewer than `k`.
pub open spec fn is_top(scores: Seq<u64>, k: int, top: Seq<usize>) -> bool {
    &&& top.len() == (if k < scores.len() { k } else { scores.len() as int })
    &&& forall|i: int| 0 <= i < top.len() ==> (#[trigger] top[i]) < scores.len()
    &&& forall|i: int, j: int|
        0 <= i < j < top.len() ==> outranks(scores, #[trigger] top[i] as int, #[trigger] top[j] as int)
    &&& forall|i: int, m: int|
        0 <= i < top.len() && 0 <= m < scores.len() && !listed(top, m) ==> #[trigger] outranks(
            scores,
            top[i] as int,
            m,
        )
}

/// What holds between the picks made so far and the indices still to pick
/// from.
spec fn picking(scores: Seq<u64>, top: Seq<usize>, rest: Seq<usize>) -> bool {
    &&& top.len() + rest.len() == scores.len()
    &&& forall|i: int| 0 <= i < top.len() ==> (#[trigger] top[i]) < scores.len()
    &&& forall|j: int| 0 <= j < rest.len() ==> (#[trigger] rest[j]) < scores.len()
    &&& forall|i: int, j: int| 0 <= i < j < rest.len() ==> (#[trigger] rest[i]) < (#[trigger] rest[j])
    &&& forall|i: int, j: int|
        0 <= i < j < top.len() ==> outranks(scores, #[trigger] top[i] as int, #[trigger] top[j] as int)
    &&& forall|i: int, j: int|
        0 <= i < top.len() && 0 <= j < rest.len() ==> outranks(
            scores,
            #[trigger] top[i] as int,
            #[trigger] rest[j] as int,
        )
    &&& forall|m: int| 0 <= m < scores.len() ==> #[trigger] listed(top, m) || listed(rest, m)
}

/// The position, in `rest`, of the entry that outranks all the others.
fn best_of(scores: &Vec<u64>, rest: &Vec<usize>) -> (at: usize)
    requires
        rest@.len() > 0,
        forall|j: int| 0 <= j < rest@.len() ==> (#[trigger] rest@[j]) < scores@.len(),
        forall|i: int, j: int| 0 <= i < j < rest@.len() ==> (#[trigger] rest@[i]) < (#[trigger] rest@[j]),
    ensures
        at < rest@.len(),
        forall|j: int|
            0 <= j < rest@.len() && j != at ==> outranks(
                scores@,
                rest@[at as int] as int,
                #[trigger] rest@[j] as int,
            ),
{
    let mut at: usize = 0;
    let mut j: usize = 1;
    while j < rest.len()
        invariant
            1 <= j <= rest@.len(),
            at < j,
            forall|i: int| 0 <= i < rest@.len() ==> (#[trigger] rest@[i]) < scores@.len(),
            forall|a: int, b: int| 0 <= a < b < rest@.len() ==> (#[trigger] rest@[a]) < (#[trigger] rest@[b]),
            forall|i: int|
                0 <= i < j && i != at ==> outranks(
                    scores@,
                    rest@[at as int] as int,
                    #[trigger] rest@[i] as int,
                ),
        decreases rest@.len() - j,
    {
        if scores[rest[j]] > scores[rest[at]] {
            at = j;
        }
        j += 1;
    }
    at
}

/// The indices of the `k` highest scores, highest first; equal scores keep
/// the order in which they stand in the list.
pub fn select_top(scores: &Vec<u64>, k: usize) -> (top: Vec<usize>)
    ensures
        is_top(scores@, k as int, top@),
{
    let n: usize = scores.len();
    let mut rest: Vec<usize> = Vec::new();
    let mut m: usize = 0;
    while m < n
        invariant
            n == scores@.len(),
            m <= n,
            rest@.len() == m,
            forall|j: int| 0 <= j < m ==> #[trigger] rest@[j] == j,
        decreases n - m,
    {
        rest.push(m);
        m += 1;
    }
    let mut top: Vec<usize> = Vec::new();
    proof {
        assert forall|i: int| 0 <= i < n implies #[trigger] listed(top@, i) || listed(rest@, i) by {
            assert(rest@[i] == i);
        }
    }
    while top.len() < k && rest.len() > 0
        invariant
            n == scores@.len(),
            top@.len() <= k,
            picking(scores@, top@, rest@),
        decreases rest@.len(),
    {
        let at: usize = best_of(scores, &rest);
        let ghost before_top = top@;
        let ghost before_rest = rest@;
        let pick: usize = rest.remove(at);
        top.push(pick);
        proof {
            let t = top@;
            let r = rest@;
            assert(r == before_rest.remove(at as int));
            assert forall|j: int| 0 <= j < r.len() implies (#[trigger] r[j]) < scores@.len() by {
                if j < at {
                    assert(r[j] == before_rest[j]);
                } else {
                    assert(r[j] == before_rest[j + 1]);
                }
            }
            assert forall|i: int, j: int| 0 <= i < j < r.len() implies (#[trigger] r[i]) < (
            #[trigger] r[j]) by {
                let a = if i < at { i } else { i + 1 };
                let b = if j < at { j } else { j + 1 };
                assert(r[i] == before_rest[a] && r[j] == before_rest[b]);
            }
            assert forall|i: int, j: int| 0 <= i < j < t.len() implies outranks(
                scores@,
                #[trigger] t[i] as int,
                #[trigger] t[j] as int,
            ) by {
                if j < before_top.len() {
                    assert(t[i] == before_top[i] && t[j] == before_top[j]);
                } else {
                    assert(t[i] == before_top[i]);
                    assert(t[j] == before_rest[at as int]);
                }
            }
            assert forall|i: int, j: int| 0 <= i < t.len() && 0 <= j < r.len() implies outranks(
                scores@,
                #[trigger] t[i] as int,
                #[trigger] r[j] as int,
            ) by {
                let b = if j < at { j } else { j + 1 };
                assert(r[j] == before_rest[b]);
                if i < before_top.len() {
                    assert(t[i] == before_top[i]);
                } else {
                    assert(t[i] == before_rest[at as int]);
                }
            }
            assert forall|x: int| 0 <= x < scores@.len() implies #[trigger] listed(t, x) || listed(
                r,
                x,
            ) by {
                assert(listed(before_top, x) || listed(before_rest, x));
                if listed(before_top, x) {
                    let j = choose|j: int| 0 <= j < before_top.len() && #[trigger] before_top[j] == x;
                    assert(t[j] == x);
                } else {
                    let j = choose|j: int|
                        0 <= j < before_rest.len() && #[trigger] before_rest[j] == x;
                    if j == at {
                        assert(t[before_top.len() as int] == x);
                    } else if j < at {
                        assert(r[j] == x);
                    } else {
                        assert(r[j - 1] == x);
                    }
                }
            }
        }
    }
    proof {
        let t = top@;
        let r = rest@;
        assert forall|i: int, x: int|
            0 <= i < t.len() && 0 <= x < scores@.len() && !listed(t, x) implies #[trigger] outranks(
            scores@,
            t[i] as int,
            x,
        ) by {
            assert(listed(t, x) || listed(r, x));
            let j = choose|j: int| 0 <= j < r.len() && #[trigger] r[j] == x;
            assert(outranks(scores@, t[i] as int, r[j] as int));
        }
    }
    top
}

/// The picks are determined by the scores: two lists that both hold the `k`
/// best indices, best first, are the same list.
pub proof fn lemma_top_unique(scores: Seq<u64>, k: int, a: Seq<usize>, b: Seq<usize>)
    requires
        is_top(scores, k, a),
        is_top(scores, k, b),
    ensures
        a == b,
{
    assert(a.len() == b.len());
    assert forall|i: int| 0 <= i < a.len() implies a[i] == b[i] by {
        lemma_top_agree(scores, k, a, b, i);
    }
    assert(a =~= b);
}

/// Two lists of the `k` best indices agree up to and at the index `i`.
proof fn lemma_top_agree(scores: Seq<u64>, k: int, a: Seq<usize>, b: Seq<usize>, i: int)
    requires
        is_top(scores, k, a),
        is_top(scores, k, b),
        0 <= i < a.len(),
    ensures
        forall|j: int| 0 <= j <= i ==> a[j] == b[j],
    decreases i,
{
    if i > 0 {
        lemma_top_agree(scores, k, a, b, i - 1);
    }
    if a[i] != b[i] {
        lemma_ranks_before(scores, k, a, b, i);
        lemma_ranks_before(scores, k, b, a, i);
    }
}

/// Where two lists of the `k` best indices agree before the index `i` and
/// differ at it, the entry of the second list outranks that of the first.
proof fn lemma_ranks_before(scores: Seq<u64>, k: int, a: Seq<usize>, b: Seq<usize>, i: int)
    requires
        is_top(scores, k, a),
        is_top(scores, k, b),
        0 <= i < a.len(),
        forall|j: int| 0 <= j < i ==> a[j] == b[j],
        a[i] != b[i],
    ensures
        outranks(scores, b[i] as int, a[i] as int),
{
    let m = a[i] as int;
    if listed(b, m) {
        let j = choose|j: int| 0 <= j < b.len() && #[trigger] b[j] == m;
        if j < i {
            assert(a[j] == b[j]);
            assert(outranks(scores, a[j] as int, a[i] as int));
        } else {
            assert(outranks(scores, b[i] as int, b[j] as int));
        }
    } else {
        assert(outranks(scores, b[i] as int, m));
    }
}

} // verus!
