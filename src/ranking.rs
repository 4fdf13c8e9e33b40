use vstd::prelude::*;
use vstd::set_lib::{lemma_int_range, lemma_len_subset, set_int_range};
use crate::error::GraphError;

verus! {

broadcast use vstd::seq_lib::group_seq_properties;

/// Entity `i` ranks before entity `j`: a higher score, or an equal score and
/// an earlier place in the enumeration order.
///
/// Scores are compared as unsigned integers; the bit pattern of a
/// non-negative float orders as the float does.
pub open spec fn ranks_before(scores: Seq<u64>, i: int, j: int) -> bool {
    scores[i] > scores[j] || (scores[i] == scores[j] && i < j)
}

/// `i` holds the highest score, and is the first among those that hold it.
pub open spec fn is_most_central(scores: Seq<u64>, i: int) -> bool {
    &&& 0 <= i < scores.len()
    &&& forall|j: int| 0 <= j < scores.len() && j != i ==> ranks_before(scores, i, j)
}

/// `r` is the first `min(k, n)` entities of the ranking, in ranking order.
pub open spec fn is_top_k(scores: Seq<u64>, k: nat, r: Seq<usize>) -> bool {
    &&& r.len() == if k < scores.len() {
        k
    } else {
        scores.len()
    }
    &&& forall|a: int| 0 <= a < r.len() ==> (#[trigger] r[a] as int) < scores.len()
    &&& forall|a: int, b: int|
        0 <= a < b < r.len() ==> ranks_before(scores, #[trigger] r[a] as int, #[trigger] r[b] as int)
    &&& r.len() > 0 ==> forall|j: int|
        0 <= j < scores.len() && !r.contains(j as usize) ==> ranks_before(
            scores,
            r.last() as int,
            j,
        )
}

/// The entity with the highest score, the first in enumeration order among
/// equals; `EmptyGraph` when there are no entities.
pub fn most_connected_entity(scores: &Vec<u64>) -> (r: Result<usize, GraphError>)
    ensures
        r is Err <==> scores.len() == 0,
        r matches Err(e) ==> e is EmptyGraph,
        r matches Ok(i) ==> is_most_central(scores@, i as int),
{
    if scores.len() == 0 {
        return Err(GraphError::EmptyGraph);
    }
    let mut best: usize = 0;
    let mut i: usize = 1;
    while i < scores.len()
        invariant
            1 <= i <= scores.len(),
            best < i,
            forall|j: int| 0 <= j < i && j != best ==> ranks_before(scores@, best as int, j),
            forall|j: int| 0 <= j < i ==> scores@[best as int] >= #[trigger] scores@[j],
        decreases scores.len() - i,
    {
        if scores[i] > scores[best] {
            best = i;
        }
        i = i + 1;
    }
    Ok(best)
}

/// The most central entity is unique, so repeated queries on the same scores
/// name the same entity.
pub proof fn lemma_most_central_unique(scores: Seq<u64>, i: int, j: int)
    requires
        is_most_central(scores, i),
        is_most_central(scores, j),
    ensures
        i == j,
{
    if i != j {
        assert(ranks_before(scores, i, j));
        assert(ranks_before(scores, j, i));
    }
}

/// Fewer than `n` distinct positions leave some position below `n` out.
proof fn lemma_some_left_out(r: Seq<usize>, n: nat)
    requires
        r.len() < n,
        n <= usize::MAX,
        forall|a: int, b: int| 0 <= a < b < r.len() ==> r[a] != r[b],
    ensures
        exists|j: int| 0 <= j < n && !#[trigger] r.contains(j as usize),
{
    let ri = r.map_values(|x: usize| x as int);
    assert(ri.no_duplicates()) by {
        assert forall|a: int, b: int| 0 <= a < ri.len() && 0 <= b < ri.len() && a != b implies ri[a]
            != ri[b] by {
            if a < b {
                assert(r[a] != r[b]);
            } else {
                assert(r[b] != r[a]);
            }
        }
    }
    ri.unique_seq_to_set();
    lemma_int_range(0, n as int);
    if forall|j: int| 0 <= j < n ==> #[trigger] r.contains(j as usize) {
        assert(set_int_range(0, n as int).subset_of(ri.to_set())) by {
            assert forall|j: int| set_int_range(0, n as int).contains(j) implies ri.to_set().contains(
                j,
            ) by {
                assert(r.contains(j as usize));
                let a = choose|a: int| 0 <= a < r.len() && r[a] == j as usize;
                assert(ri[a] == j);
            }
        }
        lemma_len_subset(set_int_range(0, n as int), ri.to_set());
    }
}

/// `i` may come next after the ranked prefix `r`.
spec fn after_last(scores: Seq<u64>, r: Seq<usize>, i: int) -> bool {
    r.len() == 0 || ranks_before(scores, r.last() as int, i)
}

/// The first `min(k, n)` entities by descending score, the earlier entity
/// first among equal scores.
pub fn top_entities(scores: &Vec<u64>, k: usize) -> (r: Vec<usize>)
    ensures
        is_top_k(scores@, k as nat, r@),
{
    let n = scores.len();
    let count = if k < n {
        k
    } else {
        n
    };
    let mut r: Vec<usize> = Vec::new();
    while r.len() < count
        invariant
            n == scores.len(),
            count == if k < n {
                k
            } else {
                n
            },
            r.len() <= count,
            forall|a: int| 0 <= a < r.len() ==> (#[trigger] r@[a] as int) < n,
            forall|a: int, b: int|
                0 <= a < b < r.len() ==> ranks_before(
                    scores@,
                    #[trigger] r@[a] as int,
                    #[trigger] r@[b] as int,
                ),
            r.len() > 0 ==> forall|j: int|
                0 <= j < n && !r@.contains(j as usize) ==> ranks_before(
                    scores@,
                    r@.last() as int,
                    j,
                ),
        decreases count - r.len(),
    {
        proof {
            assert forall|a: int, b: int| 0 <= a < b < r.len() implies r@[a] != r@[b] by {
                assert(ranks_before(scores@, r@[a] as int, r@[b] as int));
            }
            lemma_some_left_out(r@, n as nat);
            assert forall|i: int| 0 <= i < n && #[trigger] after_last(scores@, r@, i) implies !r@.contains(i as usize) by {
                if r@.contains(i as usize) {
                    let a = choose|a: int| 0 <= a < r.len() && r@[a] == i as usize;
                    if a < r.len() - 1 {
                        assert(ranks_before(scores@, r@[a] as int, r@[r.len() - 1] as int));
                    }
                }
            }
        }
        let has_last = r.len() > 0;
        let last: usize = if has_last {
            r[r.len() - 1]
        } else {
            0
        };
        let mut best: usize = n;
        let mut j: usize = 0;
        while j < n
            invariant
                n == scores.len(),
                j <= n,
                has_last == (r.len() > 0),
                has_last ==> last == r@.last() && last < n,
                best < n ==> forall|i: int|
                    0 <= i < j && after_last(scores@, r@, i) ==> scores@[best as int]
                        >= #[trigger] scores@[i],
                best == n || (best < j && after_last(scores@, r@, best as int)),
                best < n ==> forall|i: int|
                    0 <= i < j && after_last(scores@, r@, i) && i != best ==> ranks_before(
                        scores@,
                        best as int,
                        i,
                    ),
                best == n ==> forall|i: int| 0 <= i < j ==> !after_last(scores@, r@, i),
            decreases n - j,
        {
            let elig = !has_last || scores[last] > scores[j] || (scores[last] == scores[j] && last
                < j);
            if elig && (best == n || scores[j] > scores[best]) {
                best = j;
            }
            j = j + 1;
        }
        proof {
            if best == n {
                let i = choose|i: int| 0 <= i < n && !#[trigger] r@.contains(i as usize);
                assert(after_last(scores@, r@, i));
            }
        }
        let ghost old_r = r@;
        r.push(best);
        proof {
            assert(r@.last() == best);
            assert forall|a: int, b: int| 0 <= a < b < r.len() implies ranks_before(
                scores@,
                #[trigger] r@[a] as int,
                #[trigger] r@[b] as int,
            ) by {
                if b == r.len() - 1 && a < old_r.len() - 1 {
                    assert(ranks_before(scores@, old_r[a] as int, old_r.last() as int));
                }
            }
            assert forall|i: int| 0 <= i < n && !r@.contains(i as usize) implies ranks_before(
                scores@,
                r@.last() as int,
                i,
            ) by {
                assert(r@[r.len() - 1] == best);
                assert(i != best);
                if old_r.contains(i as usize) {
                    let a = choose|a: int| 0 <= a < old_r.len() && old_r[a] == i as usize;
                    assert(r@[a] == i as usize);
                }
                assert(after_last(scores@, old_r, i));
            }
        }
    }
    r
}

} // verus!
