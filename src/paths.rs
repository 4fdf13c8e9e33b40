use vstd::prelude::*;

verus! {

/// `w` lists the positions in `rels` of the relationships of a directed walk
/// from `s` to `t`, in the order they are followed.
pub open spec fn is_walk(rels: Seq<(usize, usize)>, s: int, t: int, w: Seq<int>) -> bool {
    &&& forall|i: int| 0 <= i < w.len() ==> 0 <= #[trigger] w[i] < rels.len()
    &&& w.len() == 0 ==> s == t
    &&& w.len() > 0 ==> rels[w[0]].0 == s && rels[w.last()].1 == t
    &&& forall|i: int| 0 <= i < w.len() - 1 ==> rels[#[trigger] w[i]].1 == rels[w[i + 1]].0
}

/// Whether a directed walk of at most `k` relationships leads from `s` to `t`.
pub open spec fn reachable_within(rels: Seq<(usize, usize)>, s: int, t: int, k: nat) -> bool {
    exists|w: Seq<int>| w.len() <= k && #[trigger] is_walk(rels, s, t, w)
}

/// Whether `d` is the length of a shortest directed walk from `s` to `t`.
pub open spec fn is_hop_distance(rels: Seq<(usize, usize)>, s: int, t: int, d: nat) -> bool {
    &&& reachable_within(rels, s, t, d)
    &&& d == 0 || !reachable_within(rels, s, t, (d - 1) as nat)
}

/// Whether some directed walk leads from `s` to `t`.
pub open spec fn is_reachable(rels: Seq<(usize, usize)>, s: int, t: int) -> bool {
    exists|k: nat| reachable_within(rels, s, t, k)
}

/// Every relationship joins two of the nodes `0 .. n`.
pub open spec fn within_nodes(rels: Seq<(usize, usize)>, n: nat) -> bool {
    forall|e: int| 0 <= e < rels.len() ==> (#[trigger] rels[e]).0 < n && rels[e].1 < n
}

/// The number of nodes not yet given a distance.
pub open spec fn count_none(s: Seq<Option<usize>>) -> nat
    decreases s.len(),
{
    if s.len() == 0 {
        0
    } else {
        count_none(s.drop_last()) + if s.last() is None {
            1nat
        } else {
            0nat
        }
    }
}

/// What a distance table entry says once levels `0 ..= k` are settled.
pub open spec fn settled(rels: Seq<(usize, usize)>, s: int, v: int, dv: Option<usize>, k: nat) -> bool {
    match dv {
        Some(j) => j <= k && is_hop_distance(rels, s, v, j as nat),
        None => !reachable_within(rels, s, v, k),
    }
}

/// A walk of at most `a` steps is one of at most `b >= a` steps.
pub proof fn lemma_within_monotone(rels: Seq<(usize, usize)>, s: int, t: int, a: nat, b: nat)
    requires
        a <= b,
        reachable_within(rels, s, t, a),
    ensures
        reachable_within(rels, s, t, b),
{
    let w = choose|w: Seq<int>| w.len() <= a && #[trigger] is_walk(rels, s, t, w);
    assert(w.len() <= b && is_walk(rels, s, t, w));
}

/// Every node reaches itself in zero steps, and only itself.
pub proof fn lemma_within_zero(rels: Seq<(usize, usize)>, s: int, t: int)
    ensures
        reachable_within(rels, s, t, 0) == (s == t),
{
    if s == t {
        assert(is_walk(rels, s, t, Seq::<int>::empty()));
    }
    if reachable_within(rels, s, t, 0) {
        let w = choose|w: Seq<int>| w.len() <= 0 && #[trigger] is_walk(rels, s, t, w);
    }
}

/// Every node is zero hops from itself, and zero is its only hop distance to
/// itself: a query of an entity against itself answers 0.
pub proof fn lemma_self_distance(rels: Seq<(usize, usize)>, x: int, d: nat)
    ensures
        is_hop_distance(rels, x, x, 0),
        is_reachable(rels, x, x),
        is_hop_distance(rels, x, x, d) ==> d == 0,
{
    lemma_within_zero(rels, x, x);
    if d > 0 {
        lemma_within_monotone(rels, x, x, 0, (d - 1) as nat);
    }
}

/// A walk to `u` followed by a relationship out of `u` is one step longer.
pub proof fn lemma_step_forward(rels: Seq<(usize, usize)>, s: int, e: int, k: nat)
    requires
        0 <= e < rels.len(),
        reachable_within(rels, s, rels[e].0 as int, k),
    ensures
        reachable_within(rels, s, rels[e].1 as int, k + 1),
{
    let u = rels[e].0 as int;
    let w = choose|w: Seq<int>| w.len() <= k && #[trigger] is_walk(rels, s, u, w);
    let w2 = w.push(e);
    assert forall|i: int| 0 <= i < w2.len() - 1 implies rels[#[trigger] w2[i]].1 == rels[w2[i + 1]].0 by {
        if i < w.len() - 1 {
            assert(w2[i] == w[i] && w2[i + 1] == w[i + 1]);
        } else {
            assert(w2[i] == w.last());
        }
    }
    assert(is_walk(rels, s, rels[e].1 as int, w2));
}

/// A node first reached in `k + 1` steps is entered by a relationship from a
/// node reached within `k` steps.
pub proof fn lemma_step_back(rels: Seq<(usize, usize)>, s: int, v: int, k: nat) -> (e: int)
    requires
        reachable_within(rels, s, v, k + 1),
        !reachable_within(rels, s, v, k),
    ensures
        0 <= e < rels.len(),
        rels[e].1 == v,
        reachable_within(rels, s, rels[e].0 as int, k),
{
    let w = choose|w: Seq<int>| w.len() <= k + 1 && #[trigger] is_walk(rels, s, v, w);
    assert(w.len() > 0);
    let e = w.last();
    let w1 = w.drop_last();
    assert forall|i: int| 0 <= i < w1.len() - 1 implies rels[#[trigger] w1[i]].1 == rels[w1[i + 1]].0 by {
        assert(w1[i] == w[i] && w1[i + 1] == w[i + 1]);
    }
    if w1.len() > 0 {
        assert(w1.last() == w[w.len() - 2]);
        assert(w1[0] == w[0]);
    } else {
        assert(e == w[0]);
    }
    assert(is_walk(rels, s, rels[e].0 as int, w1));
    assert(w[w.len() - 1] == e);
    e
}

/// Once no node first becomes reachable at `k + 1` steps, no node ever does.
proof fn lemma_stable(rels: Seq<(usize, usize)>, s: int, n: nat, k: nat, j: nat)
    requires
        within_nodes(rels, n),
        forall|v: int|
            0 <= v < n && #[trigger] reachable_within(rels, s, v, k + 1) ==> reachable_within(
                rels,
                s,
                v,
                k,
            ),
    ensures
        forall|v: int|
            0 <= v < n && #[trigger] reachable_within(rels, s, v, j) ==> reachable_within(
                rels,
                s,
                v,
                k,
            ),
    decreases j,
{
    if j <= k {
        assert forall|v: int|
            0 <= v < n && #[trigger] reachable_within(rels, s, v, j) implies reachable_within(
                rels,
                s,
                v,
                k,
            ) by {
            lemma_within_monotone(rels, s, v, j, k);
        }
    } else {
        lemma_stable(rels, s, n, k, (j - 1) as nat);
        assert forall|v: int|
            0 <= v < n && #[trigger] reachable_within(rels, s, v, j) implies reachable_within(
                rels,
                s,
                v,
                k,
            ) by {
            if !reachable_within(rels, s, v, (j - 1) as nat) {
                let e = lemma_step_back(rels, s, v, (j - 1) as nat);
                assert(rels[e].0 < n);
                assert(reachable_within(rels, s, rels[e].0 as int, k));
                lemma_step_forward(rels, s, e, k);
            }
        }
    }
}

proof fn lemma_count_none_update(s: Seq<Option<usize>>, i: int, x: usize)
    requires
        0 <= i < s.len(),
        s[i] is None,
    ensures
        count_none(s.update(i, Some(x))) + 1 == count_none(s),
    decreases s.len(),
{
    if i == s.len() - 1 {
        assert(s.update(i, Some(x)).drop_last() =~= s.drop_last());
    } else {
        assert(s.update(i, Some(x)).drop_last() =~= s.drop_last().update(i, Some(x)));
        lemma_count_none_update(s.drop_last(), i, x);
    }
}

proof fn lemma_count_none_all(s: Seq<Option<usize>>)
    requires
        forall|i: int| 0 <= i < s.len() ==> s[i] is None,
    ensures
        count_none(s) == s.len(),
    decreases s.len(),
{
    if s.len() > 0 {
        lemma_count_none_all(s.drop_last());
    }
}

/// The length of a shortest directed walk from `s` to `t` over `rels`, found
/// by a breadth-first search that settles one distance level per pass over
/// the relationships; `None` when no walk exists.
pub fn hop_distance(rels: &Vec<(usize, usize)>, n: usize, s: usize, t: usize) -> (r: Option<usize>)
    requires
        s < n,
        t < n,
        within_nodes(rels@, n as nat),
    ensures
        r matches Some(d) ==> is_hop_distance(rels@, s as int, t as int, d as nat),
        r is None ==> !is_reachable(rels@, s as int, t as int),
{
    let mut dist: Vec<Option<usize>> = Vec::new();
    let mut j: usize = 0;
    while j < n
        invariant
            j <= n,
            dist.len() == j,
            forall|x: int| 0 <= x < j ==> dist@[x] is None,
        decreases n - j,
    {
        dist.push(None);
        j = j + 1;
    }
    proof {
        assert forall|v: int| 0 <= v < n implies settled(
            rels@,
            s as int,
            v,
            #[trigger] dist@.update(s as int, Some(0usize))[v],
            0,
        ) by {
            lemma_within_zero(rels@, s as int, v);
        }
        lemma_count_none_all(dist@);
        lemma_count_none_update(dist@, s as int, 0);
    }
    dist.set(s, Some(0));
    let mut k: usize = 0;
    loop
        invariant
            dist.len() == n,
            s < n,
            t < n,
            within_nodes(rels@, n as nat),
            forall|v: int| 0 <= v < n ==> settled(rels@, s as int, v, #[trigger] dist@[v], k as nat),
            k + count_none(dist@) + 1 <= n,
        decreases count_none(dist@),
    {
        if let Some(d) = dist[t] {
            return Some(d);
        }
        let ghost before = dist@;
        let mut changed = false;
        let mut e: usize = 0;
        while e < rels.len()
            invariant
                dist.len() == n,
                e <= rels.len(),
                k < n,
                within_nodes(rels@, n as nat),
                before.len() == n,
                forall|v: int| 0 <= v < n && before[v] is Some ==> #[trigger] dist@[v] == before[v],
                forall|v: int|
                    0 <= v < n && before[v] is None && #[trigger] dist@[v] is Some ==> {
                        &&& dist@[v] == Some((k + 1) as usize)
                        &&& exists|f: int|
                            0 <= f < e && rels@[f].1 == v && #[trigger] before[rels@[f].0 as int]
                                == Some(k)
                    },
                forall|f: int|
                    0 <= f < e && before[(#[trigger] rels@[f]).1 as int] is None && before[rels@[f].0 as int]
                        == Some(k) ==> dist@[rels@[f].1 as int] == Some((k + 1) as usize),
                count_none(dist@) <= count_none(before),
                changed ==> count_none(dist@) < count_none(before),
                !changed ==> dist@ == before,
            decreases rels.len() - e,
        {
            let (u, v) = rels[e];
            let from_level = match dist[u] {
                Some(du) => du == k,
                None => false,
            };
            if from_level && dist[v].is_none() {
                proof {
                    lemma_count_none_update(dist@, v as int, (k + 1) as usize);
                }
                dist.set(v, Some(k + 1));
                changed = true;
            }
            e = e + 1;
        }
        if !changed {
            proof {
                assert forall|v: int|
                    0 <= v < n && #[trigger] reachable_within(rels@, s as int, v, (k + 1) as nat)
                        implies reachable_within(rels@, s as int, v, k as nat) by {
                    assert(settled(rels@, s as int, v, dist@[v], k as nat));
                    if dist@[v] is Some {
                        let jv = dist@[v]->Some_0;
                        lemma_within_monotone(rels@, s as int, v, jv as nat, k as nat);
                    } else if !reachable_within(rels@, s as int, v, k as nat) {
                        let f = lemma_step_back(rels@, s as int, v, k as nat);
                        let u = rels@[f].0 as int;
                        assert(rels@[f] == rels@[f as int]);
                        assert(rels@[f].0 < n);
                        assert(settled(rels@, s as int, u, dist@[u], k as nat));
                        let ju = dist@[u]->Some_0;
                        lemma_step_forward(rels@, s as int, f, ju as nat);
                        if ju < k {
                            lemma_within_monotone(rels@, s as int, v, (ju + 1) as nat, k as nat);
                        }
                    }
                }
                lemma_stable(rels@, s as int, n as nat, k as nat, 0);
                assert forall|j: nat| !reachable_within(rels@, s as int, t as int, j) by {
                    lemma_stable(rels@, s as int, n as nat, k as nat, j);
                    assert(settled(rels@, s as int, t as int, dist@[t as int], k as nat));
                }
            }
            return None;
        }
        proof {
            assert forall|v: int| 0 <= v < n implies settled(
                rels@,
                s as int,
                v,
                #[trigger] dist@[v],
                (k + 1) as nat,
            ) by {
                assert(settled(rels@, s as int, v, before[v], k as nat));
                if before[v] is Some {
                    let jv = before[v]->Some_0;
                } else if dist@[v] is Some {
                    let f = choose|f: int|
                        0 <= f < e && rels@[f].1 == v && #[trigger] before[rels@[f].0 as int]
                            == Some(k);
                    let u = rels@[f].0 as int;
                    assert(rels@[f].0 < n);
                    assert(settled(rels@, s as int, u, before[u], k as nat));
                    assert(reachable_within(rels@, s as int, u, k as nat));
                    lemma_step_forward(rels@, s as int, f, k as nat);
                } else if reachable_within(rels@, s as int, v, (k + 1) as nat) {
                    let f = lemma_step_back(rels@, s as int, v, k as nat);
                    let u = rels@[f].0 as int;
                    assert(rels@[f].0 < n);
                    assert(settled(rels@, s as int, u, before[u], k as nat));
                    let ju = before[u]->Some_0;
                    lemma_step_forward(rels@, s as int, f, ju as nat);
                    if ju < k {
                        lemma_within_monotone(rels@, s as int, v, (ju + 1) as nat, k as nat);
                    }
                    assert(dist@[rels@[f].1 as int] == Some((k + 1) as usize));
                }
            }
        }
        k = k + 1;
    }
}

} // verus!
