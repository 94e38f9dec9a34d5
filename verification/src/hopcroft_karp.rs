//! Maximum bipartite matching by Hopcroft–Karp.
use vstd::prelude::*;

verus! {

/// Number of matched entries.
pub open spec fn count_some(s: Seq<Option<usize>>) -> nat
    decreases s.len(),
{
    if s.len() == 0 {
        0
    } else {
        count_some(s.drop_last()) + (if s.last() is Some { 1nat } else { 0nat })
    }
}

/// Every edge of the graph points into the right side.
pub open spec fn adj_in_range(adj: Seq<Vec<usize>>, right_size: nat) -> bool {
    forall|u: int, k: int| 0 <= u < adj.len() && 0 <= k < adj[u]@.len() ==> #[trigger] adj[u]@[k] < right_size
}

/// `m[u]` is the right vertex matched to the left vertex `u`: every pair is an
/// edge and no right vertex is used twice.
pub open spec fn valid_matching(adj: Seq<Vec<usize>>, right_size: nat, m: Seq<Option<usize>>) -> bool {
    &&& m.len() == adj.len()
    &&& forall|u: int| 0 <= u < m.len() && (#[trigger] m[u]) is Some ==> m[u]->0 < right_size && adj[u]@.contains(m[u]->0)
    &&& forall|u1: int, u2: int|
        0 <= u1 < m.len() && 0 <= u2 < m.len() && u1 != u2 && (#[trigger] m[u1]) is Some && (#[trigger] m[u2]) is Some
            ==> m[u1]->0 != m[u2]->0
}

/// The two directions of the matching agree, except that the right vertex
/// `skip` may still name a left vertex that has moved on.
pub open spec fn pairs_agree(
    adj: Seq<Vec<usize>>,
    right_size: nat,
    pu: Seq<Option<usize>>,
    pv: Seq<Option<usize>>,
    skip: int,
) -> bool {
    &&& pu.len() == adj.len()
    &&& pv.len() == right_size
    &&& forall|u: int|
        0 <= u < pu.len() && (#[trigger] pu[u]) is Some ==> {
            &&& pu[u]->0 < right_size
            &&& adj[u]@.contains(pu[u]->0)
            &&& pv[pu[u]->0 as int] == Some(u as usize)
        }
    &&& forall|v: int|
        0 <= v < pv.len() && v != skip && (#[trigger] pv[v]) is Some ==> {
            &&& pv[v]->0 < pu.len()
            &&& pu[pv[v]->0 as int] == Some(v as usize)
        }
}

pub open spec fn inf() -> usize {
    (usize::MAX / 4) as usize
}

pub open spec fn dist_ok(dist: Seq<usize>, n: nat) -> bool {
    dist.len() == n && forall|u: int| 0 <= u < dist.len() ==> #[trigger] dist[u] <= inf()
}

/// The `k`-th edge of the left vertex `u` leads, along the layers of `d`, to a
/// free right vertex: it ends at one, or at one matched to a left vertex of the
/// next layer from which such a path goes on.
pub open spec fn leads_free(adj: Seq<Vec<usize>>, pv: Seq<Option<usize>>, d: Seq<usize>, u: int, k: int) -> bool
    decreases inf() - d[u], adj[u]@.len() - k,
{
    if 0 <= u < adj.len() && d.len() == adj.len() && 0 <= k < adj[u]@.len() && d[u] < inf() {
        let v = adj[u]@[k] as int;
        if 0 <= v < pv.len() && pv[v] is None {
            true
        } else if 0 <= v < pv.len() && pv[v] is Some && 0 <= pv[v]->0 < adj.len() && d[pv[v]->0 as int] == d[u] + 1
            && leads_free(adj, pv, d, pv[v]->0 as int, 0) {
            true
        } else {
            leads_free(adj, pv, d, u, k + 1)
        }
    } else {
        false
    }
}

/// Some edge of `u` leads to a free right vertex.
pub open spec fn can_augment(adj: Seq<Vec<usize>>, pv: Seq<Option<usize>>, d: Seq<usize>, u: int) -> bool {
    leads_free(adj, pv, d, u, 0)
}

proof fn lemma_leads_earlier(adj: Seq<Vec<usize>>, pv: Seq<Option<usize>>, d: Seq<usize>, u: int, j: int, k: int)
    requires 0 <= j <= k, leads_free(adj, pv, d, u, k),
    ensures leads_free(adj, pv, d, u, j),
    decreases k - j,
{
    if j < k {
        lemma_leads_earlier(adj, pv, d, u, j + 1, k);
    }
}

/// Raising to `inf()` the layer of vertices that lead nowhere changes no other
/// vertex's paths.
proof fn lemma_leads_kept(
    adj: Seq<Vec<usize>>,
    pv: Seq<Option<usize>>,
    d: Seq<usize>,
    d2: Seq<usize>,
    u: int,
    k: int,
)
    requires
        d.len() == adj.len(), d2.len() == adj.len(),
        forall|x: int| 0 <= x < adj.len() && #[trigger] d2[x] != d[x] ==> d2[x] == inf() && !can_augment(adj, pv, d, x),
        leads_free(adj, pv, d, u, k),
    ensures leads_free(adj, pv, d2, u, k),
    decreases inf() - d[u], adj[u]@.len() - k,
{
    lemma_leads_earlier(adj, pv, d, u, 0, k);
    let v = adj[u]@[k] as int;
    if 0 <= v < pv.len() && pv[v] is None {
    } else if 0 <= v < pv.len() && pv[v] is Some && 0 <= pv[v]->0 < adj.len() && d[pv[v]->0 as int] == d[u] + 1
        && leads_free(adj, pv, d, pv[v]->0 as int, 0) {
        let u2 = pv[v]->0 as int;
        lemma_leads_earlier(adj, pv, d, u2, 0, 0);
        lemma_leads_kept(adj, pv, d, d2, u2, 0);
    } else {
        lemma_leads_kept(adj, pv, d, d2, u, k + 1);
    }
}

/// Giving a layer to vertices that had none keeps every path.
proof fn lemma_leads_grow(
    adj: Seq<Vec<usize>>,
    pv: Seq<Option<usize>>,
    d: Seq<usize>,
    d2: Seq<usize>,
    u: int,
    k: int,
)
    requires
        d.len() == adj.len(), d2.len() == adj.len(),
        forall|x: int| 0 <= x < adj.len() && #[trigger] d[x] < inf() ==> d2[x] == d[x] && d[x] + 1 < inf(),
        leads_free(adj, pv, d, u, k),
    ensures leads_free(adj, pv, d2, u, k),
    decreases inf() - d[u], adj[u]@.len() - k,
{
    let v = adj[u]@[k] as int;
    if 0 <= v < pv.len() && pv[v] is None {
    } else if 0 <= v < pv.len() && pv[v] is Some && 0 <= pv[v]->0 < adj.len() && d[pv[v]->0 as int] == d[u] + 1
        && leads_free(adj, pv, d, pv[v]->0 as int, 0) {
        lemma_leads_grow(adj, pv, d, d2, pv[v]->0 as int, 0);
    } else {
        lemma_leads_grow(adj, pv, d, d2, u, k + 1);
    }
}

/// Number of entries equal to `inf()`.
pub open spec fn count_inf(d: Seq<usize>) -> nat
    decreases d.len(),
{
    if d.len() == 0 {
        0
    } else {
        count_inf(d.drop_last()) + (if d.last() == inf() { 1nat } else { 0nat })
    }
}

proof fn lemma_count_inf_update(d: Seq<usize>, i: int, x: usize)
    requires 0 <= i < d.len(), d[i] == inf(), x != inf(),
    ensures count_inf(d.update(i, x)) + 1 == count_inf(d),
    decreases d.len(),
{
    let e = d.update(i, x);
    if i < d.len() - 1 {
        lemma_count_inf_update(d.drop_last(), i, x);
        assert(e.drop_last() == d.drop_last().update(i, x));
    } else {
        assert(e.drop_last() == d.drop_last());
    }
}

proof fn lemma_count_some_le(s: Seq<Option<usize>>)
    ensures count_some(s) <= s.len(),
    decreases s.len(),
{
    if s.len() > 0 {
        lemma_count_some_le(s.drop_last());
    }
}

proof fn lemma_count_some_full(s: Seq<Option<usize>>)
    requires count_some(s) == s.len(),
    ensures forall|u: int| 0 <= u < s.len() ==> (#[trigger] s[u]) is Some,
    decreases s.len(),
{
    if s.len() > 0 {
        lemma_count_some_le(s.drop_last());
        lemma_count_some_full(s.drop_last());
        assert forall|u: int| 0 <= u < s.len() implies (#[trigger] s[u]) is Some by {
            if u < s.len() - 1 {
                assert(s.drop_last()[u] == s[u]);
            }
        }
    }
}

/// Two matchings with the same matched left vertices, but possibly `u`, which
/// only the second one matches.
proof fn lemma_count_some_grow(a: Seq<Option<usize>>, b: Seq<Option<usize>>, u: int, grows: bool)
    requires
        a.len() == b.len(), 0 <= u < a.len(),
        forall|w: int| 0 <= w < a.len() && w != u ==> ((#[trigger] a[w]) is Some <==> b[w] is Some),
        grows ==> a[u] is None && b[u] is Some,
        !grows ==> (a[u] is Some <==> b[u] is Some),
    ensures count_some(b) == count_some(a) + (if grows { 1nat } else { 0nat }),
    decreases a.len(),
{
    if u < a.len() - 1 {
        lemma_count_some_grow(a.drop_last(), b.drop_last(), u, grows);
    } else {
        lemma_count_some_same(a.drop_last(), b.drop_last());
    }
}

proof fn lemma_count_some_same(a: Seq<Option<usize>>, b: Seq<Option<usize>>)
    requires
        a.len() == b.len(),
        forall|w: int| 0 <= w < a.len() ==> ((#[trigger] a[w]) is Some <==> b[w] is Some),
    ensures count_some(b) == count_some(a),
    decreases a.len(),
{
    if a.len() > 0 {
        lemma_count_some_same(a.drop_last(), b.drop_last());
    }
}

/// A consistent pair of directions is a valid matching.
proof fn lemma_agree_valid(adj: Seq<Vec<usize>>, right_size: nat, pu: Seq<Option<usize>>, pv: Seq<Option<usize>>)
    requires pairs_agree(adj, right_size, pu, pv, -1), adj.len() <= usize::MAX,
    ensures valid_matching(adj, right_size, pu),
{
    assert forall|u1: int, u2: int|
        0 <= u1 < pu.len() && 0 <= u2 < pu.len() && u1 != u2 && (#[trigger] pu[u1]) is Some && (#[trigger] pu[u2]) is Some
            implies pu[u1]->0 != pu[u2]->0 by {
        assert(pv[pu[u1]->0 as int] == Some(u1 as usize));
        assert(pv[pu[u2]->0 as int] == Some(u2 as usize));
    }
}

/// The layers that `bfs` leaves behind: every left vertex is in one or at
/// `inf()`, and the free ones make up layer 0.
pub open spec fn layered(adj: Seq<Vec<usize>>, pu: Seq<Option<usize>>, d: Seq<usize>) -> bool {
    &&& dist_ok(d, adj.len())
    &&& forall|w: int| 0 <= w < adj.len() ==> (#[trigger] d[w] == 0 <==> pu[w] is None)
}

/// No edge leaves the reached vertices (those below `inf()`) but to a matched
/// right vertex whose partner was reached too.
pub open spec fn reach_closed(adj: Seq<Vec<usize>>, pv: Seq<Option<usize>>, d: Seq<usize>) -> bool {
    forall|u: int, k: int|
        0 <= u < adj.len() && d[u] < inf() && 0 <= k < adj[u]@.len() ==> {
            &&& pv[#[trigger] adj[u]@[k] as int] is Some
            &&& d[pv[adj[u]@[k] as int]->0 as int] < inf()
        }
}

/// How `bfs` reached the left vertex `w` of a layer above 0: along the `k`-th
/// edge of `y`, whose right end is matched to `w`.
pub open spec fn parent_ok(adj: Seq<Vec<usize>>, pv: Seq<Option<usize>>, d: Seq<usize>, w: int, y: int, k: int) -> bool {
    &&& 0 <= y < adj.len()
    &&& 0 <= k < adj[y]@.len()
    &&& (adj[y]@[k] as int) < pv.len()
    &&& pv[adj[y]@[k] as int] == Some(w as usize)
    &&& d[y] + 1 == d[w]
}

proof fn lemma_to_root(
    adj: Seq<Vec<usize>>,
    pu: Seq<Option<usize>>,
    pv: Seq<Option<usize>>,
    d: Seq<usize>,
    par: Seq<(int, int)>,
    w: int,
)
    requires
        d.len() == adj.len(), par.len() == adj.len(), 0 <= w < adj.len(), d[w] < inf(), adj.len() < inf(),
        forall|x: int| 0 <= x < adj.len() && #[trigger] d[x] == 0 ==> pu[x] is None,
        forall|x: int| 0 <= x < adj.len() && 0 < #[trigger] d[x] < inf() ==> parent_ok(adj, pv, d, x, par[x].0, par[x].1),
        can_augment(adj, pv, d, w),
    ensures exists|r: int| 0 <= r < adj.len() && pu[r] is None && #[trigger] can_augment(adj, pv, d, r),
    decreases d[w],
{
    if d[w] == 0 {
        assert(pu[w] is None);
    } else {
        let (y, k) = par[w];
        assert(parent_ok(adj, pv, d, w, y, k));
        assert(leads_free(adj, pv, d, y, k));
        lemma_leads_earlier(adj, pv, d, y, 0, k);
        lemma_to_root(adj, pu, pv, d, par, y);
    }
}

/// Breadth-first search from the free left vertices along alternating edges,
/// leaving each reached vertex's layer in `dist`. Whether some reached vertex
/// has an edge to a free right vertex; when so, some free left vertex can
/// augment along the layers, and when not, the reached vertices are closed.
fn bfs(left_adj: &[Vec<usize>], pair_u: &Vec<Option<usize>>, pair_v: &Vec<Option<usize>>, dist: &mut Vec<usize>) -> (found: bool)
    requires
        left_adj@.len() < inf(),
        pair_u@.len() == left_adj@.len(),
        adj_in_range(left_adj@, pair_v@.len() as nat),
        forall|v: int| 0 <= v < pair_v@.len() && (#[trigger] pair_v@[v]) is Some ==> pair_v@[v]->0 < left_adj@.len(),
        old(dist)@.len() == left_adj@.len(),
    ensures
        dist_ok(final(dist)@, left_adj@.len() as nat),
        layered(left_adj@, pair_u@, final(dist)@),
        found ==> exists|r: int| 0 <= r < left_adj@.len() && pair_u@[r] is None && #[trigger] can_augment(left_adj@, pair_v@, final(dist)@, r),
        !found ==> reach_closed(left_adj@, pair_v@, final(dist)@),
{
    let n = left_adj.len();
    let inf_val: usize = usize::MAX / 4;
    let mut q: Vec<usize> = Vec::new();
    let ghost mut par: Seq<(int, int)> = Seq::new(n as nat, |i: int| (0int, 0int));
    for u in 0..n
        invariant
            n == left_adj@.len(), n < inf(), dist@.len() == n, inf_val == inf(),
            pair_u@.len() == n,
            forall|w: int| 0 <= w < u ==> #[trigger] dist@[w] <= inf(),
            forall|w: int| 0 <= w < u ==> (#[trigger] dist@[w] == 0 <==> pair_u@[w] is None),
            forall|w: int| 0 <= w < u ==> (#[trigger] dist@[w] == 0 || dist@[w] == inf()),
            forall|w: int| 0 <= w < u && #[trigger] dist@[w] < inf() ==> q@.contains(w as usize),
            forall|k: int| 0 <= k < q@.len() ==> #[trigger] q@[k] < u && dist@[q@[k] as int] == 0,
            q@.len() + count_inf(dist@.take(u as int)) == u,
    {
        let ghost prev = dist@;
        let ghost q_prev = q@;
        if pair_u[u].is_none() {
            dist.set(u, 0);
            q.push(u);
        } else {
            dist.set(u, inf_val);
        }
        proof {
            assert(dist@.take(u + 1).drop_last() == prev.take(u as int));
            assert(dist@.take(u + 1).last() == dist@[u as int]);
            assert forall|w: int| 0 <= w < u + 1 && #[trigger] dist@[w] < inf() implies q@.contains(w as usize) by {
                if w < u {
                    assert(prev[w] == dist@[w]);
                    assert(q_prev.contains(w as usize));
                    let j = choose|j: int| 0 <= j < q_prev.len() && q_prev[j] == w as usize;
                    assert(q@[j] == w as usize);
                } else {
                    assert(q@[q@.len() - 1] == u);
                }
            }
        }
    }
    assert(dist@.take(n as int) == dist@);
    let mut head: usize = 0;
    let mut found = false;
    let ghost mut fw: int = 0;
    let ghost pv = pair_v@;
    let ghost adjs = left_adj@;
    while head < q.len()
        invariant
            n == left_adj@.len(), n < inf(), dist@.len() == n, inf_val == inf(),
            adjs == left_adj@, pv == pair_v@, pair_u@.len() == n, par.len() == n,
            adj_in_range(left_adj@, pair_v@.len() as nat),
            forall|v: int| 0 <= v < pv.len() && (#[trigger] pv[v]) is Some ==> pv[v]->0 < n,
            head <= q@.len(),
            q@.len() + count_inf(dist@) == n,
            forall|w: int| 0 <= w < n ==> #[trigger] dist@[w] <= inf(),
            forall|w: int| 0 <= w < n ==> (#[trigger] dist@[w] == 0 <==> pair_u@[w] is None),
            forall|w: int| 0 <= w < n && 0 < #[trigger] dist@[w] < inf() ==> parent_ok(adjs, pv, dist@, w, par[w].0, par[w].1),
            forall|w: int| 0 <= w < n && #[trigger] dist@[w] < inf() ==> q@.contains(w as usize),
            forall|k: int| 0 <= k < q@.len() ==> #[trigger] q@[k] < n && dist@[q@[k] as int] <= k,
            forall|j: int, k: int| 0 <= j < head && 0 <= k < adjs[q@[j] as int]@.len() ==> {
                &&& (#[trigger] pv[adjs[q@[j] as int]@[k] as int] is Some ==> dist@[pv[adjs[q@[j] as int]@[k] as int]->0 as int] < inf())
                &&& (!found ==> pv[adjs[q@[j] as int]@[k] as int] is Some)
            },
            found ==> 0 <= fw < n && dist@[fw] < inf() && can_augment(adjs, pv, dist@, fw),
        decreases 2 * n - q@.len() - head,
    {
        let u = q[head];
        head = head + 1;
        let ghost q0 = q@.len();
        let adj = &left_adj[u];
        let mut k: usize = 0;
        while k < adj.len()
            invariant
                n == left_adj@.len(), n < inf(), dist@.len() == n, inf_val == inf(),
                adjs == left_adj@, pv == pair_v@, pair_u@.len() == n, par.len() == n,
                adj_in_range(left_adj@, pair_v@.len() as nat),
                forall|v: int| 0 <= v < pv.len() && (#[trigger] pv[v]) is Some ==> pv[v]->0 < n,
                u < n, dist@[u as int] < head, adj@ == left_adj@[u as int]@,
                1 <= head <= q@.len(), q0 <= q@.len(), q@[head - 1] == u,
                q@.len() + count_inf(dist@) == n,
                forall|w: int| 0 <= w < n ==> #[trigger] dist@[w] <= inf(),
                forall|w: int| 0 <= w < n ==> (#[trigger] dist@[w] == 0 <==> pair_u@[w] is None),
                forall|w: int| 0 <= w < n && 0 < #[trigger] dist@[w] < inf() ==> parent_ok(adjs, pv, dist@, w, par[w].0, par[w].1),
                forall|w: int| 0 <= w < n && #[trigger] dist@[w] < inf() ==> q@.contains(w as usize),
                forall|k: int| 0 <= k < q@.len() ==> #[trigger] q@[k] < n && dist@[q@[k] as int] <= k,
                forall|j: int, k: int| 0 <= j < head - 1 && 0 <= k < adjs[q@[j] as int]@.len() ==> {
                    &&& (#[trigger] pv[adjs[q@[j] as int]@[k] as int] is Some ==> dist@[pv[adjs[q@[j] as int]@[k] as int]->0 as int] < inf())
                    &&& (!found ==> pv[adjs[q@[j] as int]@[k] as int] is Some)
                },
                forall|j: int| 0 <= j < k ==> {
                    &&& (#[trigger] pv[adj@[j] as int] is Some ==> dist@[pv[adj@[j] as int]->0 as int] < inf())
                    &&& (!found ==> pv[adj@[j] as int] is Some)
                },
                found ==> 0 <= fw < n && dist@[fw] < inf() && can_augment(adjs, pv, dist@, fw),
            decreases adj@.len() - k,
        {
            let v = adj[k];
            proof {
                assert(left_adj@[u as int]@[k as int] < pair_v@.len());
            }
            match pair_v[v] {
                Some(u2) => {
                    if u2 < n && dist[u2] == inf_val {
                        let nd = dist[u] + 1;
                        let ghost d_before = dist@;
                        let ghost q_prev = q@;
                        proof {
                            lemma_count_inf_update(dist@, u2 as int, nd);
                        }
                        dist.set(u2, nd);
                        q.push(u2);
                        proof {
                            par = par.update(u2 as int, (u as int, k as int));
                            assert(parent_ok(adjs, pv, dist@, u2 as int, u as int, k as int));
                            assert forall|w: int| 0 <= w < n && 0 < #[trigger] dist@[w] < inf() implies parent_ok(
                                adjs,
                                pv,
                                dist@,
                                w,
                                par[w].0,
                                par[w].1,
                            ) by {
                                if w != u2 {
                                    assert(d_before[w] == dist@[w]);
                                    assert(parent_ok(adjs, pv, d_before, w, par[w].0, par[w].1));
                                    assert(d_before[par[w].0] < inf());
                                    assert(par[w].0 != u2);
                                }
                            }
                            assert forall|w: int| 0 <= w < n && #[trigger] dist@[w] < inf() implies q@.contains(w as usize) by {
                                if w != u2 {
                                    assert(d_before[w] == dist@[w]);
                                    assert(q_prev.contains(w as usize));
                                    let j = choose|j: int| 0 <= j < q_prev.len() && q_prev[j] == w as usize;
                                    assert(q@[j] == w as usize);
                                } else {
                                    assert(q@[q@.len() - 1] == u2);
                                }
                            }
                            if found {
                                assert forall|x: int| 0 <= x < n && #[trigger] d_before[x] < inf() implies dist@[x] == d_before[x]
                                    && d_before[x] + 1 < inf() by {
                                    assert(q_prev.contains(x as usize));
                                    let j = choose|j: int| 0 <= j < q_prev.len() && q_prev[j] == x as usize;
                                    assert(d_before[q_prev[j] as int] <= j);
                                }
                                lemma_leads_grow(adjs, pv, d_before, dist@, fw, 0);
                            }
                        }
                    }
                    proof {
                        assert(pv[v as int] is Some);
                    }
                },
                None => {
                    proof {
                        if !found {
                            fw = u as int;
                            assert(leads_free(adjs, pv, dist@, u as int, k as int));
                            lemma_leads_earlier(adjs, pv, dist@, u as int, 0, k as int);
                        }
                    }
                    found = true;
                },
            }
            k = k + 1;
        }
    }
    proof {
        if found {
            lemma_to_root(adjs, pair_u@, pv, dist@, par, fw);
        } else {
            assert forall|u: int, k: int|
                0 <= u < adjs.len() && dist@[u] < inf() && 0 <= k < adjs[u]@.len() implies {
                    &&& pv[#[trigger] adjs[u]@[k] as int] is Some
                    &&& dist@[pv[adjs[u]@[k] as int]->0 as int] < inf()
                } by {
                assert(q@.contains(u as usize));
                let j = choose|j: int| 0 <= j < q@.len() && q@[j] == u as usize;
            }
        }
    }
    found
}

} // verus!

verus! {

/// The right vertex that `u` was matched to, or -1.
pub open spec fn partner_or_none(pu: Seq<Option<usize>>, u: int) -> int {
    if pu[u] is Some {
        pu[u]->0 as int
    } else {
        -1
    }
}

/// Searches an augmenting path from `u` along the layers of `dist`.
fn dfs(
    u: usize,
    left_adj: &[Vec<usize>],
    pair_u: &mut Vec<Option<usize>>,
    pair_v: &mut Vec<Option<usize>>,
    dist: &mut Vec<usize>,
) -> (found: bool)
    requires
        u < left_adj@.len(), left_adj@.len() < inf(),
        adj_in_range(left_adj@, old(pair_v)@.len() as nat),
        dist_ok(old(dist)@, left_adj@.len() as nat),
        pairs_agree(left_adj@, old(pair_v)@.len() as nat, old(pair_u)@, old(pair_v)@, -1),
    ensures
        final(pair_u)@.len() == old(pair_u)@.len(),
        final(pair_v)@.len() == old(pair_v)@.len(),
        dist_ok(final(dist)@, left_adj@.len() as nat),
        // Only `u` and vertices of deeper layers change their distance, and only
        // to `inf()`; on failure, only vertices from which no path leads on.
        forall|x: int| 0 <= x < left_adj@.len() && #[trigger] final(dist)@[x] != old(dist)@[x] ==>
            (x == u || old(dist)@[x] > old(dist)@[u as int]) && final(dist)@[x] == inf(),
        !found ==> final(pair_u)@ == old(pair_u)@ && final(pair_v)@ == old(pair_v)@,
        !found ==> !can_augment(left_adj@, old(pair_v)@, old(dist)@, u as int),
        !found ==> forall|x: int| 0 <= x < left_adj@.len() && #[trigger] final(dist)@[x] != old(dist)@[x] ==>
            !can_augment(left_adj@, old(pair_v)@, old(dist)@, x),
        found ==> {
            let skip = partner_or_none(old(pair_u)@, u as int);
            &&& pairs_agree(left_adj@, old(pair_v)@.len() as nat, final(pair_u)@, final(pair_v)@, skip)
            &&& final(pair_u)@[u as int] is Some
            &&& final(pair_u)@[u as int]->0 != skip
            &&& (skip >= 0 ==> final(pair_v)@[skip] == Some(u))
            &&& forall|w: int| 0 <= w < left_adj@.len() && w != u ==> ((#[trigger] final(pair_u)@[w]) is Some <==> old(pair_u)@[w] is Some)
            &&& forall|w: int| 0 <= w < left_adj@.len() && #[trigger] final(pair_u)@[w] != old(pair_u)@[w] ==>
                w == u || old(dist)@[w] > old(dist)@[u as int]
            &&& forall|v: int| 0 <= v < old(pair_v)@.len() && #[trigger] final(pair_v)@[v] != old(pair_v)@[v] ==> {
                &&& (old(pair_v)@[v] is None || old(dist)@[old(pair_v)@[v]->0 as int] > old(dist)@[u as int])
                &&& final(pair_v)@[v] is Some
                &&& (final(pair_v)@[v]->0 == u || old(dist)@[final(pair_v)@[v]->0 as int] > old(dist)@[u as int])
            }
        },
    decreases inf() - old(dist)@[u as int],
{
    let ghost pu0 = pair_u@;
    let ghost pv0 = pair_v@;
    let ghost d0 = dist@;
    let ghost n = left_adj@.len();
    let ghost rs = pair_v@.len() as nat;
    let _right_len = pair_v.len();
    let adj = &left_adj[u];
    let mut k: usize = 0;
    while k < adj.len()
        invariant
            u < n, n == left_adj@.len(), n < inf(), rs == pair_v@.len(), rs <= usize::MAX,
            adj@ == left_adj@[u as int]@,
            adj_in_range(left_adj@, rs),
            pair_u@ == pu0, pair_v@ == pv0,
            pu0 == old(pair_u)@, pv0 == old(pair_v)@, d0 == old(dist)@,
            pairs_agree(left_adj@, rs, pu0, pv0, -1),
            dist_ok(dist@, n), d0.len() == n,
            dist@[u as int] == d0[u as int],
            forall|x: int| 0 <= x < n && #[trigger] dist@[x] != d0[x] ==> d0[x] > d0[u as int] && dist@[x] == inf(),
            forall|x: int| 0 <= x < n && #[trigger] dist@[x] != d0[x] ==> !can_augment(left_adj@, pv0, d0, x),
            can_augment(left_adj@, pv0, d0, u as int) ==> leads_free(left_adj@, pv0, d0, u as int, k as int),
        decreases adj@.len() - k,
    {
        let v = adj[k];
        proof {
            assert(left_adj@[u as int]@[k as int] < rs);
            assert(adj@.contains(v));
        }
        match pair_v[v] {
            Some(u2) => {
                proof {
                    assert(pv0[v as int] is Some);
                }
                let du = dist[u];
                if dist[u2] == du + 1 {
                    let ghost dc = dist@;
                    let ghost puc = pair_u@;
                    let ghost pvc = pair_v@;
                    proof {
                        assert(inf() - dist@[u2 as int] < inf() - d0[u as int]);
                        assert(inf() - dist@[u2 as int] >= 0);
                    }
                    let sub = dfs(u2, left_adj, pair_u, pair_v, dist);
                    if !sub {
                        proof {
                            if can_augment(left_adj@, pv0, d0, u2 as int) {
                                lemma_leads_kept(left_adj@, pv0, d0, dc, u2 as int, 0);
                            }
                            assert forall|x: int| 0 <= x < n && #[trigger] dist@[x] != d0[x] implies !can_augment(left_adj@, pv0, d0, x) by {
                                if dc[x] == d0[x] && can_augment(left_adj@, pv0, d0, x) {
                                    lemma_leads_kept(left_adj@, pv0, d0, dc, x, 0);
                                }
                            }
                            if can_augment(left_adj@, pv0, d0, u as int) {
                                assert(leads_free(left_adj@, pv0, d0, u as int, k as int + 1));
                            }
                        }
                    }
                    if sub {
                        proof {
                            assert(u2 != u);
                            assert(pu0[u2 as int] == Some(v));
                            assert(partner_or_none(puc, u2 as int) == v);
                        }
                        let ghost pu1 = pair_u@;
                        let ghost pv1 = pair_v@;
                        pair_u.set(u, Some(v));
                        pair_v.set(v, Some(u));
                        proof {
                            assert(pu1 == pair_u@.update(u as int, puc[u as int]));
                            assert(pv1 == pair_v@.update(v as int, pvc[v as int]));
                            lemma_frame_success(left_adj@, rs, pu0, pv0, d0, puc, pvc, dc, pair_u@, pair_v@, u as int, v as int, u2 as int, pu1, pv1);
                        }
                        return true;
                    }
                } else {
                    proof {
                        if can_augment(left_adj@, pv0, d0, u as int) {
                            if d0[u2 as int] == d0[u as int] + 1 {
                                assert(dist@[u2 as int] != d0[u2 as int]);
                            }
                            assert(leads_free(left_adj@, pv0, d0, u as int, k as int + 1));
                        }
                    }
                }
            },
            None => {
                pair_u.set(u, Some(v));
                pair_v.set(v, Some(u));
                proof {
                    lemma_frame_free(left_adj@, rs, pu0, pv0, d0, pair_u@, pair_v@, u as int, v as int);
                }
                return true;
            },
        }
        k = k + 1;
    }
    let ghost d1 = dist@;
    let inf_val: usize = usize::MAX / 4;
    dist.set(u, inf_val);
    proof {
        assert(!leads_free(left_adj@, pv0, d0, u as int, k as int));
        assert forall|x: int| 0 <= x < n && #[trigger] dist@[x] != d0[x] implies !can_augment(left_adj@, pv0, d0, x) by {
            if x != u {
                assert(d1[x] == dist@[x]);
            }
        }
    }
    false
}

proof fn lemma_frame_free(
    adj: Seq<Vec<usize>>,
    rs: nat,
    pu0: Seq<Option<usize>>,
    pv0: Seq<Option<usize>>,
    d0: Seq<usize>,
    pu: Seq<Option<usize>>,
    pv: Seq<Option<usize>>,
    u: int,
    v: int,
)
    requires
        0 <= u < adj.len(), 0 <= v < rs, adj.len() < inf(), d0.len() == adj.len(), rs <= usize::MAX,
        adj[u]@.contains(v as usize),
        pairs_agree(adj, rs, pu0, pv0, -1),
        pv0[v] is None,
        pu == pu0.update(u, Some(v as usize)),
        pv == pv0.update(v, Some(u as usize)),
    ensures ({
        let skip = partner_or_none(pu0, u);
        &&& pairs_agree(adj, rs, pu, pv, skip)
        &&& pu[u] is Some
        &&& pu[u]->0 != skip
        &&& (skip >= 0 ==> pv[skip] == Some(u as usize))
        &&& forall|w: int| 0 <= w < adj.len() && w != u ==> ((#[trigger] pu[w]) is Some <==> pu0[w] is Some)
        &&& forall|w: int| 0 <= w < adj.len() && #[trigger] pu[w] != pu0[w] ==> w == u || d0[w] > d0[u]
        &&& forall|x: int| 0 <= x < rs && #[trigger] pv[x] != pv0[x] ==> {
            &&& (pv0[x] is None || d0[pv0[x]->0 as int] > d0[u])
            &&& pv[x] is Some
            &&& (pv[x]->0 == u || d0[pv[x]->0 as int] > d0[u])
        }
    }),
{
    let skip = partner_or_none(pu0, u);
    if pu0[u] is Some {
        assert(pv0[pu0[u]->0 as int] == Some(u as usize));
    }
    assert forall|w: int| 0 <= w < pu.len() && (#[trigger] pu[w]) is Some implies {
        &&& pu[w]->0 < rs
        &&& adj[w]@.contains(pu[w]->0)
        &&& pv[pu[w]->0 as int] == Some(w as usize)
    } by {
        if w != u {
            assert(pu0[w] is Some);
            assert(pv0[pu0[w]->0 as int] == Some(w as usize));
        }
    }
    assert forall|x: int| 0 <= x < pv.len() && x != skip && (#[trigger] pv[x]) is Some implies {
        &&& pv[x]->0 < pu.len()
        &&& pu[pv[x]->0 as int] == Some(x as usize)
    } by {
        if x != v {
            assert(pv0[x] is Some);
            let w = pv0[x]->0 as int;
            assert(pu0[w] == Some(x as usize));
            if w == u {
                assert(skip == x);
            }
        }
    }
}

proof fn lemma_frame_success(
    adj: Seq<Vec<usize>>,
    rs: nat,
    pu0: Seq<Option<usize>>,
    pv0: Seq<Option<usize>>,
    d0: Seq<usize>,
    puc: Seq<Option<usize>>,
    pvc: Seq<Option<usize>>,
    dc: Seq<usize>,
    pu: Seq<Option<usize>>,
    pv: Seq<Option<usize>>,
    u: int,
    v: int,
    u2: int,
    pu1: Seq<Option<usize>>,
    pv1: Seq<Option<usize>>,
)
    requires
        pu1 == pu.update(u, puc[u]),
        pv1 == pv.update(v, pvc[v]),
        pu.len() == pu0.len(), pv.len() == pv0.len(),
        0 <= u < adj.len(), 0 <= v < rs, adj.len() < inf(), d0.len() == adj.len(), dc.len() == adj.len(), rs <= usize::MAX,
        adj[u]@.contains(v as usize),
        pairs_agree(adj, rs, pu0, pv0, -1),
        puc == pu0, pvc == pv0,
        pv0[v] == Some(u2 as usize),
        0 <= u2 < adj.len(), u2 != u,
        dc[u] == d0[u],
        dc[u2] == d0[u] + 1,
        forall|x: int| 0 <= x < adj.len() && #[trigger] dc[x] != d0[x] ==> d0[x] > d0[u] && dc[x] == inf(),
        // what the inner search returned
        pairs_agree(adj, rs, pu1, pv1, v),
        pu1[u2] is Some,
        pu1[u2]->0 != v,
        pv1[v] == Some(u2 as usize),
        forall|w: int| 0 <= w < adj.len() && w != u2 ==> ((#[trigger] pu1[w]) is Some <==> puc[w] is Some),
        forall|w: int| 0 <= w < adj.len() && #[trigger] pu1[w] != puc[w] ==> w == u2 || dc[w] > dc[u2],
        forall|x: int| 0 <= x < rs && #[trigger] pv1[x] != pvc[x] ==> {
            &&& (pvc[x] is None || dc[pvc[x]->0 as int] > dc[u2])
            &&& pv1[x] is Some
            &&& (pv1[x]->0 == u2 || dc[pv1[x]->0 as int] > dc[u2])
        },
        pu[u] == Some(v as usize),
        pv[v] == Some(u as usize),
    ensures ({
        let skip = partner_or_none(pu0, u);
        &&& pairs_agree(adj, rs, pu, pv, skip)
        &&& pu[u] is Some
        &&& pu[u]->0 != skip
        &&& (skip >= 0 ==> pv[skip] == Some(u as usize))
        &&& forall|w: int| 0 <= w < adj.len() && w != u ==> ((#[trigger] pu[w]) is Some <==> pu0[w] is Some)
        &&& forall|w: int| 0 <= w < adj.len() && #[trigger] pu[w] != pu0[w] ==> w == u || d0[w] > d0[u]
        &&& forall|x: int| 0 <= x < rs && #[trigger] pv[x] != pv0[x] ==> {
            &&& (pv0[x] is None || d0[pv0[x]->0 as int] > d0[u])
            &&& pv[x] is Some
            &&& (pv[x]->0 == u || d0[pv[x]->0 as int] > d0[u])
        }
    }),
{
    let skip = partner_or_none(pu0, u);
    assert(pu0[u2] == Some(v as usize));
    // facts about the distances at entry of the child
    assert forall|x: int| 0 <= x < adj.len() && dc[x] > dc[u2] implies d0[x] > d0[u] by {
        if dc[x] != d0[x] {
        }
    }
    // u's own row was left alone by the child
    assert(pu1[u] == pu0[u]) by {
        if pu1[u] != puc[u] {
            assert(dc[u] > dc[u2]);
        }
    }
    if pu0[u] is Some {
        let v0 = pu0[u]->0 as int;
        assert(pv0[v0] == Some(u as usize));
        assert(v0 != v);
        assert(pv1[v0] == pvc[v0]) by {
            if pv1[v0] != pvc[v0] {
                assert(dc[pvc[v0]->0 as int] > dc[u2]);
            }
        }
        assert(pv1[v0] == pv[v0]);
        assert(pv[v0] == Some(u as usize));
    }
    assert forall|w: int| 0 <= w < pu.len() && (#[trigger] pu[w]) is Some implies {
        &&& pu[w]->0 < rs
        &&& adj[w]@.contains(pu[w]->0)
        &&& pv[pu[w]->0 as int] == Some(w as usize)
    } by {
        if w != u {
            assert(pu1[w] == pu[w]);
            let x = pu[w]->0 as int;
            assert(pv1[x] == Some(w as usize));
            if x == v {
                assert(pv1[v] == Some(u2 as usize));
                assert(w == u2);
                assert(pu1[u2]->0 != v);
            }
        }
    }
    assert forall|x: int| 0 <= x < pv.len() && x != skip && (#[trigger] pv[x]) is Some implies {
        &&& pv[x]->0 < pu.len()
        &&& pu[pv[x]->0 as int] == Some(x as usize)
    } by {
        if x != v {
            assert(pv1[x] == pv[x]);
            let w = pv[x]->0 as int;
            if w == u {
                // u only ever named its own old partner
                if pv1[x] != pvc[x] {
                    assert(dc[u] > dc[u2]);
                }
                assert(pv0[x] == Some(u as usize));
                assert(pu0[u] == Some(x as usize));
            } else {
                assert(pu1[w] == Some(x as usize));
            }
        }
    }
    assert forall|w: int| 0 <= w < adj.len() && #[trigger] pu[w] != pu0[w] implies w == u || d0[w] > d0[u] by {
        if w != u {
            assert(pu1[w] == pu[w]);
            if w != u2 {
                assert(dc[w] > dc[u2]);
            }
        }
    }
    assert forall|x: int| 0 <= x < rs && #[trigger] pv[x] != pv0[x] implies {
        &&& (pv0[x] is None || d0[pv0[x]->0 as int] > d0[u])
        &&& pv[x] is Some
        &&& (pv[x]->0 == u || d0[pv[x]->0 as int] > d0[u])
    } by {
        if x != v {
            assert(pv1[x] == pv[x]);
            if pv1[x]->0 != u2 {
                assert(dc[pv1[x]->0 as int] > dc[u2]);
            }
        }
    }
    assert forall|w: int| 0 <= w < adj.len() && w != u implies ((#[trigger] pu[w]) is Some <==> pu0[w] is Some) by {
        assert(pu1[w] == pu[w]);
    }
}

/// Size of a maximum matching of the bipartite graph whose left vertex `u`
/// has the right neighbours `left_adj[u]`.
pub fn hopcroft_karp_size(left_adj: &[Vec<usize>], right_size: usize) -> (size: usize)
    requires
        left_adj@.len() < inf(),
        adj_in_range(left_adj@, right_size as nat),
    ensures
        size <= left_adj@.len(),
        exists|m: Seq<Option<usize>>| valid_matching(left_adj@, right_size as nat, m) && count_some(m) == size,
        forall|m: Seq<Option<usize>>| valid_matching(left_adj@, right_size as nat, m) ==> count_some(m) <= size,
{
    let n_left = left_adj.len();
    let mut pair_u: Vec<Option<usize>> = Vec::new();
    for i in 0..n_left
        invariant pair_u@.len() == i, forall|w: int| 0 <= w < i ==> #[trigger] pair_u@[w] is None,
    {
        pair_u.push(None);
    }
    let mut pair_v: Vec<Option<usize>> = Vec::new();
    for i in 0..right_size
        invariant pair_v@.len() == i, forall|w: int| 0 <= w < i ==> #[trigger] pair_v@[w] is None,
    {
        pair_v.push(None);
    }
    let mut dist: Vec<usize> = Vec::new();
    for i in 0..n_left
        invariant dist@.len() == i,
    {
        dist.push(0);
    }
    proof {
        assert(count_some(pair_u@) == 0) by {
            lemma_count_some_same(Seq::new(n_left as nat, |i: int| None::<usize>), pair_u@);
            lemma_count_none(n_left as nat);
        }
    }
    let mut matching: usize = 0;
    loop
        invariant
            n_left == left_adj@.len(), n_left < inf(),
            adj_in_range(left_adj@, right_size as nat),
            pair_u@.len() == n_left, pair_v@.len() == right_size, dist@.len() == n_left,
            pairs_agree(left_adj@, right_size as nat, pair_u@, pair_v@, -1),
            matching == count_some(pair_u@),
        ensures
            layered(left_adj@, pair_u@, dist@),
            reach_closed(left_adj@, pair_v@, dist@),
        decreases n_left - matching,
    {
        proof {
            lemma_count_some_le(pair_u@);
        }
        if !bfs(left_adj, &pair_u, &pair_v, &mut dist) {
            break;
        }
        let ghost pu_b = pair_u@;
        let ghost pv_b = pair_v@;
        let ghost d_b = dist@;
        let ghost r = choose|r: int| 0 <= r < left_adj@.len() && pu_b[r] is None && #[trigger] can_augment(left_adj@, pv_b, d_b, r);
        let before = matching;
        for u in 0..n_left
            invariant
                n_left == left_adj@.len(), n_left < inf(),
                adj_in_range(left_adj@, right_size as nat),
                pair_u@.len() == n_left, pair_v@.len() == right_size,
                dist_ok(dist@, n_left as nat),
                pairs_agree(left_adj@, right_size as nat, pair_u@, pair_v@, -1),
                matching == count_some(pair_u@),
                before <= matching,
                d_b.len() == n_left,
                0 <= r < n_left, pu_b[r] is None, can_augment(left_adj@, pv_b, d_b, r),
                matching == before ==> pair_u@ == pu_b && pair_v@ == pv_b,
                matching == before ==> forall|x: int| 0 <= x < n_left && #[trigger] dist@[x] != d_b[x] ==> dist@[x] == inf()
                    && !can_augment(left_adj@, pv_b, d_b, x),
                matching == before ==> forall|w: int| 0 <= w < u && pu_b[w] is None ==> !#[trigger] can_augment(left_adj@, pv_b, d_b, w),
        {
            proof {
                lemma_count_some_le(pair_u@);
            }
            if pair_u[u].is_none() {
                let ghost pu_before = pair_u@;
                let ghost dc = dist@;
                if dfs(u, left_adj, &mut pair_u, &mut pair_v, &mut dist) {
                    proof {
                        lemma_count_some_grow(pu_before, pair_u@, u as int, true);
                        lemma_count_some_le(pair_u@);
                    }
                    matching = matching + 1;
                } else {
                    proof {
                        if matching == before {
                            if can_augment(left_adj@, pv_b, d_b, u as int) {
                                lemma_leads_kept(left_adj@, pv_b, d_b, dc, u as int, 0);
                            }
                            assert forall|x: int| 0 <= x < n_left && #[trigger] dist@[x] != d_b[x] implies dist@[x] == inf()
                                && !can_augment(left_adj@, pv_b, d_b, x) by {
                                if dc[x] == d_b[x] && can_augment(left_adj@, pv_b, d_b, x) {
                                    lemma_leads_kept(left_adj@, pv_b, d_b, dc, x, 0);
                                }
                            }
                        }
                    }
                }
            }
        }
        proof {
            lemma_count_some_le(pair_u@);
            if matching == before {
                assert(!can_augment(left_adj@, pv_b, d_b, r));
            }
        }
    }
    proof {
        lemma_count_some_le(pair_u@);
        lemma_agree_valid(left_adj@, right_size as nat, pair_u@, pair_v@);
        assert forall|m: Seq<Option<usize>>| valid_matching(left_adj@, right_size as nat, m) implies count_some(m) <= count_some(
            pair_u@,
        ) by {
            lemma_no_larger_matching(left_adj@, right_size as nat, pair_u@, pair_v@, dist@, m);
        }
    }
    matching
}

/// The left vertices that `s` matches.
pub open spec fn matched_set(s: Seq<Option<usize>>) -> Set<int> {
    Set::new(|u: int| 0 <= u < s.len() && s[u] is Some)
}

proof fn lemma_matched_set(s: Seq<Option<usize>>)
    ensures matched_set(s).finite(), count_some(s) == matched_set(s).len(),
    decreases s.len(),
{
    if s.len() == 0 {
        assert(matched_set(s) =~= Set::empty());
    } else {
        let t = s.drop_last();
        lemma_matched_set(t);
        let last = s.len() - 1;
        if s.last() is Some {
            assert(matched_set(s) =~= matched_set(t).insert(last));
            assert(!matched_set(t).contains(last));
        } else {
            assert(matched_set(s) =~= matched_set(t));
        }
    }
}

/// With the reached vertices closed, no matching is larger than the current
/// one: the unreached left vertices and the right vertices next to reached
/// ones cover every edge, and there are as many of them as matched pairs.
proof fn lemma_no_larger_matching(
    adj: Seq<Vec<usize>>,
    rs: nat,
    pu: Seq<Option<usize>>,
    pv: Seq<Option<usize>>,
    d: Seq<usize>,
    m: Seq<Option<usize>>,
)
    requires
        adj.len() < inf(),
        pairs_agree(adj, rs, pu, pv, -1),
        layered(adj, pu, d),
        reach_closed(adj, pv, d),
        valid_matching(adj, rs, m),
    ensures count_some(m) <= count_some(pu),
{
    let n = adj.len() as int;
    let all = vstd::set_lib::set_int_range(0, n);
    vstd::set_lib::lemma_int_range(0, n);
    let m_out = Set::new(|u: int| 0 <= u < n && m[u] is Some && !(d[u] < inf()));
    let m_in = Set::new(|u: int| 0 <= u < n && m[u] is Some && d[u] < inf());
    let out = Set::new(|u: int| 0 <= u < n && !(d[u] < inf()));
    let p_in = Set::new(|u: int| 0 <= u < n && pu[u] is Some && d[u] < inf());
    lemma_matched_set(m);
    lemma_matched_set(pu);
    vstd::set_lib::lemma_len_subset(m_out, all);
    vstd::set_lib::lemma_len_subset(m_in, all);
    vstd::set_lib::lemma_len_subset(out, all);
    vstd::set_lib::lemma_len_subset(p_in, all);
    assert(matched_set(m) =~= m_out + m_in);
    vstd::set_lib::lemma_set_disjoint_lens(m_out, m_in);
    // unreached left vertices are matched: the free ones make up layer 0
    assert(matched_set(pu) =~= out + p_in) by {
        assert forall|u: int| out.contains(u) implies pu[u] is Some by {
            assert(d[u] != 0);
        }
    }
    vstd::set_lib::lemma_set_disjoint_lens(out, p_in);
    vstd::set_lib::lemma_len_subset(m_out, out);
    // each left vertex that `m` matches among the reached ones points, through
    // its partner, at a distinct reached left vertex that `pu` matches
    let f = |u: int| pv[m[u]->0 as int]->0 as int;
    assert forall|u: int| m_in.contains(u) implies p_in.contains(f(u)) by {
        let v = m[u]->0;
        assert(adj[u]@.contains(v));
        let k = choose|k: int| 0 <= k < adj[u]@.len() && adj[u]@[k] == v;
        assert(pv[adj[u]@[k] as int] is Some);
        assert(pv[v as int] is Some);
        let w = pv[v as int]->0;
        assert(pu[w as int] == Some(v));
    }
    assert(vstd::relations::injective_on(f, m_in)) by {
        assert forall|u1: int, u2: int| m_in.contains(u1) && m_in.contains(u2) && #[trigger] f(u1) == #[trigger] f(u2) implies u1
            == u2 by {
            let v1 = m[u1]->0;
            let v2 = m[u2]->0;
            assert(adj[u1]@.contains(v1));
            assert(adj[u2]@.contains(v2));
            let k1 = choose|k: int| 0 <= k < adj[u1]@.len() && adj[u1]@[k] == v1;
            let k2 = choose|k: int| 0 <= k < adj[u2]@.len() && adj[u2]@[k] == v2;
            assert(pv[adj[u1]@[k1] as int] is Some);
            assert(pv[adj[u2]@[k2] as int] is Some);
            assert(pu[f(u1)] == Some(v1));
            assert(pu[f(u2)] == Some(v2));
        }
    }
    let img = m_in.map(f);
    vstd::set_lib::lemma_map_size(m_in, img, f);
    assert(img.subset_of(p_in)) by {
        assert forall|w: int| img.contains(w) implies p_in.contains(w) by {
            let u = choose|u: int| m_in.contains(u) && f(u) == w;
        }
    }
    vstd::set_lib::lemma_len_subset(img, p_in);
}

proof fn lemma_count_none(n: nat)
    ensures count_some(Seq::new(n, |i: int| None::<usize>)) == 0,
    decreases n,
{
    if n > 0 {
        let s = Seq::new(n, |i: int| None::<usize>);
        assert(s.drop_last() == Seq::new((n - 1) as nat, |i: int| None::<usize>));
        lemma_count_none((n - 1) as nat);
    }
}

proof fn lemma_count_some_all(s: Seq<Option<usize>>)
    requires forall|u: int| 0 <= u < s.len() ==> (#[trigger] s[u]) is Some,
    ensures count_some(s) == s.len(),
    decreases s.len(),
{
    if s.len() > 0 {
        assert forall|u: int| 0 <= u < s.drop_last().len() implies (#[trigger] s.drop_last()[u]) is Some by {
            assert(s.drop_last()[u] == s[u]);
        }
        lemma_count_some_all(s.drop_last());
    }
}

/// Every left vertex can be matched, each to its own right vertex.
pub open spec fn perfect_matching_exists(adj: Seq<Vec<usize>>, right_size: nat) -> bool {
    exists|m: Seq<Option<usize>>| valid_matching(adj, right_size, m) && forall|u: int| 0 <= u < m.len() ==> (#[trigger] m[u]) is Some
}

/// Whether every left vertex can be matched at once.
pub fn has_perfect_matching(left_adj: &[Vec<usize>], right_size: usize) -> (r: bool)
    requires
        left_adj@.len() < inf(),
        adj_in_range(left_adj@, right_size as nat),
    ensures
        r == perfect_matching_exists(left_adj@, right_size as nat),
{
    let size = hopcroft_karp_size(left_adj, right_size);
    proof {
        if size == left_adj@.len() {
            let m = choose|m: Seq<Option<usize>>| valid_matching(left_adj@, right_size as nat, m) && count_some(m) == size;
            lemma_count_some_full(m);
        }
        if perfect_matching_exists(left_adj@, right_size as nat) {
            let m = choose|m: Seq<Option<usize>>| valid_matching(left_adj@, right_size as nat, m) && forall|u: int|
                0 <= u < m.len() ==> (#[trigger] m[u]) is Some;
            lemma_count_some_all(m);
        }
    }
    size == left_adj.len()
}

} // verus!
