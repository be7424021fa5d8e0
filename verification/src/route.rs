//! Specification-level path theory: what a directed path through an
//! edge sequence is, what it costs, and which vertices are reachable.
//! The engine's contracts are stated over these definitions.

use vstd::prelude::*;
use vstd::set_lib::lemma_len_subset;
use crate::graph::Edge;

verus! {

/// `p` lists indices into `es` that form a directed walk from vertex id
/// `s` to vertex id `t`.  The empty walk connects every id to itself.
pub open spec fn path_ok(es: Seq<Edge>, p: Seq<int>, s: Seq<char>, t: Seq<char>) -> bool {
    &&& (forall|k: int| 0 <= k < p.len() ==> 0 <= #[trigger] p[k] < es.len())
    &&& (p.len() == 0 ==> s == t)
    &&& (p.len() > 0 ==> es[p[0]].source.id@ == s && es[p[p.len() - 1]].destination.id@ == t)
    &&& (forall|k: int|
        0 < k < p.len() ==> es[#[trigger] p[k]].source.id@ == es[p[k - 1]].destination.id@)
}

/// The sum of the weights of the edges along the walk `p`.
pub open spec fn path_cost(es: Seq<Edge>, p: Seq<int>) -> int
    decreases p.len(),
{
    if p.len() == 0 {
        0
    } else {
        path_cost(es, p.drop_last()) + es[p.last()].weight
    }
}

/// Some directed walk leads from `s` to `t`.
pub open spec fn reachable(es: Seq<Edge>, s: Seq<char>, t: Seq<char>) -> bool {
    exists|p: Seq<int>| path_ok(es, p, s, t)
}

/// `d` is the cost of a cheapest walk from `s` to `t`: some walk costs
/// exactly `d`, and no walk costs less.
pub open spec fn min_dist_is(es: Seq<Edge>, s: Seq<char>, t: Seq<char>, d: int) -> bool {
    &&& (exists|p: Seq<int>| path_ok(es, p, s, t) && path_cost(es, p) == d)
    &&& (forall|p: Seq<int>| path_ok(es, p, s, t) ==> d <= #[trigger] path_cost(es, p))
}

/// Every edge weight is non-negative.
pub open spec fn nonneg(es: Seq<Edge>) -> bool {
    forall|k: int| 0 <= k < es.len() ==> 0 <= #[trigger] es[k].weight
}

/// The sum of all edge weights in `es`.
pub open spec fn total_weight(es: Seq<Edge>) -> int
    decreases es.len(),
{
    if es.len() == 0 {
        0
    } else {
        total_weight(es.drop_last()) + es.last().weight
    }
}

/// The sum of the weights of the edges of `es` whose source id lies in `s`.
pub open spec fn settled_weight(es: Seq<Edge>, s: Set<Seq<char>>) -> int
    decreases es.len(),
{
    if es.len() == 0 {
        0
    } else {
        settled_weight(es.drop_last(), s) + if s.contains(es.last().source.id@) {
            es.last().weight as int
        } else {
            0
        }
    }
}

/// The id of the vertex the walk `p` stands at after `k` steps.
pub open spec fn vertex_at(es: Seq<Edge>, p: Seq<int>, s: Seq<char>, k: int) -> Seq<char> {
    if k == 0 {
        s
    } else {
        es[p[k - 1]].destination.id@
    }
}

/// A walk over non-negative edges costs at least nothing.
pub proof fn lemma_cost_nonneg(es: Seq<Edge>, p: Seq<int>)
    requires
        nonneg(es),
        forall|k: int| 0 <= k < p.len() ==> 0 <= #[trigger] p[k] < es.len(),
    ensures
        0 <= path_cost(es, p),
    decreases p.len(),
{
    if p.len() > 0 {
        lemma_cost_nonneg(es, p.drop_last());
    }
}

/// Truncating a walk to its first `k` steps keeps it a walk, leading to
/// the vertex it stood at after `k` steps, and a prefix never costs
/// more than the whole when the weights are non-negative.
pub proof fn lemma_path_take(es: Seq<Edge>, p: Seq<int>, s: Seq<char>, t: Seq<char>, k: int)
    requires
        path_ok(es, p, s, t),
        nonneg(es),
        0 <= k <= p.len(),
    ensures
        path_ok(es, p.take(k), s, vertex_at(es, p, s, k)),
        path_cost(es, p.take(k)) <= path_cost(es, p),
    decreases p.len() - k,
{
    if k == p.len() {
        assert(p.take(k) =~= p);
        if p.len() > 0 {
        }
    } else {
        lemma_path_take(es, p, s, t, k + 1);
        assert(p.take(k + 1).drop_last() =~= p.take(k));
        assert(p.take(k + 1).last() == p[k]);
        assert(path_cost(es, p.take(k + 1)) == path_cost(es, p.take(k)) + es[p[k]].weight);
        assert(path_ok(es, p.take(k), s, vertex_at(es, p, s, k))) by {
            let q = p.take(k);
            assert(forall|i: int| 0 <= i < q.len() ==> q[i] == p[i]);
        }
    }
}

/// The distance table `dm` holds, at `v`, a lower bound on the cost of
/// every walk from `src` to `v`.
pub open spec fn lb_ok(es: Seq<Edge>, dm: Map<Seq<char>, int>, src: Seq<char>, v: Seq<char>) -> bool {
    forall|p: Seq<int>| path_ok(es, p, src, v) ==> dm[v] <= #[trigger] path_cost(es, p)
}

/// A settled-source weight sum never exceeds the total weight, and is
/// never negative, when the weights are non-negative.
pub proof fn lemma_sw_bounds(es: Seq<Edge>, s: Set<Seq<char>>)
    requires
        nonneg(es),
    ensures
        0 <= settled_weight(es, s) <= total_weight(es),
    decreases es.len(),
{
    if es.len() > 0 {
        lemma_sw_bounds(es.drop_last(), s);
        assert(0 <= es[es.len() - 1].weight);
    }
}

/// Growing the settled set can only grow the settled-source weight sum.
pub proof fn lemma_sw_mono(es: Seq<Edge>, s1: Set<Seq<char>>, s2: Set<Seq<char>>)
    requires
        nonneg(es),
        s1.subset_of(s2),
    ensures
        settled_weight(es, s1) <= settled_weight(es, s2),
    decreases es.len(),
{
    if es.len() > 0 {
        lemma_sw_mono(es.drop_last(), s1, s2);
        assert(0 <= es[es.len() - 1].weight);
    }
}

/// Settling the source of edge `j` grows the settled-source weight sum
/// by at least that edge's weight.
pub proof fn lemma_sw_insert_edge(es: Seq<Edge>, s: Set<Seq<char>>, j: int)
    requires
        nonneg(es),
        0 <= j < es.len(),
        !s.contains(es[j].source.id@),
    ensures
        settled_weight(es, s) + es[j].weight <= settled_weight(
            es,
            s.insert(es[j].source.id@),
        ),
    decreases es.len(),
{
    let u = es[j].source.id@;
    let dl = es.drop_last();
    if j == es.len() - 1 {
        lemma_sw_mono(dl, s, s.insert(u));
    } else {
        lemma_sw_insert_edge(dl, s, j);
        assert(0 <= es[es.len() - 1].weight);
    }
}

/// The first position beyond `k` where the walk stands outside
/// `settled`; every position from `k` up to it is inside.
pub proof fn lemma_exit_index(
    es: Seq<Edge>,
    p: Seq<int>,
    s: Seq<char>,
    t: Seq<char>,
    settled: Seq<Seq<char>>,
    k: int,
) -> (r: int)
    requires
        path_ok(es, p, s, t),
        0 <= k <= p.len(),
        settled.contains(vertex_at(es, p, s, k)),
        !settled.contains(vertex_at(es, p, s, p.len() as int)),
    ensures
        k < r <= p.len(),
        !settled.contains(vertex_at(es, p, s, r)),
        forall|m: int| k <= m < r ==> settled.contains(vertex_at(es, p, s, m)),
    decreases p.len() - k,
{
    if !settled.contains(vertex_at(es, p, s, k + 1)) {
        k + 1
    } else {
        lemma_exit_index(es, p, s, t, settled, k + 1)
    }
}

/// The label-setting selection step is sound: when every settled vertex
/// carries a lower bound on all walk costs, every settled out-edge has
/// been relaxed, and `u` has minimal distance among the frontier, then
/// `u`'s distance is a lower bound on the cost of every walk to `u`.
pub proof fn lemma_frontier_min_optimal(
    es: Seq<Edge>,
    dm: Map<Seq<char>, int>,
    settled: Seq<Seq<char>>,
    frontier: Seq<Seq<char>>,
    src: Seq<char>,
    u: Seq<char>,
)
    requires
        nonneg(es),
        forall|k: Seq<char>| #[trigger]
            dm.contains_key(k) <==> (settled.contains(k) || frontier.contains(k)),
        forall|k: Seq<char>| settled.contains(k) ==> !frontier.contains(k),
        dm.contains_key(src) && dm[src] == 0,
        settled.len() == 0 ==> frontier =~= seq![src],
        settled.len() > 0 ==> settled[0] == src,
        forall|v: Seq<char>| #[trigger] settled.contains(v) ==> lb_ok(es, dm, src, v),
        forall|j: int|
            0 <= j < es.len() && settled.contains((#[trigger] es[j]).source.id@)
                ==> dm.contains_key(es[j].destination.id@) && dm[es[j].destination.id@] <= dm[
                es[j].source.id@
            ] + es[j].weight,
        frontier.contains(u),
        forall|x: Seq<char>| #[trigger] frontier.contains(x) ==> dm[u] <= dm[x],
    ensures
        lb_ok(es, dm, src, u),
{
    assert forall|p: Seq<int>| path_ok(es, p, src, u) implies dm[u] <= #[trigger] path_cost(
        es,
        p,
    ) by {
        if settled.len() == 0 {
            assert(frontier[0] == src);
            let i = choose|i: int| 0 <= i < frontier.len() && frontier[i] == u;
            assert(u == src);
            lemma_cost_nonneg(es, p);
        } else if p.len() == 0 {
            assert(u == src);
            assert(settled.contains(src));
            assert(!frontier.contains(src));
        } else {
            assert(settled.contains(vertex_at(es, p, src, 0)));
            assert(vertex_at(es, p, src, p.len() as int) == u);
            assert(!settled.contains(u));
            let r = lemma_exit_index(es, p, src, u, settled, 0);
            let a = vertex_at(es, p, src, r - 1);
            let f = vertex_at(es, p, src, r);
            let e = p[r - 1];
            assert(es[e].source.id@ == a);
            assert(es[e].destination.id@ == f);
            assert(settled.contains(a));
            assert(dm.contains_key(f) && dm[f] <= dm[a] + es[e].weight);
            lemma_path_take(es, p, src, u, r - 1);
            assert(path_ok(es, p.take(r - 1), src, a));
            assert(lb_ok(es, dm, src, a));
            assert(dm[a] <= path_cost(es, p.take(r - 1)));
            assert(p.take(r).drop_last() =~= p.take(r - 1));
            assert(p.take(r).last() == p[r - 1]);
            assert(path_cost(es, p.take(r)) == path_cost(es, p.take(r - 1)) + es[e].weight);
            lemma_path_take(es, p, src, u, r);
            assert(dm[f] <= path_cost(es, p));
            assert(frontier.contains(f));
            assert(dm[u] <= dm[f]);
        }
    }
}

/// When the distance table's ids are closed under following edges, the
/// end of any walk out of a table id is itself in the table.
pub proof fn lemma_closed_reaches(
    es: Seq<Edge>,
    dm: Map<Seq<char>, int>,
    src: Seq<char>,
    p: Seq<int>,
    t: Seq<char>,
)
    requires
        nonneg(es),
        dm.contains_key(src),
        forall|j: int|
            0 <= j < es.len() && dm.contains_key((#[trigger] es[j]).source.id@)
                ==> dm.contains_key(es[j].destination.id@),
        path_ok(es, p, src, t),
    ensures
        dm.contains_key(t),
    decreases p.len(),
{
    if p.len() > 0 {
        let a = vertex_at(es, p, src, p.len() - 1);
        lemma_path_take(es, p, src, t, p.len() - 1);
        lemma_closed_reaches(es, dm, src, p.take(p.len() - 1), a);
        assert(es[p[p.len() - 1]].source.id@ == a);
    }
}

/// A duplicate-free id sequence drawn from a source id and the edges'
/// destination ids cannot outnumber the edges by more than one.
pub proof fn lemma_id_count(ids: Seq<Seq<char>>, es: Seq<Edge>, src: Seq<char>)
    requires
        ids.no_duplicates(),
        forall|k: Seq<char>| #[trigger]
            ids.contains(k) ==> k == src || exists|j: int|
                0 <= j < es.len() && (#[trigger] es[j]).destination.id@ == k,
    ensures
        ids.len() <= es.len() + 1,
{
    broadcast use vstd::seq_lib::seq_to_set_is_finite;
    broadcast use vstd::set::axiom_set_insert_len;
    broadcast use vstd::set::axiom_set_insert_finite;

    let dests = es.map_values(|e: Edge| e.destination.id@);
    let target = dests.to_set().insert(src);
    assert forall|k: Seq<char>| ids.to_set().contains(k) implies target.contains(k) by {
        assert(ids.contains(k));
        if k != src {
            let j = choose|j: int| 0 <= j < es.len() && (#[trigger] es[j]).destination.id@ == k;
            assert(dests[j] == k);
            assert(dests.contains(k));
            assert(dests.to_set().contains(k));
        }
    }
    ids.unique_seq_to_set();
    dests.lemma_cardinality_of_set();
    assert(dests.to_set().finite());
    assert(target.finite());
    lemma_len_subset(ids.to_set(), target);
    assert(target.len() <= dests.to_set().len() + 1);
    assert(dests.len() == es.len());
}

/// A cheapest-walk cost is unique: two values that each are the cost
/// of some walk and a lower bound on all walk costs must coincide.
pub proof fn lemma_min_unique(es: Seq<Edge>, s: Seq<char>, t: Seq<char>, d1: int, d2: int)
    requires
        min_dist_is(es, s, t, d1),
        min_dist_is(es, s, t, d2),
    ensures
        d1 == d2,
{
    let p1 = choose|p: Seq<int>| path_ok(es, p, s, t) && path_cost(es, p) == d1;
    let p2 = choose|p: Seq<int>| path_ok(es, p, s, t) && path_cost(es, p) == d2;
    assert(d1 <= path_cost(es, p2));
    assert(d2 <= path_cost(es, p1));
}

/// A walk through the first edges of an extended edge list is the
/// same walk, at the same cost, through the unextended list.
pub proof fn lemma_cost_same_prefix(es: Seq<Edge>, es2: Seq<Edge>, p: Seq<int>)
    requires
        es.len() <= es2.len(),
        forall|j: int| 0 <= j < es.len() ==> es2[j] == es[j],
        forall|k: int| 0 <= k < p.len() ==> 0 <= #[trigger] p[k] < es.len(),
    ensures
        path_cost(es2, p) == path_cost(es, p),
    decreases p.len(),
{
    if p.len() > 0 {
        lemma_cost_same_prefix(es, es2, p.drop_last());
    }
}

/// Any walk of the edge list extended by a self-loop can be stripped
/// of the loop's steps, leaving a walk of the unextended list between
/// the same endpoints that costs no more.
pub proof fn lemma_strip_loop(es: Seq<Edge>, e: Edge, p2: Seq<int>, s: Seq<char>, t: Seq<char>)
    requires
        e.source.id@ == e.destination.id@,
        0 <= e.weight,
        nonneg(es),
        path_ok(es.push(e), p2, s, t),
    ensures
        exists|q: Seq<int>|
            path_ok(es, q, s, t) && path_cost(es, q) <= path_cost(es.push(e), p2),
    decreases p2.len(),
{
    let es2 = es.push(e);
    if p2.len() == 0 {
        let q = Seq::<int>::empty();
        assert(path_ok(es, q, s, t));
    } else {
        let last = p2[p2.len() - 1];
        let body = p2.take(p2.len() - 1);
        assert(nonneg(es2)) by {
            assert(forall|j: int| 0 <= j < es.len() ==> es2[j] == es[j]);
            assert(es2[es.len() as int] == e);
        }
        lemma_path_take(es2, p2, s, t, p2.len() - 1);
        let m = vertex_at(es2, p2, s, p2.len() - 1);
        assert(path_ok(es2, body, s, m));
        assert(es2[last].source.id@ == m);
        assert(es2[last].destination.id@ == t);
        assert(p2.drop_last() =~= body);
        assert(path_cost(es2, p2) == path_cost(es2, body) + es2[last].weight);
        if last == es.len() {
            // the final step is the self-loop: drop it
            assert(es2[last] == e);
            assert(m == t);
            lemma_strip_loop(es, e, body, s, t);
            let q = choose|q: Seq<int>|
                path_ok(es, q, s, t) && path_cost(es, q) <= path_cost(es2, body);
            assert(path_cost(es, q) <= path_cost(es2, p2));
        } else {
            assert(es2[last] == es[last]);
            lemma_strip_loop(es, e, body, s, m);
            let q = choose|q: Seq<int>|
                path_ok(es, q, s, m) && path_cost(es, q) <= path_cost(es2, body);
            lemma_path_extend(es, q, s, m, last);
            assert(path_ok(es, q.push(last), s, t));
            assert(path_cost(es, q.push(last)) <= path_cost(es2, p2));
        }
    }
}

/// A self-loop of non-negative weight alters nothing: appending it to
/// the edge list leaves both reachability and every cheapest-walk cost
/// exactly as they were.
pub proof fn lemma_self_loop_distance(
    es: Seq<Edge>,
    e: Edge,
    src: Seq<char>,
    t: Seq<char>,
    d: int,
)
    requires
        e.source.id@ == e.destination.id@,
        0 <= e.weight,
        nonneg(es),
    ensures
        reachable(es, src, t) <==> reachable(es.push(e), src, t),
        min_dist_is(es, src, t, d) <==> min_dist_is(es.push(e), src, t, d),
{
    let es2 = es.push(e);
    assert(forall|j: int| 0 <= j < es.len() ==> es2[j] == es[j]);
    if reachable(es, src, t) {
        let p = choose|p: Seq<int>| path_ok(es, p, src, t);
        assert(path_ok(es2, p, src, t));
        assert(reachable(es2, src, t));
    }
    if reachable(es2, src, t) {
        let p = choose|p: Seq<int>| path_ok(es2, p, src, t);
        lemma_strip_loop(es, e, p, src, t);
        assert(reachable(es, src, t));
    }
    if min_dist_is(es, src, t, d) {
        let p = choose|p: Seq<int>| path_ok(es, p, src, t) && path_cost(es, p) == d;
        lemma_cost_same_prefix(es, es2, p);
        assert(path_ok(es2, p, src, t) && path_cost(es2, p) == d);
        assert forall|p2: Seq<int>| path_ok(es2, p2, src, t) implies d <= #[trigger] path_cost(
            es2,
            p2,
        ) by {
            lemma_strip_loop(es, e, p2, src, t);
            let q = choose|q: Seq<int>|
                path_ok(es, q, src, t) && path_cost(es, q) <= path_cost(es2, p2);
            assert(d <= path_cost(es, q));
        }
        assert(min_dist_is(es2, src, t, d));
    }
    if min_dist_is(es2, src, t, d) {
        let p2 = choose|p: Seq<int>| path_ok(es2, p, src, t) && path_cost(es2, p) == d;
        lemma_strip_loop(es, e, p2, src, t);
        let q = choose|q: Seq<int>|
            path_ok(es, q, src, t) && path_cost(es, q) <= path_cost(es2, p2);
        lemma_cost_same_prefix(es, es2, q);
        assert(d <= path_cost(es2, q));
        assert(path_cost(es, q) == d);
        assert forall|p: Seq<int>| path_ok(es, p, src, t) implies d <= #[trigger] path_cost(
            es,
            p,
        ) by {
            lemma_cost_same_prefix(es, es2, p);
            assert(path_ok(es2, p, src, t));
        }
        assert(min_dist_is(es, src, t, d));
    }
}

/// Extending a walk by one edge out of its endpoint keeps it a walk.
pub proof fn lemma_path_extend(es: Seq<Edge>, p: Seq<int>, s: Seq<char>, t: Seq<char>, j: int)
    requires
        path_ok(es, p, s, t),
        0 <= j < es.len(),
        es[j].source.id@ == t,
    ensures
        path_ok(es, p.push(j), s, es[j].destination.id@),
        path_cost(es, p.push(j)) == path_cost(es, p) + es[j].weight,
    decreases p.len(),
{
    let q = p.push(j);
    assert(q.drop_last() =~= p);
    assert(q.last() == j);
    assert(forall|k: int| 0 <= k < p.len() ==> q[k] == p[k]);
    if p.len() > 0 {
        assert(q[q.len() - 2] == p[p.len() - 1]);
    }
}

} // verus!
