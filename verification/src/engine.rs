//! The shortest-path engine.  `Djikstra` owns a private copy of a
//! graph's vertex and edge lists; `run` executes the label-setting
//! relaxation algorithm from a source vertex, and `get_path` /
//! `get_shortest_distance` answer queries about the result.
//!
//! The run-state (settled list, frontier, distance and predecessor
//! tables) is kept in plain vectors keyed by vertex id; the contracts
//! speak of it through finite maps from ids to values.

use vstd::prelude::*;
use crate::graph::Edge;
use crate::graph::Graph;
use crate::graph::Vertex;
use crate::route::lb_ok;
use crate::route::lemma_closed_reaches;
use crate::route::lemma_frontier_min_optimal;
use crate::route::lemma_id_count;
use crate::route::lemma_path_extend;
use crate::route::lemma_sw_bounds;
use crate::route::lemma_sw_insert_edge;
use crate::route::lemma_sw_mono;
use crate::route::min_dist_is;
use crate::route::nonneg;
use crate::route::path_cost;
use crate::route::path_ok;
use crate::route::reachable;
use crate::route::settled_weight;
use crate::route::total_weight;

verus! {

/// The id of each entry of an association list.
spec fn akeys<V>(s: Seq<(String, V)>) -> Seq<Seq<char>> {
    s.map_values(|e: (String, V)| e.0@)
}

/// The finite map an association list stands for; a later entry for an
/// id overrides an earlier one.
spec fn aview<V>(s: Seq<(String, V)>) -> Map<Seq<char>, V>
    decreases s.len(),
{
    if s.len() == 0 {
        Map::empty()
    } else {
        aview(s.drop_last()).insert(s.last().0@, s.last().1)
    }
}

/// An id is in the map exactly when some entry carries it.
proof fn lemma_aview_contains<V>(s: Seq<(String, V)>)
    ensures
        forall|k: Seq<char>|
            aview(s).contains_key(k) <==> (exists|i: int|
                0 <= i < s.len() && #[trigger] s[i].0@ == k),
    decreases s.len(),
{
    if s.len() > 0 {
        let dl = s.drop_last();
        lemma_aview_contains(dl);
        assert forall|k: Seq<char>| aview(s).contains_key(k) implies (exists|i: int|
            0 <= i < s.len() && #[trigger] s[i].0@ == k) by {
            if k == s.last().0@ {
                assert(s[s.len() - 1].0@ == k);
            } else {
                assert(aview(s) == aview(dl).insert(s.last().0@, s.last().1));
                assert(aview(dl).contains_key(k));
                let i = choose|i: int| 0 <= i < dl.len() && #[trigger] dl[i].0@ == k;
                assert(s[i] == dl[i]);
                assert(s[i].0@ == k);
            }
        }
        assert forall|k: Seq<char>| (exists|i: int|
            0 <= i < s.len() && #[trigger] s[i].0@ == k) implies aview(s).contains_key(k) by {
            let i = choose|i: int| 0 <= i < s.len() && #[trigger] s[i].0@ == k;
            if i < s.len() - 1 {
                assert(dl[i] == s[i]);
                assert(dl[i].0@ == k);
                assert(aview(dl).contains_key(k));
            }
        }
    }
}

/// With no repeated ids, the map's value for an entry's id is that
/// entry's value.
proof fn lemma_aview_at<V>(s: Seq<(String, V)>, i: int)
    requires
        akeys(s).no_duplicates(),
        0 <= i < s.len(),
    ensures
        aview(s).contains_key(s[i].0@),
        aview(s)[s[i].0@] == s[i].1,
    decreases s.len(),
{
    if i == s.len() - 1 {
    } else {
        assert(akeys(s.drop_last()) =~= akeys(s).drop_last());
        assert(akeys(s)[i] == s[i].0@);
        assert(akeys(s)[s.len() - 1] == s.last().0@);
        lemma_aview_at(s.drop_last(), i);
        assert(s.drop_last()[i] == s[i]);
    }
}

/// Overwriting the value of the entry holding an id updates the map at
/// that id and nothing else.
proof fn lemma_aview_update<V>(s: Seq<(String, V)>, i: int, e: (String, V))
    requires
        akeys(s).no_duplicates(),
        0 <= i < s.len(),
        e.0@ == s[i].0@,
    ensures
        aview(s.update(i, e)) =~= aview(s).insert(e.0@, e.1),
        akeys(s.update(i, e)) =~= akeys(s),
    decreases s.len(),
{
    let s2 = s.update(i, e);
    assert(akeys(s2) =~= akeys(s));
    if i == s.len() - 1 {
        assert(s2.drop_last() =~= s.drop_last());
        assert(s2.last() == e);
    } else {
        assert(akeys(s.drop_last()) =~= akeys(s).drop_last());
        lemma_aview_update(s.drop_last(), i, e);
        assert(s2.drop_last() =~= s.drop_last().update(i, e));
        assert(s2.last() == s.last());
        assert(akeys(s)[i] == s[i].0@);
        assert(akeys(s)[s.len() - 1] == s.last().0@);
        assert(s.last().0@ != e.0@);
    }
}

/// Mapping the values of a map commutes with inserting one entry.
proof fn lemma_map_values_insert<A, B, C>(m: Map<A, B>, f: spec_fn(B) -> C, k: A, v: B)
    ensures
        m.insert(k, v).map_values(f) =~= m.map_values(f).insert(k, f(v)),
{
}

/// Appending a fresh element to a duplicate-free sequence moves no
/// existing element's position.
proof fn lemma_index_of_push(s: Seq<Seq<char>>, x: Seq<char>, y: Seq<char>)
    requires
        s.no_duplicates(),
        !s.contains(x),
        s.contains(y),
    ensures
        s.push(x).contains(y),
        s.push(x).index_of(y) == s.index_of(y),
        s.push(x).index_of(x) == s.len(),
{
    let i = s.index_of(y);
    assert(s.push(x)[i] == y);
    assert(s.push(x)[s.len() as int] == x);
    let i2 = s.push(x).index_of(y);
    if i2 != i {
        if i2 == s.len() {
            assert(s.contains(x));
        } else {
            assert(s[i2] == y && s[i] == y);
        }
    }
    let i3 = s.push(x).index_of(x);
    if i3 != s.len() {
        assert(s[i3] == x);
        assert(s.contains(x));
    }
}

/// Stores `v` for `id`, overwriting any entry already keyed by it.
fn upsert_i32(list: &mut Vec<(String, i32)>, id: &String, v: i32)
    requires
        akeys(old(list)@).no_duplicates(),
    ensures
        akeys(final(list)@).no_duplicates(),
        aview(final(list)@) =~= aview(old(list)@).insert(id@, v),
        akeys(final(list)@) =~= if aview(old(list)@).contains_key(id@) {
            akeys(old(list)@)
        } else {
            akeys(old(list)@).push(id@)
        },
{
    match find_key(list, id) {
        Some(i) => {
            let ghost s0 = list@;
            list[i] = (id.clone(), v);
            proof {
                lemma_aview_update(s0, i as int, list@[i as int]);
                lemma_aview_at(s0, i as int);
            }
        },
        None => {
            let ghost s0 = list@;
            list.push((id.clone(), v));
            proof {
                assert(list@.drop_last() =~= s0);
                lemma_aview_contains(s0);
                assert(akeys(list@).drop_last() =~= akeys(s0));
                assert forall|a: int, b: int|
                    0 <= a < b < akeys(list@).len() implies akeys(list@)[a] != akeys(
                    list@,
                )[b] by {
                    if b == akeys(list@).len() - 1 {
                        assert(!aview(s0).contains_key(id@));
                        assert(akeys(list@)[a] == s0[a].0@);
                        assert(akeys(list@)[b] == id@);
                        assert(s0[a].0@ != id@);
                    } else {
                        assert(akeys(list@)[a] == akeys(s0)[a]);
                        assert(akeys(list@)[b] == akeys(s0)[b]);
                    }
                }
            }
        },
    }
}

/// Stores `v` for `id`, overwriting any entry already keyed by it.
fn upsert_str(list: &mut Vec<(String, String)>, id: &String, v: &String)
    requires
        akeys(old(list)@).no_duplicates(),
    ensures
        akeys(final(list)@).no_duplicates(),
        aview(final(list)@) =~= aview(old(list)@).insert(id@, *v),
        akeys(final(list)@) =~= if aview(old(list)@).contains_key(id@) {
            akeys(old(list)@)
        } else {
            akeys(old(list)@).push(id@)
        },
{
    match find_key(list, id) {
        Some(i) => {
            let ghost s0 = list@;
            list[i] = (id.clone(), v.clone());
            proof {
                lemma_aview_update(s0, i as int, list@[i as int]);
                lemma_aview_at(s0, i as int);
            }
        },
        None => {
            let ghost s0 = list@;
            list.push((id.clone(), v.clone()));
            proof {
                assert(list@.drop_last() =~= s0);
                lemma_aview_contains(s0);
                assert(akeys(list@).drop_last() =~= akeys(s0));
                assert forall|a: int, b: int|
                    0 <= a < b < akeys(list@).len() implies akeys(list@)[a] != akeys(
                    list@,
                )[b] by {
                    if b == akeys(list@).len() - 1 {
                        assert(!aview(s0).contains_key(id@));
                        assert(akeys(list@)[a] == s0[a].0@);
                        assert(akeys(list@)[b] == id@);
                        assert(s0[a].0@ != id@);
                    } else {
                        assert(akeys(list@)[a] == akeys(s0)[a]);
                        assert(akeys(list@)[b] == akeys(s0)[b]);
                    }
                }
            }
        },
    }
}

/// Looks an id up in an association list: the index of its entry, or
/// `None` when the list has no entry for it.
fn find_key<V>(list: &Vec<(String, V)>, id: &String) -> (r: Option<usize>)
    ensures
        match r {
            Some(i) => i < list@.len() && list@[i as int].0@ == id@,
            None => !aview(list@).contains_key(id@),
        },
{
    let mut i: usize = 0;
    while i < list.len()
        invariant
            i <= list@.len(),
            forall|j: int| 0 <= j < i ==> #[trigger] list@[j].0@ != id@,
        decreases list@.len() - i,
    {
        if list[i].0 == *id {
            return Some(i);
        }
        i += 1;
    }
    proof {
        lemma_aview_contains(list@);
    }
    None
}

/// Whether some element of the list is the given id.
fn holds_id(list: &Vec<String>, id: &String) -> (r: bool)
    ensures
        r == list.deep_view().contains(id@),
{
    let mut i: usize = 0;
    while i < list.len()
        invariant
            i <= list@.len(),
            forall|j: int| 0 <= j < i ==> list.deep_view()[j] != id@,
        decreases list@.len() - i,
    {
        if list[i] == *id {
            assert(list.deep_view()[i as int] == id@);
            return true;
        }
        i += 1;
    }
    false
}

/// The weight of the last edge of `es` from `a` to `b`, or zero when
/// there is none.
pub open spec fn last_edge_weight(es: Seq<Edge>, a: Seq<char>, b: Seq<char>) -> int
    decreases es.len(),
{
    if es.len() == 0 {
        0
    } else if es.last().source.id@ == a && es.last().destination.id@ == b {
        es.last().weight as int
    } else {
        last_edge_weight(es.drop_last(), a, b)
    }
}

/// The destinations of the edges of `es` leaving `a` whose destination
/// id is not among `settled`, one entry per such edge, in edge order.
pub open spec fn unsettled_targets(es: Seq<Edge>, a: Seq<char>, settled: Seq<Seq<char>>) -> Seq<
    Vertex,
>
    decreases es.len(),
{
    if es.len() == 0 {
        Seq::empty()
    } else {
        let rest = unsettled_targets(es.drop_last(), a, settled);
        if es.last().source.id@ == a && !settled.contains(es.last().destination.id@) {
            rest.push(es.last().destination)
        } else {
            rest
        }
    }
}

/// There is an edge of `es` from `a` to `b` along which the distance
/// table `dm` is tight: the value at `b` is the value at `a` plus that
/// edge's weight.
pub open spec fn linked(es: Seq<Edge>, dm: Map<Seq<char>, int>, a: Seq<char>, b: Seq<char>) -> bool {
    exists|j: int|
        0 <= j < es.len() && (#[trigger] es[j]).source.id@ == a && es[j].destination.id@ == b
            && dm[b] == dm[a] + es[j].weight
}

/// Removing one element of a duplicate-free sequence removes exactly
/// that element's membership.
proof fn lemma_remove_membership(s: Seq<Seq<char>>, j: int)
    requires
        s.no_duplicates(),
        0 <= j < s.len(),
    ensures
        s.remove(j).no_duplicates(),
        forall|k: Seq<char>| #[trigger] s.remove(j).contains(k) <==> (s.contains(k) && k != s[j]),
    decreases s.len(),
{
    let r = s.remove(j);
    assert(forall|i: int| 0 <= i < j ==> r[i] == s[i]);
    assert(forall|i: int| j <= i < r.len() ==> r[i] == s[i + 1]);
    assert forall|a: int, b: int| 0 <= a < b < r.len() implies r[a] != r[b] by {
        if a < j && b < j {
            assert(s[a] != s[b]);
        } else if a < j {
            assert(s[a] != s[b + 1]);
        } else {
            assert(s[a + 1] != s[b + 1]);
        }
    }
    assert forall|k: Seq<char>| #[trigger] r.contains(k) implies (s.contains(k) && k != s[j]) by {
        let i = choose|i: int| 0 <= i < r.len() && r[i] == k;
        if i < j {
            assert(s[i] == k);
            assert(s[i] != s[j]);
        } else {
            assert(s[i + 1] == k);
            assert(s[i + 1] != s[j]);
        }
    }
    assert forall|k: Seq<char>| s.contains(k) && k != s[j] implies #[trigger] r.contains(k) by {
        let i = choose|i: int| 0 <= i < s.len() && s[i] == k;
        if i < j {
            assert(r[i] == k);
        } else {
            assert(i != j);
            assert(r[i - 1] == k);
        }
    }
}

/// Every id in the distance table is reached by a walk from the source
/// that costs exactly its table value: the predecessor chain supplies
/// the walk.
proof fn lemma_chain_path(
    es: Seq<Edge>,
    dm: Map<Seq<char>, int>,
    pm: Map<Seq<char>, Seq<char>>,
    settled: Seq<Seq<char>>,
    src: Seq<char>,
    v: Seq<char>,
)
    requires
        settled.no_duplicates(),
        dm.contains_key(src) && dm[src] == 0,
        forall|k: Seq<char>| #[trigger] dm.contains_key(k) ==> settled.contains(k),
        forall|k: Seq<char>| #[trigger] pm.contains_key(k) <==> (dm.contains_key(k) && k != src),
        forall|k: Seq<char>| #[trigger]
            pm.contains_key(k) ==> dm.contains_key(pm[k]) && linked(es, dm, pm[k], k)
                && settled.contains(pm[k]) && settled.index_of(pm[k]) < settled.index_of(k),
        dm.contains_key(v),
    ensures
        exists|p: Seq<int>| path_ok(es, p, src, v) && path_cost(es, p) == dm[v],
    decreases settled.index_of(v),
{
    assert(settled.contains(v));
    assert(0 <= settled.index_of(v) < settled.len());
    if v == src {
        let p = Seq::<int>::empty();
        assert(path_ok(es, p, src, v));
        assert(path_cost(es, p) == dm[v]);
    } else {
        assert(pm.contains_key(v));
        let a = pm[v];
        lemma_chain_path(es, dm, pm, settled, src, a);
        let p0 = choose|p: Seq<int>| path_ok(es, p, src, a) && path_cost(es, p) == dm[a];
        assert(linked(es, dm, a, v));
        let j = choose|j: int|
            0 <= j < es.len() && (#[trigger] es[j]).source.id@ == a && es[j].destination.id@ == v
                && dm[v] == dm[a] + es[j].weight;
        lemma_path_extend(es, p0, src, a, j);
        assert(path_ok(es, p0.push(j), src, v) && path_cost(es, p0.push(j)) == dm[v]);
    }
}

/// The shortest-path engine.  It holds a private copy of the graph and
/// the run-state of the last `run` call.
#[derive(Debug)]
pub struct Djikstra {
    nodes: Vec<Vertex>,
    edges: Vec<Edge>,
    settled_nodes: Vec<String>,
    unsettled_nodes: Vec<String>,
    predecessors: Vec<(String, String)>,
    distance: Vec<(String, i32)>,
}

impl Djikstra {
    /// The engine's copy of the edge list.
    pub closed spec fn es(self) -> Seq<Edge> {
        self.edges@
    }

    /// The engine's copy of the vertex list.
    pub closed spec fn vs(self) -> Seq<Vertex> {
        self.nodes@
    }

    /// The ids of the settled vertices, in the order they were settled.
    pub closed spec fn sids(self) -> Seq<Seq<char>> {
        self.settled_nodes.deep_view()
    }

    /// The ids of the frontier vertices.
    pub closed spec fn uids(self) -> Seq<Seq<char>> {
        self.unsettled_nodes.deep_view()
    }

    /// The distance table: best known cost from the source, by id.
    pub closed spec fn dmap(self) -> Map<Seq<char>, int> {
        aview(self.distance@).map_values(|v: i32| v as int)
    }

    /// The predecessor table: the id of the vertex before this one on
    /// its best known path, by id.
    pub closed spec fn pmap(self) -> Map<Seq<char>, Seq<char>> {
        aview(self.predecessors@).map_values(|v: String| v@)
    }

    /// Structural soundness of the run-state: tables keyed at most once
    /// per id, and predecessor links that walk strictly backwards
    /// through the settled order, each tight along some edge.
    pub closed spec fn wf(self) -> bool {
        &&& akeys(self.distance@).no_duplicates()
        &&& akeys(self.predecessors@).no_duplicates()
        &&& self.sids().no_duplicates()
        &&& forall|k: Seq<char>| #[trigger]
            self.pmap().contains_key(k) ==> self.sids().contains(k) && self.sids().contains(
                self.pmap()[k],
            ) && self.sids().index_of(self.pmap()[k]) < self.sids().index_of(k)
        &&& forall|k: Seq<char>| #[trigger]
            self.pmap().contains_key(k) ==> self.dmap().contains_key(k)
                && self.dmap().contains_key(self.pmap()[k]) && linked(
                self.es(),
                self.dmap(),
                self.pmap()[k],
                k,
            )
    }

    /// Edge `j`'s destination already holds a distance no worse than
    /// the one offered through that edge.
    spec fn relaxed_edge(self, j: int) -> bool {
        self.dmap().contains_key(self.es()[j].destination.id@) && self.dmap()[
            self.es()[j].destination.id@
        ] <= self.dmap()[self.es()[j].source.id@] + self.es()[j].weight
    }

    /// Every edge out of a settled vertex other than `excl` is relaxed.
    spec fn closure_except(self, excl: Seq<char>) -> bool {
        forall|j: int|
            0 <= j < self.es().len() && self.sids().contains(
                (#[trigger] self.es()[j]).source.id@,
            ) && self.es()[j].source.id@ != excl ==> self.relaxed_edge(j)
    }

    /// Every edge out of a settled vertex is relaxed.
    spec fn closure_full(self) -> bool {
        forall|j: int|
            0 <= j < self.es().len() && self.sids().contains(
                (#[trigger] self.es()[j]).source.id@,
            ) ==> self.relaxed_edge(j)
    }

    /// The working invariant of a run from the source id `src`:
    /// everything the relaxation loop maintains, apart from how much of
    /// the settled vertices' out-edges has been relaxed.
    spec fn base_inv(self, src: Seq<char>) -> bool {
        let es = self.es();
        let dm = self.dmap();
        let pm = self.pmap();
        let st = self.sids();
        let un = self.uids();
        &&& nonneg(es)
        &&& total_weight(es) <= i32::MAX
        &&& akeys(self.distance@).no_duplicates()
        &&& akeys(self.predecessors@).no_duplicates()
        &&& st.no_duplicates()
        &&& un.no_duplicates()
        &&& (forall|k: Seq<char>| #[trigger] st.contains(k) ==> !un.contains(k))
        &&& (forall|k: Seq<char>|
            #![trigger dm.contains_key(k)]
            #![trigger st.contains(k)]
            #![trigger un.contains(k)]
            dm.contains_key(k) <==> (st.contains(k) || un.contains(k)))
        &&& dm.contains_key(src) && dm[src] == 0
        &&& (st.len() == 0 ==> un =~= seq![src])
        &&& (st.len() > 0 ==> st[0] == src)
        &&& (forall|k: Seq<char>| #[trigger] pm.contains_key(k) <==> (dm.contains_key(k) && k != src))
        &&& (forall|k: Seq<char>| #[trigger]
            pm.contains_key(k) ==> dm.contains_key(pm[k]) && st.contains(pm[k]) && linked(
                es,
                dm,
                pm[k],
                k,
            ))
        &&& (forall|k: Seq<char>| #[trigger]
            pm.contains_key(k) && st.contains(k) ==> st.index_of(pm[k]) < st.index_of(k))
        &&& (forall|v: Seq<char>| #[trigger] st.contains(v) ==> lb_ok(es, dm, src, v))
        &&& (forall|a: int, b: int| 0 <= a <= b < st.len() ==> dm[st[a]] <= dm[st[b]])
        &&& (forall|v: Seq<char>, u2: Seq<char>|
            #![trigger st.contains(v), un.contains(u2)]
            st.contains(v) && un.contains(u2) ==> dm[v] <= dm[u2])
        &&& (forall|u2: Seq<char>| #[trigger]
            un.contains(u2) ==> 0 <= dm[u2] <= settled_weight(es, st.to_set()))
        &&& (forall|a: int|
            0 <= a < st.len() ==> 0 <= dm[#[trigger] st[a]] <= settled_weight(
                es,
                st.take(a).to_set(),
            ))
        &&& (forall|k: Seq<char>| #[trigger]
            dm.contains_key(k) ==> k == src || exists|j: int|
                0 <= j < es.len() && (#[trigger] es[j]).destination.id@ == k)
    }

    /// What a completed run from the source id `src` guarantees: the
    /// distance table holds exactly the reachable ids, each mapped to
    /// its minimum walk cost, and the predecessor table links every
    /// reached id but the source tightly back toward the source.
    pub open spec fn done(self, src: Seq<char>) -> bool {
        &&& self.dmap().contains_key(src) && self.dmap()[src] == 0
        &&& (forall|t: Seq<char>| #[trigger]
            self.dmap().contains_key(t) <==> reachable(self.es(), src, t))
        &&& (forall|t: Seq<char>| #[trigger]
            self.dmap().contains_key(t) ==> min_dist_is(self.es(), src, t, self.dmap()[t]))
        &&& (forall|t: Seq<char>| #[trigger]
            self.pmap().contains_key(t) <==> (self.dmap().contains_key(t) && t != src))
        &&& (forall|t: Seq<char>| #[trigger]
            self.pmap().contains_key(t) ==> self.dmap().contains_key(self.pmap()[t]) && linked(
                self.es(),
                self.dmap(),
                self.pmap()[t],
                t,
            ))
    }

    /// Captures the graph's lists.  No computation happens here; the
    /// run-state starts empty.
    pub fn new(graph: Graph) -> (r: Djikstra)
        ensures
            r.vs() == graph.vertices@,
            r.es() == graph.edges@,
            r.wf(),
            r.dmap() =~= Map::<Seq<char>, int>::empty(),
            r.pmap() =~= Map::<Seq<char>, Seq<char>>::empty(),
            r.sids() =~= Seq::<Seq<char>>::empty(),
    {
        let r = Djikstra {
            nodes: graph.vertices,
            edges: graph.edges,
            settled_nodes: Vec::new(),
            unsettled_nodes: Vec::new(),
            predecessors: Vec::new(),
            distance: Vec::new(),
        };
        proof {
            assert(r.dmap() =~= Map::<Seq<char>, int>::empty());
            assert(r.pmap() =~= Map::<Seq<char>, Seq<char>>::empty());
            assert(r.sids() =~= Seq::<Seq<char>>::empty());
            assert(akeys(r.distance@) =~= Seq::<Seq<char>>::empty());
            assert(akeys(r.predecessors@) =~= Seq::<Seq<char>>::empty());
        }
        r
    }

    /// Runs the label-setting algorithm from `source`: resets the
    /// run-state, seeds the source at distance zero, then repeatedly
    /// settles the frontier vertex of minimal known distance and
    /// relaxes its outgoing edges, until the frontier is empty.
    ///
    /// Negative weights are out of contract, and the total weight must
    /// fit the distance table's integer type, so that no cumulative
    /// cost can overflow it.
    #[verifier::rlimit(100)]
    pub fn run(&mut self, source: &Vertex)
        requires
            nonneg(old(self).es()),
            total_weight(old(self).es()) <= i32::MAX,
        ensures
            final(self).wf(),
            final(self).es() == old(self).es(),
            final(self).vs() == old(self).vs(),
            final(self).done(source.id@),
            forall|t: Seq<char>| #[trigger]
                final(self).sids().contains(t) <==> final(self).dmap().contains_key(t),
    {
        let ghost src = source.id@;
        let ghost es = old(self).es();
        self.settled_nodes = Vec::new();
        self.unsettled_nodes = Vec::new();
        self.distance = Vec::new();
        self.predecessors = Vec::new();
        self.distance.push((source.id.clone(), 0));
        self.unsettled_nodes.push(source.id.clone());
        proof {
            assert(self.es() == es);
            assert(self.sids() =~= Seq::<Seq<char>>::empty());
            assert(self.uids() =~= seq![src]);
            assert(self.distance@.drop_last() =~= Seq::<(String, i32)>::empty());
            assert(self.distance@.len() == 1);
            assert(aview(self.distance@.drop_last()) =~= Map::<Seq<char>, i32>::empty());
            assert(self.distance@.last().0@ == src);
            assert(aview(self.distance@) =~= Map::<Seq<char>, i32>::empty().insert(src, 0));
            assert(self.dmap() =~= Map::<Seq<char>, int>::empty().insert(src, 0));
            assert(self.pmap() =~= Map::<Seq<char>, Seq<char>>::empty());
            assert(akeys(self.distance@) =~= seq![src]);
            assert(akeys(self.predecessors@) =~= Seq::<Seq<char>>::empty());
            lemma_sw_bounds(es, self.sids().to_set());
            assert(self.uids()[0] == src);
            assert forall|k: Seq<char>|
                #![trigger self.dmap().contains_key(k)]
                #![trigger self.sids().contains(k)]
                #![trigger self.uids().contains(k)]
                self.dmap().contains_key(k) <==> (self.sids().contains(k) || self.uids().contains(
                    k,
                )) by {
                if self.uids().contains(k) {
                    let i = choose|i: int| 0 <= i < self.uids().len() && self.uids()[i] == k;
                    assert(k == src);
                }
            }
            assert(self.base_inv(src));
            assert(self.closure_full());
        }
        while self.unsettled_nodes.len() > 0
            invariant
                self.base_inv(src),
                self.closure_full(),
                self.es() == es,
                self.vs() == old(self).vs(),
            decreases self.es().len() + 1 - self.sids().len(),
        {
            proof {
                assert forall|j: int|
                    0 <= j < self.unsettled_nodes.deep_view().len() implies self.dmap().contains_key(
                    #[trigger] self.unsettled_nodes.deep_view()[j],
                ) by {
                    assert(self.uids().contains(self.uids()[j]));
                }
            }
            let j_opt = self.get_minimum(&self.unsettled_nodes);
            match j_opt {
                Some(j) => {
                    let ghost pre = *self;
                    let ghost st0 = pre.sids();
                    let ghost un0 = pre.uids();
                    let ghost dm = pre.dmap();
                    let ghost pm = pre.pmap();
                    let ghost u = un0[j as int];
                    proof {
                        assert(un0.contains(u));
                        assert forall|x: Seq<char>| #[trigger]
                            un0.contains(x) implies dm[u] <= dm[x] by {
                            let i = choose|i: int| 0 <= i < un0.len() && un0[i] == x;
                            assert(dm[un0[j as int]] <= dm[un0[i]]);
                        }
                        lemma_frontier_min_optimal(es, dm, st0, un0, src, u);
                        assert(!st0.contains(u));
                    }
                    let node = self.unsettled_nodes.remove(j);
                    self.settled_nodes.push(node.clone());
                    proof {
                        assert(node@ == u);
                        let st1 = self.sids();
                        let un1 = self.uids();
                        assert(st1 =~= st0.push(u));
                        assert forall|i: int|
                            0 <= i < un1.len() implies un1[i] == #[trigger] un0.remove(
                            j as int,
                        )[i] by {
                            if i < j {
                                assert(self.unsettled_nodes@[i] == pre.unsettled_nodes@[i]);
                            } else {
                                assert(self.unsettled_nodes@[i] == pre.unsettled_nodes@[i + 1]);
                            }
                        }
                        assert(un1 =~= un0.remove(j as int));
                        lemma_remove_membership(un0, j as int);
                        // the settled order stays duplicate-free
                        assert forall|a: int, b: int|
                            0 <= a < b < st1.len() implies st1[a] != st1[b] by {
                            if b == st1.len() - 1 {
                                assert(st1[a] == st0[a]);
                                assert(st0.contains(st0[a]));
                            } else {
                                assert(st0[a] != st0[b]);
                            }
                        }
                        assert(st1.no_duplicates());
                        // membership in the new settled order
                        assert forall|x: Seq<char>| #[trigger]
                            st1.contains(x) implies (st0.contains(x) || x == u) by {
                            let i = choose|i: int| 0 <= i < st1.len() && st1[i] == x;
                            if i < st0.len() {
                                assert(st0[i] == x);
                            }
                        }
                        assert forall|x: Seq<char>| st0.contains(x) implies #[trigger] st1.contains(
                            x,
                        ) by {
                            let i = choose|i: int| 0 <= i < st0.len() && st0[i] == x;
                            assert(st1[i] == x);
                        }
                        assert(st1[st1.len() - 1] == u);
                        assert(st1.contains(u));
                        // settled and frontier stay apart, and the
                        // table's ids still cover exactly both
                        assert forall|k: Seq<char>| #[trigger]
                            st1.contains(k) implies !un1.contains(k) by {
                            if k == u {
                                assert(!un1.contains(u));
                            } else {
                                assert(st0.contains(k));
                                assert(!un0.contains(k));
                            }
                        }
                        assert forall|k: Seq<char>|
                            #![trigger dm.contains_key(k)]
                            #![trigger st1.contains(k)]
                            #![trigger un1.contains(k)]
                            dm.contains_key(k) <==> (st1.contains(k) || un1.contains(k)) by {
                            assert(dm.contains_key(k) <==> (st0.contains(k) || un0.contains(k)));
                        }
                        // the source heads the settled order
                        if st0.len() == 0 {
                            assert(un0 =~= seq![src]);
                            assert(u == un0[j as int]);
                            assert(u == src);
                            assert(st1[0] == src);
                        } else {
                            assert(st1[0] == st0[0]);
                        }
                        // predecessor links keep pointing strictly
                        // backwards in the settled order
                        assert forall|k: Seq<char>| #[trigger]
                            pm.contains_key(k) implies st1.contains(pm[k]) && dm.contains_key(
                            pm[k],
                        ) && linked(es, dm, pm[k], k) by {
                            assert(st0.contains(pm[k]));
                        }
                        assert forall|k: Seq<char>| #[trigger]
                            pm.contains_key(k) && st1.contains(k) implies st1.index_of(pm[k])
                            < st1.index_of(k) by {
                            assert(st0.contains(pm[k]));
                            lemma_index_of_push(st0, u, pm[k]);
                            if k == u {
                                assert(st1.index_of(k) == st0.len());
                                assert(st1.index_of(pm[k]) == st0.index_of(pm[k]));
                                assert(0 <= st0.index_of(pm[k]) < st0.len());
                            } else {
                                assert(st0.contains(k));
                                lemma_index_of_push(st0, u, k);
                                assert(st0.index_of(pm[k]) < st0.index_of(k));
                            }
                        }
                        // lower bounds: the old settled keep theirs,
                        // the newly settled vertex just earned its own
                        assert forall|v: Seq<char>| #[trigger]
                            st1.contains(v) implies lb_ok(es, dm, src, v) by {
                            if v != u {
                                assert(st0.contains(v));
                            }
                        }
                        // distances along the settled order still rise
                        assert forall|a: int, b: int|
                            0 <= a <= b < st1.len() implies dm[st1[a]] <= dm[st1[b]] by {
                            if b == st1.len() - 1 {
                                if a < b {
                                    assert(st0.contains(st0[a]));
                                    assert(dm[st0[a]] <= dm[u]);
                                }
                            } else {
                                assert(dm[st0[a]] <= dm[st0[b]]);
                            }
                        }
                        // settled values stay below frontier values
                        assert forall|v: Seq<char>, u2: Seq<char>|
                            #![trigger st1.contains(v), un1.contains(u2)]
                            st1.contains(v) && un1.contains(u2) implies dm[v] <= dm[u2] by {
                            assert(un0.contains(u2));
                            if v == u {
                                assert(dm[u] <= dm[u2]);
                            } else {
                                assert(st0.contains(v));
                            }
                        }
                        // the budget grows with the settled set
                        lemma_sw_mono(es, st0.to_set(), st1.to_set());
                        assert(st0.to_set().subset_of(st1.to_set()));
                        assert forall|u2: Seq<char>| #[trigger]
                            un1.contains(u2) implies 0 <= dm[u2] <= settled_weight(
                            es,
                            st1.to_set(),
                        ) by {
                            assert(un0.contains(u2));
                            assert(dm[u2] <= settled_weight(es, st0.to_set()));
                        }
                        assert forall|a: int|
                            0 <= a < st1.len() implies 0 <= dm[#[trigger] st1[a]]
                            <= settled_weight(es, st1.take(a).to_set()) by {
                            if a < st1.len() - 1 {
                                assert(st1.take(a) =~= st0.take(a));
                                assert(dm[st0[a]] <= settled_weight(es, st0.take(a).to_set()));
                            } else {
                                assert(st1.take(a) =~= st0);
                                assert(un0.contains(u));
                                assert(dm[u] <= settled_weight(es, st0.to_set()));
                            }
                        }
                        // every settled source but the new one is relaxed
                        assert forall|j2: int|
                            0 <= j2 < es.len() && st1.contains(
                                (#[trigger] es[j2]).source.id@,
                            ) && es[j2].source.id@ != u implies self.relaxed_edge(j2) by {
                            assert(st0.contains(es[j2].source.id@));
                            assert(pre.relaxed_edge(j2));
                        }
                        assert(self.base_inv(src));
                        assert(self.closure_except(u));
                        lemma_id_count(st1, es, src);
                    }
                    self.find_minimal_distance(&node, Ghost(src));
                    proof {
                        lemma_id_count(self.sids(), es, src);
                    }
                },
                None => {
                    proof {
                        assert(false);
                    }
                },
            }
        }
        proof {
            let dm = self.dmap();
            let pm = self.pmap();
            let st = self.sids();
            let un = self.uids();
            assert(un.len() == 0);
            assert forall|k: Seq<char>| #[trigger] dm.contains_key(k) implies st.contains(k) by {
                assert(!un.contains(k));
            }
            assert forall|j: int|
                0 <= j < es.len() && dm.contains_key(
                    (#[trigger] es[j]).source.id@,
                ) implies dm.contains_key(es[j].destination.id@) by {
                assert(st.contains(es[j].source.id@));
                assert(self.relaxed_edge(j));
            }
            assert forall|t: Seq<char>| #[trigger] dm.contains_key(t) implies reachable(
                es,
                src,
                t,
            ) by {
                lemma_chain_path(es, dm, pm, st, src, t);
            }
            assert forall|t: Seq<char>| reachable(es, src, t) implies #[trigger] dm.contains_key(
                t,
            ) by {
                let p = choose|p: Seq<int>| path_ok(es, p, src, t);
                lemma_closed_reaches(es, dm, src, p, t);
            }
            assert forall|t: Seq<char>| #[trigger] dm.contains_key(t) implies min_dist_is(
                es,
                src,
                t,
                dm[t],
            ) by {
                lemma_chain_path(es, dm, pm, st, src, t);
                assert(st.contains(t));
                assert(lb_ok(es, dm, src, t));
            }
            assert(self.done(src));
            assert(self.wf());
        }
    }

    /// Whether this vertex's id was settled by the last run.
    pub fn is_settled(&self, vertex: &Vertex) -> (r: bool)
        ensures
            r == self.sids().contains(vertex.id@),
    {
        holds_id(&self.settled_nodes, &vertex.id)
    }

    /// The finalized cost from the last run's source to `destination`,
    /// or `i32::MAX` when that vertex was not reached.
    pub fn get_shortest_distance(&self, destination: &Vertex) -> (d: i32)
        requires
            self.wf(),
        ensures
            self.dmap().contains_key(destination.id@) ==> d as int == self.dmap()[
                destination.id@
            ],
            !self.dmap().contains_key(destination.id@) ==> d == i32::MAX,
    {
        match find_key(&self.distance, &destination.id) {
            Some(i) => {
                proof {
                    lemma_aview_at(self.distance@, i as int);
                }
                self.distance[i].1
            },
            None => i32::MAX,
        }
    }

    /// Reconstructs the travel-ordered id sequence of the best path the
    /// last run found to `target`, by walking predecessor links
    /// backwards and reversing.  When `target` has no predecessor entry
    /// — it is the source itself, or it was never reached — the result
    /// is empty; callers tell the two cases apart by comparing ids or
    /// by querying the distance.
    pub fn get_path(&self, target: &Vertex) -> (r: Vec<String>)
        requires
            self.wf(),
        ensures
            !self.pmap().contains_key(target.id@) ==> r@.len() == 0,
            self.pmap().contains_key(target.id@) ==> {
                let ids = r.deep_view();
                &&& ids.len() >= 2
                &&& ids[ids.len() - 1] == target.id@
                &&& !self.pmap().contains_key(ids[0])
                &&& (forall|i: int|
                    0 < i < ids.len() ==> self.pmap().contains_key(#[trigger] ids[i])
                        && self.pmap()[ids[i]] == ids[i - 1])
                &&& ids.no_duplicates()
            },
    {
        let first = find_key(&self.predecessors, &target.id);
        if first.is_none() {
            return Vec::new();
        }
        let mut step: String = target.id.clone();
        let mut rev: Vec<String> = Vec::new();
        rev.push(step.clone());
        let mut cursor = find_key(&self.predecessors, &step);
        proof {
            assert(rev.deep_view() =~= seq![target.id@]);
            lemma_aview_contains(self.predecessors@);
            match first {
                Some(i) => {
                    assert(self.predecessors@[i as int].0@ == target.id@);
                    assert(aview(self.predecessors@).contains_key(target.id@));
                },
                None => {},
            }
            assert(self.pmap().contains_key(target.id@));
            assert(self.sids().contains(target.id@));
        }
        while cursor.is_some()
            invariant
                self.wf(),
                rev.deep_view().len() >= 1,
                rev.deep_view()[0] == target.id@,
                step@ == rev.deep_view()[rev.deep_view().len() - 1],
                self.sids().contains(step@),
                forall|i: int|
                    0 <= i < rev.deep_view().len() - 1 ==> self.pmap().contains_key(
                        #[trigger] rev.deep_view()[i],
                    ) && self.pmap()[rev.deep_view()[i]] == rev.deep_view()[i + 1],
                forall|i: int|
                    0 <= i < rev.deep_view().len() ==> self.sids().contains(
                        #[trigger] rev.deep_view()[i],
                    ),
                forall|a: int, b: int|
                    0 <= a < b < rev.deep_view().len() ==> self.sids().index_of(
                        rev.deep_view()[b],
                    ) < self.sids().index_of(rev.deep_view()[a]),
                match cursor {
                    Some(i) => i < self.predecessors@.len() && self.predecessors@[
                        i as int
                    ].0@ == step@,
                    None => !self.pmap().contains_key(step@),
                },
            decreases self.sids().index_of(step@),
        {
            let i = match cursor {
                Some(i) => i,
                None => {
                    proof {
                        assert(false);
                    }
                    0
                },
            };
            proof {
                lemma_aview_at(self.predecessors@, i as int);
                assert(self.pmap().contains_key(step@));
                assert(self.pmap()[step@] == self.predecessors@[i as int].1@);
            }
            let ghost prev_ids = rev.deep_view();
            let p = self.predecessors[i].1.clone();
            rev.push(p.clone());
            step = p;
            cursor = find_key(&self.predecessors, &step);
            proof {
                let ids = rev.deep_view();
                assert(ids =~= prev_ids.push(step@));
                assert(ids[ids.len() - 1] == step@);
                assert forall|a: int, b: int|
                    0 <= a < b < ids.len() implies self.sids().index_of(ids[b])
                    < self.sids().index_of(ids[a]) by {
                    if b == ids.len() - 1 {
                        let old_last = prev_ids[prev_ids.len() - 1];
                        assert(self.pmap().contains_key(old_last));
                        assert(self.sids().index_of(step@) < self.sids().index_of(old_last));
                        if a < prev_ids.len() - 1 {
                            assert(self.sids().index_of(prev_ids[prev_ids.len() - 1])
                                < self.sids().index_of(prev_ids[a]));
                        }
                    }
                }
            }
        }
        // the walk stands in settle-backwards order; reverse it
        let mut path: Vec<String> = Vec::new();
        let mut i: usize = rev.len();
        while i > 0
            invariant
                i <= rev@.len(),
                path.deep_view().len() == rev.deep_view().len() - i,
                forall|k: int|
                    0 <= k < path.deep_view().len() ==> #[trigger] path.deep_view()[k]
                        == rev.deep_view()[rev.deep_view().len() - 1 - k],
            decreases i,
        {
            let ghost pdv0 = path.deep_view();
            i -= 1;
            path.push(rev[i].clone());
            proof {
                assert(path.deep_view() =~= pdv0.push(rev.deep_view()[i as int]));
            }
        }
        proof {
            let ids = path.deep_view();
            let rdv = rev.deep_view();
            assert(ids.len() == rdv.len());
            assert(rdv[0] == target.id@);
            assert(self.pmap().contains_key(rdv[0]));
            assert(!self.pmap().contains_key(rdv[rdv.len() - 1]));
            assert(rdv.len() >= 2);
            assert(ids[ids.len() - 1] == target.id@);
            assert(ids[0] == rdv[rdv.len() - 1]);
            assert forall|k: int|
                0 < k < ids.len() implies self.pmap().contains_key(#[trigger] ids[k])
                && self.pmap()[ids[k]] == ids[k - 1] by {
                let j = ids.len() - 1 - k;
                assert(ids[k] == rdv[j]);
                assert(self.pmap()[rdv[j]] == rdv[j + 1]);
                assert(ids[k - 1] == rdv[j + 1]);
            }
            assert forall|a: int, b: int| 0 <= a < b < ids.len() implies ids[a] != ids[b] by {
                let ja = ids.len() - 1 - a;
                let jb = ids.len() - 1 - b;
                assert(ids[a] == rdv[ja] && ids[b] == rdv[jb]);
                assert(self.sids().index_of(rdv[ja]) < self.sids().index_of(rdv[jb]));
            }
            assert(ids.no_duplicates());
        }
        path
    }

    /// The best known cost for an id, straight from the distance table.
    fn dist_of(&self, id: &String) -> (d: Option<i32>)
        requires
            akeys(self.distance@).no_duplicates(),
        ensures
            match d {
                Some(v) => self.dmap().contains_key(id@) && v as int == self.dmap()[id@],
                None => !self.dmap().contains_key(id@),
            },
    {
        match find_key(&self.distance, id) {
            Some(i) => {
                proof {
                    lemma_aview_at(self.distance@, i as int);
                }
                Some(self.distance[i].1)
            },
            None => None,
        }
    }

    /// The weight of the last edge in the engine's list from `node` to
    /// `target`, or zero when no such edge exists.
    pub fn get_distance(&self, node: &Vertex, target: &Vertex) -> (w: i32)
        ensures
            w as int == last_edge_weight(self.es(), node.id@, target.id@),
    {
        let mut weight: i32 = 0;
        let mut i: usize = 0;
        while i < self.edges.len()
            invariant
                i <= self.es().len(),
                weight as int == last_edge_weight(self.es().take(i as int), node.id@, target.id@),
            decreases self.es().len() - i,
        {
            if self.edges[i].source.id == node.id && self.edges[i].destination.id == target.id {
                weight = self.edges[i].weight;
            }
            i += 1;
            proof {
                assert(self.es().take(i as int).drop_last() =~= self.es().take(i as int - 1));
                assert(self.es().take(i as int).last() == self.es()[i as int - 1]);
            }
        }
        proof {
            assert(self.es().take(self.es().len() as int) =~= self.es());
        }
        weight
    }

    /// The destinations of this vertex's outgoing edges whose target is
    /// not yet settled, one entry per such edge, in edge order.
    pub fn get_neighbors(&self, node: &Vertex) -> (r: Vec<Vertex>)
        ensures
            r@ == unsettled_targets(self.es(), node.id@, self.sids()),
    {
        let mut neighbors: Vec<Vertex> = Vec::new();
        let mut i: usize = 0;
        while i < self.edges.len()
            invariant
                i <= self.es().len(),
                neighbors@ =~= unsettled_targets(self.es().take(i as int), node.id@, self.sids()),
            decreases self.es().len() - i,
        {
            if self.edges[i].source.id == node.id && !self.is_settled(&self.edges[i].destination) {
                neighbors.push(self.edges[i].destination.clone());
            }
            i += 1;
            proof {
                assert(self.es().take(i as int).drop_last() =~= self.es().take(i as int - 1));
                assert(self.es().take(i as int).last() == self.es()[i as int - 1]);
            }
        }
        proof {
            assert(self.es().take(self.es().len() as int) =~= self.es());
        }
        neighbors
    }

    /// Relaxes every outgoing edge of `node`, the vertex settled last:
    /// an unsettled destination offered a strictly better cost takes
    /// it, records `node` as its predecessor, and joins the frontier.
    #[verifier::rlimit(100)]
    fn find_minimal_distance(&mut self, node: &String, Ghost(src): Ghost<Seq<char>>)
        requires
            old(self).base_inv(src),
            old(self).sids().len() > 0,
            old(self).sids().last() == node@,
            old(self).closure_except(node@),
        ensures
            final(self).base_inv(src),
            final(self).closure_full(),
            final(self).es() == old(self).es(),
            final(self).vs() == old(self).vs(),
            final(self).sids() == old(self).sids(),
    {
        let ghost es = old(self).es();
        let ghost st = old(self).sids();
        proof {
            assert(st.contains(node@));
        }
        let node_dist = match self.dist_of(node) {
            Some(v) => v,
            None => {
                proof {
                    assert(false);
                }
                0
            },
        };
        let mut k: usize = 0;
        while k < self.edges.len()
            invariant
                self.base_inv(src),
                self.closure_except(node@),
                self.es() == es,
                self.vs() == old(self).vs(),
                self.sids() == st,
                st.len() > 0,
                st.last() == node@,
                forall|j: int|
                    0 <= j < k && (#[trigger] self.es()[j]).source.id@ == node@
                        ==> self.relaxed_edge(j),
                self.dmap().contains_key(node@),
                node_dist as int == self.dmap()[node@],
                k <= self.es().len(),
            decreases self.es().len() - k,
        {
            let ghost kk = k as int;
            if self.edges[k].source.id == *node {
                let target_id = self.edges[k].destination.id.clone();
                let ghost tid = target_id@;
                let w = self.edges[k].weight;
                proof {
                    assert(0 <= w);
                }
                let target_settled = self.is_settled(&self.edges[k].destination);
                if !target_settled {
                    proof {
                        // `node` sits last in the settled order, so the
                        // budget invariant bounds the candidate sum.
                        let a = st.len() - 1;
                        assert(st[a] == node@);
                        if st.take(a).contains(node@) {
                            let i = choose|i: int| 0 <= i < a && st.take(a)[i] == node@;
                            assert(st[i] == st[a]);
                            assert(false);
                        }
                        assert(!st.take(a).to_set().contains(node@));
                        lemma_sw_insert_edge(es, st.take(a).to_set(), kk);
                        assert forall|x: Seq<char>|
                            st.to_set().contains(x) implies st.take(a).to_set().insert(
                            node@,
                        ).contains(x) by {
                            let i = choose|i: int| 0 <= i < st.len() && st[i] == x;
                            if i < a {
                                assert(st.take(a)[i] == x);
                            }
                        }
                        assert(st.take(a).to_set().insert(node@) =~= st.to_set());
                        lemma_sw_bounds(es, st.to_set());
                        assert(node_dist as int <= settled_weight(es, st.take(a).to_set()));
                        assert(node_dist as int + w as int <= settled_weight(es, st.to_set()));
                        assert(node_dist as int + w as int <= i32::MAX);
                    }
                    let candidate = node_dist + w;
                    let prior = self.dist_of(&target_id);
                    let improve = match prior {
                        Some(d) => candidate < d,
                        None => true,
                    };
                    if improve {
                        let ghost pre = *self;
                        let ghost dm0 = pre.dmap();
                        let ghost pm0 = pre.pmap();
                        let ghost un0 = pre.uids();
                        upsert_i32(&mut self.distance, &target_id, candidate);
                        upsert_str(&mut self.predecessors, &target_id, node);
                        let pushed = match prior {
                            Some(_) => false,
                            None => true,
                        };
                        if pushed {
                            self.unsettled_nodes.push(target_id.clone());
                        }
                        proof {
                            let dm1 = self.dmap();
                            let pm1 = self.pmap();
                            let un1 = self.uids();
                            lemma_map_values_insert(
                                aview(pre.distance@),
                                |v: i32| v as int,
                                tid,
                                candidate,
                            );
                            assert(dm1 =~= dm0.insert(tid, candidate as int));
                            lemma_map_values_insert(
                                aview(pre.predecessors@),
                                |v: String| v@,
                                tid,
                                *node,
                            );
                            assert(pm1 =~= pm0.insert(tid, node@));
                            assert(!st.contains(tid));
                            assert(st.contains(src));
                            assert(tid != src);
                            assert(node@ != tid);
                            assert(dm1[node@] == dm0[node@]);
                            if pushed {
                                assert(!dm0.contains_key(tid));
                                assert(!un0.contains(tid));
                                assert(un1 =~= un0.push(tid));
                                assert forall|x: Seq<char>| #[trigger]
                                    un1.contains(x) implies (un0.contains(x) || x == tid) by {
                                    let i = choose|i: int| 0 <= i < un1.len() && un1[i] == x;
                                    if i < un0.len() {
                                        assert(un0[i] == x);
                                    }
                                }
                                assert forall|a2: int, b2: int|
                                    0 <= a2 < b2 < un1.len() implies un1[a2] != un1[b2] by {
                                    if b2 == un1.len() - 1 {
                                        assert(un0[a2] == un1[a2]);
                                        assert(un0.contains(un1[a2]));
                                    }
                                }
                                assert(un1.no_duplicates());
                                assert(un1[un1.len() - 1] == tid);
                            } else {
                                assert(dm0.contains_key(tid));
                                assert(un1 == un0);
                                assert(un0.contains(tid));
                            }
                            assert(un1.contains(tid));
                            // the frontier and the tables still agree
                            assert forall|x: Seq<char>|
                                #![trigger dm1.contains_key(x)]
                                #![trigger st.contains(x)]
                                #![trigger un1.contains(x)]
                                dm1.contains_key(x) <==> (st.contains(x) || un1.contains(x)) by {
                                if x != tid {
                                    assert(dm1.contains_key(x) == dm0.contains_key(x));
                                    if un1.contains(x) && !un0.contains(x) {
                                        let i = choose|i: int|
                                            0 <= i < un1.len() && un1[i] == x;
                                        assert(i == un1.len() - 1 || un0.contains(x));
                                    }
                                    if un0.contains(x) {
                                        let i = choose|i: int|
                                            0 <= i < un0.len() && un0[i] == x;
                                        assert(un1[i] == x);
                                    }
                                }
                            }
                            // predecessor table: domain and tight links
                            assert forall|x: Seq<char>| #[trigger]
                                pm1.contains_key(x) implies dm1.contains_key(pm1[x])
                                && st.contains(pm1[x]) && linked(es, dm1, pm1[x], x) by {
                                if x == tid {
                                    assert(es[kk].source.id@ == node@);
                                    assert(es[kk].destination.id@ == tid);
                                    assert(dm1[tid] == dm1[node@] + es[kk].weight);
                                    assert(linked(es, dm1, node@, tid));
                                } else {
                                    assert(pm0.contains_key(x));
                                    assert(pm1[x] == pm0[x]);
                                    assert(st.contains(pm0[x]));
                                    assert(pm0[x] != tid);
                                    assert(linked(es, dm0, pm0[x], x));
                                    let j = choose|j: int|
                                        0 <= j < es.len() && (#[trigger] es[j]).source.id@ == pm0[x]
                                            && es[j].destination.id@ == x && dm0[x] == dm0[pm0[x]]
                                            + es[j].weight;
                                    assert(dm1[x] == dm0[x]);
                                    assert(dm1[pm0[x]] == dm0[pm0[x]]);
                                    assert(linked(es, dm1, pm0[x], x));
                                }
                            }
                            assert forall|x: Seq<char>| #[trigger]
                                pm1.contains_key(x) && st.contains(x) implies st.index_of(pm1[x])
                                < st.index_of(x) by {
                                assert(x != tid);
                                assert(pm0.contains_key(x));
                            }
                            // settled lower bounds are untouched
                            assert forall|v: Seq<char>| #[trigger]
                                st.contains(v) implies lb_ok(es, dm1, src, v) by {
                                assert(v != tid);
                                assert(lb_ok(es, dm0, src, v));
                                assert(dm1[v] == dm0[v]);
                                assert forall|p: Seq<int>|
                                    path_ok(es, p, src, v) implies dm1[v] <= #[trigger] path_cost(
                                    es,
                                    p,
                                ) by {
                                    assert(dm0[v] <= path_cost(es, p));
                                }
                            }
                            // settled order values are untouched
                            assert forall|a2: int, b2: int|
                                0 <= a2 <= b2 < st.len() implies dm1[st[a2]] <= dm1[st[b2]] by {
                                assert(st.contains(st[a2]));
                                assert(st.contains(st[b2]));
                                assert(st[a2] != tid && st[b2] != tid);
                                assert(dm0[st[a2]] <= dm0[st[b2]]);
                            }
                            // settled stays below the frontier
                            assert forall|v: Seq<char>, u2: Seq<char>|
                                #![trigger st.contains(v), un1.contains(u2)]
                                st.contains(v) && un1.contains(u2) implies dm1[v] <= dm1[u2] by {
                                assert(v != tid);
                                if u2 == tid {
                                    let a2 = choose|a2: int| 0 <= a2 < st.len() && st[a2] == v;
                                    assert(dm0[st[a2]] <= dm0[st[st.len() - 1]]);
                                    assert(dm1[tid] == candidate as int);
                                } else {
                                    assert(un0.contains(u2));
                                    assert(dm0[v] <= dm0[u2]);
                                }
                            }
                            // the frontier budget
                            assert forall|u2: Seq<char>| #[trigger]
                                un1.contains(u2) implies 0 <= dm1[u2] <= settled_weight(
                                es,
                                st.to_set(),
                            ) by {
                                if u2 == tid {
                                    assert(dm1[tid] == candidate as int);
                                } else {
                                    assert(un0.contains(u2));
                                    assert(dm1[u2] == dm0[u2]);
                                }
                            }
                            assert forall|a2: int|
                                0 <= a2 < st.len() implies 0 <= dm1[#[trigger] st[a2]]
                                <= settled_weight(es, st.take(a2).to_set()) by {
                                assert(st.contains(st[a2]));
                                assert(st[a2] != tid);
                                assert(dm1[st[a2]] == dm0[st[a2]]);
                            }
                            // every table id is the source or some destination
                            assert forall|x: Seq<char>| #[trigger]
                                dm1.contains_key(x) implies x == src || exists|j: int|
                                0 <= j < es.len() && (#[trigger] es[j]).destination.id@ == x by {
                                if x == tid {
                                    assert(es[kk].destination.id@ == tid);
                                } else {
                                    assert(dm0.contains_key(x));
                                }
                            }
                            // relaxation done so far survives the update
                            assert forall|j: int|
                                0 <= j < es.len() && st.contains(
                                    (#[trigger] es[j]).source.id@,
                                ) && es[j].source.id@ != node@ implies self.relaxed_edge(j) by {
                                assert(pre.relaxed_edge(j));
                                assert(es[j].source.id@ != tid);
                                assert(dm1[es[j].source.id@] == dm0[es[j].source.id@]);
                                if es[j].destination.id@ == tid {
                                    assert(dm1[tid] <= dm0[tid] || !dm0.contains_key(tid));
                                } else {
                                    assert(dm1[es[j].destination.id@] == dm0[es[j].destination.id@]);
                                }
                            }
                            assert forall|j: int|
                                0 <= j < kk && (#[trigger] es[j]).source.id@ == node@
                                    implies self.relaxed_edge(j) by {
                                assert(pre.relaxed_edge(j));
                                assert(dm1[node@] == dm0[node@]);
                                if es[j].destination.id@ == tid {
                                } else {
                                    assert(dm1[es[j].destination.id@] == dm0[es[j].destination.id@]);
                                }
                            }
                            assert(self.relaxed_edge(kk));
                            // the remaining clauses, spelled out
                            assert(akeys(self.distance@).no_duplicates());
                            assert(akeys(self.predecessors@).no_duplicates());
                            assert(st.no_duplicates());
                            assert(dm1.contains_key(src) && dm1[src] == 0);
                            assert(st.len() > 0);
                            assert(st[0] == src);
                            assert forall|x: Seq<char>| #[trigger]
                                st.contains(x) implies !un1.contains(x) by {
                                assert(x != tid);
                                assert(!un0.contains(x));
                            }
                            assert forall|x: Seq<char>| #[trigger]
                                pm1.contains_key(x) <==> (dm1.contains_key(x) && x != src) by {
                                if x != tid {
                                    assert(pm1.contains_key(x) == pm0.contains_key(x));
                                    assert(dm1.contains_key(x) == dm0.contains_key(x));
                                }
                            }
                            assert(self.base_inv(src));
                        }
                    } else {
                        proof {
                            // the destination already holds a cost at
                            // least as good as the candidate
                            assert(self.dmap().contains_key(tid));
                            assert(self.dmap()[tid] <= candidate as int);
                            assert(self.relaxed_edge(kk));
                        }
                    }
                } else {
                    proof {
                        // a settled destination was finalized below the
                        // candidate already
                        let a2 = choose|a2: int| 0 <= a2 < st.len() && st[a2] == tid;
                        assert(self.dmap()[st[a2]] <= self.dmap()[st[st.len() - 1]]);
                        assert(self.dmap().contains_key(tid));
                        assert(self.relaxed_edge(kk));
                    }
                }
            }
            k += 1;
        }
        proof {
            assert forall|j: int|
                0 <= j < self.es().len() && self.sids().contains(
                    (#[trigger] self.es()[j]).source.id@,
                ) implies self.relaxed_edge(j) by {
                if self.es()[j].source.id@ != node@ {
                    assert(self.closure_except(node@));
                }
            }
        }
    }

    /// The index of a frontier vertex whose best known distance is
    /// minimal, or `None` when the frontier is empty.
    fn get_minimum(&self, vertices: &Vec<String>) -> (r: Option<usize>)
        requires
            akeys(self.distance@).no_duplicates(),
            forall|j: int|
                0 <= j < vertices.deep_view().len() ==> self.dmap().contains_key(
                    #[trigger] vertices.deep_view()[j],
                ),
        ensures
            match r {
                Some(i) => i < vertices@.len() && forall|j: int|
                    0 <= j < vertices.deep_view().len() ==> self.dmap()[vertices.deep_view()[
                        i as int
                    ]] <= self.dmap()[#[trigger] vertices.deep_view()[j]],
                None => vertices@.len() == 0,
            },
    {
        if vertices.len() == 0 {
            return None;
        }
        let mut best: usize = 0;
        let mut best_dist: i32 = match self.dist_of(&vertices[0]) {
            Some(v) => v,
            None => i32::MAX,  // unreachable under the precondition
        };
        let mut i: usize = 1;
        while i < vertices.len()
            invariant
                akeys(self.distance@).no_duplicates(),
                forall|j: int|
                    0 <= j < vertices.deep_view().len() ==> self.dmap().contains_key(
                        #[trigger] vertices.deep_view()[j],
                    ),
                1 <= i <= vertices@.len(),
                best < i,
                best_dist as int == self.dmap()[vertices.deep_view()[best as int]],
                forall|j: int|
                    0 <= j < i ==> best_dist as int <= self.dmap()[
                        #[trigger] vertices.deep_view()[j]
                    ],
            decreases vertices@.len() - i,
        {
            let d = match self.dist_of(&vertices[i]) {
                Some(v) => v,
                None => i32::MAX,  // unreachable under the precondition
            };
            if d < best_dist {
                best = i;
                best_dist = d;
            }
            i += 1;
        }
        Some(best)
    }
}

/// Determinism of distances: two completed runs over the same edge
/// list from the same source — by one engine run again, or by another
/// engine — leave identical distance tables.
pub proof fn lemma_distances_deterministic(a: Djikstra, b: Djikstra, src: Seq<char>)
    requires
        a.done(src),
        b.done(src),
        a.es() == b.es(),
    ensures
        a.dmap() == b.dmap(),
{
    let es = a.es();
    assert forall|t: Seq<char>| #[trigger]
        a.dmap().contains_key(t) implies b.dmap().contains_key(t) && a.dmap()[t] == b.dmap()[
        t
    ] by {
        assert(reachable(es, src, t));
        crate::route::lemma_min_unique(es, src, t, a.dmap()[t], b.dmap()[t]);
    }
    assert forall|t: Seq<char>| #[trigger] b.dmap().contains_key(t) implies a.dmap().contains_key(
        t,
    ) by {
        assert(reachable(es, src, t));
    }
    assert(a.dmap() =~= b.dmap());
}

/// Path/distance consistency: an id sequence shaped as `get_path`
/// returns it — a tight predecessor chain from an entry without a
/// predecessor up to the target — starts at the source, and walks real
/// edges of the graph whose weights sum to exactly the target's
/// distance-table entry.
pub proof fn lemma_route_cost(d: Djikstra, src: Seq<char>, ids: Seq<Seq<char>>)
    requires
        d.done(src),
        ids.len() >= 2,
        !d.pmap().contains_key(ids[0]),
        forall|i: int|
            0 < i < ids.len() ==> d.pmap().contains_key(#[trigger] ids[i]) && d.pmap()[ids[i]]
                == ids[i - 1],
    ensures
        ids[0] == src,
        exists|p: Seq<int>|
            path_ok(d.es(), p, src, ids[ids.len() - 1]) && path_cost(d.es(), p) == d.dmap()[
                ids[ids.len() - 1]
            ] && p.len() == ids.len() - 1,
    decreases ids.len(),
{
    let es = d.es();
    let dm = d.dmap();
    let pm = d.pmap();
    let last = ids[ids.len() - 1];
    assert(pm.contains_key(ids[1]) && pm[ids[1]] == ids[0]);
    assert(dm.contains_key(ids[0]));
    assert(ids[0] == src);
    assert(dm[src] == 0);
    if ids.len() == 2 {
        assert(linked(es, dm, ids[0], ids[1]));
        let j = choose|j: int|
            0 <= j < es.len() && (#[trigger] es[j]).source.id@ == ids[0] && es[
                j
            ].destination.id@ == ids[1] && dm[ids[1]] == dm[ids[0]] + es[j].weight;
        let q = Seq::<int>::empty();
        assert(path_ok(es, q, src, src));
        lemma_path_extend(es, q, src, src, j);
        assert(path_ok(es, q.push(j), src, last) && path_cost(es, q.push(j)) == dm[last]);
        assert(q.push(j).len() == 1);
    } else {
        let prefix = ids.take(ids.len() - 1);
        let mid = ids[ids.len() - 2];
        assert(prefix.len() == ids.len() - 1);
        assert(prefix[0] == ids[0]);
        assert forall|i: int|
            0 < i < prefix.len() implies d.pmap().contains_key(#[trigger] prefix[i])
            && d.pmap()[prefix[i]] == prefix[i - 1] by {
            assert(prefix[i] == ids[i]);
            assert(prefix[i - 1] == ids[i - 1]);
        }
        lemma_route_cost(d, src, prefix);
        assert(prefix[prefix.len() - 1] == mid);
        let p0 = choose|p: Seq<int>|
            path_ok(es, p, src, mid) && path_cost(es, p) == dm[mid] && p.len() == prefix.len()
                - 1;
        assert(pm.contains_key(last) && pm[last] == mid);
        assert(linked(es, dm, mid, last));
        let j = choose|j: int|
            0 <= j < es.len() && (#[trigger] es[j]).source.id@ == mid && es[j].destination.id@
                == last && dm[last] == dm[mid] + es[j].weight;
        lemma_path_extend(es, p0, src, mid, j);
        assert(path_ok(es, p0.push(j), src, last) && path_cost(es, p0.push(j)) == dm[last]);
        assert(p0.push(j).len() == ids.len() - 1);
    }
}

/// An unreachable target is absent from both result tables: its path
/// query yields the empty sequence and its distance query the
/// unreached sentinel.
pub proof fn lemma_unreachable_absent(d: Djikstra, src: Seq<char>, t: Seq<char>)
    requires
        d.done(src),
        !reachable(d.es(), src, t),
    ensures
        !d.dmap().contains_key(t),
        !d.pmap().contains_key(t),
{
}

/// With no edges at all, a run reaches only the source itself, at
/// distance zero; every other id stays out of both tables.
pub proof fn lemma_empty_graph(d: Djikstra, src: Seq<char>)
    requires
        d.done(src),
        d.es().len() == 0,
    ensures
        forall|t: Seq<char>| #[trigger] d.dmap().contains_key(t) <==> t == src,
        d.dmap()[src] == 0,
        forall|t: Seq<char>| !d.pmap().contains_key(t),
{
    let es = d.es();
    assert forall|t: Seq<char>| #[trigger] d.dmap().contains_key(t) implies t == src by {
        assert(reachable(es, src, t));
        let p = choose|p: Seq<int>| path_ok(es, p, src, t);
        if p.len() > 0 {
            assert(0 <= p[0] < 0);
        }
    }
    assert forall|t: Seq<char>| !(#[trigger] d.pmap().contains_key(t)) by {
        if d.pmap().contains_key(t) {
            assert(d.dmap().contains_key(t));
        }
    }
}

/// Self-loop tolerance: a run over a graph extended by a self-loop of
/// non-negative weight leaves exactly the distance table that a run
/// over the graph without it leaves.
pub proof fn lemma_self_loop_harmless(a: Djikstra, b: Djikstra, e: Edge, src: Seq<char>)
    requires
        a.done(src),
        b.done(src),
        b.es() == a.es().push(e),
        e.source.id@ == e.destination.id@,
        0 <= e.weight,
        nonneg(a.es()),
    ensures
        a.dmap() == b.dmap(),
{
    let es = a.es();
    assert forall|t: Seq<char>| #[trigger]
        a.dmap().contains_key(t) implies b.dmap().contains_key(t) && a.dmap()[t] == b.dmap()[
        t
    ] by {
        crate::route::lemma_self_loop_distance(es, e, src, t, a.dmap()[t]);
        assert(reachable(b.es(), src, t));
        assert(min_dist_is(b.es(), src, t, a.dmap()[t]));
        crate::route::lemma_min_unique(b.es(), src, t, a.dmap()[t], b.dmap()[t]);
    }
    assert forall|t: Seq<char>| #[trigger] b.dmap().contains_key(t) implies a.dmap().contains_key(
        t,
    ) by {
        crate::route::lemma_self_loop_distance(es, e, src, t, 0);
        assert(reachable(b.es(), src, t));
    }
    assert(a.dmap() =~= b.dmap());
}

} // verus!
