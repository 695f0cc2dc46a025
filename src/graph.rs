//! The trust graph: participants and their directed, weighted ratings.
use vstd::prelude::*;
use std::collections::HashMap;
use petgraph::{Directed, Graph};
use crate::digraph::{
    graph_add_edge, graph_bfs, is_walk, reachable_from, graph_add_node, graph_edge_list, graph_edge_weight, graph_find_edge, graph_neighbors,
    graph_node_count, graph_node_weight, last_edge_index, out_targets, graph_edges, graph_new, graph_nodes};

verus! {

broadcast use vstd::std_specs::hash::group_hash_axioms;

/// Each relation adds at most two nodes, and node indices of the underlying
/// graph are `u32`: this many relations always fit.
pub const MAX_RELATIONS: usize = 0x7fff_fff0;

/// A directed trust assertion from `rater` to `ratee` with a signed weight.
#[derive(Clone, Copy, Debug, PartialEq, Eq, Structural)]
pub struct TrustRelation {
    pub rater: u32,
    pub ratee: u32,
    pub trust_score: i32,
}

/// `ids` with `x` appended unless it is already there.
pub open spec fn push_new(ids: Seq<u32>, x: u32) -> Seq<u32> {
    if ids.contains(x) { ids } else { ids.push(x) }
}

/// The participants of a relation list, in the order in which they are first
/// seen (rater before ratee within a relation).
pub open spec fn participants(rels: Seq<TrustRelation>) -> Seq<u32>
    decreases rels.len(),
{
    if rels.len() == 0 {
        Seq::empty()
    } else {
        let r = rels.last();
        push_new(push_new(participants(rels.drop_last()), r.rater), r.ratee)
    }
}

/// The set of ids that occur as rater or ratee.
pub open spec fn participant_set(rels: Seq<TrustRelation>) -> Set<u32> {
    Set::new(|x: u32| exists|i: int| #![trigger rels[i]] 0 <= i < rels.len() && (rels[i].rater == x || rels[i].ratee == x))
}

/// Whether some relation goes from `a` to `b`.
pub open spec fn rates(rels: Seq<TrustRelation>, a: u32, b: u32) -> bool {
    exists|i: int| 0 <= i < rels.len() && #[trigger] rels[i] == (TrustRelation { rater: a, ratee: b, trust_score: rels[i].trust_score })
}

/// The weight of the last relation from `a` to `b`, if there is one.
pub open spec fn last_weight(rels: Seq<TrustRelation>, a: u32, b: u32) -> Option<i32>
    decreases rels.len(),
{
    if rels.len() == 0 {
        None
    } else if rels.last().rater == a && rels.last().ratee == b {
        Some(rels.last().trust_score)
    } else {
        last_weight(rels.drop_last(), a, b)
    }
}

proof fn lemma_participants_len(rels: Seq<TrustRelation>)
    ensures
        participants(rels).len() <= 2 * rels.len(),
    decreases rels.len(),
{
    if rels.len() > 0 {
        lemma_participants_len(rels.drop_last());
    }
}

proof fn lemma_push_new(ids: Seq<u32>, x: u32)
    ensures
        push_new(ids, x).contains(x),
        forall|y: u32| push_new(ids, x).contains(y) <==> (ids.contains(y) || y == x),
        ids.no_duplicates() ==> push_new(ids, x).no_duplicates(),
{
    let p = push_new(ids, x);
    if !ids.contains(x) {
        assert(p[ids.len() as int] == x);
        assert forall|y: u32| p.contains(y) implies (ids.contains(y) || y == x) by {
            let k = choose|k: int| 0 <= k < p.len() && p[k] == y;
            if k < ids.len() { assert(ids[k] == y); }
        }
        assert forall|y: u32| ids.contains(y) implies p.contains(y) by {
            let k = choose|k: int| 0 <= k < ids.len() && ids[k] == y;
            assert(p[k] == y);
        }
    }
}

proof fn lemma_participants_members(rels: Seq<TrustRelation>)
    ensures
        participants(rels).no_duplicates(),
        participants(rels).to_set() == participant_set(rels),
    decreases rels.len(),
{
    if rels.len() > 0 {
        let prev = rels.drop_last();
        lemma_participants_members(prev);
        let r = rels.last();
        let p0 = participants(prev);
        let p1 = push_new(p0, r.rater);
        let p2 = push_new(p1, r.ratee);
        assert(p2 == participants(rels));
        lemma_push_new(p0, r.rater);
        lemma_push_new(p1, r.ratee);
        assert forall|x: u32| p2.contains(x) <==> participant_set(rels).contains(x) by {
            let last = rels.len() - 1;
            assert(rels[last].rater == r.rater);
            if x == r.rater || x == r.ratee {
                assert(participant_set(rels).contains(x));
            }
            if p2.contains(x) && !(x == r.rater || x == r.ratee) {
                assert(p0.contains(x));
                assert(p0.to_set().contains(x));
                let i = choose|i: int| 0 <= i < prev.len() && (prev[i].rater == x || prev[i].ratee == x);
                assert(rels[i] == prev[i]);
            }
            if participant_set(rels).contains(x) {
                let i = choose|i: int| 0 <= i < rels.len() && (rels[i].rater == x || rels[i].ratee == x);
                if i < prev.len() {
                    assert(prev[i] == rels[i]);
                    assert(participant_set(prev).contains(x));
                    assert(p0.contains(x));
                }
            }
        }
        assert(p2.to_set() =~= participant_set(rels));
    } else {
        assert(participants(rels).to_set() =~= participant_set(rels));
    }
}

/// The number of nodes built from a relation list is the number of distinct
/// ids that occur in it as rater or ratee.
pub proof fn node_count_is_distinct_participants(rels: Seq<TrustRelation>)
    ensures
        participants(rels).len() == participant_set(rels).len(),
{
    lemma_participants_members(rels);
    participants(rels).unique_seq_to_set();
}

/// The adjacency matrix cell from `a` to `b`: the weight of the last relation
/// from `a` to `b`, or zero where there is none.
pub open spec fn adjacency_cell(rels: Seq<TrustRelation>, a: u32, b: u32) -> i32 {
    match last_weight(rels, a, b) {
        Some(w) => w,
        None => 0,
    }
}

/// Edges by index that agree, one for one, with relations by id.
spec fn edges_match(ids: Seq<u32>, edges: Seq<(usize, usize, i32)>, rels: Seq<TrustRelation>) -> bool {
    &&& edges.len() == rels.len()
    &&& forall|e: int| 0 <= e < edges.len() ==> {
        &&& (#[trigger] edges[e]).0 < ids.len()
        &&& edges[e].1 < ids.len()
        &&& ids[edges[e].0 as int] == rels[e].rater
        &&& ids[edges[e].1 as int] == rels[e].ratee
        &&& edges[e].2 == rels[e].trust_score
    }
}

proof fn lemma_last_edge(ids: Seq<u32>, edges: Seq<(usize, usize, i32)>, rels: Seq<TrustRelation>, a: usize, b: usize)
    requires
        ids.no_duplicates(),
        edges_match(ids, edges, rels),
        a < ids.len(),
        b < ids.len(),
    ensures
        match last_edge_index(edges, a, b) {
            Some(e) => 0 <= e < edges.len() && edges[e].0 == a && edges[e].1 == b
                && last_weight(rels, ids[a as int], ids[b as int]) == Some(edges[e].2),
            None => last_weight(rels, ids[a as int], ids[b as int]) == None::<i32>,
        },
    decreases edges.len(),
{
    if edges.len() > 0 {
        let k = edges.len() - 1;
        assert(edges_match(ids, edges.drop_last(), rels.drop_last())) by {
            assert forall|e: int| 0 <= e < edges.drop_last().len() implies edges.drop_last()[e] == edges[e]
                && rels.drop_last()[e] == rels[e] by {}
        }
        lemma_last_edge(ids, edges.drop_last(), rels.drop_last(), a, b);
        let ed = edges[k];
        assert(ed == edges.last());
        assert(rels[k] == rels.last());
        assert(ids[ed.0 as int] == rels[k].rater && ids[ed.1 as int] == rels[k].ratee && ed.2 == rels[k].trust_score);
        if ed.0 == a && ed.1 == b {
            assert(last_edge_index(edges, a, b) == Some(k));
            assert(last_weight(rels, ids[a as int], ids[b as int]) == Some(ed.2));
        } else {
            assert(last_edge_index(edges, a, b) == last_edge_index(edges.drop_last(), a, b));
            assert(last_weight(rels, ids[a as int], ids[b as int]) == last_weight(rels.drop_last(), ids[a as int], ids[b as int]));
            if ids[ed.0 as int] == ids[a as int] && ids[ed.1 as int] == ids[b as int] {
                assert(ed.0 == a && ed.1 == b);
            }
            match last_edge_index(edges.drop_last(), a, b) {
                Some(e) => {
                    assert(edges.drop_last()[e] == edges[e]);
                },
                None => {},
            }
        }
    }
}

proof fn lemma_last_weight_participants(rels: Seq<TrustRelation>, a: u32, b: u32)
    ensures
        last_weight(rels, a, b) is Some ==> participant_set(rels).contains(a) && participant_set(rels).contains(b),
        last_weight(rels, a, b) is Some <==> rates(rels, a, b),
    decreases rels.len(),
{
    if rels.len() > 0 {
        let prev = rels.drop_last();
        lemma_last_weight_participants(prev, a, b);
        let k = rels.len() - 1;
        if rates(prev, a, b) {
            let i = choose|i: int| 0 <= i < prev.len() && #[trigger] prev[i] == (TrustRelation { rater: a, ratee: b, trust_score: prev[i].trust_score });
            assert(rels[i] == prev[i]);
        }
        if rates(rels, a, b) && !(rels[k].rater == a && rels[k].ratee == b) {
            let i = choose|i: int| 0 <= i < rels.len() && #[trigger] rels[i] == (TrustRelation { rater: a, ratee: b, trust_score: rels[i].trust_score });
            assert(prev[i] == rels[i]);
        }
        if last_weight(prev, a, b) is Some {
            let i = choose|i: int| #![trigger prev[i]] 0 <= i < prev.len() && (prev[i].rater == a || prev[i].ratee == a);
            assert(rels[i] == prev[i]);
            let j = choose|j: int| #![trigger prev[j]] 0 <= j < prev.len() && (prev[j].rater == b || prev[j].ratee == b);
            assert(rels[j] == prev[j]);
        }
        if rels[k].rater == a && rels[k].ratee == b {
            assert(rels[k] == (TrustRelation { rater: a, ratee: b, trust_score: rels[k].trust_score }));
        }
    }
}

/// The weight that an index-space edge list holds from `a` to `b`, or zero.
spec fn edge_cell(edges: Seq<(usize, usize, i32)>, a: usize, b: usize) -> i32 {
    match last_edge_index(edges, a, b) {
        Some(e) => edges[e].2,
        None => 0,
    }
}

proof fn lemma_last_edge_in_range(edges: Seq<(usize, usize, i32)>, a: usize, b: usize)
    ensures
        last_edge_index(edges, a, b) matches Some(e) ==> 0 <= e < edges.len(),
    decreases edges.len(),
{
    if edges.len() > 0 {
        lemma_last_edge_in_range(edges.drop_last(), a, b);
    }
}

proof fn lemma_rates_by_index(ids: Seq<u32>, edges: Seq<(usize, usize, i32)>, rels: Seq<TrustRelation>, a: usize, t: usize)
    requires
        ids.no_duplicates(),
        edges_match(ids, edges, rels),
        a < ids.len(),
        t < ids.len(),
    ensures
        rates(rels, ids[a as int], ids[t as int]) <==> out_targets(edges, a).contains(t),
{
    if rates(rels, ids[a as int], ids[t as int]) {
        let i = choose|i: int| 0 <= i < rels.len() && #[trigger] rels[i] == (TrustRelation { rater: ids[a as int], ratee: ids[t as int], trust_score: rels[i].trust_score });
        let ed = edges[i];
        assert(ed.0 == a && ed.1 == t);
        assert(edges[i] == (a, t, edges[i].2));
    }
    if out_targets(edges, a).contains(t) {
        let e = choose|e: int| 0 <= e < edges.len() && #[trigger] edges[e] == (a, t, edges[e].2);
        assert(rels[e] == (TrustRelation { rater: ids[a as int], ratee: ids[t as int], trust_score: rels[e].trust_score }));
    }
}

/// Whether `x` occurs in `v`.
fn contains_id(v: &Vec<u32>, x: u32) -> (r: bool)
    ensures
        r == v@.contains(x),
{
    let mut i: usize = 0;
    while i < v.len()
        invariant
            i <= v@.len(),
            forall|j: int| 0 <= j < i ==> v@[j] != x,
        decreases v@.len() - i,
    {
        if v[i] == x {
            return true;
        }
        i = i + 1;
    }
    false
}

/// Every rater and ratee is a participant, and participants are listed once.
pub(crate) proof fn lemma_rates_participants(rels: Seq<TrustRelation>, a: u32, b: u32)
    ensures
        participants(rels).no_duplicates(),
        rates(rels, a, b) ==> participants(rels).contains(a) && participants(rels).contains(b),
        rates(rels, a, b) <==> last_weight(rels, a, b) is Some,
{
    lemma_participants_members(rels);
    lemma_last_weight_participants(rels, a, b);
    if rates(rels, a, b) {
        assert(participants(rels).to_set().contains(a));
        assert(participants(rels).to_set().contains(b));
    }
}

/// The participants, listed once each, are exactly the ids that occur.
pub(crate) proof fn lemma_participants_are_ids(rels: Seq<TrustRelation>)
    ensures
        participants(rels).no_duplicates(),
        forall|x: u32| participants(rels).contains(x) <==> participant_set(rels).contains(x),
{
    lemma_participants_members(rels);
    assert forall|x: u32| participants(rels).contains(x) <==> participant_set(rels).contains(x) by {
        assert(participants(rels).to_set().contains(x) == participants(rels).contains(x));
    }
}

/// `p` is a chain of ratings: each entry rates the next.
pub open spec fn is_rating_chain(rels: Seq<TrustRelation>, p: Seq<u32>) -> bool {
    &&& p.len() >= 1
    &&& forall|k: int| 0 <= k < p.len() - 1 ==> rates(rels, #[trigger] p[k], p[k + 1])
}

/// A chain of ratings leads from `s` to `t` (every id reaches itself).
pub open spec fn reaches(rels: Seq<TrustRelation>, s: u32, t: u32) -> bool {
    exists|p: Seq<u32>| #[trigger] is_rating_chain(rels, p) && p[0] == s && p.last() == t
}

/// A relation from `a` to `b` with a positive weight, where `a` is reached
/// from `start`.
pub open spec fn is_trusted_transaction(rels: Seq<TrustRelation>, start: u32, a: u32, b: u32) -> bool {
    &&& reaches(rels, start, a)
    &&& exists|i: int| 0 <= i < rels.len() && #[trigger] rels[i].rater == a && rels[i].ratee == b && rels[i].trust_score > 0
}

proof fn lemma_reachable_by_index(ids: Seq<u32>, edges: Seq<(usize, usize, i32)>, rels: Seq<TrustRelation>, s: usize, t: usize)
    requires
        ids == participants(rels),
        ids.no_duplicates(),
        edges_match(ids, edges, rels),
        ids.len() <= u32::MAX,
        s < ids.len(),
        t < ids.len(),
    ensures
        reachable_from(edges, s).contains(t) <==> reaches(rels, ids[s as int], ids[t as int]),
{
    if reachable_from(edges, s).contains(t) {
        let q = choose|q: Seq<usize>| #[trigger] is_walk(edges, q) && q[0] == s && q.last() == t;
        assert forall|k: int| 0 <= k < q.len() implies #[trigger] q[k] < ids.len() by {
            if k > 0 {
                assert(out_targets(edges, q[k - 1]).contains(q[k - 1 + 1]));
                let e = choose|e: int| 0 <= e < edges.len() && #[trigger] edges[e] == (q[k - 1], q[k], edges[e].2);
            }
        }
        let p = q.map_values(|i: usize| ids[i as int]);
        assert forall|k: int| 0 <= k < p.len() - 1 implies rates(rels, #[trigger] p[k], p[k + 1]) by {
            assert(out_targets(edges, q[k]).contains(q[k + 1]));
            assert(q[k] < ids.len() && q[k + 1] < ids.len());
            lemma_rates_by_index(ids, edges, rels, q[k], q[k + 1]);
        }
        assert(is_rating_chain(rels, p));
        assert(p.last() == ids[t as int]);
    }
    if reaches(rels, ids[s as int], ids[t as int]) {
        let p = choose|p: Seq<u32>| #[trigger] is_rating_chain(rels, p) && p[0] == ids[s as int] && p.last() == ids[t as int];
        assert forall|k: int| 0 <= k < p.len() implies #[trigger] ids.contains(p[k]) by {
            if k == 0 {
                assert(ids[s as int] == p[k]);
            } else {
                assert(rates(rels, p[k - 1], p[k - 1 + 1]));
                lemma_rates_participants(rels, p[k - 1], p[k]);
            }
        }
        let q = Seq::new(p.len(), |k: int| if k == 0 { s } else { choose|i: usize| i < ids.len() && ids[i as int] == p[k] });
        assert forall|k: int| 0 <= k < q.len() implies #[trigger] q[k] < ids.len() && ids[q[k] as int] == p[k] by {
            if k > 0 {
                assert(ids.contains(p[k]));
                let j = choose|j: int| 0 <= j < ids.len() && ids[j] == p[k];
                assert((j as usize) < ids.len() && ids[(j as usize) as int] == p[k]);
            }
        }
        assert forall|k: int| 0 <= k < q.len() - 1 implies out_targets(edges, #[trigger] q[k]).contains(q[k + 1]) by {
            assert(q[k] < ids.len() && ids[q[k] as int] == p[k]);
            assert(q[k + 1] < ids.len() && ids[q[k + 1] as int] == p[k + 1]);
            lemma_rates_by_index(ids, edges, rels, q[k], q[k + 1]);
        }
        assert(is_walk(edges, q));
        let last = q.len() - 1;
        assert(q[last] < ids.len() && ids[q[last] as int] == p[last]);
        assert(q.last() == t);
    }
}

/// A directed multigraph of participants. Nodes are created in first-seen
/// order; their index in the underlying graph is their internal index.
pub struct TrustGraph {
    graph: Graph<u32, i32, Directed, u32>,
    node_indices: HashMap<u32, usize>,
    relations: Ghost<Seq<TrustRelation>>,
}

impl View for TrustGraph {
    type V = Seq<TrustRelation>;

    /// The relations added so far, in order.
    closed spec fn view(&self) -> Seq<TrustRelation> {
        self.relations@
    }
}

impl TrustGraph {
    /// The graph's node list is the participants in first-seen order, the
    /// index map inverts it, and its edges are the relations one for one.
    pub closed spec fn wf(&self) -> bool {
        let ids = graph_nodes(self.graph);
        let edges = graph_edges(self.graph);
        let rels = self.relations@;
        &&& ids == participants(rels)
        &&& ids.no_duplicates()
        &&& rels.len() <= MAX_RELATIONS
        &&& self.node_indices@.dom() == ids.to_set()
        &&& forall|i: int| 0 <= i < ids.len() ==> self.node_indices@[#[trigger] ids[i]] == i
        &&& edges_match(ids, edges, rels)
    }

    /// An empty graph.
    pub fn new() -> (g: TrustGraph)
        ensures
            g.wf(),
            g@ == Seq::<TrustRelation>::empty(),
    {
        let g = TrustGraph { graph: graph_new(), node_indices: HashMap::new(), relations: Ghost(Seq::empty()) };
        proof {
            assert(g.node_indices@.dom() =~= graph_nodes(g.graph).to_set());
        }
        g
    }

    /// The internal index of `id`, creating its node on first sight.
    fn index_of_or_insert(&mut self, id: u32) -> (r: usize)
        requires
            graph_nodes(old(self).graph).no_duplicates(),
            graph_nodes(old(self).graph).len() < u32::MAX,
            old(self).node_indices@.dom() == graph_nodes(old(self).graph).to_set(),
            forall|i: int| 0 <= i < graph_nodes(old(self).graph).len()
                ==> old(self).node_indices@[#[trigger] graph_nodes(old(self).graph)[i]] == i,
        ensures
            graph_nodes(final(self).graph) == push_new(graph_nodes(old(self).graph), id),
            graph_edges(final(self).graph) == graph_edges(old(self).graph),
            final(self).relations == old(self).relations,
            graph_nodes(final(self).graph).no_duplicates(),
            final(self).node_indices@.dom() == graph_nodes(final(self).graph).to_set(),
            forall|i: int| 0 <= i < graph_nodes(final(self).graph).len()
                ==> final(self).node_indices@[#[trigger] graph_nodes(final(self).graph)[i]] == i,
            r < graph_nodes(final(self).graph).len(),
            graph_nodes(final(self).graph)[r as int] == id,
    {
        let ghost ids = graph_nodes(self.graph);
        match self.node_indices.get(&id) {
            Some(i) => {
                let i = *i;
                proof {
                    let k = choose|k: int| 0 <= k < ids.len() && ids[k] == id;
                    assert(self.node_indices@[ids[k]] == k);
                }
                i
            },
            None => {
                proof {
                    if ids.contains(id) {
                        let k = choose|k: int| 0 <= k < ids.len() && ids[k] == id;
                        assert(ids.to_set().contains(ids[k]));
                    }
                }
                let i = graph_add_node(&mut self.graph, id);
                self.node_indices.insert(id, i);
                proof {
                    let nids = graph_nodes(self.graph);
                    assert(nids == ids.push(id));
                    assert(self.node_indices@.dom() =~= nids.to_set()) by {
                        assert forall|x: u32| nids.to_set().contains(x) implies ids.to_set().contains(x) || x == id by {
                            let k = choose|k: int| 0 <= k < nids.len() && nids[k] == x;
                            if k < ids.len() { assert(ids[k] == x); }
                        }
                        assert forall|x: u32| ids.to_set().contains(x) implies nids.to_set().contains(x) by {
                            let k = choose|k: int| 0 <= k < ids.len() && ids[k] == x;
                            assert(nids[k] == x);
                        }
                        assert(nids[ids.len() as int] == id);
                    }
                    assert forall|i: int| 0 <= i < nids.len() implies self.node_indices@[#[trigger] nids[i]] == i by {
                        if i < ids.len() {
                            assert(nids[i] == ids[i]);
                            assert(ids[i] != id) by {
                                assert(ids.to_set().contains(ids[i]));
                            }
                        }
                    }
                }
                i
            },
        }
    }

    /// Adds one relation: nodes for rater and ratee on first sight, then an
    /// edge from rater to ratee with the relation's weight. Self-loops and
    /// parallel edges are kept.
    pub fn add_relation(&mut self, relation: TrustRelation)
        requires
            old(self).wf(),
            old(self)@.len() < MAX_RELATIONS,
        ensures
            final(self).wf(),
            final(self)@ == old(self)@.push(relation),
    {
        let ghost rels = self.relations@;
        let ghost ids0 = graph_nodes(self.graph);
        proof {
            lemma_participants_len(rels);
        }
        let a = self.index_of_or_insert(relation.rater);
        let ghost ids1 = graph_nodes(self.graph);
        let b = self.index_of_or_insert(relation.ratee);
        let ghost ids2 = graph_nodes(self.graph);
        proof {
            assert(ids2.len() >= ids1.len() >= ids0.len());
            assert(ids2[a as int] == ids1[a as int]);
        }
        graph_add_edge(&mut self.graph, a, b, relation.trust_score);
        self.relations = Ghost(rels.push(relation));
        proof {
            let nrels = rels.push(relation);
            assert(nrels.drop_last() =~= rels);
            assert(graph_nodes(self.graph) == participants(nrels));
            let edges = graph_edges(self.graph);
            assert forall|e: int| 0 <= e < edges.len() implies {
                &&& (#[trigger] edges[e]).0 < ids2.len()
                &&& edges[e].1 < ids2.len()
                &&& ids2[edges[e].0 as int] == nrels[e].rater
                &&& ids2[edges[e].1 as int] == nrels[e].ratee
                &&& edges[e].2 == nrels[e].trust_score
            } by {
                if e < rels.len() {
                    let ed = edges[e];
                    assert(ids1[ed.0 as int] == ids0[ed.0 as int]);
                    assert(ids2[ed.0 as int] == ids1[ed.0 as int]);
                    assert(ids1[ed.1 as int] == ids0[ed.1 as int]);
                    assert(ids2[ed.1 as int] == ids1[ed.1 as int]);
                }
            }
        }
    }

    /// Adds the relations one by one, in input order.
    pub fn add_relations(&mut self, relations: Vec<TrustRelation>)
        requires
            old(self).wf(),
            old(self)@.len() + relations@.len() <= MAX_RELATIONS,
        ensures
            final(self).wf(),
            final(self)@ == old(self)@ + relations@,
    {
        let ghost start = self@;
        let mut i: usize = 0;
        while i < relations.len()
            invariant
                self.wf(),
                i <= relations@.len(),
                start.len() + relations@.len() <= MAX_RELATIONS,
                self@ == start + relations@.take(i as int),
            decreases relations@.len() - i,
        {
            self.add_relation(relations[i]);
            i = i + 1;
            proof {
                assert(relations@.take(i as int) =~= relations@.take(i - 1).push(relations@[i - 1]));
            }
        }
        proof {
            assert(relations@.take(i as int) =~= relations@);
        }
    }

    /// A graph built from the relations, in input order.
    pub fn from_relations(relations: Vec<TrustRelation>) -> (g: TrustGraph)
        requires
            relations@.len() <= MAX_RELATIONS,
        ensures
            g.wf(),
            g@ == relations@,
    {
        let mut g = TrustGraph::new();
        g.add_relations(relations);
        proof {
            assert(Seq::<TrustRelation>::empty() + relations@ =~= relations@);
        }
        g
    }

    /// The number of distinct participants.
    pub fn node_count(&self) -> (r: usize)
        requires
            self.wf(),
        ensures
            r == participants(self@).len(),
    {
        graph_node_count(&self.graph)
    }

    /// The participant ids in internal index order (first-seen order).
    pub fn participant_ids(&self) -> (r: Vec<u32>)
        requires
            self.wf(),
        ensures
            r@ == participants(self@),
    {
        let n = graph_node_count(&self.graph);
        let mut r: Vec<u32> = Vec::new();
        let mut i: usize = 0;
        while i < n
            invariant
                n == graph_nodes(self.graph).len(),
                i <= n,
                r@ == graph_nodes(self.graph).take(i as int),
            decreases n - i,
        {
            r.push(graph_node_weight(&self.graph, i));
            i = i + 1;
            proof {
                assert(r@ =~= graph_nodes(self.graph).take(i as int));
            }
        }
        proof {
            assert(r@ =~= graph_nodes(self.graph));
        }
        r
    }

    /// The internal index of a participant, if it is one.
    fn index_of(&self, id: u32) -> (r: Option<usize>)
        requires
            self.wf(),
        ensures
            r is Some <==> participant_set(self@).contains(id),
            r matches Some(i) ==> i < graph_nodes(self.graph).len() && graph_nodes(self.graph)[i as int] == id,
    {
        proof {
            lemma_participants_members(self@);
        }
        let ghost ids = graph_nodes(self.graph);
        match self.node_indices.get(&id) {
            Some(i) => {
                proof {
                    let k = choose|k: int| 0 <= k < ids.len() && ids[k] == id;
                    assert(self.node_indices@[ids[k]] == k);
                }
                Some(*i)
            },
            None => None,
        }
    }

    /// The weight of the edge from `a` to `b`: of the last one added where
    /// there are parallel edges, and `None` where there is no edge.
    pub fn edge_weight(&self, a: u32, b: u32) -> (r: Option<i32>)
        requires
            self.wf(),
        ensures
            r == last_weight(self@, a, b),
    {
        proof {
            lemma_last_weight_participants(self@, a, b);
        }
        let ia = match self.index_of(a) {
            Some(i) => i,
            None => return None,
        };
        let ib = match self.index_of(b) {
            Some(i) => i,
            None => return None,
        };
        proof {
            lemma_last_edge(graph_nodes(self.graph), graph_edges(self.graph), self@, ia, ib);
        }
        match graph_find_edge(&self.graph, ia, ib) {
            Some(e) => Some(graph_edge_weight(&self.graph, e)),
            None => None,
        }
    }

    /// The distinct participants that `id` rates, each once.
    pub fn neighbors_of(&self, id: u32) -> (r: Vec<u32>)
        requires
            self.wf(),
        ensures
            r@.no_duplicates(),
            forall|x: u32| r@.contains(x) <==> rates(self@, id, x),
    {
        let ghost ids = graph_nodes(self.graph);
        let ghost edges = graph_edges(self.graph);
        let mut r: Vec<u32> = Vec::new();
        let ia = match self.index_of(id) {
            Some(i) => i,
            None => {
                proof {
                    assert forall|x: u32| !rates(self@, id, x) by {
                        lemma_last_weight_participants(self@, id, x);
                    }
                }
                return r;
            },
        };
        let targets = graph_neighbors(&self.graph, ia);
        proof {
            assert forall|j: int| 0 <= j < targets@.len() implies #[trigger] targets@[j] < ids.len() by {
                assert(targets@.to_set().contains(targets@[j]));
                let e = choose|e: int| 0 <= e < edges.len() && #[trigger] edges[e] == (ia, targets@[j], edges[e].2);
            }
        }
        let mut k: usize = 0;
        while k < targets.len()
            invariant
                self.wf(),
                ids == graph_nodes(self.graph),
                edges == graph_edges(self.graph),
                ia < ids.len(),
                ids[ia as int] == id,
                targets@.to_set() == out_targets(edges, ia),
                k <= targets@.len(),
                r@.no_duplicates(),
                forall|x: u32| r@.contains(x) <==> exists|j: int| 0 <= j < k && ids[#[trigger] targets@[j] as int] == x,
                forall|j: int| 0 <= j < targets@.len() ==> #[trigger] targets@[j] < ids.len(),
            decreases targets@.len() - k,
        {
            let ghost prev = r@;
            let x = graph_node_weight(&self.graph, targets[k]);
            if !contains_id(&r, x) {
                r.push(x);
                proof {
                    assert forall|a: int, b: int| 0 <= a < b < r@.len() implies r@[a] != r@[b] by {
                        if b == prev.len() {
                            assert(prev.contains(prev[a]));
                        } else {
                            assert(prev[a] != prev[b]);
                        }
                    }
                }
            }
            k = k + 1;
            proof {
                assert forall|y: u32| r@.contains(y) <==> exists|j: int| 0 <= j < k && ids[#[trigger] targets@[j] as int] == y by {
                    assert(r@.contains(y) <==> (prev.contains(y) || y == x)) by {
                        if r@.contains(y) && !prev.contains(y) {
                            let q = choose|q: int| 0 <= q < r@.len() && r@[q] == y;
                            if q < prev.len() { assert(prev[q] == y); }
                        }
                        if prev.contains(y) {
                            let q = choose|q: int| 0 <= q < prev.len() && prev[q] == y;
                            assert(r@[q] == y);
                        }
                        if y == x && !prev.contains(y) {
                            assert(r@[prev.len() as int] == y);
                        }
                    }
                    assert(ids[targets@[k - 1] as int] == x);
                    if exists|j: int| 0 <= j < k && ids[#[trigger] targets@[j] as int] == y {
                        let j = choose|j: int| 0 <= j < k && ids[#[trigger] targets@[j] as int] == y;
                        if j < k - 1 {
                            assert(prev.contains(y));
                        }
                    }
                }
            }
        }
        proof {
            assert forall|x: u32| r@.contains(x) <==> rates(self@, id, x) by {
                if r@.contains(x) {
                    let j = choose|j: int| 0 <= j < k && ids[#[trigger] targets@[j] as int] == x;
                    assert(targets@.to_set().contains(targets@[j]));
                    lemma_rates_by_index(ids, edges, self@, ia, targets@[j]);
                }
                if rates(self@, id, x) {
                    let i = choose|i: int| 0 <= i < self@.len() && #[trigger] self@[i] == (TrustRelation { rater: id, ratee: x, trust_score: self@[i].trust_score });
                    let t = edges[i].1;
                    lemma_rates_by_index(ids, edges, self@, ia, t);
                    assert(targets@.to_set().contains(t));
                    let j = choose|j: int| 0 <= j < targets@.len() && targets@[j] == t;
                }
            }
        }
        r
    }

    /// The adjacency matrix by internal index: row `i`, column `j` holds the
    /// weight of the last edge from participant `i` to participant `j`, or
    /// zero where there is none.
    pub fn build_adjacency_matrix(&self) -> (m: Vec<Vec<i32>>)
        requires
            self.wf(),
        ensures
            m@.len() == participants(self@).len(),
            forall|i: int| 0 <= i < m@.len() ==> (#[trigger] m@[i])@.len() == m@.len(),
            forall|i: int, j: int| 0 <= i < m@.len() && 0 <= j < m@.len() ==>
                #[trigger] m@[i]@[j] == adjacency_cell(self@, participants(self@)[i], participants(self@)[j]),
    {
        let ghost ids = graph_nodes(self.graph);
        let n = graph_node_count(&self.graph);
        let edges = graph_edge_list(&self.graph);
        let mut m: Vec<Vec<i32>> = Vec::new();
        let mut i: usize = 0;
        while i < n
            invariant
                self.wf(),
                ids == graph_nodes(self.graph),
                n == ids.len(),
                edges@ == graph_edges(self.graph),
                i <= n,
                m@.len() == i,
                forall|a: int| 0 <= a < i ==> (#[trigger] m@[a])@.len() == n,
                forall|a: int, b: int| 0 <= a < i && 0 <= b < n ==>
                    #[trigger] m@[a]@[b] == adjacency_cell(self@, ids[a], ids[b]),
            decreases n - i,
        {
            let mut row: Vec<i32> = Vec::new();
            while row.len() < n
                invariant
                    row@.len() <= n,
                    forall|b: int| 0 <= b < row@.len() ==> row@[b] == 0,
                decreases n - row@.len(),
            {
                row.push(0);
            }
            let mut k: usize = 0;
            while k < edges.len()
                invariant
                    self.wf(),
                    ids == graph_nodes(self.graph),
                    n == ids.len(),
                    edges@ == graph_edges(self.graph),
                    i < n,
                    k <= edges@.len(),
                    row@.len() == n,
                    forall|b: int| 0 <= b < n ==> row@[b] == edge_cell(edges@.take(k as int), i, b as usize),
                decreases edges@.len() - k,
            {
                let (src, dst, w) = edges[k];
                proof {
                    assert(edges@[k as int] == (src, dst, w));
                }
                if src == i {
                    row.set(dst, w);
                }
                k = k + 1;
                proof {
                    let pre = edges@.take(k - 1);
                    let cur = edges@.take(k as int);
                    assert(cur.drop_last() =~= pre);
                    assert(cur.last() == (src, dst, w));
                    assert forall|b: int| 0 <= b < n implies row@[b] == edge_cell(cur, i, b as usize) by {
                        assert(last_edge_index(cur, i, b as usize) == if src == i && dst == b as usize {
                            Some(k - 1)
                        } else {
                            last_edge_index(pre, i, b as usize)
                        });
                        match last_edge_index(pre, i, b as usize) {
                            Some(e) => {
                                lemma_last_edge_in_range(pre, i, b as usize);
                                assert(cur[e] == pre[e]);
                            },
                            None => {},
                        }
                    }
                }
            }
            proof {
                assert(edges@.take(k as int) =~= edges@);
                assert forall|b: int| 0 <= b < n implies row@[b] == adjacency_cell(self@, ids[i as int], ids[b]) by {
                    lemma_last_edge(ids, edges@, self@, i, b as usize);
                }
            }
            m.push(row);
            i = i + 1;
        }
        m
    }

    /// The trusted transactions seen by a breadth-first walk from `start_id`:
    /// for each participant that a chain of ratings reaches from it, each of
    /// its relations with a positive weight, as `(rater, ratee)`.
    pub fn bfs_trusted_transactions(&self, start_id: u32) -> (r: Vec<(u32, u32)>)
        requires
            self.wf(),
        ensures
            forall|a: u32, b: u32| #[trigger] r@.contains((a, b)) <==> is_trusted_transaction(self@, start_id, a, b),
    {
        let ghost ids = graph_nodes(self.graph);
        let ghost rels = self@;
        let mut r: Vec<(u32, u32)> = Vec::new();
        let ia = match self.index_of(start_id) {
            Some(i) => i,
            None => {
                proof {
                    lemma_participants_are_ids(rels);
                    assert forall|a: u32, b: u32| !is_trusted_transaction(rels, start_id, a, b) by {
                        if is_trusted_transaction(rels, start_id, a, b) {
                            let p = choose|p: Seq<u32>| #[trigger] is_rating_chain(rels, p) && p[0] == start_id && p.last() == a;
                            let i = choose|i: int| 0 <= i < rels.len() && #[trigger] rels[i].rater == a && rels[i].ratee == b && rels[i].trust_score > 0;
                            if p.len() == 1 {
                                assert(participant_set(rels).contains(a));
                            } else {
                                assert(rates(rels, p[0], p[0int + 1]));
                                lemma_rates_participants(rels, p[0], p[1]);
                            }
                        }
                    }
                }
                return r;
            },
        };
        let order = graph_bfs(&self.graph, ia);
        let edges = graph_edge_list(&self.graph);
        let mut k: usize = 0;
        while k < order.len()
            invariant
                self.wf(),
                ids == graph_nodes(self.graph),
                rels == self@,
                edges@ == graph_edges(self.graph),
                order@.to_set() == reachable_from(edges@, ia),
                k <= order@.len(),
                forall|x: u32, y: u32| #[trigger] r@.contains((x, y)) <==> exists|f: int| #![trigger edges@[f]] 0 <= f < edges@.len()
                    && edges@[f].2 > 0 && ids[edges@[f].0 as int] == x && ids[edges@[f].1 as int] == y
                    && exists|q: int| 0 <= q < k && order@[q] == edges@[f].0,
            decreases order@.len() - k,
        {
            let node = order[k];
            let mut e: usize = 0;
            while e < edges.len()
                invariant
                    self.wf(),
                    ids == graph_nodes(self.graph),
                    rels == self@,
                    edges@ == graph_edges(self.graph),
                    order@.to_set() == reachable_from(edges@, ia),
                    k < order@.len(),
                    node == order@[k as int],
                    e <= edges@.len(),
                    forall|x: u32, y: u32| #[trigger] r@.contains((x, y)) <==> exists|f: int| #![trigger edges@[f]] 0 <= f < edges@.len()
                        && edges@[f].2 > 0 && ids[edges@[f].0 as int] == x && ids[edges@[f].1 as int] == y
                        && ((exists|q: int| 0 <= q < k && order@[q] == edges@[f].0) || (edges@[f].0 == node && f < e)),
                decreases edges@.len() - e,
            {
                let (src, dst, w) = edges[e];
                let ghost prev = r@;
                proof {
                    assert(edges@[e as int] == (src, dst, w));
                    assert(edges_match(ids, edges@, rels));
                }
                if src == node && w > 0 {
                    let a = graph_node_weight(&self.graph, src);
                    let b = graph_node_weight(&self.graph, dst);
                    r.push((a, b));
                }
                e = e + 1;
                proof {
                    assert forall|x: u32, y: u32| #[trigger] r@.contains((x, y)) <==> exists|f: int| #![trigger edges@[f]] 0 <= f < edges@.len()
                        && edges@[f].2 > 0 && ids[edges@[f].0 as int] == x && ids[edges@[f].1 as int] == y
                        && ((exists|q: int| 0 <= q < k && order@[q] == edges@[f].0) || (edges@[f].0 == node && f < e)) by {
                        if r@.len() > prev.len() {
                            assert(r@ == prev.push((ids[src as int], ids[dst as int])));
                            if r@.contains((x, y)) && !prev.contains((x, y)) {
                                let m = choose|m: int| 0 <= m < r@.len() && r@[m] == (x, y);
                                if m < prev.len() {
                                    assert(prev[m] == (x, y));
                                }
                                assert(edges@[e - 1] == (src, dst, w));
                            }
                            if prev.contains((x, y)) {
                                let m = choose|m: int| 0 <= m < prev.len() && prev[m] == (x, y);
                                assert(r@[m] == (x, y));
                            }
                            assert(r@[prev.len() as int] == (ids[src as int], ids[dst as int]));
                        }
                    }
                }
            }
            k = k + 1;
            proof {
                assert forall|x: u32, y: u32| #[trigger] r@.contains((x, y)) <==> exists|f: int| #![trigger edges@[f]] 0 <= f < edges@.len()
                    && edges@[f].2 > 0 && ids[edges@[f].0 as int] == x && ids[edges@[f].1 as int] == y
                    && exists|q: int| 0 <= q < k && order@[q] == edges@[f].0 by {
                    if r@.contains((x, y)) {
                        let f = choose|f: int| #![trigger edges@[f]] 0 <= f < edges@.len()
                            && edges@[f].2 > 0 && ids[edges@[f].0 as int] == x && ids[edges@[f].1 as int] == y
                            && ((exists|q: int| 0 <= q < k - 1 && order@[q] == edges@[f].0) || (edges@[f].0 == node && f < edges@.len()));
                        if edges@[f].0 == node {
                            assert(order@[k - 1] == edges@[f].0);
                        }
                    }
                    if exists|f: int| #![trigger edges@[f]] 0 <= f < edges@.len()
                        && edges@[f].2 > 0 && ids[edges@[f].0 as int] == x && ids[edges@[f].1 as int] == y
                        && exists|q: int| 0 <= q < k && order@[q] == edges@[f].0 {
                        let f = choose|f: int| #![trigger edges@[f]] 0 <= f < edges@.len()
                            && edges@[f].2 > 0 && ids[edges@[f].0 as int] == x && ids[edges@[f].1 as int] == y
                            && exists|q: int| 0 <= q < k && order@[q] == edges@[f].0;
                        let q = choose|q: int| 0 <= q < k && order@[q] == edges@[f].0;
                        if q == k - 1 {
                            assert(edges@[f].0 == node);
                        }
                    }
                }
            }
        }
        proof {
            assert(edges_match(ids, edges@, rels));
            lemma_participants_len(rels);
            assert forall|x: u32, y: u32| #[trigger] r@.contains((x, y)) <==> is_trusted_transaction(rels, start_id, x, y) by {
                if r@.contains((x, y)) {
                    let f = choose|f: int| #![trigger edges@[f]] 0 <= f < edges@.len()
                        && edges@[f].2 > 0 && ids[edges@[f].0 as int] == x && ids[edges@[f].1 as int] == y
                        && exists|q: int| 0 <= q < k && order@[q] == edges@[f].0;
                    let q = choose|q: int| 0 <= q < k && order@[q] == edges@[f].0;
                    assert(order@.to_set().contains(order@[q]));
                    lemma_reachable_by_index(ids, edges@, rels, ia, edges@[f].0);
                    assert(rels[f].rater == x && rels[f].ratee == y && rels[f].trust_score > 0);
                }
                if is_trusted_transaction(rels, start_id, x, y) {
                    let i = choose|i: int| 0 <= i < rels.len() && #[trigger] rels[i].rater == x && rels[i].ratee == y && rels[i].trust_score > 0;
                    let src = edges@[i].0;
                    assert(src < ids.len() && ids[src as int] == x);
                    lemma_reachable_by_index(ids, edges@, rels, ia, src);
                    assert(order@.to_set().contains(src));
                    let q = choose|q: int| 0 <= q < order@.len() && order@[q] == src;
                }
            }
        }
        r
    }
}

} // verus!
