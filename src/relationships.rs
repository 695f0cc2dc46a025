//! Local structure around each participant: pairs of the participants it rates
//! that are not connected to each other, and the trust that a common rater
//! places in a pair.
use vstd::prelude::*;
use crate::graph::{adjacency_cell, lemma_rates_participants, participants, rates, TrustGraph, TrustRelation};

verus! {

/// `c` rates both `a` and `b`, two different participants with no edge
/// between them in either direction.
pub open spec fn is_mutual_triad(rels: Seq<TrustRelation>, c: u32, a: u32, b: u32) -> bool {
    &&& rates(rels, c, a)
    &&& rates(rels, c, b)
    &&& a != b
    &&& !rates(rels, a, b)
    &&& !rates(rels, b, a)
}

/// The last participant of `ids` that rates both `a` and `b`.
pub open spec fn last_common_rater(ids: Seq<u32>, rels: Seq<TrustRelation>, a: u32, b: u32) -> Option<u32>
    decreases ids.len(),
{
    if ids.len() == 0 {
        None
    } else if rates(rels, ids.last(), a) && rates(rels, ids.last(), b) {
        Some(ids.last())
    } else {
        last_common_rater(ids.drop_last(), rels, a, b)
    }
}

/// The sum of `c`'s weights toward `a` and toward `b`: twice their mean.
pub open spec fn pair_score(rels: Seq<TrustRelation>, c: u32, a: u32, b: u32) -> int {
    adjacency_cell(rels, c, a) + adjacency_cell(rels, c, b)
}

/// The score of the pair `(a, b)` when the centers of `ids` are visited in
/// order and each later center overwrites an earlier one.
pub open spec fn mutual_score_within(ids: Seq<u32>, rels: Seq<TrustRelation>, a: u32, b: u32) -> Option<int> {
    if a == b {
        None
    } else {
        match last_common_rater(ids, rels, a, b) {
            Some(c) => Some(pair_score(rels, c, a, b)),
            None => None,
        }
    }
}

/// The mutual trust score of `(a, b)` as a sum of two weights: that of the
/// last participant, in internal index order, that rates both.
pub open spec fn mutual_score_sum(rels: Seq<TrustRelation>, a: u32, b: u32) -> Option<int> {
    mutual_score_within(participants(rels), rels, a, b)
}

/// The score of `(a, b)` part way through a center `c`: the pairs of `c`
/// already `visited` carry `c`'s score, the others that of the centers before.
spec fn score_during(rels: Seq<TrustRelation>, before: Seq<u32>, c: u32, visited: bool, a: u32, b: u32) -> Option<int> {
    if a != b && visited {
        Some(pair_score(rels, c, a, b))
    } else {
        mutual_score_within(before, rels, a, b)
    }
}

/// No two entries have the same pair as key.
pub open spec fn keys_unique(v: Seq<(u32, u32, i64)>) -> bool {
    forall|p: int, q: int| #![trigger v[p], v[q]] 0 <= p < q < v.len() ==> (v[p].0, v[p].1) != (v[q].0, v[q].1)
}

/// `v` holds the entry `(a, b, s)`.
pub open spec fn has_entry(v: Seq<(u32, u32, i64)>, a: u32, b: u32, s: i64) -> bool {
    exists|p: int| 0 <= p < v.len() && #[trigger] v[p] == (a, b, s)
}

/// Sets the value of key `(a, b)` to `s`, adding the entry if it is missing.
fn upsert(v: &mut Vec<(u32, u32, i64)>, a: u32, b: u32, s: i64)
    requires
        keys_unique(old(v)@),
    ensures
        keys_unique(final(v)@),
        forall|x: u32, y: u32, t: i64| #[trigger] has_entry(final(v)@, x, y, t) <==> if x == a && y == b {
            t == s
        } else {
            has_entry(old(v)@, x, y, t)
        },
{
    let ghost prev = v@;
    let mut p: usize = 0;
    while p < v.len() && !(v[p].0 == a && v[p].1 == b)
        invariant
            v@ == prev,
            keys_unique(prev),
            p <= v@.len(),
            forall|q: int| 0 <= q < p ==> !(#[trigger] v@[q].0 == a && v@[q].1 == b),
        decreases v@.len() - p,
    {
        p = p + 1;
    }
    if p < v.len() {
        v.set(p, (a, b, s));
        proof {
            assert(v@[p as int] == (a, b, s));
            assert forall|x: u32, y: u32, t: i64| #[trigger] has_entry(v@, x, y, t) <==> if x == a && y == b {
                t == s
            } else {
                has_entry(prev, x, y, t)
            } by {
                if has_entry(v@, x, y, t) {
                    let q = choose|q: int| 0 <= q < v@.len() && #[trigger] v@[q] == (x, y, t);
                    if q != p {
                        assert(prev[q] == v@[q]);
                        if x == a && y == b {
                            if q < p {
                                assert(!(v@[q].0 == a && v@[q].1 == b));
                            } else {
                                assert((prev[p as int].0, prev[p as int].1) != (prev[q].0, prev[q].1));
                            }
                        }
                    }
                }
                if !(x == a && y == b) && has_entry(prev, x, y, t) {
                    let q = choose|q: int| 0 <= q < prev.len() && #[trigger] prev[q] == (x, y, t);
                    assert(q != p);
                    assert(v@[q] == prev[q]);
                }
                if x == a && y == b && t == s {
                    assert(v@[p as int] == (x, y, t));
                }
            }
            assert forall|i: int, j: int| #![trigger v@[i], v@[j]] 0 <= i < j < v@.len() implies (v@[i].0, v@[i].1) != (v@[j].0, v@[j].1) by {
                assert((prev[i].0, prev[i].1) != (prev[j].0, prev[j].1));
            }
        }
    } else {
        v.push((a, b, s));
        proof {
            let n = prev.len() as int;
            assert(v@[n] == (a, b, s));
            assert forall|x: u32, y: u32, t: i64| #[trigger] has_entry(v@, x, y, t) <==> if x == a && y == b {
                t == s
            } else {
                has_entry(prev, x, y, t)
            } by {
                if has_entry(v@, x, y, t) {
                    let q = choose|q: int| 0 <= q < v@.len() && #[trigger] v@[q] == (x, y, t);
                    if q < n {
                        assert(prev[q] == v@[q]);
                        assert(!(prev[q].0 == a && prev[q].1 == b));
                    }
                }
                if has_entry(prev, x, y, t) {
                    let q = choose|q: int| 0 <= q < prev.len() && #[trigger] prev[q] == (x, y, t);
                    assert(v@[q] == prev[q]);
                }
            }
            assert forall|i: int, j: int| #![trigger v@[i], v@[j]] 0 <= i < j < v@.len() implies (v@[i].0, v@[i].1) != (v@[j].0, v@[j].1) by {
                if j < n {
                    assert((prev[i].0, prev[i].1) != (prev[j].0, prev[j].1));
                } else {
                    assert(!(prev[i].0 == a && prev[i].1 == b));
                }
            }
        }
    }
}

proof fn lemma_push_unique<T>(s: Seq<T>, x: T)
    requires
        s.no_duplicates(),
        !s.contains(x),
    ensures
        s.push(x).no_duplicates(),
{
    assert forall|i: int, j: int| 0 <= i < j < s.push(x).len() implies s.push(x)[i] != s.push(x)[j] by {
        if j == s.len() {
            assert(s.contains(s[i]));
        }
    }
}

impl TrustGraph {
    /// Every triad `(c, a, b)` where `c` rates two different participants
    /// `a` and `b` that have no edge between them in either direction. Both
    /// orders of a pair are listed; no triad is listed twice.
    pub fn analyze_mutual_connections(&self) -> (r: Vec<(u32, u32, u32)>)
        requires
            self.wf(),
        ensures
            r@.no_duplicates(),
            forall|c: u32, a: u32, b: u32| #[trigger] r@.contains((c, a, b)) <==> is_mutual_triad(self@, c, a, b),
    {
        let ids = self.participant_ids();
        let mut r: Vec<(u32, u32, u32)> = Vec::new();
        let mut ci: usize = 0;
        proof {
            lemma_rates_participants(self@, 0, 0);
        }
        while ci < ids.len()
            invariant
                self.wf(),
                ids@ == participants(self@),
                ids@.no_duplicates(),
                ci <= ids@.len(),
                r@.no_duplicates(),
                forall|c: u32, a: u32, b: u32| #[trigger] r@.contains((c, a, b)) <==> (is_mutual_triad(self@, c, a, b)
                    && exists|p: int| 0 <= p < ci && ids@[p] == c),
            decreases ids@.len() - ci,
        {
            let c = ids[ci];
            let nb = self.neighbors_of(c);
            let mut i: usize = 0;
            while i < nb.len()
                invariant
                    self.wf(),
                    ids@ == participants(self@),
                    ids@.no_duplicates(),
                    ci < ids@.len(),
                    c == ids@[ci as int],
                    nb@.no_duplicates(),
                    forall|x: u32| nb@.contains(x) <==> rates(self@, c, x),
                    i <= nb@.len(),
                    r@.no_duplicates(),
                    forall|c2: u32, a: u32, b: u32| #[trigger] r@.contains((c2, a, b)) <==> (is_mutual_triad(self@, c2, a, b)
                        && ((exists|p: int| 0 <= p < ci && ids@[p] == c2)
                        || (c2 == c && exists|q: int| 0 <= q < i && nb@[q] == a))),
                decreases nb@.len() - i,
            {
                let a = nb[i];
                let mut j: usize = 0;
                while j < nb.len()
                    invariant
                        self.wf(),
                        ids@ == participants(self@),
                        ids@.no_duplicates(),
                        ci < ids@.len(),
                        c == ids@[ci as int],
                        nb@.no_duplicates(),
                        forall|x: u32| nb@.contains(x) <==> rates(self@, c, x),
                        i < nb@.len(),
                        a == nb@[i as int],
                        j <= nb@.len(),
                        r@.no_duplicates(),
                        forall|c2: u32, a2: u32, b: u32| #[trigger] r@.contains((c2, a2, b)) <==> (is_mutual_triad(self@, c2, a2, b)
                            && ((exists|p: int| 0 <= p < ci && ids@[p] == c2)
                            || (c2 == c && exists|q: int| 0 <= q < i && nb@[q] == a2)
                            || (c2 == c && a2 == a && exists|q: int| 0 <= q < j && nb@[q] == b))),
                    decreases nb@.len() - j,
                {
                    let b = nb[j];
                    let ghost prev = r@;
                    proof {
                        assert(nb@.contains(a));
                        assert(nb@.contains(b));
                    }
                    if a != b && self.edge_weight(a, b).is_none() && self.edge_weight(b, a).is_none() {
                        proof {
                            lemma_rates_participants(self@, a, b);
                            lemma_rates_participants(self@, b, a);
                            assert(is_mutual_triad(self@, c, a, b));
                            if prev.contains((c, a, b)) {
                                if exists|p: int| 0 <= p < ci && ids@[p] == c {
                                    let p = choose|p: int| 0 <= p < ci && ids@[p] == c;
                                    assert(ids@[p] == ids@[ci as int]);
                                } else if exists|q: int| 0 <= q < i && nb@[q] == a {
                                    let q = choose|q: int| 0 <= q < i && nb@[q] == a;
                                    assert(nb@[q] == nb@[i as int]);
                                } else {
                                    let q = choose|q: int| 0 <= q < j && nb@[q] == b;
                                    assert(nb@[q] == nb@[j as int]);
                                }
                            }
                            lemma_push_unique(prev, (c, a, b));
                        }
                        r.push((c, a, b));
                    }
                    j = j + 1;
                    proof {
                        lemma_rates_participants(self@, a, b);
                        lemma_rates_participants(self@, b, a);
                        assert forall|c2: u32, a2: u32, b2: u32| #[trigger] r@.contains((c2, a2, b2)) <==> (is_mutual_triad(self@, c2, a2, b2)
                            && ((exists|p: int| 0 <= p < ci && ids@[p] == c2)
                            || (c2 == c && exists|q: int| 0 <= q < i && nb@[q] == a2)
                            || (c2 == c && a2 == a && exists|q: int| 0 <= q < j && nb@[q] == b2))) by {
                            assert(r@.contains((c2, a2, b2)) <==> (prev.contains((c2, a2, b2)) || (r@.len() > prev.len() && (c2, a2, b2) == (c, a, b)))) by {
                                if r@.len() > prev.len() {
                                    assert(r@ == prev.push((c, a, b)));
                                    if r@.contains((c2, a2, b2)) && (c2, a2, b2) != (c, a, b) {
                                        let k = choose|k: int| 0 <= k < r@.len() && r@[k] == (c2, a2, b2);
                                        assert(prev[k] == (c2, a2, b2));
                                    }
                                    if prev.contains((c2, a2, b2)) {
                                        let k = choose|k: int| 0 <= k < prev.len() && prev[k] == (c2, a2, b2);
                                        assert(r@[k] == (c2, a2, b2));
                                    }
                                    assert(r@[prev.len() as int] == (c, a, b));
                                }
                            }
                            if c2 == c && a2 == a && b2 == b {
                                assert(nb@[j - 1] == b);
                            }
                        }
                    }
                }
                i = i + 1;
                proof {
                    assert forall|c2: u32, a2: u32, b2: u32| #[trigger] r@.contains((c2, a2, b2)) <==> (is_mutual_triad(self@, c2, a2, b2)
                        && ((exists|p: int| 0 <= p < ci && ids@[p] == c2)
                        || (c2 == c && exists|q: int| 0 <= q < i && nb@[q] == a2))) by {
                        if c2 == c && a2 == a && is_mutual_triad(self@, c2, a2, b2) {
                            assert(nb@.contains(b2));
                            assert(nb@[i - 1] == a2);
                        }
                    }
                }
            }
            ci = ci + 1;
            proof {
                assert forall|c2: u32, a2: u32, b2: u32| #[trigger] r@.contains((c2, a2, b2)) <==> (is_mutual_triad(self@, c2, a2, b2)
                    && exists|p: int| 0 <= p < ci && ids@[p] == c2) by {
                    if c2 == c && is_mutual_triad(self@, c2, a2, b2) {
                        assert(nb@.contains(a2));
                        assert(ids@[ci - 1] == c2);
                    }
                    if exists|p: int| 0 <= p < ci && ids@[p] == c2 {
                        let p = choose|p: int| 0 <= p < ci && ids@[p] == c2;
                        if p == ci - 1 {
                            assert(c2 == c);
                        }
                    }
                }
            }
        }
        proof {
            assert forall|c: u32, a: u32, b: u32| #[trigger] r@.contains((c, a, b)) <==> is_mutual_triad(self@, c, a, b) by {
                if is_mutual_triad(self@, c, a, b) {
                    lemma_rates_participants(self@, c, a);
                    let p = choose|p: int| 0 <= p < ids@.len() && ids@[p] == c;
                }
            }
        }
        r
    }

    /// The mutual trust score of each pair `(a, b)` of different participants
    /// that some participant `c` rates, as entries `(a, b, sum)` with one entry
    /// per pair. `sum` is `c`'s weight toward `a` plus its weight toward `b`,
    /// which is twice the mean of the two; where several participants rate
    /// both, the last in internal index order gives the score.
    pub fn find_mutual_trust_score(&self) -> (r: Vec<(u32, u32, i64)>)
        requires
            self.wf(),
        ensures
            keys_unique(r@),
            forall|a: u32, b: u32, s: i64| #[trigger] has_entry(r@, a, b, s) <==> mutual_score_sum(self@, a, b) == Some(s as int),
    {
        let ids = self.participant_ids();
        let mut r: Vec<(u32, u32, i64)> = Vec::new();
        let mut ci: usize = 0;
        while ci < ids.len()
            invariant
                self.wf(),
                ids@ == participants(self@),
                ci <= ids@.len(),
                keys_unique(r@),
                forall|a: u32, b: u32, s: i64| #[trigger] has_entry(r@, a, b, s) <==> mutual_score_within(ids@.take(ci as int), self@, a, b) == Some(s as int),
            decreases ids@.len() - ci,
        {
            let c = ids[ci];
            let nb = self.neighbors_of(c);
            let ghost before = ids@.take(ci as int);
            let mut i: usize = 0;
            while i < nb.len()
                invariant
                    self.wf(),
                    ids@ == participants(self@),
                    ci < ids@.len(),
                    c == ids@[ci as int],
                    before == ids@.take(ci as int),
                    nb@.no_duplicates(),
                    forall|x: u32| nb@.contains(x) <==> rates(self@, c, x),
                    i <= nb@.len(),
                    keys_unique(r@),
                    forall|a: u32, b: u32, s: i64| #[trigger] has_entry(r@, a, b, s) <==> score_during(self@, before, c,
                        (exists|q: int| 0 <= q < i && nb@[q] == a) && nb@.contains(b), a, b) == Some(s as int),
                decreases nb@.len() - i,
            {
                let a = nb[i];
                let mut j: usize = 0;
                while j < nb.len()
                    invariant
                        self.wf(),
                        ids@ == participants(self@),
                        ci < ids@.len(),
                        c == ids@[ci as int],
                        before == ids@.take(ci as int),
                        nb@.no_duplicates(),
                        forall|x: u32| nb@.contains(x) <==> rates(self@, c, x),
                        i < nb@.len(),
                        a == nb@[i as int],
                        j <= nb@.len(),
                        keys_unique(r@),
                        forall|a2: u32, b: u32, s: i64| #[trigger] has_entry(r@, a2, b, s) <==> score_during(self@, before, c,
                            ((exists|q: int| 0 <= q < i && nb@[q] == a2) && nb@.contains(b))
                            || (a2 == a && exists|q: int| 0 <= q < j && nb@[q] == b), a2, b) == Some(s as int),
                    decreases nb@.len() - j,
                {
                    let b = nb[j];
                    let ghost prev = r@;
                    proof {
                        assert(nb@.contains(a));
                        assert(nb@.contains(b));
                        lemma_rates_participants(self@, c, a);
                        lemma_rates_participants(self@, c, b);
                    }
                    if a != b {
                        match (self.edge_weight(c, a), self.edge_weight(c, b)) {
                            (Some(w1), Some(w2)) => {
                                upsert(&mut r, a, b, w1 as i64 + w2 as i64);
                            },
                            _ => {},
                        }
                    }
                    j = j + 1;
                    proof {
                        assert forall|a2: u32, b2: u32, s: i64| #[trigger] has_entry(r@, a2, b2, s) <==> score_during(self@, before, c,
                            ((exists|q: int| 0 <= q < i && nb@[q] == a2) && nb@.contains(b2))
                            || (a2 == a && exists|q: int| 0 <= q < j && nb@[q] == b2), a2, b2) == Some(s as int) by {
                            if a2 == a && b2 == b {
                                assert(nb@[j - 1] == b2);
                            } else if a2 == a && exists|q: int| 0 <= q < j && nb@[q] == b2 {
                                let q = choose|q: int| 0 <= q < j && nb@[q] == b2;
                                assert(q != j - 1);
                            }
                        }
                    }
                }
                i = i + 1;
                proof {
                    assert forall|a2: u32, b2: u32, s: i64| #[trigger] has_entry(r@, a2, b2, s) <==> score_during(self@, before, c,
                        (exists|q: int| 0 <= q < i && nb@[q] == a2) && nb@.contains(b2), a2, b2) == Some(s as int) by {
                        if a2 == a {
                            assert(nb@[i - 1] == a2);
                            if nb@.contains(b2) {
                                let q = choose|q: int| 0 <= q < nb@.len() && nb@[q] == b2;
                            }
                        }
                        if exists|q: int| 0 <= q < i && nb@[q] == a2 {
                            let q = choose|q: int| 0 <= q < i && nb@[q] == a2;
                            if q == i - 1 {
                                assert(a2 == a);
                            }
                        }
                    }
                }
            }
            ci = ci + 1;
            proof {
                let now = ids@.take(ci as int);
                assert(now.drop_last() =~= before);
                assert(now.last() == c);
                assert forall|a2: u32, b2: u32, s: i64| #[trigger] has_entry(r@, a2, b2, s) <==> mutual_score_within(now, self@, a2, b2) == Some(s as int) by {
                    assert(last_common_rater(now, self@, a2, b2) == if rates(self@, c, a2) && rates(self@, c, b2) {
                        Some(c)
                    } else {
                        last_common_rater(before, self@, a2, b2)
                    });
                    let visited = (exists|q: int| 0 <= q < i && nb@[q] == a2) && nb@.contains(b2);
                    assert(visited <==> rates(self@, c, a2) && rates(self@, c, b2)) by {
                        if rates(self@, c, a2) {
                            assert(nb@.contains(a2));
                            let q = choose|q: int| 0 <= q < nb@.len() && nb@[q] == a2;
                        }
                        if exists|q: int| 0 <= q < i && nb@[q] == a2 {
                            let q = choose|q: int| 0 <= q < i && nb@[q] == a2;
                            assert(nb@.contains(a2));
                        }
                    }
                    assert(has_entry(r@, a2, b2, s) <==> score_during(self@, before, c, visited, a2, b2) == Some(s as int));
                }
            }
        }
        proof {
            assert(ids@.take(ci as int) =~= ids@);
        }
        r
    }
}

} // verus!
