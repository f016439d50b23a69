//! Which concepts lead to which, told from their relationships.

use vstd::prelude::*;
use crate::callpath::{comes_first, is_shortest_walk, is_walk, walk_step, walks_before};
use crate::digraph::{edge, entwined, leads_to, lemma_leads_one, lemma_picture, lemma_steps_join, pictures, reaches, steps_to};
use crate::graph::{affected, are_at, call_links, canonical, find, has_call_edge, has_link, ids, ids_at, is_call_kind, is_related, is_selection, is_shortest_chain, lemma_targets, link_at, linked, on_cycle, relation, relation_graph, related_of, selection, structural, targets_in};
use crate::grouping::{in_group, is_grouping};
use crate::impact::{is_radius, reached_from};
use crate::model::{Concept, RelationKind, Relationship};
use crate::order::lemma_last_of;
use crate::text::lex_lt;

verus! {

/// The concept at `i` is what the id means: the last one that has it.
pub open spec fn stands_for(cs: Seq<Concept>, i: int, id: Seq<char>) -> bool {
    &&& 0 <= i < cs.len()
    &&& cs[i].id@ == id
    &&& forall|j: int| i < j < cs.len() ==> (#[trigger] cs[j]).id@ != id
}

/// Some concept has the id.
pub open spec fn is_there(cs: Seq<Concept>, id: Seq<char>) -> bool {
    exists|i: int| 0 <= i < cs.len() && (#[trigger] cs[i]).id@ == id
}

/// One of the relationships of the concept at `i`, the one at `k`, is of the
/// kind and has the target.
pub open spec fn points_at(cs: Seq<Concept>, i: int, k: int, kind: RelationKind, target: Seq<char>) -> bool {
    &&& 0 <= i < cs.len()
    &&& 0 <= k < cs[i].relationships@.len()
    &&& cs[i].relationships@[k].kind == kind
    &&& cs[i].relationships@[k].target@ == target
}

/// What the id means has a relationship of the kind to the target, and the
/// target is there.
pub open spec fn points_to(cs: Seq<Concept>, kind: RelationKind, id: Seq<char>, target: Seq<char>) -> bool {
    &&& is_there(cs, target)
    &&& exists|i: int, k: int| stands_for(cs, i, id) && #[trigger] points_at(cs, i, k, kind, target)
}

pub proof fn lemma_stands(cs: Seq<Concept>, id: Seq<char>)
    ensures
        match find(cs, id) {
            Some(i) => stands_for(cs, i, id) && is_there(cs, id) && forall|j: int| #[trigger] stands_for(cs, j, id) ==> j == i,
            None => !is_there(cs, id) && forall|j: int| !#[trigger] stands_for(cs, j, id),
        },
{
    lemma_last_of(ids(cs), id);
    match find(cs, id) {
        Some(i) => {
            assert(cs[i].id@ == ids(cs)[i]);
            assert forall|j: int| i < j < cs.len() implies (#[trigger] cs[j]).id@ != id by {
                assert(ids(cs)[j] != id);
            }
            assert forall|j: int| #[trigger] stands_for(cs, j, id) implies j == i by {
                if j < i {
                    assert(cs[i].id@ != id);
                }
            }
        },
        None => {
            if is_there(cs, id) {
                let i = choose|i: int| 0 <= i < cs.len() && (#[trigger] cs[i]).id@ == id;
                assert(ids(cs)[i] == id);
            }
        },
    }
}

/// The positions in `rels` that `targets_in` takes up, in order.
spec fn takes(cs: Seq<Concept>, rels: Seq<Relationship>, kind: RelationKind, from: Seq<int>) -> bool {
    let ts = targets_in(cs, rels, kind);
    &&& from.len() == ts.len()
    &&& forall|n: int| 0 <= n < from.len() ==> 0 <= #[trigger] from[n] < rels.len() && rels[from[n]].kind == kind && find(cs, rels[from[n]].target@) == Some(ts[n])
    &&& forall|n: int, m: int| 0 <= n < m < from.len() ==> #[trigger] from[n] < #[trigger] from[m]
    &&& forall|k: int| 0 <= k < rels.len() && (#[trigger] rels[k]).kind == kind && find(cs, rels[k].target@) is Some ==> from.contains(k)
}

proof fn lemma_takes(cs: Seq<Concept>, rels: Seq<Relationship>, kind: RelationKind) -> (from: Seq<int>)
    ensures
        takes(cs, rels, kind, from),
    decreases rels.len(),
{
    if rels.len() == 0 {
        Seq::empty()
    } else {
        let last = rels.len() - 1;
        let before = lemma_takes(cs, rels.drop_last(), kind);
        let from = if rels.last().kind == kind && find(cs, rels.last().target@) is Some {
            before.push(last)
        } else {
            before
        };
        assert forall|k: int| 0 <= k < rels.len() && (#[trigger] rels[k]).kind == kind && find(cs, rels[k].target@) is Some implies from.contains(k) by {
            if k < last {
                assert(rels.drop_last()[k] == rels[k]);
                let n = choose|n: int| 0 <= n < before.len() && before[n] == k;
                assert(from[n] == k);
            } else {
                assert(from[before.len() as int] == k);
            }
        }
        assert forall|n: int| 0 <= n < from.len() implies 0 <= #[trigger] from[n] < rels.len() && rels[from[n]].kind == kind && find(cs, rels[from[n]].target@) == Some(
            targets_in(cs, rels, kind)[n],
        ) by {
            if n < before.len() {
                assert(before[n] == from[n]);
                assert(rels.drop_last()[before[n]] == rels[before[n]]);
            }
        }
        from
    }
}

/// What is related to a concept comes from its relationships of the kind, in
/// their order: each one whose target is there gives the concept that the
/// target means, and nothing else gives anything.
pub proof fn relationships_are_followed_in_order(cs: Seq<Concept>, id: Seq<char>, kind: RelationKind, i: int)
    requires
        stands_for(cs, i, id),
    ensures
        exists|from: Seq<int>| {
            &&& #[trigger] from.len() == related_of(cs, id, kind).len()
            &&& forall|n: int, m: int| 0 <= n < m < from.len() ==> #[trigger] from[n] < #[trigger] from[m]
            &&& forall|n: int| 0 <= n < from.len() ==> points_at(cs, i, #[trigger] from[n], kind, cs[i].relationships@[from[n]].target@) && stands_for(
                cs,
                related_of(cs, id, kind)[n],
                cs[i].relationships@[from[n]].target@,
            )
            &&& forall|k: int, target: Seq<char>| #[trigger] points_at(cs, i, k, kind, target) && is_there(cs, target) ==> from.contains(k)
        },
{
    lemma_stands(cs, id);
    let rels = cs[i].relationships@;
    let from = lemma_takes(cs, rels, kind);
    assert(from.len() == related_of(cs, id, kind).len());
    assert forall|n: int| 0 <= n < from.len() implies points_at(cs, i, #[trigger] from[n], kind, rels[from[n]].target@) && stands_for(
        cs,
        related_of(cs, id, kind)[n],
        rels[from[n]].target@,
    ) by {
        lemma_stands(cs, rels[from[n]].target@);
    }
    assert forall|k: int, target: Seq<char>| #[trigger] points_at(cs, i, k, kind, target) && is_there(cs, target) implies from.contains(k) by {
        lemma_stands(cs, target);
        assert(rels[k].kind == kind);
    }
}

pub proof fn lemma_related(cs: Seq<Concept>, kind: RelationKind, a: Seq<char>, b: Seq<char>)
    ensures
        is_related(cs, kind, a, b) <==> points_to(cs, kind, a, b),
{
    lemma_stands(cs, a);
    lemma_stands(cs, b);
    if let Some(i) = find(cs, a) {
        let rels = cs[i].relationships@;
        let ts = related_of(cs, a, kind);
        let from = lemma_takes(cs, rels, kind);
        if is_related(cs, kind, a, b) {
            let n = choose|n: int| 0 <= n < ts.len() && cs[#[trigger] ts[n]].id@ == b;
            lemma_stands(cs, rels[from[n]].target@);
            assert(points_at(cs, i, from[n], kind, b));
        }
        if points_to(cs, kind, a, b) {
            let (j, k) = choose|j: int, k: int| stands_for(cs, j, a) && #[trigger] points_at(cs, j, k, kind, b);
            assert(j == i);
            assert(rels[k].kind == kind);
            let n = choose|n: int| 0 <= n < from.len() && from[n] == k;
            assert(rels[from[n]].target@ == b);
            assert(cs[ts[n]].id@ == b);
        }
    }
}

/// The concept with id `caller` calls the one with this id, as that one's
/// relationships tell.
pub open spec fn is_caller(cs: Seq<Concept>, id: Seq<char>, caller: Seq<char>) -> bool {
    points_to(cs, RelationKind::CalledBy, id, caller)
}

/// The set holds every caller of the concept but itself, and, of everything it
/// holds, every caller but that concept.
pub open spec fn holds_callers(cs: Seq<Concept>, id: Seq<char>, set: Set<Seq<char>>) -> bool {
    &&& !set.contains(id)
    &&& forall|caller: Seq<char>| #[trigger] is_caller(cs, id, caller) && caller != id ==> set.contains(caller)
    &&& forall|held: Seq<char>, caller: Seq<char>| set.contains(held) && #[trigger] is_caller(cs, held, caller) && caller != id ==> set.contains(caller)
}

proof fn lemma_callers(cs: Seq<Concept>)
    ensures
        forall|a: Seq<char>, b: Seq<char>| #[trigger] relation(cs, RelationKind::CalledBy)(a, b) <==> is_caller(cs, a, b),
{
    assert forall|a: Seq<char>, b: Seq<char>| #[trigger] relation(cs, RelationKind::CalledBy)(a, b) <==> is_caller(cs, a, b) by {
        lemma_related(cs, RelationKind::CalledBy, a, b);
    }
}

/// What is some steps from the concept, or from something that the set holds,
/// is held too, unless it is the concept itself.
proof fn lemma_held(cs: Seq<Concept>, id: Seq<char>, set: Set<Seq<char>>, u: Seq<char>, v: Seq<char>, n: nat)
    requires
        holds_callers(cs, id, set),
        u == id || set.contains(u),
        steps_to(relation(cs, RelationKind::CalledBy), u, v, n),
    ensures
        v == id || set.contains(v),
    decreases n,
{
    if n > 0 {
        let rel = relation(cs, RelationKind::CalledBy);
        let w = choose|w: Seq<char>| #[trigger] rel(u, w) && steps_to(rel, w, v, (n - 1) as nat);
        lemma_callers(cs);
        assert(is_caller(cs, u, w));
        lemma_held(cs, id, set, w, v, (n - 1) as nat);
    }
}

/// The blast radius of a concept is the least set that holds its callers and
/// the callers of whatever it holds, the concept itself left out: it is such a
/// set, and every such set holds all of it. It comes in order of the ids, each
/// once.
pub proof fn a_radius_holds_callers_and_nothing_else(cs: Seq<Concept>, id: Seq<char>, radius: Seq<Seq<char>>)
    requires
        is_radius(cs, id, radius),
    ensures
        holds_callers(cs, id, radius.to_set()),
        forall|set: Set<Seq<char>>| #[trigger] holds_callers(cs, id, set) ==> radius.to_set().subset_of(set),
        forall|a: int, b: int| 0 <= a < b < radius.len() ==> lex_lt(#[trigger] radius[a], #[trigger] radius[b]),
{
    let rel = relation(cs, RelationKind::CalledBy);
    let keep = reached_from(cs, id);
    let at = choose|at: Seq<int>| #[trigger] selection(cs, keep, at) && radius == at.map_values(|i: int| cs[i].id@);
    lemma_callers(cs);
    assert forall|t: Seq<char>, n: nat| #[trigger] steps_to(rel, id, t, n) && t != id && is_there(cs, t) implies radius.to_set().contains(t) by {
        lemma_stands(cs, t);
        let i = find(cs, t)->0;
        assert(canonical(cs, i));
        assert(affected(cs, id, None, i));
        assert(keep(i));
        let k = choose|k: int| 0 <= k < at.len() && at[k] == i;
        assert(radius[k] == t);
    }
    assert forall|t: Seq<char>| radius.contains(t) implies t != id && exists|n: nat| #[trigger] steps_to(rel, id, t, n) by {
        let k = choose|k: int| 0 <= k < radius.len() && radius[k] == t;
        assert(keep(at[k]));
        assert(affected(cs, id, None, at[k]));
        let n = choose|n: nat| #[trigger] steps_to(rel, id, cs[at[k]].id@, n);
        assert(steps_to(rel, id, t, n));
    }
    assert forall|caller: Seq<char>| #[trigger] is_caller(cs, id, caller) && caller != id implies radius.to_set().contains(caller) by {
        assert(rel(id, caller));
        assert(steps_to(rel, caller, caller, 0));
        assert(steps_to(rel, id, caller, 1));
    }
    assert forall|held: Seq<char>, caller: Seq<char>| radius.to_set().contains(held) && #[trigger] is_caller(cs, held, caller) && caller != id implies radius.to_set().contains(caller) by {
        assert(rel(held, caller));
        assert(steps_to(rel, caller, caller, 0));
        assert(steps_to(rel, held, caller, 1));
        let n = choose|n: nat| #[trigger] steps_to(rel, id, held, n);
        lemma_steps_join(rel, id, held, caller, n, 1);
    }
    assert forall|set: Set<Seq<char>>| #[trigger] holds_callers(cs, id, set) implies radius.to_set().subset_of(set) by {
        assert forall|t: Seq<char>| radius.to_set().contains(t) implies set.contains(t) by {
            let n = choose|n: nat| #[trigger] steps_to(rel, id, t, n);
            lemma_held(cs, id, set, id, t, n);
        }
    }
    assert forall|a: int, b: int| 0 <= a < b < radius.len() implies lex_lt(#[trigger] radius[a], #[trigger] radius[b]) by {
        assert(keep(at[a]) && keep(at[b]));
        assert(affected(cs, id, None, at[a]) && affected(cs, id, None, at[b]));
        assert(radius[a] == cs[at[a]].id@ && radius[b] == cs[at[b]].id@);
    }
}

/// Having a relationship of the kind, as a relation between ids.
pub open spec fn pointing(cs: Seq<Concept>, kind: RelationKind) -> spec_fn(Seq<char>, Seq<char>) -> bool {
    |a: Seq<char>, b: Seq<char>| points_to(cs, kind, a, b)
}

proof fn lemma_pointing(cs: Seq<Concept>, kind: RelationKind)
    ensures
        relation(cs, kind) == pointing(cs, kind),
{
    assert forall|a: Seq<char>, b: Seq<char>| #[trigger] relation(cs, kind)(a, b) == pointing(cs, kind)(a, b) by {
        lemma_related(cs, kind, a, b);
    }
    assert(relation(cs, kind) =~= pointing(cs, kind));
}

/// The relation holds from the id at place `k` of the chain to the next.
pub open spec fn goes_on(rel: spec_fn(Seq<char>, Seq<char>) -> bool, p: Seq<Seq<char>>, k: int) -> bool {
    rel(p[k], p[k + 1])
}

/// The ids from `a` to `b`, each related to the next.
pub open spec fn is_chain(rel: spec_fn(Seq<char>, Seq<char>) -> bool, a: Seq<char>, b: Seq<char>, p: Seq<Seq<char>>) -> bool {
    &&& p.len() > 0
    &&& p[0] == a
    &&& p.last() == b
    &&& forall|k: int| 0 <= k < p.len() - 1 ==> #[trigger] goes_on(rel, p, k)
}

/// A chain leads from `a` to `b`.
pub open spec fn chained(rel: spec_fn(Seq<char>, Seq<char>) -> bool, a: Seq<char>, b: Seq<char>) -> bool {
    exists|p: Seq<Seq<char>>| #[trigger] is_chain(rel, a, b, p)
}

proof fn lemma_chain_steps(rel: spec_fn(Seq<char>, Seq<char>) -> bool, a: Seq<char>, b: Seq<char>, p: Seq<Seq<char>>)
    requires
        is_chain(rel, a, b, p),
    ensures
        steps_to(rel, a, b, (p.len() - 1) as nat),
    decreases p.len(),
{
    if p.len() > 1 {
        let q = p.drop_first();
        assert forall|k: int| 0 <= k < q.len() - 1 implies #[trigger] goes_on(rel, q, k) by {
            assert(goes_on(rel, p, k + 1));
        }
        lemma_chain_steps(rel, p[1], b, q);
        assert(goes_on(rel, p, 0));
        assert(rel(a, p[1]) && steps_to(rel, p[1], b, (p.len() - 2) as nat));
    }
}

proof fn lemma_steps_chain(rel: spec_fn(Seq<char>, Seq<char>) -> bool, a: Seq<char>, b: Seq<char>, n: nat) -> (p: Seq<Seq<char>>)
    requires
        steps_to(rel, a, b, n),
    ensures
        is_chain(rel, a, b, p),
        p.len() == n + 1,
    decreases n,
{
    if n == 0 {
        seq![a]
    } else {
        let w = choose|w: Seq<char>| #[trigger] rel(a, w) && steps_to(rel, w, b, (n - 1) as nat);
        let q = lemma_steps_chain(rel, w, b, (n - 1) as nat);
        let p = seq![a] + q;
        assert forall|k: int| 0 <= k < p.len() - 1 implies #[trigger] goes_on(rel, p, k) by {
            if k > 0 {
                assert(goes_on(rel, q, k - 1));
            }
        }
        p
    }
}

pub proof fn lemma_leads(rel: spec_fn(Seq<char>, Seq<char>) -> bool, a: Seq<char>, b: Seq<char>)
    ensures
        leads_to(rel, a, b) <==> chained(rel, a, b),
{
    reveal(leads_to);
    if leads_to(rel, a, b) {
        let n = choose|n: nat| steps_to(rel, a, b, n);
        let p = lemma_steps_chain(rel, a, b, n);
    }
    if chained(rel, a, b) {
        let p = choose|p: Seq<Seq<char>>| #[trigger] is_chain(rel, a, b, p);
        lemma_chain_steps(rel, a, b, p);
    }
}

/// What a change affects is told by chains of callers: the concept that
/// another id means is affected exactly where such a chain leads to it, and
/// where the limit allows for the steps of the chain.
pub proof fn chains_of_callers_are_affected(cs: Seq<Concept>, id: Seq<char>, limit: Option<usize>, i: int)
    ensures
        affected(cs, id, limit, i) <==> {
            &&& 0 <= i < cs.len()
            &&& stands_for(cs, i, cs[i].id@)
            &&& cs[i].id@ != id
            &&& exists|p: Seq<Seq<char>>| #[trigger] is_chain(pointing(cs, RelationKind::CalledBy), id, cs[i].id@, p) && (limit is Some ==> p.len() - 1 <= limit->0)
        },
{
    lemma_pointing(cs, RelationKind::CalledBy);
    let rel = pointing(cs, RelationKind::CalledBy);
    let t = cs[i].id@;
    lemma_stands(cs, t);
    if affected(cs, id, limit, i) {
        let n = choose|n: nat| #[trigger] steps_to(rel, id, t, n) && (limit matches Some(m) ==> n <= m);
        let p = lemma_steps_chain(rel, id, t, n);
        assert(is_chain(rel, id, t, p));
    }
    if exists|p: Seq<Seq<char>>| #[trigger] is_chain(rel, id, t, p) && (limit is Some ==> p.len() - 1 <= limit->0) {
        let p = choose|p: Seq<Seq<char>>| #[trigger] is_chain(rel, id, t, p) && (limit is Some ==> p.len() - 1 <= limit->0);
        lemma_chain_steps(rel, id, t, p);
    }
}

proof fn lemma_graph_edge(cs: Seq<Concept>, kind: RelationKind, u: int, w: int)
    requires
        cs.len() <= usize::MAX,
        canonical(cs, u),
    ensures
        edge(relation_graph(cs, kind), u, w) <==> canonical(cs, w) && points_to(cs, kind, cs[u].id@, cs[w].id@),
{
    let g = relation_graph(cs, kind);
    let ts = targets_in(cs, cs[u].relationships@, kind);
    lemma_targets(cs, cs[u].relationships@, kind);
    assert(related_of(cs, cs[u].id@, kind) == ts);
    lemma_related(cs, kind, cs[u].id@, cs[w].id@);
    if edge(g, u, w) {
        let k = choose|k: int| 0 <= k < g[u].len() && (#[trigger] g[u][k]) == w;
        assert(ts[k] == w);
        assert(related_of(cs, cs[u].id@, kind)[k] == w);
    }
    if canonical(cs, w) && is_related(cs, kind, cs[u].id@, cs[w].id@) {
        let k = choose|k: int| 0 <= k < related_of(cs, cs[u].id@, kind).len() && cs[#[trigger] related_of(cs, cs[u].id@, kind)[k]].id@ == cs[w].id@;
        assert(ts[k] == w);
        assert(g[u][k] == w);
    }
}

/// The positions that the ids of a chain mean.
spec fn positions(cs: Seq<Concept>, p: Seq<Seq<char>>) -> Seq<usize> {
    p.map_values(|t: Seq<char>| find(cs, t)->0 as usize)
}

proof fn lemma_chain_walk(cs: Seq<Concept>, kind: RelationKind, i: int, j: int, p: Seq<Seq<char>>)
    requires
        cs.len() <= usize::MAX,
        canonical(cs, i),
        canonical(cs, j),
        is_chain(pointing(cs, kind), cs[i].id@, cs[j].id@, p),
    ensures
        is_walk(relation_graph(cs, kind), i, j, positions(cs, p)),
        ids_at(cs, positions(cs, p)) == p,
        forall|k: int| 0 <= k < p.len() ==> canonical(cs, #[trigger] positions(cs, p)[k] as int),
{
    let g = relation_graph(cs, kind);
    let w = positions(cs, p);
    assert forall|k: int| 0 <= k < p.len() implies find(cs, #[trigger] p[k]) is Some by {
        if k > 0 {
            assert(goes_on(pointing(cs, kind), p, k - 1));
            assert(points_to(cs, kind, p[k - 1], p[k]));
        }
        lemma_stands(cs, p[k]);
    }
    assert forall|k: int| 0 <= k < p.len() implies canonical(cs, #[trigger] w[k] as int) && cs[w[k] as int].id@ == p[k] by {
        lemma_stands(cs, p[k]);
    }
    assert forall|k: int| 0 <= k < w.len() - 1 implies #[trigger] walk_step(g, w, k) by {
        assert(goes_on(pointing(cs, kind), p, k));
        assert(canonical(cs, w[k] as int) && canonical(cs, w[k + 1] as int));
        lemma_graph_edge(cs, kind, w[k] as int, w[k + 1] as int);
    }
    assert(ids_at(cs, w) =~= p);
}

proof fn lemma_walk_chain(cs: Seq<Concept>, kind: RelationKind, i: int, j: int, w: Seq<usize>)
    requires
        cs.len() <= usize::MAX,
        canonical(cs, i),
        is_walk(relation_graph(cs, kind), i, j, w),
    ensures
        is_chain(pointing(cs, kind), cs[i].id@, cs[j].id@, ids_at(cs, w)),
        forall|k: int| 0 <= k < w.len() ==> canonical(cs, #[trigger] w[k] as int),
    decreases w.len(),
{
    let g = relation_graph(cs, kind);
    let p = ids_at(cs, w);
    if w.len() > 1 {
        let v = w.drop_last();
        assert forall|k: int| 0 <= k < v.len() - 1 implies #[trigger] walk_step(g, v, k) by {
            assert(walk_step(g, w, k));
        }
        lemma_walk_chain(cs, kind, i, v.last() as int, v);
        assert(walk_step(g, w, w.len() - 2));
        assert(canonical(cs, v[v.len() - 1] as int));
        lemma_graph_edge(cs, kind, v.last() as int, j);
        assert forall|k: int| 0 <= k < w.len() implies canonical(cs, #[trigger] w[k] as int) by {
            if k < v.len() {
                assert(v[k] == w[k]);
            }
        }
        assert forall|k: int| 0 <= k < p.len() - 1 implies #[trigger] goes_on(pointing(cs, kind), p, k) by {
            if k < v.len() - 1 {
                assert(goes_on(pointing(cs, kind), ids_at(cs, v), k));
                assert(ids_at(cs, v)[k] == p[k] && ids_at(cs, v)[k + 1] == p[k + 1]);
            }
        }
    }
}

/// Among the relationships of the concept at `i`, one of the kind to `x` comes
/// before any to `y`.
pub open spec fn names_first(cs: Seq<Concept>, i: int, kind: RelationKind, x: Seq<char>, y: Seq<char>) -> bool {
    exists|r: int| #[trigger] points_at(cs, i, r, kind, x) && forall|s: int| s <= r ==> !(#[trigger] points_at(cs, i, s, kind, y))
}

/// The call path between two concepts is a chain of calls from the one to the
/// other, no chain is shorter, and of chains of its length it is the one that
/// takes, where they part, the call that is listed first.
pub proof fn a_call_path_is_a_shortest_chain(cs: Seq<Concept>, i: int, j: int, path: Seq<Seq<char>>)
    requires
        cs.len() <= usize::MAX,
        find(cs, cs[i].id@) == Some(i),
        find(cs, cs[j].id@) == Some(j),
        is_shortest_chain(cs, i, j, path),
    ensures
        is_chain(pointing(cs, RelationKind::Calls), cs[i].id@, cs[j].id@, path),
        forall|q: Seq<Seq<char>>| #[trigger] is_chain(pointing(cs, RelationKind::Calls), cs[i].id@, cs[j].id@, q) ==> path.len() <= q.len(),
        forall|q: Seq<Seq<char>>| #[trigger] is_chain(pointing(cs, RelationKind::Calls), cs[i].id@, cs[j].id@, q) && q.len() == path.len() && q != path ==> exists|k: int, at: int| {
            &&& 1 <= k < path.len()
            &&& path.take(k) == q.take(k)
            &&& stands_for(cs, at, path[k - 1])
            &&& #[trigger] names_first(cs, at, RelationKind::Calls, path[k], q[k])
        },
{
    let kind = RelationKind::Calls;
    let g = relation_graph(cs, kind);
    let rel = pointing(cs, kind);
    lemma_stands(cs, cs[i].id@);
    lemma_stands(cs, cs[j].id@);
    let w = choose|w: Seq<usize>| #[trigger] is_shortest_walk(g, i, j, w) && path == ids_at(cs, w);
    lemma_walk_chain(cs, kind, i, j, w);
    assert forall|q: Seq<Seq<char>>| #[trigger] is_chain(rel, cs[i].id@, cs[j].id@, q) implies path.len() <= q.len() by {
        lemma_chain_walk(cs, kind, i, j, q);
    }
    assert forall|q: Seq<Seq<char>>| #[trigger] is_chain(rel, cs[i].id@, cs[j].id@, q) && q.len() == path.len() && q != path implies exists|k: int, at: int| {
        &&& 1 <= k < path.len()
        &&& path.take(k) == q.take(k)
        &&& stands_for(cs, at, path[k - 1])
        &&& #[trigger] names_first(cs, at, kind, path[k], q[k])
    } by {
        lemma_chain_walk(cs, kind, i, j, q);
        let v = positions(cs, q);
        assert(v != w);
        assert(walks_before(g, w, v));
        let k = choose|k: int| 1 <= k < w.len() && k < v.len() && #[trigger] w.take(k) == v.take(k) && comes_first(g[w[k - 1] as int], w[k], v[k]);
        assert forall|m: int| 0 <= m < k implies path[m] == q[m] by {
            assert(w.take(k)[m] == v.take(k)[m]);
            assert(ids_at(cs, v)[m] == q[m]);
        }
        assert(path.take(k) =~= q.take(k));
        let at = w[k - 1] as int;
        assert(canonical(cs, at));
        lemma_stands(cs, path[k - 1]);
        assert(canonical(cs, w[k] as int));
        assert(ids_at(cs, v)[k] == q[k]);
        assert(canonical(cs, v[k] as int));
        lemma_names_first(cs, at, kind, w[k], v[k]);
        assert(names_first(cs, at, kind, path[k], q[k]));
    }
}

proof fn lemma_names_first(cs: Seq<Concept>, at: int, kind: RelationKind, x: usize, y: usize)
    requires
        cs.len() <= usize::MAX,
        canonical(cs, at),
        canonical(cs, x as int),
        y < cs.len(),
        find(cs, cs[y as int].id@) == Some(y as int),
        comes_first(relation_graph(cs, kind)[at], x, y),
    ensures
        names_first(cs, at, kind, cs[x as int].id@, cs[y as int].id@),
{
    let rels = cs[at].relationships@;
    let ts = targets_in(cs, rels, kind);
    let list = relation_graph(cs, kind)[at];
    let from = lemma_takes(cs, rels, kind);
    lemma_targets(cs, rels, kind);
    let n = choose|n: int| 0 <= n < list.len() && #[trigger] list[n] == x && forall|l: int| 0 <= l <= n ==> #[trigger] list[l] != y;
    assert(ts[n] == x);
    let r = from[n];
    lemma_stands(cs, rels[r].target@);
    assert(points_at(cs, at, r, kind, cs[x as int].id@));
    assert forall|s: int| s <= r implies !(#[trigger] points_at(cs, at, s, kind, cs[y as int].id@)) by {
        if points_at(cs, at, s, kind, cs[y as int].id@) {
            assert(rels[s].kind == kind);
            let m = choose|m: int| 0 <= m < from.len() && from[m] == s;
            assert(m <= n) by {
                if n < m {
                    assert(from[n] < from[m]);
                }
            }
            assert(ts[m] == y);
            assert(list[m] == y);
        }
    }
}

/// Where there is no call path, no chain of calls leads from the one to the
/// other.
pub proof fn no_path_means_no_chain(cs: Seq<Concept>, i: int, j: int)
    requires
        cs.len() <= usize::MAX,
        find(cs, cs[i].id@) == Some(i),
        find(cs, cs[j].id@) == Some(j),
    ensures
        reaches(relation_graph(cs, RelationKind::Calls), i, j) <==> chained(pointing(cs, RelationKind::Calls), cs[i].id@, cs[j].id@),
{
    let kind = RelationKind::Calls;
    let g = relation_graph(cs, kind);
    lemma_stands(cs, cs[i].id@);
    lemma_stands(cs, cs[j].id@);
    lemma_pointing(cs, kind);
    let names = ids(cs);
    let inside = |i: int| canonical(cs, i);
    assert(pictures(g, names, inside, relation(cs, kind))) by {
        assert forall|u: int, w: int| inside(u) && #[trigger] edge(g, u, w) implies inside(w) && relation(cs, kind)(names[u], names[w]) by {
            lemma_graph_edge(cs, kind, u, w);
        }
        assert forall|u: int, t: Seq<char>| inside(u) && #[trigger] relation(cs, kind)(names[u], t) implies exists|w: int| edge(g, u, w) && names[w] == t by {
            assert(points_to(cs, kind, names[u], t));
            lemma_stands(cs, t);
            let w = find(cs, t)->0;
            lemma_graph_edge(cs, kind, u, w);
            assert(edge(g, u, w) && names[w] == t);
        }
    }
    lemma_picture(g, names, inside, relation(cs, kind), i, j);
    lemma_leads(relation(cs, kind), cs[i].id@, cs[j].id@);
}

/// A chain of more than one id leads from the id back to it.
pub open spec fn comes_back(rel: spec_fn(Seq<char>, Seq<char>) -> bool, id: Seq<char>) -> bool {
    exists|p: Seq<Seq<char>>| #[trigger] is_chain(rel, id, id, p) && p.len() > 1
}

pub proof fn lemma_on_cycle(cs: Seq<Concept>, kind: RelationKind, id: Seq<char>)
    ensures
        on_cycle(cs, relation(cs, kind), id) <==> comes_back(pointing(cs, kind), id),
{
    let rel = pointing(cs, kind);
    lemma_pointing(cs, kind);
    lemma_stands(cs, id);
    if on_cycle(cs, rel, id) {
        if rel(id, id) {
            let p = seq![id, id];
            assert forall|k: int| 0 <= k < p.len() - 1 implies #[trigger] goes_on(rel, p, k) by {}
            assert(is_chain(rel, id, id, p));
        } else {
            let other = choose|other: Seq<char>| other != id && #[trigger] entwined(rel, id, other);
            reveal(leads_to);
            let n = choose|n: nat| steps_to(rel, id, other, n);
            let m = choose|m: nat| steps_to(rel, other, id, m);
            lemma_steps_join(rel, id, other, id, n, m);
            let p = lemma_steps_chain(rel, id, id, n + m);
            assert(n > 0);
            assert(is_chain(rel, id, id, p));
        }
    }
    if comes_back(rel, id) {
        let p = choose|p: Seq<Seq<char>>| #[trigger] is_chain(rel, id, id, p) && p.len() > 1;
        assert(goes_on(rel, p, 0));
        assert(points_to(cs, kind, id, p[1]));
        let other = p[1];
        if other != id {
            let q = p.drop_first();
            assert forall|k: int| 0 <= k < q.len() - 1 implies #[trigger] goes_on(rel, q, k) by {
                assert(goes_on(rel, p, k + 1));
            }
            assert(is_chain(rel, other, id, q));
            lemma_leads(rel, other, id);
            lemma_leads_one(rel, id, other);
            assert(entwined(rel, id, other));
        }
        let (i, k) = choose|i: int, k: int| stands_for(cs, i, id) && #[trigger] points_at(cs, i, k, kind, other);
        assert(is_there(cs, id));
    }
}

/// The groups of calls in a circle: an id is in one exactly where a chain of
/// calls leads from it back to it, and two ids are in the same one exactly
/// where chains of calls lead from each to the other.
pub proof fn cycles_are_chains_that_come_back(cs: Seq<Concept>, groups: Seq<Seq<Seq<char>>>)
    requires
        is_grouping(
            groups,
            |t: Seq<char>| on_cycle(cs, relation(cs, RelationKind::Calls), t),
            |s: Seq<char>, t: Seq<char>| entwined(relation(cs, RelationKind::Calls), s, t),
        ),
    ensures
        forall|t: Seq<char>| #[trigger] comes_back(pointing(cs, RelationKind::Calls), t) <==> exists|g: int| in_group(groups, g, t),
        forall|g: int, h: int, s: Seq<char>, t: Seq<char>| #[trigger] in_group(groups, g, s) && #[trigger] in_group(groups, h, t) ==> (g == h <==> chained(
            pointing(cs, RelationKind::Calls),
            s,
            t,
        ) && chained(pointing(cs, RelationKind::Calls), t, s)),
{
    let rel = pointing(cs, RelationKind::Calls);
    lemma_pointing(cs, RelationKind::Calls);
    let member = |t: Seq<char>| on_cycle(cs, relation(cs, RelationKind::Calls), t);
    let together = |s: Seq<char>, t: Seq<char>| entwined(relation(cs, RelationKind::Calls), s, t);
    assert forall|t: Seq<char>| #[trigger] comes_back(rel, t) <==> exists|g: int| in_group(groups, g, t) by {
        lemma_on_cycle(cs, RelationKind::Calls, t);
        if comes_back(rel, t) {
            assert(member(t));
        }
        if exists|g: int| in_group(groups, g, t) {
            let g = choose|g: int| in_group(groups, g, t);
            assert(member(t));
        }
    }
    assert forall|g: int, h: int, s: Seq<char>, t: Seq<char>| #[trigger] in_group(groups, g, s) && #[trigger] in_group(groups, h, t) implies (g == h <==> chained(rel, s, t) && chained(
        rel,
        t,
        s,
    )) by {
        assert(g == h <==> together(s, t));
        lemma_leads(rel, s, t);
        lemma_leads(rel, t, s);
    }
}

/// One of the two ids is that of a concept that calls the other or is called
/// by it.
pub open spec fn in_touch(cs: Seq<Concept>, a: Seq<char>, b: Seq<char>) -> bool {
    exists|i: int, k: int, kind: RelationKind, target: Seq<char>| {
        &&& #[trigger] points_at(cs, i, k, kind, target)
        &&& kind is Calls || kind is CalledBy
        &&& is_there(cs, target)
        &&& (cs[i].id@, target) == (a, b) || (cs[i].id@, target) == (b, a)
    }
}

/// Being in touch, as a relation.
pub open spec fn touching(cs: Seq<Concept>) -> spec_fn(Seq<char>, Seq<char>) -> bool {
    |a: Seq<char>, b: Seq<char>| in_touch(cs, a, b)
}

proof fn lemma_touching(cs: Seq<Concept>)
    ensures
        call_links(cs) == touching(cs),
{
    assert forall|a: Seq<char>, b: Seq<char>| #[trigger] call_links(cs)(a, b) == touching(cs)(a, b) by {
        if linked(cs, a, b) {
            let (c, j) = choose|c: int, j: int| #[trigger] link_at(cs, c, j, a, b);
            let r = cs[c].relationships@[j];
            lemma_stands(cs, r.target@);
            assert(points_at(cs, c, j, r.kind, r.target@));
        }
        if in_touch(cs, a, b) {
            let (i, k, kind, target) = choose|i: int, k: int, kind: RelationKind, target: Seq<char>| {
                &&& #[trigger] points_at(cs, i, k, kind, target)
                &&& kind is Calls || kind is CalledBy
                &&& is_there(cs, target)
                &&& (cs[i].id@, target) == (a, b) || (cs[i].id@, target) == (b, a)
            };
            lemma_stands(cs, target);
            assert(link_at(cs, i, k, a, b));
        }
    }
    assert(call_links(cs) =~= touching(cs));
}

/// The components of the calls: an id is in one exactly where it is in touch
/// with some id, and two ids are in the same one exactly where a chain of ids
/// that are in touch leads from one to the other.
pub proof fn components_are_what_is_in_touch(cs: Seq<Concept>, groups: Seq<Seq<Seq<char>>>)
    requires
        is_grouping(groups, |t: Seq<char>| has_link(cs, t), |s: Seq<char>, t: Seq<char>| leads_to(call_links(cs), s, t)),
    ensures
        forall|s: Seq<char>, t: Seq<char>| #[trigger] in_touch(cs, s, t) ==> exists|g: int| in_group(groups, g, s) && in_group(groups, g, t),
        forall|g: int, t: Seq<char>| #[trigger] in_group(groups, g, t) ==> exists|s: Seq<char>| in_touch(cs, t, s),
        forall|g: int, h: int, s: Seq<char>, t: Seq<char>| #[trigger] in_group(groups, g, s) && #[trigger] in_group(groups, h, t) ==> (g == h <==> chained(touching(cs), s, t)),
{
    lemma_touching(cs);
    let rel = touching(cs);
    let member = |t: Seq<char>| has_link(cs, t);
    let together = |s: Seq<char>, t: Seq<char>| leads_to(call_links(cs), s, t);
    assert forall|g: int, h: int, s: Seq<char>, t: Seq<char>| #[trigger] in_group(groups, g, s) && #[trigger] in_group(groups, h, t) implies (g == h <==> chained(rel, s, t)) by {
        assert(g == h <==> together(s, t));
        lemma_leads(rel, s, t);
    }
    assert forall|s: Seq<char>, t: Seq<char>| #[trigger] in_touch(cs, s, t) implies exists|g: int| in_group(groups, g, s) && in_group(groups, g, t) by {
        assert(call_links(cs)(s, t) && rel(s, t));
        assert(linked(cs, s, t));
        let (c, j) = choose|c: int, j: int| #[trigger] link_at(cs, c, j, s, t);
        assert(link_at(cs, c, j, t, s));
        assert(linked(cs, t, s));
        assert(member(s) && member(t));
        let g = choose|g: int| in_group(groups, g, s);
        let h = choose|h: int| in_group(groups, h, t);
        assert(in_group(groups, g, s) && in_group(groups, h, t));
        lemma_leads_one(rel, s, t);
        assert(together(s, t));
        assert(g == h);
    }
    assert forall|g: int, t: Seq<char>| #[trigger] in_group(groups, g, t) implies exists|s: Seq<char>| in_touch(cs, t, s) by {
        assert(member(t));
        let s = choose|s: Seq<char>| #[trigger] linked(cs, t, s);
        assert(call_links(cs)(t, s));
        assert(rel(t, s));
        assert(in_touch(cs, t, s));
    }
}

/// The concepts are those of the bundle that the predicate holds for, all of
/// them and no others, in order of their ids.
pub open spec fn are_all_that(found: Seq<&Concept>, cs: Seq<Concept>, holds: spec_fn(Concept) -> bool) -> bool {
    &&& forall|i: int| 0 <= i < cs.len() && holds(#[trigger] cs[i]) ==> exists|k: int| 0 <= k < found.len() && *(#[trigger] found[k]) == cs[i]
    &&& forall|k: int| 0 <= k < found.len() ==> holds(*(#[trigger] found[k])) && cs.contains(*found[k])
    &&& forall|k: int, l: int| 0 <= k < l < found.len() ==> lex_lt((#[trigger] found[k]).id@, (#[trigger] found[l]).id@) || found[k].id@ == found[l].id@
}

proof fn lemma_all_that(found: Seq<&Concept>, cs: Seq<Concept>, keep: spec_fn(int) -> bool, holds: spec_fn(Concept) -> bool)
    requires
        is_selection(found, cs, keep),
        forall|i: int| 0 <= i < cs.len() ==> (#[trigger] keep(i) <==> holds(cs[i])),
    ensures
        are_all_that(found, cs, holds),
{
    let at = choose|at: Seq<int>| #[trigger] selection(cs, keep, at) && are_at(found, cs, at);
    assert forall|i: int| 0 <= i < cs.len() && holds(#[trigger] cs[i]) implies exists|k: int| 0 <= k < found.len() && *(#[trigger] found[k]) == cs[i] by {
        assert(keep(i));
        let k = choose|k: int| 0 <= k < at.len() && at[k] == i;
        assert(*found[k] == cs[at[k]]);
    }
    assert forall|k: int| 0 <= k < found.len() implies holds(*(#[trigger] found[k])) && cs.contains(*found[k]) by {
        assert(*found[k] == cs[at[k]]);
        assert(keep(at[k]));
    }
    assert forall|k: int, l: int| 0 <= k < l < found.len() implies lex_lt((#[trigger] found[k]).id@, (#[trigger] found[l]).id@) || found[k].id@ == found[l].id@ by {
        assert(*found[k] == cs[at[k]] && *found[l] == cs[at[l]]);
    }
}

/// The concept neither calls nor is called, by any of its relationships.
pub open spec fn has_no_call(c: Concept) -> bool {
    forall|k: int| 0 <= k < c.relationships@.len() ==> !((#[trigger] c.relationships@[k]).kind is Calls) && !(c.relationships@[k].kind is CalledBy)
}

/// The concept is something declared, no container and no document.
pub open spec fn is_declared(c: Concept) -> bool {
    !(c.kind is Package) && !(c.kind is Module) && !(c.kind is Document)
}

/// Isolated is what is declared and has no call in any of its relationships.
pub proof fn isolated_is_what_has_no_call(found: Seq<&Concept>, cs: Seq<Concept>)
    requires
        is_selection(found, cs, |i: int| !structural(cs[i].kind) && !has_call_edge(cs[i])),
    ensures
        are_all_that(found, cs, |c: Concept| is_declared(c) && has_no_call(c)),
{
    let keep = |i: int| !structural(cs[i].kind) && !has_call_edge(cs[i]);
    let holds = |c: Concept| is_declared(c) && has_no_call(c);
    assert forall|i: int| 0 <= i < cs.len() implies (#[trigger] keep(i) <==> holds(cs[i])) by {
        let c = cs[i];
        if has_call_edge(c) {
            let j = choose|j: int| 0 <= j < c.relationships@.len() && is_call_kind((#[trigger] c.relationships@[j]).kind);
            assert(!has_no_call(c));
        } else {
            assert forall|k: int| 0 <= k < c.relationships@.len() implies !((#[trigger] c.relationships@[k]).kind is Calls) && !(c.relationships@[k].kind is CalledBy) by {
                assert(!is_call_kind(c.relationships@[k].kind));
            }
        }
    }
    lemma_all_that(found, cs, keep, holds);
}

/// The public interface is what is declared and public.
pub proof fn the_interface_is_what_is_public(found: Seq<&Concept>, cs: Seq<Concept>)
    requires
        is_selection(found, cs, |i: int| cs[i].is_public && !structural(cs[i].kind)),
    ensures
        are_all_that(found, cs, |c: Concept| c.is_public && is_declared(c)),
{
    lemma_all_that(found, cs, |i: int| cs[i].is_public && !structural(cs[i].kind), |c: Concept| c.is_public && is_declared(c));
}

/// One of the concepts has the id.
pub open spec fn lists_id(found: Seq<&Concept>, id: Seq<char>) -> bool {
    exists|k: int| 0 <= k < found.len() && (#[trigger] found[k]).id@ == id
}

/// A chain of callers leads from the one id to another, `t`, which is there,
/// over no more calls than the limit says.
pub open spec fn calls_within(cs: Seq<Concept>, id: Seq<char>, limit: Option<usize>, t: Seq<char>) -> bool {
    &&& t != id
    &&& is_there(cs, t)
    &&& exists|p: Seq<Seq<char>>| #[trigger] is_chain(pointing(cs, RelationKind::CalledBy), id, t, p) && (limit is Some ==> p.len() - 1 <= limit->0)
}

/// The callers of a concept, up to a limit, are all those from which a chain
/// of calls that is no longer leads to it, and no others.
pub proof fn callers_are_told_by_chains(found: Seq<&Concept>, cs: Seq<Concept>, id: Seq<char>, limit: Option<usize>)
    requires
        is_selection(found, cs, |i: int| affected(cs, id, limit, i)),
    ensures
        forall|t: Seq<char>| #[trigger] lists_id(found, t) <==> calls_within(cs, id, limit, t),
{
    let keep = |i: int| affected(cs, id, limit, i);
    let at = choose|at: Seq<int>| #[trigger] selection(cs, keep, at) && are_at(found, cs, at);
    assert forall|t: Seq<char>| #[trigger] lists_id(found, t) <==> calls_within(cs, id, limit, t) by {
        lemma_stands(cs, t);
        if lists_id(found, t) {
            let k = choose|k: int| 0 <= k < found.len() && (#[trigger] found[k]).id@ == t;
            assert(*found[k] == cs[at[k]]);
            assert(keep(at[k]));
            chains_of_callers_are_affected(cs, id, limit, at[k]);
        }
        if calls_within(cs, id, limit, t) {
            let i = find(cs, t)->0;
            chains_of_callers_are_affected(cs, id, limit, i);
            assert(keep(i));
            let k = choose|k: int| 0 <= k < at.len() && at[k] == i;
            assert(*found[k] == cs[at[k]]);
            assert(found[k].id@ == t);
        }
    }
}

}
