//! Calls between concepts: which callee a name stands for, and the
//! relationships that a resolved call gives to both ends.

use vstd::prelude::*;
use crate::extraction::CallEntry;
use crate::extraction::{entry_views, CallView, EntryView};
use crate::graph::ids;
use crate::model::{copy_opt, Concept, ConceptKind, Confidence, RelationKind, Relationship};
use crate::model::{opt_text, RelationshipView};
use crate::order::KeyIndex;
use crate::order::{last_of, lemma_last_of};
use crate::packages::with_more;
use crate::text::same;

verus! {

/// A call from one concept to another, and what resolved it.
#[derive(Debug, PartialEq, Eq)]
pub struct ResolvedEdge {
    pub caller: String,
    pub callee: String,
    pub resolved_by: String,
    pub confidence: Confidence,
    pub resolver_version: Option<String>,
}

/// The content of a resolved edge.
#[verifier::ext_equal]
pub struct EdgeView {
    pub caller: Seq<char>,
    pub callee: Seq<char>,
    pub resolved_by: Seq<char>,
    pub confidence: Confidence,
    pub resolver_version: Option<Seq<char>>,
}

impl View for ResolvedEdge {
    type V = EdgeView;

    open spec fn view(&self) -> EdgeView {
        EdgeView {
            caller: self.caller@,
            callee: self.callee@,
            resolved_by: self.resolved_by@,
            confidence: self.confidence,
            resolver_version: opt_text(self.resolver_version),
        }
    }
}

/// What each edge says.
pub open spec fn edge_views(v: Seq<ResolvedEdge>) -> Seq<EdgeView> {
    v.map_values(|e: ResolvedEdge| e@)
}

/// The names of the concepts.
pub open spec fn names(cs: Seq<Concept>) -> Seq<Seq<char>> {
    cs.map_values(|c: Concept| c.name@)
}

/// The concept can be called.
pub open spec fn callable(c: Concept) -> bool {
    c.kind is Function || c.kind is Method
}

/// The positions, among the first `n`, of the callable concepts with the name.
pub open spec fn named(cs: Seq<Concept>, name: Seq<char>, n: nat) -> Seq<usize>
    decreases n,
{
    if n == 0 {
        Seq::empty()
    } else {
        let rest = named(cs, name, (n - 1) as nat);
        if callable(cs[n - 1]) && cs[n - 1].name@ == name {
            rest.push((n - 1) as usize)
        } else {
            rest
        }
    }
}

/// The positions of the callable concepts with the name.
pub open spec fn candidates_of(cs: Seq<Concept>, name: Seq<char>) -> Seq<usize> {
    named(cs, name, cs.len())
}

proof fn lemma_unnamed(cs: Seq<Concept>, name: Seq<char>, n: nat)
    requires
        n <= cs.len(),
        forall|k: int| 0 <= k < n ==> (#[trigger] cs[k]).name@ != name,
    ensures
        named(cs, name, n).len() == 0,
    decreases n,
{
    if n > 0 {
        lemma_unnamed(cs, name, (n - 1) as nat);
        assert(cs[n - 1].name@ != name);
    }
}

/// Every position that is listed is that of a callable concept with the name.
pub proof fn lemma_named(cs: Seq<Concept>, name: Seq<char>, n: nat, k: int)
    requires
        n <= cs.len() <= usize::MAX,
        0 <= k < named(cs, name, n).len(),
    ensures
        named(cs, name, n)[k] < n,
        callable(cs[named(cs, name, n)[k] as int]),
        cs[named(cs, name, n)[k] as int].name@ == name,
    decreases n,
{
    if n > 0 {
        let rest = named(cs, name, (n - 1) as nat);
        if k < rest.len() {
            lemma_named(cs, name, (n - 1) as nat, k);
        }
    }
}

/// The callable concepts, by name.
pub struct SymbolTable<'a> {
    index: KeyIndex<'a>,
    buckets: Vec<Vec<usize>>,
}

impl<'a> SymbolTable<'a> {
    /// The table is that of these concepts.
    pub closed spec fn is_for(&self, cs: Seq<Concept>) -> bool {
        &&& self.index.wf()
        &&& self.index@ == names(cs)
        &&& self.buckets.len() == cs.len()
        &&& forall|l: int| 0 <= l < cs.len() && last_of(names(cs), names(cs)[l]) == Some(l) ==> (#[trigger] self.buckets[l])@ == candidates_of(cs, names(cs)[l])
    }

    pub fn new(concepts: &'a Vec<Concept>) -> (r: SymbolTable<'a>)
        ensures
            r.is_for(concepts@),
    {
        let n: usize = concepts.len();
        let mut keys: Vec<&'a str> = Vec::new();
        let mut buckets: Vec<Vec<usize>> = Vec::new();
        for i in 0..n
            invariant
                n == concepts.len(),
                keys.len() == i,
                buckets.len() == i,
                forall|k: int| 0 <= k < i ==> #[trigger] keys[k]@ == concepts[k].name@,
                forall|k: int| 0 <= k < i ==> (#[trigger] buckets[k])@.len() == 0,
        {
            keys.push(concepts[i].name.as_str());
            buckets.push(Vec::new());
        }
        let ghost cs = concepts@;
        let index = KeyIndex::new(keys);
        assert(index@ =~= names(cs));
        for i in 0..n
            invariant
                cs == concepts@,
                n == cs.len(),
                index.wf(),
                index@ == names(cs),
                buckets.len() == n,
                forall|l: int| 0 <= l < n && last_of(names(cs), names(cs)[l]) == Some(l) ==> (#[trigger] buckets[l])@ == named(cs, names(cs)[l], i as nat),
        {
            let callee = concepts[i].kind == ConceptKind::Function || concepts[i].kind == ConceptKind::Method;
            if callee {
                match index.find(concepts[i].name.as_str()) {
                    Some(l) => {
                        let ghost before = buckets@;
                        buckets[l].push(i);
                        proof {
                            assert forall|m: int| 0 <= m < n && last_of(names(cs), names(cs)[m]) == Some(m) implies (#[trigger] buckets[m])@ == named(cs, names(cs)[m], (i + 1) as nat) by {
                                assert(before[m]@ == named(cs, names(cs)[m], i as nat));
                                if m != l {
                                    assert(names(cs)[m] != names(cs)[i as int]);
                                }
                            }
                        }
                    },
                    None => {
                        proof {
                            lemma_last_of(names(cs), names(cs)[i as int]);
                            assert(names(cs)[i as int] == cs[i as int].name@);
                            assert(false);
                        }
                    },
                }
            }
        }
        SymbolTable { index, buckets }
    }

    /// Where the callable concepts with the name stand; nothing where there
    /// is none.
    pub fn candidates(&self, concepts: &Vec<Concept>, name: &str) -> (r: Option<&Vec<usize>>)
        requires
            self.is_for(concepts@),
        ensures
            match r {
                Some(v) => v@ == candidates_of(concepts@, name@) && v@.len() > 0,
                None => candidates_of(concepts@, name@).len() == 0,
            },
    {
        let ghost cs = concepts@;
        match self.index.find(name) {
            Some(l) => {
                proof {
                    assert(names(cs)[l as int] == name@);
                    assert(self.buckets[l as int]@ == candidates_of(cs, name@));
                }
                if self.buckets[l].len() == 0 {
                    None
                } else {
                    Some(&self.buckets[l])
                }
            },
            None => {
                proof {
                    lemma_last_of(names(cs), name@);
                    assert forall|k: int| 0 <= k < cs.len() implies (#[trigger] cs[k]).name@ != name@ by {
                        assert(names(cs)[k] == cs[k].name@);
                    }
                    lemma_unnamed(cs, name@, cs.len());
                }
                None
            },
        }
    }
}

/// The edge of a call whose callee is the only one with its name, and is not
/// the caller.
pub open spec fn exact_edge(cs: Seq<Concept>, call: CallView) -> Option<EdgeView> {
    let found = candidates_of(cs, call.callee_name);
    if found.len() == 1 && cs[found[0] as int].id@ != call.caller_id {
        Some(EdgeView {
            caller: call.caller_id,
            callee: cs[found[0] as int].id@,
            resolved_by: "tree-sitter"@,
            confidence: Confidence::Exact,
            resolver_version: None,
        })
    } else {
        None
    }
}

/// The edges of the first `n` calls that their callee's name alone resolves.
pub open spec fn exact_edges(cs: Seq<Concept>, calls: Seq<EntryView>, n: nat) -> Seq<EdgeView>
    decreases n,
{
    if n == 0 {
        Seq::empty()
    } else {
        let rest = exact_edges(cs, calls, (n - 1) as nat);
        match exact_edge(cs, calls[n - 1].call) {
            Some(e) => rest.push(e),
            None => rest,
        }
    }
}

/// The positions, among the first `n`, of the calls whose callee's name
/// several concepts have.
pub open spec fn ambiguous_calls(cs: Seq<Concept>, calls: Seq<EntryView>, n: nat) -> Seq<usize>
    decreases n,
{
    if n == 0 {
        Seq::empty()
    } else {
        let rest = ambiguous_calls(cs, calls, (n - 1) as nat);
        if candidates_of(cs, calls[n - 1].call.callee_name).len() > 1 {
            rest.push((n - 1) as usize)
        } else {
            rest
        }
    }
}

/// The calls that names alone resolve, as edges, and the positions of those
/// whose callee's name several concepts have.
pub fn resolve_calls(concepts: &Vec<Concept>, calls: &Vec<CallEntry>) -> (r: (Vec<ResolvedEdge>, Vec<usize>))
    ensures
        edge_views(r.0@) == exact_edges(concepts@, entry_views(calls@), calls@.len()),
        r.1@ == ambiguous_calls(concepts@, entry_views(calls@), calls@.len()),
{
    let table = SymbolTable::new(concepts);
    let ghost cs = concepts@;
    let ghost evs = entry_views(calls@);
    let mut edges: Vec<ResolvedEdge> = Vec::new();
    let mut ambiguous: Vec<usize> = Vec::new();
    assert(edge_views(edges@) =~= Seq::empty());
    for i in 0..calls.len()
        invariant
            cs == concepts@,
            evs == entry_views(calls@),
            table.is_for(cs),
            edge_views(edges@) == exact_edges(cs, evs, i as nat),
            ambiguous@ == ambiguous_calls(cs, evs, i as nat),
    {
        let call = &calls[i].call;
        assert(evs[i as int].call == call@);
        if let Some(found) = table.candidates(concepts, call.callee_name.as_str()) {
            let count: usize = concepts.len();
            if found.len() == 1 {
                proof {
                    lemma_named(cs, call.callee_name@, cs.len(), 0);
                }
                let callee = &concepts[found[0]];
                if !same(callee.id.as_str(), call.caller_id.as_str()) {
                    let e = ResolvedEdge {
                        caller: call.caller_id.clone(),
                        callee: callee.id.clone(),
                        resolved_by: "tree-sitter".to_owned(),
                        confidence: Confidence::Exact,
                        resolver_version: None,
                    };
                    let ghost before = edges@;
                    edges.push(e);
                    assert(edge_views(edges@) =~= edge_views(before).push(e@));
                }
            } else {
                ambiguous.push(i);
            }
        }
    }
    (edges, ambiguous)
}

/// What the caller of an edge gets.
pub open spec fn calls_view(e: EdgeView, callee_name: Seq<char>) -> RelationshipView {
    RelationshipView {
        kind: RelationKind::Calls,
        target: e.callee,
        target_display: callee_name,
        resolved_by: e.resolved_by,
        confidence: e.confidence,
        resolver_version: e.resolver_version,
    }
}

/// What the callee of an edge gets.
pub open spec fn called_by_view(e: EdgeView, caller_name: Seq<char>) -> RelationshipView {
    RelationshipView {
        kind: RelationKind::CalledBy,
        target: e.caller,
        target_display: caller_name,
        resolved_by: e.resolved_by,
        confidence: e.confidence,
        resolver_version: e.resolver_version,
    }
}

/// What the concept at `i` gets from the edge: nothing where one of the ends
/// is unknown.
pub open spec fn edge_part(cs: Seq<Concept>, e: EdgeView, i: int) -> Seq<RelationshipView> {
    match (last_of(ids(cs), e.caller), last_of(ids(cs), e.callee)) {
        (Some(a), Some(b)) => (if a == i { seq![calls_view(e, cs[b].name@)] } else { Seq::empty() })
            + (if b == i { seq![called_by_view(e, cs[a].name@)] } else { Seq::empty() }),
        _ => Seq::empty(),
    }
}

/// What the concept at `i` gets from the first `n` edges.
pub open spec fn gained(cs: Seq<Concept>, edges: Seq<EdgeView>, i: int, n: nat) -> Seq<RelationshipView>
    decreases n,
{
    if n == 0 {
        Seq::empty()
    } else {
        gained(cs, edges, i, (n - 1) as nat) + edge_part(cs, edges[n - 1], i)
    }
}

/// Gives each edge to both of its ends: to the caller as a call, to the callee
/// as being called. Of concepts with one id the last one stands for it.
pub fn apply_edges(concepts: &mut Vec<Concept>, edges: &Vec<ResolvedEdge>)
    ensures
        final(concepts)@.len() == old(concepts)@.len(),
        forall|i: int| 0 <= i < old(concepts)@.len() ==> #[trigger] final(concepts)@[i]@ == with_more(old(concepts)@[i]@, gained(old(concepts)@, edge_views(edges@), i, edges@.len())),
{
    let ghost first = concepts@;
    let ghost evs = edge_views(edges@);
    let n: usize = concepts.len();
    let mut places: Vec<Option<(usize, usize)>> = Vec::new();
    {
        let mut keys: Vec<&str> = Vec::new();
        for i in 0..n
            invariant
                n == concepts.len(),
                keys.len() == i,
                forall|k: int| 0 <= k < i ==> #[trigger] keys[k]@ == concepts[k].id@,
        {
            keys.push(concepts[i].id.as_str());
        }
        let index = KeyIndex::new(keys);
        assert(index@ =~= ids(first));
        for k in 0..edges.len()
            invariant
                index.wf(),
                index@ == ids(first),
                n == first.len(),
                places.len() == k,
                forall|j: int| 0 <= j < k ==> #[trigger] places[j] == ends_of(first, edges[j]@),
        {
            let ghost e = edges[k as int]@;
            let place = match (index.find(edges[k].caller.as_str()), index.find(edges[k].callee.as_str())) {
                (Some(a), Some(b)) => Some((a, b)),
                _ => None,
            };
            assert(place == ends_of(first, e));
            places.push(place);
        }
    }
    for k in 0..edges.len()
        invariant
            n == first.len(),
            concepts.len() == n,
            evs == edge_views(edges@),
            places.len() == edges.len(),
            forall|j: int| 0 <= j < edges.len() ==> #[trigger] places[j] == ends_of(first, edges[j]@),
            forall|i: int| 0 <= i < n ==> (#[trigger] concepts[i])@ == with_more(first[i]@, gained(first, evs, i, k as nat)),
    {
        let ghost e = edges[k as int]@;
        let ghost before = concepts@;
        assert(places[k as int] == ends_of(first, e));
        assert(evs[k as int] == e);
        if let Some((a, b)) = places[k] {
            proof {
                lemma_last_of(ids(first), e.caller);
                lemma_last_of(ids(first), e.callee);
                assert(before[a as int]@.name == first[a as int].name@);
                assert(before[b as int]@.name == first[b as int].name@);
            }
            let caller_name = concepts[a].name.clone();
            let callee_name = concepts[b].name.clone();
            let edge = &edges[k];
            let called = Relationship {
                kind: RelationKind::Calls,
                target: edge.callee.clone(),
                target_display: callee_name,
                resolved_by: edge.resolved_by.clone(),
                confidence: edge.confidence,
                resolver_version: copy_opt(&edge.resolver_version),
            };
            let called_by = Relationship {
                kind: RelationKind::CalledBy,
                target: edge.caller.clone(),
                target_display: caller_name,
                resolved_by: edge.resolved_by.clone(),
                confidence: edge.confidence,
                resolver_version: copy_opt(&edge.resolver_version),
            };
            assert(called@ =~= calls_view(e, first[b as int].name@));
            assert(called_by@ =~= called_by_view(e, first[a as int].name@));
            concepts[a].relationships.push(called);
            let ghost between = concepts@;
            concepts[b].relationships.push(called_by);
            proof {
                assert forall|i: int| 0 <= i < n implies (#[trigger] concepts[i])@ == with_more(first[i]@, gained(first, evs, i, (k + 1) as nat)) by {
                    assert(before[i]@ == with_more(first[i]@, gained(first, evs, i, k as nat)));
                    let part = edge_part(first, e, i);
                    assert(between[i]@.relationships =~= before[i]@.relationships + (if a == i { seq![called@] } else { Seq::empty() }));
                    assert(concepts[i]@.relationships =~= between[i]@.relationships + (if b == i { seq![called_by@] } else { Seq::empty() }));
                    assert(concepts[i]@.relationships =~= before[i]@.relationships + part);
                    assert(concepts[i]@ =~= with_more(first[i]@, gained(first, evs, i, (k + 1) as nat)));
                }
            }
        } else {
            proof {
                assert forall|i: int| 0 <= i < n implies (#[trigger] concepts[i])@ == with_more(first[i]@, gained(first, evs, i, (k + 1) as nat)) by {
                    assert(gained(first, evs, i, (k + 1) as nat) =~= gained(first, evs, i, k as nat));
                }
            }
        }
    }
    assert forall|i: int| 0 <= i < n implies #[trigger] concepts@[i]@ == with_more(first[i]@, gained(first, evs, i, edges@.len())) by {}
}

/// Where the ends of an edge stand.
pub open spec fn ends_of(cs: Seq<Concept>, e: EdgeView) -> Option<(usize, usize)> {
    match (last_of(ids(cs), e.caller), last_of(ids(cs), e.callee)) {
        (Some(a), Some(b)) => Some((a as usize, b as usize)),
        _ => None,
    }
}

/// More edges give every concept more, behind what fewer edges give it: an
/// edge that was resolved is never lost for another.
pub proof fn more_edges_only_add(cs: Seq<Concept>, edges: Seq<EdgeView>, more: Seq<EdgeView>, i: int)
    ensures
        gained(cs, edges, i, edges.len()).is_prefix_of(gained(cs, edges + more, i, (edges + more).len())),
    decreases more.len(),
{
    let all = edges + more;
    if more.len() == 0 {
        assert(all =~= edges);
    } else {
        more_edges_only_add(cs, edges, more.drop_last(), i);
        let fewer = edges + more.drop_last();
        lemma_gained_agrees(cs, fewer, all, i, fewer.len());
    }
}

/// Edges that agree give the same.
pub proof fn lemma_gained_agrees(cs: Seq<Concept>, a: Seq<EdgeView>, b: Seq<EdgeView>, i: int, n: nat)
    requires
        n <= a.len(),
        n <= b.len(),
        forall|k: int| 0 <= k < n ==> a[k] == b[k],
    ensures
        gained(cs, a, i, n) == gained(cs, b, i, n),
    decreases n,
{
    if n > 0 {
        lemma_gained_agrees(cs, a, b, i, (n - 1) as nat);
    }
}

/// A resolved edge stands at both of its ends.
pub proof fn an_edge_stands_at_both_ends(cs: Seq<Concept>, edges: Seq<EdgeView>, k: int, a: int, b: int)
    requires
        0 <= k < edges.len(),
        last_of(ids(cs), edges[k].caller) == Some(a),
        last_of(ids(cs), edges[k].callee) == Some(b),
    ensures
        gained(cs, edges, a, edges.len()).contains(calls_view(edges[k], cs[b].name@)),
        gained(cs, edges, b, edges.len()).contains(called_by_view(edges[k], cs[a].name@)),
{
    lemma_part_stays(cs, edges, a, k, edges.len(), calls_view(edges[k], cs[b].name@), 0);
    let part = edge_part(cs, edges[k], b);
    lemma_part_stays(cs, edges, b, k, edges.len(), called_by_view(edges[k], cs[a].name@), part.len() - 1);
}

proof fn lemma_part_stays(cs: Seq<Concept>, edges: Seq<EdgeView>, i: int, k: int, n: nat, x: RelationshipView, at: int)
    requires
        0 <= k < n <= edges.len(),
        0 <= at < edge_part(cs, edges[k], i).len(),
        edge_part(cs, edges[k], i)[at] == x,
    ensures
        gained(cs, edges, i, n).contains(x),
    decreases n,
{
    let rest = gained(cs, edges, i, (n - 1) as nat);
    let part = edge_part(cs, edges[n - 1], i);
    if k == n - 1 {
        assert(gained(cs, edges, i, n)[rest.len() + at] == x);
    } else {
        lemma_part_stays(cs, edges, i, k, (n - 1) as nat, x, at);
        let p = choose|p: int| 0 <= p < rest.len() && rest[p] == x;
        assert(gained(cs, edges, i, n)[p] == x);
    }
}

}
