//! What the finished concepts of a project say of the calls between them.

use vstd::prelude::*;
use crate::analysis::{all_edges, file_calls, file_concepts, finished, is_disambiguation, is_linked, is_model, FileParseResult, Gathered};
use crate::calls::{callable, called_by_view, calls_view, candidates_of, edge_part, edge_views, exact_edge, exact_edges, gained, named, EdgeView, ResolvedEdge};
use crate::calls::{lemma_gained_agrees, lemma_named};
use crate::extraction::{entry_views, EntryView};
use crate::graph::ids;
use crate::model::{concept_views, Concept, ConceptView, RelationKind, RelationshipView};
use crate::naming::{distinct_id, with_id};
use crate::order::lemma_last_of;
use crate::packages::{package_link, with_more};

verus! {

/// The relationship is that of a call, seen from either end.
pub open spec fn is_call(r: RelationshipView) -> bool {
    r.kind == RelationKind::Calls || r.kind == RelationKind::CalledBy
}

/// No relationship of the concept is that of a call.
pub open spec fn has_no_calls(c: ConceptView) -> bool {
    forall|k: int| 0 <= k < c.relationships.len() ==> !is_call(#[trigger] c.relationships[k])
}

/// How often the relationships have the kind and the target.
pub open spec fn how_often(rels: Seq<RelationshipView>, kind: RelationKind, target: Seq<char>) -> nat
    decreases rels.len(),
{
    if rels.len() == 0 {
        0
    } else {
        how_often(rels.drop_last(), kind, target) + (if rels.last().kind == kind && rels.last().target == target {
            1nat
        } else {
            0nat
        })
    }
}

/// The concept at `t` is the only one that can be called by the name.
pub open spec fn is_only(cs: Seq<Concept>, name: Seq<char>, t: int) -> bool {
    &&& 0 <= t < cs.len()
    &&& callable(cs[t])
    &&& cs[t].name@ == name
    &&& forall|u: int| 0 <= u < cs.len() && u != t ==> !(callable(#[trigger] cs[u]) && cs[u].name@ == name)
}

/// The call is one from the concept at `i` to the only one with the callee's
/// name, which is the one at `t`.
pub open spec fn settles(cs: Seq<Concept>, entry: EntryView, i: int, t: int) -> bool {
    entry.call.caller_id == cs[i].id@ && is_only(cs, entry.call.callee_name, t) && cs[t].id@ != cs[i].id@
}

/// How many of the first `n` calls are from the concept at `i` to the one at
/// `t`, settled by the name alone.
pub open spec fn settled(cs: Seq<Concept>, calls: Seq<EntryView>, i: int, t: int, n: nat) -> nat
    decreases n,
{
    if n == 0 {
        0
    } else {
        settled(cs, calls, i, t, (n - 1) as nat) + (if settles(cs, calls[n - 1], i, t) {
            1nat
        } else {
            0nat
        })
    }
}

/// The relationship comes from the syntax alone.
pub open spec fn is_syntactic(r: RelationshipView) -> bool {
    r.resolved_by == "tree-sitter"@ && r.confidence is Exact && r.resolver_version is None
}

proof fn lemma_often_parts(a: Seq<RelationshipView>, b: Seq<RelationshipView>, kind: RelationKind, target: Seq<char>)
    ensures
        how_often(a + b, kind, target) == how_often(a, kind, target) + how_often(b, kind, target),
    decreases b.len(),
{
    if b.len() == 0 {
        assert(a + b =~= a);
    } else {
        lemma_often_parts(a, b.drop_last(), kind, target);
        assert((a + b).drop_last() =~= a + b.drop_last());
    }
}

proof fn lemma_never(rels: Seq<RelationshipView>, kind: RelationKind, target: Seq<char>)
    requires
        forall|k: int| 0 <= k < rels.len() ==> (#[trigger] rels[k]).kind != kind,
    ensures
        how_often(rels, kind, target) == 0,
    decreases rels.len(),
{
    if rels.len() > 0 {
        assert forall|k: int| 0 <= k < rels.drop_last().len() implies (#[trigger] rels.drop_last()[k]).kind != kind by {
            assert(rels[k].kind != kind);
        }
        lemma_never(rels.drop_last(), kind, target);
        assert(rels[rels.len() - 1].kind != kind);
    }
}

proof fn lemma_all_named(cs: Seq<Concept>, name: Seq<char>, n: nat, u: int)
    requires
        n <= cs.len() <= usize::MAX,
        0 <= u < n,
        callable(cs[u]),
        cs[u].name@ == name,
    ensures
        named(cs, name, n).contains(u as usize),
    decreases n,
{
    let rest = named(cs, name, (n - 1) as nat);
    let all = named(cs, name, n);
    if u == n - 1 {
        assert(all[rest.len() as int] == u as usize);
    } else {
        lemma_all_named(cs, name, (n - 1) as nat, u);
        let k = choose|k: int| 0 <= k < rest.len() && rest[k] == u as usize;
        assert(all[k] == u as usize);
    }
}

proof fn lemma_named_distinct(cs: Seq<Concept>, name: Seq<char>, n: nat, k: int, l: int)
    requires
        n <= cs.len() <= usize::MAX,
        0 <= k < l < named(cs, name, n).len(),
    ensures
        named(cs, name, n)[k] < named(cs, name, n)[l],
    decreases n,
{
    let rest = named(cs, name, (n - 1) as nat);
    if l < rest.len() {
        lemma_named_distinct(cs, name, (n - 1) as nat, k, l);
    } else {
        lemma_named(cs, name, (n - 1) as nat, k);
    }
}

proof fn lemma_only(cs: Seq<Concept>, name: Seq<char>, t: int)
    requires
        cs.len() <= usize::MAX,
        0 <= t < cs.len(),
    ensures
        is_only(cs, name, t) <==> candidates_of(cs, name) == seq![t as usize],
{
    let found = candidates_of(cs, name);
    if is_only(cs, name, t) {
        lemma_all_named(cs, name, cs.len(), t);
        let k = choose|k: int| 0 <= k < found.len() && found[k] == t as usize;
        if found.len() > 1 {
            lemma_named(cs, name, cs.len(), 0);
            lemma_named(cs, name, cs.len(), 1);
            lemma_named_distinct(cs, name, cs.len(), 0, 1);
            assert(false);
        }
        assert(found =~= seq![t as usize]);
    }
    if found == seq![t as usize] {
        assert(found[0] == t as usize);
        lemma_named(cs, name, cs.len(), 0);
        assert forall|u: int| 0 <= u < cs.len() && u != t implies !(callable(#[trigger] cs[u]) && cs[u].name@ == name) by {
            if callable(cs[u]) && cs[u].name@ == name {
                lemma_all_named(cs, name, cs.len(), u);
                let k = choose|k: int| 0 <= k < found.len() && found[k] == u as usize;
                assert(k == 0);
            }
        }
    }
}

/// The place of a concept is the only one where its id stands.
proof fn lemma_place(cs: Seq<Concept>, id: Seq<char>, i: int)
    requires
        ids(cs).no_duplicates(),
        0 <= i < cs.len(),
    ensures
        crate::order::last_of(ids(cs), id) == Some(i) <==> cs[i].id@ == id,
{
    lemma_last_of(ids(cs), id);
    assert(ids(cs)[i] == cs[i].id@);
}

proof fn lemma_one_edge(cs: Seq<Concept>, entry: EntryView, i: int, t: int)
    requires
        ids(cs).no_duplicates(),
        cs.len() <= usize::MAX,
        0 <= i < cs.len(),
        0 <= t < cs.len(),
    ensures
        ({
            let more = match exact_edge(cs, entry.call) {
                Some(e) => (how_often(edge_part(cs, e, i), RelationKind::Calls, cs[t].id@), how_often(edge_part(cs, e, t), RelationKind::CalledBy, cs[i].id@)),
                None => (0nat, 0nat),
            };
            let one = if settles(cs, entry, i, t) {
                1nat
            } else {
                0nat
            };
            more == (one, one)
        }),
{
    let name = entry.call.callee_name;
    lemma_only(cs, name, t);
    reveal_with_fuel(how_often, 3);
    match exact_edge(cs, entry.call) {
        Some(e) => {
            let found = candidates_of(cs, name);
            lemma_named(cs, name, cs.len(), 0);
            let b = found[0] as int;
            assert(found =~= seq![b as usize]);
            lemma_place(cs, e.callee, b);
            lemma_place(cs, e.caller, i);
            lemma_place(cs, e.caller, t);
            lemma_last_of(ids(cs), e.caller);
            assert(ids(cs)[b] == cs[b].id@ && ids(cs)[t] == cs[t].id@ && ids(cs)[i] == cs[i].id@);
            if b == t {
                assert(is_only(cs, name, t));
            } else if is_only(cs, name, t) {
                assert(found[0] == t as usize);
            }
            let (x, y) = (edge_part(cs, e, i), edge_part(cs, e, t));
            assert(x.drop_last().drop_last() =~= Seq::empty() || x.len() < 2);
            assert(y.drop_last().drop_last() =~= Seq::empty() || y.len() < 2);
        },
        None => {
            if settles(cs, entry, i, t) {
                assert(candidates_of(cs, name)[0] == t as usize);
            }
        },
    }
}

proof fn lemma_gained_push(cs: Seq<Concept>, edges: Seq<EdgeView>, e: EdgeView, i: int)
    ensures
        gained(cs, edges.push(e), i, edges.push(e).len()) == gained(cs, edges, i, edges.len()) + edge_part(cs, e, i),
{
    lemma_gained_agrees(cs, edges, edges.push(e), i, edges.len());
}

proof fn lemma_gained_counts(cs: Seq<Concept>, calls: Seq<EntryView>, i: int, t: int, n: nat)
    requires
        ids(cs).no_duplicates(),
        cs.len() <= usize::MAX,
        0 <= i < cs.len(),
        0 <= t < cs.len(),
        n <= calls.len(),
    ensures
        ({
            let edges = exact_edges(cs, calls, n);
            &&& how_often(gained(cs, edges, i, edges.len()), RelationKind::Calls, cs[t].id@) == settled(cs, calls, i, t, n)
            &&& how_often(gained(cs, edges, t, edges.len()), RelationKind::CalledBy, cs[i].id@) == settled(cs, calls, i, t, n)
        }),
    decreases n,
{
    if n > 0 {
        lemma_gained_counts(cs, calls, i, t, (n - 1) as nat);
        lemma_one_edge(cs, calls[n - 1], i, t);
        let rest = exact_edges(cs, calls, (n - 1) as nat);
        match exact_edge(cs, calls[n - 1].call) {
            Some(e) => {
                lemma_gained_push(cs, rest, e, i);
                lemma_gained_push(cs, rest, e, t);
                lemma_often_parts(gained(cs, rest, i, rest.len()), edge_part(cs, e, i), RelationKind::Calls, cs[t].id@);
                lemma_often_parts(gained(cs, rest, t, rest.len()), edge_part(cs, e, t), RelationKind::CalledBy, cs[i].id@);
            },
            None => {},
        }
    }
}

/// Whatever holds of the edges holds of what they give to a concept.
proof fn lemma_gained_all(cs: Seq<Concept>, edges: Seq<EdgeView>, i: int, n: nat, ok: spec_fn(RelationshipView) -> bool)
    requires
        n <= edges.len(),
        forall|k: int, name: Seq<char>| 0 <= k < n ==> ok(#[trigger] calls_view(edges[k], name)),
        forall|k: int, name: Seq<char>| 0 <= k < n ==> ok(#[trigger] called_by_view(edges[k], name)),
    ensures
        forall|k: int| 0 <= k < gained(cs, edges, i, n).len() ==> ok(#[trigger] gained(cs, edges, i, n)[k]),
    decreases n,
{
    if n > 0 {
        lemma_gained_all(cs, edges, i, (n - 1) as nat, ok);
        let rest = gained(cs, edges, i, (n - 1) as nat);
        let part = edge_part(cs, edges[n - 1], i);
        assert forall|k: int| 0 <= k < (rest + part).len() implies ok(#[trigger] (rest + part)[k]) by {
            if k < rest.len() {
                assert(ok(rest[k]));
            } else {
                let e = edges[n - 1];
                let b = crate::order::last_of(ids(cs), e.callee)->0;
                let a = crate::order::last_of(ids(cs), e.caller)->0;
                assert(part[k - rest.len()] == calls_view(e, cs[b].name@) || part[k - rest.len()] == called_by_view(e, cs[a].name@));
            }
        }
    }
}

proof fn lemma_exact_is_syntactic(cs: Seq<Concept>, calls: Seq<EntryView>, n: nat, k: int)
    requires
        n <= calls.len(),
        0 <= k < exact_edges(cs, calls, n).len(),
    ensures
        exact_edges(cs, calls, n)[k].resolved_by == "tree-sitter"@,
        exact_edges(cs, calls, n)[k].confidence is Exact,
        exact_edges(cs, calls, n)[k].resolver_version is None,
    decreases n,
{
    let rest = exact_edges(cs, calls, (n - 1) as nat);
    if k < rest.len() {
        lemma_exact_is_syntactic(cs, calls, (n - 1) as nat, k);
    }
}

proof fn lemma_files_have_no_calls(results: Seq<FileParseResult>, n: nat, k: int)
    requires
        n <= results.len(),
        forall|f: int, j: int| 0 <= f < results.len() && 0 <= j < results[f].extraction@.concepts.len() ==> has_no_calls(#[trigger] results[f].extraction@.concepts[j]),
        0 <= k < file_concepts(results, n).len(),
    ensures
        has_no_calls(file_concepts(results, n)[k]),
    decreases n,
{
    let rest = file_concepts(results, (n - 1) as nat);
    if k < rest.len() {
        lemma_files_have_no_calls(results, (n - 1) as nat, k);
    } else {
        assert(file_concepts(results, n)[k] == results[n - 1].extraction@.concepts[k - rest.len()]);
    }
}

/// Before the calls are resolved, no concept of a model has any.
proof fn lemma_model_has_no_calls(packages: Seq<Concept>, results: Seq<FileParseResult>, out: Seq<Concept>, i: int)
    requires
        is_model(packages, results, out),
        forall|k: int| 0 <= k < packages.len() ==> has_no_calls((#[trigger] packages[k])@),
        forall|f: int, j: int| 0 <= f < results.len() && 0 <= j < results[f].extraction@.concepts.len() ==> has_no_calls(#[trigger] results[f].extraction@.concepts[j]),
        0 <= i < out.len(),
    ensures
        has_no_calls(out[i]@),
{
    let (m, d) = choose|m: Seq<Concept>, d: Seq<Concept>|
        concept_views(m) == concept_views(packages) + file_concepts(results, results.len()) && #[trigger] is_disambiguation(m, d) && is_linked(d, out);
    let (pv, fv) = (concept_views(packages), file_concepts(results, results.len()));
    assert(concept_views(m).len() == m.len());
    assert(concept_views(m)[i] == m[i]@);
    assert(out[i]@ == with_more(d[i]@, package_link(d, i)));
    assert(d[i]@ == with_id(m[i]@, distinct_id(m, i)));
    assert(has_no_calls(m[i]@)) by {
        if i < pv.len() {
            assert(m[i]@ == packages[i]@);
        } else {
            lemma_files_have_no_calls(results, results.len(), i - pv.len());
        }
    }
    assert forall|k: int| 0 <= k < out[i]@.relationships.len() implies !is_call(#[trigger] out[i]@.relationships[k]) by {
        if k < m[i]@.relationships.len() {
            assert(out[i]@.relationships[k] == m[i]@.relationships[k]);
        }
    }
}

/// Calls are settled by names alone, and both ends say so: the concept at `i`
/// calls the one at `t` as often as a call in it names the one at `t` and no
/// other, and the one at `t` is called by it as often. All calls come from the
/// syntax. Ids must be distinct, and the files must not bring calls along.
pub proof fn names_settle_calls(packages: Seq<Concept>, results: Seq<FileParseResult>, gathered: Gathered, i: int, t: int)
    requires
        is_model(packages, results, gathered.concepts@),
        entry_views(gathered.calls@) == file_calls(results, results.len()),
        forall|k: int| 0 <= k < packages.len() ==> has_no_calls((#[trigger] packages[k])@),
        forall|f: int, j: int| 0 <= f < results.len() && 0 <= j < results[f].extraction@.concepts.len() ==> has_no_calls(#[trigger] results[f].extraction@.concepts[j]),
        ids(gathered.concepts@).no_duplicates(),
        gathered.concepts@.len() <= usize::MAX,
        0 <= i < gathered.concepts@.len(),
        0 <= t < gathered.concepts@.len(),
    ensures
        ({
            let calls = file_calls(results, results.len());
            let (cs, id) = (gathered.concepts@, gathered.concepts@[t].id@);
            &&& how_often(finished(gathered, Seq::empty(), i).relationships, RelationKind::Calls, id) == settled(cs, calls, i, t, calls.len())
            &&& how_often(finished(gathered, Seq::empty(), t).relationships, RelationKind::CalledBy, cs[i].id@) == settled(cs, calls, i, t, calls.len())
            &&& forall|k: int| 0 <= k < finished(gathered, Seq::empty(), i).relationships.len() && is_call(#[trigger] finished(gathered, Seq::empty(), i).relationships[k])
                ==> is_syntactic(finished(gathered, Seq::empty(), i).relationships[k])
        }),
{
    let cs = gathered.concepts@;
    let calls = entry_views(gathered.calls@);
    assert(calls.len() == gathered.calls@.len());
    let edges = exact_edges(cs, calls, calls.len());
    assert(all_edges(gathered, Seq::empty()) =~= edges);
    lemma_model_has_no_calls(packages, results, cs, i);
    lemma_model_has_no_calls(packages, results, cs, t);
    lemma_gained_counts(cs, calls, i, t, calls.len());
    let (gi, gt) = (gained(cs, edges, i, edges.len()), gained(cs, edges, t, edges.len()));
    lemma_often_parts(cs[i]@.relationships, gi, RelationKind::Calls, cs[t].id@);
    lemma_often_parts(cs[t]@.relationships, gt, RelationKind::CalledBy, cs[i].id@);
    assert forall|k: int| 0 <= k < cs[i]@.relationships.len() implies (#[trigger] cs[i]@.relationships[k]).kind != RelationKind::Calls by {
        assert(!is_call(cs[i]@.relationships[k]));
    }
    assert forall|k: int| 0 <= k < cs[t]@.relationships.len() implies (#[trigger] cs[t]@.relationships[k]).kind != RelationKind::CalledBy by {
        assert(!is_call(cs[t]@.relationships[k]));
    }
    lemma_never(cs[i]@.relationships, RelationKind::Calls, cs[t].id@);
    lemma_never(cs[t]@.relationships, RelationKind::CalledBy, cs[i].id@);
    let ok = |r: RelationshipView| is_syntactic(r);
    assert forall|k: int, name: Seq<char>| 0 <= k < edges.len() implies ok(#[trigger] calls_view(edges[k], name)) by {
        lemma_exact_is_syntactic(cs, calls, calls.len(), k);
    }
    assert forall|k: int, name: Seq<char>| 0 <= k < edges.len() implies ok(#[trigger] called_by_view(edges[k], name)) by {
        lemma_exact_is_syntactic(cs, calls, calls.len(), k);
    }
    lemma_gained_all(cs, edges, i, edges.len(), ok);
    let all = finished(gathered, Seq::empty(), i).relationships;
    assert forall|k: int| 0 <= k < all.len() && is_call(#[trigger] all[k]) implies is_syntactic(all[k]) by {
        let own = cs[i]@.relationships;
        if k < own.len() {
            assert(!is_call(own[k]));
        } else {
            assert(all[k] == gi[k - own.len()]);
            assert(ok(gi[k - own.len()]));
        }
    }
}

/// Asking language servers changes nothing of a concept but that more
/// relationships follow, and those are calls, seen from either end, with the
/// confidence of a server's answer.
pub proof fn servers_add_only_their_calls(gathered: Gathered, confirmed: Seq<ResolvedEdge>, i: int)
    requires
        forall|k: int| 0 <= k < confirmed.len() ==> (#[trigger] confirmed[k]).confidence is Semantic,
        0 <= i < gathered.concepts@.len(),
    ensures
        exists|more: Seq<RelationshipView>| {
            &&& finished(gathered, confirmed, i) == #[trigger] with_more(finished(gathered, Seq::empty(), i), more)
            &&& forall|k: int| 0 <= k < more.len() ==> is_call(#[trigger] more[k]) && more[k].confidence is Semantic
        },
{
    let cs = gathered.concepts@;
    let exact = exact_edges(cs, entry_views(gathered.calls@), gathered.calls@.len());
    let extra = edge_views(confirmed);
    assert(all_edges(gathered, Seq::empty()) =~= exact);
    let more = gained(cs, extra, i, extra.len());
    lemma_gained_parts(cs, exact, extra, i);
    let (a, b) = (finished(gathered, Seq::empty(), i), finished(gathered, confirmed, i));
    assert(b =~= with_more(a, more)) by {
        assert(b.relationships =~= a.relationships + more);
    }
    let ok = |r: RelationshipView| is_call(r) && r.confidence is Semantic;
    assert forall|k: int, name: Seq<char>| 0 <= k < extra.len() implies ok(#[trigger] calls_view(extra[k], name)) by {
        assert(extra[k] == confirmed[k]@);
    }
    assert forall|k: int, name: Seq<char>| 0 <= k < extra.len() implies ok(#[trigger] called_by_view(extra[k], name)) by {
        assert(extra[k] == confirmed[k]@);
    }
    lemma_gained_all(cs, extra, i, extra.len(), ok);
    assert forall|k: int| 0 <= k < more.len() implies is_call(#[trigger] more[k]) && more[k].confidence is Semantic by {
        assert(ok(more[k]));
    }
}

proof fn lemma_gained_parts(cs: Seq<Concept>, a: Seq<EdgeView>, b: Seq<EdgeView>, i: int)
    ensures
        gained(cs, a + b, i, (a + b).len()) == gained(cs, a, i, a.len()) + gained(cs, b, i, b.len()),
    decreases b.len(),
{
    if b.len() == 0 {
        assert(a + b =~= a);
        assert(gained(cs, a, i, a.len()) + gained(cs, b, i, 0) =~= gained(cs, a, i, a.len()));
    } else {
        let init = b.drop_last();
        lemma_gained_parts(cs, a, init, i);
        lemma_gained_push(cs, a + init, b.last(), i);
        lemma_gained_push(cs, init, b.last(), i);
        assert((a + init).push(b.last()) =~= a + b);
        assert(init.push(b.last()) =~= b);
        assert(gained(cs, a, i, a.len()) + (gained(cs, init, i, init.len()) + edge_part(cs, b.last(), i)) =~= (gained(cs, a, i, a.len()) + gained(
            cs,
            init,
            i,
            init.len(),
        )) + edge_part(cs, b.last(), i));
    }
}

}
