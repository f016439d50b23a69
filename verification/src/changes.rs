//! What the reports of changes tell about two snapshots.

use vstd::prelude::*;
use crate::diff::{are_copies, change_of, change_views, describes, differing, first_rel, is_change_list, is_diff, lemma_first_rel, only_here, pair_key, relation_rank, rels_differ, ChangeView, ChangedConcept, DiffReport, RelationshipChangeKind};
use crate::graph::{find, selection, structural};
use crate::impact::{are_scores, impact_keys, is_impact, is_score, public_id, ChangeKind, ImpactReport, ImpactedConcept};
use crate::model::{concept_views, opt_text, Concept, RelationKind, Relationship};
use crate::render::relation_at;
use crate::order::{key_lt, goes_before, is_sort_order, lemma_sorting_keeps, sorted_by};
use crate::reach::{a_radius_holds_callers_and_nothing_else, comes_back, holds_callers, is_there, lemma_on_cycle, lemma_stands, pointing, stands_for};
use crate::summary::{count_all, count_class, edge_count, source_count, weight_of_all, ChangeClass};
use crate::text::{lex_lt, texts};

verus! {

/// The relationship at `i` is the first of its kind to the target.
pub open spec fn is_first_to(rels: Seq<Relationship>, i: int, kind: RelationKind, target: Seq<char>) -> bool {
    &&& 0 <= i < rels.len()
    &&& rels[i].kind == kind
    &&& rels[i].target@ == target
    &&& forall|j: int| 0 <= j < i ==> !((#[trigger] rels[j]).kind == kind && rels[j].target@ == target)
}

/// Some relationship is of the kind and to the target.
pub open spec fn has_any_to(rels: Seq<Relationship>, kind: RelationKind, target: Seq<char>) -> bool {
    exists|i: int| #[trigger] is_first_to(rels, i, kind, target)
}

/// The two were found by different resolvers, or by different versions of one.
pub open spec fn differ_in_resolver(b: Relationship, a: Relationship) -> bool {
    b.resolved_by@ != a.resolved_by@ || opt_text(b.resolver_version) != opt_text(a.resolver_version)
}

proof fn lemma_first_to(rels: Seq<Relationship>, kind: RelationKind, target: Seq<char>)
    ensures
        match first_rel(rels, kind, target) {
            Some(i) => is_first_to(rels, i, kind, target) && forall|j: int| #[trigger] is_first_to(rels, j, kind, target) ==> j == i,
            None => !has_any_to(rels, kind, target),
        },
{
    lemma_first_rel(rels, kind, target);
    if let Some(i) = first_rel(rels, kind, target) {
        assert forall|j: int| #[trigger] is_first_to(rels, j, kind, target) implies j == i by {
            if i < j {
                assert(!(rels[i].kind == kind && rels[i].target@ == target));
            }
            if j < i {
                assert(!(rels[j].kind == kind && rels[j].target@ == target));
            }
        }
    }
}

/// The changes of the relationships of a concept: one that is on one side only
/// is a change of the source; one on both sides is listed by what differs in
/// how it was first found there; nothing else is listed.
pub proof fn changes_tell_what_differs(b: Seq<Relationship>, a: Seq<Relationship>, r: Seq<ChangeView>, kind: RelationKind, target: Seq<char>)
    requires
        is_change_list(b, a, r),
    ensures
        r.contains((kind, target, RelationshipChangeKind::SourceChange)) <==> has_any_to(b, kind, target) != has_any_to(a, kind, target),
        !r.contains((kind, target, RelationshipChangeKind::Unchanged)),
        !(has_any_to(b, kind, target) && has_any_to(a, kind, target)) ==> forall|c: RelationshipChangeKind| #[trigger] r.contains((kind, target, c)) ==> c is SourceChange,
        forall|i: int, j: int| #[trigger] is_first_to(b, i, kind, target) && #[trigger] is_first_to(a, j, kind, target) ==> {
            &&& r.contains((kind, target, RelationshipChangeKind::ResolverChange)) <==> differ_in_resolver(b[i], a[j]) && b[i].confidence == a[j].confidence
            &&& r.contains((kind, target, RelationshipChangeKind::ConfidenceChange)) <==> !differ_in_resolver(b[i], a[j]) && b[i].confidence != a[j].confidence
            &&& r.contains((kind, target, RelationshipChangeKind::ProvenanceChange)) <==> differ_in_resolver(b[i], a[j]) && b[i].confidence != a[j].confidence
        },
{
    lemma_first_to(b, kind, target);
    lemma_first_to(a, kind, target);
    let change = change_of(b, a, kind, target);
    assert forall|c: RelationshipChangeKind| #[trigger] r.contains((kind, target, c)) <==> c == change && !(c is Unchanged) by {
        let v: ChangeView = (kind, target, c);
        assert(r.contains(v) <==> v.2 == change_of(b, a, v.0, v.1) && v.2 != RelationshipChangeKind::Unchanged);
    }
    match (first_rel(b, kind, target), first_rel(a, kind, target)) {
        (Some(i), Some(j)) => {
            assert(is_first_to(b, i, kind, target) && is_first_to(a, j, kind, target));
        },
        (Some(i), None) => {
            assert(is_first_to(b, i, kind, target));
        },
        (None, Some(j)) => {
            assert(is_first_to(a, j, kind, target));
        },
        (None, None) => {},
    }
}

/// One side has a relationship that the other has not, or both have one that
/// they found in different ways.
pub open spec fn differ_in_ties(b: Seq<Relationship>, a: Seq<Relationship>) -> bool {
    exists|kind: RelationKind, target: Seq<char>| #[trigger] differ_in_tie(b, a, kind, target)
}

/// The two sides differ in the relationship of the kind to the target.
pub open spec fn differ_in_tie(b: Seq<Relationship>, a: Seq<Relationship>, kind: RelationKind, target: Seq<char>) -> bool {
    ||| has_any_to(b, kind, target) != has_any_to(a, kind, target)
    ||| exists|i: int, j: int|
        #[trigger] is_first_to(b, i, kind, target) && #[trigger] is_first_to(a, j, kind, target) && (differ_in_resolver(b[i], a[j]) || b[i].confidence != a[j].confidence)
}

proof fn lemma_ties(b: Concept, a: Concept)
    ensures
        rels_differ(b, a) <==> differ_in_ties(b.relationships@, a.relationships@),
{
    let (x, y) = (b.relationships@, a.relationships@);
    assert forall|kind: RelationKind, target: Seq<char>| #[trigger] differ_in_tie(x, y, kind, target) <==> !(change_of(x, y, kind, target) is Unchanged) by {
        lemma_first_to(x, kind, target);
        lemma_first_to(y, kind, target);
        match (first_rel(x, kind, target), first_rel(y, kind, target)) {
            (Some(i), Some(j)) => {
                assert(is_first_to(x, i, kind, target) && is_first_to(y, j, kind, target));
            },
            (Some(i), None) => {
                assert(is_first_to(x, i, kind, target));
            },
            (None, Some(j)) => {
                assert(is_first_to(y, j, kind, target));
            },
            (None, None) => {},
        }
    }
    if rels_differ(b, a) {
        let (kind, target) = choose|kind: RelationKind, target: Seq<char>| #[trigger] change_of(x, y, kind, target) != RelationshipChangeKind::Unchanged;
        assert(differ_in_tie(x, y, kind, target));
    }
    if differ_in_ties(x, y) {
        let (kind, target) = choose|kind: RelationKind, target: Seq<char>| #[trigger] differ_in_tie(x, y, kind, target);
        assert(change_of(x, y, kind, target) != RelationshipChangeKind::Unchanged);
    }
}

/// The concept is equal to one that `keep` holds for.
spec fn is_copy(c: Concept, cs: Seq<Concept>, keep: spec_fn(int) -> bool) -> bool {
    exists|i: int| 0 <= i < cs.len() && #[trigger] keep(i) && c@ == cs[i]@
}

proof fn lemma_copies(found: Seq<Concept>, cs: Seq<Concept>, keep: spec_fn(int) -> bool)
    requires
        are_copies(found, cs, keep),
    ensures
        forall|i: int| 0 <= i < cs.len() && #[trigger] keep(i) ==> concept_views(found).contains(cs[i]@),
        forall|k: int| 0 <= k < found.len() ==> is_copy(#[trigger] found[k], cs, keep),
        forall|k: int, l: int| 0 <= k < l < found.len() ==> lex_lt((#[trigger] found[k]).id@, (#[trigger] found[l]).id@) || found[k].id@ == found[l].id@,
{
    let at = choose|at: Seq<int>| #[trigger] selection(cs, keep, at) && found.len() == at.len() && forall|k: int| 0 <= k < at.len() ==> (#[trigger] found[k])@ == cs[at[k]]@;
    assert forall|i: int| 0 <= i < cs.len() && #[trigger] keep(i) implies concept_views(found).contains(cs[i]@) by {
        let k = choose|k: int| 0 <= k < at.len() && at[k] == i;
        assert(found[k]@ == cs[at[k]]@);
        assert(concept_views(found)[k] == cs[i]@);
    }
    assert forall|k: int| 0 <= k < found.len() implies is_copy(#[trigger] found[k], cs, keep) by {
        assert(found[k]@ == cs[at[k]]@);
        assert(keep(at[k]));
    }
    assert forall|k: int, l: int| 0 <= k < l < found.len() implies lex_lt((#[trigger] found[k]).id@, (#[trigger] found[l]).id@) || found[k].id@ == found[l].id@ by {
        assert(found[k]@ == cs[at[k]]@ && found[l]@ == cs[at[l]]@);
        assert(found[k]@.id == cs[at[k]]@.id && found[l]@.id == cs[at[l]]@.id);
    }
}

/// What a report calls added is what has an id that the earlier snapshot has
/// not, all of it and nothing else, in order of the ids; what it calls removed
/// is what has an id that the later one has not.
pub proof fn reports_hold_what_is_on_one_side(before: Seq<Concept>, after: Seq<Concept>, r: DiffReport)
    requires
        is_diff(before, after, r),
    ensures
        forall|i: int| 0 <= i < after.len() && !is_there(before, (#[trigger] after[i]).id@) ==> concept_views(r.added@).contains(after[i]@),
        forall|k: int| 0 <= k < r.added@.len() ==> !is_there(before, (#[trigger] r.added@[k]).id@) && concept_views(after).contains(r.added@[k]@),
        forall|k: int, l: int| 0 <= k < l < r.added@.len() ==> lex_lt((#[trigger] r.added@[k]).id@, (#[trigger] r.added@[l]).id@) || r.added@[k].id@ == r.added@[l].id@,
        forall|i: int| 0 <= i < before.len() && !is_there(after, (#[trigger] before[i]).id@) ==> concept_views(r.removed@).contains(before[i]@),
        forall|k: int| 0 <= k < r.removed@.len() ==> !is_there(after, (#[trigger] r.removed@[k]).id@) && concept_views(before).contains(r.removed@[k]@),
        forall|k: int, l: int| 0 <= k < l < r.removed@.len() ==> lex_lt((#[trigger] r.removed@[k]).id@, (#[trigger] r.removed@[l]).id@) || r.removed@[k].id@ == r.removed@[l].id@,
{
    lemma_one_side(after, before, r.added@);
    lemma_one_side(before, after, r.removed@);
}

proof fn lemma_one_side(cs: Seq<Concept>, other: Seq<Concept>, found: Seq<Concept>)
    requires
        are_copies(found, cs, |i: int| only_here(cs, other, i)),
    ensures
        forall|i: int| 0 <= i < cs.len() && !is_there(other, (#[trigger] cs[i]).id@) ==> concept_views(found).contains(cs[i]@),
        forall|k: int| 0 <= k < found.len() ==> !is_there(other, (#[trigger] found[k]).id@) && concept_views(cs).contains(found[k]@),
        forall|k: int, l: int| 0 <= k < l < found.len() ==> lex_lt((#[trigger] found[k]).id@, (#[trigger] found[l]).id@) || found[k].id@ == found[l].id@,
{
    let keep = |i: int| only_here(cs, other, i);
    lemma_copies(found, cs, keep);
    assert forall|i: int| 0 <= i < cs.len() && !is_there(other, (#[trigger] cs[i]).id@) implies concept_views(found).contains(cs[i]@) by {
        lemma_stands(other, cs[i].id@);
        assert(keep(i));
    }
    assert forall|k: int| 0 <= k < found.len() implies !is_there(other, (#[trigger] found[k]).id@) && concept_views(cs).contains(found[k]@) by {
        assert(is_copy(found[k], cs, keep));
        let i = choose|i: int| 0 <= i < cs.len() && #[trigger] keep(i) && found[k]@ == cs[i]@;
        assert(found[k]@.id == cs[i]@.id);
        lemma_stands(other, cs[i].id@);
        assert(concept_views(cs)[i] == found[k]@);
    }
}

/// The concept at `i` of the later snapshot has another signature, or differs
/// in a relationship, from what its id means in the earlier one.
pub open spec fn is_altered(before: Seq<Concept>, after: Seq<Concept>, i: int) -> bool {
    exists|b: int| #[trigger] stands_for(before, b, after[i].id@) && (opt_text(before[b].signature) != opt_text(after[i].signature) || differ_in_ties(before[b].relationships@, after[i].relationships@))
}

/// The entry is that of the concept at `i` of the later snapshot.
pub open spec fn tells_of(c: ChangedConcept, before: Seq<Concept>, after: Seq<Concept>, i: int) -> bool {
    &&& c.id@ == after[i].id@
    &&& c.kind == after[i].kind
    &&& opt_text(c.after_signature) == opt_text(after[i].signature)
    &&& forall|b: int| #[trigger] stands_for(before, b, after[i].id@) ==> opt_text(c.before_signature) == opt_text(before[b].signature) && is_change_list(
        before[b].relationships@,
        after[i].relationships@,
        change_views(c.relationship_changes@),
    )
}

/// The entry is that of an altered concept.
pub open spec fn tells_of_one(c: ChangedConcept, before: Seq<Concept>, after: Seq<Concept>) -> bool {
    exists|i: int| 0 <= i < after.len() && #[trigger] is_altered(before, after, i) && tells_of(c, before, after, i)
}

/// What a report calls changed is what is in both snapshots and is altered,
/// all of it and nothing else, with the signatures of both sides.
pub proof fn reports_hold_what_is_altered(before: Seq<Concept>, after: Seq<Concept>, r: DiffReport)
    requires
        is_diff(before, after, r),
    ensures
        forall|i: int| 0 <= i < after.len() && #[trigger] is_altered(before, after, i) ==> exists|k: int| 0 <= k < r.changed@.len() && tells_of(#[trigger] r.changed@[k], before, after, i),
        forall|k: int| 0 <= k < r.changed@.len() ==> tells_of_one(#[trigger] r.changed@[k], before, after),
        forall|k: int, l: int| 0 <= k < l < r.changed@.len() ==> lex_lt((#[trigger] r.changed@[k]).id@, (#[trigger] r.changed@[l]).id@) || r.changed@[k].id@ == r.changed@[l].id@,
{
    let keep = differing(before, after);
    let at = choose|at: Seq<int>| #[trigger] selection(after, keep, at) && r.changed@.len() == at.len() && forall|k: int|
        0 <= k < at.len() ==> describes(#[trigger] r.changed@[k], before, after, at[k]);
    assert forall|i: int| 0 <= i < after.len() implies (#[trigger] keep(i) <==> is_altered(before, after, i)) by {
        lemma_stands(before, after[i].id@);
        if let Some(b) = find(before, after[i].id@) {
            lemma_ties(before[b], after[i]);
            assert(stands_for(before, b, after[i].id@));
        }
    }
    assert forall|k: int| 0 <= k < at.len() implies tells_of(#[trigger] r.changed@[k], before, after, at[k]) by {
        lemma_stands(before, after[at[k]].id@);
        assert(describes(r.changed@[k], before, after, at[k]));
    }
    assert forall|i: int| 0 <= i < after.len() && #[trigger] is_altered(before, after, i) implies exists|k: int| 0 <= k < r.changed@.len() && tells_of(
        #[trigger] r.changed@[k],
        before,
        after,
        i,
    ) by {
        assert(keep(i));
        let k = choose|k: int| 0 <= k < at.len() && at[k] == i;
        assert(tells_of(r.changed@[k], before, after, at[k]));
    }
    assert forall|k: int| 0 <= k < r.changed@.len() implies tells_of_one(#[trigger] r.changed@[k], before, after) by {
        assert(keep(at[k]));
        assert(is_altered(before, after, at[k]) && tells_of(r.changed@[k], before, after, at[k]));
    }
    assert forall|k: int, l: int| 0 <= k < l < r.changed@.len() implies lex_lt((#[trigger] r.changed@[k]).id@, (#[trigger] r.changed@[l]).id@) || r.changed@[k].id@ == r.changed@[l].id@ by {
        assert(tells_of(r.changed@[k], before, after, at[k]) && tells_of(r.changed@[l], before, after, at[l]));
    }
}

/// The entry says how far a change of the concept with its id reaches in the
/// snapshot.
pub open spec fn measures(cs: Seq<Concept>, e: ImpactedConcept) -> bool {
    &&& exists|i: int| #[trigger] stands_for(cs, i, e.id@) && e.kind == cs[i].kind
    &&& holds_callers(cs, e.id@, texts(e.blast_radius@).to_set())
    &&& forall|set: Set<Seq<char>>| #[trigger] holds_callers(cs, e.id@, set) ==> texts(e.blast_radius@).to_set().subset_of(set)
    &&& forall|a: int, b: int| 0 <= a < b < e.blast_radius@.len() ==> lex_lt((#[trigger] e.blast_radius@[a])@, (#[trigger] e.blast_radius@[b])@)
    &&& e.is_public_api <==> exists|i: int|
        0 <= i < cs.len() && (#[trigger] cs[i]).id@ == e.id@ && cs[i].is_public && !(cs[i].kind is Module) && !(cs[i].kind is Package) && !(cs[i].kind is Document)
    &&& e.in_cycle <==> comes_back(pointing(cs, RelationKind::Calls), e.id@)
}

proof fn lemma_measures(cs: Seq<Concept>, id: Seq<char>, change: ChangeKind, e: ImpactedConcept)
    requires
        is_score(cs, id, change, e),
    ensures
        measures(cs, e),
{
    lemma_stands(cs, id);
    let radius = texts(e.blast_radius@);
    a_radius_holds_callers_and_nothing_else(cs, id, radius);
    assert forall|a: int, b: int| 0 <= a < b < e.blast_radius@.len() implies lex_lt((#[trigger] e.blast_radius@[a])@, (#[trigger] e.blast_radius@[b])@) by {
        assert(lex_lt(radius[a], radius[b]));
    }
    lemma_on_cycle(cs, RelationKind::Calls, id);
    if public_id(cs, id) {
        let i = choose|i: int| 0 <= i < cs.len() && (#[trigger] cs[i]).id@ == id && cs[i].is_public && !structural(cs[i].kind);
        assert(cs[i].id@ == e.id@);
    }
}

/// The entry measures the change in the snapshot where it is to be seen.
pub open spec fn measures_its_change(before: Seq<Concept>, after: Seq<Concept>, e: ImpactedConcept) -> bool {
    if e.change is Removed {
        measures(before, e)
    } else {
        measures(after, e)
    }
}

/// An entry is about the concept and the change.
pub open spec fn has_entry(entries: Seq<ImpactedConcept>, id: Seq<char>, change: ChangeKind) -> bool {
    exists|e: int| 0 <= e < entries.len() && (#[trigger] entries[e]).id@ == id && entries[e].change == change
}

proof fn lemma_entries(before: Seq<Concept>, after: Seq<Concept>, d: DiffReport, entries: Seq<ImpactedConcept>)
    requires
        are_scores(before, after, d, entries),
    ensures
        forall|k: int| 0 <= k < entries.len() ==> measures_its_change(before, after, #[trigger] entries[k]),
        forall|k: int| 0 <= k < d.added@.len() ==> has_entry(entries, (#[trigger] d.added@[k]).id@, ChangeKind::Added),
        forall|k: int| 0 <= k < d.removed@.len() ==> has_entry(entries, (#[trigger] d.removed@[k]).id@, ChangeKind::Removed),
        forall|k: int| 0 <= k < d.changed@.len() ==> has_entry(entries, (#[trigger] d.changed@[k]).id@, ChangeKind::Changed),
{
    let (a, b) = (d.added@.len() as int, d.added@.len() + d.removed@.len());
    assert forall|k: int| 0 <= k < entries.len() implies measures_its_change(before, after, #[trigger] entries[k]) by {
        if k < a {
            lemma_measures(after, d.added@[k].id@, ChangeKind::Added, entries[k]);
        } else if k < b {
            lemma_measures(before, d.removed@[k - a].id@, ChangeKind::Removed, entries[k]);
        } else {
            lemma_measures(after, d.changed@[k - b].id@, ChangeKind::Changed, entries[k]);
        }
    }
    assert forall|k: int| 0 <= k < d.added@.len() implies has_entry(entries, (#[trigger] d.added@[k]).id@, ChangeKind::Added) by {
        assert(is_score(after, d.added@[k].id@, ChangeKind::Added, entries[k]));
    }
    assert forall|k: int| 0 <= k < d.removed@.len() implies has_entry(entries, (#[trigger] d.removed@[k]).id@, ChangeKind::Removed) by {
        assert(is_score(before, d.removed@[a + k - a].id@, ChangeKind::Removed, entries[a + k]));
    }
    assert forall|k: int| 0 <= k < d.changed@.len() implies has_entry(entries, (#[trigger] d.changed@[k]).id@, ChangeKind::Changed) by {
        assert(is_score(after, d.changed@[b + k - b].id@, ChangeKind::Changed, entries[b + k]));
    }
}

proof fn lemma_entry_moves(entries: Seq<ImpactedConcept>, out: Seq<ImpactedConcept>, id: Seq<char>, change: ChangeKind)
    requires
        forall|x: ImpactedConcept| #[trigger] out.contains(x) <==> entries.contains(x),
        has_entry(entries, id, change),
    ensures
        has_entry(out, id, change),
{
    let e = choose|e: int| 0 <= e < entries.len() && (#[trigger] entries[e]).id@ == id && entries[e].change == change;
    assert(entries.contains(entries[e]));
    assert(out.contains(entries[e]));
    let k = choose|k: int| 0 <= k < out.len() && out[k] == entries[e];
    assert(out[k].id@ == id);
}

/// An impact report has an entry for each concept that was added, was removed
/// or changed, which says how far its change reaches: where it was added or
/// changed in the later snapshot, where it was removed in the earlier one.
pub proof fn every_change_is_measured(before: Seq<Concept>, after: Seq<Concept>, r: ImpactReport)
    requires
        is_impact(before, after, r),
    ensures
        r.impacted@.len() == r.diff.added@.len() + r.diff.removed@.len() + r.diff.changed@.len(),
        forall|k: int| 0 <= k < r.impacted@.len() ==> measures_its_change(before, after, #[trigger] r.impacted@[k]),
        forall|k: int| 0 <= k < r.diff.added@.len() ==> has_entry(r.impacted@, (#[trigger] r.diff.added@[k]).id@, ChangeKind::Added),
        forall|k: int| 0 <= k < r.diff.removed@.len() ==> has_entry(r.impacted@, (#[trigger] r.diff.removed@[k]).id@, ChangeKind::Removed),
        forall|k: int| 0 <= k < r.diff.changed@.len() ==> has_entry(r.impacted@, (#[trigger] r.diff.changed@[k]).id@, ChangeKind::Changed),
{
    let entries = choose|entries: Seq<ImpactedConcept>| #[trigger] are_scores(before, after, r.diff, entries) && sorted_by(entries, impact_keys(entries), r.impacted@);
    let out = r.impacted@;
    assert(out.len() == r.impacted.len());
    lemma_sorting_keeps(entries, impact_keys(entries), out);
    lemma_entries(before, after, r.diff, entries);
    assert forall|k: int| 0 <= k < out.len() implies measures_its_change(before, after, #[trigger] out[k]) by {
        assert(out.contains(out[k]));
        let j = choose|j: int| 0 <= j < entries.len() && entries[j] == out[k];
        assert(measures_its_change(before, after, entries[j]));
    }
    assert forall|k: int| 0 <= k < r.diff.added@.len() implies has_entry(out, (#[trigger] r.diff.added@[k]).id@, ChangeKind::Added) by {
        lemma_entry_moves(entries, out, r.diff.added@[k].id@, ChangeKind::Added);
    }
    assert forall|k: int| 0 <= k < r.diff.removed@.len() implies has_entry(out, (#[trigger] r.diff.removed@[k]).id@, ChangeKind::Removed) by {
        lemma_entry_moves(entries, out, r.diff.removed@[k].id@, ChangeKind::Removed);
    }
    assert forall|k: int| 0 <= k < r.diff.changed@.len() implies has_entry(out, (#[trigger] r.diff.changed@[k]).id@, ChangeKind::Changed) by {
        lemma_entry_moves(entries, out, r.diff.changed@[k].id@, ChangeKind::Changed);
    }
}

/// What reaches farther comes first, and of what reaches equally far the
/// smaller id.
pub proof fn impacts_come_by_reach_and_id(before: Seq<Concept>, after: Seq<Concept>, r: ImpactReport, k: int, l: int)
    requires
        is_impact(before, after, r),
        0 <= k < l < r.impacted@.len(),
    ensures
        r.impacted@[k].blast_radius@.len() >= r.impacted@[l].blast_radius@.len(),
        r.impacted@[k].blast_radius@.len() == r.impacted@[l].blast_radius@.len() ==> lex_lt(r.impacted@[k].id@, r.impacted@[l].id@) || r.impacted@[k].id@ == r.impacted@[l].id@,
{
    let entries = choose|entries: Seq<ImpactedConcept>| #[trigger] are_scores(before, after, r.diff, entries) && sorted_by(entries, impact_keys(entries), r.impacted@);
    let keys = impact_keys(entries);
    let order = choose|order: Seq<usize>| #[trigger] is_sort_order(keys, order) && r.impacted@ == order.map_values(|k: usize| entries[k as int]);
    assert(goes_before(keys, order[k] as int, order[l] as int));
}

/// The changes of the sort, in their order.
pub open spec fn of_sort(changes: Seq<(RelationKind, String, RelationshipChangeKind)>, sort: spec_fn(RelationshipChangeKind) -> bool) -> Seq<(
    RelationKind,
    String,
    RelationshipChangeKind,
)> {
    changes.filter(|c: (RelationKind, String, RelationshipChangeKind)| sort(c.2))
}

/// Each change of a relationship counts once: one of the source as such, one
/// in which the resolver is another as one of the resolver, whatever else is,
/// and one in the confidence alone as one of the confidence. All of these and
/// nothing else are changes of relationships.
pub proof fn each_change_counts_once(changes: Seq<(RelationKind, String, RelationshipChangeKind)>)
    ensures
        count_class(changes, ChangeClass::Source) == of_sort(changes, |k: RelationshipChangeKind| k is SourceChange).len(),
        count_class(changes, ChangeClass::Resolver) == of_sort(changes, |k: RelationshipChangeKind| k is ResolverChange || k is ProvenanceChange).len(),
        count_class(changes, ChangeClass::Confidence) == of_sort(changes, |k: RelationshipChangeKind| k is ConfidenceChange).len(),
        crate::summary::count_edges(changes) == of_sort(changes, |k: RelationshipChangeKind| !(k is Unchanged)).len(),
    decreases changes.len(),
{
    reveal(Seq::filter);
    if changes.len() > 0 {
        each_change_counts_once(changes.drop_last());
    }
}

/// What reports count adds up: two reports together count what each counts,
/// and a concept that came or went counts as many changes of the source as it
/// has relationships, or one where it has none; a concept on both sides counts
/// its changes, and one more of the source where its signature is another.
pub proof fn reports_add_up(x: Seq<ChangedConcept>, y: Seq<ChangedConcept>, p: Seq<Concept>, q: Seq<Concept>)
    ensures
        weight_of_all(p + q) == weight_of_all(p) + weight_of_all(q),
        forall|class: ChangeClass| #[trigger] count_all(x + y, class) == count_all(x, class) + count_all(y, class),
        edge_count(x + y) == edge_count(x) + edge_count(y),
        p.len() == 1 ==> weight_of_all(p) == (if p[0].relationships@.len() > 0 { p[0].relationships@.len() } else { 1 }),
        x.len() == 1 ==> {
            let n = of_sort(x[0].relationship_changes@, |k: RelationshipChangeKind| k is SourceChange).len();
            count_all(x, ChangeClass::Source) == if opt_text(x[0].before_signature) != opt_text(x[0].after_signature) { n + 1 } else { n }
        },
        x.len() == 1 ==> count_all(x, ChangeClass::Resolver) == of_sort(x[0].relationship_changes@, |k: RelationshipChangeKind| k is ResolverChange || k is ProvenanceChange).len(),
        x.len() == 1 ==> count_all(x, ChangeClass::Confidence) == of_sort(x[0].relationship_changes@, |k: RelationshipChangeKind| k is ConfidenceChange).len(),
        x.len() == 1 ==> edge_count(x) == of_sort(x[0].relationship_changes@, |k: RelationshipChangeKind| !(k is Unchanged)).len(),
    decreases y.len() + q.len(),
{
    if y.len() == 0 {
        assert(x + y =~= x);
    } else {
        reports_add_up(x, y.drop_last(), p, q);
        assert((x + y).drop_last() =~= x + y.drop_last());
        assert forall|class: ChangeClass| #[trigger] count_all(x + y, class) == count_all(x, class) + count_all(y, class) by {
            assert(count_all(x + y.drop_last(), class) == count_all(x, class) + count_all(y.drop_last(), class));
        }
    }
    if q.len() == 0 {
        assert(p + q =~= p);
    } else {
        reports_add_up(x, y, p, q.drop_last());
        assert((p + q).drop_last() =~= p + q.drop_last());
    }
    if x.len() == 1 {
        each_change_counts_once(x[0].relationship_changes@);
        assert(x.drop_last().len() == 0);
        assert(x.last() == x[0]);
        reveal_with_fuel(count_all, 2);
        reveal_with_fuel(edge_count, 2);
    }
    if p.len() == 1 {
        assert(p.drop_last().len() == 0);
        reveal_with_fuel(weight_of_all, 2);
    }
}

/// The changes of the source in a report are those of what was added, of what
/// was removed and of what is on both sides.
pub proof fn source_changes_are_of_three_sorts(r: DiffReport)
    ensures
        source_count(r) == weight_of_all(r.added@ + r.removed@) + count_all(r.changed@, ChangeClass::Source),
{
    reports_add_up(Seq::empty(), Seq::empty(), r.added@, r.removed@);
}

/// The kind is shown before the other one.
pub open spec fn is_shown_before(a: RelationKind, b: RelationKind) -> bool {
    exists|i: int, j: int| 0 <= i < j < 7 && #[trigger] relation_at(i) == a && #[trigger] relation_at(j) == b
}

/// Changes of relationships come by kind, in the order in which pages show the
/// kinds, and then by target, and no relationship is listed twice.
pub proof fn changes_come_by_kind_and_target(b: Seq<Relationship>, a: Seq<Relationship>, r: Seq<ChangeView>, i: int, j: int)
    requires
        is_change_list(b, a, r),
        0 <= i < j < r.len(),
    ensures
        r[i].0 == r[j].0 ==> lex_lt(r[i].1, r[j].1),
        r[i].0 != r[j].0 ==> is_shown_before(r[i].0, r[j].0),
{
    let (x, y) = (r[i], r[j]);
    assert(key_lt(pair_key(x.0, x.1), pair_key(y.0, y.1)));
    lemma_kind_at(x.0);
    lemma_kind_at(y.0);
    if x.0 != y.0 {
        assert(relation_at(relation_rank(x.0)) == x.0 && relation_at(relation_rank(y.0)) == y.0);
    }
}

proof fn lemma_kind_at(kind: RelationKind)
    ensures
        0 <= relation_rank(kind) < 7,
        relation_at(relation_rank(kind)) == kind,
{
}

}
