//! What changed between two snapshots of a project's concepts.

use vstd::prelude::*;
use crate::graph::{as_ints, find, ids, lemma_pick_one, picked, selection};
use crate::graph::positions_by_id;
use crate::model::{copy_opt, same_opt, Concept, ConceptKind, RelationKind, Relationship};
use crate::model::{concept_views, opt_text, rel_views, RelationshipView};
use crate::order::{sort_order, KeyIndex, SortKey};
use crate::order::{goes_before, is_sort_order, key_lt, key_views, lemma_ascending_unique, lemma_key_transitive, lemma_last_of, lemma_sorted_unique, lists, strictly_sorted, KeyView};
use crate::text::same;
use crate::text::{lemma_lex_irreflexive, lemma_lex_transitive, lex_lt};

verus! {

/// How one relationship differs between two snapshots of a concept.
#[derive(Clone, Copy, Debug, PartialEq, Eq, Structural)]
pub enum RelationshipChangeKind {
    /// The same on both sides.
    Unchanged,
    /// There on one side only.
    SourceChange,
    /// Found by another resolver, or another version of it.
    ResolverChange,
    /// Found with another confidence.
    ConfidenceChange,
    /// Found by another resolver and with another confidence.
    ProvenanceChange,
}

/// A concept that is in both snapshots and differs.
#[derive(Debug)]
pub struct ChangedConcept {
    pub id: String,
    pub kind: ConceptKind,
    pub before_signature: Option<String>,
    pub after_signature: Option<String>,
    pub relationship_changes: Vec<(RelationKind, String, RelationshipChangeKind)>,
}

/// The concepts that differ between two snapshots.
#[derive(Debug)]
pub struct DiffReport {
    pub added: Vec<Concept>,
    pub removed: Vec<Concept>,
    pub changed: Vec<ChangedConcept>,
}

impl Default for DiffReport {
    fn default() -> (r: DiffReport)
        ensures
            r.added@.len() == 0,
            r.removed@.len() == 0,
            r.changed@.len() == 0,
    {
        DiffReport { added: Vec::new(), removed: Vec::new(), changed: Vec::new() }
    }
}

/// The place of a kind of relationship among the others.
pub open spec fn relation_rank(kind: RelationKind) -> int {
    match kind {
        RelationKind::Imports => 0,
        RelationKind::Calls => 1,
        RelationKind::CalledBy => 2,
        RelationKind::Implements => 3,
        RelationKind::Inherits => 4,
        RelationKind::DependsOn => 5,
        RelationKind::MemberOf => 6,
    }
}

/// The place of a kind of relationship among the others.
pub fn rank_of(kind: RelationKind) -> (r: usize)
    ensures
        r == relation_rank(kind),
{
    match kind {
        RelationKind::Imports => 0,
        RelationKind::Calls => 1,
        RelationKind::CalledBy => 2,
        RelationKind::Implements => 3,
        RelationKind::Inherits => 4,
        RelationKind::DependsOn => 5,
        RelationKind::MemberOf => 6,
    }
}

/// What relationships are told apart and sorted by: kind and target.
pub open spec fn pair_key(kind: RelationKind, target: Seq<char>) -> KeyView {
    KeyView { major: relation_rank(kind), text: target, second: ""@, minor: 0 }
}

/// The first relationship of this kind to this target.
pub open spec fn first_rel(rels: Seq<Relationship>, kind: RelationKind, target: Seq<char>) -> Option<int>
    decreases rels.len(),
{
    if rels.len() == 0 {
        None
    } else {
        match first_rel(rels.drop_last(), kind, target) {
            Some(i) => Some(i),
            None => if rels.last().kind == kind && rels.last().target@ == target {
                Some(rels.len() - 1)
            } else {
                None
            },
        }
    }
}

pub proof fn lemma_first_rel(rels: Seq<Relationship>, kind: RelationKind, target: Seq<char>)
    ensures
        match first_rel(rels, kind, target) {
            Some(i) => 0 <= i < rels.len() && rels[i].kind == kind && rels[i].target@ == target
                && forall|j: int| 0 <= j < i ==> !((#[trigger] rels[j]).kind == kind && rels[j].target@ == target),
            None => forall|j: int| 0 <= j < rels.len() ==> !((#[trigger] rels[j]).kind == kind && rels[j].target@ == target),
        },
    decreases rels.len(),
{
    if rels.len() > 0 {
        lemma_first_rel(rels.drop_last(), kind, target);
        assert forall|j: int| 0 <= j < rels.len() - 1 implies rels[j] == rels.drop_last()[j] by {}
    }
}

/// How two findings of the same relationship differ.
pub open spec fn provenance_change(b: RelationshipView, a: RelationshipView) -> RelationshipChangeKind {
    let resolver = b.resolved_by != a.resolved_by || b.resolver_version != a.resolver_version;
    let confidence = b.confidence != a.confidence;
    if resolver && confidence {
        RelationshipChangeKind::ProvenanceChange
    } else if resolver {
        RelationshipChangeKind::ResolverChange
    } else if confidence {
        RelationshipChangeKind::ConfidenceChange
    } else {
        RelationshipChangeKind::Unchanged
    }
}

/// How the relationship of this kind to this target differs; of several the
/// first counts.
pub open spec fn change_of(b: Seq<Relationship>, a: Seq<Relationship>, kind: RelationKind, target: Seq<char>) -> RelationshipChangeKind {
    match (first_rel(b, kind, target), first_rel(a, kind, target)) {
        (Some(i), Some(j)) => provenance_change(b[i]@, a[j]@),
        (None, None) => RelationshipChangeKind::Unchanged,
        _ => RelationshipChangeKind::SourceChange,
    }
}

/// A change of a relationship as a value.
pub type ChangeView = (RelationKind, Seq<char>, RelationshipChangeKind);

/// The changes as values.
pub open spec fn change_views(v: Seq<(RelationKind, String, RelationshipChangeKind)>) -> Seq<ChangeView> {
    v.map_values(|c: (RelationKind, String, RelationshipChangeKind)| (c.0, c.1@, c.2))
}

/// The list has every relationship that changed, by kind and target, each
/// once, with its change.
pub open spec fn is_change_list(b: Seq<Relationship>, a: Seq<Relationship>, r: Seq<ChangeView>) -> bool {
    &&& forall|i: int, j: int| 0 <= i < j < r.len() ==> key_lt(pair_key((#[trigger] r[i]).0, r[i].1), pair_key((#[trigger] r[j]).0, r[j].1))
    &&& forall|c: ChangeView| #[trigger] r.contains(c) <==> c.2 == change_of(b, a, c.0, c.1) && c.2 != RelationshipChangeKind::Unchanged
}

/// How two findings of the same relationship differ.
pub fn classify_provenance_change(before: &Relationship, after: &Relationship) -> (r: RelationshipChangeKind)
    ensures
        r == provenance_change(before@, after@),
{
    let resolver_changed = !same(before.resolved_by.as_str(), after.resolved_by.as_str()) || !same_opt(
        &before.resolver_version,
        &after.resolver_version,
    );
    let confidence_changed = before.confidence != after.confidence;
    match (resolver_changed, confidence_changed) {
        (false, false) => RelationshipChangeKind::Unchanged,
        (true, false) => RelationshipChangeKind::ResolverChange,
        (false, true) => RelationshipChangeKind::ConfidenceChange,
        (true, true) => RelationshipChangeKind::ProvenanceChange,
    }
}

/// The first relationship of this kind to this target.
pub fn first_relationship(rels: &Vec<Relationship>, kind: RelationKind, target: &str) -> (r: Option<usize>)
    ensures
        match r {
            Some(i) => first_rel(rels@, kind, target@) == Some(i as int) && i < rels@.len(),
            None => first_rel(rels@, kind, target@) is None,
        },
{
    proof {
        lemma_first_rel(rels@, kind, target@);
    }
    for i in 0..rels.len()
        invariant
            forall|j: int| 0 <= j < i ==> !((#[trigger] rels@[j]).kind == kind && rels@[j].target@ == target@),
    {
        if rels[i].kind == kind && same(rels[i].target.as_str(), target) {
            proof {
                lemma_first_rel(rels@, kind, target@);
            }
            return Some(i);
        }
    }
    None
}

/// The relationships that differ between two snapshots of a concept, by kind
/// and target. The order that either snapshot lists them in does not count.
pub fn diff_relationships(before: &Concept, after: &Concept) -> (r: Vec<(RelationKind, String, RelationshipChangeKind)>)
    ensures
        is_change_list(before.relationships@, after.relationships@, change_views(r@)),
{
    let ghost b = before.relationships@;
    let ghost a = after.relationships@;
    let mut pairs: Vec<(RelationKind, &str)> = Vec::new();
    for i in 0..before.relationships.len()
        invariant
            b == before.relationships@,
            pairs@.len() == i,
            forall|k: int| 0 <= k < i ==> (#[trigger] pairs@[k]).0 == b[k].kind && pairs@[k].1@ == b[k].target@,
    {
        pairs.push((before.relationships[i].kind, before.relationships[i].target.as_str()));
    }
    for i in 0..after.relationships.len()
        invariant
            b == before.relationships@,
            a == after.relationships@,
            pairs@.len() == b.len() + i,
            forall|k: int| 0 <= k < b.len() ==> (#[trigger] pairs@[k]).0 == b[k].kind && pairs@[k].1@ == b[k].target@,
            forall|k: int| b.len() <= k < b.len() + i ==> (#[trigger] pairs@[k]).0 == a[k - b.len()].kind && pairs@[k].1@ == a[k - b.len()].target@,
    {
        pairs.push((after.relationships[i].kind, after.relationships[i].target.as_str()));
    }
    let mut keys: Vec<SortKey> = Vec::new();
    for i in 0..pairs.len()
        invariant
            keys@.len() == i,
            forall|k: int| 0 <= k < i ==> (#[trigger] keys@[k])@ == pair_key(pairs@[k].0, pairs@[k].1@),
    {
        keys.push(SortKey { major: rank_of(pairs[i].0), text: pairs[i].1, second: "", minor: 0 });
    }
    let ghost kv = key_views(keys@);
    let order = sort_order(&keys);
    let mut out: Vec<(RelationKind, String, RelationshipChangeKind)> = Vec::new();
    let mut last: Option<usize> = None;
    for i in 0..order.len()
        invariant
            b == before.relationships@,
            a == after.relationships@,
            kv == key_views(keys@),
            keys@.len() == pairs@.len(),
            forall|k: int| 0 <= k < keys@.len() ==> (#[trigger] keys@[k])@ == pair_key(pairs@[k].0, pairs@[k].1@),
            is_sort_order(kv, order@),
            i > 0 ==> last == Some(order@[i - 1]),
            i == 0 ==> last is None,
            forall|x: int| 0 <= x < change_views(out@).len() ==> {
                let c = #[trigger] change_views(out@)[x];
                &&& c.2 == change_of(b, a, c.0, c.1)
                &&& c.2 != RelationshipChangeKind::Unchanged
                &&& i > 0
                &&& (key_lt(pair_key(c.0, c.1), kv[order@[i - 1] as int]) || pair_key(c.0, c.1) == kv[order@[i - 1] as int])
            },
            forall|x: int, y: int| 0 <= x < y < change_views(out@).len() ==> key_lt(
                pair_key((#[trigger] change_views(out@)[x]).0, change_views(out@)[x].1),
                pair_key((#[trigger] change_views(out@)[y]).0, change_views(out@)[y].1),
            ),
            forall|k: int| 0 <= k < i ==> listed_change(b, a, change_views(out@), pairs@[#[trigger] order@[k] as int].0, pairs@[order@[k] as int].1@),
    {
        let at: usize = order[i];
        let (kind, target) = pairs[at];
        let ghost cv = change_views(out@);
        proof {
            assert(kv[at as int] == pair_key(kind, target@));
            if i > 0 {
                assert(goes_before(kv, order@[i - 1] as int, at as int));
            }
        }
        let fresh = match last {
            Some(p) => !(pairs[p].0 == kind && same(pairs[p].1, target)),
            None => true,
        };
        if fresh {
            let change = match (
                first_relationship(&before.relationships, kind, target),
                first_relationship(&after.relationships, kind, target),
            ) {
                (Some(p), Some(q)) => classify_provenance_change(&before.relationships[p], &after.relationships[q]),
                (None, None) => RelationshipChangeKind::Unchanged,
                _ => RelationshipChangeKind::SourceChange,
            };
            proof {
                if i > 0 {
                    let p = order@[i - 1] as int;
                    assert(kv[p] == pair_key(pairs@[p].0, pairs@[p].1@));
                    assert(key_lt(kv[p], kv[at as int]));
                    assert forall|x: int| 0 <= x < cv.len() implies key_lt(pair_key((#[trigger] cv[x]).0, cv[x].1), kv[at as int]) by {
                        if key_lt(pair_key(cv[x].0, cv[x].1), kv[p]) {
                            lemma_key_transitive(pair_key(cv[x].0, cv[x].1), kv[p], kv[at as int]);
                        }
                    }
                }
            }
            if change != RelationshipChangeKind::Unchanged {
                out.push((kind, target.to_owned(), change));
                assert(change_views(out@) =~= cv.push((kind, target@, change)));
            }
            proof {
                assert(listed_change(b, a, change_views(out@), kind, target@)) by {
                    if change != RelationshipChangeKind::Unchanged {
                        assert(change_views(out@)[cv.len() as int] == (kind, target@, change));
                    }
                }
            }
        } else {
            proof {
                let p = order@[i - 1] as int;
                assert(listed_change(b, a, cv, pairs@[p].0, pairs@[p].1@));
            }
        }
        proof {
            let nv = change_views(out@);
            assert forall|k: int| 0 <= k < i + 1 implies listed_change(b, a, nv, pairs@[#[trigger] order@[k] as int].0, pairs@[order@[k] as int].1@) by {
                if k < i {
                    assert(listed_change(b, a, cv, pairs@[order@[k] as int].0, pairs@[order@[k] as int].1@));
                    lemma_listed_grows(b, a, cv, nv, pairs@[order@[k] as int].0, pairs@[order@[k] as int].1@);
                }
            }
            assert forall|x: int| 0 <= x < nv.len() implies key_lt(pair_key((#[trigger] nv[x]).0, nv[x].1), kv[at as int]) || pair_key(nv[x].0, nv[x].1) == kv[at as int] by {
                if !fresh {
                    assert(kv[order@[i - 1] as int] == kv[at as int]);
                }
            }
        }
        last = Some(at);
    }
    proof {
        let cv = change_views(out@);
        assert forall|c: ChangeView| #[trigger] cv.contains(c) <==> c.2 == change_of(b, a, c.0, c.1) && c.2 != RelationshipChangeKind::Unchanged by {
            if cv.contains(c) {
                let x = choose|x: int| 0 <= x < cv.len() && cv[x] == c;
                assert(cv[x] == c);
            }
            if c.2 == change_of(b, a, c.0, c.1) && c.2 != RelationshipChangeKind::Unchanged {
                lemma_first_rel(b, c.0, c.1);
                lemma_first_rel(a, c.0, c.1);
                let p: int = match first_rel(b, c.0, c.1) {
                    Some(j) => j,
                    None => b.len() + first_rel(a, c.0, c.1)->0,
                };
                assert(pairs@[p].0 == c.0 && pairs@[p].1@ == c.1);
                assert(order@.contains(p as usize));
                let k = choose|k: int| 0 <= k < order@.len() && order@[k] == p as usize;
                assert(listed_change(b, a, cv, pairs@[order@[k] as int].0, pairs@[order@[k] as int].1@));
            }
        }
    }
    out
}

/// If the relationship changed, its change is in the list.
spec fn listed_change(b: Seq<Relationship>, a: Seq<Relationship>, cv: Seq<ChangeView>, kind: RelationKind, target: Seq<char>) -> bool {
    change_of(b, a, kind, target) != RelationshipChangeKind::Unchanged ==> cv.contains((kind, target, change_of(b, a, kind, target)))
}

proof fn lemma_listed_grows(b: Seq<Relationship>, a: Seq<Relationship>, cv: Seq<ChangeView>, nv: Seq<ChangeView>, kind: RelationKind, target: Seq<char>)
    requires
        listed_change(b, a, cv, kind, target),
        cv.len() <= nv.len(),
        forall|x: int| 0 <= x < cv.len() ==> #[trigger] nv[x] == cv[x],
    ensures
        listed_change(b, a, nv, kind, target),
{
    let c = (kind, target, change_of(b, a, kind, target));
    if change_of(b, a, kind, target) != RelationshipChangeKind::Unchanged {
        let x = choose|x: int| 0 <= x < cv.len() && cv[x] == c;
        assert(nv[x] == c);
    }
}

/// The concepts are copies of those that `keep` holds for, by id.
pub open spec fn are_copies(found: Seq<Concept>, cs: Seq<Concept>, keep: spec_fn(int) -> bool) -> bool {
    exists|at: Seq<int>| #[trigger] selection(cs, keep, at) && found.len() == at.len() && forall|k: int|
        0 <= k < at.len() ==> (#[trigger] found[k])@ == cs[at[k]]@
}

/// The concept at `i` is not in the other snapshot.
pub open spec fn only_here(cs: Seq<Concept>, other: Seq<Concept>, i: int) -> bool {
    find(other, cs[i].id@) is None
}

/// The relationships differ.
pub open spec fn rels_differ(b: Concept, a: Concept) -> bool {
    exists|kind: RelationKind, target: Seq<char>| #[trigger] change_of(b.relationships@, a.relationships@, kind, target) != RelationshipChangeKind::Unchanged
}

/// The concept at `i` is in both snapshots with another signature or with
/// other relationships.
pub open spec fn differs(before: Seq<Concept>, after: Seq<Concept>, i: int) -> bool {
    match find(before, after[i].id@) {
        Some(b) => opt_text(before[b].signature) != opt_text(after[i].signature) || rels_differ(before[b], after[i]),
        None => false,
    }
}

/// Differing from the earlier snapshot, by position.
pub open spec fn differing(before: Seq<Concept>, after: Seq<Concept>) -> spec_fn(int) -> bool {
    |i: int| differs(before, after, i)
}

/// The entry says how the concept at `i` differs.
pub open spec fn describes(c: ChangedConcept, before: Seq<Concept>, after: Seq<Concept>, i: int) -> bool {
    match find(before, after[i].id@) {
        Some(b) => {
            &&& c.id@ == after[i].id@
            &&& c.kind == after[i].kind
            &&& opt_text(c.before_signature) == opt_text(before[b].signature)
            &&& opt_text(c.after_signature) == opt_text(after[i].signature)
            &&& is_change_list(before[b].relationships@, after[i].relationships@, change_views(c.relationship_changes@))
        },
        None => false,
    }
}

/// The entries are those of the concepts that differ, by id.
pub open spec fn are_changes(found: Seq<ChangedConcept>, before: Seq<Concept>, after: Seq<Concept>) -> bool {
    exists|at: Seq<int>| #[trigger] selection(after, differing(before, after), at) && found.len() == at.len() && forall|k: int|
        0 <= k < at.len() ==> describes(#[trigger] found[k], before, after, at[k])
}

/// The report of what changed from one snapshot to the other.
pub open spec fn is_diff(before: Seq<Concept>, after: Seq<Concept>, r: DiffReport) -> bool {
    &&& are_copies(r.added@, after, |i: int| only_here(after, before, i))
    &&& are_copies(r.removed@, before, |i: int| only_here(before, after, i))
    &&& are_changes(r.changed@, before, after)
}

impl DiffReport {
    /// Whether nothing changed.
    pub fn is_empty(&self) -> (r: bool)
        ensures
            r == (self.added@.len() == 0 && self.removed@.len() == 0 && self.changed@.len() == 0),
    {
        self.added.len() == 0 && self.removed.len() == 0 && self.changed.len() == 0
    }
}

/// The ids of the concepts, to search.
fn id_index<'a>(concepts: &'a [Concept]) -> (r: KeyIndex<'a>)
    ensures
        r.wf(),
        r@ == ids(concepts@),
{
    let mut keys: Vec<&'a str> = Vec::new();
    for i in 0..concepts.len()
        invariant
            keys@.len() == i,
            forall|k: int| 0 <= k < i ==> (#[trigger] keys@[k])@ == concepts@[k].id@,
    {
        keys.push(concepts[i].id.as_str());
    }
    let r = KeyIndex::new(keys);
    assert(r@ =~= ids(concepts@));
    r
}

/// Copies of the concepts that the index does not have, by id.
fn missing(concepts: &[Concept], index: &KeyIndex, Ghost(other): Ghost<Seq<Concept>>) -> (r: Vec<Concept>)
    requires
        index.wf(),
        index@ == ids(other),
    ensures
        are_copies(r@, concepts@, |i: int| only_here(concepts@, other, i)),
{
    let ghost cs = concepts@;
    let ghost keep = |i: int| only_here(cs, other, i);
    let mut positions: Vec<usize> = Vec::new();
    for i in 0..concepts.len()
        invariant
            cs == concepts@,
            index.wf(),
            index@ == ids(other),
            keep == (|i: int| only_here(cs, other, i)),
            picked(cs, keep, i as int, positions@),
    {
        let ghost before = positions@;
        if index.find(concepts[i].id.as_str()).is_none() {
            positions.push(i);
        }
        proof {
            lemma_pick_one(cs, keep, i as int, before, positions@);
        }
    }
    let sorted = positions_by_id(concepts, &positions);
    let ghost at = as_ints(sorted@);
    let mut out: Vec<Concept> = Vec::new();
    for k in 0..sorted.len()
        invariant
            cs == concepts@,
            at == as_ints(sorted@),
            selection(cs, |i: int| lists(positions@, i), at),
            out@.len() == k,
            forall|m: int| 0 <= m < k ==> (#[trigger] out@[m])@ == cs[at[m]]@,
    {
        assert(at[k as int] == sorted@[k as int]);
        out.push(concepts[sorted[k]].clone());
    }
    proof {
        lemma_selection_means(cs, |i: int| lists(positions@, i), keep, at);
    }
    out
}

/// Selections by predicates that agree are the same.
pub proof fn lemma_selection_means(cs: Seq<Concept>, a: spec_fn(int) -> bool, b: spec_fn(int) -> bool, at: Seq<int>)
    requires
        selection(cs, a, at),
        forall|i: int| 0 <= i < cs.len() ==> (#[trigger] a(i) <==> b(i)),
    ensures
        selection(cs, b, at),
{
    assert forall|i: int| 0 <= i < cs.len() && #[trigger] b(i) implies at.contains(i) by {
        assert(a(i));
    }
    assert forall|k: int| 0 <= k < at.len() implies 0 <= #[trigger] at[k] < cs.len() && b(at[k]) by {
        assert(a(at[k]));
    }
}

/// The entries of the concepts that differ, by id.
fn changes(before: &[Concept], after: &[Concept], index: &KeyIndex) -> (r: Vec<ChangedConcept>)
    requires
        index.wf(),
        index@ == ids(before@),
    ensures
        are_changes(r@, before@, after@),
{
    let ghost bs = before@;
    let ghost cs = after@;
    let ghost keep = differing(bs, cs);
    let mut positions: Vec<usize> = Vec::new();
    for i in 0..after.len()
        invariant
            bs == before@,
            cs == after@,
            index.wf(),
            index@ == ids(bs),
            keep == differing(bs, cs),
            picked(cs, keep, i as int, positions@),
    {
        let ghost was = positions@;
        if let Some(b) = index.find(after[i].id.as_str()) {
            let changed = diff_relationships(&before[b], &after[i]);
            proof {
                let cv = change_views(changed@);
                if cv.len() > 0 {
                    assert(cv.contains(cv[0]));
                    assert(change_of(bs[b as int].relationships@, cs[i as int].relationships@, cv[0].0, cv[0].1) != RelationshipChangeKind::Unchanged);
                }
                if rels_differ(bs[b as int], cs[i as int]) {
                    let (kind, target) = choose|kind: RelationKind, target: Seq<char>|
                        #[trigger] change_of(bs[b as int].relationships@, cs[i as int].relationships@, kind, target) != RelationshipChangeKind::Unchanged;
                    assert(cv.contains((kind, target, change_of(bs[b as int].relationships@, cs[i as int].relationships@, kind, target))));
                }
            }
            if !same_opt(&before[b].signature, &after[i].signature) || changed.len() > 0 {
                positions.push(i);
            }
        }
        proof {
            lemma_pick_one(cs, keep, i as int, was, positions@);
        }
    }
    let sorted = positions_by_id(after, &positions);
    let ghost at = as_ints(sorted@);
    proof {
        lemma_selection_means(cs, |i: int| lists(positions@, i), keep, at);
    }
    let mut out: Vec<ChangedConcept> = Vec::new();
    for k in 0..sorted.len()
        invariant
            bs == before@,
            cs == after@,
            index.wf(),
            index@ == ids(bs),
            keep == differing(bs, cs),
            at == as_ints(sorted@),
            selection(cs, keep, at),
            out@.len() == k,
            forall|m: int| 0 <= m < k ==> describes(#[trigger] out@[m], bs, cs, at[m]),
    {
        assert(at[k as int] == sorted@[k as int]);
        assert(keep(at[k as int]));
        let c = &after[sorted[k]];
        if let Some(b) = index.find(c.id.as_str()) {
            out.push(
                ChangedConcept {
                    id: c.id.clone(),
                    kind: c.kind,
                    before_signature: copy_opt(&before[b].signature),
                    after_signature: copy_opt(&c.signature),
                    relationship_changes: diff_relationships(&before[b], c),
                },
            );
        }
    }
    out
}

/// What changed from one snapshot to the other. Concepts are told apart by
/// id.
pub fn diff(before: &[Concept], after: &[Concept]) -> (r: DiffReport)
    ensures
        is_diff(before@, after@, r),
{
    let before_by_id = id_index(before);
    let after_by_id = id_index(after);
    DiffReport {
        added: missing(after, &before_by_id, Ghost(before@)),
        removed: missing(before, &after_by_id, Ghost(after@)),
        changed: changes(before, after, &before_by_id),
    }
}

/// A snapshot does not differ from itself, as long as each id is there once.
pub proof fn nothing_changes_against_itself(cs: Seq<Concept>, r: DiffReport)
    requires
        is_diff(cs, cs, r),
        ids(cs).no_duplicates(),
    ensures
        r.added@.len() == 0,
        r.removed@.len() == 0,
        r.changed@.len() == 0,
{
    assert forall|i: int| 0 <= i < cs.len() implies find(cs, cs[i].id@) == Some(i) by {
        lemma_last_of(ids(cs), cs[i].id@);
        assert(ids(cs)[i] == cs[i].id@);
    }
    let keep = |i: int| only_here(cs, cs, i);
    let at = choose|at: Seq<int>| #[trigger] selection(cs, keep, at) && r.added@.len() == at.len();
    if at.len() > 0 {
        assert(keep(at[0]));
    }
    let gone = choose|gone: Seq<int>| #[trigger] selection(cs, keep, gone) && r.removed@.len() == gone.len();
    if gone.len() > 0 {
        assert(keep(gone[0]));
    }
    let moved = differing(cs, cs);
    let to = choose|to: Seq<int>| #[trigger] selection(cs, moved, to) && r.changed@.len() == to.len();
    if to.len() > 0 {
        assert(moved(to[0]));
        let c = cs[to[0]];
        let (kind, target) = choose|kind: RelationKind, target: Seq<char>| #[trigger] change_of(c.relationships@, c.relationships@, kind, target) != RelationshipChangeKind::Unchanged;
        assert(false);
    }
}

proof fn lemma_selection_prefix(cs: Seq<Concept>, keep: spec_fn(int) -> bool, x: Seq<int>, y: Seq<int>, n: int)
    requires
        selection(cs, keep, x),
        selection(cs, keep, y),
        0 <= n <= x.len(),
    ensures
        n <= y.len(),
        forall|k: int| 0 <= k < n ==> #[trigger] x[k] == y[k],
    decreases n,
{
    if n > 0 {
        let k = n - 1;
        lemma_selection_prefix(cs, keep, x, y, k);
        assert(keep(x[k]));
        let m = choose|m: int| 0 <= m < y.len() && y[m] == x[k];
        if m < k {
            assert(x[m] == y[m]);
            lemma_lex_irreflexive(cs[x[k]].id@);
            assert(false);
        }
        if m > k {
            assert(keep(y[k]));
            let l = choose|l: int| 0 <= l < x.len() && x[l] == y[k];
            lemma_lex_irreflexive(cs[x[k]].id@);
            if l < k {
                assert(x[l] == y[l]);
                lemma_lex_irreflexive(cs[y[k]].id@);
                assert(false);
            } else if l == k {
                assert(false);
            } else {
                assert(x[k] == y[m] && x[l] == y[k]);
                if lex_lt(cs[x[k]].id@, cs[x[l]].id@) && lex_lt(cs[y[k]].id@, cs[y[m]].id@) {
                    lemma_lex_transitive(cs[x[k]].id@, cs[x[l]].id@, cs[x[k]].id@);
                }
                assert(false);
            }
        }
    }
}

/// There is one way to list the concepts that a predicate holds for by id.
pub proof fn selections_are_unique(cs: Seq<Concept>, keep: spec_fn(int) -> bool, x: Seq<int>, y: Seq<int>)
    requires
        selection(cs, keep, x),
        selection(cs, keep, y),
    ensures
        x == y,
{
    lemma_selection_prefix(cs, keep, x, y, x.len() as int);
    lemma_selection_prefix(cs, keep, y, x, y.len() as int);
    assert(x =~= y);
}

/// Seen the other way round, what was added was removed, concept for concept.
pub proof fn added_one_way_is_removed_the_other(before: Seq<Concept>, after: Seq<Concept>, there: DiffReport, back: DiffReport)
    requires
        is_diff(before, after, there),
        is_diff(after, before, back),
    ensures
        concept_views(there.added@) == concept_views(back.removed@),
        concept_views(there.removed@) == concept_views(back.added@),
{
    let new = |i: int| only_here(after, before, i);
    let x = choose|at: Seq<int>| #[trigger] selection(after, new, at) && there.added@.len() == at.len() && forall|k: int| 0 <= k < at.len() ==> (#[trigger] there.added@[k])@ == after[at[k]]@;
    let y = choose|at: Seq<int>| #[trigger] selection(after, new, at) && back.removed@.len() == at.len() && forall|k: int| 0 <= k < at.len() ==> (#[trigger] back.removed@[k])@ == after[at[k]]@;
    selections_are_unique(after, new, x, y);
    assert(concept_views(there.added@) =~= concept_views(back.removed@));
    let gone = |i: int| only_here(before, after, i);
    let z = choose|at: Seq<int>| #[trigger] selection(before, gone, at) && there.removed@.len() == at.len() && forall|k: int| 0 <= k < at.len() ==> (#[trigger] there.removed@[k])@ == before[at[k]]@;
    let w = choose|at: Seq<int>| #[trigger] selection(before, gone, at) && back.added@.len() == at.len() && forall|k: int| 0 <= k < at.len() ==> (#[trigger] back.added@[k])@ == before[at[k]]@;
    selections_are_unique(before, gone, z, w);
    assert(concept_views(there.removed@) =~= concept_views(back.added@));
}

/// A relationship changes in the same way seen from either snapshot.
pub proof fn changes_are_symmetric(b: Seq<Relationship>, a: Seq<Relationship>, kind: RelationKind, target: Seq<char>)
    ensures
        change_of(b, a, kind, target) == change_of(a, b, kind, target),
{
}

/// There is one way to list the changes of the relationships.
pub proof fn change_lists_are_unique(b: Seq<Relationship>, a: Seq<Relationship>, x: Seq<ChangeView>, y: Seq<ChangeView>)
    requires
        is_change_list(b, a, x),
        is_change_list(b, a, y),
    ensures
        x == y,
{
    let lt = |c: ChangeView, d: ChangeView| key_lt(pair_key(c.0, c.1), pair_key(d.0, d.1));
    assert forall|c: ChangeView, d: ChangeView| #[trigger] lt(c, d) implies !lt(d, c) by {
        if lt(d, c) {
            lemma_key_transitive(pair_key(c.0, c.1), pair_key(d.0, d.1), pair_key(c.0, c.1));
            lemma_lex_irreflexive(c.1);
        }
    }
    assert forall|c: ChangeView| #[trigger] x.contains(c) <==> y.contains(c) by {}
    lemma_ascending_unique(x, y, lt);
}

/// The entries are about the same concept, seen from either side.
pub open spec fn mirrors(there: ChangedConcept, back: ChangedConcept) -> bool {
    &&& there.id@ == back.id@
    &&& opt_text(there.before_signature) == opt_text(back.after_signature)
    &&& opt_text(there.after_signature) == opt_text(back.before_signature)
    &&& change_views(there.relationship_changes@) == change_views(back.relationship_changes@)
}

/// What stands at the positions of a selection of concepts with distinct ids
/// comes by id.
proof fn lemma_selected_ids(cs: Seq<Concept>, keep: spec_fn(int) -> bool, at: Seq<int>) -> (named: Seq<Seq<char>>)
    requires
        ids(cs).no_duplicates(),
        selection(cs, keep, at),
    ensures
        named == at.map_values(|i: int| cs[i].id@),
        strictly_sorted(named),
{
    let named = at.map_values(|i: int| cs[i].id@);
    assert forall|i: int, j: int| 0 <= i < j < named.len() implies lex_lt(#[trigger] named[i], #[trigger] named[j]) by {
        assert(ids(cs)[at[i]] == cs[at[i]].id@ && ids(cs)[at[j]] == cs[at[j]].id@);
    }
    named
}

/// A concept that differs one way differs the other way too.
proof fn lemma_differs_both_ways(before: Seq<Concept>, after: Seq<Concept>, i: int)
    requires
        ids(before).no_duplicates(),
        ids(after).no_duplicates(),
        0 <= i < after.len(),
        differs(before, after, i),
    ensures
        find(before, after[i].id@) is Some,
        0 <= find(before, after[i].id@)->0 < before.len(),
        before[find(before, after[i].id@)->0].id@ == after[i].id@,
        find(after, after[i].id@) == Some(i),
        differs(after, before, find(before, after[i].id@)->0),
{
    lemma_last_of(ids(before), after[i].id@);
    lemma_last_of(ids(after), after[i].id@);
    assert(ids(after)[i] == after[i].id@);
    let b = find(before, after[i].id@)->0;
    assert(ids(before)[b] == before[b].id@);
    if rels_differ(before[b], after[i]) {
        let (kind, target) = choose|kind: RelationKind, target: Seq<char>| #[trigger] change_of(before[b].relationships@, after[i].relationships@, kind, target) != RelationshipChangeKind::Unchanged;
        changes_are_symmetric(before[b].relationships@, after[i].relationships@, kind, target);
        assert(change_of(after[i].relationships@, before[b].relationships@, kind, target) != RelationshipChangeKind::Unchanged);
    }
}

/// Seen the other way round, the same concepts changed, each in the same way
/// with its two sides exchanged, as long as each id is there once.
pub proof fn changes_are_mirrored(before: Seq<Concept>, after: Seq<Concept>, there: DiffReport, back: DiffReport)
    requires
        is_diff(before, after, there),
        is_diff(after, before, back),
        ids(before).no_duplicates(),
        ids(after).no_duplicates(),
    ensures
        there.changed@.len() == back.changed@.len(),
        forall|k: int| 0 <= k < there.changed@.len() ==> mirrors(#[trigger] there.changed@[k], back.changed@[k]),
{
    let f = differing(before, after);
    let g = differing(after, before);
    let x = choose|at: Seq<int>| #[trigger] selection(after, f, at) && there.changed@.len() == at.len() && forall|k: int|
        0 <= k < at.len() ==> describes(#[trigger] there.changed@[k], before, after, at[k]);
    let y = choose|at: Seq<int>| #[trigger] selection(before, g, at) && back.changed@.len() == at.len() && forall|k: int|
        0 <= k < at.len() ==> describes(#[trigger] back.changed@[k], after, before, at[k]);
    let xn = lemma_selected_ids(after, f, x);
    let yn = lemma_selected_ids(before, g, y);
    assert forall|t: Seq<char>| #[trigger] xn.contains(t) <==> yn.contains(t) by {
        if xn.contains(t) {
            let k = choose|k: int| 0 <= k < xn.len() && xn[k] == t;
            assert(f(x[k]));
            lemma_differs_both_ways(before, after, x[k]);
            let b = find(before, after[x[k]].id@)->0;
            assert(g(b));
            let l = choose|l: int| 0 <= l < y.len() && y[l] == b;
            assert(yn[l] == t);
        }
        if yn.contains(t) {
            let k = choose|k: int| 0 <= k < yn.len() && yn[k] == t;
            assert(g(y[k]));
            lemma_differs_both_ways(after, before, y[k]);
            let b = find(after, before[y[k]].id@)->0;
            assert(f(b));
            let l = choose|l: int| 0 <= l < x.len() && x[l] == b;
            assert(xn[l] == t);
        }
    }
    lemma_sorted_unique(xn, yn);
    assert forall|k: int| 0 <= k < there.changed@.len() implies mirrors(#[trigger] there.changed@[k], back.changed@[k]) by {
        assert(xn[k] == after[x[k]].id@ && yn[k] == before[y[k]].id@);
        assert(f(x[k]) && g(y[k]));
        lemma_differs_both_ways(before, after, x[k]);
        lemma_differs_both_ways(after, before, y[k]);
        assert(describes(there.changed@[k], before, after, x[k]));
        assert(describes(back.changed@[k], after, before, y[k]));
        let (b, a) = (before[y[k]].relationships@, after[x[k]].relationships@);
        let back_views = change_views(back.changed@[k].relationship_changes@);
        assert(is_change_list(b, a, back_views)) by {
            assert forall|c: ChangeView| #[trigger] back_views.contains(c) <==> c.2 == change_of(b, a, c.0, c.1) && c.2 != RelationshipChangeKind::Unchanged by {
                changes_are_symmetric(b, a, c.0, c.1);
            }
        }
        change_lists_are_unique(b, a, change_views(there.changed@[k].relationship_changes@), back_views);
    }
}

/// Relationships of one kind to one target agree within the list.
pub open spec fn agrees(rels: Seq<Relationship>) -> bool {
    forall|i: int, j: int| 0 <= i < rels.len() && 0 <= j < rels.len() && (#[trigger] rels[i]).kind == (#[trigger] rels[j]).kind && rels[i].target@ == rels[j].target@
        ==> rels[i]@ == rels[j]@
}

/// The same relationships in another order, or listed another number of times,
/// are no change.
pub proof fn order_of_relationships_does_not_count(b: Seq<Relationship>, a: Seq<Relationship>, r: Seq<ChangeView>)
    requires
        agrees(b),
        forall|v: RelationshipView| #[trigger] rel_views(b).contains(v) <==> rel_views(a).contains(v),
        is_change_list(b, a, r),
    ensures
        r.len() == 0,
{
    if r.len() > 0 {
        let c = r[0];
        assert(r.contains(c));
        let (kind, target) = (c.0, c.1);
        lemma_first_rel(b, kind, target);
        lemma_first_rel(a, kind, target);
        let bv = rel_views(b);
        let av = rel_views(a);
        if first_rel(b, kind, target) is Some {
            let i = first_rel(b, kind, target)->0;
            assert(bv[i] == b[i]@);
            assert(bv.contains(b[i]@));
            let k = choose|k: int| 0 <= k < av.len() && av[k] == b[i]@;
            assert(a[k].kind == kind && a[k].target@ == target);
        }
        if first_rel(a, kind, target) is Some {
            let j = first_rel(a, kind, target)->0;
            assert(av[j] == a[j]@);
            assert(av.contains(a[j]@));
            assert(bv.contains(a[j]@));
            let k = choose|k: int| 0 <= k < bv.len() && bv[k] == a[j]@;
            assert(b[k].kind == kind && b[k].target@ == target);
            let i = first_rel(b, kind, target)->0;
            assert(b[i]@ == b[k]@);
        }
        assert(false);
    }
}

}
