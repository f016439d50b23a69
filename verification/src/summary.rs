//! A diff in three numbers, for a gate that acts on them.

use vstd::prelude::*;
use crate::diff::{ChangedConcept, DiffReport, RelationshipChangeKind};
use crate::diff::{added_one_way_is_removed_the_other, change_of, change_views, changes_are_mirrored, describes, differing, is_diff, mirrors};
use crate::graph::{find, ids, selection};
use crate::model::{same_opt, Concept, RelationKind};
use crate::model::{concept_views, opt_text, rel_views};

verus! {

/// How many changes of each sort a diff holds.
#[derive(Clone, Copy, Debug, PartialEq, Eq, Structural)]
pub struct CiSummary {
    pub source_changes: usize,
    pub resolver_changes: usize,
    pub confidence_changes: usize,
    /// Of all these, the changes of single relationships.
    pub relationship_changes: usize,
}

impl Default for CiSummary {
    fn default() -> (r: CiSummary)
        ensures
            r == (CiSummary { source_changes: 0, resolver_changes: 0, confidence_changes: 0, relationship_changes: 0 }),
    {
        CiSummary { source_changes: 0, resolver_changes: 0, confidence_changes: 0, relationship_changes: 0 }
    }
}

/// A concept that came or went counts once for each relationship, and once if
/// it has none.
pub open spec fn weight_of(c: Concept) -> nat {
    if c.relationships@.len() == 0 {
        1
    } else {
        c.relationships@.len()
    }
}

/// What the concepts count.
pub open spec fn weight_of_all(cs: Seq<Concept>) -> nat
    decreases cs.len(),
{
    if cs.len() == 0 {
        0
    } else {
        weight_of_all(cs.drop_last()) + weight_of(cs.last())
    }
}

/// How a change of a relationship counts.
#[derive(Clone, Copy, PartialEq, Eq, Structural)]
pub enum ChangeClass {
    Source,
    Resolver,
    Confidence,
    Nothing,
}

/// A change of resolver counts as one whether or not the confidence moved too.
pub open spec fn class_of(kind: RelationshipChangeKind) -> ChangeClass {
    match kind {
        RelationshipChangeKind::SourceChange => ChangeClass::Source,
        RelationshipChangeKind::ResolverChange => ChangeClass::Resolver,
        RelationshipChangeKind::ProvenanceChange => ChangeClass::Resolver,
        RelationshipChangeKind::ConfidenceChange => ChangeClass::Confidence,
        RelationshipChangeKind::Unchanged => ChangeClass::Nothing,
    }
}

/// How many of the changes are of this class.
pub open spec fn count_class(changes: Seq<(RelationKind, String, RelationshipChangeKind)>, class: ChangeClass) -> nat
    decreases changes.len(),
{
    if changes.len() == 0 {
        0
    } else {
        count_class(changes.drop_last(), class) + (if class_of(changes.last().2) == class {
            1nat
        } else {
            0nat
        })
    }
}

/// What the changes of one concept count in this class; another signature is a
/// change of the source.
pub open spec fn count_changed(c: ChangedConcept, class: ChangeClass) -> nat {
    count_class(c.relationship_changes@, class) + (if class == ChangeClass::Source && opt_text(c.before_signature) != opt_text(c.after_signature) {
        1nat
    } else {
        0nat
    })
}

/// What the changes of all the concepts count in this class.
pub open spec fn count_all(cs: Seq<ChangedConcept>, class: ChangeClass) -> nat
    decreases cs.len(),
{
    if cs.len() == 0 {
        0
    } else {
        count_all(cs.drop_last(), class) + count_changed(cs.last(), class)
    }
}

/// How many changes of the source the report holds.
pub open spec fn source_count(r: DiffReport) -> nat {
    weight_of_all(r.added@) + weight_of_all(r.removed@) + count_all(r.changed@, ChangeClass::Source)
}

/// How many of the relationships changed.
pub open spec fn count_edges(changes: Seq<(RelationKind, String, RelationshipChangeKind)>) -> nat {
    count_class(changes, ChangeClass::Source) + count_class(changes, ChangeClass::Resolver) + count_class(changes, ChangeClass::Confidence)
}

/// How many relationships of concepts on both sides changed; whole concepts
/// that came or went do not count.
pub open spec fn edge_count(cs: Seq<ChangedConcept>) -> nat
    decreases cs.len(),
{
    if cs.len() == 0 {
        0
    } else {
        edge_count(cs.drop_last()) + count_edges(cs.last().relationship_changes@)
    }
}

/// The changes of resolver, out of how many changes of relationships; nothing
/// where no relationship changed.
pub open spec fn rate_in(r: DiffReport) -> Option<(nat, nat)> {
    if edge_count(r.changed@) == 0 {
        None
    } else {
        Some((count_all(r.changed@, ChangeClass::Resolver), edge_count(r.changed@)))
    }
}

impl CiSummary {
    /// Whether nothing of any sort changed.
    pub fn is_empty(&self) -> (r: bool)
        ensures
            r == (self.source_changes == 0 && self.resolver_changes == 0 && self.confidence_changes == 0),
    {
        self.source_changes == 0 && self.resolver_changes == 0 && self.confidence_changes == 0
    }

    /// The changes of resolver, out of how many changes of relationships;
    /// nothing where no relationship changed.
    pub fn resolver_only_rate(&self) -> (r: Option<(usize, usize)>)
        ensures
            self.relationship_changes == 0 ==> r is None,
            self.relationship_changes > 0 ==> r == Some((self.resolver_changes, self.relationship_changes)),
    {
        if self.relationship_changes == 0 {
            return None;
        }
        Some((self.resolver_changes, self.relationship_changes))
    }
}

proof fn lemma_weight_prefix(cs: Seq<Concept>, k: int)
    requires
        0 <= k <= cs.len(),
    ensures
        weight_of_all(cs.take(k)) <= weight_of_all(cs),
    decreases cs.len() - k,
{
    if k < cs.len() {
        lemma_weight_prefix(cs, k + 1);
        assert(cs.take(k + 1).drop_last() =~= cs.take(k));
    } else {
        assert(cs.take(k) =~= cs);
    }
}

proof fn lemma_count_prefix(changes: Seq<(RelationKind, String, RelationshipChangeKind)>, class: ChangeClass, k: int)
    requires
        0 <= k <= changes.len(),
    ensures
        count_class(changes.take(k), class) <= count_class(changes, class),
    decreases changes.len() - k,
{
    if k < changes.len() {
        lemma_count_prefix(changes, class, k + 1);
        assert(changes.take(k + 1).drop_last() =~= changes.take(k));
    } else {
        assert(changes.take(k) =~= changes);
    }
}

proof fn lemma_all_prefix(cs: Seq<ChangedConcept>, class: ChangeClass, k: int)
    requires
        0 <= k <= cs.len(),
    ensures
        count_all(cs.take(k), class) <= count_all(cs, class),
    decreases cs.len() - k,
{
    if k < cs.len() {
        lemma_all_prefix(cs, class, k + 1);
        assert(cs.take(k + 1).drop_last() =~= cs.take(k));
    } else {
        assert(cs.take(k) =~= cs);
    }
}

proof fn lemma_edges_prefix(cs: Seq<ChangedConcept>, k: int)
    requires
        0 <= k <= cs.len(),
    ensures
        edge_count(cs.take(k)) <= edge_count(cs),
    decreases cs.len() - k,
{
    if k < cs.len() {
        lemma_edges_prefix(cs, k + 1);
        assert(cs.take(k + 1).drop_last() =~= cs.take(k));
    } else {
        assert(cs.take(k) =~= cs);
    }
}

fn weigh(cs: &Vec<Concept>) -> (r: usize)
    requires
        weight_of_all(cs@) <= usize::MAX,
    ensures
        r == weight_of_all(cs@),
{
    let mut sum: usize = 0;
    for i in 0..cs.len()
        invariant
            weight_of_all(cs@) <= usize::MAX,
            sum == weight_of_all(cs@.take(i as int)),
    {
        proof {
            assert(cs@.take(i + 1).drop_last() =~= cs@.take(i as int));
            lemma_weight_prefix(cs@, i + 1);
        }
        let n: usize = cs[i].relationships.len();
        sum = sum + (if n == 0 {
            1usize
        } else {
            n
        });
    }
    assert(cs@.take(cs@.len() as int) =~= cs@);
    sum
}

/// The diff in three numbers.
pub fn ci_summary(report: &DiffReport) -> (r: CiSummary)
    requires
        source_count(*report) <= usize::MAX,
        count_all(report.changed@, ChangeClass::Resolver) <= usize::MAX,
        count_all(report.changed@, ChangeClass::Confidence) <= usize::MAX,
        edge_count(report.changed@) <= usize::MAX,
    ensures
        r.source_changes == source_count(*report),
        r.resolver_changes == count_all(report.changed@, ChangeClass::Resolver),
        r.confidence_changes == count_all(report.changed@, ChangeClass::Confidence),
        r.relationship_changes == edge_count(report.changed@),
{
    let base: usize = weigh(&report.added) + weigh(&report.removed);
    let mut source: usize = base;
    let mut resolver: usize = 0;
    let mut confidence: usize = 0;
    let mut edges: usize = 0;
    let ghost cs = report.changed@;
    for i in 0..report.changed.len()
        invariant
            cs == report.changed@,
            base + count_all(cs, ChangeClass::Source) <= usize::MAX,
            count_all(cs, ChangeClass::Resolver) <= usize::MAX,
            count_all(cs, ChangeClass::Confidence) <= usize::MAX,
            edge_count(cs) <= usize::MAX,
            edges == edge_count(cs.take(i as int)),
            source == base + count_all(cs.take(i as int), ChangeClass::Source),
            resolver == count_all(cs.take(i as int), ChangeClass::Resolver),
            confidence == count_all(cs.take(i as int), ChangeClass::Confidence),
    {
        let changed = &report.changed[i];
        let ghost ch = changed.relationship_changes@;
        let (s0, r0, c0, e0) = (source, resolver, confidence, edges);
        proof {
            assert(cs.take(i + 1).drop_last() =~= cs.take(i as int));
            lemma_all_prefix(cs, ChangeClass::Source, i + 1);
            lemma_all_prefix(cs, ChangeClass::Resolver, i + 1);
            lemma_all_prefix(cs, ChangeClass::Confidence, i + 1);
            lemma_edges_prefix(cs, i + 1);
        }
        let extra: usize = if same_opt(&changed.before_signature, &changed.after_signature) {
            0
        } else {
            1
        };
        source = source + extra;
        for j in 0..changed.relationship_changes.len()
            invariant
                ch == changed.relationship_changes@,
                s0 + extra + count_class(ch, ChangeClass::Source) <= usize::MAX,
                r0 + count_class(ch, ChangeClass::Resolver) <= usize::MAX,
                c0 + count_class(ch, ChangeClass::Confidence) <= usize::MAX,
                e0 + count_edges(ch) <= usize::MAX,
                edges == e0 + count_edges(ch.take(j as int)),
                source == s0 + extra + count_class(ch.take(j as int), ChangeClass::Source),
                resolver == r0 + count_class(ch.take(j as int), ChangeClass::Resolver),
                confidence == c0 + count_class(ch.take(j as int), ChangeClass::Confidence),
        {
            proof {
                assert(ch.take(j + 1).drop_last() =~= ch.take(j as int));
                lemma_count_prefix(ch, ChangeClass::Source, j + 1);
                lemma_count_prefix(ch, ChangeClass::Resolver, j + 1);
                lemma_count_prefix(ch, ChangeClass::Confidence, j + 1);
            }
            match changed.relationship_changes[j].2 {
                RelationshipChangeKind::SourceChange => {
                    source = source + 1;
                    edges = edges + 1;
                },
                RelationshipChangeKind::ResolverChange | RelationshipChangeKind::ProvenanceChange => {
                    resolver = resolver + 1;
                    edges = edges + 1;
                },
                RelationshipChangeKind::ConfidenceChange => {
                    confidence = confidence + 1;
                    edges = edges + 1;
                },
                RelationshipChangeKind::Unchanged => {},
            }
        }
        assert(ch.take(ch.len() as int) =~= ch);
    }
    assert(cs.take(cs.len() as int) =~= cs);
    CiSummary { source_changes: source, resolver_changes: resolver, confidence_changes: confidence, relationship_changes: edges }
}

/// The changes of resolver in the report, out of how many changes of
/// relationships; nothing where no relationship changed.
pub fn resolver_only_rate(report: &DiffReport) -> (r: Option<(usize, usize)>)
    requires
        source_count(*report) <= usize::MAX,
        count_all(report.changed@, ChangeClass::Resolver) <= usize::MAX,
        count_all(report.changed@, ChangeClass::Confidence) <= usize::MAX,
        edge_count(report.changed@) <= usize::MAX,
    ensures
        match r {
            Some(rate) => rate_in(*report) == Some((rate.0 as nat, rate.1 as nat)),
            None => rate_in(*report) is None,
        },
{
    ci_summary(report).resolver_only_rate()
}

proof fn lemma_weight_counts(cs: Seq<Concept>)
    ensures
        weight_of_all(cs) == 0 <==> cs.len() == 0,
{
}

proof fn lemma_class_counts(changes: Seq<(RelationKind, String, RelationshipChangeKind)>, k: int)
    requires
        0 <= k < changes.len(),
    ensures
        count_class(changes, class_of(changes[k].2)) > 0,
    decreases changes.len(),
{
    if k < changes.len() - 1 {
        lemma_class_counts(changes.drop_last(), k);
    }
}

proof fn lemma_all_counts(cs: Seq<ChangedConcept>, class: ChangeClass, k: int)
    requires
        0 <= k < cs.len(),
        count_changed(cs[k], class) > 0,
    ensures
        count_all(cs, class) > 0,
    decreases cs.len(),
{
    if k < cs.len() - 1 {
        lemma_all_counts(cs.drop_last(), class, k);
    }
}

/// The summary of what changed between two snapshots is empty exactly where
/// the report is.
pub proof fn a_summary_is_empty_where_the_report_is(before: Seq<Concept>, after: Seq<Concept>, r: DiffReport)
    requires
        is_diff(before, after, r),
    ensures
        (source_count(r) == 0 && count_all(r.changed@, ChangeClass::Resolver) == 0 && count_all(r.changed@, ChangeClass::Confidence) == 0) <==> (
            r.added@.len() == 0 && r.removed@.len() == 0 && r.changed@.len() == 0
        ),
{
    lemma_weight_counts(r.added@);
    lemma_weight_counts(r.removed@);
    if r.changed@.len() > 0 {
        let f = differing(before, after);
        let at = choose|at: Seq<int>| #[trigger] selection(after, f, at) && r.changed@.len() == at.len() && forall|k: int|
            0 <= k < at.len() ==> describes(#[trigger] r.changed@[k], before, after, at[k]);
        assert(f(at[0]));
        let c = r.changed@[0];
        assert(describes(c, before, after, at[0]));
        if opt_text(c.before_signature) != opt_text(c.after_signature) {
            lemma_all_counts(r.changed@, ChangeClass::Source, 0);
        } else {
            let (b, a) = (before[find(before, after[at[0]].id@)->0].relationships@, after[at[0]].relationships@);
            let (kind, target) = choose|kind: RelationKind, target: Seq<char>| #[trigger] change_of(b, a, kind, target) != RelationshipChangeKind::Unchanged;
            let views = change_views(c.relationship_changes@);
            assert(views.contains((kind, target, change_of(b, a, kind, target))));
            let k = choose|k: int| 0 <= k < views.len() && views[k] == (kind, target, change_of(b, a, kind, target));
            lemma_class_counts(c.relationship_changes@, k);
            lemma_all_counts(r.changed@, class_of(c.relationship_changes@[k].2), 0);
        }
    }
}

proof fn lemma_weights_agree(xs: Seq<Concept>, ys: Seq<Concept>)
    requires
        concept_views(xs) == concept_views(ys),
    ensures
        weight_of_all(xs) == weight_of_all(ys),
    decreases xs.len(),
{
    let (xv, yv) = (concept_views(xs), concept_views(ys));
    assert(xs.len() == xv.len() && ys.len() == yv.len());
    if xs.len() > 0 {
        assert(xv.last() == xs.last()@ && yv.last() == ys.last()@);
        assert(rel_views(xs.last().relationships@).len() == rel_views(ys.last().relationships@).len());
        assert(concept_views(xs.drop_last()) =~= xv.drop_last());
        assert(concept_views(ys.drop_last()) =~= yv.drop_last());
        lemma_weights_agree(xs.drop_last(), ys.drop_last());
    }
}

proof fn lemma_classes_agree(
    xs: Seq<(RelationKind, String, RelationshipChangeKind)>,
    ys: Seq<(RelationKind, String, RelationshipChangeKind)>,
    class: ChangeClass,
)
    requires
        change_views(xs) == change_views(ys),
    ensures
        count_class(xs, class) == count_class(ys, class),
    decreases xs.len(),
{
    let (xv, yv) = (change_views(xs), change_views(ys));
    assert(xs.len() == xv.len() && ys.len() == yv.len());
    if xs.len() > 0 {
        assert(xv.last().2 == xs.last().2 && yv.last().2 == ys.last().2);
        assert(change_views(xs.drop_last()) =~= xv.drop_last());
        assert(change_views(ys.drop_last()) =~= yv.drop_last());
        lemma_classes_agree(xs.drop_last(), ys.drop_last(), class);
    }
}

proof fn lemma_counts_agree(xs: Seq<ChangedConcept>, ys: Seq<ChangedConcept>, class: ChangeClass)
    requires
        xs.len() == ys.len(),
        forall|k: int| 0 <= k < xs.len() ==> mirrors(#[trigger] xs[k], ys[k]),
    ensures
        count_all(xs, class) == count_all(ys, class),
        edge_count(xs) == edge_count(ys),
    decreases xs.len(),
{
    if xs.len() > 0 {
        let n = xs.len() - 1;
        assert(mirrors(xs[n], ys[n]));
        let (x, y) = (xs[n].relationship_changes@, ys[n].relationship_changes@);
        lemma_classes_agree(x, y, class);
        lemma_classes_agree(x, y, ChangeClass::Source);
        lemma_classes_agree(x, y, ChangeClass::Resolver);
        lemma_classes_agree(x, y, ChangeClass::Confidence);
        assert forall|k: int| 0 <= k < n implies mirrors(#[trigger] xs.drop_last()[k], ys.drop_last()[k]) by {
            assert(mirrors(xs[k], ys[k]));
        }
        lemma_counts_agree(xs.drop_last(), ys.drop_last(), class);
    }
}

/// The summary is the same seen from either snapshot, as long as each id is
/// there once.
pub proof fn a_summary_is_the_same_both_ways(before: Seq<Concept>, after: Seq<Concept>, there: DiffReport, back: DiffReport)
    requires
        is_diff(before, after, there),
        is_diff(after, before, back),
        ids(before).no_duplicates(),
        ids(after).no_duplicates(),
    ensures
        source_count(there) == source_count(back),
        forall|class: ChangeClass| #[trigger] count_all(there.changed@, class) == count_all(back.changed@, class),
        edge_count(there.changed@) == edge_count(back.changed@),
{
    added_one_way_is_removed_the_other(before, after, there, back);
    changes_are_mirrored(before, after, there, back);
    lemma_weights_agree(there.added@, back.removed@);
    lemma_weights_agree(there.removed@, back.added@);
    assert forall|class: ChangeClass| #[trigger] count_all(there.changed@, class) == count_all(back.changed@, class) by {
        lemma_counts_agree(there.changed@, back.changed@, class);
    }
    lemma_counts_agree(there.changed@, back.changed@, ChangeClass::Source);
}

proof fn lemma_edges_are_counted(cs: Seq<ChangedConcept>)
    ensures
        count_all(cs, ChangeClass::Resolver) + count_all(cs, ChangeClass::Confidence) <= edge_count(cs),
        edge_count(cs) <= count_all(cs, ChangeClass::Source) + count_all(cs, ChangeClass::Resolver) + count_all(cs, ChangeClass::Confidence),
    decreases cs.len(),
{
    if cs.len() > 0 {
        lemma_edges_are_counted(cs.drop_last());
    }
}

/// Whole concepts that come or go leave the rate as it is, and it is a share:
/// the changes of resolver are among those that it is taken of.
pub proof fn whole_concepts_do_not_dilute_the_rate(r: DiffReport, other: DiffReport)
    requires
        r.changed == other.changed,
    ensures
        rate_in(r) == rate_in(other),
        rate_in(r) matches Some(rate) ==> rate.0 <= rate.1,
{
    lemma_edges_are_counted(r.changed@);
}

}
