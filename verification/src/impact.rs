//! How far the changes between two snapshots reach.

use vstd::prelude::*;
use crate::diff::{diff, DiffReport};
use crate::diff::{describes, differing, is_diff, nothing_changes_against_itself, only_here};
use crate::graph::Graph;
use crate::graph::{affected, are_at, find, ids, is_selection, on_cycle, relation, selection, structural};
use crate::grouping::in_group;
use crate::model::{Concept, ConceptKind, RelationKind};
use crate::order::{in_order, sort_order, KeyIndex, SortKey};
use crate::order::{goes_before, group_views, is_sort_order, key_views, lemma_last_of, lemma_order_distinct, sorted_by, str_views, KeyView};
use crate::text::texts;

verus! {

/// What happened to a concept.
#[derive(Clone, Copy, Debug, PartialEq, Eq, Structural)]
pub enum ChangeKind {
    Added,
    Removed,
    Changed,
}

/// A concept that changed, with what depends on it.
#[derive(Debug)]
pub struct ImpactedConcept {
    pub id: String,
    pub kind: ConceptKind,
    pub change: ChangeKind,
    pub blast_radius: Vec<String>,
    pub is_public_api: bool,
    pub in_cycle: bool,
}

/// What changed and how far each change reaches.
#[derive(Debug)]
pub struct ImpactReport {
    pub diff: DiffReport,
    pub impacted: Vec<ImpactedConcept>,
}

impl Default for ImpactReport {
    fn default() -> (r: ImpactReport)
        ensures
            r.diff.added@.len() == 0,
            r.diff.removed@.len() == 0,
            r.diff.changed@.len() == 0,
            r.impacted@.len() == 0,
    {
        ImpactReport { diff: DiffReport::default(), impacted: Vec::new() }
    }
}

/// A concept with this id is public and part of the interface.
pub open spec fn public_id(cs: Seq<Concept>, id: Seq<char>) -> bool {
    exists|i: int| 0 <= i < cs.len() && (#[trigger] cs[i]).id@ == id && cs[i].is_public && !structural(cs[i].kind)
}

/// The ids of what calls this one, directly or through others, in order.
pub open spec fn is_radius(cs: Seq<Concept>, id: Seq<char>, radius: Seq<Seq<char>>) -> bool {
    exists|at: Seq<int>| #[trigger] selection(cs, reached_from(cs, id), at) && radius == at.map_values(|i: int| cs[i].id@)
}

/// Being affected by a change of this concept, by position.
pub open spec fn reached_from(cs: Seq<Concept>, id: Seq<char>) -> spec_fn(int) -> bool {
    |i: int| affected(cs, id, None, i)
}

/// The entry scores the concept with this id in this snapshot.
pub open spec fn is_score(cs: Seq<Concept>, id: Seq<char>, change: ChangeKind, e: ImpactedConcept) -> bool {
    &&& e.id@ == id
    &&& e.change == change
    &&& find(cs, id) matches Some(i) && e.kind == cs[i].kind
    &&& is_radius(cs, id, texts(e.blast_radius@))
    &&& e.is_public_api == public_id(cs, id)
    &&& e.in_cycle == on_cycle(cs, relation(cs, RelationKind::Calls), id)
}

/// The entries score, in this order, what was added, what was removed and what
/// changed; what was removed in the earlier snapshot, the rest in the later.
pub open spec fn are_scores(before: Seq<Concept>, after: Seq<Concept>, d: DiffReport, entries: Seq<ImpactedConcept>) -> bool {
    let a = d.added@.len() as int;
    let b = a + d.removed@.len();
    &&& entries.len() == b + d.changed@.len()
    &&& forall|k: int| 0 <= k < a ==> is_score(after, d.added@[k].id@, ChangeKind::Added, #[trigger] entries[k])
    &&& forall|k: int| a <= k < b ==> is_score(before, d.removed@[k - a].id@, ChangeKind::Removed, #[trigger] entries[k])
    &&& forall|k: int| b <= k < entries.len() ==> is_score(after, d.changed@[k - b].id@, ChangeKind::Changed, #[trigger] entries[k])
}

/// What entries are sorted by: those that reach farthest first, then by id.
pub open spec fn impact_keys(entries: Seq<ImpactedConcept>) -> Seq<KeyView> {
    entries.map_values(
        |e: ImpactedConcept| KeyView { major: usize::MAX - e.blast_radius@.len(), text: e.id@, second: ""@, minor: 0 },
    )
}

/// The report of how far the changes reach.
pub open spec fn is_impact(before: Seq<Concept>, after: Seq<Concept>, r: ImpactReport) -> bool {
    &&& is_diff(before, after, r.diff)
    &&& exists|entries: Seq<ImpactedConcept>| #[trigger] are_scores(before, after, r.diff, entries) && sorted_by(entries, impact_keys(entries), r.impacted@)
}

/// What concepts are scored against: a snapshot's graph, its public ids and
/// the ids on call cycles.
struct Scale<'a> {
    graph: Graph<'a>,
    public: KeyIndex<'a>,
    cyclic: KeyIndex<'a>,
}

impl<'a> Scale<'a> {
    spec fn ok(self, cs: Seq<Concept>) -> bool {
        &&& self.graph.wf()
        &&& self.graph@ == cs
        &&& self.public.wf()
        &&& forall|t: Seq<char>| #[trigger] self.public@.contains(t) <==> public_id(cs, t)
        &&& self.cyclic.wf()
        &&& forall|t: Seq<char>| #[trigger] self.cyclic@.contains(t) <==> on_cycle(cs, relation(cs, RelationKind::Calls), t)
    }

    fn new(concepts: &'a [Concept]) -> (r: Scale<'a>)
        ensures
            r.ok(concepts@),
    {
        let ghost cs = concepts@;
        let graph = Graph::build(concepts);
        let api = graph.public_api();
        let ghost keep = |i: int| cs[i].is_public && !structural(cs[i].kind);
        let ghost at = choose|at: Seq<int>| #[trigger] selection(cs, keep, at) && are_at(api@, cs, at);
        let mut public: Vec<&'a str> = Vec::new();
        for i in 0..api.len()
            invariant
                public@.len() == i,
                forall|k: int| 0 <= k < i ==> (#[trigger] public@[k])@ == api@[k].id@,
        {
            public.push(api[i].id.as_str());
        }
        proof {
            let pv = str_views(public@);
            assert forall|t: Seq<char>| #[trigger] pv.contains(t) <==> public_id(cs, t) by {
                if pv.contains(t) {
                    let k = choose|k: int| 0 <= k < pv.len() && pv[k] == t;
                    assert(keep(at[k]));
                    assert(*api@[k] == cs[at[k]]);
                    assert(cs[at[k]].id@ == t);
                }
                if public_id(cs, t) {
                    let i = choose|i: int| 0 <= i < cs.len() && (#[trigger] cs[i]).id@ == t && cs[i].is_public && !structural(cs[i].kind);
                    assert(keep(i));
                    let k = choose|k: int| 0 <= k < at.len() && at[k] == i;
                    assert(*api@[k] == cs[at[k]]);
                    assert(pv[k] == t);
                }
            }
        }
        let groups = graph.cycles();
        let ghost gv = group_views(groups@);
        let mut cyclic: Vec<&'a str> = Vec::new();
        for g in 0..groups.len()
            invariant
                gv == group_views(groups@),
                forall|t: Seq<char>| #[trigger] str_views(cyclic@).contains(t) ==> exists|h: int| in_group(gv, h, t),
                forall|h: int, t: Seq<char>| h < g && #[trigger] in_group(gv, h, t) ==> str_views(cyclic@).contains(t),
        {
            let size: usize = groups[g].len();
            for k in 0..size
                invariant
                    gv == group_views(groups@),
                    g < groups@.len(),
                    size == gv[g as int].len(),
                    forall|t: Seq<char>| #[trigger] str_views(cyclic@).contains(t) ==> exists|h: int| in_group(gv, h, t),
                    forall|h: int, t: Seq<char>| h < g && #[trigger] in_group(gv, h, t) ==> str_views(cyclic@).contains(t),
                    forall|m: int| 0 <= m < k ==> str_views(cyclic@).contains(#[trigger] gv[g as int][m]),
            {
                let ghost before = str_views(cyclic@);
                let name: &'a str = groups[g][k];
                cyclic.push(name);
                proof {
                    let after = str_views(cyclic@);
                    assert(after =~= before.push(name@));
                    assert(gv[g as int][k as int] == name@);
                    assert(gv[g as int].contains(name@));
                    assert(in_group(gv, g as int, name@));
                    assert forall|t: Seq<char>| #[trigger] after.contains(t) <==> before.contains(t) || t == name@ by {
                        if before.contains(t) {
                            let m = choose|m: int| 0 <= m < before.len() && before[m] == t;
                            assert(after[m] == t);
                        }
                        assert(after[before.len() as int] == name@);
                        if after.contains(t) {
                            let m = choose|m: int| 0 <= m < after.len() && after[m] == t;
                            if m < before.len() {
                                assert(before[m] == t);
                            }
                        }
                    }
                }
            }
            proof {
                assert forall|h: int, t: Seq<char>| h < g + 1 && #[trigger] in_group(gv, h, t) implies str_views(cyclic@).contains(t) by {
                    if h == g {
                        let m = choose|m: int| 0 <= m < gv[h].len() && gv[h][m] == t;
                        assert(str_views(cyclic@).contains(gv[g as int][m]));
                    }
                }
            }
        }
        proof {
            let member = |t: Seq<char>| on_cycle(cs, relation(cs, RelationKind::Calls), t);
            assert forall|t: Seq<char>| #[trigger] str_views(cyclic@).contains(t) <==> on_cycle(cs, relation(cs, RelationKind::Calls), t) by {
                if str_views(cyclic@).contains(t) {
                    let h = choose|h: int| in_group(gv, h, t);
                    assert(member(t));
                }
                if member(t) {
                    let h = choose|h: int| in_group(gv, h, t);
                    assert(in_group(gv, h, t));
                }
            }
        }
        Scale { graph, public: KeyIndex::new(public), cyclic: KeyIndex::new(cyclic) }
    }

    /// How far a change of the concept with this id reaches.
    fn score_impact(&self, Ghost(cs): Ghost<Seq<Concept>>, id: &str, change: ChangeKind) -> (r: ImpactedConcept)
        requires
            self.ok(cs),
            find(cs, id@) is Some,
        ensures
            is_score(cs, id@, change, r),
    {
        let kind = match self.graph.get(id) {
            Some(c) => c.kind,
            None => ConceptKind::Module,
        };
        let callers = self.graph.transitive_callers(id, None);
        let ghost keep = reached_from(cs, id@);
        assert(keep =~= (|i: int| affected(cs, id@, None, i)));
        assert(is_selection(callers@, cs, keep));
        let ghost at = choose|at: Seq<int>| #[trigger] selection(cs, keep, at) && are_at(callers@, cs, at);
        let mut radius: Vec<String> = Vec::new();
        for i in 0..callers.len()
            invariant
                radius@.len() == i,
                forall|k: int| 0 <= k < i ==> (#[trigger] radius@[k])@ == callers@[k].id@,
        {
            radius.push(callers[i].id.clone());
        }
        proof {
            assert forall|k: int| 0 <= k < at.len() implies texts(radius@)[k] == cs[#[trigger] at[k]].id@ by {
                assert(*callers@[k] == cs[at[k]]);
            }
            assert(texts(radius@) =~= at.map_values(|i: int| cs[i].id@));
            lemma_last_of(self.public@, id@);
            lemma_last_of(self.cyclic@, id@);
        }
        let is_public_api = self.public.find(id).is_some();
        let in_cycle = self.cyclic.find(id).is_some();
        proof {
            assert(is_public_api == self.public@.contains(id@));
            assert(in_cycle == self.cyclic@.contains(id@));
        }
        ImpactedConcept { id: id.to_owned(), kind, change, blast_radius: radius, is_public_api, in_cycle }
    }
}

/// What changed from one snapshot to the other and how far each change
/// reaches, the farthest first.
pub fn impact(before: &[Concept], after: &[Concept]) -> (r: ImpactReport)
    ensures
        is_impact(before@, after@, r),
{
    let ghost bs = before@;
    let ghost cs = after@;
    let report = diff(before, after);
    let earlier = Scale::new(before);
    let later = Scale::new(after);
    proof {
        lemma_known(bs, cs, report);
    }
    let a: usize = report.added.len();
    let b: usize = report.removed.len();
    let mut entries: Vec<ImpactedConcept> = Vec::new();
    for k in 0..a
        invariant
            later.ok(cs),
            a == report.added@.len(),
            forall|k: int| 0 <= k < report.added@.len() ==> find(cs, (#[trigger] report.added@[k]).id@) is Some,
            entries@.len() == k,
            forall|m: int| 0 <= m < k ==> is_score(cs, report.added@[m].id@, ChangeKind::Added, #[trigger] entries@[m]),
    {
        entries.push(later.score_impact(Ghost(cs), report.added[k].id.as_str(), ChangeKind::Added));
    }
    for k in 0..b
        invariant
            earlier.ok(bs),
            a == report.added@.len(),
            b == report.removed@.len(),
            forall|k: int| 0 <= k < report.removed@.len() ==> find(bs, (#[trigger] report.removed@[k]).id@) is Some,
            entries@.len() == a + k,
            forall|m: int| 0 <= m < a ==> is_score(cs, report.added@[m].id@, ChangeKind::Added, #[trigger] entries@[m]),
            forall|m: int| a <= m < a + k ==> is_score(bs, report.removed@[m - a].id@, ChangeKind::Removed, #[trigger] entries@[m]),
    {
        entries.push(earlier.score_impact(Ghost(bs), report.removed[k].id.as_str(), ChangeKind::Removed));
    }
    for k in 0..report.changed.len()
        invariant
            later.ok(cs),
            a == report.added@.len(),
            b == report.removed@.len(),
            forall|k: int| 0 <= k < report.changed@.len() ==> find(cs, (#[trigger] report.changed@[k]).id@) is Some,
            entries@.len() == a + b + k,
            forall|m: int| 0 <= m < a ==> is_score(cs, report.added@[m].id@, ChangeKind::Added, #[trigger] entries@[m]),
            forall|m: int| a <= m < a + b ==> is_score(bs, report.removed@[m - a].id@, ChangeKind::Removed, #[trigger] entries@[m]),
            forall|m: int| a + b <= m < a + b + k ==> is_score(cs, report.changed@[m - a - b].id@, ChangeKind::Changed, #[trigger] entries@[m]),
    {
        entries.push(later.score_impact(Ghost(cs), report.changed[k].id.as_str(), ChangeKind::Changed));
    }
    let ghost es = entries@;
    proof {
        assert(are_scores(bs, cs, report, es)) by {
            assert forall|k: int| a + b <= k < es.len() implies is_score(cs, report.changed@[k - (a + b)].id@, ChangeKind::Changed, #[trigger] es[k]) by {
                assert(k - a - b == k - (a + b));
            }
        }
    }
    let mut keys: Vec<SortKey> = Vec::new();
    for k in 0..entries.len()
        invariant
            keys@.len() == k,
            forall|m: int| 0 <= m < k ==> (#[trigger] keys@[m])@ == (KeyView { major: usize::MAX - entries@[m].blast_radius@.len(), text: entries@[m].id@, second: ""@, minor: 0 }),
    {
        keys.push(SortKey { major: usize::MAX - entries[k].blast_radius.len(), text: entries[k].id.as_str(), second: "", minor: 0 });
    }
    let order = sort_order(&keys);
    proof {
        assert(key_views(keys@) =~= impact_keys(es));
        lemma_order_distinct(key_views(keys@), order@);
    }
    let impacted = in_order(entries, &order);
    proof {
        assert(is_sort_order(impact_keys(es), order@));
        assert(impacted@ =~= order@.map_values(|k: usize| es[k as int]));
        assert(sorted_by(es, impact_keys(es), impacted@));
    }
    let r = ImpactReport { diff: report, impacted };
    assert(are_scores(bs, cs, r.diff, es));
    assert(is_impact(bs, cs, r));
    r
}

/// What the report names is in the snapshot that it is scored in.
proof fn lemma_known(before: Seq<Concept>, after: Seq<Concept>, d: DiffReport)
    requires
        is_diff(before, after, d),
    ensures
        forall|k: int| 0 <= k < d.added@.len() ==> find(after, (#[trigger] d.added@[k]).id@) is Some,
        forall|k: int| 0 <= k < d.removed@.len() ==> find(before, (#[trigger] d.removed@[k]).id@) is Some,
        forall|k: int| 0 <= k < d.changed@.len() ==> find(after, (#[trigger] d.changed@[k]).id@) is Some,
{
    let new = |i: int| only_here(after, before, i);
    let x = choose|at: Seq<int>| #[trigger] selection(after, new, at) && d.added@.len() == at.len() && forall|k: int| 0 <= k < at.len() ==> (#[trigger] d.added@[k])@ == after[at[k]]@;
    assert forall|k: int| 0 <= k < d.added@.len() implies find(after, (#[trigger] d.added@[k]).id@) is Some by {
        lemma_last_of(ids(after), d.added@[k].id@);
        assert(d.added@[k]@ == after[x[k]]@);
        assert(ids(after)[x[k]] == d.added@[k].id@);
    }
    let gone = |i: int| only_here(before, after, i);
    let y = choose|at: Seq<int>| #[trigger] selection(before, gone, at) && d.removed@.len() == at.len() && forall|k: int| 0 <= k < at.len() ==> (#[trigger] d.removed@[k])@ == before[at[k]]@;
    assert forall|k: int| 0 <= k < d.removed@.len() implies find(before, (#[trigger] d.removed@[k]).id@) is Some by {
        lemma_last_of(ids(before), d.removed@[k].id@);
        assert(d.removed@[k]@ == before[y[k]]@);
        assert(ids(before)[y[k]] == d.removed@[k].id@);
    }
    let z = choose|at: Seq<int>| #[trigger] selection(after, differing(before, after), at) && d.changed@.len() == at.len() && forall|k: int| 0 <= k < at.len() ==> describes(#[trigger] d.changed@[k], before, after, at[k]);
    assert forall|k: int| 0 <= k < d.changed@.len() implies find(after, (#[trigger] d.changed@[k]).id@) is Some by {
        lemma_last_of(ids(after), d.changed@[k].id@);
        assert(describes(d.changed@[k], before, after, z[k]));
        assert(0 <= z[k] < after.len());
        assert(ids(after)[z[k]] == d.changed@[k].id@);
    }
}

/// Between a snapshot and itself nothing is affected, as long as each id is
/// there once.
pub proof fn no_change_has_no_impact(cs: Seq<Concept>, r: ImpactReport)
    requires
        is_impact(cs, cs, r),
        ids(cs).no_duplicates(),
    ensures
        r.impacted@.len() == 0,
{
    nothing_changes_against_itself(cs, r.diff);
}

/// What reaches farther comes first.
pub proof fn the_farthest_comes_first(before: Seq<Concept>, after: Seq<Concept>, r: ImpactReport, i: int, j: int)
    requires
        is_impact(before, after, r),
        0 <= i < j < r.impacted@.len(),
    ensures
        r.impacted@[i].blast_radius@.len() >= r.impacted@[j].blast_radius@.len(),
{
    let entries = choose|entries: Seq<ImpactedConcept>| #[trigger] are_scores(before, after, r.diff, entries) && sorted_by(
        entries,
        impact_keys(entries),
        r.impacted@,
    );
    let keys = impact_keys(entries);
    let order = choose|order: Seq<usize>| #[trigger] is_sort_order(keys, order) && r.impacted@ == order.map_values(|k: usize| entries[k as int]);
    assert(goes_before(keys, order[i] as int, order[j] as int));
}

}
