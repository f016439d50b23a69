//! Queries over the graph that a bundle's concepts form: cross-module links,
//! ownership, public surface, call cycles and call paths.

use vstd::prelude::*;
use crate::model::{Concept, ConceptKind, RelationKind, Relationship};
use crate::callpath::shortest_walk;
use crate::callpath::{is_shortest_walk, walk_step};
use crate::digraph::{cycles, mark_near};
use crate::digraph::{arcs, cyclic, edge, entwined, graph_ok, leads_to, lemma_leads_back, lemma_leads_one, lemma_picture, lemma_picture_closed, lemma_picture_steps, lemma_picture_target, lemma_reaches_self, mutual, near, pictures, placed, reach_in, reached, reaches, steps_to};
use crate::grouping::{in_group, is_grouping, lemma_named_grouping};
use crate::order::{name_groups, sort_order, sorted_pairs, KeyIndex, SortKey};
use crate::order::{goes_before, group_views, is_naming, is_sort_order, key_views, last_of, lemma_last_of, lists, pair_views, str_views, strictly_sorted_pairs, KeyView};
use crate::text::{lex_lt, same};
use crate::reach::{are_all_that, callers_are_told_by_chains, calls_within, has_no_call, is_declared, isolated_is_what_has_no_call, lists_id, the_interface_is_what_is_public};

verus! {

/// The ids of the concepts.
pub open spec fn ids(cs: Seq<Concept>) -> Seq<Seq<char>> {
    cs.map_values(|c: Concept| c.id@)
}

/// The position of the concept with this id; of several, the last.
pub open spec fn find(cs: Seq<Concept>, id: Seq<char>) -> Option<int> {
    last_of(ids(cs), id)
}

/// The position of the module declared in this file; of several, the last.
pub open spec fn module_of_file(cs: Seq<Concept>, file: Seq<char>) -> Option<int>
    decreases cs.len(),
{
    if cs.len() == 0 {
        None
    } else if cs.last().kind == ConceptKind::Module && cs.last().location.file@ == file {
        Some(cs.len() - 1)
    } else {
        module_of_file(cs.drop_last(), file)
    }
}

/// The position of the module concept that owns the concept with this id.
pub open spec fn owning_module_of(cs: Seq<Concept>, id: Seq<char>) -> Option<int> {
    match find(cs, id) {
        Some(i) => match module_of_file(cs, cs[i].location.file@) {
            Some(m) => find(cs, cs[m].id@),
            None => None,
        },
        None => None,
    }
}

/// The positions that relationships of this kind lead to, in order, leaving
/// out targets that are not in the bundle.
pub open spec fn targets_in(cs: Seq<Concept>, rels: Seq<Relationship>, kind: RelationKind) -> Seq<int>
    decreases rels.len(),
{
    if rels.len() == 0 {
        Seq::empty()
    } else {
        let rest = targets_in(cs, rels.drop_last(), kind);
        match find(cs, rels.last().target@) {
            Some(t) => if rels.last().kind == kind {
                rest.push(t)
            } else {
                rest
            },
            None => rest,
        }
    }
}

/// The positions that the concept with this id is related to in this way.
pub open spec fn related_of(cs: Seq<Concept>, id: Seq<char>, kind: RelationKind) -> Seq<int> {
    match find(cs, id) {
        Some(i) => targets_in(cs, cs[i].relationships@, kind),
        None => Seq::empty(),
    }
}

/// The concept with this id is a module.
pub open spec fn is_module(cs: Seq<Concept>, id: Seq<char>) -> bool {
    match find(cs, id) {
        Some(i) => cs[i].kind == ConceptKind::Module,
        None => false,
    }
}

/// The position of the package that owns the concept with this id: what a
/// module is itself a member of, and what the module that owns anything else
/// is a member of.
pub open spec fn owning_package_of(cs: Seq<Concept>, id: Seq<char>) -> Option<int> {
    let own = related_of(cs, id, RelationKind::MemberOf);
    if is_module(cs, id) && own.len() > 0 {
        Some(own[0])
    } else {
        match owning_module_of(cs, id) {
            Some(m) => {
                let of_module = related_of(cs, cs[m].id@, RelationKind::MemberOf);
                if of_module.len() > 0 {
                    Some(of_module[0])
                } else {
                    None
                }
            },
            None => None,
        }
    }
}

/// `found` is the concept at this position, if there is a position.
pub open spec fn is_at(found: Option<&Concept>, cs: Seq<Concept>, at: Option<int>) -> bool {
    match at {
        Some(i) => found == Some(&cs[i]),
        None => found is None,
    }
}

/// `found` are the concepts at these positions.
pub open spec fn are_at(found: Seq<&Concept>, cs: Seq<Concept>, at: Seq<int>) -> bool {
    &&& found.len() == at.len()
    &&& forall|k: int| 0 <= k < at.len() ==> *(#[trigger] found[k]) == cs[at[k]]
}

/// `at` are the positions that `keep` holds for, by id and then by position.
pub open spec fn selection(cs: Seq<Concept>, keep: spec_fn(int) -> bool, at: Seq<int>) -> bool {
    &&& forall|k: int| 0 <= k < at.len() ==> 0 <= #[trigger] at[k] < cs.len() && keep(at[k])
    &&& forall|i: int| 0 <= i < cs.len() && #[trigger] keep(i) ==> at.contains(i)
    &&& forall|a: int, b: int| 0 <= a < b < at.len() ==> lex_lt(cs[#[trigger] at[a]].id@, cs[#[trigger] at[b]].id@)
        || (cs[at[a]].id@ == cs[at[b]].id@ && at[a] < at[b])
}

/// `found` are the concepts that `keep` holds for, by id and then by position.
pub open spec fn is_selection(found: Seq<&Concept>, cs: Seq<Concept>, keep: spec_fn(int) -> bool) -> bool {
    exists|at: Seq<int>| #[trigger] selection(cs, keep, at) && are_at(found, cs, at)
}

/// Containers and documentation: never part of the call graph nor of the
/// public surface.
pub open spec fn structural(kind: ConceptKind) -> bool {
    kind == ConceptKind::Module || kind == ConceptKind::Package || kind == ConceptKind::Document
}

/// The concept calls or is called.
pub open spec fn has_call_edge(c: Concept) -> bool {
    exists|j: int| 0 <= j < c.relationships@.len() && is_call_kind((#[trigger] c.relationships@[j]).kind)
}

pub open spec fn is_call_kind(kind: RelationKind) -> bool {
    kind == RelationKind::Calls || kind == RelationKind::CalledBy
}

proof fn lemma_module_of_file(cs: Seq<Concept>, file: Seq<char>)
    ensures
        match module_of_file(cs, file) {
            Some(i) => 0 <= i < cs.len() && cs[i].kind == ConceptKind::Module && cs[i].location.file@ == file
                && forall|j: int| i < j < cs.len() ==> !((#[trigger] cs[j]).kind == ConceptKind::Module && cs[j].location.file@ == file),
            None => forall|j: int| 0 <= j < cs.len() ==> !((#[trigger] cs[j]).kind == ConceptKind::Module && cs[j].location.file@ == file),
        },
    decreases cs.len(),
{
    if cs.len() > 0 && !(cs.last().kind == ConceptKind::Module && cs.last().location.file@ == file) {
        lemma_module_of_file(cs.drop_last(), file);
        assert forall|j: int| 0 <= j < cs.len() - 1 implies cs[j] == cs.drop_last()[j] by {}
    }
}

pub proof fn lemma_find(cs: Seq<Concept>, id: Seq<char>)
    ensures
        match find(cs, id) {
            Some(i) => 0 <= i < cs.len() && cs[i].id@ == id && find(cs, cs[i].id@) == Some(i),
            None => true,
        },
{
    lemma_last_of(ids(cs), id);
}

pub proof fn lemma_targets(cs: Seq<Concept>, rels: Seq<Relationship>, kind: RelationKind)
    ensures
        forall|k: int| 0 <= k < targets_in(cs, rels, kind).len() ==> {
            let t = #[trigger] targets_in(cs, rels, kind)[k];
            0 <= t < cs.len() && find(cs, cs[t].id@) == Some(t)
        },
    decreases rels.len(),
{
    if rels.len() > 0 {
        lemma_targets(cs, rels.drop_last(), kind);
        lemma_find(cs, rels.last().target@);
    }
}

/// The numbers as integers.
pub open spec fn as_ints(v: Seq<usize>) -> Seq<int> {
    v.map_values(|x: usize| x as int)
}

/// The positions by the ids there, and then by position.
pub fn positions_by_id(concepts: &[Concept], positions: &Vec<usize>) -> (r: Vec<usize>)
    requires
        forall|k: int| 0 <= k < positions@.len() ==> (#[trigger] positions@[k]) < concepts@.len(),
        forall|k: int, l: int| 0 <= k < l < positions@.len() ==> #[trigger] positions@[k] < #[trigger] positions@[l],
    ensures
        selection(concepts@, |i: int| lists(positions@, i), as_ints(r@)),
{
    let ghost cs = concepts@;
    let mut keys: Vec<SortKey> = Vec::new();
    for k in 0..positions.len()
        invariant
            cs == concepts@,
            forall|k: int| 0 <= k < positions@.len() ==> (#[trigger] positions@[k]) < cs.len(),
            keys@.len() == k,
            forall|m: int| 0 <= m < k ==> (#[trigger] keys@[m])@ == (KeyView { major: 0, text: cs[positions@[m] as int].id@, second: ""@, minor: 0 }),
    {
        keys.push(SortKey { major: 0, text: concepts[positions[k]].id.as_str(), second: "", minor: 0 });
    }
    let order = sort_order(&keys);
    let ghost kv = key_views(keys@);
    let mut out: Vec<usize> = Vec::new();
    for k in 0..order.len()
        invariant
            is_sort_order(kv, order@),
            kv.len() == positions@.len(),
            out@.len() == k,
            forall|m: int| 0 <= m < k ==> #[trigger] out@[m] == positions@[order@[m] as int],
    {
        out.push(positions[order[k]]);
    }
    proof {
        let at = as_ints(out@);
        let keep = |i: int| lists(positions@, i);
        assert forall|k: int| 0 <= k < at.len() implies 0 <= #[trigger] at[k] < cs.len() && keep(at[k]) by {
            assert(positions@[order@[k] as int] == at[k]);
        }
        assert forall|i: int| 0 <= i < cs.len() && #[trigger] keep(i) implies at.contains(i) by {
            let k = choose|k: int| 0 <= k < positions@.len() && #[trigger] positions@[k] == i;
            assert(order@.contains(k as usize));
            let m = choose|m: int| 0 <= m < order@.len() && order@[m] == k as usize;
            assert(at[m] == i);
        }
        assert forall|a: int, b: int| 0 <= a < b < at.len() implies lex_lt(cs[#[trigger] at[a]].id@, cs[#[trigger] at[b]].id@)
            || (cs[at[a]].id@ == cs[at[b]].id@ && at[a] < at[b]) by {
            assert(goes_before(kv, order@[a] as int, order@[b] as int));
            assert(at[a] == positions@[order@[a] as int] && at[b] == positions@[order@[b] as int]);
        }
        assert(selection(cs, keep, at));
    }
    out
}

/// A graph over borrowed concepts.
pub struct Graph<'a> {
    concepts: &'a [Concept],
    by_id: KeyIndex<'a>,
    modules: Vec<usize>,
    module_by_file: KeyIndex<'a>,
}

/// Whether a kind is a container or documentation.
pub fn is_structural(kind: ConceptKind) -> (r: bool)
    ensures
        r == structural(kind),
{
    matches!(kind, ConceptKind::Module | ConceptKind::Package | ConceptKind::Document)
}

impl<'a> Graph<'a> {
    /// The concepts of the graph.
    pub closed spec fn view(self) -> Seq<Concept> {
        self.concepts@
    }

    /// The two indexes are those of the concepts.
    pub closed spec fn wf(self) -> bool {
        &&& self.by_id.wf()
        &&& self.by_id@ == ids(self@)
        &&& self.module_by_file.wf()
        &&& self.module_by_file@.len() == self.modules@.len()
        &&& forall|k: int| 0 <= k < self.modules@.len() ==> (#[trigger] self.modules@[k]) < self@.len()
            && self@[self.modules@[k] as int].kind == ConceptKind::Module
            && self.module_by_file@[k] == self@[self.modules@[k] as int].location.file@
        &&& forall|k: int, l: int| 0 <= k < l < self.modules@.len() ==> #[trigger] self.modules@[k] < #[trigger] self.modules@[l]
        &&& forall|i: int| 0 <= i < self@.len() && (#[trigger] self@[i]).kind == ConceptKind::Module ==> lists(self.modules@, i)
    }

    /// Indexes the concepts by id, and the modules among them by file.
    pub fn build(concepts: &'a [Concept]) -> (r: Graph<'a>)
        ensures
            r.wf(),
            r@ == concepts@,
    {
        let mut keys: Vec<&'a str> = Vec::new();
        let mut modules: Vec<usize> = Vec::new();
        let mut files: Vec<&'a str> = Vec::new();
        for i in 0..concepts.len()
            invariant
                keys@.len() == i,
                forall|k: int| 0 <= k < i ==> (#[trigger] keys@[k])@ == concepts@[k].id@,
                files@.len() == modules@.len(),
                forall|k: int| 0 <= k < modules@.len() ==> (#[trigger] modules@[k]) < i
                    && concepts@[modules@[k] as int].kind == ConceptKind::Module
                    && files@[k]@ == concepts@[modules@[k] as int].location.file@,
                forall|k: int, l: int| 0 <= k < l < modules@.len() ==> #[trigger] modules@[k] < #[trigger] modules@[l],
                forall|j: int| 0 <= j < i && (#[trigger] concepts@[j]).kind == ConceptKind::Module ==> lists(modules@, j),
        {
            let c: &'a Concept = &concepts[i];
            keys.push(c.id.as_str());
            let ghost before = modules@;
            if c.kind == ConceptKind::Module {
                modules.push(i);
                files.push(c.location.file.as_str());
                assert(modules@[before.len() as int] == i);
            }
            assert forall|j: int| 0 <= j < i + 1 && (#[trigger] concepts@[j]).kind == ConceptKind::Module implies lists(modules@, j) by {
                if j < i {
                    let k = choose|k: int| 0 <= k < before.len() && #[trigger] before[k] == j;
                    assert(modules@[k] == j);
                }
            }
        }
        let r = Graph { concepts, by_id: KeyIndex::new(keys), modules, module_by_file: KeyIndex::new(files) };
        assert(r.by_id@ =~= ids(r@));
        r
    }

    fn position(&self, id: &str) -> (r: Option<usize>)
        requires
            self.wf(),
        ensures
            match r {
                Some(i) => find(self@, id@) == Some(i as int) && i < self@.len() && self@[i as int].id@ == id@,
                None => find(self@, id@) is None,
            },
    {
        self.by_id.find(id)
    }

    fn at(&self, i: usize) -> (r: &'a Concept)
        requires
            i < self@.len(),
        ensures
            *r == self@[i as int],
    {
        let concepts: &'a [Concept] = self.concepts;
        &concepts[i]
    }

    /// The concept with this id.
    pub fn get(&self, id: &str) -> (r: Option<&'a Concept>)
        requires
            self.wf(),
        ensures
            is_at(r, self@, find(self@, id@)),
    {
        match self.position(id) {
            Some(i) => Some(self.at(i)),
            None => None,
        }
    }

    /// The positions that the concept at `i` is related to in this way.
    fn targets(&self, i: usize, kind: RelationKind) -> (r: Vec<usize>)
        requires
            self.wf(),
            i < self@.len(),
        ensures
            r@.map_values(|x: usize| x as int) == targets_in(self@, self@[i as int].relationships@, kind),
            forall|k: int| 0 <= k < r@.len() ==> (#[trigger] r@[k]) < self@.len(),
    {
        let rels: &Vec<Relationship> = &self.at(i).relationships;
        let mut out: Vec<usize> = Vec::new();
        for j in 0..rels.len()
            invariant
                self.wf(),
                out@.map_values(|x: usize| x as int) == targets_in(self@, rels@.take(j as int), kind),
                forall|k: int| 0 <= k < out@.len() ==> (#[trigger] out@[k]) < self@.len(),
        {
            let ghost before = out@;
            if rels[j].kind == kind {
                if let Some(t) = self.position(rels[j].target.as_str()) {
                    out.push(t);
                    assert(out@.map_values(|x: usize| x as int) =~= before.map_values(|x: usize| x as int).push(t as int));
                }
            }
            proof {
                assert(rels@.take(j + 1).drop_last() =~= rels@.take(j as int));
                assert(rels@.take(j + 1).last() == rels@[j as int]);
            }
        }
        assert(rels@.take(rels@.len() as int) =~= rels@);
        out
    }

    fn related(&self, id: &str, kind: RelationKind) -> (r: Vec<&'a Concept>)
        requires
            self.wf(),
        ensures
            are_at(r@, self@, related_of(self@, id@, kind)),
    {
        let mut out: Vec<&'a Concept> = Vec::new();
        if let Some(i) = self.position(id) {
            let targets = self.targets(i, kind);
            let ghost at = targets@.map_values(|x: usize| x as int);
            for k in 0..targets.len()
                invariant
                    out@.len() == k,
                    at == targets@.map_values(|x: usize| x as int),
                    forall|k: int| 0 <= k < targets@.len() ==> (#[trigger] targets@[k]) < self@.len(),
                    forall|m: int| 0 <= m < k ==> *(#[trigger] out@[m]) == self@[at[m]],
            {
                out.push(self.at(targets[k]));
            }
        }
        out
    }

    /// The concepts that this one calls directly.
    pub fn callees(&self, id: &str) -> (r: Vec<&'a Concept>)
        requires
            self.wf(),
        ensures
            are_at(r@, self@, related_of(self@, id@, RelationKind::Calls)),
    {
        self.related(id, RelationKind::Calls)
    }

    /// The concepts that call this one directly.
    pub fn callers(&self, id: &str) -> (r: Vec<&'a Concept>)
        requires
            self.wf(),
        ensures
            are_at(r@, self@, related_of(self@, id@, RelationKind::CalledBy)),
    {
        self.related(id, RelationKind::CalledBy)
    }

    fn module_position(&self, file: &str) -> (r: Option<usize>)
        requires
            self.wf(),
        ensures
            match r {
                Some(m) => module_of_file(self@, file@) == Some(m as int) && m < self@.len(),
                None => module_of_file(self@, file@) is None,
            },
    {
        proof {
            lemma_last_of(self.module_by_file@, file@);
            lemma_module_of_file(self@, file@);
        }
        match self.module_by_file.find(file) {
            Some(k) => {
                let m: usize = self.modules[k];
                proof {
                    assert(self@[m as int].kind == ConceptKind::Module);
                    let i = module_of_file(self@, file@)->0;
                    assert(self@[i].kind == ConceptKind::Module);
                    let l = choose|l: int| 0 <= l < self.modules@.len() && #[trigger] self.modules@[l] == i;
                    if l < k {
                        assert(self.modules@[l] < self.modules@[k as int]);
                    }
                }
                Some(m)
            },
            None => {
                proof {
                    if module_of_file(self@, file@) is Some {
                        let i = module_of_file(self@, file@)->0;
                        assert(self@[i].kind == ConceptKind::Module);
                        let l = choose|l: int| 0 <= l < self.modules@.len() && #[trigger] self.modules@[l] == i;
                        assert(self.module_by_file@[l] == file@);
                    }
                }
                None
            },
        }
    }

    fn owner_position(&self, id: &str) -> (r: Option<usize>)
        requires
            self.wf(),
        ensures
            match r {
                Some(m) => owning_module_of(self@, id@) == Some(m as int) && m < self@.len(),
                None => owning_module_of(self@, id@) is None,
            },
    {
        match self.position(id) {
            Some(i) => match self.module_position(self.at(i).location.file.as_str()) {
                Some(m) => self.position(self.at(m).id.as_str()),
                None => None,
            },
            None => None,
        }
    }

    /// The module concept declared in the same file as the concept with this
    /// id.
    pub fn owning_module(&self, id: &str) -> (r: Option<&'a Concept>)
        requires
            self.wf(),
        ensures
            is_at(r, self@, owning_module_of(self@, id@)),
    {
        match self.owner_position(id) {
            Some(m) => Some(self.at(m)),
            None => None,
        }
    }

    /// The package that the concept is a member of: a module itself, anything
    /// else through its module.
    pub fn owning_package(&self, id: &str) -> (r: Option<&'a Concept>)
        requires
            self.wf(),
        ensures
            is_at(r, self@, owning_package_of(self@, id@)),
    {
        let of_kind_module: bool = match self.position(id) {
            Some(i) => matches!(self.at(i).kind, ConceptKind::Module),
            None => false,
        };
        if of_kind_module {
            let own = self.related(id, RelationKind::MemberOf);
            if own.len() > 0 {
                return Some(own[0]);
            }
        }
        match self.owning_module(id) {
            Some(module) => {
                let of_module = self.related(module.id.as_str(), RelationKind::MemberOf);
                if of_module.len() > 0 {
                    Some(of_module[0])
                } else {
                    None
                }
            },
            None => None,
        }
    }

    /// The concepts at these positions, by id and then by position.
    fn sorted_at(&self, positions: Vec<usize>) -> (r: Vec<&'a Concept>)
        requires
            self.wf(),
            forall|k: int| 0 <= k < positions@.len() ==> (#[trigger] positions@[k]) < self@.len(),
            forall|k: int, l: int| 0 <= k < l < positions@.len() ==> #[trigger] positions@[k] < #[trigger] positions@[l],
        ensures
            is_selection(r@, self@, |i: int| lists(positions@, i)),
    {
        let sorted = positions_by_id(self.concepts, &positions);
        let ghost at = as_ints(sorted@);
        let mut out: Vec<&'a Concept> = Vec::new();
        for k in 0..sorted.len()
            invariant
                at == as_ints(sorted@),
                selection(self@, |i: int| lists(positions@, i), at),
                out@.len() == k,
                forall|m: int| 0 <= m < k ==> *(#[trigger] out@[m]) == self@[at[m]],
        {
            assert(at[k as int] == sorted@[k as int]);
            out.push(self.at(sorted[k]));
        }
        out
    }

    /// The concepts of a kind, by id.
    pub fn of_kind(&self, kind: ConceptKind) -> (r: Vec<&'a Concept>)
        requires
            self.wf(),
        ensures
            is_selection(r@, self@, |i: int| self@[i].kind == kind),
    {
        let mut positions: Vec<usize> = Vec::new();
        for i in 0..self.concepts.len()
            invariant
                picked(self@, |i: int| self@[i].kind == kind, i as int, positions@),
        {
            let ghost before = positions@;
            if self.at(i).kind == kind {
                positions.push(i);
            }
            proof {
                lemma_pick_one(self@, |i: int| self@[i].kind == kind, i as int, before, positions@);
            }
        }
        let out = self.sorted_at(positions);
        proof {
            lemma_same_selection(out@, self@, |i: int| lists(positions@, i), |i: int| self@[i].kind == kind);
        }
        out
    }

    /// The public concepts, by id, without containers and documentation.
    pub fn public_api(&self) -> (r: Vec<&'a Concept>)
        requires
            self.wf(),
        ensures
            is_selection(r@, self@, |i: int| self@[i].is_public && !structural(self@[i].kind)),
            are_all_that(r@, self@, |c: Concept| c.is_public && is_declared(c)),
    {
        let mut positions: Vec<usize> = Vec::new();
        for i in 0..self.concepts.len()
            invariant
                picked(self@, |i: int| self@[i].is_public && !structural(self@[i].kind), i as int, positions@),
        {
            let ghost before = positions@;
            let c = self.at(i);
            if c.is_public && !is_structural(c.kind) {
                positions.push(i);
            }
            proof {
                lemma_pick_one(self@, |i: int| self@[i].is_public && !structural(self@[i].kind), i as int, before, positions@);
            }
        }
        let out = self.sorted_at(positions);
        proof {
            lemma_same_selection(out@, self@, |i: int| lists(positions@, i), |i: int| self@[i].is_public && !structural(self@[i].kind));
            the_interface_is_what_is_public(out@, self@);
        }
        out
    }

    /// The concepts that neither call nor are called, by id, without
    /// containers and documentation.
    pub fn isolated_concepts(&self) -> (r: Vec<&'a Concept>)
        requires
            self.wf(),
        ensures
            is_selection(r@, self@, |i: int| !structural(self@[i].kind) && !has_call_edge(self@[i])),
            are_all_that(r@, self@, |c: Concept| is_declared(c) && has_no_call(c)),
    {
        let mut positions: Vec<usize> = Vec::new();
        for i in 0..self.concepts.len()
            invariant
                picked(self@, |i: int| !structural(self@[i].kind) && !has_call_edge(self@[i]), i as int, positions@),
        {
            let ghost before = positions@;
            let c = self.at(i);
            if !is_structural(c.kind) && !calls_or_called(c) {
                positions.push(i);
            }
            proof {
                lemma_pick_one(self@, |i: int| !structural(self@[i].kind) && !has_call_edge(self@[i]), i as int, before, positions@);
            }
        }
        let out = self.sorted_at(positions);
        proof {
            lemma_same_selection(out@, self@, |i: int| lists(positions@, i), |i: int| !structural(self@[i].kind) && !has_call_edge(self@[i]));
            isolated_is_what_has_no_call(out@, self@);
        }
        out
    }

    /// The pairs of different modules of which the first calls into the
    /// second, in order, each once.
    pub fn module_dependencies(&self) -> (r: Vec<(&'a str, &'a str)>)
        requires
            self.wf(),
        ensures
            strictly_sorted_pairs(pair_views(r@)),
            forall|p: (Seq<char>, Seq<char>)| #[trigger] pair_views(r@).contains(p) <==> module_calls(self@, p.0, p.1),
    {
        let mut pairs: Vec<(&'a str, &'a str)> = Vec::new();
        for i in 0..self.concepts.len()
            invariant
                self.wf(),
                forall|p: (Seq<char>, Seq<char>)| #[trigger] pair_views(pairs@).contains(p) <==> exists|a: int, j: int| 0 <= a < i && #[trigger] module_call_at(self@, a, j, p.0, p.1),
        {
            let c = self.at(i);
            let ghost before = pair_views(pairs@);
            for j in 0..c.relationships.len()
                invariant
                    self.wf(),
                    i < self@.len(),
                    *c == self@[i as int],
                    forall|p: (Seq<char>, Seq<char>)| #[trigger] before.contains(p) <==> exists|a: int, j: int| 0 <= a < i && #[trigger] module_call_at(self@, a, j, p.0, p.1),
                    forall|p: (Seq<char>, Seq<char>)| #[trigger] pair_views(pairs@).contains(p) <==> before.contains(p) || exists|b: int| 0 <= b < j && #[trigger] module_call_at(self@, i as int, b, p.0, p.1),
            {
                let rel = &c.relationships[j];
                let ghost mid = pair_views(pairs@);
                if rel.kind == RelationKind::Calls {
                    if let (Some(from), Some(to)) = (self.owning_module(c.id.as_str()), self.owning_module(rel.target.as_str())) {
                        if !same(from.id.as_str(), to.id.as_str()) {
                            pairs.push((from.id.as_str(), to.id.as_str()));
                            assert(pair_views(pairs@) =~= mid.push((from.id@, to.id@)));
                            assert(module_call_at(self@, i as int, j as int, from.id@, to.id@));
                        }
                    }
                }
                proof {
                    let after = pair_views(pairs@);
                    assert forall|p: (Seq<char>, Seq<char>)| #[trigger] after.contains(p) <==> before.contains(p) || exists|b: int| 0 <= b < j + 1 && #[trigger] module_call_at(self@, i as int, b, p.0, p.1) by {
                        if after.contains(p) && !mid.contains(p) {
                            let k = choose|k: int| 0 <= k < after.len() && after[k] == p;
                            if k < mid.len() {
                                assert(mid[k] == p);
                            }
                            assert(module_call_at(self@, i as int, j as int, p.0, p.1));
                        }
                        if mid.contains(p) {
                            let k = choose|k: int| 0 <= k < mid.len() && mid[k] == p;
                            assert(after[k] == p);
                        }
                        if module_call_at(self@, i as int, j as int, p.0, p.1) {
                            assert(after[mid.len() as int] == p);
                        }
                    }
                }
            }
            proof {
                let after = pair_views(pairs@);
                assert forall|p: (Seq<char>, Seq<char>)| #[trigger] after.contains(p) <==> exists|a: int, j: int| 0 <= a < i + 1 && #[trigger] module_call_at(self@, a, j, p.0, p.1) by {
                    if after.contains(p) && !before.contains(p) {
                        let b = choose|b: int| 0 <= b < c.relationships@.len() && #[trigger] module_call_at(self@, i as int, b, p.0, p.1);
                        assert(module_call_at(self@, i as int, b, p.0, p.1));
                    }
                    if exists|a: int, j: int| 0 <= a < i + 1 && #[trigger] module_call_at(self@, a, j, p.0, p.1) {
                        let (a, j) = choose|a: int, j: int| 0 <= a < i + 1 && #[trigger] module_call_at(self@, a, j, p.0, p.1);
                        if a < i {
                            assert(before.contains(p));
                        } else {
                            assert(module_call_at(self@, i as int, j, p.0, p.1));
                        }
                    }
                }
            }
        }
        proof {
            assert forall|p: (Seq<char>, Seq<char>)| #[trigger] pair_views(pairs@).contains(p) <==> module_calls(self@, p.0, p.1) by {
                if module_calls(self@, p.0, p.1) {
                    let (a, j) = choose|a: int, j: int| #[trigger] module_call_at(self@, a, j, p.0, p.1);
                    assert(0 <= a < self@.len());
                }
            }
        }
        sorted_pairs(&pairs)
    }

    /// The concepts declared in a module's file, without those that share its
    /// id, in the order of the bundle; nothing for an id that is no module.
    pub fn members_of(&self, module_id: &str) -> (r: Vec<&'a Concept>)
        requires
            self.wf(),
        ensures
            are_at(r@, self@, members_at(self@, module_id@, self@.len())),
    {
        let mut out: Vec<&'a Concept> = Vec::new();
        if let Some(m) = self.position(module_id) {
            let module = self.at(m);
            if module.kind == ConceptKind::Module {
                for i in 0..self.concepts.len()
                    invariant
                        self.wf(),
                        find(self@, module_id@) == Some(m as int),
                        m < self@.len(),
                        *module == self@[m as int],
                        module.kind == ConceptKind::Module,
                        are_at(out@, self@, members_at(self@, module_id@, i as nat)),
                {
                    let c = self.at(i);
                    if !same(c.id.as_str(), module.id.as_str()) && same(c.location.file.as_str(), module.location.file.as_str()) {
                        out.push(c);
                    }
                }
            } else {
                proof {
                    lemma_no_members(self@, module_id@, self@.len());
                }
            }
        } else {
            proof {
                lemma_no_members(self@, module_id@, self@.len());
            }
        }
        out
    }
}

/// The positions below `n` of the members of a module.
pub open spec fn members_at(cs: Seq<Concept>, module_id: Seq<char>, n: nat) -> Seq<int>
    decreases n,
{
    if n == 0 {
        Seq::empty()
    } else {
        let rest = members_at(cs, module_id, (n - 1) as nat);
        if is_member(cs, module_id, n - 1) {
            rest.push(n - 1)
        } else {
            rest
        }
    }
}

/// The concept at `i` is declared in the file of this module and is not it.
pub open spec fn is_member(cs: Seq<Concept>, module_id: Seq<char>, i: int) -> bool {
    match find(cs, module_id) {
        Some(m) => cs[m].kind == ConceptKind::Module && cs[i].id@ != cs[m].id@ && cs[i].location.file@ == cs[m].location.file@,
        None => false,
    }
}

proof fn lemma_no_members(cs: Seq<Concept>, module_id: Seq<char>, n: nat)
    requires
        match find(cs, module_id) {
            Some(m) => cs[m].kind != ConceptKind::Module,
            None => true,
        },
    ensures
        members_at(cs, module_id, n) == Seq::<int>::empty(),
    decreases n,
{
    if n > 0 {
        lemma_no_members(cs, module_id, (n - 1) as nat);
    }
}

/// `picked` lists in rising order the positions below `n` that `keep` holds
/// for.
pub open spec fn picked(cs: Seq<Concept>, keep: spec_fn(int) -> bool, n: int, picked: Seq<usize>) -> bool {
    &&& 0 <= n <= cs.len()
    &&& forall|k: int| 0 <= k < picked.len() ==> (#[trigger] picked[k]) < n && keep(picked[k] as int)
    &&& forall|k: int, l: int| 0 <= k < l < picked.len() ==> #[trigger] picked[k] < #[trigger] picked[l]
    &&& forall|i: int| 0 <= i < n && #[trigger] keep(i) ==> lists(picked, i)
}

pub proof fn lemma_pick_one(cs: Seq<Concept>, keep: spec_fn(int) -> bool, n: int, before: Seq<usize>, after: Seq<usize>)
    requires
        picked(cs, keep, n, before),
        n < cs.len(),
        n <= usize::MAX,
        keep(n) ==> after == before.push(n as usize),
        !keep(n) ==> after == before,
    ensures
        picked(cs, keep, n + 1, after),
{
    assert forall|i: int| 0 <= i < n + 1 && #[trigger] keep(i) implies lists(after, i) by {
        if i < n {
            let k = choose|k: int| 0 <= k < before.len() && #[trigger] before[k] == i;
            assert(after[k] == i);
        } else {
            assert(after[before.len() as int] == i);
        }
    }
}

proof fn lemma_same_selection(found: Seq<&Concept>, cs: Seq<Concept>, a: spec_fn(int) -> bool, b: spec_fn(int) -> bool)
    requires
        is_selection(found, cs, a),
        forall|i: int| 0 <= i < cs.len() ==> (#[trigger] a(i) <==> b(i)),
    ensures
        is_selection(found, cs, b),
{
    let at = choose|at: Seq<int>| #[trigger] selection(cs, a, at) && are_at(found, cs, at);
    assert forall|i: int| 0 <= i < cs.len() && #[trigger] b(i) implies at.contains(i) by {
        assert(a(i));
    }
    assert forall|k: int| 0 <= k < at.len() implies 0 <= #[trigger] at[k] < cs.len() && b(at[k]) by {
        assert(a(at[k]));
    }
    assert(selection(cs, b, at));
}

/// Whether the concept calls or is called.
fn calls_or_called(c: &Concept) -> (r: bool)
    ensures
        r == has_call_edge(*c),
{
    for j in 0..c.relationships.len()
        invariant
            forall|k: int| 0 <= k < j ==> !is_call_kind((#[trigger] c.relationships@[k]).kind),
    {
        if matches!(c.relationships[j].kind, RelationKind::Calls | RelationKind::CalledBy) {
            return true;
        }
    }
    false
}

/// Relationship `j` of concept `i` is a call from module `from` into another
/// module `to`.
pub open spec fn module_call_at(cs: Seq<Concept>, i: int, j: int, from: Seq<char>, to: Seq<char>) -> bool {
    &&& 0 <= i < cs.len()
    &&& 0 <= j < cs[i].relationships@.len()
    &&& cs[i].relationships@[j].kind == RelationKind::Calls
    &&& owning_module_of(cs, cs[i].id@) matches Some(f) && cs[f].id@ == from
    &&& owning_module_of(cs, cs[i].relationships@[j].target@) matches Some(t) && cs[t].id@ == to
    &&& from != to
}

/// Something in module `from` calls something in another module `to`.
pub open spec fn module_calls(cs: Seq<Concept>, from: Seq<char>, to: Seq<char>) -> bool {
    exists|i: int, j: int| #[trigger] module_call_at(cs, i, j, from, to)
}

/// The concept with id `a` is related in this way to the one with id `b`.
pub open spec fn is_related(cs: Seq<Concept>, kind: RelationKind, a: Seq<char>, b: Seq<char>) -> bool {
    exists|k: int| 0 <= k < related_of(cs, a, kind).len() && cs[#[trigger] related_of(cs, a, kind)[k]].id@ == b
}

/// The relation between ids that relationships of this kind make.
pub open spec fn relation(cs: Seq<Concept>, kind: RelationKind) -> spec_fn(Seq<char>, Seq<char>) -> bool {
    |a: Seq<char>, b: Seq<char>| is_related(cs, kind, a, b)
}

/// Relationships of a kind as a graph on positions.
pub open spec fn relation_graph(cs: Seq<Concept>, kind: RelationKind) -> Seq<Seq<usize>> {
    Seq::new(cs.len(), |i: int| targets_in(cs, cs[i].relationships@, kind).map_values(|t: int| t as usize))
}

/// The ids at these positions.
pub open spec fn ids_at(cs: Seq<Concept>, at: Seq<usize>) -> Seq<Seq<char>> {
    at.map_values(|x: usize| cs[x as int].id@)
}

/// The ids are those of the first of the shortest chains of calls from the
/// concept at `i` to the one at `j`.
pub open spec fn is_shortest_chain(cs: Seq<Concept>, i: int, j: int, names: Seq<Seq<char>>) -> bool {
    exists|p: Seq<usize>| #[trigger] is_shortest_walk(relation_graph(cs, RelationKind::Calls), i, j, p) && names == ids_at(cs, p)
}

/// The id is in the bundle.
pub open spec fn known(cs: Seq<Concept>, id: Seq<char>) -> bool {
    find(cs, id) is Some
}

/// The concept is on a cycle of the relation: it leads to itself directly, or
/// to another concept and back.
pub open spec fn on_cycle(cs: Seq<Concept>, rel: spec_fn(Seq<char>, Seq<char>) -> bool, id: Seq<char>) -> bool {
    known(cs, id) && (rel(id, id) || exists|other: Seq<char>| other != id && #[trigger] entwined(rel, id, other))
}

/// The position is the one that its id is found at.
pub open spec fn canonical(cs: Seq<Concept>, i: int) -> bool {
    0 <= i < cs.len() && find(cs, cs[i].id@) == Some(i)
}

proof fn lemma_canonical(cs: Seq<Concept>)
    ensures
        forall|i: int, j: int| #[trigger] canonical(cs, i) && #[trigger] canonical(cs, j) && cs[i].id@ == cs[j].id@ ==> i == j,
{
}

impl<'a> Graph<'a> {
    fn names(&self) -> (r: Vec<&'a str>)
        ensures
            str_views(r@) == ids(self@),
    {
        let mut out: Vec<&'a str> = Vec::new();
        for i in 0..self.concepts.len()
            invariant
                out@.len() == i,
                forall|k: int| 0 <= k < i ==> (#[trigger] out@[k])@ == self@[k].id@,
        {
            out.push(self.at(i).id.as_str());
        }
        assert(str_views(out@) =~= ids(self@));
        out
    }

    fn roots(&self) -> (r: Vec<usize>)
        requires
            self.wf(),
        ensures
            forall|k: int| 0 <= k < r@.len() ==> canonical(self@, #[trigger] r@[k] as int),
            forall|i: int| #[trigger] canonical(self@, i) ==> lists(r@, i),
    {
        let mut out: Vec<usize> = Vec::new();
        for i in 0..self.concepts.len()
            invariant
                self.wf(),
                forall|k: int| 0 <= k < out@.len() ==> canonical(self@, #[trigger] out@[k] as int),
                forall|j: int| #[trigger] canonical(self@, j) && j < i ==> lists(out@, j),
        {
            let ghost before = out@;
            if let Some(at) = self.position(self.at(i).id.as_str()) {
                if at == i {
                    out.push(i);
                    assert(out@[before.len() as int] == i);
                }
            }
            assert forall|j: int| #[trigger] canonical(self@, j) && j < i + 1 implies lists(out@, j) by {
                if j < i {
                    let k = choose|k: int| 0 <= k < before.len() && #[trigger] before[k] == j;
                    assert(out@[k] == j);
                }
            }
        }
        out
    }

    /// The relationships of a kind as a graph on positions.
    fn adjacency(&self, kind: RelationKind) -> (r: Vec<Vec<usize>>)
        requires
            self.wf(),
        ensures
            r@.len() == self@.len(),
            graph_ok(arcs(r@)),
            pictures(arcs(r@), ids(self@), |i: int| canonical(self@, i), relation(self@, kind)),
            arcs(r@) == relation_graph(self@, kind),
    {
        let mut out: Vec<Vec<usize>> = Vec::new();
        for i in 0..self.concepts.len()
            invariant
                self.wf(),
                out@.len() == i,
                forall|k: int| 0 <= k < i ==> (#[trigger] out@[k])@.map_values(|x: usize| x as int) == targets_in(self@, self@[k].relationships@, kind),
                forall|u: int, k: int| 0 <= u < out@.len() && 0 <= k < out@[u]@.len() ==> (#[trigger] out@[u]@[k]) < self@.len(),
        {
            out.push(self.targets(i, kind));
        }
        proof {
            let cs = self@;
            let g = arcs(out@);
            assert forall|i: int| 0 <= i < g.len() implies g[i] == relation_graph(cs, kind)[i] by {
                let ts = targets_in(cs, cs[i].relationships@, kind);
                assert forall|k: int| 0 <= k < g[i].len() implies #[trigger] g[i][k] == ts[k] as usize by {
                    assert(out@[i]@.map_values(|x: usize| x as int)[k] == ts[k]);
                }
                assert(g[i] =~= ts.map_values(|t: int| t as usize));
            }
            assert(g =~= relation_graph(cs, kind));
            let rel = relation(cs, kind);
            let inside = |i: int| canonical(cs, i);
            lemma_canonical(cs);
            assert forall|u: int, k: int| 0 <= u < g.len() && 0 <= k < g[u].len() implies (#[trigger] g[u][k]) < g.len() by {
                assert(out@[u]@[k] < self@.len());
            }
            assert forall|u: int, w: int| inside(u) && #[trigger] edge(g, u, w) implies inside(w) && rel(ids(cs)[u], ids(cs)[w]) by {
                let k = choose|k: int| 0 <= k < g[u].len() && (#[trigger] g[u][k]) == w;
                let ts = targets_in(cs, cs[u].relationships@, kind);
                assert(out@[u]@.map_values(|x: usize| x as int)[k] == w);
                lemma_targets(cs, cs[u].relationships@, kind);
                assert(ts[k] == w);
                assert(related_of(cs, cs[u].id@, kind)[k] == w);
            }
            assert forall|u: int, t: Seq<char>| inside(u) && #[trigger] rel(ids(cs)[u], t) implies exists|w: int| edge(g, u, w) && ids(cs)[w] == t by {
                assert(is_related(cs, kind, cs[u].id@, t));
                let k = choose|k: int| 0 <= k < related_of(cs, cs[u].id@, kind).len() && cs[#[trigger] related_of(cs, cs[u].id@, kind)[k]].id@ == t;
                let w = related_of(cs, cs[u].id@, kind)[k];
                lemma_targets(cs, cs[u].relationships@, kind);
                assert(targets_in(cs, cs[u].relationships@, kind)[k] == w);
                assert(out@[u]@.map_values(|x: usize| x as int)[k] == w);
                assert(g[u][k] == w);
                assert(edge(g, u, w));
                assert(ids(cs)[w] == t);
            }
        }
        out
    }

    /// The names of the nodes on cycles, in groups, when the graph on
    /// positions pictures the relation.
    fn cycle_groups(&self, adj: &Vec<Vec<usize>>, Ghost(rel): Ghost<spec_fn(Seq<char>, Seq<char>) -> bool>) -> (r: Vec<Vec<&'a str>>)
        requires
            self.wf(),
            adj@.len() == self@.len(),
            graph_ok(arcs(adj@)),
            pictures(arcs(adj@), ids(self@), |i: int| canonical(self@, i), rel),
        ensures
            is_grouping(group_views(r@), |t: Seq<char>| on_cycle(self@, rel, t), |s: Seq<char>, t: Seq<char>| entwined(rel, s, t)),
    {
        let roots = self.roots();
        let ghost g = arcs(adj@);
        let ghost cs = self@;
        let ghost names = ids(cs);
        let ghost inside = |i: int| canonical(cs, i);
        let groups = cycles(adj, &roots);
        let names_v = self.names();
        let ghost gs = arcs(groups@);
        proof {
            lemma_canonical(cs);
            assert forall|x: int, c: int, k: int| #[trigger] placed(gs, x, c, k) implies canonical(cs, x) by {
                let r = choose|r: int| 0 <= r < roots@.len() && reaches(g, #[trigger] roots@[r] as int, x);
                assert(inside(roots@[r] as int));
                lemma_picture_closed(g, names, inside, rel, roots@[r] as int, x);
            }
            assert forall|c: int, k: int| 0 <= c < groups@.len() && 0 <= k < groups@[c]@.len() implies (#[trigger] groups@[c]@[k]) < names_v@.len() by {
                assert(placed(gs, groups@[c]@[k] as int, c, k));
            }
            assert forall|c: int| 0 <= c < groups@.len() implies (#[trigger] groups@[c])@.len() > 0 by {
                assert(gs[c].len() > 0);
            }
            assert forall|c: int, k: int, d: int, l: int| 0 <= c < d < groups@.len() && 0 <= k < groups@[c]@.len() && 0 <= l < groups@[d]@.len()
                implies names_v@[#[trigger] groups@[c]@[k] as int]@ != names_v@[#[trigger] groups@[d]@[l] as int]@ by {
                let (x, y) = (groups@[c]@[k] as int, groups@[d]@[l] as int);
                assert(placed(gs, x, c, k) && placed(gs, y, d, l));
                assert(names_v@[x]@ == str_views(names_v@)[x]);
                assert(names_v@[y]@ == str_views(names_v@)[y]);
                lemma_reaches_self(g, x);
            }
        }
        let out = name_groups(&groups, &names_v);
        let count: usize = groups.len();
        proof {
            let named = group_views(out@);
            let perm = choose|perm: Seq<usize>| is_naming(gs, names, named, perm);
            let member = |t: Seq<char>| on_cycle(cs, rel, t);
            let together = |s: Seq<char>, t: Seq<char>| entwined(rel, s, t);
            assert(count == gs.len());
            assert forall|x: int, y: int| canonical(cs, x) && canonical(cs, y) implies (mutual(g, x, y) <==> #[trigger] entwined(rel, names[x], names[y])) by {
                assert(inside(x) && inside(y));
                lemma_picture(g, names, inside, rel, x, y);
                lemma_picture(g, names, inside, rel, y, x);
            }
            assert forall|x: int| canonical(cs, x) implies (#[trigger] cyclic(g, x) <==> on_cycle(cs, rel, names[x])) by {
                self.lemma_on_cycle(g, rel, x);
            }
            assert forall|x: int, c: int, k: int| #[trigger] placed(gs, x, c, k) implies member(names[x]) by {
                assert(cyclic(g, x));
            }
            assert forall|t: Seq<char>| #[trigger] member(t) implies exists|x: int, c: int, k: int| placed(gs, x, c, k) && names[x] == t by {
                lemma_find(cs, t);
                let x = find(cs, t)->0;
                assert(canonical(cs, x));
                assert(lists(roots@, x));
                let r = choose|r: int| 0 <= r < roots@.len() && #[trigger] roots@[r] == x;
                lemma_reaches_self(g, x);
                assert(reached(g, roots@, x));
                assert(cyclic(g, x));
                let (c, k) = choose|c: int, k: int| placed(gs, x, c, k);
                assert(placed(gs, x, c, k) && names[x] == t);
            }
            assert forall|x: int, y: int, c: int, k: int, d: int, l: int| #[trigger] placed(gs, x, c, k) && #[trigger] placed(gs, y, d, l)
                implies (c == d <==> together(names[x], names[y])) by {
                assert(mutual(g, x, y) <==> entwined(rel, names[x], names[y]));
            }
            lemma_named_grouping(gs, names, named, perm, member, together);
        }
        out
    }

    proof fn lemma_on_cycle(&self, g: Seq<Seq<usize>>, rel: spec_fn(Seq<char>, Seq<char>) -> bool, x: int)
        requires
            pictures(g, ids(self@), |i: int| canonical(self@, i), rel),
            canonical(self@, x),
        ensures
            cyclic(g, x) <==> on_cycle(self@, rel, ids(self@)[x]),
    {
        let cs = self@;
        let names = ids(cs);
        let inside = |i: int| canonical(cs, i);
        let id = names[x];
        assert(inside(x));
        if edge(g, x, x) {
            assert(rel(id, id));
        }
        if rel(id, id) {
            let w = choose|w: int| edge(g, x, w) && names[w] == id;
            assert(inside(w));
            assert(w == x);
        }
        if exists|y: int| y != x && #[trigger] mutual(g, x, y) {
            let y = choose|y: int| y != x && #[trigger] mutual(g, x, y);
            lemma_picture_closed(g, names, inside, rel, x, y);
            assert(inside(y));
            lemma_picture(g, names, inside, rel, x, y);
            lemma_picture(g, names, inside, rel, y, x);
            assert(names[y] != id && entwined(rel, id, names[y]));
        }
        if exists|other: Seq<char>| other != id && #[trigger] entwined(rel, id, other) {
            let other = choose|other: Seq<char>| other != id && #[trigger] entwined(rel, id, other);
            reveal(leads_to);
            let n = choose|n: nat| steps_to(rel, id, other, n);
            let y = lemma_picture_target(g, names, inside, rel, x, other, n);
            lemma_picture(g, names, inside, rel, x, y);
            lemma_picture(g, names, inside, rel, y, x);
            assert(y != x && mutual(g, x, y));
        }
    }

    /// The groups of concepts that call each other in a cycle, or one that
    /// calls itself.
    pub fn cycles(&self) -> (r: Vec<Vec<&'a str>>)
        requires
            self.wf(),
        ensures
            is_grouping(
                group_views(r@),
                |t: Seq<char>| on_cycle(self@, relation(self@, RelationKind::Calls), t),
                |s: Seq<char>, t: Seq<char>| entwined(relation(self@, RelationKind::Calls), s, t),
            ),
    {
        let adj = self.adjacency(RelationKind::Calls);
        self.cycle_groups(&adj, Ghost(relation(self@, RelationKind::Calls)))
    }
}

/// Relationship `j` of concept `c` is a call, one way or the other, between
/// the concepts with ids `a` and `b`, both in the bundle.
pub open spec fn link_at(cs: Seq<Concept>, c: int, j: int, a: Seq<char>, b: Seq<char>) -> bool {
    &&& 0 <= c < cs.len()
    &&& 0 <= j < cs[c].relationships@.len()
    &&& is_call_kind(cs[c].relationships@[j].kind)
    &&& known(cs, cs[c].relationships@[j].target@)
    &&& (cs[c].id@ == a && cs[c].relationships@[j].target@ == b) || (cs[c].id@ == b && cs[c].relationships@[j].target@ == a)
}

/// A call, in either direction, links the two concepts.
pub open spec fn linked(cs: Seq<Concept>, a: Seq<char>, b: Seq<char>) -> bool {
    exists|c: int, j: int| #[trigger] link_at(cs, c, j, a, b)
}

/// Being linked by a call, as a relation.
pub open spec fn call_links(cs: Seq<Concept>) -> spec_fn(Seq<char>, Seq<char>) -> bool {
    |a: Seq<char>, b: Seq<char>| linked(cs, a, b)
}

/// A call links the concept to some concept, perhaps itself.
pub open spec fn has_link(cs: Seq<Concept>, id: Seq<char>) -> bool {
    exists|other: Seq<char>| #[trigger] linked(cs, id, other)
}

proof fn lemma_links(cs: Seq<Concept>, id: Seq<char>)
    ensures
        forall|a: Seq<char>, b: Seq<char>| #[trigger] call_links(cs)(a, b) ==> call_links(cs)(b, a),
        on_cycle(cs, call_links(cs), id) <==> has_link(cs, id),
{
    let rel = call_links(cs);
    assert forall|a: Seq<char>, b: Seq<char>| #[trigger] rel(a, b) implies rel(b, a) by {
        let (c, j) = choose|c: int, j: int| #[trigger] link_at(cs, c, j, a, b);
        assert(link_at(cs, c, j, b, a));
    }
    if has_link(cs, id) {
        let other = choose|other: Seq<char>| #[trigger] linked(cs, id, other);
        let (c, j) = choose|c: int, j: int| #[trigger] link_at(cs, c, j, id, other);
        lemma_last_of(ids(cs), id);
        assert(ids(cs)[c] == cs[c].id@);
        assert(known(cs, id));
        assert(rel(id, other));
        lemma_leads_one(rel, id, other);
        lemma_leads_back(rel, id, other);
        assert(other != id ==> entwined(rel, id, other));
    }
    if on_cycle(cs, rel, id) {
        if rel(id, id) {
            assert(linked(cs, id, id));
        } else {
            let other = choose|other: Seq<char>| other != id && #[trigger] entwined(rel, id, other);
            reveal(leads_to);
            let n = choose|n: nat| steps_to(rel, id, other, n);
            assert(n > 0);
            let next = choose|next: Seq<char>| #[trigger] rel(id, next) && steps_to(rel, next, other, (n - 1) as nat);
            assert(linked(cs, id, next));
        }
    }
}

impl<'a> Graph<'a> {
    /// Call links as a graph on positions.
    fn link_adjacency(&self) -> (r: Vec<Vec<usize>>)
        requires
            self.wf(),
        ensures
            r@.len() == self@.len(),
            graph_ok(arcs(r@)),
            pictures(arcs(r@), ids(self@), |i: int| canonical(self@, i), call_links(self@)),
    {
        let ghost cs = self@;
        let n: usize = self.concepts.len();
        let mut adj: Vec<Vec<usize>> = Vec::new();
        for i in 0..n
            invariant
                adj@.len() == i,
                forall|u: int| 0 <= u < i ==> (#[trigger] adj@[u])@.len() == 0,
        {
            adj.push(Vec::new());
        }
        for i in 0..n
            invariant
                self.wf(),
                cs == self@,
                n == cs.len(),
                adj@.len() == n,
                links_ok(cs, arcs(adj@)),
                links_done(cs, arcs(adj@), i as int, 0),
        {
            let c = self.at(i);
            let from: Option<usize> = self.position(c.id.as_str());
            proof {
                lemma_last_of(ids(cs), c.id@);
                assert(ids(cs)[i as int] == c.id@);
            }
            if let Some(p) = from {
                for j in 0..c.relationships.len()
                    invariant
                        self.wf(),
                        cs == self@,
                        n == cs.len(),
                        i < n,
                        *c == cs[i as int],
                        p < n,
                        find(cs, c.id@) == Some(p as int),
                        adj@.len() == n,
                        links_ok(cs, arcs(adj@)),
                        links_done(cs, arcs(adj@), i as int, j as int),
                {
                    let rel = &c.relationships[j];
                    let ghost before = arcs(adj@);
                    if matches!(rel.kind, RelationKind::Calls | RelationKind::CalledBy) {
                        if let Some(t) = self.position(rel.target.as_str()) {
                            adj[p].push(t);
                            let ghost mid = arcs(adj@);
                            assert(mid =~= before.update(p as int, before[p as int].push(t)));
                            adj[t].push(p);
                            assert(arcs(adj@) =~= mid.update(t as int, mid[t as int].push(p)));
                            proof {
                                lemma_find(cs, c.id@);
                                lemma_find(cs, rel.target@);
                                assert(link_at(cs, i as int, j as int, c.id@, rel.target@));
                                assert(link_at(cs, i as int, j as int, rel.target@, c.id@));
                                lemma_link_step(cs, before, arcs(adj@), p, t);
                            }
                        }
                    }
                    proof {
                        assert forall|u: int, x: int| 0 <= u < n && #[trigger] lists(before[u], x) implies lists(arcs(adj@)[u], x) by {
                            let k = choose|k: int| 0 <= k < before[u].len() && #[trigger] before[u][k] == x;
                            assert(arcs(adj@)[u][k] == x);
                        }
                        assert(links_done(cs, arcs(adj@), i as int, j + 1)) by {
                            assert forall|a: int, b: int, u: int, w: int| #[trigger] link_between(cs, a, b, u, w) && (a < i || (a == i && b < j + 1)) implies lists(arcs(adj@)[u], w) && lists(arcs(adj@)[w], u) by {
                                lemma_find(cs, cs[a].id@);
                                lemma_find(cs, cs[a].relationships@[b].target@);
                                if a < i || b < j {
                                    assert(lists(before[u], w) && lists(before[w], u));
                                }
                            }
                        }
                    }
                }
            }
            proof {
                assert(links_done(cs, arcs(adj@), i + 1, 0)) by {
                    assert forall|a: int, b: int, u: int, w: int| #[trigger] link_between(cs, a, b, u, w) && (a < i + 1 || (a == i + 1 && b < 0)) implies lists(arcs(adj@)[u], w) && lists(arcs(adj@)[w], u) by {}
                }
            }
        }
        proof {
            lemma_links_picture(cs, arcs(adj@));
        }
        adj
    }

    /// The groups of concepts that calls link, directly or through others.
    /// Concepts without a link are left out.
    pub fn connected_components(&self) -> (r: Vec<Vec<&'a str>>)
        requires
            self.wf(),
        ensures
            is_grouping(
                group_views(r@),
                |t: Seq<char>| has_link(self@, t),
                |s: Seq<char>, t: Seq<char>| leads_to(call_links(self@), s, t),
            ),
    {
        let adj = self.link_adjacency();
        let out = self.cycle_groups(&adj, Ghost(call_links(self@)));
        proof {
            let cs = self@;
            let rel = call_links(cs);
            let groups = group_views(out@);
            let member = |t: Seq<char>| on_cycle(cs, rel, t);
            let together = |s: Seq<char>, t: Seq<char>| entwined(rel, s, t);
            let linked_to = |t: Seq<char>| has_link(cs, t);
            let joined = |s: Seq<char>, t: Seq<char>| leads_to(rel, s, t);
            assert forall|t: Seq<char>| member(t) <==> #[trigger] linked_to(t) by {
                lemma_links(cs, t);
            }
            assert forall|s: Seq<char>, t: Seq<char>| together(s, t) <==> #[trigger] joined(s, t) by {
                lemma_links(cs, t);
                if joined(s, t) {
                    lemma_leads_back(rel, s, t);
                }
            }
            assert forall|g: int, t: Seq<char>| #[trigger] in_group(groups, g, t) implies linked_to(t) by {
                assert(member(t));
            }
            assert forall|t: Seq<char>| #[trigger] linked_to(t) implies exists|g: int| in_group(groups, g, t) by {
                assert(member(t));
            }
            assert forall|g: int, h: int, s: Seq<char>, t: Seq<char>| #[trigger] in_group(groups, g, s) && #[trigger] in_group(groups, h, t) implies (g == h <==> joined(s, t)) by {
                assert(together(s, t) <==> joined(s, t));
            }
            assert(is_grouping(groups, linked_to, joined));
        }
        out
    }
}

/// Relationship `b` of concept `a` is a call between positions `u` and `w`.
spec fn link_between(cs: Seq<Concept>, a: int, b: int, u: int, w: int) -> bool {
    &&& 0 <= a < cs.len()
    &&& 0 <= b < cs[a].relationships@.len()
    &&& is_call_kind(cs[a].relationships@[b].kind)
    &&& find(cs, cs[a].id@) == Some(u)
    &&& find(cs, cs[a].relationships@[b].target@) == Some(w)
}

/// Every listed neighbour is a linked one.
spec fn links_ok(cs: Seq<Concept>, g: Seq<Seq<usize>>) -> bool {
    forall|u: int, w: int| 0 <= u < g.len() && #[trigger] lists(g[u], w) ==> canonical(cs, u) && canonical(cs, w) && linked(cs, cs[u].id@, cs[w].id@)
}

/// The relationships before number `j` of concept `i` are listed.
spec fn links_done(cs: Seq<Concept>, g: Seq<Seq<usize>>, i: int, j: int) -> bool {
    forall|a: int, b: int, u: int, w: int| #[trigger] link_between(cs, a, b, u, w) && (a < i || (a == i && b < j)) ==> lists(g[u], w) && lists(g[w], u)
}

proof fn lemma_link_step(cs: Seq<Concept>, before: Seq<Seq<usize>>, after: Seq<Seq<usize>>, p: usize, t: usize)
    requires
        links_ok(cs, before),
        before.len() == cs.len(),
        p < before.len(),
        t < before.len(),
        canonical(cs, p as int),
        canonical(cs, t as int),
        linked(cs, cs[p as int].id@, cs[t as int].id@),
        linked(cs, cs[t as int].id@, cs[p as int].id@),
        after == before.update(p as int, before[p as int].push(t)).update(
            t as int,
            before.update(p as int, before[p as int].push(t))[t as int].push(p),
        ),
    ensures
        links_ok(cs, after),
        lists(after[p as int], t as int),
        lists(after[t as int], p as int),
{
    assert forall|u: int, w: int| 0 <= u < after.len() && #[trigger] lists(after[u], w) implies canonical(cs, u) && canonical(cs, w) && linked(cs, cs[u].id@, cs[w].id@) by {
        let k = choose|k: int| 0 <= k < after[u].len() && #[trigger] after[u][k] == w;
        if k < before[u].len() {
            assert(before[u][k] == w);
            assert(lists(before[u], w));
        } else if u == p && k == before[u].len() {
            assert(w == t || w == p);
            if p != t {
                assert(w == t);
            }
        } else {
            assert(u == t && w == p);
        }
    }
    let mid = before.update(p as int, before[p as int].push(t));
    assert(mid[p as int][before[p as int].len() as int] == t);
    if p != t {
        assert(after[p as int][before[p as int].len() as int] == t);
        assert(after[t as int][before[t as int].len() as int] == p);
    } else {
        assert(after[p as int][before[p as int].len() as int] == t);
    }
}

proof fn lemma_links_picture(cs: Seq<Concept>, g: Seq<Seq<usize>>)
    requires
        g.len() == cs.len(),
        links_ok(cs, g),
        links_done(cs, g, cs.len() as int, 0),
    ensures
        graph_ok(g),
        pictures(g, ids(cs), |i: int| canonical(cs, i), call_links(cs)),
{
    let rel = call_links(cs);
    let inside = |i: int| canonical(cs, i);
    let names = ids(cs);
    assert forall|u: int, k: int| 0 <= u < g.len() && 0 <= k < g[u].len() implies (#[trigger] g[u][k]) < g.len() by {
        assert(lists(g[u], g[u][k] as int));
    }
    assert forall|u: int, w: int| inside(u) && #[trigger] edge(g, u, w) implies inside(w) && rel(names[u], names[w]) by {
        let k = choose|k: int| 0 <= k < g[u].len() && (#[trigger] g[u][k]) == w;
        assert(lists(g[u], w));
    }
    assert forall|u: int, t: Seq<char>| inside(u) && #[trigger] rel(names[u], t) implies exists|w: int| edge(g, u, w) && names[w] == t by {
        let (c, j) = choose|c: int, j: int| #[trigger] link_at(cs, c, j, names[u], t);
        lemma_find(cs, cs[c].id@);
        lemma_find(cs, cs[c].relationships@[j].target@);
        lemma_last_of(ids(cs), cs[c].id@);
        assert(ids(cs)[c] == cs[c].id@);
        let a = find(cs, cs[c].id@)->0;
        let b = find(cs, cs[c].relationships@[j].target@)->0;
        assert(link_between(cs, c, j, a, b));
        assert(lists(g[a], b) && lists(g[b], a));
        let w = if cs[c].id@ == names[u] && cs[c].relationships@[j].target@ == t { b } else { a };
        assert(lists(g[u], w));
        let k = choose|k: int| 0 <= k < g[u].len() && #[trigger] g[u][k] == w;
        assert(g[u][k] == w);
        assert(edge(g, u, w) && names[w] == t);
    }
}

/// The concept at `i` is not the one with this id, but a chain of callers, no
/// longer than the limit, leads from there to it.
pub open spec fn affected(cs: Seq<Concept>, id: Seq<char>, limit: Option<usize>, i: int) -> bool {
    &&& canonical(cs, i)
    &&& cs[i].id@ != id
    &&& exists|n: nat| #[trigger] steps_to(relation(cs, RelationKind::CalledBy), id, cs[i].id@, n) && (limit matches Some(m) ==> n <= m)
}

proof fn lemma_affected(cs: Seq<Concept>, g: Seq<Seq<usize>>, p: int, limit: Option<usize>, i: int)
    requires
        pictures(g, ids(cs), |i: int| canonical(cs, i), relation(cs, RelationKind::CalledBy)),
        canonical(cs, p),
        0 <= i < cs.len(),
    ensures
        affected(cs, cs[p].id@, limit, i) <==> near(g, p, i, limit) && i != p,
{
    let rel = relation(cs, RelationKind::CalledBy);
    let names = ids(cs);
    let inside = |i: int| canonical(cs, i);
    assert(inside(p));
    if near(g, p, i, limit) {
        reveal(reaches);
        let n = match limit {
            Some(d) => choose|n: nat| n <= d && #[trigger] reach_in(g, p, i, n),
            None => choose|n: nat| reach_in(g, p, i, n),
        };
        assert(reaches(g, p, i));
        lemma_picture_closed(g, names, inside, rel, p, i);
        lemma_picture_steps(g, names, inside, rel, p, i, n);
        assert(steps_to(rel, cs[p].id@, cs[i].id@, n));
    }
    if affected(cs, cs[p].id@, limit, i) {
        reveal(reaches);
        let n = choose|n: nat| #[trigger] steps_to(rel, cs[p].id@, cs[i].id@, n) && (limit matches Some(m) ==> n <= m);
        assert(inside(i));
        lemma_picture_steps(g, names, inside, rel, p, i, n);
        assert(reach_in(g, p, i, n));
    }
}

proof fn lemma_unknown_affects_nothing(cs: Seq<Concept>, id: Seq<char>, limit: Option<usize>, i: int)
    requires
        find(cs, id) is None,
    ensures
        !affected(cs, id, limit, i),
{
    let rel = relation(cs, RelationKind::CalledBy);
    assert forall|n: nat, t: Seq<char>| #[trigger] steps_to(rel, id, t, n) implies t == id by {
        if n > 0 {
            let w = choose|w: Seq<char>| #[trigger] rel(id, w) && steps_to(rel, w, t, (n - 1) as nat);
            assert(is_related(cs, RelationKind::CalledBy, id, w));
            assert(related_of(cs, id, RelationKind::CalledBy).len() == 0);
        }
    }
}

impl<'a> Graph<'a> {
    /// The concepts that call this one, directly or through others, over at
    /// most `max_depth` calls, by id; never the concept itself.
    pub fn transitive_callers(&self, id: &str, max_depth: Option<usize>) -> (r: Vec<&'a Concept>)
        requires
            self.wf(),
        ensures
            is_selection(r@, self@, |i: int| affected(self@, id@, max_depth, i)),
            forall|t: Seq<char>| #[trigger] lists_id(r@, t) <==> calls_within(self@, id@, max_depth, t),
    {
        let ghost cs = self@;
        let ghost keep = |i: int| affected(cs, id@, max_depth, i);
        let mut positions: Vec<usize> = Vec::new();
        if let Some(p) = self.position(id) {
            let adj = self.adjacency(RelationKind::CalledBy);
            let marks = mark_near(&adj, p, max_depth);
            for i in 0..self.concepts.len()
                invariant
                    cs == self@,
                    keep == (|i: int| affected(cs, id@, max_depth, i)),
                    canonical(cs, p as int),
                    cs[p as int].id@ == id@,
                    pictures(arcs(adj@), ids(cs), |i: int| canonical(cs, i), relation(cs, RelationKind::CalledBy)),
                    marks@.len() == cs.len(),
                    forall|x: int| 0 <= x < marks@.len() ==> (#[trigger] marks@[x] <==> near(arcs(adj@), p as int, x, max_depth)),
                    picked(cs, keep, i as int, positions@),
            {
                let ghost before = positions@;
                if marks[i] && i != p {
                    positions.push(i);
                }
                proof {
                    lemma_affected(cs, arcs(adj@), p as int, max_depth, i as int);
                    lemma_pick_one(cs, keep, i as int, before, positions@);
                }
            }
        } else {
            proof {
                assert forall|i: int| !(#[trigger] keep(i)) by {
                    lemma_unknown_affects_nothing(cs, id@, max_depth, i);
                }
            }
        }
        let out = self.sorted_at(positions);
        proof {
            lemma_same_selection(out@, cs, |i: int| lists(positions@, i), keep);
            callers_are_told_by_chains(out@, cs, id@, max_depth);
        }
        out
    }

    /// The shortest chain of calls from one concept to another, both ends in
    /// it; of several the one that follows the calls listed first.
    pub fn shortest_call_path(&self, from: &str, to: &str) -> (r: Option<Vec<&'a str>>)
        requires
            self.wf(),
        ensures
            match (find(self@, from@), find(self@, to@)) {
                (Some(i), Some(j)) => match r {
                    Some(path) => is_shortest_chain(self@, i, j, str_views(path@)),
                    None => !reaches(relation_graph(self@, RelationKind::Calls), i, j),
                },
                _ => r is None,
            },
    {
        match (self.position(from), self.position(to)) {
            (Some(i), Some(j)) => {
                let adj = self.adjacency(RelationKind::Calls);
                match shortest_walk(&adj, i, j) {
                    Some(walk) => {
                        let ghost g = arcs(adj@);
                        proof {
                            assert forall|k: int| 0 <= k < walk@.len() implies (#[trigger] walk@[k]) < self@.len() by {
                                if k > 0 {
                                    assert(walk_step(g, walk@, k - 1));
                                    let m = choose|m: int| 0 <= m < g[walk@[k - 1] as int].len() && (#[trigger] g[walk@[k - 1] as int][m]) == walk@[k];
                                }
                            }
                        }
                        let mut out: Vec<&'a str> = Vec::new();
                        for k in 0..walk.len()
                            invariant
                                forall|k: int| 0 <= k < walk@.len() ==> (#[trigger] walk@[k]) < self@.len(),
                                out@.len() == k,
                                forall|m: int| 0 <= m < k ==> (#[trigger] out@[m])@ == self@[walk@[m] as int].id@,
                        {
                            out.push(self.at(walk[k]).id.as_str());
                        }
                        assert(str_views(out@) =~= ids_at(self@, walk@));
                        assert(is_shortest_chain(self@, i as int, j as int, str_views(out@)));
                        Some(out)
                    },
                    None => None,
                }
            },
            _ => None,
        }
    }
}

/// Over one call, a change affects exactly the direct callers, and never the
/// concept itself.
pub proof fn one_step_affects_the_callers(cs: Seq<Concept>, id: Seq<char>, i: int)
    ensures
        affected(cs, id, Some(1), i) <==> canonical(cs, i) && cs[i].id@ != id && is_related(cs, RelationKind::CalledBy, id, cs[i].id@),
{
    let rel = relation(cs, RelationKind::CalledBy);
    let t = cs[i].id@;
    if affected(cs, id, Some(1), i) {
        let n = choose|n: nat| #[trigger] steps_to(rel, id, t, n) && n <= 1;
        if n == 1 {
            let w = choose|w: Seq<char>| #[trigger] rel(id, w) && steps_to(rel, w, t, 0);
            assert(w == t);
        }
    }
    if is_related(cs, RelationKind::CalledBy, id, t) {
        assert(rel(id, t) && steps_to(rel, t, t, 0));
        assert(steps_to(rel, id, t, 1));
    }
}

/// What a change affects over some calls, it affects over more calls too, and
/// without a limit.
pub proof fn a_longer_reach_affects_more(cs: Seq<Concept>, id: Seq<char>, near: usize, far: usize, i: int)
    requires
        near <= far,
        affected(cs, id, Some(near), i),
    ensures
        affected(cs, id, Some(far), i),
        affected(cs, id, None, i),
{
    let rel = relation(cs, RelationKind::CalledBy);
    let n = choose|n: nat| #[trigger] steps_to(rel, id, cs[i].id@, n) && n <= near;
    assert(steps_to(rel, id, cs[i].id@, n) && n <= far);
}

/// A concept that calls or is called within the bundle is in a component, even
/// where the call is its own.
pub proof fn a_call_within_the_bundle_is_a_link(cs: Seq<Concept>, i: int, j: int)
    requires
        0 <= i < cs.len(),
        0 <= j < cs[i].relationships@.len(),
        is_call_kind(cs[i].relationships@[j].kind),
        known(cs, cs[i].relationships@[j].target@),
    ensures
        has_link(cs, cs[i].id@),
{
    assert(link_at(cs, i, j, cs[i].id@, cs[i].relationships@[j].target@));
    assert(linked(cs, cs[i].id@, cs[i].relationships@[j].target@));
}

}
