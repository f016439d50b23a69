//! Design patterns that names and structure give away.

use vstd::prelude::*;
use crate::model::{Concept, ConceptKind};
use crate::order::{in_order, sort_order, KeyIndex, SortKey};
use crate::graph::ids;
use crate::order::{gather, key_views, lemma_gather_apart, lemma_gather_holds, lemma_last_of, lemma_order_distinct, lemma_sorting_keeps, lists, goes_before, is_sort_order, sorted_by, str_views, KeyView};
use crate::ownership::{group_methods_by_owner, is_type_kind, methods_of, owner_path, path_after_kind_dir, OwnedMethod};
use crate::ownership::{are_methods, id_path, is_method_on, lists_kept, lists_methods, methods_are_found_by_their_ids, methods_at, methods_lie_under_their_owner, names_method, names_type, owner_of, type_kind, types_lie_behind_their_kind};
use crate::text::{decimal_text, has_prefix, has_suffix, join_texts, lower_text, same};
use crate::text::{begins_with, decimal, ends_like, finishes_with, join, lex_lt, lower, reads_like, small_letters_forget_case, starts_like, texts};

verus! {

/// The patterns that can be found.
#[derive(Clone, Copy, Debug, PartialEq, Eq, Structural)]
pub enum PatternKind {
    Builder,
    Singleton,
    Factory,
    Visitor,
}

impl PatternKind {
    /// The name of the pattern.
    pub fn as_str(&self) -> (r: &'static str)
        ensures
            r@ == (match *self {
                PatternKind::Builder => "Builder"@,
                PatternKind::Singleton => "Singleton"@,
                PatternKind::Factory => "Factory"@,
                PatternKind::Visitor => "Visitor"@,
            }),
    {
        match self {
            PatternKind::Builder => "Builder",
            PatternKind::Singleton => "Singleton",
            PatternKind::Factory => "Factory",
            PatternKind::Visitor => "Visitor",
        }
    }

    /// The place of the pattern among the others.
    fn rank(&self) -> (r: usize)
        ensures
            r == pattern_rank(*self),
    {
        match self {
            PatternKind::Builder => 0,
            PatternKind::Singleton => 1,
            PatternKind::Factory => 2,
            PatternKind::Visitor => 3,
        }
    }
}

/// The place of a pattern among the others.
pub open spec fn pattern_rank(kind: PatternKind) -> int {
    match kind {
        PatternKind::Builder => 0,
        PatternKind::Singleton => 1,
        PatternKind::Factory => 2,
        PatternKind::Visitor => 3,
    }
}

/// A pattern that was found, with the concept that shows it and why.
#[derive(Debug)]
pub struct DetectedPattern {
    pub kind: PatternKind,
    pub concept_id: String,
    pub evidence: String,
}

/// A found pattern as a value.
pub struct PatternView {
    pub kind: PatternKind,
    pub concept_id: Seq<char>,
    pub evidence: Seq<char>,
}

impl View for DetectedPattern {
    type V = PatternView;

    open spec fn view(&self) -> PatternView {
        PatternView { kind: self.kind, concept_id: self.concept_id@, evidence: self.evidence@ }
    }
}

/// The found patterns as values.
pub open spec fn pattern_views(v: Seq<DetectedPattern>) -> Seq<PatternView> {
    v.map_values(|p: DetectedPattern| p@)
}

/// What found patterns are sorted by: the pattern, then the concept.
pub open spec fn pattern_keys(v: Seq<PatternView>) -> Seq<KeyView> {
    v.map_values(|p: PatternView| KeyView { major: pattern_rank(p.kind), text: p.concept_id, second: ""@, minor: 0 })
}

/// The name of the first method whose name, in small letters, is one of these.
pub open spec fn first_named(cs: Seq<Concept>, at: Seq<int>, names: Seq<Seq<char>>) -> Option<Seq<char>>
    decreases at.len(),
{
    if at.len() == 0 {
        None
    } else {
        match first_named(cs, at.drop_last(), names) {
            Some(n) => Some(n),
            None => if names.contains(lower(cs[at.last()].name@)) {
                Some(cs[at.last()].name@)
            } else {
                None
            },
        }
    }
}

/// The methods of the type at position `i`.
pub open spec fn methods_on(cs: Seq<Concept>, i: int) -> Seq<int> {
    methods_at(cs, id_path(cs[i].id@), cs.len())
}

/// A type named as a builder that has a method named `build`.
pub open spec fn builder_at(cs: Seq<Concept>, i: int) -> Seq<PatternView> {
    if type_kind(cs[i].kind) && finishes_with(lower(cs[i].name@), "builder"@) {
        match first_named(cs, methods_on(cs, i), seq!["build"@]) {
            Some(m) => seq![PatternView {
                kind: PatternKind::Builder,
                concept_id: cs[i].id@,
                evidence: "`"@ + cs[i].name@ + "` (named *Builder) has a `"@ + m + "` method"@,
            }],
            None => Seq::empty(),
        }
    } else {
        Seq::empty()
    }
}

/// The method names that give a singleton away.
pub open spec fn singleton_names() -> Seq<Seq<char>> {
    seq!["instance"@, "get_instance"@, "getinstance"@, "shared"@, "singleton"@]
}

/// A type that has a method named as the access to its one instance.
pub open spec fn singleton_at(cs: Seq<Concept>, i: int) -> Seq<PatternView> {
    if type_kind(cs[i].kind) {
        match first_named(cs, methods_on(cs, i), singleton_names()) {
            Some(m) => seq![PatternView {
                kind: PatternKind::Singleton,
                concept_id: cs[i].id@,
                evidence: "`"@ + cs[i].name@ + "` has a `"@ + m + "` method"@,
            }],
            None => Seq::empty(),
        }
    } else {
        Seq::empty()
    }
}

/// The position of the type with this path; of several, the last.
pub open spec fn type_at_path(cs: Seq<Concept>, path: Seq<char>) -> Option<int>
    decreases cs.len(),
{
    if cs.len() == 0 {
        None
    } else if type_kind(cs.last().kind) && id_path(cs.last().id@) == path {
        Some(cs.len() - 1)
    } else {
        type_at_path(cs.drop_last(), path)
    }
}

/// A function named as a maker, or a method of a type named as a factory.
pub open spec fn factory_at(cs: Seq<Concept>, i: int) -> Seq<PatternView> {
    let name = cs[i].name@;
    if cs[i].kind != ConceptKind::Function && cs[i].kind != ConceptKind::Method {
        Seq::empty()
    } else if begins_with(lower(name), "create_"@) || begins_with(lower(name), "make_"@) {
        seq![PatternView { kind: PatternKind::Factory, concept_id: cs[i].id@, evidence: "`"@ + name + "` is named create_*/make_*"@ }]
    } else if cs[i].kind == ConceptKind::Method {
        match factory_owner(cs, i) {
            Some(t) => seq![PatternView {
                kind: PatternKind::Factory,
                concept_id: cs[i].id@,
                evidence: "`"@ + name + "` is a method on `"@ + cs[t].name@ + "` (named *Factory)"@,
            }],
            None => Seq::empty(),
        }
    } else {
        Seq::empty()
    }
}

/// The type that the method at `i` belongs to, if it is named as a factory.
pub open spec fn factory_owner(cs: Seq<Concept>, i: int) -> Option<int> {
    match owner_of(cs[i].id@) {
        Some(path) => match type_at_path(cs, path) {
            Some(t) => if finishes_with(lower(cs[t].name@), "factory"@) {
                Some(t)
            } else {
                None
            },
            None => None,
        },
        None => None,
    }
}

/// The names of the methods that visit.
pub open spec fn visit_names(cs: Seq<Concept>, at: Seq<int>) -> Seq<Seq<char>>
    decreases at.len(),
{
    if at.len() == 0 {
        Seq::empty()
    } else {
        let rest = visit_names(cs, at.drop_last());
        if begins_with(lower(cs[at.last()].name@), "visit_"@) {
            rest.push(cs[at.last()].name@)
        } else {
            rest
        }
    }
}

/// A type with two or more methods that visit.
pub open spec fn visitor_at(cs: Seq<Concept>, i: int) -> Seq<PatternView> {
    let names = visit_names(cs, methods_on(cs, i));
    if type_kind(cs[i].kind) && names.len() >= 2 {
        seq![PatternView {
            kind: PatternKind::Visitor,
            concept_id: cs[i].id@,
            evidence: "`"@ + cs[i].name@ + "` has "@ + decimal(names.len()) + " visit_*-named methods ("@ + join(names, ", "@) + ")"@,
        }]
    } else {
        Seq::empty()
    }
}

/// Every pattern in the concepts, pattern by pattern.
pub open spec fn all_patterns(cs: Seq<Concept>) -> Seq<PatternView> {
    gather(|i: int| builder_at(cs, i), cs.len()) + gather(|i: int| singleton_at(cs, i), cs.len()) + gather(
        |i: int| factory_at(cs, i),
        cs.len(),
    ) + gather(|i: int| visitor_at(cs, i), cs.len())
}

/// The name of the first method that is named so.
fn has_method_named(Ghost(cs): Ghost<Seq<Concept>>, Ghost(at): Ghost<Seq<int>>, methods: &Vec<&Concept>, names: &Vec<&str>) -> (r: Option<String>)
    requires
        are_methods(methods@, cs, at),
    ensures
        match r {
            Some(n) => first_named(cs, at, str_views(names@)) == Some(n@),
            None => first_named(cs, at, str_views(names@)) is None,
        },
{
    let ghost nv = str_views(names@);
    for k in 0..methods.len()
        invariant
            nv == str_views(names@),
            are_methods(methods@, cs, at),
            first_named(cs, at.take(k as int), nv) is None,
    {
        let m: &Concept = methods[k];
        let name = lower_text(m.name.as_str());
        proof {
            assert(at.take(k + 1).drop_last() =~= at.take(k as int));
            assert(at.take(k + 1).last() == at[k as int]);
        }
        for j in 0..names.len()
            invariant
                nv == str_views(names@),
                are_methods(methods@, cs, at),
                k < methods@.len(),
                *m == cs[at[k as int]],
                name@ == lower(m.name@),
                first_named(cs, at.take(k as int), nv) is None,
                at.take(k + 1).drop_last() == at.take(k as int),
                at.take(k + 1).last() == at[k as int],
                forall|i: int| 0 <= i < j ==> nv[i] != name@,
        {
            assert(nv[j as int] == names@[j as int]@);
            if same(names[j], name.as_str()) {
                proof {
                    assert(nv.contains(name@));
                    lemma_first_stays(cs, at, nv, k + 1);
                }
                return Some(m.name.clone());
            }
        }
    }
    assert(at.take(at.len() as int) =~= at);
    None
}

proof fn lemma_first_stays(cs: Seq<Concept>, at: Seq<int>, names: Seq<Seq<char>>, k: int)
    requires
        0 <= k <= at.len(),
        first_named(cs, at.take(k), names) is Some,
    ensures
        first_named(cs, at, names) == first_named(cs, at.take(k), names),
    decreases at.len() - k,
{
    if k < at.len() {
        assert(at.take(k + 1).drop_last() =~= at.take(k));
        lemma_first_stays(cs, at, names, k + 1);
    } else {
        assert(at.take(k) =~= at);
    }
}

/// Types that name themselves builders and can build.
fn detect_builder<'a>(concepts: &'a [Concept], owned: &Vec<OwnedMethod<'a>>) -> (r: Vec<DetectedPattern>)
    requires
        lists_methods(concepts@, owned@, concepts@.len() as int),
    ensures
        pattern_views(r@) == gather(|i: int| builder_at(concepts@, i), concepts@.len()),
{
    let ghost cs = concepts@;
    let ghost f = |i: int| builder_at(cs, i);
    let mut names: Vec<&str> = Vec::new();
    names.push("build");
    assert(str_views(names@) =~= seq!["build"@]);
    let mut out: Vec<DetectedPattern> = Vec::new();
    for i in 0..concepts.len()
        invariant
            cs == concepts@,
            f == (|i: int| builder_at(cs, i)),
            lists_methods(cs, owned@, cs.len() as int),
            str_views(names@) == seq!["build"@],
            pattern_views(out@) == gather(f, i as nat),
    {
        let c: &'a Concept = &concepts[i];
        let ghost before = pattern_views(out@);
        if is_type_kind(c.kind) && has_suffix(lower_text(c.name.as_str()).as_str(), "builder") {
            let methods = methods_of(concepts, owned, path_after_kind_dir(c.id.as_str()));
            if let Some(m) = has_method_named(Ghost(cs), Ghost(methods_on(cs, i as int)), &methods, &names) {
                let mut evidence = "`".to_owned();
                evidence.append(c.name.as_str());
                evidence.append("` (named *Builder) has a `");
                evidence.append(m.as_str());
                evidence.append("` method");
                out.push(DetectedPattern { kind: PatternKind::Builder, concept_id: c.id.clone(), evidence });
            }
        }
        assert(pattern_views(out@) =~= before + builder_at(cs, i as int));
    }
    out
}

/// Types with an access to their one instance.
fn detect_singleton<'a>(concepts: &'a [Concept], owned: &Vec<OwnedMethod<'a>>) -> (r: Vec<DetectedPattern>)
    requires
        lists_methods(concepts@, owned@, concepts@.len() as int),
    ensures
        pattern_views(r@) == gather(|i: int| singleton_at(concepts@, i), concepts@.len()),
{
    let ghost cs = concepts@;
    let ghost f = |i: int| singleton_at(cs, i);
    let mut names: Vec<&str> = Vec::new();
    names.push("instance");
    names.push("get_instance");
    names.push("getinstance");
    names.push("shared");
    names.push("singleton");
    assert(str_views(names@) =~= singleton_names());
    let mut out: Vec<DetectedPattern> = Vec::new();
    for i in 0..concepts.len()
        invariant
            cs == concepts@,
            f == (|i: int| singleton_at(cs, i)),
            lists_methods(cs, owned@, cs.len() as int),
            str_views(names@) == singleton_names(),
            pattern_views(out@) == gather(f, i as nat),
    {
        let c: &'a Concept = &concepts[i];
        let ghost before = pattern_views(out@);
        if is_type_kind(c.kind) {
            let methods = methods_of(concepts, owned, path_after_kind_dir(c.id.as_str()));
            if let Some(m) = has_method_named(Ghost(cs), Ghost(methods_on(cs, i as int)), &methods, &names) {
                let mut evidence = "`".to_owned();
                evidence.append(c.name.as_str());
                evidence.append("` has a `");
                evidence.append(m.as_str());
                evidence.append("` method");
                out.push(DetectedPattern { kind: PatternKind::Singleton, concept_id: c.id.clone(), evidence });
            }
        }
        assert(pattern_views(out@) =~= before + singleton_at(cs, i as int));
    }
    out
}

/// The types by their paths.
struct TypeIndex<'a> {
    positions: Vec<usize>,
    by_path: KeyIndex<'a>,
}

impl<'a> TypeIndex<'a> {
    spec fn ok(self, cs: Seq<Concept>) -> bool {
        &&& self.by_path.wf()
        &&& self.by_path@.len() == self.positions@.len()
        &&& forall|k: int| 0 <= k < self.positions@.len() ==> (#[trigger] self.positions@[k]) < cs.len()
            && type_kind(cs[self.positions@[k] as int].kind) && self.by_path@[k] == id_path(cs[self.positions@[k] as int].id@)
        &&& forall|k: int, l: int| 0 <= k < l < self.positions@.len() ==> #[trigger] self.positions@[k] < #[trigger] self.positions@[l]
        &&& forall|i: int| 0 <= i < cs.len() && type_kind((#[trigger] cs[i]).kind) ==> lists(self.positions@, i)
    }

    fn new(concepts: &'a [Concept]) -> (r: TypeIndex<'a>)
        ensures
            r.ok(concepts@),
    {
        let mut positions: Vec<usize> = Vec::new();
        let mut paths: Vec<&'a str> = Vec::new();
        for i in 0..concepts.len()
            invariant
                paths@.len() == positions@.len(),
                forall|k: int| 0 <= k < positions@.len() ==> (#[trigger] positions@[k]) < i
                    && type_kind(concepts@[positions@[k] as int].kind) && paths@[k]@ == id_path(concepts@[positions@[k] as int].id@),
                forall|k: int, l: int| 0 <= k < l < positions@.len() ==> #[trigger] positions@[k] < #[trigger] positions@[l],
                forall|j: int| 0 <= j < i && type_kind((#[trigger] concepts@[j]).kind) ==> lists(positions@, j),
        {
            let c: &'a Concept = &concepts[i];
            let ghost before = positions@;
            if is_type_kind(c.kind) {
                positions.push(i);
                paths.push(path_after_kind_dir(c.id.as_str()));
                assert(positions@[before.len() as int] == i);
            }
            assert forall|j: int| 0 <= j < i + 1 && type_kind((#[trigger] concepts@[j]).kind) implies lists(positions@, j) by {
                if j < i {
                    let k = choose|k: int| 0 <= k < before.len() && #[trigger] before[k] == j;
                    assert(positions@[k] == j);
                }
            }
        }
        TypeIndex { positions, by_path: KeyIndex::new(paths) }
    }

    fn find(&self, Ghost(cs): Ghost<Seq<Concept>>, path: &str) -> (r: Option<usize>)
        requires
            self.ok(cs),
        ensures
            match r {
                Some(t) => type_at_path(cs, path@) == Some(t as int) && t < cs.len(),
                None => type_at_path(cs, path@) is None,
            },
    {
        proof {
            lemma_last_of(self.by_path@, path@);
            lemma_type_at_path(cs, path@);
        }
        match self.by_path.find(path) {
            Some(k) => {
                let t: usize = self.positions[k];
                proof {
                    assert(type_kind(cs[t as int].kind));
                    let i = type_at_path(cs, path@)->0;
                    assert(type_kind(cs[i].kind));
                    let l = choose|l: int| 0 <= l < self.positions@.len() && #[trigger] self.positions@[l] == i;
                    if l < k {
                        assert(self.positions@[l] < self.positions@[k as int]);
                    }
                }
                Some(t)
            },
            None => {
                proof {
                    if type_at_path(cs, path@) is Some {
                        let i = type_at_path(cs, path@)->0;
                        assert(type_kind(cs[i].kind));
                        let l = choose|l: int| 0 <= l < self.positions@.len() && #[trigger] self.positions@[l] == i;
                        assert(self.by_path@[l] == path@);
                    }
                }
                None
            },
        }
    }
}

proof fn lemma_type_at_path(cs: Seq<Concept>, path: Seq<char>)
    ensures
        match type_at_path(cs, path) {
            Some(i) => 0 <= i < cs.len() && type_kind(cs[i].kind) && id_path(cs[i].id@) == path
                && forall|j: int| i < j < cs.len() ==> !(type_kind((#[trigger] cs[j]).kind) && id_path(cs[j].id@) == path),
            None => forall|j: int| 0 <= j < cs.len() ==> !(type_kind((#[trigger] cs[j]).kind) && id_path(cs[j].id@) == path),
        },
    decreases cs.len(),
{
    if cs.len() > 0 && !(type_kind(cs.last().kind) && id_path(cs.last().id@) == path) {
        lemma_type_at_path(cs.drop_last(), path);
        assert forall|j: int| 0 <= j < cs.len() - 1 implies cs[j] == cs.drop_last()[j] by {}
    }
}

/// Functions that make things.
fn detect_factory<'a>(concepts: &'a [Concept], types: &TypeIndex<'a>) -> (r: Vec<DetectedPattern>)
    requires
        types.ok(concepts@),
    ensures
        pattern_views(r@) == gather(|i: int| factory_at(concepts@, i), concepts@.len()),
{
    let ghost cs = concepts@;
    let ghost f = |i: int| factory_at(cs, i);
    let mut out: Vec<DetectedPattern> = Vec::new();
    for i in 0..concepts.len()
        invariant
            cs == concepts@,
            f == (|i: int| factory_at(cs, i)),
            types.ok(cs),
            pattern_views(out@) == gather(f, i as nat),
    {
        let c: &'a Concept = &concepts[i];
        let ghost before = pattern_views(out@);
        if matches!(c.kind, ConceptKind::Function | ConceptKind::Method) {
            let small = lower_text(c.name.as_str());
            if has_prefix(small.as_str(), "create_") || has_prefix(small.as_str(), "make_") {
                let mut evidence = "`".to_owned();
                evidence.append(c.name.as_str());
                evidence.append("` is named create_*/make_*");
                out.push(DetectedPattern { kind: PatternKind::Factory, concept_id: c.id.clone(), evidence });
            } else if c.kind == ConceptKind::Method {
                if let Some(path) = owner_path(c.id.as_str()) {
                    if let Some(t) = types.find(Ghost(cs), path) {
                        let owner: &'a Concept = &concepts[t];
                        if has_suffix(lower_text(owner.name.as_str()).as_str(), "factory") {
                            let mut evidence = "`".to_owned();
                            evidence.append(c.name.as_str());
                            evidence.append("` is a method on `");
                            evidence.append(owner.name.as_str());
                            evidence.append("` (named *Factory)");
                            out.push(DetectedPattern { kind: PatternKind::Factory, concept_id: c.id.clone(), evidence });
                        }
                    }
                }
            }
        }
        assert(pattern_views(out@) =~= before + factory_at(cs, i as int));
    }
    out
}

/// Types with two or more methods that visit.
fn detect_visitor<'a>(concepts: &'a [Concept], owned: &Vec<OwnedMethod<'a>>) -> (r: Vec<DetectedPattern>)
    requires
        lists_methods(concepts@, owned@, concepts@.len() as int),
    ensures
        pattern_views(r@) == gather(|i: int| visitor_at(concepts@, i), concepts@.len()),
{
    let ghost cs = concepts@;
    let ghost f = |i: int| visitor_at(cs, i);
    let mut out: Vec<DetectedPattern> = Vec::new();
    for i in 0..concepts.len()
        invariant
            cs == concepts@,
            f == (|i: int| visitor_at(cs, i)),
            lists_methods(cs, owned@, cs.len() as int),
            pattern_views(out@) == gather(f, i as nat),
    {
        let c: &'a Concept = &concepts[i];
        let ghost before = pattern_views(out@);
        if is_type_kind(c.kind) {
            let methods = methods_of(concepts, owned, path_after_kind_dir(c.id.as_str()));
            let ghost at = methods_on(cs, i as int);
            let mut names: Vec<String> = Vec::new();
            for k in 0..methods.len()
                invariant
                    are_methods(methods@, cs, at),
                    texts(names@) == visit_names(cs, at.take(k as int)),
            {
                let ghost was = texts(names@);
                proof {
                    assert(at.take(k + 1).drop_last() =~= at.take(k as int));
                    assert(at.take(k + 1).last() == at[k as int]);
                }
                let m: &Concept = methods[k];
                if has_prefix(lower_text(m.name.as_str()).as_str(), "visit_") {
                    names.push(m.name.clone());
                    assert(texts(names@) =~= was.push(m.name@));
                }
            }
            assert(at.take(at.len() as int) =~= at);
            assert(names@.len() == texts(names@).len());
            if names.len() >= 2 {
                let mut evidence = "`".to_owned();
                evidence.append(c.name.as_str());
                evidence.append("` has ");
                evidence.append(decimal_text(names.len()).as_str());
                evidence.append(" visit_*-named methods (");
                evidence.append(join_texts(&names, ", ").as_str());
                evidence.append(")");
                out.push(DetectedPattern { kind: PatternKind::Visitor, concept_id: c.id.clone(), evidence });
            }
        }
        assert(pattern_views(out@) =~= before + visitor_at(cs, i as int));
    }
    out
}

/// Every pattern in the concepts, by pattern and then by concept.
pub fn detect_patterns(concepts: &[Concept]) -> (r: Vec<DetectedPattern>)
    ensures
        sorted_by(all_patterns(concepts@), pattern_keys(all_patterns(concepts@)), pattern_views(r@)),
{
    let ghost cs = concepts@;
    let owned = group_methods_by_owner(concepts);
    let types = TypeIndex::new(concepts);
    let mut found = detect_builder(concepts, &owned);
    let ghost builders = found@;
    let mut singletons = detect_singleton(concepts, &owned);
    let ghost singles = singletons@;
    found.append(&mut singletons);
    let mut factories = detect_factory(concepts, &types);
    let ghost makers = factories@;
    found.append(&mut factories);
    let mut visitors = detect_visitor(concepts, &owned);
    let ghost visits = visitors@;
    found.append(&mut visitors);
    proof {
        assert(pattern_views(found@) =~= pattern_views(builders) + pattern_views(singles) + pattern_views(makers) + pattern_views(visits));
    }
    let ghost fv = pattern_views(found@);
    let mut keys: Vec<SortKey> = Vec::new();
    for i in 0..found.len()
        invariant
            keys@.len() == i,
            forall|k: int| 0 <= k < i ==> (#[trigger] keys@[k])@ == (KeyView { major: pattern_rank(found@[k].kind), text: found@[k].concept_id@, second: ""@, minor: 0 }),
    {
        keys.push(SortKey { major: found[i].kind.rank(), text: found[i].concept_id.as_str(), second: "", minor: 0 });
    }
    let order = sort_order(&keys);
    proof {
        assert(key_views(keys@) =~= pattern_keys(fv));
        lemma_order_distinct(key_views(keys@), order@);
    }
    let ghost items = found@;
    let out = in_order(found, &order);
    assert(pattern_views(out@) =~= order@.map_values(|k: usize| fv[k as int]));
    out
}

/// The pattern is reported on the concept with this id.
pub open spec fn reports(r: Seq<PatternView>, kind: PatternKind, id: Seq<char>) -> bool {
    exists|k: int| 0 <= k < r.len() && (#[trigger] r[k]).kind == kind && r[k].concept_id == id
}

/// The concept at `i` is a type with methods.
pub open spec fn is_type_here(cs: Seq<Concept>, i: int) -> bool {
    0 <= i < cs.len() && (cs[i].kind is Struct || cs[i].kind is Class || cs[i].kind is Interface || cs[i].kind is Trait)
}

/// The concept at `j` is a method of the type at `i` whose name begins with
/// `visit_`, whatever the case.
pub open spec fn is_visiting_method(cs: Seq<Concept>, i: int, j: int) -> bool {
    is_method_on(cs, i, j) && starts_like(cs[j].name@, "visit_"@)
}

/// Being a visiting method of the type at `i`, by position.
pub open spec fn visiting(cs: Seq<Concept>, i: int) -> spec_fn(int) -> bool {
    |j: int| is_visiting_method(cs, i, j)
}

/// The concept at `j` is a method of the type at `i` with this name, whatever
/// the case.
pub open spec fn is_method_called(cs: Seq<Concept>, i: int, j: int, name: Seq<char>) -> bool {
    is_method_on(cs, i, j) && reads_like(cs[j].name@, name)
}

/// The concept at `i` shows the pattern.
spec fn shown_at(cs: Seq<Concept>, i: int, x: PatternView) -> bool {
    builder_at(cs, i).contains(x) || singleton_at(cs, i).contains(x) || factory_at(cs, i).contains(x) || visitor_at(cs, i).contains(x)
}

proof fn lemma_reported(cs: Seq<Concept>, r: Seq<PatternView>, x: PatternView)
    requires
        sorted_by(all_patterns(cs), pattern_keys(all_patterns(cs)), r),
        r.len() <= usize::MAX,
    ensures
        r.contains(x) <==> exists|i: int| 0 <= i < cs.len() && #[trigger] shown_at(cs, i, x),
{
    let all = all_patterns(cs);
    assert(pattern_keys(all).len() == all.len());
    lemma_sorting_keeps(all, pattern_keys(all), r);
    assert(r.contains(x) <==> all.contains(x));
    let (f, g, h, v) = (|i: int| builder_at(cs, i), |i: int| singleton_at(cs, i), |i: int| factory_at(cs, i), |i: int| visitor_at(cs, i));
    let n = cs.len();
    lemma_gather_holds(f, n, x);
    lemma_gather_holds(g, n, x);
    lemma_gather_holds(h, n, x);
    lemma_gather_holds(v, n, x);
    let (a, b, c, d) = (gather(f, n), gather(g, n), gather(h, n), gather(v, n));
    assert(all == a + b + c + d);
    lemma_in_either(a, b, x);
    lemma_in_either(a + b, c, x);
    lemma_in_either(a + b + c, d, x);
    if exists|i: int| 0 <= i < n && #[trigger] shown_at(cs, i, x) {
        let i = choose|i: int| 0 <= i < n && #[trigger] shown_at(cs, i, x);
        assert(f(i).contains(x) || g(i).contains(x) || h(i).contains(x) || v(i).contains(x));
    }
    if all.contains(x) {
        if a.contains(x) {
            let i = choose|i: int| 0 <= i < n && (#[trigger] f(i)).contains(x);
            assert(shown_at(cs, i, x));
        } else if b.contains(x) {
            let i = choose|i: int| 0 <= i < n && (#[trigger] g(i)).contains(x);
            assert(shown_at(cs, i, x));
        } else if c.contains(x) {
            let i = choose|i: int| 0 <= i < n && (#[trigger] h(i)).contains(x);
            assert(shown_at(cs, i, x));
        } else {
            let i = choose|i: int| 0 <= i < n && (#[trigger] v(i)).contains(x);
            assert(shown_at(cs, i, x));
        }
    }
}

proof fn lemma_in_either(a: Seq<PatternView>, b: Seq<PatternView>, x: PatternView)
    ensures
        (a + b).contains(x) <==> a.contains(x) || b.contains(x),
{
    let all = a + b;
    if a.contains(x) {
        let k = choose|k: int| 0 <= k < a.len() && a[k] == x;
        assert(all[k] == x);
    }
    if b.contains(x) {
        let k = choose|k: int| 0 <= k < b.len() && b[k] == x;
        assert(all[a.len() + k] == x);
    }
    if all.contains(x) {
        let k = choose|k: int| 0 <= k < all.len() && all[k] == x;
        if k < a.len() {
            assert(a[k] == x);
        } else {
            assert(b[k - a.len()] == x);
        }
    }
}

/// The numbers of the list that `keep` holds for.
spec fn kept(at: Seq<int>, keep: spec_fn(int) -> bool) -> Seq<int>
    decreases at.len(),
{
    if at.len() == 0 {
        Seq::empty()
    } else if keep(at.last()) {
        kept(at.drop_last(), keep).push(at.last())
    } else {
        kept(at.drop_last(), keep)
    }
}

proof fn lemma_kept(at: Seq<int>, keep: spec_fn(int) -> bool)
    ensures
        forall|x: int| #[trigger] kept(at, keep).contains(x) <==> at.contains(x) && keep(x),
        (forall|j: int, k: int| 0 <= j < k < at.len() ==> #[trigger] at[j] < #[trigger] at[k]) ==> (forall|j: int, k: int|
            0 <= j < k < kept(at, keep).len() ==> #[trigger] kept(at, keep)[j] < #[trigger] kept(at, keep)[k]),
    decreases at.len(),
{
    if at.len() > 0 {
        let init = at.drop_last();
        lemma_kept(init, keep);
        let (rest, all) = (kept(init, keep), kept(at, keep));
        assert forall|x: int| #[trigger] all.contains(x) <==> at.contains(x) && keep(x) by {
            assert(rest.contains(x) <==> init.contains(x) && keep(x));
            if rest.contains(x) {
                let k = choose|k: int| 0 <= k < rest.len() && rest[k] == x;
                assert(all[k] == x);
            }
            if init.contains(x) {
                let k = choose|k: int| 0 <= k < init.len() && init[k] == x;
                assert(at[k] == x);
            }
            if keep(at.last()) {
                assert(all[rest.len() as int] == at.last());
            }
            if at.contains(x) {
                let k = choose|k: int| 0 <= k < at.len() && at[k] == x;
                if k < init.len() {
                    assert(init[k] == x);
                }
            }
            if all.contains(x) {
                let k = choose|k: int| 0 <= k < all.len() && all[k] == x;
                if k < rest.len() {
                    assert(rest[k] == x);
                } else {
                    assert(at[at.len() - 1] == x);
                }
            }
        }
        if forall|j: int, k: int| 0 <= j < k < at.len() ==> #[trigger] at[j] < #[trigger] at[k] {
            assert forall|j: int, k: int| 0 <= j < k < init.len() implies #[trigger] init[j] < #[trigger] init[k] by {
                assert(at[j] < at[k]);
            }
            assert forall|j: int, k: int| 0 <= j < k < all.len() implies #[trigger] all[j] < #[trigger] all[k] by {
                if k < rest.len() {
                    assert(rest[j] < rest[k]);
                } else {
                    assert(rest.contains(rest[j]));
                    let m = choose|m: int| 0 <= m < init.len() && init[m] == rest[j];
                    assert(at[m] < at[at.len() - 1]);
                }
            }
        }
    }
}

/// The positions of the methods of the type that `keep` holds for too.
proof fn lemma_kept_methods(cs: Seq<Concept>, i: int, keep: spec_fn(int) -> bool)
    ensures
        lists_kept(kept(methods_on(cs, i), keep), cs.len() as int, |j: int| is_method_on(cs, i, j) && keep(j)),
{
    let at = methods_on(cs, i);
    let both = |j: int| is_method_on(cs, i, j) && keep(j);
    let method = |j: int| is_method_on(cs, i, j);
    methods_are_found_by_their_ids(cs, i, cs.len());
    lemma_kept(at, keep);
    let vs = kept(at, keep);
    assert forall|k: int| 0 <= k < vs.len() implies 0 <= #[trigger] vs[k] < cs.len() && both(vs[k]) by {
        assert(vs.contains(vs[k]));
        let m = choose|m: int| 0 <= m < at.len() && at[m] == vs[k];
        assert(method(at[m]));
    }
    assert forall|j: int| 0 <= j < cs.len() && #[trigger] both(j) implies vs.contains(j) by {
        assert(method(j));
    }
}

proof fn lemma_visits(cs: Seq<Concept>, at: Seq<int>)
    ensures
        visit_names(cs, at) == kept(at, |j: int| starts_like(cs[j].name@, "visit_"@)).map_values(|j: int| cs[j].name@),
    decreases at.len(),
{
    let keep = |j: int| starts_like(cs[j].name@, "visit_"@);
    let name = |j: int| cs[j].name@;
    if at.len() > 0 {
        lemma_visits(cs, at.drop_last());
        reveal_strlit("visit_");
        small_letters_forget_case(cs[at.last()].name@, "visit_"@);
        let rest = kept(at.drop_last(), keep);
        assert(rest.push(at.last()).map_values(name) =~= rest.map_values(name).push(name(at.last())));
    }
    assert(visit_names(cs, at) =~= kept(at, keep).map_values(name));
}

/// A type is reported as a visitor exactly where two different methods of it
/// have names that begin with `visit_`.
pub proof fn visitors_have_two_visiting_methods(cs: Seq<Concept>, r: Seq<PatternView>, id: Seq<char>)
    requires
        sorted_by(all_patterns(cs), pattern_keys(all_patterns(cs)), r),
        r.len() <= usize::MAX,
    ensures
        reports(r, PatternKind::Visitor, id) <==> exists|i: int, j: int, k: int|
            is_type_here(cs, i) && cs[i].id@ == id && j < k && #[trigger] is_visiting_method(cs, i, j) && #[trigger] is_visiting_method(cs, i, k),
{
    let keep = |j: int| starts_like(cs[j].name@, "visit_"@);
    if reports(r, PatternKind::Visitor, id) {
        let k = choose|k: int| 0 <= k < r.len() && (#[trigger] r[k]).kind == PatternKind::Visitor && r[k].concept_id == id;
        lemma_reported(cs, r, r[k]);
        assert(r.contains(r[k]));
        let i = choose|i: int| 0 <= i < cs.len() && #[trigger] shown_at(cs, i, r[k]);
        lemma_kept_methods(cs, i, keep);
        lemma_visits(cs, methods_on(cs, i));
        let vs = kept(methods_on(cs, i), keep);
        assert(visit_names(cs, methods_on(cs, i)).len() == vs.len());
        let both = |j: int| is_method_on(cs, i, j) && keep(j);
        assert(both(vs[0]) && both(vs[1]) && vs[0] < vs[1]);
        assert(is_visiting_method(cs, i, vs[0]) && is_visiting_method(cs, i, vs[1]));
    }
    if exists|i: int, j: int, k: int| is_type_here(cs, i) && cs[i].id@ == id && j < k && #[trigger] is_visiting_method(cs, i, j) && #[trigger] is_visiting_method(cs, i, k) {
        let (i, j, k) = choose|i: int, j: int, k: int|
            is_type_here(cs, i) && cs[i].id@ == id && j < k && #[trigger] is_visiting_method(cs, i, j) && #[trigger] is_visiting_method(cs, i, k);
        lemma_kept_methods(cs, i, keep);
        lemma_visits(cs, methods_on(cs, i));
        let vs = kept(methods_on(cs, i), keep);
        let both = |j: int| is_method_on(cs, i, j) && keep(j);
        assert(both(j) && both(k));
        assert(vs.contains(j) && vs.contains(k));
        assert(visit_names(cs, methods_on(cs, i)).len() == vs.len());
        if vs.len() < 2 {
            assert(vs[0] == j && vs[0] == k);
        }
        let x = visitor_at(cs, i)[0];
        assert(visitor_at(cs, i).contains(x));
        assert(shown_at(cs, i, x));
        lemma_reported(cs, r, x);
        let m = choose|m: int| 0 <= m < r.len() && r[m] == x;
        assert(r[m].kind == PatternKind::Visitor && r[m].concept_id == id);
    }
}

/// What is said of a visitor counts and names its visiting methods, each once
/// and in order.
pub proof fn visitors_are_told_by_their_methods(cs: Seq<Concept>, r: Seq<PatternView>, m: int)
    requires
        sorted_by(all_patterns(cs), pattern_keys(all_patterns(cs)), r),
        r.len() <= usize::MAX,
        0 <= m < r.len(),
        r[m].kind == PatternKind::Visitor,
    ensures
        exists|i: int, at: Seq<int>| {
            &&& is_type_here(cs, i)
            &&& cs[i].id@ == r[m].concept_id
            &&& #[trigger] lists_kept(at, cs.len() as int, visiting(cs, i))
            &&& r[m].evidence == "`"@ + cs[i].name@ + "` has "@ + decimal(at.len()) + " visit_*-named methods ("@ + join(at.map_values(|j: int| cs[j].name@), ", "@) + ")"@
        },
{
    let keep = |j: int| starts_like(cs[j].name@, "visit_"@);
    lemma_reported(cs, r, r[m]);
    assert(r.contains(r[m]));
    let i = choose|i: int| 0 <= i < cs.len() && #[trigger] shown_at(cs, i, r[m]);
    lemma_kept_methods(cs, i, keep);
    lemma_visits(cs, methods_on(cs, i));
    let at = kept(methods_on(cs, i), keep);
    assert(visiting(cs, i) =~= (|j: int| is_method_on(cs, i, j) && keep(j)));
    assert(lists_kept(at, cs.len() as int, visiting(cs, i)));
    assert(visit_names(cs, methods_on(cs, i)).len() == at.len());
}

/// A method more never takes a visitor away.
pub proof fn more_methods_keep_visitors(cs: Seq<Concept>, more: Seq<Concept>, r: Seq<PatternView>, after: Seq<PatternView>, id: Seq<char>)
    requires
        sorted_by(all_patterns(cs), pattern_keys(all_patterns(cs)), r),
        sorted_by(all_patterns(cs + more), pattern_keys(all_patterns(cs + more)), after),
        r.len() <= usize::MAX,
        after.len() <= usize::MAX,
        reports(r, PatternKind::Visitor, id),
    ensures
        reports(after, PatternKind::Visitor, id),
{
    visitors_have_two_visiting_methods(cs, r, id);
    visitors_have_two_visiting_methods(cs + more, after, id);
    let (i, j, k) = choose|i: int, j: int, k: int|
        is_type_here(cs, i) && cs[i].id@ == id && j < k && #[trigger] is_visiting_method(cs, i, j) && #[trigger] is_visiting_method(cs, i, k);
    let all = cs + more;
    assert(all[i] == cs[i] && all[j] == cs[j] && all[k] == cs[k]);
    assert(is_visiting_method(all, i, j) && is_visiting_method(all, i, k) && is_type_here(all, i));
}

proof fn lemma_first_named(cs: Seq<Concept>, at: Seq<int>, names: Seq<Seq<char>>)
    ensures
        first_named(cs, at, names) is Some <==> exists|k: int| 0 <= k < at.len() && names.contains(lower(cs[#[trigger] at[k]].name@)),
        first_named(cs, at, names) matches Some(n) ==> exists|k: int| {
            &&& 0 <= k < at.len()
            &&& cs[#[trigger] at[k]].name@ == n
            &&& names.contains(lower(n))
            &&& forall|m: int| 0 <= m < k ==> !names.contains(lower(cs[#[trigger] at[m]].name@))
        },
    decreases at.len(),
{
    if at.len() > 0 {
        let init = at.drop_last();
        lemma_first_named(cs, init, names);
        match first_named(cs, init, names) {
            Some(n) => {
                let k = choose|k: int| {
                    &&& 0 <= k < init.len()
                    &&& cs[#[trigger] init[k]].name@ == n
                    &&& names.contains(lower(n))
                    &&& forall|m: int| 0 <= m < k ==> !names.contains(lower(cs[#[trigger] init[m]].name@))
                };
                assert(at[k] == init[k]);
                assert forall|m: int| 0 <= m < k implies !names.contains(lower(cs[#[trigger] at[m]].name@)) by {
                    assert(init[m] == at[m]);
                }
            },
            None => {
                assert forall|m: int| 0 <= m < at.len() - 1 implies !names.contains(lower(cs[#[trigger] at[m]].name@)) by {
                    assert(init[m] == at[m]);
                }
                assert(at[at.len() - 1] == at.last());
            },
        }
    }
}

/// A type is reported as a builder exactly where its name ends in `builder`
/// and a method of it is called `build`, whatever the case.
pub proof fn builders_build(cs: Seq<Concept>, r: Seq<PatternView>, id: Seq<char>)
    requires
        sorted_by(all_patterns(cs), pattern_keys(all_patterns(cs)), r),
        r.len() <= usize::MAX,
    ensures
        reports(r, PatternKind::Builder, id) <==> exists|i: int, j: int|
            is_type_here(cs, i) && cs[i].id@ == id && ends_like(cs[i].name@, "builder"@) && #[trigger] is_method_called(cs, i, j, "build"@),
{
    reveal_strlit("builder");
    reveal_strlit("build");
    let names = seq!["build"@];
    if reports(r, PatternKind::Builder, id) {
        let k = choose|k: int| 0 <= k < r.len() && (#[trigger] r[k]).kind == PatternKind::Builder && r[k].concept_id == id;
        lemma_reported(cs, r, r[k]);
        assert(r.contains(r[k]));
        let i = choose|i: int| 0 <= i < cs.len() && #[trigger] shown_at(cs, i, r[k]);
        small_letters_forget_case(cs[i].name@, "builder"@);
        let at = methods_on(cs, i);
        lemma_first_named(cs, at, names);
        methods_are_found_by_their_ids(cs, i, cs.len());
        let m = choose|m: int| 0 <= m < at.len() && names.contains(lower(cs[#[trigger] at[m]].name@));
        let method = |j: int| is_method_on(cs, i, j);
        assert(method(at[m]));
        small_letters_forget_case(cs[at[m]].name@, "build"@);
        assert(is_method_called(cs, i, at[m], "build"@));
    }
    if exists|i: int, j: int| is_type_here(cs, i) && cs[i].id@ == id && ends_like(cs[i].name@, "builder"@) && #[trigger] is_method_called(cs, i, j, "build"@) {
        let (i, j) = choose|i: int, j: int| is_type_here(cs, i) && cs[i].id@ == id && ends_like(cs[i].name@, "builder"@) && #[trigger] is_method_called(cs, i, j, "build"@);
        small_letters_forget_case(cs[i].name@, "builder"@);
        small_letters_forget_case(cs[j].name@, "build"@);
        let at = methods_on(cs, i);
        lemma_first_named(cs, at, names);
        methods_are_found_by_their_ids(cs, i, cs.len());
        let method = |j: int| is_method_on(cs, i, j);
        assert(method(j));
        let m = choose|m: int| 0 <= m < at.len() && at[m] == j;
        assert(names[0] == lower(cs[at[m]].name@));
        assert(names.contains(lower(cs[at[m]].name@)));
        let x = builder_at(cs, i)[0];
        assert(builder_at(cs, i).contains(x));
        assert(shown_at(cs, i, x));
        lemma_reported(cs, r, x);
        let p = choose|p: int| 0 <= p < r.len() && r[p] == x;
        assert(r[p].kind == PatternKind::Builder && r[p].concept_id == id);
    }
}

/// The method at `j` of the type at `i` is called as the access to its one
/// instance, whatever the case.
pub open spec fn is_access(cs: Seq<Concept>, i: int, j: int) -> bool {
    ||| is_method_called(cs, i, j, "instance"@)
    ||| is_method_called(cs, i, j, "get_instance"@)
    ||| is_method_called(cs, i, j, "getinstance"@)
    ||| is_method_called(cs, i, j, "shared"@)
    ||| is_method_called(cs, i, j, "singleton"@)
}

proof fn lemma_access(cs: Seq<Concept>, i: int, j: int)
    ensures
        is_access(cs, i, j) <==> is_method_on(cs, i, j) && singleton_names().contains(lower(cs[j].name@)),
{
    reveal_strlit("instance");
    reveal_strlit("get_instance");
    reveal_strlit("getinstance");
    reveal_strlit("shared");
    reveal_strlit("singleton");
    let name = cs[j].name@;
    let all = singleton_names();
    assert(all[0] == "instance"@ && all[1] == "get_instance"@ && all[2] == "getinstance"@ && all[3] == "shared"@ && all[4] == "singleton"@);
    small_letters_forget_case(name, "instance"@);
    small_letters_forget_case(name, "get_instance"@);
    small_letters_forget_case(name, "getinstance"@);
    small_letters_forget_case(name, "shared"@);
    small_letters_forget_case(name, "singleton"@);
}

/// A type is reported as a singleton exactly where a method of it is called as
/// the access to its one instance.
pub proof fn singletons_give_access(cs: Seq<Concept>, r: Seq<PatternView>, id: Seq<char>)
    requires
        sorted_by(all_patterns(cs), pattern_keys(all_patterns(cs)), r),
        r.len() <= usize::MAX,
    ensures
        reports(r, PatternKind::Singleton, id) <==> exists|i: int, j: int| is_type_here(cs, i) && cs[i].id@ == id && #[trigger] is_access(cs, i, j),
{
    let names = singleton_names();
    if reports(r, PatternKind::Singleton, id) {
        let k = choose|k: int| 0 <= k < r.len() && (#[trigger] r[k]).kind == PatternKind::Singleton && r[k].concept_id == id;
        lemma_reported(cs, r, r[k]);
        assert(r.contains(r[k]));
        let i = choose|i: int| 0 <= i < cs.len() && #[trigger] shown_at(cs, i, r[k]);
        let at = methods_on(cs, i);
        lemma_first_named(cs, at, names);
        methods_are_found_by_their_ids(cs, i, cs.len());
        let m = choose|m: int| 0 <= m < at.len() && names.contains(lower(cs[#[trigger] at[m]].name@));
        let method = |j: int| is_method_on(cs, i, j);
        assert(method(at[m]));
        lemma_access(cs, i, at[m]);
        assert(is_access(cs, i, at[m]));
    }
    if exists|i: int, j: int| is_type_here(cs, i) && cs[i].id@ == id && #[trigger] is_access(cs, i, j) {
        let (i, j) = choose|i: int, j: int| is_type_here(cs, i) && cs[i].id@ == id && #[trigger] is_access(cs, i, j);
        lemma_access(cs, i, j);
        let at = methods_on(cs, i);
        lemma_first_named(cs, at, names);
        methods_are_found_by_their_ids(cs, i, cs.len());
        let method = |j: int| is_method_on(cs, i, j);
        assert(method(j));
        let m = choose|m: int| 0 <= m < at.len() && at[m] == j;
        assert(names.contains(lower(cs[at[m]].name@)));
        let x = singleton_at(cs, i)[0];
        assert(singleton_at(cs, i).contains(x));
        assert(shown_at(cs, i, x));
        lemma_reported(cs, r, x);
        let p = choose|p: int| 0 <= p < r.len() && r[p] == x;
        assert(r[p].kind == PatternKind::Singleton && r[p].concept_id == id);
    }
}

proof fn lemma_last_type(cs: Seq<Concept>, path: Seq<char>)
    ensures
        match type_at_path(cs, path) {
            Some(t) => is_type_here(cs, t) && names_type(cs[t].id@, path) && forall|u: int| t < u && #[trigger] is_type_here(cs, u) ==> !names_type(cs[u].id@, path),
            None => forall|u: int| #[trigger] is_type_here(cs, u) ==> !names_type(cs[u].id@, path),
        },
    decreases cs.len(),
{
    if cs.len() > 0 {
        let init = cs.drop_last();
        lemma_last_type(init, path);
        types_lie_behind_their_kind(cs.last().id@, path);
        assert forall|u: int| #[trigger] is_type_here(cs, u) && u < init.len() implies is_type_here(init, u) && init[u] == cs[u] by {}
    }
}

/// The method at `j` belongs to a type whose name ends in `factory`, whatever
/// the case; where several types lie there, to the last.
pub open spec fn is_on_a_factory(cs: Seq<Concept>, j: int) -> bool {
    &&& cs[j].kind is Method
    &&& exists|t: int, path: Seq<char>| {
        &&& is_type_here(cs, t)
        &&& #[trigger] names_type(cs[t].id@, path)
        &&& names_method(cs[j].id@, path)
        &&& ends_like(cs[t].name@, "factory"@)
        &&& forall|u: int| t < u && #[trigger] is_type_here(cs, u) ==> !names_type(cs[u].id@, path)
    }
}

/// The function or method at `j` is named as one that makes something.
pub open spec fn is_named_maker(cs: Seq<Concept>, j: int) -> bool {
    (cs[j].kind is Function || cs[j].kind is Method) && (starts_like(cs[j].name@, "create_"@) || starts_like(cs[j].name@, "make_"@))
}

proof fn lemma_factory(cs: Seq<Concept>, j: int)
    requires
        0 <= j < cs.len(),
    ensures
        factory_at(cs, j).len() > 0 <==> is_named_maker(cs, j) || is_on_a_factory(cs, j),
        factory_at(cs, j).len() > 0 ==> factory_at(cs, j)[0].kind == PatternKind::Factory && factory_at(cs, j)[0].concept_id == cs[j].id@,
        factory_at(cs, j).len() <= 1,
{
    reveal_strlit("create_");
    reveal_strlit("make_");
    reveal_strlit("factory");
    small_letters_forget_case(cs[j].name@, "create_"@);
    small_letters_forget_case(cs[j].name@, "make_"@);
    match owner_of(cs[j].id@) {
        Some(path) => {
            methods_lie_under_their_owner(cs[j].id@, path);
            lemma_last_type(cs, path);
            if let Some(t) = type_at_path(cs, path) {
                small_letters_forget_case(cs[t].name@, "factory"@);
                if cs[j].kind is Method && ends_like(cs[t].name@, "factory"@) {
                    assert(names_type(cs[t].id@, path) && names_method(cs[j].id@, path));
                    assert(is_on_a_factory(cs, j));
                }
            }
        },
        None => {},
    }
    if is_on_a_factory(cs, j) {
        let (t, path) = choose|t: int, path: Seq<char>| {
            &&& is_type_here(cs, t)
            &&& #[trigger] names_type(cs[t].id@, path)
            &&& names_method(cs[j].id@, path)
            &&& ends_like(cs[t].name@, "factory"@)
            &&& forall|u: int| t < u && #[trigger] is_type_here(cs, u) ==> !names_type(cs[u].id@, path)
        };
        methods_lie_under_their_owner(cs[j].id@, path);
        lemma_last_type(cs, path);
        assert(type_at_path(cs, path) == Some(t)) by {
            match type_at_path(cs, path) {
                Some(u) => {
                    assert(is_type_here(cs, u) && is_type_here(cs, t));
                },
                None => {
                    assert(is_type_here(cs, t));
                },
            }
        }
        small_letters_forget_case(cs[t].name@, "factory"@);
    }
}

/// A function is reported as a factory exactly where its name begins with
/// `create_` or `make_`, or where it is a method of a type that is named as a
/// factory.
pub proof fn factories_make(cs: Seq<Concept>, r: Seq<PatternView>, id: Seq<char>)
    requires
        sorted_by(all_patterns(cs), pattern_keys(all_patterns(cs)), r),
        r.len() <= usize::MAX,
    ensures
        reports(r, PatternKind::Factory, id) <==> exists|j: int| 0 <= j < cs.len() && (#[trigger] cs[j]).id@ == id && (is_named_maker(cs, j) || is_on_a_factory(cs, j)),
{
    if reports(r, PatternKind::Factory, id) {
        let k = choose|k: int| 0 <= k < r.len() && (#[trigger] r[k]).kind == PatternKind::Factory && r[k].concept_id == id;
        lemma_reported(cs, r, r[k]);
        assert(r.contains(r[k]));
        let j = choose|j: int| 0 <= j < cs.len() && #[trigger] shown_at(cs, j, r[k]);
        lemma_factory(cs, j);
        assert(factory_at(cs, j).contains(r[k]));
        assert(cs[j].id@ == id);
    }
    if exists|j: int| 0 <= j < cs.len() && (#[trigger] cs[j]).id@ == id && (is_named_maker(cs, j) || is_on_a_factory(cs, j)) {
        let j = choose|j: int| 0 <= j < cs.len() && (#[trigger] cs[j]).id@ == id && (is_named_maker(cs, j) || is_on_a_factory(cs, j));
        lemma_factory(cs, j);
        let x = factory_at(cs, j)[0];
        assert(factory_at(cs, j).contains(x));
        assert(shown_at(cs, j, x));
        lemma_reported(cs, r, x);
        let p = choose|p: int| 0 <= p < r.len() && r[p] == x;
        assert(r[p].kind == PatternKind::Factory && r[p].concept_id == id);
    }
}

/// The patterns come one kind after the other: builders, singletons,
/// factories, visitors; those of one kind by id.
pub proof fn patterns_come_by_kind_and_id(cs: Seq<Concept>, r: Seq<PatternView>, i: int, j: int)
    requires
        sorted_by(all_patterns(cs), pattern_keys(all_patterns(cs)), r),
        0 <= i < j < r.len(),
    ensures
        r[j].kind is Builder ==> r[i].kind is Builder,
        r[i].kind is Visitor ==> r[j].kind is Visitor,
        r[i].kind is Factory ==> r[j].kind is Factory || r[j].kind is Visitor,
        r[i].kind == r[j].kind ==> r[i].concept_id == r[j].concept_id || lex_lt(r[i].concept_id, r[j].concept_id),
{
    let all = all_patterns(cs);
    let keys = pattern_keys(all);
    let order = choose|order: Seq<usize>| #[trigger] is_sort_order(keys, order) && r == order.map_values(|k: usize| all[k as int]);
    assert(goes_before(keys, order[i] as int, order[j] as int));
    assert(order[i] < keys.len() && order[j] < keys.len());
    assert(r[i] == all[order[i] as int] && r[j] == all[order[j] as int]);
}

/// The four lists that patterns are gathered from.
spec fn part(cs: Seq<Concept>, k: int) -> spec_fn(int) -> Seq<PatternView> {
    if k == 0 {
        |i: int| builder_at(cs, i)
    } else if k == 1 {
        |i: int| singleton_at(cs, i)
    } else if k == 2 {
        |i: int| factory_at(cs, i)
    } else {
        |i: int| visitor_at(cs, i)
    }
}

proof fn lemma_part(cs: Seq<Concept>, k: int, i: int)
    requires
        0 <= k < 4,
        0 <= i < cs.len(),
    ensures
        part(cs, k)(i).len() <= 1,
        forall|x: PatternView| #[trigger] part(cs, k)(i).contains(x) ==> x.concept_id == cs[i].id@ && pattern_rank(x.kind) == k,
{
    lemma_factory(cs, i);
    assert forall|x: PatternView| #[trigger] part(cs, k)(i).contains(x) implies x.concept_id == cs[i].id@ && pattern_rank(x.kind) == k by {
        assert(part(cs, k)(i)[0] == x);
    }
}

proof fn lemma_part_apart(cs: Seq<Concept>, k: int, p: int, q: int)
    requires
        0 <= k < 4,
        ids(cs).no_duplicates(),
        0 <= p < q < gather(part(cs, k), cs.len()).len(),
    ensures
        gather(part(cs, k), cs.len())[p].concept_id != gather(part(cs, k), cs.len())[q].concept_id,
{
    let f = part(cs, k);
    assert forall|i: int| 0 <= i < cs.len() implies (#[trigger] f(i)).len() <= 1 by {
        lemma_part(cs, k, i);
    }
    lemma_gather_apart(f, cs.len(), p, q);
    let g = gather(f, cs.len());
    let (i, j) = choose|i: int, j: int| 0 <= i < j < cs.len() && (#[trigger] f(i)).contains(g[p]) && (#[trigger] f(j)).contains(g[q]);
    lemma_part(cs, k, i);
    lemma_part(cs, k, j);
    assert(ids(cs)[i] != ids(cs)[j]);
}

proof fn lemma_part_kind(cs: Seq<Concept>, k: int, p: int)
    requires
        0 <= k < 4,
        0 <= p < gather(part(cs, k), cs.len()).len(),
    ensures
        pattern_rank(gather(part(cs, k), cs.len())[p].kind) == k,
{
    let f = part(cs, k);
    let g = gather(f, cs.len());
    lemma_gather_holds(f, cs.len(), g[p]);
    assert(g.contains(g[p]));
    let i = choose|i: int| 0 <= i < cs.len() && (#[trigger] f(i)).contains(g[p]);
    lemma_part(cs, k, i);
}

/// Where no two concepts have one id, no pattern is reported twice on one.
pub proof fn patterns_are_reported_once(cs: Seq<Concept>, r: Seq<PatternView>, i: int, j: int)
    requires
        sorted_by(all_patterns(cs), pattern_keys(all_patterns(cs)), r),
        ids(cs).no_duplicates(),
        0 <= i < j < r.len(),
        r[i].kind == r[j].kind,
    ensures
        r[i].concept_id != r[j].concept_id,
{
    let all = all_patterns(cs);
    let keys = pattern_keys(all);
    let order = choose|order: Seq<usize>| #[trigger] is_sort_order(keys, order) && r == order.map_values(|k: usize| all[k as int]);
    lemma_order_distinct(keys, order);
    assert(order[i] != order[j]);
    assert(order[i] < keys.len() && order[j] < keys.len());
    let (p, q) = if order[i] < order[j] {
        (order[i] as int, order[j] as int)
    } else {
        (order[j] as int, order[i] as int)
    };
    let n = cs.len();
    let (a, b, c, d) = (gather(part(cs, 0), n), gather(part(cs, 1), n), gather(part(cs, 2), n), gather(part(cs, 3), n));
    assert(all == a + b + c + d);
    let (x, y, z) = (a.len() as int, (a.len() + b.len()) as int, (a.len() + b.len() + c.len()) as int);
    let k = pattern_rank(r[i].kind);
    assert forall|m: int| 0 <= m < all.len() implies #[trigger] all[m] == (if m < x {
        a[m]
    } else if m < y {
        b[m - x]
    } else if m < z {
        c[m - y]
    } else {
        d[m - z]
    }) by {}
    assert forall|m: int| 0 <= m < all.len() implies pattern_rank((#[trigger] all[m]).kind) == (if m < x {
        0int
    } else if m < y {
        1
    } else if m < z {
        2
    } else {
        3
    }) by {
        if m < x {
            lemma_part_kind(cs, 0, m);
        } else if m < y {
            lemma_part_kind(cs, 1, m - x);
        } else if m < z {
            lemma_part_kind(cs, 2, m - y);
        } else {
            lemma_part_kind(cs, 3, m - z);
        }
    }
    assert(pattern_rank(all[p].kind) == k && pattern_rank(all[q].kind) == k);
    if k == 0 {
        lemma_part_apart(cs, 0, p, q);
    } else if k == 1 {
        lemma_part_apart(cs, 1, p - x, q - x);
    } else if k == 2 {
        lemma_part_apart(cs, 2, p - y, q - y);
    } else {
        lemma_part_apart(cs, 3, p - z, q - z);
    }
}

}
