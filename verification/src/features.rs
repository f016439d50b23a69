//! Endpoints, database models and event flow that names give away.

use vstd::prelude::*;
use crate::model::{Concept, ConceptKind};
use crate::order::{in_order, sort_order, SortKey};
use crate::order::{gather, goes_before, is_sort_order, key_views, lemma_gather_holds, lemma_order_distinct, lemma_sorting_keeps, sorted_by, KeyView};
use crate::ownership::{group_methods_by_owner, is_type_kind, methods_of, path_after_kind_dir, OwnedMethod};
use crate::ownership::{are_methods, id_path, is_method_on, lists_methods, methods_are_found_by_their_ids, methods_at, type_kind};
use crate::text::{has_prefix, has_suffix, lower_text};
use crate::text::{beginnings_are_followed, begins_with, ends_like, finishes_with, lex_lt, lower, small_letters_forget_case, starts_like};

verus! {

/// The features that can be found.
#[derive(Clone, Copy, Debug, PartialEq, Eq, Structural)]
pub enum FeatureKind {
    RestEndpoint,
    DatabaseModel,
    EventFlow,
}

impl FeatureKind {
    /// The name of the feature.
    pub fn as_str(&self) -> (r: &'static str)
        ensures
            r@ == (match *self {
                FeatureKind::RestEndpoint => "RestEndpoint"@,
                FeatureKind::DatabaseModel => "DatabaseModel"@,
                FeatureKind::EventFlow => "EventFlow"@,
            }),
    {
        match self {
            FeatureKind::RestEndpoint => "RestEndpoint",
            FeatureKind::DatabaseModel => "DatabaseModel",
            FeatureKind::EventFlow => "EventFlow",
        }
    }

    fn rank(&self) -> (r: usize)
        ensures
            r == feature_rank(*self),
    {
        match self {
            FeatureKind::RestEndpoint => 0,
            FeatureKind::DatabaseModel => 1,
            FeatureKind::EventFlow => 2,
        }
    }
}

/// The place of a feature among the others.
pub open spec fn feature_rank(kind: FeatureKind) -> int {
    match kind {
        FeatureKind::RestEndpoint => 0,
        FeatureKind::DatabaseModel => 1,
        FeatureKind::EventFlow => 2,
    }
}

/// A feature that was found, with the concept that shows it and why.
#[derive(Debug)]
pub struct DetectedFeature {
    pub kind: FeatureKind,
    pub concept_id: String,
    pub evidence: String,
}

/// A found feature as a value.
pub struct FeatureView {
    pub kind: FeatureKind,
    pub concept_id: Seq<char>,
    pub evidence: Seq<char>,
}

impl View for DetectedFeature {
    type V = FeatureView;

    open spec fn view(&self) -> FeatureView {
        FeatureView { kind: self.kind, concept_id: self.concept_id@, evidence: self.evidence@ }
    }
}

/// The found features as values.
pub open spec fn feature_views(v: Seq<DetectedFeature>) -> Seq<FeatureView> {
    v.map_values(|p: DetectedFeature| p@)
}

/// What found features are sorted by: the feature, then the concept.
pub open spec fn feature_keys(v: Seq<FeatureView>) -> Seq<KeyView> {
    v.map_values(|p: FeatureView| KeyView { major: feature_rank(p.kind), text: p.concept_id, second: ""@, minor: 0 })
}

/// The endpoints that the public methods of a controller are.
pub open spec fn endpoints(cs: Seq<Concept>, controller: Seq<char>, at: Seq<int>) -> Seq<FeatureView>
    decreases at.len(),
{
    if at.len() == 0 {
        Seq::empty()
    } else {
        let rest = endpoints(cs, controller, at.drop_last());
        let m = cs[at.last()];
        if m.is_public {
            rest.push(FeatureView {
                kind: FeatureKind::RestEndpoint,
                concept_id: m.id@,
                evidence: "public method `"@ + m.name@ + "` on `"@ + controller + "` (named *Controller)"@,
            })
        } else {
            rest
        }
    }
}

/// The ending of the name that marks a database model.
pub open spec fn model_suffix(name: Seq<char>) -> Option<Seq<char>> {
    if finishes_with(name, "Model"@) {
        Some("Model"@)
    } else if finishes_with(name, "Entity"@) {
        Some("Entity"@)
    } else if finishes_with(name, "Record"@) {
        Some("Record"@)
    } else {
        None
    }
}

/// A type named as a database model.
pub open spec fn model_of(c: Concept) -> Seq<FeatureView> {
    match model_suffix(c.name@) {
        Some(suffix) => seq![FeatureView {
            kind: FeatureKind::DatabaseModel,
            concept_id: c.id@,
            evidence: "`"@ + c.name@ + "` is named *"@ + suffix + " (a common ORM/database-model naming convention)"@,
        }],
        None => Seq::empty(),
    }
}

/// What a function does with events, by its name.
pub open spec fn event_role(name: Seq<char>) -> Option<Seq<char>> {
    let small = lower(name);
    if begins_with(small, "emit_"@) || begins_with(small, "publish_"@) {
        Some("emits"@)
    } else if begins_with(small, "subscribe_"@) || begins_with(small, "on_"@) {
        Some("subscribes to"@)
    } else if finishes_with(small, "_handler"@) || finishes_with(small, "_event"@) {
        Some("handles"@)
    } else {
        None
    }
}

/// A function named as taking part in event flow.
pub open spec fn event_of(c: Concept) -> Seq<FeatureView> {
    match event_role(c.name@) {
        Some(role) => seq![FeatureView {
            kind: FeatureKind::EventFlow,
            concept_id: c.id@,
            evidence: "`"@ + c.name@ + "` "@ + role + " an event, by naming convention"@,
        }],
        None => Seq::empty(),
    }
}

/// The features that the concept at `i` shows.
pub open spec fn features_at(cs: Seq<Concept>, i: int) -> Seq<FeatureView> {
    let c = cs[i];
    if type_kind(c.kind) {
        (if finishes_with(c.name@, "Controller"@) {
            endpoints(cs, c.name@, methods_at(cs, id_path(c.id@), cs.len()))
        } else {
            Seq::empty()
        }) + model_of(c)
    } else if c.kind == ConceptKind::Function || c.kind == ConceptKind::Method {
        event_of(c)
    } else {
        Seq::empty()
    }
}

/// Every feature in the concepts.
pub open spec fn all_features(cs: Seq<Concept>) -> Seq<FeatureView> {
    gather(|i: int| features_at(cs, i), cs.len())
}

/// The public methods of a controller, each an endpoint.
fn rest_endpoints_for_controller<'a>(concepts: &'a [Concept], controller: &Concept, owned: &Vec<OwnedMethod<'a>>) -> (r: Vec<DetectedFeature>)
    requires
        lists_methods(concepts@, owned@, concepts@.len() as int),
    ensures
        feature_views(r@) == endpoints(concepts@, controller.name@, methods_at(concepts@, id_path(controller.id@), concepts@.len())),
{
    let ghost cs = concepts@;
    let methods = methods_of(concepts, owned, path_after_kind_dir(controller.id.as_str()));
    let ghost at = methods_at(cs, id_path(controller.id@), cs.len());
    let mut out: Vec<DetectedFeature> = Vec::new();
    for k in 0..methods.len()
        invariant
            are_methods(methods@, cs, at),
            feature_views(out@) == endpoints(cs, controller.name@, at.take(k as int)),
    {
        let ghost before = feature_views(out@);
        proof {
            assert(at.take(k + 1).drop_last() =~= at.take(k as int));
            assert(at.take(k + 1).last() == at[k as int]);
        }
        let m: &Concept = methods[k];
        if m.is_public {
            let mut evidence = "public method `".to_owned();
            evidence.append(m.name.as_str());
            evidence.append("` on `");
            evidence.append(controller.name.as_str());
            evidence.append("` (named *Controller)");
            out.push(DetectedFeature { kind: FeatureKind::RestEndpoint, concept_id: m.id.clone(), evidence });
            assert(feature_views(out@) =~= before.push(out@.last()@));
        }
    }
    assert(at.take(at.len() as int) =~= at);
    out
}

/// The database model that the type is, by its name.
fn database_model_for(c: &Concept) -> (r: Option<DetectedFeature>)
    ensures
        match r {
            Some(f) => model_of(*c) == seq![f@],
            None => model_of(*c) == Seq::<FeatureView>::empty(),
        },
{
    let suffix = if has_suffix(c.name.as_str(), "Model") {
        "Model"
    } else if has_suffix(c.name.as_str(), "Entity") {
        "Entity"
    } else if has_suffix(c.name.as_str(), "Record") {
        "Record"
    } else {
        return None;
    };
    let mut evidence = "`".to_owned();
    evidence.append(c.name.as_str());
    evidence.append("` is named *");
    evidence.append(suffix);
    evidence.append(" (a common ORM/database-model naming convention)");
    Some(DetectedFeature { kind: FeatureKind::DatabaseModel, concept_id: c.id.clone(), evidence })
}

/// The part in event flow that the function takes, by its name.
fn event_flow_for(c: &Concept) -> (r: Option<DetectedFeature>)
    ensures
        match r {
            Some(f) => event_of(*c) == seq![f@],
            None => event_of(*c) == Seq::<FeatureView>::empty(),
        },
{
    let text = lower_text(c.name.as_str());
    let small = text.as_str();
    let role = if has_prefix(small, "emit_") || has_prefix(small, "publish_") {
        "emits"
    } else if has_prefix(small, "subscribe_") || has_prefix(small, "on_") {
        "subscribes to"
    } else if has_suffix(small, "_handler") || has_suffix(small, "_event") {
        "handles"
    } else {
        return None;
    };
    let mut evidence = "`".to_owned();
    evidence.append(c.name.as_str());
    evidence.append("` ");
    evidence.append(role);
    evidence.append(" an event, by naming convention");
    Some(DetectedFeature { kind: FeatureKind::EventFlow, concept_id: c.id.clone(), evidence })
}

/// Every feature in the concepts, by feature and then by concept.
pub fn detect_features(concepts: &[Concept]) -> (r: Vec<DetectedFeature>)
    ensures
        sorted_by(all_features(concepts@), feature_keys(all_features(concepts@)), feature_views(r@)),
{
    let ghost cs = concepts@;
    let ghost f = |i: int| features_at(cs, i);
    let owned = group_methods_by_owner(concepts);
    let mut found: Vec<DetectedFeature> = Vec::new();
    for i in 0..concepts.len()
        invariant
            cs == concepts@,
            f == (|i: int| features_at(cs, i)),
            lists_methods(cs, owned@, cs.len() as int),
            feature_views(found@) == gather(f, i as nat),
    {
        let c = &concepts[i];
        let ghost before = found@;
        let ghost mut added: Seq<DetectedFeature> = Seq::empty();
        if is_type_kind(c.kind) {
            if has_suffix(c.name.as_str(), "Controller") {
                let mut more = rest_endpoints_for_controller(concepts, c, &owned);
                proof {
                    added = more@;
                }
                found.append(&mut more);
            }
            if let Some(model) = database_model_for(c) {
                found.push(model);
                proof {
                    added = added.push(model);
                }
            }
        } else if matches!(c.kind, ConceptKind::Function | ConceptKind::Method) {
            if let Some(event) = event_flow_for(c) {
                found.push(event);
                proof {
                    added = added.push(event);
                }
            }
        }
        assert(found@ =~= before + added);
        assert(feature_views(added) =~= features_at(cs, i as int));
        assert(feature_views(found@) =~= feature_views(before) + feature_views(added));
    }
    let ghost fv = feature_views(found@);
    let mut keys: Vec<SortKey> = Vec::new();
    for i in 0..found.len()
        invariant
            keys@.len() == i,
            forall|k: int| 0 <= k < i ==> (#[trigger] keys@[k])@ == (KeyView { major: feature_rank(found@[k].kind), text: found@[k].concept_id@, second: ""@, minor: 0 }),
    {
        keys.push(SortKey { major: found[i].kind.rank(), text: found[i].concept_id.as_str(), second: "", minor: 0 });
    }
    let order = sort_order(&keys);
    proof {
        assert(key_views(keys@) =~= feature_keys(fv));
        lemma_order_distinct(key_views(keys@), order@);
    }
    let out = in_order(found, &order);
    assert(feature_views(out@) =~= order@.map_values(|k: usize| fv[k as int]));
    out
}

/// The feature is reported on the concept with this id.
pub open spec fn reports_feature(r: Seq<FeatureView>, kind: FeatureKind, id: Seq<char>) -> bool {
    exists|k: int| 0 <= k < r.len() && (#[trigger] r[k]).kind == kind && r[k].concept_id == id
}

/// The concept is a type with methods.
pub open spec fn is_type_with_methods(c: Concept) -> bool {
    c.kind is Struct || c.kind is Class || c.kind is Interface || c.kind is Trait
}

/// The text ends so.
pub open spec fn ends_in(s: Seq<char>, p: Seq<char>) -> bool {
    exists|first: Seq<char>| s == #[trigger] (first + p)
}

/// The name is that of something that takes part in event flow.
pub open spec fn names_event_flow(name: Seq<char>) -> bool {
    ||| starts_like(name, "emit_"@)
    ||| starts_like(name, "publish_"@)
    ||| starts_like(name, "subscribe_"@)
    ||| starts_like(name, "on_"@)
    ||| ends_like(name, "_handler"@)
    ||| ends_like(name, "_event"@)
}

/// The concept at `j` is a public method of the type at `i`, which is named as
/// a controller.
pub open spec fn is_endpoint(cs: Seq<Concept>, i: int, j: int) -> bool {
    0 <= i < cs.len() && is_type_with_methods(cs[i]) && ends_in(cs[i].name@, "Controller"@) && is_method_on(cs, i, j) && cs[j].is_public
}

proof fn lemma_endpoints(cs: Seq<Concept>, controller: Seq<char>, at: Seq<int>)
    ensures
        forall|x: FeatureView| #[trigger] endpoints(cs, controller, at).contains(x) ==> exists|k: int| 0 <= k < at.len() && cs[#[trigger] at[k]].is_public
            && x.concept_id == cs[at[k]].id@ && x.kind is RestEndpoint,
        forall|k: int| 0 <= k < at.len() && cs[#[trigger] at[k]].is_public ==> exists|m: int|
            0 <= m < endpoints(cs, controller, at).len() && (#[trigger] endpoints(cs, controller, at)[m]).concept_id == cs[at[k]].id@ && endpoints(cs, controller, at)[m].kind is RestEndpoint,
    decreases at.len(),
{
    let all = endpoints(cs, controller, at);
    if at.len() > 0 {
        let init = at.drop_last();
        lemma_endpoints(cs, controller, init);
        let rest = endpoints(cs, controller, init);
        assert forall|x: FeatureView| #[trigger] all.contains(x) implies exists|k: int| 0 <= k < at.len() && cs[#[trigger] at[k]].is_public && x.concept_id == cs[at[k]].id@ && x.kind is RestEndpoint by {
            let m = choose|m: int| 0 <= m < all.len() && all[m] == x;
            if m < rest.len() {
                assert(rest[m] == x);
                assert(rest.contains(x));
                let k = choose|k: int| 0 <= k < init.len() && cs[#[trigger] init[k]].is_public && x.concept_id == cs[init[k]].id@ && x.kind is RestEndpoint;
                assert(at[k] == init[k]);
            } else {
                assert(at[at.len() - 1] == at.last());
            }
        }
        assert forall|k: int| 0 <= k < at.len() && cs[#[trigger] at[k]].is_public implies exists|m: int|
            0 <= m < all.len() && (#[trigger] all[m]).concept_id == cs[at[k]].id@ && all[m].kind is RestEndpoint by {
            if k < init.len() {
                assert(init[k] == at[k]);
                let m = choose|m: int| 0 <= m < rest.len() && (#[trigger] rest[m]).concept_id == cs[init[k]].id@ && rest[m].kind is RestEndpoint;
                assert(all[m] == rest[m]);
            } else {
                assert(all[rest.len() as int].concept_id == cs[at[k]].id@);
            }
        }
    }
}

proof fn lemma_found(cs: Seq<Concept>, r: Seq<FeatureView>, x: FeatureView)
    requires
        sorted_by(all_features(cs), feature_keys(all_features(cs)), r),
        r.len() <= usize::MAX,
    ensures
        r.contains(x) <==> exists|i: int| 0 <= i < cs.len() && (#[trigger] features_at(cs, i)).contains(x),
{
    let all = all_features(cs);
    let f = |i: int| features_at(cs, i);
    assert(feature_keys(all).len() == all.len());
    lemma_sorting_keeps(all, feature_keys(all), r);
    lemma_gather_holds(f, cs.len(), x);
    assert(r.contains(x) <==> all.contains(x));
    if all.contains(x) {
        let i = choose|i: int| 0 <= i < cs.len() && (#[trigger] f(i)).contains(x);
        assert(features_at(cs, i).contains(x));
    }
    if exists|i: int| 0 <= i < cs.len() && (#[trigger] features_at(cs, i)).contains(x) {
        let i = choose|i: int| 0 <= i < cs.len() && (#[trigger] features_at(cs, i)).contains(x);
        assert(f(i).contains(x));
    }
}

/// A method is reported as an endpoint exactly where it is public and belongs
/// to a type whose name ends in `Controller`.
pub proof fn endpoints_are_public_methods_of_controllers(cs: Seq<Concept>, r: Seq<FeatureView>, id: Seq<char>)
    requires
        sorted_by(all_features(cs), feature_keys(all_features(cs)), r),
        r.len() <= usize::MAX,
    ensures
        reports_feature(r, FeatureKind::RestEndpoint, id) <==> exists|i: int, j: int| #[trigger] is_endpoint(cs, i, j) && cs[j].id@ == id,
{
    if reports_feature(r, FeatureKind::RestEndpoint, id) {
        let k = choose|k: int| 0 <= k < r.len() && (#[trigger] r[k]).kind == FeatureKind::RestEndpoint && r[k].concept_id == id;
        lemma_found(cs, r, r[k]);
        assert(r.contains(r[k]));
        let i = choose|i: int| 0 <= i < cs.len() && (#[trigger] features_at(cs, i)).contains(r[k]);
        let at = methods_at(cs, id_path(cs[i].id@), cs.len());
        lemma_endpoints(cs, cs[i].name@, at);
        methods_are_found_by_their_ids(cs, i, cs.len());
        beginnings_are_followed(cs[i].name@, "Controller"@);
        assert(endpoints(cs, cs[i].name@, at).contains(r[k])) by {
            let p = choose|p: int| 0 <= p < features_at(cs, i).len() && features_at(cs, i)[p] == r[k];
            let es = endpoints(cs, cs[i].name@, at);
            if finishes_with(cs[i].name@, "Controller"@) && p < es.len() {
                assert(es[p] == r[k]);
            }
        }
        let m = choose|m: int| 0 <= m < at.len() && cs[#[trigger] at[m]].is_public && id == cs[at[m]].id@;
        let method = |j: int| is_method_on(cs, i, j);
        assert(method(at[m]));
        assert(is_endpoint(cs, i, at[m]));
    }
    if exists|i: int, j: int| #[trigger] is_endpoint(cs, i, j) && cs[j].id@ == id {
        let (i, j) = choose|i: int, j: int| #[trigger] is_endpoint(cs, i, j) && cs[j].id@ == id;
        let at = methods_at(cs, id_path(cs[i].id@), cs.len());
        let es = endpoints(cs, cs[i].name@, at);
        lemma_endpoints(cs, cs[i].name@, at);
        methods_are_found_by_their_ids(cs, i, cs.len());
        beginnings_are_followed(cs[i].name@, "Controller"@);
        let method = |j: int| is_method_on(cs, i, j);
        assert(method(j));
        let k = choose|k: int| 0 <= k < at.len() && at[k] == j;
        assert(cs[at[k]].is_public);
        let m = choose|m: int| 0 <= m < es.len() && (#[trigger] es[m]).concept_id == cs[at[k]].id@ && es[m].kind is RestEndpoint;
        assert(features_at(cs, i)[m] == es[m]);
        assert(features_at(cs, i).contains(es[m]));
        lemma_found(cs, r, es[m]);
        let p = choose|p: int| 0 <= p < r.len() && r[p] == es[m];
        assert(r[p].kind == FeatureKind::RestEndpoint && r[p].concept_id == id);
    }
}

/// A type is reported as a database model exactly where its name ends in
/// `Model`, `Entity` or `Record`.
pub proof fn models_are_named_so(cs: Seq<Concept>, r: Seq<FeatureView>, id: Seq<char>)
    requires
        sorted_by(all_features(cs), feature_keys(all_features(cs)), r),
        r.len() <= usize::MAX,
    ensures
        reports_feature(r, FeatureKind::DatabaseModel, id) <==> exists|i: int|
            0 <= i < cs.len() && (#[trigger] cs[i]).id@ == id && is_type_with_methods(cs[i]) && (ends_in(cs[i].name@, "Model"@) || ends_in(cs[i].name@, "Entity"@) || ends_in(
                cs[i].name@,
                "Record"@,
            )),
{
    if reports_feature(r, FeatureKind::DatabaseModel, id) {
        let k = choose|k: int| 0 <= k < r.len() && (#[trigger] r[k]).kind == FeatureKind::DatabaseModel && r[k].concept_id == id;
        lemma_found(cs, r, r[k]);
        assert(r.contains(r[k]));
        let i = choose|i: int| 0 <= i < cs.len() && (#[trigger] features_at(cs, i)).contains(r[k]);
        let at = methods_at(cs, id_path(cs[i].id@), cs.len());
        let es = endpoints(cs, cs[i].name@, at);
        lemma_endpoints(cs, cs[i].name@, at);
        let p = choose|p: int| 0 <= p < features_at(cs, i).len() && features_at(cs, i)[p] == r[k];
        if type_kind(cs[i].kind) && finishes_with(cs[i].name@, "Controller"@) && p < es.len() {
            assert(es[p] == r[k]);
            assert(es.contains(r[k]));
        }
        assert(cs[i].id@ == id);
        beginnings_are_followed(cs[i].name@, "Model"@);
        beginnings_are_followed(cs[i].name@, "Entity"@);
        beginnings_are_followed(cs[i].name@, "Record"@);
    }
    if exists|i: int|
        0 <= i < cs.len() && (#[trigger] cs[i]).id@ == id && is_type_with_methods(cs[i]) && (ends_in(cs[i].name@, "Model"@) || ends_in(cs[i].name@, "Entity"@) || ends_in(
            cs[i].name@,
            "Record"@,
        )) {
        let i = choose|i: int|
            0 <= i < cs.len() && (#[trigger] cs[i]).id@ == id && is_type_with_methods(cs[i]) && (ends_in(cs[i].name@, "Model"@) || ends_in(cs[i].name@, "Entity"@) || ends_in(
                cs[i].name@,
                "Record"@,
            ));
        beginnings_are_followed(cs[i].name@, "Model"@);
        beginnings_are_followed(cs[i].name@, "Entity"@);
        beginnings_are_followed(cs[i].name@, "Record"@);
        let x = model_of(cs[i])[0];
        let all = features_at(cs, i);
        assert(all[all.len() - 1] == x);
        assert(all.contains(x));
        lemma_found(cs, r, x);
        let p = choose|p: int| 0 <= p < r.len() && r[p] == x;
        assert(r[p].kind == FeatureKind::DatabaseModel && r[p].concept_id == id);
    }
}

/// A function or method is reported as part of event flow exactly where its
/// name says so, whatever the case.
pub proof fn event_flow_is_named_so(cs: Seq<Concept>, r: Seq<FeatureView>, id: Seq<char>)
    requires
        sorted_by(all_features(cs), feature_keys(all_features(cs)), r),
        r.len() <= usize::MAX,
    ensures
        reports_feature(r, FeatureKind::EventFlow, id) <==> exists|i: int|
            0 <= i < cs.len() && (#[trigger] cs[i]).id@ == id && (cs[i].kind is Function || cs[i].kind is Method) && names_event_flow(cs[i].name@),
{
    assert forall|i: int| 0 <= i < cs.len() implies (event_role((#[trigger] cs[i]).name@) is Some <==> names_event_flow(cs[i].name@)) by {
        lemma_event_names(cs[i].name@);
    }
    if reports_feature(r, FeatureKind::EventFlow, id) {
        let k = choose|k: int| 0 <= k < r.len() && (#[trigger] r[k]).kind == FeatureKind::EventFlow && r[k].concept_id == id;
        lemma_found(cs, r, r[k]);
        assert(r.contains(r[k]));
        let i = choose|i: int| 0 <= i < cs.len() && (#[trigger] features_at(cs, i)).contains(r[k]);
        let at = methods_at(cs, id_path(cs[i].id@), cs.len());
        let es = endpoints(cs, cs[i].name@, at);
        lemma_endpoints(cs, cs[i].name@, at);
        let p = choose|p: int| 0 <= p < features_at(cs, i).len() && features_at(cs, i)[p] == r[k];
        if type_kind(cs[i].kind) && finishes_with(cs[i].name@, "Controller"@) && p < es.len() {
            assert(es[p] == r[k]);
            assert(es.contains(r[k]));
        }
        assert(cs[i].id@ == id);
    }
    if exists|i: int| 0 <= i < cs.len() && (#[trigger] cs[i]).id@ == id && (cs[i].kind is Function || cs[i].kind is Method) && names_event_flow(cs[i].name@) {
        let i = choose|i: int| 0 <= i < cs.len() && (#[trigger] cs[i]).id@ == id && (cs[i].kind is Function || cs[i].kind is Method) && names_event_flow(cs[i].name@);
        let x = event_of(cs[i])[0];
        assert(features_at(cs, i)[0] == x);
        assert(features_at(cs, i).contains(x));
        lemma_found(cs, r, x);
        let p = choose|p: int| 0 <= p < r.len() && r[p] == x;
        assert(r[p].kind == FeatureKind::EventFlow && r[p].concept_id == id);
    }
}

/// What begins with `emit_` or `publish_` emits; else what begins with
/// `subscribe_` or `on_` subscribes; else what ends in `_handler` or `_event`
/// handles.
pub proof fn event_roles_follow_the_name(name: Seq<char>)
    ensures
        event_role(name) == (if starts_like(name, "emit_"@) || starts_like(name, "publish_"@) {
            Some("emits"@)
        } else if starts_like(name, "subscribe_"@) || starts_like(name, "on_"@) {
            Some("subscribes to"@)
        } else if ends_like(name, "_handler"@) || ends_like(name, "_event"@) {
            Some("handles"@)
        } else {
            None
        }),
{
    lemma_event_names(name);
}

proof fn lemma_event_names(name: Seq<char>)
    ensures
        begins_with(lower(name), "emit_"@) <==> starts_like(name, "emit_"@),
        begins_with(lower(name), "publish_"@) <==> starts_like(name, "publish_"@),
        begins_with(lower(name), "subscribe_"@) <==> starts_like(name, "subscribe_"@),
        begins_with(lower(name), "on_"@) <==> starts_like(name, "on_"@),
        finishes_with(lower(name), "_handler"@) <==> ends_like(name, "_handler"@),
        finishes_with(lower(name), "_event"@) <==> ends_like(name, "_event"@),
{
    reveal_strlit("emit_");
    reveal_strlit("publish_");
    reveal_strlit("subscribe_");
    reveal_strlit("on_");
    reveal_strlit("_handler");
    reveal_strlit("_event");
    small_letters_forget_case(name, "emit_"@);
    small_letters_forget_case(name, "publish_"@);
    small_letters_forget_case(name, "subscribe_"@);
    small_letters_forget_case(name, "on_"@);
    small_letters_forget_case(name, "_handler"@);
    small_letters_forget_case(name, "_event"@);
}

/// The features come one kind after the other: endpoints, models, event flow;
/// those of one kind by id.
pub proof fn features_come_by_kind_and_id(cs: Seq<Concept>, r: Seq<FeatureView>, i: int, j: int)
    requires
        sorted_by(all_features(cs), feature_keys(all_features(cs)), r),
        0 <= i < j < r.len(),
    ensures
        r[j].kind is RestEndpoint ==> r[i].kind is RestEndpoint,
        r[i].kind is EventFlow ==> r[j].kind is EventFlow,
        r[i].kind == r[j].kind ==> r[i].concept_id == r[j].concept_id || lex_lt(r[i].concept_id, r[j].concept_id),
{
    let all = all_features(cs);
    let keys = feature_keys(all);
    let order = choose|order: Seq<usize>| #[trigger] is_sort_order(keys, order) && r == order.map_values(|k: usize| all[k as int]);
    assert(goes_before(keys, order[i] as int, order[j] as int));
    assert(order[i] < keys.len() && order[j] < keys.len());
    assert(r[i] == all[order[i] as int] && r[j] == all[order[j] as int]);
}

}
