//! Architecture of a bundle at the level of packages: dependencies, layers
//! and domains.

use vstd::prelude::*;
use crate::digraph::{entwined, leads_to, lemma_leads_back};
use crate::graph::Graph;
use crate::graph::{are_at, ids, module_calls, owning_package_of, selection};
use crate::grouping::is_grouping;
use crate::grouping::sorted_grouping;
use crate::model::{Concept, ConceptKind};
use crate::order::{sort_order, sorted_pairs, SortKey};
use crate::order::{goes_before, group_views, is_sort_order, key_views, lemma_ascending_unique, lemma_lex_asymmetric, lemma_order_distinct, pair_views, str_views, strictly_sorted_pairs, KeyView};
use crate::scc::tarjan_scc;
use crate::scc::{answers, finitely_many, follows, is_scc_list, keeps_inside, led_to, stands};
use crate::text::same;
use crate::text::{lex_lt, texts};

verus! {

/// The place of a package in the layered architecture: layer 0 depends on no
/// other package.
#[derive(Debug, PartialEq, Eq)]
pub struct PackageLayer {
    pub package_id: String,
    pub layer: usize,
}

/// Packages that depend on each other, directly or through others, in either
/// direction.
#[derive(Debug, PartialEq, Eq)]
pub struct Domain {
    pub package_ids: Vec<String>,
}

/// The pairs as values.
pub open spec fn string_pairs(v: Seq<(String, String)>) -> Seq<(Seq<char>, Seq<char>)> {
    v.map_values(|p: (String, String)| (p.0@, p.1@))
}

/// The packages that own the two modules, where both are owned, and by
/// different packages.
pub open spec fn package_pair(cs: Seq<Concept>, from: Seq<char>, to: Seq<char>) -> Option<(Seq<char>, Seq<char>)> {
    match (owning_package_of(cs, from), owning_package_of(cs, to)) {
        (Some(a), Some(b)) => if cs[a].id@ != cs[b].id@ {
            Some((cs[a].id@, cs[b].id@))
        } else {
            None
        },
        _ => None,
    }
}

/// A module of package `a` calls into a module of another package `b`.
pub open spec fn depends(cs: Seq<Concept>, a: Seq<char>, b: Seq<char>) -> bool {
    exists|from: Seq<char>, to: Seq<char>| #[trigger] module_calls(cs, from, to) && package_pair(cs, from, to) == Some((a, b))
}

/// Dependence between packages, as a relation.
pub open spec fn dependence(cs: Seq<Concept>) -> spec_fn(Seq<char>, Seq<char>) -> bool {
    |a: Seq<char>, b: Seq<char>| depends(cs, a, b)
}

/// The package pairs of the module pairs, in order, leaving out those that
/// have none.
pub open spec fn package_pairs(cs: Seq<Concept>, modules: Seq<(Seq<char>, Seq<char>)>) -> Seq<(Seq<char>, Seq<char>)>
    decreases modules.len(),
{
    if modules.len() == 0 {
        Seq::empty()
    } else {
        let rest = package_pairs(cs, modules.drop_last());
        match package_pair(cs, modules.last().0, modules.last().1) {
            Some(p) => rest.push(p),
            None => rest,
        }
    }
}

/// The list of the pairs of modules of which the first calls the second.
pub open spec fn is_module_list(cs: Seq<Concept>, modules: Seq<(Seq<char>, Seq<char>)>) -> bool {
    &&& strictly_sorted_pairs(modules)
    &&& forall|p: (Seq<char>, Seq<char>)| #[trigger] modules.contains(p) <==> module_calls(cs, p.0, p.1)
}

pub proof fn lemma_package_pairs(cs: Seq<Concept>, modules: Seq<(Seq<char>, Seq<char>)>, p: (Seq<char>, Seq<char>))
    ensures
        package_pairs(cs, modules).contains(p) <==> exists|k: int| 0 <= k < modules.len() && package_pair(cs, (#[trigger] modules[k]).0, modules[k].1) == Some(p),
    decreases modules.len(),
{
    let all = package_pairs(cs, modules);
    if modules.len() > 0 {
        let before = modules.drop_last();
        let rest = package_pairs(cs, before);
        lemma_package_pairs(cs, before, p);
        if all.contains(p) {
            let i = choose|i: int| 0 <= i < all.len() && all[i] == p;
            if i < rest.len() {
                assert(rest[i] == p);
                let k = choose|k: int| 0 <= k < before.len() && package_pair(cs, (#[trigger] before[k]).0, before[k].1) == Some(p);
                assert(modules[k] == before[k]);
            } else {
                assert(package_pair(cs, modules[modules.len() - 1].0, modules[modules.len() - 1].1) == Some(p));
            }
        }
        if exists|k: int| 0 <= k < modules.len() && package_pair(cs, (#[trigger] modules[k]).0, modules[k].1) == Some(p) {
            let k = choose|k: int| 0 <= k < modules.len() && package_pair(cs, (#[trigger] modules[k]).0, modules[k].1) == Some(p);
            if k < modules.len() - 1 {
                assert(before[k] == modules[k]);
                let i = choose|i: int| 0 <= i < rest.len() && rest[i] == p;
                assert(all[i] == p);
            } else {
                assert(all[all.len() - 1] == p);
            }
        }
    }
}

/// For every pair of modules of which one calls the other, the packages that
/// own them, where these are known and differ.
pub fn resolved_package_edges<'a>(graph: &Graph<'a>) -> (r: Vec<(&'a str, &'a str)>)
    requires
        graph.wf(),
    ensures
        exists|modules: Seq<(Seq<char>, Seq<char>)>| #[trigger] is_module_list(graph@, modules) && pair_views(r@) == package_pairs(graph@, modules),
        forall|p: (Seq<char>, Seq<char>)| #[trigger] pair_views(r@).contains(p) <==> depends(graph@, p.0, p.1),
{
    let modules = graph.module_dependencies();
    let ghost mv = pair_views(modules@);
    let ghost cs = graph@;
    let mut out: Vec<(&'a str, &'a str)> = Vec::new();
    for i in 0..modules.len()
        invariant
            graph.wf(),
            cs == graph@,
            mv == pair_views(modules@),
            pair_views(out@) == package_pairs(cs, mv.take(i as int)),
    {
        let ghost before = pair_views(out@);
        let (from, to) = modules[i];
        proof {
            assert(mv.take(i + 1).drop_last() =~= mv.take(i as int));
            assert(mv.take(i + 1).last() == (from@, to@));
        }
        if let (Some(a), Some(b)) = (graph.owning_package(from), graph.owning_package(to)) {
            if !same(a.id.as_str(), b.id.as_str()) {
                out.push((a.id.as_str(), b.id.as_str()));
                assert(pair_views(out@) =~= before.push((a.id@, b.id@)));
            }
        }
    }
    proof {
        assert(mv.take(mv.len() as int) =~= mv);
        assert(is_module_list(cs, mv));
        assert forall|p: (Seq<char>, Seq<char>)| #[trigger] pair_views(out@).contains(p) <==> depends(cs, p.0, p.1) by {
            lemma_package_pairs(cs, mv, p);
            if pair_views(out@).contains(p) {
                let k = choose|k: int| 0 <= k < mv.len() && package_pair(cs, (#[trigger] mv[k]).0, mv[k].1) == Some(p);
                assert(mv.contains(mv[k]));
                assert(module_calls(cs, mv[k].0, mv[k].1));
            }
            if depends(cs, p.0, p.1) {
                let (from, to) = choose|from: Seq<char>, to: Seq<char>| #[trigger] module_calls(cs, from, to) && package_pair(cs, from, to) == Some((p.0, p.1));
                assert(mv.contains((from, to)));
                let k = choose|k: int| 0 <= k < mv.len() && mv[k] == (from, to);
                assert(package_pair(cs, mv[k].0, mv[k].1) == Some(p));
            }
        }
    }
    out
}

/// The dependencies between packages, in order, each once.
pub fn package_dependencies(graph: &Graph) -> (r: Vec<(String, String)>)
    requires
        graph.wf(),
    ensures
        strictly_sorted_pairs(string_pairs(r@)),
        forall|p: (Seq<char>, Seq<char>)| #[trigger] string_pairs(r@).contains(p) <==> depends(graph@, p.0, p.1),
{
    let edges = sorted_pairs(&resolved_package_edges(graph));
    let mut out: Vec<(String, String)> = Vec::new();
    for i in 0..edges.len()
        invariant
            out@.len() == i,
            forall|k: int| 0 <= k < i ==> (#[trigger] out@[k]).0@ == edges@[k].0@ && out@[k].1@ == edges@[k].1@,
    {
        out.push((edges[i].0.to_owned(), edges[i].1.to_owned()));
    }
    assert(string_pairs(out@) =~= pair_views(edges@));
    out
}

/// A package concept has this id.
pub open spec fn is_package(cs: Seq<Concept>, id: Seq<char>) -> bool {
    exists|i: int| 0 <= i < cs.len() && (#[trigger] cs[i]).kind == ConceptKind::Package && cs[i].id@ == id
}

/// The concept at the position is a package.
pub open spec fn package_at(cs: Seq<Concept>) -> spec_fn(int) -> bool {
    |i: int| cs[i].kind == ConceptKind::Package
}

/// The ids of the package concepts, in order, those of equal concepts each.
pub open spec fn lists_packages(cs: Seq<Concept>, ids: Seq<Seq<char>>) -> bool {
    exists|at: Seq<int>| #[trigger] selection(cs, package_at(cs), at) && ids == at.map_values(|i: int| cs[i].id@)
}

/// The ids of the packages, in order.
pub fn package_ids<'a>(graph: &Graph<'a>) -> (r: Vec<&'a str>)
    requires
        graph.wf(),
    ensures
        forall|t: Seq<char>| #[trigger] str_views(r@).contains(t) <==> is_package(graph@, t),
        lists_packages(graph@, str_views(r@)),
{
    let packages = graph.of_kind(ConceptKind::Package);
    let ghost cs = graph@;
    let ghost keep = |i: int| cs[i].kind == ConceptKind::Package;
    let ghost at = choose|at: Seq<int>| #[trigger] selection(cs, keep, at) && are_at(packages@, cs, at);
    let mut out: Vec<&'a str> = Vec::new();
    for i in 0..packages.len()
        invariant
            out@.len() == i,
            forall|k: int| 0 <= k < i ==> (#[trigger] out@[k])@ == packages@[k].id@,
    {
        out.push(packages[i].id.as_str());
    }
    proof {
        assert forall|t: Seq<char>| #[trigger] str_views(out@).contains(t) <==> is_package(cs, t) by {
            if str_views(out@).contains(t) {
                let k = choose|k: int| 0 <= k < str_views(out@).len() && str_views(out@)[k] == t;
                assert(keep(at[k]));
                assert(cs[at[k]].id@ == t);
            }
            if is_package(cs, t) {
                let i = choose|i: int| 0 <= i < cs.len() && (#[trigger] cs[i]).kind == ConceptKind::Package && cs[i].id@ == t;
                assert(keep(i));
                let k = choose|k: int| 0 <= k < at.len() && at[k] == i;
                assert(*packages@[k] == cs[at[k]]);
                assert(str_views(out@)[k] == t);
            }
        }
        assert forall|k: int| 0 <= k < at.len() implies str_views(out@)[k] == cs[#[trigger] at[k]].id@ by {
            assert(*packages@[k] == cs[at[k]]);
        }
        assert(str_views(out@) =~= at.map_values(|i: int| cs[i].id@));
        assert(selection(cs, package_at(cs), at)) by {
            assert(keep =~= package_at(cs));
        }
    }
    out
}

/// What the pairs with this first text have second, in order.
pub open spec fn seconds(edges: Seq<(Seq<char>, Seq<char>)>, node: Seq<char>) -> Seq<Seq<char>>
    decreases edges.len(),
{
    if edges.len() == 0 {
        Seq::empty()
    } else {
        let rest = seconds(edges.drop_last(), node);
        if edges.last().0 == node {
            rest.push(edges.last().1)
        } else {
            rest
        }
    }
}

proof fn lemma_seconds(edges: Seq<(Seq<char>, Seq<char>)>, node: Seq<char>, t: Seq<char>)
    ensures
        seconds(edges, node).contains(t) <==> edges.contains((node, t)),
    decreases edges.len(),
{
    if edges.len() > 0 {
        let before = edges.drop_last();
        let rest = seconds(before, node);
        let all = seconds(edges, node);
        lemma_seconds(before, node, t);
        if all.contains(t) {
            let i = choose|i: int| 0 <= i < all.len() && all[i] == t;
            if i < rest.len() {
                assert(rest[i] == t);
                let k = choose|k: int| 0 <= k < before.len() && before[k] == (node, t);
                assert(edges[k] == (node, t));
            } else {
                assert(edges[edges.len() - 1] == (node, t));
            }
        }
        if edges.contains((node, t)) {
            let k = choose|k: int| 0 <= k < edges.len() && edges[k] == (node, t);
            if k < before.len() {
                assert(before[k] == (node, t));
                let i = choose|i: int| 0 <= i < rest.len() && rest[i] == t;
                assert(all[i] == t);
            } else {
                assert(all[all.len() - 1] == t);
            }
        }
    }
}

/// What the pairs with this first text have second.
fn seconds_of<'a>(edges: &Vec<(&'a str, &'a str)>, node: &str) -> (r: Vec<&'a str>)
    ensures
        str_views(r@) == seconds(pair_views(edges@), node@),
{
    let ghost ev = pair_views(edges@);
    let mut out: Vec<&'a str> = Vec::new();
    for i in 0..edges.len()
        invariant
            ev == pair_views(edges@),
            str_views(out@) == seconds(ev.take(i as int), node@),
    {
        let ghost before = str_views(out@);
        let (a, b) = edges[i];
        if same(a, node) {
            out.push(b);
            assert(str_views(out@) =~= before.push(b@));
        }
        proof {
            assert(ev.take(i + 1).drop_last() =~= ev.take(i as int));
            assert(ev.take(i + 1).last() == (a@, b@));
        }
    }
    assert(ev.take(ev.len() as int) =~= ev);
    out
}

/// The strongly connected groups of what the nodes lead to over the pairs.
fn pair_groups<'a>(nodes: &Vec<&'a str>, edges: &Vec<(&'a str, &'a str)>, Ghost(rel): Ghost<spec_fn(Seq<char>, Seq<char>) -> bool>) -> (r: Vec<Vec<&'a str>>)
    requires
        forall|a: Seq<char>, b: Seq<char>| #[trigger] rel(a, b) <==> pair_views(edges@).contains((a, b)),
    ensures
        is_scc_list(rel, str_views(nodes@), group_views(r@)),
{
    let ghost ev = pair_views(edges@);
    let ghost next = |s: Seq<char>| seconds(ev, s);
    let lookup = |node: &'a str| -> (out: Vec<&'a str>)
        ensures
            str_views(out@) == seconds(pair_views(edges@), node@),
        {
            seconds_of(edges, node)
        };
    proof {
        let nv = str_views(nodes@);
        let tos = ev.map_values(|p: (Seq<char>, Seq<char>)| p.1);
        let all = nv.to_set().union(tos.to_set());
        vstd::seq_lib::seq_to_set_is_finite(nv);
        vstd::seq_lib::seq_to_set_is_finite(tos);
        assert(answers(lookup, next));
        assert(keeps_inside(next, all)) by {
            assert forall|s: Seq<char>, k: int| #![trigger next(s)[k]] all.contains(s) && 0 <= k < next(s).len() implies all.contains(next(s)[k]) by {
                let t = next(s)[k];
                assert(seconds(ev, s).contains(t));
                lemma_seconds(ev, s, t);
                let m = choose|m: int| 0 <= m < ev.len() && ev[m] == (s, t);
                assert(tos[m] == t);
                assert(tos.contains(t));
            }
        }
        assert forall|i: int| 0 <= i < nodes@.len() implies all.contains((#[trigger] nodes@[i])@) by {
            assert(nv[i] == nodes@[i]@);
            assert(nv.contains(nv[i]));
        }
        assert(finitely_many(nodes@, lookup));
    }
    let out = tarjan_scc(nodes, lookup);
    proof {
        assert(is_scc_list(follows(next), str_views(nodes@), group_views(out@)));
        assert forall|a: Seq<char>, b: Seq<char>| #[trigger] follows(next)(a, b) == rel(a, b) by {
            lemma_seconds(ev, a, b);
        }
        assert(follows(next) =~= rel);
    }
    out
}

/// The layers as values.
pub open spec fn layer_views(v: Seq<PackageLayer>) -> Seq<(Seq<char>, int)> {
    v.map_values(|l: PackageLayer| (l.package_id@, l.layer as int))
}

/// A package depends on this one, directly or through others, or is it.
pub open spec fn below_packages(cs: Seq<Concept>, id: Seq<char>) -> bool {
    exists|p: Seq<char>| #[trigger] is_package(cs, p) && leads_to(dependence(cs), p, id)
}

/// The list is sorted by layer and then by id and has each package, and what
/// packages depend on, once. Packages that depend on each other share a layer.
/// Any other dependency lies on a lower layer, and a layer above 0 is one more
/// than that of some dependency.
pub open spec fn is_layering(cs: Seq<Concept>, r: Seq<(Seq<char>, int)>) -> bool {
    let rel = dependence(cs);
    &&& forall|i: int, j: int| 0 <= i < j < r.len() ==> (#[trigger] r[i]).1 < (#[trigger] r[j]).1 || (r[i].1 == r[j].1 && lex_lt(r[i].0, r[j].0))
    &&& forall|i: int| 0 <= i < r.len() ==> below_packages(cs, (#[trigger] r[i]).0) && r[i].1 >= 0
    &&& forall|t: Seq<char>| #[trigger] below_packages(cs, t) ==> exists|i: int| 0 <= i < r.len() && (#[trigger] r[i]).0 == t
    &&& forall|i: int, j: int| 0 <= i < j < r.len() ==> (#[trigger] r[i]).0 != (#[trigger] r[j]).0
    &&& forall|i: int, j: int| 0 <= i < r.len() && 0 <= j < r.len() && entwined(rel, (#[trigger] r[i]).0, (#[trigger] r[j]).0) ==> r[i].1 == r[j].1
    &&& forall|i: int, j: int| 0 <= i < r.len() && 0 <= j < r.len() && depends(cs, (#[trigger] r[i]).0, (#[trigger] r[j]).0) && !entwined(rel, r[i].0, r[j].0)
        ==> r[j].1 < r[i].1
    &&& forall|i: int| 0 <= i < r.len() && (#[trigger] r[i]).1 > 0 ==> raised(cs, r, i)
}

/// Entry `i`, or one that it shares a cycle with, depends on an entry one
/// layer below.
pub open spec fn raised(cs: Seq<Concept>, r: Seq<(Seq<char>, int)>, i: int) -> bool {
    exists|j: int, k: int| 0 <= j < r.len() && 0 <= k < r.len() && entwined(dependence(cs), r[i].0, (#[trigger] r[j]).0)
        && depends(cs, r[j].0, (#[trigger] r[k]).0) && !entwined(dependence(cs), r[j].0, r[k].0) && r[k].1 + 1 == r[i].1
}

/// The name stands somewhere in group `c`.
spec fn in_group_of(groups: Seq<Seq<Seq<char>>>, t: Seq<char>, c: int) -> bool {
    exists|k: int| #[trigger] stands(groups, t, c, k)
}

/// The group that the name stands in.
fn group_of<'a>(groups: &Vec<Vec<&'a str>>, name: &str) -> (r: Option<usize>)
    ensures
        match r {
            Some(c) => in_group_of(group_views(groups@), name@, c as int),
            None => forall|c: int, k: int| !(#[trigger] stands(group_views(groups@), name@, c, k)),
        },
{
    let ghost gv = group_views(groups@);
    for c in 0..groups.len()
        invariant
            gv == group_views(groups@),
            forall|d: int, k: int| 0 <= d < c ==> !(#[trigger] stands(gv, name@, d, k)),
    {
        let size: usize = groups[c].len();
        for k in 0..size
            invariant
                gv == group_views(groups@),
                c < groups@.len(),
                size == gv[c as int].len(),
                forall|l: int| 0 <= l < k ==> !(#[trigger] stands(gv, name@, c as int, l)),
        {
            assert(gv[c as int][k as int] == groups@[c as int]@[k as int]@);
            if same(groups[c][k], name) {
                assert(stands(gv, name@, c as int, k as int));
                assert(in_group_of(gv, name@, c as int));
                return Some(c);
            }
        }
    }
    None
}

/// Member `k` of group `c` depends on member `l` of another group `d`.
spec fn group_dep(rel: spec_fn(Seq<char>, Seq<char>) -> bool, gv: Seq<Seq<Seq<char>>>, c: int, k: int, d: int, l: int) -> bool {
    &&& 0 <= c < gv.len() && 0 <= k < gv[c].len() && 0 <= d < gv.len() && 0 <= l < gv[d].len()
    &&& c != d
    &&& rel(gv[c][k], gv[d][l])
}

/// The layer of group `c` is above those of its dependencies, and just above
/// one of them if it is not 0.
spec fn layer_ok(rel: spec_fn(Seq<char>, Seq<char>) -> bool, gv: Seq<Seq<Seq<char>>>, layer: Seq<usize>, c: int) -> bool {
    &&& layer[c] <= c
    &&& forall|k: int, d: int, l: int| #[trigger] group_dep(rel, gv, c, k, d, l) ==> layer[d] < layer[c]
    &&& layer[c] > 0 ==> exists|k: int, d: int, l: int| #[trigger] group_dep(rel, gv, c, k, d, l) && d < c && layer[d] + 1 == layer[c]
}

/// The layer of each group, one more than the highest among the groups that it
/// depends on.
fn group_layers<'a>(nodes: Ghost<Seq<Seq<char>>>, groups: &Vec<Vec<&'a str>>, edges: &Vec<(&'a str, &'a str)>, Ghost(rel): Ghost<spec_fn(Seq<char>, Seq<char>) -> bool>) -> (r: Vec<usize>)
    requires
        is_scc_list(rel, nodes@, group_views(groups@)),
        forall|a: Seq<char>, b: Seq<char>| #[trigger] rel(a, b) <==> pair_views(edges@).contains((a, b)),
    ensures
        r@.len() == groups@.len(),
        forall|c: int| 0 <= c < r@.len() ==> #[trigger] layer_ok(rel, group_views(groups@), r@, c),
{
    let ghost gv = group_views(groups@);
    let ghost ev = pair_views(edges@);
    let mut layer: Vec<usize> = Vec::new();
    for c in 0..groups.len()
        invariant
            gv == group_views(groups@),
            ev == pair_views(edges@),
            is_scc_list(rel, nodes@, gv),
            forall|a: Seq<char>, b: Seq<char>| #[trigger] rel(a, b) <==> ev.contains((a, b)),
            layer@.len() == c,
            forall|d: int| 0 <= d < c ==> #[trigger] layer_ok(rel, gv, layer@, d),
    {
        let mut best: usize = 0;
        let size: usize = groups[c].len();
        for k in 0..size
            invariant
                gv == group_views(groups@),
                ev == pair_views(edges@),
                is_scc_list(rel, nodes@, gv),
                forall|a: Seq<char>, b: Seq<char>| #[trigger] rel(a, b) <==> ev.contains((a, b)),
                c < groups@.len(),
                layer@.len() == c,
                size == gv[c as int].len(),
                forall|d: int| 0 <= d < c ==> #[trigger] layer_ok(rel, gv, layer@, d),
                best <= c,
                forall|m: int, d: int, l: int| m < k && #[trigger] group_dep(rel, gv, c as int, m, d, l) ==> d < c && layer@[d] < best,
                best > 0 ==> exists|m: int, d: int, l: int| #[trigger] group_dep(rel, gv, c as int, m, d, l) && d < c && layer@[d] + 1 == best,
        {
            let name: &'a str = groups[c][k];
            assert(gv[c as int][k as int] == name@);
            assert(stands(gv, name@, c as int, k as int));
            let targets = seconds_of(edges, name);
            let ghost tv = str_views(targets@);
            proof {
                assert forall|t: Seq<char>| #[trigger] tv.contains(t) <==> rel(name@, t) by {
                    lemma_seconds(ev, name@, t);
                }
            }
            for j in 0..targets.len()
                invariant
                    gv == group_views(groups@),
                    is_scc_list(rel, nodes@, gv),
                    c < groups@.len(),
                    k < gv[c as int].len(),
                    gv[c as int][k as int] == name@,
                    layer@.len() == c,
                    tv == str_views(targets@),
                    forall|t: Seq<char>| #[trigger] tv.contains(t) <==> rel(name@, t),
                    forall|d: int| 0 <= d < c ==> #[trigger] layer_ok(rel, gv, layer@, d),
                    best <= c,
                    forall|m: int, d: int, l: int| m < k && #[trigger] group_dep(rel, gv, c as int, m, d, l) ==> d < c && layer@[d] < best,
                    forall|d: int, l: int, i: int| #[trigger] group_dep(rel, gv, c as int, k as int, d, l) && 0 <= i < j && #[trigger] tv[i] == gv[d][l] ==> d < c && layer@[d] < best,
                    best > 0 ==> exists|m: int, d: int, l: int| #[trigger] group_dep(rel, gv, c as int, m, d, l) && d < c && layer@[d] + 1 == best,
            {
                let t: &'a str = targets[j];
                let ghost old_best = best;
                proof {
                    assert(tv[j as int] == t@);
                    assert(tv.contains(t@));
                    assert(stands(gv, name@, c as int, k as int));
                }
                if let Some(d) = group_of(groups, t) {
                    let ghost l = choose|l: int| #[trigger] stands(gv, t@, d as int, l);
                    if d != c {
                        proof {
                            assert(group_dep(rel, gv, c as int, k as int, d as int, l));
                            assert(d <= c);
                            assert(layer_ok(rel, gv, layer@, d as int));
                        }
                        if layer[d] + 1 > best {
                            best = layer[d] + 1;
                        }
                    }
                    proof {
                        assert forall|e: int, m: int, i: int| #[trigger] group_dep(rel, gv, c as int, k as int, e, m) && 0 <= i < j + 1 && #[trigger] tv[i] == gv[e][m] implies e < c && layer@[e] < best by {
                            if i == j {
                                assert(stands(gv, t@, e, m));
                                assert(stands(gv, t@, d as int, l));
                            }
                        }
                    }
                } else {
                    proof {
                        assert forall|e: int, m: int, i: int| #[trigger] group_dep(rel, gv, c as int, k as int, e, m) && 0 <= i < j + 1 && #[trigger] tv[i] == gv[e][m] implies e < c && layer@[e] < best by {
                            if i == j {
                                assert(stands(gv, t@, e, m));
                            }
                        }
                    }
                }
            }
            proof {
                assert forall|m: int, d: int, l: int| m < k + 1 && #[trigger] group_dep(rel, gv, c as int, m, d, l) implies d < c && layer@[d] < best by {
                    if m == k {
                        assert(tv.contains(gv[d][l]));
                        let i = choose|i: int| 0 <= i < tv.len() && tv[i] == gv[d][l];
                        assert(tv[i] == gv[d][l]);
                    }
                }
            }
        }
        let ghost before = layer@;
        layer.push(best);
        proof {
            assert forall|d: int| 0 <= d < c + 1 implies #[trigger] layer_ok(rel, gv, layer@, d) by {
                if d < c {
                    assert(layer_ok(rel, gv, before, d));
                    assert forall|k: int, e: int, l: int| #[trigger] group_dep(rel, gv, d, k, e, l) implies layer@[e] < layer@[d] by {
                        assert(before[e] < before[d]);
                        assert(stands(gv, gv[d][k], d, k) && stands(gv, gv[e][l], e, l));
                    }
                    if layer@[d] > 0 {
                        let (k, e, l) = choose|k: int, e: int, l: int| #[trigger] group_dep(rel, gv, d, k, e, l) && e < d && before[e] + 1 == before[d];
                        assert(group_dep(rel, gv, d, k, e, l) && e < d && layer@[e] + 1 == layer@[d]);
                    }
                } else if best > 0 {
                    let (k, e, l) = choose|k: int, e: int, l: int| #[trigger] group_dep(rel, gv, c as int, k, e, l) && e < c && before[e] + 1 == best;
                    assert(group_dep(rel, gv, d, k, e, l) && e < d && layer@[e] + 1 == layer@[d]);
                }
            }
        }
    }
    layer
}

/// The entries are the members of the groups, each with the layer of its
/// group; `places` says which member each entry is.
spec fn entries_of(gv: Seq<Seq<Seq<char>>>, layer: Seq<usize>, entries: Seq<(&str, usize)>, places: Seq<(int, int)>, c: int, k: int) -> bool {
    &&& places.len() == entries.len()
    &&& forall|e: int| 0 <= e < entries.len() ==> {
        let (d, l) = #[trigger] places[e];
        &&& 0 <= d < gv.len() && 0 <= l < gv[d].len()
        &&& entries[e].0@ == gv[d][l]
        &&& entries[e].1 == layer[d]
    }
    &&& forall|d: int, l: int| 0 <= d < gv.len() && 0 <= l < gv[d].len() && (d < c || (d == c && l < k)) ==> #[trigger] placed_at(places, d, l)
    &&& forall|e: int, f: int| 0 <= e < f < places.len() ==> #[trigger] places[e] != #[trigger] places[f]
    &&& forall|e: int| 0 <= e < places.len() ==> (#[trigger] places[e]).0 < c || (places[e].0 == c && places[e].1 < k)
}

spec fn placed_at(places: Seq<(int, int)>, d: int, l: int) -> bool {
    exists|e: int| 0 <= e < places.len() && #[trigger] places[e] == (d, l)
}

proof fn lemma_is_layering(cs: Seq<Concept>, nodes: Seq<Seq<char>>, gv: Seq<Seq<Seq<char>>>, layer: Seq<usize>, entries: Seq<(&str, usize)>, places: Seq<(int, int)>, kv: Seq<KeyView>, order: Seq<usize>, out: Seq<(Seq<char>, int)>)
    requires
        forall|t: Seq<char>| #[trigger] nodes.contains(t) <==> is_package(cs, t),
        is_scc_list(dependence(cs), nodes, gv),
        layer.len() == gv.len(),
        forall|c: int| 0 <= c < gv.len() ==> #[trigger] layer_ok(dependence(cs), gv, layer, c),
        entries_of(gv, layer, entries, places, gv.len() as int, 0),
        kv.len() == entries.len(),
        forall|e: int| 0 <= e < kv.len() ==> #[trigger] kv[e] == (KeyView { major: entries[e].1 as int, text: entries[e].0@, second: ""@, minor: 0 }),
        is_sort_order(kv, order),
        kv.len() <= usize::MAX,
        out.len() == order.len(),
        forall|i: int| 0 <= i < out.len() ==> #[trigger] out[i] == (entries[order[i] as int].0@, entries[order[i] as int].1 as int),
    ensures
        is_layering(cs, out),
{
    let rel = dependence(cs);
    let at = |i: int| places[order[i] as int];
    lemma_order_distinct(kv, order);
    assert forall|i: int| 0 <= i < out.len() implies {
        let (c, k) = #[trigger] at(i);
        stands(gv, out[i].0, c, k) && out[i].1 == layer[c]
    } by {
        let e = order[i] as int;
        assert(0 <= e < entries.len());
        let (c, k) = places[e];
        assert(entries[e].0@ == gv[c][k]);
    }
    assert forall|t: Seq<char>| led_to(rel, nodes, t) <==> #[trigger] below_packages(cs, t) by {
        if led_to(rel, nodes, t) {
            let i = choose|i: int| 0 <= i < nodes.len() && leads_to(rel, #[trigger] nodes[i], t);
            assert(nodes.contains(nodes[i]));
            assert(is_package(cs, nodes[i]));
        }
        if below_packages(cs, t) {
            let p = choose|p: Seq<char>| #[trigger] is_package(cs, p) && leads_to(rel, p, t);
            assert(nodes.contains(p));
            let i = choose|i: int| 0 <= i < nodes.len() && nodes[i] == p;
            assert(leads_to(rel, nodes[i], t));
        }
    }
    assert forall|c: int, k: int| 0 <= c < gv.len() && 0 <= k < gv[c].len() implies exists|i: int| 0 <= i < out.len() && (#[trigger] out[i]) == (#[trigger] gv[c][k], layer[c] as int) && at(i) == (c, k) by {
        assert(placed_at(places, c, k));
        let e = choose|e: int| 0 <= e < places.len() && #[trigger] places[e] == (c, k);
        assert(order.contains(e as usize));
        let i = choose|i: int| 0 <= i < order.len() && order[i] == e as usize;
        assert(order[i] == e);
        assert(out[i] == (gv[c][k], layer[c] as int));
        assert(at(i) == (c, k));
    }
    assert forall|i: int, j: int| 0 <= i < j < out.len() implies (#[trigger] out[i]).1 < (#[trigger] out[j]).1 || (out[i].1 == out[j].1 && lex_lt(out[i].0, out[j].0)) by {
        let (e, f) = (order[i] as int, order[j] as int);
        assert(goes_before(kv, e, f));
        assert(kv[e] == kv[e] && kv[f] == kv[f]);
        if kv[e] == kv[f] {
            let (c, k) = at(i);
            let (d, l) = at(j);
            assert(stands(gv, out[i].0, c, k) && stands(gv, out[i].0, d, l));
            assert(places[e] == places[f]);
            assert(e == f) by {
                if e < f {
                    assert(places[e] != places[f]);
                } else if f < e {
                    assert(places[f] != places[e]);
                }
            }
        }
    }
    assert forall|i: int| 0 <= i < out.len() implies below_packages(cs, (#[trigger] out[i]).0) && out[i].1 >= 0 by {
        let (c, k) = at(i);
        assert(stands(gv, out[i].0, c, k));
        assert(led_to(rel, nodes, out[i].0));
    }
    assert forall|t: Seq<char>| #[trigger] below_packages(cs, t) implies exists|i: int| 0 <= i < out.len() && (#[trigger] out[i]).0 == t by {
        assert(led_to(rel, nodes, t));
        let (c, k) = choose|c: int, k: int| stands(gv, t, c, k);
        assert(gv[c][k] == t);
        let i = choose|i: int| 0 <= i < out.len() && (#[trigger] out[i]) == (gv[c][k], layer[c] as int) && at(i) == (c, k);
        assert(out[i].0 == t);
    }
    assert forall|i: int, j: int| 0 <= i < j < out.len() implies (#[trigger] out[i]).0 != (#[trigger] out[j]).0 by {
        let (c, k) = at(i);
        let (d, l) = at(j);
        if out[i].0 == out[j].0 {
            assert(stands(gv, out[i].0, c, k) && stands(gv, out[i].0, d, l));
            let (e, f) = (order[i] as int, order[j] as int);
            if e < f {
                assert(places[e] != places[f]);
            } else {
                assert(places[f] != places[e]);
            }
        }
    }
    assert forall|i: int, j: int| 0 <= i < out.len() && 0 <= j < out.len() && entwined(rel, (#[trigger] out[i]).0, (#[trigger] out[j]).0) implies out[i].1 == out[j].1 by {
        let (c, k) = at(i);
        let (d, l) = at(j);
        assert(stands(gv, out[i].0, c, k) && stands(gv, out[j].0, d, l));
    }
    assert forall|i: int, j: int| 0 <= i < out.len() && 0 <= j < out.len() && depends(cs, (#[trigger] out[i]).0, (#[trigger] out[j]).0) && !entwined(rel, out[i].0, out[j].0)
        implies out[j].1 < out[i].1 by {
        let (c, k) = at(i);
        let (d, l) = at(j);
        assert(stands(gv, out[i].0, c, k) && stands(gv, out[j].0, d, l));
        assert(layer_ok(rel, gv, layer, c));
        assert(group_dep(rel, gv, c, k, d, l));
    }
    assert forall|i: int| 0 <= i < out.len() && (#[trigger] out[i]).1 > 0 implies raised(cs, out, i) by {
        let (c, k) = at(i);
        assert(stands(gv, out[i].0, c, k));
        assert(layer_ok(rel, gv, layer, c));
        let (m, d, l) = choose|m: int, d: int, l: int| #[trigger] group_dep(rel, gv, c, m, d, l) && d < c && layer[d] + 1 == layer[c];
        assert(gv[c][m] == gv[c][m] && gv[d][l] == gv[d][l]);
        let j = choose|j: int| 0 <= j < out.len() && (#[trigger] out[j]) == (gv[c][m], layer[c] as int) && at(j) == (c, m);
        let n = choose|n: int| 0 <= n < out.len() && (#[trigger] out[n]) == (gv[d][l], layer[d] as int) && at(n) == (d, l);
        assert(stands(gv, out[j].0, c, m) && stands(gv, out[n].0, d, l));
        assert(entwined(rel, out[i].0, out[j].0));
        assert(depends(cs, out[j].0, out[n].0));
        assert(!entwined(rel, out[j].0, out[n].0));
    }
}

/// The layer of every package, by layer and then by id.
pub fn layers(graph: &Graph) -> (r: Vec<PackageLayer>)
    requires
        graph.wf(),
    ensures
        is_layering(graph@, layer_views(r@)),
{
    let ghost cs = graph@;
    let packages = package_ids(graph);
    let edges = resolved_package_edges(graph);
    let ghost rel = dependence(cs);
    let groups = pair_groups(&packages, &edges, Ghost(rel));
    let ghost gv = group_views(groups@);
    let layer = group_layers(Ghost(str_views(packages@)), &groups, &edges, Ghost(rel));
    let mut entries: Vec<(&str, usize)> = Vec::new();
    let ghost mut places: Seq<(int, int)> = Seq::empty();
    for c in 0..groups.len()
        invariant
            gv == group_views(groups@),
            layer@.len() == gv.len(),
            entries_of(gv, layer@, entries@, places, c as int, 0),
    {
        let size: usize = groups[c].len();
        for k in 0..size
            invariant
                gv == group_views(groups@),
                c < gv.len(),
                layer@.len() == gv.len(),
                size == gv[c as int].len(),
                entries_of(gv, layer@, entries@, places, c as int, k as int),
        {
            let ghost before = places;
            entries.push((groups[c][k], layer[c]));
            proof {
                places = places.push((c as int, k as int));
                assert(gv[c as int][k as int] == groups@[c as int]@[k as int]@);
                assert forall|d: int, l: int| 0 <= d < gv.len() && 0 <= l < gv[d].len() && (d < c || (d == c && l < k + 1)) implies #[trigger] placed_at(places, d, l) by {
                    if d == c && l == k {
                        assert(places[before.len() as int] == (d, l));
                    } else {
                        assert(placed_at(before, d, l));
                        let e = choose|e: int| 0 <= e < before.len() && #[trigger] before[e] == (d, l);
                        assert(places[e] == (d, l));
                    }
                }
            }
        }
        proof {
            assert forall|d: int, l: int| 0 <= d < gv.len() && 0 <= l < gv[d].len() && (d < c + 1 || (d == c + 1 && l < 0)) implies #[trigger] placed_at(places, d, l) by {}
            assert(entries_of(gv, layer@, entries@, places, c + 1, 0));
        }
    }
    let mut keys: Vec<SortKey> = Vec::new();
    for e in 0..entries.len()
        invariant
            keys@.len() == e,
            forall|f: int| 0 <= f < e ==> (#[trigger] keys@[f])@ == (KeyView { major: entries@[f].1 as int, text: entries@[f].0@, second: ""@, minor: 0 }),
    {
        keys.push(SortKey { major: entries[e].1, text: entries[e].0, second: "", minor: 0 });
    }
    let order = sort_order(&keys);
    let count: usize = keys.len();
    let mut out: Vec<PackageLayer> = Vec::new();
    for i in 0..order.len()
        invariant
            is_sort_order(key_views(keys@), order@),
            keys@.len() == entries@.len(),
            out@.len() == i,
            forall|j: int| 0 <= j < i ==> (#[trigger] out@[j]).package_id@ == entries@[order@[j] as int].0@ && out@[j].layer == entries@[order@[j] as int].1,
    {
        let e: usize = order[i];
        out.push(PackageLayer { package_id: entries[e].0.to_owned(), layer: entries[e].1 });
    }
    proof {
        assert(count == key_views(keys@).len());
        lemma_is_layering(cs, str_views(packages@), gv, layer@, entries@, places, key_views(keys@), order@, layer_views(out@));
    }
    out
}

/// One package depends on the other.
pub open spec fn tied(cs: Seq<Concept>, a: Seq<char>, b: Seq<char>) -> bool {
    depends(cs, a, b) || depends(cs, b, a)
}

/// Dependence in either direction, as a relation.
pub open spec fn ties(cs: Seq<Concept>) -> spec_fn(Seq<char>, Seq<char>) -> bool {
    |a: Seq<char>, b: Seq<char>| tied(cs, a, b)
}

/// Ties lead from a package to this id.
pub open spec fn in_domain(cs: Seq<Concept>, id: Seq<char>) -> bool {
    exists|p: Seq<char>| #[trigger] is_package(cs, p) && leads_to(ties(cs), p, id)
}

/// The domains as values.
pub open spec fn domain_views(v: Seq<Domain>) -> Seq<Seq<Seq<char>>> {
    v.map_values(|d: Domain| texts(d.package_ids@))
}

/// Copies of the names.
pub fn owned_texts(names: &Vec<&str>) -> (r: Vec<String>)
    ensures
        texts(r@) == str_views(names@),
{
    let mut out: Vec<String> = Vec::new();
    for i in 0..names.len()
        invariant
            out@.len() == i,
            forall|k: int| 0 <= k < i ==> (#[trigger] out@[k])@ == names@[k]@,
    {
        out.push(names[i].to_owned());
    }
    assert(texts(out@) =~= str_views(names@));
    out
}

/// The groups of packages that ties link, directly or through others. A
/// package without ties is a domain of its own.
pub fn domains(graph: &Graph) -> (r: Vec<Domain>)
    requires
        graph.wf(),
    ensures
        is_grouping(
            domain_views(r@),
            |t: Seq<char>| in_domain(graph@, t),
            |s: Seq<char>, t: Seq<char>| leads_to(ties(graph@), s, t),
        ),
{
    let ghost cs = graph@;
    let ghost rel = ties(cs);
    let packages = package_ids(graph);
    let edges = resolved_package_edges(graph);
    let ghost ev = pair_views(edges@);
    let mut both: Vec<(&str, &str)> = Vec::new();
    for i in 0..edges.len()
        invariant
            ev == pair_views(edges@),
            both@.len() == 2 * i,
            forall|k: int| 0 <= k < i ==> pair_views(both@)[2 * k] == #[trigger] ev[k] && pair_views(both@)[2 * k + 1] == (ev[k].1, ev[k].0),
    {
        both.push(edges[i]);
        both.push((edges[i].1, edges[i].0));
    }
    proof {
        let bv = pair_views(both@);
        assert forall|a: Seq<char>, b: Seq<char>| #[trigger] rel(a, b) <==> bv.contains((a, b)) by {
            if bv.contains((a, b)) {
                let m = choose|m: int| 0 <= m < bv.len() && bv[m] == (a, b);
                let k = m / 2;
                assert(ev.contains(ev[k]));
                assert(m == 2 * k || m == 2 * k + 1);
                if m == 2 * k {
                    assert(ev[k] == (a, b));
                } else {
                    assert(ev[k] == (b, a));
                }
            }
            if depends(cs, a, b) {
                assert(ev.contains((a, b)));
                let k = choose|k: int| 0 <= k < ev.len() && ev[k] == (a, b);
                assert(bv[2 * k] == (a, b));
            }
            if depends(cs, b, a) {
                assert(ev.contains((b, a)));
                let k = choose|k: int| 0 <= k < ev.len() && ev[k] == (b, a);
                assert(bv[2 * k + 1] == (a, b));
            }
        }
    }
    let groups = pair_groups(&packages, &both, Ghost(rel));
    let ghost gv = group_views(groups@);
    let ghost member = |t: Seq<char>| in_domain(cs, t);
    let ghost together = |s: Seq<char>, t: Seq<char>| leads_to(rel, s, t);
    proof {
        let nodes = str_views(packages@);
        assert forall|a: Seq<char>, b: Seq<char>| #[trigger] rel(a, b) implies rel(b, a) by {}
        assert forall|t: Seq<char>| led_to(rel, nodes, t) <==> #[trigger] member(t) by {
            if led_to(rel, nodes, t) {
                let i = choose|i: int| 0 <= i < nodes.len() && leads_to(rel, #[trigger] nodes[i], t);
                assert(nodes.contains(nodes[i]));
                assert(is_package(cs, nodes[i]));
            }
            if member(t) {
                let p = choose|p: Seq<char>| #[trigger] is_package(cs, p) && leads_to(rel, p, t);
                assert(nodes.contains(p));
                let i = choose|i: int| 0 <= i < nodes.len() && nodes[i] == p;
                assert(leads_to(rel, nodes[i], t));
            }
        }
        assert forall|t: Seq<char>, c: int, k: int| #[trigger] stands(gv, t, c, k) implies member(t) by {
            assert(led_to(rel, nodes, t));
        }
        assert forall|t: Seq<char>| #[trigger] member(t) implies exists|c: int, k: int| stands(gv, t, c, k) by {
            assert(led_to(rel, nodes, t));
        }
        assert forall|s: Seq<char>, t: Seq<char>, c: int, k: int, d: int, l: int| #[trigger] stands(gv, s, c, k)
            && #[trigger] stands(gv, t, d, l) implies (c == d <==> together(s, t)) by {
            if together(s, t) {
                lemma_leads_back(rel, s, t);
            }
        }
        assert forall|c: int| 0 <= c < groups@.len() implies (#[trigger] groups@[c])@.len() > 0 by {
            assert(gv[c].len() > 0);
        }
    }
    let sorted = sorted_grouping(&groups, Ghost(member), Ghost(together));
    let mut out: Vec<Domain> = Vec::new();
    for i in 0..sorted.len()
        invariant
            out@.len() == i,
            forall|k: int| 0 <= k < i ==> texts((#[trigger] out@[k]).package_ids@) == str_views(sorted@[k]@),
    {
        out.push(Domain { package_ids: owned_texts(&sorted[i]) });
    }
    assert(domain_views(out@) =~= group_views(sorted@));
    out
}

/// The list is a layering.
#[verifier::opaque]
spec fn layered(cs: Seq<Concept>, r: Seq<(Seq<char>, int)>) -> bool {
    is_layering(cs, r)
}

proof fn lemma_layered_entry(cs: Seq<Concept>, r: Seq<(Seq<char>, int)>, i: int)
    requires
        layered(cs, r),
        0 <= i < r.len(),
    ensures
        below_packages(cs, r[i].0),
        r[i].1 >= 0,
{
    reveal(layered);
}

proof fn lemma_layered_place(cs: Seq<Concept>, r: Seq<(Seq<char>, int)>, t: Seq<char>) -> (i: int)
    requires
        layered(cs, r),
        below_packages(cs, t),
    ensures
        0 <= i < r.len(),
        r[i].0 == t,
{
    reveal(layered);
    choose|i: int| 0 <= i < r.len() && (#[trigger] r[i]).0 == t
}

proof fn lemma_layered_pair(cs: Seq<Concept>, r: Seq<(Seq<char>, int)>, i: int, j: int)
    requires
        layered(cs, r),
        0 <= i < r.len(),
        0 <= j < r.len(),
    ensures
        entwined(dependence(cs), r[i].0, r[j].0) ==> r[i].1 == r[j].1,
        depends(cs, r[i].0, r[j].0) && !entwined(dependence(cs), r[i].0, r[j].0) ==> r[j].1 < r[i].1,
        i < j ==> r[i].1 < r[j].1 || (r[i].1 == r[j].1 && lex_lt(r[i].0, r[j].0)),
{
    reveal(layered);
}

proof fn lemma_layered_raised(cs: Seq<Concept>, r: Seq<(Seq<char>, int)>, i: int)
    requires
        layered(cs, r),
        0 <= i < r.len(),
        r[i].1 > 0,
    ensures
        raised(cs, r, i),
{
    reveal(layered);
}

proof fn lemma_layered_raise(cs: Seq<Concept>, r: Seq<(Seq<char>, int)>, i: int) -> (at: (int, int))
    requires
        raised(cs, r, i),
    ensures
        0 <= at.0 < r.len(),
        0 <= at.1 < r.len(),
        entwined(dependence(cs), r[i].0, r[at.0].0),
        depends(cs, r[at.0].0, r[at.1].0),
        !entwined(dependence(cs), r[at.0].0, r[at.1].0),
        r[at.1].1 + 1 == r[i].1,
{
    choose|a: int, b: int| 0 <= a < r.len() && 0 <= b < r.len() && entwined(dependence(cs), r[i].0, (#[trigger] r[a]).0)
        && depends(cs, r[a].0, (#[trigger] r[b]).0) && !entwined(dependence(cs), r[a].0, r[b].0) && r[b].1 + 1 == r[i].1
}

/// The layer of each entry is no higher in one layering than in another.
proof fn lemma_layer_bound(cs: Seq<Concept>, x: Seq<(Seq<char>, int)>, y: Seq<(Seq<char>, int)>, i: int, j: int)
    requires
        layered(cs, x),
        layered(cs, y),
        0 <= i < x.len(),
        0 <= j < y.len(),
        x[i].0 == y[j].0,
    ensures
        x[i].1 <= y[j].1,
    decreases x[i].1,
{
    lemma_layered_entry(cs, y, j);
    if x[i].1 > 0 {
        lemma_layered_raised(cs, x, i);
        let (a, b) = lemma_layered_raise(cs, x, i);
        lemma_layered_entry(cs, x, a);
        lemma_layered_entry(cs, x, b);
        let c = lemma_layered_place(cs, y, x[a].0);
        let d = lemma_layered_place(cs, y, x[b].0);
        lemma_layer_bound(cs, x, y, b, d);
        lemma_layered_pair(cs, y, j, c);
        lemma_layered_pair(cs, y, c, d);
    }
}

/// An entry of one layering is in the other.
proof fn lemma_layer_found(cs: Seq<Concept>, x: Seq<(Seq<char>, int)>, y: Seq<(Seq<char>, int)>, i: int)
    requires
        layered(cs, x),
        layered(cs, y),
        0 <= i < x.len(),
    ensures
        y.contains(x[i]),
{
    lemma_layered_entry(cs, x, i);
    let j = lemma_layered_place(cs, y, x[i].0);
    lemma_layer_bound(cs, x, y, i, j);
    lemma_layer_bound(cs, y, x, j, i);
    assert(y[j] == x[i]);
}

proof fn lemma_layers_alike(cs: Seq<Concept>, x: Seq<(Seq<char>, int)>, y: Seq<(Seq<char>, int)>)
    requires
        layered(cs, x),
        layered(cs, y),
    ensures
        x == y,
{
    let lt = |a: (Seq<char>, int), b: (Seq<char>, int)| a.1 < b.1 || (a.1 == b.1 && lex_lt(a.0, b.0));
    assert forall|a: (Seq<char>, int), b: (Seq<char>, int)| #[trigger] lt(a, b) implies !lt(b, a) by {
        if a.1 == b.1 {
            lemma_lex_asymmetric(a.0, b.0);
        }
    }
    assert forall|t: (Seq<char>, int)| #[trigger] x.contains(t) <==> y.contains(t) by {
        if x.contains(t) {
            lemma_layer_found(cs, x, y, choose|i: int| 0 <= i < x.len() && x[i] == t);
        }
        if y.contains(t) {
            lemma_layer_found(cs, y, x, choose|i: int| 0 <= i < y.len() && y[i] == t);
        }
    }
    assert forall|i: int, j: int| 0 <= i < j < x.len() implies lt(#[trigger] x[i], #[trigger] x[j]) by {
        lemma_layered_pair(cs, x, i, j);
    }
    assert forall|i: int, j: int| 0 <= i < j < y.len() implies lt(#[trigger] y[i], #[trigger] y[j]) by {
        lemma_layered_pair(cs, y, i, j);
    }
    lemma_ascending_unique(x, y, lt);
}

/// A bundle has one layering: each package has its layer, and the list comes
/// out in one order.
pub proof fn layers_come_out_alike(cs: Seq<Concept>, x: Seq<(Seq<char>, int)>, y: Seq<(Seq<char>, int)>)
    requires
        is_layering(cs, x),
        is_layering(cs, y),
    ensures
        x == y,
{
    assert(layered(cs, x) && layered(cs, y)) by {
        reveal(layered);
    }
    lemma_layers_alike(cs, x, y);
}

}
