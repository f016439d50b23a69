//! Layers, domains and communities hold the packages, and nothing else.

use vstd::prelude::*;
use crate::arch::{below_packages, depends, dependence, in_domain, is_layering, is_package, lists_packages, package_at, package_pair, ties};
use crate::communities::{are_communities, are_package_links, are_singletons, id_keys, is_community_list, link_total, lemma_lists_unique, same_label, PackageLink};
use crate::digraph::{leads_to, steps_to};
use crate::graph::{find, ids, lemma_find, owning_module_of, owning_package_of, related_of, selection, targets_in};
use crate::grouping::{in_group, is_grouping};
use crate::model::{Concept, ConceptKind, RelationKind};
use crate::order::{goes_before, is_sort_order, lemma_order_distinct, lemma_sorted_unique, sorted_groups, strictly_sorted};
use crate::text::{lemma_lex_irreflexive, lex_lt};

verus! {

/// Whatever a known concept is a member of is a package.
pub open spec fn only_packages_have_members(cs: Seq<Concept>) -> bool {
    forall|i: int, k: int| 0 <= i < cs.len() && 0 <= k < cs[i].relationships@.len() && (#[trigger] cs[i].relationships@[k]).kind == RelationKind::MemberOf ==> match find(
        cs,
        cs[i].relationships@[k].target@,
    ) {
        Some(t) => cs[t].kind == ConceptKind::Package,
        None => true,
    }
}

/// The groups hold exactly these names, each in one group.
pub open spec fn holds_exactly(groups: Seq<Seq<Seq<char>>>, member: spec_fn(Seq<char>) -> bool) -> bool {
    &&& forall|t: Seq<char>| #[trigger] member(t) <==> exists|g: int| in_group(groups, g, t)
    &&& forall|g: int, h: int, t: Seq<char>| #[trigger] in_group(groups, g, t) && #[trigger] in_group(groups, h, t) ==> g == h
}

proof fn lemma_targets_are_packages(cs: Seq<Concept>, i: int, n: nat, k: int)
    requires
        only_packages_have_members(cs),
        0 <= i < cs.len(),
        n <= cs[i].relationships@.len(),
        0 <= k < targets_in(cs, cs[i].relationships@.take(n as int), RelationKind::MemberOf).len(),
    ensures
        ({
            let t = targets_in(cs, cs[i].relationships@.take(n as int), RelationKind::MemberOf)[k];
            0 <= t < cs.len() && cs[t].kind == ConceptKind::Package
        }),
    decreases n,
{
    let rels = cs[i].relationships@;
    let part = rels.take(n as int);
    if n > 0 {
        assert(part.drop_last() =~= rels.take(n - 1));
        let rest = targets_in(cs, rels.take(n - 1), RelationKind::MemberOf);
        lemma_find(cs, part.last().target@);
        assert(part.last() == rels[n - 1]);
        if k < rest.len() {
            lemma_targets_are_packages(cs, i, (n - 1) as nat, k);
        }
    }
}

proof fn lemma_related_is_package(cs: Seq<Concept>, id: Seq<char>)
    requires
        only_packages_have_members(cs),
        related_of(cs, id, RelationKind::MemberOf).len() > 0,
    ensures
        ({
            let t = related_of(cs, id, RelationKind::MemberOf)[0];
            0 <= t < cs.len() && cs[t].kind == ConceptKind::Package
        }),
{
    lemma_find(cs, id);
    let i = find(cs, id)->0;
    let rels = cs[i].relationships@;
    assert(rels.take(rels.len() as int) =~= rels);
    lemma_targets_are_packages(cs, i, rels.len(), 0);
}

proof fn lemma_owner_is_package(cs: Seq<Concept>, id: Seq<char>)
    requires
        only_packages_have_members(cs),
        owning_package_of(cs, id) is Some,
    ensures
        is_package(cs, cs[owning_package_of(cs, id)->0].id@),
{
    let p = owning_package_of(cs, id)->0;
    if related_of(cs, id, RelationKind::MemberOf).len() > 0 && crate::graph::is_module(cs, id) {
        lemma_related_is_package(cs, id);
    } else {
        let m = owning_module_of(cs, id)->0;
        lemma_related_is_package(cs, cs[m].id@);
    }
    assert(cs[p].kind == ConceptKind::Package);
}

/// Only packages depend on each other, where only packages have members.
pub proof fn only_packages_depend(cs: Seq<Concept>, a: Seq<char>, b: Seq<char>)
    requires
        only_packages_have_members(cs),
        depends(cs, a, b),
    ensures
        is_package(cs, a),
        is_package(cs, b),
{
    let (from, to) = choose|from: Seq<char>, to: Seq<char>| #[trigger] crate::graph::module_calls(cs, from, to) && package_pair(cs, from, to) == Some((a, b));
    lemma_owner_is_package(cs, from);
    lemma_owner_is_package(cs, to);
}

proof fn lemma_leads_to_packages(cs: Seq<Concept>, rel: spec_fn(Seq<char>, Seq<char>) -> bool, a: Seq<char>, b: Seq<char>, n: nat)
    requires
        forall|x: Seq<char>, y: Seq<char>| #[trigger] rel(x, y) ==> is_package(cs, y),
        is_package(cs, a),
        steps_to(rel, a, b, n),
    ensures
        is_package(cs, b),
    decreases n,
{
    if n > 0 {
        let x = choose|x: Seq<char>| #[trigger] rel(a, x) && steps_to(rel, x, b, (n - 1) as nat);
        lemma_leads_to_packages(cs, rel, x, b, (n - 1) as nat);
    }
}

proof fn lemma_led_from_packages(cs: Seq<Concept>, rel: spec_fn(Seq<char>, Seq<char>) -> bool, t: Seq<char>)
    requires
        forall|x: Seq<char>, y: Seq<char>| #[trigger] rel(x, y) ==> is_package(cs, y),
    ensures
        is_package(cs, t) <==> exists|p: Seq<char>| #[trigger] is_package(cs, p) && leads_to(rel, p, t),
        leads_to(rel, t, t),
{
    reveal(leads_to);
    assert(steps_to(rel, t, t, 0));
    if exists|p: Seq<char>| #[trigger] is_package(cs, p) && leads_to(rel, p, t) {
        let p = choose|p: Seq<char>| #[trigger] is_package(cs, p) && leads_to(rel, p, t);
        let n = choose|n: nat| steps_to(rel, p, t, n);
        lemma_leads_to_packages(cs, rel, p, t, n);
    }
}

/// Where only packages have members, the layers hold exactly the packages,
/// each once.
pub proof fn layers_hold_the_packages(cs: Seq<Concept>, r: Seq<(Seq<char>, int)>)
    requires
        only_packages_have_members(cs),
        is_layering(cs, r),
    ensures
        forall|t: Seq<char>| #[trigger] is_package(cs, t) <==> exists|i: int| 0 <= i < r.len() && (#[trigger] r[i]).0 == t,
        forall|i: int, j: int| 0 <= i < j < r.len() ==> (#[trigger] r[i]).0 != (#[trigger] r[j]).0,
{
    let rel = dependence(cs);
    assert forall|x: Seq<char>, y: Seq<char>| #[trigger] rel(x, y) implies is_package(cs, y) by {
        only_packages_depend(cs, x, y);
    }
    assert forall|t: Seq<char>| #[trigger] is_package(cs, t) <==> exists|i: int| 0 <= i < r.len() && (#[trigger] r[i]).0 == t by {
        lemma_led_from_packages(cs, rel, t);
        assert(below_packages(cs, t) <==> is_package(cs, t));
        if exists|i: int| 0 <= i < r.len() && (#[trigger] r[i]).0 == t {
            let i = choose|i: int| 0 <= i < r.len() && (#[trigger] r[i]).0 == t;
            assert(below_packages(cs, r[i].0));
        }
    }
}

/// Where only packages have members, the domains hold exactly the packages,
/// each in one domain.
pub proof fn domains_hold_the_packages(cs: Seq<Concept>, groups: Seq<Seq<Seq<char>>>)
    requires
        only_packages_have_members(cs),
        is_grouping(groups, |t: Seq<char>| in_domain(cs, t), |s: Seq<char>, t: Seq<char>| leads_to(ties(cs), s, t)),
    ensures
        holds_exactly(groups, |t: Seq<char>| is_package(cs, t)),
{
    let rel = ties(cs);
    let member = |t: Seq<char>| is_package(cs, t);
    let listed = |t: Seq<char>| in_domain(cs, t);
    let together = |s: Seq<char>, t: Seq<char>| leads_to(rel, s, t);
    assert forall|x: Seq<char>, y: Seq<char>| #[trigger] rel(x, y) implies is_package(cs, y) by {
        if depends(cs, x, y) {
            only_packages_depend(cs, x, y);
        } else {
            only_packages_depend(cs, y, x);
        }
    }
    assert forall|t: Seq<char>| #[trigger] member(t) <==> exists|g: int| in_group(groups, g, t) by {
        lemma_led_from_packages(cs, rel, t);
        assert(listed(t) <==> member(t));
    }
    assert forall|g: int, h: int, t: Seq<char>| #[trigger] in_group(groups, g, t) && #[trigger] in_group(groups, h, t) implies g == h by {
        lemma_led_from_packages(cs, rel, t);
        assert(together(t, t));
    }
}

/// What greedy merging makes of packages with these links.
pub open spec fn are_merged(ids: Seq<Seq<char>>, links: Seq<PackageLink>, groups: Seq<Seq<Seq<char>>>) -> bool {
    &&& link_total(links) == 0 ==> are_singletons(ids, groups)
    &&& link_total(links) > 0 ==> is_community_list(ids, links, groups)
}

proof fn lemma_singletons(ids: Seq<Seq<char>>, groups: Seq<Seq<Seq<char>>>)
    requires
        are_singletons(ids, groups),
        ids.no_duplicates(),
        ids.len() <= usize::MAX,
    ensures
        holds_exactly(groups, |t: Seq<char>| ids.contains(t)),
        strictly_sorted(groups.map_values(|g: Seq<Seq<char>>| g[0])),
        forall|g: int| 0 <= g < groups.len() ==> (#[trigger] groups[g]).len() == 1,
{
    let keys = id_keys(ids);
    let order = choose|order: Seq<usize>| #[trigger] is_sort_order(keys, order) && groups.len() == order.len()
        && forall|i: int| 0 <= i < groups.len() ==> #[trigger] groups[i] == seq![ids[order[i] as int]];
    let member = |t: Seq<char>| ids.contains(t);
    lemma_order_distinct(keys, order);
    assert forall|g: int, t: Seq<char>| #[trigger] in_group(groups, g, t) <==> 0 <= g < groups.len() && ids[order[g] as int] == t by {
        if 0 <= g < groups.len() {
            assert(groups[g] == seq![ids[order[g] as int]]);
            assert(groups[g][0] == ids[order[g] as int]);
        }
    }
    assert forall|t: Seq<char>| #[trigger] member(t) <==> exists|g: int| in_group(groups, g, t) by {
        if member(t) {
            let k = choose|k: int| 0 <= k < ids.len() && ids[k] == t;
            assert(order.contains(k as usize));
            let g = choose|g: int| 0 <= g < order.len() && order[g] == k as usize;
            assert(in_group(groups, g, t));
        }
        if exists|g: int| in_group(groups, g, t) {
            let g = choose|g: int| in_group(groups, g, t);
            assert(order[g] < keys.len());
            assert(ids[order[g] as int] == t);
        }
    }
    assert forall|g: int, h: int, t: Seq<char>| #[trigger] in_group(groups, g, t) && #[trigger] in_group(groups, h, t) implies g == h by {
        assert(order[g] < keys.len() && order[h] < keys.len());
        if g < h {
            assert(order[g] != order[h]);
        } else if h < g {
            assert(order[h] != order[g]);
        }
    }
    let firsts = groups.map_values(|g: Seq<Seq<char>>| g[0]);
    assert forall|i: int, j: int| 0 <= i < j < firsts.len() implies lex_lt(#[trigger] firsts[i], #[trigger] firsts[j]) by {
        assert(groups[i] == seq![ids[order[i] as int]] && groups[j] == seq![ids[order[j] as int]]);
        let (a, b) = (order[i] as int, order[j] as int);
        assert(order[i] < keys.len() && order[j] < keys.len());
        assert(goes_before(keys, a, b));
        assert(order[i] != order[j]);
        assert(ids[a] != ids[b]);
    }
    assert forall|g: int| 0 <= g < groups.len() implies (#[trigger] groups[g]).len() == 1 by {
        assert(groups[g] == seq![ids[order[g] as int]]);
    }
}

/// Merging neither loses a package nor adds one: every package stands in one
/// community, nothing else stands in any, none is empty, and they and what
/// they hold are in order. Without links each package is alone.
pub proof fn merging_keeps_the_packages(ids: Seq<Seq<char>>, links: Seq<PackageLink>, groups: Seq<Seq<Seq<char>>>)
    requires
        are_merged(ids, links, groups),
        ids.no_duplicates(),
        ids.len() <= usize::MAX,
    ensures
        holds_exactly(groups, |t: Seq<char>| ids.contains(t)),
        sorted_groups(groups),
        links.len() == 0 ==> forall|g: int| 0 <= g < groups.len() ==> (#[trigger] groups[g]).len() == 1,
{
    if link_total(links) == 0 {
        lemma_singletons(ids, groups);
        let firsts = groups.map_values(|g: Seq<Seq<char>>| g[0]);
        assert forall|i: int, j: int| 0 <= i < j < groups.len() implies lex_lt((#[trigger] groups[i])[0], (#[trigger] groups[j])[0]) by {
            assert(lex_lt(firsts[i], firsts[j]));
        }
    } else {
        lemma_listed_once(ids, links, groups);
    }
}

proof fn lemma_listed_once(ids: Seq<Seq<char>>, links: Seq<PackageLink>, groups: Seq<Seq<Seq<char>>>)
    requires
        is_community_list(ids, links, groups),
    ensures
        holds_exactly(groups, |t: Seq<char>| ids.contains(t)),
        sorted_groups(groups),
{
    let (names, numbered, label) = choose|names: Seq<Seq<char>>, numbered: Seq<crate::modularity::Link>, label: Seq<usize>| {
        &&& strictly_sorted(names)
        &&& forall|t: Seq<char>| #[trigger] names.contains(t) <==> ids.contains(t)
        &&& #[trigger] crate::communities::numbers(names, links, numbered)
        &&& label.len() == names.len()
        &&& #[trigger] crate::modularity::is_settled(numbered, names.len(), label)
        &&& is_grouping(groups, |t: Seq<char>| names.contains(t), |s: Seq<char>, t: Seq<char>| same_label(names, label, s, t))
    };
    let listed = |t: Seq<char>| names.contains(t);
    let member = |t: Seq<char>| ids.contains(t);
    let together = |s: Seq<char>, t: Seq<char>| same_label(names, label, s, t);
    assert forall|t: Seq<char>| #[trigger] member(t) <==> exists|g: int| in_group(groups, g, t) by {
        assert(listed(t) <==> member(t));
    }
    assert forall|g: int, h: int, t: Seq<char>| #[trigger] in_group(groups, g, t) && #[trigger] in_group(groups, h, t) implies g == h by {
        assert(listed(t));
        let x = choose|x: int| 0 <= x < names.len() && names[x] == t;
        assert(names[x] == t && label[x] == label[x]);
        assert(together(t, t));
    }
}

proof fn lemma_named_by(ids: Seq<Seq<char>>, others: Seq<Seq<char>>, links: Seq<PackageLink>, groups: Seq<Seq<Seq<char>>>)
    requires
        is_community_list(ids, links, groups),
        forall|t: Seq<char>| #[trigger] ids.contains(t) <==> others.contains(t),
    ensures
        is_community_list(others, links, groups),
{
    let (names, numbered, label) = choose|names: Seq<Seq<char>>, numbered: Seq<crate::modularity::Link>, label: Seq<usize>| {
        &&& strictly_sorted(names)
        &&& forall|t: Seq<char>| #[trigger] names.contains(t) <==> ids.contains(t)
        &&& #[trigger] crate::communities::numbers(names, links, numbered)
        &&& label.len() == names.len()
        &&& #[trigger] crate::modularity::is_settled(numbered, names.len(), label)
        &&& is_grouping(groups, |t: Seq<char>| names.contains(t), |s: Seq<char>, t: Seq<char>| same_label(names, label, s, t))
    };
    assert(crate::communities::numbers(names, links, numbered) && crate::modularity::is_settled(numbered, names.len(), label));
    assert forall|t: Seq<char>| #[trigger] names.contains(t) <==> others.contains(t) by {
        assert(ids.contains(t) <==> others.contains(t));
    }
}

/// The order in which the packages are given does not count.
pub proof fn packages_merge_in_any_order(
    ids: Seq<Seq<char>>,
    others: Seq<Seq<char>>,
    links: Seq<PackageLink>,
    groups: Seq<Seq<Seq<char>>>,
    again: Seq<Seq<Seq<char>>>,
)
    requires
        are_merged(ids, links, groups),
        are_merged(others, links, again),
        ids.no_duplicates(),
        others.no_duplicates(),
        ids.len() <= usize::MAX,
        others.len() <= usize::MAX,
        forall|t: Seq<char>| #[trigger] ids.contains(t) <==> others.contains(t),
    ensures
        groups == again,
{
    if link_total(links) == 0 {
        lemma_singletons(ids, groups);
        lemma_singletons(others, again);
        let first = |g: Seq<Seq<char>>| g[0];
        let (x, y) = (groups.map_values(first), again.map_values(first));
        let (m, n) = (|t: Seq<char>| ids.contains(t), |t: Seq<char>| others.contains(t));
        assert forall|t: Seq<char>| #[trigger] x.contains(t) <==> y.contains(t) by {
            assert(m(t) <==> n(t));
            lemma_first_in(groups, t);
            lemma_first_in(again, t);
        }
        lemma_sorted_unique(x, y);
        assert(groups.len() == x.len() && again.len() == y.len());
        assert forall|g: int| 0 <= g < groups.len() implies groups[g] == again[g] by {
            assert(x[g] == y[g]);
            assert(groups[g].len() == 1 && again[g].len() == 1);
            assert(groups[g] =~= again[g]);
        }
        assert(groups =~= again);
    } else {
        lemma_named_by(others, ids, links, again);
        lemma_lists_unique(ids, links, links, groups, again);
    }
}

proof fn lemma_first_in(groups: Seq<Seq<Seq<char>>>, t: Seq<char>)
    requires
        forall|g: int| 0 <= g < groups.len() ==> (#[trigger] groups[g]).len() == 1,
    ensures
        groups.map_values(|g: Seq<Seq<char>>| g[0]).contains(t) <==> exists|g: int| in_group(groups, g, t),
{
    let x = groups.map_values(|g: Seq<Seq<char>>| g[0]);
    if x.contains(t) {
        let g = choose|g: int| 0 <= g < x.len() && x[g] == t;
        assert(groups[g].len() == 1 && groups[g][0] == t);
        assert(in_group(groups, g, t));
    }
    if exists|g: int| in_group(groups, g, t) {
        let g = choose|g: int| in_group(groups, g, t);
        let k = choose|k: int| 0 <= k < groups[g].len() && groups[g][k] == t;
        assert(groups[g].len() == 1);
        assert(x[g] == t);
    }
}

/// The communities of a bundle hold exactly its packages, each in one, as long
/// as each id is there once.
pub proof fn communities_hold_the_packages(cs: Seq<Concept>, groups: Seq<Seq<Seq<char>>>)
    requires
        are_communities(cs, groups),
        ids(cs).no_duplicates(),
        cs.len() <= usize::MAX,
    ensures
        holds_exactly(groups, |t: Seq<char>| is_package(cs, t)),
{
    let (named, links) = choose|named: Seq<Seq<char>>, links: Seq<PackageLink>| {
        &&& #[trigger] lists_packages(cs, named)
        &&& #[trigger] are_package_links(cs, links)
        &&& named.len() == 0 ==> groups.len() == 0
        &&& named.len() > 0 && link_total(links) == 0 ==> are_singletons(named, groups)
        &&& named.len() > 0 && link_total(links) > 0 ==> is_community_list(named, links, groups)
    };
    let at = choose|at: Seq<int>| #[trigger] selection(cs, package_at(cs), at) && named == at.map_values(|i: int| cs[i].id@);
    let keep = package_at(cs);
    let member = |t: Seq<char>| is_package(cs, t);
    let listed = |t: Seq<char>| named.contains(t);
    assert forall|t: Seq<char>| named.contains(t) <==> #[trigger] is_package(cs, t) by {
        if named.contains(t) {
            let k = choose|k: int| 0 <= k < named.len() && named[k] == t;
            assert(keep(at[k]));
            assert(cs[at[k]].kind == ConceptKind::Package && cs[at[k]].id@ == t);
        }
        if is_package(cs, t) {
            let i = choose|i: int| 0 <= i < cs.len() && (#[trigger] cs[i]).kind == ConceptKind::Package && cs[i].id@ == t;
            assert(keep(i));
            let k = choose|k: int| 0 <= k < at.len() && at[k] == i;
            assert(named[k] == t);
        }
    }
    assert(named.no_duplicates()) by {
        assert forall|k: int, l: int| 0 <= k < named.len() && 0 <= l < named.len() && k != l implies named[k] != named[l] by {
            assert(0 <= at[k] < cs.len() && 0 <= at[l] < cs.len());
            lemma_lex_irreflexive(cs[at[k]].id@);
            assert(ids(cs)[at[k]] == cs[at[k]].id@ && ids(cs)[at[l]] == cs[at[l]].id@);
        }
    }
    if named.len() > 0 {
        lemma_selected_few(cs, at);
        merging_keeps_the_packages(named, links, groups);
        assert forall|t: Seq<char>| #[trigger] member(t) <==> exists|g: int| in_group(groups, g, t) by {
            assert(listed(t) <==> member(t));
        }
    } else {
        assert forall|t: Seq<char>| #[trigger] member(t) <==> exists|g: int| in_group(groups, g, t) by {
            assert(named.contains(t) <==> is_package(cs, t));
        }
    }
}

proof fn lemma_selected_few(cs: Seq<Concept>, at: Seq<int>)
    requires
        ids(cs).no_duplicates(),
        selection(cs, package_at(cs), at),
    ensures
        at.len() <= cs.len(),
{
    assert(at.no_duplicates()) by {
        assert forall|k: int, l: int| 0 <= k < at.len() && 0 <= l < at.len() && k != l implies at[k] != at[l] by {
            lemma_lex_irreflexive(cs[at[k]].id@);
        }
    }
    let all = vstd::set_lib::set_int_range(0, cs.len() as int);
    vstd::set_lib::lemma_int_range(0, cs.len() as int);
    at.unique_seq_to_set();
    assert(at.to_set().subset_of(all)) by {
        assert forall|i: int| at.to_set().contains(i) implies all.contains(i) by {
            let k = choose|k: int| 0 <= k < at.len() && at[k] == i;
            assert(0 <= at[k] < cs.len());
        }
    }
    vstd::set_lib::lemma_len_subset(at.to_set(), all);
}

}
