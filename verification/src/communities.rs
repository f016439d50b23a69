//! Communities of packages: clusters that depend on each other more than
//! chance would have it.

use vstd::prelude::*;
use crate::arch::{owned_texts, package_ids, resolved_package_edges};
use crate::arch::{depends, is_module_list, is_package, lists_packages, package_at, package_pairs};
use crate::diff::selections_are_unique;
use crate::digraph::{arcs, placed};
use crate::graph::Graph;
use crate::graph::selection;
use crate::grouping::{groupings_are_unique, is_grouping, lemma_named_grouping};
use crate::model::Concept;
use crate::modularity::settle;
use crate::modularity::{communities_are_determined, is_settled, labels_ok, links_ok, total, Link};
use crate::order::{name_groups, sort_order, sorted_pairs, sorted_texts, KeyIndex, SortKey};
use crate::order::{group_views, is_naming, is_sort_order, key_views, lemma_last_of, lemma_sort_order_unique, lemma_sorted_pairs_unique, lemma_sorted_unique, pair_lt, pair_views, str_views, strictly_sorted, strictly_sorted_pairs, KeyView};
use crate::text::{same, text_lt};
use crate::text::{lemma_lex_irreflexive, lex_lt, texts};

verus! {

/// Packages found to belong together.
#[derive(Debug, PartialEq, Eq)]
pub struct Community {
    pub package_ids: Vec<String>,
}

/// How strongly two packages are linked: how many pairs of their modules call
/// one another.
#[derive(Debug)]
pub struct PackageLink {
    pub first: String,
    pub second: String,
    pub weight: usize,
}

/// The communities as values.
pub open spec fn community_views(v: Seq<Community>) -> Seq<Seq<Seq<char>>> {
    v.map_values(|c: Community| texts(c.package_ids@))
}

/// Links between numbered packages stand for those between named ones.
pub open spec fn numbers(names: Seq<Seq<char>>, links: Seq<PackageLink>, numbered: Seq<Link>) -> bool {
    &&& numbered.len() == links.len()
    &&& links_ok(numbered, names.len())
    &&& forall|e: int| 0 <= e < links.len() ==> {
        &&& names[(#[trigger] numbered[e]).0 as int] == links[e].first@
        &&& names[numbered[e].1 as int] == links[e].second@
        &&& numbered[e].2 == links[e].weight
    }
}

/// The weight of all links.
pub open spec fn link_total(links: Seq<PackageLink>) -> nat
    decreases links.len(),
{
    if links.len() == 0 {
        0
    } else {
        link_total(links.drop_last()) + links.last().weight as nat
    }
}

/// The two names are numbered alike.
pub open spec fn same_label(names: Seq<Seq<char>>, label: Seq<usize>, s: Seq<char>, t: Seq<char>) -> bool {
    exists|x: int, y: int| 0 <= x < names.len() && 0 <= y < names.len() && #[trigger] names[x] == s && #[trigger] names[y] == t && label[x] == label[y]
}

/// The groups are what greedy merging for modularity makes of the packages, in
/// the order of their ids, and of the links between them.
pub open spec fn is_community_list(ids: Seq<Seq<char>>, links: Seq<PackageLink>, groups: Seq<Seq<Seq<char>>>) -> bool {
    exists|names: Seq<Seq<char>>, numbered: Seq<Link>, label: Seq<usize>| {
        &&& strictly_sorted(names)
        &&& forall|t: Seq<char>| #[trigger] names.contains(t) <==> ids.contains(t)
        &&& #[trigger] numbers(names, links, numbered)
        &&& label.len() == names.len()
        &&& #[trigger] is_settled(numbered, names.len(), label)
        &&& is_grouping(groups, |t: Seq<char>| names.contains(t), |s: Seq<char>, t: Seq<char>| same_label(names, label, s, t))
    }
}

/// Each id in order, a community of its own.
pub open spec fn are_singletons(ids: Seq<Seq<char>>, groups: Seq<Seq<Seq<char>>>) -> bool {
    exists|order: Seq<usize>| #[trigger] is_sort_order(id_keys(ids), order) && groups.len() == order.len()
        && forall|i: int| 0 <= i < groups.len() ==> #[trigger] groups[i] == seq![ids[order[i] as int]]
}

/// Ids as sort keys.
pub open spec fn id_keys(ids: Seq<Seq<char>>) -> Seq<KeyView> {
    ids.map_values(|t: Seq<char>| KeyView { major: 0, text: t, second: ""@, minor: 0 })
}

proof fn lemma_totals(names: Seq<Seq<char>>, links: Seq<PackageLink>, numbered: Seq<Link>)
    requires
        numbers(names, links, numbered),
    ensures
        total(numbered) == link_total(links),
    decreases links.len(),
{
    if links.len() > 0 {
        let (l, n) = (links.drop_last(), numbered.drop_last());
        assert forall|e: int| 0 <= e < n.len() implies (#[trigger] n[e]).0 < names.len() && n[e].1 < names.len() by {
            assert(numbered[e].0 < names.len());
        }
        assert forall|e: int| 0 <= e < l.len() implies {
            &&& names[(#[trigger] n[e]).0 as int] == l[e].first@
            &&& names[n[e].1 as int] == l[e].second@
            &&& n[e].2 == l[e].weight
        } by {
            assert(numbered[e] == n[e]);
        }
        lemma_totals(names, l, n);
        assert(numbered[links.len() - 1].2 == links[links.len() - 1].weight);
    }
}

fn sum_links(links: &Vec<PackageLink>) -> (r: bool)
    ensures
        r == (link_total(links@) == 0),
{
    for e in 0..links.len()
        invariant
            link_total(links@.take(e as int)) == 0,
    {
        assert(links@.take(e + 1).drop_last() =~= links@.take(e as int));
        if links[e].weight > 0 {
            proof {
                lemma_link_prefix(links@, e + 1);
            }
            return false;
        }
    }
    assert(links@.take(links@.len() as int) =~= links@);
    true
}

proof fn lemma_link_prefix(links: Seq<PackageLink>, k: int)
    requires
        0 <= k <= links.len(),
    ensures
        link_total(links.take(k)) <= link_total(links),
    decreases links.len() - k,
{
    if k < links.len() {
        lemma_link_prefix(links, k + 1);
        assert(links.take(k + 1).drop_last() =~= links.take(k));
    } else {
        assert(links.take(k) =~= links);
    }
}

/// The number stands in some group.
spec fn has_place(groups: Seq<Seq<usize>>, x: int) -> bool {
    exists|c: int, k: int| #[trigger] placed(groups, x, c, k)
}

/// The nodes with each label, by label.
fn label_groups(label: &Vec<usize>) -> (r: Vec<Vec<usize>>)
    requires
        labels_ok(label@),
    ensures
        forall|c: int| 0 <= c < r@.len() ==> (#[trigger] r@[c])@.len() > 0,
        forall|x: int, c: int, k: int| #[trigger] placed(arcs(r@), x, c, k) ==> 0 <= x < label@.len(),
        forall|x: int| 0 <= x < label@.len() ==> #[trigger] has_place(arcs(r@), x),
        forall|x: int, y: int, c: int, k: int, d: int, l: int| #[trigger] placed(arcs(r@), x, c, k) && #[trigger] placed(arcs(r@), y, d, l) ==> (c == d <==> label@[x] == label@[y]),
{
    let mut out: Vec<Vec<usize>> = Vec::new();
    let ghost mut tags: Seq<int> = Seq::empty();
    for i in 0..label.len()
        invariant
            labels_ok(label@),
            tags.len() == out@.len(),
            forall|c: int| 0 <= c < tags.len() ==> 0 <= #[trigger] tags[c] < i && label@[tags[c]] == tags[c],
            forall|c: int, d: int| 0 <= c < d < tags.len() ==> #[trigger] tags[c] != #[trigger] tags[d],
            forall|j: int| 0 <= j < i && #[trigger] label@[j] == j ==> tags.contains(j),
            forall|c: int| 0 <= c < out@.len() ==> (#[trigger] out@[c])@.len() > 0,
            forall|c: int, k: int| 0 <= c < out@.len() && 0 <= k < out@[c]@.len() ==> (#[trigger] out@[c]@[k]) < label@.len() && label@[out@[c]@[k] as int] == tags[c],
            forall|c: int, x: int| 0 <= c < out@.len() && 0 <= x < label@.len() && #[trigger] label@[x] == #[trigger] tags[c] ==> exists|k: int| 0 <= k < out@[c]@.len() && #[trigger] out@[c]@[k] == x,
    {
        let ghost before = tags;
        let ghost rows = out@;
        if label[i] == i {
            let mut group: Vec<usize> = Vec::new();
            for x in 0..label.len()
                invariant
                    forall|k: int| 0 <= k < group@.len() ==> (#[trigger] group@[k]) < x && label@[group@[k] as int] == i,
                    forall|y: int| 0 <= y < x && #[trigger] label@[y] == i ==> exists|k: int| 0 <= k < group@.len() && #[trigger] group@[k] == y,
            {
                let ghost was = group@;
                if label[x] == i {
                    group.push(x);
                    assert(group@[was.len() as int] == x);
                }
                assert forall|y: int| 0 <= y < x + 1 && #[trigger] label@[y] == i implies exists|k: int| 0 <= k < group@.len() && #[trigger] group@[k] == y by {
                    if y < x {
                        let k = choose|k: int| 0 <= k < was.len() && #[trigger] was[k] == y;
                        assert(group@[k] == y);
                    }
                }
            }
            assert(label@[i as int] == i);
            out.push(group);
            proof {
                tags = tags.push(i as int);
                assert(tags[before.len() as int] == i);
                assert forall|c: int, x: int| 0 <= c < out@.len() && 0 <= x < label@.len() && #[trigger] label@[x] == #[trigger] tags[c] implies exists|k: int| 0 <= k < out@[c]@.len() && #[trigger] out@[c]@[k] == x by {
                    if c < rows.len() {
                        assert(out@[c] == rows[c] && tags[c] == before[c]);
                        let k = choose|k: int| 0 <= k < rows[c]@.len() && #[trigger] rows[c]@[k] == x;
                        assert(out@[c]@[k] == x);
                    } else {
                        assert(label@[x] == i);
                        let k = choose|k: int| 0 <= k < group@.len() && #[trigger] group@[k] == x;
                        assert(out@[c]@[k] == x);
                    }
                }
            }
        }
        proof {
            assert forall|j: int| 0 <= j < i + 1 && #[trigger] label@[j] == j implies tags.contains(j) by {
                if j < i {
                    assert(before.contains(j));
                    let c = choose|c: int| 0 <= c < before.len() && before[c] == j;
                    assert(tags[c] == j);
                }
            }
        }
    }
    proof {
        let g = arcs(out@);
        assert forall|x: int, c: int, k: int| #[trigger] placed(g, x, c, k) implies 0 <= x < label@.len() && label@[x] == tags[c] by {
            assert(out@[c]@[k] == x);
        }
        assert forall|x: int| 0 <= x < label@.len() implies #[trigger] has_place(g, x) by {
            let j = label@[x] as int;
            assert(label@[j] == j);
            assert(tags.contains(j));
            let c = choose|c: int| 0 <= c < tags.len() && tags[c] == j;
            assert(label@[x] == tags[c]);
            let k = choose|k: int| 0 <= k < out@[c]@.len() && #[trigger] out@[c]@[k] == x;
            assert(placed(g, x, c, k));
        }
        assert forall|x: int, y: int, c: int, k: int, d: int, l: int| #[trigger] placed(g, x, c, k) && #[trigger] placed(g, y, d, l) implies (c == d <==> label@[x] == label@[y]) by {
            if c < d {
                assert(tags[c] != tags[d]);
            } else if d < c {
                assert(tags[d] != tags[c]);
            }
        }
    }
    out
}

/// The communities of packages that greedy merging finds, in order. Without
/// any linked weight every id is a community of its own.
pub fn greedy_modularity_communities(package_ids: &Vec<String>, edge_weights: &Vec<PackageLink>) -> (r: Vec<Community>)
    requires
        link_total(edge_weights@) <= usize::MAX,
        link_total(edge_weights@) > 0 ==> forall|e: int|
            0 <= e < edge_weights@.len() ==> texts(package_ids@).contains((#[trigger] edge_weights@[e]).first@) && texts(package_ids@).contains(
                edge_weights@[e].second@,
            ),
    ensures
        link_total(edge_weights@) == 0 ==> are_singletons(texts(package_ids@), community_views(r@)),
        link_total(edge_weights@) > 0 ==> is_community_list(texts(package_ids@), edge_weights@, community_views(r@)),
{
    let mut ids: Vec<&str> = Vec::new();
    for i in 0..package_ids.len()
        invariant
            ids@.len() == i,
            forall|k: int| 0 <= k < i ==> (#[trigger] ids@[k])@ == package_ids@[k]@,
    {
        ids.push(package_ids[i].as_str());
    }
    let ghost idv = texts(package_ids@);
    assert(str_views(ids@) =~= idv);
    let mut out: Vec<Community> = Vec::new();
    if sum_links(edge_weights) {
        let mut keys: Vec<SortKey> = Vec::new();
        for i in 0..ids.len()
            invariant
                keys@.len() == i,
                forall|k: int| 0 <= k < i ==> (#[trigger] keys@[k])@ == (KeyView { major: 0, text: ids@[k]@, second: ""@, minor: 0 }),
        {
            keys.push(SortKey { major: 0, text: ids[i], second: "", minor: 0 });
        }
        let order = sort_order(&keys);
        assert(key_views(keys@) =~= id_keys(idv));
        for i in 0..order.len()
            invariant
                is_sort_order(id_keys(idv), order@),
                idv == str_views(ids@),
                out@.len() == i,
                forall|k: int| 0 <= k < i ==> texts((#[trigger] out@[k]).package_ids@) == seq![idv[order@[k] as int]],
        {
            let mut one: Vec<String> = Vec::new();
            one.push(ids[order[i]].to_owned());
            assert(texts(one@) =~= seq![idv[order@[i as int] as int]]);
            out.push(Community { package_ids: one });
        }
        return out;
    }
    let names = sorted_texts(&ids);
    let ghost nv = str_views(names@);
    let mut key_list: Vec<&str> = Vec::new();
    for i in 0..names.len()
        invariant
            key_list@ == names@.take(i as int),
    {
        key_list.push(names[i]);
        assert(key_list@ =~= names@.take(i + 1));
    }
    assert(key_list@ =~= names@);
    let index = KeyIndex::new(key_list);
    let mut links: Vec<Link> = Vec::new();
    for e in 0..edge_weights.len()
        invariant
            index.wf(),
            index@ == nv,
            nv == str_views(names@),
            forall|t: Seq<char>| #[trigger] nv.contains(t) <==> idv.contains(t),
            idv == texts(package_ids@),
            forall|e: int| 0 <= e < edge_weights@.len() ==> idv.contains((#[trigger] edge_weights@[e]).first@) && idv.contains(edge_weights@[e].second@),
            numbers(nv, edge_weights@.take(e as int), links@),
    {
        let link = &edge_weights[e];
        proof {
            lemma_last_of(nv, link.first@);
            lemma_last_of(nv, link.second@);
            assert(nv.contains(link.first@));
            assert(nv.contains(link.second@));
        }
        let ghost before = links@;
        if let (Some(a), Some(b)) = (index.find(link.first.as_str()), index.find(link.second.as_str())) {
            links.push((a, b, link.weight));
        }
        proof {
            let ls = edge_weights@.take(e + 1);
            assert forall|f: int| 0 <= f < links@.len() implies (#[trigger] links@[f]).0 < nv.len() && links@[f].1 < nv.len() by {
                if f < e {
                    assert(links@[f] == before[f]);
                }
            }
            assert forall|f: int| 0 <= f < ls.len() implies {
                &&& nv[(#[trigger] links@[f]).0 as int] == ls[f].first@
                &&& nv[links@[f].1 as int] == ls[f].second@
                &&& links@[f].2 == ls[f].weight
            } by {
                if f < e {
                    assert(links@[f] == before[f]);
                    assert(edge_weights@.take(e as int)[f] == ls[f]);
                }
            }
        }
    }
    proof {
        assert(edge_weights@.take(edge_weights@.len() as int) =~= edge_weights@);
        lemma_totals(nv, edge_weights@, links@);
    }
    let label = settle(&links, names.len());
    let groups = label_groups(&label);
    let ghost gs = arcs(groups@);
    proof {
        assert forall|x: int, y: int| 0 <= x < nv.len() && 0 <= y < nv.len() && #[trigger] nv[x] == #[trigger] nv[y] implies x == y by {
            lemma_lex_irreflexive(nv[x]);
            if x < y {
                assert(lex_lt(nv[x], nv[y]));
            } else if y < x {
                assert(lex_lt(nv[y], nv[x]));
            }
        }
        assert forall|c: int, k: int| 0 <= c < groups@.len() && 0 <= k < groups@[c]@.len() implies (#[trigger] groups@[c]@[k]) < names@.len() by {
            assert(placed(gs, groups@[c]@[k] as int, c, k));
        }
        assert forall|c: int, k: int, d: int, l: int| 0 <= c < d < groups@.len() && 0 <= k < groups@[c]@.len() && 0 <= l < groups@[d]@.len()
            implies names@[#[trigger] groups@[c]@[k] as int]@ != names@[#[trigger] groups@[d]@[l] as int]@ by {
            let (x, y) = (groups@[c]@[k] as int, groups@[d]@[l] as int);
            assert(placed(gs, x, c, k) && placed(gs, y, d, l));
            assert(nv[x] == names@[x]@ && nv[y] == names@[y]@);
        }
    }
    let named = name_groups(&groups, &names);
    let count: usize = groups.len();
    for i in 0..named.len()
        invariant
            out@.len() == i,
            forall|k: int| 0 <= k < i ==> texts((#[trigger] out@[k]).package_ids@) == str_views(named@[k]@),
    {
        out.push(Community { package_ids: owned_texts(&named[i]) });
    }
    proof {
        let gv = group_views(named@);
        assert(community_views(out@) =~= gv);
        assert(count == gs.len());
        let perm = choose|perm: Seq<usize>| is_naming(gs, nv, gv, perm);
        let member = |t: Seq<char>| nv.contains(t);
        let together = |s: Seq<char>, t: Seq<char>| same_label(nv, label@, s, t);
        assert forall|x: int, c: int, k: int| #[trigger] placed(gs, x, c, k) implies member(nv[x]) by {
            assert(nv.contains(nv[x]));
        }
        assert forall|t: Seq<char>| #[trigger] member(t) implies exists|x: int, c: int, k: int| placed(gs, x, c, k) && nv[x] == t by {
            let x = choose|x: int| 0 <= x < nv.len() && nv[x] == t;
            assert(has_place(gs, x));
            let (c, k) = choose|c: int, k: int| #[trigger] placed(gs, x, c, k);
            assert(placed(gs, x, c, k) && nv[x] == t);
        }
        assert forall|x: int, y: int, c: int, k: int, d: int, l: int| #[trigger] placed(gs, x, c, k) && #[trigger] placed(gs, y, d, l)
            implies (c == d <==> together(nv[x], nv[y])) by {
            if label@[x] == label@[y] {
                assert(nv[x] == nv[x] && nv[y] == nv[y]);
                assert(same_label(nv, label@, nv[x], nv[y]));
            }
            if same_label(nv, label@, nv[x], nv[y]) {
                let (u, v) = choose|u: int, v: int| 0 <= u < nv.len() && 0 <= v < nv.len() && #[trigger] nv[u] == nv[x] && #[trigger] nv[v] == nv[y] && label@[u] == label@[v];
                assert(u == x && v == y);
            }
        }
        lemma_named_grouping(gs, nv, gv, perm, member, together);
        assert(numbers(nv, edge_weights@, links@));
        assert(is_settled(links@, nv.len(), label@));
        assert(is_grouping(gv, |t: Seq<char>| nv.contains(t), |s: Seq<char>, t: Seq<char>| same_label(nv, label@, s, t)));
        assert(is_community_list(idv, edge_weights@, gv));
    }
    out
}

/// The pair with the smaller id first.
pub open spec fn unordered(p: (Seq<char>, Seq<char>)) -> (Seq<char>, Seq<char>) {
    if lex_lt(p.1, p.0) {
        (p.1, p.0)
    } else {
        p
    }
}

/// The pairs, each with the smaller id first.
pub open spec fn unordered_all(pairs: Seq<(Seq<char>, Seq<char>)>) -> Seq<(Seq<char>, Seq<char>)> {
    pairs.map_values(|p: (Seq<char>, Seq<char>)| unordered(p))
}

/// How often the pair is in the list.
pub open spec fn occurrences(pairs: Seq<(Seq<char>, Seq<char>)>, p: (Seq<char>, Seq<char>)) -> nat
    decreases pairs.len(),
{
    if pairs.len() == 0 {
        0
    } else {
        occurrences(pairs.drop_last(), p) + (if pairs.last() == p {
            1nat
        } else {
            0nat
        })
    }
}

/// The pairs that the links are between.
pub open spec fn link_pairs(links: Seq<PackageLink>) -> Seq<(Seq<char>, Seq<char>)> {
    links.map_values(|l: PackageLink| (l.first@, l.second@))
}

/// The links are in order, one for each pair in the list, each weighted by how
/// often its pair is there.
pub open spec fn counts_pairs(links: Seq<PackageLink>, pairs: Seq<(Seq<char>, Seq<char>)>) -> bool {
    &&& strictly_sorted_pairs(link_pairs(links))
    &&& forall|p: (Seq<char>, Seq<char>)| #[trigger] link_pairs(links).contains(p) <==> pairs.contains(p)
    &&& forall|e: int| 0 <= e < links.len() ==> (#[trigger] links[e]).weight == occurrences(pairs, (links[e].first@, links[e].second@))
}

/// The links between the packages of a bundle: one for each pair of packages
/// of which modules call one another, weighted by how many pairs of modules
/// do.
pub open spec fn are_package_links(cs: Seq<Concept>, links: Seq<PackageLink>) -> bool {
    exists|modules: Seq<(Seq<char>, Seq<char>)>| #[trigger] is_module_list(cs, modules) && counts_pairs(links, unordered_all(package_pairs(cs, modules)))
}

proof fn lemma_occurs(pairs: Seq<(Seq<char>, Seq<char>)>, p: (Seq<char>, Seq<char>))
    ensures
        occurrences(pairs, p) <= pairs.len(),
    decreases pairs.len(),
{
    if pairs.len() > 0 {
        lemma_occurs(pairs.drop_last(), p);
    }
}

/// The sum of how often each key is in the list.
spec fn sum_occurrences(keys: Seq<(Seq<char>, Seq<char>)>, pairs: Seq<(Seq<char>, Seq<char>)>) -> nat
    decreases keys.len(),
{
    if keys.len() == 0 {
        0
    } else {
        sum_occurrences(keys.drop_last(), pairs) + occurrences(pairs, keys.last())
    }
}

proof fn lemma_sum_one_more(keys: Seq<(Seq<char>, Seq<char>)>, pairs: Seq<(Seq<char>, Seq<char>)>)
    requires
        keys.no_duplicates(),
        pairs.len() > 0,
    ensures
        sum_occurrences(keys, pairs) <= sum_occurrences(keys, pairs.drop_last()) + (if keys.contains(pairs.last()) {
            1nat
        } else {
            0nat
        }),
    decreases keys.len(),
{
    if keys.len() > 0 {
        let rest = keys.drop_last();
        lemma_sum_one_more(rest, pairs);
        if keys.last() == pairs.last() {
            assert(keys[keys.len() - 1] == pairs.last());
            assert(!rest.contains(pairs.last())) by {
                if rest.contains(pairs.last()) {
                    let k = choose|k: int| 0 <= k < rest.len() && rest[k] == pairs.last();
                    assert(keys[k] == keys[keys.len() - 1]);
                }
            }
        } else if rest.contains(pairs.last()) {
            let k = choose|k: int| 0 <= k < rest.len() && rest[k] == pairs.last();
            assert(keys[k] == pairs.last());
        }
    }
}

proof fn lemma_sum_bounded(keys: Seq<(Seq<char>, Seq<char>)>, pairs: Seq<(Seq<char>, Seq<char>)>)
    requires
        keys.no_duplicates(),
    ensures
        sum_occurrences(keys, pairs) <= pairs.len(),
    decreases pairs.len(), keys.len(),
{
    if pairs.len() > 0 {
        lemma_sum_bounded(keys, pairs.drop_last());
        lemma_sum_one_more(keys, pairs);
    } else if keys.len() > 0 {
        lemma_sum_bounded(keys.drop_last(), pairs);
    }
}

proof fn lemma_link_sum(links: Seq<PackageLink>, pairs: Seq<(Seq<char>, Seq<char>)>)
    requires
        forall|e: int| 0 <= e < links.len() ==> (#[trigger] links[e]).weight == occurrences(pairs, (links[e].first@, links[e].second@)),
    ensures
        link_total(links) == sum_occurrences(link_pairs(links), pairs),
    decreases links.len(),
{
    if links.len() > 0 {
        assert(link_pairs(links).drop_last() =~= link_pairs(links.drop_last()));
        lemma_link_sum(links.drop_last(), pairs);
        assert(links[links.len() - 1].weight == occurrences(pairs, link_pairs(links).last()));
    }
}

fn count_pair(pairs: &Vec<(&str, &str)>, a: &str, b: &str) -> (r: usize)
    ensures
        r == occurrences(pair_views(pairs@), (a@, b@)),
{
    let ghost pv = pair_views(pairs@);
    let mut count: usize = 0;
    for i in 0..pairs.len()
        invariant
            pv == pair_views(pairs@),
            count == occurrences(pv.take(i as int), (a@, b@)),
    {
        proof {
            assert(pv.take(i + 1).drop_last() =~= pv.take(i as int));
            lemma_occurs(pv.take(i as int), (a@, b@));
        }
        if same(pairs[i].0, a) && same(pairs[i].1, b) {
            count = count + 1;
        }
    }
    assert(pv.take(pv.len() as int) =~= pv);
    count
}

/// The links between packages, weighted by how many pairs of their modules
/// call one another.
pub fn weighted_package_edges(graph: &Graph) -> (r: Vec<PackageLink>)
    requires
        graph.wf(),
    ensures
        are_package_links(graph@, r@),
        link_total(r@) <= usize::MAX,
        forall|e: int| 0 <= e < r@.len() ==> depends(graph@, (#[trigger] r@[e]).first@, r@[e].second@) || depends(graph@, r@[e].second@, r@[e].first@),
{
    let edges = resolved_package_edges(graph);
    let ghost ev = pair_views(edges@);
    let mut pairs: Vec<(&str, &str)> = Vec::new();
    for i in 0..edges.len()
        invariant
            ev == pair_views(edges@),
            pairs@.len() == i,
            forall|k: int| 0 <= k < i ==> pair_views(pairs@)[k] == unordered(#[trigger] ev[k]),
    {
        let (from, to) = edges[i];
        if text_lt(to, from) {
            pairs.push((to, from));
        } else {
            pairs.push((from, to));
        }
    }
    let ghost pv = pair_views(pairs@);
    assert(pv =~= unordered_all(ev));
    let count: usize = pairs.len();
    let keys = sorted_pairs(&pairs);
    let ghost kv = pair_views(keys@);
    let mut out: Vec<PackageLink> = Vec::new();
    for i in 0..keys.len()
        invariant
            pv == pair_views(pairs@),
            out@.len() == i,
            forall|k: int| 0 <= k < i ==> (#[trigger] out@[k]).first@ == keys@[k].0@ && out@[k].second@ == keys@[k].1@
                && out@[k].weight == occurrences(pv, (keys@[k].0@, keys@[k].1@)),
    {
        let (a, b) = keys[i];
        out.push(PackageLink { first: a.to_owned(), second: b.to_owned(), weight: count_pair(&pairs, a, b) });
    }
    proof {
        let lp = link_pairs(out@);
        assert(lp =~= kv);
        assert(kv.no_duplicates()) by {
            assert forall|i: int, j: int| 0 <= i < kv.len() && 0 <= j < kv.len() && i != j implies kv[i] != kv[j] by {
                lemma_lex_irreflexive(kv[i].0);
                lemma_lex_irreflexive(kv[i].1);
                if i < j {
                    assert(pair_lt(kv[i], kv[j]));
                } else {
                    assert(pair_lt(kv[j], kv[i]));
                }
            }
        }
        lemma_sum_bounded(kv, pv);
        lemma_link_sum(out@, pv);
        assert(count == pv.len());
        let modules = choose|modules: Seq<(Seq<char>, Seq<char>)>| #[trigger] is_module_list(graph@, modules) && ev == package_pairs(graph@, modules);
        assert(counts_pairs(out@, unordered_all(package_pairs(graph@, modules))));
        assert forall|e: int| 0 <= e < out@.len() implies depends(graph@, (#[trigger] out@[e]).first@, out@[e].second@) || depends(graph@, out@[e].second@, out@[e].first@) by {
            assert(lp[e] == (out@[e].first@, out@[e].second@));
            assert(kv.contains(kv[e]));
            assert(pv.contains(kv[e]));
            let k = choose|k: int| 0 <= k < pv.len() && pv[k] == kv[e];
            assert(pv[k] == unordered(ev[k]));
            assert(ev.contains(ev[k]));
        }
    }
    out
}

/// The communities of a bundle's packages.
pub open spec fn are_communities(cs: Seq<Concept>, groups: Seq<Seq<Seq<char>>>) -> bool {
    exists|ids: Seq<Seq<char>>, links: Seq<PackageLink>| {
        &&& #[trigger] lists_packages(cs, ids)
        &&& #[trigger] are_package_links(cs, links)
        &&& ids.len() == 0 ==> groups.len() == 0
        &&& ids.len() > 0 && link_total(links) == 0 ==> are_singletons(ids, groups)
        &&& ids.len() > 0 && link_total(links) > 0 ==> is_community_list(ids, links, groups)
    }
}

/// One of the concepts is a package.
pub open spec fn has_package(cs: Seq<Concept>) -> bool {
    exists|i: int| 0 <= i < cs.len() && #[trigger] package_at(cs)(i)
}

/// The communities of packages, in order; none where there is no package. With
/// one, dependencies must be between package concepts.
pub fn communities(graph: &Graph) -> (r: Vec<Community>)
    requires
        graph.wf(),
        has_package(graph@) ==> forall|a: Seq<char>, b: Seq<char>| #[trigger] depends(graph@, a, b) ==> is_package(graph@, a) && is_package(graph@, b),
    ensures
        are_communities(graph@, community_views(r@)),
{
    let packages = package_ids(graph);
    let ids = owned_texts(&packages);
    let links = weighted_package_edges(graph);
    if ids.len() == 0 {
        assert(lists_packages(graph@, texts(ids@)));
        return Vec::new();
    }
    proof {
        let at = choose|at: Seq<int>| #[trigger] selection(graph@, package_at(graph@), at) && texts(ids@) == at.map_values(|i: int| graph@[i].id@);
        assert(texts(ids@).len() == ids@.len());
        assert(package_at(graph@)(at[0]));
    }
    proof {
        assert forall|e: int| 0 <= e < links@.len() implies texts(ids@).contains((#[trigger] links@[e]).first@) && texts(ids@).contains(links@[e].second@) by {
            assert(is_package(graph@, links@[e].first@));
            assert(str_views(packages@).contains(links@[e].first@));
            assert(str_views(packages@).contains(links@[e].second@));
        }
        assert(lists_packages(graph@, texts(ids@)));
    }
    greedy_modularity_communities(&ids, &links)
}

proof fn lemma_links_unique(cs: Seq<Concept>, x: Seq<PackageLink>, y: Seq<PackageLink>)
    requires
        are_package_links(cs, x),
        are_package_links(cs, y),
    ensures
        link_pairs(x) == link_pairs(y),
        forall|e: int| 0 <= e < x.len() ==> (#[trigger] x[e]).weight == y[e].weight,
{
    let mx = choose|modules: Seq<(Seq<char>, Seq<char>)>| #[trigger] is_module_list(cs, modules) && counts_pairs(x, unordered_all(package_pairs(cs, modules)));
    let my = choose|modules: Seq<(Seq<char>, Seq<char>)>| #[trigger] is_module_list(cs, modules) && counts_pairs(y, unordered_all(package_pairs(cs, modules)));
    lemma_sorted_pairs_unique(mx, my);
    lemma_sorted_pairs_unique(link_pairs(x), link_pairs(y));
    assert forall|e: int| 0 <= e < x.len() implies (#[trigger] x[e]).weight == y[e].weight by {
        assert(link_pairs(x)[e] == link_pairs(y)[e]);
    }
}

proof fn lemma_link_totals(x: Seq<PackageLink>, y: Seq<PackageLink>)
    requires
        x.len() == y.len(),
        forall|e: int| 0 <= e < x.len() ==> (#[trigger] x[e]).weight == y[e].weight,
    ensures
        link_total(x) == link_total(y),
    decreases x.len(),
{
    if x.len() > 0 {
        assert forall|e: int| 0 <= e < x.len() - 1 implies (#[trigger] x.drop_last()[e]).weight == y.drop_last()[e].weight by {
            assert(x[e].weight == y[e].weight);
        }
        lemma_link_totals(x.drop_last(), y.drop_last());
        assert(x[x.len() - 1].weight == y[x.len() - 1].weight);
    }
}

/// A bundle has one list of communities: finding them again gives the same,
/// in the same order.
pub proof fn communities_come_out_alike(cs: Seq<Concept>, groups: Seq<Seq<Seq<char>>>, others: Seq<Seq<Seq<char>>>)
    requires
        are_communities(cs, groups),
        are_communities(cs, others),
    ensures
        groups == others,
{
    let (ids, x) = choose|ids: Seq<Seq<char>>, links: Seq<PackageLink>| {
        &&& #[trigger] lists_packages(cs, ids)
        &&& #[trigger] are_package_links(cs, links)
        &&& ids.len() == 0 ==> groups.len() == 0
        &&& ids.len() > 0 && link_total(links) == 0 ==> are_singletons(ids, groups)
        &&& ids.len() > 0 && link_total(links) > 0 ==> is_community_list(ids, links, groups)
    };
    let (ids2, y) = choose|ids: Seq<Seq<char>>, links: Seq<PackageLink>| {
        &&& #[trigger] lists_packages(cs, ids)
        &&& #[trigger] are_package_links(cs, links)
        &&& ids.len() == 0 ==> others.len() == 0
        &&& ids.len() > 0 && link_total(links) == 0 ==> are_singletons(ids, others)
        &&& ids.len() > 0 && link_total(links) > 0 ==> is_community_list(ids, links, others)
    };
    let at = choose|at: Seq<int>| #[trigger] selection(cs, package_at(cs), at) && ids == at.map_values(|i: int| cs[i].id@);
    let at2 = choose|at: Seq<int>| #[trigger] selection(cs, package_at(cs), at) && ids2 == at.map_values(|i: int| cs[i].id@);
    selections_are_unique(cs, package_at(cs), at, at2);
    assert(ids == ids2);
    lemma_links_unique(cs, x, y);
    assert(x.len() == link_pairs(x).len() && y.len() == link_pairs(y).len());
    lemma_link_totals(x, y);
    if ids.len() == 0 {
        assert(groups =~= others);
    } else if link_total(x) == 0 {
        let o = choose|order: Seq<usize>| #[trigger] is_sort_order(id_keys(ids), order) && groups.len() == order.len()
            && forall|i: int| 0 <= i < groups.len() ==> #[trigger] groups[i] == seq![ids[order[i] as int]];
        let o2 = choose|order: Seq<usize>| #[trigger] is_sort_order(id_keys(ids), order) && others.len() == order.len()
            && forall|i: int| 0 <= i < others.len() ==> #[trigger] others[i] == seq![ids[order[i] as int]];
        lemma_sort_order_unique(id_keys(ids), o, o2);
        assert(groups =~= others);
    } else {
        lemma_lists_unique(ids, x, y, groups, others);
    }
}

/// Packages with links that agree have one list of communities.
pub proof fn lemma_lists_unique(ids: Seq<Seq<char>>, x: Seq<PackageLink>, y: Seq<PackageLink>, groups: Seq<Seq<Seq<char>>>, others: Seq<Seq<Seq<char>>>)
    requires
        is_community_list(ids, x, groups),
        is_community_list(ids, y, others),
        link_pairs(x) == link_pairs(y),
        forall|e: int| 0 <= e < x.len() ==> (#[trigger] x[e]).weight == y[e].weight,
    ensures
        groups == others,
{
    let (names, numbered, label) = choose|names: Seq<Seq<char>>, numbered: Seq<Link>, label: Seq<usize>| {
        &&& strictly_sorted(names)
        &&& forall|t: Seq<char>| #[trigger] names.contains(t) <==> ids.contains(t)
        &&& #[trigger] numbers(names, x, numbered)
        &&& label.len() == names.len()
        &&& #[trigger] is_settled(numbered, names.len(), label)
        &&& is_grouping(groups, |t: Seq<char>| names.contains(t), |s: Seq<char>, t: Seq<char>| same_label(names, label, s, t))
    };
    let (names2, numbered2, label2) = choose|names: Seq<Seq<char>>, numbered: Seq<Link>, label: Seq<usize>| {
        &&& strictly_sorted(names)
        &&& forall|t: Seq<char>| #[trigger] names.contains(t) <==> ids.contains(t)
        &&& #[trigger] numbers(names, y, numbered)
        &&& label.len() == names.len()
        &&& #[trigger] is_settled(numbered, names.len(), label)
        &&& is_grouping(others, |t: Seq<char>| names.contains(t), |s: Seq<char>, t: Seq<char>| same_label(names, label, s, t))
    };
    lemma_sorted_unique(names, names2);
    assert(x.len() == link_pairs(x).len() && y.len() == link_pairs(y).len());
    assert forall|e: int| 0 <= e < numbered.len() implies numbered[e] == numbered2[e] by {
        assert(link_pairs(x)[e] == link_pairs(y)[e]);
        lemma_lex_irreflexive(x[e].first@);
        lemma_lex_irreflexive(x[e].second@);
        let (a, b) = (numbered[e], numbered2[e]);
        assert(names[a.0 as int] == names[b.0 as int]);
        assert(names[a.1 as int] == names[b.1 as int]);
        assert(x[e].weight == y[e].weight);
    }
    assert(numbered =~= numbered2);
    communities_are_determined(numbered, names.len(), label, label2);
    let member = |t: Seq<char>| names.contains(t);
    let together = |s: Seq<char>, t: Seq<char>| same_label(names, label, s, t);
    groupings_are_unique(groups, others, member, together);
}

}
