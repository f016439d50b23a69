//! Which module and which package a concept is in, and which packages depend
//! on which because of it.

use vstd::prelude::*;
use crate::arch::{below_packages, dependence, depends, in_domain, is_layering, is_module_list, is_package, package_pair, package_pairs, raised, ties};
use crate::communities::{are_package_links, counts_pairs, link_pairs, occurrences, unordered, unordered_all, PackageLink};
use crate::digraph::{entwined, leads_to};
use crate::graph::{find, is_member, is_module, members_at, module_call_at, module_calls, module_of_file, owning_module_of, owning_package_of, related_of};
use crate::grouping::{in_group, is_grouping};
use crate::model::{Concept, ConceptKind, RelationKind};
use crate::order::strictly_sorted_pairs;
use crate::reach::{chained, is_there, lemma_leads, lemma_stands, points_at, relationships_are_followed_in_order, stands_for};
use crate::text::{lemma_lex_irreflexive, lemma_lex_total, lex_lt};

verus! {

/// The concept at `k` is the last module that is declared in the file.
pub open spec fn is_last_module(cs: Seq<Concept>, k: int, file: Seq<char>) -> bool {
    &&& 0 <= k < cs.len()
    &&& cs[k].kind is Module
    &&& cs[k].location.file@ == file
    &&& forall|l: int| k < l < cs.len() ==> !((#[trigger] cs[l]).kind is Module && cs[l].location.file@ == file)
}

/// The concept at `m` is the module that holds what the id means: that of the
/// file where it is declared.
pub open spec fn is_home(cs: Seq<Concept>, m: int, id: Seq<char>) -> bool {
    exists|i: int, k: int| stands_for(cs, i, id) && #[trigger] is_last_module(cs, k, cs[i].location.file@) && #[trigger] stands_for(cs, m, cs[k].id@) && #[trigger] stands_for(cs, i, id)
}

proof fn lemma_last_module(cs: Seq<Concept>, file: Seq<char>)
    ensures
        match module_of_file(cs, file) {
            Some(k) => is_last_module(cs, k, file) && forall|l: int| #[trigger] is_last_module(cs, l, file) ==> l == k,
            None => forall|l: int| !#[trigger] is_last_module(cs, l, file),
        },
    decreases cs.len(),
{
    if cs.len() > 0 {
        let rest = cs.drop_last();
        lemma_last_module(rest, file);
        if cs.last().kind == ConceptKind::Module && cs.last().location.file@ == file {
            assert(is_last_module(cs, cs.len() - 1, file));
            assert forall|l: int| #[trigger] is_last_module(cs, l, file) implies l == cs.len() - 1 by {
                if l < cs.len() - 1 {
                    assert(!(cs[cs.len() - 1].kind is Module));
                }
            }
        } else {
            assert forall|l: int| is_last_module(cs, l, file) <==> is_last_module(rest, l, file) by {
                if is_last_module(cs, l, file) {
                    assert forall|j: int| l < j < rest.len() implies !((#[trigger] rest[j]).kind is Module && rest[j].location.file@ == file) by {
                        assert(rest[j] == cs[j]);
                    }
                }
                if is_last_module(rest, l, file) {
                    assert forall|j: int| l < j < cs.len() implies !((#[trigger] cs[j]).kind is Module && cs[j].location.file@ == file) by {
                        if j < rest.len() {
                            assert(rest[j] == cs[j]);
                        }
                    }
                }
            }
            match module_of_file(rest, file) {
                Some(k) => {
                    assert(is_last_module(cs, k, file));
                },
                None => {},
            }
        }
    }
}

/// A concept is in the module that its file declares, and in none where its
/// file declares none.
pub proof fn modules_hold_their_files(cs: Seq<Concept>, id: Seq<char>)
    ensures
        match owning_module_of(cs, id) {
            Some(m) => is_home(cs, m, id) && forall|n: int| #[trigger] is_home(cs, n, id) ==> n == m,
            None => forall|n: int| !#[trigger] is_home(cs, n, id),
        },
{
    lemma_stands(cs, id);
    if let Some(i) = find(cs, id) {
        let file = cs[i].location.file@;
        lemma_last_module(cs, file);
        if let Some(k) = module_of_file(cs, file) {
            lemma_stands(cs, cs[k].id@);
            let m = find(cs, cs[k].id@)->0;
            assert(is_last_module(cs, k, cs[i].location.file@) && stands_for(cs, m, cs[k].id@));
            assert(is_home(cs, m, id));
            assert forall|n: int| #[trigger] is_home(cs, n, id) implies n == m by {
                let (j, l) = choose|j: int, l: int|
                    stands_for(cs, j, id) && #[trigger] is_last_module(cs, l, cs[j].location.file@) && #[trigger] stands_for(cs, n, cs[l].id@) && #[trigger] stands_for(cs, j, id);
                assert(j == i);
                assert(l == k);
            }
        }
    }
}

/// The first of the relationships as a member, of the concept at `i`, whose
/// target is there has the concept at `p` for its target.
pub open spec fn is_member_first(cs: Seq<Concept>, i: int, p: int) -> bool {
    exists|k: int, target: Seq<char>| {
        &&& #[trigger] points_at(cs, i, k, RelationKind::MemberOf, target)
        &&& #[trigger] stands_for(cs, p, target)
        &&& forall|l: int, other: Seq<char>| l < k && #[trigger] points_at(cs, i, l, RelationKind::MemberOf, other) ==> !is_there(cs, other)
    }
}

proof fn lemma_member_first(cs: Seq<Concept>, id: Seq<char>, i: int)
    requires
        stands_for(cs, i, id),
    ensures
        related_of(cs, id, RelationKind::MemberOf).len() > 0 ==> is_member_first(cs, i, related_of(cs, id, RelationKind::MemberOf)[0]),
        forall|p: int| #[trigger] is_member_first(cs, i, p) ==> related_of(cs, id, RelationKind::MemberOf).len() > 0 && p == related_of(cs, id, RelationKind::MemberOf)[0],
{
    let kind = RelationKind::MemberOf;
    let ts = related_of(cs, id, kind);
    relationships_are_followed_in_order(cs, id, kind, i);
    let from = choose|from: Seq<int>| {
        &&& #[trigger] from.len() == ts.len()
        &&& forall|n: int, m: int| 0 <= n < m < from.len() ==> #[trigger] from[n] < #[trigger] from[m]
        &&& forall|n: int| 0 <= n < from.len() ==> points_at(cs, i, #[trigger] from[n], kind, cs[i].relationships@[from[n]].target@) && stands_for(
            cs,
            ts[n],
            cs[i].relationships@[from[n]].target@,
        )
        &&& forall|k: int, target: Seq<char>| #[trigger] points_at(cs, i, k, kind, target) && is_there(cs, target) ==> from.contains(k)
    };
    if ts.len() > 0 {
        let k = from[0];
        let target = cs[i].relationships@[k].target@;
        assert(points_at(cs, i, k, kind, target) && stands_for(cs, ts[0], target));
        assert forall|l: int, other: Seq<char>| l < k && #[trigger] points_at(cs, i, l, kind, other) implies !is_there(cs, other) by {
            if is_there(cs, other) {
                let n = choose|n: int| 0 <= n < from.len() && from[n] == l;
                if n > 0 {
                    assert(from[0] < from[n]);
                }
            }
        }
        assert(is_member_first(cs, i, ts[0]));
    }
    assert forall|p: int| #[trigger] is_member_first(cs, i, p) implies ts.len() > 0 && p == ts[0] by {
        let (k, target) = choose|k: int, target: Seq<char>| {
            &&& #[trigger] points_at(cs, i, k, kind, target)
            &&& #[trigger] stands_for(cs, p, target)
            &&& forall|l: int, other: Seq<char>| l < k && #[trigger] points_at(cs, i, l, kind, other) ==> !is_there(cs, other)
        };
        lemma_stands(cs, target);
        assert(cs[p].id@ == target);
        assert(is_there(cs, target));
        let n = choose|n: int| 0 <= n < from.len() && from[n] == k;
        if n > 0 {
            assert(from[0] < from[n]);
            let other = cs[i].relationships@[from[0]].target@;
            assert(points_at(cs, i, from[0], kind, other));
            assert(stands_for(cs, ts[0], other));
            assert(is_there(cs, other)) by {
                assert(cs[ts[0]].id@ == other);
            }
        }
    }
}

/// The concept at `p` is the package that holds what the id means: what a
/// module is a member of, and for anything else, or a module that is a member
/// of nothing, what the module that holds it is a member of.
pub open spec fn is_package_home(cs: Seq<Concept>, p: int, id: Seq<char>) -> bool {
    exists|i: int| #[trigger] stands_for(cs, i, id) && {
        ||| cs[i].kind is Module && is_member_first(cs, i, p)
        ||| !(cs[i].kind is Module && exists|q: int| #[trigger] is_member_first(cs, i, q)) && exists|m: int| #[trigger] is_home(cs, m, id) && is_member_first(cs, m, p)
    }
}

/// A concept is in the package that its module is a member of.
pub proof fn packages_hold_their_modules(cs: Seq<Concept>, id: Seq<char>)
    ensures
        match owning_package_of(cs, id) {
            Some(p) => is_package_home(cs, p, id) && forall|q: int| #[trigger] is_package_home(cs, q, id) ==> q == p,
            None => forall|q: int| !#[trigger] is_package_home(cs, q, id),
        },
{
    lemma_stands(cs, id);
    modules_hold_their_files(cs, id);
    if let Some(i) = find(cs, id) {
        lemma_member_first(cs, id, i);
        let own = related_of(cs, id, RelationKind::MemberOf);
        if let Some(m) = owning_module_of(cs, id) {
            lemma_stands(cs, cs[m].id@);
            lemma_home_stands(cs, m, id);
            lemma_member_first(cs, cs[m].id@, m);
        }
        if is_module(cs, id) && own.len() > 0 {
            assert(is_member_first(cs, i, own[0]));
            assert(stands_for(cs, i, id));
        } else {
            assert(!(cs[i].kind is Module && exists|q: int| #[trigger] is_member_first(cs, i, q)));
            if let Some(m) = owning_module_of(cs, id) {
                assert(is_home(cs, m, id));
            }
        }
    }
}

proof fn lemma_home_stands(cs: Seq<Concept>, m: int, id: Seq<char>)
    requires
        is_home(cs, m, id),
    ensures
        stands_for(cs, m, cs[m].id@),
        cs[m].id@ == cs[m].id@,
{
    let (j, l) = choose|j: int, l: int|
        stands_for(cs, j, id) && #[trigger] is_last_module(cs, l, cs[j].location.file@) && #[trigger] stands_for(cs, m, cs[l].id@) && #[trigger] stands_for(cs, j, id);
    assert(stands_for(cs, m, cs[l].id@));
}

/// Something in the module `from` calls something in another module `to`.
pub open spec fn calls_across(cs: Seq<Concept>, from: Seq<char>, to: Seq<char>) -> bool {
    &&& from != to
    &&& exists|i: int, k: int, target: Seq<char>, m: int, n: int| {
        &&& #[trigger] points_at(cs, i, k, RelationKind::Calls, target)
        &&& #[trigger] is_home(cs, m, cs[i].id@)
        &&& #[trigger] is_home(cs, n, target)
        &&& cs[m].id@ == from
        &&& cs[n].id@ == to
    }
}

/// A module depends on another exactly where something in the one calls
/// something in the other.
pub proof fn modules_depend_by_calls(cs: Seq<Concept>, from: Seq<char>, to: Seq<char>)
    ensures
        module_calls(cs, from, to) <==> calls_across(cs, from, to),
{
    if module_calls(cs, from, to) {
        let (i, j) = choose|i: int, j: int| #[trigger] module_call_at(cs, i, j, from, to);
        let target = cs[i].relationships@[j].target@;
        modules_hold_their_files(cs, cs[i].id@);
        modules_hold_their_files(cs, target);
        let (m, n) = (owning_module_of(cs, cs[i].id@)->0, owning_module_of(cs, target)->0);
        assert(points_at(cs, i, j, RelationKind::Calls, target));
        assert(is_home(cs, m, cs[i].id@) && is_home(cs, n, target));
    }
    if calls_across(cs, from, to) {
        let (i, k, target, m, n) = choose|i: int, k: int, target: Seq<char>, m: int, n: int| {
            &&& #[trigger] points_at(cs, i, k, RelationKind::Calls, target)
            &&& #[trigger] is_home(cs, m, cs[i].id@)
            &&& #[trigger] is_home(cs, n, target)
            &&& cs[m].id@ == from
            &&& cs[n].id@ == to
        };
        modules_hold_their_files(cs, cs[i].id@);
        modules_hold_their_files(cs, target);
        assert(module_call_at(cs, i, k, from, to));
    }
}

/// A call from the module `from` into the module `to` is one from package `a`
/// into another package `b`.
pub open spec fn runs_from_to(cs: Seq<Concept>, from: Seq<char>, to: Seq<char>, a: Seq<char>, b: Seq<char>) -> bool {
    &&& a != b
    &&& exists|p: int, q: int| #[trigger] is_package_home(cs, p, from) && #[trigger] is_package_home(cs, q, to) && cs[p].id@ == a && cs[q].id@ == b
}

proof fn lemma_package_pair(cs: Seq<Concept>, from: Seq<char>, to: Seq<char>, a: Seq<char>, b: Seq<char>)
    ensures
        package_pair(cs, from, to) == Some((a, b)) <==> runs_from_to(cs, from, to, a, b),
{
    packages_hold_their_modules(cs, from);
    packages_hold_their_modules(cs, to);
    if package_pair(cs, from, to) == Some((a, b)) {
        let (p, q) = (owning_package_of(cs, from)->0, owning_package_of(cs, to)->0);
        assert(is_package_home(cs, p, from) && is_package_home(cs, q, to));
    }
    if runs_from_to(cs, from, to, a, b) {
        let (p, q) = choose|p: int, q: int| #[trigger] is_package_home(cs, p, from) && #[trigger] is_package_home(cs, q, to) && cs[p].id@ == a && cs[q].id@ == b;
        assert(owning_package_of(cs, from) == Some(p) && owning_package_of(cs, to) == Some(q));
    }
}

/// Package `a` relies on another package `b`: something in a module of the one
/// calls something in a module of the other.
pub open spec fn relies_on(cs: Seq<Concept>, a: Seq<char>, b: Seq<char>) -> bool {
    exists|from: Seq<char>, to: Seq<char>| #[trigger] calls_across(cs, from, to) && runs_from_to(cs, from, to, a, b)
}

/// A package depends on another exactly where it relies on it.
pub proof fn packages_depend_by_their_modules(cs: Seq<Concept>, a: Seq<char>, b: Seq<char>)
    ensures
        depends(cs, a, b) <==> relies_on(cs, a, b),
{
    if depends(cs, a, b) {
        let (from, to) = choose|from: Seq<char>, to: Seq<char>| #[trigger] module_calls(cs, from, to) && package_pair(cs, from, to) == Some((a, b));
        modules_depend_by_calls(cs, from, to);
        lemma_package_pair(cs, from, to, a, b);
        assert(calls_across(cs, from, to));
    }
    if relies_on(cs, a, b) {
        let (from, to) = choose|from: Seq<char>, to: Seq<char>| #[trigger] calls_across(cs, from, to) && runs_from_to(cs, from, to, a, b);
        modules_depend_by_calls(cs, from, to);
        lemma_package_pair(cs, from, to, a, b);
        assert(module_calls(cs, from, to));
    }
}

/// Relying on a package, as a relation.
pub open spec fn relying(cs: Seq<Concept>) -> spec_fn(Seq<char>, Seq<char>) -> bool {
    |a: Seq<char>, b: Seq<char>| relies_on(cs, a, b)
}

/// Relying on a package or being relied on by it, as a relation.
pub open spec fn allied(cs: Seq<Concept>) -> spec_fn(Seq<char>, Seq<char>) -> bool {
    |a: Seq<char>, b: Seq<char>| relies_on(cs, a, b) || relies_on(cs, b, a)
}

proof fn lemma_relations(cs: Seq<Concept>)
    ensures
        dependence(cs) == relying(cs),
        ties(cs) == allied(cs),
{
    assert forall|a: Seq<char>, b: Seq<char>| #[trigger] dependence(cs)(a, b) == relying(cs)(a, b) by {
        packages_depend_by_their_modules(cs, a, b);
    }
    assert(dependence(cs) =~= relying(cs));
    assert forall|a: Seq<char>, b: Seq<char>| #[trigger] ties(cs)(a, b) == allied(cs)(a, b) by {
        packages_depend_by_their_modules(cs, a, b);
        packages_depend_by_their_modules(cs, b, a);
    }
    assert(ties(cs) =~= allied(cs));
}

/// The packages rely on each other, over however many others.
pub open spec fn rely_mutually(cs: Seq<Concept>, a: Seq<char>, b: Seq<char>) -> bool {
    chained(relying(cs), a, b) && chained(relying(cs), b, a)
}

proof fn lemma_mutual(cs: Seq<Concept>, a: Seq<char>, b: Seq<char>)
    ensures
        entwined(dependence(cs), a, b) <==> rely_mutually(cs, a, b),
{
    lemma_relations(cs);
    lemma_leads(relying(cs), a, b);
    lemma_leads(relying(cs), b, a);
}

/// The package relies on nothing but packages that rely on it in turn.
pub open spec fn relies_on_none_below(cs: Seq<Concept>, a: Seq<char>) -> bool {
    forall|s: Seq<char>, b: Seq<char>| rely_mutually(cs, a, s) && #[trigger] relies_on(cs, s, b) ==> rely_mutually(cs, s, b)
}

/// The id has a layer.
pub open spec fn has_layer(r: Seq<(Seq<char>, int)>, id: Seq<char>) -> bool {
    exists|i: int| 0 <= i < r.len() && (#[trigger] r[i]).0 == id
}

/// A package relies on the id, over however many others, or is it.
pub open spec fn is_relied_on(cs: Seq<Concept>, id: Seq<char>) -> bool {
    exists|p: int| 0 <= p < cs.len() && (#[trigger] cs[p]).kind is Package && chained(relying(cs), cs[p].id@, id)
}

/// The entries are layers.
#[verifier::opaque]
spec fn layered(cs: Seq<Concept>, r: Seq<(Seq<char>, int)>) -> bool {
    is_layering(cs, r)
}

proof fn lemma_raised(cs: Seq<Concept>, r: Seq<(Seq<char>, int)>, i: int)
    requires
        layered(cs, r),
        0 <= i < r.len(),
        r[i].1 != 0,
    ensures
        raised(cs, r, i),
{
    reveal(layered);
    assert(r[i].1 > 0);
}

proof fn lemma_not_negative(cs: Seq<Concept>, r: Seq<(Seq<char>, int)>, i: int)
    requires
        layered(cs, r),
        0 <= i < r.len(),
    ensures
        r[i].1 >= 0,
{
    reveal(layered);
    assert(below_packages(cs, r[i].0) && r[i].1 >= 0);
}

proof fn lemma_layer_members(cs: Seq<Concept>, r: Seq<(Seq<char>, int)>, t: Seq<char>)
    requires
        layered(cs, r),
    ensures
        has_layer(r, t) <==> is_relied_on(cs, t),
{
    reveal(layered);
    lemma_relations(cs);
    if has_layer(r, t) {
        let i = choose|i: int| 0 <= i < r.len() && (#[trigger] r[i]).0 == t;
        assert(below_packages(cs, r[i].0));
        let s = choose|s: Seq<char>| #[trigger] is_package(cs, s) && leads_to(dependence(cs), s, t);
        lemma_leads(relying(cs), s, t);
        let p = choose|p: int| 0 <= p < cs.len() && (#[trigger] cs[p]).kind == ConceptKind::Package && cs[p].id@ == s;
        assert(cs[p].kind is Package && chained(relying(cs), cs[p].id@, t));
    }
    if is_relied_on(cs, t) {
        let p = choose|p: int| 0 <= p < cs.len() && (#[trigger] cs[p]).kind is Package && chained(relying(cs), cs[p].id@, t);
        lemma_leads(relying(cs), cs[p].id@, t);
        assert(is_package(cs, cs[p].id@));
        assert(below_packages(cs, t));
    }
}

/// How two entries with layers lie to each other.
pub open spec fn lie_right(cs: Seq<Concept>, a: (Seq<char>, int), b: (Seq<char>, int)) -> bool {
    &&& rely_mutually(cs, a.0, b.0) ==> a.1 == b.1
    &&& relies_on(cs, a.0, b.0) && !rely_mutually(cs, a.0, b.0) ==> a.1 > b.1
}

proof fn lemma_layer_order(cs: Seq<Concept>, r: Seq<(Seq<char>, int)>, i: int, j: int)
    requires
        layered(cs, r),
        0 <= i < r.len(),
        0 <= j < r.len(),
    ensures
        lie_right(cs, r[i], r[j]),
{
    reveal(layered);
    lemma_mutual(cs, r[i].0, r[j].0);
    packages_depend_by_their_modules(cs, r[i].0, r[j].0);
}

/// Entry `i`, or one that relies on it and is relied on by it, relies on an
/// entry on the layer just below.
pub open spec fn rests_on_the_next(cs: Seq<Concept>, r: Seq<(Seq<char>, int)>, i: int) -> bool {
    exists|j: int, k: int| {
        &&& 0 <= j < r.len()
        &&& 0 <= k < r.len()
        &&& rely_mutually(cs, r[i].0, (#[trigger] r[j]).0)
        &&& relies_on(cs, r[j].0, (#[trigger] r[k]).0)
        &&& r[k].1 == r[i].1 - 1
    }
}

proof fn lemma_layer_rests(cs: Seq<Concept>, r: Seq<(Seq<char>, int)>, i: int)
    requires
        layered(cs, r),
        0 <= i < r.len(),
        r[i].1 != 0,
    ensures
        rests_on_the_next(cs, r, i),
{
    lemma_raised(cs, r, i);
    let (j, k) = choose|j: int, k: int| 0 <= j < r.len() && 0 <= k < r.len() && entwined(dependence(cs), r[i].0, (#[trigger] r[j]).0)
        && depends(cs, r[j].0, (#[trigger] r[k]).0) && !entwined(dependence(cs), r[j].0, r[k].0) && r[k].1 + 1 == r[i].1;
    lemma_mutual(cs, r[i].0, r[j].0);
    packages_depend_by_their_modules(cs, r[j].0, r[k].0);
    assert(rely_mutually(cs, r[i].0, r[j].0) && relies_on(cs, r[j].0, r[k].0));
}

proof fn lemma_layer_zero(cs: Seq<Concept>, r: Seq<(Seq<char>, int)>, i: int)
    requires
        layered(cs, r),
        0 <= i < r.len(),
    ensures
        r[i].1 == 0 <==> relies_on_none_below(cs, r[i].0),
{
    let a = r[i].0;
    if r[i].1 == 0 {
        assert forall|s: Seq<char>, b: Seq<char>| rely_mutually(cs, a, s) && #[trigger] relies_on(cs, s, b) implies rely_mutually(cs, s, b) by {
            let j = lemma_in_layers(cs, r, i, s);
            lemma_one_link(cs, s, b);
            let k = lemma_in_layers(cs, r, j, b);
            lemma_layer_order(cs, r, i, j);
            lemma_layer_order(cs, r, j, k);
            lemma_not_negative(cs, r, k);
        }
    } else {
        lemma_layer_rests(cs, r, i);
        let (j, k) = choose|j: int, k: int| {
            &&& 0 <= j < r.len()
            &&& 0 <= k < r.len()
            &&& rely_mutually(cs, r[i].0, (#[trigger] r[j]).0)
            &&& relies_on(cs, r[j].0, (#[trigger] r[k]).0)
            &&& r[k].1 == r[i].1 - 1
        };
        lemma_layer_order(cs, r, i, j);
        lemma_layer_order(cs, r, j, k);
        if relies_on_none_below(cs, a) {
            assert(rely_mutually(cs, r[j].0, r[k].0));
        }
    }
}

/// The layers hold what packages rely on, packages included. Packages that
/// rely on each other are on one layer. What relies on another that does not
/// rely on it is above it. Layer 0 is what relies on nothing below it, and on
/// any other layer something relies on the layer just below.
pub proof fn layers_rest_on_what_is_below(cs: Seq<Concept>, r: Seq<(Seq<char>, int)>)
    requires
        is_layering(cs, r),
    ensures
        forall|t: Seq<char>| #[trigger] has_layer(r, t) <==> is_relied_on(cs, t),
        forall|i: int, j: int| 0 <= i < r.len() && 0 <= j < r.len() ==> lie_right(cs, #[trigger] r[i], #[trigger] r[j]),
        forall|i: int| 0 <= i < r.len() ==> ((#[trigger] r[i]).1 == 0 <==> relies_on_none_below(cs, r[i].0)),
        forall|i: int| 0 <= i < r.len() && (#[trigger] r[i]).1 != 0 ==> rests_on_the_next(cs, r, i),
{
    assert(layered(cs, r)) by {
        reveal(layered);
    }
    lemma_layers(cs, r);
}

proof fn lemma_layers(cs: Seq<Concept>, r: Seq<(Seq<char>, int)>)
    requires
        layered(cs, r),
    ensures
        forall|t: Seq<char>| #[trigger] has_layer(r, t) <==> is_relied_on(cs, t),
        forall|i: int, j: int| 0 <= i < r.len() && 0 <= j < r.len() ==> lie_right(cs, #[trigger] r[i], #[trigger] r[j]),
        forall|i: int| 0 <= i < r.len() ==> ((#[trigger] r[i]).1 == 0 <==> relies_on_none_below(cs, r[i].0)),
        forall|i: int| 0 <= i < r.len() && (#[trigger] r[i]).1 != 0 ==> rests_on_the_next(cs, r, i),
{
    assert forall|t: Seq<char>| #[trigger] has_layer(r, t) <==> is_relied_on(cs, t) by {
        lemma_layer_members(cs, r, t);
    }
    assert forall|i: int, j: int| 0 <= i < r.len() && 0 <= j < r.len() implies lie_right(cs, #[trigger] r[i], #[trigger] r[j]) by {
        lemma_layer_order(cs, r, i, j);
    }
    assert forall|i: int| 0 <= i < r.len() implies ((#[trigger] r[i]).1 == 0 <==> relies_on_none_below(cs, r[i].0)) by {
        lemma_layer_zero(cs, r, i);
    }
    assert forall|i: int| 0 <= i < r.len() && (#[trigger] r[i]).1 != 0 implies rests_on_the_next(cs, r, i) by {
        lemma_layer_rests(cs, r, i);
    }
}

proof fn lemma_one_link(cs: Seq<Concept>, a: Seq<char>, b: Seq<char>)
    requires
        relies_on(cs, a, b),
    ensures
        chained(relying(cs), a, b),
{
    let rel = relying(cs);
    assert(rel(a, b));
    crate::digraph::lemma_leads_one(rel, a, b);
    lemma_leads(rel, a, b);
}

/// What is relied on from within the layers is in them.
proof fn lemma_in_layers(cs: Seq<Concept>, r: Seq<(Seq<char>, int)>, i: int, t: Seq<char>) -> (j: int)
    requires
        layered(cs, r),
        0 <= i < r.len(),
        chained(relying(cs), r[i].0, t),
    ensures
        0 <= j < r.len(),
        r[j].0 == t,
{
    reveal(layered);
    lemma_relations(cs);
    let rel = relying(cs);
    lemma_leads(rel, r[i].0, t);
    assert(below_packages(cs, r[i].0));
    let p = choose|p: Seq<char>| #[trigger] is_package(cs, p) && leads_to(rel, p, r[i].0);
    assert(leads_to(rel, p, t)) by {
        reveal(leads_to);
        let n = choose|n: nat| crate::digraph::steps_to(rel, p, r[i].0, n);
        let m = choose|m: nat| crate::digraph::steps_to(rel, r[i].0, t, m);
        crate::digraph::lemma_steps_join(rel, p, r[i].0, t, n, m);
    }
    assert(below_packages(cs, t));
    choose|j: int| 0 <= j < r.len() && (#[trigger] r[j]).0 == t
}

/// The domains hold the packages and whatever is allied with them, and two are
/// in one domain exactly where a chain of alliances leads from one to the
/// other.
pub proof fn domains_are_chains_of_alliances(cs: Seq<Concept>, groups: Seq<Seq<Seq<char>>>)
    requires
        is_grouping(groups, |t: Seq<char>| in_domain(cs, t), |s: Seq<char>, t: Seq<char>| leads_to(ties(cs), s, t)),
    ensures
        forall|p: int| 0 <= p < cs.len() && (#[trigger] cs[p]).kind is Package ==> exists|g: int| in_group(groups, g, cs[p].id@),
        forall|g: int, h: int, s: Seq<char>, t: Seq<char>| #[trigger] in_group(groups, g, s) && #[trigger] in_group(groups, h, t) ==> (g == h <==> chained(allied(cs), s, t)),
        forall|g: int, t: Seq<char>| #[trigger] in_group(groups, g, t) ==> exists|p: int| 0 <= p < cs.len() && (#[trigger] cs[p]).kind is Package && in_group(groups, g, cs[p].id@),
{
    lemma_relations(cs);
    let rel = allied(cs);
    let member = |t: Seq<char>| in_domain(cs, t);
    let together = |s: Seq<char>, t: Seq<char>| leads_to(ties(cs), s, t);
    assert forall|p: int| 0 <= p < cs.len() && (#[trigger] cs[p]).kind is Package implies exists|g: int| in_group(groups, g, cs[p].id@) by {
        let t = cs[p].id@;
        assert(is_package(cs, t));
        assert(leads_to(rel, t, t)) by {
            reveal(leads_to);
            assert(crate::digraph::steps_to(rel, t, t, 0));
        }
        assert(member(t));
    }
    assert forall|g: int, h: int, s: Seq<char>, t: Seq<char>| #[trigger] in_group(groups, g, s) && #[trigger] in_group(groups, h, t) implies (g == h <==> chained(rel, s, t)) by {
        assert(g == h <==> together(s, t));
        lemma_leads(rel, s, t);
    }
    assert forall|g: int, t: Seq<char>| #[trigger] in_group(groups, g, t) implies exists|p: int| 0 <= p < cs.len() && (#[trigger] cs[p]).kind is Package && in_group(groups, g, cs[p].id@) by {
        assert(member(t));
        let s = choose|s: Seq<char>| #[trigger] is_package(cs, s) && leads_to(ties(cs), s, t);
        let p = choose|p: int| 0 <= p < cs.len() && (#[trigger] cs[p]).kind == ConceptKind::Package && cs[p].id@ == s;
        let h = choose|h: int| in_group(groups, h, cs[p].id@);
        assert(in_group(groups, h, s) && in_group(groups, g, t));
        assert(together(s, t));
        assert(in_group(groups, g, cs[p].id@));
    }
}

/// The module pairs, among those listed, that run between the two packages,
/// whichever way.
pub open spec fn pairs_between(cs: Seq<Concept>, modules: Seq<(Seq<char>, Seq<char>)>, a: Seq<char>, b: Seq<char>) -> nat
    decreases modules.len(),
{
    if modules.len() == 0 {
        0
    } else {
        let (from, to) = modules[modules.len() - 1];
        pairs_between(cs, modules.drop_last(), a, b) + if runs_from_to(cs, from, to, a, b) || runs_from_to(cs, from, to, b, a) {
            1nat
        } else {
            0nat
        }
    }
}

proof fn lemma_pairs_between(cs: Seq<Concept>, modules: Seq<(Seq<char>, Seq<char>)>, a: Seq<char>, b: Seq<char>)
    requires
        lex_lt(a, b),
    ensures
        occurrences(unordered_all(package_pairs(cs, modules)), (a, b)) == pairs_between(cs, modules, a, b),
    decreases modules.len(),
{
    let all = package_pairs(cs, modules);
    if modules.len() == 0 {
        assert(unordered_all(all).len() == 0);
    } else {
        lemma_pairs_between(cs, modules.drop_last(), a, b);
        let rest = package_pairs(cs, modules.drop_last());
        let (from, to) = modules.last();
        lemma_package_pair(cs, from, to, a, b);
        lemma_package_pair(cs, from, to, b, a);
        lemma_lex_irreflexive(a);
        crate::order::lemma_lex_asymmetric(a, b);
        match package_pair(cs, from, to) {
            Some(p) => {
                assert(unordered_all(all) =~= unordered_all(rest).push(unordered(p)));
                assert(unordered_all(all).drop_last() =~= unordered_all(rest));
                lemma_lex_total(p.0, p.1);
                assert(unordered(p) == (a, b) <==> p == (a, b) || p == (b, a));
            },
            None => {
                assert(all == rest);
            },
        }
    }
}

/// The links between packages weigh the pairs of modules between them: one
/// link for each two packages of which one relies on the other, the smaller id
/// first, with the number of pairs of modules of which the one calls the other
/// across the two packages, in either direction.
pub proof fn links_weigh_the_module_pairs(cs: Seq<Concept>, links: Seq<PackageLink>)
    requires
        are_package_links(cs, links),
    ensures
        exists|modules: Seq<(Seq<char>, Seq<char>)>| {
            &&& #[trigger] modules.no_duplicates()
            &&& forall|from: Seq<char>, to: Seq<char>| modules.contains((from, to)) <==> #[trigger] calls_across(cs, from, to)
            &&& forall|e: int| 0 <= e < links.len() ==> lex_lt((#[trigger] links[e]).first@, links[e].second@) && links[e].weight == pairs_between(cs, modules, links[e].first@, links[e].second@)
        },
        forall|a: Seq<char>, b: Seq<char>| lex_lt(a, b) ==> (#[trigger] link_pairs(links).contains((a, b)) <==> relies_on(cs, a, b) || relies_on(cs, b, a)),
{
    let modules = choose|modules: Seq<(Seq<char>, Seq<char>)>| #[trigger] is_module_list(cs, modules) && counts_pairs(links, unordered_all(package_pairs(cs, modules)));
    let all = package_pairs(cs, modules);
    assert(modules.no_duplicates()) by {
        assert forall|i: int, j: int| 0 <= i < modules.len() && 0 <= j < modules.len() && i != j implies modules[i] != modules[j] by {
            lemma_lex_irreflexive(modules[i].0);
            lemma_lex_irreflexive(modules[i].1);
            lemma_lex_irreflexive(modules[j].0);
            lemma_lex_irreflexive(modules[j].1);
            assert(strictly_sorted_pairs(modules));
            if i < j {
                assert(modules[i] != modules[j]);
            } else {
                assert(modules[j] != modules[i]);
            }
        }
    }
    assert forall|from: Seq<char>, to: Seq<char>| modules.contains((from, to)) <==> #[trigger] calls_across(cs, from, to) by {
        modules_depend_by_calls(cs, from, to);
        assert(modules.contains((from, to)) <==> module_calls(cs, from, to));
    }
    assert forall|p: (Seq<char>, Seq<char>)| #[trigger] unordered_all(all).contains(p) <==> lex_lt(p.0, p.1) && (relies_on(cs, p.0, p.1) || relies_on(cs, p.1, p.0)) by {
        lemma_unordered(cs, modules, p);
    }
    assert forall|e: int| 0 <= e < links.len() implies lex_lt((#[trigger] links[e]).first@, links[e].second@) && links[e].weight == pairs_between(
        cs,
        modules,
        links[e].first@,
        links[e].second@,
    ) by {
        let p = (links[e].first@, links[e].second@);
        assert(link_pairs(links)[e] == p);
        assert(link_pairs(links).contains(p));
        assert(unordered_all(all).contains(p));
        lemma_pairs_between(cs, modules, p.0, p.1);
    }
    assert forall|a: Seq<char>, b: Seq<char>| lex_lt(a, b) implies (#[trigger] link_pairs(links).contains((a, b)) <==> relies_on(cs, a, b) || relies_on(cs, b, a)) by {
        assert(unordered_all(all).contains((a, b)) <==> lex_lt(a, b) && (relies_on(cs, a, b) || relies_on(cs, b, a)));
    }
}

proof fn lemma_unordered(cs: Seq<Concept>, modules: Seq<(Seq<char>, Seq<char>)>, p: (Seq<char>, Seq<char>))
    requires
        is_module_list(cs, modules),
    ensures
        unordered_all(package_pairs(cs, modules)).contains(p) <==> lex_lt(p.0, p.1) && (relies_on(cs, p.0, p.1) || relies_on(cs, p.1, p.0)),
{
    let all = package_pairs(cs, modules);
    let flat = unordered_all(all);
    packages_depend_by_their_modules(cs, p.0, p.1);
    packages_depend_by_their_modules(cs, p.1, p.0);
    if lex_lt(p.0, p.1) {
        crate::order::lemma_lex_asymmetric(p.0, p.1);
    }
    assert forall|q: (Seq<char>, Seq<char>)| #[trigger] all.contains(q) <==> depends(cs, q.0, q.1) by {
        crate::arch::lemma_package_pairs(cs, modules, q);
        if all.contains(q) {
            let k = choose|k: int| 0 <= k < modules.len() && package_pair(cs, (#[trigger] modules[k]).0, modules[k].1) == Some(q);
            assert(modules.contains(modules[k]));
            assert(module_calls(cs, modules[k].0, modules[k].1));
        }
        if depends(cs, q.0, q.1) {
            let (from, to) = choose|from: Seq<char>, to: Seq<char>| #[trigger] module_calls(cs, from, to) && package_pair(cs, from, to) == Some((q.0, q.1));
            assert(modules.contains((from, to)));
            let k = choose|k: int| 0 <= k < modules.len() && modules[k] == (from, to);
            assert(package_pair(cs, modules[k].0, modules[k].1) == Some(q));
        }
    }
    if flat.contains(p) {
        let k = choose|k: int| 0 <= k < flat.len() && flat[k] == p;
        let q = all[k];
        assert(all.contains(q));
        assert(unordered(q) == p);
        assert(q.0 != q.1) by {
            let (from, to) = choose|from: Seq<char>, to: Seq<char>| #[trigger] module_calls(cs, from, to) && package_pair(cs, from, to) == Some((q.0, q.1));
        }
        lemma_lex_total(q.0, q.1);
    }
    if lex_lt(p.0, p.1) && depends(cs, p.0, p.1) {
        assert(all.contains(p));
        let k = choose|k: int| 0 <= k < all.len() && all[k] == p;
        assert(flat[k] == p);
    }
    if lex_lt(p.0, p.1) && depends(cs, p.1, p.0) {
        let q = (p.1, p.0);
        assert(all.contains(q));
        let k = choose|k: int| 0 <= k < all.len() && all[k] == q;
        assert(flat[k] == p);
    }
}

/// The members of a module are the other concepts of its file, each once and
/// in the order of the bundle; anything else has none.
pub proof fn members_share_the_file(cs: Seq<Concept>, module_id: Seq<char>, n: nat) -> (at: Seq<int>)
    requires
        n <= cs.len(),
    ensures
        members_at(cs, module_id, n) == at,
        forall|k: int, l: int| 0 <= k < l < at.len() ==> #[trigger] at[k] < #[trigger] at[l],
        forall|i: int| #[trigger] at.contains(i) <==> 0 <= i < n && exists|m: int| #[trigger] stands_for(cs, m, module_id) && cs[m].kind is Module && cs[i].location.file@ == cs[m].location.file@
            && cs[i].id@ != module_id,
    decreases n,
{
    lemma_stands(cs, module_id);
    let at = members_at(cs, module_id, n);
    if n > 0 {
        let before = members_share_the_file(cs, module_id, (n - 1) as nat);
        assert forall|i: int| #[trigger] at.contains(i) <==> 0 <= i < n && exists|m: int| #[trigger] stands_for(cs, m, module_id) && cs[m].kind is Module && cs[i].location.file@
            == cs[m].location.file@ && cs[i].id@ != module_id by {
            if before.contains(i) {
                let k = choose|k: int| 0 <= k < before.len() && before[k] == i;
                assert(at[k] == i);
            }
            if at.contains(i) {
                let k = choose|k: int| 0 <= k < at.len() && at[k] == i;
                if k < before.len() {
                    assert(before[k] == i);
                    assert(before.contains(i));
                }
            }
            if i == n - 1 {
                if is_member(cs, module_id, i) {
                    assert(at[before.len() as int] == i);
                    let m = find(cs, module_id)->0;
                    assert(stands_for(cs, m, module_id));
                } else {
                    assert(!before.contains(i));
                }
            }
        }
        assert forall|k: int, l: int| 0 <= k < l < at.len() implies #[trigger] at[k] < #[trigger] at[l] by {
            if l == before.len() {
                assert(before.contains(at[k])) by {
                    assert(before[k] == at[k]);
                }
            } else {
                assert(before[k] < before[l]);
            }
        }
    }
    at
}

}
