//! The modularity of a partition, and how greedy merging climbs it.
//!
//! The modularity of a partition is the sum, over its parts, of the share of
//! the weight that lies inside of the part, less the square of the share of
//! the link ends in it. Multiplied by the square of twice the weight of all
//! links it is an integer, and so it stands here.

use vstd::prelude::*;
use crate::communities::{is_community_list, numbers, same_label, PackageLink};
use crate::grouping::{in_group, is_grouping};
use crate::modularity::{alone, between, degree, gain, is_best, is_settled, joins, links_ok, merged, settles, total, Link};
use crate::order::strictly_sorted;
use crate::text::{lemma_lex_irreflexive, lex_lt};

verus! {

/// The weight of the links as a whole.
pub open spec fn weight_of_all(links: Seq<Link>) -> int
    decreases links.len(),
{
    if links.len() == 0 {
        0
    } else {
        links[links.len() - 1].2 + weight_of_all(links.drop_last())
    }
}

/// The weight of the links that stay within the part labelled `c`.
pub open spec fn weight_within(links: Seq<Link>, label: Seq<usize>, c: int) -> int
    decreases links.len(),
{
    if links.len() == 0 {
        0
    } else {
        let (x, y, w) = links[links.len() - 1];
        weight_within(links.drop_last(), label, c) + if label[x as int] == c && label[y as int] == c {
            w as int
        } else {
            0
        }
    }
}

/// The weight of the link ends in the part labelled `c`: a link within it has
/// both of its ends there.
pub open spec fn weight_of_ends(links: Seq<Link>, label: Seq<usize>, c: int) -> int
    decreases links.len(),
{
    if links.len() == 0 {
        0
    } else {
        let (x, y, w) = links[links.len() - 1];
        weight_of_ends(links.drop_last(), label, c) + (if label[x as int] == c {
            w as int
        } else {
            0
        }) + (if label[y as int] == c {
            w as int
        } else {
            0
        })
    }
}

/// What the part labelled `c` adds to the modularity.
pub open spec fn share(links: Seq<Link>, label: Seq<usize>, c: int) -> int {
    4 * (weight_of_all(links) * weight_within(links, label, c)) - weight_of_ends(links, label, c) * weight_of_ends(links, label, c)
}

/// What the parts with the first `n` labels add to the modularity.
pub open spec fn shares(links: Seq<Link>, label: Seq<usize>, n: nat) -> int
    decreases n,
{
    if n == 0 {
        0
    } else {
        shares(links, label, (n - 1) as nat) + share(links, label, n - 1)
    }
}

/// The modularity of the partition that the labels make.
pub open spec fn modularity(links: Seq<Link>, label: Seq<usize>) -> int {
    shares(links, label, label.len())
}

/// The labels once the part labelled `b` is one with that labelled `a`.
pub open spec fn united(label: Seq<usize>, a: usize, b: usize) -> Seq<usize> {
    Seq::new(label.len(), |x: int| if label[x] == b { a } else { label[x] })
}

/// Every node a part of its own.
pub open spec fn apart(n: nat) -> Seq<usize> {
    Seq::new(n, |x: int| x as usize)
}

proof fn lemma_all(links: Seq<Link>)
    ensures
        weight_of_all(links) == total(links),
    decreases links.len(),
{
    if links.len() > 0 {
        lemma_all(links.drop_last());
    }
}

proof fn lemma_ends(links: Seq<Link>, label: Seq<usize>, c: int)
    ensures
        weight_of_ends(links, label, c) == degree(links, label, c),
    decreases links.len(),
{
    if links.len() > 0 {
        lemma_ends(links.drop_last(), label, c);
    }
}

proof fn lemma_united_weights(links: Seq<Link>, label: Seq<usize>, a: usize, b: usize, c: int)
    requires
        a != b,
        links_ok(links, label.len()),
    ensures
        c != a && c != b ==> weight_within(links, united(label, a, b), c) == weight_within(links, label, c) && weight_of_ends(links, united(label, a, b), c) == weight_of_ends(
            links,
            label,
            c,
        ),
        weight_within(links, united(label, a, b), b as int) == 0,
        weight_of_ends(links, united(label, a, b), b as int) == 0,
        weight_within(links, united(label, a, b), a as int) == weight_within(links, label, a as int) + weight_within(links, label, b as int) + between(
            links,
            label,
            a as int,
            b as int,
        ),
        weight_of_ends(links, united(label, a, b), a as int) == weight_of_ends(links, label, a as int) + weight_of_ends(links, label, b as int),
    decreases links.len(),
{
    if links.len() > 0 {
        let rest = links.drop_last();
        assert forall|e: int| 0 <= e < rest.len() implies (#[trigger] rest[e]).0 < label.len() && rest[e].1 < label.len() by {
            assert(links[e].0 < label.len());
        }
        lemma_united_weights(rest, label, a, b, c);
        let (x, y, w) = links[links.len() - 1];
        assert(x < label.len() && y < label.len());
        let (p, q) = (label[x as int], label[y as int]);
        let (u, v) = (united(label, a, b)[x as int], united(label, a, b)[y as int]);
        assert(u == if p == b { a } else { p });
        assert(v == if q == b { a } else { q });
        assert(joins(links.last(), label, a as int, b as int) <==> (p == a && q == b) || (p == b && q == a));
    }
}

proof fn lemma_shares(links: Seq<Link>, label: Seq<usize>, a: usize, b: usize, n: nat)
    requires
        a < b,
        links_ok(links, label.len()),
    ensures
        shares(links, united(label, a, b), n) == shares(links, label, n) + (if a < n {
            share(links, united(label, a, b), a as int) - share(links, label, a as int)
        } else {
            0
        }) - (if b < n {
            share(links, label, b as int)
        } else {
            0
        }),
    decreases n,
{
    if n > 0 {
        lemma_shares(links, label, a, b, (n - 1) as nat);
        lemma_united_weights(links, label, a, b, n - 1);
        if n - 1 == b {
            assert(weight_of_all(links) * 0 == 0) by (nonlinear_arith);
            assert(share(links, united(label, a, b), n - 1) == 0);
        }
    }
}

/// Uniting two parts changes the modularity by twice the gain.
proof fn lemma_gain(links: Seq<Link>, label: Seq<usize>, a: usize, b: usize)
    requires
        a < b < label.len(),
        links_ok(links, label.len()),
    ensures
        modularity(links, united(label, a, b)) == modularity(links, label) + 2 * gain(links, label, a as int, b as int),
{
    lemma_shares(links, label, a, b, label.len());
    lemma_united_weights(links, label, a, b, a as int);
    lemma_all(links);
    lemma_ends(links, label, a as int);
    lemma_ends(links, label, b as int);
    let (m, p, q, w, x, y) = (
        weight_of_all(links),
        weight_within(links, label, a as int),
        weight_within(links, label, b as int),
        between(links, label, a as int, b as int) as int,
        weight_of_ends(links, label, a as int),
        weight_of_ends(links, label, b as int),
    );
    assert(4 * (m * (p + q + w)) - (x + y) * (x + y) == (4 * (m * p) - x * x) + (4 * (m * q) - y * y) + 2 * (2 * (m * w) - x * y)) by (nonlinear_arith);
}

/// What merging two communities gains is above 0 exactly where the modularity
/// rises, and one merge gains more than another exactly where the modularity
/// rises higher.
pub proof fn gains_are_rises_of_modularity(links: Seq<Link>, label: Seq<usize>, a: usize, b: usize, c: usize, d: usize)
    requires
        links_ok(links, label.len()),
        a < b < label.len(),
        c < d < label.len(),
    ensures
        gain(links, label, a as int, b as int) > 0 <==> modularity(links, united(label, a, b)) > modularity(links, label),
        gain(links, label, a as int, b as int) > gain(links, label, c as int, d as int) <==> modularity(links, united(label, a, b)) > modularity(
            links,
            united(label, c, d),
        ),
{
    lemma_gain(links, label, a, b);
    lemma_gain(links, label, c, d);
}

/// Uniting these two raises the modularity, raises it most, and of several
/// such pairs this is the first.
pub open spec fn is_steepest(links: Seq<Link>, label: Seq<usize>, a: usize, b: usize) -> bool {
    &&& a < b < label.len()
    &&& modularity(links, united(label, a, b)) > modularity(links, label)
    &&& forall|c: usize, d: usize| c < d < label.len() ==> {
        ||| modularity(links, #[trigger] united(label, c, d)) < modularity(links, united(label, a, b))
        ||| modularity(links, united(label, c, d)) == modularity(links, united(label, a, b)) && (a < c || (a == c && b <= d))
    }
}

/// No union of two parts raises the modularity.
pub open spec fn is_peak(links: Seq<Link>, label: Seq<usize>) -> bool {
    forall|a: usize, b: usize| a < b < label.len() ==> modularity(links, #[trigger] united(label, a, b)) <= modularity(links, label)
}

/// Always uniting what raises the modularity most leads in `steps` unions from
/// `label` to `out`, where none raises it any more.
pub open spec fn climbs(links: Seq<Link>, label: Seq<usize>, out: Seq<usize>, steps: nat) -> bool
    decreases steps,
{
    if steps == 0 {
        out == label && is_peak(links, label)
    } else {
        exists|a: usize, b: usize| #[trigger] is_steepest(links, label, a, b) && climbs(links, united(label, a, b), out, (steps - 1) as nat)
    }
}

proof fn lemma_steepest(links: Seq<Link>, label: Seq<usize>, a: usize, b: usize)
    requires
        links_ok(links, label.len()),
        is_best(links, label, a as int, b as int),
    ensures
        is_steepest(links, label, a, b),
{
    lemma_gain(links, label, a, b);
    assert forall|c: usize, d: usize| c < d < label.len() implies {
        ||| modularity(links, #[trigger] united(label, c, d)) < modularity(links, united(label, a, b))
        ||| modularity(links, united(label, c, d)) == modularity(links, united(label, a, b)) && (a < c || (a == c && b <= d))
    } by {
        lemma_gain(links, label, c, d);
        let (x, y) = (gain(links, label, c as int, d as int), gain(links, label, a as int, b as int));
        assert(x < y || x == y);
    }
}

/// `b` is the best partner of `a` below `n`: the one with the greatest gain,
/// of several the first.
spec fn leads_row(links: Seq<Link>, label: Seq<usize>, a: int, b: int, n: int) -> bool {
    &&& a < b < n
    &&& forall|d: int| a < d < n ==> #[trigger] gain(links, label, a, d) < gain(links, label, a, b) || (gain(links, label, a, d) == gain(links, label, a, b) && b <= d)
}

proof fn lemma_row(links: Seq<Link>, label: Seq<usize>, a: int, n: int) -> (b: int)
    requires
        a + 1 < n,
    ensures
        leads_row(links, label, a, b, n),
    decreases n - a,
{
    if a + 2 == n {
        a + 1
    } else {
        let b = lemma_row(links, label, a, n - 1);
        if gain(links, label, a, n - 1) > gain(links, label, a, b) {
            n - 1
        } else {
            b
        }
    }
}

/// The pair with the greatest gain among those whose first is below `r`.
proof fn lemma_best_of(links: Seq<Link>, label: Seq<usize>, r: int) -> (p: (int, int))
    requires
        1 <= r < label.len(),
    ensures
        0 <= p.0 < p.1 < label.len(),
        p.0 < r,
        forall|c: int, d: int| 0 <= c < d < label.len() && c < r ==> #[trigger] gain(links, label, c, d) < gain(links, label, p.0, p.1) || (gain(links, label, c, d) == gain(
            links,
            label,
            p.0,
            p.1,
        ) && (p.0 < c || (p.0 == c && p.1 <= d))),
    decreases r,
{
    let n = label.len() as int;
    let b = lemma_row(links, label, r - 1, n);
    if r == 1 {
        (0int, b)
    } else {
        let p = lemma_best_of(links, label, r - 1);
        if gain(links, label, r - 1, b) > gain(links, label, p.0, p.1) {
            (r - 1, b)
        } else {
            p
        }
    }
}

proof fn lemma_peak(links: Seq<Link>, label: Seq<usize>)
    requires
        links_ok(links, label.len()),
        label.len() <= usize::MAX,
        forall|a: int, b: int| !(#[trigger] is_best(links, label, a, b)),
    ensures
        is_peak(links, label),
{
    assert forall|a: usize, b: usize| a < b < label.len() implies modularity(links, #[trigger] united(label, a, b)) <= modularity(links, label) by {
        lemma_gain(links, label, a, b);
        if gain(links, label, a as int, b as int) > 0 {
            let p = lemma_best_of(links, label, label.len() - 1);
            assert(is_best(links, label, p.0, p.1));
        }
    }
}

proof fn lemma_climbs(links: Seq<Link>, label: Seq<usize>, out: Seq<usize>, left: nat) -> (steps: nat)
    requires
        links_ok(links, label.len()),
        label.len() <= usize::MAX,
        settles(links, label, out, left),
    ensures
        climbs(links, label, out, steps),
    decreases left,
{
    if forall|a: int, b: int| !(#[trigger] is_best(links, label, a, b)) {
        lemma_peak(links, label);
        0
    } else {
        let (a, b) = choose|a: usize, b: usize| #[trigger] is_best(links, label, a as int, b as int) && settles(links, merged(label, a, b), out, (left - 1) as nat);
        lemma_steepest(links, label, a, b);
        assert(merged(label, a, b) =~= united(label, a, b));
        let steps = lemma_climbs(links, united(label, a, b), out, (left - 1) as nat);
        assert(is_steepest(links, label, a, b) && climbs(links, united(label, a, b), out, steps));
        steps + 1
    }
}

proof fn lemma_climb_rises(links: Seq<Link>, label: Seq<usize>, out: Seq<usize>, steps: nat)
    requires
        climbs(links, label, out, steps),
    ensures
        out.len() == label.len(),
        is_peak(links, out),
        modularity(links, out) >= modularity(links, label) + steps,
    decreases steps,
{
    if steps > 0 {
        let (a, b) = choose|a: usize, b: usize| #[trigger] is_steepest(links, label, a, b) && climbs(links, united(label, a, b), out, (steps - 1) as nat);
        lemma_climb_rises(links, united(label, a, b), out, (steps - 1) as nat);
    }
}

/// Greedy merging starts from single nodes, unites at each step the two parts
/// whose union raises the modularity most, and ends where no union raises it:
/// the modularity of the result is as high as that of the start, and higher
/// where anything was united.
pub proof fn communities_climb_the_modularity(links: Seq<Link>, n: nat, label: Seq<usize>)
    requires
        links_ok(links, n),
        n <= usize::MAX,
        is_settled(links, n, label),
    ensures
        exists|steps: nat| #[trigger] climbs(links, apart(n), label, steps),
        label.len() == n,
        is_peak(links, label),
        modularity(links, label) >= modularity(links, apart(n)),
        label != apart(n) ==> modularity(links, label) > modularity(links, apart(n)),
{
    let left = choose|left: nat| settles(links, alone(n), label, left);
    assert(alone(n) =~= apart(n));
    let steps = lemma_climbs(links, apart(n), label, left);
    lemma_climb_rises(links, apart(n), label, steps);
    assert(climbs(links, apart(n), label, steps));
}

/// The weight of the links between named packages as a whole.
pub open spec fn named_weight(links: Seq<PackageLink>) -> int
    decreases links.len(),
{
    if links.len() == 0 {
        0
    } else {
        links[links.len() - 1].weight + named_weight(links.drop_last())
    }
}

/// The weight of the links with both ends in the set.
pub open spec fn named_within(links: Seq<PackageLink>, set: Set<Seq<char>>) -> int
    decreases links.len(),
{
    if links.len() == 0 {
        0
    } else {
        let l = links[links.len() - 1];
        named_within(links.drop_last(), set) + if set.contains(l.first@) && set.contains(l.second@) {
            l.weight as int
        } else {
            0
        }
    }
}

/// The weight of the link ends in the set.
pub open spec fn named_ends(links: Seq<PackageLink>, set: Set<Seq<char>>) -> int
    decreases links.len(),
{
    if links.len() == 0 {
        0
    } else {
        let l = links[links.len() - 1];
        named_ends(links.drop_last(), set) + (if set.contains(l.first@) {
            l.weight as int
        } else {
            0
        }) + (if set.contains(l.second@) {
            l.weight as int
        } else {
            0
        })
    }
}

/// What the set adds to the modularity as a part.
pub open spec fn named_share(links: Seq<PackageLink>, set: Set<Seq<char>>) -> int {
    4 * (named_weight(links) * named_within(links, set)) - named_ends(links, set) * named_ends(links, set)
}

proof fn lemma_named(names: Seq<Seq<char>>, links: Seq<PackageLink>, numbered: Seq<Link>, label: Seq<usize>, set: Set<Seq<char>>, c: int)
    requires
        numbers(names, links, numbered),
        label.len() == names.len(),
        forall|x: int| 0 <= x < names.len() ==> (set.contains(#[trigger] names[x]) <==> label[x] == c),
    ensures
        named_weight(links) == weight_of_all(numbered),
        named_within(links, set) == weight_within(numbered, label, c),
        named_ends(links, set) == weight_of_ends(numbered, label, c),
        named_share(links, set) == share(numbered, label, c),
    decreases links.len(),
{
    if links.len() > 0 {
        let (l, n) = (links.drop_last(), numbered.drop_last());
        assert forall|e: int| 0 <= e < n.len() implies (#[trigger] n[e]).0 < names.len() && n[e].1 < names.len() by {
            assert(numbered[e].0 < names.len());
        }
        assert forall|e: int| 0 <= e < l.len() implies {
            &&& names[(#[trigger] n[e]).0 as int] == l[e].first@
            &&& names[n[e].1 as int] == l[e].second@
            &&& n[e].2 == l[e].weight
        } by {
            assert(numbered[e] == n[e]);
        }
        lemma_named(names, l, n, label, set, c);
        let e = links.len() - 1;
        let (x, y) = (numbered[e].0 as int, numbered[e].1 as int);
        assert(names[x] == links[e].first@ && names[y] == links[e].second@);
    }
}

/// The label that all of a group have, and nothing else has.
proof fn lemma_label_of(
    names: Seq<Seq<char>>,
    label: Seq<usize>,
    groups: Seq<Seq<Seq<char>>>,
    g: int,
    s: Seq<char>,
) -> (c: usize)
    requires
        strictly_sorted(names),
        names.no_duplicates(),
        label.len() == names.len(),
        is_grouping(groups, |t: Seq<char>| names.contains(t), |s: Seq<char>, t: Seq<char>| same_label(names, label, s, t)),
        in_group(groups, g, s),
    ensures
        exists|y: int| 0 <= y < names.len() && names[y] == s && #[trigger] label[y] == c,
        forall|x: int| 0 <= x < names.len() ==> (groups[g].contains(#[trigger] names[x]) <==> label[x] == c),
{
    let member = |t: Seq<char>| names.contains(t);
    let together = |s: Seq<char>, t: Seq<char>| same_label(names, label, s, t);
    assert(member(s));
    let y = choose|y: int| 0 <= y < names.len() && names[y] == s;
    let c = label[y];
    assert forall|x: int| 0 <= x < names.len() implies (groups[g].contains(#[trigger] names[x]) <==> label[x] == c) by {
        let t = names[x];
        assert(names.contains(t));
        assert(member(t));
        let h = choose|h: int| in_group(groups, h, t);
        assert(in_group(groups, h, t));
        assert(g == h <==> together(s, t));
        if label[x] == c {
            assert(names[y] == s && names[x] == t && label[y] == label[x]);
            assert(same_label(names, label, s, t));
        }
        if groups[g].contains(t) {
            assert(in_group(groups, g, t));
            assert(together(s, t));
            let (p, q) = choose|p: int, q: int| 0 <= p < names.len() && 0 <= q < names.len() && #[trigger] names[p] == s && #[trigger] names[q] == t && label[p] == label[q];
            assert(p == y && q == x);
        }
    }
    c
}

proof fn lemma_labels_below(links: Seq<Link>, label: Seq<usize>, out: Seq<usize>, steps: nat)
    requires
        climbs(links, label, out, steps),
        forall|x: int| 0 <= x < label.len() ==> (#[trigger] label[x]) < label.len(),
    ensures
        out.len() == label.len(),
        forall|x: int| 0 <= x < out.len() ==> (#[trigger] out[x]) < out.len(),
    decreases steps,
{
    if steps > 0 {
        let (a, b) = choose|a: usize, b: usize| #[trigger] is_steepest(links, label, a, b) && climbs(links, united(label, a, b), out, (steps - 1) as nat);
        lemma_labels_below(links, united(label, a, b), out, (steps - 1) as nat);
    }
}

proof fn lemma_names_fit(ids: Seq<Seq<char>>, names: Seq<Seq<char>>)
    requires
        strictly_sorted(names),
        forall|t: Seq<char>| #[trigger] names.contains(t) <==> ids.contains(t),
    ensures
        names.no_duplicates(),
        names.len() <= ids.len(),
{
    assert forall|i: int, j: int| 0 <= i < names.len() && 0 <= j < names.len() && i != j implies names[i] != names[j] by {
        lemma_lex_irreflexive(names[i]);
        if i < j {
            assert(lex_lt(names[i], names[j]));
        } else {
            assert(lex_lt(names[j], names[i]));
        }
    }
    names.unique_seq_to_set();
    ids.lemma_cardinality_of_set();
    assert(names.to_set() =~= ids.to_set()) by {
        assert forall|t: Seq<char>| names.to_set().contains(t) <==> ids.to_set().contains(t) by {
            assert(names.contains(t) <==> ids.contains(t));
        }
    }
}

/// No two communities of the result could be one with more modularity: the
/// set of both adds no more than the two add alone.
pub proof fn no_two_communities_gain_by_merging(ids: Seq<Seq<char>>, links: Seq<PackageLink>, groups: Seq<Seq<Seq<char>>>, g: int, h: int)
    requires
        is_community_list(ids, links, groups),
        ids.len() <= usize::MAX,
        0 <= g < groups.len(),
        0 <= h < groups.len(),
        g != h,
    ensures
        named_share(links, groups[g].to_set().union(groups[h].to_set())) <= named_share(links, groups[g].to_set()) + named_share(links, groups[h].to_set()),
{
    let (names, numbered, label) = choose|names: Seq<Seq<char>>, numbered: Seq<Link>, label: Seq<usize>| {
        &&& strictly_sorted(names)
        &&& forall|t: Seq<char>| #[trigger] names.contains(t) <==> ids.contains(t)
        &&& #[trigger] numbers(names, links, numbered)
        &&& label.len() == names.len()
        &&& #[trigger] is_settled(numbered, names.len(), label)
        &&& is_grouping(groups, |t: Seq<char>| names.contains(t), |s: Seq<char>, t: Seq<char>| same_label(names, label, s, t))
    };
    lemma_names_fit(ids, names);
    communities_climb_the_modularity(numbered, names.len(), label);
    let (s, t) = (groups[g][0], groups[h][0]);
    assert(in_group(groups, g, s) && in_group(groups, h, t));
    let a = lemma_label_of(names, label, groups, g, s);
    let b = lemma_label_of(names, label, groups, h, t);
    assert(a != b) by {
        let y = choose|y: int| 0 <= y < names.len() && names[y] == t && #[trigger] label[y] == b;
        if a == b {
            assert(groups[g].contains(names[y]));
            assert(in_group(groups, g, t));
            let together = |s: Seq<char>, t: Seq<char>| same_label(names, label, s, t);
            assert(names[y] == t && label[y] == label[y]);
            assert(together(t, t));
        }
    }
    let (x, y) = if a < b {
        (a, b)
    } else {
        (b, a)
    };
    let steps = choose|steps: nat| #[trigger] climbs(numbered, apart(names.len()), label, steps);
    lemma_labels_below(numbered, apart(names.len()), label, steps);
    let (p, q) = (groups[g].to_set(), groups[h].to_set());
    lemma_named(names, links, numbered, label, p, a as int);
    lemma_named(names, links, numbered, label, q, b as int);
    let one = united(label, x, y);
    assert forall|k: int| 0 <= k < names.len() implies (p.union(q).contains(#[trigger] names[k]) <==> one[k] == x) by {
        assert(groups[g].contains(names[k]) <==> label[k] == a);
        assert(groups[h].contains(names[k]) <==> label[k] == b);
    }
    lemma_named(names, links, numbered, one, p.union(q), x as int);
    lemma_shares(numbered, label, x, y, label.len());
    assert(modularity(numbered, united(label, x, y)) <= modularity(numbered, label));
}

/// The modularity of the partition into the first `n` groups, with nothing
/// else in it.
pub open spec fn named_modularity(links: Seq<PackageLink>, groups: Seq<Seq<Seq<char>>>, n: nat) -> int
    decreases n,
{
    if n == 0 {
        0
    } else {
        named_modularity(links, groups, (n - 1) as nat) + named_share(links, groups[n - 1].to_set())
    }
}

proof fn lemma_nothing_within(links: Seq<Link>, label: Seq<usize>, c: int)
    requires
        links_ok(links, label.len()),
        forall|x: int| 0 <= x < label.len() ==> #[trigger] label[x] != c,
    ensures
        weight_within(links, label, c) == 0,
        weight_of_ends(links, label, c) == 0,
        share(links, label, c) == 0,
    decreases links.len(),
{
    if links.len() > 0 {
        let rest = links.drop_last();
        assert forall|e: int| 0 <= e < rest.len() implies (#[trigger] rest[e]).0 < label.len() && rest[e].1 < label.len() by {
            assert(links[e].0 < label.len());
        }
        lemma_nothing_within(rest, label, c);
        let (x, y, w) = links[links.len() - 1];
        assert(links[links.len() - 1].0 < label.len());
        assert(label[x as int] != c && label[y as int] != c);
    }
    assert(weight_of_all(links) * 0 == 0) by (nonlinear_arith);
}

/// The sum of the shares of different labels.
spec fn shares_of(links: Seq<Link>, label: Seq<usize>, tags: Seq<int>) -> int
    decreases tags.len(),
{
    if tags.len() == 0 {
        0
    } else {
        shares_of(links, label, tags.drop_last()) + share(links, label, tags.last())
    }
}

/// Labels that nothing has add nothing, so that the shares of those that
/// something has add up to all.
proof fn lemma_shares_of(links: Seq<Link>, label: Seq<usize>, tags: Seq<int>, n: nat)
    requires
        links_ok(links, label.len()),
        tags.no_duplicates(),
        forall|k: int| 0 <= k < tags.len() ==> 0 <= #[trigger] tags[k] < n,
        forall|c: int| 0 <= c < n && !#[trigger] tags.contains(c) ==> share(links, label, c) == 0,
    ensures
        shares_of(links, label, tags) == shares(links, label, n),
    decreases n, tags.len(),
{
    if n > 0 {
        let c = n - 1;
        if tags.contains(c) {
            let k = choose|k: int| 0 <= k < tags.len() && tags[k] == c;
            let rest = tags.remove(k);
            lemma_shares_without(links, label, tags, k);
            assert forall|m: int| 0 <= m < rest.len() implies 0 <= #[trigger] rest[m] < n - 1 by {
                let o = if m < k { m } else { m + 1 };
                assert(rest[m] == tags[o]);
                assert(tags[o] != tags[k]);
            }
            assert forall|d: int| 0 <= d < n - 1 && !#[trigger] rest.contains(d) implies share(links, label, d) == 0 by {
                if tags.contains(d) {
                    let o = choose|o: int| 0 <= o < tags.len() && tags[o] == d;
                    let m = if o < k { o } else { o - 1 };
                    assert(rest[m] == d);
                }
            }
            assert(rest.no_duplicates()) by {
                assert forall|x: int, y: int| 0 <= x < rest.len() && 0 <= y < rest.len() && x != y implies rest[x] != rest[y] by {
                    let (p, q) = (if x < k { x } else { x + 1 }, if y < k { y } else { y + 1 });
                    assert(rest[x] == tags[p] && rest[y] == tags[q]);
                }
            }
            lemma_shares_of(links, label, rest, (n - 1) as nat);
        } else {
            assert forall|k: int| 0 <= k < tags.len() implies 0 <= #[trigger] tags[k] < n - 1 by {
                if tags[k] == c {
                    assert(tags.contains(c));
                }
            }
            lemma_shares_of(links, label, tags, (n - 1) as nat);
        }
    } else {
        assert(tags.len() == 0) by {
            if tags.len() > 0 {
                let first = tags[0];
                assert(first < n);
            }
        }
    }
}

proof fn lemma_shares_without(links: Seq<Link>, label: Seq<usize>, tags: Seq<int>, k: int)
    requires
        0 <= k < tags.len(),
    ensures
        shares_of(links, label, tags) == shares_of(links, label, tags.remove(k)) + share(links, label, tags[k]),
    decreases tags.len(),
{
    if k == tags.len() - 1 {
        assert(tags.remove(k) =~= tags.drop_last());
    } else {
        lemma_shares_without(links, label, tags.drop_last(), k);
        assert(tags.remove(k).drop_last() =~= tags.drop_last().remove(k));
        assert(tags.remove(k).last() == tags.last());
    }
}

/// The groups with the labels that they have.
proof fn lemma_group_tags(
    names: Seq<Seq<char>>,
    links: Seq<PackageLink>,
    numbered: Seq<Link>,
    label: Seq<usize>,
    groups: Seq<Seq<Seq<char>>>,
    n: nat,
) -> (tags: Seq<int>)
    requires
        n <= groups.len(),
        strictly_sorted(names),
        names.no_duplicates(),
        label.len() == names.len(),
        numbers(names, links, numbered),
        is_grouping(groups, |t: Seq<char>| names.contains(t), |s: Seq<char>, t: Seq<char>| same_label(names, label, s, t)),
    ensures
        tags.len() == n,
        named_modularity(links, groups, n) == shares_of(numbered, label, tags),
        forall|g: int, x: int| 0 <= g < n && 0 <= x < names.len() ==> (groups[g].contains(#[trigger] names[x]) <==> label[x] == #[trigger] tags[g]),
        forall|g: int| 0 <= g < n ==> exists|x: int| 0 <= x < names.len() && label[x] == #[trigger] tags[g] && groups[g].contains(#[trigger] names[x]),
    decreases n,
{
    if n == 0 {
        Seq::empty()
    } else {
        let before = lemma_group_tags(names, links, numbered, label, groups, (n - 1) as nat);
        let g = n - 1;
        let s = groups[g][0];
        assert(groups[g].len() > 0);
        assert(in_group(groups, g, s));
        let c = lemma_label_of(names, label, groups, g, s);
        let tags = before.push(c as int);
        assert(tags.drop_last() =~= before);
        lemma_named(names, links, numbered, label, groups[g].to_set(), c as int);
        let y = choose|y: int| 0 <= y < names.len() && names[y] == s && #[trigger] label[y] == c;
        assert(label[y] == tags[g] && groups[g].contains(names[y]));
        assert forall|h: int| 0 <= h < n implies exists|x: int| 0 <= x < names.len() && label[x] == #[trigger] tags[h] && groups[h].contains(#[trigger] names[x]) by {
            if h < n - 1 {
                assert(before[h] == tags[h]);
                let x = choose|x: int| 0 <= x < names.len() && label[x] == before[h] && groups[h].contains(#[trigger] names[x]);
                assert(label[x] == tags[h] && groups[h].contains(names[x]));
            }
        }
        assert forall|h: int, x: int| 0 <= h < n && 0 <= x < names.len() implies (groups[h].contains(#[trigger] names[x]) <==> label[x] == #[trigger] tags[h]) by {
            if h < n - 1 {
                assert(before[h] == tags[h]);
            }
        }
        tags
    }
}

/// The modularity of the named communities is that of the labels they come
/// from: so it is as high as that of the packages each alone.
pub proof fn communities_are_no_worse_than_none(ids: Seq<Seq<char>>, links: Seq<PackageLink>, groups: Seq<Seq<Seq<char>>>, apart: Seq<Seq<Seq<char>>>)
    requires
        is_community_list(ids, links, groups),
        ids.len() <= usize::MAX,
        forall|g: int| 0 <= g < apart.len() ==> (#[trigger] apart[g]).len() == 1,
        forall|t: Seq<char>| #[trigger] ids.contains(t) <==> exists|g: int| in_group(apart, g, t),
        forall|g: int, h: int| 0 <= g < h < apart.len() ==> lex_lt((#[trigger] apart[g])[0], (#[trigger] apart[h])[0]),
    ensures
        named_modularity(links, groups, groups.len()) >= named_modularity(links, apart, apart.len()),
{
    let (names, numbered, label) = choose|names: Seq<Seq<char>>, numbered: Seq<Link>, label: Seq<usize>| {
        &&& strictly_sorted(names)
        &&& forall|t: Seq<char>| #[trigger] names.contains(t) <==> ids.contains(t)
        &&& #[trigger] numbers(names, links, numbered)
        &&& label.len() == names.len()
        &&& #[trigger] is_settled(numbered, names.len(), label)
        &&& is_grouping(groups, |t: Seq<char>| names.contains(t), |s: Seq<char>, t: Seq<char>| same_label(names, label, s, t))
    };
    lemma_names_fit(ids, names);
    let n = names.len();
    let single = self::apart(n);
    communities_climb_the_modularity(numbered, n, label);
    let steps = choose|steps: nat| #[trigger] climbs(numbered, single, label, steps);
    lemma_labels_below(numbered, single, label, steps);
    lemma_whole(names, links, numbered, label, groups);
    assert(is_grouping(apart, |t: Seq<char>| names.contains(t), |s: Seq<char>, t: Seq<char>| same_label(names, single, s, t))) by {
        lemma_apart_grouping(ids, names, apart);
    }
    lemma_whole(names, links, numbered, single, apart);
}

proof fn lemma_apart_grouping(ids: Seq<Seq<char>>, names: Seq<Seq<char>>, groups: Seq<Seq<Seq<char>>>)
    requires
        names.no_duplicates(),
        names.len() <= usize::MAX,
        forall|t: Seq<char>| #[trigger] names.contains(t) <==> ids.contains(t),
        forall|g: int| 0 <= g < groups.len() ==> (#[trigger] groups[g]).len() == 1,
        forall|t: Seq<char>| #[trigger] ids.contains(t) <==> exists|g: int| in_group(groups, g, t),
        forall|g: int, h: int| 0 <= g < h < groups.len() ==> lex_lt((#[trigger] groups[g])[0], (#[trigger] groups[h])[0]),
    ensures
        is_grouping(groups, |t: Seq<char>| names.contains(t), |s: Seq<char>, t: Seq<char>| same_label(names, apart(names.len()), s, t)),
{
    let label = apart(names.len());
    let member = |t: Seq<char>| names.contains(t);
    let together = |s: Seq<char>, t: Seq<char>| same_label(names, label, s, t);
    assert forall|g: int, t: Seq<char>| #[trigger] in_group(groups, g, t) implies groups[g][0] == t && member(t) by {
        let k = choose|k: int| 0 <= k < groups[g].len() && groups[g][k] == t;
        assert(ids.contains(t));
        assert(names.contains(t));
    }
    assert forall|t: Seq<char>| #[trigger] member(t) implies exists|g: int| in_group(groups, g, t) by {
        assert(ids.contains(t));
    }
    assert forall|g: int, h: int, s: Seq<char>, t: Seq<char>| #[trigger] in_group(groups, g, s) && #[trigger] in_group(groups, h, t) implies (g == h <==> together(s, t)) by {
        assert(names.contains(s) && names.contains(t));
        let x = choose|x: int| 0 <= x < names.len() && names[x] == s;
        let y = choose|y: int| 0 <= y < names.len() && names[y] == t;
        if g == h {
            assert(names[x] == s && names[y] == t && label[x] == label[y]);
        }
        if together(s, t) {
            let (p, q) = choose|p: int, q: int| 0 <= p < names.len() && 0 <= q < names.len() && #[trigger] names[p] == s && #[trigger] names[q] == t && label[p] == label[q];
            assert(p == q);
            lemma_lex_irreflexive(s);
            if g < h {
                assert(lex_lt(groups[g][0], groups[h][0]));
            }
            if h < g {
                assert(lex_lt(groups[h][0], groups[g][0]));
            }
        }
    }
    assert(crate::order::sorted_groups(groups)) by {
        assert forall|g: int| 0 <= g < groups.len() implies (#[trigger] groups[g]).len() > 0 && strictly_sorted(groups[g]) by {}
    }
}

proof fn lemma_whole(names: Seq<Seq<char>>, links: Seq<PackageLink>, numbered: Seq<Link>, label: Seq<usize>, groups: Seq<Seq<Seq<char>>>)
    requires
        strictly_sorted(names),
        names.no_duplicates(),
        label.len() == names.len(),
        forall|x: int| 0 <= x < label.len() ==> (#[trigger] label[x]) < label.len(),
        numbers(names, links, numbered),
        is_grouping(groups, |t: Seq<char>| names.contains(t), |s: Seq<char>, t: Seq<char>| same_label(names, label, s, t)),
    ensures
        named_modularity(links, groups, groups.len()) == modularity(numbered, label),
{
    let tags = lemma_group_tags(names, links, numbered, label, groups, groups.len());
    let member = |t: Seq<char>| names.contains(t);
    let together = |s: Seq<char>, t: Seq<char>| same_label(names, label, s, t);
    assert forall|g: int| 0 <= g < tags.len() implies 0 <= #[trigger] tags[g] < label.len() by {
        let x = choose|x: int| 0 <= x < names.len() && label[x] == tags[g] && groups[g].contains(#[trigger] names[x]);
        assert(label[x] < label.len());
    }
    assert(tags.no_duplicates()) by {
        assert forall|g: int, h: int| 0 <= g < tags.len() && 0 <= h < tags.len() && g != h implies tags[g] != tags[h] by {
            if tags[g] == tags[h] {
                let x = choose|x: int| 0 <= x < names.len() && label[x] == tags[g] && groups[g].contains(#[trigger] names[x]);
                assert(groups[h].contains(names[x]) <==> label[x] == tags[h]);
                let t = names[x];
                assert(in_group(groups, g, t) && in_group(groups, h, t));
                assert(names[x] == t && label[x] == label[x]);
                assert(together(t, t));
            }
        }
    }
    assert forall|c: int| 0 <= c < label.len() && !#[trigger] tags.contains(c) implies share(numbered, label, c) == 0 by {
        assert forall|x: int| 0 <= x < label.len() implies #[trigger] label[x] != c by {
            if label[x] == c {
                let t = names[x];
                assert(names.contains(t));
                assert(member(t));
                let g = choose|g: int| in_group(groups, g, t);
                assert(groups[g].contains(names[x]) <==> label[x] == tags[g]);
                assert(tags[g] == c);
            }
        }
        lemma_nothing_within(numbered, label, c);
    }
    lemma_shares_of(numbered, label, tags, label.len());
}

}
