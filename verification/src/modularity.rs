//! Communities in a weighted graph, found by merging greedily for modularity.

use vstd::prelude::*;

verus! {

/// A link between two numbered nodes, with its weight.
pub type Link = (usize, usize, usize);

/// The weight of all links.
pub open spec fn total(links: Seq<Link>) -> nat
    decreases links.len(),
{
    if links.len() == 0 {
        0
    } else {
        total(links.drop_last()) + links.last().2 as nat
    }
}

/// The link runs between communities `a` and `b`.
pub open spec fn joins(link: Link, label: Seq<usize>, a: int, b: int) -> bool {
    let x = label[link.0 as int] as int;
    let y = label[link.1 as int] as int;
    (x == a && y == b) || (x == b && y == a)
}

/// The weight of the links between communities `a` and `b`.
pub open spec fn between(links: Seq<Link>, label: Seq<usize>, a: int, b: int) -> nat
    decreases links.len(),
{
    if links.len() == 0 {
        0
    } else {
        between(links.drop_last(), label, a, b) + (if joins(links.last(), label, a, b) {
            links.last().2 as nat
        } else {
            0nat
        })
    }
}

/// How much of the link's weight touches community `a`, once for each end.
pub open spec fn touch(link: Link, label: Seq<usize>, a: int) -> nat {
    (if label[link.0 as int] == a {
        link.2 as nat
    } else {
        0nat
    }) + (if label[link.1 as int] == a {
        link.2 as nat
    } else {
        0nat
    })
}

/// The weight of the link ends in community `a`.
pub open spec fn degree(links: Seq<Link>, label: Seq<usize>, a: int) -> nat
    decreases links.len(),
{
    if links.len() == 0 {
        0
    } else {
        degree(links.drop_last(), label, a) + touch(links.last(), label, a)
    }
}

/// What modularity gains when communities `a` and `b` merge, times the
/// positive constant that makes it an integer.
pub open spec fn gain(links: Seq<Link>, label: Seq<usize>, a: int, b: int) -> int {
    2 * (total(links) * between(links, label, a, b)) - degree(links, label, a) * degree(links, label, b)
}

/// Merging `a` and `b` gains, gains most, and of several such pairs this is
/// the first.
pub open spec fn is_best(links: Seq<Link>, label: Seq<usize>, a: int, b: int) -> bool {
    &&& 0 <= a < b < label.len()
    &&& gain(links, label, a, b) > 0
    &&& forall|c: int, d: int| 0 <= c < d < label.len() ==> #[trigger] gain(links, label, c, d) < gain(links, label, a, b)
        || (gain(links, label, c, d) == gain(links, label, a, b) && (a < c || (a == c && b <= d)))
}

/// The labels after community `b` joined community `a`.
pub open spec fn merged(label: Seq<usize>, a: usize, b: usize) -> Seq<usize> {
    label.map_values(|c: usize| if c == b { a } else { c })
}

/// Merging the best pair, as long as there is one, leads from `label` to `out`
/// in at most `left` merges.
pub open spec fn settles(links: Seq<Link>, label: Seq<usize>, out: Seq<usize>, left: nat) -> bool
    decreases left,
{
    if forall|a: int, b: int| !(#[trigger] is_best(links, label, a, b)) {
        out == label
    } else {
        left > 0 && exists|a: usize, b: usize| #[trigger] is_best(links, label, a as int, b as int) && settles(links, merged(label, a, b), out, (left - 1) as nat)
    }
}

/// Each node a community of its own.
pub open spec fn alone(n: nat) -> Seq<usize> {
    Seq::new(n, |i: int| i as usize)
}

/// The labels that greedy merging arrives at.
pub open spec fn is_settled(links: Seq<Link>, n: nat, label: Seq<usize>) -> bool {
    exists|left: nat| settles(links, alone(n), label, left)
}

proof fn lemma_bounds(links: Seq<Link>, label: Seq<usize>, a: int, b: int)
    requires
        a != b,
    ensures
        between(links, label, a, b) <= total(links),
        degree(links, label, a) + degree(links, label, b) <= 2 * total(links),
    decreases links.len(),
{
    if links.len() > 0 {
        lemma_bounds(links.drop_last(), label, a, b);
    }
}

proof fn lemma_total_prefix(links: Seq<Link>, k: int)
    requires
        0 <= k <= links.len(),
    ensures
        total(links.take(k)) <= total(links),
    decreases links.len() - k,
{
    if k < links.len() {
        lemma_total_prefix(links, k + 1);
        assert(links.take(k + 1).drop_last() =~= links.take(k));
    } else {
        assert(links.take(k) =~= links);
    }
}

/// Where communities are linked at all, some link joins them.
proof fn lemma_between_link(links: Seq<Link>, label: Seq<usize>, a: int, b: int) -> (e: int)
    requires
        between(links, label, a, b) > 0,
    ensures
        0 <= e < links.len(),
        joins(links[e], label, a, b),
    decreases links.len(),
{
    if joins(links.last(), label, a, b) {
        links.len() - 1
    } else {
        lemma_between_link(links.drop_last(), label, a, b)
    }
}

/// The link ends are nodes.
pub open spec fn links_ok(links: Seq<Link>, n: nat) -> bool {
    forall|e: int| 0 <= e < links.len() ==> (#[trigger] links[e]).0 < n && links[e].1 < n
}

fn sum_total(links: &Vec<Link>) -> (r: usize)
    requires
        total(links@) <= usize::MAX,
    ensures
        r == total(links@),
{
    let mut sum: usize = 0;
    for e in 0..links.len()
        invariant
            total(links@) <= usize::MAX,
            sum == total(links@.take(e as int)),
    {
        proof {
            assert(links@.take(e + 1).drop_last() =~= links@.take(e as int));
            lemma_total_prefix(links@, e + 1);
        }
        sum = sum + links[e].2;
    }
    assert(links@.take(links@.len() as int) =~= links@);
    sum
}

fn sum_between(links: &Vec<Link>, label: &Vec<usize>, a: usize, b: usize) -> (r: usize)
    requires
        a != b,
        links_ok(links@, label@.len()),
        total(links@) <= usize::MAX,
    ensures
        r == between(links@, label@, a as int, b as int),
{
    let mut sum: usize = 0;
    for e in 0..links.len()
        invariant
            a != b,
            links_ok(links@, label@.len()),
            total(links@) <= usize::MAX,
            sum == between(links@.take(e as int), label@, a as int, b as int),
    {
        let link = links[e];
        proof {
            assert(links@.take(e + 1).drop_last() =~= links@.take(e as int));
            assert(links@.take(e + 1).last() == link);
            lemma_total_prefix(links@, e + 1);
            lemma_bounds(links@.take(e + 1), label@, a as int, b as int);
        }
        let x: usize = label[link.0];
        let y: usize = label[link.1];
        if (x == a && y == b) || (x == b && y == a) {
            sum = sum + link.2;
        }
    }
    assert(links@.take(links@.len() as int) =~= links@);
    sum
}

fn sum_degree(links: &Vec<Link>, label: &Vec<usize>, a: usize) -> (r: u128)
    requires
        links_ok(links@, label@.len()),
        total(links@) <= usize::MAX,
    ensures
        r == degree(links@, label@, a as int),
{
    let mut sum: u128 = 0;
    for e in 0..links.len()
        invariant
            links_ok(links@, label@.len()),
            total(links@) <= usize::MAX,
            sum == degree(links@.take(e as int), label@, a as int),
    {
        let link = links[e];
        proof {
            assert(links@.take(e + 1).drop_last() =~= links@.take(e as int));
            assert(links@.take(e + 1).last() == link);
            lemma_total_prefix(links@, e + 1);
            lemma_bounds(links@.take(e + 1), label@, a as int, a + 1);
        }
        if label[link.0] == a {
            sum = sum + link.2 as u128;
        }
        if label[link.1] == a {
            sum = sum + link.2 as u128;
        }
    }
    assert(links@.take(links@.len() as int) =~= links@);
    sum
}

/// A gain above 0, as twice the first number less the second, which is 0 or 1.
spec fn is_gain(links: Seq<Link>, label: Seq<usize>, a: int, b: int, half: u128, odd: u128) -> bool {
    gain(links, label, a, b) == 2 * half - odd && odd <= 1 && half >= 1
}

/// What merging gains, if it gains.
fn positive_gain(links: &Vec<Link>, label: &Vec<usize>, m: usize, a: usize, b: usize) -> (r: Option<(u128, u128)>)
    requires
        a != b,
        links_ok(links@, label@.len()),
        m == total(links@),
    ensures
        match r {
            Some((half, odd)) => is_gain(links@, label@, a as int, b as int, half, odd) && gain(links@, label@, a as int, b as int) > 0,
            None => gain(links@, label@, a as int, b as int) <= 0,
        },
{
    let w: usize = sum_between(links, label, a, b);
    let da: u128 = sum_degree(links, label, a);
    let db: u128 = sum_degree(links, label, b);
    proof {
        lemma_bounds(links@, label@, a as int, b as int);
        assert(m as int * w as int <= 0xffff_ffff_ffff_ffff * 0xffff_ffff_ffff_ffff) by (nonlinear_arith)
            requires
                0 <= m <= 0xffff_ffff_ffff_ffff,
                0 <= w <= 0xffff_ffff_ffff_ffff,
        ;
        let (x, y, t) = (da as int, db as int, m as int);
        assert(x * y <= t * t) by (nonlinear_arith)
            requires
                0 <= x,
                0 <= y,
                x + y <= 2 * t,
        {
            assert(4 * (x * y) == (x + y) * (x + y) - (x - y) * (x - y)) by (nonlinear_arith);
            assert((x - y) * (x - y) >= 0) by (nonlinear_arith);
            assert((x + y) * (x + y) <= (2 * t) * (2 * t)) by (nonlinear_arith)
                requires
                    0 <= x + y <= 2 * t,
            ;
            assert((2 * t) * (2 * t) == 4 * (t * t)) by (nonlinear_arith);
        }
        assert(t * t <= 0xffff_ffff_ffff_ffff * 0xffff_ffff_ffff_ffff) by (nonlinear_arith)
            requires
                0 <= t <= 0xffff_ffff_ffff_ffff,
        ;
        assert(x * y >= 0) by (nonlinear_arith)
            requires
                0 <= x,
                0 <= y,
        ;
        assert(m as int * w as int >= 0) by (nonlinear_arith)
            requires
                0 <= m,
                0 <= w,
        ;
    }
    let up: u128 = m as u128 * w as u128;
    let down: u128 = da * db;
    let half: u128 = down / 2;
    let odd: u128 = down % 2;
    if up > half {
        Some((up - half, odd))
    } else {
        None
    }
}

/// The best pair to merge, if merging any pair gains.
fn best_pair(links: &Vec<Link>, label: &Vec<usize>, m: usize) -> (r: Option<(usize, usize)>)
    requires
        links_ok(links@, label@.len()),
        m == total(links@),
        forall|x: int| 0 <= x < label@.len() ==> (#[trigger] label@[x]) < label@.len(),
    ensures
        match r {
            Some((a, b)) => is_best(links@, label@, a as int, b as int),
            None => forall|a: int, b: int| 0 <= a < b < label@.len() ==> #[trigger] gain(links@, label@, a, b) <= 0,
        },
{
    let mut best: Option<(usize, usize)> = None;
    let mut best_half: u128 = 0;
    let mut best_odd: u128 = 0;
    let ghost ls = links@;
    let ghost lb = label@;
    for e in 0..links.len()
        invariant
            ls == links@,
            lb == label@,
            links_ok(ls, lb.len()),
            m == total(ls),
            forall|x: int| 0 <= x < lb.len() ==> (#[trigger] lb[x]) < lb.len(),
            match best {
                Some((a, b)) => {
                    &&& a < b < lb.len()
                    &&& is_gain(ls, lb, a as int, b as int, best_half, best_odd)
                    &&& gain(ls, lb, a as int, b as int) > 0
                    &&& forall|i: int, c: int, d: int| 0 <= i < e && 0 <= c < d < lb.len() && #[trigger] joins(ls[i], lb, c, d) ==> beaten(ls, lb, a as int, b as int, c, d)
                },
                None => forall|i: int, c: int, d: int| 0 <= i < e && 0 <= c < d < lb.len() && #[trigger] joins(ls[i], lb, c, d) ==> gain(ls, lb, c, d) <= 0,
            },
    {
        let link = links[e];
        let x: usize = label[link.0];
        let y: usize = label[link.1];
        if x != y {
            let a: usize = if x < y { x } else { y };
            let b: usize = if x < y { y } else { x };
            assert forall|c: int, d: int| 0 <= c < d < lb.len() && #[trigger] joins(ls[e as int], lb, c, d) implies c == a && d == b by {}
            match positive_gain(links, label, m, a, b) {
                Some((half, odd)) => {
                    let better = match best {
                        None => true,
                        Some((c, d)) => half > best_half || (half == best_half && odd < best_odd) || (half == best_half && odd == best_odd && (a < c || (a == c && b < d))),
                    };
                    if better {
                        best = Some((a, b));
                        best_half = half;
                        best_odd = odd;
                    }
                },
                None => {},
            }
        }
    }
    proof {
        match best {
            Some((a, b)) => {
                assert forall|c: int, d: int| 0 <= c < d < lb.len() implies #[trigger] gain(ls, lb, c, d) < gain(ls, lb, a as int, b as int)
                    || (gain(ls, lb, c, d) == gain(ls, lb, a as int, b as int) && (a < c || (a == c && b <= d))) by {
                    lemma_unlinked(ls, lb, c, d);
                    if gain(ls, lb, c, d) > 0 {
                        let e = lemma_between_link(ls, lb, c, d);
                        assert(beaten(ls, lb, a as int, b as int, c, d));
                    }
                }
            },
            None => {
                assert forall|c: int, d: int| 0 <= c < d < lb.len() implies #[trigger] gain(ls, lb, c, d) <= 0 by {
                    lemma_unlinked(ls, lb, c, d);
                    if gain(ls, lb, c, d) > 0 {
                        let e = lemma_between_link(ls, lb, c, d);
                        assert(joins(ls[e], lb, c, d));
                    }
                }
            },
        }
    }
    best
}

/// `c` and `d` gain less than `a` and `b`, or as much and come no earlier.
spec fn beaten(links: Seq<Link>, label: Seq<usize>, a: int, b: int, c: int, d: int) -> bool {
    gain(links, label, c, d) < gain(links, label, a, b) || (gain(links, label, c, d) == gain(links, label, a, b) && (a < c || (a == c && b <= d)))
}

/// Communities without links gain nothing by merging.
proof fn lemma_unlinked(links: Seq<Link>, label: Seq<usize>, c: int, d: int)
    ensures
        gain(links, label, c, d) > 0 ==> between(links, label, c, d) > 0,
{
    let (t, w, x, y) = (total(links) as int, between(links, label, c, d) as int, degree(links, label, c) as int, degree(links, label, d) as int);
    assert(x * y >= 0) by (nonlinear_arith)
        requires
            x >= 0,
            y >= 0,
    ;
    if w == 0 {
        assert(t * w == 0) by (nonlinear_arith)
            requires
                w == 0,
        ;
    }
}

/// How many nodes below `n` are their own label.
spec fn live(label: Seq<usize>, n: nat) -> nat
    decreases n,
{
    if n == 0 {
        0
    } else {
        live(label, (n - 1) as nat) + (if label[n - 1] == n - 1 {
            1nat
        } else {
            0nat
        })
    }
}

proof fn lemma_merge_live(label: Seq<usize>, a: usize, b: usize, n: nat)
    requires
        n <= label.len(),
        a < b < label.len(),
        label[a as int] == a,
        label[b as int] == b,
    ensures
        live(merged(label, a, b), n) + (if b < n {
            1nat
        } else {
            0nat
        }) == live(label, n),
    decreases n,
{
    if n > 0 {
        lemma_merge_live(label, a, b, (n - 1) as nat);
    }
}

/// Labels name the first node of their community.
pub open spec fn labels_ok(label: Seq<usize>) -> bool {
    forall|x: int| 0 <= x < label.len() ==> (#[trigger] label[x]) <= x && label[label[x] as int] == label[x]
}

/// A community that gains by merging is named by its first node.
proof fn lemma_best_live(links: Seq<Link>, label: Seq<usize>, a: int, b: int)
    requires
        links_ok(links, label.len()),
        labels_ok(label),
        is_best(links, label, a, b),
    ensures
        label[a] == a,
        label[b] == b,
{
    lemma_unlinked(links, label, a, b);
    let e = lemma_between_link(links, label, a, b);
    let (x, y) = (links[e].0 as int, links[e].1 as int);
    assert(label[label[x] as int] == label[x]);
    assert(label[label[y] as int] == label[y]);
}

/// The best pair is one pair.
proof fn lemma_best_unique(links: Seq<Link>, label: Seq<usize>, a: int, b: int, c: int, d: int)
    requires
        is_best(links, label, a, b),
        is_best(links, label, c, d),
    ensures
        a == c,
        b == d,
{
    assert(gain(links, label, a, b) <= gain(links, label, c, d));
}

/// Merging further merges leads on from where fewer merges led.
proof fn lemma_settles_extend(links: Seq<Link>, from: Seq<usize>, steps: Seq<Seq<usize>>, out: Seq<usize>, left: nat)
    requires
        steps.len() > 0,
        steps[0] == from,
        forall|i: int| 0 <= i < steps.len() - 1 ==> #[trigger] merge_step(links, steps, i),
        settles(links, steps.last(), out, left),
    ensures
        settles(links, from, out, (left + steps.len() - 1) as nat),
    decreases steps.len(),
{
    if steps.len() > 1 {
        let rest = steps.drop_first();
        assert forall|i: int| 0 <= i < rest.len() - 1 implies #[trigger] merge_step(links, rest, i) by {
            assert(merge_step(links, steps, i + 1));
            let (a, b) = choose|a: usize, b: usize| #[trigger] is_best(links, steps[i + 1], a as int, b as int) && steps[i + 2] == merged(steps[i + 1], a, b);
            assert(is_best(links, rest[i], a as int, b as int) && rest[i + 1] == merged(rest[i], a, b));
        }
        assert(rest.last() == steps.last());
        lemma_settles_extend(links, rest[0], rest, out, left);
        assert(merge_step(links, steps, 0));
        let (a, b) = choose|a: usize, b: usize| #[trigger] is_best(links, steps[0], a as int, b as int) && steps[1] == merged(steps[0], a, b);
        assert((left + steps.len() - 1) as nat - 1 == (left + rest.len() - 1) as nat);
        assert(is_best(links, from, a as int, b as int) && settles(links, merged(from, a, b), out, (left + rest.len() - 1) as nat));
    }
}

/// Step `i` merges the best pair.
spec fn merge_step(links: Seq<Link>, steps: Seq<Seq<usize>>, i: int) -> bool {
    exists|a: usize, b: usize| #[trigger] is_best(links, steps[i], a as int, b as int) && steps[i + 1] == merged(steps[i], a, b)
}

/// Merges the best pair of communities until no merge gains.
pub fn settle(links: &Vec<Link>, n: usize) -> (label: Vec<usize>)
    requires
        links_ok(links@, n as nat),
        total(links@) <= usize::MAX,
    ensures
        label@.len() == n,
        labels_ok(label@),
        is_settled(links@, n as nat, label@),
{
    let m: usize = sum_total(links);
    let mut label: Vec<usize> = Vec::new();
    for i in 0..n
        invariant
            label@.len() == i,
            forall|k: int| 0 <= k < i ==> #[trigger] label@[k] == k,
    {
        label.push(i);
    }
    let ghost ls = links@;
    let ghost start = label@;
    let ghost mut steps: Seq<Seq<usize>> = seq![start];
    assert(start =~= alone(n as nat));
    loop
        invariant
            ls == links@,
            links_ok(ls, n as nat),
            m == total(ls),
            label@.len() == n,
            labels_ok(label@),
            steps.len() > 0,
            steps[0] == start,
            steps.last() == label@,
            forall|i: int| 0 <= i < steps.len() - 1 ==> #[trigger] merge_step(ls, steps, i),
        ensures
            label@.len() == n,
            labels_ok(label@),
            steps.len() > 0,
            steps[0] == start,
            steps.last() == label@,
            forall|i: int| 0 <= i < steps.len() - 1 ==> #[trigger] merge_step(ls, steps, i),
            forall|a: int, b: int| 0 <= a < b < label@.len() ==> #[trigger] gain(ls, label@, a, b) <= 0,
        decreases live(label@, n as nat),
    {
        match best_pair(links, &label, m) {
            Some((a, b)) => {
                let ghost before = label@;
                proof {
                    lemma_best_live(ls, before, a as int, b as int);
                    lemma_merge_live(before, a, b, n as nat);
                }
                for x in 0..n
                    invariant
                        label@.len() == n,
                        before.len() == n,
                        forall|y: int| 0 <= y < x ==> #[trigger] label@[y] == merged(before, a, b)[y],
                        forall|y: int| x <= y < n ==> #[trigger] label@[y] == before[y],
                {
                    if label[x] == b {
                        label.set(x, a);
                    }
                }
                proof {
                    assert(label@ =~= merged(before, a, b));
                    assert forall|x: int| 0 <= x < label@.len() implies (#[trigger] label@[x]) <= x && label@[label@[x] as int] == label@[x] by {
                        assert(before[x] <= x && before[before[x] as int] == before[x]);
                    }
                    let grown = steps.push(label@);
                    assert forall|i: int| 0 <= i < grown.len() - 1 implies #[trigger] merge_step(ls, grown, i) by {
                        if i < steps.len() - 1 {
                            assert(merge_step(ls, steps, i));
                            let (c, d) = choose|c: usize, d: usize| #[trigger] is_best(ls, steps[i], c as int, d as int) && steps[i + 1] == merged(steps[i], c, d);
                            assert(is_best(ls, grown[i], c as int, d as int) && grown[i + 1] == merged(grown[i], c, d));
                        } else {
                            assert(is_best(ls, grown[i], a as int, b as int) && grown[i + 1] == merged(grown[i], a, b));
                        }
                    }
                    steps = grown;
                }
            },
            None => {
                break;
            },
        }
    }
    proof {
        assert forall|a: int, b: int| !(#[trigger] is_best(ls, label@, a, b)) by {
            if is_best(ls, label@, a, b) {
                assert(gain(ls, label@, a, b) <= 0);
            }
        }
        assert(settles(ls, label@, label@, 0));
        lemma_settles_extend(ls, start, steps, label@, 0);
    }
    label
}

proof fn lemma_settles_unique(links: Seq<Link>, label: Seq<usize>, x: Seq<usize>, y: Seq<usize>, left: nat, other: nat)
    requires
        settles(links, label, x, left),
        settles(links, label, y, other),
    ensures
        x == y,
    decreases left,
{
    if exists|a: int, b: int| #[trigger] is_best(links, label, a, b) {
        let (a, b) = choose|a: usize, b: usize| #[trigger] is_best(links, label, a as int, b as int) && settles(links, merged(label, a, b), x, (left - 1) as nat);
        let (c, d) = choose|c: usize, d: usize| #[trigger] is_best(links, label, c as int, d as int) && settles(links, merged(label, c, d), y, (other - 1) as nat);
        lemma_best_unique(links, label, a as int, b as int, c as int, d as int);
        lemma_settles_unique(links, merged(label, a, b), x, y, (left - 1) as nat, (other - 1) as nat);
    }
}

/// Greedy merging arrives at one result: the same links always make the same
/// communities.
pub proof fn communities_are_determined(links: Seq<Link>, n: nat, x: Seq<usize>, y: Seq<usize>)
    requires
        is_settled(links, n, x),
        is_settled(links, n, y),
    ensures
        x == y,
{
    let left = choose|left: nat| settles(links, alone(n), x, left);
    let other = choose|other: nat| settles(links, alone(n), y, other);
    lemma_settles_unique(links, alone(n), x, y, left, other);
}

}
