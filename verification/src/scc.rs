//! Strongly connected components over any names and any way to look up what
//! a name leads to.

use vstd::prelude::*;
use crate::digraph::components;
use crate::digraph::{arcs, edge, enters, entwined, goes_by, graph_ok, is_component_list, is_in_walk_order, is_walk, leads_to, lemma_picture, lemma_picture_target, mutual, pictures, placed, reached, reaches, row, stands_before, stepped, steps_to, walked, walks_to, Step, Walk};
use crate::order::{group_views, str_views};
use crate::text::same;

verus! {

/// What the lookup answers is what `next` says, name for name.
pub open spec fn answers<'a, F: Fn(&'a str) -> Vec<&'a str>>(lookup: F, next: spec_fn(Seq<char>) -> Seq<Seq<char>>) -> bool {
    forall|s: &'a str, r: Vec<&'a str>| #[trigger] call_ensures(lookup, (s,), r) ==> str_views(r@) == next(s@)
}

/// Nothing leads out of the set.
pub open spec fn keeps_inside(next: spec_fn(Seq<char>) -> Seq<Seq<char>>, all: Set<Seq<char>>) -> bool {
    forall|s: Seq<char>, k: int| #![trigger next(s)[k]] all.contains(s) && 0 <= k < next(s).len() ==> all.contains(next(s)[k])
}

/// From the nodes only finitely many names can be reached.
pub open spec fn finitely_many<'a, F: Fn(&'a str) -> Vec<&'a str>>(nodes: Seq<&'a str>, lookup: F) -> bool {
    exists|next: spec_fn(Seq<char>) -> Seq<Seq<char>>, all: Set<Seq<char>>| #[trigger] answers(lookup, next) && #[trigger] keeps_inside(next, all) && all.finite()
        && forall|i: int| 0 <= i < nodes.len() ==> all.contains((#[trigger] nodes[i])@)
}

/// One name leads to another in one step.
pub open spec fn follows(next: spec_fn(Seq<char>) -> Seq<Seq<char>>) -> spec_fn(Seq<char>, Seq<char>) -> bool {
    |a: Seq<char>, b: Seq<char>| next(a).contains(b)
}

/// Number `k` of group `c` is `t`.
pub open spec fn stands(groups: Seq<Seq<Seq<char>>>, t: Seq<char>, c: int, k: int) -> bool {
    0 <= c < groups.len() && 0 <= k < groups[c].len() && groups[c][k] == t
}

/// One of the nodes leads to `t`.
pub open spec fn led_to(rel: spec_fn(Seq<char>, Seq<char>) -> bool, nodes: Seq<Seq<char>>, t: Seq<char>) -> bool {
    exists|i: int| 0 <= i < nodes.len() && leads_to(rel, #[trigger] nodes[i], t)
}

/// The groups are the strongly connected components of what the nodes lead
/// to: none is empty, each name stands in exactly one place, two names share a
/// group if and only if each leads to the other, a group comes after those
/// that it leads to, and what the first nodes lead to comes before the rest.
pub open spec fn is_scc_list(rel: spec_fn(Seq<char>, Seq<char>) -> bool, nodes: Seq<Seq<char>>, groups: Seq<Seq<Seq<char>>>) -> bool {
    &&& forall|c: int| 0 <= c < groups.len() ==> (#[trigger] groups[c]).len() > 0
    &&& forall|t: Seq<char>, c: int, k: int| #[trigger] stands(groups, t, c, k) ==> led_to(rel, nodes, t)
    &&& forall|t: Seq<char>| #[trigger] led_to(rel, nodes, t) ==> exists|c: int, k: int| stands(groups, t, c, k)
    &&& forall|t: Seq<char>, c: int, k: int, d: int, l: int| #[trigger] stands(groups, t, c, k) && #[trigger] stands(groups, t, d, l) ==> c == d && k == l
    &&& forall|s: Seq<char>, t: Seq<char>, c: int, k: int, d: int, l: int| #[trigger] stands(groups, s, c, k) && #[trigger] stands(groups, t, d, l)
        ==> (c == d <==> entwined(rel, s, t))
    &&& forall|s: Seq<char>, t: Seq<char>, c: int, k: int, d: int, l: int| #[trigger] stands(groups, s, c, k) && #[trigger] stands(groups, t, d, l)
        && rel(s, t) ==> d <= c
    &&& forall|s: Seq<char>, t: Seq<char>, c: int, k: int, d: int, l: int, i: int| #[trigger] stands(groups, s, c, k) && #[trigger] stands(groups, t, d, l)
        && 0 <= i <= nodes.len() && #[trigger] led_to(rel, nodes.take(i), s) && !led_to(rel, nodes.take(i), t) ==> c < d
}

/// The number of the name, which is added where it is new.
fn number_of<'a>(names: &mut Vec<&'a str>, name: &'a str) -> (r: usize)
    requires
        str_views(old(names)@).no_duplicates(),
    ensures
        str_views(final(names)@).no_duplicates(),
        r < final(names)@.len(),
        final(names)@[r as int]@ == name@,
        old(names)@.len() <= final(names)@.len(),
        forall|k: int| 0 <= k < old(names)@.len() ==> #[trigger] final(names)@[k] == old(names)@[k],
        forall|k: int| old(names)@.len() <= k < final(names)@.len() ==> (#[trigger] final(names)@[k])@ == name@,
{
    for i in 0..names.len()
        invariant
            names@ == old(names)@,
            str_views(names@).no_duplicates(),
            forall|k: int| 0 <= k < i ==> (#[trigger] names@[k])@ != name@,
    {
        if same(names[i], name) {
            return i;
        }
    }
    let ghost before = str_views(names@);
    let r: usize = names.len();
    names.push(name);
    assert(str_views(names@) =~= before.push(name@));
    r
}

/// Row `u` of the graph is what the lookup answered for name `u`.
spec fn row_answers<'a, F: Fn(&'a str) -> Vec<&'a str>>(lookup: F, names: Seq<&'a str>, row: Seq<usize>, u: int) -> bool {
    exists|raw: Vec<&'a str>| #[trigger] call_ensures(lookup, (names[u],), raw) && raw@.len() == row.len()
        && forall|k: int| 0 <= k < row.len() ==> (#[trigger] row[k]) < names.len() && names[row[k] as int]@ == raw@[k]@
}

proof fn lemma_row_grows<'a, F: Fn(&'a str) -> Vec<&'a str>>(lookup: F, before: Seq<&'a str>, after: Seq<&'a str>, row: Seq<usize>, u: int)
    requires
        row_answers(lookup, before, row, u),
        0 <= u < before.len() <= after.len(),
        forall|k: int| 0 <= k < before.len() ==> #[trigger] after[k] == before[k],
    ensures
        row_answers(lookup, after, row, u),
{
    let raw = choose|raw: Vec<&'a str>| #[trigger] call_ensures(lookup, (before[u],), raw) && raw@.len() == row.len()
        && forall|k: int| 0 <= k < row.len() ==> (#[trigger] row[k]) < before.len() && before[row[k] as int]@ == raw@[k]@;
    assert(call_ensures(lookup, (after[u],), raw));
}

proof fn lemma_names_bounded(names: Seq<Seq<char>>, all: Set<Seq<char>>)
    requires
        names.no_duplicates(),
        all.finite(),
        forall|k: int| 0 <= k < names.len() ==> all.contains(#[trigger] names[k]),
    ensures
        names.len() <= all.len(),
{
    names.unique_seq_to_set();
    assert(names.to_set().subset_of(all));
    vstd::set_lib::lemma_len_subset(names.to_set(), all);
}

proof fn lemma_rows_picture<'a, F: Fn(&'a str) -> Vec<&'a str>>(lookup: F, next: spec_fn(Seq<char>) -> Seq<Seq<char>>, names: Seq<&'a str>, g: Seq<Seq<usize>>)
    requires
        answers(lookup, next),
        str_views(names).no_duplicates(),
        g.len() == names.len(),
        forall|u: int| 0 <= u < g.len() ==> row_answers(lookup, names, #[trigger] g[u], u),
    ensures
        graph_ok(g),
        pictures(g, str_views(names), |u: int| 0 <= u < names.len(), follows(next)),
        leads_alike(g, str_views(names), next),
{
    let nv = str_views(names);
    let rel = follows(next);
    let inside = |u: int| 0 <= u < names.len();
    assert forall|u: int, k: int| 0 <= u < g.len() && 0 <= k < g[u].len() implies (#[trigger] g[u][k]) < g.len() by {
        assert(row_answers(lookup, names, g[u], u));
    }
    assert forall|u: int| 0 <= u < g.len() implies (#[trigger] g[u]).len() == next(nv[u]).len()
        && forall|k: int| 0 <= k < g[u].len() ==> nv[#[trigger] g[u][k] as int] == next(nv[u])[k] by {
        assert(row_answers(lookup, names, g[u], u));
        let raw = choose|raw: Vec<&'a str>| #[trigger] call_ensures(lookup, (names[u],), raw) && raw@.len() == g[u].len()
            && forall|k: int| 0 <= k < g[u].len() ==> (#[trigger] g[u][k]) < names.len() && names[g[u][k] as int]@ == raw@[k]@;
        assert(str_views(raw@) == next(nv[u]));
        assert forall|k: int| 0 <= k < g[u].len() implies nv[#[trigger] g[u][k] as int] == next(nv[u])[k] by {
            assert(str_views(raw@)[k] == raw@[k]@);
        }
    }
    assert forall|u: int| 0 <= u < g.len() implies next(#[trigger] nv[u]) == named(nv, g[u]) by {
        assert(g[u].len() == next(nv[u]).len());
        assert(next(nv[u]) =~= named(nv, g[u]));
    }
    assert forall|u: int, w: int| inside(u) && #[trigger] edge(g, u, w) implies inside(w) && rel(nv[u], nv[w]) by {
        let k = choose|k: int| 0 <= k < g[u].len() && (#[trigger] g[u][k]) == w;
        assert(next(nv[u])[k] == nv[w]);
    }
    assert forall|u: int, t: Seq<char>| inside(u) && #[trigger] rel(nv[u], t) implies exists|w: int| edge(g, u, w) && nv[w] == t by {
        let list = next(nv[u]);
        let k = choose|k: int| 0 <= k < list.len() && list[k] == t;
        let w = g[u][k] as int;
        assert(edge(g, u, w) && nv[w] == t);
    }
}

proof fn lemma_scc_names(g: Seq<Seq<usize>>, names: Seq<Seq<char>>, rel: spec_fn(Seq<char>, Seq<char>) -> bool, roots: Seq<usize>, nodes: Seq<Seq<char>>, numbered: Seq<Seq<usize>>, named: Seq<Seq<Seq<char>>>)
    requires
        names.no_duplicates(),
        g.len() == names.len(),
        graph_ok(g),
        pictures(g, names, |u: int| 0 <= u < names.len(), rel),
        roots.len() == nodes.len(),
        forall|i: int| 0 <= i < roots.len() ==> (#[trigger] roots[i]) < names.len() && names[roots[i] as int] == nodes[i],
        is_component_list(g, roots, numbered),
        named.len() == numbered.len(),
        forall|c: int| 0 <= c < named.len() ==> (#[trigger] named[c]).len() == numbered[c].len(),
        forall|c: int, k: int| 0 <= c < named.len() && 0 <= k < named[c].len() ==> #[trigger] named[c][k] == names[numbered[c][k] as int],
    ensures
        is_scc_list(rel, nodes, named),
{
    let inside = |u: int| 0 <= u < names.len();
    assert forall|t: Seq<char>, c: int, k: int| #[trigger] stands(named, t, c, k) implies placed(numbered, numbered[c][k] as int, c, k)
        && names[numbered[c][k] as int] == t && inside(numbered[c][k] as int) by {
        assert(placed(numbered, numbered[c][k] as int, c, k));
    }
    assert forall|i: int, x: int| 0 <= i <= roots.len() && inside(x) implies (#[trigger] reached(g, roots.take(i), x) <==> led_to(rel, nodes.take(i), names[x])) by {
        if reached(g, roots.take(i), x) {
            let r = choose|r: int| 0 <= r < roots.take(i).len() && reaches(g, #[trigger] roots.take(i)[r] as int, x);
            assert(roots.take(i)[r] == roots[r] && nodes.take(i)[r] == nodes[r]);
            lemma_picture(g, names, inside, rel, roots[r] as int, x);
        }
        if led_to(rel, nodes.take(i), names[x]) {
            let r = choose|r: int| 0 <= r < nodes.take(i).len() && leads_to(rel, #[trigger] nodes.take(i)[r], names[x]);
            assert(roots.take(i)[r] == roots[r] && nodes.take(i)[r] == nodes[r]);
            lemma_picture(g, names, inside, rel, roots[r] as int, x);
        }
    }
    assert(roots.take(roots.len() as int) =~= roots);
    assert(nodes.take(nodes.len() as int) =~= nodes);
    assert forall|t: Seq<char>, c: int, k: int| #[trigger] stands(named, t, c, k) implies led_to(rel, nodes, t) by {
        assert(reached(g, roots.take(roots.len() as int), numbered[c][k] as int));
    }
    assert forall|t: Seq<char>| #[trigger] led_to(rel, nodes, t) implies exists|c: int, k: int| stands(named, t, c, k) by {
        let r = choose|r: int| 0 <= r < nodes.len() && leads_to(rel, #[trigger] nodes[r], t);
        reveal(leads_to);
        let n = choose|n: nat| steps_to(rel, nodes[r], t, n);
        assert(inside(roots[r] as int));
        let x = lemma_picture_target(g, names, inside, rel, roots[r] as int, t, n);
        lemma_picture(g, names, inside, rel, roots[r] as int, x);
        assert(reached(g, roots, x));
        let (c, k) = choose|c: int, k: int| placed(numbered, x, c, k);
        assert(stands(named, t, c, k));
    }
    assert forall|t: Seq<char>, c: int, k: int, d: int, l: int| #[trigger] stands(named, t, c, k) && #[trigger] stands(named, t, d, l) implies c == d && k == l by {
        assert(numbered[c][k] == numbered[d][l]);
    }
    assert forall|s: Seq<char>, t: Seq<char>, c: int, k: int, d: int, l: int| #[trigger] stands(named, s, c, k) && #[trigger] stands(named, t, d, l)
        implies (c == d <==> entwined(rel, s, t)) by {
        lemma_picture(g, names, inside, rel, numbered[c][k] as int, numbered[d][l] as int);
        lemma_picture(g, names, inside, rel, numbered[d][l] as int, numbered[c][k] as int);
        assert(mutual(g, numbered[c][k] as int, numbered[d][l] as int) <==> entwined(rel, s, t));
    }
    assert forall|s: Seq<char>, t: Seq<char>, c: int, k: int, d: int, l: int| #[trigger] stands(named, s, c, k) && #[trigger] stands(named, t, d, l)
        && rel(s, t) implies d <= c by {
        let x = numbered[c][k] as int;
        assert(rel(names[x], t));
        let w = choose|w: int| edge(g, x, w) && names[w] == t;
        assert(inside(w));
        assert(w == numbered[d][l]);
    }
    assert forall|s: Seq<char>, t: Seq<char>, c: int, k: int, d: int, l: int, i: int| #[trigger] stands(named, s, c, k) && #[trigger] stands(named, t, d, l)
        && 0 <= i <= nodes.len() && #[trigger] led_to(rel, nodes.take(i), s) && !led_to(rel, nodes.take(i), t) implies c < d by {
        assert(reached(g, roots.take(i), numbered[c][k] as int));
        assert(!reached(g, roots.take(i), numbered[d][l] as int));
    }
}

/// A step with the names in place of the numbers.
spec fn named_step(names: Seq<Seq<char>>, step: Step<usize>) -> Step<Seq<char>> {
    match step {
        Step::Enter(u) => Step::Enter(names[u as int]),
        Step::Leave(u) => Step::Leave(names[u as int]),
    }
}

/// The names for the numbers.
spec fn named(names: Seq<Seq<char>>, v: Seq<usize>) -> Seq<Seq<char>> {
    v.map_values(|u: usize| names[u as int])
}

/// A walk with the names in place of the numbers.
spec fn named_walk(names: Seq<Seq<char>>, w: Walk<usize>) -> Walk<Seq<char>> {
    Walk { todo: w.todo.map_values(|step: Step<usize>| named_step(names, step)), pre: named(names, w.pre), post: named(names, w.post) }
}

/// The number that a step is about.
spec fn about(step: Step<usize>) -> usize {
    match step {
        Step::Enter(u) => u,
        Step::Leave(u) => u,
    }
}

/// The walk stays among so many numbers.
spec fn stays_below(w: Walk<usize>, n: nat) -> bool {
    &&& forall|i: int| 0 <= i < w.todo.len() ==> about(#[trigger] w.todo[i]) < n
    &&& forall|i: int| 0 <= i < w.pre.len() ==> (#[trigger] w.pre[i]) < n
}

/// Names lead to names as their numbers lead to numbers.
spec fn leads_alike(g: Seq<Seq<usize>>, names: Seq<Seq<char>>, next: spec_fn(Seq<char>) -> Seq<Seq<char>>) -> bool {
    &&& names.no_duplicates()
    &&& g.len() == names.len()
    &&& graph_ok(g)
    &&& forall|u: int| 0 <= u < g.len() ==> next(#[trigger] names[u]) == named(names, g[u])
}

proof fn lemma_named_step(g: Seq<Seq<usize>>, names: Seq<Seq<char>>, next: spec_fn(Seq<char>) -> Seq<Seq<char>>, w: Walk<usize>)
    requires
        leads_alike(g, names, next),
        stays_below(w, g.len()),
    ensures
        stays_below(stepped(row(g), w), g.len()),
        named_walk(names, stepped(row(g), w)) == stepped(next, named_walk(names, w)),
{
    let nw = named_walk(names, w);
    let after = stepped(row(g), w);
    if w.todo.len() > 0 {
        let rest = w.todo.skip(1);
        let nrest = rest.map_values(|step: Step<usize>| named_step(names, step));
        assert(nw.todo.skip(1) =~= nrest);
        assert(nw.todo[0] == named_step(names, w.todo[0]));
        assert(about(w.todo[0]) < g.len());
        assert forall|i: int| 0 <= i < rest.len() implies about(#[trigger] rest[i]) < g.len() by {
            assert(rest[i] == w.todo[i + 1]);
        }
        match w.todo[0] {
            Step::Leave(v) => {
                assert(named(names, w.post.push(v)) =~= nw.post.push(names[v as int]));
            },
            Step::Enter(v) => {
                let t = names[v as int];
                assert(w.pre.contains(v) <==> nw.pre.contains(t)) by {
                    if w.pre.contains(v) {
                        let i = choose|i: int| 0 <= i < w.pre.len() && w.pre[i] == v;
                        assert(nw.pre[i] == t);
                    }
                    if nw.pre.contains(t) {
                        let i = choose|i: int| 0 <= i < nw.pre.len() && nw.pre[i] == t;
                        assert(names[w.pre[i] as int] == t);
                        assert(w.pre[i] == v);
                    }
                }
                if !w.pre.contains(v) {
                    let list = g[v as int];
                    assert(row(g)(v) == list);
                    assert(next(names[v as int]) == named(names, list));
                    assert forall|i: int| 0 <= i < after.todo.len() implies about(#[trigger] after.todo[i]) < g.len() by {
                        if i < list.len() {
                            assert(after.todo[i] == Step::Enter(list[i]));
                            assert(g[v as int][i] < g.len());
                        } else if i > list.len() {
                            assert(after.todo[i] == rest[i - list.len() - 1]);
                        }
                    }
                    let ntodo = after.todo.map_values(|step: Step<usize>| named_step(names, step));
                    assert(ntodo =~= enters(next(t)) + (seq![Step::Leave(t)] + nrest)) by {
                        assert(enters(next(t)).len() == list.len());
                        assert forall|i: int| 0 <= i < ntodo.len() implies ntodo[i] == (enters(next(t)) + (seq![Step::Leave(t)] + nrest))[i] by {
                            if i < list.len() {
                                assert(after.todo[i] == Step::Enter(list[i]));
                                assert(enters(next(t))[i] == Step::Enter(next(t)[i]));
                            }
                        }
                    }
                    assert(named(names, w.pre.push(v)) =~= nw.pre.push(t));
                }
            },
        }
    }
}

proof fn lemma_named_walk(g: Seq<Seq<usize>>, names: Seq<Seq<char>>, next: spec_fn(Seq<char>) -> Seq<Seq<char>>, w: Walk<usize>, n: nat)
    requires
        leads_alike(g, names, next),
        stays_below(w, g.len()),
    ensures
        stays_below(walked(row(g), w, n), g.len()),
        named_walk(names, walked(row(g), w, n)) == walked(next, named_walk(names, w), n),
    decreases n,
{
    if n > 0 {
        lemma_named_step(g, names, next, w);
        lemma_named_walk(g, names, next, stepped(row(g), w), (n - 1) as nat);
    }
}

/// Groups of numbers that go by a walk make groups of names that go by it.
proof fn lemma_named_order(
    g: Seq<Seq<usize>>,
    names: Seq<Seq<char>>,
    next: spec_fn(Seq<char>) -> Seq<Seq<char>>,
    roots: Seq<usize>,
    nodes: Seq<Seq<char>>,
    numbered: Seq<Seq<usize>>,
    groups: Seq<Seq<Seq<char>>>,
)
    requires
        leads_alike(g, names, next),
        forall|i: int| 0 <= i < roots.len() ==> (#[trigger] roots[i]) < g.len(),
        nodes == named(names, roots),
        is_in_walk_order(row(g), roots, numbered),
        forall|c: int| 0 <= c < numbered.len() ==> (#[trigger] numbered[c]).len() > 0,
        groups.len() == numbered.len(),
        forall|c: int| 0 <= c < groups.len() ==> #[trigger] groups[c] == named(names, numbered[c]),
    ensures
        is_in_walk_order(next, nodes, groups),
{
    let (pre, post) = choose|pre: Seq<usize>, post: Seq<usize>| #[trigger] is_walk(row(g), roots, pre, post) && goes_by(numbered, pre, post);
    let (np, nq) = (named(names, pre), named(names, post));
    let start = Walk { todo: enters(roots), pre: Seq::<usize>::empty(), post: Seq::empty() };
    let end = Walk { todo: Seq::<Step<usize>>::empty(), pre, post };
    reveal(walks_to);
    let n = choose|n: nat| #[trigger] walked(row(g), start, n) == end;
    assert forall|i: int| 0 <= i < start.todo.len() implies about(#[trigger] start.todo[i]) < g.len() by {
        assert(start.todo[i] == Step::Enter(roots[i]));
    }
    lemma_named_walk(g, names, next, start, n);
    let nstart = named_walk(names, start);
    assert(nstart.todo =~= enters(nodes));
    assert(nstart.pre =~= Seq::<Seq<char>>::empty());
    assert(nstart.post =~= Seq::<Seq<char>>::empty());
    let nend = named_walk(names, end);
    assert(nend.todo =~= Seq::<Step<Seq<char>>>::empty());
    assert(is_walk(next, nodes, np, nq));
    assert forall|c: int, k: int, l: int| 0 <= c < groups.len() && 0 <= k < l < groups[c].len() implies stands_before(
        np,
        #[trigger] groups[c][l],
        #[trigger] groups[c][k],
    ) by {
        assert(groups[c] == named(names, numbered[c]));
        assert(stands_before(pre, numbered[c][l], numbered[c][k]));
        let (i, j) = choose|i: int, j: int| 0 <= i < j < pre.len() && #[trigger] pre[i] == numbered[c][l] && #[trigger] pre[j] == numbered[c][k];
        assert(np[i] == groups[c][l] && np[j] == groups[c][k]);
    }
    assert forall|c: int, d: int| 0 <= c < d < groups.len() implies stands_before(nq, (#[trigger] groups[c]).last(), (#[trigger] groups[d]).last()) by {
        assert(groups[c] == named(names, numbered[c]) && groups[d] == named(names, numbered[d]));
        assert(numbered[c].len() > 0 && numbered[d].len() > 0);
        assert(stands_before(post, numbered[c].last(), numbered[d].last()));
        let (i, j) = choose|i: int, j: int| 0 <= i < j < post.len() && #[trigger] post[i] == numbered[c].last() && #[trigger] post[j] == numbered[d].last();
        assert(nq[i] == groups[c].last() && nq[j] == groups[d].last());
    }
}

/// The strongly connected components of what the nodes lead to, each after the
/// ones that it leads to. A node that leads nowhere is a group of its own. The
/// groups, and the names in each, go by a depth-first walk that takes the nodes
/// in turn, and what a name leads to in the order of the answer.
pub fn tarjan_scc<'a, F: Fn(&'a str) -> Vec<&'a str>>(nodes: &Vec<&'a str>, neighbors: F) -> (r: Vec<Vec<&'a str>>)
    requires
        forall|s: &'a str| #[trigger] call_requires(neighbors, (s,)),
        finitely_many(nodes@, neighbors),
    ensures
        forall|next: spec_fn(Seq<char>) -> Seq<Seq<char>>| #[trigger] answers(neighbors, next) ==> is_scc_list(follows(next), str_views(nodes@), group_views(r@))
            && is_in_walk_order(next, str_views(nodes@), group_views(r@)),
{
    let ghost (next0, all) = choose|next: spec_fn(Seq<char>) -> Seq<Seq<char>>, all: Set<Seq<char>>| #[trigger] answers(neighbors, next)
        && #[trigger] keeps_inside(next, all) && all.finite() && forall|i: int| 0 <= i < nodes@.len() ==> all.contains((#[trigger] nodes@[i])@);
    let mut names: Vec<&'a str> = Vec::new();
    let mut roots: Vec<usize> = Vec::new();
    for i in 0..nodes.len()
        invariant
            str_views(names@).no_duplicates(),
            forall|i: int| 0 <= i < nodes@.len() ==> all.contains((#[trigger] nodes@[i])@),
            forall|k: int| 0 <= k < names@.len() ==> all.contains((#[trigger] names@[k])@),
            roots@.len() == i,
            forall|k: int| 0 <= k < i ==> (#[trigger] roots@[k]) < names@.len() && names@[roots@[k] as int]@ == nodes@[k]@,
    {
        let ghost before = names@;
        let at: usize = number_of(&mut names, nodes[i]);
        roots.push(at);
        assert forall|k: int| 0 <= k < i + 1 implies (#[trigger] roots@[k]) < names@.len() && names@[roots@[k] as int]@ == nodes@[k]@ by {
            if k < i {
                assert(names@[roots@[k] as int] == before[roots@[k] as int]);
            }
        }
    }
    let mut adj: Vec<Vec<usize>> = Vec::new();
    while adj.len() < names.len()
        invariant
            forall|s: &'a str| #[trigger] call_requires(neighbors, (s,)),
            answers(neighbors, next0),
            keeps_inside(next0, all),
            all.finite(),
            str_views(names@).no_duplicates(),
            forall|k: int| 0 <= k < names@.len() ==> all.contains((#[trigger] names@[k])@),
            roots@.len() == nodes@.len(),
            forall|k: int| 0 <= k < roots@.len() ==> (#[trigger] roots@[k]) < names@.len() && names@[roots@[k] as int]@ == nodes@[k]@,
            adj@.len() <= names@.len(),
            forall|u: int| 0 <= u < adj@.len() ==> row_answers(neighbors, names@, (#[trigger] adj@[u])@, u),
        decreases all.len() - adj@.len(),
    {
        let u: usize = adj.len();
        let ghost start = names@;
        let raw = neighbors(names[u]);
        proof {
            assert(str_views(raw@) == next0(names@[u as int]@));
            assert forall|k: int| 0 <= k < raw@.len() implies all.contains((#[trigger] raw@[k])@) by {
                assert(next0(names@[u as int]@)[k] == raw@[k]@);
            }
        }
        let mut row: Vec<usize> = Vec::new();
        for k in 0..raw.len()
            invariant
                str_views(names@).no_duplicates(),
                start.len() <= names@.len(),
                forall|m: int| 0 <= m < start.len() ==> #[trigger] names@[m] == start[m],
                forall|m: int| 0 <= m < names@.len() ==> all.contains((#[trigger] names@[m])@),
                forall|m: int| 0 <= m < raw@.len() ==> all.contains((#[trigger] raw@[m])@),
                row@.len() == k,
                forall|m: int| 0 <= m < k ==> (#[trigger] row@[m]) < names@.len() && names@[row@[m] as int]@ == raw@[m]@,
        {
            let ghost before = names@;
            let at: usize = number_of(&mut names, raw[k]);
            row.push(at);
            assert forall|m: int| 0 <= m < k + 1 implies (#[trigger] row@[m]) < names@.len() && names@[row@[m] as int]@ == raw@[m]@ by {
                if m < k {
                    assert(names@[row@[m] as int] == before[row@[m] as int]);
                }
            }
            assert forall|m: int| 0 <= m < start.len() implies #[trigger] names@[m] == start[m] by {
                assert(names@[m] == before[m]);
            }
        }
        let ghost rows = adj@;
        adj.push(row);
        proof {
            assert(call_ensures(neighbors, (names@[u as int],), raw));
            assert forall|v: int| 0 <= v < adj@.len() implies row_answers(neighbors, names@, (#[trigger] adj@[v])@, v) by {
                if v < u {
                    assert(adj@[v] == rows[v]);
                    lemma_row_grows(neighbors, start, names@, rows[v]@, v);
                }
            }
            assert forall|k: int| 0 <= k < roots@.len() implies (#[trigger] roots@[k]) < names@.len() && names@[roots@[k] as int]@ == nodes@[k]@ by {
                assert(names@[roots@[k] as int] == start[roots@[k] as int]);
            }
            lemma_names_bounded(str_views(names@), all);
        }
    }
    let ghost g = arcs(adj@);
    proof {
        assert forall|u: int| 0 <= u < g.len() implies row_answers(neighbors, names@, #[trigger] g[u], u) by {
            assert(g[u] == adj@[u]@);
        }
        lemma_rows_picture(neighbors, next0, names@, g);
    }
    let groups = components(&adj, &roots);
    let ghost gs = arcs(groups@);
    let mut out: Vec<Vec<&'a str>> = Vec::new();
    for c in 0..groups.len()
        invariant
            g.len() == names@.len(),
            gs == arcs(groups@),
            is_component_list(g, roots@, gs),
            out@.len() == c,
            forall|d: int| 0 <= d < c ==> (#[trigger] out@[d])@.len() == gs[d].len(),
            forall|d: int, k: int| 0 <= d < c && 0 <= k < out@[d]@.len() ==> #[trigger] out@[d]@[k] == names@[gs[d][k] as int],
    {
        let mut list: Vec<&'a str> = Vec::new();
        let size: usize = groups[c].len();
        for k in 0..size
            invariant
                g.len() == names@.len(),
                gs == arcs(groups@),
                c < gs.len(),
                size == gs[c as int].len(),
                is_component_list(g, roots@, gs),
                list@.len() == k,
                forall|m: int| 0 <= m < k ==> #[trigger] list@[m] == names@[gs[c as int][m] as int],
        {
            assert(placed(gs, gs[c as int][k as int] as int, c as int, k as int));
            let x: usize = groups[c][k];
            list.push(names[x]);
        }
        out.push(list);
    }
    proof {
        let nv = str_views(names@);
        let named = group_views(out@);
        assert forall|next: spec_fn(Seq<char>) -> Seq<Seq<char>>| #[trigger] answers(neighbors, next) implies is_scc_list(follows(next), str_views(nodes@), named)
            && is_in_walk_order(next, str_views(nodes@), named) by {
            lemma_rows_picture(neighbors, next, names@, g);
            assert forall|c: int, k: int| 0 <= c < named.len() && 0 <= k < named[c].len() implies #[trigger] named[c][k] == nv[gs[c][k] as int] by {
                assert(out@[c]@[k] == names@[gs[c][k] as int]);
                assert(placed(gs, gs[c][k] as int, c, k));
            }
            lemma_scc_names(g, nv, follows(next), roots@, str_views(nodes@), gs, named);
            assert forall|c: int| 0 <= c < named.len() implies #[trigger] named[c] == self::named(nv, gs[c]) by {
                assert(named[c] =~= self::named(nv, gs[c]));
            }
            assert(str_views(nodes@) =~= self::named(nv, roots@));
            lemma_named_order(g, nv, next, roots@, str_views(nodes@), gs, named);
        }
    }
    out
}

}
