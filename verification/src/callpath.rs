//! Shortest walks through a directed graph.

use vstd::prelude::*;
use crate::digraph::{arcs, edge, graph_ok, lemma_last_step, lemma_one_more, listed, reach_in, reaches, within};
use crate::digraph::{front_ok, lemma_front_step, lemma_mark_one, lemma_reaches_leaves, unmarked};

verus! {

/// The step from place `i` of the walk to the next follows an edge.
pub open spec fn walk_step(g: Seq<Seq<usize>>, p: Seq<usize>, i: int) -> bool {
    edge(g, p[i] as int, p[i + 1] as int)
}

/// A walk from `u` to `v`.
pub open spec fn is_walk(g: Seq<Seq<usize>>, u: int, v: int, p: Seq<usize>) -> bool {
    &&& p.len() > 0
    &&& p[0] == u
    &&& p.last() == v
    &&& forall|i: int| 0 <= i < p.len() - 1 ==> #[trigger] walk_step(g, p, i)
}

/// `x` is in the list, ahead of every `y`.
pub open spec fn comes_first(s: Seq<usize>, x: usize, y: usize) -> bool {
    exists|k: int| 0 <= k < s.len() && #[trigger] s[k] == x && forall|l: int| 0 <= l <= k ==> #[trigger] s[l] != y
}

/// Where the two walks first part, `p` takes the successor listed first.
pub open spec fn walks_before(g: Seq<Seq<usize>>, p: Seq<usize>, q: Seq<usize>) -> bool {
    exists|k: int| 1 <= k < p.len() && k < q.len() && #[trigger] p.take(k) == q.take(k) && comes_first(g[p[k - 1] as int], p[k], q[k])
}

/// `p` comes before every other walk of its length between its ends.
pub open spec fn is_first_walk(g: Seq<Seq<usize>>, u: int, v: int, p: Seq<usize>) -> bool {
    &&& is_walk(g, u, v, p)
    &&& forall|q: Seq<usize>| q.len() == p.len() && #[trigger] is_walk(g, u, v, q) ==> q == p || walks_before(g, p, q)
}

/// The first of the shortest walks from `u` to `v`.
pub open spec fn is_shortest_walk(g: Seq<Seq<usize>>, u: int, v: int, p: Seq<usize>) -> bool {
    &&& is_first_walk(g, u, v, p)
    &&& forall|q: Seq<usize>| #[trigger] is_walk(g, u, v, q) ==> p.len() <= q.len()
}

proof fn lemma_walk_reaches(g: Seq<Seq<usize>>, u: int, v: int, p: Seq<usize>)
    requires
        is_walk(g, u, v, p),
    ensures
        reach_in(g, u, v, (p.len() - 1) as nat),
    decreases p.len(),
{
    if p.len() > 1 {
        let q = p.drop_last();
        assert forall|i: int| 0 <= i < q.len() - 1 implies #[trigger] walk_step(g, q, i) by {
            assert(walk_step(g, p, i));
        }
        lemma_walk_reaches(g, u, q.last() as int, q);
        assert(walk_step(g, p, p.len() - 2));
        lemma_one_more(g, u, q.last() as int, v, (q.len() - 1) as nat);
    }
}

proof fn lemma_walk_extend(g: Seq<Seq<usize>>, u: int, v: int, p: Seq<usize>, w: usize)
    requires
        is_walk(g, u, v, p),
        edge(g, v, w as int),
    ensures
        is_walk(g, u, w as int, p.push(w)),
{
    let q = p.push(w);
    assert forall|i: int| 0 <= i < q.len() - 1 implies #[trigger] walk_step(g, q, i) by {
        if i < p.len() - 1 {
            assert(walk_step(g, p, i));
        }
    }
}

proof fn lemma_walk_shorten(g: Seq<Seq<usize>>, u: int, v: int, q: Seq<usize>)
    requires
        is_walk(g, u, v, q),
        q.len() > 1,
    ensures
        is_walk(g, u, q[q.len() - 2] as int, q.drop_last()),
        edge(g, q[q.len() - 2] as int, v),
{
    let p = q.drop_last();
    assert forall|i: int| 0 <= i < p.len() - 1 implies #[trigger] walk_step(g, p, i) by {
        assert(walk_step(g, q, i));
    }
    assert(walk_step(g, q, q.len() - 2));
}

proof fn lemma_before_joins(g: Seq<Seq<usize>>, p: Seq<usize>, q: Seq<usize>, r: Seq<usize>)
    requires
        walks_before(g, p, q),
        walks_before(g, q, r),
    ensures
        walks_before(g, p, r),
{
    let a = choose|k: int| 1 <= k < p.len() && k < q.len() && #[trigger] p.take(k) == q.take(k) && comes_first(g[p[k - 1] as int], p[k], q[k]);
    let b = choose|k: int| 1 <= k < q.len() && k < r.len() && #[trigger] q.take(k) == r.take(k) && comes_first(g[q[k - 1] as int], q[k], r[k]);
    let m = if a < b { a } else { b };
    assert(p.take(m) =~= r.take(m)) by {
        assert forall|i: int| 0 <= i < m implies p[i] == r[i] by {
            assert(p.take(a)[i] == q.take(a)[i]);
            assert(q.take(b)[i] == r.take(b)[i]);
        }
    }
    if a < b {
        assert(q.take(b)[a] == r.take(b)[a]);
    } else if b < a {
        assert(p.take(a)[b] == q.take(a)[b]);
        assert(p.take(a)[b - 1] == q.take(a)[b - 1]);
    } else {
        let s = g[p[a - 1] as int];
        assert(p.take(a)[a - 1] == q.take(a)[a - 1]);
        let i = choose|i: int| 0 <= i < s.len() && #[trigger] s[i] == p[a] && forall|l: int| 0 <= l <= i ==> #[trigger] s[l] != q[a];
        let j = choose|j: int| 0 <= j < s.len() && #[trigger] s[j] == q[a] && forall|l: int| 0 <= l <= j ==> #[trigger] s[l] != r[a];
        assert(i < j);
        assert(comes_first(s, p[a], r[a]));
    }
}

proof fn lemma_before_extends(g: Seq<Seq<usize>>, p: Seq<usize>, q: Seq<usize>, x: usize, y: usize)
    requires
        walks_before(g, p, q),
    ensures
        walks_before(g, p.push(x), q.push(y)),
{
    let k = choose|k: int| 1 <= k < p.len() && k < q.len() && #[trigger] p.take(k) == q.take(k) && comes_first(g[p[k - 1] as int], p[k], q[k]);
    assert(p.push(x).take(k) =~= p.take(k));
    assert(q.push(y).take(k) =~= q.take(k));
}

/// The ends of the walks.
spec fn ends(paths: Seq<Seq<usize>>) -> Seq<usize> {
    paths.map_values(|p: Seq<usize>| p.last())
}

/// After `d` rounds the front holds, for each node exactly `d` steps away, the
/// first walk to it, and the walks are in order.
spec fn paths_ok(g: Seq<Seq<usize>>, start: int, d: nat, marks: Seq<bool>, front: Seq<Seq<usize>>) -> bool {
    &&& front_ok(g, start, d, marks, ends(front))
    &&& forall|a: int| 0 <= a < front.len() ==> (#[trigger] front[a]).len() == d + 1 && is_first_walk(g, start, front[a].last() as int, front[a])
    &&& forall|a: int, b: int| 0 <= a < b < front.len() ==> walks_before(g, #[trigger] front[a], #[trigger] front[b])
    &&& forall|x: int| #[trigger] reach_in(g, start, x, d) && (d > 0 ==> !within(g, start, x, (d - 1) as nat)) ==> listed(ends(front), x)
}

/// The walk over front walk `a` to a node not reached yet is the first one.
proof fn lemma_discover(g: Seq<Seq<usize>>, start: int, d: nat, marks: Seq<bool>, front: Seq<Seq<usize>>, a: int, y: usize)
    requires
        paths_ok(g, start, d, marks, front),
        0 <= a < front.len(),
        edge(g, front[a].last() as int, y as int),
        !within(g, start, y as int, d),
        forall|b: int| 0 <= b < a ==> !edge(g, (#[trigger] front[b]).last() as int, y as int),
    ensures
        is_first_walk(g, start, y as int, front[a].push(y)),
{
    let p = front[a].push(y);
    lemma_walk_extend(g, start, front[a].last() as int, front[a], y);
    assert forall|q: Seq<usize>| q.len() == p.len() && #[trigger] is_walk(g, start, y as int, q) implies q == p || walks_before(g, p, q) by {
        let s = q.drop_last();
        let x = q[q.len() - 2] as int;
        lemma_walk_shorten(g, start, y as int, q);
        lemma_walk_reaches(g, start, x, s);
        assert(q =~= s.push(y));
        assert(s.len() == d + 1);
        if d > 0 && within(g, start, x, (d - 1) as nat) {
            let n = choose|n: nat| n <= d - 1 && #[trigger] reach_in(g, start, x, n);
            lemma_one_more(g, start, x, y as int, n);
            assert(within(g, start, y as int, d));
        }
        assert(listed(ends(front), x));
        let b = choose|b: int| 0 <= b < ends(front).len() && #[trigger] ends(front)[b] == x;
        assert(front[b].last() == x);
        assert(b >= a);
        assert(is_walk(g, start, front[b].last() as int, s));
        if b == a {
            if s != front[a] {
                lemma_before_extends(g, front[a], s, y, y);
            }
        } else {
            assert(walks_before(g, front[a], front[b]));
            if s != front[b] {
                lemma_before_joins(g, front[a], front[b], s);
            }
            lemma_before_extends(g, front[a], s, y, y);
        }
    }
}

/// What is known inside a round: `next` holds the walks found so far, walk `m`
/// over front walk `src[m]`; front walks before `a` are used up, and of walk
/// `a` the first `k` successors.
spec fn round_ok(g: Seq<Seq<usize>>, start: int, d: nat, m0: Seq<bool>, front: Seq<Seq<usize>>, marks: Seq<bool>, next: Seq<Seq<usize>>, src: Seq<int>, a: int, k: int) -> bool {
    &&& marks.len() == g.len()
    &&& forall|x: int| 0 <= x < g.len() && m0[x] ==> #[trigger] marks[x]
    &&& forall|x: int| 0 <= x < g.len() && #[trigger] marks[x] ==> m0[x] || listed(ends(next), x)
    &&& forall|b: int, y: int| 0 <= b < a && #[trigger] edge(g, front[b].last() as int, y) ==> marks[y]
    &&& a < front.len() ==> forall|j: int| 0 <= j < k ==> marks[#[trigger] g[front[a].last() as int][j] as int]
    &&& src.len() == next.len()
    &&& forall|m: int| 0 <= m < next.len() ==> {
        &&& 0 <= #[trigger] src[m] <= a
        &&& src[m] < front.len()
        &&& next[m].len() == d + 2
        &&& next[m].last() < g.len()
        &&& marks[next[m].last() as int]
        &&& within(g, start, next[m].last() as int, d + 1)
        &&& is_first_walk(g, start, next[m].last() as int, next[m])
        &&& next[m].drop_last() == front[src[m]]
        &&& src[m] == a ==> exists|j: int| 0 <= j < k && #[trigger] g[front[a].last() as int][j] == next[m].last()
    }
    &&& forall|l: int, m: int| 0 <= l < m < next.len() ==> walks_before(g, #[trigger] next[l], #[trigger] next[m])
    &&& next.len() == 0 ==> marks == m0
    &&& next.len() > 0 ==> unmarked(marks) < unmarked(m0)
}

proof fn lemma_round_skip(g: Seq<Seq<usize>>, start: int, d: nat, m0: Seq<bool>, front: Seq<Seq<usize>>, marks: Seq<bool>, next: Seq<Seq<usize>>, src: Seq<int>, a: int, k: int)
    requires
        round_ok(g, start, d, m0, front, marks, next, src, a, k),
        0 <= a < front.len(),
        0 <= k < g[front[a].last() as int].len(),
        marks[g[front[a].last() as int][k] as int],
    ensures
        round_ok(g, start, d, m0, front, marks, next, src, a, k + 1),
{
    assert forall|m: int| 0 <= m < next.len() && #[trigger] src[m] == a implies exists|j: int| 0 <= j < k + 1 && #[trigger] g[front[a].last() as int][j] == next[m].last() by {
        let j = choose|j: int| 0 <= j < k && #[trigger] g[front[a].last() as int][j] == next[m].last();
        assert(0 <= j < k + 1 && g[front[a].last() as int][j] == next[m].last());
    }
}

proof fn lemma_round_find(g: Seq<Seq<usize>>, start: int, d: nat, m0: Seq<bool>, front: Seq<Seq<usize>>, marks: Seq<bool>, next: Seq<Seq<usize>>, src: Seq<int>, a: int, k: int, y: usize)
    requires
        graph_ok(g),
        paths_ok(g, start, d, m0, front),
        round_ok(g, start, d, m0, front, marks, next, src, a, k),
        0 <= a < front.len(),
        front[a].last() < g.len(),
        0 <= k < g[front[a].last() as int].len(),
        y == g[front[a].last() as int][k],
        !marks[y as int],
    ensures
        is_first_walk(g, start, y as int, front[a].push(y)),
        !within(g, start, y as int, d),
        round_ok(g, start, d, m0, front, marks.update(y as int, true), next.push(front[a].push(y)), src.push(a), a, k + 1),
{
    let u = front[a].last() as int;
    let p = front[a].push(y);
    assert(y < g.len());
    assert(edge(g, u, y as int));
    assert(!m0[y as int]);
    assert(!within(g, start, y as int, d));
    assert forall|b: int| 0 <= b < a implies !edge(g, (#[trigger] front[b]).last() as int, y as int) by {}
    lemma_discover(g, start, d, m0, front, a, y);
    lemma_mark_one(marks, y as int);
    assert(ends(front)[a] == u);
    assert(m0[u]);
    let n = choose|n: nat| n <= d && #[trigger] reach_in(g, start, u, n);
    lemma_one_more(g, start, u, y as int, n);
    assert(n + 1 <= d + 1 && reach_in(g, start, y as int, n + 1));
    let marks1 = marks.update(y as int, true);
    let next1 = next.push(p);
    let src1 = src.push(a);
    assert(ends(next1) =~= ends(next).push(y));
    assert forall|x: int| 0 <= x < g.len() && #[trigger] marks1[x] implies m0[x] || listed(ends(next1), x) by {
        if x == y {
            assert(ends(next1)[next.len() as int] == x);
        } else if !m0[x] {
            assert(marks[x]);
            let i = choose|i: int| 0 <= i < ends(next).len() && #[trigger] ends(next)[i] == x;
            assert(ends(next1)[i] == x);
        }
    }
    assert forall|m: int| 0 <= m < next1.len() implies {
        &&& 0 <= #[trigger] src1[m] <= a
        &&& src1[m] < front.len()
        &&& next1[m].len() == d + 2
        &&& next1[m].last() < g.len()
        &&& marks1[next1[m].last() as int]
        &&& within(g, start, next1[m].last() as int, d + 1)
        &&& is_first_walk(g, start, next1[m].last() as int, next1[m])
        &&& next1[m].drop_last() == front[src1[m]]
        &&& src1[m] == a ==> exists|j: int| 0 <= j < k + 1 && #[trigger] g[front[a].last() as int][j] == next1[m].last()
    } by {
        if m < next.len() {
            assert(src[m] == src1[m] && next[m] == next1[m]);
            if src[m] == a {
                let j = choose|j: int| 0 <= j < k && #[trigger] g[front[a].last() as int][j] == next[m].last();
                assert(0 <= j < k + 1 && g[front[a].last() as int][j] == next1[m].last());
            }
        } else {
            assert(next1[m].drop_last() =~= front[a]);
            assert(g[front[a].last() as int][k] == next1[m].last());
        }
    }
    assert forall|l: int, m: int| 0 <= l < m < next1.len() implies walks_before(g, #[trigger] next1[l], #[trigger] next1[m]) by {
        if m == next.len() {
            assert(src[l] <= a);
            let x = next[l].last();
            assert(next[l] =~= front[src[l]].push(x)) by {
                assert(next[l] =~= next[l].drop_last().push(x));
            }
            if src[l] < a {
                assert(walks_before(g, front[src[l]], front[a]));
                lemma_before_extends(g, front[src[l]], front[a], x, y);
            } else {
                let j = choose|j: int| 0 <= j < k && #[trigger] g[u][j] == x;
                assert(g[u][j] == x && forall|i: int| 0 <= i <= j ==> #[trigger] g[u][i] != y) by {
                    assert forall|i: int| 0 <= i <= j implies #[trigger] g[u][i] != y by {
                        assert(marks[g[u][i] as int]);
                    }
                }
                assert(comes_first(g[u], x, y));
                assert(next1[l].take(d as int + 1) =~= p.take(d as int + 1));
                assert(next1[l][d as int] == u);
            }
        } else {
            assert(walks_before(g, next[l], next[m]));
        }
    }
}

proof fn lemma_round_done(g: Seq<Seq<usize>>, start: int, d: nat, m0: Seq<bool>, front: Seq<Seq<usize>>, marks: Seq<bool>, next: Seq<Seq<usize>>, src: Seq<int>)
    requires
        graph_ok(g),
        0 <= start < g.len(),
        paths_ok(g, start, d, m0, front),
        round_ok(g, start, d, m0, front, marks, next, src, front.len() as int, 0),
    ensures
        paths_ok(g, start, d + 1, marks, next),
{
    assert forall|k: int| 0 <= k < ends(next).len() implies (#[trigger] ends(next)[k]) < g.len() && marks[ends(next)[k] as int] && within(g, start, ends(next)[k] as int, d + 1) by {
        assert(src[k] < front.len());
    }
    assert forall|k: int, y: int| 0 <= k < ends(front).len() && #[trigger] edge(g, ends(front)[k] as int, y) implies marks[y] by {
        assert(edge(g, front[k].last() as int, y));
    }
    lemma_front_step(g, start, d, m0, ends(front), marks, ends(next));
    assert forall|a: int| 0 <= a < next.len() implies (#[trigger] next[a]).len() == d + 1 + 1 && is_first_walk(g, start, next[a].last() as int, next[a]) by {
        assert(src[a] < front.len());
    }
    assert forall|x: int| #[trigger] reach_in(g, start, x, d + 1) && !within(g, start, x, d) implies listed(ends(next), x) by {
        let w = lemma_last_step(g, start, x, d);
        let i = choose|i: int| 0 <= i < g[w].len() && (#[trigger] g[w][i]) == x;
        assert(within(g, start, x, d + 1));
        assert(marks[x]);
    }
    assert((d + 1 - 1) as nat == d);
}

/// The walk and one step more.
fn extend(path: &Vec<usize>, w: usize) -> (r: Vec<usize>)
    ensures
        r@ == path@.push(w),
{
    let mut out: Vec<usize> = Vec::new();
    for i in 0..path.len()
        invariant
            out@ == path@.take(i as int),
    {
        out.push(path[i]);
        assert(out@ =~= path@.take(i + 1));
    }
    assert(path@.take(path@.len() as int) =~= path@);
    out.push(w);
    out
}

/// The first of the shortest walks from `from` to `to`, where there is one.
pub fn shortest_walk(adj: &Vec<Vec<usize>>, from: usize, to: usize) -> (r: Option<Vec<usize>>)
    requires
        graph_ok(arcs(adj@)),
        from < adj@.len(),
        to < adj@.len(),
    ensures
        match r {
            Some(p) => is_shortest_walk(arcs(adj@), from as int, to as int, p@),
            None => !reaches(arcs(adj@), from as int, to as int),
        },
{
    let ghost g = arcs(adj@);
    let ghost s = from as int;
    let mut first: Vec<usize> = Vec::new();
    first.push(from);
    proof {
        assert forall|q: Seq<usize>| q.len() == 1 && #[trigger] is_walk(g, s, s, q) implies q == first@ by {
            assert(q =~= first@);
        }
        assert(is_first_walk(g, s, s, first@));
    }
    if from == to {
        return Some(first);
    }
    let n: usize = adj.len();
    let mut marks: Vec<bool> = Vec::new();
    for i in 0..n
        invariant
            marks@.len() == i,
            forall|k: int| 0 <= k < i ==> !(#[trigger] marks@[k]),
    {
        marks.push(false);
    }
    marks.set(from, true);
    let mut front: Vec<Vec<usize>> = Vec::new();
    front.push(first);
    let ghost mut d: nat = 0;
    proof {
        let fv = arcs(front@);
        assert(fv[0] == first@);
        assert(ends(fv)[0] == from);
        assert(reach_in(g, s, s, 0));
        assert forall|x: int| 0 <= x < g.len() implies (#[trigger] marks@[x] <==> within(g, s, x, 0)) by {
            if x == s {
                assert(0 <= 0 && reach_in(g, s, x, 0));
            }
        }
        assert(front_ok(g, s, 0, marks@, ends(fv)));
        assert(paths_ok(g, s, 0, marks@, fv));
    }
    while front.len() > 0
        invariant
            g == arcs(adj@),
            graph_ok(g),
            s == from,
            from < g.len(),
            to < g.len(),
            !marks@[to as int],
            paths_ok(g, s, d, marks@, arcs(front@)),
        decreases unmarked(marks@), front@.len(),
    {
        let ghost m0 = marks@;
        let ghost fv = arcs(front@);
        let mut next: Vec<Vec<usize>> = Vec::new();
        let ghost mut src: Seq<int> = Seq::empty();
        for a in 0..front.len()
            invariant
                g == arcs(adj@),
                graph_ok(g),
                s == from,
                from < g.len(),
                to < g.len(),
                !marks@[to as int],
                fv == arcs(front@),
                paths_ok(g, s, d, m0, fv),
                round_ok(g, s, d, m0, fv, marks@, arcs(next@), src, a as int, 0),
        {
            assert(fv[a as int] == front@[a as int]@);
            assert(ends(fv)[a as int] == fv[a as int].last());
            let u: usize = front[a][front[a].len() - 1];
            let degree: usize = adj[u].len();
            for k in 0..degree
                invariant
                    g == arcs(adj@),
                    graph_ok(g),
                    s == from,
                    from < g.len(),
                    to < g.len(),
                    !marks@[to as int],
                    fv == arcs(front@),
                    paths_ok(g, s, d, m0, fv),
                    a < fv.len(),
                    fv[a as int].len() > 0,
                    u == fv[a as int].last(),
                    u < g.len(),
                    degree == g[u as int].len(),
                    round_ok(g, s, d, m0, fv, marks@, arcs(next@), src, a as int, k as int),
            {
                let w: usize = adj[u][k];
                assert(w == g[u as int][k as int]);
                if w == to {
                    let full = extend(&front[a], w);
                    proof {
                        lemma_round_find(g, s, d, m0, fv, marks@, arcs(next@), src, a as int, k as int, w);
                        assert forall|q: Seq<usize>| #[trigger] is_walk(g, s, to as int, q) implies full@.len() <= q.len() by {
                            lemma_walk_reaches(g, s, to as int, q);
                            if q.len() < full@.len() {
                                assert(within(g, s, to as int, d));
                            }
                        }
                    }
                    return Some(full);
                }
                if !marks[w] {
                    let path = extend(&front[a], w);
                    let ghost before = arcs(next@);
                    proof {
                        lemma_round_find(g, s, d, m0, fv, marks@, before, src, a as int, k as int, w);
                    }
                    marks.set(w, true);
                    next.push(path);
                    proof {
                        assert(arcs(next@) =~= before.push(fv[a as int].push(w)));
                        src = src.push(a as int);
                    }
                } else {
                    proof {
                        lemma_round_skip(g, s, d, m0, fv, marks@, arcs(next@), src, a as int, k as int);
                    }
                }
            }
            proof {
                let nv = arcs(next@);
                assert forall|b: int, y: int| 0 <= b < a + 1 && #[trigger] edge(g, fv[b].last() as int, y) implies marks@[y] by {
                    if b == a {
                        let j = choose|j: int| 0 <= j < g[u as int].len() && (#[trigger] g[u as int][j]) == y;
                        assert(marks@[g[fv[a as int].last() as int][j] as int]);
                    }
                }
                assert(round_ok(g, s, d, m0, fv, marks@, nv, src, a + 1, 0));
            }
        }
        proof {
            lemma_round_done(g, s, d, m0, fv, marks@, arcs(next@), src);
            d = d + 1;
        }
        front = next;
    }
    proof {
        if reaches(g, s, to as int) {
            let inside = |y: int| 0 <= y < g.len() && marks@[y];
            assert(reach_in(g, s, s, 0));
            assert(within(g, s, s, d));
            assert(inside(s));
            let r = lemma_reaches_leaves(g, inside, s, to as int);
            let i = choose|i: int| 0 <= i < g[r.0].len() && (#[trigger] g[r.0][i]) == r.1;
            assert(ends(arcs(front@)).len() == 0);
            assert(!listed(ends(arcs(front@)), r.0));
            assert(marks@[r.1]);
        }
    }
    None
}

}
