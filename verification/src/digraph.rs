//! Directed graphs on the numbers below a bound: reachability and strongly
//! connected components.

use vstd::prelude::*;

verus! {

/// Every listed successor is a node.
pub open spec fn graph_ok(g: Seq<Seq<usize>>) -> bool {
    forall|u: int, k: int| 0 <= u < g.len() && 0 <= k < g[u].len() ==> (#[trigger] g[u][k]) < g.len()
}

/// The successor lists as values.
pub open spec fn arcs(adj: Seq<Vec<usize>>) -> Seq<Seq<usize>> {
    adj.map_values(|v: Vec<usize>| v@)
}

/// `v` is listed as a successor of `u`.
pub open spec fn edge(g: Seq<Seq<usize>>, u: int, v: int) -> bool {
    0 <= u < g.len() && exists|k: int| 0 <= k < g[u].len() && (#[trigger] g[u][k]) == v
}

/// `v` can be reached from `u` in exactly `n` steps.
pub open spec fn reach_in(g: Seq<Seq<usize>>, u: int, v: int, n: nat) -> bool
    decreases n,
{
    if n == 0 {
        u == v
    } else {
        exists|w: int| #[trigger] edge(g, u, w) && reach_in(g, w, v, (n - 1) as nat)
    }
}

/// `v` can be reached from `u`, in any number of steps.
#[verifier::opaque]
pub open spec fn reaches(g: Seq<Seq<usize>>, u: int, v: int) -> bool {
    exists|n: nat| reach_in(g, u, v, n)
}

/// Each of the two can be reached from the other.
pub open spec fn mutual(g: Seq<Seq<usize>>, u: int, v: int) -> bool {
    reaches(g, u, v) && reaches(g, v, u)
}

pub proof fn lemma_reaches_self(g: Seq<Seq<usize>>, u: int)
    ensures
        reaches(g, u, u),
{
    reveal(reaches);
    assert(reach_in(g, u, u, 0));
}

pub proof fn lemma_reaches_edge(g: Seq<Seq<usize>>, u: int, v: int)
    requires
        edge(g, u, v),
    ensures
        reaches(g, u, v),
{
    reveal(reaches);
    assert(reach_in(g, v, v, 0));
    assert(reach_in(g, u, v, 1));
}

pub proof fn lemma_reach_in_joins(g: Seq<Seq<usize>>, u: int, v: int, w: int, n: nat, m: nat)
    requires
        reach_in(g, u, v, n),
        reach_in(g, v, w, m),
    ensures
        reach_in(g, u, w, n + m),
    decreases n,
{
    if n > 0 {
        let x = choose|x: int| #[trigger] edge(g, u, x) && reach_in(g, x, v, (n - 1) as nat);
        lemma_reach_in_joins(g, x, v, w, (n - 1) as nat, m);
        assert((n + m - 1) as nat == (n - 1) as nat + m);
        assert(edge(g, u, x) && reach_in(g, x, w, (n + m - 1) as nat));
    }
}

pub proof fn lemma_reaches_joins(g: Seq<Seq<usize>>, u: int, v: int, w: int)
    requires
        reaches(g, u, v),
        reaches(g, v, w),
    ensures
        reaches(g, u, w),
{
    reveal(reaches);
    let n = choose|n: nat| reach_in(g, u, v, n);
    let m = choose|m: nat| reach_in(g, v, w, m);
    lemma_reach_in_joins(g, u, v, w, n, m);
}

/// A walk that starts inside a set and ends outside it leaves it by an edge.
pub proof fn lemma_walk_leaves(g: Seq<Seq<usize>>, inside: spec_fn(int) -> bool, u: int, v: int, n: nat) -> (r: (int, int))
    requires
        reach_in(g, u, v, n),
        inside(u),
        !inside(v),
    ensures
        inside(r.0),
        !inside(r.1),
        edge(g, r.0, r.1),
        reaches(g, u, r.0),
        reaches(g, r.1, v),
    decreases n,
{
    reveal(reaches);
    assert(n > 0);
    let x = choose|x: int| #[trigger] edge(g, u, x) && reach_in(g, x, v, (n - 1) as nat);
    if inside(x) {
        let r = lemma_walk_leaves(g, inside, x, v, (n - 1) as nat);
        lemma_reaches_edge(g, u, x);
        lemma_reaches_joins(g, u, x, r.0);
        r
    } else {
        lemma_reaches_self(g, u);
        assert(reaches(g, x, v));
        (u, x)
    }
}

pub proof fn lemma_reaches_leaves(g: Seq<Seq<usize>>, inside: spec_fn(int) -> bool, u: int, v: int) -> (r: (int, int))
    requires
        reaches(g, u, v),
        inside(u),
        !inside(v),
    ensures
        inside(r.0),
        !inside(r.1),
        edge(g, r.0, r.1),
        reaches(g, u, r.0),
        reaches(g, r.1, v),
{
    reveal(reaches);
    let n = choose|n: nat| reach_in(g, u, v, n);
    lemma_walk_leaves(g, inside, u, v, n)
}

/// Number `k` of group `c` is `x`.
pub open spec fn placed(groups: Seq<Seq<usize>>, x: int, c: int, k: int) -> bool {
    0 <= c < groups.len() && 0 <= k < groups[c].len() && groups[c][k] == x
}

/// The groups are the strongly connected components of what the roots reach:
/// none is empty, each node reached from a root stands in exactly one place,
/// two nodes share a group if and only if each reaches the other, edges lead
/// into the same group or an earlier one, and what the first roots reach comes
/// before everything else.
pub open spec fn is_component_list(g: Seq<Seq<usize>>, roots: Seq<usize>, groups: Seq<Seq<usize>>) -> bool {
    &&& forall|c: int| 0 <= c < groups.len() ==> (#[trigger] groups[c]).len() > 0
    &&& forall|x: int, c: int, k: int| #[trigger] placed(groups, x, c, k) ==> 0 <= x < g.len() && reached(g, roots, x)
    &&& forall|x: int| #[trigger] reached(g, roots, x) ==> exists|c: int, k: int| placed(groups, x, c, k)
    &&& forall|x: int, c: int, k: int, d: int, l: int| #[trigger] placed(groups, x, c, k) && #[trigger] placed(groups, x, d, l) ==> c == d && k == l
    &&& forall|x: int, y: int, c: int, k: int, d: int, l: int| #[trigger] placed(groups, x, c, k) && #[trigger] placed(groups, y, d, l) ==> (c == d <==> mutual(g, x, y))
    &&& forall|x: int, y: int, c: int, k: int, d: int, l: int| #[trigger] placed(groups, x, c, k) && #[trigger] placed(groups, y, d, l) && edge(g, x, y) ==> d <= c
    &&& forall|x: int, y: int, c: int, k: int, d: int, l: int, i: int| #[trigger] placed(groups, x, c, k) && #[trigger] placed(groups, y, d, l)
        && 0 <= i <= roots.len() && #[trigger] reached(g, roots.take(i), x) && !reached(g, roots.take(i), y) ==> c < d
}

/// One of the roots reaches `x`.
pub open spec fn reached(g: Seq<Seq<usize>>, roots: Seq<usize>, x: int) -> bool {
    exists|r: int| 0 <= r < roots.len() && reaches(g, #[trigger] roots[r] as int, x)
}

/// How many of the entries are still empty.
spec fn unvisited(index: Seq<Option<usize>>) -> nat
    decreases index.len(),
{
    if index.len() == 0 {
        0
    } else {
        unvisited(index.drop_last()) + (if index.last() is None {
            1nat
        } else {
            0nat
        })
    }
}

proof fn lemma_visit_one(index: Seq<Option<usize>>, v: int, k: usize)
    requires
        0 <= v < index.len(),
        index[v] is None,
    ensures
        unvisited(index.update(v, Some(k))) + 1 == unvisited(index),
    decreases index.len(),
{
    let after = index.update(v, Some(k));
    if v == index.len() - 1 {
        assert(after.drop_last() =~= index.drop_last());
    } else {
        assert(after.drop_last() =~= index.drop_last().update(v, Some(k)));
        lemma_visit_one(index.drop_last(), v, k);
    }
}

proof fn lemma_all_unvisited(index: Seq<Option<usize>>)
    requires
        forall|x: int| 0 <= x < index.len() ==> index[x] is None,
    ensures
        unvisited(index) == index.len(),
    decreases index.len(),
{
    if index.len() > 0 {
        lemma_all_unvisited(index.drop_last());
    }
}

/// The state of a depth-first search for strongly connected components: the
/// number each visited node got, the nodes whose component is still open, and
/// the components found.
struct Search {
    index: Vec<Option<usize>>,
    on_stack: Vec<bool>,
    stack: Vec<usize>,
    next: usize,
    sccs: Vec<Vec<usize>>,
}

struct SearchView {
    index: Seq<Option<usize>>,
    on_stack: Seq<bool>,
    stack: Seq<usize>,
    next: nat,
    sccs: Seq<Seq<usize>>,
}

impl View for Search {
    type V = SearchView;

    closed spec fn view(&self) -> SearchView {
        SearchView {
            index: self.index@,
            on_stack: self.on_stack@,
            stack: self.stack@,
            next: self.next as nat,
            sccs: arcs(self.sccs@),
        }
    }
}

impl SearchView {
    spec fn visited(self, x: int) -> bool {
        0 <= x < self.index.len() && self.index[x] is Some
    }

    spec fn num(self, x: int) -> int {
        self.index[x]->0 as int
    }

    spec fn open(self, x: int) -> bool {
        0 <= x < self.on_stack.len() && self.on_stack[x]
    }

    spec fn stacked(self, x: int) -> bool {
        exists|i: int| 0 <= i < self.stack.len() && #[trigger] self.stack[i] == x
    }

    spec fn done(self, x: int) -> bool {
        self.visited(x) && !self.open(x)
    }

    spec fn shape(self, g: Seq<Seq<usize>>) -> bool {
        &&& self.index.len() == g.len()
        &&& self.on_stack.len() == g.len()
        &&& self.next + unvisited(self.index) == g.len()
        &&& forall|x: int| #[trigger] self.visited(x) ==> self.num(x) < self.next
        &&& forall|i: int| 0 <= i < self.stack.len() ==> self.open(#[trigger] self.stack[i] as int)
        &&& forall|i: int, j: int| 0 <= i < j < self.stack.len() ==>
            self.num(#[trigger] self.stack[i] as int) < self.num(#[trigger] self.stack[j] as int)
        &&& forall|x: int| #[trigger] self.open(x) ==> self.visited(x) && self.stacked(x)
    }

    spec fn linked(self, g: Seq<Seq<usize>>, active: Set<int>) -> bool {
        &&& forall|x: int| #[trigger] active.contains(x) ==> self.open(x)
        &&& forall|x: int, y: int| self.visited(x) && !active.contains(x) && #[trigger] edge(g, x, y) ==> self.visited(y)
        &&& forall|x: int| #[trigger] self.open(x) ==> self.anchored(g, active, x)
        &&& forall|x: int, y: int| #[trigger] self.open(x) && #[trigger] self.open(y) && self.num(x) <= self.num(y) ==> reaches(g, x, y)
        &&& forall|x: int, y: int| self.done(x) && #[trigger] edge(g, x, y) ==> self.done(y)
    }

    #[verifier::opaque]
    spec fn anchored(self, g: Seq<Seq<usize>>, active: Set<int>, x: int) -> bool {
        exists|a: int| active.contains(a) && self.num(a) <= self.num(x) && #[trigger] reaches(g, x, a)
    }

    spec fn listed(self, g: Seq<Seq<usize>>) -> bool {
        &&& forall|x: int, c: int, k: int| #[trigger] placed(self.sccs, x, c, k) ==> self.done(x)
        &&& forall|x: int| #[trigger] self.done(x) ==> exists|c: int, k: int| placed(self.sccs, x, c, k)
        &&& forall|x: int, c: int, k: int, d: int, l: int| #[trigger] placed(self.sccs, x, c, k) && #[trigger] placed(self.sccs, x, d, l) ==> c == d && k == l
        &&& forall|x: int, y: int, c: int, k: int, d: int, l: int| #[trigger] placed(self.sccs, x, c, k) && #[trigger] placed(self.sccs, y, d, l) ==> (c == d <==> mutual(g, x, y))
        &&& forall|x: int, y: int, c: int, k: int, d: int, l: int| #[trigger] placed(self.sccs, x, c, k) && #[trigger] placed(self.sccs, y, d, l) && edge(g, x, y) ==> d <= c
        &&& forall|c: int| 0 <= c < self.sccs.len() ==> (#[trigger] self.sccs[c]).len() > 0
    }

    spec fn inv(self, g: Seq<Seq<usize>>, active: Set<int>) -> bool {
        self.shape(g) && self.linked(g, active) && self.listed(g)
    }
}

/// The state after `v` got the next number and was put on the stack.
spec fn entered(st: SearchView, v: int) -> SearchView {
    SearchView {
        index: st.index.update(v, Some(st.next as usize)),
        on_stack: st.on_stack.update(v, true),
        stack: st.stack.push(v as usize),
        next: st.next + 1,
        sccs: st.sccs,
    }
}

proof fn lemma_enter(g: Seq<Seq<usize>>, st: SearchView, active: Set<int>, v: int)
    requires
        st.inv(g, active),
        0 <= v < g.len(),
        g.len() <= usize::MAX,
        st.next < g.len(),
        !st.visited(v),
        forall|x: int| active.contains(x) ==> reaches(g, x, v),
    ensures
        entered(st, v).inv(g, active.insert(v)),
        unvisited(entered(st, v).index) + 1 == unvisited(st.index),
{
    let after = entered(st, v);
    let now = active.insert(v);
    lemma_visit_one(st.index, v, st.next as usize);
    assert(!st.open(v));
    assert forall|x: int| #[trigger] after.visited(x) implies (x == v || st.visited(x)) by {}
    assert forall|x: int| #[trigger] after.open(x) implies (x == v || st.open(x)) by {}
    assert forall|x: int| x != v implies after.done(x) == st.done(x) by {}
    assert forall|x: int| st.open(x) implies x != v && after.num(x) == st.num(x) by {}
    assert(after.shape(g)) by {
        assert forall|x: int| #[trigger] after.open(x) implies after.visited(x) && after.stacked(x) by {
            if x == v {
                assert(after.stack[st.stack.len() as int] == v);
            } else {
                assert(st.open(x));
                let i = choose|i: int| 0 <= i < st.stack.len() && st.stack[i] == x;
                assert(after.stack[i] == x);
            }
        }
        assert forall|i: int| 0 <= i < after.stack.len() implies after.open(#[trigger] after.stack[i] as int) by {
            if i < st.stack.len() {
                assert(st.open(st.stack[i] as int));
            }
        }
        assert forall|i: int, j: int| 0 <= i < j < after.stack.len() implies
            after.num(#[trigger] after.stack[i] as int) < after.num(#[trigger] after.stack[j] as int) by {
            assert(st.open(st.stack[i] as int));
            if j < st.stack.len() {
                assert(st.open(st.stack[j] as int));
            }
        }
    }
    assert(after.linked(g, now)) by {
        lemma_reaches_self(g, v);
        assert forall|x: int| #[trigger] after.open(x) implies after.anchored(g, now, x) by {
                reveal(SearchView::anchored);
            if x == v {
                assert(reaches(g, x, v));
            } else {
                let a = choose|a: int| active.contains(a) && st.num(a) <= st.num(x) && #[trigger] reaches(g, x, a);
                assert(st.open(a));
                assert(now.contains(a) && after.num(a) <= after.num(x) && reaches(g, x, a));
            }
        }
        assert forall|x: int, y: int| #[trigger] after.open(x) && #[trigger] after.open(y) && after.num(x) <= after.num(y) implies reaches(g, x, y) by {
            if x != v && y == v {
                reveal(SearchView::anchored);
                let a = choose|a: int| active.contains(a) && st.num(a) <= st.num(x) && #[trigger] reaches(g, x, a);
                lemma_reaches_joins(g, x, a, v);
            }
        }
        assert forall|x: int, y: int| after.done(x) && #[trigger] edge(g, x, y) implies after.done(y) by {
            assert(st.done(x));
            assert(st.done(y));
        }
    }
    assert(after.listed(g)) by {
        assert forall|x: int, c: int, k: int| placed(after.sccs, x, c, k) == placed(st.sccs, x, c, k) by {}
        assert forall|x: int| #[trigger] after.done(x) implies exists|c: int, k: int| placed(after.sccs, x, c, k) by {
            assert(st.done(x));
            let (c, k) = choose|c: int, k: int| placed(st.sccs, x, c, k);
            assert(placed(after.sccs, x, c, k));
        }
    }
}

/// A finished node that reaches an older open one stays open.
#[verifier::spinoff_prover]
proof fn lemma_leave_open(g: Seq<Seq<usize>>, st: SearchView, active: Set<int>, v: int, w: int)
    requires
        st.inv(g, active.insert(v)),
        forall|y: int| #[trigger] edge(g, v, y) ==> st.visited(y),
        st.open(w),
        st.num(w) < st.num(v),
        reaches(g, v, w),
    ensures
        st.inv(g, active),
{
    let before = active.insert(v);
    assert forall|x: int| #[trigger] active.contains(x) implies st.open(x) by {
        assert(before.contains(x));
    }
    assert forall|x: int| #[trigger] st.open(x) implies st.anchored(g, active, x) by {
        reveal(SearchView::anchored);
        let a = choose|a: int| before.contains(a) && st.num(a) <= st.num(x) && #[trigger] reaches(g, x, a);
        if a == v {
            assert(st.anchored(g, before, w));
            let b = choose|b: int| before.contains(b) && st.num(b) <= st.num(w) && #[trigger] reaches(g, w, b);
            assert(b != v);
            lemma_reaches_joins(g, x, v, w);
            lemma_reaches_joins(g, x, w, b);
            assert(active.contains(b) && st.num(b) <= st.num(x) && reaches(g, x, b));
        } else {
            assert(active.contains(a) && st.num(a) <= st.num(x) && reaches(g, x, a));
        }
    }
}

proof fn lemma_done_stays(g: Seq<Seq<usize>>, st: SearchView, active: Set<int>, x: int, y: int)
    requires
        st.linked(g, active),
        st.done(x),
        reaches(g, x, y),
    ensures
        st.done(y),
{
    if !st.done(y) {
        let r = lemma_reaches_leaves(g, |z: int| st.done(z), x, y);
        assert(st.done(r.1));
    }
}

/// The nodes on the stack from `v` upward.
spec fn segment(st: SearchView, v: int, x: int) -> bool {
    st.open(x) && st.num(x) >= st.num(v)
}

/// `v` can be closed: nothing from `v` upward leads to an older open node.
spec fn closable(g: Seq<Seq<usize>>, st: SearchView, active: Set<int>, v: int) -> bool {
    &&& st.inv(g, active.insert(v))
    &&& !active.contains(v)
    &&& forall|x: int| #[trigger] active.contains(x) ==> st.num(x) < st.num(v)
    &&& forall|y: int| #[trigger] edge(g, v, y) ==> st.visited(y)
    &&& forall|x: int, z: int| segment(st, v, x) && #[trigger] edge(g, x, z) && st.open(z) ==> st.num(z) >= st.num(v)
}

proof fn lemma_segment_reach(g: Seq<Seq<usize>>, st: SearchView, active: Set<int>, v: int, x: int, y: int)
    requires
        closable(g, st, active, v),
        segment(st, v, x),
        reaches(g, x, y),
    ensures
        segment(st, v, y) || st.done(y),
{
    if !segment(st, v, y) {
        let r = lemma_reaches_leaves(g, |z: int| segment(st, v, z), x, y);
        assert(r.0 == v || !active.insert(v).contains(r.0));
        assert(st.visited(r.1));
        assert(st.done(r.1));
        lemma_done_stays(g, st, active.insert(v), r.1, y);
    }
}

proof fn lemma_anchor(g: Seq<Seq<usize>>, st: SearchView, active: Set<int>, x: int) -> (a: int)
    requires
        st.anchored(g, active, x),
    ensures
        active.contains(a),
        st.num(a) <= st.num(x),
        reaches(g, x, a),
{
    reveal(SearchView::anchored);
    choose|a: int| active.contains(a) && st.num(a) <= st.num(x) && #[trigger] reaches(g, x, a)
}

proof fn lemma_segment_mutual(g: Seq<Seq<usize>>, st: SearchView, active: Set<int>, v: int, x: int)
    requires
        closable(g, st, active, v),
        segment(st, v, x),
    ensures
        mutual(g, v, x),
{
    let now = active.insert(v);
    assert(now.contains(v));
    assert(st.anchored(g, now, x));
    let a = lemma_anchor(g, st, now, x);
    if a != v {
        lemma_segment_reach(g, st, active, v, x, a);
        assert(st.open(a));
        assert(false);
    }
}

/// The state after the nodes from `v` upward became a component.
spec fn closed_at(st: SearchView, v: int, p: int, after: SearchView) -> bool {
    let comp = after.sccs.last();
    &&& after.index == st.index
    &&& after.next == st.next
    &&& after.stack == st.stack.take(p)
    &&& after.on_stack.len() == st.on_stack.len()
    &&& forall|x: int| #[trigger] after.open(x) <==> st.open(x) && st.num(x) < st.num(v)
    &&& after.sccs.len() == st.sccs.len() + 1
    &&& after.sccs.drop_last() == st.sccs
    &&& comp.len() == st.stack.len() - p
    &&& forall|k: int| 0 <= k < comp.len() ==> #[trigger] comp[k] == st.stack[st.stack.len() - 1 - k]
}

proof fn lemma_close_listed(g: Seq<Seq<usize>>, st: SearchView, active: Set<int>, v: int, p: int, after: SearchView)
    requires
        closable(g, st, active, v),
        0 <= p < st.stack.len(),
        st.stack[p] == v,
        closed_at(st, v, p, after),
    ensures
        after.listed(g),
{
    let m = st.sccs.len() as int;
    let comp = after.sccs.last();
    assert(st.open(v));
    assert forall|x: int, c: int, k: int| placed(after.sccs, x, c, k) && c < m implies placed(st.sccs, x, c, k) by {
        assert(after.sccs[c] == after.sccs.drop_last()[c]);
    }
    assert forall|x: int, c: int, k: int| placed(st.sccs, x, c, k) implies placed(after.sccs, x, c, k) && c < m by {
        assert(after.sccs[c] == after.sccs.drop_last()[c]);
    }
    assert forall|x: int, c: int, k: int| placed(after.sccs, x, c, k) && c >= m implies c == m && segment(st, v, x) && st.stack[st.stack.len() - 1 - k] == x by {
        assert(comp[k] == st.stack[st.stack.len() - 1 - k]);
        let i = st.stack.len() - 1 - k;
        assert(st.open(st.stack[i] as int));
        if i > p {
            assert(st.num(st.stack[p] as int) < st.num(st.stack[i] as int));
        }
    }
    assert forall|x: int| #[trigger] after.done(x) implies exists|c: int, k: int| placed(after.sccs, x, c, k) by {
        if st.done(x) {
            let (c, k) = choose|c: int, k: int| placed(st.sccs, x, c, k);
            assert(placed(after.sccs, x, c, k));
        } else {
            assert(st.open(x));
            assert(!after.open(x));
            let i = choose|i: int| 0 <= i < st.stack.len() && st.stack[i] == x;
            if i < p {
                assert(st.num(st.stack[i] as int) < st.num(st.stack[p] as int));
            }
            let k = st.stack.len() - 1 - i;
            assert(comp[k] == st.stack[st.stack.len() - 1 - k]);
            assert(placed(after.sccs, x, m, k));
        }
    }
    assert forall|x: int, c: int, k: int| #[trigger] placed(after.sccs, x, c, k) implies after.done(x) by {
        assert(!after.open(x)) by {
            if c < m {
                assert(placed(st.sccs, x, c, k));
                assert(st.done(x));
            }
        }
        if c < m {
            assert(placed(st.sccs, x, c, k));
        }
    }
    assert forall|x: int, c: int, k: int, d: int, l: int| #[trigger] placed(after.sccs, x, c, k) && #[trigger] placed(after.sccs, x, d, l) implies c == d && k == l by {
        if c < m {
            assert(st.done(x));
        }
        if d < m {
            assert(st.done(x));
        }
        if c == m && d == m {
            let i = st.stack.len() - 1 - k;
            let j = st.stack.len() - 1 - l;
            if i < j {
                assert(st.num(st.stack[i] as int) < st.num(st.stack[j] as int));
            }
            if j < i {
                assert(st.num(st.stack[j] as int) < st.num(st.stack[i] as int));
            }
        }
    }
    assert forall|x: int, y: int, c: int, k: int, d: int, l: int| #[trigger] placed(after.sccs, x, c, k) && #[trigger] placed(after.sccs, y, d, l) implies (c == d <==> mutual(g, x, y)) by {
        if c == m && d == m {
            lemma_segment_mutual(g, st, active, v, x);
            lemma_segment_mutual(g, st, active, v, y);
            lemma_reaches_joins(g, x, v, y);
            lemma_reaches_joins(g, y, v, x);
        } else if c == m {
            assert(placed(st.sccs, y, d, l));
            if reaches(g, y, x) {
                lemma_done_stays(g, st, active.insert(v), y, x);
            }
        } else if d == m {
            assert(placed(st.sccs, x, c, k));
            if reaches(g, x, y) {
                lemma_done_stays(g, st, active.insert(v), x, y);
            }
        } else {
            assert(placed(st.sccs, x, c, k) && placed(st.sccs, y, d, l));
        }
    }
    assert forall|x: int, y: int, c: int, k: int, d: int, l: int| #[trigger] placed(after.sccs, x, c, k) && #[trigger] placed(after.sccs, y, d, l) && edge(g, x, y) implies d <= c by {
        if c < m && d == m {
            assert(placed(st.sccs, x, c, k));
            assert(st.done(y));
        } else if c < m {
            assert(placed(st.sccs, x, c, k) && placed(st.sccs, y, d, l));
        }
    }
    assert forall|c: int| 0 <= c < after.sccs.len() implies (#[trigger] after.sccs[c]).len() > 0 by {
        if c < m {
            assert(after.sccs[c] == after.sccs.drop_last()[c]);
        }
    }
}

proof fn lemma_close(g: Seq<Seq<usize>>, st: SearchView, active: Set<int>, v: int, p: int, after: SearchView)
    requires
        closable(g, st, active, v),
        0 <= p < st.stack.len(),
        st.stack[p] == v,
        closed_at(st, v, p, after),
    ensures
        after.inv(g, active),
{
    lemma_close_listed(g, st, active, v, p, after);
    let now = active.insert(v);
    assert forall|x: int| st.visited(x) == after.visited(x) by {}
    assert forall|x: int| st.num(x) == after.num(x) by {}
    assert(after.shape(g)) by {
        assert forall|x: int| #[trigger] after.open(x) implies after.visited(x) && after.stacked(x) by {
            assert(st.open(x));
            let i = choose|i: int| 0 <= i < st.stack.len() && st.stack[i] == x;
            if i > p {
                assert(st.num(st.stack[p] as int) < st.num(st.stack[i] as int));
            }
            assert(after.stack[i] == x);
        }
        assert forall|i: int| 0 <= i < after.stack.len() implies after.open(#[trigger] after.stack[i] as int) by {
            assert(st.open(st.stack[i] as int));
            assert(st.num(st.stack[i] as int) < st.num(st.stack[p] as int));
        }
        assert forall|i: int, j: int| 0 <= i < j < after.stack.len() implies
            after.num(#[trigger] after.stack[i] as int) < after.num(#[trigger] after.stack[j] as int) by {
            assert(st.num(st.stack[i] as int) < st.num(st.stack[j] as int));
        }
    }
    assert forall|x: int, y: int| after.done(x) && #[trigger] edge(g, x, y) implies after.done(y) by {
        if st.done(x) {
            assert(st.done(y));
            assert(!after.open(y));
        } else {
            assert(segment(st, v, x));
            lemma_reaches_edge(g, x, y);
            lemma_segment_reach(g, st, active, v, x, y);
            assert(!after.open(y));
        }
    }
    assert forall|x: int| #[trigger] after.open(x) implies after.anchored(g, active, x) by {
        reveal(SearchView::anchored);
        assert(st.anchored(g, now, x));
        let a = choose|a: int| now.contains(a) && st.num(a) <= st.num(x) && #[trigger] reaches(g, x, a);
        assert(active.contains(a) && after.num(a) <= after.num(x) && reaches(g, x, a));
    }
    assert forall|x: int, y: int| after.visited(x) && !active.contains(x) && #[trigger] edge(g, x, y) implies after.visited(y) by {
        assert(x == v || !now.contains(x));
        assert(st.visited(y));
    }
    assert forall|x: int| #[trigger] active.contains(x) implies after.open(x) by {
        assert(now.contains(x));
        assert(st.open(x));
    }
    assert(after.linked(g, active));
}

/// What a visit leaves of the state it found: numbers and open nodes stay, the
/// stack and the component list only get longer, and what is new was not
/// visited before.
spec fn grew(before: SearchView, after: SearchView) -> bool {
    &&& forall|x: int| #[trigger] before.visited(x) ==> after.visited(x) && after.index[x] == before.index[x] && (after.open(x) <==> before.open(x))
    &&& forall|x: int| !before.visited(x) && #[trigger] after.visited(x) ==> after.num(x) >= before.next
    &&& before.stack.len() <= after.stack.len()
    &&& forall|i: int| 0 <= i < before.stack.len() ==> #[trigger] after.stack[i] == before.stack[i]
    &&& forall|i: int| before.stack.len() <= i < after.stack.len() ==> !before.visited(#[trigger] after.stack[i] as int)
    &&& before.sccs.len() <= after.sccs.len()
    &&& forall|c: int| 0 <= c < before.sccs.len() ==> #[trigger] after.sccs[c] == before.sccs[c]
    &&& before.next <= after.next
}

proof fn lemma_grew_joins(a: SearchView, b: SearchView, c: SearchView)
    requires
        grew(a, b),
        grew(b, c),
        a.next <= b.next,
    ensures
        grew(a, c),
{
    assert forall|x: int| !a.visited(x) && #[trigger] c.visited(x) implies c.num(x) >= a.next by {
        if b.visited(x) {
        }
    }
    assert forall|i: int| a.stack.len() <= i < c.stack.len() implies !a.visited(#[trigger] c.stack[i] as int) by {
        if i < b.stack.len() {
            assert(c.stack[i] == b.stack[i]);
        } else {
            assert(!b.visited(c.stack[i] as int));
        }
    }
    assert forall|i: int| 0 <= i < a.stack.len() implies #[trigger] c.stack[i] == a.stack[i] by {
        assert(c.stack[i] == b.stack[i]);
    }
    assert forall|i: int| 0 <= i < a.sccs.len() implies #[trigger] c.sccs[i] == a.sccs[i] by {
        assert(c.sccs[i] == b.sccs[i]);
    }
}

/// An open node with number `low` is reached from `v`.
spec fn low_link(g: Seq<Seq<usize>>, st: SearchView, v: int, low: int) -> bool {
    exists|w: int| #[trigger] st.open(w) && st.num(w) == low && reaches(g, v, w)
}

/// Every edge from the stack at or above `from` to a node that was open in
/// `before` leads to a number of at least `low`.
spec fn low_bound(g: Seq<Seq<usize>>, before: SearchView, st: SearchView, from: int, low: int) -> bool {
    forall|i: int, z: int| from <= i < st.stack.len() && #[trigger] edge(g, st.stack[i] as int, z) && before.open(z) ==> low <= st.num(z)
}

/// What is left to do on a depth-first walk: to come to a place, or to go from
/// it for good.
pub enum Step<A> {
    Enter(A),
    Leave(A),
}

/// How far a depth-first walk has come: what is left to do, the places in the
/// order in which it came to them, and in the order in which it left them.
#[verifier::ext_equal]
pub struct Walk<A> {
    pub todo: Seq<Step<A>>,
    pub pre: Seq<A>,
    pub post: Seq<A>,
}

/// To come to each of the places.
pub open spec fn enters<A>(places: Seq<A>) -> Seq<Step<A>> {
    places.map_values(|a: A| Step::Enter(a))
}

/// The walk after one step: from a place that is new, it goes first to what
/// that place leads to.
pub open spec fn stepped<A>(next: spec_fn(A) -> Seq<A>, w: Walk<A>) -> Walk<A> {
    if w.todo.len() == 0 {
        w
    } else {
        let rest = w.todo.skip(1);
        match w.todo[0] {
            Step::Leave(v) => Walk { todo: rest, pre: w.pre, post: w.post.push(v) },
            Step::Enter(v) => if w.pre.contains(v) {
                Walk { todo: rest, pre: w.pre, post: w.post }
            } else {
                Walk { todo: enters(next(v)) + (seq![Step::Leave(v)] + rest), pre: w.pre.push(v), post: w.post }
            },
        }
    }
}

/// The walk after so many steps.
pub open spec fn walked<A>(next: spec_fn(A) -> Seq<A>, w: Walk<A>, n: nat) -> Walk<A>
    decreases n,
{
    if n == 0 {
        w
    } else {
        walked(next, stepped(next, w), (n - 1) as nat)
    }
}

/// The walk comes from one state to the other.
#[verifier::opaque]
pub open spec fn walks_to<A>(next: spec_fn(A) -> Seq<A>, from: Walk<A>, to: Walk<A>) -> bool {
    exists|n: nat| #[trigger] walked(next, from, n) == to
}

/// The whole walk from the roots comes to the places in the order `pre`, and
/// leaves them in the order `post`.
pub open spec fn is_walk<A>(next: spec_fn(A) -> Seq<A>, roots: Seq<A>, pre: Seq<A>, post: Seq<A>) -> bool {
    walks_to(next, Walk { todo: enters(roots), pre: Seq::empty(), post: Seq::empty() }, Walk { todo: Seq::empty(), pre, post })
}

/// `a` stands before `b`.
pub open spec fn stands_before<A>(s: Seq<A>, a: A, b: A) -> bool {
    exists|i: int, j: int| 0 <= i < j < s.len() && #[trigger] s[i] == a && #[trigger] s[j] == b
}

/// Each group goes back in the order in which a walk comes to places, down to
/// the place that it came to first; the groups go in the order in which the
/// walk leaves those.
pub open spec fn goes_by<A>(groups: Seq<Seq<A>>, pre: Seq<A>, post: Seq<A>) -> bool {
    &&& forall|c: int, k: int, l: int| 0 <= c < groups.len() && 0 <= k < l < groups[c].len() ==> stands_before(pre, #[trigger] groups[c][l], #[trigger] groups[c][k])
    &&& forall|c: int, d: int| 0 <= c < d < groups.len() ==> stands_before(post, (#[trigger] groups[c]).last(), (#[trigger] groups[d]).last())
}

/// The groups go by the walk from the roots.
pub open spec fn is_in_walk_order<A>(next: spec_fn(A) -> Seq<A>, roots: Seq<A>, groups: Seq<Seq<A>>) -> bool {
    exists|pre: Seq<A>, post: Seq<A>| #[trigger] is_walk(next, roots, pre, post) && goes_by(groups, pre, post)
}

proof fn lemma_walked_joins<A>(next: spec_fn(A) -> Seq<A>, w: Walk<A>, n: nat, m: nat)
    ensures
        walked(next, walked(next, w, n), m) == walked(next, w, n + m),
    decreases n,
{
    if n > 0 {
        lemma_walked_joins(next, stepped(next, w), (n - 1) as nat, m);
    }
}

proof fn lemma_walks_join<A>(next: spec_fn(A) -> Seq<A>, a: Walk<A>, b: Walk<A>, c: Walk<A>)
    requires
        walks_to(next, a, b),
        walks_to(next, b, c),
    ensures
        walks_to(next, a, c),
{
    reveal(walks_to);
    let n = choose|n: nat| #[trigger] walked(next, a, n) == b;
    let m = choose|m: nat| #[trigger] walked(next, b, m) == c;
    lemma_walked_joins(next, a, n, m);
}

proof fn lemma_walks_nowhere<A>(next: spec_fn(A) -> Seq<A>, a: Walk<A>)
    ensures
        walks_to(next, a, a),
{
    reveal(walks_to);
    assert(walked(next, a, 0) == a);
}

proof fn lemma_walks_one<A>(next: spec_fn(A) -> Seq<A>, a: Walk<A>)
    ensures
        walks_to(next, a, stepped(next, a)),
{
    reveal(walks_to);
    reveal_with_fuel(walked, 2);
    assert(walked(next, a, 1) == stepped(next, a));
}

/// What a node of the graph leads to.
pub open spec fn row(g: Seq<Seq<usize>>) -> spec_fn(usize) -> Seq<usize> {
    |u: usize| g[u as int]
}

/// Going on with what `v` leads to, from number `i`, then leaving `v`.
spec fn onward(g: Seq<Seq<usize>>, v: usize, i: int, rest: Seq<Step<usize>>) -> Seq<Step<usize>> {
    enters(g[v as int].skip(i)) + (seq![Step::Leave(v)] + rest)
}

proof fn lemma_onward(g: Seq<Seq<usize>>, v: usize, i: int, rest: Seq<Step<usize>>)
    requires
        0 <= i < g[v as int].len(),
    ensures
        onward(g, v, i, rest) == seq![Step::Enter(g[v as int][i])] + onward(g, v, i + 1, rest),
{
    let list = g[v as int];
    assert(enters(list.skip(i)) =~= seq![Step::Enter(list[i])] + enters(list.skip(i + 1)));
    assert(onward(g, v, i, rest) =~= seq![Step::Enter(list[i])] + onward(g, v, i + 1, rest));
}

/// The walk comes to a new node.
proof fn lemma_walk_enters(g: Seq<Seq<usize>>, v: usize, rest: Seq<Step<usize>>, pre: Seq<usize>, post: Seq<usize>)
    requires
        !pre.contains(v),
    ensures
        walks_to(row(g), Walk { todo: seq![Step::Enter(v)] + rest, pre, post }, Walk { todo: onward(g, v, 0, rest), pre: pre.push(v), post }),
{
    let a = Walk { todo: seq![Step::Enter(v)] + rest, pre, post };
    lemma_walks_one(row(g), a);
    assert(a.todo.skip(1) =~= rest);
    assert(g[v as int].skip(0) =~= g[v as int]);
}

/// The walk passes by a node that it came to before.
proof fn lemma_walk_passes(g: Seq<Seq<usize>>, v: usize, rest: Seq<Step<usize>>, pre: Seq<usize>, post: Seq<usize>)
    requires
        pre.contains(v),
    ensures
        walks_to(row(g), Walk { todo: seq![Step::Enter(v)] + rest, pre, post }, Walk { todo: rest, pre, post }),
{
    let a = Walk { todo: seq![Step::Enter(v)] + rest, pre, post };
    lemma_walks_one(row(g), a);
    assert(a.todo.skip(1) =~= rest);
}

/// The walk leaves a node.
proof fn lemma_walk_leaves_node(g: Seq<Seq<usize>>, v: usize, rest: Seq<Step<usize>>, pre: Seq<usize>, post: Seq<usize>)
    ensures
        walks_to(row(g), Walk { todo: onward(g, v, g[v as int].len() as int, rest), pre, post }, Walk { todo: rest, pre, post: post.push(v) }),
{
    let list = g[v as int];
    let a = Walk { todo: onward(g, v, list.len() as int, rest), pre, post };
    assert(a.todo =~= seq![Step::Leave(v)] + rest);
    lemma_walks_one(row(g), a);
    assert(a.todo.skip(1) =~= rest);
}

/// The last nodes of the groups stand in `post` at these places, one after the
/// other.
spec fn root_places(groups: Seq<Seq<usize>>, post: Seq<usize>, at: Seq<int>) -> bool {
    &&& at.len() == groups.len()
    &&& forall|c: int| 0 <= c < at.len() ==> 0 <= #[trigger] at[c] < post.len() && post[at[c]] == groups[c].last()
    &&& forall|c: int, d: int| 0 <= c < d < at.len() ==> #[trigger] at[c] < #[trigger] at[d]
}

/// The search has come as far as the walk: nodes are numbered as the walk came
/// to them, each group goes back in that order, and the groups go in the order
/// in which the walk left their last nodes.
#[verifier::opaque]
spec fn traced(st: SearchView, pre: Seq<usize>, post: Seq<usize>) -> bool {
    &&& pre.len() == st.next
    &&& forall|i: int| 0 <= i < pre.len() ==> st.visited(#[trigger] pre[i] as int) && st.num(pre[i] as int) == i
    &&& forall|x: int| #[trigger] st.visited(x) ==> 0 <= st.num(x) < pre.len() && pre[st.num(x)] == x
    &&& forall|c: int, k: int| 0 <= c < st.sccs.len() && 0 <= k < st.sccs[c].len() ==> st.visited(#[trigger] st.sccs[c][k] as int)
    &&& forall|c: int, k: int, l: int| 0 <= c < st.sccs.len() && 0 <= k < l < st.sccs[c].len() ==> st.num(#[trigger] st.sccs[c][l] as int) < st.num(
        #[trigger] st.sccs[c][k] as int,
    )
    &&& exists|at: Seq<int>| #[trigger] root_places(st.sccs, post, at)
}

proof fn lemma_traced_seen(st: SearchView, pre: Seq<usize>, post: Seq<usize>, v: usize)
    requires
        traced(st, pre, post),
    ensures
        pre.contains(v) <==> st.visited(v as int),
{
    reveal(traced);
    if pre.contains(v) {
        let i = choose|i: int| 0 <= i < pre.len() && pre[i] == v;
        assert(st.visited(pre[i] as int));
    }
    if st.visited(v as int) {
        assert(pre[st.num(v as int)] == v);
    }
}

proof fn lemma_traced_enters(st: SearchView, v: usize, pre: Seq<usize>, post: Seq<usize>)
    requires
        traced(st, pre, post),
        !st.visited(v as int),
        v < st.index.len(),
        st.next <= usize::MAX,
    ensures
        traced(entered(st, v as int), pre.push(v), post),
{
    reveal(traced);
    let after = entered(st, v as int);
    let now = pre.push(v);
    assert forall|x: int| #[trigger] st.visited(x) implies after.visited(x) && after.num(x) == st.num(x) by {}
    assert(after.visited(v as int) && after.num(v as int) == pre.len());
    assert forall|i: int| 0 <= i < now.len() implies after.visited(#[trigger] now[i] as int) && after.num(now[i] as int) == i by {
        if i < pre.len() {
            assert(st.visited(pre[i] as int));
        }
    }
    assert forall|x: int| #[trigger] after.visited(x) implies 0 <= after.num(x) < now.len() && now[after.num(x)] == x by {
        if x != v {
            assert(st.visited(x));
        }
    }
    assert forall|c: int, k: int| 0 <= c < after.sccs.len() && 0 <= k < after.sccs[c].len() implies after.visited(#[trigger] after.sccs[c][k] as int) by {
        assert(st.visited(st.sccs[c][k] as int));
    }
    assert forall|c: int, k: int, l: int| 0 <= c < after.sccs.len() && 0 <= k < l < after.sccs[c].len() implies after.num(#[trigger] after.sccs[c][l] as int) < after.num(
        #[trigger] after.sccs[c][k] as int,
    ) by {
        assert(st.visited(st.sccs[c][k] as int) && st.visited(st.sccs[c][l] as int));
    }
    let at = choose|at: Seq<int>| #[trigger] root_places(st.sccs, post, at);
    assert(root_places(after.sccs, post, at));
}

proof fn lemma_traced_leaves(st: SearchView, v: usize, pre: Seq<usize>, post: Seq<usize>)
    requires
        traced(st, pre, post),
    ensures
        traced(st, pre, post.push(v)),
{
    reveal(traced);
    let at = choose|at: Seq<int>| #[trigger] root_places(st.sccs, post, at);
    let now = post.push(v);
    assert forall|c: int| 0 <= c < at.len() implies 0 <= #[trigger] at[c] < now.len() && now[at[c]] == st.sccs[c].last() by {}
    assert(root_places(st.sccs, now, at));
}

proof fn lemma_traced_closes(g: Seq<Seq<usize>>, st: SearchView, v: usize, p: int, after: SearchView, pre: Seq<usize>, post: Seq<usize>)
    requires
        traced(st, pre, post),
        st.shape(g),
        0 <= p < st.stack.len(),
        st.stack[p] == v,
        closed_at(st, v as int, p, after),
    ensures
        traced(after, pre, post.push(v)),
{
    reveal(traced);
    let comp = after.sccs.last();
    let m = st.sccs.len() as int;
    let now = post.push(v);
    assert forall|x: int| st.visited(x) == #[trigger] after.visited(x) && st.num(x) == after.num(x) by {}
    assert forall|c: int| 0 <= c < m implies #[trigger] after.sccs[c] == st.sccs[c] by {
        assert(after.sccs.drop_last()[c] == st.sccs[c]);
    }
    assert(after.sccs[m] == comp);
    assert forall|c: int, k: int| 0 <= c < after.sccs.len() && 0 <= k < after.sccs[c].len() implies after.visited(#[trigger] after.sccs[c][k] as int) by {
        if c < m {
            assert(st.visited(st.sccs[c][k] as int));
        } else {
            assert(comp[k] == st.stack[st.stack.len() - 1 - k]);
            assert(st.open(st.stack[st.stack.len() - 1 - k] as int));
        }
    }
    assert forall|c: int, k: int, l: int| 0 <= c < after.sccs.len() && 0 <= k < l < after.sccs[c].len() implies after.num(#[trigger] after.sccs[c][l] as int) < after.num(
        #[trigger] after.sccs[c][k] as int,
    ) by {
        if c < m {
            assert(st.num(st.sccs[c][l] as int) < st.num(st.sccs[c][k] as int));
        } else {
            let n = st.stack.len() - 1;
            assert(comp[k] == st.stack[n - k] && comp[l] == st.stack[n - l]);
            assert(st.num(st.stack[n - l] as int) < st.num(st.stack[n - k] as int));
        }
    }
    assert(comp.last() == v) by {
        assert(comp[comp.len() - 1] == st.stack[st.stack.len() - 1 - (comp.len() - 1)]);
    }
    let at = choose|at: Seq<int>| #[trigger] root_places(st.sccs, post, at);
    let to = at.push(post.len() as int);
    assert forall|c: int| 0 <= c < to.len() implies 0 <= #[trigger] to[c] < now.len() && now[to[c]] == after.sccs[c].last() by {
        if c < m {
            assert(to[c] == at[c]);
        }
    }
    assert forall|c: int, d: int| 0 <= c < d < to.len() implies #[trigger] to[c] < #[trigger] to[d] by {
        assert(to[c] == at[c]);
        if d < m {
            assert(to[d] == at[d]);
        }
    }
    assert(root_places(after.sccs, now, to));
}

/// Where the search has come to the end of the walk, its groups go by it.
proof fn lemma_traced_goes_by(st: SearchView, pre: Seq<usize>, post: Seq<usize>)
    requires
        traced(st, pre, post),
    ensures
        goes_by(st.sccs, pre, post),
{
    reveal(traced);
    assert forall|c: int, k: int, l: int| 0 <= c < st.sccs.len() && 0 <= k < l < st.sccs[c].len() implies stands_before(
        pre,
        #[trigger] st.sccs[c][l],
        #[trigger] st.sccs[c][k],
    ) by {
        let (i, j) = (st.num(st.sccs[c][l] as int), st.num(st.sccs[c][k] as int));
        assert(st.visited(st.sccs[c][l] as int) && st.visited(st.sccs[c][k] as int));
        assert(pre[i] == st.sccs[c][l] && pre[j] == st.sccs[c][k]);
    }
    let at = choose|at: Seq<int>| #[trigger] root_places(st.sccs, post, at);
    assert forall|c: int, d: int| 0 <= c < d < st.sccs.len() implies stands_before(post, (#[trigger] st.sccs[c]).last(), (#[trigger] st.sccs[d]).last()) by {
        assert(at[c] < at[d]);
        assert(post[at[c]] == st.sccs[c].last() && post[at[d]] == st.sccs[d].last());
    }
}

/// Takes the nodes above position `p` off the stack, last first.
fn take_component(st: &mut Search, p: usize) -> (comp: Vec<usize>)
    requires
        p <= old(st).stack@.len(),
        forall|i: int| 0 <= i < old(st).stack@.len() ==> (#[trigger] old(st).stack@[i]) < old(st).on_stack@.len(),
    ensures
        final(st).index == old(st).index,
        final(st).next == old(st).next,
        final(st).sccs == old(st).sccs,
        final(st).stack@ == old(st).stack@.take(p as int),
        final(st).on_stack@.len() == old(st).on_stack@.len(),
        forall|x: int| 0 <= x < old(st).on_stack@.len() ==> (#[trigger] final(st).on_stack@[x] <==> old(st).on_stack@[x]
            && forall|i: int| p <= i < old(st).stack@.len() ==> #[trigger] old(st).stack@[i] != x),
        comp@.len() == old(st).stack@.len() - p,
        forall|k: int| 0 <= k < comp@.len() ==> #[trigger] comp@[k] == old(st).stack@[old(st).stack@.len() - 1 - k],
{
    let ghost s0 = st.stack@;
    let ghost o0 = st.on_stack@;
    let mut comp: Vec<usize> = Vec::new();
    while st.stack.len() > p
        invariant
            p <= st.stack@.len() <= s0.len(),
            st.index == old(st).index,
            st.next == old(st).next,
            st.sccs == old(st).sccs,
            st.on_stack@.len() == o0.len(),
            forall|i: int| 0 <= i < s0.len() ==> (#[trigger] s0[i]) < o0.len(),
            st.stack@ == s0.take(st.stack@.len() as int),
            comp@.len() == s0.len() - st.stack@.len(),
            forall|k: int| 0 <= k < comp@.len() ==> #[trigger] comp@[k] == s0[s0.len() - 1 - k],
            forall|x: int| 0 <= x < o0.len() ==> (#[trigger] st.on_stack@[x] <==> o0[x]
                && forall|i: int| st.stack@.len() <= i < s0.len() ==> #[trigger] s0[i] != x),
        decreases st.stack@.len(),
    {
        let ghost before = st.on_stack@;
        let ghost h = st.stack@.len() as int;
        if let Some(w) = st.stack.pop() {
            assert(w == s0[h - 1]);
            st.on_stack.set(w, false);
            comp.push(w);
            assert forall|x: int| 0 <= x < o0.len() implies (#[trigger] st.on_stack@[x] <==> o0[x]
                && forall|i: int| st.stack@.len() <= i < s0.len() ==> #[trigger] s0[i] != x) by {
                if x != w {
                    assert(st.on_stack@[x] == before[x]);
                } else {
                    assert(s0[h - 1] == x);
                }
            }
        }
    }
    comp
}

/// Visits `v` and what it leads to. `active` are the nodes whose visit is
/// under way, `rest` what is left to do afterwards, `pre` and `post` how far
/// the walk has come. The result is the lowest number of an open node found,
/// and how far the walk comes.
fn visit(
    adj: &Vec<Vec<usize>>,
    st: &mut Search,
    v: usize,
    Ghost(active): Ghost<Set<int>>,
    Ghost(rest): Ghost<Seq<Step<usize>>>,
    Ghost(pre): Ghost<Seq<usize>>,
    Ghost(post): Ghost<Seq<usize>>,
) -> (r: (usize, Ghost<Seq<usize>>, Ghost<Seq<usize>>))
    requires
        traced(old(st)@, pre, post),
        graph_ok(arcs(adj@)),
        v < adj@.len(),
        old(st)@.inv(arcs(adj@), active),
        !old(st)@.visited(v as int),
        forall|x: int| active.contains(x) ==> #[trigger] reaches(arcs(adj@), x, v as int),
    ensures
        traced(final(st)@, r.1@, r.2@),
        walks_to(row(arcs(adj@)), Walk { todo: seq![Step::Enter(v)] + rest, pre, post }, Walk { todo: rest, pre: r.1@, post: r.2@ }),
        final(st)@.inv(arcs(adj@), active),
        final(st)@.visited(v as int),
        grew(old(st)@, final(st)@),
        unvisited(final(st)@.index) < unvisited(old(st)@.index),
        r.0 <= final(st)@.num(v as int),
        final(st)@.stack.len() > old(st)@.stack.len() ==> low_link(arcs(adj@), final(st)@, v as int, r.0 as int),
        final(st)@.stack.len() == old(st)@.stack.len() ==> r.0 == final(st)@.num(v as int),
        final(st)@.stack.len() == old(st)@.stack.len() ==> !final(st)@.open(v as int),
        low_bound(arcs(adj@), old(st)@, final(st)@, old(st)@.stack.len() as int, r.0 as int),
        forall|x: int| #[trigger] final(st)@.visited(x) && !old(st)@.visited(x) ==> reaches(arcs(adj@), v as int, x),
    decreases unvisited(old(st)@.index),
{
    let ghost g = arcs(adj@);
    let ghost st0 = st@;
    let ghost now = active.insert(v as int);
    let p: usize = st.stack.len();
    let num: usize = st.next;
    let n: usize = adj.len();
    proof {
        assert(n == g.len());
        assert(st0.index[v as int] is None);
        lemma_visit_one(st0.index, v as int, num);
        assert(st0.next < g.len());
    }
    st.index.set(v, Some(num));
    st.on_stack.set(v, true);
    st.stack.push(v);
    st.next = num + 1;
    proof {
        lemma_enter(g, st0, active, v as int);
        assert(st@ =~= entered(st0, v as int));
        lemma_reaches_self(g, v as int);
        assert(st@.open(v as int));
        assert(!st0.open(v as int));
    }
    let ghost start = Walk { todo: seq![Step::Enter(v)] + rest, pre, post };
    let ghost mut came = pre.push(v);
    let ghost mut left = post;
    proof {
        lemma_traced_seen(st0, pre, post, v);
        lemma_traced_enters(st0, v, pre, post);
        lemma_walk_enters(g, v, rest, pre, post);
    }
    let mut low: usize = num;
    let mut i: usize = 0;
    while i < adj[v].len()
        invariant
            g == arcs(adj@),
            graph_ok(g),
            v < adj@.len(),
            now == active.insert(v as int),
            !st0.visited(v as int),
            forall|x: int| active.contains(x) ==> #[trigger] reaches(g, x, v as int),
            i <= adj@[v as int]@.len(),
            st@.inv(g, now),
            st0.inv(g, active),
            p == st0.stack.len(),
            grew(st0, st@),
            st@.stack.len() > p,
            st@.stack[p as int] == v,
            st@.open(v as int),
            st@.num(v as int) == num,
            num == st0.next,
            low <= num,
            low_link(g, st@, v as int, low as int),
            forall|k: int| 0 <= k < i ==> st@.visited(#[trigger] adj@[v as int]@[k] as int),
            forall|k: int| 0 <= k < i && st@.open(#[trigger] adj@[v as int]@[k] as int) ==> low <= st@.num(adj@[v as int]@[k] as int),
            low_bound(g, st0, st@, p + 1, low as int),
            unvisited(st@.index) < unvisited(st0.index),
            forall|x: int| #[trigger] st@.visited(x) && !st0.visited(x) ==> reaches(g, v as int, x),
            st0 == old(st)@,
            traced(st@, came, left),
            walks_to(row(g), start, Walk { todo: onward(g, v, i as int, rest), pre: came, post: left }),
        decreases adj@[v as int]@.len() - i,
    {
        let w: usize = adj[v][i];
        let ghost mid = st@;
        proof {
            assert(g[v as int][i as int] == w);
            assert(edge(g, v as int, w as int));
            lemma_reaches_edge(g, v as int, w as int);
            lemma_onward(g, v, i as int, rest);
            lemma_traced_seen(mid, came, left, w);
        }
        let ghost here = Walk { todo: onward(g, v, i as int, rest), pre: came, post: left };
        let ghost further = onward(g, v, i + 1, rest);
        if st.index[w].is_none() {
            proof {
                assert forall|x: int| now.contains(x) implies #[trigger] reaches(g, x, w as int) by {
                    if x != v {
                        assert(reaches(g, x, v as int));
                        lemma_reaches_joins(g, x, v as int, w as int);
                    }
                }
            }
            let (other, Ghost(came_now), Ghost(left_now)) = visit(adj, st, w, Ghost(now), Ghost(further), Ghost(came), Ghost(left));
            proof {
                came = came_now;
                left = left_now;
                lemma_walks_join(row(g), start, here, Walk { todo: further, pre: came, post: left });
                lemma_grew_joins(st0, mid, st@);
                assert forall|x: int| #[trigger] st@.visited(x) && !st0.visited(x) implies reaches(g, v as int, x) by {
                    if !mid.visited(x) {
                        lemma_reaches_joins(g, v as int, w as int, x);
                    }
                }
                let lowest: int = if other < low { other as int } else { low as int };
                if other < low {
                    assert(st@.num(w as int) >= mid.next);
                    assert(low_link(g, st@, w as int, other as int));
                    let u = choose|u: int| #[trigger] st@.open(u) && st@.num(u) == other && reaches(g, w as int, u);
                    lemma_reaches_joins(g, v as int, w as int, u);
                    assert(st@.open(u) && st@.num(u) == other && reaches(g, v as int, u));
                    assert(low_link(g, st@, v as int, other as int));
                } else {
                    let u = choose|u: int| #[trigger] mid.open(u) && mid.num(u) == low && reaches(g, v as int, u);
                    assert(mid.visited(u));
                    assert(st@.open(u) && st@.num(u) == low && reaches(g, v as int, u));
                }
                assert(low_bound(g, st0, st@, p + 1, lowest)) by {
                    assert forall|j: int, z: int| p + 1 <= j < st@.stack.len() && #[trigger] edge(g, st@.stack[j] as int, z) && st0.open(z) implies lowest <= st@.num(z) by {
                        assert(st0.visited(z));
                        assert(mid.visited(z));
                        assert(mid.open(z));
                        if j < mid.stack.len() {
                            assert(st@.stack[j] == mid.stack[j]);
                            assert(edge(g, mid.stack[j] as int, z));
                        }
                    }
                }
                assert forall|k: int| 0 <= k < i + 1 implies st@.visited(#[trigger] adj@[v as int]@[k] as int)
                    && (st@.open(adj@[v as int]@[k] as int) ==> lowest <= st@.num(adj@[v as int]@[k] as int)) by {
                    if k < i {
                        assert(mid.visited(adj@[v as int]@[k] as int));
                    }
                }
            }
            if other < low {
                low = other;
            }
        } else {
            proof {
                lemma_walk_passes(g, w, further, came, left);
                lemma_walks_join(row(g), start, here, Walk { todo: further, pre: came, post: left });
            }
            if st.on_stack[w] {
                if let Some(seen) = st.index[w] {
                    if seen < low {
                        low = seen;
                        assert(st@.open(w as int) && st@.num(w as int) == low && reaches(g, v as int, w as int));
                    }
                }
            }
        }
        i += 1;
    }
    proof {
        assert forall|y: int| #[trigger] edge(g, v as int, y) implies st@.visited(y) && (st@.open(y) ==> low <= st@.num(y)) by {
            let k = choose|k: int| 0 <= k < g[v as int].len() && (#[trigger] g[v as int][k]) == y;
            assert(adj@[v as int]@[k] == y);
        }
        assert forall|x: int| #[trigger] active.contains(x) implies st@.num(x) < num by {
            assert(st0.open(x));
            assert(st0.visited(x));
        }
        assert(!active.contains(v as int)) by {
            if active.contains(v as int) {
                assert(st0.open(v as int));
            }
        }
    }
    let ghost full = st@;
    proof {
        assert(i == g[v as int].len());
        lemma_walk_leaves_node(g, v, rest, came, left);
        lemma_walks_join(row(g), start, Walk { todo: onward(g, v, i as int, rest), pre: came, post: left }, Walk { todo: rest, pre: came, post: left.push(v) });
        lemma_traced_leaves(full, v, came, left);
    }
    if low == num {
        proof {
            assert forall|x: int, z: int| segment(full, v as int, x) && #[trigger] edge(g, x, z) && full.open(z) implies full.num(z) >= full.num(v as int) by {
                if full.num(z) < full.num(v as int) {
                    assert(full.stacked(x) && full.stacked(z));
                    let ix = choose|ix: int| 0 <= ix < full.stack.len() && #[trigger] full.stack[ix] == x;
                    let iz = choose|iz: int| 0 <= iz < full.stack.len() && #[trigger] full.stack[iz] == z;
                    if ix < p {
                        assert(full.num(full.stack[ix] as int) < full.num(full.stack[p as int] as int));
                    }
                    if iz > p {
                        assert(full.num(full.stack[p as int] as int) < full.num(full.stack[iz] as int));
                    }
                    assert(iz < p);
                    assert(full.stack[iz] == st0.stack[iz]);
                    assert(st0.open(st0.stack[iz] as int));
                    if ix == p {
                        assert(x == v);
                    } else {
                        assert(edge(g, full.stack[ix] as int, z));
                    }
                    assert(false);
                }
            }
            assert(closable(g, full, active, v as int));
            assert forall|k: int| 0 <= k < full.stack.len() implies (#[trigger] full.stack[k]) < full.on_stack.len() by {
                assert(full.open(full.stack[k] as int));
            }
        }
        let comp = take_component(st, p);
        st.sccs.push(comp);
        proof {
            assert(st@.sccs.drop_last() =~= full.sccs);
            assert forall|x: int| #[trigger] st@.open(x) <==> full.open(x) && full.num(x) < full.num(v as int) by {
                if full.open(x) {
                    assert(full.stacked(x));
                    let ix = choose|ix: int| 0 <= ix < full.stack.len() && #[trigger] full.stack[ix] == x;
                    if ix > p {
                        assert(full.num(full.stack[p as int] as int) < full.num(full.stack[ix] as int));
                    }
                    if ix < p {
                        assert(full.num(full.stack[ix] as int) < full.num(full.stack[p as int] as int));
                        assert forall|j: int| p <= j < full.stack.len() implies #[trigger] full.stack[j] != x by {
                            assert(full.num(full.stack[ix] as int) < full.num(full.stack[j] as int));
                        }
                    }
                }
            }
            assert(closed_at(full, v as int, p as int, st@));
            assert forall|x: int| #[trigger] st@.visited(x) && !st0.visited(x) implies reaches(g, v as int, x) by {
                assert(full.visited(x));
            }
            lemma_close(g, full, active, v as int, p as int, st@);
            lemma_traced_closes(g, full, v, p as int, st@, came, left);
            assert(grew(st0, st@)) by {
                assert forall|x: int| #[trigger] st0.visited(x) implies st@.visited(x) && st@.index[x] == st0.index[x] && (st@.open(x) <==> st0.open(x)) by {
                    assert(full.visited(x));
                }
                assert forall|k: int| 0 <= k < st0.stack.len() implies #[trigger] st@.stack[k] == st0.stack[k] by {
                    assert(full.stack[k] == st0.stack[k]);
                }
                assert forall|c: int| 0 <= c < st0.sccs.len() implies #[trigger] st@.sccs[c] == st0.sccs[c] by {
                    assert(st@.sccs.drop_last()[c] == full.sccs[c]);
                    assert(full.sccs[c] == st0.sccs[c]);
                }
                assert forall|x: int| !st0.visited(x) && #[trigger] st@.visited(x) implies st@.num(x) >= st0.next by {
                    assert(full.visited(x));
                }
            }
        }
    } else {
        proof {
            let w = choose|w: int| #[trigger] full.open(w) && full.num(w) == low && reaches(g, v as int, w);
            lemma_leave_open(g, full, active, v as int, w);
            assert(low_bound(g, st0, full, p as int, low as int)) by {
                assert forall|j: int, z: int| p <= j < full.stack.len() && #[trigger] edge(g, full.stack[j] as int, z) && st0.open(z) implies low <= full.num(z) by {
                    if j == p {
                        assert(edge(g, v as int, z));
                        assert(st0.visited(z));
                        assert(full.open(z));
                    }
                }
            }
        }
    }
    (low, Ghost(came), Ghost(left.push(v)))
}

/// Between visits nothing is open.
proof fn lemma_all_done(g: Seq<Seq<usize>>, st: SearchView)
    requires
        st.linked(g, Set::empty()),
    ensures
        forall|x: int| !(#[trigger] st.open(x)),
{
    assert forall|x: int| !(#[trigger] st.open(x)) by {
        if st.open(x) {
            let a = lemma_anchor(g, st, Set::empty(), x);
        }
    }
}

proof fn lemma_reached_grows(g: Seq<Seq<usize>>, roots: Seq<usize>, i: int, j: int, x: int)
    requires
        0 <= i <= j <= roots.len(),
        reached(g, roots.take(i), x),
    ensures
        reached(g, roots.take(j), x),
{
    let r = choose|r: int| 0 <= r < roots.take(i).len() && reaches(g, #[trigger] roots.take(i)[r] as int, x);
    assert(roots.take(j)[r] == roots.take(i)[r]);
}

/// The strongly connected components of what the roots reach, each after the
/// components that it leads to.
pub fn components(adj: &Vec<Vec<usize>>, roots: &Vec<usize>) -> (r: Vec<Vec<usize>>)
    requires
        graph_ok(arcs(adj@)),
        forall|i: int| 0 <= i < roots@.len() ==> (#[trigger] roots@[i]) < adj@.len(),
    ensures
        is_component_list(arcs(adj@), roots@, arcs(r@)),
        is_in_walk_order(row(arcs(adj@)), roots@, arcs(r@)),
{
    let ghost g = arcs(adj@);
    let n: usize = adj.len();
    let mut index: Vec<Option<usize>> = Vec::new();
    let mut on_stack: Vec<bool> = Vec::new();
    for i in 0..n
        invariant
            index@.len() == i,
            on_stack@.len() == i,
            forall|k: int| 0 <= k < i ==> index@[k] is None,
            forall|k: int| 0 <= k < i ==> !on_stack@[k],
    {
        index.push(None);
        on_stack.push(false);
    }
    let mut st = Search { index, on_stack, stack: Vec::new(), next: 0, sccs: Vec::new() };
    proof {
        lemma_all_unvisited(st@.index);
        assert(forall|x: int| !st@.visited(x));
        assert(forall|x: int| !st@.open(x));
        assert(st@.sccs.len() == 0);
        assert(st@.inv(g, Set::empty()));
    }
    let ghost mut came = Seq::<usize>::empty();
    let ghost mut left = Seq::<usize>::empty();
    let ghost start = Walk { todo: enters(roots@), pre: came, post: left };
    proof {
        lemma_walks_nowhere(row(g), start);
        assert(roots@.skip(0) =~= roots@);
        assert(traced(st@, came, left)) by {
            reveal(traced);
            assert(root_places(st@.sccs, left, Seq::empty()));
        }
    }
    for i in 0..roots.len()
        invariant
            traced(st@, came, left),
            walks_to(row(g), start, Walk { todo: enters(roots@.skip(i as int)), pre: came, post: left }),
            g == arcs(adj@),
            graph_ok(g),
            forall|i: int| 0 <= i < roots@.len() ==> (#[trigger] roots@[i]) < adj@.len(),
            st@.inv(g, Set::empty()),
            forall|k: int| 0 <= k < i ==> st@.visited(#[trigger] roots@[k] as int),
            forall|x: int| #[trigger] st@.visited(x) <==> reached(g, roots@.take(i as int), x),
            forall|x: int, y: int, c: int, k: int, d: int, l: int, j: int| #[trigger] placed(st@.sccs, x, c, k) && #[trigger] placed(st@.sccs, y, d, l)
                && 0 <= j <= i && #[trigger] reached(g, roots@.take(j), x) && !reached(g, roots@.take(j), y) ==> c < d,
    {
        let ghost mid = st@;
        let root: usize = roots[i];
        let ghost further = enters(roots@.skip(i + 1));
        let ghost here = Walk { todo: enters(roots@.skip(i as int)), pre: came, post: left };
        proof {
            assert(here.todo =~= seq![Step::Enter(root)] + further);
            lemma_traced_seen(mid, came, left, root);
        }
        if st.index[roots[i]].is_none() {
            let (_, Ghost(came_now), Ghost(left_now)) = visit(adj, &mut st, root, Ghost(Set::empty()), Ghost(further), Ghost(came), Ghost(left));
            proof {
                came = came_now;
                left = left_now;
                assert forall|k: int| 0 <= k < i + 1 implies st@.visited(#[trigger] roots@[k] as int) by {
                    if k < i {
                        assert(mid.visited(roots@[k] as int));
                    }
                }
            }
        } else {
            proof {
                lemma_walk_passes(g, root, further, came, left);
            }
        }
        proof {
            lemma_walks_join(row(g), start, here, Walk { todo: further, pre: came, post: left });
            assert(st@.visited(roots@[i as int] as int));
            lemma_all_done(g, st@);
            lemma_all_done(g, mid);
            assert(roots@.take(i + 1)[i as int] == roots@[i as int]);
            assert forall|x: int| #[trigger] st@.visited(x) <==> reached(g, roots@.take(i + 1), x) by {
                if st@.visited(x) {
                    if mid.visited(x) {
                        lemma_reached_grows(g, roots@, i as int, i + 1, x);
                    } else {
                        assert(reaches(g, roots@.take(i + 1)[i as int] as int, x));
                    }
                }
                if reached(g, roots@.take(i + 1), x) {
                    let r = choose|r: int| 0 <= r < roots@.take(i + 1).len() && reaches(g, #[trigger] roots@.take(i + 1)[r] as int, x);
                    assert(roots@.take(i + 1)[r] == roots@[r]);
                    assert(st@.visited(roots@[r] as int));
                    lemma_done_stays(g, st@, Set::empty(), roots@[r] as int, x);
                }
            }
            assert forall|x: int, y: int, c: int, k: int, d: int, l: int, j: int| #[trigger] placed(st@.sccs, x, c, k) && #[trigger] placed(st@.sccs, y, d, l)
                && 0 <= j <= i + 1 && #[trigger] reached(g, roots@.take(j), x) && !reached(g, roots@.take(j), y) implies c < d by {
                assert(st@.done(y));
                assert(j <= i);
                lemma_reached_grows(g, roots@, j, i as int, x);
                assert(mid.done(x));
                let (c0, k0) = choose|c0: int, k0: int| placed(mid.sccs, x, c0, k0);
                assert(st@.sccs[c0] == mid.sccs[c0]);
                assert(placed(st@.sccs, x, c0, k0));
                if mid.visited(y) {
                    assert(mid.done(y));
                    let (d0, l0) = choose|d0: int, l0: int| placed(mid.sccs, y, d0, l0);
                    assert(st@.sccs[d0] == mid.sccs[d0]);
                    assert(placed(st@.sccs, y, d0, l0));
                } else if d < mid.sccs.len() {
                    assert(st@.sccs[d] == mid.sccs[d]);
                    assert(placed(mid.sccs, y, d, l));
                    assert(mid.done(y));
                }
            }
        }
    }
    assert(roots@.take(roots@.len() as int) =~= roots@);
    proof {
        let last = st@;
        let groups = arcs(st.sccs@);
        assert(groups == last.sccs);
        assert(enters(roots@.skip(roots@.len() as int)) =~= Seq::<Step<usize>>::empty());
        lemma_traced_goes_by(last, came, left);
        assert(is_walk(row(g), roots@, came, left));
        lemma_all_done(g, last);
        assert forall|x: int| #[trigger] reached(g, roots@, x) implies exists|c: int, k: int| placed(groups, x, c, k) by {
            let r = choose|r: int| 0 <= r < roots@.len() && reaches(g, #[trigger] roots@[r] as int, x);
            assert(last.visited(roots@[r] as int));
            lemma_done_stays(g, last, Set::empty(), roots@[r] as int, x);
        }
        assert forall|x: int, c: int, k: int| #[trigger] placed(groups, x, c, k) implies 0 <= x < g.len() && reached(g, roots@, x) by {
            assert(last.done(x));
            assert(last.visited(x));
        }
    }
    st.sccs
}

/// `v` is `n` steps of the relation away from `u`.
pub open spec fn steps_to<A>(rel: spec_fn(A, A) -> bool, u: A, v: A, n: nat) -> bool
    decreases n,
{
    if n == 0 {
        u == v
    } else {
        exists|w: A| #[trigger] rel(u, w) && steps_to(rel, w, v, (n - 1) as nat)
    }
}

/// `v` is some number of steps of the relation away from `u`.
#[verifier::opaque]
pub open spec fn leads_to<A>(rel: spec_fn(A, A) -> bool, u: A, v: A) -> bool {
    exists|n: nat| steps_to(rel, u, v, n)
}

/// Each of the two leads to the other.
pub open spec fn entwined<A>(rel: spec_fn(A, A) -> bool, u: A, v: A) -> bool {
    leads_to(rel, u, v) && leads_to(rel, v, u)
}

/// On the nodes in `inside` the graph is the relation on their names.
pub open spec fn pictures<A>(g: Seq<Seq<usize>>, names: Seq<A>, inside: spec_fn(int) -> bool, rel: spec_fn(A, A) -> bool) -> bool {
    &&& forall|u: int, w: int| inside(u) && #[trigger] edge(g, u, w) ==> inside(w) && rel(names[u], names[w])
    &&& forall|u: int, t: A| inside(u) && #[trigger] rel(names[u], t) ==> exists|w: int| edge(g, u, w) && names[w] == t
    &&& forall|u: int, w: int| #[trigger] inside(u) && #[trigger] inside(w) && names[u] == names[w] ==> u == w
}

pub proof fn lemma_picture_steps<A>(g: Seq<Seq<usize>>, names: Seq<A>, inside: spec_fn(int) -> bool, rel: spec_fn(A, A) -> bool, u: int, v: int, n: nat)
    requires
        pictures(g, names, inside, rel),
        inside(u),
        inside(v),
    ensures
        reach_in(g, u, v, n) <==> steps_to(rel, names[u], names[v], n),
    decreases n,
{
    if n > 0 {
        if reach_in(g, u, v, n) {
            let w = choose|w: int| #[trigger] edge(g, u, w) && reach_in(g, w, v, (n - 1) as nat);
            lemma_picture_steps(g, names, inside, rel, w, v, (n - 1) as nat);
            assert(rel(names[u], names[w]) && steps_to(rel, names[w], names[v], (n - 1) as nat));
        }
        if steps_to(rel, names[u], names[v], n) {
            let t = choose|t: A| #[trigger] rel(names[u], t) && steps_to(rel, t, names[v], (n - 1) as nat);
            let w = choose|w: int| edge(g, u, w) && names[w] == t;
            lemma_picture_steps(g, names, inside, rel, w, v, (n - 1) as nat);
            assert(edge(g, u, w) && reach_in(g, w, v, (n - 1) as nat));
        }
    }
}

pub proof fn lemma_picture<A>(g: Seq<Seq<usize>>, names: Seq<A>, inside: spec_fn(int) -> bool, rel: spec_fn(A, A) -> bool, u: int, v: int)
    requires
        pictures(g, names, inside, rel),
        inside(u),
        inside(v),
    ensures
        reaches(g, u, v) <==> leads_to(rel, names[u], names[v]),
{
    reveal(reaches);
    reveal(leads_to);
    if reaches(g, u, v) {
        let n = choose|n: nat| reach_in(g, u, v, n);
        lemma_picture_steps(g, names, inside, rel, u, v, n);
    }
    if leads_to(rel, names[u], names[v]) {
        let n = choose|n: nat| steps_to(rel, names[u], names[v], n);
        lemma_picture_steps(g, names, inside, rel, u, v, n);
    }
}

/// What is reached from inside stays inside.
pub proof fn lemma_picture_closed<A>(g: Seq<Seq<usize>>, names: Seq<A>, inside: spec_fn(int) -> bool, rel: spec_fn(A, A) -> bool, u: int, v: int)
    requires
        pictures(g, names, inside, rel),
        inside(u),
        reaches(g, u, v),
    ensures
        inside(v),
{
    if !inside(v) {
        let r = lemma_reaches_leaves(g, inside, u, v);
        assert(inside(r.1));
    }
}

/// What a name leads to is the name of a node.
pub proof fn lemma_picture_target<A>(g: Seq<Seq<usize>>, names: Seq<A>, inside: spec_fn(int) -> bool, rel: spec_fn(A, A) -> bool, u: int, t: A, n: nat) -> (v: int)
    requires
        pictures(g, names, inside, rel),
        inside(u),
        steps_to(rel, names[u], t, n),
    ensures
        inside(v),
        names[v] == t,
        reach_in(g, u, v, n),
    decreases n,
{
    if n == 0 {
        u
    } else {
        let s = choose|s: A| #[trigger] rel(names[u], s) && steps_to(rel, s, t, (n - 1) as nat);
        let w = choose|w: int| edge(g, u, w) && names[w] == s;
        let v = lemma_picture_target(g, names, inside, rel, w, t, (n - 1) as nat);
        assert(edge(g, u, w) && reach_in(g, w, v, (n - 1) as nat));
        v
    }
}

/// `x` lies on a cycle: it leads to itself, or to another node and back.
pub open spec fn cyclic(g: Seq<Seq<usize>>, x: int) -> bool {
    edge(g, x, x) || exists|y: int| y != x && #[trigger] mutual(g, x, y)
}

/// The groups hold what the roots reach and what lies on a cycle, each node in
/// one place, and two nodes share a group if and only if each reaches the
/// other.
pub open spec fn is_cycle_list(g: Seq<Seq<usize>>, roots: Seq<usize>, groups: Seq<Seq<usize>>) -> bool {
    &&& forall|c: int| 0 <= c < groups.len() ==> (#[trigger] groups[c]).len() > 0
    &&& forall|x: int, c: int, k: int| #[trigger] placed(groups, x, c, k) ==> 0 <= x < g.len() && reached(g, roots, x) && cyclic(g, x)
    &&& forall|x: int| #[trigger] reached(g, roots, x) && cyclic(g, x) ==> exists|c: int, k: int| placed(groups, x, c, k)
    &&& forall|x: int, y: int, c: int, k: int, d: int, l: int| #[trigger] placed(groups, x, c, k) && #[trigger] placed(groups, y, d, l) ==> (c == d <==> mutual(g, x, y))
}

/// Whether the list holds the number.
pub fn lists_number(v: &Vec<usize>, x: usize) -> (r: bool)
    ensures
        r == exists|k: int| 0 <= k < v@.len() && #[trigger] v@[k] == x,
{
    for i in 0..v.len()
        invariant
            forall|k: int| 0 <= k < i ==> #[trigger] v@[k] != x,
    {
        if v[i] == x {
            return true;
        }
    }
    false
}

proof fn lemma_cyclic_group(g: Seq<Seq<usize>>, roots: Seq<usize>, all: Seq<Seq<usize>>, x: int, c: int, k: int)
    requires
        is_component_list(g, roots, all),
        placed(all, x, c, k),
    ensures
        cyclic(g, x) <==> all[c].len() > 1 || edge(g, all[c][0] as int, all[c][0] as int),
{
    if all[c].len() > 1 {
        let l: int = if k == 0 { 1 } else { 0 };
        let y = all[c][l] as int;
        assert(placed(all, y, c, l));
        assert(mutual(g, x, y));
        assert(y != x) by {
            if y == x {
                assert(placed(all, x, c, l));
            }
        }
    } else {
        assert(all[c][0] == x);
        if exists|y: int| y != x && #[trigger] mutual(g, x, y) {
            let y = choose|y: int| y != x && #[trigger] mutual(g, x, y);
            let r = choose|r: int| 0 <= r < roots.len() && reaches(g, #[trigger] roots[r] as int, x);
            lemma_reaches_joins(g, roots[r] as int, x, y);
            assert(reached(g, roots, y));
            let (d, l) = choose|d: int, l: int| placed(all, y, d, l);
            assert(c == d);
            assert(false);
        }
    }
}

/// The groups of nodes on cycles that the roots reach.
pub fn cycles(adj: &Vec<Vec<usize>>, roots: &Vec<usize>) -> (r: Vec<Vec<usize>>)
    requires
        graph_ok(arcs(adj@)),
        forall|i: int| 0 <= i < roots@.len() ==> (#[trigger] roots@[i]) < adj@.len(),
    ensures
        is_cycle_list(arcs(adj@), roots@, arcs(r@)),
{
    let ghost g = arcs(adj@);
    let all = components(adj, roots);
    let ghost av = arcs(all@);
    let mut out: Vec<Vec<usize>> = Vec::new();
    let ghost mut from: Seq<int> = Seq::empty();
    for group in it: all
        invariant
            it.seq() == all@,
            av == arcs(all@),
            g == arcs(adj@),
            is_component_list(g, roots@, av),
            from.len() == out@.len(),
            forall|k: int| 0 <= k < from.len() ==> 0 <= #[trigger] from[k] < it.index() && out@[k]@ == av[from[k]]
                && (av[from[k]].len() > 1 || edge(g, av[from[k]][0] as int, av[from[k]][0] as int)),
            forall|k: int, l: int| 0 <= k < l < from.len() ==> #[trigger] from[k] < #[trigger] from[l],
            forall|c: int| 0 <= c < it.index() && ((#[trigger] av[c]).len() > 1 || edge(g, av[c][0] as int, av[c][0] as int)) ==> from.contains(c),
    {
        let ghost i = it.index();
        let ghost before = from;
        assert(group@ == av[i as int]);
        assert(placed(av, group@[0] as int, i as int, 0));
        let first: usize = group[0];
        let keep = group.len() > 1 || lists_number(&adj[first], first);
        proof {
            if edge(g, first as int, first as int) {
                let k = choose|k: int| 0 <= k < g[first as int].len() && (#[trigger] g[first as int][k]) == first;
                assert(adj@[first as int]@[k] == first);
            }
            if exists|k: int| 0 <= k < adj@[first as int]@.len() && #[trigger] adj@[first as int]@[k] == first {
                let k = choose|k: int| 0 <= k < adj@[first as int]@.len() && #[trigger] adj@[first as int]@[k] == first;
                assert(g[first as int][k] == first);
            }
        }
        if keep {
            out.push(group);
            proof {
                from = from.push(i as int);
                assert(from[before.len() as int] == i);
            }
        }
        proof {
            assert forall|c: int| 0 <= c < i + 1 && ((#[trigger] av[c]).len() > 1 || edge(g, av[c][0] as int, av[c][0] as int)) implies from.contains(c) by {
                if c < i {
                    let k = choose|k: int| 0 <= k < before.len() && before[k] == c;
                    assert(from[k] == c);
                }
            }
        }
    }
    proof {
        let groups = arcs(out@);
        assert forall|c: int| 0 <= c < groups.len() implies (#[trigger] groups[c]).len() > 0 by {
            assert(groups[c] == av[from[c]]);
        }
        assert forall|x: int, c: int, k: int| #[trigger] placed(groups, x, c, k) implies placed(av, x, from[c], k) && 0 <= x < g.len() && reached(g, roots@, x) && cyclic(g, x) by {
            assert(groups[c] == av[from[c]]);
            assert(placed(av, x, from[c], k));
            lemma_cyclic_group(g, roots@, av, x, from[c], k);
        }
        assert forall|x: int| #[trigger] reached(g, roots@, x) && cyclic(g, x) implies exists|c: int, k: int| placed(groups, x, c, k) by {
            let (d, l) = choose|d: int, l: int| placed(av, x, d, l);
            lemma_cyclic_group(g, roots@, av, x, d, l);
            assert(from.contains(d));
            let c = choose|c: int| 0 <= c < from.len() && from[c] == d;
            assert(groups[c] == av[from[c]]);
            assert(placed(groups, x, c, l));
        }
        assert forall|x: int, y: int, c: int, k: int, d: int, l: int| #[trigger] placed(groups, x, c, k) && #[trigger] placed(groups, y, d, l) implies (c == d <==> mutual(g, x, y)) by {
            assert(placed(av, x, from[c], k) && placed(av, y, from[d], l));
            if c < d {
                assert(from[c] < from[d]);
            } else if d < c {
                assert(from[d] < from[c]);
            }
        }
    }
    out
}

pub proof fn lemma_steps_join<A>(rel: spec_fn(A, A) -> bool, u: A, v: A, w: A, n: nat, m: nat)
    requires
        steps_to(rel, u, v, n),
        steps_to(rel, v, w, m),
    ensures
        steps_to(rel, u, w, n + m),
    decreases n,
{
    if n > 0 {
        let x = choose|x: A| #[trigger] rel(u, x) && steps_to(rel, x, v, (n - 1) as nat);
        lemma_steps_join(rel, x, v, w, (n - 1) as nat, m);
        assert((n + m - 1) as nat == (n - 1) as nat + m);
        assert(rel(u, x) && steps_to(rel, x, w, (n + m - 1) as nat));
    }
}

/// Where the relation goes both ways, so do chains of it.
pub proof fn lemma_steps_back<A>(rel: spec_fn(A, A) -> bool, u: A, v: A, n: nat)
    requires
        forall|a: A, b: A| #[trigger] rel(a, b) ==> rel(b, a),
        steps_to(rel, u, v, n),
    ensures
        steps_to(rel, v, u, n),
    decreases n,
{
    if n > 0 {
        let x = choose|x: A| #[trigger] rel(u, x) && steps_to(rel, x, v, (n - 1) as nat);
        lemma_steps_back(rel, x, v, (n - 1) as nat);
        assert(rel(x, u));
        assert(steps_to(rel, u, u, 0));
        assert(steps_to(rel, x, u, 1));
        lemma_steps_join(rel, v, x, u, (n - 1) as nat, 1);
    }
}

/// Where the relation goes both ways, what one leads to leads back.
pub proof fn lemma_leads_back<A>(rel: spec_fn(A, A) -> bool, u: A, v: A)
    requires
        forall|a: A, b: A| #[trigger] rel(a, b) ==> rel(b, a),
        leads_to(rel, u, v),
    ensures
        leads_to(rel, v, u),
{
    reveal(leads_to);
    let n = choose|n: nat| steps_to(rel, u, v, n);
    lemma_steps_back(rel, u, v, n);
}

pub proof fn lemma_leads_one<A>(rel: spec_fn(A, A) -> bool, u: A, v: A)
    requires
        rel(u, v),
    ensures
        leads_to(rel, u, v),
{
    reveal(leads_to);
    assert(steps_to(rel, v, v, 0));
    assert(steps_to(rel, u, v, 1));
}

/// The last step of a walk.
pub proof fn lemma_last_step(g: Seq<Seq<usize>>, u: int, v: int, n: nat) -> (w: int)
    requires
        reach_in(g, u, v, n + 1),
    ensures
        reach_in(g, u, w, n),
        edge(g, w, v),
    decreases n,
{
    let x = choose|x: int| #[trigger] edge(g, u, x) && reach_in(g, x, v, n);
    if n == 0 {
        u
    } else {
        let w = lemma_last_step(g, x, v, (n - 1) as nat);
        assert(edge(g, u, x) && reach_in(g, x, w, (n - 1) as nat));
        w
    }
}

pub proof fn lemma_one_more(g: Seq<Seq<usize>>, u: int, v: int, w: int, n: nat)
    requires
        reach_in(g, u, v, n),
        edge(g, v, w),
    ensures
        reach_in(g, u, w, n + 1),
{
    assert(reach_in(g, w, w, 0));
    assert(reach_in(g, v, w, 1));
    lemma_reach_in_joins(g, u, v, w, n, 1);
}

/// `v` can be reached from `u` in at most `d` steps.
pub open spec fn within(g: Seq<Seq<usize>>, u: int, v: int, d: nat) -> bool {
    exists|n: nat| n <= d && #[trigger] reach_in(g, u, v, n)
}

/// `v` can be reached from `u` in no more steps than the limit, if there is
/// one.
pub open spec fn near(g: Seq<Seq<usize>>, u: int, v: int, limit: Option<usize>) -> bool {
    match limit {
        Some(d) => within(g, u, v, d as nat),
        None => reaches(g, u, v),
    }
}

/// How many of the marks are still unset.
pub open spec fn unmarked(v: Seq<bool>) -> nat
    decreases v.len(),
{
    if v.len() == 0 {
        0
    } else {
        unmarked(v.drop_last()) + (if v.last() {
            0nat
        } else {
            1nat
        })
    }
}

pub proof fn lemma_mark_one(v: Seq<bool>, i: int)
    requires
        0 <= i < v.len(),
        !v[i],
    ensures
        unmarked(v.update(i, true)) + 1 == unmarked(v),
    decreases v.len(),
{
    let after = v.update(i, true);
    if i == v.len() - 1 {
        assert(after.drop_last() =~= v.drop_last());
    } else {
        assert(after.drop_last() =~= v.drop_last().update(i, true));
        lemma_mark_one(v.drop_last(), i);
    }
}

/// Some entry of the list is `x`.
pub open spec fn listed(v: Seq<usize>, x: int) -> bool {
    exists|k: int| 0 <= k < v.len() && #[trigger] v[k] == x
}

/// Marked are the nodes at most `d` steps away, and those of them that are not
/// in the front have only marked successors.
pub open spec fn front_ok(g: Seq<Seq<usize>>, start: int, d: nat, marks: Seq<bool>, front: Seq<usize>) -> bool {
    &&& marks.len() == g.len()
    &&& forall|x: int| 0 <= x < g.len() ==> (#[trigger] marks[x] <==> within(g, start, x, d))
    &&& forall|k: int| 0 <= k < front.len() ==> (#[trigger] front[k]) < g.len() && marks[front[k] as int]
    &&& forall|x: int, y: int| 0 <= x < g.len() && marks[x] && !listed(front, x) && #[trigger] edge(g, x, y) ==> marks[y]
}

pub proof fn lemma_front_step(g: Seq<Seq<usize>>, start: int, d: nat, m0: Seq<bool>, front: Seq<usize>, m1: Seq<bool>, next: Seq<usize>)
    requires
        graph_ok(g),
        0 <= start < g.len(),
        front_ok(g, start, d, m0, front),
        m1.len() == g.len(),
        forall|x: int| 0 <= x < g.len() && m0[x] ==> #[trigger] m1[x],
        forall|x: int| 0 <= x < g.len() && #[trigger] m1[x] ==> m0[x] || listed(next, x),
        forall|k: int| 0 <= k < next.len() ==> (#[trigger] next[k]) < g.len() && m1[next[k] as int] && within(g, start, next[k] as int, d + 1),
        forall|k: int, y: int| 0 <= k < front.len() && #[trigger] edge(g, front[k] as int, y) ==> m1[y],
    ensures
        front_ok(g, start, d + 1, m1, next),
{
    assert forall|x: int| 0 <= x < g.len() implies (#[trigger] m1[x] <==> within(g, start, x, d + 1)) by {
        if m1[x] {
            if m0[x] {
                let n = choose|n: nat| n <= d && #[trigger] reach_in(g, start, x, n);
                assert(n <= d + 1 && reach_in(g, start, x, n));
            } else {
                let k = choose|k: int| 0 <= k < next.len() && #[trigger] next[k] == x;
                assert(within(g, start, next[k] as int, d + 1));
            }
        }
        if within(g, start, x, d + 1) {
            let n = choose|n: nat| n <= d + 1 && #[trigger] reach_in(g, start, x, n);
            if n <= d {
                assert(within(g, start, x, d));
                assert(m0[x]);
            } else {
                let w = lemma_last_step(g, start, x, d);
                assert(within(g, start, w, d));
                assert(m0[w]);
                if listed(front, w) {
                    let k = choose|k: int| 0 <= k < front.len() && #[trigger] front[k] == w;
                    assert(edge(g, front[k] as int, x));
                } else {
                    assert(m0[x]);
                }
            }
        }
    }
    assert forall|x: int, y: int| 0 <= x < g.len() && m1[x] && !listed(next, x) && #[trigger] edge(g, x, y) implies m1[y] by {
        assert(m0[x]);
        if listed(front, x) {
            let k = choose|k: int| 0 <= k < front.len() && #[trigger] front[k] == x;
            assert(edge(g, front[k] as int, y));
        } else {
            assert(m0[y]);
            let i = choose|i: int| 0 <= i < g[x].len() && (#[trigger] g[x][i]) == y;
            assert(0 <= y < g.len());
        }
    }
}

/// Whether the limit allows another step.
fn steps_left(limit: Option<usize>) -> (r: bool)
    ensures
        r == (limit matches Some(k) ==> k > 0),
{
    match limit {
        Some(k) => k > 0,
        None => true,
    }
}

/// Marks the nodes within the limit of the start.
pub fn mark_near(adj: &Vec<Vec<usize>>, start: usize, limit: Option<usize>) -> (r: Vec<bool>)
    requires
        graph_ok(arcs(adj@)),
        start < adj@.len(),
    ensures
        r@.len() == adj@.len(),
        forall|x: int| 0 <= x < r@.len() ==> (#[trigger] r@[x] <==> near(arcs(adj@), start as int, x, limit)),
{
    let ghost g = arcs(adj@);
    let n: usize = adj.len();
    let mut marks: Vec<bool> = Vec::new();
    for i in 0..n
        invariant
            marks@.len() == i,
            forall|k: int| 0 <= k < i ==> !(#[trigger] marks@[k]),
    {
        marks.push(false);
    }
    marks.set(start, true);
    let mut front: Vec<usize> = Vec::new();
    front.push(start);
    let mut left: Option<usize> = limit;
    let ghost mut d: nat = 0;
    proof {
        assert forall|x: int| 0 <= x < g.len() implies (#[trigger] marks@[x] <==> within(g, start as int, x, 0)) by {
            assert(reach_in(g, start as int, start as int, 0));
            if x == start {
                assert(0 <= 0 && reach_in(g, start as int, x, 0));
            }
        }
        assert(front@[0] == start);
        assert(front_ok(g, start as int, 0, marks@, front@));
    }
    while front.len() > 0 && steps_left(left)
        invariant
            g == arcs(adj@),
            graph_ok(g),
            start < g.len(),
            front_ok(g, start as int, d, marks@, front@),
            limit is None <==> left is None,
            limit matches Some(m) ==> d + left->0 == m,
        decreases unmarked(marks@), front@.len(),
    {
        let ghost m0 = marks@;
        let mut next: Vec<usize> = Vec::new();
        for a in 0..front.len()
            invariant
                g == arcs(adj@),
                graph_ok(g),
                start < g.len(),
                front_ok(g, start as int, d, m0, front@),
                marks@.len() == g.len(),
                forall|x: int| 0 <= x < g.len() && m0[x] ==> #[trigger] marks@[x],
                forall|x: int| 0 <= x < g.len() && #[trigger] marks@[x] ==> m0[x] || listed(next@, x),
                forall|k: int| 0 <= k < next@.len() ==> (#[trigger] next@[k]) < g.len() && marks@[next@[k] as int] && within(g, start as int, next@[k] as int, d + 1),
                forall|k: int, y: int| 0 <= k < a && #[trigger] edge(g, front@[k] as int, y) ==> marks@[y],
                next@.len() == 0 ==> marks@ == m0,
                next@.len() > 0 ==> unmarked(marks@) < unmarked(m0),
        {
            let u: usize = front[a];
            let degree: usize = adj[u].len();
            for k in 0..degree
                invariant
                    g == arcs(adj@),
                    degree == g[u as int].len(),
                    graph_ok(g),
                    start < g.len(),
                    front_ok(g, start as int, d, m0, front@),
                    a < front@.len(),
                    u == front@[a as int],
                    u < g.len(),
                    marks@.len() == g.len(),
                    forall|x: int| 0 <= x < g.len() && m0[x] ==> #[trigger] marks@[x],
                    forall|x: int| 0 <= x < g.len() && #[trigger] marks@[x] ==> m0[x] || listed(next@, x),
                    forall|k: int| 0 <= k < next@.len() ==> (#[trigger] next@[k]) < g.len() && marks@[next@[k] as int] && within(g, start as int, next@[k] as int, d + 1),
                    forall|k: int, y: int| 0 <= k < a && #[trigger] edge(g, front@[k] as int, y) ==> marks@[y],
                    forall|j: int| 0 <= j < k ==> marks@[#[trigger] g[u as int][j] as int],
                    next@.len() == 0 ==> marks@ == m0,
                    next@.len() > 0 ==> unmarked(marks@) < unmarked(m0),
            {
                let w: usize = adj[u][k];
                assert(g[u as int][k as int] == w);
                let ghost before = marks@;
                let ghost nb = next@;
                if !marks[w] {
                    proof {
                        assert(edge(g, u as int, w as int));
                        assert(m0[u as int]);
                        let m = choose|m: nat| m <= d && #[trigger] reach_in(g, start as int, u as int, m);
                        lemma_one_more(g, start as int, u as int, w as int, m);
                        assert(m + 1 <= d + 1 && reach_in(g, start as int, w as int, m + 1));
                        lemma_mark_one(marks@, w as int);
                    }
                    marks.set(w, true);
                    next.push(w);
                    assert forall|x: int| 0 <= x < g.len() && #[trigger] marks@[x] implies m0[x] || listed(next@, x) by {
                        if x == w {
                            assert(next@[nb.len() as int] == x);
                        } else if !m0[x] {
                            assert(before[x]);
                            let i = choose|i: int| 0 <= i < nb.len() && #[trigger] nb[i] == x;
                            assert(next@[i] == x);
                        }
                    }
                }
            }
            proof {
                assert forall|k: int, y: int| 0 <= k < a + 1 && #[trigger] edge(g, front@[k] as int, y) implies marks@[y] by {
                    if k == a {
                        let j = choose|j: int| 0 <= j < g[u as int].len() && (#[trigger] g[u as int][j]) == y;
                        assert(marks@[g[u as int][j] as int]);
                    }
                }
            }
        }
        proof {
            lemma_front_step(g, start as int, d, m0, front@, marks@, next@);
            d = d + 1;
        }
        front = next;
        left = match left {
            Some(k) => Some((k - 1) as usize),
            None => None,
        };
    }
    proof {
        assert forall|x: int| 0 <= x < marks@.len() implies (#[trigger] marks@[x] <==> near(g, start as int, x, limit)) by {
            if front@.len() == 0 {
                let inside = |y: int| 0 <= y < g.len() && marks@[y];
                assert(reach_in(g, start as int, start as int, 0));
                assert(within(g, start as int, start as int, d));
                assert(inside(start as int));
                if reaches(g, start as int, x) && !marks@[x] {
                    let r = lemma_reaches_leaves(g, inside, start as int, x);
                    let i = choose|i: int| 0 <= i < g[r.0].len() && (#[trigger] g[r.0][i]) == r.1;
                    assert(!listed(front@, r.0));
                    assert(marks@[r.1]);
                }
                reveal(reaches);
                if marks@[x] {
                    let m = choose|m: nat| m <= d && #[trigger] reach_in(g, start as int, x, m);
                    assert(reaches(g, start as int, x));
                    if let Some(l) = limit {
                        assert(m <= l && reach_in(g, start as int, x, m));
                    }
                }
                if let Some(l) = limit {
                    if within(g, start as int, x, l as nat) {
                        assert(reaches(g, start as int, x));
                    }
                }
            }
        }
    }
    marks
}

}
