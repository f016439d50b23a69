//! Sorted groups of names.

use vstd::prelude::*;
use crate::digraph::{arcs, placed};
use crate::order::name_groups;
use crate::order::{group_views, is_naming, lemma_sorted_unique, sorted_groups, str_views};
use crate::scc::stands;
use crate::text::{lemma_lex_irreflexive, lex_lt};

verus! {

/// The text stands in this group.
pub open spec fn in_group(groups: Seq<Seq<Seq<char>>>, g: int, t: Seq<char>) -> bool {
    0 <= g < groups.len() && groups[g].contains(t)
}

/// The groups are in order and hold exactly the members, and two members are
/// in one group if and only if they belong together.
pub open spec fn is_grouping(
    groups: Seq<Seq<Seq<char>>>,
    member: spec_fn(Seq<char>) -> bool,
    together: spec_fn(Seq<char>, Seq<char>) -> bool,
) -> bool {
    &&& sorted_groups(groups)
    &&& forall|g: int, t: Seq<char>| #[trigger] in_group(groups, g, t) ==> member(t)
    &&& forall|t: Seq<char>| #[trigger] member(t) ==> exists|g: int| in_group(groups, g, t)
    &&& forall|g: int, h: int, s: Seq<char>, t: Seq<char>| #[trigger] in_group(groups, g, s) && #[trigger] in_group(groups, h, t) ==> (g == h <==> together(s, t))
}

/// Named groups are a grouping when the numbered ones are.
pub proof fn lemma_named_grouping(
    numbered: Seq<Seq<usize>>,
    names: Seq<Seq<char>>,
    named: Seq<Seq<Seq<char>>>,
    perm: Seq<usize>,
    member: spec_fn(Seq<char>) -> bool,
    together: spec_fn(Seq<char>, Seq<char>) -> bool,
)
    requires
        is_naming(numbered, names, named, perm),
        sorted_groups(named),
        numbered.len() <= usize::MAX,
        forall|x: int, c: int, k: int| #[trigger] placed(numbered, x, c, k) ==> member(names[x]),
        forall|t: Seq<char>| #[trigger] member(t) ==> exists|x: int, c: int, k: int| placed(numbered, x, c, k) && names[x] == t,
        forall|x: int, y: int, c: int, k: int, d: int, l: int| #[trigger] placed(numbered, x, c, k) && #[trigger] placed(numbered, y, d, l)
            ==> (c == d <==> together(names[x], names[y])),
    ensures
        is_grouping(named, member, together),
{
    assert forall|g: int, t: Seq<char>| #[trigger] in_group(named, g, t) implies exists|x: int, k: int| placed(numbered, x, perm[g] as int, k) && names[x] == t by {
        assert(named[g].contains(t));
        let k = choose|k: int| 0 <= k < numbered[perm[g] as int].len() && names[#[trigger] numbered[perm[g] as int][k] as int] == t;
        assert(placed(numbered, numbered[perm[g] as int][k] as int, perm[g] as int, k));
    }
    assert forall|g: int, t: Seq<char>| #[trigger] in_group(named, g, t) implies member(t) by {
        let (x, k) = choose|x: int, k: int| placed(numbered, x, perm[g] as int, k) && names[x] == t;
        assert(member(names[x]));
    }
    assert forall|t: Seq<char>| #[trigger] member(t) implies exists|g: int| in_group(named, g, t) by {
        let (x, c, k) = choose|x: int, c: int, k: int| placed(numbered, x, c, k) && names[x] == t;
        assert(perm.contains(c as usize));
        let g = choose|g: int| 0 <= g < perm.len() && perm[g] == c as usize;
        assert(perm[g] == c);
        assert(names[numbered[perm[g] as int][k] as int] == t);
        assert(named[g].contains(t));
        assert(in_group(named, g, t));
    }
    assert forall|g: int, h: int, s: Seq<char>, t: Seq<char>| #[trigger] in_group(named, g, s) && #[trigger] in_group(named, h, t) implies (g == h <==> together(s, t)) by {
        let (x, k) = choose|x: int, k: int| placed(numbered, x, perm[g] as int, k) && names[x] == s;
        let (y, l) = choose|y: int, l: int| placed(numbered, y, perm[h] as int, l) && names[y] == t;
        if g < h {
            assert(perm[g] != perm[h]);
        } else if h < g {
            assert(perm[h] != perm[g]);
        }
    }
}

/// Puts groups of names in order.
pub fn sorted_grouping<'a>(
    groups: &Vec<Vec<&'a str>>,
    Ghost(member): Ghost<spec_fn(Seq<char>) -> bool>,
    Ghost(together): Ghost<spec_fn(Seq<char>, Seq<char>) -> bool>,
) -> (r: Vec<Vec<&'a str>>)
    requires
        forall|c: int| 0 <= c < groups@.len() ==> (#[trigger] groups@[c])@.len() > 0,
        forall|t: Seq<char>, c: int, k: int| #[trigger] stands(group_views(groups@), t, c, k) ==> member(t),
        forall|t: Seq<char>| #[trigger] member(t) ==> exists|c: int, k: int| stands(group_views(groups@), t, c, k),
        forall|s: Seq<char>, t: Seq<char>, c: int, k: int, d: int, l: int| #[trigger] stands(group_views(groups@), s, c, k)
            && #[trigger] stands(group_views(groups@), t, d, l) ==> (c == d <==> together(s, t)),
    ensures
        is_grouping(group_views(r@), member, together),
{
    let ghost gv = group_views(groups@);
    let mut names: Vec<&'a str> = Vec::new();
    let mut numbered: Vec<Vec<usize>> = Vec::new();
    let mut c: usize = 0;
    while c < groups.len()
        invariant
            gv == group_views(groups@),
            c <= groups@.len(),
            numbered@.len() == c,
            forall|d: int| 0 <= d < c ==> (#[trigger] numbered@[d])@.len() == gv[d].len(),
            forall|d: int, k: int| 0 <= d < c && 0 <= k < gv[d].len() ==> (#[trigger] numbered@[d]@[k]) < names@.len() && names@[numbered@[d]@[k] as int]@ == gv[d][k],
        decreases groups@.len() - c,
    {
        let mut row: Vec<usize> = Vec::new();
        let size: usize = groups[c].len();
        let ghost start = names@;
        for k in 0..size
            invariant
                gv == group_views(groups@),
                c < groups@.len(),
                size == gv[c as int].len(),
                row@.len() == k,
                start.len() <= names@.len(),
                forall|m: int| 0 <= m < start.len() ==> #[trigger] names@[m] == start[m],
                forall|m: int| 0 <= m < k ==> (#[trigger] row@[m]) < names@.len() && names@[row@[m] as int]@ == gv[c as int][m],
        {
            let ghost before = names@;
            row.push(names.len());
            names.push(groups[c][k]);
            assert forall|m: int| 0 <= m < k + 1 implies (#[trigger] row@[m]) < names@.len() && names@[row@[m] as int]@ == gv[c as int][m] by {
                if m < k {
                    assert(names@[row@[m] as int] == before[row@[m] as int]);
                }
            }
        }
        let ghost rows = numbered@;
        numbered.push(row);
        assert forall|d: int, k: int| 0 <= d < c + 1 && 0 <= k < gv[d].len() implies (#[trigger] numbered@[d]@[k]) < names@.len() && names@[numbered@[d]@[k] as int]@ == gv[d][k] by {
            if d < c {
                assert(numbered@[d] == rows[d]);
                assert(rows[d]@[k] < start.len());
                assert(names@[rows[d]@[k] as int] == start[rows[d]@[k] as int]);
            }
        }
        c += 1;
    }
    let count: usize = numbered.len();
    let ghost ns = arcs(numbered@);
    let ghost nv = str_views(names@);
    proof {
        assert forall|d: int, k: int, e: int, l: int| 0 <= d < e < numbered@.len() && 0 <= k < numbered@[d]@.len() && 0 <= l < numbered@[e]@.len()
            implies names@[#[trigger] numbered@[d]@[k] as int]@ != names@[#[trigger] numbered@[e]@[l] as int]@ by {
            if gv[d][k] == gv[e][l] {
                assert(stands(gv, gv[d][k], d, k));
                assert(stands(gv, gv[d][k], e, l));
                assert(together(gv[d][k], gv[d][k]));
            }
        }
    }
    let out = name_groups(&numbered, &names);
    proof {
        let named = group_views(out@);
        let perm = choose|perm: Seq<usize>| is_naming(ns, nv, named, perm);
        assert(count == ns.len());
        assert forall|x: int, d: int, k: int| #[trigger] placed(ns, x, d, k) implies stands(gv, nv[x], d, k) by {
            assert(numbered@[d]@[k] == x);
        }
        assert forall|t: Seq<char>| #[trigger] member(t) implies exists|x: int, d: int, k: int| placed(ns, x, d, k) && nv[x] == t by {
            let (d, k) = choose|d: int, k: int| stands(gv, t, d, k);
            let x = numbered@[d]@[k] as int;
            assert(placed(ns, x, d, k) && nv[x] == t);
        }
        lemma_named_grouping(ns, nv, named, perm, member, together);
    }
    out
}

proof fn lemma_group_found(
    groups: Seq<Seq<Seq<char>>>,
    others: Seq<Seq<Seq<char>>>,
    member: spec_fn(Seq<char>) -> bool,
    together: spec_fn(Seq<char>, Seq<char>) -> bool,
    g: int,
) -> (h: int)
    requires
        is_grouping(groups, member, together),
        is_grouping(others, member, together),
        0 <= g < groups.len(),
    ensures
        0 <= h < others.len(),
        others[h] == groups[g],
{
    let t = groups[g][0];
    assert(groups[g].contains(t));
    assert(in_group(groups, g, t));
    assert(member(t));
    let h = choose|h: int| in_group(others, h, t);
    assert forall|s: Seq<char>| #[trigger] groups[g].contains(s) <==> others[h].contains(s) by {
        if groups[g].contains(s) {
            assert(in_group(groups, g, s) && in_group(groups, g, t));
            assert(together(t, s));
            assert(member(s));
            let k = choose|k: int| in_group(others, k, s);
            assert(in_group(others, h, t) && in_group(others, k, s));
            assert(k == h);
        }
        if others[h].contains(s) {
            assert(in_group(others, h, s) && in_group(others, h, t));
            assert(together(t, s));
            assert(member(s));
            let k = choose|k: int| in_group(groups, k, s);
            assert(in_group(groups, g, t) && in_group(groups, k, s));
            assert(k == g);
        }
    }
    lemma_sorted_unique(groups[g], others[h]);
    h
}

/// The first text of each group.
spec fn heads(groups: Seq<Seq<Seq<char>>>) -> Seq<Seq<char>> {
    groups.map_values(|g: Seq<Seq<char>>| g[0])
}

/// There is but one way to put members into groups: what is grouped alike
/// comes out alike, on every run.
pub proof fn groupings_are_unique(
    groups: Seq<Seq<Seq<char>>>,
    others: Seq<Seq<Seq<char>>>,
    member: spec_fn(Seq<char>) -> bool,
    together: spec_fn(Seq<char>, Seq<char>) -> bool,
)
    requires
        is_grouping(groups, member, together),
        is_grouping(others, member, together),
    ensures
        groups == others,
{
    let (a, b) = (heads(groups), heads(others));
    assert forall|t: Seq<char>| #[trigger] a.contains(t) <==> b.contains(t) by {
        if a.contains(t) {
            let g = choose|g: int| 0 <= g < a.len() && a[g] == t;
            let h = lemma_group_found(groups, others, member, together, g);
            assert(b[h] == t);
        }
        if b.contains(t) {
            let g = choose|g: int| 0 <= g < b.len() && b[g] == t;
            let h = lemma_group_found(others, groups, member, together, g);
            assert(a[h] == t);
        }
    }
    assert forall|i: int, j: int| 0 <= i < j < a.len() implies lex_lt(#[trigger] a[i], #[trigger] a[j]) by {
        assert(lex_lt(groups[i][0], groups[j][0]));
    }
    assert forall|i: int, j: int| 0 <= i < j < b.len() implies lex_lt(#[trigger] b[i], #[trigger] b[j]) by {
        assert(lex_lt(others[i][0], others[j][0]));
    }
    lemma_sorted_unique(a, b);
    assert forall|g: int| 0 <= g < groups.len() implies groups[g] == others[g] by {
        let h = lemma_group_found(groups, others, member, together, g);
        assert(b[h] == a[g] && a[g] == b[g]);
        lemma_lex_irreflexive(b[g]);
        if h < g {
            assert(lex_lt(b[h], b[g]));
        } else if g < h {
            assert(lex_lt(b[g], b[h]));
        }
    }
    assert(a.len() == groups.len() && b.len() == others.len());
    assert(groups =~= others);
}

}
