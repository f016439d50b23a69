//! Deterministic ordering: a stable sort that hands back the order in which
//! items go, and a search in it.

use vstd::prelude::*;
use crate::digraph::arcs;
use crate::text::{same, text_lt};
use crate::text::{lemma_lex_irreflexive, lemma_lex_total, lemma_lex_transitive, lex_lt};

verus! {

/// What items are ordered by: the major number first, then the two texts,
/// then the minor number.
#[derive(Clone, Copy)]
pub struct SortKey<'a> {
    pub major: usize,
    pub text: &'a str,
    pub second: &'a str,
    pub minor: usize,
}

/// A sort key as a value.
pub struct KeyView {
    pub major: int,
    pub text: Seq<char>,
    pub second: Seq<char>,
    pub minor: int,
}

impl<'a> View for SortKey<'a> {
    type V = KeyView;

    open spec fn view(&self) -> KeyView {
        KeyView {
            major: self.major as int,
            text: self.text@,
            second: self.second@,
            minor: self.minor as int,
        }
    }
}

/// `a` comes before `b`.
pub open spec fn key_lt(a: KeyView, b: KeyView) -> bool {
    if a.major != b.major {
        a.major < b.major
    } else if a.text != b.text {
        lex_lt(a.text, b.text)
    } else if a.second != b.second {
        lex_lt(a.second, b.second)
    } else {
        a.minor < b.minor
    }
}

pub proof fn lemma_key_irreflexive(a: KeyView)
    ensures
        !key_lt(a, a),
{
}

pub proof fn lemma_key_total(a: KeyView, b: KeyView)
    ensures
        a == b || key_lt(a, b) || key_lt(b, a),
{
    lemma_lex_total(a.text, b.text);
    lemma_lex_total(a.second, b.second);
}

pub proof fn lemma_key_transitive(a: KeyView, b: KeyView, c: KeyView)
    requires
        key_lt(a, b),
        key_lt(b, c),
    ensures
        key_lt(a, c),
{
    if a.major == b.major && b.major == c.major {
        if a.text != b.text && b.text != c.text {
            lemma_lex_transitive(a.text, b.text, c.text);
            lemma_lex_irreflexive(a.text);
        } else if a.text == b.text && b.text == c.text {
            if a.second != b.second && b.second != c.second {
                lemma_lex_transitive(a.second, b.second, c.second);
                lemma_lex_irreflexive(a.second);
            }
        }
    }
}

/// The views of the keys.
pub open spec fn key_views(keys: Seq<SortKey>) -> Seq<KeyView> {
    keys.map_values(|k: SortKey| k@)
}

/// Item `i` goes before item `j`: by key, and by position where the keys are
/// equal.
pub open spec fn goes_before(keys: Seq<KeyView>, i: int, j: int) -> bool {
    key_lt(keys[i], keys[j]) || (keys[i] == keys[j] && i < j)
}

pub proof fn lemma_before_transitive(keys: Seq<KeyView>, i: int, j: int, k: int)
    requires
        goes_before(keys, i, j),
        goes_before(keys, j, k),
    ensures
        goes_before(keys, i, k),
{
    if key_lt(keys[i], keys[j]) && key_lt(keys[j], keys[k]) {
        lemma_key_transitive(keys[i], keys[j], keys[k]);
    }
}

pub proof fn lemma_before_total(keys: Seq<KeyView>, i: int, j: int)
    ensures
        i == j || goes_before(keys, i, j) || goes_before(keys, j, i),
        !goes_before(keys, i, i),
{
    lemma_key_total(keys[i], keys[j]);
    lemma_key_irreflexive(keys[i]);
}

/// `order` lists exactly the positions from `lo` up to `hi`, each before all
/// that follow it.
pub open spec fn is_order_of(keys: Seq<KeyView>, lo: int, hi: int, order: Seq<usize>) -> bool {
    &&& order.len() == hi - lo
    &&& forall|i: int| 0 <= i < order.len() ==> lo <= #[trigger] order[i] < hi
    &&& forall|i: int, j: int|
        0 <= i < j < order.len() ==> goes_before(keys, #[trigger] order[i] as int, #[trigger] order[j] as int)
    &&& forall|k: int| #![trigger order.contains(k as usize)] lo <= k < hi ==> order.contains(k as usize)
}

/// `order` is the stable sort of all items by key.
pub open spec fn is_sort_order(keys: Seq<KeyView>, order: Seq<usize>) -> bool {
    is_order_of(keys, 0, keys.len() as int, order)
}

/// `out` are the items sorted by their keys, equal keys in the order given.
pub open spec fn sorted_by<T>(items: Seq<T>, keys: Seq<KeyView>, out: Seq<T>) -> bool {
    exists|order: Seq<usize>| #[trigger] is_sort_order(keys, order) && out == order.map_values(|k: usize| items[k as int])
}

pub proof fn lemma_order_distinct(keys: Seq<KeyView>, order: Seq<usize>)
    requires
        is_sort_order(keys, order),
    ensures
        forall|i: int, j: int| 0 <= i < j < order.len() ==> #[trigger] order[i] != #[trigger] order[j],
{
    assert forall|i: int, j: int| 0 <= i < j < order.len() implies #[trigger] order[i] != #[trigger] order[j] by {
        assert(goes_before(keys, order[i] as int, order[j] as int));
        lemma_before_total(keys, order[i] as int, order[j] as int);
    }
}

/// What `f` gives for the numbers below `n`, in order, one after another.
pub open spec fn gather<V>(f: spec_fn(int) -> Seq<V>, n: nat) -> Seq<V>
    decreases n,
{
    if n == 0 {
        Seq::empty()
    } else {
        gather(f, (n - 1) as nat) + f(n - 1)
    }
}

/// Whether key `a` comes before key `b`.
pub fn key_before(a: &SortKey, b: &SortKey) -> (r: bool)
    ensures
        r == key_lt(a@, b@),
{
    if a.major != b.major {
        a.major < b.major
    } else if !same(a.text, b.text) {
        text_lt(a.text, b.text)
    } else if !same(a.second, b.second) {
        text_lt(a.second, b.second)
    } else {
        a.minor < b.minor
    }
}

/// The order of the items from `lo` up to `hi`.
fn order_range(keys: &Vec<SortKey>, lo: usize, hi: usize) -> (r: Vec<usize>)
    requires
        lo <= hi <= keys@.len(),
    ensures
        is_order_of(key_views(keys@), lo as int, hi as int, r@),
    decreases hi - lo,
{
    let mut out: Vec<usize> = Vec::new();
    if hi - lo == 0 {
        return out;
    }
    if hi - lo == 1 {
        out.push(lo);
        assert(out@[0] == lo);
        return out;
    }
    let mid: usize = lo + (hi - lo) / 2;
    let left = order_range(keys, lo, mid);
    let right = order_range(keys, mid, hi);
    let ghost kv = key_views(keys@);
    let mut i: usize = 0;
    let mut j: usize = 0;
    while i < left.len() || j < right.len()
        invariant
            lo < mid < hi <= keys@.len(),
            kv == key_views(keys@),
            is_order_of(kv, lo as int, mid as int, left@),
            is_order_of(kv, mid as int, hi as int, right@),
            i <= left@.len(),
            j <= right@.len(),
            out@.len() == i + j,
            forall|k: int| 0 <= k < out@.len() ==> lo <= #[trigger] out@[k] < hi,
            forall|a: int, b: int|
                0 <= a < b < out@.len() ==> goes_before(kv, #[trigger] out@[a] as int, #[trigger] out@[b] as int),
            forall|a: int, b: int|
                0 <= a < out@.len() && i <= b < left@.len() ==> goes_before(kv, #[trigger] out@[a] as int, #[trigger] left@[b] as int),
            forall|a: int, b: int|
                0 <= a < out@.len() && j <= b < right@.len() ==> goes_before(kv, #[trigger] out@[a] as int, #[trigger] right@[b] as int),
            forall|b: int| 0 <= b < i ==> out@.contains(#[trigger] left@[b]),
            forall|b: int| 0 <= b < j ==> out@.contains(#[trigger] right@[b]),
        decreases left@.len() - i + right@.len() - j,
    {
        let ghost before = out@;
        let take_left = if i < left.len() {
            j >= right.len() || !key_before(&keys[right[j]], &keys[left[i]])
        } else {
            false
        };
        if take_left {
            let x: usize = left[i];
            proof {
                assert forall|b: int| j <= b < right@.len() implies goes_before(kv, x as int, #[trigger] right@[b] as int) by {
                    lemma_before_total(kv, x as int, right@[j as int] as int);
                    if b > j {
                        lemma_before_transitive(kv, x as int, right@[j as int] as int, right@[b] as int);
                    }
                }
            }
            out.push(x);
            i += 1;
            assert(out@[before.len() as int] == left@[i - 1]);
        } else {
            let x: usize = right[j];
            proof {
                assert forall|b: int| i <= b < left@.len() implies goes_before(kv, x as int, #[trigger] left@[b] as int) by {
                    lemma_before_total(kv, x as int, left@[i as int] as int);
                    if b > i {
                        lemma_before_transitive(kv, x as int, left@[i as int] as int, left@[b] as int);
                    }
                }
            }
            out.push(x);
            j += 1;
            assert(out@[before.len() as int] == right@[j - 1]);
        }
        proof {
            assert forall|y: usize| before.contains(y) implies out@.contains(y) by {
                let k = choose|k: int| 0 <= k < before.len() && before[k] == y;
                assert(out@[k] == y);
            }
        }
    }
    proof {
        assert forall|k: int| #![trigger out@.contains(k as usize)] lo <= k < hi implies out@.contains(k as usize) by {
            if k < mid {
                assert(left@.contains(k as usize));
            } else {
                assert(right@.contains(k as usize));
            }
        }
    }
    out
}

/// The order in which the items go: by key, equal keys by position.
pub fn sort_order(keys: &Vec<SortKey>) -> (r: Vec<usize>)
    ensures
        is_sort_order(key_views(keys@), r@),
{
    order_range(keys, 0, keys.len())
}

/// The items in the given order.
pub fn in_order<T>(items: Vec<T>, order: &Vec<usize>) -> (r: Vec<T>)
    requires
        forall|i: int| 0 <= i < order@.len() ==> #[trigger] order@[i] < items@.len(),
        forall|i: int, j: int| 0 <= i < j < order@.len() ==> #[trigger] order@[i] != #[trigger] order@[j],
    ensures
        r@ == order@.map_values(|k: usize| items@[k as int]),
{
    let ghost src = items@;
    let mut slots: Vec<Option<T>> = Vec::new();
    for x in it: items
        invariant
            slots@.len() == it.index(),
            it.seq() == src,
            forall|i: int| 0 <= i < it.index() ==> slots@[i] == Some(src[i]),
    {
        slots.push(Some(x));
    }
    let mut out: Vec<T> = Vec::new();
    for i in 0..order.len()
        invariant
            slots@.len() == src.len(),
            forall|i: int| 0 <= i < order@.len() ==> #[trigger] order@[i] < src.len(),
            forall|i: int, j: int| 0 <= i < j < order@.len() ==> #[trigger] order@[i] != #[trigger] order@[j],
            out@.len() == i,
            forall|k: int| 0 <= k < i ==> out@[k] == src[order@[k] as int],
            forall|k: int| i <= k < order@.len() ==> slots@[#[trigger] order@[k] as int] == Some(src[order@[k] as int]),
    {
        let k: usize = order[i];
        let mut slot: Option<T> = None;
        std::mem::swap(&mut slots[k], &mut slot);
        if let Some(x) = slot {
            out.push(x);
        }
    }
    assert(out@ =~= order@.map_values(|k: usize| src[k as int]));
    out
}

/// The number is in the list.
pub open spec fn lists(v: Seq<usize>, x: int) -> bool {
    exists|k: int| 0 <= k < v.len() && #[trigger] v[k] == x
}

/// The texts as values.
pub open spec fn str_views(keys: Seq<&str>) -> Seq<Seq<char>> {
    keys.map_values(|k: &str| k@)
}

/// Where the key stands last, if it stands anywhere.
pub open spec fn last_of(keys: Seq<Seq<char>>, key: Seq<char>) -> Option<int>
    decreases keys.len(),
{
    if keys.len() == 0 {
        None
    } else if keys.last() == key {
        Some(keys.len() - 1)
    } else {
        last_of(keys.drop_last(), key)
    }
}

pub proof fn lemma_last_of(keys: Seq<Seq<char>>, key: Seq<char>)
    ensures
        match last_of(keys, key) {
            Some(i) => 0 <= i < keys.len() && keys[i] == key && forall|j: int| i < j < keys.len() ==> keys[j] != key,
            None => forall|j: int| 0 <= j < keys.len() ==> keys[j] != key,
        },
    decreases keys.len(),
{
    if keys.len() > 0 && keys.last() != key {
        lemma_last_of(keys.drop_last(), key);
        assert forall|j: int| 0 <= j < keys.len() - 1 implies keys[j] == keys.drop_last()[j] by {}
    }
}

/// The last place of a key is the only one with nothing after it.
pub proof fn lemma_last_is(keys: Seq<Seq<char>>, key: Seq<char>, i: int)
    requires
        0 <= i < keys.len(),
        keys[i] == key,
        forall|j: int| i < j < keys.len() ==> keys[j] != key,
    ensures
        last_of(keys, key) == Some(i),
{
    lemma_last_of(keys, key);
}

/// Keys that can be searched; of equal keys the last one is found.
pub struct KeyIndex<'a> {
    keys: Vec<&'a str>,
    order: Vec<usize>,
}

impl<'a> KeyIndex<'a> {
    /// The keys in the order they were given.
    pub closed spec fn view(self) -> Seq<Seq<char>> {
        str_views(self.keys@)
    }

    closed spec fn sort_keys(self) -> Seq<KeyView> {
        self@.map_values(|t: Seq<char>| KeyView { major: 0, text: t, second: ""@, minor: 0 })
    }

    /// The order is that of the keys.
    pub closed spec fn wf(self) -> bool {
        is_sort_order(self.sort_keys(), self.order@)
    }

    pub fn new(keys: Vec<&'a str>) -> (r: KeyIndex<'a>)
        ensures
            r.wf(),
            r@ == str_views(keys@),
    {
        let mut sort_keys: Vec<SortKey> = Vec::new();
        for i in 0..keys.len()
            invariant
                sort_keys@.len() == i,
                forall|k: int| 0 <= k < i ==> (#[trigger] sort_keys@[k])@ == (KeyView { major: 0, text: keys@[k]@, second: ""@, minor: 0 }),
        {
            sort_keys.push(SortKey { major: 0, text: keys[i], second: "", minor: 0 });
        }
        let order = sort_order(&sort_keys);
        let r = KeyIndex { keys, order };
        assert(key_views(sort_keys@) =~= r.sort_keys());
        r
    }

    /// Where the key stands last.
    pub fn find(&self, key: &str) -> (r: Option<usize>)
        requires
            self.wf(),
        ensures
            match r {
                Some(i) => last_of(self@, key@) == Some(i as int),
                None => last_of(self@, key@) is None,
            },
            r matches Some(i) ==> i < self@.len() && self@[i as int] == key@,
    {
        let ghost sk = self.sort_keys();
        let mut lo: usize = 0;
        let mut hi: usize = self.order.len();
        while lo < hi
            invariant
                self.wf(),
                sk == self.sort_keys(),
                lo <= hi <= self.order@.len(),
                forall|p: int| 0 <= p < lo ==> !lex_lt(key@, self@[(#[trigger] self.order@[p]) as int]),
                forall|p: int| hi <= p < self.order@.len() ==> lex_lt(key@, self@[(#[trigger] self.order@[p]) as int]),
            decreases hi - lo,
        {
            let mid: usize = lo + (hi - lo) / 2;
            let at: usize = self.order[mid];
            if text_lt(key, self.keys[at]) {
                proof {
                    assert forall|p: int| mid <= p < self.order@.len() implies lex_lt(key@, self@[(#[trigger] self.order@[p]) as int]) by {
                        if p > mid {
                            assert(goes_before(sk, self.order@[mid as int] as int, self.order@[p] as int));
                            if self@[at as int] != self@[self.order@[p] as int] {
                                lemma_lex_transitive(key@, self@[at as int], self@[self.order@[p] as int]);
                            }
                        }
                    }
                }
                hi = mid;
            } else {
                proof {
                    assert forall|p: int| 0 <= p <= mid implies !lex_lt(key@, self@[(#[trigger] self.order@[p]) as int]) by {
                        if p < mid {
                            assert(goes_before(sk, self.order@[p] as int, self.order@[mid as int] as int));
                            if lex_lt(key@, self@[self.order@[p] as int]) && self@[at as int] != self@[self.order@[p] as int] {
                                lemma_lex_transitive(key@, self@[self.order@[p] as int], self@[at as int]);
                            }
                        }
                    }
                }
                lo = mid + 1;
            }
        }
        proof {
            lemma_last_of(self@, key@);
            lemma_lex_irreflexive(key@);
        }
        if lo > 0 && same(self.keys[self.order[lo - 1]], key) {
            let r: usize = self.order[lo - 1];
            proof {
                assert forall|j: int| r < j < self@.len() implies self@[j] != key@ by {
                    if self@[j] == key@ {
                        assert(self.order@.contains(j as usize));
                        let p = choose|p: int| 0 <= p < self.order@.len() && self.order@[p] == j as usize;
                        if p < lo - 1 {
                            assert(goes_before(sk, self.order@[p] as int, self.order@[lo - 1] as int));
                        }
                    }
                }
                lemma_last_is(self@, key@, r as int);
            }
            Some(r)
        } else {
            proof {
                assert forall|j: int| 0 <= j < self@.len() implies self@[j] != key@ by {
                    if self@[j] == key@ {
                        assert(self.order@.contains(j as usize));
                        let p = choose|p: int| 0 <= p < self.order@.len() && self.order@[p] == j as usize;
                        assert(p < lo);
                        if p < lo - 1 {
                            assert(goes_before(sk, self.order@[p] as int, self.order@[lo - 1] as int));
                            lemma_lex_total(key@, self@[self.order@[lo - 1] as int]);
                        }
                    }
                }
            }
            None
        }
    }
}

/// The pairs as values.
pub open spec fn pair_views(pairs: Seq<(&str, &str)>) -> Seq<(Seq<char>, Seq<char>)> {
    pairs.map_values(|p: (&str, &str)| (p.0@, p.1@))
}

/// The order of pairs: by the first text, then by the second.
pub open spec fn pair_lt(a: (Seq<char>, Seq<char>), b: (Seq<char>, Seq<char>)) -> bool {
    lex_lt(a.0, b.0) || (a.0 == b.0 && lex_lt(a.1, b.1))
}

/// Each pair comes before all that follow it.
pub open spec fn strictly_sorted_pairs(r: Seq<(Seq<char>, Seq<char>)>) -> bool {
    forall|i: int, j: int| 0 <= i < j < r.len() ==> pair_lt(#[trigger] r[i], #[trigger] r[j])
}

/// Each text comes before all that follow it.
pub open spec fn strictly_sorted(r: Seq<Seq<char>>) -> bool {
    forall|i: int, j: int| 0 <= i < j < r.len() ==> lex_lt(#[trigger] r[i], #[trigger] r[j])
}

/// The pairs in order, each once.
pub fn sorted_pairs<'a>(pairs: &Vec<(&'a str, &'a str)>) -> (r: Vec<(&'a str, &'a str)>)
    ensures
        strictly_sorted_pairs(pair_views(r@)),
        forall|p: (Seq<char>, Seq<char>)| #[trigger] pair_views(r@).contains(p) <==> pair_views(pairs@).contains(p),
{
    let mut keys: Vec<SortKey> = Vec::new();
    for i in 0..pairs.len()
        invariant
            keys@.len() == i,
            forall|k: int| 0 <= k < i ==> (#[trigger] keys@[k])@ == (KeyView { major: 0, text: pairs@[k].0@, second: pairs@[k].1@, minor: 0 }),
    {
        keys.push(SortKey { major: 0, text: pairs[i].0, second: pairs[i].1, minor: 0 });
    }
    let order = sort_order(&keys);
    let ghost kv = key_views(keys@);
    let ghost pv = pair_views(pairs@);
    let mut out: Vec<(&'a str, &'a str)> = Vec::new();
    for i in 0..order.len()
        invariant
            is_sort_order(kv, order@),
            kv.len() == pairs@.len(),
            pv == pair_views(pairs@),
            forall|k: int| 0 <= k < kv.len() ==> #[trigger] kv[k] == (KeyView { major: 0, text: pv[k].0, second: pv[k].1, minor: 0 }),
            strictly_sorted_pairs(pair_views(out@)),
            out@.len() <= i,
            i > 0 ==> out@.len() > 0 && pair_views(out@).last() == pv[order@[i - 1] as int],
            forall|p: (Seq<char>, Seq<char>)| #[trigger] pair_views(out@).contains(p) ==> pv.contains(p),
            forall|k: int| 0 <= k < i ==> pair_views(out@).contains(pv[#[trigger] order@[k] as int]),
    {
        let p = pairs[order[i]];
        let n: usize = out.len();
        let fresh = n == 0 || !(same(out[n - 1].0, p.0) && same(out[n - 1].1, p.1));
        if fresh {
            let ghost before = pair_views(out@);
            proof {
                let at = order@[i as int] as int;
                assert(kv[at] == kv[at]);
                assert forall|k: int| 0 <= k < before.len() implies pair_lt(#[trigger] before[k], pv[at]) by {
                    let last = order@[i - 1] as int;
                    assert(goes_before(kv, last, at));
                    assert(kv[last] == kv[last]);
                    assert(pair_lt(pv[last], pv[at]));
                    if k < before.len() - 1 {
                        assert(pair_lt(before[k], before[before.len() - 1]));
                        let (a, b, c) = (before[k], pv[last], pv[at]);
                        if lex_lt(a.0, b.0) && lex_lt(b.0, c.0) {
                            lemma_lex_transitive(a.0, b.0, c.0);
                        } else if a.0 == b.0 && b.0 == c.0 {
                            lemma_lex_transitive(a.1, b.1, c.1);
                        }
                    }
                }
            }
            out.push(p);
            proof {
                let after = pair_views(out@);
                assert(after =~= before.push(pv[order@[i as int] as int]));
                assert forall|q: (Seq<char>, Seq<char>)| #[trigger] after.contains(q) implies pv.contains(q) by {
                    let k = choose|k: int| 0 <= k < after.len() && after[k] == q;
                    if k < before.len() {
                        assert(before[k] == q);
                        assert(before.contains(q));
                    }
                }
                assert forall|k: int| 0 <= k < i + 1 implies after.contains(pv[#[trigger] order@[k] as int]) by {
                    if k < i {
                        assert(before.contains(pv[order@[k] as int]));
                        let m = choose|m: int| 0 <= m < before.len() && before[m] == pv[order@[k] as int];
                        assert(after[m] == before[m]);
                    } else {
                        assert(after[before.len() as int] == pv[order@[k] as int]);
                    }
                }
            }
        } else {
            proof {
                let last = order@[i - 1] as int;
                let at = order@[i as int] as int;
                assert(pv[last] == pv[at]);
            }
        }
    }
    proof {
        assert forall|p: (Seq<char>, Seq<char>)| #[trigger] pair_views(out@).contains(p) <==> pv.contains(p) by {
            if pv.contains(p) {
                let k = choose|k: int| 0 <= k < pv.len() && pv[k] == p;
                assert(order@.contains(k as usize));
                let m = choose|m: int| 0 <= m < order@.len() && order@[m] == k as usize;
                assert(pair_views(out@).contains(pv[order@[m] as int]));
            }
        }
    }
    out
}

/// The texts in order, each once.
pub fn sorted_texts<'a>(items: &Vec<&'a str>) -> (r: Vec<&'a str>)
    ensures
        strictly_sorted(str_views(r@)),
        forall|t: Seq<char>| #[trigger] str_views(r@).contains(t) <==> str_views(items@).contains(t),
{
    let mut pairs: Vec<(&'a str, &'a str)> = Vec::new();
    for i in 0..items.len()
        invariant
            pairs@.len() == i,
            forall|k: int| 0 <= k < i ==> (#[trigger] pairs@[k]).0@ == items@[k]@ && pairs@[k].1@ == ""@,
    {
        pairs.push((items[i], ""));
    }
    let sorted = sorted_pairs(&pairs);
    let mut out: Vec<&'a str> = Vec::new();
    for i in 0..sorted.len()
        invariant
            out@.len() == i,
            forall|k: int| 0 <= k < i ==> #[trigger] out@[k] == sorted@[k].0,
    {
        out.push(sorted[i].0);
    }
    proof {
        let pv = pair_views(pairs@);
        let sv = pair_views(sorted@);
        let iv = str_views(items@);
        let ov = str_views(out@);
        lemma_lex_irreflexive(""@);
        assert forall|k: int| 0 <= k < sv.len() implies (#[trigger] sv[k]).1 == ""@ by {
            assert(sv.contains(sv[k]));
            assert(pv.contains(sv[k]));
        }
        assert forall|i: int, j: int| 0 <= i < j < ov.len() implies lex_lt(#[trigger] ov[i], #[trigger] ov[j]) by {
            assert(pair_lt(sv[i], sv[j]));
        }
        assert forall|t: Seq<char>| #[trigger] ov.contains(t) <==> iv.contains(t) by {
            let p = (t, ""@);
            if ov.contains(t) {
                let k = choose|k: int| 0 <= k < ov.len() && ov[k] == t;
                assert(sv[k] == p);
                assert(sv.contains(p));
                assert(pv.contains(p));
                let m = choose|m: int| 0 <= m < pv.len() && pv[m] == p;
                assert(iv[m] == t);
            }
            if iv.contains(t) {
                let k = choose|k: int| 0 <= k < iv.len() && iv[k] == t;
                assert(pv[k] == p);
                assert(pv.contains(p));
                assert(sv.contains(p));
                let m = choose|m: int| 0 <= m < sv.len() && sv[m] == p;
                assert(ov[m] == t);
            }
        }
    }
    out
}

/// The lists of texts as values.
pub open spec fn group_views(groups: Seq<Vec<&str>>) -> Seq<Seq<Seq<char>>> {
    groups.map_values(|g: Vec<&str>| str_views(g@))
}

/// No group is empty, each is in order, and so are their first texts.
pub open spec fn sorted_groups(groups: Seq<Seq<Seq<char>>>) -> bool {
    &&& forall|g: int| 0 <= g < groups.len() ==> (#[trigger] groups[g]).len() > 0 && strictly_sorted(groups[g])
    &&& forall|g: int, h: int| 0 <= g < h < groups.len() ==> lex_lt((#[trigger] groups[g])[0], (#[trigger] groups[h])[0])
}

/// `named` has the names of the numbered groups, group `perm[h]` as group `h`.
pub open spec fn is_naming(numbered: Seq<Seq<usize>>, names: Seq<Seq<char>>, named: Seq<Seq<Seq<char>>>, perm: Seq<usize>) -> bool {
    &&& named.len() == numbered.len()
    &&& perm.len() == numbered.len()
    &&& forall|h: int| 0 <= h < perm.len() ==> (#[trigger] perm[h]) < numbered.len()
    &&& forall|g: int, h: int| 0 <= g < h < perm.len() ==> #[trigger] perm[g] != #[trigger] perm[h]
    &&& forall|c: int| 0 <= c < numbered.len() ==> #[trigger] perm.contains(c as usize)
    &&& forall|h: int, t: Seq<char>| 0 <= h < perm.len() ==> (#[trigger] named[h].contains(t) <==> exists|k: int|
        0 <= k < numbered[perm[h] as int].len() && names[#[trigger] numbered[perm[h] as int][k] as int] == t)
}

/// Names the numbers in each group and puts the groups in order.
pub fn name_groups<'a>(groups: &Vec<Vec<usize>>, names: &Vec<&'a str>) -> (r: Vec<Vec<&'a str>>)
    requires
        forall|c: int| 0 <= c < groups@.len() ==> (#[trigger] groups@[c])@.len() > 0,
        forall|c: int, k: int| 0 <= c < groups@.len() && 0 <= k < groups@[c]@.len() ==> (#[trigger] groups@[c]@[k]) < names@.len(),
        forall|c: int, k: int, d: int, l: int| 0 <= c < d < groups@.len() && 0 <= k < groups@[c]@.len() && 0 <= l < groups@[d]@.len()
            ==> names@[#[trigger] groups@[c]@[k] as int]@ != names@[#[trigger] groups@[d]@[l] as int]@,
    ensures
        sorted_groups(group_views(r@)),
        exists|perm: Seq<usize>| is_naming(arcs(groups@), str_views(names@), group_views(r@), perm),
{
    let ghost numbered = arcs(groups@);
    let ghost nv = str_views(names@);
    let mut lists: Vec<Vec<&'a str>> = Vec::new();
    for c in 0..groups.len()
        invariant
            numbered == arcs(groups@),
            nv == str_views(names@),
            forall|c: int| 0 <= c < groups@.len() ==> (#[trigger] groups@[c])@.len() > 0,
            forall|c: int, k: int| 0 <= c < groups@.len() && 0 <= k < groups@[c]@.len() ==> (#[trigger] groups@[c]@[k]) < names@.len(),
            lists@.len() == c,
            forall|d: int| 0 <= d < c ==> (#[trigger] lists@[d])@.len() > 0 && strictly_sorted(str_views(lists@[d]@)),
            forall|d: int, t: Seq<char>| 0 <= d < c ==> (#[trigger] str_views(lists@[d]@).contains(t) <==> exists|k: int|
                0 <= k < numbered[d].len() && nv[#[trigger] numbered[d][k] as int] == t),
    {
        let mut list: Vec<&'a str> = Vec::new();
        let size: usize = groups[c].len();
        for k in 0..size
            invariant
                c < groups@.len(),
                size == groups@[c as int]@.len(),
                forall|c: int, k: int| 0 <= c < groups@.len() && 0 <= k < groups@[c]@.len() ==> (#[trigger] groups@[c]@[k]) < names@.len(),
                list@.len() == k,
                forall|m: int| 0 <= m < k ==> #[trigger] list@[m] == names@[groups@[c as int]@[m] as int],
        {
            let x: usize = groups[c][k];
            list.push(names[x]);
        }
        let sorted = sorted_texts(&list);
        proof {
            let lv = str_views(list@);
            assert(lv.contains(lv[0]));
            assert(str_views(sorted@).contains(lv[0]));
            assert forall|t: Seq<char>| #[trigger] str_views(sorted@).contains(t) <==> exists|k: int|
                0 <= k < numbered[c as int].len() && nv[#[trigger] numbered[c as int][k] as int] == t by {
                if lv.contains(t) {
                    let k = choose|k: int| 0 <= k < lv.len() && lv[k] == t;
                    assert(nv[numbered[c as int][k] as int] == t);
                }
                if exists|k: int| 0 <= k < numbered[c as int].len() && nv[#[trigger] numbered[c as int][k] as int] == t {
                    let k = choose|k: int| 0 <= k < numbered[c as int].len() && nv[#[trigger] numbered[c as int][k] as int] == t;
                    assert(lv[k] == t);
                    assert(lv.contains(t));
                }
            }
        }
        lists.push(sorted);
    }
    let mut keys: Vec<SortKey> = Vec::new();
    for c in 0..lists.len()
        invariant
            keys@.len() == c,
            forall|d: int| 0 <= d < lists@.len() ==> (#[trigger] lists@[d])@.len() > 0,
            forall|d: int| 0 <= d < c ==> (#[trigger] keys@[d])@ == (KeyView { major: 0, text: lists@[d]@[0]@, second: ""@, minor: 0 }),
    {
        keys.push(SortKey { major: 0, text: lists[c][0], second: "", minor: 0 });
    }
    let order = sort_order(&keys);
    let ghost kv = key_views(keys@);
    let ghost lists0 = lists@;
    proof {
        lemma_order_distinct(kv, order@);
    }
    let out = in_order(lists, &order);
    proof {
        let gv = group_views(out@);
        assert forall|h: int| 0 <= h < gv.len() implies #[trigger] gv[h] == str_views(lists0[order@[h] as int]@) by {}
        assert forall|g: int, h: int| 0 <= g < h < gv.len() implies lex_lt((#[trigger] gv[g])[0], (#[trigger] gv[h])[0]) by {
            let (c, d) = (order@[g] as int, order@[h] as int);
            assert(goes_before(kv, c, d));
            assert(kv[c].text == gv[g][0] && kv[d].text == gv[h][0]);
            if gv[g][0] == gv[h][0] {
                let t = gv[g][0];
                assert(str_views(lists0[c]@).contains(t));
                assert(str_views(lists0[d]@).contains(t));
                let k = choose|k: int| 0 <= k < numbered[c].len() && nv[#[trigger] numbered[c][k] as int] == t;
                let l = choose|l: int| 0 <= l < numbered[d].len() && nv[#[trigger] numbered[d][l] as int] == t;
                assert(names@[groups@[c]@[k] as int]@ == t);
                assert(names@[groups@[d]@[l] as int]@ == t);
                if c < d {
                    assert(false);
                } else {
                    assert(false);
                }
            }
        }
        assert(is_naming(numbered, nv, gv, order@));
    }
    out
}

pub proof fn lemma_lex_asymmetric(a: Seq<char>, b: Seq<char>)
    requires
        lex_lt(a, b),
    ensures
        !lex_lt(b, a),
{
    if lex_lt(b, a) {
        lemma_lex_transitive(a, b, a);
        lemma_lex_irreflexive(a);
    }
}

/// Two lists that ascend and hold the same are the same list.
pub proof fn lemma_ascending_unique<A>(a: Seq<A>, b: Seq<A>, lt: spec_fn(A, A) -> bool)
    requires
        forall|i: int, j: int| 0 <= i < j < a.len() ==> lt(#[trigger] a[i], #[trigger] a[j]),
        forall|i: int, j: int| 0 <= i < j < b.len() ==> lt(#[trigger] b[i], #[trigger] b[j]),
        forall|x: A, y: A| #[trigger] lt(x, y) ==> !lt(y, x),
        forall|t: A| #[trigger] a.contains(t) <==> b.contains(t),
    ensures
        a == b,
    decreases a.len(),
{
    if a.len() == 0 {
        if b.len() > 0 {
            assert(b.contains(b[0]));
            assert(a.contains(b[0]));
        }
        assert(a =~= b);
    } else {
        let x = a.last();
        assert(a.contains(x));
        assert(b.contains(x));
        let y = b.last();
        assert(b.contains(y));
        assert(a.contains(y));
        let j = choose|j: int| 0 <= j < b.len() && b[j] == x;
        let i = choose|i: int| 0 <= i < a.len() && a[i] == y;
        if j < b.len() - 1 && i < a.len() - 1 {
            assert(lt(b[j], b[b.len() - 1]));
            assert(lt(a[i], a[a.len() - 1]));
            assert(false);
        }
        assert(x == y);
        let (a0, b0) = (a.drop_last(), b.drop_last());
        assert forall|t: A| #[trigger] a0.contains(t) <==> b0.contains(t) by {
            if a0.contains(t) {
                let k = choose|k: int| 0 <= k < a0.len() && a0[k] == t;
                assert(a[k] == t && lt(a[k], a[a.len() - 1]));
                assert(a.contains(t));
                let m = choose|m: int| 0 <= m < b.len() && b[m] == t;
                assert(m < b.len() - 1);
                assert(b0[m] == t);
            }
            if b0.contains(t) {
                let k = choose|k: int| 0 <= k < b0.len() && b0[k] == t;
                assert(b[k] == t && lt(b[k], b[b.len() - 1]));
                assert(a.contains(t));
                let m = choose|m: int| 0 <= m < a.len() && a[m] == t;
                assert(m < a.len() - 1);
                assert(a0[m] == t);
            }
        }
        lemma_ascending_unique(a0, b0, lt);
        assert(a =~= a0.push(x));
        assert(b =~= b0.push(y));
    }
}

/// Two lists of texts in order that hold the same are the same list.
pub proof fn lemma_sorted_unique(a: Seq<Seq<char>>, b: Seq<Seq<char>>)
    requires
        strictly_sorted(a),
        strictly_sorted(b),
        forall|t: Seq<char>| #[trigger] a.contains(t) <==> b.contains(t),
    ensures
        a == b,
{
    let lt = |x: Seq<char>, y: Seq<char>| lex_lt(x, y);
    assert forall|x: Seq<char>, y: Seq<char>| #[trigger] lt(x, y) implies !lt(y, x) by {
        lemma_lex_asymmetric(x, y);
    }
    lemma_ascending_unique(a, b, lt);
}

/// Two lists of pairs in order that hold the same are the same list.
pub proof fn lemma_sorted_pairs_unique(a: Seq<(Seq<char>, Seq<char>)>, b: Seq<(Seq<char>, Seq<char>)>)
    requires
        strictly_sorted_pairs(a),
        strictly_sorted_pairs(b),
        forall|p: (Seq<char>, Seq<char>)| #[trigger] a.contains(p) <==> b.contains(p),
    ensures
        a == b,
{
    let lt = |x: (Seq<char>, Seq<char>), y: (Seq<char>, Seq<char>)| pair_lt(x, y);
    assert forall|x: (Seq<char>, Seq<char>), y: (Seq<char>, Seq<char>)| #[trigger] lt(x, y) implies !lt(y, x) by {
        if lex_lt(x.0, y.0) {
            lemma_lex_asymmetric(x.0, y.0);
            lemma_lex_irreflexive(x.0);
        } else {
            lemma_lex_asymmetric(x.1, y.1);
            lemma_lex_irreflexive(x.0);
        }
    }
    lemma_ascending_unique(a, b, lt);
}

/// Keys have one sorted order.
pub proof fn lemma_sort_order_unique(keys: Seq<KeyView>, x: Seq<usize>, y: Seq<usize>)
    requires
        is_sort_order(keys, x),
        is_sort_order(keys, y),
    ensures
        x == y,
{
    let lt = |a: usize, b: usize| goes_before(keys, a as int, b as int);
    assert forall|a: usize, b: usize| #[trigger] lt(a, b) implies !lt(b, a) by {
        if lt(b, a) {
            lemma_before_transitive(keys, a as int, b as int, a as int);
            lemma_before_total(keys, a as int, a as int);
        }
    }
    assert forall|t: usize| #[trigger] x.contains(t) <==> y.contains(t) by {
        if x.contains(t) {
            let i = choose|i: int| 0 <= i < x.len() && x[i] == t;
            assert(0 <= x[i] < keys.len());
            assert(y.contains((t as int) as usize));
        }
        if y.contains(t) {
            let i = choose|i: int| 0 <= i < y.len() && y[i] == t;
            assert(0 <= y[i] < keys.len());
            assert(x.contains((t as int) as usize));
        }
    }
    lemma_ascending_unique(x, y, lt);
}

proof fn lemma_sorted_holds<T, V>(items: Seq<T>, keys: Seq<KeyView>, out: Seq<T>, seen: spec_fn(T) -> V, key: spec_fn(V) -> KeyView)
    requires
        sorted_by(items, keys, out),
        keys.len() == items.len(),
        items.len() <= usize::MAX,
        forall|i: int| 0 <= i < items.len() ==> #[trigger] keys[i] == key(seen(items[i])),
        forall|i: int, j: int| 0 <= i < j < items.len() ==> #[trigger] keys[i] != #[trigger] keys[j],
    ensures
        forall|i: int, j: int|
            0 <= i < j < out.len() ==> key_lt(key(#[trigger] out.map_values(seen)[i]), key(#[trigger] out.map_values(seen)[j])),
        forall|v: V| #[trigger] out.map_values(seen).contains(v) <==> items.map_values(seen).contains(v),
{
    let order = choose|order: Seq<usize>| #[trigger] is_sort_order(keys, order) && out == order.map_values(|k: usize| items[k as int]);
    let (ov, iv) = (out.map_values(seen), items.map_values(seen));
    assert forall|i: int, j: int| 0 <= i < j < out.len() implies key_lt(key(#[trigger] ov[i]), key(#[trigger] ov[j])) by {
        let (a, b) = (order[i] as int, order[j] as int);
        assert(goes_before(keys, a, b));
        assert(out[i] == items[a] && out[j] == items[b]);
        assert(keys[a] == key(seen(items[a])) && keys[b] == key(seen(items[b])));
        if a < b {
            assert(keys[a] != keys[b]);
        }
    }
    assert forall|v: V| #[trigger] ov.contains(v) <==> iv.contains(v) by {
        if ov.contains(v) {
            let i = choose|i: int| 0 <= i < ov.len() && ov[i] == v;
            assert(iv[order[i] as int] == v);
        }
        if iv.contains(v) {
            let k = choose|k: int| 0 <= k < iv.len() && iv[k] == v;
            assert(order.contains(k as usize));
            let i = choose|i: int| 0 <= i < order.len() && order[i] == k as usize;
            assert(ov[i] == v);
        }
    }
}

/// Two lists that hold the same, with no key twice, are the same once they are
/// sorted.
pub proof fn lemma_sorting_forgets_order<T, V>(
    xs: Seq<T>,
    x_keys: Seq<KeyView>,
    xo: Seq<T>,
    ys: Seq<T>,
    y_keys: Seq<KeyView>,
    yo: Seq<T>,
    seen: spec_fn(T) -> V,
    key: spec_fn(V) -> KeyView,
)
    requires
        sorted_by(xs, x_keys, xo),
        sorted_by(ys, y_keys, yo),
        x_keys.len() == xs.len() <= usize::MAX,
        y_keys.len() == ys.len() <= usize::MAX,
        forall|i: int| 0 <= i < xs.len() ==> #[trigger] x_keys[i] == key(seen(xs[i])),
        forall|i: int| 0 <= i < ys.len() ==> #[trigger] y_keys[i] == key(seen(ys[i])),
        forall|i: int, j: int| 0 <= i < j < xs.len() ==> #[trigger] x_keys[i] != #[trigger] x_keys[j],
        forall|i: int, j: int| 0 <= i < j < ys.len() ==> #[trigger] y_keys[i] != #[trigger] y_keys[j],
        forall|v: V| #[trigger] xs.map_values(seen).contains(v) <==> ys.map_values(seen).contains(v),
    ensures
        xo.map_values(seen) == yo.map_values(seen),
{
    lemma_sorted_holds(xs, x_keys, xo, seen, key);
    lemma_sorted_holds(ys, y_keys, yo, seen, key);
    let lt = |a: V, b: V| key_lt(key(a), key(b));
    assert forall|a: V, b: V| #[trigger] lt(a, b) implies !lt(b, a) by {
        if lt(b, a) {
            lemma_key_transitive(key(a), key(b), key(a));
            lemma_key_irreflexive(key(a));
        }
    }
    let (a, b) = (xo.map_values(seen), yo.map_values(seen));
    assert forall|v: V| #[trigger] a.contains(v) <==> b.contains(v) by {
        assert(a.contains(v) <==> xs.map_values(seen).contains(v));
        assert(b.contains(v) <==> ys.map_values(seen).contains(v));
    }
    assert forall|i: int, j: int| 0 <= i < j < a.len() implies lt(#[trigger] a[i], #[trigger] a[j]) by {
        assert(key_lt(key(a[i]), key(a[j])));
    }
    assert forall|i: int, j: int| 0 <= i < j < b.len() implies lt(#[trigger] b[i], #[trigger] b[j]) by {
        assert(key_lt(key(b[i]), key(b[j])));
    }
    lemma_ascending_unique(a, b, lt);
}

/// What `f` gives for some number below `n` is in the list, and nothing else.
pub proof fn lemma_gather_holds<V>(f: spec_fn(int) -> Seq<V>, n: nat, x: V)
    ensures
        gather(f, n).contains(x) <==> exists|i: int| 0 <= i < n && (#[trigger] f(i)).contains(x),
    decreases n,
{
    if n > 0 {
        lemma_gather_holds(f, (n - 1) as nat, x);
        let (a, b) = (gather(f, (n - 1) as nat), f(n - 1));
        let all = a + b;
        assert(gather(f, n) == all);
        if a.contains(x) {
            let k = choose|k: int| 0 <= k < a.len() && a[k] == x;
            assert(all[k] == x);
        }
        if b.contains(x) {
            let k = choose|k: int| 0 <= k < b.len() && b[k] == x;
            assert(all[a.len() + k] == x);
        }
        if all.contains(x) {
            let k = choose|k: int| 0 <= k < all.len() && all[k] == x;
            if k < a.len() {
                assert(a[k] == x);
            } else {
                assert(b[k - a.len()] == x);
            }
        }
    } else {
        assert(gather(f, n) == Seq::<V>::empty());
    }
}

/// Sorting neither loses an item nor adds one.
pub proof fn lemma_sorting_keeps<T>(items: Seq<T>, keys: Seq<KeyView>, out: Seq<T>)
    requires
        sorted_by(items, keys, out),
        keys.len() == items.len(),
        out.len() <= usize::MAX,
    ensures
        out.len() == items.len(),
        forall|x: T| #[trigger] out.contains(x) <==> items.contains(x),
{
    let order = choose|order: Seq<usize>| #[trigger] is_sort_order(keys, order) && out == order.map_values(|k: usize| items[k as int]);
    assert(out.len() == order.len());
    assert forall|x: T| #[trigger] out.contains(x) <==> items.contains(x) by {
        if out.contains(x) {
            let i = choose|i: int| 0 <= i < out.len() && out[i] == x;
            assert(order[i] < keys.len());
            assert(items[order[i] as int] == x);
        }
        if items.contains(x) {
            let k = choose|k: int| 0 <= k < items.len() && items[k] == x;
            assert(order.contains(k as usize));
            let i = choose|i: int| 0 <= i < order.len() && order[i] == k as usize;
            assert(out[i] == x);
        }
    }
}

/// Where `f` gives at most one item for a number, two items come from two
/// numbers, in order.
pub proof fn lemma_gather_apart<V>(f: spec_fn(int) -> Seq<V>, n: nat, p: int, q: int)
    requires
        forall|i: int| 0 <= i < n ==> (#[trigger] f(i)).len() <= 1,
        0 <= p < q < gather(f, n).len(),
    ensures
        exists|i: int, j: int| 0 <= i < j < n && (#[trigger] f(i)).contains(gather(f, n)[p]) && (#[trigger] f(j)).contains(gather(f, n)[q]),
    decreases n,
{
    let a = gather(f, (n - 1) as nat);
    let b = f(n - 1);
    assert(gather(f, n) == a + b);
    if q < a.len() {
        lemma_gather_apart(f, (n - 1) as nat, p, q);
        let (i, j) = choose|i: int, j: int| 0 <= i < j < n - 1 && (#[trigger] f(i)).contains(a[p]) && (#[trigger] f(j)).contains(a[q]);
        assert(f(i).contains(gather(f, n)[p]) && f(j).contains(gather(f, n)[q]));
    } else {
        assert(f(n - 1).len() <= 1);
        assert(p < a.len());
        lemma_gather_holds(f, (n - 1) as nat, a[p]);
        assert(a.contains(a[p]));
        let i = choose|i: int| 0 <= i < n - 1 && (#[trigger] f(i)).contains(a[p]);
        assert(b[q - a.len()] == gather(f, n)[q]);
        assert(f(i).contains(gather(f, n)[p]) && f(n - 1).contains(gather(f, n)[q]));
    }
}

}
