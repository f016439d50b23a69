//! Ids for concepts, each used once.

use vstd::prelude::*;
use crate::model::Concept;
use crate::model::ConceptView;
use crate::order::{sort_order, SortKey};
use crate::order::{goes_before, is_sort_order, key_views, lemma_before_total, lemma_before_transitive, lemma_order_distinct, KeyView};
use crate::text::{decimal_text, lower_text, same};
use crate::text::{decimal, lemma_lex_irreflexive, lemma_lex_transitive, lex_lt, lower};

verus! {

/// The id of a concept: the directory of its kind, then its qualified name
/// with a slash for each dot.
pub open spec fn id_for(dir: Seq<char>, qualified: Seq<char>) -> Seq<char> {
    dir + "/"@ + replaced(qualified, '.', '/')
}

/// The text with one character put in place of another.
pub open spec fn replaced(s: Seq<char>, from: char, to: char) -> Seq<char> {
    s.map_values(|c: char| if c == from { to } else { c })
}

/// The text with one character put in place of another.
pub fn replace_char(s: &str, from: char, to: char) -> (r: String)
    ensures
        r@ == replaced(s@, from, to),
{
    let mut out = String::new();
    for c in it: s.chars()
        invariant
            it.seq() == s@,
            out@ == replaced(s@.take(it.index() as int), from, to),
    {
        let ghost i = it.index() as int;
        out.push(if c == from {
            to
        } else {
            c
        });
        assert(replaced(s@.take(i + 1), from, to) =~= replaced(s@.take(i), from, to).push(if s@[i] == from { to } else { s@[i] }));
    }
    assert(s@.take(s@.len() as int) =~= s@);
    out
}

/// The id of a concept.
pub fn make_id(dir: &str, qualified: &str) -> (r: String)
    ensures
        r@ == id_for(dir@, qualified@),
{
    let mut out = dir.to_owned();
    out.append("/");
    out.append(replace_char(qualified, '.', '/').as_str());
    out
}

/// What decides which of several concepts with one id is the first: the file,
/// then the line.
pub open spec fn place_keys(cs: Seq<Concept>) -> Seq<KeyView> {
    cs.map_values(|c: Concept| KeyView { major: 0, text: c.location.file@, second: ""@, minor: c.location.start_line as int })
}

/// The concept at `j` has the id of the one at `i`, but for capitals, and is
/// it or comes before it.
pub open spec fn is_namesake(cs: Seq<Concept>, i: int, j: int) -> bool {
    0 <= j < cs.len() && lower(cs[j].id@) == lower(cs[i].id@) && (j == i || goes_before(place_keys(cs), j, i))
}

/// The concept at `i` and the earlier ones with its id.
pub open spec fn namesakes(cs: Seq<Concept>, i: int) -> Set<int> {
    Set::new(|j: int| is_namesake(cs, i, j))
}

/// The id that the concept at `i` gets: its own for the first with this id, a
/// number added for the others.
pub open spec fn distinct_id(cs: Seq<Concept>, i: int) -> Seq<char> {
    if namesakes(cs, i).len() > 1 {
        cs[i].id@ + "-"@ + decimal(namesakes(cs, i).len())
    } else {
        cs[i].id@
    }
}

/// The concept with another id.
pub open spec fn with_id(c: ConceptView, id: Seq<char>) -> ConceptView {
    ConceptView { id, ..c }
}

/// What groups concepts with one id: the id in small letters, then file and
/// line.
spec fn run_keys(cs: Seq<Concept>) -> Seq<KeyView> {
    cs.map_values(|c: Concept| KeyView { major: 0, text: lower(c.id@), second: c.location.file@, minor: c.location.start_line as int })
}

proof fn lemma_run_is_namesakes(cs: Seq<Concept>, order: Seq<usize>, s: int, k: int)
    requires
        is_sort_order(run_keys(cs), order),
        0 <= s <= k < order.len(),
        cs.len() <= usize::MAX,
        forall|m: int| s <= m <= k ==> lower(cs[#[trigger] order[m] as int].id@) == lower(cs[order[k] as int].id@),
        s > 0 ==> lower(cs[order[s - 1] as int].id@) != lower(cs[order[k] as int].id@),
    ensures
        namesakes(cs, order[k] as int).len() == k - s + 1,
        namesakes(cs, order[k] as int).finite(),
{
    let rk = run_keys(cs);
    let pk = place_keys(cs);
    let i = order[k] as int;
    let run = order.subrange(s, k + 1).map_values(|x: usize| x as int);
    lemma_order_distinct(rk, order);
    assert(run.no_duplicates()) by {
        assert forall|a: int, b: int| 0 <= a < run.len() && 0 <= b < run.len() && a != b implies run[a] != run[b] by {
            if a < b {
                assert(order[s + a] != order[s + b]);
            } else {
                assert(order[s + b] != order[s + a]);
            }
        }
    }
    run.unique_seq_to_set();
    assert forall|j: int| #[trigger] run.to_set().contains(j) <==> namesakes(cs, i).contains(j) by {
        if run.contains(j) {
            let a = choose|a: int| 0 <= a < run.len() && run[a] == j;
            assert(order[s + a] == j);
            if s + a < k {
                assert(goes_before(rk, order[s + a] as int, order[k] as int));
            }
            assert(is_namesake(cs, i, j));
        }
        if is_namesake(cs, i, j) {
            assert(order.contains(j as usize));
            let m = choose|m: int| 0 <= m < order.len() && order[m] == j as usize;
            assert(order[m] == j);
            if m > k {
                assert(goes_before(rk, order[k] as int, order[m] as int));
                lemma_before_total(pk, i, j);
                assert(goes_before(pk, i, j));
                lemma_before_transitive(pk, i, j, i);
                assert(false);
            }
            if m < s {
                if m < s - 1 {
                    assert(goes_before(rk, order[m] as int, order[s - 1] as int));
                }
                assert(goes_before(rk, order[s - 1] as int, order[k] as int));
                let (x, y) = (lower(cs[j].id@), lower(cs[order[s - 1] as int].id@));
                lemma_lex_irreflexive(x);
                if m < s - 1 && x != y {
                    lemma_lex_transitive(x, y, x);
                }
                assert(false);
            }
            assert(run[m - s] == j);
            assert(run.contains(j));
        }
    }
    assert(run.to_set() =~= namesakes(cs, i));
    vstd::seq_lib::seq_to_set_is_finite(run);
}

/// Copies of the concepts in which no two that had one id, capitals aside,
/// have one.
pub fn disambiguate_duplicate_ids(concepts: &[Concept]) -> (r: Vec<Concept>)
    ensures
        r@.len() == concepts@.len(),
        forall|i: int| 0 <= i < r@.len() ==> (#[trigger] r@[i])@ == with_id(concepts@[i]@, distinct_id(concepts@, i)),
{
    let ghost cs = concepts@;
    let n: usize = concepts.len();
    let mut out: Vec<Concept> = Vec::new();
    let mut small: Vec<String> = Vec::new();
    for i in 0..n
        invariant
            cs == concepts@,
            n == cs.len(),
            out@.len() == i,
            small@.len() == i,
            forall|k: int| 0 <= k < i ==> (#[trigger] out@[k])@ == cs[k]@,
            forall|k: int| 0 <= k < i ==> (#[trigger] small@[k])@ == lower(cs[k].id@),
    {
        out.push(concepts[i].clone());
        small.push(lower_text(concepts[i].id.as_str()));
    }
    let mut keys: Vec<SortKey> = Vec::new();
    for i in 0..n
        invariant
            cs == concepts@,
            n == cs.len(),
            small@.len() == n,
            forall|k: int| 0 <= k < n ==> (#[trigger] small@[k])@ == lower(cs[k].id@),
            keys@.len() == i,
            forall|k: int| 0 <= k < i ==> (#[trigger] keys@[k])@ == run_keys(cs)[k],
    {
        keys.push(
            SortKey {
                major: 0,
                text: small[i].as_str(),
                second: concepts[i].location.file.as_str(),
                minor: concepts[i].location.start_line,
            },
        );
    }
    let order = sort_order(&keys);
    assert(key_views(keys@) =~= run_keys(cs));
    proof {
        lemma_order_distinct(run_keys(cs), order@);
    }
    let mut s: usize = 0;
    for k in 0..order.len()
        invariant
            cs == concepts@,
            n == cs.len(),
            out@.len() == n,
            small@.len() == n,
            order@.len() == n,
            forall|i: int| 0 <= i < n ==> (#[trigger] small@[i])@ == lower(cs[i].id@),
            is_sort_order(run_keys(cs), order@),
            forall|i: int, j: int| 0 <= i < j < order@.len() ==> #[trigger] order@[i] != #[trigger] order@[j],
            s <= k,
            k > 0 ==> s < k,
            forall|m: int| s <= m < k ==> lower(cs[#[trigger] order@[m] as int].id@) == lower(cs[order@[s as int] as int].id@),
            s > 0 ==> lower(cs[order@[s - 1] as int].id@) != lower(cs[order@[s as int] as int].id@),
            forall|m: int| 0 <= m < k ==> out@[#[trigger] order@[m] as int]@ == with_id(cs[order@[m] as int]@, distinct_id(cs, order@[m] as int)),
            forall|m: int| k <= m < n ==> out@[#[trigger] order@[m] as int]@ == cs[order@[m] as int]@,
    {
        let at: usize = order[k];
        if k > 0 && !same(small[at].as_str(), small[order[k - 1]].as_str()) {
            s = k;
        }
        proof {
            assert(small@[at as int]@ == lower(cs[at as int].id@));
            if k > 0 {
                assert(small@[order@[k - 1] as int]@ == lower(cs[order@[k - 1] as int].id@));
            }
            assert forall|m: int| s <= m <= k implies lower(cs[#[trigger] order@[m] as int].id@) == lower(cs[order@[k as int] as int].id@) by {
                if m < k {
                    assert(lower(cs[order@[k - 1] as int].id@) == lower(cs[order@[s as int] as int].id@));
                }
            }
            lemma_run_is_namesakes(cs, order@, s as int, k as int);
        }
        let count: usize = k - s + 1;
        if count > 1 {
            let ghost before = out@;
            let mut id = concepts[at].id.clone();
            id.append("-");
            id.append(decimal_text(count).as_str());
            let mut c = concepts[at].clone();
            c.id = id;
            out.set(at, c);
        }
        assert(out@[at as int]@ =~= with_id(cs[at as int]@, distinct_id(cs, at as int)));
    }
    proof {
        assert forall|i: int| 0 <= i < out@.len() implies (#[trigger] out@[i])@ == with_id(cs[i]@, distinct_id(cs, i)) by {
            assert(order@.contains(i as usize));
            let m = choose|m: int| 0 <= m < order@.len() && order@[m] == i as usize;
            assert(out@[order@[m] as int]@ == with_id(cs[order@[m] as int]@, distinct_id(cs, order@[m] as int)));
        }
    }
    out
}

/// The first concept whose id, capitals aside, an earlier one has.
pub open spec fn is_first_clash(cs: Seq<Concept>, i: int) -> bool {
    &&& 0 <= i < cs.len()
    &&& clashes(cs, i)
    &&& forall|j: int| 0 <= j < i ==> !(#[trigger] clashes(cs, j))
}

/// An earlier concept has this one's id, capitals aside.
pub open spec fn clashes(cs: Seq<Concept>, i: int) -> bool {
    exists|j: int| 0 <= j < i && lower((#[trigger] cs[j]).id@) == lower(cs[i].id@)
}

/// The concept in place `m` of the order has the id of the one just before.
spec fn repeats(cs: Seq<Concept>, order: Seq<usize>, m: int) -> bool {
    1 <= m && lower(cs[order[m - 1] as int].id@) == lower(cs[order[m] as int].id@)
}

/// The first concept whose id is already taken.
pub fn first_clash(concepts: &[Concept]) -> (r: Option<usize>)
    ensures
        match r {
            Some(i) => is_first_clash(concepts@, i as int),
            None => forall|i: int| 0 <= i < concepts@.len() ==> !(#[trigger] clashes(concepts@, i)),
        },
{
    let ghost cs = concepts@;
    let n: usize = concepts.len();
    let mut small: Vec<String> = Vec::new();
    for i in 0..n
        invariant
            cs == concepts@,
            n == cs.len(),
            small@.len() == i,
            forall|k: int| 0 <= k < i ==> (#[trigger] small@[k])@ == lower(cs[k].id@),
    {
        small.push(lower_text(concepts[i].id.as_str()));
    }
    let mut keys: Vec<SortKey> = Vec::new();
    for i in 0..n
        invariant
            cs == concepts@,
            n == cs.len(),
            small@.len() == n,
            forall|k: int| 0 <= k < n ==> (#[trigger] small@[k])@ == lower(cs[k].id@),
            keys@.len() == i,
            forall|k: int| 0 <= k < i ==> (#[trigger] keys@[k])@ == (KeyView { major: 0, text: lower(cs[k].id@), second: ""@, minor: 0 }),
    {
        keys.push(SortKey { major: 0, text: small[i].as_str(), second: "", minor: 0 });
    }
    let ghost kv = key_views(keys@);
    let order = sort_order(&keys);
    let mut first: Option<usize> = None;
    for k in 0..n
        invariant
            cs == concepts@,
            n == cs.len(),
            n == kv.len(),
            small@.len() == n,
            order@.len() == n,
            forall|i: int| 0 <= i < n ==> (#[trigger] small@[i])@ == lower(cs[i].id@),
            forall|i: int| 0 <= i < n ==> #[trigger] kv[i] == (KeyView { major: 0, text: lower(cs[i].id@), second: ""@, minor: 0 }),
            is_sort_order(kv, order@),
            first matches Some(f) ==> f < n && clashes(cs, f as int),
            forall|m: int| m < k && #[trigger] repeats(cs, order@, m) ==> (first matches Some(f) && f <= order@[m]),
    {
        let at: usize = order[k];
        if k > 0 && same(small[at].as_str(), small[order[k - 1]].as_str()) {
            proof {
                assert(goes_before(kv, order@[k - 1] as int, at as int));
                assert(kv[at as int].text == kv[order@[k - 1] as int].text);
                assert(order@[k - 1] < at);
                assert(lower(cs[order@[k - 1] as int].id@) == lower(cs[at as int].id@));
                assert(clashes(cs, at as int));
            }
            first = match first {
                Some(f) => if at < f {
                    Some(at)
                } else {
                    Some(f)
                },
                None => Some(at),
            };
        }
    }
    proof {
        assert forall|i: int| #[trigger] clashes(cs, i) && 0 <= i < cs.len() implies (first matches Some(f) && f <= i) by {
            let j = choose|j: int| 0 <= j < i && lower((#[trigger] cs[j]).id@) == lower(cs[i].id@);
            assert(order@.contains(i as usize));
            assert(order@.contains(j as usize));
            let m = choose|m: int| 0 <= m < order@.len() && order@[m] == i as usize;
            let l = choose|l: int| 0 <= l < order@.len() && order@[l] == j as usize;
            assert(order@[m] == i && order@[l] == j);
            assert(kv[i].text == kv[j].text);
            lemma_before_total(kv, i, j);
            if l > m {
                assert(goes_before(kv, order@[m] as int, order@[l] as int));
                lemma_lex_irreflexive(kv[i].text);
                assert(false);
            }
            assert(l < m);
            let p = order@[m - 1] as int;
            assert(goes_before(kv, p, i));
            if l < m - 1 {
                assert(goes_before(kv, j, p));
            }
            if kv[p].text != kv[i].text {
                lemma_lex_transitive(kv[j].text, kv[p].text, kv[i].text);
                lemma_lex_irreflexive(kv[i].text);
            }
            assert(repeats(cs, order@, m));
        }
        if let Some(f) = first {
            assert(is_first_clash(cs, f as int));
        }
    }
    first
}

proof fn lemma_decimal_injective(a: nat, b: nat)
    requires
        decimal(a) == decimal(b),
    ensures
        a == b,
    decreases a,
{
    lemma_decimal_len(a);
    lemma_decimal_len(b);
    let (x, y) = (decimal(a), decimal(b));
    assert(x.last() == y.last());
    if a < 10 && b >= 10 {
        lemma_decimal_len(b / 10);
        assert(false);
    }
    if b < 10 && a >= 10 {
        lemma_decimal_len(a / 10);
        assert(false);
    }
    if a >= 10 && b >= 10 {
        assert(x.drop_last() =~= decimal(a / 10));
        assert(y.drop_last() =~= decimal(b / 10));
        lemma_decimal_injective(a / 10, b / 10);
    }
}

proof fn lemma_decimal_len(a: nat)
    ensures
        decimal(a).len() >= 1,
        a >= 10 ==> decimal(a).len() >= 2,
    decreases a,
{
    if a >= 10 {
        lemma_decimal_len(a / 10);
    }
}

proof fn lemma_namesakes_finite(cs: Seq<Concept>, i: int)
    ensures
        namesakes(cs, i).finite(),
{
    let all = vstd::set_lib::set_int_range(0, cs.len() as int);
    vstd::set_lib::lemma_int_range(0, cs.len() as int);
    assert(namesakes(cs, i).subset_of(all));
    vstd::set_lib::lemma_len_subset(namesakes(cs, i), all);
}

/// Among concepts that had one id, capitals aside, the number added tells them
/// apart.
pub proof fn namesakes_get_different_numbers(cs: Seq<Concept>, i: int, j: int)
    requires
        0 <= i < cs.len(),
        0 <= j < cs.len(),
        i != j,
        lower(cs[i].id@) == lower(cs[j].id@),
    ensures
        namesakes(cs, i).len() != namesakes(cs, j).len(),
        cs[i].id@ == cs[j].id@ ==> distinct_id(cs, i) != distinct_id(cs, j),
{
    let pk = place_keys(cs);
    lemma_before_total(pk, i, j);
    let (a, b) = if goes_before(pk, i, j) { (i, j) } else { (j, i) };
    let (sa, sb) = (namesakes(cs, a), namesakes(cs, b));
    lemma_namesakes_finite(cs, a);
    lemma_namesakes_finite(cs, b);
    assert forall|k: int| sa.contains(k) implies sb.contains(k) by {
        if k != a {
            lemma_before_transitive(pk, k, a, b);
        }
    }
    assert(!sa.contains(b)) by {
        if sa.contains(b) {
            lemma_before_transitive(pk, a, b, a);
            lemma_before_total(pk, a, a);
        }
    }
    assert(sb.contains(b));
    assert(sa.subset_of(sb.remove(b)));
    vstd::set_lib::lemma_len_subset(sa, sb.remove(b));
    assert(sa.len() < sb.len());
    if cs[i].id@ == cs[j].id@ && distinct_id(cs, i) == distinct_id(cs, j) {
        let id = cs[i].id@;
        let (m, n) = (namesakes(cs, i).len(), namesakes(cs, j).len());
        reveal_strlit("-");
        lemma_decimal_len(m);
        lemma_decimal_len(n);
        if m > 1 && n > 1 {
            let (x, y) = (id + "-"@ + decimal(m), id + "-"@ + decimal(n));
            assert(x.skip(id.len() as int + 1) =~= decimal(m));
            assert(y.skip(id.len() as int + 1) =~= decimal(n));
            lemma_decimal_injective(m, n);
        } else if m > 1 {
            assert(distinct_id(cs, i).len() > id.len());
        } else if n > 1 {
            assert(distinct_id(cs, j).len() > id.len());
        } else {
            assert(sa.contains(a));
            assert(sa.len() >= 1) by {
                assert(set![a].subset_of(sa));
                vstd::set_lib::lemma_len_subset(set![a], sa);
            }
        }
    }
}

/// An id that no other concept has, capitals aside, stays.
pub proof fn unique_ids_stay(cs: Seq<Concept>, i: int)
    requires
        0 <= i < cs.len(),
        forall|j: int| 0 <= j < cs.len() && j != i ==> lower((#[trigger] cs[j]).id@) != lower(cs[i].id@),
    ensures
        distinct_id(cs, i) == cs[i].id@,
{
    assert(namesakes(cs, i) =~= set![i]);
}

/// One of the first `n` positions is that of the concept that was at `i`.
pub open spec fn comes_from(from: spec_fn(int) -> int, n: nat, i: int) -> bool {
    exists|k: int| 0 <= k < n && #[trigger] from(k) == i
}

/// `other` holds the concepts in another order: the one at `k` is the one that
/// was at `from(k)`.
pub open spec fn is_reordering(cs: Seq<Concept>, other: Seq<Concept>, from: spec_fn(int) -> int) -> bool {
    &&& other.len() == cs.len()
    &&& forall|k: int| 0 <= k < other.len() ==> 0 <= #[trigger] from(k) < cs.len() && other[k]@ == cs[from(k)]@
    &&& forall|k: int, l: int| 0 <= k < l < other.len() ==> #[trigger] from(k) != #[trigger] from(l)
    &&& forall|i: int| 0 <= i < cs.len() ==> #[trigger] comes_from(from, other.len(), i)
}

/// Which of several concepts with one id keeps it is decided by where they
/// stand in the source, not by the order in which they are given.
pub proof fn the_order_given_does_not_count(cs: Seq<Concept>, other: Seq<Concept>, from: spec_fn(int) -> int, i: int)
    requires
        is_reordering(cs, other, from),
        0 <= i < other.len(),
        forall|a: int, b: int| 0 <= a < b < cs.len() && lower((#[trigger] cs[a]).id@) == lower((#[trigger] cs[b]).id@) ==> cs[a].location.file@
            != cs[b].location.file@ || cs[a].location.start_line != cs[b].location.start_line,
    ensures
        distinct_id(other, i) == distinct_id(cs, from(i)),
{
    let (x, y) = (namesakes(other, i), namesakes(cs, from(i)));
    let (ok, ck) = (place_keys(other), place_keys(cs));
    assert(other[i]@.id == cs[from(i)]@.id);
    assert forall|j: int| 0 <= j < other.len() implies (is_namesake(other, i, j) <==> is_namesake(cs, from(i), from(j))) by {
        let (a, b) = (from(i), from(j));
        assert(other[j]@ == cs[b]@ && other[i]@ == cs[a]@);
        assert(other[j].id@ == cs[b].id@ && other[j].location.file@ == cs[b].location.file@ && other[j].location.start_line == cs[b].location.start_line);
        assert(other[i].id@ == cs[a].id@ && other[i].location.file@ == cs[a].location.file@ && other[i].location.start_line == cs[a].location.start_line);
        assert(ok[j] == ck[b] && ok[i] == ck[a]);
        if j != i && lower(cs[a].id@) == lower(cs[b].id@) {
            if i < j {
                assert(from(i) != from(j));
            } else {
                assert(from(j) != from(i));
            }
            if a < b {
                assert(ck[a] != ck[b]);
            } else {
                assert(ck[b] != ck[a]);
            }
        }
    }
    assert(x.map(from) =~= y) by {
        assert forall|b: int| x.map(from).contains(b) <==> y.contains(b) by {
            if x.map(from).contains(b) {
                let j = choose|j: int| x.contains(j) && from(j) == b;
                assert(is_namesake(other, i, j));
            }
            if y.contains(b) {
                assert(comes_from(from, other.len(), b));
                let j = choose|j: int| 0 <= j < other.len() && #[trigger] from(j) == b;
                assert(is_namesake(other, i, j));
                assert(x.contains(j));
            }
        }
    }
    assert(vstd::relations::injective_on(from, x)) by {
        assert forall|j: int, k: int| x.contains(j) && x.contains(k) && #[trigger] from(j) == #[trigger] from(k) implies j == k by {
            if j < k {
                assert(from(j) != from(k));
            } else if k < j {
                assert(from(k) != from(j));
            }
        }
    }
    lemma_namesakes_finite(other, i);
    vstd::set_lib::lemma_map_size(x, y, from);
}

/// The concept at `j` stands before the one at `i` in the source: in a file
/// that comes first, or on an earlier line of the same file; on one line the
/// one that is given first does.
pub open spec fn stands_before(cs: Seq<Concept>, j: int, i: int) -> bool {
    let (a, b) = (cs[j].location, cs[i].location);
    ||| lex_lt(a.file@, b.file@)
    ||| a.file@ == b.file@ && a.start_line < b.start_line
    ||| a.file@ == b.file@ && a.start_line == b.start_line && j < i
}

/// The concepts with the id of the one at `i`, capitals aside, that stand
/// before it.
pub open spec fn rivals_before(cs: Seq<Concept>, i: int) -> Set<int> {
    Set::new(|j: int| 0 <= j < cs.len() && j != i && lower(cs[j].id@) == lower(cs[i].id@) && stands_before(cs, j, i))
}

/// Of concepts with one id the one that stands first in the source keeps it,
/// the next gets a 2 behind it, and so on.
pub proof fn ids_are_numbered_down_the_source(cs: Seq<Concept>, i: int)
    requires
        0 <= i < cs.len(),
    ensures
        rivals_before(cs, i).finite(),
        rivals_before(cs, i).len() == 0 ==> distinct_id(cs, i) == cs[i].id@,
        rivals_before(cs, i).len() > 0 ==> distinct_id(cs, i) == cs[i].id@ + "-"@ + decimal(rivals_before(cs, i).len() + 1),
{
    lemma_namesakes_finite(cs, i);
    let pk = place_keys(cs);
    let all = namesakes(cs, i);
    let before = rivals_before(cs, i);
    assert forall|j: int| 0 <= j < cs.len() implies (goes_before(pk, j, i) <==> stands_before(cs, j, i)) by {
        lemma_lex_irreflexive(cs[j].location.file@);
        assert(pk[j] == (KeyView { major: 0, text: cs[j].location.file@, second: ""@, minor: cs[j].location.start_line as int }));
        assert(pk[i] == (KeyView { major: 0, text: cs[i].location.file@, second: ""@, minor: cs[i].location.start_line as int }));
    }
    assert(all =~= before.insert(i)) by {
        assert forall|j: int| all.contains(j) <==> before.insert(i).contains(j) by {
            if 0 <= j < cs.len() {
                assert(goes_before(pk, j, i) <==> stands_before(cs, j, i));
            }
        }
    }
    assert(before =~= all.remove(i));
}

/// An id is the directory and the qualified name behind a slash, place for
/// place, with a slash for each dot: so different names without slashes get
/// different ids.
pub proof fn ids_follow_qualified_names(dir: Seq<char>, qualified: Seq<char>, k: int)
    requires
        0 <= k < qualified.len(),
    ensures
        id_for(dir, qualified).len() == dir.len() + 1 + qualified.len(),
        id_for(dir, qualified).take(dir.len() as int) == dir,
        id_for(dir, qualified)[dir.len() as int] == '/',
        qualified[k] == '.' ==> id_for(dir, qualified)[dir.len() + 1 + k] == '/',
        qualified[k] != '.' ==> id_for(dir, qualified)[dir.len() + 1 + k] == qualified[k],
{
    reveal_strlit("/");
    assert(id_for(dir, qualified).take(dir.len() as int) =~= dir);
}

}
