//! What a model is asked about, and what its answers make of it.

use vstd::prelude::*;
use crate::enrich::{are_closest, answer_for, ascending_questions, closeness_keys, described, embedded, is_asked, prior, questions, taken_over, with_prior, without_slashes};
use crate::links::{all_pairs, are_suggestions, asks_about, candidate_for, distinct_pairs, is_new, nearest_pairs, pair_of, pairs_at, pairs_from, same_pair, suggested, suggestion_keys, suggestion_views, LinkJob, SuggestedLink};
use crate::model::{opt_text, Concept, ConceptView};
use crate::order::{goes_before, is_sort_order, lemma_gather_holds, lemma_sorting_keeps, sorted_by};
use crate::reach::{lemma_stands, stands_for};
use crate::text::{is_space, lex_lt, lower, trim, trimming_leaves_out_white_space};

verus! {

/// The text is there and holds more than white space.
pub open spec fn says_something(d: Option<Seq<char>>) -> bool {
    d matches Some(s) && exists|k: int| 0 <= k < s.len() && !is_space(#[trigger] s[k])
}

pub proof fn lemma_says(d: Option<Seq<char>>)
    ensures
        described(d) <==> says_something(d),
{
    if let Some(s) = d {
        trimming_leaves_out_white_space(s);
        let t = trim(s);
        let (a, b) = choose|a: Seq<char>, b: Seq<char>| s == #[trigger] (a + t + b) && (forall|k: int| 0 <= k < a.len() ==> is_space(#[trigger] a[k])) && (forall|k: int|
            0 <= k < b.len() ==> is_space(#[trigger] b[k]));
        if t.len() > 0 {
            assert(s[a.len() as int] == t[0]);
        } else if says_something(d) {
            let k = choose|k: int| 0 <= k < s.len() && !is_space(#[trigger] s[k]);
            if k < a.len() {
                assert(s[k] == a[k]);
            } else {
                assert(s[k] == b[k - a.len()]);
            }
        }
    }
}

/// The concept is of a sort that gets a description, and has none.
pub open spec fn lacks_description(c: Concept) -> bool {
    (c.kind is Function || c.kind is Method || c.kind is Module || c.kind is Package) && !says_something(opt_text(c.description))
}

/// The earlier concept at `j` is the last with the id that is described.
pub open spec fn is_last_described(previous: Seq<Concept>, id: Seq<char>, j: int) -> bool {
    &&& 0 <= j < previous.len()
    &&& previous[j].id@ == id
    &&& says_something(opt_text(previous[j].description))
    &&& forall|k: int| j < k < previous.len() && (#[trigger] previous[k]).id@ == id ==> !says_something(opt_text(previous[k].description))
}

proof fn lemma_prior(previous: Seq<Concept>, id: Seq<char>, n: nat)
    requires
        n <= previous.len(),
    ensures
        match prior(previous, id, n) {
            Some(d) => exists|j: int| {
                &&& 0 <= j < n
                &&& (#[trigger] previous[j]).id@ == id
                &&& says_something(opt_text(previous[j].description))
                &&& opt_text(previous[j].description) == Some(d)
                &&& forall|k: int| j < k < n && (#[trigger] previous[k]).id@ == id ==> !says_something(opt_text(previous[k].description))
            },
            None => forall|k: int| 0 <= k < n && (#[trigger] previous[k]).id@ == id ==> !says_something(opt_text(previous[k].description)),
        },
    decreases n,
{
    if n > 0 {
        lemma_says(opt_text(previous[n - 1].description));
        lemma_prior(previous, id, (n - 1) as nat);
        if previous[n - 1].id@ == id && described(opt_text(previous[n - 1].description)) {
            assert(opt_text(previous[n - 1].description) == prior(previous, id, n));
        }
    }
}

/// A concept without a description takes over that of the last earlier concept
/// with its id that has one; any other concept stays as it is. Either way
/// nothing but the description changes.
pub proof fn earlier_descriptions_are_taken_over(c: Concept, previous: Seq<Concept>)
    ensures
        with_prior(c, previous) == (ConceptView { description: with_prior(c, previous).description, ..c@ }),
        !lacks_description(c) ==> with_prior(c, previous) == c@,
        forall|j: int| lacks_description(c) && #[trigger] is_last_described(previous, c.id@, j) ==> with_prior(c, previous).description == opt_text(previous[j].description),
        (forall|j: int| !#[trigger] is_last_described(previous, c.id@, j)) ==> with_prior(c, previous) == c@,
        is_asked(c, previous) <==> lacks_description(c) && forall|j: int| !#[trigger] is_last_described(previous, c.id@, j),
{
    lemma_says(opt_text(c.description));
    lemma_prior(previous, c.id@, previous.len());
    match prior(previous, c.id@, previous.len()) {
        Some(d) => {
            let j = choose|j: int| {
                &&& 0 <= j < previous.len()
                &&& (#[trigger] previous[j]).id@ == c.id@
                &&& says_something(opt_text(previous[j].description))
                &&& opt_text(previous[j].description) == Some(d)
                &&& forall|k: int| j < k < previous.len() && (#[trigger] previous[k]).id@ == c.id@ ==> !says_something(opt_text(previous[k].description))
            };
            assert(is_last_described(previous, c.id@, j));
            assert forall|k: int| #[trigger] is_last_described(previous, c.id@, k) implies k == j by {
                if k < j {
                    assert(previous[j].id@ == c.id@);
                }
                if j < k {
                    assert(previous[k].id@ == c.id@);
                }
            }
        },
        None => {
            assert forall|j: int| !#[trigger] is_last_described(previous, c.id@, j) by {
                if is_last_described(previous, c.id@, j) {
                    assert(previous[j].id@ == c.id@);
                }
            }
        },
    }
}

/// One of the pairs has the position.
pub open spec fn is_listed(v: Seq<(usize, Seq<char>)>, i: int) -> bool {
    exists|k: int| 0 <= k < v.len() && (#[trigger] v[k]).0 == i
}

/// The model is asked about the concepts that lack a description and that no
/// earlier concept with their id has one for, about each once, in their order.
pub proof fn questions_are_about_what_lacks_a_description(cs: Seq<Concept>, previous: Seq<Concept>, n: nat)
    requires
        n <= cs.len() <= usize::MAX,
    ensures
        forall|i: int| #[trigger] is_listed(questions(cs, previous, n), i) <==> 0 <= i < n && lacks_description(cs[i]) && forall|j: int| !#[trigger] is_last_described(
            previous,
            cs[i].id@,
            j,
        ),
        forall|k: int, l: int| 0 <= k < l < questions(cs, previous, n).len() ==> (#[trigger] questions(cs, previous, n)[k]).0 < (#[trigger] questions(cs, previous, n)[l]).0,
    decreases n,
{
    let all = questions(cs, previous, n);
    if n > 0 {
        let rest = questions(cs, previous, (n - 1) as nat);
        questions_are_about_what_lacks_a_description(cs, previous, (n - 1) as nat);
        earlier_descriptions_are_taken_over(cs[n - 1], previous);
        lemma_listed_one_more(rest, all, n - 1, is_asked(cs[n - 1], previous));
        assert forall|k: int, l: int| 0 <= k < l < all.len() implies (#[trigger] all[k]).0 < (#[trigger] all[l]).0 by {
            assert(rest[k] == all[k]);
            assert(is_listed(rest, rest[k].0 as int));
            if l < rest.len() {
                assert(rest[l] == all[l]);
            }
        }
    }
}

proof fn lemma_listed_one_more(rest: Seq<(usize, Seq<char>)>, all: Seq<(usize, Seq<char>)>, at: int, more: bool)
    requires
        more ==> all.len() == rest.len() + 1 && all.last().0 == at,
        !more ==> all == rest,
        forall|k: int| 0 <= k < rest.len() ==> #[trigger] all[k] == rest[k],
    ensures
        forall|i: int| #[trigger] is_listed(all, i) <==> is_listed(rest, i) || (more && i == at),
{
    assert forall|i: int| #[trigger] is_listed(all, i) <==> is_listed(rest, i) || (more && i == at) by {
        if is_listed(rest, i) {
            let k = choose|k: int| 0 <= k < rest.len() && (#[trigger] rest[k]).0 == i;
            assert(all[k].0 == i);
        }
        if more {
            assert(all[all.len() - 1].0 == at);
        }
        if is_listed(all, i) {
            let k = choose|k: int| 0 <= k < all.len() && (#[trigger] all[k]).0 == i;
            if k < rest.len() {
                assert(rest[k].0 == i);
            }
        }
    }
}

/// An answer goes to the concept that was asked about, and no other concept
/// gets one.
pub proof fn answers_go_where_they_were_asked(asked: Seq<(usize, String)>, answers: Seq<Option<String>>, i: int, n: nat)
    requires
        ascending_questions(asked, n),
        answers.len() == asked.len(),
    ensures
        forall|k: int| 0 <= k < asked.len() && (#[trigger] asked[k]).0 == i ==> answer_for(asked, answers, i) == opt_text(answers[k]),
        (forall|k: int| 0 <= k < asked.len() ==> (#[trigger] asked[k]).0 != i) ==> answer_for(asked, answers, i) is None,
{
    if exists|k: int| 0 <= k < asked.len() && (#[trigger] asked[k]).0 == i {
        let c = choose|k: int| 0 <= k < asked.len() && (#[trigger] asked[k]).0 == i;
        assert forall|k: int| 0 <= k < asked.len() && (#[trigger] asked[k]).0 == i implies k == c by {
            if k < c {
                assert(asked[k].0 < asked[c].0);
            }
            if c < k {
                assert(asked[c].0 < asked[k].0);
            }
        }
    }
}

/// Only described concepts are searched, all of them, each once and in their
/// order.
pub proof fn what_is_described_is_searched(cs: Seq<Concept>, n: nat)
    requires
        n <= cs.len() <= usize::MAX,
    ensures
        forall|i: int| #[trigger] is_listed(embedded(cs, n), i) <==> 0 <= i < n && says_something(opt_text(cs[i].description)),
        forall|k: int, l: int| 0 <= k < l < embedded(cs, n).len() ==> (#[trigger] embedded(cs, n)[k]).0 < (#[trigger] embedded(cs, n)[l]).0,
    decreases n,
{
    let all = embedded(cs, n);
    if n > 0 {
        let rest = embedded(cs, (n - 1) as nat);
        what_is_described_is_searched(cs, (n - 1) as nat);
        lemma_says(opt_text(cs[n - 1].description));
        lemma_listed_one_more(rest, all, n - 1, described(opt_text(cs[n - 1].description)));
        assert forall|k: int, l: int| 0 <= k < l < all.len() implies (#[trigger] all[k]).0 < (#[trigger] all[l]).0 by {
            assert(rest[k] == all[k]);
            assert(is_listed(rest, rest[k].0 as int));
            if l < rest.len() {
                assert(rest[l] == all[l]);
            }
        }
    }
}

/// Candidate `a` goes before candidate `b`: it is closer, or as close with an
/// id that is smaller or the same.
pub open spec fn is_no_farther(cs: Seq<Concept>, candidates: Seq<(usize, String)>, closeness: Seq<u32>, a: int, b: int) -> bool {
    let (x, y) = (cs[candidates[a].0 as int].id@, cs[candidates[b].0 as int].id@);
    closeness[a] > closeness[b] || (closeness[a] == closeness[b] && (lex_lt(x, y) || x == y))
}

/// A search gives as many candidates as are wanted, or all where there are
/// fewer, each once, the closest first; what is left out is no closer than
/// what is given.
pub proof fn the_closest_are_found(cs: Seq<Concept>, candidates: Seq<(usize, String)>, closeness: Seq<u32>, limit: int, out: Seq<usize>)
    requires
        are_closest(cs, candidates, closeness, limit, out),
        closeness.len() == candidates.len() <= usize::MAX,
        limit >= 0,
    ensures
        out.len() == if candidates.len() <= limit { candidates.len() as int } else { limit },
        forall|k: int| 0 <= k < out.len() ==> (#[trigger] out[k]) < candidates.len(),
        out.no_duplicates(),
        forall|k: int, l: int| 0 <= k < l < out.len() ==> is_no_farther(cs, candidates, closeness, #[trigger] out[k] as int, #[trigger] out[l] as int),
        forall|k: int, c: int| 0 <= k < out.len() && 0 <= c < candidates.len() && !(#[trigger] out.contains(c as usize)) ==> is_no_farther(cs, candidates, closeness, #[trigger] out[k] as int, c),
{
    let keys = closeness_keys(cs, candidates, closeness);
    let order = choose|order: Seq<usize>| #[trigger] is_sort_order(keys, order) && out == (if order.len() <= limit { order } else { order.take(limit) });
    crate::order::lemma_order_distinct(keys, order);
    assert forall|k: int, l: int| 0 <= k < l < order.len() implies is_no_farther(cs, candidates, closeness, #[trigger] order[k] as int, #[trigger] order[l] as int) by {
        assert(goes_before(keys, order[k] as int, order[l] as int));
    }
    assert forall|k: int, c: int| 0 <= k < out.len() && 0 <= c < candidates.len() && !(#[trigger] out.contains(c as usize)) implies is_no_farther(
        cs,
        candidates,
        closeness,
        #[trigger] out[k] as int,
        c,
    ) by {
        assert(order.contains(c as usize));
        let l = choose|l: int| 0 <= l < order.len() && order[l] == c as usize;
        if l < out.len() {
            assert(out[l] == c as usize);
        }
        assert(is_no_farther(cs, candidates, closeness, order[k] as int, order[l] as int));
    }
}

/// The concept can be at an end of a suggested link.
pub open spec fn can_be_linked(c: Concept) -> bool {
    !(c.kind is Package) && !(c.kind is Module) && !(c.kind is Document)
}

/// Neither concept has a relationship to the other.
pub open spec fn are_strangers(a: Concept, b: Concept) -> bool {
    &&& forall|k: int| 0 <= k < a.relationships@.len() ==> (#[trigger] a.relationships@[k]).target@ != b.id@
    &&& forall|k: int| 0 <= k < b.relationships@.len() ==> (#[trigger] b.relationships@[k]).target@ != a.id@
}

/// A hit of the concept at `i` is worth a question: it means another concept,
/// that at `t`, which can be linked and has no relationship with this one yet.
pub open spec fn is_worth_asking(cs: Seq<Concept>, i: int, hit: Seq<char>, t: int) -> bool {
    &&& stands_for(cs, t, hit)
    &&& hit != cs[i].id@
    &&& can_be_linked(cs[t])
    &&& are_strangers(cs[i], cs[t])
}

proof fn lemma_worth_asking(cs: Seq<Concept>, i: int, hit: Seq<char>)
    ensures
        match candidate_for(cs, i, hit) {
            Some(t) => is_worth_asking(cs, i, hit, t) && forall|u: int| #[trigger] is_worth_asking(cs, i, hit, u) ==> u == t,
            None => forall|u: int| !#[trigger] is_worth_asking(cs, i, hit, u),
        },
{
    lemma_stands(cs, hit);
    if let Some(t) = crate::graph::find(cs, hit) {
        let (a, b) = (cs[i], cs[t]);
        assert(crate::links::linked(a, b) <==> !are_strangers(a, b)) by {
            if crate::links::points_to(a, b.id@) {
                let k = choose|k: int| 0 <= k < a.relationships@.len() && (#[trigger] a.relationships@[k]).target@ == b.id@;
                assert(a.relationships@[k].target@ == b.id@);
            }
            if crate::links::points_to(b, a.id@) {
                let k = choose|k: int| 0 <= k < b.relationships@.len() && (#[trigger] b.relationships@[k]).target@ == a.id@;
                assert(b.relationships@[k].target@ == a.id@);
            }
        }
        assert(cs[t].id@ == hit);
    }
}

/// How many of the first `n` hits are worth a question.
pub open spec fn worth_asking(cs: Seq<Concept>, i: int, hits: Seq<Seq<char>>, n: nat) -> nat
    decreases n,
{
    if n == 0 {
        0
    } else {
        worth_asking(cs, i, hits, (n - 1) as nat) + if exists|t: int| #[trigger] is_worth_asking(cs, i, hits[n - 1], t) {
            1nat
        } else {
            0nat
        }
    }
}

proof fn lemma_pairs_from(cs: Seq<Concept>, i: int, hits: Seq<Seq<char>>, n: nat, k: nat, t: int)
    requires
        0 <= i < cs.len() <= usize::MAX,
        k < n <= hits.len(),
        is_worth_asking(cs, i, hits[k as int], t),
    ensures
        worth_asking(cs, i, hits, k) < pairs_from(cs, i, hits, n).len(),
        pairs_from(cs, i, hits, n)[worth_asking(cs, i, hits, k) as int] == (i as usize, t as usize),
    decreases n,
{
    let rest = pairs_from(cs, i, hits, (n - 1) as nat);
    lemma_worth_asking(cs, i, hits[n - 1]);
    if k < n - 1 {
        lemma_pairs_from(cs, i, hits, (n - 1) as nat, k, t);
    } else {
        lemma_pairs_count(cs, i, hits, k);
    }
}

proof fn lemma_pairs_count(cs: Seq<Concept>, i: int, hits: Seq<Seq<char>>, n: nat)
    requires
        n <= hits.len(),
    ensures
        pairs_from(cs, i, hits, n).len() == worth_asking(cs, i, hits, n),
    decreases n,
{
    if n > 0 {
        lemma_pairs_count(cs, i, hits, (n - 1) as nat);
        lemma_worth_asking(cs, i, hits[n - 1]);
        if let Some(t) = candidate_for(cs, i, hits[n - 1]) {
            assert(is_worth_asking(cs, i, hits[n - 1], t));
        }
    }
}

/// A question is about the two ids, whichever way round.
pub open spec fn asks_of(cs: Seq<Concept>, job: LinkJob, a: Seq<char>, b: Seq<char>) -> bool {
    let (x, y) = (cs[job.from as int].id@, cs[job.to as int].id@);
    (x == a && y == b) || (x == b && y == a)
}

proof fn lemma_pair_sides(a: Seq<char>, b: Seq<char>, c: Seq<char>, d: Seq<char>)
    requires
        pair_of(a, b) == pair_of(c, d),
    ensures
        (a == c && b == d) || (a == d && b == c),
{
}

proof fn lemma_kept(cs: Seq<Concept>, pairs: Seq<(usize, usize)>, n: nat, k: int) -> (j: int)
    requires
        0 <= k < n <= pairs.len(),
    ensures
        0 <= j < distinct_pairs(cs, pairs, n).len(),
        same_pair(cs, distinct_pairs(cs, pairs, n)[j], pairs[k]),
    decreases n, k,
{
    let rest = distinct_pairs(cs, pairs, (n - 1) as nat);
    if k < n - 1 {
        let j = lemma_kept(cs, pairs, (n - 1) as nat, k);
        assert(distinct_pairs(cs, pairs, n)[j] == rest[j]);
        j
    } else if is_new(cs, pairs, k) {
        rest.len() as int
    } else {
        let e = choose|e: int| 0 <= e < k && same_pair(cs, #[trigger] pairs[e], pairs[k]);
        let j = lemma_kept(cs, pairs, (n - 1) as nat, e);
        assert(distinct_pairs(cs, pairs, n)[j] == rest[j]);
        j
    }
}

/// What is described and can be linked is asked about with each of its nearest
/// hits that are worth it, as long as there are no more of these than allowed:
/// some question is about the two, in one order or the other.
pub proof fn the_nearest_strangers_are_asked_about(cs: Seq<Concept>, hits: Seq<Seq<Seq<char>>>, most: nat, jobs: Seq<LinkJob>, i: int, k: nat, t: int)
    requires
        asks_about(cs, jobs, distinct_pairs(cs, all_pairs(cs, hits, most), all_pairs(cs, hits, most).len())),
        hits.len() == cs.len() <= usize::MAX,
        0 <= i < cs.len(),
        can_be_linked(cs[i]),
        says_something(opt_text(cs[i].description)),
        k < hits[i].len(),
        is_worth_asking(cs, i, hits[i][k as int], t),
        worth_asking(cs, i, hits[i], k) < most,
    ensures
        exists|j: int| 0 <= j < jobs.len() && asks_of(cs, #[trigger] jobs[j], cs[i].id@, cs[t].id@),
{
    let pairs = all_pairs(cs, hits, most);
    let f = pairs_at(cs, hits, most);
    let p = (i as usize, t as usize);
    lemma_says(opt_text(cs[i].description));
    lemma_pairs_from(cs, i, hits[i], hits[i].len(), k, t);
    let found = pairs_from(cs, i, hits[i], hits[i].len());
    let at = worth_asking(cs, i, hits[i], k) as int;
    assert(nearest_pairs(cs, i, hits[i], most)[at] == p);
    assert(f(i).contains(p));
    lemma_gather_holds(f, cs.len(), p);
    assert(pairs.contains(p));
    let m = choose|m: int| 0 <= m < pairs.len() && pairs[m] == p;
    let j = lemma_kept(cs, pairs, pairs.len(), m);
    let q = distinct_pairs(cs, pairs, pairs.len())[j];
    assert(same_pair(cs, q, p));
    lemma_pair_sides(cs[q.0 as int].id@, cs[q.1 as int].id@, cs[i].id@, cs[t].id@);
    assert(jobs[j].from == q.0 && jobs[j].to == q.1);
    assert(asks_of(cs, jobs[j], cs[i].id@, cs[t].id@));
}

/// An answer that says something else than no, white space and capitals aside,
/// makes a suggestion, with the answer for its reason; a no makes none, and
/// nothing else does.
pub proof fn every_yes_is_a_suggestion(cs: Seq<Concept>, jobs: Seq<LinkJob>, answers: Seq<Option<String>>, n: nat, s: (Seq<char>, Seq<char>, Seq<char>))
    requires
        n <= answers.len() == jobs.len(),
    ensures
        suggested(cs, jobs, answers, n).contains(s) <==> exists|k: int| {
            &&& 0 <= k < n
            &&& opt_text(#[trigger] answers[k]) == Some(s.2)
            &&& lower(trim(s.2)) != "no"@
            &&& s.0 == cs[jobs[k].from as int].id@
            &&& s.1 == cs[jobs[k].to as int].id@
        },
    decreases n,
{
    if n > 0 {
        let (rest, all) = (suggested(cs, jobs, answers, (n - 1) as nat), suggested(cs, jobs, answers, n));
        every_yes_is_a_suggestion(cs, jobs, answers, (n - 1) as nat, s);
        if rest.contains(s) {
            let x = choose|x: int| 0 <= x < rest.len() && rest[x] == s;
            assert(all[x] == s);
        }
        if all.contains(s) {
            let x = choose|x: int| 0 <= x < all.len() && all[x] == s;
            if x < rest.len() {
                assert(rest[x] == s);
                assert(rest.contains(s));
            } else {
                assert(opt_text(answers[n - 1]) == Some(s.2));
            }
        }
        if all.len() > rest.len() {
            assert(all[rest.len() as int] == all.last());
            if all.last() == s {
                assert(all.contains(s));
            }
        }
    }
}

/// Suggestions come by the id they start from and then by the one they lead
/// to, and none is lost.
pub proof fn suggestions_come_by_their_ids(cs: Seq<Concept>, jobs: Seq<LinkJob>, answers: Seq<Option<String>>, out: Seq<SuggestedLink>)
    requires
        are_suggestions(cs, jobs, answers, out),
        out.len() <= usize::MAX,
    ensures
        out.len() == suggested(cs, jobs, answers, answers.len()).len(),
        forall|k: int, l: int| 0 <= k < l < out.len() ==> {
            ||| lex_lt((#[trigger] out[k]).from_id@, (#[trigger] out[l]).from_id@)
            ||| out[k].from_id@ == out[l].from_id@ && (lex_lt(out[k].to_id@, out[l].to_id@) || out[k].to_id@ == out[l].to_id@)
        },
{
    let items = choose|items: Seq<SuggestedLink>| suggestion_views(items) == suggested(cs, jobs, answers, answers.len()) && #[trigger] sorted_by(items, suggestion_keys(items), out);
    let keys = suggestion_keys(items);
    lemma_sorting_keeps(items, keys, out);
    assert(suggestion_views(items).len() == items.len());
    let order = choose|order: Seq<usize>| #[trigger] is_sort_order(keys, order) && out == order.map_values(|k: usize| items[k as int]);
    assert forall|k: int, l: int| 0 <= k < l < out.len() implies {
        ||| lex_lt((#[trigger] out[k]).from_id@, (#[trigger] out[l]).from_id@)
        ||| out[k].from_id@ == out[l].from_id@ && (lex_lt(out[k].to_id@, out[l].to_id@) || out[k].to_id@ == out[l].to_id@)
    } by {
        assert(goes_before(keys, order[k] as int, order[l] as int));
    }
}

/// What lacks a description is either asked about or takes one over: the two
/// numbers together are that of the concepts that lack one.
pub proof fn what_lacks_a_description_is_asked_about_or_taken_over(cs: Seq<Concept>, previous: Seq<Concept>, n: nat)
    requires
        n <= cs.len(),
    ensures
        questions(cs, previous, n).len() + taken_over(cs, previous, n) == cs.take(n as int).filter(|c: Concept| lacks_description(c)).len(),
    decreases n,
{
    reveal(Seq::filter);
    if n > 0 {
        what_lacks_a_description_is_asked_about_or_taken_over(cs, previous, (n - 1) as nat);
        assert(cs.take(n as int).drop_last() =~= cs.take(n - 1));
        assert(cs.take(n as int).last() == cs[n - 1]);
        lemma_says(opt_text(cs[n - 1].description));
    }
}

/// The slashes at the end of an address do not count, and nothing else is cut
/// off.
pub proof fn slashes_at_the_end_do_not_count(s: Seq<char>)
    ensures
        without_slashes(s).len() > 0 ==> without_slashes(s).last() != '/',
        exists|cut: Seq<char>| s == #[trigger] (without_slashes(s) + cut) && forall|k: int| 0 <= k < cut.len() ==> #[trigger] cut[k] == '/',
        without_slashes(s.push('/')) == without_slashes(s),
    decreases s.len(),
{
    assert(s.push('/').drop_last() =~= s);
    if s.len() > 0 && s.last() == '/' {
        slashes_at_the_end_do_not_count(s.drop_last());
        let cut = choose|cut: Seq<char>| s.drop_last() == #[trigger] (without_slashes(s.drop_last()) + cut) && forall|k: int| 0 <= k < cut.len() ==> #[trigger] cut[k] == '/';
        let more = cut.push('/');
        assert(s =~= s.drop_last().push('/'));
        assert(s =~= without_slashes(s) + more);
    } else {
        assert(s =~= without_slashes(s) + Seq::empty());
    }
}

}
