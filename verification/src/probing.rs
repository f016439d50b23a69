//! Which calls to ask a language server about first: those that warm one
//! crate up, and one for each crate that is probed while it is cold.

use vstd::prelude::*;
use crate::extraction::CallEntry;
use crate::extraction::EntryView;
use crate::model::{same_opt, Language};
use crate::model::opt_text;
use crate::text::{chars_of, has_prefix, same, split_text, string_of};
use crate::text::{begins_with, lemma_split_nonempty, pieces_are_cut_off, split, texts, what_is_cut_off_is_a_piece};

verus! {

/// A crate to warm up, and with how many queries.
#[derive(Debug)]
pub struct CrateWarmup {
    pub crate_name: String,
    pub queries: usize,
}

/// How the first query into a crate compared with the same query right after.
#[derive(Debug)]
pub struct CrateProbeResult {
    pub crate_name: String,
    pub cold_empty: bool,
    pub cold_elapsed: std::time::Duration,
    pub warm_empty: bool,
    pub warm_elapsed: std::time::Duration,
}

/// Why crates were not probed.
#[derive(Clone, Copy, Debug, PartialEq, Eq, Structural)]
pub struct ProbeSkips {
    pub no_server: usize,
    pub other: usize,
}

impl Default for ProbeSkips {
    fn default() -> (r: ProbeSkips)
        ensures
            r.no_server == 0,
            r.other == 0,
    {
        ProbeSkips { no_server: 0, other: 0 }
    }
}

impl ProbeSkips {
    /// How many crates were not probed.
    pub fn total(&self) -> (r: usize)
        requires
            self.no_server + self.other <= usize::MAX,
        ensures
            r == self.no_server + self.other,
    {
        self.no_server + self.other
    }
}

/// The name of the crate that a path below `crates/` leads into.
pub open spec fn crate_of(path: Seq<char>) -> Option<Seq<char>> {
    if begins_with(path, "crates/"@) {
        let name = split(path.skip("crates/"@.len() as int), '/')[0];
        if name.len() > 0 {
            Some(name)
        } else {
            None
        }
    } else {
        None
    }
}

/// The name of the crate that a path below `crates/` leads into.
pub fn crate_name_from_path(relative_path: &str) -> (r: Option<String>)
    ensures
        match r {
            Some(name) => crate_of(relative_path@) == Some(name@),
            None => crate_of(relative_path@) is None,
        },
{
    if !has_prefix(relative_path, "crates/") {
        return None;
    }
    let v = chars_of(relative_path);
    let p = chars_of("crates/");
    let rest = string_of(&v, p.len(), v.len());
    assert(rest@ =~= relative_path@.skip("crates/"@.len() as int));
    let parts = split_text(rest.as_str(), '/');
    proof {
        lemma_split_nonempty(rest@, '/');
        assert(texts(parts@)[0] == parts@[0]@);
    }
    if parts[0].as_str().unicode_len() > 0 {
        Some(parts[0].clone())
    } else {
        None
    }
}

/// What each entry says.
pub open spec fn ref_views(v: Seq<&CallEntry>) -> Seq<EntryView> {
    v.map_values(|e: &CallEntry| e@)
}

/// The entry is in the language and in the crate.
pub open spec fn warms(e: EntryView, language: Language, crate_name: Seq<char>) -> bool {
    e.language == language && crate_of(e.relative_path) == Some(crate_name)
}

/// The positions, among the first `n`, of entries in the language and the
/// crate.
pub open spec fn warming(entries: Seq<EntryView>, language: Language, crate_name: Seq<char>, n: nat) -> Seq<usize>
    decreases n,
{
    if n == 0 {
        Seq::empty()
    } else {
        let rest = warming(entries, language, crate_name, (n - 1) as nat);
        if warms(entries[n - 1], language, crate_name) {
            rest.push((n - 1) as usize)
        } else {
            rest
        }
    }
}

/// The first of those positions, as many as there are queries.
pub open spec fn warm_positions(entries: Seq<EntryView>, language: Language, crate_name: Seq<char>, queries: int) -> Seq<usize> {
    let all = warming(entries, language, crate_name, entries.len());
    if all.len() <= queries {
        all
    } else {
        all.take(queries)
    }
}

proof fn lemma_warming_grows(entries: Seq<EntryView>, language: Language, crate_name: Seq<char>, k: nat, n: nat)
    requires
        k <= n <= entries.len(),
    ensures
        warming(entries, language, crate_name, k).is_prefix_of(warming(entries, language, crate_name, n)),
    decreases n,
{
    if k < n {
        lemma_warming_grows(entries, language, crate_name, k, (n - 1) as nat);
    }
}

/// The positions that are listed are those of entries.
pub proof fn lemma_warming_in(entries: Seq<EntryView>, language: Language, crate_name: Seq<char>, n: nat)
    requires
        n <= entries.len() <= usize::MAX,
    ensures
        warming(entries, language, crate_name, n).len() <= n,
        forall|k: int| 0 <= k < warming(entries, language, crate_name, n).len() ==> (#[trigger] warming(entries, language, crate_name, n)[k]) < n,
    decreases n,
{
    if n > 0 {
        lemma_warming_in(entries, language, crate_name, (n - 1) as nat);
    }
}

/// Where the entries stand that warm the crate up.
pub fn find_warm_positions(ambiguous: &Vec<&CallEntry>, language: Language, warmup: &CrateWarmup) -> (r: Vec<usize>)
    ensures
        r@ == warm_positions(ref_views(ambiguous@), language, warmup.crate_name@, warmup.queries as int),
{
    let ghost evs = ref_views(ambiguous@);
    let ghost name = warmup.crate_name@;
    let mut out: Vec<usize> = Vec::new();
    for i in 0..ambiguous.len()
        invariant
            evs == ref_views(ambiguous@),
            name == warmup.crate_name@,
            out@ == warming(evs, language, name, i as nat),
            out.len() <= warmup.queries,
    {
        let e = ambiguous[i];
        assert(evs[i as int] == e@);
        let mut fits = e.language == language;
        if fits {
            fits = match crate_name_from_path(e.relative_path.as_str()) {
                Some(found) => same(found.as_str(), warmup.crate_name.as_str()),
                None => false,
            };
        }
        if fits {
            if out.len() == warmup.queries {
                proof {
                    lemma_warming_grows(evs, language, name, (i + 1) as nat, evs.len());
                    let all = warming(evs, language, name, evs.len());
                    assert(warming(evs, language, name, (i + 1) as nat) =~= out@.push(i));
                    assert(all.take(warmup.queries as int) =~= out@);
                }
                return out;
            }
            out.push(i);
        }
    }
    proof {
        let all = warming(evs, language, name, evs.len());
        assert(all =~= out@);
    }
    out
}

/// The entries to warm the crate up with: those in the language and the crate,
/// in their order, as many as there are queries.
pub fn warmup_targets<'a>(ambiguous: &Vec<&'a CallEntry>, language: Language, warmup: &CrateWarmup) -> (r: Vec<&'a CallEntry>)
    ensures
        ref_views(r@) == warm_positions(ref_views(ambiguous@), language, warmup.crate_name@, warmup.queries as int).map_values(
            |p: usize| ref_views(ambiguous@)[p as int],
        ),
{
    let ghost evs = ref_views(ambiguous@);
    let positions = find_warm_positions(ambiguous, language, warmup);
    let count: usize = ambiguous.len();
    proof {
        lemma_warming_in(evs, language, warmup.crate_name@, evs.len());
    }
    let mut out: Vec<&'a CallEntry> = Vec::new();
    for k in 0..positions.len()
        invariant
            evs == ref_views(ambiguous@),
            forall|j: int| 0 <= j < positions.len() ==> (#[trigger] positions[j]) < ambiguous.len(),
            out.len() == k,
            forall|j: int| 0 <= j < k ==> (#[trigger] out[j])@ == evs[positions[j] as int],
    {
        assert(positions[k as int] < ambiguous.len());
        out.push(ambiguous[positions[k]]);
    }
    assert(ref_views(out@) =~= positions@.map_values(|p: usize| evs[p as int]));
    out
}

/// The entry at `i` is the first one in its crate.
pub open spec fn opens_crate(entries: Seq<EntryView>, i: int) -> bool {
    &&& crate_of(entries[i].relative_path) is Some
    &&& forall|j: int| 0 <= j < i ==> crate_of(#[trigger] entries[j].relative_path) != crate_of(entries[i].relative_path)
}

/// The positions, among the first `n`, of the first entry in each crate.
pub open spec fn probed(entries: Seq<EntryView>, n: nat) -> Seq<usize>
    decreases n,
{
    if n == 0 {
        Seq::empty()
    } else {
        let rest = probed(entries, (n - 1) as nat);
        if opens_crate(entries, n - 1) {
            rest.push((n - 1) as usize)
        } else {
            rest
        }
    }
}

/// Probe targets as values.
pub open spec fn target_views(v: Seq<(String, &CallEntry)>) -> Seq<(Seq<char>, EntryView)> {
    v.map_values(|t: (String, &CallEntry)| (t.0@, t.1@))
}

/// Whether no earlier entry is in the crate of the one at `i`.
fn is_new_crate(names: &Vec<Option<String>>, i: usize, entries: Ghost<Seq<EntryView>>) -> (r: bool)
    requires
        i < names.len(),
        names.len() == entries@.len(),
        forall|k: int| 0 <= k < names.len() ==> opt_text(#[trigger] names[k]) == crate_of(entries@[k].relative_path),
        names[i as int] is Some,
    ensures
        r == opens_crate(entries@, i as int),
{
    assert(opt_text(names[i as int]) == crate_of(entries@[i as int].relative_path));
    for j in 0..i
        invariant
            i < names.len(),
            names.len() == entries@.len(),
            forall|k: int| 0 <= k < names.len() ==> opt_text(#[trigger] names[k]) == crate_of(entries@[k].relative_path),
            names[i as int] is Some,
            forall|k: int| 0 <= k < j ==> crate_of(#[trigger] entries@[k].relative_path) != crate_of(entries@[i as int].relative_path),
    {
        assert(opt_text(names[j as int]) == crate_of(entries@[j as int].relative_path));
        if same_opt(&names[j], &names[i]) {
            assert(crate_of(entries@[j as int].relative_path) == crate_of(entries@[i as int].relative_path));
            return false;
        }
    }
    true
}

/// The target that the entry at a position makes.
pub open spec fn target_at(entries: Seq<EntryView>) -> spec_fn(usize) -> (Seq<char>, EntryView) {
    |p: usize| (crate_of(entries[p as int].relative_path)->0, entries[p as int])
}

/// The first entry in each crate, with the crate's name.
pub fn probe_targets<'a>(ambiguous: &Vec<&'a CallEntry>) -> (r: Vec<(String, &'a CallEntry)>)
    ensures
        target_views(r@) == probed(ref_views(ambiguous@), ambiguous@.len()).map_values(target_at(ref_views(ambiguous@))),
{
    let ghost evs = ref_views(ambiguous@);
    let mut names: Vec<Option<String>> = Vec::new();
    for i in 0..ambiguous.len()
        invariant
            evs == ref_views(ambiguous@),
            names.len() == i,
            forall|k: int| 0 <= k < i ==> opt_text(#[trigger] names[k]) == crate_of(evs[k].relative_path),
    {
        assert(evs[i as int] == ambiguous[i as int]@);
        names.push(crate_name_from_path(ambiguous[i].relative_path.as_str()));
    }
    let mut out: Vec<(String, &'a CallEntry)> = Vec::new();
    assert(target_views(out@) =~= probed(evs, 0).map_values(target_at(evs)));
    for i in 0..ambiguous.len()
        invariant
            evs == ref_views(ambiguous@),
            names.len() == evs.len(),
            ambiguous.len() == evs.len(),
            forall|k: int| 0 <= k < names.len() ==> opt_text(#[trigger] names[k]) == crate_of(evs[k].relative_path),
            target_views(out@) == probed(evs, i as nat).map_values(target_at(evs)),
    {
        assert(evs[i as int] == ambiguous[i as int]@);
        assert(opt_text(names[i as int]) == crate_of(evs[i as int].relative_path));
        if let Some(name) = &names[i] {
            if is_new_crate(&names, i, Ghost(evs)) {
                let target = (name.clone(), ambiguous[i]);
                let ghost before = out@;
                out.push(target);
                proof {
                    assert(target_views(out@) =~= target_views(before).push(target_at(evs)(i)));
                    assert(probed(evs, (i + 1) as nat).map_values(target_at(evs)) =~= probed(evs, i as nat).map_values(target_at(evs)).push(target_at(evs)(i)));
                }
            }
        }
    }
    out
}

/// What came of a probe.
#[derive(Debug)]
pub enum ProbeOutcome {
    /// No server runs for the crate's language.
    NoServer,
    /// The file could not be had or opened.
    Unopened,
    /// How many places each of the two queries named, nothing where it failed,
    /// and how long each took.
    Probed {
        cold: Option<usize>,
        cold_elapsed: std::time::Duration,
        warm: Option<usize>,
        warm_elapsed: std::time::Duration,
    },
}

/// A query named no place.
pub open spec fn came_back_empty(found: Option<usize>) -> bool {
    found is None || found == Some(0usize)
}

/// Notes what came of the probe of one crate: a result, or one more that was
/// skipped.
pub fn record_probe(results: &mut Vec<CrateProbeResult>, skips: &mut ProbeSkips, crate_name: String, outcome: ProbeOutcome)
    requires
        old(skips).no_server < usize::MAX,
        old(skips).other < usize::MAX,
    ensures
        match outcome {
            ProbeOutcome::NoServer => final(results)@ == old(results)@ && final(skips).no_server == old(skips).no_server + 1 && final(skips).other == old(skips).other,
            ProbeOutcome::Unopened => final(results)@ == old(results)@ && final(skips).other == old(skips).other + 1 && final(skips).no_server == old(skips).no_server,
            ProbeOutcome::Probed { cold, cold_elapsed, warm, warm_elapsed } => *final(skips) == *old(skips) && final(results)@ == old(results)@.push(CrateProbeResult {
                crate_name,
                cold_empty: came_back_empty(cold),
                cold_elapsed,
                warm_empty: came_back_empty(warm),
                warm_elapsed,
            }),
        },
{
    match outcome {
        ProbeOutcome::NoServer => {
            skips.no_server = skips.no_server + 1;
        },
        ProbeOutcome::Unopened => {
            skips.other = skips.other + 1;
        },
        ProbeOutcome::Probed { cold, cold_elapsed, warm, warm_elapsed } => {
            let cold_empty = match cold {
                Some(n) => n == 0,
                None => true,
            };
            let warm_empty = match warm {
                Some(n) => n == 0,
                None => true,
            };
            results.push(CrateProbeResult { crate_name, cold_empty, cold_elapsed, warm_empty, warm_elapsed });
        },
    }
}

/// The path leads into the crate: it is `crates/` and the crate's name, which
/// is not empty and has no slash, alone or with a slash and more behind it.
pub open spec fn leads_into(path: Seq<char>, name: Seq<char>) -> bool {
    &&& name.len() > 0
    &&& !name.contains('/')
    &&& path == "crates/"@ + name || exists|rest: Seq<char>| path == #[trigger] ("crates/"@ + name + seq!['/'] + rest)
}

/// A path is in the crate that it leads into, and in no other.
pub proof fn paths_are_in_the_crate_they_lead_into(path: Seq<char>, name: Seq<char>)
    ensures
        crate_of(path) == Some(name) <==> leads_into(path, name),
{
    let head = "crates/"@;
    let rest = path.skip(head.len() as int);
    if begins_with(path, head) {
        assert(path =~= head + rest);
        lemma_split_nonempty(rest, '/');
        if crate_of(path) == Some(name) {
            let (a, b) = pieces_are_cut_off(rest, '/', 0);
            assert(rest =~= name + b);
            if b.len() > 0 {
                assert(b =~= seq!['/'] + b.skip(1));
                assert(path =~= head + name + seq!['/'] + b.skip(1));
            } else {
                assert(path =~= head + name);
            }
        }
    }
    if leads_into(path, name) {
        if path == head + name {
            assert(path.take(head.len() as int) =~= head);
            assert(rest =~= name);
            assert(rest =~= Seq::<char>::empty() + name + Seq::empty());
            what_is_cut_off_is_a_piece(rest, '/', Seq::empty(), name, Seq::empty());
        } else {
            let more = choose|more: Seq<char>| path == #[trigger] (head + name + seq!['/'] + more);
            assert(path.take(head.len() as int) =~= head);
            let b = seq!['/'] + more;
            assert(rest =~= name + b);
            assert(rest =~= Seq::<char>::empty() + name + b);
            what_is_cut_off_is_a_piece(rest, '/', Seq::empty(), name, b);
        }
    }
}

/// The positions are those, of the first `n`, that `keep` holds for, in order.
pub open spec fn picks(at: Seq<usize>, n: nat, keep: spec_fn(int) -> bool) -> bool {
    &&& forall|i: int| 0 <= i < n && #[trigger] keep(i) ==> at.contains(i as usize)
    &&& forall|k: int| 0 <= k < at.len() ==> (#[trigger] at[k]) < n && keep(at[k] as int)
    &&& forall|k: int, l: int| 0 <= k < l < at.len() ==> #[trigger] at[k] < #[trigger] at[l]
}

proof fn lemma_picks(before: Seq<usize>, at: Seq<usize>, n: nat, keep: spec_fn(int) -> bool)
    requires
        0 < n <= usize::MAX,
        picks(before, (n - 1) as nat, keep),
        keep(n - 1) ==> at == before.push((n - 1) as usize),
        !keep(n - 1) ==> at == before,
    ensures
        picks(at, n, keep),
{
    assert forall|i: int| 0 <= i < n && #[trigger] keep(i) implies at.contains(i as usize) by {
        if i < n - 1 {
            let k = choose|k: int| 0 <= k < before.len() && before[k] == i as usize;
            assert(at[k] == i as usize);
        } else {
            assert(at[before.len() as int] == i as usize);
        }
    }
    assert forall|k: int| 0 <= k < at.len() implies (#[trigger] at[k]) < n && keep(at[k] as int) by {
        if k < before.len() {
            assert(before[k] == at[k]);
        }
    }
    assert forall|k: int, l: int| 0 <= k < l < at.len() implies #[trigger] at[k] < #[trigger] at[l] by {
        assert(before[k] == at[k]);
        if l < before.len() {
            assert(before[l] == at[l]);
        }
    }
}

/// Being in the language and in the crate, by position.
pub open spec fn is_warming(entries: Seq<EntryView>, language: Language, crate_name: Seq<char>) -> spec_fn(int) -> bool {
    |i: int| entries[i].language == language && leads_into(entries[i].relative_path, crate_name)
}

proof fn lemma_warming(entries: Seq<EntryView>, language: Language, crate_name: Seq<char>, n: nat)
    requires
        n <= entries.len() <= usize::MAX,
    ensures
        picks(warming(entries, language, crate_name, n), n, is_warming(entries, language, crate_name)),
    decreases n,
{
    if n > 0 {
        lemma_warming(entries, language, crate_name, (n - 1) as nat);
        paths_are_in_the_crate_they_lead_into(entries[n - 1].relative_path, crate_name);
        lemma_picks(warming(entries, language, crate_name, (n - 1) as nat), warming(entries, language, crate_name, n), n, is_warming(entries, language, crate_name));
    }
}

/// A crate is warmed up with its first entries, as many as there are queries
/// or all of them where there are fewer: no entry that is left out comes
/// before one that is taken.
pub proof fn a_crate_is_warmed_up_with_its_first_entries(entries: Seq<EntryView>, language: Language, crate_name: Seq<char>, queries: int)
    requires
        entries.len() <= usize::MAX,
        queries >= 0,
    ensures
        ({
            let taken = warm_positions(entries, language, crate_name, queries);
            let keep = is_warming(entries, language, crate_name);
            &&& taken.len() <= queries
            &&& forall|k: int| 0 <= k < taken.len() ==> (#[trigger] taken[k]) < entries.len() && keep(taken[k] as int)
            &&& forall|k: int, l: int| 0 <= k < l < taken.len() ==> #[trigger] taken[k] < #[trigger] taken[l]
            &&& forall|i: int| 0 <= i < entries.len() && #[trigger] keep(i) && !taken.contains(i as usize) ==> taken.len() == queries && forall|k: int| 0 <= k < taken.len() ==> (#[trigger] taken[k]) < i
        }),
{
    let taken = warm_positions(entries, language, crate_name, queries);
    let keep = is_warming(entries, language, crate_name);
    let all = warming(entries, language, crate_name, entries.len());
    lemma_warming(entries, language, crate_name, entries.len());
    assert forall|i: int| 0 <= i < entries.len() && #[trigger] keep(i) && !taken.contains(i as usize) implies taken.len() == queries && forall|k: int|
        0 <= k < taken.len() ==> (#[trigger] taken[k]) < i by {
        let m = choose|m: int| 0 <= m < all.len() && all[m] == i as usize;
        if m < taken.len() {
            assert(taken[m] == all[m]);
        }
        assert forall|k: int| 0 <= k < taken.len() implies (#[trigger] taken[k]) < i by {
            assert(all[k] < all[m]);
        }
    }
}

/// The path leads into a crate that none of the earlier ones leads into, by
/// position.
pub open spec fn is_first_of_crate(entries: Seq<EntryView>) -> spec_fn(int) -> bool {
    |i: int| exists|name: Seq<char>| #[trigger] leads_into(entries[i].relative_path, name) && forall|j: int| 0 <= j < i ==> !leads_into(#[trigger] entries[j].relative_path, name)
}

/// Each crate is probed with its first entry.
pub proof fn each_crate_is_probed_once(entries: Seq<EntryView>, n: nat)
    requires
        n <= entries.len() <= usize::MAX,
    ensures
        picks(probed(entries, n), n, is_first_of_crate(entries)),
    decreases n,
{
    if n > 0 {
        each_crate_is_probed_once(entries, (n - 1) as nat);
        let path = entries[n - 1].relative_path;
        assert(opens_crate(entries, n - 1) <==> is_first_of_crate(entries)(n - 1)) by {
            if opens_crate(entries, n - 1) {
                let name = crate_of(path)->0;
                paths_are_in_the_crate_they_lead_into(path, name);
                assert forall|j: int| 0 <= j < n - 1 implies !leads_into(#[trigger] entries[j].relative_path, name) by {
                    paths_are_in_the_crate_they_lead_into(entries[j].relative_path, name);
                }
                assert(leads_into(path, name));
            }
            if is_first_of_crate(entries)(n - 1) {
                let name = choose|name: Seq<char>| #[trigger] leads_into(path, name) && forall|j: int| 0 <= j < n - 1 ==> !leads_into(#[trigger] entries[j].relative_path, name);
                paths_are_in_the_crate_they_lead_into(path, name);
                assert forall|j: int| 0 <= j < n - 1 implies crate_of(#[trigger] entries[j].relative_path) != crate_of(path) by {
                    paths_are_in_the_crate_they_lead_into(entries[j].relative_path, name);
                }
            }
        }
        lemma_picks(probed(entries, (n - 1) as nat), probed(entries, n), n, is_first_of_crate(entries));
    }
}

}
