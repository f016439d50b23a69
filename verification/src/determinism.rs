//! What an analysis gives depends on the sources alone.

use vstd::prelude::*;
use crate::analysis::{all_edges, cached_files, file_calls, file_concepts, finished, is_disambiguation, is_gathering, is_linked, is_model, is_run, reused_files, unchanged_files_are_reused, FileParseResult, Gathered, SourceView};
use crate::cache::looked_up;
use crate::calls::{candidates_of, edge_part, edge_views, exact_edges, gained, named, ResolvedEdge};
use crate::extraction::{entry_views, EntryView, ExtractionView};
use crate::graph::ids;
use crate::model::{concept_views, Concept};
use crate::naming::{distinct_id, is_namesake, namesakes, place_keys};
use crate::packages::{is_owner, owner, package_link, with_more};
use crate::packages::lemma_owner;

verus! {

/// The concepts say the same, one by one.
pub open spec fn alike(a: Seq<Concept>, b: Seq<Concept>) -> bool {
    a.len() == b.len() && forall|i: int| 0 <= i < a.len() ==> (#[trigger] a[i])@ == b[i]@
}

proof fn lemma_alike(a: Seq<Concept>, b: Seq<Concept>)
    ensures
        alike(a, b) <==> concept_views(a) == concept_views(b),
{
    let (x, y) = (concept_views(a), concept_views(b));
    if x == y {
        assert(x.len() == y.len());
        assert forall|i: int| 0 <= i < a.len() implies (#[trigger] a[i])@ == b[i]@ by {
            assert(x[i] == y[i]);
        }
    }
    if alike(a, b) {
        assert(x =~= y);
    }
}

proof fn lemma_ids_alike(a: Seq<Concept>, b: Seq<Concept>, i: int)
    requires
        alike(a, b),
        0 <= i < a.len(),
    ensures
        distinct_id(a, i) == distinct_id(b, i),
{
    assert(a[i]@ == b[i]@);
    assert(place_keys(a) =~= place_keys(b)) by {
        assert forall|k: int| 0 <= k < a.len() implies place_keys(a)[k] == place_keys(b)[k] by {
            assert(a[k]@ == b[k]@);
        }
    }
    assert forall|j: int| is_namesake(a, i, j) <==> is_namesake(b, i, j) by {
        if 0 <= j < a.len() {
            assert(a[j]@ == b[j]@);
        }
    }
    assert(namesakes(a, i) =~= namesakes(b, i));
}

proof fn lemma_owns_alike(a: Seq<Concept>, b: Seq<Concept>, file: Seq<char>, p: int)
    requires
        alike(a, b),
        is_owner(a, file, p),
    ensures
        is_owner(b, file, p),
{
    assert(a[p]@ == b[p]@);
    assert forall|q: int| 0 <= q < b.len() implies (#[trigger] b[q]).kind == a[q].kind && b[q].location.file@ == a[q].location.file@ by {
        assert(a[q]@ == b[q]@);
    }
}

proof fn lemma_owner_alike(a: Seq<Concept>, b: Seq<Concept>, file: Seq<char>)
    requires
        alike(a, b),
    ensures
        owner(a, file) == owner(b, file),
{
    if exists|p: int| is_owner(a, file, p) {
        let p = choose|p: int| is_owner(a, file, p);
        lemma_owns_alike(a, b, file, p);
        lemma_owner(a, file, p);
        lemma_owner(b, file, p);
    } else if exists|p: int| is_owner(b, file, p) {
        let p = choose|p: int| is_owner(b, file, p);
        lemma_owns_alike(b, a, file, p);
    }
}

proof fn lemma_link_alike(a: Seq<Concept>, b: Seq<Concept>, i: int)
    requires
        alike(a, b),
        0 <= i < a.len(),
    ensures
        package_link(a, i) == package_link(b, i),
{
    assert(a[i]@ == b[i]@);
    lemma_owner_alike(a, b, a[i].location.file@);
    if let Some(p) = owner(a, a[i].location.file@) {
        let q = choose|q: int| is_owner(a, a[i].location.file@, q);
        assert(is_owner(a, a[i].location.file@, q));
        assert(a[p]@ == b[p]@);
    }
}

proof fn lemma_named_alike(a: Seq<Concept>, b: Seq<Concept>, name: Seq<char>, n: nat)
    requires
        alike(a, b),
        n <= a.len(),
    ensures
        named(a, name, n) == named(b, name, n),
    decreases n,
{
    if n > 0 {
        lemma_named_alike(a, b, name, (n - 1) as nat);
        assert(a[n - 1]@ == b[n - 1]@);
    }
}

proof fn lemma_edges_alike(a: Seq<Concept>, b: Seq<Concept>, calls: Seq<EntryView>, n: nat)
    requires
        alike(a, b),
        a.len() <= usize::MAX,
        n <= calls.len(),
    ensures
        exact_edges(a, calls, n) == exact_edges(b, calls, n),
    decreases n,
{
    if n > 0 {
        lemma_edges_alike(a, b, calls, (n - 1) as nat);
        let name = calls[n - 1].call.callee_name;
        lemma_named_alike(a, b, name, a.len());
        if candidates_of(a, name).len() == 1 {
            crate::calls::lemma_named(a, name, a.len(), 0);
            let k = candidates_of(a, name)[0] as int;
            assert(a[k]@ == b[k]@);
        }
    }
}

proof fn lemma_gained_alike(a: Seq<Concept>, b: Seq<Concept>, edges: Seq<crate::calls::EdgeView>, i: int, n: nat)
    requires
        alike(a, b),
        n <= edges.len(),
    ensures
        gained(a, edges, i, n) == gained(b, edges, i, n),
    decreases n,
{
    if n > 0 {
        lemma_gained_alike(a, b, edges, i, (n - 1) as nat);
        assert(ids(a) =~= ids(b)) by {
            assert forall|k: int| 0 <= k < a.len() implies ids(a)[k] == ids(b)[k] by {
                assert(a[k]@ == b[k]@);
            }
        }
        let e = edges[n - 1];
        crate::order::lemma_last_of(ids(a), e.caller);
        crate::order::lemma_last_of(ids(a), e.callee);
        assert forall|k: int| 0 <= k < a.len() implies (#[trigger] a[k]).name@ == b[k].name@ by {
            assert(a[k]@ == b[k]@);
        }
        assert(edge_part(a, e, i) == edge_part(b, e, i));
    }
}

/// Files that hold the same give the same model, whether they were read anew
/// or taken from a cache.
pub proof fn models_come_out_alike(packages: Seq<Concept>, results: Seq<FileParseResult>, others: Seq<FileParseResult>, a: Seq<Concept>, b: Seq<Concept>)
    requires
        is_model(packages, results, a),
        is_model(packages, others, b),
        file_concepts(results, results.len()) == file_concepts(others, others.len()),
    ensures
        alike(a, b),
{
    let (ma, da) = choose|m: Seq<Concept>, d: Seq<Concept>|
        concept_views(m) == concept_views(packages) + file_concepts(results, results.len()) && #[trigger] is_disambiguation(m, d) && is_linked(d, a);
    let (mb, db) = choose|m: Seq<Concept>, d: Seq<Concept>|
        concept_views(m) == concept_views(packages) + file_concepts(others, others.len()) && #[trigger] is_disambiguation(m, d) && is_linked(d, b);
    lemma_alike(ma, mb);
    assert(alike(ma, mb));
    assert forall|i: int| 0 <= i < da.len() implies (#[trigger] da[i])@ == db[i]@ by {
        lemma_ids_alike(ma, mb, i);
        assert(ma[i]@ == mb[i]@);
        assert(db[i]@ == crate::naming::with_id(mb[i]@, distinct_id(mb, i)));
    }
    assert(alike(da, db));
    assert forall|i: int| 0 <= i < a.len() implies (#[trigger] a[i])@ == b[i]@ by {
        lemma_link_alike(da, db, i);
        assert(da[i]@ == db[i]@);
        assert(b[i]@ == with_more(db[i]@, package_link(db, i)));
    }
}

/// An analysis depends on nothing but what was gathered and what was
/// confirmed: the concept at `i` comes out the same from two runs.
pub proof fn analyses_come_out_alike(x: Gathered, y: Gathered, confirmed: Seq<ResolvedEdge>, others: Seq<ResolvedEdge>, i: int)
    requires
        alike(x.concepts@, y.concepts@),
        x.concepts@.len() <= usize::MAX,
        entry_views(x.calls@) == entry_views(y.calls@),
        edge_views(confirmed) == edge_views(others),
        0 <= i < x.concepts@.len(),
    ensures
        finished(x, confirmed, i) == finished(y, others, i),
{
    let (a, b) = (x.concepts@, y.concepts@);
    assert(entry_views(x.calls@).len() == x.calls@.len());
    assert(entry_views(y.calls@).len() == y.calls@.len());
    lemma_edges_alike(a, b, entry_views(x.calls@), x.calls@.len());
    let edges = all_edges(x, confirmed);
    assert(edges == all_edges(y, others));
    lemma_gained_alike(a, b, edges, i, edges.len());
    assert(a[i]@ == b[i]@);
}

/// A run that takes every file from the cache that another left finds the
/// concepts that the other found.
pub proof fn a_cache_changes_nothing(results: Seq<FileParseResult>, reused: Seq<FileParseResult>, n: nat)
    requires
        reused.len() == results.len(),
        n <= results.len(),
        forall|i: int, j: int| 0 <= i < j < results.len() ==> (#[trigger] results[i]).relative_path@ != (#[trigger] results[j]).relative_path@,
        forall|k: int| 0 <= k < results.len() ==> looked_up(cached_files(results, results.len()), (#[trigger] reused[k]).relative_path@, reused[k].hash) == Some(
            reused[k].extraction@,
        ),
        forall|k: int| 0 <= k < results.len() ==> (#[trigger] reused[k]).relative_path@ == results[k].relative_path@ && reused[k].hash == results[k].hash
            && reused[k].language == results[k].language,
    ensures
        file_concepts(reused, n) == file_concepts(results, n),
        file_calls(reused, n) == file_calls(results, n),
    decreases n,
{
    if n > 0 {
        a_cache_changes_nothing(results, reused, (n - 1) as nat);
        let k = n - 1;
        assert(reused[k].relative_path@ == results[k].relative_path@);
        unchanged_files_are_reused(results, results.len(), k);
        assert(reused[k].extraction@ == results[k].extraction@);
        assert(crate::analysis::entries_of(reused[k]) =~= crate::analysis::entries_of(results[k]));
    }
}

proof fn lemma_cached_paths(results: Seq<FileParseResult>, n: nat, path: Seq<char>)
    requires
        n <= results.len(),
    ensures
        cached_files(results, n).dom().contains(path) <==> exists|k: int| 0 <= k < n && (#[trigger] results[k]).relative_path@ == path,
    decreases n,
{
    if n > 0 {
        lemma_cached_paths(results, (n - 1) as nat, path);
        if results[n - 1].relative_path@ != path && exists|k: int| 0 <= k < n && (#[trigger] results[k]).relative_path@ == path {
            let k = choose|k: int| 0 <= k < n && (#[trigger] results[k]).relative_path@ == path;
            assert(results[k].relative_path@ == path && k < n - 1);
        }
    }
}

proof fn lemma_all_reused(results: Seq<FileParseResult>, n: nat)
    requires
        n <= results.len(),
        forall|k: int| 0 <= k < n ==> (#[trigger] results[k]).reused,
    ensures
        reused_files(results, n) == n,
    decreases n,
{
    if n > 0 {
        lemma_all_reused(results, (n - 1) as nat);
        assert(results[n - 1].reused);
    }
}

proof fn lemma_caches_alike(a: Seq<FileParseResult>, b: Seq<FileParseResult>, n: nat)
    requires
        n <= a.len(),
        n <= b.len(),
        forall|k: int| 0 <= k < n ==> (#[trigger] a[k]).relative_path@ == b[k].relative_path@ && a[k].hash == b[k].hash && a[k].extraction@ == b[k].extraction@,
    ensures
        cached_files(a, n) == cached_files(b, n),
    decreases n,
{
    if n > 0 {
        lemma_caches_alike(a, b, (n - 1) as nat);
        assert(a[n - 1].relative_path@ == b[n - 1].relative_path@);
    }
}

/// The cache knows the files, and no others.
pub open spec fn knows_only(cache: Map<Seq<char>, (u64, ExtractionView)>, files: Seq<SourceView>) -> bool {
    forall|path: Seq<char>| #[trigger] cache.dom().contains(path) <==> exists|k: int| 0 <= k < files.len() && (#[trigger] files[k]).path == path
}

/// Two runs over files that do not change in between, the second with the
/// cache that the first left: the first takes or reads every file, the second
/// takes every file and reads none, both find the same concepts, and the cache
/// that either leaves knows the files, each once, and no others.
pub proof fn a_second_run_reads_nothing(
    packages: Seq<Concept>,
    files: Seq<SourceView>,
    cache: Map<Seq<char>, (u64, ExtractionView)>,
    first: Seq<FileParseResult>,
    x: Gathered,
    second: Seq<FileParseResult>,
    y: Gathered,
)
    requires
        forall|i: int, j: int| 0 <= i < j < files.len() ==> (#[trigger] files[i]).path != (#[trigger] files[j]).path,
        is_run(cache, files, first),
        is_gathering(packages, first, x),
        is_run(x.cache@, files, second),
        is_gathering(packages, second, y),
        x.concepts@.len() <= usize::MAX,
    ensures
        x.stats.reused + x.stats.reparsed == files.len(),
        y.stats.reused == files.len(),
        y.stats.reparsed == 0,
        y.concepts@.len() == x.concepts@.len(),
        forall|i: int| 0 <= i < y.concepts@.len() ==> #[trigger] finished(y, Seq::empty(), i) == finished(x, Seq::empty(), i),
        knows_only(x.cache@, files),
        y.cache@ == x.cache@,
{
    let n = files.len();
    assert forall|i: int, j: int| 0 <= i < j < first.len() implies (#[trigger] first[i]).relative_path@ != (#[trigger] first[j]).relative_path@ by {
        assert(files[i].path != files[j].path);
    }
    assert forall|k: int| 0 <= k < n implies (#[trigger] second[k]).reused && second[k].extraction@ == first[k].extraction@ && second[k].relative_path@ == first[k].relative_path@
        && second[k].hash == first[k].hash && second[k].language == first[k].language && looked_up(cached_files(first, first.len()), second[k].relative_path@, second[k].hash)
        == Some(second[k].extraction@) by {
        assert(first[k].relative_path@ == files[k].path);
        unchanged_files_are_reused(first, first.len(), k);
    }
    a_cache_changes_nothing(first, second, n);
    models_come_out_alike(packages, second, first, y.concepts@, x.concepts@);
    lemma_all_reused(second, n);
    lemma_caches_alike(second, first, n);
    assert forall|i: int| 0 <= i < y.concepts@.len() implies #[trigger] finished(y, Seq::empty(), i) == finished(x, Seq::empty(), i) by {
        analyses_come_out_alike(y, x, Seq::empty(), Seq::empty(), i);
    }
    assert forall|path: Seq<char>| #[trigger] x.cache@.dom().contains(path) <==> exists|k: int| 0 <= k < files.len() && (#[trigger] files[k]).path == path by {
        lemma_cached_paths(first, n, path);
        if exists|k: int| 0 <= k < n && (#[trigger] first[k]).relative_path@ == path {
            let k = choose|k: int| 0 <= k < n && (#[trigger] first[k]).relative_path@ == path;
            assert(files[k].path == path);
        }
        if exists|k: int| 0 <= k < files.len() && (#[trigger] files[k]).path == path {
            let k = choose|k: int| 0 <= k < files.len() && (#[trigger] files[k]).path == path;
            assert(first[k].relative_path@ == path);
        }
    }
}

}
