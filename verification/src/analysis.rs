//! What is read out of single files, put together into one model of the
//! project.

use vstd::prelude::*;
use vstd::std_specs::hash::DefaultHasherAdditionalSpecFns;
use vstd::string::StringSliceAdditionalSpecFns;
use std::collections::hash_map::DefaultHasher;
use crate::cache::{hash_content, AnalysisCache};
use crate::cache::looked_up;
use crate::calls::{apply_edges, resolve_calls, ResolvedEdge};
use crate::calls::{edge_views, exact_edges, gained, more_edges_only_add, EdgeView};
use crate::extraction::{push_concepts, CallEntry, FileExtraction};
use crate::extraction::{call_views, entry_views, CallView, EntryView, ExtractionView};
use crate::model::{Concept, Language};
use crate::model::{concept_views, ConceptView};
use crate::naming::disambiguate_duplicate_ids;
use crate::naming::{distinct_id, with_id};
use crate::packages::link_modules_to_packages;
use crate::packages::{package_link, with_more};

verus! {

/// The model of a project.
#[derive(Debug)]
pub struct AnalysisResult {
    pub root: String,
    pub concepts: Vec<Concept>,
}

/// How many files were taken from the cache, and how many were read anew.
#[derive(Clone, Copy, Debug, PartialEq, Eq, Structural)]
pub struct IncrementalStats {
    pub reused: usize,
    pub reparsed: usize,
}

impl Default for IncrementalStats {
    fn default() -> (r: IncrementalStats)
        ensures
            r.reused == 0,
            r.reparsed == 0,
    {
        IncrementalStats { reused: 0, reparsed: 0 }
    }
}

/// What came of one file.
#[derive(Debug)]
pub struct FileParseResult {
    pub relative_path: String,
    pub language: Language,
    pub hash: u64,
    pub extraction: FileExtraction,
    pub reused: bool,
}

/// A source file as a run sees it: its path, its language, and the hash of
/// its content.
pub struct SourceView {
    pub path: Seq<char>,
    pub language: Language,
    pub hash: u64,
}

/// What a run with this cache makes of the files: one that the cache knows
/// with this content is taken from it, any other is read anew.
pub open spec fn is_run(cache: Map<Seq<char>, (u64, ExtractionView)>, files: Seq<SourceView>, results: Seq<FileParseResult>) -> bool {
    &&& results.len() == files.len()
    &&& forall|k: int| 0 <= k < results.len() ==> {
        let (f, known) = ((#[trigger] results[k]), looked_up(cache, files[k].path, files[k].hash));
        &&& f.relative_path@ == files[k].path
        &&& f.language == files[k].language
        &&& f.hash == files[k].hash
        &&& f.reused == (known is Some)
        &&& known is Some ==> f.extraction@ == known->0
    }
}

/// The hash of a text, by which a change of it shows.
pub open spec fn content_hash(content: &str) -> u64 {
    DefaultHasher::spec_finish(seq![content.spec_bytes(), seq![0xffu8]])
}

/// Takes the file from the cache, if its content has not changed since it was
/// stored; else gives the hash under which it is to be read anew.
pub fn reuse_file(cache: &AnalysisCache, relative_path: &str, language: Language, content: &str) -> (r: Result<FileParseResult, u64>)
    requires
        cache.wf(),
    ensures
        match r {
            Ok(f) => {
                &&& looked_up(cache@, relative_path@, content_hash(content)) == Some(f.extraction@)
                &&& f.relative_path@ == relative_path@
                &&& f.language == language
                &&& f.hash == content_hash(content)
                &&& f.reused
            },
            Err(hash) => hash == content_hash(content) && looked_up(cache@, relative_path@, hash) is None,
        },
{
    let hash = hash_content(content);
    match cache.get(relative_path, hash) {
        Some(extraction) => Ok(FileParseResult { relative_path: relative_path.to_owned(), language, hash, extraction, reused: true }),
        None => Err(hash),
    }
}

/// The concepts of the first `n` files, one file after the other.
pub open spec fn file_concepts(results: Seq<FileParseResult>, n: nat) -> Seq<ConceptView>
    decreases n,
{
    if n == 0 {
        Seq::empty()
    } else {
        file_concepts(results, (n - 1) as nat) + results[n - 1].extraction@.concepts
    }
}

/// The calls of one file, with its language and path.
pub open spec fn entries_of(result: FileParseResult) -> Seq<EntryView> {
    result.extraction@.calls.map_values(|c: CallView| EntryView { call: c, language: result.language, relative_path: result.relative_path@ })
}

/// The calls of the first `n` files, one file after the other.
pub open spec fn file_calls(results: Seq<FileParseResult>, n: nat) -> Seq<EntryView>
    decreases n,
{
    if n == 0 {
        Seq::empty()
    } else {
        file_calls(results, (n - 1) as nat) + entries_of(results[n - 1])
    }
}

/// How many of the first `n` files were taken from the cache.
pub open spec fn reused_files(results: Seq<FileParseResult>, n: nat) -> nat
    decreases n,
{
    if n == 0 {
        0
    } else {
        reused_files(results, (n - 1) as nat) + (if results[n - 1].reused { 1nat } else { 0 })
    }
}

/// What the cache holds after the first `n` files.
pub open spec fn cached_files(results: Seq<FileParseResult>, n: nat) -> Map<Seq<char>, (u64, ExtractionView)>
    decreases n,
{
    if n == 0 {
        Map::empty()
    } else {
        let f = results[n - 1];
        cached_files(results, (n - 1) as nat).insert(f.relative_path@, (f.hash, f.extraction@))
    }
}

/// The concepts of the packages and files, each with an id of its own, and
/// each module linked to its package.
pub open spec fn is_model(packages: Seq<Concept>, results: Seq<FileParseResult>, out: Seq<Concept>) -> bool {
    exists|merged: Seq<Concept>, distinct: Seq<Concept>|
        {
            &&& concept_views(merged) == concept_views(packages) + file_concepts(results, results.len())
            &&& #[trigger] is_disambiguation(merged, distinct)
            &&& is_linked(distinct, out)
        }
}

/// The concepts with ids of their own.
pub open spec fn is_disambiguation(before: Seq<Concept>, after: Seq<Concept>) -> bool {
    &&& after.len() == before.len()
    &&& forall|i: int| 0 <= i < after.len() ==> (#[trigger] after[i])@ == with_id(before[i]@, distinct_id(before, i))
}

/// The concepts with each module linked to the package that owns its file.
pub open spec fn is_linked(before: Seq<Concept>, after: Seq<Concept>) -> bool {
    &&& after.len() == before.len()
    &&& forall|i: int| 0 <= i < after.len() ==> (#[trigger] after[i])@ == with_more(before[i]@, package_link(before, i))
}

/// The project before its calls are resolved: its concepts, the calls in it,
/// and a cache of its files and of no others.
#[derive(Debug)]
pub struct Gathered {
    pub concepts: Vec<Concept>,
    pub calls: Vec<CallEntry>,
    pub stats: IncrementalStats,
    pub cache: AnalysisCache,
}

/// Puts the calls of one file behind the others.
fn push_calls(out: &mut Vec<CallEntry>, result: &FileParseResult)
    ensures
        entry_views(final(out)@) == entry_views(old(out)@) + entries_of(*result),
{
    let ghost first = out@;
    let ghost all = entries_of(*result);
    let calls = &result.extraction.calls;
    for i in 0..calls.len()
        invariant
            *calls == result.extraction.calls,
            all == entries_of(*result),
            all.len() == calls@.len(),
            entry_views(out@) == entry_views(first) + all.take(i as int),
    {
        let e = CallEntry { call: calls[i].clone(), language: result.language, relative_path: result.relative_path.clone() };
        let ghost before = out@;
        out.push(e);
        proof {
            assert(call_views(calls@)[i as int] == calls@[i as int]@);
            assert(all[i as int] == e@);
            assert(entry_views(out@) =~= entry_views(before).push(e@));
            assert(all.take(i + 1) =~= all.take(i as int).push(all[i as int]));
        }
    }
    assert(all.take(all.len() as int) =~= all);
}

/// The project is what the packages and the files give.
pub open spec fn is_gathering(packages: Seq<Concept>, results: Seq<FileParseResult>, g: Gathered) -> bool {
    &&& is_model(packages, results, g.concepts@)
    &&& entry_views(g.calls@) == file_calls(results, results.len())
    &&& g.stats.reused == reused_files(results, results.len())
    &&& g.stats.reused + g.stats.reparsed == results.len()
    &&& g.cache.wf()
    &&& g.cache@ == cached_files(results, results.len())
}

/// Puts together the packages and what came of the files.
pub fn gather_files(packages: &Vec<Concept>, results: &Vec<FileParseResult>) -> (r: Gathered)
    ensures
        is_gathering(packages@, results@, r),
{
    let mut concepts: Vec<Concept> = Vec::new();
    push_concepts(&mut concepts, packages);
    assert(concept_views(concepts@) =~= concept_views(packages@) + file_concepts(results@, 0));
    let mut calls: Vec<CallEntry> = Vec::new();
    assert(entry_views(calls@) =~= Seq::empty());
    let mut stats = IncrementalStats::default();
    let mut cache = AnalysisCache::new();
    for i in 0..results.len()
        invariant
            concept_views(concepts@) == concept_views(packages@) + file_concepts(results@, i as nat),
            entry_views(calls@) == file_calls(results@, i as nat),
            stats.reused == reused_files(results@, i as nat),
            stats.reused + stats.reparsed == i,
            cache.wf(),
            cache@ == cached_files(results@, i as nat),
    {
        let f = &results[i];
        let ghost before = concept_views(concepts@);
        if f.reused {
            stats.reused = stats.reused + 1;
        } else {
            stats.reparsed = stats.reparsed + 1;
        }
        cache.insert(f.relative_path.as_str(), f.hash, f.extraction.clone());
        push_calls(&mut calls, f);
        push_concepts(&mut concepts, &f.extraction.concepts);
        assert(concept_views(concepts@) =~= concept_views(packages@) + (file_concepts(results@, i as nat) + f.extraction@.concepts));
    }
    let ghost merged = concepts@;
    let mut distinct = disambiguate_duplicate_ids(concepts.as_slice());
    let ghost named = distinct@;
    link_modules_to_packages(&mut distinct);
    proof {
        assert(is_disambiguation(merged, named));
        assert(is_linked(named, distinct@));
    }
    Gathered { concepts: distinct, calls, stats, cache }
}

/// The edges of the calls in the project: those that names alone resolve, then
/// those that were confirmed.
pub open spec fn all_edges(gathered: Gathered, confirmed: Seq<ResolvedEdge>) -> Seq<EdgeView> {
    exact_edges(gathered.concepts@, entry_views(gathered.calls@), gathered.calls@.len()) + edge_views(confirmed)
}

/// The concept at `i` once the calls in the project are resolved.
pub open spec fn finished(gathered: Gathered, confirmed: Seq<ResolvedEdge>, i: int) -> ConceptView {
    with_more(
        gathered.concepts@[i]@,
        gained(gathered.concepts@, all_edges(gathered, confirmed), i, all_edges(gathered, confirmed).len()),
    )
}

/// The model of the project, with the calls that names alone resolve and those
/// that language servers confirmed.
pub fn analyze_with_cache_lsp(root: &str, gathered: Gathered, confirmed: Vec<ResolvedEdge>) -> (r: AnalysisResult)
    ensures
        r.root@ == root@,
        r.concepts@.len() == gathered.concepts@.len(),
        forall|i: int| 0 <= i < r.concepts@.len() ==> (#[trigger] r.concepts@[i])@ == finished(gathered, confirmed@, i),
{
    let ghost whole = gathered;
    let ghost extra = confirmed@;
    let (mut edges, _) = resolve_calls(&gathered.concepts, &gathered.calls);
    let ghost exact = edges@;
    let mut confirmed = confirmed;
    edges.append(&mut confirmed);
    assert(edge_views(edges@) =~= edge_views(exact) + edge_views(extra));
    assert(edge_views(edges@) =~= all_edges(whole, extra));
    let mut concepts = gathered.concepts;
    apply_edges(&mut concepts, &edges);
    AnalysisResult { root: root.to_owned(), concepts }
}

/// The model of the project, with the calls that names alone resolve.
pub fn analyze_with_cache(root: &str, gathered: Gathered) -> (r: AnalysisResult)
    ensures
        r.root@ == root@,
        r.concepts@.len() == gathered.concepts@.len(),
        forall|i: int| 0 <= i < r.concepts@.len() ==> (#[trigger] r.concepts@[i])@ == finished(gathered, Seq::empty(), i),
{
    analyze_with_cache_lsp(root, gathered, Vec::new())
}

/// The model of the project with these packages and files.
pub fn analyze(root: &str, packages: &Vec<Concept>, results: &Vec<FileParseResult>) -> (r: AnalysisResult)
    ensures
        r.root@ == root@,
        exists|g: Gathered|
            {
                &&& is_model(packages@, results@, g.concepts@)
                &&& entry_views(g.calls@) == file_calls(results@, results@.len())
                &&& r.concepts@.len() == g.concepts@.len()
                &&& forall|i: int| 0 <= i < r.concepts@.len() ==> (#[trigger] r.concepts@[i])@ == with_more(
                    g.concepts@[i]@,
                    gained(g.concepts@, #[trigger] all_edges(g, Seq::empty()), i, all_edges(g, Seq::empty()).len()),
                )
            },
{
    let gathered = gather_files(packages, results);
    let ghost g = gathered;
    let r = analyze_with_cache(root, gathered);
    assert(all_edges(g, Seq::empty()) == all_edges(g, Seq::empty()));
    r
}

/// Asking language servers never loses or changes what names alone resolve:
/// every concept keeps its relationships, in their order, with more behind
/// them.
pub proof fn servers_only_add(gathered: Gathered, confirmed: Seq<ResolvedEdge>, i: int)
    requires
        0 <= i < gathered.concepts@.len(),
    ensures
        gained(gathered.concepts@, all_edges(gathered, Seq::empty()), i, all_edges(gathered, Seq::empty()).len()).is_prefix_of(
            gained(gathered.concepts@, all_edges(gathered, confirmed), i, all_edges(gathered, confirmed).len()),
        ),
{
    let exact = exact_edges(gathered.concepts@, entry_views(gathered.calls@), gathered.calls@.len());
    assert(all_edges(gathered, Seq::empty()) =~= exact);
    more_edges_only_add(gathered.concepts@, exact, edge_views(confirmed), i);
}

/// A run over files that did not change since the last one takes each of them
/// from the cache that the last one left.
pub proof fn unchanged_files_are_reused(results: Seq<FileParseResult>, n: nat, k: int)
    requires
        0 <= k < n <= results.len(),
        forall|j: int| k < j < n ==> (#[trigger] results[j]).relative_path@ != results[k].relative_path@,
    ensures
        looked_up(cached_files(results, n), results[k].relative_path@, results[k].hash) == Some(results[k].extraction@),
    decreases n,
{
    if k < n - 1 {
        unchanged_files_are_reused(results, (n - 1) as nat, k);
        assert(results[n - 1].relative_path@ != results[k].relative_path@);
    }
}

/// The cache that a run leaves knows of no file that the run did not see.
pub proof fn files_that_are_gone_are_forgotten(results: Seq<FileParseResult>, n: nat, path: Seq<char>, hash: u64)
    requires
        n <= results.len(),
        forall|j: int| 0 <= j < n ==> (#[trigger] results[j]).relative_path@ != path,
    ensures
        looked_up(cached_files(results, n), path, hash) is None,
    decreases n,
{
    if n > 0 {
        files_that_are_gone_are_forgotten(results, (n - 1) as nat, path, hash);
        assert(results[n - 1].relative_path@ != path);
    }
}

}
