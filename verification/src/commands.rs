//! What the commands decide and what they say.

use vstd::prelude::*;
use crate::enrich::{EnrichConfig, EnrichStats};
use crate::model::{Concept, ConceptKind, Language};
use crate::order::gather;
use crate::project::{ManifestKind, PackageRoot, Project, SourceFile};
use crate::render::push_if;
use crate::render::{kind_label, language_label, only_if, times};
use crate::text::{chars_of, decimal_text};
use crate::text::{decimal, texts};

verus! {

/// What a run that generates a bundle is to do.
#[derive(Clone, Copy, Debug, PartialEq, Eq, Structural)]
pub enum GenerateMode {
    /// Write the bundle.
    Write,
    /// Generate twice and compare.
    CheckDeterminism,
    /// Compare with the bundle that is there.
    CheckFresh,
}

/// Options that do not go together.
#[derive(Clone, Copy, Debug, PartialEq, Eq, Structural)]
pub enum ModeConflict {
    BothChecks,
    DeterminismAndEnrich,
    FreshAndEnrich,
}

impl ModeConflict {
    /// Why the options do not go together.
    pub fn message(&self) -> (r: &'static str)
        ensures
            r@ == conflict_text(*self),
    {
        match self {
            ModeConflict::BothChecks =>
                "--check-determinism and --check-fresh check different things (reproducibility vs. staleness) and can't be combined in one run \u{2014} run them separately",
            ModeConflict::DeterminismAndEnrich =>
                "--check-determinism can't be combined with --enrich: enrichment depends on a live endpoint's response, which isn't guaranteed byte-identical across calls, and would report non-determinism unrelated to what this flag actually checks",
            ModeConflict::FreshAndEnrich =>
                "--check-fresh can't be combined with --enrich: comparing against a freshly analyzed (unenriched) bundle would flag every AI-written description as spurious drift",
        }
    }
}

/// Why the options do not go together.
pub open spec fn conflict_text(c: ModeConflict) -> Seq<char> {
    match c {
        ModeConflict::BothChecks =>
            "--check-determinism and --check-fresh check different things (reproducibility vs. staleness) and can't be combined in one run \u{2014} run them separately"@,
        ModeConflict::DeterminismAndEnrich =>
            "--check-determinism can't be combined with --enrich: enrichment depends on a live endpoint's response, which isn't guaranteed byte-identical across calls, and would report non-determinism unrelated to what this flag actually checks"@,
        ModeConflict::FreshAndEnrich =>
            "--check-fresh can't be combined with --enrich: comparing against a freshly analyzed (unenriched) bundle would flag every AI-written description as spurious drift"@,
    }
}

/// What the run is to do. The two checks do not go together, and neither goes
/// together with descriptions from a model.
pub fn generate_mode(check_determinism: bool, check_fresh: bool, enrich: bool) -> (r: Result<GenerateMode, ModeConflict>)
    ensures
        r == (if check_determinism && check_fresh {
            Err::<GenerateMode, ModeConflict>(ModeConflict::BothChecks)
        } else if check_determinism && enrich {
            Err(ModeConflict::DeterminismAndEnrich)
        } else if check_fresh && enrich {
            Err(ModeConflict::FreshAndEnrich)
        } else if check_determinism {
            Ok(GenerateMode::CheckDeterminism)
        } else if check_fresh {
            Ok(GenerateMode::CheckFresh)
        } else {
            Ok(GenerateMode::Write)
        }),
{
    if check_determinism && check_fresh {
        return Err(ModeConflict::BothChecks);
    }
    if check_determinism {
        if enrich {
            return Err(ModeConflict::DeterminismAndEnrich);
        }
        Ok(GenerateMode::CheckDeterminism)
    } else if check_fresh {
        if enrich {
            return Err(ModeConflict::FreshAndEnrich);
        }
        Ok(GenerateMode::CheckFresh)
    } else {
        Ok(GenerateMode::Write)
    }
}

/// How a bundle is searched.
#[derive(Clone, Copy, Debug, PartialEq, Eq, Structural)]
pub enum SearchMode {
    Plain,
    Ranked,
    Semantic,
}

/// How to search: by meaning where that is asked for, else by rank where that
/// is.
pub fn search_mode(ranked: bool, semantic: bool) -> (r: SearchMode)
    ensures
        r == (if semantic {
            SearchMode::Semantic
        } else if ranked {
            SearchMode::Ranked
        } else {
            SearchMode::Plain
        }),
{
    if semantic {
        SearchMode::Semantic
    } else if ranked {
        SearchMode::Ranked
    } else {
        SearchMode::Plain
    }
}

/// Something that has to be given and was not.
#[derive(Clone, Copy, Debug, PartialEq, Eq, Structural)]
pub enum MissingSetting {
    BaseUrl,
    Model,
}

/// What has to be given, and how.
pub open spec fn missing_text(m: MissingSetting) -> Seq<char> {
    match m {
        MissingSetting::BaseUrl => "this command requires --enrich-base-url (or the OKF_ENRICH_BASE_URL environment variable)"@,
        MissingSetting::Model => "this command requires --enrich-model (or the OKF_ENRICH_MODEL environment variable)"@,
    }
}

impl MissingSetting {
    /// What has to be given, and how.
    pub fn message(&self) -> (r: &'static str)
        ensures
            r@ == missing_text(*self),
    {
        match self {
            MissingSetting::BaseUrl => "this command requires --enrich-base-url (or the OKF_ENRICH_BASE_URL environment variable)",
            MissingSetting::Model => "this command requires --enrich-model (or the OKF_ENRICH_MODEL environment variable)",
        }
    }
}

/// How to reach a model, as far as it is known.
#[derive(Debug)]
pub struct EnrichSettings {
    pub base_url: Option<String>,
    pub model: Option<String>,
    pub api_key: Option<String>,
}

/// The first of the two that is there.
pub open spec fn first_given<T>(a: Option<T>, b: Option<T>) -> Option<T> {
    if a is Some {
        a
    } else {
        b
    }
}

fn or_else(a: Option<String>, b: Option<String>) -> (r: Option<String>)
    ensures
        r == first_given(a, b),
{
    match a {
        Some(x) => Some(x),
        None => b,
    }
}

/// How to reach the model: each setting as given, or else as the environment
/// has it. An address and a model are required.
pub fn resolve_enrich_config(given: EnrichSettings, environment: EnrichSettings) -> (r: Result<EnrichConfig, MissingSetting>)
    ensures
        match (first_given(given.base_url, environment.base_url), first_given(given.model, environment.model)) {
            (None, _) => r == Err::<EnrichConfig, MissingSetting>(MissingSetting::BaseUrl),
            (Some(_), None) => r == Err::<EnrichConfig, MissingSetting>(MissingSetting::Model),
            (Some(base_url), Some(model)) => r matches Ok(config) && config.base_url@ == base_url@ && config.model@ == model@ && config.api_key
                == first_given(given.api_key, environment.api_key),
        },
{
    let base_url = match or_else(given.base_url, environment.base_url) {
        Some(u) => u,
        None => {
            return Err(MissingSetting::BaseUrl);
        },
    };
    let model = match or_else(given.model, environment.model) {
        Some(m) => m,
        None => {
            return Err(MissingSetting::Model);
        },
    };
    let api_key = or_else(given.api_key, environment.api_key);
    Ok(EnrichConfig { base_url, model, api_key })
}

/// What documentation is generated as.
#[derive(Clone, Copy, Debug, PartialEq, Eq, Structural)]
pub enum DocsFormat {
    Html,
    Markdown,
    Pdf,
    Dita,
    Graphml,
    Obsidian,
}

/// Where documentation goes unless something else is said.
pub open spec fn docs_output(format: DocsFormat) -> Seq<char> {
    match format {
        DocsFormat::Html => "docs"@,
        DocsFormat::Markdown => "docs.md"@,
        DocsFormat::Pdf => "docs.pdf"@,
        DocsFormat::Dita => "docs-dita"@,
        DocsFormat::Graphml => "docs.graphml"@,
        DocsFormat::Obsidian => "docs-obsidian"@,
    }
}

/// What the documentation is called.
pub open spec fn docs_name(format: DocsFormat) -> Seq<char> {
    match format {
        DocsFormat::Html => "HTML documentation"@,
        DocsFormat::Markdown => "Markdown documentation"@,
        DocsFormat::Pdf => "PDF documentation"@,
        DocsFormat::Dita => "DITA documentation"@,
        DocsFormat::Graphml => "GraphML graph"@,
        DocsFormat::Obsidian => "Obsidian vault"@,
    }
}

impl DocsFormat {
    /// Where the documentation goes unless something else is said.
    pub fn default_output(&self) -> (r: &'static str)
        ensures
            r@ == docs_output(*self),
    {
        match self {
            DocsFormat::Html => "docs",
            DocsFormat::Markdown => "docs.md",
            DocsFormat::Pdf => "docs.pdf",
            DocsFormat::Dita => "docs-dita",
            DocsFormat::Graphml => "docs.graphml",
            DocsFormat::Obsidian => "docs-obsidian",
        }
    }

    /// What the documentation is called.
    pub fn title(&self) -> (r: &'static str)
        ensures
            r@ == docs_name(*self),
    {
        match self {
            DocsFormat::Html => "HTML documentation",
            DocsFormat::Markdown => "Markdown documentation",
            DocsFormat::Pdf => "PDF documentation",
            DocsFormat::Dita => "DITA documentation",
            DocsFormat::Graphml => "GraphML graph",
            DocsFormat::Obsidian => "Obsidian vault",
        }
    }
}

/// Where the documentation goes.
pub fn docs_destination(given: Option<String>, format: DocsFormat) -> (r: String)
    ensures
        r@ == match given {
            Some(output) => output@,
            None => docs_output(format),
        },
{
    match given {
        Some(output) => output,
        None => format.default_output().to_owned(),
    }
}

/// Says that documentation was generated.
pub fn render_docs_done(format: DocsFormat, concepts: usize, output: &str) -> (r: String)
    ensures
        r@ == "Generated "@ + docs_name(format) + " for "@ + decimal(concepts as nat) + " concepts into "@ + output@ + "\n"@,
{
    let mut out = "Generated ".to_owned();
    out.append(format.title());
    out.append(" for ");
    out.append(decimal_text(concepts).as_str());
    out.append(" concepts into ");
    out.append(output);
    out.append("\n");
    out
}

/// The text with spaces behind it up to the width.
pub open spec fn padded(s: Seq<char>, width: nat) -> Seq<char> {
    if s.len() < width {
        s + times(" "@, (width - s.len()) as nat)
    } else {
        s
    }
}

fn push_padded(out: &mut String, s: &str, width: usize)
    ensures
        final(out)@ == old(out)@ + padded(s@, width as nat),
{
    let n: usize = chars_of(s).len();
    out.append(s);
    if n < width {
        let ghost first = out@;
        let more: usize = width - n;
        assert(out@ =~= first + times(" "@, 0));
        for i in 0..more
            invariant
                out@ == first + times(" "@, i as nat),
        {
            let ghost before = out@;
            out.append(" ");
            assert(out@ =~= first + times(" "@, (i + 1) as nat));
        }
        assert(out@ =~= old(out)@ + padded(s@, width as nat));
    }
}

/// A count behind a name.
pub open spec fn table_line(name: Seq<char>, count: nat) -> Seq<char> {
    if count == 0 {
        Seq::empty()
    } else {
        "  "@ + padded(name, 12) + " "@ + decimal(count) + "\n"@
    }
}

fn push_table_line(out: &mut String, name: &str, count: usize)
    ensures
        final(out)@ == old(out)@ + table_line(name@, count as nat),
{
    if count == 0 {
        assert(out@ =~= old(out)@ + Seq::empty());
    } else {
        out.append("  ");
        push_padded(out, name, 12);
        out.append(" ");
        out.append(decimal_text(count).as_str());
        out.append("\n");
        assert(out@ =~= old(out)@ + table_line(name@, count as nat));
    }
}

/// How many kinds of concepts are told apart in a count.
pub const KIND_COUNT: usize = 10;

/// The place of a kind among the others.
pub open spec fn kind_place(kind: ConceptKind) -> int {
    match kind {
        ConceptKind::Package => 0,
        ConceptKind::Module => 1,
        ConceptKind::Document => 2,
        ConceptKind::Struct => 3,
        ConceptKind::Class => 4,
        ConceptKind::Interface => 5,
        ConceptKind::Trait => 6,
        ConceptKind::Function => 7,
        ConceptKind::Method => 8,
        ConceptKind::Other(_) => 9,
    }
}

fn place_of(kind: ConceptKind) -> (r: usize)
    ensures
        r == kind_place(kind),
        r < KIND_COUNT,
{
    match kind {
        ConceptKind::Package => 0,
        ConceptKind::Module => 1,
        ConceptKind::Document => 2,
        ConceptKind::Struct => 3,
        ConceptKind::Class => 4,
        ConceptKind::Interface => 5,
        ConceptKind::Trait => 6,
        ConceptKind::Function => 7,
        ConceptKind::Method => 8,
        ConceptKind::Other(_) => 9,
    }
}

/// A kind that stands at the place.
pub open spec fn kind_at(k: int) -> ConceptKind {
    if k == 0 {
        ConceptKind::Package
    } else if k == 1 {
        ConceptKind::Module
    } else if k == 2 {
        ConceptKind::Document
    } else if k == 3 {
        ConceptKind::Struct
    } else if k == 4 {
        ConceptKind::Class
    } else if k == 5 {
        ConceptKind::Interface
    } else if k == 6 {
        ConceptKind::Trait
    } else if k == 7 {
        ConceptKind::Function
    } else if k == 8 {
        ConceptKind::Method
    } else {
        ConceptKind::Other(0)
    }
}

fn kind_of_place(k: usize) -> (r: ConceptKind)
    ensures
        r == kind_at(k as int),
{
    if k == 0 {
        ConceptKind::Package
    } else if k == 1 {
        ConceptKind::Module
    } else if k == 2 {
        ConceptKind::Document
    } else if k == 3 {
        ConceptKind::Struct
    } else if k == 4 {
        ConceptKind::Class
    } else if k == 5 {
        ConceptKind::Interface
    } else if k == 6 {
        ConceptKind::Trait
    } else if k == 7 {
        ConceptKind::Function
    } else if k == 8 {
        ConceptKind::Method
    } else {
        ConceptKind::Other(0)
    }
}

/// How many of the first `n` concepts are of the kind at this place.
pub open spec fn kind_count(cs: Seq<Concept>, place: int, n: nat) -> nat
    decreases n,
{
    if n == 0 {
        0
    } else {
        kind_count(cs, place, (n - 1) as nat) + (if kind_place(cs[n - 1].kind) == place {
            1nat
        } else {
            0nat
        })
    }
}

/// How many concepts there are of each kind.
pub open spec fn kind_lines(cs: Seq<Concept>) -> spec_fn(int) -> Seq<char> {
    |k: int| table_line(kind_label(kind_at(k)), kind_count(cs, k, cs.len()))
}

fn count_kind(concepts: &Vec<Concept>, place: usize) -> (r: usize)
    ensures
        r == kind_count(concepts@, place as int, concepts@.len()),
{
    let mut count: usize = 0;
    for i in 0..concepts.len()
        invariant
            count <= i,
            count == kind_count(concepts@, place as int, i as nat),
    {
        if place_of(concepts[i].kind) == place {
            count = count + 1;
        }
    }
    count
}

/// That descriptions were filled in.
pub open spec fn enriched_line(stats: Option<EnrichStats>) -> Seq<char> {
    match stats {
        Some(s) => "Enriched "@ + decimal((s.generated + s.reused) as nat) + " concepts ("@ + decimal(s.generated as nat) + " generated, "@ + decimal(
            s.reused as nat,
        ) + " reused from the previous bundle)\n"@,
        None => Seq::empty(),
    }
}

/// That topics were imported.
pub open spec fn imported_line(imported: Option<usize>) -> Seq<char> {
    match imported {
        Some(n) => "Imported "@ + decimal(n as nat) + " DITA topics as Document concepts\n"@,
        None => Seq::empty(),
    }
}

/// That files were parsed, or were not.
pub open spec fn parsed_text(reparsed: nat, reused: nat) -> Seq<char> {
    " ("@ + decimal(reparsed) + " files parsed, "@ + decimal(reused) + " reused from cache)\n"@
}

fn push_parsed(out: &mut String, reparsed: usize, reused: usize)
    ensures
        final(out)@ == old(out)@ + parsed_text(reparsed as nat, reused as nat),
{
    out.append(" (");
    out.append(decimal_text(reparsed).as_str());
    out.append(" files parsed, ");
    out.append(decimal_text(reused).as_str());
    out.append(" reused from cache)\n");
    assert(out@ =~= old(out)@ + parsed_text(reparsed as nat, reused as nat));
}

/// What a run that wrote a bundle says.
pub open spec fn generated_text(
    cs: Seq<Concept>,
    output: Seq<char>,
    reparsed: nat,
    reused: nat,
    enriched: Option<EnrichStats>,
    imported: Option<usize>,
) -> Seq<char> {
    "Generated "@ + decimal(cs.len()) + " concepts into "@ + output + parsed_text(reparsed, reused) + enriched_line(enriched) + imported_line(imported)
        + gather(kind_lines(cs), KIND_COUNT as nat)
}

/// What a run that wrote a bundle says.
pub fn render_generated(
    concepts: &Vec<Concept>,
    output: &str,
    reparsed: usize,
    reused: usize,
    enriched: Option<EnrichStats>,
    imported: Option<usize>,
) -> (r: String)
    requires
        enriched matches Some(s) ==> s.generated + s.reused <= usize::MAX,
    ensures
        r@ == generated_text(concepts@, output@, reparsed as nat, reused as nat, enriched, imported),
{
    let mut out = "Generated ".to_owned();
    out.append(decimal_text(concepts.len()).as_str());
    out.append(" concepts into ");
    out.append(output);
    push_parsed(&mut out, reparsed, reused);
    let ghost head = out@;
    if let Some(s) = enriched {
        out.append("Enriched ");
        out.append(decimal_text(s.generated + s.reused).as_str());
        out.append(" concepts (");
        out.append(decimal_text(s.generated).as_str());
        out.append(" generated, ");
        out.append(decimal_text(s.reused).as_str());
        out.append(" reused from the previous bundle)\n");
    }
    assert(out@ =~= head + enriched_line(enriched));
    let ghost head = out@;
    if let Some(n) = imported {
        out.append("Imported ");
        out.append(decimal_text(n).as_str());
        out.append(" DITA topics as Document concepts\n");
    }
    assert(out@ =~= head + imported_line(imported));
    let ghost f = kind_lines(concepts@);
    let ghost first = out@;
    assert(out@ =~= first + gather(f, 0));
    for k in 0..KIND_COUNT
        invariant
            f == kind_lines(concepts@),
            out@ == first + gather(f, k as nat),
    {
        push_table_line(&mut out, kind_of_place(k).label(), count_kind(concepts, k));
        assert(out@ =~= first + gather(f, (k + 1) as nat));
    }
    out
}

/// Says that a watched bundle was written again.
pub fn render_regenerated(concepts: usize, reparsed: usize, reused: usize) -> (r: String)
    ensures
        r@ == "Regenerated "@ + decimal(concepts as nat) + " concepts"@ + parsed_text(reparsed as nat, reused as nat),
{
    let mut out = "Regenerated ".to_owned();
    out.append(decimal_text(concepts).as_str());
    out.append(" concepts");
    push_parsed(&mut out, reparsed, reused);
    out
}

/// The lines, each set off.
pub open spec fn listed(lines: Seq<Seq<char>>) -> spec_fn(int) -> Seq<char> {
    |k: int| "  "@ + lines[k] + "\n"@
}

fn push_listed(out: &mut String, lines: &Vec<String>)
    ensures
        final(out)@ == old(out)@ + gather(listed(texts(lines@)), lines@.len()),
{
    let ghost f = listed(texts(lines@));
    let ghost first = out@;
    assert(out@ =~= first + gather(f, 0));
    for k in 0..lines.len()
        invariant
            f == listed(texts(lines@)),
            out@ == first + gather(f, k as nat),
    {
        let ghost before = out@;
        out.append("  ");
        out.append(lines[k].as_str());
        out.append("\n");
        assert(out@ =~= before + ("  "@ + texts(lines@)[k as int] + "\n"@));
        assert(out@ =~= first + gather(f, (k + 1) as nat));
    }
}

/// Whether two runs agreed.
pub open spec fn determinism_text(diffs: Seq<Seq<char>>, lsp: bool, path: Seq<char>, concepts: nat) -> Seq<char> {
    if diffs.len() == 0 {
        "Deterministic: two independent `generate"@ + only_if(lsp, " --lsp"@) + "` runs on "@ + path + " produced byte-identical output ("@ + decimal(
            concepts,
        ) + " concepts).\n"@
    } else {
        "Non-deterministic: "@ + decimal(diffs.len()) + " file(s) differed between two independent `generate"@ + only_if(lsp, " --lsp"@) + "` runs on "@
            + path + (if lsp {
            " (expected culprit: language-server index state, not source text \u{2014} see ROADMAP.md's Phase 2 known limitations)"@
        } else {
            " (unexpected on the tree-sitter-only path \u{2014} please report this as a bug)"@
        }) + ":\n"@ + gather(listed(diffs), diffs.len())
    }
}

/// Says whether two runs agreed.
pub fn render_determinism(diffs: &Vec<String>, lsp: bool, path: &str, concepts: usize) -> (r: String)
    ensures
        r@ == determinism_text(texts(diffs@), lsp, path@, concepts as nat),
{
    if diffs.len() == 0 {
        let mut out = "Deterministic: two independent `generate".to_owned();
        push_if(&mut out, lsp, " --lsp");
        out.append("` runs on ");
        out.append(path);
        out.append(" produced byte-identical output (");
        out.append(decimal_text(concepts).as_str());
        out.append(" concepts).\n");
        return out;
    }
    let mut out = "Non-deterministic: ".to_owned();
    out.append(decimal_text(diffs.len()).as_str());
    out.append(" file(s) differed between two independent `generate");
    push_if(&mut out, lsp, " --lsp");
    out.append("` runs on ");
    out.append(path);
    out.append(if lsp {
        " (expected culprit: language-server index state, not source text \u{2014} see ROADMAP.md's Phase 2 known limitations)"
    } else {
        " (unexpected on the tree-sitter-only path \u{2014} please report this as a bug)"
    });
    out.append(":\n");
    push_listed(&mut out, diffs);
    out
}

/// Whether a bundle is what a new run would write.
pub open spec fn freshness_text(diffs: Seq<Seq<char>>, bundle: Seq<char>, lsp: bool, path: Seq<char>, concepts: nat) -> Seq<char> {
    if diffs.len() == 0 {
        "Up to date: the bundle at "@ + bundle + " matches a fresh `generate"@ + only_if(lsp, " --lsp"@) + "` on "@ + path + " ("@ + decimal(concepts)
            + " concepts).\n"@
    } else {
        "Stale: "@ + decimal(diffs.len()) + " file(s) in "@ + bundle + " don't match a fresh `generate"@ + only_if(lsp, " --lsp"@) + "` on "@ + path
            + " \u{2014} run `okf-rs generate` and commit the result:\n"@ + gather(listed(diffs), diffs.len())
    }
}

/// Says whether a bundle is what a new run would write.
pub fn render_freshness(diffs: &Vec<String>, bundle: &str, lsp: bool, path: &str, concepts: usize) -> (r: String)
    ensures
        r@ == freshness_text(texts(diffs@), bundle@, lsp, path@, concepts as nat),
{
    if diffs.len() == 0 {
        let mut out = "Up to date: the bundle at ".to_owned();
        out.append(bundle);
        out.append(" matches a fresh `generate");
        push_if(&mut out, lsp, " --lsp");
        out.append("` on ");
        out.append(path);
        out.append(" (");
        out.append(decimal_text(concepts).as_str());
        out.append(" concepts).\n");
        return out;
    }
    let mut out = "Stale: ".to_owned();
    out.append(decimal_text(diffs.len()).as_str());
    out.append(" file(s) in ");
    out.append(bundle);
    out.append(" don't match a fresh `generate");
    push_if(&mut out, lsp, " --lsp");
    out.append("` on ");
    out.append(path);
    out.append(" \u{2014} run `okf-rs generate` and commit the result:\n");
    push_listed(&mut out, diffs);
    out
}

/// What a kind of manifest is called.
pub open spec fn manifest_name(kind: ManifestKind) -> Seq<char> {
    match kind {
        ManifestKind::Cargo => "Cargo"@,
        ManifestKind::Npm => "Npm"@,
        ManifestKind::PyProject => "PyProject"@,
        ManifestKind::GoModule => "GoModule"@,
    }
}

fn name_of_manifest(kind: ManifestKind) -> (r: &'static str)
    ensures
        r@ == manifest_name(kind),
{
    match kind {
        ManifestKind::Cargo => "Cargo",
        ManifestKind::Npm => "Npm",
        ManifestKind::PyProject => "PyProject",
        ManifestKind::GoModule => "GoModule",
    }
}

/// How many languages are told apart in a count.
pub const LANGUAGE_COUNT: usize = 8;

/// The place of a language among the others, by name.
pub open spec fn language_place(language: Language) -> int {
    match language {
        Language::Dita => 0,
        Language::Go => 1,
        Language::JavaScript => 2,
        Language::Other(_) => 3,
        Language::Php => 4,
        Language::Python => 5,
        Language::Rust => 6,
        Language::TypeScript => 7,
    }
}

fn place_of_language(language: Language) -> (r: usize)
    ensures
        r == language_place(language),
{
    match language {
        Language::Dita => 0,
        Language::Go => 1,
        Language::JavaScript => 2,
        Language::Other(_) => 3,
        Language::Php => 4,
        Language::Python => 5,
        Language::Rust => 6,
        Language::TypeScript => 7,
    }
}

/// A language that stands at the place.
pub open spec fn language_at(k: int) -> Language {
    if k == 0 {
        Language::Dita
    } else if k == 1 {
        Language::Go
    } else if k == 2 {
        Language::JavaScript
    } else if k == 3 {
        Language::Other(0)
    } else if k == 4 {
        Language::Php
    } else if k == 5 {
        Language::Python
    } else if k == 6 {
        Language::Rust
    } else {
        Language::TypeScript
    }
}

fn language_of_place(k: usize) -> (r: Language)
    ensures
        r == language_at(k as int),
{
    if k == 0 {
        Language::Dita
    } else if k == 1 {
        Language::Go
    } else if k == 2 {
        Language::JavaScript
    } else if k == 3 {
        Language::Other(0)
    } else if k == 4 {
        Language::Php
    } else if k == 5 {
        Language::Python
    } else if k == 6 {
        Language::Rust
    } else {
        Language::TypeScript
    }
}

/// How many of the first `n` files are in the language at this place.
pub open spec fn language_count(files: Seq<SourceFile>, place: int, n: nat) -> nat
    decreases n,
{
    if n == 0 {
        0
    } else {
        language_count(files, place, (n - 1) as nat) + (if language_place(files[n - 1].language) == place {
            1nat
        } else {
            0nat
        })
    }
}

/// How many files there are in each language.
pub open spec fn language_lines(files: Seq<SourceFile>) -> spec_fn(int) -> Seq<char> {
    |k: int| table_line(language_label(language_at(k)), language_count(files, k, files.len()))
}

fn count_language(files: &Vec<SourceFile>, place: usize) -> (r: usize)
    ensures
        r == language_count(files@, place as int, files@.len()),
{
    let mut count: usize = 0;
    for i in 0..files.len()
        invariant
            count <= i,
            count == language_count(files@, place as int, i as nat),
    {
        if place_of_language(files[i].language) == place {
            count = count + 1;
        }
    }
    count
}

/// The line for a package.
pub open spec fn package_line(p: PackageRoot) -> Seq<char> {
    "  "@ + padded(if p.relative_dir@.len() == 0 {
        "."@
    } else {
        p.relative_dir@
    }, 30) + " "@ + manifest_name(p.manifest) + "\n"@
}

/// The lines for the packages.
pub open spec fn package_lines(ps: Seq<PackageRoot>) -> spec_fn(int) -> Seq<char> {
    |k: int| package_line(ps[k])
}

/// What manifests there are: none, one at the root, or a list.
pub open spec fn manifests_text(ps: Seq<PackageRoot>) -> Seq<char> {
    if ps.len() == 0 {
        "Manifest: none detected\n"@
    } else if ps.len() == 1 && ps[0].relative_dir@.len() == 0 {
        "Manifest: "@ + manifest_name(ps[0].manifest) + "\n"@
    } else {
        decimal(ps.len()) + " packages detected:\n"@ + gather(package_lines(ps), ps.len())
    }
}

/// What a scan found.
pub open spec fn scan_text(p: Project) -> Seq<char> {
    "Project root: "@ + p.root@ + "\n"@ + manifests_text(p.packages@) + decimal(p.files@.len()) + " source files:\n"@ + gather(
        language_lines(p.files@),
        LANGUAGE_COUNT as nat,
    )
}

fn push_package(out: &mut String, p: &PackageRoot)
    ensures
        final(out)@ == old(out)@ + package_line(*p),
{
    out.append("  ");
    let dir = p.relative_dir.as_str();
    push_padded(out, if chars_of(dir).len() == 0 {
        "."
    } else {
        dir
    }, 30);
    out.append(" ");
    out.append(name_of_manifest(p.manifest));
    out.append("\n");
    assert(out@ =~= old(out)@ + package_line(*p));
}

fn push_manifests(out: &mut String, packages: &Vec<PackageRoot>)
    ensures
        final(out)@ == old(out)@ + manifests_text(packages@),
{
    let n: usize = packages.len();
    if n == 0 {
        out.append("Manifest: none detected\n");
    } else if n == 1 && chars_of(packages[0].relative_dir.as_str()).len() == 0 {
        out.append("Manifest: ");
        out.append(name_of_manifest(packages[0].manifest));
        out.append("\n");
        assert(out@ =~= old(out)@ + manifests_text(packages@));
    } else {
        let ghost f = package_lines(packages@);
        out.append(decimal_text(n).as_str());
        out.append(" packages detected:\n");
        let ghost first = out@;
        assert(out@ =~= first + gather(f, 0));
        for k in 0..n
            invariant
                n == packages@.len(),
                f == package_lines(packages@),
                out@ == first + gather(f, k as nat),
        {
            push_package(out, &packages[k]);
            assert(out@ =~= first + gather(f, (k + 1) as nat));
        }
        assert(out@ =~= old(out)@ + manifests_text(packages@));
    }
}

/// Says what a scan found.
pub fn render_scan(project: &Project) -> (r: String)
    ensures
        r@ == scan_text(*project),
{
    let mut out = "Project root: ".to_owned();
    out.append(project.root.as_str());
    out.append("\n");
    push_manifests(&mut out, &project.packages);
    out.append(decimal_text(project.files.len()).as_str());
    out.append(" source files:\n");
    let ghost f = language_lines(project.files@);
    let ghost first = out@;
    assert(out@ =~= first + gather(f, 0));
    for k in 0..LANGUAGE_COUNT
        invariant
            f == language_lines(project.files@),
            out@ == first + gather(f, k as nat),
    {
        push_table_line(&mut out, language_of_place(k).display_name(), count_language(&project.files, k));
        assert(out@ =~= first + gather(f, (k + 1) as nat));
    }
    out
}

/// The two kinds are counted together: they are one, or neither has a name of
/// its own.
pub open spec fn counted_together(a: ConceptKind, b: ConceptKind) -> bool {
    a == b || (a is Other && b is Other)
}

/// Concepts of the kind are counted somewhere.
pub open spec fn is_counted(kind: ConceptKind) -> bool {
    exists|p: int| 0 <= p < KIND_COUNT && counted_together(kind, #[trigger] kind_at(p))
}

/// Each concept is counted once, under its kind.
pub proof fn concepts_are_counted_under_their_kinds(cs: Seq<Concept>, k: int, n: nat)
    requires
        n <= cs.len(),
        0 <= k < KIND_COUNT,
    ensures
        kind_count(cs, k, n) == cs.take(n as int).filter(|c: Concept| counted_together(c.kind, kind_at(k))).len(),
        forall|kind: ConceptKind| #[trigger] is_counted(kind),
        forall|kind: ConceptKind, p: int, q: int| 0 <= p < KIND_COUNT && 0 <= q < KIND_COUNT && #[trigger] counted_together(kind, kind_at(p)) && #[trigger] counted_together(kind, kind_at(q)) ==> p == q,
    decreases n,
{
    reveal(Seq::filter);
    if n > 0 {
        concepts_are_counted_under_their_kinds(cs, k, (n - 1) as nat);
        assert(cs.take(n as int).drop_last() =~= cs.take(n - 1));
        assert(cs.take(n as int).last() == cs[n - 1]);
    }
    assert forall|kind: ConceptKind| #[trigger] is_counted(kind) by {
        assert(counted_together(kind, kind_at(kind_place(kind))));
    }
}

/// The two languages are counted together: they are one, or neither has a name
/// of its own.
pub open spec fn spoken_together(a: Language, b: Language) -> bool {
    a == b || (a is Other && b is Other)
}

/// Files in the language are counted somewhere.
pub open spec fn is_spoken(language: Language) -> bool {
    exists|p: int| 0 <= p < 8 && spoken_together(language, #[trigger] language_at(p))
}

/// Each file is counted once, under its language.
pub proof fn files_are_counted_under_their_languages(files: Seq<SourceFile>, k: int, n: nat)
    requires
        n <= files.len(),
        0 <= k < 8,
    ensures
        language_count(files, k, n) == files.take(n as int).filter(|f: SourceFile| spoken_together(f.language, language_at(k))).len(),
        forall|language: Language| #[trigger] is_spoken(language),
    decreases n,
{
    reveal(Seq::filter);
    if n > 0 {
        files_are_counted_under_their_languages(files, k, (n - 1) as nat);
        assert(files.take(n as int).drop_last() =~= files.take(n - 1));
        assert(files.take(n as int).last() == files[n - 1]);
    }
    assert forall|language: Language| #[trigger] is_spoken(language) by {
        assert(spoken_together(language, language_at(language_place(language))));
    }
}

}
