//! A bundle as Markdown: one page for each concept, an index for each
//! directory, and one for the whole.

use vstd::prelude::*;
use crate::analysis::is_disambiguation;
use crate::model::{copy_opt, copy_texts, Concept, RelationKind, Relationship};
use crate::model::opt_text;
use crate::naming::{disambiguate_duplicate_ids, first_clash};
use crate::naming::{clashes, is_first_clash};
use crate::order::gather;
use crate::order::KeyIndex;
use crate::order::lemma_last_of;
use crate::graph::ids;
use crate::render::{capitalize, contains_members, group_by_kind_dir, push_framed, relation_kind_at, relative_link, Group};
use crate::render::{capitalized, framed, group_values, grouped, heading_of, in_bundle, link_between, location_text, parts_of, plain, relation_at, type_label};
use crate::text::{decimal_text, same, trim_end_text};
use crate::text::{decimal, texts, trim_end};

verus! {

/// The version of the format that bundles are written in.
pub const OKF_SPEC_VERSION: &'static str = "0.2";

/// No earlier relationship has the kind and the target of the one at `i`.
pub open spec fn is_first_of_its(rels: Seq<Relationship>, i: int) -> bool {
    forall|j: int| 0 <= j < i ==> !((#[trigger] rels[j]).kind == rels[i].kind && rels[j].target@ == rels[i].target@)
}

/// Whether no earlier relationship has the same kind and target.
fn is_new_pair(rels: &Vec<Relationship>, i: usize) -> (r: bool)
    requires
        i < rels.len(),
    ensures
        r == is_first_of_its(rels@, i as int),
{
    for j in 0..i
        invariant
            i < rels.len(),
            forall|k: int| 0 <= k < j ==> !((#[trigger] rels@[k]).kind == rels@[i as int].kind && rels@[k].target@ == rels@[i as int].target@),
    {
        if rels[j].kind == rels[i].kind && same(rels[j].target.as_str(), rels[i].target.as_str()) {
            assert(rels@[j as int].kind == rels@[i as int].kind);
            return false;
        }
    }
    true
}

/// The positions, among the first `n`, of the first relationship with each
/// kind and target.
pub open spec fn unique_positions(rels: Seq<Relationship>, n: nat) -> Seq<usize>
    decreases n,
{
    if n == 0 {
        Seq::empty()
    } else {
        let rest = unique_positions(rels, (n - 1) as nat);
        if is_first_of_its(rels, n - 1) {
            rest.push((n - 1) as usize)
        } else {
            rest
        }
    }
}

/// The first relationship with each kind and target, in their order.
pub fn unique_by_kind_and_target(rels: &Vec<Relationship>) -> (r: Vec<usize>)
    ensures
        r@ == unique_positions(rels@, rels@.len()),
{
    let mut out: Vec<usize> = Vec::new();
    for i in 0..rels.len()
        invariant
            out@ == unique_positions(rels@, i as nat),
    {
        if is_new_pair(rels, i) {
            out.push(i);
        }
    }
    out
}

/// The targets of the first `n` relationships, as far as they are of the kind
/// and the first with this target.
pub open spec fn targets_of(rels: Seq<Relationship>, kind: RelationKind, n: nat) -> Seq<Seq<char>>
    decreases n,
{
    if n == 0 {
        Seq::empty()
    } else {
        let rest = targets_of(rels, kind, (n - 1) as nat);
        if rels[n - 1].kind == kind && is_first_of_its(rels, n - 1) {
            rest.push(rels[n - 1].target@)
        } else {
            rest
        }
    }
}

/// The targets of a concept's relationships, by kind.
#[derive(Debug)]
pub struct RelationshipsFrontmatter {
    pub imports: Vec<String>,
    pub calls: Vec<String>,
    pub called_by: Vec<String>,
    pub implements: Vec<String>,
    pub inherits: Vec<String>,
    pub depends_on: Vec<String>,
    pub member_of: Vec<String>,
}

/// The targets are those of the relationships, by kind and each once.
pub open spec fn are_targets(f: RelationshipsFrontmatter, rels: Seq<Relationship>) -> bool {
    let n = rels.len();
    &&& texts(f.imports@) == targets_of(rels, RelationKind::Imports, n)
    &&& texts(f.calls@) == targets_of(rels, RelationKind::Calls, n)
    &&& texts(f.called_by@) == targets_of(rels, RelationKind::CalledBy, n)
    &&& texts(f.implements@) == targets_of(rels, RelationKind::Implements, n)
    &&& texts(f.inherits@) == targets_of(rels, RelationKind::Inherits, n)
    &&& texts(f.depends_on@) == targets_of(rels, RelationKind::DependsOn, n)
    &&& texts(f.member_of@) == targets_of(rels, RelationKind::MemberOf, n)
}

/// The targets of the relationships of one kind, each once.
fn targets_of_kind(rels: &Vec<Relationship>, kind: RelationKind) -> (r: Vec<String>)
    ensures
        texts(r@) == targets_of(rels@, kind, rels@.len()),
{
    let mut out: Vec<String> = Vec::new();
    assert(texts(out@) =~= Seq::empty());
    for i in 0..rels.len()
        invariant
            texts(out@) == targets_of(rels@, kind, i as nat),
    {
        if rels[i].kind == kind && is_new_pair(rels, i) {
            let ghost before = out@;
            out.push(rels[i].target.clone());
            assert(texts(out@) =~= texts(before).push(rels@[i as int].target@));
        }
    }
    out
}

/// The targets of the concept's relationships, by kind and each once; nothing
/// for a concept that has none.
pub fn relationships_frontmatter(concept: &Concept) -> (r: Option<RelationshipsFrontmatter>)
    ensures
        match r {
            None => concept.relationships@.len() == 0,
            Some(f) => concept.relationships@.len() > 0 && are_targets(f, concept.relationships@),
        },
{
    if concept.relationships.len() == 0 {
        return None;
    }
    let rels = &concept.relationships;
    Some(RelationshipsFrontmatter {
        imports: targets_of_kind(rels, RelationKind::Imports),
        calls: targets_of_kind(rels, RelationKind::Calls),
        called_by: targets_of_kind(rels, RelationKind::CalledBy),
        implements: targets_of_kind(rels, RelationKind::Implements),
        inherits: targets_of_kind(rels, RelationKind::Inherits),
        depends_on: targets_of_kind(rels, RelationKind::DependsOn),
        member_of: targets_of_kind(rels, RelationKind::MemberOf),
    })
}

/// A list item that links to a concept.
pub open spec fn link_item(from: Seq<char>, name: Seq<char>, to: Seq<char>) -> Seq<char> {
    "- ["@ + name + "]("@ + link_between(from, to, "md"@) + ")\n"@
}

/// The list items for the parts of a concept.
pub open spec fn part_items(from: Seq<char>, parts: Seq<Concept>) -> spec_fn(int) -> Seq<char> {
    |i: int| link_item(from, parts[i].name@, parts[i].id@)
}

/// The section on the parts of a concept; nothing where it has none.
pub open spec fn parts_section(from: Seq<char>, parts: Seq<Concept>) -> Seq<char> {
    if parts.len() == 0 {
        Seq::empty()
    } else {
        "# Contains\n\n"@ + gather(part_items(from, parts), parts.len()) + "\n"@
    }
}

/// The list item for a relationship: a link where its target is in the bundle,
/// else only its name.
pub open spec fn relation_item(cs: Seq<Concept>, from: Seq<char>, r: Relationship) -> Seq<char> {
    if in_bundle(cs, r.target@) {
        link_item(from, r.target_display@, r.target@)
    } else {
        "- `"@ + r.target_display@ + "`\n"@
    }
}

/// The list items for relationships of the kind, each target once.
pub open spec fn relation_items(cs: Seq<Concept>, from: Seq<char>, rels: Seq<Relationship>, kind: RelationKind) -> spec_fn(int) -> Seq<char> {
    |i: int| if rels[i].kind == kind && is_first_of_its(rels, i) {
        relation_item(cs, from, rels[i])
    } else {
        Seq::empty()
    }
}

/// The section on the relationships of one kind; nothing where there is none.
pub open spec fn relation_section(cs: Seq<Concept>, from: Seq<char>, rels: Seq<Relationship>, kind: RelationKind) -> Seq<char> {
    if crate::render::has_kind(rels, kind) {
        "# "@ + heading_of(kind) + "\n\n"@ + gather(relation_items(cs, from, rels, kind), rels.len()) + "\n"@
    } else {
        Seq::empty()
    }
}

/// The sections on the relationships, one kind after the other.
pub open spec fn relation_sections(cs: Seq<Concept>, c: Concept) -> spec_fn(int) -> Seq<char> {
    |k: int| relation_section(cs, c.id@, c.relationships@, relation_at(k))
}

/// The page of a concept without its head.
pub open spec fn page_body(cs: Seq<Concept>, c: Concept) -> Seq<char> {
    framed("# Signature\n\n`"@, opt_text(c.signature), "`\n\n"@) + parts_section(c.id@, parts_of(c, cs, cs.len())) + gather(relation_sections(cs, c), 7)
}

/// The page of a concept: the head, then what it holds.
pub open spec fn page(cs: Seq<Concept>, c: Concept, head: Seq<char>) -> Seq<char> {
    "---\n"@ + head + "---\n\n"@ + trim_end(page_body(cs, c))
}

/// Puts a list item that links to a concept.
fn push_link_item(out: &mut String, from: &str, name: &str, to: &str)
    ensures
        final(out)@ == old(out)@ + link_item(from@, name@, to@),
{
    out.append("- [");
    out.append(name);
    out.append("](");
    out.append(relative_link(from, to, "md").as_str());
    out.append(")\n");
    assert(out@ =~= old(out)@ + link_item(from@, name@, to@));
}

/// Puts the section on the parts of a concept.
fn push_parts(out: &mut String, from: &str, parts: &Vec<&Concept>)
    ensures
        final(out)@ == old(out)@ + parts_section(from@, plain(parts@)),
{
    let ghost ps = plain(parts@);
    let ghost f = part_items(from@, ps);
    if parts.len() == 0 {
        assert(out@ =~= old(out)@ + Seq::empty());
        return;
    }
    out.append("# Contains\n\n");
    let ghost first = out@;
    assert(out@ =~= first + gather(f, 0));
    for i in 0..parts.len()
        invariant
            ps == plain(parts@),
            f == part_items(from@, ps),
            out@ == first + gather(f, i as nat),
    {
        push_link_item(out, from, parts[i].name.as_str(), parts[i].id.as_str());
        assert(ps[i as int] == *parts@[i as int]);
        assert(out@ =~= first + gather(f, (i + 1) as nat));
    }
    out.append("\n");
    assert(out@ =~= old(out)@ + parts_section(from@, ps));
}

/// The ids in a bundle.
pub struct BundleIds<'a> {
    index: KeyIndex<'a>,
}

impl<'a> BundleIds<'a> {
    /// The ids are those of the concepts.
    pub closed spec fn is_for(&self, cs: Seq<Concept>) -> bool {
        self.index.wf() && self.index@ == ids(cs)
    }

    pub fn new(concepts: &'a Vec<Concept>) -> (r: BundleIds<'a>)
        ensures
            r.is_for(concepts@),
    {
        let mut keys: Vec<&'a str> = Vec::new();
        for i in 0..concepts.len()
            invariant
                keys.len() == i,
                forall|k: int| 0 <= k < i ==> #[trigger] keys[k]@ == concepts[k].id@,
        {
            keys.push(concepts[i].id.as_str());
        }
        let index = KeyIndex::new(keys);
        assert(index@ =~= ids(concepts@));
        BundleIds { index }
    }

    /// Whether some concept has the id.
    pub(crate) fn contains(&self, id: &str, cs: Ghost<Seq<Concept>>) -> (r: bool)
        requires
            self.is_for(cs@),
        ensures
            r == in_bundle(cs@, id@),
    {
        proof {
            lemma_last_of(ids(cs@), id@);
        }
        match self.index.find(id) {
            Some(i) => {
                assert(ids(cs@)[i as int] == cs@[i as int].id@);
                true
            },
            None => {
                assert forall|i: int| 0 <= i < cs@.len() implies (#[trigger] cs@[i]).id@ != id@ by {
                    assert(ids(cs@)[i] == cs@[i].id@);
                }
                false
            },
        }
    }
}

/// Puts the section on the relationships of one kind.
fn push_relations(out: &mut String, known: &BundleIds, concept: &Concept, kind: RelationKind, cs: Ghost<Seq<Concept>>)
    requires
        known.is_for(cs@),
    ensures
        final(out)@ == old(out)@ + relation_section(cs@, concept.id@, concept.relationships@, kind),
{
    let rels = &concept.relationships;
    let from = concept.id.as_str();
    let ghost f = relation_items(cs@, from@, rels@, kind);
    if !crate::render::any_of_kind(rels, kind) {
        assert(out@ =~= old(out)@ + Seq::empty());
        return;
    }
    out.append("# ");
    out.append(kind.label());
    out.append("\n\n");
    let ghost first = out@;
    assert(out@ =~= first + gather(f, 0));
    for i in 0..rels.len()
        invariant
            known.is_for(cs@),
            *rels == concept.relationships,
            from@ == concept.id@,
            f == relation_items(cs@, from@, rels@, kind),
            out@ == first + gather(f, i as nat),
    {
        let ghost before = out@;
        if rels[i].kind == kind && is_new_pair(rels, i) {
            if known.contains(rels[i].target.as_str(), cs) {
                push_link_item(out, from, rels[i].target_display.as_str(), rels[i].target.as_str());
            } else {
                out.append("- `");
                out.append(rels[i].target_display.as_str());
                out.append("`\n");
            }
            assert(out@ =~= before + relation_item(cs@, from@, rels@[i as int]));
        }
        assert(out@ =~= before + f(i as int));
        assert(out@ =~= first + gather(f, (i + 1) as nat));
    }
    out.append("\n");
    assert(out@ =~= old(out)@ + relation_section(cs@, concept.id@, rels@, kind));
}

/// The page of a concept, with the given head: its signature, its parts, and
/// its relationships by kind.
pub fn render_concept(concept: &Concept, all: &Vec<Concept>, known: &BundleIds, head: &str) -> (r: String)
    requires
        known.is_for(all@),
    ensures
        r@ == page(all@, *concept, head@),
{
    let ghost cs = all@;
    let ghost f = relation_sections(cs, *concept);
    let mut body = String::new();
    push_framed(&mut body, "# Signature\n\n`", &concept.signature, "`\n\n");
    assert(body@ =~= framed("# Signature\n\n`"@, opt_text(concept.signature), "`\n\n"@));
    let parts = contains_members(concept, all);
    push_parts(&mut body, concept.id.as_str(), &parts);
    let ghost first = body@;
    assert(body@ =~= first + gather(f, 0));
    for k in 0..7usize
        invariant
            cs == all@,
            known.is_for(cs),
            f == relation_sections(cs, *concept),
            body@ == first + gather(f, k as nat),
    {
        push_relations(&mut body, known, concept, relation_kind_at(k), Ghost(cs));
        assert(body@ =~= first + gather(f, (k + 1) as nat));
    }
    assert(body@ == page_body(cs, *concept));
    let mut out = "---\n".to_owned();
    out.append(head);
    out.append("---\n\n");
    out.append(trim_end_text(body.as_str()));
    out
}

/// An entry of a directory's index.
pub open spec fn index_entry(pseudo_id: Seq<char>, c: Concept) -> Seq<char> {
    "- ["@ + c.name@ + "]("@ + link_between(pseudo_id, c.id@, "md"@) + ") \u{2014} "@ + type_label(c) + "\n"@
}

/// The entries of a directory's index.
pub open spec fn index_entries(pseudo_id: Seq<char>, entries: Seq<Concept>) -> spec_fn(int) -> Seq<char> {
    |i: int| index_entry(pseudo_id, entries[i])
}

/// The index of a directory.
pub open spec fn dir_index(dir: Seq<char>, entries: Seq<Concept>) -> Seq<char> {
    "# "@ + capitalized(dir) + "\n\n"@ + gather(index_entries(dir + "/index"@, entries), entries.len())
}

/// The index of a directory.
pub fn render_dir_index(group: &Group) -> (r: String)
    ensures
        r@ == dir_index(group.dir@, plain(group.entries@)),
{
    let ghost es = plain(group.entries@);
    let mut pseudo_id = group.dir.to_owned();
    pseudo_id.append("/index");
    let ghost f = index_entries(pseudo_id@, es);
    let mut out = "# ".to_owned();
    out.append(capitalize(group.dir).as_str());
    out.append("\n\n");
    let ghost first = out@;
    assert(out@ =~= first + gather(f, 0));
    for i in 0..group.entries.len()
        invariant
            es == plain(group.entries@),
            f == index_entries(pseudo_id@, es),
            out@ == first + gather(f, i as nat),
    {
        let c = group.entries[i];
        let ghost before = out@;
        out.append("- [");
        out.append(c.name.as_str());
        out.append("](");
        out.append(relative_link(pseudo_id.as_str(), c.id.as_str(), "md").as_str());
        out.append(") \u{2014} ");
        out.append(c.frontmatter_type().as_str());
        out.append("\n");
        assert(es[i as int] == *c);
        assert(out@ =~= before + index_entry(pseudo_id@, *c));
        assert(out@ =~= first + gather(f, (i + 1) as nat));
    }
    out
}

/// An entry of the root's index.
pub open spec fn root_entry(dir: Seq<char>, count: nat) -> Seq<char> {
    "- ["@ + capitalized(dir) + "]("@ + dir + "/index.md) ("@ + decimal(count) + ")\n"@
}

/// The entries of the root's index.
pub open spec fn root_entries(groups: Seq<(Seq<char>, Seq<Concept>)>) -> spec_fn(int) -> Seq<char> {
    |k: int| root_entry(groups[k].0, groups[k].1.len())
}

/// The index of the whole bundle, with the revision of the source where it is
/// known.
pub open spec fn root_index(groups: Seq<(Seq<char>, Seq<Concept>)>, revision: Option<Seq<char>>) -> Seq<char> {
    "---\nokf_version: \""@ + OKF_SPEC_VERSION@ + "\"\n"@ + framed("source_revision: \""@, revision, "\"\n"@) + "---\n\n# Knowledge Base\n\n"@ + gather(
        root_entries(groups),
        groups.len(),
    )
}

/// The index of the whole bundle.
pub fn render_root_index(groups: &Vec<Group>, revision: &Option<String>) -> (r: String)
    ensures
        r@ == root_index(group_values(groups@), opt_text(*revision)),
{
    let ghost gs = group_values(groups@);
    let ghost f = root_entries(gs);
    let mut out = "---\nokf_version: \"".to_owned();
    out.append(OKF_SPEC_VERSION);
    out.append("\"\n");
    push_framed(&mut out, "source_revision: \"", revision, "\"\n");
    out.append("---\n\n# Knowledge Base\n\n");
    let ghost first = out@;
    assert(out@ =~= first + gather(f, 0));
    for k in 0..groups.len()
        invariant
            gs == group_values(groups@),
            f == root_entries(gs),
            out@ == first + gather(f, k as nat),
    {
        let ghost before = out@;
        let g = &groups[k];
        out.append("- [");
        out.append(capitalize(g.dir).as_str());
        out.append("](");
        out.append(g.dir);
        out.append("/index.md) (");
        out.append(decimal_text(g.entries.len()).as_str());
        out.append(")\n");
        assert(gs[k as int] == (g.dir@, plain(g.entries@)));
        assert(out@ =~= before + root_entry(g.dir@, g.entries@.len()));
        assert(out@ =~= first + gather(f, (k + 1) as nat));
    }
    out
}

/// What the head of a page says of its concept.
#[derive(Debug)]
pub struct Frontmatter {
    pub type_: String,
    pub title: String,
    pub description: Option<String>,
    pub resource: String,
    pub tags: Vec<String>,
    /// Whether the page says that the concept is private.
    pub private: bool,
    /// When the page was generated, where that is known.
    pub generated_at: Option<String>,
    pub relationships: Option<RelationshipsFrontmatter>,
}

/// What the head of the concept's page says.
pub fn frontmatter(concept: &Concept) -> (r: Frontmatter)
    ensures
        r.type_@ == type_label(*concept),
        r.title@ == concept.name@,
        opt_text(r.description) == opt_text(concept.description),
        r.resource@ == location_text(concept.location),
        texts(r.tags@) == texts(concept.tags@),
        r.private == !concept.is_public,
        opt_text(r.generated_at) == opt_text(concept.generated_at),
        r.relationships is Some <==> concept.relationships@.len() > 0,
        r.relationships matches Some(f) ==> are_targets(f, concept.relationships@),
{
    let relationships = relationships_frontmatter(concept);
    Frontmatter {
        type_: concept.frontmatter_type(),
        title: concept.name.clone(),
        description: copy_opt(&concept.description),
        resource: concept.location.describe(),
        tags: copy_texts(&concept.tags),
        private: !concept.is_public,
        generated_at: copy_opt(&concept.generated_at),
        relationships,
    }
}

/// Two concepts would be written to one file: this one has an id that an
/// earlier one has, capitals aside.
#[derive(Debug)]
pub struct DuplicateId {
    pub id: String,
    pub location: String,
}

/// The concepts as they are written: each with an id of its own. An error,
/// where two would still be written to one file.
pub fn prepare_bundle(concepts: &Vec<Concept>) -> (r: Result<Vec<Concept>, DuplicateId>)
    ensures
        exists|named: Seq<Concept>|
            {
                &&& #[trigger] is_disambiguation(concepts@, named)
                &&& match r {
                    Ok(out) => out@ == named && no_clash(named),
                    Err(e) => exists|i: int| #[trigger] is_first_clash(named, i) && e.id@ == named[i].id@ && e.location@ == location_text(named[i].location),
                }
            },
{
    let named = disambiguate_duplicate_ids(concepts.as_slice());
    assert(is_disambiguation(concepts@, named@));
    match first_clash(named.as_slice()) {
        Some(i) => {
            assert(is_first_clash(named@, i as int));
            Err(DuplicateId { id: named[i].id.clone(), location: named[i].location.describe() })
        },
        None => Ok(named),
    }
}

/// No two concepts are written to one file.
pub open spec fn no_clash(cs: Seq<Concept>) -> bool {
    forall|i: int| 0 <= i < cs.len() ==> !(#[trigger] clashes(cs, i))
}

/// A file of a bundle: its path and its content.
#[derive(Debug)]
pub struct OutputFile {
    pub path: String,
    pub content: String,
}

/// Files as values.
pub open spec fn file_views(v: Seq<OutputFile>) -> Seq<(Seq<char>, Seq<char>)> {
    v.map_values(|f: OutputFile| (f.path@, f.content@))
}

/// The pages of the first `n` concepts.
pub open spec fn pages(cs: Seq<Concept>, heads: Seq<String>, n: nat) -> Seq<(Seq<char>, Seq<char>)>
    decreases n,
{
    if n == 0 {
        Seq::empty()
    } else {
        pages(cs, heads, (n - 1) as nat).push((cs[n - 1].id@ + ".md"@, page(cs, cs[n - 1], heads[n - 1]@)))
    }
}

/// The indexes of the first `n` directories.
pub open spec fn dir_indexes(groups: Seq<(Seq<char>, Seq<Concept>)>, n: nat) -> Seq<(Seq<char>, Seq<char>)>
    decreases n,
{
    if n == 0 {
        Seq::empty()
    } else {
        dir_indexes(groups, (n - 1) as nat).push((groups[n - 1].0 + "/index.md"@, dir_index(groups[n - 1].0, groups[n - 1].1)))
    }
}

/// The files of a bundle: the pages, the indexes of the directories, and the
/// index of the whole.
pub open spec fn bundle_of(cs: Seq<Concept>, heads: Seq<String>, revision: Option<Seq<char>>) -> Seq<(Seq<char>, Seq<char>)> {
    (pages(cs, heads, cs.len()) + dir_indexes(grouped(cs), grouped(cs).len())).push(("index.md"@, root_index(grouped(cs), revision)))
}

/// The text with another behind it.
fn joined(a: &str, b: &str) -> (r: String)
    ensures
        r@ == a@ + b@,
{
    let mut out = a.to_owned();
    out.append(b);
    out
}

/// The files of a bundle, in the order in which they are written, each concept
/// with an id of its own; `heads` are what the heads of their pages hold.
/// Nothing is written where two would still be written to one file: the first
/// of them is the error.
pub fn write_bundle(concepts: &Vec<Concept>, heads: &Vec<String>, revision: &Option<String>) -> (r: Result<Vec<OutputFile>, DuplicateId>)
    requires
        heads.len() == concepts.len(),
    ensures
        exists|named: Seq<Concept>|
            {
                &&& #[trigger] is_disambiguation(concepts@, named)
                &&& match r {
                    Ok(files) => no_clash(named) && file_views(files@) == bundle_of(named, heads@, opt_text(*revision)),
                    Err(e) => exists|i: int| #[trigger] is_first_clash(named, i) && e.id@ == named[i].id@ && e.location@ == location_text(named[i].location),
                }
            },
{
    match prepare_bundle(concepts) {
        Ok(named) => {
            let files = bundle_files(&named, heads, revision);
            assert(is_disambiguation(concepts@, named@));
            Ok(files)
        },
        Err(e) => Err(e),
    }
}

/// The files of a bundle of these concepts.
fn bundle_files(concepts: &Vec<Concept>, heads: &Vec<String>, revision: &Option<String>) -> (r: Vec<OutputFile>)
    requires
        heads.len() == concepts.len(),
    ensures
        file_views(r@) == bundle_of(concepts@, heads@, opt_text(*revision)),
{
    let ghost cs = concepts@;
    let known = BundleIds::new(concepts);
    let mut out: Vec<OutputFile> = Vec::new();
    assert(file_views(out@) =~= Seq::empty());
    for i in 0..concepts.len()
        invariant
            cs == concepts@,
            heads.len() == concepts.len(),
            known.is_for(cs),
            file_views(out@) == pages(cs, heads@, i as nat),
    {
        let ghost before = out@;
        let file = OutputFile {
            path: joined(concepts[i].id.as_str(), ".md"),
            content: render_concept(&concepts[i], concepts, &known, heads[i].as_str()),
        };
        out.push(file);
        assert(file_views(out@) =~= file_views(before).push((file.path@, file.content@)));
    }
    let ghost first = file_views(out@);
    let groups = group_by_kind_dir(concepts);
    let ghost gs = grouped(cs);
    assert(first =~= first + dir_indexes(gs, 0));
    for k in 0..groups.len()
        invariant
            gs == group_values(groups@),
            file_views(out@) == first + dir_indexes(gs, k as nat),
    {
        let ghost before = out@;
        let g = &groups[k];
        let file = OutputFile { path: joined(g.dir, "/index.md"), content: render_dir_index(g) };
        out.push(file);
        proof {
            assert(gs[k as int] == (g.dir@, plain(g.entries@)));
            assert(file_views(out@) =~= file_views(before).push((file.path@, file.content@)));
            assert(file_views(out@) =~= first + dir_indexes(gs, (k + 1) as nat));
        }
    }
    let ghost before = out@;
    let file = OutputFile { path: "index.md".to_owned(), content: render_root_index(&groups, revision) };
    out.push(file);
    assert(gs.len() == groups@.len());
    assert(file_views(out@) =~= file_views(before).push((file.path@, file.content@)));
    out
}

proof fn lemma_page_path(cs: Seq<Concept>, heads: Seq<String>, n: nat, i: int)
    requires
        0 <= i < n,
    ensures
        pages(cs, heads, n).len() == n,
        pages(cs, heads, n)[i].0 == cs[i].id@ + ".md"@,
    decreases n,
{
    reveal_with_fuel(pages, 2);
    if n > 1 {
        lemma_page_path(cs, heads, (n - 1) as nat, if i < n - 1 {
            i
        } else {
            0
        });
    }
}

/// No concept's page is written over that of another concept.
pub proof fn pages_have_files_of_their_own(cs: Seq<Concept>, heads: Seq<String>, i: int, j: int)
    requires
        no_clash(cs),
        0 <= i < j < cs.len(),
    ensures
        pages(cs, heads, cs.len())[i].0 != pages(cs, heads, cs.len())[j].0,
{
    lemma_page_path(cs, heads, cs.len(), i);
    lemma_page_path(cs, heads, cs.len(), j);
    assert(!clashes(cs, j));
    let (a, b, end) = (cs[i].id@, cs[j].id@, ".md"@);
    if a + end == b + end {
        assert(a.len() == (a + end).len() - end.len() && b.len() == (b + end).len() - end.len());
        assert(a =~= (a + end).take(a.len() as int));
        assert(b =~= (b + end).take(b.len() as int));
    }
}

/// The positions, among the first `n`, of the relationships of the kind that
/// are listed.
pub open spec fn listed_positions(rels: Seq<Relationship>, kind: RelationKind, n: nat) -> Seq<int>
    decreases n,
{
    if n == 0 {
        Seq::empty()
    } else {
        let rest = listed_positions(rels, kind, (n - 1) as nat);
        if rels[n - 1].kind == kind && is_first_of_its(rels, n - 1) {
            rest.push(n - 1)
        } else {
            rest
        }
    }
}

/// The list items for the relationships at these positions.
pub open spec fn items_at(cs: Seq<Concept>, from: Seq<char>, rels: Seq<Relationship>, positions: Seq<int>) -> spec_fn(int) -> Seq<char> {
    |k: int| relation_item(cs, from, rels[positions[k]])
}

proof fn lemma_items_stay(cs: Seq<Concept>, from: Seq<char>, rels: Seq<Relationship>, p: Seq<int>, q: Seq<int>, n: nat)
    requires
        n <= p.len(),
        p.is_prefix_of(q),
    ensures
        gather(items_at(cs, from, rels, p), n) == gather(items_at(cs, from, rels, q), n),
    decreases n,
{
    if n > 0 {
        lemma_items_stay(cs, from, rels, p, q, (n - 1) as nat);
        assert(p[n - 1] == q[n - 1]);
    }
}

/// The head of a page and its body list the same relationships, in the same
/// order.
pub proof fn head_and_body_agree(cs: Seq<Concept>, from: Seq<char>, rels: Seq<Relationship>, kind: RelationKind, n: nat)
    requires
        n <= rels.len(),
    ensures
        targets_of(rels, kind, n) == listed_positions(rels, kind, n).map_values(|p: int| rels[p].target@),
        gather(relation_items(cs, from, rels, kind), n) == gather(
            items_at(cs, from, rels, listed_positions(rels, kind, n)),
            listed_positions(rels, kind, n).len(),
        ),
    decreases n,
{
    let target = |p: int| rels[p].target@;
    let now = listed_positions(rels, kind, n);
    if n > 0 {
        let then = listed_positions(rels, kind, (n - 1) as nat);
        head_and_body_agree(cs, from, rels, kind, (n - 1) as nat);
        lemma_items_stay(cs, from, rels, then, now, then.len());
        if now.len() > then.len() {
            assert(now.map_values(target) =~= then.map_values(target).push(rels[n - 1].target@));
            assert(now[then.len() as int] == n - 1);
        } else {
            assert(relation_items(cs, from, rels, kind)(n - 1) =~= Seq::empty());
            assert(gather(relation_items(cs, from, rels, kind), n) =~= gather(relation_items(cs, from, rels, kind), (n - 1) as nat));
        }
    } else {
        assert(targets_of(rels, kind, 0) =~= now.map_values(target));
    }
}

/// No target is listed twice under one kind.
pub proof fn a_target_is_listed_once(rels: Seq<Relationship>, kind: RelationKind, n: nat)
    requires
        n <= rels.len(),
    ensures
        targets_of(rels, kind, n).no_duplicates(),
        forall|k: int| 0 <= k < targets_of(rels, kind, n).len() ==> is_target_before(rels, kind, n as int, #[trigger] targets_of(rels, kind, n)[k]),
    decreases n,
{
    if n > 0 {
        let rest = targets_of(rels, kind, (n - 1) as nat);
        a_target_is_listed_once(rels, kind, (n - 1) as nat);
        assert forall|k: int| 0 <= k < rest.len() implies is_target_before(rels, kind, n as int, #[trigger] rest[k]) by {
            assert(is_target_before(rels, kind, n - 1, rest[k]));
        }
        if rels[n - 1].kind == kind && is_first_of_its(rels, n - 1) {
            assert forall|k: int| 0 <= k < rest.len() implies #[trigger] rest[k] != rels[n - 1].target@ by {
                assert(is_target_before(rels, kind, n - 1, rest[k]));
            }
            assert(is_target_before(rels, kind, n as int, rels[n - 1].target@));
        }
    }
}

/// One of the first `n` relationships has the kind and the target.
pub open spec fn is_target_before(rels: Seq<Relationship>, kind: RelationKind, n: int, target: Seq<char>) -> bool {
    exists|j: int| 0 <= j < n && (#[trigger] rels[j]).kind == kind && rels[j].target@ == target
}

}
