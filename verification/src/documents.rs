//! A bundle as one Markdown document, as notes that link to each other, and as
//! a graph.

use vstd::prelude::*;
use crate::bundle::{BundleIds, OutputFile};
use crate::bundle::file_views;
use crate::model::{Concept, RelationKind};
use crate::model::opt_text;
use crate::order::gather;
use crate::render::{any_of_kind, capitalize, contains_members, escape_markup, group_by_kind_dir, push_framed, push_if, push_labelled_list, relation_kind_at, target_names, Group};
use crate::render::{capitalized, displays, escaped, framed, group_values, grouped, has_kind, heading_of, in_bundle, labelled_list, language_label, location_text, only_if, parts_of, plain, relation_at, type_label};
use crate::text::decimal_text;
use crate::text::{decimal, lower_char, texts};

verus! {

/// A letter or digit of ASCII.
pub open spec fn is_alphanumeric(c: char) -> bool {
    ||| 'a' <= c <= 'z'
    ||| 'A' <= c <= 'Z'
    ||| '0' <= c <= '9'
}

/// The character in an anchor: letters small, anything but letters and digits
/// a hyphen.
pub open spec fn slug_char(c: char) -> char {
    if is_alphanumeric(c) {
        lower_char(c)
    } else {
        '-'
    }
}

/// The anchor of a heading.
pub open spec fn slug_of(s: Seq<char>) -> Seq<char> {
    s.map_values(|c: char| slug_char(c))
}

/// The anchor of a heading.
pub fn slug(s: &str) -> (r: String)
    ensures
        r@ == slug_of(s@),
{
    let mut out = String::new();
    for c in it: s.chars()
        invariant
            it.seq() == s@,
            out@ == slug_of(s@.take(it.index() as int)),
    {
        let ghost i = it.index() as int;
        let d = if 'A' <= c && c <= 'Z' {
            (c as u8 + 32) as char
        } else if ('a' <= c && c <= 'z') || ('0' <= c && c <= '9') {
            c
        } else {
            '-'
        };
        out.push(d);
        assert(d == slug_char(s@[i]));
        assert(slug_of(s@.take(i + 1)) =~= slug_of(s@.take(i)).push(slug_char(s@[i])));
    }
    assert(s@.take(s@.len() as int) =~= s@);
    out
}

/// An entry of the table of contents.
pub open spec fn contents_entry(dir: Seq<char>, count: nat) -> Seq<char> {
    "- ["@ + capitalized(dir) + "](#"@ + slug_of(dir) + ") ("@ + decimal(count) + ")\n"@
}

/// The entries of the table of contents.
pub open spec fn contents_entries(groups: Seq<(Seq<char>, Seq<Concept>)>) -> spec_fn(int) -> Seq<char> {
    |k: int| contents_entry(groups[k].0, groups[k].1.len())
}

/// The line on a concept's relationships of one kind; nothing where there is
/// none.
pub open spec fn relation_lines(c: Concept) -> spec_fn(int) -> Seq<char> {
    |k: int| labelled_list("**"@ + heading_of(relation_at(k)) + ":** "@, displays(c.relationships@, relation_at(k), c.relationships@.len()), "\n\n"@)
}

/// The section on a concept.
pub open spec fn concept_section(c: Concept) -> Seq<char> {
    "### "@ + c.name@ + "\n\n*"@ + type_label(c) + "* \u{2014} `"@ + location_text(c.location) + "`\n\n"@ + only_if(!c.is_public, "_private_\n\n"@) + framed(
        "```\n"@,
        opt_text(c.signature),
        "\n```\n\n"@,
    ) + framed(""@, opt_text(c.description), "\n\n"@) + labelled_list("Tags: "@, texts(c.tags@), "\n\n"@) + gather(relation_lines(c), 7)
}

/// The sections on concepts.
pub open spec fn concept_sections(cs: Seq<Concept>) -> spec_fn(int) -> Seq<char> {
    |i: int| concept_section(cs[i])
}

/// The part on one directory.
pub open spec fn dir_part(dir: Seq<char>, entries: Seq<Concept>) -> Seq<char> {
    "## "@ + capitalized(dir) + "\n\n"@ + gather(concept_sections(entries), entries.len())
}

/// The parts on the directories.
pub open spec fn dir_parts(groups: Seq<(Seq<char>, Seq<Concept>)>) -> spec_fn(int) -> Seq<char> {
    |k: int| dir_part(groups[k].0, groups[k].1)
}

/// The whole bundle as one document, with a table of contents.
pub open spec fn markdown_of(cs: Seq<Concept>) -> Seq<char> {
    let groups = grouped(cs);
    "# Documentation\n\n## Contents\n\n"@ + gather(contents_entries(groups), groups.len()) + "\n"@ + gather(dir_parts(groups), groups.len())
}

/// Puts the section on a concept.
fn push_concept_section(out: &mut String, c: &Concept)
    ensures
        final(out)@ == old(out)@ + concept_section(*c),
{
    let ghost f = relation_lines(*c);
    let mut part = "### ".to_owned();
    part.append(c.name.as_str());
    part.append("\n\n*");
    part.append(c.frontmatter_type().as_str());
    part.append("* \u{2014} `");
    part.append(c.location.describe().as_str());
    part.append("`\n\n");
    push_if(&mut part, !c.is_public, "_private_\n\n");
    push_framed(&mut part, "```\n", &c.signature, "\n```\n\n");
    push_framed(&mut part, "", &c.description, "\n\n");
    push_labelled_list(&mut part, "Tags: ", &c.tags, "\n\n");
    let ghost first = part@;
    assert(part@ =~= first + gather(f, 0));
    for k in 0..7usize
        invariant
            f == relation_lines(*c),
            part@ == first + gather(f, k as nat),
    {
        let kind = relation_kind_at(k);
        let mut label = "**".to_owned();
        label.append(kind.label());
        label.append(":** ");
        let names = target_names(&c.relationships, kind);
        push_labelled_list(&mut part, label.as_str(), &names, "\n\n");
        assert(part@ =~= first + gather(f, (k + 1) as nat));
    }
    assert(part@ == concept_section(*c));
    out.append(part.as_str());
}

/// Puts the part on one directory.
fn push_dir_part(out: &mut String, group: &Group)
    ensures
        final(out)@ == old(out)@ + dir_part(group.dir@, plain(group.entries@)),
{
    let ghost es = plain(group.entries@);
    let ghost f = concept_sections(es);
    out.append("## ");
    out.append(capitalize(group.dir).as_str());
    out.append("\n\n");
    let ghost first = out@;
    assert(out@ =~= first + gather(f, 0));
    for i in 0..group.entries.len()
        invariant
            es == plain(group.entries@),
            f == concept_sections(es),
            out@ == first + gather(f, i as nat),
    {
        push_concept_section(out, group.entries[i]);
        assert(es[i as int] == *group.entries@[i as int]);
        assert(out@ =~= first + gather(f, (i + 1) as nat));
    }
    assert(out@ =~= old(out)@ + dir_part(group.dir@, es));
}

/// The whole bundle as one document, with a table of contents.
pub fn generate_markdown(concepts: &Vec<Concept>) -> (r: String)
    ensures
        r@ == markdown_of(concepts@),
{
    let groups = group_by_kind_dir(concepts);
    let ghost gs = grouped(concepts@);
    let ghost f = contents_entries(gs);
    let ghost g = dir_parts(gs);
    let mut out = "# Documentation\n\n## Contents\n\n".to_owned();
    let ghost first = out@;
    assert(out@ =~= first + gather(f, 0));
    for k in 0..groups.len()
        invariant
            gs == group_values(groups@),
            f == contents_entries(gs),
            out@ == first + gather(f, k as nat),
    {
        let ghost before = out@;
        let group = &groups[k];
        out.append("- [");
        out.append(capitalize(group.dir).as_str());
        out.append("](#");
        out.append(slug(group.dir).as_str());
        out.append(") (");
        out.append(decimal_text(group.entries.len()).as_str());
        out.append(")\n");
        assert(gs[k as int] == (group.dir@, plain(group.entries@)));
        assert(out@ =~= before + contents_entry(group.dir@, group.entries@.len()));
        assert(out@ =~= first + gather(f, (k + 1) as nat));
    }
    out.append("\n");
    let ghost second = out@;
    assert(out@ =~= second + gather(g, 0));
    for k in 0..groups.len()
        invariant
            gs == group_values(groups@),
            g == dir_parts(gs),
            out@ == second + gather(g, k as nat),
    {
        push_dir_part(&mut out, &groups[k]);
        assert(gs[k as int] == (groups@[k as int].dir@, plain(groups@[k as int].entries@)));
        assert(out@ =~= second + gather(g, (k + 1) as nat));
    }
    assert(gs.len() == groups@.len());
    out
}

/// A link between notes, shown as the name.
pub open spec fn wikilink_of(id: Seq<char>, display: Seq<char>) -> Seq<char> {
    "[["@ + id + "|"@ + display + "]]"@
}

/// A link between notes, shown as the name.
pub fn wikilink(id: &str, display: &str) -> (r: String)
    ensures
        r@ == wikilink_of(id@, display@),
{
    let mut out = "[[".to_owned();
    out.append(id);
    out.append("|");
    out.append(display);
    out.append("]]");
    out
}

/// A list item that links to a note.
pub open spec fn note_items(cs: Seq<Concept>) -> spec_fn(int) -> Seq<char> {
    |i: int| "- "@ + wikilink_of(cs[i].id@, cs[i].name@) + "\n"@
}

/// The list of links to notes under a heading, with an empty line behind it.
pub open spec fn note_list(heading: Seq<char>, cs: Seq<Concept>) -> Seq<char> {
    "## "@ + heading + "\n\n"@ + gather(note_items(cs), cs.len()) + "\n"@
}

/// Puts the list of links to notes under a heading.
fn push_note_list(out: &mut String, heading: &str, members: &Vec<&Concept>)
    ensures
        final(out)@ == old(out)@ + note_list(heading@, plain(members@)),
{
    let ghost ms = plain(members@);
    let ghost f = note_items(ms);
    out.append("## ");
    out.append(heading);
    out.append("\n\n");
    let ghost first = out@;
    assert(out@ =~= first + gather(f, 0));
    for i in 0..members.len()
        invariant
            ms == plain(members@),
            f == note_items(ms),
            out@ == first + gather(f, i as nat),
    {
        let ghost before = out@;
        out.append("- ");
        out.append(wikilink(members[i].id.as_str(), members[i].name.as_str()).as_str());
        out.append("\n");
        assert(ms[i as int] == *members@[i as int]);
        assert(out@ =~= before + f(i as int));
        assert(out@ =~= first + gather(f, (i + 1) as nat));
    }
    out.append("\n");
    assert(out@ =~= old(out)@ + note_list(heading@, ms));
}

/// The list item for a relationship: a link where its target is in the bundle,
/// else only its name.
pub open spec fn note_relation_items(cs: Seq<Concept>, c: Concept, kind: RelationKind) -> spec_fn(int) -> Seq<char> {
    |i: int| if c.relationships@[i].kind == kind {
        if in_bundle(cs, c.relationships@[i].target@) {
            "- "@ + wikilink_of(c.relationships@[i].target@, c.relationships@[i].target_display@) + "\n"@
        } else {
            "- `"@ + c.relationships@[i].target_display@ + "`\n"@
        }
    } else {
        Seq::empty()
    }
}

/// The section on a concept's relationships of the kind; nothing where there
/// is none.
pub open spec fn note_relation_section(cs: Seq<Concept>, c: Concept, kind: RelationKind) -> Seq<char> {
    if has_kind(c.relationships@, kind) {
        "## "@ + heading_of(kind) + "\n\n"@ + gather(note_relation_items(cs, c, kind), c.relationships@.len()) + "\n"@
    } else {
        Seq::empty()
    }
}

/// The sections on a concept's relationships.
pub open spec fn note_relation_sections(cs: Seq<Concept>, c: Concept) -> spec_fn(int) -> Seq<char> {
    |k: int| note_relation_section(cs, c, relation_at(k))
}

/// The section on the parts of a concept; nothing where it has none.
pub open spec fn note_parts(parts: Seq<Concept>) -> Seq<char> {
    if parts.len() == 0 {
        Seq::empty()
    } else {
        note_list("Contains"@, parts)
    }
}

/// The note on a concept.
pub open spec fn note_of(cs: Seq<Concept>, c: Concept) -> Seq<char> {
    "---\ntype: "@ + type_label(c) + "\n"@ + labelled_list("tags: ["@, texts(c.tags@), "]\n"@) + "---\n\n# "@ + c.name@ + "\n\n"@ + only_if(!c.is_public, "_private_\n\n"@) + framed(
        "```\n"@,
        opt_text(c.signature),
        "\n```\n\n"@,
    ) + framed(""@, opt_text(c.description), "\n\n"@) + note_parts(parts_of(c, cs, cs.len())) + gather(note_relation_sections(cs, c), 7) + "Source: `"@ + location_text(c.location) + "`\n"@
}

/// Puts the section on a concept's relationships of the kind.
fn push_note_relations(out: &mut String, known: &BundleIds, concept: &Concept, kind: RelationKind, cs: Ghost<Seq<Concept>>)
    requires
        known.is_for(cs@),
    ensures
        final(out)@ == old(out)@ + note_relation_section(cs@, *concept, kind),
{
    let rels = &concept.relationships;
    let ghost f = note_relation_items(cs@, *concept, kind);
    if !any_of_kind(rels, kind) {
        assert(out@ =~= old(out)@ + Seq::empty());
        return;
    }
    out.append("## ");
    out.append(kind.label());
    out.append("\n\n");
    let ghost first = out@;
    assert(out@ =~= first + gather(f, 0));
    for i in 0..rels.len()
        invariant
            known.is_for(cs@),
            *rels == concept.relationships,
            f == note_relation_items(cs@, *concept, kind),
            out@ == first + gather(f, i as nat),
    {
        let ghost before = out@;
        if rels[i].kind == kind {
            if known.contains(rels[i].target.as_str(), cs) {
                out.append("- ");
                out.append(wikilink(rels[i].target.as_str(), rels[i].target_display.as_str()).as_str());
                out.append("\n");
            } else {
                out.append("- `");
                out.append(rels[i].target_display.as_str());
                out.append("`\n");
            }
        }
        assert(out@ =~= before + f(i as int));
        assert(out@ =~= first + gather(f, (i + 1) as nat));
    }
    out.append("\n");
    assert(out@ =~= old(out)@ + note_relation_section(cs@, *concept, kind));
}

/// The note on a concept.
pub fn render_note(concept: &Concept, all: &Vec<Concept>, known: &BundleIds) -> (r: String)
    requires
        known.is_for(all@),
    ensures
        r@ == note_of(all@, *concept),
{
    let ghost cs = all@;
    let ghost f = note_relation_sections(cs, *concept);
    let mut out = "---\ntype: ".to_owned();
    out.append(concept.frontmatter_type().as_str());
    out.append("\n");
    push_labelled_list(&mut out, "tags: [", &concept.tags, "]\n");
    out.append("---\n\n# ");
    out.append(concept.name.as_str());
    out.append("\n\n");
    push_if(&mut out, !concept.is_public, "_private_\n\n");
    push_framed(&mut out, "```\n", &concept.signature, "\n```\n\n");
    push_framed(&mut out, "", &concept.description, "\n\n");
    let parts = contains_members(concept, all);
    let ghost before = out@;
    if parts.len() > 0 {
        push_note_list(&mut out, "Contains", &parts);
    } else {
        assert(out@ =~= before + Seq::empty());
    }
    assert(out@ == before + note_parts(parts_of(*concept, cs, cs.len())));
    let ghost first = out@;
    assert(out@ =~= first + gather(f, 0));
    for k in 0..7usize
        invariant
            cs == all@,
            known.is_for(cs),
            f == note_relation_sections(cs, *concept),
            out@ == first + gather(f, k as nat),
    {
        push_note_relations(&mut out, known, concept, relation_kind_at(k), Ghost(cs));
        assert(out@ =~= first + gather(f, (k + 1) as nat));
    }
    out.append("Source: `");
    out.append(concept.location.describe().as_str());
    out.append("`\n");
    out
}

/// The lists of the root's note.
pub open spec fn note_lists(groups: Seq<(Seq<char>, Seq<Concept>)>) -> spec_fn(int) -> Seq<char> {
    |k: int| note_list(capitalized(groups[k].0), groups[k].1)
}

/// The root's note.
pub open spec fn root_note(groups: Seq<(Seq<char>, Seq<Concept>)>) -> Seq<char> {
    "# Knowledge Base\n\n"@ + gather(note_lists(groups), groups.len())
}

/// The root's note.
pub fn render_root_note(groups: &Vec<Group>) -> (r: String)
    ensures
        r@ == root_note(group_values(groups@)),
{
    let ghost gs = group_values(groups@);
    let ghost f = note_lists(gs);
    let mut out = "# Knowledge Base\n\n".to_owned();
    let ghost first = out@;
    assert(out@ =~= first + gather(f, 0));
    for k in 0..groups.len()
        invariant
            gs == group_values(groups@),
            f == note_lists(gs),
            out@ == first + gather(f, k as nat),
    {
        let g = &groups[k];
        push_note_list(&mut out, capitalize(g.dir).as_str(), &g.entries);
        assert(gs[k as int] == (g.dir@, plain(g.entries@)));
        assert(out@ =~= first + gather(f, (k + 1) as nat));
    }
    out
}

/// The notes on the first `n` concepts.
pub open spec fn notes(cs: Seq<Concept>, n: nat) -> Seq<(Seq<char>, Seq<char>)>
    decreases n,
{
    if n == 0 {
        Seq::empty()
    } else {
        notes(cs, (n - 1) as nat).push((cs[n - 1].id@ + ".md"@, note_of(cs, cs[n - 1])))
    }
}

/// The files of a vault: a note for each concept, and one for the whole.
pub fn generate_obsidian(concepts: &Vec<Concept>) -> (r: Vec<OutputFile>)
    ensures
        file_views(r@) == notes(concepts@, concepts@.len()).push(("index.md"@, root_note(grouped(concepts@)))),
{
    let ghost cs = concepts@;
    let known = BundleIds::new(concepts);
    let mut out: Vec<OutputFile> = Vec::new();
    assert(file_views(out@) =~= Seq::empty());
    for i in 0..concepts.len()
        invariant
            cs == concepts@,
            known.is_for(cs),
            file_views(out@) == notes(cs, i as nat),
    {
        let ghost before = out@;
        let mut path = concepts[i].id.clone();
        path.append(".md");
        let file = OutputFile { path, content: render_note(&concepts[i], concepts, &known) };
        out.push(file);
        assert(file_views(out@) =~= file_views(before).push((file.path@, file.content@)));
    }
    let ghost before = out@;
    let groups = group_by_kind_dir(concepts);
    let file = OutputFile { path: "index.md".to_owned(), content: render_root_note(&groups) };
    out.push(file);
    assert(file_views(out@) =~= file_views(before).push((file.path@, file.content@)));
    out
}

/// The relationship is drawn: every kind is but that of being called, which is
/// the other side of a call.
pub open spec fn edge_kind(kind: RelationKind) -> bool {
    kind !is CalledBy
}

/// Whether relationships of the kind are drawn.
pub fn is_edge_kind(kind: RelationKind) -> (r: bool)
    ensures
        r == edge_kind(kind),
{
    kind != RelationKind::CalledBy
}

/// The node for a concept.
pub open spec fn node_of(c: Concept) -> Seq<char> {
    "    <node id=\""@ + escaped(c.id@) + "\">\n      <data key=\"label\">"@ + escaped(c.name@) + "</data>\n      <data key=\"kind\">"@ + escaped(type_label(c)) + "</data>\n      <data key=\"language\">"@ + escaped(
        language_label(c.language),
    ) + "</data>\n      <data key=\"public\">"@ + (if c.is_public { "true"@ } else { "false"@ }) + "</data>\n    </node>\n"@
}

/// The nodes for concepts.
pub open spec fn nodes_of(cs: Seq<Concept>) -> spec_fn(int) -> Seq<char> {
    |i: int| node_of(cs[i])
}

/// The edge from a concept to a target.
pub open spec fn edge_of(from: Seq<char>, to: Seq<char>, kind: RelationKind) -> Seq<char> {
    "    <edge source=\""@ + escaped(from) + "\" target=\""@ + escaped(to) + "\">\n      <data key=\"relation\">"@ + escaped(heading_of(kind)) + "</data>\n    </edge>\n"@
}

/// The edge for a concept's relationship: none where it is not drawn, or where
/// its target has no node.
pub open spec fn edge_at(cs: Seq<Concept>, c: Concept) -> spec_fn(int) -> Seq<char> {
    |i: int| if edge_kind(c.relationships@[i].kind) && in_bundle(cs, c.relationships@[i].target@) {
        edge_of(c.id@, c.relationships@[i].target@, c.relationships@[i].kind)
    } else {
        Seq::empty()
    }
}

/// The edges of each concept.
pub open spec fn edges_at(cs: Seq<Concept>) -> spec_fn(int) -> Seq<char> {
    |i: int| gather(edge_at(cs, cs[i]), cs[i].relationships@.len())
}

/// What the document begins with.
pub const GRAPHML_HEAD: &'static str = "<?xml version=\"1.0\" encoding=\"UTF-8\"?>\n<graphml xmlns=\"http://graphml.graphdrawing.org/xmlns\">\n  <key id=\"label\" for=\"node\" attr.name=\"label\" attr.type=\"string\"/>\n  <key id=\"kind\" for=\"node\" attr.name=\"kind\" attr.type=\"string\"/>\n  <key id=\"language\" for=\"node\" attr.name=\"language\" attr.type=\"string\"/>\n  <key id=\"public\" for=\"node\" attr.name=\"public\" attr.type=\"boolean\"/>\n  <key id=\"relation\" for=\"edge\" attr.name=\"relation\" attr.type=\"string\"/>\n  <graph id=\"okf\" edgedefault=\"directed\">\n";

/// The bundle as a graph.
pub open spec fn graphml_of(cs: Seq<Concept>) -> Seq<char> {
    GRAPHML_HEAD@ + gather(nodes_of(cs), cs.len()) + gather(edges_at(cs), cs.len()) + "  </graph>\n</graphml>\n"@
}

/// Puts the node for a concept.
fn push_node(out: &mut String, c: &Concept)
    ensures
        final(out)@ == old(out)@ + node_of(*c),
{
    out.append("    <node id=\"");
    out.append(escape_markup(c.id.as_str()).as_str());
    out.append("\">\n      <data key=\"label\">");
    out.append(escape_markup(c.name.as_str()).as_str());
    out.append("</data>\n      <data key=\"kind\">");
    out.append(escape_markup(c.frontmatter_type().as_str()).as_str());
    out.append("</data>\n      <data key=\"language\">");
    out.append(escape_markup(c.language.display_name()).as_str());
    out.append("</data>\n      <data key=\"public\">");
    out.append(if c.is_public {
        "true"
    } else {
        "false"
    });
    out.append("</data>\n    </node>\n");
    assert(out@ =~= old(out)@ + node_of(*c));
}

/// Puts the edges of a concept.
fn push_edges(out: &mut String, known: &BundleIds, c: &Concept, cs: Ghost<Seq<Concept>>)
    requires
        known.is_for(cs@),
    ensures
        final(out)@ == old(out)@ + gather(edge_at(cs@, *c), c.relationships@.len()),
{
    let ghost f = edge_at(cs@, *c);
    let ghost first = out@;
    let rels = &c.relationships;
    assert(out@ =~= first + gather(f, 0));
    for i in 0..rels.len()
        invariant
            known.is_for(cs@),
            *rels == c.relationships,
            f == edge_at(cs@, *c),
            out@ == first + gather(f, i as nat),
    {
        let ghost before = out@;
        if is_edge_kind(rels[i].kind) && known.contains(rels[i].target.as_str(), cs) {
            out.append("    <edge source=\"");
            out.append(escape_markup(c.id.as_str()).as_str());
            out.append("\" target=\"");
            out.append(escape_markup(rels[i].target.as_str()).as_str());
            out.append("\">\n      <data key=\"relation\">");
            out.append(escape_markup(rels[i].kind.label()).as_str());
            out.append("</data>\n    </edge>\n");
        }
        assert(out@ =~= before + f(i as int));
        assert(out@ =~= first + gather(f, (i + 1) as nat));
    }
}

/// The bundle as a graph: a node for each concept, and an edge for each
/// relationship whose target has a node too.
pub fn generate_graphml(concepts: &Vec<Concept>) -> (r: String)
    ensures
        r@ == graphml_of(concepts@),
{
    let ghost cs = concepts@;
    let ghost f = nodes_of(cs);
    let ghost g = edges_at(cs);
    let known = BundleIds::new(concepts);
    let mut out = GRAPHML_HEAD.to_owned();
    let ghost first = out@;
    assert(out@ =~= first + gather(f, 0));
    for i in 0..concepts.len()
        invariant
            cs == concepts@,
            f == nodes_of(cs),
            out@ == first + gather(f, i as nat),
    {
        push_node(&mut out, &concepts[i]);
        assert(out@ =~= first + gather(f, (i + 1) as nat));
    }
    let ghost second = out@;
    assert(out@ =~= second + gather(g, 0));
    for i in 0..concepts.len()
        invariant
            cs == concepts@,
            known.is_for(cs),
            g == edges_at(cs),
            out@ == second + gather(g, i as nat),
    {
        push_edges(&mut out, &known, &concepts[i], Ghost(cs));
        assert(out@ =~= second + gather(g, (i + 1) as nat));
    }
    out.append("  </graph>\n</graphml>\n");
    out
}

}
