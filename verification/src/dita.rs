//! A bundle as DITA topics, and DITA topics as concepts.

use vstd::prelude::*;
use crate::bundle::OutputFile;
use crate::bundle::file_views;
use crate::html::push_framed_markup;
use crate::html::framed_markup;
use crate::model::{Concept, ConceptKind, Language, Location, RelationKind};
use crate::model::{concept_views, opt_text, ConceptView};
use crate::naming::{make_id, replace_char};
use crate::naming::{id_for, replaced};
use crate::nesting::{lemma_document_nests, nesting, NESTING_LIMIT};
use crate::order::{sort_order, SortKey};
use crate::order::{gather, is_sort_order, key_views, lemma_sorting_forgets_order, sorted_by, KeyView};
use crate::render::{any_of_kind, capitalize, escape_markup, group_by_kind_dir, relation_kind_at, Group};
use crate::render::{capitalized, escaped, group_values, grouped, has_kind, heading_of, location_text, plain, relation_at, type_label};
use crate::text::{chars_of, is_blank, join_texts, last_char_position, lines_of, same, split_text, string_of};
use crate::text::{find_last_char, join, lemma_find_last_char, lines, split, texts, trim};
use crate::asking::{lemma_says, says_something};
use crate::xml::{xml_nodes, XmlNode, TOPIC_PROLOG};
use crate::readback::{description_of, is_readable, lemma_topic_is_legal, lemma_topic_is_read, lemma_topic_is_shallow, lemma_topic_is_written, topic_tree};
use crate::xml::{document, node_views, xml_content, NodeView};

verus! {

/// The list items for a concept's relationships of the kind.
pub open spec fn topic_relation_items(c: Concept, kind: RelationKind) -> spec_fn(int) -> Seq<char> {
    |i: int| if c.relationships@[i].kind == kind {
        "<li>"@ + escaped(c.relationships@[i].target_display@) + "</li>\n"@
    } else {
        Seq::empty()
    }
}

/// The section on a concept's relationships of the kind; nothing where there
/// is none.
pub open spec fn topic_relation_section(c: Concept, kind: RelationKind) -> Seq<char> {
    if has_kind(c.relationships@, kind) {
        "<section><title>"@ + heading_of(kind) + "</title><ul>\n"@ + gather(topic_relation_items(c, kind), c.relationships@.len()) + "</ul></section>\n"@
    } else {
        Seq::empty()
    }
}

/// The sections on a concept's relationships.
pub open spec fn topic_relation_sections(c: Concept) -> spec_fn(int) -> Seq<char> {
    |k: int| topic_relation_section(c, relation_at(k))
}

/// The section on the tags; nothing where there are none.
pub open spec fn topic_tags(tags: Seq<Seq<char>>) -> Seq<char> {
    if tags.len() == 0 {
        Seq::empty()
    } else {
        "<section><title>Tags</title><p>"@ + escaped(join(tags, ", "@)) + "</p></section>\n"@
    }
}

/// The body of a topic.
pub open spec fn topic_body(c: Concept) -> Seq<char> {
    framed_markup("<section><title>Signature</title><codeblock>"@, c.signature, "</codeblock></section>\n"@) + "<section><title>Type</title><p>"@ + escaped(type_label(c)) + "</p></section>\n<section><title>Location</title><p>"@ + escaped(
        location_text(c.location),
    ) + "</p></section>\n"@ + topic_tags(texts(c.tags@)) + gather(topic_relation_sections(c), 7)
}

/// The topic on a concept.
pub open spec fn topic_of(c: Concept) -> Seq<char> {
    TOPIC_PROLOG@ + "<topic id=\""@ + replaced(c.id@, '/', '-') + "\">\n<title>"@ + escaped(c.name@) + "</title>\n"@ + framed_markup("<shortdesc>"@, c.description, "</shortdesc>\n"@) + "<body>\n"@ + topic_body(c) + "</body>\n</topic>\n"@
}

/// The id of a topic: no slash can stand in one.
pub fn topic_id(concept_id: &str) -> (r: String)
    ensures
        r@ == replaced(concept_id@, '/', '-'),
{
    replace_char(concept_id, '/', '-')
}

/// Puts the section on a concept's relationships of the kind.
fn push_topic_relations(out: &mut String, concept: &Concept, kind: RelationKind)
    ensures
        final(out)@ == old(out)@ + topic_relation_section(*concept, kind),
{
    let rels = &concept.relationships;
    let ghost f = topic_relation_items(*concept, kind);
    if !any_of_kind(rels, kind) {
        assert(out@ =~= old(out)@ + Seq::empty());
        return;
    }
    out.append("<section><title>");
    out.append(kind.label());
    out.append("</title><ul>\n");
    let ghost first = out@;
    assert(out@ =~= first + gather(f, 0));
    for i in 0..rels.len()
        invariant
            *rels == concept.relationships,
            f == topic_relation_items(*concept, kind),
            out@ == first + gather(f, i as nat),
    {
        let ghost before = out@;
        if rels[i].kind == kind {
            out.append("<li>");
            out.append(escape_markup(rels[i].target_display.as_str()).as_str());
            out.append("</li>\n");
        }
        assert(out@ =~= before + f(i as int));
        assert(out@ =~= first + gather(f, (i + 1) as nat));
    }
    out.append("</ul></section>\n");
    assert(out@ =~= old(out)@ + topic_relation_section(*concept, kind));
}

/// Puts the section on the tags.
fn push_topic_tags(out: &mut String, tags: &Vec<String>)
    ensures
        final(out)@ == old(out)@ + topic_tags(texts(tags@)),
{
    if tags.len() == 0 {
        assert(out@ =~= old(out)@ + Seq::empty());
        return;
    }
    out.append("<section><title>Tags</title><p>");
    out.append(escape_markup(join_texts(tags, ", ").as_str()).as_str());
    out.append("</p></section>\n");
    assert(out@ =~= old(out)@ + topic_tags(texts(tags@)));
}

/// The body of a topic.
fn render_body(concept: &Concept) -> (r: String)
    ensures
        r@ == topic_body(*concept),
{
    let ghost f = topic_relation_sections(*concept);
    let mut body = String::new();
    push_framed_markup(&mut body, "<section><title>Signature</title><codeblock>", &concept.signature, "</codeblock></section>\n");
    assert(body@ =~= framed_markup("<section><title>Signature</title><codeblock>"@, concept.signature, "</codeblock></section>\n"@));
    body.append("<section><title>Type</title><p>");
    body.append(escape_markup(concept.frontmatter_type().as_str()).as_str());
    body.append("</p></section>\n<section><title>Location</title><p>");
    body.append(escape_markup(concept.location.describe().as_str()).as_str());
    body.append("</p></section>\n");
    push_topic_tags(&mut body, &concept.tags);
    let ghost first = body@;
    assert(body@ =~= first + gather(f, 0));
    for k in 0..7usize
        invariant
            f == topic_relation_sections(*concept),
            body@ == first + gather(f, k as nat),
    {
        push_topic_relations(&mut body, concept, relation_kind_at(k));
        assert(body@ =~= first + gather(f, (k + 1) as nat));
    }
    body
}

/// The topic on a concept.
pub fn render_topic(concept: &Concept) -> (r: String)
    ensures
        r@ == topic_of(*concept),
{
    let body = render_body(concept);
    let mut out = TOPIC_PROLOG.to_owned();
    out.append("<topic id=\"");
    out.append(topic_id(concept.id.as_str()).as_str());
    out.append("\">\n<title>");
    out.append(escape_markup(concept.name.as_str()).as_str());
    out.append("</title>\n");
    push_framed_markup(&mut out, "<shortdesc>", &concept.description, "</shortdesc>\n");
    out.append("<body>\n");
    out.append(body.as_str());
    out.append("</body>\n</topic>\n");
    out
}

/// The references to the topics of one directory.
pub open spec fn topic_refs(cs: Seq<Concept>) -> spec_fn(int) -> Seq<char> {
    |i: int| "<topicref href=\""@ + escaped(cs[i].id@) + ".dita\"/>\n"@
}

/// The part of the map on one directory.
pub open spec fn map_parts(groups: Seq<(Seq<char>, Seq<Concept>)>) -> spec_fn(int) -> Seq<char> {
    |k: int| "<topichead navtitle=\""@ + escaped(capitalized(groups[k].0)) + "\">\n"@ + gather(topic_refs(groups[k].1), groups[k].1.len()) + "</topichead>\n"@
}

/// What the map begins with.
pub const MAP_HEAD: &'static str = "<?xml version=\"1.0\" encoding=\"UTF-8\"?>\n<!DOCTYPE map PUBLIC \"-//OASIS//DTD DITA Map//EN\" \"map.dtd\">\n<map>\n<title>Documentation</title>\n";

/// The map of all topics.
pub open spec fn map_of(groups: Seq<(Seq<char>, Seq<Concept>)>) -> Seq<char> {
    MAP_HEAD@ + gather(map_parts(groups), groups.len()) + "</map>\n"@
}

/// Puts the part of the map on one directory.
fn push_map_part(out: &mut String, group: &Group)
    ensures
        final(out)@ == old(out)@ + ("<topichead navtitle=\""@ + escaped(capitalized(group.dir@)) + "\">\n"@ + gather(topic_refs(plain(group.entries@)), group.entries@.len()) + "</topichead>\n"@),
{
    let ghost es = plain(group.entries@);
    let ghost f = topic_refs(es);
    out.append("<topichead navtitle=\"");
    out.append(escape_markup(capitalize(group.dir).as_str()).as_str());
    out.append("\">\n");
    let ghost first = out@;
    assert(out@ =~= first + gather(f, 0));
    for i in 0..group.entries.len()
        invariant
            es == plain(group.entries@),
            f == topic_refs(es),
            out@ == first + gather(f, i as nat),
    {
        let ghost before = out@;
        out.append("<topicref href=\"");
        out.append(escape_markup(group.entries[i].id.as_str()).as_str());
        out.append(".dita\"/>\n");
        assert(es[i as int] == *group.entries@[i as int]);
        assert(out@ =~= before + f(i as int));
        assert(out@ =~= first + gather(f, (i + 1) as nat));
    }
    out.append("</topichead>\n");
    assert(out@ =~= old(out)@ + ("<topichead navtitle=\""@ + escaped(capitalized(group.dir@)) + "\">\n"@ + gather(f, es.len()) + "</topichead>\n"@));
}

/// The map of all topics.
pub fn render_map(groups: &Vec<Group>) -> (r: String)
    ensures
        r@ == map_of(group_values(groups@)),
{
    let ghost gs = group_values(groups@);
    let ghost f = map_parts(gs);
    let mut out = MAP_HEAD.to_owned();
    let ghost first = out@;
    assert(out@ =~= first + gather(f, 0));
    for k in 0..groups.len()
        invariant
            gs == group_values(groups@),
            f == map_parts(gs),
            out@ == first + gather(f, k as nat),
    {
        push_map_part(&mut out, &groups[k]);
        assert(gs[k as int] == (groups@[k as int].dir@, plain(groups@[k as int].entries@)));
        assert(out@ =~= first + gather(f, (k + 1) as nat));
    }
    out.append("</map>\n");
    out
}

/// The topics on the first `n` concepts.
pub open spec fn topics(cs: Seq<Concept>, n: nat) -> Seq<(Seq<char>, Seq<char>)>
    decreases n,
{
    if n == 0 {
        Seq::empty()
    } else {
        topics(cs, (n - 1) as nat).push((cs[n - 1].id@ + ".dita"@, topic_of(cs[n - 1])))
    }
}

/// The files of a bundle as DITA: a topic for each concept, and the map.
pub fn export_dita(concepts: &Vec<Concept>) -> (r: Vec<OutputFile>)
    ensures
        file_views(r@) == topics(concepts@, concepts@.len()).push(("root.ditamap"@, map_of(grouped(concepts@)))),
{
    let ghost cs = concepts@;
    let mut out: Vec<OutputFile> = Vec::new();
    assert(file_views(out@) =~= Seq::empty());
    for i in 0..concepts.len()
        invariant
            cs == concepts@,
            file_views(out@) == topics(cs, i as nat),
    {
        let ghost before = out@;
        let mut path = concepts[i].id.clone();
        path.append(".dita");
        let file = OutputFile { path, content: render_topic(&concepts[i]) };
        out.push(file);
        assert(file_views(out@) =~= file_views(before).push((file.path@, file.content@)));
    }
    let ghost before = out@;
    let groups = group_by_kind_dir(concepts);
    let file = OutputFile { path: "root.ditamap".to_owned(), content: render_map(&groups) };
    out.push(file);
    assert(file_views(out@) =~= file_views(before).push((file.path@, file.content@)));
    out
}

/// The texts that lie in the node at `k`, from `j` on, one after the other.
pub open spec fn texts_in(nodes: Seq<NodeView>, k: int, j: int) -> Seq<char>
    decreases nodes.len() - j,
{
    if j < 0 || j >= nodes.len() || nodes[j].depth <= nodes[k].depth {
        Seq::empty()
    } else {
        (match nodes[j].text {
            Some(t) => t,
            None => Seq::empty(),
        }) + texts_in(nodes, k, j + 1)
    }
}

/// The node at `k` is a child of the root with the name.
pub open spec fn is_child(nodes: Seq<NodeView>, tag: Seq<char>, k: int) -> bool {
    nodes[k].depth == nodes[0].depth + 1 && nodes[k].tag == Some(tag)
}

/// The first child of the root with the name.
pub open spec fn first_child(nodes: Seq<NodeView>, tag: Seq<char>, n: nat) -> Option<int>
    decreases n,
{
    if n == 0 {
        None
    } else {
        match first_child(nodes, tag, (n - 1) as nat) {
            Some(k) => Some(k),
            None => if is_child(nodes, tag, n - 1) {
                Some(n - 1)
            } else {
                None
            },
        }
    }
}

/// All the text in the first child of the root with the name.
pub open spec fn child_text(nodes: Seq<NodeView>, tag: Seq<char>) -> Option<Seq<char>> {
    match first_child(nodes, tag, nodes.len()) {
        Some(k) => Some(texts_in(nodes, k, k + 1)),
        None => None,
    }
}

proof fn lemma_child_stays(nodes: Seq<NodeView>, tag: Seq<char>, k: nat, n: nat)
    requires
        k <= n,
        first_child(nodes, tag, k) is Some,
    ensures
        first_child(nodes, tag, n) == first_child(nodes, tag, k),
    decreases n,
{
    if k < n {
        lemma_child_stays(nodes, tag, k, (n - 1) as nat);
    }
}

/// All the text in the first child of the root with the name, also what stands
/// in elements inside of it.
pub fn find_child_text(nodes: &Vec<XmlNode>, tag: &str) -> (r: Option<String>)
    ensures
        opt_text(r) == child_text(node_views(nodes@), tag@),
{
    let ghost nv = node_views(nodes@);
    let n: usize = nodes.len();
    for k in 0..n
        invariant
            nv == node_views(nodes@),
            n == nodes.len(),
            first_child(nv, tag@, k as nat) is None,
    {
        assert(nv[k as int] == nodes@[k as int]@);
        assert(nv[0] == nodes@[0]@);
        let named = match &nodes[k].tag {
            Some(t) => same(t.as_str(), tag),
            None => false,
        };
        let below = nodes[k].depth > 0 && nodes[k].depth - 1 == nodes[0].depth;
        if named && below {
            proof {
                lemma_child_stays(nv, tag@, (k + 1) as nat, n as nat);
            }
            let mut out = String::new();
            let mut j: usize = k + 1;
            assert(out@ + texts_in(nv, k as int, j as int) =~= texts_in(nv, k as int, k + 1));
            while j < n && nodes[j].depth > nodes[k].depth
                invariant
                    nv == node_views(nodes@),
                    n == nodes.len(),
                    k < j <= n,
                    out@ + texts_in(nv, k as int, j as int) == texts_in(nv, k as int, k + 1),
                decreases n - j,
            {
                assert(nv[j as int] == nodes@[j as int]@);
                assert(nv[k as int] == nodes@[k as int]@);
                let ghost before = out@;
                let ghost rest = texts_in(nv, k as int, j + 1);
                match &nodes[j].text {
                    Some(t) => {
                        out.append(t.as_str());
                        assert(out@ + rest =~= before + (t@ + rest));
                    },
                    None => {
                        assert(out@ + rest =~= before + (Seq::<char>::empty() + rest));
                    },
                }
                j = j + 1;
            }
            proof {
                if j < n {
                    assert(nv[j as int] == nodes@[j as int]@);
                    assert(nv[k as int] == nodes@[k as int]@);
                }
                assert(out@ + Seq::empty() =~= out@);
            }
            return Some(out);
        }
    }
    None
}

/// The last part of the path that is neither empty nor a single dot, among the
/// first `n`.
pub open spec fn last_part(parts: Seq<Seq<char>>, n: nat) -> Option<Seq<char>>
    decreases n,
{
    if n == 0 {
        None
    } else if parts[n - 1].len() == 0 || parts[n - 1] == "."@ {
        last_part(parts, (n - 1) as nat)
    } else {
        Some(parts[n - 1])
    }
}

/// The name without its last ending; a dot at its beginning begins none.
pub open spec fn stem(name: Seq<char>) -> Seq<char> {
    match find_last_char(name, '.') {
        Some(i) => if i == 0 {
            name
        } else {
            name.take(i)
        },
        None => name,
    }
}

/// The title for a topic without one: the name of its file, without the
/// ending.
pub open spec fn title_from_path(relative: Seq<char>) -> Seq<char> {
    match last_part(split(relative, '/'), split(relative, '/').len()) {
        Some(name) => if name == ".."@ {
            relative
        } else {
            stem(name)
        },
        None => relative,
    }
}

/// The name without its last ending.
fn file_stem(name: &str) -> (r: String)
    ensures
        r@ == stem(name@),
{
    let v = chars_of(name);
    match last_char_position(&v, '.') {
        Some(i) => {
            if i == 0 {
                name.to_owned()
            } else {
                assert(name@.subrange(0, i as int) =~= name@.take(i as int));
                string_of(&v, 0, i)
            }
        },
        None => name.to_owned(),
    }
}

/// The title for a topic without one.
pub fn fallback_title(relative: &str) -> (r: String)
    ensures
        r@ == title_from_path(relative@),
{
    let parts = split_text(relative, '/');
    let ghost pv = split(relative@, '/');
    let mut n: usize = parts.len();
    while n > 0
        invariant
            texts(parts@) == pv,
            pv == split(relative@, '/'),
            n <= parts.len(),
            last_part(pv, n as nat) == last_part(pv, pv.len()),
        decreases n,
    {
        let part = parts[n - 1].as_str();
        assert(pv[n - 1] == part@);
        if part.unicode_len() > 0 && !same(part, ".") {
            if same(part, "..") {
                return relative.to_owned();
            }
            return file_stem(part);
        }
        n = n - 1;
    }
    relative.to_owned()
}

/// The name for a topic without an id: its path without the ending, with dots
/// for slashes.
pub open spec fn name_from_path(relative: Seq<char>) -> Seq<char> {
    replaced(match find_last_char(relative, '.') {
        Some(i) => relative.take(i),
        None => relative,
    }, '/', '.')
}

/// The name for a topic without an id.
pub fn path_to_qualified_name(relative: &str) -> (r: String)
    ensures
        r@ == name_from_path(relative@),
{
    let v = chars_of(relative);
    match last_char_position(&v, '.') {
        Some(i) => {
            let base = string_of(&v, 0, i);
            assert(base@ =~= relative@.take(i as int));
            replace_char(base.as_str(), '/', '.')
        },
        None => replace_char(relative, '/', '.'),
    }
}

/// The text, where it is more than white space.
pub open spec fn unless_blank(t: Option<Seq<char>>) -> Option<Seq<char>> {
    match t {
        Some(s) => if trim(s).len() == 0 {
            None
        } else {
            Some(s)
        },
        None => None,
    }
}

/// The text, where it is more than white space.
fn keep_unless_blank(t: Option<String>) -> (r: Option<String>)
    ensures
        opt_text(r) == unless_blank(opt_text(t)),
{
    match t {
        Some(s) => {
            if is_blank(s.as_str()) {
                None
            } else {
                Some(s)
            }
        },
        None => None,
    }
}

/// What a topic is called in the project.
pub open spec fn topic_name(nodes: Seq<NodeView>, relative: Seq<char>) -> Seq<char> {
    match unless_blank(nodes[0].id) {
        Some(id) => id,
        None => name_from_path(relative),
    }
}

/// The concept for a topic with these nodes and so many lines.
pub open spec fn topic_concept(nodes: Seq<NodeView>, relative: Seq<char>, line_count: nat) -> ConceptView {
    ConceptView {
        id: id_for("documents"@, topic_name(nodes, relative)),
        kind: ConceptKind::Document,
        language: Language::Dita,
        name: match unless_blank(child_text(nodes, "title"@)) {
            Some(t) => t,
            None => title_from_path(relative),
        },
        qualified_name: topic_name(nodes, relative),
        description: unless_blank(child_text(nodes, "shortdesc"@)),
        file: relative,
        start_line: 1,
        end_line: (if line_count == 0 { 1 } else { line_count }) as usize,
        signature: None,
        tags: Seq::empty(),
        is_public: true,
        generated_at: None,
        relationships: Seq::empty(),
    }
}

/// The concept for a topic with these nodes and so many lines.
pub fn concept_of_topic(nodes: &Vec<XmlNode>, relative: &str, line_count: usize) -> (r: Concept)
    requires
        nodes.len() > 0,
    ensures
        r@ == topic_concept(node_views(nodes@), relative@, line_count as nat),
{
    let ghost nv = node_views(nodes@);
    assert(nv[0] == nodes@[0]@);
    let name = match keep_unless_blank(find_child_text(nodes, "title")) {
        Some(t) => t,
        None => fallback_title(relative),
    };
    let description = keep_unless_blank(find_child_text(nodes, "shortdesc"));
    let qualified_name = match keep_unless_blank(crate::model::copy_opt(&nodes[0].id)) {
        Some(id) => id,
        None => path_to_qualified_name(relative),
    };
    let c = Concept {
        id: make_id("documents", qualified_name.as_str()),
        kind: ConceptKind::Document,
        language: Language::Dita,
        name,
        qualified_name,
        description,
        location: Location {
            file: relative.to_owned(),
            start_line: 1,
            end_line: if line_count == 0 {
                1
            } else {
                line_count
            },
        },
        signature: None,
        tags: Vec::new(),
        is_public: true,
        generated_at: None,
        relationships: Vec::new(),
    };
    assert(c@ =~= topic_concept(nv, relative@, line_count as nat));
    c
}

/// Why a file was not imported.
#[derive(Clone, Copy, Debug, PartialEq, Eq, Structural)]
pub enum SkipReason {
    Unreadable,
    NotWellFormed,
}

/// The concept that is read back of the topic on a concept: a document under
/// its id, with its title and its description.
pub open spec fn read_back(c: Concept, relative: Seq<char>, line_count: nat) -> ConceptView {
    let qualified_name = match unless_blank(Some(replaced(c.id@, '/', '-'))) {
        Some(id) => id,
        None => name_from_path(relative),
    };
    ConceptView {
        id: id_for("documents"@, qualified_name),
        kind: ConceptKind::Document,
        language: Language::Dita,
        name: match unless_blank(Some(c.name@)) {
            Some(t) => t,
            None => title_from_path(relative),
        },
        qualified_name,
        description: unless_blank(description_of(c)),
        file: relative,
        start_line: 1,
        end_line: (if line_count == 0 { 1 } else { line_count }) as usize,
        signature: None,
        tags: Seq::empty(),
        is_public: true,
        generated_at: None,
        relationships: Seq::empty(),
    }
}

/// Nothing written out as the topic on a concept nests too deep to be read.
pub proof fn written_topics_can_be_read(c: Concept)
    requires
        is_readable(c),
    ensures
        nesting(topic_of(c)) <= NESTING_LIMIT,
{
    lemma_topic_is_written(c);
    lemma_topic_is_legal(c);
    lemma_topic_is_shallow(c);
    lemma_document_nests(topic_tree(c));
}

/// The concept for the text of a topic; nothing for a text that is no XML. The
/// elements must not lie deeper in each other than the parser's stack can
/// take. Of the topic on a concept, that concept's title and description are
/// read back.
pub fn import_file(content: &str, relative: &str) -> (r: Option<Concept>)
    requires
        nesting(content@) <= NESTING_LIMIT,
    ensures
        match r {
            Some(c) => xml_content(content@) is Some && c@ == topic_concept(xml_content(content@)->0, relative@, lines(content@).len()),
            None => xml_content(content@) is None,
        },
        forall|c: Concept| #[trigger] topic_of(c) == content@ && is_readable(c) ==> (r matches Some(d) && d@ == read_back(c, relative@, lines(content@).len())),
{
    let parsed = xml_nodes(content);
    proof {
        assert forall|c: Concept| #[trigger] topic_of(c) == content@ && is_readable(c) implies parsed is Some && topic_concept(
            node_views(parsed->0@),
            relative@,
            lines(content@).len(),
        ) == read_back(c, relative@, lines(content@).len()) by {
            lemma_topic_is_written(c);
            lemma_topic_is_legal(c);
            lemma_topic_is_read(c);
            assert(document(topic_tree(c)) == content@);
        }
    }
    match parsed {
        Some(nodes) => {
            let ls = lines_of(content);
            assert(texts(ls@).len() == lines(content@).len());
            Some(concept_of_topic(&nodes, relative, ls.len()))
        },
        None => None,
    }
}

/// Whether files with this ending are topics.
pub fn is_topic_extension(extension: Option<&str>) -> (r: bool)
    ensures
        r == (extension matches Some(e) && (e@ == "dita"@ || e@ == "xml"@)),
{
    match extension {
        Some(e) => same(e, "dita") || same(e, "xml"),
        None => false,
    }
}

/// A file of a DITA corpus: its path, and its content where it could be read.
#[derive(Debug)]
pub struct TopicFile {
    pub relative_path: String,
    pub content: Option<String>,
}

/// The elements of the file lie in each other no deeper than what is read.
pub open spec fn is_within_reach(f: TopicFile) -> bool {
    f.content matches Some(content) ==> nesting(content@) <= NESTING_LIMIT
}

/// The concept for a file, where it could be read and is XML.
pub open spec fn imported(f: TopicFile) -> Option<ConceptView> {
    match f.content {
        Some(content) => match xml_content(content@) {
            Some(nodes) => Some(topic_concept(nodes, f.relative_path@, lines(content@).len())),
            None => None,
        },
        None => None,
    }
}

/// Where the file holds the topic on the concept, that concept's title and
/// description are read back.
pub open spec fn is_read_back(f: TopicFile, c: Concept) -> bool {
    f.content matches Some(content) && content@ == topic_of(c) && is_readable(c) ==> imported(f) == Some(read_back(c, f.relative_path@, lines(topic_of(c)).len()))
}

/// What orders the files: the path, part by part.
pub open spec fn topic_keys(files: Seq<TopicFile>) -> Seq<KeyView> {
    files.map_values(|f: TopicFile| path_key(f.relative_path@))
}

/// What orders a path part by part: no character comes before the one that is
/// put in place of the separator.
pub open spec fn path_key(path: Seq<char>) -> KeyView {
    KeyView { major: 0, text: replaced(path, '/', '\0'), second: ""@, minor: 0 }
}

/// The concepts for the first `n` files.
pub open spec fn imported_all(files: Seq<TopicFile>, n: nat) -> Seq<ConceptView>
    decreases n,
{
    if n == 0 {
        Seq::empty()
    } else {
        let rest = imported_all(files, (n - 1) as nat);
        match imported(files[n - 1]) {
            Some(c) => rest.push(c),
            None => rest,
        }
    }
}

/// Why a file is skipped, where it is.
pub open spec fn skip_reason(f: TopicFile) -> Option<SkipReason> {
    match f.content {
        None => Some(SkipReason::Unreadable),
        Some(_) => if imported(f) is None {
            Some(SkipReason::NotWellFormed)
        } else {
            None
        },
    }
}

/// The paths of those of the first `n` files that are skipped, and why.
pub open spec fn skipped_all(files: Seq<TopicFile>, n: nat) -> Seq<(Seq<char>, SkipReason)>
    decreases n,
{
    if n == 0 {
        Seq::empty()
    } else {
        let rest = skipped_all(files, (n - 1) as nat);
        match skip_reason(files[n - 1]) {
            Some(reason) => rest.push((files[n - 1].relative_path@, reason)),
            None => rest,
        }
    }
}

/// Skipped files as values.
pub open spec fn skip_views(v: Seq<(String, SkipReason)>) -> Seq<(Seq<char>, SkipReason)> {
    v.map_values(|s: (String, SkipReason)| (s.0@, s.1))
}

/// The concepts and the skipped files are those of the files, by path.
pub open spec fn is_import(files: Seq<TopicFile>, concepts: Seq<ConceptView>, skipped: Seq<(Seq<char>, SkipReason)>) -> bool {
    exists|sorted: Seq<TopicFile>| {
        &&& #[trigger] sorted_by(files, topic_keys(files), sorted)
        &&& concepts == imported_all(sorted, sorted.len())
        &&& skipped == skipped_all(sorted, sorted.len())
    }
}

/// The positions of the files by path.
fn path_order(files: &Vec<TopicFile>) -> (r: Vec<usize>)
    ensures
        is_sort_order(topic_keys(files@), r@),
{
    let mut paths: Vec<String> = Vec::new();
    for i in 0..files.len()
        invariant
            paths.len() == i,
            forall|k: int| 0 <= k < i ==> (#[trigger] paths@[k])@ == replaced(files@[k].relative_path@, '/', '\0'),
    {
        paths.push(replace_char(files[i].relative_path.as_str(), '/', '\0'));
    }
    let mut keys: Vec<SortKey> = Vec::new();
    for i in 0..files.len()
        invariant
            paths.len() == files.len(),
            forall|k: int| 0 <= k < paths.len() ==> (#[trigger] paths@[k])@ == replaced(files@[k].relative_path@, '/', '\0'),
            keys.len() == i,
            forall|k: int| 0 <= k < i ==> (#[trigger] keys@[k])@ == topic_keys(files@)[k],
    {
        keys.push(SortKey { major: 0, text: paths[i].as_str(), second: "", minor: 0 });
    }
    assert(key_views(keys@) =~= topic_keys(files@));
    sort_order(&keys)
}

/// The concepts for the topics in the files, and the files that are skipped,
/// both by path: a file that is no topic does not keep the others out. Of each
/// file that holds the topic on a concept, that concept's title and description
/// are read back.
pub fn import_dita(files: &Vec<TopicFile>) -> (r: (Vec<Concept>, Vec<(String, SkipReason)>))
    requires
        forall|i: int| 0 <= i < files@.len() ==> is_within_reach(#[trigger] files@[i]),
    ensures
        is_import(files@, concept_views(r.0@), skip_views(r.1@)),
        forall|i: int, c: Concept| 0 <= i < files@.len() ==> #[trigger] is_read_back(files@[i], c),
{
    let order = path_order(files);
    let ghost sorted = order@.map_values(|k: usize| files@[k as int]);
    let mut concepts: Vec<Concept> = Vec::new();
    let mut skipped: Vec<(String, SkipReason)> = Vec::new();
    assert(concept_views(concepts@) =~= Seq::empty());
    assert(skip_views(skipped@) =~= Seq::empty());
    for i in 0..order.len()
        invariant
            forall|k: int| 0 <= k < files@.len() ==> is_within_reach(#[trigger] files@[k]),
            is_sort_order(topic_keys(files@), order@),
            sorted == order@.map_values(|k: usize| files@[k as int]),
            concept_views(concepts@) == imported_all(sorted, i as nat),
            skip_views(skipped@) == skipped_all(sorted, i as nat),
            forall|j: int, c: Concept| 0 <= j < i ==> #[trigger] is_read_back(sorted[j], c),
    {
        let at: usize = order[i];
        assert(0 <= order@[i as int] < topic_keys(files@).len());
        let file = &files[at];
        assert(sorted[i as int] == *file);
        let reason: Option<SkipReason> = match &file.content {
            Some(content) => match import_file(content.as_str(), file.relative_path.as_str()) {
                Some(c) => {
                    let ghost before = concepts@;
                    concepts.push(c);
                    assert(concept_views(concepts@) =~= concept_views(before).push(c@));
                    None
                },
                None => Some(SkipReason::NotWellFormed),
            },
            None => Some(SkipReason::Unreadable),
        };
        if let Some(why) = reason {
            let ghost before = skipped@;
            let path = file.relative_path.clone();
            skipped.push((path, why));
            assert(skip_views(skipped@) =~= skip_views(before).push((file.relative_path@, why)));
        }
    }
    proof {
        assert(sorted_by(files@, topic_keys(files@), sorted));
        assert forall|i: int, c: Concept| 0 <= i < files@.len() implies #[trigger] is_read_back(files@[i], c) by {
            let n: usize = files.len();
            assert(order@.contains(i as usize));
            let k = choose|k: int| 0 <= k < order@.len() && order@[k] == i as usize;
            assert(sorted[k] == files@[i]);
            assert(is_read_back(sorted[k], c));
        }
    }
    (concepts, skipped)
}

/// A file as a value.
pub open spec fn topic_value(f: TopicFile) -> (Seq<char>, Option<Seq<char>>) {
    (f.relative_path@, opt_text(f.content))
}

/// The files as values.
pub open spec fn topic_values(files: Seq<TopicFile>) -> Seq<(Seq<char>, Option<Seq<char>>)> {
    files.map_values(|f: TopicFile| topic_value(f))
}

proof fn lemma_same_files(a: Seq<TopicFile>, b: Seq<TopicFile>, n: nat)
    requires
        n <= a.len(),
        a.len() == b.len(),
        forall|i: int| 0 <= i < a.len() ==> topic_value(#[trigger] a[i]) == topic_value(b[i]),
    ensures
        imported_all(a, n) == imported_all(b, n),
        skipped_all(a, n) == skipped_all(b, n),
    decreases n,
{
    if n > 0 {
        lemma_same_files(a, b, (n - 1) as nat);
        assert(topic_value(a[n - 1]) == topic_value(b[n - 1]));
    }
}

/// The order in which the files of a corpus are come upon does not count.
pub proof fn topics_come_in_any_order(
    files: Seq<TopicFile>,
    others: Seq<TopicFile>,
    concepts: Seq<ConceptView>,
    skipped: Seq<(Seq<char>, SkipReason)>,
    again: Seq<ConceptView>,
    passed_over: Seq<(Seq<char>, SkipReason)>,
)
    requires
        is_import(files, concepts, skipped),
        is_import(others, again, passed_over),
        files.len() <= usize::MAX,
        others.len() <= usize::MAX,
        topic_keys(files).no_duplicates(),
        topic_keys(others).no_duplicates(),
        forall|v: (Seq<char>, Option<Seq<char>>)| #[trigger] topic_values(files).contains(v) <==> topic_values(others).contains(v),
    ensures
        concepts == again,
        skipped == passed_over,
{
    let a = choose|sorted: Seq<TopicFile>| {
        &&& #[trigger] sorted_by(files, topic_keys(files), sorted)
        &&& concepts == imported_all(sorted, sorted.len())
        &&& skipped == skipped_all(sorted, sorted.len())
    };
    let b = choose|sorted: Seq<TopicFile>| {
        &&& #[trigger] sorted_by(others, topic_keys(others), sorted)
        &&& again == imported_all(sorted, sorted.len())
        &&& passed_over == skipped_all(sorted, sorted.len())
    };
    let seen = |f: TopicFile| topic_value(f);
    let key = |v: (Seq<char>, Option<Seq<char>>)| path_key(v.0);
    assert forall|i: int| 0 <= i < files.len() implies #[trigger] topic_keys(files)[i] == key(seen(files[i])) by {}
    assert forall|i: int| 0 <= i < others.len() implies #[trigger] topic_keys(others)[i] == key(seen(others[i])) by {}
    assert(files.map_values(seen) =~= topic_values(files));
    assert(others.map_values(seen) =~= topic_values(others));
    lemma_sorting_forgets_order(files, topic_keys(files), a, others, topic_keys(others), b, seen, key);
    let (x, y) = (a.map_values(seen), b.map_values(seen));
    assert(x.len() == a.len() && y.len() == b.len());
    assert forall|i: int| 0 <= i < a.len() implies topic_value(#[trigger] a[i]) == topic_value(b[i]) by {
        assert(x[i] == y[i]);
    }
    lemma_same_files(a, b, a.len());
}

/// The text with a dot for each slash, place for place.
pub open spec fn is_dotted(name: Seq<char>, path: Seq<char>) -> bool {
    &&& name.len() == path.len()
    &&& forall|k: int| 0 <= k < path.len() ==> #[trigger] name[k] == if path[k] == '/' {
        '.'
    } else {
        path[k]
    }
}

/// A topic is called by its id, and without one by its path: with dots for the
/// slashes, and without the ending that stands behind the last dot.
pub proof fn topics_are_called_by_id_or_path(nodes: Seq<NodeView>, relative: Seq<char>, base: Seq<char>, ending: Seq<char>)
    ensures
        says_something(nodes[0].id) ==> topic_name(nodes, relative) == nodes[0].id->0,
        !says_something(nodes[0].id) && relative == base + seq!['.'] + ending && !ending.contains('.') ==> is_dotted(topic_name(nodes, relative), base),
        !says_something(nodes[0].id) && !relative.contains('.') ==> is_dotted(topic_name(nodes, relative), relative),
{
    lemma_says(nodes[0].id);
    lemma_find_last_char(relative, '.');
    if relative == base + seq!['.'] + ending && !ending.contains('.') {
        let at = base.len() as int;
        assert(relative[at] == '.');
        if let Some(i) = find_last_char(relative, '.') {
            if at < i {
                assert(ending[i - at - 1] == '.');
            }
            assert(i == at);
            assert(relative.take(i) =~= base);
        }
    }
    if !relative.contains('.') {
        if let Some(i) = find_last_char(relative, '.') {
            assert(relative[i] == '.');
        }
    }
}

/// The node at `k` is the first child of the root with the name.
pub open spec fn is_first_child(nodes: Seq<NodeView>, tag: Seq<char>, k: int) -> bool {
    &&& 0 <= k < nodes.len()
    &&& nodes[k].tag == Some(tag)
    &&& nodes[k].depth == nodes[0].depth + 1
    &&& forall|j: int| 0 <= j < k ==> !((#[trigger] nodes[j]).tag == Some(tag) && nodes[j].depth == nodes[0].depth + 1)
}

/// What the node itself says.
pub open spec fn own_text(n: NodeView) -> Seq<char> {
    match n.text {
        Some(t) => t,
        None => Seq::empty(),
    }
}

/// The nodes behind the one at `k`, up to `end`, are all that lies in it.
pub open spec fn lies_up_to(nodes: Seq<NodeView>, k: int, end: int) -> bool {
    &&& k < end <= nodes.len()
    &&& forall|j: int| k < j < end ==> (#[trigger] nodes[j]).depth > nodes[k].depth
    &&& end < nodes.len() ==> nodes[end].depth <= nodes[k].depth
}

proof fn lemma_first_child(nodes: Seq<NodeView>, tag: Seq<char>, n: nat)
    requires
        n <= nodes.len(),
    ensures
        match first_child(nodes, tag, n) {
            Some(k) => is_first_child(nodes, tag, k),
            None => forall|j: int| 0 <= j < n ==> !((#[trigger] nodes[j]).tag == Some(tag) && nodes[j].depth == nodes[0].depth + 1),
        },
    decreases n,
{
    if n > 0 {
        lemma_first_child(nodes, tag, (n - 1) as nat);
    }
}

proof fn lemma_texts_in(nodes: Seq<NodeView>, k: int, j: int, end: int)
    requires
        0 <= k < j <= end,
        lies_up_to(nodes, k, end),
    ensures
        texts_in(nodes, k, j) == gather(|m: int| own_text(nodes[j + m]), (end - j) as nat),
    decreases end - j,
{
    let f = |m: int| own_text(nodes[j + m]);
    if j < end {
        let g = |m: int| own_text(nodes[j + 1 + m]);
        lemma_texts_in(nodes, k, j + 1, end);
        lemma_gather_first(f, g, (end - j) as nat);
        assert(f(0) == own_text(nodes[j]));
    }
}

proof fn lemma_gather_first(f: spec_fn(int) -> Seq<char>, g: spec_fn(int) -> Seq<char>, n: nat)
    requires
        n > 0,
        forall|m: int| 0 <= m < n - 1 ==> #[trigger] g(m) == f(m + 1),
    ensures
        gather(f, n) == f(0) + gather(g, (n - 1) as nat),
    decreases n,
{
    if n == 1 {
        assert(gather(f, 0) + f(0) =~= f(0) + gather(g, 0));
        reveal_with_fuel(gather, 2);
    } else {
        lemma_gather_first(f, g, (n - 1) as nat);
        assert(g(n - 2) == f(n - 1));
        assert(gather(f, n) =~= f(0) + gather(g, (n - 1) as nat));
    }
}

/// The title of a topic is all the text in the first title right below its
/// root, and its description all that in the first short description there;
/// a text of white space alone is as good as none.
pub proof fn titles_and_descriptions_are_read(nodes: Seq<NodeView>, relative: Seq<char>, line_count: nat, k: int, end: int)
    requires
        lies_up_to(nodes, k, end),
    ensures
        ({
            let c = topic_concept(nodes, relative, line_count);
            let text = gather(|m: int| own_text(nodes[k + 1 + m]), (end - k - 1) as nat);
            &&& is_first_child(nodes, "title"@, k) && says_something(Some(text)) ==> c.name == text
            &&& is_first_child(nodes, "title"@, k) && !says_something(Some(text)) ==> c.name == title_from_path(relative)
            &&& is_first_child(nodes, "shortdesc"@, k) && says_something(Some(text)) ==> c.description == Some(text)
            &&& is_first_child(nodes, "shortdesc"@, k) && !says_something(Some(text)) ==> c.description is None
            &&& (forall|j: int| !#[trigger] is_first_child(nodes, "shortdesc"@, j)) ==> c.description is None
            &&& (forall|j: int| !#[trigger] is_first_child(nodes, "title"@, j)) ==> c.name == title_from_path(relative)
        }),
{
    let text = gather(|m: int| own_text(nodes[k + 1 + m]), (end - k - 1) as nat);
    lemma_says(Some(text));
    lemma_first_child(nodes, "title"@, nodes.len());
    lemma_first_child(nodes, "shortdesc"@, nodes.len());
    if 0 <= k {
        lemma_texts_in(nodes, k, k + 1, end);
    }
    assert forall|tag: Seq<char>, i: int, j: int| #[trigger] is_first_child(nodes, tag, i) && #[trigger] is_first_child(nodes, tag, j) implies i == j by {
        if i < j {
            assert(nodes[i].tag == Some(tag));
        }
        if j < i {
            assert(nodes[j].tag == Some(tag));
        }
    }
    if is_first_child(nodes, "title"@, k) {
        assert(first_child(nodes, "title"@, nodes.len()) == Some(k));
    }
    if is_first_child(nodes, "shortdesc"@, k) {
        assert(first_child(nodes, "shortdesc"@, nodes.len()) == Some(k));
    }
}

/// The part is the last of the path that names something: neither empty nor a
/// single dot.
pub open spec fn is_last_named(path: Seq<char>, part: Seq<char>) -> bool {
    exists|i: int| {
        &&& 0 <= i < split(path, '/').len()
        &&& #[trigger] split(path, '/')[i] == part
        &&& part.len() > 0
        &&& part != "."@
        &&& forall|j: int| i < j < split(path, '/').len() ==> (#[trigger] split(path, '/')[j]).len() == 0 || split(path, '/')[j] == "."@
    }
}

proof fn lemma_last_part(parts: Seq<Seq<char>>, n: nat)
    requires
        n <= parts.len(),
    ensures
        match last_part(parts, n) {
            Some(p) => exists|i: int| {
                &&& 0 <= i < n
                &&& #[trigger] parts[i] == p
                &&& p.len() > 0
                &&& p != "."@
                &&& forall|j: int| i < j < n ==> (#[trigger] parts[j]).len() == 0 || parts[j] == "."@
            },
            None => forall|j: int| 0 <= j < n ==> (#[trigger] parts[j]).len() == 0 || parts[j] == "."@,
        },
    decreases n,
{
    if n > 0 {
        lemma_last_part(parts, (n - 1) as nat);
        if !(parts[n - 1].len() == 0 || parts[n - 1] == "."@) {
            assert(parts[n - 1] == last_part(parts, n)->0);
        }
    }
}

/// A topic without a title is called after its file: by the last part of the
/// path that names something, without its ending; a dot at its beginning
/// begins no ending.
pub proof fn untitled_topics_are_called_after_their_file(path: Seq<char>, part: Seq<char>, base: Seq<char>, ending: Seq<char>)
    requires
        is_last_named(path, part),
        part != ".."@,
    ensures
        base.len() > 0 && part == base + seq!['.'] + ending && !ending.contains('.') ==> title_from_path(path) == base,
        !part.skip(1).contains('.') ==> title_from_path(path) == part,
{
    let parts = split(path, '/');
    lemma_last_part(parts, parts.len());
    let i = choose|i: int| {
        &&& 0 <= i < parts.len()
        &&& #[trigger] parts[i] == part
        &&& part.len() > 0
        &&& part != "."@
        &&& forall|j: int| i < j < parts.len() ==> (#[trigger] parts[j]).len() == 0 || parts[j] == "."@
    };
    match last_part(parts, parts.len()) {
        Some(p) => {
            let k = choose|k: int| {
                &&& 0 <= k < parts.len()
                &&& #[trigger] parts[k] == p
                &&& p.len() > 0
                &&& p != "."@
                &&& forall|j: int| k < j < parts.len() ==> (#[trigger] parts[j]).len() == 0 || parts[j] == "."@
            };
            assert(k == i) by {
                if k < i {
                    assert(parts[i].len() == 0 || parts[i] == "."@);
                }
                if i < k {
                    assert(parts[k].len() == 0 || parts[k] == "."@);
                }
            }
        },
        None => {
            assert(parts[i].len() == 0 || parts[i] == "."@);
        },
    }
    lemma_find_last_char(part, '.');
    if base.len() > 0 && part == base + seq!['.'] + ending && !ending.contains('.') {
        let at = base.len() as int;
        assert(part[at] == '.');
        let d = find_last_char(part, '.')->0;
        if at < d {
            assert(ending[d - at - 1] == '.');
        }
        assert(d == at);
        assert(part.take(d) =~= base);
    }
    if !part.skip(1).contains('.') {
        if let Some(d) = find_last_char(part, '.') {
            if d > 0 {
                assert(part.skip(1)[d - 1] == '.');
            }
        }
    }
}

/// Every file is either imported or skipped, and a skipped one is named with
/// why: it could not be had, or it is no XML.
pub proof fn files_are_imported_or_skipped(files: Seq<TopicFile>, n: nat)
    requires
        n <= files.len(),
    ensures
        imported_all(files, n).len() + skipped_all(files, n).len() == n,
        forall|s: (Seq<char>, SkipReason)| #[trigger] skipped_all(files, n).contains(s) <==> exists|i: int| {
            &&& 0 <= i < n
            &&& (#[trigger] files[i]).relative_path@ == s.0
            &&& s.1 is Unreadable <==> files[i].content is None
            &&& s.1 is NotWellFormed <==> files[i].content is Some && xml_content(files[i].content->0@) is None
        },
    decreases n,
{
    let all = skipped_all(files, n);
    if n > 0 {
        let rest = skipped_all(files, (n - 1) as nat);
        let f = files[n - 1];
        files_are_imported_or_skipped(files, (n - 1) as nat);
        assert forall|s: (Seq<char>, SkipReason)| #[trigger] all.contains(s) <==> exists|i: int| {
            &&& 0 <= i < n
            &&& (#[trigger] files[i]).relative_path@ == s.0
            &&& s.1 is Unreadable <==> files[i].content is None
            &&& s.1 is NotWellFormed <==> files[i].content is Some && xml_content(files[i].content->0@) is None
        } by {
            if rest.contains(s) {
                let x = choose|x: int| 0 <= x < rest.len() && rest[x] == s;
                assert(all[x] == s);
            }
            if all.contains(s) {
                let x = choose|x: int| 0 <= x < all.len() && all[x] == s;
                if x < rest.len() {
                    assert(rest[x] == s);
                    assert(rest.contains(s));
                } else {
                    assert(files[n - 1].relative_path@ == s.0);
                }
            }
            if all.len() > rest.len() {
                assert(all[rest.len() as int] == all.last());
            }
        }
    }
}

}
