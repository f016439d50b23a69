//! A topic as a tree, and what is read back of it.

use vstd::prelude::*;
use crate::dita::{child_text, first_child, is_child, texts_in, topic_body, topic_of, topic_relation_items, topic_relation_section, topic_relation_sections, topic_tags};
use crate::html::framed_markup;
use crate::model::{Concept, Location, RelationKind};
use crate::naming::replaced;
use crate::nesting::{height, height_all, larger, lemma_height_parts};
use crate::order::gather;
use crate::render::{escaped, escapes, has_kind, heading_of, kind_label, language_label, location_text, relation_at, type_label};
use crate::text::{decimal, join, texts};
use crate::xml::{all_legal, document, document_limit, end_tag, is_id, is_legal, is_tag, is_text, nodes_of, nodes_of_all, start_tag, written, written_all, Markup, NodeView, TOPIC_PROLOG};
use crate::xml::{lemma_legal_parts, lemma_nodes_lie_deep, lemma_nodes_parts, lemma_written_parts};

verus! {

/// An element without an `id`.
pub open spec fn element(tag: Seq<char>, kids: Seq<Markup>) -> Markup {
    Markup::Element(tag, None, kids)
}

/// The text as a piece; none where it is empty.
pub open spec fn text_in(t: Seq<char>) -> Seq<Markup> {
    if t.len() == 0 {
        Seq::empty()
    } else {
        seq![Markup::Text(t)]
    }
}

/// A line feed.
pub open spec fn line_feed() -> Markup {
    Markup::Text(seq!['\n'])
}

/// The piece with a line feed after it.
pub open spec fn line(m: Markup) -> Seq<Markup> {
    seq![m, line_feed()]
}

/// A section with the title.
pub open spec fn section(title: Seq<char>, last: Markup) -> Markup {
    element("section"@, seq![element("title"@, text_in(title)), last])
}

/// A section with the title, around a text in an element.
pub open spec fn text_section(title: Seq<char>, tag: Seq<char>, t: Seq<char>) -> Markup {
    section(title, element(tag, text_in(t)))
}

/// The list items for a concept's relationships of the kind, as trees.
pub open spec fn item_trees(c: Concept, kind: RelationKind) -> spec_fn(int) -> Seq<Markup> {
    |i: int| if c.relationships@[i].kind == kind {
        line(element("li"@, text_in(c.relationships@[i].target_display@)))
    } else {
        Seq::empty()
    }
}

/// The list of a concept's relationships of the kind.
pub open spec fn list_tree(c: Concept, kind: RelationKind) -> Markup {
    element("ul"@, seq![line_feed()] + gather(item_trees(c, kind), c.relationships@.len()))
}

/// The sections on a concept's relationships, as trees.
pub open spec fn section_trees(c: Concept) -> spec_fn(int) -> Seq<Markup> {
    |k: int| if has_kind(c.relationships@, relation_at(k)) {
        line(section(heading_of(relation_at(k)), list_tree(c, relation_at(k))))
    } else {
        Seq::empty()
    }
}

/// The section on the tags, as a tree.
pub open spec fn tags_tree(tags: Seq<Seq<char>>) -> Seq<Markup> {
    if tags.len() == 0 {
        Seq::empty()
    } else {
        line(text_section("Tags"@, "p"@, join(tags, ", "@)))
    }
}

/// The section on the signature, as a tree.
pub open spec fn signature_tree(signature: Option<String>) -> Seq<Markup> {
    match signature {
        Some(t) => line(text_section("Signature"@, "codeblock"@, t@)),
        None => Seq::empty(),
    }
}

/// What the body of a topic holds.
pub open spec fn body_trees(c: Concept) -> Seq<Markup> {
    seq![line_feed()] + signature_tree(c.signature) + line(text_section("Type"@, "p"@, type_label(c))) + line(
        text_section("Location"@, "p"@, location_text(c.location)),
    ) + tags_tree(texts(c.tags@)) + gather(section_trees(c), 7)
}

/// The description of a topic, as a tree.
pub open spec fn description_tree(description: Option<String>) -> Seq<Markup> {
    match description {
        Some(t) => line(element("shortdesc"@, text_in(t@))),
        None => Seq::empty(),
    }
}

/// A topic as a tree.
pub open spec fn topic_tree(c: Concept) -> Markup {
    Markup::Element(
        "topic"@,
        Some(replaced(c.id@, '/', '-')),
        seq![line_feed()] + line(element("title"@, text_in(c.name@))) + description_tree(c.description) + line(element("body"@, body_trees(c))),
    )
}

proof fn lemma_written_pair(a: Markup, b: Markup)
    ensures
        written_all(seq![a, b]) == written(a) + written(b),
{
    reveal_with_fuel(written_all, 3);
    assert(seq![a, b].subrange(0, 1) =~= seq![a]);
    assert(seq![a].subrange(0, 0) =~= Seq::empty());
    assert(Seq::<char>::empty() + written(a) =~= written(a));
}

proof fn lemma_written_one(a: Markup)
    ensures
        written_all(seq![a]) == written(a),
{
    reveal_with_fuel(written_all, 2);
    assert(seq![a].subrange(0, 0) =~= Seq::empty());
    assert(Seq::<char>::empty() + written(a) =~= written(a));
}

proof fn lemma_written_feed()
    ensures
        written(line_feed()) == seq!['\n'],
{
    reveal_with_fuel(gather, 2);
    assert(written(line_feed()) =~= seq!['\n']);
}

proof fn lemma_written_line(m: Markup)
    ensures
        written_all(line(m)) == written(m) + seq!['\n'],
{
    lemma_written_pair(m, line_feed());
    lemma_written_feed();
}

proof fn lemma_written_text(t: Seq<char>)
    ensures
        written_all(text_in(t)) == escaped(t),
{
    if t.len() > 0 {
        lemma_written_one(Markup::Text(t));
    }
}

proof fn lemma_section_literals()
    ensures
        "<section><title>"@ == start_tag("section"@, None) + start_tag("title"@, None),
        "</title>"@ == end_tag("title"@),
        "</section>\n"@ == end_tag("section"@) + seq!['\n'],
{
    reveal_strlit("<section><title>");
    reveal_strlit("section");
    reveal_strlit("title");
    reveal_strlit("</title>");
    reveal_strlit("</section>\n");
    assert("<section><title>"@ =~= start_tag("section"@, None) + start_tag("title"@, None));
    assert("</title>"@ =~= end_tag("title"@));
    assert("</section>\n"@ =~= end_tag("section"@) + seq!['\n']);
}

proof fn lemma_signature_literal()
    ensures
        "<section><title>Signature</title><codeblock>"@ == "<section><title>"@ + "Signature"@ + "</title>"@ + start_tag("codeblock"@, None),
        "</codeblock></section>\n"@ == end_tag("codeblock"@) + "</section>\n"@,
{
    reveal_strlit("<section><title>Signature</title><codeblock>");
    reveal_strlit("<section><title>");
    reveal_strlit("Signature");
    reveal_strlit("</title>");
    reveal_strlit("codeblock");
    reveal_strlit("</codeblock></section>\n");
    reveal_strlit("</section>\n");
    assert("<section><title>Signature</title><codeblock>"@ =~= "<section><title>"@ + "Signature"@ + "</title>"@ + start_tag("codeblock"@, None));
    assert("</codeblock></section>\n"@ =~= end_tag("codeblock"@) + "</section>\n"@);
}

/// Letters and spaces.
spec fn is_words(t: Seq<char>) -> bool {
    forall|i: int| 0 <= i < t.len() ==> ('a' <= #[trigger] t[i] <= 'z' || 'A' <= t[i] <= 'Z' || t[i] == ' ')
}

proof fn lemma_words(t: Seq<char>, n: nat)
    requires
        is_words(t),
        n <= t.len(),
    ensures
        gather(escapes(t), n) == t.take(n as int),
        is_text(t),
    decreases n,
{
    if n > 0 {
        lemma_words(t, (n - 1) as nat);
        assert(t.take(n as int) =~= t.take(n - 1) + seq![t[n - 1]]);
    } else {
        assert(gather(escapes(t), 0) =~= t.take(0));
    }
}

proof fn lemma_words_stay(t: Seq<char>)
    requires
        is_words(t),
    ensures
        escaped(t) == t,
        is_text(t),
{
    lemma_words(t, t.len());
    assert(t.take(t.len() as int) =~= t);
}

proof fn lemma_heading(kind: RelationKind)
    ensures
        is_words(heading_of(kind)),
{
    reveal_strlit("Imports");
    reveal_strlit("Calls");
    reveal_strlit("Called by");
    reveal_strlit("Implements");
    reveal_strlit("Inherits");
    reveal_strlit("Depends on");
    reveal_strlit("Member of");
}

proof fn lemma_titles()
    ensures
        is_words("Signature"@),
        is_words("Type"@),
        is_words("Location"@),
        is_words("Tags"@),
{
    reveal_strlit("Signature");
    reveal_strlit("Type");
    reveal_strlit("Location");
    reveal_strlit("Tags");
}

proof fn lemma_written_section(title: Seq<char>, last: Markup)
    requires
        is_words(title),
    ensures
        written_all(line(section(title, last))) == "<section><title>"@ + title + "</title>"@ + written(last) + "</section>\n"@,
{
    lemma_written_line(section(title, last));
    lemma_written_pair(element("title"@, text_in(title)), last);
    lemma_written_text(title);
    lemma_words_stay(title);
    lemma_section_literals();
    assert(written_all(line(section(title, last))) =~= "<section><title>"@ + title + "</title>"@ + written(last) + "</section>\n"@);
}

proof fn lemma_written_text_section(title: Seq<char>, tag: Seq<char>, t: Seq<char>)
    requires
        is_words(title),
    ensures
        written_all(line(text_section(title, tag, t))) == "<section><title>"@ + title + "</title>"@ + start_tag(tag, None) + escaped(t) + end_tag(tag) + "</section>\n"@,
{
    lemma_written_section(title, element(tag, text_in(t)));
    lemma_written_text(t);
    assert(written_all(line(text_section(title, tag, t))) =~= "<section><title>"@ + title + "</title>"@ + start_tag(tag, None) + escaped(t) + end_tag(tag) + "</section>\n"@);
}

proof fn lemma_written_gather(f: spec_fn(int) -> Seq<Markup>, g: spec_fn(int) -> Seq<char>, n: nat)
    requires
        forall|i: int| 0 <= i < n ==> written_all(#[trigger] f(i)) == g(i),
    ensures
        written_all(gather(f, n)) == gather(g, n),
    decreases n,
{
    if n > 0 {
        lemma_written_gather(f, g, (n - 1) as nat);
        lemma_written_parts(gather(f, (n - 1) as nat), f(n - 1));
    }
}

proof fn lemma_item_literals()
    ensures
        "<li>"@ == start_tag("li"@, None),
        "</li>\n"@ == end_tag("li"@) + seq!['\n'],
        "</title><ul>\n"@ == "</title>"@ + start_tag("ul"@, None) + seq!['\n'],
        "</ul></section>\n"@ == end_tag("ul"@) + "</section>\n"@,
{
    reveal_strlit("<li>");
    reveal_strlit("li");
    reveal_strlit("</li>\n");
    reveal_strlit("ul");
    reveal_strlit("</title>");
    reveal_strlit("</title><ul>\n");
    reveal_strlit("</section>\n");
    reveal_strlit("</ul></section>\n");
    assert("<li>"@ =~= start_tag("li"@, None));
    assert("</li>\n"@ =~= end_tag("li"@) + seq!['\n']);
    assert("</title><ul>\n"@ =~= "</title>"@ + start_tag("ul"@, None) + seq!['\n']);
    assert("</ul></section>\n"@ =~= end_tag("ul"@) + "</section>\n"@);
}

proof fn lemma_written_relations(c: Concept, k: int)
    ensures
        written_all(section_trees(c)(k)) == topic_relation_section(c, relation_at(k)),
{
    let kind = relation_at(k);
    let f = item_trees(c, kind);
    let g = topic_relation_items(c, kind);
    let n = c.relationships@.len();
    if has_kind(c.relationships@, kind) {
        lemma_item_literals();
        assert forall|i: int| 0 <= i < n implies written_all(#[trigger] f(i)) == g(i) by {
            if c.relationships@[i].kind == kind {
                let t = c.relationships@[i].target_display@;
                lemma_written_line(element("li"@, text_in(t)));
                lemma_written_text(t);
                assert(written_all(f(i)) =~= g(i));
            }
        }
        lemma_written_gather(f, g, n);
        lemma_written_one(line_feed());
        lemma_written_feed();
        lemma_written_parts(seq![line_feed()], gather(f, n));
        lemma_heading(kind);
        lemma_written_section(heading_of(kind), list_tree(c, kind));
        assert(written_all(section_trees(c)(k)) =~= topic_relation_section(c, kind));
    }
}

proof fn lemma_body_literals()
    ensures
        "<section><title>Type</title><p>"@ == "<section><title>"@ + "Type"@ + "</title>"@ + start_tag("p"@, None),
        "</p></section>\n"@ == end_tag("p"@) + "</section>\n"@,
        "</p></section>\n<section><title>Location</title><p>"@ == "</p></section>\n"@ + ("<section><title>"@ + "Location"@ + "</title>"@ + start_tag("p"@, None)),
        "<section><title>Tags</title><p>"@ == "<section><title>"@ + "Tags"@ + "</title>"@ + start_tag("p"@, None),
{
    reveal_strlit("<section><title>Type</title><p>");
    reveal_strlit("<section><title>");
    reveal_strlit("</title>");
    reveal_strlit("p");
    reveal_strlit("Type");
    reveal_strlit("Location");
    reveal_strlit("Tags");
    reveal_strlit("</section>\n");
    reveal_strlit("</p></section>\n");
    reveal_strlit("</p></section>\n<section><title>Location</title><p>");
    reveal_strlit("<section><title>Tags</title><p>");
    assert("<section><title>Type</title><p>"@ =~= "<section><title>"@ + "Type"@ + "</title>"@ + start_tag("p"@, None));
    assert("</p></section>\n"@ =~= end_tag("p"@) + "</section>\n"@);
    assert("</p></section>\n<section><title>Location</title><p>"@ =~= "</p></section>\n"@ + ("<section><title>"@ + "Location"@ + "</title>"@ + start_tag("p"@, None)));
    assert("<section><title>Tags</title><p>"@ =~= "<section><title>"@ + "Tags"@ + "</title>"@ + start_tag("p"@, None));
}

proof fn lemma_written_paragraph(title: Seq<char>, t: Seq<char>)
    requires
        is_words(title),
    ensures
        written_all(line(text_section(title, "p"@, t))) == ("<section><title>"@ + title + "</title>"@ + start_tag("p"@, None)) + escaped(t) + "</p></section>\n"@,
{
    lemma_written_text_section(title, "p"@, t);
    lemma_body_literals();
    assert(written_all(line(text_section(title, "p"@, t))) =~= ("<section><title>"@ + title + "</title>"@ + start_tag("p"@, None)) + escaped(t) + "</p></section>\n"@);
}

proof fn lemma_written_signature(t: Seq<char>)
    ensures
        written_all(line(text_section("Signature"@, "codeblock"@, t))) == "<section><title>Signature</title><codeblock>"@ + escaped(t) + "</codeblock></section>\n"@,
{
    lemma_titles();
    lemma_signature_literal();
    lemma_written_text_section("Signature"@, "codeblock"@, t);
    assert(written_all(line(text_section("Signature"@, "codeblock"@, t))) =~= "<section><title>Signature</title><codeblock>"@ + escaped(t) + "</codeblock></section>\n"@);
}

proof fn lemma_regroup_body(w: Seq<char>, f: Seq<char>, l: Seq<char>, a: Seq<char>, e: Seq<char>, m: Seq<char>, b: Seq<char>, t: Seq<char>, g: Seq<char>)
    ensures
        w + f + (l + a + e) + (m + b + e) + t + g == w + (f + l + a + (e + m) + b + e + t + g),
{
    assert(w + f + (l + a + e) + (m + b + e) + t + g =~= w + (f + l + a + (e + m) + b + e + t + g));
}

proof fn lemma_written_body(c: Concept)
    ensures
        written_all(body_trees(c)) == seq!['\n'] + topic_body(c),
{
    lemma_titles();
    lemma_body_literals();
    lemma_written_one(line_feed());
    lemma_written_feed();
    let s0 = seq![line_feed()];
    let s1 = signature_tree(c.signature);
    let s2 = line(text_section("Type"@, "p"@, type_label(c)));
    let s3 = line(text_section("Location"@, "p"@, location_text(c.location)));
    let s4 = tags_tree(texts(c.tags@));
    let s5 = gather(section_trees(c), 7);
    lemma_written_parts(s0, s1);
    lemma_written_parts(s0 + s1, s2);
    lemma_written_parts(s0 + s1 + s2, s3);
    lemma_written_parts(s0 + s1 + s2 + s3, s4);
    lemma_written_parts(s0 + s1 + s2 + s3 + s4, s5);
    match c.signature {
        Some(t) => {
            lemma_written_signature(t@);
        },
        None => {},
    }
    assert(written_all(s1) == framed_markup("<section><title>Signature</title><codeblock>"@, c.signature, "</codeblock></section>\n"@));
    lemma_written_paragraph("Type"@, type_label(c));
    lemma_written_paragraph("Location"@, location_text(c.location));
    lemma_written_paragraph("Tags"@, join(texts(c.tags@), ", "@));
    assert(written_all(s4) == topic_tags(texts(c.tags@)));
    assert forall|k: int| 0 <= k < 7 implies written_all(#[trigger] section_trees(c)(k)) == topic_relation_sections(c)(k) by {
        lemma_written_relations(c, k);
    }
    lemma_written_gather(section_trees(c), topic_relation_sections(c), 7);
    lemma_regroup_body(
        seq!['\n'],
        written_all(s1),
        "<section><title>Type</title><p>"@,
        escaped(type_label(c)),
        "</p></section>\n"@,
        "<section><title>"@ + "Location"@ + "</title>"@ + start_tag("p"@, None),
        escaped(location_text(c.location)),
        written_all(s4),
        written_all(s5),
    );
}

proof fn lemma_topic_literals()
    ensures
        "\">\n<title>"@ == "\">"@ + seq!['\n'] + start_tag("title"@, None),
        "</title>\n"@ == end_tag("title"@) + seq!['\n'],
        "<shortdesc>"@ == start_tag("shortdesc"@, None),
        "</shortdesc>\n"@ == end_tag("shortdesc"@) + seq!['\n'],
        "<body>\n"@ == start_tag("body"@, None) + seq!['\n'],
        "</body>\n</topic>\n"@ == end_tag("body"@) + seq!['\n'] + end_tag("topic"@) + "\n"@,
        "<topic id=\""@ == seq!['<'] + "topic"@ + " id=\""@,
{
    reveal_strlit("\">\n<title>");
    reveal_strlit("\">");
    reveal_strlit("title");
    reveal_strlit("</title>\n");
    reveal_strlit("shortdesc");
    reveal_strlit("<shortdesc>");
    reveal_strlit("</shortdesc>\n");
    reveal_strlit("body");
    reveal_strlit("<body>\n");
    reveal_strlit("</body>\n</topic>\n");
    reveal_strlit("topic");
    reveal_strlit("\n");
    reveal_strlit("<topic id=\"");
    reveal_strlit(" id=\"");
    assert("\">\n<title>"@ =~= "\">"@ + seq!['\n'] + start_tag("title"@, None));
    assert("</title>\n"@ =~= end_tag("title"@) + seq!['\n']);
    assert("<shortdesc>"@ =~= start_tag("shortdesc"@, None));
    assert("</shortdesc>\n"@ =~= end_tag("shortdesc"@) + seq!['\n']);
    assert("<body>\n"@ =~= start_tag("body"@, None) + seq!['\n']);
    assert("</body>\n</topic>\n"@ =~= end_tag("body"@) + seq!['\n'] + end_tag("topic"@) + "\n"@);
    assert("<topic id=\""@ =~= seq!['<'] + "topic"@ + " id=\""@);
}

proof fn lemma_regroup_topic(
    p: Seq<char>,
    h: Seq<char>,
    id: Seq<char>,
    q: Seq<char>,
    w: Seq<char>,
    st: Seq<char>,
    n: Seq<char>,
    et: Seq<char>,
    d: Seq<char>,
    sb: Seq<char>,
    b: Seq<char>,
    eb: Seq<char>,
    e: Seq<char>,
    last: Seq<char>,
)
    ensures
        p + h + id + (q + w + st) + n + (et + w) + d + (sb + w) + b + (eb + w + e + last) == p + (h + id + q + (w + (st + n + et + w) + d + (sb + (w + b) + eb + w)) + e) + last,
{
    let kids = w + (st + n + et + w) + d + (sb + (w + b) + eb + w);
    assert((w + st) + n + (et + w) + d + (sb + w) + b + (eb + w) =~= kids);
    assert((q + w + st) + n + (et + w) + d + (sb + w) + b + (eb + w) =~= q + ((w + st) + n + (et + w) + d + (sb + w) + b + (eb + w)));
    let mid = (q + w + st) + n + (et + w) + d + (sb + w) + b;
    assert(p + h + id + (q + w + st) + n + (et + w) + d + (sb + w) + b =~= p + h + id + mid);
    assert(mid + (eb + w) == q + kids);
    assert((p + h + id + mid) + (eb + w + e + last) =~= (p + h + id) + (mid + (eb + w)) + e + last);
    assert((p + h + id) + (q + kids) + e + last =~= p + (h + id + q + kids + e) + last);
}

/// A topic is its tree written out.
pub proof fn lemma_topic_is_written(c: Concept)
    ensures
        topic_of(c) == document(topic_tree(c)),
{
    lemma_topic_literals();
    let s0 = seq![line_feed()];
    let s1 = line(element("title"@, text_in(c.name@)));
    let s2 = description_tree(c.description);
    let s3 = line(element("body"@, body_trees(c)));
    lemma_written_parts(s0, s1);
    lemma_written_parts(s0 + s1, s2);
    lemma_written_parts(s0 + s1 + s2, s3);
    lemma_written_one(line_feed());
    lemma_written_feed();
    lemma_written_line(element("title"@, text_in(c.name@)));
    lemma_written_text(c.name@);
    match c.description {
        Some(t) => {
            lemma_written_line(element("shortdesc"@, text_in(t@)));
            lemma_written_text(t@);
            assert(written_all(s2) =~= framed_markup("<shortdesc>"@, c.description, "</shortdesc>\n"@));
        },
        None => {},
    }
    lemma_written_line(element("body"@, body_trees(c)));
    lemma_written_body(c);
    lemma_regroup_topic(
        TOPIC_PROLOG@,
        seq!['<'] + "topic"@ + " id=\""@,
        replaced(c.id@, '/', '-'),
        "\">"@,
        seq!['\n'],
        start_tag("title"@, None),
        escaped(c.name@),
        end_tag("title"@),
        written_all(s2),
        start_tag("body"@, None),
        topic_body(c),
        end_tag("body"@),
        end_tag("topic"@),
        "\n"@,
    );
}

/// A concept whose topic is read as it was written: its texts hold only
/// characters that XML keeps, and the topic is not too long.
pub open spec fn is_readable(c: Concept) -> bool {
    &&& is_id(c.id@)
    &&& is_text(c.name@)
    &&& c.description matches Some(t) ==> is_text(t@)
    &&& c.signature matches Some(t) ==> is_text(t@)
    &&& is_text(c.location.file@)
    &&& forall|i: int| 0 <= i < c.tags@.len() ==> is_text(#[trigger] c.tags@[i]@)
    &&& forall|i: int| 0 <= i < c.relationships@.len() ==> is_text((#[trigger] c.relationships@[i]).target_display@)
    &&& topic_of(c).len() < document_limit()
}

proof fn lemma_tags()
    ensures
        is_tag("topic"@),
        is_tag("title"@),
        is_tag("shortdesc"@),
        is_tag("body"@),
        is_tag("section"@),
        is_tag("codeblock"@),
        is_tag("p"@),
        is_tag("ul"@),
        is_tag("li"@),
{
    reveal_strlit("topic");
    reveal_strlit("title");
    reveal_strlit("shortdesc");
    reveal_strlit("body");
    reveal_strlit("section");
    reveal_strlit("codeblock");
    reveal_strlit("p");
    reveal_strlit("ul");
    reveal_strlit("li");
}

proof fn lemma_legal_one(a: Markup)
    requires
        is_legal(a),
    ensures
        all_legal(seq![a]),
{
    assert(seq![a].subrange(0, 0) =~= Seq::empty());
    assert(all_legal(Seq::<Markup>::empty()));
}

proof fn lemma_legal_pair(a: Markup, b: Markup)
    requires
        is_legal(a),
        is_legal(b),
        a is Element,
    ensures
        all_legal(seq![a, b]),
{
    lemma_legal_one(a);
    lemma_legal_one(b);
    lemma_legal_parts(seq![a], seq![b]);
    assert(seq![a] + seq![b] =~= seq![a, b]);
}

proof fn lemma_legal_text(t: Seq<char>)
    requires
        is_text(t),
    ensures
        all_legal(text_in(t)),
{
    if t.len() > 0 {
        lemma_legal_one(Markup::Text(t));
    }
}

proof fn lemma_legal_line(tag: Seq<char>, kids: Seq<Markup>)
    requires
        is_tag(tag),
        all_legal(kids),
    ensures
        is_legal(element(tag, kids)),
        all_legal(line(element(tag, kids))),
{
    assert(is_legal(line_feed()));
    lemma_legal_pair(element(tag, kids), line_feed());
}

proof fn lemma_legal_section(title: Seq<char>, last: Markup)
    requires
        is_words(title),
        is_legal(last),
    ensures
        all_legal(line(section(title, last))),
{
    lemma_tags();
    lemma_words_stay(title);
    lemma_legal_text(title);
    assert(is_legal(element("title"@, text_in(title))));
    lemma_legal_pair(element("title"@, text_in(title)), last);
    lemma_legal_line("section"@, seq![element("title"@, text_in(title)), last]);
}

proof fn lemma_legal_text_section(title: Seq<char>, tag: Seq<char>, t: Seq<char>)
    requires
        is_words(title),
        is_tag(tag),
        is_text(t),
    ensures
        all_legal(line(text_section(title, tag, t))),
{
    lemma_legal_text(t);
    lemma_legal_line(tag, text_in(t));
    lemma_legal_section(title, element(tag, text_in(t)));
}

/// The pieces can be written out, and a text does not begin them.
spec fn follows_text(ms: Seq<Markup>) -> bool {
    all_legal(ms) && (ms.len() > 0 ==> ms[0] is Element)
}

proof fn lemma_follows(a: Seq<Markup>, b: Seq<Markup>)
    requires
        all_legal(a),
        follows_text(b),
    ensures
        all_legal(a + b),
        a.len() > 0 ==> (a + b)[0] == a[0],
        a.len() == 0 ==> a + b == b,
{
    lemma_legal_parts(a, b);
    if a.len() == 0 {
        assert(a + b =~= b);
    }
}

proof fn lemma_legal_gather(f: spec_fn(int) -> Seq<Markup>, n: nat)
    requires
        forall|i: int| 0 <= i < n ==> follows_text(#[trigger] f(i)),
    ensures
        follows_text(gather(f, n)),
    decreases n,
{
    if n > 0 {
        lemma_legal_gather(f, (n - 1) as nat);
        assert(follows_text(f(n - 1)));
        lemma_follows(gather(f, (n - 1) as nat), f(n - 1));
    }
}

proof fn lemma_legal_relations(c: Concept, k: int)
    requires
        is_readable(c),
    ensures
        follows_text(section_trees(c)(k)),
{
    let kind = relation_at(k);
    let f = item_trees(c, kind);
    let n = c.relationships@.len();
    if has_kind(c.relationships@, kind) {
        lemma_tags();
        assert forall|i: int| 0 <= i < n implies follows_text(#[trigger] f(i)) by {
            if c.relationships@[i].kind == kind {
                lemma_legal_text(c.relationships@[i].target_display@);
                lemma_legal_line("li"@, text_in(c.relationships@[i].target_display@));
            }
        }
        lemma_legal_gather(f, n);
        lemma_legal_one(line_feed());
        lemma_follows(seq![line_feed()], gather(f, n));
        lemma_legal_line("ul"@, seq![line_feed()] + gather(f, n));
        lemma_heading(kind);
        lemma_legal_section(heading_of(kind), list_tree(c, kind));
    }
}

proof fn lemma_decimal_is_text(n: nat)
    ensures
        is_text(decimal(n)),
    decreases n,
{
    if n >= 10 {
        lemma_decimal_is_text(n / 10);
    }
}

proof fn lemma_join_is_text(parts: Seq<Seq<char>>)
    requires
        forall|i: int| 0 <= i < parts.len() ==> is_text(#[trigger] parts[i]),
    ensures
        is_text(join(parts, ", "@)),
    decreases parts.len(),
{
    reveal_strlit(", ");
    if parts.len() > 1 {
        lemma_join_is_text(parts.drop_last());
    }
}

proof fn lemma_labels_are_text(c: Concept)
    ensures
        is_text(type_label(c)),
{
    reveal_strlit("Rust");
    reveal_strlit("Python");
    reveal_strlit("Go");
    reveal_strlit("TypeScript");
    reveal_strlit("JavaScript");
    reveal_strlit("PHP");
    reveal_strlit("DITA");
    reveal_strlit("Other");
    assert(is_text(language_label(c.language)));
    reveal_strlit("Package");
    reveal_strlit("Module");
    reveal_strlit("Document");
    reveal_strlit("Struct");
    reveal_strlit("Class");
    reveal_strlit("Interface");
    reveal_strlit("Trait");
    reveal_strlit("Function");
    reveal_strlit("Method");
    reveal_strlit("Declaration");
    assert(is_text(kind_label(c.kind)));
    reveal_strlit(" ");
}

proof fn lemma_location_is_text(l: Location)
    requires
        is_text(l.file@),
    ensures
        is_text(location_text(l)),
{
    reveal_strlit("#L");
    reveal_strlit("-L");
    lemma_decimal_is_text(l.start_line as nat);
    lemma_decimal_is_text(l.end_line as nat);
}

proof fn lemma_legal_body(c: Concept)
    requires
        is_readable(c),
    ensures
        all_legal(body_trees(c)),
{
    lemma_titles();
    lemma_tags();
    let s0 = seq![line_feed()];
    let s1 = signature_tree(c.signature);
    let s2 = line(text_section("Type"@, "p"@, type_label(c)));
    let s3 = line(text_section("Location"@, "p"@, location_text(c.location)));
    let s4 = tags_tree(texts(c.tags@));
    let s5 = gather(section_trees(c), 7);
    lemma_legal_one(line_feed());
    match c.signature {
        Some(t) => {
            lemma_legal_text_section("Signature"@, "codeblock"@, t@);
        },
        None => {},
    }
    lemma_labels_are_text(c);
    lemma_legal_text_section("Type"@, "p"@, type_label(c));
    lemma_location_is_text(c.location);
    lemma_legal_text_section("Location"@, "p"@, location_text(c.location));
    lemma_join_is_text(texts(c.tags@));
    lemma_legal_text_section("Tags"@, "p"@, join(texts(c.tags@), ", "@));
    assert forall|k: int| 0 <= k < 7 implies follows_text(#[trigger] section_trees(c)(k)) by {
        lemma_legal_relations(c, k);
    }
    lemma_legal_gather(section_trees(c), 7);
    lemma_follows(s0, s1);
    lemma_follows(s0 + s1, s2);
    lemma_follows(s0 + s1 + s2, s3);
    lemma_follows(s0 + s1 + s2 + s3, s4);
    lemma_follows(s0 + s1 + s2 + s3 + s4, s5);
}

/// The tree of a readable concept can be written out.
pub proof fn lemma_topic_is_legal(c: Concept)
    requires
        is_readable(c),
    ensures
        is_legal(topic_tree(c)),
{
    lemma_tags();
    let s0 = seq![line_feed()];
    let s1 = line(element("title"@, text_in(c.name@)));
    let s2 = description_tree(c.description);
    let s3 = line(element("body"@, body_trees(c)));
    lemma_legal_one(line_feed());
    lemma_legal_text(c.name@);
    lemma_legal_line("title"@, text_in(c.name@));
    match c.description {
        Some(t) => {
            lemma_legal_text(t@);
            lemma_legal_line("shortdesc"@, text_in(t@));
        },
        None => {},
    }
    lemma_legal_body(c);
    lemma_legal_line("body"@, body_trees(c));
    lemma_follows(s0, s1);
    lemma_follows(s0 + s1, s2);
    lemma_follows(s0 + s1 + s2, s3);
    assert(is_id(replaced(c.id@, '/', '-')));
}

proof fn lemma_height_of_text(t: Seq<char>)
    ensures
        height_all(text_in(t)) == 0,
{
    reveal_with_fuel(height_all, 2);
    if t.len() > 0 {
        assert(text_in(t).subrange(0, 0) =~= Seq::empty());
    }
}

proof fn lemma_height_of_one(m: Markup)
    ensures
        height_all(seq![m]) == height(m),
{
    reveal_with_fuel(height_all, 2);
    assert(seq![m].subrange(0, 0) =~= Seq::empty());
}

proof fn lemma_height_of_pair(a: Markup, b: Markup)
    ensures
        height_all(seq![a, b]) == larger(height(a), height(b)),
{
    reveal_with_fuel(height_all, 3);
    assert(seq![a, b].subrange(0, 1) =~= seq![a]);
    assert(seq![a].subrange(0, 0) =~= Seq::empty());
}

proof fn lemma_height_of_text_section(title: Seq<char>, tag: Seq<char>, t: Seq<char>)
    ensures
        height_all(line(text_section(title, tag, t))) == 2,
{
    lemma_height_of_text(title);
    lemma_height_of_text(t);
    lemma_height_of_pair(element("title"@, text_in(title)), element(tag, text_in(t)));
    lemma_height_of_pair(text_section(title, tag, t), line_feed());
}

proof fn lemma_height_gathered(f: spec_fn(int) -> Seq<Markup>, n: nat, most: nat)
    requires
        forall|i: int| 0 <= i < n ==> height_all(#[trigger] f(i)) <= most,
    ensures
        height_all(gather(f, n)) <= most,
    decreases n,
{
    if n > 0 {
        lemma_height_gathered(f, (n - 1) as nat, most);
        assert(height_all(f(n - 1)) <= most);
        lemma_height_parts(gather(f, (n - 1) as nat), f(n - 1));
    }
}

proof fn lemma_height_of_relations(c: Concept, k: int)
    ensures
        height_all(section_trees(c)(k)) <= 3,
{
    let kind = relation_at(k);
    let f = item_trees(c, kind);
    let n = c.relationships@.len();
    if has_kind(c.relationships@, kind) {
        assert forall|i: int| 0 <= i < n implies height_all(#[trigger] f(i)) <= 1 by {
            if c.relationships@[i].kind == kind {
                let t = c.relationships@[i].target_display@;
                lemma_height_of_text(t);
                lemma_height_of_pair(element("li"@, text_in(t)), line_feed());
            }
        }
        lemma_height_gathered(f, n, 1);
        lemma_height_of_one(line_feed());
        lemma_height_parts(seq![line_feed()], gather(f, n));
        lemma_height_of_text(heading_of(kind));
        lemma_height_of_pair(element("title"@, text_in(heading_of(kind))), list_tree(c, kind));
        lemma_height_of_pair(section(heading_of(kind), list_tree(c, kind)), line_feed());
    }
}

/// The elements of a topic lie in each other five deep at most.
pub proof fn lemma_topic_is_shallow(c: Concept)
    ensures
        height(topic_tree(c)) <= 5,
{
    let s0 = seq![line_feed()];
    let b1 = signature_tree(c.signature);
    let b2 = line(text_section("Type"@, "p"@, type_label(c)));
    let b3 = line(text_section("Location"@, "p"@, location_text(c.location)));
    let b4 = tags_tree(texts(c.tags@));
    let b5 = gather(section_trees(c), 7);
    lemma_height_of_one(line_feed());
    match c.signature {
        Some(t) => lemma_height_of_text_section("Signature"@, "codeblock"@, t@),
        None => {},
    }
    lemma_height_of_text_section("Type"@, "p"@, type_label(c));
    lemma_height_of_text_section("Location"@, "p"@, location_text(c.location));
    lemma_height_of_text_section("Tags"@, "p"@, join(texts(c.tags@), ", "@));
    assert forall|k: int| 0 <= k < 7 implies height_all(#[trigger] section_trees(c)(k)) <= 3 by {
        lemma_height_of_relations(c, k);
    }
    lemma_height_gathered(section_trees(c), 7, 3);
    lemma_height_parts(s0, b1);
    lemma_height_parts(s0 + b1, b2);
    lemma_height_parts(s0 + b1 + b2, b3);
    lemma_height_parts(s0 + b1 + b2 + b3, b4);
    lemma_height_parts(s0 + b1 + b2 + b3 + b4, b5);
    let t1 = line(element("title"@, text_in(c.name@)));
    let t2 = description_tree(c.description);
    let t3 = line(element("body"@, body_trees(c)));
    lemma_height_of_text(c.name@);
    lemma_height_of_pair(element("title"@, text_in(c.name@)), line_feed());
    match c.description {
        Some(t) => {
            lemma_height_of_text(t@);
            lemma_height_of_pair(element("shortdesc"@, text_in(t@)), line_feed());
        },
        None => {},
    }
    lemma_height_of_pair(element("body"@, body_trees(c)), line_feed());
    lemma_height_parts(s0, t1);
    lemma_height_parts(s0 + t1, t2);
    lemma_height_parts(s0 + t1 + t2, t3);
}

proof fn lemma_first_child(nodes: Seq<NodeView>, tag: Seq<char>, k: int, n: nat)
    requires
        0 <= k < n,
        is_child(nodes, tag, k),
        forall|j: int| 0 <= j < k ==> !is_child(nodes, tag, j),
    ensures
        first_child(nodes, tag, n) == Some(k),
    decreases n,
{
    if n == k + 1 {
        lemma_no_child(nodes, tag, k as nat);
    } else {
        lemma_first_child(nodes, tag, k, (n - 1) as nat);
    }
}

proof fn lemma_no_child(nodes: Seq<NodeView>, tag: Seq<char>, n: nat)
    requires
        forall|j: int| 0 <= j < n ==> !is_child(nodes, tag, j),
    ensures
        first_child(nodes, tag, n) is None,
    decreases n,
{
    if n > 0 {
        lemma_no_child(nodes, tag, (n - 1) as nat);
    }
}

/// The node for a line feed that lies so deep.
spec fn feed_node(depth: nat) -> NodeView {
    NodeView { depth, tag: None, id: None, text: Some(seq!['\n']) }
}

proof fn lemma_nodes_one(m: Markup, depth: nat)
    ensures
        nodes_of_all(seq![m], depth) == nodes_of(m, depth),
{
    reveal_with_fuel(nodes_of_all, 2);
    assert(seq![m].subrange(0, 0) =~= Seq::empty());
    assert(Seq::<NodeView>::empty() + nodes_of(m, depth) =~= nodes_of(m, depth));
}

proof fn lemma_nodes_line(m: Markup, depth: nat)
    ensures
        nodes_of_all(line(m), depth) == nodes_of(m, depth).push(feed_node(depth)),
{
    lemma_nodes_one(m, depth);
    lemma_nodes_one(line_feed(), depth);
    lemma_nodes_parts(seq![m], seq![line_feed()], depth);
    assert(seq![m] + seq![line_feed()] =~= line(m));
    assert(nodes_of_all(line(m), depth) =~= nodes_of(m, depth).push(feed_node(depth)));
}

proof fn lemma_nodes_text(t: Seq<char>, depth: nat)
    ensures
        nodes_of_all(text_in(t), depth) == if t.len() == 0 {
            Seq::<NodeView>::empty()
        } else {
            seq![NodeView { depth, tag: None, id: None, text: Some(t) }]
        },
{
    if t.len() > 0 {
        lemma_nodes_one(Markup::Text(t), depth);
    }
}

/// The nodes of an element that holds a text, and of the line feed after it.
spec fn text_nodes(tag: Seq<char>, t: Seq<char>) -> Seq<NodeView> {
    let first = seq![NodeView { depth: 3, tag: Some(tag), id: None, text: None }];
    if t.len() == 0 {
        first.push(feed_node(3))
    } else {
        first.push(NodeView { depth: 4, tag: None, id: None, text: Some(t) }).push(feed_node(3))
    }
}

proof fn lemma_nodes_text_line(tag: Seq<char>, t: Seq<char>)
    ensures
        nodes_of_all(line(element(tag, text_in(t))), 3) == text_nodes(tag, t),
{
    lemma_nodes_line(element(tag, text_in(t)), 3);
    lemma_nodes_text(t, 4);
    assert(nodes_of_all(line(element(tag, text_in(t))), 3) =~= text_nodes(tag, t));
}

proof fn lemma_text_in_child(nodes: Seq<NodeView>, k: int, tag: Seq<char>, t: Seq<char>)
    requires
        0 <= k,
        k + text_nodes(tag, t).len() <= nodes.len(),
        nodes.subrange(k, k + text_nodes(tag, t).len()) == text_nodes(tag, t),
    ensures
        texts_in(nodes, k, k + 1) == t,
{
    let own = text_nodes(tag, t);
    let part = nodes.subrange(k, k + own.len());
    assert(part[0] == nodes[k]);
    assert(part[1] == nodes[k + 1]);
    reveal_with_fuel(texts_in, 3);
    if t.len() > 0 {
        assert(part[2] == nodes[k + 2]);
        assert(t + Seq::<char>::empty() =~= t);
    } else {
        assert(t =~= Seq::<char>::empty());
    }
}

/// The description of a concept as a value.
pub open spec fn description_of(c: Concept) -> Option<Seq<char>> {
    match c.description {
        Some(t) => Some(t@),
        None => None,
    }
}

/// The nodes of a topic, in parts.
spec fn topic_nodes(c: Concept) -> Seq<NodeView> {
    let root = NodeView { depth: 2, tag: Some("topic"@), id: Some(replaced(c.id@, '/', '-')), text: None };
    let body = nodes_of(element("body"@, body_trees(c)), 3).push(feed_node(3));
    match c.description {
        Some(t) => seq![root, feed_node(3)] + text_nodes("title"@, c.name@) + text_nodes("shortdesc"@, t@) + body,
        None => seq![root, feed_node(3)] + text_nodes("title"@, c.name@) + body,
    }
}

proof fn lemma_topic_nodes(c: Concept)
    ensures
        nodes_of(topic_tree(c), 2) == topic_nodes(c),
{
    let s0 = seq![line_feed()];
    let s1 = line(element("title"@, text_in(c.name@)));
    let s2 = description_tree(c.description);
    let s3 = line(element("body"@, body_trees(c)));
    lemma_nodes_parts(s0, s1, 3);
    lemma_nodes_parts(s0 + s1, s2, 3);
    lemma_nodes_parts(s0 + s1 + s2, s3, 3);
    lemma_nodes_one(line_feed(), 3);
    lemma_nodes_text_line("title"@, c.name@);
    match c.description {
        Some(t) => {
            lemma_nodes_text_line("shortdesc"@, t@);
        },
        None => {},
    }
    lemma_nodes_line(element("body"@, body_trees(c)), 3);
    assert(nodes_of(topic_tree(c), 2) =~= topic_nodes(c));
}

proof fn lemma_title_is_read(c: Concept)
    ensures
        child_text(topic_nodes(c), "title"@) == Some(c.name@),
{
    let nodes = topic_nodes(c);
    let own = text_nodes("title"@, c.name@);
    assert(nodes.subrange(2, 2int + own.len()) =~= own);
    assert(nodes[2] == own[0]);
    lemma_text_in_child(nodes, 2, "title"@, c.name@);
    lemma_first_child(nodes, "title"@, 2, nodes.len());
}

proof fn lemma_description_is_read(c: Concept)
    ensures
        child_text(topic_nodes(c), "shortdesc"@) == description_of(c),
{
    let nodes = topic_nodes(c);
    let title = text_nodes("title"@, c.name@);
    let k: int = 2int + title.len();
    let tag = "shortdesc"@;
    assert("title"@ != "shortdesc"@ && "body"@ != "shortdesc"@) by {
        reveal_strlit("title");
        reveal_strlit("body");
        reveal_strlit("shortdesc");
        assert("title"@.len() == 5 && "body"@.len() == 4 && "shortdesc"@.len() == 9);
    }
    assert forall|j: int| 0 <= j < k implies !is_child(nodes, tag, j) by {
        if j >= 2 {
            assert(nodes[j] == title[j - 2]);
        }
    }
    match c.description {
        Some(t) => {
            let own = text_nodes(tag, t@);
            assert(nodes.subrange(k, k + own.len()) =~= own);
            assert(nodes[k] == own[0]);
            lemma_text_in_child(nodes, k, tag, t@);
            lemma_first_child(nodes, tag, k, nodes.len());
        },
        None => {
            let body = element("body"@, body_trees(c));
            let inner = nodes_of(body, 3);
            assert forall|j: int| 0 <= j < nodes.len() implies !is_child(nodes, tag, j) by {
                if k <= j < k + inner.len() {
                    assert(nodes[j] == inner[j - k]);
                    lemma_nodes_lie_deep(body, 3, j - k);
                }
            }
            lemma_no_child(nodes, tag, nodes.len());
        },
    }
}

/// What is read of the topic of a concept: its id, its title and its
/// description are those of the concept.
pub proof fn lemma_topic_is_read(c: Concept)
    ensures
        nodes_of(topic_tree(c), 2).len() > 0,
        nodes_of(topic_tree(c), 2)[0].id == Some(replaced(c.id@, '/', '-')),
        child_text(nodes_of(topic_tree(c), 2), "title"@) == Some(c.name@),
        child_text(nodes_of(topic_tree(c), 2), "shortdesc"@) == description_of(c),
{
    lemma_topic_nodes(c);
    lemma_title_is_read(c);
    lemma_description_is_read(c);
}

}
