//! A bundle as a site of HTML pages.

use vstd::prelude::*;
use crate::bundle::{BundleIds, OutputFile};
use crate::bundle::file_views;
use crate::model::{Concept, RelationKind};
use crate::order::gather;
use crate::render::{any_of_kind, capitalize, contains_members, escape_markup, group_by_kind_dir, push_if, relation_kind_at, relative_link, Group};
use crate::render::{capitalized, dir_for, escaped, group_values, grouped, has_kind, heading_of, in_bundle, link_between, location_text, only_if, parts_of, plain, relation_at, type_label};
use crate::text::{decimal_text, join_texts};
use crate::text::{decimal, join, texts};

verus! {

/// The style of every page.
pub const STYLE: &'static str = "<style>\n:root { color-scheme: light dark; }\nbody { font-family: -apple-system, BlinkMacSystemFont, \"Segoe UI\", Helvetica, Arial, sans-serif; max-width: 860px; margin: 2rem auto; padding: 0 1rem; line-height: 1.5; }\nnav { font-size: 0.9rem; margin-bottom: 1.5rem; opacity: 0.8; }\nnav a { color: inherit; }\nh1 { margin-bottom: 0.25rem; }\n.type { opacity: 0.7; margin-top: 0; font-size: 0.9rem; text-transform: uppercase; letter-spacing: 0.03em; }\n.visibility { display: inline-block; background: #8882; padding: 0.1rem 0.5rem; border-radius: 0.3rem; font-size: 0.8rem; }\npre { background: #8881; padding: 0.75rem 1rem; border-radius: 0.4rem; overflow-x: auto; }\n.resource, .tags { font-size: 0.85rem; opacity: 0.7; }\nul { padding-left: 1.25rem; }\na { color: #2563eb; text-decoration: none; }\na:hover { text-decoration: underline; }\n</style>\n";

/// The name of a directory's index. No concept can have it as its own, since
/// no identifier holds the sign that it begins with.
pub const DIR_INDEX_NAME: &'static str = "@index";

/// A page with the title and the body.
pub open spec fn html_page_of(title: Seq<char>, body: Seq<char>) -> Seq<char> {
    "<!doctype html>\n<html lang=\"en\">\n<head>\n<meta charset=\"utf-8\">\n<title>"@ + title + "</title>\n"@ + STYLE@ + "</head>\n<body>\n"@ + body + "</body>\n</html>\n"@
}

/// A page with the title and the body.
pub fn html_page(title: &str, body: &str) -> (r: String)
    ensures
        r@ == html_page_of(title@, body@),
{
    let mut out = "<!doctype html>\n<html lang=\"en\">\n<head>\n<meta charset=\"utf-8\">\n<title>".to_owned();
    out.append(title);
    out.append("</title>\n");
    out.append(STYLE);
    out.append("</head>\n<body>\n");
    out.append(body);
    out.append("</body>\n</html>\n");
    out
}

/// A list item that links to a concept and says what it is.
pub open spec fn member_item(from: Seq<char>, c: Concept) -> Seq<char> {
    "<li><a href=\""@ + link_between(from, c.id@, "html"@) + "\">"@ + escaped(c.name@) + "</a> \u{2014} "@ + escaped(type_label(c)) + "</li>\n"@
}

/// The list items for concepts.
pub open spec fn member_items(from: Seq<char>, cs: Seq<Concept>) -> spec_fn(int) -> Seq<char> {
    |i: int| member_item(from, cs[i])
}

/// Puts list items for the concepts.
fn push_members(out: &mut String, from: &str, members: &Vec<&Concept>)
    ensures
        final(out)@ == old(out)@ + gather(member_items(from@, plain(members@)), members@.len()),
{
    let ghost ms = plain(members@);
    let ghost f = member_items(from@, ms);
    let ghost first = out@;
    assert(out@ =~= first + gather(f, 0));
    for i in 0..members.len()
        invariant
            ms == plain(members@),
            f == member_items(from@, ms),
            out@ == first + gather(f, i as nat),
    {
        let c = members[i];
        let ghost before = out@;
        out.append("<li><a href=\"");
        out.append(relative_link(from, c.id.as_str(), "html").as_str());
        out.append("\">");
        out.append(escape_markup(c.name.as_str()).as_str());
        out.append("</a> \u{2014} ");
        out.append(escape_markup(c.frontmatter_type().as_str()).as_str());
        out.append("</li>\n");
        assert(ms[i as int] == *c);
        assert(out@ =~= before + member_item(from@, *c));
        assert(out@ =~= first + gather(f, (i + 1) as nat));
    }
}

/// A section with links to concepts; nothing where there are none.
pub open spec fn link_section(heading: Seq<char>, members: Seq<Concept>, from: Seq<char>) -> Seq<char> {
    if members.len() == 0 {
        Seq::empty()
    } else {
        "<h2>"@ + heading + "</h2>\n<ul>\n"@ + gather(member_items(from, members), members.len()) + "</ul>\n"@
    }
}

/// Puts a section with links to concepts.
fn render_link_section(out: &mut String, heading: &str, members: &Vec<&Concept>, from: &str)
    ensures
        final(out)@ == old(out)@ + link_section(heading@, plain(members@), from@),
{
    if members.len() == 0 {
        assert(out@ =~= old(out)@ + Seq::empty());
        return;
    }
    out.append("<h2>");
    out.append(heading);
    out.append("</h2>\n<ul>\n");
    push_members(out, from, members);
    out.append("</ul>\n");
    assert(out@ =~= old(out)@ + link_section(heading@, plain(members@), from@));
}

/// The list item for a relationship: a link where its target is in the bundle,
/// else only its name.
pub open spec fn html_relation_item(cs: Seq<Concept>, from: Seq<char>, target: Seq<char>, display: Seq<char>) -> Seq<char> {
    if in_bundle(cs, target) {
        "<li><a href=\""@ + link_between(from, target, "html"@) + "\">"@ + escaped(display) + "</a></li>\n"@
    } else {
        "<li><code>"@ + escaped(display) + "</code></li>\n"@
    }
}

/// The list items for a concept's relationships of the kind.
pub open spec fn html_relation_items(cs: Seq<Concept>, c: Concept, kind: RelationKind) -> spec_fn(int) -> Seq<char> {
    |i: int| if c.relationships@[i].kind == kind {
        html_relation_item(cs, c.id@, c.relationships@[i].target@, c.relationships@[i].target_display@)
    } else {
        Seq::empty()
    }
}

/// The section on a concept's relationships of the kind; nothing where there
/// is none.
pub open spec fn html_relation_section(cs: Seq<Concept>, c: Concept, kind: RelationKind) -> Seq<char> {
    if has_kind(c.relationships@, kind) {
        "<h2>"@ + heading_of(kind) + "</h2>\n<ul>\n"@ + gather(html_relation_items(cs, c, kind), c.relationships@.len()) + "</ul>\n"@
    } else {
        Seq::empty()
    }
}

/// The sections on a concept's relationships.
pub open spec fn html_relation_sections(cs: Seq<Concept>, c: Concept) -> spec_fn(int) -> Seq<char> {
    |k: int| html_relation_section(cs, c, relation_at(k))
}

/// Puts the section on a concept's relationships of the kind.
fn push_relation_section(out: &mut String, known: &BundleIds, concept: &Concept, kind: RelationKind, cs: Ghost<Seq<Concept>>)
    requires
        known.is_for(cs@),
    ensures
        final(out)@ == old(out)@ + html_relation_section(cs@, *concept, kind),
{
    let rels = &concept.relationships;
    let ghost f = html_relation_items(cs@, *concept, kind);
    if !any_of_kind(rels, kind) {
        assert(out@ =~= old(out)@ + Seq::empty());
        return;
    }
    out.append("<h2>");
    out.append(kind.label());
    out.append("</h2>\n<ul>\n");
    let ghost first = out@;
    assert(out@ =~= first + gather(f, 0));
    for i in 0..rels.len()
        invariant
            known.is_for(cs@),
            *rels == concept.relationships,
            f == html_relation_items(cs@, *concept, kind),
            out@ == first + gather(f, i as nat),
    {
        let ghost before = out@;
        if rels[i].kind == kind {
            let shown = escape_markup(rels[i].target_display.as_str());
            if known.contains(rels[i].target.as_str(), cs) {
                out.append("<li><a href=\"");
                out.append(relative_link(concept.id.as_str(), rels[i].target.as_str(), "html").as_str());
                out.append("\">");
                out.append(shown.as_str());
                out.append("</a></li>\n");
            } else {
                out.append("<li><code>");
                out.append(shown.as_str());
                out.append("</code></li>\n");
            }
        }
        assert(out@ =~= before + f(i as int));
        assert(out@ =~= first + gather(f, (i + 1) as nat));
    }
    out.append("</ul>\n");
    assert(out@ =~= old(out)@ + html_relation_section(cs@, *concept, kind));
}

/// The optional text, escaped, between two others.
pub open spec fn framed_markup(before: Seq<char>, text: Option<String>, after: Seq<char>) -> Seq<char> {
    match text {
        Some(t) => before + escaped(t@) + after,
        None => Seq::empty(),
    }
}

/// Puts the optional text, escaped, between two others.
pub fn push_framed_markup(out: &mut String, before: &str, text: &Option<String>, after: &str)
    ensures
        final(out)@ == old(out)@ + framed_markup(before@, *text, after@),
{
    match text {
        Some(t) => {
            out.append(before);
            out.append(escape_markup(t.as_str()).as_str());
            out.append(after);
            assert(out@ =~= old(out)@ + framed_markup(before@, *text, after@));
        },
        None => {
            assert(out@ =~= old(out)@ + Seq::empty());
        },
    }
}

/// The tags of a concept, escaped.
pub open spec fn escaped_all(v: Seq<Seq<char>>) -> Seq<Seq<char>> {
    v.map_values(|s: Seq<char>| escaped(s))
}

/// The line on the tags; nothing where there are none.
pub open spec fn tags_line(tags: Seq<Seq<char>>) -> Seq<char> {
    if tags.len() == 0 {
        Seq::empty()
    } else {
        "<p class=\"tags\">Tags: "@ + join(escaped_all(tags), ", "@) + "</p>\n"@
    }
}

/// Puts the line on the tags.
fn push_tags(out: &mut String, tags: &Vec<String>)
    ensures
        final(out)@ == old(out)@ + tags_line(texts(tags@)),
{
    if tags.len() == 0 {
        assert(out@ =~= old(out)@ + Seq::empty());
        return;
    }
    let mut shown: Vec<String> = Vec::new();
    for i in 0..tags.len()
        invariant
            shown.len() == i,
            forall|k: int| 0 <= k < i ==> (#[trigger] shown@[k])@ == escaped(tags@[k]@),
    {
        shown.push(escape_markup(tags[i].as_str()));
    }
    assert(texts(shown@) =~= escaped_all(texts(tags@)));
    out.append("<p class=\"tags\">Tags: ");
    out.append(join_texts(&shown, ", ").as_str());
    out.append("</p>\n");
    assert(out@ =~= old(out)@ + tags_line(texts(tags@)));
}

/// The head of a concept's page: where it stands in the site, its name, and
/// what it is.
pub open spec fn page_head(c: Concept) -> Seq<char> {
    "<nav><a href=\""@ + link_between(c.id@, "index"@, "html"@) + "\">Home</a> / <a href=\""@ + link_between(c.id@, dir_for(c.kind) + "/"@ + DIR_INDEX_NAME@, "html"@) + "\">"@ + escaped(
        dir_for(c.kind),
    ) + "</a></nav>\n<h1>"@ + escaped(c.name@) + "</h1>\n<p class=\"type\">"@ + escaped(type_label(c)) + "</p>\n"@
}

/// The body of a concept's page.
pub open spec fn html_body(cs: Seq<Concept>, c: Concept) -> Seq<char> {
    page_head(c) + only_if(!c.is_public, "<p><span class=\"visibility\">private</span></p>\n"@) + framed_markup("<pre><code>"@, c.signature, "</code></pre>\n"@) + framed_markup(
        "<p>"@,
        c.description,
        "</p>\n"@,
    ) + tags_line(texts(c.tags@)) + link_section("Contains"@, parts_of(c, cs, cs.len()), c.id@) + gather(html_relation_sections(cs, c), 7) + "<p class=\"resource\">Source: "@ + escaped(
        location_text(c.location),
    ) + "</p>\n"@
}

/// The page of a concept.
pub open spec fn concept_html(cs: Seq<Concept>, c: Concept) -> Seq<char> {
    html_page_of(escaped(c.name@) + " \u{2014} "@ + escaped(type_label(c)), html_body(cs, c))
}

/// The head of a concept's page.
fn render_head(concept: &Concept) -> (r: String)
    ensures
        r@ == page_head(*concept),
{
    let dir = concept.kind.bundle_dir();
    let mut kind_index = dir.to_owned();
    kind_index.append("/");
    kind_index.append(DIR_INDEX_NAME);
    let mut out = "<nav><a href=\"".to_owned();
    out.append(relative_link(concept.id.as_str(), "index", "html").as_str());
    out.append("\">Home</a> / <a href=\"");
    out.append(relative_link(concept.id.as_str(), kind_index.as_str(), "html").as_str());
    out.append("\">");
    out.append(escape_markup(dir).as_str());
    out.append("</a></nav>\n<h1>");
    out.append(escape_markup(concept.name.as_str()).as_str());
    out.append("</h1>\n<p class=\"type\">");
    out.append(escape_markup(concept.frontmatter_type().as_str()).as_str());
    out.append("</p>\n");
    out
}

/// The page of a concept.
pub fn render_concept_html(concept: &Concept, all: &Vec<Concept>, known: &BundleIds) -> (r: String)
    requires
        known.is_for(all@),
    ensures
        r@ == concept_html(all@, *concept),
{
    let ghost cs = all@;
    let ghost f = html_relation_sections(cs, *concept);
    let mut body = render_head(concept);
    push_if(&mut body, !concept.is_public, "<p><span class=\"visibility\">private</span></p>\n");
    push_framed_markup(&mut body, "<pre><code>", &concept.signature, "</code></pre>\n");
    push_framed_markup(&mut body, "<p>", &concept.description, "</p>\n");
    push_tags(&mut body, &concept.tags);
    let parts = contains_members(concept, all);
    render_link_section(&mut body, "Contains", &parts, concept.id.as_str());
    let ghost first = body@;
    assert(body@ =~= first + gather(f, 0));
    for k in 0..7usize
        invariant
            cs == all@,
            known.is_for(cs),
            f == html_relation_sections(cs, *concept),
            body@ == first + gather(f, k as nat),
    {
        push_relation_section(&mut body, known, concept, relation_kind_at(k), Ghost(cs));
        assert(body@ =~= first + gather(f, (k + 1) as nat));
    }
    body.append("<p class=\"resource\">Source: ");
    body.append(escape_markup(concept.location.describe().as_str()).as_str());
    body.append("</p>\n");
    assert(body@ == html_body(cs, *concept));
    let mut title = escape_markup(concept.name.as_str());
    title.append(" \u{2014} ");
    title.append(escape_markup(concept.frontmatter_type().as_str()).as_str());
    html_page(title.as_str(), body.as_str())
}

/// The index of a directory.
pub open spec fn dir_index_html(dir: Seq<char>, entries: Seq<Concept>) -> Seq<char> {
    let at = dir + "/"@ + DIR_INDEX_NAME@;
    html_page_of(
        capitalized(dir),
        "<nav><a href=\""@ + link_between(at, "index"@, "html"@) + "\">Home</a></nav>\n<h1>"@ + escaped(capitalized(dir)) + "</h1>\n<ul>\n"@ + gather(member_items(at, entries), entries.len()) + "</ul>\n"@,
    )
}

/// The index of a directory.
pub fn render_dir_index_html(group: &Group) -> (r: String)
    ensures
        r@ == dir_index_html(group.dir@, plain(group.entries@)),
{
    let mut at = group.dir.to_owned();
    at.append("/");
    at.append(DIR_INDEX_NAME);
    let title = capitalize(group.dir);
    let mut body = "<nav><a href=\"".to_owned();
    body.append(relative_link(at.as_str(), "index", "html").as_str());
    body.append("\">Home</a></nav>\n<h1>");
    body.append(escape_markup(title.as_str()).as_str());
    body.append("</h1>\n<ul>\n");
    push_members(&mut body, at.as_str(), &group.entries);
    body.append("</ul>\n");
    html_page(title.as_str(), body.as_str())
}

/// An entry of the root's index.
pub open spec fn html_root_entry(dir: Seq<char>, count: nat) -> Seq<char> {
    "<li><a href=\""@ + dir + "/"@ + DIR_INDEX_NAME@ + ".html\">"@ + escaped(capitalized(dir)) + "</a> ("@ + decimal(count) + ")</li>\n"@
}

/// The entries of the root's index.
pub open spec fn html_root_entries(groups: Seq<(Seq<char>, Seq<Concept>)>) -> spec_fn(int) -> Seq<char> {
    |k: int| html_root_entry(groups[k].0, groups[k].1.len())
}

/// The index of the whole site.
pub open spec fn root_index_html(groups: Seq<(Seq<char>, Seq<Concept>)>) -> Seq<char> {
    html_page_of("Knowledge Base"@, "<h1>Knowledge Base</h1>\n<ul>\n"@ + gather(html_root_entries(groups), groups.len()) + "</ul>\n"@)
}

/// The index of the whole site.
pub fn render_root_index_html(groups: &Vec<Group>) -> (r: String)
    ensures
        r@ == root_index_html(group_values(groups@)),
{
    let ghost gs = group_values(groups@);
    let ghost f = html_root_entries(gs);
    let mut body = "<h1>Knowledge Base</h1>\n<ul>\n".to_owned();
    let ghost first = body@;
    assert(body@ =~= first + gather(f, 0));
    for k in 0..groups.len()
        invariant
            gs == group_values(groups@),
            f == html_root_entries(gs),
            body@ == first + gather(f, k as nat),
    {
        let g = &groups[k];
        let ghost before = body@;
        body.append("<li><a href=\"");
        body.append(g.dir);
        body.append("/");
        body.append(DIR_INDEX_NAME);
        body.append(".html\">");
        body.append(escape_markup(capitalize(g.dir).as_str()).as_str());
        body.append("</a> (");
        body.append(decimal_text(g.entries.len()).as_str());
        body.append(")</li>\n");
        assert(gs[k as int] == (g.dir@, plain(g.entries@)));
        assert(body@ =~= before + html_root_entry(g.dir@, g.entries@.len()));
        assert(body@ =~= first + gather(f, (k + 1) as nat));
    }
    body.append("</ul>\n");
    html_page("Knowledge Base", body.as_str())
}

/// The pages of the first `n` concepts.
pub open spec fn html_pages(cs: Seq<Concept>, n: nat) -> Seq<(Seq<char>, Seq<char>)>
    decreases n,
{
    if n == 0 {
        Seq::empty()
    } else {
        html_pages(cs, (n - 1) as nat).push((cs[n - 1].id@ + ".html"@, concept_html(cs, cs[n - 1])))
    }
}

/// The indexes of the first `n` directories.
pub open spec fn html_dir_indexes(groups: Seq<(Seq<char>, Seq<Concept>)>, n: nat) -> Seq<(Seq<char>, Seq<char>)>
    decreases n,
{
    if n == 0 {
        Seq::empty()
    } else {
        html_dir_indexes(groups, (n - 1) as nat).push((groups[n - 1].0 + "/"@ + DIR_INDEX_NAME@ + ".html"@, dir_index_html(groups[n - 1].0, groups[n - 1].1)))
    }
}

/// The files of the site.
pub open spec fn site_of(cs: Seq<Concept>) -> Seq<(Seq<char>, Seq<char>)> {
    (html_pages(cs, cs.len()) + html_dir_indexes(grouped(cs), grouped(cs).len())).push(("index.html"@, root_index_html(grouped(cs))))
}

/// The files of the site: a page for each concept, an index for each
/// directory, and one for the whole.
pub fn generate_html(concepts: &Vec<Concept>) -> (r: Vec<OutputFile>)
    ensures
        file_views(r@) == site_of(concepts@),
{
    let ghost cs = concepts@;
    let known = BundleIds::new(concepts);
    let mut out: Vec<OutputFile> = Vec::new();
    assert(file_views(out@) =~= Seq::empty());
    for i in 0..concepts.len()
        invariant
            cs == concepts@,
            known.is_for(cs),
            file_views(out@) == html_pages(cs, i as nat),
    {
        let ghost before = out@;
        let mut path = concepts[i].id.clone();
        path.append(".html");
        let file = OutputFile { path, content: render_concept_html(&concepts[i], concepts, &known) };
        out.push(file);
        assert(file_views(out@) =~= file_views(before).push((file.path@, file.content@)));
    }
    let ghost first = file_views(out@);
    let groups = group_by_kind_dir(concepts);
    let ghost gs = grouped(cs);
    assert(first =~= first + html_dir_indexes(gs, 0));
    for k in 0..groups.len()
        invariant
            gs == group_values(groups@),
            file_views(out@) == first + html_dir_indexes(gs, k as nat),
    {
        let ghost before = out@;
        let g = &groups[k];
        let mut path = g.dir.to_owned();
        path.append("/");
        path.append(DIR_INDEX_NAME);
        path.append(".html");
        let file = OutputFile { path, content: render_dir_index_html(g) };
        out.push(file);
        proof {
            assert(gs[k as int] == (g.dir@, plain(g.entries@)));
            assert(file_views(out@) =~= file_views(before).push((file.path@, file.content@)));
            assert(file_views(out@) =~= first + html_dir_indexes(gs, (k + 1) as nat));
        }
    }
    let ghost before = out@;
    let file = OutputFile { path: "index.html".to_owned(), content: render_root_index_html(&groups) };
    out.push(file);
    assert(gs.len() == groups@.len());
    assert(file_views(out@) =~= file_views(before).push((file.path@, file.content@)));
    out
}

/// No page of a concept takes the place of a directory's index, as long as no
/// id holds the sign that the index's name begins with.
pub proof fn no_page_is_an_index(id: Seq<char>, dir: Seq<char>)
    requires
        !id.contains('@'),
    ensures
        id + ".html"@ != dir + "/"@ + DIR_INDEX_NAME@ + ".html"@,
{
    reveal_strlit("@index");
    reveal_strlit("/");
    reveal_strlit(".html");
    let page = id + ".html"@;
    let index = dir + "/"@ + DIR_INDEX_NAME@ + ".html"@;
    let at = dir.len() as int + 1;
    if page == index {
        assert(index[at] == '@');
        assert(page[at] == '@');
        assert(page.len() == index.len());
        assert(id[at] == '@');
    }
}

}
