//! What the pages of a bundle show.

use vstd::prelude::*;
use crate::bundle::{dir_index, index_entries, index_entry, is_first_of_its, link_item, page, page_body, part_items, parts_section, relation_item, relation_items, relation_section, relation_sections};
use crate::documents::{concept_section, concept_sections, contents_entries, dir_part, dir_parts, edge_at, edge_of, edges_at, graphml_of, markdown_of, node_of, nodes_of, note_items, note_list, note_lists, note_of, note_parts, note_relation_items, note_relation_section, note_relation_sections, root_note, wikilink_of, GRAPHML_HEAD};
use crate::html::{concept_html, dir_index_html, framed_markup, html_body, html_page_of, html_relation_item, html_relation_items, html_relation_section, html_relation_sections, link_section, member_items, page_head, tags_line, DIR_INDEX_NAME, STYLE};
use crate::model::{opt_text, Concept, ConceptKind, RelationKind, Relationship};
use crate::order::gather;
use crate::reach::is_there;
use crate::render::{capitalized, dir_at, dir_for, escaped, framed, grouped, groups_of, has_kind, heading_of, in_bundle, in_dir, labelled_list, language_label, link_between, location_text, only_if, parts_of, relation_at, slashes, times, type_label, DIR_COUNT};
use crate::text::{is_space, lemma_split_count, separators, split, texts, trim_end, trimming_leaves_out_white_space};

verus! {

/// The piece stands somewhere in the text.
pub open spec fn shows(text: Seq<char>, piece: Seq<char>) -> bool {
    exists|a: int| #[trigger] shows_at(text, piece, a)
}

/// The piece stands in the text from `a` on.
pub open spec fn shows_at(text: Seq<char>, piece: Seq<char>, a: int) -> bool {
    0 <= a && a + piece.len() <= text.len() && text.subrange(a, a + piece.len()) == piece
}

pub proof fn lemma_shows_within(before: Seq<char>, text: Seq<char>, after: Seq<char>, piece: Seq<char>)
    requires
        shows(text, piece),
    ensures
        shows(before + text + after, piece),
{
    let a = choose|a: int| #[trigger] shows_at(text, piece, a);
    let all = before + text + after;
    assert(all.subrange(before.len() + a, before.len() + a + piece.len()) =~= text.subrange(a, a + piece.len()));
    assert(shows_at(all, piece, before.len() + a));
}

pub proof fn lemma_shows_gathered(f: spec_fn(int) -> Seq<char>, n: nat, k: int, piece: Seq<char>)
    requires
        0 <= k < n,
        shows(f(k), piece),
    ensures
        shows(gather(f, n), piece),
    decreases n,
{
    let rest = gather(f, (n - 1) as nat);
    if k == n - 1 {
        lemma_shows_within(rest, f(k), Seq::empty(), piece);
        assert(gather(f, n) =~= rest + f(k) + Seq::empty());
    } else {
        lemma_shows_gathered(f, (n - 1) as nat, k, piece);
        lemma_shows_within(Seq::empty(), rest, f(n - 1), piece);
        assert(gather(f, n) =~= Seq::<char>::empty() + rest + f(n - 1));
    }
}

/// What ends in something else than white space is not cut.
proof fn lemma_shows_trimmed(text: Seq<char>, piece: Seq<char>)
    requires
        shows(text, piece),
        piece.len() > 0,
        !is_space(piece.last()),
    ensures
        shows(trim_end(text), piece),
{
    trimming_leaves_out_white_space(text);
    let a = choose|a: int| #[trigger] shows_at(text, piece, a);
    let t = trim_end(text);
    let b = choose|b: Seq<char>| text == #[trigger] (t + b) && forall|k: int| 0 <= k < b.len() ==> is_space(#[trigger] b[k]);
    let end = a + piece.len();
    assert(text[end - 1] == text.subrange(a, end)[piece.len() - 1]);
    if end > t.len() {
        assert(b[end - 1 - t.len()] == text[end - 1]);
    }
    assert(t.subrange(a, end) =~= text.subrange(a, end));
    assert(shows_at(t, piece, a));
}

/// The concept has a relationship of the kind to the target, wherever it
/// stands among its relationships.
pub open spec fn is_tied(c: Concept, kind: RelationKind, target: Seq<char>) -> bool {
    exists|r: Relationship| #[trigger] c.relationships@.contains(r) && r.kind == kind && r.target@ == target
}

/// The other concept belongs to this one: to a package as its member, to a
/// module by its file; nothing belongs to anything else.
pub open spec fn belongs_to(other: Concept, c: Concept) -> bool {
    ||| c.kind is Package && is_tied(other, RelationKind::MemberOf, c.id@)
    ||| c.kind is Module && other.location.file@ == c.location.file@ && other.id@ != c.id@
}

proof fn lemma_belongs(other: Concept, c: Concept)
    ensures
        crate::render::is_part(c, other) <==> belongs_to(other, c),
{
    if c.kind is Package {
        let rels = other.relationships@;
        if crate::render::is_part(c, other) {
            let k = choose|k: int| 0 <= k < rels.len() && (#[trigger] rels[k]).kind is MemberOf && rels[k].target@ == c.id@;
            assert(rels.contains(rels[k]));
        }
        if belongs_to(other, c) {
            let r = choose|r: Relationship| #[trigger] rels.contains(r) && r.kind == RelationKind::MemberOf && r.target@ == c.id@;
            let k = choose|k: int| 0 <= k < rels.len() && rels[k] == r;
            assert(rels[k].kind is MemberOf);
        }
    }
}

/// The concepts at these positions.
pub open spec fn taken(cs: Seq<Concept>, at: Seq<int>) -> Seq<Concept> {
    Seq::new(at.len(), |k: int| cs[at[k]])
}

/// The positions of what belongs to the concept, among the first `n`.
proof fn lemma_parts_at(c: Concept, cs: Seq<Concept>, n: nat) -> (at: Seq<int>)
    requires
        n <= cs.len(),
    ensures
        parts_of(c, cs, n) == taken(cs, at),
        forall|k: int| 0 <= k < at.len() ==> 0 <= #[trigger] at[k] < n && belongs_to(cs[at[k]], c),
        forall|k: int, l: int| 0 <= k < l < at.len() ==> #[trigger] at[k] < #[trigger] at[l],
        forall|i: int| 0 <= i < n && #[trigger] belongs_to(cs[i], c) ==> at.contains(i),
    decreases n,
{
    if n == 0 {
        assert(parts_of(c, cs, n) =~= taken(cs, Seq::empty()));
        Seq::empty()
    } else {
        let before = lemma_parts_at(c, cs, (n - 1) as nat);
        lemma_belongs(cs[n - 1], c);
        let at = if belongs_to(cs[n - 1], c) {
            before.push(n - 1)
        } else {
            before
        };
        assert(parts_of(c, cs, n) =~= taken(cs, at));
        assert forall|i: int| 0 <= i < n && #[trigger] belongs_to(cs[i], c) implies at.contains(i) by {
            if i < n - 1 {
                let k = choose|k: int| 0 <= k < before.len() && before[k] == i;
                assert(at[k] == i);
            } else {
                assert(at[before.len() as int] == i);
            }
        }
        at
    }
}

/// The parts of a concept are what belongs to it, each once and in the order
/// of the bundle: of a package whatever has a relationship as its member, of a
/// module the rest of its file, of anything else nothing.
pub proof fn parts_are_what_belongs(c: Concept, cs: Seq<Concept>)
    ensures
        exists|at: Seq<int>| {
            &&& #[trigger] taken(cs, at) == parts_of(c, cs, cs.len())
            &&& forall|i: int| at.contains(i) <==> 0 <= i < cs.len() && #[trigger] belongs_to(cs[i], c)
            &&& forall|k: int, l: int| 0 <= k < l < at.len() ==> #[trigger] at[k] < #[trigger] at[l]
        },
{
    let at = lemma_parts_at(c, cs, cs.len());
    assert(taken(cs, at) == parts_of(c, cs, cs.len()));
    assert forall|i: int| at.contains(i) <==> 0 <= i < cs.len() && #[trigger] belongs_to(cs[i], c) by {
        if at.contains(i) {
            let k = choose|k: int| 0 <= k < at.len() && at[k] == i;
            assert(belongs_to(cs[at[k]], c));
        }
    }
}

/// The same concept, with the same relationships in whatever order.
pub open spec fn is_reordered(a: Concept, b: Concept) -> bool {
    &&& a.id@ == b.id@
    &&& a.name@ == b.name@
    &&& a.location.file@ == b.location.file@
    &&& forall|r: Relationship| #[trigger] a.relationships@.contains(r) <==> b.relationships@.contains(r)
}

proof fn lemma_reordered(a: Concept, b: Concept, c: Concept)
    requires
        is_reordered(a, b),
    ensures
        belongs_to(a, c) <==> belongs_to(b, c),
{
    if is_tied(a, RelationKind::MemberOf, c.id@) {
        let r = choose|r: Relationship| #[trigger] a.relationships@.contains(r) && r.kind == RelationKind::MemberOf && r.target@ == c.id@;
        assert(b.relationships@.contains(r));
    }
    if is_tied(b, RelationKind::MemberOf, c.id@) {
        let r = choose|r: Relationship| #[trigger] b.relationships@.contains(r) && r.kind == RelationKind::MemberOf && r.target@ == c.id@;
        assert(a.relationships@.contains(r));
    }
}

/// What a page lists as the parts of a concept stays as it is when the
/// relationships of the other concepts are put in another order.
pub proof fn parts_do_not_hang_on_an_order(c: Concept, cs: Seq<Concept>, ds: Seq<Concept>, n: nat)
    requires
        n <= cs.len() == ds.len(),
        forall|i: int| 0 <= i < cs.len() ==> is_reordered(#[trigger] cs[i], ds[i]),
    ensures
        parts_of(c, cs, n).len() == parts_of(c, ds, n).len(),
        forall|k: int| 0 <= k < parts_of(c, cs, n).len() ==> is_reordered(#[trigger] parts_of(c, cs, n)[k], parts_of(c, ds, n)[k]),
        parts_section(c.id@, parts_of(c, cs, n)) == parts_section(c.id@, parts_of(c, ds, n)),
    decreases n,
{
    if n > 0 {
        parts_do_not_hang_on_an_order(c, cs, ds, (n - 1) as nat);
        assert(is_reordered(cs[n - 1], ds[n - 1]));
        lemma_reordered(cs[n - 1], ds[n - 1], c);
        lemma_belongs(cs[n - 1], c);
        lemma_belongs(ds[n - 1], c);
    }
    let (p, q) = (parts_of(c, cs, n), parts_of(c, ds, n));
    assert forall|k: int| 0 <= k < p.len() implies #[trigger] part_items(c.id@, p)(k) == part_items(c.id@, q)(k) by {
        assert(is_reordered(p[k], q[k]));
    }
    lemma_gather_same(part_items(c.id@, p), part_items(c.id@, q), p.len());
}

proof fn lemma_gather_same(f: spec_fn(int) -> Seq<char>, g: spec_fn(int) -> Seq<char>, n: nat)
    requires
        forall|k: int| 0 <= k < n ==> #[trigger] f(k) == g(k),
    ensures
        gather(f, n) == gather(g, n),
    decreases n,
{
    if n > 0 {
        lemma_gather_same(f, g, (n - 1) as nat);
        assert(f(n - 1) == g(n - 1));
    }
}

/// A link to a concept, as a page shows it.
pub open spec fn link_text(from: Seq<char>, name: Seq<char>, to: Seq<char>) -> Seq<char> {
    "["@ + name + "]("@ + link_between(from, to, "md"@) + ")"@
}

proof fn lemma_link_shown(from: Seq<char>, name: Seq<char>, to: Seq<char>)
    ensures
        shows(link_item(from, name, to), link_text(from, name, to)),
        link_text(from, name, to).len() > 0,
        !is_space(link_text(from, name, to).last()),
{
    reveal_strlit("- [");
    reveal_strlit("[");
    reveal_strlit(")");
    reveal_strlit(")\n");
    let (item, link) = (link_item(from, name, to), link_text(from, name, to));
    assert("- ["@ =~= seq!['-', ' ', '[']);
    assert("["@ =~= seq!['[']);
    assert(")\n"@ =~= seq![')', '\n']);
    assert(item.subrange(2, 2int + link.len()) =~= link);
    assert(shows_at(item, link, 2));
}

/// The page of a concept links to everything that belongs to it.
pub proof fn a_page_links_to_what_belongs(cs: Seq<Concept>, c: Concept, head: Seq<char>, i: int)
    requires
        0 <= i < cs.len(),
        belongs_to(cs[i], c),
    ensures
        shows(page(cs, c, head), link_text(c.id@, cs[i].name@, cs[i].id@)),
{
    let piece = link_text(c.id@, cs[i].name@, cs[i].id@);
    let parts = parts_of(c, cs, cs.len());
    let at = lemma_parts_at(c, cs, cs.len());
    let k = choose|k: int| 0 <= k < at.len() && at[k] == i;
    assert(parts[k] == cs[i]);
    let f = part_items(c.id@, parts);
    lemma_link_shown(c.id@, cs[i].name@, cs[i].id@);
    lemma_shows_gathered(f, parts.len(), k, piece);
    let section = parts_section(c.id@, parts);
    lemma_shows_within("# Contains\n\n"@, gather(f, parts.len()), "\n"@, piece);
    let first = framed("# Signature\n\n`"@, opt_text(c.signature), "`\n\n"@);
    lemma_shows_within(first, section, gather(relation_sections(cs, c), 7), piece);
    lemma_page(cs, c, head, piece);
}

proof fn lemma_page(cs: Seq<Concept>, c: Concept, head: Seq<char>, piece: Seq<char>)
    requires
        shows(page_body(cs, c), piece),
        piece.len() > 0,
        !is_space(piece.last()),
    ensures
        shows(page(cs, c, head), piece),
{
    lemma_shows_trimmed(page_body(cs, c), piece);
    let body = trim_end(page_body(cs, c));
    let before = "---\n"@ + head + "---\n\n"@;
    lemma_shows_within(before, body, Seq::empty(), piece);
    assert(page(cs, c, head) =~= before + body + Seq::empty());
}

/// How a page shows the target of a relationship: as a link where some concept
/// of the bundle has the id, else as a name.
pub open spec fn target_text(cs: Seq<Concept>, from: Seq<char>, r: Relationship) -> Seq<char> {
    if exists|i: int| 0 <= i < cs.len() && (#[trigger] cs[i]).id@ == r.target@ {
        link_text(from, r.target_display@, r.target@)
    } else {
        "`"@ + r.target_display@ + "`"@
    }
}

/// The first relationship with the kind and the target of the one at `i`.
proof fn lemma_first_alike(rels: Seq<Relationship>, i: int) -> (f: int)
    requires
        0 <= i < rels.len(),
    ensures
        0 <= f <= i,
        rels[f].kind == rels[i].kind,
        rels[f].target@ == rels[i].target@,
        is_first_of_its(rels, f),
    decreases i,
{
    if is_first_of_its(rels, i) {
        i
    } else {
        let j = choose|j: int| 0 <= j < i && (#[trigger] rels[j]).kind == rels[i].kind && rels[j].target@ == rels[i].target@;
        lemma_first_alike(rels, j)
    }
}

/// The page of a concept shows the target of each of its relationships, by the
/// name that the first one with this kind and target gives it, under a heading
/// for the kind.
#[verifier::rlimit(40)]
pub proof fn a_page_shows_all_relationships(cs: Seq<Concept>, c: Concept, head: Seq<char>, i: int)
    requires
        0 <= i < c.relationships@.len(),
    ensures
        shows(page(cs, c, head), "# "@ + heading_of(c.relationships@[i].kind)),
        exists|f: int| {
            &&& 0 <= f <= i
            &&& (#[trigger] c.relationships@[f]).kind == c.relationships@[i].kind
            &&& c.relationships@[f].target@ == c.relationships@[i].target@
            &&& forall|e: int| 0 <= e < f ==> !((#[trigger] c.relationships@[e]).kind == c.relationships@[i].kind && c.relationships@[e].target@ == c.relationships@[i].target@)
            &&& shows(page(cs, c, head), target_text(cs, c.id@, c.relationships@[f]))
        },
{
    let rels = c.relationships@;
    let kind = rels[i].kind;
    let f = lemma_first_alike(rels, i);
    let piece = target_text(cs, c.id@, rels[f]);
    let item = relation_item(cs, c.id@, rels[f]);
    if in_bundle(cs, rels[f].target@) {
        lemma_link_shown(c.id@, rels[f].target_display@, rels[f].target@);
    } else {
        reveal_strlit("- `");
        reveal_strlit("`");
        reveal_strlit("`\n");
        assert("- `"@ =~= seq!['-', ' ', '`']);
        assert("`"@ =~= seq!['`']);
        assert("`\n"@ =~= seq!['`', '\n']);
        assert(item.subrange(2, 2int + piece.len()) =~= piece);
        assert(shows_at(item, piece, 2));
    }
    let items = relation_items(cs, c.id@, rels, kind);
    assert(items(f) == item);
    lemma_shows_gathered(items, rels.len(), f, piece);
    assert(has_kind(rels, kind));
    let section = relation_section(cs, c.id@, rels, kind);
    let title = "# "@ + heading_of(kind);
    lemma_shows_within(title + "\n\n"@, gather(items, rels.len()), "\n"@, piece);
    assert(section =~= title + "\n\n"@ + gather(items, rels.len()) + "\n"@);
    assert(title.subrange(0, title.len() as int) =~= title);
    assert(shows_at(title, title, 0));
    let after = "\n\n"@ + gather(items, rels.len()) + "\n"@;
    lemma_shows_within(Seq::empty(), title, after, title);
    assert(section =~= Seq::<char>::empty() + title + after);
    let sections = relation_sections(cs, c);
    let k = lemma_kind_place(kind);
    assert(sections(k) == section);
    lemma_shows_gathered(sections, 7, k, piece);
    lemma_shows_gathered(sections, 7, k, title);
    let first = framed("# Signature\n\n`"@, opt_text(c.signature), "`\n\n"@) + parts_section(c.id@, parts_of(c, cs, cs.len()));
    lemma_shows_within(first, gather(sections, 7), Seq::empty(), piece);
    lemma_shows_within(first, gather(sections, 7), Seq::empty(), title);
    assert(page_body(cs, c) =~= first + gather(sections, 7) + Seq::empty());
    lemma_title(kind);
    lemma_page(cs, c, head, piece);
    lemma_page(cs, c, head, title);
}

pub proof fn lemma_kind_place(kind: RelationKind) -> (k: int)
    ensures
        0 <= k < 7,
        relation_at(k) == kind,
{
    let k: int = match kind {
        RelationKind::Imports => 0,
        RelationKind::Calls => 1,
        RelationKind::CalledBy => 2,
        RelationKind::Implements => 3,
        RelationKind::Inherits => 4,
        RelationKind::DependsOn => 5,
        RelationKind::MemberOf => 6,
    };
    k
}

proof fn lemma_title(kind: RelationKind)
    ensures
        ("# "@ + heading_of(kind)).len() > 0,
        !is_space(("# "@ + heading_of(kind)).last()),
{
    reveal_strlit("# ");
    reveal_strlit("Imports");
    reveal_strlit("Calls");
    reveal_strlit("Called by");
    reveal_strlit("Implements");
    reveal_strlit("Inherits");
    reveal_strlit("Depends on");
    reveal_strlit("Member of");
}

proof fn lemma_slashes(s: Seq<char>)
    ensures
        slashes(s) == separators(s, '/'),
    decreases s.len(),
{
    if s.len() > 0 {
        lemma_slashes(s.drop_last());
    }
}

proof fn lemma_times(n: nat)
    ensures
        times("../"@, n).len() == 3 * n,
        forall|k: int| 0 <= k < 3 * n ==> #[trigger] times("../"@, n)[k] == (if k % 3 == 2 { '/' } else { '.' }),
    decreases n,
{
    reveal_strlit("../");
    if n > 0 {
        lemma_times((n - 1) as nat);
    }
}

/// A link leads from a page up through all of its directories, to the root,
/// and down from there to the page of the other id.
pub proof fn links_climb_to_the_root(from: Seq<char>, to: Seq<char>, ext: Seq<char>)
    ensures
        ({
            let up = 3 * (split(from, '/').len() - 1);
            let link = link_between(from, to, ext);
            &&& up >= 0
            &&& link.len() == up + to.len() + 1 + ext.len()
            &&& forall|k: int| 0 <= k < up ==> #[trigger] link[k] == (if k % 3 == 2 { '/' } else { '.' })
            &&& link.skip(up) == to + seq!['.'] + ext
        }),
{
    lemma_slashes(from);
    lemma_split_count(from, '/');
    lemma_times(slashes(from));
    reveal_strlit(".");
    assert("."@ =~= seq!['.']);
    let up = 3 * (split(from, '/').len() - 1);
    assert(link_between(from, to, ext).skip(up) =~= to + seq!['.'] + ext);
}

proof fn lemma_in_dir(cs: Seq<Concept>, dir: Seq<char>, n: nat) -> (at: Seq<int>)
    requires
        n <= cs.len(),
    ensures
        in_dir(cs, dir, n) == taken(cs, at),
        forall|i: int| #[trigger] at.contains(i) <==> 0 <= i < n && dir_for(cs[i].kind) == dir,
        forall|k: int, l: int| 0 <= k < l < at.len() ==> #[trigger] at[k] < #[trigger] at[l],
    decreases n,
{
    if n == 0 {
        assert(in_dir(cs, dir, n) =~= taken(cs, Seq::empty()));
        Seq::empty()
    } else {
        let before = lemma_in_dir(cs, dir, (n - 1) as nat);
        let at = if dir_for(cs[n - 1].kind) == dir {
            before.push(n - 1)
        } else {
            before
        };
        assert(in_dir(cs, dir, n) =~= taken(cs, at));
        assert forall|i: int| #[trigger] at.contains(i) <==> 0 <= i < n && dir_for(cs[i].kind) == dir by {
            if before.contains(i) {
                let k = choose|k: int| 0 <= k < before.len() && before[k] == i;
                assert(at[k] == i);
            }
            if at.contains(i) {
                let k = choose|k: int| 0 <= k < at.len() && at[k] == i;
                if k < before.len() {
                    assert(before[k] == i);
                    assert(before.contains(i));
                }
            }
            if i == n - 1 && dir_for(cs[i].kind) == dir {
                assert(at[before.len() as int] == i);
            }
        }
        assert forall|k: int, l: int| 0 <= k < l < at.len() implies #[trigger] at[k] < #[trigger] at[l] by {
            assert(before[k] == at[k]);
            assert(before.contains(before[k]));
            if l < before.len() {
                assert(before[l] == at[l]);
            }
        }
        at
    }
}

/// The group holds the concepts of its directory, each once and in the order
/// of the bundle, and is not empty.
pub open spec fn is_whole_group(cs: Seq<Concept>, group: (Seq<char>, Seq<Concept>)) -> bool {
    group.1.len() > 0 && exists|at: Seq<int>| {
        &&& group.1 == #[trigger] taken(cs, at)
        &&& forall|i: int| #[trigger] at.contains(i) <==> 0 <= i < cs.len() && dir_for(cs[i].kind) == group.0
        &&& forall|k: int, l: int| 0 <= k < l < at.len() ==> #[trigger] at[k] < #[trigger] at[l]
    }
}

proof fn lemma_groups(cs: Seq<Concept>, n: nat)
    requires
        n <= DIR_COUNT,
    ensures
        forall|g: int| 0 <= g < groups_of(cs, n).len() ==> is_whole_group(cs, #[trigger] groups_of(cs, n)[g]),
        forall|k: int, i: int| 0 <= k < n && 0 <= i < cs.len() && dir_for((#[trigger] cs[i]).kind) == #[trigger] dir_at(k) ==> has_group(groups_of(cs, n), dir_at(k)),
        forall|g: int| 0 <= g < groups_of(cs, n).len() ==> exists|k: int| 0 <= k < n && (#[trigger] groups_of(cs, n)[g]).0 == #[trigger] dir_at(k),
    decreases n,
{
    if n > 0 {
        lemma_groups(cs, (n - 1) as nat);
        let (rest, all) = (groups_of(cs, (n - 1) as nat), groups_of(cs, n));
        let dir = dir_at(n - 1);
        let at = lemma_in_dir(cs, dir, cs.len());
        let members = in_dir(cs, dir, cs.len());
        if members.len() > 0 {
            assert(is_whole_group(cs, (dir, members)));
        }
        assert forall|g: int| 0 <= g < all.len() implies is_whole_group(cs, #[trigger] all[g]) by {
            if g < rest.len() {
                assert(rest[g] == all[g]);
            }
        }
        assert forall|k: int, i: int| 0 <= k < n && 0 <= i < cs.len() && dir_for((#[trigger] cs[i]).kind) == #[trigger] dir_at(k) implies has_group(all, dir_at(k)) by {
            if k < n - 1 {
                let g = choose|g: int| 0 <= g < rest.len() && (#[trigger] rest[g]).0 == dir_at(k);
                assert(all[g].0 == dir_at(k));
            } else {
                assert(at.contains(i));
                assert(members.len() == at.len());
                assert(all[rest.len() as int].0 == dir);
            }
        }
        assert forall|g: int| 0 <= g < all.len() implies exists|k: int| 0 <= k < n && (#[trigger] all[g]).0 == #[trigger] dir_at(k) by {
            if g < rest.len() {
                assert(rest[g] == all[g]);
                let k = choose|k: int| 0 <= k < n - 1 && rest[g].0 == #[trigger] dir_at(k);
                assert(all[g].0 == dir_at(k));
            } else {
                assert(all[g].0 == dir_at(n - 1));
            }
        }
    }
}

/// One of the groups is that of the directory.
pub open spec fn has_group(groups: Seq<(Seq<char>, Seq<Concept>)>, dir: Seq<char>) -> bool {
    exists|g: int| 0 <= g < groups.len() && (#[trigger] groups[g]).0 == dir
}

/// Every concept is listed in the group of its kind's directory, and each
/// group is whole.
pub proof fn groups_hold_all_concepts(cs: Seq<Concept>)
    ensures
        forall|g: int| 0 <= g < grouped(cs).len() ==> is_whole_group(cs, #[trigger] grouped(cs)[g]),
        forall|i: int| 0 <= i < cs.len() ==> has_group(grouped(cs), dir_for((#[trigger] cs[i]).kind)),
{
    lemma_groups(cs, DIR_COUNT as nat);
    assert forall|i: int| 0 <= i < cs.len() implies has_group(grouped(cs), dir_for((#[trigger] cs[i]).kind)) by {
        let k: int = match cs[i].kind {
            ConceptKind::Package => 6,
            ConceptKind::Module => 5,
            ConceptKind::Document => 2,
            ConceptKind::Struct => 0,
            ConceptKind::Class => 0,
            ConceptKind::Interface => 4,
            ConceptKind::Trait => 7,
            ConceptKind::Function => 3,
            ConceptKind::Method => 3,
            ConceptKind::Other(_) => 1,
        };
        assert(dir_for(cs[i].kind) == dir_at(k));
    }
}

pub proof fn lemma_in_group(cs: Seq<Concept>, i: int) -> (r: (int, int))
    requires
        0 <= i < cs.len(),
    ensures
        0 <= r.0 < grouped(cs).len(),
        0 <= r.1 < grouped(cs)[r.0].1.len(),
        grouped(cs)[r.0].0 == dir_for(cs[i].kind),
        grouped(cs)[r.0].1[r.1] == cs[i],
{
    groups_hold_all_concepts(cs);
    let dir = dir_for(cs[i].kind);
    let g = choose|g: int| 0 <= g < grouped(cs).len() && (#[trigger] grouped(cs)[g]).0 == dir;
    let group = grouped(cs)[g];
    assert(is_whole_group(cs, group));
    let at = choose|at: Seq<int>| {
        &&& group.1 == #[trigger] taken(cs, at)
        &&& forall|i: int| #[trigger] at.contains(i) <==> 0 <= i < cs.len() && dir_for(cs[i].kind) == group.0
        &&& forall|k: int, l: int| 0 <= k < l < at.len() ==> #[trigger] at[k] < #[trigger] at[l]
    };
    assert(at.contains(i));
    let k = choose|k: int| 0 <= k < at.len() && at[k] == i;
    assert(group.1[k] == cs[i]);
    (g, k)
}

pub proof fn lemma_shows_itself(text: Seq<char>)
    ensures
        shows(text, text),
{
    assert(text.subrange(0, text.len() as int) =~= text);
    assert(shows_at(text, text, 0));
}

/// The index of a directory links to every concept there.
#[verifier::rlimit(40)]
pub proof fn indexes_link_to_all_entries(dir: Seq<char>, entries: Seq<Concept>, i: int)
    requires
        0 <= i < entries.len(),
    ensures
        shows(dir_index(dir, entries), link_text(dir + "/index"@, entries[i].name@, entries[i].id@)),
        shows(dir_index_html(dir, entries), html_link(dir + "/"@ + DIR_INDEX_NAME@, entries[i].id@, entries[i].name@)),
{
    let at = dir + "/index"@;
    let piece = link_text(at, entries[i].name@, entries[i].id@);
    let f = index_entries(at, entries);
    let link = link_between(at, entries[i].id@, "md"@);
    reveal_strlit("- [");
    reveal_strlit("[");
    reveal_strlit(")");
    reveal_strlit(") \u{2014} ");
    assert("- ["@ =~= seq!['-', ' ', '[']);
    assert("["@ =~= seq!['[']);
    assert(")"@ =~= seq![')']);
    let entry = index_entry(at, entries[i]);
    assert(entry.subrange(2, 2int + piece.len()) =~= piece);
    assert(shows_at(entry, piece, 2));
    assert(f(i) == entry);
    lemma_shows_gathered(f, entries.len(), i, piece);
    lemma_shows_within("# "@ + capitalized(dir) + "\n\n"@, gather(f, entries.len()), Seq::empty(), piece);
    assert(dir_index(dir, entries) =~= "# "@ + capitalized(dir) + "\n\n"@ + gather(f, entries.len()) + Seq::empty());
    let place = dir + "/"@ + DIR_INDEX_NAME@;
    lemma_member_shown(place, entries, i);
    let items = gather(member_items(place, entries), entries.len());
    let tag = html_link(place, entries[i].id@, entries[i].name@);
    let before = "<nav><a href=\""@ + link_between(place, "index"@, "html"@) + "\">Home</a></nav>\n<h1>"@ + escaped(capitalized(dir)) + "</h1>\n<ul>\n"@;
    lemma_shows_within(before, items, "</ul>\n"@, tag);
    lemma_html_page(capitalized(dir), before + items + "</ul>\n"@, tag);
}

/// A link of a page in markup.
pub open spec fn html_link(from: Seq<char>, to: Seq<char>, name: Seq<char>) -> Seq<char> {
    "<a href=\""@ + link_between(from, to, "html"@) + "\">"@ + escaped(name) + "</a>"@
}

proof fn lemma_html_page(title: Seq<char>, body: Seq<char>, piece: Seq<char>)
    requires
        shows(body, piece),
    ensures
        shows(html_page_of(title, body), piece),
{
    let before = "<!doctype html>\n<html lang=\"en\">\n<head>\n<meta charset=\"utf-8\">\n<title>"@ + title + "</title>\n"@ + STYLE@ + "</head>\n<body>\n"@;
    lemma_shows_within(before, body, "</body>\n</html>\n"@, piece);
}

#[verifier::rlimit(40)]
proof fn lemma_member_shown(from: Seq<char>, members: Seq<Concept>, i: int)
    requires
        0 <= i < members.len(),
    ensures
        shows(gather(member_items(from, members), members.len()), html_link(from, members[i].id@, members[i].name@)),
{
    let piece = html_link(from, members[i].id@, members[i].name@);
    let f = member_items(from, members);
    reveal_strlit("<li><a href=\"");
    reveal_strlit("<a href=\"");
    reveal_strlit("</a> \u{2014} ");
    reveal_strlit("</a>");
    let open = seq!['<', 'l', 'i', '>'];
    assert("<li><a href=\""@ =~= open + "<a href=\""@);
    let after = " \u{2014} "@ + escaped(type_label(members[i])) + "</li>\n"@;
    reveal_strlit(" \u{2014} ");
    assert("</a> \u{2014} "@ =~= "</a>"@ + " \u{2014} "@);
    lemma_shows_itself(piece);
    lemma_shows_within(open, piece, after, piece);
    assert(f(i) =~= open + piece + after);
    lemma_shows_gathered(f, members.len(), i, piece);
}

/// The page of a concept in markup links to everything that belongs to it.
#[verifier::rlimit(40)]
pub proof fn a_site_links_to_what_belongs(cs: Seq<Concept>, c: Concept, i: int)
    requires
        0 <= i < cs.len(),
        belongs_to(cs[i], c),
    ensures
        shows(concept_html(cs, c), html_link(c.id@, cs[i].id@, cs[i].name@)),
{
    let piece = html_link(c.id@, cs[i].id@, cs[i].name@);
    let parts = parts_of(c, cs, cs.len());
    let at = lemma_parts_at(c, cs, cs.len());
    let k = choose|k: int| 0 <= k < at.len() && at[k] == i;
    assert(parts[k] == cs[i]);
    lemma_member_shown(c.id@, parts, k);
    let items = gather(member_items(c.id@, parts), parts.len());
    lemma_shows_within("<h2>"@ + "Contains"@ + "</h2>\n<ul>\n"@, items, "</ul>\n"@, piece);
    let section = link_section("Contains"@, parts, c.id@);
    let before = page_head(c) + only_if(!c.is_public, "<p><span class=\"visibility\">private</span></p>\n"@) + framed_markup("<pre><code>"@, c.signature, "</code></pre>\n"@) + framed_markup(
        "<p>"@,
        c.description,
        "</p>\n"@,
    ) + tags_line(texts(c.tags@));
    let after = gather(html_relation_sections(cs, c), 7) + "<p class=\"resource\">Source: "@ + escaped(location_text(c.location)) + "</p>\n"@;
    lemma_shows_within(before, section, after, piece);
    assert(html_body(cs, c) =~= before + section + after);
    lemma_html_page(escaped(c.name@) + " \u{2014} "@ + escaped(type_label(c)), html_body(cs, c), piece);
}

/// How a page in markup shows the target of a relationship.
pub open spec fn html_target(cs: Seq<Concept>, from: Seq<char>, r: Relationship) -> Seq<char> {
    if exists|i: int| 0 <= i < cs.len() && (#[trigger] cs[i]).id@ == r.target@ {
        "<li>"@ + html_link(from, r.target@, r.target_display@) + "</li>\n"@
    } else {
        "<li><code>"@ + escaped(r.target_display@) + "</code></li>\n"@
    }
}

/// The page of a concept in markup shows the target of each of its
/// relationships.
#[verifier::rlimit(40)]
pub proof fn a_site_shows_all_relationships(cs: Seq<Concept>, c: Concept, i: int)
    requires
        0 <= i < c.relationships@.len(),
    ensures
        shows(concept_html(cs, c), html_target(cs, c.id@, c.relationships@[i])),
{
    let r = c.relationships@[i];
    let piece = html_target(cs, c.id@, r);
    reveal_strlit("<li><a href=\"");
    reveal_strlit("<li>");
    reveal_strlit("<a href=\"");
    reveal_strlit("</a></li>\n");
    reveal_strlit("</a>");
    reveal_strlit("</li>\n");
    assert("<li><a href=\""@ =~= "<li>"@ + "<a href=\""@);
    assert("</a></li>\n"@ =~= "</a>"@ + "</li>\n"@);
    assert(html_relation_item(cs, c.id@, r.target@, r.target_display@) =~= piece);
    let items = html_relation_items(cs, c, r.kind);
    assert(items(i) == piece);
    lemma_shows_itself(piece);
    lemma_shows_gathered(items, c.relationships@.len(), i, piece);
    assert(has_kind(c.relationships@, r.kind));
    lemma_shows_within("<h2>"@ + heading_of(r.kind) + "</h2>\n<ul>\n"@, gather(items, c.relationships@.len()), "</ul>\n"@, piece);
    let sections = html_relation_sections(cs, c);
    let k = lemma_kind_place(r.kind);
    assert(sections(k) == html_relation_section(cs, c, r.kind));
    lemma_shows_gathered(sections, 7, k, piece);
    let before = page_head(c) + only_if(!c.is_public, "<p><span class=\"visibility\">private</span></p>\n"@) + framed_markup("<pre><code>"@, c.signature, "</code></pre>\n"@) + framed_markup(
        "<p>"@,
        c.description,
        "</p>\n"@,
    ) + tags_line(texts(c.tags@)) + link_section("Contains"@, parts_of(c, cs, cs.len()), c.id@);
    let after = "<p class=\"resource\">Source: "@ + escaped(location_text(c.location)) + "</p>\n"@;
    lemma_shows_within(before, gather(sections, 7), after, piece);
    assert(html_body(cs, c) =~= before + gather(sections, 7) + after);
    lemma_html_page(escaped(c.name@) + " \u{2014} "@ + escaped(type_label(c)), html_body(cs, c), piece);
}

/// The note on a concept links to everything that belongs to it, and shows the
/// target of each of its relationships: as a link where some concept has the
/// id, else as a name.
#[verifier::rlimit(40)]
pub proof fn a_note_shows_parts_and_relationships(cs: Seq<Concept>, c: Concept)
    ensures
        forall|i: int| 0 <= i < cs.len() && #[trigger] belongs_to(cs[i], c) ==> shows(note_of(cs, c), wikilink_of(cs[i].id@, cs[i].name@)),
        forall|i: int| 0 <= i < c.relationships@.len() ==> shows(note_of(cs, c), note_target(cs, #[trigger] c.relationships@[i])),
{
    let head = "---\ntype: "@ + type_label(c) + "\n"@ + labelled_list("tags: ["@, texts(c.tags@), "]\n"@) + "---\n\n# "@ + c.name@ + "\n\n"@ + only_if(!c.is_public, "_private_\n\n"@) + framed(
        "```\n"@,
        opt_text(c.signature),
        "\n```\n\n"@,
    ) + framed(""@, opt_text(c.description), "\n\n"@);
    let parts = parts_of(c, cs, cs.len());
    let sections = note_relation_sections(cs, c);
    let tail = "Source: `"@ + location_text(c.location) + "`\n"@;
    assert forall|i: int| 0 <= i < cs.len() && #[trigger] belongs_to(cs[i], c) implies shows(note_of(cs, c), wikilink_of(cs[i].id@, cs[i].name@)) by {
        let piece = wikilink_of(cs[i].id@, cs[i].name@);
        let at = lemma_parts_at(c, cs, cs.len());
        let k = choose|k: int| 0 <= k < at.len() && at[k] == i;
        assert(parts[k] == cs[i]);
        lemma_note_list("Contains"@, parts, k);
        lemma_shows_within(head, note_parts(parts), gather(sections, 7) + tail, piece);
        assert(note_of(cs, c) =~= head + note_parts(parts) + (gather(sections, 7) + tail));
    }
    assert forall|i: int| 0 <= i < c.relationships@.len() implies shows(note_of(cs, c), note_target(cs, #[trigger] c.relationships@[i])) by {
        let r = c.relationships@[i];
        let piece = note_target(cs, r);
        let items = note_relation_items(cs, c, r.kind);
        if in_bundle(cs, r.target@) {
            lemma_shows_itself(piece);
            lemma_shows_within("- "@, piece, "\n"@, piece);
        } else {
            lemma_shows_itself(piece);
            reveal_strlit("- `");
            reveal_strlit("- ");
            reveal_strlit("`");
            reveal_strlit("`\n");
            reveal_strlit("\n");
            assert("- `"@ =~= "- "@ + "`"@);
            assert("`\n"@ =~= "`"@ + "\n"@);
            lemma_shows_within("- "@, piece, "\n"@, piece);
            assert(items(i) =~= "- "@ + piece + "\n"@);
        }
        lemma_shows_gathered(items, c.relationships@.len(), i, piece);
        assert(has_kind(c.relationships@, r.kind));
        lemma_shows_within("## "@ + heading_of(r.kind) + "\n\n"@, gather(items, c.relationships@.len()), "\n"@, piece);
        let k = lemma_kind_place(r.kind);
        assert(sections(k) == note_relation_section(cs, c, r.kind));
        lemma_shows_gathered(sections, 7, k, piece);
        lemma_shows_within(head + note_parts(parts), gather(sections, 7), tail, piece);
        assert(note_of(cs, c) =~= head + note_parts(parts) + gather(sections, 7) + tail);
    }
}

/// How a note shows the target of a relationship.
pub open spec fn note_target(cs: Seq<Concept>, r: Relationship) -> Seq<char> {
    if exists|i: int| 0 <= i < cs.len() && (#[trigger] cs[i]).id@ == r.target@ {
        wikilink_of(r.target@, r.target_display@)
    } else {
        "`"@ + r.target_display@ + "`"@
    }
}

proof fn lemma_note_list(heading: Seq<char>, members: Seq<Concept>, i: int)
    requires
        0 <= i < members.len(),
    ensures
        shows(note_list(heading, members), wikilink_of(members[i].id@, members[i].name@)),
{
    let piece = wikilink_of(members[i].id@, members[i].name@);
    let f = note_items(members);
    lemma_shows_itself(piece);
    lemma_shows_within("- "@, piece, "\n"@, piece);
    assert(f(i) == "- "@ + piece + "\n"@);
    lemma_shows_gathered(f, members.len(), i, piece);
    lemma_shows_within("## "@ + heading + "\n\n"@, gather(f, members.len()), "\n"@, piece);
}

/// The root's note of a vault links to every concept, and the one document
/// that holds the whole bundle has a section for every concept.
#[verifier::rlimit(40)]
pub proof fn every_concept_is_reached_from_the_root(cs: Seq<Concept>, i: int)
    requires
        0 <= i < cs.len(),
    ensures
        shows(root_note(grouped(cs)), wikilink_of(cs[i].id@, cs[i].name@)),
        shows(markdown_of(cs), concept_section(cs[i])),
        shows(markdown_of(cs), "## "@ + capitalized(dir_for(cs[i].kind))),
{
    let groups = grouped(cs);
    let (g, k) = lemma_in_group(cs, i);
    let piece = wikilink_of(cs[i].id@, cs[i].name@);
    lemma_note_list(capitalized(groups[g].0), groups[g].1, k);
    lemma_shows_gathered(note_lists(groups), groups.len(), g, piece);
    lemma_shows_within("# Knowledge Base\n\n"@, gather(note_lists(groups), groups.len()), Seq::empty(), piece);
    assert(root_note(groups) =~= "# Knowledge Base\n\n"@ + gather(note_lists(groups), groups.len()) + Seq::empty());
    let section = concept_section(cs[i]);
    let title = "## "@ + capitalized(groups[g].0);
    let sections = concept_sections(groups[g].1);
    lemma_shows_itself(section);
    assert(sections(k) == section);
    lemma_shows_gathered(sections, groups[g].1.len(), k, section);
    let inner = gather(sections, groups[g].1.len());
    lemma_shows_within(title + "\n\n"@, inner, Seq::empty(), section);
    lemma_shows_itself(title);
    lemma_shows_within(Seq::empty(), title, "\n\n"@ + inner, title);
    let part = dir_part(groups[g].0, groups[g].1);
    assert(part =~= title + "\n\n"@ + inner + Seq::empty());
    assert(part =~= Seq::<char>::empty() + title + ("\n\n"@ + inner));
    let parts = dir_parts(groups);
    assert(parts(g) == part);
    lemma_shows_gathered(parts, groups.len(), g, section);
    lemma_shows_gathered(parts, groups.len(), g, title);
    let head = "# Documentation\n\n## Contents\n\n"@ + gather(contents_entries(groups), groups.len()) + "\n"@;
    lemma_shows_within(head, gather(parts, groups.len()), Seq::empty(), section);
    lemma_shows_within(head, gather(parts, groups.len()), Seq::empty(), title);
    assert(markdown_of(cs) =~= head + gather(parts, groups.len()) + Seq::empty());
}

/// How the node for an id begins.
pub open spec fn node_text(id: Seq<char>) -> Seq<char> {
    "<node id=\""@ + escaped(id) + "\">"@
}

/// How the edge from one id to another begins.
pub open spec fn edge_text(from: Seq<char>, to: Seq<char>) -> Seq<char> {
    "<edge source=\""@ + escaped(from) + "\" target=\""@ + escaped(to) + "\">"@
}

proof fn lemma_shows_front(text: Seq<char>, more: Seq<char>, piece: Seq<char>)
    requires
        shows(text, piece),
    ensures
        shows(text + more, piece),
{
    lemma_shows_within(Seq::empty(), text, more, piece);
    assert(Seq::<char>::empty() + text + more =~= text + more);
}

proof fn lemma_node_shown(c: Concept)
    ensures
        shows(node_of(c), node_text(c.id@)),
{
    lemma_node_start(escaped(c.id@));
    lemma_node_rest(c, "    <node id=\""@ + escaped(c.id@) + "\">\n      <data key=\"label\">"@, node_text(c.id@));
}

proof fn lemma_node_start(id: Seq<char>)
    ensures
        shows("    <node id=\""@ + id + "\">\n      <data key=\"label\">"@, "<node id=\""@ + id + "\">"@),
{
    let node = "<node id=\""@ + id + "\">"@;
    let start = "    <node id=\""@ + id + "\">\n      <data key=\"label\">"@;
    reveal_strlit("    <node id=\"");
    reveal_strlit("<node id=\"");
    reveal_strlit("\">\n      <data key=\"label\">");
    reveal_strlit("\">");
    assert(start.subrange(4, 4int + node.len()) =~= node);
    assert(shows_at(start, node, 4));
}

proof fn lemma_node_rest(c: Concept, start: Seq<char>, node: Seq<char>)
    requires
        shows(start, node),
    ensures
        shows(
            start + escaped(c.name@) + "</data>\n      <data key=\"kind\">"@ + escaped(type_label(c)) + "</data>\n      <data key=\"language\">"@ + escaped(
                language_label(c.language),
            ) + "</data>\n      <data key=\"public\">"@ + (if c.is_public { "true"@ } else { "false"@ }) + "</data>\n    </node>\n"@,
            node,
        ),
{
    let a = start + escaped(c.name@);
    lemma_shows_front(start, escaped(c.name@), node);
    let b = a + "</data>\n      <data key=\"kind\">"@;
    lemma_shows_front(a, "</data>\n      <data key=\"kind\">"@, node);
    let d = b + escaped(type_label(c));
    lemma_shows_front(b, escaped(type_label(c)), node);
    let e = d + "</data>\n      <data key=\"language\">"@;
    lemma_shows_front(d, "</data>\n      <data key=\"language\">"@, node);
    let f = e + escaped(language_label(c.language));
    lemma_shows_front(e, escaped(language_label(c.language)), node);
    let g = f + "</data>\n      <data key=\"public\">"@;
    lemma_shows_front(f, "</data>\n      <data key=\"public\">"@, node);
    let flag = if c.is_public { "true"@ } else { "false"@ };
    lemma_shows_front(g, flag, node);
    lemma_shows_front(g + flag, "</data>\n    </node>\n"@, node);
}

proof fn lemma_edge_shown(from: Seq<char>, to: Seq<char>, kind: RelationKind)
    ensures
        shows(edge_of(from, to, kind), edge_text(from, to)),
{
    let edge = edge_text(from, to);
    let mid = "\n      <data key=\"relation\">"@;
    let rest = escaped(heading_of(kind)) + "</data>\n    </edge>\n"@;
    let pad = seq![' ', ' ', ' ', ' '];
    assert("    <edge source=\""@ =~= pad + "<edge source=\""@) by {
        reveal_strlit("    <edge source=\"");
        reveal_strlit("<edge source=\"");
    }
    assert("\">\n      <data key=\"relation\">"@ =~= "\">"@ + mid) by {
        reveal_strlit("\">\n      <data key=\"relation\">");
        reveal_strlit("\">");
        reveal_strlit("\n      <data key=\"relation\">");
    }
    lemma_shows_itself(edge);
    lemma_shows_within(pad, edge, mid + rest, edge);
    assert(edge_of(from, to, kind) =~= pad + edge + (mid + rest));
}

/// The graph has a node for every concept.
pub proof fn the_graph_has_all_nodes(cs: Seq<Concept>, i: int)
    requires
        0 <= i < cs.len(),
    ensures
        shows(graphml_of(cs), node_text(cs[i].id@)),
{
    let node = node_text(cs[i].id@);
    let nodes = nodes_of(cs);
    lemma_node_shown(cs[i]);
    assert(nodes(i) == node_of(cs[i]));
    lemma_shows_gathered(nodes, cs.len(), i, node);
    let after = gather(edges_at(cs), cs.len()) + "  </graph>\n</graphml>\n"@;
    lemma_shows_within(GRAPHML_HEAD@, gather(nodes, cs.len()), after, node);
    assert(graphml_of(cs) =~= GRAPHML_HEAD@ + gather(nodes, cs.len()) + after);
}

/// The graph has an edge for every relationship whose target is there, but for
/// those of being called.
pub proof fn the_graph_has_all_edges(cs: Seq<Concept>, i: int, k: int)
    requires
        0 <= i < cs.len(),
        0 <= k < cs[i].relationships@.len(),
        !(cs[i].relationships@[k].kind is CalledBy),
        is_there(cs, cs[i].relationships@[k].target@),
    ensures
        shows(graphml_of(cs), edge_text(cs[i].id@, cs[i].relationships@[k].target@)),
{
    let r = cs[i].relationships@[k];
    let edge = edge_text(cs[i].id@, r.target@);
    let f = edge_at(cs, cs[i]);
    lemma_edge_shown(cs[i].id@, r.target@, r.kind);
    assert(f(k) == edge_of(cs[i].id@, r.target@, r.kind));
    lemma_shows_gathered(f, cs[i].relationships@.len(), k, edge);
    let all = edges_at(cs);
    assert(all(i) == gather(f, cs[i].relationships@.len()));
    lemma_shows_gathered(all, cs.len(), i, edge);
    lemma_shows_within(GRAPHML_HEAD@ + gather(nodes_of(cs), cs.len()), gather(all, cs.len()), "  </graph>\n</graphml>\n"@, edge);
}

}
