//! Which files a bundle makes, and what the heads of its pages list.

use vstd::prelude::*;
use crate::bundle::{bundle_of, dir_index, dir_indexes, is_first_of_its, page, pages, root_entries, root_index, targets_of};
use crate::dita::{map_of, map_parts, topic_of, topic_refs, topics, MAP_HEAD};
use crate::documents::{note_of, notes};
use crate::html::{concept_html, dir_index_html, html_dir_indexes, html_pages, root_index_html, site_of, DIR_INDEX_NAME};
use crate::model::{Concept, RelationKind, Relationship};
use crate::order::gather;
use crate::pages::{lemma_in_group, lemma_shows_gathered, lemma_shows_itself, lemma_shows_within, shows};
use crate::render::{capitalized, escaped, framed, grouped};
use crate::text::decimal;

verus! {

proof fn lemma_pages(cs: Seq<Concept>, heads: Seq<String>, n: nat)
    ensures
        pages(cs, heads, n).len() == n,
        forall|i: int| 0 <= i < n ==> #[trigger] pages(cs, heads, n)[i] == (cs[i].id@ + ".md"@, page(cs, cs[i], heads[i]@)),
    decreases n,
{
    if n > 0 {
        lemma_pages(cs, heads, (n - 1) as nat);
    }
}

proof fn lemma_dir_indexes(groups: Seq<(Seq<char>, Seq<Concept>)>, n: nat)
    ensures
        dir_indexes(groups, n).len() == n,
        forall|g: int| 0 <= g < n ==> #[trigger] dir_indexes(groups, n)[g] == (groups[g].0 + "/index.md"@, dir_index(groups[g].0, groups[g].1)),
    decreases n,
{
    if n > 0 {
        lemma_dir_indexes(groups, (n - 1) as nat);
    }
}

/// A bundle has one page for each concept, at its id, an index for each
/// directory, and one for the whole, in this order, and no other file.
pub proof fn a_bundle_has_a_page_for_each_concept(cs: Seq<Concept>, heads: Seq<String>, revision: Option<Seq<char>>)
    ensures
        ({
            let files = bundle_of(cs, heads, revision);
            let groups = grouped(cs);
            &&& files.len() == cs.len() + groups.len() + 1
            &&& forall|i: int| 0 <= i < cs.len() ==> (#[trigger] files[i]).0 == cs[i].id@ + ".md"@ && files[i].1 == page(cs, cs[i], heads[i]@)
            &&& forall|g: int| 0 <= g < groups.len() ==> (#[trigger] files[cs.len() + g]).0 == groups[g].0 + "/index.md"@ && files[cs.len() + g].1 == dir_index(groups[g].0, groups[g].1)
            &&& files.last() == ("index.md"@, root_index(groups, revision))
        }),
{
    lemma_pages(cs, heads, cs.len());
    lemma_dir_indexes(grouped(cs), grouped(cs).len());
}

proof fn lemma_html_pages(cs: Seq<Concept>, n: nat)
    ensures
        html_pages(cs, n).len() == n,
        forall|i: int| 0 <= i < n ==> #[trigger] html_pages(cs, n)[i] == (cs[i].id@ + ".html"@, concept_html(cs, cs[i])),
    decreases n,
{
    if n > 0 {
        lemma_html_pages(cs, (n - 1) as nat);
    }
}

proof fn lemma_html_dir_indexes(groups: Seq<(Seq<char>, Seq<Concept>)>, n: nat)
    ensures
        html_dir_indexes(groups, n).len() == n,
        forall|g: int| 0 <= g < n ==> #[trigger] html_dir_indexes(groups, n)[g] == (groups[g].0 + "/"@ + DIR_INDEX_NAME@ + ".html"@, dir_index_html(groups[g].0, groups[g].1)),
    decreases n,
{
    if n > 0 {
        lemma_html_dir_indexes(groups, (n - 1) as nat);
    }
}

/// A site has one page for each concept, at its id, an index for each
/// directory, and one for the whole, in this order, and no other file.
pub proof fn a_site_has_a_page_for_each_concept(cs: Seq<Concept>)
    ensures
        ({
            let files = site_of(cs);
            let groups = grouped(cs);
            &&& files.len() == cs.len() + groups.len() + 1
            &&& forall|i: int| 0 <= i < cs.len() ==> (#[trigger] files[i]).0 == cs[i].id@ + ".html"@ && files[i].1 == concept_html(cs, cs[i])
            &&& forall|g: int| 0 <= g < groups.len() ==> (#[trigger] files[cs.len() + g]).0 == groups[g].0 + "/"@ + DIR_INDEX_NAME@ + ".html"@ && files[cs.len() + g].1 == dir_index_html(
                groups[g].0,
                groups[g].1,
            )
            &&& files.last() == ("index.html"@, root_index_html(groups))
        }),
{
    lemma_html_pages(cs, cs.len());
    lemma_html_dir_indexes(grouped(cs), grouped(cs).len());
}

/// A vault has one note for each concept, and a set of topics one topic for
/// each, at its id.
pub proof fn each_concept_has_a_note_and_a_topic(cs: Seq<Concept>, n: nat)
    ensures
        notes(cs, n).len() == n,
        forall|i: int| 0 <= i < n ==> #[trigger] notes(cs, n)[i] == (cs[i].id@ + ".md"@, note_of(cs, cs[i])),
        topics(cs, n).len() == n,
        forall|i: int| 0 <= i < n ==> #[trigger] topics(cs, n)[i] == (cs[i].id@ + ".dita"@, topic_of(cs[i])),
    decreases n,
{
    if n > 0 {
        each_concept_has_a_note_and_a_topic(cs, (n - 1) as nat);
    }
}

/// The map of topics refers to the topic of every concept.
pub proof fn the_map_refers_to_every_topic(cs: Seq<Concept>, i: int)
    requires
        0 <= i < cs.len(),
    ensures
        shows(map_of(grouped(cs)), "<topicref href=\""@ + escaped(cs[i].id@) + ".dita\"/>\n"@),
{
    let groups = grouped(cs);
    let (g, k) = lemma_in_group(cs, i);
    let piece = "<topicref href=\""@ + escaped(cs[i].id@) + ".dita\"/>\n"@;
    let refs = topic_refs(groups[g].1);
    lemma_shows_itself(piece);
    assert(refs(k) == piece);
    lemma_shows_gathered(refs, groups[g].1.len(), k, piece);
    lemma_shows_within("<topichead navtitle=\""@ + escaped(capitalized(groups[g].0)) + "\">\n"@, gather(refs, groups[g].1.len()), "</topichead>\n"@, piece);
    lemma_shows_gathered(map_parts(groups), groups.len(), g, piece);
    lemma_shows_within(MAP_HEAD@, gather(map_parts(groups), groups.len()), "</map>\n"@, piece);
}

/// The root's index counts the concepts of each directory.
pub proof fn the_root_counts_each_directory(groups: Seq<(Seq<char>, Seq<Concept>)>, revision: Option<Seq<char>>, g: int)
    requires
        0 <= g < groups.len(),
    ensures
        shows(root_index(groups, revision), "- ["@ + capitalized(groups[g].0) + "]("@ + groups[g].0 + "/index.md) ("@ + decimal(groups[g].1.len()) + ")\n"@),
{
    let piece = "- ["@ + capitalized(groups[g].0) + "]("@ + groups[g].0 + "/index.md) ("@ + decimal(groups[g].1.len()) + ")\n"@;
    let f = root_entries(groups);
    lemma_shows_itself(piece);
    assert(f(g) == piece);
    lemma_shows_gathered(f, groups.len(), g, piece);
    let all = gather(f, groups.len());
    let head = "---\nokf_version: \""@ + crate::bundle::OKF_SPEC_VERSION@ + "\"\n"@ + framed("source_revision: \""@, revision, "\"\n"@) + "---\n\n# Knowledge Base\n\n"@;
    lemma_shows_within(head, all, Seq::empty(), piece);
    assert(root_index(groups, revision) =~= head + all + Seq::empty());
}

/// One of the first `n` relationships is of the kind and to the target.
pub open spec fn points_before(rels: Seq<Relationship>, kind: RelationKind, target: Seq<char>, n: int) -> bool {
    exists|i: int| 0 <= i < n && (#[trigger] rels[i]).kind == kind && rels[i].target@ == target
}

/// Some relationship of the kind to `a` comes before any to `b`.
pub open spec fn comes_sooner(rels: Seq<Relationship>, kind: RelationKind, a: Seq<char>, b: Seq<char>) -> bool {
    exists|i: int| #[trigger] points_before(rels, kind, a, i) && !points_before(rels, kind, b, i)
}

/// The head of a page lists, under each kind, the targets of the relationships
/// of that kind, all of them and no others, in the order in which each comes
/// first.
pub proof fn heads_list_all_targets(rels: Seq<Relationship>, kind: RelationKind, n: nat)
    requires
        n <= rels.len(),
    ensures
        forall|t: Seq<char>| #[trigger] targets_of(rels, kind, n).contains(t) <==> points_before(rels, kind, t, n as int),
        forall|k: int, l: int| 0 <= k < l < targets_of(rels, kind, n).len() ==> comes_sooner(rels, kind, #[trigger] targets_of(rels, kind, n)[k], #[trigger] targets_of(rels, kind, n)[l]),
    decreases n,
{
    let all = targets_of(rels, kind, n);
    if n > 0 {
        let rest = targets_of(rels, kind, (n - 1) as nat);
        let r = rels[n - 1];
        heads_list_all_targets(rels, kind, (n - 1) as nat);
        let more = r.kind == kind && is_first_of_its(rels, n - 1);
        assert(more ==> !points_before(rels, kind, r.target@, n - 1)) by {
            if more && points_before(rels, kind, r.target@, n - 1) {
                let i = choose|i: int| 0 <= i < n - 1 && (#[trigger] rels[i]).kind == kind && rels[i].target@ == r.target@;
                assert(rels[i].kind == rels[n - 1].kind);
            }
        }
        assert forall|t: Seq<char>| #[trigger] all.contains(t) <==> points_before(rels, kind, t, n as int) by {
            if rest.contains(t) {
                let k = choose|k: int| 0 <= k < rest.len() && rest[k] == t;
                assert(all[k] == t);
                let i = choose|i: int| 0 <= i < n - 1 && (#[trigger] rels[i]).kind == kind && rels[i].target@ == t;
                assert(rels[i].kind == kind);
            }
            if all.contains(t) {
                let k = choose|k: int| 0 <= k < all.len() && all[k] == t;
                if k < rest.len() {
                    assert(rest[k] == t);
                    assert(rest.contains(t));
                } else {
                    assert(rels[n - 1].kind == kind);
                }
            }
            if points_before(rels, kind, t, n as int) {
                let i = choose|i: int| 0 <= i < n && (#[trigger] rels[i]).kind == kind && rels[i].target@ == t;
                if i < n - 1 {
                    assert(points_before(rels, kind, t, n - 1));
                } else if is_first_of_its(rels, n - 1) {
                    assert(all[rest.len() as int] == t);
                } else {
                    let j = choose|j: int| 0 <= j < n - 1 && (#[trigger] rels[j]).kind == r.kind && rels[j].target@ == r.target@;
                    assert(points_before(rels, kind, t, n - 1));
                }
            }
        }
        assert forall|k: int, l: int| 0 <= k < l < all.len() implies comes_sooner(rels, kind, #[trigger] all[k], #[trigger] all[l]) by {
            assert(rest[k] == all[k]);
            if l < rest.len() {
                assert(rest[l] == all[l]);
            } else {
                assert(rest.contains(rest[k]));
                assert(points_before(rels, kind, all[k], n - 1));
                assert(!points_before(rels, kind, all[l], n - 1));
            }
        }
    }
}

}
