//! XML documents as trees, and what a parser reads of one.

use vstd::prelude::*;
use crate::model::opt_text;
use crate::nesting::{nesting, NESTING_LIMIT};
use crate::render::escaped;

verus! {

/// A node of an XML document: how deep it lies, the name of an element, its
/// `id`, and the text of a text.
#[derive(Debug)]
pub struct XmlNode {
    pub depth: usize,
    pub tag: Option<String>,
    pub id: Option<String>,
    pub text: Option<String>,
}

/// A node as a value.
#[verifier::ext_equal]
pub struct NodeView {
    pub depth: nat,
    pub tag: Option<Seq<char>>,
    pub id: Option<Seq<char>>,
    pub text: Option<Seq<char>>,
}

impl View for XmlNode {
    type V = NodeView;

    open spec fn view(&self) -> NodeView {
        NodeView { depth: self.depth as nat, tag: opt_text(self.tag), id: opt_text(self.id), text: opt_text(self.text) }
    }
}

/// Nodes as values.
pub open spec fn node_views(v: Seq<XmlNode>) -> Seq<NodeView> {
    v.map_values(|n: XmlNode| n@)
}

/// A piece of an XML document: a text, or an element with its name, its `id`
/// and what it holds.
pub enum Markup {
    Text(Seq<char>),
    Element(Seq<char>, Option<Seq<char>>, Seq<Markup>),
}

/// What an element begins with.
pub open spec fn start_tag(tag: Seq<char>, id: Option<Seq<char>>) -> Seq<char> {
    match id {
        Some(v) => seq!['<'] + tag + " id=\""@ + v + "\">"@,
        None => seq!['<'] + tag + seq!['>'],
    }
}

/// What an element ends with.
pub open spec fn end_tag(tag: Seq<char>) -> Seq<char> {
    seq!['<', '/'] + tag + seq!['>']
}

/// A piece written out.
pub open spec fn written(m: Markup) -> Seq<char>
    decreases m,
{
    match m {
        Markup::Text(t) => escaped(t),
        Markup::Element(tag, id, kids) => start_tag(tag, id) + written_all(kids) + end_tag(tag),
    }
}

/// Pieces written out, one after the other.
pub open spec fn written_all(ms: Seq<Markup>) -> Seq<char>
    decreases ms,
{
    if ms.len() == 0 {
        Seq::empty()
    } else {
        written_all(ms.subrange(0, ms.len() - 1)) + written(ms[ms.len() - 1])
    }
}

/// The nodes of a piece that lies so deep, each before those that lie in it.
pub open spec fn nodes_of(m: Markup, depth: nat) -> Seq<NodeView>
    decreases m,
{
    match m {
        Markup::Text(t) => seq![NodeView { depth, tag: None, id: None, text: Some(t) }],
        Markup::Element(tag, id, kids) => seq![NodeView { depth, tag: Some(tag), id, text: None }] + nodes_of_all(kids, depth + 1),
    }
}

/// The nodes of pieces that lie so deep.
pub open spec fn nodes_of_all(ms: Seq<Markup>, depth: nat) -> Seq<NodeView>
    decreases ms,
{
    if ms.len() == 0 {
        Seq::empty()
    } else {
        nodes_of_all(ms.subrange(0, ms.len() - 1), depth) + nodes_of(ms[ms.len() - 1], depth)
    }
}

/// The character can stand in a text and is read as it is. A carriage return
/// is read as a line feed.
pub open spec fn is_text_char(c: char) -> bool {
    if (c as u32) < 32 {
        c == '\t' || c == '\n'
    } else {
        c as u32 != 0xFFFE && c as u32 != 0xFFFF
    }
}

/// All characters of the text can stand in one.
pub open spec fn is_text(t: Seq<char>) -> bool {
    forall|i: int| 0 <= i < t.len() ==> is_text_char(#[trigger] t[i])
}

/// The character can stand in an `id` and is read as it is.
pub open spec fn is_id_char(c: char) -> bool {
    is_text_char(c) && c != '\t' && c != '\n' && c != '<' && c != '&' && c != '"'
}

/// All characters of the text can stand in an `id`.
pub open spec fn is_id(t: Seq<char>) -> bool {
    forall|i: int| 0 <= i < t.len() ==> is_id_char(#[trigger] t[i])
}

/// The name of an element in small letters.
pub open spec fn is_tag(t: Seq<char>) -> bool {
    t.len() > 0 && forall|i: int| 0 <= i < t.len() ==> 'a' <= #[trigger] t[i] <= 'z'
}

/// The piece can be written out: no text is empty or holds what cannot stand
/// in one, and no two texts are neighbours.
pub open spec fn is_legal(m: Markup) -> bool
    decreases m,
{
    match m {
        Markup::Text(t) => t.len() > 0 && is_text(t),
        Markup::Element(tag, id, kids) => is_tag(tag) && (id matches Some(v) ==> is_id(v)) && all_legal(kids),
    }
}

/// The pieces can be written out one after the other.
pub open spec fn all_legal(ms: Seq<Markup>) -> bool
    decreases ms,
{
    ms.len() == 0 || {
        &&& all_legal(ms.subrange(0, ms.len() - 1))
        &&& is_legal(ms[ms.len() - 1])
        &&& ms.len() > 1 ==> !(ms[ms.len() - 1] is Text && ms[ms.len() - 2] is Text)
    }
}

/// What stands before the root of a topic.
pub const TOPIC_PROLOG: &'static str = "<?xml version=\"1.0\" encoding=\"UTF-8\"?>\n<!DOCTYPE topic PUBLIC \"-//OASIS//DTD DITA Topic//EN\" \"topic.dtd\">\n";

/// The document with the root.
pub open spec fn document(root: Markup) -> Seq<char> {
    TOPIC_PROLOG@ + written(root) + "\n"@
}

/// So many characters and more are a document too long to say anything of.
pub open spec fn document_limit() -> nat {
    0x4000_0000
}

/// The nodes of a document, the root element first and each before those that
/// lie in it; nothing for a text that is no XML.
pub uninterp spec fn xml_content(text: Seq<char>) -> Option<Seq<NodeView>>;

/// Where the text is a tree written out, the nodes are those of that tree.
pub open spec fn reads_back(text: Seq<char>, nodes: Option<Vec<XmlNode>>) -> bool {
    forall|root: Markup| #[trigger]
        document(root) == text && root is Element && is_legal(root) && text.len() < document_limit() ==> nodes is Some && node_views(nodes->0@) == nodes_of(root, 2)
}

/// `roxmltree::Document::parse_with_options`, with document types allowed: the
/// root element and its descendants in the order of the document, which depend
/// on the text alone; at least the root is there. A document that is a tree
/// written out, with a topic's prolog, is read as the nodes of that tree: the
/// five entities of XML stand for their characters, and a text without a
/// carriage return is kept as it is. The root lies under the document itself,
/// so its depth is two. For any other text nothing is said of the nodes. The
/// parser calls itself for each element that lies in another one, so the
/// nesting is bounded.
#[verifier::external_body]
pub(crate) fn xml_nodes(text: &str) -> (r: Option<Vec<XmlNode>>)
    requires
        nesting(text@) <= NESTING_LIMIT,
    ensures
        match r {
            Some(v) => xml_content(text@) == Some(node_views(v@)) && v@.len() > 0,
            None => xml_content(text@) is None,
        },
        reads_back(text@, r),
{
    let options = roxmltree::ParsingOptions { allow_dtd: true, ..roxmltree::ParsingOptions::default() };
    let doc = roxmltree::Document::parse_with_options(text, options).ok()?;
    let convert = |n: roxmltree::Node| XmlNode {
        depth: n.ancestors().count(),
        tag: if n.is_element() { Some(n.tag_name().name().to_owned()) } else { None },
        id: n.attribute("id").map(str::to_owned),
        text: if n.is_text() { n.text().map(str::to_owned) } else { None },
    };
    Some(doc.root_element().descendants().map(convert).collect())
}

/// Pieces in two lots are written out one lot after the other.
pub proof fn lemma_written_parts(a: Seq<Markup>, b: Seq<Markup>)
    ensures
        written_all(a + b) == written_all(a) + written_all(b),
    decreases b.len(),
{
    if b.len() == 0 {
        assert(a + b =~= a);
        assert(written_all(a) + written_all(b) =~= written_all(a));
    } else {
        let init = b.subrange(0, b.len() - 1);
        lemma_written_parts(a, init);
        assert((a + b).subrange(0, (a + b).len() - 1) =~= a + init);
        assert((a + b)[(a + b).len() - 1] == b[b.len() - 1]);
        assert(written_all(a) + (written_all(init) + written(b[b.len() - 1])) =~= (written_all(a) + written_all(init)) + written(b[b.len() - 1]));
    }
}

/// The nodes of pieces in two lots are those of one lot after the other.
pub proof fn lemma_nodes_parts(a: Seq<Markup>, b: Seq<Markup>, depth: nat)
    ensures
        nodes_of_all(a + b, depth) == nodes_of_all(a, depth) + nodes_of_all(b, depth),
    decreases b.len(),
{
    if b.len() == 0 {
        assert(a + b =~= a);
        assert(nodes_of_all(a, depth) + nodes_of_all(b, depth) =~= nodes_of_all(a, depth));
    } else {
        let init = b.subrange(0, b.len() - 1);
        lemma_nodes_parts(a, init, depth);
        assert((a + b).subrange(0, (a + b).len() - 1) =~= a + init);
        assert((a + b)[(a + b).len() - 1] == b[b.len() - 1]);
        assert(nodes_of_all(a, depth) + (nodes_of_all(init, depth) + nodes_of(b[b.len() - 1], depth)) =~= (nodes_of_all(a, depth) + nodes_of_all(init, depth)) + nodes_of(
            b[b.len() - 1],
            depth,
        ));
    }
}

/// Pieces in two lots can be written out together unless a text ends the one
/// and begins the other.
pub proof fn lemma_legal_parts(a: Seq<Markup>, b: Seq<Markup>)
    requires
        all_legal(a),
        all_legal(b),
        a.len() > 0 && b.len() > 0 ==> !(a[a.len() - 1] is Text && b[0] is Text),
    ensures
        all_legal(a + b),
    decreases b.len(),
{
    if b.len() == 0 {
        assert(a + b =~= a);
    } else {
        let init = b.subrange(0, b.len() - 1);
        if init.len() > 0 {
            assert(init[0] == b[0]);
        }
        lemma_legal_parts(a, init);
        assert((a + b).subrange(0, (a + b).len() - 1) =~= a + init);
        assert((a + b)[(a + b).len() - 1] == b[b.len() - 1]);
    }
}

/// No node of a piece lies less deep than the piece.
pub proof fn lemma_nodes_lie_deep(m: Markup, depth: nat, k: int)
    requires
        0 <= k < nodes_of(m, depth).len(),
    ensures
        nodes_of(m, depth)[k].depth >= depth,
        k > 0 ==> nodes_of(m, depth)[k].depth > depth,
    decreases m,
{
    match m {
        Markup::Text(t) => {},
        Markup::Element(tag, id, kids) => {
            if k > 0 {
                lemma_all_nodes_lie_deep(kids, depth + 1, k - 1);
            }
        },
    }
}

/// No node of the pieces lies less deep than they do.
pub proof fn lemma_all_nodes_lie_deep(ms: Seq<Markup>, depth: nat, k: int)
    requires
        0 <= k < nodes_of_all(ms, depth).len(),
    ensures
        nodes_of_all(ms, depth)[k].depth >= depth,
    decreases ms,
{
    let init = ms.subrange(0, ms.len() - 1);
    let before = nodes_of_all(init, depth);
    if k < before.len() {
        lemma_all_nodes_lie_deep(init, depth, k);
    } else {
        lemma_nodes_lie_deep(ms[ms.len() - 1], depth, k - before.len());
    }
}

}
