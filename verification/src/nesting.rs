//! How deep the elements of an XML document lie in each other.

use vstd::prelude::*;
use crate::order::gather;
use crate::render::{escaped_char, escapes};
use crate::text::{chars_of, matches_at};
use crate::text::stands_at;
use crate::xml::{all_legal, document, end_tag, is_id, is_legal, is_tag, start_tag, written, written_all, Markup, TOPIC_PROLOG};

verus! {

/// A document whose elements lie deeper in each other is not handed to the
/// parser, which goes down element by element: it takes several kilobytes of
/// stack for each, and a thread has two megabytes unless it asks for more.
pub const NESTING_LIMIT: usize = 256;

/// Either part of a document: what it holds, or the declarations in front.
#[derive(Clone, Copy, PartialEq, Eq, Structural)]
pub enum Zone {
    Content,
    Subset,
}

/// What stands between two angle brackets.
#[derive(Clone, Copy, PartialEq, Eq, Structural)]
pub enum Head {
    Declaration,
    Doctype,
    Entity,
    Element,
    Other,
}

/// Where in a document one is. A quotation is told by whether its marks are
/// double.
#[derive(Clone, Copy, PartialEq, Eq, Structural)]
pub enum Place {
    Between(Zone),
    Comment(Zone),
    Instruction(Zone),
    Data,
    Within(Head),
    Quoted(Head, bool),
}

/// What a step does to the nesting: an element opens or closes, or what an
/// entity stands for begins.
#[derive(Clone, Copy, PartialEq, Eq, Structural)]
pub enum Effect {
    Nothing,
    Opens,
    Closes,
    Declares,
}

/// The step from a place between two heads.
pub open spec fn step_between(s: Seq<char>, i: int, zone: Zone) -> (Place, int, Effect) {
    if zone is Subset && s[i] == ']' {
        (Place::Between(Zone::Content), 1, Effect::Nothing)
    } else if s[i] != '<' {
        (Place::Between(zone), 1, Effect::Nothing)
    } else if stands_at(s, "<!--"@, i) {
        (Place::Comment(zone), 4, Effect::Nothing)
    } else if stands_at(s, "<?"@, i) {
        (Place::Instruction(zone), 2, Effect::Nothing)
    } else if zone is Subset {
        if stands_at(s, "<!ENTITY"@, i) {
            (Place::Within(Head::Entity), 8, Effect::Nothing)
        } else {
            (Place::Within(Head::Other), 1, Effect::Nothing)
        }
    } else if stands_at(s, "<![CDATA["@, i) {
        (Place::Data, 9, Effect::Nothing)
    } else if stands_at(s, "<!DOCTYPE"@, i) {
        (Place::Within(Head::Doctype), 9, Effect::Nothing)
    } else if stands_at(s, "</"@, i) {
        (Place::Between(Zone::Content), 2, Effect::Closes)
    } else {
        (Place::Within(Head::Element), 1, Effect::Opens)
    }
}

/// The step from a place between angle brackets.
pub open spec fn step_within(s: Seq<char>, i: int, head: Head) -> (Place, int, Effect) {
    if !(head is Other) && (s[i] == '"' || s[i] == '\'') {
        (Place::Quoted(head, s[i] == '"'), 1, if head is Entity {
            Effect::Declares
        } else {
            Effect::Nothing
        })
    } else if head is Declaration && stands_at(s, "?>"@, i) {
        (Place::Between(Zone::Content), 2, Effect::Nothing)
    } else if head is Doctype && s[i] == '[' {
        (Place::Between(Zone::Subset), 1, Effect::Nothing)
    } else if head is Element && stands_at(s, "/>"@, i) {
        (Place::Between(Zone::Content), 2, Effect::Closes)
    } else if (head is Element || head is Doctype) && s[i] == '>' {
        (Place::Between(Zone::Content), 1, Effect::Nothing)
    } else if (head is Entity || head is Other) && s[i] == '>' {
        (Place::Between(Zone::Subset), 1, Effect::Nothing)
    } else {
        (Place::Within(head), 1, Effect::Nothing)
    }
}

/// The step from a place in the document: the next place, so many characters
/// on, and what it does to the nesting.
pub open spec fn step(s: Seq<char>, i: int, place: Place) -> (Place, int, Effect) {
    match place {
        Place::Between(zone) => step_between(s, i, zone),
        Place::Comment(zone) => if stands_at(s, "-->"@, i) {
            (Place::Between(zone), 3, Effect::Nothing)
        } else {
            (place, 1, Effect::Nothing)
        },
        Place::Instruction(zone) => if stands_at(s, "?>"@, i) {
            (Place::Between(zone), 2, Effect::Nothing)
        } else {
            (place, 1, Effect::Nothing)
        },
        Place::Data => if stands_at(s, "]]>"@, i) {
            (Place::Between(Zone::Content), 3, Effect::Nothing)
        } else {
            (place, 1, Effect::Nothing)
        },
        Place::Within(head) => step_within(s, i, head),
        Place::Quoted(head, double) => if s[i] == (if double {
            '"'
        } else {
            '\''
        }) {
            (Place::Within(head), 1, Effect::Nothing)
        } else {
            (place, 1, Effect::Nothing)
        },
    }
}

/// How many elements are open after the step.
pub open spec fn opened(open: nat, effect: Effect) -> nat {
    match effect {
        Effect::Opens => open + 1,
        Effect::Closes => if open > 0 {
            (open - 1) as nat
        } else {
            0
        },
        _ => open,
    }
}

/// The larger number.
pub open spec fn larger(a: nat, b: nat) -> nat {
    if a < b {
        b
    } else {
        a
    }
}

/// How deep the elements of what an entity stands for lie in each other, from
/// `i` up to the mark that ends it, with so many open and so many at most
/// before.
pub open spec fn value_from(s: Seq<char>, i: int, mark: char, place: Place, open: nat, most: nat) -> nat
    decreases s.len() - i,
{
    if i < 0 || i >= s.len() || s[i] == mark {
        most
    } else {
        let (next, taken, effect) = step(s, i, place);
        proof {
            lemma_mark_lengths();
        }
        value_from(s, i + taken, mark, next, opened(open, effect), larger(most, opened(open, effect)))
    }
}

/// How deep the elements of the document from `i` on lie in each other, with
/// so many open, so many at most before, and so many at most in what an entity
/// stands for. Entities stand in each other up to ten deep.
pub open spec fn depth_from(s: Seq<char>, i: int, place: Place, open: nat, most: nat, declared: nat) -> nat
    decreases s.len() - i,
{
    if i < 0 || i >= s.len() {
        most + 10 * declared
    } else {
        let (next, taken, effect) = step(s, i, place);
        proof {
            lemma_mark_lengths();
        }
        depth_from(
            s,
            i + taken,
            next,
            opened(open, effect),
            larger(most, opened(open, effect)),
            if effect is Declares {
                larger(declared, value_from(s, i + 1, s[i], Place::Between(Zone::Content), 0, 0))
            } else {
                declared
            },
        )
    }
}

/// Where the document begins: behind a byte order mark.
pub open spec fn beginning(s: Seq<char>) -> int {
    if s.len() > 0 && s[0] == '\u{feff}' {
        1
    } else {
        0
    }
}

/// How deep the elements of the document lie in each other, at most.
pub open spec fn nesting(s: Seq<char>) -> nat {
    let b = beginning(s);
    if stands_at(s, "<?xml "@, b) {
        depth_from(s, b + 5, Place::Within(Head::Declaration), 0, 0, 0)
    } else {
        depth_from(s, b, Place::Between(Zone::Content), 0, 0, 0)
    }
}

fn follows(v: &Vec<char>, p: &str, i: usize) -> (r: bool)
    ensures
        r == stands_at(v@, p@, i as int),
{
    matches_at(v, &chars_of(p), i)
}

fn next_between(v: &Vec<char>, i: usize, zone: Zone) -> (r: (Place, usize, Effect))
    requires
        i < v@.len(),
    ensures
        step_between(v@, i as int, zone) == (r.0, r.1 as int, r.2),
        1 <= r.1 <= v@.len() - i,
{
    proof {
        lemma_mark_lengths();
    }
    let subset: bool = matches!(zone, Zone::Subset);
    if subset && v[i] == ']' {
        (Place::Between(Zone::Content), 1, Effect::Nothing)
    } else if v[i] != '<' {
        (Place::Between(zone), 1, Effect::Nothing)
    } else if follows(v, "<!--", i) {
        (Place::Comment(zone), 4, Effect::Nothing)
    } else if follows(v, "<?", i) {
        (Place::Instruction(zone), 2, Effect::Nothing)
    } else if subset {
        if follows(v, "<!ENTITY", i) {
            (Place::Within(Head::Entity), 8, Effect::Nothing)
        } else {
            (Place::Within(Head::Other), 1, Effect::Nothing)
        }
    } else if follows(v, "<![CDATA[", i) {
        (Place::Data, 9, Effect::Nothing)
    } else if follows(v, "<!DOCTYPE", i) {
        (Place::Within(Head::Doctype), 9, Effect::Nothing)
    } else if follows(v, "</", i) {
        (Place::Between(Zone::Content), 2, Effect::Closes)
    } else {
        (Place::Within(Head::Element), 1, Effect::Opens)
    }
}

fn next_within(v: &Vec<char>, i: usize, head: Head) -> (r: (Place, usize, Effect))
    requires
        i < v@.len(),
    ensures
        step_within(v@, i as int, head) == (r.0, r.1 as int, r.2),
        1 <= r.1 <= v@.len() - i,
{
    proof {
        lemma_mark_lengths();
    }
    let other: bool = matches!(head, Head::Other);
    let element: bool = matches!(head, Head::Element);
    let doctype: bool = matches!(head, Head::Doctype);
    let entity: bool = matches!(head, Head::Entity);
    if !other && (v[i] == '"' || v[i] == '\'') {
        let effect = if entity {
            Effect::Declares
        } else {
            Effect::Nothing
        };
        (Place::Quoted(head, v[i] == '"'), 1, effect)
    } else if matches!(head, Head::Declaration) && follows(v, "?>", i) {
        (Place::Between(Zone::Content), 2, Effect::Nothing)
    } else if doctype && v[i] == '[' {
        (Place::Between(Zone::Subset), 1, Effect::Nothing)
    } else if element && follows(v, "/>", i) {
        (Place::Between(Zone::Content), 2, Effect::Closes)
    } else if (element || doctype) && v[i] == '>' {
        (Place::Between(Zone::Content), 1, Effect::Nothing)
    } else if (entity || other) && v[i] == '>' {
        (Place::Between(Zone::Subset), 1, Effect::Nothing)
    } else {
        (Place::Within(head), 1, Effect::Nothing)
    }
}

fn next_step(v: &Vec<char>, i: usize, place: Place) -> (r: (Place, usize, Effect))
    requires
        i < v@.len(),
    ensures
        step(v@, i as int, place) == (r.0, r.1 as int, r.2),
        1 <= r.1 <= v@.len() - i,
{
    proof {
        lemma_mark_lengths();
    }
    match place {
        Place::Between(zone) => next_between(v, i, zone),
        Place::Comment(zone) => if follows(v, "-->", i) {
            (Place::Between(zone), 3, Effect::Nothing)
        } else {
            (place, 1, Effect::Nothing)
        },
        Place::Instruction(zone) => if follows(v, "?>", i) {
            (Place::Between(zone), 2, Effect::Nothing)
        } else {
            (place, 1, Effect::Nothing)
        },
        Place::Data => if follows(v, "]]>", i) {
            (Place::Between(Zone::Content), 3, Effect::Nothing)
        } else {
            (place, 1, Effect::Nothing)
        },
        Place::Within(head) => next_within(v, i, head),
        Place::Quoted(head, double) => {
            let mark: char = if double {
                '"'
            } else {
                '\''
            };
            if v[i] == mark {
                (Place::Within(head), 1, Effect::Nothing)
            } else {
                (place, 1, Effect::Nothing)
            }
        },
    }
}

/// How deep the elements of what an entity stands for lie in each other.
fn value_depth(v: &Vec<char>, start: usize, mark: char) -> (r: usize)
    requires
        start <= v@.len(),
    ensures
        r == value_from(v@, start as int, mark, Place::Between(Zone::Content), 0, 0),
        r <= v@.len(),
{
    let n: usize = v.len();
    let mut i: usize = start;
    let mut place: Place = Place::Between(Zone::Content);
    let mut open: usize = 0;
    let mut most: usize = 0;
    while i < n && v[i] != mark
        invariant
            n == v@.len(),
            i <= n,
            open <= i,
            most <= i,
            value_from(v@, i as int, mark, place, open as nat, most as nat) == value_from(v@, start as int, mark, Place::Between(Zone::Content), 0, 0),
        decreases n - i,
    {
        let (next, taken, effect) = next_step(v, i, place);
        match effect {
            Effect::Opens => {
                open = open + 1;
            },
            Effect::Closes => {
                if open > 0 {
                    open = open - 1;
                }
            },
            _ => {},
        }
        if most < open {
            most = open;
        }
        place = next;
        i = i + taken;
    }
    most
}

/// Whether the elements of the document lie in each other no deeper than what
/// is read.
pub fn is_shallow(text: &str) -> (r: bool)
    ensures
        r == (nesting(text@) <= NESTING_LIMIT),
{
    let v = chars_of(text);
    let n: usize = v.len();
    let begin: usize = if n > 0 && v[0] == '\u{feff}' {
        1
    } else {
        0
    };
    proof {
        lemma_mark_lengths();
    }
    let declared_xml: bool = follows(&v, "<?xml ", begin);
    let mut place: Place = if declared_xml {
        Place::Within(Head::Declaration)
    } else {
        Place::Between(Zone::Content)
    };
    let mut i: usize = if declared_xml {
        begin + 5
    } else {
        begin
    };
    let mut open: usize = 0;
    let mut most: usize = 0;
    let mut declared: usize = 0;
    while i < n
        invariant
            n == v@.len(),
            i <= n,
            open <= i,
            most <= i,
            declared <= n,
            depth_from(v@, i as int, place, open as nat, most as nat, declared as nat) == nesting(v@),
        decreases n - i,
    {
        let (next, taken, effect) = next_step(&v, i, place);
        match effect {
            Effect::Opens => {
                open = open + 1;
            },
            Effect::Closes => {
                if open > 0 {
                    open = open - 1;
                }
            },
            Effect::Declares => {
                let depth: usize = value_depth(&v, i + 1, v[i]);
                if declared < depth {
                    declared = depth;
                }
            },
            Effect::Nothing => {},
        }
        if most < open {
            most = open;
        }
        place = next;
        i = i + taken;
    }
    most <= NESTING_LIMIT && declared <= NESTING_LIMIT && most + 10 * declared <= NESTING_LIMIT
}

/// How long the marks are that a document is taken apart by.
pub proof fn lemma_mark_lengths()
    ensures
        "<!--"@.len() == 4,
        "<?"@.len() == 2,
        "<!ENTITY"@.len() == 8,
        "<![CDATA["@.len() == 9,
        "<!DOCTYPE"@.len() == 9,
        "</"@.len() == 2,
        "-->"@.len() == 3,
        "?>"@.len() == 2,
        "]]>"@.len() == 3,
        "/>"@.len() == 2,
        "<?xml "@.len() == 6,
{
    reveal_strlit("<!--");
    reveal_strlit("<?");
    reveal_strlit("<!ENTITY");
    reveal_strlit("<![CDATA[");
    reveal_strlit("<!DOCTYPE");
    reveal_strlit("</");
    reveal_strlit("-->");
    reveal_strlit("?>");
    reveal_strlit("]]>");
    reveal_strlit("/>");
    reveal_strlit("<?xml ");
}

/// How deep the elements of a piece lie in each other.
pub open spec fn height(m: Markup) -> nat
    decreases m,
{
    match m {
        Markup::Text(_) => 0,
        Markup::Element(_, _, kids) => 1 + height_all(kids),
    }
}

/// How deep the elements of the pieces lie in each other.
pub open spec fn height_all(ms: Seq<Markup>) -> nat
    decreases ms,
{
    if ms.len() == 0 {
        0
    } else {
        larger(height_all(ms.subrange(0, ms.len() - 1)), height(ms[ms.len() - 1]))
    }
}

/// Pieces in two lots are as high as the higher lot.
pub proof fn lemma_height_parts(a: Seq<Markup>, b: Seq<Markup>)
    ensures
        height_all(a + b) == larger(height_all(a), height_all(b)),
    decreases b.len(),
{
    if b.len() == 0 {
        assert(a + b =~= a);
    } else {
        let init = b.subrange(0, b.len() - 1);
        lemma_height_parts(a, init);
        assert((a + b).subrange(0, (a + b).len() - 1) =~= a + init);
        assert((a + b)[(a + b).len() - 1] == b[b.len() - 1]);
    }
}

/// The text holds nothing that opens or closes anything.
pub open spec fn is_flat(t: Seq<char>) -> bool {
    forall|k: int| 0 <= k < t.len() ==> #[trigger] t[k] != '<'
}

proof fn lemma_escaped_is_flat(t: Seq<char>, n: nat)
    requires
        n <= t.len(),
    ensures
        is_flat(gather(escapes(t), n)),
    decreases n,
{
    if n > 0 {
        lemma_escaped_is_flat(t, (n - 1) as nat);
        let c = t[n - 1];
        assert(is_flat(escaped_char(c))) by {
            reveal_strlit("&amp;");
            reveal_strlit("&lt;");
            reveal_strlit("&gt;");
            reveal_strlit("&quot;");
        }
        let before = gather(escapes(t), (n - 1) as nat);
        assert(gather(escapes(t), n) == before + escaped_char(c));
        assert forall|k: int| 0 <= k < (before + escaped_char(c)).len() implies #[trigger] (before + escaped_char(c))[k] != '<' by {
            if k < before.len() {
                assert(before[k] != '<');
            } else {
                assert(escaped_char(c)[k - before.len()] != '<');
            }
        }
    }
}

/// Steps that stay in their place change nothing.
proof fn lemma_stays(s: Seq<char>, i: int, j: int, place: Place, open: nat, most: nat)
    requires
        0 <= i <= j <= s.len(),
        open <= most,
        forall|k: int| i <= k < j ==> #[trigger] step(s, k, place) == (place, 1int, Effect::Nothing),
    ensures
        depth_from(s, i, place, open, most, 0) == depth_from(s, j, place, open, most, 0),
    decreases j - i,
{
    if i < j {
        assert(step(s, i, place) == (place, 1int, Effect::Nothing));
        lemma_stays(s, i + 1, j, place, open, most);
    }
}

/// A flat part between two heads changes nothing.
proof fn lemma_flat(s: Seq<char>, i: int, j: int, open: nat, most: nat)
    requires
        0 <= i <= j <= s.len(),
        open <= most,
        is_flat(s.subrange(i, j)),
    ensures
        depth_from(s, i, Place::Between(Zone::Content), open, most, 0) == depth_from(s, j, Place::Between(Zone::Content), open, most, 0),
{
    let place = Place::Between(Zone::Content);
    assert forall|k: int| i <= k < j implies #[trigger] step(s, k, place) == (place, 1int, Effect::Nothing) by {
        assert(s.subrange(i, j)[k - i] != '<');
    }
    lemma_stays(s, i, j, place, open, most);
}

/// What follows the bracket tells what it opens.
proof fn lemma_second(s: Seq<char>, i: int)
    requires
        0 <= i,
        i + 1 < s.len(),
        s[i] == '<',
    ensures
        s[i + 1] != '!' ==> !stands_at(s, "<!--"@, i) && !stands_at(s, "<![CDATA["@, i) && !stands_at(s, "<!DOCTYPE"@, i),
        s[i + 1] != '?' ==> !stands_at(s, "<?"@, i),
        s[i + 1] != '/' ==> !stands_at(s, "</"@, i),
        s[i + 1] == '/' ==> stands_at(s, "</"@, i),
{
    lemma_mark_lengths();
    assert("<!--"@[1] == '!' && "<![CDATA["@[1] == '!' && "<!DOCTYPE"@[1] == '!' && "<?"@[1] == '?' && "</"@ =~= seq!['<', '/']) by {
        reveal_strlit("<!--");
        reveal_strlit("<![CDATA[");
        reveal_strlit("<!DOCTYPE");
        reveal_strlit("<?");
        reveal_strlit("</");
    }
    if stands_at(s, "<!--"@, i) {
        assert(s.subrange(i, i + 4)[1] == s[i + 1]);
    }
    if stands_at(s, "<![CDATA["@, i) {
        assert(s.subrange(i, i + 9)[1] == s[i + 1]);
    }
    if stands_at(s, "<!DOCTYPE"@, i) {
        assert(s.subrange(i, i + 9)[1] == s[i + 1]);
    }
    if stands_at(s, "<?"@, i) {
        assert(s.subrange(i, i + 2)[1] == s[i + 1]);
    }
    if stands_at(s, "</"@, i) {
        assert(s.subrange(i, i + 2)[1] == s[i + 1]);
    }
    if s[i + 1] == '/' {
        assert(s.subrange(i, i + 2) =~= "</"@);
    }
}

/// The character has no meaning of its own in the head of an element.
pub open spec fn is_plain(c: char) -> bool {
    c != '"' && c != '\'' && c != '/' && c != '>'
}

/// Plain characters in the head of an element change nothing.
proof fn lemma_plain(s: Seq<char>, i: int, j: int, open: nat, most: nat)
    requires
        0 <= i <= j <= s.len(),
        open <= most,
        forall|k: int| i <= k < j ==> is_plain(#[trigger] s[k]),
    ensures
        depth_from(s, i, Place::Within(Head::Element), open, most, 0) == depth_from(s, j, Place::Within(Head::Element), open, most, 0),
{
    let place = Place::Within(Head::Element);
    lemma_mark_lengths();
    assert("/>"@[0] == '/') by {
        reveal_strlit("/>");
    }
    assert forall|k: int| i <= k < j implies #[trigger] step(s, k, place) == (place, 1int, Effect::Nothing) by {
        assert(is_plain(s[k]));
        if stands_at(s, "/>"@, k) {
            assert(s.subrange(k, k + 2)[0] == s[k]);
        }
    }
    lemma_stays(s, i, j, place, open, most);
}

/// The head of an element opens it.
proof fn lemma_start(s: Seq<char>, i: int, tag: Seq<char>, id: Option<Seq<char>>, open: nat, most: nat)
    requires
        is_tag(tag),
        id matches Some(v) ==> is_id(v),
        0 <= i,
        i + start_tag(tag, id).len() <= s.len(),
        s.subrange(i, i + start_tag(tag, id).len()) == start_tag(tag, id),
        open <= most,
    ensures
        depth_from(s, i, Place::Between(Zone::Content), open, most, 0) == depth_from(
            s,
            i + start_tag(tag, id).len(),
            Place::Between(Zone::Content),
            open + 1,
            larger(most, open + 1),
            0,
        ),
{
    let head = start_tag(tag, id);
    let n = tag.len() as int;
    let m = larger(most, open + 1);
    assert forall|k: int| 0 <= k < head.len() implies s[i + k] == #[trigger] head[k] by {
        assert(s.subrange(i, i + head.len())[k] == s[i + k]);
    }
    assert(head[0] == '<' && head[1] == tag[0]) by {
        reveal_strlit(" id=\"");
    }
    assert(s[i + 1] == head[1]);
    assert(s[i] == head[0]);
    lemma_second(s, i);
    let element = Place::Within(Head::Element);
    assert(step(s, i, Place::Between(Zone::Content)) == (element, 1int, Effect::Opens));
    match id {
        None => {
            assert forall|k: int| i + 1 <= k < i + 1 + n implies is_plain(#[trigger] s[k]) by {
                assert(head[k - i] == tag[k - i - 1]);
            }
            lemma_plain(s, i + 1, i + 1 + n, open + 1, m);
            assert(head[1 + n] == '>');
            lemma_leaves(s, i + 1 + n, open + 1, m);
        },
        Some(v) => {
            assert(" id=\""@ =~= seq![' ', 'i', 'd', '=', '"'] && "\">"@ =~= seq!['"', '>']) by {
                reveal_strlit(" id=\"");
                reveal_strlit("\">");
            }
            assert forall|k: int| i + 1 <= k < i + 5 + n implies is_plain(#[trigger] s[k]) by {
                assert(s[k] == head[k - i]);
                if k < i + 1 + n {
                    assert(head[k - i] == tag[k - i - 1]);
                }
            }
            lemma_plain(s, i + 1, i + 5 + n, open + 1, m);
            assert(head[5 + n] == '"');
            let quoted = Place::Quoted(Head::Element, true);
            assert(step(s, i + 5 + n, element) == (quoted, 1int, Effect::Nothing));
            let w = v.len() as int;
            assert forall|k: int| i + 6 + n <= k < i + 6 + n + w implies #[trigger] step(s, k, quoted) == (quoted, 1int, Effect::Nothing) by {
                assert(s[k] == head[k - i]);
                assert(head[k - i] == v[k - i - 6 - n]);
            }
            lemma_stays(s, i + 6 + n, i + 6 + n + w, quoted, open + 1, m);
            assert(head[6 + n + w] == '"' && head[7 + n + w] == '>');
            assert(s[i + (6 + n + w)] == '"' && s[i + (7 + n + w)] == '>');
            assert(step(s, i + 6 + n + w, quoted) == (element, 1int, Effect::Nothing));
            lemma_leaves(s, i + 7 + n + w, open + 1, m);
        },
    }
}

/// A bracket ends the head of an element.
proof fn lemma_leaves(s: Seq<char>, i: int, open: nat, most: nat)
    requires
        0 <= i < s.len(),
        s[i] == '>',
        open <= most,
    ensures
        depth_from(s, i, Place::Within(Head::Element), open, most, 0) == depth_from(s, i + 1, Place::Between(Zone::Content), open, most, 0),
{
    lemma_mark_lengths();
    assert("/>"@[0] == '/') by {
        reveal_strlit("/>");
    }
    if stands_at(s, "/>"@, i) {
        assert(s.subrange(i, i + 2)[0] == s[i]);
    }
    assert(step(s, i, Place::Within(Head::Element)) == (Place::Between(Zone::Content), 1int, Effect::Nothing));
}

/// The tag at its end closes an element.
proof fn lemma_end(s: Seq<char>, i: int, tag: Seq<char>, open: nat, most: nat)
    requires
        is_tag(tag),
        0 <= i,
        i + end_tag(tag).len() <= s.len(),
        s.subrange(i, i + end_tag(tag).len()) == end_tag(tag),
        open < most,
    ensures
        depth_from(s, i, Place::Between(Zone::Content), open + 1, most, 0) == depth_from(s, i + end_tag(tag).len(), Place::Between(Zone::Content), open, most, 0),
{
    let tail = end_tag(tag);
    assert forall|k: int| 0 <= k < tail.len() implies s[i + k] == #[trigger] tail[k] by {
        assert(s.subrange(i, i + tail.len())[k] == s[i + k]);
    }
    assert(tail[0] == '<' && tail[1] == '/');
    lemma_second(s, i);
    assert(step(s, i, Place::Between(Zone::Content)) == (Place::Between(Zone::Content), 2int, Effect::Closes));
    let rest = s.subrange(i + 2, i + tail.len());
    assert forall|k: int| 0 <= k < rest.len() implies #[trigger] rest[k] != '<' by {
        assert(rest[k] == tail[k + 2]);
        if k < tag.len() {
            assert(tail[k + 2] == tag[k]);
        }
    }
    lemma_flat(s, i + 2, i + tail.len(), open, most);
}

/// A piece written out nests as deep as it is high.
proof fn lemma_piece(s: Seq<char>, i: int, m: Markup, open: nat, most: nat)
    requires
        is_legal(m),
        0 <= i,
        i + written(m).len() <= s.len(),
        s.subrange(i, i + written(m).len()) == written(m),
        open <= most,
    ensures
        depth_from(s, i, Place::Between(Zone::Content), open, most, 0) == depth_from(
            s,
            i + written(m).len(),
            Place::Between(Zone::Content),
            open,
            larger(most, open + height(m)),
            0,
        ),
    decreases m,
{
    let all = written(m);
    match m {
        Markup::Text(t) => {
            lemma_escaped_is_flat(t, t.len());
            lemma_flat(s, i, i + all.len(), open, most);
        },
        Markup::Element(tag, id, kids) => {
            let (a, b, c) = (start_tag(tag, id), written_all(kids), end_tag(tag));
            assert(all == a + b + c);
            assert(all.subrange(0, a.len() as int) =~= a);
            assert(all.subrange(a.len() as int, (a.len() + b.len()) as int) =~= b);
            assert(all.subrange((a.len() + b.len()) as int, all.len() as int) =~= c);
            let j = i + a.len();
            let k = j + b.len();
            assert(s.subrange(i, j) =~= all.subrange(0, a.len() as int));
            assert(s.subrange(j, k) =~= all.subrange(a.len() as int, (a.len() + b.len()) as int));
            assert(s.subrange(k, k + c.len()) =~= all.subrange((a.len() + b.len()) as int, all.len() as int));
            let m1 = larger(most, open + 1);
            lemma_start(s, i, tag, id, open, most);
            lemma_pieces(s, j, kids, open + 1, m1);
            lemma_end(s, k, tag, open, larger(m1, open + 1 + height_all(kids)));
        },
    }
}

/// Pieces written out nest as deep as they are high.
proof fn lemma_pieces(s: Seq<char>, i: int, ms: Seq<Markup>, open: nat, most: nat)
    requires
        all_legal(ms),
        0 <= i,
        i + written_all(ms).len() <= s.len(),
        s.subrange(i, i + written_all(ms).len()) == written_all(ms),
        open <= most,
    ensures
        depth_from(s, i, Place::Between(Zone::Content), open, most, 0) == depth_from(
            s,
            i + written_all(ms).len(),
            Place::Between(Zone::Content),
            open,
            larger(most, open + height_all(ms)),
            0,
        ),
    decreases ms,
{
    if ms.len() > 0 {
        let init = ms.subrange(0, ms.len() - 1);
        let last = ms[ms.len() - 1];
        let (a, b) = (written_all(init), written(last));
        let all = written_all(ms);
        assert(all == a + b);
        assert(all.subrange(0, a.len() as int) =~= a);
        assert(all.subrange(a.len() as int, all.len() as int) =~= b);
        let j = i + a.len();
        assert(s.subrange(i, j) =~= all.subrange(0, a.len() as int));
        assert(s.subrange(j, j + b.len()) =~= all.subrange(a.len() as int, all.len() as int));
        lemma_pieces(s, i, init, open, most);
        lemma_piece(s, j, last, open, larger(most, open + height_all(init)));
    }
}

proof fn lemma_prolog_chars()
    ensures
        TOPIC_PROLOG@.len() == 106,
        TOPIC_PROLOG@.subrange(0, 6) == "<?xml "@,
        forall|k: int| 5 <= k < 14 ==> TOPIC_PROLOG@[k] != '"' && TOPIC_PROLOG@[k] != '\'' && TOPIC_PROLOG@[k] != '?',
        TOPIC_PROLOG@[14] == '"',
        forall|k: int| 15 <= k < 18 ==> TOPIC_PROLOG@[k] != '"',
        TOPIC_PROLOG@[18] == '"',
        forall|k: int| 19 <= k < 29 ==> TOPIC_PROLOG@[k] != '"' && TOPIC_PROLOG@[k] != '\'' && TOPIC_PROLOG@[k] != '?',
        TOPIC_PROLOG@[29] == '"',
        forall|k: int| 30 <= k < 35 ==> TOPIC_PROLOG@[k] != '"',
        TOPIC_PROLOG@[35] == '"',
        TOPIC_PROLOG@[36] == '?',
        TOPIC_PROLOG@[37] == '>',
        TOPIC_PROLOG@[38] == '\n',
{
    reveal_strlit("<?xml ");
    reveal_strlit("<?xml version=\"1.0\" encoding=\"UTF-8\"?>\n<!DOCTYPE topic PUBLIC \"-//OASIS//DTD DITA Topic//EN\" \"topic.dtd\">\n");
    assert(TOPIC_PROLOG@.subrange(0, 6) =~= "<?xml "@);
}

proof fn lemma_doctype_chars()
    ensures
        TOPIC_PROLOG@.len() == 106,
        TOPIC_PROLOG@.subrange(39, 48) == "<!DOCTYPE"@,
        forall|k: int| 48 <= k < 62 ==> TOPIC_PROLOG@[k] != '"' && TOPIC_PROLOG@[k] != '\'' && TOPIC_PROLOG@[k] != '[' && TOPIC_PROLOG@[k] != '>',
        TOPIC_PROLOG@[62] == '"',
        forall|k: int| 63 <= k < 91 ==> TOPIC_PROLOG@[k] != '"',
        TOPIC_PROLOG@[91] == '"',
        TOPIC_PROLOG@[92] == ' ',
        TOPIC_PROLOG@[93] == '"',
        forall|k: int| 94 <= k < 103 ==> TOPIC_PROLOG@[k] != '"',
        TOPIC_PROLOG@[103] == '"',
        TOPIC_PROLOG@[104] == '>',
        TOPIC_PROLOG@[105] == '\n',
{
    reveal_strlit("<!DOCTYPE");
    reveal_strlit("<?xml version=\"1.0\" encoding=\"UTF-8\"?>\n<!DOCTYPE topic PUBLIC \"-//OASIS//DTD DITA Topic//EN\" \"topic.dtd\">\n");
    assert(TOPIC_PROLOG@.subrange(39, 48) =~= "<!DOCTYPE"@);
}

/// From one quotation mark to the next nothing changes.
proof fn lemma_quotation(s: Seq<char>, i: int, j: int, head: Head)
    requires
        0 <= i < j < s.len(),
        !(head is Other) && !(head is Entity),
        s[i] == '"',
        s[j] == '"',
        forall|k: int| i < k < j ==> #[trigger] s[k] != '"',
    ensures
        depth_from(s, i, Place::Within(head), 0, 0, 0) == depth_from(s, j + 1, Place::Within(head), 0, 0, 0),
{
    let quoted = Place::Quoted(head, true);
    assert(step(s, i, Place::Within(head)) == (quoted, 1int, Effect::Nothing));
    assert forall|k: int| i + 1 <= k < j implies #[trigger] step(s, k, quoted) == (quoted, 1int, Effect::Nothing) by {
        assert(s[k] != '"');
    }
    lemma_stays(s, i + 1, j, quoted, 0, 0);
    assert(step(s, j, quoted) == (Place::Within(head), 1int, Effect::Nothing));
}

/// The declaration in front of a topic changes nothing.
proof fn lemma_declaration(s: Seq<char>)
    requires
        s.len() >= 106,
        s.subrange(0, 106) == TOPIC_PROLOG@,
    ensures
        stands_at(s, "<?xml "@, 0),
        s[0] == '<',
        depth_from(s, 5, Place::Within(Head::Declaration), 0, 0, 0) == depth_from(s, 38, Place::Between(Zone::Content), 0, 0, 0),
{
    lemma_prolog_chars();
    lemma_mark_lengths();
    let p = TOPIC_PROLOG@;
    let place = Place::Within(Head::Declaration);
    assert forall|k: int| 0 <= k < 106 implies #[trigger] s[k] == p[k] by {
        assert(s.subrange(0, 106)[k] == s[k]);
    }
    assert("<?xml "@[0] == '<' && "?>"@ =~= seq!['?', '>']) by {
        reveal_strlit("<?xml ");
        reveal_strlit("?>");
    }
    assert(s.subrange(0, 6) =~= p.subrange(0, 6));
    assert(p.subrange(0, 6)[0] == p[0]);
    assert forall|k: int| 5 <= k < 14 || 19 <= k < 29 implies #[trigger] step(s, k, place) == (place, 1int, Effect::Nothing) by {
        assert(s[k] == p[k]);
        if stands_at(s, "?>"@, k) {
            assert(s.subrange(k, k + 2)[0] == s[k]);
        }
    }
    lemma_stays(s, 5, 14, place, 0, 0);
    lemma_quotation(s, 14, 18, Head::Declaration);
    lemma_stays(s, 19, 29, place, 0, 0);
    lemma_quotation(s, 29, 35, Head::Declaration);
    assert(s.subrange(36, 38) =~= "?>"@);
    assert(step(s, 36, place) == (Place::Between(Zone::Content), 2int, Effect::Nothing));
}

/// The document type in front of a topic changes nothing.
proof fn lemma_doctype(s: Seq<char>)
    requires
        s.len() >= 106,
        s.subrange(0, 106) == TOPIC_PROLOG@,
    ensures
        depth_from(s, 38, Place::Between(Zone::Content), 0, 0, 0) == depth_from(s, 106, Place::Between(Zone::Content), 0, 0, 0),
{
    lemma_prolog_chars();
    lemma_doctype_chars();
    lemma_mark_lengths();
    let p = TOPIC_PROLOG@;
    let content = Place::Between(Zone::Content);
    let place = Place::Within(Head::Doctype);
    assert forall|k: int| 0 <= k < 106 implies #[trigger] s[k] == p[k] by {
        assert(s.subrange(0, 106)[k] == s[k]);
    }
    assert(step(s, 38, content) == (content, 1int, Effect::Nothing));
    assert(depth_from(s, 38, content, 0, 0, 0) == depth_from(s, 39, content, 0, 0, 0));
    assert(s.subrange(39, 48) =~= p.subrange(39, 48));
    assert(s[39] == '<' && s[40] == '!' && s[41] == 'D') by {
        reveal_strlit("<!DOCTYPE");
        assert(s.subrange(39, 48)[0] == s[39] && s.subrange(39, 48)[1] == s[40] && s.subrange(39, 48)[2] == s[41]);
    }
    lemma_second(s, 39);
    assert(!stands_at(s, "<!--"@, 39) && !stands_at(s, "<![CDATA["@, 39)) by {
        reveal_strlit("<!--");
        reveal_strlit("<![CDATA[");
        assert(s.subrange(39, 43)[2] == s[41]);
        assert(s.subrange(39, 48)[2] == s[41]);
    }
    assert(step(s, 39, content) == (place, 9int, Effect::Nothing));
    assert forall|k: int| 48 <= k < 62 implies #[trigger] step(s, k, place) == (place, 1int, Effect::Nothing) by {
        assert(s[k] == p[k]);
    }
    lemma_stays(s, 48, 62, place, 0, 0);
    lemma_quotation(s, 62, 91, Head::Doctype);
    assert(step(s, 92, place) == (place, 1int, Effect::Nothing));
    lemma_quotation(s, 93, 103, Head::Doctype);
    assert(step(s, 104, place) == (content, 1int, Effect::Nothing));
    assert(depth_from(s, 104, place, 0, 0, 0) == depth_from(s, 105, content, 0, 0, 0));
    assert(step(s, 105, content) == (content, 1int, Effect::Nothing));
}

/// A document that is a tree written out nests as deep as the tree is high.
pub proof fn lemma_document_nests(root: Markup)
    requires
        is_legal(root),
    ensures
        nesting(document(root)) == height(root),
{
    let s = document(root);
    let w = written(root);
    lemma_prolog_chars();
    assert("\n"@ =~= seq!['\n']) by {
        reveal_strlit("\n");
    }
    assert(s.subrange(0, 106) =~= TOPIC_PROLOG@);
    lemma_declaration(s);
    lemma_doctype(s);
    assert(s.subrange(106, 106int + w.len()) =~= w);
    lemma_piece(s, 106, root, 0, 0);
    assert(s.subrange(106int + w.len(), s.len() as int) =~= seq!['\n']);
    lemma_flat(s, 106int + w.len(), s.len() as int, 0, height(root));
}

}
