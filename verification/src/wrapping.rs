//! Text broken into lines that are not too long, and a bundle as the pieces of
//! a printed document.

use vstd::prelude::*;
use crate::model::Concept;
use crate::model::{opt_text, RelationKind, Relationship};
use crate::order::{gather, lemma_gather_holds};
use crate::pages::{lemma_in_group, lemma_kind_place, lemma_shows_itself, lemma_shows_within, shows};
use crate::render::{capitalize, group_by_kind_dir, relation_kind_at, target_names, Group};
use crate::render::{capitalized, displays, group_values, grouped, heading_of, location_text, plain, relation_at, type_label};
use crate::text::{chars_of, decimal_text, join_texts, string_of, words_of};
use crate::text::{decimal, join, strung_together, texts, words};

verus! {

/// The word in pieces of the given length; the last may be shorter.
pub open spec fn pieces_of(word: Seq<char>, max: nat) -> Seq<Seq<char>>
    decreases word.len(),
{
    if max == 0 || word.len() == 0 {
        Seq::empty()
    } else if word.len() <= max {
        seq![word]
    } else {
        seq![word.take(max as int)] + pieces_of(word.skip(max as int), max)
    }
}

/// The lines so far, and the one that is being filled.
pub struct Filling {
    pub lines: Seq<Seq<char>>,
    pub current: Seq<char>,
}

/// The word is put on the current line where there is room, else on a new one;
/// a word that is too long for any line is cut.
pub open spec fn with_word(f: Filling, word: Seq<char>, max: nat) -> Filling {
    let room = if f.current.len() == 0 {
        word.len() <= max
    } else {
        f.current.len() + 1 + word.len() <= max
    };
    if room {
        Filling { lines: f.lines, current: if f.current.len() == 0 { word } else { f.current + " "@ + word } }
    } else {
        let lines = if f.current.len() == 0 { f.lines } else { f.lines.push(f.current) };
        if word.len() <= max {
            Filling { lines, current: word }
        } else {
            Filling { lines: lines + pieces_of(word, max), current: Seq::empty() }
        }
    }
}

/// The lines after the first `n` words.
pub open spec fn filled(ws: Seq<Seq<char>>, max: nat, n: nat) -> Filling
    decreases n,
{
    if n == 0 {
        Filling { lines: Seq::empty(), current: Seq::empty() }
    } else {
        with_word(filled(ws, max, (n - 1) as nat), ws[n - 1], max)
    }
}

/// The lines that the words make; one empty line where there are none.
pub open spec fn wrapped(ws: Seq<Seq<char>>, max: nat) -> Seq<Seq<char>> {
    let f = filled(ws, max, ws.len());
    let lines = if f.current.len() == 0 { f.lines } else { f.lines.push(f.current) };
    if lines.len() == 0 {
        seq![Seq::empty()]
    } else {
        lines
    }
}

/// The word in pieces of the given length.
pub fn hard_split(word: &str, max_chars: usize) -> (r: Vec<String>)
    requires
        max_chars > 0,
    ensures
        texts(r@) == pieces_of(word@, max_chars as nat),
{
    let v = chars_of(word);
    let n: usize = v.len();
    let mut out: Vec<String> = Vec::new();
    let mut i: usize = 0;
    assert(word@.skip(0) =~= word@);
    assert(texts(out@) + pieces_of(word@, max_chars as nat) =~= pieces_of(word@, max_chars as nat));
    while i < n
        invariant
            v@ == word@,
            n == v.len(),
            i <= n,
            max_chars > 0,
            texts(out@) + pieces_of(word@.skip(i as int), max_chars as nat) == pieces_of(word@, max_chars as nat),
        decreases n - i,
    {
        let end: usize = if n - i <= max_chars {
            n
        } else {
            i + max_chars
        };
        let piece = string_of(&v, i, end);
        let ghost before = texts(out@);
        let ghost rest = word@.skip(i as int);
        out.push(piece);
        proof {
            assert(texts(out@) =~= before.push(piece@));
            assert(word@.skip(end as int) =~= rest.skip(end - i));
            assert(piece@ =~= rest.take(end - i));
            if n - i <= max_chars {
                assert(rest.take(end - i) =~= rest);
                assert(pieces_of(word@.skip(end as int), max_chars as nat) =~= Seq::empty());
            }
            assert(texts(out@) + pieces_of(word@.skip(end as int), max_chars as nat) =~= before + pieces_of(rest, max_chars as nat));
        }
        i = end;
    }
    assert(pieces_of(word@.skip(n as int), max_chars as nat) =~= Seq::empty());
    assert(texts(out@) + Seq::empty() =~= texts(out@));
    out
}

/// The text in lines of at most so many characters, broken between words.
pub fn wrap_text(text: &str, max_chars: usize) -> (r: Vec<String>)
    requires
        max_chars > 0 || words(text@).len() == 0,
    ensures
        texts(r@) == wrapped(words(text@), max_chars as nat),
{
    let ws = words_of(text);
    let ghost wv = words(text@);
    let ghost max = max_chars as nat;
    let mut lines: Vec<String> = Vec::new();
    let mut current = String::new();
    assert(texts(lines@) =~= Seq::empty());
    assert(current@ =~= Seq::empty());
    for i in 0..ws.len()
        invariant
            texts(ws@) == wv,
            wv == words(text@),
            max == max_chars,
            max_chars > 0 || wv.len() == 0,
            texts(lines@) == filled(wv, max, i as nat).lines,
            current@ == filled(wv, max, i as nat).current,
    {
        let word = ws[i].as_str();
        assert(wv[i as int] == word@);
        let ghost before = filled(wv, max, i as nat);
        let size: usize = word.unicode_len();
        let used: usize = current.as_str().unicode_len();
        let room = if used == 0 {
            size <= max_chars
        } else {
            used < max_chars && size <= max_chars - used - 1
        };
        if room {
            if used == 0 {
                current = word.to_owned();
            } else {
                current.append(" ");
                current.append(word);
            }
        } else {
            if used > 0 {
                let ghost so_far = lines@;
                let full = current.clone();
                lines.push(full);
                assert(texts(lines@) =~= texts(so_far).push(before.current));
            }
            if size <= max_chars {
                current = word.to_owned();
            } else {
                let mut pieces = hard_split(word, max_chars);
                let ghost so_far = lines@;
                let ghost cut = pieces@;
                lines.append(&mut pieces);
                assert(texts(lines@) =~= texts(so_far) + texts(cut));
                current = String::new();
                assert(current@ =~= Seq::empty());
            }
        }
    }
    if current.as_str().unicode_len() > 0 {
        let ghost so_far = lines@;
        let ghost last = current@;
        lines.push(current);
        assert(texts(lines@) =~= texts(so_far).push(last));
    }
    if lines.len() == 0 {
        lines.push(String::new());
        assert(texts(lines@) =~= seq![Seq::empty()]);
    }
    lines
}

proof fn lemma_pieces_fit(word: Seq<char>, max: nat)
    requires
        max > 0,
    ensures
        forall|i: int| 0 <= i < pieces_of(word, max).len() ==> (#[trigger] pieces_of(word, max)[i]).len() <= max,
    decreases word.len(),
{
    if word.len() > max {
        lemma_pieces_fit(word.skip(max as int), max);
        let rest = pieces_of(word.skip(max as int), max);
        assert forall|i: int| 0 <= i < pieces_of(word, max).len() implies (#[trigger] pieces_of(word, max)[i]).len() <= max by {
            if i > 0 {
                assert(pieces_of(word, max)[i] == rest[i - 1]);
            }
        }
    }
}

proof fn lemma_filled_fits(ws: Seq<Seq<char>>, max: nat, n: nat)
    requires
        max > 0,
        n <= ws.len(),
    ensures
        filled(ws, max, n).current.len() <= max,
        forall|i: int| 0 <= i < filled(ws, max, n).lines.len() ==> (#[trigger] filled(ws, max, n).lines[i]).len() <= max,
    decreases n,
{
    if n > 0 {
        let before = filled(ws, max, (n - 1) as nat);
        let word = ws[n - 1];
        lemma_filled_fits(ws, max, (n - 1) as nat);
        lemma_pieces_fit(word, max);
        reveal_strlit(" ");
        let after = filled(ws, max, n);
        let kept = if before.current.len() == 0 { before.lines } else { before.lines.push(before.current) };
        assert forall|i: int| 0 <= i < after.lines.len() implies (#[trigger] after.lines[i]).len() <= max by {
            if i < before.lines.len() {
                assert(after.lines[i] == before.lines[i]);
            } else if i < kept.len() {
                assert(after.lines[i] == before.current);
            } else {
                assert(after.lines[i] == pieces_of(word, max)[i - kept.len()]);
            }
        }
    }
}

/// No line is longer than the limit.
pub proof fn lines_keep_to_the_limit(ws: Seq<Seq<char>>, max: nat)
    requires
        max > 0,
    ensures
        forall|i: int| 0 <= i < wrapped(ws, max).len() ==> (#[trigger] wrapped(ws, max)[i]).len() <= max,
{
    lemma_filled_fits(ws, max, ws.len());
}

/// The texts one after the other.
pub open spec fn run_together(v: Seq<Seq<char>>) -> Seq<char>
    decreases v.len(),
{
    if v.len() == 0 {
        Seq::empty()
    } else {
        run_together(v.drop_last()) + v.last()
    }
}

/// The text without its spaces.
pub open spec fn unspaced(s: Seq<char>) -> Seq<char>
    decreases s.len(),
{
    if s.len() == 0 {
        Seq::empty()
    } else if s.last() == ' ' {
        unspaced(s.drop_last())
    } else {
        unspaced(s.drop_last()).push(s.last())
    }
}

proof fn lemma_unspaced_add(a: Seq<char>, b: Seq<char>)
    ensures
        unspaced(a + b) == unspaced(a) + unspaced(b),
    decreases b.len(),
{
    if b.len() == 0 {
        assert(a + b =~= a);
        assert(unspaced(a) + unspaced(b) =~= unspaced(a));
    } else {
        lemma_unspaced_add(a, b.drop_last());
        assert((a + b).drop_last() =~= a + b.drop_last());
        assert(unspaced(a + b) =~= unspaced(a) + unspaced(b));
    }
}

proof fn lemma_unspaced_same(s: Seq<char>)
    requires
        !s.contains(' '),
    ensures
        unspaced(s) == s,
    decreases s.len(),
{
    if s.len() > 0 {
        assert(s[s.len() - 1] != ' ');
        assert(!s.drop_last().contains(' ')) by {
            if s.drop_last().contains(' ') {
                let i = choose|i: int| 0 <= i < s.drop_last().len() && s.drop_last()[i] == ' ';
                assert(s[i] == ' ');
            }
        }
        lemma_unspaced_same(s.drop_last());
        assert(s.drop_last().push(s.last()) =~= s);
    } else {
        assert(unspaced(s) =~= s);
    }
}

proof fn lemma_together_add(a: Seq<Seq<char>>, b: Seq<Seq<char>>)
    ensures
        run_together(a + b) == run_together(a) + run_together(b),
    decreases b.len(),
{
    if b.len() == 0 {
        assert(a + b =~= a);
        assert(run_together(a) + run_together(b) =~= run_together(a));
    } else {
        lemma_together_add(a, b.drop_last());
        assert((a + b).drop_last() =~= a + b.drop_last());
        assert(run_together(a + b) =~= run_together(a) + run_together(b));
    }
}

proof fn lemma_together_one(s: Seq<char>)
    ensures
        run_together(seq![s]) == s,
{
    assert(seq![s].drop_last() =~= Seq::empty());
    assert(run_together(Seq::<Seq<char>>::empty()) =~= Seq::empty());
    assert(run_together(seq![s]) =~= s);
}

proof fn lemma_pieces_together(word: Seq<char>, max: nat)
    requires
        max > 0,
    ensures
        run_together(pieces_of(word, max)) == word,
    decreases word.len(),
{
    if word.len() == 0 {
        assert(run_together(pieces_of(word, max)) =~= word);
    } else if word.len() <= max {
        lemma_together_one(word);
    } else {
        lemma_pieces_together(word.skip(max as int), max);
        lemma_together_add(seq![word.take(max as int)], pieces_of(word.skip(max as int), max));
        lemma_together_one(word.take(max as int));
        assert(word.take(max as int) + word.skip(max as int) =~= word);
    }
}

proof fn lemma_filled_keeps(ws: Seq<Seq<char>>, max: nat, n: nat)
    requires
        max > 0,
        n <= ws.len(),
        forall|i: int| 0 <= i < ws.len() ==> !(#[trigger] ws[i]).contains(' '),
    ensures
        unspaced(run_together(filled(ws, max, n).lines.push(filled(ws, max, n).current))) == run_together(ws.take(n as int)),
    decreases n,
{
    let f = filled(ws, max, n);
    assert(f.lines.push(f.current).drop_last() =~= f.lines);
    if n == 0 {
        assert(ws.take(0) =~= Seq::empty());
        lemma_together_one(f.current);
        assert(f.lines.push(f.current) =~= seq![f.current]);
        assert(run_together(f.lines.push(f.current)) =~= Seq::empty());
    } else {
        let before = filled(ws, max, (n - 1) as nat);
        let word = ws[n - 1];
        lemma_filled_keeps(ws, max, (n - 1) as nat);
        assert(before.lines.push(before.current).drop_last() =~= before.lines);
        assert(ws.take(n as int).drop_last() =~= ws.take(n - 1));
        assert(!word.contains(' '));
        lemma_unspaced_same(word);
        let old_text = run_together(before.lines) + before.current;
        let new_text = run_together(f.lines) + f.current;
        let kept = if before.current.len() == 0 { before.lines } else { before.lines.push(before.current) };
        if before.current.len() > 0 {
            assert(kept.drop_last() =~= before.lines);
        }
        assert(run_together(kept) =~= old_text);
        lemma_unspaced_add(old_text, word);
        let room = if before.current.len() == 0 { word.len() <= max } else { before.current.len() + 1 + word.len() <= max };
        if room {
            if before.current.len() == 0 {
                assert(new_text =~= old_text + word);
            } else {
                reveal_strlit(" ");
                assert(" "@ =~= seq![' ']);
                assert(new_text =~= old_text + " "@ + word);
                lemma_unspaced_add(old_text + " "@, word);
                lemma_unspaced_add(old_text, " "@);
                assert(unspaced(" "@) =~= Seq::empty()) by {
                    assert(" "@.drop_last() =~= Seq::empty());
                    reveal_with_fuel(unspaced, 2);
                }
                assert(unspaced(old_text) + Seq::empty() =~= unspaced(old_text));
            }
        } else if word.len() <= max {
            assert(new_text =~= old_text + word);
        } else {
            lemma_together_add(kept, pieces_of(word, max));
            lemma_pieces_together(word, max);
            assert(new_text =~= old_text + word);
        }
    }
}

/// No character of the words is lost or moved: apart from spaces, the lines
/// hold what the words hold, in the same order.
pub proof fn lines_hold_all_words(ws: Seq<Seq<char>>, max: nat)
    requires
        max > 0,
        forall|i: int| 0 <= i < ws.len() ==> !(#[trigger] ws[i]).contains(' '),
    ensures
        unspaced(run_together(wrapped(ws, max))) == run_together(ws),
{
    lemma_filled_keeps(ws, max, ws.len());
    assert(ws.take(ws.len() as int) =~= ws);
    let f = filled(ws, max, ws.len());
    assert(f.lines.push(f.current).drop_last() =~= f.lines);
    if f.current.len() == 0 {
        assert(run_together(f.lines.push(f.current)) =~= run_together(f.lines));
        if f.lines.len() == 0 {
            lemma_together_one(Seq::empty());
            assert(run_together(f.lines) =~= Seq::empty());
        }
    }
}

/// Words that all fit are only broken between lines: put back together with
/// spaces, the lines are the words.
pub proof fn fitting_words_stay_whole(ws: Seq<Seq<char>>, max: nat)
    requires
        max > 0,
        ws.len() > 0,
        forall|i: int| 0 <= i < ws.len() ==> 0 < (#[trigger] ws[i]).len() <= max,
    ensures
        join(wrapped(ws, max), " "@) == join(ws, " "@),
{
    lemma_joined(ws, max, ws.len());
    assert(ws.take(ws.len() as int) =~= ws);
}

proof fn lemma_joined(ws: Seq<Seq<char>>, max: nat, n: nat)
    requires
        max > 0,
        0 < n <= ws.len(),
        forall|i: int| 0 <= i < ws.len() ==> 0 < (#[trigger] ws[i]).len() <= max,
    ensures
        filled(ws, max, n).current.len() > 0,
        join(filled(ws, max, n).lines.push(filled(ws, max, n).current), " "@) == join(ws.take(n as int), " "@),
    decreases n,
{
    let f = filled(ws, max, n);
    let before = filled(ws, max, (n - 1) as nat);
    let word = ws[n - 1];
    let upto = ws.take(n as int);
    assert(upto.last() == word);
    assert(upto.drop_last() =~= ws.take(n - 1));
    let all = f.lines.push(f.current);
    assert(all.drop_last() =~= f.lines);
    if n == 1 {
        assert(all =~= seq![word]);
        assert(upto =~= seq![word]);
    } else {
        lemma_joined(ws, max, (n - 1) as nat);
        let old_all = before.lines.push(before.current);
        assert(old_all.drop_last() =~= before.lines);
        if before.current.len() + 1 + word.len() <= max {
            if before.lines.len() == 0 {
                assert(all[0] == before.current + " "@ + word);
                assert(old_all[0] == before.current);
            } else {
                assert(join(all, " "@) =~= join(old_all, " "@) + " "@ + word);
            }
        } else {
            assert(f.lines =~= old_all);
            assert(join(all, " "@) =~= join(old_all, " "@) + " "@ + word);
        }
    }
}

/// A piece of a printed document.
#[derive(Debug)]
pub enum PrintItem {
    Title(String),
    Heading1(String),
    Heading2(String),
    Body(String),
    Mono(String),
    Bookmark(String),
    Gap,
}

/// A piece of a printed document, as a value.
pub enum PrintView {
    Title(Seq<char>),
    Heading1(Seq<char>),
    Heading2(Seq<char>),
    Body(Seq<char>),
    Mono(Seq<char>),
    Bookmark(Seq<char>),
    Gap,
}

impl View for PrintItem {
    type V = PrintView;

    open spec fn view(&self) -> PrintView {
        match self {
            PrintItem::Title(s) => PrintView::Title(s@),
            PrintItem::Heading1(s) => PrintView::Heading1(s@),
            PrintItem::Heading2(s) => PrintView::Heading2(s@),
            PrintItem::Body(s) => PrintView::Body(s@),
            PrintItem::Mono(s) => PrintView::Mono(s@),
            PrintItem::Bookmark(s) => PrintView::Bookmark(s@),
            PrintItem::Gap => PrintView::Gap,
        }
    }
}

/// Pieces as values.
pub open spec fn print_views(v: Seq<PrintItem>) -> Seq<PrintView> {
    v.map_values(|i: PrintItem| i@)
}

/// One piece where there is a text, else none.
pub open spec fn mono_piece(text: Option<Seq<char>>) -> Seq<PrintView> {
    match text {
        Some(t) => seq![PrintView::Mono(t)],
        None => Seq::empty(),
    }
}

/// One piece where there is a text, else none.
pub open spec fn body_piece(text: Option<Seq<char>>) -> Seq<PrintView> {
    match text {
        Some(t) => seq![PrintView::Body(t)],
        None => Seq::empty(),
    }
}

/// A list behind a label; none where it is empty.
pub open spec fn list_piece(label: Seq<char>, items: Seq<Seq<char>>) -> Seq<PrintView> {
    if items.len() == 0 {
        Seq::empty()
    } else {
        seq![PrintView::Body(label + join(items, ", "@))]
    }
}

/// The pieces on a concept's relationships.
pub open spec fn relation_pieces(c: Concept) -> spec_fn(int) -> Seq<PrintView> {
    |k: int| list_piece(heading_of(relation_at(k)) + ": "@, displays(c.relationships@, relation_at(k), c.relationships@.len()))
}

/// The pieces on what a concept is.
pub open spec fn concept_head(c: Concept) -> Seq<PrintView> {
    seq![PrintView::Bookmark(c.name@), PrintView::Heading2(c.name@), PrintView::Body(type_label(c) + " \u{2014} "@ + location_text(c.location))] + (if c.is_public {
        Seq::empty()
    } else {
        seq![PrintView::Body("private"@)]
    }) + mono_piece(opt_text(c.signature)) + body_piece(opt_text(c.description))
}

/// The pieces on a concept.
pub open spec fn concept_pieces(c: Concept) -> Seq<PrintView> {
    concept_head(c) + list_piece("Tags: "@, texts(c.tags@)) + gather(relation_pieces(c), 7) + seq![PrintView::Gap]
}

/// The pieces on concepts.
pub open spec fn entry_pieces(cs: Seq<Concept>) -> spec_fn(int) -> Seq<PrintView> {
    |i: int| concept_pieces(cs[i])
}

/// The pieces on one directory.
pub open spec fn group_pieces(groups: Seq<(Seq<char>, Seq<Concept>)>) -> spec_fn(int) -> Seq<PrintView> {
    |k: int| seq![PrintView::Heading1(capitalized(groups[k].0) + " ("@ + decimal(groups[k].1.len()) + ")"@)] + gather(entry_pieces(groups[k].1), groups[k].1.len())
}

/// The pieces of the printed document of a bundle.
pub open spec fn printed(cs: Seq<Concept>) -> Seq<PrintView> {
    seq![PrintView::Title("Documentation"@), PrintView::Body(decimal(cs.len()) + " concepts"@), PrintView::Gap] + gather(group_pieces(grouped(cs)), grouped(cs).len())
}

/// Puts one more piece.
fn put(out: &mut Vec<PrintItem>, item: PrintItem)
    ensures
        print_views(final(out)@) == print_views(old(out)@).push(item@),
{
    out.push(item);
    assert(print_views(out@) =~= print_views(old(out)@).push(item@));
}

/// Puts a list behind a label.
fn put_list(out: &mut Vec<PrintItem>, label: &str, items: &Vec<String>)
    ensures
        print_views(final(out)@) == print_views(old(out)@) + list_piece(label@, texts(items@)),
{
    if items.len() > 0 {
        let mut text = label.to_owned();
        text.append(join_texts(items, ", ").as_str());
        put(out, PrintItem::Body(text));
    }
    assert(print_views(out@) =~= print_views(old(out)@) + list_piece(label@, texts(items@)));
}

/// Puts the pieces on what a concept is.
fn put_head(out: &mut Vec<PrintItem>, c: &Concept)
    ensures
        print_views(final(out)@) == print_views(old(out)@) + concept_head(*c),
{
    let ghost start = print_views(out@);
    put(out, PrintItem::Bookmark(c.name.clone()));
    put(out, PrintItem::Heading2(c.name.clone()));
    let mut about = c.frontmatter_type();
    about.append(" \u{2014} ");
    about.append(c.location.describe().as_str());
    put(out, PrintItem::Body(about));
    let ghost first = print_views(out@);
    assert(first =~= start + seq![PrintView::Bookmark(c.name@), PrintView::Heading2(c.name@), PrintView::Body(type_label(*c) + " \u{2014} "@ + location_text(c.location))]);
    if !c.is_public {
        put(out, PrintItem::Body("private".to_owned()));
    }
    if let Some(signature) = &c.signature {
        put(out, PrintItem::Mono(signature.clone()));
    }
    if let Some(description) = &c.description {
        put(out, PrintItem::Body(description.clone()));
    }
    assert(print_views(out@) =~= start + concept_head(*c));
}

/// Puts the pieces on a concept.
fn put_concept(out: &mut Vec<PrintItem>, c: &Concept)
    ensures
        print_views(final(out)@) == print_views(old(out)@) + concept_pieces(*c),
{
    let ghost start = print_views(out@);
    let ghost f = relation_pieces(*c);
    put_head(out, c);
    put_list(out, "Tags: ", &c.tags);
    let ghost first = print_views(out@);
    assert(print_views(out@) =~= first + gather(f, 0));
    for k in 0..7usize
        invariant
            f == relation_pieces(*c),
            print_views(out@) == first + gather(f, k as nat),
    {
        let kind = relation_kind_at(k);
        let mut label = kind.label().to_owned();
        label.append(": ");
        let names = target_names(&c.relationships, kind);
        put_list(out, label.as_str(), &names);
        assert(print_views(out@) =~= first + gather(f, (k + 1) as nat));
    }
    put(out, PrintItem::Gap);
    assert(print_views(out@) =~= start + concept_pieces(*c));
}

/// Puts the pieces on one directory.
fn put_group(out: &mut Vec<PrintItem>, group: &Group)
    ensures
        print_views(final(out)@) == print_views(old(out)@) + seq![PrintView::Heading1(capitalized(group.dir@) + " ("@ + decimal(group.entries@.len()) + ")"@)] + gather(
            entry_pieces(plain(group.entries@)),
            group.entries@.len(),
        ),
{
    let ghost start = print_views(out@);
    let ghost es = plain(group.entries@);
    let ghost f = entry_pieces(es);
    let mut heading = capitalize(group.dir);
    heading.append(" (");
    heading.append(decimal_text(group.entries.len()).as_str());
    heading.append(")");
    put(out, PrintItem::Heading1(heading));
    let ghost first = print_views(out@);
    assert(first =~= start + seq![PrintView::Heading1(heading@)]);
    assert(print_views(out@) =~= first + gather(f, 0));
    for i in 0..group.entries.len()
        invariant
            es == plain(group.entries@),
            f == entry_pieces(es),
            print_views(out@) == first + gather(f, i as nat),
    {
        put_concept(out, group.entries[i]);
        assert(es[i as int] == *group.entries@[i as int]);
        assert(print_views(out@) =~= first + gather(f, (i + 1) as nat));
    }
}

/// The pieces of the printed document of a bundle.
pub fn print_items(concepts: &Vec<Concept>) -> (r: Vec<PrintItem>)
    ensures
        print_views(r@) == printed(concepts@),
{
    let groups = group_by_kind_dir(concepts);
    let ghost gs = grouped(concepts@);
    let ghost f = group_pieces(gs);
    let mut out: Vec<PrintItem> = Vec::new();
    assert(print_views(out@) =~= Seq::empty());
    put(&mut out, PrintItem::Title("Documentation".to_owned()));
    let mut count = decimal_text(concepts.len());
    count.append(" concepts");
    put(&mut out, PrintItem::Body(count));
    put(&mut out, PrintItem::Gap);
    let ghost first = print_views(out@);
    assert(first =~= seq![PrintView::Title("Documentation"@), PrintView::Body(decimal(concepts@.len()) + " concepts"@), PrintView::Gap]);
    assert(print_views(out@) =~= first + gather(f, 0));
    for k in 0..groups.len()
        invariant
            gs == group_values(groups@),
            f == group_pieces(gs),
            print_views(out@) == first + gather(f, k as nat),
    {
        put_group(&mut out, &groups[k]);
        assert(gs[k as int] == (groups@[k as int].dir@, plain(groups@[k as int].entries@)));
        assert(print_views(out@) =~= first + gather(f, (k + 1) as nat));
    }
    assert(gs.len() == groups@.len());
    out
}

/// The line begins with the word, and a space or nothing follows.
pub open spec fn opens_with(line: Seq<char>, word: Seq<char>) -> bool {
    &&& word.len() <= line.len()
    &&& line.take(word.len() as int) == word
    &&& line.len() > word.len() ==> line[word.len() as int] == ' '
}

/// The word that the second line opens with would not have fitted on the
/// first.
pub open spec fn breaks_late(ws: Seq<Seq<char>>, max: nat, first: Seq<char>, second: Seq<char>) -> bool {
    exists|k: int| 0 <= k < ws.len() && opens_with(second, #[trigger] ws[k]) && first.len() + 1 + ws[k].len() > max
}

proof fn lemma_breaks_late(ws: Seq<Seq<char>>, max: nat, n: nat)
    requires
        n <= ws.len(),
        forall|i: int| 0 <= i < ws.len() ==> 0 < (#[trigger] ws[i]).len() <= max,
    ensures
        n > 0 ==> filled(ws, max, n).current.len() > 0,
        n == 0 ==> filled(ws, max, n).lines.len() == 0,
        forall|i: int| 0 <= i < filled(ws, max, n).lines.len() ==> breaks_late(
            ws,
            max,
            #[trigger] filled(ws, max, n).lines.push(filled(ws, max, n).current)[i],
            filled(ws, max, n).lines.push(filled(ws, max, n).current)[i + 1],
        ),
    decreases n,
{
    if n > 0 {
        lemma_breaks_late(ws, max, (n - 1) as nat);
        let (f, g) = (filled(ws, max, (n - 1) as nat), filled(ws, max, n));
        let word = ws[n - 1];
        let (old, new) = (f.lines.push(f.current), g.lines.push(g.current));
        reveal_strlit(" ");
        assert(0 < ws[n - 1].len() <= max);
        assert forall|i: int| 0 <= i < g.lines.len() implies breaks_late(ws, max, #[trigger] new[i], new[i + 1]) by {
            if i < f.lines.len() {
                assert(breaks_late(ws, max, old[i], old[i + 1]));
                let k = choose|k: int| 0 <= k < ws.len() && opens_with(old[i + 1], #[trigger] ws[k]) && old[i].len() + 1 + ws[k].len() > max;
                assert(new[i] == old[i]);
                if i + 1 == f.lines.len() && g.lines.len() == f.lines.len() {
                    assert(new[i + 1] == f.current + " "@ + word);
                    assert(new[i + 1].take(ws[k].len() as int) =~= f.current.take(ws[k].len() as int));
                    assert(opens_with(new[i + 1], ws[k]));
                } else {
                    assert(new[i + 1] == old[i + 1]);
                }
            } else {
                assert(new[i] == f.current && new[i + 1] == word);
                assert(word.take(word.len() as int) =~= word);
                assert(opens_with(new[i + 1], ws[n - 1]));
            }
        }
    }
}

/// Where all words fit on a line, a new line is begun only where the next word
/// does not fit on the one before.
pub proof fn lines_are_filled(ws: Seq<Seq<char>>, max: nat, i: int)
    requires
        forall|i: int| 0 <= i < ws.len() ==> 0 < (#[trigger] ws[i]).len() <= max,
        0 <= i < wrapped(ws, max).len() - 1,
    ensures
        breaks_late(ws, max, wrapped(ws, max)[i], wrapped(ws, max)[i + 1]),
{
    lemma_breaks_late(ws, max, ws.len());
    let f = filled(ws, max, ws.len());
    let all = f.lines.push(f.current);
    assert(wrapped(ws, max) == all);
    assert(breaks_late(ws, max, all[i], all[i + 1]));
}

proof fn lemma_displays(rels: Seq<Relationship>, kind: RelationKind, n: nat, k: int)
    requires
        0 <= k < n <= rels.len(),
        rels[k].kind == kind,
    ensures
        displays(rels, kind, n).contains(rels[k].target_display@),
    decreases n,
{
    let all = displays(rels, kind, n);
    let rest = displays(rels, kind, (n - 1) as nat);
    if k < n - 1 {
        lemma_displays(rels, kind, (n - 1) as nat, k);
        let x = choose|x: int| 0 <= x < rest.len() && rest[x] == rels[k].target_display@;
        assert(all[x] == rels[k].target_display@);
    } else {
        assert(all[rest.len() as int] == rels[k].target_display@);
    }
}

proof fn lemma_join_shows(v: Seq<Seq<char>>, sep: Seq<char>, k: int)
    requires
        0 <= k < v.len(),
    ensures
        shows(join(v, sep), v[k]),
    decreases v.len(),
{
    lemma_shows_itself(v[k]);
    if v.len() > 1 {
        let before = join(v.drop_last(), sep);
        if k < v.len() - 1 {
            lemma_join_shows(v.drop_last(), sep, k);
            lemma_shows_within(Seq::empty(), before, sep + v.last(), v[k]);
            assert(join(v, sep) =~= Seq::<char>::empty() + before + (sep + v.last()));
        } else {
            lemma_shows_within(before + sep, v[k], Seq::empty(), v[k]);
            assert(join(v, sep) =~= before + sep + v[k] + Seq::empty());
        }
    }
}

/// One of the pieces is a line behind the label that shows the text.
pub open spec fn prints(pieces: Seq<PrintView>, label: Seq<char>, text: Seq<char>) -> bool {
    exists|line: Seq<char>| #[trigger] pieces.contains(PrintView::Body(label + line)) && shows(line, text)
}

/// The printed document has a heading for every concept, what the concept is,
/// and the target of each of its relationships, behind the name of its kind.
pub proof fn every_concept_is_printed(cs: Seq<Concept>, i: int)
    requires
        0 <= i < cs.len(),
    ensures
        printed(cs).contains(PrintView::Heading2(cs[i].name@)),
        printed(cs).contains(PrintView::Body(type_label(cs[i]) + " \u{2014} "@ + location_text(cs[i].location))),
        cs[i].signature is Some ==> printed(cs).contains(PrintView::Mono(cs[i].signature->0@)),
        cs[i].description is Some ==> printed(cs).contains(PrintView::Body(cs[i].description->0@)),
        forall|k: int| 0 <= k < cs[i].relationships@.len() ==> prints(printed(cs), heading_of((#[trigger] cs[i].relationships@[k]).kind) + ": "@, cs[i].relationships@[k].target_display@),
{
    let c = cs[i];
    let groups = grouped(cs);
    let (g, m) = lemma_in_group(cs, i);
    assert forall|x: PrintView| concept_pieces(c).contains(x) implies #[trigger] printed(cs).contains(x) by {
        let entries = entry_pieces(groups[g].1);
        assert(entries(m) == concept_pieces(c));
        lemma_gather_holds(entries, groups[g].1.len(), x);
        let f = group_pieces(groups);
        let inner = gather(entries, groups[g].1.len());
        let k = choose|k: int| 0 <= k < inner.len() && inner[k] == x;
        assert(f(g)[k + 1] == x);
        lemma_gather_holds(f, groups.len(), x);
        let all = gather(f, groups.len());
        let l = choose|l: int| 0 <= l < all.len() && all[l] == x;
        assert(printed(cs)[l + 3] == x);
    }
    let head = concept_head(c);
    let tail = list_piece("Tags: "@, texts(c.tags@)) + gather(relation_pieces(c), 7) + seq![PrintView::Gap];
    assert(concept_pieces(c) =~= head + tail);
    assert forall|x: PrintView| #[trigger] head.contains(x) implies concept_pieces(c).contains(x) by {
        let k = choose|k: int| 0 <= k < head.len() && head[k] == x;
        assert(concept_pieces(c)[k] == x);
    }
    assert(head[1] == PrintView::Heading2(c.name@));
    assert(head[2] == PrintView::Body(type_label(c) + " \u{2014} "@ + location_text(c.location)));
    assert(head.contains(head[1]) && head.contains(head[2]));
    let at: int = if c.is_public {
        3
    } else {
        4
    };
    if c.signature is Some {
        assert(head[at] == PrintView::Mono(c.signature->0@));
        assert(head.contains(head[at]));
    }
    if c.description is Some {
        let d: int = if c.signature is Some {
            at + 1
        } else {
            at
        };
        assert(head[d] == PrintView::Body(c.description->0@));
        assert(head.contains(head[d]));
    }
    assert forall|k: int| 0 <= k < c.relationships@.len() implies prints(printed(cs), heading_of((#[trigger] c.relationships@[k]).kind) + ": "@, c.relationships@[k].target_display@) by {
        let r = c.relationships@[k];
        let items = displays(c.relationships@, r.kind, c.relationships@.len());
        lemma_displays(c.relationships@, r.kind, c.relationships@.len(), k);
        let x = choose|x: int| 0 <= x < items.len() && items[x] == r.target_display@;
        lemma_join_shows(items, ", "@, x);
        let line = join(items, ", "@);
        let piece = PrintView::Body(heading_of(r.kind) + ": "@ + line);
        let f = relation_pieces(c);
        let p = lemma_kind_place(r.kind);
        assert(f(p) == seq![piece]);
        assert(f(p)[0] == piece);
        lemma_gather_holds(f, 7, piece);
        let rels = gather(f, 7);
        let l = choose|l: int| 0 <= l < rels.len() && rels[l] == piece;
        let before = head + list_piece("Tags: "@, texts(c.tags@));
        assert(concept_pieces(c) =~= before + rels + seq![PrintView::Gap]);
        assert(concept_pieces(c)[before.len() + l] == piece);
        assert(concept_pieces(c).contains(piece));
        assert(printed(cs).contains(PrintView::Body(heading_of(r.kind) + ": "@ + line)));
    }
}

/// A word that is cut stays the same word, in pieces that are all as long as
/// they may be but for the last, which is not empty.
pub proof fn cut_words_stay_whole(word: Seq<char>, max: nat)
    requires
        max > 0,
    ensures
        strung_together(pieces_of(word, max)) == word,
        forall|i: int| 0 <= i < pieces_of(word, max).len() - 1 ==> (#[trigger] pieces_of(word, max)[i]).len() == max,
        pieces_of(word, max).len() > 0 ==> 0 < pieces_of(word, max).last().len() <= max,
    decreases word.len(),
{
    let all = pieces_of(word, max);
    if word.len() == 0 {
        assert(strung_together(all) =~= word);
    } else if word.len() <= max {
        assert(all.drop_last().len() == 0);
        assert(strung_together(all.drop_last()) =~= Seq::empty());
        assert(strung_together(all) =~= word);
    } else {
        let rest = pieces_of(word.skip(max as int), max);
        cut_words_stay_whole(word.skip(max as int), max);
        lemma_strung_first(word.take(max as int), rest);
        assert(word =~= word.take(max as int) + word.skip(max as int));
        assert(rest.len() > 0);
        assert forall|i: int| 0 <= i < all.len() - 1 implies (#[trigger] all[i]).len() == max by {
            if i > 0 {
                assert(all[i] == rest[i - 1]);
            }
        }
        assert(all.last() == rest.last());
    }
}

proof fn lemma_strung_first(x: Seq<char>, v: Seq<Seq<char>>)
    ensures
        strung_together(seq![x] + v) == x + strung_together(v),
    decreases v.len(),
{
    let all = seq![x] + v;
    if v.len() == 0 {
        assert(all.drop_last().len() == 0);
        assert(strung_together(all.drop_last()) =~= Seq::empty());
        assert(strung_together(all) =~= x + strung_together(v));
    } else {
        lemma_strung_first(x, v.drop_last());
        assert(all.drop_last() =~= seq![x] + v.drop_last());
        assert(strung_together(all) =~= x + strung_together(v));
    }
}

}
