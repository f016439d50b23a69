//! What the renderings of a bundle share: labels, links, escapes, groups and
//! lists.

use vstd::prelude::*;
use crate::model::{Concept, ConceptKind, Language, Location, RelationKind, Relationship};
use crate::order::gather;
use crate::text::{decimal_text, join_texts, same};
use crate::text::{decimal, join, texts};

verus! {

/// The name of a language.
pub open spec fn language_label(language: Language) -> Seq<char> {
    match language {
        Language::Rust => "Rust"@,
        Language::Python => "Python"@,
        Language::Go => "Go"@,
        Language::TypeScript => "TypeScript"@,
        Language::JavaScript => "JavaScript"@,
        Language::Php => "PHP"@,
        Language::Dita => "DITA"@,
        Language::Other(_) => "Other"@,
    }
}

/// The name of a kind of concept.
pub open spec fn kind_label(kind: ConceptKind) -> Seq<char> {
    match kind {
        ConceptKind::Package => "Package"@,
        ConceptKind::Module => "Module"@,
        ConceptKind::Document => "Document"@,
        ConceptKind::Struct => "Struct"@,
        ConceptKind::Class => "Class"@,
        ConceptKind::Interface => "Interface"@,
        ConceptKind::Trait => "Trait"@,
        ConceptKind::Function => "Function"@,
        ConceptKind::Method => "Method"@,
        ConceptKind::Other(_) => "Declaration"@,
    }
}

/// The directory that concepts of the kind stand in.
pub open spec fn dir_for(kind: ConceptKind) -> Seq<char> {
    match kind {
        ConceptKind::Package => "packages"@,
        ConceptKind::Module => "modules"@,
        ConceptKind::Document => "documents"@,
        ConceptKind::Struct => "classes"@,
        ConceptKind::Class => "classes"@,
        ConceptKind::Interface => "interfaces"@,
        ConceptKind::Trait => "traits"@,
        ConceptKind::Function => "functions"@,
        ConceptKind::Method => "functions"@,
        ConceptKind::Other(_) => "declarations"@,
    }
}

/// The heading over relationships of the kind.
pub open spec fn heading_of(kind: RelationKind) -> Seq<char> {
    match kind {
        RelationKind::Imports => "Imports"@,
        RelationKind::Calls => "Calls"@,
        RelationKind::CalledBy => "Called by"@,
        RelationKind::Implements => "Implements"@,
        RelationKind::Inherits => "Inherits"@,
        RelationKind::DependsOn => "Depends on"@,
        RelationKind::MemberOf => "Member of"@,
    }
}

/// The kinds of relationships in the order in which they are shown.
pub open spec fn relation_at(k: int) -> RelationKind {
    if k == 0 {
        RelationKind::Imports
    } else if k == 1 {
        RelationKind::Calls
    } else if k == 2 {
        RelationKind::CalledBy
    } else if k == 3 {
        RelationKind::Implements
    } else if k == 4 {
        RelationKind::Inherits
    } else if k == 5 {
        RelationKind::DependsOn
    } else {
        RelationKind::MemberOf
    }
}

/// What a concept is: its language and its kind.
pub open spec fn type_label(c: Concept) -> Seq<char> {
    language_label(c.language) + " "@ + kind_label(c.kind)
}

/// Where a declaration stands.
pub open spec fn location_text(l: Location) -> Seq<char> {
    l.file@ + "#L"@ + decimal(l.start_line as nat) + "-L"@ + decimal(l.end_line as nat)
}

impl Language {
    /// The name of the language.
    pub fn display_name(&self) -> (r: &'static str)
        ensures
            r@ == language_label(*self),
    {
        match self {
            Language::Rust => "Rust",
            Language::Python => "Python",
            Language::Go => "Go",
            Language::TypeScript => "TypeScript",
            Language::JavaScript => "JavaScript",
            Language::Php => "PHP",
            Language::Dita => "DITA",
            Language::Other(_) => "Other",
        }
    }
}

impl ConceptKind {
    /// The name of the kind.
    pub fn label(&self) -> (r: &'static str)
        ensures
            r@ == kind_label(*self),
    {
        match self {
            ConceptKind::Package => "Package",
            ConceptKind::Module => "Module",
            ConceptKind::Document => "Document",
            ConceptKind::Struct => "Struct",
            ConceptKind::Class => "Class",
            ConceptKind::Interface => "Interface",
            ConceptKind::Trait => "Trait",
            ConceptKind::Function => "Function",
            ConceptKind::Method => "Method",
            ConceptKind::Other(_) => "Declaration",
        }
    }

    /// The directory that concepts of the kind stand in.
    pub fn bundle_dir(&self) -> (r: &'static str)
        ensures
            r@ == dir_for(*self),
    {
        match self {
            ConceptKind::Package => "packages",
            ConceptKind::Module => "modules",
            ConceptKind::Document => "documents",
            ConceptKind::Struct => "classes",
            ConceptKind::Class => "classes",
            ConceptKind::Interface => "interfaces",
            ConceptKind::Trait => "traits",
            ConceptKind::Function => "functions",
            ConceptKind::Method => "functions",
            ConceptKind::Other(_) => "declarations",
        }
    }
}

impl RelationKind {
    /// The heading over relationships of the kind.
    pub fn label(&self) -> (r: &'static str)
        ensures
            r@ == heading_of(*self),
    {
        match self {
            RelationKind::Imports => "Imports",
            RelationKind::Calls => "Calls",
            RelationKind::CalledBy => "Called by",
            RelationKind::Implements => "Implements",
            RelationKind::Inherits => "Inherits",
            RelationKind::DependsOn => "Depends on",
            RelationKind::MemberOf => "Member of",
        }
    }
}

/// The kind of relationship that is shown at this place.
pub fn relation_kind_at(k: usize) -> (r: RelationKind)
    ensures
        r == relation_at(k as int),
{
    if k == 0 {
        RelationKind::Imports
    } else if k == 1 {
        RelationKind::Calls
    } else if k == 2 {
        RelationKind::CalledBy
    } else if k == 3 {
        RelationKind::Implements
    } else if k == 4 {
        RelationKind::Inherits
    } else if k == 5 {
        RelationKind::DependsOn
    } else {
        RelationKind::MemberOf
    }
}

impl Concept {
    /// What the concept is: its language and its kind.
    pub fn frontmatter_type(&self) -> (r: String)
        ensures
            r@ == type_label(*self),
    {
        let mut out = self.language.display_name().to_owned();
        out.append(" ");
        out.append(self.kind.label());
        out
    }
}

impl Location {
    /// Where the declaration stands.
    pub fn describe(&self) -> (r: String)
        ensures
            r@ == location_text(*self),
    {
        let mut out = self.file.clone();
        out.append("#L");
        out.append(decimal_text(self.start_line).as_str());
        out.append("-L");
        out.append(decimal_text(self.end_line).as_str());
        out
    }
}

/// The text so many times.
pub open spec fn times(s: Seq<char>, n: nat) -> Seq<char>
    decreases n,
{
    if n == 0 {
        Seq::empty()
    } else {
        times(s, (n - 1) as nat) + s
    }
}

/// How many slashes there are in the text.
pub open spec fn slashes(s: Seq<char>) -> nat
    decreases s.len(),
{
    if s.len() == 0 {
        0
    } else {
        slashes(s.drop_last()) + (if s.last() == '/' { 1nat } else { 0 })
    }
}

/// The link from the page of one id to that of another, by way of the root.
pub open spec fn link_between(from: Seq<char>, to: Seq<char>, ext: Seq<char>) -> Seq<char> {
    times("../"@, slashes(from)) + to + "."@ + ext
}

/// The link from the page of one id to that of another.
pub fn relative_link(from: &str, to: &str, ext: &str) -> (r: String)
    ensures
        r@ == link_between(from@, to@, ext@),
{
    let mut out = String::new();
    assert(from@.take(0) =~= Seq::empty());
    for c in it: from.chars()
        invariant
            it.seq() == from@,
            out@ == times("../"@, slashes(from@.take(it.index() as int))),
    {
        let ghost i = it.index() as int;
        if c == '/' {
            out.append("../");
        }
        proof {
            assert(from@.take(i + 1).drop_last() =~= from@.take(i));
            assert(from@.take(i + 1).last() == c);
        }
    }
    assert(from@.take(from@.len() as int) =~= from@);
    out.append(to);
    out.append(".");
    out.append(ext);
    out
}

/// What stands for a character in markup.
pub open spec fn escaped_char(c: char) -> Seq<char> {
    if c == '&' {
        "&amp;"@
    } else if c == '<' {
        "&lt;"@
    } else if c == '>' {
        "&gt;"@
    } else if c == '"' {
        "&quot;"@
    } else {
        seq![c]
    }
}

/// What stands for each character in markup.
pub open spec fn escapes(s: Seq<char>) -> spec_fn(int) -> Seq<char> {
    |i: int| escaped_char(s[i])
}

/// What stands for the text in markup.
pub open spec fn escaped(s: Seq<char>) -> Seq<char> {
    gather(escapes(s), s.len())
}

/// What stands for the text in markup.
pub fn escape_markup(s: &str) -> (r: String)
    ensures
        r@ == escaped(s@),
{
    let mut out = String::new();
    for c in it: s.chars()
        invariant
            it.seq() == s@,
            out@ == gather(escapes(s@), it.index() as nat),
    {
        let ghost before = out@;
        if c == '&' {
            out.append("&amp;");
        } else if c == '<' {
            out.append("&lt;");
        } else if c == '>' {
            out.append("&gt;");
        } else if c == '"' {
            out.append("&quot;");
        } else {
            out.push(c);
        }
        assert(out@ =~= before + escaped_char(c));
    }
    out
}

/// Markup that was escaped holds no bracket or quote of its own: it can end no
/// tag and no attribute.
pub proof fn escaped_text_is_inert(s: Seq<char>, k: int)
    requires
        0 <= k < escaped(s).len(),
    ensures
        escaped(s)[k] != '<',
        escaped(s)[k] != '>',
        escaped(s)[k] != '"',
{
    lemma_inert(s, s.len(), k);
}

proof fn lemma_inert(s: Seq<char>, n: nat, k: int)
    requires
        n <= s.len(),
        0 <= k < gather(escapes(s), n).len(),
    ensures
        gather(escapes(s), n)[k] != '<',
        gather(escapes(s), n)[k] != '>',
        gather(escapes(s), n)[k] != '"',
    decreases n,
{
    if n > 0 {
        let rest = gather(escapes(s), (n - 1) as nat);
        reveal_strlit("&amp;");
        reveal_strlit("&lt;");
        reveal_strlit("&gt;");
        reveal_strlit("&quot;");
        if k < rest.len() {
            lemma_inert(s, (n - 1) as nat, k);
        } else {
            assert(gather(escapes(s), n)[k] == escaped_char(s[n - 1])[k - rest.len()]);
        }
    }
}

/// The character in capitals.
pub open spec fn upper_char(c: char) -> char {
    if 'a' <= c && c <= 'z' {
        (c as u8 - 32) as char
    } else {
        c
    }
}

/// The text with its first character in capitals.
pub open spec fn capitalized(s: Seq<char>) -> Seq<char> {
    if s.len() == 0 {
        s
    } else {
        seq![upper_char(s[0])] + s.skip(1)
    }
}

/// The text with its first character in capitals.
pub fn capitalize(s: &str) -> (r: String)
    ensures
        r@ == capitalized(s@),
{
    let mut out = String::new();
    let mut first = true;
    for c in it: s.chars()
        invariant
            it.seq() == s@,
            first == (it.index() == 0),
            out@ == capitalized(s@.take(it.index() as int)),
    {
        let ghost i = it.index() as int;
        if first && 'a' <= c && c <= 'z' {
            out.push((c as u8 - 32) as char);
        } else {
            out.push(c);
        }
        first = false;
        assert(out@ =~= capitalized(s@.take(i + 1)));
    }
    assert(s@.take(s@.len() as int) =~= s@);
    out
}

/// How many directories there are for concepts.
pub const DIR_COUNT: usize = 8;

/// The directories for concepts, in ascending order.
pub open spec fn dir_at(k: int) -> Seq<char> {
    if k == 0 {
        "classes"@
    } else if k == 1 {
        "declarations"@
    } else if k == 2 {
        "documents"@
    } else if k == 3 {
        "functions"@
    } else if k == 4 {
        "interfaces"@
    } else if k == 5 {
        "modules"@
    } else if k == 6 {
        "packages"@
    } else {
        "traits"@
    }
}

/// The directory at this place.
fn dir_number(k: usize) -> (r: &'static str)
    ensures
        r@ == dir_at(k as int),
{
    if k == 0 {
        "classes"
    } else if k == 1 {
        "declarations"
    } else if k == 2 {
        "documents"
    } else if k == 3 {
        "functions"
    } else if k == 4 {
        "interfaces"
    } else if k == 5 {
        "modules"
    } else if k == 6 {
        "packages"
    } else {
        "traits"
    }
}

/// The concepts of one directory.
#[derive(Debug)]
pub struct Group<'a> {
    pub dir: &'static str,
    pub entries: Vec<&'a Concept>,
}

/// The concepts themselves.
pub open spec fn plain(v: Seq<&Concept>) -> Seq<Concept> {
    v.map_values(|c: &Concept| *c)
}

/// The concepts of the first `n` that stand in the directory.
pub open spec fn in_dir(cs: Seq<Concept>, dir: Seq<char>, n: nat) -> Seq<Concept>
    decreases n,
{
    if n == 0 {
        Seq::empty()
    } else {
        let rest = in_dir(cs, dir, (n - 1) as nat);
        if dir_for(cs[n - 1].kind) == dir {
            rest.push(cs[n - 1])
        } else {
            rest
        }
    }
}

/// The first `n` directories with their concepts; one that has none is left
/// out.
pub open spec fn groups_of(cs: Seq<Concept>, n: nat) -> Seq<(Seq<char>, Seq<Concept>)>
    decreases n,
{
    if n == 0 {
        Seq::empty()
    } else {
        let rest = groups_of(cs, (n - 1) as nat);
        let members = in_dir(cs, dir_at(n - 1), cs.len());
        if members.len() == 0 {
            rest
        } else {
            rest.push((dir_at(n - 1), members))
        }
    }
}

/// The directories with their concepts.
pub open spec fn grouped(cs: Seq<Concept>) -> Seq<(Seq<char>, Seq<Concept>)> {
    groups_of(cs, DIR_COUNT as nat)
}

/// Groups as values.
pub open spec fn group_values(v: Seq<Group>) -> Seq<(Seq<char>, Seq<Concept>)> {
    v.map_values(|g: Group| (g.dir@, plain(g.entries@)))
}

/// The concepts by directory, in ascending order of the directories.
pub fn group_by_kind_dir<'a>(concepts: &'a Vec<Concept>) -> (r: Vec<Group<'a>>)
    ensures
        group_values(r@) == grouped(concepts@),
{
    let ghost cs = concepts@;
    let mut out: Vec<Group<'a>> = Vec::new();
    assert(group_values(out@) =~= Seq::empty());
    for k in 0..DIR_COUNT
        invariant
            cs == concepts@,
            group_values(out@) == groups_of(cs, k as nat),
    {
        let dir = dir_number(k);
        let mut entries: Vec<&'a Concept> = Vec::new();
        assert(plain(entries@) =~= Seq::empty());
        for i in 0..concepts.len()
            invariant
                cs == concepts@,
                dir@ == dir_at(k as int),
                plain(entries@) == in_dir(cs, dir@, i as nat),
        {
            let c = &concepts[i];
            if same(c.kind.bundle_dir(), dir) {
                let ghost before = entries@;
                entries.push(c);
                assert(plain(entries@) =~= plain(before).push(*c));
            }
        }
        if entries.len() > 0 {
            let ghost before = out@;
            let group = Group { dir, entries };
            out.push(group);
            assert(group_values(out@) =~= group_values(before).push((dir@, plain(entries@))));
        } else {
            assert(in_dir(cs, dir@, cs.len()) =~= Seq::empty());
        }
    }
    out
}

/// The concept at `i` is a part of the other: one that stands in the file of a
/// module, or one that is a member of a package.
pub open spec fn is_part(c: Concept, other: Concept) -> bool {
    match c.kind {
        ConceptKind::Module => other.id@ != c.id@ && other.location.file@ == c.location.file@,
        ConceptKind::Package => exists|k: int| 0 <= k < other.relationships@.len() && (#[trigger] other.relationships@[k]).kind is MemberOf && other.relationships@[k].target@ == c.id@,
        _ => false,
    }
}

/// The parts of the concept among the first `n`.
pub open spec fn parts_of(c: Concept, cs: Seq<Concept>, n: nat) -> Seq<Concept>
    decreases n,
{
    if n == 0 {
        Seq::empty()
    } else {
        let rest = parts_of(c, cs, (n - 1) as nat);
        if is_part(c, cs[n - 1]) {
            rest.push(cs[n - 1])
        } else {
            rest
        }
    }
}

/// Whether the other concept is a part of this one.
fn has_part(c: &Concept, other: &Concept) -> (r: bool)
    ensures
        r == is_part(*c, *other),
{
    match c.kind {
        ConceptKind::Module => !same(other.id.as_str(), c.id.as_str()) && same(other.location.file.as_str(), c.location.file.as_str()),
        ConceptKind::Package => {
            let rels = &other.relationships;
            for k in 0..rels.len()
                invariant
                    *rels == other.relationships,
                    c.kind is Package,
                    forall|j: int| 0 <= j < k ==> !((#[trigger] rels@[j]).kind is MemberOf && rels@[j].target@ == c.id@),
            {
                if rels[k].kind == RelationKind::MemberOf && same(rels[k].target.as_str(), c.id.as_str()) {
                    assert(other.relationships@[k as int].kind is MemberOf);
                    return true;
                }
            }
            false
        },
        _ => false,
    }
}

/// The parts of the concept: what stands in the file of a module, and the
/// members of a package.
pub fn contains_members<'a>(concept: &Concept, all: &'a Vec<Concept>) -> (r: Vec<&'a Concept>)
    ensures
        plain(r@) == parts_of(*concept, all@, all@.len()),
{
    let mut out: Vec<&'a Concept> = Vec::new();
    assert(plain(out@) =~= Seq::empty());
    for i in 0..all.len()
        invariant
            plain(out@) == parts_of(*concept, all@, i as nat),
    {
        if has_part(concept, &all[i]) {
            let ghost before = out@;
            out.push(&all[i]);
            assert(plain(out@) =~= plain(before).push(all@[i as int]));
        }
    }
    out
}

/// Some relationship is of the kind.
pub open spec fn has_kind(rels: Seq<Relationship>, kind: RelationKind) -> bool {
    exists|i: int| 0 <= i < rels.len() && (#[trigger] rels[i]).kind == kind
}

/// Whether some relationship is of the kind.
pub fn any_of_kind(rels: &Vec<Relationship>, kind: RelationKind) -> (r: bool)
    ensures
        r == has_kind(rels@, kind),
{
    for i in 0..rels.len()
        invariant
            forall|j: int| 0 <= j < i ==> (#[trigger] rels@[j]).kind != kind,
    {
        if rels[i].kind == kind {
            return true;
        }
    }
    false
}

/// What the targets of the first `n` relationships are called, as far as they
/// are of the kind.
pub open spec fn displays(rels: Seq<Relationship>, kind: RelationKind, n: nat) -> Seq<Seq<char>>
    decreases n,
{
    if n == 0 {
        Seq::empty()
    } else {
        let rest = displays(rels, kind, (n - 1) as nat);
        if rels[n - 1].kind == kind {
            rest.push(rels[n - 1].target_display@)
        } else {
            rest
        }
    }
}

/// What the targets of the relationships of the kind are called.
pub fn target_names(rels: &Vec<Relationship>, kind: RelationKind) -> (r: Vec<String>)
    ensures
        texts(r@) == displays(rels@, kind, rels@.len()),
{
    let mut out: Vec<String> = Vec::new();
    assert(texts(out@) =~= Seq::empty());
    for i in 0..rels.len()
        invariant
            texts(out@) == displays(rels@, kind, i as nat),
    {
        if rels[i].kind == kind {
            let ghost before = out@;
            out.push(rels[i].target_display.clone());
            assert(texts(out@) =~= texts(before).push(rels@[i as int].target_display@));
        }
    }
    out
}

/// Some concept has the id.
pub open spec fn in_bundle(cs: Seq<Concept>, id: Seq<char>) -> bool {
    exists|i: int| 0 <= i < cs.len() && (#[trigger] cs[i]).id@ == id
}

/// The optional text between two others; nothing where there is none.
pub open spec fn framed(before: Seq<char>, text: Option<Seq<char>>, after: Seq<char>) -> Seq<char> {
    match text {
        Some(t) => before + t + after,
        None => Seq::empty(),
    }
}

/// Puts the text, if there is one, between two others.
pub fn push_framed(out: &mut String, before: &str, text: &Option<String>, after: &str)
    ensures
        final(out)@ == old(out)@ + framed(before@, crate::model::opt_text(*text), after@),
{
    match text {
        Some(t) => {
            out.append(before);
            out.append(t.as_str());
            out.append(after);
            assert(out@ =~= old(out)@ + framed(before@, crate::model::opt_text(*text), after@));
        },
        None => {
            assert(out@ =~= old(out)@ + Seq::empty());
        },
    }
}

/// The list of texts behind a label; nothing for an empty list.
pub open spec fn labelled_list(before: Seq<char>, items: Seq<Seq<char>>, after: Seq<char>) -> Seq<char> {
    if items.len() == 0 {
        Seq::empty()
    } else {
        before + join(items, ", "@) + after
    }
}

/// Puts the list of texts behind a label.
pub fn push_labelled_list(out: &mut String, before: &str, items: &Vec<String>, after: &str)
    ensures
        final(out)@ == old(out)@ + labelled_list(before@, texts(items@), after@),
{
    if items.len() > 0 {
        out.append(before);
        out.append(join_texts(items, ", ").as_str());
        out.append(after);
        assert(out@ =~= old(out)@ + labelled_list(before@, texts(items@), after@));
    } else {
        assert(out@ =~= old(out)@ + Seq::empty());
    }
}

/// The text, or nothing.
pub open spec fn only_if(condition: bool, text: Seq<char>) -> Seq<char> {
    if condition {
        text
    } else {
        Seq::empty()
    }
}

/// Puts the text where the condition holds.
pub fn push_if(out: &mut String, condition: bool, text: &str)
    ensures
        final(out)@ == old(out)@ + only_if(condition, text@),
{
    if condition {
        out.append(text);
    } else {
        assert(out@ =~= old(out)@ + Seq::empty());
    }
}

proof fn lemma_escaped_first(s: Seq<char>, n: nat)
    requires
        0 < n <= s.len(),
    ensures
        gather(escapes(s), n) == escaped_char(s[0]) + gather(escapes(s.drop_first()), (n - 1) as nat),
    decreases n,
{
    let (f, g) = (escapes(s), escapes(s.drop_first()));
    if n == 1 {
        reveal_with_fuel(gather, 2);
        assert(gather(f, 1) =~= escaped_char(s[0]) + gather(g, 0));
    } else {
        lemma_escaped_first(s, (n - 1) as nat);
        assert(f(n - 1) == g(n - 2));
        assert(gather(f, n) =~= escaped_char(s[0]) + gather(g, (n - 1) as nat));
    }
}

/// Different texts stay different in markup: nothing of a text is lost by
/// escaping it.
pub proof fn escaped_texts_stay_apart(a: Seq<char>, b: Seq<char>)
    requires
        escaped(a) == escaped(b),
    ensures
        a == b,
    decreases a.len(),
{
    reveal_strlit("&amp;");
    reveal_strlit("&lt;");
    reveal_strlit("&gt;");
    reveal_strlit("&quot;");
    if a.len() > 0 {
        lemma_escaped_first(a, a.len());
        assert(escaped_char(a[0]).len() > 0);
    }
    if b.len() > 0 {
        lemma_escaped_first(b, b.len());
        assert(escaped_char(b[0]).len() > 0);
    }
    if a.len() > 0 && b.len() > 0 {
        let (x, y) = (escaped_char(a[0]), escaped_char(b[0]));
        let (u, v) = (gather(escapes(a.drop_first()), (a.len() - 1) as nat), gather(escapes(b.drop_first()), (b.len() - 1) as nat));
        assert((x + u)[0] == x[0] && (y + v)[0] == y[0]);
        if x.len() > 1 && y.len() > 1 {
            assert((x + u)[1] == x[1] && (y + v)[1] == y[1]);
        }
        assert(a[0] == b[0]);
        assert(u =~= v) by {
            assert(u =~= (x + u).skip(x.len() as int));
            assert(v =~= (y + v).skip(y.len() as int));
        }
        escaped_texts_stay_apart(a.drop_first(), b.drop_first());
        assert(a =~= seq![a[0]] + a.drop_first());
        assert(b =~= seq![b[0]] + b.drop_first());
    } else if a.len() > 0 {
        assert(escaped(b).len() == 0);
    } else if b.len() > 0 {
        assert(escaped(a).len() == 0);
    } else {
        assert(a =~= b);
    }
}

}
