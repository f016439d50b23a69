//! The packages of a project: what their manifests name them, and which
//! modules belong to them.

use vstd::prelude::*;
use crate::data::{parse_json, parse_toml, Data};
use crate::data::{field, json_tree, text_of, toml_tree, Tree};
use crate::model::{Concept, ConceptKind, Confidence, Language, Location, RelationKind, Relationship};
use crate::model::{concept_views, opt_text, ConceptView, RelationshipView};
use crate::naming::{make_id, replace_char};
use crate::naming::{id_for, replaced};
use crate::project::{ManifestKind, PackageRoot};
use crate::project::{manifest_file, short_tag_of};
use crate::text::{chars_of, has_prefix, last_char_position, lines_of, same, string_of, trim_text};
use crate::text::{begins_with, find_last_char, lemma_find_last_char, lines, texts, trim};

verus! {

/// What the document has under one key and then another.
pub open spec fn field2(t: Tree, a: Seq<char>, b: Seq<char>) -> Option<Tree> {
    match field(t, a) {
        Some(inner) => field(inner, b),
        None => None,
    }
}

/// The name that a Cargo manifest gives its package.
pub open spec fn cargo_name_of(t: Tree) -> Option<Seq<char>> {
    text_of(field2(t, "package"@, "name"@))
}

/// The name that an npm manifest gives its package.
pub open spec fn npm_name_of(t: Tree) -> Option<Seq<char>> {
    text_of(field(t, "name"@))
}

/// The name that a Python manifest gives its package: the one of the project
/// table, else the one of poetry's.
pub open spec fn pyproject_name_of(t: Tree) -> Option<Seq<char>> {
    match text_of(field2(t, "project"@, "name"@)) {
        Some(n) => Some(n),
        None => match field(t, "tool"@) {
            Some(tool) => text_of(field2(tool, "poetry"@, "name"@)),
            None => None,
        },
    }
}

/// The module that a line of a Go manifest names.
pub open spec fn module_line(line: Seq<char>) -> Option<Seq<char>> {
    if begins_with(trim(line), "module "@) {
        Some(trim(trim(line).skip("module "@.len() as int)))
    } else {
        None
    }
}

/// The module that the first line to name one names.
pub open spec fn first_module(ls: Seq<Seq<char>>) -> Option<Seq<char>>
    decreases ls.len(),
{
    if ls.len() == 0 {
        None
    } else {
        match first_module(ls.drop_last()) {
            Some(m) => Some(m),
            None => module_line(ls.last()),
        }
    }
}

/// The name that a manifest with this content gives its package. Outside
/// `Some` the manifest could not be read.
pub open spec fn manifest_name(kind: ManifestKind, content: Seq<char>) -> Option<Option<Seq<char>>> {
    match kind {
        ManifestKind::Cargo => match toml_tree(content) {
            Some(t) => Some(cargo_name_of(t)),
            None => None,
        },
        ManifestKind::Npm => match json_tree(content) {
            Some(t) => Some(npm_name_of(t)),
            None => None,
        },
        ManifestKind::PyProject => match toml_tree(content) {
            Some(t) => Some(pyproject_name_of(t)),
            None => None,
        },
        ManifestKind::GoModule => Some(first_module(lines(content))),
    }
}

/// The text under one key and then another.
fn text_at(d: &Data, a: &str, b: &str) -> (r: Option<String>)
    ensures
        opt_text(r) == text_of(field2(d@, a@, b@)),
{
    match d.get(a) {
        Some(inner) => match inner.get(b) {
            Some(value) => match value.as_text() {
                Some(s) => Some(s.to_owned()),
                None => None,
            },
            None => None,
        },
        None => None,
    }
}

/// The name in a Cargo manifest.
pub fn cargo_name(manifest: &Data) -> (r: Option<String>)
    ensures
        opt_text(r) == cargo_name_of(manifest@),
{
    text_at(manifest, "package", "name")
}

/// The name in an npm manifest.
pub fn npm_name(manifest: &Data) -> (r: Option<String>)
    ensures
        opt_text(r) == npm_name_of(manifest@),
{
    match manifest.get("name") {
        Some(value) => match value.as_text() {
            Some(s) => Some(s.to_owned()),
            None => None,
        },
        None => None,
    }
}

/// The name in a Python manifest.
pub fn pyproject_name(manifest: &Data) -> (r: Option<String>)
    ensures
        opt_text(r) == pyproject_name_of(manifest@),
{
    match text_at(manifest, "project", "name") {
        Some(n) => Some(n),
        None => match manifest.get("tool") {
            Some(tool) => text_at(tool, "poetry", "name"),
            None => None,
        },
    }
}

proof fn lemma_module_stays(ls: Seq<Seq<char>>, k: int)
    requires
        0 <= k <= ls.len(),
        first_module(ls.take(k)) is Some,
    ensures
        first_module(ls) == first_module(ls.take(k)),
    decreases ls.len() - k,
{
    if k < ls.len() {
        assert(ls.take(k + 1).drop_last() =~= ls.take(k));
        lemma_module_stays(ls, k + 1);
    } else {
        assert(ls.take(k) =~= ls);
    }
}

/// The name in a Go manifest.
pub fn gomod_name(content: &str) -> (r: Option<String>)
    ensures
        opt_text(r) == first_module(lines(content@)),
{
    let ls = lines_of(content);
    let ghost lv = texts(ls@);
    for i in 0..ls.len()
        invariant
            lv == texts(ls@),
            lv == lines(content@),
            first_module(lv.take(i as int)) is None,
    {
        proof {
            assert(lv.take(i + 1).drop_last() =~= lv.take(i as int));
            assert(lv.take(i + 1).last() == ls@[i as int]@);
        }
        let line = trim_text(ls[i].as_str());
        if has_prefix(line, "module ") {
            let v = chars_of(line);
            let p = chars_of("module ");
            let rest = string_of(&v, p.len(), v.len());
            assert(rest@ =~= line@.skip("module "@.len() as int));
            proof {
                lemma_module_stays(lv, i + 1);
            }
            return Some(trim_text(rest.as_str()).to_owned());
        }
    }
    assert(lv.take(lv.len() as int) =~= lv);
    None
}

/// The name that the manifest gives its package; an error where it cannot be
/// read.
pub fn read_manifest_name(kind: ManifestKind, content: &str) -> (r: Result<Option<String>, ManifestError>)
    ensures
        match r {
            Ok(name) => manifest_name(kind, content@) == Some(opt_text(name)),
            Err(e) => manifest_name(kind, content@) is None && e.kind == kind,
        },
{
    match kind {
        ManifestKind::Cargo => match parse_toml(content) {
            Some(d) => Ok(cargo_name(&d)),
            None => Err(ManifestError { kind }),
        },
        ManifestKind::Npm => match parse_json(content) {
            Some(d) => Ok(npm_name(&d)),
            None => Err(ManifestError { kind }),
        },
        ManifestKind::PyProject => match parse_toml(content) {
            Some(d) => Ok(pyproject_name(&d)),
            None => Err(ManifestError { kind }),
        },
        ManifestKind::GoModule => Ok(gomod_name(content)),
    }
}

/// A manifest of this kind that could not be read.
#[derive(Clone, Copy, Debug, PartialEq, Eq, Structural)]
pub struct ManifestError {
    pub kind: ManifestKind,
}

/// Some other manifest stands in the directory of the `i`th.
pub open spec fn shares_dir(roots: Seq<PackageRoot>, i: int) -> bool {
    exists|j: int| 0 <= j < roots.len() && j != i && #[trigger] roots[j].relative_dir@ == roots[i].relative_dir@
}

/// What the package of the `i`th manifest is called in the project: its name
/// where the manifest stands in the project's own directory; else the
/// directory, with the kind of manifest behind it where several stand there.
pub open spec fn qualified_name_of(roots: Seq<PackageRoot>, i: int, name: Seq<char>) -> Seq<char> {
    let dir = roots[i].relative_dir@;
    if dir.len() == 0 {
        name
    } else if shares_dir(roots, i) {
        replaced(dir, '/', '.') + "."@ + short_tag_of(roots[i].manifest)
    } else {
        replaced(dir, '/', '.')
    }
}

/// Where the `i`th manifest stands.
pub open spec fn manifest_path(root: PackageRoot) -> Seq<char> {
    if root.relative_dir@.len() == 0 {
        manifest_file(root.manifest)
    } else {
        root.relative_dir@ + "/"@ + manifest_file(root.manifest)
    }
}

/// The language of the packages that a kind of manifest describes.
pub open spec fn language_of(kind: ManifestKind) -> Language {
    match kind {
        ManifestKind::Cargo => Language::Rust,
        ManifestKind::Npm => Language::JavaScript,
        ManifestKind::PyProject => Language::Python,
        ManifestKind::GoModule => Language::Go,
    }
}

/// The concept for the package of the `i`th manifest.
pub open spec fn package_view(roots: Seq<PackageRoot>, i: int, name: Seq<char>) -> ConceptView {
    ConceptView {
        id: id_for("packages"@, qualified_name_of(roots, i, name)),
        kind: ConceptKind::Package,
        language: language_of(roots[i].manifest),
        name,
        qualified_name: qualified_name_of(roots, i, name),
        description: None,
        file: manifest_path(roots[i]),
        start_line: 1,
        end_line: 1,
        signature: None,
        tags: Seq::empty(),
        is_public: true,
        generated_at: None,
        relationships: Seq::empty(),
    }
}

/// One concept for each of the first `n` manifests that names a package.
pub open spec fn packages_of(roots: Seq<PackageRoot>, names: Seq<Option<Seq<char>>>, n: nat) -> Seq<ConceptView>
    decreases n,
{
    if n == 0 {
        Seq::empty()
    } else {
        let rest = packages_of(roots, names, (n - 1) as nat);
        match names[n - 1] {
            Some(name) => rest.push(package_view(roots, n - 1, name)),
            None => rest,
        }
    }
}

/// The texts that are there.
pub open spec fn opt_texts(v: Seq<Option<String>>) -> Seq<Option<Seq<char>>> {
    v.map_values(|o: Option<String>| opt_text(o))
}

/// The name in the `i`th manifest, where its content could be had and read.
pub open spec fn name_at(roots: Seq<PackageRoot>, contents: Seq<Option<String>>, i: int) -> Option<Option<Seq<char>>> {
    match contents[i] {
        Some(content) => manifest_name(roots[i].manifest, content@),
        None => None,
    }
}

/// The names in the manifests.
pub open spec fn names_in(roots: Seq<PackageRoot>, contents: Seq<Option<String>>) -> Seq<Option<Seq<char>>> {
    Seq::new(roots.len(), |i: int| match name_at(roots, contents, i) {
        Some(name) => name,
        None => None,
    })
}

/// Whether another manifest stands in the same directory.
fn has_neighbour(roots: &Vec<PackageRoot>, i: usize) -> (r: bool)
    requires
        i < roots.len(),
    ensures
        r == shares_dir(roots@, i as int),
{
    for j in 0..roots.len()
        invariant
            i < roots.len(),
            forall|k: int| 0 <= k < j && k != i ==> #[trigger] roots[k].relative_dir@ != roots[i as int].relative_dir@,
    {
        if j != i && same(roots[j].relative_dir.as_str(), roots[i].relative_dir.as_str()) {
            return true;
        }
    }
    false
}

/// The concept for the package that the `i`th manifest names.
fn package_concept(roots: &Vec<PackageRoot>, i: usize, name: &str) -> (r: Concept)
    requires
        i < roots.len(),
    ensures
        r@ == package_view(roots@, i as int, name@),
{
    let root = &roots[i];
    let at_top = root.relative_dir.as_str().unicode_len() == 0;
    let qualified_name = if at_top {
        name.to_owned()
    } else {
        let mut dir_id = replace_char(root.relative_dir.as_str(), '/', '.');
        if has_neighbour(roots, i) {
            dir_id.append(".");
            dir_id.append(root.manifest.short_tag());
        }
        dir_id
    };
    let file = if at_top {
        root.manifest.file_name().to_owned()
    } else {
        let mut path = root.relative_dir.clone();
        path.append("/");
        path.append(root.manifest.file_name());
        path
    };
    let language = match root.manifest {
        ManifestKind::Cargo => Language::Rust,
        ManifestKind::Npm => Language::JavaScript,
        ManifestKind::PyProject => Language::Python,
        ManifestKind::GoModule => Language::Go,
    };
    let c = Concept {
        id: make_id("packages", qualified_name.as_str()),
        kind: ConceptKind::Package,
        language,
        name: name.to_owned(),
        qualified_name,
        description: None,
        location: Location { file, start_line: 1, end_line: 1 },
        signature: None,
        tags: Vec::new(),
        is_public: true,
        generated_at: None,
        relationships: Vec::new(),
    };
    assert(c@ =~= package_view(roots@, i as int, name@));
    c
}

/// The packages with these names.
pub fn named_packages(roots: &Vec<PackageRoot>, names: &Vec<Option<String>>) -> (r: Vec<Concept>)
    requires
        names.len() == roots.len(),
    ensures
        concept_views(r@) == packages_of(roots@, opt_texts(names@), roots@.len()),
{
    let mut out: Vec<Concept> = Vec::new();
    for i in 0..roots.len()
        invariant
            names.len() == roots.len(),
            concept_views(out@) == packages_of(roots@, opt_texts(names@), i as nat),
    {
        assert(opt_texts(names@)[i as int] == opt_text(names@[i as int]));
        if let Some(name) = &names[i] {
            let c = package_concept(roots, i, name.as_str());
            let ghost before = out@;
            out.push(c);
            assert(concept_views(out@) =~= concept_views(before).push(c@));
        }
    }
    out
}

/// The positions, among the first `n`, of the manifests that cannot be had or
/// read.
pub open spec fn unreadable(roots: Seq<PackageRoot>, contents: Seq<Option<String>>, n: nat) -> Seq<usize>
    decreases n,
{
    if n == 0 {
        Seq::empty()
    } else {
        let rest = unreadable(roots, contents, (n - 1) as nat);
        if name_at(roots, contents, n - 1) is None {
            rest.push((n - 1) as usize)
        } else {
            rest
        }
    }
}

/// The packages of the manifests with these contents, and the positions of
/// the manifests that were skipped since they could not be had or read.
pub fn detect_packages(roots: &Vec<PackageRoot>, contents: &Vec<Option<String>>) -> (r: (Vec<Concept>, Vec<usize>))
    requires
        contents.len() == roots.len(),
    ensures
        concept_views(r.0@) == packages_of(roots@, names_in(roots@, contents@), roots@.len()),
        r.1@ == unreadable(roots@, contents@, roots@.len()),
{
    let mut names: Vec<Option<String>> = Vec::new();
    let mut skipped: Vec<usize> = Vec::new();
    for i in 0..roots.len()
        invariant
            contents.len() == roots.len(),
            names.len() == i,
            forall|k: int| 0 <= k < i ==> opt_text(#[trigger] names[k]) == names_in(roots@, contents@)[k],
            skipped@ == unreadable(roots@, contents@, i as nat),
    {
        let mut found: Option<String> = None;
        match &contents[i] {
            Some(content) => match read_manifest_name(roots[i].manifest, content.as_str()) {
                Ok(name) => {
                    found = name;
                },
                Err(_) => skipped.push(i),
            },
            None => skipped.push(i),
        }
        names.push(found);
    }
    assert(opt_texts(names@) =~= names_in(roots@, contents@));
    (named_packages(roots, &names), skipped)
}

/// The directory of a file.
pub open spec fn dir_of(file: Seq<char>) -> Seq<char> {
    match find_last_char(file, '/') {
        Some(i) => file.take(i),
        None => Seq::empty(),
    }
}

/// The directory of a file.
pub fn package_directory(file: &str) -> (r: String)
    ensures
        r@ == dir_of(file@),
{
    let v = chars_of(file);
    match last_char_position(&v, '/') {
        Some(i) => {
            assert(file@.subrange(0, i as int) =~= file@.take(i as int));
            string_of(&v, 0, i)
        },
        None => String::new(),
    }
}

/// The file is the directory or lies in it.
pub open spec fn lies_in(file: Seq<char>, dir: Seq<char>) -> bool {
    dir.len() == 0 || file == dir || begins_with(file, dir + "/"@)
}

/// The package at `p` owns the file: it lies in the package's directory, and
/// in that of no package with a longer one, nor of an earlier package with
/// the same one.
pub open spec fn is_owner(cs: Seq<Concept>, file: Seq<char>, p: int) -> bool {
    &&& 0 <= p < cs.len()
    &&& cs[p].kind is Package
    &&& lies_in(file, dir_of(cs[p].location.file@))
    &&& forall|q: int| 0 <= q < cs.len() && (#[trigger] cs[q]).kind is Package && lies_in(file, dir_of(cs[q].location.file@)) ==> {
        ||| dir_of(cs[q].location.file@).len() < dir_of(cs[p].location.file@).len()
        ||| dir_of(cs[q].location.file@).len() == dir_of(cs[p].location.file@).len() && p <= q
    }
}

/// The package that owns the file.
pub open spec fn owner(cs: Seq<Concept>, file: Seq<char>) -> Option<int> {
    if exists|p: int| is_owner(cs, file, p) {
        Some(choose|p: int| is_owner(cs, file, p))
    } else {
        None
    }
}

/// What a module gets that links it to the package that owns its file.
pub open spec fn package_link(cs: Seq<Concept>, i: int) -> Seq<RelationshipView> {
    if cs[i].kind is Module {
        match owner(cs, cs[i].location.file@) {
            Some(p) => seq![member_of(cs[p])],
            None => Seq::empty(),
        }
    } else {
        Seq::empty()
    }
}

/// The relationship of a member to the package.
pub open spec fn member_of(package: Concept) -> RelationshipView {
    RelationshipView {
        kind: RelationKind::MemberOf,
        target: package.id@,
        target_display: package.name@,
        resolved_by: "tree-sitter"@,
        confidence: Confidence::Exact,
        resolver_version: None,
    }
}

/// The concept with more relationships behind those it has.
pub open spec fn with_more(c: ConceptView, more: Seq<RelationshipView>) -> ConceptView {
    ConceptView { relationships: c.relationships + more, ..c }
}

/// No other package owns the file.
pub proof fn lemma_owner(cs: Seq<Concept>, file: Seq<char>, p: int)
    requires
        is_owner(cs, file, p),
    ensures
        owner(cs, file) == Some(p),
{
    let q = choose|q: int| is_owner(cs, file, q);
    assert(is_owner(cs, file, q));
    assert(cs[p].kind is Package && cs[q].kind is Package);
}

/// The package that owns the file.
fn find_owner(cs: &Vec<Concept>, dirs: &Vec<String>, file: &str) -> (r: Option<usize>)
    requires
        dirs.len() == cs.len(),
        forall|k: int| 0 <= k < cs.len() ==> #[trigger] dirs[k]@ == dir_of(cs[k].location.file@),
    ensures
        match r {
            Some(p) => owner(cs@, file@) == Some(p as int),
            None => owner(cs@, file@) is None,
        },
{
    let mut best: Option<usize> = None;
    for k in 0..cs.len()
        invariant
            dirs.len() == cs.len(),
            forall|k: int| 0 <= k < cs.len() ==> #[trigger] dirs[k]@ == dir_of(cs[k].location.file@),
            match best {
                Some(p) => p < k && is_owner(cs@.take(k as int), file@, p as int),
                None => forall|q: int| 0 <= q < k && (#[trigger] cs[q]).kind is Package ==> !lies_in(file@, dir_of(cs[q].location.file@)),
            },
    {
        let dir = dirs[k].as_str();
        let size: usize = dir.unicode_len();
        let mut inside = size == 0 || same(file, dir);
        if !inside {
            let mut prefix = dir.to_owned();
            prefix.append("/");
            inside = has_prefix(file, prefix.as_str());
        }
        let candidate = inside && cs[k].kind == ConceptKind::Package;
        let longer = match best {
            Some(p) => dirs[p].as_str().unicode_len() < size,
            None => true,
        };
        let ghost before = best;
        if candidate && longer {
            best = Some(k);
        }
        proof {
            let now = cs@.take(k + 1);
            let then = cs@.take(k as int);
            assert(forall|q: int| 0 <= q < k ==> then[q] == now[q]);
            assert(now[k as int] == cs[k as int]);
            if let Some(p) = best {
                assert forall|q: int| 0 <= q < now.len() && (#[trigger] now[q]).kind is Package && lies_in(file@, dir_of(now[q].location.file@)) implies {
                    ||| dir_of(now[q].location.file@).len() < dir_of(now[p as int].location.file@).len()
                    ||| dir_of(now[q].location.file@).len() == dir_of(now[p as int].location.file@).len() && p <= q
                } by {
                    if q < k {
                        assert(then[q] == cs[q]);
                    }
                }
            }
        }
    }
    proof {
        assert(cs@.take(cs@.len() as int) =~= cs@);
        match best {
            Some(p) => lemma_owner(cs@, file@, p as int),
            None => {},
        }
    }
    best
}

/// Links each module to the package that owns its file: the one with the
/// longest directory that the file lies in. A module that lies in no package
/// is left as it is.
pub fn link_modules_to_packages(concepts: &mut Vec<Concept>)
    ensures
        final(concepts)@.len() == old(concepts)@.len(),
        forall|i: int| 0 <= i < old(concepts)@.len() ==> #[trigger] final(concepts)@[i]@ == with_more(old(concepts)@[i]@, package_link(old(concepts)@, i)),
{
    let mut dirs: Vec<String> = Vec::new();
    for k in 0..concepts.len()
        invariant
            dirs.len() == k,
            forall|j: int| 0 <= j < k ==> #[trigger] dirs[j]@ == dir_of(concepts[j].location.file@),
    {
        dirs.push(package_directory(concepts[k].location.file.as_str()));
    }
    let mut links: Vec<Option<Relationship>> = Vec::new();
    for i in 0..concepts.len()
        invariant
            dirs.len() == concepts.len(),
            forall|j: int| 0 <= j < dirs.len() ==> #[trigger] dirs[j]@ == dir_of(concepts[j].location.file@),
            links.len() == i,
            forall|j: int| 0 <= j < i ==> link_views(#[trigger] links[j]) == package_link(concepts@, j),
    {
        let mut link: Option<Relationship> = None;
        if concepts[i].kind == ConceptKind::Module {
            if let Some(p) = find_owner(concepts, &dirs, concepts[i].location.file.as_str()) {
                proof {
                    assert(owner(concepts@, concepts[i as int].location.file@) == Some(p as int));
                }
                link = Some(Relationship::new(RelationKind::MemberOf, concepts[p].id.as_str(), concepts[p].name.as_str()));
            }
        }
        assert(link_views(link) =~= package_link(concepts@, i as int));
        links.push(link);
    }
    let ghost first = concepts@;
    let n: usize = concepts.len();
    for i in 0..n
        invariant
            concepts.len() == first.len(),
            n == first.len(),
            links.len() == first.len(),
            forall|j: int| 0 <= j < first.len() ==> link_views(#[trigger] links[j]) == package_link(first, j),
            forall|j: int| 0 <= j < i ==> #[trigger] concepts[j]@ == with_more(first[j]@, package_link(first, j)),
            forall|j: int| i <= j < first.len() ==> #[trigger] concepts[j] == first[j],
    {
        assert(link_views(links[i as int]) == package_link(first, i as int));
        if let Some(link) = &links[i] {
            let added = link.clone();
            concepts[i].relationships.push(added);
        }
        assert(concepts[i as int]@ =~= with_more(first[i as int]@, package_link(first, i as int)));
    }
}

/// The relationship, if there is one.
pub open spec fn link_views(link: Option<Relationship>) -> Seq<RelationshipView> {
    match link {
        Some(r) => seq![r@],
        None => Seq::empty(),
    }
}

/// The directory that the path lies in: what stands before its last slash,
/// and nothing where it has none.
pub open spec fn is_dir_of(dir: Seq<char>, path: Seq<char>) -> bool {
    ||| dir.len() == 0 && !path.contains('/')
    ||| exists|name: Seq<char>| path == #[trigger] (dir + seq!['/'] + name) && !name.contains('/')
}

/// The path lies in the directory, however deep, or is it; everything lies in
/// the project's own directory.
pub open spec fn is_within(path: Seq<char>, dir: Seq<char>) -> bool {
    ||| dir.len() == 0
    ||| path == dir
    ||| exists|rest: Seq<char>| path == #[trigger] (dir + seq!['/'] + rest)
}

proof fn lemma_within(path: Seq<char>, dir: Seq<char>)
    ensures
        lies_in(path, dir) <==> is_within(path, dir),
{
    reveal_strlit("/");
    assert("/"@ =~= seq!['/']);
    let head = dir + seq!['/'];
    if begins_with(path, dir + "/"@) {
        assert(path =~= head + path.skip(head.len() as int));
    }
    if exists|rest: Seq<char>| path == #[trigger] (dir + seq!['/'] + rest) {
        let rest = choose|rest: Seq<char>| path == #[trigger] (dir + seq!['/'] + rest);
        assert(path.take(head.len() as int) =~= head);
    }
}

pub proof fn lemma_dir(path: Seq<char>, dir: Seq<char>)
    ensures
        is_dir_of(dir, path) <==> dir == dir_of(path),
{
    lemma_find_last_char(path, '/');
    match find_last_char(path, '/') {
        Some(i) => {
            let name = path.skip(i + 1);
            assert(path =~= path.take(i) + seq!['/'] + name);
            assert(!name.contains('/')) by {
                if name.contains('/') {
                    let k = choose|k: int| 0 <= k < name.len() && name[k] == '/';
                    assert(path[i + 1 + k] == '/');
                }
            }
            assert(path.contains('/')) by {
                assert(path[i] == '/');
            }
            if is_dir_of(dir, path) {
                let last = choose|last: Seq<char>| path == #[trigger] (dir + seq!['/'] + last) && !last.contains('/');
                assert(path[dir.len() as int] == '/');
                if dir.len() < i {
                    assert(last[i - dir.len() - 1] == path[i]);
                }
                assert(dir.len() == i);
                assert(dir =~= path.take(i));
            }
        },
        None => {
            assert(!path.contains('/'));
            if exists|name: Seq<char>| path == #[trigger] (dir + seq!['/'] + name) && !name.contains('/') {
                let name = choose|name: Seq<char>| path == #[trigger] (dir + seq!['/'] + name) && !name.contains('/');
                assert(path[dir.len() as int] == '/');
            }
            if is_dir_of(dir, path) {
                assert(dir =~= Seq::empty());
            }
        },
    }
}

/// Of two directories that a path lies in, the shorter holds the longer.
proof fn lemma_nested(path: Seq<char>, long: Seq<char>, short: Seq<char>)
    requires
        is_within(path, long),
        is_within(path, short),
        short.len() <= long.len(),
    ensures
        is_within(long, short),
{
    if short.len() > 0 {
        if path != long {
            let rest = choose|rest: Seq<char>| path == #[trigger] (long + seq!['/'] + rest);
            assert(long =~= path.take(long.len() as int));
        } else {
            assert(long =~= path.take(long.len() as int));
        }
        if path == short {
            assert(long =~= short);
        } else {
            let rest = choose|rest: Seq<char>| path == #[trigger] (short + seq!['/'] + rest);
            if short.len() == long.len() {
                assert(long =~= short);
            } else {
                assert(long =~= short + seq!['/'] + long.skip(short.len() as int + 1));
            }
        }
    }
}

proof fn lemma_some_owner(cs: Seq<Concept>, file: Seq<char>, n: int) -> (best: Option<int>)
    requires
        0 <= n <= cs.len(),
    ensures
        match best {
            Some(p) => is_owner(cs.take(n), file, p),
            None => forall|q: int| 0 <= q < n && (#[trigger] cs[q]).kind is Package ==> !lies_in(file, dir_of(cs[q].location.file@)),
        },
    decreases n,
{
    if n == 0 {
        None
    } else {
        let before = lemma_some_owner(cs, file, n - 1);
        let (then, now) = (cs.take(n - 1), cs.take(n));
        let c = cs[n - 1];
        let holds = c.kind is Package && lies_in(file, dir_of(c.location.file@));
        let best = match before {
            Some(p) => if holds && dir_of(c.location.file@).len() > dir_of(cs[p].location.file@).len() {
                Some(n - 1)
            } else {
                Some(p)
            },
            None => if holds {
                Some(n - 1)
            } else {
                None
            },
        };
        if let Some(p) = best {
            assert forall|q: int| 0 <= q < now.len() && (#[trigger] now[q]).kind is Package && lies_in(file, dir_of(now[q].location.file@)) implies {
                ||| dir_of(now[q].location.file@).len() < dir_of(now[p].location.file@).len()
                ||| dir_of(now[q].location.file@).len() == dir_of(now[p].location.file@).len() && p <= q
            } by {
                if q < n - 1 {
                    assert(then[q] == cs[q]);
                }
            }
            assert(is_owner(now, file, p));
        }
        best
    }
}

/// The package at `p` has its manifest in the directory, and the file lies in
/// it.
pub open spec fn holds_file(cs: Seq<Concept>, p: int, dir: Seq<char>, file: Seq<char>) -> bool {
    0 <= p < cs.len() && cs[p].kind is Package && is_dir_of(dir, cs[p].location.file@) && is_within(file, dir)
}

/// A module becomes a member of the nearest package: one whose directory the
/// module's file lies in, where that of any other such package holds this
/// directory, the first given of several there. A module that no package holds
/// becomes a member of none, and nothing but modules does.
pub proof fn modules_join_the_nearest_package(cs: Seq<Concept>, i: int)
    requires
        0 <= i < cs.len(),
    ensures
        !(cs[i].kind is Module) ==> package_link(cs, i).len() == 0,
        cs[i].kind is Module && package_link(cs, i).len() == 0 ==> forall|q: int, dir: Seq<char>| !(#[trigger] holds_file(cs, q, dir, cs[i].location.file@)),
        package_link(cs, i).len() > 0 ==> {
            &&& package_link(cs, i).len() == 1
            &&& exists|p: int, dir: Seq<char>| {
                &&& #[trigger] holds_file(cs, p, dir, cs[i].location.file@)
                &&& package_link(cs, i)[0].kind is MemberOf
                &&& package_link(cs, i)[0].target == cs[p].id@
                &&& package_link(cs, i)[0].target_display == cs[p].name@
                &&& forall|q: int, other: Seq<char>| #[trigger] holds_file(cs, q, other, cs[i].location.file@) ==> is_within(dir, other) && (other == dir ==> p <= q)
            }
        },
{
    let file = cs[i].location.file@;
    let best = lemma_some_owner(cs, file, cs.len() as int);
    assert(cs.take(cs.len() as int) =~= cs);
    match best {
        Some(p) => {
            lemma_owner(cs, file, p);
            let dir = dir_of(cs[p].location.file@);
            lemma_dir(cs[p].location.file@, dir);
            lemma_within(file, dir);
            assert(holds_file(cs, p, dir, file));
            assert forall|q: int, other: Seq<char>| #[trigger] holds_file(cs, q, other, file) implies is_within(dir, other) && (other == dir ==> p <= q) by {
                lemma_dir(cs[q].location.file@, other);
                lemma_within(file, other);
                assert(cs[q].kind is Package);
                lemma_nested(file, dir, other);
            }
        },
        None => {
            assert forall|q: int, dir: Seq<char>| !(#[trigger] holds_file(cs, q, dir, file)) by {
                if holds_file(cs, q, dir, file) {
                    lemma_dir(cs[q].location.file@, dir);
                    lemma_within(file, dir);
                    assert(cs[q].kind is Package);
                }
            }
            if owner(cs, file) is Some {
                let p = choose|p: int| is_owner(cs, file, p);
                assert(is_owner(cs, file, p));
                assert(cs[p].kind is Package);
            }
        },
    }
}

/// A package in a directory of its own is called after the directory, place
/// for place, with a dot for each slash; where several manifests stand in one
/// directory, each has its kind behind that, so that manifests of different
/// kinds give different names.
pub proof fn packages_are_called_after_their_directories(roots: Seq<PackageRoot>, i: int, name: Seq<char>, j: int, other: Seq<char>)
    requires
        0 <= i < roots.len(),
        0 <= j < roots.len(),
        roots[i].relative_dir@.len() > 0,
    ensures
        forall|k: int| 0 <= k < roots[i].relative_dir@.len() ==> #[trigger] qualified_name_of(roots, i, name)[k] == if roots[i].relative_dir@[k] == '/' {
            '.'
        } else {
            roots[i].relative_dir@[k]
        },
        (forall|k: int| 0 <= k < roots.len() && k != i ==> (#[trigger] roots[k]).relative_dir@ != roots[i].relative_dir@) ==> qualified_name_of(roots, i, name).len()
            == roots[i].relative_dir@.len(),
        j != i && roots[j].relative_dir@ == roots[i].relative_dir@ && roots[j].manifest != roots[i].manifest ==> qualified_name_of(roots, i, name) != qualified_name_of(
            roots,
            j,
            other,
        ),
{
    if j != i && roots[j].relative_dir@ == roots[i].relative_dir@ && roots[j].manifest != roots[i].manifest {
        assert(shares_dir(roots, i)) by {
            assert(roots[j].relative_dir@ == roots[i].relative_dir@);
        }
        assert(shares_dir(roots, j)) by {
            assert(roots[i].relative_dir@ == roots[j].relative_dir@);
        }
        reveal_strlit("cargo");
        reveal_strlit("npm");
        reveal_strlit("pyproject");
        reveal_strlit("gomod");
        let head = replaced(roots[i].relative_dir@, '/', '.') + "."@;
        let (x, y) = (short_tag_of(roots[i].manifest), short_tag_of(roots[j].manifest));
        assert(x.len() != y.len() || x[0] != y[0]);
        if head + x == head + y {
            assert((head + x).len() == head.len() + x.len());
            assert((head + x)[head.len() as int] == x[0] && (head + y)[head.len() as int] == y[0]);
        }
    }
}

/// Every manifest that names a package gives one concept, in the order of the
/// manifests, and the others none.
pub proof fn named_manifests_give_packages(roots: Seq<PackageRoot>, names: Seq<Option<Seq<char>>>, n: nat) -> (at: Seq<int>)
    requires
        n <= roots.len() == names.len(),
    ensures
        packages_of(roots, names, n).len() == at.len(),
        forall|i: int| #[trigger] at.contains(i) <==> 0 <= i < n && names[i] is Some,
        forall|k: int, l: int| 0 <= k < l < at.len() ==> #[trigger] at[k] < #[trigger] at[l],
        forall|k: int| 0 <= k < at.len() ==> {
            let c = #[trigger] packages_of(roots, names, n)[k];
            &&& 0 <= at[k] < n
            &&& names[at[k]] == Some(c.name)
            &&& c.kind is Package
            &&& c.file == manifest_path(roots[at[k]])
            &&& c.relationships.len() == 0
        },
    decreases n,
{
    if n == 0 {
        Seq::empty()
    } else {
        let before = named_manifests_give_packages(roots, names, (n - 1) as nat);
        let at = if names[n - 1] is Some {
            before.push(n - 1)
        } else {
            before
        };
        let (rest, all) = (packages_of(roots, names, (n - 1) as nat), packages_of(roots, names, n));
        assert forall|i: int| #[trigger] at.contains(i) <==> 0 <= i < n && names[i] is Some by {
            if before.contains(i) {
                let k = choose|k: int| 0 <= k < before.len() && before[k] == i;
                assert(at[k] == i);
            }
            if at.contains(i) {
                let k = choose|k: int| 0 <= k < at.len() && at[k] == i;
                if k < before.len() {
                    assert(before[k] == i);
                    assert(before.contains(i));
                }
            }
            if i == n - 1 && names[i] is Some {
                assert(at[before.len() as int] == i);
            }
        }
        assert forall|k: int| 0 <= k < at.len() implies {
            let c = #[trigger] all[k];
            &&& 0 <= at[k] < n
            &&& names[at[k]] == Some(c.name)
            &&& c.kind is Package
            &&& c.file == manifest_path(roots[at[k]])
            &&& c.relationships.len() == 0
        } by {
            if k < before.len() {
                assert(all[k] == rest[k]);
            }
        }
        assert forall|k: int, l: int| 0 <= k < l < at.len() implies #[trigger] at[k] < #[trigger] at[l] by {
            assert(before[k] == at[k]);
            assert(before.contains(before[k]));
            if l < before.len() {
                assert(before[l] == at[l]);
            }
        }
        at
    }
}

/// The line names the module: white space aside, it is the word for it, a
/// space and the name.
pub open spec fn names_module(line: Seq<char>, name: Seq<char>) -> bool {
    exists|rest: Seq<char>| trim(line) == #[trigger] ("module "@ + rest) && name == trim(rest)
}

/// A Go manifest names the module that the first such line names.
pub proof fn the_first_module_line_counts(ls: Seq<Seq<char>>)
    ensures
        match first_module(ls) {
            Some(m) => exists|k: int| {
                &&& 0 <= k < ls.len()
                &&& names_module(#[trigger] ls[k], m)
                &&& forall|j: int, other: Seq<char>| 0 <= j < k ==> !#[trigger] names_module(ls[j], other)
            },
            None => forall|j: int, other: Seq<char>| 0 <= j < ls.len() ==> !#[trigger] names_module(ls[j], other),
        },
    decreases ls.len(),
{
    if ls.len() > 0 {
        let before = ls.drop_last();
        the_first_module_line_counts(before);
        assert forall|j: int| 0 <= j < before.len() implies #[trigger] ls[j] == before[j] by {}
        lemma_module_line(ls.last());
        match first_module(before) {
            Some(m) => {
                let k = choose|k: int| {
                    &&& 0 <= k < before.len()
                    &&& names_module(#[trigger] before[k], m)
                    &&& forall|j: int, other: Seq<char>| 0 <= j < k ==> !#[trigger] names_module(before[j], other)
                };
                assert(names_module(ls[k], m));
                assert forall|j: int, other: Seq<char>| 0 <= j < k implies !#[trigger] names_module(ls[j], other) by {
                    assert(!names_module(before[j], other));
                }
            },
            None => {
                assert forall|j: int, other: Seq<char>| 0 <= j < ls.len() - 1 implies !#[trigger] names_module(ls[j], other) by {
                    assert(!names_module(before[j], other));
                }
                assert(ls[ls.len() - 1] == ls.last());
            },
        }
    }
}

proof fn lemma_module_line(line: Seq<char>)
    ensures
        match module_line(line) {
            Some(m) => names_module(line, m),
            None => forall|other: Seq<char>| !#[trigger] names_module(line, other),
        },
{
    let (t, word) = (trim(line), "module "@);
    if begins_with(t, word) {
        assert(t =~= word + t.skip(word.len() as int));
    }
    assert forall|other: Seq<char>| #[trigger] names_module(line, other) implies begins_with(t, word) by {
        let rest = choose|rest: Seq<char>| t == #[trigger] (word + rest) && other == trim(rest);
        assert(t.take(word.len() as int) =~= word);
    }
}

/// The document has a table under the key that has the text under the other.
pub open spec fn says_in(t: Tree, table: Seq<char>, key: Seq<char>, text: Seq<char>) -> bool {
    &&& field(t, table) matches Some(inner)
    &&& text_of(field(inner, key)) == Some(text)
}

/// A Cargo manifest names its package in the table for it, an npm manifest at
/// its top. A Python manifest names it in the project's table, and only where
/// that has no name in poetry's.
pub proof fn manifests_name_their_packages(t: Tree, name: Seq<char>)
    ensures
        cargo_name_of(t) == Some(name) <==> says_in(t, "package"@, "name"@, name),
        npm_name_of(t) == Some(name) <==> text_of(field(t, "name"@)) == Some(name),
        says_in(t, "project"@, "name"@, name) ==> pyproject_name_of(t) == Some(name),
        (forall|other: Seq<char>| !#[trigger] says_in(t, "project"@, "name"@, other)) ==> (pyproject_name_of(t) == Some(name) <==> (field(t, "tool"@) is Some && says_in(
            field(t, "tool"@)->0,
            "poetry"@,
            "name"@,
            name,
        ))),
{
    if forall|other: Seq<char>| !#[trigger] says_in(t, "project"@, "name"@, other) {
        if let Some(n) = text_of(field2(t, "project"@, "name"@)) {
            assert(says_in(t, "project"@, "name"@, n));
        }
    }
}

/// Every manifest whose content cannot be had or read is named as skipped, in
/// their order, and no other.
pub proof fn unreadable_manifests_are_named(roots: Seq<PackageRoot>, contents: Seq<Option<String>>, n: nat)
    requires
        n <= roots.len() == contents.len(),
        n <= usize::MAX,
    ensures
        forall|i: usize| #[trigger] unreadable(roots, contents, n).contains(i) <==> i < n && (contents[i as int] is None || manifest_name(roots[i as int].manifest, contents[i as int]->0@) is None),
        forall|x: int, y: int| 0 <= x < y < unreadable(roots, contents, n).len() ==> #[trigger] unreadable(roots, contents, n)[x] < #[trigger] unreadable(roots, contents, n)[y],
    decreases n,
{
    if n > 0 {
        let (rest, all) = (unreadable(roots, contents, (n - 1) as nat), unreadable(roots, contents, n));
        unreadable_manifests_are_named(roots, contents, (n - 1) as nat);
        assert forall|i: usize| #[trigger] all.contains(i) <==> i < n && (contents[i as int] is None || manifest_name(roots[i as int].manifest, contents[i as int]->0@) is None) by {
            if rest.contains(i) {
                let x = choose|x: int| 0 <= x < rest.len() && rest[x] == i;
                assert(all[x] == i);
            }
            if all.contains(i) {
                let x = choose|x: int| 0 <= x < all.len() && all[x] == i;
                if x < rest.len() {
                    assert(rest[x] == i);
                    assert(rest.contains(i));
                }
            }
            if i == n - 1 && name_at(roots, contents, n - 1) is None {
                assert(all[rest.len() as int] == i);
            }
        }
        assert forall|x: int, y: int| 0 <= x < y < all.len() implies #[trigger] all[x] < #[trigger] all[y] by {
            assert(rest[x] == all[x]);
            assert(rest.contains(rest[x]));
            if y < rest.len() {
                assert(rest[y] == all[y]);
            }
        }
    }
}

}
