//! A scanned project: its source files and the packages its manifests make.

use vstd::prelude::*;
use crate::model::Language;
use crate::order::{in_order, sort_order, SortKey};
use crate::order::{goes_before, is_sort_order, key_views, lemma_order_distinct, lemma_sorting_forgets_order, lemma_sorting_keeps, sorted_by, KeyView};
use crate::naming::replace_char;
use crate::naming::replaced;
use crate::packages::package_directory;
use crate::packages::{dir_of, is_dir_of, lemma_dir};
use crate::text::{same, split_text};
use crate::text::{is_cut_off, lex_lt, pieces_are_cut_off, separators, split, texts, what_is_cut_off_is_a_piece};

verus! {

/// The manifest files that mark a package.
#[derive(Clone, Copy, Debug, PartialEq, Eq, Structural)]
pub enum ManifestKind {
    Cargo,
    Npm,
    PyProject,
    GoModule,
}

/// The name of a manifest file.
pub open spec fn manifest_file(kind: ManifestKind) -> Seq<char> {
    match kind {
        ManifestKind::Cargo => "Cargo.toml"@,
        ManifestKind::Npm => "package.json"@,
        ManifestKind::PyProject => "pyproject.toml"@,
        ManifestKind::GoModule => "go.mod"@,
    }
}

/// A short tag for a manifest kind.
pub open spec fn short_tag_of(kind: ManifestKind) -> Seq<char> {
    match kind {
        ManifestKind::Cargo => "cargo"@,
        ManifestKind::Npm => "npm"@,
        ManifestKind::PyProject => "pyproject"@,
        ManifestKind::GoModule => "gomod"@,
    }
}

impl ManifestKind {
    /// The name of the manifest file.
    pub fn file_name(&self) -> (r: &'static str)
        ensures
            r@ == manifest_file(*self),
    {
        match self {
            ManifestKind::Cargo => "Cargo.toml",
            ManifestKind::Npm => "package.json",
            ManifestKind::PyProject => "pyproject.toml",
            ManifestKind::GoModule => "go.mod",
        }
    }

    /// A short tag that can stand in an id.
    pub fn short_tag(&self) -> (r: &'static str)
        ensures
            r@ == short_tag_of(*self),
    {
        match self {
            ManifestKind::Cargo => "cargo",
            ManifestKind::Npm => "npm",
            ManifestKind::PyProject => "pyproject",
            ManifestKind::GoModule => "gomod",
        }
    }
}

/// A directory with a manifest; the project's own directory is the empty path.
#[derive(Debug, PartialEq, Eq)]
pub struct PackageRoot {
    pub relative_dir: String,
    pub manifest: ManifestKind,
}

/// A source file of the project.
#[derive(Debug)]
pub struct SourceFile {
    pub relative_path: String,
    pub absolute_path: String,
    pub language: Language,
}

/// What kind precedes which in one directory.
pub open spec fn ordinal(kind: ManifestKind) -> int {
    match kind {
        ManifestKind::Cargo => 0,
        ManifestKind::Npm => 1,
        ManifestKind::PyProject => 2,
        ManifestKind::GoModule => 3,
    }
}

/// The place of a manifest kind among those of one directory.
pub fn manifest_ordinal(kind: ManifestKind) -> (r: usize)
    ensures
        r == ordinal(kind),
{
    match kind {
        ManifestKind::Cargo => 0,
        ManifestKind::Npm => 1,
        ManifestKind::PyProject => 2,
        ManifestKind::GoModule => 3,
    }
}

/// The names of directories that hold generated or vendored trees.
pub open spec fn ignored_name(part: Seq<char>) -> bool {
    part == "node_modules"@ || part == "vendor"@ || part == "target"@ || part == "dist"@ || part == "build"@
}

/// Some part of the path is the name of a generated or vendored tree.
pub open spec fn ignored_dir(dir: Seq<char>) -> bool {
    exists|i: int| 0 <= i < split(dir, '/').len() && ignored_name(#[trigger] split(dir, '/')[i])
}

/// Whether the directory lies in a generated or vendored tree.
pub fn is_ignored_package_dir(dir: &str) -> (r: bool)
    ensures
        r == ignored_dir(dir@),
{
    let parts = split_text(dir, '/');
    for i in 0..parts.len()
        invariant
            texts(parts@) == split(dir@, '/'),
            forall|k: int| 0 <= k < i ==> !ignored_name(#[trigger] split(dir@, '/')[k]),
    {
        let part = parts[i].as_str();
        assert(part@ == texts(parts@)[i as int]);
        if same(part, "node_modules") || same(part, "vendor") || same(part, "target") || same(part, "dist") || same(part, "build") {
            return true;
        }
    }
    false
}

/// A file that was found below the project's root.
#[derive(Debug)]
pub struct ScannedFile {
    /// The path below the root, as the system writes it.
    pub path: String,
    /// The last part of the path.
    pub file_name: Option<String>,
    pub absolute_path: String,
    /// The language that the ending of the name stands for.
    pub language: Option<Language>,
}

/// A scanned project: its root, its source files by path, the manifest at its
/// root, and every manifest by directory and kind.
#[derive(Debug)]
pub struct Project {
    pub root: String,
    pub files: Vec<SourceFile>,
    pub manifest: Option<ManifestKind>,
    pub packages: Vec<PackageRoot>,
}

/// The kind of manifest with the file name.
pub open spec fn kind_named(name: Seq<char>) -> Option<ManifestKind> {
    if name == "Cargo.toml"@ {
        Some(ManifestKind::Cargo)
    } else if name == "package.json"@ {
        Some(ManifestKind::Npm)
    } else if name == "pyproject.toml"@ {
        Some(ManifestKind::PyProject)
    } else if name == "go.mod"@ {
        Some(ManifestKind::GoModule)
    } else {
        None
    }
}

/// The path with slashes.
pub open spec fn slashed(path: Seq<char>) -> Seq<char> {
    replaced(path, '\\', '/')
}

/// The directory and the kind of the manifest that the file is: nothing for a
/// file that is none, or that lies in a generated or vendored tree.
pub open spec fn manifest_in(f: ScannedFile) -> Option<(Seq<char>, ManifestKind)> {
    match f.file_name {
        Some(name) => match kind_named(name@) {
            Some(kind) => if ignored_dir(dir_of(slashed(f.path@))) {
                None
            } else {
                Some((dir_of(slashed(f.path@)), kind))
            },
            None => None,
        },
        None => None,
    }
}

/// A source file as a value: its path, its place, its language.
pub open spec fn source_views(v: Seq<SourceFile>) -> Seq<(Seq<char>, Seq<char>, Language)> {
    v.map_values(|f: SourceFile| (f.relative_path@, f.absolute_path@, f.language))
}

/// A package's directory and the kind of its manifest.
pub open spec fn root_views(v: Seq<PackageRoot>) -> Seq<(Seq<char>, ManifestKind)> {
    v.map_values(|r: PackageRoot| (r.relative_dir@, r.manifest))
}

/// The source files among the first `n`.
pub open spec fn sources_in(found: Seq<ScannedFile>, n: nat) -> Seq<(Seq<char>, Seq<char>, Language)>
    decreases n,
{
    if n == 0 {
        Seq::empty()
    } else {
        let rest = sources_in(found, (n - 1) as nat);
        match found[n - 1].language {
            Some(language) => rest.push((slashed(found[n - 1].path@), found[n - 1].absolute_path@, language)),
            None => rest,
        }
    }
}

/// The manifests among the first `n`.
pub open spec fn manifests_in(found: Seq<ScannedFile>, n: nat) -> Seq<(Seq<char>, ManifestKind)>
    decreases n,
{
    if n == 0 {
        Seq::empty()
    } else {
        let rest = manifests_in(found, (n - 1) as nat);
        match manifest_in(found[n - 1]) {
            Some(m) => rest.push(m),
            None => rest,
        }
    }
}

/// What orders source files: the path.
pub open spec fn path_keys(v: Seq<SourceFile>) -> Seq<KeyView> {
    v.map_values(|f: SourceFile| KeyView { major: 0, text: f.relative_path@, second: ""@, minor: 0 })
}

/// What orders packages: the directory, then the kind of manifest.
pub open spec fn root_keys(v: Seq<PackageRoot>) -> Seq<KeyView> {
    v.map_values(|r: PackageRoot| KeyView { major: 0, text: r.relative_dir@, second: ""@, minor: ordinal(r.manifest) })
}

/// The source files that were found, by path.
pub open spec fn are_files_of(found: Seq<ScannedFile>, files: Seq<SourceFile>) -> bool {
    exists|items: Seq<SourceFile>| source_views(items) == sources_in(found, found.len()) && #[trigger] sorted_by(items, path_keys(items), files)
}

/// The manifests that were found, and the one at the root where it was not
/// among them.
pub open spec fn all_manifests(found: Seq<ScannedFile>, own: Option<ManifestKind>) -> Seq<(Seq<char>, ManifestKind)> {
    let listed = manifests_in(found, found.len());
    match own {
        Some(kind) => if listed.contains((""@, kind)) {
            listed
        } else {
            listed.push((""@, kind))
        },
        None => listed,
    }
}

/// The manifests by directory and kind, that of the root always among them.
pub open spec fn are_packages_of(found: Seq<ScannedFile>, own: Option<ManifestKind>, packages: Seq<PackageRoot>) -> bool {
    exists|items: Seq<PackageRoot>| root_views(items) == all_manifests(found, own) && #[trigger] sorted_by(items, root_keys(items), packages)
}

/// The first kind whose manifest stands at the root.
pub open spec fn first_kind(cargo: bool, npm: bool, pyproject: bool, gomod: bool) -> Option<ManifestKind> {
    if cargo {
        Some(ManifestKind::Cargo)
    } else if npm {
        Some(ManifestKind::Npm)
    } else if pyproject {
        Some(ManifestKind::PyProject)
    } else if gomod {
        Some(ManifestKind::GoModule)
    } else {
        None
    }
}

/// Which manifests stand at the root itself.
#[derive(Clone, Copy, Debug, PartialEq, Eq, Structural)]
pub struct RootManifests {
    pub cargo: bool,
    pub npm: bool,
    pub pyproject: bool,
    pub gomod: bool,
}

/// The kind of manifest with the file name.
pub fn manifest_kind(name: &str) -> (r: Option<ManifestKind>)
    ensures
        r == kind_named(name@),
{
    if same(name, "Cargo.toml") {
        Some(ManifestKind::Cargo)
    } else if same(name, "package.json") {
        Some(ManifestKind::Npm)
    } else if same(name, "pyproject.toml") {
        Some(ManifestKind::PyProject)
    } else if same(name, "go.mod") {
        Some(ManifestKind::GoModule)
    } else {
        None
    }
}

/// The manifest that the file is.
fn package_root_of(f: &ScannedFile, relative: &str) -> (r: Option<PackageRoot>)
    requires
        relative@ == slashed(f.path@),
    ensures
        match r {
            Some(root) => manifest_in(*f) == Some((root.relative_dir@, root.manifest)),
            None => manifest_in(*f) is None,
        },
{
    match &f.file_name {
        Some(name) => match manifest_kind(name.as_str()) {
            Some(kind) => {
                let dir = package_directory(relative);
                if is_ignored_package_dir(dir.as_str()) {
                    None
                } else {
                    Some(PackageRoot { relative_dir: dir, manifest: kind })
                }
            },
            None => None,
        },
        None => None,
    }
}

/// The source files by path.
fn sort_files(files: Vec<SourceFile>) -> (r: Vec<SourceFile>)
    ensures
        sorted_by(files@, path_keys(files@), r@),
{
    let mut keys: Vec<SortKey> = Vec::new();
    for i in 0..files.len()
        invariant
            keys.len() == i,
            forall|k: int| 0 <= k < i ==> (#[trigger] keys@[k])@ == path_keys(files@)[k],
    {
        keys.push(SortKey { major: 0, text: files[i].relative_path.as_str(), second: "", minor: 0 });
    }
    let order = sort_order(&keys);
    proof {
        assert(key_views(keys@) =~= path_keys(files@));
        lemma_order_distinct(path_keys(files@), order@);
    }
    in_order(files, &order)
}

/// The packages by directory and kind of manifest.
fn sort_roots(roots: Vec<PackageRoot>) -> (r: Vec<PackageRoot>)
    ensures
        sorted_by(roots@, root_keys(roots@), r@),
{
    let mut keys: Vec<SortKey> = Vec::new();
    for i in 0..roots.len()
        invariant
            keys.len() == i,
            forall|k: int| 0 <= k < i ==> (#[trigger] keys@[k])@ == root_keys(roots@)[k],
    {
        keys.push(SortKey { major: 0, text: roots[i].relative_dir.as_str(), second: "", minor: manifest_ordinal(roots[i].manifest) });
    }
    let order = sort_order(&keys);
    proof {
        assert(key_views(keys@) =~= root_keys(roots@));
        lemma_order_distinct(root_keys(roots@), order@);
    }
    in_order(roots, &order)
}

/// Whether the manifest of this kind at the root is among the packages.
fn has_root(packages: &Vec<PackageRoot>, kind: ManifestKind) -> (r: bool)
    ensures
        r == root_views(packages@).contains((""@, kind)),
{
    for i in 0..packages.len()
        invariant
            forall|k: int| 0 <= k < i ==> #[trigger] root_views(packages@)[k] != (""@, kind),
    {
        assert(root_views(packages@)[i as int] == (packages@[i as int].relative_dir@, packages@[i as int].manifest));
        if packages[i].manifest == kind && same(packages[i].relative_dir.as_str(), "") {
            return true;
        }
    }
    false
}

impl Project {
    /// The project at the root, with the files that were found below it in any
    /// order.
    pub fn load(root: String, found: &Vec<ScannedFile>, at_root: RootManifests) -> (r: Project)
        ensures
            r.root@ == root@,
            are_files_of(found@, r.files@),
            are_packages_of(found@, r.manifest, r.packages@),
            r.manifest == first_kind(at_root.cargo, at_root.npm, at_root.pyproject, at_root.gomod),
    {
        let mut files: Vec<SourceFile> = Vec::new();
        let mut packages: Vec<PackageRoot> = Vec::new();
        assert(source_views(files@) =~= Seq::empty());
        assert(root_views(packages@) =~= Seq::empty());
        for i in 0..found.len()
            invariant
                source_views(files@) == sources_in(found@, i as nat),
                root_views(packages@) == manifests_in(found@, i as nat),
        {
            let f = &found[i];
            let relative = replace_char(f.path.as_str(), '\\', '/');
            if let Some(p) = package_root_of(f, relative.as_str()) {
                let ghost before = packages@;
                packages.push(p);
                assert(root_views(packages@) =~= root_views(before).push((p.relative_dir@, p.manifest)));
            }
            if let Some(language) = f.language {
                let ghost before = files@;
                let file = SourceFile { relative_path: relative, absolute_path: f.absolute_path.clone(), language };
                files.push(file);
                assert(source_views(files@) =~= source_views(before).push((file.relative_path@, file.absolute_path@, file.language)));
            }
        }
        let manifest = if at_root.cargo {
            Some(ManifestKind::Cargo)
        } else if at_root.npm {
            Some(ManifestKind::Npm)
        } else if at_root.pyproject {
            Some(ManifestKind::PyProject)
        } else if at_root.gomod {
            Some(ManifestKind::GoModule)
        } else {
            None
        };
        if let Some(kind) = manifest {
            if !has_root(&packages, kind) {
                let ghost before = packages@;
                let p = PackageRoot { relative_dir: "".to_owned(), manifest: kind };
                packages.push(p);
                assert(root_views(packages@) =~= root_views(before).push((""@, kind)));
            }
        }
        assert(root_views(packages@) == all_manifests(found@, manifest));
        Project { root, files: sort_files(files), manifest, packages: sort_roots(packages) }
    }

    /// The source files in the language, by path.
    pub fn files_for(&self, language: Language) -> (r: Vec<&SourceFile>)
        ensures
            r@.map_values(|f: &SourceFile| *f) == self.files@.filter(in_language(language)),
    {
        let mut out: Vec<&SourceFile> = Vec::new();
        let ghost pred = in_language(language);
        assert(self.files@.take(0) =~= Seq::empty());
        proof {
            reveal(Seq::filter);
        }
        assert(out@.map_values(|f: &SourceFile| *f) =~= self.files@.take(0).filter(pred));
        for i in 0..self.files.len()
            invariant
                pred == in_language(language),
                out@.map_values(|f: &SourceFile| *f) == self.files@.take(i as int).filter(pred),
        {
            let ghost before = out@;
            if self.files[i].language == language {
                out.push(&self.files[i]);
            }
            proof {
                reveal(Seq::filter);
                assert(self.files@.take(i + 1).drop_last() =~= self.files@.take(i as int));
                assert(self.files@.take(i + 1).last() == self.files@[i as int]);
                if out@.len() > before.len() {
                    assert(out@.map_values(|f: &SourceFile| *f) =~= before.map_values(|f: &SourceFile| *f).push(self.files@[i as int]));
                }
            }
        }
        assert(self.files@.take(self.files@.len() as int) =~= self.files@);
        out
    }
}

/// The file is in the language.
pub open spec fn in_language(language: Language) -> spec_fn(SourceFile) -> bool {
    |f: SourceFile| f.language == language
}

/// No two of the source files have one path.
pub open spec fn paths_differ(sources: Seq<(Seq<char>, Seq<char>, Language)>) -> bool {
    forall|i: int, j: int| 0 <= i < j < sources.len() ==> (#[trigger] sources[i]).0 != (#[trigger] sources[j]).0
}

/// In whatever order a scan comes upon the source files, the project has them
/// in one order.
pub proof fn files_come_in_any_order(found: Seq<ScannedFile>, other: Seq<ScannedFile>, a: Seq<SourceFile>, b: Seq<SourceFile>)
    requires
        are_files_of(found, a),
        are_files_of(other, b),
        found.len() <= usize::MAX,
        other.len() <= usize::MAX,
        paths_differ(sources_in(found, found.len())),
        paths_differ(sources_in(other, other.len())),
        forall|t: (Seq<char>, Seq<char>, Language)| #[trigger]
            sources_in(found, found.len()).contains(t) <==> sources_in(other, other.len()).contains(t),
    ensures
        source_views(a) == source_views(b),
{
    let xs = choose|items: Seq<SourceFile>| source_views(items) == sources_in(found, found.len()) && #[trigger] sorted_by(items, path_keys(items), a);
    let ys = choose|items: Seq<SourceFile>| source_views(items) == sources_in(other, other.len()) && #[trigger] sorted_by(items, path_keys(items), b);
    let seen = |f: SourceFile| (f.relative_path@, f.absolute_path@, f.language);
    let key = |t: (Seq<char>, Seq<char>, Language)| KeyView { major: 0, text: t.0, second: ""@, minor: 0 };
    lemma_sources_fit(found, found.len());
    lemma_sources_fit(other, other.len());
    assert(xs.len() == source_views(xs).len() && ys.len() == source_views(ys).len());
    assert(xs.map_values(seen) =~= source_views(xs));
    assert(ys.map_values(seen) =~= source_views(ys));
    assert forall|i: int, j: int| 0 <= i < j < xs.len() implies #[trigger] path_keys(xs)[i] != #[trigger] path_keys(xs)[j] by {
        assert(source_views(xs)[i].0 != source_views(xs)[j].0);
    }
    assert forall|i: int, j: int| 0 <= i < j < ys.len() implies #[trigger] path_keys(ys)[i] != #[trigger] path_keys(ys)[j] by {
        assert(source_views(ys)[i].0 != source_views(ys)[j].0);
    }
    lemma_sorting_forgets_order(xs, path_keys(xs), a, ys, path_keys(ys), b, seen, key);
    assert(a.map_values(seen) =~= source_views(a));
    assert(b.map_values(seen) =~= source_views(b));
}

proof fn lemma_sources_fit(found: Seq<ScannedFile>, n: nat)
    ensures
        sources_in(found, n).len() <= n,
        manifests_in(found, n).len() <= n,
    decreases n,
{
    if n > 0 {
        lemma_sources_fit(found, (n - 1) as nat);
    }
}

proof fn lemma_own_is_one_more(found: Seq<ScannedFile>, own: Option<ManifestKind>)
    requires
        manifests_in(found, found.len()).no_duplicates(),
    ensures
        all_manifests(found, own).no_duplicates(),
        forall|t: (Seq<char>, ManifestKind)| #[trigger]
            all_manifests(found, own).contains(t) <==> manifests_in(found, found.len()).contains(t) || (own is Some && t == (""@, own->0)),
{
    let listed = manifests_in(found, found.len());
    let all = all_manifests(found, own);
    assert forall|t: (Seq<char>, ManifestKind)| #[trigger] all.contains(t) <==> listed.contains(t) || (own is Some && t == (""@, own->0)) by {
        if listed.contains(t) {
            let k = choose|k: int| 0 <= k < listed.len() && listed[k] == t;
            assert(all[k] == t);
        }
        if own is Some && t == (""@, own->0) && !listed.contains(t) {
            assert(all[listed.len() as int] == t);
        }
        if all.contains(t) {
            let k = choose|k: int| 0 <= k < all.len() && all[k] == t;
            if k < listed.len() {
                assert(listed[k] == t);
            }
        }
    }
}

/// The packages always have the root's own manifest among them.
pub proof fn the_root_is_a_package(found: Seq<ScannedFile>, kind: ManifestKind, packages: Seq<PackageRoot>)
    requires
        are_packages_of(found, Some(kind), packages),
        found.len() < usize::MAX,
    ensures
        root_views(packages).contains((""@, kind)),
{
    let items = choose|items: Seq<PackageRoot>| root_views(items) == all_manifests(found, Some(kind)) && #[trigger] sorted_by(items, root_keys(items), packages);
    let order = choose|order: Seq<usize>| #[trigger] is_sort_order(root_keys(items), order) && packages == order.map_values(|k: usize| items[k as int]);
    lemma_sources_fit(found, found.len());
    let all = root_views(items);
    assert(all.contains((""@, kind))) by {
        let listed = manifests_in(found, found.len());
        if !listed.contains((""@, kind)) {
            assert(all[listed.len() as int] == (""@, kind));
        }
    }
    let k = choose|k: int| 0 <= k < all.len() && all[k] == (""@, kind);
    assert(order.contains(k as usize));
    let i = choose|i: int| 0 <= i < order.len() && order[i] == k as usize;
    assert(root_views(packages)[i] == (""@, kind));
}

/// In whatever order a scan comes upon the manifests, the project has their
/// packages in one order.
pub proof fn packages_come_in_any_order(
    found: Seq<ScannedFile>,
    other: Seq<ScannedFile>,
    own: Option<ManifestKind>,
    a: Seq<PackageRoot>,
    b: Seq<PackageRoot>,
)
    requires
        are_packages_of(found, own, a),
        are_packages_of(other, own, b),
        found.len() < usize::MAX,
        other.len() < usize::MAX,
        manifests_in(found, found.len()).no_duplicates(),
        manifests_in(other, other.len()).no_duplicates(),
        forall|t: (Seq<char>, ManifestKind)| #[trigger]
            manifests_in(found, found.len()).contains(t) <==> manifests_in(other, other.len()).contains(t),
    ensures
        root_views(a) == root_views(b),
{
    let xs = choose|items: Seq<PackageRoot>| root_views(items) == all_manifests(found, own) && #[trigger] sorted_by(items, root_keys(items), a);
    let ys = choose|items: Seq<PackageRoot>| root_views(items) == all_manifests(other, own) && #[trigger] sorted_by(items, root_keys(items), b);
    lemma_own_is_one_more(found, own);
    lemma_own_is_one_more(other, own);
    assert forall|t: (Seq<char>, ManifestKind)| #[trigger] all_manifests(found, own).contains(t) <==> all_manifests(other, own).contains(t) by {
        assert(manifests_in(found, found.len()).contains(t) <==> manifests_in(other, other.len()).contains(t));
    }
    let seen = |r: PackageRoot| (r.relative_dir@, r.manifest);
    let key = |t: (Seq<char>, ManifestKind)| KeyView { major: 0, text: t.0, second: ""@, minor: ordinal(t.1) };
    lemma_sources_fit(found, found.len());
    lemma_sources_fit(other, other.len());
    assert(xs.len() == root_views(xs).len() && ys.len() == root_views(ys).len());
    assert(xs.map_values(seen) =~= root_views(xs));
    assert(ys.map_values(seen) =~= root_views(ys));
    assert forall|i: int, j: int| 0 <= i < j < xs.len() implies #[trigger] root_keys(xs)[i] != #[trigger] root_keys(xs)[j] by {
        assert(root_views(xs)[i] != root_views(xs)[j]);
    }
    assert forall|i: int, j: int| 0 <= i < j < ys.len() implies #[trigger] root_keys(ys)[i] != #[trigger] root_keys(ys)[j] by {
        assert(root_views(ys)[i] != root_views(ys)[j]);
    }
    lemma_sorting_forgets_order(xs, root_keys(xs), a, ys, root_keys(ys), b, seen, key);
    assert(a.map_values(seen) =~= root_views(a));
    assert(b.map_values(seen) =~= root_views(b));
}

/// One of the parts of the path, as slashes part it, is the name.
pub open spec fn has_part(path: Seq<char>, name: Seq<char>) -> bool {
    exists|a: Seq<char>, b: Seq<char>| #[trigger] is_cut_off(path, '/', a, name, b)
}

/// A directory is left out exactly where one of its parts is the name of a
/// generated or vendored tree: part of a longer name it does not count.
pub proof fn generated_trees_are_left_out(dir: Seq<char>)
    ensures
        ignored_dir(dir) <==> has_part(dir, "node_modules"@) || has_part(dir, "vendor"@) || has_part(dir, "target"@) || has_part(dir, "dist"@) || has_part(dir, "build"@),
{
    assert forall|name: Seq<char>| has_part(dir, name) <==> exists|i: int| 0 <= i < split(dir, '/').len() && #[trigger] split(dir, '/')[i] == name by {
        if has_part(dir, name) {
            let (a, b) = choose|a: Seq<char>, b: Seq<char>| #[trigger] is_cut_off(dir, '/', a, name, b);
            what_is_cut_off_is_a_piece(dir, '/', a, name, b);
            assert(split(dir, '/')[separators(a, '/') as int] == name);
        }
        if exists|i: int| 0 <= i < split(dir, '/').len() && #[trigger] split(dir, '/')[i] == name {
            let i = choose|i: int| 0 <= i < split(dir, '/').len() && #[trigger] split(dir, '/')[i] == name;
            let (a, b) = pieces_are_cut_off(dir, '/', i);
            assert(is_cut_off(dir, '/', a, name, b));
        }
    }
    if ignored_dir(dir) {
        let i = choose|i: int| 0 <= i < split(dir, '/').len() && ignored_name(#[trigger] split(dir, '/')[i]);
        assert(has_part(dir, split(dir, '/')[i]));
    }
    if has_part(dir, "node_modules"@) {
        let i = choose|i: int| 0 <= i < split(dir, '/').len() && #[trigger] split(dir, '/')[i] == "node_modules"@;
        assert(ignored_name(split(dir, '/')[i]));
    }
    if has_part(dir, "vendor"@) {
        let i = choose|i: int| 0 <= i < split(dir, '/').len() && #[trigger] split(dir, '/')[i] == "vendor"@;
        assert(ignored_name(split(dir, '/')[i]));
    }
    if has_part(dir, "target"@) {
        let i = choose|i: int| 0 <= i < split(dir, '/').len() && #[trigger] split(dir, '/')[i] == "target"@;
        assert(ignored_name(split(dir, '/')[i]));
    }
    if has_part(dir, "dist"@) {
        let i = choose|i: int| 0 <= i < split(dir, '/').len() && #[trigger] split(dir, '/')[i] == "dist"@;
        assert(ignored_name(split(dir, '/')[i]));
    }
    if has_part(dir, "build"@) {
        let i = choose|i: int| 0 <= i < split(dir, '/').len() && #[trigger] split(dir, '/')[i] == "build"@;
        assert(ignored_name(split(dir, '/')[i]));
    }
}

/// A file is the manifest of its directory exactly where it has the name of
/// such a manifest and does not lie in a generated or vendored tree; slashes
/// part its path whichever way they lean.
pub proof fn manifests_are_told_by_their_names(f: ScannedFile, dir: Seq<char>, kind: ManifestKind)
    ensures
        manifest_in(f) == Some((dir, kind)) <==> {
            &&& f.file_name is Some
            &&& f.file_name->0@ == manifest_file(kind)
            &&& is_dir_of(dir, slashed(f.path@))
            &&& !ignored_dir(dir)
        },
        slashed(f.path@).len() == f.path@.len(),
        forall|k: int| 0 <= k < f.path@.len() ==> #[trigger] slashed(f.path@)[k] == if f.path@[k] == '\\' {
            '/'
        } else {
            f.path@[k]
        },
{
    lemma_dir(slashed(f.path@), dir);
    reveal_strlit("Cargo.toml");
    reveal_strlit("package.json");
    reveal_strlit("pyproject.toml");
    reveal_strlit("go.mod");
    if let Some(name) = f.file_name {
        let (a, b, c, d) = ("Cargo.toml"@, "package.json"@, "pyproject.toml"@, "go.mod"@);
        assert(a.len() == 10 && b.len() == 12 && c.len() == 14 && d.len() == 6);
        assert(kind_named(name@) == Some(kind) <==> name@ == manifest_file(kind));
    }
}

/// One of the files stands at the path, in the language.
pub open spec fn lists_source(files: Seq<SourceFile>, path: Seq<char>, absolute: Seq<char>, language: Language) -> bool {
    exists|k: int| 0 <= k < files.len() && (#[trigger] files[k]).relative_path@ == path && files[k].absolute_path@ == absolute && files[k].language == language
}

proof fn lemma_sources(found: Seq<ScannedFile>, n: nat, t: (Seq<char>, Seq<char>, Language))
    requires
        n <= found.len(),
    ensures
        sources_in(found, n).contains(t) <==> exists|i: int| {
            &&& 0 <= i < n
            &&& (#[trigger] found[i]).language == Some(t.2)
            &&& t.0 == slashed(found[i].path@)
            &&& t.1 == found[i].absolute_path@
        },
    decreases n,
{
    if n > 0 {
        let (rest, all) = (sources_in(found, (n - 1) as nat), sources_in(found, n));
        lemma_sources(found, (n - 1) as nat, t);
        if rest.contains(t) {
            let x = choose|x: int| 0 <= x < rest.len() && rest[x] == t;
            assert(all[x] == t);
        }
        if all.contains(t) {
            let x = choose|x: int| 0 <= x < all.len() && all[x] == t;
            if x < rest.len() {
                assert(rest[x] == t);
                assert(rest.contains(t));
            } else {
                assert(found[n - 1].language == Some(t.2));
            }
        }
        if found[n - 1].language is Some {
            assert(all[rest.len() as int] == all.last());
        }
    }
}

/// A scan lists every file in a language that it knows, and no other, by path.
pub proof fn a_scan_lists_the_sources(found: Seq<ScannedFile>, files: Seq<SourceFile>, path: Seq<char>, absolute: Seq<char>, language: Language)
    requires
        are_files_of(found, files),
        files.len() <= usize::MAX,
    ensures
        lists_source(files, path, absolute, language) <==> exists|i: int| {
            &&& 0 <= i < found.len()
            &&& (#[trigger] found[i]).language == Some(language)
            &&& path == slashed(found[i].path@)
            &&& absolute == found[i].absolute_path@
        },
        forall|k: int, l: int| 0 <= k < l < files.len() ==> lex_lt((#[trigger] files[k]).relative_path@, (#[trigger] files[l]).relative_path@) || files[k].relative_path@ == files[l].relative_path@,
{
    let items = choose|items: Seq<SourceFile>| source_views(items) == sources_in(found, found.len()) && #[trigger] sorted_by(items, path_keys(items), files);
    let keys = path_keys(items);
    let t = (path, absolute, language);
    lemma_sources(found, found.len(), t);
    lemma_sorting_keeps(items, keys, files);
    assert(lists_source(files, path, absolute, language) <==> source_views(items).contains(t)) by {
        if lists_source(files, path, absolute, language) {
            let k = choose|k: int| 0 <= k < files.len() && (#[trigger] files[k]).relative_path@ == path && files[k].absolute_path@ == absolute && files[k].language == language;
            assert(files.contains(files[k]));
            let j = choose|j: int| 0 <= j < items.len() && items[j] == files[k];
            assert(source_views(items)[j] == t);
        }
        if source_views(items).contains(t) {
            let j = choose|j: int| 0 <= j < items.len() && source_views(items)[j] == t;
            assert(items.contains(items[j]));
            assert(files.contains(items[j]));
            let k = choose|k: int| 0 <= k < files.len() && files[k] == items[j];
            assert(files[k].relative_path@ == path);
        }
    }
    let order = choose|order: Seq<usize>| #[trigger] is_sort_order(keys, order) && files == order.map_values(|k: usize| items[k as int]);
    assert forall|k: int, l: int| 0 <= k < l < files.len() implies lex_lt((#[trigger] files[k]).relative_path@, (#[trigger] files[l]).relative_path@) || files[k].relative_path@
        == files[l].relative_path@ by {
        assert(goes_before(keys, order[k] as int, order[l] as int));
    }
}

proof fn lemma_manifests(found: Seq<ScannedFile>, n: nat, t: (Seq<char>, ManifestKind))
    requires
        n <= found.len(),
    ensures
        manifests_in(found, n).contains(t) <==> exists|i: int| 0 <= i < n && manifest_in(#[trigger] found[i]) == Some(t),
    decreases n,
{
    if n > 0 {
        let (rest, all) = (manifests_in(found, (n - 1) as nat), manifests_in(found, n));
        lemma_manifests(found, (n - 1) as nat, t);
        if rest.contains(t) {
            let x = choose|x: int| 0 <= x < rest.len() && rest[x] == t;
            assert(all[x] == t);
        }
        if all.contains(t) {
            let x = choose|x: int| 0 <= x < all.len() && all[x] == t;
            if x < rest.len() {
                assert(rest[x] == t);
                assert(rest.contains(t));
            } else {
                assert(manifest_in(found[n - 1]) == Some(t));
            }
        }
        if manifest_in(found[n - 1]) is Some {
            assert(all[rest.len() as int] == all.last());
        }
    }
}

/// A scan finds a package for every manifest and for the one at the root, and
/// for nothing else, by directory and, in one directory, Cargo before npm
/// before Python before Go.
pub proof fn a_scan_finds_the_packages(found: Seq<ScannedFile>, own: Option<ManifestKind>, packages: Seq<PackageRoot>, dir: Seq<char>, kind: ManifestKind)
    requires
        are_packages_of(found, own, packages),
        packages.len() <= usize::MAX,
    ensures
        root_views(packages).contains((dir, kind)) <==> (dir == ""@ && own == Some(kind)) || exists|i: int| 0 <= i < found.len() && manifest_in(#[trigger] found[i]) == Some((dir, kind)),
        forall|k: int, l: int| 0 <= k < l < packages.len() ==> {
            let (a, b) = (#[trigger] packages[k], #[trigger] packages[l]);
            &&& lex_lt(a.relative_dir@, b.relative_dir@) || a.relative_dir@ == b.relative_dir@
            &&& a.relative_dir@ == b.relative_dir@ && b.manifest is Cargo ==> a.manifest is Cargo
            &&& a.relative_dir@ == b.relative_dir@ && b.manifest is Npm ==> a.manifest is Cargo || a.manifest is Npm
            &&& a.relative_dir@ == b.relative_dir@ && a.manifest is GoModule ==> b.manifest is GoModule
        },
{
    let items = choose|items: Seq<PackageRoot>| root_views(items) == all_manifests(found, own) && #[trigger] sorted_by(items, root_keys(items), packages);
    let keys = root_keys(items);
    let t = (dir, kind);
    let listed = manifests_in(found, found.len());
    lemma_manifests(found, found.len(), t);
    lemma_sorting_keeps(items, keys, packages);
    assert(all_manifests(found, own).contains(t) <==> listed.contains(t) || (dir == ""@ && own == Some(kind))) by {
        if let Some(k) = own {
            if !listed.contains((""@, k)) {
                let all = listed.push((""@, k));
                if listed.contains(t) {
                    let x = choose|x: int| 0 <= x < listed.len() && listed[x] == t;
                    assert(all[x] == t);
                }
                assert(all[listed.len() as int] == (""@, k));
                if all.contains(t) {
                    let x = choose|x: int| 0 <= x < all.len() && all[x] == t;
                    if x < listed.len() {
                        assert(listed[x] == t);
                    }
                }
            }
        }
    }
    assert(root_views(packages).contains(t) <==> root_views(items).contains(t)) by {
        if root_views(packages).contains(t) {
            let k = choose|k: int| 0 <= k < packages.len() && root_views(packages)[k] == t;
            assert(packages.contains(packages[k]));
            let j = choose|j: int| 0 <= j < items.len() && items[j] == packages[k];
            assert(root_views(items)[j] == t);
        }
        if root_views(items).contains(t) {
            let j = choose|j: int| 0 <= j < items.len() && root_views(items)[j] == t;
            assert(items.contains(items[j]));
            assert(packages.contains(items[j]));
            let k = choose|k: int| 0 <= k < packages.len() && packages[k] == items[j];
            assert(root_views(packages)[k] == t);
        }
    }
    let order = choose|order: Seq<usize>| #[trigger] is_sort_order(keys, order) && packages == order.map_values(|k: usize| items[k as int]);
    assert forall|k: int, l: int| 0 <= k < l < packages.len() implies {
        let (a, b) = (#[trigger] packages[k], #[trigger] packages[l]);
        &&& lex_lt(a.relative_dir@, b.relative_dir@) || a.relative_dir@ == b.relative_dir@
        &&& a.relative_dir@ == b.relative_dir@ && b.manifest is Cargo ==> a.manifest is Cargo
        &&& a.relative_dir@ == b.relative_dir@ && b.manifest is Npm ==> a.manifest is Cargo || a.manifest is Npm
        &&& a.relative_dir@ == b.relative_dir@ && a.manifest is GoModule ==> b.manifest is GoModule
    } by {
        assert(goes_before(keys, order[k] as int, order[l] as int));
        crate::text::lemma_lex_irreflexive(packages[k].relative_dir@);
    }
}

/// Of several manifests at the root the one counts that comes first among the
/// packages of one directory; without any there is none.
pub proof fn the_first_manifest_at_the_root_counts(at_root: RootManifests, kind: ManifestKind)
    ensures
        ({
            let found = first_kind(at_root.cargo, at_root.npm, at_root.pyproject, at_root.gomod);
            let stands = |k: ManifestKind| match k {
                ManifestKind::Cargo => at_root.cargo,
                ManifestKind::Npm => at_root.npm,
                ManifestKind::PyProject => at_root.pyproject,
                ManifestKind::GoModule => at_root.gomod,
            };
            &&& found is Some ==> stands(found->0) && (stands(kind) ==> ordinal(found->0) <= ordinal(kind))
            &&& found is None ==> !stands(kind)
        }),
{
}

}
