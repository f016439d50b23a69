//! Whether two written bundles hold the same.

use vstd::prelude::*;
use vstd::slice::slice_to_vec;
use vstd::string::StringSliceAdditionalSpecFns;
use vstd::utf8::{decode_utf8, encode_utf8, valid_utf8};
use crate::bundle::{root_entries, root_index, OKF_SPEC_VERSION};
use crate::model::Concept;
use crate::naming::replace_char;
use crate::naming::replaced;
use crate::order::{sorted_texts, KeyIndex};
use crate::order::{gather, last_of, lemma_gather_holds, lemma_last_of, str_views, strictly_sorted};
use crate::render::framed;
use crate::source::check_utf8;
use crate::text::{has_prefix, join_texts, lines_of, same, split_text};
use crate::text::{begins_with, join, lemma_split_nonempty, lines, split, texts};
use crate::uri::text_of_bytes;

verus! {

/// A file below a bundle's directory.
#[derive(Debug)]
pub struct StoredFile {
    pub path: String,
    pub content: Vec<u8>,
}

/// The line tells the revision of the source.
pub open spec fn tells_revision(line: Seq<char>) -> bool {
    begins_with(line, "source_revision:"@)
}

/// The lines that do not tell the revision.
pub open spec fn kept(ls: Seq<Seq<char>>) -> Seq<Seq<char>>
    decreases ls.len(),
{
    if ls.len() == 0 {
        Seq::empty()
    } else if tells_revision(ls.last()) {
        kept(ls.drop_last())
    } else {
        kept(ls.drop_last()).push(ls.last())
    }
}

/// The text without the revision, and without the end of its last line.
pub open spec fn without_revision(s: Seq<char>) -> Seq<char> {
    join(kept(lines(s)), "\n"@)
}

/// The file without the revision; one that is no text stays as it is.
pub open spec fn stripped(content: Seq<u8>) -> Seq<u8> {
    if valid_utf8(content) {
        encode_utf8(without_revision(decode_utf8(content)))
    } else {
        content
    }
}

/// The file without the line that tells the revision of the source.
pub fn strip_source_revision_line(content: &[u8]) -> (r: Vec<u8>)
    ensures
        r@ == stripped(content@),
{
    if check_utf8(content).is_some() {
        return slice_to_vec(content);
    }
    let text = text_of_bytes(content);
    let out = without_revision_lines(&lines_of(text.as_str()));
    slice_to_vec(out.as_str().as_bytes())
}

/// The lines that do not tell the revision, with line ends between them.
fn without_revision_lines(all: &Vec<String>) -> (r: String)
    ensures
        r@ == join(kept(texts(all@)), "\n"@),
{
    let mut left: Vec<String> = Vec::new();
    for i in 0..all.len()
        invariant
            texts(left@) == kept(texts(all@).take(i as int)),
    {
        let ghost before = texts(left@);
        proof {
            let upto = texts(all@).take(i + 1);
            assert(upto.drop_last() =~= texts(all@).take(i as int));
            assert(upto.last() == all@[i as int]@);
        }
        if !has_prefix(all[i].as_str(), "source_revision:") {
            left.push(all[i].clone());
            assert(texts(left@) =~= before.push(all@[i as int]@));
        }
    }
    assert(texts(all@).take(all@.len() as int) =~= texts(all@));
    join_texts(&left, "\n")
}

/// The file without the lines that tell the revision, and otherwise byte for
/// byte; one that is no text stays as it is.
pub open spec fn unrevised(content: Seq<u8>) -> Seq<u8> {
    if valid_utf8(content) {
        encode_utf8(join(kept(split(decode_utf8(content), '\n')), "\n"@))
    } else {
        content
    }
}

/// The file without the lines that tell the revision, and otherwise byte for
/// byte.
fn unrevised_file(content: Vec<u8>) -> (r: Vec<u8>)
    ensures
        r@ == unrevised(content@),
{
    if check_utf8(content.as_slice()).is_some() {
        return content;
    }
    let text = text_of_bytes(content.as_slice());
    let out = without_revision_lines(&split_text(text.as_str(), '\n'));
    slice_to_vec(out.as_str().as_bytes())
}

/// The file at this path, as it counts in a comparison: slashes separate the
/// parts of the path, and the root's index comes without the revision.
/// Everything else counts byte for byte.
pub open spec fn compared(path: Seq<char>, content: Seq<u8>) -> (Seq<char>, Seq<u8>) {
    let at = replaced(path, '\\', '/');
    (at, if at == "index.md"@ {
        unrevised(content)
    } else {
        content
    })
}

/// Takes up a file for a comparison.
pub fn collect_file(path: &str, content: Vec<u8>) -> (r: StoredFile)
    ensures
        (r.path@, r.content@) == compared(path@, content@),
{
    let path = replace_char(path, '\\', '/');
    let content = if same(path.as_str(), "index.md") {
        unrevised_file(content)
    } else {
        content
    };
    StoredFile { path, content }
}

/// Where the files stand.
pub open spec fn paths(files: Seq<StoredFile>) -> Seq<Seq<char>> {
    files.map_values(|f: StoredFile| f.path@)
}

/// What stands at this path.
pub open spec fn content_at(files: Seq<StoredFile>, path: Seq<char>) -> Option<Seq<u8>> {
    match last_of(paths(files), path) {
        Some(i) => Some(files[i].content@),
        None => None,
    }
}

/// How the two sides differ at one path.
pub open spec fn difference(a: Option<Seq<u8>>, b: Option<Seq<u8>>, path: Seq<char>, label_a: Seq<char>, label_b: Seq<char>) -> Seq<Seq<char>> {
    match (a, b) {
        (Some(x), Some(y)) => if x == y {
            Seq::empty()
        } else {
            seq![path + " (content differs between "@ + label_a + " and "@ + label_b + ")"@]
        },
        (Some(_), None) => seq![path + " (present in "@ + label_a + " only)"@],
        (None, Some(_)) => seq![path + " (present in "@ + label_b + " only)"@],
        (None, None) => Seq::empty(),
    }
}

/// How the two sides differ at each of the paths.
pub open spec fn differences(
    a: Seq<StoredFile>,
    b: Seq<StoredFile>,
    label_a: Seq<char>,
    label_b: Seq<char>,
    at: Seq<Seq<char>>,
) -> spec_fn(int) -> Seq<Seq<char>> {
    |k: int| difference(content_at(a, at[k]), content_at(b, at[k]), at[k], label_a, label_b)
}

/// The paths of both sides, in order, each once.
pub open spec fn all_paths(a: Seq<StoredFile>, b: Seq<StoredFile>, at: Seq<Seq<char>>) -> bool {
    &&& strictly_sorted(at)
    &&& forall|t: Seq<char>| #[trigger] at.contains(t) <==> paths(a).contains(t) || paths(b).contains(t)
}

/// `r` tells how the two sides differ, path by path.
pub open spec fn is_comparison(a: Seq<StoredFile>, b: Seq<StoredFile>, label_a: Seq<char>, label_b: Seq<char>, r: Seq<Seq<char>>) -> bool {
    exists|at: Seq<Seq<char>>| #[trigger] all_paths(a, b, at) && r == gather(differences(a, b, label_a, label_b, at), at.len())
}

fn same_bytes(a: &Vec<u8>, b: &Vec<u8>) -> (r: bool)
    ensures
        r == (a@ == b@),
{
    if a.len() != b.len() {
        return false;
    }
    for i in 0..a.len()
        invariant
            a@.len() == b@.len(),
            forall|k: int| 0 <= k < i ==> a@[k] == b@[k],
    {
        if a[i] != b[i] {
            return false;
        }
    }
    assert(a@ =~= b@);
    true
}

fn index_of<'a>(files: &'a Vec<StoredFile>, all: &mut Vec<&'a str>) -> (r: KeyIndex<'a>)
    ensures
        r.wf(),
        r@ == paths(files@),
        str_views(final(all)@) == str_views(old(all)@) + paths(files@),
{
    let mut keys: Vec<&'a str> = Vec::new();
    let ghost first = str_views(all@);
    assert(str_views(all@) =~= first + paths(files@).take(0));
    for i in 0..files.len()
        invariant
            str_views(all@) == first + paths(files@).take(i as int),
            str_views(keys@) == paths(files@).take(i as int),
    {
        let ghost (ka, aa) = (str_views(keys@), str_views(all@));
        keys.push(files[i].path.as_str());
        all.push(files[i].path.as_str());
        assert(str_views(keys@) =~= ka.push(files@[i as int].path@));
        assert(str_views(all@) =~= aa.push(files@[i as int].path@));
        assert(paths(files@).take(i + 1) =~= paths(files@).take(i as int).push(files@[i as int].path@));
        assert(str_views(all@) =~= first + paths(files@).take(i + 1));
    }
    assert(paths(files@).take(files@.len() as int) =~= paths(files@));
    KeyIndex::new(keys)
}

/// How two written bundles differ: one line for each path where they do.
pub fn diff_dirs(a: &Vec<StoredFile>, b: &Vec<StoredFile>, label_a: &str, label_b: &str) -> (r: Vec<String>)
    ensures
        is_comparison(a@, b@, label_a@, label_b@, texts(r@)),
{
    let mut all: Vec<&str> = Vec::new();
    let a_index = index_of(a, &mut all);
    let b_index = index_of(b, &mut all);
    assert(str_views(all@) =~= paths(a@) + paths(b@));
    let at = sorted_texts(&all);
    let ghost av = str_views(at@);
    proof {
        let (pa, pb) = (paths(a@), paths(b@));
        assert forall|t: Seq<char>| #[trigger] av.contains(t) <==> pa.contains(t) || pb.contains(t) by {
            let pab = pa + pb;
            if pab.contains(t) {
                let k = choose|k: int| 0 <= k < pab.len() && pab[k] == t;
                if k < pa.len() {
                    assert(pa[k] == t);
                } else {
                    assert(pb[k - pa.len()] == t);
                }
            }
            if pa.contains(t) {
                let k = choose|k: int| 0 <= k < pa.len() && pa[k] == t;
                assert(pab[k] == t);
            }
            if pb.contains(t) {
                let k = choose|k: int| 0 <= k < pb.len() && pb[k] == t;
                assert(pab[pa.len() + k] == t);
            }
        }
        assert(all_paths(a@, b@, av));
    }
    let ghost f = differences(a@, b@, label_a@, label_b@, av);
    let mut out: Vec<String> = Vec::new();
    assert(texts(out@) =~= gather(f, 0));
    for i in 0..at.len()
        invariant
            a_index.wf(),
            a_index@ == paths(a@),
            b_index.wf(),
            b_index@ == paths(b@),
            av == str_views(at@),
            f == differences(a@, b@, label_a@, label_b@, av),
            texts(out@) == gather(f, i as nat),
    {
        let path = at[i];
        let ghost before = texts(out@);
        assert(path@ == av[i as int]);
        match (a_index.find(path), b_index.find(path)) {
            (Some(x), Some(y)) => {
                if !same_bytes(&a[x].content, &b[y].content) {
                    let mut line = path.to_owned();
                    line.append(" (content differs between ");
                    line.append(label_a);
                    line.append(" and ");
                    line.append(label_b);
                    line.append(")");
                    let ghost l = line@;
                    out.push(line);
                    assert(texts(out@) =~= before.push(l));
                }
            },
            (Some(_), None) => {
                let mut line = path.to_owned();
                line.append(" (present in ");
                line.append(label_a);
                line.append(" only)");
                let ghost l = line@;
                out.push(line);
                assert(texts(out@) =~= before.push(l));
            },
            (None, Some(_)) => {
                let mut line = path.to_owned();
                line.append(" (present in ");
                line.append(label_b);
                line.append(" only)");
                let ghost l = line@;
                out.push(line);
                assert(texts(out@) =~= before.push(l));
            },
            (None, None) => {},
        }
        assert(texts(out@) =~= before + f(i as int));
    }
    out
}

proof fn lemma_gather_empty<V>(f: spec_fn(int) -> Seq<V>, n: nat)
    ensures
        gather(f, n).len() == 0 <==> (forall|k: int| 0 <= k < n ==> (#[trigger] f(k)).len() == 0),
    decreases n,
{
    if n > 0 {
        lemma_gather_empty(f, (n - 1) as nat);
        assert(gather(f, n).len() == gather(f, (n - 1) as nat).len() + f(n - 1).len());
    }
}

/// No line comes out exactly where both sides hold the same files with the
/// same contents.
pub proof fn no_difference_means_the_same(a: Seq<StoredFile>, b: Seq<StoredFile>, label_a: Seq<char>, label_b: Seq<char>, r: Seq<Seq<char>>)
    requires
        is_comparison(a, b, label_a, label_b, r),
    ensures
        r.len() == 0 <==> (forall|path: Seq<char>| #[trigger] content_at(a, path) == content_at(b, path)),
{
    let at = choose|at: Seq<Seq<char>>| #[trigger] all_paths(a, b, at) && r == gather(differences(a, b, label_a, label_b, at), at.len());
    let f = differences(a, b, label_a, label_b, at);
    lemma_gather_empty(f, at.len());
    if r.len() == 0 {
        assert forall|path: Seq<char>| #[trigger] content_at(a, path) == content_at(b, path) by {
            lemma_last_of(paths(a), path);
            lemma_last_of(paths(b), path);
            if at.contains(path) {
                let k = choose|k: int| 0 <= k < at.len() && at[k] == path;
                assert(f(k).len() == 0);
            } else {
                assert(!paths(a).contains(path) && !paths(b).contains(path));
            }
        }
    }
    if forall|path: Seq<char>| #[trigger] content_at(a, path) == content_at(b, path) {
        assert forall|k: int| 0 <= k < at.len() implies (#[trigger] f(k)).len() == 0 by {
            assert(content_at(a, at[k]) == content_at(b, at[k]));
        }
    }
}

proof fn lemma_split_at(a: Seq<char>, b: Seq<char>, sep: char)
    ensures
        split(a.push(sep) + b, sep) == split(a, sep) + split(b, sep),
    decreases b.len(),
{
    let all = a.push(sep) + b;
    lemma_split_nonempty(b, sep);
    if b.len() == 0 {
        assert(all =~= a.push(sep));
        assert(all.drop_last() =~= a);
        assert(split(all, sep) =~= split(a, sep) + split(b, sep));
    } else {
        let rest = b.drop_last();
        lemma_split_at(a, rest, sep);
        lemma_split_nonempty(rest, sep);
        assert(all.drop_last() =~= a.push(sep) + rest);
        assert(split(all, sep) =~= split(a, sep) + split(b, sep));
    }
}

proof fn lemma_split_plain(s: Seq<char>, sep: char)
    requires
        !s.contains(sep),
    ensures
        split(s, sep) == seq![s],
    decreases s.len(),
{
    if s.len() > 0 {
        let rest = s.drop_last();
        assert forall|i: int| 0 <= i < rest.len() implies rest[i] != sep by {
            assert(s[i] == rest[i]);
            assert(s.contains(s[i]));
        }
        lemma_split_plain(rest, sep);
        assert(s.contains(s.last()));
        assert(rest.push(s.last()) =~= s);
        assert(split(s, sep) =~= seq![s]);
    } else {
        assert(s =~= Seq::empty());
    }
}

proof fn lemma_kept_parts(a: Seq<Seq<char>>, b: Seq<Seq<char>>)
    ensures
        kept(a + b) == kept(a) + kept(b),
    decreases b.len(),
{
    if b.len() == 0 {
        assert(a + b =~= a);
        assert(kept(a) + kept(b) =~= kept(a));
    } else {
        lemma_kept_parts(a, b.drop_last());
        assert((a + b).drop_last() =~= a + b.drop_last());
        assert(kept(a + b) =~= kept(a) + kept(b));
    }
}

/// A line that tells the revision does not count, wherever it stands.
proof fn lemma_line_does_not_count(before: Seq<char>, line: Seq<char>, behind: Seq<char>)
    requires
        tells_revision(line),
        !line.contains('\n'),
    ensures
        kept(split(before.push('\n') + (line.push('\n') + behind), '\n')) == kept(split(before.push('\n') + behind, '\n')),
{
    lemma_split_at(before, line.push('\n') + behind, '\n');
    lemma_split_at(before, behind, '\n');
    lemma_split_at(line, behind, '\n');
    lemma_split_plain(line, '\n');
    let (head, tail) = (split(before, '\n'), split(behind, '\n'));
    lemma_kept_parts(head, seq![line] + tail);
    lemma_kept_parts(head, tail);
    lemma_kept_parts(seq![line], tail);
    reveal_with_fuel(kept, 2);
    assert(kept(seq![line]) =~= Seq::<Seq<char>>::empty());
    assert(kept(seq![line]) + kept(tail) =~= kept(tail));
}

proof fn lemma_rejoined(s: Seq<char>, sep: char)
    ensures
        join(split(s, sep), seq![sep]) == s,
    decreases s.len(),
{
    lemma_split_nonempty(s, sep);
    if s.len() > 0 {
        let rest = s.drop_last();
        let parts = split(rest, sep);
        lemma_rejoined(rest, sep);
        lemma_split_nonempty(rest, sep);
        let all = split(s, sep);
        if s.last() == sep {
            assert(all.drop_last() =~= parts);
            assert(join(all, seq![sep]) =~= rest + seq![sep]);
        } else {
            assert(all.drop_last() =~= parts.drop_last());
            assert(join(all, seq![sep]) =~= rest.push(s.last()));
        }
        assert(rest.push(s.last()) =~= s);
    } else {
        assert(s =~= Seq::empty());
    }
}

proof fn lemma_all_kept(ls: Seq<Seq<char>>)
    requires
        forall|i: int| 0 <= i < ls.len() ==> !tells_revision(#[trigger] ls[i]),
    ensures
        kept(ls) == ls,
    decreases ls.len(),
{
    if ls.len() > 0 {
        assert forall|i: int| 0 <= i < ls.drop_last().len() implies !tells_revision(#[trigger] ls.drop_last()[i]) by {
            assert(!tells_revision(ls[i]));
        }
        lemma_all_kept(ls.drop_last());
        assert(!tells_revision(ls[ls.len() - 1]));
        assert(ls.drop_last().push(ls.last()) =~= ls);
    } else {
        assert(ls =~= Seq::empty());
    }
}

/// Only a line that tells the revision is left out of a comparison: a file
/// without one counts byte for byte, its line ends among them.
pub proof fn only_the_revision_is_left_out(path: Seq<char>, content: Seq<u8>)
    requires
        valid_utf8(content) ==> forall|i: int| 0 <= i < split(decode_utf8(content), '\n').len() ==> !tells_revision(#[trigger] split(decode_utf8(content), '\n')[i]),
    ensures
        compared(path, content).1 == content,
{
    if valid_utf8(content) {
        let text = decode_utf8(content);
        lemma_all_kept(split(text, '\n'));
        assert("\n"@ =~= seq!['\n']) by {
            reveal_strlit("\n");
        }
        lemma_rejoined(text, '\n');
        vstd::utf8::decode_utf8_encode_utf8(content);
    }
}

/// A bundle is as fresh at one revision as at another: the root's index counts
/// the same with a revision in it and without one.
pub proof fn a_revision_does_not_count(groups: Seq<(Seq<char>, Seq<Concept>)>, revision: Seq<char>)
    requires
        !revision.contains('\n'),
    ensures
        compared("index.md"@, encode_utf8(root_index(groups, Some(revision)))) == compared("index.md"@, encode_utf8(root_index(groups, None))),
{
    assert(replaced("index.md"@, '\\', '/') =~= "index.md"@) by {
        reveal_strlit("index.md");
    }
    let with = root_index(groups, Some(revision));
    let without = root_index(groups, None);
    vstd::utf8::encode_utf8_decode_utf8(with);
    vstd::utf8::encode_utf8_valid_utf8(with);
    vstd::utf8::encode_utf8_decode_utf8(without);
    vstd::utf8::encode_utf8_valid_utf8(without);
    reveal_strlit("\"\n");
    reveal_strlit("source_revision: \"");
    reveal_strlit("source_revision:");
    let before = "---\nokf_version: \""@ + OKF_SPEC_VERSION@ + seq!['"'];
    let line = "source_revision: \""@ + revision + seq!['"'];
    let behind = "---\n\n# Knowledge Base\n\n"@ + gather(root_entries(groups), groups.len());
    assert(line.take(16) =~= "source_revision:"@);
    assert forall|i: int| 0 <= i < line.len() implies line[i] != '\n' by {
        if 18 <= i < 18 + revision.len() {
            assert(line[i] == revision[i - 18]);
            assert(revision.contains(revision[i - 18]));
        }
    }
    lemma_line_does_not_count(before, line, behind);
    assert(framed("source_revision: \""@, Some(revision), "\"\n"@) =~= line.push('\n'));
    assert(with =~= before.push('\n') + (line.push('\n') + behind));
    assert(without =~= before.push('\n') + behind);
}

/// The last of the files at the path holds the content.
pub open spec fn holds_at(files: Seq<StoredFile>, path: Seq<char>, content: Seq<u8>) -> bool {
    exists|i: int| 0 <= i < files.len() && (#[trigger] files[i]).path@ == path && files[i].content@ == content && forall|j: int| i < j < files.len() ==> (#[trigger] files[j]).path@ != path
}

/// One of the files is at the path.
pub open spec fn has_path(files: Seq<StoredFile>, path: Seq<char>) -> bool {
    exists|i: int| 0 <= i < files.len() && (#[trigger] files[i]).path@ == path
}

proof fn lemma_content_at(files: Seq<StoredFile>, path: Seq<char>)
    ensures
        match content_at(files, path) {
            Some(c) => has_path(files, path) && holds_at(files, path, c) && forall|d: Seq<u8>| #[trigger] holds_at(files, path, d) ==> d == c,
            None => !has_path(files, path) && forall|d: Seq<u8>| !#[trigger] holds_at(files, path, d),
        },
        has_path(files, path) <==> paths(files).contains(path),
{
    let ps = paths(files);
    lemma_last_of(ps, path);
    if has_path(files, path) {
        let i = choose|i: int| 0 <= i < files.len() && (#[trigger] files[i]).path@ == path;
        assert(ps[i] == path);
    }
    match last_of(ps, path) {
        Some(i) => {
            assert(ps[i] == files[i].path@);
            assert forall|j: int| i < j < files.len() implies (#[trigger] files[j]).path@ != path by {
                assert(ps[j] != path);
            }
            assert forall|d: Seq<u8>| #[trigger] holds_at(files, path, d) implies d == files[i].content@ by {
                let k = choose|k: int| 0 <= k < files.len() && (#[trigger] files[k]).path@ == path && files[k].content@ == d && forall|j: int| k < j < files.len() ==> (#[trigger] files[j]).path@ != path;
                if k < i {
                    assert(files[i].path@ != path);
                }
                if i < k {
                    assert(files[k].path@ != path);
                }
            }
        },
        None => {},
    }
}

/// Every path where the sides differ gets its line, which says on which side
/// it is or that the contents differ, and there are no other lines.
pub proof fn every_difference_is_told(a: Seq<StoredFile>, b: Seq<StoredFile>, label_a: Seq<char>, label_b: Seq<char>, r: Seq<Seq<char>>)
    requires
        is_comparison(a, b, label_a, label_b, r),
    ensures
        forall|line: Seq<char>| #[trigger] r.contains(line) <==> exists|path: Seq<char>| {
            ||| #[trigger] has_path(a, path) && !has_path(b, path) && line == path + " (present in "@ + label_a + " only)"@
            ||| !has_path(a, path) && #[trigger] has_path(b, path) && line == path + " (present in "@ + label_b + " only)"@
            ||| differs_at(a, b, path) && line == path + " (content differs between "@ + label_a + " and "@ + label_b + ")"@
        },
{
    let at = choose|at: Seq<Seq<char>>| #[trigger] all_paths(a, b, at) && r == gather(differences(a, b, label_a, label_b, at), at.len());
    let f = differences(a, b, label_a, label_b, at);
    assert forall|line: Seq<char>| #[trigger] r.contains(line) <==> exists|path: Seq<char>| {
        ||| #[trigger] has_path(a, path) && !has_path(b, path) && line == path + " (present in "@ + label_a + " only)"@
        ||| !has_path(a, path) && #[trigger] has_path(b, path) && line == path + " (present in "@ + label_b + " only)"@
        ||| differs_at(a, b, path) && line == path + " (content differs between "@ + label_a + " and "@ + label_b + ")"@
    } by {
        lemma_gather_holds(f, at.len(), line);
        if r.contains(line) {
            let k = choose|k: int| 0 <= k < at.len() && (#[trigger] f(k)).contains(line);
            let path = at[k];
            lemma_content_at(a, path);
            lemma_content_at(b, path);
            lemma_differs_at(a, b, path);
            assert(f(k) == difference(content_at(a, path), content_at(b, path), path, label_a, label_b));
            assert(f(k)[0] == line);
            assert(has_path(a, path) || has_path(b, path));
        }
        if exists|path: Seq<char>| {
            ||| #[trigger] has_path(a, path) && !has_path(b, path) && line == path + " (present in "@ + label_a + " only)"@
            ||| !has_path(a, path) && #[trigger] has_path(b, path) && line == path + " (present in "@ + label_b + " only)"@
            ||| differs_at(a, b, path) && line == path + " (content differs between "@ + label_a + " and "@ + label_b + ")"@
        } {
            let path = choose|path: Seq<char>| {
                ||| #[trigger] has_path(a, path) && !has_path(b, path) && line == path + " (present in "@ + label_a + " only)"@
                ||| !has_path(a, path) && #[trigger] has_path(b, path) && line == path + " (present in "@ + label_b + " only)"@
                ||| differs_at(a, b, path) && line == path + " (content differs between "@ + label_a + " and "@ + label_b + ")"@
            };
            lemma_content_at(a, path);
            lemma_content_at(b, path);
            lemma_differs_at(a, b, path);
            assert(at.contains(path));
            let k = choose|k: int| 0 <= k < at.len() && at[k] == path;
            assert(f(k) == difference(content_at(a, path), content_at(b, path), path, label_a, label_b));
            assert(f(k)[0] == line);
            assert(f(k).contains(line));
        }
    }
}

/// The sides hold different contents at the path.
pub open spec fn differs_at(a: Seq<StoredFile>, b: Seq<StoredFile>, path: Seq<char>) -> bool {
    exists|x: Seq<u8>, y: Seq<u8>| x != y && #[trigger] holds_at(a, path, x) && #[trigger] holds_at(b, path, y)
}

proof fn lemma_differs_at(a: Seq<StoredFile>, b: Seq<StoredFile>, path: Seq<char>)
    ensures
        differs_at(a, b, path) <==> content_at(a, path) is Some && content_at(b, path) is Some && content_at(a, path) != content_at(b, path),
{
    lemma_content_at(a, path);
    lemma_content_at(b, path);
    if content_at(a, path) is Some && content_at(b, path) is Some && content_at(a, path) != content_at(b, path) {
        assert(holds_at(a, path, content_at(a, path)->0) && holds_at(b, path, content_at(b, path)->0));
    }
}

/// The line says which revision of the source it is about.
pub open spec fn is_revision_line(line: Seq<char>) -> bool {
    exists|rest: Seq<char>| line == #[trigger] ("source_revision:"@ + rest)
}

/// Of the lines of a text those that tell the revision are left out, and all
/// others stay, in their order.
pub proof fn only_revision_lines_are_left_out(ls: Seq<Seq<char>>)
    ensures
        kept(ls) == ls.filter(|line: Seq<char>| !is_revision_line(line)),
    decreases ls.len(),
{
    reveal(Seq::filter);
    if ls.len() > 0 {
        only_revision_lines_are_left_out(ls.drop_last());
        let (line, word) = (ls.last(), "source_revision:"@);
        assert(tells_revision(line) <==> is_revision_line(line)) by {
            if tells_revision(line) {
                assert(line =~= word + line.skip(word.len() as int));
            }
            if is_revision_line(line) {
                let rest = choose|rest: Seq<char>| line == #[trigger] (word + rest);
                assert(line.take(word.len() as int) =~= word);
            }
        }
    }
}

}
