//! The section on the bundle in the files that coding assistants read.

use vstd::prelude::*;
use crate::text::{chars_of, has_suffix, matches_at, string_of};
use crate::text::{finishes_with, is_first_at, stands_at};

use crate::pages::{lemma_shows_itself, lemma_shows_within, shows};

verus! {

/// What the section begins with.
pub const BEGIN_MARKER: &'static str = "<!-- okf-rs:begin -->";

/// What the section ends with.
pub const END_MARKER: &'static str = "<!-- okf-rs:end -->";

/// The text of the section up to where the bundle is named first.
pub const ABOUT: &'static str = "\n## Knowledge base\n\nThis project's structural knowledge \u{2014} modules, types, functions, and their call graph \u{2014} is available as an [OKF](https://cloud.google.com/blog/products/data-analytics/how-the-open-knowledge-format-can-improve-data-sharing) bundle in `";

/// The text between the two places where the bundle is named.
pub const BROWSE: &'static str = "/`. It's plain markdown with YAML frontmatter; browse `";

/// The text behind the second place.
pub const COMMANDS: &'static str = "/index.md` for an overview, or query it with the CLI:\n\n- `okf-rs search <query>` \u{2014} find a symbol, type, or module by name or tag\n- `okf-rs graph callers <id>` / `okf-rs graph callees <id>` \u{2014} trace the call graph from a concept id (ids are shown by `search`)\n- `okf-rs graph api` \u{2014} list the public API surface\n- `okf-rs graph cycles` \u{2014} list call-graph cycles\n\nRegenerate the bundle after code changes with `okf-rs generate`.\n";

/// The section that tells where the bundle is.
pub open spec fn overview(output: Seq<char>) -> Seq<char> {
    BEGIN_MARKER@ + ABOUT@ + output + BROWSE@ + output + COMMANDS@ + END_MARKER@ + "\n"@
}

/// The section that only refers to another file.
pub open spec fn reference() -> Seq<char> {
    BEGIN_MARKER@ + "\n@AGENTS.md\n"@ + END_MARKER@ + "\n"@
}

/// The section that tells where the bundle is.
pub fn render_section(bundle_output: &str) -> (r: String)
    ensures
        r@ == overview(bundle_output@),
{
    let mut out = BEGIN_MARKER.to_owned();
    out.append(ABOUT);
    out.append(bundle_output);
    out.append(BROWSE);
    out.append(bundle_output);
    out.append(COMMANDS);
    out.append(END_MARKER);
    out.append("\n");
    out
}

/// The section that only refers to another file.
pub fn render_import_section() -> (r: String)
    ensures
        r@ == reference(),
{
    let mut out = BEGIN_MARKER.to_owned();
    out.append("\n@AGENTS.md\n");
    out.append(END_MARKER);
    out.append("\n");
    out
}

/// The text without a line end at its beginning.
pub open spec fn without_line_end(s: Seq<char>) -> Seq<char> {
    if s.len() > 0 && s[0] == '\n' {
        s.skip(1)
    } else {
        s
    }
}

/// The text with a line end at its end.
pub open spec fn ended(s: Seq<char>) -> Seq<char> {
    if finishes_with(s, "\n"@) {
        s
    } else {
        s + "\n"@
    }
}

/// The text with an empty line at its end.
pub open spec fn padded(s: Seq<char>) -> Seq<char> {
    if finishes_with(ended(s), "\n\n"@) {
        ended(s)
    } else {
        ended(s) + "\n"@
    }
}

/// A section stands in the file from `a` to the marker at `b`: the first
/// marker for an end with one for a beginning before it, and the last one for
/// a beginning before that.
pub open spec fn stands_between(content: Seq<char>, a: int, b: int) -> bool {
    &&& a < b
    &&& stands_at(content, BEGIN_MARKER@, a)
    &&& stands_at(content, END_MARKER@, b)
    &&& forall|i: int, j: int| 0 <= i < j < b && #[trigger] stands_at(content, BEGIN_MARKER@, i) ==> !#[trigger] stands_at(content, END_MARKER@, j)
    &&& forall|i: int| a < i < b ==> !#[trigger] stands_at(content, BEGIN_MARKER@, i)
}

/// The file has a section: it begins somewhere, and ends somewhere behind
/// that.
pub open spec fn has_section(content: Seq<char>) -> bool {
    exists|i: int, j: int| i < j && #[trigger] stands_at(content, BEGIN_MARKER@, i) && #[trigger] stands_at(content, END_MARKER@, j)
}

/// Where the section begins, and where the marker for its end stands.
pub open spec fn section_in(content: Seq<char>) -> (int, int) {
    choose|at: (int, int)| #[trigger] stands_between(content, at.0, at.1)
}

/// The file with the section: in place of the one that it has, else behind
/// what it holds.
pub open spec fn merged(existing: Option<Seq<char>>, section: Seq<char>) -> Seq<char> {
    match existing {
        None => section,
        Some(content) => if has_section(content) {
            let (a, b) = section_in(content);
            content.take(a) + section + without_line_end(content.skip(b + END_MARKER@.len()))
        } else {
            padded(content) + section
        },
    }
}

/// There is only one place where the section stands.
proof fn lemma_one_place(content: Seq<char>, a: int, b: int)
    requires
        stands_between(content, a, b),
    ensures
        has_section(content),
        section_in(content) == (a, b),
{
    let at = (a, b);
    assert(stands_between(content, at.0, at.1));
    let (c, d) = section_in(content);
    assert(stands_between(content, c, d));
    assert(stands_at(content, BEGIN_MARKER@, a) && stands_at(content, END_MARKER@, b));
    assert(stands_at(content, BEGIN_MARKER@, c) && stands_at(content, END_MARKER@, d));
}

/// Where the section stands.
fn find_section(v: &Vec<char>) -> (r: Option<(usize, usize)>)
    ensures
        match r {
            Some((a, b)) => has_section(v@) && section_in(v@) == (a as int, b as int) && stands_between(v@, a as int, b as int),
            None => !has_section(v@),
        },
{
    let begin = chars_of(BEGIN_MARKER);
    let end = chars_of(END_MARKER);
    proof {
        lemma_markers();
    }
    let mut open: Option<usize> = None;
    for i in 0..v.len()
        invariant
            begin@ == BEGIN_MARKER@,
            end@ == END_MARKER@,
            begin@.len() == 21,
            end@.len() == 19,
            forall|k: int, j: int| 0 <= k < j < i && #[trigger] stands_at(v@, BEGIN_MARKER@, k) ==> !#[trigger] stands_at(v@, END_MARKER@, j),
            match open {
                Some(a) => a < i && stands_at(v@, BEGIN_MARKER@, a as int) && forall|k: int| a < k < i ==> !#[trigger] stands_at(v@, BEGIN_MARKER@, k),
                None => forall|k: int| 0 <= k < i ==> !#[trigger] stands_at(v@, BEGIN_MARKER@, k),
            },
    {
        if matches_at(v, &end, i) {
            if let Some(a) = open {
                proof {
                    lemma_one_place(v@, a as int, i as int);
                }
                return Some((a, i));
            }
        } else if matches_at(v, &begin, i) {
            open = Some(i);
        }
        proof {
            if stands_at(v@, END_MARKER@, i as int) && stands_at(v@, BEGIN_MARKER@, i as int) {
                lemma_brackets();
                assert(v@.subrange(i as int, i + 21)[12] == v@[i + 12]);
                assert(v@.subrange(i as int, i + 19)[12] == v@[i + 12]);
            }
        }
    }
    None
}

/// The file with the section: in place of the one that it has, else behind
/// what it holds. Whatever stands outside of the section is kept.
pub fn merge(existing: Option<&str>, section: &str) -> (r: String)
    ensures
        r@ == merged(match existing {
            Some(e) => Some(e@),
            None => None,
        }, section@),
{
    let content: &str = match existing {
        None => return section.to_owned(),
        Some(e) => e,
    };
    let v = chars_of(content);
    if let Some((a, b)) = find_section(&v) {
        proof {
            lemma_markers();
        }
        let n: usize = v.len();
        assert(stands_at(v@, END_MARKER@, b as int));
        let mut from: usize = b + 19;
        let ghost tail = content@.skip(b + END_MARKER@.len());
        if from < n && v[from] == '\n' {
            assert(tail[0] == v@[from as int]);
            from = from + 1;
        } else {
            assert(tail.len() > 0 ==> tail[0] == v@[from as int]);
        }
        let mut out = string_of(&v, 0, a);
        assert(out@ =~= content@.take(a as int));
        out.append(section);
        let rest = string_of(&v, from, n);
        assert(rest@ =~= without_line_end(tail));
        out.append(rest.as_str());
        return out;
    }
    let mut out = content.to_owned();
    if !has_suffix(out.as_str(), "\n") {
        out.append("\n");
    }
    if !has_suffix(out.as_str(), "\n\n") {
        out.append("\n");
    }
    out.append(section);
    out
}

/// The text is a section: it begins with the marker for the beginning and
/// holds no other, holds the one for the end only where it ends, and has a
/// line end behind that.
pub open spec fn is_section(s: Seq<char>, m: int) -> bool {
    &&& stands_at(s, BEGIN_MARKER@, 0)
    &&& m > 0
    &&& is_first_at(s, END_MARKER@, m)
    &&& forall|i: int| 0 < i < m ==> !#[trigger] stands_at(s, BEGIN_MARKER@, i)
    &&& s.len() == m + END_MARKER@.len() + 1
    &&& s.last() == '\n'
}

proof fn lemma_markers()
    ensures
        BEGIN_MARKER@.len() == 21,
        END_MARKER@.len() == 19,
        forall|i: int| 0 <= i < 21 ==> BEGIN_MARKER@[i] != '\n',
        forall|i: int| 0 <= i < 19 ==> END_MARKER@[i] != '\n',
{
    reveal_strlit("<!-- okf-rs:begin -->");
    reveal_strlit("<!-- okf-rs:end -->");
}

/// A section that takes the place of one, or is put behind a file, is found
/// again where it was put.
proof fn lemma_found_again(pre: Seq<char>, section: Seq<char>, rest: Seq<char>, m: int)
    requires
        is_section(section, m),
        forall|i: int, j: int| 0 <= i < j < pre.len() && #[trigger] stands_at(pre + section + rest, BEGIN_MARKER@, i) ==> !#[trigger] stands_at(pre + section + rest, END_MARKER@, j),
    ensures
        has_section(pre + section + rest),
        section_in(pre + section + rest) == (pre.len() as int, pre.len() + m),
{
    let all = pre + section + rest;
    let a = pre.len() as int;
    lemma_markers();
    assert(all.subrange(a, a + BEGIN_MARKER@.len()) =~= section.subrange(0, BEGIN_MARKER@.len() as int)) by {
        assert(section.len() >= BEGIN_MARKER@.len());
    }
    assert(all.subrange(a + m, a + m + END_MARKER@.len()) =~= section.subrange(m, m + END_MARKER@.len()));
    assert forall|i: int, j: int| 0 <= i < j < a + m && #[trigger] stands_at(all, BEGIN_MARKER@, i) implies !#[trigger] stands_at(all, END_MARKER@, j) by {
        if j >= a && stands_at(all, END_MARKER@, j) {
            assert(section.subrange(j - a, j - a + END_MARKER@.len()) =~= all.subrange(j, j + END_MARKER@.len()));
            assert(stands_at(section, END_MARKER@, j - a));
        }
    }
    assert forall|i: int| a < i < a + m implies !#[trigger] stands_at(all, BEGIN_MARKER@, i) by {
        if stands_at(all, BEGIN_MARKER@, i) {
            lemma_no_begin(section, rest, m, i - a);
            assert((section + rest).subrange(i - a, i - a + 21) =~= all.subrange(i, i + 21));
        }
    }
    lemma_one_place(all, a, a + m);
}

/// No other section begins in one, whatever follows it.
proof fn lemma_no_begin(section: Seq<char>, rest: Seq<char>, m: int, i: int)
    requires
        is_section(section, m),
        0 < i < m,
    ensures
        !stands_at(section + rest, BEGIN_MARKER@, i),
{
    let all = section + rest;
    lemma_markers();
    if stands_at(all, BEGIN_MARKER@, i) {
        if i + 21 <= section.len() {
            assert(section.subrange(i, i + 21) =~= all.subrange(i, i + 21));
            assert(stands_at(section, BEGIN_MARKER@, i));
        } else {
            let k = section.len() - 1;
            assert(all.subrange(i, i + 21)[k - i] == '\n');
        }
    }
}

/// Writing the section a second time changes nothing, whatever the file held
/// before.
pub proof fn writing_twice_changes_nothing(existing: Option<Seq<char>>, section: Seq<char>, m: int)
    requires
        is_section(section, m),
    ensures
        merged(Some(merged(existing, section)), section) == merged(existing, section),
{
    lemma_markers();
    let nothing = Seq::<char>::empty();
    match existing {
        None => {
            assert(nothing + section + nothing =~= section);
            lemma_found_again(nothing, section, nothing, m);
            assert(section.take(0) =~= nothing);
            assert(without_line_end(section.skip(m + END_MARKER@.len())) =~= nothing);
            assert(nothing + section + nothing =~= section);
        },
        Some(content) => if has_section(content) {
            lemma_some_place(content);
            let (a, b) = section_in(content);
            let pre = content.take(a);
            let rest = without_line_end(content.skip(b + END_MARKER@.len()));
            let all = pre + section + rest;
            assert forall|p: Seq<char>, i: int| (p == BEGIN_MARKER@ || p == END_MARKER@) && 0 <= i < pre.len() && #[trigger] stands_at(all, p, i) implies stands_at(content, p, i) by {
                assert(content.subrange(i, i + p.len()) =~= all.subrange(i, i + p.len())) by {
                    assert forall|k: int| i <= k < i + p.len() implies content[k] == all[k] by {
                        if k >= a {
                            assert(content.subrange(a, a + 21)[k - a] == BEGIN_MARKER@[k - a]);
                            assert(section.subrange(0, 21)[k - a] == BEGIN_MARKER@[k - a]);
                        }
                    }
                }
            }
            lemma_found_again(pre, section, rest, m);
            assert(all.take(a) =~= pre);
            assert(without_line_end(all.skip(a + m + END_MARKER@.len())) =~= rest);
        } else {
            let pre = padded(content);
            let all = pre + section + nothing;
            assert(all =~= pre + section);
            reveal_strlit("\n");
            reveal_strlit("\n\n");
            assert(pre.len() >= content.len() && pre.take(content.len() as int) =~= content);
            assert(forall|k: int| content.len() <= k < pre.len() ==> pre[k] == '\n');
            assert(pre.len() > 0 && pre.last() == '\n') by {
                if finishes_with(ended(content), "\n\n"@) {
                    assert(ended(content).skip(ended(content).len() - 2)[1] == '\n');
                }
            }
            assert forall|p: Seq<char>, i: int| (p == BEGIN_MARKER@ || p == END_MARKER@) && 0 <= i < pre.len() && #[trigger] stands_at(all, p, i) implies stands_at(content, p, i) by {
                if i + p.len() <= content.len() {
                    assert(content.subrange(i, i + p.len()) =~= all.subrange(i, i + p.len()));
                } else {
                    let k = if content.len() <= i {
                        i
                    } else if content.len() < pre.len() {
                        content.len() as int
                    } else {
                        pre.len() - 1
                    };
                    assert(all[k] == '\n');
                    assert(all.subrange(i, i + p.len())[k - i] == p[k - i]);
                }
            }
            lemma_found_again(pre, section, nothing, m);
            assert(all.take(pre.len() as int) =~= pre);
            assert(without_line_end(all.skip(pre.len() + m + END_MARKER@.len())) =~= nothing);
        },
    }
}

/// What the file holds outside of its section stays, in front of the section
/// and behind it; a file without one stays whole, in front.
pub proof fn the_rest_of_the_file_stays(content: Seq<char>, section: Seq<char>)
    ensures
        has_section(content) ==> {
            let (a, b) = section_in(content);
            &&& stands_between(content, a, b)
            &&& merged(Some(content), section).take(a) == content.take(a)
            &&& merged(Some(content), section).skip(a + section.len()) == without_line_end(content.skip(b + END_MARKER@.len()))
        },
        !has_section(content) ==> merged(Some(content), section).take(content.len() as int) == content,
{
    reveal_strlit("\n");
    reveal_strlit("\n\n");
    lemma_markers();
    if has_section(content) {
        lemma_some_place(content);
        let (a, b) = section_in(content);
        let all = merged(Some(content), section);
        assert(all.take(a) =~= content.take(a));
        assert(all.skip(a + section.len()) =~= without_line_end(content.skip(b + END_MARKER@.len())));
    } else {
        assert(merged(Some(content), section).take(content.len() as int) =~= content);
    }
}

/// A file with a section has it in one place.
proof fn lemma_some_place(content: Seq<char>)
    requires
        has_section(content),
    ensures
        stands_between(content, section_in(content).0, section_in(content).1),
{
    let (i, j) = choose|i: int, j: int| i < j && #[trigger] stands_at(content, BEGIN_MARKER@, i) && #[trigger] stands_at(content, END_MARKER@, j);
    lemma_first_end(content, i, j);
}

proof fn lemma_first_end(content: Seq<char>, i: int, j: int)
    requires
        i < j,
        stands_at(content, BEGIN_MARKER@, i),
        stands_at(content, END_MARKER@, j),
    ensures
        stands_between(content, section_in(content).0, section_in(content).1),
    decreases j,
{
    if exists|k: int, l: int| 0 <= k < l < j && #[trigger] stands_at(content, BEGIN_MARKER@, k) && #[trigger] stands_at(content, END_MARKER@, l) {
        let (k, l) = choose|k: int, l: int| 0 <= k < l < j && #[trigger] stands_at(content, BEGIN_MARKER@, k) && #[trigger] stands_at(content, END_MARKER@, l);
        lemma_first_end(content, k, l);
    } else {
        lemma_last_begin(content, i, j);
    }
}

proof fn lemma_last_begin(content: Seq<char>, i: int, j: int)
    requires
        i < j,
        stands_at(content, BEGIN_MARKER@, i),
        stands_at(content, END_MARKER@, j),
        forall|k: int, l: int| 0 <= k < l < j && #[trigger] stands_at(content, BEGIN_MARKER@, k) ==> !#[trigger] stands_at(content, END_MARKER@, l),
    ensures
        stands_between(content, section_in(content).0, section_in(content).1),
    decreases j - i,
{
    if exists|k: int| i < k < j && #[trigger] stands_at(content, BEGIN_MARKER@, k) {
        let k = choose|k: int| i < k < j && #[trigger] stands_at(content, BEGIN_MARKER@, k);
        lemma_last_begin(content, k, j);
    } else {
        lemma_one_place(content, i, j);
    }
}

proof fn lemma_brackets()
    ensures
        BEGIN_MARKER@[12] == 'b',
        BEGIN_MARKER@[0] == '<',
        END_MARKER@[0] == '<',
        END_MARKER@[12] == 'e',
        BEGIN_MARKER@[1] == '!',
        END_MARKER@[1] == '!',
        forall|i: int| 1 <= i < 21 ==> BEGIN_MARKER@[i] != '<' && BEGIN_MARKER@[i] != '/',
        forall|i: int| 1 <= i < 19 ==> END_MARKER@[i] != '/',
{
    reveal_strlit("<!-- okf-rs:begin -->");
    reveal_strlit("<!-- okf-rs:end -->");
}

/// The section that only refers to another file is one.
pub proof fn the_import_is_a_section()
    ensures
        is_section(reference(), 33),
{
    lemma_markers();
    lemma_brackets();
    assert("\n@AGENTS.md\n"@.len() == 12 && forall|i: int| 0 <= i < 12 ==> "\n@AGENTS.md\n"@[i] != '<') by {
        reveal_strlit("\n@AGENTS.md\n");
    }
    assert("\n"@ =~= seq!['\n']) by {
        reveal_strlit("\n");
    }
    let s = reference();
    assert(s.subrange(0, 21) =~= BEGIN_MARKER@);
    assert(s.subrange(33, 52) =~= END_MARKER@);
    assert forall|i: int| 0 <= i < 33 implies !#[trigger] stands_at(s, END_MARKER@, i) by {
        if stands_at(s, END_MARKER@, i) {
            let t = s.subrange(i, i + 19);
            assert(t[0] == s[i] && t[12] == s[i + 12]);
        }
    }
    assert forall|i: int| 0 < i < 33 implies !#[trigger] stands_at(s, BEGIN_MARKER@, i) by {
        if stands_at(s, BEGIN_MARKER@, i) {
            assert(s.subrange(i, i + 21)[0] == s[i]);
        }
    }
}

/// How long the section that tells where the bundle is is up to its end marker.
pub open spec fn overview_body(output: Seq<char>) -> int {
    21int + ABOUT@.len() + output.len() + BROWSE@.len() + output.len() + COMMANDS@.len()
}

proof fn lemma_wording()
    ensures
        !ABOUT@.contains('<'),
        BROWSE@.len() > 0 && BROWSE@[0] == '/',
        !BROWSE@.contains('<'),
        COMMANDS@.len() > 0 && COMMANDS@[0] == '/' && COMMANDS@.last() != '<',
        !COMMANDS@.contains('!'),
{
    reveal_strlit("\n## Knowledge base\n\nThis project's structural knowledge \u{2014} modules, types, functions, and their call graph \u{2014} is available as an [OKF](https://cloud.google.com/blog/products/data-analytics/how-the-open-knowledge-format-can-improve-data-sharing) bundle in `");
    reveal_strlit("/`. It's plain markdown with YAML frontmatter; browse `");
    reveal_strlit("/index.md` for an overview, or query it with the CLI:\n\n- `okf-rs search <query>` \u{2014} find a symbol, type, or module by name or tag\n- `okf-rs graph callers <id>` / `okf-rs graph callees <id>` \u{2014} trace the call graph from a concept id (ids are shown by `search`)\n- `okf-rs graph api` \u{2014} list the public API surface\n- `okf-rs graph cycles` \u{2014} list call-graph cycles\n\nRegenerate the bundle after code changes with `okf-rs generate`.\n");
}

proof fn lemma_no_marker_inside(output: Seq<char>, p: Seq<char>, i: int)
    requires
        p == BEGIN_MARKER@ || p == END_MARKER@,
        forall|k: int| !#[trigger] stands_at(output, p, k),
        0 < i < overview_body(output),
    ensures
        !stands_at(overview(output), p, i),
{
    let s = overview(output);
    lemma_markers();
    lemma_brackets();
    lemma_wording();
    if stands_at(s, p, i) {
        let t = s.subrange(i, i + p.len());
        assert(t[0] == s[i] && t[1] == s[i + 1]);
        let first = 21int + ABOUT@.len();
        let second = first + output.len() + BROWSE@.len();
        let last = second + output.len();
        if i < 21 {
            assert(s[i] == BEGIN_MARKER@[i]);
        } else if i < first {
            assert(s[i] == ABOUT@[i - 21]);
        } else if i < first + output.len() {
            let end = first + output.len();
            if i + p.len() <= end {
                assert(output.subrange(i - first, i - first + p.len()) =~= t);
                assert(stands_at(output, p, i - first));
            } else {
                assert(s[end] == BROWSE@[0]);
                assert(t[end - i] == s[end]);
            }
        } else if i < second {
            assert(s[i] == BROWSE@[i - first - output.len()]);
        } else if i < last {
            if i + p.len() <= last {
                assert(output.subrange(i - second, i - second + p.len()) =~= t);
                assert(stands_at(output, p, i - second));
            } else {
                assert(s[last] == COMMANDS@[0]);
                assert(t[last - i] == s[last]);
            }
        } else {
            assert(s[i] == COMMANDS@[i - last]);
            assert(i + 1 - last < COMMANDS@.len());
            assert(s[i + 1] == COMMANDS@[i + 1 - last]);
        }
    }
}

/// The section that tells where the bundle is is one, unless a marker stands
/// in the name of the place.
pub proof fn the_overview_is_a_section(output: Seq<char>)
    requires
        forall|k: int| !#[trigger] stands_at(output, BEGIN_MARKER@, k),
        forall|k: int| !#[trigger] stands_at(output, END_MARKER@, k),
    ensures
        is_section(overview(output), overview_body(output)),
{
    let s = overview(output);
    let m = overview_body(output);
    lemma_markers();
    reveal_strlit("\n");
    assert(s.subrange(0, 21) =~= BEGIN_MARKER@);
    assert(s.subrange(m, m + 19) =~= END_MARKER@);
    assert forall|i: int| 0 <= i < m implies !#[trigger] stands_at(s, END_MARKER@, i) by {
        if i == 0 {
            lemma_brackets();
            if stands_at(s, END_MARKER@, 0) {
                assert(s.subrange(0, 19)[12] == s.subrange(0, 21)[12]);
            }
        } else {
            lemma_no_marker_inside(output, END_MARKER@, i);
        }
    }
    assert forall|i: int| 0 < i < m implies !#[trigger] stands_at(s, BEGIN_MARKER@, i) by {
        lemma_no_marker_inside(output, BEGIN_MARKER@, i);
    }
}

/// The files that get the section.
#[derive(Clone, Copy, Debug, PartialEq, Eq, Structural)]
pub enum AgentFile {
    Claude,
    Agents,
    Copilot,
}

/// The section that the file gets: the one that only refers to another file
/// for the first, the whole for the others.
pub open spec fn section_for(file: AgentFile, output: Seq<char>) -> Seq<char> {
    match file {
        AgentFile::Claude => reference(),
        _ => overview(output),
    }
}

/// What the file holds once the section is in it: the one that only refers to
/// another file for the first, the whole for the others.
pub fn agent_file_content(file: AgentFile, existing: Option<&str>, bundle_output: &str) -> (r: String)
    ensures
        r@ == merged(match existing {
            Some(e) => Some(e@),
            None => None,
        }, section_for(file, bundle_output@)),
{
    let section = match file {
        AgentFile::Claude => render_import_section(),
        _ => render_section(bundle_output),
    };
    merge(existing, section.as_str())
}

/// Each of the files is the same when it is written a second time, whatever it
/// held before, unless a marker stands in the name of the place.
pub proof fn files_stay_when_written_again(file: AgentFile, existing: Option<Seq<char>>, output: Seq<char>)
    requires
        forall|k: int| !#[trigger] stands_at(output, BEGIN_MARKER@, k),
        forall|k: int| !#[trigger] stands_at(output, END_MARKER@, k),
    ensures
        merged(Some(merged(existing, section_for(file, output))), section_for(file, output)) == merged(existing, section_for(file, output)),
{
    match file {
        AgentFile::Claude => {
            the_import_is_a_section();
            writing_twice_changes_nothing(existing, reference(), 33);
        },
        _ => {
            the_overview_is_a_section(output);
            writing_twice_changes_nothing(existing, overview(output), overview_body(output));
        },
    }
}

/// The section is in the file once it is written. Behind a file without one it
/// comes after an empty line; in place of one, what follows it stays but for
/// the one line end that belongs to it.
pub proof fn the_section_is_in_the_file(content: Seq<char>, section: Seq<char>)
    ensures
        shows(merged(Some(content), section), section),
        merged(None, section) == section,
        !has_section(content) ==> exists|gap: Seq<char>| {
            &&& merged(Some(content), section) == #[trigger] (content + gap + section)
            &&& gap.len() <= 2
            &&& forall|k: int| 0 <= k < gap.len() ==> #[trigger] gap[k] == '\n'
            &&& (content + gap).len() >= 2 && (content + gap).last() == '\n' && (content + gap)[(content + gap).len() - 2] == '\n' || content.len() + gap.len() < 2
        },
        has_section(content) ==> exists|a: int, b: int| {
            &&& #[trigger] stands_between(content, a, b)
            &&& merged(Some(content), section) == content.take(a) + section + content.skip(b + END_MARKER@.len()) || (content[b + END_MARKER@.len()] == '\n' && merged(
                Some(content),
                section,
            ) == content.take(a) + section + content.skip(b + END_MARKER@.len() + 1))
        },
{
    reveal_strlit("\n");
    reveal_strlit("\n\n");
    lemma_markers();
    lemma_shows_itself(section);
    if has_section(content) {
        lemma_some_place(content);
        let (a, b) = section_in(content);
        let rest = content.skip(b + END_MARKER@.len());
        lemma_shows_within(content.take(a), section, without_line_end(rest), section);
        assert(stands_between(content, a, b));
        if rest.len() > 0 && rest[0] == '\n' {
            assert(rest.skip(1) =~= content.skip(b + END_MARKER@.len() + 1));
        }
    } else {
        lemma_shows_within(padded(content), section, Seq::empty(), section);
        assert(padded(content) + section + Seq::empty() =~= padded(content) + section);
        let gap = padded(content).skip(content.len() as int);
        assert("\n"@ =~= seq!['\n']);
        assert("\n\n"@ =~= seq!['\n', '\n']);
        assert(padded(content) =~= content + gap);
        let e = ended(content);
        if finishes_with(e, "\n\n"@) {
            assert(e.skip(e.len() - 2)[0] == '\n' && e.skip(e.len() - 2)[1] == '\n');
        }
        if finishes_with(content, "\n"@) {
            assert(content.skip(content.len() - 1)[0] == '\n');
        }
    }
}

}
