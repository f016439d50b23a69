//! What is said to a language server, and what is read out of its answers.

use vstd::prelude::*;
use crate::data::Data;
use crate::data::{field, text_of, Tree};
use crate::model::Language;
use crate::model::opt_text;
use crate::packages::field2;
use crate::text::{chars_of, decimal_text, has_prefix, same, split_text, string_of, trim_end_text, trim_text};
use crate::text::{begins_with, decimal, split, texts, trim, trim_end, trim_start};

verus! {

/// The command that starts the server for a language.
pub open spec fn server_name(language: Language) -> Option<Seq<char>> {
    match language {
        Language::Rust => Some("rust-analyzer"@),
        Language::Python => Some("pyright-langserver"@),
        Language::Go => Some("gopls"@),
        Language::TypeScript => Some("typescript-language-server"@),
        Language::JavaScript => Some("typescript-language-server"@),
        _ => None,
    }
}

/// The arguments that the command takes.
pub open spec fn server_args(language: Language) -> Seq<Seq<char>> {
    match language {
        Language::Python => seq!["--stdio"@],
        Language::TypeScript => seq!["--stdio"@],
        Language::JavaScript => seq!["--stdio"@],
        _ => Seq::empty(),
    }
}

/// The command that starts the server for the language, and its arguments;
/// nothing for a language without a server.
pub fn server_command(language: Language) -> (r: Option<(&'static str, Vec<&'static str>)>)
    ensures
        match r {
            Some((name, args)) => server_name(language) == Some(name@) && crate::order::str_views(args@) == server_args(language),
            None => server_name(language) is None,
        },
{
    let mut args: Vec<&'static str> = Vec::new();
    let name = match language {
        Language::Rust => "rust-analyzer",
        Language::Python => "pyright-langserver",
        Language::Go => "gopls",
        Language::TypeScript | Language::JavaScript => "typescript-language-server",
        _ => return None,
    };
    match language {
        Language::Python | Language::TypeScript | Language::JavaScript => args.push("--stdio"),
        _ => {},
    }
    assert(crate::order::str_views(args@) =~= server_args(language));
    Some((name, args))
}

/// The name by which the protocol knows the language.
pub open spec fn language_name(language: Language) -> Seq<char> {
    match language {
        Language::Rust => "rust"@,
        Language::Python => "python"@,
        Language::Go => "go"@,
        Language::TypeScript => "typescript"@,
        Language::JavaScript => "javascript"@,
        _ => "plaintext"@,
    }
}

/// The name by which the protocol knows the language.
pub fn language_id(language: Language) -> (r: &'static str)
    ensures
        r@ == language_name(language),
{
    match language {
        Language::Rust => "rust",
        Language::Python => "python",
        Language::Go => "go",
        Language::TypeScript => "typescript",
        Language::JavaScript => "javascript",
        _ => "plaintext",
    }
}

/// The endings of the first `n` that are not empty, each behind the command.
pub open spec fn with_endings(cmd: Seq<char>, endings: Seq<Seq<char>>, n: nat) -> Seq<Seq<char>>
    decreases n,
{
    if n == 0 {
        Seq::empty()
    } else {
        let rest = with_endings(cmd, endings, (n - 1) as nat);
        if endings[n - 1].len() == 0 {
            rest
        } else {
            rest.push(cmd + endings[n - 1])
        }
    }
}

/// The file names under which a command may stand in a directory: its own, and
/// on Windows also that with each ending that marks a program there.
pub fn executable_candidates(cmd: &str, windows: bool, pathext: &Option<String>) -> (r: Vec<String>)
    ensures
        texts(r@) == seq![cmd@] + (if windows {
            let list = match pathext {
                Some(p) => p@,
                None => ".EXE;.CMD;.BAT;.COM"@,
            };
            with_endings(cmd@, split(list, ';'), split(list, ';').len())
        } else {
            Seq::empty()
        }),
{
    let mut names: Vec<String> = Vec::new();
    names.push(cmd.to_owned());
    if windows {
        let list: &str = match pathext {
            Some(p) => p.as_str(),
            None => ".EXE;.CMD;.BAT;.COM",
        };
        let endings = split_text(list, ';');
        let ghost ev = texts(endings@);
        assert(texts(names@) =~= seq![cmd@] + with_endings(cmd@, ev, 0));
        for i in 0..endings.len()
            invariant
                ev == texts(endings@),
                texts(names@) == seq![cmd@] + with_endings(cmd@, ev, i as nat),
        {
            let ending = endings[i].as_str();
            assert(ev[i as int] == ending@);
            if ending.unicode_len() > 0 {
                let mut name = cmd.to_owned();
                name.append(ending);
                let ghost before = names@;
                names.push(name);
                assert(texts(names@) =~= texts(before).push(cmd@ + ending@));
                assert(texts(names@) =~= seq![cmd@] + with_endings(cmd@, ev, (i + 1) as nat));
            }
        }
    } else {
        assert(texts(names@) =~= seq![cmd@] + Seq::empty());
    }
    names
}

/// The number that decimal digits stand for.
pub open spec fn digits_value(s: Seq<char>) -> nat
    decreases s.len(),
{
    if s.len() == 0 {
        0
    } else {
        10 * digits_value(s.drop_last()) + ((s.last() as int) - 48) as nat
    }
}

/// The text is made of decimal digits.
pub open spec fn all_digits(s: Seq<char>) -> bool {
    s.len() > 0 && forall|i: int| 0 <= i < s.len() ==> '0' <= #[trigger] s[i] <= '9'
}

/// The digits of a number, without the plus sign that may stand before them.
pub open spec fn unsigned_part(s: Seq<char>) -> Seq<char> {
    if s.len() > 0 && s[0] == '+' {
        s.skip(1)
    } else {
        s
    }
}

/// The number that the text stands for, where it is one that a `usize` can be.
pub open spec fn parsed(s: Seq<char>) -> Option<nat> {
    let d = unsigned_part(s);
    if all_digits(d) && digits_value(d) <= usize::MAX {
        Some(digits_value(d))
    } else {
        None
    }
}

proof fn lemma_value_grows(s: Seq<char>, k: int)
    requires
        0 <= k <= s.len(),
    ensures
        digits_value(s.take(k)) <= digits_value(s),
    decreases s.len() - k,
{
    if k < s.len() {
        assert(s.take(k + 1).drop_last() =~= s.take(k));
        lemma_value_grows(s, k + 1);
    } else {
        assert(s.take(k) =~= s);
    }
}

/// The number that the text stands for.
pub fn parse_number(s: &str) -> (r: Option<usize>)
    ensures
        match r {
            Some(n) => parsed(s@) == Some(n as nat),
            None => parsed(s@) is None,
        },
{
    let v = chars_of(s);
    let start: usize = if v.len() > 0 && v[0] == '+' {
        1
    } else {
        0
    };
    let ghost d = unsigned_part(s@);
    assert(d =~= v@.skip(start as int));
    let mut value: usize = 0;
    for i in start..v.len()
        invariant
            start <= v.len(),
            d == v@.skip(start as int),
            d == unsigned_part(s@),
            value == digits_value(d.take(i - start)),
            forall|k: int| 0 <= k < i - start ==> '0' <= #[trigger] d[k] <= '9',
    {
        let c = v[i];
        assert(d[i - start] == c);
        if !('0' <= c && c <= '9') {
            return None;
        }
        let x: usize = c as usize - 48;
        proof {
            let t = d.take(i - start + 1);
            assert(t.drop_last() =~= d.take(i - start));
            assert(t.last() == c);
            lemma_value_grows(d, i - start + 1);
        }
        if value > (usize::MAX - x) / 10 {
            return None;
        }
        value = 10 * value + x;
    }
    assert(d.take(d.len() as int) =~= d);
    if v.len() == start {
        return None;
    }
    Some(value)
}

/// What a line of a message's header leads to.
#[derive(Clone, Copy, Debug, PartialEq, Eq, Structural)]
pub enum Header {
    /// More of the header follows; the length of the body, where it is known.
    More(Option<usize>),
    /// The body follows, with this length.
    Body(usize),
    /// The header is over, and it gave no length.
    MissingLength,
    /// The server closed its output.
    Closed,
}

/// The header after one more line; the length is what the lines before it
/// gave. No line at all means that the stream is at its end.
pub open spec fn header_after(length: Option<usize>, line: Option<Seq<char>>) -> Header {
    match line {
        None => Header::Closed,
        Some(l) => {
            let t = trim_end(l);
            if t.len() == 0 {
                match length {
                    Some(n) => Header::Body(n),
                    None => Header::MissingLength,
                }
            } else if begins_with(t, "Content-Length:"@) {
                match parsed(trim(t.skip("Content-Length:"@.len() as int))) {
                    Some(n) => Header::More(Some(n as usize)),
                    None => Header::More(None),
                }
            } else {
                Header::More(length)
            }
        },
    }
}

/// Reads one more line of a message's header.
pub fn read_header(length: Option<usize>, line: Option<&str>) -> (r: Header)
    ensures
        r == header_after(length, match line {
            Some(l) => Some(l@),
            None => None,
        }),
{
    match line {
        None => Header::Closed,
        Some(l) => {
            let t = trim_end_text(l);
            if t.unicode_len() == 0 {
                match length {
                    Some(n) => Header::Body(n),
                    None => Header::MissingLength,
                }
            } else if has_prefix(t, "Content-Length:") {
                let v = chars_of(t);
                let p = chars_of("Content-Length:");
                let rest = string_of(&v, p.len(), v.len());
                assert(rest@ =~= t@.skip("Content-Length:"@.len() as int));
                Header::More(parse_number(trim_text(rest.as_str())))
            } else {
                Header::More(length)
            }
        },
    }
}

/// The header of a message whose body has so many bytes.
pub open spec fn header_text(length: nat) -> Seq<char> {
    "Content-Length: "@ + decimal(length) + "\r\n\r\n"@
}

/// The header of a message whose body has so many bytes.
pub fn message_header(length: usize) -> (r: String)
    ensures
        r@ == header_text(length as nat),
{
    let mut out = "Content-Length: ".to_owned();
    out.append(decimal_text(length).as_str());
    out.append("\r\n\r\n");
    out
}

proof fn lemma_decimal_value(n: nat)
    ensures
        all_digits(decimal(n)),
        digits_value(decimal(n)) == n,
    decreases n,
{
    if n < 10 {
        assert(decimal(n).drop_last() =~= Seq::empty());
        assert(digits_value(Seq::<char>::empty()) == 0);
    } else {
        lemma_decimal_value(n / 10);
        assert(decimal(n).drop_last() =~= decimal(n / 10));
    }
}

/// A header is read as it was written: it is its first line and an empty one,
/// and after them the body follows with the length that was given.
pub proof fn headers_are_read_back(length: nat)
    requires
        length <= usize::MAX,
    ensures
        header_text(length) == ("Content-Length: "@ + decimal(length) + "\r\n"@) + "\r\n"@,
        header_after(None, Some("Content-Length: "@ + decimal(length) + "\r\n"@)) == Header::More(Some(length as usize)),
        header_after(Some(length as usize), Some("\r\n"@)) == Header::Body(length as usize),
{
    let d = decimal(length);
    lemma_decimal_value(length);
    reveal_strlit("Content-Length: ");
    reveal_strlit("Content-Length:");
    reveal_strlit("\r\n");
    reveal_strlit("\r\n\r\n");
    assert(header_text(length) =~= ("Content-Length: "@ + d + "\r\n"@) + "\r\n"@);
    let whole = "Content-Length: "@ + d;
    let line = whole + "\r\n"@;
    assert(whole.last() == d.last());
    assert(trim_end(line) == whole) by {
        assert(line.drop_last() =~= whole.push('\r'));
        assert(whole.push('\r').drop_last() =~= whole);
        reveal_with_fuel(trim_end, 3);
    }
    let rest = whole.skip("Content-Length:"@.len() as int);
    assert(rest =~= seq![' '] + d);
    assert(whole.take("Content-Length:"@.len() as int) =~= "Content-Length:"@);
    assert(trim(rest) == d) by {
        assert(rest.last() == d.last());
        assert(rest.drop_first() =~= d);
        reveal_with_fuel(trim_end, 2);
        reveal_with_fuel(trim_start, 3);
    }
    assert(trim_end("\r\n"@).len() == 0) by {
        assert("\r\n"@.drop_last() =~= seq!['\r']);
        assert(seq!['\r'].drop_last() =~= Seq::empty());
        reveal_with_fuel(trim_end, 3);
    }
}

/// What a message is to one who waits for the answer to a request.
#[derive(Debug)]
pub enum Reply {
    /// It is not the answer.
    Unrelated,
    /// The server refuses the request, and says why.
    Refused(Data),
    /// The answer.
    Answer(Data),
}

/// The number of a message's request.
pub open spec fn message_id(message: Tree) -> Option<i64> {
    match field(message, "id"@) {
        Some(Tree::Number(_, _, i)) => i,
        _ => None,
    }
}

/// What the message is to one who waits for the answer to the request with
/// this number.
pub fn read_reply(message: &Data, want_id: i64) -> (r: Reply)
    ensures
        match r {
            Reply::Unrelated => message_id(message@) != Some(want_id),
            Reply::Refused(e) => message_id(message@) == Some(want_id) && field(message@, "error"@) == Some(e@),
            Reply::Answer(a) => message_id(message@) == Some(want_id) && field(message@, "error"@) is None && a@ == (match field(message@, "result"@) {
                Some(x) => x,
                None => Tree::Null,
            }),
        },
{
    let id = match message.get("id") {
        Some(Data::Number(_, _, i)) => *i,
        _ => None,
    };
    match id {
        Some(i) => {
            if i != want_id {
                return Reply::Unrelated;
            }
        },
        None => return Reply::Unrelated,
    }
    match message.get("error") {
        Some(e) => Reply::Refused(e.clone()),
        None => match message.get("result") {
            Some(x) => Reply::Answer(x.clone()),
            None => Reply::Answer(Data::Null),
        },
    }
}

/// What a server has said of the work it still does.
#[derive(Debug)]
pub struct Progress {
    pub active: Vec<String>,
    pub seen_any: bool,
}

/// The work that is under way.
pub open spec fn active_set(active: Seq<String>) -> Set<Seq<char>> {
    Set::new(|t: Seq<char>| exists|i: int| 0 <= i < active.len() && #[trigger] active[i]@ == t)
}

/// The name of a piece of work, which is a text or a number.
pub open spec fn token_text(t: Option<Tree>) -> Option<Seq<char>> {
    match t {
        Some(Tree::Text(s)) => Some(s),
        Some(Tree::Number(s, _, _)) => Some(s),
        _ => None,
    }
}

/// The method that a message names.
pub open spec fn method_of(message: Tree) -> Option<Seq<char>> {
    text_of(field(message, "method"@))
}

/// What a message says of the work under way.
pub open spec fn active_after(message: Tree, active: Set<Seq<char>>) -> Set<Seq<char>> {
    if method_of(message) == Some("$/progress"@) {
        match (token_text(field2(message, "params"@, "token"@)), kind_of(message)) {
            (Some(token), Some(kind)) => if kind == "end"@ {
                active.remove(token)
            } else if kind == "begin"@ || kind == "report"@ {
                active.insert(token)
            } else {
                active
            },
            _ => active,
        }
    } else {
        active
    }
}

/// Whether a piece of work begins, goes on or ends.
pub open spec fn kind_of(message: Tree) -> Option<Seq<char>> {
    match field(message, "params"@) {
        Some(params) => text_of(field2(params, "value"@, "kind"@)),
        None => None,
    }
}

/// The message asks whether progress may be reported.
pub open spec fn asks_to_report(message: Tree) -> bool {
    method_of(message) == Some("window/workDoneProgress/create"@)
}

/// The answer that accepts a request.
pub open spec fn acceptance(id: Tree) -> Tree {
    Tree::Table(seq![("jsonrpc"@, Tree::Text("2.0"@)), ("id"@, id), ("result"@, Tree::Null)])
}

/// The name of a piece of work.
pub fn progress_token_string(value: &Data) -> (r: Option<String>)
    ensures
        opt_text(r) == token_text(Some(value@)),
{
    match value {
        Data::Text(s) => Some(s.clone()),
        Data::Number(s, _, _) => Some(s.clone()),
        _ => None,
    }
}

/// The answer that accepts a request.
fn accept(id: &Data) -> (r: Data)
    ensures
        r@ == acceptance(id@),
{
    let mut entries: Vec<(String, Data)> = Vec::new();
    entries.push(("jsonrpc".to_owned(), Data::Text("2.0".to_owned())));
    entries.push(("id".to_owned(), id.clone()));
    entries.push(("result".to_owned(), Data::Null));
    let r = Data::Table(entries);
    proof {
        let t = r@->Table_0;
        assert(t.len() == 3);
        assert(t[0] == (entries@[0].0@, entries@[0].1@));
        assert(t[1] == (entries@[1].0@, entries@[1].1@));
        assert(t[2] == (entries@[2].0@, entries@[2].1@));
        assert(r@->Table_0 =~= acceptance(id@)->Table_0);
    }
    r
}

impl Progress {
    pub fn new() -> (r: Progress)
        ensures
            active_set(r.active@) == Set::<Seq<char>>::empty(),
            !r.seen_any,
    {
        let r = Progress { active: Vec::new(), seen_any: false };
        assert(active_set(r.active@) =~= Set::empty());
        r
    }

    /// Takes the token off the work under way.
    fn retire(&mut self, token: &str)
        ensures
            active_set(final(self).active@) == active_set(old(self).active@).remove(token@),
            final(self).seen_any == old(self).seen_any,
    {
        let mut kept: Vec<String> = Vec::new();
        for i in 0..self.active.len()
            invariant
                forall|t: Seq<char>| #[trigger] active_set(kept@).contains(t) <==> active_set(self.active@.take(i as int)).contains(t) && t != token@,
        {
            let ghost before = kept@;
            let ghost now = self.active@.take(i + 1);
            let ghost then = self.active@.take(i as int);
            if !same(self.active[i].as_str(), token) {
                kept.push(self.active[i].clone());
            }
            proof {
                assert(now =~= then.push(self.active@[i as int]));
                lemma_active_push(then, self.active@[i as int]);
                if kept@.len() > before.len() {
                    assert(kept@ =~= before.push(kept@.last()));
                    lemma_active_push(before, kept@.last());
                }
            }
        }
        assert(self.active@.take(self.active@.len() as int) =~= self.active@);
        assert(active_set(kept@) =~= active_set(self.active@).remove(token@));
        self.active = kept;
    }

    /// Puts the token on the work under way.
    fn start(&mut self, token: String)
        ensures
            active_set(final(self).active@) == active_set(old(self).active@).insert(token@),
            final(self).seen_any == old(self).seen_any,
    {
        let ghost before = self.active@;
        let ghost t = token;
        for i in 0..self.active.len()
            invariant
                self.active@ == before,
                token == t,
        {
            if same(self.active[i].as_str(), token.as_str()) {
                proof {
                    assert(active_set(before).contains(token@));
                    assert(active_set(before) =~= active_set(before).insert(token@));
                }
                return;
            }
        }
        self.active.push(token);
        proof {
            lemma_active_push(before, t);
            assert(self.active@ =~= before.push(t));
            assert(active_set(self.active@) =~= active_set(before).insert(t@));
        }
    }

    /// Notes what a message says of the work under way, and gives the answer
    /// that it asks for: one that asks whether progress may be reported is
    /// answered that it may.
    pub fn observe_progress_message(&mut self, message: &Data) -> (r: Option<Data>)
        ensures
            active_set(final(self).active@) == active_after(message@, active_set(old(self).active@)),
            final(self).seen_any == (old(self).seen_any || asks_to_report(message@) || method_of(message@) == Some("$/progress"@)),
            match r {
                Some(a) => asks_to_report(message@) && field(message@, "id"@) is Some && a@ == acceptance(field(message@, "id"@)->0),
                None => !asks_to_report(message@) || field(message@, "id"@) is None,
            },
    {
        let method: &str = match message.get("method") {
            Some(m) => match m.as_text() {
                Some(s) => s,
                None => return None,
            },
            None => return None,
        };
        proof {
            reveal_strlit("$/progress");
            reveal_strlit("window/workDoneProgress/create");
        }
        if same(method, "window/workDoneProgress/create") {
            assert(method@.len() != "$/progress"@.len());
            self.seen_any = true;
            return match message.get("id") {
                Some(id) => Some(accept(id)),
                None => None,
            };
        }
        if same(method, "$/progress") {
            self.seen_any = true;
            let mut token: Option<String> = None;
            let mut kind: Option<&str> = None;
            if let Some(params) = message.get("params") {
                if let Some(t) = params.get("token") {
                    token = progress_token_string(t);
                }
                if let Some(value) = params.get("value") {
                    if let Some(k) = value.get("kind") {
                        kind = k.as_text();
                    }
                }
            }
            match (token, kind) {
                (Some(token), Some(kind)) => {
                    if same(kind, "end") {
                        self.retire(token.as_str());
                    } else if same(kind, "begin") || same(kind, "report") {
                        self.start(token);
                    }
                },
                _ => {},
            }
        }
        None
    }

    /// Whether a stretch of silence means that the server is ready: it has
    /// never reported any work, or all that it reported is done.
    pub fn ready_when_quiet(&self) -> (r: bool)
        ensures
            r == (!self.seen_any || active_set(self.active@) == Set::<Seq<char>>::empty()),
    {
        proof {
            if self.active@.len() > 0 {
                assert(active_set(self.active@).contains(self.active@[0]@));
            } else {
                assert(active_set(self.active@) =~= Set::empty());
            }
        }
        !self.seen_any || self.active.len() == 0
    }
}

proof fn lemma_active_push(v: Seq<String>, x: String)
    ensures
        forall|t: Seq<char>| #[trigger] active_set(v.push(x)).contains(t) <==> active_set(v).contains(t) || t == x@,
{
    let w = v.push(x);
    assert forall|t: Seq<char>| #[trigger] active_set(w).contains(t) <==> active_set(v).contains(t) || t == x@ by {
        if active_set(v).contains(t) {
            let i = choose|i: int| 0 <= i < v.len() && #[trigger] v[i]@ == t;
            assert(w[i]@ == t);
        }
        if t == x@ {
            assert(w[v.len() as int]@ == t);
        }
        if active_set(w).contains(t) {
            let i = choose|i: int| 0 <= i < w.len() && #[trigger] w[i]@ == t;
            if i < v.len() {
                assert(v[i]@ == t);
            }
        }
    }
}

/// The version that the server reports of itself.
pub fn parse_server_version(result: &Data) -> (r: Option<String>)
    ensures
        opt_text(r) == text_of(field2(result@, "serverInfo"@, "version"@)),
{
    match result.get("serverInfo") {
        Some(info) => match info.get("version") {
            Some(version) => match version.as_text() {
                Some(s) => Some(s.to_owned()),
                None => None,
            },
            None => None,
        },
        None => None,
    }
}

/// What the table has under the first key, else under the second.
pub open spec fn either_field(t: Tree, a: Seq<char>, b: Seq<char>) -> Option<Tree> {
    match field(t, a) {
        Some(x) => Some(x),
        None => field(t, b),
    }
}

/// The line where a range starts, cut to what fits.
pub open spec fn start_line(range: Tree) -> Option<u32> {
    match field2(range, "start"@, "line"@) {
        Some(Tree::Number(_, Some(u), _)) => Some(u as u32),
        _ => None,
    }
}

/// Where a definition stands: a URI and a line.
pub open spec fn definition_at(entry: Tree) -> Option<(Seq<char>, u32)> {
    match (text_of(either_field(entry, "uri"@, "targetUri"@)), either_field(entry, "range"@, "targetRange"@)) {
        (Some(uri), Some(range)) => match start_line(range) {
            Some(line) => Some((uri, line)),
            None => None,
        },
        _ => None,
    }
}

/// Where the definitions in the list stand; one that does not say is left out.
pub open spec fn definitions_in(items: Seq<Tree>) -> Seq<(Seq<char>, u32)>
    decreases items.len(),
{
    if items.len() == 0 {
        Seq::empty()
    } else {
        let rest = definitions_in(items.drop_last());
        match definition_at(items.last()) {
            Some(d) => rest.push(d),
            None => rest,
        }
    }
}

/// Where the definitions in an answer stand: it is one of them, a list of
/// them, or nothing.
pub open spec fn definitions_of(response: Tree) -> Seq<(Seq<char>, u32)> {
    match response {
        Tree::List(items) => definitions_in(items),
        Tree::Table(_) => definitions_in(seq![response]),
        _ => Seq::empty(),
    }
}

/// Places as values.
pub open spec fn place_views(v: Seq<(String, u32)>) -> Seq<(Seq<char>, u32)> {
    v.map_values(|p: (String, u32)| (p.0@, p.1))
}

/// What the table has under the first key, else under the second.
fn get_either<'a>(d: &'a Data, a: &str, b: &str) -> (r: Option<&'a Data>)
    ensures
        match r {
            Some(x) => either_field(d@, a@, b@) == Some(x@),
            None => either_field(d@, a@, b@) is None,
        },
{
    match d.get(a) {
        Some(x) => Some(x),
        None => d.get(b),
    }
}

/// Where a definition stands.
fn parse_definition(entry: &Data) -> (r: Option<(String, u32)>)
    ensures
        match r {
            Some(p) => definition_at(entry@) == Some((p.0@, p.1)),
            None => definition_at(entry@) is None,
        },
{
    let uri: &str = match get_either(entry, "uri", "targetUri") {
        Some(u) => match u.as_text() {
            Some(s) => s,
            None => return None,
        },
        None => return None,
    };
    let range = match get_either(entry, "range", "targetRange") {
        Some(x) => x,
        None => return None,
    };
    match range.get("start") {
        Some(start) => match start.get("line") {
            Some(Data::Number(_, Some(u), _)) => Some((uri.to_owned(), #[verifier::truncate] (*u as u32))),
            _ => None,
        },
        None => None,
    }
}

/// Where the definitions in a server's answer stand.
pub fn parse_definition_locations(response: &Data) -> (r: Vec<(String, u32)>)
    ensures
        place_views(r@) == definitions_of(response@),
{
    let mut out: Vec<(String, u32)> = Vec::new();
    assert(place_views(out@) =~= Seq::empty());
    match response {
        Data::List(v) => {
            let ghost items = response@->List_0;
            assert(items.take(0) =~= Seq::empty());
            for i in 0..v.len()
                invariant
                    *response == Data::List(*v),
                    items == response@->List_0,
                    items.len() == v@.len(),
                    place_views(out@) == definitions_in(items.take(i as int)),
            {
                proof {
                    assert(items[i as int] == v@[i as int]@);
                    assert(items.take(i + 1).drop_last() =~= items.take(i as int));
                    assert(items.take(i + 1).last() == v@[i as int]@);
                }
                if let Some(p) = parse_definition(&v[i]) {
                    let ghost before = out@;
                    out.push(p);
                    assert(place_views(out@) =~= place_views(before).push((p.0@, p.1)));
                }
            }
            assert(items.take(items.len() as int) =~= items);
        },
        Data::Table(_) => {
            proof {
                assert(seq![response@].drop_last() =~= Seq::empty());
                assert(seq![response@].last() == response@);
                reveal_with_fuel(definitions_in, 2);
            }
            if let Some(p) = parse_definition(response) {
                out.push(p);
                assert(place_views(out@) =~= seq![(p.0@, p.1)]);
                assert(Seq::<(Seq<char>, u32)>::empty().push((p.0@, p.1)) =~= seq![(p.0@, p.1)]);
            }
        },
        _ => {},
    }
    out
}

/// Where definitions stand is told by those entries of the answer that say so,
/// in their order: by its file and the line where its range starts, under the
/// one pair of keys or, where these are missing, the other.
pub proof fn definitions_come_from_their_entries(items: Seq<Tree>, d: (Seq<char>, u32))
    ensures
        definitions_in(items).contains(d) <==> exists|i: int| 0 <= i < items.len() && tells_place(#[trigger] items[i], d.0, d.1),
        definitions_of(Tree::List(items)) == definitions_in(items),
        forall|entry: Tree| entry is Table ==> (#[trigger] definitions_of(entry).contains(d) <==> tells_place(entry, d.0, d.1)),
    decreases items.len(),
{
    lemma_definitions(items, d);
    assert forall|entry: Tree| entry is Table implies (#[trigger] definitions_of(entry).contains(d) <==> tells_place(entry, d.0, d.1)) by {
        let one = seq![entry];
        lemma_definitions(one, d);
        assert(one[0] == entry);
    }
}

/// The entry tells the file and the line.
pub open spec fn tells_place(entry: Tree, uri: Seq<char>, line: u32) -> bool {
    let file = if field(entry, "uri"@) is Some { field(entry, "uri"@) } else { field(entry, "targetUri"@) };
    let range = if field(entry, "range"@) is Some { field(entry, "range"@) } else { field(entry, "targetRange"@) };
    &&& text_of(file) == Some(uri)
    &&& range is Some
    &&& field(range->0, "start"@) matches Some(start)
    &&& field(start, "line"@) matches Some(Tree::Number(_, Some(n), _))
    &&& line == n as u32
}

proof fn lemma_definitions(items: Seq<Tree>, d: (Seq<char>, u32))
    ensures
        definitions_in(items).contains(d) <==> exists|i: int| 0 <= i < items.len() && tells_place(#[trigger] items[i], d.0, d.1),
    decreases items.len(),
{
    if items.len() > 0 {
        let (rest, all) = (definitions_in(items.drop_last()), definitions_in(items));
        lemma_definitions(items.drop_last(), d);
        let last = items.last();
        assert(definition_at(last) == Some(d) <==> tells_place(last, d.0, d.1));
        if rest.contains(d) {
            let x = choose|x: int| 0 <= x < rest.len() && rest[x] == d;
            assert(all[x] == d);
            let i = choose|i: int| 0 <= i < items.len() - 1 && tells_place(#[trigger] items.drop_last()[i], d.0, d.1);
            assert(items[i] == items.drop_last()[i]);
        }
        if all.contains(d) {
            let x = choose|x: int| 0 <= x < all.len() && all[x] == d;
            if x < rest.len() {
                assert(rest[x] == d);
                assert(rest.contains(d));
            } else {
                assert(tells_place(items[items.len() - 1], d.0, d.1));
            }
        }
        if exists|i: int| 0 <= i < items.len() && tells_place(#[trigger] items[i], d.0, d.1) {
            let i = choose|i: int| 0 <= i < items.len() && tells_place(#[trigger] items[i], d.0, d.1);
            if i < items.len() - 1 {
                assert(items.drop_last()[i] == items[i]);
            } else {
                assert(all[rest.len() as int] == d);
            }
        }
    }
}

/// The message says this of the piece of work.
pub open spec fn reports_on(message: Tree, token: Seq<char>, kind: Seq<char>) -> bool {
    &&& text_of(field(message, "method"@)) == Some("$/progress"@)
    &&& field(message, "params"@) matches Some(params)
    &&& token_text(field(params, "token"@)) == Some(token)
    &&& field(params, "value"@) matches Some(value)
    &&& text_of(field(value, "kind"@)) == Some(kind)
}

/// A piece of work is under way from its beginning, or a report on it, to its
/// end; a message says nothing of any other piece of work, and one that is no
/// such report says nothing at all.
pub proof fn work_is_under_way_until_it_ends(message: Tree, active: Set<Seq<char>>, token: Seq<char>)
    ensures
        reports_on(message, token, "begin"@) || reports_on(message, token, "report"@) ==> active_after(message, active).contains(token),
        reports_on(message, token, "end"@) ==> !active_after(message, active).contains(token),
        !reports_on(message, token, "begin"@) && !reports_on(message, token, "report"@) && !reports_on(message, token, "end"@) ==> (active_after(message, active).contains(token)
            <==> active.contains(token)),
{
    reveal_strlit("begin");
    reveal_strlit("report");
    reveal_strlit("end");
    assert("begin"@.len() == 5 && "report"@.len() == 6 && "end"@.len() == 3);
}

/// A command may stand under its name with each of the endings, but for an
/// empty one, and under no other name.
pub proof fn commands_stand_under_all_endings(cmd: Seq<char>, endings: Seq<Seq<char>>, n: nat, name: Seq<char>)
    requires
        n <= endings.len(),
    ensures
        with_endings(cmd, endings, n).contains(name) <==> exists|k: int| 0 <= k < n && (#[trigger] endings[k]).len() > 0 && name == cmd + endings[k],
    decreases n,
{
    if n > 0 {
        let (rest, all) = (with_endings(cmd, endings, (n - 1) as nat), with_endings(cmd, endings, n));
        commands_stand_under_all_endings(cmd, endings, (n - 1) as nat, name);
        if rest.contains(name) {
            let x = choose|x: int| 0 <= x < rest.len() && rest[x] == name;
            assert(all[x] == name);
        }
        if all.contains(name) {
            let x = choose|x: int| 0 <= x < all.len() && all[x] == name;
            if x < rest.len() {
                assert(rest[x] == name);
                assert(rest.contains(name));
            } else {
                assert(endings[n - 1].len() > 0);
            }
        }
        if endings[n - 1].len() > 0 {
            assert(all[rest.len() as int] == cmd + endings[n - 1]);
        }
    }
}

}
