//! Documents in JSON and TOML as trees of plain values.

use vstd::prelude::*;
use crate::order::gather;
use crate::text::same;
use crate::uri::digit;
use crate::uri::hex_digit;

verus! {

/// A value of a document.
#[derive(Debug, PartialEq, Eq)]
pub enum Data {
    Null,
    Bool(bool),
    /// A number as it is written, and as an integer as far as it fits either
    /// type.
    Number(String, Option<u64>, Option<i64>),
    Text(String),
    List(Vec<Data>),
    Table(Vec<(String, Data)>),
    /// A value of a kind that is never looked into.
    Other,
}

/// A document as a value.
pub enum Tree {
    Null,
    Bool(bool),
    Number(Seq<char>, Option<u64>, Option<i64>),
    Text(Seq<char>),
    List(Seq<Tree>),
    Table(Seq<(Seq<char>, Tree)>),
    Other,
}

/// The value of a document.
pub open spec fn tree(d: Data) -> Tree
    decreases d,
{
    match d {
        Data::Null => Tree::Null,
        Data::Bool(b) => Tree::Bool(b),
        Data::Number(s, u, i) => Tree::Number(s@, u, i),
        Data::Text(s) => Tree::Text(s@),
        Data::List(v) => Tree::List(Seq::new(v@.len(), |i: int| if 0 <= i < v@.len() { tree(v@[i]) } else { Tree::Null })),
        Data::Table(v) => Tree::Table(
            Seq::new(v@.len(), |i: int| if 0 <= i < v@.len() { (v@[i].0@, tree(v@[i].1)) } else { (Seq::empty(), Tree::Null) }),
        ),
        Data::Other => Tree::Other,
    }
}

impl View for Data {
    type V = Tree;

    open spec fn view(&self) -> Tree {
        tree(*self)
    }
}

/// What the table has under the key; nothing for a value that is no table.
pub open spec fn field(t: Tree, key: Seq<char>) -> Option<Tree> {
    match t {
        Tree::Table(entries) => entry(entries, key),
        _ => None,
    }
}

/// What the first entry with the key holds.
pub open spec fn entry(entries: Seq<(Seq<char>, Tree)>, key: Seq<char>) -> Option<Tree>
    decreases entries.len(),
{
    if entries.len() == 0 {
        None
    } else {
        match entry(entries.drop_last(), key) {
            Some(t) => Some(t),
            None => if entries.last().0 == key {
                Some(entries.last().1)
            } else {
                None
            },
        }
    }
}

/// The text that the value is.
pub open spec fn text_of(t: Option<Tree>) -> Option<Seq<char>> {
    match t {
        Some(Tree::Text(s)) => Some(s),
        _ => None,
    }
}

proof fn lemma_entry_stays(entries: Seq<(Seq<char>, Tree)>, key: Seq<char>, k: int)
    requires
        0 <= k <= entries.len(),
        entry(entries.take(k), key) is Some,
    ensures
        entry(entries, key) == entry(entries.take(k), key),
    decreases entries.len() - k,
{
    if k < entries.len() {
        assert(entries.take(k + 1).drop_last() =~= entries.take(k));
        lemma_entry_stays(entries, key, k + 1);
    } else {
        assert(entries.take(k) =~= entries);
    }
}

impl Data {
    /// What the table has under the key.
    pub fn get(&self, key: &str) -> (r: Option<&Data>)
        ensures
            match r {
                Some(d) => field(self@, key@) == Some(d@),
                None => field(self@, key@) is None,
            },
    {
        match self {
            Data::Table(v) => {
                let ghost entries = self@->Table_0;
                for i in 0..v.len()
                    invariant
                        self@ == Tree::Table(entries),
                        *self == Data::Table(*v),
                        entries.len() == v@.len(),
                        entry(entries.take(i as int), key@) is None,
                {
                    proof {
                        assert(entries[i as int] == (v@[i as int].0@, v@[i as int].1@));
                        assert(entries.take(i + 1).drop_last() =~= entries.take(i as int));
                    }
                    if same(v[i].0.as_str(), key) {
                        proof {
                            lemma_entry_stays(entries, key@, i + 1);
                        }
                        return Some(&v[i].1);
                    }
                }
                assert(entries.take(entries.len() as int) =~= entries);
                None
            },
            _ => None,
        }
    }

    /// The text that the value is.
    pub fn as_text(&self) -> (r: Option<&str>)
        ensures
            match r {
                Some(s) => text_of(Some(self@)) == Some(s@),
                None => text_of(Some(self@)) is None,
            },
    {
        match self {
            Data::Text(s) => Some(s.as_str()),
            _ => None,
        }
    }
}

impl Clone for Data {
    fn clone(&self) -> (r: Data)
        ensures
            r@ == self@,
        decreases self,
    {
        match self {
            Data::Null => Data::Null,
            Data::Bool(b) => Data::Bool(*b),
            Data::Number(s, u, i) => Data::Number(s.clone(), *u, *i),
            Data::Text(s) => Data::Text(s.clone()),
            Data::List(v) => {
                let mut out: Vec<Data> = Vec::new();
                for i in 0..v.len()
                    invariant
                        *self == Data::List(*v),
                        out.len() == i,
                        forall|k: int| 0 <= k < i ==> (#[trigger] out@[k])@ == v@[k]@,
                {
                    assert(decreases_to!(*self => self->List_0@[i as int]));
                    out.push(v[i].clone());
                }
                let r = Data::List(out);
                assert(r@->List_0 =~= self@->List_0);
                r
            },
            Data::Table(v) => {
                let mut out: Vec<(String, Data)> = Vec::new();
                for i in 0..v.len()
                    invariant
                        *self == Data::Table(*v),
                        out.len() == i,
                        forall|k: int| 0 <= k < i ==> (#[trigger] out@[k]).0@ == v@[k].0@ && out@[k].1@ == v@[k].1@,
                {
                    assert(decreases_to!(*self => self->Table_0@[i as int].1));
                    out.push((v[i].0.clone(), v[i].1.clone()));
                }
                let r = Data::Table(out);
                assert(r@->Table_0 =~= self@->Table_0);
                r
            },
            Data::Other => Data::Other,
        }
    }
}

/// The value of a JSON document, as serde_json keeps it.
#[verifier::external_type_specification]
#[verifier::external_body]
pub struct ExJsonValue(serde_json::Value);

/// The value of a TOML document, as toml keeps it.
#[verifier::external_type_specification]
#[verifier::external_body]
pub struct ExTomlValue(toml::Value);

/// What a JSON text holds; nothing for a text that is no JSON.
pub uninterp spec fn json_tree(text: Seq<char>) -> Option<Tree>;

/// What a TOML text holds; nothing for a text that is no TOML.
pub uninterp spec fn toml_tree(text: Seq<char>) -> Option<Tree>;

/// The values that a `serde_json::Value` holds.
pub uninterp spec fn json_content(value: serde_json::Value) -> Tree;

/// The values that a `toml::Value` holds.
pub uninterp spec fn toml_content(value: toml::Value) -> Tree;

/// `serde_json::from_str` into a `Value`: what comes out depends on the text
/// alone, and nothing comes out of a text that is no JSON.
#[verifier::external_body]
fn json_value(text: &str) -> (r: Option<serde_json::Value>)
    ensures
        match r {
            Some(v) => json_tree(text@) == Some(json_content(v)),
            None => json_tree(text@) is None,
        },
{
    serde_json::from_str(text).ok()
}

/// The characters can stand between quotes in TOML as they are.
pub open spec fn is_quotable(s: Seq<char>) -> bool {
    forall|i: int| 0 <= i < s.len() ==> is_quotable_char(#[trigger] s[i])
}

/// The character can stand between quotes in TOML as it is.
pub open spec fn is_quotable_char(c: char) -> bool {
    c != '"' && c != '\\' && c as u32 != 127 && (c as u32 >= 32 || c == '\t')
}

/// What stands for the character between quotes in TOML.
pub open spec fn quoted_char(c: char) -> Seq<char> {
    if is_quotable_char(c) {
        seq![c]
    } else if c == '"' || c == '\\' {
        seq!['\\', c]
    } else {
        seq!['\\', 'u', '0', '0', hex_digit(c as u8 / 16) as char, hex_digit(c as u8 % 16) as char]
    }
}

/// What stands for each of the characters.
pub open spec fn quoted_chars(s: Seq<char>) -> spec_fn(int) -> Seq<char> {
    |i: int| quoted_char(s[i])
}

/// What stands for the text between quotes in TOML.
pub open spec fn quoted(s: Seq<char>) -> Seq<char> {
    gather(quoted_chars(s), s.len())
}

/// What stands for the text between quotes in TOML.
pub fn quote_text(s: &str) -> (r: String)
    ensures
        r@ == quoted(s@),
{
    let mut out = String::new();
    for c in it: s.chars()
        invariant
            it.seq() == s@,
            out@ == gather(quoted_chars(s@), it.index() as nat),
    {
        let ghost before = out@;
        if c == '"' || c == '\\' {
            out.push('\\');
            out.push(c);
            assert(out@ =~= before + quoted_char(c));
        } else if c as u32 >= 32 && c as u32 != 127 || c == '\t' {
            out.push(c);
            assert(out@ =~= before + quoted_char(c));
        } else {
            let b: u8 = c as u8;
            out.push('\\');
            out.push('u');
            out.push('0');
            out.push('0');
            out.push(digit(b / 16));
            out.push(digit(b % 16));
            assert(out@ =~= before + quoted_char(c));
        }
        assert(quoted_chars(s@)(it.index() as int) == quoted_char(c));
    }
    out
}

/// The key can stand in TOML without quotes.
pub open spec fn is_bare_key(s: Seq<char>) -> bool {
    s.len() > 0 && forall|i: int| 0 <= i < s.len() ==> 'a' <= #[trigger] s[i] <= 'z'
}

/// A TOML document with a comment and one setting.
pub open spec fn setting_text(comment: Seq<char>, key: Seq<char>, value: Seq<char>) -> Seq<char> {
    seq!['#'] + comment + seq!['\n'] + key + seq![' ', '=', ' ', '"'] + value + seq!['"', '\n']
}

/// Where the text is a document with one setting, the value is that setting.
pub open spec fn reads_setting(text: Seq<char>, value: Option<toml::Value>) -> bool {
    forall|comment: Seq<char>, key: Seq<char>, v: Seq<char>| #[trigger]
        setting_text(comment, key, quoted(v)) == text && is_quotable(comment) && is_bare_key(key) ==> value is Some && toml_content(value->0) == Tree::Table(
            seq![(key, Tree::Text(v))],
        )
}

/// `toml::from_str` into a `Value`: what comes out depends on the text alone,
/// and nothing comes out of a text that is no TOML. A document that sets one
/// bare key to a text between quotes, with a backslash before each quote and
/// each backslash and with `\u` and four digits for each control character but
/// the tab, is read as the table of that key and text; of other documents no
/// more is said.
#[verifier::external_body]
fn toml_value(text: &str) -> (r: Option<toml::Value>)
    ensures
        match r {
            Some(v) => toml_tree(text@) == Some(toml_content(v)),
            None => toml_tree(text@) is None,
        },
        reads_setting(text@, r),
{
    toml::from_str(text).ok()
}

/// The values of a `serde_json::Value`, one for one: a number as it
/// displays and as `Number::as_u64` and `Number::as_i64` give it, the entries of an object in
/// the order of its map.
#[verifier::external_body]
fn json_data(value: serde_json::Value) -> (r: Data)
    ensures
        r@ == json_content(value),
{
    match value {
        serde_json::Value::Null => Data::Null,
        serde_json::Value::Bool(b) => Data::Bool(b),
        serde_json::Value::Number(n) => Data::Number(n.to_string(), n.as_u64(), n.as_i64()),
        serde_json::Value::String(s) => Data::Text(s),
        serde_json::Value::Array(items) => Data::List(items.into_iter().map(json_data).collect()),
        serde_json::Value::Object(map) => Data::Table(map.into_iter().map(|(k, v)| (k, json_data(v))).collect()),
    }
}

/// The values of a `toml::Value`, one for one: floats and dates as values that
/// are not looked into, the entries of a table in the order of its map.
#[verifier::external_body]
fn toml_data(value: toml::Value) -> (r: Data)
    ensures
        r@ == toml_content(value),
{
    match value {
        toml::Value::String(s) => Data::Text(s),
        toml::Value::Integer(i) => Data::Number(i.to_string(), u64::try_from(i).ok(), Some(i)),
        toml::Value::Boolean(b) => Data::Bool(b),
        toml::Value::Array(items) => Data::List(items.into_iter().map(toml_data).collect()),
        toml::Value::Table(map) => Data::Table(map.into_iter().map(|(k, v)| (k, toml_data(v))).collect()),
        toml::Value::Float(_) => Data::Other,
        toml::Value::Datetime(_) => Data::Other,
    }
}

/// What the JSON text holds.
pub fn parse_json(text: &str) -> (r: Option<Data>)
    ensures
        match r {
            Some(d) => json_tree(text@) == Some(d@),
            None => json_tree(text@) is None,
        },
{
    match json_value(text) {
        Some(value) => Some(json_data(value)),
        None => None,
    }
}

/// What the TOML text holds.
pub fn parse_toml(text: &str) -> (r: Option<Data>)
    ensures
        match r {
            Some(d) => toml_tree(text@) == Some(d@),
            None => toml_tree(text@) is None,
        },
        forall|comment: Seq<char>, key: Seq<char>, v: Seq<char>| #[trigger]
            setting_text(comment, key, quoted(v)) == text@ && is_quotable(comment) && is_bare_key(key) ==> toml_tree(text@) == Some(
                Tree::Table(seq![(key, Tree::Text(v))]),
            ),
{
    match toml_value(text) {
        Some(value) => Some(toml_data(value)),
        None => None,
    }
}

/// A table has under a key what the first entry with the key holds, and
/// nothing where no entry has it.
pub proof fn the_first_entry_counts(entries: Seq<(Seq<char>, Tree)>, key: Seq<char>)
    ensures
        match field(Tree::Table(entries), key) {
            Some(t) => exists|k: int| 0 <= k < entries.len() && #[trigger] entries[k] == (key, t) && forall|j: int| 0 <= j < k ==> (#[trigger] entries[j]).0 != key,
            None => forall|j: int| 0 <= j < entries.len() ==> (#[trigger] entries[j]).0 != key,
        },
    decreases entries.len(),
{
    if entries.len() > 0 {
        let before = entries.drop_last();
        the_first_entry_counts(before, key);
        assert forall|j: int| 0 <= j < before.len() implies #[trigger] entries[j] == before[j] by {}
        match entry(before, key) {
            Some(t) => {
                let k = choose|k: int| 0 <= k < before.len() && #[trigger] before[k] == (key, t) && forall|j: int| 0 <= j < k ==> (#[trigger] before[j]).0 != key;
                assert(entries[k] == (key, t));
                assert forall|j: int| 0 <= j < k implies (#[trigger] entries[j]).0 != key by {
                    assert(before[j].0 != key);
                }
            },
            None => {
                assert forall|j: int| 0 <= j < entries.len() - 1 implies (#[trigger] entries[j]).0 != key by {
                    assert(before[j].0 != key);
                }
                if entries.last().0 == key {
                    let t = entries.last().1;
                    assert(entries[entries.len() - 1] == (key, t));
                }
            },
        }
    }
}

}
