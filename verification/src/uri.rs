//! Paths as `file://` URIs, and back.

use vstd::prelude::*;
use vstd::string::StringSliceAdditionalSpecFns;
use vstd::utf8::{decode_utf8, encode_utf8, valid_utf8};
use crate::naming::replace_char;
use crate::naming::replaced;
use crate::text::{chars_of, has_prefix, string_of};
use crate::text::{begins_with, split};

verus! {

/// The byte stands for itself in a URI.
pub open spec fn unreserved(b: u8) -> bool {
    ||| 65 <= b <= 90
    ||| 97 <= b <= 122
    ||| 48 <= b <= 57
    ||| b == 45
    ||| b == 95
    ||| b == 46
    ||| b == 126
    ||| b == 47
    ||| b == 58
}

/// The hexadecimal digit, in capitals, of a number below sixteen.
pub open spec fn hex_digit(d: u8) -> u8 {
    if d < 10 {
        (48 + d) as u8
    } else {
        (55 + d) as u8
    }
}

/// The bytes that stand for one byte in a URI.
pub open spec fn encoded_byte(b: u8) -> Seq<u8> {
    if unreserved(b) {
        seq![b]
    } else {
        seq![37u8, hex_digit(b / 16), hex_digit(b % 16)]
    }
}

/// The bytes that stand for these in a URI.
pub open spec fn encoded(b: Seq<u8>) -> Seq<u8>
    decreases b.len(),
{
    if b.len() == 0 {
        Seq::empty()
    } else {
        encoded_byte(b[0]) + encoded(b.skip(1))
    }
}

/// The number that a hexadecimal digit stands for.
pub open spec fn digit_value(c: u8) -> Option<u8> {
    if 48 <= c <= 57 {
        Some((c - 48) as u8)
    } else if 65 <= c <= 70 {
        Some((c - 55) as u8)
    } else if 97 <= c <= 102 {
        Some((c - 87) as u8)
    } else {
        None
    }
}

/// The byte that two characters stand for: two hexadecimal digits, or a plus
/// sign and one.
pub open spec fn hex_pair(a: u8, b: u8) -> Option<u8> {
    if a == 43 {
        digit_value(b)
    } else {
        match (digit_value(a), digit_value(b)) {
            (Some(x), Some(y)) => Some((16 * x + y) as u8),
            _ => None,
        }
    }
}

/// An escaped byte stands at `i`.
pub open spec fn escape_at(b: Seq<u8>, i: int) -> bool {
    b[i] == 37 && i + 2 < b.len() && hex_pair(b[i + 1], b[i + 2]) is Some
}

/// What the bytes from `i` on stand for.
pub open spec fn decoded(b: Seq<u8>, i: int) -> Seq<u8>
    decreases b.len() - i,
{
    if i < 0 || i >= b.len() {
        Seq::empty()
    } else if escape_at(b, i) {
        seq![hex_pair(b[i + 1], b[i + 2])->0] + decoded(b, i + 3)
    } else {
        seq![b[i]] + decoded(b, i + 1)
    }
}

/// A percent sign with two more bytes behind it is not followed by a character
/// that reaches over both.
pub open spec fn decodable(b: Seq<u8>) -> bool {
    forall|i: int| 0 <= i && i + 3 < b.len() && #[trigger] b[i] == 37 ==> !(128 <= b[i + 3] < 192)
}

/// What stands in a text for bytes that are no UTF-8.
pub uninterp spec fn repaired(bytes: Seq<u8>) -> Seq<char>;

/// The text of the bytes, repaired where they are no UTF-8.
pub open spec fn lossy_text(bytes: Seq<u8>) -> Seq<char> {
    if valid_utf8(bytes) {
        decode_utf8(bytes)
    } else {
        repaired(bytes)
    }
}

/// `String::from_utf8_lossy`: the text of bytes that are UTF-8; of others,
/// something that depends on the bytes alone.
#[verifier::external_body]
pub(crate) fn text_of_bytes(bytes: &[u8]) -> (r: String)
    ensures
        r@ == (if valid_utf8(bytes@) {
            decode_utf8(bytes@)
        } else {
            repaired(bytes@)
        }),
{
    String::from_utf8_lossy(bytes).into_owned()
}

/// Whether the byte stands for itself.
fn is_unreserved(b: u8) -> (r: bool)
    ensures
        r == unreserved(b),
{
    (65 <= b && b <= 90) || (97 <= b && b <= 122) || (48 <= b && b <= 57) || b == 45 || b == 95 || b == 46 || b == 126 || b == 47 || b == 58
}

/// The digit as a character.
pub fn digit(d: u8) -> (r: char)
    requires
        d < 16,
    ensures
        r as u8 == hex_digit(d),
        r as u32 == hex_digit(d),
{
    if d < 10 {
        (48 + d) as char
    } else {
        (55 + d) as char
    }
}

/// The characters of bytes that are all below 128.
pub open spec fn as_chars(b: Seq<u8>) -> Seq<char> {
    b.map_values(|x: u8| x as char)
}

/// The path with every byte escaped that does not stand for itself in a URI;
/// slashes and colons stay.
pub fn percent_encode(s: &str) -> (r: String)
    ensures
        r@ == as_chars(encoded(encode_utf8(s@))),
{
    let bytes = s.as_bytes();
    let ghost b = bytes@;
    let mut out = String::new();
    assert(b.skip(0) =~= b);
    for i in 0..bytes.len()
        invariant
            b == bytes@,
            b == encode_utf8(s@),
            out@ + as_chars(encoded(b.skip(i as int))) == as_chars(encoded(b)),
    {
        let x = bytes[i];
        proof {
            assert(b.skip(i as int)[0] == x);
            assert(b.skip(i as int).skip(1) =~= b.skip(i + 1));
            assert(as_chars(encoded(b.skip(i as int))) =~= as_chars(encoded_byte(x)) + as_chars(encoded(b.skip(i + 1))));
        }
        let ghost before = out@;
        if is_unreserved(x) {
            out.push(x as char);
        } else {
            out.push('%');
            out.push(digit(x / 16));
            out.push(digit(x % 16));
        }
        assert(out@ =~= before + as_chars(encoded_byte(x)));
        assert(out@ + as_chars(encoded(b.skip(i + 1))) =~= before + (as_chars(encoded_byte(x)) + as_chars(encoded(b.skip(i + 1)))));
    }
    proof {
        assert(b.skip(b.len() as int) =~= Seq::empty());
        assert(as_chars(encoded(b.skip(b.len() as int))) =~= Seq::empty());
        assert(out@ + Seq::<char>::empty() =~= out@);
    }
    out
}

/// The number of a hexadecimal digit.
fn value_of_digit(c: u8) -> (r: Option<u8>)
    ensures
        r == digit_value(c),
{
    if 48 <= c && c <= 57 {
        Some(c - 48)
    } else if 65 <= c && c <= 70 {
        Some(c - 55)
    } else if 97 <= c && c <= 102 {
        Some(c - 87)
    } else {
        None
    }
}

/// The byte that two characters stand for.
fn byte_of_pair(a: u8, b: u8) -> (r: Option<u8>)
    ensures
        r == hex_pair(a, b),
{
    if a == 43 {
        value_of_digit(b)
    } else {
        match (value_of_digit(a), value_of_digit(b)) {
            (Some(x), Some(y)) => Some(16 * x + y),
            _ => None,
        }
    }
}

/// What the escaped text stands for.
pub open spec fn decoded_text(s: Seq<char>) -> Seq<char> {
    lossy_text(decoded(encode_utf8(s), 0))
}

/// What the escaped text stands for.
pub fn percent_decode(s: &str) -> (r: String)
    requires
        decodable(encode_utf8(s@)),
    ensures
        r@ == decoded_text(s@),
{
    let bytes = s.as_bytes();
    let ghost b = bytes@;
    let n: usize = bytes.len();
    let mut out: Vec<u8> = Vec::new();
    let mut i: usize = 0;
    while i < n
        invariant
            b == bytes@,
            n == b.len(),
            b == encode_utf8(s@),
            i <= n,
            out@ + decoded(b, i as int) == decoded(b, 0),
        decreases n - i,
    {
        let ghost before = out@;
        let mut pair: Option<u8> = None;
        if bytes[i] == 37 && n - i > 2 {
            pair = byte_of_pair(bytes[i + 1], bytes[i + 2]);
        }
        match pair {
            Some(x) => {
                out.push(x);
                assert(out@ + decoded(b, i + 3) =~= before + (seq![x] + decoded(b, i + 3)));
                i = i + 3;
            },
            None => {
                out.push(bytes[i]);
                assert(out@ + decoded(b, i + 1) =~= before + (seq![b[i as int]] + decoded(b, i + 1)));
                i = i + 1;
            },
        }
    }
    assert(out@ + decoded(b, n as int) =~= out@);
    text_of_bytes(out.as_slice())
}

/// Whether the escaped text can be decoded.
pub fn can_decode(s: &str) -> (r: bool)
    ensures
        r == decodable(encode_utf8(s@)),
{
    let bytes = s.as_bytes();
    let ghost b = bytes@;
    let n: usize = bytes.len();
    for i in 0..n
        invariant
            b == bytes@,
            n == b.len(),
            b == encode_utf8(s@),
            forall|k: int| 0 <= k < i && k + 3 < b.len() && #[trigger] b[k] == 37 ==> !(128 <= b[k + 3] < 192),
    {
        if n - i > 3 && bytes[i] == 37 && 128 <= bytes[i + 3] && bytes[i + 3] < 192 {
            assert(b[i as int] == 37);
            return false;
        }
    }
    true
}

proof fn lemma_round(pre: Seq<u8>, b: Seq<u8>)
    ensures
        decoded(pre + encoded(b), pre.len() as int) == b,
    decreases b.len(),
{
    let all = pre + encoded(b);
    let i = pre.len() as int;
    if b.len() > 0 {
        let x = b[0];
        let e = encoded_byte(x);
        let next = pre + e;
        assert(next + encoded(b.skip(1)) =~= all);
        lemma_round(next, b.skip(1));
        assert(all[i] == e[0]);
        if !unreserved(x) {
            assert(all[i + 1] == e[1]);
            assert(all[i + 2] == e[2]);
            assert(hex_pair(e[1], e[2]) == Some(x)) by {
                assert(x / 16 < 16 && x % 16 < 16);
                assert(16 * (x / 16) + x % 16 == x);
            }
        }
        assert(seq![x] + b.skip(1) =~= b);
    } else {
        assert(decoded(all, i) =~= b);
    }
}

proof fn lemma_encoded_ascii(b: Seq<u8>)
    ensures
        forall|k: int| 0 <= k < encoded(b).len() ==> #[trigger] encoded(b)[k] < 128,
    decreases b.len(),
{
    if b.len() > 0 {
        lemma_encoded_ascii(b.skip(1));
        let e = encoded_byte(b[0]);
        let rest = encoded(b.skip(1));
        assert forall|k: int| 0 <= k < encoded(b).len() implies #[trigger] encoded(b)[k] < 128 by {
            if k >= e.len() {
                assert(encoded(b)[k] == rest[k - e.len()]);
            }
        }
    }
}

proof fn lemma_ascii_bytes(b: Seq<u8>)
    requires
        forall|k: int| 0 <= k < b.len() ==> #[trigger] b[k] < 128,
    ensures
        encode_utf8(as_chars(b)) == b,
{
    let c = as_chars(b);
    assert(vstd::utf8::is_ascii_chars(c)) by {
        assert forall|k: int| 0 <= k < c.len() implies c[k] as nat <= 127 by {
            assert(b[k] < 128);
        }
    }
    vstd::utf8::is_ascii_chars_encode_utf8(c);
    assert(encode_utf8(c) =~= b);
}

/// Decoding gives back every text that was encoded.
pub proof fn decoding_undoes_encoding(s: Seq<char>)
    ensures
        decodable(encode_utf8(as_chars(encoded(encode_utf8(s))))),
        decoded_text(as_chars(encoded(encode_utf8(s)))) == s,
{
    let b = encode_utf8(s);
    lemma_encoded_ascii(b);
    lemma_ascii_bytes(encoded(b));
    lemma_round(Seq::empty(), b);
    assert(Seq::<u8>::empty() + encoded(b) =~= encoded(b));
    vstd::utf8::encode_utf8_valid_utf8(s);
    vstd::utf8::encode_utf8_decode_utf8(s);
}

/// The URI of a path.
pub open spec fn uri_of(path: Seq<char>) -> Seq<char> {
    "file://"@ + as_chars(encoded(encode_utf8(path)))
}

/// The URI of a path.
pub fn path_to_uri(path: &str) -> (r: String)
    ensures
        r@ == uri_of(path@),
{
    let mut out = "file://".to_owned();
    out.append(percent_encode(path).as_str());
    out
}

/// The URI without its scheme.
pub open spec fn without_scheme(uri: Seq<char>) -> Seq<char> {
    if begins_with(uri, "file://"@) {
        uri.skip("file://"@.len() as int)
    } else {
        uri
    }
}

/// The path of a URI.
pub fn uri_to_path(uri: &str) -> (r: String)
    requires
        decodable(encode_utf8(without_scheme(uri@))),
    ensures
        r@ == decoded_text(without_scheme(uri@)),
{
    if has_prefix(uri, "file://") {
        let v = chars_of(uri);
        let p = chars_of("file://");
        let rest = string_of(&v, p.len(), v.len());
        assert(rest@ =~= without_scheme(uri@));
        percent_decode(rest.as_str())
    } else {
        percent_decode(uri)
    }
}

/// The text is made of parts between slashes, none of them empty or a single
/// dot, with no colon or backslash in it.
pub open spec fn plain_parts(t: Seq<char>) -> bool {
    &&& forall|i: int| 0 <= i < split(t, '/').len() ==> (#[trigger] split(t, '/')[i]).len() > 0 && split(t, '/')[i] != "."@
    &&& forall|i: int| 0 <= i < t.len() ==> #[trigger] t[i] != ':' && t[i] != '\\'
}

/// An absolute path made of plain parts.
pub open spec fn plain_root(root: Seq<char>) -> bool {
    root.len() > 0 && root[0] == '/' && plain_parts(root.skip(1))
}

/// `std::path::Path::strip_prefix`: what stands behind the root in a path that
/// lies below it. Where root and rest are made of plain parts this is the rest
/// as it is written; what counts as one path in other spellings depends on the
/// machine, and nothing is claimed of it.
#[verifier::external_body]
fn below(path: &str, root: &str) -> (r: Option<String>)
    ensures
        forall|rest: Seq<char>| plain_root(root@) && #[trigger] plain_parts(rest) && path@ == root@ + "/"@ + rest ==> r is Some && r->0@ == rest,
{
    std::path::Path::new(path).strip_prefix(root).ok().map(|p| p.to_string_lossy().into_owned())
}

/// The path, with what stands behind the project's root in place of the whole
/// where it lies below the root; that with slashes for backslashes.
pub open spec fn relative_path(path: Seq<char>, behind_root: Option<Seq<char>>) -> Seq<char> {
    match behind_root {
        Some(p) => replaced(p, '\\', '/'),
        None => path,
    }
}

/// The path to report for one that a server named.
pub fn reported_path(path: &str, behind_root: &Option<String>) -> (r: String)
    ensures
        r@ == relative_path(path@, crate::model::opt_text(*behind_root)),
{
    match behind_root {
        Some(p) => replace_char(p.as_str(), '\\', '/'),
        None => path.to_owned(),
    }
}

/// The path that the URI names, relative to the project's root where it lies
/// below it.
pub fn relativize(project_root: &str, uri: &str) -> (r: String)
    requires
        decodable(encode_utf8(without_scheme(uri@))),
    ensures
        exists|behind: Option<Seq<char>>| r@ == #[trigger] relative_path(decoded_text(without_scheme(uri@)), behind),
        forall|rest: Seq<char>| plain_root(project_root@) && #[trigger] plain_parts(rest) && decoded_text(without_scheme(uri@)) == project_root@ + "/"@ + rest ==> r@ == rest,
{
    let path = uri_to_path(uri);
    let behind = below(path.as_str(), project_root);
    let r = reported_path(path.as_str(), &behind);
    proof {
        assert(r@ == relative_path(path@, crate::model::opt_text(behind)));
        assert forall|rest: Seq<char>| plain_root(project_root@) && #[trigger] plain_parts(rest) && path@ == project_root@ + "/"@ + rest implies r@ == rest by {
            assert(replaced(rest, '\\', '/') =~= rest);
        }
    }
    r
}

/// A file below the root is reported under the path that it has there, however
/// its name had to be escaped.
pub proof fn uris_lead_back(root: Seq<char>, rest: Seq<char>)
    ensures
        decodable(encode_utf8(without_scheme(uri_of(root + "/"@ + rest)))),
        decoded_text(without_scheme(uri_of(root + "/"@ + rest))) == root + "/"@ + rest,
{
    let path = root + "/"@ + rest;
    let e = as_chars(encoded(encode_utf8(path)));
    assert(uri_of(path).take("file://"@.len() as int) =~= "file://"@);
    assert(without_scheme(uri_of(path)) =~= e);
    decoding_undoes_encoding(path);
}

}
