//! The text of source files, which may hold stray bytes of an old encoding.

use vstd::prelude::*;
use vstd::slice::slice_subrange;
use vstd::utf8::{decode_utf8, valid_utf8};
use crate::uri::text_of_bytes;

verus! {

/// The first `v` bytes are UTF-8, and no more of them are.
pub open spec fn is_valid_prefix(b: Seq<u8>, v: int) -> bool {
    &&& 0 <= v <= b.len()
    &&& valid_utf8(b.take(v))
    &&& forall|w: int| v < w <= b.len() ==> !valid_utf8(#[trigger] b.take(w))
}

/// How many of the first bytes are UTF-8.
pub open spec fn valid_length(b: Seq<u8>) -> int {
    choose|v: int| is_valid_prefix(b, v)
}

/// How many bytes behind the valid ones make up one malformed sequence;
/// nothing where the bytes end in the middle of a sequence.
pub uninterp spec fn malformed(b: Seq<u8>) -> Option<nat>;

/// The characters that the bytes are in Windows-1254.
pub uninterp spec fn windows_1254(b: Seq<u8>) -> Seq<char>;

/// `std::str::from_utf8`: nothing for bytes that are UTF-8; for others, up to
/// where they are, and how long the malformed sequence behind is, where it is
/// one and not merely cut short; what is cut short is three bytes at most. The
/// documentation gives no other bound on the length.
#[verifier::external_body]
pub(crate) fn check_utf8(bytes: &[u8]) -> (r: Option<(usize, Option<usize>)>)
    ensures
        match r {
            None => valid_utf8(bytes@),
            Some((v, n)) => !valid_utf8(bytes@) && v < bytes@.len() && is_valid_prefix(bytes@, v as int) && match n {
                Some(k) => malformed(bytes@) == Some(k as nat) && 1 <= k && v + k <= bytes@.len(),
                None => malformed(bytes@) is None && bytes@.len() - v <= 3,
            },
        },
{
    match std::str::from_utf8(bytes) {
        Ok(_) => None,
        Err(e) => Some((e.valid_up_to(), e.error_len())),
    }
}

/// The bytes begin with a byte order mark, of UTF-8 or of UTF-16.
pub open spec fn has_mark(b: Seq<u8>) -> bool {
    ||| b.len() >= 3 && b[0] == 0xEF && b[1] == 0xBB && b[2] == 0xBF
    ||| b.len() >= 2 && b[0] == 0xFF && b[1] == 0xFE
    ||| b.len() >= 2 && b[0] == 0xFE && b[1] == 0xFF
}

/// What Windows-1254 has in place of the control characters from 0x80 on.
pub open spec fn high_characters() -> Seq<char> {
    seq![
        '\u{20AC}', '\u{81}', '\u{201A}', '\u{192}', '\u{201E}', '\u{2026}', '\u{2020}', '\u{2021}',
        '\u{2C6}', '\u{2030}', '\u{160}', '\u{2039}', '\u{152}', '\u{8D}', '\u{8E}', '\u{8F}',
        '\u{90}', '\u{2018}', '\u{2019}', '\u{201C}', '\u{201D}', '\u{2022}', '\u{2013}', '\u{2014}',
        '\u{2DC}', '\u{2122}', '\u{161}', '\u{203A}', '\u{153}', '\u{9D}', '\u{9E}', '\u{178}',
    ]
}

/// The character that a byte is in Windows-1254: that of Latin-1, but for the
/// controls from 0x80 on and six Turkish letters.
pub open spec fn legacy_char(b: u8) -> char {
    if 0x80 <= b < 0xA0 {
        high_characters()[b - 0x80]
    } else if b == 0xD0 {
        '\u{11E}'
    } else if b == 0xDD {
        '\u{130}'
    } else if b == 0xDE {
        '\u{15E}'
    } else if b == 0xF0 {
        '\u{11F}'
    } else if b == 0xFD {
        '\u{131}'
    } else if b == 0xFE {
        '\u{15F}'
    } else {
        b as char
    }
}

/// Each byte as a character of Windows-1254.
pub open spec fn legacy_text(b: Seq<u8>) -> Seq<char> {
    b.map_values(|x: u8| legacy_char(x))
}

/// `encoding_rs::WINDOWS_1254.decode`: characters that depend on the bytes
/// alone. Without a byte order mark each byte is one character, the one that
/// the table of the encoding has for it. With one, `decode` goes by the mark
/// and not by Windows-1254, and nothing more is said.
#[verifier::external_body]
fn decode_windows_1254(bytes: &[u8]) -> (r: String)
    ensures
        r@ == windows_1254(bytes@),
        !has_mark(bytes@) ==> r@ == legacy_text(bytes@),
{
    encoding_rs::WINDOWS_1254.decode(bytes).0.into_owned()
}

/// Where the first malformed sequence ends.
pub open spec fn run_end(b: Seq<u8>) -> int {
    match malformed(b) {
        Some(n) => valid_length(b) + n,
        None => b.len() as int,
    }
}

/// The text of the bytes: what is UTF-8 as it is, and each malformed sequence
/// as Windows-1254.
pub open spec fn source_text(b: Seq<u8>) -> Seq<char>
    decreases b.len(),
{
    if valid_utf8(b) {
        decode_utf8(b)
    } else {
        let v = valid_length(b);
        let end = run_end(b);
        if 0 <= v < end <= b.len() {
            decode_utf8(b.take(v)) + windows_1254(b.subrange(v, end)) + source_text(b.skip(end))
        } else {
            Seq::empty()
        }
    }
}

proof fn lemma_valid_length(b: Seq<u8>, v: int)
    requires
        is_valid_prefix(b, v),
    ensures
        valid_length(b) == v,
{
    let w = valid_length(b);
    assert(is_valid_prefix(b, w));
    assert(valid_utf8(b.take(v)));
    assert(valid_utf8(b.take(w)));
}

/// The text of the bytes, by the table of Windows-1254: what is UTF-8 as it
/// is, and each byte of a malformed sequence as one character.
pub open spec fn recovered_text(b: Seq<u8>) -> Seq<char>
    decreases b.len(),
{
    if valid_utf8(b) {
        decode_utf8(b)
    } else {
        let v = valid_length(b);
        let end = run_end(b);
        if 0 <= v < end <= b.len() {
            decode_utf8(b.take(v)) + legacy_text(b.subrange(v, end)) + recovered_text(b.skip(end))
        } else {
            Seq::empty()
        }
    }
}

/// No malformed sequence begins with a byte order mark.
pub open spec fn is_unmarked(b: Seq<u8>) -> bool
    decreases b.len(),
{
    valid_utf8(b) || {
        let v = valid_length(b);
        let end = run_end(b);
        0 <= v < end <= b.len() ==> !has_mark(b.subrange(v, end)) && is_unmarked(b.skip(end))
    }
}

/// What is UTF-8 in the bytes holds no replacement character.
pub open spec fn holds_no_replacement(b: Seq<u8>) -> bool
    decreases b.len(),
{
    if valid_utf8(b) {
        !decode_utf8(b).contains('\u{FFFD}')
    } else {
        let v = valid_length(b);
        let end = run_end(b);
        0 <= v < end <= b.len() ==> !decode_utf8(b.take(v)).contains('\u{FFFD}') && holds_no_replacement(b.skip(end))
    }
}

/// No replacement character comes in: where the UTF-8 in the bytes holds none,
/// the text that is recovered holds none.
pub proof fn no_replacement_comes_in(b: Seq<u8>)
    requires
        holds_no_replacement(b),
    ensures
        !recovered_text(b).contains('\u{FFFD}'),
    decreases b.len(),
{
    if !valid_utf8(b) {
        let v = valid_length(b);
        let end = run_end(b);
        if 0 <= v < end <= b.len() {
            no_replacement_comes_in(b.skip(end));
            let stray = b.subrange(v, end);
            assert forall|i: int| 0 <= i < stray.len() implies legacy_text(stray)[i] != '\u{FFFD}' by {
                assert(legacy_char(stray[i]) != '\u{FFFD}');
            }
            let first = decode_utf8(b.take(v));
            let last = recovered_text(b.skip(end));
            let whole = first + legacy_text(stray) + last;
            assert forall|k: int| 0 <= k < whole.len() implies whole[k] != '\u{FFFD}' by {
                if k < first.len() {
                    assert(whole[k] == first[k]);
                } else if k < first.len() + stray.len() {
                    assert(whole[k] == legacy_text(stray)[k - first.len()]);
                } else {
                    assert(whole[k] == last[k - first.len() - stray.len()]);
                }
            }
        }
    }
}

/// The text of a source file, and whether all of it was UTF-8. Unless a
/// malformed sequence begins with a byte order mark, each of its bytes is the
/// character that Windows-1254 has for it.
pub fn decode_source(bytes: &[u8]) -> (r: (String, bool))
    ensures
        r.0@ == source_text(bytes@),
        r.1 == valid_utf8(bytes@),
        is_unmarked(bytes@) ==> r.0@ == recovered_text(bytes@),
{
    let ghost b = bytes@;
    let n: usize = bytes.len();
    let mut content = String::new();
    let mut start: usize = 0;
    let mut clean = true;
    assert(b.skip(0) =~= b);
    assert(content@ + source_text(b) =~= source_text(b));
    assert(content@ + recovered_text(b) =~= recovered_text(b));
    while start <= n
        invariant_except_break
            content@ + source_text(b.skip(start as int)) == source_text(b),
            is_unmarked(b) ==> is_unmarked(b.skip(start as int)) && content@ + recovered_text(b.skip(start as int)) == recovered_text(b),
        invariant
            b == bytes@,
            n == b.len(),
            clean ==> start == 0,
            clean || !valid_utf8(b),
            start <= n,
        ensures
            content@ == source_text(b),
            is_unmarked(b) ==> content@ == recovered_text(b),
            clean == valid_utf8(b),
        decreases n - start,
    {
        let rest = slice_subrange(bytes, start, n);
        let ghost rb = rest@;
        proof {
            assert(rb =~= b.skip(start as int));
            assert(b.skip(0) =~= b);
        }
        match check_utf8(rest) {
            None => {
                let tail = text_of_bytes(rest);
                content.append(tail.as_str());
                break;
            },
            Some((v, bad)) => {
                clean = false;
                let end: usize = match bad {
                    Some(k) => v + k,
                    None => rest.len(),
                };
                proof {
                    lemma_valid_length(rb, v as int);
                    assert(end == run_end(rb));
                }
                let good = slice_subrange(rest, 0, v);
                let stray = slice_subrange(rest, v, end);
                proof {
                    assert(good@ =~= rb.take(v as int));
                    assert(rb.skip(end as int) =~= b.skip(start + end));
                }
                let ghost before = content@;
                content.append(text_of_bytes(good).as_str());
                content.append(decode_windows_1254(stray).as_str());
                proof {
                    assert(content@ + source_text(b.skip(start + end)) =~= before + (decode_utf8(rb.take(v as int)) + windows_1254(
                        rb.subrange(v as int, end as int),
                    ) + source_text(rb.skip(end as int))));
                    if is_unmarked(b) {
                        assert(!has_mark(rb.subrange(v as int, end as int)));
                        assert(content@ + recovered_text(b.skip(start + end)) =~= before + (decode_utf8(rb.take(v as int)) + legacy_text(
                            rb.subrange(v as int, end as int),
                        ) + recovered_text(rb.skip(end as int))));
                    }
                }
                start = start + end;
            },
        }
    }
    (content, clean)
}

/// Text that is UTF-8 comes through unchanged.
pub proof fn utf8_comes_through(s: Seq<char>)
    ensures
        source_text(vstd::utf8::encode_utf8(s)) == s,
{
    vstd::utf8::encode_utf8_valid_utf8(s);
    vstd::utf8::encode_utf8_decode_utf8(s);
}

}
