//! Text as sequences of characters.

use vstd::prelude::*;

verus! {

/// `String::push` appends the character.
pub assume_specification[ String::push ](s: &mut String, c: char)
    ensures
        final(s)@ == old(s)@.push(c),
;

/// `str`'s own equality compares the two texts.
pub assume_specification[ <str as PartialEq>::eq ](a: &str, b: &str) -> (r: bool)
    ensures
        r == (a@ == b@),
;

/// The dictionary order of two texts by code point.
pub open spec fn lex_lt(a: Seq<char>, b: Seq<char>) -> bool
    decreases a.len(),
{
    if b.len() == 0 {
        false
    } else if a.len() == 0 {
        true
    } else if a[0] == b[0] {
        lex_lt(a.drop_first(), b.drop_first())
    } else {
        a[0] < b[0]
    }
}

pub proof fn lemma_lex_irreflexive(a: Seq<char>)
    ensures
        !lex_lt(a, a),
    decreases a.len(),
{
    if a.len() > 0 {
        lemma_lex_irreflexive(a.drop_first());
    }
}

pub proof fn lemma_lex_total(a: Seq<char>, b: Seq<char>)
    ensures
        a == b || lex_lt(a, b) || lex_lt(b, a),
    decreases a.len(),
{
    if a.len() > 0 && b.len() > 0 {
        if a[0] == b[0] {
            lemma_lex_total(a.drop_first(), b.drop_first());
            if a.drop_first() == b.drop_first() {
                assert(a =~= seq![a[0]] + a.drop_first());
                assert(b =~= seq![b[0]] + b.drop_first());
            }
        }
    } else if a.len() == 0 && b.len() == 0 {
        assert(a =~= b);
    }
}

pub proof fn lemma_lex_transitive(a: Seq<char>, b: Seq<char>, c: Seq<char>)
    requires
        lex_lt(a, b),
        lex_lt(b, c),
    ensures
        lex_lt(a, c),
    decreases a.len(),
{
    if a.len() > 0 && a[0] == b[0] && b[0] == c[0] {
        lemma_lex_transitive(a.drop_first(), b.drop_first(), c.drop_first());
    }
}

/// Whether one text comes before the other in dictionary order.
pub fn text_lt(a: &str, b: &str) -> (r: bool)
    ensures
        r == lex_lt(a@, b@),
{
    broadcast use vstd::string::next_postcondition;

    let mut rest = b.chars();
    assert(a@.skip(0) =~= a@);
    for c in it: a.chars()
        invariant
            it.seq() == a@,
            lex_lt(a@.skip(it.index() as int), vstd::std_specs::iter::IteratorSpec::remaining(&rest)) == lex_lt(a@, b@),
    {
        match rest.next() {
            Some(d) => {
                if c != d {
                    return c < d;
                }
            },
            None => {
                return false;
            },
        }
        assert(a@.skip(it.index() as int).drop_first() =~= a@.skip(it.index() + 1));
    }
    rest.next().is_some()
}

/// Whether the two texts are the same.
pub fn same(a: &str, b: &str) -> (r: bool)
    ensures
        r == (a@ == b@),
{
    a.eq(b)
}

/// The characters of the text.
pub fn chars_of(s: &str) -> (r: Vec<char>)
    ensures
        r@ == s@,
{
    let mut out: Vec<char> = Vec::new();
    for c in it: s.chars()
        invariant
            it.seq() == s@,
            out@ == s@.take(it.index() as int),
    {
        let ghost i = it.index();
        out.push(c);
        assert(out@ =~= s@.take(i + 1));
    }
    assert(s@.take(s@.len() as int) =~= s@);
    out
}

/// The characters from `lo` up to `hi` as a text.
pub fn string_of(v: &Vec<char>, lo: usize, hi: usize) -> (r: String)
    requires
        lo <= hi <= v@.len(),
    ensures
        r@ == v@.subrange(lo as int, hi as int),
{
    let mut out = String::new();
    for i in lo..hi
        invariant
            lo <= hi <= v@.len(),
            out@ == v@.subrange(lo as int, i as int),
    {
        out.push(v[i]);
        assert(out@ =~= v@.subrange(lo as int, i + 1));
    }
    out
}

/// The pieces of the text between the separators.
pub open spec fn split(s: Seq<char>, sep: char) -> Seq<Seq<char>>
    decreases s.len(),
{
    if s.len() == 0 {
        seq![Seq::empty()]
    } else {
        let rest = split(s.drop_last(), sep);
        if s.last() == sep {
            rest.push(Seq::empty())
        } else {
            rest.drop_last().push(rest.last().push(s.last()))
        }
    }
}

pub proof fn lemma_split_nonempty(s: Seq<char>, sep: char)
    ensures
        split(s, sep).len() > 0,
    decreases s.len(),
{
    if s.len() > 0 {
        lemma_split_nonempty(s.drop_last(), sep);
    }
}

/// The pieces of the text between the separators.
pub fn split_text(s: &str, sep: char) -> (r: Vec<String>)
    ensures
        texts(r@) == split(s@, sep),
{
    let mut parts: Vec<String> = Vec::new();
    let mut cur = String::new();
    for c in it: s.chars()
        invariant
            it.seq() == s@,
            texts(parts@).push(cur@) == split(s@.take(it.index() as int), sep),
    {
        let ghost i = it.index() as int;
        let ghost before = texts(parts@);
        let ghost old_cur = cur@;
        proof {
            assert(s@.take(i + 1).drop_last() =~= s@.take(i));
            assert(before.push(old_cur).drop_last() =~= before);
        }
        if c == sep {
            parts.push(cur);
            cur = String::new();
            assert(texts(parts@) =~= before.push(old_cur));
            assert(cur@ =~= Seq::<char>::empty());
        } else {
            cur.push(c);
        }
    }
    assert(s@.take(s@.len() as int) =~= s@);
    let ghost before = texts(parts@);
    let ghost last = cur@;
    parts.push(cur);
    assert(texts(parts@) =~= before.push(last));
    parts
}

/// The texts as values.
pub open spec fn texts(v: Seq<String>) -> Seq<Seq<char>> {
    v.map_values(|s: String| s@)
}

/// `p` is how `s` begins.
pub open spec fn begins_with(s: Seq<char>, p: Seq<char>) -> bool {
    p.len() <= s.len() && s.take(p.len() as int) == p
}

/// `p` is how `s` ends.
pub open spec fn finishes_with(s: Seq<char>, p: Seq<char>) -> bool {
    p.len() <= s.len() && s.skip(s.len() - p.len()) == p
}

/// `p` stands in `s` at position `i`.
pub open spec fn stands_at(s: Seq<char>, p: Seq<char>, i: int) -> bool {
    0 <= i && i + p.len() <= s.len() && s.subrange(i, i + p.len()) == p
}

/// Whether `p` stands in `v` at position `i`.
pub fn matches_at(v: &Vec<char>, p: &Vec<char>, i: usize) -> (r: bool)
    ensures
        r == stands_at(v@, p@, i as int),
{
    let n: usize = v.len();
    if i > n || p.len() > n - i {
        return false;
    }
    for k in 0..p.len()
        invariant
            n == v@.len(),
            i + p@.len() <= v@.len(),
            forall|j: int| 0 <= j < k ==> v@[i + j] == p@[j],
    {
        if v[i + k] != p[k] {
            assert(v@.subrange(i as int, i + p@.len())[k as int] != p@[k as int]);
            return false;
        }
    }
    assert(v@.subrange(i as int, i + p@.len()) =~= p@);
    true
}

/// Whether the text begins with `p`.
pub fn has_prefix(s: &str, p: &str) -> (r: bool)
    ensures
        r == begins_with(s@, p@),
{
    let v = chars_of(s);
    let q = chars_of(p);
    let r = matches_at(&v, &q, 0);
    assert(q@.len() <= v@.len() ==> v@.subrange(0, q@.len() as int) =~= v@.take(q@.len() as int));
    r
}

/// Whether the text ends with `p`.
pub fn has_suffix(s: &str, p: &str) -> (r: bool)
    ensures
        r == finishes_with(s@, p@),
{
    let v = chars_of(s);
    let q = chars_of(p);
    if q.len() > v.len() {
        return false;
    }
    let r = matches_at(&v, &q, v.len() - q.len());
    assert(v@.subrange(v@.len() - q@.len(), v@.len() as int) =~= v@.skip(v@.len() - q@.len()));
    r
}

/// The small letter of a capital ASCII letter, and any other character as it
/// is.
pub open spec fn lower_char(c: char) -> char {
    if 'A' <= c <= 'Z' {
        ((c as u8) + 32) as char
    } else {
        c
    }
}

/// The text with its ASCII letters small.
pub open spec fn lower(s: Seq<char>) -> Seq<char> {
    s.map_values(|c: char| lower_char(c))
}

/// The text with its ASCII letters small.
pub fn lower_text(s: &str) -> (r: String)
    ensures
        r@ == lower(s@),
{
    let mut out = String::new();
    for c in it: s.chars()
        invariant
            it.seq() == s@,
            out@ == lower(s@.take(it.index() as int)),
    {
        let ghost i = it.index() as int;
        if c >= 'A' && c <= 'Z' {
            out.push((c as u8 + 32) as char);
        } else {
            out.push(c);
        }
        assert(lower(s@.take(i + 1)) =~= lower(s@.take(i)).push(lower_char(s@[i])));
    }
    assert(s@.take(s@.len() as int) =~= s@);
    out
}

/// Where the character first stands.
pub open spec fn find_char(s: Seq<char>, c: char) -> Option<int>
    decreases s.len(),
{
    if s.len() == 0 {
        None
    } else {
        match find_char(s.drop_last(), c) {
            Some(i) => Some(i),
            None => if s.last() == c {
                Some(s.len() - 1)
            } else {
                None
            },
        }
    }
}

pub proof fn lemma_find_char(s: Seq<char>, c: char)
    ensures
        match find_char(s, c) {
            Some(i) => 0 <= i < s.len() && s[i] == c && forall|j: int| 0 <= j < i ==> s[j] != c,
            None => forall|j: int| 0 <= j < s.len() ==> s[j] != c,
        },
    decreases s.len(),
{
    if s.len() > 0 {
        lemma_find_char(s.drop_last(), c);
        assert forall|j: int| 0 <= j < s.len() - 1 implies s[j] == s.drop_last()[j] by {}
    }
}

/// Where the character last stands.
pub open spec fn find_last_char(s: Seq<char>, c: char) -> Option<int>
    decreases s.len(),
{
    if s.len() == 0 {
        None
    } else if s.last() == c {
        Some(s.len() - 1)
    } else {
        find_last_char(s.drop_last(), c)
    }
}

pub proof fn lemma_find_last_char(s: Seq<char>, c: char)
    ensures
        match find_last_char(s, c) {
            Some(i) => 0 <= i < s.len() && s[i] == c && forall|j: int| i < j < s.len() ==> s[j] != c,
            None => forall|j: int| 0 <= j < s.len() ==> s[j] != c,
        },
    decreases s.len(),
{
    if s.len() > 0 && s.last() != c {
        lemma_find_last_char(s.drop_last(), c);
        assert forall|j: int| 0 <= j < s.len() - 1 implies s[j] == s.drop_last()[j] by {}
    }
}

/// Where the character first stands.
pub fn char_position(v: &Vec<char>, c: char) -> (r: Option<usize>)
    ensures
        match r {
            Some(i) => find_char(v@, c) == Some(i as int) && i < v@.len(),
            None => find_char(v@, c) is None,
        },
{
    proof {
        lemma_find_char(v@, c);
    }
    for i in 0..v.len()
        invariant
            forall|j: int| 0 <= j < i ==> v@[j] != c,
    {
        if v[i] == c {
            proof {
                lemma_find_char(v@, c);
            }
            return Some(i);
        }
    }
    None
}

/// Where the character last stands.
pub fn last_char_position(v: &Vec<char>, c: char) -> (r: Option<usize>)
    ensures
        match r {
            Some(i) => find_last_char(v@, c) == Some(i as int) && i < v@.len(),
            None => find_last_char(v@, c) is None,
        },
{
    proof {
        lemma_find_last_char(v@, c);
    }
    let mut i: usize = v.len();
    while i > 0
        invariant
            i <= v@.len(),
            forall|j: int| i <= j < v@.len() ==> v@[j] != c,
        decreases i,
    {
        i -= 1;
        if v[i] == c {
            proof {
                lemma_find_last_char(v@, c);
            }
            return Some(i);
        }
    }
    None
}

/// The character of a digit.
pub open spec fn digit_char(d: nat) -> char {
    (('0' as u8) + d) as char
}

/// The number in decimal.
pub open spec fn decimal(n: nat) -> Seq<char>
    decreases n,
{
    if n < 10 {
        seq![digit_char(n)]
    } else {
        decimal(n / 10).push(digit_char(n % 10))
    }
}

/// The number in decimal.
pub fn decimal_text(n: usize) -> (r: String)
    ensures
        r@ == decimal(n as nat),
    decreases n,
{
    let mut out = if n < 10 {
        String::new()
    } else {
        decimal_text(n / 10)
    };
    let d: u8 = (n % 10) as u8;
    out.push((48u8 + d) as char);
    assert(n < 10 ==> out@ =~= seq![digit_char(n as nat)]);
    out
}

/// The texts with the separator between them.
pub open spec fn join(parts: Seq<Seq<char>>, sep: Seq<char>) -> Seq<char>
    decreases parts.len(),
{
    if parts.len() == 0 {
        Seq::empty()
    } else if parts.len() == 1 {
        parts[0]
    } else {
        join(parts.drop_last(), sep) + sep + parts.last()
    }
}

/// The texts with the separator between them.
pub fn join_texts(parts: &Vec<String>, sep: &str) -> (r: String)
    ensures
        r@ == join(texts(parts@), sep@),
{
    let mut out = String::new();
    for i in 0..parts.len()
        invariant
            out@ == join(texts(parts@).take(i as int), sep@),
    {
        let ghost before = out@;
        if i > 0 {
            out.append(sep);
        }
        out.append(parts[i].as_str());
        proof {
            let upto = texts(parts@).take(i + 1);
            assert(upto.drop_last() =~= texts(parts@).take(i as int));
            assert(upto.last() == parts@[i as int]@);
            if i == 0 {
                assert(before =~= Seq::<char>::empty());
                assert(out@ =~= upto[0]);
            }
        }
    }
    assert(texts(parts@).take(parts@.len() as int) =~= texts(parts@));
    out
}

/// The characters that count as white space.
pub open spec fn is_space(c: char) -> bool {
    let n = c as u32;
    (9 <= n <= 13) || n == 0x20 || n == 0x85 || n == 0xa0 || n == 0x1680 || (0x2000 <= n <= 0x200a) || n == 0x2028 || n == 0x2029 || n == 0x202f
        || n == 0x205f || n == 0x3000
}

/// Whether the character counts as white space.
pub fn space(c: char) -> (r: bool)
    ensures
        r == is_space(c),
{
    let n: u32 = c as u32;
    (9 <= n && n <= 13) || n == 0x20 || n == 0x85 || n == 0xa0 || n == 0x1680 || (0x2000 <= n && n <= 0x200a) || n == 0x2028 || n == 0x2029
        || n == 0x202f || n == 0x205f || n == 0x3000
}

/// The text without the white space at its end.
pub open spec fn trim_end(s: Seq<char>) -> Seq<char>
    decreases s.len(),
{
    if s.len() > 0 && is_space(s.last()) {
        trim_end(s.drop_last())
    } else {
        s
    }
}

/// The text without the white space at its start.
pub open spec fn trim_start(s: Seq<char>) -> Seq<char>
    decreases s.len(),
{
    if s.len() > 0 && is_space(s[0]) {
        trim_start(s.drop_first())
    } else {
        s
    }
}

/// The text without the white space at either end.
pub open spec fn trim(s: Seq<char>) -> Seq<char> {
    trim_start(trim_end(s))
}

/// The text without the white space at its end.
pub fn trim_end_text(s: &str) -> (r: &str)
    ensures
        r@ == trim_end(s@),
{
    let v = chars_of(s);
    let mut hi: usize = v.len();
    assert(s@.take(s@.len() as int) =~= s@);
    while hi > 0 && space(v[hi - 1])
        invariant
            v@ == s@,
            hi <= v@.len(),
            trim_end(s@) == trim_end(s@.take(hi as int)),
        decreases hi,
    {
        hi -= 1;
        assert(s@.take(hi + 1).drop_last() =~= s@.take(hi as int));
    }
    let r = s.substring_char(0, hi);
    assert(r@ =~= s@.take(hi as int));
    r
}

/// The text without the white space at either end.
pub fn trim_text(s: &str) -> (r: &str)
    ensures
        r@ == trim(s@),
{
    let t = trim_end_text(s);
    let v = chars_of(t);
    let n: usize = v.len();
    let mut lo: usize = 0;
    assert(t@.skip(0) =~= t@);
    while lo < n && space(v[lo])
        invariant
            v@ == t@,
            n == v@.len(),
            lo <= n,
            trim_start(t@) == trim_start(t@.skip(lo as int)),
        decreases n - lo,
    {
        assert(t@.skip(lo as int).drop_first() =~= t@.skip(lo + 1));
        lo += 1;
    }
    let r = t.substring_char(lo, n);
    assert(r@ =~= t@.skip(lo as int));
    r
}

/// Whether the text is white space only.
pub fn is_blank(s: &str) -> (r: bool)
    ensures
        r == (trim(s@).len() == 0),
{
    chars_of(trim_text(s)).len() == 0
}

/// The line without the carriage return that ends it.
pub open spec fn strip_return(line: Seq<char>) -> Seq<char> {
    if line.len() > 0 && line.last() == '\r' {
        line.drop_last()
    } else {
        line
    }
}

/// The lines of the text, without what ends them; an empty rest is no line.
pub open spec fn lines(s: Seq<char>) -> Seq<Seq<char>> {
    let parts = split(s, '\n');
    let ended = parts.drop_last().map_values(|p: Seq<char>| strip_return(p));
    if parts.last().len() == 0 {
        ended
    } else {
        ended.push(parts.last())
    }
}

/// The lines of the text.
pub fn lines_of(s: &str) -> (r: Vec<String>)
    ensures
        texts(r@) == lines(s@),
{
    let parts = split_text(s, '\n');
    let ghost pv = texts(parts@);
    proof {
        lemma_split_nonempty(s@, '\n');
    }
    let last: usize = parts.len() - 1;
    let mut out: Vec<String> = Vec::new();
    for i in 0..last
        invariant
            pv == texts(parts@),
            last + 1 == pv.len(),
            out@.len() == i,
            forall|k: int| 0 <= k < i ==> (#[trigger] out@[k])@ == strip_return(pv[k]),
    {
        let v = chars_of(parts[i].as_str());
        let n: usize = v.len();
        if n > 0 && v[n - 1] == '\r' {
            let line = string_of(&v, 0, n - 1);
            assert(line@ =~= v@.drop_last());
            out.push(line);
        } else {
            out.push(parts[i].clone());
        }
    }
    let ghost ended = pv.drop_last().map_values(|p: Seq<char>| strip_return(p));
    assert(texts(out@) =~= ended);
    let rest = chars_of(parts[last].as_str());
    if rest.len() > 0 {
        out.push(parts[last].clone());
        assert(texts(out@) =~= ended.push(pv.last()));
    }
    out
}

/// The pieces of the text between single characters of white space.
pub open spec fn pieces(s: Seq<char>) -> Seq<Seq<char>>
    decreases s.len(),
{
    if s.len() == 0 {
        seq![Seq::empty()]
    } else {
        let rest = pieces(s.drop_last());
        if is_space(s.last()) {
            rest.push(Seq::empty())
        } else {
            rest.drop_last().push(rest.last().push(s.last()))
        }
    }
}

/// The texts that are not empty.
pub open spec fn nonempty(v: Seq<Seq<char>>) -> Seq<Seq<char>>
    decreases v.len(),
{
    if v.len() == 0 {
        Seq::empty()
    } else if v.last().len() == 0 {
        nonempty(v.drop_last())
    } else {
        nonempty(v.drop_last()).push(v.last())
    }
}

/// The words of the text.
pub open spec fn words(s: Seq<char>) -> Seq<Seq<char>> {
    nonempty(pieces(s))
}

/// The words of the text.
pub fn words_of(s: &str) -> (r: Vec<String>)
    ensures
        texts(r@) == words(s@),
{
    let mut out: Vec<String> = Vec::new();
    let mut cur = String::new();
    let mut open = false;
    let ghost mut done: Seq<Seq<char>> = Seq::empty();
    for c in it: s.chars()
        invariant
            it.seq() == s@,
            done.push(cur@) == pieces(s@.take(it.index() as int)),
            texts(out@) == nonempty(done),
            open == (cur@.len() > 0),
    {
        let ghost i = it.index() as int;
        let ghost before = texts(out@);
        let ghost old_cur = cur@;
        let ghost old_done = done;
        proof {
            assert(s@.take(i + 1).drop_last() =~= s@.take(i));
            assert(done.push(old_cur).drop_last() =~= done);
        }
        if space(c) {
            if open {
                out.push(cur);
                assert(texts(out@) =~= before.push(old_cur));
            }
            cur = String::new();
            open = false;
            proof {
                done = done.push(old_cur);
                assert(done.drop_last() =~= old_done);
                assert(cur@ =~= Seq::<char>::empty());
            }
        } else {
            cur.push(c);
            open = true;
        }
    }
    assert(s@.take(s@.len() as int) =~= s@);
    let ghost before = texts(out@);
    let ghost last = cur@;
    if open {
        out.push(cur);
        assert(texts(out@) =~= before.push(last));
    }
    assert(done.push(last).drop_last() =~= done);
    out
}

/// `p` stands in `s` at `i`, and nowhere before.
pub open spec fn is_first_at(s: Seq<char>, p: Seq<char>, i: int) -> bool {
    stands_at(s, p, i) && forall|j: int| 0 <= j < i ==> !#[trigger] stands_at(s, p, j)
}

/// The characters are the same, whatever the case of an ASCII letter.
pub open spec fn alike(a: char, b: char) -> bool {
    ||| a == b
    ||| 'A' <= a <= 'Z' && b as int == a as int + 32
    ||| 'A' <= b <= 'Z' && a as int == b as int + 32
}

/// The text begins so, whatever the case of ASCII letters.
pub open spec fn starts_like(s: Seq<char>, p: Seq<char>) -> bool {
    p.len() <= s.len() && forall|k: int| 0 <= k < p.len() ==> alike(#[trigger] s[k], p[k])
}

/// The text ends so, whatever the case of ASCII letters.
pub open spec fn ends_like(s: Seq<char>, p: Seq<char>) -> bool {
    p.len() <= s.len() && forall|k: int| 0 <= k < p.len() ==> alike(#[trigger] s[s.len() - p.len() + k], p[k])
}

/// The texts are the same, whatever the case of ASCII letters.
pub open spec fn reads_like(s: Seq<char>, p: Seq<char>) -> bool {
    s.len() == p.len() && forall|k: int| 0 <= k < p.len() ==> alike(#[trigger] s[k], p[k])
}

/// The text has no capital ASCII letter.
pub open spec fn is_small(p: Seq<char>) -> bool {
    forall|k: int| 0 <= k < p.len() ==> !('A' <= #[trigger] p[k] <= 'Z')
}

proof fn lemma_small_char(a: char, b: char)
    requires
        !('A' <= b <= 'Z'),
    ensures
        lower_char(a) == b <==> alike(a, b),
{
    if 'A' <= a <= 'Z' {
        let n: u8 = a as u8;
        assert(n as int == a as int);
        assert((n + 32) as char as int == a as int + 32);
    }
}

/// In small letters texts are compared whatever the case of their letters.
pub proof fn small_letters_forget_case(s: Seq<char>, p: Seq<char>)
    requires
        is_small(p),
    ensures
        begins_with(lower(s), p) <==> starts_like(s, p),
        finishes_with(lower(s), p) <==> ends_like(s, p),
        lower(s) == p <==> reads_like(s, p),
{
    let l = lower(s);
    let d = s.len() - p.len();
    assert forall|k: int, j: int| 0 <= k < s.len() && 0 <= j < p.len() implies (#[trigger] l[k] == #[trigger] p[j] <==> alike(s[k], p[j])) by {
        lemma_small_char(s[k], p[j]);
    }
    if begins_with(l, p) {
        assert forall|k: int| 0 <= k < p.len() implies alike(#[trigger] s[k], p[k]) by {
            assert(l.take(p.len() as int)[k] == l[k]);
        }
    }
    if starts_like(s, p) {
        assert forall|k: int| 0 <= k < p.len() implies l.take(p.len() as int)[k] == p[k] by {
            assert(alike(s[k], p[k]));
            assert(l[k] == p[k]);
        }
        assert(l.take(p.len() as int) =~= p);
    }
    if finishes_with(l, p) {
        assert forall|k: int| 0 <= k < p.len() implies alike(#[trigger] s[d + k], p[k]) by {
            assert(l.skip(d)[k] == l[d + k]);
        }
    }
    if ends_like(s, p) {
        assert forall|k: int| 0 <= k < p.len() implies l.skip(d)[k] == p[k] by {
            assert(alike(s[d + k], p[k]));
            assert(l[d + k] == p[k]);
        }
        assert(l.skip(d) =~= p);
    }
    if l == p {
        assert forall|k: int| 0 <= k < p.len() implies alike(#[trigger] s[k], p[k]) by {
            assert(l[k] == p[k]);
        }
    }
    if reads_like(s, p) {
        assert forall|k: int| 0 <= k < p.len() implies l[k] == p[k] by {
            assert(alike(s[k], p[k]));
        }
        assert(l =~= p);
    }
}

/// What a text begins with is what it is made of with something behind.
pub proof fn beginnings_are_followed(s: Seq<char>, p: Seq<char>)
    ensures
        begins_with(s, p) <==> exists|rest: Seq<char>| s == #[trigger] (p + rest),
        finishes_with(s, p) <==> exists|first: Seq<char>| s == #[trigger] (first + p),
        forall|i: int| #[trigger] stands_at(s, p, i) <==> exists|first: Seq<char>, rest: Seq<char>| first.len() == i && s == #[trigger] (first + p + rest),
{
    if begins_with(s, p) {
        assert(s =~= p + s.skip(p.len() as int));
    }
    if exists|rest: Seq<char>| s == #[trigger] (p + rest) {
        let rest = choose|rest: Seq<char>| s == #[trigger] (p + rest);
        assert((p + rest).take(p.len() as int) =~= p);
    }
    if finishes_with(s, p) {
        assert(s =~= s.take(s.len() - p.len()) + p);
    }
    if exists|first: Seq<char>| s == #[trigger] (first + p) {
        let first = choose|first: Seq<char>| s == #[trigger] (first + p);
        assert((first + p).skip(first.len() as int) =~= p);
    }
    assert forall|i: int| #[trigger] stands_at(s, p, i) <==> exists|first: Seq<char>, rest: Seq<char>| first.len() == i && s == #[trigger] (first + p + rest) by {
        if stands_at(s, p, i) {
            assert(s =~= s.take(i) + p + s.skip(i + p.len()));
        }
        if exists|first: Seq<char>, rest: Seq<char>| first.len() == i && s == #[trigger] (first + p + rest) {
            let (first, rest) = choose|first: Seq<char>, rest: Seq<char>| first.len() == i && s == #[trigger] (first + p + rest);
            assert((first + p + rest).subrange(i, i + p.len()) =~= p);
        }
    }
}

/// The pieces of a text hold no separator, and with the separators between
/// them they are the text again.
pub proof fn pieces_make_up_the_text(s: Seq<char>, sep: char)
    ensures
        join(split(s, sep), seq![sep]) == s,
        split(s, sep).len() > 0,
        forall|i: int| 0 <= i < split(s, sep).len() ==> !(#[trigger] split(s, sep)[i]).contains(sep),
    decreases s.len(),
{
    let parts = split(s, sep);
    if s.len() == 0 {
        assert(join(parts, seq![sep]) =~= s);
        assert forall|i: int| 0 <= i < parts.len() implies !(#[trigger] parts[i]).contains(sep) by {}
    } else {
        pieces_make_up_the_text(s.drop_last(), sep);
        let rest = split(s.drop_last(), sep);
        assert(s =~= s.drop_last().push(s.last()));
        if s.last() == sep {
            assert(parts.drop_last() =~= rest);
            assert(join(parts, seq![sep]) =~= s);
        } else {
            assert(parts.drop_last() =~= rest.drop_last());
            assert(join(parts, seq![sep]) =~= s);
        }
        assert forall|i: int| 0 <= i < parts.len() implies !(#[trigger] parts[i]).contains(sep) by {
            if i < rest.len() {
                assert(!rest[i].contains(sep));
                if i == rest.len() - 1 && s.last() != sep {
                    assert(parts[i] == rest[i].push(s.last()));
                    if parts[i].contains(sep) {
                        let k = choose|k: int| 0 <= k < parts[i].len() && parts[i][k] == sep;
                        assert(rest[i][k] == sep);
                    }
                } else {
                    assert(parts[i] == rest[i]);
                }
            }
        }
    }
}

/// White space at either end is left out of a text, and nothing else.
pub proof fn trimming_leaves_out_white_space(s: Seq<char>)
    ensures
        exists|a: Seq<char>, b: Seq<char>| s == #[trigger] (a + trim(s) + b) && (forall|k: int| 0 <= k < a.len() ==> is_space(#[trigger] a[k])) && (forall|k: int|
            0 <= k < b.len() ==> is_space(#[trigger] b[k])),
        trim(s).len() > 0 ==> !is_space(trim(s)[0]) && !is_space(trim(s).last()),
        exists|b: Seq<char>| s == #[trigger] (trim_end(s) + b) && forall|k: int| 0 <= k < b.len() ==> is_space(#[trigger] b[k]),
        trim_end(s).len() > 0 ==> !is_space(trim_end(s).last()),
{
    lemma_trim_end_rest(s);
    let t = trim_end(s);
    lemma_trim_start_rest(t);
    let b = choose|b: Seq<char>| s == #[trigger] (t + b) && forall|k: int| 0 <= k < b.len() ==> is_space(#[trigger] b[k]);
    let a = choose|a: Seq<char>| t == #[trigger] (a + trim_start(t)) && forall|k: int| 0 <= k < a.len() ==> is_space(#[trigger] a[k]);
    assert(s == a + trim(s) + b);
    if trim(s).len() > 0 {
        assert(trim(s).last() == t.last());
    }
}

proof fn lemma_trim_end_rest(s: Seq<char>)
    ensures
        exists|b: Seq<char>| s == #[trigger] (trim_end(s) + b) && forall|k: int| 0 <= k < b.len() ==> is_space(#[trigger] b[k]),
        trim_end(s).len() > 0 ==> !is_space(trim_end(s).last()),
    decreases s.len(),
{
    if s.len() > 0 && is_space(s.last()) {
        lemma_trim_end_rest(s.drop_last());
        let b = choose|b: Seq<char>| s.drop_last() == #[trigger] (trim_end(s.drop_last()) + b) && forall|k: int| 0 <= k < b.len() ==> is_space(#[trigger] b[k]);
        let c = b.push(s.last());
        assert(trim_end(s) + c =~= (trim_end(s.drop_last()) + b).push(s.last()));
        assert(s =~= s.drop_last().push(s.last()));
        assert(s == trim_end(s) + c);
        assert forall|k: int| 0 <= k < c.len() implies is_space(#[trigger] c[k]) by {
            if k < b.len() {
                assert(is_space(b[k]));
            }
        }
    } else {
        assert(s =~= trim_end(s) + Seq::<char>::empty());
    }
}

proof fn lemma_trim_start_rest(s: Seq<char>)
    ensures
        exists|a: Seq<char>| s == #[trigger] (a + trim_start(s)) && forall|k: int| 0 <= k < a.len() ==> is_space(#[trigger] a[k]),
        trim_start(s).len() > 0 ==> !is_space(trim_start(s)[0]) && trim_start(s).last() == s.last(),
    decreases s.len(),
{
    if s.len() > 0 && is_space(s[0]) {
        lemma_trim_start_rest(s.drop_first());
        let a = choose|a: Seq<char>| s.drop_first() == #[trigger] (a + trim_start(s.drop_first())) && forall|k: int| 0 <= k < a.len() ==> is_space(#[trigger] a[k]);
        let c = seq![s[0]] + a;
        assert(c + trim_start(s) =~= seq![s[0]] + (a + trim_start(s.drop_first())));
        assert(s =~= seq![s[0]] + s.drop_first());
        assert(s == c + trim_start(s));
        assert forall|k: int| 0 <= k < c.len() implies is_space(#[trigger] c[k]) by {
            if k > 0 {
                assert(is_space(a[k - 1]));
            }
        }
    } else {
        assert(s =~= Seq::<char>::empty() + trim_start(s));
    }
}

/// Of two texts the one comes first that has the smaller character in the
/// first place where they differ, or that ends there.
pub proof fn texts_are_ordered_by_the_first_difference(a: Seq<char>, b: Seq<char>)
    ensures
        lex_lt(a, b) <==> exists|k: int| {
            &&& 0 <= k <= a.len()
            &&& k < b.len()
            &&& #[trigger] a.take(k) == b.take(k)
            &&& k == a.len() || a[k] < b[k]
        },
    decreases a.len(),
{
    if a.len() > 0 && b.len() > 0 {
        let (x, y) = (a.drop_first(), b.drop_first());
        texts_are_ordered_by_the_first_difference(x, y);
        if a[0] == b[0] {
            if lex_lt(x, y) {
                let k = choose|k: int| {
                    &&& 0 <= k <= x.len()
                    &&& k < y.len()
                    &&& #[trigger] x.take(k) == y.take(k)
                    &&& k == x.len() || x[k] < y[k]
                };
                assert(a.take(k + 1) =~= seq![a[0]] + x.take(k));
                assert(b.take(k + 1) =~= seq![b[0]] + y.take(k));
                assert(a.take(k + 1) == b.take(k + 1));
            }
        } else {
            assert(a.take(0) =~= b.take(0));
        }
        if exists|k: int| 0 <= k <= a.len() && k < b.len() && #[trigger] a.take(k) == b.take(k) && (k == a.len() || a[k] < b[k]) {
            let k = choose|k: int| 0 <= k <= a.len() && k < b.len() && #[trigger] a.take(k) == b.take(k) && (k == a.len() || a[k] < b[k]);
            if k > 0 {
                assert(a.take(k)[0] == b.take(k)[0]);
                assert(x.take(k - 1) =~= a.take(k).drop_first());
                assert(y.take(k - 1) =~= b.take(k).drop_first());
                assert(x.take(k - 1) == y.take(k - 1));
            }
        }
    } else {
        assert(a.take(0) =~= b.take(0));
    }
}

/// How often the separator is in the text.
pub open spec fn separators(s: Seq<char>, sep: char) -> nat
    decreases s.len(),
{
    if s.len() == 0 {
        0
    } else {
        separators(s.drop_last(), sep) + if s.last() == sep {
            1nat
        } else {
            0nat
        }
    }
}

proof fn lemma_separators(a: Seq<char>, b: Seq<char>, sep: char)
    ensures
        separators(a + b, sep) == separators(a, sep) + separators(b, sep),
        b.contains(sep) <==> separators(b, sep) > 0,
    decreases b.len(),
{
    if b.len() == 0 {
        assert(a + b =~= a);
    } else {
        lemma_separators(a, b.drop_last(), sep);
        assert((a + b).drop_last() =~= a + b.drop_last());
        if b.contains(sep) && b.last() != sep {
            let k = choose|k: int| 0 <= k < b.len() && b[k] == sep;
            assert(b.drop_last()[k] == sep);
        }
        if b.drop_last().contains(sep) {
            let k = choose|k: int| 0 <= k < b.len() - 1 && b.drop_last()[k] == sep;
            assert(b[k] == sep);
        }
    }
}

pub proof fn lemma_split_count(s: Seq<char>, sep: char)
    ensures
        split(s, sep).len() == separators(s, sep) + 1,
    decreases s.len(),
{
    if s.len() > 0 {
        lemma_split_count(s.drop_last(), sep);
    }
}

/// The part stands between `a` and `b` in the text, cut off on both sides by a
/// separator or by the end of the text, and holds none.
pub open spec fn is_cut_off(s: Seq<char>, sep: char, a: Seq<char>, part: Seq<char>, b: Seq<char>) -> bool {
    &&& s == a + part + b
    &&& !part.contains(sep)
    &&& a.len() == 0 || a.last() == sep
    &&& b.len() == 0 || b[0] == sep
}

/// Whatever is cut off by separators is a piece of the text, in the place that
/// the separators before it give it.
pub proof fn what_is_cut_off_is_a_piece(s: Seq<char>, sep: char, a: Seq<char>, part: Seq<char>, b: Seq<char>)
    requires
        is_cut_off(s, sep, a, part, b),
    ensures
        separators(a, sep) < split(s, sep).len(),
        split(s, sep)[separators(a, sep) as int] == part,
    decreases b.len(), part.len(),
{
    lemma_split_count(s, sep);
    lemma_separators(a, part + b, sep);
    lemma_separators(part, b, sep);
    lemma_separators(Seq::empty(), part, sep);
    assert(a + part + b =~= a + (part + b));
    if b.len() > 0 {
        let c = b.drop_last();
        assert(s.drop_last() =~= a + part + c);
        what_is_cut_off_is_a_piece(s.drop_last(), sep, a, part, c);
        lemma_split_count(s.drop_last(), sep);
        lemma_separators(a, part + c, sep);
        lemma_separators(part, c, sep);
        assert(a + part + c =~= a + (part + c));
        if b.last() != sep {
            assert(c[0] == sep);
            assert(c.contains(sep));
            lemma_separators(Seq::empty(), c, sep);
        }
    } else if part.len() > 0 {
        let head = part.drop_last();
        assert(s.drop_last() =~= a + head + b);
        assert(!head.contains(sep)) by {
            if head.contains(sep) {
                let k = choose|k: int| 0 <= k < head.len() && head[k] == sep;
                assert(part[k] == sep);
            }
        }
        assert(part.last() != sep) by {
            if part.last() == sep {
                assert(part[part.len() - 1] == sep);
            }
        }
        what_is_cut_off_is_a_piece(s.drop_last(), sep, a, head, b);
        lemma_split_count(s.drop_last(), sep);
        lemma_separators(a, head, sep);
        lemma_separators(Seq::empty(), head, sep);
        assert(s.drop_last() =~= a + head);
        assert(part =~= head.push(part.last()));
    } else {
        assert(s =~= a);
        if s.len() > 0 {
            lemma_split_count(s.drop_last(), sep);
        }
        assert(part =~= Seq::empty());
    }
}

/// Every piece of the text is cut off by separators; the first has nothing
/// before it, and the last nothing behind it.
pub proof fn pieces_are_cut_off(s: Seq<char>, sep: char, i: int) -> (r: (Seq<char>, Seq<char>))
    requires
        0 <= i < split(s, sep).len(),
    ensures
        is_cut_off(s, sep, r.0, split(s, sep)[i], r.1),
        r.0.len() == 0 <==> i == 0,
        r.1.len() == 0 <==> i == split(s, sep).len() - 1,
    decreases s.len(),
{
    let all = split(s, sep);
    pieces_make_up_the_text(s, sep);
    if s.len() == 0 {
        assert(s =~= Seq::<char>::empty() + all[i] + Seq::empty());
        (Seq::empty(), Seq::empty())
    } else {
        let rest = split(s.drop_last(), sep);
        lemma_split_nonempty(s.drop_last(), sep);
        assert(s =~= s.drop_last().push(s.last()));
        if i == rest.len() {
            assert(s =~= s + all[i] + Seq::empty());
            (s, Seq::empty())
        } else {
            let (a, b) = pieces_are_cut_off(s.drop_last(), sep, i);
            if s.last() == sep || i < rest.len() - 1 {
                assert(s =~= a + all[i] + b.push(s.last()));
                (a, b.push(s.last()))
            } else {
                assert(s =~= a + all[i] + b);
                (a, b)
            }
        }
    }
}

/// Every piece between white space is cut off by it or by an end of the text,
/// and holds none.
proof fn lemma_piece_cut_off(s: Seq<char>, i: int) -> (r: (Seq<char>, Seq<char>))
    requires
        0 <= i < pieces(s).len(),
    ensures
        s == r.0 + pieces(s)[i] + r.1,
        r.0.len() > 0 ==> is_space(r.0.last()),
        r.1.len() > 0 ==> is_space(r.1[0]),
        r.1.len() == 0 <==> i == pieces(s).len() - 1,
        forall|k: int| 0 <= k < pieces(s)[i].len() ==> !is_space(#[trigger] pieces(s)[i][k]),
        pieces(s).len() > 0,
    decreases s.len(),
{
    let all = pieces(s);
    if s.len() == 0 {
        assert(s =~= Seq::<char>::empty() + all[i] + Seq::empty());
        (Seq::empty(), Seq::empty())
    } else {
        let rest = pieces(s.drop_last());
        lemma_pieces_some(s.drop_last());
        assert(s =~= s.drop_last().push(s.last()));
        if i == rest.len() {
            assert(s =~= s + all[i] + Seq::empty());
            (s, Seq::empty())
        } else {
            let (a, b) = lemma_piece_cut_off(s.drop_last(), i);
            if is_space(s.last()) || i < rest.len() - 1 {
                assert(s =~= a + all[i] + b.push(s.last()));
                (a, b.push(s.last()))
            } else {
                assert(s =~= a + all[i] + b);
                (a, b)
            }
        }
    }
}

proof fn lemma_pieces_some(s: Seq<char>)
    ensures
        pieces(s).len() > 0,
    decreases s.len(),
{
    if s.len() > 0 {
        lemma_pieces_some(s.drop_last());
    }
}

proof fn lemma_nonempty_holds(v: Seq<Seq<char>>, x: Seq<char>)
    ensures
        nonempty(v).contains(x) <==> v.contains(x) && x.len() > 0,
    decreases v.len(),
{
    if v.len() > 0 {
        let (rest, all) = (nonempty(v.drop_last()), nonempty(v));
        lemma_nonempty_holds(v.drop_last(), x);
        if v.drop_last().contains(x) {
            let k = choose|k: int| 0 <= k < v.len() - 1 && v.drop_last()[k] == x;
            assert(v[k] == x);
        }
        if v.contains(x) {
            let k = choose|k: int| 0 <= k < v.len() && v[k] == x;
            if k < v.len() - 1 {
                assert(v.drop_last()[k] == x);
            } else if x.len() > 0 {
                assert(all[rest.len() as int] == x);
            }
        }
        if rest.contains(x) {
            let k = choose|k: int| 0 <= k < rest.len() && rest[k] == x;
            assert(all[k] == x);
        }
        if all.contains(x) {
            let k = choose|k: int| 0 <= k < all.len() && all[k] == x;
            if k < rest.len() {
                assert(rest[k] == x);
                assert(rest.contains(x));
            } else {
                assert(v[v.len() - 1] == x);
            }
        }
    }
}

/// The texts one after the other.
pub open spec fn strung_together(v: Seq<Seq<char>>) -> Seq<char>
    decreases v.len(),
{
    if v.len() == 0 {
        Seq::empty()
    } else {
        strung_together(v.drop_last()) + v.last()
    }
}

proof fn lemma_strung(v: Seq<Seq<char>>)
    ensures
        strung_together(nonempty(v)) == strung_together(v),
    decreases v.len(),
{
    if v.len() > 0 {
        lemma_strung(v.drop_last());
        let rest = nonempty(v.drop_last());
        if v.last().len() == 0 {
            assert(strung_together(v) =~= strung_together(v.drop_last()));
        } else {
            assert(rest.push(v.last()).drop_last() =~= rest);
        }
    }
}

proof fn lemma_strung_pieces(s: Seq<char>)
    ensures
        strung_together(pieces(s)) == s.filter(|c: char| !is_space(c)),
    decreases s.len(),
{
    reveal(Seq::filter);
    let all = pieces(s);
    if s.len() == 0 {
        assert(all.drop_last().len() == 0);
        assert(strung_together(all.drop_last()) =~= Seq::empty());
        assert(strung_together(all) =~= s.filter(|c: char| !is_space(c)));
    } else {
        let rest = pieces(s.drop_last());
        lemma_pieces_some(s.drop_last());
        lemma_strung_pieces(s.drop_last());
        if is_space(s.last()) {
            assert(all.drop_last() =~= rest);
            assert(strung_together(all) =~= strung_together(rest));
        } else {
            assert(all.drop_last() =~= rest.drop_last());
            assert(strung_together(all) =~= strung_together(rest).push(s.last()));
        }
    }
}

/// The words of a text are what stands between its white space: each is cut
/// off by white space or an end of the text on both sides, none is empty or
/// holds any, and together they are the text without its white space.
pub proof fn words_stand_between_white_space(s: Seq<char>)
    ensures
        strung_together(words(s)) == s.filter(|c: char| !is_space(c)),
        forall|k: int| 0 <= k < words(s).len() ==> is_word_in(s, #[trigger] words(s)[k]),
{
    lemma_strung(pieces(s));
    lemma_strung_pieces(s);
    assert forall|k: int| 0 <= k < words(s).len() implies is_word_in(s, #[trigger] words(s)[k]) by {
        let w = words(s)[k];
        assert(words(s).contains(w));
        lemma_nonempty_holds(pieces(s), w);
        let i = choose|i: int| 0 <= i < pieces(s).len() && pieces(s)[i] == w;
        let (a, b) = lemma_piece_cut_off(s, i);
        assert(s == a + w + b);
    }
}

/// The word stands somewhere in the text with white space or nothing on either
/// side, is not empty and holds no white space.
pub open spec fn is_word_in(s: Seq<char>, word: Seq<char>) -> bool {
    &&& word.len() > 0
    &&& forall|k: int| 0 <= k < word.len() ==> !is_space(#[trigger] word[k])
    &&& exists|a: Seq<char>, b: Seq<char>| s == #[trigger] (a + word + b) && (a.len() > 0 ==> is_space(a.last())) && (b.len() > 0 ==> is_space(b[0]))
}

proof fn lemma_join_push(v: Seq<Seq<char>>, x: Seq<char>, sep: Seq<char>)
    ensures
        v.len() > 0 ==> join(v.push(x), sep) == join(v, sep) + sep + x,
        v.len() == 0 ==> join(v.push(x), sep) == x,
{
    assert(v.push(x).drop_last() =~= v);
}

/// A text without carriage returns is its lines with a line feed between them,
/// and perhaps one behind the last.
pub proof fn lines_make_up_the_text(s: Seq<char>)
    requires
        !s.contains('\r'),
    ensures
        s == join(lines(s), seq!['\n']) || s == join(lines(s), seq!['\n']).push('\n'),
        forall|i: int| 0 <= i < lines(s).len() ==> !(#[trigger] lines(s)[i]).contains('\n'),
{
    let parts = split(s, '\n');
    pieces_make_up_the_text(s, '\n');
    let ended = parts.drop_last().map_values(|p: Seq<char>| strip_return(p));
    assert forall|i: int| 0 <= i < parts.len() implies strip_return(#[trigger] parts[i]) == parts[i] by {
        let p = parts[i];
        if p.len() > 0 && p.last() == '\r' {
            let (a, b) = pieces_are_cut_off(s, '\n', i);
            assert(s[a.len() + p.len() - 1] == '\r');
        }
    }
    assert(ended =~= parts.drop_last());
    assert(parts =~= ended.push(parts.last()));
    lemma_join_push(ended, parts.last(), seq!['\n']);
    if parts.last().len() == 0 {
        if ended.len() > 0 {
            assert(s =~= join(ended, seq!['\n']).push('\n'));
        } else {
            assert(s =~= join(ended, seq!['\n']));
        }
    }
    assert forall|i: int| 0 <= i < lines(s).len() implies !(#[trigger] lines(s)[i]).contains('\n') by {
        assert(lines(s)[i] == parts[i]);
    }
}

}
