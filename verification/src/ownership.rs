//! Which type a method belongs to, read off the ids of both.

use vstd::prelude::*;
use crate::model::{Concept, ConceptKind};
use crate::text::{char_position, chars_of, last_char_position, same};
use crate::text::{find_char, find_last_char, lemma_find_char, lemma_find_last_char};

verus! {

/// The id without its first part, which names the kind; the whole id where it
/// has one part only.
pub open spec fn id_path(id: Seq<char>) -> Seq<char> {
    match find_char(id, '/') {
        Some(i) => id.skip(i + 1),
        None => id,
    }
}

/// The path without its last part, where it has two or more.
pub open spec fn owner_of(id: Seq<char>) -> Option<Seq<char>> {
    match find_last_char(id_path(id), '/') {
        Some(i) => Some(id_path(id).take(i)),
        None => None,
    }
}

/// A type that methods can belong to.
pub open spec fn type_kind(kind: ConceptKind) -> bool {
    kind == ConceptKind::Struct || kind == ConceptKind::Class || kind == ConceptKind::Interface || kind == ConceptKind::Trait
}

/// The concept at `i` is a method that belongs to this path.
pub open spec fn is_method_of(cs: Seq<Concept>, path: Seq<char>, i: int) -> bool {
    cs[i].kind == ConceptKind::Method && owner_of(cs[i].id@) == Some(path)
}

/// The positions below `n` of the methods that belong to this path.
pub open spec fn methods_at(cs: Seq<Concept>, path: Seq<char>, n: nat) -> Seq<int>
    decreases n,
{
    if n == 0 {
        Seq::empty()
    } else if is_method_of(cs, path, n - 1) {
        methods_at(cs, path, (n - 1) as nat).push(n - 1)
    } else {
        methods_at(cs, path, (n - 1) as nat)
    }
}

/// The id without its first part.
pub fn path_after_kind_dir(id: &str) -> (r: &str)
    ensures
        r@ == id_path(id@),
{
    let v = chars_of(id);
    match char_position(&v, '/') {
        Some(i) => {
            let r = id.substring_char(i + 1, v.len());
            assert(id@.subrange(i + 1, id@.len() as int) =~= id@.skip(i + 1));
            r
        },
        None => id,
    }
}

/// The path of the type that the method with this id belongs to.
pub fn owner_path(method_id: &str) -> (r: Option<&str>)
    ensures
        match r {
            Some(p) => owner_of(method_id@) == Some(p@),
            None => owner_of(method_id@) is None,
        },
{
    let path = path_after_kind_dir(method_id);
    let v = chars_of(path);
    match last_char_position(&v, '/') {
        Some(i) => {
            let r = path.substring_char(0, i);
            assert(path@.subrange(0, i as int) =~= path@.take(i as int));
            Some(r)
        },
        None => None,
    }
}

/// Whether methods can belong to a concept of this kind.
pub fn is_type_kind(kind: ConceptKind) -> (r: bool)
    ensures
        r == type_kind(kind),
{
    matches!(kind, ConceptKind::Struct | ConceptKind::Class | ConceptKind::Interface | ConceptKind::Trait)
}

/// A method and the path of the type that it belongs to.
pub struct OwnedMethod<'a> {
    pub owner: &'a str,
    pub position: usize,
    pub method: &'a Concept,
}

/// The methods that belong to a type, in order.
pub open spec fn lists_methods(cs: Seq<Concept>, owned: Seq<OwnedMethod>, n: int) -> bool {
    &&& forall|k: int| 0 <= k < owned.len() ==> (#[trigger] owned[k]).position < n && *owned[k].method == cs[owned[k].position as int]
        && is_method_of(cs, owned[k].owner@, owned[k].position as int)
    &&& forall|k: int, l: int| 0 <= k < l < owned.len() ==> (#[trigger] owned[k]).position < (#[trigger] owned[l]).position
    &&& forall|i: int, path: Seq<char>| 0 <= i < n && #[trigger] is_method_of(cs, path, i) ==> owned_at(owned, i)
}

/// The method at position `i` is in the list.
pub open spec fn owned_at(owned: Seq<OwnedMethod>, i: int) -> bool {
    exists|k: int| 0 <= k < owned.len() && (#[trigger] owned[k]).position == i
}

/// Every method that belongs to a type, with the type's path.
pub fn group_methods_by_owner<'a>(concepts: &'a [Concept]) -> (r: Vec<OwnedMethod<'a>>)
    ensures
        lists_methods(concepts@, r@, concepts@.len() as int),
{
    let ghost cs = concepts@;
    let mut out: Vec<OwnedMethod<'a>> = Vec::new();
    for i in 0..concepts.len()
        invariant
            cs == concepts@,
            lists_methods(cs, out@, i as int),
    {
        let c: &'a Concept = &concepts[i];
        let ghost before = out@;
        if c.kind == ConceptKind::Method {
            if let Some(owner) = owner_path(c.id.as_str()) {
                out.push(OwnedMethod { owner, position: i, method: c });
                assert(out@[before.len() as int].position == i);
            }
        }
        proof {
            assert forall|j: int, path: Seq<char>| 0 <= j < i + 1 && #[trigger] is_method_of(cs, path, j) implies owned_at(out@, j) by {
                if j < i {
                    assert(owned_at(before, j));
                    let k = choose|k: int| 0 <= k < before.len() && (#[trigger] before[k]).position == j;
                    assert(out@[k].position == j);
                }
            }
        }
    }
    out
}

/// `found` are the methods at these positions.
pub open spec fn are_methods(found: Seq<&Concept>, cs: Seq<Concept>, at: Seq<int>) -> bool {
    found.len() == at.len() && forall|k: int| 0 <= k < at.len() ==> *(#[trigger] found[k]) == cs[at[k]]
}

proof fn lemma_methods_skip(cs: Seq<Concept>, path: Seq<char>, lo: nat, hi: nat)
    requires
        lo <= hi,
        forall|i: int| lo <= i < hi ==> !(#[trigger] is_method_of(cs, path, i)),
    ensures
        methods_at(cs, path, hi) == methods_at(cs, path, lo),
    decreases hi - lo,
{
    if lo < hi {
        lemma_methods_skip(cs, path, lo, (hi - 1) as nat);
        assert(!is_method_of(cs, path, hi - 1));
    }
}

/// The methods that belong to this path.
pub fn methods_of<'a>(concepts: &'a [Concept], owned: &Vec<OwnedMethod<'a>>, path: &str) -> (r: Vec<&'a Concept>)
    requires
        lists_methods(concepts@, owned@, concepts@.len() as int),
    ensures
        are_methods(r@, concepts@, methods_at(concepts@, path@, concepts@.len())),
{
    let ghost cs = concepts@;
    let mut out: Vec<&'a Concept> = Vec::new();
    let ghost mut next: nat = 0;
    for k in 0..owned.len()
        invariant
            cs == concepts@,
            lists_methods(cs, owned@, cs.len() as int),
            next <= cs.len(),
            k > 0 ==> next == owned@[k - 1].position + 1,
            k == 0 ==> next == 0,
            are_methods(out@, cs, methods_at(cs, path@, next)),
    {
        let m = &owned[k];
        proof {
            let p = m.position as nat;
            assert(next <= p) by {
                if k > 0 {
                    assert(owned@[k - 1].position < owned@[k as int].position);
                }
            }
            assert forall|i: int| next <= i < p implies !(#[trigger] is_method_of(cs, path@, i)) by {
                if is_method_of(cs, path@, i) {
                    assert(owned_at(owned@, i));
                    let j = choose|j: int| 0 <= j < owned@.len() && (#[trigger] owned@[j]).position == i;
                    if j < k {
                        if j < k - 1 {
                            assert(owned@[j].position < owned@[k - 1].position);
                        }
                    } else if j > k {
                        assert(owned@[k as int].position < owned@[j].position);
                    }
                }
            }
            lemma_methods_skip(cs, path@, next, p);
        }
        if same(m.owner, path) {
            out.push(m.method);
        }
        proof {
            next = (m.position + 1) as nat;
        }
    }
    proof {
        assert forall|i: int| next <= i < cs.len() implies !(#[trigger] is_method_of(cs, path@, i)) by {
            if is_method_of(cs, path@, i) {
                assert(owned_at(owned@, i));
                let j = choose|j: int| 0 <= j < owned@.len() && (#[trigger] owned@[j]).position == i;
                if j < owned@.len() - 1 {
                    assert(owned@[j].position < owned@[owned@.len() - 1].position);
                }
            }
        }
        lemma_methods_skip(cs, path@, next, cs.len());
    }
    out
}

/// The text has no separator.
pub open spec fn is_one_part(s: Seq<char>) -> bool {
    forall|k: int| 0 <= k < s.len() ==> #[trigger] s[k] != '/'
}

/// The id is that of a type whose methods lie under this path: the path behind
/// one part that names a kind, or the path alone where it is one part.
pub open spec fn names_type(id: Seq<char>, path: Seq<char>) -> bool {
    ||| is_one_part(id) && id == path
    ||| exists|dir: Seq<char>| is_one_part(dir) && id == #[trigger] (dir + seq!['/'] + path)
}

/// The id is that of a method that lies under this path: one part before it,
/// and one part behind it.
pub open spec fn names_method(id: Seq<char>, path: Seq<char>) -> bool {
    exists|dir: Seq<char>, last: Seq<char>| is_one_part(dir) && is_one_part(last) && id == #[trigger] (dir + seq!['/'] + path + seq!['/'] + last)
}

/// The path of a type is what stands behind the first part of its id.
pub proof fn types_lie_behind_their_kind(id: Seq<char>, path: Seq<char>)
    ensures
        id_path(id) == path <==> names_type(id, path),
{
    lemma_find_char(id, '/');
    match find_char(id, '/') {
        Some(i) => {
            assert(id.take(i) + seq!['/'] + id.skip(i + 1) =~= id);
            assert forall|k: int| 0 <= k < id.take(i).len() implies #[trigger] id.take(i)[k] != '/' by {
                assert(id[k] != '/');
            }
            if names_type(id, path) {
                assert(id[i] == '/');
                let dir = choose|dir: Seq<char>| is_one_part(dir) && id == #[trigger] (dir + seq!['/'] + path);
                assert(id[dir.len() as int] == '/');
                if dir.len() > i {
                    assert(dir[i] == id[i]);
                }
                assert(id.skip(i + 1) =~= path);
            }
        },
        None => {
            assert forall|k: int| 0 <= k < id.len() implies #[trigger] id[k] != '/' by {}
            if exists|dir: Seq<char>| is_one_part(dir) && id == #[trigger] (dir + seq!['/'] + path) {
                let dir = choose|dir: Seq<char>| is_one_part(dir) && id == #[trigger] (dir + seq!['/'] + path);
                assert(id[dir.len() as int] == '/');
            }
        },
    }
}

/// The path that a method belongs to is what stands between the first and the
/// last part of its id.
pub proof fn methods_lie_under_their_owner(id: Seq<char>, path: Seq<char>)
    ensures
        owner_of(id) == Some(path) <==> names_method(id, path),
{
    let rest = id_path(id);
    lemma_find_char(id, '/');
    lemma_find_last_char(rest, '/');
    if owner_of(id) == Some(path) {
        let j = find_last_char(rest, '/')->0;
        match find_char(id, '/') {
            Some(i) => {
                let (dir, last) = (id.take(i), rest.skip(j + 1));
                assert(id =~= dir + seq!['/'] + path + seq!['/'] + last) by {
                    assert(id =~= dir + seq!['/'] + rest);
                    assert(rest =~= path + seq!['/'] + last);
                }
                assert forall|k: int| 0 <= k < dir.len() implies #[trigger] dir[k] != '/' by {
                    assert(id[k] != '/');
                }
                assert forall|k: int| 0 <= k < last.len() implies #[trigger] last[k] != '/' by {
                    assert(rest[j + 1 + k] != '/');
                }
            },
            None => {
                assert(id[j] == '/');
            },
        }
    }
    if names_method(id, path) {
        let (dir, last) = choose|dir: Seq<char>, last: Seq<char>| is_one_part(dir) && is_one_part(last) && id == #[trigger] (dir + seq!['/'] + path + seq!['/'] + last);
        let tail = path + seq!['/'] + last;
        assert(id =~= dir + seq!['/'] + tail);
        types_lie_behind_their_kind(id, tail);
        assert(names_type(id, tail));
        assert(rest == tail);
        assert(rest[path.len() as int] == '/');
        let j = find_last_char(rest, '/')->0;
        if j > path.len() {
            assert(last[j - path.len() - 1] == rest[j]);
        }
        assert(rest.take(j) =~= path);
    }
}

/// A list of the positions below `n` that `keep` holds for, in order.
pub open spec fn lists_kept(at: Seq<int>, n: int, keep: spec_fn(int) -> bool) -> bool {
    &&& forall|k: int| 0 <= k < at.len() ==> 0 <= #[trigger] at[k] < n && keep(at[k])
    &&& forall|j: int, k: int| 0 <= j < k < at.len() ==> #[trigger] at[j] < #[trigger] at[k]
    &&& forall|i: int| 0 <= i < n && #[trigger] keep(i) ==> at.contains(i)
}

/// The concept at `j` is a method of the type at `i`: its id lies under the
/// path of the type.
pub open spec fn is_method_on(cs: Seq<Concept>, i: int, j: int) -> bool {
    &&& 0 <= j < cs.len()
    &&& cs[j].kind is Method
    &&& exists|path: Seq<char>| names_type(cs[i].id@, path) && #[trigger] names_method(cs[j].id@, path)
}

/// The methods of a type are the methods whose ids lie under its path, each
/// once and in order.
pub proof fn methods_are_found_by_their_ids(cs: Seq<Concept>, i: int, n: nat)
    requires
        n <= cs.len(),
    ensures
        lists_kept(methods_at(cs, id_path(cs[i].id@), n), n as int, |j: int| is_method_on(cs, i, j)),
    decreases n,
{
    let path = id_path(cs[i].id@);
    let keep = |j: int| is_method_on(cs, i, j);
    let at = methods_at(cs, path, n);
    if n > 0 {
        methods_are_found_by_their_ids(cs, i, (n - 1) as nat);
        let rest = methods_at(cs, path, (n - 1) as nat);
        types_lie_behind_their_kind(cs[i].id@, path);
        assert(is_method_of(cs, path, n - 1) <==> keep(n - 1)) by {
            methods_lie_under_their_owner(cs[n - 1].id@, path);
            if is_method_of(cs, path, n - 1) {
                assert(names_type(cs[i].id@, path) && names_method(cs[n - 1].id@, path));
            }
            if keep(n - 1) {
                let p = choose|p: Seq<char>| names_type(cs[i].id@, p) && #[trigger] names_method(cs[n - 1].id@, p);
                types_lie_behind_their_kind(cs[i].id@, p);
            }
        }
        assert forall|j: int| 0 <= j < n && #[trigger] keep(j) implies at.contains(j) by {
            if j < n - 1 {
                assert(rest.contains(j));
                let k = choose|k: int| 0 <= k < rest.len() && rest[k] == j;
                assert(at[k] == j);
            } else {
                assert(at[rest.len() as int] == j);
            }
        }
        assert forall|k: int| 0 <= k < at.len() implies 0 <= #[trigger] at[k] < n && keep(at[k]) by {
            if k < rest.len() {
                assert(at[k] == rest[k]);
            }
        }
        assert forall|j: int, k: int| 0 <= j < k < at.len() implies #[trigger] at[j] < #[trigger] at[k] by {
            assert(at[j] == rest[j]);
            if k < rest.len() {
                assert(at[k] == rest[k]);
            }
        }
    }
}

}
