//! A cache of what was read out of each source file, so that a file that has
//! not changed is not read again. An entry counts only while the hash of the
//! file's content is the one that it was stored under.

use vstd::prelude::*;
use std::collections::hash_map::DefaultHasher;
use std::hash::Hasher;
use vstd::std_specs::hash::DefaultHasherAdditionalSpecFns;
use vstd::string::StringSliceAdditionalSpecFns;
use crate::extraction::FileExtraction;
use crate::extraction::ExtractionView;
use crate::text::{same, text_lt};
use crate::text::{lemma_lex_irreflexive, lemma_lex_total, lemma_lex_transitive, lex_lt};

verus! {

/// What is stored for one file.
#[derive(Debug)]
pub struct CacheEntry {
    pub relative_path: String,
    pub content_hash: u64,
    pub extraction: FileExtraction,
}

/// What was read out of each file, by its path in the project.
#[derive(Debug)]
pub struct AnalysisCache {
    entries: Vec<CacheEntry>,
}

/// What a cache with this content answers for a file whose content has this
/// hash.
pub open spec fn looked_up(m: Map<Seq<char>, (u64, ExtractionView)>, path: Seq<char>, hash: u64) -> Option<ExtractionView> {
    if m.dom().contains(path) && m[path].0 == hash {
        Some(m[path].1)
    } else {
        None
    }
}

/// The first `n` entries, put in one after the other.
pub open spec fn stored(entries: Seq<CacheEntry>, n: nat) -> Map<Seq<char>, (u64, ExtractionView)>
    decreases n,
{
    if n == 0 {
        Map::empty()
    } else {
        let e = entries[n - 1];
        stored(entries, (n - 1) as nat).insert(e.relative_path@, (e.content_hash, e.extraction@))
    }
}

/// The paths ascend, and none occurs twice.
pub open spec fn ascending(entries: Seq<CacheEntry>) -> bool {
    forall|i: int, j: int| 0 <= i < j < entries.len() ==> lex_lt(#[trigger] entries[i].relative_path@, #[trigger] entries[j].relative_path@)
}

impl AnalysisCache {
    /// The paths of the entries ascend.
    pub closed spec fn wf(&self) -> bool {
        ascending(self.entries@)
    }

    /// What is stored for each path.
    pub closed spec fn view(&self) -> Map<Seq<char>, (u64, ExtractionView)> {
        stored(self.entries@, self.entries@.len())
    }

    /// A cache with nothing in it.
    pub fn new() -> (r: AnalysisCache)
        ensures
            r.wf(),
            r@ == Map::<Seq<char>, (u64, ExtractionView)>::empty(),
    {
        AnalysisCache { entries: Vec::new() }
    }

    /// Where the path is stored, or belongs.
    fn position(&self, path: &str) -> (r: usize)
        requires
            self.wf(),
        ensures
            r <= self.entries.len(),
            forall|k: int| 0 <= k < r ==> lex_lt(#[trigger] self.entries@[k].relative_path@, path@),
            forall|k: int| r <= k < self.entries.len() ==> !lex_lt(#[trigger] self.entries@[k].relative_path@, path@),
    {
        let mut lo: usize = 0;
        let mut hi: usize = self.entries.len();
        while lo < hi
            invariant
                self.wf(),
                lo <= hi <= self.entries.len(),
                forall|k: int| 0 <= k < lo ==> lex_lt(#[trigger] self.entries@[k].relative_path@, path@),
                forall|k: int| hi <= k < self.entries.len() ==> !lex_lt(#[trigger] self.entries@[k].relative_path@, path@),
            decreases hi - lo,
        {
            let mid: usize = lo + (hi - lo) / 2;
            if text_lt(self.entries[mid].relative_path.as_str(), path) {
                proof {
                    assert forall|k: int| 0 <= k <= mid implies lex_lt(#[trigger] self.entries@[k].relative_path@, path@) by {
                        if k < mid {
                            lemma_lex_transitive(self.entries@[k].relative_path@, self.entries@[mid as int].relative_path@, path@);
                        }
                    }
                }
                lo = mid + 1;
            } else {
                proof {
                    assert forall|k: int| mid <= k < self.entries.len() implies !lex_lt(#[trigger] self.entries@[k].relative_path@, path@) by {
                        if k > mid && lex_lt(self.entries@[k].relative_path@, path@) {
                            lemma_lex_transitive(self.entries@[mid as int].relative_path@, self.entries@[k].relative_path@, path@);
                        }
                    }
                }
                hi = mid;
            }
        }
        lo
    }

    /// What is stored for the file, where its content has not changed since.
    pub fn get(&self, relative_path: &str, content_hash: u64) -> (r: Option<FileExtraction>)
        requires
            self.wf(),
        ensures
            match r {
                Some(x) => looked_up(self@, relative_path@, content_hash) == Some(x@),
                None => looked_up(self@, relative_path@, content_hash) is None,
            },
    {
        let i = self.position(relative_path);
        if i < self.entries.len() && same(self.entries[i].relative_path.as_str(), relative_path) {
            proof {
                lemma_stored(self.entries@, i as int);
            }
            if self.entries[i].content_hash == content_hash {
                return Some(self.entries[i].extraction.clone());
            }
            return None;
        }
        proof {
            assert forall|k: int| 0 <= k < self.entries@.len() implies #[trigger] self.entries@[k].relative_path@ != relative_path@ by {
                lemma_lex_irreflexive(relative_path@);
                if k > i && self.entries@[k].relative_path@ == relative_path@ {
                    assert(lex_lt(self.entries@[i as int].relative_path@, self.entries@[k].relative_path@));
                }
            }
            lemma_unstored(self.entries@, self.entries@.len(), relative_path@);
        }
        None
    }

    /// Stores what the file holds under the hash of its content, in place of
    /// what was stored for it.
    pub fn insert(&mut self, relative_path: &str, content_hash: u64, extraction: FileExtraction)
        requires
            old(self).wf(),
        ensures
            final(self).wf(),
            final(self)@ == old(self)@.insert(relative_path@, (content_hash, extraction@)),
    {
        let i = self.position(relative_path);
        let ghost before = self.entries@;
        let ghost path = relative_path@;
        let entry = CacheEntry { relative_path: relative_path.to_owned(), content_hash, extraction };
        if i < self.entries.len() && same(self.entries[i].relative_path.as_str(), relative_path) {
            self.entries.set(i, entry);
            proof {
                assert(self.entries@ =~= before.update(i as int, entry));
                lemma_replaced(before, i as int, entry, before.len());
            }
        } else {
            self.entries.insert(i, entry);
            proof {
                assert(self.entries@ =~= before.insert(i as int, entry));
                let now = self.entries@;
                assert forall|k: int| i <= k < before.len() implies lex_lt(path, #[trigger] before[k].relative_path@) by {
                    lemma_lex_total(path, before[k].relative_path@);
                    if k > i && before[k].relative_path@ == path {
                        assert(lex_lt(before[i as int].relative_path@, before[k].relative_path@));
                    }
                }
                assert forall|a: int, b: int| 0 <= a < b < now.len() implies lex_lt(#[trigger] now[a].relative_path@, #[trigger] now[b].relative_path@) by {
                    let a0 = if a < i { a } else { a - 1 };
                    let b0 = if b < i { b } else { b - 1 };
                    if a != i {
                        assert(now[a] == before[a0]);
                    }
                    if b != i {
                        assert(now[b] == before[b0]);
                    }
                }
                lemma_lex_irreflexive(path);
                lemma_inserted(before, i as int, entry, before.len());
            }
        }
    }

    /// How many files have an entry.
    pub fn len(&self) -> (r: usize)
        requires
            self.wf(),
        ensures
            self@.dom().finite(),
            r == self@.dom().len(),
    {
        proof {
            lemma_size(self.entries@, self.entries@.len());
        }
        self.entries.len()
    }

    /// The entries, by ascending path.
    pub fn entries(&self) -> (r: &Vec<CacheEntry>)
        requires
            self.wf(),
        ensures
            ascending(r@),
            stored(r@, r@.len()) == self@,
    {
        &self.entries
    }

    /// The cache that was saved as these entries by the build with this
    /// version. One that another build wrote is not trusted: it counts as
    /// empty.
    pub fn restore(saved_version: &str, version: &str, entries: Vec<CacheEntry>) -> (r: AnalysisCache)
        ensures
            r.wf(),
            r@ == (if saved_version@ == version@ {
                stored(entries@, entries@.len())
            } else {
                Map::<Seq<char>, (u64, ExtractionView)>::empty()
            }),
    {
        let mut cache = AnalysisCache::new();
        if same(saved_version, version) {
            for i in 0..entries.len()
                invariant
                    cache.wf(),
                    cache@ == stored(entries@, i as nat),
            {
                cache.insert(entries[i].relative_path.as_str(), entries[i].content_hash, entries[i].extraction.clone());
            }
        }
        cache
    }
}

proof fn lemma_unstored(entries: Seq<CacheEntry>, n: nat, path: Seq<char>)
    requires
        n <= entries.len(),
        forall|k: int| 0 <= k < n ==> #[trigger] entries[k].relative_path@ != path,
    ensures
        !stored(entries, n).dom().contains(path),
    decreases n,
{
    if n > 0 {
        lemma_unstored(entries, (n - 1) as nat, path);
        assert(entries[n - 1].relative_path@ != path);
    }
}

proof fn lemma_stored(entries: Seq<CacheEntry>, i: int)
    requires
        0 <= i < entries.len(),
        ascending(entries),
    ensures
        stored(entries, entries.len()).dom().contains(entries[i].relative_path@),
        stored(entries, entries.len())[entries[i].relative_path@] == (entries[i].content_hash, entries[i].extraction@),
{
    lemma_stored_in(entries, i, entries.len());
}

proof fn lemma_stored_in(entries: Seq<CacheEntry>, i: int, n: nat)
    requires
        0 <= i < n <= entries.len(),
        ascending(entries),
    ensures
        stored(entries, n).dom().contains(entries[i].relative_path@),
        stored(entries, n)[entries[i].relative_path@] == (entries[i].content_hash, entries[i].extraction@),
    decreases n,
{
    if i < n - 1 {
        lemma_stored_in(entries, i, (n - 1) as nat);
        lemma_lex_irreflexive(entries[i].relative_path@);
        assert(lex_lt(entries[i].relative_path@, entries[n - 1].relative_path@));
    }
}

proof fn lemma_replaced(entries: Seq<CacheEntry>, i: int, entry: CacheEntry, n: nat)
    requires
        0 <= i < entries.len(),
        n <= entries.len(),
        ascending(entries),
        entry.relative_path@ == entries[i].relative_path@,
    ensures
        ascending(entries.update(i, entry)),
        i < n ==> stored(entries.update(i, entry), n) == stored(entries, n).insert(entry.relative_path@, (entry.content_hash, entry.extraction@)),
        i >= n ==> stored(entries.update(i, entry), n) == stored(entries, n),
    decreases n,
{
    let now = entries.update(i, entry);
    assert forall|a: int, b: int| 0 <= a < b < now.len() implies lex_lt(#[trigger] now[a].relative_path@, #[trigger] now[b].relative_path@) by {
        assert(lex_lt(entries[a].relative_path@, entries[b].relative_path@));
    }
    if n > 0 {
        lemma_replaced(entries, i, entry, (n - 1) as nat);
        if i < n - 1 {
            lemma_lex_irreflexive(entries[i].relative_path@);
            assert(lex_lt(entries[i].relative_path@, entries[n - 1].relative_path@));
        }
        assert(stored(now, n) =~= if i < n {
            stored(entries, n).insert(entry.relative_path@, (entry.content_hash, entry.extraction@))
        } else {
            stored(entries, n)
        });
    }
}

proof fn lemma_inserted(entries: Seq<CacheEntry>, i: int, entry: CacheEntry, n: nat)
    requires
        0 <= i <= entries.len(),
        n <= entries.len(),
        forall|k: int| 0 <= k < entries.len() ==> #[trigger] entries[k].relative_path@ != entry.relative_path@,
    ensures
        i <= n ==> stored(entries.insert(i, entry), n + 1) == stored(entries, n).insert(entry.relative_path@, (entry.content_hash, entry.extraction@)),
        i > n ==> stored(entries.insert(i, entry), n + 1) == stored(entries, n + 1),
        i >= n ==> stored(entries.insert(i, entry), n) == stored(entries, n),
    decreases n,
{
    let now = entries.insert(i, entry);
    if n > 0 {
        lemma_inserted(entries, i, entry, (n - 1) as nat);
        assert(entries[n - 1].relative_path@ != entry.relative_path@);
        if i < n {
            assert(now[n as int] == entries[n - 1]);
            assert(stored(now, n + 1) =~= stored(entries, n).insert(entry.relative_path@, (entry.content_hash, entry.extraction@)));
        } else if i == n {
            assert(now[n - 1] == entries[n - 1]);
            assert(now[n as int] == entry);
        } else {
            assert(now[n - 1] == entries[n - 1]);
            assert(now[n as int] == entries[n as int]);
        }
    } else {
        if i > 0 {
            assert(now[0] == entries[0]);
            assert(stored(now, 0) == stored(entries, 0));
            assert(stored(now, 1) == stored(entries, 1)) by {
                reveal_with_fuel(stored, 2);
            }
        } else {
            assert(now[0] == entry);
            assert(stored(now, 1) == stored(entries, 0).insert(entry.relative_path@, (entry.content_hash, entry.extraction@))) by {
                reveal_with_fuel(stored, 2);
            }
        }
    }
}

proof fn lemma_size(entries: Seq<CacheEntry>, n: nat)
    requires
        n <= entries.len(),
        ascending(entries),
    ensures
        stored(entries, n).dom().finite(),
        stored(entries, n).dom().len() == n,
    decreases n,
{
    if n > 0 {
        lemma_size(entries, (n - 1) as nat);
        let path = entries[n - 1].relative_path@;
        assert forall|k: int| 0 <= k < n - 1 implies #[trigger] entries[k].relative_path@ != path by {
            lemma_lex_irreflexive(path);
            assert(lex_lt(entries[k].relative_path@, path));
        }
        lemma_unstored(entries, (n - 1) as nat, path);
        assert(stored(entries, n).dom() =~= stored(entries, (n - 1) as nat).dom().insert(path));
    } else {
        assert(stored(entries, n).dom() =~= Set::empty());
    }
}

/// The hash of a file's content, by which a change shows.
pub fn hash_content(content: &str) -> (r: u64)
    ensures
        r == DefaultHasher::spec_finish(seq![content.spec_bytes(), seq![0xffu8]]),
{
    let mut hasher = DefaultHasher::new();
    hasher.write(content.as_bytes());
    let end: [u8; 1] = [0xff];
    hasher.write(&end);
    assert(end@ =~= seq![0xffu8]);
    assert(hasher@ =~= seq![content.spec_bytes(), seq![0xffu8]]);
    hasher.finish()
}

/// What was stored is found again under the same hash, and under no other;
/// what is stored for other files stays as it was.
pub proof fn what_was_stored_is_found(m: Map<Seq<char>, (u64, ExtractionView)>, path: Seq<char>, hash: u64, x: ExtractionView, other: Seq<char>, asked: u64)
    ensures
        looked_up(m.insert(path, (hash, x)), path, hash) == Some(x),
        asked != hash ==> looked_up(m.insert(path, (hash, x)), path, asked) is None,
        other != path ==> looked_up(m.insert(path, (hash, x)), other, asked) == looked_up(m, other, asked),
{
}

}
