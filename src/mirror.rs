//! The catalog mirror: an immutable, read-optimised snapshot of every
//! catalog entry, rebuilt from the store after each scan.
use vstd::prelude::*;
use vstd::seq_lib::*;
use crate::catalog::{CatalogStore, StoredBook, by_title, same_books};
use crate::format::{lower_of, lowercase};
use crate::order::lemma_distinct_cover;
use crate::text::{chars_of, contains_chars, contains_seq, str_eq};

verus! {

/// `b` matches a search for the folded (lower-cased) query `q`: its folded
/// title or one of its folded authors contains `q`.
pub open spec fn book_matches(b: StoredBook, q: Seq<char>) -> bool {
    contains_seq(lower_of(b.meta.title@), q) || exists|k: int|
        0 <= k < b.meta.authors@.len() && contains_seq(lower_of(#[trigger] b.meta.authors@[k]@), q)
}

/// The predicate "matches a search for `q`".
pub open spec fn matching(q: Seq<char>) -> spec_fn(StoredBook) -> bool {
    |b: StoredBook| book_matches(b, q)
}

/// Whether `b` matches a search for the folded query `q`.
pub fn matches_folded(b: &StoredBook, q: &Vec<char>) -> (r: bool)
    ensures
        r == book_matches(*b, q@),
{
    let title = chars_of(lowercase(b.meta.title.as_str()).as_str());
    if contains_chars(&title, q) {
        return true;
    }
    let mut k: usize = 0;
    while k < b.meta.authors.len()
        invariant
            k <= b.meta.authors@.len(),
            !contains_seq(lower_of(b.meta.title@), q@),
            forall|m: int| 0 <= m < k ==> !contains_seq(lower_of(#[trigger] b.meta.authors@[m]@), q@),
        decreases b.meta.authors@.len() - k,
    {
        let author = chars_of(lowercase(b.meta.authors[k].as_str()).as_str());
        if contains_chars(&author, q) {
            return true;
        }
        k = k + 1;
    }
    false
}

/// Entry `a` of `s` comes before entry `b` in recency order: it was modified
/// later, or at the same time and stands earlier.
pub open spec fn newer(s: Seq<StoredBook>, a: int, b: int) -> bool {
    s[a].mtime > s[b].mtime || (s[a].mtime == s[b].mtime && a < b)
}

/// `idx` lists indices of `s` in recency order, and no index left out is
/// newer than one listed: the first entries of a stable sort by
/// modification time, newest first.
pub open spec fn recent_indices(s: Seq<StoredBook>, idx: Seq<int>) -> bool {
    &&& forall|k: int| 0 <= k < idx.len() ==> 0 <= #[trigger] idx[k] < s.len()
    &&& forall|k: int, l: int| 0 <= k < l < idx.len() ==> newer(s, #[trigger] idx[k], #[trigger] idx[l])
    &&& forall|j: int, k: int|
        0 <= j < s.len() && !idx.contains(j) && 0 <= k < idx.len() ==> #[trigger] newer(s, idx[k], j)
}

/// A snapshot of the catalog. Readers hold one while the scanner builds the
/// next; it is never changed in place.
pub struct CatalogMirror {
    books: Vec<StoredBook>,
}

impl View for CatalogMirror {
    type V = Seq<StoredBook>;

    closed spec fn view(&self) -> Seq<StoredBook> {
        self.books@
    }
}

impl CatalogMirror {
    /// A mirror of an empty catalog.
    pub fn empty() -> (r: CatalogMirror)
        ensures
            r@.len() == 0,
    {
        CatalogMirror { books: Vec::new() }
    }

    /// A snapshot of every entry of the store, ordered by title.
    pub fn rebuild(store: &CatalogStore) -> (r: CatalogMirror)
        ensures
            by_title(r@, store@),
    {
        CatalogMirror { books: store.get_all_books() }
    }

    /// Every entry of the snapshot.
    pub fn get_all_books(&self) -> (r: &Vec<StoredBook>)
        ensures
            r@ == self@,
    {
        &self.books
    }

    /// The number of entries.
    pub fn book_count(&self) -> (r: usize)
        ensures
            r == self@.len(),
    {
        self.books.len()
    }

    /// Copies of the entries matching the folded query `q`, in snapshot
    /// order.
    pub fn search_folded(&self, q: &Vec<char>) -> (r: Vec<StoredBook>)
        ensures
            same_books(r@, self@.filter(matching(q@))),
    {
        let mut out: Vec<StoredBook> = Vec::new();
        let mut i: usize = 0;
        while i < self.books.len()
            invariant
                i <= self.books@.len(),
                same_books(out@, self.books@.subrange(0, i as int).filter(matching(q@))),
            decreases self.books@.len() - i,
        {
            let ghost pre = self.books@.subrange(0, i as int);
            let ghost old_out = out@;
            proof {
                assert(self.books@.subrange(0, i + 1) =~= pre.push(self.books@[i as int]));
                pre.lemma_filter_push(self.books@[i as int], matching(q@));
            }
            if matches_folded(&self.books[i], q) {
                out.push(self.books[i].duplicate());
                proof {
                    let f = self.books@.subrange(0, i + 1).filter(matching(q@));
                    assert forall|k: int| 0 <= k < out@.len() implies #[trigger] out@[k].same_as(f[k]) by {
                        if k < out@.len() - 1 {
                            assert(out@[k] == old_out[k]);
                        }
                    }
                }
            }
            i = i + 1;
        }
        assert(self.books@.subrange(0, self.books@.len() as int) =~= self.books@);
        out
    }

    /// Copies of the entries whose title or an author contains `query`,
    /// ignoring case, in snapshot order.
    pub fn search(&self, query: &str) -> (r: Vec<StoredBook>)
        ensures
            same_books(r@, self@.filter(matching(lower_of(query@)))),
    {
        let q = chars_of(lowercase(query).as_str());
        self.search_folded(&q)
    }

    /// Copies of the `limit` most recently modified entries, newest first;
    /// entries modified at the same time keep their snapshot order.
    pub fn get_recent(&self, limit: usize) -> (r: Vec<StoredBook>)
        ensures
            r@.len() == if limit < self@.len() { limit as int } else { self@.len() as int },
            exists|idx: Seq<int>|
                #[trigger] recent_indices(self@, idx) && idx.len() == r@.len() && forall|k: int|
                    0 <= k < idx.len() ==> r@[k].same_as(self@[idx[k]]),
    {
        let ghost s = self.books@;
        let n = self.books.len();
        let count = if limit < n { limit } else { n };
        let mut taken: Vec<bool> = Vec::new();
        while taken.len() < n
            invariant
                taken@.len() <= n,
                forall|j: int| 0 <= j < taken@.len() ==> !taken@[j],
            decreases n - taken@.len(),
        {
            taken.push(false);
        }
        let ghost mut idx: Seq<int> = Seq::empty();
        let mut out: Vec<StoredBook> = Vec::new();
        while out.len() < count
            invariant
                s == self.books@,
                n == s.len(),
                count <= n,
                taken@.len() == n,
                out@.len() == idx.len(),
                out@.len() <= count,
                recent_indices(s, idx),
                forall|j: int| 0 <= j < n ==> (taken@[j] <==> idx.contains(j)),
                forall|k: int| 0 <= k < idx.len() ==> out@[k].same_as(s[idx[k]]),
            decreases count - out@.len(),
        {
            // Some index is still free, since fewer than n are taken.
            proof {
                assert(exists|j: int| 0 <= j < n && !idx.contains(j)) by {
                    if forall|j: int| 0 <= j < n ==> idx.contains(j) {
                        assert forall|k: int, l: int| 0 <= k < l < idx.len() implies #[trigger] idx[k] != #[trigger] idx[l] by {
                            assert(newer(s, idx[k], idx[l]));
                        }
                        lemma_distinct_cover(idx, n as int);
                    }
                }
            }
            let ghost free = choose|j: int| 0 <= j < n && !idx.contains(j);
            let mut best: usize = 0;
            while taken[best]
                invariant
                    taken@.len() == n,
                    best < n,
                    0 <= free < n,
                    !taken@[free],
                    best <= free,
                    forall|m: int| 0 <= m < best ==> taken@[m],
                decreases free - best,
            {
                best = best + 1;
            }
            let mut j: usize = best + 1;
            while j < n
                invariant
                    s == self.books@,
                    n == s.len(),
                    taken@.len() == n,
                    best < j <= n,
                    !taken@[best as int],
                    forall|m: int| 0 <= m < j && !taken@[m] && m != best ==> newer(s, best as int, m),
                decreases n - j,
            {
                if !taken[j] && self.books[j].mtime > self.books[best].mtime {
                    best = j;
                }
                j = j + 1;
            }
            proof {
                let b = best as int;
                assert(!idx.contains(b));
                let nidx = idx.push(b);
                assert forall|k: int, l: int| 0 <= k < l < nidx.len() implies newer(s, #[trigger] nidx[k], #[trigger] nidx[l]) by {
                    if l == idx.len() {
                        assert(nidx[k] == idx[k]);
                    } else {
                        assert(nidx[k] == idx[k] && nidx[l] == idx[l]);
                    }
                }
                assert forall|m: int, k: int|
                    0 <= m < s.len() && !nidx.contains(m) && 0 <= k < nidx.len() implies #[trigger] newer(s, nidx[k], m) by {
                    assert(m != b) by {
                        if m == b {
                            assert(nidx[idx.len() as int] == b);
                        }
                    }
                    assert(!idx.contains(m)) by {
                        if idx.contains(m) {
                            let q = choose|q: int| 0 <= q < idx.len() && idx[q] == m;
                            assert(nidx[q] == m);
                        }
                    }
                    if k < idx.len() {
                        assert(nidx[k] == idx[k]);
                    }
                }
                assert forall|k: int| 0 <= k < nidx.len() implies 0 <= #[trigger] nidx[k] < s.len() by {
                    if k < idx.len() {
                        assert(nidx[k] == idx[k]);
                    }
                }
                assert forall|m: int| 0 <= m < n implies (m == b || taken@[m]) == nidx.contains(m) by {
                    if nidx.contains(m) && m != b {
                        let q = choose|q: int| 0 <= q < nidx.len() && nidx[q] == m;
                        assert(q < idx.len());
                        assert(idx[q] == m);
                        assert(idx.contains(m));
                    }
                    if m == b {
                        assert(nidx[idx.len() as int] == b);
                    }
                    if taken@[m] {
                        assert(idx.contains(m));
                        let q = choose|q: int| 0 <= q < idx.len() && idx[q] == m;
                        assert(nidx[q] == m);
                    }
                }
                idx = nidx;
            }
            taken.set(best, true);
            let c = self.books[best].duplicate();
            out.push(c);
            proof {
                assert forall|k: int| 0 <= k < idx.len() implies out@[k].same_as(s[idx[k]]) by {}
            }
        }
        assert(recent_indices(s, idx));
        out
    }

    /// The first entry with the given id.
    pub fn get_book(&self, id: &str) -> (r: Option<&StoredBook>)
        ensures
            r is None <==> forall|k: int| 0 <= k < self@.len() ==> self@[k].id@ != id@,
            r is Some ==> exists|k: int|
                0 <= k < self@.len() && self@[k] == *r.unwrap() && self@[k].id@ == id@ && forall|j: int|
                    0 <= j < k ==> self@[j].id@ != id@,
    {
        let mut i: usize = 0;
        while i < self.books.len()
            invariant
                i <= self.books@.len(),
                forall|k: int| 0 <= k < i ==> self.books@[k].id@ != id@,
            decreases self.books@.len() - i,
        {
            if str_eq(self.books[i].id.as_str(), id) {
                return Some(&self.books[i]);
            }
            i = i + 1;
        }
        None
    }
}

} // verus!
