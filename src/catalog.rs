//! The catalog store: libraries and the catalog entries indexed from them.
use vstd::prelude::*;
use vstd::seq_lib::*;
use crate::error::AppError;
use crate::format::BookFormat;
use crate::order::{order_by_texts, text_order, views_of};
use crate::text::{chars_of, str_eq, copy_string, copy_opt_string, copy_strings};

verus! {

broadcast use group_seq_properties;

/// Descriptive metadata of a book, as a format handler extracts it.
pub struct BookMetadata {
    /// Title.
    pub title: String,
    /// All authors, in order.
    pub authors: Vec<String>,
    /// Description.
    pub description: Option<String>,
    /// Publisher.
    pub publisher: Option<String>,
    /// Publication date.
    pub published: Option<String>,
    /// Language code.
    pub language: Option<String>,
    /// ISBN.
    pub isbn: Option<String>,
    /// Series name.
    pub series: Option<String>,
    /// Tags.
    pub tags: Vec<String>,
    /// Number of pages, where known.
    pub page_count: Option<u32>,
    /// Whether the file carries a cover image.
    pub has_cover: bool,
}

/// A catalog entry: one indexed book or comic file.
pub struct StoredBook {
    /// Identifier derived from the absolute path.
    pub id: String,
    /// Library the file belongs to.
    pub library_id: String,
    /// Content hash, where one was computed.
    pub file_hash: Option<String>,
    /// Absolute path of the file.
    pub path: String,
    /// Format of the file.
    pub format: BookFormat,
    /// File size in bytes.
    pub file_size: u64,
    /// Modification time of the file, in seconds since the epoch.
    pub mtime: i64,
    /// Descriptive metadata.
    pub meta: BookMetadata,
    /// Creation time of the entry.
    pub created_at: i64,
    /// Last update time of the entry.
    pub updated_at: i64,
}

/// A library: a directory tree whose files are catalogued.
pub struct Library {
    /// Unique library ID.
    pub id: String,
    /// Library name.
    pub name: String,
    /// Root path on the filesystem.
    pub path: String,
    /// Whether the library is visible to every user.
    pub is_public: bool,
    /// Owner user ID (none for a system library).
    pub owner_id: Option<String>,
    /// Creation timestamp.
    pub created_at: i64,
}

/// Some entry of `s` carries the id `id`.
pub open spec fn has_id(s: Seq<StoredBook>, id: Seq<char>) -> bool {
    exists|i: int| 0 <= i < s.len() && s[i].id@ == id
}

/// The entries of `s` carry pairwise distinct ids, and no two entries of one
/// library share a path.
pub open spec fn entries_unique(s: Seq<StoredBook>) -> bool {
    &&& forall|i: int, j: int| 0 <= i < s.len() && 0 <= j < s.len() && i != j ==> s[i].id@ != s[j].id@
    &&& forall|i: int, j: int|
        0 <= i < s.len() && 0 <= j < s.len() && i != j ==> !(s[i].library_id@ == s[j].library_id@
            && s[i].path@ == s[j].path@)
}

/// An entry other than one with `b`'s id holds `b`'s library and path.
pub open spec fn path_taken(s: Seq<StoredBook>, b: StoredBook) -> bool {
    exists|j: int|
        0 <= j < s.len() && s[j].id@ != b.id@ && s[j].library_id@ == b.library_id@ && s[j].path@
            == b.path@
}

/// The index of the entry with id `id` (meaningful where `has_id(s, id)`).
pub open spec fn index_of_id(s: Seq<StoredBook>, id: Seq<char>) -> int {
    choose|i: int| 0 <= i < s.len() && s[i].id@ == id
}

/// `b` as stored over `old`: everything comes from `b` but the library, the
/// format and the creation time, which the entry keeps.
pub open spec fn refreshed(old: StoredBook, b: StoredBook) -> StoredBook {
    StoredBook { created_at: old.created_at, library_id: old.library_id, format: old.format, ..b }
}

/// The entry that an upsert of `b` into `s` stores.
pub open spec fn stored_form(s: Seq<StoredBook>, b: StoredBook) -> StoredBook {
    if has_id(s, b.id@) {
        refreshed(s[index_of_id(s, b.id@)], b)
    } else {
        b
    }
}

/// The entries after an upsert of `b` that breaks no uniqueness rule.
pub open spec fn upserted(s: Seq<StoredBook>, b: StoredBook) -> Seq<StoredBook> {
    if has_id(s, b.id@) {
        s.update(index_of_id(s, b.id@), stored_form(s, b))
    } else {
        s.push(b)
    }
}

/// `b` carries the content hash `hash`.
pub open spec fn hash_is(b: StoredBook, hash: Seq<char>) -> bool {
    match b.file_hash {
        Some(h) => h@ == hash,
        None => false,
    }
}

/// Whether `keep` holds the id `id`.
pub open spec fn keeps(keep: Seq<String>, id: Seq<char>) -> bool {
    exists|k: int| 0 <= k < keep.len() && keep[k]@ == id
}

/// Whether pruning library `lib` down to `keep` leaves the entry `b`.
pub open spec fn survives_prune(b: StoredBook, lib: Seq<char>, keep: Seq<String>) -> bool {
    !(b.library_id@ == lib && !keeps(keep, b.id@))
}

/// The entries of library `lib`, in store order.
pub open spec fn in_library(s: Seq<StoredBook>, lib: Seq<char>) -> Seq<StoredBook> {
    s.filter(of_library(lib))
}

/// The predicate "belongs to library `lib`".
pub open spec fn of_library(lib: Seq<char>) -> spec_fn(StoredBook) -> bool {
    |b: StoredBook| b.library_id@ == lib
}

/// The predicate "survives pruning library `lib` down to `keep`".
pub open spec fn prune_keeps(lib: Seq<char>, keep: Seq<String>) -> spec_fn(StoredBook) -> bool {
    |b: StoredBook| survives_prune(b, lib, keep)
}

/// The entries left after pruning library `lib` down to the ids in `keep`.
pub open spec fn pruned(s: Seq<StoredBook>, lib: Seq<char>, keep: Seq<String>) -> Seq<StoredBook> {
    s.filter(prune_keeps(lib, keep))
}

impl BookMetadata {
    /// `self` is a copy of `o`: equal fields, lists with equal elements.
    pub open spec fn same_as(self, o: BookMetadata) -> bool {
        &&& self == BookMetadata { authors: self.authors, tags: self.tags, ..o }
        &&& self.authors@ == o.authors@
        &&& self.tags@ == o.tags@
    }

    /// A copy of this metadata.
    pub fn duplicate(&self) -> (r: BookMetadata)
        ensures
            r.same_as(*self),
    {
        BookMetadata {
            title: copy_string(&self.title),
            authors: copy_strings(&self.authors),
            description: copy_opt_string(&self.description),
            publisher: copy_opt_string(&self.publisher),
            published: copy_opt_string(&self.published),
            language: copy_opt_string(&self.language),
            isbn: copy_opt_string(&self.isbn),
            series: copy_opt_string(&self.series),
            tags: copy_strings(&self.tags),
            page_count: self.page_count,
            has_cover: self.has_cover,
        }
    }
}

impl StoredBook {
    /// `self` is a copy of `o`.
    pub open spec fn same_as(self, o: StoredBook) -> bool {
        &&& self == StoredBook { meta: self.meta, ..o }
        &&& self.meta.same_as(o.meta)
    }

    /// A copy of this entry.
    pub fn duplicate(&self) -> (r: StoredBook)
        ensures
            r.same_as(*self),
    {
        StoredBook {
            id: copy_string(&self.id),
            library_id: copy_string(&self.library_id),
            file_hash: copy_opt_string(&self.file_hash),
            path: copy_string(&self.path),
            format: self.format,
            file_size: self.file_size,
            mtime: self.mtime,
            meta: self.meta.duplicate(),
            created_at: self.created_at,
            updated_at: self.updated_at,
        }
    }
}

/// Whether `keep` holds the id `id`.
fn keeps_id(keep: &Vec<String>, id: &str) -> (r: bool)
    ensures
        r == keeps(keep@, id@),
{
    let mut i: usize = 0;
    while i < keep.len()
        invariant
            i <= keep@.len(),
            forall|k: int| 0 <= k < i ==> keep@[k]@ != id@,
        decreases keep@.len() - i,
    {
        if str_eq(keep[i].as_str(), id) {
            return true;
        }
        i = i + 1;
    }
    false
}

/// `a` holds the same entries as `b`, in the same order.
pub open spec fn same_books(a: Seq<StoredBook>, b: Seq<StoredBook>) -> bool {
    a.len() == b.len() && forall|i: int| 0 <= i < a.len() ==> #[trigger] a[i].same_as(b[i])
}

/// Upserting the same entry twice leaves the store as upserting it once.
pub proof fn lemma_upsert_idempotent(s: Seq<StoredBook>, b: StoredBook)
    requires
        entries_unique(s),
    ensures
        upserted(upserted(s, b), b) == upserted(s, b),
{
    let t = upserted(s, b);
    if has_id(s, b.id@) {
        let i = index_of_id(s, b.id@);
        assert(t[i].id@ == b.id@);
        let j = index_of_id(t, b.id@);
        assert(j == i) by {
            if j != i {
                assert(t[j] == s[j]);
            }
        }
        assert(refreshed(t[i], b) == t[i]);
        assert(t.update(i, refreshed(t[i], b)) =~= t);
    } else {
        let i = s.len() as int;
        assert(t[i].id@ == b.id@);
        let j = index_of_id(t, b.id@);
        assert(j == i) by {
            if j != i {
                assert(t[j] == s[j]);
            }
        }
        assert(refreshed(t[i], b) == t[i]);
        assert(t.update(i, refreshed(t[i], b)) =~= t);
    }
}

/// The titles of a sequence of entries.
pub open spec fn titles_of(s: Seq<StoredBook>) -> Seq<Seq<char>> {
    s.map_values(|b: StoredBook| b.meta.title@)
}

/// `r` holds copies of the entries of `s`, ordered by title.
pub open spec fn by_title(r: Seq<StoredBook>, s: Seq<StoredBook>) -> bool {
    exists|ord: Seq<usize>|
        #[trigger] text_order(titles_of(s), ord) && r.len() == s.len() && forall|k: int|
            0 <= k < r.len() ==> r[k].same_as(s[ord[k] as int])
}

/// Title order carries over from copies to the entries they copy.
proof fn lemma_by_title_transfer(r: Seq<StoredBook>, c: Seq<StoredBook>, s: Seq<StoredBook>)
    requires
        by_title(r, c),
        same_books(c, s),
    ensures
        by_title(r, s),
{
    let ord = choose|ord: Seq<usize>|
        #[trigger] text_order(titles_of(c), ord) && r.len() == c.len() && forall|k: int|
            0 <= k < r.len() ==> r[k].same_as(c[ord[k] as int]);
    assert(titles_of(c) =~= titles_of(s)) by {
        assert forall|i: int| 0 <= i < c.len() implies titles_of(c)[i] == titles_of(s)[i] by {
            assert(c[i].same_as(s[i]));
        }
    }
    assert forall|k: int| 0 <= k < r.len() implies r[k].same_as(s[ord[k] as int]) by {
        assert(c[ord[k] as int].same_as(s[ord[k] as int]));
    }
    assert(text_order(titles_of(s), ord));
}

/// Copies of the entries of `v`, ordered by title.
fn sorted_by_title(v: &Vec<StoredBook>) -> (r: Vec<StoredBook>)
    ensures
        by_title(r@, v@),
{
    let mut titles: Vec<Vec<char>> = Vec::new();
    let mut i: usize = 0;
    while i < v.len()
        invariant
            i <= v@.len(),
            titles@.len() == i,
            forall|m: int| 0 <= m < i ==> titles@[m]@ == v@[m].meta.title@,
        decreases v@.len() - i,
    {
        titles.push(chars_of(v[i].meta.title.as_str()));
        i = i + 1;
    }
    assert(views_of(titles@) =~= titles_of(v@));
    let ord = order_by_texts(&titles);
    let mut out: Vec<StoredBook> = Vec::new();
    let mut k: usize = 0;
    while k < ord.len()
        invariant
            text_order(titles_of(v@), ord@),
            k <= ord@.len(),
            out@.len() == k,
            forall|m: int| 0 <= m < k ==> out@[m].same_as(v@[ord@[m] as int]),
        decreases ord@.len() - k,
    {
        out.push(v[ord[k]].duplicate());
        k = k + 1;
    }
    out
}

/// Durable catalog of libraries and their entries.
pub struct CatalogStore {
    libraries: Vec<Library>,
    books: Vec<StoredBook>,
}

impl View for CatalogStore {
    type V = Seq<StoredBook>;

    closed spec fn view(&self) -> Seq<StoredBook> {
        self.books@
    }
}

impl CatalogStore {
    /// The libraries, in creation order.
    pub closed spec fn libraries(&self) -> Seq<Library> {
        self.libraries@
    }

    /// Well-formedness: entry ids and (library, path) pairs are unique.
    pub open spec fn wf(&self) -> bool {
        entries_unique(self@)
    }

    /// An empty store.
    pub fn new() -> (r: CatalogStore)
        ensures
            r.wf(),
            r@ == Seq::<StoredBook>::empty(),
            r.libraries() == Seq::<Library>::empty(),
    {
        CatalogStore { libraries: Vec::new(), books: Vec::new() }
    }

    /// Index of the entry with the given id.
    fn find_book(&self, id: &str) -> (r: Option<usize>)
        ensures
            match r {
                Some(i) => i < self@.len() && self@[i as int].id@ == id@,
                None => !has_id(self@, id@),
            },
    {
        let mut i: usize = 0;
        while i < self.books.len()
            invariant
                i <= self.books@.len(),
                forall|k: int| 0 <= k < i ==> self.books@[k].id@ != id@,
            decreases self.books@.len() - i,
        {
            if str_eq(self.books[i].id.as_str(), id) {
                return Some(i);
            }
            i = i + 1;
        }
        None
    }

    /// Index of an entry with another id than `b` but `b`'s library and path.
    fn find_path_clash(&self, b: &StoredBook) -> (r: Option<usize>)
        ensures
            r.is_some() == path_taken(self@, *b),
    {
        let mut i: usize = 0;
        while i < self.books.len()
            invariant
                i <= self.books@.len(),
                forall|k: int|
                    0 <= k < i ==> !(self.books@[k].id@ != b.id@ && self.books@[k].library_id@
                        == b.library_id@ && self.books@[k].path@ == b.path@),
            decreases self.books@.len() - i,
        {
            let e = &self.books[i];
            if !str_eq(e.id.as_str(), b.id.as_str()) && str_eq(
                e.library_id.as_str(),
                b.library_id.as_str(),
            ) && str_eq(e.path.as_str(), b.path.as_str()) {
                return Some(i);
            }
            i = i + 1;
        }
        None
    }

    /// Inserts an entry, or refreshes the entry with the same id, which keeps
    /// its library, format and creation time. Refused, with the store
    /// unchanged, where another entry of the stored entry's library has the
    /// same path.
    pub fn save_book(&mut self, book: StoredBook) -> (r: Result<(), AppError>)
        requires
            old(self).wf(),
        ensures
            final(self).wf(),
            final(self).libraries() == old(self).libraries(),
            r is Ok <==> !path_taken(old(self)@, stored_form(old(self)@, book)),
            r is Ok ==> final(self)@ == upserted(old(self)@, book),
            r is Err ==> final(self)@ == old(self)@ && r->Err_0.is_invalid_format(),
    {
        let ghost s = self@;
        match self.find_book(book.id.as_str()) {
            Some(i) => {
                proof {
                    assert(has_id(s, book.id@));
                    let j = index_of_id(s, book.id@);
                    assert(j == i);
                }
                let created_at = self.books[i].created_at;
                let library_id = copy_string(&self.books[i].library_id);
                let format = self.books[i].format;
                let b = StoredBook { created_at, library_id, format, ..book };
                assert(b == stored_form(s, book));
                if self.find_path_clash(&b).is_some() {
                    return Err(AppError::InvalidFormat(String::from_str("another entry of this library has the same path")));
                }
                self.books.set(i, b);
                assert(self@ =~= upserted(s, book));
            },
            None => {
                if self.find_path_clash(&book).is_some() {
                    return Err(AppError::InvalidFormat(String::from_str("another entry of this library has the same path")));
                }
                self.books.push(book);
                assert(self@ =~= upserted(s, book));
            },
        }
        Ok(())
    }

    /// The entry with the given id.
    pub fn get_book(&self, id: &str) -> (r: Option<&StoredBook>)
        requires
            self.wf(),
        ensures
            r is Some <==> has_id(self@, id@),
            r is Some ==> *r.unwrap() == self@[index_of_id(self@, id@)],
    {
        match self.find_book(id) {
            Some(i) => {
                proof {
                    let j = index_of_id(self@, id@);
                    assert(j == i);
                }
                Some(&self.books[i])
            },
            None => None,
        }
    }

    /// The first entry, in store order, with the given content hash.
    pub fn get_book_by_hash(&self, hash: &str) -> (r: Option<&StoredBook>)
        ensures
            r is Some <==> exists|i: int|
                0 <= i < self@.len() && hash_is(self@[i], hash@),
            r is Some ==> exists|i: int|
                0 <= i < self@.len() && *r.unwrap() == self@[i] && (forall|k: int|
                    0 <= k < i ==> !hash_is(self@[k], hash@))
                    && hash_is(self@[i], hash@),
    {
        let mut i: usize = 0;
        while i < self.books.len()
            invariant
                i <= self.books@.len(),
                forall|k: int|
                    0 <= k < i ==> !hash_is(self.books@[k], hash@),
            decreases self.books@.len() - i,
        {
            match &self.books[i].file_hash {
                Some(h) => {
                    if str_eq(h.as_str(), hash) {
                        assert(hash_is(self@[i as int], hash@));
                        return Some(&self.books[i]);
                    }
                },
                None => {},
            }
            i = i + 1;
        }
        None
    }

    /// Copies of the entries of one library, ordered by title (by code
    /// point; equal titles in store order).
    pub fn get_library_books(&self, library_id: &str) -> (r: Vec<StoredBook>)
        ensures
            by_title(r@, in_library(self@, library_id@)),
    {
        let copies = self.library_books_in_store_order(library_id);
        let r = sorted_by_title(&copies);
        proof {
            lemma_by_title_transfer(r@, copies@, in_library(self@, library_id@));
        }
        r
    }

    /// Copies of the entries of one library, in store order.
    fn library_books_in_store_order(&self, library_id: &str) -> (r: Vec<StoredBook>)
        ensures
            same_books(r@, in_library(self@, library_id@)),
    {
        let ghost lib = library_id@;
        let mut out: Vec<StoredBook> = Vec::new();
        let mut i: usize = 0;
        while i < self.books.len()
            invariant
                i <= self.books@.len(),
                lib == library_id@,
                same_books(out@, in_library(self.books@.subrange(0, i as int), lib)),
            decreases self.books@.len() - i,
        {
            let ghost pre = self.books@.subrange(0, i as int);
            let ghost old_out = out@;
            proof {
                assert(self.books@.subrange(0, i + 1) =~= pre.push(self.books@[i as int]));
                pre.lemma_filter_push(self.books@[i as int], of_library(lib));
            }
            if str_eq(self.books[i].library_id.as_str(), library_id) {
                let c = self.books[i].duplicate();
                out.push(c);
                proof {
                    let q = in_library(self.books@.subrange(0, i + 1), lib);
                    assert(q == in_library(pre, lib).push(self.books@[i as int]));
                    assert forall|k: int| 0 <= k < out@.len() implies #[trigger] out@[k].same_as(q[k]) by {
                        if k < out@.len() - 1 {
                            assert(out@[k] == old_out[k]);
                        }
                    }
                }
            } else {
                assert(in_library(self.books@.subrange(0, i + 1), lib) == in_library(pre, lib));
            }
            i = i + 1;
        }
        assert(self.books@.subrange(0, self.books@.len() as int) =~= self.books@);
        out
    }

    /// Copies of every entry, ordered by title (by code point; equal titles
    /// in store order).
    pub fn get_all_books(&self) -> (r: Vec<StoredBook>)
        ensures
            by_title(r@, self@),
    {
        sorted_by_title(&self.books)
    }

    /// Deletes every entry of `library_id` whose id is not in `keep_ids`, and
    /// returns how many were deleted. An empty `keep_ids` deletes nothing.
    pub fn delete_books_not_in(&mut self, library_id: &str, keep_ids: &Vec<String>) -> (r: usize)
        requires
            old(self).wf(),
        ensures
            final(self).wf(),
            final(self).libraries() == old(self).libraries(),
            keep_ids@.len() == 0 ==> final(self)@ == old(self)@ && r == 0,
            keep_ids@.len() > 0 ==> final(self)@ == pruned(old(self)@, library_id@, keep_ids@),
            r == old(self)@.len() - final(self)@.len(),
    {
        if keep_ids.len() == 0 {
            return 0;
        }
        let ghost s = self.books@;
        let ghost lib = library_id@;
        let ghost keep = keep_ids@;
        let mut out: Vec<StoredBook> = Vec::new();
        let mut rest: Vec<StoredBook> = Vec::new();
        std::mem::swap(&mut rest, &mut self.books);
        assert(rest@ == s);
        let n = rest.len();
        let mut removed: usize = 0;
        let mut i: usize = 0;
        while i < n
            invariant
                n == s.len(),
                rest@ == s.subrange(i as int, s.len() as int),
                entries_unique(s),
                i <= s.len(),
                lib == library_id@,
                keep == keep_ids@,
                out@ == pruned(s.subrange(0, i as int), lib, keep),
                removed == i - out@.len(),
                forall|k: int|
                    0 <= k < out@.len() ==> exists|j: int| 0 <= j < i && #[trigger] out@[k] == s[j],
                entries_unique(out@),
            decreases s.len() - i,
        {
            let ghost pre = s.subrange(0, i as int);
            proof {
                assert(s.subrange(0, i + 1) =~= pre.push(s[i as int]));
                pre.lemma_filter_push(s[i as int], prune_keeps(lib, keep));
            }
            let b = rest.remove(0);
            assert(b == s[i as int]);
            let doomed = str_eq(b.library_id.as_str(), library_id) && !keeps_id(keep_ids, b.id.as_str());
            if !doomed {
                proof {
                    assert forall|k: int| 0 <= k < out@.len() implies out@[k].id@ != b.id@ && !(out@[k].library_id@ == b.library_id@ && out@[k].path@ == b.path@) by {
                        let j = choose|j: int| 0 <= j < i && out@[k] == s[j];
                        assert(j != i);
                    }
                }
                out.push(b);
            } else {
                removed = removed + 1;
            }
            i = i + 1;
            assert(rest@ =~= s.subrange(i as int, s.len() as int));
        }
        assert(s.subrange(0, s.len() as int) =~= s);
        self.books = out;
        removed
    }

    /// Deletes the entry with the given id; returns whether one existed.
    pub fn delete_book(&mut self, id: &str) -> (r: bool)
        requires
            old(self).wf(),
        ensures
            final(self).wf(),
            final(self).libraries() == old(self).libraries(),
            r == has_id(old(self)@, id@),
            r ==> final(self)@ == old(self)@.remove(index_of_id(old(self)@, id@)),
            !r ==> final(self)@ == old(self)@,
    {
        match self.find_book(id) {
            Some(i) => {
                let ghost s = self@;
                proof {
                    let j = index_of_id(s, id@);
                    assert(j == i);
                }
                let _gone = self.books.remove(i);
                proof {
                    assert forall|a: int, b: int|
                        0 <= a < self@.len() && 0 <= b < self@.len() && a != b implies self@[a].id@
                        != self@[b].id@ && !(self@[a].library_id@ == self@[b].library_id@
                        && self@[a].path@ == self@[b].path@) by {
                        let a0 = if a < i { a } else { a + 1 };
                        let b0 = if b < i { b } else { b + 1 };
                        assert(self@[a] == s[a0]);
                        assert(self@[b] == s[b0]);
                    }
                }
                true
            },
            None => false,
        }
    }

    /// Index of the library with the given id.
    fn find_library(&self, id: &str) -> (r: Option<usize>)
        ensures
            match r {
                Some(i) => i < self.libraries().len() && self.libraries()[i as int].id@ == id@,
                None => forall|k: int| 0 <= k < self.libraries().len() ==> self.libraries()[k].id@ != id@,
            },
    {
        let mut i: usize = 0;
        while i < self.libraries.len()
            invariant
                i <= self.libraries@.len(),
                forall|k: int| 0 <= k < i ==> self.libraries@[k].id@ != id@,
            decreases self.libraries@.len() - i,
        {
            if str_eq(self.libraries[i].id.as_str(), id) {
                return Some(i);
            }
            i = i + 1;
        }
        None
    }

    /// Index of the first library with the given name.
    fn find_library_by_name(&self, name: &str) -> (r: Option<usize>)
        ensures
            match r {
                Some(i) => i < self.libraries().len() && self.libraries()[i as int].name@ == name@
                    && forall|k: int| 0 <= k < i ==> self.libraries()[k].name@ != name@,
                None => forall|k: int| 0 <= k < self.libraries().len() ==> self.libraries()[k].name@ != name@,
            },
    {
        let mut i: usize = 0;
        while i < self.libraries.len()
            invariant
                i <= self.libraries@.len(),
                forall|k: int| 0 <= k < i ==> self.libraries@[k].name@ != name@,
            decreases self.libraries@.len() - i,
        {
            if str_eq(self.libraries[i].name.as_str(), name) {
                return Some(i);
            }
            i = i + 1;
        }
        None
    }

    /// Registers a library. Refused where a library with the same id exists.
    pub fn create_library(&mut self, library: Library) -> (r: Result<(), AppError>)
        requires
            old(self).wf(),
        ensures
            final(self).wf(),
            final(self)@ == old(self)@,
            r is Ok <==> forall|k: int|
                0 <= k < old(self).libraries().len() ==> old(self).libraries()[k].id@ != library.id@,
            r is Ok ==> final(self).libraries() == old(self).libraries().push(library),
            r is Err ==> final(self).libraries() == old(self).libraries()
                && r->Err_0.is_invalid_format(),
    {
        if self.find_library(library.id.as_str()).is_some() {
            return Err(AppError::InvalidFormat(String::from_str("a library with this id exists")));
        }
        self.libraries.push(library);
        Ok(())
    }

    /// The libraries, in creation order.
    pub fn list_libraries(&self) -> (r: &Vec<Library>)
        ensures
            r@ == self.libraries(),
    {
        &self.libraries
    }

    /// The first library with the given name.
    pub fn get_library_by_name(&self, name: &str) -> (r: Option<&Library>)
        ensures
            r is Some <==> exists|k: int|
                0 <= k < self.libraries().len() && self.libraries()[k].name@ == name@,
            r is Some ==> exists|k: int|
                0 <= k < self.libraries().len() && *r.unwrap() == self.libraries()[k]
                    && self.libraries()[k].name@ == name@ && forall|j: int|
                    0 <= j < k ==> self.libraries()[j].name@ != name@,
    {
        match self.find_library_by_name(name) {
            Some(i) => Some(&self.libraries[i]),
            None => None,
        }
    }

    /// Removes the first library with the given name; its entries stay.
    /// Returns whether one existed.
    pub fn delete_library(&mut self, name: &str) -> (r: bool)
        requires
            old(self).wf(),
        ensures
            final(self).wf(),
            final(self)@ == old(self)@,
            r == exists|k: int|
                0 <= k < old(self).libraries().len() && old(self).libraries()[k].name@ == name@,
            r ==> exists|k: int|
                0 <= k < old(self).libraries().len() && old(self).libraries()[k].name@ == name@
                    && (forall|j: int| 0 <= j < k ==> old(self).libraries()[j].name@ != name@)
                    && final(self).libraries() == old(self).libraries().remove(k),
            !r ==> final(self).libraries() == old(self).libraries(),
    {
        match self.find_library_by_name(name) {
            Some(i) => {
                let _gone = self.libraries.remove(i);
                true
            },
            None => false,
        }
    }

    /// Sets the root path of the first library with the given name. Returns
    /// whether one existed.
    pub fn update_library_path(&mut self, name: &str, path: String) -> (r: bool)
        requires
            old(self).wf(),
        ensures
            final(self).wf(),
            final(self)@ == old(self)@,
            r == exists|k: int|
                0 <= k < old(self).libraries().len() && old(self).libraries()[k].name@ == name@,
            r ==> exists|k: int|
                0 <= k < old(self).libraries().len() && old(self).libraries()[k].name@ == name@
                    && (forall|j: int| 0 <= j < k ==> old(self).libraries()[j].name@ != name@)
                    && final(self).libraries() == old(self).libraries().update(
                    k,
                    Library { path: path, ..old(self).libraries()[k] },
                ),
            !r ==> final(self).libraries() == old(self).libraries(),
    {
        match self.find_library_by_name(name) {
            Some(i) => {
                let old_lib = self.libraries.remove(i);
                let lib = Library { path, ..old_lib };
                self.libraries.insert(i, lib);
                assert(self.libraries@ =~= old(self).libraries@.update(i as int, lib));
                true
            },
            None => false,
        }
    }
}

} // verus!
