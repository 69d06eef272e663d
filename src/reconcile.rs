//! Reading-state reconciliation: progress, highlights, bookmarks and backup
//! blobs sent by a user's reading devices, merged at write time.
use vstd::prelude::*;
use crate::error::AppError;
use crate::sdr::{backup_summary, summarize_backup};
use crate::ident::random_id;
use crate::order::{order_by_keys, stable_order, SortKey};
use crate::text::{copy_opt_string, copy_string, opt_str_eq, str_eq};

verus! {

/// Reading progress of one user in one book, from one device (or from none:
/// a device-agnostic record).
pub struct ReadingProgress {
    /// Row id, assigned by the store.
    pub id: i64,
    /// User ID.
    pub user_id: String,
    /// Book ID.
    pub book_id: String,
    /// Device ID; none for a device-agnostic record.
    pub device_id: Option<String>,
    /// Current page number.
    pub current_page: Option<i64>,
    /// Total pages in the book.
    pub total_pages: Option<i64>,
    /// Reading percentage, as the decimal text the device sent.
    pub percentage: Option<String>,
    /// Current chapter name.
    pub current_chapter: Option<String>,
    /// Raw position data in the device's own format.
    pub position_data: Option<String>,
    /// Reading status.
    pub status: String,
    /// When reading started; once set it never moves.
    pub started_at: Option<i64>,
    /// When reading finished.
    pub finished_at: Option<i64>,
    /// Last update timestamp.
    pub updated_at: i64,
}

/// A highlight (annotation) in a book.
pub struct Highlight {
    /// Highlight ID.
    pub id: String,
    /// User ID.
    pub user_id: String,
    /// Book ID.
    pub book_id: String,
    /// Device ID.
    pub device_id: Option<String>,
    /// Page number.
    pub page: Option<i64>,
    /// Chapter name.
    pub chapter: Option<String>,
    /// Highlighted text.
    pub text: String,
    /// User note.
    pub note: Option<String>,
    /// Highlight color.
    pub color: String,
    /// Start position, in the device's own format.
    pub pos0: Option<String>,
    /// End position, in the device's own format.
    pub pos1: Option<String>,
    /// Creation timestamp.
    pub created_at: i64,
    /// Last update timestamp.
    pub updated_at: i64,
}

/// A bookmark in a book.
pub struct Bookmark {
    /// Bookmark ID.
    pub id: String,
    /// User ID.
    pub user_id: String,
    /// Book ID.
    pub book_id: String,
    /// Page number.
    pub page: Option<i64>,
    /// Position data, in the device's own format.
    pub position_data: Option<String>,
    /// Bookmark name.
    pub name: Option<String>,
    /// Creation timestamp.
    pub created_at: i64,
}

/// A device's backup of its reading state for one book: an opaque blob and
/// a summary read out of it.
pub struct SdrBackup {
    /// User ID.
    pub user_id: String,
    /// Book ID.
    pub book_id: String,
    /// The backup archive, as uploaded.
    pub data: Vec<u8>,
    /// Last page read, from the backup's metadata.
    pub last_page: Option<i64>,
    /// Fraction finished, as the decimal text of the backup's metadata.
    pub percent_finished: Option<String>,
    /// Last update timestamp.
    pub updated_at: i64,
}

/// The summary of a backup, without its blob.
pub struct SdrInfo {
    /// Book ID.
    pub book_id: String,
    /// Last page read.
    pub last_page: Option<i64>,
    /// Fraction finished, as decimal text.
    pub percent_finished: Option<String>,
    /// Last update timestamp.
    pub updated_at: i64,
}

/// A reading device of a user; informational only.
pub struct Device {
    /// Device ID.
    pub id: String,
    /// User ID.
    pub user_id: String,
    /// Device name.
    pub name: Option<String>,
    /// Device model.
    pub model: Option<String>,
    /// Last seen timestamp.
    pub last_seen: i64,
}

/// Reading statistics of a user for a book.
pub struct ReadingStats {
    /// User ID.
    pub user_id: String,
    /// Book ID.
    pub book_id: String,
    /// Total reading time in seconds.
    pub total_time_seconds: i64,
    /// Total pages read.
    pub pages_read: i64,
    /// Number of reading sessions.
    pub sessions_count: i64,
    /// Last update timestamp.
    pub updated_at: i64,
}

/// A device's report of its reading progress in a book.
pub struct ProgressUpdateRequest {
    /// Device ID; none for a device-agnostic record.
    pub device_id: Option<String>,
    /// Current page number.
    pub current_page: Option<i64>,
    /// Total pages in the book.
    pub total_pages: Option<i64>,
    /// Reading percentage, as decimal text.
    pub percentage: Option<String>,
    /// Current chapter name.
    pub current_chapter: Option<String>,
    /// Raw position data.
    pub position_data: Option<String>,
    /// Reading status; "reading" when not given.
    pub status: Option<String>,
}

/// `p` is the progress record that request `req` of `user` for `book` asks
/// to write at time `now`: reading started now (a floor that a stored start
/// overrides), not finished.
pub open spec fn progress_for(p: ReadingProgress, req: ProgressUpdateRequest, user: String, book: String, now: i64) -> bool {
    &&& p.id == 0
    &&& p.user_id == user
    &&& p.book_id == book
    &&& p.device_id == req.device_id
    &&& p.current_page == req.current_page
    &&& p.total_pages == req.total_pages
    &&& p.percentage == req.percentage
    &&& p.current_chapter == req.current_chapter
    &&& p.position_data == req.position_data
    &&& (match req.status {
        Some(st) => p.status == st,
        None => p.status@ == "reading"@,
    })
    &&& p.started_at == Some(now)
    &&& p.finished_at is None
    &&& p.updated_at == now
}

/// A device's request to store a highlight.
pub struct HighlightRequest {
    /// Id chosen by the device, if any.
    pub id: Option<String>,
    /// Device ID.
    pub device_id: Option<String>,
    /// Page number.
    pub page: Option<i64>,
    /// Chapter name.
    pub chapter: Option<String>,
    /// Highlighted text.
    pub text: String,
    /// User note.
    pub note: Option<String>,
    /// Color; yellow when not given.
    pub color: Option<String>,
    /// Start position.
    pub pos0: Option<String>,
    /// End position.
    pub pos1: Option<String>,
}

/// A device's request to store a bookmark.
pub struct BookmarkRequest {
    /// Id chosen by the device, if any.
    pub id: Option<String>,
    /// Page number.
    pub page: Option<i64>,
    /// Position data.
    pub position_data: Option<String>,
    /// Bookmark name.
    pub name: Option<String>,
}

/// `h` is the highlight that request `req` of `user` for `book` asks for at
/// time `now`, `id` being its id.
pub open spec fn highlight_for(h: Highlight, req: HighlightRequest, user: String, book: String, id: String, now: i64) -> bool {
    &&& h.id == id
    &&& h.user_id == user
    &&& h.book_id == book
    &&& h.device_id == req.device_id
    &&& h.page == req.page
    &&& h.chapter == req.chapter
    &&& h.text == req.text
    &&& h.note == req.note
    &&& (match req.color {
        Some(c) => h.color == c,
        None => h.color@ == "yellow"@,
    })
    &&& h.pos0 == req.pos0
    &&& h.pos1 == req.pos1
    &&& h.created_at == now
    &&& h.updated_at == now
}

/// `b` is the bookmark that request `req` of `user` for `book` asks for at
/// time `now`, `id` being its id.
pub open spec fn bookmark_for(b: Bookmark, req: BookmarkRequest, user: String, book: String, id: String, now: i64) -> bool {
    &&& b.id == id
    &&& b.user_id == user
    &&& b.book_id == book
    &&& b.page == req.page
    &&& b.position_data == req.position_data
    &&& b.name == req.name
    &&& b.created_at == now
}

/// Two progress records share their (user, book, device) key.
pub open spec fn same_progress_key(a: ReadingProgress, b: ReadingProgress) -> bool {
    a.user_id@ == b.user_id@ && a.book_id@ == b.book_id@ && a.device_id.deep_view()
        == b.device_id.deep_view()
}

/// The stored record after a write of `p` over `old`: last write wins on
/// every field but the row id and `started_at`, which keeps its first value.
pub open spec fn progress_merged(old: ReadingProgress, p: ReadingProgress) -> ReadingProgress {
    ReadingProgress {
        id: old.id,
        started_at: if old.started_at is Some {
            old.started_at
        } else {
            p.started_at
        },
        ..p
    }
}

/// Some record of `rows` shares `p`'s key.
pub open spec fn has_progress_key(rows: Seq<ReadingProgress>, p: ReadingProgress) -> bool {
    exists|i: int| 0 <= i < rows.len() && same_progress_key(rows[i], p)
}

/// The index of the record sharing `p`'s key.
pub open spec fn progress_index(rows: Seq<ReadingProgress>, p: ReadingProgress) -> int {
    choose|i: int| 0 <= i < rows.len() && same_progress_key(rows[i], p)
}

/// The records after a write of `p`, the next free row id being `next`.
pub open spec fn progress_saved(rows: Seq<ReadingProgress>, p: ReadingProgress, next: i64) -> Seq<
    ReadingProgress,
> {
    if has_progress_key(rows, p) {
        let i = progress_index(rows, p);
        rows.update(i, progress_merged(rows[i], p))
    } else {
        rows.push(ReadingProgress { id: next, ..p })
    }
}

/// `r` is the record a read of (user, book) returns: the latest update, the
/// larger row id breaking ties.
pub open spec fn is_latest_progress(rows: Seq<ReadingProgress>, user: Seq<char>, book: Seq<char>, r: ReadingProgress) -> bool {
    &&& exists|i: int| 0 <= i < rows.len() && rows[i] == r
    &&& r.user_id@ == user
    &&& r.book_id@ == book
    &&& forall|j: int|
        0 <= j < rows.len() && rows[j].user_id@ == user && rows[j].book_id@ == book ==> rows[j].updated_at
            < r.updated_at || (rows[j].updated_at == r.updated_at && rows[j].id <= r.id)
}

/// The highlight after a write of `h` over `old`: only the note, the color
/// and the update time change.
pub open spec fn highlight_merged(old: Highlight, h: Highlight) -> Highlight {
    Highlight { note: h.note, color: h.color, updated_at: h.updated_at, ..old }
}

/// The bookmark after a write of `b` over `old`: only the name changes.
pub open spec fn bookmark_merged(old: Bookmark, b: Bookmark) -> Bookmark {
    Bookmark { name: b.name, ..old }
}

/// The backup of `sdr`'s (user, book) is at index `i` of `rows`.
pub open spec fn sdr_at(rows: Seq<SdrBackup>, i: int, user: Seq<char>, book: Seq<char>) -> bool {
    0 <= i < rows.len() && rows[i].user_id@ == user && rows[i].book_id@ == book
}

/// The index of the backup of (user, book).
pub open spec fn sdr_index(rows: Seq<SdrBackup>, user: Seq<char>, book: Seq<char>) -> int {
    choose|i: int| sdr_at(rows, i, user, book)
}

/// The backups after a write of `b`: it replaces the backup of its (user,
/// book) wholesale, or is added.
pub open spec fn sdr_saved(rows: Seq<SdrBackup>, b: SdrBackup) -> Seq<SdrBackup> {
    if exists|i: int| sdr_at(rows, i, b.user_id@, b.book_id@) {
        rows.update(sdr_index(rows, b.user_id@, b.book_id@), b)
    } else {
        rows.push(b)
    }
}

/// Records of reading state, per user and book.
pub struct ReadingStore {
    progress: Vec<ReadingProgress>,
    highlights: Vec<Highlight>,
    bookmarks: Vec<Bookmark>,
    sdrs: Vec<SdrBackup>,
    next_progress_id: i64,
}

impl ReadingStore {
    /// The progress records.
    pub closed spec fn progress_rows(&self) -> Seq<ReadingProgress> {
        self.progress@
    }

    /// The highlights.
    pub closed spec fn highlight_rows(&self) -> Seq<Highlight> {
        self.highlights@
    }

    /// The bookmarks.
    pub closed spec fn bookmark_rows(&self) -> Seq<Bookmark> {
        self.bookmarks@
    }

    /// The backups.
    pub closed spec fn sdr_rows(&self) -> Seq<SdrBackup> {
        self.sdrs@
    }

    /// The row id the next new progress record gets.
    pub closed spec fn next_id(&self) -> i64 {
        self.next_progress_id
    }

    /// Well-formedness: every key is unique, and every progress row id is
    /// positive, distinct and below the next one.
    pub open spec fn wf(&self) -> bool {
        let p = self.progress_rows();
        let h = self.highlight_rows();
        let b = self.bookmark_rows();
        let s = self.sdr_rows();
        &&& self.next_id() >= 1
        &&& forall|i: int| 0 <= i < p.len() ==> 1 <= #[trigger] p[i].id < self.next_id()
        &&& forall|i: int, j: int|
            #![trigger p[i], p[j]]
            0 <= i < p.len() && 0 <= j < p.len() && i != j ==> !same_progress_key(p[i], p[j]) && p[i].id != p[j].id
        &&& forall|i: int, j: int|
            #![trigger h[i], h[j]]
            0 <= i < h.len() && 0 <= j < h.len() && i != j ==> h[i].id@ != h[j].id@
        &&& forall|i: int, j: int|
            #![trigger b[i], b[j]]
            0 <= i < b.len() && 0 <= j < b.len() && i != j ==> b[i].id@ != b[j].id@
        &&& forall|i: int, j: int|
            #![trigger s[i], s[j]]
            0 <= i < s.len() && 0 <= j < s.len() && i != j ==> !(s[i].user_id@ == s[j].user_id@ && s[i].book_id@ == s[j].book_id@)
    }

    /// An empty store.
    pub fn new() -> (r: ReadingStore)
        ensures
            r.wf(),
            r.next_id() == 1,
            r.progress_rows().len() == 0,
            r.highlight_rows().len() == 0,
            r.bookmark_rows().len() == 0,
            r.sdr_rows().len() == 0,
    {
        ReadingStore {
            progress: Vec::new(),
            highlights: Vec::new(),
            bookmarks: Vec::new(),
            sdrs: Vec::new(),
            next_progress_id: 1,
        }
    }

    /// Index of the progress record sharing `p`'s key.
    fn find_progress(&self, p: &ReadingProgress) -> (r: Option<usize>)
        ensures
            match r {
                Some(i) => i < self.progress_rows().len() && same_progress_key(self.progress_rows()[i as int], *p),
                None => !has_progress_key(self.progress_rows(), *p),
            },
    {
        let mut i: usize = 0;
        while i < self.progress.len()
            invariant
                i <= self.progress@.len(),
                forall|k: int| 0 <= k < i ==> !same_progress_key(self.progress@[k], *p),
            decreases self.progress@.len() - i,
        {
            let row = &self.progress[i];
            if str_eq(row.user_id.as_str(), p.user_id.as_str()) && str_eq(row.book_id.as_str(), p.book_id.as_str())
                && opt_str_eq(&row.device_id, &p.device_id) {
                return Some(i);
            }
            i = i + 1;
        }
        None
    }

    /// Writes progress for its (user, book, device) key: the first write
    /// inserts a record under a fresh row id; a later one overwrites every
    /// field but `started_at`, which keeps the first value it was given.
    /// Fails, changing nothing, only when row ids are exhausted.
    pub fn save_progress(&mut self, p: ReadingProgress) -> (r: Result<(), AppError>)
        requires
            old(self).wf(),
        ensures
            final(self).wf(),
            final(self).highlight_rows() == old(self).highlight_rows(),
            final(self).bookmark_rows() == old(self).bookmark_rows(),
            final(self).sdr_rows() == old(self).sdr_rows(),
            r is Ok <==> (has_progress_key(old(self).progress_rows(), p) || old(self).next_id() < i64::MAX),
            r is Ok ==> final(self).progress_rows() == progress_saved(old(self).progress_rows(), p, old(self).next_id()),
            r is Ok && has_progress_key(old(self).progress_rows(), p) ==> final(self).next_id() == old(self).next_id(),
            r is Ok && !has_progress_key(old(self).progress_rows(), p) ==> final(self).next_id() == old(self).next_id() + 1,
            r is Err ==> final(self).progress_rows() == old(self).progress_rows() && r->Err_0 is Internal,
    {
        let ghost rows = self.progress@;
        match self.find_progress(&p) {
            Some(i) => {
                proof {
                    let j = progress_index(rows, p);
                    assert(j == i) by {
                        if j != i {
                            assert(same_progress_key(rows[j], rows[i as int]));
                        }
                    }
                }
                let id = self.progress[i].id;
                let started = self.progress[i].started_at;
                let started_at = if started.is_some() { started } else { p.started_at };
                let row = ReadingProgress { id, started_at, ..p };
                self.progress.set(i, row);
                assert(self.progress@ =~= progress_saved(rows, p, self.next_progress_id));
                proof {
                    assert forall|a: int, b: int| 0 <= a < self.progress@.len() && 0 <= b < self.progress@.len() && a != b
                        implies !same_progress_key(self.progress@[a], self.progress@[b]) && self.progress@[a].id != self.progress@[b].id by {
                        assert(same_progress_key(self.progress@[i as int], rows[i as int]));
                        assert(old(self).progress_rows() == rows);
                        assert(!same_progress_key(rows[a], rows[b]) && rows[a].id != rows[b].id);
                        if a == i {
                            assert(self.progress@[b] == rows[b]);
                        } else if b == i {
                            assert(self.progress@[a] == rows[a]);
                        } else {
                            assert(self.progress@[a] == rows[a]);
                            assert(self.progress@[b] == rows[b]);
                        }
                    }
                }
                Ok(())
            },
            None => {
                if self.next_progress_id == i64::MAX {
                    return Err(AppError::Internal(String::from_str("progress row ids are exhausted")));
                }
                let id = self.next_progress_id;
                let row = ReadingProgress { id, ..p };
                self.progress.push(row);
                self.next_progress_id = id + 1;
                assert(self.progress@ =~= progress_saved(rows, p, id));
                proof {
                    assert forall|a: int, b: int| 0 <= a < self.progress@.len() && 0 <= b < self.progress@.len() && a != b
                        implies !same_progress_key(self.progress@[a], self.progress@[b]) && self.progress@[a].id != self.progress@[b].id by {
                        if a == rows.len() {
                            assert(!same_progress_key(rows[b], p));
                        } else if b == rows.len() {
                            assert(!same_progress_key(rows[a], p));
                        }
                    }
                }
                Ok(())
            },
        }
    }

    /// The progress of `user_id` in `book_id` updated last (the larger row id
    /// breaking ties), over all devices.
    pub fn get_progress(&self, user_id: &str, book_id: &str) -> (r: Option<&ReadingProgress>)
        requires
            self.wf(),
        ensures
            r is None <==> forall|j: int| 0 <= j < self.progress_rows().len()
                ==> !(self.progress_rows()[j].user_id@ == user_id@ && self.progress_rows()[j].book_id@ == book_id@),
            r is Some ==> is_latest_progress(self.progress_rows(), user_id@, book_id@, *r.unwrap()),
    {
        let mut best: Option<usize> = None;
        let mut i: usize = 0;
        while i < self.progress.len()
            invariant
                i <= self.progress@.len(),
                match best {
                    None => forall|j: int| 0 <= j < i ==> !(self.progress@[j].user_id@ == user_id@ && self.progress@[j].book_id@ == book_id@),
                    Some(b) => b < i && self.progress@[b as int].user_id@ == user_id@ && self.progress@[b as int].book_id@ == book_id@
                        && forall|j: int| 0 <= j < i && self.progress@[j].user_id@ == user_id@ && self.progress@[j].book_id@ == book_id@
                            ==> self.progress@[j].updated_at < self.progress@[b as int].updated_at
                                || (self.progress@[j].updated_at == self.progress@[b as int].updated_at && self.progress@[j].id <= self.progress@[b as int].id),
                },
            decreases self.progress@.len() - i,
        {
            let row = &self.progress[i];
            if str_eq(row.user_id.as_str(), user_id) && str_eq(row.book_id.as_str(), book_id) {
                match best {
                    None => {
                        best = Some(i);
                    },
                    Some(b) => {
                        let cur = &self.progress[b];
                        if row.updated_at > cur.updated_at || (row.updated_at == cur.updated_at && row.id > cur.id) {
                            best = Some(i);
                        }
                    },
                }
            }
            i = i + 1;
        }
        match best {
            Some(b) => Some(&self.progress[b]),
            None => None,
        }
    }

    /// Index of the highlight with the given id.
    fn find_highlight(&self, id: &str) -> (r: Option<usize>)
        ensures
            match r {
                Some(i) => i < self.highlight_rows().len() && self.highlight_rows()[i as int].id@ == id@,
                None => forall|k: int| 0 <= k < self.highlight_rows().len() ==> self.highlight_rows()[k].id@ != id@,
            },
    {
        let mut i: usize = 0;
        while i < self.highlights.len()
            invariant
                i <= self.highlights@.len(),
                forall|k: int| 0 <= k < i ==> self.highlights@[k].id@ != id@,
            decreases self.highlights@.len() - i,
        {
            if str_eq(self.highlights[i].id.as_str(), id) {
                return Some(i);
            }
            i = i + 1;
        }
        None
    }

    /// Writes a highlight: a fresh id inserts it; a known id updates only
    /// the note, the color and the update time.
    pub fn save_highlight(&mut self, h: Highlight)
        requires
            old(self).wf(),
        ensures
            final(self).wf(),
            final(self).progress_rows() == old(self).progress_rows(),
            final(self).next_id() == old(self).next_id(),
            final(self).bookmark_rows() == old(self).bookmark_rows(),
            final(self).sdr_rows() == old(self).sdr_rows(),
            (forall|k: int| 0 <= k < old(self).highlight_rows().len() ==> old(self).highlight_rows()[k].id@ != h.id@)
                ==> final(self).highlight_rows() == old(self).highlight_rows().push(h),
            forall|k: int| 0 <= k < old(self).highlight_rows().len() && old(self).highlight_rows()[k].id@ == h.id@
                ==> final(self).highlight_rows() == old(self).highlight_rows().update(k, highlight_merged(old(self).highlight_rows()[k], h)),
    {
        let ghost rows = self.highlights@;
        match self.find_highlight(h.id.as_str()) {
            Some(i) => {
                let old_row = self.highlights.remove(i);
                let row = Highlight { note: h.note, color: h.color, updated_at: h.updated_at, ..old_row };
                self.highlights.insert(i, row);
                assert(self.highlights@ =~= rows.update(i as int, row));
                proof {
                    assert forall|k: int| 0 <= k < rows.len() && rows[k].id@ == h.id@ implies k == i by {
                        if k != i {
                            assert(rows[k].id@ != rows[i as int].id@);
                        }
                    }
                    assert forall|a: int, b: int| 0 <= a < self.highlights@.len() && 0 <= b < self.highlights@.len() && a != b
                        implies self.highlights@[a].id@ != self.highlights@[b].id@ by {
                        assert(rows[a].id@ != rows[b].id@);
                    }
                }
            },
            None => {
                self.highlights.push(h);
                proof {
                    assert forall|a: int, b: int| 0 <= a < self.highlights@.len() && 0 <= b < self.highlights@.len() && a != b
                        implies self.highlights@[a].id@ != self.highlights@[b].id@ by {
                        if a < rows.len() && b < rows.len() {
                            assert(rows[a].id@ != rows[b].id@);
                        }
                    }
                }
            },
        }
    }

    /// Copies of the highlights of `user_id` in `book_id`, ordered by page
    /// (those without a page first), then by creation time, then by store
    /// order.
    pub fn get_highlights(&self, user_id: &str, book_id: &str) -> (r: Vec<Highlight>)
        ensures
            highlight_ordered(r@, self.highlight_rows().filter(highlight_of(user_id@, book_id@))),
    {
        let f = self.highlights_in_store_order(user_id, book_id);
        let mut keys: Vec<SortKey> = Vec::new();
        let mut i: usize = 0;
        while i < f.len()
            invariant
                i <= f@.len(),
                keys@.len() == i,
                forall|m: int| 0 <= m < i ==> keys@[m] == highlight_key(f@[m]),
            decreases f@.len() - i,
        {
            let key = match f[i].page {
                Some(p) => (1u8, p, f[i].created_at),
                None => (0u8, 0i64, f[i].created_at),
            };
            keys.push(key);
            i = i + 1;
        }
        assert(keys@ =~= highlight_keys(f@));
        let ord = order_by_keys(&keys);
        let mut out: Vec<Highlight> = Vec::new();
        let mut k: usize = 0;
        while k < ord.len()
            invariant
                stable_order(highlight_keys(f@), ord@),
                k <= ord@.len(),
                out@.len() == k,
                forall|m: int| 0 <= m < k ==> out@[m] == f@[ord@[m] as int],
            decreases ord@.len() - k,
        {
            out.push(f[ord[k]].duplicate());
            k = k + 1;
        }
        assert(highlight_keys(f@).len() == f@.len());
        out
    }

    /// Copies of the highlights of `user_id` in `book_id`, in store order.
    fn highlights_in_store_order(&self, user_id: &str, book_id: &str) -> (r: Vec<Highlight>)
        ensures
            r@ == self.highlight_rows().filter(highlight_of(user_id@, book_id@)),
    {
        let ghost u = user_id@;
        let ghost b = book_id@;
        let mut out: Vec<Highlight> = Vec::new();
        let mut i: usize = 0;
        while i < self.highlights.len()
            invariant
                i <= self.highlights@.len(),
                u == user_id@,
                b == book_id@,
                out@ == self.highlights@.subrange(0, i as int).filter(highlight_of(u, b)),
            decreases self.highlights@.len() - i,
        {
            proof {
                let pre = self.highlights@.subrange(0, i as int);
                assert(self.highlights@.subrange(0, i + 1) =~= pre.push(self.highlights@[i as int]));
                pre.lemma_filter_push(self.highlights@[i as int], highlight_of(u, b));
            }
            let h = &self.highlights[i];
            if str_eq(h.user_id.as_str(), user_id) && str_eq(h.book_id.as_str(), book_id) {
                out.push(h.duplicate());
            }
            i = i + 1;
        }
        assert(self.highlights@.subrange(0, self.highlights@.len() as int) =~= self.highlights@);
        out
    }

    /// Deletes the highlight with the given id, where it belongs to
    /// `user_id`. Returns whether one was deleted.
    pub fn delete_highlight(&mut self, id: &str, user_id: &str) -> (r: bool)
        requires
            old(self).wf(),
        ensures
            final(self).wf(),
            final(self).progress_rows() == old(self).progress_rows(),
            final(self).next_id() == old(self).next_id(),
            final(self).bookmark_rows() == old(self).bookmark_rows(),
            final(self).sdr_rows() == old(self).sdr_rows(),
            r == exists|k: int| 0 <= k < old(self).highlight_rows().len() && old(self).highlight_rows()[k].id@ == id@
                && old(self).highlight_rows()[k].user_id@ == user_id@,
            r ==> exists|k: int| 0 <= k < old(self).highlight_rows().len() && old(self).highlight_rows()[k].id@ == id@
                && final(self).highlight_rows() == old(self).highlight_rows().remove(k),
            !r ==> final(self).highlight_rows() == old(self).highlight_rows(),
    {
        let ghost rows = self.highlights@;
        match self.find_highlight(id) {
            Some(i) => {
                if !str_eq(self.highlights[i].user_id.as_str(), user_id) {
                    proof {
                        assert forall|k: int| 0 <= k < rows.len() && rows[k].id@ == id@ implies rows[k].user_id@ != user_id@ by {
                            if k != i {
                                assert(rows[k].id@ != rows[i as int].id@);
                            }
                        }
                    }
                    return false;
                }
                let _gone = self.highlights.remove(i);
                proof {
                    assert forall|a: int, b: int| 0 <= a < self.highlights@.len() && 0 <= b < self.highlights@.len() && a != b
                        implies self.highlights@[a].id@ != self.highlights@[b].id@ by {
                        let a0 = if a < i { a } else { a + 1 };
                        let b0 = if b < i { b } else { b + 1 };
                        assert(self.highlights@[a] == rows[a0]);
                        assert(self.highlights@[b] == rows[b0]);
                        assert(rows[a0].id@ != rows[b0].id@);
                    }
                }
                true
            },
            None => false,
        }
    }
    /// Index of the bookmark with the given id.
    fn find_bookmark(&self, id: &str) -> (r: Option<usize>)
        ensures
            match r {
                Some(i) => i < self.bookmark_rows().len() && self.bookmark_rows()[i as int].id@ == id@,
                None => forall|k: int| 0 <= k < self.bookmark_rows().len() ==> self.bookmark_rows()[k].id@ != id@,
            },
    {
        let mut i: usize = 0;
        while i < self.bookmarks.len()
            invariant
                i <= self.bookmarks@.len(),
                forall|k: int| 0 <= k < i ==> self.bookmarks@[k].id@ != id@,
            decreases self.bookmarks@.len() - i,
        {
            if str_eq(self.bookmarks[i].id.as_str(), id) {
                return Some(i);
            }
            i = i + 1;
        }
        None
    }

    /// Writes a bookmark: a fresh id inserts it; a known id updates only
    /// its name.
    pub fn save_bookmark(&mut self, h: Bookmark)
        requires
            old(self).wf(),
        ensures
            final(self).wf(),
            final(self).progress_rows() == old(self).progress_rows(),
            final(self).next_id() == old(self).next_id(),
            final(self).highlight_rows() == old(self).highlight_rows(),
            final(self).sdr_rows() == old(self).sdr_rows(),
            (forall|k: int| 0 <= k < old(self).bookmark_rows().len() ==> old(self).bookmark_rows()[k].id@ != h.id@)
                ==> final(self).bookmark_rows() == old(self).bookmark_rows().push(h),
            forall|k: int| 0 <= k < old(self).bookmark_rows().len() && old(self).bookmark_rows()[k].id@ == h.id@
                ==> final(self).bookmark_rows() == old(self).bookmark_rows().update(k, bookmark_merged(old(self).bookmark_rows()[k], h)),
    {
        let ghost rows = self.bookmarks@;
        match self.find_bookmark(h.id.as_str()) {
            Some(i) => {
                let old_row = self.bookmarks.remove(i);
                let row = Bookmark { name: h.name, ..old_row };
                self.bookmarks.insert(i, row);
                assert(self.bookmarks@ =~= rows.update(i as int, row));
                proof {
                    assert forall|k: int| 0 <= k < rows.len() && rows[k].id@ == h.id@ implies k == i by {
                        if k != i {
                            assert(rows[k].id@ != rows[i as int].id@);
                        }
                    }
                    assert forall|a: int, b: int| 0 <= a < self.bookmarks@.len() && 0 <= b < self.bookmarks@.len() && a != b
                        implies self.bookmarks@[a].id@ != self.bookmarks@[b].id@ by {
                        assert(rows[a].id@ != rows[b].id@);
                    }
                }
            },
            None => {
                self.bookmarks.push(h);
                proof {
                    assert forall|a: int, b: int| 0 <= a < self.bookmarks@.len() && 0 <= b < self.bookmarks@.len() && a != b
                        implies self.bookmarks@[a].id@ != self.bookmarks@[b].id@ by {
                        if a < rows.len() && b < rows.len() {
                            assert(rows[a].id@ != rows[b].id@);
                        }
                    }
                }
            },
        }
    }

    /// Copies of the bookmarks of `user_id` in `book_id`, ordered by page
    /// (those without a page first), then by creation time, then by store
    /// order.
    pub fn get_bookmarks(&self, user_id: &str, book_id: &str) -> (r: Vec<Bookmark>)
        ensures
            bookmark_ordered(r@, self.bookmark_rows().filter(bookmark_of(user_id@, book_id@))),
    {
        let f = self.bookmarks_in_store_order(user_id, book_id);
        let mut keys: Vec<SortKey> = Vec::new();
        let mut i: usize = 0;
        while i < f.len()
            invariant
                i <= f@.len(),
                keys@.len() == i,
                forall|m: int| 0 <= m < i ==> keys@[m] == bookmark_key(f@[m]),
            decreases f@.len() - i,
        {
            let key = match f[i].page {
                Some(p) => (1u8, p, f[i].created_at),
                None => (0u8, 0i64, f[i].created_at),
            };
            keys.push(key);
            i = i + 1;
        }
        assert(keys@ =~= bookmark_keys(f@));
        let ord = order_by_keys(&keys);
        let mut out: Vec<Bookmark> = Vec::new();
        let mut k: usize = 0;
        while k < ord.len()
            invariant
                stable_order(bookmark_keys(f@), ord@),
                k <= ord@.len(),
                out@.len() == k,
                forall|m: int| 0 <= m < k ==> out@[m] == f@[ord@[m] as int],
            decreases ord@.len() - k,
        {
            out.push(f[ord[k]].duplicate());
            k = k + 1;
        }
        assert(bookmark_keys(f@).len() == f@.len());
        out
    }

    /// Copies of the bookmarks of `user_id` in `book_id`, in store order.
    fn bookmarks_in_store_order(&self, user_id: &str, book_id: &str) -> (r: Vec<Bookmark>)
        ensures
            r@ == self.bookmark_rows().filter(bookmark_of(user_id@, book_id@)),
    {
        let ghost u = user_id@;
        let ghost b = book_id@;
        let mut out: Vec<Bookmark> = Vec::new();
        let mut i: usize = 0;
        while i < self.bookmarks.len()
            invariant
                i <= self.bookmarks@.len(),
                u == user_id@,
                b == book_id@,
                out@ == self.bookmarks@.subrange(0, i as int).filter(bookmark_of(u, b)),
            decreases self.bookmarks@.len() - i,
        {
            proof {
                let pre = self.bookmarks@.subrange(0, i as int);
                assert(self.bookmarks@.subrange(0, i + 1) =~= pre.push(self.bookmarks@[i as int]));
                pre.lemma_filter_push(self.bookmarks@[i as int], bookmark_of(u, b));
            }
            let h = &self.bookmarks[i];
            if str_eq(h.user_id.as_str(), user_id) && str_eq(h.book_id.as_str(), book_id) {
                out.push(h.duplicate());
            }
            i = i + 1;
        }
        assert(self.bookmarks@.subrange(0, self.bookmarks@.len() as int) =~= self.bookmarks@);
        out
    }

    /// Deletes the bookmark with the given id, where it belongs to
    /// `user_id`. Returns whether one was deleted.
    pub fn delete_bookmark(&mut self, id: &str, user_id: &str) -> (r: bool)
        requires
            old(self).wf(),
        ensures
            final(self).wf(),
            final(self).progress_rows() == old(self).progress_rows(),
            final(self).next_id() == old(self).next_id(),
            final(self).highlight_rows() == old(self).highlight_rows(),
            final(self).sdr_rows() == old(self).sdr_rows(),
            r == exists|k: int| 0 <= k < old(self).bookmark_rows().len() && old(self).bookmark_rows()[k].id@ == id@
                && old(self).bookmark_rows()[k].user_id@ == user_id@,
            r ==> exists|k: int| 0 <= k < old(self).bookmark_rows().len() && old(self).bookmark_rows()[k].id@ == id@
                && final(self).bookmark_rows() == old(self).bookmark_rows().remove(k),
            !r ==> final(self).bookmark_rows() == old(self).bookmark_rows(),
    {
        let ghost rows = self.bookmarks@;
        match self.find_bookmark(id) {
            Some(i) => {
                if !str_eq(self.bookmarks[i].user_id.as_str(), user_id) {
                    proof {
                        assert forall|k: int| 0 <= k < rows.len() && rows[k].id@ == id@ implies rows[k].user_id@ != user_id@ by {
                            if k != i {
                                assert(rows[k].id@ != rows[i as int].id@);
                            }
                        }
                    }
                    return false;
                }
                let _gone = self.bookmarks.remove(i);
                proof {
                    assert forall|a: int, b: int| 0 <= a < self.bookmarks@.len() && 0 <= b < self.bookmarks@.len() && a != b
                        implies self.bookmarks@[a].id@ != self.bookmarks@[b].id@ by {
                        let a0 = if a < i { a } else { a + 1 };
                        let b0 = if b < i { b } else { b + 1 };
                        assert(self.bookmarks@[a] == rows[a0]);
                        assert(self.bookmarks@[b] == rows[b0]);
                        assert(rows[a0].id@ != rows[b0].id@);
                    }
                }
                true
            },
            None => false,
        }
    }

    /// Index of the backup of (user, book).
    fn find_sdr(&self, user_id: &str, book_id: &str) -> (r: Option<usize>)
        ensures
            match r {
                Some(i) => sdr_at(self.sdr_rows(), i as int, user_id@, book_id@),
                None => forall|k: int| !sdr_at(self.sdr_rows(), k, user_id@, book_id@),
            },
    {
        let mut i: usize = 0;
        while i < self.sdrs.len()
            invariant
                i <= self.sdrs@.len(),
                forall|k: int| 0 <= k < i ==> !sdr_at(self.sdrs@, k, user_id@, book_id@),
            decreases self.sdrs@.len() - i,
        {
            if str_eq(self.sdrs[i].user_id.as_str(), user_id) && str_eq(self.sdrs[i].book_id.as_str(), book_id) {
                return Some(i);
            }
            i = i + 1;
        }
        None
    }

    /// Writes a backup: it replaces, blob and summary alike, any earlier
    /// backup of the same (user, book).
    pub fn save_sdr(&mut self, sdr: SdrBackup)
        requires
            old(self).wf(),
        ensures
            final(self).wf(),
            final(self).progress_rows() == old(self).progress_rows(),
            final(self).next_id() == old(self).next_id(),
            final(self).highlight_rows() == old(self).highlight_rows(),
            final(self).bookmark_rows() == old(self).bookmark_rows(),
            final(self).sdr_rows() == sdr_saved(old(self).sdr_rows(), sdr),
    {
        let ghost rows = self.sdrs@;
        match self.find_sdr(sdr.user_id.as_str(), sdr.book_id.as_str()) {
            Some(i) => {
                proof {
                    let j = sdr_index(rows, sdr.user_id@, sdr.book_id@);
                    assert(j == i) by {
                        if j != i {
                            assert(!(rows[j].user_id@ == rows[i as int].user_id@ && rows[j].book_id@ == rows[i as int].book_id@));
                        }
                    }
                }
                self.sdrs.set(i, sdr);
                proof {
                    assert forall|a: int, b: int| 0 <= a < self.sdrs@.len() && 0 <= b < self.sdrs@.len() && a != b
                        implies !(self.sdrs@[a].user_id@ == self.sdrs@[b].user_id@ && self.sdrs@[a].book_id@ == self.sdrs@[b].book_id@) by {
                        assert(!(rows[a].user_id@ == rows[b].user_id@ && rows[a].book_id@ == rows[b].book_id@));
                    }
                }
            },
            None => {
                self.sdrs.push(sdr);
                proof {
                    assert forall|a: int, b: int| 0 <= a < self.sdrs@.len() && 0 <= b < self.sdrs@.len() && a != b
                        implies !(self.sdrs@[a].user_id@ == self.sdrs@[b].user_id@ && self.sdrs@[a].book_id@ == self.sdrs@[b].book_id@) by {
                        if a < rows.len() && b < rows.len() {
                            assert(!(rows[a].user_id@ == rows[b].user_id@ && rows[a].book_id@ == rows[b].book_id@));
                        } else if a < rows.len() {
                            assert(!sdr_at(rows, a, sdr.user_id@, sdr.book_id@));
                        } else {
                            assert(!sdr_at(rows, b, sdr.user_id@, sdr.book_id@));
                        }
                    }
                }
            },
        }
        assert(self.sdrs@ =~= sdr_saved(rows, sdr));
    }

    /// Writes the progress a device reports, as of `now`.
    pub fn update_progress(&mut self, req: ProgressUpdateRequest, user_id: String, book_id: String, now: i64) -> (r: Result<(), AppError>)
        requires
            old(self).wf(),
        ensures
            final(self).wf(),
            final(self).highlight_rows() == old(self).highlight_rows(),
            final(self).bookmark_rows() == old(self).bookmark_rows(),
            final(self).sdr_rows() == old(self).sdr_rows(),
            exists|p: ReadingProgress|
                #[trigger] progress_for(p, req, user_id, book_id, now)
                && (r is Ok <==> (has_progress_key(old(self).progress_rows(), p) || old(self).next_id() < i64::MAX))
                && (r is Ok ==> final(self).progress_rows() == progress_saved(old(self).progress_rows(), p, old(self).next_id()))
                && (r is Err ==> final(self).progress_rows() == old(self).progress_rows()),
    {
        let ghost g = req;
        let ProgressUpdateRequest { device_id, current_page, total_pages, percentage, current_chapter, position_data, status } = req;
        let status = match status {
            Some(st) => st,
            None => String::from_str("reading"),
        };
        let p = ReadingProgress {
            id: 0,
            user_id,
            book_id,
            device_id,
            current_page,
            total_pages,
            percentage,
            current_chapter,
            position_data,
            status,
            started_at: Some(now),
            finished_at: None,
            updated_at: now,
        };
        assert(progress_for(p, g, p.user_id, p.book_id, now));
        self.save_progress(p)
    }

    /// Stores the highlight a device asks for, under the device's id or a
    /// fresh random one, and returns it.
    pub fn add_highlight(&mut self, req: HighlightRequest, user_id: String, book_id: String, now: i64) -> (r: Highlight)
        requires
            old(self).wf(),
        ensures
            final(self).wf(),
            final(self).progress_rows() == old(self).progress_rows(),
            final(self).next_id() == old(self).next_id(),
            final(self).bookmark_rows() == old(self).bookmark_rows(),
            final(self).sdr_rows() == old(self).sdr_rows(),
            req.id matches Some(i) ==> r.id == i,
            exists|id: String| #[trigger] highlight_for(r, req, user_id, book_id, id, now),
            (forall|k: int| 0 <= k < old(self).highlight_rows().len() ==> old(self).highlight_rows()[k].id@ != r.id@)
                ==> final(self).highlight_rows() == old(self).highlight_rows().push(r),
            forall|k: int| 0 <= k < old(self).highlight_rows().len() && old(self).highlight_rows()[k].id@ == r.id@
                ==> final(self).highlight_rows() == old(self).highlight_rows().update(k, highlight_merged(old(self).highlight_rows()[k], r)),
    {
        let ghost g = req;
        let HighlightRequest { id, device_id, page, chapter, text, note, color, pos0, pos1 } = req;
        let id = match id {
            Some(i) => i,
            None => random_id(),
        };
        let color = match color {
            Some(c) => c,
            None => String::from_str("yellow"),
        };
        let h = Highlight {
            id,
            user_id,
            book_id,
            device_id,
            page,
            chapter,
            text,
            note,
            color,
            pos0,
            pos1,
            created_at: now,
            updated_at: now,
        };
        assert(highlight_for(h, g, h.user_id, h.book_id, h.id, now));
        let out = h.duplicate();
        self.save_highlight(h);
        out
    }

    /// Stores the bookmark a device asks for, under the device's id or a
    /// fresh random one, and returns it.
    pub fn add_bookmark(&mut self, req: BookmarkRequest, user_id: String, book_id: String, now: i64) -> (r: Bookmark)
        requires
            old(self).wf(),
        ensures
            final(self).wf(),
            final(self).progress_rows() == old(self).progress_rows(),
            final(self).next_id() == old(self).next_id(),
            final(self).highlight_rows() == old(self).highlight_rows(),
            final(self).sdr_rows() == old(self).sdr_rows(),
            req.id matches Some(i) ==> r.id == i,
            exists|id: String| #[trigger] bookmark_for(r, req, user_id, book_id, id, now),
            (forall|k: int| 0 <= k < old(self).bookmark_rows().len() ==> old(self).bookmark_rows()[k].id@ != r.id@)
                ==> final(self).bookmark_rows() == old(self).bookmark_rows().push(r),
            forall|k: int| 0 <= k < old(self).bookmark_rows().len() && old(self).bookmark_rows()[k].id@ == r.id@
                ==> final(self).bookmark_rows() == old(self).bookmark_rows().update(k, bookmark_merged(old(self).bookmark_rows()[k], r)),
    {
        let ghost g = req;
        let BookmarkRequest { id, page, position_data, name } = req;
        let id = match id {
            Some(i) => i,
            None => random_id(),
        };
        let b = Bookmark { id, user_id, book_id, page, position_data, name, created_at: now };
        assert(bookmark_for(b, g, b.user_id, b.book_id, b.id, now));
        let out = b.duplicate();
        self.save_bookmark(b);
        out
    }

    /// Stores an uploaded backup blob for (user, book), replacing any earlier
    /// one, with the summary read out of the blob. A blob whose summary
    /// cannot be read is still stored, with an empty summary.
    pub fn upload_sdr(&mut self, user_id: String, book_id: String, data: Vec<u8>, now: i64)
        requires
            old(self).wf(),
        ensures
            final(self).wf(),
            final(self).progress_rows() == old(self).progress_rows(),
            final(self).next_id() == old(self).next_id(),
            final(self).highlight_rows() == old(self).highlight_rows(),
            final(self).bookmark_rows() == old(self).bookmark_rows(),
            exists|b: SdrBackup|
                #[trigger] uploaded_backup(b, user_id@, book_id@, data@, now) && final(self).sdr_rows()
                    == sdr_saved(old(self).sdr_rows(), b),
    {
        let summary = summarize_backup(data.as_slice());
        let ghost d = data@;
        let b = SdrBackup {
            user_id,
            book_id,
            data,
            last_page: summary.last_page,
            percent_finished: summary.percent_finished,
            updated_at: now,
        };
        assert(uploaded_backup(b, b.user_id@, b.book_id@, d, now));
        self.save_sdr(b);
    }

    /// The backup of `user_id` for `book_id`.
    pub fn get_sdr(&self, user_id: &str, book_id: &str) -> (r: Option<&SdrBackup>)
        requires
            self.wf(),
        ensures
            r is Some <==> exists|k: int| sdr_at(self.sdr_rows(), k, user_id@, book_id@),
            r is Some ==> *r.unwrap() == self.sdr_rows()[sdr_index(self.sdr_rows(), user_id@, book_id@)],
    {
        match self.find_sdr(user_id, book_id) {
            Some(i) => {
                proof {
                    let rows = self.sdrs@;
                    let j = sdr_index(rows, user_id@, book_id@);
                    assert(j == i) by {
                        if j != i {
                            assert(!(rows[j].user_id@ == rows[i as int].user_id@ && rows[j].book_id@ == rows[i as int].book_id@));
                        }
                    }
                }
                Some(&self.sdrs[i])
            },
            None => None,
        }
    }

    /// The summary of the backup of `user_id` for `book_id`.
    pub fn get_sdr_info(&self, user_id: &str, book_id: &str) -> (r: Option<SdrInfo>)
        requires
            self.wf(),
        ensures
            r is Some <==> exists|k: int| sdr_at(self.sdr_rows(), k, user_id@, book_id@),
            r is Some ==> r->Some_0 == info_of(self.sdr_rows()[sdr_index(self.sdr_rows(), user_id@, book_id@)]),
    {
        match self.get_sdr(user_id, book_id) {
            Some(b) => Some(b.info()),
            None => None,
        }
    }

    /// The summaries of every backup of `user_id`, in store order.
    pub fn get_user_sdr_list(&self, user_id: &str) -> (r: Vec<SdrInfo>)
        ensures
            r@ == self.sdr_rows().filter(sdr_of(user_id@)).map_values(|b: SdrBackup| info_of(b)),
    {
        let ghost u = user_id@;
        let mut out: Vec<SdrInfo> = Vec::new();
        let mut i: usize = 0;
        while i < self.sdrs.len()
            invariant
                i <= self.sdrs@.len(),
                u == user_id@,
                out@ == self.sdrs@.subrange(0, i as int).filter(sdr_of(u)).map_values(|b: SdrBackup| info_of(b)),
            decreases self.sdrs@.len() - i,
        {
            proof {
                let pre = self.sdrs@.subrange(0, i as int);
                assert(self.sdrs@.subrange(0, i + 1) =~= pre.push(self.sdrs@[i as int]));
                pre.lemma_filter_push(self.sdrs@[i as int], sdr_of(u));
            }
            if str_eq(self.sdrs[i].user_id.as_str(), user_id) {
                let ghost before = out@;
                out.push(self.sdrs[i].info());
                proof {
                    let f = self.sdrs@.subrange(0, i + 1).filter(sdr_of(u));
                    assert(out@ =~= f.map_values(|b: SdrBackup| info_of(b)));
                }
            } else {
                proof {
                    let f = self.sdrs@.subrange(0, i + 1).filter(sdr_of(u));
                    assert(out@ =~= f.map_values(|b: SdrBackup| info_of(b)));
                }
            }
            i = i + 1;
        }
        assert(self.sdrs@.subrange(0, self.sdrs@.len() as int) =~= self.sdrs@);
        out
    }

    /// Deletes the backup of `user_id` for `book_id`; returns whether one
    /// existed.
    pub fn delete_sdr(&mut self, user_id: &str, book_id: &str) -> (r: bool)
        requires
            old(self).wf(),
        ensures
            final(self).wf(),
            final(self).progress_rows() == old(self).progress_rows(),
            final(self).next_id() == old(self).next_id(),
            final(self).highlight_rows() == old(self).highlight_rows(),
            final(self).bookmark_rows() == old(self).bookmark_rows(),
            r == exists|k: int| sdr_at(old(self).sdr_rows(), k, user_id@, book_id@),
            r ==> final(self).sdr_rows() == old(self).sdr_rows().remove(sdr_index(old(self).sdr_rows(), user_id@, book_id@)),
            !r ==> final(self).sdr_rows() == old(self).sdr_rows(),
    {
        let ghost rows = self.sdrs@;
        match self.find_sdr(user_id, book_id) {
            Some(i) => {
                proof {
                    let j = sdr_index(rows, user_id@, book_id@);
                    assert(j == i) by {
                        if j != i {
                            assert(!(rows[j].user_id@ == rows[i as int].user_id@ && rows[j].book_id@ == rows[i as int].book_id@));
                        }
                    }
                }
                let _gone = self.sdrs.remove(i);
                proof {
                    assert forall|a: int, b: int| 0 <= a < self.sdrs@.len() && 0 <= b < self.sdrs@.len() && a != b
                        implies !(self.sdrs@[a].user_id@ == self.sdrs@[b].user_id@ && self.sdrs@[a].book_id@ == self.sdrs@[b].book_id@) by {
                        let a0 = if a < i { a } else { a + 1 };
                        let b0 = if b < i { b } else { b + 1 };
                        assert(self.sdrs@[a] == rows[a0]);
                        assert(self.sdrs@[b] == rows[b0]);
                        assert(!(rows[a0].user_id@ == rows[b0].user_id@ && rows[a0].book_id@ == rows[b0].book_id@));
                    }
                }
                true
            },
            None => false,
        }
    }
}

/// `b` is the backup stored for an upload of `data` by `user` for `book`
/// at time `now`: the blob as given, and the summary read out of it.
pub open spec fn uploaded_backup(b: SdrBackup, user: Seq<char>, book: Seq<char>, data: Seq<u8>, now: i64) -> bool {
    &&& b.user_id@ == user
    &&& b.book_id@ == book
    &&& b.data@ == data
    &&& (b.last_page, b.percent_finished.deep_view()) == backup_summary(data)
    &&& b.updated_at == now
}

/// The predicate "belongs to `user`" on backups.
pub open spec fn sdr_of(user: Seq<char>) -> spec_fn(SdrBackup) -> bool {
    |b: SdrBackup| b.user_id@ == user
}

/// The summary of a backup.
pub open spec fn info_of(b: SdrBackup) -> SdrInfo {
    SdrInfo {
        book_id: b.book_id,
        last_page: b.last_page,
        percent_finished: b.percent_finished,
        updated_at: b.updated_at,
    }
}

impl SdrBackup {
    /// The summary of this backup.
    pub fn info(&self) -> (r: SdrInfo)
        ensures
            r == info_of(*self),
    {
        SdrInfo {
            book_id: copy_string(&self.book_id),
            last_page: self.last_page,
            percent_finished: copy_opt_string(&self.percent_finished),
            updated_at: self.updated_at,
        }
    }
}

/// The predicate "belongs to `user` and `book`" on highlights.
pub open spec fn highlight_of(user: Seq<char>, book: Seq<char>) -> spec_fn(Highlight) -> bool {
    |h: Highlight| h.user_id@ == user && h.book_id@ == book
}

/// The predicate "belongs to `user` and `book`" on bookmarks.
pub open spec fn bookmark_of(user: Seq<char>, book: Seq<char>) -> spec_fn(Bookmark) -> bool {
    |h: Bookmark| h.user_id@ == user && h.book_id@ == book
}

/// The sort key of a bookmark: pages in order, no page first, then creation time.
pub open spec fn bookmark_key(x: Bookmark) -> SortKey {
    match x.page {
        Some(p) => (1u8, p, x.created_at),
        None => (0u8, 0i64, x.created_at),
    }
}

/// The sort keys of a sequence of bookmarks.
pub open spec fn bookmark_keys(f: Seq<Bookmark>) -> Seq<SortKey> {
    f.map_values(|x: Bookmark| bookmark_key(x))
}

/// `r` lists the bookmarks of `f` in their stable key order.
pub open spec fn bookmark_ordered(r: Seq<Bookmark>, f: Seq<Bookmark>) -> bool {
    exists|ord: Seq<usize>|
        #[trigger] stable_order(bookmark_keys(f), ord) && r.len() == f.len() && forall|k: int|
            0 <= k < r.len() ==> r[k] == f[ord[k] as int]
}

impl Bookmark {
    /// A copy of this bookmark.
    pub fn duplicate(&self) -> (r: Bookmark)
        ensures
            r == *self,
    {
        Bookmark {
            id: copy_string(&self.id),
            user_id: copy_string(&self.user_id),
            book_id: copy_string(&self.book_id),
            page: self.page,
            position_data: copy_opt_string(&self.position_data),
            name: copy_opt_string(&self.name),
            created_at: self.created_at,
        }
    }
}

/// The sort key of a highlight: pages in order, no page first, then creation time.
pub open spec fn highlight_key(x: Highlight) -> SortKey {
    match x.page {
        Some(p) => (1u8, p, x.created_at),
        None => (0u8, 0i64, x.created_at),
    }
}

/// The sort keys of a sequence of highlights.
pub open spec fn highlight_keys(f: Seq<Highlight>) -> Seq<SortKey> {
    f.map_values(|x: Highlight| highlight_key(x))
}

/// `r` lists the highlights of `f` in their stable key order.
pub open spec fn highlight_ordered(r: Seq<Highlight>, f: Seq<Highlight>) -> bool {
    exists|ord: Seq<usize>|
        #[trigger] stable_order(highlight_keys(f), ord) && r.len() == f.len() && forall|k: int|
            0 <= k < r.len() ==> r[k] == f[ord[k] as int]
}

impl Highlight {
    /// A copy of this highlight.
    pub fn duplicate(&self) -> (r: Highlight)
        ensures
            r == *self,
    {
        Highlight {
            id: copy_string(&self.id),
            user_id: copy_string(&self.user_id),
            book_id: copy_string(&self.book_id),
            device_id: copy_opt_string(&self.device_id),
            page: self.page,
            chapter: copy_opt_string(&self.chapter),
            text: copy_string(&self.text),
            note: copy_opt_string(&self.note),
            color: copy_string(&self.color),
            pos0: copy_opt_string(&self.pos0),
            pos1: copy_opt_string(&self.pos1),
            created_at: self.created_at,
            updated_at: self.updated_at,
        }
    }
}

/// No two records of `rows` share a key.
pub open spec fn progress_keys_unique(rows: Seq<ReadingProgress>) -> bool {
    forall|i: int, j: int|
        #![trigger rows[i], rows[j]]
        0 <= i < rows.len() && 0 <= j < rows.len() && i != j ==> !same_progress_key(rows[i], rows[j])
}

/// A progress write keeps keys unique and leaves a record of its key.
proof fn lemma_progress_saved_unique(rows: Seq<ReadingProgress>, p: ReadingProgress, next: i64)
    requires
        progress_keys_unique(rows),
    ensures
        progress_keys_unique(progress_saved(rows, p, next)),
        has_progress_key(progress_saved(rows, p, next), p),
        has_progress_key(rows, p) ==> progress_index(progress_saved(rows, p, next), p) == progress_index(rows, p),
        !has_progress_key(rows, p) ==> progress_index(progress_saved(rows, p, next), p) == rows.len(),
{
    let t = progress_saved(rows, p, next);
    if has_progress_key(rows, p) {
        let i = progress_index(rows, p);
        assert(same_progress_key(t[i], p));
        assert forall|a: int, b: int| #![trigger t[a], t[b]] 0 <= a < t.len() && 0 <= b < t.len() && a != b implies !same_progress_key(t[a], t[b]) by {
            assert(!same_progress_key(rows[a], rows[b]));
        }
        let j = progress_index(t, p);
        assert(j == i) by {
            if j != i {
                assert(!same_progress_key(t[j], t[i]));
            }
        }
    } else {
        let i = rows.len() as int;
        assert(same_progress_key(t[i], p));
        assert forall|a: int, b: int| #![trigger t[a], t[b]] 0 <= a < t.len() && 0 <= b < t.len() && a != b implies !same_progress_key(t[a], t[b]) by {
            if a < i && b < i {
                assert(!same_progress_key(rows[a], rows[b]));
            } else if a < i {
                assert(!same_progress_key(rows[a], p));
            } else {
                assert(!same_progress_key(rows[b], p));
            }
        }
        let j = progress_index(t, p);
        assert(j == i) by {
            if j != i {
                assert(!same_progress_key(t[j], t[i]));
            }
        }
    }
}

/// The start a record keeps after a write of `p` over the records `rows`:
/// the stored start where the key's record has one, else `p`'s.
pub open spec fn start_floor(rows: Seq<ReadingProgress>, p: ReadingProgress) -> Option<i64> {
    if has_progress_key(rows, p) && rows[progress_index(rows, p)].started_at is Some {
        rows[progress_index(rows, p)].started_at
    } else {
        p.started_at
    }
}

/// Writing progress that starts at one time, then again for the same
/// (user, book, device) with another start, leaves the first start stored
/// (or an earlier one the record already held), while every other field of
/// the second write overwrites the first's.
pub proof fn lemma_started_at_is_a_floor(
    rows: Seq<ReadingProgress>,
    first: ReadingProgress,
    second: ReadingProgress,
    next: i64,
)
    requires
        progress_keys_unique(rows),
        same_progress_key(first, second),
        first.started_at is Some,
    ensures
        ({
            let once = progress_saved(rows, first, next);
            let next2 = if has_progress_key(rows, first) { next } else { (next + 1) as i64 };
            let twice = progress_saved(once, second, next2);
            let r = twice[progress_index(twice, second)];
            &&& has_progress_key(twice, second)
            &&& r.started_at == start_floor(rows, first)
            &&& r == (ReadingProgress { id: r.id, started_at: start_floor(rows, first), ..second })
        }),
{
    let once = progress_saved(rows, first, next);
    let next2 = if has_progress_key(rows, first) { next } else { (next + 1) as i64 };
    lemma_progress_saved_unique(rows, first, next);
    let i = progress_index(once, first);
    assert(once[i].started_at == start_floor(rows, first));
    assert(same_progress_key(once[i], second));
    assert(has_progress_key(once, second));
    let j = progress_index(once, second);
    assert(j == i) by {
        if j != i {
            assert(!same_progress_key(once[i], once[j]));
        }
    }
    lemma_progress_saved_unique(once, second, next2);
}

/// No two backups of `rows` share a (user, book).
pub open spec fn sdr_keys_unique(rows: Seq<SdrBackup>) -> bool {
    forall|i: int, j: int|
        #![trigger rows[i], rows[j]]
        0 <= i < rows.len() && 0 <= j < rows.len() && i != j ==> !(rows[i].user_id@ == rows[j].user_id@
            && rows[i].book_id@ == rows[j].book_id@)
}

/// A backup write keeps (user, book) unique and leaves its backup there.
proof fn lemma_sdr_saved_unique(rows: Seq<SdrBackup>, b: SdrBackup)
    requires
        sdr_keys_unique(rows),
    ensures
        sdr_keys_unique(sdr_saved(rows, b)),
        exists|k: int| sdr_at(sdr_saved(rows, b), k, b.user_id@, b.book_id@) && sdr_saved(rows, b)[k] == b,
{
    let t = sdr_saved(rows, b);
    if exists|i: int| sdr_at(rows, i, b.user_id@, b.book_id@) {
        let i = sdr_index(rows, b.user_id@, b.book_id@);
        assert(sdr_at(t, i, b.user_id@, b.book_id@) && t[i] == b);
        assert forall|a: int, c: int| #![trigger t[a], t[c]] 0 <= a < t.len() && 0 <= c < t.len() && a != c implies !(t[a].user_id@ == t[c].user_id@ && t[a].book_id@ == t[c].book_id@) by {
            assert(!(rows[a].user_id@ == rows[c].user_id@ && rows[a].book_id@ == rows[c].book_id@));
        }
    } else {
        let i = rows.len() as int;
        assert(sdr_at(t, i, b.user_id@, b.book_id@) && t[i] == b);
        assert forall|a: int, c: int| #![trigger t[a], t[c]] 0 <= a < t.len() && 0 <= c < t.len() && a != c implies !(t[a].user_id@ == t[c].user_id@ && t[a].book_id@ == t[c].book_id@) by {
            if a < i && c < i {
                assert(!(rows[a].user_id@ == rows[c].user_id@ && rows[a].book_id@ == rows[c].book_id@));
            } else if a < i {
                assert(!sdr_at(rows, a, b.user_id@, b.book_id@));
            } else {
                assert(!sdr_at(rows, c, b.user_id@, b.book_id@));
            }
        }
    }
}

/// Saving a backup and then another for the same (user, book) leaves a
/// single backup of that pair, and it is the second one, blob and summary:
/// nothing of the first write remains.
pub proof fn lemma_sdr_write_replaces(rows: Seq<SdrBackup>, first: SdrBackup, second: SdrBackup)
    requires
        sdr_keys_unique(rows),
        first.user_id@ == second.user_id@,
        first.book_id@ == second.book_id@,
    ensures
        ({
            let after = sdr_saved(sdr_saved(rows, first), second);
            &&& exists|k: int| sdr_at(after, k, second.user_id@, second.book_id@) && after[k] == second
            &&& forall|k: int, m: int|
                sdr_at(after, k, second.user_id@, second.book_id@) && sdr_at(after, m, second.user_id@, second.book_id@) ==> k == m
        }),
{
    let once = sdr_saved(rows, first);
    lemma_sdr_saved_unique(rows, first);
    lemma_sdr_saved_unique(once, second);
    let after = sdr_saved(once, second);
    assert forall|k: int, m: int|
        sdr_at(after, k, second.user_id@, second.book_id@) && sdr_at(after, m, second.user_id@, second.book_id@) implies k == m by {
        if k != m {
            assert(!(after[k].user_id@ == after[m].user_id@ && after[k].book_id@ == after[m].book_id@));
        }
    }
}

} // verus!
