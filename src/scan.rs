//! The scanner: diffs a library walk against the catalog store and drives
//! metadata extraction for new and changed files.
use vstd::prelude::*;
use vstd::seq_lib::*;
use crate::catalog::{
    BookMetadata, CatalogStore, StoredBook, has_id, index_of_id, keeps, pruned, prune_keeps,
    survives_prune, upserted, entries_unique, by_title, path_taken, stored_form,
};
use crate::error::AppError;
use crate::format::{BookFormat, format_of_lower, lower_of};
use crate::ident::{catalog_id, url_uuid_of};
use crate::mirror::CatalogMirror;
use crate::text::{copy_string, str_eq};

verus! {

broadcast use group_seq_properties;

/// A file found under a library root, with its filesystem metadata.
pub struct FoundFile {
    /// Absolute path.
    pub path: String,
    /// File name without its extension.
    pub stem: String,
    /// Extension, without the dot; empty when there is none.
    pub extension: String,
    /// Size in bytes.
    pub file_size: u64,
    /// Modification time, in seconds since the epoch.
    pub mtime: i64,
}

/// The format a found file is recognised as, by its extension.
pub open spec fn format_of_file(f: FoundFile) -> Option<BookFormat> {
    format_of_lower(lower_of(f.extension@))
}

/// The predicate "has a recognised extension".
pub open spec fn recognized() -> spec_fn(FoundFile) -> bool {
    |f: FoundFile| format_of_file(f) is Some
}

/// The files of a walk that have a recognised format, in walk order.
pub open spec fn candidates(files: Seq<FoundFile>) -> Seq<FoundFile> {
    files.filter(recognized())
}

/// The store holds an entry of library `lib` with id `id`.
pub open spec fn catalogued(s: Seq<StoredBook>, lib: Seq<char>, id: Seq<char>) -> bool {
    has_id(s, id) && s[index_of_id(s, id)].library_id@ == lib
}

/// How a file relates to the store.
pub enum FileChange {
    /// No entry of the library has the file's id.
    New,
    /// An entry exists, with another size or modification time.
    Updated,
    /// An entry exists, with the same size and modification time.
    Unchanged,
}

/// How the file `f` relates to the entries `s` of library `lib`.
pub open spec fn change_of(s: Seq<StoredBook>, lib: Seq<char>, f: FoundFile) -> FileChange {
    let id = url_uuid_of(f.path@);
    if !catalogued(s, lib, id) {
        FileChange::New
    } else if s[index_of_id(s, id)].file_size == f.file_size && s[index_of_id(s, id)].mtime
        == f.mtime {
        FileChange::Unchanged
    } else {
        FileChange::Updated
    }
}

/// The predicate "relates to the store as `c`".
pub open spec fn classed(s: Seq<StoredBook>, lib: Seq<char>, c: FileChange) -> spec_fn(
    FoundFile,
) -> bool {
    |f: FoundFile| change_of(s, lib, f) == c
}

/// The predicate "must be extracted": new or updated.
pub open spec fn changed(s: Seq<StoredBook>, lib: Seq<char>) -> spec_fn(FoundFile) -> bool {
    |f: FoundFile| change_of(s, lib, f) != FileChange::Unchanged
}

/// A new or updated file, waiting for extraction.
pub struct PendingFile {
    /// Absolute path.
    pub path: String,
    /// File name without its extension.
    pub stem: String,
    /// Catalog id of the path.
    pub id: String,
    /// Recognised format.
    pub format: BookFormat,
    /// Size in bytes.
    pub file_size: u64,
    /// Modification time.
    pub mtime: i64,
    /// Whether no entry of the library had the id.
    pub is_new: bool,
}

/// `p` is the pending form of the found file `f`.
pub open spec fn pending_for(p: PendingFile, f: FoundFile, s: Seq<StoredBook>, lib: Seq<char>) -> bool {
    &&& p.path == f.path
    &&& p.stem == f.stem
    &&& p.id@ == url_uuid_of(f.path@)
    &&& format_of_file(f) == Some(p.format)
    &&& p.file_size == f.file_size
    &&& p.mtime == f.mtime
    &&& p.is_new == (change_of(s, lib, f) == FileChange::New)
}

/// What a walk of one library asks of the store.
pub struct ScanPlan {
    /// Ids of every recognised file, in walk order.
    pub still_present: Vec<String>,
    /// The new and updated files, in walk order.
    pub pending: Vec<PendingFile>,
    /// How many recognised files are new.
    pub new: usize,
    /// How many recognised files are updated.
    pub updated: usize,
    /// How many recognised files are unchanged.
    pub unchanged: usize,
}

/// `plan` is what a walk finding `files` in library `lib` asks of entries `s`.
pub open spec fn plan_matches(plan: ScanPlan, s: Seq<StoredBook>, lib: Seq<char>, files: Seq<FoundFile>) -> bool {
    let c = candidates(files);
    let ch = c.filter(changed(s, lib));
    &&& plan.still_present@.len() == c.len()
    &&& forall|i: int| 0 <= i < c.len() ==> #[trigger] plan.still_present@[i]@ == url_uuid_of(c[i].path@)
    &&& plan.pending@.len() == ch.len()
    &&& forall|i: int| 0 <= i < ch.len() ==> pending_for(#[trigger] plan.pending@[i], ch[i], s, lib)
    &&& plan.new == c.filter(classed(s, lib, FileChange::New)).len()
    &&& plan.updated == c.filter(classed(s, lib, FileChange::Updated)).len()
    &&& plan.unchanged == c.filter(classed(s, lib, FileChange::Unchanged)).len()
}

/// Classifies every file of a walk of library `library_id` against the store:
/// unrecognised files are ignored, unchanged ones only counted, new and
/// updated ones listed for extraction.
pub fn plan_library_scan(store: &CatalogStore, library_id: &str, files: &Vec<FoundFile>) -> (plan: ScanPlan)
    requires
        store.wf(),
    ensures
        plan_matches(plan, store@, library_id@, files@),
{
    let ghost s = store@;
    let ghost lib = library_id@;
    let ghost fs = files@;
    let mut still: Vec<String> = Vec::new();
    let mut pending: Vec<PendingFile> = Vec::new();
    let mut new: usize = 0;
    let mut updated: usize = 0;
    let mut unchanged: usize = 0;
    let mut i: usize = 0;
    while i < files.len()
        invariant
            s == store@,
            lib == library_id@,
            fs == files@,
            store.wf(),
            i <= fs.len(),
            new + updated + unchanged <= i,
            plan_matches(
                ScanPlan { still_present: still, pending, new, updated, unchanged },
                s,
                lib,
                fs.subrange(0, i as int),
            ),
        decreases fs.len() - i,
    {
        let ghost pre = fs.subrange(0, i as int);
        let ghost f = fs[i as int];
        let ghost c0 = candidates(pre);
        proof {
            assert(fs.subrange(0, i + 1) =~= pre.push(f));
            pre.lemma_filter_push(f, recognized());
            c0.lemma_filter_push(f, changed(s, lib));
            c0.lemma_filter_push(f, classed(s, lib, FileChange::New));
            c0.lemma_filter_push(f, classed(s, lib, FileChange::Updated));
            c0.lemma_filter_push(f, classed(s, lib, FileChange::Unchanged));
        }
        let file = &files[i];
        match BookFormat::from_extension(file.extension.as_str()) {
            None => {},
            Some(format) => {
                let id = catalog_id(file.path.as_str());
                let (known, same) = match store.get_book(id.as_str()) {
                    Some(e) => {
                        let k = str_eq(e.library_id.as_str(), library_id);
                        (k, k && e.file_size == file.file_size && e.mtime == file.mtime)
                    },
                    None => (false, false),
                };
                let ghost old_still = still@;
                let ghost old_pending = pending@;
                still.push(copy_string(&id));
                proof {
                    assert forall|k: int| 0 <= k < still@.len() implies #[trigger] still@[k]@
                        == url_uuid_of(candidates(fs.subrange(0, i + 1))[k].path@) by {
                        if k < old_still.len() {
                            assert(still@[k] == old_still[k]);
                        }
                    }
                }
                if same {
                    unchanged = unchanged + 1;
                } else {
                    if known {
                        updated = updated + 1;
                    } else {
                        new = new + 1;
                    }
                    let p = PendingFile {
                        path: copy_string(&file.path),
                        stem: copy_string(&file.stem),
                        id,
                        format,
                        file_size: file.file_size,
                        mtime: file.mtime,
                        is_new: !known,
                    };
                    pending.push(p);
                    proof {
                        let ch = candidates(fs.subrange(0, i + 1)).filter(changed(s, lib));
                        assert forall|k: int| 0 <= k < pending@.len() implies pending_for(
                            #[trigger] pending@[k],
                            ch[k],
                            s,
                            lib,
                        ) by {
                            if k < old_pending.len() {
                                assert(pending@[k] == old_pending[k]);
                            }
                        }
                    }
                }
            },
        }
        i = i + 1;
    }
    assert(fs.subrange(0, fs.len() as int) =~= fs);
    ScanPlan { still_present: still, pending, new, updated, unchanged }
}

/// Reads book files of the recognised formats: their metadata, cover and
/// page count.
pub trait FormatHandler {
    /// Fills `meta` from the file at `path`; may leave fields unset.
    fn extract_metadata(&self, path: &str, format: BookFormat, meta: &mut BookMetadata) -> Result<
        (),
        AppError,
    >;

    /// The cover image of the file at `path`, as PNG bytes, if it has one.
    fn extract_cover(&self, path: &str, format: BookFormat) -> Result<Option<Vec<u8>>, AppError>;

    /// The number of pages of the file at `path`, where the format has pages.
    fn page_count(&self, path: &str, format: BookFormat) -> Result<Option<u32>, AppError>;
}

/// A handler that extracts nothing and never fails.
pub struct MinimalHandler;

impl FormatHandler for MinimalHandler {
    fn extract_metadata(&self, path: &str, format: BookFormat, meta: &mut BookMetadata) -> Result<
        (),
        AppError,
    > {
        Ok(())
    }

    fn extract_cover(&self, path: &str, format: BookFormat) -> Result<Option<Vec<u8>>, AppError> {
        Ok(None)
    }

    fn page_count(&self, path: &str, format: BookFormat) -> Result<Option<u32>, AppError> {
        Ok(None)
    }
}

/// Metadata before extraction: the file stem as title, nothing else.
pub open spec fn initial_metadata_of(stem: String, m: BookMetadata) -> bool {
    &&& m.title == stem
    &&& m.authors@.len() == 0
    &&& m.description is None
    &&& m.publisher is None
    &&& m.published is None
    &&& m.language is None
    &&& m.isbn is None
    &&& m.series is None
    &&& m.tags@.len() == 0
    &&& m.page_count is None
    &&& !m.has_cover
}

/// Metadata before extraction, titled after the file stem.
pub fn initial_metadata(stem: &String) -> (r: BookMetadata)
    ensures
        initial_metadata_of(*stem, r),
{
    BookMetadata {
        title: copy_string(stem),
        authors: Vec::new(),
        description: None,
        publisher: None,
        published: None,
        language: None,
        isbn: None,
        series: None,
        tags: Vec::new(),
        page_count: None,
        has_cover: false,
    }
}

/// `b` is the entry that library `lib` records for `p` with metadata `meta`,
/// written at time `now`.
pub open spec fn built_from(b: StoredBook, p: PendingFile, lib: Seq<char>, meta: BookMetadata, now: i64) -> bool {
    &&& b.id == p.id
    &&& b.library_id@ == lib
    &&& b.file_hash is None
    &&& b.path == p.path
    &&& b.format == p.format
    &&& b.file_size == p.file_size
    &&& b.mtime == p.mtime
    &&& b.meta == meta
    &&& b.created_at == now
    &&& b.updated_at == now
}

/// The catalog entry for an extracted file.
pub fn build_entry(p: PendingFile, library_id: &str, meta: BookMetadata, now: i64) -> (b: StoredBook)
    ensures
        built_from(b, p, library_id@, meta, now),
{
    StoredBook {
        id: p.id,
        library_id: String::from_str(library_id),
        file_hash: None,
        path: p.path,
        format: p.format,
        file_size: p.file_size,
        mtime: p.mtime,
        meta,
        created_at: now,
        updated_at: now,
    }
}

/// Writes the entry of one pending file of library `library_id` once its
/// extraction is done: with the extracted metadata the entry is upserted
/// (returning whether the store took it); after a failed extraction
/// (`None`) nothing is written, so any prior entry stays as it was.
pub fn commit_pending(
    store: &mut CatalogStore,
    library_id: &str,
    p: PendingFile,
    extracted: Option<BookMetadata>,
    now: i64,
) -> (r: bool)
    requires
        old(store).wf(),
    ensures
        final(store).wf(),
        final(store).libraries() == old(store).libraries(),
        extracted is None ==> !r && final(store)@ == old(store)@,
        extracted is Some ==> exists|b: StoredBook|
            #[trigger] built_from(b, p, library_id@, extracted->Some_0, now) && (r <==> !path_taken(
                old(store)@,
                stored_form(old(store)@, b),
            )) && (r ==> final(store)@ == upserted(old(store)@, b)) && (!r ==> final(store)@ == old(
                store,
            )@),
{
    match extracted {
        Some(meta) => {
            let ghost pg = p;
            let ghost mg = meta;
            let entry = build_entry(p, library_id, meta, now);
            let ghost eg = entry;
            let ok = store.save_book(entry).is_ok();
            assert(built_from(eg, pg, library_id@, mg, now));
            ok
        },
        None => false,
    }
}

/// Counts of one library scan.
pub struct ScanReport {
    /// Files that had no entry.
    pub new: usize,
    /// Files whose size or modification time changed.
    pub updated: usize,
    /// Files left as they were.
    pub unchanged: usize,
    /// Entries pruned because their file is gone.
    pub removed: usize,
    /// New or updated files whose extraction or store write failed.
    pub failed: usize,
}

/// Whether a batch of `total` files reports progress after `done` of them:
/// at every hundredth file and at the last. The value is the percentage done.
pub fn progress_percent(done: usize, total: usize) -> (r: Option<usize>)
    requires
        0 < done <= total,
    ensures
        r is Some <==> (done % 100 == 0 || done == total),
        r is Some ==> r->Some_0 == (done as int) * 100 / (total as int),
        r is Some ==> r->Some_0 <= 100,
{
    if done % 100 == 0 || done == total {
        let pct = (done as u128) * 100 / (total as u128);
        proof {
            assert((done as int) * 100 / (total as int) <= 100) by (nonlinear_arith)
                requires
                    0 < done <= total,
            ;
        }
        Some(pct as usize)
    } else {
        None
    }
}

/// `e` is what the store holds for the pending file `p` once written at time
/// `now`, whatever metadata was extracted. Its library and format are those
/// of the entry it refreshed, if any (see `placed`).
pub open spec fn written_for(e: StoredBook, p: PendingFile, lib: Seq<char>, now: i64) -> bool {
    &&& e.id == p.id
    &&& e.file_hash is None
    &&& e.path == p.path
    &&& e.file_size == p.file_size
    &&& e.mtime == p.mtime
    &&& e.updated_at == now
}

/// Going from `before` to `after`, no id was lost, an entry whose id was in
/// `before` stayed in that entry's library, and an entry with a new id went
/// to library `lib`.
#[verifier::opaque]
pub open spec fn placed(before: Seq<StoredBook>, after: Seq<StoredBook>, lib: Seq<char>) -> bool {
    &&& forall|x: Seq<char>| #[trigger] has_id(before, x) ==> has_id(after, x)
    &&& forall|k: int| 0 <= k < after.len() ==> #[trigger] placed_at(before, after, k, lib)
}

/// Entry `k` of `after` is in the library of the entry of `before` with its
/// id, or in `lib` where `before` has none.
pub open spec fn placed_at(before: Seq<StoredBook>, after: Seq<StoredBook>, k: int, lib: Seq<char>) -> bool {
    if has_id(before, after[k].id@) {
        after[k].library_id@ == before[index_of_id(before, after[k].id@)].library_id@
    } else {
        after[k].library_id@ == lib
    }
}

/// In a store with unique ids, an entry's id leads back to it.
proof fn lemma_own_index(s: Seq<StoredBook>, k: int)
    requires
        entries_unique(s),
        0 <= k < s.len(),
    ensures
        has_id(s, s[k].id@),
        index_of_id(s, s[k].id@) == k,
{
    assert(has_id(s, s[k].id@));
    let j = index_of_id(s, s[k].id@);
    if j != k {
        assert(s[j].id@ != s[k].id@);
    }
}

/// A store is placed with respect to itself.
proof fn lemma_placed_start(s: Seq<StoredBook>, lib: Seq<char>)
    requires
        entries_unique(s),
    ensures
        placed(s, s, lib),
{
    reveal(placed);
    assert forall|k: int| 0 <= k < s.len() implies #[trigger] placed_at(s, s, k, lib) by {
        lemma_own_index(s, k);
    }
}

/// An upsert of an entry of library `lib` keeps `placed`.
proof fn lemma_upsert_places(
    before: Seq<StoredBook>,
    s: Seq<StoredBook>,
    e: StoredBook,
    lib: Seq<char>,
)
    requires
        entries_unique(s),
        placed(before, s, lib),
        e.library_id@ == lib,
    ensures
        placed(before, upserted(s, e), lib),
{
    reveal(placed);
    let t = upserted(s, e);
    if has_id(s, e.id@) {
        let i = index_of_id(s, e.id@);
        assert forall|x: Seq<char>| #[trigger] has_id(before, x) implies has_id(t, x) by {
            assert(has_id(s, x));
            let j = choose|j: int| 0 <= j < s.len() && s[j].id@ == x;
            if j == i {
                assert(t[j].id@ == x);
            } else {
                assert(t[j] == s[j]);
            }
        }
        assert forall|k: int| 0 <= k < t.len() implies #[trigger] placed_at(before, t, k, lib) by {
            assert(placed_at(before, s, k, lib));
            if k == i {
                assert(t[k].id@ == s[k].id@ && t[k].library_id == s[k].library_id);
            } else {
                assert(t[k] == s[k]);
            }
        }
    } else {
        assert forall|x: Seq<char>| #[trigger] has_id(before, x) implies has_id(t, x) by {
            assert(has_id(s, x));
            let j = choose|j: int| 0 <= j < s.len() && s[j].id@ == x;
            assert(t[j] == s[j]);
        }
        assert forall|k: int| 0 <= k < t.len() implies #[trigger] placed_at(before, t, k, lib) by {
            if k < s.len() {
                assert(placed_at(before, s, k, lib));
                assert(t[k] == s[k]);
            } else {
                assert(t[k] == e);
                assert(!has_id(before, e.id@));
            }
        }
    }
}

/// Going from `before` to `after`, only entries for the files `pend` were
/// written: every entry of `after` was in `before` or was written for one
/// of them, and every entry of `before` whose id is none of theirs is still
/// in `after`, unchanged.
pub open spec fn writes_only_pending(
    before: Seq<StoredBook>,
    after: Seq<StoredBook>,
    pend: Seq<PendingFile>,
    lib: Seq<char>,
    now: i64,
) -> bool {
    &&& forall|k: int|
        0 <= k < after.len() ==> before.contains(#[trigger] after[k]) || exists|j: int|
            0 <= j < pend.len() && written_for(after[k], #[trigger] pend[j], lib, now)
    &&& forall|k: int|
        0 <= k < before.len() && (forall|j: int| 0 <= j < pend.len() ==> (#[trigger] pend[j]).id@ != before[k].id@)
            ==> after.contains(#[trigger] before[k])
}

/// A scan of library `lib` that found `files` took the entries from `before`
/// to `after` and reported `report`, by way of `plan` and of the entries
/// `mid` that the writes of extracted files left before pruning.
pub open spec fn scan_outcome(
    plan: ScanPlan,
    mid: Seq<StoredBook>,
    before: Seq<StoredBook>,
    after: Seq<StoredBook>,
    lib: Seq<char>,
    files: Seq<FoundFile>,
    now: i64,
    report: ScanReport,
) -> bool {
    &&& plan_matches(plan, before, lib, files)
    &&& writes_only_pending(before, mid, plan.pending@, lib, now)
    &&& placed(before, mid, lib)
    &&& report.new == plan.new
    &&& report.updated == plan.updated
    &&& report.unchanged == plan.unchanged
    &&& report.failed <= plan.pending@.len()
    &&& (plan.pending@.len() == 0 ==> mid == before)
    &&& (plan.still_present@.len() == 0 ==> after == mid)
    &&& (plan.still_present@.len() > 0 ==> after == pruned(mid, lib, plan.still_present@))
    &&& report.removed == mid.len() - after.len()
    &&& entries_unique(after)
    &&& (report.failed == 0 && pending_ids_distinct(plan.pending@) ==> all_written(
        mid,
        plan.pending@,
        plan.pending@.len() as int,
        lib,
        now,
    ))
}

/// The pending files carry pairwise distinct ids.
pub open spec fn pending_ids_distinct(pend: Seq<PendingFile>) -> bool {
    forall|a: int, b: int|
        0 <= a < pend.len() && 0 <= b < pend.len() && a != b ==> (#[trigger] pend[a]).id@ != (
        #[trigger] pend[b]).id@
}

/// Each of the first `upto` pending files has an entry written for it in `s`.
pub open spec fn all_written(s: Seq<StoredBook>, pend: Seq<PendingFile>, upto: int, lib: Seq<char>, now: i64) -> bool {
    forall|j: int|
        0 <= j < upto ==> exists|k: int| 0 <= k < s.len() && written_for(s[k], #[trigger] pend[j], lib, now)
}

/// The found files have pairwise distinct catalog ids (their paths do not
/// collide under the id hash).
pub open spec fn file_ids_distinct(c: Seq<FoundFile>) -> bool {
    forall|a: int, b: int|
        0 <= a < c.len() && 0 <= b < c.len() && a != b ==> url_uuid_of((#[trigger] c[a]).path@)
            != url_uuid_of((#[trigger] c[b]).path@)
}

/// Writing the entry for pending file `done` keeps the entries written for
/// the earlier ones, their ids being distinct.
proof fn lemma_upsert_keeps_written(
    s: Seq<StoredBook>,
    e: StoredBook,
    pend: Seq<PendingFile>,
    done: int,
    lib: Seq<char>,
    now: i64,
)
    requires
        0 <= done < pend.len(),
        pending_ids_distinct(pend),
        all_written(s, pend, done, lib, now),
        written_for(e, pend[done], lib, now),
    ensures
        all_written(upserted(s, e), pend, done + 1, lib, now),
{
    let t = upserted(s, e);
    let i = if has_id(s, e.id@) { index_of_id(s, e.id@) } else { s.len() as int };
    assert(written_for(t[i], pend[done], lib, now));
    assert forall|j: int| 0 <= j < done + 1 implies exists|k: int|
        0 <= k < t.len() && written_for(t[k], #[trigger] pend[j], lib, now) by {
        if j < done {
            let k = choose|k: int| 0 <= k < s.len() && written_for(s[k], #[trigger] pend[j], lib, now);
            if k == i {
                assert(pend[j].id@ != pend[done].id@);
            } else {
                assert(t[k] == s[k]);
            }
        }
    }
}

/// Widening the set of pending files keeps `writes_only_pending`, once the
/// store also accounts for the next one.
proof fn lemma_writes_extend(
    s0: Seq<StoredBook>,
    s: Seq<StoredBook>,
    pend: Seq<PendingFile>,
    done: int,
    lib: Seq<char>,
    now: i64,
)
    requires
        0 <= done < pend.len(),
        writes_only_pending(s0, s, pend.subrange(0, done), lib, now)
            || writes_only_pending(s0, s, pend.subrange(0, done + 1), lib, now),
    ensures
        writes_only_pending(s0, s, pend.subrange(0, done + 1), lib, now),
{
    let a = pend.subrange(0, done);
    let b = pend.subrange(0, done + 1);
    if writes_only_pending(s0, s, a, lib, now) {
        assert forall|k: int| 0 <= k < s.len() implies s0.contains(#[trigger] s[k]) || exists|j: int|
            0 <= j < b.len() && written_for(s[k], #[trigger] b[j], lib, now) by {
            if !s0.contains(s[k]) {
                let j = choose|j: int| 0 <= j < a.len() && written_for(s[k], #[trigger] a[j], lib, now);
                assert(b[j] == a[j]);
            }
        }
        assert forall|k: int|
            0 <= k < s0.len() && (forall|j: int| 0 <= j < b.len() ==> (#[trigger] b[j]).id@ != s0[k].id@)
            implies s.contains(#[trigger] s0[k]) by {
            assert forall|j: int| 0 <= j < a.len() implies (#[trigger] a[j]).id@ != s0[k].id@ by {
                assert(a[j] == b[j]);
            }
        }
    }
}

/// A successful write of the entry built for pending file `done` accounts
/// for it in `writes_only_pending`.
proof fn lemma_upsert_writes_one(
    s0: Seq<StoredBook>,
    s: Seq<StoredBook>,
    e: StoredBook,
    pend: Seq<PendingFile>,
    done: int,
    lib: Seq<char>,
    now: i64,
)
    requires
        0 <= done < pend.len(),
        writes_only_pending(s0, s, pend.subrange(0, done), lib, now),
        e.id == pend[done].id,
        e.file_hash is None,
        e.path == pend[done].path,
        e.file_size == pend[done].file_size,
        e.mtime == pend[done].mtime,
        e.updated_at == now,
    ensures
        writes_only_pending(s0, upserted(s, e), pend.subrange(0, done + 1), lib, now),
{
    let a = pend.subrange(0, done);
    let b = pend.subrange(0, done + 1);
    let t = upserted(s, e);
    assert(b[done] == pend[done]);
    let i = if has_id(s, e.id@) { index_of_id(s, e.id@) } else { s.len() as int };
    assert(written_for(t[i], b[done], lib, now));
    assert forall|k: int| 0 <= k < t.len() implies s0.contains(#[trigger] t[k]) || exists|j: int|
        0 <= j < b.len() && written_for(t[k], #[trigger] b[j], lib, now) by {
        if k != i {
            assert(t[k] == s[k]);
            if !s0.contains(s[k]) {
                let j = choose|j: int| 0 <= j < a.len() && written_for(s[k], #[trigger] a[j], lib, now);
                assert(b[j] == a[j]);
            }
        }
    }
    assert forall|k: int|
        0 <= k < s0.len() && (forall|j: int| 0 <= j < b.len() ==> (#[trigger] b[j]).id@ != s0[k].id@)
        implies t.contains(#[trigger] s0[k]) by {
        assert forall|j: int| 0 <= j < a.len() implies (#[trigger] a[j]).id@ != s0[k].id@ by {
            assert(a[j] == b[j]);
        }
        assert(s.contains(s0[k]));
        let m = choose|m: int| 0 <= m < s.len() && s[m] == s0[k];
        assert(b[done].id@ != s0[k].id@);
        assert(m != i);
        assert(t[m] == s[m]);
    }
}

/// Scans one library: plans against the store, extracts and writes every
/// new or updated file in walk order, then prunes the entries whose file
/// was not found. A file whose extraction fails is skipped for this pass:
/// its entry, if any, stays, since its id is still present.
pub fn scan_library<H: FormatHandler>(
    store: &mut CatalogStore,
    handler: &H,
    library_id: &str,
    files: &Vec<FoundFile>,
    now: i64,
) -> (report: ScanReport)
    requires
        old(store).wf(),
    ensures
        final(store).wf(),
        final(store).libraries() == old(store).libraries(),
        exists|plan: ScanPlan, mid: Seq<StoredBook>|
            #[trigger] scan_outcome(plan, mid, old(store)@, final(store)@, library_id@, files@, now, report),
{
    let plan = plan_library_scan(store, library_id, files);
    let ghost s0 = store@;
    let ScanPlan { still_present, pending, new, updated, unchanged } = plan;
    let ghost plan_g = ScanPlan { still_present, pending, new, updated, unchanged };
    assert(plan_matches(plan_g, s0, library_id@, files@));
    let ghost pend = pending@;
    let total = pending.len();
    let mut rest = pending;
    proof {
        lemma_placed_start(s0, library_id@);
    }
    let mut failed: usize = 0;
    let mut done: usize = 0;
    while done < total
        invariant
            total == pend.len(),
            done <= total,
            rest@ == pend.subrange(done as int, total as int),
            failed <= done,
            store.wf(),
            store.libraries() == old(store).libraries(),
            done == 0 ==> store@ == s0,
            writes_only_pending(s0, store@, pend.subrange(0, done as int), library_id@, now),
            placed(s0, store@, library_id@),
            failed == 0 && pending_ids_distinct(pend) ==> all_written(store@, pend, done as int, library_id@, now),
        decreases total - done,
    {
        let p = rest.remove(0);
        assert(p == pend[done as int]);
        let ghost before_write = store@;
        let mut meta = initial_metadata(&p.stem);
        let extracted = match handler.extract_metadata(p.path.as_str(), p.format, &mut meta) {
            Ok(()) => Some(meta),
            Err(_) => None,
        };
        let ghost xg = extracted;
        let written = commit_pending(store, library_id, p, extracted, now);
        if written {
            proof {
                let b = choose|b: StoredBook|
                    #[trigger] built_from(b, pend[done as int], library_id@, xg->Some_0, now) && (written
                        <==> !path_taken(before_write, stored_form(before_write, b))) && (written ==> store@ == upserted(
                        before_write,
                        b,
                    )) && (!written ==> store@ == before_write);
                lemma_upsert_writes_one(s0, before_write, b, pend, done as int, library_id@, now);
                lemma_upsert_places(s0, before_write, b, library_id@);
                if failed == 0 && pending_ids_distinct(pend) {
                    lemma_upsert_keeps_written(before_write, b, pend, done as int, library_id@, now);
                }
            }
        } else {
            failed = failed + 1;
        }
        proof {
            lemma_writes_extend(s0, store@, pend, done as int, library_id@, now);
        }
        done = done + 1;
        assert(rest@ =~= pend.subrange(done as int, total as int));
    }
    let ghost mid = store@;
    let removed_now = store.delete_books_not_in(library_id, &still_present);
    let report = ScanReport { new, updated, unchanged, removed: removed_now, failed };
    proof {
        assert(pend.subrange(0, total as int) =~= pend);
        assert(scan_outcome(plan_g, mid, s0, store@, library_id@, files@, now, report));
    }
    report
}

/// What taking the scan flag does to a flag whose flag is `scanning`: whether
/// the caller may scan, and the flag afterwards.
pub open spec fn begin_spec(scanning: bool) -> (bool, bool) {
    (!scanning, true)
}

/// The flag that keeps scans from overlapping: at most one scan, covering
/// every library, is in flight.
pub struct ScanFlag {
    scanning: bool,
}

impl ScanFlag {
    /// Whether a scan is in flight.
    pub closed spec fn is_scanning(&self) -> bool {
        self.scanning
    }

    /// A flag with no scan in flight.
    pub fn new() -> (r: ScanFlag)
        ensures
            !r.is_scanning(),
    {
        ScanFlag { scanning: false }
    }

    /// Takes the flag. Returns false, changing nothing, where a scan is
    /// already in flight; the caller must then not scan.
    pub fn try_begin(&mut self) -> (r: bool)
        ensures
            (r, final(self).is_scanning()) == begin_spec(old(self).is_scanning()),
    {
        if self.scanning {
            false
        } else {
            self.scanning = true;
            true
        }
    }

    /// Releases the flag at the end of a scan.
    pub fn finish(&mut self)
        ensures
            !final(self).is_scanning(),
    {
        self.scanning = false;
    }

    /// Whether a scan is in flight.
    pub fn in_progress(&self) -> (r: bool)
        ensures
            r == self.is_scanning(),
    {
        self.scanning
    }
}

/// The files found under one library root.
pub struct LibraryWalk {
    /// Id of the library walked.
    pub library_id: String,
    /// The files found, in walk order.
    pub files: Vec<FoundFile>,
}

/// Scan `i` of a chain: the library scan of `walks[i]` took the store from
/// `states[i]` to `states[i + 1]` and reported `reports[i]`.
pub open spec fn scan_step(
    states: Seq<Seq<StoredBook>>,
    walks: Seq<LibraryWalk>,
    now: i64,
    reports: Seq<ScanReport>,
    i: int,
) -> bool {
    exists|plan: ScanPlan, mid: Seq<StoredBook>|
        #[trigger] scan_outcome(
            plan,
            mid,
            states[i],
            states[i + 1],
            walks[i].library_id@,
            walks[i].files@,
            now,
            reports[i],
        )
}

/// The store went through `states` while library scans of `walks` reported
/// `reports`: from `first`, one scan per walk in order, to `last`.
pub open spec fn scans_chained(
    states: Seq<Seq<StoredBook>>,
    first: Seq<StoredBook>,
    last: Seq<StoredBook>,
    walks: Seq<LibraryWalk>,
    now: i64,
    reports: Seq<ScanReport>,
) -> bool {
    &&& states.len() == walks.len() + 1
    &&& reports.len() == walks.len()
    &&& states[0] == first
    &&& states[walks.len() as int] == last
    &&& forall|i: int| 0 <= i < walks.len() ==> #[trigger] scan_step(states, walks, now, reports, i)
}

/// Scans every walked library in turn, one report per walk.
pub fn scan_libraries<H: FormatHandler>(
    store: &mut CatalogStore,
    handler: &H,
    walks: &Vec<LibraryWalk>,
    now: i64,
) -> (r: Vec<ScanReport>)
    requires
        old(store).wf(),
    ensures
        final(store).wf(),
        final(store).libraries() == old(store).libraries(),
        r@.len() == walks@.len(),
        exists|states: Seq<Seq<StoredBook>>|
            #[trigger] scans_chained(states, old(store)@, final(store)@, walks@, now, r@),
{
    let mut reports: Vec<ScanReport> = Vec::new();
    let ghost mut states: Seq<Seq<StoredBook>> = seq![store@];
    let mut i: usize = 0;
    while i < walks.len()
        invariant
            i <= walks@.len(),
            reports@.len() == i,
            store.wf(),
            store.libraries() == old(store).libraries(),
            states.len() == i + 1,
            states[0] == old(store)@,
            states[i as int] == store@,
            forall|k: int| 0 <= k < i ==> #[trigger] scan_step(states, walks@, now, reports@, k),
        decreases walks@.len() - i,
    {
        let walk = &walks[i];
        let ghost old_reports = reports@;
        let ghost before = store@;
        let lib_str = walk.library_id.as_str();
        let report = scan_library(store, handler, lib_str, &walk.files, now);
        assert(lib_str@ == walks@[i as int].library_id@);
        assert(walk.files@ == walks@[i as int].files@);
        let ghost rg = report;
        assert(exists|plan: ScanPlan, mid: Seq<StoredBook>|
            #[trigger] scan_outcome(plan, mid, before, store@, walks@[i as int].library_id@, walks@[i as int].files@, now, rg));
        reports.push(report);
        proof {
            let old_states = states;
            states = states.push(store@);
            assert forall|k: int| 0 <= k < i + 1 implies #[trigger] scan_step(states, walks@, now, reports@, k) by {
                if k == i {
                    assert(states[k] == before);
                    assert(states[k + 1] == store@);
                    assert(reports@[k] == rg);
                } else {
                    assert(scan_step(old_states, walks@, now, old_reports, k));
                    assert(states[k] == old_states[k]);
                    assert(states[k + 1] == old_states[k + 1]);
                    assert(reports@[k] == old_reports[k]);
                }
            }
        }
        i = i + 1;
    }
    assert(scans_chained(states, old(store)@, store@, walks@, now, reports@));
    reports
}

/// What a completed scan of every library hands back: one report per walk
/// and the rebuilt mirror.
pub struct FullScan {
    /// One report per walked library, in walk order.
    pub reports: Vec<ScanReport>,
    /// A snapshot of the store after the scan.
    pub mirror: CatalogMirror,
}

/// Scans every walked library in turn, then rebuilds the mirror from the
/// store, unless a scan is already in flight: then nothing is done and
/// `None` comes back.
pub fn scan_all_libraries<H: FormatHandler>(
    flag: &mut ScanFlag,
    store: &mut CatalogStore,
    handler: &H,
    walks: &Vec<LibraryWalk>,
    now: i64,
) -> (r: Option<FullScan>)
    requires
        old(store).wf(),
    ensures
        final(store).wf(),
        final(store).libraries() == old(store).libraries(),
        old(flag).is_scanning() ==> r is None && final(store)@ == old(store)@ && final(flag).is_scanning(),
        !old(flag).is_scanning() ==> r is Some && !final(flag).is_scanning(),
        r is Some ==> r->Some_0.reports@.len() == walks@.len() && by_title(r->Some_0.mirror@, final(store)@),
        r is Some ==> exists|states: Seq<Seq<StoredBook>>|
            #[trigger] scans_chained(states, old(store)@, final(store)@, walks@, now, r->Some_0.reports@),
{
    if !flag.try_begin() {
        return None;
    }
    let reports = scan_libraries(store, handler, walks, now);
    let mirror = CatalogMirror::rebuild(store);
    flag.finish();
    Some(FullScan { reports, mirror })
}

/// Filtering by a predicate that every element meets changes nothing.
proof fn lemma_filter_keeps_all<A>(s: Seq<A>, p: spec_fn(A) -> bool)
    requires
        forall|i: int| 0 <= i < s.len() ==> p(s[i]),
    ensures
        s.filter(p) == s,
    decreases s.len(),
{
    reveal(Seq::filter);
    if s.len() > 0 {
        lemma_filter_keeps_all(s.drop_last(), p);
        assert(s.drop_last().push(s.last()) =~= s);
    }
}

/// Filtering by a predicate that no element meets leaves nothing.
proof fn lemma_filter_keeps_none<A>(s: Seq<A>, p: spec_fn(A) -> bool)
    requires
        forall|i: int| 0 <= i < s.len() ==> !p(s[i]),
    ensures
        s.filter(p).len() == 0,
    decreases s.len(),
{
    reveal(Seq::filter);
    if s.len() > 0 {
        lemma_filter_keeps_none(s.drop_last(), p);
    }
}

/// The entries `s` already reflect a walk of library `lib` that found
/// `files`: every recognised file has an entry of that library with its size
/// and modification time, and every entry of the library is such a file's.
pub open spec fn reflects(s: Seq<StoredBook>, lib: Seq<char>, files: Seq<FoundFile>) -> bool {
    let c = candidates(files);
    &&& forall|k: int| 0 <= k < c.len() ==> change_of(s, lib, #[trigger] c[k]) == FileChange::Unchanged
    &&& forall|i: int|
        0 <= i < s.len() && (#[trigger] s[i]).library_id@ == lib ==> exists|k: int|
            0 <= k < c.len() && url_uuid_of(#[trigger] c[k].path@) == s[i].id@
}

/// Rescanning an unchanged directory whose files the store already reflects
/// reports no new, updated or removed file, every recognised file as
/// unchanged, no failure, and leaves the store as it was.
pub proof fn lemma_rescan_is_idempotent(
    plan: ScanPlan,
    mid: Seq<StoredBook>,
    before: Seq<StoredBook>,
    after: Seq<StoredBook>,
    lib: Seq<char>,
    files: Seq<FoundFile>,
    now: i64,
    report: ScanReport,
)
    requires
        scan_outcome(plan, mid, before, after, lib, files, now, report),
        reflects(before, lib, files),
    ensures
        report.new == 0,
        report.updated == 0,
        report.removed == 0,
        report.failed == 0,
        report.unchanged == candidates(files).len(),
        after == before,
        reflects(after, lib, files),
{
    broadcast use group_filter_ensures;

    let c = candidates(files);
    lemma_filter_keeps_none(c, changed(before, lib));
    lemma_filter_keeps_none(c, classed(before, lib, FileChange::New));
    lemma_filter_keeps_none(c, classed(before, lib, FileChange::Updated));
    lemma_filter_keeps_all(c, classed(before, lib, FileChange::Unchanged));
    assert(mid == before);
    if plan.still_present@.len() > 0 {
        assert forall|i: int| 0 <= i < before.len() implies #[trigger] prune_keeps(
            lib,
            plan.still_present@,
        )(before[i]) by {
            if before[i].library_id@ == lib {
                let k = choose|k: int| 0 <= k < c.len() && url_uuid_of(#[trigger] c[k].path@) == before[i].id@;
                assert(plan.still_present@[k]@ == url_uuid_of(c[k].path@));
                assert(keeps(plan.still_present@, before[i].id@));
            }
        }
        lemma_filter_keeps_all(before, prune_keeps(lib, plan.still_present@));
    }
}

/// After a scan that found at least one recognised file, every entry of the
/// library belongs to a file the walk found, and every entry of another
/// library, or of a found file, that the writes left is still there.
pub proof fn lemma_scan_prunes_vanished(
    plan: ScanPlan,
    mid: Seq<StoredBook>,
    before: Seq<StoredBook>,
    after: Seq<StoredBook>,
    lib: Seq<char>,
    files: Seq<FoundFile>,
    now: i64,
    report: ScanReport,
)
    requires
        scan_outcome(plan, mid, before, after, lib, files, now, report),
        candidates(files).len() > 0,
    ensures
        forall|i: int|
            0 <= i < after.len() && (#[trigger] after[i]).library_id@ == lib ==> exists|k: int|
                0 <= k < candidates(files).len() && url_uuid_of(#[trigger] candidates(files)[k].path@)
                    == after[i].id@,
        forall|j: int|
            0 <= j < mid.len() && (mid[j].library_id@ != lib || exists|k: int|
                0 <= k < candidates(files).len() && url_uuid_of(#[trigger] candidates(files)[k].path@)
                    == mid[j].id@) ==> after.contains(#[trigger] mid[j]),
{
    broadcast use group_filter_ensures;

    let c = candidates(files);
    let keep = plan.still_present@;
    let p = prune_keeps(lib, keep);
    assert forall|i: int|
        0 <= i < after.len() && (#[trigger] after[i]).library_id@ == lib implies exists|k: int|
        0 <= k < c.len() && url_uuid_of(#[trigger] c[k].path@) == after[i].id@ by {
        assert(p(mid.filter(p)[i]));
        assert(keeps(keep, after[i].id@));
        let k = choose|k: int| 0 <= k < keep.len() && keep[k]@ == after[i].id@;
        assert(keep[k]@ == url_uuid_of(c[k].path@));
    }
    assert forall|j: int|
        0 <= j < mid.len() && (mid[j].library_id@ != lib || exists|k: int|
            0 <= k < c.len() && url_uuid_of(#[trigger] c[k].path@) == mid[j].id@) implies after.contains(
        #[trigger] mid[j],
    ) by {
        if mid[j].library_id@ == lib {
            let k = choose|k: int| 0 <= k < c.len() && url_uuid_of(#[trigger] c[k].path@) == mid[j].id@;
            assert(keep[k]@ == url_uuid_of(c[k].path@));
            assert(keeps(keep, mid[j].id@));
        }
        assert(p(mid[j]));
    }
}

/// Scans `i` onward of a chain over walks that the store already reflects
/// leave the store as it was and report nothing new, updated or removed.
proof fn lemma_chain_unchanged(
    states: Seq<Seq<StoredBook>>,
    first: Seq<StoredBook>,
    last: Seq<StoredBook>,
    walks: Seq<LibraryWalk>,
    now: i64,
    reports: Seq<ScanReport>,
    i: int,
)
    requires
        scans_chained(states, first, last, walks, now, reports),
        forall|w: int| 0 <= w < walks.len() ==> reflects(first, #[trigger] walks[w].library_id@, walks[w].files@),
        0 <= i <= walks.len(),
        states[i] == first,
    ensures
        last == first,
        forall|w: int|
            i <= w < walks.len() ==> {
                &&& (#[trigger] reports[w]).new == 0
                &&& reports[w].updated == 0
                &&& reports[w].removed == 0
                &&& reports[w].failed == 0
                &&& reports[w].unchanged == candidates(walks[w].files@).len()
            },
    decreases walks.len() - i,
{
    if i < walks.len() {
        assert(scan_step(states, walks, now, reports, i));
        let (plan, mid) = choose|plan: ScanPlan, mid: Seq<StoredBook>|
            #[trigger] scan_outcome(
                plan,
                mid,
                states[i],
                states[i + 1],
                walks[i].library_id@,
                walks[i].files@,
                now,
                reports[i],
            );
        assert(reflects(first, walks[i].library_id@, walks[i].files@));
        lemma_rescan_is_idempotent(
            plan,
            mid,
            states[i],
            states[i + 1],
            walks[i].library_id@,
            walks[i].files@,
            now,
            reports[i],
        );
        lemma_chain_unchanged(states, first, last, walks, now, reports, i + 1);
    }
}

/// Rescanning every library when the store already reflects each walk
/// reports, for every library, no new, updated or removed file and every
/// recognised file as unchanged, and leaves the store as it was.
pub proof fn lemma_full_rescan_is_idempotent(
    states: Seq<Seq<StoredBook>>,
    first: Seq<StoredBook>,
    last: Seq<StoredBook>,
    walks: Seq<LibraryWalk>,
    now: i64,
    reports: Seq<ScanReport>,
)
    requires
        scans_chained(states, first, last, walks, now, reports),
        forall|w: int| 0 <= w < walks.len() ==> reflects(first, #[trigger] walks[w].library_id@, walks[w].files@),
    ensures
        last == first,
        forall|w: int|
            0 <= w < walks.len() ==> {
                &&& (#[trigger] reports[w]).new == 0
                &&& reports[w].updated == 0
                &&& reports[w].removed == 0
                &&& reports[w].failed == 0
                &&& reports[w].unchanged == candidates(walks[w].files@).len()
            },
{
    lemma_chain_unchanged(states, first, last, walks, now, reports, 0);
}

/// Filtering keeps catalog ids distinct.
proof fn lemma_filter_ids_distinct(c: Seq<FoundFile>, p: spec_fn(FoundFile) -> bool)
    requires
        file_ids_distinct(c),
    ensures
        file_ids_distinct(c.filter(p)),
    decreases c.len(),
{
    reveal(Seq::filter);
    if c.len() > 0 {
        let d = c.drop_last();
        assert forall|a: int, b: int|
            0 <= a < d.len() && 0 <= b < d.len() && a != b implies url_uuid_of((#[trigger] d[a]).path@)
            != url_uuid_of((#[trigger] d[b]).path@) by {
            assert(d[a] == c[a] && d[b] == c[b]);
        }
        lemma_filter_ids_distinct(d, p);
        let fd = d.filter(p);
        if p(c.last()) {
            let f = fd.push(c.last());
            assert(f == c.filter(p));
            assert forall|a: int, b: int|
                0 <= a < f.len() && 0 <= b < f.len() && a != b implies url_uuid_of((#[trigger] f[a]).path@)
                != url_uuid_of((#[trigger] f[b]).path@) by {
                if a == fd.len() || b == fd.len() {
                    let o = if a == fd.len() { b } else { a };
                    assert(f[o] == fd[o]);
                    d.lemma_filter_contains_rev(p, fd[o]);
                    let i = choose|i: int| 0 <= i < d.len() && d[i] == fd[o];
                    assert(c[i] == d[i]);
                    assert(c[c.len() - 1] == c.last());
                    assert(url_uuid_of(c[i].path@) != url_uuid_of(c[c.len() - 1].path@));
                } else {
                    assert(f[a] == fd[a] && f[b] == fd[b]);
                }
            }
        }
    }
}

/// A scan in which no extraction failed leaves the store reflecting the
/// walk, where the found files' ids do not collide, no other library holds
/// one of them (as under nested roots), and the walk found a recognised
/// file; by `lemma_rescan_is_idempotent` every later scan of the
/// unchanged directory then reports no new, updated or removed file.
pub proof fn lemma_clean_scan_reflects(
    plan: ScanPlan,
    mid: Seq<StoredBook>,
    before: Seq<StoredBook>,
    after: Seq<StoredBook>,
    lib: Seq<char>,
    files: Seq<FoundFile>,
    now: i64,
    report: ScanReport,
)
    requires
        scan_outcome(plan, mid, before, after, lib, files, now, report),
        report.failed == 0,
        file_ids_distinct(candidates(files)),
        candidates(files).len() > 0,
        forall|k: int|
            0 <= k < candidates(files).len() && has_id(before, url_uuid_of(#[trigger] candidates(files)[k].path@))
                ==> catalogued(before, lib, url_uuid_of(candidates(files)[k].path@)),
    ensures
        reflects(after, lib, files),
{
    broadcast use group_filter_ensures;

    let c = candidates(files);
    let ch = c.filter(changed(before, lib));
    let pend = plan.pending@;
    let keep = plan.still_present@;
    let pk = prune_keeps(lib, keep);
    lemma_filter_ids_distinct(c, changed(before, lib));
    assert(pending_ids_distinct(pend)) by {
        assert forall|a: int, b: int|
            0 <= a < pend.len() && 0 <= b < pend.len() && a != b implies (#[trigger] pend[a]).id@ != (
            #[trigger] pend[b]).id@ by {
            assert(pending_for(pend[a], ch[a], before, lib));
            assert(pending_for(pend[b], ch[b], before, lib));
        }
    }
    assert(all_written(mid, pend, pend.len() as int, lib, now));
    lemma_scan_prunes_vanished(plan, mid, before, after, lib, files, now, report);
    assert forall|k: int| 0 <= k < c.len() implies change_of(after, lib, #[trigger] c[k]) == FileChange::Unchanged by {
        let id = url_uuid_of(c[k].path@);
        assert(keep[k]@ == id);
        // The entry standing for c[k] in `mid`, and its fate through pruning.
        let e: StoredBook = if changed(before, lib)(c[k]) {
            assert(ch.contains(c[k]));
            let j = choose|j: int| 0 <= j < ch.len() && ch[j] == c[k];
            assert(pending_for(pend[j], ch[j], before, lib));
            let m = choose|m: int| 0 <= m < mid.len() && written_for(mid[m], #[trigger] pend[j], lib, now);
            assert(mid.contains(mid[m]));
            reveal(placed);
            assert(placed_at(before, mid, m, lib));
            assert(mid[m].id@ == id);
            if has_id(before, id) {
                assert(catalogued(before, lib, id));
            }
            assert(mid[m].library_id@ == lib);
            mid[m]
        } else {
            let i = index_of_id(before, id);
            assert forall|j: int| 0 <= j < pend.len() implies (#[trigger] pend[j]).id@ != before[i].id@ by {
                assert(pending_for(pend[j], ch[j], before, lib));
                assert(changed(before, lib)(ch[j]));
                c.lemma_filter_contains_rev(changed(before, lib), ch[j]);
                let q = choose|q: int| 0 <= q < c.len() && c[q] == ch[j];
                assert(q != k);
            }
            assert(mid.contains(before[i]));
            before[i]
        };
        assert(e.id@ == id && e.library_id@ == lib && e.file_size == c[k].file_size && e.mtime == c[k].mtime);
        assert(mid.contains(e));
        let m = choose|m: int| 0 <= m < mid.len() && mid[m] == e;
        assert(keeps(keep, e.id@));
        assert(pk(mid[m]));
        assert(after.contains(e));
        let a = choose|a: int| 0 <= a < after.len() && after[a] == e;
        assert(has_id(after, id));
        let x = index_of_id(after, id);
        assert(x == a) by {
            if x != a {
                assert(after[x].id@ != after[a].id@);
            }
        }
    }
}

/// An entry that no pending file's id names, and that the pruning keeps (it
/// belongs to another library, or to a file the walk found), comes out of a
/// scan exactly as it went in.
pub proof fn lemma_untouched_entry_is_identical(
    plan: ScanPlan,
    mid: Seq<StoredBook>,
    before: Seq<StoredBook>,
    after: Seq<StoredBook>,
    lib: Seq<char>,
    files: Seq<FoundFile>,
    now: i64,
    report: ScanReport,
    k: int,
)
    requires
        scan_outcome(plan, mid, before, after, lib, files, now, report),
        0 <= k < before.len(),
        forall|j: int| 0 <= j < plan.pending@.len() ==> (#[trigger] plan.pending@[j]).id@ != before[k].id@,
        before[k].library_id@ != lib || keeps(plan.still_present@, before[k].id@),
    ensures
        after.contains(before[k]),
{
    broadcast use group_filter_ensures;

    assert(mid.contains(before[k]));
    if plan.still_present@.len() > 0 {
        let m = choose|m: int| 0 <= m < mid.len() && mid[m] == before[k];
        assert(prune_keeps(lib, plan.still_present@)(mid[m]));
    }
}

/// A catalogued file whose size or modification time differs from its entry
/// is re-extracted (it is pending, as an update); one that differs in
/// neither is not pending, so its entry is not written.
pub proof fn lemma_change_detection(
    plan: ScanPlan,
    s: Seq<StoredBook>,
    lib: Seq<char>,
    files: Seq<FoundFile>,
    k: int,
)
    requires
        plan_matches(plan, s, lib, files),
        0 <= k < candidates(files).len(),
        catalogued(s, lib, url_uuid_of(candidates(files)[k].path@)),
    ensures
        ({
            let f = candidates(files)[k];
            let e = s[index_of_id(s, url_uuid_of(f.path@))];
            (e.file_size != f.file_size || e.mtime != f.mtime) <==> exists|j: int|
                0 <= j < plan.pending@.len() && pending_for(#[trigger] plan.pending@[j], f, s, lib)
                    && !plan.pending@[j].is_new
        }),
{
    broadcast use group_filter_ensures;

    let c = candidates(files);
    let f = c[k];
    let ch = c.filter(changed(s, lib));
    let e = s[index_of_id(s, url_uuid_of(f.path@))];
    if e.file_size != f.file_size || e.mtime != f.mtime {
        assert(changed(s, lib)(c[k]));
        assert(ch.contains(f));
        let j = choose|j: int| 0 <= j < ch.len() && ch[j] == f;
        assert(pending_for(plan.pending@[j], ch[j], s, lib));
    } else {
        if exists|j: int|
            0 <= j < plan.pending@.len() && pending_for(#[trigger] plan.pending@[j], f, s, lib)
                && !plan.pending@[j].is_new {
            let j = choose|j: int|
                0 <= j < plan.pending@.len() && pending_for(#[trigger] plan.pending@[j], f, s, lib)
                    && !plan.pending@[j].is_new;
            assert(pending_for(plan.pending@[j], ch[j], s, lib));
            assert(changed(s, lib)(ch[j]));
            assert(url_uuid_of(ch[j].path@) == url_uuid_of(f.path@));
        }
    }
}

} // verus!
