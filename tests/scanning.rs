use ebook_catalog::catalog::{BookMetadata, CatalogStore, Library};
use ebook_catalog::error::AppError;
use ebook_catalog::format::BookFormat;
use ebook_catalog::ident::catalog_id;
use ebook_catalog::mirror::CatalogMirror;
use ebook_catalog::scan::{
    commit_pending, initial_metadata, plan_library_scan, progress_percent, scan_all_libraries, scan_library, FormatHandler,
    FoundFile, LibraryWalk, MinimalHandler, ScanFlag,
};

fn file(path: &str, size: u64, mtime: i64) -> FoundFile {
    let name = path.rsplit('/').next().unwrap();
    let (stem, ext) = match name.rfind('.') {
        Some(i) => (&name[..i], &name[i + 1..]),
        None => (name, ""),
    };
    FoundFile {
        path: path.to_string(),
        stem: stem.to_string(),
        extension: ext.to_string(),
        file_size: size,
        mtime,
    }
}

fn store_with_library() -> CatalogStore {
    let mut db = CatalogStore::new();
    db.create_library(Library {
        id: "lib".to_string(),
        name: "Books".to_string(),
        path: "/lib".to_string(),
        is_public: true,
        owner_id: None,
        created_at: 0,
    })
    .unwrap();
    db
}

struct Failing;

impl FormatHandler for Failing {
    fn extract_cover(&self, _path: &str, _format: BookFormat) -> Result<Option<Vec<u8>>, AppError> {
        Ok(None)
    }

    fn page_count(&self, _path: &str, _format: BookFormat) -> Result<Option<u32>, AppError> {
        Ok(None)
    }

    fn extract_metadata(&self, _path: &str, _format: BookFormat, _meta: &mut BookMetadata) -> Result<(), AppError> {
        Err(AppError::Internal("unreadable".to_string()))
    }
}

struct Titled;

impl FormatHandler for Titled {
    fn extract_cover(&self, _path: &str, _format: BookFormat) -> Result<Option<Vec<u8>>, AppError> {
        Ok(None)
    }

    fn page_count(&self, _path: &str, _format: BookFormat) -> Result<Option<u32>, AppError> {
        Ok(None)
    }

    fn extract_metadata(&self, _path: &str, _format: BookFormat, meta: &mut BookMetadata) -> Result<(), AppError> {
        meta.title = "Extracted".to_string();
        meta.page_count = Some(2);
        Ok(())
    }
}

#[test]
fn catalog_id_is_deterministic() {
    let a = catalog_id("/lib/a.pdf");
    let b = catalog_id("/lib/a.pdf");
    assert_eq!(a, b);
    assert_eq!(a.len(), 36);
    assert_ne!(a, "/lib/a.pdf");
    assert_ne!(a, catalog_id("/lib/b.pdf"));
}

#[test]
fn concrete_scenario_new_then_removed() {
    let mut db = store_with_library();
    let files = vec![file("/lib/a.pdf", 10, 1), file("/lib/b.epub", 20, 1)];
    let first = scan_library(&mut db, &Titled, "lib", &files, 100);
    assert_eq!(first.new, 2);
    assert_eq!(first.updated, 0);
    assert_eq!(first.removed, 0);
    assert_eq!(db.get_library_books("lib").len(), 2);
    let a = db.get_book(&catalog_id("/lib/a.pdf")).unwrap();
    assert_eq!(a.meta.page_count, Some(2));
    assert_eq!(a.format, BookFormat::Pdf);

    let files = vec![file("/lib/b.epub", 20, 1)];
    let second = scan_library(&mut db, &Titled, "lib", &files, 200);
    assert_eq!(second.removed, 1);
    assert_eq!(second.unchanged, 1);
    let left = db.get_library_books("lib");
    assert_eq!(left.len(), 1);
    assert_eq!(left[0].path, "/lib/b.epub");
}

#[test]
fn rescan_of_unchanged_directory_is_idempotent() {
    let mut db = store_with_library();
    let files = vec![file("/lib/a.pdf", 10, 1), file("/lib/b.cbz", 20, 1), file("/lib/c.txt", 5, 3)];
    let first = scan_library(&mut db, &MinimalHandler, "lib", &files, 100);
    assert_eq!((first.new, first.updated, first.unchanged, first.removed), (3, 0, 0, 0));
    for _ in 0..2 {
        let again = scan_library(&mut db, &MinimalHandler, "lib", &files, 300);
        assert_eq!((again.new, again.updated, again.unchanged, again.removed), (0, 0, 3, 0));
    }
    let a = db.get_book(&catalog_id("/lib/a.pdf")).unwrap();
    assert_eq!(a.updated_at, 100);
}

#[test]
fn deleted_file_is_pruned() {
    let mut db = store_with_library();
    let all = vec![file("/lib/A.pdf", 1, 1), file("/lib/B.pdf", 2, 1), file("/lib/C.pdf", 3, 1)];
    scan_library(&mut db, &MinimalHandler, "lib", &all, 10);
    let without_b = vec![file("/lib/A.pdf", 1, 1), file("/lib/C.pdf", 3, 1)];
    let report = scan_library(&mut db, &MinimalHandler, "lib", &without_b, 20);
    assert_eq!(report.removed, 1);
    let mut paths: Vec<String> = db.get_library_books("lib").into_iter().map(|b| b.path).collect();
    paths.sort();
    assert_eq!(paths, vec!["/lib/A.pdf".to_string(), "/lib/C.pdf".to_string()]);
    let mirror = CatalogMirror::rebuild(&db);
    assert_eq!(mirror.book_count(), 2);
    assert!(mirror.get_book(&catalog_id("/lib/B.pdf")).is_none());
}

#[test]
fn change_of_size_or_mtime_is_reextracted() {
    let mut db = store_with_library();
    scan_library(&mut db, &MinimalHandler, "lib", &vec![file("/lib/a.pdf", 10, 1), file("/lib/b.pdf", 10, 1)], 100);
    let changed = vec![file("/lib/a.pdf", 11, 1), file("/lib/b.pdf", 10, 2)];
    let report = scan_library(&mut db, &Titled, "lib", &changed, 200);
    assert_eq!((report.new, report.updated, report.unchanged), (0, 2, 0));
    let a = db.get_book(&catalog_id("/lib/a.pdf")).unwrap();
    assert_eq!(a.file_size, 11);
    assert_eq!(a.updated_at, 200);
    assert_eq!(a.created_at, 100);
    assert_eq!(a.meta.title, "Extracted");
    let b = db.get_book(&catalog_id("/lib/b.pdf")).unwrap();
    assert_eq!(b.mtime, 2);
}

#[test]
fn unchanged_entry_is_left_untouched() {
    let mut db = store_with_library();
    scan_library(&mut db, &MinimalHandler, "lib", &vec![file("/lib/a.pdf", 10, 1)], 100);
    let report = scan_library(&mut db, &Titled, "lib", &vec![file("/lib/a.pdf", 10, 1)], 200);
    assert_eq!(report.unchanged, 1);
    let a = db.get_book(&catalog_id("/lib/a.pdf")).unwrap();
    assert_eq!(a.meta.title, "a");
    assert_eq!(a.updated_at, 100);
}

#[test]
fn failed_extraction_keeps_prior_entry() {
    let mut db = store_with_library();
    scan_library(&mut db, &MinimalHandler, "lib", &vec![file("/lib/a.pdf", 10, 1)], 100);
    let report = scan_library(&mut db, &Failing, "lib", &vec![file("/lib/a.pdf", 12, 1), file("/lib/n.pdf", 1, 1)], 200);
    assert_eq!(report.failed, 2);
    assert_eq!(report.removed, 0);
    let a = db.get_book(&catalog_id("/lib/a.pdf")).unwrap();
    assert_eq!(a.file_size, 10);
    assert!(db.get_book(&catalog_id("/lib/n.pdf")).is_none());
}

#[test]
fn unrecognised_files_are_ignored() {
    let db = store_with_library();
    let files = vec![file("/lib/notes.docx", 1, 1), file("/lib/README", 1, 1), file("/lib/x.PDF", 1, 1)];
    let plan = plan_library_scan(&db, "lib", &files);
    assert_eq!(plan.still_present.len(), 1);
    assert_eq!(plan.pending.len(), 1);
    assert!(plan.pending[0].is_new);
    assert_eq!(plan.new, 1);
}

#[test]
fn empty_walk_prunes_nothing() {
    let mut db = store_with_library();
    scan_library(&mut db, &MinimalHandler, "lib", &vec![file("/lib/a.pdf", 10, 1)], 100);
    let report = scan_library(&mut db, &MinimalHandler, "lib", &Vec::new(), 200);
    assert_eq!(report.removed, 0);
    assert_eq!(db.get_all_books().len(), 1);
}

#[test]
fn second_scan_trigger_is_a_no_op() {
    let mut flag = ScanFlag::new();
    assert!(flag.try_begin());
    assert!(flag.in_progress());
    assert!(!flag.try_begin());
    let mut db = store_with_library();
    let walks = vec![LibraryWalk { library_id: "lib".to_string(), files: vec![file("/lib/a.pdf", 1, 1)] }];
    assert!(scan_all_libraries(&mut flag, &mut db, &MinimalHandler, &walks, 5).is_none());
    assert!(db.get_all_books().is_empty());
    flag.finish();
    let full = scan_all_libraries(&mut flag, &mut db, &MinimalHandler, &walks, 5).unwrap();
    assert_eq!(full.reports.len(), 1);
    assert_eq!(full.reports[0].new, 1);
    assert_eq!(full.mirror.book_count(), 1);
    assert!(!flag.in_progress());
}

#[test]
fn progress_is_reported_every_hundred_files() {
    assert_eq!(progress_percent(100, 250), Some(40));
    assert_eq!(progress_percent(99, 250), None);
    assert_eq!(progress_percent(250, 250), Some(100));
    assert_eq!(progress_percent(1, 3), None);
    assert_eq!(progress_percent(3, 3), Some(100));
}

#[test]
fn pending_files_commit_one_by_one() {
    let mut db = store_with_library();
    let files = vec![file("/lib/a.pdf", 10, 1), file("/lib/b.pdf", 20, 1)];
    let plan = plan_library_scan(&db, "lib", &files);
    assert_eq!(plan.pending.len(), 2);
    let mut pending = plan.pending.into_iter();
    let a = pending.next().unwrap();
    let meta = initial_metadata(&a.stem);
    assert_eq!(meta.title, "a");
    assert!(commit_pending(&mut db, "lib", a, Some(meta), 7));
    let b = pending.next().unwrap();
    assert!(!commit_pending(&mut db, "lib", b, None, 7));
    assert_eq!(db.get_all_books().len(), 1);
    assert_eq!(db.get_book(&catalog_id("/lib/a.pdf")).unwrap().updated_at, 7);
}
