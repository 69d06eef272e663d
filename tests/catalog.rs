use ebook_catalog::config::{AuthConfig, CacheConfig, DatabaseConfig, LibraryConfig, ScanConfig, SyncConfig};
use ebook_catalog::catalog::{BookMetadata, CatalogStore, Library, StoredBook};
use ebook_catalog::error::AppError;
use ebook_catalog::format::BookFormat;
use ebook_catalog::mirror::CatalogMirror;

const NOW: i64 = 1_700_000_000;

fn meta(title: &str) -> BookMetadata {
    BookMetadata {
        title: title.to_string(),
        authors: Vec::new(),
        description: None,
        publisher: None,
        published: None,
        language: None,
        isbn: None,
        series: None,
        tags: Vec::new(),
        page_count: None,
        has_cover: false,
    }
}

fn create_library(db: &mut CatalogStore) {
    let lib = Library {
        id: "lib-1".to_string(),
        name: "Test".to_string(),
        path: "/test".to_string(),
        is_public: true,
        owner_id: None,
        created_at: NOW,
    };
    db.create_library(lib).unwrap();
}

fn book(id: &str, title: &str) -> StoredBook {
    StoredBook {
        id: id.to_string(),
        library_id: "lib-1".to_string(),
        file_hash: None,
        path: format!("/test/{}.pdf", id),
        format: BookFormat::Pdf,
        file_size: 1000,
        mtime: NOW,
        meta: meta(title),
        created_at: NOW,
        updated_at: NOW,
    }
}

fn create_book(db: &mut CatalogStore, id: &str, title: &str) {
    db.save_book(book(id, title)).unwrap();
}

#[test]
fn db_create_and_list_libraries() {
    let mut db = CatalogStore::new();
    let lib = Library {
        id: "lib-1".to_string(),
        name: "Books".to_string(),
        path: "/path/to/books".to_string(),
        is_public: true,
        owner_id: None,
        created_at: NOW,
    };
    db.create_library(lib).unwrap();
    let libs = db.list_libraries();
    assert_eq!(libs.len(), 1);
    assert_eq!(libs[0].name, "Books");
}

#[test]
fn db_get_library_by_name() {
    let mut db = CatalogStore::new();
    let lib = Library {
        id: "lib-2".to_string(),
        name: "Comics".to_string(),
        path: "/path/to/comics".to_string(),
        is_public: false,
        owner_id: Some("user-1".to_string()),
        created_at: NOW,
    };
    db.create_library(lib).unwrap();
    let found = db.get_library_by_name("Comics").unwrap();
    assert_eq!(found.id, "lib-2");
    assert!(!found.is_public);
}

#[test]
fn duplicate_library_id_is_refused() {
    let mut db = CatalogStore::new();
    create_library(&mut db);
    let again = Library {
        id: "lib-1".to_string(),
        name: "Other".to_string(),
        path: "/other".to_string(),
        is_public: true,
        owner_id: None,
        created_at: NOW,
    };
    assert!(matches!(db.create_library(again), Err(AppError::InvalidFormat(_))));
    assert_eq!(db.list_libraries().len(), 1);
}

#[test]
fn library_path_update_and_delete() {
    let mut db = CatalogStore::new();
    create_library(&mut db);
    assert!(db.update_library_path("Test", "/moved".to_string()));
    assert_eq!(db.get_library_by_name("Test").unwrap().path, "/moved");
    assert!(!db.update_library_path("Nope", "/x".to_string()));
    assert!(db.delete_library("Test"));
    assert!(db.get_library_by_name("Test").is_none());
    assert!(!db.delete_library("Test"));
}

#[test]
fn db_save_and_get_book() {
    let mut db = CatalogStore::new();
    create_library(&mut db);
    let mut m = meta("Test Book");
    m.authors = vec!["Author".to_string()];
    m.page_count = Some(100);
    m.has_cover = true;
    let b = StoredBook {
        id: "book-1".to_string(),
        library_id: "lib-1".to_string(),
        file_hash: None,
        path: "/test/book.epub".to_string(),
        format: BookFormat::Epub,
        file_size: 1024,
        mtime: NOW,
        meta: m,
        created_at: NOW,
        updated_at: NOW,
    };
    db.save_book(b).unwrap();
    let found = db.get_book("book-1").unwrap();
    assert_eq!(found.meta.title, "Test Book");
    assert_eq!(found.format.tag(), "epub");
}

#[test]
fn db_get_library_books() {
    let mut db = CatalogStore::new();
    create_library(&mut db);
    for i in 1..=3 {
        create_book(&mut db, &format!("book-{}", i), &format!("Book {}", i));
    }
    let books = db.get_library_books("lib-1");
    assert_eq!(books.len(), 3);
    assert!(db.get_library_books("lib-9").is_empty());
}

#[test]
fn db_delete_book() {
    let mut db = CatalogStore::new();
    create_library(&mut db);
    create_book(&mut db, "book-del", "To Delete");
    assert!(db.delete_book("book-del"));
    assert!(db.get_book("book-del").is_none());
    assert!(!db.delete_book("book-del"));
}

#[test]
fn db_get_all_books() {
    let mut db = CatalogStore::new();
    create_library(&mut db);
    create_book(&mut db, "book-a", "Alpha");
    create_book(&mut db, "book-b", "Beta");
    let books = db.get_all_books();
    assert_eq!(books.len(), 2);
}

#[test]
fn upsert_keeps_creation_time_and_is_idempotent() {
    let mut db = CatalogStore::new();
    create_library(&mut db);
    create_book(&mut db, "b", "First");
    let mut again = book("b", "Second");
    again.created_at = NOW + 50;
    again.updated_at = NOW + 50;
    db.save_book(again).unwrap();
    let mut third = book("b", "Second");
    third.created_at = NOW + 50;
    third.updated_at = NOW + 50;
    db.save_book(third).unwrap();
    let all = db.get_all_books();
    assert_eq!(all.len(), 1);
    assert_eq!(all[0].meta.title, "Second");
    assert_eq!(all[0].created_at, NOW);
    assert_eq!(all[0].updated_at, NOW + 50);
}

#[test]
fn same_path_under_another_id_is_refused() {
    let mut db = CatalogStore::new();
    create_library(&mut db);
    create_book(&mut db, "b", "First");
    let mut clash = book("c", "Clash");
    clash.path = "/test/b.pdf".to_string();
    assert!(matches!(db.save_book(clash), Err(AppError::InvalidFormat(_))));
    assert_eq!(db.get_all_books().len(), 1);
}

#[test]
fn lookup_by_hash() {
    let mut db = CatalogStore::new();
    create_library(&mut db);
    let mut b = book("h", "Hashed");
    b.file_hash = Some("abc".to_string());
    db.save_book(b).unwrap();
    create_book(&mut db, "n", "Plain");
    assert_eq!(db.get_book_by_hash("abc").unwrap().id, "h");
    assert!(db.get_book_by_hash("zzz").is_none());
}

#[test]
fn prune_with_empty_keep_list_is_a_no_op() {
    let mut db = CatalogStore::new();
    create_library(&mut db);
    create_book(&mut db, "a", "A");
    create_book(&mut db, "b", "B");
    assert_eq!(db.delete_books_not_in("lib-1", &Vec::new()), 0);
    assert_eq!(db.get_all_books().len(), 2);
    assert_eq!(db.delete_books_not_in("lib-1", &vec!["a".to_string()]), 1);
    assert!(db.get_book("a").is_some());
    assert!(db.get_book("b").is_none());
}

#[test]
fn mirror_is_a_snapshot() {
    let mut db = CatalogStore::new();
    create_library(&mut db);
    create_book(&mut db, "a", "A");
    let mirror = CatalogMirror::rebuild(&db);
    create_book(&mut db, "b", "B");
    assert_eq!(mirror.book_count(), 1);
    assert_eq!(mirror.get_book("a").unwrap().meta.title, "A");
    assert!(mirror.get_book("b").is_none());
    assert_eq!(CatalogMirror::rebuild(&db).get_all_books().len(), 2);
    assert_eq!(CatalogMirror::empty().book_count(), 0);
}

#[test]
fn mirror_search_ignores_case() {
    let mut db = CatalogStore::new();
    create_library(&mut db);
    create_book(&mut db, "a", "The Great Gatsby");
    let mut b = book("b", "Other");
    b.meta.authors = vec!["F. Scott FITZGERALD".to_string()];
    db.save_book(b).unwrap();
    create_book(&mut db, "c", "Unrelated");
    let mirror = CatalogMirror::rebuild(&db);
    let found: Vec<String> = mirror.search("GREAT").into_iter().map(|b| b.id).collect();
    assert_eq!(found, vec!["a".to_string()]);
    let found: Vec<String> = mirror.search("fitz").into_iter().map(|b| b.id).collect();
    assert_eq!(found, vec!["b".to_string()]);
    assert_eq!(mirror.search("").len(), 3);
    assert!(mirror.search("zzz").is_empty());
}

#[test]
fn mirror_recent_is_newest_first_and_stable() {
    let mut db = CatalogStore::new();
    create_library(&mut db);
    for (id, mtime) in [("a", 5), ("b", 9), ("c", 5), ("d", 7)] {
        let mut b = book(id, id);
        b.mtime = mtime;
        db.save_book(b).unwrap();
    }
    let mirror = CatalogMirror::rebuild(&db);
    let ids: Vec<String> = mirror.get_recent(3).into_iter().map(|b| b.id).collect();
    assert_eq!(ids, vec!["b".to_string(), "d".to_string(), "a".to_string()]);
    let ids: Vec<String> = mirror.get_recent(10).into_iter().map(|b| b.id).collect();
    assert_eq!(ids, vec!["b".to_string(), "d".to_string(), "a".to_string(), "c".to_string()]);
    assert!(mirror.get_recent(0).is_empty());
}

#[test]
fn cover_file_name_and_defaults() {
    assert_eq!(CacheConfig::cover_file_name("abc"), "abc.jpg");
    let scan = ScanConfig::default();
    assert_eq!(scan.workers, 1);
    assert_eq!(scan.interval_seconds, 300);
    assert!(scan.periodic());
    assert!(AuthConfig::default().registration_enabled());
    let closed = AuthConfig { registration: "disabled".to_string(), session_days: 30 };
    assert!(!closed.registration_enabled());
    assert_eq!(AuthConfig::default().session_days, 30);
    assert_eq!(SyncConfig::default().merge_strategy, "furthest");
    assert_eq!(CacheConfig::default().thumbnail_size, 200);
    assert_eq!(DatabaseConfig::default().path, "data/library.db");
    assert!(LibraryConfig::new("Books".to_string(), "/b".to_string()).public);
}

#[test]
fn upsert_keeps_library_and_format() {
    let mut db = CatalogStore::new();
    create_library(&mut db);
    create_book(&mut db, "b", "First");
    let mut moved = book("b", "Second");
    moved.library_id = "lib-2".to_string();
    moved.format = BookFormat::Epub;
    db.save_book(moved).unwrap();
    let found = db.get_book("b").unwrap();
    assert_eq!(found.library_id, "lib-1");
    assert_eq!(found.format, BookFormat::Pdf);
    assert_eq!(found.meta.title, "Second");
    assert_eq!(db.get_library_books("lib-1").len(), 1);
    assert!(db.get_library_books("lib-2").is_empty());
}

#[test]
fn listings_are_in_title_order() {
    let mut db = CatalogStore::new();
    create_library(&mut db);
    create_book(&mut db, "x", "b");
    create_book(&mut db, "y", "a");
    create_book(&mut db, "z", "B");
    create_book(&mut db, "w", "ab");
    let titles: Vec<String> = db.get_all_books().into_iter().map(|b| b.meta.title).collect();
    assert_eq!(titles, vec!["B", "a", "ab", "b"]);
    let titles: Vec<String> = db.get_library_books("lib-1").into_iter().map(|b| b.meta.title).collect();
    assert_eq!(titles, vec!["B", "a", "ab", "b"]);
    let mirror = CatalogMirror::rebuild(&db);
    assert_eq!(mirror.get_all_books()[0].meta.title, "B");
    assert_eq!(mirror.get_all_books()[3].meta.title, "b");
}
