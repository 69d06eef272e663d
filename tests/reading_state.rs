use ebook_catalog::reconcile::{
    Bookmark, BookmarkRequest, Highlight, HighlightRequest, ProgressUpdateRequest,
    ReadingProgress, ReadingStore, SdrBackup,
};
use ebook_catalog::sdr::{is_metadata_file, is_whitespace, parse_lua_metadata, summarize_backup, summarize_members, TarMember};

const NOW: i64 = 1_700_000_000;

fn progress(device: Option<&str>, page: i64, started: i64, updated: i64) -> ReadingProgress {
    ReadingProgress {
        id: 0,
        user_id: "user-1".to_string(),
        book_id: "book-1".to_string(),
        device_id: device.map(|d| d.to_string()),
        current_page: Some(page),
        total_pages: Some(100),
        percentage: Some(format!("{}.0", page)),
        current_chapter: None,
        position_data: None,
        status: "reading".to_string(),
        started_at: Some(started),
        finished_at: None,
        updated_at: updated,
    }
}

#[test]
fn db_save_and_get_progress() {
    let mut db = ReadingStore::new();
    let p = ReadingProgress {
        id: 0,
        user_id: "user-1".to_string(),
        book_id: "book-1".to_string(),
        device_id: None,
        current_page: Some(50),
        total_pages: Some(200),
        percentage: Some("25.0".to_string()),
        current_chapter: Some("Chapter 5".to_string()),
        position_data: None,
        status: "reading".to_string(),
        started_at: Some(NOW),
        finished_at: None,
        updated_at: NOW,
    };
    db.save_progress(p).unwrap();
    let found = db.get_progress("user-1", "book-1").unwrap();
    assert_eq!(found.current_page, Some(50));
    assert_eq!(found.percentage, Some("25.0".to_string()));
}

#[test]
fn db_update_progress() {
    let mut db = ReadingStore::new();
    let ts = NOW;
    db.save_progress(progress(Some("device-1"), 10, ts, ts)).unwrap();
    db.save_progress(progress(Some("device-1"), 80, ts, ts + 1)).unwrap();
    let found = db.get_progress("user-1", "book-1").unwrap();
    assert_eq!(found.current_page, Some(80));
}

#[test]
fn started_at_is_a_floor() {
    let mut db = ReadingStore::new();
    db.save_progress(progress(Some("kobo"), 10, 1000, 1000)).unwrap();
    db.save_progress(progress(Some("kobo"), 60, 2000, 2000)).unwrap();
    let found = db.get_progress("user-1", "book-1").unwrap();
    assert_eq!(found.started_at, Some(1000));
    assert_eq!(found.current_page, Some(60));
    assert_eq!(found.percentage, Some("60.0".to_string()));
    assert_eq!(found.updated_at, 2000);
}

#[test]
fn device_agnostic_record_is_one_key() {
    let mut db = ReadingStore::new();
    db.save_progress(progress(None, 1, 10, 10)).unwrap();
    db.save_progress(progress(None, 2, 20, 20)).unwrap();
    db.save_progress(progress(Some("phone"), 3, 30, 15)).unwrap();
    let found = db.get_progress("user-1", "book-1").unwrap();
    assert_eq!(found.current_page, Some(2));
    assert_eq!(found.started_at, Some(10));
    assert!(db.get_progress("user-2", "book-1").is_none());
}

#[test]
fn latest_progress_wins_across_devices() {
    let mut db = ReadingStore::new();
    db.save_progress(progress(Some("a"), 5, 1, 50)).unwrap();
    db.save_progress(progress(Some("b"), 7, 1, 50)).unwrap();
    let found = db.get_progress("user-1", "book-1").unwrap();
    assert_eq!(found.current_page, Some(7));
}

fn highlight(id: &str, text: &str, color: &str) -> Highlight {
    Highlight {
        id: id.to_string(),
        user_id: "user-1".to_string(),
        book_id: "book-1".to_string(),
        device_id: None,
        page: Some(42),
        chapter: Some("Ch 3".to_string()),
        text: text.to_string(),
        note: Some("My note".to_string()),
        color: color.to_string(),
        pos0: None,
        pos1: None,
        created_at: NOW,
        updated_at: NOW,
    }
}

#[test]
fn db_save_and_get_highlights() {
    let mut db = ReadingStore::new();
    db.save_highlight(highlight("hl-1", "Important text", "yellow"));
    let hs = db.get_highlights("user-1", "book-1");
    assert_eq!(hs.len(), 1);
    assert_eq!(hs[0].text, "Important text");
}

#[test]
fn db_delete_highlight() {
    let mut db = ReadingStore::new();
    let mut h = highlight("hl-del", "Delete me", "red");
    h.page = None;
    h.chapter = None;
    h.note = None;
    db.save_highlight(h);
    assert!(!db.delete_highlight("hl-del", "user-2"));
    db.delete_highlight("hl-del", "user-1");
    assert!(db.get_highlights("user-1", "book-1").is_empty());
}

#[test]
fn highlight_update_changes_only_mutable_fields() {
    let mut db = ReadingStore::new();
    db.save_highlight(highlight("h", "Original", "yellow"));
    let mut again = highlight("h", "Rewritten", "blue");
    again.note = None;
    again.created_at = NOW + 9;
    again.updated_at = NOW + 9;
    db.save_highlight(again);
    let hs = db.get_highlights("user-1", "book-1");
    assert_eq!(hs.len(), 1);
    assert_eq!(hs[0].text, "Original");
    assert_eq!(hs[0].color, "blue");
    assert_eq!(hs[0].note, None);
    assert_eq!(hs[0].created_at, NOW);
    assert_eq!(hs[0].updated_at, NOW + 9);
}

#[test]
fn highlight_request_defaults() {
    let mut db = ReadingStore::new();
    let req = HighlightRequest {
        id: None,
        device_id: None,
        page: Some(3),
        chapter: None,
        text: "quote".to_string(),
        note: None,
        color: None,
        pos0: None,
        pos1: None,
    };
    let h = db.add_highlight(req, "user-1".to_string(), "book-1".to_string(), NOW);
    assert_eq!(h.color, "yellow");
    assert!(!h.id.is_empty());
    assert_eq!(db.get_highlights("user-1", "book-1")[0].id, h.id);
}

#[test]
fn db_save_and_get_bookmarks() {
    let mut db = ReadingStore::new();
    let bm = Bookmark {
        id: "bm-1".to_string(),
        user_id: "user-1".to_string(),
        book_id: "book-1".to_string(),
        page: Some(100),
        position_data: None,
        name: Some("Important part".to_string()),
        created_at: NOW,
    };
    db.save_bookmark(bm);
    let bms = db.get_bookmarks("user-1", "book-1");
    assert_eq!(bms.len(), 1);
    assert_eq!(bms[0].name, Some("Important part".to_string()));
}

#[test]
fn bookmark_request_keeps_given_id_and_renames() {
    let mut db = ReadingStore::new();
    let req = BookmarkRequest { id: Some("bm".to_string()), page: Some(1), position_data: None, name: Some("one".to_string()) };
    let b = db.add_bookmark(req, "user-1".to_string(), "book-1".to_string(), NOW);
    assert_eq!(b.id, "bm");
    let req = BookmarkRequest { id: Some("bm".to_string()), page: Some(9), position_data: None, name: Some("two".to_string()) };
    db.add_bookmark(req, "user-1".to_string(), "book-1".to_string(), NOW + 1);
    let bms = db.get_bookmarks("user-1", "book-1");
    assert_eq!(bms.len(), 1);
    assert_eq!(bms[0].name, Some("two".to_string()));
    assert_eq!(bms[0].page, Some(1));
    assert!(db.delete_bookmark("bm", "user-1"));
    assert!(db.get_bookmarks("user-1", "book-1").is_empty());
}

fn sdr(book: &str, data: Vec<u8>, last_page: Option<i64>, pct: Option<&str>) -> SdrBackup {
    SdrBackup {
        user_id: "user-1".to_string(),
        book_id: book.to_string(),
        data,
        last_page,
        percent_finished: pct.map(|p| p.to_string()),
        updated_at: NOW,
    }
}

#[test]
fn db_save_and_get_sdr() {
    let mut db = ReadingStore::new();
    db.save_sdr(sdr("book-1", vec![1, 2, 3, 4, 5], Some(50), Some("0.25")));
    let found = db.get_sdr("user-1", "book-1").unwrap();
    assert_eq!(found.data, vec![1, 2, 3, 4, 5]);
    assert_eq!(found.last_page, Some(50));
}

#[test]
fn db_get_sdr_list() {
    let mut db = ReadingStore::new();
    for i in 1..=3i64 {
        let pct = format!("0.{}", i);
        db.save_sdr(sdr(&format!("book-{}", i), vec![i as u8], Some(i * 10), Some(&pct)));
    }
    let list = db.get_user_sdr_list("user-1");
    assert_eq!(list.len(), 3);
    assert_eq!(list[1].last_page, Some(20));
    assert!(db.get_user_sdr_list("user-2").is_empty());
}

#[test]
fn db_sdr_update_replaces_data() {
    let mut db = ReadingStore::new();
    db.save_sdr(sdr("book-1", vec![1, 2, 3], Some(10), Some("0.1")));
    db.save_sdr(sdr("book-1", vec![4, 5, 6, 7], Some(50), Some("0.5")));
    let found = db.get_sdr("user-1", "book-1").unwrap();
    assert_eq!(found.data, vec![4, 5, 6, 7]);
    assert_eq!(found.last_page, Some(50));
    assert_eq!(db.get_user_sdr_list("user-1").len(), 1);
    let info = db.get_sdr_info("user-1", "book-1").unwrap();
    assert_eq!(info.percent_finished, Some("0.5".to_string()));
}

#[test]
fn db_delete_sdr() {
    let mut db = ReadingStore::new();
    db.save_sdr(sdr("book-1", vec![1], None, None));
    assert!(db.delete_sdr("user-1", "book-1"));
    assert!(db.get_sdr("user-1", "book-1").is_none());
    assert!(!db.delete_sdr("user-1", "book-1"));
}

const LUA: &str = "-- we can read Lua syntax here!\nreturn {\n    [\"doc_pages\"] = 240,\n    [\"last_page\"] = 38,\n    [\"percent_finished\"] = 0.15966386554622,\n    [\"summary\"] = {},\n}\n";

#[test]
fn lua_metadata_is_parsed() {
    let s = parse_lua_metadata(LUA);
    assert_eq!(s.last_page, Some(38));
    assert_eq!(s.percent_finished, Some("0.15966386554622".to_string()));
}

#[test]
fn lua_metadata_edge_cases() {
    let s = parse_lua_metadata("[\"last_page\"] = 12.9,\r\n[\"last_page\"] = oops,\n");
    assert_eq!(s.last_page, Some(12));
    assert_eq!(s.percent_finished, None);
    let s = parse_lua_metadata("[\"last_page\"] = -3,\n[\"percent_finished\"] = 1e-05,");
    assert_eq!(s.last_page, Some(-3));
    assert_eq!(s.percent_finished, Some("1e-05".to_string()));
    let s = parse_lua_metadata("[\"last_page\"] = 4e1,\n[\"percent_finished\"] = 1e,");
    assert_eq!(s.last_page, None);
    assert_eq!(s.percent_finished, None);
    let s = parse_lua_metadata("");
    assert_eq!((s.last_page, s.percent_finished), (None, None));
    let s = parse_lua_metadata("[\"last_page\"] = 99999999999999999999999,");
    assert_eq!(s.last_page, Some(i64::MAX));
}

fn tar_gz(name: &str, body: &[u8]) -> Vec<u8> {
    let mut builder = tar::Builder::new(Vec::new());
    let mut header = tar::Header::new_gnu();
    header.set_size(body.len() as u64);
    header.set_mode(0o644);
    header.set_cksum();
    builder.append_data(&mut header, name, body).unwrap();
    let tar_bytes = builder.into_inner().unwrap();
    let mut enc = flate2::write::GzEncoder::new(Vec::new(), flate2::Compression::default());
    std::io::Write::write_all(&mut enc, &tar_bytes).unwrap();
    enc.finish().unwrap()
}

#[test]
fn backup_summary_is_read_from_the_archive() {
    let blob = tar_gz("book.sdr/metadata.epub.lua", LUA.as_bytes());
    let s = summarize_backup(&blob);
    assert_eq!(s.last_page, Some(38));
    assert_eq!(s.percent_finished, Some("0.15966386554622".to_string()));
    let mut db = ReadingStore::new();
    db.upload_sdr("user-1".to_string(), "book-1".to_string(), blob.clone(), NOW);
    let found = db.get_sdr("user-1", "book-1").unwrap();
    assert_eq!(found.data, blob);
    assert_eq!(found.last_page, Some(38));
}

#[test]
fn malformed_backup_degrades_to_empty_summary() {
    let s = summarize_backup(&[1, 2, 3]);
    assert_eq!((s.last_page, s.percent_finished), (None, None));
    let s = summarize_backup(&tar_gz("book.sdr/other.txt", LUA.as_bytes()));
    assert_eq!((s.last_page, s.percent_finished), (None, None));
    let mut db = ReadingStore::new();
    db.upload_sdr("user-1".to_string(), "book-1".to_string(), vec![9, 9], NOW);
    let found = db.get_sdr("user-1", "book-1").unwrap();
    assert_eq!(found.data, vec![9, 9]);
    assert_eq!(found.last_page, None);
    assert!(is_metadata_file("metadata.pdf.lua"));
    assert!(!is_metadata_file("metadata.pdf.lua.old"));
}

#[test]
fn progress_update_request_keeps_first_start() {
    let mut db = ReadingStore::new();
    let req = |page: i64| ProgressUpdateRequest {
        device_id: Some("kindle".to_string()),
        current_page: Some(page),
        total_pages: None,
        percentage: None,
        current_chapter: None,
        position_data: None,
        status: None,
    };
    db.update_progress(req(4), "user-1".to_string(), "book-1".to_string(), 100).unwrap();
    db.update_progress(req(9), "user-1".to_string(), "book-1".to_string(), 250).unwrap();
    let found = db.get_progress("user-1", "book-1").unwrap();
    assert_eq!(found.started_at, Some(100));
    assert_eq!(found.updated_at, 250);
    assert_eq!(found.current_page, Some(9));
    assert_eq!(found.status, "reading");
    assert_eq!(found.id, 1);
}

#[test]
fn first_metadata_member_is_read() {
    let members = vec![
        TarMember { name: "notes.txt".to_string(), data: b"[\"last_page\"] = 1,".to_vec() },
        TarMember { name: "metadata.pdf.lua".to_string(), data: b"[\"last_page\"] = 2,".to_vec() },
        TarMember { name: "metadata.epub.lua".to_string(), data: b"[\"last_page\"] = 3,".to_vec() },
    ];
    assert_eq!(summarize_members(members).last_page, Some(2));
    let bad = vec![TarMember { name: "metadata.pdf.lua".to_string(), data: vec![0xFF, 0xFE] }];
    assert_eq!(summarize_members(bad).last_page, None);
}

#[test]
fn whitespace_matches_std() {
    for u in 0u32..0x3100 {
        if let Some(c) = char::from_u32(u) {
            assert_eq!(is_whitespace(c), c.is_whitespace(), "code point {:x}", u);
        }
    }
    assert!(!is_whitespace('\u{FEFF}'));
}

#[test]
fn highlights_are_listed_by_page_then_time() {
    let mut db = ReadingStore::new();
    let mut a = highlight("a", "A", "yellow");
    a.page = Some(9);
    let mut b = highlight("b", "B", "yellow");
    b.page = Some(2);
    b.created_at = NOW + 5;
    let mut c = highlight("c", "C", "yellow");
    c.page = Some(2);
    c.created_at = NOW + 1;
    let mut d = highlight("d", "D", "yellow");
    d.page = None;
    for h in [a, b, c, d] {
        db.save_highlight(h);
    }
    let ids: Vec<String> = db.get_highlights("user-1", "book-1").into_iter().map(|h| h.id).collect();
    assert_eq!(ids, vec!["d".to_string(), "c".to_string(), "b".to_string(), "a".to_string()]);
}

#[test]
fn bookmarks_are_listed_by_page() {
    let mut db = ReadingStore::new();
    for (id, page) in [("x", Some(30)), ("y", Some(4)), ("z", None)] {
        db.save_bookmark(Bookmark {
            id: id.to_string(),
            user_id: "user-1".to_string(),
            book_id: "book-1".to_string(),
            page,
            position_data: None,
            name: None,
            created_at: NOW,
        });
    }
    let ids: Vec<String> = db.get_bookmarks("user-1", "book-1").into_iter().map(|b| b.id).collect();
    assert_eq!(ids, vec!["z".to_string(), "y".to_string(), "x".to_string()]);
}

#[test]
fn damaged_tail_keeps_earlier_metadata() {
    let mut blob_tar = {
        let mut builder = tar::Builder::new(Vec::new());
        let mut header = tar::Header::new_gnu();
        header.set_size(LUA.len() as u64);
        header.set_mode(0o644);
        header.set_cksum();
        builder.append_data(&mut header, "book.sdr/metadata.epub.lua", LUA.as_bytes()).unwrap();
        builder.into_inner().unwrap()
    };
    blob_tar.truncate(blob_tar.len() - 1024);
    blob_tar.extend_from_slice(&[0x41; 700]);
    let mut enc = flate2::write::GzEncoder::new(Vec::new(), flate2::Compression::default());
    std::io::Write::write_all(&mut enc, &blob_tar).unwrap();
    let blob = enc.finish().unwrap();
    let s = summarize_backup(&blob);
    assert_eq!(s.last_page, Some(38));
}
