use ebook_catalog::format::{is_jxl, natord_compare, BookFormat, CbzHandler};
use ebook_catalog::opds::generate_opensearch;
use std::cmp::Ordering;

#[test]
fn test_natord_compare() {
    assert_eq!(natord_compare("page1", "page2"), Ordering::Less);
    assert_eq!(natord_compare("page2", "page10"), Ordering::Less);
    assert_eq!(natord_compare("page10", "page2"), Ordering::Greater);
}

#[test]
fn natord_ignores_case_of_letters() {
    assert_eq!(natord_compare("B", "a"), Ordering::Greater);
    assert_eq!(natord_compare("Page1", "page1"), Ordering::Equal);
    assert_eq!(natord_compare("", "a"), Ordering::Less);
    assert_eq!(natord_compare("a", ""), Ordering::Greater);
    assert_eq!(natord_compare("", ""), Ordering::Equal);
}

#[test]
fn natord_passes_over_the_character_after_a_number() {
    assert_eq!(natord_compare("a1b", "a1c"), Ordering::Equal);
    assert_eq!(natord_compare("x007", "x7"), Ordering::Equal);
}

#[test]
fn book_format_from_extension() {
    assert_eq!(BookFormat::from_extension("epub"), Some(BookFormat::Epub));
    assert_eq!(BookFormat::from_extension("PDF"), Some(BookFormat::Pdf));
    assert_eq!(BookFormat::from_extension("cbz"), Some(BookFormat::Cbz));
    assert_eq!(BookFormat::from_extension("CBR"), Some(BookFormat::Cbr));
    assert_eq!(BookFormat::from_extension("mobi"), Some(BookFormat::Mobi));
    assert_eq!(BookFormat::from_extension("fb2"), Some(BookFormat::Fb2));
    assert_eq!(BookFormat::from_extension("unknown"), None);
}

#[test]
fn book_format_aliases() {
    assert_eq!(BookFormat::from_extension("AZW3"), Some(BookFormat::Mobi));
    assert_eq!(BookFormat::from_extension("htm"), Some(BookFormat::Html));
    assert_eq!(BookFormat::from_extension("Markdown"), Some(BookFormat::Md));
    assert_eq!(BookFormat::from_extension(""), None);
    assert_eq!(BookFormat::from_lowercase_extension("PDF"), None);
    assert_eq!(BookFormat::from_lowercase_extension("pdf"), Some(BookFormat::Pdf));
}

#[test]
fn book_format_mime_type() {
    assert_eq!(BookFormat::Epub.mime_type(), "application/epub+zip");
    assert_eq!(BookFormat::Pdf.mime_type(), "application/pdf");
    assert_eq!(BookFormat::Cbz.mime_type(), "application/vnd.comicbook+zip");
    assert_eq!(BookFormat::Cbr.mime_type(), "application/vnd.comicbook-rar");
}

#[test]
fn book_format_is_comic_and_tag() {
    assert!(BookFormat::Cbz.is_comic());
    assert!(BookFormat::Cb7.is_comic());
    assert!(!BookFormat::Epub.is_comic());
    assert_eq!(BookFormat::Md.tag(), "md");
    assert_eq!(BookFormat::Md.mime_type(), "text/markdown");
}

#[test]
fn image_file_names() {
    assert!(CbzHandler::is_image_file("page01.JPG"));
    assert!(CbzHandler::is_image_file("cover.webp"));
    assert!(CbzHandler::is_image_file("x.jxl"));
    assert!(!CbzHandler::is_image_file("ComicInfo.xml"));
    assert!(!CbzHandler::is_image_file("jpg"));
}

#[test]
fn jxl_signatures() {
    assert!(is_jxl(&[0xFF, 0x0A, 0x00]));
    assert!(is_jxl(&[0x00, 0x00, 0x00, 0x0C, 0x4A, 0x58, 0x4C, 0x20, 0x0D, 0x0A, 0x87, 0x0A, 0x01]));
    assert!(!is_jxl(&[0xFF]));
    assert!(!is_jxl(&[0x89, 0x50, 0x4E, 0x47]));
    assert!(!is_jxl(&[0x00, 0x00, 0x00, 0x0C, 0x4A, 0x58, 0x4C, 0x20, 0x0D, 0x0A, 0x87]));
}

#[test]
fn opensearch_document() {
    let doc = generate_opensearch("Books", "http://h");
    assert!(doc.starts_with("<?xml version=\"1.0\" encoding=\"UTF-8\"?>\n<OpenSearchDescription"));
    assert!(doc.contains("<ShortName>Books</ShortName>"));
    assert!(doc.contains("<Description>Search the Books catalog</Description>"));
    assert!(doc.contains("template=\"http://h/catalog/search?q={searchTerms}\"/>"));
    assert!(doc.ends_with("</OpenSearchDescription>"));
}
