//! Catalog feed pieces: links and the OpenSearch description.
use vstd::prelude::*;
use vstd::string::*;

verus! {

/// A feed link.
pub struct Link {
    /// Relation type ("self", "subsection", "acquisition", ...).
    pub rel: String,
    /// URL of the linked resource.
    pub href: String,
    /// MIME type of the linked resource.
    pub link_type: String,
    /// Optional title.
    pub title: Option<String>,
}

/// The text before the short name.
pub open spec fn os_head() -> Seq<char> {
    "<?xml version=\"1.0\" encoding=\"UTF-8\"?>\n<OpenSearchDescription xmlns=\"http://a9.com/-/spec/opensearch/1.1/\">\n  <ShortName>"@
}

/// The text between the short name and the title in the description.
pub open spec fn os_mid() -> Seq<char> {
    "</ShortName>\n  <Description>Search the "@
}

/// The text between the title and the base URL.
pub open spec fn os_url() -> Seq<char> {
    " catalog</Description>\n  <InputEncoding>UTF-8</InputEncoding>\n  <OutputEncoding>UTF-8</OutputEncoding>\n  <Url type=\"application/atom+xml;profile=opds-catalog\" template=\""@
}

/// The text after the base URL.
pub open spec fn os_tail() -> Seq<char> {
    "/catalog/search?q={searchTerms}\"/>\n</OpenSearchDescription>"@
}

/// The OpenSearch description of a catalog titled `title` served at `base`.
pub open spec fn opensearch_doc(title: Seq<char>, base: Seq<char>) -> Seq<char> {
    os_head() + title + os_mid() + title + os_url() + base + os_tail()
}

/// The OpenSearch description document of the catalog, with its search URL
/// template under `base_url`.
pub fn generate_opensearch(title: &str, base_url: &str) -> (r: String)
    ensures
        r@ == opensearch_doc(title@, base_url@),
{
    let s = String::from_str("<?xml version=\"1.0\" encoding=\"UTF-8\"?>\n<OpenSearchDescription xmlns=\"http://a9.com/-/spec/opensearch/1.1/\">\n  <ShortName>");
    let s = s.concat(title);
    let s = s.concat("</ShortName>\n  <Description>Search the ");
    let s = s.concat(title);
    let s = s.concat(" catalog</Description>\n  <InputEncoding>UTF-8</InputEncoding>\n  <OutputEncoding>UTF-8</OutputEncoding>\n  <Url type=\"application/atom+xml;profile=opds-catalog\" template=\"");
    let s = s.concat(base_url);
    let s = s.concat("/catalog/search?q={searchTerms}\"/>\n</OpenSearchDescription>");
    s
}

} // verus!
