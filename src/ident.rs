//! Deterministic catalog identifiers.
use vstd::prelude::*;

verus! {

/// The name-based (SHA-1, URL namespace) UUID of a text, in hyphenated
/// lower-case form.
pub uninterp spec fn url_uuid_of(name: Seq<char>) -> Seq<char>;

/// Relies on uuid's `Uuid::new_v5` over `Uuid::NAMESPACE_URL` and on its
/// `Display`: the text is a function of the name's bytes alone.
#[verifier::external_body]
fn url_uuid(name: &str) -> (r: String)
    ensures
        r@ == url_uuid_of(name@),
{
    uuid::Uuid::new_v5(&uuid::Uuid::NAMESPACE_URL, name.as_bytes()).to_string()
}

/// Relies on uuid's `Uuid::new_v4` and its `Display`: a random id, of which
/// nothing is promised.
#[verifier::external_body]
pub(crate) fn random_id() -> (r: String) {
    uuid::Uuid::new_v4().to_string()
}

/// The catalog id of the file at an absolute path. It depends on the path
/// alone, so a file keeps its id across scans and process restarts.
pub fn catalog_id(path: &str) -> (r: String)
    ensures
        r@ == url_uuid_of(path@),
{
    url_uuid(path)
}

/// Two scans, in one process or in two, give a path the same catalog id.
pub proof fn lemma_catalog_id_deterministic(first: Seq<char>, second: Seq<char>)
    requires
        first == second,
    ensures
        url_uuid_of(first) == url_uuid_of(second),
{
}

} // verus!
