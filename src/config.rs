//! Configuration of the catalog: libraries, store location, sessions, sync,
//! scanning and the cover cache.
use vstd::prelude::*;
use vstd::string::*;
use crate::text::str_eq;

verus! {

/// A library to serve, as configured.
pub struct LibraryConfig {
    /// Library name.
    pub name: String,
    /// Path of the library directory.
    pub path: String,
    /// Whether every user may read the library.
    pub public: bool,
}

/// Libraries are public unless configured otherwise.
fn default_public() -> (r: bool)
    ensures
        r,
{
    true
}

/// Title of the catalog unless configured otherwise.
pub fn default_title() -> (r: String)
    ensures
        r@ == "My Library"@,
{
    String::from_str("My Library")
}

impl LibraryConfig {
    /// A library configuration with the default visibility (public).
    pub fn new(name: String, path: String) -> (r: LibraryConfig)
        ensures
            r.name == name,
            r.path == path,
            r.public,
    {
        LibraryConfig { name, path, public: default_public() }
    }
}

/// Where the store is kept.
pub struct DatabaseConfig {
    /// Path of the store file.
    pub path: String,
}

fn default_db_path() -> (r: String)
    ensures
        r@ == "data/library.db"@,
{
    String::from_str("data/library.db")
}

impl Default for DatabaseConfig {
    fn default() -> (r: DatabaseConfig)
        ensures
            r.path@ == "data/library.db"@,
    {
        DatabaseConfig { path: default_db_path() }
    }
}

/// Account and session settings.
pub struct AuthConfig {
    /// Registration mode: "open" or "disabled".
    pub registration: String,
    /// Session token lifetime in days.
    pub session_days: u32,
}

fn default_registration() -> (r: String)
    ensures
        r@ == "open"@,
{
    String::from_str("open")
}

fn default_session_days() -> (r: u32)
    ensures
        r == 30,
{
    30
}

impl Default for AuthConfig {
    fn default() -> (r: AuthConfig)
        ensures
            r.registration@ == "open"@,
            r.session_days == 30,
    {
        AuthConfig { registration: default_registration(), session_days: default_session_days() }
    }
}

impl AuthConfig {
    /// Whether new users may register: the mode is exactly "open".
    pub fn registration_enabled(&self) -> (r: bool)
        ensures
            r == (self.registration@ == "open"@),
    {
        str_eq(self.registration.as_str(), "open")
    }
}

/// Reading-state sync settings.
pub struct SyncConfig {
    /// Name of the merge strategy. Informational: every progress write is
    /// reconciled by last write wins, with the first start time kept.
    pub merge_strategy: String,
}

fn default_merge_strategy() -> (r: String)
    ensures
        r@ == "furthest"@,
{
    String::from_str("furthest")
}

impl Default for SyncConfig {
    fn default() -> (r: SyncConfig)
        ensures
            r.merge_strategy@ == "furthest"@,
    {
        SyncConfig { merge_strategy: default_merge_strategy() }
    }
}

/// Scanner settings.
pub struct ScanConfig {
    /// Rescan interval in seconds; 0 disables periodic rescans.
    pub interval_seconds: u64,
    /// Number of extraction workers; 1 extracts one file at a time.
    pub workers: usize,
}

fn default_scan_interval() -> (r: u64)
    ensures
        r == 300,
{
    300
}

fn default_scan_workers() -> (r: usize)
    ensures
        r == 1,
{
    1
}

impl Default for ScanConfig {
    fn default() -> (r: ScanConfig)
        ensures
            r.interval_seconds == 300,
            r.workers == 1,
    {
        ScanConfig { interval_seconds: default_scan_interval(), workers: default_scan_workers() }
    }
}

impl ScanConfig {
    /// Whether periodic rescans are enabled.
    pub fn periodic(&self) -> (r: bool)
        ensures
            r == (self.interval_seconds > 0),
    {
        self.interval_seconds > 0
    }
}

/// Cover cache settings.
pub struct CacheConfig {
    /// Directory of cached covers.
    pub covers_dir: String,
    /// Thumbnail size in pixels.
    pub thumbnail_size: u32,
}

fn default_cache_dir() -> (r: String)
    ensures
        r@ == "data/covers"@,
{
    String::from_str("data/covers")
}

fn default_thumbnail_size() -> (r: u32)
    ensures
        r == 200,
{
    200
}

impl CacheConfig {
    /// The name of the cached cover file of a book, inside `covers_dir`.
    pub fn cover_file_name(book_id: &str) -> (r: String)
        ensures
            r@ == book_id@ + ".jpg"@,
    {
        String::from_str(book_id).concat(".jpg")
    }
}

impl Default for CacheConfig {
    fn default() -> (r: CacheConfig)
        ensures
            r.covers_dir@ == "data/covers"@,
            r.thumbnail_size == 200,
    {
        CacheConfig { covers_dir: default_cache_dir(), thumbnail_size: default_thumbnail_size() }
    }
}

} // verus!
