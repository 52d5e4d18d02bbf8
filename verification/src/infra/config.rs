//! Default configuration of the application.
//!
//! URLs, timeouts, minimum intervals and paging limits live here so that no
//! other layer repeats them. Durations are kept in milliseconds.

use vstd::prelude::*;

verus! {

/// Root configuration of the application.
#[derive(Clone, Debug)]
pub struct AppConfig {
    /// Configuration of the MangaDex client.
    pub mangadex: MangaDexConfig,
}

/// Configuration of the MangaDex client.
#[derive(Clone, Debug)]
pub struct MangaDexConfig {
    /// Base URL of the JSON API.
    pub api_base_url: String,
    /// Base URL of the uploads host.
    pub upload_base_url: String,
    /// `User-Agent` sent with every request.
    pub user_agent: String,
    /// Timeout of JSON requests, in milliseconds.
    pub request_timeout_ms: u64,
    /// Timeout of image downloads, in milliseconds.
    pub image_request_timeout_ms: u64,
    /// Minimum interval between API calls, in milliseconds.
    pub api_min_interval_ms: u64,
    /// Additional minimum interval for the AtHome endpoint, in milliseconds.
    pub at_home_min_interval_ms: u64,
    /// Minimum interval between image downloads, in milliseconds.
    pub image_min_interval_ms: u64,
    /// Maximum number of retries per request.
    pub max_retries: usize,
    /// Page size used for the chapter feed.
    pub feed_page_limit: u32,
    /// Hard limit on `offset + limit` that the collections API accepts.
    pub collection_hard_offset_limit: u32,
}

/// The conservative configuration for the public MangaDex API: its URLs,
/// the `User-Agent`, timeouts of 30 s (API) and 60 s (images), gaps of at
/// least 250 ms between API calls, 1.6 s between AtHome calls and 100 ms
/// between image downloads, 5 retries and pages of 100 up to 10 000 entries.
pub open spec fn is_default_mangadex(c: MangaDexConfig) -> bool {
    &&& c.api_base_url@ == "https://api.mangadex.org"@
    &&& c.upload_base_url@ == "https://uploads.mangadex.org"@
    &&& c.user_agent@ == "acerola-mangadex/0.1.0 (Rust CLI downloader)"@
    &&& c.request_timeout_ms == 30_000
    &&& c.image_request_timeout_ms == 60_000
    &&& c.api_min_interval_ms == 250
    &&& c.at_home_min_interval_ms == 1_600
    &&& c.image_min_interval_ms == 100
    &&& c.max_retries == 5
    &&& c.feed_page_limit == 100
    &&& c.collection_hard_offset_limit == 10_000
}

impl Default for MangaDexConfig {
    /// The conservative configuration for the public MangaDex API.
    fn default() -> (r: Self)
        ensures
            is_default_mangadex(r),
    {
        MangaDexConfig {
            api_base_url: "https://api.mangadex.org".to_string(),
            upload_base_url: "https://uploads.mangadex.org".to_string(),
            user_agent: "acerola-mangadex/0.1.0 (Rust CLI downloader)".to_string(),
            request_timeout_ms: 30_000,
            image_request_timeout_ms: 60_000,
            api_min_interval_ms: 250,
            at_home_min_interval_ms: 1_600,
            image_min_interval_ms: 100,
            max_retries: 5,
            feed_page_limit: 100,
            collection_hard_offset_limit: 10_000,
        }
    }
}

impl Default for AppConfig {
    fn default() -> (r: Self)
        ensures
            is_default_mangadex(r.mangadex),
    {
        AppConfig { mangadex: MangaDexConfig::default() }
    }
}

} // verus!
