//! Models of the MangaDex responses, with only the fields the application uses.

use vstd::prelude::*;

verus! {

/// Envelope of an endpoint that returns one resource.
#[derive(Clone, Debug)]
pub struct SingleResponse<T> {
    /// Result text of the API, normally `ok`.
    pub result: String,
    /// The resource.
    pub data: T,
}

/// Envelope of a paged endpoint.
#[derive(Clone, Debug)]
pub struct CollectionResponse<T> {
    /// Result text of the API, normally `ok`.
    pub result: String,
    /// Response type, when the API gives one.
    pub response: Option<String>,
    /// The current page of resources.
    pub data: Vec<T>,
    /// Page size used.
    pub limit: u32,
    /// Offset used.
    pub offset: u32,
    /// Total number of resources of the query.
    pub total: u32,
}

/// Generic shape of a MangaDex resource.
#[derive(Clone, Debug)]
pub struct Resource<T> {
    /// UUID of the resource.
    pub id: String,
    /// Type of the resource (the JSON field `type`).
    pub resource_type: String,
    /// Attributes of the resource.
    pub attributes: T,
    /// Relationships included or referenced by the response.
    pub relationships: Vec<Relationship>,
}

/// A manga resource.
pub type MangaResource = Resource<MangaAttributes>;

/// A chapter resource.
pub type ChapterResource = Resource<ChapterAttributes>;

/// A cover resource.
pub type CoverResource = Resource<CoverAttributes>;

/// A relationship between MangaDex resources.
#[derive(Clone, Debug)]
pub struct Relationship {
    /// UUID of the related resource.
    pub id: String,
    /// Type of the related resource (the JSON field `type`).
    pub resource_type: String,
}

/// Attributes of a manga.
#[derive(Clone, Debug)]
pub struct MangaAttributes {
    /// Titles by language code; a language code occurs at most once. Their
    /// order is the order in which the response's map was walked, which the
    /// map leaves unspecified.
    pub title: Vec<(String, String)>,
}

impl MangaAttributes {
    /// No language code occurs twice.
    pub open spec fn well_formed(&self) -> bool {
        forall|i: int, j: int|
            0 <= i < j < self.title@.len() ==> #[trigger] self.title@[i].0@
                != #[trigger] self.title@[j].0@
    }
}

/// Attributes of a cover.
#[derive(Clone, Debug)]
pub struct CoverAttributes {
    /// File name of the cover on MangaDex (the JSON field `fileName`).
    pub file_name: String,
}

/// Attributes of a chapter.
#[derive(Clone, Debug)]
pub struct ChapterAttributes {
    /// The real chapter number, such as `133` or `0.01`.
    pub chapter: Option<String>,
    /// Optional chapter title.
    pub title: Option<String>,
    /// Language of the translation (the JSON field `translatedLanguage`).
    pub translated_language: String,
    /// Number of pages the API reports.
    pub pages: Option<u32>,
    /// External URL when the chapter is not hosted on MangaDex.
    pub external_url: Option<String>,
}

/// Answer of the AtHome endpoint.
#[derive(Clone, Debug)]
pub struct AtHomeResponse {
    /// Result text of the API, normally `ok`.
    pub result: String,
    /// Temporary base URL of the chapter's images (the JSON field `baseUrl`).
    pub base_url: String,
    /// Page data and hash of the chapter.
    pub chapter: AtHomeChapter,
}

/// Image data of the AtHome answer.
#[derive(Clone, Debug)]
pub struct AtHomeChapter {
    /// Hash used in the image paths.
    pub hash: String,
    /// Image files in full quality.
    pub data: Vec<String>,
    /// Image files in data-saver mode (the JSON field `dataSaver`).
    pub data_saver: Vec<String>,
}

} // verus!
