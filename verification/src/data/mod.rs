//! The MangaDex data layer: response models and the client's decisions.

pub mod mangadex;
pub mod models;

pub use models::{
    AtHomeChapter, AtHomeResponse, ChapterAttributes, ChapterResource, CollectionResponse,
    CoverAttributes, CoverResource, MangaAttributes, MangaResource, Relationship, Resource,
    SingleResponse,
};
