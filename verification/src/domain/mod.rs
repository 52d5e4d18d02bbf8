//! The application core: chapter grouping, selection, naming and download
//! decisions, independent of the terminal and of the HTTP client.

pub mod archive;
pub mod chapter;
pub mod downloader;
pub mod filesystem;
pub mod language;
pub mod manga_link;
pub mod selection;
pub mod title;

pub use selection::ChapterSelection;
pub use archive::ChapterFileNameFormat;
pub use language::Language;
pub use downloader::{DownloadCatalog, DownloadReport};
