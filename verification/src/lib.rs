//! Downloading MangaDex chapters as CBZ archives: the verified core.
//!
//! The library holds the rules of the downloader: how a title link becomes a
//! manga id, how the chapter feed is grouped and ordered, how a selection is
//! parsed and resolved, how files and folders are named, and the decisions of
//! the HTTP client (paging, retries, delays). The program around it performs
//! the network and file work.
//!
//! - `domain`: chapter selection, indexing, naming and download decisions.
//! - `data`: the MangaDex response models and the client's decisions.
//! - `infra`: configuration, errors and the request spacing window.
//! - `number`, `text`: exact chapter numbers and character-level text handling.

use vstd::prelude::*;

pub mod domain;
pub mod data;
pub mod infra;
pub mod binary64;
pub mod number;
pub mod text;

verus! {
}
