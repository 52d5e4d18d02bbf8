//! The single error type of the application.

use vstd::prelude::*;

verus! {

/// `std::num::ParseIntError`, the error of integer parsing.
#[verifier::external_type_specification]
#[verifier::external_body]
pub struct ExParseIntError(std::num::ParseIntError);

/// `url::ParseError`, the error of URL parsing.
#[verifier::external_type_specification]
#[verifier::external_body]
pub struct ExUrlParseError(url::ParseError);

/// `uuid::Error`, the error of UUID parsing.
#[verifier::external_type_specification]
#[verifier::external_body]
pub struct ExUuidError(uuid::Error);

/// `reqwest::Error`, the error of the HTTP client.
#[verifier::external_type_specification]
#[verifier::external_body]
pub struct ExHttpError(reqwest::Error);

/// `reqwest::header::InvalidHeaderValue`, an invalid HTTP header value.
#[verifier::external_type_specification]
#[verifier::external_body]
pub struct ExInvalidHeaderValue(reqwest::header::InvalidHeaderValue);

/// `std::io::Error`, a file system failure.
#[verifier::external_type_specification]
#[verifier::external_body]
pub struct ExIoError(std::io::Error);

/// `zip::result::ZipError`, a failure while writing an archive.
#[verifier::external_type_specification]
#[verifier::external_body]
pub struct ExZipError(zip::result::ZipError);

/// Errors that can happen while the application runs.
#[derive(Debug)]
pub enum AppError {
    /// An error answer or an unexpected response from the API.
    Api(String),
    /// An error of the HTTP client.
    Http(reqwest::Error),
    /// An invalid HTTP header value, usually in the `User-Agent`.
    InvalidHeaderValue(reqwest::header::InvalidHeaderValue),
    /// Invalid input from the user or from command-line parsing.
    InvalidInput(String),
    /// A file system failure.
    Io(std::io::Error),
    /// A failure to parse an integer.
    ParseInt(std::num::ParseIntError),
    /// A failure of an interactive prompt.
    Prompt(String),
    /// The rate-limit protection stopped the request.
    RateLimit(String),
    /// An invalid URL.
    Url(url::ParseError),
    /// An invalid UUID.
    Uuid(uuid::Error),
    /// A failure while writing a ZIP/CBZ archive.
    Zip(zip::result::ZipError),
}

/// The result type used by every layer of the application.
pub type Result<T> = std::result::Result<T, AppError>;

} // verus!
