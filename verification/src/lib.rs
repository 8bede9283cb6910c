//! Finds the span of a URL around a separator in free-form text.
//!
//! A caller that has found `://` or `.` at some byte offset of a text asks
//! [`UrlScanner::scan`] which stretch of the text around that separator is a
//! URL. The answer is a half-open range of byte offsets, or `None`.
//!
//! Every function here is verified: what it returns is stated over the
//! characters of the text, in the modules `start` and `end`, and proved.
pub mod classes;
pub mod end;
pub mod offsets;
pub mod separator;
pub mod start;
pub mod url;

pub use separator::Separator;
pub use url::UrlScanner;
