use vstd::prelude::*;

verus! {

/// Relies on `oneio::read_to_string`: reads the whole resource at `path`
/// (a local file or an HTTP(S) URL, gzip-decompressed when compressed)
/// into text. What comes back depends on the outside world, so nothing is
/// promised of it; a failure hands back the reader's own message.
#[verifier::external_body]
pub(crate) fn fetch_text(path: &str) -> (r: Result<String, String>) {
    #[allow(deprecated)]
    match oneio::read_to_string(path) {
        Ok(s) => Ok(s),
        Err(e) => Err(e.to_string()),
    }
}

/// Relies on `oneio::read_lines`: yields the lines of the resource at
/// `path` (a local file or an HTTP(S) URL, gzip-decompressed when
/// compressed). The lines are collected in order; the first unreadable
/// line fails the whole read. What comes back depends on the outside
/// world, so nothing is promised of it.
#[verifier::external_body]
pub(crate) fn fetch_lines(path: &str) -> (r: Result<Vec<String>, String>) {
    #[allow(deprecated)]
    match oneio::read_lines(path) {
        Ok(lines) => lines.map(|l| l.map_err(|e| e.to_string())).collect(),
        Err(e) => Err(e.to_string()),
    }
}

} // verus!
