//! The state that the viewer serves, and the names of files.

use std::sync::Arc;
use vstd::prelude::*;

use crate::align::lower_of;
use crate::types::DiffResult;

verus! {

/// The page size used when none is asked for.
pub fn default_page_size() -> (r: usize)
    ensures
        r == 100,
{
    100
}

/// What every request of the viewer reads: the result it shows.
#[derive(Clone)]
pub struct AppState {
    pub diff_result: Arc<DiffResult>,
}

/// The viewer: the port it listens on (0 for any free port) and its state.
pub struct WebServer {
    pub port: u16,
    pub state: AppState,
}

impl WebServer {
    pub fn new(diff_result: DiffResult, port: Option<u16>) -> (r: Self)
        ensures
            r.port == (match port {
                Some(p) => p,
                None => 0u16,
            }),
            *r.state.diff_result == diff_result,
    {
        let p = match port {
            Some(p) => p,
            None => 0,
        };
        WebServer { port: p, state: AppState { diff_result: Arc::new(diff_result) } }
    }
}

/// The extension of the last component of a path, if it has one.
pub uninterp spec fn extension_of(path: Seq<char>) -> Option<Seq<char>>;

/// Relies on `Path::extension` and `OsStr::to_str`: the text after the last dot of the
/// path's file name, where the name has one that does not start it.
#[verifier::external_body]
fn path_extension(path: &str) -> (r: Option<&str>)
    ensures
        opt_chars(r) == extension_of(path@),
{
    std::path::Path::new(path).extension().and_then(|s| s.to_str())
}

pub open spec fn opt_chars(o: Option<&str>) -> Option<Seq<char>> {
    match o {
        Some(s) => Some(s@),
        None => None,
    }
}

/// The extension of `path`, lowercased.
pub fn get_file_extension(path: &str) -> (r: Option<String>)
    ensures
        r matches Some(e) ==> extension_of(path@) matches Some(x) && e@ == lower_of(x),
        r is None <==> extension_of(path@) is None,
{
    match path_extension(path) {
        Some(e) => Some(crate::align::lowercase(e)),
        None => None,
    }
}

} // verus!
