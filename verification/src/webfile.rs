//! A file served to the browser, paired with the path it was read from.

use vstd::prelude::*;
use vstd::string::StringExecFns;

verus! {

/// One file's bytes together with the path they came from; the path's
/// extension lets the serving layer pick a content type.
#[derive(Debug)]
pub struct WebFile {
    pub path: String,
    pub content: Vec<u8>,
}

impl WebFile {
    /// Pairs a path with the bytes read from it.
    pub fn new(path: String, content: Vec<u8>) -> (w: WebFile)
        ensures
            w.path == path,
            w.content == content,
    {
        WebFile { path, content }
    }
}

/// The file a static-route request serves: the requested name under the
/// static root.
pub fn static_path(file: &str) -> (p: String)
    ensures
        p@ == "static/"@ + file@,
{
    let mut p = "static/".to_owned();
    p.append(file);
    p
}

/// The file a data-route request serves, and the place the updater
/// persists to: the given name under the archive root.
pub fn data_path(name: &str) -> (p: String)
    ensures
        p@ == "data/"@ + name@,
{
    let mut p = "data/".to_owned();
    p.append(name);
    p
}

/// Resolves a static-route request: the caller reads the bytes under
/// `static_path(file)` and hands them in; an unreadable file (absence)
/// yields no response.
pub fn handle_static(file: &str, content: Option<Vec<u8>>) -> (r: Option<WebFile>)
    ensures
        match r {
            Some(w) => content is Some && w.path@ == "static/"@ + file@ && w.content
                == content->0,
            None => content is None,
        },
{
    match content {
        Some(bytes) => Some(WebFile::new(static_path(file), bytes)),
        None => None,
    }
}

} // verus!
