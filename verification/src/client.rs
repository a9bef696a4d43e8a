use vstd::prelude::*;

verus! {

/// Client-side entry point for listing remote files. The remote call is not
/// issued from here; the surrounding command-line front end owns the wire.
pub fn list(_path: &Option<String>) {
}

/// Client-side entry point for fetching a remote file.
pub fn get(_file: &String) {
}

/// Client-side entry point for adding a remote file.
pub fn add(_file: &String) {
}

/// Client-side entry point for removing a remote file.
pub fn remove(_file: &String) {
}

} // verus!
