//! A library as seen from outside an open session: its identity, and the
//! checks a library's config must pass to be opened.

use vstd::prelude::*;

use crate::error::{concat3, CoreError};

verus! {

/// A library's identity, for the picker.
#[derive(Debug, Clone, PartialEq, Eq)]
pub struct LibraryInfo {
    pub id: String,
    pub name: String,
}

/// The name of the first library a fresh install creates.
pub const DEFAULT_LIBRARY_NAME: &'static str = "Home";

/// The directory under the data directory that holds every library.
pub const LIBRARIES_DIR: &'static str = "libraries";

/// The libraries a scan of the libraries directory found, in scan order: one
/// per entry whose config was read and parsed; an entry without a readable,
/// parseable config is not a library and is skipped.
pub open spec fn found(entries: Seq<Option<LibraryInfo>>) -> Seq<LibraryInfo>
    decreases entries.len(),
{
    if entries.len() == 0 {
        Seq::empty()
    } else {
        found(entries.drop_last()) + match entries.last() {
            Some(info) => seq![info],
            None => Seq::empty(),
        }
    }
}

/// The library list of a scan, from each directory entry's outcome (`None`
/// for an entry skipped).
pub fn found_libraries(entries: &Vec<Option<LibraryInfo>>) -> (r: Vec<LibraryInfo>)
    ensures
        r@ == found(entries@),
{
    let mut out: Vec<LibraryInfo> = Vec::new();
    let mut i: usize = 0;
    while i < entries.len()
        invariant
            i <= entries@.len(),
            out@ == found(entries@.take(i as int)),
        decreases entries@.len() - i,
    {
        proof {
            assert(entries@.take(i + 1).drop_last() =~= entries@.take(i as int));
            assert(entries@.take(i + 1).last() == entries@[i as int]);
        }
        match &entries[i] {
            Some(info) => {
                out.push(LibraryInfo { id: info.id.clone(), name: info.name.clone() });
            },
            None => {},
        }
        proof {
            assert(out@ =~= found(entries@.take(i + 1)));
        }
        i = i + 1;
    }
    proof {
        assert(entries@.take(entries@.len() as int) =~= entries@);
    }
    out
}

/// The scan of a libraries directory that could not be read: before the first
/// library is created there is no directory yet (`not_found`), which lists no
/// library; any other failure is an I/O error naming the directory and why.
pub fn unreadable_libraries_dir(not_found: bool, dir: &str, reason: &str) -> (r: Result<Vec<LibraryInfo>, CoreError>)
    ensures
        not_found ==> (r matches Ok(v) && v@.len() == 0),
        !not_found ==> (r matches Err(CoreError::Io(m)) && m@ == "reading libraries dir "@ + dir@ + ": "@ + reason@),
{
    if not_found {
        Ok(Vec::new())
    } else {
        let mut m = concat3("reading libraries dir ", dir, ": ");
        m.append(reason);
        Err(CoreError::Io(m))
    }
}

/// The device id a library's config names. Its absence is corruption (every
/// library is written with one), surfaced as a config error rather than
/// defaulted.
pub fn require_device_id(device_id: Option<String>, library_id: &str) -> (r: Result<String, CoreError>)
    ensures
        device_id matches Some(d) ==> r == Ok::<String, CoreError>(d),
        device_id is None ==> (r matches Err(CoreError::Config(m)) && m@ == "library "@ + library_id@
            + " config has no device_id"@),
{
    match device_id {
        Some(d) => Ok(d),
        None => Err(CoreError::Config(concat3("library ", library_id, " config has no device_id"))),
    }
}

} // verus!
