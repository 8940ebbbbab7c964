//! The core error surface.

use vstd::prelude::*;

verus! {

/// An error from the library. Every fallible operation returns this; the
/// payload is the human-readable message.
#[derive(Debug, Clone, PartialEq, Eq)]
pub enum CoreError {
    Database(String),
    Config(String),
    NotFound(String),
    Io(String),
    Keyring(String),
    Sync(String),
    Internal(String),
}

/// `a`, `b` and `c` concatenated.
pub fn concat3(a: &str, b: &str, c: &str) -> (r: String)
    ensures
        r@ == a@ + b@ + c@,
{
    let mut s = String::from_str(a);
    s.append(b);
    s.append(c);
    s
}

/// `a` … `e` concatenated.
pub fn concat5(a: &str, b: &str, c: &str, d: &str, e: &str) -> (r: String)
    ensures
        r@ == a@ + b@ + c@ + d@ + e@,
{
    let mut s = String::from_str(a);
    s.append(b);
    s.append(c);
    s.append(d);
    s.append(e);
    s
}

/// A `String` with the characters of `a`.
pub fn owned(a: &str) -> (r: String)
    ensures
        r@ == a@,
{
    String::from_str(a)
}

} // verus!
