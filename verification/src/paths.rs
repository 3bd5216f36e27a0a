//! File layout of an execution mode: where the audit archive, the cleaning
//! working files and the keyframe files of a trace live.
//!
//! Paths are strings; joining follows `Path::join` on Unix-like systems.
use vstd::prelude::*;

use crate::text::{chars_of, string_of};

verus! {

/// `base` joined with `part`: `part` itself when it is absolute or when
/// `base` is empty, otherwise `base`, a `/` unless `base` already ends with
/// one, then `part`.
pub open spec fn path_join(base: Seq<char>, part: Seq<char>) -> Seq<char> {
    if part.len() > 0 && part[0] == '/' {
        part
    } else if base.len() == 0 {
        part
    } else if base.last() == '/' {
        base + part
    } else {
        base + "/"@ + part
    }
}

/// `base` joined with `part` (see `path_join`).
pub fn join_path(base: &str, part: &str) -> (r: String)
    ensures
        r@ == path_join(base@, part@),
{
    let b = chars_of(base);
    let p = chars_of(part);
    if p.len() > 0 && p[0] == '/' {
        return part.to_owned();
    }
    if b.len() == 0 {
        return part.to_owned();
    }
    let mut s = base.to_owned();
    if b[b.len() - 1] != '/' {
        s.append("/");
    }
    s.append(part);
    s
}

} // verus!
