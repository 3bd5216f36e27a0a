//! Migration to the audit module: recognition of a pre-audit trace registry
//! and of the orphan working files of the former cleaning module.
use vstd::prelude::*;

use crate::text::{chars_of, contains_exec, contains_text, ends_with, ends_with_exec, starts_with, starts_with_exec};

verus! {

/// A registry in the pre-audit format: it holds the quoted key
/// `"cleaning_status"` (the field only ever appears as a JSON key).
pub fn is_obsolete_registry(raw: &str) -> (r: bool)
    ensures
        r == contains_text(raw@, "\"cleaning_status\""@),
{
    let s = chars_of(raw);
    let p = chars_of("\"cleaning_status\"");
    contains_exec(&s, &p)
}

/// A working file of the former cleaning module: `cleaning.*.json`.
pub fn is_obsolete_cleaning_file(name: &str) -> (r: bool)
    ensures
        r == (starts_with(name@, "cleaning."@) && ends_with(name@, ".json"@)),
{
    let s = chars_of(name);
    let a = chars_of("cleaning.");
    let b = chars_of(".json");
    starts_with_exec(&s, &a) && ends_with_exec(&s, &b)
}

} // verus!
