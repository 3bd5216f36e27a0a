//! Audit archive of a trace (`audit.json` in the trace's folder): where it
//! lives and which archive a trace may take back.
use vstd::prelude::*;

use crate::paths::{join_path, path_join};

verus! {

/// Version of the archive format. An archive of another version is ignored.
pub const ARCHIVE_VERSION: u32 = 1;

/// Name of the archive file, in the trace's folder.
pub open spec fn archive_file_name() -> Seq<char> {
    "audit.json"@
}

/// Path of the archive of a trace: `{mode}/traces/{trace_id}/audit.json`.
pub open spec fn archive_path_of(mode_dir: Seq<char>, trace_id: Seq<char>) -> Seq<char> {
    path_join(path_join(path_join(mode_dir, "traces"@), trace_id), archive_file_name())
}

/// Path of the archive of a trace: `{mode}/traces/{trace_id}/audit.json`.
pub fn archive_path(mode_dir: &str, trace_id: &str) -> (r: String)
    ensures
        r@ == archive_path_of(mode_dir@, trace_id@),
{
    let traces = join_path(mode_dir, "traces");
    let dir = join_path(traces.as_str(), trace_id);
    join_path(dir.as_str(), "audit.json")
}

/// A stored archive of version `version` belonging to trace `archive_trace`
/// is taken back for trace `trace_id` only when it has the current version
/// and belongs to that trace.
pub fn archive_matches(version: u32, archive_trace: &str, trace_id: &str) -> (r: bool)
    ensures
        r == (version == ARCHIVE_VERSION && archive_trace@ == trace_id@),
{
    let a = archive_trace.to_owned();
    let b = trace_id.to_owned();
    version == ARCHIVE_VERSION && a == b
}

} // verus!
