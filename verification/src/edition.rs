//! Files of the editing workshop of a trace: raw keyframes of the
//! pre-computation and montage overrides, under `{mode_dir}/keyframes/`.
use vstd::prelude::*;

use crate::paths::{join_path, path_join};

verus! {

/// Size of the reference viewport of the pre-computation.
#[derive(Clone, Copy, Debug)]
pub struct ReferenceViewport {
    pub width: u32,
    pub height: u32,
}

/// Kinds of keyframe files of a trace (suffixes of their names).
pub open spec fn keyframe_suffixes() -> Seq<Seq<char>> {
    seq!["raw_keyframes"@, "montage_overrides"@, "final_keyframes"@]
}

/// `{mode_dir}/keyframes/{trace_id}_{suffix}.json`.
pub open spec fn keyframes_file_of(mode_dir: Seq<char>, trace_id: Seq<char>, suffix: Seq<char>) -> Seq<char> {
    path_join(path_join(mode_dir, "keyframes"@), trace_id + "_"@ + suffix + ".json"@)
}

/// Path of a keyframe file of a trace; `suffix` is `raw_keyframes`,
/// `montage_overrides` or `final_keyframes`.
pub fn keyframes_file_path(mode_dir: &str, trace_id: &str, suffix: &str) -> (r: String)
    ensures
        r@ == keyframes_file_of(mode_dir@, trace_id@, suffix@),
{
    let dir = join_path(mode_dir, "keyframes");
    let mut name = String::from_str(trace_id);
    name.append("_");
    name.append(suffix);
    name.append(".json");
    join_path(dir.as_str(), name.as_str())
}

/// Paths of all the keyframe files of a trace, removed when the trace is
/// deleted.
pub fn keyframe_files(mode_dir: &str, trace_id: &str) -> (r: Vec<String>)
    ensures
        r@.len() == 3,
        forall|i: int| 0 <= i < 3 ==> (#[trigger] r@[i])@ == keyframes_file_of(mode_dir@, trace_id@, keyframe_suffixes()[i]),
{
    let mut v: Vec<String> = Vec::new();
    v.push(keyframes_file_path(mode_dir, trace_id, "raw_keyframes"));
    v.push(keyframes_file_path(mode_dir, trace_id, "montage_overrides"));
    v.push(keyframes_file_path(mode_dir, trace_id, "final_keyframes"));
    v
}

} // verus!
