//! Verified core of the VisuGPS2 GPX audit: the data model of audit findings,
//! the correction engine (deletion, routing, false positives, undo), the
//! renumbering and summary of findings, the audit block of the rewritten GPX,
//! the file layout of a mode, the execution-mode registry, the cleaning
//! pipeline's bookkeeping and the choice of the second window's screen.
use vstd::prelude::*;

pub mod text;
pub mod types;
pub mod corrections;
pub mod laws;
pub mod paths;
pub mod archive;
pub mod migration;
pub mod pipeline;
pub mod patterns;
pub mod export;
pub mod gestion_mode;
pub mod cleaning;
pub mod edition;
pub mod preview;
pub mod loops;
pub mod labels;
pub mod display;

verus! {

} // verus!
