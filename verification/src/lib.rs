mod error;
mod git;
mod hunks;
mod patch;
mod text;

pub use error::GeError;
pub use git::{Git, GrepHit, GrepMode, GrepOptions, GrepResult};
pub use hunks::{HunkOptions, Hunks};
pub use patch::{HalfDiffConfig, HunkAccumulator, LineAccumulator, PatchBuilder};
