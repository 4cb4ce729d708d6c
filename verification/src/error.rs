use vstd::prelude::*;

verus! {

/// Everything that can go wrong inside the half-diff engine.
#[derive(Clone, Copy, Debug, PartialEq, Eq, Structural)]
pub enum GeError {
    /// A search-output line misses its NUL delimiters or carries a bad line number.
    MalformedGrepLine,
    /// The edited half-diff names a file that was not among the hunks.
    UnknownFile,
    /// Marker collision avoidance was forbidden or exhausted its bound.
    MarkerCollision,
    /// A hunk line of the edited half-diff carries an unparseable coordinate.
    MalformedHunkCoordinate,
    /// The edited half-diff points at a hunk that was never rendered.
    UnknownHunk,
    /// A body line of the edited half-diff stands outside any hunk.
    OrphanLine,
}

impl GeError {
    /// A short diagnostic for each condition.
    pub fn describe(&self) -> (r: &'static str)
        ensures
            r@.len() > 0,
    {
        proof {
            reveal_strlit("malformed grep output line. aborting.");
            reveal_strlit("got an invalid filename in the edit result. aborting.");
            reveal_strlit("failed to avoid collision with a marker. aborting.");
            reveal_strlit("got a broken hunk coordinate in the edit result. aborting.");
            reveal_strlit("got an unknown hunk location in the edit result. aborting.");
            reveal_strlit("got a line outside any hunk in the edit result. aborting.");
        }
        match self {
            GeError::MalformedGrepLine => "malformed grep output line. aborting.",
            GeError::UnknownFile => "got an invalid filename in the edit result. aborting.",
            GeError::MarkerCollision => "failed to avoid collision with a marker. aborting.",
            GeError::MalformedHunkCoordinate => "got a broken hunk coordinate in the edit result. aborting.",
            GeError::UnknownHunk => "got an unknown hunk location in the edit result. aborting.",
            GeError::OrphanLine => "got a line outside any hunk in the edit result. aborting.",
        }
    }
}

} // verus!
