use vstd::prelude::*;

verus! {

/// The texts of a sequence of strings.
pub open spec fn views(v: Seq<String>) -> Seq<Seq<char>> {
    v.map_values(|s: String| s@)
}

/// A file is identified by its path relative to the repository root.
pub type FileId = String;

/// What the history walk learned about one file that still exists.
pub struct FileInfo {
    /// Path relative to the repository root (the same text as its id).
    pub path: String,
    /// Number of lines of the file's current content (0 if it could not be read).
    pub lines: usize,
    /// Commit time (seconds) of the newest commit in the window that touched the file.
    pub last_modified: i64,
    /// Number of commits in the window that touched the file.
    pub commit_count: usize,
}

/// Which metric is mapped to a node's elevation.
#[derive(Debug, Clone, Copy, PartialEq, Eq, Structural)]
pub enum DepthMode {
    Recency,
    Coupling,
    Importance,
}

/// How nodes are colored.
#[derive(Debug, Clone, Copy, PartialEq, Eq, Structural)]
pub enum ColorMode {
    FileType,
    Recency,
}

impl ColorMode {
    /// The mode that the color-cycling key switches to.
    pub open spec fn spec_next(self) -> ColorMode {
        match self {
            ColorMode::FileType => ColorMode::Recency,
            ColorMode::Recency => ColorMode::FileType,
        }
    }

    /// Cycle to the next color mode.
    pub fn next(self) -> (r: ColorMode)
        ensures
            r == self.spec_next(),
    {
        match self {
            ColorMode::FileType => ColorMode::Recency,
            ColorMode::Recency => ColorMode::FileType,
        }
    }
}

/// Cycling the color mode twice comes back to where it started, and every
/// cycle changes the mode.
pub proof fn lemma_color_cycle_returns(m: ColorMode)
    ensures
        m.spec_next().spec_next() == m,
        m.spec_next() != m,
{
}

} // verus!
