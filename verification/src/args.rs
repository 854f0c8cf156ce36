//! The scan's configuration, as plain values handed in by the caller.
use vstd::prelude::*;

verus! {

/// Options of one scan run.
///
/// `ignore_filetypes` and `ignore_dirs` extend the built-in skip lists;
/// the remaining fields only steer how a caller renders the results.
pub struct Args {
    /// Root of the tree to scan.
    pub repo_path: String,
    /// How many ranked frequencies the caller will display.
    pub top: usize,
    /// Whether whitespace characters are shown in the rendered table.
    pub show_spaces: bool,
    /// Whether alphabetic characters are left out of the rendered table.
    pub exclude_letters: bool,
    /// Whether the caller saves the displayed rows as CSV.
    pub save_csv: bool,
    /// Whether per-file errors are listed after the table.
    pub verbose: bool,
    /// Extra file extensions to skip, with or without a leading dot.
    pub ignore_filetypes: Vec<String>,
    /// Extra directory names to skip, matched against path components.
    pub ignore_dirs: Vec<String>,
}

} // verus!
