//! Character-frequency statistics over the text files of a directory tree.
//!
//! The crate holds the decision and aggregation logic of the scan: which
//! paths are excluded, how one file's content is tallied, how per-file and
//! per-subtree results merge, and how the final ranked summary is shaped.
//! Directory listing, file reading and rendering are left to the caller,
//! which hands plain values in and takes plain values back.
pub mod args;
pub mod counts;
pub mod scanner;
pub mod skip;

pub use args::Args;
pub use counts::CharCounts;
pub use counts::CharFreq;
pub use counts::count_chars;
pub use scanner::DirScanData;
pub use scanner::FinalOutput;
pub use scanner::ScanTaskResult;
pub use scanner::file_error_entry;
pub use scanner::merge_task_results;
pub use scanner::root_missing_error;
pub use scanner::summarize;
pub use skip::should_skip_file;
