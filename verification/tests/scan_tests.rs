use charfreq::CharCounts;
use charfreq::ScanTaskResult;
use charfreq::count_chars;
use charfreq::file_error_entry;
use charfreq::merge_task_results;
use charfreq::root_missing_error;
use charfreq::summarize;

#[test]
fn empty_directory_yields_empty_summary() {
    let merged = merge_task_results(&Vec::new()).unwrap();
    assert_eq!(merged.files_processed, 0);
    assert_eq!(merged.char_count.total(), 0);
    assert!(merged.error_files.is_empty());
    let output = summarize(merged);
    assert_eq!(output.total_chars, 0);
    assert_eq!(output.files_processed, 0);
    assert!(output.char_frequencies.is_empty());
    assert!(output.error_files.is_empty());
}

#[test]
fn single_file_summary_ranks_frequencies() {
    let tasks = vec![ScanTaskResult::FileScanned(count_chars("aab"))];
    let merged = merge_task_results(&tasks).unwrap();
    let output = summarize(merged);
    assert_eq!(output.total_chars, 3);
    assert_eq!(output.files_processed, 1);
    assert!(output.error_files.is_empty());
    assert_eq!(output.char_frequencies.len(), 2);
    assert_eq!(output.char_frequencies[0].character, 'a');
    assert_eq!(output.char_frequencies[0].count, 2);
    assert_eq!(output.char_frequencies[1].character, 'b');
    assert_eq!(output.char_frequencies[1].count, 1);
}

#[test]
fn unreadable_file_is_recorded_once_and_scan_goes_on() {
    let entry = file_error_entry("/repo/locked.rs", "permission denied");
    assert_eq!(entry, "/repo/locked.rs: permission denied");
    let tasks = vec![
        ScanTaskResult::FileScanned(count_chars("xy")),
        ScanTaskResult::FileError(entry),
    ];
    let merged = merge_task_results(&tasks).unwrap();
    assert_eq!(merged.files_processed, 1);
    assert_eq!(merged.char_count.total(), 2);
    assert_eq!(merged.error_files.len(), 1);
    assert_eq!(merged.error_files[0], "/repo/locked.rs: permission denied");
}

#[test]
fn merging_two_files_sums_counts_keywise() {
    let tasks = vec![
        ScanTaskResult::FileScanned(count_chars("aa")),
        ScanTaskResult::FileScanned(count_chars("ab")),
    ];
    let merged = merge_task_results(&tasks).unwrap();
    assert_eq!(merged.files_processed, 2);
    assert_eq!(merged.char_count.total(), 4);
    assert_eq!(merged.char_count.get('a'), 3);
    assert_eq!(merged.char_count.get('b'), 1);
}

#[test]
fn split_scan_equals_whole_scan() {
    let left = vec![ScanTaskResult::FileScanned(count_chars("aa"))];
    let right = vec![ScanTaskResult::FileScanned(count_chars("ab"))];
    let whole = vec![
        ScanTaskResult::FileScanned(count_chars("aa")),
        ScanTaskResult::FileScanned(count_chars("ab")),
    ];
    let ml = merge_task_results(&left).unwrap();
    let mr = merge_task_results(&right).unwrap();
    let mw = merge_task_results(&whole).unwrap();
    assert_eq!(
        mw.char_count.total(),
        ml.char_count.total() + mr.char_count.total()
    );
    assert_eq!(
        mw.char_count.get('a'),
        ml.char_count.get('a') + mr.char_count.get('a')
    );
    assert_eq!(
        mw.char_count.get('b'),
        ml.char_count.get('b') + mr.char_count.get('b')
    );
    assert_eq!(mw.files_processed, ml.files_processed + mr.files_processed);
}

#[test]
fn merge_does_not_depend_on_collection_order() {
    let forward = vec![
        ScanTaskResult::FileScanned(count_chars("abc")),
        ScanTaskResult::FileScanned(count_chars("cd")),
    ];
    let backward = vec![
        ScanTaskResult::FileScanned(count_chars("cd")),
        ScanTaskResult::FileScanned(count_chars("abc")),
    ];
    let mf = merge_task_results(&forward).unwrap();
    let mb = merge_task_results(&backward).unwrap();
    assert_eq!(mf.char_count.total(), mb.char_count.total());
    assert_eq!(mf.files_processed, mb.files_processed);
    for c in ['a', 'b', 'c', 'd', 'e'] {
        assert_eq!(mf.char_count.get(c), mb.char_count.get(c));
    }
}

#[test]
fn subtree_results_merge_into_parent() {
    let child_tasks = vec![
        ScanTaskResult::FileScanned(count_chars("aa")),
        ScanTaskResult::FileError(file_error_entry("/r/sub/bad", "io error")),
    ];
    let child = merge_task_results(&child_tasks).unwrap();
    let parent_tasks = vec![
        ScanTaskResult::FileScanned(count_chars("b")),
        ScanTaskResult::DirScanned(child),
    ];
    let parent = merge_task_results(&parent_tasks).unwrap();
    assert_eq!(parent.files_processed, 2);
    assert_eq!(parent.char_count.total(), 3);
    assert_eq!(parent.char_count.get('a'), 2);
    assert_eq!(parent.char_count.get('b'), 1);
    assert_eq!(parent.error_files, vec!["/r/sub/bad: io error"]);
}

#[test]
fn ranking_is_descending_with_ties_adjacent() {
    let tasks = vec![ScanTaskResult::FileScanned(count_chars("aabbc"))];
    let merged = merge_task_results(&tasks).unwrap();
    let output = summarize(merged);
    assert_eq!(output.total_chars, 5);
    let counts: Vec<u64> =
        output.char_frequencies.iter().map(|f| f.count).collect();
    assert_eq!(counts, vec![2, 2, 1]);
    let mut top_two: Vec<char> = output.char_frequencies[..2]
        .iter()
        .map(|f| f.character)
        .collect();
    top_two.sort();
    assert_eq!(top_two, vec!['a', 'b']);
    assert_eq!(output.char_frequencies[2].character, 'c');
}

#[test]
fn missing_root_message_names_the_path() {
    assert_eq!(
        root_missing_error("/does/not/exist"),
        "Path '/does/not/exist' does not exist"
    );
}

#[test]
fn counts_can_be_built_incrementally() {
    let counts = CharCounts::new().add('x', 2).add('y', 1).add('x', 3);
    assert_eq!(counts.get('x'), 5);
    assert_eq!(counts.get('y'), 1);
    assert_eq!(counts.total(), 6);
}

#[test]
fn merge_reports_character_total_overflow() {
    let big = CharCounts::new().add('a', u64::MAX);
    let more = CharCounts::new().add('b', 1);
    let tasks = vec![
        ScanTaskResult::FileScanned(big),
        ScanTaskResult::FileScanned(more),
    ];
    assert!(merge_task_results(&tasks).is_none());
}

#[test]
fn merge_reports_file_count_overflow() {
    let child = charfreq::DirScanData {
        char_count: CharCounts::new(),
        files_processed: u64::MAX,
        error_files: Vec::new(),
    };
    let tasks = vec![
        ScanTaskResult::DirScanned(child),
        ScanTaskResult::FileScanned(count_chars("x")),
    ];
    assert!(merge_task_results(&tasks).is_none());
}
