use charfreq::Args;
use charfreq::should_skip_file;

fn args_with(ignore_filetypes: Vec<String>, ignore_dirs: Vec<String>) -> Args {
    Args {
        repo_path: String::new(),
        top: 20,
        show_spaces: false,
        exclude_letters: false,
        save_csv: false,
        verbose: false,
        ignore_filetypes,
        ignore_dirs,
    }
}

fn default_args() -> Args {
    args_with(Vec::new(), Vec::new())
}

#[test]
fn default_extension_is_skipped() {
    let args = default_args();
    assert!(should_skip_file("src/photo.png", &args));
    assert!(should_skip_file("notes.txt", &args));
    assert!(should_skip_file("archive.tar.gz", &args));
    assert!(should_skip_file("deep/a/b/c/model.h5", &args));
}

#[test]
fn extension_comparison_ignores_ascii_case() {
    let args = default_args();
    assert!(should_skip_file("a/b/IMAGE.PNG", &args));
    assert!(should_skip_file("cache.PyC", &args));
}

#[test]
fn source_files_are_not_skipped() {
    let args = default_args();
    assert!(!should_skip_file("src/main.rs", &args));
    assert!(!should_skip_file("README.md", &args));
    assert!(!should_skip_file("Makefile", &args));
}

#[test]
fn hidden_file_has_no_extension() {
    let args = default_args();
    assert!(!should_skip_file(".gitignore", &args));
}

#[test]
fn user_extension_with_or_without_dot() {
    let with_dot = args_with(vec![String::from(".rs")], Vec::new());
    assert!(should_skip_file("src/main.rs", &with_dot));
    let without_dot = args_with(vec![String::from("rs")], Vec::new());
    assert!(should_skip_file("src/main.rs", &without_dot));
    let upper = args_with(vec![String::from("RS")], Vec::new());
    assert!(should_skip_file("src/main.rs", &upper));
}

#[test]
fn default_directory_is_skipped_at_any_depth() {
    let args = default_args();
    assert!(should_skip_file("x/node_modules/y/z/file.weird", &args));
    assert!(should_skip_file("repo/.git/config", &args));
    assert!(should_skip_file("a/b/c/target/debug/thing", &args));
    assert!(should_skip_file("node_modules/", &args));
}

#[test]
fn user_directory_is_skipped_at_any_depth() {
    let args = args_with(Vec::new(), vec![String::from("secret")]);
    assert!(should_skip_file("a/secret/b.rs", &args));
    assert!(should_skip_file("secret/x", &args));
    assert!(!should_skip_file("a/secrets/b.rs", &args));
}

#[test]
fn user_directory_match_is_exact() {
    let args = args_with(Vec::new(), vec![String::from("Docs")]);
    assert!(should_skip_file("x/Docs/y.rs", &args));
    assert!(!should_skip_file("x/docs/y.rs", &args));
}
