use charfreq::count_chars;

#[test]
fn counts_simple_ascii_content() {
    let counts = count_chars("aab");
    assert_eq!(counts.get('a'), 2);
    assert_eq!(counts.get('b'), 1);
    assert_eq!(counts.get('c'), 0);
    assert_eq!(counts.total(), 3);
}

#[test]
fn counts_empty_content() {
    let counts = count_chars("");
    assert_eq!(counts.total(), 0);
    assert_eq!(counts.get('a'), 0);
    assert_eq!(counts.get('\0'), 0);
}

#[test]
fn counts_ascii_with_whitespace() {
    let counts = count_chars("hello world\n");
    assert_eq!(counts.get('l'), 3);
    assert_eq!(counts.get('o'), 2);
    assert_eq!(counts.get(' '), 1);
    assert_eq!(counts.get('\n'), 1);
    assert_eq!(counts.get('h'), 1);
    assert_eq!(counts.total(), 12);
}

#[test]
fn counts_non_ascii_content() {
    let counts = count_chars("h\u{e9}\u{e9}");
    assert_eq!(counts.get('\u{e9}'), 2);
    assert_eq!(counts.get('h'), 1);
    assert_eq!(counts.total(), 3);
}

#[test]
fn counts_mixed_ascii_and_unicode() {
    let counts = count_chars("a\u{1F600}a\u{1F600}b");
    assert_eq!(counts.get('a'), 2);
    assert_eq!(counts.get('b'), 1);
    assert_eq!(counts.get('\u{1F600}'), 2);
    assert_eq!(counts.total(), 5);
}

#[test]
fn ascii_and_general_paths_agree() {
    let ascii = count_chars("mississippi");
    assert_eq!(ascii.get('s'), 4);
    assert_eq!(ascii.get('i'), 4);
    assert_eq!(ascii.get('p'), 2);
    assert_eq!(ascii.get('m'), 1);
    assert_eq!(ascii.total(), 11);
    let with_unicode = count_chars("mississippi\u{e9}");
    assert_eq!(with_unicode.get('s'), 4);
    assert_eq!(with_unicode.get('i'), 4);
    assert_eq!(with_unicode.get('p'), 2);
    assert_eq!(with_unicode.get('m'), 1);
    assert_eq!(with_unicode.get('\u{e9}'), 1);
    assert_eq!(with_unicode.total(), 12);
}

#[test]
fn every_ascii_byte_is_counted() {
    let counts = count_chars("\x00\x01\x7f\x00");
    assert_eq!(counts.get('\x00'), 2);
    assert_eq!(counts.get('\x01'), 1);
    assert_eq!(counts.get('\x7f'), 1);
    assert_eq!(counts.total(), 4);
}
