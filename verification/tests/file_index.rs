use spotlauncher::file_index::{parse_locate_output, AppFile, FileIndex};

fn paths(v: &[AppFile]) -> Vec<String> {
    v.iter().map(|f| f.path.clone()).collect()
}

fn names(v: &[AppFile]) -> Vec<String> {
    v.iter().map(|f| f.name.clone()).collect()
}

#[test]
fn file_name_is_the_last_component() {
    let f = AppFile::from_path_str("/home/user/report.pdf");
    assert_eq!(f.path, "/home/user/report.pdf");
    assert_eq!(f.name, "report.pdf");
    assert_eq!(AppFile::from_path_str("/usr/bin/").name, "bin");
    assert_eq!(AppFile::from_path_str("notes.txt").name, "notes.txt");
}

#[test]
fn paths_without_a_file_name_show_the_path() {
    assert_eq!(AppFile::from_path_str("/").name, "/");
    assert_eq!(AppFile::from_path_str("a/..").name, "a/..");
    assert_eq!(AppFile::from_path_str("").name, "");
}

#[test]
fn output_is_read_one_path_per_line() {
    let r = parse_locate_output(b"/a/one\n/b/two\n");
    assert_eq!(paths(&r), vec!["/a/one", "/b/two"]);
    assert_eq!(names(&r), vec!["one", "two"]);
}

#[test]
fn lines_follow_str_lines() {
    let text = "foo\r\nbar\n\nbaz\r";
    let r = parse_locate_output(text.as_bytes());
    let expected: Vec<String> = text.lines().map(|l| l.to_string()).collect();
    assert_eq!(paths(&r), expected);
    assert_eq!(paths(&r), vec!["foo", "bar", "", "baz\r"]);
    assert!(parse_locate_output(b"").is_empty());
    assert_eq!(paths(&parse_locate_output(b"\n")), vec![""]);
    assert_eq!(paths(&parse_locate_output(b"last")), vec!["last"]);
}

#[test]
fn invalid_bytes_become_replacement_characters() {
    let r = parse_locate_output(b"/tmp/a\xffb\n/tmp/\xc3\xa9t\xc3\xa9");
    assert_eq!(paths(&r), vec!["/tmp/a\u{FFFD}b", "/tmp/été"]);
    assert_eq!(names(&r), vec!["a\u{FFFD}b", "été"]);
}

#[test]
fn empty_query_finds_no_files() {
    let index = FileIndex::new();
    assert!(index.search("", b"/x\n").is_empty());
    assert_eq!(paths(&index.search("x", b"/x\n/y/x\n")), vec!["/x", "/y/x"]);
}

#[test]
fn locate_args_ask_for_ten_results() {
    let index = FileIndex::new();
    assert_eq!(index.locate_args(""), None);
    assert_eq!(
        index.locate_args("report"),
        Some(vec!["--limit".to_string(), "10".to_string(), "report".to_string()])
    );
}

#[test]
fn duplicate_copies_both_fields() {
    let f = AppFile::from_path_str("/x/y");
    let d = f.duplicate();
    assert_eq!(d.path, "/x/y");
    assert_eq!(d.name, "y");
}

#[test]
fn path_label_is_the_trimmed_path() {
    assert_eq!(AppFile::from_path_str(" /tmp/x ").path_label(), "/tmp/x");
    assert_eq!(AppFile::from_path_str("/tmp/x").path_label(), "/tmp/x");
}

#[test]
fn plain_names_at_the_end_of_a_path_are_the_file_name() {
    assert_eq!(AppFile::from_path_str("a.b").name, "a.b");
    assert_eq!(AppFile::from_path_str("./x/y z").name, "y z");
    assert_eq!(AppFile::from_path_str("/x//y").name, "y");
    assert_eq!(AppFile::from_path_str("x/.").name, "x");
}
