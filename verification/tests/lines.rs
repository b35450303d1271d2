use kymenu::input::{InputItems, RawValue};
use kymenu::path::{is_executable, path_dirs};

fn lines(text: &str) -> Vec<String> {
    InputItems::from_lines(text)
        .0
        .iter()
        .map(|i| i.display().to_string())
        .collect()
}

#[test]
fn lines_split_on_line_feeds() {
    assert_eq!(lines("a\nb\r\nc"), vec!["a", "b", "c"]);
}

#[test]
fn final_line_ending_adds_no_line() {
    assert_eq!(lines("x\ny\n"), vec!["x", "y"]);
    assert_eq!(lines(""), Vec::<String>::new());
}

#[test]
fn empty_lines_are_kept() {
    assert_eq!(lines("\n\n"), vec!["", ""]);
    assert_eq!(lines("a\n\nb"), vec!["a", "", "b"]);
}

#[test]
fn lone_carriage_return_at_the_end_stays() {
    assert_eq!(lines("a\r"), vec!["a\r"]);
    assert_eq!(lines("a\r\n"), vec!["a"]);
}

#[test]
fn lines_match_str_lines() {
    let text = "één\r\ntwee\n\ndrie\r\n€\n";
    let expected: Vec<String> = text.lines().map(|l| l.to_string()).collect();
    assert_eq!(lines(text), expected);
}

#[test]
fn each_line_hands_back_itself() {
    let items = InputItems::from_lines("foo\nbar");
    for item in &items.0 {
        match item.raw() {
            RawValue::Text(s) => assert_eq!(s, item.display()),
            RawValue::Json(_) => panic!("expected text"),
        }
    }
}

#[test]
fn path_splits_on_colons() {
    assert_eq!(path_dirs("/bin:/usr/bin"), vec!["/bin", "/usr/bin"]);
    assert_eq!(path_dirs(""), vec![""]);
    assert_eq!(path_dirs(":a:"), vec!["", "a", ""]);
    let p = "/opt/é:/x";
    let expected: Vec<String> = p.split(':').map(|s| s.to_string()).collect();
    assert_eq!(path_dirs(p), expected);
}

#[test]
fn executable_bits() {
    assert!(is_executable(0o755));
    assert!(is_executable(0o100));
    assert!(is_executable(0o010));
    assert!(is_executable(0o001));
    assert!(!is_executable(0o644));
    assert!(!is_executable(0o4666));
}
