use rotor::file::{contains_line, contains_lines};
use rotor::text::{split_lines, trim_chars};

fn chars(s: &str) -> Vec<char> {
    s.chars().collect()
}

fn text(v: &[char]) -> String {
    v.iter().collect()
}

#[test]
fn split_lines_as_str_lines() {
    for s in ["", "a", "a\n", "a\nb", "a\r\nb\r\n", "\n\n", "x=1\ny=2", "a\r", "a\r\nb\r", "a\r\r\n"] {
        let got: Vec<String> = split_lines(&chars(s)).iter().map(|l| text(l)).collect();
        let want: Vec<String> = s.lines().map(|l| l.to_string()).collect();
        assert_eq!(want, got, "for {:?}", s);
    }
}

#[test]
fn trim_as_str_trim() {
    for s in ["", "  ", " a b ", "\tkey\u{3000}", "x"] {
        assert_eq!(s.trim(), text(&trim_chars(&chars(s))));
    }
}

#[test]
fn union_appends_only_missing_lines() {
    let p = rotor::file::file("f").contains_lines(&["y=2", "z=3"]);
    let content = chars("x=1\ny=2");
    assert!(!p.check_content(&content));
    let added = p.appended_text(&content);
    assert_eq!("\nz=3\n", text(&added));
    let mut after = content.clone();
    after.extend(added);
    assert_eq!("x=1\ny=2\nz=3\n", text(&after));
    let lines: Vec<String> = split_lines(&after).iter().map(|l| text(l)).collect();
    assert_eq!(vec!["x=1", "y=2", "z=3"], lines);
    assert!(p.check_content(&after));
}

#[test]
fn union_on_missing_file_adds_all() {
    let p = contains_lines("f", &["a", "b"]);
    let added = p.appended_text(&[]);
    assert_eq!("\na\nb\n", text(&added));
    assert!(p.check_content(&added));
}

#[test]
fn union_with_nothing_missing_adds_nothing() {
    let p = contains_line("f", "a");
    let content = chars("a\n");
    assert!(p.check_content(&content));
    assert_eq!("", text(&p.appended_text(&content)));
}

#[test]
fn union_applied_twice_same_as_once() {
    let p = contains_lines("f", &["y=2", "z=3"]);
    let mut once = chars("x=1\ny=2");
    once.extend(p.appended_text(&once));
    let mut twice = once.clone();
    twice.extend(p.appended_text(&once));
    assert_eq!(text(&once), text(&twice));
}

#[test]
fn union_missing_keeps_required_order() {
    let p = rotor::file::file("f").contains_lines(&["c", "a", "b"]);
    let m: Vec<String> = p.missing(&chars("a")).iter().map(|l| text(l)).collect();
    assert_eq!(vec!["c", "b"], m);
}

#[test]
fn contains_line_of_managed_file() {
    let p = rotor::file::file(".bashrc").contains_line("alias l='ls -CF'");
    assert!(p.check_content(&chars("x\nalias l='ls -CF'\r\n")));
    assert!(!p.check_content(&chars("alias l='ls -CF' ")));
}
