use rotor::conf_file::{classic_syntax, conf_file, line_key_value, with_syntax};

fn chars(s: &str) -> Vec<char> {
    s.chars().collect()
}

fn text(v: &[char]) -> String {
    v.iter().collect()
}

#[test]
fn parse_line_cases() {
    let kv = |s: &str| {
        line_key_value(&chars(s), '#', '=').map(|(k, v)| (text(&k), text(&v)))
    };
    assert_eq!(Some(("a".to_string(), "b".to_string())), kv("  a = b  # note"));
    assert_eq!(Some(("a".to_string(), "b=c".to_string())), kv("a=b=c"));
    assert_eq!(None, kv("# a = b"));
    assert_eq!(None, kv("plain line"));
    assert_eq!(Some(("".to_string(), "".to_string())), kv("="));
}

#[test]
fn replace_in_place() {
    let c = classic_syntax(".config/user-dirs.conf").value_set(("enabled", "False"));
    let content = chars("enabled=True\n# comment\nother=x\n");
    assert!(!c.check_content(&content));
    let out = c.apply_content(&content);
    assert_eq!("enabled=False\n# comment\nother=x\n", text(&out));
    assert!(c.check_content(&out));
}

#[test]
fn missing_keys_appended_in_order() {
    let c = with_syntax("f", ';', ':').values_set(vec![("b", "2"), ("a", "1")]);
    let content = chars("; header\nx: y");
    let out = c.apply_content(&content);
    assert_eq!("; header\nx: y\nb:2\na:1\n", text(&out));
    assert!(c.check_content(&out));
}

#[test]
fn later_value_of_a_key_wins() {
    let c = conf_file("f", '#', '=').values_set(vec![("k", "1"), ("k", "2")]);
    assert!(c.check_content(&chars("k = 2")));
    assert!(!c.check_content(&chars("k = 1")));
    assert_eq!("k=2\n", text(&c.apply_content(&chars("k=1"))));
}

#[test]
fn check_fails_on_any_conflicting_line() {
    let c = classic_syntax("f").value_set(("k", "v"));
    assert!(!c.check_content(&chars("k=v\nk=w\n")));
    assert!(!c.check_content(&chars("other=1\n")));
    assert!(c.check_content(&chars("  k =  v # fine\n")));
}

#[test]
fn unchanged_lines_kept_verbatim() {
    let c = classic_syntax("f").value_set(("k", "v"));
    let out = c.apply_content(&chars("  k =  v # fine\r\nz"));
    assert_eq!("  k =  v # fine\nz\n", text(&out));
}

#[test]
fn writing_back_twice_changes_nothing_more() {
    let c = classic_syntax("f").values_set(vec![("enabled", "False"), ("new", "1")]);
    let once = c.apply_content(&chars("enabled=True\n# comment\nother=x"));
    assert_eq!("enabled=False\n# comment\nother=x\nnew=1\n", text(&once));
    let twice = c.apply_content(&once);
    assert_eq!(text(&once), text(&twice));
    assert!(c.check_content(&once));
}
