use activation_manager::text::{chars_of, decimal, join, lines, split, split_once};

fn strings(v: &[&str]) -> Vec<String> {
    v.iter().map(|s| s.to_string()).collect()
}

#[test]
fn join_puts_separator_between_parts() {
    assert_eq!(join(&strings(&["ls", "-l", "/tmp"]), " "), "ls -l /tmp");
    assert_eq!(join(&strings(&["org", "gnome", "desktop"]), "."), "org.gnome.desktop");
    assert_eq!(join(&strings(&["one"]), "."), "one");
    assert_eq!(join(&Vec::new(), "."), "");
}

#[test]
fn split_keeps_empty_pieces() {
    assert_eq!(split("a/b/c", '/'), strings(&["a", "b", "c"]));
    assert_eq!(split("", '/'), strings(&[""]));
    assert_eq!(split("/a/", '/'), strings(&["", "a", ""]));
    assert_eq!(split("a//b", '/'), strings(&["a", "", "b"]));
}

#[test]
fn split_then_join_gives_the_text_back() {
    for s in ["", "/", "a/b", "//x//", "/org/gnome/key"] {
        assert_eq!(join(&split(s, '/'), "/"), s);
    }
}

#[test]
fn lines_follow_str_lines() {
    for s in ["", "a", "a\n", "a\nb", "a\r\nb\r\n", "a\n\nb", "\n", "a\r", "x\ry\n"] {
        let expected: Vec<String> = s.lines().map(|l| l.to_string()).collect();
        assert_eq!(lines(s), expected, "lines of {:?}", s);
    }
}

#[test]
fn split_once_at_first_separator() {
    assert_eq!(split_once("org.gnome.desktop /org/gnome/desktop/", ' '),
        Some(("org.gnome.desktop".to_string(), "/org/gnome/desktop/".to_string())));
    assert_eq!(split_once("a b c", ' '), Some(("a".to_string(), "b c".to_string())));
    assert_eq!(split_once("nospace", ' '), None);
    assert_eq!(split_once(" lead", ' '), Some(("".to_string(), "lead".to_string())));
}

#[test]
fn decimal_matches_format() {
    for n in [0u64, 7, 10, 99, 100, 12345, u64::MAX] {
        assert_eq!(decimal(n), format!("{}", n));
    }
}

#[test]
fn chars_of_non_ascii() {
    assert_eq!(chars_of("a\u{21d2}b"), vec!['a', '\u{21d2}', 'b']);
}
