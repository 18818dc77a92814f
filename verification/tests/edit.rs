use zhang::edit::{insert_line, lines_of, replace_lines};

fn lines(text: &str) -> Vec<String> {
    lines_of(text).into_iter().map(|l| l.into_iter().collect()).collect()
}

#[test]
fn lines_split_at_line_feeds() {
    assert_eq!(lines("a\r\nb\n\nc"), vec!["a", "b", "", "c"]);
    assert_eq!(lines("a\nb\n"), vec!["a", "b"]);
    assert_eq!(lines(""), Vec::<String>::new());
    assert_eq!(lines("a\r"), vec!["a\r"]);
}

#[test]
fn replace_lines_puts_content_in_place_of_the_range() {
    let text = "one\ntwo\nthree\nfour\n";
    assert_eq!(replace_lines(text, "TWO", 2, 3).unwrap(), "one\nTWO\nfour");
    assert_eq!(replace_lines(text, "ONE", 1, 1).unwrap(), "ONE\ntwo\nthree\nfour");
    assert_eq!(replace_lines(text, "END", 5, 5).unwrap(), "one\ntwo\nthree\nfour\nEND");
}

#[test]
fn replace_lines_refuses_what_cannot_be_placed() {
    let text = "one\ntwo\n";
    assert_eq!(replace_lines(text, "x", 0, 1), None);
    assert_eq!(replace_lines(text, "x", 1, 0), None);
    assert_eq!(replace_lines(text, "x", 4, 4), None);
    assert_eq!(replace_lines(text, "x", 3, 0).unwrap(), "one\ntwo\nx");
}

#[test]
fn insert_line_puts_content_before_the_line() {
    let text = "one\ntwo\n";
    assert_eq!(insert_line(text, "zero", 0), "zero\none\ntwo");
    assert_eq!(insert_line(text, "mid", 1), "one\nmid\ntwo");
    assert_eq!(insert_line(text, "last", 9), "one\ntwo\nlast");
    assert_eq!(insert_line("", "only", 0), "only");
}
