use mk::makefile::reader::{LogicalLine, Reader};

fn lines(src: &str) -> Vec<String> {
    Reader::new(src).collect().into_iter().map(|l| l.text).collect()
}

#[test]
fn simple_lines() {
    let src = "foo\nbar\nbaz\n";
    assert_eq!(lines(src), vec!["foo", "bar", "baz"]);
}

#[test]
fn continuation() {
    let src = "foo \\\nbar\nbaz\n";
    assert_eq!(lines(src), vec!["foo bar", "baz"]);
}

#[test]
fn three_way_continuation() {
    let src = "a \\\nb \\\nc\n";
    assert_eq!(lines(src), vec!["a b c"]);
}

#[test]
fn inline_comment() {
    let src = "CC = gcc # the C compiler\n";
    assert_eq!(lines(src), vec!["CC = gcc "]);
}

#[test]
fn escaped_hash_not_a_comment() {
    let src = "X = a\\#b\n";
    assert_eq!(lines(src), vec!["X = a\\#b"]);
}

#[test]
fn no_trailing_newline() {
    let src = "foo";
    assert_eq!(lines(src), vec!["foo"]);
}

#[test]
fn empty_source() {
    let src = "";
    assert!(lines(src).is_empty());
}

#[test]
fn blank_lines_preserved() {
    let src = "a\n\nb\n";
    let got = lines(src);
    assert_eq!(got, vec!["a", "", "b"]);
}

#[test]
fn line_numbers() {
    let src = "a\nb\\\nc\nd\n";
    let lls: Vec<LogicalLine> = Reader::new(src).collect();
    assert_eq!(lls[0].line, 1); // "a"
    assert_eq!(lls[1].line, 2); // "b c" (joined)
    assert_eq!(lls[2].line, 4); // "d"
}

#[test]
fn one_by_one() {
    let mut r = Reader::new("x # c\ny\\\n");
    assert_eq!(r.next().unwrap().text, "x ");
    let l = r.next().unwrap();
    assert_eq!(l.text, "y ");
    assert_eq!(l.line, 2);
    assert!(r.next().is_none());
    assert!(r.next().is_none());
}
