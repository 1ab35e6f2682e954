use microc_lexer::scanner::{Scanner, TScanner};

fn scanner(input: &'static [u8]) -> Scanner {
    Scanner::new(input.to_vec())
}

#[test]
fn scanner_empty_input_returns_none() {
    let mut scanner = scanner(b"");

    assert_eq!(scanner.peek_next(), None);
    assert_eq!(scanner.get_next().unwrap(), None);
}

#[test]
fn scanner_peek_does_not_consume_byte() {
    let scanner = scanner(b"abc");

    assert_eq!(scanner.peek_next(), Some(b'a'));
    assert_eq!(scanner.peek_next(), Some(b'a'));
    assert_eq!(scanner.peek_next(), Some(b'a'));
}

#[test]
fn scanner_get_next_consumes_current_byte() {
    let mut scanner = scanner(b"abc");

    assert_eq!(scanner.get_next().unwrap(), Some(b'a'));
    assert_eq!(scanner.peek_next(), Some(b'b'));

    assert_eq!(scanner.get_next().unwrap(), Some(b'b'));
    assert_eq!(scanner.peek_next(), Some(b'c'));

    assert_eq!(scanner.get_next().unwrap(), Some(b'c'));
    assert_eq!(scanner.peek_next(), None);
}

#[test]
fn scanner_get_next_returns_none_after_eof() {
    let mut scanner = scanner(b"a");

    assert_eq!(scanner.get_next().unwrap(), Some(b'a'));
    assert_eq!(scanner.get_next().unwrap(), None);
    assert_eq!(scanner.get_next().unwrap(), None);
}

#[test]
fn scanner_peek_after_consuming_byte_returns_next_byte() {
    let mut scanner = scanner(b"ab");

    assert_eq!(scanner.peek_next(), Some(b'a'));

    scanner.get_next().unwrap();

    assert_eq!(scanner.peek_next(), Some(b'b'));
}

#[test]
fn scanner_line_starts_at_one() {
    let scanner = scanner(b"abc");

    assert_eq!(scanner.get_line(), 1);
}

#[test]
fn scanner_consuming_newline_increments_line() {
    let mut scanner = scanner(b"a\nb");

    assert_eq!(scanner.get_line(), 1);

    assert_eq!(scanner.get_next().unwrap(), Some(b'a'));
    assert_eq!(scanner.get_line(), 1);

    assert_eq!(scanner.get_next().unwrap(), Some(b'\n'));
    assert_eq!(scanner.get_line(), 2);

    assert_eq!(scanner.peek_next(), Some(b'b'));
}

#[test]
fn scanner_multiple_newlines_increment_line_correctly() {
    let mut scanner = scanner(b"\n\n\n");

    assert_eq!(scanner.get_line(), 1);

    scanner.get_next().unwrap();
    assert_eq!(scanner.get_line(), 2);

    scanner.get_next().unwrap();
    assert_eq!(scanner.get_line(), 3);

    scanner.get_next().unwrap();
    assert_eq!(scanner.get_line(), 4);
}

#[test]
fn scanner_peek_does_not_increment_line_on_newline() {
    let scanner = scanner(b"\n");

    assert_eq!(scanner.peek_next(), Some(b'\n'));
    assert_eq!(scanner.get_line(), 1);

    assert_eq!(scanner.peek_next(), Some(b'\n'));
    assert_eq!(scanner.get_line(), 1);
}

#[test]
fn scanner_preserves_byte_sequence() {
    let input = b"hello\nmicro c";
    let mut scanner = scanner(input);
    let mut output = Vec::new();

    while let Some(byte) = scanner.get_next().unwrap() {
        output.push(byte);
    }

    assert_eq!(output, input);
}

#[test]
fn scanner_get_line_after_scanning_line_break() {
    let mut scanner = scanner(b"hello\nmicro c");
    let mut c = None;
    while c != Some(b'\n') {
        c = scanner.get_next().unwrap();
    }

    assert_eq!(scanner.get_line(), 2);
}

#[test]
fn scanner_get_line_before_scanning_line_break() {
    let mut scanner = scanner(b"hello\nmicro c");
    let mut c = None;
    while c != Some(b'o') {
        c = scanner.get_next().unwrap();
    }

    assert_eq!(scanner.get_line(), 1);
}

#[test]
fn scanner_column_starts_at_one() {
    let scanner = scanner(b"not important");

    assert_eq!(scanner.get_column(), 1);
}

#[test]
fn scanner_consuming_byte_increments_column() {
    let mut scanner = scanner(b"ab");

    assert_eq!(scanner.get_column(), 1);

    assert_eq!(scanner.get_next().unwrap(), Some(b'a'));
    assert_eq!(scanner.get_column(), 2);

    assert_eq!(scanner.get_next().unwrap(), Some(b'b'));
    assert_eq!(scanner.get_column(), 3);
}

#[test]
fn scanner_peek_does_not_increment_column() {
    let scanner = scanner(b"a");

    assert_eq!(scanner.get_column(), 1);

    assert_eq!(scanner.peek_next(), Some(b'a'));
    assert_eq!(scanner.peek_next(), Some(b'a'));

    assert_eq!(scanner.get_column(), 1);
}

#[test]
fn scanner_newline_resets_column() {
    let mut scanner = scanner(b"a\na");

    assert_eq!(scanner.get_next().unwrap(), Some(b'a'));
    assert_eq!(scanner.get_column(), 2);

    assert_eq!(scanner.get_next().unwrap(), Some(b'\n'));

    assert_eq!(scanner.get_line(), 2);
    assert_eq!(scanner.get_column(), 1);
}

#[test]
fn scanner_columns_restart_after_newline() {
    let mut scanner = scanner(b"a\nb");

    assert_eq!(scanner.get_next().unwrap(), Some(b'a'));
    assert_eq!(scanner.get_next().unwrap(), Some(b'\n'));

    assert_eq!(scanner.get_line(), 2);
    assert_eq!(scanner.get_column(), 1);

    assert_eq!(scanner.get_next().unwrap(), Some(b'b'));
    assert_eq!(scanner.get_column(), 2);
}
