use scanner::Scanner;

#[test]
fn scanner_empty() {
    let scanner = Scanner::new("");

    assert_eq!(scanner.peek(), None)
}

#[test]
fn scanner_not_done() {
    let mut scanner = Scanner::new("abc");

    scanner.pop();

    assert_eq!(scanner.peek(), Some('b'))
}
