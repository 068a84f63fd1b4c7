use scanner::Scanner;

#[test]
fn pop_empty() {
    let mut scanner = Scanner::new("");

    assert_eq!(scanner.pop(), None);
    assert_eq!(scanner.cursor(), 0)
}

#[test]
fn pop_not_done() {
    let mut scanner = Scanner::new("abc");

    assert_eq!(scanner.pop(), Some('a'));
    assert_eq!(scanner.cursor(), 1)
}

#[test]
fn pop_done() {
    let mut scanner = Scanner::new("abc");

    scanner.pop();
    scanner.pop();
    scanner.pop();

    assert_eq!(scanner.pop(), None);
    assert_eq!(scanner.cursor(), 3)
}
