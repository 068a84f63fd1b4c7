use scanner::Scanner;

#[test]
fn emtpy() {
    let scanner = Scanner::new("");

    assert!(scanner.is_done())
}

#[test]
fn not_done() {
    let mut scanner = Scanner::new("abc");

    scanner.pop();

    assert_eq!(scanner.is_done(), false)
}

#[test]
fn scanner_done() {
    let mut scanner = Scanner::new("abc");

    scanner.pop();
    scanner.pop();
    scanner.pop();

    assert!(scanner.is_done())
}
