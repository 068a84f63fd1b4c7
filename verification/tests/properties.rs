use scanner::Action;
use scanner::Error;
use scanner::Scanner;

#[test]
fn cursor_never_decreases() {
    let mut scanner = Scanner::new("abc");
    let mut last = scanner.cursor();

    scanner.peek();
    assert!(scanner.cursor() >= last);
    last = scanner.cursor();

    scanner.take(&'x');
    assert!(scanner.cursor() >= last);
    last = scanner.cursor();

    scanner.pop();
    assert!(scanner.cursor() >= last);
    last = scanner.cursor();

    let _ = scanner.scan(|sequence| match sequence {
        "b" => Some(Action::Request(1)),
        _ => None,
    });
    assert!(scanner.cursor() >= last);
    last = scanner.cursor();

    scanner.transform(|_| Some(1));
    assert!(scanner.cursor() >= last);
    assert_eq!(scanner.cursor(), 3)
}

#[test]
fn is_done_tracks_cursor() {
    let mut scanner = Scanner::new("ab");

    assert_eq!(scanner.is_done(), scanner.cursor() == 2);
    scanner.pop();
    assert_eq!(scanner.is_done(), scanner.cursor() == 2);
    scanner.pop();
    assert!(scanner.is_done());
    assert_eq!(scanner.cursor(), 2)
}

#[test]
fn peek_is_idempotent() {
    let scanner = Scanner::new("abc");

    assert_eq!(scanner.peek(), Some('a'));
    assert_eq!(scanner.peek(), Some('a'));
    assert_eq!(scanner.peek(), Some('a'));
    assert_eq!(scanner.cursor(), 0)
}

#[test]
fn take_twice_unmatched_never_advances() {
    let mut scanner = Scanner::new("abc");

    assert_eq!(scanner.take(&'b'), false);
    assert_eq!(scanner.take(&'c'), false);
    assert_eq!(scanner.cursor(), 0)
}

#[test]
fn counts_characters_not_bytes() {
    let mut scanner = Scanner::new("déjà");

    assert_eq!(scanner.pop(), Some('d'));
    assert_eq!(scanner.pop(), Some('é'));
    assert_eq!(scanner.cursor(), 2);
    assert_eq!(scanner.peek(), Some('j'));
    assert_eq!(scanner.take(&'j'), true);
    assert_eq!(scanner.pop(), Some('à'));
    assert!(scanner.is_done());
    assert_eq!(scanner.cursor(), 4)
}

#[test]
fn transform_converts_digit() {
    let mut scanner = Scanner::new("7x");

    assert_eq!(scanner.transform(|c| c.to_digit(10)), Some(7));
    assert_eq!(scanner.cursor(), 1);
    assert_eq!(scanner.transform(|c| c.to_digit(10)), None);
    assert_eq!(scanner.cursor(), 1)
}

#[test]
fn scan_sees_growing_prefixes() {
    let mut scanner = Scanner::new("abc");

    assert_eq!(
        scanner.scan(|sequence| match sequence {
            "a" => Some(Action::Require),
            "ab" => Some(Action::Require),
            "abc" => Some(Action::Return(sequence.len())),
            _ => None,
        }),
        Ok(Some(3))
    );
    assert_eq!(scanner.cursor(), 3)
}

#[test]
fn scan_failure_reports_first_rejecting_offset() {
    let mut scanner = Scanner::new("a=b");

    scanner.pop();

    assert_eq!(
        scanner.scan(|sequence| match sequence {
            "=" => Some(Action::Require),
            _ => None,
        } as Option<Action<()>>),
        Err(Error::Character(2))
    );
    assert_eq!(scanner.cursor(), 2);
    assert_eq!(scanner.peek(), Some('b'))
}
