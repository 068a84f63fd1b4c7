use crate::action::Action;
use crate::error::Error;
use vstd::prelude::*;
use vstd::string::StrSliceExecFns;

verus! {

/// A tool for processing the characters in a string individually and
/// in groups with only one character of lookahead.
///
/// The scanner owns its character sequence exclusively; the cursor satisfies
/// `0 <= cursor <= characters.len()` at all times and only ever increases.
#[derive(Debug)]
pub struct Scanner {
    cursor: usize,
    characters: Vec<char>,
}

impl Scanner {
    /// The characters the scanner was built from, as a mathematical sequence.
    pub closed spec fn text(&self) -> Seq<char> {
        self.characters@
    }

    /// The current read position, as a mathematical integer.
    pub closed spec fn offset(&self) -> int {
        self.cursor as int
    }

    #[verifier::type_invariant]
    spec fn inv(self) -> bool {
        0 <= self.cursor <= self.characters@.len()
    }

    /// Builds a scanner over the characters (code points, not bytes) of
    /// `string`, with the cursor at the start.
    pub fn new(string: &str) -> (s: Self)
        ensures
            s.text() == string@,
            s.offset() == 0,
    {
        let n = string.unicode_len();
        let mut characters: Vec<char> = Vec::new();
        let mut i: usize = 0;
        while i < n
            invariant
                i <= n,
                n == string@.len(),
                characters@ == string@.subrange(0, i as int),
            decreases n - i,
        {
            characters.push(string.get_char(i));
            proof {
                assert(characters@ =~= string@.subrange(0, i + 1 as int));
            }
            i = i + 1;
        }
        proof {
            assert(characters@ =~= string@);
        }
        Self { cursor: 0, characters }
    }

    /// Returns the current cursor. Useful for reporting errors.
    pub fn cursor(&self) -> (c: usize)
        ensures
            c == self.offset(),
    {
        self.cursor
    }

    /// Returns the next character without advancing the cursor.
    /// AKA "lookahead".
    ///
    /// The result is a function of the scanner's state alone, and the state
    /// is not touched: any number of `peek` calls with no intervening
    /// mutating call return the same value.
    pub fn peek(&self) -> (r: Option<char>)
        ensures
            r == (if self.offset() < self.text().len() {
                Some(self.text()[self.offset()])
            } else {
                None::<char>
            }),
    {
        proof {
            use_type_invariant(&*self);
        }
        if self.cursor < self.characters.len() {
            Some(self.characters[self.cursor])
        } else {
            None
        }
    }

    /// Returns true if further progress is not possible: the cursor sits at
    /// the end of the character sequence.
    pub fn is_done(&self) -> (r: bool)
        ensures
            r == (self.offset() == self.text().len()),
    {
        proof {
            use_type_invariant(&*self);
        }
        self.cursor == self.characters.len()
    }

    /// Returns the next character (if available) and advances the cursor.
    pub fn pop(&mut self) -> (r: Option<char>)
        ensures
            final(self).text() == old(self).text(),
            old(self).offset() <= final(self).offset() <= final(self).text().len(),
            old(self).offset() == old(self).text().len() ==> {
                &&& r is None
                &&& final(self).offset() == old(self).offset()
            },
            old(self).offset() < old(self).text().len() ==> {
                &&& r == Some(old(self).text()[old(self).offset()])
                &&& final(self).offset() == old(self).offset() + 1
            },
    {
        proof {
            use_type_invariant(&*self);
        }
        if self.cursor < self.characters.len() {
            let c = self.characters[self.cursor];
            self.cursor = self.cursor + 1;
            Some(c)
        } else {
            None
        }
    }

    /// Returns true if the `target` is found at the current cursor position,
    /// and advances the cursor.
    /// Otherwise, returns false leaving the cursor unchanged.
    ///
    /// Comparison is plain character equality: no case-folding, no
    /// normalization.
    pub fn take(&mut self, target: &char) -> (r: bool)
        ensures
            final(self).text() == old(self).text(),
            r == take_matches(old(self).text(), old(self).offset(), *target),
            final(self).offset() == take_next(old(self).text(), old(self).offset(), *target),
            old(self).offset() <= final(self).offset() <= final(self).text().len(),
    {
        proof {
            use_type_invariant(&*self);
        }
        if self.cursor < self.characters.len() && self.characters[self.cursor] == *target {
            self.cursor = self.cursor + 1;
            true
        } else {
            false
        }
    }

    /// Iteratively directs the advancement of the cursor and the return
    /// of translated values.
    ///
    /// Each iteration appends the next input character to a growing prefix
    /// and asks `cb` for a decision on it: `Return` commits immediately,
    /// `Request` records a provisional value and keeps going, `Require`
    /// makes longer input mandatory and keeps going, and no decision stops
    /// the loop — failing at the current position if a `Require` was
    /// outstanding, and otherwise succeeding with the last provisional
    /// value, if any. Reaching the end of the input likewise fails exactly
    /// when a `Require` was outstanding.
    pub fn scan<T, F: Fn(&str) -> Option<Action<T>>>(&mut self, cb: F) -> (r: Result<
        Option<T>,
        Error,
    >)
        requires
            forall|s: &str|
                0 < s@.len() && is_prefix_from(old(self).text(), old(self).offset(), s@)
                    ==> #[trigger] call_requires(cb, (s,)),
        ensures
            final(self).text() == old(self).text(),
            old(self).offset() <= final(self).offset() <= final(self).text().len(),
            scan_outcome(cb, old(self).text(), old(self).offset(), r, final(self).offset()),
    {
        proof {
            use_type_invariant(&*self);
        }
        let ghost text = self.characters@;
        let ghost off = self.cursor as int;
        let mut sequence = String::new();
        let mut require = false;
        let mut request: Option<T> = None;
        let ghost mut ds: Seq<Action<T>> = Seq::empty();

        proof {
            assert(sequence@ =~= text.subrange(off, off));
        }

        loop
            invariant
                text == old(self).text(),
                off == old(self).offset(),
                self.characters@ == text,
                off + ds.len() == self.cursor as int,
                0 <= off <= self.cursor as int <= text.len(),
                sequence@ == text.subrange(off, self.cursor as int),
                continuing_trace(cb, text, off, ds),
                require == require_after(ds),
                request == pending_after(ds),
                forall|s: &str|
                    0 < s@.len() && is_prefix_from(text, off, s@) ==> #[trigger] call_requires(
                        cb,
                        (s,),
                    ),
            decreases text.len() - self.cursor,
        {
            if self.cursor < self.characters.len() {
                let target = self.characters[self.cursor];
                push_char(&mut sequence, target);
                proof {
                    assert(sequence@ =~= text.subrange(off, self.cursor + 1));
                    assert(is_prefix_from(text, off, sequence@));
                }
                let prefix = sequence.as_str();
                assert(call_requires(cb, (prefix,)));
                let d = cb(prefix);
                let ghost answer = d;
                assert(call_ensures(cb, (prefix,), answer));

                match d {
                    Some(Action::Return(result)) => {
                        proof {
                            assert(answer == Some(Action::Return(result)));
                            assert(classifier_answers(
                                cb,
                                text,
                                off,
                                ds.len() as int,
                                Some(Action::Return(result)),
                            ));
                            assert(scan_exit(
                                cb,
                                text,
                                off,
                                ds,
                                Ok::<Option<T>, Error>(Some(result)),
                                off + ds.len() + 1,
                            ));
                        }
                        self.cursor = self.cursor + 1;
                        return Ok(Some(result));
                    }
                    Some(Action::Request(result)) => {
                        self.cursor = self.cursor + 1;
                        require = false;
                        proof {
                            assert(answer == Some(Action::Request(result)));
                            assert(classifier_answers(
                                cb,
                                text,
                                off,
                                ds.len() as int,
                                Some(Action::Request(result)),
                            ));
                            let ds2 = ds.push(Action::Request(result));
                            assert(ds2.last() == Action::Request::<T>(result));
                            assert(forall|j: int|
                                0 <= j < ds.len() ==> ds2[j] == #[trigger] ds[j]);
                            assert(continuing_trace(cb, text, off, ds2));
                            assert(pending_after(ds2) == Some(result));
                            assert(!require_after(ds2));
                            ds = ds2;
                        }
                        request = Some(result);
                    }
                    Some(Action::Require) => {
                        self.cursor = self.cursor + 1;
                        require = true;
                        proof {
                            assert(answer == Some(Action::Require::<T>));
                            assert(classifier_answers(
                                cb,
                                text,
                                off,
                                ds.len() as int,
                                Some(Action::Require::<T>),
                            ));
                            let ds2 = ds.push(Action::Require);
                            assert(ds2.last() == Action::Require::<T>);
                            assert(ds2.drop_last() =~= ds);
                            assert(forall|j: int|
                                0 <= j < ds.len() ==> ds2[j] == #[trigger] ds[j]);
                            assert(continuing_trace(cb, text, off, ds2));
                            assert(pending_after(ds2) == pending_after(ds));
                            assert(require_after(ds2));
                            ds = ds2;
                        }
                    }
                    None => {
                        proof {
                            assert(answer == None::<Action<T>>);
                            assert(classifier_answers(
                                cb,
                                text,
                                off,
                                ds.len() as int,
                                None::<Action<T>>,
                            ));
                        }
                        if require {
                            proof {
                                assert(scan_exit(
                                    cb,
                                    text,
                                    off,
                                    ds,
                                    Err::<Option<T>, Error>(Error::Character(self.cursor)),
                                    off + ds.len(),
                                ));
                            }
                            return Err(Error::Character(self.cursor));
                        } else {
                            proof {
                                assert(scan_exit(
                                    cb,
                                    text,
                                    off,
                                    ds,
                                    Ok::<Option<T>, Error>(pending_after(ds)),
                                    off + ds.len(),
                                ));
                            }
                            return Ok(request);
                        }
                    }
                }
            } else {
                if require {
                    proof {
                        assert(scan_exit(
                            cb,
                            text,
                            off,
                            ds,
                            Err::<Option<T>, Error>(Error::EndOfLine),
                            off + ds.len(),
                        ));
                    }
                    return Err(Error::EndOfLine);
                } else {
                    proof {
                        assert(scan_exit(
                            cb,
                            text,
                            off,
                            ds,
                            Ok::<Option<T>, Error>(pending_after(ds)),
                            off + ds.len(),
                        ));
                    }
                    return Ok(request);
                }
            }
        }
    }

    /// Invoke `cb` once on the current character. If the result is not
    /// `None`, return it and advance the cursor. Otherwise, return `None`
    /// and leave the cursor unchanged. At the end of the input, `cb` is not
    /// invoked and the cursor stays put.
    pub fn transform<T, F: FnOnce(&char) -> Option<T>>(&mut self, cb: F) -> (r: Option<T>)
        requires
            old(self).offset() < old(self).text().len() ==> call_requires(
                cb,
                (&old(self).text()[old(self).offset()],),
            ),
        ensures
            final(self).text() == old(self).text(),
            old(self).offset() <= final(self).offset() <= final(self).text().len(),
            old(self).offset() == old(self).text().len() ==> {
                &&& r is None
                &&& final(self).offset() == old(self).offset()
            },
            old(self).offset() < old(self).text().len() ==> (match r {
                Some(u) => {
                    &&& call_ensures(cb, (&old(self).text()[old(self).offset()],), Some(u))
                    &&& final(self).offset() == old(self).offset() + 1
                },
                None => {
                    &&& call_ensures(cb, (&old(self).text()[old(self).offset()],), None::<T>)
                    &&& final(self).offset() == old(self).offset()
                },
            }),
    {
        proof {
            use_type_invariant(&*self);
        }
        if self.cursor < self.characters.len() {
            let c = self.characters[self.cursor];
            match cb(&c) {
                Some(u) => {
                    self.cursor = self.cursor + 1;
                    Some(u)
                }
                None => None,
            }
        } else {
            None
        }
    }
}

/// Relies on `String::push` from std: appends one character at the end of
/// the string, so the new view is the old one extended by that character.
#[verifier::external_body]
fn push_char(s: &mut String, c: char)
    ensures
        final(s)@ == old(s)@.push(c),
{
    s.push(c);
}

/// Whether a `take(target)` issued at offset `off` over `text` succeeds:
/// the character at the current offset exists and equals `target`.
pub open spec fn take_matches(text: Seq<char>, off: int, target: char) -> bool {
    0 <= off < text.len() && text[off] == target
}

/// The offset after a `take(target)` issued at offset `off` over `text`:
/// one further on a match, unchanged otherwise.
pub open spec fn take_next(text: Seq<char>, off: int, target: char) -> int {
    if take_matches(text, off, target) {
        off + 1
    } else {
        off
    }
}

/// Whether `p` is the sequence of characters of `text` from `off` up to
/// `off + p.len()`: one of the growing prefixes of the remaining input that
/// a scan starting at `off` hands to its classifier.
pub open spec fn is_prefix_from(text: Seq<char>, off: int, p: Seq<char>) -> bool {
    &&& 0 <= off
    &&& off + p.len() <= text.len()
    &&& p == text.subrange(off, off + p.len())
}

/// Whether `d` is a possible answer of the classifier `cb` on iteration `j`
/// (0-based) of a scan that began at offset `off`: the argument is the
/// string holding the characters of `text` from `off` through `off + j`.
pub open spec fn classifier_answers<T, F: Fn(&str) -> Option<Action<T>>>(
    cb: F,
    text: Seq<char>,
    off: int,
    j: int,
    d: Option<Action<T>>,
) -> bool {
    exists|s: &str| s@ == text.subrange(off, off + j + 1) && #[trigger] call_ensures(cb, (s,), d)
}

/// Whether `ds` records a run of classifier answers that kept the scan loop
/// going: each one is a `Request` or a `Require` that `cb` can answer on the
/// corresponding prefix, and each consumed one character of `text`.
pub open spec fn continuing_trace<T, F: Fn(&str) -> Option<Action<T>>>(
    cb: F,
    text: Seq<char>,
    off: int,
    ds: Seq<Action<T>>,
) -> bool {
    &&& 0 <= off
    &&& off + ds.len() <= text.len()
    &&& forall|j: int|
        0 <= j < ds.len() ==> (#[trigger] ds[j] is Request || ds[j] is Require)
    &&& forall|j: int|
        0 <= j < ds.len() ==> classifier_answers(cb, text, off, j, Some(#[trigger] ds[j]))
}

/// The provisional value that a run of classifier answers leaves behind:
/// the payload of the most recent `Request`, if any.
pub open spec fn pending_after<T>(ds: Seq<Action<T>>) -> Option<T>
    decreases ds.len(),
{
    if ds.len() == 0 {
        None
    } else {
        match ds.last() {
            Action::Request(v) => Some(v),
            _ => pending_after(ds.drop_last()),
        }
    }
}

/// Whether a run of classifier answers leaves the scan with an outstanding
/// `Require` obligation: mandatory longer input that has not yet been
/// superseded by a `Request`.
pub open spec fn require_after<T>(ds: Seq<Action<T>>) -> bool {
    ds.len() > 0 && ds.last() is Require
}

/// How a scan that began at offset `off` and looped through the continuing
/// answers `ds` can end, finishing at offset `end` with result `r`:
/// either the input ran out, or the classifier committed with `Return`,
/// or it gave no decision.
pub open spec fn scan_exit<T, F: Fn(&str) -> Option<Action<T>>>(
    cb: F,
    text: Seq<char>,
    off: int,
    ds: Seq<Action<T>>,
    r: Result<Option<T>, Error>,
    end: int,
) -> bool {
    ||| {
        &&& off + ds.len() == text.len()
        &&& end == text.len()
        &&& r == (if require_after(ds) {
            Err::<Option<T>, Error>(Error::EndOfLine)
        } else {
            Ok::<Option<T>, Error>(pending_after(ds))
        })
    }
    ||| {
        &&& off + ds.len() < text.len()
        &&& end == off + ds.len() + 1
        &&& exists|v: T|
            r == Ok::<Option<T>, Error>(Some(v)) && classifier_answers(
                cb,
                text,
                off,
                ds.len() as int,
                Some(Action::Return(v)),
            )
    }
    ||| {
        &&& off + ds.len() < text.len()
        &&& end == off + ds.len()
        &&& classifier_answers(cb, text, off, ds.len() as int, None::<Action<T>>)
        &&& r == (if require_after(ds) {
            Err::<Option<T>, Error>(Error::Character(end as usize))
        } else {
            Ok::<Option<T>, Error>(pending_after(ds))
        })
    }
}

/// The full relation between the state a `scan` started from, its
/// classifier, its result, and the offset it stopped at: some run of
/// continuing classifier answers leads to one of the three exits.
pub open spec fn scan_outcome<T, F: Fn(&str) -> Option<Action<T>>>(
    cb: F,
    text: Seq<char>,
    off: int,
    r: Result<Option<T>, Error>,
    end: int,
) -> bool {
    exists|ds: Seq<Action<T>>|
        #[trigger] continuing_trace(cb, text, off, ds) && scan_exit(cb, text, off, ds, r, end)
}

/// Round trip through the scan driver with an unconditionally committing
/// classifier: when the classifier can only ever answer `Return` with the
/// fixed value `v`, a scan that still has a character to read succeeds with
/// `v` and advances the cursor by exactly one.
pub proof fn lemma_scan_returns_first<T, F: Fn(&str) -> Option<Action<T>>>(
    cb: F,
    text: Seq<char>,
    off: int,
    v: T,
    r: Result<Option<T>, Error>,
    end: int,
)
    requires
        0 <= off < text.len(),
        forall|s: &str, d: Option<Action<T>>| #[trigger] call_ensures(cb, (s,), d) ==> d == Some(
            Action::Return(v),
        ),
        scan_outcome(cb, text, off, r, end),
    ensures
        r == Ok::<Option<T>, Error>(Some(v)),
        end == off + 1,
{
    let ds = choose|ds: Seq<Action<T>>|
        #[trigger] continuing_trace(cb, text, off, ds) && scan_exit(cb, text, off, ds, r, end);
    if ds.len() > 0 {
        assert(ds[0] is Request || ds[0] is Require);
        assert(classifier_answers(cb, text, off, 0, Some(ds[0])));
        let s0 = choose|s: &str|
            s@ == text.subrange(off, off + 1) && #[trigger] call_ensures(cb, (s,), Some(ds[0]));
        assert(Some(ds[0]) == Some(Action::Return(v)));
        assert(false);
    }
    if classifier_answers(cb, text, off, 0, None::<Action<T>>) {
        let s0 = choose|s: &str|
            s@ == text.subrange(off, off + 1) && #[trigger] call_ensures(
                cb,
                (s,),
                None::<Action<T>>,
            );
        assert(false);
    }
    let v2 = choose|v2: T|
        r == Ok::<Option<T>, Error>(Some(v2)) && classifier_answers(
            cb,
            text,
            off,
            0,
            Some(Action::Return(v2)),
        );
    let s0 = choose|s: &str|
        s@ == text.subrange(off, off + 1) && #[trigger] call_ensures(
            cb,
            (s,),
            Some(Action::Return(v2)),
        );
    assert(Some(Action::Return(v2)) == Some(Action::Return(v)));
}

/// A scan driven from an empty input by a classifier that never answers
/// `Require` or `Request` succeeds with no value and leaves the cursor at
/// the start. (No character exists to hand to the classifier, so the loop
/// exits at once with nothing outstanding and nothing pending.)
pub proof fn lemma_scan_empty_input<T, F: Fn(&str) -> Option<Action<T>>>(
    cb: F,
    text: Seq<char>,
    r: Result<Option<T>, Error>,
    end: int,
)
    requires
        text.len() == 0,
        forall|s: &str, d: Option<Action<T>>| #[trigger] call_ensures(cb, (s,), d) ==> !(d matches
        Some(Action::Require)) && !(d matches Some(Action::Request(_))),
        scan_outcome(cb, text, 0, r, end),
    ensures
        r == Ok::<Option<T>, Error>(None::<T>),
        end == 0,
{
    let ds = choose|ds: Seq<Action<T>>|
        #[trigger] continuing_trace(cb, text, 0, ds) && scan_exit(cb, text, 0, ds, r, end);
    assert(ds.len() == 0);
    assert(!require_after(ds));
    assert(pending_after(ds) == None::<T>);
}

/// Two successive `take` calls with distinct targets that both fail to match
/// never advance the cursor: the second attempt starts where the first did,
/// and neither moves it.
pub proof fn lemma_take_unmatched_twice(text: Seq<char>, off: int, a: char, b: char)
    requires
        a != b,
        !take_matches(text, off, a),
        !take_matches(text, off, b),
    ensures
        take_next(text, take_next(text, off, a), b) == off,
{
}

} // verus!
