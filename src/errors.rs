use vstd::prelude::*;
use vstd::string::StringExecFns;

verus! {

/// Everything that can go wrong while lexing, parsing or filtering a document.
#[derive(Debug, Clone, PartialEq, Eq)]
pub enum Error {
    /// A string literal was still open when the input ended.
    Unterminated,
    /// The byte source failed; the text describes the failure.
    IO(String),
    /// A lexeme stood where no rule of the grammar accepts it.
    Unexpected(String),
    /// Text was not valid UTF-8.
    Utf8,
    /// An escape sequence inside a string that JSON does not define.
    Escape(String),
    /// The input ended while a value or a container was incomplete.
    MoreLexemes,
    /// A closing bracket of the wrong kind for the open container.
    Unmatched(char),
    /// Content followed a complete top-level value.
    AdditionalData,
}

/// An error with its texts as character sequences.
pub enum ErrorView {
    Unterminated,
    IO(Seq<char>),
    Unexpected(Seq<char>),
    Utf8,
    Escape(Seq<char>),
    MoreLexemes,
    Unmatched(char),
    AdditionalData,
}

pub open spec fn err_view(e: Error) -> ErrorView {
    match e {
        Error::Unterminated => ErrorView::Unterminated,
        Error::IO(s) => ErrorView::IO(s@),
        Error::Unexpected(s) => ErrorView::Unexpected(s@),
        Error::Utf8 => ErrorView::Utf8,
        Error::Escape(s) => ErrorView::Escape(s@),
        Error::MoreLexemes => ErrorView::MoreLexemes,
        Error::Unmatched(c) => ErrorView::Unmatched(c),
        Error::AdditionalData => ErrorView::AdditionalData,
    }
}

pub open spec fn description_of(e: Error) -> &'static str {
    match e {
        Error::Unterminated => "unterminated string",
        Error::IO(_) => "I/O error",
        Error::Unexpected(_) => "unexpected lexeme",
        Error::Utf8 => "invalid UTF-8",
        Error::Escape(_) => "malformed escape",
        Error::MoreLexemes => "more lexemes expected",
        Error::Unmatched(_) => "unmatched container terminator",
        Error::AdditionalData => "additional data",
    }
}

/// The message that describes an error to a person.
pub open spec fn message_of(e: Error) -> Seq<char> {
    match e {
        Error::Unterminated => "Unterminated string"@,
        Error::IO(s) => "I/O Error: "@ + s@,
        Error::Unexpected(s) => "Unexpected lexeme: '"@ + s@ + "'"@,
        Error::Utf8 => "UTF8 Error: invalid UTF-8"@,
        Error::Escape(s) => "Malformed escape: '"@ + s@ + "'"@,
        Error::MoreLexemes => "More lexemes expected"@,
        Error::Unmatched(c) => "Unmatched container terminator: "@.push(c),
        Error::AdditionalData => "Additional data in the source stream after parsed value"@,
    }
}

/// Relies on String::push: it appends the one character to the string.
#[verifier::external_body]
fn push_char(s: &mut String, c: char)
    ensures
        final(s)@ == old(s)@.push(c),
{
    s.push(c)
}

/// `head`, then `s`, then `tail`.
fn framed(head: &str, s: &String, tail: &str) -> (r: String)
    ensures
        r@ == head@ + s@ + tail@,
{
    let mut r = String::from_str(head);
    r.append(s.as_str());
    r.append(tail);
    r
}

impl Error {
    /// The message that describes the error to a person.
    pub fn message(&self) -> (r: String)
        ensures
            r@ == message_of(*self),
    {
        match self {
            Error::Unterminated => String::from_str("Unterminated string"),
            Error::IO(s) => {
                proof {
                    reveal_strlit("");
                }
                let r = framed("I/O Error: ", s, "");
                assert(r@ =~= "I/O Error: "@ + s@);
                r
            },
            Error::Unexpected(s) => framed("Unexpected lexeme: '", s, "'"),
            Error::Utf8 => String::from_str("UTF8 Error: invalid UTF-8"),
            Error::Escape(s) => framed("Malformed escape: '", s, "'"),
            Error::MoreLexemes => String::from_str("More lexemes expected"),
            Error::Unmatched(c) => {
                let mut r = String::from_str("Unmatched container terminator: ");
                push_char(&mut r, *c);
                r
            },
            Error::AdditionalData => String::from_str(
                "Additional data in the source stream after parsed value",
            ),
        }
    }

    /// A short, fixed description of the kind of error.
    pub fn description(&self) -> (r: &'static str)
        ensures
            r == description_of(*self),
    {
        match self {
            Error::Unterminated => "unterminated string",
            Error::IO(_) => "I/O error",
            Error::Unexpected(_) => "unexpected lexeme",
            Error::Utf8 => "invalid UTF-8",
            Error::Escape(_) => "malformed escape",
            Error::MoreLexemes => "more lexemes expected",
            Error::Unmatched(_) => "unmatched container terminator",
            Error::AdditionalData => "additional data",
        }
    }
}

/// The items of `xs` up to and including its first error; all of them when
/// none is an error.
pub open spec fn until_error<T>(xs: Seq<Result<T, Error>>) -> Seq<Result<T, Error>>
    decreases xs.len(),
{
    if xs.len() == 0 {
        Seq::empty()
    } else if xs[0] is Err {
        seq![xs[0]]
    } else {
        seq![xs[0]] + until_error(xs.drop_first())
    }
}

/// Stops a sequence of fallible items for good after its first error.
///
/// A sequence that wraps its source in it pulls the source only while
/// `is_errored` is false, and passes each item through `guard`.
pub struct ResultIterator<I> {
    pub iterator: I,
    pub errored: bool,
}

impl<I> ResultIterator<I> {
    pub fn new(iterator: I) -> (r: ResultIterator<I>)
        ensures
            r.iterator == iterator,
            !r.errored,
    {
        ResultIterator { iterator: iterator, errored: false }
    }

    /// Whether an error has already been produced.
    pub fn is_errored(&self) -> (r: bool)
        ensures
            r == self.errored,
    {
        self.errored
    }

    /// Records `value`, just pulled from the source, and passes it on unless
    /// an error came before it.
    pub fn guard<T>(&mut self, value: Option<Result<T, Error>>) -> (r: Option<Result<T, Error>>)
        ensures
            old(self).errored ==> r is None && final(self).errored,
            !old(self).errored ==> r == value && final(self).errored == (value matches Some(Err(_))),
            final(self).iterator == old(self).iterator,
    {
        if self.errored {
            return None;
        }
        if let Some(Err(_)) = &value {
            self.errored = true;
        }
        value
    }

    /// Passes `items` through the wrapper in order and returns what comes
    /// out: everything up to the first error, nothing after it.
    pub fn drain<T>(&mut self, items: Vec<Result<T, Error>>) -> (r: Vec<Result<T, Error>>)
        ensures
            old(self).errored ==> r@.len() == 0 && final(self).errored,
            !old(self).errored ==> r@ == until_error(items@),
            !old(self).errored ==> final(self).errored == (exists|i: int|
                0 <= i < items@.len() && #[trigger] items@[i] is Err),
            final(self).iterator == old(self).iterator,
    {
        let mut out: Vec<Result<T, Error>> = Vec::new();
        if self.errored {
            return out;
        }
        let ghost all = items@;
        let mut rest = items;
        while rest.len() > 0
            invariant
                !self.errored,
                !old(self).errored,
                all == items@,
                self.iterator == old(self).iterator,
                until_error(all) == out@ + until_error(rest@),
                forall|i: int| 0 <= i < out@.len() ==> #[trigger] out@[i] is Ok,
                all == out@ + rest@,
            decreases rest.len(),
        {
            let ghost before = rest@;
            let x = rest.remove(0);
            assert(rest@ =~= before.drop_first());
            let ghost xs = out@;
            let ghost gx = x;
            assert(before[0] == gx);
            match self.guard(Some(x)) {
                Some(v) => {
                    let stop = match &v {
                        Ok(_) => false,
                        Err(_) => true,
                    };
                    out.push(v);
                    if stop {
                        assert(until_error(before) == seq![gx]);
                        assert(until_error(all) =~= out@);
                        assert(all[xs.len() as int] == gx);
                        return out;
                    }
                    assert(until_error(before) == seq![gx] + until_error(rest@));
                    assert(until_error(all) =~= out@ + until_error(rest@));
                    assert(all =~= out@ + rest@);
                },
                None => {},
            }
        }
        assert(rest@ =~= Seq::<Result<T, Error>>::empty());
        assert(out@ + until_error(rest@) =~= out@);
        assert(all =~= out@);
        assert(forall|i: int| 0 <= i < all.len() ==> #[trigger] all[i] is Ok);
        out
    }
}

} // verus!