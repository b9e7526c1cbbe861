//! What can go wrong when a request is served.
use crate::benchmarks::rust_tokio::request::ParseRequestError;
use vstd::prelude::*;
use vstd::string;
use vstd::string::StringExecFns;

verus! {

/// An error of the operating system. Nothing is known of its contents.
#[verifier::external_type_specification]
#[verifier::external_body]
pub struct ExIoError(std::io::Error);

#[derive(Debug)]
pub enum Error {
    ParseRequest(ParseRequestError),
    Io(std::io::Error),
    Utf8(core::str::Utf8Error),
}

impl Error {
    /// Whether a text is the error in words. The words for an error of the operating system, and
    /// for bytes that are no text, are those that the error itself gives.
    pub open spec fn has_text(&self, text: Seq<char>) -> bool {
        match self {
            Error::ParseRequest(error) => text == "parse request error: "@ + error.text(),
            Error::Io(error) => exists|words: String| #[trigger]
                string::to_string_from_display_ensures(error, words) && text == "io error: "@
                    + words@,
            Error::Utf8(error) => exists|words: String| #[trigger]
                string::to_string_from_display_ensures(error, words) && text
                    == "request is not valid utf-8: "@ + words@,
        }
    }

    pub fn to_string(&self) -> (text: String)
        ensures
            self.has_text(text@),
    {
        let mut text = String::new();
        match self {
            Error::ParseRequest(error) => {
                text.append("parse request error: ");
                text.append(error.to_string());
            },
            Error::Io(error) => {
                let words = error.to_string();
                text.append("io error: ");
                text.append(words.as_str());
            },
            Error::Utf8(error) => {
                let words = error.to_string();
                text.append("request is not valid utf-8: ");
                text.append(words.as_str());
            },
        }
        text
    }
}

impl From<ParseRequestError> for Error {
    fn from(value: ParseRequestError) -> (error: Self) {
        Error::ParseRequest(value)
    }
}

impl vstd::std_specs::convert::FromSpecImpl<ParseRequestError> for Error {
    open spec fn obeys_from_spec() -> bool {
        true
    }

    open spec fn from_spec(value: ParseRequestError) -> Self {
        Error::ParseRequest(value)
    }
}

impl From<std::io::Error> for Error {
    fn from(value: std::io::Error) -> (error: Self) {
        Error::Io(value)
    }
}

impl vstd::std_specs::convert::FromSpecImpl<std::io::Error> for Error {
    open spec fn obeys_from_spec() -> bool {
        true
    }

    open spec fn from_spec(value: std::io::Error) -> Self {
        Error::Io(value)
    }
}

impl From<core::str::Utf8Error> for Error {
    fn from(value: core::str::Utf8Error) -> (error: Self) {
        Error::Utf8(value)
    }
}

impl vstd::std_specs::convert::FromSpecImpl<core::str::Utf8Error> for Error {
    open spec fn obeys_from_spec() -> bool {
        true
    }

    open spec fn from_spec(value: core::str::Utf8Error) -> Self {
        Error::Utf8(value)
    }
}

/// A request that cannot be read is reported with what is wrong with it, and nothing else.
pub proof fn law_unreadable_requests_are_reported(error: ParseRequestError, words: Seq<char>)
    requires
        Error::ParseRequest(error).has_text(words),
    ensures
        words.len() > 21,
        words.take(21) == "parse request error: "@,
        error == ParseRequestError::Syntax ==> words.skip(21) == "invalid request syntax"@,
        error == ParseRequestError::UnexpectedEof ==> words.skip(21)
            == "unexpected end of file when parsing request"@,
{
    reveal_strlit("parse request error: ");
    reveal_strlit("invalid request syntax");
    reveal_strlit("unexpected end of file when parsing request");
    assert(words.take(21) =~= "parse request error: "@);
    assert(words.skip(21) =~= error.text());
}

/// An error of the operating system, and bytes that are no text, are reported with a beginning that
/// tells them apart, and the words of the error itself behind it.
pub proof fn law_outside_errors_are_reported_in_their_words(error: Error, words: Seq<char>)
    requires
        error.has_text(words),
    ensures
        error matches Error::Io(inner) ==> {
            &&& words.len() >= 10
            &&& words.take(10) == "io error: "@
            &&& exists|own: String| #[trigger]
                string::to_string_from_display_ensures(&inner, own) && words.skip(10) == own@
        },
        error matches Error::Utf8(inner) ==> {
            &&& words.len() >= 28
            &&& words.take(28) == "request is not valid utf-8: "@
            &&& exists|own: String| #[trigger]
                string::to_string_from_display_ensures(&inner, own) && words.skip(28) == own@
        },
{
    reveal_strlit("io error: ");
    reveal_strlit("request is not valid utf-8: ");
    match error {
        Error::Io(inner) => {
            let own = choose|own: String| #[trigger]
                string::to_string_from_display_ensures(&inner, own) && words == "io error: "@ + own@;
            assert(words.take(10) =~= "io error: "@);
            assert(words.skip(10) =~= own@);
        },
        Error::Utf8(inner) => {
            let own = choose|own: String| #[trigger]
                string::to_string_from_display_ensures(&inner, own) && words
                    == "request is not valid utf-8: "@ + own@;
            assert(words.take(28) =~= "request is not valid utf-8: "@);
            assert(words.skip(28) =~= own@);
        },
        Error::ParseRequest(_) => {},
    }
}

} // verus!
