//! Errors of request parsing and of the proxy's I/O.
use vstd::prelude::*;

verus! {

/// `std::io::Error`, carried through the library unchanged.
#[verifier::external_type_specification]
#[verifier::external_body]
pub struct ExIoError(std::io::Error);

/// What can go wrong while reading or parsing a request.
#[derive(Debug)]
pub enum HttpError {
    InvalidVersion(String),
    InvalidMethod(String),
    MissingRequestLine,
    InvalidRequestLine(String),
    InvalidHeader(String),
    IoError(std::io::Error),
}

/// An [`HttpError`] as plain values: the offending text of each parse error.
pub enum ErrorView {
    InvalidVersion(Seq<char>),
    InvalidMethod(Seq<char>),
    MissingRequestLine,
    InvalidRequestLine(Seq<char>),
    InvalidHeader(Seq<char>),
    IoError,
}

impl View for HttpError {
    type V = ErrorView;

    open spec fn view(&self) -> ErrorView {
        match self {
            HttpError::InvalidVersion(s) => ErrorView::InvalidVersion(s@),
            HttpError::InvalidMethod(s) => ErrorView::InvalidMethod(s@),
            HttpError::MissingRequestLine => ErrorView::MissingRequestLine,
            HttpError::InvalidRequestLine(s) => ErrorView::InvalidRequestLine(s@),
            HttpError::InvalidHeader(s) => ErrorView::InvalidHeader(s@),
            HttpError::IoError(_) => ErrorView::IoError,
        }
    }
}

/// The text of an I/O error, as its `Display` shows it.
///
/// Calls `<std::io::Error as Display>::fmt`. Nothing is claimed of the text: for an
/// operating-system error it comes from the system's own error message.
#[verifier::external_body]
fn io_error_text(e: &std::io::Error) -> String {
    format!("{}", e)
}

/// The message of a parse error: a fixed prefix followed by the offending text.
pub open spec fn parse_error_message(e: ErrorView) -> Seq<char> {
    match e {
        ErrorView::InvalidVersion(s) => "Invalid HTTP version: "@ + s,
        ErrorView::InvalidMethod(s) => "Invalid HTTP method: "@ + s,
        ErrorView::InvalidRequestLine(s) => "Invalid request line: "@ + s,
        ErrorView::InvalidHeader(s) => "Invalid request header: "@ + s,
        ErrorView::MissingRequestLine => "Missing request line"@,
        ErrorView::IoError => "IO error: "@,
    }
}

impl HttpError {
    /// The human-readable message of this error.
    pub fn message(&self) -> (msg: String)
        ensures
            !(self@ is IoError) ==> msg@ == parse_error_message(self@),
            self@ is IoError ==> exists|t: Seq<char>| msg@ == "IO error: "@ + t,
    {
        match self {
            HttpError::InvalidVersion(s) => {
                let mut m = "Invalid HTTP version: ".to_owned();
                m.append(s.as_str());
                m
            },
            HttpError::InvalidMethod(s) => {
                let mut m = "Invalid HTTP method: ".to_owned();
                m.append(s.as_str());
                m
            },
            HttpError::InvalidRequestLine(s) => {
                let mut m = "Invalid request line: ".to_owned();
                m.append(s.as_str());
                m
            },
            HttpError::InvalidHeader(s) => {
                let mut m = "Invalid request header: ".to_owned();
                m.append(s.as_str());
                m
            },
            HttpError::MissingRequestLine => "Missing request line".to_owned(),
            HttpError::IoError(e) => {
                let mut m = "IO error: ".to_owned();
                let t = io_error_text(e);
                m.append(t.as_str());
                m
            },
        }
    }
}

impl From<std::io::Error> for HttpError {
    fn from(value: std::io::Error) -> (e: Self) {
        HttpError::IoError(value)
    }
}

impl vstd::std_specs::convert::FromSpecImpl<std::io::Error> for HttpError {
    open spec fn obeys_from_spec() -> bool {
        true
    }

    open spec fn from_spec(v: std::io::Error) -> Self {
        HttpError::IoError(v)
    }
}

} // verus!
