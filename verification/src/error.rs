//! The failures that reading or writing an archive can end in.

use vstd::prelude::*;
use vstd::string::StringExecFns;

verus! {

/// The standard library's I/O error, carried through as an opaque value.
#[verifier::external_type_specification]
#[verifier::external_body]
pub struct ExIoError(std::io::Error);

/// The standard library's UTF-8 decoding error, carried through as an opaque value.
#[verifier::external_type_specification]
#[verifier::external_body]
pub struct ExUtf8Error(std::str::Utf8Error);

/// All errors that can happen when handling an archive.
#[derive(Debug)]
pub enum Error {
    /// The header JSON failed to be parsed; holds the parser's message.
    InvalidJson(String),
    /// The JSON is well formed, but something is wrong with its shape.
    InvalidJsonFormat(String),
    /// Read or write error.
    IOErr(std::io::Error),
    /// Invalid UTF-8 text in storage.
    InvalidUTF8,
    /// The file at the requested archive path does not exist.
    NoFile,
}

/// What an [`Error`] says, without the opaque values it may carry.
pub enum Failure {
    InvalidJson,
    InvalidJsonFormat(Seq<char>),
    IOErr,
    InvalidUTF8,
    NoFile,
}

impl View for Error {
    type V = Failure;

    open spec fn view(&self) -> Failure {
        match self {
            Error::InvalidJson(_) => Failure::InvalidJson,
            Error::InvalidJsonFormat(msg) => Failure::InvalidJsonFormat(msg@),
            Error::IOErr(_) => Failure::IOErr,
            Error::InvalidUTF8 => Failure::InvalidUTF8,
            Error::NoFile => Failure::NoFile,
        }
    }
}

impl From<std::io::Error> for Error {
    fn from(err: std::io::Error) -> (r: Self) {
        Error::IOErr(err)
    }
}

impl vstd::std_specs::convert::FromSpecImpl<std::io::Error> for Error {
    open spec fn obeys_from_spec() -> bool {
        true
    }

    open spec fn from_spec(err: std::io::Error) -> Self {
        Error::IOErr(err)
    }
}

impl From<std::str::Utf8Error> for Error {
    fn from(e: std::str::Utf8Error) -> (r: Self) {
        Error::InvalidUTF8
    }
}

impl vstd::std_specs::convert::FromSpecImpl<std::str::Utf8Error> for Error {
    open spec fn obeys_from_spec() -> bool {
        true
    }

    open spec fn from_spec(e: std::str::Utf8Error) -> Self {
        Error::InvalidUTF8
    }
}

/// What an I/O error says of itself.
///
/// Calls `to_string` on a `std::io::Error`, which formats it as its
/// `Display` does; nothing is claimed of the text.
#[verifier::external_body]
fn io_error_text(e: &std::io::Error) -> String {
    e.to_string()
}

impl Failure {
    /// What stands in front of the description of the failure.
    pub open spec fn heading(self) -> Seq<char> {
        match self {
            Failure::IOErr => "IO Error: "@,
            Failure::InvalidJson => "Invalid header JSON: "@,
            Failure::InvalidJsonFormat(_) => "Invalid header JSON format: "@,
            Failure::InvalidUTF8 => "Invalid UTF-8"@,
            Failure::NoFile => "The specified file or directory does not exist"@,
        }
    }
}

impl Error {
    /// The message that the error carries: that of the JSON parser, or the
    /// description of what is wrong with the header.
    pub open spec fn detail(&self) -> Option<Seq<char>> {
        match self {
            Error::InvalidJson(msg) => Some(msg@),
            Error::InvalidJsonFormat(msg) => Some(msg@),
            _ => None,
        }
    }

    /// Describes the error in a line of text: what kind of error it is, and
    /// then what the error carries.
    pub fn to_text(&self) -> (r: String)
        ensures
            r@.len() >= self@.heading().len(),
            r@.take(self@.heading().len() as int) == self@.heading(),
            match self.detail() {
                Some(msg) => r@ == self@.heading() + msg,
                None => !(self@ is IOErr) ==> r@ == self@.heading(),
            },
    {
        match self {
            Error::IOErr(err) => {
                let mut r = "IO Error: ".to_owned();
                let ghost head = r@;
                let text = io_error_text(err);
                r.append(text.as_str());
                assert(r@.take(head.len() as int) =~= head);
                r
            },
            Error::InvalidJson(err) => {
                let mut r = "Invalid header JSON: ".to_owned();
                let ghost head = r@;
                r.append(err.as_str());
                assert(r@.take(head.len() as int) =~= head);
                r
            },
            Error::InvalidJsonFormat(err) => {
                let mut r = "Invalid header JSON format: ".to_owned();
                let ghost head = r@;
                r.append(err.as_str());
                assert(r@.take(head.len() as int) =~= head);
                r
            },
            Error::InvalidUTF8 => {
                let r = "Invalid UTF-8".to_owned();
                assert(r@.take(r@.len() as int) =~= r@);
                r
            },
            Error::NoFile => {
                let r = "The specified file or directory does not exist".to_owned();
                assert(r@.take(r@.len() as int) =~= r@);
                r
            },
        }
    }
}

/// The error that reading past the end of the source gives.
///
/// Calls `std::io::Error::from` on `ErrorKind::UnexpectedEof`; nothing is
/// claimed of the value.
#[verifier::external_body]
pub(crate) fn unexpected_eof() -> std::io::Error {
    std::io::Error::from(std::io::ErrorKind::UnexpectedEof)
}

/// An [`Error::IOErr`] for a source that ends before the bytes that were asked for.
pub fn short_read() -> (e: Error)
    ensures
        e@ == Failure::IOErr,
{
    Error::IOErr(unexpected_eof())
}

} // verus!
