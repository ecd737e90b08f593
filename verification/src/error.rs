use core::str::Utf8Error;
use vstd::prelude::*;
use vstd::utf8::{decode_utf8, valid_utf8};

verus! {

/// `core::str::Utf8Error`, what the decoder says of bytes that are not
/// UTF-8: carried in an error, never looked into.
#[verifier::external_type_specification]
#[verifier::external_body]
pub struct ExUtf8Error(Utf8Error);

/// `quick_xml::Error`, what the tokenizer reports: carried in an error as it
/// is.
#[verifier::external_type_specification]
#[verifier::external_body]
pub struct ExReaderError(quick_xml::Error);

/// Why a text or a sequence of tokens is no document.
#[derive(Debug)]
pub enum XmlError {
    /// A name, an attribute or a payload is not UTF-8; with what the decoder
    /// said of it.
    NonDecodable(Option<Utf8Error>),
    /// An end tag closes nothing: no element is open where it stands.
    UnmatchedEndTag(String),
    /// An end tag names another element than the innermost open one.
    MismatchedEndTag { expected: String, found: String },
    /// The tokens end while the named element is still open.
    MissingEndTag(String),
    /// The text is malformed in a way that the tokenizer reports.
    Syntax(quick_xml::Error),
}

/// What an [`XmlError`] holds, as mathematical values.
pub enum XmlErrorView {
    NonDecodable(Option<Utf8Error>),
    UnmatchedEndTag(Seq<char>),
    MismatchedEndTag { expected: Seq<char>, found: Seq<char> },
    MissingEndTag(Seq<char>),
    Syntax(quick_xml::Error),
}

impl View for XmlError {
    type V = XmlErrorView;

    open spec fn view(&self) -> XmlErrorView {
        match *self {
            XmlError::NonDecodable(e) => XmlErrorView::NonDecodable(e),
            XmlError::UnmatchedEndTag(name) => XmlErrorView::UnmatchedEndTag(name@),
            XmlError::MismatchedEndTag { expected, found } => XmlErrorView::MismatchedEndTag {
                expected: expected@,
                found: found@,
            },
            XmlError::MissingEndTag(name) => XmlErrorView::MissingEndTag(name@),
            XmlError::Syntax(e) => XmlErrorView::Syntax(e),
        }
    }
}

/// What `core::str::from_utf8` says of bytes that are not UTF-8.
pub uninterp spec fn utf8_error(bytes: Seq<u8>) -> Utf8Error;

/// The text that `bytes` encode, or the error for bytes that encode none.
pub open spec fn decoded(bytes: Seq<u8>) -> Result<Seq<char>, XmlErrorView> {
    if valid_utf8(bytes) {
        Ok(decode_utf8(bytes))
    } else {
        Err(XmlErrorView::NonDecodable(Some(utf8_error(bytes))))
    }
}

/// Calls `core::str::from_utf8`. The contract claims what its documentation
/// says: bytes that are UTF-8 come back as the text that they encode, and
/// other bytes give an error, which depends on the bytes alone.
#[verifier::external_body]
fn from_utf8(bytes: &[u8]) -> (r: Result<&str, Utf8Error>)
    ensures
        match r {
            Ok(s) => valid_utf8(bytes@) && s@ == decode_utf8(bytes@),
            Err(e) => !valid_utf8(bytes@) && e == utf8_error(bytes@),
        },
{
    core::str::from_utf8(bytes)
}

/// The error for bytes that the decoder refused.
pub fn non_decodable(diagnostic: Utf8Error) -> (r: XmlError)
    ensures
        r@ == XmlErrorView::NonDecodable(Some(diagnostic)),
{
    XmlError::NonDecodable(Some(diagnostic))
}

/// Decodes bytes as UTF-8 text.
pub fn u8_to_string(bytes: &[u8]) -> (r: Result<String, XmlError>)
    ensures
        match r {
            Ok(s) => decoded(bytes@) == Ok::<Seq<char>, XmlErrorView>(s@),
            Err(e) => decoded(bytes@) == Err::<Seq<char>, XmlErrorView>(e@),
        },
{
    match from_utf8(bytes) {
        Ok(s) => Ok(s.to_owned()),
        Err(e) => Err(non_decodable(e)),
    }
}

} // verus!
