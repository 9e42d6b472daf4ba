//! Parser errors and their messages.

use vstd::prelude::*;
use crate::text::{concat_str, decimal_seq, push_decimal};

verus! {

#[verifier::external_type_specification]
#[verifier::external_body]
pub struct ExIoError(std::io::Error);

/// PDF parser errors covering all failure modes during parsing.
#[derive(Debug)]
pub enum ParseError {
    /// I/O error during file operations
    Io(std::io::Error),
    /// The data does not start with a valid `%PDF-` header
    InvalidHeader,
    /// PDF version is not supported
    UnsupportedVersion(String),
    /// Syntax error in PDF structure
    SyntaxError { position: usize, message: String },
    /// A token other than the expected one was found
    UnexpectedToken { expected: String, found: String },
    /// Invalid or non-existent object reference
    InvalidReference(u32, u16),
    /// Required dictionary key is missing
    MissingKey(String),
    /// Invalid cross-reference table
    InvalidXRef,
    /// Invalid trailer
    InvalidTrailer,
    /// Circular reference detected
    CircularReference,
    /// Error decoding or decompressing stream data
    StreamDecodeError(String),
    /// The document is encrypted
    EncryptionNotSupported,
    /// Empty file
    EmptyFile,
    /// Stream length mismatch (strict mode)
    StreamLengthMismatch { declared: usize, actual: usize },
    /// Character encoding error
    CharacterEncodingError { position: usize, message: String },
    /// Unexpected character in PDF content
    UnexpectedCharacter { character: String },
}

/// Result type for parser operations.
pub type ParseResult<T> = Result<T, ParseError>;

/// The message of an error other than `Io`; for `Io` only the prefix.
pub open spec fn parse_error_message(e: ParseError) -> Seq<char> {
    match e {
        ParseError::Io(_) => "IO error: "@,
        ParseError::InvalidHeader => "Invalid PDF header"@,
        ParseError::UnsupportedVersion(v) => "Unsupported PDF version: "@ + v@,
        ParseError::SyntaxError { position, message } => "Syntax error at position "@
            + decimal_seq(position as nat) + ": "@ + message@,
        ParseError::UnexpectedToken { expected, found } => "Unexpected token: expected "@
            + expected@ + ", found "@ + found@,
        ParseError::InvalidReference(n, g) => "Invalid object reference: "@ + decimal_seq(
            n as nat,
        ) + " "@ + decimal_seq(g as nat) + " R"@,
        ParseError::MissingKey(k) => "Missing required key: "@ + k@,
        ParseError::InvalidXRef => "Invalid xref table"@,
        ParseError::InvalidTrailer => "Invalid trailer"@,
        ParseError::CircularReference => "Circular reference detected"@,
        ParseError::StreamDecodeError(m) => "Stream decode error: "@ + m@,
        ParseError::EncryptionNotSupported =>
            "PDF is encrypted. Decryption is not currently supported in the community edition"@,
        ParseError::EmptyFile => "File is empty (0 bytes)"@,
        ParseError::StreamLengthMismatch { declared, actual } => "Stream length mismatch: declared "@
            + decimal_seq(declared as nat) + " bytes, but found endstream at "@ + decimal_seq(
            actual as nat,
        ) + " bytes"@,
        ParseError::CharacterEncodingError { position, message } =>
            "Character encoding error at position "@ + decimal_seq(position as nat) + ": "@
                + message@,
        ParseError::UnexpectedCharacter { character } => "Unexpected character: "@ + character@,
    }
}

/// The display text of an I/O error.
#[verifier::external_body]
fn io_error_text(e: &std::io::Error) -> String {
    e.to_string()
}

impl ParseError {
    /// The human-readable message of this error.
    pub fn message(&self) -> (s: String)
        ensures
            self is Io ==> parse_error_message(*self).is_prefix_of(s@),
            !(self is Io) ==> s@ == parse_error_message(*self),
    {
        match self {
            ParseError::Io(e) => {
                let t = io_error_text(e);
                let s = concat_str("IO error: ", t.as_str());
                proof {
                    assert(s@.subrange(0, "IO error: "@.len() as int) =~= "IO error: "@);
                }
                s
            },
            ParseError::InvalidHeader => String::from_str("Invalid PDF header"),
            ParseError::UnsupportedVersion(v) => concat_str(
                "Unsupported PDF version: ",
                v.as_str(),
            ),
            ParseError::SyntaxError { position, message } => {
                let mut s = String::from_str("Syntax error at position ");
                push_decimal(&mut s, *position as u64);
                s.append(": ");
                s.append(message.as_str());
                s
            },
            ParseError::UnexpectedToken { expected, found } => {
                let mut s = String::from_str("Unexpected token: expected ");
                s.append(expected.as_str());
                s.append(", found ");
                s.append(found.as_str());
                s
            },
            ParseError::InvalidReference(n, g) => {
                let mut s = String::from_str("Invalid object reference: ");
                push_decimal(&mut s, *n as u64);
                s.append(" ");
                push_decimal(&mut s, *g as u64);
                s.append(" R");
                s
            },
            ParseError::MissingKey(k) => concat_str("Missing required key: ", k.as_str()),
            ParseError::InvalidXRef => String::from_str("Invalid xref table"),
            ParseError::InvalidTrailer => String::from_str("Invalid trailer"),
            ParseError::CircularReference => String::from_str("Circular reference detected"),
            ParseError::StreamDecodeError(m) => concat_str("Stream decode error: ", m.as_str()),
            ParseError::EncryptionNotSupported => String::from_str(
                "PDF is encrypted. Decryption is not currently supported in the community edition",
            ),
            ParseError::EmptyFile => String::from_str("File is empty (0 bytes)"),
            ParseError::StreamLengthMismatch { declared, actual } => {
                let mut s = String::from_str("Stream length mismatch: declared ");
                push_decimal(&mut s, *declared as u64);
                s.append(" bytes, but found endstream at ");
                push_decimal(&mut s, *actual as u64);
                s.append(" bytes");
                s
            },
            ParseError::CharacterEncodingError { position, message } => {
                let mut s = String::from_str("Character encoding error at position ");
                push_decimal(&mut s, *position as u64);
                s.append(": ");
                s.append(message.as_str());
                s
            },
            ParseError::UnexpectedCharacter { character } => concat_str(
                "Unexpected character: ",
                character.as_str(),
            ),
        }
    }
}

/// Library-level error into which parser errors convert.
#[derive(Debug)]
pub enum OxidizePdfError {
    /// A parse error, carried by its message
    ParseError(String),
}

impl OxidizePdfError {
    /// Convert a parse error, keeping its message.
    pub fn from_parse_error(err: ParseError) -> (r: OxidizePdfError)
        ensures
            r matches OxidizePdfError::ParseError(m) && (
                (err is Io ==> parse_error_message(err).is_prefix_of(m@))
                && (!(err is Io) ==> m@ == parse_error_message(err))),
    {
        OxidizePdfError::ParseError(err.message())
    }
}

/// Error of the text-encoding layer.
#[derive(Debug, Clone, PartialEq)]
pub enum PdfError {
    /// Text could not be decoded with the requested encoding
    EncodingError(String),
}

} // verus!
