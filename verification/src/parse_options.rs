//! Parsing options and the warnings that lenient parsing collects.

use vstd::prelude::*;
use crate::encoding::EncodingType;

verus! {

/// Options for parsing PDF files.
#[derive(Debug, Clone)]
pub struct ParseOptions {
    /// Enable lenient parsing for malformed streams with incorrect Length fields
    pub lenient_streams: bool,
    /// Maximum number of bytes to search ahead when recovering from stream errors
    pub max_recovery_bytes: usize,
    /// Collect warnings instead of failing on recoverable errors
    pub collect_warnings: bool,
    /// Use replacement characters for invalid character sequences
    pub lenient_encoding: bool,
    /// Preferred character encoding for text decoding
    pub preferred_encoding: Option<EncodingType>,
    /// Enable automatic syntax error recovery
    pub lenient_syntax: bool,
    /// Try other decoding strategies when a stream fails to decode
    pub recover_from_stream_errors: bool,
    /// Give empty data for a stream that no strategy decodes
    pub ignore_corrupt_streams: bool,
    /// Accept the output of a decompression that stopped early
    pub partial_content_allowed: bool,
    /// How many recovery strategies may be tried
    pub max_recovery_attempts: usize,
    /// Report each recovery attempt
    pub log_recovery_details: bool,
}

/// The default options: strict streams and syntax, lenient encoding,
/// 1000 recovery bytes, 3 recovery attempts.
pub open spec fn default_options() -> ParseOptions {
    ParseOptions {
        lenient_streams: false,
        max_recovery_bytes: 1000,
        collect_warnings: false,
        lenient_encoding: true,
        preferred_encoding: None,
        lenient_syntax: false,
        recover_from_stream_errors: false,
        ignore_corrupt_streams: false,
        partial_content_allowed: false,
        max_recovery_attempts: 3,
        log_recovery_details: false,
    }
}

impl Default for ParseOptions {
    /// Strict streams and syntax, lenient encoding, 1000 recovery bytes.
    fn default() -> (r: Self)
        ensures
            r == default_options(),
            !r.lenient_streams,
            r.max_recovery_bytes == 1000,
            !r.collect_warnings,
            r.lenient_encoding,
            r.preferred_encoding is None,
            !r.lenient_syntax,
            !r.recover_from_stream_errors,
            !r.ignore_corrupt_streams,
            !r.partial_content_allowed,
            r.max_recovery_attempts == 3,
            !r.log_recovery_details,
    {
        ParseOptions {
            lenient_streams: false,
            max_recovery_bytes: 1000,
            collect_warnings: false,
            lenient_encoding: true,
            preferred_encoding: None,
            lenient_syntax: false,
            recover_from_stream_errors: false,
            ignore_corrupt_streams: false,
            partial_content_allowed: false,
            max_recovery_attempts: 3,
            log_recovery_details: false,
        }
    }
}

impl ParseOptions {
    /// Lenient parsing options for maximum compatibility.
    pub fn lenient() -> (r: Self)
        ensures
            r.lenient_streams,
            r.max_recovery_bytes == 5000,
            r.collect_warnings,
            r.lenient_encoding,
            r.preferred_encoding is None,
            r.lenient_syntax,
            r.recover_from_stream_errors,
            !r.ignore_corrupt_streams,
            r.partial_content_allowed,
            r.max_recovery_attempts == 3,
            !r.log_recovery_details,
    {
        ParseOptions {
            lenient_streams: true,
            max_recovery_bytes: 5000,
            collect_warnings: true,
            lenient_encoding: true,
            preferred_encoding: None,
            lenient_syntax: true,
            recover_from_stream_errors: true,
            ignore_corrupt_streams: false,
            partial_content_allowed: true,
            max_recovery_attempts: 3,
            log_recovery_details: false,
        }
    }

    /// Options that try every stream recovery strategy but still report a
    /// stream that none of them decodes.
    pub fn tolerant() -> (r: Self)
        ensures
            r.lenient_streams,
            r.max_recovery_bytes == 5000,
            r.collect_warnings,
            r.lenient_encoding,
            r.preferred_encoding is None,
            r.lenient_syntax,
            r.recover_from_stream_errors,
            !r.ignore_corrupt_streams,
            r.partial_content_allowed,
            r.max_recovery_attempts == 5,
            !r.log_recovery_details,
    {
        ParseOptions {
            lenient_streams: true,
            max_recovery_bytes: 5000,
            collect_warnings: true,
            lenient_encoding: true,
            preferred_encoding: None,
            lenient_syntax: true,
            recover_from_stream_errors: true,
            ignore_corrupt_streams: false,
            partial_content_allowed: true,
            max_recovery_attempts: 5,
            log_recovery_details: false,
        }
    }

    /// Options that make one quick recovery attempt and then give empty
    /// data for a stream that still does not decode.
    pub fn skip_errors() -> (r: Self)
        ensures
            r.lenient_streams,
            r.max_recovery_bytes == 5000,
            !r.collect_warnings,
            r.lenient_encoding,
            r.preferred_encoding is None,
            r.lenient_syntax,
            r.recover_from_stream_errors,
            r.ignore_corrupt_streams,
            r.partial_content_allowed,
            r.max_recovery_attempts == 1,
            !r.log_recovery_details,
    {
        ParseOptions {
            lenient_streams: true,
            max_recovery_bytes: 5000,
            collect_warnings: false,
            lenient_encoding: true,
            preferred_encoding: None,
            lenient_syntax: true,
            recover_from_stream_errors: true,
            ignore_corrupt_streams: true,
            partial_content_allowed: true,
            max_recovery_attempts: 1,
            log_recovery_details: false,
        }
    }

    /// Strict parsing options for maximum correctness.
    pub fn strict() -> (r: Self)
        ensures
            !r.lenient_streams,
            r.max_recovery_bytes == 0,
            !r.collect_warnings,
            !r.lenient_encoding,
            r.preferred_encoding is None,
            !r.lenient_syntax,
            !r.recover_from_stream_errors,
            !r.ignore_corrupt_streams,
            !r.partial_content_allowed,
            r.max_recovery_attempts == 0,
            !r.log_recovery_details,
    {
        ParseOptions {
            lenient_streams: false,
            max_recovery_bytes: 0,
            collect_warnings: false,
            lenient_encoding: false,
            preferred_encoding: None,
            lenient_syntax: false,
            recover_from_stream_errors: false,
            ignore_corrupt_streams: false,
            partial_content_allowed: false,
            max_recovery_attempts: 0,
            log_recovery_details: false,
        }
    }
}

/// Warnings that can be collected during lenient parsing.
#[derive(Debug)]
pub enum ParseWarning {
    /// Stream length mismatch was corrected
    StreamLengthCorrected {
        declared_length: usize,
        actual_length: usize,
        object_id: Option<(u32, u16)>,
    },
    /// Invalid character encoding was recovered
    InvalidEncoding {
        position: usize,
        recovered_text: String,
        encoding_used: Option<EncodingType>,
        replacement_count: usize,
    },
    /// Missing required key with fallback used
    MissingKeyWithFallback { key: String, fallback_value: String },
    /// Syntax error was recovered
    SyntaxErrorRecovered {
        position: usize,
        expected: String,
        found: String,
        recovery_action: String,
    },
    /// Invalid object reference was skipped
    InvalidReferenceSkipped { object_id: (u32, u16), reason: String },
}

impl Clone for ParseWarning {
    fn clone(&self) -> Self {
        match self {
            ParseWarning::StreamLengthCorrected { declared_length, actual_length, object_id } => {
                let id = match object_id {
                    Some(p) => Some((p.0, p.1)),
                    None => None,
                };
                ParseWarning::StreamLengthCorrected {
                    declared_length: *declared_length,
                    actual_length: *actual_length,
                    object_id: id,
                }
            },
            ParseWarning::InvalidEncoding {
                position,
                recovered_text,
                encoding_used,
                replacement_count,
            } => ParseWarning::InvalidEncoding {
                position: *position,
                recovered_text: recovered_text.clone(),
                encoding_used: *encoding_used,
                replacement_count: *replacement_count,
            },
            ParseWarning::MissingKeyWithFallback { key, fallback_value } =>
                ParseWarning::MissingKeyWithFallback {
                key: key.clone(),
                fallback_value: fallback_value.clone(),
            },
            ParseWarning::SyntaxErrorRecovered { position, expected, found, recovery_action } =>
                ParseWarning::SyntaxErrorRecovered {
                position: *position,
                expected: expected.clone(),
                found: found.clone(),
                recovery_action: recovery_action.clone(),
            },
            ParseWarning::InvalidReferenceSkipped { object_id, reason } =>
                ParseWarning::InvalidReferenceSkipped {
                object_id: (object_id.0, object_id.1),
                reason: reason.clone(),
            },
        }
    }
}

} // verus!
