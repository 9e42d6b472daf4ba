//! Encryption dictionaries (ISO 32000-1, 7.6): the entries of the standard
//! security handler and the algorithm they name.

use vstd::prelude::*;
use crate::error::{ParseError, ParseResult};
use crate::objects::{PdfDictionary, dict_get, entries_view};
use crate::text::{push_signed_decimal, signed_decimal_seq};

verus! {

/// Encryption information extracted from a PDF trailer.
#[derive(Debug, Clone)]
pub struct EncryptionInfo {
    /// Filter name (should be "Standard")
    pub filter: String,
    /// V entry (algorithm version)
    pub v: i32,
    /// R entry (revision)
    pub r: i32,
    /// O entry (owner password hash)
    pub o: Vec<u8>,
    /// U entry (user password hash)
    pub u: Vec<u8>,
    /// P entry (permissions)
    pub p: i32,
    /// Length entry (key length in bits)
    pub length: Option<i32>,
}

/// Why an encryption dictionary was refused.
pub enum EncryptFailure {
    /// `ParseError::MissingKey` with this key
    Missing(Seq<char>),
    /// `ParseError::SyntaxError` at position 0 with this message
    Syntax(Seq<char>),
}

/// Whether `e` is the error that `f` describes.
pub open spec fn is_encrypt_failure(e: ParseError, f: EncryptFailure) -> bool {
    match f {
        EncryptFailure::Missing(k) => e matches ParseError::MissingKey(key) && key@ == k,
        EncryptFailure::Syntax(m) => e matches ParseError::SyntaxError { position, message }
            && position == 0 && message@ == m,
    }
}

/// The first missing or refused entry of an encryption dictionary, in the
/// order they are read; `None` when all are there.
pub open spec fn encryption_dict_failure(
    filter: Option<Seq<char>>,
    r: Option<i64>,
    o: bool,
    u: bool,
    p: Option<i64>,
) -> Option<EncryptFailure> {
    match filter {
        None => Some(EncryptFailure::Missing("Filter"@)),
        Some(f) => if f != "Standard"@ {
            Some(EncryptFailure::Syntax("Encryption filter '"@ + f + "' not supported"@))
        } else if r is None {
            Some(EncryptFailure::Missing("R"@))
        } else if !o {
            Some(EncryptFailure::Missing("O"@))
        } else if !u {
            Some(EncryptFailure::Missing("U"@))
        } else if p is None {
            Some(EncryptFailure::Missing("P"@))
        } else {
            None
        },
    }
}

/// The algorithm named by a revision and key length (40 bits by default).
pub open spec fn algorithm_text(r: i32, length: Option<i32>) -> Seq<char> {
    let len = match length {
        Some(l) => l,
        None => 40i32,
    };
    if r == 2 {
        "RC4 40-bit"@
    } else if r == 3 {
        "RC4 "@ + signed_decimal_seq(len as int) + "-bit"@
    } else if r == 4 {
        "RC4 "@ + signed_decimal_seq(len as int) + "-bit with metadata control"@
    } else if r == 5 {
        "AES-256 (Revision 5)"@
    } else if r == 6 {
        "AES-256 (Revision 6, Unicode passwords)"@
    } else {
        "Unknown revision "@ + signed_decimal_seq(r as int) + " with "@ + signed_decimal_seq(len as int)
            + "-bit key"@
    }
}

/// PDF encryption handler: the encryption information of a document and,
/// once unlocked, its key.
pub struct EncryptionHandler {
    encryption_info: EncryptionInfo,
    encryption_key: Option<Vec<u8>>,
    file_id: Option<Vec<u8>>,
}

impl EncryptionHandler {
    /// The encryption information.
    pub closed spec fn info(&self) -> EncryptionInfo {
        self.encryption_info
    }

    /// Whether a key is held.
    pub closed spec fn has_key(&self) -> bool {
        self.encryption_key is Some
    }

    /// The encryption information from the entries of an encryption
    /// dictionary (each `None` when absent or of another type): Filter,
    /// V, R, O, U, P and Length. Filter must be `Standard`; V defaults to
    /// 0; the integers keep their low 32 bits.
    pub fn parse_encryption_dict(
        filter: Option<String>,
        v: Option<i64>,
        r: Option<i64>,
        o: Option<Vec<u8>>,
        u: Option<Vec<u8>>,
        p: Option<i64>,
        length: Option<i64>,
    ) -> (res: ParseResult<EncryptionInfo>)
        ensures
            match encryption_dict_failure(
                match filter {
                    Some(f) => Some(f@),
                    None => None,
                },
                r,
                o is Some,
                u is Some,
                p,
            ) {
                Some(f) => res matches Err(e) && is_encrypt_failure(e, f),
                None => res matches Ok(info) && info.filter@ == filter.unwrap()@ && info.v == (match v {
                    Some(x) => x as i32,
                    None => 0i32,
                }) && info.r == r.unwrap() as i32 && info.o@ == o.unwrap()@ && info.u@ == u.unwrap()@
                    && info.p == p.unwrap() as i32 && info.length == (match length {
                    Some(x) => Some(x as i32),
                    None => None,
                }),
            },
    {
        proof {
            reveal_strlit("Standard");
        }
        let filter = match filter {
            Some(f) => f,
            None => {
                return Err(ParseError::MissingKey(String::from_str("Filter")));
            },
        };
        if !crate::text::str_eq(filter.as_str(), "Standard") {
            let mut msg = String::from_str("Encryption filter '");
            msg.append(filter.as_str());
            msg.append("' not supported");
            return Err(ParseError::SyntaxError { position: 0, message: msg });
        }
        let v = match v {
            Some(x) => x as i32,
            None => 0,
        };
        let r = match r {
            Some(x) => x as i32,
            None => {
                return Err(ParseError::MissingKey(String::from_str("R")));
            },
        };
        let o = match o {
            Some(x) => x,
            None => {
                return Err(ParseError::MissingKey(String::from_str("O")));
            },
        };
        let u = match u {
            Some(x) => x,
            None => {
                return Err(ParseError::MissingKey(String::from_str("U")));
            },
        };
        let p = match p {
            Some(x) => x as i32,
            None => {
                return Err(ParseError::MissingKey(String::from_str("P")));
            },
        };
        let length = match length {
            Some(x) => Some(x as i32),
            None => None,
        };
        Ok(EncryptionInfo { filter, v, r, o, u, p, length })
    }

    /// A handler for the given encryption information, not yet unlocked:
    /// revisions 2 to 6 are supported.
    pub fn new(encryption_info: EncryptionInfo, file_id: Option<Vec<u8>>) -> (res: ParseResult<Self>)
        ensures
            2 <= encryption_info.r <= 6 ==> (res matches Ok(h) && h.info() == encryption_info
                && !h.has_key()),
            !(2 <= encryption_info.r <= 6) ==> (res matches Err(
                ParseError::SyntaxError { position, message },
            ) && position == 0 && message@ == "Encryption revision "@ + signed_decimal_seq(
                encryption_info.r as int,
            ) + " not supported"@),
    {
        if encryption_info.r < 2 || encryption_info.r > 6 {
            let mut msg = String::from_str("Encryption revision ");
            push_signed_decimal(&mut msg, encryption_info.r as i64);
            msg.append(" not supported");
            return Err(ParseError::SyntaxError { position: 0, message: msg });
        }
        Ok(EncryptionHandler { encryption_info, encryption_key: None, file_id })
    }

    /// Whether a PDF is encrypted: its trailer has an Encrypt entry.
    pub fn detect_encryption(trailer: &PdfDictionary) -> (r: bool)
        ensures
            r == (dict_get(entries_view(trailer.0@), "Encrypt"@) is Some),
    {
        trailer.contains_key("Encrypt")
    }

    /// Whether the PDF is currently unlocked.
    pub fn is_unlocked(&self) -> (r: bool)
        ensures
            r == self.has_key(),
    {
        self.encryption_key.is_some()
    }

    /// The encryption algorithm, from the revision and key length.
    pub fn algorithm_info(&self) -> (s: String)
        ensures
            s@ == algorithm_text(self.info().r, self.info().length),
    {
        let len: i32 = match self.encryption_info.length {
            Some(l) => l,
            None => 40,
        };
        let r = self.encryption_info.r;
        if r == 2 {
            String::from_str("RC4 40-bit")
        } else if r == 3 {
            let mut s = String::from_str("RC4 ");
            push_signed_decimal(&mut s, len as i64);
            s.append("-bit");
            s
        } else if r == 4 {
            let mut s = String::from_str("RC4 ");
            push_signed_decimal(&mut s, len as i64);
            s.append("-bit with metadata control");
            s
        } else if r == 5 {
            String::from_str("AES-256 (Revision 5)")
        } else if r == 6 {
            String::from_str("AES-256 (Revision 6, Unicode passwords)")
        } else {
            let mut s = String::from_str("Unknown revision ");
            push_signed_decimal(&mut s, r as i64);
            s.append(" with ");
            push_signed_decimal(&mut s, len as i64);
            s.append("-bit key");
            s
        }
    }

    /// Strings are always encrypted by the standard security handler.
    pub fn encrypt_strings(&self) -> (r: bool)
        ensures
            r,
    {
        true
    }

    /// Streams are always encrypted by the standard security handler.
    pub fn encrypt_streams(&self) -> (r: bool)
        ensures
            r,
    {
        true
    }

    /// Metadata is taken to be encrypted.
    pub fn encrypt_metadata(&self) -> (r: bool)
        ensures
            r,
    {
        true
    }
}

/// Password prompt result.
#[derive(Debug)]
pub enum PasswordResult {
    /// Password was accepted
    Success,
    /// Password was rejected
    Rejected,
    /// User cancelled password entry
    Cancelled,
}

} // verus!
