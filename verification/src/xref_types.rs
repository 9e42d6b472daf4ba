//! Cross-reference entry types (ISO 32000-1, 7.5.8.3).

use vstd::prelude::*;

verus! {

/// Type of a cross-reference stream entry.
#[derive(Debug, Clone, Copy, PartialEq, Eq)]
pub enum XRefEntryType {
    /// Type 0: free object
    Free,
    /// Type 1: uncompressed object at a byte offset
    Uncompressed,
    /// Type 2: object stored in an object stream
    Compressed,
    /// Any other type value up to 255
    Custom(u8),
}

/// The entry type that a numeric type field denotes.
pub open spec fn entry_type_of(value: u64) -> XRefEntryType {
    if value == 0 {
        XRefEntryType::Free
    } else if value == 1 {
        XRefEntryType::Uncompressed
    } else if value == 2 {
        XRefEntryType::Compressed
    } else if value <= 255 {
        XRefEntryType::Custom(value as u8)
    } else {
        XRefEntryType::Free
    }
}

/// Type values 0, 1 and 2 denote free, uncompressed and compressed
/// entries, and give those values back.
pub proof fn lemma_entry_type_standard_values()
    ensures
        entry_type_of(0) == XRefEntryType::Free,
        entry_type_of(1) == XRefEntryType::Uncompressed,
        entry_type_of(2) == XRefEntryType::Compressed,
        entry_type_value(XRefEntryType::Free) == 0,
        entry_type_value(XRefEntryType::Uncompressed) == 1,
        entry_type_value(XRefEntryType::Compressed) == 2,
{
}

/// The numeric type field of an entry type.
pub open spec fn entry_type_value(t: XRefEntryType) -> u8 {
    match t {
        XRefEntryType::Free => 0,
        XRefEntryType::Uncompressed => 1,
        XRefEntryType::Compressed => 2,
        XRefEntryType::Custom(n) => n,
    }
}

impl XRefEntryType {
    /// Parse an entry type from its numeric value; values above 255 count as free.
    pub fn from_value(value: u64) -> (r: Self)
        ensures
            r == entry_type_of(value),
    {
        match value {
            0 => XRefEntryType::Free,
            1 => XRefEntryType::Uncompressed,
            2 => XRefEntryType::Compressed,
            n => {
                if n <= 255 {
                    XRefEntryType::Custom(n as u8)
                } else {
                    XRefEntryType::Free
                }
            },
        }
    }

    /// Whether this type stands for an object in use (everything but `Free`).
    pub fn is_in_use(&self) -> (r: bool)
        ensures
            r == !(*self is Free),
    {
        match self {
            XRefEntryType::Free => false,
            XRefEntryType::Uncompressed => true,
            XRefEntryType::Compressed => true,
            XRefEntryType::Custom(_) => true,
        }
    }

    /// The numeric value of this type.
    pub fn to_value(&self) -> (r: u8)
        ensures
            r == entry_type_value(*self),
    {
        match self {
            XRefEntryType::Free => 0,
            XRefEntryType::Uncompressed => 1,
            XRefEntryType::Compressed => 2,
            XRefEntryType::Custom(n) => *n,
        }
    }
}

/// Reading a type back from its value gives the type again, except for a
/// custom type whose value collides with one of the three standard ones.
pub proof fn lemma_entry_type_value_roundtrip(t: XRefEntryType)
    requires
        !(t matches XRefEntryType::Custom(n) && n <= 2),
    ensures
        entry_type_of(entry_type_value(t) as u64) == t,
{
}

/// Writing the value of a parsed type gives the value back, for every value
/// up to 255.
pub proof fn lemma_entry_value_type_roundtrip(value: u64)
    requires
        value <= 255,
    ensures
        entry_type_value(entry_type_of(value)) == value,
{
}

/// Extended cross-reference entry: type plus its two fields.
#[derive(Debug, Clone, PartialEq)]
pub struct XRefEntryInfo {
    /// Entry type
    pub entry_type: XRefEntryType,
    /// Next free object (free), byte offset (uncompressed) or stream number (compressed)
    pub field2: u64,
    /// Generation (free, uncompressed) or index in the object stream (compressed)
    pub field3: u64,
}

impl XRefEntryInfo {
    /// Create an entry from its type and fields.
    pub fn new(entry_type: XRefEntryType, field2: u64, field3: u64) -> (r: Self)
        ensures
            r == (XRefEntryInfo { entry_type, field2, field3 }),
    {
        XRefEntryInfo { entry_type, field2, field3 }
    }

    /// Byte offset of an uncompressed object.
    pub fn get_offset(&self) -> (r: Option<u64>)
        ensures
            r == (if self.entry_type is Uncompressed { Some(self.field2) } else { None::<u64> }),
    {
        match self.entry_type {
            XRefEntryType::Uncompressed => Some(self.field2),
            _ => None,
        }
    }

    /// Generation number: the low 16 bits of field 3 for free and
    /// uncompressed entries, 0 otherwise.
    pub fn get_generation(&self) -> (r: u16)
        ensures
            r == (if self.entry_type is Free || self.entry_type is Uncompressed {
                self.field3 as u16
            } else {
                0u16
            }),
    {
        match self.entry_type {
            XRefEntryType::Free | XRefEntryType::Uncompressed => self.field3 as u16,
            _ => 0,
        }
    }

    /// Stream number and index of a compressed object (each the low 32 bits).
    pub fn get_compressed_info(&self) -> (r: Option<(u32, u32)>)
        ensures
            r == (if self.entry_type is Compressed {
                Some((self.field2 as u32, self.field3 as u32))
            } else {
                None::<(u32, u32)>
            }),
    {
        match self.entry_type {
            XRefEntryType::Compressed => Some((self.field2 as u32, self.field3 as u32)),
            _ => None,
        }
    }
}

} // verus!
