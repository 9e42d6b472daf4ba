//! JBIG2Decode (ISO 32000-1, 7.4.7): segment scanning of JBIG2 data.
//!
//! The decoder walks the segment headers and collects the data of the
//! region and dictionary segments; it does not render the bitmap.

use vstd::prelude::*;
use crate::error::{ParseError, ParseResult};
use crate::objects::{dict_get, entries_view, PdfDictionary};
use crate::text::{be_u32, extend_from_range};

verus! {

/// JBIG2 decode parameters from the DecodeParms dictionary.
#[derive(Debug, Clone)]
pub struct Jbig2DecodeParams {
    /// Global data stream (present when the dictionary has a JBIG2Globals entry)
    pub jbig2_globals: Option<Vec<u8>>,
}

impl Default for Jbig2DecodeParams {
    fn default() -> (r: Self)
        ensures
            r.jbig2_globals is None,
    {
        Jbig2DecodeParams { jbig2_globals: None }
    }
}

impl Jbig2DecodeParams {
    /// Parameters for a DecodeParms dictionary that has (or lacks) a
    /// JBIG2Globals entry; the global data itself is not extracted, so its
    /// presence is recorded as an empty stream.
    pub fn from_globals_entry(has_globals: bool) -> (r: Self)
        ensures
            has_globals ==> (r.jbig2_globals matches Some(g) && g@.len() == 0),
            !has_globals ==> r.jbig2_globals is None,
    {
        if has_globals {
            Jbig2DecodeParams { jbig2_globals: Some(Vec::new()) }
        } else {
            Jbig2DecodeParams { jbig2_globals: None }
        }
    }
}

/// JBIG2 segment header information.
#[derive(Debug, Clone)]
pub struct Jbig2SegmentHeader {
    /// Segment number
    pub segment_number: u32,
    /// Segment header flags
    pub flags: u8,
    /// Segment type (low six bits of the flags)
    pub segment_type: u8,
    /// Page association
    pub page_association: u32,
    /// Data length
    pub data_length: u32,
}

/// Big-endian 32-bit value at `p`.
pub open spec fn be32(data: Seq<u8>, p: int) -> u32 {
    (((data[p] * 256 + data[p + 1]) * 256 + data[p + 2]) * 256 + data[p + 3]) as u32
}

/// Whether the flags announce a four-byte page association.
pub open spec fn has_long_page_association(flags: u8) -> bool {
    flags & 0x40u8 != 0
}

/// The segment header at `pos`, if the data holds one.
pub open spec fn segment_header_at(data: Seq<u8>, pos: int) -> Option<Jbig2SegmentHeader> {
    if data.len() - pos < 11 {
        None
    } else {
        let flags = data[pos + 4];
        let long = has_long_page_association(flags);
        let len_start = if long { 9int } else { 6int };
        if data.len() - pos < len_start + 4 {
            None
        } else {
            Some(
                Jbig2SegmentHeader {
                    segment_number: be32(data, pos),
                    flags,
                    segment_type: flags & 0x3Fu8,
                    page_association: if long { be32(data, pos + 5) } else { data[pos + 5] as u32 },
                    data_length: be32(data, pos + len_start),
                },
            )
        }
    }
}

/// The length the decoder assigns to a segment header: 11 bytes with a
/// four-byte page association, 7 otherwise.
pub open spec fn segment_header_length(flags: u8) -> int {
    if has_long_page_association(flags) {
        11
    } else {
        7
    }
}

/// Segment data collected from a file-organised stream, from `pos` on.
pub open spec fn collect_file_segments(data: Seq<u8>, pos: int, acc: Seq<u8>) -> Seq<u8>
    decreases data.len() - pos,
{
    if pos < 0 || pos >= data.len() || pos + 11 > data.len() {
        acc
    } else {
        match segment_header_at(data, pos) {
            None => acc,
            Some(seg) => {
                let p = pos + segment_header_length(seg.flags);
                if seg.data_length == 0xFFFF_FFFFu32 {
                    acc
                } else {
                    let end = p + seg.data_length;
                    if end > data.len() {
                        acc
                    } else {
                        let acc2 = if seg.segment_type == 0 || seg.segment_type == 4 {
                            acc + data.subrange(p, end)
                        } else {
                            acc
                        };
                        collect_file_segments(data, end, acc2)
                    }
                }
            },
        }
    }
}

/// Segment types whose data an embedded stream keeps: symbol dictionaries,
/// text regions and halftone regions.
pub open spec fn is_kept_embedded_type(t: u8) -> bool {
    t == 0 || t == 4 || t == 6 || t == 7 || t == 36 || t == 38 || t == 39
}

/// Segment data collected from an embedded stream, from `pos` on; data
/// that does not parse as a header is kept as it stands.
pub open spec fn collect_embedded_segments(data: Seq<u8>, pos: int, acc: Seq<u8>) -> Seq<u8>
    decreases data.len() - pos,
{
    if pos < 0 || pos + 11 > data.len() {
        acc
    } else {
        match segment_header_at(data, pos) {
            None => acc + data.subrange(pos, data.len() as int),
            Some(seg) => {
                let p = pos + segment_header_length(seg.flags);
                if seg.data_length == 0xFFFF_FFFFu32 {
                    acc
                } else {
                    let end = p + seg.data_length;
                    if end > data.len() {
                        acc
                    } else {
                        let acc2 = if is_kept_embedded_type(seg.segment_type) {
                            acc + data.subrange(p, end)
                        } else {
                            acc
                        };
                        collect_embedded_segments(data, end, acc2)
                    }
                }
            },
        }
    }
}

/// Whether the data starts with the JBIG2 file identifier.
pub open spec fn has_jbig2_file_id(data: Seq<u8>) -> bool {
    data.len() >= 8 && data[0] == 0x97 && data[1] == 0x4A && data[2] == 0x42 && data[3] == 0x32
        && data[4] == 0x0D && data[5] == 0x0A && data[6] == 0x1A && data[7] == 0x0A
}

/// What an embedded stream decodes to.
pub open spec fn embedded_result(data: Seq<u8>) -> Seq<u8> {
    let c = collect_embedded_segments(data, 0, Seq::empty());
    if c.len() == 0 {
        data
    } else {
        c
    }
}

/// What `decode` gives: the collected segment data, or an error message.
pub open spec fn jbig2_decode_spec(data: Seq<u8>) -> Result<Seq<u8>, Seq<char>> {
    if data.len() < 9 {
        Err("JBIG2 data too short"@)
    } else if !has_jbig2_file_id(data) {
        Ok(embedded_result(data))
    } else if data[8] & 0x01u8 != 0 {
        Err("Random access JBIG2 files not supported"@)
    } else {
        let c = collect_file_segments(data, 9, Seq::empty());
        if c.len() == 0 {
            if data.len() > 9 {
                Ok(data.subrange(9, data.len() as int))
            } else {
                Ok(data)
            }
        } else {
            Ok(c)
        }
    }
}

/// Decoding fails exactly on data shorter than nine bytes and on a file
/// (with the JBIG2 file identifier) whose organisation flag asks for
/// random access; what it gives otherwise is never empty.
pub proof fn lemma_jbig2_outcome(data: Seq<u8>)
    ensures
        jbig2_decode_spec(data) is Err <==> (data.len() < 9 || (has_jbig2_file_id(data) && data[8] & 0x01u8
            != 0)),
        jbig2_decode_spec(data) matches Ok(v) ==> v.len() > 0,
{
}

/// JBIG2 decoder.
pub struct Jbig2Decoder {
    /// Decode parameters
    pub params: Jbig2DecodeParams,
}

impl Jbig2Decoder {
    /// Create a decoder with the given parameters.
    pub fn new(params: Jbig2DecodeParams) -> (d: Self)
        ensures
            d.params == params,
    {
        Jbig2Decoder { params }
    }

    fn read_be32(data: &[u8], p: usize) -> (r: u32)
        requires
            p + 4 <= data.len(),
        ensures
            r == be32(data@, p as int),
    {
        be_u32(data[p], data[p + 1], data[p + 2], data[p + 3])
    }

    fn parse_segment_header_at(&self, data: &[u8], pos: usize) -> (r: ParseResult<Jbig2SegmentHeader>)
        requires
            pos <= data.len(),
        ensures
            match segment_header_at(data@, pos as int) {
                Some(h) => r matches Ok(s) && s == h,
                None => r matches Err(ParseError::StreamDecodeError(_)),
            },
    {
        if data.len() - pos < 11 {
            return Err(ParseError::StreamDecodeError(String::from_str("JBIG2 segment header too short")));
        }
        let segment_number = Self::read_be32(data, pos);
        let flags = data[pos + 4];
        let segment_type = flags & 0x3F;
        let long = flags & 0x40 != 0;
        let page_association = if long {
            Self::read_be32(data, pos + 5)
        } else {
            data[pos + 5] as u32
        };
        let data_length_start: usize = if long {
            9
        } else {
            6
        };
        if data.len() - pos < data_length_start + 4 {
            return Err(ParseError::StreamDecodeError(String::from_str("JBIG2 segment header incomplete")));
        }
        let data_length = Self::read_be32(data, pos + data_length_start);
        Ok(Jbig2SegmentHeader { segment_number, flags, segment_type, page_association, data_length })
    }

    /// Parse the segment header at the start of `data`.
    pub fn parse_segment_header(&self, data: &[u8]) -> (r: ParseResult<Jbig2SegmentHeader>)
        ensures
            match segment_header_at(data@, 0) {
                Some(h) => r matches Ok(s) && s == h,
                None => r matches Err(ParseError::StreamDecodeError(_)),
            },
    {
        self.parse_segment_header_at(data, 0)
    }

    /// The length of a segment header as the decoder counts it.
    pub fn get_segment_header_length(&self, segment: &Jbig2SegmentHeader) -> (r: usize)
        ensures
            r == segment_header_length(segment.flags),
    {
        if segment.flags & 0x40 != 0 {
            11
        } else {
            7
        }
    }

    /// Decode JBIG2 data embedded in a PDF stream (no file header).
    pub fn decode_embedded_stream(&self, data: &[u8]) -> (r: ParseResult<Vec<u8>>)
        ensures
            r matches Ok(v) && v@ == embedded_result(data@),
    {
        let mut pos: usize = 0;
        let mut decoded: Vec<u8> = Vec::new();
        let ghost target = collect_embedded_segments(data@, 0, Seq::empty());
        while pos <= data.len() && data.len() - pos >= 11
            invariant_except_break
                target == collect_embedded_segments(data@, pos as int, decoded@),
            invariant
                pos <= data.len(),
            ensures
                target == decoded@,
            decreases data.len() - pos,
        {
            match self.parse_segment_header_at(data, pos) {
                Ok(segment) => {
                    let header_len = self.get_segment_header_length(&segment);
                    let p = pos + header_len;
                    if segment.data_length != 0xFFFF_FFFF {
                        if segment.data_length as usize <= data.len() - p {
                            let end = p + segment.data_length as usize;
                            let t = segment.segment_type;
                            if t == 0 || t == 4 || t == 6 || t == 7 || t == 36 || t == 38 || t == 39 {
                                extend_from_range(&mut decoded, data, p, end);
                            }
                            pos = end;
                        } else {
                            break;
                        }
                    } else {
                        break;
                    }
                },
                Err(_) => {
                    extend_from_range(&mut decoded, data, pos, data.len());
                    break;
                },
            }
        }
        if decoded.len() == 0 {
            Ok(crate::text::bytes_to_vec(data))
        } else {
            Ok(decoded)
        }
    }

    /// Decode JBIG2 data: a file-organised stream (with the JBIG2 file
    /// identifier) or an embedded one.
    pub fn decode(&self, data: &[u8]) -> (r: ParseResult<Vec<u8>>)
        ensures
            match jbig2_decode_spec(data@) {
                Ok(v) => r matches Ok(w) && w@ == v,
                Err(m) => r matches Err(ParseError::StreamDecodeError(msg)) && msg@ == m,
            },
    {
        if data.len() < 9 {
            return Err(ParseError::StreamDecodeError(String::from_str("JBIG2 data too short")));
        }
        if !(data[0] == 0x97 && data[1] == 0x4A && data[2] == 0x42 && data[3] == 0x32 && data[4] == 0x0D
            && data[5] == 0x0A && data[6] == 0x1A && data[7] == 0x0A) {
            return self.decode_embedded_stream(data);
        }
        let file_org_flags = data[8];
        if file_org_flags & 0x01 != 0 {
            return Err(
                ParseError::StreamDecodeError(String::from_str("Random access JBIG2 files not supported")),
            );
        }
        let mut pos: usize = 9;
        let mut decoded: Vec<u8> = Vec::new();
        let ghost target = collect_file_segments(data@, 9, Seq::empty());
        while pos < data.len()
            invariant_except_break
                target == collect_file_segments(data@, pos as int, decoded@),
            invariant
                pos <= data.len(),
            ensures
                target == decoded@,
            decreases data.len() - pos,
        {
            if data.len() - pos < 11 {
                break;
            }
            match self.parse_segment_header_at(data, pos) {
                Ok(segment) => {
                    pos = pos + self.get_segment_header_length(&segment);
                    if segment.data_length == 0xFFFF_FFFF {
                        break;
                    } else {
                        if segment.data_length as usize > data.len() - pos {
                            break;
                        }
                        let segment_end = pos + segment.data_length as usize;
                        if segment.segment_type == 0 || segment.segment_type == 4 {
                            extend_from_range(&mut decoded, data, pos, segment_end);
                        }
                        pos = segment_end;
                    }
                },
                Err(_) => {
                    break;
                },
            }
        }
        if decoded.len() == 0 {
            let start: usize = if data.len() > 9 {
                9
            } else {
                0
            };
            let mut out: Vec<u8> = Vec::new();
            extend_from_range(&mut out, data, start, data.len());
            assert(data@.subrange(0, data@.len() as int) =~= data@);
            Ok(out)
        } else {
            Ok(decoded)
        }
    }
}

/// JBIG2Decode with optional parameters (defaults when absent).
pub fn decode_jbig2_with_params(data: &[u8], params: Option<Jbig2DecodeParams>) -> (r: ParseResult<Vec<u8>>)
    ensures
        match jbig2_decode_spec(data@) {
            Ok(v) => r matches Ok(w) && w@ == v,
            Err(m) => r matches Err(ParseError::StreamDecodeError(msg)) && msg@ == m,
        },
{
    let decode_params = match params {
        Some(p) => p,
        None => Jbig2DecodeParams::default(),
    };
    let decoder = Jbig2Decoder::new(decode_params);
    decoder.decode(data)
}

impl Jbig2DecodeParams {
    /// Parameters from a DecodeParms dictionary: a JBIG2Globals entry is
    /// noted, with no data read from it.
    pub fn from_dict(dict: &PdfDictionary) -> (r: Self)
        ensures
            dict_get(entries_view(dict.0@), "JBIG2Globals"@) is Some ==> (r.jbig2_globals matches Some(g) && g@.len()
                == 0),
            dict_get(entries_view(dict.0@), "JBIG2Globals"@) is None ==> r.jbig2_globals is None,
    {
        Self::from_globals_entry(dict.contains_key("JBIG2Globals"))
    }
}

/// JBIG2Decode with the parameters of an optional DecodeParms dictionary.
pub fn decode_jbig2(data: &[u8], params: Option<&PdfDictionary>) -> (r: ParseResult<Vec<u8>>)
    ensures
        match jbig2_decode_spec(data@) {
            Ok(v) => r matches Ok(w) && w@ == v,
            Err(m) => r matches Err(ParseError::StreamDecodeError(msg)) && msg@ == m,
        },
{
    let decode_params = match params {
        Some(dict) => Some(Jbig2DecodeParams::from_dict(dict)),
        None => None,
    };
    decode_jbig2_with_params(data, decode_params)
}

} // verus!
