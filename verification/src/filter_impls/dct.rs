//! DCTDecode (JPEG) inspection (ISO 32000-1, 7.4.8).
//!
//! The JPEG data stays as stored; it is checked for a start and an end
//! marker and its header is scanned for dimensions and color space.

use vstd::prelude::*;
use crate::error::{ParseError, ParseResult};
use crate::text::{be_u16, decimal_seq, push_decimal};

verus! {

/// JPEG header information.
#[derive(Debug, Clone)]
pub struct JpegInfo {
    /// Image width
    pub width: u16,
    /// Image height
    pub height: u16,
    /// Number of color components (1 = gray, 3 = RGB/YCbCr, 4 = CMYK)
    pub components: u8,
    /// Bits per component
    pub bits_per_component: u8,
    /// Color space derived from the component count and the Adobe marker
    pub color_space: JpegColorSpace,
}

/// JPEG color spaces.
#[derive(Debug, Clone, Copy, PartialEq, Eq, Structural)]
pub enum JpegColorSpace {
    /// Grayscale
    Gray,
    /// RGB color
    RGB,
    /// CMYK color
    CMYK,
    /// YCbCr color
    YCbCr,
}

/// What the header scan has collected so far.
pub struct JpegScanState {
    pub width: u16,
    pub height: u16,
    pub components: u8,
    pub bits_per_component: u8,
    pub has_adobe: bool,
    pub adobe_transform: u8,
}

/// The state before any segment is read.
pub open spec fn initial_scan_state() -> JpegScanState {
    JpegScanState {
        width: 0,
        height: 0,
        components: 0,
        bits_per_component: 8,
        has_adobe: false,
        adobe_transform: 0,
    }
}

/// Big-endian 16-bit value at `p`.
pub open spec fn be16(data: Seq<u8>, p: int) -> int {
    data[p] * 256 + data[p + 1]
}

/// Start-of-frame markers whose header gives the dimensions.
pub open spec fn is_sof_marker(m: u8) -> bool {
    m == 0xC0 || m == 0xC1 || m == 0xC2 || m == 0xC9 || m == 0xCA
}

/// Whether `data[p..p+5]` spells "Adobe".
pub open spec fn is_adobe_tag(data: Seq<u8>, p: int) -> bool {
    data[p] == 0x41 && data[p + 1] == 0x64 && data[p + 2] == 0x6F && data[p + 3] == 0x62
        && data[p + 4] == 0x65
}

/// Scan the segments from `pos` on (the loop of the header scan).
pub open spec fn jpeg_segments(data: Seq<u8>, pos: int, st: JpegScanState) -> Result<JpegScanState, Seq<char>>
    decreases data.len() - pos, 0int,
{
    if !(pos < data.len() - 1) || pos < 0 {
        Ok(st)
    } else if data[pos] != 0xFF {
        Err("Invalid JPEG marker at position "@ + decimal_seq(pos as nat))
    } else {
        let marker = data[pos + 1];
        let p = pos + 2;
        if marker == 0xFF {
            jpeg_segments(data, p - 1, st)
        } else if marker == 0xD9 {
            Ok(st)
        } else if 0xD0 <= marker <= 0xD7 {
            jpeg_segments(data, p, st)
        } else if p + 2 > data.len() {
            Err("JPEG segment length missing"@)
        } else {
            let length = be16(data, p);
            let q = p + 2;
            if length < 2 {
                Err("Invalid JPEG segment length"@)
            } else if q + (length - 2) > data.len() {
                Err("JPEG segment extends beyond data"@)
            } else {
                let next = q + (length - 2);
                if is_sof_marker(marker) {
                    if length < 8 {
                        Err("SOF segment too short"@)
                    } else {
                        jpeg_segments(
                            data,
                            next,
                            JpegScanState {
                                bits_per_component: data[q],
                                height: be16(data, q + 1) as u16,
                                width: be16(data, q + 3) as u16,
                                components: data[q + 5],
                                ..st
                            },
                        )
                    }
                } else if marker == 0xEE {
                    if length - 2 >= 12 && q + 12 <= data.len() && is_adobe_tag(data, q) {
                        jpeg_segments(
                            data,
                            next,
                            JpegScanState {
                                has_adobe: true,
                                adobe_transform: if q + 11 < data.len() {
                                    data[q + 11]
                                } else {
                                    st.adobe_transform
                                },
                                ..st
                            },
                        )
                    } else {
                        jpeg_segments(data, next, st)
                    }
                } else if marker == 0xDA {
                    jpeg_skip_scan(data, next, st)
                } else {
                    jpeg_segments(data, next, st)
                }
            }
        }
    }
}

/// Skip entropy-coded scan data up to the next marker (0xFF not followed
/// by 0x00), then go on scanning segments.
pub open spec fn jpeg_skip_scan(data: Seq<u8>, pos: int, st: JpegScanState) -> Result<JpegScanState, Seq<char>>
    decreases data.len() - pos, 1int,
{
    if 0 <= pos < data.len() - 1 && !(data[pos] == 0xFF && data[pos + 1] != 0x00) {
        jpeg_skip_scan(data, pos + 1, st)
    } else {
        jpeg_segments(data, pos, st)
    }
}

/// The color space for a component count, given the Adobe transform flag.
pub open spec fn jpeg_color_space(st: JpegScanState) -> Option<JpegColorSpace> {
    if st.components == 1 {
        Some(JpegColorSpace::Gray)
    } else if st.components == 3 {
        if st.has_adobe && st.adobe_transform == 0 {
            Some(JpegColorSpace::RGB)
        } else {
            Some(JpegColorSpace::YCbCr)
        }
    } else if st.components == 4 {
        Some(JpegColorSpace::CMYK)
    } else {
        None
    }
}

/// What `parse_jpeg_info` gives: the header fields, or an error message.
pub open spec fn jpeg_info_spec(data: Seq<u8>) -> Result<JpegScanState, Seq<char>> {
    if data.len() < 4 {
        Err("JPEG data too short"@)
    } else if data[0] != 0xFF || data[1] != 0xD8 {
        Err("Invalid JPEG: missing SOI marker"@)
    } else {
        match jpeg_segments(data, 2, initial_scan_state()) {
            Err(m) => Err(m),
            Ok(st) => if st.width == 0 || st.height == 0 {
                Err("JPEG dimensions not found"@)
            } else if jpeg_color_space(st) is None {
                Err("Unsupported JPEG component count: "@ + decimal_seq(st.components as nat))
            } else {
                Ok(st)
            },
        }
    }
}

fn stream_error(msg: &str) -> (e: ParseError)
    ensures
        e == ParseError::StreamDecodeError(e->StreamDecodeError_0) && e->StreamDecodeError_0@ == msg@,
{
    ParseError::StreamDecodeError(String::from_str(msg))
}

/// Parse the JPEG header: dimensions, component count, bits per component
/// and color space.
pub fn parse_jpeg_info(data: &[u8]) -> (r: ParseResult<JpegInfo>)
    ensures
        match jpeg_info_spec(data@) {
            Ok(st) => r matches Ok(info) && info.width == st.width && info.height == st.height
                && info.components == st.components && info.bits_per_component
                == st.bits_per_component && Some(info.color_space) == jpeg_color_space(st),
            Err(m) => r matches Err(ParseError::StreamDecodeError(msg)) && msg@ == m,
        },
{
    if data.len() < 4 {
        return Err(stream_error("JPEG data too short"));
    }
    if data[0] != 0xFF || data[1] != 0xD8 {
        return Err(stream_error("Invalid JPEG: missing SOI marker"));
    }
    let mut pos: usize = 2;
    let mut width: u16 = 0;
    let mut height: u16 = 0;
    let mut components: u8 = 0;
    let mut bits_per_component: u8 = 8;
    let mut has_adobe = false;
    let mut adobe_transform: u8 = 0;
    let ghost target = jpeg_segments(data@, 2, initial_scan_state());
    while pos < data.len() - 1
        invariant_except_break
            target == jpeg_segments(
                data@,
                pos as int,
                JpegScanState {
                    width,
                    height,
                    components,
                    bits_per_component,
                    has_adobe,
                    adobe_transform,
                },
            ),
        invariant
            data.len() >= 4,
            data@[0] == 0xFF && data@[1] == 0xD8,
            2 <= pos <= data.len(),
            target == jpeg_segments(data@, 2, initial_scan_state()),
        ensures
            target == Ok::<JpegScanState, Seq<char>>(
                JpegScanState {
                    width,
                    height,
                    components,
                    bits_per_component,
                    has_adobe,
                    adobe_transform,
                },
            ),
        decreases data.len() - pos,
    {
        let ghost st = JpegScanState {
            width,
            height,
            components,
            bits_per_component,
            has_adobe,
            adobe_transform,
        };
        let ghost start = pos;
        if data[pos] != 0xFF {
            assert(target == Err::<JpegScanState, Seq<char>>(
                "Invalid JPEG marker at position "@ + decimal_seq(pos as nat),
            ));
            let mut m = String::from_str("Invalid JPEG marker at position ");
            push_decimal(&mut m, pos as u64);
            return Err(ParseError::StreamDecodeError(m));
        }
        let marker = data[pos + 1];
        pos = pos + 2;
        if marker == 0xFF {
            pos = pos - 1;
            continue;
        }
        if marker == 0xD9 {
            break;
        }
        if 0xD0 <= marker && marker <= 0xD7 {
            continue;
        }
        if data.len() - pos < 2 {
            return Err(stream_error("JPEG segment length missing"));
        }
        let length: u16 = be_u16(data[pos], data[pos + 1]);
        pos = pos + 2;
        if length < 2 {
            return Err(stream_error("Invalid JPEG segment length"));
        }
        let segment_data_length = (length - 2) as usize;
        if segment_data_length > data.len() - pos {
            return Err(stream_error("JPEG segment extends beyond data"));
        }
        if marker == 0xC0 || marker == 0xC1 || marker == 0xC2 || marker == 0xC9 || marker == 0xCA {
            if length < 8 {
                return Err(stream_error("SOF segment too short"));
            }
            bits_per_component = data[pos];
            height = be_u16(data[pos + 1], data[pos + 2]);
            width = be_u16(data[pos + 3], data[pos + 4]);
            components = data[pos + 5];
        } else if marker == 0xEE {
            if segment_data_length >= 12 && pos + 12 <= data.len() {
                if data[pos] == 0x41 && data[pos + 1] == 0x64 && data[pos + 2] == 0x6F && data[pos
                    + 3] == 0x62 && data[pos + 4] == 0x65 {
                    has_adobe = true;
                    if pos + 11 < data.len() {
                        adobe_transform = data[pos + 11];
                    }
                }
            }
        } else if marker == 0xDA {
            pos = pos + segment_data_length;
            while pos < data.len() - 1
                invariant
                    data.len() >= 4,
                    data@[0] == 0xFF && data@[1] == 0xD8,
                    2 <= pos <= data.len(),
                    target == jpeg_skip_scan(data@, pos as int, st),
                    width == st.width,
                    height == st.height,
                    components == st.components,
                    bits_per_component == st.bits_per_component,
                    has_adobe == st.has_adobe,
                    adobe_transform == st.adobe_transform,
                    pos > start,
                ensures
                    target == jpeg_segments(data@, pos as int, st),
                    pos > start,
                    2 <= pos <= data.len(),
                decreases data.len() - pos,
            {
                if data[pos] == 0xFF && data[pos + 1] != 0x00 {
                    break;
                }
                pos = pos + 1;
            }
            continue;
        }
        pos = pos + segment_data_length;
    }
    let ghost fin = JpegScanState {
        width,
        height,
        components,
        bits_per_component,
        has_adobe,
        adobe_transform,
    };
    assert(target == Ok::<JpegScanState, Seq<char>>(fin));
    if width == 0 || height == 0 {
        return Err(stream_error("JPEG dimensions not found"));
    }
    let color_space = if components == 1 {
        JpegColorSpace::Gray
    } else if components == 3 {
        if has_adobe && adobe_transform == 0 {
            JpegColorSpace::RGB
        } else {
            JpegColorSpace::YCbCr
        }
    } else if components == 4 {
        JpegColorSpace::CMYK
    } else {
        let mut m = String::from_str("Unsupported JPEG component count: ");
        push_decimal(&mut m, components as u64);
        return Err(ParseError::StreamDecodeError(m));
    };
    Ok(JpegInfo { width, height, components, bits_per_component, color_space })
}

/// Whether an end-of-image marker (0xFF 0xD9) occurs somewhere in the data.
pub open spec fn has_eoi_marker(data: Seq<u8>) -> bool {
    exists|i: int| 1 <= i < data.len() && #[trigger] data[i - 1] == 0xFF && data[i] == 0xD9
}

/// What `validate_jpeg` accepts: at least 4 bytes, a start-of-image marker
/// first and an end-of-image marker somewhere.
pub open spec fn jpeg_valid_spec(data: Seq<u8>) -> Result<(), Seq<char>> {
    if data.len() < 4 {
        Err("JPEG data too short"@)
    } else if data[0] != 0xFF || data[1] != 0xD8 {
        Err("Invalid JPEG: missing SOI marker"@)
    } else if !has_eoi_marker(data) {
        Err("Invalid JPEG: missing EOI marker"@)
    } else {
        Ok(())
    }
}

/// Validate the JPEG structure: start and end markers. The header scan is
/// run too, but its outcome does not affect the result.
pub fn validate_jpeg(data: &[u8]) -> (r: ParseResult<()>)
    ensures
        match jpeg_valid_spec(data@) {
            Ok(_) => r is Ok,
            Err(m) => r matches Err(ParseError::StreamDecodeError(msg)) && msg@ == m,
        },
{
    if data.len() < 4 {
        return Err(stream_error("JPEG data too short"));
    }
    if data[0] != 0xFF || data[1] != 0xD8 {
        return Err(stream_error("Invalid JPEG: missing SOI marker"));
    }
    let len = data.len();
    if data[len - 2] != 0xFF || data[len - 1] != 0xD9 {
        let mut found_eoi = false;
        let mut i: usize = len - 1;
        while i >= 1
            invariant_except_break
                !found_eoi,
            invariant
                len == data.len(),
                len >= 4,
                i < len,
                forall|j: int| i < j < len ==> !(#[trigger] data@[j - 1] == 0xFF && data@[j] == 0xD9),
            ensures
                found_eoi ==> 1 <= i < len && data@[i - 1] == 0xFF && data@[i as int] == 0xD9,
                !found_eoi ==> forall|j: int| 0 < j < len ==> !(#[trigger] data@[j - 1] == 0xFF && data@[j] == 0xD9),
            decreases i,
        {
            if data[i - 1] == 0xFF && data[i] == 0xD9 {
                found_eoi = true;
                break;
            }
            i = i - 1;
        }
        if !found_eoi {
            assert(!has_eoi_marker(data@)) by {
                if has_eoi_marker(data@) {
                    let w = choose|j: int| 1 <= j < data@.len() && #[trigger] data@[j - 1] == 0xFF && data@[j] == 0xD9;
                    assert(!(data@[w - 1] == 0xFF && data@[w] == 0xD9));
                }
            }
            return Err(stream_error("Invalid JPEG: missing EOI marker"));
        }
        assert(data@[i - 1] == 0xFF && data@[i as int] == 0xD9);
    } else {
        assert(data@[(len - 1) - 1] == 0xFF && data@[len - 1] == 0xD9);
    }
    let _ = parse_jpeg_info(data);
    Ok(())
}

/// DCTDecode: validate the JPEG structure and return the data unchanged.
pub fn decode_dct(data: &[u8]) -> (r: ParseResult<Vec<u8>>)
    ensures
        match jpeg_valid_spec(data@) {
            Ok(_) => r matches Ok(v) && v@ == data@,
            Err(m) => r matches Err(ParseError::StreamDecodeError(msg)) && msg@ == m,
        },
{
    match validate_jpeg(data) {
        Ok(()) => Ok(crate::text::bytes_to_vec(data)),
        Err(e) => Err(e),
    }
}

} // verus!
