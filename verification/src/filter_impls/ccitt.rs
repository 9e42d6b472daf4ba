//! CCITTFaxDecode (ISO 32000-1, 7.4.6): Group 3 one-dimensional decoding
//! with a reduced code table, and Group 4 data passed through at row size.

use vstd::prelude::*;
use crate::error::{ParseError, ParseResult};
use crate::objects::{dict_get, entries_view, ObjectView, PdfDictionary, PdfObject};

verus! {

/// CCITT compression types.
#[derive(Debug, Clone, Copy, PartialEq, Eq, Structural)]
pub enum CcittK {
    /// Pure two-dimensional encoding (Group 4), K = -1
    Group4,
    /// Pure one-dimensional encoding (Group 3, 1-D), K = 0
    Group3OneDimensional,
    /// Mixed one- and two-dimensional encoding (Group 3, 2-D), K > 0
    Group3TwoDimensional,
}

impl CcittK {
    /// The K value that stands for this type: -1, 0 or 1.
    pub fn to_i32(&self) -> (r: i32)
        ensures
            r == (match *self {
                CcittK::Group4 => -1i32,
                CcittK::Group3OneDimensional => 0i32,
                CcittK::Group3TwoDimensional => 1i32,
            }),
    {
        match self {
            CcittK::Group4 => -1,
            CcittK::Group3OneDimensional => 0,
            CcittK::Group3TwoDimensional => 1,
        }
    }
}

/// CCITT decode parameters from the DecodeParms dictionary.
#[derive(Debug, Clone)]
pub struct CcittDecodeParams {
    /// Compression type
    pub k: CcittK,
    /// Width of the image in pixels
    pub columns: u32,
    /// Height of the image in pixels (0 means unlimited)
    pub rows: u32,
    /// End-of-line pattern required
    pub end_of_line: bool,
    /// Rows start on byte boundaries
    pub encoded_byte_align: bool,
    /// End-of-block pattern expected
    pub end_of_block: bool,
    /// 1 bits stand for black pixels
    pub black_is_1: bool,
    /// Damaged rows before an error
    pub damaged_rows_before_error: u32,
}

impl Default for CcittDecodeParams {
    /// Group 3 1-D, 1728 columns, unlimited rows, end-of-block expected.
    fn default() -> (r: Self)
        ensures
            r.k == CcittK::Group3OneDimensional,
            r.columns == 1728,
            r.rows == 0,
            !r.end_of_line,
            !r.encoded_byte_align,
            r.end_of_block,
            !r.black_is_1,
            r.damaged_rows_before_error == 0,
    {
        CcittDecodeParams {
            k: CcittK::Group3OneDimensional,
            columns: 1728,
            rows: 0,
            end_of_line: false,
            encoded_byte_align: false,
            end_of_block: true,
            black_is_1: false,
            damaged_rows_before_error: 0,
        }
    }
}

/// The compression type a K entry selects.
pub open spec fn k_from_value(k: i64) -> CcittK {
    if k == -1 {
        CcittK::Group4
    } else if k > 0 {
        CcittK::Group3TwoDimensional
    } else {
        CcittK::Group3OneDimensional
    }
}

impl CcittDecodeParams {
    /// Parameters from the entries of a DecodeParms dictionary (each `None`
    /// when absent or of another type): K, Columns (or Width), Rows (or
    /// Height), EndOfLine, EncodedByteAlign, EndOfBlock, BlackIs1 and
    /// DamagedRowsBeforeError. Absent entries keep their defaults; Columns
    /// is raised to at least 1 and Rows and DamagedRowsBeforeError to at
    /// least 0, and each then keeps its low 32 bits.
    pub fn from_entries(
        k: Option<i64>,
        columns: Option<i64>,
        width: Option<i64>,
        rows: Option<i64>,
        height: Option<i64>,
        end_of_line: Option<bool>,
        encoded_byte_align: Option<bool>,
        end_of_block: Option<bool>,
        black_is_1: Option<bool>,
        damaged_rows_before_error: Option<i64>,
    ) -> (r: Self)
        ensures
            r.k == (match k {
                Some(v) => k_from_value(v),
                None => CcittK::Group3OneDimensional,
            }),
            r.columns == (match (if columns is Some { columns } else { width }) {
                Some(c) => (if c < 1 { 1 } else { c }) as u32,
                None => 1728u32,
            }),
            r.rows == (match (if rows is Some { rows } else { height }) {
                Some(c) => (if c < 0 { 0 } else { c }) as u32,
                None => 0u32,
            }),
            r.end_of_line == (match end_of_line {
                Some(b) => b,
                None => false,
            }),
            r.encoded_byte_align == (match encoded_byte_align {
                Some(b) => b,
                None => false,
            }),
            r.end_of_block == (match end_of_block {
                Some(b) => b,
                None => true,
            }),
            r.black_is_1 == (match black_is_1 {
                Some(b) => b,
                None => false,
            }),
            r.damaged_rows_before_error == (match damaged_rows_before_error {
                Some(c) => (if c < 0 { 0 } else { c }) as u32,
                None => 0u32,
            }),
    {
        let mut params = CcittDecodeParams::default();
        if let Some(k_val) = k {
            params.k = if k_val == -1 {
                CcittK::Group4
            } else if k_val == 0 {
                CcittK::Group3OneDimensional
            } else if k_val > 0 {
                CcittK::Group3TwoDimensional
            } else {
                CcittK::Group3OneDimensional
            };
        }
        let cols = if columns.is_some() {
            columns
        } else {
            width
        };
        if let Some(c) = cols {
            let c = if c < 1 {
                1
            } else {
                c
            };
            params.columns = c as u32;
        }
        let rws = if rows.is_some() {
            rows
        } else {
            height
        };
        if let Some(r) = rws {
            let r = if r < 0 {
                0
            } else {
                r
            };
            params.rows = r as u32;
        }
        if let Some(b) = end_of_line {
            params.end_of_line = b;
        }
        if let Some(b) = encoded_byte_align {
            params.encoded_byte_align = b;
        }
        if let Some(b) = end_of_block {
            params.end_of_block = b;
        }
        if let Some(b) = black_is_1 {
            params.black_is_1 = b;
        }
        if let Some(d) = damaged_rows_before_error {
            let d = if d < 0 {
                0
            } else {
                d
            };
            params.damaged_rows_before_error = d as u32;
        }
        params
    }
}

/// The bit at bit position `k` (most significant bit first).
pub open spec fn bit_at(data: Seq<u8>, k: int) -> u8 {
    (data[k / 8] >> (7 - k % 8) as u8) & 1u8
}

/// The value of `n` bits from bit position `pos`, most significant first.
pub open spec fn bits_value(data: Seq<u8>, pos: int, n: nat) -> int
    decreases n,
{
    if n == 0 {
        0
    } else {
        bits_value(data, pos, (n - 1) as nat) * 2 + bit_at(data, pos + n - 1)
    }
}

/// Bit reader over encoded data, most significant bit first.
pub struct BitReader<'a> {
    data: &'a [u8],
    byte_pos: usize,
    bit_pos: u8,
}

impl<'a> BitReader<'a> {
    #[verifier::type_invariant]
    spec fn well_formed(&self) -> bool {
        &&& self.bit_pos < 8
        &&& self.byte_pos <= self.data.len()
        &&& self.bit_pos != 0 ==> self.byte_pos < self.data.len()
    }

    /// The data being read.
    pub closed spec fn bytes(&self) -> Seq<u8> {
        self.data@
    }

    /// The bit position of the next bit.
    pub closed spec fn position(&self) -> int {
        self.byte_pos * 8 + self.bit_pos
    }

    /// Number of bits in the data.
    pub open spec fn total_bits(&self) -> int {
        self.bytes().len() * 8int
    }

    /// A reader at the start of `data`.
    pub fn new(data: &'a [u8]) -> (r: Self)
        ensures
            r.bytes() == data@,
            r.position() == 0,
    {
        BitReader { data, byte_pos: 0, bit_pos: 0 }
    }

    /// Read one bit; `None` at the end of the data.
    pub fn read_bit(&mut self) -> (r: Option<u8>)
        ensures
            final(self).bytes() == old(self).bytes(),
            old(self).position() < old(self).total_bits() ==> r == Some(
                bit_at(old(self).bytes(), old(self).position()),
            ) && final(self).position() == old(self).position() + 1,
            old(self).position() >= old(self).total_bits() ==> r is None && final(self).position()
                == old(self).position(),
            final(self).position() <= final(self).total_bits(),
    {
        proof {
            use_type_invariant(&*self);
        }
        if self.byte_pos >= self.data.len() {
            return None;
        }
        let byte = self.data[self.byte_pos];
        let bit = (byte >> (7 - self.bit_pos)) & 1;
        let ghost k = self.byte_pos * 8 + self.bit_pos;
        assert(k / 8 == self.byte_pos && k % 8 == self.bit_pos);
        if self.bit_pos + 1 >= 8 {
            *self = BitReader { data: self.data, byte_pos: self.byte_pos + 1, bit_pos: 0 };
        } else {
            *self = BitReader { data: self.data, byte_pos: self.byte_pos, bit_pos: self.bit_pos + 1 };
        }
        Some(bit)
    }

    /// Read `count` bits (at most 16) as a number, most significant first.
    /// More than 16 gives `None` and reads nothing; running out of data
    /// gives `None` after reading to the end.
    pub fn read_bits(&mut self, count: u8) -> (r: Option<u16>)
        ensures
            final(self).bytes() == old(self).bytes(),
            count > 16 ==> r is None && final(self).position() == old(self).position(),
            count <= 16 && old(self).position() + count <= old(self).total_bits() ==> r == Some(
                bits_value(old(self).bytes(), old(self).position(), count as nat) as u16,
            ) && final(self).position() == old(self).position() + count,
            count <= 16 && old(self).position() + count > old(self).total_bits() ==> r is None
                && final(self).position() == old(self).total_bits(),
    {
        if count > 16 {
            return None;
        }
        proof {
            use_type_invariant(&*self);
        }
        let ghost start = self.position();
        let mut result: u16 = 0;
        let mut i: u8 = 0;
        while i < count
            invariant
                i <= count <= 16,
                self.bytes() == old(self).bytes(),
                self.position() == start + i,
                self.position() <= self.total_bits(),
                start == old(self).position(),
                start + i <= self.total_bits(),
                result == bits_value(self.bytes(), start, i as nat),
                result < pow2_16(i as nat),
            decreases count - i,
        {
            match self.read_bit() {
                Some(bit) => {
                    proof {
                        lemma_pow2_16_bound(i as nat);
                        lemma_bit_at_le1(self.bytes(), start + i);
                        lemma_bits_value_step(self.bytes(), start, i as nat);
                    }
                    result = result * 2 + bit as u16;
                },
                None => {
                    return None;
                },
            }
            i = i + 1;
        }
        Some(result)
    }

    /// Skip to the next byte boundary.
    pub fn align_to_byte(&mut self)
        ensures
            final(self).bytes() == old(self).bytes(),
            old(self).position() % 8 == 0 ==> final(self).position() == old(self).position(),
            old(self).position() % 8 != 0 ==> final(self).position() == (old(self).position() / 8
                + 1) * 8,
    {
        proof {
            use_type_invariant(&*self);
        }
        if self.bit_pos != 0 {
            *self = BitReader { data: self.data, byte_pos: self.byte_pos + 1, bit_pos: 0 };
        }
    }

    /// Whether bits remain to be read.
    pub fn has_data(&self) -> (r: bool)
        ensures
            r == (self.position() < self.total_bits()),
    {
        proof {
            use_type_invariant(self);
        }
        if self.data.len() == 0 {
            return false;
        }
        self.byte_pos < self.data.len() || (self.byte_pos == self.data.len() - 1 && self.bit_pos < 8)
    }
}

/// 2 to the power `n`, for `n` up to 16.
pub open spec fn pow2_16(n: nat) -> int
    decreases n,
{
    if n == 0 {
        1
    } else {
        2 * pow2_16((n - 1) as nat)
    }
}

proof fn lemma_pow2_16_bound(n: nat)
    requires
        n <= 15,
    ensures
        pow2_16(n) <= 32768,
    decreases 15 - n,
{
    if n < 15 {
        lemma_pow2_16_bound(n + 1);
    } else {
        reveal_with_fuel(pow2_16, 16);
    }
}

pub proof fn lemma_bit_at_le1(data: Seq<u8>, k: int)
    ensures
        bit_at(data, k) <= 1,
{
    let b = data[k / 8];
    let sh = (7 - k % 8) as u8;
    assert((b >> sh) & 1u8 <= 1u8) by (bit_vector);
}

proof fn lemma_bits_value_step(data: Seq<u8>, pos: int, i: nat)
    ensures
        bits_value(data, pos, i + 1) == bits_value(data, pos, i) * 2 + bit_at(data, pos + i),
        pow2_16(i + 1) == 2 * pow2_16(i),
{
}

/// A byte assembled from bits, first bit most significant (wrapping).
pub open spec fn pack_byte(s: Seq<u8>) -> u8
    decreases s.len(),
{
    if s.len() == 0 {
        0
    } else {
        ((pack_byte(s.drop_last()) << 1u8) | s.last()) as u8
    }
}

/// Bits packed into bytes, eight per byte; a final partial byte is padded
/// with zero bits.
pub open spec fn packed_row(bits: Seq<u8>) -> Seq<u8>
    decreases bits.len(),
{
    if bits.len() == 0 {
        Seq::empty()
    } else if bits.len() < 8 {
        seq![(pack_byte(bits) << ((8 - bits.len()) as u8)) as u8]
    } else {
        seq![pack_byte(bits.take(8))] + packed_row(bits.skip(8))
    }
}

/// Pixels mapped to output bits: as they are when 1 is black, inverted otherwise.
pub open spec fn mapped_pixels(row: Seq<u8>, black_is_1: bool) -> Seq<u8> {
    Seq::new(row.len(), |i: int| if black_is_1 { row[i] } else { (1 - row[i]) as u8 })
}

proof fn lemma_packed_row_split(s: Seq<u8>, k: int)
    requires
        0 <= k <= s.len(),
        k % 8 == 0,
    ensures
        packed_row(s) == packed_row(s.take(k)) + packed_row(s.skip(k)),
    decreases k,
{
    if k == 0 {
        assert(s.take(0) =~= Seq::<u8>::empty());
        assert(s.skip(0) =~= s);
        assert(packed_row(Seq::<u8>::empty()) =~= Seq::<u8>::empty());
        assert(packed_row(s) =~= Seq::<u8>::empty() + packed_row(s));
    } else {
        lemma_packed_row_split(s.skip(8), k - 8);
        assert(s.skip(8).take(k - 8) =~= s.take(k).skip(8));
        assert(s.skip(8).skip(k - 8) =~= s.skip(k));
        assert(s.take(k).take(8) =~= s.take(8));
        assert(packed_row(s.take(k)) =~= seq![pack_byte(s.take(8))] + packed_row(s.take(k).skip(8)));
        assert(packed_row(s) =~= seq![pack_byte(s.take(8))] + packed_row(s.skip(8)));
    }
}

/// CCITT Group 3 one-dimensional (T.4) decoder.
pub struct Group3OneDDecoder {
    /// Decode parameters
    pub params: CcittDecodeParams,
}

impl Group3OneDDecoder {
    /// Create a decoder with the given parameters.
    pub fn new(params: CcittDecodeParams) -> (d: Self)
        ensures
            d.params == params,
    {
        Group3OneDDecoder { params }
    }

    /// Pack a decoded row into bytes (8 pixels per byte, first pixel most
    /// significant, a final partial byte padded with zero bits) and append
    /// them to `result`. Pixels are written as they are when BlackIs1 is set
    /// and inverted otherwise.
    pub fn add_row_to_result(&self, row: &[u8], result: &mut Vec<u8>)
        requires
            !self.params.black_is_1 ==> forall|i: int| 0 <= i < row.len() ==> row[i] <= 1,
        ensures
            final(result)@ == old(result)@ + packed_row(mapped_pixels(row@, self.params.black_is_1)),
    {
        let ghost m = mapped_pixels(row@, self.params.black_is_1);
        let mut byte: u8 = 0;
        let mut bit_count: usize = 0;
        let mut i: usize = 0;
        while i < row.len()
            invariant
                i <= row.len(),
                m == mapped_pixels(row@, self.params.black_is_1),
                !self.params.black_is_1 ==> forall|j: int| 0 <= j < row.len() ==> row[j] <= 1,
                bit_count < 8,
                bit_count <= i,
                (i - bit_count) % 8 == 0,
                result@ == old(result)@ + packed_row(m.take(i - bit_count)),
                byte == pack_byte(m.subrange(i - bit_count, i as int)),
            decreases row.len() - i,
        {
            let pixel = row[i];
            let bit = if self.params.black_is_1 {
                pixel
            } else {
                1 - pixel
            };
            let ghost k = i - bit_count;
            assert(m.subrange(k, i + 1).drop_last() =~= m.subrange(k, i as int));
            byte = (byte << 1) | bit;
            bit_count = bit_count + 1;
            if bit_count == 8 {
                proof {
                    let t = m.take(i + 1);
                    lemma_packed_row_split(t, k);
                    assert(t.take(k) =~= m.take(k));
                    assert(t.skip(k) =~= m.subrange(k, i + 1));
                    assert(m.subrange(k, i + 1).take(8) =~= m.subrange(k, i + 1));
                    assert(m.subrange(k, i + 1).skip(8) =~= Seq::<u8>::empty());
                    assert(packed_row(Seq::<u8>::empty()) =~= Seq::<u8>::empty());
                    assert(byte == pack_byte(m.subrange(k, i + 1)));
                    assert(packed_row(m.subrange(k, i + 1)) =~= seq![byte]);
                }
                result.push(byte);
                byte = 0;
                bit_count = 0;
                assert(m.subrange(i + 1, i + 1) =~= Seq::<u8>::empty());
            }
            i = i + 1;
        }
        let ghost k = i - bit_count;
        proof {
            lemma_packed_row_split(m, k);
            assert(m.take(i as int) =~= m);
        }
        if bit_count > 0 {
            byte = byte << ((8 - bit_count) as u8);
            result.push(byte);
            assert(packed_row(m.skip(k)) =~= seq![byte]) by {
                assert(m.skip(k) =~= m.subrange(k, i as int));
            }
        } else {
            assert(m.skip(k) =~= Seq::<u8>::empty());
            assert(packed_row(m.skip(k)) =~= Seq::<u8>::empty());
        }
    }
}

/// White make-up code of five bits: 64 or 128 pixels, or 0 for no make-up code.
pub open spec fn white_makeup_value(v: int) -> int {
    if v == 0x1B {
        64
    } else if v == 0x12 {
        128
    } else {
        0
    }
}

/// Black make-up code of six bits: 64 or 128 pixels, or 0 for no make-up code.
pub open spec fn black_makeup_value(v: int) -> int {
    if v == 0x01 {
        64
    } else if v == 0x03 {
        128
    } else {
        0
    }
}

/// White terminating code of eight bits (reduced table).
pub open spec fn white_terminating_value(v: int) -> int {
    let hi = v / 16;
    if hi == 3 {
        0
    } else if hi == 2 {
        1
    } else if hi == 1 {
        2
    } else if hi == 0 {
        3
    } else {
        v % 64
    }
}

/// Black terminating code of eight bits (reduced table).
pub open spec fn black_terminating_value(v: int) -> int {
    let hi = v / 32;
    if hi == 0 {
        0
    } else if hi == 1 {
        1
    } else if hi == 2 {
        2
    } else if hi == 3 {
        3
    } else {
        v % 64
    }
}

/// Length of the run at bit position `pos`: a make-up attempt (5 bits for
/// white, 6 for black) followed by a terminating code (8 bits); `None` when
/// the data ends first.
pub open spec fn run_length_at(data: Seq<u8>, pos: int, white: bool) -> Option<int> {
    let m = if white { 5int } else { 6int };
    if pos + m + 8 > data.len() * 8 {
        None
    } else if white {
        Some(white_makeup_value(bits_value(data, pos, 5)) + white_terminating_value(bits_value(data, pos + 5, 8)))
    } else {
        Some(black_makeup_value(bits_value(data, pos, 6)) + black_terminating_value(bits_value(data, pos + 6, 8)))
    }
}

/// Bits one run consumes: 13 for white, 14 for black.
pub open spec fn run_bits(white: bool) -> int {
    if white {
        13
    } else {
        14
    }
}

/// The pixels of a row from `position` to `len`, filled run by run from bit
/// position `pos` starting with the color `white`, and the final bit position.
pub open spec fn row_runs(data: Seq<u8>, pos: int, len: int, position: int, white: bool) -> Option<
    (Seq<u8>, int),
>
    decreases data.len() * 8 - pos,
{
    if position >= len {
        Some((Seq::empty(), pos))
    } else {
        match run_length_at(data, pos, white) {
            None => None,
            Some(run) => {
                let end = if position + run < len {
                    position + run
                } else {
                    len
                };
                let color: u8 = if white {
                    0
                } else {
                    1
                };
                match row_runs(data, pos + run_bits(white), len, end, !white) {
                    None => None,
                    Some((rest, fp)) => Some((Seq::new((end - position) as nat, |_i: int| color) + rest, fp)),
                }
            },
        }
    }
}

/// The bit position just past the first end-of-line pattern (eleven or
/// more zero bits then a one) from `pos`, given `zeros` zero bits already seen.
pub open spec fn eol_search(data: Seq<u8>, pos: int, zeros: int) -> Option<int>
    decreases data.len() * 8 - pos,
{
    if pos < 0 || pos >= data.len() * 8 {
        None
    } else if bit_at(data, pos) == 0 {
        eol_search(data, pos + 1, if zeros < 11 { zeros + 1 } else { 11 })
    } else if zeros >= 11 {
        Some(pos + 1)
    } else {
        eol_search(data, pos + 1, 0)
    }
}

pub proof fn lemma_run_bits_value(data: Seq<u8>, pos: int, n: nat)
    ensures
        0 <= bits_value(data, pos, n) < pow2_16(n),
    decreases n,
{
    if n > 0 {
        lemma_run_bits_value(data, pos, (n - 1) as nat);
        lemma_bit_at_le1(data, pos + n - 1);
    }
}

proof fn lemma_byte_fields(v: u16)
    requires
        v < 256,
    ensures
        (v >> 4u16) == v / 16,
        (v >> 5u16) == v / 32,
        (v & 0x3Fu16) == v % 64,
{
    assert(v < 256 ==> (v >> 4u16) == v / 16 && (v >> 5u16) == v / 32 && (v & 0x3Fu16) == v % 64) by (bit_vector);
}

impl Group3OneDDecoder {
    /// Try a white make-up code (five bits): 64 or 128 pixels, else `None`.
    /// The five bits are consumed either way.
    pub fn try_decode_white_makeup(&self, reader: &mut BitReader) -> (r: ParseResult<Option<usize>>)
        ensures
            final(reader).bytes() == old(reader).bytes(),
            old(reader).position() + 5 <= old(reader).total_bits() ==> final(reader).position()
                == old(reader).position() + 5 && (r matches Ok(o) && (match o {
                Some(n) => n == white_makeup_value(bits_value(old(reader).bytes(), old(reader).position(), 5))
                    && n != 0,
                None => white_makeup_value(bits_value(old(reader).bytes(), old(reader).position(), 5)) == 0,
            })),
            old(reader).position() + 5 > old(reader).total_bits() ==> final(reader).position()
                == old(reader).total_bits() && r == Ok::<Option<usize>, ParseError>(None),
    {
        proof {
            lemma_run_bits_value(old(reader).bytes(), old(reader).position(), 5);
            reveal_with_fuel(pow2_16, 7);
        }
        match reader.read_bits(5) {
            Some(bits) => {
                if bits == 0x1B {
                    Ok(Some(64))
                } else if bits == 0x12 {
                    Ok(Some(128))
                } else {
                    Ok(None)
                }
            },
            None => Ok(None),
        }
    }

    /// Try a black make-up code (six bits): 64 or 128 pixels, else `None`.
    /// The six bits are consumed either way.
    pub fn try_decode_black_makeup(&self, reader: &mut BitReader) -> (r: ParseResult<Option<usize>>)
        ensures
            final(reader).bytes() == old(reader).bytes(),
            old(reader).position() + 6 <= old(reader).total_bits() ==> final(reader).position()
                == old(reader).position() + 6 && (r matches Ok(o) && (match o {
                Some(n) => n == black_makeup_value(bits_value(old(reader).bytes(), old(reader).position(), 6))
                    && n != 0,
                None => black_makeup_value(bits_value(old(reader).bytes(), old(reader).position(), 6)) == 0,
            })),
            old(reader).position() + 6 > old(reader).total_bits() ==> final(reader).position()
                == old(reader).total_bits() && r == Ok::<Option<usize>, ParseError>(None),
    {
        proof {
            lemma_run_bits_value(old(reader).bytes(), old(reader).position(), 6);
            reveal_with_fuel(pow2_16, 7);
        }
        match reader.read_bits(6) {
            Some(bits) => {
                if bits == 0x01 {
                    Ok(Some(64))
                } else if bits == 0x03 {
                    Ok(Some(128))
                } else {
                    Ok(None)
                }
            },
            None => Ok(None),
        }
    }

    /// Decode a white terminating code (eight bits).
    pub fn decode_white_terminating(&self, reader: &mut BitReader) -> (r: ParseResult<usize>)
        ensures
            final(reader).bytes() == old(reader).bytes(),
            old(reader).position() + 8 <= old(reader).total_bits() ==> final(reader).position()
                == old(reader).position() + 8 && (r matches Ok(n) && n == white_terminating_value(
                bits_value(old(reader).bytes(), old(reader).position(), 8),
            )),
            old(reader).position() + 8 > old(reader).total_bits() ==> final(reader).position()
                == old(reader).total_bits() && r matches Err(ParseError::StreamDecodeError(_)),
    {
        proof {
            lemma_run_bits_value(old(reader).bytes(), old(reader).position(), 8);
            reveal_with_fuel(pow2_16, 9);
        }
        match reader.read_bits(8) {
            Some(bits) => {
                proof {
                    lemma_byte_fields(bits);
                }
                let hi = bits >> 4;
                if hi == 3 {
                    Ok(0)
                } else if hi == 2 {
                    Ok(1)
                } else if hi == 1 {
                    Ok(2)
                } else if hi == 0 {
                    Ok(3)
                } else {
                    Ok((bits & 0x3F) as usize)
                }
            },
            None => Err(
                ParseError::StreamDecodeError(
                    String::from_str("Unexpected end of data while decoding white run"),
                ),
            ),
        }
    }

    /// Decode a black terminating code (eight bits).
    pub fn decode_black_terminating(&self, reader: &mut BitReader) -> (r: ParseResult<usize>)
        ensures
            final(reader).bytes() == old(reader).bytes(),
            old(reader).position() + 8 <= old(reader).total_bits() ==> final(reader).position()
                == old(reader).position() + 8 && (r matches Ok(n) && n == black_terminating_value(
                bits_value(old(reader).bytes(), old(reader).position(), 8),
            )),
            old(reader).position() + 8 > old(reader).total_bits() ==> final(reader).position()
                == old(reader).total_bits() && r matches Err(ParseError::StreamDecodeError(_)),
    {
        proof {
            lemma_run_bits_value(old(reader).bytes(), old(reader).position(), 8);
            reveal_with_fuel(pow2_16, 9);
        }
        match reader.read_bits(8) {
            Some(bits) => {
                proof {
                    lemma_byte_fields(bits);
                }
                let hi = bits >> 5;
                if hi == 0 {
                    Ok(0)
                } else if hi == 1 {
                    Ok(1)
                } else if hi == 2 {
                    Ok(2)
                } else if hi == 3 {
                    Ok(3)
                } else {
                    Ok((bits & 0x3F) as usize)
                }
            },
            None => Err(
                ParseError::StreamDecodeError(
                    String::from_str("Unexpected end of data while decoding black run"),
                ),
            ),
        }
    }

    /// Decode a white run: optional make-up code then terminating code.
    pub fn decode_white_run(&self, reader: &mut BitReader) -> (r: ParseResult<usize>)
        ensures
            final(reader).bytes() == old(reader).bytes(),
            match run_length_at(old(reader).bytes(), old(reader).position(), true) {
                Some(n) => r == Ok::<usize, ParseError>(n as usize) && final(reader).position()
                    == old(reader).position() + 13,
                None => r matches Err(ParseError::StreamDecodeError(_)) && final(reader).position()
                    == old(reader).total_bits(),
            },
    {
        if let Some(makeup_length) = self.try_decode_white_makeup(reader)? {
            let term_length = self.decode_white_terminating(reader)?;
            return Ok(makeup_length + term_length);
        }
        self.decode_white_terminating(reader)
    }

    /// Decode a black run: optional make-up code then terminating code.
    pub fn decode_black_run(&self, reader: &mut BitReader) -> (r: ParseResult<usize>)
        ensures
            final(reader).bytes() == old(reader).bytes(),
            match run_length_at(old(reader).bytes(), old(reader).position(), false) {
                Some(n) => r == Ok::<usize, ParseError>(n as usize) && final(reader).position()
                    == old(reader).position() + 14,
                None => r matches Err(ParseError::StreamDecodeError(_)) && final(reader).position()
                    == old(reader).total_bits(),
            },
    {
        if let Some(makeup_length) = self.try_decode_black_makeup(reader)? {
            let term_length = self.decode_black_terminating(reader)?;
            return Ok(makeup_length + term_length);
        }
        self.decode_black_terminating(reader)
    }
}

/// The color of a run: 0 for white, 1 for black.
pub open spec fn run_color(white: bool) -> u8 {
    if white {
        0
    } else {
        1
    }
}

pub proof fn lemma_row_runs_facts(data: Seq<u8>, pos: int, len: int, position: int, white: bool)
    requires
        0 <= pos,
        0 <= position,
    ensures
        row_runs(data, pos, len, position, white) matches Some((r, fp)) ==> {
            &&& r.len() == (if position < len { len - position } else { 0 })
            &&& fp >= pos
            &&& (position < len ==> fp >= pos + 13)
            &&& fp <= data.len() * 8 || fp == pos
            &&& forall|i: int| 0 <= i < r.len() ==> #[trigger] r[i] <= 1
        },
    decreases data.len() * 8 - pos,
{
    if position < len {
        if let Some(run) = run_length_at(data, pos, white) {
            let end = if position + run < len {
                position + run
            } else {
                len
            };
            lemma_run_length_nonneg(data, pos, white);
            lemma_row_runs_facts(data, pos + run_bits(white), len, end, !white);
            if let Some((rest, fp)) = row_runs(data, pos + run_bits(white), len, end, !white) {
                let fill = Seq::new((end - position) as nat, |_i: int| run_color(white));
                let r = fill + rest;
                assert forall|i: int| 0 <= i < r.len() implies #[trigger] r[i] <= 1 by {
                    if i < fill.len() {
                        assert(r[i] == fill[i]);
                    } else {
                        assert(r[i] == rest[i - fill.len()]);
                    }
                }
            }
        }
    }
}

pub proof fn lemma_run_length_nonneg(data: Seq<u8>, pos: int, white: bool)
    ensures
        run_length_at(data, pos, white) matches Some(run) ==> 0 <= run <= 191,
{
    lemma_run_bits_value(data, pos, 5);
    lemma_run_bits_value(data, pos, 6);
    lemma_run_bits_value(data, pos + 5, 8);
    lemma_run_bits_value(data, pos + 6, 8);
}

pub proof fn lemma_eol_search_facts(data: Seq<u8>, pos: int, zeros: int)
    ensures
        eol_search(data, pos, zeros) matches Some(np) ==> pos < np <= data.len() * 8,
    decreases data.len() * 8 - pos,
{
    if 0 <= pos < data.len() * 8 {
        if bit_at(data, pos) == 0 {
            lemma_eol_search_facts(data, pos + 1, if zeros < 11 { zeros + 1 } else { 11 });
        } else if zeros < 11 {
            lemma_eol_search_facts(data, pos + 1, 0);
        }
    }
}

/// The bit position after skipping to the next byte boundary.
pub open spec fn align_position(pos: int) -> int {
    if pos % 8 == 0 {
        pos
    } else {
        (pos / 8 + 1) * 8
    }
}

/// Whether Group 3 decoding with these parameters always ends: every row
/// reads some bits, or the row count is bounded.
pub open spec fn g3_terminates(params: CcittDecodeParams) -> bool {
    params.columns > 0 || params.rows > 0 || params.end_of_line
}

/// The rows decoded from bit position `pos` on, appended to `acc`; `count`
/// rows were decoded before (counted only when the row count is bounded).
#[verifier::opaque]
pub open spec fn g3_rows(data: Seq<u8>, params: CcittDecodeParams, pos: int, count: int, acc: Seq<u8>) -> Option<
    Seq<u8>,
>
    decreases (if params.rows > 0 { params.rows - count } else { 0 }), data.len() * 8 - pos,
    when (g3_terminates(params) || data.len() == 0) && 0 <= pos && 0 <= count
{
    if !(pos < data.len() * 8 && (params.rows == 0 || count < params.rows)) {
        Some(acc)
    } else {
        let p1 = if params.end_of_line {
            eol_search(data, pos, 0)
        } else {
            Some(pos)
        };
        match p1 {
            None => None,
            Some(p1) => match row_runs(data, p1, params.columns as int, 0, true) {
                None => None,
                Some((row, p2)) => {
                    let acc2 = acc + packed_row(mapped_pixels(row, params.black_is_1));
                    let p3 = if params.encoded_byte_align {
                        align_position(p2)
                    } else {
                        p2
                    };
                    proof {
                        lemma_eol_search_facts(data, pos, 0);
                        lemma_row_runs_facts(data, p1, params.columns as int, 0, true);
                    }
                    g3_rows(
                        data,
                        params,
                        p3,
                        if params.rows > 0 {
                            count + 1
                        } else {
                            count
                        },
                        acc2,
                    )
                },
            },
        }
    }
}

/// Bytes per row for Group 4 data: the column count rounded up to bytes.
pub open spec fn g4_bytes_per_row(columns: u32) -> int {
    columns / 8 + if columns % 8 != 0 {
        1int
    } else {
        0int
    }
}

/// Number of rows the Group 4 decoder produces.
pub open spec fn g4_rows(data_len: int, params: CcittDecodeParams) -> int {
    if params.rows > 0 {
        params.rows as int
    } else {
        ((data_len as u32) as int) / (if g4_bytes_per_row(params.columns) > 0 {
            g4_bytes_per_row(params.columns)
        } else {
            1
        })
    }
}

/// What the Group 4 decoder gives: the data cut or zero-padded to the
/// expected size.
pub open spec fn g4_output(data: Seq<u8>, params: CcittDecodeParams) -> Seq<u8> {
    let expected = g4_bytes_per_row(params.columns) * g4_rows(data.len() as int, params);
    if data.len() >= expected {
        data.take(expected)
    } else {
        data + Seq::new((expected - data.len()) as nat, |_i: int| 0u8)
    }
}

impl Group3OneDDecoder {
    /// Skip an end-of-line pattern (eleven or more zero bits then a one).
    /// When none is found the reader ends at the end of the data, and that
    /// is an error only when EndOfLine is required.
    pub fn skip_eol(&self, reader: &mut BitReader) -> (r: ParseResult<()>)
        ensures
            final(reader).bytes() == old(reader).bytes(),
            match eol_search(old(reader).bytes(), old(reader).position(), 0) {
                Some(np) => r is Ok && final(reader).position() == np,
                None => final(reader).position() == old(reader).total_bits() && (r is Ok
                    <==> !self.params.end_of_line) && (r is Err ==> r matches Err(
                    ParseError::StreamDecodeError(_),
                )),
            },
    {
        proof {
            use_type_invariant(&*reader);
        }
        let mut zero_count: u8 = 0;
        let ghost target = eol_search(old(reader).bytes(), old(reader).position(), 0);
        while reader.has_data()
            invariant
                reader.bytes() == old(reader).bytes(),
                target == eol_search(old(reader).bytes(), old(reader).position(), 0),
                target == eol_search(reader.bytes(), reader.position(), zero_count as int),
                zero_count <= 11,
                0 <= reader.position() <= reader.total_bits(),
            decreases reader.total_bits() - reader.position(),
        {
            match reader.read_bit() {
                Some(bit) => {
                    if bit == 0 {
                        if zero_count < 11 {
                            zero_count = zero_count + 1;
                        }
                    } else if zero_count >= 11 {
                        return Ok(());
                    } else {
                        zero_count = 0;
                    }
                },
                None => {
                    return Ok(());
                },
            }
        }
        if !self.params.end_of_line {
            return Ok(());
        }
        Err(ParseError::StreamDecodeError(String::from_str("Expected EOL pattern not found")))
    }

    /// Decode one row of `row.len()` pixels, run by run starting with white.
    pub fn decode_row(&self, reader: &mut BitReader, row: &mut Vec<u8>) -> (r: ParseResult<()>)
        ensures
            final(reader).bytes() == old(reader).bytes(),
            final(row)@.len() == old(row)@.len(),
            match row_runs(old(reader).bytes(), old(reader).position(), old(row)@.len() as int, 0, true) {
                Some((fill, fp)) => r is Ok && final(row)@ == fill && final(reader).position() == fp,
                None => r matches Err(ParseError::StreamDecodeError(_)) && final(reader).position()
                    == old(reader).total_bits(),
            },
    {
        proof {
            use_type_invariant(&*reader);
        }
        let len = row.len();
        let mut position: usize = 0;
        let mut is_white = true;
        let ghost target = row_runs(old(reader).bytes(), old(reader).position(), len as int, 0, true);
        proof {
            lemma_row_runs_facts(old(reader).bytes(), old(reader).position(), len as int, 0, true);
        }
        while position < len
            invariant
                row@.len() == len,
                len == old(row)@.len(),
                position <= len,
                reader.bytes() == old(reader).bytes(),
                0 <= reader.position() <= reader.total_bits(),
                old(reader).position() >= 0,
                target == row_runs(old(reader).bytes(), old(reader).position(), len as int, 0, true),
                target == (match row_runs(reader.bytes(), reader.position(), len as int, position as int, is_white) {
                    Some((rest, fp)) => Some((row@.take(position as int) + rest, fp)),
                    None => None::<(Seq<u8>, int)>,
                }),
            decreases reader.total_bits() - reader.position(),
        {
            let ghost p0 = reader.position();
            proof {
                lemma_run_length_nonneg(reader.bytes(), p0, is_white);
            }
            let decoded = if is_white {
                self.decode_white_run(reader)
            } else {
                self.decode_black_run(reader)
            };
            let run_length = match decoded {
                Ok(n) => n,
                Err(e) => {
                    return Err(e);
                },
            };
            let color: u8 = if is_white {
                0
            } else {
                1
            };
            let end_pos = if run_length < len - position {
                position + run_length
            } else {
                len
            };
            let ghost before = row@;
            let mut j = position;
            while j < end_pos
                invariant
                    position <= j <= end_pos <= len,
                    row@.len() == len,
                    before.len() == len,
                    forall|t: int| 0 <= t < position ==> row@[t] == before[t],
                    forall|t: int| position <= t < j ==> row@[t] == color,
                decreases end_pos - j,
            {
                row.set(j, color);
                j = j + 1;
            }
            proof {
                assert(row@.take(end_pos as int) =~= before.take(position as int) + Seq::new(
                    (end_pos - position) as nat,
                    |_i: int| run_color(is_white),
                ));
            }
            position = end_pos;
            is_white = !is_white;
        }
        proof {
            assert(row@.take(len as int) =~= row@);
        }
        Ok(())
    }
}

/// Where the row after an optional end-of-line pattern starts.
pub open spec fn g3_row_start(data: Seq<u8>, params: CcittDecodeParams, pos: int) -> Option<int> {
    if params.end_of_line {
        eol_search(data, pos, 0)
    } else {
        Some(pos)
    }
}

proof fn lemma_g3_rows_step(data: Seq<u8>, params: CcittDecodeParams, pos: int, count: int, acc: Seq<u8>)
    requires
        g3_terminates(params) || data.len() == 0,
        0 <= pos < data.len() * 8,
        0 <= count,
        params.rows == 0 || count < params.rows,
    ensures
        g3_row_start(data, params, pos) is None ==> g3_rows(data, params, pos, count, acc) is None,
        g3_row_start(data, params, pos) matches Some(p1) ==> (match row_runs(
            data,
            p1,
            params.columns as int,
            0,
            true,
        ) {
            None => g3_rows(data, params, pos, count, acc) is None,
            Some((row, p2)) => g3_rows(data, params, pos, count, acc) == g3_rows(
                data,
                params,
                if params.encoded_byte_align {
                    align_position(p2)
                } else {
                    p2
                },
                if params.rows > 0 {
                    count + 1
                } else {
                    count
                },
                acc + packed_row(mapped_pixels(row, params.black_is_1)),
            ),
        }),
{
    reveal(g3_rows);
    lemma_eol_search_facts(data, pos, 0);
    if let Some(p1) = g3_row_start(data, params, pos) {
        lemma_row_runs_facts(data, p1, params.columns as int, 0, true);
    }
}

proof fn lemma_g3_rows_done(data: Seq<u8>, params: CcittDecodeParams, pos: int, count: int, acc: Seq<u8>)
    requires
        g3_terminates(params) || data.len() == 0,
        0 <= pos,
        0 <= count,
        !(pos < data.len() * 8 && (params.rows == 0 || count < params.rows)),
    ensures
        g3_rows(data, params, pos, count, acc) == Some(acc),
{
    reveal(g3_rows);
}

impl Group3OneDDecoder {
    /// Decode Group 3 one-dimensional data: while bits remain (and fewer than
    /// Rows rows were decoded, when Rows is set), skip an end-of-line pattern
    /// if EndOfLine is set, decode a row of Columns pixels, append it packed
    /// to the output, and skip to a byte boundary if EncodedByteAlign is set.
    #[verifier::spinoff_prover]
    #[verifier::rlimit(40)]
    pub fn decode(&self, data: &[u8]) -> (r: ParseResult<Vec<u8>>)
        requires
            g3_terminates(self.params) || data.len() == 0,
        ensures
            match g3_rows(data@, self.params, 0, 0, Seq::empty()) {
                Some(v) => r matches Ok(w) && w@ == v,
                None => r matches Err(ParseError::StreamDecodeError(_)),
            },
    {
        let mut reader = BitReader::new(data);
        let mut result: Vec<u8> = Vec::new();
        let columns = self.params.columns as usize;
        let mut current_row: Vec<u8> = Vec::new();
        while current_row.len() < columns
            invariant
                current_row.len() <= columns,
            decreases columns - current_row.len(),
        {
            current_row.push(0);
        }
        let mut row_count: u32 = 0;
        let ghost target = g3_rows(data@, self.params, 0, 0, Seq::empty());
        assert(result@ =~= Seq::<u8>::empty());
        while reader.has_data() && (self.params.rows == 0 || row_count < self.params.rows)
            invariant
                g3_terminates(self.params) || data.len() == 0,
                reader.bytes() == data@,
                0 <= reader.position() <= reader.total_bits(),
                current_row@.len() == self.params.columns as int,
                self.params.rows == 0 ==> row_count == 0,
                self.params.rows > 0 ==> row_count <= self.params.rows,
                target == g3_rows(data@, self.params, 0, 0, Seq::empty()),
                target == g3_rows(data@, self.params, reader.position(), row_count as int, result@),
            decreases (if self.params.rows > 0 { self.params.rows - row_count } else { 0 }),
                reader.total_bits() - reader.position(),
        {
            let ghost p0 = reader.position();
            let ghost c0 = row_count as int;
            let ghost acc0 = result@;
            proof {
                lemma_g3_rows_step(data@, self.params, p0, c0, acc0);
            }
            if self.params.end_of_line {
                match self.skip_eol(&mut reader) {
                    Ok(()) => {},
                    Err(e) => {
                        return Err(e);
                    },
                }
            }
            let ghost p1 = reader.position();
            proof {
                lemma_eol_search_facts(data@, p0, 0);
            }
            match self.decode_row(&mut reader, &mut current_row) {
                Ok(()) => {},
                Err(e) => {
                    return Err(e);
                },
            }
            proof {
                lemma_row_runs_facts(data@, p1, self.params.columns as int, 0, true);
            }
            self.add_row_to_result(&current_row, &mut result);
            if self.params.rows > 0 {
                row_count = row_count + 1;
            }
            if self.params.encoded_byte_align {
                reader.align_to_byte();
            }
        }
        proof {
            lemma_g3_rows_done(data@, self.params, reader.position(), row_count as int, result@);
        }
        Ok(result)
    }
}

/// CCITT Group 4 (T.6) decoder: the data is passed through, cut or
/// zero-padded to the size of the image.
pub struct Group4Decoder {
    /// Decode parameters
    pub params: CcittDecodeParams,
}

impl Group4Decoder {
    /// Create a decoder with the given parameters.
    pub fn new(params: CcittDecodeParams) -> (d: Self)
        ensures
            d.params == params,
    {
        Group4Decoder { params }
    }

    /// The data cut or zero-padded to bytes-per-row times the row count;
    /// with Rows unset, the row count is the number of whole rows in the data.
    pub fn decode(&self, data: &[u8]) -> (r: ParseResult<Vec<u8>>)
        requires
            self.params.rows > 0 ==> g4_bytes_per_row(self.params.columns) * self.params.rows
                <= u32::MAX,
        ensures
            r matches Ok(v) && v@ == g4_output(data@, self.params),
    {
        let columns = self.params.columns;
        let bytes_per_row: u32 = columns / 8 + if columns % 8 != 0 {
            1
        } else {
            0
        };
        let divisor: u32 = if bytes_per_row > 0 {
            bytes_per_row
        } else {
            1
        };
        let total_rows: u32 = if self.params.rows > 0 {
            self.params.rows
        } else {
            (data.len() as u32) / divisor
        };
        proof {
            if self.params.rows == 0 {
                let n = (data.len() as u32) as int;
                assert(total_rows as int == n / divisor as int);
                assert(divisor as int * (n / divisor as int) <= n) by (nonlinear_arith)
                    requires divisor > 0, n >= 0;
                if bytes_per_row == 0 {
                    assert(bytes_per_row * total_rows == 0);
                } else {
                    assert(bytes_per_row * total_rows <= n);
                }
            }
        }
        let expected_size = (bytes_per_row * total_rows) as usize;
        let mut result: Vec<u8> = Vec::new();
        if data.len() >= expected_size {
            crate::text::extend_from_range(&mut result, data, 0, expected_size);
            assert(result@ =~= data@.take(expected_size as int));
        } else {
            crate::text::extend_from_range(&mut result, data, 0, data.len());
            assert(result@ =~= data@);
            while result.len() < expected_size
                invariant
                    data.len() <= result.len() <= expected_size,
                    result@.take(data.len() as int) == data@,
                    forall|i: int| data.len() <= i < result.len() ==> result@[i] == 0u8,
                decreases expected_size - result.len(),
            {
                result.push(0);
            }
            assert(result@ =~= data@ + Seq::new((expected_size - data.len()) as nat, |_i: int| 0u8));
        }
        Ok(result)
    }
}

/// CCITTFaxDecode with optional parameters (defaults when absent): Group 3
/// data, one- or two-dimensional, goes through the one-dimensional decoder,
/// Group 4 data through the Group 4 decoder.
pub fn decode_ccitt_with_params(data: &[u8], params: Option<CcittDecodeParams>) -> (r: ParseResult<Vec<u8>>)
    requires
        match params {
            Some(p) => (p.k == CcittK::Group4 && (p.rows > 0 ==> g4_bytes_per_row(p.columns) * p.rows
                <= u32::MAX)) || (p.k != CcittK::Group4 && (g3_terminates(p) || data.len() == 0)),
            None => true,
        },
    ensures
        ({
            let p = match params {
                Some(p) => p,
                None => ccitt_default_params(),
            };
            if p.k == CcittK::Group4 {
                r matches Ok(v) && v@ == g4_output(data@, p)
            } else {
                match g3_rows(data@, p, 0, 0, Seq::empty()) {
                    Some(v) => r matches Ok(w) && w@ == v,
                    None => r matches Err(ParseError::StreamDecodeError(_)),
                }
            }
        }),
{
    let decode_params = match params {
        Some(p) => p,
        None => CcittDecodeParams::default(),
    };
    match decode_params.k {
        CcittK::Group3OneDimensional => {
            let decoder = Group3OneDDecoder::new(decode_params);
            decoder.decode(data)
        },
        CcittK::Group3TwoDimensional => {
            let decoder = Group3OneDDecoder::new(decode_params);
            decoder.decode(data)
        },
        CcittK::Group4 => {
            let decoder = Group4Decoder::new(decode_params);
            decoder.decode(data)
        },
    }
}

/// The default parameters: Group 3 1-D, 1728 columns, unlimited rows,
/// end-of-block expected.
pub open spec fn ccitt_default_params() -> CcittDecodeParams {
    CcittDecodeParams {
        k: CcittK::Group3OneDimensional,
        columns: 1728,
        rows: 0,
        end_of_line: false,
        encoded_byte_align: false,
        end_of_block: true,
        black_is_1: false,
        damaged_rows_before_error: 0,
    }
}

/// The integer under `key` in a dictionary's entries, if it holds one.
pub open spec fn int_entry(d: Seq<(Seq<char>, ObjectView)>, key: Seq<char>) -> Option<i64> {
    match dict_get(d, key) {
        Some(ObjectView::Integer(i)) => Some(i),
        _ => None,
    }
}

/// The boolean under `key` in a dictionary's entries, if it holds one.
pub open spec fn bool_entry(d: Seq<(Seq<char>, ObjectView)>, key: Seq<char>) -> Option<bool> {
    match dict_get(d, key) {
        Some(ObjectView::Boolean(b)) => Some(b),
        _ => None,
    }
}

/// The decode parameters a DecodeParms dictionary with entries `d` gives.
pub open spec fn ccitt_params_of(d: Seq<(Seq<char>, ObjectView)>) -> CcittDecodeParams {
    let columns = if int_entry(d, "Columns"@) is Some {
        int_entry(d, "Columns"@)
    } else {
        int_entry(d, "Width"@)
    };
    let rows = if int_entry(d, "Rows"@) is Some {
        int_entry(d, "Rows"@)
    } else {
        int_entry(d, "Height"@)
    };
    CcittDecodeParams {
        k: match int_entry(d, "K"@) {
            Some(v) => k_from_value(v),
            None => CcittK::Group3OneDimensional,
        },
        columns: match columns {
            Some(c) => (if c < 1 { 1 } else { c }) as u32,
            None => 1728u32,
        },
        rows: match rows {
            Some(c) => (if c < 0 { 0 } else { c }) as u32,
            None => 0u32,
        },
        end_of_line: match bool_entry(d, "EndOfLine"@) {
            Some(b) => b,
            None => false,
        },
        encoded_byte_align: match bool_entry(d, "EncodedByteAlign"@) {
            Some(b) => b,
            None => false,
        },
        end_of_block: match bool_entry(d, "EndOfBlock"@) {
            Some(b) => b,
            None => true,
        },
        black_is_1: match bool_entry(d, "BlackIs1"@) {
            Some(b) => b,
            None => false,
        },
        damaged_rows_before_error: match int_entry(d, "DamagedRowsBeforeError"@) {
            Some(c) => (if c < 0 { 0 } else { c }) as u32,
            None => 0u32,
        },
    }
}

/// The integer under `key`, if the dictionary holds one there.
fn dict_int(dict: &PdfDictionary, key: &str) -> (r: Option<i64>)
    ensures
        r == int_entry(entries_view(dict.0@), key@),
{
    match dict.get(key) {
        Some(PdfObject::Integer(i)) => Some(*i),
        _ => None,
    }
}

/// The boolean under `key`, if the dictionary holds one there.
fn dict_bool(dict: &PdfDictionary, key: &str) -> (r: Option<bool>)
    ensures
        r == bool_entry(entries_view(dict.0@), key@),
{
    match dict.get(key) {
        Some(PdfObject::Boolean(b)) => Some(*b),
        _ => None,
    }
}

impl CcittDecodeParams {
    /// Parameters from a DecodeParms dictionary: K, Columns (or Width),
    /// Rows (or Height), EndOfLine, EncodedByteAlign, EndOfBlock, BlackIs1
    /// and DamagedRowsBeforeError; an entry absent or of another type keeps
    /// its default.
    pub fn from_dict(dict: &PdfDictionary) -> (r: Self)
        ensures
            r == ccitt_params_of(entries_view(dict.0@)),
    {
        Self::from_entries(
            dict_int(dict, "K"),
            dict_int(dict, "Columns"),
            dict_int(dict, "Width"),
            dict_int(dict, "Rows"),
            dict_int(dict, "Height"),
            dict_bool(dict, "EndOfLine"),
            dict_bool(dict, "EncodedByteAlign"),
            dict_bool(dict, "EndOfBlock"),
            dict_bool(dict, "BlackIs1"),
            dict_int(dict, "DamagedRowsBeforeError"),
        )
    }
}

/// CCITTFaxDecode with the parameters of an optional DecodeParms
/// dictionary (defaults when absent).
pub fn decode_ccitt(data: &[u8], params: Option<&PdfDictionary>) -> (r: ParseResult<Vec<u8>>)
    requires
        match params {
            Some(d) => {
                let p = ccitt_params_of(entries_view(d.0@));
                (p.k == CcittK::Group4 && (p.rows > 0 ==> g4_bytes_per_row(p.columns) * p.rows <= u32::MAX)) || (
                p.k != CcittK::Group4 && (g3_terminates(p) || data.len() == 0))
            },
            None => true,
        },
    ensures
        ({
            let p = match params {
                Some(d) => ccitt_params_of(entries_view(d.0@)),
                None => ccitt_default_params(),
            };
            if p.k == CcittK::Group4 {
                r matches Ok(v) && v@ == g4_output(data@, p)
            } else {
                match g3_rows(data@, p, 0, 0, Seq::empty()) {
                    Some(v) => r matches Ok(w) && w@ == v,
                    None => r matches Err(ParseError::StreamDecodeError(_)),
                }
            }
        }),
{
    let decode_params = match params {
        Some(dict) => Some(CcittDecodeParams::from_dict(dict)),
        None => None,
    };
    decode_ccitt_with_params(data, decode_params)
}

} // verus!

verus! {

proof fn lemma_shift_in_bit(p: u8, b: u8, m: u8)
    requires
        m < 8,
        p >> m == 0,
        b <= 1,
    ensures
        ((p << 1u8) | b) >> (m + 1) as u8 == 0,
        ((p << 1u8) | b) & 1u8 == b,
        forall|k: u8| k < 7 ==> #[trigger] ((((p << 1u8) | b) >> (k + 1) as u8) & 1u8) == (p >> k) & 1u8,
{
    assert(((p << 1u8) | b) >> (m + 1) as u8 == 0) by (bit_vector)
        requires
            m < 8,
            p >> m == 0,
            b <= 1,
    ;
    assert(((p << 1u8) | b) & 1u8 == b) by (bit_vector)
        requires
            b <= 1,
    ;
    assert forall|k: u8| k < 7 implies #[trigger] ((((p << 1u8) | b) >> (k + 1) as u8) & 1u8) == (p >> k) & 1u8 by {
        assert(((((p << 1u8) | b) >> (k + 1) as u8) & 1u8) == (p >> k) & 1u8) by (bit_vector)
            requires
                k < 7,
                b <= 1,
        ;
    }
}

/// The bits of a byte packed from at most eight bits: the `k`-th bit
/// packed is bit `len - 1 - k` of the byte, and no higher bit is set.
proof fn lemma_pack_byte_bits(s: Seq<u8>)
    requires
        s.len() <= 8,
        forall|i: int| 0 <= i < s.len() ==> #[trigger] s[i] <= 1,
    ensures
        pack_byte(s) >> (s.len() as u8) == 0,
        forall|k: int| 0 <= k < s.len() ==> (pack_byte(s) >> ((s.len() - 1 - k) as u8)) & 1u8 == #[trigger] s[k],
    decreases s.len(),
{
    if s.len() == 0 {
        assert(0u8 >> 0u8 == 0) by (bit_vector);
    } else {
        let p = s.drop_last();
        let n = s.len();
        assert forall|i: int| 0 <= i < p.len() implies #[trigger] p[i] <= 1 by {
            assert(p[i] == s[i]);
        }
        lemma_pack_byte_bits(p);
        let pp = pack_byte(p);
        let b = s.last();
        lemma_shift_in_bit(pp, b, (n - 1) as u8);
        assert(pack_byte(s) == ((pp << 1u8) | b) as u8);
        assert forall|k: int| 0 <= k < s.len() implies (pack_byte(s) >> ((s.len() - 1 - k) as u8)) & 1u8
            == #[trigger] s[k] by {
            if k < n - 1 {
                assert(p[k] == s[k]);
                let kk = (n - 2 - k) as u8;
                assert(((((pp << 1u8) | b) >> (kk + 1) as u8) & 1u8) == (pp >> kk) & 1u8);
                assert((n - 1 - k) as u8 == (kk + 1) as u8);
            } else {
                assert((n - 1 - k) as u8 == 0u8);
                assert(((pp << 1u8) | b) >> 0u8 == ((pp << 1u8) | b)) by (bit_vector);
            }
        }
    }
}

proof fn lemma_pad_bits(x: u8, n: u8, j: u8)
    requires
        1 <= n <= 8,
        j < 8,
        x >> n == 0,
    ensures
        j < n ==> (((x << (8 - n) as u8) >> (7 - j) as u8) & 1u8) == (x >> (n - 1 - j) as u8) & 1u8,
        j >= n ==> (((x << (8 - n) as u8) >> (7 - j) as u8) & 1u8) == 0,
{
    assert(j < n ==> (((x << (8 - n) as u8) >> (7 - j) as u8) & 1u8) == (x >> (n - 1 - j) as u8) & 1u8)
        by (bit_vector)
        requires
            1 <= n <= 8,
            j < 8,
            x >> n == 0,
    ;
    assert(j >= n ==> (((x << (8 - n) as u8) >> (7 - j) as u8) & 1u8) == 0) by (bit_vector)
        requires
            1 <= n <= 8,
            j < 8,
            x >> n == 0,
    ;
}

/// Packing pixel bits into bytes: one byte per eight bits (the last one
/// partial), bit `j` of the row is bit `7 - j % 8` of byte `j / 8`, and the
/// padding bits of the last byte are zero.
pub proof fn lemma_packed_row_bits(bits: Seq<u8>)
    requires
        forall|i: int| 0 <= i < bits.len() ==> #[trigger] bits[i] <= 1,
    ensures
        packed_row(bits).len() == (bits.len() + 7) / 8,
        forall|j: int| 0 <= j < bits.len() ==> (#[trigger] packed_row(bits)[j / 8] >> ((7 - j % 8) as u8)) & 1u8
            == bits[j],
        forall|j: int| bits.len() <= j < 8 * packed_row(bits).len() ==> (#[trigger] packed_row(bits)[j / 8] >> ((7
            - j % 8) as u8)) & 1u8 == 0,
    decreases bits.len(),
{
    let r = packed_row(bits);
    if bits.len() == 0 {
    } else if bits.len() < 8 {
        let n = bits.len();
        lemma_pack_byte_bits(bits);
        let x = pack_byte(bits);
        assert(r == seq![(x << ((8 - n) as u8)) as u8]);
        assert forall|j: int| 0 <= j < 8 implies (#[trigger] r[j / 8] >> ((7 - j % 8) as u8)) & 1u8 == (if j < n {
            bits[j]
        } else {
            0u8
        }) by {
            assert(j / 8 == 0 && j % 8 == j);
            lemma_pad_bits(x, n as u8, j as u8);
            if j < n {
                assert((x >> ((n - 1 - j) as u8)) & 1u8 == bits[j]);
            }
        }
    } else {
        let head = bits.take(8);
        let tail = bits.skip(8);
        assert forall|i: int| 0 <= i < head.len() implies #[trigger] head[i] <= 1 by {
            assert(head[i] == bits[i]);
        }
        assert forall|i: int| 0 <= i < tail.len() implies #[trigger] tail[i] <= 1 by {
            assert(tail[i] == bits[i + 8]);
        }
        lemma_pack_byte_bits(head);
        lemma_packed_row_bits(tail);
        let rt = packed_row(tail);
        assert(r == seq![pack_byte(head)] + rt);
        assert forall|j: int| 0 <= j < bits.len() implies (#[trigger] r[j / 8] >> ((7 - j % 8) as u8)) & 1u8
            == bits[j] by {
            if j < 8 {
                assert(j / 8 == 0 && j % 8 == j);
                assert(head[j] == bits[j]);
            } else {
                let jt = j - 8;
                assert(jt / 8 == j / 8 - 1 && jt % 8 == j % 8);
                assert(r[j / 8] == rt[jt / 8]);
                assert(tail[jt] == bits[j]);
                assert((rt[jt / 8] >> ((7 - jt % 8) as u8)) & 1u8 == tail[jt]);
            }
        }
        assert forall|j: int| bits.len() <= j < 8 * r.len() implies (#[trigger] r[j / 8] >> ((7 - j % 8) as u8))
            & 1u8 == 0 by {
            let jt = j - 8;
            assert(jt / 8 == j / 8 - 1 && jt % 8 == j % 8);
            assert(r[j / 8] == rt[jt / 8]);
            assert((rt[jt / 8] >> ((7 - jt % 8) as u8)) & 1u8 == 0);
        }
    }
}

/// What `add_row_to_result` appends for a row of 0/1 pixels: one byte per
/// eight pixels, bit `7 - j % 8` of byte `j / 8` the pixel `j` (inverted
/// unless BlackIs1), and zero padding bits.
pub proof fn lemma_row_bytes(row: Seq<u8>, black_is_1: bool)
    requires
        forall|i: int| 0 <= i < row.len() ==> #[trigger] row[i] <= 1,
    ensures
        ({
            let p = packed_row(mapped_pixels(row, black_is_1));
            &&& p.len() == (row.len() + 7) / 8
            &&& forall|j: int| 0 <= j < row.len() ==> (#[trigger] p[j / 8] >> ((7 - j % 8) as u8)) & 1u8 == (if black_is_1 {
                row[j]
            } else {
                (1 - row[j]) as u8
            })
            &&& forall|j: int| row.len() <= j < 8 * p.len() ==> (#[trigger] p[j / 8] >> ((7 - j % 8) as u8)) & 1u8
                == 0
        }),
{
    let m = mapped_pixels(row, black_is_1);
    assert forall|i: int| 0 <= i < m.len() implies #[trigger] m[i] <= 1 by {
        assert(row[i] <= 1);
    }
    lemma_packed_row_bits(m);
}

/// The `n` bits from bit position `pos`, as a sequence of 0s and 1s.
pub open spec fn bit_string(data: Seq<u8>, pos: int, n: nat) -> Seq<u8> {
    Seq::new(n, |i: int| bit_at(data, pos + i))
}

/// The white make-up code (ITU-T T.4) at `pos`: 11011 stands for 64
/// pixels, 10010 for 128; any other five bits add nothing.
pub open spec fn white_makeup_code(data: Seq<u8>, pos: int) -> int {
    let c = bit_string(data, pos, 5);
    if c == seq![1u8, 1u8, 0u8, 1u8, 1u8] {
        64
    } else if c == seq![1u8, 0u8, 0u8, 1u8, 0u8] {
        128
    } else {
        0
    }
}

/// The black make-up code at `pos`: 000001 stands for 64 pixels, 000011
/// for 128; any other six bits add nothing.
pub open spec fn black_makeup_code(data: Seq<u8>, pos: int) -> int {
    let c = bit_string(data, pos, 6);
    if c == seq![0u8, 0u8, 0u8, 0u8, 0u8, 1u8] {
        64
    } else if c == seq![0u8, 0u8, 0u8, 0u8, 1u8, 1u8] {
        128
    } else {
        0
    }
}

/// The low six of the eight bits at `pos`, as a number.
pub open spec fn low_six_bits(data: Seq<u8>, pos: int) -> int {
    32 * bit_at(data, pos + 2) + 16 * bit_at(data, pos + 3) + 8 * bit_at(data, pos + 4) + 4 * bit_at(data, pos + 5)
        + 2 * bit_at(data, pos + 6) + bit_at(data, pos + 7)
}

/// The eight-bit white terminating code at `pos`, by its first four bits:
/// 0011 is 0 pixels, 0010 is 1, 0001 is 2, 0000 is 3; any other code
/// counts its low six bits.
pub open spec fn white_terminating_code(data: Seq<u8>, pos: int) -> int {
    let c = bit_string(data, pos, 4);
    if c == seq![0u8, 0u8, 1u8, 1u8] {
        0
    } else if c == seq![0u8, 0u8, 1u8, 0u8] {
        1
    } else if c == seq![0u8, 0u8, 0u8, 1u8] {
        2
    } else if c == seq![0u8, 0u8, 0u8, 0u8] {
        3
    } else {
        low_six_bits(data, pos)
    }
}

/// The eight-bit black terminating code at `pos`, by its first three bits:
/// 000 is 0 pixels, 001 is 1, 010 is 2, 011 is 3; a code starting with a 1
/// counts its low six bits.
pub open spec fn black_terminating_code(data: Seq<u8>, pos: int) -> int {
    let c = bit_string(data, pos, 3);
    if c == seq![0u8, 0u8, 0u8] {
        0
    } else if c == seq![0u8, 0u8, 1u8] {
        1
    } else if c == seq![0u8, 1u8, 0u8] {
        2
    } else if c == seq![0u8, 1u8, 1u8] {
        3
    } else {
        low_six_bits(data, pos)
    }
}

/// The first bits at `pos` as a weighted sum.
proof fn lemma_bits_value_sums(data: Seq<u8>, pos: int)
    ensures
        bits_value(data, pos, 3) == 4 * bit_at(data, pos) + 2 * bit_at(data, pos + 1) + bit_at(data, pos + 2),
        bits_value(data, pos, 5) == 16 * bit_at(data, pos) + 8 * bit_at(data, pos + 1) + 4 * bit_at(data, pos + 2)
            + 2 * bit_at(data, pos + 3) + bit_at(data, pos + 4),
        bits_value(data, pos, 6) == 32 * bit_at(data, pos) + 16 * bit_at(data, pos + 1) + 8 * bit_at(data, pos + 2)
            + 4 * bit_at(data, pos + 3) + 2 * bit_at(data, pos + 4) + bit_at(data, pos + 5),
        bits_value(data, pos, 8) == 128 * bit_at(data, pos) + 64 * bit_at(data, pos + 1) + 32 * bit_at(data, pos + 2)
            + 16 * bit_at(data, pos + 3) + 8 * bit_at(data, pos + 4) + 4 * bit_at(data, pos + 5) + 2 * bit_at(
            data,
            pos + 6,
        ) + bit_at(data, pos + 7),
{
    lemma_bits_value_step(data, pos, 0);
    lemma_bits_value_step(data, pos, 1);
    lemma_bits_value_step(data, pos, 2);
    lemma_bits_value_step(data, pos, 3);
    lemma_bits_value_step(data, pos, 4);
    lemma_bits_value_step(data, pos, 5);
    lemma_bits_value_step(data, pos, 6);
    lemma_bits_value_step(data, pos, 7);
}

/// Each of the eight bits at `pos` is 0 or 1.
proof fn lemma_bits_01(data: Seq<u8>, pos: int)
    ensures
        bit_at(data, pos) <= 1,
        bit_at(data, pos + 1) <= 1,
        bit_at(data, pos + 2) <= 1,
        bit_at(data, pos + 3) <= 1,
        bit_at(data, pos + 4) <= 1,
        bit_at(data, pos + 5) <= 1,
        bit_at(data, pos + 6) <= 1,
        bit_at(data, pos + 7) <= 1,
{
    lemma_bit_at_le1(data, pos);
    lemma_bit_at_le1(data, pos + 1);
    lemma_bit_at_le1(data, pos + 2);
    lemma_bit_at_le1(data, pos + 3);
    lemma_bit_at_le1(data, pos + 4);
    lemma_bit_at_le1(data, pos + 5);
    lemma_bit_at_le1(data, pos + 6);
    lemma_bit_at_le1(data, pos + 7);
}

proof fn lemma_white_makeup_code(data: Seq<u8>, pos: int)
    ensures
        white_makeup_value(bits_value(data, pos, 5)) == white_makeup_code(data, pos),
{
    lemma_bits_value_sums(data, pos);
    lemma_bits_01(data, pos);
    let c = bit_string(data, pos, 5);
    let v = bits_value(data, pos, 5);
    if v == 0x1B {
        assert(c =~= seq![1u8, 1u8, 0u8, 1u8, 1u8]);
    } else if v == 0x12 {
        assert(c =~= seq![1u8, 0u8, 0u8, 1u8, 0u8]);
        assert(c != seq![1u8, 1u8, 0u8, 1u8, 1u8]) by {
            assert(c[1] != seq![1u8, 1u8, 0u8, 1u8, 1u8][1]);
        }
    } else {
        if c == seq![1u8, 1u8, 0u8, 1u8, 1u8] {
            assert(c[0] == 1 && c[1] == 1 && c[2] == 0 && c[3] == 1 && c[4] == 1);
        }
        if c == seq![1u8, 0u8, 0u8, 1u8, 0u8] {
            assert(c[0] == 1 && c[1] == 0 && c[2] == 0 && c[3] == 1 && c[4] == 0);
        }
    }
}

proof fn lemma_black_makeup_code(data: Seq<u8>, pos: int)
    ensures
        black_makeup_value(bits_value(data, pos, 6)) == black_makeup_code(data, pos),
{
    lemma_bits_value_sums(data, pos);
    lemma_bits_01(data, pos);
    let c = bit_string(data, pos, 6);
    let v = bits_value(data, pos, 6);
    if v == 0x01 {
        assert(c =~= seq![0u8, 0u8, 0u8, 0u8, 0u8, 1u8]);
    } else if v == 0x03 {
        assert(c =~= seq![0u8, 0u8, 0u8, 0u8, 1u8, 1u8]);
        assert(c != seq![0u8, 0u8, 0u8, 0u8, 0u8, 1u8]) by {
            assert(c[4] != seq![0u8, 0u8, 0u8, 0u8, 0u8, 1u8][4]);
        }
    } else {
        if c == seq![0u8, 0u8, 0u8, 0u8, 0u8, 1u8] {
            assert(c[0] == 0 && c[1] == 0 && c[2] == 0 && c[3] == 0 && c[4] == 0 && c[5] == 1);
        }
        if c == seq![0u8, 0u8, 0u8, 0u8, 1u8, 1u8] {
            assert(c[0] == 0 && c[1] == 0 && c[2] == 0 && c[3] == 0 && c[4] == 1 && c[5] == 1);
        }
    }
}

proof fn lemma_white_terminating_code(data: Seq<u8>, pos: int)
    ensures
        white_terminating_value(bits_value(data, pos, 8)) == white_terminating_code(data, pos),
{
    lemma_bits_value_sums(data, pos);
    lemma_bits_01(data, pos);
    let c = bit_string(data, pos, 4);
    let v = bits_value(data, pos, 8);
    let hi = 8 * bit_at(data, pos) + 4 * bit_at(data, pos + 1) + 2 * bit_at(data, pos + 2) + bit_at(data, pos + 3);
    let lo = 8 * bit_at(data, pos + 4) + 4 * bit_at(data, pos + 5) + 2 * bit_at(data, pos + 6) + bit_at(data, pos + 7);
    assert(v == 16 * hi + lo && 0 <= lo < 16);
    assert(v / 16 == hi);
    assert(c[0] == bit_at(data, pos) && c[1] == bit_at(data, pos + 1) && c[2] == bit_at(data, pos + 2) && c[3]
        == bit_at(data, pos + 3));
    if hi == 3 {
        assert(c =~= seq![0u8, 0u8, 1u8, 1u8]);
    } else if hi == 2 {
        assert(c =~= seq![0u8, 0u8, 1u8, 0u8]);
        assert(c[3] != seq![0u8, 0u8, 1u8, 1u8][3]);
    } else if hi == 1 {
        assert(c =~= seq![0u8, 0u8, 0u8, 1u8]);
        assert(c[2] != seq![0u8, 0u8, 1u8, 1u8][2]);
        assert(c[2] != seq![0u8, 0u8, 1u8, 0u8][2]);
    } else if hi == 0 {
        assert(c =~= seq![0u8, 0u8, 0u8, 0u8]);
        assert(c[2] != seq![0u8, 0u8, 1u8, 1u8][2]);
        assert(c[2] != seq![0u8, 0u8, 1u8, 0u8][2]);
        assert(c[3] != seq![0u8, 0u8, 0u8, 1u8][3]);
    } else {
        if c == seq![0u8, 0u8, 1u8, 1u8] || c == seq![0u8, 0u8, 1u8, 0u8] || c == seq![0u8, 0u8, 0u8, 1u8] || c
            == seq![0u8, 0u8, 0u8, 0u8] {
            assert(c[0] == 0 && c[1] == 0);
        }
        assert(v == 64 * (2 * bit_at(data, pos) + bit_at(data, pos + 1)) + low_six_bits(data, pos));
        assert(0 <= low_six_bits(data, pos) < 64);
        assert(v % 64 == low_six_bits(data, pos));
    }
}

proof fn lemma_black_terminating_code(data: Seq<u8>, pos: int)
    ensures
        black_terminating_value(bits_value(data, pos, 8)) == black_terminating_code(data, pos),
{
    lemma_bits_value_sums(data, pos);
    lemma_bits_01(data, pos);
    let c = bit_string(data, pos, 3);
    let v = bits_value(data, pos, 8);
    let hi = 4 * bit_at(data, pos) + 2 * bit_at(data, pos + 1) + bit_at(data, pos + 2);
    let lo = 16 * bit_at(data, pos + 3) + 8 * bit_at(data, pos + 4) + 4 * bit_at(data, pos + 5) + 2 * bit_at(
        data,
        pos + 6,
    ) + bit_at(data, pos + 7);
    assert(v == 32 * hi + lo && 0 <= lo < 32);
    assert(v / 32 == hi);
    assert(c[0] == bit_at(data, pos) && c[1] == bit_at(data, pos + 1) && c[2] == bit_at(data, pos + 2));
    if hi == 0 {
        assert(c =~= seq![0u8, 0u8, 0u8]);
    } else if hi == 1 {
        assert(c =~= seq![0u8, 0u8, 1u8]);
        assert(c[2] != seq![0u8, 0u8, 0u8][2]);
    } else if hi == 2 {
        assert(c =~= seq![0u8, 1u8, 0u8]);
        assert(c[1] != seq![0u8, 0u8, 0u8][1]);
        assert(c[1] != seq![0u8, 0u8, 1u8][1]);
    } else if hi == 3 {
        assert(c =~= seq![0u8, 1u8, 1u8]);
        assert(c[1] != seq![0u8, 0u8, 0u8][1]);
        assert(c[1] != seq![0u8, 0u8, 1u8][1]);
        assert(c[2] != seq![0u8, 1u8, 0u8][2]);
    } else {
        assert(hi >= 4);
        assert(bit_at(data, pos + 1) <= 1 && bit_at(data, pos + 2) <= 1);
        assert(bit_at(data, pos) == 1);
        assert(c[0] != seq![0u8, 0u8, 0u8][0]);
        assert(c[0] != seq![0u8, 0u8, 1u8][0]);
        assert(c[0] != seq![0u8, 1u8, 0u8][0]);
        assert(c[0] != seq![0u8, 1u8, 1u8][0]);
        assert(v == 64 * (2 * bit_at(data, pos) + bit_at(data, pos + 1)) + low_six_bits(data, pos));
        assert(0 <= low_six_bits(data, pos) < 64);
        assert(v % 64 == low_six_bits(data, pos));
    }
}

/// The length of a run decoded at bit position `pos`, by the bit patterns
/// of the ITU-T T.4 codes: a white run is its make-up code (11011 for 64
/// pixels, 10010 for 128, else none) plus the terminating code that
/// follows; a black run likewise with 000001 for 64 and 000011 for 128.
pub proof fn lemma_run_codes(data: Seq<u8>, pos: int)
    ensures
        pos + 13 <= data.len() * 8 ==> run_length_at(data, pos, true) == Some(
            white_makeup_code(data, pos) + white_terminating_code(data, pos + 5),
        ),
        pos + 14 <= data.len() * 8 ==> run_length_at(data, pos, false) == Some(
            black_makeup_code(data, pos) + black_terminating_code(data, pos + 6),
        ),
{
    lemma_white_makeup_code(data, pos);
    lemma_white_terminating_code(data, pos + 5);
    lemma_black_makeup_code(data, pos);
    lemma_black_terminating_code(data, pos + 6);
}

} // verus!
