use vstd::prelude::*;

use std::collections::BTreeMap;
use vstd::arithmetic::div_mod::lemma_fundamental_div_mod_converse;
use vstd::slice::slice_to_vec;
use vstd::string::StrSliceExecFns;
use vstd::utf8::{length_of_first_scalar, valid_utf8};

verus! {

broadcast use vstd::laws_cmp::group_laws_cmp;

/// The four bytes that open a PSF2 font.
pub const PSF2_MAGIC: u32 = 0x864ab572;
/// The header flag that says a unicode table follows the glyphs.
pub const PSF2_HAS_UNICODE_TABLE: u32 = 0x01;
/// The byte that ends the entries of one glyph in the unicode table.
pub const PSF2_SEPARATOR: u8 = 0xFF;
/// Size of the header in bytes.
pub const PSF2_HEADER_SIZE: usize = 32;

/// Why a font could not be read.
#[derive(Debug, Clone, Copy, PartialEq, Eq)]
pub enum PSF2Error {
    InvalidMagic,
    DataTooSmall,
    InvalidHeaderSize,
    InvalidUTF8,
    InvalidVersion,
    TruncatedGlyphData,
    InvalidGlyphData,
    InvalidUnicodeTable,
}

/// The header of a PSF2 font: eight little-endian 32-bit words.
#[derive(Debug, Clone, Copy)]
pub struct PSF2Header {
    /// magic bytes to identify PSF
    pub magic: u32,
    /// zero
    pub version: u32,
    /// offset of bitmaps in file, 32
    pub headersize: u32,
    /// 0 if there's no unicode table
    pub flags: u32,
    /// number of glyphs
    pub numglyph: u32,
    /// size of each glyph
    pub bytes_per_glyph: u32,
    /// height in pixels
    pub height: u32,
    /// width in pixels
    pub width: u32,
}

/// The little-endian word at byte `at` of `data`.
pub open spec fn le_u32(data: Seq<u8>, at: int) -> u32 {
    (data[at] as int + data[at + 1] as int * 0x100 + data[at + 2] as int * 0x1_0000 + data[at + 3] as int
        * 0x100_0000) as u32
}

/// The header at the start of `data`.
pub open spec fn header_of(data: Seq<u8>) -> PSF2Header {
    PSF2Header {
        magic: le_u32(data, 0),
        version: le_u32(data, 4),
        headersize: le_u32(data, 8),
        flags: le_u32(data, 12),
        numglyph: le_u32(data, 16),
        bytes_per_glyph: le_u32(data, 20),
        height: le_u32(data, 24),
        width: le_u32(data, 28),
    }
}

fn read_le_u32(data: &[u8], at: usize) -> (r: u32)
    requires
        at + 4 <= data@.len(),
    ensures
        r == le_u32(data@, at as int),
{
    data[at] as u32 + (data[at + 1] as u32) * 0x100 + (data[at + 2] as u32) * 0x1_0000 + (data[at
        + 3] as u32) * 0x100_0000
}

impl PSF2Header {
    /// Reads the header at the start of `data`.
    pub fn read(data: &[u8]) -> (r: PSF2Header)
        requires
            data@.len() >= PSF2_HEADER_SIZE,
        ensures
            r == header_of(data@),
    {
        PSF2Header {
            magic: read_le_u32(data, 0),
            version: read_le_u32(data, 4),
            headersize: read_le_u32(data, 8),
            flags: read_le_u32(data, 12),
            numglyph: read_le_u32(data, 16),
            bytes_per_glyph: read_le_u32(data, 20),
            height: read_le_u32(data, 24),
            width: read_le_u32(data, 28),
        }
    }
}

/// The first separator at or after `pos`, or the end of `data`.
pub open spec fn separator_from(data: Seq<u8>, pos: int) -> int
    decreases data.len() - pos,
{
    if pos >= data.len() {
        data.len() as int
    } else if data[pos] == PSF2_SEPARATOR {
        pos
    } else {
        separator_from(data, pos + 1)
    }
}

/// The bytes from `pos` up to the next separator.
pub open spec fn run_at(data: Seq<u8>, pos: int) -> Seq<u8> {
    data.subrange(pos, separator_from(data, pos))
}

/// The unicode table read from `pos` on, for glyph `glyph` of `count`, with
/// `map` read so far: each glyph's entries are UTF-8 characters up to a
/// separator; two separators in a row end the table, and so does the end of
/// the data or of the glyphs. An entry must start a run of valid UTF-8 that
/// reaches the next separator; its first character is mapped to the glyph.
pub open spec fn table_from(
    data: Seq<u8>,
    pos: int,
    glyph: int,
    count: int,
    map: Map<u32, usize>,
) -> Result<Map<u32, usize>, PSF2Error>
    decreases count - glyph, data.len() + 4 - pos,
{
    if glyph >= count || pos < 0 || pos >= data.len() {
        Ok(map)
    } else if data[pos] == PSF2_SEPARATOR {
        if pos + 1 < data.len() && data[pos + 1] == PSF2_SEPARATOR {
            Ok(map)
        } else if pos + 1 < data.len() && glyph + 1 < count {
            table_from(data, pos + 1, glyph + 1, count, map)
        } else {
            Ok(map)
        }
    } else {
        let run = run_at(data, pos);
        if !valid_utf8(run) {
            Err(PSF2Error::InvalidUTF8)
        } else {
            table_from(
                data,
                pos + length_of_first_scalar(run),
                glyph,
                count,
                map.insert(vstd::utf8::decode_utf8(run)[0] as u32, glyph as usize),
            )
        }
    }
}

/// The unicode table in `data` for `count` glyphs.
pub open spec fn unicode_table(data: Seq<u8>, count: int) -> Result<Map<u32, usize>, PSF2Error> {
    table_from(data, 0, 0, count, Map::empty())
}

/// Size in bytes of the glyphs of the font in `data`.
pub open spec fn glyph_data_size(data: Seq<u8>) -> int {
    header_of(data).numglyph * header_of(data).bytes_per_glyph
}

/// The bytes after the glyphs.
pub open spec fn table_bytes(data: Seq<u8>) -> Seq<u8> {
    data.subrange(PSF2_HEADER_SIZE + glyph_data_size(data), data.len() as int)
}

/// Whether the header says that a unicode table follows the glyphs.
pub open spec fn has_table(data: Seq<u8>) -> bool {
    header_of(data).flags & PSF2_HAS_UNICODE_TABLE != 0
}

/// The header of `data` is one this parser accepts: right magic, version 0
/// and a 32-byte header.
pub open spec fn header_accepted(data: Seq<u8>) -> bool {
    &&& data.len() >= PSF2_HEADER_SIZE
    &&& header_of(data).magic == PSF2_MAGIC
    &&& header_of(data).version == 0
    &&& header_of(data).headersize == PSF2_HEADER_SIZE
}

/// Why `data` is no font, if it is none.
pub open spec fn font_error(data: Seq<u8>) -> Option<PSF2Error> {
    let h = header_of(data);
    if data.len() < PSF2_HEADER_SIZE {
        Some(PSF2Error::DataTooSmall)
    } else if h.magic != PSF2_MAGIC {
        Some(PSF2Error::InvalidMagic)
    } else if h.version != 0 {
        Some(PSF2Error::InvalidVersion)
    } else if h.headersize != PSF2_HEADER_SIZE {
        Some(PSF2Error::InvalidHeaderSize)
    } else if data.len() < PSF2_HEADER_SIZE + glyph_data_size(data) {
        Some(PSF2Error::TruncatedGlyphData)
    } else if has_table(data) && unicode_table(table_bytes(data), h.numglyph as int) is Err {
        Some(unicode_table(table_bytes(data), h.numglyph as int)->Err_0)
    } else {
        None
    }
}

/// The character-to-glyph map of the font in `data`.
pub open spec fn font_unicode_map(data: Seq<u8>) -> Map<u32, usize> {
    if has_table(data) {
        unicode_table(table_bytes(data), header_of(data).numglyph as int)->Ok_0
    } else {
        Map::empty()
    }
}

/// Every glyph index in the map names a glyph.
pub open spec fn map_below(map: Map<u32, usize>, count: int) -> bool {
    forall|k: u32| #[trigger] map.contains_key(k) ==> map[k] < count
}

/// `core::str::from_utf8`: `Some` exactly when `bytes` is valid UTF-8, and
/// then the string holds the characters that the bytes encode.
#[verifier::external_body]
fn str_from_utf8(bytes: &[u8]) -> (r: Option<&str>)
    ensures
        r is Some <==> valid_utf8(bytes@),
        r matches Some(s) ==> s@ == vstd::utf8::decode_utf8(bytes@),
{
    core::str::from_utf8(bytes).ok()
}

/// A PSF2 font: glyph bitmaps and the characters they draw.
#[derive(Debug, Clone)]
pub struct PSF2Font {
    pub width: u32,
    pub height: u32,
    /// Raw glyph bitmap data.
    pub glyph_bytes: Vec<u8>,
    /// Bytes per glyph.
    pub bytes_per_glyph: usize,
    /// Unicode code point -> glyph index.
    pub unicode_map: BTreeMap<u32, usize>,
}

/// The number of bytes of a UTF-8 sequence that starts with byte `b`.
pub open spec fn leading_width(b: u8) -> int {
    if b <= 0x7f {
        1
    } else if b <= 0xdf {
        2
    } else if b <= 0xef {
        3
    } else {
        4
    }
}

proof fn lemma_separator_from(data: Seq<u8>, pos: int, end: int)
    requires
        0 <= pos <= end <= data.len(),
        forall|i: int| pos <= i < end ==> data[i] != PSF2_SEPARATOR,
        end == data.len() || data[end] == PSF2_SEPARATOR,
    ensures
        separator_from(data, pos) == end,
    decreases end - pos,
{
    if pos < end {
        lemma_separator_from(data, pos + 1, end);
    }
}

proof fn lemma_separator_bounds(data: Seq<u8>, pos: int)
    requires
        0 <= pos <= data.len(),
    ensures
        pos <= separator_from(data, pos) <= data.len(),
    decreases data.len() - pos,
{
    if pos < data.len() && data[pos] != PSF2_SEPARATOR {
        lemma_separator_bounds(data, pos + 1);
    }
}

proof fn lemma_first_scalar(run: Seq<u8>)
    requires
        valid_utf8(run),
        run.len() > 0,
    ensures
        1 <= length_of_first_scalar(run) <= run.len(),
        length_of_first_scalar(run) == leading_width(run[0]),
        vstd::utf8::decode_utf8(run).len() >= 1,
{
}

proof fn lemma_table_below(data: Seq<u8>, pos: int, glyph: int, count: int, map: Map<u32, usize>)
    requires
        map_below(map, count),
        glyph >= 0,
    ensures
        table_from(data, pos, glyph, count, map) matches Ok(m) ==> map_below(m, count),
    decreases count - glyph, data.len() + 4 - pos,
{
    if glyph >= count || pos < 0 || pos >= data.len() {
    } else if data[pos] == PSF2_SEPARATOR {
        if pos + 1 < data.len() && glyph + 1 < count {
            lemma_table_below(data, pos + 1, glyph + 1, count, map);
        }
    } else {
        let run = run_at(data, pos);
        if valid_utf8(run) {
            let m2 = map.insert(vstd::utf8::decode_utf8(run)[0] as u32, glyph as usize);
            assert(map_below(m2, count));
            lemma_table_below(data, pos + length_of_first_scalar(run), glyph, count, m2);
        }
    }
}

proof fn lemma_slot(k: int, b: int, s: int, j: int)
    requires
        b > 0,
        0 <= j < b,
        k == s * b + j,
    ensures
        k / b == s,
        k % b == j,
{
    lemma_fundamental_div_mod_converse(k, b, s, j);
}

proof fn lemma_slot_fits(s: int, b: int, n: int)
    requires
        b > 0,
        n >= 0,
        0 <= s < n / b,
    ensures
        s * b + b <= n,
        0 <= s * b,
{
    assert((n / b) * b <= n) by (nonlinear_arith)
        requires b > 0, n >= 0;
    assert(s * b + b <= (n / b) * b) by (nonlinear_arith)
        requires b > 0, s + 1 <= n / b;
    assert(0 <= s * b) by (nonlinear_arith)
        requires b > 0, s >= 0;
}

/// The glyph that `ch` draws in a font with these fields: its entry in the
/// map, else the glyph at its own code point if there is one.
pub open spec fn glyph_index(glyph_bytes: Seq<u8>, bpg: int, map: Map<u32, usize>, ch: char) -> Option<int> {
    if map.contains_key(ch as u32) {
        Some(map[ch as u32] as int)
    } else if (ch as u32) < glyph_bytes.len() as int / bpg {
        Some(ch as u32 as int)
    } else {
        None
    }
}

/// The unicode table comes before the code point: a character the table
/// names draws the glyph the table gives it, whatever glyph sits at its code
/// point, and giving a character a table entry makes it draw that glyph.
/// Only a character the table lacks draws the glyph at its code point, where
/// the font has that many glyphs.
pub proof fn lemma_table_entry_wins(glyph_bytes: Seq<u8>, bpg: int, map: Map<u32, usize>, ch: char, g: usize)
    ensures
        map.contains_key(ch as u32) ==> glyph_index(glyph_bytes, bpg, map, ch) == Some(map[ch as u32] as int),
        glyph_index(glyph_bytes, bpg, map.insert(ch as u32, g), ch) == Some(g as int),
        !map.contains_key(ch as u32) && bpg > 0 ==> (glyph_index(glyph_bytes, bpg, map, ch) is Some <==> (
        ch as u32) * bpg < glyph_bytes.len() - bpg + 1),
        glyph_index(glyph_bytes, bpg, map, ch) matches Some(i) ==> (i != ch as u32 ==> map.contains_key(
            ch as u32,
        ) && map[ch as u32] == i),
{
    if !map.contains_key(ch as u32) && bpg > 0 {
        let n = glyph_bytes.len() as int;
        let c = (ch as u32) as int;
        vstd::arithmetic::div_mod::lemma_fundamental_div_mod(n, bpg);
        assert(c < n / bpg <==> c * bpg < n - bpg + 1) by (nonlinear_arith)
            requires
                bpg > 0,
                c >= 0,
                n >= 0,
                n == bpg * (n / bpg) + n % bpg,
                0 <= n % bpg < bpg,
        ;
    }
}

/// The glyph bytes once each glyph of the map has been copied to the slot of
/// its code point; the other slots are zero.
pub open spec fn reordered(glyph_bytes: Seq<u8>, bpg: int, map: Map<u32, usize>) -> Seq<u8> {
    Seq::new(
        glyph_bytes.len(),
        |k: int|
            {
                let slot = k / bpg;
                if slot < glyph_bytes.len() as int / bpg && slot <= u32::MAX && map.contains_key(
                    slot as u32,
                ) {
                    glyph_bytes[map[slot as u32] * bpg + k % bpg]
                } else {
                    0u8
                }
            },
    )
}

/// After reordering, the slot of a mapped character's own code point holds,
/// byte for byte, the glyph that the character's table entry named.
pub proof fn lemma_reorder_moves_glyph(
    glyph_bytes: Seq<u8>,
    bpg: int,
    map: Map<u32, usize>,
    c: u32,
    j: int,
)
    requires
        bpg > 0,
        map.contains_key(c),
        (c as int) < glyph_bytes.len() as int / bpg,
        0 <= j < bpg,
    ensures
        reordered(glyph_bytes, bpg, map)[c * bpg + j] == glyph_bytes[map[c] * bpg + j],
{
    lemma_slot(c * bpg + j, bpg, c as int, j);
    lemma_slot_fits(c as int, bpg, glyph_bytes.len() as int);
}

/// Bytes in one row of a glyph `width` pixels wide.
pub open spec fn row_bytes(width: u32) -> int {
    (width as int + 7) / 8
}

impl PSF2Font {
    /// Glyph indices in the map name glyphs of the font.
    pub open spec fn wf(&self) -> bool {
        self.bytes_per_glyph > 0 ==> map_below(
            self.unicode_map@,
            self.glyph_bytes@.len() as int / self.bytes_per_glyph as int,
        )
    }

    /// Decodes the character entry at `pos`: the bytes up to the next
    /// separator must be valid UTF-8; the first character they encode is the
    /// entry.
    fn decode_utf8(data: &[u8], pos: usize) -> (r: Result<char, PSF2Error>)
        requires
            pos <= data@.len(),
        ensures
            match r {
                Ok(c) => run_at(data@, pos as int).len() > 0 && valid_utf8(run_at(data@, pos as int))
                    && c == vstd::utf8::decode_utf8(run_at(data@, pos as int))[0],
                Err(e) => if run_at(data@, pos as int).len() == 0 {
                    e == PSF2Error::TruncatedGlyphData
                } else {
                    !valid_utf8(run_at(data@, pos as int)) && e == PSF2Error::InvalidUTF8
                },
            },
    {
        let mut end = pos;
        while end < data.len() && data[end] != PSF2_SEPARATOR
            invariant
                pos <= end <= data@.len(),
                forall|i: int| pos <= i < end ==> data@[i] != PSF2_SEPARATOR,
            decreases data@.len() - end,
        {
            end = end + 1;
        }
        proof {
            lemma_separator_from(data@, pos as int, end as int);
        }
        if end == pos {
            return Err(PSF2Error::TruncatedGlyphData);
        }
        let slice = &data[pos..end];
        assert(slice@ == run_at(data@, pos as int));
        match str_from_utf8(slice) {
            None => Err(PSF2Error::InvalidUTF8),
            Some(s) => {
                proof {
                    lemma_first_scalar(slice@);
                }
                Ok(s.get_char(0))
            },
        }
    }

    /// Reads the unicode table in `data` for `glyph_count` glyphs.
    fn parse_unicode_table(data: &[u8], glyph_count: usize) -> (r: Result<BTreeMap<u32, usize>, PSF2Error>)
        ensures
            match r {
                Ok(m) => unicode_table(data@, glyph_count as int) == Ok::<Map<u32, usize>, PSF2Error>(m@),
                Err(e) => unicode_table(data@, glyph_count as int) == Err::<Map<u32, usize>, PSF2Error>(e),
            },
    {
        let ghost goal = unicode_table(data@, glyph_count as int);
        let mut map: BTreeMap<u32, usize> = BTreeMap::new();
        let mut pos: usize = 0;
        let mut glyph_index: usize = 0;
        while pos < data.len() && glyph_index < glyph_count
            invariant
                goal == unicode_table(data@, glyph_count as int),
                pos <= data@.len(),
                glyph_index <= glyph_count,
                table_from(data@, pos as int, glyph_index as int, glyph_count as int, map@) == goal,
            decreases glyph_count - glyph_index,
        {
            loop
                invariant_except_break
                    table_from(data@, pos as int, glyph_index as int, glyph_count as int, map@) == goal,
                invariant
                    goal == unicode_table(data@, glyph_count as int),
                    pos <= data@.len(),
                    glyph_index < glyph_count,
                ensures
                    pos <= data@.len(),
                    glyph_index < glyph_count,
                    table_from(data@, pos as int, glyph_index + 1, glyph_count as int, map@) == goal,
                decreases data@.len() - pos,
            {
                if pos >= data.len() {
                    break;
                }
                if data[pos] == PSF2_SEPARATOR {
                    pos = pos + 1;
                    if pos < data.len() && data[pos] == PSF2_SEPARATOR {
                        return Ok(map);
                    }
                    break;
                }
                proof {
                    lemma_separator_bounds(data@, pos + 1);
                    assert(run_at(data@, pos as int).len() > 0);
                }
                let ch = match Self::decode_utf8(data, pos) {
                    Ok(c) => c,
                    Err(e) => {
                        return Err(e);
                    },
                };
                let ghost run = run_at(data@, pos as int);
                proof {
                    lemma_separator_bounds(data@, pos as int);
                    lemma_first_scalar(run);
                }
                let b = data[pos];
                let width: usize = if b <= 0x7f {
                    1
                } else if b <= 0xdf {
                    2
                } else if b <= 0xef {
                    3
                } else {
                    4
                };
                pos = pos + width;
                map.insert(ch as u32, glyph_index);
            }
            glyph_index = glyph_index + 1;
        }
        Ok(map)
    }

    /// Reads a font from `data`: a header, the glyph bitmaps, and, where the
    /// header's flag says so, a unicode table.
    pub fn new(data: &[u8]) -> (r: Result<PSF2Font, PSF2Error>)
        requires
            header_accepted(data@) ==> glyph_data_size(data@) <= u32::MAX,
        ensures
            match r {
                Ok(f) => {
                    &&& font_error(data@) is None
                    &&& f.width == header_of(data@).width
                    &&& f.height == header_of(data@).height
                    &&& f.bytes_per_glyph == header_of(data@).bytes_per_glyph as usize
                    &&& f.glyph_bytes@ == data@.subrange(
                        PSF2_HEADER_SIZE as int,
                        PSF2_HEADER_SIZE + glyph_data_size(data@),
                    )
                    &&& f.unicode_map@ == font_unicode_map(data@)
                    &&& f.wf()
                },
                Err(e) => font_error(data@) == Some(e),
            },
    {
        if data.len() < PSF2_HEADER_SIZE {
            return Err(PSF2Error::DataTooSmall);
        }
        let header = PSF2Header::read(data);
        if header.magic != PSF2_MAGIC {
            return Err(PSF2Error::InvalidMagic);
        }
        if header.version != 0 {
            return Err(PSF2Error::InvalidVersion);
        }
        if header.headersize as usize != PSF2_HEADER_SIZE {
            return Err(PSF2Error::InvalidHeaderSize);
        }
        let glyph_data_size = header.numglyph * header.bytes_per_glyph;
        if (data.len() as u64) < PSF2_HEADER_SIZE as u64 + glyph_data_size as u64 {
            return Err(PSF2Error::TruncatedGlyphData);
        }
        let end = PSF2_HEADER_SIZE + glyph_data_size as usize;
        let glyphs = slice_to_vec(&data[PSF2_HEADER_SIZE..end]);
        let mut unicode_map: BTreeMap<u32, usize> = BTreeMap::new();
        if header.flags & PSF2_HAS_UNICODE_TABLE != 0 {
            let rest = &data[end..data.len()];
            assert(rest@ == table_bytes(data@));
            match Self::parse_unicode_table(rest, header.numglyph as usize) {
                Ok(m) => {
                    unicode_map = m;
                },
                Err(e) => {
                    return Err(e);
                },
            }
        }
        proof {
            let n = header.numglyph as int;
            let b = header.bytes_per_glyph as int;
            lemma_table_below(table_bytes(data@), 0, 0, n, Map::empty());
            if b > 0 {
                lemma_fundamental_div_mod_converse(n * b, b, n, 0);
            }
        }
        Ok(PSF2Font {
            width: header.width,
            height: header.height,
            glyph_bytes: glyphs,
            bytes_per_glyph: header.bytes_per_glyph as usize,
            unicode_map,
        })
    }

    /// How many glyphs the font holds.
    pub fn glyph_count(&self) -> (r: usize)
        requires
            self.bytes_per_glyph > 0,
        ensures
            r == self.glyph_bytes@.len() as int / self.bytes_per_glyph as int,
    {
        self.glyph_bytes.len() / self.bytes_per_glyph
    }

    /// How many characters the unicode table maps.
    pub fn unicode_count(&self) -> (r: usize)
        ensures
            r == self.unicode_map@.len(),
    {
        self.unicode_map.len()
    }

    /// The bitmap of the glyph that `ch` draws: its entry in the unicode
    /// table, else the glyph at its own code point; `None` if neither exists.
    pub fn get_glyph(&self, ch: char) -> (r: Option<&[u8]>)
        requires
            self.wf(),
            self.bytes_per_glyph > 0 || self.unicode_map@.contains_key(ch as u32),
        ensures
            match glyph_index(
                self.glyph_bytes@,
                self.bytes_per_glyph as int,
                self.unicode_map@,
                ch,
            ) {
                Some(i) => r matches Some(g) && g@ == self.glyph_bytes@.subrange(
                    i * self.bytes_per_glyph,
                    i * self.bytes_per_glyph + self.bytes_per_glyph,
                ),
                None => r is None,
            },
    {
        let key = ch as u32;
        let idx = match self.unicode_map.get(&key) {
            Some(i) => {
                assert(self.unicode_map@.contains_key(key));
                assert(self.unicode_map@[key] == *i);
                *i
            },
            None => {
                let codepoint = key as usize;
                if codepoint < self.glyph_count() {
                    codepoint
                } else {
                    return None;
                }
            },
        };
        let bpg = self.bytes_per_glyph;
        if bpg == 0 {
            return Some(&self.glyph_bytes.as_slice()[0..0]);
        }
        let n = self.glyph_bytes.len();
        assert(idx < n as int / bpg as int);
        proof {
            lemma_slot_fits(idx as int, bpg as int, n as int);
        }
        let start = idx * bpg;
        let end = start + bpg;
        Some(&self.glyph_bytes.as_slice()[start..end])
    }

    /// Moves each glyph of the unicode table to the slot of its code point,
    /// so that a character's code point indexes its glyph; slots that no
    /// table entry names become zero.
    pub fn reorder_glyphs(&mut self)
        requires
            old(self).wf(),
            old(self).bytes_per_glyph > 0,
        ensures
            final(self).glyph_bytes@ == reordered(
                old(self).glyph_bytes@,
                old(self).bytes_per_glyph as int,
                old(self).unicode_map@,
            ),
            final(self).width == old(self).width,
            final(self).height == old(self).height,
            final(self).bytes_per_glyph == old(self).bytes_per_glyph,
            final(self).unicode_map@ == old(self).unicode_map@,
    {
        let n = self.glyph_bytes.len();
        let bpg = self.bytes_per_glyph;
        let count = self.glyph_count();
        let ghost old_bytes = self.glyph_bytes@;
        let ghost map = self.unicode_map@;
        let ghost target = reordered(old_bytes, bpg as int, map);
        let mut out: Vec<u8> = Vec::new();
        while out.len() < n
            invariant
                out.len() <= n,
                forall|k: int| 0 <= k < out.len() ==> #[trigger] out@[k] == 0,
            decreases n - out.len(),
        {
            out.push(0);
        }
        let mut slot: usize = 0;
        while slot < count
            invariant
                n == old_bytes.len(),
                self.glyph_bytes@ == old_bytes,
                self.unicode_map@ == map,
                bpg == self.bytes_per_glyph,
                bpg > 0,
                count == n as int / bpg as int,
                map_below(map, count as int),
                target == reordered(old_bytes, bpg as int, map),
                slot <= count,
                out.len() == n,
                forall|k: int|
                    0 <= k < n ==> #[trigger] out@[k] == (if k / (bpg as int) < slot {
                        target[k]
                    } else {
                        0u8
                    }),
            decreases count - slot,
        {
            proof {
                lemma_slot_fits(slot as int, bpg as int, n as int);
            }
            let found = if slot as u64 <= 0xFFFF_FFFFu64 {
                self.unicode_map.get(&(slot as u32))
            } else {
                None
            };
            match found {
                Some(idx_ref) => {
                    let idx = *idx_ref;
                    proof {
                        lemma_slot_fits(idx as int, bpg as int, n as int);
                    }
                    let mut j: usize = 0;
                    while j < bpg
                        invariant
                            n == old_bytes.len(),
                            self.glyph_bytes@ == old_bytes,
                            bpg > 0,
                            slot < count,
                            count == n as int / bpg as int,
                            slot * bpg + bpg <= n,
                            idx * bpg + bpg <= n,
                            slot <= u32::MAX,
                            map.contains_key(slot as u32),
                            map[slot as u32] == idx,
                            target == reordered(old_bytes, bpg as int, map),
                            j <= bpg,
                            out.len() == n,
                            forall|k: int|
                                0 <= k < n ==> #[trigger] out@[k] == (if k / (bpg as int) < slot || (k
                                    / (bpg as int) == slot && k % (bpg as int) < j) {
                                    target[k]
                                } else {
                                    0u8
                                }),
                        decreases bpg - j,
                    {
                        let byte = self.glyph_bytes[idx * bpg + j];
                        let ghost at = slot * bpg + j;
                        proof {
                            lemma_slot(at as int, bpg as int, slot as int, j as int);
                        }
                        out.set(slot * bpg + j, byte);
                        proof {
                            assert forall|k: int| 0 <= k < n implies #[trigger] out@[k] == (if k / (bpg as int) < slot || (k
                                / (bpg as int) == slot && k % (bpg as int) < j + 1) {
                                target[k]
                            } else {
                                0u8
                            }) by {
                                if k != at && k / (bpg as int) == slot && k % (bpg as int) == j {
                                    let b = bpg as int;
                                    vstd::arithmetic::div_mod::lemma_fundamental_div_mod(k, b);
                                    assert(k == slot * b + j) by (nonlinear_arith)
                                        requires
                                            k == b * (k / b) + k % b,
                                            k / b == slot,
                                            k % b == j,
                                    ;
                                }
                            }
                        }
                        j = j + 1;
                    }
                    proof {
                        assert forall|k: int| 0 <= k < n implies #[trigger] out@[k] == (if k / (bpg as int) < slot + 1 {
                            target[k]
                        } else {
                            0u8
                        }) by {
                            if k / (bpg as int) == slot {
                                assert(k % (bpg as int) < bpg);
                            }
                        }
                    }
                },
                None => {
                    proof {
                        assert forall|k: int| 0 <= k < n implies #[trigger] out@[k] == (if k / (bpg as int) < slot + 1 {
                            target[k]
                        } else {
                            0u8
                        }) by {
                            if k / (bpg as int) == slot {
                                assert(target[k] == 0u8);
                            }
                        }
                    }
                },
            }
            slot = slot + 1;
        }
        proof {
            assert forall|k: int| 0 <= k < n implies #[trigger] out@[k] == target[k] by {
                if k / (bpg as int) >= count {
                    assert(target[k] == 0u8);
                }
            }
            assert(out@ == target);
        }
        self.glyph_bytes = out;
    }

    /// Whether pixel (`x`, `y`) of `glyph` is set: each row of the glyph
    /// takes `width` bits rounded up to whole bytes, leftmost pixel in the
    /// high bit.
    pub fn glyph_pixel(&self, glyph: &[u8], x: u32, y: u32) -> (r: bool)
        requires
            x < self.width,
            y < self.height,
            y * row_bytes(self.width) <= u32::MAX,
            y * row_bytes(self.width) + x / 8 < glyph@.len(),
        ensures
            r == (glyph@[y * row_bytes(self.width) + x / 8] & (0x80u8 >> (x % 8) as u8) != 0),
    {
        let bytes_per_row = self.width / 8 + if self.width % 8 != 0 { 1u32 } else { 0u32 };
        assert(bytes_per_row == row_bytes(self.width));
        let row = y * bytes_per_row;
        assert(row == y * row_bytes(self.width));
        let row_start = row as usize;
        let len = glyph.len();
        assert(row_start + x / 8 < len);
        let byte = glyph[row_start + (x / 8) as usize];
        let mask: u8 = 0x80u8 >> ((x % 8) as u8);
        byte & mask != 0
    }

    /// The glyph drawn for `ch`: its own, else that of `?`.
    pub open spec fn drawn_glyph(&self, ch: char) -> Option<int> {
        match glyph_index(self.glyph_bytes@, self.bytes_per_glyph as int, self.unicode_map@, ch) {
            Some(i) => Some(i),
            None => glyph_index(self.glyph_bytes@, self.bytes_per_glyph as int, self.unicode_map@, '?'),
        }
    }

    /// A character is drawn with its own glyph where the font has one (a
    /// table entry winning over the code point), and with the glyph of `?`
    /// only where it has none.
    pub proof fn lemma_drawn_glyph(&self, ch: char)
        ensures
            self.unicode_map@.contains_key(ch as u32) ==> self.drawn_glyph(ch) == Some(
                self.unicode_map@[ch as u32] as int,
            ),
            glyph_index(self.glyph_bytes@, self.bytes_per_glyph as int, self.unicode_map@, ch) is None
                ==> self.drawn_glyph(ch) == glyph_index(
                self.glyph_bytes@,
                self.bytes_per_glyph as int,
                self.unicode_map@,
                '?',
            ),
    {
    }

    /// Whether pixel (`col`, `row`) of glyph `i` is set.
    pub open spec fn glyph_bit(&self, i: int, col: int, row: int) -> bool {
        self.glyph_bytes@[i * self.bytes_per_glyph + row * row_bytes(self.width) + col / 8] & (0x80u8 >> (col
            % 8) as u8) != 0
    }

    /// The framebuffer writes that draw `c` with its top-left pixel at
    /// (`x`, `y`) on a screen of `pitch` bytes per line and
    /// `bytes_per_pixel` bytes per pixel: one list per glyph row, one entry
    /// per pixel, giving the byte offset of the 32-bit pixel and the colour
    /// written there: `fg` where the glyph's bit is set, else `bg`, and
    /// nothing (`None`) where the bit is clear and `bg` is `None`. A
    /// character the font lacks is drawn as `?`; `None` if the font lacks
    /// that too.
    pub fn char_pixels(
        &self,
        c: char,
        x: u32,
        y: u32,
        fg: u32,
        bg: Option<u32>,
        pitch: u32,
        bytes_per_pixel: u32,
    ) -> (r: Option<Vec<Vec<(usize, Option<u32>)>>>)
        requires
            self.wf(),
            self.bytes_per_glyph > 0,
            self.height * row_bytes(self.width) <= self.bytes_per_glyph,
            self.height * row_bytes(self.width) <= u32::MAX,
            y * pitch + x * bytes_per_pixel + self.height * pitch <= u32::MAX,
            y * pitch + x * bytes_per_pixel + self.height * pitch + 4 * self.width <= usize::MAX,
        ensures
            match self.drawn_glyph(c) {
                None => r is None,
                Some(i) => r matches Some(rows) && {
                    &&& rows.len() == self.height
                    &&& forall|row: int| 0 <= row < self.height ==> (#[trigger] rows[row]).len() == self.width
                    &&& forall|row: int, col: int|
                        0 <= row < self.height && 0 <= col < self.width ==> #[trigger] rows[row][col] == (
                            (y * pitch + x * bytes_per_pixel + row * pitch + 4 * col) as usize,
                            if self.glyph_bit(i, col, row) {
                                Some(fg)
                            } else {
                                bg
                            },
                        )
                },
            },
    {
        let glyph = match self.get_glyph(c) {
            Some(g) => g,
            None => match self.get_glyph('?') {
                Some(g) => g,
                None => {
                    return None;
                },
            },
        };
        let ghost i = self.drawn_glyph(c)->0;
        let ghost bpg = self.bytes_per_glyph as int;
        let ghost rb = row_bytes(self.width);
        proof {
            let n = self.glyph_bytes@.len() as int;
            let key = if glyph_index(self.glyph_bytes@, bpg, self.unicode_map@, c) is Some {
                c
            } else {
                '?'
            };
            if self.unicode_map@.contains_key(key as u32) {
                assert(self.unicode_map@[key as u32] < n / bpg);
            }
            lemma_slot_fits(i, bpg, n);
            assert(glyph@ == self.glyph_bytes@.subrange(i * bpg, i * bpg + bpg));
            assert(glyph@.len() == bpg);
        }
        let row0: u32 = y * pitch + x * bytes_per_pixel;
        let mut rows: Vec<Vec<(usize, Option<u32>)>> = Vec::new();
        let mut offset: u32 = row0;
        let mut font_y: u32 = 0;
        while font_y < self.height
            invariant
                glyph@ == self.glyph_bytes@.subrange(i * bpg, i * bpg + bpg),
                glyph@.len() == bpg,
                0 <= i * bpg,
                i * bpg + bpg <= self.glyph_bytes@.len(),
                bpg == self.bytes_per_glyph,
                rb == row_bytes(self.width),
                self.height * rb <= bpg,
                self.height * rb <= u32::MAX,
                row0 == y * pitch + x * bytes_per_pixel,
                row0 + self.height * pitch <= u32::MAX,
                row0 + self.height * pitch + 4 * self.width <= usize::MAX,
                font_y <= self.height,
                rows.len() == font_y,
                offset == row0 + font_y * pitch,
                forall|row: int| 0 <= row < font_y ==> (#[trigger] rows[row]).len() == self.width,
                forall|row: int, col: int|
                    0 <= row < font_y && 0 <= col < self.width ==> #[trigger] rows[row][col] == (
                        (y * pitch + x * bytes_per_pixel + row * pitch + 4 * col) as usize,
                        if self.glyph_bit(i, col, row) {
                            Some(fg)
                        } else {
                            bg
                        },
                    ),
            decreases self.height - font_y,
        {
            proof {
                lemma_row_within(font_y as int, self.height as int, pitch as int);
                lemma_row_within(font_y as int, self.height as int, rb);
            }
            let mut line: Vec<(usize, Option<u32>)> = Vec::new();
            let mut font_x: u32 = 0;
            let mut pixel: usize = offset as usize;
            while font_x < self.width
                invariant
                    glyph@ == self.glyph_bytes@.subrange(i * bpg, i * bpg + bpg),
                    glyph@.len() == bpg,
                    0 <= i * bpg,
                    i * bpg + bpg <= self.glyph_bytes@.len(),
                    bpg == self.bytes_per_glyph,
                    rb == row_bytes(self.width),
                    font_y < self.height,
                    font_y * rb + rb <= bpg,
                    font_y * rb <= u32::MAX,
                    offset == row0 + font_y * pitch,
                    offset + 4 * self.width <= usize::MAX,
                    row0 == y * pitch + x * bytes_per_pixel,
                    font_x <= self.width,
                    line.len() == font_x,
                    pixel == offset + 4 * font_x,
                    forall|col: int|
                        0 <= col < font_x ==> #[trigger] line[col] == (
                            (y * pitch + x * bytes_per_pixel + font_y * pitch + 4 * col) as usize,
                            if self.glyph_bit(i, col, font_y as int) {
                                Some(fg)
                            } else {
                                bg
                            },
                        ),
                decreases self.width - font_x,
            {
                assert(font_x / 8 < rb);
                let set = self.glyph_pixel(glyph, font_x, font_y);
                proof {
                    assert(glyph@[font_y * rb + font_x / 8] == self.glyph_bytes@[i * bpg + font_y * rb
                        + font_x / 8]);
                }
                let v = if set {
                    Some(fg)
                } else {
                    bg
                };
                line.push((pixel, v));
                pixel = pixel + 4;
                font_x = font_x + 1;
            }
            rows.push(line);
            offset = offset + pitch;
            font_y = font_y + 1;
        }
        Some(rows)
    }
}

proof fn lemma_row_within(row: int, height: int, a: int)
    by (nonlinear_arith)
    requires
        0 <= row < height,
        a >= 0,
    ensures
        row * a + a <= height * a,
        (row + 1) * a == row * a + a,
        0 <= row * a,
{
}

} // verus!
