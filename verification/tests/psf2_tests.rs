use kernel::graphics::psf2::{PSF2Error, PSF2Font, PSF2Header, PSF2_MAGIC};

fn push_u32(out: &mut Vec<u8>, v: u32) {
    out.extend_from_slice(&v.to_le_bytes());
}

fn font_bytes(
    magic: u32,
    version: u32,
    headersize: u32,
    flags: u32,
    numglyph: u32,
    bytes_per_glyph: u32,
    glyphs: &[u8],
    table: &[u8],
) -> Vec<u8> {
    let mut out = Vec::new();
    push_u32(&mut out, magic);
    push_u32(&mut out, version);
    push_u32(&mut out, headersize);
    push_u32(&mut out, flags);
    push_u32(&mut out, numglyph);
    push_u32(&mut out, bytes_per_glyph);
    push_u32(&mut out, 2);
    push_u32(&mut out, 8);
    out.extend_from_slice(glyphs);
    out.extend_from_slice(table);
    out
}

const GLYPHS: [u8; 8] = [0x10, 0x11, 0x20, 0x21, 0x30, 0x31, 0x40, 0x41];

// glyph 0: 'A'; glyph 1: 'B', 'b'; glyph 2: 'é' (two bytes); then the end marker.
const TABLE: [u8; 10] = [0x41, 0xFF, 0x42, 0x62, 0xFF, 0xC3, 0xA9, 0xFF, 0xFF, 0xFF];

fn sample_font() -> PSF2Font {
    let data = font_bytes(PSF2_MAGIC, 0, 32, 1, 4, 2, &GLYPHS, &TABLE);
    PSF2Font::new(&data).unwrap()
}

#[test]
fn header_is_read_little_endian() {
    let data = font_bytes(PSF2_MAGIC, 0, 32, 1, 4, 2, &GLYPHS, &TABLE);
    let h = PSF2Header::read(&data);
    assert_eq!(h.magic, 0x864ab572);
    assert_eq!(h.version, 0);
    assert_eq!(h.headersize, 32);
    assert_eq!(h.flags, 1);
    assert_eq!(h.numglyph, 4);
    assert_eq!(h.bytes_per_glyph, 2);
    assert_eq!(h.height, 2);
    assert_eq!(h.width, 8);
}

#[test]
fn font_fields_come_from_the_header() {
    let font = sample_font();
    assert_eq!(font.width, 8);
    assert_eq!(font.height, 2);
    assert_eq!(font.bytes_per_glyph, 2);
    assert_eq!(font.glyph_bytes, GLYPHS.to_vec());
    assert_eq!(font.glyph_count(), 4);
}

#[test]
fn unicode_table_maps_each_entry_to_its_glyph() {
    let font = sample_font();
    assert_eq!(font.unicode_count(), 4);
    assert_eq!(font.unicode_map.get(&('A' as u32)), Some(&0));
    assert_eq!(font.unicode_map.get(&('B' as u32)), Some(&1));
    assert_eq!(font.unicode_map.get(&('b' as u32)), Some(&1));
    // a two-byte sequence decodes to one character
    assert_eq!(font.unicode_map.get(&0xE9), Some(&2));
    assert_eq!(font.unicode_map.get(&0xC3), None);
}

#[test]
fn glyph_lookup_goes_through_the_map_then_the_code_point() {
    let font = sample_font();
    assert_eq!(font.get_glyph('b'), Some(&GLYPHS[2..4]));
    assert_eq!(font.get_glyph('é'), Some(&GLYPHS[4..6]));
    // code point 3 is not in the map but names a glyph
    assert_eq!(font.get_glyph('\u{3}'), Some(&GLYPHS[6..8]));
    // neither in the map nor a glyph index
    assert_eq!(font.get_glyph('Z'), None);
}

#[test]
fn font_without_table_flag_has_empty_map() {
    let data = font_bytes(PSF2_MAGIC, 0, 32, 0, 4, 2, &GLYPHS, &TABLE);
    let font = PSF2Font::new(&data).unwrap();
    assert_eq!(font.unicode_count(), 0);
    assert_eq!(font.get_glyph('\u{1}'), Some(&GLYPHS[2..4]));
}

#[test]
fn table_stops_after_the_last_glyph() {
    // two glyphs, but the table lists three
    let table = [0x41, 0xFF, 0x42, 0xFF, 0x43, 0xFF];
    let data = font_bytes(PSF2_MAGIC, 0, 32, 1, 2, 2, &GLYPHS[..4], &table);
    let font = PSF2Font::new(&data).unwrap();
    assert_eq!(font.unicode_count(), 2);
    assert_eq!(font.unicode_map.get(&('C' as u32)), None);
}

#[test]
fn later_entry_for_a_character_wins() {
    let table = [0x41, 0xFF, 0x41, 0xFF];
    let data = font_bytes(PSF2_MAGIC, 0, 32, 1, 2, 2, &GLYPHS[..4], &table);
    let font = PSF2Font::new(&data).unwrap();
    assert_eq!(font.unicode_map.get(&('A' as u32)), Some(&1));
}

#[test]
fn short_data_is_rejected() {
    let data = vec![0u8; 31];
    assert_eq!(PSF2Font::new(&data).unwrap_err(), PSF2Error::DataTooSmall);
}

#[test]
fn wrong_magic_is_rejected() {
    let data = font_bytes(0x1234_5678, 0, 32, 0, 4, 2, &GLYPHS, &[]);
    assert_eq!(PSF2Font::new(&data).unwrap_err(), PSF2Error::InvalidMagic);
}

#[test]
fn nonzero_version_is_rejected() {
    let data = font_bytes(PSF2_MAGIC, 1, 32, 0, 4, 2, &GLYPHS, &[]);
    assert_eq!(PSF2Font::new(&data).unwrap_err(), PSF2Error::InvalidVersion);
}

#[test]
fn wrong_header_size_is_rejected() {
    let data = font_bytes(PSF2_MAGIC, 0, 16, 0, 4, 2, &GLYPHS, &[]);
    assert_eq!(PSF2Font::new(&data).unwrap_err(), PSF2Error::InvalidHeaderSize);
}

#[test]
fn truncated_glyphs_are_rejected() {
    let data = font_bytes(PSF2_MAGIC, 0, 32, 0, 5, 2, &GLYPHS, &[]);
    assert_eq!(PSF2Font::new(&data).unwrap_err(), PSF2Error::TruncatedGlyphData);
}

#[test]
fn invalid_utf8_in_table_is_rejected() {
    let table = [0xC3, 0x28, 0xFF];
    let data = font_bytes(PSF2_MAGIC, 0, 32, 1, 4, 2, &GLYPHS, &table);
    assert_eq!(PSF2Font::new(&data).unwrap_err(), PSF2Error::InvalidUTF8);
}

#[test]
fn invalid_utf8_later_in_an_entry_run_is_rejected() {
    // the first character is fine, but the run up to the separator is not UTF-8
    let table = [0x41, 0xC3, 0xFF];
    let data = font_bytes(PSF2_MAGIC, 0, 32, 1, 4, 2, &GLYPHS, &table);
    assert_eq!(PSF2Font::new(&data).unwrap_err(), PSF2Error::InvalidUTF8);
}

#[test]
fn reorder_moves_glyphs_to_their_code_points() {
    let glyphs: Vec<u8> = (1..=100u8).collect();
    // glyph 0 draws 'A', glyph 1 draws 'B'
    let table = [0x41, 0xFF, 0x42, 0xFF, 0xFF];
    let data = font_bytes(PSF2_MAGIC, 0, 32, 1, 100, 1, &glyphs, &table);
    let mut font = PSF2Font::new(&data).unwrap();
    font.reorder_glyphs();
    assert_eq!(font.glyph_bytes.len(), 100);
    assert_eq!(font.glyph_bytes[65], 1);
    assert_eq!(font.glyph_bytes[66], 2);
    for (k, b) in font.glyph_bytes.iter().enumerate() {
        if k != 65 && k != 66 {
            assert_eq!(*b, 0, "slot {k}");
        }
    }
    assert_eq!(font.unicode_count(), 2);
}

#[test]
fn pixels_read_high_bit_first() {
    let font = sample_font();
    let glyph = [0b1000_0001u8, 0b0100_0000];
    assert!(font.glyph_pixel(&glyph, 0, 0));
    assert!(!font.glyph_pixel(&glyph, 1, 0));
    assert!(font.glyph_pixel(&glyph, 7, 0));
    assert!(font.glyph_pixel(&glyph, 1, 1));
    assert!(!font.glyph_pixel(&glyph, 0, 1));
}

fn two_glyph_font(with_fallback: bool) -> PSF2Font {
    let mut unicode_map = std::collections::BTreeMap::new();
    unicode_map.insert('A' as u32, 0usize);
    if with_fallback {
        unicode_map.insert('?' as u32, 1usize);
    }
    PSF2Font {
        width: 2,
        height: 2,
        glyph_bytes: vec![0b1000_0001, 0b0100_0000, 0xFF, 0x00],
        bytes_per_glyph: 2,
        unicode_map,
    }
}

#[test]
fn char_pixels_place_each_pixel() {
    let font = two_glyph_font(true);
    let rows = font.char_pixels('A', 1, 2, 0xAB, None, 100, 4).unwrap();
    assert_eq!(rows, vec![vec![(204, Some(0xAB)), (208, None)], vec![(304, None), (308, Some(0xAB))]]);
    let rows = font.char_pixels('A', 0, 0, 0xAB, Some(7), 16, 4).unwrap();
    assert_eq!(rows, vec![vec![(0, Some(0xAB)), (4, Some(7))], vec![(16, Some(7)), (20, Some(0xAB))]]);
}

#[test]
fn char_pixels_fall_back_to_question_mark() {
    let font = two_glyph_font(true);
    let rows = font.char_pixels('Z', 0, 0, 1, Some(2), 8, 4).unwrap();
    assert_eq!(rows, vec![vec![(0, Some(1)), (4, Some(1))], vec![(8, Some(2)), (12, Some(2))]]);
    let font = two_glyph_font(false);
    assert_eq!(font.char_pixels('Z', 0, 0, 1, Some(2), 8, 4), None);
}
