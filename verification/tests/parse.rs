//! Tests for the four format parsers.
use tfon::Prop;

#[test]
fn tfon_parses_header_and_glyph() {
    let buf = "font_name: demo\nfont_number: 2\nchar_spacing: 1\nline_spacing: 3\n\nch: 65 A\n.@\n@.\n";
    let mut p = tfon::tfon::Parser::new(buf);
    assert!(matches!(p.prop(), Some(Prop::FontName(n)) if n == b"demo"));
    assert!(matches!(p.prop(), Some(Prop::FontNumber(2))));
    assert!(matches!(p.prop(), Some(Prop::CharSpacing(1))));
    assert!(matches!(p.prop(), Some(Prop::LineSpacing(3))));
    assert!(matches!(p.prop(), Some(Prop::CodePoint(65))));
    match p.prop() {
        Some(Prop::Bitmap(b)) => {
            assert_eq!(b.width(), 2);
            assert_eq!(b.height(), 2);
            assert_eq!(b.pixels(), vec![false, true, true, false]);
        }
        _ => panic!("expected bitmap"),
    }
    assert!(p.prop().is_none());
}

#[test]
fn tfon_symbol_match_accepts() {
    // Symbol table entry 65 is "A", so `ch: 65 A` parses.
    let mut p = tfon::tfon::Parser::new("ch: 65 A\n");
    assert!(matches!(p.prop(), Some(Prop::CodePoint(65))));
}

#[test]
fn tfon_symbol_mismatch_ends_sequence() {
    // Symbol table entry 65 is "A", not "Z": the line is rejected and the
    // sequence ends at that point.
    let mut p = tfon::tfon::Parser::new("ch: 65 Z\nfont_number: 2\n");
    assert!(p.prop().is_none());
}

#[test]
fn tfon_symbol_mnemonics() {
    let mut p = tfon::tfon::Parser::new("ch: 0 NUL\n\nch: 32 SP\n\nch: 160 NBSP\n\nch: 173 SHY\n");
    assert!(matches!(p.prop(), Some(Prop::CodePoint(0))));
    assert!(matches!(p.prop(), Some(Prop::CodePoint(32))));
    assert!(matches!(p.prop(), Some(Prop::CodePoint(160))));
    assert!(matches!(p.prop(), Some(Prop::CodePoint(173))));
    assert!(p.prop().is_none());
}

#[test]
fn tfon_latin1_symbol() {
    // Entry 224 is the Latin-1 character itself, UTF-8 encoded.
    let mut line: Vec<u8> = b"ch: 224 ".to_vec();
    line.extend_from_slice(&[0xC3, 0xA0]);
    line.push(b'\n');
    let buf = String::from_utf8(line).unwrap();
    let mut p = tfon::tfon::Parser::new(&buf);
    assert!(matches!(p.prop(), Some(Prop::CodePoint(224))));
}

#[test]
fn tfon_out_of_range_codepoint_ends_sequence() {
    let mut p = tfon::tfon::Parser::new("ch: 300 A\n");
    assert!(p.prop().is_none());
}

#[test]
fn tfon_unknown_key() {
    let mut p = tfon::tfon::Parser::new("weight: bold\n");
    assert!(matches!(p.prop(), Some(Prop::Unknown(k)) if k == b"weight"));
}

#[test]
fn ifntx_parses_scalars_and_glyph() {
    let buf = "name: old\nfont_number: 7\nheight: 8\nwidth: 5\nchar_spacing: 1\nline_spacing: 2\ncodepoint: 66 B\n.X\nX.\n";
    let mut p = tfon::ifntx::Parser::new(buf);
    assert!(matches!(p.prop(), Some(Prop::FontName(n)) if n == b"old"));
    assert!(matches!(p.prop(), Some(Prop::FontNumber(7))));
    assert!(matches!(p.prop(), Some(Prop::FontHeight(8))));
    assert!(matches!(p.prop(), Some(Prop::FontWidth(5))));
    assert!(matches!(p.prop(), Some(Prop::CharSpacing(1))));
    assert!(matches!(p.prop(), Some(Prop::LineSpacing(2))));
    assert!(matches!(p.prop(), Some(Prop::CodePoint(66))));
    match p.prop() {
        Some(Prop::Bitmap(b)) => {
            assert_eq!(b.pixels(), vec![false, true, true, false]);
        }
        _ => panic!("expected bitmap"),
    }
    assert!(p.prop().is_none());
}

#[test]
fn ifntx_row_width_change_pushes_back() {
    // Rows of width 8 then one of width 6: the character stops at the
    // width-6 row, which stays available as the start of the next property.
    let buf = "name: x\n........\nXXXXXXXX\nXXXXXX\nheight: 8\n";
    let mut p = tfon::ifntx::Parser::new(buf);
    assert!(matches!(p.prop(), Some(Prop::FontName(_))));
    match p.prop() {
        Some(Prop::Bitmap(b)) => {
            assert_eq!(b.width(), 8);
            assert_eq!(b.height(), 2);
        }
        _ => panic!("expected first bitmap"),
    }
    match p.prop() {
        Some(Prop::Bitmap(b)) => {
            assert_eq!(b.width(), 6);
            assert_eq!(b.height(), 1);
            assert_eq!(b.pixels(), vec![true; 6]);
        }
        _ => panic!("expected the pushed-back row to start a new bitmap"),
    }
    assert!(matches!(p.prop(), Some(Prop::FontHeight(8))));
    assert!(p.prop().is_none());
}

#[test]
fn tfon_row_width_change_pushes_back() {
    let buf = "font_name: x\n@@@@@@@@\n@@@@@@@@\n@@@@@@\nfont_number: 4\n";
    let mut p = tfon::tfon::Parser::new(buf);
    assert!(matches!(p.prop(), Some(Prop::FontName(_))));
    match p.prop() {
        Some(Prop::Bitmap(b)) => {
            assert_eq!(b.width(), 8);
            assert_eq!(b.height(), 2);
        }
        _ => panic!("expected first bitmap"),
    }
    match p.prop() {
        Some(Prop::Bitmap(b)) => {
            assert_eq!(b.width(), 6);
            assert_eq!(b.height(), 1);
        }
        _ => panic!("expected second bitmap"),
    }
    assert!(matches!(p.prop(), Some(Prop::FontNumber(4))));
}

#[test]
fn ifnt_parses_header_and_glyph() {
    let buf = "[FontInfo]\nFontName=demo\nFontHeight=2\nCharSpacing=1\nLineSpacing=0\nMaxCharNumber=65\n\n[Char_65]\nCharacter='A'\nrow01= . X\nrow02= X .\n";
    let mut p = tfon::ifnt::Parser::new(buf);
    assert!(matches!(p.prop(), Some(Prop::Unknown(l)) if l == b"[FontInfo]"));
    assert!(matches!(p.prop(), Some(Prop::FontName(n)) if n == b"demo"));
    assert!(matches!(p.prop(), Some(Prop::FontHeight(2))));
    assert!(matches!(p.prop(), Some(Prop::CharSpacing(1))));
    assert!(matches!(p.prop(), Some(Prop::LineSpacing(0))));
    assert!(matches!(p.prop(), Some(Prop::MaxCharNumber(65))));
    assert!(matches!(p.prop(), Some(Prop::CodePoint(65))));
    match p.prop() {
        Some(Prop::Bitmap(b)) => {
            assert_eq!(b.width(), 2);
            assert_eq!(b.height(), 2);
            assert_eq!(b.pixels(), vec![false, true, true, false]);
        }
        _ => panic!("expected bitmap"),
    }
    assert!(p.prop().is_none());
}

#[test]
fn ifnt_malformed_char_section_ends_sequence() {
    let mut p = tfon::ifnt::Parser::new("[Char_xx]\n");
    assert!(p.prop().is_none());
}

#[test]
fn ifnt_unknown_key_yields_key_only() {
    let mut p = tfon::ifnt::Parser::new("Weight=bold\n");
    assert!(matches!(p.prop(), Some(Prop::Unknown(k)) if k == b"Weight"));
}

#[test]
fn bdf_parses_properties_and_glyph() {
    let buf = "STARTFONT 2.1\nFONT fixed one\nSIZE 8 75 75\nFONT_ASCENT 7\nENDPROPERTIES\nENCODING 65\nDWIDTH 8 0\nBBX 8 8 0 0\nBITMAP\n7E\n81\nENDCHAR\nENDFONT\n";
    let mut p = tfon::bdf::Parser::new(buf);
    assert!(matches!(p.prop(), Some(Prop::Unknown(l)) if l == b"STARTFONT 2.1"));
    assert!(matches!(p.prop(), Some(Prop::FontName(n)) if n == b"fixed one"));
    assert!(matches!(p.prop(), Some(Prop::FontHeight(8))));
    assert!(matches!(p.prop(), Some(Prop::Baseline(7))));
    assert!(matches!(p.prop(), Some(Prop::CodePoint(65))));
    match p.prop() {
        Some(Prop::Bitmap(b)) => {
            assert_eq!(b.width(), 8);
            assert_eq!(b.height(), 2);
            assert_eq!(b.into_bits(), vec![0x7E, 0x81]);
        }
        _ => panic!("expected bitmap"),
    }
    assert!(p.prop().is_none());
}

#[test]
fn bdf_dwidth_zero_halts_parsing() {
    // A zero DWIDTH yields no bitmap for the character and halts parsing.
    let buf = "FONT f\nENCODING 65\nDWIDTH 0\nBBX 8 8 0 0\nBITMAP\n7E\nENDCHAR\nENCODING 66\n";
    let mut p = tfon::bdf::Parser::new(buf);
    assert!(matches!(p.prop(), Some(Prop::FontName(_))));
    assert!(matches!(p.prop(), Some(Prop::CodePoint(65))));
    assert!(p.prop().is_none());
}

#[test]
fn bdf_endproperties_is_transparent() {
    let mut p = tfon::bdf::Parser::new("ENDPROPERTIES\nFONT abc\n");
    assert!(matches!(p.prop(), Some(Prop::FontName(n)) if n == b"abc"));
}

#[test]
fn bdf_missing_bitmap_line_aborts_character() {
    let buf = "DWIDTH 4\nBBX 4 4 0 0\nNOTBITMAP\n";
    let mut p = tfon::bdf::Parser::new(buf);
    assert!(p.prop().is_none());
}

#[test]
fn blank_lines_are_skipped_everywhere() {
    let buf = "\n\nfont_name: demo\n\n\nfont_number: 9\n\n";
    let mut p = tfon::tfon::Parser::new(buf);
    assert!(matches!(p.prop(), Some(Prop::FontName(n)) if n == b"demo"));
    assert!(matches!(p.prop(), Some(Prop::FontNumber(9))));
    assert!(p.prop().is_none());
}

#[test]
fn crlf_line_endings_are_accepted() {
    let buf = "font_name: demo\r\nfont_number: 9\r\n";
    let mut p = tfon::tfon::Parser::new(buf);
    assert!(matches!(p.prop(), Some(Prop::FontName(n)) if n == b"demo"));
    assert!(matches!(p.prop(), Some(Prop::FontNumber(9))));
}

#[test]
fn numeric_parse_failure_ends_sequence() {
    let mut p = tfon::tfon::Parser::new("font_number: 300\nfont_name: x\n");
    assert!(p.prop().is_none());
    let mut q = tfon::ifntx::Parser::new("height: ten\n");
    assert!(q.prop().is_none());
}
