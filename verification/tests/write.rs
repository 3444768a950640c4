//! Tests for the two writers and the round-trip behaviour.
use tfon::{Bitmap, Error, Prop};

fn glyph2x2() -> Bitmap {
    let mut b = Bitmap::new(2);
    b.push_row(&[false, true]);
    b.push_row(&[true, false]);
    b
}

#[test]
fn tfon_writer_exact_output() {
    let props = vec![
        Prop::FontName(b"abc"),
        Prop::CodePoint(65),
        Prop::Bitmap(glyph2x2()),
    ];
    let out = tfon::tfon::write(props).unwrap();
    let mut expected = b"font_name: abc".to_vec();
    expected.extend_from_slice(&[b' '; 61]);
    expected.extend_from_slice(b"\nfont_number: 1\nchar_spacing: 0\nline_spacing: 0\n");
    expected.extend_from_slice(b"\nch: 65 A\n.@\n@.\n");
    assert_eq!(out, expected);
}

#[test]
fn tfon_writer_defaults_and_overrides() {
    let props = vec![
        Prop::FontName(b"x"),
        Prop::FontNumber(9),
        Prop::CharSpacing(2),
        Prop::LineSpacing(3),
    ];
    let out = tfon::tfon::write(props).unwrap();
    let text = String::from_utf8(out).unwrap();
    assert!(text.contains("font_number: 9\n"));
    assert!(text.contains("char_spacing: 2\n"));
    assert!(text.contains("line_spacing: 3\n"));
}

#[test]
fn tfon_writer_requires_font_name() {
    let props = vec![Prop::FontNumber(1)];
    match tfon::tfon::write(props) {
        Err(Error::Expected(m)) => assert_eq!(m, "font_name"),
        _ => panic!("expected the font_name error"),
    }
}

#[test]
fn tfon_writer_rejects_codepoint_without_symbol() {
    let props = vec![Prop::FontName(b"x"), Prop::CodePoint(300)];
    match tfon::tfon::write(props) {
        Err(Error::Expected(m)) => assert_eq!(m, "ch"),
        _ => panic!("expected the ch error"),
    }
}

#[test]
fn tfon_writer_rejects_bitmap_before_codepoint() {
    let props = vec![Prop::FontName(b"x"), Prop::Bitmap(glyph2x2())];
    match tfon::tfon::write(props) {
        Err(Error::Expected(m)) => assert_eq!(m, "ch"),
        _ => panic!("expected the ch error"),
    }
}

#[test]
fn ifnt_writer_exact_output() {
    let props = vec![
        Prop::FontName(b"abc"),
        Prop::FontHeight(2),
        Prop::CharSpacing(1),
        Prop::LineSpacing(0),
        Prop::CodePoint(65),
        Prop::Bitmap(glyph2x2()),
    ];
    let out = tfon::ifnt::write(props).unwrap();
    let mut expected = b"[FontInfo]\nFontName=abc".to_vec();
    expected.extend_from_slice(&[b' '; 61]);
    expected.extend_from_slice(b"\nFontHeight=2\nCharSpacing=1\nLineSpacing=0\nMaxCharNumber=65\n");
    expected.extend_from_slice(b"\n[Char_65]\nCharacter='A'\nrow01= . X\nrow02= X .\n");
    assert_eq!(out, expected);
}

#[test]
fn ifnt_writer_hex_codepoint_form() {
    let props = vec![
        Prop::FontName(b"x"),
        Prop::FontHeight(2),
        Prop::CharSpacing(0),
        Prop::LineSpacing(0),
        Prop::CodePoint(10),
        Prop::Bitmap(glyph2x2()),
        Prop::CodePoint(500),
        Prop::Bitmap(glyph2x2()),
    ];
    let out = String::from_utf8(tfon::ifnt::write(props).unwrap()).unwrap();
    assert!(out.contains("[Char_10]\nCharacter=0xa\n"));
    assert!(out.contains("[Char_500]\nCharacter=0x1f4\n"));
    // MaxCharNumber is the last codepoint seen, not the maximum value.
    assert!(out.contains("MaxCharNumber=500\n"));
}

#[test]
fn ifnt_writer_last_codepoint_not_maximum() {
    let props = vec![
        Prop::FontName(b"x"),
        Prop::FontHeight(2),
        Prop::CharSpacing(0),
        Prop::LineSpacing(0),
        Prop::CodePoint(90),
        Prop::Bitmap(glyph2x2()),
        Prop::CodePoint(65),
        Prop::Bitmap(glyph2x2()),
    ];
    let out = String::from_utf8(tfon::ifnt::write(props).unwrap()).unwrap();
    assert!(out.contains("MaxCharNumber=65\n"));
}

#[test]
fn ifnt_writer_missing_scalars() {
    let b = || Prop::Bitmap(glyph2x2());
    match tfon::ifnt::write(vec![]) {
        Err(Error::Expected(m)) => assert_eq!(m, "FontName"),
        _ => panic!("expected FontName error"),
    }
    // A bitmap supplies the font height, so the next missing scalar is
    // CharSpacing.
    match tfon::ifnt::write(vec![Prop::FontName(b"x"), Prop::CodePoint(65), b()]) {
        Err(Error::Expected(m)) => assert_eq!(m, "CharSpacing"),
        _ => panic!("expected CharSpacing error"),
    }
    match tfon::ifnt::write(vec![Prop::FontName(b"x"), Prop::FontHeight(1)]) {
        Err(Error::Expected(m)) => assert_eq!(m, "CharSpacing"),
        _ => panic!("expected CharSpacing error"),
    }
    match tfon::ifnt::write(vec![
        Prop::FontName(b"x"),
        Prop::FontHeight(1),
        Prop::CharSpacing(0),
    ]) {
        Err(Error::Expected(m)) => assert_eq!(m, "LineSpacing"),
        _ => panic!("expected LineSpacing error"),
    }
    match tfon::ifnt::write(vec![
        Prop::FontName(b"x"),
        Prop::FontHeight(1),
        Prop::CharSpacing(0),
        Prop::LineSpacing(0),
    ]) {
        Err(Error::Expected(m)) => assert_eq!(m, "MaxCharNumber"),
        _ => panic!("expected MaxCharNumber error"),
    }
}

#[test]
fn ifnt_writer_two_codepoints_in_a_row() {
    // Two consecutive CodePoint entries with no intervening Bitmap yield
    // the "expected Character" error, not a corrupted file.
    let props = vec![
        Prop::FontName(b"x"),
        Prop::FontHeight(2),
        Prop::CharSpacing(0),
        Prop::LineSpacing(0),
        Prop::CodePoint(65),
        Prop::CodePoint(66),
    ];
    match tfon::ifnt::write(props) {
        Err(Error::Expected(m)) => assert_eq!(m, "Character"),
        _ => panic!("expected the Character error"),
    }
}

#[test]
fn ifnt_writer_bitmap_without_codepoint() {
    let props = vec![
        Prop::FontName(b"x"),
        Prop::FontHeight(2),
        Prop::CharSpacing(0),
        Prop::LineSpacing(0),
        Prop::CodePoint(65),
        Prop::Bitmap(glyph2x2()),
        Prop::Bitmap(glyph2x2()),
    ];
    match tfon::ifnt::write(props) {
        Err(Error::Expected(m)) => assert_eq!(m, "Character"),
        _ => panic!("expected the Character error"),
    }
}

fn collect_tfon(buf: &str) -> Vec<Prop<'_>> {
    let mut p = tfon::tfon::Parser::new(buf);
    let mut v = Vec::new();
    while let Some(prop) = p.prop() {
        v.push(prop);
    }
    v
}

#[test]
fn tfon_round_trip_preserves_values() {
    // Parsing a well-formed tfon document and re-writing it reproduces the
    // same scalar values and pixel-for-pixel bitmaps, though the name gains
    // field padding.
    let doc = "font_name: demo font\nfont_number: 2\nchar_spacing: 1\nline_spacing: 3\n\nch: 65 A\n.@@.\n@..@\n\nch: 66 B\n@@@.\n@..@\n";
    let props1 = collect_tfon(doc);
    let out = tfon::tfon::write(props1).unwrap();
    let text = String::from_utf8(out).unwrap();
    let props1 = collect_tfon(doc);
    let props2 = collect_tfon(&text);
    assert_eq!(props1.len(), props2.len());
    match (&props1[0], &props2[0]) {
        (Prop::FontName(a), Prop::FontName(b)) => {
            let mut padded = a.to_vec();
            while padded.len() < 64 {
                padded.push(b' ');
            }
            assert_eq!(&padded[..], *b);
        }
        _ => panic!("expected names"),
    }
    for (x, y) in props1.iter().zip(props2.iter()).skip(1) {
        match (x, y) {
            (Prop::FontNumber(a), Prop::FontNumber(b)) => assert_eq!(a, b),
            (Prop::CharSpacing(a), Prop::CharSpacing(b)) => assert_eq!(a, b),
            (Prop::LineSpacing(a), Prop::LineSpacing(b)) => assert_eq!(a, b),
            (Prop::CodePoint(a), Prop::CodePoint(b)) => assert_eq!(a, b),
            (Prop::Bitmap(a), Prop::Bitmap(b)) => {
                assert_eq!(a.width(), b.width());
                assert_eq!(a.height(), b.height());
                assert_eq!(a.pixels(), b.pixels());
            }
            _ => panic!("property kinds differ"),
        }
    }
    // A second pass over the writer's own output is byte-identical.
    let out2 = tfon::tfon::write(collect_tfon(&text)).unwrap();
    assert_eq!(text.as_bytes(), &out2[..]);
}

#[test]
fn ifnt_to_tfon_preserves_codepoints_and_bitmaps() {
    // Cross-format: ifnt in, tfon out.  Codepoints and bitmaps survive,
    // MaxCharNumber is dropped, and table-driven symbol names appear.
    let doc = "[FontInfo]\nFontName=demo\nFontHeight=2\nCharSpacing=1\nLineSpacing=0\nMaxCharNumber=66\n\n[Char_65]\nCharacter='A'\nrow01= . X\nrow02= X .\n\n[Char_66]\nCharacter='B'\nrow01= X X\nrow02= . .\n";
    let mut p = tfon::ifnt::Parser::new(doc);
    let mut props = Vec::new();
    while let Some(prop) = p.prop() {
        props.push(prop);
    }
    let out = String::from_utf8(tfon::tfon::write(props).unwrap()).unwrap();
    assert!(out.contains("\nch: 65 A\n.@\n@.\n"));
    assert!(out.contains("\nch: 66 B\n@@\n..\n"));
    assert!(out.contains("char_spacing: 1\n"));
    assert!(!out.contains("MaxCharNumber"));
    assert!(!out.contains("66 MaxChar"));
}

#[test]
fn zero_width_bitmap_writes_nothing() {
    let b = Bitmap::from_bits(3, 0, vec![]).unwrap();
    let props = vec![
        Prop::FontName(b"x"),
        Prop::CodePoint(65),
        Prop::Bitmap(b),
    ];
    let out = String::from_utf8(tfon::tfon::write(props).unwrap()).unwrap();
    assert!(out.ends_with("\nch: 65 A\n"));
}

#[test]
fn ifnt_writer_numbers_rows_past_nine() {
    let mut bm = Bitmap::new(1);
    for i in 0..12 {
        bm.push_row(&[i % 2 == 0]);
    }
    let props = vec![
        Prop::FontName(b"x"),
        Prop::CharSpacing(0),
        Prop::LineSpacing(0),
        Prop::CodePoint(65),
        Prop::Bitmap(bm),
    ];
    let out = String::from_utf8(tfon::ifnt::write(props).unwrap()).unwrap();
    assert!(out.contains("FontHeight=12\n"));
    assert!(out.contains("row09= X\n"));
    assert!(out.contains("row10= .\n"));
    assert!(out.contains("row12= .\n"));
}
