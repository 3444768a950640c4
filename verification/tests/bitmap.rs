//! Tests for the packed bitmap model.
use tfon::Bitmap;
use tfon::Prop;

#[test]
fn bitmap_row_round_trip() {
    // Appending rows then iterating all pixels reproduces row-major order:
    // pixels beyond the width are ignored, missing ones read as false.
    let mut b = Bitmap::new(4);
    b.push_row(&[true, false, true, false, true, true]);
    b.push_row(&[true]);
    assert_eq!(b.width(), 4);
    assert_eq!(b.height(), 2);
    assert_eq!(
        b.pixels(),
        vec![true, false, true, false, true, false, false, false]
    );
}

#[test]
fn bitmap_rows_pack_contiguously() {
    // Rows abut bit-by-bit: three rows of width 3 use 9 bits, two bytes.
    let mut b = Bitmap::new(3);
    b.push_row(&[true, true, true]);
    b.push_row(&[false, false, false]);
    b.push_row(&[true, true, true]);
    let bits = b.into_bits();
    assert_eq!(bits, vec![0b1110_0011, 0b1000_0000]);
}

#[test]
fn bitmap_empty_has_no_pixels() {
    let b = Bitmap::new(5);
    assert_eq!(b.height(), 0);
    assert_eq!(b.pixels(), Vec::<bool>::new());
    assert_eq!(b.into_bits(), Vec::<u8>::new());
}

#[test]
fn from_bits_checks_length() {
    assert!(Bitmap::from_bits(2, 4, vec![0xA8]).is_some());
    assert!(Bitmap::from_bits(2, 4, vec![0xA8, 0x00]).is_none());
    assert!(Bitmap::from_bits(3, 3, vec![0xFF]).is_none());
    assert!(Bitmap::from_bits(3, 3, vec![0xFF, 0xFF]).is_some());
}

#[test]
fn from_bits_round_trips_bytes() {
    let b = Bitmap::from_bits(2, 4, vec![0xA8]).unwrap();
    assert_eq!(b.width(), 4);
    assert_eq!(b.height(), 2);
    assert_eq!(
        b.pixels(),
        vec![true, false, true, false, true, false, false, false]
    );
    assert_eq!(b.into_bits(), vec![0xA8]);
}

#[test]
fn prop_accessors() {
    assert_eq!(Prop::FontName(b"abc").font_name(), Some(&b"abc"[..]));
    assert_eq!(Prop::FontNumber(3).font_number(), Some(3));
    assert_eq!(Prop::CharSpacing(1).char_spacing(), Some(1));
    assert_eq!(Prop::LineSpacing(2).line_spacing(), Some(2));
    assert_eq!(Prop::FontHeight(8).font_height(), Some(8));
    assert_eq!(Prop::CodePoint(65).code_point(), Some(65));
    assert_eq!(Prop::FontName(b"abc").code_point(), None);
    assert_eq!(Prop::CodePoint(65).font_name(), None);
    let mut b = Bitmap::new(2);
    b.push_row(&[true, false]);
    b.push_row(&[false, true]);
    b.push_row(&[true, true]);
    assert_eq!(Prop::Bitmap(b).font_height(), Some(3));
}
