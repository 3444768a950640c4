//! Parse and write fonts in `tfon` format
//!
//! A `tfon` font is plain text: `key: value` header lines, then for each
//! glyph a `ch: <codepoint> <symbol>` line followed by its pixel rows drawn
//! with `.` and `@` characters.
use crate::common::{
    bytes_eq, find_at, first_char_spacing, first_font_name, first_font_number, first_line_spacing,
    has_sep2, is_dec_digit, lemma_dec_digits_only, line_end, lemma_dec_parses_back, lemma_kv_split, lemma_lines_append,
    lemma_lines_single, lemma_nl_bytes, parse_char_block, parse_u16,
    parse_u8, push_bytes, push_dec, push_padded64, row_px, sep2_key, sep2_val, spec_char, spec_dec,
    lemma_spec_rows_len, spec_lines, spec_pad64, spec_parse_uint, spec_pixel_row, spec_rows,
    split_sep2, Bitmap,
    BitmapSpec, Cursor, Error, Prop, PropSpec,
};
use vstd::prelude::*;
use vstd::string::StringSliceAdditionalSpecFns;

verus! {

/// The symbolic name of codepoint `cp`, packed into a 32-bit word, one byte
/// per UTF-8 byte from the most significant end, zero-padded: control-code
/// mnemonics are spelled out, printable ASCII and Latin-1 characters stand
/// for themselves.
pub open spec fn sym_word(cp: int) -> u32 {
    if cp == 0 { 0x4E554C00u32 }
    else if cp == 1 { 0x534F4800u32 }
    else if cp == 2 { 0x53545800u32 }
    else if cp == 3 { 0x45545800u32 }
    else if cp == 4 { 0x454F5400u32 }
    else if cp == 5 { 0x454E5100u32 }
    else if cp == 6 { 0x41434B00u32 }
    else if cp == 7 { 0x42454C00u32 }
    else if cp == 8 { 0x42530000u32 }
    else if cp == 9 { 0x48540000u32 }
    else if cp == 10 { 0x4C460000u32 }
    else if cp == 11 { 0x56540000u32 }
    else if cp == 12 { 0x46460000u32 }
    else if cp == 13 { 0x43520000u32 }
    else if cp == 14 { 0x534F0000u32 }
    else if cp == 15 { 0x53490000u32 }
    else if cp == 16 { 0x444C4500u32 }
    else if cp == 17 { 0x44433100u32 }
    else if cp == 18 { 0x44433200u32 }
    else if cp == 19 { 0x44433300u32 }
    else if cp == 20 { 0x44433400u32 }
    else if cp == 21 { 0x4E414B00u32 }
    else if cp == 22 { 0x53594E00u32 }
    else if cp == 23 { 0x45544200u32 }
    else if cp == 24 { 0x43414E00u32 }
    else if cp == 25 { 0x454D0000u32 }
    else if cp == 26 { 0x53554200u32 }
    else if cp == 27 { 0x45534300u32 }
    else if cp == 28 { 0x46530000u32 }
    else if cp == 29 { 0x47530000u32 }
    else if cp == 30 { 0x52530000u32 }
    else if cp == 31 { 0x55530000u32 }
    else if cp == 32 { 0x53500000u32 }
    else if cp == 127 { 0x44454C00u32 }
    else if cp == 128 { 0x50414400u32 }
    else if cp == 129 { 0x484F5000u32 }
    else if cp == 130 { 0x42504800u32 }
    else if cp == 131 { 0x4E424800u32 }
    else if cp == 132 { 0x494E4400u32 }
    else if cp == 133 { 0x4E454C00u32 }
    else if cp == 134 { 0x53534100u32 }
    else if cp == 135 { 0x45534100u32 }
    else if cp == 136 { 0x48545300u32 }
    else if cp == 137 { 0x48544A00u32 }
    else if cp == 138 { 0x4C545300u32 }
    else if cp == 139 { 0x504C4400u32 }
    else if cp == 140 { 0x504C5500u32 }
    else if cp == 141 { 0x52490000u32 }
    else if cp == 142 { 0x53533200u32 }
    else if cp == 143 { 0x53533300u32 }
    else if cp == 144 { 0x44435300u32 }
    else if cp == 145 { 0x50553100u32 }
    else if cp == 146 { 0x50553200u32 }
    else if cp == 147 { 0x53545300u32 }
    else if cp == 148 { 0x43434800u32 }
    else if cp == 149 { 0x4D570000u32 }
    else if cp == 150 { 0x53504100u32 }
    else if cp == 151 { 0x45504100u32 }
    else if cp == 152 { 0x534F5300u32 }
    else if cp == 153 { 0x53474349u32 }
    else if cp == 154 { 0x53434900u32 }
    else if cp == 155 { 0x43534900u32 }
    else if cp == 156 { 0x53540000u32 }
    else if cp == 157 { 0x4F534300u32 }
    else if cp == 158 { 0x504D0000u32 }
    else if cp == 159 { 0x41504300u32 }
    else if cp == 160 { 0x4E425350u32 }
    else if cp == 173 { 0x53485900u32 } else if 33 <= cp <= 126 {
        ((cp as u32) << 24)
    } else if 161 <= cp <= 255 {
        (((0xC2u32 | (((cp as u32) >> 6) & 1)) << 24) | ((0x80u32 | ((cp as u32) & 0x3F)) << 16))
    } else {
        0u32
    }
}

/// Look up the packed symbolic name of a codepoint.
fn sym_word_x(cp: u16) -> (w: u32)
    ensures
        w == sym_word(cp as int),
{
    if cp == 0 { 0x4E554C00u32 }
    else if cp == 1 { 0x534F4800u32 }
    else if cp == 2 { 0x53545800u32 }
    else if cp == 3 { 0x45545800u32 }
    else if cp == 4 { 0x454F5400u32 }
    else if cp == 5 { 0x454E5100u32 }
    else if cp == 6 { 0x41434B00u32 }
    else if cp == 7 { 0x42454C00u32 }
    else if cp == 8 { 0x42530000u32 }
    else if cp == 9 { 0x48540000u32 }
    else if cp == 10 { 0x4C460000u32 }
    else if cp == 11 { 0x56540000u32 }
    else if cp == 12 { 0x46460000u32 }
    else if cp == 13 { 0x43520000u32 }
    else if cp == 14 { 0x534F0000u32 }
    else if cp == 15 { 0x53490000u32 }
    else if cp == 16 { 0x444C4500u32 }
    else if cp == 17 { 0x44433100u32 }
    else if cp == 18 { 0x44433200u32 }
    else if cp == 19 { 0x44433300u32 }
    else if cp == 20 { 0x44433400u32 }
    else if cp == 21 { 0x4E414B00u32 }
    else if cp == 22 { 0x53594E00u32 }
    else if cp == 23 { 0x45544200u32 }
    else if cp == 24 { 0x43414E00u32 }
    else if cp == 25 { 0x454D0000u32 }
    else if cp == 26 { 0x53554200u32 }
    else if cp == 27 { 0x45534300u32 }
    else if cp == 28 { 0x46530000u32 }
    else if cp == 29 { 0x47530000u32 }
    else if cp == 30 { 0x52530000u32 }
    else if cp == 31 { 0x55530000u32 }
    else if cp == 32 { 0x53500000u32 }
    else if cp == 127 { 0x44454C00u32 }
    else if cp == 128 { 0x50414400u32 }
    else if cp == 129 { 0x484F5000u32 }
    else if cp == 130 { 0x42504800u32 }
    else if cp == 131 { 0x4E424800u32 }
    else if cp == 132 { 0x494E4400u32 }
    else if cp == 133 { 0x4E454C00u32 }
    else if cp == 134 { 0x53534100u32 }
    else if cp == 135 { 0x45534100u32 }
    else if cp == 136 { 0x48545300u32 }
    else if cp == 137 { 0x48544A00u32 }
    else if cp == 138 { 0x4C545300u32 }
    else if cp == 139 { 0x504C4400u32 }
    else if cp == 140 { 0x504C5500u32 }
    else if cp == 141 { 0x52490000u32 }
    else if cp == 142 { 0x53533200u32 }
    else if cp == 143 { 0x53533300u32 }
    else if cp == 144 { 0x44435300u32 }
    else if cp == 145 { 0x50553100u32 }
    else if cp == 146 { 0x50553200u32 }
    else if cp == 147 { 0x53545300u32 }
    else if cp == 148 { 0x43434800u32 }
    else if cp == 149 { 0x4D570000u32 }
    else if cp == 150 { 0x53504100u32 }
    else if cp == 151 { 0x45504100u32 }
    else if cp == 152 { 0x534F5300u32 }
    else if cp == 153 { 0x53474349u32 }
    else if cp == 154 { 0x53434900u32 }
    else if cp == 155 { 0x43534900u32 }
    else if cp == 156 { 0x53540000u32 }
    else if cp == 157 { 0x4F534300u32 }
    else if cp == 158 { 0x504D0000u32 }
    else if cp == 159 { 0x41504300u32 }
    else if cp == 160 { 0x4E425350u32 }
    else if cp == 173 { 0x53485900u32 } else if 33 <= cp && cp <= 126 {
        (cp as u32) << 24
    } else if 161 <= cp && cp <= 255 {
        ((0xC2u32 | (((cp as u32) >> 6) & 1)) << 24) | ((0x80u32 | ((cp as u32) & 0x3F)) << 16)
    } else {
        0u32
    }
}

/// The bytes of a packed symbol word, most significant first, ending at the
/// first zero byte.
pub open spec fn word_bytes(w: u32) -> Seq<u8> {
    let b0 = ((w >> 24) & 0xFF) as u8;
    let b1 = ((w >> 16) & 0xFF) as u8;
    let b2 = ((w >> 8) & 0xFF) as u8;
    let b3 = (w & 0xFF) as u8;
    if b0 == 0 {
        Seq::empty()
    } else if b1 == 0 {
        seq![b0]
    } else if b2 == 0 {
        seq![b0, b1]
    } else if b3 == 0 {
        seq![b0, b1, b2]
    } else {
        seq![b0, b1, b2, b3]
    }
}

/// The symbolic name of codepoint `cp` in the fixed ASCII + Latin 1 table.
pub open spec fn spec_symbol(cp: int) -> Seq<u8> {
    word_bytes(sym_word(cp))
}

/// Look up a codepoint's symbolic name.
pub(crate) fn symbol(cp: u16) -> (r: Vec<u8>)
    ensures
        r@ == spec_symbol(cp as int),
{
    let w = sym_word_x(cp);
    let b0 = ((w >> 24) & 0xFF) as u8;
    let b1 = ((w >> 16) & 0xFF) as u8;
    let b2 = ((w >> 8) & 0xFF) as u8;
    let b3 = (w & 0xFF) as u8;
    let mut r: Vec<u8> = Vec::new();
    if b0 != 0 {
        r.push(b0);
        if b1 != 0 {
            r.push(b1);
            if b2 != 0 {
                r.push(b2);
                if b3 != 0 {
                    r.push(b3);
                }
            }
        }
    }
    proof {
        assert(r@ =~= spec_symbol(cp as int));
    }
    r
}

/// One parsing step on the remaining lines: the next property, if any, with
/// the lines left after it; `None` ends the sequence.
pub open spec fn spec_step(ls: Seq<Seq<u8>>) -> Option<(PropSpec, Seq<Seq<u8>>)> {
    if ls.len() == 0 {
        None
    } else {
        let l = ls[0];
        let rest = ls.drop_first();
        if has_sep2(l) {
            let key = sep2_key(l);
            let val = sep2_val(l);
            if key == ("font_name").spec_bytes() {
                Some((PropSpec::FontName(val), rest))
            } else if key == ("font_number").spec_bytes() {
                match spec_parse_uint(val, 255) {
                    Some(v) => Some((PropSpec::FontNumber(v as u8), rest)),
                    None => None,
                }
            } else if key == ("char_spacing").spec_bytes() {
                match spec_parse_uint(val, 255) {
                    Some(v) => Some((PropSpec::CharSpacing(v as u8), rest)),
                    None => None,
                }
            } else if key == ("line_spacing").spec_bytes() {
                match spec_parse_uint(val, 255) {
                    Some(v) => Some((PropSpec::LineSpacing(v as u8), rest)),
                    None => None,
                }
            } else if key == ("ch").spec_bytes() {
                let i = find_at(val, 32);
                if i < val.len() {
                    let cps = val.subrange(0, i);
                    let symb = val.subrange(i + 1, val.len() as int);
                    match spec_parse_uint(cps, 0xFFFF) {
                        Some(v) => if v < 256 && symb == spec_symbol(v) {
                            Some((PropSpec::CodePoint(v as u16), rest))
                        } else {
                            None
                        },
                        None => None,
                    }
                } else {
                    None
                }
            } else {
                Some((PropSpec::Unknown(key), rest))
            }
        } else {
            match spec_char(l, rest, 64) {
                Some(t) => Some((PropSpec::Bitmap(t.0), t.1)),
                None => None,
            }
        }
    }
}

/// Parser for `tfon` format
pub struct Parser<'p> {
    /// Line cursor over the input
    cursor: Cursor<'p>,
}

impl<'p> View for Parser<'p> {
    type V = Seq<Seq<u8>>;

    closed spec fn view(&self) -> Seq<Seq<u8>> {
        self.cursor.remaining()
    }
}

impl<'p> Parser<'p> {
    /// The parser's cursor is well formed.
    pub closed spec fn wf(&self) -> bool {
        self.cursor.wf()
    }

    /// Create a new `tfon` parser.
    pub fn new(buf: &'p str) -> (r: Parser<'p>)
        ensures
            r.wf(),
            r@ == spec_lines(buf.spec_bytes()),
    {
        Parser { cursor: Cursor::new(buf.as_bytes()) }
    }

    /// Parse one property.  `None` ends the sequence: the input is exhausted
    /// or a malformed line stopped it.
    pub fn prop(&mut self) -> (r: Option<Prop<'p>>)
        requires
            old(self).wf(),
        ensures
            final(self).wf(),
            match spec_step(old(self)@) {
                Some(t) => (r matches Some(p) && p@ == t.0 && final(self)@ == t.1
                    && final(self)@.len() < old(self)@.len()),
                None => r is None,
            },
            r matches Some(Prop::Bitmap(b)) ==> b.inv(),
    {
        let line = match self.cursor.next_line() {
            Some(l) => l,
            None => {
                return None;
            },
        };
        match split_sep2(line) {
            Some((key, val)) => {
                if bytes_eq(key, "font_name".as_bytes()) {
                    Some(Prop::FontName(val))
                } else if bytes_eq(key, "font_number".as_bytes()) {
                    match parse_u8(val) {
                        Some(v) => Some(Prop::FontNumber(v)),
                        None => None,
                    }
                } else if bytes_eq(key, "char_spacing".as_bytes()) {
                    match parse_u8(val) {
                        Some(v) => Some(Prop::CharSpacing(v)),
                        None => None,
                    }
                } else if bytes_eq(key, "line_spacing".as_bytes()) {
                    match parse_u8(val) {
                        Some(v) => Some(Prop::LineSpacing(v)),
                        None => None,
                    }
                } else if bytes_eq(key, "ch".as_bytes()) {
                    let i = crate::common::find_byte(val, 32);
                    if i < val.len() {
                        let cps = vstd::slice::slice_subrange(val, 0, i);
                        let symb = vstd::slice::slice_subrange(val, i + 1, val.len());
                        match parse_u16(cps) {
                            Some(v) => {
                                if v < 256 {
                                    let sym = symbol(v);
                                    if bytes_eq(symb, sym.as_slice()) {
                                        Some(Prop::CodePoint(v))
                                    } else {
                                        None
                                    }
                                } else {
                                    None
                                }
                            },
                            None => None,
                        }
                    } else {
                        None
                    }
                } else {
                    Some(Prop::Unknown(key))
                }
            },
            None => parse_char_block(&mut self.cursor, line, 64),
        }
    }
}

/// The header block of a `tfon` document.
pub open spec fn header_text(name: Seq<u8>, num: int, cs: int, ls: int) -> Seq<u8> {
    ("font_name: ").spec_bytes() + spec_pad64(name) + ("\nfont_number: ").spec_bytes() + spec_dec(
        num,
    ) + ("\nchar_spacing: ").spec_bytes() + spec_dec(cs) + ("\nline_spacing: ").spec_bytes()
        + spec_dec(ls) + ("\n").spec_bytes()
}

/// The block emitted for one `CodePoint`: a blank line and the `ch:` line
/// with the codepoint's symbolic name.
pub open spec fn cp_text(cp: int) -> Seq<u8> {
    ("\nch: ").spec_bytes() + spec_dec(cp) + (" ").spec_bytes() + spec_symbol(cp) + (
    "\n").spec_bytes()
}

/// A row of pixels as `.` and `@` characters.
pub open spec fn px_bytes(px: Seq<bool>) -> Seq<u8>
    decreases px.len(),
{
    if px.len() == 0 {
        Seq::empty()
    } else {
        px_bytes(px.drop_last()).push(
            if px.last() {
                64u8
            } else {
                46u8
            },
        )
    }
}

/// The pixel rows of a bitmap from row `r` on (rows are 1-based).
pub open spec fn rows_text(bm: BitmapSpec, r: int) -> Seq<u8>
    decreases bm.height - r + 1,
{
    if r < 1 || r > bm.height {
        Seq::empty()
    } else {
        px_bytes(bm.pixels.subrange((r - 1) * bm.width, r * bm.width)) + ("\n").spec_bytes()
            + rows_text(bm, r + 1)
    }
}

/// The text emitted for one glyph bitmap; a zero-width bitmap emits nothing.
pub open spec fn bitmap_text(bm: BitmapSpec) -> Seq<u8> {
    if bm.width == 0 {
        Seq::empty()
    } else {
        rows_text(bm, 1)
    }
}

/// The body of a `tfon` document: each `CodePoint` must have a symbol-table
/// entry and be followed by exactly one `Bitmap` before the next
/// `CodePoint`; `None` marks a violation.
pub open spec fn spec_body(props: Seq<PropSpec>, pending: bool) -> Option<Seq<u8>>
    decreases props.len(),
{
    if props.len() == 0 {
        Some(Seq::empty())
    } else {
        match props[0] {
            PropSpec::CodePoint(cp) => {
                if pending || cp >= 256 {
                    None
                } else {
                    match spec_body(props.drop_first(), true) {
                        Some(t) => Some(cp_text(cp as int) + t),
                        None => None,
                    }
                }
            },
            PropSpec::Bitmap(bm) => {
                if !pending {
                    None
                } else {
                    match spec_body(props.drop_first(), false) {
                        Some(t) => Some(bitmap_text(bm) + t),
                        None => None,
                    }
                }
            },
            _ => spec_body(props.drop_first(), pending),
        }
    }
}

/// The whole `tfon` document written for a property sequence, or the name
/// of the property whose absence or misplacement stops the writer.
/// `FontNumber` defaults to 1, the spacings to 0.
pub open spec fn spec_write(props: Seq<PropSpec>) -> Result<Seq<u8>, Seq<char>> {
    if first_font_name(props) is None {
        Err(("font_name")@)
    } else {
        match spec_body(props, false) {
            Some(b) => Ok(
                header_text(
                    first_font_name(props).unwrap(),
                    match first_font_number(props) {
                        Some(n) => n as int,
                        None => 1,
                    },
                    match first_char_spacing(props) {
                        Some(c) => c as int,
                        None => 0,
                    },
                    match first_line_spacing(props) {
                        Some(c) => c as int,
                        None => 0,
                    },
                ) + b,
            ),
            None => Err(("ch")@),
        }
    }
}

/// Append the pixel rows of a bitmap.
#[verifier::rlimit(50)]
fn push_bitmap(out: &mut Vec<u8>, b: &Bitmap)
    requires
        b.len_ok(),
    ensures
        final(out)@ == old(out)@ + bitmap_text(b@),
{
    let ghost start = out@;
    let px = b.pixels();
    let width = b.width();
    let height = b.height();
    if width == 0 {
        return ;
    }
    proof {
        assert(0 <= b@.width * b@.height <= 255 * 255) by (nonlinear_arith)
            requires
                0 <= b@.height <= 255 && 0 <= b@.width <= 255,
        ;
        b.lemma_bits();
    }
    let mut r: usize = 1;
    let ghost mut acc: Seq<u8> = Seq::empty();
    while r <= height as usize
        invariant
            1 <= r <= height + 1,
            width as int == b@.width,
            height as int == b@.height,
            0 < width,
            px@ == b@.pixels,
            px@.len() == b@.width * b@.height,
            px@.len() <= 255 * 255,
            out@ == start + acc,
            acc + rows_text(b@, r as int) == rows_text(b@, 1),
        decreases height + 1 - r,
    {
        let ghost rp = b@.pixels.subrange((r - 1) * b@.width, r as int * b@.width);
        proof {
            assert((r - 1) * b@.width + b@.width == r as int * b@.width) by (nonlinear_arith);
            assert(r as int * b@.width <= b@.height * b@.width) by (nonlinear_arith)
                requires
                    r as int <= b@.height && b@.width >= 0,
            ;
            assert(0 <= (r as int - 1) * b@.width) by (nonlinear_arith)
                requires
                    1 <= r as int && 0 <= b@.width,
            ;
            assert((r as int - 1) * (width as int) + width as int <= 255 * 255) by (nonlinear_arith)
                requires
                    1 <= r as int <= 255 && 0 < width as int <= 255,
            ;
            assert((r as int) * (width as int) <= (height as int) * (width as int) && (
            height as int) * (width as int) == (width as int) * (height as int)) by (nonlinear_arith)
                requires
                    r as int <= height as int && 0 <= width as int,
            ;
        }
        let base = (r - 1) * (width as usize);
        let mut c: usize = 0;
        while c < width as usize
            invariant
                0 <= c <= width,
                width as int == b@.width,
                0 < width,
                base == (r as int - 1) * b@.width,
                base + b@.width <= px@.len(),
                px@.len() <= 255 * 255,
                px@ == b@.pixels,
                rp == b@.pixels.subrange(base as int, base + b@.width),
                out@ =~= start + acc + px_bytes(rp.take(c as int)),
            decreases width - c,
        {
            let pix = *vstd::slice::slice_index_get(px.as_slice(), base + c);
            proof {
                assert(rp.take(c + 1).drop_last() =~= rp.take(c as int));
                assert(rp.take(c + 1).last() == rp[c as int]);
                assert(rp[c as int] == px@[base + c]);
            }
            out.push(
                if pix {
                    64
                } else {
                    46
                },
            );
            c = c + 1;
        }
        push_bytes(out, "\n".as_bytes());
        proof {
            assert(rp.take(rp.len() as int) =~= rp);
            let rowtext = px_bytes(rp) + ("\n").spec_bytes();
            assert(rows_text(b@, r as int) == rowtext + rows_text(b@, r + 1));
            let oldacc = acc;
            acc = acc + rowtext;
            assert(out@ =~= start + acc);
            assert(acc + rows_text(b@, r + 1) =~= oldacc + rows_text(b@, r as int));
        }
        r = r + 1;
    }
    proof {
        assert(rows_text(b@, r as int) =~= Seq::<u8>::empty());
        assert(acc =~= rows_text(b@, 1));
        assert(out@ =~= start + bitmap_text(b@));
    }
}

/// Write a font in `tfon` format.  The sequence must supply `FontName`;
/// each `CodePoint` must have a symbol-table entry and be followed by
/// exactly one `Bitmap`.
#[verifier::rlimit(60)]
pub fn write<'a>(props: Vec<Prop<'a>>) -> (r: Result<Vec<u8>, Error>)
    requires
        forall|i: int|
            0 <= i < props@.len() ==> (match #[trigger] props@[i] {
                Prop::Bitmap(b) => b.len_ok(),
                _ => true,
            }),
    ensures
        match spec_write(props.deep_view()) {
            Ok(bytes) => (r matches Ok(v) && v@ == bytes),
            Err(name) => (r matches Err(e) && (e matches Error::Expected(m) && m@ == name)),
        },
{
    let ghost dv = props.deep_view();
    let mut name: Option<&'a [u8]> = None;
    let mut number: Option<u8> = None;
    let mut cspace: Option<u8> = None;
    let mut lspace: Option<u8> = None;
    let mut i: usize = 0;
    proof {
        assert(dv.skip(0) =~= dv);
    }
    while i < props.len()
        invariant
            dv == props.deep_view(),
            dv.len() == props@.len(),
            0 <= i <= props@.len(),
            match name {
                Some(n) => first_font_name(dv) == Some(n@),
                None => first_font_name(dv) == first_font_name(dv.skip(i as int)),
            },
            match number {
                Some(n) => first_font_number(dv) == Some(n),
                None => first_font_number(dv) == first_font_number(dv.skip(i as int)),
            },
            match cspace {
                Some(c) => first_char_spacing(dv) == Some(c),
                None => first_char_spacing(dv) == first_char_spacing(dv.skip(i as int)),
            },
            match lspace {
                Some(c) => first_line_spacing(dv) == Some(c),
                None => first_line_spacing(dv) == first_line_spacing(dv.skip(i as int)),
            },
        decreases props@.len() - i,
    {
        proof {
            assert(dv.skip(i as int).drop_first() =~= dv.skip(i + 1));
            assert(dv.skip(i as int)[0] == dv[i as int]);
        }
        match &props[i] {
            Prop::FontName(n) => {
                if name.is_none() {
                    name = Some(*n);
                }
            },
            Prop::FontNumber(num) => {
                if number.is_none() {
                    number = Some(*num);
                }
            },
            Prop::CharSpacing(cs) => {
                if cspace.is_none() {
                    cspace = Some(*cs);
                }
            },
            Prop::LineSpacing(ls) => {
                if lspace.is_none() {
                    lspace = Some(*ls);
                }
            },
            _ => {
            },
        }
        i = i + 1;
    }
    proof {
        assert(dv.skip(props@.len() as int) =~= Seq::<PropSpec>::empty());
    }
    let font_name = match name {
        Some(n) => n,
        None => {
            return Err(Error::Expected("font_name"));
        },
    };
    let font_number = match number {
        Some(n) => n,
        None => 1,
    };
    let char_spacing = match cspace {
        Some(c) => c,
        None => 0,
    };
    let line_spacing = match lspace {
        Some(c) => c,
        None => 0,
    };
    let mut out: Vec<u8> = Vec::new();
    push_bytes(&mut out, "font_name: ".as_bytes());
    push_padded64(&mut out, font_name);
    push_bytes(&mut out, "\nfont_number: ".as_bytes());
    push_dec(&mut out, font_number as u16);
    push_bytes(&mut out, "\nchar_spacing: ".as_bytes());
    push_dec(&mut out, char_spacing as u16);
    push_bytes(&mut out, "\nline_spacing: ".as_bytes());
    push_dec(&mut out, line_spacing as u16);
    push_bytes(&mut out, "\n".as_bytes());
    let ghost header = header_text(
        font_name@,
        font_number as int,
        char_spacing as int,
        line_spacing as int,
    );
    proof {
        assert(out@ =~= header);
    }
    let mut pending = false;
    let mut i: usize = 0;
    let ghost mut acc: Seq<u8> = Seq::empty();
    proof {
        assert(dv.skip(0) =~= dv);
    }
    while i < props.len()
        invariant
            dv == props.deep_view(),
            dv.len() == props@.len(),
            0 <= i <= props@.len(),
            forall|j: int|
                0 <= j < props@.len() ==> (match #[trigger] props@[j] {
                    Prop::Bitmap(b) => b.len_ok(),
                    _ => true,
                }),
            header == header_text(
                font_name@,
                font_number as int,
                char_spacing as int,
                line_spacing as int,
            ),
            match spec_body(dv, false) {
                Some(b) => spec_write(dv) == Ok::<Seq<u8>, Seq<char>>(header + b),
                None => spec_write(dv) == Err::<Seq<u8>, Seq<char>>(("ch")@),
            },
            out@ == header + acc,
            spec_body(dv, false) == (match spec_body(dv.skip(i as int), pending) {
                Some(t) => Some(acc + t),
                None => None::<Seq<u8>>,
            }),
        decreases props@.len() - i,
    {
        proof {
            assert(dv.skip(i as int).drop_first() =~= dv.skip(i + 1));
            assert(dv.skip(i as int)[0] == dv[i as int]);
        }
        match &props[i] {
            Prop::CodePoint(cp) => {
                if pending {
                    return Err(Error::Expected("ch"));
                }
                let cp = *cp;
                if cp >= 256 {
                    return Err(Error::Expected("ch"));
                }
                push_bytes(&mut out, "\nch: ".as_bytes());
                push_dec(&mut out, cp);
                push_bytes(&mut out, " ".as_bytes());
                let sym = symbol(cp);
                push_bytes(&mut out, sym.as_slice());
                push_bytes(&mut out, "\n".as_bytes());
                pending = true;
                proof {
                    acc = acc + cp_text(cp as int);
                    assert(out@ =~= header + acc);
                }
            },
            Prop::Bitmap(bmap) => {
                if !pending {
                    return Err(Error::Expected("ch"));
                }
                push_bitmap(&mut out, bmap);
                pending = false;
                proof {
                    acc = acc + bitmap_text(bmap@);
                    assert(out@ =~= header + acc);
                }
            },
            _ => {
            },
        }
        proof {
            match spec_body(dv.skip(i + 1), pending) {
                Some(t) => {
                    assert(spec_body(dv, false) == Some(acc + t));
                },
                None => {
                },
            }
        }
        i = i + 1;
    }
    proof {
        assert(dv.skip(props@.len() as int) =~= Seq::<PropSpec>::empty());
        assert(spec_body(dv.skip(props@.len() as int), pending) == Some(Seq::<u8>::empty()));
        assert(acc + Seq::<u8>::empty() =~= acc);
        assert(spec_body(dv, false) == Some(acc));
        assert(out@ =~= header + acc);
    }
    Ok(out)
}

/// A written pixel row has one pixel character per pixel and reads back as
/// the same pixels.
pub proof fn lemma_px_bytes(px: Seq<bool>)
    ensures
        px_bytes(px).len() == px.len(),
        forall|i: int|
            0 <= i < px.len() ==> (#[trigger] px_bytes(px)[i] == 46 || px_bytes(px)[i] == 64),
        spec_pixel_row(px_bytes(px), 64),
        row_px(px_bytes(px), 64) == px,
    decreases px.len(),
{
    if px.len() > 0 {
        lemma_px_bytes(px.drop_last());
        assert forall|i: int|
            0 <= i < px.len() implies (row_px(px_bytes(px), 64)[i] == px[i] && (#[trigger] px_bytes(
                px,
            )[i] == 46 || px_bytes(px)[i] == 64)) by {
            if i < px.len() - 1 {
                assert(px_bytes(px)[i] == px_bytes(px.drop_last())[i]);
                assert(row_px(px_bytes(px.drop_last()), 64)[i] == px.drop_last()[i]);
                assert(px.drop_last()[i] == px[i]);
            } else {
                assert(px_bytes(px)[i] == (if px.last() {
                    64u8
                } else {
                    46u8
                }));
            }
        }
        assert(row_px(px_bytes(px), 64) =~= px);
    } else {
        assert(row_px(px_bytes(px), 64) =~= px);
    }
}

/// The pixel-row lines written for a bitmap from row `r` on, followed by
/// text whose first line is no pixel row of the bitmap's width, read back
/// as exactly the remaining rows' pixels, leaving the rest's lines.
proof fn lemma_rows_round_trip(bm: BitmapSpec, r: int, c: int, after: Seq<u8>)
    requires
        1 <= bm.width <= 255,
        1 <= r <= bm.height + 1,
        bm.pixels.len() == bm.width * bm.height,
        0 <= c,
        c + (bm.height - r) < 255,
        spec_lines(after).len() > 0 ==> !(spec_pixel_row(spec_lines(after)[0], 64) && spec_lines(
            after,
        )[0].len() == bm.width),
    ensures
        spec_rows(spec_lines(rows_text(bm, r) + after), 64, bm.width, c) == Some(
            (bm.height + 1 - r, bm.pixels.skip((r - 1) * bm.width), spec_lines(after)),
        ),
    decreases bm.height + 1 - r,
{
    let w = bm.width;
    let h = bm.height;
    lemma_nl_bytes();
    if r == h + 1 {
        assert(rows_text(bm, r) == Seq::<u8>::empty());
        assert(rows_text(bm, r) + after =~= after);
        assert(h * w == w * h) by (nonlinear_arith);
        assert(bm.pixels.skip(h * w) =~= Seq::<bool>::empty());
        let la = spec_lines(after);
        assert(spec_rows(la, 64, w, c) =~~= Some((0int, Seq::<bool>::empty(), la)));
    } else {
        assert((r - 1) * w + w == r * w) by (nonlinear_arith);
        assert(r * w <= h * w) by (nonlinear_arith)
            requires
                r <= h && w >= 0,
        ;
        assert(h * w == w * h) by (nonlinear_arith);
        assert(0 <= (r - 1) * w) by (nonlinear_arith)
            requires
                1 <= r && 0 <= w,
        ;
        let rp = bm.pixels.subrange((r - 1) * w, r * w);
        let row = px_bytes(rp);
        lemma_px_bytes(rp);
        let a = row + seq![10u8];
        assert(rows_text(bm, r) + after =~= a + (rows_text(bm, r + 1) + after));
        assert forall|i: int| 0 <= i < a.len() implies a[i] != 13 by {
            if i < row.len() {
                assert(a[i] == row[i]);
            }
        }
        lemma_lines_append(a, rows_text(bm, r + 1) + after);
        assert forall|i: int| 0 <= i < row.len() implies row[i] != 10 && row[i] != 13 by {}
        lemma_lines_single(row);
        assert(spec_lines(a) == seq![row]);
        let tail = spec_lines(rows_text(bm, r + 1) + after);
        let lines = spec_lines(rows_text(bm, r) + after);
        assert(lines == seq![row] + tail);
        lemma_rows_round_trip(bm, r + 1, c + 1, after);
        assert(lines.len() > 0);
        assert(lines[0] == row);
        assert(lines.drop_first() =~= tail);
        assert(spec_rows(tail, 64, w, c + 1) == Some(
            (h - r, bm.pixels.skip(r * w), spec_lines(after)),
        ));
        assert(rp + bm.pixels.skip(r * w) =~= bm.pixels.skip((r - 1) * w));
        assert(spec_rows(lines, 64, w, c) =~~= Some(
            (h + 1 - r, bm.pixels.skip((r - 1) * w), spec_lines(after)),
        ));
    }
}

/// Writing a glyph bitmap and parsing the written text back yields the same
/// bitmap, pixel for pixel, stopping exactly where the following text
/// begins: the glyph half of the round trip.
pub proof fn lemma_glyph_round_trip(bm: BitmapSpec, after: Seq<u8>)
    requires
        1 <= bm.width <= 255,
        1 <= bm.height <= 255,
        bm.pixels.len() == bm.width * bm.height,
        spec_lines(after).len() > 0 ==> !(spec_pixel_row(spec_lines(after)[0], 64) && spec_lines(
            after,
        )[0].len() == bm.width),
    ensures
        ({
            let lines = spec_lines(bitmap_text(bm) + after);
            lines.len() > 0 && spec_char(lines[0], lines.drop_first(), 64) == Some(
                (bm, spec_lines(after)),
            )
        }),
{
    let w = bm.width;
    let h = bm.height;
    lemma_nl_bytes();
    assert((1 - 1) * w + w == 1 * w) by (nonlinear_arith);
    assert(1 * w <= h * w) by (nonlinear_arith)
        requires
            1 <= h && w >= 0,
    ;
    assert(h * w == w * h) by (nonlinear_arith);
    let rp = bm.pixels.subrange(0, w);
    let row = px_bytes(rp);
    lemma_px_bytes(rp);
    let a = row + seq![10u8];
    assert(bitmap_text(bm) + after =~= a + (rows_text(bm, 2) + after));
    assert forall|i: int| 0 <= i < a.len() implies a[i] != 13 by {
        if i < row.len() {
            assert(a[i] == row[i]);
        }
    }
    lemma_lines_append(a, rows_text(bm, 2) + after);
    lemma_lines_single(row);
    let tail = spec_lines(rows_text(bm, 2) + after);
    let lines = spec_lines(bitmap_text(bm) + after);
    assert(lines == seq![row] + tail);
    lemma_rows_round_trip(bm, 2, 1, after);
    assert(spec_rows(tail, 64, w, 1) == Some((h - 1, bm.pixels.skip(w), spec_lines(after))));
    assert(lines[0] == row);
    assert(lines.drop_first() =~= tail);
    assert(rp + bm.pixels.skip(w) =~= bm.pixels);
    assert(spec_char(lines[0], lines.drop_first(), 64) =~~= Some((bm, spec_lines(after))));
}

/// The bytes of the header literals.
proof fn lemma_header_literal_bytes()
    ensures
        ("font_name: ").spec_bytes() == seq![102u8, 111, 110, 116, 95, 110, 97, 109, 101, 58, 32],
        ("\nfont_number: ").spec_bytes() == seq![10u8, 102, 111, 110, 116, 95, 110, 117, 109, 98, 101, 114, 58, 32],
        ("\nchar_spacing: ").spec_bytes() == seq![10u8, 99, 104, 97, 114, 95, 115, 112, 97, 99, 105, 110, 103, 58, 32],
        ("\nline_spacing: ").spec_bytes() == seq![10u8, 108, 105, 110, 101, 95, 115, 112, 97, 99, 105, 110, 103, 58, 32],
        ("font_name").spec_bytes() == seq![102u8, 111, 110, 116, 95, 110, 97, 109, 101],
        ("font_number").spec_bytes() == seq![102u8, 111, 110, 116, 95, 110, 117, 109, 98, 101, 114],
        ("char_spacing").spec_bytes() == seq![99u8, 104, 97, 114, 95, 115, 112, 97, 99, 105, 110, 103],
        ("line_spacing").spec_bytes() == seq![108u8, 105, 110, 101, 95, 115, 112, 97, 99, 105, 110, 103],
{
    broadcast use vstd::string::group_string_axioms;

    reveal_strlit("font_name: ");
    reveal_strlit("\nfont_number: ");
    reveal_strlit("\nchar_spacing: ");
    reveal_strlit("\nline_spacing: ");
    reveal_strlit("font_name");
    reveal_strlit("font_number");
    reveal_strlit("char_spacing");
    reveal_strlit("line_spacing");
    assert(vstd::string::is_ascii("font_name: "));
    assert(vstd::string::is_ascii("\nfont_number: "));
    assert(vstd::string::is_ascii("\nchar_spacing: "));
    assert(vstd::string::is_ascii("\nline_spacing: "));
    assert(vstd::string::is_ascii("font_name"));
    assert(vstd::string::is_ascii("font_number"));
    assert(vstd::string::is_ascii("char_spacing"));
    assert(vstd::string::is_ascii("line_spacing"));
    assert(("font_name: ").spec_bytes() =~= seq![102u8, 111, 110, 116, 95, 110, 97, 109, 101, 58, 32]);
    assert(("\nfont_number: ").spec_bytes() =~= seq![10u8, 102, 111, 110, 116, 95, 110, 117, 109, 98, 101, 114, 58, 32]);
    assert(("\nchar_spacing: ").spec_bytes() =~= seq![10u8, 99, 104, 97, 114, 95, 115, 112, 97, 99, 105, 110, 103, 58, 32]);
    assert(("\nline_spacing: ").spec_bytes() =~= seq![10u8, 108, 105, 110, 101, 95, 115, 112, 97, 99, 105, 110, 103, 58, 32]);
    assert(("font_name").spec_bytes() =~= seq![102u8, 111, 110, 116, 95, 110, 97, 109, 101]);
    assert(("font_number").spec_bytes() =~= seq![102u8, 111, 110, 116, 95, 110, 117, 109, 98, 101, 114]);
    assert(("char_spacing").spec_bytes() =~= seq![99u8, 104, 97, 114, 95, 115, 112, 97, 99, 105, 110, 103]);
    assert(("line_spacing").spec_bytes() =~= seq![108u8, 105, 110, 101, 95, 115, 112, 97, 99, 105, 110, 103]);
}

/// The first header line of a written `tfon` document.
pub open spec fn header_line1(name: Seq<u8>) -> Seq<u8> {
    ("font_name").spec_bytes() + seq![58u8, 32u8] + spec_pad64(name)
}

/// A scalar header line of a written `tfon` document.
pub open spec fn header_line_num(key: Seq<u8>, n: int) -> Seq<u8> {
    key + seq![58u8, 32u8] + spec_dec(n)
}

/// The header splits into its four lines followed by the rest's lines.
#[verifier::rlimit(100)]
proof fn lemma_header_lines(name: Seq<u8>, num: u8, cs: u8, ls: u8, rest: Seq<u8>)
    requires
        forall|i: int| 0 <= i < name.len() ==> name[i] != 10 && name[i] != 13,
    ensures
        spec_lines(header_text(name, num as int, cs as int, ls as int) + rest) == seq![
            header_line1(name),
            header_line_num(("font_number").spec_bytes(), num as int),
            header_line_num(("char_spacing").spec_bytes(), cs as int),
            header_line_num(("line_spacing").spec_bytes(), ls as int),
        ] + spec_lines(rest),
{
    lemma_header_literal_bytes();
    lemma_nl_bytes();
    let nl = seq![10u8];
    let l1 = header_line1(name);
    let l2 = header_line_num(("font_number").spec_bytes(), num as int);
    let l3 = header_line_num(("char_spacing").spec_bytes(), cs as int);
    let l4 = header_line_num(("line_spacing").spec_bytes(), ls as int);
    lemma_dec_digits_only(num as int);
    lemma_dec_digits_only(cs as int);
    lemma_dec_digits_only(ls as int);
    let pad = spec_pad64(name);
    assert forall|i: int| 0 <= i < l1.len() implies l1[i] != 10 && l1[i] != 13 by {
        if i >= 11 {
            assert(l1[i] == pad[i - 11]);
            if i - 11 < name.len() {
                assert(pad[i - 11] == name[i - 11]);
            }
        }
    }
    assert forall|i: int| 0 <= i < l2.len() implies l2[i] != 10 && l2[i] != 13 by {
        if i >= 13 {
            assert(is_dec_digit(spec_dec(num as int)[i - 13]));
        }
    }
    assert forall|i: int| 0 <= i < l3.len() implies l3[i] != 10 && l3[i] != 13 by {
        if i >= 14 {
            assert(is_dec_digit(spec_dec(cs as int)[i - 14]));
        }
    }
    assert forall|i: int| 0 <= i < l4.len() implies l4[i] != 10 && l4[i] != 13 by {
        if i >= 14 {
            assert(is_dec_digit(spec_dec(ls as int)[i - 14]));
        }
    }
    let h = header_text(name, num as int, cs as int, ls as int);
    assert(h + rest =~= (l1 + nl) + ((l2 + nl) + ((l3 + nl) + ((l4 + nl) + rest))));
    lemma_lines_append(l1 + nl, (l2 + nl) + ((l3 + nl) + ((l4 + nl) + rest)));
    lemma_lines_append(l2 + nl, (l3 + nl) + ((l4 + nl) + rest));
    lemma_lines_append(l3 + nl, (l4 + nl) + rest);
    lemma_lines_append(l4 + nl, rest);
    lemma_lines_single(l1);
    lemma_lines_single(l2);
    lemma_lines_single(l3);
    lemma_lines_single(l4);
    assert(spec_lines(h + rest) =~= seq![l1, l2, l3, l4] + spec_lines(rest));
}

/// A written `font_name` line parses back as the padded name.
proof fn lemma_step_font_name(name: Seq<u8>, tail: Seq<Seq<u8>>)
    ensures
        spec_step(seq![header_line1(name)] + tail) == Some(
            (PropSpec::FontName(spec_pad64(name)), tail),
        ),
{
    lemma_header_literal_bytes();
    let k1 = ("font_name").spec_bytes();
    lemma_kv_split(k1, spec_pad64(name));
    let ls = seq![header_line1(name)] + tail;
    assert(ls[0] == header_line1(name));
    assert(ls.drop_first() =~= tail);
    assert(spec_step(ls) =~~= Some((PropSpec::FontName(spec_pad64(name)), tail)));
}

/// A written numeric header line parses back as its value.
proof fn lemma_step_num(key: Seq<u8>, n: u8, tail: Seq<Seq<u8>>)
    requires
        key == ("font_number").spec_bytes() || key == ("char_spacing").spec_bytes() || key == (
        "line_spacing").spec_bytes(),
    ensures
        key == ("font_number").spec_bytes() ==> spec_step(
            seq![header_line_num(key, n as int)] + tail,
        ) == Some((PropSpec::FontNumber(n), tail)),
        key == ("char_spacing").spec_bytes() ==> spec_step(
            seq![header_line_num(key, n as int)] + tail,
        ) == Some((PropSpec::CharSpacing(n), tail)),
        key == ("line_spacing").spec_bytes() ==> spec_step(
            seq![header_line_num(key, n as int)] + tail,
        ) == Some((PropSpec::LineSpacing(n), tail)),
{
    lemma_header_literal_bytes();
    lemma_dec_digits_only(n as int);
    assert forall|i: int| 0 <= i < key.len() implies key[i] != 58 by {}
    lemma_kv_split(key, spec_dec(n as int));
    lemma_dec_parses_back(n as int, 255);
    let ls = seq![header_line_num(key, n as int)] + tail;
    assert(ls[0] == header_line_num(key, n as int));
    assert(ls.drop_first() =~= tail);
    let k1 = ("font_name").spec_bytes();
    let k2 = ("font_number").spec_bytes();
    let k3 = ("char_spacing").spec_bytes();
    let k4 = ("line_spacing").spec_bytes();
    assert(k2 != k1 && k3 != k1 && k3 != k2 && k4 != k1 && k4 != k2);
    assert(k4[0] != k3[0]);
    assert(k4 != k3);
    if key == k2 {
        assert(spec_step(ls) =~~= Some((PropSpec::FontNumber(n), tail)));
    } else if key == k3 {
        assert(spec_step(ls) =~~= Some((PropSpec::CharSpacing(n), tail)));
    } else {
        assert(spec_step(ls) =~~= Some((PropSpec::LineSpacing(n), tail)));
    }
}

/// Writing a `tfon` header and parsing the written text back yields the
/// same font number and spacings and the font name padded to its field:
/// the header half of the round trip.
pub proof fn lemma_header_round_trip(name: Seq<u8>, num: u8, cs: u8, ls: u8, rest: Seq<u8>)
    requires
        forall|i: int| 0 <= i < name.len() ==> name[i] != 10 && name[i] != 13,
    ensures
        ({
            let l0 = spec_lines(header_text(name, num as int, cs as int, ls as int) + rest);
            &&& l0.len() == 4 + spec_lines(rest).len()
            &&& spec_step(l0) == Some((PropSpec::FontName(spec_pad64(name)), l0.skip(1)))
            &&& spec_step(l0.skip(1)) == Some((PropSpec::FontNumber(num), l0.skip(2)))
            &&& spec_step(l0.skip(2)) == Some((PropSpec::CharSpacing(cs), l0.skip(3)))
            &&& spec_step(l0.skip(3)) == Some((PropSpec::LineSpacing(ls), spec_lines(rest)))
        }),
{
    lemma_header_lines(name, num, cs, ls, rest);
    let l0 = spec_lines(header_text(name, num as int, cs as int, ls as int) + rest);
    let l1 = header_line1(name);
    let l2 = header_line_num(("font_number").spec_bytes(), num as int);
    let l3 = header_line_num(("char_spacing").spec_bytes(), cs as int);
    let l4 = header_line_num(("line_spacing").spec_bytes(), ls as int);
    let tail = spec_lines(rest);
    assert(l0 == seq![l1, l2, l3, l4] + tail);
    assert(l0 =~= seq![l1] + (seq![l2, l3, l4] + tail));
    assert(l0.skip(1) =~= seq![l2] + (seq![l3, l4] + tail));
    assert(l0.skip(2) =~= seq![l3] + (seq![l4] + tail));
    assert(l0.skip(3) =~= seq![l4] + tail);
    assert(seq![l2, l3, l4] + tail =~= l0.skip(1));
    assert(seq![l3, l4] + tail =~= l0.skip(2));
    assert(seq![l4] + tail =~= l0.skip(3));
    lemma_step_font_name(name, seq![l2, l3, l4] + tail);
    lemma_step_num(("font_number").spec_bytes(), num, seq![l3, l4] + tail);
    lemma_step_num(("char_spacing").spec_bytes(), cs, seq![l4] + tail);
    lemma_step_num(("line_spacing").spec_bytes(), ls, tail);
}

/// The bytes of the `ch:` line literals.
proof fn lemma_ch_literal_bytes()
    ensures
        ("\nch: ").spec_bytes() == seq![10u8, 99, 104, 58, 32],
        ("ch").spec_bytes() == seq![99u8, 104],
        (" ").spec_bytes() == seq![32u8],
{
    broadcast use vstd::string::group_string_axioms;

    reveal_strlit("\nch: ");
    reveal_strlit("ch");
    reveal_strlit(" ");
    assert(vstd::string::is_ascii("\nch: "));
    assert(vstd::string::is_ascii("ch"));
    assert(vstd::string::is_ascii(" "));
    assert(("\nch: ").spec_bytes() =~= seq![10u8, 99, 104, 58, 32]);
    assert(("ch").spec_bytes() =~= seq![99u8, 104]);
    assert((" ").spec_bytes() =~= seq![32u8]);
}

/// For printable ASCII codepoints the symbolic name is the character
/// itself.
pub proof fn lemma_printable_symbol(cp: u16)
    requires
        33 <= cp <= 126,
    ensures
        spec_symbol(cp as int) == seq![cp as u8],
{
    let c = cp as u32;
    assert(sym_word(cp as int) == c << 24);
    assert((((c << 24) >> 24) & 0xFF) == c && (((c << 24) >> 16) & 0xFF) == 0 && (((c << 24) >> 8)
        & 0xFF) == 0 && ((c << 24) & 0xFF) == 0) by (bit_vector)
        requires
            33 <= c <= 126,
    ;
    assert(spec_symbol(cp as int) =~= seq![cp as u8]);
}

/// The `ch:` line of a written codepoint block.
pub open spec fn ch_line(cp: int) -> Seq<u8> {
    ("ch").spec_bytes() + seq![58u8, 32u8] + spec_dec(cp) + seq![32u8] + spec_symbol(cp)
}

/// A written codepoint block splits into its `ch:` line followed by the
/// rest's lines; the leading blank line disappears.
proof fn lemma_cp_lines(cp: u16, rest: Seq<u8>)
    requires
        33 <= cp <= 126,
    ensures
        spec_lines(cp_text(cp as int) + rest) == seq![ch_line(cp as int)] + spec_lines(rest),
{
    lemma_ch_literal_bytes();
    lemma_nl_bytes();
    lemma_printable_symbol(cp);
    lemma_dec_digits_only(cp as int);
    let nl = seq![10u8];
    let chl = ch_line(cp as int);
    assert forall|i: int| 0 <= i < chl.len() implies chl[i] != 10 && chl[i] != 13 by {
        if 4 <= i < 4 + spec_dec(cp as int).len() {
            assert(is_dec_digit(spec_dec(cp as int)[i - 4]));
        }
    }
    assert(cp_text(cp as int) + rest =~= nl + ((chl + nl) + rest));
    lemma_lines_append(nl, (chl + nl) + rest);
    assert(line_end(nl) == 0);
    assert(nl.subrange(1, 1).len() == 0);
    assert(spec_lines(nl.subrange(1, 1)) =~= Seq::<Seq<u8>>::empty());
    assert(nl.subrange(0, 0).len() == 0);
    assert(spec_lines(nl) =~= Seq::<Seq<u8>>::empty());
    lemma_lines_append(chl + nl, rest);
    lemma_lines_single(chl);
    assert(spec_lines(cp_text(cp as int) + rest) =~= seq![chl] + spec_lines(rest));
}

/// A written `ch:` line parses back as its codepoint.
proof fn lemma_step_ch(cp: u16, tail: Seq<Seq<u8>>)
    requires
        33 <= cp <= 126,
    ensures
        spec_step(seq![ch_line(cp as int)] + tail) == Some((PropSpec::CodePoint(cp), tail)),
{
    lemma_header_literal_bytes();
    lemma_ch_literal_bytes();
    lemma_printable_symbol(cp);
    lemma_dec_digits_only(cp as int);
    lemma_dec_parses_back(cp as int, 0xFFFF);
    let key = ("ch").spec_bytes();
    let d = spec_dec(cp as int);
    let sym = spec_symbol(cp as int);
    let val = d + seq![32u8] + sym;
    assert(ch_line(cp as int) =~= key + seq![58u8, 32u8] + val);
    lemma_kv_split(key, val);
    assert forall|i: int| 0 <= i < d.len() implies val[i] != 32 by {
        assert(val[i] == d[i]);
        assert(is_dec_digit(d[i]));
    }
    assert(val[d.len() as int] == 32);
    crate::common::lemma_find_at(val, 32, d.len() as int);
    assert(val.subrange(0, d.len() as int) =~= d);
    assert(val.subrange(d.len() as int + 1, val.len() as int) =~= sym);
    let ls = seq![ch_line(cp as int)] + tail;
    assert(ls[0] == ch_line(cp as int));
    assert(ls.drop_first() =~= tail);
    assert(key != ("font_name").spec_bytes() && key != ("font_number").spec_bytes() && key != (
    "char_spacing").spec_bytes() && key != ("line_spacing").spec_bytes());
    assert(spec_step(ls) =~~= Some((PropSpec::CodePoint(cp), tail)));
}

/// Writing a codepoint with a printable symbol and parsing the written text
/// back yields the same codepoint: the `ch:` half of the round trip.
pub proof fn lemma_code_point_round_trip(cp: u16, rest: Seq<u8>)
    requires
        33 <= cp <= 126,
    ensures
        ({
            let l0 = spec_lines(cp_text(cp as int) + rest);
            l0.len() == 1 + spec_lines(rest).len() && spec_step(l0) == Some(
                (PropSpec::CodePoint(cp), spec_lines(rest)),
            )
        }),
{
    lemma_cp_lines(cp, rest);
    let l0 = spec_lines(cp_text(cp as int) + rest);
    assert(l0 == seq![ch_line(cp as int)] + spec_lines(rest));
    lemma_step_ch(cp, spec_lines(rest));
}

/// A parsing step that yields a property consumes at least one line.
proof fn lemma_step_shrinks(ls: Seq<Seq<u8>>)
    ensures
        spec_step(ls) matches Some(t) ==> t.1.len() < ls.len(),
{
    if ls.len() > 0 {
        if !has_sep2(ls[0]) {
            lemma_spec_rows_len(ls.drop_first(), 64, ls[0].len() as int, 1);
        }
    }
}

/// The whole property sequence a `tfon` parser produces from its remaining
/// lines.
pub open spec fn spec_props(ls: Seq<Seq<u8>>) -> Seq<PropSpec>
    decreases ls.len(),
    via spec_props_dec
{
    match spec_step(ls) {
        None => Seq::empty(),
        Some(t) => seq![t.0] + spec_props(t.1),
    }
}

#[via_fn]
proof fn spec_props_dec(ls: Seq<Seq<u8>>) {
    lemma_step_shrinks(ls);
}

/// The text written for a sequence of codepoint/bitmap pairs.
pub open spec fn pairs_text(ps: Seq<(u16, BitmapSpec)>) -> Seq<u8>
    decreases ps.len(),
{
    if ps.len() == 0 {
        Seq::empty()
    } else {
        cp_text(ps[0].0 as int) + (bitmap_text(ps[0].1) + pairs_text(ps.drop_first()))
    }
}

/// The properties a sequence of codepoint/bitmap pairs stands for.
pub open spec fn pairs_props(ps: Seq<(u16, BitmapSpec)>) -> Seq<PropSpec>
    decreases ps.len(),
{
    if ps.len() == 0 {
        Seq::empty()
    } else {
        seq![PropSpec::CodePoint(ps[0].0), PropSpec::Bitmap(ps[0].1)] + pairs_props(
            ps.drop_first(),
        )
    }
}

/// A well-formed glyph pair: a printable codepoint and a bitmap a parser
/// could have produced.
pub open spec fn pair_ok(p: (u16, BitmapSpec)) -> bool {
    &&& 33 <= p.0 <= 126
    &&& 1 <= p.1.width <= 255
    &&& 1 <= p.1.height <= 255
    &&& p.1.pixels.len() == p.1.width * p.1.height
}

/// The written glyph pairs parse back as the same codepoints and the same
/// bitmaps, pixel for pixel.
#[verifier::rlimit(100)]
proof fn lemma_pairs_round_trip(ps: Seq<(u16, BitmapSpec)>)
    requires
        forall|i: int| 0 <= i < ps.len() ==> pair_ok(#[trigger] ps[i]),
    ensures
        spec_props(spec_lines(pairs_text(ps))) == pairs_props(ps),
    decreases ps.len(),
{
    lemma_ch_literal_bytes();
    if ps.len() == 0 {
        assert(spec_lines(Seq::<u8>::empty()) == Seq::<Seq<u8>>::empty());
        assert(spec_props(Seq::<Seq<u8>>::empty()) =~= Seq::<PropSpec>::empty());
    } else {
        let cp = ps[0].0;
        let bm = ps[0].1;
        let rest = ps.drop_first();
        assert(pair_ok(ps[0]));
        assert forall|i: int| 0 <= i < rest.len() implies pair_ok(#[trigger] rest[i]) by {
            assert(rest[i] == ps[i + 1]);
        }
        let after_glyph = pairs_text(rest);
        let after_cp = bitmap_text(bm) + after_glyph;
        // The next pair's ch: line, if any, is no pixel row.
        if rest.len() > 0 {
            lemma_cp_lines(rest[0].0, bitmap_text(rest[0].1) + pairs_text(rest.drop_first()));
            assert(pairs_text(rest) == cp_text(rest[0].0 as int) + (bitmap_text(rest[0].1)
                + pairs_text(rest.drop_first())));
            assert(spec_lines(pairs_text(rest))[0] == ch_line(rest[0].0 as int));
            assert(ch_line(rest[0].0 as int)[0] == 99);
            assert(!spec_pixel_row(ch_line(rest[0].0 as int), 64));
        }
        lemma_glyph_round_trip(bm, after_glyph);
        let glyph_lines = spec_lines(bitmap_text(bm) + after_glyph);
        lemma_cp_lines(cp, after_cp);
        assert(pairs_text(ps) == cp_text(cp as int) + after_cp);
        let all_lines = spec_lines(pairs_text(ps));
        assert(all_lines == seq![ch_line(cp as int)] + glyph_lines);
        lemma_step_ch(cp, glyph_lines);
        assert(spec_step(all_lines) == Some((PropSpec::CodePoint(cp), glyph_lines)));
        assert(spec_props(all_lines) == seq![PropSpec::CodePoint(cp)] + spec_props(glyph_lines));
        // The glyph lines begin with a pixel row, which has no `: ` pair.
        let row0 = glyph_lines[0];
        assert(spec_char(row0, glyph_lines.drop_first(), 64) == Some(
            (bm, spec_lines(after_glyph)),
        ));
        assert(spec_pixel_row(row0, 64));
        assert forall|i: int| 0 <= i < row0.len() && i + 1 < row0.len() implies !(#[trigger] row0[i]
            == 58 && row0[i + 1] == 32) by {
            assert(row0[i] == 46 || row0[i] == 64);
        }
        crate::common::lemma_find2_at(row0, 58, 32, row0.len() as int);
        assert(!has_sep2(row0));
        assert(spec_step(glyph_lines) == Some((PropSpec::Bitmap(bm), spec_lines(after_glyph))));
        assert(spec_props(glyph_lines) == seq![PropSpec::Bitmap(bm)] + spec_props(
            spec_lines(after_glyph),
        ));
        lemma_pairs_round_trip(rest);
        assert(spec_props(all_lines) =~= pairs_props(ps));
    }
}

/// Round trip: a whole written `tfon` document parses back as the same
/// font name (padded to its field), font number and spacings, and the same
/// codepoints with their bitmaps, pixel for pixel.
pub proof fn lemma_document_round_trip(
    name: Seq<u8>,
    num: u8,
    cs: u8,
    ls: u8,
    ps: Seq<(u16, BitmapSpec)>,
)
    requires
        forall|i: int| 0 <= i < name.len() ==> name[i] != 10 && name[i] != 13,
        forall|i: int| 0 <= i < ps.len() ==> pair_ok(#[trigger] ps[i]),
    ensures
        spec_props(
            spec_lines(header_text(name, num as int, cs as int, ls as int) + pairs_text(ps)),
        ) == seq![
            PropSpec::FontName(spec_pad64(name)),
            PropSpec::FontNumber(num),
            PropSpec::CharSpacing(cs),
            PropSpec::LineSpacing(ls),
        ] + pairs_props(ps),
{
    lemma_header_round_trip(name, num, cs, ls, pairs_text(ps));
    let l0 = spec_lines(header_text(name, num as int, cs as int, ls as int) + pairs_text(ps));
    assert(spec_props(l0) == seq![PropSpec::FontName(spec_pad64(name))] + spec_props(l0.skip(1)));
    assert(spec_props(l0.skip(1)) == seq![PropSpec::FontNumber(num)] + spec_props(l0.skip(2)));
    assert(spec_props(l0.skip(2)) == seq![PropSpec::CharSpacing(cs)] + spec_props(l0.skip(3)));
    assert(spec_props(l0.skip(3)) == seq![PropSpec::LineSpacing(ls)] + spec_props(
        spec_lines(pairs_text(ps)),
    ));
    lemma_pairs_round_trip(ps);
    assert(spec_props(l0) =~= seq![
        PropSpec::FontName(spec_pad64(name)),
        PropSpec::FontNumber(num),
        PropSpec::CharSpacing(cs),
        PropSpec::LineSpacing(ls),
    ] + pairs_props(ps));
}

/// The canonical property sequence of a font: its four scalar header
/// properties, then its glyphs as codepoint/bitmap pairs.
pub open spec fn canonical_props(
    name: Seq<u8>,
    num: u8,
    cs: u8,
    ls: u8,
    ps: Seq<(u16, BitmapSpec)>,
) -> Seq<PropSpec> {
    seq![
        PropSpec::FontName(name),
        PropSpec::FontNumber(num),
        PropSpec::CharSpacing(cs),
        PropSpec::LineSpacing(ls),
    ] + pairs_props(ps)
}

/// The writer's body for a sequence of glyph pairs is their text.
proof fn lemma_body_of_pairs(ps: Seq<(u16, BitmapSpec)>)
    requires
        forall|i: int| 0 <= i < ps.len() ==> pair_ok(#[trigger] ps[i]),
    ensures
        spec_body(pairs_props(ps), false) == Some(pairs_text(ps)),
    decreases ps.len(),
{
    if ps.len() == 0 {
    } else {
        let rest = ps.drop_first();
        assert(pair_ok(ps[0]));
        assert forall|i: int| 0 <= i < rest.len() implies pair_ok(#[trigger] rest[i]) by {
            assert(rest[i] == ps[i + 1]);
        }
        lemma_body_of_pairs(rest);
        let pp = pairs_props(ps);
        assert(pp[0] == PropSpec::CodePoint(ps[0].0));
        assert(pp.drop_first()[0] == PropSpec::Bitmap(ps[0].1));
        assert(pp.drop_first().drop_first() =~= pairs_props(rest));
        assert(spec_body(pp.drop_first(), true) == Some(
            bitmap_text(ps[0].1) + pairs_text(rest),
        ));
        assert(spec_body(pp, false) == Some(
            cp_text(ps[0].0 as int) + (bitmap_text(ps[0].1) + pairs_text(rest)),
        ));
    }
}

/// Writing a canonical property sequence emits exactly the header followed
/// by the glyph pairs' text.
proof fn lemma_write_canonical(name: Seq<u8>, num: u8, cs: u8, ls: u8, ps: Seq<(u16, BitmapSpec)>)
    requires
        forall|i: int| 0 <= i < ps.len() ==> pair_ok(#[trigger] ps[i]),
    ensures
        spec_write(canonical_props(name, num, cs, ls, ps)) == Ok::<Seq<u8>, Seq<char>>(
            header_text(name, num as int, cs as int, ls as int) + pairs_text(ps),
        ),
{
    let cp = canonical_props(name, num, cs, ls, ps);
    let c1 = cp.drop_first();
    let c2 = c1.drop_first();
    let c3 = c2.drop_first();
    let c4 = c3.drop_first();
    assert(c4 =~= pairs_props(ps));
    assert(cp[0] == PropSpec::FontName(name));
    assert(c1[0] == PropSpec::FontNumber(num));
    assert(c2[0] == PropSpec::CharSpacing(cs));
    assert(c3[0] == PropSpec::LineSpacing(ls));
    assert(first_font_name(cp) == Some(name));
    assert(first_font_number(c1) == Some(num));
    assert(first_font_number(cp) == Some(num));
    assert(first_char_spacing(c2) == Some(cs));
    assert(first_char_spacing(c1) == Some(cs));
    assert(first_char_spacing(cp) == Some(cs));
    assert(first_line_spacing(c3) == Some(ls));
    assert(first_line_spacing(c2) == Some(ls));
    assert(first_line_spacing(c1) == Some(ls));
    assert(first_line_spacing(cp) == Some(ls));
    lemma_body_of_pairs(ps);
    assert(spec_body(c4, false) == Some(pairs_text(ps)));
    assert(spec_body(c3, false) == Some(pairs_text(ps)));
    assert(spec_body(c2, false) == Some(pairs_text(ps)));
    assert(spec_body(c1, false) == Some(pairs_text(ps)));
    assert(spec_body(cp, false) == Some(pairs_text(ps)));
}

/// Round trip: writing a font's canonical property sequence succeeds, and
/// parsing the written document back yields the same properties, with the
/// font name padded to its field and everything else identical, bitmaps
/// pixel for pixel.
pub proof fn lemma_tfon_round_trip(name: Seq<u8>, num: u8, cs: u8, ls: u8, ps: Seq<
    (u16, BitmapSpec),
>)
    requires
        forall|i: int| 0 <= i < name.len() ==> name[i] != 10 && name[i] != 13,
        forall|i: int| 0 <= i < ps.len() ==> pair_ok(#[trigger] ps[i]),
    ensures
        ({
            let text = header_text(name, num as int, cs as int, ls as int) + pairs_text(ps);
            &&& spec_write(canonical_props(name, num, cs, ls, ps)) == Ok::<Seq<u8>, Seq<char>>(
                text,
            )
            &&& spec_props(spec_lines(text)) == canonical_props(spec_pad64(name), num, cs, ls, ps)
        }),
{
    lemma_write_canonical(name, num, cs, ls, ps);
    lemma_document_round_trip(name, num, cs, ls, ps);
    assert(seq![
        PropSpec::FontName(spec_pad64(name)),
        PropSpec::FontNumber(num),
        PropSpec::CharSpacing(cs),
        PropSpec::LineSpacing(ls),
    ] + pairs_props(ps) =~= canonical_props(spec_pad64(name), num, cs, ls, ps));
}

/// Removing a `MaxCharNumber` entry changes neither the header values nor
/// the body the writer emits.
proof fn lemma_skip_max_char_number(props: Seq<PropSpec>, i: int)
    requires
        0 <= i < props.len(),
        props[i] is MaxCharNumber,
    ensures
        first_font_name(props.remove(i)) == first_font_name(props),
        first_font_number(props.remove(i)) == first_font_number(props),
        first_char_spacing(props.remove(i)) == first_char_spacing(props),
        first_line_spacing(props.remove(i)) == first_line_spacing(props),
        spec_body(props.remove(i), true) == spec_body(props, true),
        spec_body(props.remove(i), false) == spec_body(props, false),
    decreases props.len(),
{
    let r = props.remove(i);
    if i == 0 {
        assert(r =~= props.drop_first());
    } else {
        assert(r[0] == props[0]);
        assert(r.drop_first() =~= props.drop_first().remove(i - 1));
        assert(props.drop_first()[i - 1] == props[i]);
        lemma_skip_max_char_number(props.drop_first(), i - 1);
    }
}

/// Cross-format conversions drop `MaxCharNumber`: the `tfon` writer emits
/// the same document whether or not the sequence carries one.
pub proof fn lemma_max_char_number_dropped(props: Seq<PropSpec>, i: int)
    requires
        0 <= i < props.len(),
        props[i] is MaxCharNumber,
    ensures
        spec_write(props.remove(i)) == spec_write(props),
{
    lemma_skip_max_char_number(props, i);
}

} // verus!
