//! Parse and write fonts in `ifnt` format
//!
//! An `ifnt` font has a `[FontInfo]` header of `key=value` lines, then for
//! each glyph a `[Char_<codepoint>]` section whose pixel rows are
//! `row<NN>=` lines drawn with `.` and `X` characters.
use crate::common::{
    bytes_eq, eq_key, eq_val, first_char_spacing, first_font_name, first_line_spacing, has_eq,
    parse_u16, parse_u8, push_bytes, push_dec, push_hex, push_padded64, spec_dec, spec_hex,
    spec_lines, spec_pad64, spec_parse_uint, spec_starts_with, split_eq, starts_with, Bitmap,
    BitmapSpec, Cursor, Error, Prop, PropSpec,
};
use vstd::prelude::*;
use vstd::string::StringSliceAdditionalSpecFns;

verus! {

/// The pixels of a row value: `.` is off, `X` is on, any other character is
/// skipped.
pub open spec fn filter_px(s: Seq<u8>) -> Seq<bool>
    decreases s.len(),
{
    if s.len() == 0 {
        Seq::empty()
    } else {
        let rest = filter_px(s.drop_last());
        if s.last() == 46 || s.last() == 88 {
            rest.push(s.last() == 88)
        } else {
            rest
        }
    }
}

/// The pixels contributed by one line: a `row...=` line contributes the
/// pixels of its value, any other line contributes none.
pub open spec fn row_line_px(l: Seq<u8>) -> Seq<bool> {
    if spec_starts_with(l, ("row").spec_bytes()) && has_eq(l) {
        filter_px(eq_val(l))
    } else {
        Seq::empty()
    }
}

/// Rows of a character block: consume lines while each contributes exactly
/// `w` pixels, with `h` rows already taken; the first non-matching line
/// stays available.  More rows than a bitmap can hold aborts.
pub open spec fn spec_rows(ls: Seq<Seq<u8>>, w: int, h: int) -> Option<
    (int, Seq<bool>, Seq<Seq<u8>>),
>
    decreases ls.len(),
{
    if ls.len() == 0 {
        Some((0, Seq::empty(), ls))
    } else if row_line_px(ls[0]).len() == w {
        if h >= 255 {
            None
        } else {
            match spec_rows(ls.drop_first(), w, h + 1) {
                Some(t) => Some((1 + t.0, row_line_px(ls[0]) + t.1, t.2)),
                None => None,
            }
        }
    } else {
        Some((0, Seq::empty(), ls))
    }
}

/// A whole character block, read from the lines after a `Character=` line:
/// the first line's pixel count fixes the width.
pub open spec fn spec_char(ls: Seq<Seq<u8>>) -> Option<(BitmapSpec, Seq<Seq<u8>>)> {
    if ls.len() == 0 {
        None
    } else {
        let w = row_line_px(ls[0]).len() as int;
        if w == 0 || w > 255 {
            None
        } else {
            match spec_rows(ls.drop_first(), w, 1) {
                Some(t) => Some(
                    (
                        BitmapSpec { width: w, height: 1 + t.0, pixels: row_line_px(ls[0]) + t.1 },
                        t.2,
                    ),
                ),
                None => None,
            }
        }
    }
}

/// One parsing step on the remaining lines: the next property, if any, with
/// the lines left after it; `None` ends the sequence.
pub open spec fn spec_step(ls: Seq<Seq<u8>>) -> Option<(PropSpec, Seq<Seq<u8>>)> {
    if ls.len() == 0 {
        None
    } else {
        let l = ls[0];
        let rest = ls.drop_first();
        if spec_starts_with(l, ("[Char_").spec_bytes()) && l.len() >= 7 && l[l.len() - 1] == 93 {
            match spec_parse_uint(l.subrange(6, l.len() - 1), 0xFFFF) {
                Some(v) => Some((PropSpec::CodePoint(v as u16), rest)),
                None => None,
            }
        } else if has_eq(l) {
            let key = eq_key(l);
            let val = eq_val(l);
            if key == ("FontName").spec_bytes() {
                Some((PropSpec::FontName(val), rest))
            } else if key == ("FontHeight").spec_bytes() {
                match spec_parse_uint(val, 255) {
                    Some(v) => Some((PropSpec::FontHeight(v as u8), rest)),
                    None => None,
                }
            } else if key == ("CharSpacing").spec_bytes() {
                match spec_parse_uint(val, 255) {
                    Some(v) => Some((PropSpec::CharSpacing(v as u8), rest)),
                    None => None,
                }
            } else if key == ("LineSpacing").spec_bytes() {
                match spec_parse_uint(val, 255) {
                    Some(v) => Some((PropSpec::LineSpacing(v as u8), rest)),
                    None => None,
                }
            } else if key == ("MaxCharNumber").spec_bytes() {
                match spec_parse_uint(val, 0xFFFF) {
                    Some(v) => Some((PropSpec::MaxCharNumber(v as u16), rest)),
                    None => None,
                }
            } else if key == ("Character").spec_bytes() {
                match spec_char(rest) {
                    Some(t) => Some((PropSpec::Bitmap(t.0), t.1)),
                    None => None,
                }
            } else {
                Some((PropSpec::Unknown(key), rest))
            }
        } else {
            Some((PropSpec::Unknown(l), rest))
        }
    }
}

/// Read the pixels of one row line.
fn parse_row(l: &[u8]) -> (r: Vec<bool>)
    ensures
        r@ == row_line_px(l@),
{
    let mut r: Vec<bool> = Vec::new();
    if starts_with(l, "row".as_bytes()) {
        match split_eq(l) {
            Some((_key, val)) => {
                let mut i: usize = 0;
                while i < val.len()
                    invariant
                        0 <= i <= val@.len(),
                        r@ =~= filter_px(val@.take(i as int)),
                    decreases val@.len() - i,
                {
                    let b = *vstd::slice::slice_index_get(val, i);
                    proof {
                        assert(val@.take(i + 1).drop_last() =~= val@.take(i as int));
                        assert(val@.take(i + 1).last() == val@[i as int]);
                    }
                    if b == 46 {
                        r.push(false);
                    } else if b == 88 {
                        r.push(true);
                    }
                    i = i + 1;
                }
                proof {
                    assert(val@.take(val@.len() as int) =~= val@);
                }
            },
            None => {
            },
        }
    }
    r
}

/// Parser for `ifnt` format
pub struct Parser<'p> {
    /// Line cursor over the input
    cursor: Cursor<'p>,
}

impl<'p> View for Parser<'p> {
    type V = Seq<Seq<u8>>;

    closed spec fn view(&self) -> Seq<Seq<u8>> {
        self.cursor.remaining()
    }
}

impl<'p> Parser<'p> {
    /// The parser's cursor is well formed.
    pub closed spec fn wf(&self) -> bool {
        self.cursor.wf()
    }

    /// Create a new `ifnt` parser.
    pub fn new(buf: &'p str) -> (r: Parser<'p>)
        ensures
            r.wf(),
            r@ == spec_lines(buf.spec_bytes()),
    {
        Parser { cursor: Cursor::new(buf.as_bytes()) }
    }

    /// Parse one property.  `None` ends the sequence: the input is exhausted
    /// or a malformed line stopped it.
    pub fn prop(&mut self) -> (r: Option<Prop<'p>>)
        requires
            old(self).wf(),
        ensures
            final(self).wf(),
            match spec_step(old(self)@) {
                Some(t) => (r matches Some(p) && p@ == t.0 && final(self)@ == t.1
                    && final(self)@.len() < old(self)@.len()),
                None => r is None,
            },
            r matches Some(Prop::Bitmap(b)) ==> b.inv(),
    {
        let line = match self.cursor.next_line() {
            Some(l) => l,
            None => {
                return None;
            },
        };
        if starts_with(line, "[Char_".as_bytes()) && line.len() >= 7 && *vstd::slice::slice_index_get(
            line,
            line.len() - 1,
        ) == 93 {
            let mid = vstd::slice::slice_subrange(line, 6, line.len() - 1);
            return match parse_u16(mid) {
                Some(v) => Some(Prop::CodePoint(v)),
                None => None,
            };
        }
        match split_eq(line) {
            Some((key, val)) => {
                if bytes_eq(key, "FontName".as_bytes()) {
                    Some(Prop::FontName(val))
                } else if bytes_eq(key, "FontHeight".as_bytes()) {
                    match parse_u8(val) {
                        Some(v) => Some(Prop::FontHeight(v)),
                        None => None,
                    }
                } else if bytes_eq(key, "CharSpacing".as_bytes()) {
                    match parse_u8(val) {
                        Some(v) => Some(Prop::CharSpacing(v)),
                        None => None,
                    }
                } else if bytes_eq(key, "LineSpacing".as_bytes()) {
                    match parse_u8(val) {
                        Some(v) => Some(Prop::LineSpacing(v)),
                        None => None,
                    }
                } else if bytes_eq(key, "MaxCharNumber".as_bytes()) {
                    match parse_u16(val) {
                        Some(v) => Some(Prop::MaxCharNumber(v)),
                        None => None,
                    }
                } else if bytes_eq(key, "Character".as_bytes()) {
                    self.character()
                } else {
                    Some(Prop::Unknown(key))
                }
            },
            None => Some(Prop::Unknown(line)),
        }
    }

    /// Parse a bitmap character property from the row lines after a
    /// `Character=` line.
    fn character(&mut self) -> (r: Option<Prop<'p>>)
        requires
            old(self).wf(),
            !old(self).cursor.has_pushback(),
        ensures
            final(self).wf(),
            final(self)@.len() <= old(self)@.len(),
            match spec_char(old(self)@) {
                Some(t) => (r matches Some(p) && (p matches Prop::Bitmap(b) && b@ == t.0
                    && b.inv()) && final(self)@ == t.1),
                None => r is None,
            },
    {
        let ghost entry = self.cursor.remaining();
        let line = match self.cursor.next_line() {
            Some(l) => l,
            None => {
                return None;
            },
        };
        let px = parse_row(line);
        if px.len() == 0 || px.len() > 255 {
            return None;
        }
        let width = px.len() as u8;
        let ghost w = px@.len() as int;
        let mut bitmap = Bitmap::new(width);
        bitmap.push_row(px.as_slice());
        proof {
            assert(crate::common::norm_row(px@, w) =~= px@);
            assert(bitmap@.pixels =~= row_line_px(line@));
        }
        let mut go = true;
        while go
            invariant
                self.cursor.wf(),
                entry == old(self).cursor.remaining(),
                self.cursor.remaining().len() <= entry.len(),
                go ==> !self.cursor.has_pushback(),
                bitmap.inv(),
                width as int == w,
                0 < w <= 255,
                bitmap@.width == w,
                1 <= bitmap@.height <= 255,
                go ==> (match spec_rows(self.cursor.remaining(), w, bitmap@.height) {
                    Some(t) => spec_char(entry) == Some(
                        (
                            BitmapSpec {
                                width: w,
                                height: bitmap@.height + t.0,
                                pixels: bitmap@.pixels + t.1,
                            },
                            t.2,
                        ),
                    ),
                    None => spec_char(entry) is None,
                }),
                !go ==> spec_char(entry) == Some(
                    (
                        BitmapSpec { width: w, height: bitmap@.height, pixels: bitmap@.pixels },
                        self.cursor.remaining(),
                    ),
                ),
            decreases self.cursor.remaining().len() + (if go {
                1int
            } else {
                0int
            }),
        {
            let ghost cur = self.cursor.remaining();
            match self.cursor.next_line() {
                None => {
                    proof {
                        assert(spec_rows(cur, w, bitmap@.height) == Some(
                            (0int, Seq::<bool>::empty(), cur),
                        ));
                        assert(bitmap@.pixels + Seq::<bool>::empty() =~= bitmap@.pixels);
                    }
                    go = false;
                },
                Some(l2) => {
                    let px2 = parse_row(l2);
                    if px2.len() == width as usize {
                        if bitmap.height() == 255 {
                            proof {
                                assert(spec_rows(cur, w, 255int) is None);
                            }
                            return None;
                        }
                        let ghost oldbm = bitmap@;
                        bitmap.push_row(px2.as_slice());
                        proof {
                            assert(crate::common::norm_row(px2@, w) =~= px2@);
                            let t2 = spec_rows(self.cursor.remaining(), w, bitmap@.height);
                            assert(self.cursor.remaining() == cur.drop_first());
                            assert(spec_rows(cur, w, oldbm.height) == (match t2 {
                                Some(t) => Some((1 + t.0, row_line_px(cur[0]) + t.1, t.2)),
                                None => None::<(int, Seq<bool>, Seq<Seq<u8>>)>,
                            }));
                            if t2 is Some {
                                let t = t2.unwrap();
                                assert(bitmap@.pixels + t.1 =~= oldbm.pixels + (row_line_px(l2@)
                                    + t.1));
                            }
                        }
                    } else {
                        proof {
                            assert(spec_rows(cur, w, bitmap@.height) == Some(
                                (0int, Seq::<bool>::empty(), cur),
                            ));
                            assert(bitmap@.pixels + Seq::<bool>::empty() =~= bitmap@.pixels);
                        }
                        self.cursor.push_line(l2);
                        proof {
                            assert(self.cursor.remaining() =~~= cur);
                        }
                        go = false;
                    }
                },
            }
        }
        Some(Prop::Bitmap(bitmap))
    }
}

/// The first font height in the sequence: a `FontHeight` scalar or the
/// height of a glyph bitmap.
pub open spec fn first_font_height(props: Seq<PropSpec>) -> Option<int>
    decreases props.len(),
{
    if props.len() == 0 {
        None
    } else {
        match props[0] {
            PropSpec::FontHeight(h) => Some(h as int),
            PropSpec::Bitmap(bm) => Some(bm.height),
            _ => first_font_height(props.drop_first()),
        }
    }
}

/// The last `CodePoint` in the sequence.
pub open spec fn last_code_point(props: Seq<PropSpec>) -> Option<u16>
    decreases props.len(),
{
    if props.len() == 0 {
        None
    } else {
        match last_code_point(props.drop_first()) {
            Some(c) => Some(c),
            None => match props[0] {
                PropSpec::CodePoint(cp) => Some(cp),
                _ => None,
            },
        }
    }
}

/// The header block of an `ifnt` document.
pub open spec fn header_text(name: Seq<u8>, h: int, cs: int, ls: int, mc: int) -> Seq<u8> {
    ("[FontInfo]\nFontName=").spec_bytes() + spec_pad64(name) + ("\nFontHeight=").spec_bytes()
        + spec_dec(h) + ("\nCharSpacing=").spec_bytes() + spec_dec(cs) + (
    "\nLineSpacing=").spec_bytes() + spec_dec(ls) + ("\nMaxCharNumber=").spec_bytes() + spec_dec(
        mc,
    ) + ("\n").spec_bytes()
}

/// The block emitted for one `CodePoint`: a blank line, the section header,
/// and the `Character=` line.
pub open spec fn cp_text(cp: int) -> Seq<u8> {
    ("\n[Char_").spec_bytes() + spec_dec(cp) + ("]\n").spec_bytes() + (if 32 <= cp < 127 {
        ("Character='").spec_bytes() + seq![cp as u8] + ("'\n").spec_bytes()
    } else {
        ("Character=0x").spec_bytes() + spec_hex(cp) + ("\n").spec_bytes()
    })
}

/// A row of pixels as ` .` and ` X` pairs.
pub open spec fn px_text(px: Seq<bool>) -> Seq<u8>
    decreases px.len(),
{
    if px.len() == 0 {
        Seq::empty()
    } else {
        px_text(px.drop_last()) + seq![
            32u8,
            if px.last() {
                88u8
            } else {
                46u8
            },
        ]
    }
}

/// A two-column row number, zero-padded below ten.
pub open spec fn spec_dec2(r: int) -> Seq<u8> {
    if r < 10 {
        seq![48u8, (48 + r) as u8]
    } else {
        spec_dec(r)
    }
}

/// The `row<NN>=` lines of a bitmap from row `r` on (rows are 1-based).
pub open spec fn rows_text(bm: BitmapSpec, r: int) -> Seq<u8>
    decreases bm.height - r + 1,
{
    if r < 1 || r > bm.height {
        Seq::empty()
    } else {
        ("row").spec_bytes() + spec_dec2(r) + ("=").spec_bytes() + px_text(
            bm.pixels.subrange((r - 1) * bm.width, r * bm.width),
        ) + ("\n").spec_bytes() + rows_text(bm, r + 1)
    }
}

/// The text emitted for one glyph bitmap; a zero-width bitmap emits nothing.
pub open spec fn bitmap_text(bm: BitmapSpec) -> Seq<u8> {
    if bm.width == 0 {
        Seq::empty()
    } else {
        rows_text(bm, 1)
    }
}

/// The body of an `ifnt` document: each `CodePoint` must be followed by
/// exactly one `Bitmap` before the next `CodePoint`; `None` marks a
/// violation of that adjacency contract.
pub open spec fn spec_body(props: Seq<PropSpec>, pending: bool) -> Option<Seq<u8>>
    decreases props.len(),
{
    if props.len() == 0 {
        Some(Seq::empty())
    } else {
        match props[0] {
            PropSpec::CodePoint(cp) => {
                if pending {
                    None
                } else {
                    match spec_body(props.drop_first(), true) {
                        Some(t) => Some(cp_text(cp as int) + t),
                        None => None,
                    }
                }
            },
            PropSpec::Bitmap(bm) => {
                if !pending {
                    None
                } else {
                    match spec_body(props.drop_first(), false) {
                        Some(t) => Some(bitmap_text(bm) + t),
                        None => None,
                    }
                }
            },
            _ => spec_body(props.drop_first(), pending),
        }
    }
}

/// The whole `ifnt` document written for a property sequence, or the name
/// of the property whose absence or misplacement stops the writer.
pub open spec fn spec_write(props: Seq<PropSpec>) -> Result<Seq<u8>, Seq<char>> {
    if first_font_name(props) is None {
        Err(("FontName")@)
    } else if first_font_height(props) is None {
        Err(("FontHeight")@)
    } else if first_char_spacing(props) is None {
        Err(("CharSpacing")@)
    } else if first_line_spacing(props) is None {
        Err(("LineSpacing")@)
    } else if last_code_point(props) is None {
        Err(("MaxCharNumber")@)
    } else {
        match spec_body(props, false) {
            Some(b) => Ok(
                header_text(
                    first_font_name(props).unwrap(),
                    first_font_height(props).unwrap(),
                    first_char_spacing(props).unwrap() as int,
                    first_line_spacing(props).unwrap() as int,
                    last_code_point(props).unwrap() as int,
                ) + b,
            ),
            None => Err(("Character")@),
        }
    }
}

/// Append the `row<NN>=` lines of a bitmap.
#[verifier::rlimit(50)]
fn push_bitmap(out: &mut Vec<u8>, b: &Bitmap)
    requires
        b.len_ok(),
    ensures
        final(out)@ == old(out)@ + bitmap_text(b@),
{
    let ghost start = out@;
    let px = b.pixels();
    let width = b.width();
    let height = b.height();
    if width == 0 {
        return ;
    }
    proof {
        assert(0 <= b@.width * b@.height <= 255 * 255) by (nonlinear_arith)
            requires
                0 <= b@.height <= 255 && 0 <= b@.width <= 255,
        ;
        b.lemma_bits();
    }
    let mut r: usize = 1;
    let ghost mut acc: Seq<u8> = Seq::empty();
    while r <= height as usize
        invariant
            1 <= r <= height + 1,
            width as int == b@.width,
            height as int == b@.height,
            0 < width,
            px@ == b@.pixels,
            px@.len() == b@.width * b@.height,
            px@.len() <= 255 * 255,
            out@ == start + acc,
            acc + rows_text(b@, r as int) == rows_text(b@, 1),
        decreases height + 1 - r,
    {
        let ghost rowacc = acc + ("row").spec_bytes() + spec_dec2(r as int) + ("=").spec_bytes();
        push_bytes(out, "row".as_bytes());
        if r < 10 {
            out.push(48);
            out.push(48 + (r as u8));
            proof {
                assert(out@ =~= start + acc + ("row").spec_bytes() + spec_dec2(r as int));
            }
        } else {
            push_dec(out, r as u16);
        }
        push_bytes(out, "=".as_bytes());
        proof {
            assert(out@ =~= start + rowacc);
        }
        let ghost rp = b@.pixels.subrange((r - 1) * b@.width, r as int * b@.width);
        proof {
            assert((r - 1) * b@.width + b@.width == r as int * b@.width) by (nonlinear_arith);
            assert(r as int * b@.width <= b@.height * b@.width) by (nonlinear_arith)
                requires
                    r as int <= b@.height && b@.width >= 0,
            ;
            assert(0 <= (r as int - 1) * b@.width) by (nonlinear_arith)
                requires
                    1 <= r as int && 0 <= b@.width,
            ;
            assert((r as int - 1) * (width as int) + width as int <= 255 * 255) by (nonlinear_arith)
                requires
                    1 <= r as int <= 255 && 0 < width as int <= 255,
            ;
            assert((r as int) * (width as int) <= (height as int) * (width as int) && (
            height as int) * (width as int) == (width as int) * (height as int)) by (nonlinear_arith)
                requires
                    r as int <= height as int && 0 <= width as int,
            ;
        }
        let base = (r - 1) * (width as usize);
        let mut c: usize = 0;
        while c < width as usize
            invariant
                0 <= c <= width,
                width as int == b@.width,
                0 < width,
                base == (r as int - 1) * b@.width,
                base + b@.width <= px@.len(),
                px@.len() <= 255 * 255,
                px@ == b@.pixels,
                rp == b@.pixels.subrange(base as int, base + b@.width),
                out@ =~= start + rowacc + px_text(rp.take(c as int)),
            decreases width - c,
        {
            let pix = *vstd::slice::slice_index_get(px.as_slice(), base + c);
            proof {
                assert(rp.take(c + 1).drop_last() =~= rp.take(c as int));
                assert(rp.take(c + 1).last() == rp[c as int]);
                assert(rp[c as int] == px@[base + c]);
            }
            out.push(32);
            out.push(
                if pix {
                    88
                } else {
                    46
                },
            );
            c = c + 1;
        }
        push_bytes(out, "\n".as_bytes());
        proof {
            assert(rp.take(rp.len() as int) =~= rp);
            let rowtext = ("row").spec_bytes() + spec_dec2(r as int) + ("=").spec_bytes()
                + px_text(rp) + ("\n").spec_bytes();
            assert(rows_text(b@, r as int) == rowtext + rows_text(b@, r + 1));
            let oldacc = acc;
            acc = acc + rowtext;
            assert(out@ =~= start + acc);
            assert(acc + rows_text(b@, r + 1) =~= oldacc + rows_text(b@, r as int));
        }
        r = r + 1;
    }
    proof {
        assert(rows_text(b@, r as int) =~= Seq::<u8>::empty());
        assert(acc =~= rows_text(b@, 1));
        assert(out@ =~= start + bitmap_text(b@));
    }
}

/// Write a font in `ifnt` format.  The sequence must supply `FontName`,
/// `FontHeight`, `CharSpacing` and `LineSpacing`, and at least one
/// `CodePoint` (the last one seen becomes `MaxCharNumber`); each `CodePoint`
/// is followed by exactly one `Bitmap`.
#[verifier::rlimit(60)]
pub fn write<'a>(props: Vec<Prop<'a>>) -> (r: Result<Vec<u8>, Error>)
    requires
        forall|i: int|
            0 <= i < props@.len() ==> (match #[trigger] props@[i] {
                Prop::Bitmap(b) => b.len_ok(),
                _ => true,
            }),
    ensures
        match spec_write(props.deep_view()) {
            Ok(bytes) => (r matches Ok(v) && v@ == bytes),
            Err(name) => (r matches Err(e) && (e matches Error::Expected(m) && m@ == name)),
        },
{
    let ghost dv = props.deep_view();
    let mut name: Option<&'a [u8]> = None;
    let mut height: Option<u8> = None;
    let mut cspace: Option<u8> = None;
    let mut lspace: Option<u8> = None;
    let mut mcn: Option<u16> = None;
    let mut i: usize = 0;
    proof {
        assert(dv.skip(0) =~= dv);
    }
    while i < props.len()
        invariant
            dv == props.deep_view(),
            dv.len() == props@.len(),
            0 <= i <= props@.len(),
            match name {
                Some(n) => first_font_name(dv) == Some(n@),
                None => first_font_name(dv) == first_font_name(dv.skip(i as int)),
            },
            match height {
                Some(h) => first_font_height(dv) == Some(h as int),
                None => first_font_height(dv) == first_font_height(dv.skip(i as int)),
            },
            match cspace {
                Some(c) => first_char_spacing(dv) == Some(c),
                None => first_char_spacing(dv) == first_char_spacing(dv.skip(i as int)),
            },
            match lspace {
                Some(c) => first_line_spacing(dv) == Some(c),
                None => first_line_spacing(dv) == first_line_spacing(dv.skip(i as int)),
            },
            last_code_point(dv) == (match last_code_point(dv.skip(i as int)) {
                Some(c) => Some(c),
                None => mcn,
            }),
        decreases props@.len() - i,
    {
        proof {
            assert(dv.skip(i as int).drop_first() =~= dv.skip(i + 1));
            assert(dv.skip(i as int)[0] == dv[i as int]);
        }
        match &props[i] {
            Prop::FontName(n) => {
                if name.is_none() {
                    name = Some(*n);
                }
            },
            Prop::FontHeight(fh) => {
                if height.is_none() {
                    height = Some(*fh);
                }
            },
            Prop::Bitmap(bmap) => {
                if height.is_none() {
                    height = Some(bmap.height());
                }
            },
            Prop::CharSpacing(cs) => {
                if cspace.is_none() {
                    cspace = Some(*cs);
                }
            },
            Prop::LineSpacing(ls) => {
                if lspace.is_none() {
                    lspace = Some(*ls);
                }
            },
            Prop::CodePoint(cp) => {
                mcn = Some(*cp);
            },
            _ => {
            },
        }
        i = i + 1;
    }
    proof {
        assert(dv.skip(props@.len() as int) =~= Seq::<PropSpec>::empty());
    }
    let font_name = match name {
        Some(n) => n,
        None => {
            return Err(Error::Expected("FontName"));
        },
    };
    let font_height = match height {
        Some(h) => h,
        None => {
            return Err(Error::Expected("FontHeight"));
        },
    };
    let char_spacing = match cspace {
        Some(c) => c,
        None => {
            return Err(Error::Expected("CharSpacing"));
        },
    };
    let line_spacing = match lspace {
        Some(c) => c,
        None => {
            return Err(Error::Expected("LineSpacing"));
        },
    };
    let max_char_num = match mcn {
        Some(c) => c,
        None => {
            return Err(Error::Expected("MaxCharNumber"));
        },
    };
    let mut out: Vec<u8> = Vec::new();
    push_bytes(&mut out, "[FontInfo]\nFontName=".as_bytes());
    push_padded64(&mut out, font_name);
    push_bytes(&mut out, "\nFontHeight=".as_bytes());
    push_dec(&mut out, font_height as u16);
    push_bytes(&mut out, "\nCharSpacing=".as_bytes());
    push_dec(&mut out, char_spacing as u16);
    push_bytes(&mut out, "\nLineSpacing=".as_bytes());
    push_dec(&mut out, line_spacing as u16);
    push_bytes(&mut out, "\nMaxCharNumber=".as_bytes());
    push_dec(&mut out, max_char_num);
    push_bytes(&mut out, "\n".as_bytes());
    let ghost header = header_text(
        font_name@,
        font_height as int,
        char_spacing as int,
        line_spacing as int,
        max_char_num as int,
    );
    proof {
        assert(out@ =~= header);
    }
    let mut pending = false;
    let mut i: usize = 0;
    let ghost mut acc: Seq<u8> = Seq::empty();
    proof {
        assert(dv.skip(0) =~= dv);
    }
    while i < props.len()
        invariant
            dv == props.deep_view(),
            dv.len() == props@.len(),
            0 <= i <= props@.len(),
            forall|j: int|
                0 <= j < props@.len() ==> (match #[trigger] props@[j] {
                    Prop::Bitmap(b) => b.len_ok(),
                    _ => true,
                }),
            header == header_text(
                font_name@,
                font_height as int,
                char_spacing as int,
                line_spacing as int,
                max_char_num as int,
            ),
            match spec_body(dv, false) {
                Some(b) => spec_write(dv) == Ok::<Seq<u8>, Seq<char>>(header + b),
                None => spec_write(dv) == Err::<Seq<u8>, Seq<char>>(("Character")@),
            },
            out@ == header + acc,
            spec_body(dv, false) == (match spec_body(dv.skip(i as int), pending) {
                Some(t) => Some(acc + t),
                None => None::<Seq<u8>>,
            }),
        decreases props@.len() - i,
    {
        proof {
            assert(dv.skip(i as int).drop_first() =~= dv.skip(i + 1));
            assert(dv.skip(i as int)[0] == dv[i as int]);
        }
        match &props[i] {
            Prop::CodePoint(cp) => {
                if pending {
                    return Err(Error::Expected("Character"));
                }
                let cp = *cp;
                push_bytes(&mut out, "\n[Char_".as_bytes());
                push_dec(&mut out, cp);
                push_bytes(&mut out, "]\n".as_bytes());
                if 32 <= cp && cp < 127 {
                    push_bytes(&mut out, "Character='".as_bytes());
                    out.push(cp as u8);
                    push_bytes(&mut out, "'\n".as_bytes());
                } else {
                    push_bytes(&mut out, "Character=0x".as_bytes());
                    push_hex(&mut out, cp);
                    push_bytes(&mut out, "\n".as_bytes());
                }
                pending = true;
                proof {
                    acc = acc + cp_text(cp as int);
                    assert(out@ =~= header + acc);
                    if spec_body(dv.skip(i + 1), true) is Some {
                        assert((acc.subrange(0, acc.len() as int) + spec_body(
                            dv.skip(i + 1),
                            true,
                        ).unwrap()) =~= acc + spec_body(dv.skip(i + 1), true).unwrap());
                    }
                }
            },
            Prop::Bitmap(bmap) => {
                if !pending {
                    return Err(Error::Expected("Character"));
                }
                push_bitmap(&mut out, bmap);
                pending = false;
                proof {
                    acc = acc + bitmap_text(bmap@);
                    assert(out@ =~= header + acc);
                }
            },
            _ => {
            },
        }
        proof {
            match spec_body(dv.skip(i + 1), pending) {
                Some(t) => {
                    assert(spec_body(dv, false) == Some(acc + t));
                },
                None => {
                },
            }
        }
        i = i + 1;
    }
    proof {
        assert(dv.skip(props@.len() as int) =~= Seq::<PropSpec>::empty());
        assert(spec_body(dv.skip(props@.len() as int), pending) == Some(Seq::<u8>::empty()));
        assert(acc + Seq::<u8>::empty() =~= acc);
        assert(spec_body(dv, false) == Some(acc));
        assert(out@ =~= header + acc);
    }
    Ok(out)
}

/// A sequence in which one `CodePoint` follows another with no `Bitmap`
/// between them never forms a valid body, whatever came before.
pub proof fn lemma_adjacent_code_points_body(props: Seq<PropSpec>, i: int, pending: bool)
    requires
        0 <= i,
        i + 1 < props.len(),
        props[i] is CodePoint,
        props[i + 1] is CodePoint,
    ensures
        spec_body(props, pending) is None,
    decreases props.len(),
{
    let rest = props.drop_first();
    if i == 0 {
        if !pending {
            assert(rest[0] == props[1]);
        }
    } else {
        assert(rest[i - 1] == props[i]);
        assert(rest[i] == props[i + 1]);
        match props[0] {
            PropSpec::CodePoint(cp) => {
                if !pending {
                    lemma_adjacent_code_points_body(rest, i - 1, true);
                }
            },
            PropSpec::Bitmap(bm) => {
                if pending {
                    lemma_adjacent_code_points_body(rest, i - 1, false);
                }
            },
            _ => {
                lemma_adjacent_code_points_body(rest, i - 1, pending);
            },
        }
    }
}

/// Writing a sequence with two consecutive `CodePoint` entries and no
/// intervening `Bitmap` always fails with an error, never with output.
pub proof fn lemma_adjacent_code_points(props: Seq<PropSpec>, i: int)
    requires
        0 <= i,
        i + 1 < props.len(),
        props[i] is CodePoint,
        props[i + 1] is CodePoint,
    ensures
        spec_write(props) is Err,
{
    lemma_adjacent_code_points_body(props, i, false);
}

} // verus!
