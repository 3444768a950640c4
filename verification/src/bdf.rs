//! Parse fonts in `bdf` format
//!
//! Only the properties this library models are read: `FONT`, `SIZE`,
//! `FONT_ASCENT`, `ENCODING` and `DWIDTH` with its character block of
//! hexadecimal pixel rows.
use crate::common::{
    bytes_eq, find_at, find_byte, norm_row, parse_u16, parse_u8, spec_parse_uint,
    spec_starts_with, starts_with, Bitmap, BitmapSpec, Cursor, Prop, PropSpec,
};
use vstd::prelude::*;
use vstd::string::StringSliceAdditionalSpecFns;

verus! {

/// An uppercase hexadecimal digit byte.
pub open spec fn is_hex_digit(b: u8) -> bool {
    (48 <= b <= 57) || (65 <= b <= 70)
}

/// `l` is entirely hexadecimal digits.
pub open spec fn spec_hex_row(l: Seq<u8>) -> bool {
    forall|i: int| 0 <= i < l.len() ==> is_hex_digit(#[trigger] l[i])
}

/// Value of one hexadecimal digit byte; other bytes count as zero.
pub open spec fn hex_val(b: u8) -> u8 {
    if 48 <= b <= 57 {
        (b - 48) as u8
    } else if 65 <= b <= 70 {
        (b - 55) as u8
    } else {
        0
    }
}

/// The bits of a row of hexadecimal digits, four per digit, most significant
/// bit first.
pub open spec fn hex_bits(l: Seq<u8>) -> Seq<bool> {
    Seq::new((l.len() * 4) as nat, |i: int| (hex_val(l[i / 4]) >> ((3 - i % 4) as u8)) & 1 == 1)
}

/// The first space-separated token of a line.
pub open spec fn tok1(l: Seq<u8>) -> Seq<u8> {
    l.subrange(0, find_at(l, 32))
}

/// Everything after the first space of a line.
pub open spec fn rest_of(l: Seq<u8>) -> Seq<u8> {
    l.subrange(find_at(l, 32) + 1, l.len() as int)
}

/// The second space-separated token of a line (the first token of what
/// follows the first space).
pub open spec fn tok2(l: Seq<u8>) -> Seq<u8> {
    tok1(rest_of(l))
}

/// Rows of a `bdf` character block with `h` rows already taken: `ENDCHAR`
/// or exhausted input finishes the block, a hexadecimal row extends it, any
/// other line aborts the character; so do more rows than a bitmap can hold.
pub open spec fn spec_rows(ls: Seq<Seq<u8>>, w: int, h: int) -> Option<
    (int, Seq<bool>, Seq<Seq<u8>>),
>
    decreases ls.len(),
{
    if ls.len() == 0 {
        Some((0, Seq::empty(), ls))
    } else if ls[0] == ("ENDCHAR").spec_bytes() {
        Some((0, Seq::empty(), ls.drop_first()))
    } else if spec_hex_row(ls[0]) {
        if h >= 255 {
            None
        } else {
            match spec_rows(ls.drop_first(), w, h + 1) {
                Some(t) => Some((1 + t.0, norm_row(hex_bits(ls[0]), w) + t.1, t.2)),
                None => None,
            }
        }
    } else {
        None
    }
}

/// A whole character block after a `DWIDTH` line: a zero width aborts, then
/// a `BBX` line and a `BITMAP` line introduce the hexadecimal rows.
pub open spec fn spec_char(ls: Seq<Seq<u8>>, w: int) -> Option<(BitmapSpec, Seq<Seq<u8>>)> {
    if w == 0 || ls.len() == 0 {
        None
    } else if !spec_starts_with(ls[0], ("BBX").spec_bytes()) {
        None
    } else if ls.len() == 1 {
        None
    } else if ls[1] != ("BITMAP").spec_bytes() {
        None
    } else {
        match spec_rows(ls.skip(2), w, 0) {
            Some(t) => Some((BitmapSpec { width: w, height: t.0, pixels: t.1 }, t.2)),
            None => None,
        }
    }
}

/// One parsing step on the remaining lines: the next property, if any, with
/// the lines left after it; `None` ends the sequence.  An `ENDPROPERTIES`
/// key is transparent: the next line is processed as a fresh property line.
pub open spec fn spec_step(ls: Seq<Seq<u8>>) -> Option<(PropSpec, Seq<Seq<u8>>)>
    decreases ls.len(),
{
    if ls.len() == 0 {
        None
    } else {
        let l = ls[0];
        let rest = ls.drop_first();
        if tok1(l) == ("ENDFONT").spec_bytes() {
            None
        } else if tok1(l) == ("ENDPROPERTIES").spec_bytes() {
            spec_step(rest)
        } else if tok1(l) == ("FONT").spec_bytes() {
            if find_at(l, 32) < l.len() {
                Some((PropSpec::FontName(rest_of(l)), rest))
            } else {
                None
            }
        } else if tok1(l) == ("SIZE").spec_bytes() {
            if find_at(l, 32) < l.len() {
                match spec_parse_uint(tok2(l), 255) {
                    Some(v) => Some((PropSpec::FontHeight(v as u8), rest)),
                    None => None,
                }
            } else {
                None
            }
        } else if tok1(l) == ("FONT_ASCENT").spec_bytes() {
            if find_at(l, 32) < l.len() {
                match spec_parse_uint(tok2(l), 255) {
                    Some(v) => Some((PropSpec::Baseline(v as u8), rest)),
                    None => None,
                }
            } else {
                None
            }
        } else if tok1(l) == ("ENCODING").spec_bytes() {
            if find_at(l, 32) < l.len() {
                match spec_parse_uint(tok2(l), 0xFFFF) {
                    Some(v) => Some((PropSpec::CodePoint(v as u16), rest)),
                    None => None,
                }
            } else {
                None
            }
        } else if tok1(l) == ("DWIDTH").spec_bytes() {
            if find_at(l, 32) < l.len() {
                match spec_parse_uint(tok2(l), 255) {
                    Some(v) => match spec_char(rest, v) {
                        Some(t) => Some((PropSpec::Bitmap(t.0), t.1)),
                        None => None,
                    },
                    None => None,
                }
            } else {
                None
            }
        } else {
            Some((PropSpec::Unknown(l), rest))
        }
    }
}

/// Check whether a line is entirely hexadecimal digits.
fn is_hex_row(l: &[u8]) -> (r: bool)
    ensures
        r == spec_hex_row(l@),
{
    let mut i: usize = 0;
    while i < l.len()
        invariant
            0 <= i <= l@.len(),
            forall|j: int| 0 <= j < i ==> is_hex_digit(#[trigger] l@[j]),
        decreases l@.len() - i,
    {
        let b = *vstd::slice::slice_index_get(l, i);
        if !((48 <= b && b <= 57) || (65 <= b && b <= 70)) {
            return false;
        }
        i = i + 1;
    }
    true
}

/// Expand a row of hexadecimal digits to its bits, four per digit.
fn hex_row_bits(l: &[u8]) -> (r: Vec<bool>)
    ensures
        r@ == hex_bits(l@),
{
    let mut r: Vec<bool> = Vec::new();
    let mut i: usize = 0;
    while i < l.len()
        invariant
            0 <= i <= l@.len(),
            r@.len() == 4 * i,
            r@ =~= hex_bits(l@).take(4 * i as int),
        decreases l@.len() - i,
    {
        let b = *vstd::slice::slice_index_get(l, i);
        let nyb: u8 = if 48 <= b && b <= 57 {
            b - 48
        } else if 65 <= b && b <= 70 {
            b - 55
        } else {
            0
        };
        r.push((nyb >> 3u8) & 1 == 1);
        r.push((nyb >> 2u8) & 1 == 1);
        r.push((nyb >> 1u8) & 1 == 1);
        r.push((nyb >> 0u8) & 1 == 1);
        proof {
            assert(nyb == hex_val(l@[i as int]));
            assert forall|k: int| 0 <= k < 4 implies #[trigger] r@[4 * i + k] == hex_bits(l@)[4 * i
                + k] by {
                assert((4 * i + k) / 4 == i as int && (4 * i + k) % 4 == k);
            }
            assert(r@ =~= hex_bits(l@).take(4 * (i + 1)));
        }
        i = i + 1;
    }
    proof {
        assert(r@ =~= hex_bits(l@));
    }
    r
}

/// Extract the second space-separated token of a line, if the line has a
/// first space at `sp`.
fn second_token<'p>(line: &'p [u8], sp: usize) -> (r: Option<&'p [u8]>)
    requires
        sp == find_at(line@, 32),
        sp <= line@.len(),
    ensures
        r is Some <==> find_at(line@, 32) < line@.len(),
        r matches Some(t) ==> t@ == tok2(line@),
{
    if sp < line.len() {
        let rest = vstd::slice::slice_subrange(line, sp + 1, line.len());
        let sp2 = find_byte(rest, 32);
        Some(vstd::slice::slice_subrange(rest, 0, sp2))
    } else {
        None
    }
}

/// Parser for `bdf` format
pub struct Parser<'p> {
    /// Line cursor over the input
    cursor: Cursor<'p>,
}

impl<'p> View for Parser<'p> {
    type V = Seq<Seq<u8>>;

    closed spec fn view(&self) -> Seq<Seq<u8>> {
        self.cursor.remaining()
    }
}

impl<'p> Parser<'p> {
    /// The parser's cursor is well formed.
    pub closed spec fn wf(&self) -> bool {
        self.cursor.wf()
    }

    /// Create a new `bdf` parser.
    pub fn new(buf: &'p str) -> (r: Parser<'p>)
        ensures
            r.wf(),
            r@ == crate::common::spec_lines(buf.spec_bytes()),
    {
        Parser { cursor: Cursor::new(buf.as_bytes()) }
    }

    /// Parse one property.  `None` ends the sequence: the input is exhausted,
    /// `ENDFONT` was reached, or a malformed line stopped it.
    pub fn prop(&mut self) -> (r: Option<Prop<'p>>)
        requires
            old(self).wf(),
        ensures
            final(self).wf(),
            match spec_step(old(self)@) {
                Some(t) => (r matches Some(p) && p@ == t.0 && final(self)@ == t.1
                    && final(self)@.len() < old(self)@.len()),
                None => r is None,
            },
            r matches Some(Prop::Bitmap(b)) ==> b.inv(),
        decreases old(self)@.len(),
    {
        let line = match self.cursor.next_line() {
            Some(l) => l,
            None => {
                return None;
            },
        };
        let sp = find_byte(line, 32);
        let key = vstd::slice::slice_subrange(line, 0, sp);
        if bytes_eq(key, "ENDFONT".as_bytes()) {
            return None;
        }
        if bytes_eq(key, "ENDPROPERTIES".as_bytes()) {
            return self.prop();
        }
        if bytes_eq(key, "FONT".as_bytes()) {
            if sp < line.len() {
                let rest = vstd::slice::slice_subrange(line, sp + 1, line.len());
                return Some(Prop::FontName(rest));
            }
            return None;
        }
        if bytes_eq(key, "SIZE".as_bytes()) {
            return match second_token(line, sp) {
                Some(t2) => match parse_u8(t2) {
                    Some(v) => Some(Prop::FontHeight(v)),
                    None => None,
                },
                None => None,
            };
        }
        if bytes_eq(key, "FONT_ASCENT".as_bytes()) {
            return match second_token(line, sp) {
                Some(t2) => match parse_u8(t2) {
                    Some(v) => Some(Prop::Baseline(v)),
                    None => None,
                },
                None => None,
            };
        }
        if bytes_eq(key, "ENCODING".as_bytes()) {
            return match second_token(line, sp) {
                Some(t2) => match parse_u16(t2) {
                    Some(v) => Some(Prop::CodePoint(v)),
                    None => None,
                },
                None => None,
            };
        }
        if bytes_eq(key, "DWIDTH".as_bytes()) {
            return match second_token(line, sp) {
                Some(t2) => match parse_u8(t2) {
                    Some(v) => self.character(v),
                    None => None,
                },
                None => None,
            };
        }
        Some(Prop::Unknown(line))
    }

    /// Parse a bitmap character property after a `DWIDTH` line.
    fn character(&mut self, width: u8) -> (r: Option<Prop<'p>>)
        requires
            old(self).wf(),
            !old(self).cursor.has_pushback(),
        ensures
            final(self).wf(),
            final(self)@.len() <= old(self)@.len(),
            match spec_char(old(self)@, width as int) {
                Some(t) => (r matches Some(p) && (p matches Prop::Bitmap(b) && b@ == t.0
                    && b.inv()) && final(self)@ == t.1),
                None => r is None,
            },
    {
        let ghost entry = self.cursor.remaining();
        if width == 0 {
            return None;
        }
        let l1 = match self.cursor.next_line() {
            Some(l) => l,
            None => {
                return None;
            },
        };
        if !starts_with(l1, "BBX".as_bytes()) {
            return None;
        }
        let l2 = match self.cursor.next_line() {
            Some(l) => l,
            None => {
                return None;
            },
        };
        if !bytes_eq(l2, "BITMAP".as_bytes()) {
            return None;
        }
        proof {
            assert(self.cursor.remaining() =~= entry.skip(2));
        }
        let mut bitmap = Bitmap::new(width);
        let ghost w = width as int;
        let mut go = true;
        let mut ended = false;
        while go
            invariant
                self.cursor.wf(),
                entry == old(self).cursor.remaining(),
                self.cursor.remaining().len() <= entry.len(),
                go ==> !self.cursor.has_pushback(),
                bitmap.inv(),
                width as int == w,
                0 < w <= 255,
                bitmap@.width == w,
                0 <= bitmap@.height <= 255,
                entry.len() >= 2,
                spec_starts_with(entry[0], ("BBX").spec_bytes()),
                entry[1] == ("BITMAP").spec_bytes(),
                go ==> (match spec_rows(self.cursor.remaining(), w, bitmap@.height) {
                    Some(t) => spec_char(entry, w) == Some(
                        (
                            BitmapSpec {
                                width: w,
                                height: bitmap@.height + t.0,
                                pixels: bitmap@.pixels + t.1,
                            },
                            t.2,
                        ),
                    ),
                    None => spec_char(entry, w) is None,
                }),
                !go ==> spec_char(entry, w) == Some(
                    (
                        BitmapSpec { width: w, height: bitmap@.height, pixels: bitmap@.pixels },
                        self.cursor.remaining(),
                    ),
                ),
            decreases self.cursor.remaining().len() + (if go {
                1int
            } else {
                0int
            }),
        {
            let ghost cur = self.cursor.remaining();
            match self.cursor.next_line() {
                None => {
                    proof {
                        assert(spec_rows(cur, w, bitmap@.height) == Some(
                            (0int, Seq::<bool>::empty(), cur),
                        ));
                        assert(bitmap@.pixels + Seq::<bool>::empty() =~= bitmap@.pixels);
                    }
                    go = false;
                },
                Some(l) => {
                    if bytes_eq(l, "ENDCHAR".as_bytes()) {
                        proof {
                            assert(spec_rows(cur, w, bitmap@.height) == Some(
                                (0int, Seq::<bool>::empty(), cur.drop_first()),
                            ));
                            assert(bitmap@.pixels + Seq::<bool>::empty() =~= bitmap@.pixels);
                        }
                        go = false;
                    } else if is_hex_row(l) {
                        if bitmap.height() == 255 {
                            proof {
                                assert(spec_rows(cur, w, 255int) is None);
                            }
                            return None;
                        }
                        let bits = hex_row_bits(l);
                        let ghost oldbm = bitmap@;
                        bitmap.push_row(bits.as_slice());
                        proof {
                            let t2 = spec_rows(self.cursor.remaining(), w, bitmap@.height);
                            assert(self.cursor.remaining() == cur.drop_first());
                            assert(spec_rows(cur, w, oldbm.height) == (match t2 {
                                Some(t) => Some((1 + t.0, norm_row(hex_bits(cur[0]), w) + t.1, t.2)),
                                None => None::<(int, Seq<bool>, Seq<Seq<u8>>)>,
                            }));
                            if t2 is Some {
                                let t = t2.unwrap();
                                assert(bitmap@.pixels + t.1 =~= oldbm.pixels + (norm_row(
                                    hex_bits(l@),
                                    w,
                                ) + t.1));
                            }
                        }
                    } else {
                        proof {
                            assert(spec_rows(cur, w, bitmap@.height) is None);
                        }
                        return None;
                    }
                },
            }
        }
        Some(Prop::Bitmap(bitmap))
    }
}

/// A `DWIDTH` of zero yields no bitmap for the character: the block aborts,
/// so the property sequence ends at that point.
pub proof fn lemma_zero_width_char(ls: Seq<Seq<u8>>)
    ensures
        spec_char(ls, 0) is None,
{
}

} // verus!
