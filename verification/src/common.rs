//! Shared font model: the `Bitmap` pixel grid, the `Prop` property variants
//! and the `Error` taxonomy, together with the line cursor and the byte-level
//! helpers that all format parsers share.
use vstd::prelude::*;
use vstd::string::StringSliceAdditionalSpecFns;

verus! {

/// `std::io::Error`, declared so that `Error` can carry the underlying
/// transport failure; nothing is assumed about it.
#[verifier::external_type_specification]
#[verifier::external_body]
pub struct ExIoError(std::io::Error);

/// Font parse/write error.
#[derive(Debug)]
pub enum Error {
    /// I/O failure, wrapping the underlying transport error.
    Io(std::io::Error),
    /// A required property was absent from the input sequence.
    Expected(&'static str),
    /// The input buffer matched no known font format.
    UnknownFormat,
}

/// Number of bytes needed to hold `n` bits.
pub open spec fn div8_ceil(n: int) -> int {
    (n + 7) / 8
}

/// Bit `i` of a packed, MSB-first, contiguous bit buffer.
pub open spec fn bit_at(bytes: Seq<u8>, i: int) -> bool {
    (bytes[i / 8] >> ((7 - i % 8) as u8)) & 1 == 1
}

/// A row of pixels normalized to width `w`: excess pixels are dropped and
/// missing trailing pixels are `false`.
pub open spec fn norm_row(row: Seq<bool>, w: int) -> Seq<bool> {
    Seq::new(w as nat, |i: int| if i < row.len() { row[i] } else { false })
}

/// Mathematical model of a `Bitmap`: its dimensions and its pixels in
/// row-major order.
#[verifier::ext_equal]
pub struct BitmapSpec {
    pub width: int,
    pub height: int,
    pub pixels: Seq<bool>,
}

/// Bitmap of pixels, packed one bit per pixel, row-major, MSB-first, with
/// rows abutting bit-by-bit (no per-row byte alignment).
pub struct Bitmap {
    /// Height in pixels
    height: u8,
    /// Width in pixels
    width: u8,
    /// Packed pixel buffer
    bmap: Vec<u8>,
}

impl View for Bitmap {
    type V = BitmapSpec;

    closed spec fn view(&self) -> BitmapSpec {
        BitmapSpec {
            width: self.width as int,
            height: self.height as int,
            pixels: Seq::new(
                (self.width as int * self.height as int) as nat,
                |i: int| bit_at(self.bmap@, i),
            ),
        }
    }
}

/// Set bit `sh` (counted from the least significant end) and look at bit `m`.
proof fn lemma_or_bit(b: u8, sh: u8, m: u8)
    requires
        sh < 8,
        m < 8,
    ensures
        ((b | (1u8 << sh)) >> m) & 1 == if m == sh {
            1u8
        } else {
            (b >> m) & 1
        },
{
    assert(((b | (1u8 << sh)) >> m) & 1 == if m == sh {
        1u8
    } else {
        (b >> m) & 1
    }) by (bit_vector)
        requires
            sh < 8 && m < 8,
    ;
}

/// Every bit of a zero byte is clear.
proof fn lemma_zero_bit(m: u8)
    requires
        m < 8,
    ensures
        (0u8 >> m) & 1 == 0,
{
    assert((0u8 >> m) & 1 == 0) by (bit_vector)
        requires
            m < 8,
    ;
}

impl Bitmap {
    /// The packed buffer holds exactly enough bytes for the pixels.
    pub closed spec fn len_ok(&self) -> bool {
        self.bmap@.len() == div8_ceil(self.width as int * self.height as int)
    }

    /// Well-formed: correct buffer length and all padding bits clear.
    pub closed spec fn inv(&self) -> bool {
        &&& self.len_ok()
        &&& forall|i: int|
            self.width as int * self.height as int <= i < 8 * self.bmap@.len()
                ==> !bit_at(self.bmap@, i)
    }

    /// The raw packed buffer.
    pub closed spec fn raw(&self) -> Seq<u8> {
        self.bmap@
    }

    /// The pixels of a well-sized bitmap are exactly the leading bits of its
    /// packed buffer.
    pub proof fn lemma_bits(&self)
        requires
            self.len_ok(),
        ensures
            self.raw().len() == div8_ceil(self@.width * self@.height),
            self@.pixels.len() == self@.width * self@.height,
            forall|i: int|
                0 <= i < self@.pixels.len() ==> self@.pixels[i] == bit_at(self.raw(), i),
    {
    }

    /// Create a new empty bitmap of fixed width.
    pub fn new(width: u8) -> (r: Bitmap)
        ensures
            r.inv(),
            r@.width == width as int,
            r@.height == 0,
            r@.pixels == Seq::<bool>::empty(),
    {
        let r = Bitmap { height: 0, width, bmap: Vec::new() };
        proof {
            assert(r@.pixels =~= Seq::<bool>::empty());
        }
        r
    }

    /// Create a bitmap from packed bits, checking the buffer length.
    pub fn from_bits(height: u8, width: u8, bmap: Vec<u8>) -> (r: Option<Bitmap>)
        ensures
            r is Some <==> bmap@.len() == div8_ceil(width as int * height as int),
            r matches Some(b) ==> b.len_ok() && b.raw() == bmap@ && b@.width == width as int
                && b@.height == height as int,
    {
        proof {
            assert(height as int * width as int <= 255 * 255) by (nonlinear_arith)
                requires
                    0 <= height as int <= 255 && 0 <= width as int <= 255,
            ;
        }
        let len = (height as usize) * (width as usize);
        if bmap.len() == (len + 7) / 8 {
            Some(Bitmap { height, width, bmap })
        } else {
            None
        }
    }

    /// Get pixel height.
    pub fn height(&self) -> (r: u8)
        ensures
            r as int == self@.height,
    {
        self.height
    }

    /// Get pixel width.
    pub fn width(&self) -> (r: u8)
        ensures
            r as int == self@.width,
    {
        self.width
    }

    /// Push a row of pixels to the bitmap.  The row is truncated or
    /// zero-padded to the bitmap's width.
    pub fn push_row(&mut self, row: &[bool])
        requires
            old(self).inv(),
            old(self)@.height < 255,
        ensures
            final(self).inv(),
            final(self)@.width == old(self)@.width,
            final(self)@.height == old(self)@.height + 1,
            final(self)@.pixels == old(self)@.pixels + norm_row(row@, old(self)@.width),
    {
        let width = self.width as usize;
        let ghost w = self.width as int;
        let ghost h = self.height as int;
        let ghost p0 = w * h;
        let ghost target = self@.pixels + norm_row(row@, w);
        proof {
            assert(w * h <= 255 * 254) by (nonlinear_arith)
                requires
                    0 <= w <= 255 && 0 <= h < 255,
            ;
        }
        let mut pos: usize = (self.height as usize) * width;
        let mut k: usize = 0;
        while k < width
            invariant
                0 <= k <= width,
                width == w,
                w == self.width as int,
                h == self.height as int,
                0 <= p0 <= 255 * 254,
                p0 == w * h,
                pos == p0 + k,
                target.len() == p0 + w,
                forall|j: int| p0 <= j < p0 + w ==> target[j] == norm_row(row@, w)[j - p0],
                self.bmap@.len() == div8_ceil(pos as int),
                forall|j: int| 0 <= j < pos ==> bit_at(self.bmap@, j) == target[j],
                forall|j: int| pos <= j < 8 * self.bmap@.len() ==> !bit_at(self.bmap@, j),
            decreases width - k,
        {
            let ghost prev = self.bmap@;
            if pos % 8 == 0 {
                self.bmap.push(0);
                proof {
                    assert forall|j: int| 0 <= j < pos implies bit_at(self.bmap@, j) == bit_at(
                        prev,
                        j,
                    ) by {
                        assert(self.bmap@[j / 8] == prev[j / 8]);
                    }
                    assert forall|j: int| pos <= j < 8 * self.bmap@.len() implies !bit_at(
                        self.bmap@,
                        j,
                    ) by {
                        assert(j / 8 == self.bmap@.len() - 1);
                        lemma_zero_bit((7 - j % 8) as u8);
                    }
                }
            }
            let pix = if k < row.len() {
                row[k]
            } else {
                false
            };
            let ghost mid = self.bmap@;
            proof {
                assert(pix == target[pos as int]);
                assert(pos < 8 * mid.len());
            }
            if pix {
                let off = pos / 8;
                let sh: u8 = 7 - (pos % 8) as u8;
                let b = self.bmap[off];
                self.bmap.set(off, b | (1u8 << sh));
                proof {
                    assert(self.bmap@ == mid.update(off as int, b | (1u8 << sh)));
                    assert forall|j: int| 0 <= j < 8 * self.bmap@.len() && j != pos implies bit_at(
                        self.bmap@,
                        j,
                    ) == bit_at(mid, j) by {
                        if j / 8 == off as int {
                            assert(j % 8 != pos % 8);
                            lemma_or_bit(b, sh, (7 - j % 8) as u8);
                        } else {
                            assert(self.bmap@[j / 8] == mid[j / 8]);
                        }
                    }
                    lemma_or_bit(b, sh, sh);
                    assert(bit_at(self.bmap@, pos as int));
                }
            }
            proof {
                let cur = self.bmap@;
                assert(bit_at(cur, pos as int) == target[pos as int]);
                assert forall|j: int| 0 <= j < pos + 1 implies bit_at(cur, j) == target[j] by {
                    if j < pos {
                        assert(bit_at(mid, j) == target[j]);
                    }
                }
                assert forall|j: int| pos + 1 <= j < 8 * cur.len() implies !bit_at(cur, j) by {
                    assert(bit_at(cur, j) == bit_at(mid, j));
                }
                assert(cur.len() == div8_ceil(pos + 1));
            }
            pos += 1;
            k += 1;
        }
        proof {
            assert((h + 1) * w == h * w + w) by (nonlinear_arith);
        }
        self.height = self.height + 1;
        proof {
            assert(self@.width == w);
            assert(self@.height == h + 1);
            assert(w * (h + 1) == p0 + w) by (nonlinear_arith)
                requires
                    p0 == w * h,
            ;
            assert(self@.pixels.len() == p0 + w);
            assert forall|j: int| 0 <= j < p0 + w implies self@.pixels[j] == target[j] by {
                assert(bit_at(self.bmap@, j) == target[j]);
            }
            assert(self@.pixels =~= target);
        }
    }

    /// Get all pixels in row-major order.
    pub fn pixels(&self) -> (r: Vec<bool>)
        requires
            self.len_ok(),
        ensures
            r@ == self@.pixels,
    {
        proof {
            assert(self.width as int * self.height as int <= 255 * 255) by (nonlinear_arith)
                requires
                    0 <= self.width as int <= 255 && 0 <= self.height as int <= 255,
            ;
        }
        let total = (self.width as usize) * (self.height as usize);
        let mut r: Vec<bool> = Vec::new();
        let mut pos: usize = 0;
        while pos < total
            invariant
                0 <= pos <= total,
                total == self@.width * self@.height,
                self.len_ok(),
                r@ =~= self@.pixels.take(pos as int),
            decreases total - pos,
        {
            let off = pos / 8;
            let sh: u8 = 7 - (pos % 8) as u8;
            let b = self.bmap[off];
            r.push((b >> sh) & 1 == 1);
            pos += 1;
        }
        proof {
            assert(r@ =~= self@.pixels);
        }
        r
    }

    /// Convert into a Vec of packed bits.
    pub fn into_bits(self) -> (r: Vec<u8>)
        ensures
            r@ == self.raw(),
    {
        self.bmap
    }
}

/// Index of the first line feed in `s`, or `s.len()` when there is none.
pub open spec fn line_end(s: Seq<u8>) -> int
    decreases s.len(),
{
    if s.len() == 0 {
        0
    } else if s[0] == 10 {
        0
    } else {
        1 + line_end(s.drop_first())
    }
}

/// The first line feed is within the buffer, everything before it is not a
/// line feed, and where it is inside the buffer it is one.
proof fn lemma_line_end_bounds(s: Seq<u8>)
    ensures
        0 <= line_end(s) <= s.len(),
        forall|i: int| 0 <= i < line_end(s) ==> s[i] != 10,
        line_end(s) < s.len() ==> s[line_end(s)] == 10,
    decreases s.len(),
{
    if s.len() != 0 && s[0] != 10 {
        let u = s.drop_first();
        lemma_line_end_bounds(u);
        assert forall|i: int| 0 <= i < line_end(s) implies s[i] != 10 by {
            if i > 0 {
                assert(u[i - 1] != 10);
            }
        }
    }
}

/// The non-blank lines of a text buffer: split at line feeds, with the
/// carriage return of a `\r\n` ending dropped, blank lines skipped.
pub open spec fn spec_lines(s: Seq<u8>) -> Seq<Seq<u8>>
    decreases s.len(),
    via spec_lines_dec
{
    if s.len() == 0 {
        Seq::empty()
    } else {
        let e = line_end(s);
        let l = if e < s.len() && e > 0 && s[e - 1] == 13 {
            s.subrange(0, e - 1)
        } else {
            s.subrange(0, e)
        };
        let rest = if e < s.len() {
            s.subrange(e + 1, s.len() as int)
        } else {
            Seq::empty()
        };
        (if l.len() > 0 {
            seq![l]
        } else {
            Seq::empty()
        }) + spec_lines(rest)
    }
}

#[via_fn]
proof fn spec_lines_dec(s: Seq<u8>) {
    lemma_line_end_bounds(s);
}

/// `line_end` is the position of the first line feed.
proof fn lemma_line_end_at(t: Seq<u8>, k: int)
    requires
        0 <= k <= t.len(),
        forall|i: int| 0 <= i < k ==> t[i] != 10,
        k < t.len() ==> t[k] == 10,
    ensures
        line_end(t) == k,
    decreases t.len(),
{
    if t.len() == 0 {
    } else if t[0] == 10 {
        assert(k == 0);
    } else {
        assert(k > 0);
        let u = t.drop_first();
        assert forall|i: int| 0 <= i < k - 1 implies u[i] != 10 by {
            assert(u[i] == t[i + 1]);
        }
        lemma_line_end_at(u, k - 1);
    }
}

/// Split a buffer into its non-blank lines.
fn split_lines<'a>(buf: &'a [u8]) -> (r: Vec<&'a [u8]>)
    ensures
        r.deep_view() == spec_lines(buf@),
{
    let mut r: Vec<&'a [u8]> = Vec::new();
    let mut pos: usize = 0;
    proof {
        assert(buf@.subrange(0, buf@.len() as int) =~= buf@);
    }
    while pos < buf.len()
        invariant
            0 <= pos <= buf@.len(),
            r.deep_view() + spec_lines(buf@.subrange(pos as int, buf@.len() as int)) =~= spec_lines(
                buf@,
            ),
        decreases buf@.len() - pos,
    {
        let ghost prefix = r.deep_view();
        let ghost tail = buf@.subrange(pos as int, buf@.len() as int);
        let mut e: usize = pos;
        while e < buf.len() && *vstd::slice::slice_index_get(buf, e) != 10
            invariant
                pos <= e <= buf@.len(),
                forall|i: int| pos <= i < e ==> buf@[i] != 10,
            decreases buf@.len() - e,
        {
            e += 1;
        }
        proof {
            assert forall|i: int| 0 <= i < e - pos implies tail[i] != 10 by {
                assert(tail[i] == buf@[pos + i]);
            }
            lemma_line_end_at(tail, e - pos);
        }
        let mut stop = e;
        if e < buf.len() && e > pos && *vstd::slice::slice_index_get(buf, e - 1) == 13 {
            stop = e - 1;
        }
        if stop > pos {
            let line = vstd::slice::slice_subrange(buf, pos, stop);
            r.push(line);
            proof {
                assert(r.deep_view() =~~= prefix + seq![line@]);
            }
        }
        let oldpos = pos;
        if e < buf.len() {
            pos = e + 1;
        } else {
            pos = e;
        }
        proof {
            let newtail = buf@.subrange(pos as int, buf@.len() as int);
            let el = line_end(tail);
            assert(el == e - oldpos);
            let chomp = el < tail.len() && el > 0 && tail[el - 1] == 13;
            let lspec = if chomp {
                tail.subrange(0, el - 1)
            } else {
                tail.subrange(0, el)
            };
            let restspec = if el < tail.len() {
                tail.subrange(el + 1, tail.len() as int)
            } else {
                Seq::<u8>::empty()
            };
            assert(spec_lines(tail) == (if lspec.len() > 0 {
                seq![lspec]
            } else {
                Seq::<Seq<u8>>::empty()
            }) + spec_lines(restspec));
            assert(newtail =~= restspec);
            if el > 0 {
                assert(tail[el - 1] == buf@[e - 1]);
            }
            assert(chomp == (e < buf@.len() && e > oldpos && buf@[e - 1] == 13));
            assert(lspec =~= buf@.subrange(oldpos as int, stop as int));
            assert(lspec.len() == stop - oldpos);
            if stop > oldpos {
                assert(r.deep_view() =~= prefix + seq![lspec]);
                assert(r.deep_view() + spec_lines(newtail) =~= prefix + spec_lines(tail));
            } else {
                assert(spec_lines(tail) == spec_lines(restspec));
            }
        }
    }
    proof {
        assert(r.deep_view() =~= spec_lines(buf@));
    }
    r
}

/// A decimal digit byte.
pub open spec fn is_dec_digit(b: u8) -> bool {
    48 <= b <= 57
}

/// `s` is entirely decimal digits.
pub open spec fn all_dec_digits(s: Seq<u8>) -> bool {
    forall|i: int| 0 <= i < s.len() ==> is_dec_digit(s[i])
}

/// Value of a string of decimal digits.
pub open spec fn dec_val(s: Seq<u8>) -> int
    decreases s.len(),
{
    if s.len() == 0 {
        0
    } else {
        dec_val(s.drop_last()) * 10 + (s.last() - 48)
    }
}

/// The digits of an unsigned decimal literal: an optional leading `+` sign
/// is dropped.
pub open spec fn dec_digits(s: Seq<u8>) -> Seq<u8> {
    if s.len() > 0 && s[0] == 43 {
        s.drop_first()
    } else {
        s
    }
}

/// Parse an unsigned decimal integer as `from_str` does: an optional `+`
/// sign, then one or more digits, value at most `max`.
pub open spec fn spec_parse_uint(s: Seq<u8>, max: int) -> Option<int> {
    let t = dec_digits(s);
    if t.len() > 0 && all_dec_digits(t) && dec_val(t) <= max {
        Some(dec_val(t))
    } else {
        None
    }
}

/// A digit string's value only grows as digits are appended, and is never
/// negative.
proof fn lemma_dec_val_mono(t: Seq<u8>, k: int)
    requires
        0 <= k <= t.len(),
        all_dec_digits(t),
    ensures
        dec_val(t) >= dec_val(t.take(k)) >= 0,
    decreases t.len(),
{
    if t.len() == 0 {
    } else if k == t.len() {
        assert(t.take(k) =~= t);
        lemma_dec_val_mono(t.drop_last(), t.len() - 1);
    } else {
        let u = t.drop_last();
        assert(all_dec_digits(u));
        assert(t.take(k) =~= u.take(k));
        lemma_dec_val_mono(u, k);
    }
}

/// Parse an unsigned decimal integer bounded by `max`.
fn parse_uint(s: &[u8], max: u32) -> (r: Option<u32>)
    requires
        max <= 0xFFFF,
    ensures
        match r {
            Some(v) => spec_parse_uint(s@, max as int) == Some(v as int),
            None => spec_parse_uint(s@, max as int) is None,
        },
{
    let ghost t = dec_digits(s@);
    let start: usize = if s.len() > 0 && *vstd::slice::slice_index_get(s, 0) == 43 {
        1
    } else {
        0
    };
    proof {
        assert(t =~= s@.subrange(start as int, s@.len() as int));
    }
    if s.len() == start {
        return None;
    }
    let mut i: usize = start;
    while i < s.len()
        invariant
            start <= i <= s@.len(),
            t == dec_digits(s@),
            t == s@.subrange(start as int, s@.len() as int),
            forall|j: int| 0 <= j < i - start ==> is_dec_digit(t[j]),
        decreases s@.len() - i,
    {
        let b = *vstd::slice::slice_index_get(s, i);
        if b < 48 || b > 57 {
            proof {
                assert(t[i - start] == s@[i as int]);
                assert(!is_dec_digit(t[i - start]));
                assert(!all_dec_digits(t));
            }
            return None;
        }
        i = i + 1;
    }
    assert(all_dec_digits(t));
    let mut v: u32 = 0;
    let mut i: usize = start;
    while i < s.len()
        invariant
            start <= i <= s@.len(),
            t == dec_digits(s@),
            t == s@.subrange(start as int, s@.len() as int),
            all_dec_digits(t),
            max <= 0xFFFF,
            0 <= v <= max,
            v == dec_val(t.take(i - start)),
        decreases s@.len() - i,
    {
        let b = *vstd::slice::slice_index_get(s, i);
        proof {
            assert(t[i - start] == s@[i as int]);
            assert(is_dec_digit(t[i - start]));
        }
        let d = b - 48;
        let nv = v * 10 + (d as u32);
        proof {
            let k = i - start;
            assert(t.take(k + 1).drop_last() =~= t.take(k));
            assert(t.take(k + 1).last() == t[k]);
            assert(t[k] == s@[i as int]);
            assert(dec_val(t.take(k + 1)) == dec_val(t.take(k)) * 10 + (t[k] - 48));
            assert(nv == dec_val(t.take(k + 1)));
        }
        if nv > max {
            proof {
                lemma_dec_val_mono(t, i + 1 - start);
            }
            return None;
        }
        v = nv;
        i = i + 1;
    }
    proof {
        assert(t.take(s@.len() - start) =~= t);
    }
    Some(v)
}

/// Parse an 8-bit unsigned decimal integer.
pub(crate) fn parse_u8(s: &[u8]) -> (r: Option<u8>)
    ensures
        match r {
            Some(v) => spec_parse_uint(s@, 255) == Some(v as int),
            None => spec_parse_uint(s@, 255) is None,
        },
{
    match parse_uint(s, 255) {
        Some(v) => Some(v as u8),
        None => None,
    }
}

/// Parse a 16-bit unsigned decimal integer.
pub(crate) fn parse_u16(s: &[u8]) -> (r: Option<u16>)
    ensures
        match r {
            Some(v) => spec_parse_uint(s@, 0xFFFF) == Some(v as int),
            None => spec_parse_uint(s@, 0xFFFF) is None,
        },
{
    match parse_uint(s, 0xFFFF) {
        Some(v) => Some(v as u16),
        None => None,
    }
}

/// Compare two byte strings.
pub(crate) fn bytes_eq(a: &[u8], b: &[u8]) -> (r: bool)
    ensures
        r == (a@ == b@),
{
    if a.len() != b.len() {
        return false;
    }
    let mut i: usize = 0;
    while i < a.len()
        invariant
            0 <= i <= a@.len(),
            a@.len() == b@.len(),
            forall|j: int| 0 <= j < i ==> a@[j] == b@[j],
        decreases a@.len() - i,
    {
        if *vstd::slice::slice_index_get(a, i) != *vstd::slice::slice_index_get(b, i) {
            return false;
        }
        i = i + 1;
    }
    proof {
        assert(a@ =~= b@);
    }
    true
}

/// `s` begins with `p`.
pub open spec fn spec_starts_with(s: Seq<u8>, p: Seq<u8>) -> bool {
    p.len() <= s.len() && s.subrange(0, p.len() as int) == p
}

/// Check whether `s` begins with `p`.
pub(crate) fn starts_with(s: &[u8], p: &[u8]) -> (r: bool)
    ensures
        r == spec_starts_with(s@, p@),
{
    if p.len() > s.len() {
        return false;
    }
    let head = vstd::slice::slice_subrange(s, 0, p.len());
    bytes_eq(head, p)
}

/// Index of the first occurrence of `b` in `s`, or `s.len()` when absent.
pub open spec fn find_at(s: Seq<u8>, b: u8) -> int
    decreases s.len(),
{
    if s.len() == 0 {
        0
    } else if s[0] == b {
        0
    } else {
        1 + find_at(s.drop_first(), b)
    }
}

/// `find_at` is the position of the first occurrence.
pub(crate) proof fn lemma_find_at(s: Seq<u8>, b: u8, k: int)
    requires
        0 <= k <= s.len(),
        forall|i: int| 0 <= i < k ==> s[i] != b,
        k < s.len() ==> s[k] == b,
    ensures
        find_at(s, b) == k,
    decreases s.len(),
{
    if s.len() == 0 {
    } else if s[0] == b {
        assert(k == 0);
    } else {
        assert(k > 0);
        let u = s.drop_first();
        assert forall|i: int| 0 <= i < k - 1 implies u[i] != b by {
            assert(u[i] == s[i + 1]);
        }
        lemma_find_at(u, b, k - 1);
    }
}

/// Find the first occurrence of `b` in `s`.
pub(crate) fn find_byte(s: &[u8], b: u8) -> (r: usize)
    ensures
        r == find_at(s@, b),
        r <= s@.len(),
{
    let mut i: usize = 0;
    while i < s.len()
        invariant
            0 <= i <= s@.len(),
            forall|j: int| 0 <= j < i ==> s@[j] != b,
        decreases s@.len() - i,
    {
        if *vstd::slice::slice_index_get(s, i) == b {
            proof {
                lemma_find_at(s@, b, i as int);
            }
            return i;
        }
        i = i + 1;
    }
    proof {
        lemma_find_at(s@, b, s@.len() as int);
    }
    i
}

/// Index where the two-byte pattern `a b` first occurs in `s`, or `s.len()`
/// when it never does.
pub open spec fn find2_at(s: Seq<u8>, a: u8, b: u8) -> int
    decreases s.len(),
{
    if s.len() < 2 {
        s.len() as int
    } else if s[0] == a && s[1] == b {
        0
    } else {
        1 + find2_at(s.drop_first(), a, b)
    }
}

/// `find2_at` is the position of the first occurrence of the pattern.
pub(crate) proof fn lemma_find2_at(s: Seq<u8>, a: u8, b: u8, k: int)
    requires
        0 <= k <= s.len(),
        forall|i: int| 0 <= i < k && i + 1 < s.len() ==> !(#[trigger] s[i] == a && s[i + 1] == b),
        k < s.len() ==> k + 1 < s.len() && s[k] == a && s[k + 1] == b,
    ensures
        find2_at(s, a, b) == k,
    decreases s.len(),
{
    if s.len() < 2 {
        assert(k == s.len());
    } else if s[0] == a && s[1] == b {
        assert(k == 0);
    } else {
        assert(k > 0);
        let u = s.drop_first();
        assert forall|i: int| 0 <= i < k - 1 && i + 1 < u.len() implies !(#[trigger] u[i] == a && u[i + 1]
            == b) by {
            assert(u[i] == s[i + 1] && u[i + 1] == s[i + 2]);
        }
        lemma_find2_at(u, a, b, k - 1);
    }
}

/// Find the first occurrence of the two-byte pattern `a b` in `s`.
pub(crate) fn find_pair(s: &[u8], a: u8, b: u8) -> (r: usize)
    ensures
        r == find2_at(s@, a, b),
        r <= s@.len(),
{
    if s.len() >= 2 {
        let stop = s.len() - 1;
        let mut i: usize = 0;
        while i < stop
            invariant
                0 <= i <= stop,
                stop == s@.len() - 1,
                forall|j: int|
                    0 <= j < i && j + 1 < s@.len() ==> !(#[trigger] s@[j] == a && s@[j + 1] == b),
            decreases stop - i,
        {
            if *vstd::slice::slice_index_get(s, i) == a && *vstd::slice::slice_index_get(s, i + 1)
                == b {
                proof {
                    lemma_find2_at(s@, a, b, i as int);
                }
                return i;
            }
            i = i + 1;
        }
    }
    let r = s.len();
    proof {
        lemma_find2_at(s@, a, b, s@.len() as int);
    }
    r
}

/// `find_at` stays within the string and lands on its byte.
pub(crate) proof fn lemma_find_at_bounds(s: Seq<u8>, b: u8)
    ensures
        0 <= find_at(s, b) <= s.len(),
        find_at(s, b) < s.len() ==> s[find_at(s, b)] == b,
        forall|i: int| 0 <= i < find_at(s, b) ==> s[i] != b,
    decreases s.len(),
{
    if s.len() != 0 && s[0] != b {
        let u = s.drop_first();
        lemma_find_at_bounds(u, b);
        assert forall|i: int| 0 <= i < find_at(s, b) implies s[i] != b by {
            if i > 0 {
                assert(u[i - 1] != b);
            }
        }
    }
}

/// `find2_at` stays within the string and lands on its pattern.
pub(crate) proof fn lemma_find2_bounds(s: Seq<u8>, a: u8, b: u8)
    ensures
        0 <= find2_at(s, a, b) <= s.len(),
        find2_at(s, a, b) < s.len() ==> find2_at(s, a, b) + 2 <= s.len() && s[find2_at(s, a, b)]
            == a && s[find2_at(s, a, b) + 1] == b,
    decreases s.len(),
{
    if s.len() >= 2 && !(s[0] == a && s[1] == b) {
        lemma_find2_bounds(s.drop_first(), a, b);
    }
}

/// `l` holds a `key: value` pair.
pub open spec fn has_sep2(l: Seq<u8>) -> bool {
    find2_at(l, 58, 32) < l.len()
}

/// The key before the first `: ` separator.
pub open spec fn sep2_key(l: Seq<u8>) -> Seq<u8> {
    l.subrange(0, find2_at(l, 58, 32))
}

/// The value after the first `: ` separator.
pub open spec fn sep2_val(l: Seq<u8>) -> Seq<u8> {
    l.subrange(find2_at(l, 58, 32) + 2, l.len() as int)
}

/// Split a line at the first `: ` separator.
pub(crate) fn split_sep2<'a>(l: &'a [u8]) -> (r: Option<(&'a [u8], &'a [u8])>)
    ensures
        r is Some == has_sep2(l@),
        r matches Some(kv) ==> kv.0@ == sep2_key(l@) && kv.1@ == sep2_val(l@),
{
    let i = find_pair(l, 58, 32);
    proof {
        lemma_find2_bounds(l@, 58, 32);
    }
    if i < l.len() {
        let key = vstd::slice::slice_subrange(l, 0, i);
        let val = vstd::slice::slice_subrange(l, i + 2, l.len());
        Some((key, val))
    } else {
        None
    }
}

/// `l` holds a `key=value` pair.
pub open spec fn has_eq(l: Seq<u8>) -> bool {
    find_at(l, 61) < l.len()
}

/// The key before the first `=` separator.
pub open spec fn eq_key(l: Seq<u8>) -> Seq<u8> {
    l.subrange(0, find_at(l, 61))
}

/// The value after the first `=` separator.
pub open spec fn eq_val(l: Seq<u8>) -> Seq<u8> {
    l.subrange(find_at(l, 61) + 1, l.len() as int)
}

/// Split a line at the first `=` separator.
pub(crate) fn split_eq<'a>(l: &'a [u8]) -> (r: Option<(&'a [u8], &'a [u8])>)
    ensures
        r is Some == has_eq(l@),
        r matches Some(kv) ==> kv.0@ == eq_key(l@) && kv.1@ == eq_val(l@),
{
    let i = find_byte(l, 61);
    proof {
        lemma_find_at_bounds(l@, 61);
    }
    if i < l.len() {
        let key = vstd::slice::slice_subrange(l, 0, i);
        let val = vstd::slice::slice_subrange(l, i + 1, l.len());
        Some((key, val))
    } else {
        None
    }
}

/// ASCII whitespace.
pub open spec fn spec_ws(b: u8) -> bool {
    b == 32 || b == 9 || b == 10 || b == 12 || b == 13
}

/// First index whose byte's whitespace-ness is `want`, or `s.len()`.
pub open spec fn scan_ws(s: Seq<u8>, want: bool) -> int
    decreases s.len(),
{
    if s.len() == 0 {
        0
    } else if spec_ws(s[0]) == want {
        0
    } else {
        1 + scan_ws(s.drop_first(), want)
    }
}

/// `scan_ws` is the position of the first byte with the wanted class.
proof fn lemma_scan_ws(s: Seq<u8>, want: bool, k: int)
    requires
        0 <= k <= s.len(),
        forall|i: int| 0 <= i < k ==> spec_ws(#[trigger] s[i]) != want,
        k < s.len() ==> spec_ws(s[k]) == want,
    ensures
        scan_ws(s, want) == k,
    decreases s.len(),
{
    if s.len() == 0 {
    } else if spec_ws(s[0]) == want {
        assert(k == 0);
    } else {
        assert(k > 0);
        let u = s.drop_first();
        assert forall|i: int| 0 <= i < k - 1 implies spec_ws(#[trigger] u[i]) != want by {
            assert(u[i] == s[i + 1]);
        }
        lemma_scan_ws(u, want, k - 1);
    }
}

/// The first whitespace-delimited token of `s`, or all of `s` when it has
/// no token at all.
pub open spec fn spec_first_token(s: Seq<u8>) -> Seq<u8> {
    let i0 = scan_ws(s, false);
    if i0 == s.len() {
        s
    } else {
        let tail = s.subrange(i0, s.len() as int);
        s.subrange(i0, i0 + scan_ws(tail, true))
    }
}

/// Check whether a byte is ASCII whitespace.
fn is_ws(b: u8) -> (r: bool)
    ensures
        r == spec_ws(b),
{
    b == 32 || b == 9 || b == 10 || b == 12 || b == 13
}

/// Extract the first whitespace-delimited token.
pub(crate) fn first_token<'a>(s: &'a [u8]) -> (r: &'a [u8])
    ensures
        r@ == spec_first_token(s@),
{
    let mut i0: usize = 0;
    while i0 < s.len() && is_ws(*vstd::slice::slice_index_get(s, i0))
        invariant
            0 <= i0 <= s@.len(),
            forall|j: int| 0 <= j < i0 ==> spec_ws(#[trigger] s@[j]),
        decreases s@.len() - i0,
    {
        i0 = i0 + 1;
    }
    proof {
        lemma_scan_ws(s@, false, i0 as int);
    }
    if i0 == s.len() {
        return s;
    }
    let mut i1: usize = i0;
    while i1 < s.len() && !is_ws(*vstd::slice::slice_index_get(s, i1))
        invariant
            i0 <= i1 <= s@.len(),
            forall|j: int| i0 <= j < i1 ==> !spec_ws(#[trigger] s@[j]),
        decreases s@.len() - i1,
    {
        i1 = i1 + 1;
    }
    let ghost tail = s@.subrange(i0 as int, s@.len() as int);
    proof {
        assert forall|j: int| 0 <= j < i1 - i0 implies !spec_ws(#[trigger] tail[j]) by {
            assert(tail[j] == s@[i0 + j]);
        }
        if i1 < s@.len() {
            assert(spec_ws(tail[i1 - i0]));
        }
        lemma_scan_ws(tail, true, i1 - i0 as int);
    }
    vstd::slice::slice_subrange(s, i0, i1)
}

/// A pixel row drawn with `.` for off and `on` for on.
pub open spec fn spec_pixel_row(l: Seq<u8>, on: u8) -> bool {
    forall|i: int| 0 <= i < l.len() ==> l[i] == 46 || #[trigger] l[i] == on
}

/// The pixels of a row: on where the byte is `on`.
pub open spec fn row_px(l: Seq<u8>, on: u8) -> Seq<bool> {
    Seq::new(l.len(), |i: int| l[i] == on)
}

/// Check whether a line is entirely pixel characters.
pub(crate) fn is_pixel_row_on(l: &[u8], on: u8) -> (r: bool)
    ensures
        r == spec_pixel_row(l@, on),
{
    let mut i: usize = 0;
    while i < l.len()
        invariant
            0 <= i <= l@.len(),
            forall|j: int| 0 <= j < i ==> l@[j] == 46 || #[trigger] l@[j] == on,
        decreases l@.len() - i,
    {
        let b = *vstd::slice::slice_index_get(l, i);
        if b != 46 && b != on {
            return false;
        }
        i = i + 1;
    }
    true
}

/// Read a row of pixels from a line of pixel characters.
pub(crate) fn row_pixels_on(l: &[u8], on: u8) -> (r: Vec<bool>)
    ensures
        r@ == row_px(l@, on),
{
    let mut r: Vec<bool> = Vec::new();
    let mut i: usize = 0;
    while i < l.len()
        invariant
            0 <= i <= l@.len(),
            r@ =~= row_px(l@, on).take(i as int),
        decreases l@.len() - i,
    {
        r.push(*vstd::slice::slice_index_get(l, i) == on);
        i = i + 1;
    }
    proof {
        assert(r@ =~= row_px(l@, on));
    }
    r
}

/// Line-oriented cursor shared by all format parsers: an iterator over the
/// non-blank lines of the input plus a single-slot pushback buffer.
pub(crate) struct Cursor<'p> {
    /// Non-blank input lines
    lines: Vec<&'p [u8]>,
    /// Index of the next line to hand out
    idx: usize,
    /// Pushed back line
    line: Option<&'p [u8]>,
}

impl<'p> Cursor<'p> {
    /// The cursor indexes within its line buffer.
    pub closed spec fn wf(&self) -> bool {
        self.idx <= self.lines@.len()
    }

    /// A line is waiting in the pushback slot.
    pub closed spec fn has_pushback(&self) -> bool {
        self.line is Some
    }

    /// The lines not yet consumed, pushback first.
    pub closed spec fn remaining(&self) -> Seq<Seq<u8>> {
        let tail = self.lines.deep_view().subrange(self.idx as int, self.lines@.len() as int);
        match self.line {
            Some(l) => seq![l@] + tail,
            None => tail,
        }
    }

    /// Create a cursor over the non-blank lines of a buffer.
    pub(crate) fn new(buf: &'p [u8]) -> (r: Cursor<'p>)
        ensures
            r.wf(),
            !r.has_pushback(),
            r.remaining() == spec_lines(buf@),
    {
        let lines = split_lines(buf);
        let r = Cursor { lines, idx: 0, line: None };
        proof {
            assert(r.remaining() =~= spec_lines(buf@));
        }
        r
    }

    /// Get the next line: the pushed-back line if present, else the next
    /// unconsumed input line.
    pub(crate) fn next_line(&mut self) -> (r: Option<&'p [u8]>)
        requires
            old(self).wf(),
        ensures
            final(self).wf(),
            !final(self).has_pushback(),
            old(self).remaining().len() == 0 ==> r is None && final(self).remaining()
                == old(self).remaining(),
            old(self).remaining().len() > 0 ==> (r matches Some(l) && l@ == old(
                self,
            ).remaining()[0] && final(self).remaining() == old(self).remaining().drop_first()),
    {
        match self.line {
            Some(l) => {
                self.line = None;
                proof {
                    assert(final(self).remaining() =~= old(self).remaining().drop_first());
                }
                Some(l)
            },
            None => {
                if self.idx < self.lines.len() {
                    let l = self.lines[self.idx];
                    self.idx = self.idx + 1;
                    proof {
                        assert(l.deep_view() == old(self).remaining()[0]);
                        assert(final(self).remaining() =~= old(self).remaining().drop_first());
                    }
                    Some(l)
                } else {
                    proof {
                        assert(old(self).remaining().len() == 0);
                    }
                    None
                }
            },
        }
    }

    /// Store exactly one line to be returned by the next `next_line` call.
    pub(crate) fn push_line(&mut self, line: &'p [u8])
        requires
            old(self).wf(),
            !old(self).has_pushback(),
        ensures
            final(self).wf(),
            final(self).has_pushback(),
            final(self).remaining() == seq![line@] + old(self).remaining(),
    {
        self.line = Some(line);
    }
}

/// Mathematical model of a `Prop`.
#[verifier::ext_equal]
pub enum PropSpec {
    Unknown(Seq<u8>),
    FontName(Seq<u8>),
    FontNumber(u8),
    FontHeight(u8),
    FontWidth(u8),
    CharSpacing(u8),
    LineSpacing(u8),
    Baseline(u8),
    MaxCharNumber(u16),
    CodePoint(u16),
    Bitmap(BitmapSpec),
}

/// Font property: one unit of font metadata or one glyph bitmap.  Text-bearing
/// variants borrow the bytes of the original input buffer.
pub enum Prop<'a> {
    /// Unknown property
    Unknown(&'a [u8]),
    /// Font name
    FontName(&'a [u8]),
    /// Font number
    FontNumber(u8),
    /// Font height (pixels)
    FontHeight(u8),
    /// Font width (pixels)
    FontWidth(u8),
    /// Pixel spacing between characters
    CharSpacing(u8),
    /// Pixel spacing between lines
    LineSpacing(u8),
    /// Baseline of characters
    Baseline(u8),
    /// Maximum character number
    MaxCharNumber(u16),
    /// Character code point
    CodePoint(u16),
    /// Character bitmap
    Bitmap(Bitmap),
}

impl<'a> View for Prop<'a> {
    type V = PropSpec;

    open spec fn view(&self) -> PropSpec {
        match self {
            Prop::Unknown(t) => PropSpec::Unknown(t@),
            Prop::FontName(t) => PropSpec::FontName(t@),
            Prop::FontNumber(n) => PropSpec::FontNumber(*n),
            Prop::FontHeight(n) => PropSpec::FontHeight(*n),
            Prop::FontWidth(n) => PropSpec::FontWidth(*n),
            Prop::CharSpacing(n) => PropSpec::CharSpacing(*n),
            Prop::LineSpacing(n) => PropSpec::LineSpacing(*n),
            Prop::Baseline(n) => PropSpec::Baseline(*n),
            Prop::MaxCharNumber(n) => PropSpec::MaxCharNumber(*n),
            Prop::CodePoint(n) => PropSpec::CodePoint(*n),
            Prop::Bitmap(b) => PropSpec::Bitmap(b@),
        }
    }
}

impl<'a> DeepView for Prop<'a> {
    type V = PropSpec;

    open spec fn deep_view(&self) -> PropSpec {
        self.view()
    }
}

impl<'a> Prop<'a> {
    /// Get font name.
    pub fn font_name(&self) -> (r: Option<&'a [u8]>)
        ensures
            match *self {
                Prop::FontName(nm) => r == Some(nm),
                _ => r is None,
            },
    {
        match self {
            Prop::FontName(nm) => Some(*nm),
            _ => None,
        }
    }

    /// Get font number.
    pub fn font_number(&self) -> (r: Option<u8>)
        ensures
            match *self {
                Prop::FontNumber(num) => r == Some(num),
                _ => r is None,
            },
    {
        match self {
            Prop::FontNumber(num) => Some(*num),
            _ => None,
        }
    }

    /// Get character spacing.
    pub fn char_spacing(&self) -> (r: Option<u8>)
        ensures
            match *self {
                Prop::CharSpacing(cs) => r == Some(cs),
                _ => r is None,
            },
    {
        match self {
            Prop::CharSpacing(cs) => Some(*cs),
            _ => None,
        }
    }

    /// Get line spacing.
    pub fn line_spacing(&self) -> (r: Option<u8>)
        ensures
            match *self {
                Prop::LineSpacing(ls) => r == Some(ls),
                _ => r is None,
            },
    {
        match self {
            Prop::LineSpacing(ls) => Some(*ls),
            _ => None,
        }
    }

    /// Get font height: either the `FontHeight` scalar or the height of a
    /// glyph bitmap.
    pub fn font_height(&self) -> (r: Option<u8>)
        ensures
            match *self {
                Prop::FontHeight(fh) => r == Some(fh),
                Prop::Bitmap(bmap) => r matches Some(h) && h as int == bmap@.height,
                _ => r is None,
            },
    {
        match self {
            Prop::FontHeight(fh) => Some(*fh),
            Prop::Bitmap(bmap) => Some(bmap.height),
            _ => None,
        }
    }

    /// Get code point.
    pub fn code_point(&self) -> (r: Option<u16>)
        ensures
            match *self {
                Prop::CodePoint(cp) => r == Some(cp),
                _ => r is None,
            },
    {
        match self {
            Prop::CodePoint(cp) => Some(*cp),
            _ => None,
        }
    }
}

/// Rows of a character block: consume lines while each is a pixel row of
/// exactly width `w`, starting with `h` rows already taken.  Yields the number
/// of rows taken, their pixels, and the lines left (the first non-matching
/// line stays available); more rows than a bitmap can hold aborts.
pub open spec fn spec_rows(ls: Seq<Seq<u8>>, on: u8, w: int, h: int) -> Option<
    (int, Seq<bool>, Seq<Seq<u8>>),
>
    decreases ls.len(),
{
    if ls.len() == 0 {
        Some((0, Seq::empty(), ls))
    } else if spec_pixel_row(ls[0], on) && ls[0].len() == w {
        if h >= 255 {
            None
        } else {
            match spec_rows(ls.drop_first(), on, w, h + 1) {
                Some(t) => Some((1 + t.0, row_px(ls[0], on) + t.1, t.2)),
                None => None,
            }
        }
    } else {
        Some((0, Seq::empty(), ls))
    }
}

/// A whole character block: the line in hand must be a pixel row; its length
/// fixes the width; following lines extend the bitmap while they match.
pub open spec fn spec_char(l: Seq<u8>, ls: Seq<Seq<u8>>, on: u8) -> Option<
    (BitmapSpec, Seq<Seq<u8>>),
> {
    if l.len() == 0 || l.len() > 255 || !spec_pixel_row(l, on) {
        None
    } else {
        match spec_rows(ls, on, l.len() as int, 1) {
            Some(t) => Some(
                (
                    BitmapSpec {
                        width: l.len() as int,
                        height: 1 + t.0,
                        pixels: row_px(l, on) + t.1,
                    },
                    t.2,
                ),
            ),
            None => None,
        }
    }
}

/// Parse a character block whose first row is `line` and whose further rows
/// come from the cursor.
pub(crate) fn parse_char_block<'p>(cursor: &mut Cursor<'p>, line: &'p [u8], on: u8) -> (r: Option<
    Prop<'p>,
>)
    requires
        old(cursor).wf(),
        !old(cursor).has_pushback(),
    ensures
        final(cursor).wf(),
        final(cursor).remaining().len() <= old(cursor).remaining().len(),
        match spec_char(line@, old(cursor).remaining(), on) {
            Some(t) => r matches Some(p) && (p matches Prop::Bitmap(b) && b@ == t.0 && b.inv())
                && final(cursor).remaining() == t.1,
            None => r is None,
        },
{
    let ghost entry = cursor.remaining();
    let ghost w = line@.len() as int;
    if line.len() == 0 || line.len() > 255 {
        return None;
    }
    if !is_pixel_row_on(line, on) {
        return None;
    }
    let width = line.len() as u8;
    let mut bitmap = Bitmap::new(width);
    let rowpx = row_pixels_on(line, on);
    bitmap.push_row(rowpx.as_slice());
    proof {
        assert(norm_row(rowpx@, w) =~= row_px(line@, on));
        assert(bitmap@.pixels =~= row_px(line@, on));
    }
    let mut go = true;
    while go
        invariant
            cursor.wf(),
            entry == old(cursor).remaining(),
            cursor.remaining().len() <= entry.len(),
            go ==> !cursor.has_pushback(),
            bitmap.inv(),
            w == line@.len(),
            width as int == w,
            0 < w <= 255,
            bitmap@.width == w,
            1 <= bitmap@.height <= 255,
            go ==> (match spec_rows(cursor.remaining(), on, w, bitmap@.height) {
                Some(t) => spec_char(line@, entry, on) == Some(
                    (
                        BitmapSpec {
                            width: w,
                            height: bitmap@.height + t.0,
                            pixels: bitmap@.pixels + t.1,
                        },
                        t.2,
                    ),
                ),
                None => spec_char(line@, entry, on) is None,
            }),
            !go ==> spec_char(line@, entry, on) == Some(
                (
                    BitmapSpec { width: w, height: bitmap@.height, pixels: bitmap@.pixels },
                    cursor.remaining(),
                ),
            ),
        decreases cursor.remaining().len() + (if go {
            1int
        } else {
            0int
        }),
    {
        let ghost cur = cursor.remaining();
        match cursor.next_line() {
            None => {
                proof {
                    assert(cur.len() == 0);
                    assert(spec_rows(cur, on, w, bitmap@.height) == Some(
                        (0int, Seq::<bool>::empty(), cur),
                    ));
                    assert(bitmap@.pixels + Seq::<bool>::empty() =~= bitmap@.pixels);
                    assert(BitmapSpec {
                        width: w,
                        height: bitmap@.height + 0,
                        pixels: bitmap@.pixels + Seq::<bool>::empty(),
                    } =~= BitmapSpec { width: w, height: bitmap@.height, pixels: bitmap@.pixels });
                }
                go = false;
            },
            Some(l2) => {
                let is_row = is_pixel_row_on(l2, on);
                if is_row && l2.len() == width as usize {
                    if bitmap.height() == 255 {
                        proof {
                            assert(spec_rows(cur, on, w, 255int) is None);
                        }
                        return None;
                    }
                    let px2 = row_pixels_on(l2, on);
                    let ghost oldbm = bitmap@;
                    bitmap.push_row(px2.as_slice());
                    proof {
                        assert(norm_row(px2@, w) =~= row_px(l2@, on));
                        let t2 = spec_rows(cursor.remaining(), on, w, bitmap@.height);
                        assert(cursor.remaining() == cur.drop_first());
                        assert(spec_rows(cur, on, w, oldbm.height) == (match t2 {
                            Some(t) => Some((1 + t.0, row_px(cur[0], on) + t.1, t.2)),
                            None => None::<(int, Seq<bool>, Seq<Seq<u8>>)>,
                        }));
                        if t2 is Some {
                            let t = t2.unwrap();
                            assert(bitmap@.pixels + t.1 =~= oldbm.pixels + (row_px(l2@, on)
                                + t.1));
                        }
                    }
                } else {
                    proof {
                        assert(spec_rows(cur, on, w, bitmap@.height) == Some(
                            (0int, Seq::<bool>::empty(), cur),
                        ));
                        assert(bitmap@.pixels + Seq::<bool>::empty() =~= bitmap@.pixels);
                    }
                    cursor.push_line(l2);
                    proof {
                        assert(cursor.remaining() =~~= cur);
                    }
                    go = false;
                }
            },
        }
    }
    Some(Prop::Bitmap(bitmap))
}

/// Append bytes to an output buffer.
pub(crate) fn push_bytes(out: &mut Vec<u8>, s: &[u8])
    ensures
        final(out)@ == old(out)@ + s@,
{
    let ghost start = out@;
    let mut i: usize = 0;
    while i < s.len()
        invariant
            0 <= i <= s@.len(),
            out@ =~= start + s@.take(i as int),
        decreases s@.len() - i,
    {
        out.push(*vstd::slice::slice_index_get(s, i));
        i = i + 1;
    }
    proof {
        assert(out@ =~= start + s@);
    }
}

/// Decimal digits of a non-negative number.
pub open spec fn spec_dec(n: int) -> Seq<u8>
    decreases n,
{
    if n < 10 {
        seq![(48 + n) as u8]
    } else {
        spec_dec(n / 10).push((48 + n % 10) as u8)
    }
}

/// Append a number in decimal.
pub(crate) fn push_dec(out: &mut Vec<u8>, n: u16)
    ensures
        final(out)@ == old(out)@ + spec_dec(n as int),
    decreases n,
{
    if n < 10 {
        out.push(48 + (n as u8));
        proof {
            assert(out@ =~= old(out)@ + spec_dec(n as int));
        }
    } else {
        push_dec(out, n / 10);
        out.push(48 + ((n % 10) as u8));
        proof {
            assert(out@ =~= old(out)@ + spec_dec(n as int));
        }
    }
}

/// A lowercase hexadecimal digit.
pub open spec fn spec_hex_digit(d: int) -> u8 {
    if d < 10 {
        (48 + d) as u8
    } else {
        (87 + d) as u8
    }
}

/// Lowercase hexadecimal digits of a non-negative number.
pub open spec fn spec_hex(n: int) -> Seq<u8>
    decreases n,
{
    if n < 16 {
        seq![spec_hex_digit(n)]
    } else {
        spec_hex(n / 16).push(spec_hex_digit(n % 16))
    }
}

/// Append a number in lowercase hexadecimal.
pub(crate) fn push_hex(out: &mut Vec<u8>, n: u16)
    ensures
        final(out)@ == old(out)@ + spec_hex(n as int),
    decreases n,
{
    if n < 16 {
        let d = n as u8;
        out.push(
            if d < 10 {
                48 + d
            } else {
                87 + d
            },
        );
        proof {
            assert(out@ =~= old(out)@ + spec_hex(n as int));
        }
    } else {
        push_hex(out, n / 16);
        let d = (n % 16) as u8;
        out.push(
            if d < 10 {
                48 + d
            } else {
                87 + d
            },
        );
        proof {
            assert(out@ =~= old(out)@ + spec_hex(n as int));
        }
    }
}

/// `s` left-justified in a 64-column field, padded with spaces.
pub open spec fn spec_pad64(s: Seq<u8>) -> Seq<u8> {
    if s.len() >= 64 {
        s
    } else {
        s + Seq::new((64 - s.len()) as nat, |i: int| 32u8)
    }
}

/// Append bytes left-justified in a 64-column field.
pub(crate) fn push_padded64(out: &mut Vec<u8>, s: &[u8])
    ensures
        final(out)@ == old(out)@ + spec_pad64(s@),
{
    let ghost start = out@;
    push_bytes(out, s);
    let mut i: usize = s.len();
    while i < 64
        invariant
            s@.len() <= i <= 64 || (s@.len() >= 64 && i == s@.len()),
            s@.len() < 64 ==> out@ =~= start + s@ + Seq::new((i - s@.len()) as nat, |k: int| 32u8),
            s@.len() >= 64 ==> out@ =~= start + s@,
        decreases 64 - i,
    {
        out.push(32);
        i = i + 1;
    }
    proof {
        assert(out@ =~= start + spec_pad64(s@));
    }
}

/// The first `FontName` in the sequence.
pub open spec fn first_font_name(props: Seq<PropSpec>) -> Option<Seq<u8>>
    decreases props.len(),
{
    if props.len() == 0 {
        None
    } else {
        match props[0] {
            PropSpec::FontName(n) => Some(n),
            _ => first_font_name(props.drop_first()),
        }
    }
}

/// The first `FontNumber` in the sequence.
pub open spec fn first_font_number(props: Seq<PropSpec>) -> Option<u8>
    decreases props.len(),
{
    if props.len() == 0 {
        None
    } else {
        match props[0] {
            PropSpec::FontNumber(n) => Some(n),
            _ => first_font_number(props.drop_first()),
        }
    }
}

/// The first `CharSpacing` in the sequence.
pub open spec fn first_char_spacing(props: Seq<PropSpec>) -> Option<u8>
    decreases props.len(),
{
    if props.len() == 0 {
        None
    } else {
        match props[0] {
            PropSpec::CharSpacing(c) => Some(c),
            _ => first_char_spacing(props.drop_first()),
        }
    }
}

/// The first `LineSpacing` in the sequence.
pub open spec fn first_line_spacing(props: Seq<PropSpec>) -> Option<u8>
    decreases props.len(),
{
    if props.len() == 0 {
        None
    } else {
        match props[0] {
            PropSpec::LineSpacing(c) => Some(c),
            _ => first_line_spacing(props.drop_first()),
        }
    }
}

/// A row block ends at the first line that is not a pixel row of exactly the
/// block's width: no rows are taken from it, and that line is left in place,
/// available as the start of the next property.
pub proof fn lemma_row_width_change(ls: Seq<Seq<u8>>, on: u8, w: int, h: int)
    requires
        ls.len() > 0,
        !(spec_pixel_row(ls[0], on) && ls[0].len() == w),
    ensures
        spec_rows(ls, on, w, h) == Some((0int, Seq::<bool>::empty(), ls)),
{
}

/// Every byte of a written decimal number is a digit.
pub proof fn lemma_dec_digits_only(n: int)
    requires
        0 <= n,
    ensures
        all_dec_digits(spec_dec(n)),
        spec_dec(n).len() > 0,
    decreases n,
{
    if n >= 10 {
        lemma_dec_digits_only(n / 10);
        assert forall|i: int| 0 <= i < spec_dec(n).len() implies is_dec_digit(spec_dec(n)[i]) by {
            if i < spec_dec(n / 10).len() {
                assert(spec_dec(n)[i] == spec_dec(n / 10)[i]);
            }
        }
    }
}

/// A written decimal number reads back as its value.
pub proof fn lemma_dec_val_round_trip(n: int)
    requires
        0 <= n,
    ensures
        dec_val(spec_dec(n)) == n,
    decreases n,
{
    if n < 10 {
        assert(spec_dec(n) == seq![(48 + n) as u8]);
        assert(spec_dec(n).len() == 1);
        assert(spec_dec(n).last() == (48 + n) as u8);
        assert(spec_dec(n).drop_last() =~= Seq::<u8>::empty());
        assert(dec_val(spec_dec(n).drop_last()) == 0);
        assert(dec_val(spec_dec(n)) == (48 + n) - 48);
    } else {
        lemma_dec_val_round_trip(n / 10);
        assert(spec_dec(n).drop_last() =~= spec_dec(n / 10));
        assert(spec_dec(n).last() == (48 + n % 10) as u8);
        assert(dec_val(spec_dec(n)) == dec_val(spec_dec(n / 10)) * 10 + ((48 + n % 10) - 48));
        assert(10 * (n / 10) + n % 10 == n);
    }
}

/// Writing a number in decimal and parsing it back yields the number:
/// the scalar fields of a written document read back unchanged.
pub proof fn lemma_dec_parses_back(n: int, max: int)
    requires
        0 <= n <= max,
    ensures
        spec_parse_uint(spec_dec(n), max) == Some(n),
{
    lemma_dec_digits_only(n);
    lemma_dec_val_round_trip(n);
    assert(spec_dec(n)[0] != 43);
    assert(dec_digits(spec_dec(n)) == spec_dec(n));
}

/// The bytes of the line-feed literal.
pub proof fn lemma_nl_bytes()
    ensures
        ("\n").spec_bytes() == seq![10u8],
{
    broadcast use vstd::string::group_string_axioms;

    reveal_strlit("\n");
    assert(vstd::string::is_ascii("\n"));
    assert(("\n").spec_bytes() =~= seq![10u8]);
}

/// Text assembled after a newline-terminated, carriage-return-free piece
/// splits into that piece's lines followed by the rest's lines.
pub proof fn lemma_lines_append(a: Seq<u8>, b: Seq<u8>)
    requires
        a.len() > 0,
        a.last() == 10,
        forall|i: int| 0 <= i < a.len() ==> a[i] != 13,
    ensures
        spec_lines(a + b) == spec_lines(a) + spec_lines(b),
    decreases a.len(),
{
    let s = a + b;
    lemma_line_end_bounds(a);
    let e = line_end(a);
    assert(e < a.len());
    assert forall|i: int| 0 <= i < e implies s[i] != 10 by {
        assert(s[i] == a[i]);
    }
    lemma_line_end_at(s, e);
    assert(line_end(s) == e);
    assert(s.take(e) =~= a.take(e));
    if e > 0 {
        assert(s[e - 1] == a[e - 1]);
        assert(s[e - 1] != 13);
    }
    let resta = a.subrange(e + 1, a.len() as int);
    let rests = s.subrange(e + 1, s.len() as int);
    if e + 1 == a.len() {
        assert(resta =~= Seq::<u8>::empty());
        assert(rests =~= b);
        assert(spec_lines(resta) =~= Seq::<Seq<u8>>::empty());
        assert(spec_lines(a) =~= (if a.take(e).len() > 0 {
            seq![a.take(e)]
        } else {
            Seq::<Seq<u8>>::empty()
        }));
        assert(spec_lines(s) == (if s.take(e).len() > 0 {
            seq![s.take(e)]
        } else {
            Seq::<Seq<u8>>::empty()
        }) + spec_lines(b));
        assert(spec_lines(s) =~= spec_lines(a) + spec_lines(b));
    } else {
        assert(resta.len() > 0);
        assert(resta.last() == a.last());
        assert forall|i: int| 0 <= i < resta.len() implies resta[i] != 13 by {
            assert(resta[i] == a[e + 1 + i]);
        }
        lemma_lines_append(resta, b);
        assert(rests =~= resta + b);
        assert(spec_lines(a) == (if a.take(e).len() > 0 {
            seq![a.take(e)]
        } else {
            Seq::<Seq<u8>>::empty()
        }) + spec_lines(resta));
        assert(spec_lines(s) == (if s.take(e).len() > 0 {
            seq![s.take(e)]
        } else {
            Seq::<Seq<u8>>::empty()
        }) + spec_lines(rests));
        assert(spec_lines(s) =~= spec_lines(a) + spec_lines(b));
    }
}

/// A single newline-terminated line, free of line feeds and carriage
/// returns, splits into just itself.
pub proof fn lemma_lines_single(l: Seq<u8>)
    requires
        l.len() > 0,
        forall|i: int| 0 <= i < l.len() ==> l[i] != 10 && l[i] != 13,
    ensures
        spec_lines(l + seq![10u8]) == seq![l],
{
    let s = l + seq![10u8];
    assert forall|i: int| 0 <= i < l.len() implies s[i] != 10 by {
        assert(s[i] == l[i]);
    }
    lemma_line_end_at(s, l.len() as int);
    let e = line_end(s);
    assert(e == l.len());
    assert(s.take(e) =~= l);
    assert(s[e - 1] != 13);
    let rest = s.subrange(e + 1, s.len() as int);
    assert(rest =~= Seq::<u8>::empty());
    assert(spec_lines(rest) =~= Seq::<Seq<u8>>::empty());
    assert(spec_lines(s) =~= seq![l]);
}

/// A line assembled as `key`, the `: ` separator, then `value` splits back
/// at that separator when the key holds no colon.
pub proof fn lemma_kv_split(key: Seq<u8>, val: Seq<u8>)
    requires
        forall|i: int| 0 <= i < key.len() ==> key[i] != 58,
    ensures
        has_sep2(key + seq![58u8, 32u8] + val),
        sep2_key(key + seq![58u8, 32u8] + val) == key,
        sep2_val(key + seq![58u8, 32u8] + val) == val,
{
    let l = key + seq![58u8, 32u8] + val;
    let k = key.len() as int;
    assert(l[k] == 58 && l[k + 1] == 32);
    assert forall|i: int| 0 <= i < k && i + 1 < l.len() implies !(#[trigger] l[i] == 58 && l[i + 1]
        == 32) by {
        assert(l[i] == key[i]);
    }
    lemma_find2_at(l, 58, 32, k);
    assert(l.subrange(0, k) =~= key);
    assert(l.subrange(k + 2, l.len() as int) =~= val);
}

/// A row block never hands back more lines than it was given.
pub proof fn lemma_spec_rows_len(ls: Seq<Seq<u8>>, on: u8, w: int, h: int)
    ensures
        spec_rows(ls, on, w, h) matches Some(t) ==> t.2.len() <= ls.len(),
    decreases ls.len(),
{
    if ls.len() > 0 && spec_pixel_row(ls[0], on) && ls[0].len() == w && h < 255 {
        lemma_spec_rows_len(ls.drop_first(), on, w, h + 1);
    }
}

} // verus!
