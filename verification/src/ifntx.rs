//! Parse fonts in `ifnt` (X) format
//!
//! This is an obsolete font format which is sort of half way between `ifnt`
//! and `tfon`.  Writing is not supported.
use crate::common::{
    bytes_eq, first_token, has_sep2, parse_char_block, parse_u16, parse_u8, sep2_key, sep2_val,
    spec_char, spec_first_token, spec_lines, spec_parse_uint, split_sep2, Cursor, Prop, PropSpec,
};
use vstd::prelude::*;
use vstd::string::StringSliceAdditionalSpecFns;

verus! {

/// One parsing step on the remaining lines: the next property, if any, with
/// the lines left after it; `None` ends the sequence.
pub open spec fn spec_step(ls: Seq<Seq<u8>>) -> Option<(PropSpec, Seq<Seq<u8>>)> {
    if ls.len() == 0 {
        None
    } else {
        let l = ls[0];
        let rest = ls.drop_first();
        if has_sep2(l) {
            let key = sep2_key(l);
            let val = sep2_val(l);
            if key == ("name").spec_bytes() {
                Some((PropSpec::FontName(val), rest))
            } else if key == ("font_number").spec_bytes() {
                match spec_parse_uint(val, 255) {
                    Some(v) => Some((PropSpec::FontNumber(v as u8), rest)),
                    None => None,
                }
            } else if key == ("height").spec_bytes() {
                match spec_parse_uint(val, 255) {
                    Some(v) => Some((PropSpec::FontHeight(v as u8), rest)),
                    None => None,
                }
            } else if key == ("width").spec_bytes() {
                match spec_parse_uint(val, 255) {
                    Some(v) => Some((PropSpec::FontWidth(v as u8), rest)),
                    None => None,
                }
            } else if key == ("char_spacing").spec_bytes() {
                match spec_parse_uint(val, 255) {
                    Some(v) => Some((PropSpec::CharSpacing(v as u8), rest)),
                    None => None,
                }
            } else if key == ("line_spacing").spec_bytes() {
                match spec_parse_uint(val, 255) {
                    Some(v) => Some((PropSpec::LineSpacing(v as u8), rest)),
                    None => None,
                }
            } else if key == ("codepoint").spec_bytes() {
                match spec_parse_uint(spec_first_token(val), 0xFFFF) {
                    Some(v) => Some((PropSpec::CodePoint(v as u16), rest)),
                    None => None,
                }
            } else {
                Some((PropSpec::Unknown(key), rest))
            }
        } else {
            match spec_char(l, rest, 88) {
                Some(t) => Some((PropSpec::Bitmap(t.0), t.1)),
                None => None,
            }
        }
    }
}

/// Parser for `ifnt` (X) format
pub struct Parser<'p> {
    /// Line cursor over the input
    cursor: Cursor<'p>,
}

impl<'p> View for Parser<'p> {
    type V = Seq<Seq<u8>>;

    closed spec fn view(&self) -> Seq<Seq<u8>> {
        self.cursor.remaining()
    }
}

impl<'p> Parser<'p> {
    /// The parser's cursor is well formed.
    pub closed spec fn wf(&self) -> bool {
        self.cursor.wf()
    }

    /// Create a new `ifnt` (X) parser.
    pub fn new(buf: &'p str) -> (r: Parser<'p>)
        ensures
            r.wf(),
            r@ == spec_lines(buf.spec_bytes()),
    {
        Parser { cursor: Cursor::new(buf.as_bytes()) }
    }

    /// Parse one property.  `None` ends the sequence: the input is exhausted
    /// or a malformed line stopped it.
    pub fn prop(&mut self) -> (r: Option<Prop<'p>>)
        requires
            old(self).wf(),
        ensures
            final(self).wf(),
            match spec_step(old(self)@) {
                Some(t) => (r matches Some(p) && p@ == t.0 && final(self)@ == t.1
                    && final(self)@.len() < old(self)@.len()),
                None => r is None,
            },
            r matches Some(Prop::Bitmap(b)) ==> b.inv(),
    {
        let line = match self.cursor.next_line() {
            Some(l) => l,
            None => {
                return None;
            },
        };
        match split_sep2(line) {
            Some((key, val)) => {
                if bytes_eq(key, "name".as_bytes()) {
                    Some(Prop::FontName(val))
                } else if bytes_eq(key, "font_number".as_bytes()) {
                    match parse_u8(val) {
                        Some(v) => Some(Prop::FontNumber(v)),
                        None => None,
                    }
                } else if bytes_eq(key, "height".as_bytes()) {
                    match parse_u8(val) {
                        Some(v) => Some(Prop::FontHeight(v)),
                        None => None,
                    }
                } else if bytes_eq(key, "width".as_bytes()) {
                    match parse_u8(val) {
                        Some(v) => Some(Prop::FontWidth(v)),
                        None => None,
                    }
                } else if bytes_eq(key, "char_spacing".as_bytes()) {
                    match parse_u8(val) {
                        Some(v) => Some(Prop::CharSpacing(v)),
                        None => None,
                    }
                } else if bytes_eq(key, "line_spacing".as_bytes()) {
                    match parse_u8(val) {
                        Some(v) => Some(Prop::LineSpacing(v)),
                        None => None,
                    }
                } else if bytes_eq(key, "codepoint".as_bytes()) {
                    match parse_u16(first_token(val)) {
                        Some(v) => Some(Prop::CodePoint(v)),
                        None => None,
                    }
                } else {
                    Some(Prop::Unknown(key))
                }
            },
            None => parse_char_block(&mut self.cursor, line, 88),
        }
    }
}

} // verus!
