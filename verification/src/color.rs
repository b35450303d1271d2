//! RGBA colours: construction, parsing from hexadecimal text, formatting
//! back to text, and the byte order of the pixel buffer.

use vstd::prelude::*;
use vstd::string::*;
use vstd::utf8::*;

use crate::text::{
    digit_value, digits_value, format_upper_hex_byte, is_white_space, strip_prefix_char, trim, trim_end_spec,
    trim_spec, trim_start_spec, upper_hex_digit, lemma_trim_idempotent, u8_from_str_radix, u8_radix_spec,
    upper_hex_byte, byte_len, byte_range, radix_parse_error,
};

verus! {

broadcast use vstd::utf8::group_utf8_lib;

/// Why a colour could not be parsed.
#[derive(Debug)]
pub enum ParseColorError {
    /// The text (after trimming and an optional `#`) is not 6 or 8 bytes long.
    WrongHexLength(usize),
    InvalidRedComponent(std::num::ParseIntError),
    InvalidGreenComponent(std::num::ParseIntError),
    InvalidBlueComponent(std::num::ParseIntError),
    InvalidAlphaComponent(std::num::ParseIntError),
}

/// A colour with 8-bit red, green, blue and alpha channels.
#[derive(Debug)]
pub struct Color {
    pub r: u8,
    pub g: u8,
    pub b: u8,
    pub a: u8,
}

impl Clone for Color {
    fn clone(&self) -> (c: Self)
        ensures
            c == *self,
    {
        Color { r: self.r, g: self.g, b: self.b, a: self.a }
    }
}

/// The outcome of parsing a colour, as a plain value.
pub enum HexOutcome {
    Parsed(u8, u8, u8, u8),
    WrongLength(usize),
    BadRed,
    BadGreen,
    BadBlue,
    BadAlpha,
}

/// The hexadecimal digits of a colour text: trimmed, then without one
/// leading `#` and trimmed again.
pub open spec fn hex_digits_of(s: Seq<char>) -> Seq<char> {
    let t = trim_spec(s);
    if t.len() > 0 && t[0] == '#' {
        trim_spec(t.drop_first())
    } else {
        t
    }
}

/// The bytes of the `k`-th two-digit channel, read as hexadecimal.
pub open spec fn hex_channel(bytes: Seq<u8>, k: int) -> Option<u8> {
    u8_radix_spec(bytes.subrange(2 * k, 2 * k + 2), 16)
}

/// What parsing a colour text gives: the channels in the order red, green,
/// blue, alpha, where a missing alpha is 255, or the first failing step.
pub open spec fn parse_hex_spec(s: Seq<char>) -> HexOutcome {
    let bytes = encode_utf8(hex_digits_of(s));
    if !(bytes.len() == 6 || bytes.len() == 8) {
        HexOutcome::WrongLength(bytes.len() as usize)
    } else if hex_channel(bytes, 0) is None {
        HexOutcome::BadRed
    } else if hex_channel(bytes, 1) is None {
        HexOutcome::BadGreen
    } else if hex_channel(bytes, 2) is None {
        HexOutcome::BadBlue
    } else if bytes.len() == 8 && hex_channel(bytes, 3) is None {
        HexOutcome::BadAlpha
    } else {
        HexOutcome::Parsed(
            hex_channel(bytes, 0).unwrap(),
            hex_channel(bytes, 1).unwrap(),
            hex_channel(bytes, 2).unwrap(),
            if bytes.len() == 8 {
                hex_channel(bytes, 3).unwrap()
            } else {
                255
            },
        )
    }
}

/// Parsing a colour text cuts it into channels at byte offsets 2, 4 and 6;
/// this holds when every cut that parsing reaches falls on a character
/// boundary (a cut inside a multi-byte character would panic).
pub open spec fn hex_cuts_on_boundaries(s: Seq<char>) -> bool {
    let bytes = encode_utf8(hex_digits_of(s));
    (bytes.len() == 6 || bytes.len() == 8) ==> {
        &&& is_char_boundary(bytes, 2)
        &&& hex_channel(bytes, 0) is Some ==> {
            &&& is_char_boundary(bytes, 4)
            &&& hex_channel(bytes, 1) is Some ==> {
                &&& is_char_boundary(bytes, 6)
                &&& (hex_channel(bytes, 2) is Some && bytes.len() == 8) ==> is_char_boundary(
                    bytes,
                    8,
                )
            }
        }
    }
}

/// The result of a parse agrees with the outcome.
pub open spec fn hex_result_is(res: Result<Color, ParseColorError>, o: HexOutcome) -> bool {
    match o {
        HexOutcome::Parsed(r, g, b, a) => res matches Ok(c) && c.r == r && c.g == g && c.b == b
            && c.a == a,
        HexOutcome::WrongLength(n) => res matches Err(ParseColorError::WrongHexLength(m)) && m
            == n,
        HexOutcome::BadRed => res matches Err(ParseColorError::InvalidRedComponent(_)),
        HexOutcome::BadGreen => res matches Err(ParseColorError::InvalidGreenComponent(_)),
        HexOutcome::BadBlue => res matches Err(ParseColorError::InvalidBlueComponent(_)),
        HexOutcome::BadAlpha => res matches Err(ParseColorError::InvalidAlphaComponent(_)),
    }
}

/// The text of the `k`-th two-digit channel.
pub open spec fn channel_text(s: Seq<char>, k: int) -> Seq<char> {
    decode_utf8(encode_utf8(hex_digits_of(s)).subrange(2 * k, 2 * k + 2))
}

/// A channel error of a parse carries the error of parsing that channel's
/// text as hexadecimal.
pub open spec fn hex_error_payload_is(res: Result<Color, ParseColorError>, s: Seq<char>) -> bool {
    match res {
        Err(ParseColorError::InvalidRedComponent(e)) => e == radix_parse_error(channel_text(s, 0), 16),
        Err(ParseColorError::InvalidGreenComponent(e)) => e == radix_parse_error(channel_text(s, 1), 16),
        Err(ParseColorError::InvalidBlueComponent(e)) => e == radix_parse_error(channel_text(s, 2), 16),
        Err(ParseColorError::InvalidAlphaComponent(e)) => e == radix_parse_error(channel_text(s, 3), 16),
        _ => true,
    }
}

/// The text that `to_hex` produces: `#` and eight upper-case hexadecimal
/// digits for red, green, blue and alpha.
pub open spec fn to_hex_spec(r: u8, g: u8, b: u8, a: u8) -> Seq<char> {
    seq!['#'] + upper_hex_byte(r) + upper_hex_byte(g) + upper_hex_byte(b) + upper_hex_byte(a)
}

/// A channel of `fg` laid over `bg` at opacity `alpha` out of 255, rounded
/// down.
pub open spec fn blend_spec(fg: u8, bg: u8, alpha: u32) -> u8 {
    ((fg * alpha + bg * (255 - alpha)) / 255) as u8
}

/// Mixes one channel: `fg` weighted by `alpha` and `bg` by the rest of 255.
pub fn blend_channel(fg: u8, bg: u8, alpha: u32) -> (c: u8)
    requires
        alpha <= 255,
    ensures
        c == (fg * alpha + bg * (255 - alpha)) / 255,
        c == blend_spec(fg, bg, alpha),
{
    let inv: u32 = 255 - alpha;
    assert(fg * alpha <= 255 * alpha) by (nonlinear_arith)
        requires
            fg <= 255,
            alpha <= 255,
    ;
    assert(bg * inv <= 255 * inv) by (nonlinear_arith)
        requires
            bg <= 255,
            inv <= 255,
    ;
    let sum: u32 = fg as u32 * alpha + bg as u32 * inv;
    assert(sum / 255 <= 255) by (nonlinear_arith)
        requires
            sum <= 255 * 255,
    ;
    (sum / 255) as u8
}

impl Color {
    /// An opaque colour.
    pub fn rgb(r: u8, g: u8, b: u8) -> (c: Self)
        ensures
            c.r == r,
            c.g == g,
            c.b == b,
            c.a == 255,
    {
        Self { r, g, b, a: u8::MAX }
    }

    /// A colour with the given alpha.
    pub fn rgba(r: u8, g: u8, b: u8, a: u8) -> (c: Self)
        ensures
            c.r == r,
            c.g == g,
            c.b == b,
            c.a == a,
    {
        Self { r, g, b, a }
    }

    /// Parses `RRGGBB` or `RRGGBBAA` in hexadecimal, with surrounding white
    /// space and an optional leading `#` ignored.
    pub fn hex(hex: &str) -> (res: Result<Self, ParseColorError>)
        requires
            hex_cuts_on_boundaries(hex@),
        ensures
            hex_result_is(res, parse_hex_spec(hex@)),
            hex_error_payload_is(res, hex@),
    {
        match Self::try_hex(hex) {
            Some(res) => res,
            None => {
                proof {
                    assert(false);
                }
                Err(ParseColorError::WrongHexLength(0))
            },
        }
    }

    /// Parses a colour like `hex`, for any text: `None` where a cut between
    /// two channels would fall inside a multi-byte character.
    pub fn try_hex(hex: &str) -> (res: Option<Result<Self, ParseColorError>>)
        ensures
            res is None <==> !hex_cuts_on_boundaries(hex@),
            res matches Some(r) ==> hex_result_is(r, parse_hex_spec(hex@)) && hex_error_payload_is(
                r,
                hex@,
            ),
    {
        let trimmed = trim(hex);
        let digits = match strip_prefix_char(trimmed, '#') {
            Some(rest) => trim(rest),
            None => trim(hex),
        };
        let len = byte_len(digits);
        if len != 6 && len != 8 {
            return Some(Err(ParseColorError::WrongHexLength(len)));
        }
        if !digits.is_char_boundary(2) {
            return None;
        }
        let r = match u8_from_str_radix(byte_range(digits, 0, 2), 16) {
            Ok(v) => v,
            Err(e) => return Some(Err(ParseColorError::InvalidRedComponent(e))),
        };
        if !digits.is_char_boundary(4) {
            return None;
        }
        let g = match u8_from_str_radix(byte_range(digits, 2, 4), 16) {
            Ok(v) => v,
            Err(e) => return Some(Err(ParseColorError::InvalidGreenComponent(e))),
        };
        if !digits.is_char_boundary(6) {
            return None;
        }
        let b = match u8_from_str_radix(byte_range(digits, 4, 6), 16) {
            Ok(v) => v,
            Err(e) => return Some(Err(ParseColorError::InvalidBlueComponent(e))),
        };
        let a = if len == 8 {
            if !digits.is_char_boundary(8) {
                return None;
            }
            match u8_from_str_radix(byte_range(digits, 6, 8), 16) {
                Ok(v) => v,
                Err(e) => return Some(Err(ParseColorError::InvalidAlphaComponent(e))),
            }
        } else {
            255
        };
        Some(Ok(Self { r, g, b, a }))
    }

    /// Parses a colour; the same as `hex`.
    pub fn from_str(s: &str) -> (res: Result<Self, ParseColorError>)
        requires
            hex_cuts_on_boundaries(s@),
        ensures
            hex_result_is(res, parse_hex_spec(s@)),
            hex_error_payload_is(res, s@),
    {
        Self::hex(s)
    }

    /// The colour as `#RRGGBBAA` in upper-case hexadecimal.
    pub fn to_hex(&self) -> (s: String)
        ensures
            s@ == to_hex_spec(self.r, self.g, self.b, self.a),
    {
        let mut s = "#".to_owned();
        proof {
            reveal_strlit("#");
        }
        s.append(format_upper_hex_byte(self.r).as_str());
        s.append(format_upper_hex_byte(self.g).as_str());
        s.append(format_upper_hex_byte(self.b).as_str());
        s.append(format_upper_hex_byte(self.a).as_str());
        s
    }

    /// The text that displays the colour: the same as `to_hex`.
    pub fn to_string(&self) -> (s: String)
        ensures
            s@ == to_hex_spec(self.r, self.g, self.b, self.a),
    {
        self.to_hex()
    }

    /// The channels in the order of the pixel buffer: blue, green, red,
    /// alpha.
    pub fn get_bgra(&self) -> (px: [u8; 4])
        ensures
            px@ == seq![self.b, self.g, self.r, self.a],
    {
        [self.b, self.g, self.r, self.a]
    }

    /// Covers the BGRA pixel `bg` with this colour at opacity `alpha` out of
    /// 255: each colour channel mixes the two by weight, and the pixel keeps
    /// its own alpha.
    pub fn blend_over(&self, bg: [u8; 4], alpha: u32) -> (px: [u8; 4])
        requires
            alpha <= 255,
        ensures
            px@ == seq![
                blend_spec(self.b, bg@[0], alpha),
                blend_spec(self.g, bg@[1], alpha),
                blend_spec(self.r, bg@[2], alpha),
                bg@[3],
            ],
    {
        [
            blend_channel(self.b, bg[0], alpha),
            blend_channel(self.g, bg[1], alpha),
            blend_channel(self.r, bg[2], alpha),
            bg[3],
        ]
    }
}

} // verus!

verus! {

/// An upper-case hexadecimal digit is ASCII, is not white space, is not a
/// sign, and reads back as its value.
proof fn lemma_upper_hex_digit(d: int)
    requires
        0 <= d < 16,
    ensures
        (upper_hex_digit(d) as u32) < 128,
        upper_hex_digit(d) as u8 != 43,
        !is_white_space(upper_hex_digit(d)),
        digit_value(upper_hex_digit(d) as u8, 16) == Some(d as nat),
{
}

/// Two upper-case hexadecimal digits of a byte read back as that byte.
proof fn lemma_hex_channel(bytes: Seq<u8>, k: int, v: u8)
    requires
        0 <= k,
        2 * k + 2 <= bytes.len(),
        bytes[2 * k] == upper_hex_digit((v / 16) as int) as u8,
        bytes[2 * k + 1] == upper_hex_digit((v % 16) as int) as u8,
    ensures
        hex_channel(bytes, k) == Some(v),
{
    lemma_upper_hex_digit((v / 16) as int);
    lemma_upper_hex_digit((v % 16) as int);
    let x = bytes.subrange(2 * k, 2 * k + 2);
    assert(x.drop_last() =~= seq![x[0]]);
    assert(digits_value(x.drop_last(), 16) == Some((v / 16) as nat));
    assert(digits_value(x, 16) == Some(v as nat));
}

/// Two parse results tell the same: both the same colour, or both the same
/// error with the same length or the same channel error.
pub open spec fn same_parse(x: Result<Color, ParseColorError>, y: Result<Color, ParseColorError>) -> bool {
    match (x, y) {
        (Ok(c), Ok(d)) => c.r == d.r && c.g == d.g && c.b == d.b && c.a == d.a,
        (Err(ParseColorError::WrongHexLength(m)), Err(ParseColorError::WrongHexLength(n))) => m
            == n,
        (Err(ParseColorError::InvalidRedComponent(e)), Err(ParseColorError::InvalidRedComponent(f))) => e == f,
        (
            Err(ParseColorError::InvalidGreenComponent(e)),
            Err(ParseColorError::InvalidGreenComponent(f)),
        ) => e == f,
        (Err(ParseColorError::InvalidBlueComponent(e)), Err(ParseColorError::InvalidBlueComponent(f))) => e == f,
        (
            Err(ParseColorError::InvalidAlphaComponent(e)),
            Err(ParseColorError::InvalidAlphaComponent(f)),
        ) => e == f,
        _ => false,
    }
}

/// Two parses of one text, such as `Color::hex` and `Color::from_str` give,
/// agree: the same colour, or the same error with the same payload.
pub proof fn lemma_parses_agree(
    s: Seq<char>,
    x: Result<Color, ParseColorError>,
    y: Result<Color, ParseColorError>,
)
    requires
        hex_result_is(x, parse_hex_spec(s)),
        hex_result_is(y, parse_hex_spec(s)),
        hex_error_payload_is(x, s),
        hex_error_payload_is(y, s),
    ensures
        same_parse(x, y),
{
}

/// Parsing the text of `to_hex` cuts only on character boundaries and gives
/// back the colour: every colour survives a trip through its text.
pub proof fn lemma_hex_roundtrip(r: u8, g: u8, b: u8, a: u8)
    ensures
        hex_cuts_on_boundaries(to_hex_spec(r, g, b, a)),
        parse_hex_spec(to_hex_spec(r, g, b, a)) == HexOutcome::Parsed(r, g, b, a),
{
    let s = to_hex_spec(r, g, b, a);
    let d = upper_hex_byte(r) + upper_hex_byte(g) + upper_hex_byte(b) + upper_hex_byte(a);
    assert(s == seq!['#'] + d);
    lemma_upper_hex_digit((r / 16) as int);
    lemma_upper_hex_digit((r % 16) as int);
    lemma_upper_hex_digit((g / 16) as int);
    lemma_upper_hex_digit((g % 16) as int);
    lemma_upper_hex_digit((b / 16) as int);
    lemma_upper_hex_digit((b % 16) as int);
    lemma_upper_hex_digit((a / 16) as int);
    lemma_upper_hex_digit((a % 16) as int);
    assert(d.len() == 8);
    assert(trim_start_spec(s) == s);
    assert(trim_end_spec(s) == s);
    assert(s.drop_first() =~= d);
    assert(trim_start_spec(d) == d);
    assert(trim_end_spec(d) == d);
    assert(hex_digits_of(s) == d);
    assert(is_ascii_chars(d));
    let bytes = encode_utf8(d);
    assert(bytes.len() == 8);
    assert forall|i: int| 0 <= i < 8 implies !is_continuation_byte(#[trigger] bytes[i]) by {
        assert(d[i] as u8 == bytes[i]);
    }
    assert(is_char_boundary(bytes, 2));
    assert(is_char_boundary(bytes, 4));
    assert(is_char_boundary(bytes, 6));
    assert(is_char_boundary(bytes, 8));
    assert forall|i: int| 0 <= i < 8 implies #[trigger] bytes[i] == d[i] as u8 by {}
    lemma_hex_channel(bytes, 0, r);
    lemma_hex_channel(bytes, 1, g);
    lemma_hex_channel(bytes, 2, b);
    lemma_hex_channel(bytes, 3, a);
}

} // verus!

verus! {

/// White space around a colour text changes nothing: the trimmed text
/// parses, and is cut, exactly as the text itself.
pub proof fn lemma_hex_ignores_surrounding_space(s: Seq<char>)
    ensures
        parse_hex_spec(trim_spec(s)) == parse_hex_spec(s),
        hex_cuts_on_boundaries(trim_spec(s)) == hex_cuts_on_boundaries(s),
{
    lemma_trim_idempotent(s);
    assert(hex_digits_of(trim_spec(s)) == hex_digits_of(s));
}

} // verus!
