//! RGBA colors with their canonical hexadecimal text form.
//!
//! A color serializes to eight lowercase hex digits (`rrggbbaa`, no `#`
//! prefix).  Parsing accepts six digits (alpha defaults to 255) or eight
//! digits, upper or lower case.  The round trip from any valid string through
//! [`Color::from_hex_str`] and back through [`Color::into_hex_str`] yields the
//! canonical lowercase eight-digit form; this is proved in
//! [`lemma_color_hex_round_trip`].

use vstd::prelude::*;
use vstd::string::StrSliceExecFns;
use vstd::string::StringExecFns;

verus! {

/// Why a hex color string was rejected.
#[derive(Clone, Copy, PartialEq, Eq, Structural, Debug)]
pub enum ParseColorError {
    /// The string's length in characters is neither 6 nor 8; holds the length
    /// that was seen.
    LengthError(usize),
    /// Some character is not a hexadecimal digit.
    ParseIntError,
}

/// An RGBA color, one byte per channel.
#[derive(Clone, Copy, PartialEq, Eq, Structural, Debug)]
pub struct Color {
    pub r: u8,
    pub g: u8,
    pub b: u8,
    pub a: u8,
}

/// The numeric value of a hex digit, or -1 for any other character.
pub open spec fn hex_val_spec(c: char) -> int {
    let u = c as u32;
    if ('0' as u32) <= u && u <= ('9' as u32) {
        u - ('0' as u32)
    } else if ('a' as u32) <= u && u <= ('f' as u32) {
        10 + u - ('a' as u32)
    } else if ('A' as u32) <= u && u <= ('F' as u32) {
        10 + u - ('A' as u32)
    } else {
        -1
    }
}

/// Whether `c` is a hexadecimal digit, in either case.
pub open spec fn is_hex_digit(c: char) -> bool {
    hex_val_spec(c) >= 0
}

/// The lowercase hex digit for a value in `0..16` (and '0' outside that
/// range, which never arises).
pub open spec fn hex_char_spec(v: int) -> char {
    if v == 0 { '0' } else if v == 1 { '1' } else if v == 2 { '2' }
    else if v == 3 { '3' } else if v == 4 { '4' } else if v == 5 { '5' }
    else if v == 6 { '6' } else if v == 7 { '7' } else if v == 8 { '8' }
    else if v == 9 { '9' } else if v == 10 { 'a' } else if v == 11 { 'b' }
    else if v == 12 { 'c' } else if v == 13 { 'd' } else if v == 14 { 'e' }
    else if v == 15 { 'f' } else { '0' }
}

/// The byte encoded by two hex digits.
pub open spec fn hex_byte_spec(c1: char, c2: char) -> int {
    hex_val_spec(c1) * 16 + hex_val_spec(c2)
}

/// A string is an acceptable color encoding when it has 6 or 8 characters,
/// all hex digits.
pub open spec fn valid_hex_str(s: Seq<char>) -> bool {
    &&& s.len() == 6 || s.len() == 8
    &&& forall|i: int| 0 <= i < s.len() ==> is_hex_digit(#[trigger] s[i])
}

/// The color a valid hex string denotes; `None` for an invalid one.
pub open spec fn spec_parse_color(s: Seq<char>) -> Option<Color> {
    if valid_hex_str(s) {
        Some(Color {
            r: hex_byte_spec(s[0], s[1]) as u8,
            g: hex_byte_spec(s[2], s[3]) as u8,
            b: hex_byte_spec(s[4], s[5]) as u8,
            a: if s.len() == 6 { 255 } else { hex_byte_spec(s[6], s[7]) as u8 },
        })
    } else {
        None
    }
}

/// The canonical eight-digit lowercase encoding of a color.
pub open spec fn color_hex_seq(c: Color) -> Seq<char> {
    seq![
        hex_char_spec(c.r as int / 16), hex_char_spec(c.r as int % 16),
        hex_char_spec(c.g as int / 16), hex_char_spec(c.g as int % 16),
        hex_char_spec(c.b as int / 16), hex_char_spec(c.b as int % 16),
        hex_char_spec(c.a as int / 16), hex_char_spec(c.a as int % 16),
    ]
}

/// The single-character string for a hex digit value.
pub(crate) fn hex_char_str(v: u8) -> (r: &'static str)
    requires
        v < 16,
    ensures
        r@.len() == 1,
        r@[0] == hex_char_spec(v as int),
{
    proof {
        reveal_strlit("0"); reveal_strlit("1"); reveal_strlit("2");
        reveal_strlit("3"); reveal_strlit("4"); reveal_strlit("5");
        reveal_strlit("6"); reveal_strlit("7"); reveal_strlit("8");
        reveal_strlit("9"); reveal_strlit("a"); reveal_strlit("b");
        reveal_strlit("c"); reveal_strlit("d"); reveal_strlit("e");
        reveal_strlit("f");
    }
    match v {
        0 => "0", 1 => "1", 2 => "2", 3 => "3",
        4 => "4", 5 => "5", 6 => "6", 7 => "7",
        8 => "8", 9 => "9", 10 => "a", 11 => "b",
        12 => "c", 13 => "d", 14 => "e", _ => "f",
    }
}

/// The numeric value of a hex digit character, `None` for any other.
fn hex_val(c: char) -> (r: Option<u8>)
    ensures
        match r {
            Some(v) => v < 16 && hex_val_spec(c) == v as int,
            None => !is_hex_digit(c),
        },
{
    let u = c as u32;
    if ('0' as u32) <= u && u <= ('9' as u32) {
        Some((u - ('0' as u32)) as u8)
    } else if ('a' as u32) <= u && u <= ('f' as u32) {
        Some((10 + u - ('a' as u32)) as u8)
    } else if ('A' as u32) <= u && u <= ('F' as u32) {
        Some((10 + u - ('A' as u32)) as u8)
    } else {
        None
    }
}

impl Color {
    /// The canonical eight-digit lowercase hex form of this color.
    pub fn into_hex_str(self) -> (r: String)
        ensures
            r@ == color_hex_seq(self),
    {
        let mut s = String::new();
        s.append(hex_char_str(self.r / 16));
        s.append(hex_char_str(self.r % 16));
        s.append(hex_char_str(self.g / 16));
        s.append(hex_char_str(self.g % 16));
        s.append(hex_char_str(self.b / 16));
        s.append(hex_char_str(self.b % 16));
        s.append(hex_char_str(self.a / 16));
        s.append(hex_char_str(self.a % 16));
        proof {
            assert(s@ =~= color_hex_seq(self));
        }
        s
    }

    /// Parses a 6- or 8-digit hex string; with 6 digits the alpha channel
    /// defaults to 255.  Returns `LengthError` for any other length and
    /// `ParseIntError` when a character is not a hex digit.
    pub fn from_hex_str(s: &str) -> (r: Result<Color, ParseColorError>)
        ensures
            match r {
                Ok(c) => spec_parse_color(s@) == Some(c),
                Err(e) => {
                    &&& spec_parse_color(s@) is None
                    &&& if s@.len() != 6 && s@.len() != 8 {
                        e == ParseColorError::LengthError((s@.len() as usize))
                    } else {
                        e is ParseIntError
                            && exists|i: int| 0 <= i < s@.len() && !is_hex_digit(s@[i])
                    }
                },
            },
    {
        let n = s.unicode_len();
        if n != 6 && n != 8 {
            return Err(ParseColorError::LengthError(n));
        }
        let mut vals: Vec<u8> = Vec::new();
        let mut i: usize = 0;
        while i < n
            invariant
                n == s@.len(),
                n == 6 || n == 8,
                i <= n,
                vals@.len() == i,
                forall|j: int| 0 <= j < i ==> {
                    &&& is_hex_digit(#[trigger] s@[j])
                    &&& vals@[j] as int == hex_val_spec(s@[j])
                    &&& vals@[j] < 16
                },
            decreases n - i,
        {
            let c = s.get_char(i);
            match hex_val(c) {
                Some(v) => {
                    vals.push(v);
                    proof {
                        assert forall|j: int| 0 <= j < i + 1 implies {
                            &&& is_hex_digit(#[trigger] s@[j])
                            &&& vals@[j] as int == hex_val_spec(s@[j])
                            &&& vals@[j] < 16
                        } by {
                            if j == i {
                                assert(s@[j] == c);
                            } else {
                                assert(is_hex_digit(s@[j]));
                            }
                        }
                    }
                },
                None => {
                    return Err(ParseColorError::ParseIntError);
                },
            }
            i += 1;
        }
        let r = vals[0] * 16 + vals[1];
        let g = vals[2] * 16 + vals[3];
        let b = vals[4] * 16 + vals[5];
        let a = if n == 6 { 255 } else { vals[6] * 16 + vals[7] };
        Ok(Color { r, g, b, a })
    }
}

/// Relies on `rand::random::<u8>`: a uniformly drawn byte.  Nothing is
/// promised of the value.
#[verifier::external_body]
fn random_u8() -> u8 {
    rand::random::<u8>()
}

impl Color {
    /// A color with four random channels, used to theme collections created
    /// during a source-tree walk.
    pub fn random() -> Color {
        Color { r: random_u8(), g: random_u8(), b: random_u8(), a: random_u8() }
    }
}

/// A hex digit's value re-encodes to its own lowercase form.
proof fn lemma_hex_digit_lower(c: char)
    requires
        is_hex_digit(c),
    ensures
        0 <= hex_val_spec(c) < 16,
{
}

/// Splitting a two-digit byte back into digits recovers the digit values.
proof fn lemma_byte_split(v1: int, v2: int)
    requires
        0 <= v1 < 16,
        0 <= v2 < 16,
    ensures
        (v1 * 16 + v2) / 16 == v1,
        (v1 * 16 + v2) % 16 == v2,
{
    assert((v1 * 16 + v2) / 16 == v1 && (v1 * 16 + v2) % 16 == v2) by (nonlinear_arith)
        requires 0 <= v1 < 16 && 0 <= v2 < 16;
}

/// Color round trip: every valid 6- or 8-digit hex string parses, and
/// re-encoding the parsed color yields the canonical lowercase eight-digit
/// form — the lowercased input, with `ff` appended when the input had six
/// digits.
pub proof fn lemma_color_hex_round_trip(s: Seq<char>)
    requires
        valid_hex_str(s),
    ensures
        spec_parse_color(s) is Some,
        color_hex_seq(spec_parse_color(s)->Some_0) =~= {
            let lowered = Seq::new(s.len(), |i: int| hex_char_spec(hex_val_spec(s[i])));
            if s.len() == 6 { lowered + seq!['f', 'f'] } else { lowered }
        },
{
    let c = spec_parse_color(s)->Some_0;
    assert forall|i: int| 0 <= i < s.len() implies 0 <= hex_val_spec(#[trigger] s[i]) < 16 by {
        lemma_hex_digit_lower(s[i]);
    }
    lemma_byte_split(hex_val_spec(s[0]), hex_val_spec(s[1]));
    lemma_byte_split(hex_val_spec(s[2]), hex_val_spec(s[3]));
    lemma_byte_split(hex_val_spec(s[4]), hex_val_spec(s[5]));
    if s.len() == 8 {
        lemma_byte_split(hex_val_spec(s[6]), hex_val_spec(s[7]));
    } else {
        assert(255int / 16 == 15 && 255int % 16 == 15);
    }
}

} // verus!
