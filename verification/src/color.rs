//! RGB colours parsed from hexadecimal configuration strings, and ANSI
//! escape-sequence painting of text through the `ansi_term` crate.
use vstd::prelude::*;
use crate::text::{decimal_of, hex_digit, hex_digit_val, is_hex_digit};
use vstd::string::StrSliceExecFns;

verus! {

/// A 24-bit RGB colour.
#[derive(Clone, Copy, PartialEq, Eq, Structural, Debug)]
pub struct Color {
    pub red: u8,
    pub green: u8,
    pub blue: u8,
}

/// Whether a colour string starts with six hexadecimal digits.
pub open spec fn valid_hex6(s: Seq<char>) -> bool {
    s.len() >= 6 && forall|i: int| 0 <= i < 6 ==> is_hex_digit(#[trigger] s[i])
}

/// The colour denoted by the first six hexadecimal digits of a string.
pub open spec fn spec_hex_color(s: Seq<char>) -> Color {
    Color {
        red: (hex_digit_val(s[0]) * 16 + hex_digit_val(s[1])) as u8,
        green: (hex_digit_val(s[2]) * 16 + hex_digit_val(s[3])) as u8,
        blue: (hex_digit_val(s[4]) * 16 + hex_digit_val(s[5])) as u8,
    }
}

/// Reads an "RRGGBB" hexadecimal colour string.
pub fn hex_to_color(hex: &str) -> (c: Color)
    requires
        valid_hex6(hex@),
    ensures
        c == spec_hex_color(hex@),
{
    let red: u8 = 16 * hex_digit(hex.get_char(0)) + hex_digit(hex.get_char(1));
    let green: u8 = 16 * hex_digit(hex.get_char(2)) + hex_digit(hex.get_char(3));
    let blue: u8 = 16 * hex_digit(hex.get_char(4)) + hex_digit(hex.get_char(5));
    Color { red, green, blue }
}

/// The text produced by painting `text` with an RGB foreground colour and no
/// other style attribute: a colour prefix, the text, then the reset code.
pub open spec fn ansi_painted(col: Color, text: Seq<char>) -> Seq<char> {
    seq!['\u{1b}', '[', '3', '8', ';', '2', ';'] + decimal_of(col.red as int) + seq![';']
        + decimal_of(col.green as int) + seq![';'] + decimal_of(col.blue as int) + seq!['m'] + text
        + seq!['\u{1b}', '[', '0', 'm']
}

/// Relies on `ansi_term`: painting a string with `Colour::RGB(r, g, b).normal()`
/// writes the prefix `ESC[38;2;<r>;<g>;<b>m` (decimal colour components), then
/// the text, then the reset code `ESC[0m`.
#[verifier::external_body]
pub fn paint_rgb(col: Color, text: &str) -> (r: String)
    ensures
        r@ == ansi_painted(col, text@),
{
    format!("{}", ansi_term::Colour::RGB(col.red, col.green, col.blue).normal().paint(text))
}

} // verus!
