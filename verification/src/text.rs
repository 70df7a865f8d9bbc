//! Character-level helpers: decimal rendering of integers and hexadecimal
//! digits, with executable functions proved against their spec counterparts.
use vstd::prelude::*;

verus! {

/// The character for a single decimal digit value.
pub open spec fn digit_char(d: int) -> char {
    ((48 + d) as u8) as char
}

/// The decimal rendering of a non-negative integer, most significant digit
/// first, with no leading zeros (the rendering of 0 is "0").
pub open spec fn decimal_of(n: int) -> Seq<char>
    decreases n,
{
    if n < 10 {
        seq![digit_char(if n < 0 { 0 } else { n })]
    } else {
        decimal_of(n / 10) + seq![digit_char(n % 10)]
    }
}

/// Whether a character is an ASCII hexadecimal digit.
pub open spec fn is_hex_digit(c: char) -> bool {
    (48 <= c as u32 <= 57) || (97 <= c as u32 <= 102) || (65 <= c as u32 <= 70)
}

/// The value of an ASCII hexadecimal digit.
pub open spec fn hex_digit_val(c: char) -> int {
    if 48 <= c as u32 <= 57 {
        c as u32 - 48
    } else if 97 <= c as u32 <= 102 {
        c as u32 - 87
    } else {
        c as u32 - 55
    }
}

/// Parses one hexadecimal digit.
pub fn hex_digit(c: char) -> (r: u8)
    requires
        is_hex_digit(c),
    ensures
        r as int == hex_digit_val(c),
{
    let u: u32 = c as u32;
    if 48 <= u && u <= 57 {
        (u - 48) as u8
    } else if 97 <= u && u <= 102 {
        (u - 87) as u8
    } else {
        (u - 55) as u8
    }
}

/// The extension hidden in a file name: what follows the last dot, provided
/// that dot is neither the first character nor absent. A name with a single
/// leading dot has no extension.
pub open spec fn ext_from(s: Seq<char>, p: int) -> Option<Seq<char>>
    decreases p,
{
    if p <= 0 {
        None
    } else if s[p] == '.' {
        Some(s.subrange(p + 1, s.len() as int))
    } else {
        ext_from(s, p - 1)
    }
}

/// The extension of a file name, if any.
pub open spec fn ext_of(s: Seq<char>) -> Option<Seq<char>> {
    if s.len() == 0 {
        None
    } else {
        ext_from(s, s.len() - 1)
    }
}

/// Finds the extension of a file name.
pub fn extension_of(name: &str) -> (r: Option<String>)
    ensures
        match r {
            Some(e) => ext_of(name@) == Some(e@),
            None => ext_of(name@) is None,
        },
{
    let n: usize = name.unicode_len();
    if n == 0 {
        return None;
    }
    let mut p: usize = n - 1;
    while p > 0
        invariant
            n == name@.len(),
            0 <= p <= n - 1,
            ext_from(name@, n - 1) == ext_from(name@, p as int),
        decreases p,
    {
        if name.get_char(p) == '.' {
            let e: String = name.substring_char(p + 1, n).to_owned();
            return Some(e);
        }
        p -= 1;
    }
    None
}

/// Compares two string slices character by character.
pub fn str_eq(a: &str, b: &str) -> (r: bool)
    ensures
        r == (a@ == b@),
{
    let n: usize = a.unicode_len();
    let m: usize = b.unicode_len();
    if n != m {
        return false;
    }
    let mut i: usize = 0;
    while i < n
        invariant
            n == a@.len(),
            n == b@.len(),
            0 <= i <= n,
            forall|j: int| 0 <= j < i ==> a@[j] == b@[j],
        decreases n - i,
    {
        if a.get_char(i) != b.get_char(i) {
            return false;
        }
        i += 1;
    }
    proof {
        assert(a@ =~= b@);
    }
    true
}

/// The string of one decimal digit.
pub fn digit_str(d: u8) -> (r: &'static str)
    requires
        d < 10,
    ensures
        r@ == seq![digit_char(d as int)],
{
    proof {
        reveal_strlit("0");
        reveal_strlit("1");
        reveal_strlit("2");
        reveal_strlit("3");
        reveal_strlit("4");
        reveal_strlit("5");
        reveal_strlit("6");
        reveal_strlit("7");
        reveal_strlit("8");
        reveal_strlit("9");
    }
    match d {
        0 => "0",
        1 => "1",
        2 => "2",
        3 => "3",
        4 => "4",
        5 => "5",
        6 => "6",
        7 => "7",
        8 => "8",
        _ => "9",
    }
}

/// The decimal rendering of an unsigned integer.
pub fn decimal_string(n: u32) -> (r: String)
    ensures
        r@ == decimal_of(n as int),
    decreases n,
{
    if n < 10 {
        digit_str(n as u8).to_owned()
    } else {
        let prefix = decimal_string(n / 10);
        prefix.concat(digit_str((n % 10) as u8))
    }
}

} // verus!
