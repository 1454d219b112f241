//! Run configuration: the seeding mode of the simulation and the
//! background colour applied to finished frames, each parsed from the
//! loose text a command line hands over.

use vstd::prelude::*;
use std::str::FromStr;

verus! {

/// How the initial universe is seeded from the source raster.
#[derive(Debug, Clone, Copy, PartialEq, Eq, Structural)]
pub enum Mode {
    /// Life starts on the lightest pixels only.
    Light,
    /// Life starts on the darkest pixels only.
    Dark,
    /// Life starts on randomly drawn cells.
    Random,
}

/// The string did not name any seeding mode.
#[derive(Debug)]
pub struct ParseModeError {}

/// The flat colour composited behind finished frames.
#[derive(Debug, Clone, Copy, PartialEq, Eq)]
pub enum BackgroundColour {
    Black,
    White,
    Custom((u8, u8, u8)),
}

/// Layout characters that parsing ignores: the whitespace of the ASCII
/// range.
pub open spec fn is_space(c: char) -> bool {
    c == ' ' || c == '\t' || c == '\n' || c == '\r' || c == '\u{b}' || c == '\u{c}'
}

/// An ASCII capital letter folded to its small form; any other
/// character stays itself.
pub open spec fn lower_char(c: char) -> char {
    match c {
        'A' => 'a',
        'B' => 'b',
        'C' => 'c',
        'D' => 'd',
        'E' => 'e',
        'F' => 'f',
        'G' => 'g',
        'H' => 'h',
        'I' => 'i',
        'J' => 'j',
        'K' => 'k',
        'L' => 'l',
        'M' => 'm',
        'N' => 'n',
        'O' => 'o',
        'P' => 'p',
        'Q' => 'q',
        'R' => 'r',
        'S' => 's',
        'T' => 't',
        'U' => 'u',
        'V' => 'v',
        'W' => 'w',
        'X' => 'x',
        'Y' => 'y',
        'Z' => 'z',
        _ => c,
    }
}

/// The string with its layout characters dropped.
pub open spec fn strip_spaces(s: Seq<char>) -> Seq<char>
    decreases s.len(),
{
    if s.len() == 0 {
        Seq::empty()
    } else {
        strip_spaces(s.drop_last()) + (if is_space(s.last()) {
            Seq::<char>::empty()
        } else {
            seq![s.last()]
        })
    }
}

/// The string with its layout characters dropped and the rest folded to
/// small letters: the normal form the parsers compare against.
pub open spec fn normalize(s: Seq<char>) -> Seq<char>
    decreases s.len(),
{
    if s.len() == 0 {
        Seq::empty()
    } else {
        normalize(s.drop_last()) + (if is_space(s.last()) {
            Seq::<char>::empty()
        } else {
            seq![lower_char(s.last())]
        })
    }
}

/// Which seeding mode a string names, if any: "dark"/"d", "light"/"l"
/// or "random"/"r", ignoring case and layout characters.
pub open spec fn mode_of(s: Seq<char>) -> Option<Mode> {
    let n = normalize(s);
    if n == "dark"@ || n == "d"@ {
        Some(Mode::Dark)
    } else if n == "light"@ || n == "l"@ {
        Some(Mode::Light)
    } else if n == "random"@ || n == "r"@ {
        Some(Mode::Random)
    } else {
        None
    }
}

/// The character is one of the sixteen hexadecimal digits, either case.
pub open spec fn is_hex_digit(c: char) -> bool {
    let u = c as u32;
    (48 <= u && u <= 57) || (97 <= u && u <= 102) || (65 <= u && u <= 70)
}

/// The numeric value of a hexadecimal digit.
pub open spec fn hex_val(c: char) -> int {
    let u = c as u32;
    if 48 <= u && u <= 57 {
        u - 48
    } else if 97 <= u && u <= 102 {
        u - 87
    } else {
        u - 55
    }
}

/// The code with one leading '#' removed, if it carries one.
pub open spec fn strip_hash(s: Seq<char>) -> Seq<char> {
    if s.len() > 0 && s[0] == '#' {
        s.skip(1)
    } else {
        s
    }
}

/// The code parses as a colour: after the optional '#', exactly 3, 6 or
/// 8 hexadecimal digits.
pub open spec fn hex_shape_ok(s: Seq<char>) -> bool {
    let t = strip_hash(s);
    &&& (t.len() == 3 || t.len() == 6 || t.len() == 8)
    &&& forall|i: int| 0 <= i < t.len() ==> is_hex_digit(#[trigger] t[i])
}

/// The channel bytes of a well-shaped code: 3 digits double into pairs,
/// 6 or more read pairwise, and any digits past the sixth are ignored.
pub open spec fn hex_colour(s: Seq<char>) -> (u8, u8, u8) {
    let t = strip_hash(s);
    if t.len() == 3 {
        ((17 * hex_val(t[0])) as u8, (17 * hex_val(t[1])) as u8, (17 * hex_val(t[2])) as u8)
    } else {
        (
            (16 * hex_val(t[0]) + hex_val(t[1])) as u8,
            (16 * hex_val(t[2]) + hex_val(t[3])) as u8,
            (16 * hex_val(t[4]) + hex_val(t[5])) as u8,
        )
    }
}

/// Which background colour a string names, if any: "black"/"b" or
/// "white"/"w" ignoring case and layout characters, or else a
/// well-shaped hexadecimal colour code.
pub open spec fn bg_colour_of(s: Seq<char>) -> Option<BackgroundColour> {
    let n = normalize(s);
    let t = strip_spaces(s);
    if n == "black"@ || n == "b"@ {
        Some(BackgroundColour::Black)
    } else if n == "white"@ || n == "w"@ {
        Some(BackgroundColour::White)
    } else if hex_shape_ok(t) {
        Some(BackgroundColour::Custom(hex_colour(t)))
    } else {
        None
    }
}

/// The complaint a string that names no colour earns: an empty string
/// is reported as empty, everything else as an invalid code.
pub open spec fn bg_err_of(s: Seq<char>) -> Seq<char> {
    if strip_spaces(s).len() == 0 {
        "hexcode is empty."@
    } else {
        "Invalid hexadecimal color code representation."@
    }
}

/// Relies on `String::push`: appends the character to the end of the
/// string.
#[verifier::external_body]
fn push_char(s: &mut String, c: char)
    ensures
        final(s)@ == old(s)@.push(c),
{
    s.push(c);
}

/// Relies on `hex_rgb::convert_hexcode_to_rgb`: a code of exactly 3, 6
/// or 8 hexadecimal digits after an optional '#' parses to its first
/// three channel bytes, with 3 shorthand digits doubling into pairs.
#[verifier::external_body]
fn hex_to_rgb(code: String) -> (result: Result<(u8, u8, u8), String>)
    requires
        hex_shape_ok(code@),
    ensures
        result is Ok,
        result matches Ok(c) ==> c == hex_colour(code@),
{
    match hex_rgb::convert_hexcode_to_rgb(code) {
        Ok(c) => Ok((c.red, c.green, c.blue)),
        Err(e) => Err(e),
    }
}

/// The layout character test, in executable form.
fn is_space_char(c: char) -> (b: bool)
    ensures
        b == is_space(c),
{
    c == ' ' || c == '\t' || c == '\n' || c == '\r' || c == '\u{b}' || c == '\u{c}'
}

/// ASCII lowercasing of one character, in executable form.
fn to_lower_char(c: char) -> (r: char)
    ensures
        r == lower_char(c),
{
    match c {
        'A' => 'a',
        'B' => 'b',
        'C' => 'c',
        'D' => 'd',
        'E' => 'e',
        'F' => 'f',
        'G' => 'g',
        'H' => 'h',
        'I' => 'i',
        'J' => 'j',
        'K' => 'k',
        'L' => 'l',
        'M' => 'm',
        'N' => 'n',
        'O' => 'o',
        'P' => 'p',
        'Q' => 'q',
        'R' => 'r',
        'S' => 's',
        'T' => 't',
        'U' => 'u',
        'V' => 'v',
        'W' => 'w',
        'X' => 'x',
        'Y' => 'y',
        'Z' => 'z',
        _ => c,
    }
}

/// Both normal forms of the input in one pass: the lowercased,
/// space-free characters for keyword comparison, and the space-free
/// string as handed to the hexadecimal parser.
fn condense(s: &str) -> (out: (Vec<char>, String))
    ensures
        out.0@ == normalize(s@),
        out.1@ == strip_spaces(s@),
{
    let n = s.unicode_len();
    let mut low: Vec<char> = Vec::new();
    let mut kept = String::new();
    let mut i: usize = 0;
    while i < n
        invariant
            n == s@.len(),
            i <= n,
            low@ == normalize(s@.take(i as int)),
            kept@ == strip_spaces(s@.take(i as int)),
        decreases n - i,
    {
        let c = s.get_char(i);
        if !is_space_char(c) {
            low.push(to_lower_char(c));
            push_char(&mut kept, c);
        }
        proof {
            assert(s@.take(i + 1).drop_last() =~= s@.take(i as int));
            assert(s@.take(i + 1).last() == s@[i as int]);
            assert(low@ =~= normalize(s@.take(i + 1)));
            assert(kept@ =~= strip_spaces(s@.take(i + 1)));
        }
        i = i + 1;
    }
    proof {
        assert(s@.take(n as int) =~= s@);
    }
    (low, kept)
}

/// Whether the collected characters spell exactly the given pattern.
fn chars_match(v: &Vec<char>, pat: &str) -> (b: bool)
    ensures
        b == (v@ == pat@),
{
    let m = pat.unicode_len();
    if v.len() != m {
        proof {
            assert(v@.len() != pat@.len());
        }
        return false;
    }
    let mut i: usize = 0;
    while i < m
        invariant
            m == pat@.len(),
            v@.len() == m,
            i <= m,
            forall|j: int| 0 <= j < i ==> v@[j] == pat@[j],
        decreases m - i,
    {
        if v[i] != pat.get_char(i) {
            return false;
        }
        i = i + 1;
    }
    proof {
        assert(v@ =~= pat@);
    }
    true
}

/// The hexadecimal shape test, in executable form.
fn hex_shape(t: &String) -> (b: bool)
    ensures
        b == hex_shape_ok(t@),
{
    let ts = t.as_str();
    let n = ts.unicode_len();
    let start: usize = if n > 0 && ts.get_char(0) == '#' {
        1
    } else {
        0
    };
    let ghost tv = strip_hash(t@);
    proof {
        assert(tv =~= t@.skip(start as int));
    }
    let digits = n - start;
    if digits != 3 && digits != 6 && digits != 8 {
        return false;
    }
    let mut i: usize = start;
    while i < n
        invariant
            ts@ == t@,
            n == t@.len(),
            start <= i <= n,
            start <= 1,
            tv == strip_hash(t@),
            tv =~= t@.skip(start as int),
            forall|j: int| 0 <= j < i - start ==> is_hex_digit(#[trigger] tv[j]),
        decreases n - i,
    {
        let c = ts.get_char(i);
        let u = c as u32;
        let hex = (48 <= u && u <= 57) || (97 <= u && u <= 102) || (65 <= u && u <= 70);
        if !hex {
            proof {
                assert(tv[i - start as int] == t@[i as int]);
                assert(!is_hex_digit(tv[i - start as int]));
            }
            return false;
        }
        proof {
            assert(tv[i - start as int] == t@[i as int]);
        }
        i = i + 1;
    }
    true
}

impl Mode {
    /// Parse a seeding mode from loose text: "dark"/"d", "light"/"l" or
    /// "random"/"r", ignoring case and layout characters; anything else
    /// is no mode.
    pub fn parse(s: &str) -> (result: Result<Mode, ParseModeError>)
        ensures
            match result {
                Ok(m) => mode_of(s@) == Some(m),
                Err(_) => mode_of(s@) is None,
            },
    {
        let (low, _kept) = condense(s);
        if chars_match(&low, "dark") || chars_match(&low, "d") {
            Ok(Mode::Dark)
        } else if chars_match(&low, "light") || chars_match(&low, "l") {
            Ok(Mode::Light)
        } else if chars_match(&low, "random") || chars_match(&low, "r") {
            Ok(Mode::Random)
        } else {
            Err(ParseModeError {})
        }
    }

    /// The lowercase name of the mode.
    pub fn to_string(&self) -> (s: String)
        ensures
            self is Dark ==> s@ == "dark"@,
            self is Light ==> s@ == "light"@,
            self is Random ==> s@ == "random"@,
    {
        match self {
            Mode::Dark => "dark".to_owned(),
            Mode::Light => "light".to_owned(),
            Mode::Random => "random".to_owned(),
        }
    }
}

impl FromStr for Mode {
    type Err = ParseModeError;

    fn from_str(s: &str) -> Result<Self, Self::Err> {
        Mode::parse(s)
    }
}

impl BackgroundColour {
    /// Parse a background colour from loose text: "black"/"b" or
    /// "white"/"w" ignoring case and layout characters, or else a
    /// hexadecimal colour code handed to the hex parser; anything else
    /// earns the parser's complaint.
    pub fn parse(s: &str) -> (result: Result<BackgroundColour, String>)
        ensures
            match result {
                Ok(c) => bg_colour_of(s@) == Some(c),
                Err(e) => bg_colour_of(s@) is None && e@ == bg_err_of(s@),
            },
    {
        let (low, kept) = condense(s);
        if chars_match(&low, "black") || chars_match(&low, "b") {
            return Ok(BackgroundColour::Black);
        }
        if chars_match(&low, "white") || chars_match(&low, "w") {
            return Ok(BackgroundColour::White);
        }
        if hex_shape(&kept) {
            match hex_to_rgb(kept) {
                Ok(c) => Ok(BackgroundColour::Custom(c)),
                Err(e) => Err(e),
            }
        } else if kept.as_str().unicode_len() == 0 {
            Err("hexcode is empty.".to_owned())
        } else {
            Err("Invalid hexadecimal color code representation.".to_owned())
        }
    }
}

impl FromStr for BackgroundColour {
    type Err = String;

    fn from_str(s: &str) -> Result<Self, Self::Err> {
        BackgroundColour::parse(s)
    }
}

impl Default for BackgroundColour {
    /// The default background is black.
    fn default() -> (c: Self)
        ensures
            c is Black,
    {
        BackgroundColour::Black
    }
}

} // verus!
