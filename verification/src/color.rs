//! Resolution of an author-supplied color hint to a terminal color.
//!
//! A hint is an optional byte string, expected to be a six-hex-digit
//! literal with an optional leading `#`. Anything else falls back to one
//! of two fixed constants: a neutral gray when the digit count is wrong
//! or the hint is absent, and a bright-white palette entry when the
//! length is right but a digit is not hexadecimal.

use vstd::prelude::*;

verus! {

/// A resolved terminal color: a 24-bit RGB triple or an indexed palette
/// entry. A pure value, copied freely.
#[derive(Clone, Copy, PartialEq, Eq, Structural, Debug)]
pub enum TerminalColor {
    Rgb(u8, u8, u8),
    Indexed(u8),
}

/// The neutral gray returned when a hint is absent or not six digits long.
pub open spec fn neutral_gray() -> TerminalColor {
    TerminalColor::Rgb(100, 100, 100)
}

/// The bright-white palette entry returned when a six-character hint
/// holds a non-hexadecimal digit.
pub open spec fn fallback_indexed() -> TerminalColor {
    TerminalColor::Indexed(15)
}

/// True of the ASCII bytes `0`-`9`, `a`-`f` and `A`-`F`.
pub open spec fn is_hex_digit(b: u8) -> bool {
    (48 <= b && b <= 57) || (97 <= b && b <= 102) || (65 <= b && b <= 70)
}

/// Numeric value of one hex digit.
pub open spec fn hex_val(b: u8) -> u8 {
    if 48 <= b && b <= 57 {
        (b - 48) as u8
    } else if 97 <= b && b <= 102 {
        (b - 87) as u8
    } else {
        (b - 55) as u8
    }
}

/// The hint with one leading `#` removed, if present.
pub open spec fn stripped(h: Seq<u8>) -> Seq<u8> {
    if h.len() > 0 && h[0] == 35 {
        h.skip(1)
    } else {
        h
    }
}

/// True when every byte of `s` is a hex digit.
pub open spec fn all_hex(s: Seq<u8>) -> bool {
    forall|i: int| 0 <= i < s.len() ==> is_hex_digit(#[trigger] s[i])
}

/// Value of the `i`-th two-digit pair of `s`.
pub open spec fn pair_val(s: Seq<u8>, i: int) -> u8 {
    (hex_val(s[2 * i]) * 16 + hex_val(s[2 * i + 1])) as u8
}

/// The color a hint resolves to: the parsed RGB triple of a valid
/// six-hex-digit string, the neutral gray when the hint is absent or of
/// the wrong length, and the indexed fallback when a digit is invalid.
pub open spec fn resolve_spec(hint: Option<Seq<u8>>) -> TerminalColor {
    match hint {
        None => neutral_gray(),
        Some(h) => {
            let s = stripped(h);
            if s.len() != 6 {
                neutral_gray()
            } else if all_hex(s) {
                TerminalColor::Rgb(pair_val(s, 0), pair_val(s, 1), pair_val(s, 2))
            } else {
                fallback_indexed()
            }
        },
    }
}

/// The model of an optional hint held in a `Vec`.
pub open spec fn hint_model(hint: Option<Vec<u8>>) -> Option<Seq<u8>> {
    match hint {
        Some(v) => Some(v@),
        None => None,
    }
}

/// Whether `b` is an ASCII hex digit.
fn hex_digit(b: u8) -> (r: bool)
    ensures
        r == is_hex_digit(b),
{
    (48 <= b && b <= 57) || (97 <= b && b <= 102) || (65 <= b && b <= 70)
}

/// Numeric value of the hex digit `b`.
fn hex_value(b: u8) -> (v: u8)
    requires
        is_hex_digit(b),
    ensures
        v == hex_val(b),
        v <= 15,
{
    if 48 <= b && b <= 57 {
        b - 48
    } else if 97 <= b && b <= 102 {
        b - 87
    } else {
        b - 55
    }
}

/// Maps an optional color hint to a terminal color. Total: a valid
/// six-hex-digit hint (with or without a leading `#`) parses to its RGB
/// triple, any other hint falls back to a fixed constant.
pub fn resolve(hint: &Option<Vec<u8>>) -> (c: TerminalColor)
    ensures
        c == resolve_spec(hint_model(*hint)),
{
    match hint {
        None => TerminalColor::Rgb(100, 100, 100),
        Some(h) => {
            let start: usize = if h.len() > 0 && h[0] == 35 {
                1
            } else {
                0
            };
            let ghost s = stripped(h@);
            assert(s =~= h@.skip(start as int));
            if h.len() - start != 6 {
                return TerminalColor::Rgb(100, 100, 100);
            }
            let mut i: usize = 0;
            while i < 6
                invariant
                    hint_model(*hint) == Some(h@),
                    s == stripped(h@),
                    s == h@.skip(start as int),
                    s.len() == 6,
                    start + 6 == h.len(),
                    i <= 6,
                    forall|j: int| 0 <= j < i ==> is_hex_digit(#[trigger] s[j]),
                decreases 6 - i,
            {
                if !hex_digit(h[start + i]) {
                    assert(!all_hex(s)) by {
                        assert(!is_hex_digit(s[i as int]));
                    }
                    return TerminalColor::Indexed(15);
                }
                i += 1;
            }
            assert(all_hex(s));
            let r = hex_value(h[start]) * 16 + hex_value(h[start + 1]);
            let g = hex_value(h[start + 2]) * 16 + hex_value(h[start + 3]);
            let b = hex_value(h[start + 4]) * 16 + hex_value(h[start + 5]);
            TerminalColor::Rgb(r, g, b)
        },
    }
}

/// Resolution is pure: equal hints always resolve to equal colors, with
/// no hidden state.
pub proof fn lemma_resolve_deterministic(h1: Option<Seq<u8>>, h2: Option<Seq<u8>>)
    requires
        h1 == h2,
    ensures
        resolve_spec(h1) == resolve_spec(h2),
{
}

/// Every six-hex-digit hint resolves to the RGB triple of its parsed
/// byte pairs; every other hint resolves to one of the two fixed
/// fallback constants.
pub proof fn lemma_resolve_total(hint: Option<Seq<u8>>)
    ensures
        hint is Some && stripped(hint->0).len() == 6 && all_hex(stripped(hint->0)) ==> resolve_spec(
            hint,
        ) == TerminalColor::Rgb(
            pair_val(stripped(hint->0), 0),
            pair_val(stripped(hint->0), 1),
            pair_val(stripped(hint->0), 2),
        ),
        !(hint is Some && stripped(hint->0).len() == 6 && all_hex(stripped(hint->0)))
            ==> resolve_spec(hint) == neutral_gray() || resolve_spec(hint) == fallback_indexed(),
{
}

} // verus!
