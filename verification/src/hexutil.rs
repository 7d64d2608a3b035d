//! Hexadecimal text utilities: offsets written in decimal or `0x` hex, hex
//! strings to bytes and back, and the printable-character filter of the dump
//! view.

use vstd::prelude::*;

verus! {

use vstd::string::{StringSliceAdditionalSpecFns, StringExecFns};
use vstd::slice::slice_subrange;
use crate::errors::ParseError;

/// The dump's character for a byte: the byte itself if printable ASCII,
/// otherwise a dot.
pub fn is_printable(b: u8) -> (c: char)
    ensures
        c == (if 32 <= b < 127 {
            b as char
        } else {
            '.'
        }),
{
    if b >= 32 && b < 127 {
        b as char
    } else {
        '.'
    }
}

/// Is `b` the ASCII code of a hexadecimal digit?
pub open spec fn is_hex_digit(b: u8) -> bool {
    (48 <= b <= 57) || (97 <= b <= 102) || (65 <= b <= 70)
}

/// Numeric value of a digit's ASCII code (decimal digits included).
pub open spec fn hex_digit_value(b: u8) -> u8 {
    if 48 <= b <= 57 {
        (b - 48) as u8
    } else if 97 <= b <= 102 {
        (b - 87) as u8
    } else {
        (b - 55) as u8
    }
}

/// The input with every blank (ASCII space) removed.
pub open spec fn strip_spaces(s: Seq<u8>) -> Seq<u8>
    decreases s.len(),
{
    if s.len() == 0 {
        Seq::empty()
    } else {
        let p = strip_spaces(s.drop_last());
        if s.last() == 32 {
            p
        } else {
            p.push(s.last())
        }
    }
}

/// Every byte of `s` is a hex digit.
pub open spec fn all_hex_digits(s: Seq<u8>) -> bool {
    forall|i: int| 0 <= i < s.len() ==> is_hex_digit(s[i])
}

/// The bytes an even-length digit string encodes, two digits per byte, most
/// significant digit first.
pub open spec fn hex_pairs_value(s: Seq<u8>) -> Seq<u8> {
    Seq::new(s.len() / 2, |i: int| (hex_digit_value(s[2 * i]) * 16 + hex_digit_value(s[2 * i + 1])) as u8)
}

/// Parse one digit in `base` (10 or 16).
fn parse_digit(b: u8, base: u8) -> (r: Option<u8>)
    requires
        base == 10 || base == 16,
    ensures
        r is Some <==> (if base == 16 {
            is_hex_digit(b)
        } else {
            48 <= b <= 57
        }),
        r is Some ==> r == Some(hex_digit_value(b)) && hex_digit_value(b) < base,
{
    if b >= 48 && b <= 57 {
        Some(b - 48)
    } else if base == 16 && b >= 97 && b <= 102 {
        Some(b - 87)
    } else if base == 16 && b >= 65 && b <= 70 {
        Some(b - 55)
    } else {
        None
    }
}

/// Parse one hexadecimal digit.
pub fn parse_digit_pub(b: u8) -> (r: Option<u8>)
    ensures
        r is Some <==> is_hex_digit(b),
        r is Some ==> r == Some(hex_digit_value(b)) && hex_digit_value(b) < 16,
{
    parse_digit(b, 16)
}

/// Decode a hex string into bytes.  Blanks may separate the digits; after
/// removing them the digit count must be even, and every remaining character
/// must be a hex digit.
pub fn hex_string_to_bytes(hex_str: &str) -> (r: Result<Vec<u8>, ParseError>)
    ensures
        r is Ok <==> (strip_spaces(hex_str.spec_bytes()).len() % 2 == 0 && all_hex_digits(
            strip_spaces(hex_str.spec_bytes()),
        )),
        ({
            let t = strip_spaces(hex_str.spec_bytes());
            match r {
                Ok(v) => t.len() % 2 == 0 && all_hex_digits(t) && v@ == hex_pairs_value(t),
                Err(e) => {
                    &&& (e == ParseError::OddHexLength <==> t.len() % 2 != 0)
                    &&& (e == ParseError::InvalidHexDigit <==> (t.len() % 2 == 0
                        && !all_hex_digits(t)))
                },
            }
        }),
{
    let bytes = hex_str.as_bytes();
    let ghost full = bytes@;
    let mut stripped: Vec<u8> = Vec::new();
    let mut i: usize = 0;
    while i < bytes.len()
        invariant
            i <= full.len(),
            bytes@ == full,
            stripped@ == strip_spaces(full.subrange(0, i as int)),
        decreases full.len() - i,
    {
        let b = bytes[i];
        if b != 32 {
            stripped.push(b);
        }
        i = i + 1;
        proof {
            assert(full.subrange(0, i as int).drop_last() =~= full.subrange(0, i - 1));
        }
    }
    proof {
        assert(full.subrange(0, full.len() as int) =~= full);
    }
    let ghost t = strip_spaces(full);
    if stripped.len() % 2 != 0 {
        return Err(ParseError::OddHexLength);
    }
    let mut out: Vec<u8> = Vec::new();
    let mut j: usize = 0;
    while j < stripped.len()
        invariant
            j <= stripped@.len(),
            j % 2 == 0,
            stripped@.len() % 2 == 0,
            stripped@ == t,
            t == strip_spaces(hex_str.spec_bytes()),
            t.len() % 2 == 0,
            forall|k: int| 0 <= k < j ==> is_hex_digit(t[k]),
            out@.len() == j / 2,
            forall|k: int| 0 <= k < out@.len() ==> out@[k] == hex_pairs_value(t)[k],
        decreases stripped@.len() - j,
    {
        let hi = match parse_digit(stripped[j], 16) {
            Some(v) => v,
            None => {
                proof {
                    assert(!is_hex_digit(t[j as int]));
                }
                return Err(ParseError::InvalidHexDigit);
            },
        };
        let lo = match parse_digit(stripped[j + 1], 16) {
            Some(v) => v,
            None => {
                proof {
                    assert(!is_hex_digit(t[j + 1]));
                }
                return Err(ParseError::InvalidHexDigit);
            },
        };
        out.push(hi * 16 + lo);
        j = j + 2;
    }
    proof {
        assert(out@ =~= hex_pairs_value(t));
    }
    Ok(out)
}

/// Lowercase hex digit character for a value below sixteen.
pub open spec fn hex_char(v: u8) -> char
    recommends
        v < 16,
{
    if v == 0 {
        '0'
    } else if v == 1 {
        '1'
    } else if v == 2 {
        '2'
    } else if v == 3 {
        '3'
    } else if v == 4 {
        '4'
    } else if v == 5 {
        '5'
    } else if v == 6 {
        '6'
    } else if v == 7 {
        '7'
    } else if v == 8 {
        '8'
    } else if v == 9 {
        '9'
    } else if v == 10 {
        'a'
    } else if v == 11 {
        'b'
    } else if v == 12 {
        'c'
    } else if v == 13 {
        'd'
    } else if v == 14 {
        'e'
    } else {
        'f'
    }
}

/// The rendering of bytes as blank-separated lowercase hex pairs.
pub open spec fn hex_render(bytes: Seq<u8>) -> Seq<char>
    decreases bytes.len(),
{
    if bytes.len() == 0 {
        Seq::empty()
    } else if bytes.len() == 1 {
        seq![hex_char((bytes[0] / 16) as u8), hex_char((bytes[0] % 16) as u8)]
    } else {
        hex_render(bytes.drop_last()) + seq![
            ' ',
            hex_char((bytes.last() / 16) as u8),
            hex_char((bytes.last() % 16) as u8),
        ]
    }
}

/// The one-character string for a hex digit value.
fn hex_digit_str(v: u8) -> (r: &'static str)
    requires
        v < 16,
    ensures
        r@ =~= seq![hex_char(v)],
{
    proof {
        reveal_strlit("0");
        reveal_strlit("1");
        reveal_strlit("2");
        reveal_strlit("3");
        reveal_strlit("4");
        reveal_strlit("5");
        reveal_strlit("6");
        reveal_strlit("7");
        reveal_strlit("8");
        reveal_strlit("9");
        reveal_strlit("a");
        reveal_strlit("b");
        reveal_strlit("c");
        reveal_strlit("d");
        reveal_strlit("e");
        reveal_strlit("f");
    }
    if v == 0 {
        "0"
    } else if v == 1 {
        "1"
    } else if v == 2 {
        "2"
    } else if v == 3 {
        "3"
    } else if v == 4 {
        "4"
    } else if v == 5 {
        "5"
    } else if v == 6 {
        "6"
    } else if v == 7 {
        "7"
    } else if v == 8 {
        "8"
    } else if v == 9 {
        "9"
    } else if v == 10 {
        "a"
    } else if v == 11 {
        "b"
    } else if v == 12 {
        "c"
    } else if v == 13 {
        "d"
    } else if v == 14 {
        "e"
    } else {
        "f"
    }
}

/// Render bytes as blank-separated lowercase hex pairs.
pub fn bytes_to_hex(bytes: &[u8]) -> (r: String)
    ensures
        r@ == hex_render(bytes@),
{
    let mut s = String::new();
    let mut i: usize = 0;
    while i < bytes.len()
        invariant
            i <= bytes@.len(),
            s@ == hex_render(bytes@.subrange(0, i as int)),
        decreases bytes@.len() - i,
    {
        if i > 0 {
            s.append(" ");
            proof {
                reveal_strlit(" ");
            }
        }
        let b = bytes[i];
        s.append(hex_digit_str(b / 16));
        s.append(hex_digit_str(b % 16));
        i = i + 1;
        proof {
            assert(bytes@.subrange(0, i as int).drop_last() =~= bytes@.subrange(0, i - 1));
            assert(s@ =~= hex_render(bytes@.subrange(0, i as int)));
        }
    }
    proof {
        assert(bytes@.subrange(0, bytes@.len() as int) =~= bytes@);
    }
    s
}

/// Numeric value of a digit string, most significant digit first.
pub open spec fn digits_value(s: Seq<u8>, base: u8) -> nat
    decreases s.len(),
{
    if s.len() == 0 {
        0
    } else {
        digits_value(s.drop_last(), base) * (base as nat) + (hex_digit_value(s.last()) as nat)
    }
}

/// The text with one optional leading `+` sign removed.
pub open spec fn strip_sign(s: Seq<u8>) -> Seq<u8> {
    if s.len() > 0 && s[0] == 43 {
        s.skip(1)
    } else {
        s
    }
}

/// What parsing `s` as an unsigned number in `base` yields: its value, if
/// after the optional sign there is at least one digit, every character is a
/// digit of the base, and the value fits in 64 bits.
pub open spec fn parse_u64_spec(s: Seq<u8>, base: u8) -> Option<u64> {
    let d = strip_sign(s);
    if d.len() == 0 {
        None
    } else if !(forall|i: int|
        0 <= i < d.len() ==> (if base == 16 {
            is_hex_digit(d[i])
        } else {
            48 <= d[i] <= 57
        })) {
        None
    } else if digits_value(d, base) > u64::MAX {
        None
    } else {
        Some(digits_value(d, base) as u64)
    }
}

/// A longer digit string never has a smaller value than a prefix of it.
proof fn lemma_digits_value_prefix_le(s: Seq<u8>, i: int, base: u8)
    requires
        0 <= i <= s.len(),
        base >= 1,
    ensures
        digits_value(s.subrange(0, i), base) <= digits_value(s, base),
    decreases s.len() - i,
{
    if i < s.len() {
        lemma_digits_value_prefix_le(s, i + 1, base);
        assert(s.subrange(0, i + 1).drop_last() =~= s.subrange(0, i));
        let a = digits_value(s.subrange(0, i), base);
        assert(a * (base as nat) >= a) by (nonlinear_arith)
            requires
                base >= 1,
                a >= 0,
        ;
    } else {
        assert(s.subrange(0, i) =~= s);
    }
}

/// Parse an already sign-stripped run of digits in `base`.
fn parse_u64_digits(d: &[u8], base: u8) -> (r: Option<u64>)
    requires
        base == 10 || base == 16,
    ensures
        ({
            let whole = seq![43u8] + d@;
            r == parse_u64_spec(whole, base)
        }),
{
    proof {
        assert((seq![43u8] + d@).skip(1) =~= d@);
    }
    if d.len() == 0 {
        return None;
    }
    let mut acc: u64 = 0;
    let mut i: usize = 0;
    while i < d.len()
        invariant
            base == 10 || base == 16,
            strip_sign(seq![43u8] + d@) == d@,
            d@.len() > 0,
            i <= d@.len(),
            forall|k: int|
                0 <= k < i ==> (if base == 16 {
                    is_hex_digit(d@[k])
                } else {
                    48 <= d@[k] <= 57
                }),
            acc == digits_value(d@.subrange(0, i as int), base),
        decreases d@.len() - i,
    {
        let v = match parse_digit(d[i], base) {
            Some(v) => v,
            None => {
                proof {
                    assert(!(if base == 16 {
                        is_hex_digit(d@[i as int])
                    } else {
                        48 <= d@[i as int] <= 57
                    }));
                }
                return None;
            },
        };
        proof {
            assert(d@.subrange(0, i + 1).drop_last() =~= d@.subrange(0, i as int));
            assert(digits_value(d@.subrange(0, i + 1), base) == acc * (base as nat)
                + hex_digit_value(d@[i as int]));
        }
        let shifted = match acc.checked_mul(base as u64) {
            Some(x) => x,
            None => {
                proof {
                    lemma_digits_value_prefix_le(d@, i + 1, base);
                    assert(digits_value(d@, base) > u64::MAX);
                }
                return None;
            },
        };
        let acc2 = match shifted.checked_add(v as u64) {
            Some(x) => x,
            None => {
                proof {
                    lemma_digits_value_prefix_le(d@, i + 1, base);
                    assert(digits_value(d@, base) > u64::MAX);
                }
                return None;
            },
        };
        acc = acc2;
        i = i + 1;
    }
    proof {
        assert(d@.subrange(0, d@.len() as int) =~= d@);
    }
    Some(acc)
}

/// What parsing an offset yields: hex after a `0x` or `0X` prefix, decimal
/// otherwise.
pub open spec fn offset_spec(b: Seq<u8>) -> Option<u64> {
    if b.len() >= 2 && b[0] == 48 && (b[1] == 120 || b[1] == 88) {
        parse_u64_spec(b.skip(2), 16)
    } else {
        parse_u64_spec(b, 10)
    }
}

/// Parse a byte offset: decimal, or hexadecimal when prefixed with `0x`.
pub fn parse_offset(offset_str: &str) -> (r: Result<u64, ParseError>)
    ensures
        match r {
            Ok(v) => offset_spec(offset_str.spec_bytes()) == Some(v),
            Err(e) => e == ParseError::InvalidOffset && offset_spec(offset_str.spec_bytes())
                is None,
        },
{
    let bytes = offset_str.as_bytes();
    // 48 is `0`; 120 and 88 are `x` and `X`; 43 is `+`.
    let hex = bytes.len() >= 2 && bytes[0] == 48 && (bytes[1] == 120 || bytes[1] == 88);
    let body = if hex {
        slice_subrange(bytes, 2, bytes.len())
    } else {
        slice_subrange(bytes, 0, bytes.len())
    };
    proof {
        assert(body@ =~= (if hex {
            offset_str.spec_bytes().skip(2)
        } else {
            offset_str.spec_bytes()
        }));
    }
    let digits = if body.len() > 0 && body[0] == 43 {
        slice_subrange(body, 1, body.len())
    } else {
        slice_subrange(body, 0, body.len())
    };
    proof {
        assert(digits@ =~= strip_sign(body@));
        assert(strip_sign(seq![43u8] + digits@) =~= strip_sign(body@));
    }
    let base: u8 = if hex {
        16
    } else {
        10
    };
    match parse_u64_digits(digits, base) {
        Some(v) => Ok(v),
        None => Err(ParseError::InvalidOffset),
    }
}

/// A hex digit character is a printable ASCII hex digit: its code is a hex
/// digit byte, carries the digit's value, and is no blank.
proof fn lemma_hex_char_code(v: u8)
    requires
        v < 16,
    ensures
        is_hex_digit(hex_char(v) as u8),
        hex_digit_value(hex_char(v) as u8) == v,
        hex_char(v) as u8 != 32,
        '\0' <= hex_char(v) <= '\u{7f}',
{
}

/// The hex rendering consists of ASCII characters only.
proof fn lemma_hex_render_ascii(bytes: Seq<u8>)
    ensures
        vstd::utf8::is_ascii_chars(hex_render(bytes)),
    decreases bytes.len(),
{
    if bytes.len() > 0 {
        lemma_hex_render_ascii(bytes.drop_last());
        lemma_hex_char_code((bytes.last() / 16) as u8);
        lemma_hex_char_code((bytes.last() % 16) as u8);
        if bytes.len() == 1 {
            lemma_hex_char_code((bytes[0] / 16) as u8);
            lemma_hex_char_code((bytes[0] % 16) as u8);
        }
        assert(' ' <= '\u{7f}');
    }
}

/// Law: the hex rendering decodes back to the bytes it was rendered from.
/// The rendering's text, once its blanks are stripped, is an even run of hex
/// digits whose pair values are exactly the original bytes — so decoding a
/// rendered string is guaranteed to succeed and to restore the bytes.
pub proof fn lemma_hex_round_trip(bytes: Seq<u8>)
    ensures
        ({
            let t = strip_spaces(vstd::utf8::encode_utf8(hex_render(bytes)));
            &&& t.len() % 2 == 0
            &&& all_hex_digits(t)
            &&& hex_pairs_value(t) == bytes
        }),
    decreases bytes.len(),
{
    let cs = hex_render(bytes);
    let bs = vstd::utf8::encode_utf8(cs);
    lemma_hex_render_ascii(bytes);
    vstd::utf8::is_ascii_chars_encode_utf8(cs);
    if bytes.len() == 0 {
        assert(strip_spaces(bs) =~= Seq::<u8>::empty());
        assert(hex_pairs_value(strip_spaces(bs)) =~= bytes);
    } else {
        let x = bytes.last();
        let hb = hex_char((x / 16) as u8) as u8;
        let lb = hex_char((x % 16) as u8) as u8;
        lemma_hex_char_code((x / 16) as u8);
        lemma_hex_char_code((x % 16) as u8);
        lemma_hex_round_trip(bytes.drop_last());
        let cs0 = hex_render(bytes.drop_last());
        let bs0 = vstd::utf8::encode_utf8(cs0);
        lemma_hex_render_ascii(bytes.drop_last());
        vstd::utf8::is_ascii_chars_encode_utf8(cs0);
        let t0 = strip_spaces(bs0);
        if bytes.len() == 1 {
            // Two digit characters and nothing else.
            assert(cs =~= seq![hex_char((x / 16) as u8), hex_char((x % 16) as u8)]);
            assert(bs =~= seq![hb, lb]);
            assert(seq![hb, lb].drop_last() =~= seq![hb]);
            assert(seq![hb].drop_last() =~= Seq::<u8>::empty());
            assert(strip_spaces(seq![hb]) =~= seq![hb]);
            assert(strip_spaces(seq![hb, lb]) =~= seq![hb, lb]);
            assert(t0 =~= Seq::<u8>::empty());
            assert(strip_spaces(bs) =~= t0.push(hb).push(lb));
        } else {
            // The earlier rendering, then a blank and two digit characters.
            assert(cs =~= cs0 + seq![' ', hex_char((x / 16) as u8), hex_char((x % 16) as u8)]);
            assert(bs =~= bs0 + seq![32u8, hb, lb]);
            assert((bs0 + seq![32u8]).drop_last() =~= bs0);
            assert(strip_spaces(bs0 + seq![32u8]) =~= t0);
            assert((bs0 + seq![32u8, hb]).drop_last() =~= bs0 + seq![32u8]);
            assert(strip_spaces(bs0 + seq![32u8, hb]) =~= t0.push(hb));
            assert((bs0 + seq![32u8, hb, lb]).drop_last() =~= bs0 + seq![32u8, hb]);
            assert(strip_spaces(bs0 + seq![32u8, hb, lb]) =~= t0.push(hb).push(lb));
            assert(strip_spaces(bs) =~= t0.push(hb).push(lb));
        }
        let t = strip_spaces(bs);
        assert(t.len() == t0.len() + 2);
        assert forall|i: int| 0 <= i < t.len() implies is_hex_digit(#[trigger] t[i]) by {
            if i < t0.len() {
                assert(t[i] == t0[i]);
            }
        }
        assert(hex_pairs_value(t) =~= bytes) by {
            assert forall|i: int| 0 <= i < t.len() / 2 implies #[trigger] hex_pairs_value(t)[i]
                == bytes[i] by {
                if i < t0.len() / 2 {
                    assert(t[2 * i] == t0[2 * i] && t[2 * i + 1] == t0[2 * i + 1]);
                    assert(hex_pairs_value(t0)[i] == bytes.drop_last()[i]);
                } else {
                    assert(t[2 * i] == hb && t[2 * i + 1] == lb);
                    assert((x / 16) * 16 + (x % 16) == x);
                }
            }
        }
    }
}

} // verus!
