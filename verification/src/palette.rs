//! Colours as text: RGBA in hexadecimal, as typed into the HEX field of the
//! colour picker.
use crate::psd_read::string_from_chars;
use vstd::prelude::*;

verus! {

/// The upper-case hexadecimal digit of `d` (`0..=15`).
pub open spec fn hex_char(d: u8) -> char {
    if d < 10 {
        (48 + d) as char
    } else {
        (55 + d) as char
    }
}

/// The eight upper-case hex digits of `c`: red, green, blue, alpha, two
/// digits each.
pub open spec fn spec_to_hex(c: [u8; 4]) -> Seq<char> {
    seq![
        hex_char(c[0] / 16),
        hex_char(c[0] % 16),
        hex_char(c[1] / 16),
        hex_char(c[1] % 16),
        hex_char(c[2] / 16),
        hex_char(c[2] % 16),
        hex_char(c[3] / 16),
        hex_char(c[3] % 16),
    ]
}

/// `ch` is an ASCII hexadecimal digit, in either case.
pub open spec fn is_hex(ch: char) -> bool {
    ('0' <= ch <= '9') || ('a' <= ch <= 'f') || ('A' <= ch <= 'F')
}

/// The value of a hexadecimal digit.
pub open spec fn hex_value(ch: char) -> int {
    if '0' <= ch <= '9' {
        ch as int - 48
    } else if 'a' <= ch <= 'f' {
        ch as int - 87
    } else {
        ch as int - 55
    }
}

/// The hexadecimal digits of `s`, in order; everything else is dropped.
pub open spec fn hex_only(s: Seq<char>) -> Seq<char>
    decreases s.len(),
{
    if s.len() == 0 {
        Seq::empty()
    } else if is_hex(s.last()) {
        hex_only(s.drop_last()).push(s.last())
    } else {
        hex_only(s.drop_last())
    }
}

/// The byte written by digits `2k` and `2k + 1` of `t`.
pub open spec fn hex_byte(t: Seq<char>, k: int) -> u8 {
    (hex_value(t[2 * k]) * 16 + hex_value(t[2 * k + 1])) as u8
}

/// The colour that a text stands for: its hex digits, six of them for an
/// opaque RGB colour or eight for RGBA; any other count is no colour.
pub open spec fn spec_from_hex(s: Seq<char>) -> Option<[u8; 4]> {
    let t = hex_only(s);
    if t.len() == 6 {
        Some([hex_byte(t, 0), hex_byte(t, 1), hex_byte(t, 2), 255u8])
    } else if t.len() == 8 {
        Some([hex_byte(t, 0), hex_byte(t, 1), hex_byte(t, 2), hex_byte(t, 3)])
    } else {
        None
    }
}

fn hex_digit(d: u8) -> (ch: char)
    requires
        d < 16,
    ensures
        ch == hex_char(d),
{
    if d < 10 {
        (48 + d) as char
    } else {
        (55 + d) as char
    }
}

/// The colour as eight upper-case hex digits, `RRGGBBAA`.
pub fn to_hex(c: [u8; 4]) -> (s: String)
    ensures
        s@ == spec_to_hex(c),
{
    let mut chars: Vec<char> = Vec::new();
    let mut k: usize = 0;
    while k < 4
        invariant
            k <= 4,
            chars@.len() == 2 * k,
            forall|j: int| 0 <= j < 2 * k ==> chars@[j] == spec_to_hex(c)[j],
        decreases 4 - k,
    {
        chars.push(hex_digit(c[k] / 16));
        chars.push(hex_digit(c[k] % 16));
        k = k + 1;
    }
    assert(chars@ =~= spec_to_hex(c));
    string_from_chars(chars.as_slice())
}

fn is_hex_digit(ch: char) -> (r: bool)
    ensures
        r == is_hex(ch),
{
    ('0' <= ch && ch <= '9') || ('a' <= ch && ch <= 'f') || ('A' <= ch && ch <= 'F')
}

fn digit_value(ch: char) -> (v: u8)
    requires
        is_hex(ch),
    ensures
        v as int == hex_value(ch),
        v < 16,
{
    let n = ch as u32;
    if '0' <= ch && ch <= '9' {
        (n - 48) as u8
    } else if 'a' <= ch && ch <= 'f' {
        (n - 87) as u8
    } else {
        (n - 55) as u8
    }
}

/// Reads a colour from text: its hex digits are taken in order and all else
/// is skipped; six digits give an opaque colour, eight give RGBA, any other
/// count gives `None`.
pub fn from_hex(s: &str) -> (r: Option<[u8; 4]>)
    ensures
        r == spec_from_hex(s@),
{
    let n = s.unicode_len();
    let mut t: Vec<char> = Vec::new();
    let mut i: usize = 0;
    while i < n
        invariant
            n == s@.len(),
            i <= n,
            t@ == hex_only(s@.subrange(0, i as int)),
            forall|j: int| 0 <= j < t@.len() ==> is_hex(#[trigger] t@[j]),
        decreases n - i,
    {
        let ch = s.get_char(i);
        assert(s@.subrange(0, i + 1).drop_last() =~= s@.subrange(0, i as int));
        if is_hex_digit(ch) {
            t.push(ch);
        }
        i = i + 1;
    }
    assert(s@.subrange(0, n as int) =~= s@);
    let len = t.len();
    if len != 6 && len != 8 {
        return None;
    }
    let mut bytes: [u8; 4] = [0, 0, 0, 255];
    let mut k: usize = 0;
    while k < len / 2
        invariant
            len == t@.len(),
            len == 6 || len == 8,
            k <= len / 2,
            forall|j: int| 0 <= j < t@.len() ==> is_hex(#[trigger] t@[j]),
            forall|j: int| 0 <= j < k ==> bytes[j] == hex_byte(t@, j),
            len == 6 ==> bytes[3] == 255,
        decreases len / 2 - k,
    {
        let hi = digit_value(t[2 * k]);
        let lo = digit_value(t[2 * k + 1]);
        bytes[k] = hi * 16 + lo;
        k = k + 1;
    }
    Some(bytes)
}

/// Reading back the text of a colour gives the colour.
pub proof fn lemma_hex_round_trip(c: [u8; 4])
    ensures
        spec_from_hex(spec_to_hex(c)) == Some(c),
{
    let s = spec_to_hex(c);
    assert forall|j: int| 0 <= j < 8 implies is_hex(#[trigger] s[j]) by {
    }
    lemma_hex_only_all(s);
    assert(hex_only(s) == s);
    assert forall|k: int| 0 <= k < 4 implies #[trigger] hex_byte(s, k) == c[k] by {
        assert(hex_value(hex_char(c[k] / 16)) == c[k] / 16);
        assert(hex_value(hex_char(c[k] % 16)) == c[k] % 16);
    }
    assert(hex_byte(s, 0) == c[0]);
    assert(hex_byte(s, 1) == c[1]);
    assert(hex_byte(s, 2) == c[2]);
    assert(hex_byte(s, 3) == c[3]);
    assert([hex_byte(s, 0), hex_byte(s, 1), hex_byte(s, 2), hex_byte(s, 3)] =~= c);
}

/// Text made of hex digits alone is kept whole.
proof fn lemma_hex_only_all(s: Seq<char>)
    requires
        forall|j: int| 0 <= j < s.len() ==> is_hex(#[trigger] s[j]),
    ensures
        hex_only(s) == s,
    decreases s.len(),
{
    if s.len() > 0 {
        lemma_hex_only_all(s.drop_last());
        assert(s.drop_last().push(s.last()) =~= s);
    }
}

} // verus!
