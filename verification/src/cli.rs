//! The command line: the canvas size given as `WIDTHxHEIGHT`.
use crate::app::{lowercase, to_lowercase};
use vstd::prelude::*;

verus! {

/// `ch` is white space in Unicode's sense (what `char::is_whitespace`
/// tests).
pub open spec fn is_space(ch: char) -> bool {
    ||| ('\u{9}' <= ch <= '\u{d}')
    ||| ch == ' '
    ||| ch == '\u{85}'
    ||| ch == '\u{a0}'
    ||| ch == '\u{1680}'
    ||| ('\u{2000}' <= ch <= '\u{200a}')
    ||| ch == '\u{2028}'
    ||| ch == '\u{2029}'
    ||| ch == '\u{202f}'
    ||| ch == '\u{205f}'
    ||| ch == '\u{3000}'
}

/// The number of white-space characters that `s` starts with.
pub open spec fn lead_spaces(s: Seq<char>) -> nat
    decreases s.len(),
{
    if s.len() > 0 && is_space(s[0]) {
        1 + lead_spaces(s.drop_first())
    } else {
        0
    }
}

/// The number of white-space characters that `s` ends with.
pub open spec fn trail_spaces(s: Seq<char>) -> nat
    decreases s.len(),
{
    if s.len() > 0 && is_space(s.last()) {
        1 + trail_spaces(s.drop_last())
    } else {
        0
    }
}

/// `s` without white space at either end.
pub open spec fn trimmed(s: Seq<char>) -> Seq<char> {
    let a = lead_spaces(s);
    if a == s.len() {
        Seq::empty()
    } else {
        s.subrange(a as int, s.len() - trail_spaces(s))
    }
}

/// `s` with every plain space removed.
pub open spec fn without_spaces(s: Seq<char>) -> Seq<char>
    decreases s.len(),
{
    if s.len() == 0 {
        Seq::empty()
    } else if s.last() == ' ' {
        without_spaces(s.drop_last())
    } else {
        without_spaces(s.drop_last()).push(s.last())
    }
}

/// `ch` separates width from height.
pub open spec fn is_sep(ch: char) -> bool {
    ch == 'x' || ch == '×' || ch == '*'
}

/// The position of the first separator in `s`, if there is one.
pub open spec fn first_sep(s: Seq<char>) -> Option<nat>
    decreases s.len(),
{
    if s.len() == 0 {
        None
    } else if is_sep(s[0]) {
        Some(0)
    } else {
        match first_sep(s.drop_first()) {
            Some(k) => Some(k + 1),
            None => None,
        }
    }
}

/// `ch` is an ASCII decimal digit.
pub open spec fn is_digit(ch: char) -> bool {
    '0' <= ch <= '9'
}

/// The value of a string of decimal digits.
pub open spec fn decimal(d: Seq<char>) -> nat
    decreases d.len(),
{
    if d.len() == 0 {
        0
    } else {
        decimal(d.drop_last()) * 10 + (d.last() as int - 48) as nat
    }
}

/// Every character of `d` is a decimal digit.
pub open spec fn all_digits(d: Seq<char>) -> bool {
    forall|i: int| 0 <= i < d.len() ==> is_digit(#[trigger] d[i])
}

/// The number that `p` spells as an unsigned decimal: an optional `+`, then
/// one digit or more.
pub open spec fn unsigned_value(p: Seq<char>) -> Option<nat> {
    let d = if p.len() > 0 && p[0] == '+' {
        p.drop_first()
    } else {
        p
    };
    if d.len() > 0 && all_digits(d) {
        Some(decimal(d))
    } else {
        None
    }
}

/// The smallest accepted side.
pub const MIN_SIDE: usize = 16;

/// The largest accepted side.
pub const MAX_SIDE: usize = 16384;

/// The size that a lower-cased, outer-trimmed argument gives: spaces are
/// dropped, the text is split at its first `x`, `×` or `*`, each part is
/// trimmed and read as a number, and both must lie in `16..=16384`.
pub open spec fn spec_size(t: Seq<char>) -> Option<(usize, usize)> {
    let u = without_spaces(t);
    match first_sep(u) {
        None => None,
        Some(k) => {
            let w = unsigned_value(trimmed(u.subrange(0, k as int)));
            let h = unsigned_value(trimmed(u.subrange((k + 1) as int, u.len() as int)));
            match (w, h) {
                (Some(w), Some(h)) => if MIN_SIDE <= w <= MAX_SIDE && MIN_SIDE <= h <= MAX_SIDE {
                    Some((w as usize, h as usize))
                } else {
                    None
                },
                _ => None,
            }
        },
    }
}

fn is_space_char(ch: char) -> (r: bool)
    ensures
        r == is_space(ch),
{
    ('\u{9}' <= ch && ch <= '\u{d}') || ch == ' ' || ch == '\u{85}' || ch == '\u{a0}' || ch == '\u{1680}' || (
    '\u{2000}' <= ch && ch <= '\u{200a}') || ch == '\u{2028}' || ch == '\u{2029}' || ch == '\u{202f}' || ch
        == '\u{205f}' || ch == '\u{3000}'
}

proof fn lemma_lead_spaces(s: Seq<char>, i: int)
    requires
        0 <= i <= s.len(),
        forall|j: int| 0 <= j < i ==> is_space(#[trigger] s[j]),
    ensures
        lead_spaces(s) == i + lead_spaces(s.subrange(i, s.len() as int)),
    decreases i,
{
    if i > 0 {
        lemma_lead_spaces(s.drop_first(), i - 1);
        assert(s.drop_first().subrange(i - 1, s.len() - 1) =~= s.subrange(i, s.len() as int));
    } else {
        assert(s.subrange(0, s.len() as int) =~= s);
    }
}

proof fn lemma_trail_spaces(s: Seq<char>, e: int)
    requires
        0 <= e <= s.len(),
        forall|j: int| e <= j < s.len() ==> is_space(#[trigger] s[j]),
    ensures
        trail_spaces(s) == (s.len() - e) + trail_spaces(s.subrange(0, e)),
    decreases s.len() - e,
{
    if e < s.len() {
        lemma_trail_spaces(s.drop_last(), e);
        assert(s.drop_last().subrange(0, e) =~= s.subrange(0, e));
    } else {
        assert(s.subrange(0, e) =~= s);
    }
}

/// The characters of a string.
pub(crate) fn chars_of(s: &str) -> (v: Vec<char>)
    ensures
        v@ == s@,
{
    let n = s.unicode_len();
    let mut v: Vec<char> = Vec::new();
    let mut i: usize = 0;
    while i < n
        invariant
            n == s@.len(),
            i <= n,
            v@ == s@.subrange(0, i as int),
        decreases n - i,
    {
        v.push(s.get_char(i));
        i = i + 1;
        assert(v@ =~= s@.subrange(0, i as int));
    }
    assert(s@.subrange(0, n as int) =~= s@);
    v
}

/// The part `a..e` of `v` without white space at either end, as bounds.
pub(crate) fn trim_bounds(v: &Vec<char>, a: usize, e: usize) -> (r: (usize, usize))
    requires
        a <= e <= v@.len(),
    ensures
        a <= r.0 <= r.1 <= e,
        v@.subrange(r.0 as int, r.1 as int) == trimmed(v@.subrange(a as int, e as int)),
{
    let ghost s = v@.subrange(a as int, e as int);
    let mut i = a;
    while i < e && is_space_char(v[i])
        invariant
            a <= i <= e <= v@.len(),
            s == v@.subrange(a as int, e as int),
            forall|j: int| a <= j < i ==> is_space(#[trigger] v@[j]),
        decreases e - i,
    {
        i = i + 1;
    }
    proof {
        assert forall|j: int| 0 <= j < i - a implies is_space(#[trigger] s[j]) by {
            assert(s[j] == v@[a + j]);
        }
        lemma_lead_spaces(s, i - a);
        let rest = s.subrange(i - a, s.len() as int);
        if i < e {
            assert(rest[0] == v@[i as int]);
        }
        assert(lead_spaces(rest) == 0);
    }
    if i == e {
        proof {
            assert(v@.subrange(i as int, i as int) =~= Seq::<char>::empty());
        }
        return (i, i);
    }
    let mut k = e;
    while k > i && is_space_char(v[k - 1])
        invariant
            a <= i < e <= v@.len(),
            i <= k <= e,
            s == v@.subrange(a as int, e as int),
            !is_space(v@[i as int]),
            forall|j: int| k <= j < e ==> is_space(#[trigger] v@[j]),
        decreases k - i,
    {
        k = k - 1;
    }
    proof {
        assert forall|j: int| k - a <= j < s.len() implies is_space(#[trigger] s[j]) by {
            assert(s[j] == v@[a + j]);
        }
        lemma_trail_spaces(s, k - a);
        let front = s.subrange(0, k - a);
        assert(front.len() > 0 ==> front.last() == v@[k - 1]);
        assert(k > i);
        assert(trail_spaces(front) == 0);
        assert(v@.subrange(i as int, k as int) =~= s.subrange(i - a, s.len() - trail_spaces(s)));
    }
    (i, k)
}

proof fn lemma_decimal_grows(d: Seq<char>, k: int)
    requires
        0 <= k <= d.len(),
        forall|i: int| 0 <= i < d.len() ==> is_digit(#[trigger] d[i]),
    ensures
        decimal(d.subrange(0, k)) <= decimal(d),
    decreases d.len() - k,
{
    if k < d.len() {
        lemma_decimal_grows(d.drop_last(), k);
        assert(d.drop_last().subrange(0, k) =~= d.subrange(0, k));
    } else {
        assert(d.subrange(0, k) =~= d);
    }
}

/// The number spelled by `v[a..e]` if it is an unsigned decimal no larger
/// than `MAX_SIDE`; `None` both when it is no number and when it is larger.
fn small_value(v: &Vec<char>, a: usize, e: usize) -> (r: Option<usize>)
    requires
        a <= e <= v@.len(),
    ensures
        match unsigned_value(v@.subrange(a as int, e as int)) {
            Some(n) => if n <= MAX_SIDE {
                r == Some(n as usize)
            } else {
                r is None
            },
            None => r is None,
        },
{
    let ghost p = v@.subrange(a as int, e as int);
    let mut i = a;
    if i < e && v[i] == '+' {
        i = i + 1;
    }
    let ghost d = v@.subrange(i as int, e as int);
    proof {
        if p.len() > 0 && p[0] == '+' {
            assert(d =~= p.drop_first());
        } else {
            assert(d =~= p);
        }
    }
    if i == e {
        proof {
            assert(d.len() == 0);
        }
        return None;
    }
    proof {
        let dd = if p.len() > 0 && p[0] == '+' {
            p.drop_first()
        } else {
            p
        };
        assert(d == dd);
        assert(unsigned_value(p) == if dd.len() > 0 && all_digits(dd) {
            Some(decimal(dd))
        } else {
            None
        });
    }
    let mut n: usize = 0;
    let start = i;
    proof {
        assert(v@.subrange(start as int, start as int) =~= Seq::<char>::empty());
    }
    while i < e
        invariant
            start <= i <= e <= v@.len(),
            d == v@.subrange(start as int, e as int),
            p == v@.subrange(a as int, e as int),
            d.len() > 0,
            unsigned_value(p) == if all_digits(d) {
                Some(decimal(d))
            } else {
                None
            },
            forall|j: int| start <= j < i ==> is_digit(#[trigger] v@[j]),
            n == decimal(v@.subrange(start as int, i as int)),
            n <= MAX_SIDE,
        decreases e - i,
    {
        let ch = v[i];
        if !('0' <= ch && ch <= '9') {
            proof {
                assert(d[i - start] == ch);
                assert(!is_digit(d[i - start]));
                assert(!all_digits(d));
                assert(unsigned_value(p) is None);
            }
            return None;
        }
        let digit = (ch as u32 - 48) as usize;
        proof {
            assert(v@.subrange(start as int, i + 1).drop_last() =~= v@.subrange(start as int, i as int));
        }
        if n > (MAX_SIDE - digit) / 10 {
            proof {
                let q = v@.subrange(start as int, i + 1);
                assert(q.last() == ch);
                assert(q.drop_last() =~= v@.subrange(start as int, i as int));
                assert(decimal(q) == n * 10 + digit);
                assert(decimal(q) > MAX_SIDE);
                // Every later digit only makes the number larger.
                if all_digits(d) {
                    lemma_decimal_grows(d, i + 1 - start);
                    assert(d.subrange(0, i + 1 - start) =~= q);
                    assert(unsigned_value(p) == Some(decimal(d)));
                } else {
                    assert(unsigned_value(p) is None);
                }
            }
            return None;
        }
        n = n * 10 + digit;
        proof {
            let q = v@.subrange(start as int, i + 1);
            assert(q.last() == ch);
            assert(decimal(q) == n);
        }
        i = i + 1;
    }
    proof {
        assert(v@.subrange(start as int, e as int) =~= d);
        assert forall|j: int| 0 <= j < d.len() implies is_digit(#[trigger] d[j]) by {
            assert(d[j] == v@[start + j]);
        }
        assert(all_digits(d));
    }
    Some(n)
}

/// The size that a lower-cased, outer-trimmed size argument gives (see
/// `spec_size`).
pub fn size_of_lowered(t: &str) -> (r: Option<(usize, usize)>)
    ensures
        r == spec_size(t@),
{
    let chars = chars_of(t);
    let mut u: Vec<char> = Vec::new();
    let mut i: usize = 0;
    while i < chars.len()
        invariant
            chars@ == t@,
            i <= chars@.len(),
            u@ == without_spaces(t@.subrange(0, i as int)),
        decreases chars@.len() - i,
    {
        proof {
            assert(t@.subrange(0, i + 1).drop_last() =~= t@.subrange(0, i as int));
        }
        if chars[i] != ' ' {
            u.push(chars[i]);
        }
        i = i + 1;
    }
    proof {
        assert(t@.subrange(0, t@.len() as int) =~= t@);
    }
    let mut k: usize = 0;
    while k < u.len() && !(u[k] == 'x' || u[k] == '×' || u[k] == '*')
        invariant
            k <= u@.len(),
            forall|j: int| 0 <= j < k ==> !is_sep(#[trigger] u@[j]),
        decreases u@.len() - k,
    {
        k = k + 1;
    }
    proof {
        lemma_first_sep(u@, k as int);
    }
    if k == u.len() {
        return None;
    }
    let (wa, we) = trim_bounds(&u, 0, k);
    let (ha, he) = trim_bounds(&u, k + 1, u.len());
    let w = small_value(&u, wa, we);
    let h = small_value(&u, ha, he);
    match (w, h) {
        (Some(w), Some(h)) => if MIN_SIDE <= w && w <= MAX_SIDE && MIN_SIDE <= h && h <= MAX_SIDE {
            Some((w, h))
        } else {
            None
        },
        _ => None,
    }
}

proof fn lemma_first_sep(u: Seq<char>, k: int)
    requires
        0 <= k <= u.len(),
        forall|j: int| 0 <= j < k ==> !is_sep(#[trigger] u[j]),
        k < u.len() ==> is_sep(u[k]),
    ensures
        first_sep(u) == if k == u.len() {
            None::<nat>
        } else {
            Some(k as nat)
        },
    decreases k,
{
    if k > 0 {
        lemma_first_sep(u.drop_first(), k - 1);
    }
}

/// The canvas size from a command-line argument such as `1920x1080`: case
/// and spaces do not matter, `×` and `*` separate as well as `x`, and both
/// sides must lie in `16..=16384`.
pub fn parse_size(s: &str) -> (r: Option<(usize, usize)>)
    ensures
        r == spec_size(lowercase(trimmed(s@))),
{
    let chars = chars_of(s);
    let (a, e) = trim_bounds(&chars, 0, chars.len());
    proof {
        assert(chars@.subrange(0, chars@.len() as int) =~= s@);
    }
    let t = s.substring_char(a, e);
    let low = to_lowercase(t);
    size_of_lowered(low.as_str())
}

} // verus!
