//! The text of a decimal floating-point number, as `f64`'s `FromStr` accepts it:
//!
//! ```text
//! Float  ::= Sign? ( 'inf' | 'infinity' | 'nan' | Number )
//! Number ::= ( Digit+ | Digit+ '.' Digit* | Digit* '.' Digit+ ) Exp?
//! Exp    ::= 'e' Sign? Digit+
//! ```
//!
//! with letters compared without regard to ASCII case.
use vstd::prelude::*;

verus! {

pub open spec fn is_digit(c: char) -> bool {
    '0' <= c && c <= '9'
}

pub open spec fn is_sign(c: char) -> bool {
    c == '+' || c == '-'
}

pub open spec fn all_digits(s: Seq<char>) -> bool {
    forall|i: int| 0 <= i < s.len() ==> is_digit(#[trigger] s[i])
}

/// `s` without one leading sign, if it has one.
pub open spec fn unsigned(s: Seq<char>) -> Seq<char> {
    if s.len() > 0 && is_sign(s[0]) {
        s.drop_first()
    } else {
        s
    }
}

/// `Digit+ | Digit+ '.' Digit* | Digit* '.' Digit+`
pub open spec fn is_mantissa(m: Seq<char>) -> bool {
    ||| (m.len() > 0 && all_digits(m))
    ||| exists|p: int|
        0 <= p < m.len() && m.len() >= 2 && #[trigger] m[p] == '.' && all_digits(m.take(p))
            && all_digits(m.skip(p + 1))
}

/// `'e' Sign? Digit+`
pub open spec fn is_exponent(x: Seq<char>) -> bool {
    &&& x.len() > 0
    &&& (x[0] == 'e' || x[0] == 'E')
    &&& unsigned(x.drop_first()).len() > 0
    &&& all_digits(unsigned(x.drop_first()))
}

/// `Number`
pub open spec fn is_decimal(b: Seq<char>) -> bool {
    ||| is_mantissa(b)
    ||| exists|q: int| 0 <= q < b.len() && is_mantissa(b.take(q)) && #[trigger] is_exponent(b.skip(q))
}

pub open spec fn ascii_lower(c: char) -> char {
    if 'A' <= c && c <= 'Z' {
        (((c as u8) + 32) as u8) as char
    } else {
        c
    }
}

/// `s` equals the lowercase word `w` when ASCII letters are lowered.
pub open spec fn eq_ignore_case(s: Seq<char>, w: Seq<char>) -> bool {
    s.len() == w.len() && forall|i: int| 0 <= i < s.len() ==> ascii_lower(#[trigger] s[i]) == w[i]
}

/// `'inf' | 'infinity' | 'nan'`
pub open spec fn is_special(b: Seq<char>) -> bool {
    ||| eq_ignore_case(b, seq!['i', 'n', 'f'])
    ||| eq_ignore_case(b, seq!['i', 'n', 'f', 'i', 'n', 'i', 't', 'y'])
    ||| eq_ignore_case(b, seq!['n', 'a', 'n'])
}

/// `Float`: the texts that parse as a floating-point number.
pub open spec fn is_float_literal(s: Seq<char>) -> bool {
    is_special(unsigned(s)) || is_decimal(unsigned(s))
}

proof fn lemma_mantissa_chars(m: Seq<char>, i: int)
    requires
        is_mantissa(m),
        0 <= i < m.len(),
    ensures
        is_digit(m[i]) || m[i] == '.',
{
    if !(m.len() > 0 && all_digits(m)) {
        let p = choose|p: int|
            0 <= p < m.len() && m.len() >= 2 && #[trigger] m[p] == '.' && all_digits(m.take(p))
                && all_digits(m.skip(p + 1));
        if i < p {
            assert(m.take(p)[i] == m[i]);
        } else if i > p {
            assert(m.skip(p + 1)[i - p - 1] == m[i]);
        }
    }
}

fn digits_in(s: &[char], lo: usize, hi: usize) -> (r: bool)
    requires
        lo <= hi <= s.len(),
    ensures
        r == all_digits(s@.subrange(lo as int, hi as int)),
{
    let mut i = lo;
    while i < hi
        invariant
            lo <= i <= hi <= s.len(),
            all_digits(s@.subrange(lo as int, i as int)),
        decreases hi - i,
    {
        if !('0' <= s[i] && s[i] <= '9') {
            assert(s@.subrange(lo as int, hi as int)[i - lo] == s@[i as int]);
            return false;
        }
        assert forall|k: int| 0 <= k < i + 1 - lo implies is_digit(
            #[trigger] s@.subrange(lo as int, i + 1)[k],
        ) by {
            if k < i - lo {
                assert(s@.subrange(lo as int, i as int)[k] == s@.subrange(lo as int, i + 1)[k]);
            }
        }
        i = i + 1;
    }
    true
}

fn mantissa_in(s: &[char], lo: usize, hi: usize) -> (r: bool)
    requires
        lo <= hi <= s.len(),
    ensures
        r == is_mantissa(s@.subrange(lo as int, hi as int)),
{
    let ghost m = s@.subrange(lo as int, hi as int);
    let mut p = lo;
    while p < hi && s[p] != '.'
        invariant
            lo <= p <= hi <= s.len(),
            forall|k: int| lo <= k < p ==> s@[k] != '.',
        decreases hi - p,
    {
        p = p + 1;
    }
    if p == hi {
        let r = hi > lo && digits_in(s, lo, hi);
        assert(!exists|q: int|
            0 <= q < m.len() && m.len() >= 2 && #[trigger] m[q] == '.' && all_digits(m.take(q))
                && all_digits(m.skip(q + 1))) by {
            assert forall|q: int| 0 <= q < m.len() implies #[trigger] m[q] != '.' by {
                assert(m[q] == s@[lo + q]);
            }
        }
        r
    } else {
        let d = p - lo;
        assert(m[d as int] == '.');
        let before = digits_in(s, lo, p);
        let after = digits_in(s, p + 1, hi);
        assert(m.take(d as int) =~= s@.subrange(lo as int, p as int));
        assert(m.skip(d + 1) =~= s@.subrange(p + 1, hi as int));
        let r = hi - lo >= 2 && before && after;
        assert(!all_digits(m));
        if !r {
            assert(!exists|q: int|
                0 <= q < m.len() && m.len() >= 2 && #[trigger] m[q] == '.' && all_digits(
                    m.take(q),
                ) && all_digits(m.skip(q + 1))) by {
                assert forall|q: int|
                    0 <= q < m.len() && m.len() >= 2 && #[trigger] m[q] == '.' && all_digits(
                        m.take(q),
                    ) implies !all_digits(m.skip(q + 1)) by {
                    if q < d {
                        assert(m[q] == s@[lo + q]);
                    } else if q > d {
                        assert(m.take(q)[d as int] == '.');
                    }
                }
            }
        }
        r
    }
}

fn exponent_in(s: &[char], lo: usize, hi: usize) -> (r: bool)
    requires
        lo <= hi <= s.len(),
    ensures
        r == is_exponent(s@.subrange(lo as int, hi as int)),
{
    let ghost x = s@.subrange(lo as int, hi as int);
    if hi == lo || !(s[lo] == 'e' || s[lo] == 'E') {
        return false;
    }
    let mut start = lo + 1;
    if start < hi && (s[start] == '+' || s[start] == '-') {
        start = start + 1;
    }
    assert(unsigned(x.drop_first()) =~= s@.subrange(start as int, hi as int));
    start < hi && digits_in(s, start, hi)
}

fn decimal_in(s: &[char], lo: usize, hi: usize) -> (r: bool)
    requires
        lo <= hi <= s.len(),
    ensures
        r == is_decimal(s@.subrange(lo as int, hi as int)),
{
    let ghost b = s@.subrange(lo as int, hi as int);
    let mut q = lo;
    while q < hi && s[q] != 'e' && s[q] != 'E'
        invariant
            lo <= q <= hi <= s.len(),
            forall|k: int| lo <= k < q ==> s@[k] != 'e' && s@[k] != 'E',
        decreases hi - q,
    {
        q = q + 1;
    }
    if q == hi {
        let r = mantissa_in(s, lo, hi);
        assert forall|k: int| 0 <= k < b.len() && is_mantissa(b.take(k)) implies !#[trigger] is_exponent(
            b.skip(k),
        ) by {
            assert(b.skip(k)[0] == s@[lo + k]);
        }
        r
    } else {
        let d = q - lo;
        let m = mantissa_in(s, lo, q);
        let e = exponent_in(s, q, hi);
        assert(b.take(d as int) =~= s@.subrange(lo as int, q as int));
        assert(b.skip(d as int) =~= s@.subrange(q as int, hi as int));
        assert(!is_mantissa(b)) by {
            if is_mantissa(b) {
                lemma_mantissa_chars(b, d as int);
            }
        }
        assert forall|k: int| 0 <= k < b.len() && k != d && is_mantissa(b.take(k)) implies !#[trigger] is_exponent(
            b.skip(k),
        ) by {
            if k < d {
                assert(b.skip(k)[0] == s@[lo + k]);
            } else {
                lemma_mantissa_chars(b.take(k), d as int);
            }
        }
        m && e
    }
}

fn lower(c: char) -> (r: char)
    ensures
        r == ascii_lower(c),
{
    if 'A' <= c && c <= 'Z' {
        ((c as u8) + 32) as char
    } else {
        c
    }
}

pub(crate) fn word_in(s: &[char], lo: usize, hi: usize, w: &[char]) -> (r: bool)
    requires
        lo <= hi <= s.len(),
    ensures
        r == eq_ignore_case(s@.subrange(lo as int, hi as int), w@),
{
    if hi - lo != w.len() {
        return false;
    }
    let mut i: usize = 0;
    while i < w.len()
        invariant
            hi - lo == w.len(),
            lo <= hi <= s.len(),
            forall|k: int| 0 <= k < i ==> ascii_lower(s@[lo + k]) == w@[k],
        decreases w.len() - i,
    {
        if lower(s[lo + i]) != w[i] {
            assert(s@.subrange(lo as int, hi as int)[i as int] == s@[lo + i]);
            return false;
        }
        i = i + 1;
    }
    assert forall|k: int| 0 <= k < hi - lo implies ascii_lower(
        #[trigger] s@.subrange(lo as int, hi as int)[k],
    ) == w@[k] by {
        assert(s@.subrange(lo as int, hi as int)[k] == s@[lo + k]);
    }
    true
}

/// Whether `s` is the text of a floating-point number.
pub fn is_float_text(s: &[char]) -> (r: bool)
    ensures
        r == is_float_literal(s@),
{
    let hi = s.len();
    let lo: usize = if hi > 0 && (s[0] == '+' || s[0] == '-') { 1 } else { 0 };
    assert(unsigned(s@) =~= s@.subrange(lo as int, hi as int));
    let inf = ['i', 'n', 'f'];
    let infinity = ['i', 'n', 'f', 'i', 'n', 'i', 't', 'y'];
    let nan = ['n', 'a', 'n'];
    assert(inf@ =~= seq!['i', 'n', 'f']);
    assert(infinity@ =~= seq!['i', 'n', 'f', 'i', 'n', 'i', 't', 'y']);
    assert(nan@ =~= seq!['n', 'a', 'n']);
    word_in(s, lo, hi, &inf) || word_in(s, lo, hi, &infinity) || word_in(s, lo, hi, &nan)
        || decimal_in(s, lo, hi)
}

} // verus!
