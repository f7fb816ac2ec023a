//! Text helpers: decimal digit strings and their value, the canonical
//! rendering of a number, a scanner for runs of digits, and string equality.
use vstd::prelude::*;

verus! {

pub open spec fn is_digit(c: char) -> bool {
    '0' <= c && c <= '9'
}

pub open spec fn digit_value(c: char) -> nat {
    (c as int - '0' as int) as nat
}

pub open spec fn all_digits(t: Seq<char>) -> bool {
    forall|i: int| 0 <= i < t.len() ==> is_digit(#[trigger] t[i])
}

/// The number that a string of digits denotes (leading zeros allowed).
pub open spec fn digits_value(t: Seq<char>) -> nat
    decreases t.len(),
{
    if t.len() == 0 {
        0
    } else {
        digits_value(t.drop_last()) * 10 + digit_value(t.last())
    }
}

/// A component that reads as an unsigned 64-bit integer.
pub open spec fn is_number(t: Seq<char>) -> bool {
    t.len() > 0 && all_digits(t) && digits_value(t) <= u64::MAX
}

pub open spec fn digit_char(d: nat) -> char {
    if d == 0 {
        '0'
    } else if d == 1 {
        '1'
    } else if d == 2 {
        '2'
    } else if d == 3 {
        '3'
    } else if d == 4 {
        '4'
    } else if d == 5 {
        '5'
    } else if d == 6 {
        '6'
    } else if d == 7 {
        '7'
    } else if d == 8 {
        '8'
    } else {
        '9'
    }
}

/// The canonical decimal rendering of `n`: no sign, no leading zero.
pub open spec fn decimal(n: nat) -> Seq<char>
    decreases n,
{
    if n < 10 {
        seq![digit_char(n)]
    } else {
        decimal(n / 10).push(digit_char(n % 10))
    }
}

pub proof fn lemma_digit_char(d: nat)
    requires
        d < 10,
    ensures
        is_digit(digit_char(d)),
        digit_value(digit_char(d)) == d,
{
}

/// Reading the canonical rendering of a number gives the number back.
pub proof fn lemma_decimal_value(n: nat)
    ensures
        decimal(n).len() > 0,
        all_digits(decimal(n)),
        digits_value(decimal(n)) == n,
    decreases n,
{
    if n < 10 {
        lemma_digit_char(n);
        assert(decimal(n).drop_last() =~= Seq::<char>::empty());
        assert(digits_value(Seq::<char>::empty()) == 0);
    } else {
        lemma_decimal_value(n / 10);
        lemma_digit_char(n % 10);
        let t = decimal(n / 10);
        assert(decimal(n).drop_last() =~= t);
        assert(decimal(n).last() == digit_char(n % 10));
        assert(digits_value(decimal(n)) == digits_value(t) * 10 + n % 10);
        assert((n / 10) * 10 + n % 10 == n);
        assert forall|i: int| 0 <= i < decimal(n).len() implies is_digit(#[trigger] decimal(n)[i]) by {
            if i < t.len() {
                assert(decimal(n)[i] == t[i]);
            }
        }
    }
}

/// Appending a digit never makes the value smaller.
pub proof fn lemma_digits_value_push(t: Seq<char>, c: char)
    requires
        is_digit(c),
    ensures
        digits_value(t.push(c)) == digits_value(t) * 10 + digit_value(c),
        digits_value(t.push(c)) >= digits_value(t),
{
    assert(t.push(c).drop_last() =~= t);
}

pub fn is_digit_char(c: char) -> (r: bool)
    ensures
        r == is_digit(c),
{
    '0' <= c && c <= '9'
}

pub fn digit_to_char(d: u64) -> (c: char)
    requires
        d < 10,
    ensures
        c == digit_char(d as nat),
{
    match d {
        0 => '0',
        1 => '1',
        2 => '2',
        3 => '3',
        4 => '4',
        5 => '5',
        6 => '6',
        7 => '7',
        8 => '8',
        _ => '9',
    }
}

/// Relies on `String::push`: the character is added at the end.
pub assume_specification[ String::push ](s: &mut String, ch: char)
    ensures
        final(s)@ == old(s)@.push(ch),
;

/// Appends the canonical decimal rendering of `n` to `out`.
pub fn push_decimal(out: &mut String, n: u64)
    ensures
        final(out)@ == old(out)@ + decimal(n as nat),
    decreases n,
{
    if n < 10 {
        let c = digit_to_char(n);
        out.push(c);
        assert(decimal(n as nat) =~= seq![c]);
    } else {
        push_decimal(out, n / 10);
        let c = digit_to_char(n % 10);
        out.push(c);
    }
    assert(final(out)@ =~= old(out)@ + decimal(n as nat));
}

/// Reads the longest run of digits of `s` that starts at `start`. Returns
/// where the run ends and, when it fits in a `u64`, its value.
pub fn scan_number(s: &str, len: usize, start: usize) -> (r: (usize, Option<u64>))
    requires
        len == s@.len(),
        start <= len,
    ensures
        start <= r.0 <= len,
        all_digits(s@.subrange(start as int, r.0 as int)),
        r.0 == len || !is_digit(s@[r.0 as int]),
        r.1 == (if digits_value(s@.subrange(start as int, r.0 as int)) <= u64::MAX {
            Some(digits_value(s@.subrange(start as int, r.0 as int)) as u64)
        } else {
            None::<u64>
        }),
{
    let mut i: usize = start;
    let mut value: u64 = 0;
    let mut fits: bool = true;
    assert(s@.subrange(start as int, start as int) =~= Seq::<char>::empty());
    loop
        invariant
            start <= i <= len,
            len == s@.len(),
            all_digits(s@.subrange(start as int, i as int)),
            fits ==> value == digits_value(s@.subrange(start as int, i as int)),
            !fits ==> digits_value(s@.subrange(start as int, i as int)) > u64::MAX,
        ensures
            start <= i <= len,
            i == len || !is_digit(s@[i as int]),
        decreases len - i,
    {
        if i >= len {
            break;
        }
        let c = s.get_char(i);
        if !is_digit_char(c) {
            break;
        }
        let ghost before = s@.subrange(start as int, i as int);
        assert(s@.subrange(start as int, i + 1) =~= before.push(c));
        proof {
            lemma_digits_value_push(before, c);
        }
        let d = (c as u32 - '0' as u32) as u64;
        if fits {
            if value > (u64::MAX - d) / 10 {
                fits = false;
            } else {
                value = value * 10 + d;
            }
        }
        i = i + 1;
    }
    if fits {
        (i, Some(value))
    } else {
        (i, None)
    }
}

/// A run of digits that starts at `start` ends where `scan_number` stops.
pub proof fn lemma_run_end(s: Seq<char>, start: int, end: int, other: int)
    requires
        0 <= start <= end <= s.len(),
        start <= other <= s.len(),
        all_digits(s.subrange(start, end)),
        end == s.len() || !is_digit(s[end]),
        all_digits(s.subrange(start, other)),
        other == s.len() || !is_digit(s[other]),
    ensures
        other == end,
{
    if other < end {
        assert(s.subrange(start, end)[other - start] == s[other]);
    } else if end < other {
        assert(s.subrange(start, other)[end - start] == s[end]);
    }
}

/// Character-by-character equality of two strings.
pub fn equal_text(a: &str, b: &str) -> (r: bool)
    ensures
        r == (a@ == b@),
{
    let n = a.unicode_len();
    if n != b.unicode_len() {
        return false;
    }
    let mut i: usize = 0;
    while i < n
        invariant
            n == a@.len(),
            n == b@.len(),
            i <= n,
            forall|j: int| 0 <= j < i ==> a@[j] == b@[j],
        decreases n - i,
    {
        if a.get_char(i) != b.get_char(i) {
            return false;
        }
        i = i + 1;
    }
    assert(a@ =~= b@);
    true
}

/// `a` comes after `b` in the order of texts: compared character by
/// character (by code point), a text after each of its proper prefixes.
pub open spec fn text_after(a: Seq<char>, b: Seq<char>) -> bool
    decreases a.len(),
{
    if b.len() == 0 {
        a.len() > 0
    } else if a.len() == 0 {
        false
    } else if a[0] != b[0] {
        (a[0] as int) > (b[0] as int)
    } else {
        text_after(a.drop_first(), b.drop_first())
    }
}

/// The order of texts is strict and total.
pub proof fn lemma_text_after_total(a: Seq<char>, b: Seq<char>)
    ensures
        !(text_after(a, b) && text_after(b, a)),
        a != b ==> text_after(a, b) || text_after(b, a),
        !text_after(a, a),
    decreases a.len(),
{
    if a.len() > 0 {
        lemma_text_after_total(a.drop_first(), a.drop_first());
    }
    if a.len() > 0 && b.len() > 0 {
        if a[0] == b[0] {
            lemma_text_after_total(a.drop_first(), b.drop_first());
            if a.drop_first() == b.drop_first() {
                assert(a =~= seq![a[0]] + a.drop_first());
                assert(b =~= seq![b[0]] + b.drop_first());
            }
        }
    } else if a.len() == 0 && b.len() == 0 {
        assert(a =~= b);
    }
}

/// The order of texts is transitive.
pub proof fn lemma_text_after_transitive(a: Seq<char>, b: Seq<char>, c: Seq<char>)
    requires
        text_after(a, b),
        text_after(b, c),
    ensures
        text_after(a, c),
    decreases a.len(),
{
    if c.len() > 0 && a[0] == b[0] && b[0] == c[0] {
        lemma_text_after_transitive(a.drop_first(), b.drop_first(), c.drop_first());
    }
}

/// Whether `a` comes after `b` in the order of texts.
pub fn is_text_after(a: &str, b: &str) -> (r: bool)
    ensures
        r == text_after(a@, b@),
{
    let n = a.unicode_len();
    let m = b.unicode_len();
    let mut i: usize = 0;
    assert(a@.subrange(0, n as int) =~= a@);
    assert(b@.subrange(0, m as int) =~= b@);
    while i < n && i < m
        invariant
            n == a@.len(),
            m == b@.len(),
            i <= n && i <= m,
            text_after(a@, b@) == text_after(
                a@.subrange(i as int, n as int),
                b@.subrange(i as int, m as int),
            ),
        decreases n - i,
    {
        let x = a.get_char(i);
        let y = b.get_char(i);
        let ghost sa = a@.subrange(i as int, n as int);
        let ghost sb = b@.subrange(i as int, m as int);
        assert(sa[0] == x && sb[0] == y);
        if x != y {
            return (x as u32) > (y as u32);
        }
        assert(sa.drop_first() =~= a@.subrange(i + 1, n as int));
        assert(sb.drop_first() =~= b@.subrange(i + 1, m as int));
        i = i + 1;
    }
    i < n && i >= m
}

} // verus!
