//! Character-level text handling: whitespace trimming, ASCII case folding,
//! unsigned integer parsing and decimal formatting, and moving between
//! `str`/`String` and vectors of characters.

use vstd::prelude::*;

use crate::search::{find, match_at};
use crate::sys::push_char;

verus! {

/// The characters with the Unicode `White_Space` property, which is what
/// `char::is_whitespace` (and so `str::trim`) tests.
pub open spec fn is_whitespace(c: char) -> bool {
    let u = c as u32;
    ||| 0x09 <= u <= 0x0D
    ||| u == 0x20
    ||| u == 0x85
    ||| u == 0xA0
    ||| u == 0x1680
    ||| 0x2000 <= u <= 0x200A
    ||| u == 0x2028
    ||| u == 0x2029
    ||| u == 0x202F
    ||| u == 0x205F
    ||| u == 0x3000
}

/// `s` without its leading whitespace.
pub open spec fn trim_start(s: Seq<char>) -> Seq<char>
    decreases s.len(),
{
    if s.len() > 0 && is_whitespace(s[0]) {
        trim_start(s.drop_first())
    } else {
        s
    }
}

/// `s` without its trailing whitespace.
pub open spec fn trim_end(s: Seq<char>) -> Seq<char>
    decreases s.len(),
{
    if s.len() > 0 && is_whitespace(s.last()) {
        trim_end(s.drop_last())
    } else {
        s
    }
}

/// `s` without leading and trailing whitespace (`str::trim`).
pub open spec fn trim(s: Seq<char>) -> Seq<char> {
    trim_end(trim_start(s))
}

/// The code of `c` with `A`..`Z` mapped to `a`..`z`.
pub open spec fn ascii_lower(c: char) -> u32 {
    let u = c as u32;
    if 0x41 <= u <= 0x5A {
        (u + 0x20) as u32
    } else {
        u
    }
}

/// `a` and `b` are equal when ASCII letters are compared without regard to
/// case (`str::eq_ignore_ascii_case`).  Comparing characters this way agrees
/// with comparing their UTF-8 bytes this way, since case folding only touches
/// ASCII bytes, which never occur inside the encoding of another character.
pub open spec fn eq_ignore_ascii_case(a: Seq<char>, b: Seq<char>) -> bool {
    &&& a.len() == b.len()
    &&& forall|i: int| 0 <= i < a.len() ==> ascii_lower(#[trigger] a[i]) == ascii_lower(b[i])
}

/// The value of `c` as a digit in base `radix` (`char::to_digit`), for a
/// radix of at most 36.
pub open spec fn digit_value(c: char, radix: nat) -> Option<nat> {
    let u = c as u32;
    let d: int = if 0x30 <= u <= 0x39 {
        u - 0x30
    } else if 0x61 <= u <= 0x7A {
        u - 0x61 + 10
    } else if 0x41 <= u <= 0x5A {
        u - 0x41 + 10
    } else {
        36
    };
    if d < radix {
        Some(d as nat)
    } else {
        None
    }
}

/// The value of a string of digits in base `radix`; `None` if a character
/// is not such a digit.
pub open spec fn digits_value(s: Seq<char>, radix: nat) -> Option<nat>
    decreases s.len(),
{
    if s.len() == 0 {
        Some(0)
    } else {
        match (digits_value(s.drop_last(), radix), digit_value(s.last(), radix)) {
            (Some(v), Some(d)) => Some(v * radix + d),
            _ => None,
        }
    }
}

/// What `u16::from_str`, `usize::from_str_radix` and their kin give for an
/// unsigned type whose largest value is `max`: an optional `+`, then at
/// least one digit, with a value of at most `max`.
pub open spec fn parse_unsigned(s: Seq<char>, radix: nat, max: nat) -> Option<nat> {
    let digits = if s.len() > 0 && s[0] == '+' {
        s.drop_first()
    } else {
        s
    };
    if digits.len() == 0 {
        None
    } else {
        match digits_value(digits, radix) {
            Some(v) => if v <= max {
                Some(v)
            } else {
                None
            },
            None => None,
        }
    }
}

/// The character of a decimal digit.
pub open spec fn digit_char(d: nat) -> char {
    if d == 0 {
        '0'
    } else if d == 1 {
        '1'
    } else if d == 2 {
        '2'
    } else if d == 3 {
        '3'
    } else if d == 4 {
        '4'
    } else if d == 5 {
        '5'
    } else if d == 6 {
        '6'
    } else if d == 7 {
        '7'
    } else if d == 8 {
        '8'
    } else {
        '9'
    }
}

/// The decimal representation of `n`, as `format!("{}", n)` writes it.
pub open spec fn decimal(n: nat) -> Seq<char>
    decreases n,
{
    if n < 10 {
        seq![digit_char(n)]
    } else {
        decimal(n / 10).push(digit_char(n % 10))
    }
}

/// `s` holds a carriage return or a line feed.
pub open spec fn has_line_break(s: Seq<char>) -> bool {
    exists|i: int| 0 <= i < s.len() && (s[i] == '\r' || s[i] == '\n')
}

pub fn is_whitespace_char(c: char) -> (b: bool)
    ensures
        b == is_whitespace(c),
{
    let u = c as u32;
    (0x09 <= u && u <= 0x0D) || u == 0x20 || u == 0x85 || u == 0xA0 || u == 0x1680 || (0x2000 <= u
        && u <= 0x200A) || u == 0x2028 || u == 0x2029 || u == 0x202F || u == 0x205F || u == 0x3000
}

proof fn lemma_trim_start_step(v: Seq<char>, i: int, end: int)
    requires
        0 <= i < end <= v.len(),
        is_whitespace(v[i]),
    ensures
        trim_start(v.subrange(i, end)) == trim_start(v.subrange(i + 1, end)),
{
    assert(v.subrange(i, end).drop_first() =~= v.subrange(i + 1, end));
}

proof fn lemma_trim_end_step(v: Seq<char>, start: int, j: int)
    requires
        0 <= start < j <= v.len(),
        is_whitespace(v[j - 1]),
    ensures
        trim_end(v.subrange(start, j)) == trim_end(v.subrange(start, j - 1)),
{
    assert(v.subrange(start, j).drop_last() =~= v.subrange(start, j - 1));
}

/// The bounds of `trim(v[start..end])` within `v`.
pub fn trim_bounds(v: &Vec<char>, start: usize, end: usize) -> (res: (usize, usize))
    requires
        start <= end <= v@.len(),
    ensures
        start <= res.0 <= res.1 <= end,
        v@.subrange(res.0 as int, res.1 as int) == trim(v@.subrange(start as int, end as int)),
{
    let mut i: usize = start;
    while i < end && is_whitespace_char(v[i])
        invariant
            start <= i <= end <= v@.len(),
            trim_start(v@.subrange(start as int, end as int)) == trim_start(
                v@.subrange(i as int, end as int),
            ),
        decreases end - i,
    {
        proof {
            lemma_trim_start_step(v@, i as int, end as int);
        }
        i = i + 1;
    }
    assert(trim_start(v@.subrange(i as int, end as int)) == v@.subrange(i as int, end as int));
    let mut j: usize = end;
    while j > i && is_whitespace_char(v[j - 1])
        invariant
            start <= i <= j <= end <= v@.len(),
            trim_end(v@.subrange(i as int, end as int)) == trim_end(
                v@.subrange(i as int, j as int),
            ),
        decreases j - i,
    {
        proof {
            lemma_trim_end_step(v@, i as int, j as int);
        }
        j = j - 1;
    }
    assert(trim_end(v@.subrange(i as int, j as int)) == v@.subrange(i as int, j as int));
    (i, j)
}

pub fn ascii_lower_char(c: char) -> (r: u32)
    ensures
        r == ascii_lower(c),
{
    let u = c as u32;
    if 0x41 <= u && u <= 0x5A {
        u + 0x20
    } else {
        u
    }
}

/// Compares `a[a_from..a_to]` with `b` without regard to ASCII case.
pub fn eq_ignore_ascii_case_chars(a: &Vec<char>, a_from: usize, a_to: usize, b: &Vec<char>) -> (r:
    bool)
    requires
        a_from <= a_to <= a@.len(),
    ensures
        r == eq_ignore_ascii_case(a@.subrange(a_from as int, a_to as int), b@),
{
    let ghost s = a@.subrange(a_from as int, a_to as int);
    if a_to - a_from != b.len() {
        return false;
    }
    let mut i: usize = 0;
    while i < b.len()
        invariant
            a_from <= a_to <= a@.len(),
            a_to - a_from == b@.len(),
            s == a@.subrange(a_from as int, a_to as int),
            i <= b@.len(),
            forall|k: int| 0 <= k < i ==> ascii_lower(#[trigger] s[k]) == ascii_lower(b@[k]),
        decreases b@.len() - i,
    {
        if ascii_lower_char(a[a_from + i]) != ascii_lower_char(b[i]) {
            assert(ascii_lower(s[i as int]) != ascii_lower(b@[i as int]));
            return false;
        }
        i = i + 1;
    }
    true
}

/// Ignoring ASCII case is an equivalence: it is symmetric and transitive.
pub proof fn lemma_eq_ignore_ascii_case_trans(a: Seq<char>, b: Seq<char>, c: Seq<char>)
    requires
        eq_ignore_ascii_case(a, b),
        eq_ignore_ascii_case(b, c),
    ensures
        eq_ignore_ascii_case(a, c),
        eq_ignore_ascii_case(c, a),
{
    assert forall|i: int| 0 <= i < a.len() implies ascii_lower(#[trigger] a[i]) == ascii_lower(
        c[i],
    ) by {
        assert(ascii_lower(a[i]) == ascii_lower(b[i]));
        assert(ascii_lower(b[i]) == ascii_lower(c[i]));
    }
    assert forall|i: int| 0 <= i < c.len() implies ascii_lower(#[trigger] c[i]) == ascii_lower(
        a[i],
    ) by {
        assert(ascii_lower(a[i]) == ascii_lower(b[i]));
        assert(ascii_lower(b[i]) == ascii_lower(c[i]));
    }
}

pub fn digit_value_char(c: char, radix: u32) -> (r: Option<u32>)
    requires
        radix <= 36,
    ensures
        match r {
            Some(d) => digit_value(c, radix as nat) == Some(d as nat),
            None => digit_value(c, radix as nat) is None,
        },
{
    let u = c as u32;
    let d: u32 = if 0x30 <= u && u <= 0x39 {
        u - 0x30
    } else if 0x61 <= u && u <= 0x7A {
        u - 0x61 + 10
    } else if 0x41 <= u && u <= 0x5A {
        u - 0x41 + 10
    } else {
        36
    };
    if d < radix {
        Some(d)
    } else {
        None
    }
}

/// A prefix of a run of digits is worth no more than the whole run.
proof fn lemma_digits_value_prefix(s: Seq<char>, radix: nat, i: int)
    requires
        0 <= i <= s.len(),
        radix >= 1,
        digits_value(s, radix) is Some,
    ensures
        digits_value(s.take(i), radix) is Some,
        digits_value(s.take(i), radix).unwrap() <= digits_value(s, radix).unwrap(),
    decreases s.len(),
{
    if i == s.len() {
        assert(s.take(i) =~= s);
    } else {
        let t = s.drop_last();
        lemma_digits_value_prefix(t, radix, i);
        assert(t.take(i) =~= s.take(i));
        let v = digits_value(t, radix).unwrap();
        let d = digit_value(s.last(), radix).unwrap();
        assert(v <= v * radix + d) by (nonlinear_arith)
            requires
                radix >= 1,
        ;
    }
}

/// Parses `v[from..to]` as an unsigned number in base `radix` that must not
/// exceed `max`.
pub fn parse_unsigned_chars(v: &Vec<char>, from: usize, to: usize, radix: u32, max: u64) -> (res:
    Option<u64>)
    requires
        from <= to <= v@.len(),
        2 <= radix <= 36,
    ensures
        match res {
            Some(n) => parse_unsigned(v@.subrange(from as int, to as int), radix as nat, max as nat)
                == Some(n as nat),
            None => parse_unsigned(v@.subrange(from as int, to as int), radix as nat, max as nat) is None,
        },
{
    let ghost s = v@.subrange(from as int, to as int);
    let start: usize = if from < to && v[from] == '+' {
        from + 1
    } else {
        from
    };
    let ghost digits = v@.subrange(start as int, to as int);
    assert(digits =~= (if s.len() > 0 && s[0] == '+' {
        s.drop_first()
    } else {
        s
    }));
    if start == to {
        return None;
    }
    let mut acc: u64 = 0;
    let mut i: usize = start;
    assert(digits.take(0) =~= Seq::<char>::empty());
    while i < to
        invariant
            start <= i <= to <= v@.len(),
            2 <= radix <= 36,
            digits == v@.subrange(start as int, to as int),
            s == v@.subrange(from as int, to as int),
            digits == (if s.len() > 0 && s[0] == '+' {
                s.drop_first()
            } else {
                s
            }),
            digits_value(digits.take(i - start), radix as nat) == Some(acc as nat),
            acc <= max,
        decreases to - i,
    {
        let d = match digit_value_char(v[i], radix) {
            Some(d) => d,
            None => {
                proof {
                    let t = digits.take(i - start + 1);
                    assert(t.drop_last() =~= digits.take(i - start));
                    assert(t.last() == v@[i as int]);
                    assert(digits_value(t, radix as nat) is None);
                    if digits_value(digits, radix as nat) is Some {
                        lemma_digits_value_prefix(digits, radix as nat, i - start + 1);
                    }
                    assert(digits.len() > 0);
                }
                return None;
            },
        };
        proof {
            assert(digits.take(i - start + 1).drop_last() =~= digits.take(i - start));
            assert(digits.take(i - start + 1).last() == v@[i as int]);
        }
        assert((acc as u128) * (radix as u128) <= 0xffff_ffff_ffff_ffff * 36) by (nonlinear_arith)
            requires
                acc <= 0xffff_ffff_ffff_ffffu64,
                radix <= 36,
        ;
        let big: u128 = (acc as u128) * (radix as u128) + (d as u128);
        if big > max as u128 {
            proof {
                if digits_value(digits, radix as nat) is Some {
                    lemma_digits_value_prefix(digits, radix as nat, i - start + 1);
                }
            }
            return None;
        }
        acc = big as u64;
        i = i + 1;
    }
    assert(digits.take(to - start) =~= digits);
    Some(acc)
}

/// Appends the decimal representation of `n` to `out`.
pub fn push_decimal(out: &mut Vec<char>, n: u16)
    ensures
        final(out)@ == old(out)@ + decimal(n as nat),
    decreases n,
{
    if n >= 10 {
        push_decimal(out, n / 10);
    }
    let d = n % 10;
    let c: char = if d == 0 {
        '0'
    } else if d == 1 {
        '1'
    } else if d == 2 {
        '2'
    } else if d == 3 {
        '3'
    } else if d == 4 {
        '4'
    } else if d == 5 {
        '5'
    } else if d == 6 {
        '6'
    } else if d == 7 {
        '7'
    } else if d == 8 {
        '8'
    } else {
        '9'
    };
    assert(c == digit_char(d as nat));
    out.push(c);
}

/// Parsing the decimal representation of a number gives the number back.
pub proof fn lemma_parse_decimal(n: nat, max: nat)
    requires
        n <= max,
    ensures
        parse_unsigned(decimal(n), 10, max) == Some(n),
{
    lemma_digits_value_decimal(n);
    lemma_decimal_first(n);
}

/// A decimal representation is made of the digits `0` to `9` only.
pub proof fn lemma_decimal_digits(n: nat)
    ensures
        forall|i: int|
            0 <= i < decimal(n).len() ==> 0x30 <= (#[trigger] decimal(n)[i]) as u32 <= 0x39,
{
    lemma_decimal_first(n);
}

proof fn lemma_decimal_first(n: nat)
    ensures
        decimal(n).len() > 0,
        decimal(n)[0] != '+',
        forall|i: int| 0 <= i < decimal(n).len() ==> 0x30 <= (#[trigger] decimal(n)[i]) as u32 <= 0x39,
    decreases n,
{
    if n >= 10 {
        lemma_decimal_first(n / 10);
    }
}

proof fn lemma_digits_value_decimal(n: nat)
    ensures
        digits_value(decimal(n), 10) == Some(n),
    decreases n,
{
    if n < 10 {
        let e = decimal(n);
        assert(e.drop_last() =~= Seq::<char>::empty());
        assert(digits_value(e.drop_last(), 10) == Some(0nat));
        assert(e.last() == digit_char(n));
        assert(digit_value(digit_char(n), 10) == Some(n));
        assert(digits_value(e, 10) == Some(0 * 10 + n));
    } else {
        assert(digit_value(digit_char(n % 10), 10) == Some(n % 10));
        lemma_digits_value_decimal(n / 10);
        assert(decimal(n).drop_last() =~= decimal(n / 10));
        assert(decimal(n).last() == digit_char(n % 10));
        assert((n / 10) * 10 + n % 10 == n) by (nonlinear_arith);
        assert(digits_value(decimal(n), 10) == Some((n / 10) * 10 + n % 10));
    }
}

/// The characters of `s`.
pub fn str_chars(s: &str) -> (v: Vec<char>)
    ensures
        v@ == s@,
{
    let mut v: Vec<char> = Vec::new();
    for c in it: s.chars()
        invariant
            v@ == it.seq().take(it.index() as int),
            it.seq() == s@,
    {
        v.push(c);
    }
    v
}

/// A `String` holding `v[from..to]`.
pub fn string_from_chars(v: &Vec<char>, from: usize, to: usize) -> (s: String)
    requires
        from <= to <= v@.len(),
    ensures
        s@ == v@.subrange(from as int, to as int),
{
    let mut s = String::new();
    let mut i: usize = from;
    while i < to
        invariant
            from <= i <= to <= v@.len(),
            s@ == v@.subrange(from as int, i as int),
        decreases to - i,
    {
        push_char(&mut s, v[i]);
        assert(v@.subrange(from as int, i + 1) =~= v@.subrange(from as int, i as int).push(v@[i as int]));
        i = i + 1;
    }
    s
}

/// Whether `v` holds a carriage return or a line feed.
pub fn has_line_break_chars(v: &Vec<char>) -> (r: bool)
    ensures
        r == has_line_break(v@),
{
    let mut i: usize = 0;
    while i < v.len()
        invariant
            i <= v@.len(),
            forall|j: int| 0 <= j < i ==> !(v@[j] == '\r' || v@[j] == '\n'),
        decreases v@.len() - i,
    {
        if v[i] == '\r' || v[i] == '\n' {
            return true;
        }
        i = i + 1;
    }
    false
}

/// Appends `v[from..to]` to `out`.
pub fn push_range(out: &mut Vec<char>, v: &Vec<char>, from: usize, to: usize)
    requires
        from <= to <= v@.len(),
    ensures
        final(out)@ == old(out)@ + v@.subrange(from as int, to as int),
{
    let ghost o = out@;
    let mut i: usize = from;
    while i < to
        invariant
            from <= i <= to <= v@.len(),
            out@ == o + v@.subrange(from as int, i as int),
        decreases to - i,
    {
        out.push(v[i]);
        assert(o + v@.subrange(from as int, i + 1) =~= (o + v@.subrange(from as int, i as int)).push(
            v@[i as int],
        ));
        i = i + 1;
    }
}

} // verus!
