//! The notation of numbers: decimal integers and floating-point literals.

use vstd::prelude::*;

verus! {

/// Whether `c` is one of the ten ASCII digits.
pub open spec fn is_digit(c: char) -> bool {
    '0' <= c <= '9'
}

/// The value of an ASCII digit.
pub open spec fn digit_value(c: char) -> nat {
    (c as int - '0' as int) as nat
}

/// The ASCII digit that stands for `d`, for `d` below ten.
pub open spec fn digit_char(d: nat) -> char {
    (d + '0' as nat) as char
}

/// Every character of `s` is an ASCII digit.
pub open spec fn all_digits(s: Seq<char>) -> bool {
    forall|i: int| 0 <= i < s.len() ==> is_digit(#[trigger] s[i])
}

/// The number that a run of digits denotes in base ten; zero for the empty
/// run.
pub open spec fn digits_value(s: Seq<char>) -> nat
    decreases s.len(),
{
    if s.len() == 0 {
        0
    } else {
        digits_value(s.drop_last()) * 10 + digit_value(s.last())
    }
}

/// The shortest run of digits that denotes `n`.
pub open spec fn decimal(n: nat) -> Seq<char>
    decreases n,
{
    if n < 10 {
        seq![digit_char(n)]
    } else {
        decimal(n / 10).push(digit_char(n % 10))
    }
}

/// The decimal notation of an integer: a minus sign for a negative value,
/// then the digits of its magnitude without leading zeros.
pub open spec fn integer_text(v: int) -> Seq<char> {
    if v < 0 {
        seq!['-'] + decimal((-v) as nat)
    } else {
        decimal(v as nat)
    }
}

/// Whether `s` starts with a plus or minus sign.
pub open spec fn has_sign(s: Seq<char>) -> bool {
    s.len() > 0 && (s[0] == '+' || s[0] == '-')
}

/// `s` without its leading sign, if it has one.
pub open spec fn unsigned_part(s: Seq<char>) -> Seq<char> {
    if has_sign(s) {
        s.skip(1)
    } else {
        s
    }
}

/// The integer that `s` denotes: an optional sign followed by at least one
/// digit and nothing else.
pub open spec fn integer_value(s: Seq<char>) -> Option<int> {
    let digits = unsigned_part(s);
    if digits.len() > 0 && all_digits(digits) {
        if s[0] == '-' {
            Some(-(digits_value(digits) as int))
        } else {
            Some(digits_value(digits) as int)
        }
    } else {
        None
    }
}

/// The signed 64-bit integer that `s` denotes, if it denotes an integer in
/// that range.
pub open spec fn parse_integer(s: Seq<char>) -> Option<i64> {
    match integer_value(s) {
        Some(v) => if i64::MIN <= v <= i64::MAX {
            Some(v as i64)
        } else {
            None
        },
        None => None,
    }
}

/// The number of digits that `s` starts with.
pub open spec fn leading_digits(s: Seq<char>) -> nat
    decreases s.len(),
{
    if s.len() > 0 && is_digit(s[0]) {
        1 + leading_digits(s.drop_first())
    } else {
        0
    }
}

/// `c` in lower case, for an ASCII letter; `c` itself otherwise.
pub open spec fn lower(c: char) -> char {
    if 'A' <= c <= 'Z' {
        ((c as int) + 32) as char
    } else {
        c
    }
}

/// `s` with its ASCII letters in lower case.
pub open spec fn lowered(s: Seq<char>) -> Seq<char> {
    s.map_values(|c: char| lower(c))
}

/// One of the words for infinity and not-a-number, in any letter case.
pub open spec fn is_special_word(s: Seq<char>) -> bool {
    let w = lowered(s);
    w == seq!['i', 'n', 'f'] || w == seq!['n', 'a', 'n'] || w == seq![
        'i',
        'n',
        'f',
        'i',
        'n',
        'i',
        't',
        'y',
    ]
}

/// An exponent: the letter `e` in either case, an optional sign and at least
/// one digit.
pub open spec fn is_exponent(s: Seq<char>) -> bool {
    &&& s.len() > 0
    &&& (s[0] == 'e' || s[0] == 'E')
    &&& unsigned_part(s.skip(1)).len() > 0
    &&& all_digits(unsigned_part(s.skip(1)))
}

/// What follows the integral digits of a decimal number: an optional point
/// with its fraction digits, then an optional exponent. `integral` is the
/// number of digits that came before.
pub open spec fn is_decimal_tail(s: Seq<char>, integral: nat) -> bool {
    if s.len() > 0 && s[0] == '.' {
        let fraction = leading_digits(s.skip(1));
        let rest = s.skip(1 + fraction as int);
        integral + fraction > 0 && (rest.len() == 0 || is_exponent(rest))
    } else {
        integral > 0 && (s.len() == 0 || is_exponent(s))
    }
}

/// A decimal number without sign: digits with an optional point among them
/// or at either end, at least one digit in all, and an optional exponent.
pub open spec fn is_decimal_number(s: Seq<char>) -> bool {
    is_decimal_tail(s.skip(leading_digits(s) as int), leading_digits(s))
}

/// A floating-point literal: an optional sign, then a decimal number or one
/// of the words `inf`, `infinity` and `nan` in any letter case.
pub open spec fn is_float_literal(s: Seq<char>) -> bool {
    let body = unsigned_part(s);
    is_special_word(body) || is_decimal_number(body)
}

/// A run of digits denotes at least what any of its prefixes denotes.
pub proof fn lemma_digits_value_grows(s: Seq<char>, k: int)
    requires
        0 <= k <= s.len(),
    ensures
        digits_value(s.take(k)) <= digits_value(s),
    decreases s.len(),
{
    if k == s.len() {
        assert(s.take(k) =~= s);
    } else {
        lemma_digits_value_grows(s.drop_last(), k);
        assert(s.drop_last().take(k) =~= s.take(k));
    }
}

/// The digits of `n` are digits, at least one, and denote `n`.
pub proof fn lemma_decimal_denotes(n: nat)
    ensures
        decimal(n).len() > 0,
        all_digits(decimal(n)),
        digits_value(decimal(n)) == n,
        !has_sign(decimal(n)),
    decreases n,
{
    if n < 10 {
        let s = decimal(n);
        assert(s.drop_last() =~= Seq::<char>::empty());
        assert(digits_value(s.drop_last()) == 0);
    } else {
        lemma_decimal_denotes(n / 10);
        let s = decimal(n);
        assert(s.drop_last() =~= decimal(n / 10));
        assert(s[0] == decimal(n / 10)[0]);
    }
}

/// Reading the decimal notation of an integer gives the integer back.
pub proof fn lemma_integer_text_reads_back(v: int)
    ensures
        integer_value(integer_text(v)) == Some(v),
{
    if v < 0 {
        let m = (-v) as nat;
        lemma_decimal_denotes(m);
        let s = integer_text(v);
        assert(s.skip(1) =~= decimal(m));
    } else {
        lemma_decimal_denotes(v as nat);
    }
}

/// A character that a number is written with: a digit, a letter, a sign or
/// a point.
pub open spec fn is_number_char(c: char) -> bool {
    is_digit(c) || ('a' <= c <= 'z') || ('A' <= c <= 'Z') || c == '+' || c == '-' || c == '.'
}

/// The digits that a text starts with are digits, and no more than the text
/// holds.
pub proof fn lemma_leading_digits(s: Seq<char>)
    ensures
        leading_digits(s) <= s.len(),
        forall|i: int| 0 <= i < leading_digits(s) ==> is_digit(#[trigger] s[i]),
    decreases s.len(),
{
    if s.len() > 0 && is_digit(s[0]) {
        let rest = s.drop_first();
        lemma_leading_digits(rest);
        assert forall|i: int| 0 <= i < leading_digits(s) implies is_digit(#[trigger] s[i]) by {
            if i > 0 {
                assert(s[i] == rest[i - 1]);
            }
        }
    }
}

/// An exponent is written with number characters.
proof fn lemma_exponent_chars(s: Seq<char>)
    requires
        is_exponent(s),
    ensures
        forall|i: int| 0 <= i < s.len() ==> is_number_char(#[trigger] s[i]),
{
    let after = s.skip(1);
    let digits = unsigned_part(after);
    assert forall|i: int| 0 <= i < s.len() implies is_number_char(#[trigger] s[i]) by {
        if i > 0 {
            assert(s[i] == after[i - 1]);
            if has_sign(after) {
                if i > 1 {
                    assert(after[i - 1] == digits[i - 2]);
                    assert(is_digit(digits[i - 2]));
                }
            } else {
                assert(is_digit(digits[i - 1]));
            }
        }
    }
}

/// A decimal number without sign is written with number characters.
proof fn lemma_decimal_number_chars(s: Seq<char>)
    requires
        is_decimal_number(s),
    ensures
        forall|i: int| 0 <= i < s.len() ==> is_number_char(#[trigger] s[i]),
{
    lemma_leading_digits(s);
    let integral = leading_digits(s) as int;
    let tail = s.skip(integral);
    if tail.len() > 0 && tail[0] == '.' {
        let after = tail.skip(1);
        lemma_leading_digits(after);
        let fraction = leading_digits(after) as int;
        let rest = tail.skip(1 + fraction);
        if rest.len() > 0 {
            lemma_exponent_chars(rest);
        }
        assert forall|i: int| 0 <= i < s.len() implies is_number_char(#[trigger] s[i]) by {
            if i < integral {
            } else if i == integral {
                assert(s[i] == tail[0]);
            } else if i < integral + 1 + fraction {
                assert(s[i] == after[i - integral - 1]);
            } else {
                assert(s[i] == rest[i - integral - 1 - fraction]);
            }
        }
    } else {
        if tail.len() > 0 {
            lemma_exponent_chars(tail);
        }
        assert forall|i: int| 0 <= i < s.len() implies is_number_char(#[trigger] s[i]) by {
            if i >= integral {
                assert(s[i] == tail[i - integral]);
            }
        }
    }
}

/// A floating-point literal is written with number characters.
pub proof fn lemma_float_literal_chars(s: Seq<char>)
    requires
        is_float_literal(s),
    ensures
        forall|i: int| 0 <= i < s.len() ==> is_number_char(#[trigger] s[i]),
{
    let body = unsigned_part(s);
    if is_special_word(body) {
        let w = lowered(body);
        assert forall|i: int| 0 <= i < body.len() implies is_number_char(#[trigger] body[i]) by {
            assert(w[i] == lower(body[i]));
            let inf = seq!['i', 'n', 'f'];
            let nan = seq!['n', 'a', 'n'];
            let infinity = seq!['i', 'n', 'f', 'i', 'n', 'i', 't', 'y'];
            assert(inf[0] == 'i' && inf[1] == 'n' && inf[2] == 'f');
            assert(nan[0] == 'n' && nan[1] == 'a' && nan[2] == 'n');
            assert(infinity[0] == 'i' && infinity[1] == 'n' && infinity[2] == 'f' && infinity[3]
                == 'i');
            assert(infinity[4] == 'n' && infinity[5] == 'i' && infinity[6] == 't' && infinity[7]
                == 'y');
            assert(w == inf || w == nan || w == infinity);
            assert('a' <= w[i] <= 'z');
        }
    } else {
        lemma_decimal_number_chars(body);
    }
    assert forall|i: int| 0 <= i < s.len() implies is_number_char(#[trigger] s[i]) by {
        if has_sign(s) {
            if i > 0 {
                assert(s[i] == body[i - 1]);
            }
        }
    }
}

/// The ASCII digit for `d`.
fn digit_of(d: u64) -> (c: char)
    requires
        d < 10,
    ensures
        c == digit_char(d as nat),
        is_digit(c),
{
    let b: u8 = 48 + (d as u8);
    b as char
}

/// The digits of `n`.
pub fn decimal_digits(n: u64) -> (v: Vec<char>)
    ensures
        v@ == decimal(n as nat),
    decreases n,
{
    if n < 10 {
        let mut v: Vec<char> = Vec::new();
        v.push(digit_of(n));
        v
    } else {
        let mut v = decimal_digits(n / 10);
        v.push(digit_of(n % 10));
        v
    }
}

/// The magnitude of `v`.
pub fn magnitude(v: i64) -> (m: u64)
    ensures
        m == if v < 0 {
            -(v as int)
        } else {
            v as int
        },
{
    if v < 0 {
        let next: i64 = v + 1;
        let below: i64 = -next;
        (below as u64) + 1
    } else {
        v as u64
    }
}

/// Appends the decimal notation of `v` to `out`.
pub fn push_integer(out: &mut String, v: i64)
    ensures
        final(out)@ == old(out)@ + integer_text(v as int),
{
    if v < 0 {
        out.push('-');
    }
    let digits = decimal_digits(magnitude(v));
    let mut i: usize = 0;
    while i < digits.len()
        invariant
            i <= digits.len(),
            out@ == old(out)@ + integer_text(v as int).take(
                i + if v < 0 {
                    1int
                } else {
                    0int
                },
            ),
            digits@ == if v < 0 {
                decimal((-(v as int)) as nat)
            } else {
                decimal(v as nat)
            },
        decreases digits.len() - i,
    {
        out.push(digits[i]);
        i += 1;
    }
    assert(integer_text(v as int).take(integer_text(v as int).len() as int) =~= integer_text(
        v as int,
    ));
}

/// Whether the character is an ASCII digit.
pub fn is_digit_char(c: char) -> (r: bool)
    ensures
        r == is_digit(c),
{
    '0' <= c && c <= '9'
}

/// Reads a signed 64-bit integer in decimal notation.
pub fn read_integer(chars: &Vec<char>) -> (r: Option<i64>)
    ensures
        r == parse_integer(chars@),
{
    let n = chars.len();
    let negative = n > 0 && chars[0] == '-';
    let start: usize = if n > 0 && (chars[0] == '-' || chars[0] == '+') {
        1
    } else {
        0
    };
    let ghost digits = unsigned_part(chars@);
    assert(digits =~= chars@.skip(start as int));
    if start == n {
        return None;
    }
    let limit: u64 = if negative {
        0x8000_0000_0000_0000
    } else {
        0x7fff_ffff_ffff_ffff
    };
    let mut acc: u64 = 0;
    let mut i: usize = start;
    while i < n
        invariant
            start <= i <= n,
            n == chars.len(),
            digits == chars@.skip(start as int),
            digits == unsigned_part(chars@),
            negative == (chars@[0] == '-'),
            all_digits(digits.take(i - start)),
            acc == digits_value(digits.take(i - start)),
            acc <= limit,
            limit == if negative {
                0x8000_0000_0000_0000u64
            } else {
                0x7fff_ffff_ffff_ffffu64
            },
        decreases n - i,
    {
        let c = chars[i];
        assert(c == digits[i - start]);
        if !is_digit_char(c) {
            assert(!all_digits(digits)) by {
                assert(!is_digit(digits[i - start]));
            }
            return None;
        }
        let d: u64 = (c as u64) - 48;
        proof {
            let next = digits.take(i - start + 1);
            assert(next.drop_last() =~= digits.take(i - start));
            assert(next.last() == c);
            assert(digits_value(next) == acc * 10 + d);
            assert(all_digits(next)) by {
                assert forall|j: int| 0 <= j < next.len() implies is_digit(#[trigger] next[j]) by {
                    if j < i - start {
                        assert(next[j] == digits.take(i - start)[j]);
                    }
                }
            }
            if acc > (limit - d) / 10 {
                lemma_digits_value_grows(digits, i - start + 1);
                assert(acc * 10 + d > limit);
                assert(digits_value(digits) > limit);
                assert(parse_integer(chars@) is None);
            }
        }
        if acc > (limit - d) / 10 {
            return None;
        }
        acc = acc * 10 + d;
        i += 1;
    }
    assert(digits.take(n - start) =~= digits);
    if negative {
        if acc == 0x8000_0000_0000_0000 {
            Some(i64::MIN)
        } else {
            let m: i64 = acc as i64;
            Some(-m)
        }
    } else {
        Some(acc as i64)
    }
}

/// The position after the digits that start at `from`.
pub fn skip_digits(chars: &Vec<char>, from: usize) -> (end: usize)
    requires
        from <= chars.len(),
    ensures
        from <= end <= chars.len(),
        end - from == leading_digits(chars@.skip(from as int)),
{
    let mut i: usize = from;
    while i < chars.len() && is_digit_char(chars[i])
        invariant
            from <= i <= chars.len(),
            leading_digits(chars@.skip(from as int)) == (i - from) + leading_digits(
                chars@.skip(i as int),
            ),
        decreases chars.len() - i,
    {
        assert(chars@.skip(i as int).drop_first() =~= chars@.skip(i + 1));
        i += 1;
    }
    i
}

/// Whether everything from `from` on is a digit.
pub fn digits_to_end(chars: &Vec<char>, from: usize) -> (r: bool)
    requires
        from <= chars.len(),
    ensures
        r == all_digits(chars@.skip(from as int)),
{
    let mut i: usize = from;
    while i < chars.len()
        invariant
            from <= i <= chars.len(),
            forall|j: int| from <= j < i ==> is_digit(#[trigger] chars@[j]),
        decreases chars.len() - i,
    {
        if !is_digit_char(chars[i]) {
            assert(!is_digit(chars@.skip(from as int)[i - from]));
            return false;
        }
        i += 1;
    }
    assert forall|j: int| 0 <= j < chars@.skip(from as int).len() implies is_digit(
        #[trigger] chars@.skip(from as int)[j],
    ) by {
        assert(chars@.skip(from as int)[j] == chars@[from + j]);
    }
    true
}

/// Whether an exponent, and nothing else, stands from `from` on.
pub fn exponent_at(chars: &Vec<char>, from: usize) -> (r: bool)
    requires
        from <= chars.len(),
    ensures
        r == is_exponent(chars@.skip(from as int)),
{
    let n = chars.len();
    if from == n {
        return false;
    }
    if chars[from] != 'e' && chars[from] != 'E' {
        return false;
    }
    let ghost after = chars@.skip(from as int).skip(1);
    assert(after =~= chars@.skip(from + 1));
    let mut i: usize = from + 1;
    if i < n && (chars[i] == '+' || chars[i] == '-') {
        i += 1;
    }
    assert(unsigned_part(after) =~= chars@.skip(i as int));
    if i == n {
        return false;
    }
    digits_to_end(chars, i)
}

/// The character in lower case.
fn lower_of(c: char) -> (r: char)
    ensures
        r == lower(c),
{
    if 'A' <= c && c <= 'Z' {
        let b: u8 = (c as u8) + 32;
        b as char
    } else {
        c
    }
}

/// Whether one of the words for infinity and not-a-number, and nothing else,
/// stands from `from` on.
pub fn special_word_at(chars: &Vec<char>, from: usize) -> (r: bool)
    requires
        from <= chars.len(),
    ensures
        r == is_special_word(chars@.skip(from as int)),
{
    let n = chars.len();
    let ghost body = chars@.skip(from as int);
    let ghost w = lowered(body);
    assert(w.len() == n - from);
    if n - from == 3 {
        let a = lower_of(chars[from]);
        let b = lower_of(chars[from + 1]);
        let c = lower_of(chars[from + 2]);
        assert(w[0] == a && w[1] == b && w[2] == c);
        let r = (a == 'i' && b == 'n' && c == 'f') || (a == 'n' && b == 'a' && c == 'n');
        assert(r ==> w =~= seq!['i', 'n', 'f'] || w =~= seq!['n', 'a', 'n']);
        assert(!r ==> w != seq!['i', 'n', 'f'] && w != seq!['n', 'a', 'n']);
        r
    } else if n - from == 8 {
        let a = lower_of(chars[from]);
        let b = lower_of(chars[from + 1]);
        let c = lower_of(chars[from + 2]);
        let d = lower_of(chars[from + 3]);
        let e = lower_of(chars[from + 4]);
        let f = lower_of(chars[from + 5]);
        let g = lower_of(chars[from + 6]);
        let h = lower_of(chars[from + 7]);
        assert(w[0] == a && w[1] == b && w[2] == c && w[3] == d);
        assert(w[4] == e && w[5] == f && w[6] == g && w[7] == h);
        let r = a == 'i' && b == 'n' && c == 'f' && d == 'i' && e == 'n' && f == 'i' && g == 't'
            && h == 'y';
        assert(r ==> w =~= seq!['i', 'n', 'f', 'i', 'n', 'i', 't', 'y']);
        assert(!r ==> w != seq!['i', 'n', 'f', 'i', 'n', 'i', 't', 'y']);
        r
    } else {
        false
    }
}

/// Whether the characters form a floating-point literal.
pub fn reads_as_float(chars: &Vec<char>) -> (r: bool)
    ensures
        r == is_float_literal(chars@),
{
    let n = chars.len();
    let start: usize = if n > 0 && (chars[0] == '+' || chars[0] == '-') {
        1
    } else {
        0
    };
    let ghost body = unsigned_part(chars@);
    assert(body =~= chars@.skip(start as int));
    if special_word_at(chars, start) {
        return true;
    }
    let point = skip_digits(chars, start);
    let integral = point - start;
    assert(body.skip(integral as int) =~= chars@.skip(point as int));
    if point < n && chars[point] == '.' {
        assert(chars@.skip(point as int).skip(1) =~= chars@.skip(point + 1));
        let end = skip_digits(chars, point + 1);
        let fraction = end - (point + 1);
        assert(chars@.skip(point as int).skip(1 + fraction) =~= chars@.skip(end as int));
        if integral + fraction == 0 {
            return false;
        }
        end == n || exponent_at(chars, end)
    } else {
        if integral == 0 {
            return false;
        }
        point == n || exponent_at(chars, point)
    }
}

} // verus!
