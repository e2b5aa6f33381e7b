//! Decimal numbers as text.

use vstd::prelude::*;
use vstd::string::*;

verus! {

/// The pieces of `s` between the characters `sep`, in order. A text without
/// `sep` is one piece; two `sep` in a row hold an empty piece between them.
pub open spec fn spec_split(s: Seq<char>, sep: char) -> Seq<Seq<char>>
    decreases s.len(),
{
    if s.len() == 0 {
        seq![Seq::<char>::empty()]
    } else {
        let head = spec_split(s.drop_last(), sep);
        if s.last() == sep {
            head.push(Seq::<char>::empty())
        } else {
            head.drop_last().push(head.last().push(s.last()))
        }
    }
}

/// `s` begins with `prefix`.
pub open spec fn spec_starts_with(s: Seq<char>, prefix: Seq<char>) -> bool {
    prefix.len() <= s.len() && s.subrange(0, prefix.len() as int) == prefix
}

/// Whether `s` begins with `prefix`.
pub fn starts_with(s: &str, prefix: &str) -> (r: bool)
    ensures
        r == spec_starts_with(s@, prefix@),
{
    let n = prefix.unicode_len();
    if n > s.unicode_len() {
        return false;
    }
    let mut i: usize = 0;
    while i < n
        invariant
            i <= n,
            n == prefix@.len(),
            n <= s@.len(),
            s@.subrange(0, i as int) == prefix@.subrange(0, i as int),
        decreases n - i,
    {
        if s.get_char(i) != prefix.get_char(i) {
            proof {
                assert(s@.subrange(0, n as int)[i as int] != prefix@[i as int]);
            }
            return false;
        }
        proof {
            assert(s@.subrange(0, i + 1) =~= s@.subrange(0, i as int).push(s@[i as int]));
            assert(prefix@.subrange(0, i + 1) =~= prefix@.subrange(0, i as int).push(
                prefix@[i as int],
            ));
        }
        i += 1;
    }
    proof {
        assert(prefix@.subrange(0, n as int) =~= prefix@);
    }
    true
}

/// What splitting a prefix of a text says of splitting the whole: the
/// pieces before the last are pieces of the whole, and where the prefix
/// ends before a separator or at the end of the text, so is the last.
pub proof fn lemma_split_prefix(s: Seq<char>, sep: char, k: int)
    requires
        0 <= k <= s.len(),
    ensures
        spec_split(s.take(k), sep).len() >= 1,
        spec_split(s, sep).len() >= spec_split(s.take(k), sep).len(),
        forall|p: int|
            0 <= p < spec_split(s.take(k), sep).len() - 1 ==> #[trigger] spec_split(s, sep)[p]
                == spec_split(s.take(k), sep)[p],
        k == s.len() || s[k] == sep ==> spec_split(s, sep)[spec_split(s.take(k), sep).len() - 1]
            == spec_split(s.take(k), sep).last(),
    decreases s.len() - k,
{
    lemma_split_len(s.take(k), sep);
    if k == s.len() {
        assert(s.take(k) =~= s);
    } else {
        let here = spec_split(s.take(k), sep);
        let next = spec_split(s.take(k + 1), sep);
        assert(s.take(k + 1).drop_last() =~= s.take(k));
        assert(s.take(k + 1).last() == s[k]);
        lemma_split_prefix(s, sep, k + 1);
        lemma_split_len(s.take(k + 1), sep);
        if s[k] == sep {
            assert(next == here.push(Seq::<char>::empty()));
            assert forall|p: int| 0 <= p < here.len() implies #[trigger] spec_split(s, sep)[p]
                == here[p] by {
                assert(next[p] == here[p]);
            }
        } else {
            assert(next == here.drop_last().push(here.last().push(s[k])));
            assert forall|p: int| 0 <= p < here.len() - 1 implies #[trigger] spec_split(s, sep)[p]
                == here[p] by {
                assert(next[p] == here[p]);
            }
        }
    }
}

/// Splitting gives at least one piece.
pub proof fn lemma_split_len(s: Seq<char>, sep: char)
    ensures
        spec_split(s, sep).len() >= 1,
    decreases s.len(),
{
    if s.len() > 0 {
        lemma_split_len(s.drop_last(), sep);
    }
}

/// The piece of `s` with the number `n`, counted from zero, among those
/// that the character `sep` parts; `None` when there are fewer pieces.
pub fn nth_piece(s: &str, sep: char, n: usize) -> (r: Option<&str>)
    ensures
        match r {
            Some(piece) => n < spec_split(s@, sep).len() && piece@ == spec_split(s@, sep)[n as int],
            None => n >= spec_split(s@, sep).len(),
        },
{
    let len = s.unicode_len();
    let mut index: usize = 0;
    let mut start: usize = 0;
    let mut i: usize = 0;
    proof {
        assert(s@.take(0) =~= Seq::<char>::empty());
        assert(s@.subrange(0, 0) =~= Seq::<char>::empty());
    }
    while i < len
        invariant
            i <= len,
            len == s@.len(),
            start <= i,
            index <= i,
            index <= n,
            spec_split(s@.take(i as int), sep).len() == index + 1,
            spec_split(s@.take(i as int), sep).last() == s@.subrange(start as int, i as int),
        decreases len - i,
    {
        let c = s.get_char(i);
        proof {
            assert(s@.take(i + 1).drop_last() =~= s@.take(i as int));
            assert(s@.take(i + 1).last() == c);
        }
        if c == sep {
            if index == n {
                proof {
                    lemma_split_prefix(s@, sep, i as int);
                }
                return Some(s.substring_char(start, i));
            }
            index += 1;
            start = i + 1;
            proof {
                assert(s@.subrange(i + 1, i + 1) =~= Seq::<char>::empty());
            }
        } else {
            proof {
                assert(s@.subrange(start as int, i + 1) =~= s@.subrange(start as int, i as int).push(
                    c,
                ));
            }
        }
        i += 1;
    }
    proof {
        assert(s@.take(i as int) =~= s@);
    }
    if index == n {
        Some(s.substring_char(start, len))
    } else {
        None
    }
}

/// The value of a decimal digit, or `None` for any other character.
pub open spec fn spec_digit_value(c: char) -> Option<int> {
    if '0' <= c && c <= '9' {
        Some(c as int - '0' as int)
    } else {
        None
    }
}

/// The character of a decimal digit.
pub open spec fn spec_digit_char(d: int) -> char
    recommends
        0 <= d <= 9,
{
    if d == 0 {
        '0'
    } else if d == 1 {
        '1'
    } else if d == 2 {
        '2'
    } else if d == 3 {
        '3'
    } else if d == 4 {
        '4'
    } else if d == 5 {
        '5'
    } else if d == 6 {
        '6'
    } else if d == 7 {
        '7'
    } else if d == 8 {
        '8'
    } else {
        '9'
    }
}

/// Every character is a decimal digit.
pub open spec fn spec_all_digits(s: Seq<char>) -> bool {
    forall|i: int| 0 <= i < s.len() ==> spec_digit_value(#[trigger] s[i]) is Some
}

/// The number that a run of decimal digits writes, most significant first.
pub open spec fn spec_digits_value(s: Seq<char>) -> int
    decreases s.len(),
{
    if s.len() == 0 {
        0
    } else {
        spec_digits_value(s.drop_last()) * 10 + spec_digit_value(s.last()).unwrap()
    }
}

/// The text without a leading sign character, if it has one that is allowed.
pub open spec fn spec_unsigned_part(s: Seq<char>, minus_allowed: bool) -> Seq<char> {
    if s.len() > 0 && (s[0] == '+' || (minus_allowed && s[0] == '-')) {
        s.subrange(1, s.len() as int)
    } else {
        s
    }
}

/// The number that `s` writes in decimal: an optional sign (`+`, and `-`
/// where `min` is negative), then at least one digit and nothing else.
/// `None` when `s` has another form or the number lies outside `min..=max`.
pub open spec fn spec_parse_decimal(s: Seq<char>, min: int, max: int) -> Option<int> {
    let digits = spec_unsigned_part(s, min < 0);
    let negative = min < 0 && s.len() > 0 && s[0] == '-';
    let value = if negative {
        -spec_digits_value(digits)
    } else {
        spec_digits_value(digits)
    };
    if digits.len() > 0 && spec_all_digits(digits) && min <= value <= max {
        Some(value)
    } else {
        None
    }
}

/// The decimal digits of a natural number, without leading zeros.
pub open spec fn spec_decimal_digits(n: nat) -> Seq<char>
    decreases n,
{
    if n < 10 {
        seq![spec_digit_char(n as int)]
    } else {
        spec_decimal_digits(n / 10).push(spec_digit_char((n % 10) as int))
    }
}

/// An integer in decimal, with a leading `-` when it is negative.
pub open spec fn spec_decimal(n: int) -> Seq<char> {
    if n < 0 {
        seq!['-'] + spec_decimal_digits((-n) as nat)
    } else {
        spec_decimal_digits(n as nat)
    }
}

/// A longer run of digits writes a number that is no smaller.
pub proof fn lemma_digits_value_grows(s: Seq<char>, k: int)
    requires
        spec_all_digits(s),
        0 <= k <= s.len(),
    ensures
        0 <= spec_digits_value(s.take(k)) <= spec_digits_value(s),
    decreases s.len() - k,
{
    lemma_digits_value_nonnegative(s.take(k));
    if k < s.len() {
        lemma_digits_value_grows(s, k + 1);
        assert(s.take(k + 1).drop_last() =~= s.take(k));
        assert(s.take(k + 1).last() == s[k]);
    } else {
        assert(s.take(k) =~= s);
    }
}

proof fn lemma_digits_value_nonnegative(s: Seq<char>)
    requires
        spec_all_digits(s),
    ensures
        0 <= spec_digits_value(s),
    decreases s.len(),
{
    if s.len() > 0 {
        assert forall|i: int| 0 <= i < s.drop_last().len() implies spec_digit_value(
            #[trigger] s.drop_last()[i],
        ) is Some by {
            assert(s.drop_last()[i] == s[i]);
        }
        lemma_digits_value_nonnegative(s.drop_last());
        assert(spec_digit_value(s[s.len() - 1]) is Some);
    }
}

fn digit_value(c: char) -> (r: Option<u8>)
    ensures
        r is Some == spec_digit_value(c) is Some,
        r matches Some(d) ==> d as int == spec_digit_value(c).unwrap() && d <= 9,
{
    if '0' <= c && c <= '9' {
        Some(((c as u32) - ('0' as u32)) as u8)
    } else {
        None
    }
}

/// Reads a decimal number that fits a byte.
pub fn parse_u8(s: &str) -> (r: Option<u8>)
    ensures
        r == match spec_parse_decimal(s@, 0, 255) {
            Some(v) => Some(v as u8),
            None => None,
        },
{
    match parse_decimal(s, 0, 255) {
        Some(v) => Some(v as u8),
        None => None,
    }
}

/// Reads a decimal number that fits 32 bits with a sign.
pub fn parse_i32(s: &str) -> (r: Option<i32>)
    ensures
        r == match spec_parse_decimal(s@, i32::MIN as int, i32::MAX as int) {
            Some(v) => Some(v as i32),
            None => None,
        },
{
    match parse_decimal(s, -0x8000_0000, 0x7fff_ffff) {
        Some(v) => Some(v as i32),
        None => None,
    }
}

/// Reads a decimal number within `min..=max`.
fn parse_decimal(s: &str, min: i64, max: i64) -> (r: Option<i64>)
    requires
        -0x8000_0000_0000 <= min <= 0 <= max <= 0x7fff_ffff_ffff,
    ensures
        r == match spec_parse_decimal(s@, min as int, max as int) {
            Some(v) => Some(v as i64),
            None => None,
        },
{
    let n = s.unicode_len();
    let mut start: usize = 0;
    let mut negative = false;
    if n > 0 {
        let c = s.get_char(0);
        if c == '+' {
            start = 1;
        } else if c == '-' && min < 0 {
            start = 1;
            negative = true;
        }
    }
    let ghost digits = spec_unsigned_part(s@, min < 0);
    assert(digits =~= s@.subrange(start as int, n as int));
    if start == n {
        return None;
    }
    let limit: i64 = if negative { -min } else { max };
    let mut acc: i64 = 0;
    let mut i: usize = start;
    while i < n
        invariant
            start <= i <= n,
            n == s@.len(),
            digits == s@.subrange(start as int, n as int),
            digits == spec_unsigned_part(s@, min < 0),
            negative == (min < 0 && s@.len() > 0 && s@[0] == '-'),
            limit as int == if negative { -(min as int) } else { max as int },
            min <= 0 <= max,
            spec_all_digits(digits.take(i - start)),
            acc == spec_digits_value(digits.take(i - start)),
            0 <= acc <= limit <= 0x8000_0000_0000,
        decreases n - i,
    {
        let c = s.get_char(i);
        let ghost prefix = digits.take(i - start);
        let ghost next = digits.take(i + 1 - start);
        proof {
            assert(next.drop_last() =~= prefix);
            assert(next.last() == c);
        }
        match digit_value(c) {
            None => {
                proof {
                    assert(digits[i - start] == c);
                    assert(!spec_all_digits(digits));
                }
                return None;
            },
            Some(d) => {
                proof {
                    assert forall|k: int| 0 <= k < next.len() implies spec_digit_value(
                        #[trigger] next[k],
                    ) is Some by {
                        if k < prefix.len() {
                            assert(next[k] == prefix[k]);
                        }
                    }
                }
                if d as i64 > limit || acc > (limit - d as i64) / 10 {
                    proof {
                        assert(spec_digits_value(next) > limit) by (nonlinear_arith)
                            requires
                                spec_digits_value(next) == acc * 10 + d,
                                d > limit || acc > (limit - d) / 10,
                                0 <= d <= 9,
                                0 <= acc,
                        ;
                        if spec_all_digits(digits) {
                            lemma_digits_value_grows(digits, i + 1 - start);
                        }
                    }
                    return None;
                }
                assert(acc * 10 + d <= limit) by (nonlinear_arith)
                    requires
                        d <= limit,
                        acc <= (limit - d) / 10,
                        0 <= d <= 9,
                        0 <= acc,
                ;
                acc = acc * 10 + d as i64;
            },
        }
        i += 1;
    }
    proof {
        assert(digits.take(i - start) =~= digits);
    }
    if negative {
        Some(-acc)
    } else {
        Some(acc)
    }
}


fn digit_text(d: u8) -> (r: &'static str)
    requires
        d <= 9,
    ensures
        r@ == seq![spec_digit_char(d as int)],
{
    proof {
        reveal_strlit("0");
        reveal_strlit("1");
        reveal_strlit("2");
        reveal_strlit("3");
        reveal_strlit("4");
        reveal_strlit("5");
        reveal_strlit("6");
        reveal_strlit("7");
        reveal_strlit("8");
        reveal_strlit("9");
    }
    let r = if d == 0 {
        "0"
    } else if d == 1 {
        "1"
    } else if d == 2 {
        "2"
    } else if d == 3 {
        "3"
    } else if d == 4 {
        "4"
    } else if d == 5 {
        "5"
    } else if d == 6 {
        "6"
    } else if d == 7 {
        "7"
    } else if d == 8 {
        "8"
    } else {
        "9"
    };
    proof {
        assert(r@ =~= seq![spec_digit_char(d as int)]);
    }
    r
}

fn append_digits(out: &mut String, n: u32)
    ensures
        final(out)@ == old(out)@ + spec_decimal_digits(n as nat),
    decreases n,
{
    if n >= 10 {
        append_digits(out, n / 10);
    }
    out.append(digit_text((n % 10) as u8));
    proof {
        if n >= 10 {
            assert(old(out)@ + spec_decimal_digits((n / 10) as nat) + seq![
                spec_digit_char((n % 10) as int),
            ] =~= old(out)@ + spec_decimal_digits(n as nat));
        }
    }
}

/// Appends `n` in decimal to `out`.
pub fn append_decimal(out: &mut String, n: i32)
    ensures
        final(out)@ == old(out)@ + spec_decimal(n as int),
{
    if n < 0 {
        proof {
            reveal_strlit("-");
        }
        out.append("-");
        let m: u32 = (-(n as i64)) as u32;
        append_digits(out, m);
        proof {
            assert("-"@ =~= seq!['-']);
            assert(old(out)@ + seq!['-'] + spec_decimal_digits(m as nat) =~= old(out)@
                + spec_decimal(n as int));
        }
    } else {
        append_digits(out, n as u32);
    }
}

} // verus!
