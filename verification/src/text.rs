//! Decimal text: turning integers into digit strings and digit strings back
//! into integers, with the spec-level grammar shared by the frame parser,
//! the command grammar and the reply encoder.

use vstd::prelude::*;

verus! {

/// `c` is one of the ten ASCII decimal digits.
pub open spec fn is_digit_char(c: char) -> bool {
    48 <= c as u32 <= 57
}

/// Numeric value of a digit character.
pub open spec fn digit_of(c: char) -> nat
    recommends
        is_digit_char(c),
{
    (c as u32 - 48) as nat
}

/// The digit character for a value below ten.
pub open spec fn char_of_digit(d: nat) -> char
    recommends
        d < 10,
{
    if d == 0 {
        '0'
    } else if d == 1 {
        '1'
    } else if d == 2 {
        '2'
    } else if d == 3 {
        '3'
    } else if d == 4 {
        '4'
    } else if d == 5 {
        '5'
    } else if d == 6 {
        '6'
    } else if d == 7 {
        '7'
    } else if d == 8 {
        '8'
    } else {
        '9'
    }
}

/// Every character of `s` is a decimal digit.
pub open spec fn all_digits(s: Seq<char>) -> bool {
    forall|i: int| 0 <= i < s.len() ==> is_digit_char(s[i])
}

/// Decimal digit string of a natural number, most significant digit first,
/// without a sign and without leading zeros (except for zero itself).
pub open spec fn nat_to_chars(n: nat) -> Seq<char>
    decreases n,
{
    if n < 10 {
        seq![char_of_digit(n)]
    } else {
        nat_to_chars(n / 10).push(char_of_digit(n % 10))
    }
}

/// Decimal digit string of an integer: a leading `-` for negative values.
pub open spec fn int_to_chars(i: int) -> Seq<char> {
    if i < 0 {
        seq!['-'] + nat_to_chars((-i) as nat)
    } else {
        nat_to_chars(i as nat)
    }
}

/// Value of a digit string read as a base-ten numeral.
pub open spec fn digits_val(s: Seq<char>) -> nat
    decreases s.len(),
{
    if s.len() == 0 {
        0
    } else {
        digits_val(s.drop_last()) * 10 + digit_of(s.last())
    }
}

/// Ten to the `n`.
pub open spec fn pow10(n: nat) -> nat
    decreases n,
{
    if n == 0 {
        1
    } else {
        10 * pow10((n - 1) as nat)
    }
}

pub proof fn lemma_pow10_pos(n: nat)
    ensures
        pow10(n) >= 1,
    decreases n,
{
    if n > 0 {
        lemma_pow10_pos((n - 1) as nat);
    }
}

/// The digit string of a number consists of digits, is non-empty, and
/// starts with `0` only for the number zero itself.
pub proof fn lemma_nat_to_chars_shape(n: nat)
    ensures
        all_digits(nat_to_chars(n)),
        nat_to_chars(n).len() >= 1,
        nat_to_chars(n)[0] == '0' <==> n == 0,
    decreases n,
{
    if n >= 10 {
        lemma_nat_to_chars_shape(n / 10);
    }
}

/// Reading the digit string of `n` back as a numeral gives `n`.
pub proof fn lemma_digits_val_nat_to_chars(n: nat)
    ensures
        digits_val(nat_to_chars(n)) == n,
    decreases n,
{
    lemma_digit_roundtrip(n % 10);
    if n < 10 {
        assert(n % 10 == n);
        assert(nat_to_chars(n) =~= seq![char_of_digit(n)]);
        assert(nat_to_chars(n).drop_last() =~= Seq::<char>::empty());
        assert(digits_val(Seq::<char>::empty()) == 0);
        assert(digits_val(nat_to_chars(n)) == digit_of(char_of_digit(n)));
    } else {
        lemma_digits_val_nat_to_chars(n / 10);
        assert(nat_to_chars(n).drop_last() =~= nat_to_chars(n / 10));
        assert(nat_to_chars(n).last() == char_of_digit(n % 10));
    }
}

/// The digit character of `d` reads back as `d`.
pub proof fn lemma_digit_roundtrip(d: nat)
    requires
        d < 10,
    ensures
        is_digit_char(char_of_digit(d)),
        digit_of(char_of_digit(d)) == d,
{
    if d == 0 {
        assert('0' as u32 == 48);
    } else if d == 1 {
        assert('1' as u32 == 49);
    } else if d == 2 {
        assert('2' as u32 == 50);
    } else if d == 3 {
        assert('3' as u32 == 51);
    } else if d == 4 {
        assert('4' as u32 == 52);
    } else if d == 5 {
        assert('5' as u32 == 53);
    } else if d == 6 {
        assert('6' as u32 == 54);
    } else if d == 7 {
        assert('7' as u32 == 55);
    } else if d == 8 {
        assert('8' as u32 == 56);
    } else {
        assert('9' as u32 == 57);
    }
}

/// Splitting a numeral: the left part is scaled by ten to the length of the
/// right part.
pub proof fn lemma_digits_val_concat(a: Seq<char>, b: Seq<char>)
    ensures
        digits_val(a + b) == digits_val(a) * pow10(b.len()) + digits_val(b),
    decreases b.len(),
{
    if b.len() == 0 {
        assert(a + b =~= a);
        assert(digits_val(a) * pow10(b.len()) >= 0) by (nonlinear_arith);
        assert(digits_val(a) * pow10(b.len()) == digits_val(a)) by (nonlinear_arith)
            requires
                pow10(b.len()) == 1,
        ;
    } else {
        lemma_digits_val_concat(a, b.drop_last());
        assert((a + b).drop_last() =~= a + b.drop_last());
        assert((a + b).last() == b.last());
        let x = digits_val(a) as int;
        let p = pow10((b.len() - 1) as nat) as int;
        let y = digits_val(b.drop_last()) as int;
        let d = digit_of(b.last()) as int;
        assert(digits_val(a + b) == (x * p + y) * 10 + d);
        assert(digits_val(b) == y * 10 + d);
        assert(pow10(b.len()) == 10 * p);
        assert((x * p + y) * 10 + d == x * (10 * p) + (y * 10 + d)) by (nonlinear_arith);
        assert(x * (10 * p) == x * pow10(b.len())) by (nonlinear_arith)
            requires
                pow10(b.len()) == 10 * p,
        ;
        assert(x * pow10(b.len()) >= 0) by (nonlinear_arith)
            requires
                x >= 0,
                pow10(b.len()) >= 0,
        ;
        assert(digits_val(a + b) == x * pow10(b.len()) + digits_val(b));
        assert(digits_val(a) * pow10(b.len()) == x * pow10(b.len())) by (nonlinear_arith)
            requires
                x == digits_val(a),
        ;
        assert(digits_val(a + b) == digits_val(a) * pow10(b.len()) + digits_val(b));
    }
}

/// Appends the single digit `d` to `out`.
pub fn append_digit(out: &mut String, d: u64)
    requires
        d < 10,
    ensures
        final(out)@ == old(out)@.push(char_of_digit(d as nat)),
{
    if d == 0 {
        out.append("0");
        proof {
            reveal_strlit("0");
        }
    } else if d == 1 {
        out.append("1");
        proof {
            reveal_strlit("1");
        }
    } else if d == 2 {
        out.append("2");
        proof {
            reveal_strlit("2");
        }
    } else if d == 3 {
        out.append("3");
        proof {
            reveal_strlit("3");
        }
    } else if d == 4 {
        out.append("4");
        proof {
            reveal_strlit("4");
        }
    } else if d == 5 {
        out.append("5");
        proof {
            reveal_strlit("5");
        }
    } else if d == 6 {
        out.append("6");
        proof {
            reveal_strlit("6");
        }
    } else if d == 7 {
        out.append("7");
        proof {
            reveal_strlit("7");
        }
    } else if d == 8 {
        out.append("8");
        proof {
            reveal_strlit("8");
        }
    } else {
        out.append("9");
        proof {
            reveal_strlit("9");
        }
    }
    proof {
        assert(final(out)@ =~= old(out)@.push(char_of_digit(d as nat)));
    }
}

/// Appends the decimal digits of `n` to `out`.
pub fn append_u128(out: &mut String, n: u128)
    ensures
        final(out)@ == old(out)@ + nat_to_chars(n as nat),
    decreases n,
{
    if n < 10 {
        append_digit(out, n as u64);
        proof {
            assert(final(out)@ =~= old(out)@ + nat_to_chars(n as nat));
        }
    } else {
        append_u128(out, n / 10);
        append_digit(out, (n % 10) as u64);
        proof {
            assert(final(out)@ =~= old(out)@ + nat_to_chars(n as nat));
        }
    }
}

/// Appends the decimal digits of `n` to `out`.
pub fn append_u64(out: &mut String, n: u64)
    ensures
        final(out)@ == old(out)@ + nat_to_chars(n as nat),
{
    append_u128(out, n as u128);
}

/// Appends the decimal form of `i`, with a `-` sign when negative, to `out`.
pub fn append_i64(out: &mut String, i: i64)
    ensures
        final(out)@ == old(out)@ + int_to_chars(i as int),
{
    if i < 0 {
        out.append("-");
        proof {
            reveal_strlit("-");
            assert(out@ =~= old(out)@.push('-'));
        }
        let mag = (-(i as i128)) as u128;
        append_u128(out, mag);
        proof {
            assert(final(out)@ =~= old(out)@ + int_to_chars(i as int));
        }
    } else {
        append_u128(out, i as u128);
    }
}

/// The decimal form of `i` as a fresh string.
pub fn i64_to_string(i: i64) -> (r: String)
    ensures
        r@ == int_to_chars(i as int),
{
    let mut out = String::new();
    append_i64(&mut out, i);
    proof {
        assert(out@ =~= int_to_chars(i as int));
    }
    out
}

/// What a whole string denotes as a signed 64-bit integer: an optional sign,
/// then one or more digits, rejected when out of range. This is the grammar
/// std's integer parsing accepts.
pub open spec fn spec_i64_of_text(s: Seq<char>) -> Option<int> {
    let signed = s.len() > 0 && (s[0] == '+' || s[0] == '-');
    let digits = if signed {
        s.drop_first()
    } else {
        s
    };
    if digits.len() > 0 && all_digits(digits) {
        let v: int = if s.len() > 0 && s[0] == '-' {
            -(digits_val(digits) as int)
        } else {
            digits_val(digits) as int
        };
        if i64::MIN <= v <= i64::MAX {
            Some(v)
        } else {
            None
        }
    } else {
        None
    }
}

/// Parses a whole string as a signed 64-bit integer.
#[verifier::loop_isolation(false)]
pub fn parse_i64_str(s: &str) -> (r: Option<i64>)
    ensures
        match r {
            Some(v) => spec_i64_of_text(s@) == Some(v as int),
            None => spec_i64_of_text(s@) is None,
        },
{
    let n = s.unicode_len();
    let mut idx: usize = 0;
    let mut neg = false;
    if n > 0 {
        let c0 = s.get_char(0);
        if c0 == '+' || c0 == '-' {
            idx = 1;
            neg = c0 == '-';
        }
    }
    if idx == n {
        return None;
    }
    let ghost digits = if idx == 1 {
        s@.drop_first()
    } else {
        s@
    };
    proof {
        assert(digits =~= s@.subrange(idx as int, n as int));
    }
    // The magnitude bound we may not exceed: 2^63 for negative numbers,
    // 2^63 - 1 otherwise.
    let cap: u64 = if neg {
        9223372036854775808
    } else {
        9223372036854775807
    };
    let mut acc: u64 = 0;
    let mut i: usize = idx;
    while i < n
        invariant
            idx <= i <= n,
            n == s@.len(),
            digits == s@.subrange(idx as int, n as int),
            all_digits(s@.subrange(idx as int, i as int)),
            acc == digits_val(s@.subrange(idx as int, i as int)),
            acc <= cap,
            cap == if neg {
                9223372036854775808u64
            } else {
                9223372036854775807u64
            },
        decreases n - i,
    {
        let c = s.get_char(i);
        let u = c as u32;
        if u < 48 || u > 57 {
            proof {
                assert(!is_digit_char(digits[i - idx]));
            }
            return None;
        }
        let d = (u - 48) as u64;
        proof {
            assert(s@.subrange(idx as int, i + 1 as int).drop_last() =~= s@.subrange(
                idx as int,
                i as int,
            ));
            assert(s@.subrange(idx as int, i + 1 as int).last() == s@[i as int]);
        }
        if acc > (cap - d) / 10 {
            // The value so far already exceeds the magnitude bound; any
            // further digits only increase it.
            proof {
                let pre = s@.subrange(idx as int, i + 1 as int);
                assert(digits_val(pre) == acc * 10 + d);
                assert(acc * 10 + d > cap) by (nonlinear_arith)
                    requires
                        acc > (cap - d) / 10,
                        d < 10,
                        cap >= 9223372036854775807,
                ;
                assert(digits =~= pre + s@.subrange(i + 1 as int, n as int));
                lemma_digits_val_concat(pre, s@.subrange(i + 1 as int, n as int));
                lemma_pow10_pos(s@.subrange(i + 1 as int, n as int).len());
                assert(digits_val(pre) * pow10(s@.subrange(i + 1 as int, n as int).len())
                    >= digits_val(pre) * 1) by (nonlinear_arith)
                    requires
                        pow10(s@.subrange(i + 1 as int, n as int).len()) >= 1,
                ;
                assert(digits_val(digits) > cap);
            }
            return None;
        }
        proof {
            assert(acc * 10 + d <= cap) by (nonlinear_arith)
                requires
                    acc <= (cap - d) / 10,
                    d < 10,
                    cap >= 1,
                    d <= cap,
            ;
        }
        acc = acc * 10 + d;
        i = i + 1;
    }
    proof {
        assert(s@.subrange(idx as int, n as int) =~= digits);
    }
    if neg {
        let v = (-(acc as i128)) as i64;
        proof {
            assert(spec_i64_of_text(s@) == Some(v as int));
        }
        Some(v)
    } else {
        proof {
            assert(spec_i64_of_text(s@) == Some(acc as int));
        }
        Some(acc as i64)
    }
}

} // verus!
