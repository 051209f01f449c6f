//! Exact decimal numbers for the floating-increment command: a value is
//! `mant / 10^scale`. The grammar only admits `-?digits(.digits)?`, so every
//! increment and every stored numeric text is such a decimal; addition and
//! formatting are exact integer arithmetic.

use vstd::prelude::*;

use crate::text::{
    all_digits, digits_val, is_digit_char, lemma_pow10_pos, nat_to_chars, pow10,
};
use crate::parse::{digits_end, lemma_digits_end_bounds};

verus! {

/// A signed decimal `mant / 10^scale`.
#[derive(Clone, Copy, Debug, PartialEq, Eq)]
pub struct Dec {
    pub mant: i128,
    pub scale: u32,
}

/// The mathematical shape of a `Dec`.
pub struct DecModel {
    pub mant: int,
    pub scale: nat,
}

impl View for Dec {
    type V = DecModel;

    open spec fn view(&self) -> DecModel {
        DecModel { mant: self.mant as int, scale: self.scale as nat }
    }
}

/// The bound every decimal read from text obeys: at most eighteen fraction
/// digits, and a mantissa from a 64-bit integer part plus one fraction unit.
pub open spec fn dec_tight(d: DecModel) -> bool {
    &&& d.scale <= 18
    &&& -10000000000000000000 * pow10(d.scale) <= d.mant <= 10000000000000000000 * pow10(d.scale)
}

/// Exact sum of two decimals: align to the larger scale, add mantissas.
pub open spec fn spec_dec_add(a: DecModel, b: DecModel) -> DecModel {
    let k = if a.scale >= b.scale {
        a.scale
    } else {
        b.scale
    };
    DecModel {
        mant: a.mant * pow10((k - a.scale) as nat) + b.mant * pow10((k - b.scale) as nat),
        scale: k,
    }
}

/// Strips trailing zero fraction digits: the same number at the smallest
/// scale.
pub open spec fn spec_dec_norm(mag: nat, scale: nat) -> (nat, nat)
    decreases scale,
{
    if scale > 0 && mag % 10 == 0 {
        spec_dec_norm(mag / 10, (scale - 1) as nat)
    } else {
        (mag, scale)
    }
}

/// `n` zero characters.
pub open spec fn zeroes(n: nat) -> Seq<char>
    decreases n,
{
    if n == 0 {
        Seq::empty()
    } else {
        zeroes((n - 1) as nat).push('0')
    }
}

/// The decimal text of `mant / 10^scale`: trailing zero fraction digits are
/// dropped, a whole number keeps no decimal point, negative numbers carry a
/// leading minus sign (the mantissa zero is never negative).
pub open spec fn spec_dec_chars(mant: int, scale: nat) -> Seq<char> {
    let mag = if mant < 0 {
        (-mant) as nat
    } else {
        mant as nat
    };
    let norm = spec_dec_norm(mag, scale);
    let m2 = norm.0;
    let s2 = norm.1;
    let sign: Seq<char> = if mant < 0 {
        seq!['-']
    } else {
        Seq::empty()
    };
    if s2 == 0 {
        sign + nat_to_chars(m2)
    } else {
        let ds = nat_to_chars(m2);
        let padded: Seq<char> = if ds.len() < s2 + 1 {
            zeroes((s2 + 1 - ds.len()) as nat) + ds
        } else {
            ds
        };
        sign + padded.subrange(0, padded.len() - s2) + seq!['.'] + padded.subrange(
            padded.len() - s2,
            padded.len() as int,
        )
    }
}

/// A decimal numeral at `pos`: an optional minus sign, an integer part that
/// must fit a signed 64-bit word, and optionally a point with at most
/// eighteen fraction digits. The sign belongs to the integer part alone: a
/// zero integer part never makes the number negative.
pub open spec fn spec_parse_dec(s: Seq<char>, pos: int) -> Option<(DecModel, int)>
    recommends
        0 <= pos <= s.len(),
{
    let neg = pos < s.len() && s[pos] == '-';
    let dstart = if neg {
        pos + 1
    } else {
        pos
    };
    let e = digits_end(s, dstart);
    if e == dstart {
        None
    } else {
        let bmag = digits_val(s.subrange(dstart, e));
        let base: int = if neg {
            -(bmag as int)
        } else {
            bmag as int
        };
        if i64::MIN <= base <= i64::MAX {
            if e + 1 < s.len() && s[e] == '.' && is_digit_char(s[e + 1]) {
                let f = digits_end(s, e + 1);
                let flen = f - e - 1;
                if flen <= 18 {
                    let fval = digits_val(s.subrange(e + 1, f));
                    let mant: int = if base < 0 {
                        base * pow10(flen as nat) - fval
                    } else {
                        base * pow10(flen as nat) + fval
                    };
                    Some((DecModel { mant, scale: flen as nat }, f))
                } else {
                    None
                }
            } else {
                Some((DecModel { mant: base, scale: 0 }, e))
            }
        } else {
            None
        }
    }
}

/// A parsed decimal always obeys the tightness bound.
pub proof fn lemma_parse_dec_tight(s: Seq<char>, pos: int)
    requires
        0 <= pos <= s.len(),
        spec_parse_dec(s, pos) is Some,
    ensures
        dec_tight(spec_parse_dec(s, pos).unwrap().0),
        pos < spec_parse_dec(s, pos).unwrap().1 <= s.len(),
{
    let neg = pos < s.len() && s[pos] == '-';
    let dstart: int = if neg {
        pos + 1
    } else {
        pos
    };
    lemma_digits_end_bounds(s, dstart);
    let e = digits_end(s, dstart);
    let bmag = digits_val(s.subrange(dstart, e));
    let base: int = if neg {
        -(bmag as int)
    } else {
        bmag as int
    };
    let d = spec_parse_dec(s, pos).unwrap().0;
    if e + 1 < s.len() && s[e] == '.' && is_digit_char(s[e + 1]) {
        lemma_digits_end_bounds(s, e + 1);
        let f = digits_end(s, e + 1);
        let flen = (f - e - 1) as nat;
        let fval = digits_val(s.subrange(e + 1, f));
        lemma_digits_val_len_bound(s.subrange(e + 1, f));
        lemma_pow10_pos(flen);
        assert(fval < pow10(flen));
        assert(-9223372036854775808 <= base <= 9223372036854775807);
        assert(base * pow10(flen) <= 9223372036854775807 * pow10(flen) && -9223372036854775808
            * pow10(flen) <= base * pow10(flen)) by (nonlinear_arith)
            requires
                -9223372036854775808 <= base <= 9223372036854775807,
                pow10(flen) >= 1,
        ;
        assert(9223372036854775808 * pow10(flen) + pow10(flen) <= 10000000000000000000 * pow10(
            flen,
        )) by (nonlinear_arith)
            requires
                pow10(flen) >= 1,
        ;
        assert(dec_tight(d));
    } else {
        lemma_pow10_pos(0);
        assert(pow10(0) == 1);
        assert(dec_tight(d));
    }
}

/// A numeral of digits is smaller than ten to its length.
pub proof fn lemma_digits_val_len_bound(s: Seq<char>)
    requires
        all_digits(s),
    ensures
        digits_val(s) < pow10(s.len()),
    decreases s.len(),
{
    if s.len() == 0 {
    } else {
        assert(all_digits(s.drop_last())) by {
            assert(forall|i: int| 0 <= i < s.len() - 1 ==> s.drop_last()[i] == s[i]);
        }
        lemma_digits_val_len_bound(s.drop_last());
        let v = digits_val(s.drop_last()) as int;
        let d = crate::text::digit_of(s.last()) as int;
        assert(is_digit_char(s.last()));
        assert(d <= 9);
        assert(v * 10 + d < pow10(s.len())) by (nonlinear_arith)
            requires
                v < pow10((s.len() - 1) as nat),
                d <= 9,
                v >= 0,
                pow10(s.len()) == 10 * pow10((s.len() - 1) as nat),
        ;
    }
}

/// Ten to the `n` as a machine word, for small `n`.
pub fn pow10_i128(n: u32) -> (r: i128)
    requires
        n <= 18,
    ensures
        r == pow10(n as nat),
        1 <= r <= 1000000000000000000,
{
    proof {
        lemma_pow10_18();
    }
    let mut r: i128 = 1;
    let mut i: u32 = 0;
    while i < n
        invariant
            i <= n,
            n <= 18,
            r == pow10(i as nat),
            r <= 1000000000000000000,
        decreases n - i,
    {
        proof {
            lemma_pow10_mono((i + 1) as nat, 18);
            lemma_pow10_18();
        }
        r = r * 10;
        i = i + 1;
    }
    proof {
        lemma_pow10_pos(n as nat);
    }
    r
}

/// The value of ten to the eighteenth.
pub proof fn lemma_pow10_18()
    ensures
        pow10(18) == 1000000000000000000,
{
    assert(pow10(0) == 1);
    assert(pow10(1) == 10);
    assert(pow10(2) == 100);
    assert(pow10(3) == 1000);
    assert(pow10(4) == 10000);
    assert(pow10(5) == 100000);
    assert(pow10(6) == 1000000);
    assert(pow10(7) == 10000000);
    assert(pow10(8) == 100000000);
    assert(pow10(9) == 1000000000);
    assert(pow10(10) == 10000000000);
    assert(pow10(11) == 100000000000);
    assert(pow10(12) == 1000000000000);
    assert(pow10(13) == 10000000000000);
    assert(pow10(14) == 100000000000000);
    assert(pow10(15) == 1000000000000000);
    assert(pow10(16) == 10000000000000000);
    assert(pow10(17) == 100000000000000000);
    assert(pow10(18) == 1000000000000000000);
}

/// Ten to the power is monotone in the exponent.
pub proof fn lemma_pow10_mono(a: nat, b: nat)
    requires
        a <= b,
    ensures
        pow10(a) <= pow10(b),
    decreases b,
{
    if a < b {
        lemma_pow10_mono(a, (b - 1) as nat);
        lemma_pow10_pos((b - 1) as nat);
    }
}

/// Exact sum of two tight decimals.
pub fn dec_add(a: Dec, b: Dec) -> (r: Dec)
    requires
        dec_tight(a@),
        dec_tight(b@),
    ensures
        r@ == spec_dec_add(a@, b@),
        r.scale <= 18,
        r.mant > i128::MIN,
{
    let k = if a.scale >= b.scale {
        a.scale
    } else {
        b.scale
    };
    let pa = pow10_i128(k - a.scale);
    let pb = pow10_i128(k - b.scale);
    proof {
        lemma_pow10_18();
        lemma_pow10_mono(a.scale as nat, 18);
        lemma_pow10_mono(b.scale as nat, 18);
        lemma_pow10_mono(k as nat, 18);
        lemma_dec_mul_bound(a.mant as int, pa as int, a.scale as nat, k as nat);
        lemma_dec_mul_bound(b.mant as int, pb as int, b.scale as nat, k as nat);
    }
    let am = a.mant * pa;
    let bm = b.mant * pb;
    Dec { mant: am + bm, scale: k }
}

/// An aligned mantissa stays within ten-to-the-nineteenth times the common
/// scale, which fits a 128-bit word with room for one addition.
proof fn lemma_dec_mul_bound(m: int, p: int, s: nat, k: nat)
    requires
        s <= k <= 18,
        p == pow10((k - s) as nat),
        -10000000000000000000 * pow10(s) <= m <= 10000000000000000000 * pow10(s),
    ensures
        -10000000000000000000 * pow10(k) <= m * p <= 10000000000000000000 * pow10(k),
        m * p >= -170141183460469231731687303715884105727int / 2,
        m * p <= 170141183460469231731687303715884105727int / 2,
{
    lemma_pow10_pos(s);
    lemma_pow10_pos((k - s) as nat);
    assert(pow10(s) * pow10((k - s) as nat) == pow10(k)) by {
        lemma_pow10_add(s, (k - s) as nat);
    }
    assert(-10000000000000000000 * pow10(k) <= m * p <= 10000000000000000000 * pow10(k))
        by (nonlinear_arith)
        requires
            p == pow10((k - s) as nat),
            p >= 1,
            -10000000000000000000 * pow10(s) <= m <= 10000000000000000000 * pow10(s),
            pow10(s) * pow10((k - s) as nat) == pow10(k),
            pow10(s) >= 1,
    ;
    lemma_pow10_mono(k, 18);
    lemma_pow10_18();
    lemma_pow10_pos(k);
    assert(10000000000000000000 * pow10(k) <= 10000000000000000000 * 1000000000000000000)
        by (nonlinear_arith)
        requires
            pow10(k) <= 1000000000000000000,
            pow10(k) >= 1,
    ;
}

/// Ten-to-the distributes over addition of exponents.
pub proof fn lemma_pow10_add(a: nat, b: nat)
    ensures
        pow10(a) * pow10(b) == pow10((a + b) as nat),
    decreases b,
{
    if b == 0 {
        assert(pow10(0) == 1);
    } else {
        lemma_pow10_add(a, (b - 1) as nat);
        assert(pow10(a) * pow10(b) == pow10(a) * (10 * pow10((b - 1) as nat)));
        assert(pow10(a) * (10 * pow10((b - 1) as nat)) == 10 * (pow10(a) * pow10(
            (b - 1) as nat,
        ))) by (nonlinear_arith);
    }
}

} // verus!

verus! {

use crate::text::append_u128;
use crate::parse::{parse_uint, spec_parse_uint};

/// What a whole string denotes as a decimal: the numeral must span the
/// entire string.
pub open spec fn spec_parse_dec_full(s: Seq<char>) -> Option<DecModel> {
    match spec_parse_dec(s, 0) {
        Some((d, p)) => if p == s.len() {
            Some(d)
        } else {
            None
        },
        None => None,
    }
}

/// Parses a decimal numeral at `pos`.
pub fn parse_dec(s: &str, n: usize, pos: usize) -> (r: Option<(Dec, usize)>)
    requires
        n == s@.len(),
        pos <= n,
    ensures
        match r {
            Some((d, p)) => spec_parse_dec(s@, pos as int) == Some((d@, p as int)) && dec_tight(
                d@,
            ),
            None => spec_parse_dec(s@, pos as int) is None,
        },
{
    let neg = pos < n && s.get_char(pos) == '-';
    let dstart = if neg {
        pos + 1
    } else {
        pos
    };
    proof {
        lemma_digits_end_bounds(s@, dstart as int);
    }
    let base_part = parse_uint(s, n, dstart);
    match base_part {
        None => {
            proof {
                if spec_parse_uint(s@, dstart as int) is Some {
                    // The integer part does not fit 64 bits, so it cannot
                    // fit a signed 64-bit word either.
                    assert(spec_parse_dec(s@, pos as int) is None);
                }
            }
            None
        },
        Some((bmag, e)) => {
            let cap: u64 = if neg {
                9223372036854775808
            } else {
                9223372036854775807
            };
            if bmag > cap {
                return None;
            }
            let base: i128 = if neg {
                -(bmag as i128)
            } else {
                bmag as i128
            };
            if e < n && e + 1 < n && s.get_char(e) == '.' {
                let c1 = s.get_char(e + 1);
                let u1 = c1 as u32;
                if 48 <= u1 && u1 <= 57 {
                    proof {
                        lemma_digits_end_bounds(s@, e + 1 as int);
                    }
                    let frac_part = parse_uint(s, n, e + 1);
                    match frac_part {
                        None => {
                            proof {
                                // At least one digit stands at e + 1, so the
                                // run is non-empty; a 64-bit overflow means
                                // more than nineteen digits, over the cap.
                                let f = digits_end(s@, e + 1 as int);
                                let fd = s@.subrange(e + 1 as int, f);
                                assert(spec_parse_uint(s@, e + 1 as int) is Some);
                                assert(digits_val(fd) > u64::MAX);
                                if fd.len() <= 19 {
                                    lemma_digits_val_len_bound(fd);
                                    lemma_pow10_mono(fd.len(), 19);
                                    assert(pow10(19) == 10 * pow10(18));
                                    lemma_pow10_18();
                                }
                                assert(spec_parse_dec(s@, pos as int) is None);
                            }
                            None
                        },
                        Some((fval, f)) => {
                            if f - (e + 1) > 18 {
                                return None;
                            }
                            let flen = (f - (e + 1)) as u32;
                            let p = pow10_i128(flen);
                            proof {
                                let fd = s@.subrange(e + 1 as int, f as int);
                                lemma_digits_val_len_bound(fd);
                                lemma_pow10_mono(flen as nat, 18);
                                lemma_pow10_18();
                                assert(base * p <= 9223372036854775808int * 1000000000000000000int
                                    && base * p >= -9223372036854775808int
                                    * 1000000000000000000int) by (nonlinear_arith)
                                    requires
                                        -9223372036854775808 <= base <= 9223372036854775808,
                                        1 <= p <= 1000000000000000000,
                                ;
                            }
                            let scaled = base * p;
                            let mant: i128 = if base < 0 {
                                scaled - (fval as i128)
                            } else {
                                scaled + (fval as i128)
                            };
                            let d = Dec { mant, scale: flen };
                            proof {
                                lemma_parse_dec_tight(s@, pos as int);
                                assert(spec_parse_dec(s@, pos as int) == Some((d@, f as int)));
                            }
                            Some((d, f))
                        },
                    }
                } else {
                    proof {
                        assert(!is_digit_char(s@[e + 1 as int]));
                    }
                    let d = Dec { mant: base, scale: 0 };
                    proof {
                        lemma_parse_dec_tight(s@, pos as int);
                        assert(spec_parse_dec(s@, pos as int) == Some((d@, e as int)));
                    }
                    Some((d, e))
                }
            } else {
                let d = Dec { mant: base, scale: 0 };
                proof {
                    lemma_parse_dec_tight(s@, pos as int);
                    assert(spec_parse_dec(s@, pos as int) == Some((d@, e as int)));
                }
                Some((d, e))
            }
        },
    }
}

/// Parses a whole string as a decimal numeral.
pub fn parse_dec_full(s: &str) -> (r: Option<Dec>)
    ensures
        match r {
            Some(d) => spec_parse_dec_full(s@) == Some(d@) && dec_tight(d@),
            None => spec_parse_dec_full(s@) is None,
        },
{
    let n = s.unicode_len();
    match parse_dec(s, n, 0) {
        Some((d, p)) => {
            if p == n {
                Some(d)
            } else {
                None
            }
        },
        None => None,
    }
}

/// Appends `n` zero characters to `out`.
fn push_zeroes(out: &mut String, n: usize)
    ensures
        final(out)@ == old(out)@ + zeroes(n as nat),
{
    let mut i: usize = 0;
    while i < n
        invariant
            i <= n,
            out@ == old(out)@ + zeroes(i as nat),
        decreases n - i,
    {
        out.append("0");
        proof {
            reveal_strlit("0");
            assert(out@ =~= old(out)@ + zeroes((i + 1) as nat));
        }
        i = i + 1;
    }
}

/// The length of a row of zero characters, and what it holds.
pub proof fn lemma_zeroes(n: nat)
    ensures
        zeroes(n).len() == n,
        forall|i: int| 0 <= i < n ==> zeroes(n)[i] == '0',
    decreases n,
{
    if n > 0 {
        lemma_zeroes((n - 1) as nat);
    }
}

/// The decimal text of `d`, exact, with trailing fraction zeros dropped.
pub fn format_dec(d: Dec) -> (r: String)
    requires
        d.mant > i128::MIN,
        d.scale <= 18,
    ensures
        r@ == spec_dec_chars(d@.mant, d@.scale),
{
    let neg = d.mant < 0;
    let mut mag: u128 = if neg {
        (-d.mant) as u128
    } else {
        d.mant as u128
    };
    let mut scale: u32 = d.scale;
    let ghost mag0 = mag as nat;
    let ghost scale0 = scale as nat;
    while scale > 0 && mag % 10 == 0
        invariant
            scale <= 18,
            spec_dec_norm(mag0, scale0) == spec_dec_norm(mag as nat, scale as nat),
        decreases scale,
    {
        mag = mag / 10;
        scale = scale - 1;
    }
    proof {
        assert(spec_dec_norm(mag as nat, scale as nat) == (mag as nat, scale as nat));
    }
    let mut out = String::new();
    if neg {
        out.append("-");
        proof {
            reveal_strlit("-");
        }
    }
    if scale == 0 {
        append_u128(&mut out, mag);
        proof {
            assert(out@ =~= spec_dec_chars(d@.mant, d@.scale));
        }
        out
    } else {
        let mut ds = String::new();
        append_u128(&mut ds, mag);
        let dl = ds.unicode_len();
        let scale_us = scale as usize;
        let mut padded = String::new();
        if dl < scale_us + 1 {
            proof {
                lemma_zeroes((scale_us + 1 - dl) as nat);
            }
            push_zeroes(&mut padded, scale_us + 1 - dl);
        }
        padded.append(ds.as_str());
        let plen = padded.unicode_len();
        proof {
            if dl < scale_us + 1 {
                assert(padded@ == zeroes((scale_us + 1 - dl) as nat) + ds@);
            } else {
                assert(padded@ =~= ds@);
            }
            assert(plen >= scale_us + 1);
        }
        let ip = padded.as_str().substring_char(0, plen - scale_us);
        let fp = padded.as_str().substring_char(plen - scale_us, plen);
        out.append(ip);
        out.append(".");
        out.append(fp);
        proof {
            reveal_strlit(".");
            assert(out@ =~= spec_dec_chars(d@.mant, d@.scale));
        }
        out
    }
}

} // verus!
