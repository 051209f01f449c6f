//! The streaming frame parser: decodes the length-prefixed array protocol
//! (`*<count>\r\n` followed by `count` bulk strings `$<len>\r\n<text>\r\n`)
//! into rows of raw tokens, never consuming a partial or malformed trailing
//! frame; and the decoder for scalar replies.

use vstd::prelude::*;

use crate::text::{all_digits, digits_val, is_digit_char, spec_i64_of_text, parse_i64_str};
use crate::value::{spec_encode_bulks, spec_encode_str_row, str_views, Value, ValueModel};

verus! {

/// First position at or after `pos` that does not hold a digit.
pub open spec fn digits_end(s: Seq<char>, pos: int) -> int
    recommends
        0 <= pos <= s.len(),
    decreases s.len() - pos,
    when 0 <= pos <= s.len()
{
    if pos < s.len() && is_digit_char(s[pos]) {
        digits_end(s, pos + 1)
    } else {
        pos
    }
}

pub proof fn lemma_digits_end_bounds(s: Seq<char>, pos: int)
    requires
        0 <= pos <= s.len(),
    ensures
        pos <= digits_end(s, pos) <= s.len(),
        all_digits(s.subrange(pos, digits_end(s, pos))),
        digits_end(s, pos) < s.len() ==> !is_digit_char(s[digits_end(s, pos)]),
    decreases s.len() - pos,
{
    if pos < s.len() && is_digit_char(s[pos]) {
        lemma_digits_end_bounds(s, pos + 1);
        let e = digits_end(s, pos);
        assert(forall|i: int|
            0 <= i < e - pos ==> s.subrange(pos, e)[i] == s.subrange(pos + 1, e)[i - 1]
                || i == 0);
        assert(all_digits(s.subrange(pos, e)));
    }
}

/// A digit run bounded by a non-digit ends exactly at that bound.
pub proof fn lemma_digits_end_run(s: Seq<char>, pos: int, e: int)
    requires
        0 <= pos <= e <= s.len(),
        all_digits(s.subrange(pos, e)),
        e == s.len() || !is_digit_char(s[e]),
    ensures
        digits_end(s, pos) == e,
    decreases e - pos,
{
    if pos < e {
        assert(is_digit_char(s.subrange(pos, e)[0]));
        assert(s.subrange(pos + 1, e) =~= s.subrange(pos, e).drop_first());
        lemma_digits_end_run(s, pos + 1, e);
    }
}

/// An unsigned numeral at `pos`: its value and the position after it, or
/// nothing when no digit stands at `pos`.
pub open spec fn spec_parse_uint(s: Seq<char>, pos: int) -> Option<(nat, int)>
    recommends
        0 <= pos <= s.len(),
{
    let e = digits_end(s, pos);
    if e > pos {
        Some((digits_val(s.subrange(pos, e)), e))
    } else {
        None
    }
}

/// `\r\n` stands at `pos`.
pub open spec fn spec_crlf_at(s: Seq<char>, pos: int) -> bool {
    0 <= pos && pos + 2 <= s.len() && s[pos] == '\r' && s[pos + 1] == '\n'
}

/// One bulk string `$<len>\r\n<text>\r\n` at `pos`: the text and the
/// position after it.
pub open spec fn spec_parse_bulk(s: Seq<char>, pos: int) -> Option<(Seq<char>, int)>
    recommends
        0 <= pos <= s.len(),
{
    if 0 <= pos < s.len() && s[pos] == '$' {
        match spec_parse_uint(s, pos + 1) {
            Some((len, p)) => {
                if spec_crlf_at(s, p) && p + 2 + len + 2 <= s.len() && spec_crlf_at(
                    s,
                    p + 2 + len,
                ) {
                    Some((s.subrange(p + 2, p + 2 + len), p + 2 + len + 2))
                } else {
                    None
                }
            },
            None => None,
        }
    } else {
        None
    }
}

/// `n` bulk strings in a row starting at `pos`.
pub open spec fn spec_parse_bulks(s: Seq<char>, pos: int, n: nat) -> Option<(Seq<Seq<char>>, int)>
    recommends
        0 <= pos <= s.len(),
    decreases n,
{
    if n == 0 {
        Some((Seq::empty(), pos))
    } else {
        match spec_parse_bulk(s, pos) {
            Some((tok, p)) => match spec_parse_bulks(s, p, (n - 1) as nat) {
                Some((toks, q)) => Some((seq![tok] + toks, q)),
                None => None,
            },
            None => None,
        }
    }
}

/// One complete frame at `pos`: its row of tokens and the position after it.
pub open spec fn spec_parse_frame(s: Seq<char>, pos: int) -> Option<(Seq<Seq<char>>, int)>
    recommends
        0 <= pos <= s.len(),
{
    if 0 <= pos < s.len() && s[pos] == '*' {
        match spec_parse_uint(s, pos + 1) {
            Some((n, p)) => if spec_crlf_at(s, p) {
                spec_parse_bulks(s, p + 2, n)
            } else {
                None
            },
            None => None,
        }
    } else {
        None
    }
}

pub proof fn lemma_parse_bulk_bounds(s: Seq<char>, pos: int)
    requires
        0 <= pos <= s.len(),
        spec_parse_bulk(s, pos) is Some,
    ensures
        pos + 6 <= spec_parse_bulk(s, pos).unwrap().1 <= s.len(),
{
    lemma_digits_end_bounds(s, pos + 1);
}

pub proof fn lemma_parse_bulks_bounds(s: Seq<char>, pos: int, n: nat)
    requires
        0 <= pos <= s.len(),
        spec_parse_bulks(s, pos, n) is Some,
    ensures
        pos + 6 * n <= spec_parse_bulks(s, pos, n).unwrap().1 <= s.len() || n == 0,
        pos <= spec_parse_bulks(s, pos, n).unwrap().1,
        spec_parse_bulks(s, pos, n).unwrap().1 <= s.len() || n == 0,
        spec_parse_bulks(s, pos, n).unwrap().0.len() == n,
    decreases n,
{
    if n > 0 {
        lemma_parse_bulk_bounds(s, pos);
        let p = spec_parse_bulk(s, pos).unwrap().1;
        lemma_parse_bulks_bounds(s, p, (n - 1) as nat);
    }
}

/// A row of more bulk strings than the buffer could hold never parses.
pub proof fn lemma_parse_bulks_count_bound(s: Seq<char>, pos: int, n: nat)
    requires
        0 <= pos <= s.len(),
        n > s.len(),
    ensures
        spec_parse_bulks(s, pos, n) is None,
{
    if spec_parse_bulks(s, pos, n) is Some {
        lemma_parse_bulks_bounds(s, pos, n);
    }
}

pub proof fn lemma_parse_frame_bounds(s: Seq<char>, pos: int)
    requires
        0 <= pos <= s.len(),
        spec_parse_frame(s, pos) is Some,
    ensures
        pos + 4 <= spec_parse_frame(s, pos).unwrap().1 <= s.len(),
{
    lemma_digits_end_bounds(s, pos + 1);
    let p = spec_parse_uint(s, pos + 1).unwrap().1;
    let n = spec_parse_uint(s, pos + 1).unwrap().0;
    lemma_parse_bulks_bounds(s, p + 2, n);
}

/// Every complete frame at the head of the buffer, in order, with the
/// position where the last one ends. Parsing stops at the first position
/// that does not begin a complete, well-formed frame.
pub open spec fn spec_parse_frames(s: Seq<char>, pos: int) -> (Seq<Seq<Seq<char>>>, int)
    recommends
        0 <= pos <= s.len(),
    decreases s.len() - pos,
    when 0 <= pos <= s.len()
{
    match spec_parse_frame(s, pos) {
        Some((toks, q)) => {
            if pos < q <= s.len() {
                let rest = spec_parse_frames(s, q);
                (seq![toks] + rest.0, rest.1)
            } else {
                (Seq::empty(), pos)
            }
        },
        None => (Seq::empty(), pos),
    }
}

/// Reports whether `\r\n` stands at `pos`.
fn crlf_at(s: &str, n: usize, pos: usize) -> (r: bool)
    requires
        n == s@.len(),
        pos <= n,
    ensures
        r == spec_crlf_at(s@, pos as int),
{
    if n < 2 || pos > n - 2 {
        return false;
    }
    let c0 = s.get_char(pos);
    let c1 = s.get_char(pos + 1);
    c0 == '\r' && c1 == '\n'
}

/// Parses an unsigned numeral at `pos`. Reports nothing when no digit
/// stands there or the value does not fit a 64-bit word.
pub(crate) fn parse_uint(s: &str, n: usize, pos: usize) -> (r: Option<(u64, usize)>)
    requires
        n == s@.len(),
        pos <= n,
    ensures
        match r {
            Some((v, p)) => spec_parse_uint(s@, pos as int) == Some((v as nat, p as int)),
            None => spec_parse_uint(s@, pos as int) is None || spec_parse_uint(
                s@,
                pos as int,
            ).unwrap().0 > u64::MAX,
        },
{
    proof {
        lemma_digits_end_bounds(s@, pos as int);
    }
    let ghost e = digits_end(s@, pos as int);
    let mut i: usize = pos;
    let mut acc: u64 = 0;
    let mut overflow = false;
    loop
        invariant
            pos <= i <= e,
            e <= n,
            n == s@.len(),
            e == digits_end(s@, pos as int),
            !overflow ==> acc == digits_val(s@.subrange(pos as int, i as int)),
            overflow ==> digits_val(s@.subrange(pos as int, i as int)) > u64::MAX,
        ensures
            i == e,
            !overflow ==> acc == digits_val(s@.subrange(pos as int, i as int)),
            overflow ==> digits_val(s@.subrange(pos as int, i as int)) > u64::MAX,
        decreases e - i,
    {
        if i >= n {
            break;
        }
        let c = s.get_char(i);
        let u = c as u32;
        if u < 48 || u > 57 {
            proof {
                if i < e {
                    lemma_digits_end_run_step(s@, pos as int, i as int, e);
                }
            }
            break;
        }
        proof {
            assert(i < e) by {
                if i == e {
                    lemma_digits_end_bounds(s@, pos as int);
                }
            }
            lemma_digits_end_run_step(s@, pos as int, i as int, e);
            assert(s@.subrange(pos as int, i + 1 as int).drop_last() =~= s@.subrange(
                pos as int,
                i as int,
            ));
            assert(s@.subrange(pos as int, i + 1 as int).last() == s@[i as int]);
        }
        let d = (u - 48) as u64;
        if !overflow {
            if acc > (u64::MAX - d) / 10 {
                proof {
                    let prev = digits_val(s@.subrange(pos as int, i as int));
                    assert(prev * 10 + d > u64::MAX) by (nonlinear_arith)
                        requires
                            prev > (u64::MAX - d) / 10,
                            d < 10,
                    ;
                }
                overflow = true;
            } else {
                proof {
                    assert(acc * 10 + d <= u64::MAX) by (nonlinear_arith)
                        requires
                            acc <= (u64::MAX - d) / 10,
                            d < 10,
                            d <= u64::MAX,
                    ;
                }
                acc = acc * 10 + d;
            }
        } else {
            proof {
                let prev = digits_val(s@.subrange(pos as int, i as int));
                let cur = digits_val(s@.subrange(pos as int, i + 1 as int));
                assert(cur == prev * 10 + d);
                assert(prev * 10 + d >= prev) by (nonlinear_arith)
                    requires
                        d >= 0,
                        prev >= 0,
                ;
            }
        }
        i = i + 1;
    }
    if i == pos {
        return None;
    }
    if overflow {
        return None;
    }
    Some((acc, i))
}

/// Inside a digit run, the end of the run seen from `pos` is the same.
proof fn lemma_digits_end_run_step(s: Seq<char>, pos: int, i: int, e: int)
    requires
        0 <= pos <= i <= e <= s.len(),
        e == digits_end(s, pos),
        i < e,
    ensures
        is_digit_char(s[i]),
    decreases i - pos,
{
    lemma_digits_end_bounds(s, pos);
    assert(s.subrange(pos, e)[i - pos] == s[i]);
}

/// Parses one bulk string at `pos`.
fn parse_bulk(s: &str, n: usize, pos: usize) -> (r: Option<(String, usize)>)
    requires
        n == s@.len(),
        pos <= n,
    ensures
        match r {
            Some((tok, p)) => spec_parse_bulk(s@, pos as int) == Some((tok@, p as int)),
            None => spec_parse_bulk(s@, pos as int) is None,
        },
{
    if pos >= n {
        return None;
    }
    if s.get_char(pos) != '$' {
        return None;
    }
    let uint = parse_uint(s, n, pos + 1);
    match uint {
        None => {
            proof {
                if spec_parse_uint(s@, pos + 1 as int) is Some {
                    // The length does not fit a 64-bit word, so it cannot
                    // fit inside the buffer either.
                    let v = spec_parse_uint(s@, pos + 1 as int).unwrap().0;
                    let p = spec_parse_uint(s@, pos + 1 as int).unwrap().1;
                    lemma_digits_end_bounds(s@, pos + 1 as int);
                    assert(v > u64::MAX);
                    assert(p + 2 + v + 2 > s@.len());
                }
            }
            None
        },
        Some((len, p)) => {
            proof {
                lemma_digits_end_bounds(s@, pos + 1 as int);
            }
            if !crlf_at(s, n, p) {
                return None;
            }
            // Is the whole text plus its terminator buffered?
            if len > ((n - p) as u64) {
                proof {
                    assert(p + 2 + len + 2 > s@.len());
                }
                return None;
            }
            let len_us = len as usize;
            if n - p < 4 || len_us > n - p - 4 {
                proof {
                    assert(p + 2 + len + 2 > s@.len());
                }
                return None;
            }
            if !crlf_at(s, n, p + 2 + len_us) {
                return None;
            }
            let tok = String::from_str(s.substring_char(p + 2, p + 2 + len_us));
            proof {
                assert(tok@ =~= s@.subrange(p + 2 as int, p + 2 + len as int));
            }
            Some((tok, p + 2 + len_us + 2))
        },
    }
}

/// Parses one complete frame at `pos`: its tokens and the position after it.
#[verifier::loop_isolation(false)]
fn parse_frame(s: &str, n: usize, pos: usize) -> (r: Option<(Vec<String>, usize)>)
    requires
        n == s@.len(),
        pos <= n,
    ensures
        match r {
            Some((toks, q)) => spec_parse_frame(s@, pos as int) == Some(
                (str_views(toks@), q as int),
            ),
            None => spec_parse_frame(s@, pos as int) is None,
        },
{
    if pos >= n {
        return None;
    }
    if s.get_char(pos) != '*' {
        return None;
    }
    let uint = parse_uint(s, n, pos + 1);
    match uint {
        None => {
            proof {
                if spec_parse_uint(s@, pos + 1 as int) is Some {
                    let v = spec_parse_uint(s@, pos + 1 as int).unwrap().0;
                    let p = spec_parse_uint(s@, pos + 1 as int).unwrap().1;
                    lemma_digits_end_bounds(s@, pos + 1 as int);
                    assert(v > u64::MAX);
                    if spec_crlf_at(s@, p) {
                        lemma_parse_bulks_count_bound(s@, p + 2, v);
                    }
                }
            }
            None
        },
        Some((count, p)) => {
            proof {
                lemma_digits_end_bounds(s@, pos + 1 as int);
            }
            if !crlf_at(s, n, p) {
                return None;
            }
            if count > (n as u64) {
                proof {
                    lemma_parse_bulks_count_bound(s@, p + 2 as int, count as nat);
                }
                return None;
            }
            let count_us = count as usize;
            let ghost start = p + 2 as int;
            let mut toks: Vec<String> = Vec::new();
            let mut cur: usize = p + 2;
            let mut i: usize = 0;
            while i < count_us
                invariant
                    cur <= n,
                    i <= count_us,
                    toks@.len() == i,
                    spec_parse_bulks(s@, start, count as nat) == match spec_parse_bulks(
                        s@,
                        cur as int,
                        (count_us - i) as nat,
                    ) {
                        Some((rest, q)) => Some((str_views(toks@) + rest, q)),
                        None => None::<(Seq<Seq<char>>, int)>,
                    },
                decreases count_us - i,
            {
                let bulk = parse_bulk(s, n, cur);
                match bulk {
                    None => {
                        proof {
                            assert(spec_parse_bulks(s@, cur as int, (count_us - i) as nat)
                                is None);
                            assert(spec_parse_bulks(s@, start, count as nat) is None);
                        }
                        return None;
                    },
                    Some((tok, next)) => {
                        proof {
                            lemma_parse_bulk_bounds(s@, cur as int);
                            let k = (count_us - i) as nat;
                            let ghost rest_opt = spec_parse_bulks(s@, next as int, (k - 1) as nat);
                            if rest_opt is Some {
                                let (rest2, q2) = rest_opt.unwrap();
                                assert(spec_parse_bulks(s@, cur as int, k) == Some(
                                    (seq![tok@] + rest2, q2),
                                ));
                                assert(str_views(toks@) + (seq![tok@] + rest2) =~= (str_views(
                                    toks@,
                                ) + seq![tok@]) + rest2);
                                assert(str_views(toks@.push(tok)) =~= str_views(toks@) + seq![
                                    tok@,
                                ]);
                            } else {
                                assert(spec_parse_bulks(s@, cur as int, k) is None);
                            }
                        }
                        toks.push(tok);
                        cur = next;
                        i = i + 1;
                    },
                }
            }
            proof {
                assert(spec_parse_bulks(s@, cur as int, 0) == Some(
                    (Seq::<Seq<char>>::empty(), cur as int),
                ));
                assert(str_views(toks@) + Seq::<Seq<char>>::empty() =~= str_views(toks@));
                assert(spec_parse_bulks(s@, start, count as nat) == Some(
                    (str_views(toks@), cur as int),
                ));
            }
            Some((toks, cur))
        },
    }
}

/// Parses every complete frame at the head of `s`, in order, and reports
/// where the last complete frame ends; nothing of a trailing partial or
/// malformed frame is consumed.
#[verifier::loop_isolation(false)]
pub fn parse_frames(s: &str) -> (r: (Vec<Vec<String>>, usize))
    ensures
        spec_parse_frames(s@, 0) == (
            r.0@.map_values(|f: Vec<String>| str_views(f@)),
            r.1 as int,
        ),
        r.1 <= s@.len(),
{
    let n = s.unicode_len();
    let mut frames: Vec<Vec<String>> = Vec::new();
    let mut pos: usize = 0;
    loop
        invariant
            pos <= n,
            n == s@.len(),
            spec_parse_frames(s@, 0) == {
                let rest = spec_parse_frames(s@, pos as int);
                (frames@.map_values(|f: Vec<String>| str_views(f@)) + rest.0, rest.1)
            },
        decreases n - pos,
    {
        let fr = parse_frame(s, n, pos);
        match fr {
            None => {
                proof {
                    assert(spec_parse_frames(s@, pos as int) == (
                        Seq::<Seq<Seq<char>>>::empty(),
                        pos as int,
                    ));
                    assert(frames@.map_values(|f: Vec<String>| str_views(f@))
                        + Seq::<Seq<Seq<char>>>::empty() =~= frames@.map_values(
                        |f: Vec<String>| str_views(f@),
                    ));
                }
                return (frames, pos);
            },
            Some((toks, q)) => {
                proof {
                    lemma_parse_frame_bounds(s@, pos as int);
                    let rest2 = spec_parse_frames(s@, q as int);
                    assert(spec_parse_frames(s@, pos as int) == (
                        seq![str_views(toks@)] + rest2.0,
                        rest2.1,
                    ));
                    assert(frames@.map_values(|f: Vec<String>| str_views(f@)) + (seq![
                        str_views(toks@),
                    ] + rest2.0) =~= (frames@.map_values(|f: Vec<String>| str_views(f@)) + seq![
                        str_views(toks@),
                    ]) + rest2.0);
                    assert(frames@.push(toks).map_values(|f: Vec<String>| str_views(f@))
                        =~= frames@.map_values(|f: Vec<String>| str_views(f@)) + seq![
                        str_views(toks@),
                    ]);
                }
                frames.push(toks);
                pos = q;
            },
        }
    }
}

} // verus!

verus! {

use crate::text::{int_to_chars, lemma_digits_val_nat_to_chars, lemma_nat_to_chars_shape,
    nat_to_chars};
use crate::value::{crlf, spec_encode_bulk, spec_encode_value};

/// The canonical encoding of a row of frames: each one an array header and
/// its tokens as bulk strings, concatenated in order.
pub open spec fn spec_encode_frames(frames: Seq<Seq<Seq<char>>>) -> Seq<char>
    decreases frames.len(),
{
    if frames.len() == 0 {
        Seq::empty()
    } else {
        spec_encode_str_row(frames[0]) + spec_encode_frames(frames.drop_first())
    }
}

/// A buffer region holding the encoding of one bulk string parses back to
/// exactly that string, consuming exactly the encoding.
pub proof fn lemma_parse_bulk_of_encoding(s: Seq<char>, pos: int, tok: Seq<char>)
    requires
        0 <= pos,
        pos + spec_encode_bulk(tok).len() <= s.len(),
        s.subrange(pos, pos + spec_encode_bulk(tok).len()) == spec_encode_bulk(tok),
    ensures
        spec_parse_bulk(s, pos) == Some((tok, pos + spec_encode_bulk(tok).len())),
{
    let d = nat_to_chars(tok.len());
    let dl = d.len() as int;
    let b = spec_encode_bulk(tok);
    let bl = b.len() as int;
    lemma_nat_to_chars_shape(tok.len());
    lemma_digits_val_nat_to_chars(tok.len());
    assert(forall|k: int| 0 <= k < bl ==> s[pos + k] == #[trigger] b[k]) by {
        assert(forall|k: int| 0 <= k < bl ==> #[trigger] s.subrange(pos, pos + bl)[k] == s[pos
            + k]);
    }
    assert(b[0] == '$');
    assert(forall|j: int| 0 <= j < dl ==> b[1 + j] == #[trigger] d[j]);
    assert(b[1 + dl] == '\r');
    assert(b[1 + dl + 1] == '\n');
    assert(forall|j: int| 0 <= j < tok.len() ==> b[1 + dl + 2 + j] == #[trigger] tok[j]);
    assert(b[1 + dl + 2 + tok.len()] == '\r');
    assert(b[1 + dl + 2 + tok.len() + 1] == '\n');
    assert(s[pos] == '$');
    assert(s.subrange(pos + 1, pos + 1 + dl) =~= d);
    assert(!is_digit_char('\r')) by {
        assert('\r' as u32 == 13);
    }
    lemma_digits_end_run(s, pos + 1, pos + 1 + dl);
    assert(spec_parse_uint(s, pos + 1) == Some((tok.len(), pos + 1 + dl)));
    let p = pos + 1 + dl;
    assert(spec_crlf_at(s, p));
    assert(p + 2 + tok.len() + 2 <= s.len());
    assert(spec_crlf_at(s, p + 2 + tok.len()));
    assert(s.subrange(p + 2, p + 2 + tok.len()) =~= tok);
    assert(spec_parse_bulk(s, pos) == Some((tok, pos + bl)));
}

/// A buffer region holding the encodings of a row of bulk strings parses
/// back to exactly those strings.
pub proof fn lemma_parse_bulks_of_encoding(s: Seq<char>, pos: int, toks: Seq<Seq<char>>)
    requires
        0 <= pos,
        pos + spec_encode_bulks(toks).len() <= s.len(),
        s.subrange(pos, pos + spec_encode_bulks(toks).len()) == spec_encode_bulks(toks),
    ensures
        spec_parse_bulks(s, pos, toks.len()) == Some(
            (toks, pos + spec_encode_bulks(toks).len()),
        ),
    decreases toks.len(),
{
    if toks.len() == 0 {
        assert(spec_parse_bulks(s, pos, 0) == Some((Seq::<Seq<char>>::empty(), pos)));
        assert(toks =~= Seq::<Seq<char>>::empty());
    } else {
        let first = toks[0];
        let b = spec_encode_bulk(first);
        let bl = b.len() as int;
        let rest = spec_encode_bulks(toks.drop_first());
        let rl = rest.len() as int;
        assert(spec_encode_bulks(toks) == b + rest);
        assert(s.subrange(pos, pos + bl) =~= b) by {
            assert(forall|k: int| 0 <= k < bl ==> #[trigger] s.subrange(pos, pos + bl + rl)[k]
                == s[pos + k]);
            assert(forall|k: int| 0 <= k < bl ==> (b + rest)[k] == #[trigger] b[k]);
        }
        lemma_parse_bulk_of_encoding(s, pos, first);
        assert(s.subrange(pos + bl, pos + bl + rl) =~= rest) by {
            assert(forall|k: int|
                0 <= k < rl ==> #[trigger] s.subrange(pos, pos + bl + rl)[bl + k] == s[pos + bl
                + k]);
            assert(forall|k: int| 0 <= k < rl ==> (b + rest)[bl + k] == #[trigger] rest[k]);
        }
        lemma_parse_bulks_of_encoding(s, pos + bl, toks.drop_first());
        assert(seq![first] + toks.drop_first() =~= toks);
    }
}

/// A buffer region holding the encoding of one frame parses back to exactly
/// that frame's tokens, consuming exactly the encoding.
pub proof fn lemma_parse_frame_of_encoding(s: Seq<char>, pos: int, toks: Seq<Seq<char>>)
    requires
        0 <= pos,
        pos + spec_encode_str_row(toks).len() <= s.len(),
        s.subrange(pos, pos + spec_encode_str_row(toks).len()) == spec_encode_str_row(toks),
    ensures
        spec_parse_frame(s, pos) == Some((toks, pos + spec_encode_str_row(toks).len())),
{
    let d = nat_to_chars(toks.len());
    let dl = d.len() as int;
    let f = spec_encode_str_row(toks);
    let fl = f.len() as int;
    let body = spec_encode_bulks(toks);
    lemma_nat_to_chars_shape(toks.len());
    lemma_digits_val_nat_to_chars(toks.len());
    assert(forall|k: int| 0 <= k < fl ==> s[pos + k] == #[trigger] f[k]) by {
        assert(forall|k: int| 0 <= k < fl ==> #[trigger] s.subrange(pos, pos + fl)[k] == s[pos
            + k]);
    }
    assert(f[0] == '*');
    assert(forall|j: int| 0 <= j < dl ==> f[1 + j] == #[trigger] d[j]);
    assert(f[1 + dl] == '\r');
    assert(f[1 + dl + 1] == '\n');
    assert(forall|j: int| 0 <= j < body.len() ==> f[1 + dl + 2 + j] == #[trigger] body[j]);
    assert(s[pos] == '*');
    assert(s.subrange(pos + 1, pos + 1 + dl) =~= d);
    assert(!is_digit_char('\r')) by {
        assert('\r' as u32 == 13);
    }
    lemma_digits_end_run(s, pos + 1, pos + 1 + dl);
    assert(spec_parse_uint(s, pos + 1) == Some((toks.len(), pos + 1 + dl)));
    let p = pos + 1 + dl;
    assert(spec_crlf_at(s, p));
    assert(s.subrange(p + 2, p + 2 + body.len()) =~= body) by {
        assert(forall|j: int| 0 <= j < body.len() ==> s[p + 2 + j] == #[trigger] body[j]);
        assert(forall|j: int|
            0 <= j < body.len() ==> #[trigger] s.subrange(p + 2, p + 2 + body.len() as int)[j]
                == s[p + 2 + j]);
    }
    lemma_parse_bulks_of_encoding(s, p + 2, toks);
    assert(spec_parse_frame(s, pos) == Some((toks, pos + fl)));
}

/// A buffer whose tail from `pos` on holds exactly the encodings of a row
/// of frames parses back to exactly those frames, ending at the buffer's
/// end.
pub proof fn lemma_parse_frames_of_encodings(s: Seq<char>, pos: int, frames: Seq<Seq<Seq<char>>>)
    requires
        0 <= pos <= s.len(),
        s.subrange(pos, s.len() as int) == spec_encode_frames(frames),
    ensures
        spec_parse_frames(s, pos) == (frames, s.len() as int),
    decreases frames.len(),
{
    if frames.len() == 0 {
        assert(pos == s.len());
        assert(spec_parse_frame(s, pos) is None);
        assert(frames =~= Seq::<Seq<Seq<char>>>::empty());
    } else {
        let f = spec_encode_str_row(frames[0]);
        let fl = f.len() as int;
        let rest = spec_encode_frames(frames.drop_first());
        let rl = rest.len() as int;
        assert(spec_encode_frames(frames) == f + rest);
        assert(s.len() - pos == fl + rl);
        assert(forall|k: int|
            0 <= k < fl + rl ==> #[trigger] s.subrange(pos, s.len() as int)[k] == s[pos + k]);
        assert(s.subrange(pos, pos + fl) =~= f) by {
            assert(forall|k: int| 0 <= k < fl ==> (f + rest)[k] == #[trigger] f[k]);
        }
        lemma_parse_frame_of_encoding(s, pos, frames[0]);
        assert(f.len() >= 4) by {
            lemma_nat_to_chars_shape(frames[0].len());
        }
        let q = pos + fl;
        assert(s.subrange(q, s.len() as int) =~= rest) by {
            assert(forall|k: int| 0 <= k < rl ==> (f + rest)[fl + k] == #[trigger] rest[k]);
        }
        lemma_parse_frames_of_encodings(s, q, frames.drop_first());
        assert(seq![frames[0]] + frames.drop_first() =~= frames);
    }
}

/// For any row of complete frames concatenated into one buffer, the frame
/// parser consumes exactly the sum of the frames' encoded lengths and
/// decodes the frames in order.
pub proof fn lemma_frame_parser_complete(frames: Seq<Seq<Seq<char>>>)
    ensures
        spec_parse_frames(spec_encode_frames(frames), 0) == (
            frames,
            spec_encode_frames(frames).len() as int,
        ),
{
    let s = spec_encode_frames(frames);
    assert(s.subrange(0, s.len() as int) =~= s);
    lemma_parse_frames_of_encodings(s, 0, frames);
}

/// What a whole buffer denotes as one scalar reply: an integer line
/// `:<i>\r\n`, the null bulk string `$-1\r\n`, or one bulk string.
pub open spec fn spec_decode_reply(s: Seq<char>) -> Option<ValueModel> {
    if s.len() >= 1 && s[0] == ':' {
        if s.len() >= 4 && spec_crlf_at(s, s.len() - 2) && spec_i64_of_text(
            s.subrange(1, s.len() - 2),
        ) is Some {
            Some(ValueModel::IntValue(spec_i64_of_text(s.subrange(1, s.len() - 2)).unwrap()))
        } else {
            None
        }
    } else if s == seq!['$', '-', '1', '\r', '\n'] {
        Some(ValueModel::Nil)
    } else if s.len() >= 1 && s[0] == '$' {
        match spec_parse_bulk(s, 0) {
            Some((tok, q)) => if q == s.len() {
                Some(ValueModel::StrValue(tok))
            } else {
                None
            },
            None => None,
        }
    } else {
        None
    }
}

/// Decodes a whole buffer as one scalar reply.
pub fn decode_reply(s: &str) -> (r: Option<Value>)
    ensures
        match r {
            Some(v) => spec_decode_reply(s@) == Some(v@),
            None => spec_decode_reply(s@) is None,
        },
{
    let n = s.unicode_len();
    if n >= 1 && s.get_char(0) == ':' {
        if n >= 4 && crlf_at(s, n, n - 2) {
            let mid = s.substring_char(1, n - 2);
            proof {
                assert(mid@ =~= s@.subrange(1, n - 2 as int));
            }
            match parse_i64_str(mid) {
                Some(v) => Some(Value::IntValue(v)),
                None => None,
            }
        } else {
            None
        }
    } else if n == 5 && s.get_char(0) == '$' && s.get_char(1) == '-' && s.get_char(2) == '1'
        && s.get_char(3) == '\r' && s.get_char(4) == '\n' {
        proof {
            assert(s@ =~= seq!['$', '-', '1', '\r', '\n']);
        }
        Some(Value::Nil)
    } else if n >= 1 && s.get_char(0) == '$' {
        proof {
            if s@ == seq!['$', '-', '1', '\r', '\n'] {
                assert(s@[1] == '-');
                assert(n == 5);
            }
        }
        match parse_bulk(s, n, 0) {
            Some((tok, q)) => {
                if q == n {
                    Some(Value::StrValue(tok))
                } else {
                    None
                }
            },
            None => None,
        }
    } else {
        proof {
            if s@ == seq!['$', '-', '1', '\r', '\n'] {
                assert(s@[0] == '$');
            }
        }
        None
    }
}

/// Round trip of the scalar replies: encoding `Nil`, an integer or a text
/// value and decoding the result gives back the same value.
pub proof fn lemma_reply_round_trip(v: ValueModel)
    requires
        v is Nil || v is StrValue || (v matches ValueModel::IntValue(i) && i64::MIN <= i
            <= i64::MAX),
    ensures
        spec_decode_reply(spec_encode_value(v)) == Some(v),
{
    let s = spec_encode_value(v);
    match v {
        ValueModel::Nil => {
            assert(s == seq!['$', '-', '1', '\r', '\n']);
            assert(s[0] == '$');
            assert('$' as u32 == 36 && ':' as u32 == 58);
            assert(spec_decode_reply(s) == Some(ValueModel::Nil));
        },
        ValueModel::IntValue(i) => {
            let d = int_to_chars(i);
            let dl = d.len() as int;
            lemma_int_to_chars_shape(i);
            assert(s == seq![':'] + d + crlf());
            assert(s.len() == 1 + dl + 2);
            assert(s[0] == ':');
            assert(forall|j: int| 0 <= j < dl ==> s[1 + j] == #[trigger] d[j]);
            assert(s[1 + dl] == '\r');
            assert(s[1 + dl + 1] == '\n');
            assert(spec_crlf_at(s, s.len() - 2));
            assert(s.subrange(1, s.len() - 2) =~= d);
            lemma_i64_text_of_int_to_chars(i);
            assert(spec_decode_reply(s) == Some(ValueModel::IntValue(i)));
        },
        ValueModel::StrValue(t) => {
            assert(s == spec_encode_bulk(t));
            assert(s[0] == '$');
            assert('$' as u32 == 36 && ':' as u32 == 58);
            assert(s.subrange(0, s.len() as int) =~= s);
            lemma_parse_bulk_of_encoding(s, 0, t);
            assert(s != seq!['$', '-', '1', '\r', '\n']) by {
                if s == seq!['$', '-', '1', '\r', '\n'] {
                    assert(s[1] == '-');
                    assert(!is_digit_char('-')) by {
                        assert('-' as u32 == 45);
                    }
                    assert(digits_end(s, 1) == 1) by {
                        lemma_digits_end_run(s, 1, 1);
                        assert(s.subrange(1, 1) =~= Seq::<char>::empty());
                    }
                    assert(spec_parse_bulk(s, 0) is None);
                }
            }
            assert(spec_decode_reply(s) == Some(ValueModel::StrValue(t)));
        },
        _ => {},
    }
}

/// The decimal form of an integer is non-empty and contains no control
/// characters; its first character is a digit or a leading minus sign.
proof fn lemma_int_to_chars_shape(i: int)
    ensures
        int_to_chars(i).len() >= 1,
        forall|j: int|
            0 <= j < int_to_chars(i).len() ==> (is_digit_char(int_to_chars(i)[j])
                || int_to_chars(i)[j] == '-'),
{
    if i < 0 {
        lemma_nat_to_chars_shape((-i) as nat);
        let d = nat_to_chars((-i) as nat);
        assert(forall|j: int| 0 <= j < d.len() ==> (seq!['-'] + d)[j + 1] == #[trigger] d[j]);
        assert(forall|j: int|
            0 <= j < int_to_chars(i).len() ==> (is_digit_char(int_to_chars(i)[j])
                || int_to_chars(i)[j] == '-')) by {
            assert(forall|j: int| 1 <= j < 1 + d.len() ==> #[trigger] (seq!['-'] + d)[j] == d[j
                - 1]);
        }
    } else {
        lemma_nat_to_chars_shape(i as nat);
    }
}

/// Reading the decimal form of a 64-bit integer back as an integer gives
/// the same integer.
pub proof fn lemma_i64_text_of_int_to_chars(i: int)
    requires
        i64::MIN <= i <= i64::MAX,
    ensures
        spec_i64_of_text(int_to_chars(i)) == Some(i),
{
    if i >= 0 {
        let d = nat_to_chars(i as nat);
        lemma_nat_to_chars_shape(i as nat);
        lemma_digits_val_nat_to_chars(i as nat);
        assert(is_digit_char(d[0]));
        assert(d[0] != '+' && d[0] != '-') by {
            assert('+' as u32 == 43 && '-' as u32 == 45);
        }
        assert(spec_i64_of_text(d) == Some(i));
    } else {
        let m = nat_to_chars((-i) as nat);
        let t = seq!['-'] + m;
        lemma_nat_to_chars_shape((-i) as nat);
        lemma_digits_val_nat_to_chars((-i) as nat);
        assert(t[0] == '-');
        assert(t.drop_first() =~= m);
        assert(spec_i64_of_text(t) == Some(i));
    }
}

} // verus!

verus! {

use crate::command::Command;

/// How many characters formed complete frames, and the commands those
/// frames decoded to, in order.
#[derive(Debug, PartialEq)]
pub struct ParseResult(pub usize, pub Vec<Command>);

} // verus!
