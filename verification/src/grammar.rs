//! The textual command grammar: a whitespace-tolerant, case-insensitive
//! keyword grammar over one re-quoted line, turning it into a typed
//! command. One grammar serves both the wire protocol (whose frames are
//! re-quoted and joined into a line) and a plain-text debugging path.

use vstd::prelude::*;

use crate::command::{Command, CommandModel};
use crate::decimal::{parse_dec, spec_parse_dec, Dec};
use crate::parse::{digits_end, lemma_digits_end_bounds, parse_uint, spec_parse_uint};
use crate::text::digits_val;

verus! {

/// The whitespace the grammar tolerates between tokens.
pub open spec fn is_ws(c: char) -> bool {
    c == ' ' || c == '\t' || c == '\r' || c == '\n'
}

/// First position at or after `pos` that does not hold whitespace.
pub open spec fn ws_end(s: Seq<char>, pos: int) -> int
    recommends
        0 <= pos <= s.len(),
    decreases s.len() - pos,
    when 0 <= pos <= s.len()
{
    if pos < s.len() && is_ws(s[pos]) {
        ws_end(s, pos + 1)
    } else {
        pos
    }
}

pub proof fn lemma_ws_end_bounds(s: Seq<char>, pos: int)
    requires
        0 <= pos <= s.len(),
    ensures
        pos <= ws_end(s, pos) <= s.len(),
    decreases s.len() - pos,
{
    if pos < s.len() && is_ws(s[pos]) {
        lemma_ws_end_bounds(s, pos + 1);
    }
}

/// Case-insensitive equality on characters, folding only the ASCII letters.
pub open spec fn eq_ci(a: char, b: char) -> bool {
    ||| a == b
    ||| (65 <= a as u32 <= 90 && a as u32 + 32 == b as u32)
    ||| (65 <= b as u32 <= 90 && b as u32 + 32 == a as u32)
}

/// The keyword `kw` stands at `pos`, compared case-insensitively.
pub open spec fn kw_at(s: Seq<char>, pos: int, kw: Seq<char>) -> bool {
    &&& 0 <= pos
    &&& pos + kw.len() <= s.len()
    &&& forall|i: int| 0 <= i < kw.len() ==> eq_ci(s[pos + i], #[trigger] kw[i])
}

/// A character that may stand in a bare token: anything but a quote,
/// a space or a line break.
pub open spec fn is_key_char(c: char) -> bool {
    c != '"' && c != ' ' && c != '\r' && c != '\n'
}

/// First position at or after `pos` that does not hold a bare-token
/// character.
pub open spec fn key_end(s: Seq<char>, pos: int) -> int
    recommends
        0 <= pos <= s.len(),
    decreases s.len() - pos,
    when 0 <= pos <= s.len()
{
    if pos < s.len() && is_key_char(s[pos]) {
        key_end(s, pos + 1)
    } else {
        pos
    }
}

pub proof fn lemma_key_end_bounds(s: Seq<char>, pos: int)
    requires
        0 <= pos <= s.len(),
    ensures
        pos <= key_end(s, pos) <= s.len(),
    decreases s.len() - pos,
{
    if pos < s.len() && is_key_char(s[pos]) {
        lemma_key_end_bounds(s, pos + 1);
    }
}

/// A bare token at `pos`: one or more bare-token characters.
pub open spec fn spec_parse_key(s: Seq<char>, pos: int) -> Option<(Seq<char>, int)>
    recommends
        0 <= pos <= s.len(),
{
    let e = key_end(s, pos);
    if e > pos {
        Some((s.subrange(pos, e), e))
    } else {
        None
    }
}

/// First position at or after `pos` that holds a double quote.
pub open spec fn quote_end(s: Seq<char>, pos: int) -> int
    recommends
        0 <= pos <= s.len(),
    decreases s.len() - pos,
    when 0 <= pos <= s.len()
{
    if pos < s.len() && s[pos] != '"' {
        quote_end(s, pos + 1)
    } else {
        pos
    }
}

pub proof fn lemma_quote_end_bounds(s: Seq<char>, pos: int)
    requires
        0 <= pos <= s.len(),
    ensures
        pos <= quote_end(s, pos) <= s.len(),
    decreases s.len() - pos,
{
    if pos < s.len() && s[pos] != '"' {
        lemma_quote_end_bounds(s, pos + 1);
    }
}

/// A string token at `pos`: either text between a pair of double quotes,
/// taken verbatim, or a bare token.
pub open spec fn spec_parse_string(s: Seq<char>, pos: int) -> Option<(Seq<char>, int)>
    recommends
        0 <= pos <= s.len(),
{
    if 0 <= pos < s.len() && s[pos] == '"' {
        let e = quote_end(s, pos + 1);
        if e < s.len() {
            Some((s.subrange(pos + 1, e), e + 1))
        } else {
            None
        }
    } else {
        spec_parse_key(s, pos)
    }
}

/// A signed integer at `pos`: an optional minus sign and digits, rejected
/// when it does not fit a signed 64-bit word.
pub open spec fn spec_parse_int(s: Seq<char>, pos: int) -> Option<(int, int)>
    recommends
        0 <= pos <= s.len(),
{
    let neg = pos < s.len() && s[pos] == '-';
    let dstart = if neg {
        pos + 1
    } else {
        pos
    };
    let e = digits_end(s, dstart);
    if e == dstart {
        None
    } else {
        let mag = digits_val(s.subrange(dstart, e));
        let v: int = if neg {
            -(mag as int)
        } else {
            mag as int
        };
        if i64::MIN <= v <= i64::MAX {
            Some((v, e))
        } else {
            None
        }
    }
}

/// Skips whitespace.
pub fn skip_ws(s: &str, n: usize, pos: usize) -> (r: usize)
    requires
        n == s@.len(),
        pos <= n,
    ensures
        r as int == ws_end(s@, pos as int),
        pos <= r <= n,
{
    proof {
        lemma_ws_end_bounds(s@, pos as int);
    }
    let mut i: usize = pos;
    while i < n
        invariant
            pos <= i <= n,
            n == s@.len(),
            ws_end(s@, pos as int) == ws_end(s@, i as int),
            i <= ws_end(s@, pos as int),
        decreases n - i,
    {
        let c = s.get_char(i);
        if !(c == ' ' || c == '\t' || c == '\r' || c == '\n') {
            return i;
        }
        proof {
            lemma_ws_end_bounds(s@, i + 1 as int);
        }
        i = i + 1;
    }
    i
}

/// Matches the keyword `kw` at `pos`, case-insensitively; reports the
/// position after it.
pub fn match_kw(s: &str, n: usize, pos: usize, kw: &str) -> (r: Option<usize>)
    requires
        n == s@.len(),
        pos <= n,
    ensures
        match r {
            Some(p) => kw_at(s@, pos as int, kw@) && p as int == pos + kw@.len() && p <= n,
            None => !kw_at(s@, pos as int, kw@),
        },
{
    let kn = kw.unicode_len();
    if kn > n - pos {
        return None;
    }
    let mut i: usize = 0;
    while i < kn
        invariant
            0 <= i <= kn,
            kn == kw@.len(),
            n == s@.len(),
            pos + kn <= n,
            forall|j: int| 0 <= j < i ==> eq_ci(s@[pos + j], #[trigger] kw@[j]),
        decreases kn - i,
    {
        let a = s.get_char(pos + i) as u32;
        let b = kw.get_char(i) as u32;
        let hit = a == b || (65 <= b && b <= 90 && b + 32 == a) || (65 <= a && a <= 90 && a + 32
            == b);
        if !hit {
            proof {
                assert(!eq_ci(s@[pos + i as int], kw@[i as int]));
            }
            return None;
        }
        i = i + 1;
    }
    Some(pos + kn)
}

/// Parses a bare token at `pos`.
pub fn parse_key(s: &str, n: usize, pos: usize) -> (r: Option<(String, usize)>)
    requires
        n == s@.len(),
        pos <= n,
    ensures
        match r {
            Some((k, p)) => spec_parse_key(s@, pos as int) == Some((k@, p as int)) && pos < p <= n,
            None => spec_parse_key(s@, pos as int) is None,
        },
{
    proof {
        lemma_key_end_bounds(s@, pos as int);
    }
    let mut i: usize = pos;
    while i < n
        invariant
            pos <= i <= n,
            n == s@.len(),
            key_end(s@, pos as int) == key_end(s@, i as int),
            i <= key_end(s@, pos as int),
        ensures
            i as int == key_end(s@, pos as int),
        decreases n - i,
    {
        let c = s.get_char(i);
        if c == '"' || c == ' ' || c == '\r' || c == '\n' {
            break;
        }
        proof {
            lemma_key_end_bounds(s@, i + 1 as int);
        }
        i = i + 1;
    }
    if i == pos {
        return None;
    }
    let k = String::from_str(s.substring_char(pos, i));
    proof {
        assert(k@ =~= s@.subrange(pos as int, i as int));
    }
    Some((k, i))
}

/// Parses a string token at `pos`: quoted text taken verbatim, or a bare
/// token.
pub fn parse_string(s: &str, n: usize, pos: usize) -> (r: Option<(String, usize)>)
    requires
        n == s@.len(),
        pos <= n,
    ensures
        match r {
            Some((t, p)) => spec_parse_string(s@, pos as int) == Some((t@, p as int)) && pos < p
                <= n,
            None => spec_parse_string(s@, pos as int) is None,
        },
{
    if pos < n && s.get_char(pos) == '"' {
        proof {
            lemma_quote_end_bounds(s@, pos + 1 as int);
        }
        let mut i: usize = pos + 1;
        while i < n
            invariant
                pos + 1 <= i <= n,
                n == s@.len(),
                quote_end(s@, pos + 1 as int) == quote_end(s@, i as int),
                i <= quote_end(s@, pos + 1 as int),
            ensures
                i as int == quote_end(s@, pos + 1 as int),
            decreases n - i,
        {
            let c = s.get_char(i);
            if c == '"' {
                break;
            }
            proof {
                lemma_quote_end_bounds(s@, i + 1 as int);
            }
            i = i + 1;
        }
        if i == n {
            return None;
        }
        let t = String::from_str(s.substring_char(pos + 1, i));
        proof {
            assert(t@ =~= s@.subrange(pos + 1 as int, i as int));
        }
        Some((t, i + 1))
    } else {
        parse_key(s, n, pos)
    }
}

/// Parses a signed integer at `pos`.
pub fn parse_int(s: &str, n: usize, pos: usize) -> (r: Option<(i64, usize)>)
    requires
        n == s@.len(),
        pos <= n,
    ensures
        match r {
            Some((v, p)) => spec_parse_int(s@, pos as int) == Some((v as int, p as int)) && pos < p
                <= n,
            None => spec_parse_int(s@, pos as int) is None,
        },
{
    let neg = pos < n && s.get_char(pos) == '-';
    let dstart = if neg {
        pos + 1
    } else {
        pos
    };
    proof {
        lemma_digits_end_bounds(s@, dstart as int);
    }
    match parse_uint(s, n, dstart) {
        None => {
            proof {
                if spec_parse_uint(s@, dstart as int) is Some {
                    assert(spec_parse_uint(s@, dstart as int).unwrap().0 > u64::MAX);
                    assert(spec_parse_int(s@, pos as int) is None);
                }
            }
            None
        },
        Some((mag, e)) => {
            let cap: u64 = if neg {
                9223372036854775808
            } else {
                9223372036854775807
            };
            if mag > cap {
                return None;
            }
            let v: i64 = if neg {
                (-(mag as i128)) as i64
            } else {
                mag as i64
            };
            Some((v, e))
        },
    }
}

} // verus!

verus! {

use crate::decimal::DecModel;
use crate::value::{str_views, ValueModel};

/// A value token: an integer when one leads, otherwise a string token.
pub open spec fn spec_parse_value(s: Seq<char>, pos: int) -> Option<(ValueModel, int)>
    recommends
        0 <= pos <= s.len(),
{
    match spec_parse_int(s, pos) {
        Option::Some((v, p)) => Some((ValueModel::IntValue(v), p)),
        Option::None => match spec_parse_string(s, pos) {
            Option::Some((t, p)) => Some((ValueModel::StrValue(t), p)),
            Option::None => None,
        },
    }
}

/// Parses a value token.
pub fn parse_value(s: &str, n: usize, pos: usize) -> (r: Option<(crate::value::Value, usize)>)
    requires
        n == s@.len(),
        pos <= n,
    ensures
        match r {
            Some((v, p)) => spec_parse_value(s@, pos as int) == Some((v@, p as int)) && pos < p
                <= n,
            None => spec_parse_value(s@, pos as int) is None,
        },
{
    match parse_int(s, n, pos) {
        Some((v, p)) => Some((crate::value::Value::IntValue(v), p)),
        None => {
            match parse_string(s, n, pos) {
                Some((t, p)) => Some((crate::value::Value::StrValue(t), p)),
                None => None,
            }
        },
    }
}

/// Zero or more whitespace-separated bare tokens.
pub open spec fn spec_parse_keys0(s: Seq<char>, pos: int) -> (Seq<Seq<char>>, int)
    recommends
        0 <= pos <= s.len(),
    decreases s.len() - pos,
    when 0 <= pos <= s.len()
{
    let q = ws_end(s, pos);
    match spec_parse_key(s, q) {
        Option::Some((k, p)) => {
            if pos < p <= s.len() {
                let rest = spec_parse_keys0(s, p);
                (seq![k] + rest.0, rest.1)
            } else {
                (Seq::empty(), pos)
            }
        },
        Option::None => (Seq::empty(), pos),
    }
}

/// One or more whitespace-separated bare tokens.
pub open spec fn spec_parse_keys1(s: Seq<char>, pos: int) -> Option<(Seq<Seq<char>>, int)>
    recommends
        0 <= pos <= s.len(),
{
    let q = ws_end(s, pos);
    match spec_parse_key(s, q) {
        Option::Some((k, p)) => {
            let rest = spec_parse_keys0(s, p);
            Some((seq![k] + rest.0, rest.1))
        },
        Option::None => None,
    }
}

/// Zero or more whitespace-separated string tokens.
pub open spec fn spec_parse_strs0(s: Seq<char>, pos: int) -> (Seq<Seq<char>>, int)
    recommends
        0 <= pos <= s.len(),
    decreases s.len() - pos,
    when 0 <= pos <= s.len()
{
    let q = ws_end(s, pos);
    match spec_parse_string(s, q) {
        Option::Some((k, p)) => {
            if pos < p <= s.len() {
                let rest = spec_parse_strs0(s, p);
                (seq![k] + rest.0, rest.1)
            } else {
                (Seq::empty(), pos)
            }
        },
        Option::None => (Seq::empty(), pos),
    }
}

/// One or more whitespace-separated string tokens.
pub open spec fn spec_parse_strs1(s: Seq<char>, pos: int) -> Option<(Seq<Seq<char>>, int)>
    recommends
        0 <= pos <= s.len(),
{
    let q = ws_end(s, pos);
    match spec_parse_string(s, q) {
        Option::Some((k, p)) => {
            let rest = spec_parse_strs0(s, p);
            Some((seq![k] + rest.0, rest.1))
        },
        Option::None => None,
    }
}

/// Parses one or more whitespace-separated bare tokens.
#[verifier::loop_isolation(false)]
pub fn parse_keys1(s: &str, n: usize, pos: usize) -> (r: Option<(Vec<String>, usize)>)
    requires
        n == s@.len(),
        pos <= n,
    ensures
        match r {
            Some((ks, p)) => spec_parse_keys1(s@, pos as int) == Some((str_views(ks@), p as int))
                && p <= n,
            None => spec_parse_keys1(s@, pos as int) is None,
        },
{
    let q0 = skip_ws(s, n, pos);
    match parse_key(s, n, q0) {
        None => None,
        Some((k0, p0)) => {
            let ghost fp = p0 as int;
            let mut out: Vec<String> = Vec::new();
            out.push(k0);
            let mut cur: usize = p0;
            loop
                invariant
                    pos <= cur <= n,
                    out@.len() >= 1,
                    out@[0] == k0,
                    spec_parse_keys0(s@, fp) == (
                        str_views(out@).skip(1) + spec_parse_keys0(s@, cur as int).0,
                        spec_parse_keys0(s@, cur as int).1,
                    ),
                decreases n - cur,
            {
                let q = skip_ws(s, n, cur);
                match parse_key(s, n, q) {
                    None => {
                        proof {
                            assert(spec_parse_keys0(s@, cur as int) == (
                                Seq::<Seq<char>>::empty(),
                                cur as int,
                            ));
                            assert(str_views(out@).skip(1) + Seq::<Seq<char>>::empty()
                                =~= str_views(out@).skip(1));
                            assert(seq![str_views(out@)[0]] + str_views(out@).skip(1) =~= str_views(
                                out@,
                            ));
                        }
                        return Some((out, cur));
                    },
                    Some((k, p)) => {
                        proof {
                            let rest = spec_parse_keys0(s@, p as int);
                            assert(spec_parse_keys0(s@, cur as int) == (
                                seq![k@] + rest.0,
                                rest.1,
                            ));
                            assert(str_views(out@.push(k)).skip(1) =~= str_views(out@).skip(1)
                                + seq![k@]);
                            assert(str_views(out@).skip(1) + (seq![k@] + rest.0) =~= (str_views(
                                out@,
                            ).skip(1) + seq![k@]) + rest.0);
                        }
                        out.push(k);
                        cur = p;
                    },
                }
            }
        },
    }
}

/// Parses one or more whitespace-separated string tokens.
#[verifier::loop_isolation(false)]
pub fn parse_strs1(s: &str, n: usize, pos: usize) -> (r: Option<(Vec<String>, usize)>)
    requires
        n == s@.len(),
        pos <= n,
    ensures
        match r {
            Some((ks, p)) => spec_parse_strs1(s@, pos as int) == Some((str_views(ks@), p as int))
                && p <= n,
            None => spec_parse_strs1(s@, pos as int) is None,
        },
{
    let q0 = skip_ws(s, n, pos);
    match parse_string(s, n, q0) {
        None => None,
        Some((k0, p0)) => {
            let ghost fp = p0 as int;
            let mut out: Vec<String> = Vec::new();
            out.push(k0);
            let mut cur: usize = p0;
            loop
                invariant
                    pos <= cur <= n,
                    out@.len() >= 1,
                    out@[0] == k0,
                    spec_parse_strs0(s@, fp) == (
                        str_views(out@).skip(1) + spec_parse_strs0(s@, cur as int).0,
                        spec_parse_strs0(s@, cur as int).1,
                    ),
                decreases n - cur,
            {
                let q = skip_ws(s, n, cur);
                match parse_string(s, n, q) {
                    None => {
                        proof {
                            assert(spec_parse_strs0(s@, cur as int) == (
                                Seq::<Seq<char>>::empty(),
                                cur as int,
                            ));
                            assert(str_views(out@).skip(1) + Seq::<Seq<char>>::empty()
                                =~= str_views(out@).skip(1));
                            assert(seq![str_views(out@)[0]] + str_views(out@).skip(1) =~= str_views(
                                out@,
                            ));
                        }
                        return Some((out, cur));
                    },
                    Some((k, p)) => {
                        proof {
                            let rest = spec_parse_strs0(s@, p as int);
                            assert(spec_parse_strs0(s@, cur as int) == (
                                seq![k@] + rest.0,
                                rest.1,
                            ));
                            assert(str_views(out@.push(k)).skip(1) =~= str_views(out@).skip(1)
                                + seq![k@]);
                            assert(str_views(out@).skip(1) + (seq![k@] + rest.0) =~= (str_views(
                                out@,
                            ).skip(1) + seq![k@]) + rest.0);
                        }
                        out.push(k);
                        cur = p;
                    },
                }
            }
        },
    }
}

} // verus!

verus! {

/// The exec result of a production agrees with its mathematical form.
pub open spec fn cmd_matches(r: Option<(Command, usize)>, sp: Option<(CommandModel, int)>) -> bool {
    match r {
        Option::Some((c, p)) => sp == Some((c@, p as int)),
        Option::None => sp is None,
    }
}

/// A parsed database index clamped into the address range: negative or
/// oversized indices land on the largest index, which no configuration
/// reaches.
pub open spec fn db_idx(v: int) -> int {
    if 0 <= v <= usize::MAX {
        v
    } else {
        usize::MAX as int
    }
}

/// Clamps a parsed database index.
pub fn clamp_idx(v: i64) -> (r: usize)
    ensures
        r as int == db_idx(v as int),
{
    if v < 0 {
        usize::MAX
    } else if (v as u64) > (usize::MAX as u64) {
        usize::MAX
    } else {
        v as usize
    }
}

/// The position just after the leading keyword `kw`, when the line starts
/// with it (after whitespace), compared case-insensitively.
pub open spec fn spec_kw(s: Seq<char>, kw: Seq<char>) -> Option<int> {
    let p0 = ws_end(s, 0);
    if kw_at(s, p0, kw) {
        Some(p0 + kw.len())
    } else {
        None
    }
}

/// Matches the leading keyword of a line.
fn parse_kw(s: &str, n: usize, kw: &str) -> (r: Option<usize>)
    requires
        n == s@.len(),
    ensures
        match r {
            Some(p) => spec_kw(s@, kw@) == Some(p as int) && p <= n,
            None => spec_kw(s@, kw@) is None,
        },
{
    let p0 = skip_ws(s, n, 0);
    match_kw(s, n, p0, kw)
}

/// The SELECT production.
pub open spec fn spec_cmd_select(s: Seq<char>) -> Option<(CommandModel, int)> {
    match spec_kw(s, "SELECT"@) {
        Option::Some(p) => match spec_parse_int(s, ws_end(s, p)) {
            Option::Some((v, e)) => Some((CommandModel::Select(db_idx(v)), e)),
            Option::None => None,
        },
        Option::None => None,
    }
}

/// The FLUSHDB production.
pub open spec fn spec_cmd_flushdb(s: Seq<char>) -> Option<(CommandModel, int)> {
    match spec_kw(s, "FLUSHDB"@) {
        Option::Some(p) => Some((CommandModel::FlushDb, p)),
        Option::None => None,
    }
}

/// The FLUSHALL production.
pub open spec fn spec_cmd_flushall(s: Seq<char>) -> Option<(CommandModel, int)> {
    match spec_kw(s, "FLUSHALL"@) {
        Option::Some(p) => Some((CommandModel::FlushAll, p)),
        Option::None => None,
    }
}

/// The SWAPDB production.
pub open spec fn spec_cmd_swapdb(s: Seq<char>) -> Option<(CommandModel, int)> {
    match spec_kw(s, "SWAPDB"@) {
        Option::Some(p) => match spec_parse_int(s, ws_end(s, p)) {
            Option::Some((v, e)) => match spec_parse_int(s, ws_end(s, e)) {
                Option::Some((w, e2)) => Some((CommandModel::SwapDb(db_idx(v), db_idx(w)), e2)),
                Option::None => None,
            },
            Option::None => None,
        },
        Option::None => None,
    }
}

/// The DBSIZE production.
pub open spec fn spec_cmd_dbsize(s: Seq<char>) -> Option<(CommandModel, int)> {
    match spec_kw(s, "DBSIZE"@) {
        Option::Some(p) => Some((CommandModel::DbSize, p)),
        Option::None => None,
    }
}

/// The GET production.
pub open spec fn spec_cmd_get(s: Seq<char>) -> Option<(CommandModel, int)> {
    match spec_kw(s, "GET"@) {
        Option::Some(p) => match spec_parse_key(s, ws_end(s, p)) {
            Option::Some((k, q)) => Some((CommandModel::Get { key: k }, q)),
            Option::None => None,
        },
        Option::None => None,
    }
}

/// The SET production.
pub open spec fn spec_cmd_set(s: Seq<char>) -> Option<(CommandModel, int)> {
    match spec_kw(s, "SET"@) {
        Option::Some(p) => match spec_parse_key(s, ws_end(s, p)) {
            Option::Some((k, q)) => match spec_parse_value(s, ws_end(s, q)) {
                Option::Some((v, e)) => Some(
                    (CommandModel::SetCmd { key: k, value: v, exp: Option::None }, e),
                ),
                Option::None => None,
            },
            Option::None => None,
        },
        Option::None => None,
    }
}

/// The APPEND production.
pub open spec fn spec_cmd_append(s: Seq<char>) -> Option<(CommandModel, int)> {
    match spec_kw(s, "APPEND"@) {
        Option::Some(p) => match spec_parse_key(s, ws_end(s, p)) {
            Option::Some((k, q)) => match spec_parse_string(s, ws_end(s, q)) {
                Option::Some((t, e)) => Some((CommandModel::Append { key: k, value: t }, e)),
                Option::None => None,
            },
            Option::None => None,
        },
        Option::None => None,
    }
}

/// The DEL production.
pub open spec fn spec_cmd_del(s: Seq<char>) -> Option<(CommandModel, int)> {
    match spec_kw(s, "DEL"@) {
        Option::Some(p) => match spec_parse_keys1(s, p) {
            Option::Some((ks, e)) => Some((CommandModel::Del { keys: ks }, e)),
            Option::None => None,
        },
        Option::None => None,
    }
}

/// The EXISTS production.
pub open spec fn spec_cmd_exists(s: Seq<char>) -> Option<(CommandModel, int)> {
    match spec_kw(s, "EXISTS"@) {
        Option::Some(p) => match spec_parse_key(s, ws_end(s, p)) {
            Option::Some((k, q)) => Some((CommandModel::Exists { key: k }, q)),
            Option::None => None,
        },
        Option::None => None,
    }
}

/// The TYPE production.
pub open spec fn spec_cmd_type(s: Seq<char>) -> Option<(CommandModel, int)> {
    match spec_kw(s, "TYPE"@) {
        Option::Some(p) => match spec_parse_key(s, ws_end(s, p)) {
            Option::Some((k, q)) => Some((CommandModel::Type { key: k }, q)),
            Option::None => None,
        },
        Option::None => None,
    }
}

/// The TIME production.
pub open spec fn spec_cmd_time(s: Seq<char>) -> Option<(CommandModel, int)> {
    match spec_kw(s, "TIME"@) {
        Option::Some(p) => Some((CommandModel::Time, p)),
        Option::None => None,
    }
}

/// The LINDEX production.
pub open spec fn spec_cmd_lindex(s: Seq<char>) -> Option<(CommandModel, int)> {
    match spec_kw(s, "LINDEX"@) {
        Option::Some(p) => match spec_parse_key(s, ws_end(s, p)) {
            Option::Some((k, q)) => match spec_parse_int(s, ws_end(s, q)) {
                Option::Some((v, e)) => Some((CommandModel::Lindex { key: k, index: v }, e)),
                Option::None => None,
            },
            Option::None => None,
        },
        Option::None => None,
    }
}

/// The LLEN production.
pub open spec fn spec_cmd_llen(s: Seq<char>) -> Option<(CommandModel, int)> {
    match spec_kw(s, "LLEN"@) {
        Option::Some(p) => match spec_parse_key(s, ws_end(s, p)) {
            Option::Some((k, q)) => Some((CommandModel::Llen { key: k }, q)),
            Option::None => None,
        },
        Option::None => None,
    }
}

/// The LPUSH production.
pub open spec fn spec_cmd_lpush(s: Seq<char>) -> Option<(CommandModel, int)> {
    match spec_kw(s, "LPUSH"@) {
        Option::Some(p) => match spec_parse_key(s, ws_end(s, p)) {
            Option::Some((k, q)) => match spec_parse_strs1(s, q) {
                Option::Some((vs, e)) => Some((CommandModel::Lpush { key: k, values: vs }, e)),
                Option::None => None,
            },
            Option::None => None,
        },
        Option::None => None,
    }
}

/// The LPOP production.
pub open spec fn spec_cmd_lpop(s: Seq<char>) -> Option<(CommandModel, int)> {
    match spec_kw(s, "LPOP"@) {
        Option::Some(p) => match spec_parse_key(s, ws_end(s, p)) {
            Option::Some((k, q)) => Some((CommandModel::Lpop { key: k }, q)),
            Option::None => None,
        },
        Option::None => None,
    }
}

/// The RPUSH production.
pub open spec fn spec_cmd_rpush(s: Seq<char>) -> Option<(CommandModel, int)> {
    match spec_kw(s, "RPUSH"@) {
        Option::Some(p) => match spec_parse_key(s, ws_end(s, p)) {
            Option::Some((k, q)) => match spec_parse_strs1(s, q) {
                Option::Some((vs, e)) => Some((CommandModel::Rpush { key: k, values: vs }, e)),
                Option::None => None,
            },
            Option::None => None,
        },
        Option::None => None,
    }
}

/// The RPOP production.
pub open spec fn spec_cmd_rpop(s: Seq<char>) -> Option<(CommandModel, int)> {
    match spec_kw(s, "RPOP"@) {
        Option::Some(p) => match spec_parse_key(s, ws_end(s, p)) {
            Option::Some((k, q)) => Some((CommandModel::Rpop { key: k }, q)),
            Option::None => None,
        },
        Option::None => None,
    }
}

/// The LSET production.
pub open spec fn spec_cmd_lset(s: Seq<char>) -> Option<(CommandModel, int)> {
    match spec_kw(s, "LSET"@) {
        Option::Some(p) => match spec_parse_key(s, ws_end(s, p)) {
            Option::Some((k, q)) => match spec_parse_int(s, ws_end(s, q)) {
                Option::Some((v, e)) => match spec_parse_string(s, ws_end(s, e)) {
                    Option::Some((t, e2)) => Some(
                        (CommandModel::Lset { key: k, index: v, value: t }, e2),
                    ),
                    Option::None => None,
                },
                Option::None => None,
            },
            Option::None => None,
        },
        Option::None => None,
    }
}

/// The SADD production.
pub open spec fn spec_cmd_sadd(s: Seq<char>) -> Option<(CommandModel, int)> {
    match spec_kw(s, "SADD"@) {
        Option::Some(p) => match spec_parse_key(s, ws_end(s, p)) {
            Option::Some((k, q)) => match spec_parse_strs1(s, q) {
                Option::Some((vs, e)) => Some((CommandModel::Sadd { key: k, members: vs }, e)),
                Option::None => None,
            },
            Option::None => None,
        },
        Option::None => None,
    }
}

/// The SCARD production.
pub open spec fn spec_cmd_scard(s: Seq<char>) -> Option<(CommandModel, int)> {
    match spec_kw(s, "SCARD"@) {
        Option::Some(p) => match spec_parse_key(s, ws_end(s, p)) {
            Option::Some((k, q)) => Some((CommandModel::Scard { key: k }, q)),
            Option::None => None,
        },
        Option::None => None,
    }
}

/// The SISMEMBER production.
pub open spec fn spec_cmd_sismember(s: Seq<char>) -> Option<(CommandModel, int)> {
    match spec_kw(s, "SISMEMBER"@) {
        Option::Some(p) => match spec_parse_key(s, ws_end(s, p)) {
            Option::Some((k, q)) => match spec_parse_string(s, ws_end(s, q)) {
                Option::Some((t, e)) => Some((CommandModel::Sismember { key: k, member: t }, e)),
                Option::None => None,
            },
            Option::None => None,
        },
        Option::None => None,
    }
}

/// The SREM production.
pub open spec fn spec_cmd_srem(s: Seq<char>) -> Option<(CommandModel, int)> {
    match spec_kw(s, "SREM"@) {
        Option::Some(p) => match spec_parse_key(s, ws_end(s, p)) {
            Option::Some((k, q)) => match spec_parse_strs1(s, q) {
                Option::Some((vs, e)) => Some((CommandModel::Srem { key: k, members: vs }, e)),
                Option::None => None,
            },
            Option::None => None,
        },
        Option::None => None,
    }
}

/// The INCRBYFLOAT production.
pub open spec fn spec_cmd_incrbyfloat(s: Seq<char>) -> Option<(CommandModel, int)> {
    match spec_kw(s, "INCRBYFLOAT"@) {
        Option::Some(p) => match spec_parse_key(s, ws_end(s, p)) {
            Option::Some((k, q)) => match spec_parse_dec(s, ws_end(s, q)) {
                Option::Some((d, e)) => Some((CommandModel::IncrByFloat { key: k, increment: d }, e)),
                Option::None => None,
            },
            Option::None => None,
        },
        Option::None => None,
    }
}

/// The INCRBY production.
pub open spec fn spec_cmd_incrby(s: Seq<char>) -> Option<(CommandModel, int)> {
    match spec_kw(s, "INCRBY"@) {
        Option::Some(p) => match spec_parse_key(s, ws_end(s, p)) {
            Option::Some((k, q)) => match spec_parse_int(s, ws_end(s, q)) {
                Option::Some((v, e)) => Some((CommandModel::IncrBy { key: k, increment: v }, e)),
                Option::None => None,
            },
            Option::None => None,
        },
        Option::None => None,
    }
}

/// The INCR production.
pub open spec fn spec_cmd_incr(s: Seq<char>) -> Option<(CommandModel, int)> {
    match spec_kw(s, "INCR"@) {
        Option::Some(p) => match spec_parse_key(s, ws_end(s, p)) {
            Option::Some((k, q)) => Some((CommandModel::Incr { key: k }, q)),
            Option::None => None,
        },
        Option::None => None,
    }
}

/// The DECRBY production.
pub open spec fn spec_cmd_decrby(s: Seq<char>) -> Option<(CommandModel, int)> {
    match spec_kw(s, "DECRBY"@) {
        Option::Some(p) => match spec_parse_key(s, ws_end(s, p)) {
            Option::Some((k, q)) => match spec_parse_int(s, ws_end(s, q)) {
                Option::Some((v, e)) => Some((CommandModel::DecrBy { key: k, decrement: v }, e)),
                Option::None => None,
            },
            Option::None => None,
        },
        Option::None => None,
    }
}

/// The DECR production.
pub open spec fn spec_cmd_decr(s: Seq<char>) -> Option<(CommandModel, int)> {
    match spec_kw(s, "DECR"@) {
        Option::Some(p) => match spec_parse_key(s, ws_end(s, p)) {
            Option::Some((k, q)) => Some((CommandModel::Decr { key: k }, q)),
            Option::None => None,
        },
        Option::None => None,
    }
}

/// The ECHO production.
pub open spec fn spec_cmd_echo(s: Seq<char>) -> Option<(CommandModel, int)> {
    match spec_kw(s, "ECHO"@) {
        Option::Some(p) => match spec_parse_string(s, ws_end(s, p)) {
            Option::Some((t, e)) => Some((CommandModel::Echo { message: t }, e)),
            Option::None => None,
        },
        Option::None => None,
    }
}

/// The PING production.
pub open spec fn spec_cmd_ping(s: Seq<char>) -> Option<(CommandModel, int)> {
    match spec_kw(s, "PING"@) {
        Option::Some(p) => match spec_parse_string(s, ws_end(s, p)) {
            Option::Some((t, e)) => Some((CommandModel::Ping { message: t }, e)),
            Option::None => Some((CommandModel::Ping { message: "PONG"@ }, p)),
        },
        Option::None => None,
    }
}

/// One line of the grammar: the first production, in a fixed order, that
/// accepts the line. The order puts longer keywords before their prefixes.
pub open spec fn spec_command(s: Seq<char>) -> Option<(CommandModel, int)> {
    if spec_cmd_select(s) is Some {
        spec_cmd_select(s)
    } else if spec_cmd_flushdb(s) is Some {
        spec_cmd_flushdb(s)
    } else if spec_cmd_flushall(s) is Some {
        spec_cmd_flushall(s)
    } else if spec_cmd_swapdb(s) is Some {
        spec_cmd_swapdb(s)
    } else if spec_cmd_dbsize(s) is Some {
        spec_cmd_dbsize(s)
    } else if spec_cmd_get(s) is Some {
        spec_cmd_get(s)
    } else if spec_cmd_set(s) is Some {
        spec_cmd_set(s)
    } else if spec_cmd_append(s) is Some {
        spec_cmd_append(s)
    } else if spec_cmd_del(s) is Some {
        spec_cmd_del(s)
    } else if spec_cmd_exists(s) is Some {
        spec_cmd_exists(s)
    } else if spec_cmd_type(s) is Some {
        spec_cmd_type(s)
    } else if spec_cmd_time(s) is Some {
        spec_cmd_time(s)
    } else if spec_cmd_lindex(s) is Some {
        spec_cmd_lindex(s)
    } else if spec_cmd_llen(s) is Some {
        spec_cmd_llen(s)
    } else if spec_cmd_lpush(s) is Some {
        spec_cmd_lpush(s)
    } else if spec_cmd_lpop(s) is Some {
        spec_cmd_lpop(s)
    } else if spec_cmd_rpush(s) is Some {
        spec_cmd_rpush(s)
    } else if spec_cmd_rpop(s) is Some {
        spec_cmd_rpop(s)
    } else if spec_cmd_lset(s) is Some {
        spec_cmd_lset(s)
    } else if spec_cmd_sadd(s) is Some {
        spec_cmd_sadd(s)
    } else if spec_cmd_scard(s) is Some {
        spec_cmd_scard(s)
    } else if spec_cmd_sismember(s) is Some {
        spec_cmd_sismember(s)
    } else if spec_cmd_srem(s) is Some {
        spec_cmd_srem(s)
    } else if spec_cmd_incrbyfloat(s) is Some {
        spec_cmd_incrbyfloat(s)
    } else if spec_cmd_incrby(s) is Some {
        spec_cmd_incrby(s)
    } else if spec_cmd_incr(s) is Some {
        spec_cmd_incr(s)
    } else if spec_cmd_decrby(s) is Some {
        spec_cmd_decrby(s)
    } else if spec_cmd_decr(s) is Some {
        spec_cmd_decr(s)
    } else if spec_cmd_echo(s) is Some {
        spec_cmd_echo(s)
    } else if spec_cmd_ping(s) is Some {
        spec_cmd_ping(s)
    } else {
        None
    }
}

fn try_select(s: &str, n: usize) -> (r: Option<(Command, usize)>)
    requires
        n == s@.len(),
    ensures
        cmd_matches(r, spec_cmd_select(s@)),
        r is Some ==> r.unwrap().1 <= n,
{
    match parse_kw(s, n, "SELECT") {
        Some(p) => match parse_int(s, n, skip_ws(s, n, p)) {
            Some((v, e)) => Some((Command::Select(clamp_idx(v)), e)),
            None => None,
        },
        None => None,
    }
}
fn try_flushdb(s: &str, n: usize) -> (r: Option<(Command, usize)>)
    requires
        n == s@.len(),
    ensures
        cmd_matches(r, spec_cmd_flushdb(s@)),
        r is Some ==> r.unwrap().1 <= n,
{
    match parse_kw(s, n, "FLUSHDB") {
        Some(p) => Some((Command::FlushDb, p)),
        None => None,
    }
}
fn try_flushall(s: &str, n: usize) -> (r: Option<(Command, usize)>)
    requires
        n == s@.len(),
    ensures
        cmd_matches(r, spec_cmd_flushall(s@)),
        r is Some ==> r.unwrap().1 <= n,
{
    match parse_kw(s, n, "FLUSHALL") {
        Some(p) => Some((Command::FlushAll, p)),
        None => None,
    }
}
fn try_swapdb(s: &str, n: usize) -> (r: Option<(Command, usize)>)
    requires
        n == s@.len(),
    ensures
        cmd_matches(r, spec_cmd_swapdb(s@)),
        r is Some ==> r.unwrap().1 <= n,
{
    match parse_kw(s, n, "SWAPDB") {
        Some(p) => match parse_int(s, n, skip_ws(s, n, p)) {
            Some((v, e)) => match parse_int(s, n, skip_ws(s, n, e)) {
                Some((w, e2)) => Some((Command::SwapDb(clamp_idx(v), clamp_idx(w)), e2)),
                None => None,
            },
            None => None,
        },
        None => None,
    }
}
fn try_dbsize(s: &str, n: usize) -> (r: Option<(Command, usize)>)
    requires
        n == s@.len(),
    ensures
        cmd_matches(r, spec_cmd_dbsize(s@)),
        r is Some ==> r.unwrap().1 <= n,
{
    match parse_kw(s, n, "DBSIZE") {
        Some(p) => Some((Command::DbSize, p)),
        None => None,
    }
}
fn try_get(s: &str, n: usize) -> (r: Option<(Command, usize)>)
    requires
        n == s@.len(),
    ensures
        cmd_matches(r, spec_cmd_get(s@)),
        r is Some ==> r.unwrap().1 <= n,
{
    match parse_kw(s, n, "GET") {
        Some(p) => match parse_key(s, n, skip_ws(s, n, p)) {
            Some((k, q)) => Some((Command::Get { key: k }, q)),
            None => None,
        },
        None => None,
    }
}
fn try_set(s: &str, n: usize) -> (r: Option<(Command, usize)>)
    requires
        n == s@.len(),
    ensures
        cmd_matches(r, spec_cmd_set(s@)),
        r is Some ==> r.unwrap().1 <= n,
{
    match parse_kw(s, n, "SET") {
        Some(p) => match parse_key(s, n, skip_ws(s, n, p)) {
            Some((k, q)) => match parse_value(s, n, skip_ws(s, n, q)) {
                Some((v, e)) => Some((Command::SetCmd { key: k, value: v, exp: None }, e)),
                None => None,
            },
            None => None,
        },
        None => None,
    }
}
fn try_append(s: &str, n: usize) -> (r: Option<(Command, usize)>)
    requires
        n == s@.len(),
    ensures
        cmd_matches(r, spec_cmd_append(s@)),
        r is Some ==> r.unwrap().1 <= n,
{
    match parse_kw(s, n, "APPEND") {
        Some(p) => match parse_key(s, n, skip_ws(s, n, p)) {
            Some((k, q)) => match parse_string(s, n, skip_ws(s, n, q)) {
                Some((t, e)) => Some((Command::Append { key: k, value: t }, e)),
                None => None,
            },
            None => None,
        },
        None => None,
    }
}
fn try_del(s: &str, n: usize) -> (r: Option<(Command, usize)>)
    requires
        n == s@.len(),
    ensures
        cmd_matches(r, spec_cmd_del(s@)),
        r is Some ==> r.unwrap().1 <= n,
{
    match parse_kw(s, n, "DEL") {
        Some(p) => match parse_keys1(s, n, p) {
            Some((ks, e)) => Some((Command::Del { keys: ks }, e)),
            None => None,
        },
        None => None,
    }
}
fn try_exists(s: &str, n: usize) -> (r: Option<(Command, usize)>)
    requires
        n == s@.len(),
    ensures
        cmd_matches(r, spec_cmd_exists(s@)),
        r is Some ==> r.unwrap().1 <= n,
{
    match parse_kw(s, n, "EXISTS") {
        Some(p) => match parse_key(s, n, skip_ws(s, n, p)) {
            Some((k, q)) => Some((Command::Exists { key: k }, q)),
            None => None,
        },
        None => None,
    }
}
fn try_type(s: &str, n: usize) -> (r: Option<(Command, usize)>)
    requires
        n == s@.len(),
    ensures
        cmd_matches(r, spec_cmd_type(s@)),
        r is Some ==> r.unwrap().1 <= n,
{
    match parse_kw(s, n, "TYPE") {
        Some(p) => match parse_key(s, n, skip_ws(s, n, p)) {
            Some((k, q)) => Some((Command::Type { key: k }, q)),
            None => None,
        },
        None => None,
    }
}
fn try_time(s: &str, n: usize) -> (r: Option<(Command, usize)>)
    requires
        n == s@.len(),
    ensures
        cmd_matches(r, spec_cmd_time(s@)),
        r is Some ==> r.unwrap().1 <= n,
{
    match parse_kw(s, n, "TIME") {
        Some(p) => Some((Command::Time, p)),
        None => None,
    }
}
fn try_lindex(s: &str, n: usize) -> (r: Option<(Command, usize)>)
    requires
        n == s@.len(),
    ensures
        cmd_matches(r, spec_cmd_lindex(s@)),
        r is Some ==> r.unwrap().1 <= n,
{
    match parse_kw(s, n, "LINDEX") {
        Some(p) => match parse_key(s, n, skip_ws(s, n, p)) {
            Some((k, q)) => match parse_int(s, n, skip_ws(s, n, q)) {
                Some((v, e)) => Some((Command::Lindex { key: k, index: v }, e)),
                None => None,
            },
            None => None,
        },
        None => None,
    }
}
fn try_llen(s: &str, n: usize) -> (r: Option<(Command, usize)>)
    requires
        n == s@.len(),
    ensures
        cmd_matches(r, spec_cmd_llen(s@)),
        r is Some ==> r.unwrap().1 <= n,
{
    match parse_kw(s, n, "LLEN") {
        Some(p) => match parse_key(s, n, skip_ws(s, n, p)) {
            Some((k, q)) => Some((Command::Llen { key: k }, q)),
            None => None,
        },
        None => None,
    }
}
fn try_lpush(s: &str, n: usize) -> (r: Option<(Command, usize)>)
    requires
        n == s@.len(),
    ensures
        cmd_matches(r, spec_cmd_lpush(s@)),
        r is Some ==> r.unwrap().1 <= n,
{
    match parse_kw(s, n, "LPUSH") {
        Some(p) => match parse_key(s, n, skip_ws(s, n, p)) {
            Some((k, q)) => match parse_strs1(s, n, q) {
                Some((vs, e)) => Some((Command::Lpush { key: k, values: vs }, e)),
                None => None,
            },
            None => None,
        },
        None => None,
    }
}
fn try_lpop(s: &str, n: usize) -> (r: Option<(Command, usize)>)
    requires
        n == s@.len(),
    ensures
        cmd_matches(r, spec_cmd_lpop(s@)),
        r is Some ==> r.unwrap().1 <= n,
{
    match parse_kw(s, n, "LPOP") {
        Some(p) => match parse_key(s, n, skip_ws(s, n, p)) {
            Some((k, q)) => Some((Command::Lpop { key: k }, q)),
            None => None,
        },
        None => None,
    }
}
fn try_rpush(s: &str, n: usize) -> (r: Option<(Command, usize)>)
    requires
        n == s@.len(),
    ensures
        cmd_matches(r, spec_cmd_rpush(s@)),
        r is Some ==> r.unwrap().1 <= n,
{
    match parse_kw(s, n, "RPUSH") {
        Some(p) => match parse_key(s, n, skip_ws(s, n, p)) {
            Some((k, q)) => match parse_strs1(s, n, q) {
                Some((vs, e)) => Some((Command::Rpush { key: k, values: vs }, e)),
                None => None,
            },
            None => None,
        },
        None => None,
    }
}
fn try_rpop(s: &str, n: usize) -> (r: Option<(Command, usize)>)
    requires
        n == s@.len(),
    ensures
        cmd_matches(r, spec_cmd_rpop(s@)),
        r is Some ==> r.unwrap().1 <= n,
{
    match parse_kw(s, n, "RPOP") {
        Some(p) => match parse_key(s, n, skip_ws(s, n, p)) {
            Some((k, q)) => Some((Command::Rpop { key: k }, q)),
            None => None,
        },
        None => None,
    }
}
fn try_lset(s: &str, n: usize) -> (r: Option<(Command, usize)>)
    requires
        n == s@.len(),
    ensures
        cmd_matches(r, spec_cmd_lset(s@)),
        r is Some ==> r.unwrap().1 <= n,
{
    match parse_kw(s, n, "LSET") {
        Some(p) => match parse_key(s, n, skip_ws(s, n, p)) {
            Some((k, q)) => match parse_int(s, n, skip_ws(s, n, q)) {
                Some((v, e)) => match parse_string(s, n, skip_ws(s, n, e)) {
                    Some((t, e2)) => Some((Command::Lset { key: k, index: v, value: t }, e2)),
                    None => None,
                },
                None => None,
            },
            None => None,
        },
        None => None,
    }
}
fn try_sadd(s: &str, n: usize) -> (r: Option<(Command, usize)>)
    requires
        n == s@.len(),
    ensures
        cmd_matches(r, spec_cmd_sadd(s@)),
        r is Some ==> r.unwrap().1 <= n,
{
    match parse_kw(s, n, "SADD") {
        Some(p) => match parse_key(s, n, skip_ws(s, n, p)) {
            Some((k, q)) => match parse_strs1(s, n, q) {
                Some((vs, e)) => Some((Command::Sadd { key: k, members: vs }, e)),
                None => None,
            },
            None => None,
        },
        None => None,
    }
}
fn try_scard(s: &str, n: usize) -> (r: Option<(Command, usize)>)
    requires
        n == s@.len(),
    ensures
        cmd_matches(r, spec_cmd_scard(s@)),
        r is Some ==> r.unwrap().1 <= n,
{
    match parse_kw(s, n, "SCARD") {
        Some(p) => match parse_key(s, n, skip_ws(s, n, p)) {
            Some((k, q)) => Some((Command::Scard { key: k }, q)),
            None => None,
        },
        None => None,
    }
}
fn try_sismember(s: &str, n: usize) -> (r: Option<(Command, usize)>)
    requires
        n == s@.len(),
    ensures
        cmd_matches(r, spec_cmd_sismember(s@)),
        r is Some ==> r.unwrap().1 <= n,
{
    match parse_kw(s, n, "SISMEMBER") {
        Some(p) => match parse_key(s, n, skip_ws(s, n, p)) {
            Some((k, q)) => match parse_string(s, n, skip_ws(s, n, q)) {
                Some((t, e)) => Some((Command::Sismember { key: k, member: t }, e)),
                None => None,
            },
            None => None,
        },
        None => None,
    }
}
fn try_srem(s: &str, n: usize) -> (r: Option<(Command, usize)>)
    requires
        n == s@.len(),
    ensures
        cmd_matches(r, spec_cmd_srem(s@)),
        r is Some ==> r.unwrap().1 <= n,
{
    match parse_kw(s, n, "SREM") {
        Some(p) => match parse_key(s, n, skip_ws(s, n, p)) {
            Some((k, q)) => match parse_strs1(s, n, q) {
                Some((vs, e)) => Some((Command::Srem { key: k, members: vs }, e)),
                None => None,
            },
            None => None,
        },
        None => None,
    }
}
fn try_incrbyfloat(s: &str, n: usize) -> (r: Option<(Command, usize)>)
    requires
        n == s@.len(),
    ensures
        cmd_matches(r, spec_cmd_incrbyfloat(s@)),
        r is Some ==> r.unwrap().1 <= n,
{
    match parse_kw(s, n, "INCRBYFLOAT") {
        Some(p) => match parse_key(s, n, skip_ws(s, n, p)) {
            Some((k, q)) => {
                let w = skip_ws(s, n, q);
                match parse_dec(s, n, w) {
                    Some((d, e)) => {
                        proof {
                            crate::decimal::lemma_parse_dec_tight(s@, w as int);
                        }
                        Some((Command::IncrByFloat { key: k, increment: d }, e))
                    },
                    None => None,
                }
            },
            None => None,
        },
        None => None,
    }
}
fn try_incrby(s: &str, n: usize) -> (r: Option<(Command, usize)>)
    requires
        n == s@.len(),
    ensures
        cmd_matches(r, spec_cmd_incrby(s@)),
        r is Some ==> r.unwrap().1 <= n,
{
    match parse_kw(s, n, "INCRBY") {
        Some(p) => match parse_key(s, n, skip_ws(s, n, p)) {
            Some((k, q)) => match parse_int(s, n, skip_ws(s, n, q)) {
                Some((v, e)) => Some((Command::IncrBy { key: k, increment: v }, e)),
                None => None,
            },
            None => None,
        },
        None => None,
    }
}
fn try_incr(s: &str, n: usize) -> (r: Option<(Command, usize)>)
    requires
        n == s@.len(),
    ensures
        cmd_matches(r, spec_cmd_incr(s@)),
        r is Some ==> r.unwrap().1 <= n,
{
    match parse_kw(s, n, "INCR") {
        Some(p) => match parse_key(s, n, skip_ws(s, n, p)) {
            Some((k, q)) => Some((Command::Incr { key: k }, q)),
            None => None,
        },
        None => None,
    }
}
fn try_decrby(s: &str, n: usize) -> (r: Option<(Command, usize)>)
    requires
        n == s@.len(),
    ensures
        cmd_matches(r, spec_cmd_decrby(s@)),
        r is Some ==> r.unwrap().1 <= n,
{
    match parse_kw(s, n, "DECRBY") {
        Some(p) => match parse_key(s, n, skip_ws(s, n, p)) {
            Some((k, q)) => match parse_int(s, n, skip_ws(s, n, q)) {
                Some((v, e)) => Some((Command::DecrBy { key: k, decrement: v }, e)),
                None => None,
            },
            None => None,
        },
        None => None,
    }
}
fn try_decr(s: &str, n: usize) -> (r: Option<(Command, usize)>)
    requires
        n == s@.len(),
    ensures
        cmd_matches(r, spec_cmd_decr(s@)),
        r is Some ==> r.unwrap().1 <= n,
{
    match parse_kw(s, n, "DECR") {
        Some(p) => match parse_key(s, n, skip_ws(s, n, p)) {
            Some((k, q)) => Some((Command::Decr { key: k }, q)),
            None => None,
        },
        None => None,
    }
}
fn try_echo(s: &str, n: usize) -> (r: Option<(Command, usize)>)
    requires
        n == s@.len(),
    ensures
        cmd_matches(r, spec_cmd_echo(s@)),
        r is Some ==> r.unwrap().1 <= n,
{
    match parse_kw(s, n, "ECHO") {
        Some(p) => match parse_string(s, n, skip_ws(s, n, p)) {
            Some((t, e)) => Some((Command::Echo { message: t }, e)),
            None => None,
        },
        None => None,
    }
}
fn try_ping(s: &str, n: usize) -> (r: Option<(Command, usize)>)
    requires
        n == s@.len(),
    ensures
        cmd_matches(r, spec_cmd_ping(s@)),
        r is Some ==> r.unwrap().1 <= n,
{
    match parse_kw(s, n, "PING") {
        Some(p) => match parse_string(s, n, skip_ws(s, n, p)) {
            Some((t, e)) => Some((Command::Ping { message: t }, e)),
            None => Some((Command::Ping { message: String::from_str("PONG") }, p)),
        },
        None => None,
    }
}

/// Parses one line as a command: the typed command and how many characters
/// of the line it spans.
#[verifier::rlimit(50)]
pub fn command_parser(s: &str) -> (r: Option<(Command, usize)>)
    ensures
        cmd_matches(r, spec_command(s@)),
        r is Some ==> r.unwrap().1 <= s@.len(),
{
    let n = s.unicode_len();
    let r = try_select(s, n);
    if r.is_some() {
        return r;
    }
    let r = try_flushdb(s, n);
    if r.is_some() {
        return r;
    }
    let r = try_flushall(s, n);
    if r.is_some() {
        return r;
    }
    let r = try_swapdb(s, n);
    if r.is_some() {
        return r;
    }
    let r = try_dbsize(s, n);
    if r.is_some() {
        return r;
    }
    let r = try_get(s, n);
    if r.is_some() {
        return r;
    }
    let r = try_set(s, n);
    if r.is_some() {
        return r;
    }
    let r = try_append(s, n);
    if r.is_some() {
        return r;
    }
    let r = try_del(s, n);
    if r.is_some() {
        return r;
    }
    let r = try_exists(s, n);
    if r.is_some() {
        return r;
    }
    let r = try_type(s, n);
    if r.is_some() {
        return r;
    }
    let r = try_time(s, n);
    if r.is_some() {
        return r;
    }
    let r = try_lindex(s, n);
    if r.is_some() {
        return r;
    }
    let r = try_llen(s, n);
    if r.is_some() {
        return r;
    }
    let r = try_lpush(s, n);
    if r.is_some() {
        return r;
    }
    let r = try_lpop(s, n);
    if r.is_some() {
        return r;
    }
    let r = try_rpush(s, n);
    if r.is_some() {
        return r;
    }
    let r = try_rpop(s, n);
    if r.is_some() {
        return r;
    }
    let r = try_lset(s, n);
    if r.is_some() {
        return r;
    }
    let r = try_sadd(s, n);
    if r.is_some() {
        return r;
    }
    let r = try_scard(s, n);
    if r.is_some() {
        return r;
    }
    let r = try_sismember(s, n);
    if r.is_some() {
        return r;
    }
    let r = try_srem(s, n);
    if r.is_some() {
        return r;
    }
    let r = try_incrbyfloat(s, n);
    if r.is_some() {
        return r;
    }
    let r = try_incrby(s, n);
    if r.is_some() {
        return r;
    }
    let r = try_incr(s, n);
    if r.is_some() {
        return r;
    }
    let r = try_decrby(s, n);
    if r.is_some() {
        return r;
    }
    let r = try_decr(s, n);
    if r.is_some() {
        return r;
    }
    let r = try_echo(s, n);
    if r.is_some() {
        return r;
    }
    let r = try_ping(s, n);
    if r.is_some() {
        return r;
    }
    None
}

} // verus!
