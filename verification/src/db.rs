//! One logical database: the keyspace, the expiry timetable, and the
//! execution of every command against them.

use vstd::prelude::*;

use vstd::hash_map::StringHashMap;

use crate::clock::wall_clock;
use crate::command::{Command, CommandModel, Return, ReturnModel};
use crate::decimal::{
    dec_add, dec_tight, format_dec, parse_dec_full, pow10_i128, spec_dec_add, spec_dec_chars,
    spec_parse_dec_full, Dec, DecModel,
};
use crate::key::{exp_map, exp_unique, remove_exp, set_exp, ExpireTime, Key};
use crate::text::{parse_i64_str, pow10, spec_i64_of_text};
use crate::value::{str_views, Value, ValueModel};

verus! {

use std::collections::VecDeque;

/// The mathematical shape of one database: live values and pending
/// expiries, both keyed by key text.
pub struct DbModel {
    pub values: Map<Seq<char>, ValueModel>,
    pub ttl: Map<Seq<char>, u64>,
}

/// The models of a keyspace's stored values.
pub open spec fn vals(m: Map<Seq<char>, Value>) -> Map<Seq<char>, ValueModel> {
    Map::new(|k: Seq<char>| m.dom().contains(k), |k: Seq<char>| m[k]@)
}

/// One logical database: a keyspace and its expiry records.
pub struct RustisDb {
    values: StringHashMap<Value>,
    exp: Vec<ExpireTime>,
}

impl View for RustisDb {
    type V = DbModel;

    closed spec fn view(&self) -> DbModel {
        DbModel { values: vals(self.values@), ttl: exp_map(self.exp@) }
    }
}

/// Largest value `n` clamped into a signed 64-bit word.
pub open spec fn i64_clamp(n: nat) -> int {
    if n > i64::MAX {
        i64::MAX as int
    } else {
        n as int
    }
}

/// Clamps a length into a signed 64-bit word.
pub fn len_to_i64(n: usize) -> (r: i64)
    ensures
        r as int == i64_clamp(n as nat),
{
    if (n as u64) > (i64::MAX as u64) {
        i64::MAX
    } else {
        n as i64
    }
}

/// The error text for a value that is not numeric or does not fit.
pub open spec fn err_not_int() -> Seq<char> {
    "ERR value is not an integer or out of range"@
}

/// The wrong-kind error for the string commands.
pub open spec fn err_not_string() -> Seq<char> {
    "WRONGTYPE key doesn't contain a string"@
}

/// The wrong-kind error for the list commands.
pub open spec fn err_not_list() -> Seq<char> {
    "WRONGTYPE not a list"@
}

/// How a signed delta lands on a key: an absent key or one holding a
/// non-scalar counts from zero, an integer adds, numeric text is parsed and
/// adds; non-numeric text or a sum outside the 64-bit range is an error and
/// leaves the database unchanged.
pub open spec fn spec_incr_by(m: DbModel, key: Seq<char>, delta: int) -> (DbModel, ReturnModel) {
    let parsed: Option<int> = if m.values.contains_key(key) {
        match m.values[key] {
            ValueModel::IntValue(i) => Some(i),
            ValueModel::StrValue(s) => spec_i64_of_text(s),
            _ => Some(0),
        }
    } else {
        Some(0)
    };
    match parsed {
        Option::None => (m, ReturnModel::Error(err_not_int())),
        Option::Some(cur) => {
            let new = cur + delta;
            if i64::MIN <= new <= i64::MAX {
                (
                    DbModel { values: m.values.insert(key, ValueModel::IntValue(new)), ttl: m.ttl },
                    ReturnModel::ValueReturn(ValueModel::IntValue(new)),
                )
            } else {
                (m, ReturnModel::Error(err_not_int()))
            }
        },
    }
}

/// How a decimal delta lands on a key: an absent key or one holding a
/// non-scalar stores the delta itself, an integer or decimal text adds
/// exactly; non-decimal text is an error. The result is stored and returned
/// as decimal text.
pub open spec fn spec_incr_float(m: DbModel, key: Seq<char>, inc: DecModel) -> (
    DbModel,
    ReturnModel,
) {
    if !dec_tight(inc) {
        (m, ReturnModel::Error(err_not_int()))
    } else {
        let newd: Option<DecModel> = if m.values.contains_key(key) {
            match m.values[key] {
                ValueModel::IntValue(i) => Some(
                    spec_dec_add(DecModel { mant: i, scale: 0 }, inc),
                ),
                ValueModel::StrValue(s) => match spec_parse_dec_full(s) {
                    Option::Some(d) => Some(spec_dec_add(d, inc)),
                    Option::None => None,
                },
                _ => Some(inc),
            }
        } else {
            Some(inc)
        };
        match newd {
            Option::None => (m, ReturnModel::Error(err_not_int())),
            Option::Some(d) => {
                let text = spec_dec_chars(d.mant, d.scale);
                (
                    DbModel {
                        values: m.values.insert(key, ValueModel::StrValue(text)),
                        ttl: m.ttl,
                    },
                    ReturnModel::ValueReturn(ValueModel::StrValue(text)),
                )
            },
        }
    }
}

/// Resolves a possibly negative index against a length: a negative index
/// wraps once from the end; anything outside the list is refused.
pub open spec fn spec_list_index(len: nat, i: int) -> Option<int> {
    let idx = if i < 0 {
        len + i
    } else {
        i
    };
    if idx >= 0 && i < len {
        Some(idx)
    } else {
        None
    }
}

/// Removing each named key in order, dropping its pending expiry with it:
/// the new state and how many keys were actually present.
pub open spec fn spec_del(m: DbModel, keys: Seq<Seq<char>>) -> (DbModel, nat)
    decreases keys.len(),
{
    if keys.len() == 0 {
        (m, 0)
    } else {
        let k = keys[0];
        let hit = m.values.contains_key(k);
        let m1 = if hit {
            DbModel { values: m.values.remove(k), ttl: m.ttl.remove(k) }
        } else {
            m
        };
        let rest = spec_del(m1, keys.drop_first());
        (
            rest.0,
            rest.1 + if hit {
                1nat
            } else {
                0nat
            },
        )
    }
}

/// The name the TYPE command gives a stored kind; an absent key, a null or
/// an array kind has none.
pub open spec fn spec_type_reply(m: DbModel, key: Seq<char>) -> ValueModel {
    if m.values.contains_key(key) {
        match m.values[key] {
            ValueModel::IntValue(_) => ValueModel::StrValue("string"@),
            ValueModel::StrValue(_) => ValueModel::StrValue("string"@),
            ValueModel::SetValue(_) => ValueModel::StrValue("set"@),
            ValueModel::ListValue(_) => ValueModel::StrValue("list"@),
            ValueModel::SortedSetValue(_) => ValueModel::StrValue("zset"@),
            ValueModel::HashValue(_) => ValueModel::StrValue("hash"@),
            _ => ValueModel::Nil,
        }
    } else {
        ValueModel::Nil
    }
}

/// What executing one command does to one database and what it replies.
/// The TIME command is not covered here: its reply depends on the clock.
pub open spec fn spec_run_command(m: DbModel, cmd: CommandModel) -> (DbModel, ReturnModel) {
    match cmd {
        CommandModel::Get { key } => (
            m,
            ReturnModel::ValueReturn(
                if m.values.contains_key(key) {
                    m.values[key]
                } else {
                    ValueModel::Nil
                },
            ),
        ),
        CommandModel::SetCmd { key, value, exp } => (
            DbModel {
                values: m.values.insert(key, value),
                ttl: match exp {
                    Option::Some(t) => m.ttl.insert(key, t),
                    Option::None => m.ttl.remove(key),
                },
            },
            ReturnModel::Okay,
        ),
        CommandModel::Append { key, value } => {
            let cur: Option<Seq<char>> = if m.values.contains_key(key) {
                match m.values[key] {
                    ValueModel::StrValue(s) => Some(s),
                    ValueModel::IntValue(i) => Some(crate::text::int_to_chars(i)),
                    _ => None,
                }
            } else {
                Some(Seq::empty())
            };
            match cur {
                Option::None => (m, ReturnModel::Error(err_not_string())),
                Option::Some(s) => {
                    let new = s + value;
                    (
                        DbModel {
                            values: m.values.insert(key, ValueModel::StrValue(new)),
                            ttl: m.ttl,
                        },
                        ReturnModel::ValueReturn(ValueModel::IntValue(i64_clamp(new.len()))),
                    )
                },
            }
        },
        CommandModel::Incr { key } => spec_incr_by(m, key, 1),
        CommandModel::Decr { key } => spec_incr_by(m, key, -1),
        CommandModel::IncrBy { key, increment } => spec_incr_by(m, key, increment),
        CommandModel::DecrBy { key, decrement } => spec_incr_by(m, key, -decrement),
        CommandModel::IncrByFloat { key, increment } => spec_incr_float(m, key, increment),
        CommandModel::Lindex { key, index } => (
            m,
            if m.values.contains_key(key) && m.values[key] is ListValue {
                let l = m.values[key]->ListValue_0;
                match spec_list_index(l.len(), index) {
                    Option::Some(i) => ReturnModel::ValueReturn(ValueModel::StrValue(l[i])),
                    Option::None => ReturnModel::Error("ERR index out of range"@),
                }
            } else {
                ReturnModel::Error(err_not_list())
            },
        ),
        CommandModel::Llen { key } => (
            m,
            if m.values.contains_key(key) && m.values[key] is ListValue {
                ReturnModel::ValueReturn(
                    ValueModel::IntValue(i64_clamp(m.values[key]->ListValue_0.len())),
                )
            } else {
                ReturnModel::Error(err_not_list())
            },
        ),
        CommandModel::Lpop { key } => {
            if m.values.contains_key(key) && m.values[key] is ListValue {
                let l = m.values[key]->ListValue_0;
                if l.len() > 0 {
                    (
                        DbModel {
                            values: m.values.insert(key, ValueModel::ListValue(l.drop_first())),
                            ttl: m.ttl,
                        },
                        ReturnModel::ValueReturn(ValueModel::StrValue(l[0])),
                    )
                } else {
                    (m, ReturnModel::Error("ERR list is empty"@))
                }
            } else {
                (m, ReturnModel::Error(err_not_list()))
            }
        },
        CommandModel::Rpop { key } => {
            if m.values.contains_key(key) && m.values[key] is ListValue {
                let l = m.values[key]->ListValue_0;
                if l.len() > 0 {
                    (
                        DbModel {
                            values: m.values.insert(key, ValueModel::ListValue(l.drop_last())),
                            ttl: m.ttl,
                        },
                        ReturnModel::ValueReturn(ValueModel::StrValue(l.last())),
                    )
                } else {
                    (m, ReturnModel::Error("ERR list is empty"@))
                }
            } else {
                (m, ReturnModel::Error(err_not_list()))
            }
        },
        CommandModel::Lpush { key, values } => {
            let cur: Option<Seq<Seq<char>>> = if m.values.contains_key(key) {
                if m.values[key] is ListValue {
                    Some(m.values[key]->ListValue_0)
                } else {
                    None
                }
            } else {
                Some(Seq::empty())
            };
            match cur {
                Option::None => (m, ReturnModel::Error(err_not_list())),
                Option::Some(l) => {
                    let l2 = values.reverse() + l;
                    (
                        DbModel {
                            values: m.values.insert(key, ValueModel::ListValue(l2)),
                            ttl: m.ttl,
                        },
                        ReturnModel::ValueReturn(ValueModel::IntValue(i64_clamp(l2.len()))),
                    )
                },
            }
        },
        CommandModel::Rpush { key, values } => {
            let cur: Option<Seq<Seq<char>>> = if m.values.contains_key(key) {
                if m.values[key] is ListValue {
                    Some(m.values[key]->ListValue_0)
                } else {
                    None
                }
            } else {
                Some(Seq::empty())
            };
            match cur {
                Option::None => (m, ReturnModel::Error(err_not_list())),
                Option::Some(l) => {
                    let l2 = l + values;
                    (
                        DbModel {
                            values: m.values.insert(key, ValueModel::ListValue(l2)),
                            ttl: m.ttl,
                        },
                        ReturnModel::ValueReturn(ValueModel::IntValue(i64_clamp(l2.len()))),
                    )
                },
            }
        },
        CommandModel::Lset { key, index, value } => {
            if m.values.contains_key(key) && m.values[key] is ListValue {
                let l = m.values[key]->ListValue_0;
                match spec_list_index(l.len(), index) {
                    Option::Some(i) => (
                        DbModel {
                            values: m.values.insert(key, ValueModel::ListValue(l.update(i, value))),
                            ttl: m.ttl,
                        },
                        ReturnModel::Okay,
                    ),
                    Option::None => (m, ReturnModel::Error("ERR index out of range"@)),
                }
            } else {
                (m, ReturnModel::Error(err_not_list()))
            }
        },
        CommandModel::Del { keys } => {
            let r = spec_del(m, keys);
            (r.0, ReturnModel::ValueReturn(ValueModel::IntValue(i64_clamp(r.1))))
        },
        CommandModel::Exists { key } => (
            m,
            ReturnModel::ValueReturn(
                ValueModel::IntValue(
                    if m.values.contains_key(key) {
                        1
                    } else {
                        0
                    },
                ),
            ),
        ),
        CommandModel::Type { key } => (m, ReturnModel::ValueReturn(spec_type_reply(m, key))),
        CommandModel::DbSize => (
            m,
            ReturnModel::ValueReturn(ValueModel::IntValue(i64_clamp(m.values.len()))),
        ),
        CommandModel::FlushDb => (
            DbModel { values: Map::empty(), ttl: Map::empty() },
            ReturnModel::Okay,
        ),
        CommandModel::Ping { message } => (
            m,
            ReturnModel::ValueReturn(ValueModel::StrValue(message)),
        ),
        CommandModel::Echo { message } => (
            m,
            ReturnModel::ValueReturn(ValueModel::StrValue(message)),
        ),
        _ => (m, ReturnModel::Okay),
    }
}

/// The shape of a TIME reply: a two-member array of integers whose second
/// member, the microseconds, lies below one million.
pub open spec fn spec_time_reply(r: ReturnModel) -> bool {
    &&& r is ValueReturn
    &&& r->ValueReturn_0 is ArrayValue
    &&& {
        let a = r->ValueReturn_0->ArrayValue_0;
        &&& a.len() == 2
        &&& a[0] is IntValue
        &&& a[1] is IntValue
        &&& 0 <= a[0]->IntValue_0
        &&& 0 <= a[1]->IntValue_0 < 1000000
    }
}

/// Keys whose pending expiry lies at or before `now`.
pub open spec fn expired_keys(m: DbModel, now: u64) -> Set<Seq<char>> {
    Set::new(|k: Seq<char>| m.ttl.dom().contains(k) && m.ttl[k] <= now)
}

/// Dropping every key whose expiry has passed, from the keyspace and from
/// the timetable alike.
pub open spec fn spec_purge(m: DbModel, now: u64) -> DbModel {
    DbModel {
        values: m.values.remove_keys(expired_keys(m, now)),
        ttl: m.ttl.remove_keys(expired_keys(m, now)),
    }
}

impl RustisDb {
    /// The structural soundness of a database: expiry records name distinct,
    /// live keys.
    pub closed spec fn wf(&self) -> bool {
        &&& exp_unique(self.exp@)
        &&& forall|i: int|
            0 <= i < self.exp@.len() ==> self.values@.dom().contains(
                (#[trigger] self.exp@[i]).key@,
            )
    }

    /// A fresh, empty database.
    pub fn new() -> (r: RustisDb)
        ensures
            r.wf(),
            r@.values == Map::<Seq<char>, ValueModel>::empty(),
            r@.ttl == Map::<Seq<char>, u64>::empty(),
    {
        let r = RustisDb { values: StringHashMap::with_capacity(1024), exp: Vec::new() };
        proof {
            assert(vals(r.values@) =~= Map::<Seq<char>, ValueModel>::empty());
        }
        r
    }
}

} // verus!

verus! {

use crate::text::i64_to_string;

proof fn lemma_vals_insert(m: Map<Seq<char>, Value>, k: Seq<char>, v: Value)
    ensures
        vals(m.insert(k, v)) == vals(m).insert(k, v@),
{
    assert(vals(m.insert(k, v)) =~= vals(m).insert(k, v@));
}

proof fn lemma_vals_remove(m: Map<Seq<char>, Value>, k: Seq<char>)
    ensures
        vals(m.remove(k)) == vals(m).remove(k),
{
    assert(vals(m.remove(k)) =~= vals(m).remove(k));
}

impl RustisDb {
    /// GET: the stored value, or `Nil` when the key is absent; never errs.
    fn db_get(&self, key: &String) -> (r: Return)
        ensures
            r@ == spec_run_command(self@, CommandModel::Get { key: key@ }).1,
    {
        match self.values.get(key.as_str()) {
            Some(v) => Return::ValueReturn(v.clone()),
            None => Return::ValueReturn(Value::Nil),
        }
    }

    /// SET: overwrites the key unconditionally; an expiry argument
    /// supersedes any pending expiry, its absence clears one.
    fn db_set(&mut self, key: String, value: Value, exp: Option<u64>) -> (r: Return)
        requires
            old(self).wf(),
        ensures
            final(self).wf(),
            (final(self)@, r@) == spec_run_command(
                old(self)@,
                CommandModel::SetCmd { key: key@, value: value@, exp },
            ),
    {
        proof {
            lemma_vals_insert(self.values@, key@, value);
        }
        match exp {
            Option::None => {
                remove_exp(&mut self.exp, &key);
            },
            Option::Some(t) => {
                set_exp(&mut self.exp, key.clone(), t);
            },
        }
        self.values.insert(key, value);
        Return::Okay
    }

    /// APPEND: concatenates onto scalar text (an integer is first written
    /// out), creates absent keys, and refuses non-scalar kinds.
    fn db_append(&mut self, key: String, value: String) -> (r: Return)
        requires
            old(self).wf(),
        ensures
            final(self).wf(),
            (final(self)@, r@) == spec_run_command(
                old(self)@,
                CommandModel::Append { key: key@, value: value@ },
            ),
    {
        let mut base: String;
        match self.values.get(key.as_str()) {
            None => {
                base = String::new();
            },
            Some(Value::StrValue(s)) => {
                base = s.clone();
            },
            Some(Value::IntValue(i)) => {
                base = i64_to_string(*i);
            },
            Some(_) => {
                return Return::Error(String::from_str("WRONGTYPE key doesn't contain a string"));
            },
        }
        base.append(value.as_str());
        let n = len_to_i64(base.unicode_len());
        proof {
            lemma_vals_insert(self.values@, key@, Value::StrValue(base));
        }
        self.values.insert(key, Value::StrValue(base));
        Return::ValueReturn(Value::IntValue(n))
    }

    /// One increment primitive behind INCR, DECR, INCRBY and DECRBY.
    fn db_incr_by(&mut self, key: String, delta: i64) -> (r: Return)
        requires
            old(self).wf(),
        ensures
            final(self).wf(),
            (final(self)@, r@) == spec_incr_by(old(self)@, key@, delta as int),
    {
        let mut cur: i64 = 0;
        match self.values.get(key.as_str()) {
            None => {},
            Some(Value::IntValue(i)) => {
                cur = *i;
            },
            Some(Value::StrValue(s)) => {
                match parse_i64_str(s.as_str()) {
                    Some(v) => {
                        cur = v;
                    },
                    None => {
                        return Return::Error(
                            String::from_str("ERR value is not an integer or out of range"),
                        );
                    },
                }
            },
            Some(_) => {},
        }
        let sum = (cur as i128) + (delta as i128);
        if sum < (i64::MIN as i128) || sum > (i64::MAX as i128) {
            return Return::Error(String::from_str("ERR value is not an integer or out of range"));
        }
        let new = sum as i64;
        proof {
            lemma_vals_insert(self.values@, key@, Value::IntValue(new));
        }
        self.values.insert(key, Value::IntValue(new));
        Return::ValueReturn(Value::IntValue(new))
    }

    /// INCRBYFLOAT: exact decimal addition onto scalar text or an integer;
    /// the result is stored and returned as decimal text.
    fn db_incr_float(&mut self, key: String, inc: Dec) -> (r: Return)
        requires
            old(self).wf(),
        ensures
            final(self).wf(),
            (final(self)@, r@) == spec_incr_float(old(self)@, key@, inc@),
    {
        if inc.scale > 18 {
            return Return::Error(String::from_str("ERR value is not an integer or out of range"));
        }
        let bound = 10000000000000000000i128 * pow10_i128(inc.scale);
        proof {
            crate::decimal::lemma_pow10_18();
            crate::decimal::lemma_pow10_mono(inc.scale as nat, 18);
        }
        if inc.mant < -bound || inc.mant > bound {
            return Return::Error(String::from_str("ERR value is not an integer or out of range"));
        }
        let newd: Dec;
        match self.values.get(key.as_str()) {
            None => {
                newd = inc;
            },
            Some(Value::IntValue(i)) => {
                let cur = Dec { mant: *i as i128, scale: 0 };
                proof {
                    assert(pow10(0) == 1);
                    assert(dec_tight(cur@));
                }
                newd = dec_add(cur, inc);
            },
            Some(Value::StrValue(s)) => {
                match parse_dec_full(s.as_str()) {
                    Some(d) => {
                        newd = dec_add(d, inc);
                    },
                    None => {
                        return Return::Error(
                            String::from_str("ERR value is not an integer or out of range"),
                        );
                    },
                }
            },
            Some(_) => {
                newd = inc;
            },
        }
        proof {
            crate::decimal::lemma_pow10_18();
            crate::text::lemma_pow10_pos(inc.scale as nat);
            assert(10000000000000000000i128 * pow10(inc.scale as nat)
                <= 10000000000000000000int * 1000000000000000000int) by (nonlinear_arith)
                requires
                    pow10(inc.scale as nat) <= 1000000000000000000,
                    pow10(inc.scale as nat) >= 1,
            ;
            assert(newd.mant > i128::MIN);
            assert(newd.scale <= 18);
        }
        let text = format_dec(newd);
        let reply = text.clone();
        proof {
            lemma_vals_insert(self.values@, key@, Value::StrValue(text));
        }
        self.values.insert(key, Value::StrValue(text));
        Return::ValueReturn(Value::StrValue(reply))
    }
}

/// Resolves a possibly negative index against a list.
pub fn list_index<T>(list: &VecDeque<T>, i: i64) -> (r: Option<usize>)
    ensures
        match r {
            Some(idx) => spec_list_index(list@.len(), i as int) == Some(idx as int),
            None => spec_list_index(list@.len(), i as int) is None,
        },
{
    let len = list.len();
    let c = i as i128;
    let l = len as i128;
    let idx = if c < 0 {
        l + c
    } else {
        c
    };
    if idx >= 0 && c < l {
        Some(idx as usize)
    } else {
        None
    }
}

} // verus!

verus! {

/// Clones a row of texts; the copy denotes the same row.
fn clone_deque(l: &VecDeque<String>) -> (r: VecDeque<String>)
    ensures
        r@ == l@,
{
    let r = l.clone();
    proof {
        assert(forall|i: int| 0 <= i < l@.len() ==> r@[i] == l@[i]);
        assert(r@ =~= l@);
    }
    r
}

impl RustisDb {
    /// LLEN: the list's length; any other kind, or an absent key, errs.
    fn db_llen(&self, key: &String) -> (r: Return)
        ensures
            r@ == spec_run_command(self@, CommandModel::Llen { key: key@ }).1,
    {
        match self.values.get(key.as_str()) {
            Some(Value::ListValue(l)) => Return::ValueReturn(Value::IntValue(len_to_i64(l.len()))),
            _ => Return::Error(String::from_str("WRONGTYPE not a list")),
        }
    }

    /// LINDEX: the member at a possibly negative index.
    fn db_lindex(&self, key: &String, index: i64) -> (r: Return)
        ensures
            r@ == spec_run_command(
                self@,
                CommandModel::Lindex { key: key@, index: index as int },
            ).1,
    {
        match self.values.get(key.as_str()) {
            Some(Value::ListValue(l)) => {
                match list_index(l, index) {
                    Some(i) => Return::ValueReturn(Value::StrValue(l[i].clone())),
                    None => Return::Error(String::from_str("ERR index out of range")),
                }
            },
            _ => Return::Error(String::from_str("WRONGTYPE not a list")),
        }
    }

    /// LPOP: removes and returns the front member; an empty list errs.
    fn db_lpop(&mut self, key: String) -> (r: Return)
        requires
            old(self).wf(),
        ensures
            final(self).wf(),
            (final(self)@, r@) == spec_run_command(old(self)@, CommandModel::Lpop { key: key@ }),
    {
        let mut l2: VecDeque<String>;
        match self.values.get(key.as_str()) {
            Some(Value::ListValue(l)) => {
                l2 = clone_deque(l);
            },
            _ => {
                return Return::Error(String::from_str("WRONGTYPE not a list"));
            },
        }
        let ghost lm = str_views(l2@);
        match l2.pop_front() {
            Some(x) => {
                proof {
                    assert(str_views(l2@) =~= lm.drop_first());
                    lemma_vals_insert(self.values@, key@, Value::ListValue(l2));
                }
                self.values.insert(key, Value::ListValue(l2));
                Return::ValueReturn(Value::StrValue(x))
            },
            None => Return::Error(String::from_str("ERR list is empty")),
        }
    }

    /// RPOP: removes and returns the back member; an empty list errs.
    fn db_rpop(&mut self, key: String) -> (r: Return)
        requires
            old(self).wf(),
        ensures
            final(self).wf(),
            (final(self)@, r@) == spec_run_command(old(self)@, CommandModel::Rpop { key: key@ }),
    {
        let mut l2: VecDeque<String>;
        match self.values.get(key.as_str()) {
            Some(Value::ListValue(l)) => {
                l2 = clone_deque(l);
            },
            _ => {
                return Return::Error(String::from_str("WRONGTYPE not a list"));
            },
        }
        let ghost lm = str_views(l2@);
        match l2.pop_back() {
            Some(x) => {
                proof {
                    assert(str_views(l2@) =~= lm.drop_last());
                    lemma_vals_insert(self.values@, key@, Value::ListValue(l2));
                }
                self.values.insert(key, Value::ListValue(l2));
                Return::ValueReturn(Value::StrValue(x))
            },
            None => Return::Error(String::from_str("ERR list is empty")),
        }
    }

    /// LPUSH: creates an absent key as an empty list, then pushes each
    /// argument in turn to the front, so a batch lands reversed.
    #[verifier::loop_isolation(false)]
    fn db_lpush(&mut self, key: String, values: Vec<String>) -> (r: Return)
        requires
            old(self).wf(),
        ensures
            final(self).wf(),
            (final(self)@, r@) == spec_run_command(
                old(self)@,
                CommandModel::Lpush { key: key@, values: str_views(values@) },
            ),
    {
        if !self.values.contains_key(key.as_str()) {
            let fresh = Value::ListValue(VecDeque::new());
            proof {
                lemma_vals_insert(self.values@, key@, fresh);
            }
            self.values.insert(key.clone(), fresh);
        }
        let mut l2: VecDeque<String>;
        match self.values.get(key.as_str()) {
            Some(Value::ListValue(l)) => {
                l2 = clone_deque(l);
            },
            _ => {
                return Return::Error(String::from_str("WRONGTYPE not a list"));
            },
        }
        let ghost l0 = l2@;
        let mut i: usize = 0;
        while i < values.len()
            invariant
                i <= values@.len(),
                l2@ == values@.subrange(0, i as int).reverse() + l0,
            decreases values@.len() - i,
        {
            l2.push_front(values[i].clone());
            proof {
                assert(values@.subrange(0, i + 1 as int).reverse() =~= seq![values@[i as int]]
                    + values@.subrange(0, i as int).reverse());
                assert(l2@ =~= values@.subrange(0, i + 1 as int).reverse() + l0);
            }
            i = i + 1;
        }
        let n = len_to_i64(l2.len());
        proof {
            assert(values@.subrange(0, values@.len() as int) =~= values@);
            assert(str_views(l2@) =~= str_views(values@).reverse() + str_views(l0));
            lemma_vals_insert(self.values@, key@, Value::ListValue(l2));
            assert(vals(self.values@).insert(
                key@,
                ValueModel::ListValue(str_views(values@).reverse() + str_views(l0)),
            ) =~= old(self)@.values.insert(
                key@,
                ValueModel::ListValue(str_views(values@).reverse() + str_views(l0)),
            ));
        }
        self.values.insert(key, Value::ListValue(l2));
        Return::ValueReturn(Value::IntValue(n))
    }

    /// RPUSH: creates an absent key as an empty list, then appends each
    /// argument in turn to the back, keeping the batch order.
    #[verifier::loop_isolation(false)]
    fn db_rpush(&mut self, key: String, values: Vec<String>) -> (r: Return)
        requires
            old(self).wf(),
        ensures
            final(self).wf(),
            (final(self)@, r@) == spec_run_command(
                old(self)@,
                CommandModel::Rpush { key: key@, values: str_views(values@) },
            ),
    {
        if !self.values.contains_key(key.as_str()) {
            let fresh = Value::ListValue(VecDeque::new());
            proof {
                lemma_vals_insert(self.values@, key@, fresh);
            }
            self.values.insert(key.clone(), fresh);
        }
        let mut l2: VecDeque<String>;
        match self.values.get(key.as_str()) {
            Some(Value::ListValue(l)) => {
                l2 = clone_deque(l);
            },
            _ => {
                return Return::Error(String::from_str("WRONGTYPE not a list"));
            },
        }
        let ghost l0 = l2@;
        let mut i: usize = 0;
        while i < values.len()
            invariant
                i <= values@.len(),
                l2@ == l0 + values@.subrange(0, i as int),
            decreases values@.len() - i,
        {
            l2.push_back(values[i].clone());
            proof {
                assert(l2@ =~= l0 + values@.subrange(0, i + 1 as int));
            }
            i = i + 1;
        }
        let n = len_to_i64(l2.len());
        proof {
            assert(values@.subrange(0, values@.len() as int) =~= values@);
            assert(str_views(l2@) =~= str_views(l0) + str_views(values@));
            lemma_vals_insert(self.values@, key@, Value::ListValue(l2));
            assert(vals(self.values@).insert(
                key@,
                ValueModel::ListValue(str_views(l0) + str_views(values@)),
            ) =~= old(self)@.values.insert(
                key@,
                ValueModel::ListValue(str_views(l0) + str_views(values@)),
            ));
        }
        self.values.insert(key, Value::ListValue(l2));
        Return::ValueReturn(Value::IntValue(n))
    }

    /// LSET: replaces the member at a possibly negative index.
    fn db_lset(&mut self, key: String, index: i64, value: String) -> (r: Return)
        requires
            old(self).wf(),
        ensures
            final(self).wf(),
            (final(self)@, r@) == spec_run_command(
                old(self)@,
                CommandModel::Lset { key: key@, index: index as int, value: value@ },
            ),
    {
        let mut l2: VecDeque<String>;
        match self.values.get(key.as_str()) {
            Some(Value::ListValue(l)) => {
                l2 = clone_deque(l);
            },
            _ => {
                return Return::Error(String::from_str("WRONGTYPE not a list"));
            },
        }
        let ghost l0 = l2@;
        match list_index(&l2, index) {
            Some(i) => {
                l2.remove(i);
                l2.insert(i, value);
                proof {
                    assert(str_views(l2@) =~= str_views(l0).update(i as int, value@));
                    lemma_vals_insert(self.values@, key@, Value::ListValue(l2));
                }
                self.values.insert(key, Value::ListValue(l2));
                Return::Okay
            },
            None => Return::Error(String::from_str("ERR index out of range")),
        }
    }

    /// DEL: removes each named key that is present, and its pending expiry,
    /// counting how many were removed.
    #[verifier::loop_isolation(false)]
    fn db_del(&mut self, keys: Vec<Key>) -> (r: Return)
        requires
            old(self).wf(),
        ensures
            final(self).wf(),
            (final(self)@, r@) == spec_run_command(
                old(self)@,
                CommandModel::Del { keys: str_views(keys@) },
            ),
    {
        let ghost kv = str_views(keys@);
        proof {
            assert(kv.skip(0) =~= kv);
        }
        let mut count: usize = 0;
        let mut i: usize = 0;
        while i < keys.len()
            invariant
                i <= keys@.len(),
                count <= i,
                self.wf(),
                spec_del(old(self)@, kv) == (
                    spec_del(self@, kv.skip(i as int)).0,
                    spec_del(self@, kv.skip(i as int)).1 + count as nat,
                ),
            decreases keys@.len() - i,
        {
            let ghost pre = self@;
            proof {
                assert(kv.skip(i as int)[0] == keys@[i as int]@);
                assert(kv.skip(i as int).drop_first() =~= kv.skip(i + 1 as int));
            }
            if self.values.contains_key(keys[i].as_str()) {
                proof {
                    lemma_vals_remove(self.values@, keys@[i as int]@);
                }
                self.values.remove(keys[i].as_str());
                remove_exp(&mut self.exp, &keys[i]);
                count = count + 1;
                proof {
                    crate::key::lemma_exp_map_contains(self.exp@, keys@[i as int]@);
                    assert(self.wf()) by {
                        assert(forall|j: int|
                            0 <= j < self.exp@.len() ==> self.values@.dom().contains(
                                (#[trigger] self.exp@[j]).key@,
                            ));
                    }
                }
            }
            i = i + 1;
        }
        proof {
            assert(kv.skip(keys@.len() as int) =~= Seq::<Seq<char>>::empty());
        }
        Return::ValueReturn(Value::IntValue(len_to_i64(count)))
    }

    /// EXISTS: one when the key is present, zero otherwise; never mutates.
    fn db_exists(&self, key: &String) -> (r: Return)
        ensures
            r@ == spec_run_command(self@, CommandModel::Exists { key: key@ }).1,
    {
        if self.values.contains_key(key.as_str()) {
            Return::ValueReturn(Value::IntValue(1))
        } else {
            Return::ValueReturn(Value::IntValue(0))
        }
    }

    /// TYPE: the name of the stored kind, or `Nil` for an absent key.
    fn db_type(&self, key: &String) -> (r: Return)
        ensures
            r@ == spec_run_command(self@, CommandModel::Type { key: key@ }).1,
    {
        match self.values.get(key.as_str()) {
            Some(Value::IntValue(_)) => Return::ValueReturn(
                Value::StrValue(String::from_str("string")),
            ),
            Some(Value::StrValue(_)) => Return::ValueReturn(
                Value::StrValue(String::from_str("string")),
            ),
            Some(Value::SetValue(_)) => Return::ValueReturn(
                Value::StrValue(String::from_str("set")),
            ),
            Some(Value::ListValue(_)) => Return::ValueReturn(
                Value::StrValue(String::from_str("list")),
            ),
            Some(Value::SortedSetValue(_)) => Return::ValueReturn(
                Value::StrValue(String::from_str("zset")),
            ),
            Some(Value::HashValue(_)) => Return::ValueReturn(
                Value::StrValue(String::from_str("hash")),
            ),
            _ => Return::ValueReturn(Value::Nil),
        }
    }

    /// TIME: the wall clock as a two-member array of integers, seconds then
    /// microseconds; the state is untouched.
    fn db_time(&self) -> (r: Return)
        ensures
            spec_time_reply(r@),
    {
        let (sec, usec) = wall_clock();
        let sec_i64: i64 = if sec > (i64::MAX as u64) {
            i64::MAX
        } else {
            sec as i64
        };
        let items = vec![Value::IntValue(sec_i64), Value::IntValue(usec as i64)];
        proof {
            crate::value::lemma_views_of(items@);
        }
        Return::ValueReturn(Value::ArrayValue(items))
    }

    /// Executes one command against this database and produces its reply.
    /// Except for TIME, whose reply reads the clock, the outcome is exactly
    /// the mathematical step of `spec_run_command`.
    pub fn run_command(&mut self, cmd: Command) -> (r: Return)
        requires
            old(self).wf(),
        ensures
            final(self).wf(),
            !(cmd@ is Time) ==> (final(self)@, r@) == spec_run_command(old(self)@, cmd@),
            cmd@ is Time ==> final(self)@ == old(self)@ && spec_time_reply(r@),
    {
        match cmd {
            Command::Get { key } => self.db_get(&key),
            Command::SetCmd { key, value, exp } => self.db_set(key, value, exp),
            Command::Append { key, value } => self.db_append(key, value),
            Command::Incr { key } => self.db_incr_by(key, 1),
            Command::Decr { key } => self.db_incr_by(key, -1),
            Command::IncrBy { key, increment } => self.db_incr_by(key, increment),
            Command::DecrBy { key, decrement } => {
                if decrement == i64::MIN {
                    // The negation of the smallest decrement does not fit a
                    // 64-bit word; apply the exact arithmetic by hand.
                    self.db_decr_min(key)
                } else {
                    self.db_incr_by(key, -decrement)
                }
            },
            Command::IncrByFloat { key, increment } => self.db_incr_float(key, increment),
            Command::Lindex { key, index } => self.db_lindex(&key, index),
            Command::Llen { key } => self.db_llen(&key),
            Command::Lpop { key } => self.db_lpop(key),
            Command::Rpop { key } => self.db_rpop(key),
            Command::Lpush { key, values } => self.db_lpush(key, values),
            Command::Rpush { key, values } => self.db_rpush(key, values),
            Command::Lset { key, index, value } => self.db_lset(key, index, value),
            Command::Del { keys } => self.db_del(keys),
            Command::Exists { key } => self.db_exists(&key),
            Command::Type { key } => self.db_type(&key),
            Command::DbSize => {
                proof {
                    assert(vals(self.values@).dom() =~= self.values@.dom());
                }
                Return::ValueReturn(Value::IntValue(len_to_i64(self.values.len())))
            },
            Command::FlushDb => {
                self.values.clear();
                self.exp.clear();
                proof {
                    assert(vals(self.values@) =~= Map::<Seq<char>, ValueModel>::empty());
                }
                Return::Okay
            },
            Command::Ping { message } => Return::ValueReturn(Value::StrValue(message)),
            Command::Echo { message } => Return::ValueReturn(Value::StrValue(message)),
            Command::Time => self.db_time(),
            Command::Sadd { .. } => Return::Okay,
            Command::Scard { .. } => Return::Okay,
            Command::Sismember { .. } => Return::Okay,
            Command::Srem { .. } => Return::Okay,
            Command::Select(..) => Return::Okay,
            Command::SwapDb(..) => Return::Okay,
            Command::FlushAll => Return::Okay,
            Command::Unknown => Return::Okay,
        }
    }

    /// DECRBY with the smallest decrement, whose negation does not fit a
    /// signed 64-bit word: the same increment primitive, with the delta
    /// widened by hand.
    fn db_decr_min(&mut self, key: String) -> (r: Return)
        requires
            old(self).wf(),
        ensures
            final(self).wf(),
            (final(self)@, r@) == spec_incr_by(old(self)@, key@, -(i64::MIN as int)),
    {
        let mut cur: i64 = 0;
        match self.values.get(key.as_str()) {
            None => {},
            Some(Value::IntValue(i)) => {
                cur = *i;
            },
            Some(Value::StrValue(s)) => {
                match parse_i64_str(s.as_str()) {
                    Some(v) => {
                        cur = v;
                    },
                    None => {
                        return Return::Error(
                            String::from_str("ERR value is not an integer or out of range"),
                        );
                    },
                }
            },
            Some(_) => {},
        }
        let sum = (cur as i128) - (i64::MIN as i128);
        if sum < (i64::MIN as i128) || sum > (i64::MAX as i128) {
            return Return::Error(String::from_str("ERR value is not an integer or out of range"));
        }
        let new = sum as i64;
        proof {
            lemma_vals_insert(self.values@, key@, Value::IntValue(new));
        }
        self.values.insert(key, Value::IntValue(new));
        Return::ValueReturn(Value::IntValue(new))
    }
}

} // verus!

verus! {

use crate::key::{lemma_exp_map_contains, lemma_exp_map_lookup, lemma_exp_map_remove_idx};

impl RustisDb {
    /// Drops every key whose expiry lies at or before `now`, from the
    /// keyspace and the timetable alike.
    #[verifier::loop_isolation(false)]
    pub fn purge_expired(&mut self, now: u64)
        requires
            old(self).wf(),
        ensures
            final(self).wf(),
            final(self)@ == spec_purge(old(self)@, now),
    {
        let mut i: usize = 0;
        while i < self.exp.len()
            invariant
                self.wf(),
                i <= self.exp@.len(),
                forall|j: int| 0 <= j < i ==> (#[trigger] self.exp@[j]).expire_at > now,
                spec_purge(self@, now) == spec_purge(old(self)@, now),
            decreases self.exp@.len() - i,
        {
            if self.exp[i].expire_at <= now {
                let ghost m = self@;
                let ghost exp0 = self.exp@;
                let ghost k = self.exp@[i as int].key@;
                let key = self.exp[i].key.clone();
                proof {
                    lemma_exp_map_remove_idx(exp0, i as int);
                    lemma_exp_map_lookup(exp0, i as int);
                    lemma_vals_remove(self.values@, k);
                }
                self.exp.remove(i);
                self.values.remove(key.as_str());
                proof {
                    let m2 = self@;
                    assert(m2.values == m.values.remove(k));
                    assert(m2.ttl == m.ttl.remove(k));
                    assert(exp_unique(self.exp@)) by {
                        assert(forall|a: int|
                            0 <= a < self.exp@.len() ==> self.exp@[a] == exp0[if a < i as int {
                                a
                            } else {
                                a + 1
                            }]);
                    }
                    assert(self.wf()) by {
                        assert(forall|a: int|
                            0 <= a < self.exp@.len() ==> self.values@.dom().contains(
                                (#[trigger] self.exp@[a]).key@,
                            )) by {
                            assert(forall|a: int|
                                0 <= a < self.exp@.len() ==> self.exp@[a] == exp0[if a < i as int {
                                    a
                                } else {
                                    a + 1
                                }]);
                            assert(forall|a: int, b: int|
                                0 <= a < b < exp0.len() ==> exp0[a].key@ != exp0[b].key@);
                        }
                    }
                    assert(m.ttl.contains_key(k) && m.ttl[k] <= now);
                    assert(expired_keys(m2, now) =~= expired_keys(m, now).remove(k));
                    assert(spec_purge(m2, now).values =~= spec_purge(m, now).values);
                    assert(spec_purge(m2, now).ttl =~= spec_purge(m, now).ttl);
                    assert(forall|j: int|
                        0 <= j < i ==> (#[trigger] self.exp@[j]).expire_at > now) by {
                        assert(forall|j: int| 0 <= j < i ==> self.exp@[j] == exp0[j]);
                    }
                }
            } else {
                i = i + 1;
            }
        }
        proof {
            assert(expired_keys(self@, now) =~= Set::<Seq<char>>::empty()) by {
                assert forall|k: Seq<char>| !(#[trigger] expired_keys(self@, now).contains(k)) by {
                    if exp_map(self.exp@).contains_key(k) {
                        lemma_exp_map_contains(self.exp@, k);
                        let j = choose|j: int|
                            0 <= j < self.exp@.len() && (#[trigger] self.exp@[j]).key@ == k;
                        lemma_exp_map_lookup(self.exp@, j);
                    }
                }
            }
            assert(spec_purge(self@, now).values =~= self@.values);
            assert(spec_purge(self@, now).ttl =~= self@.ttl);
        }
    }

    /// An opportunistic sweep: purges everything that has expired by the
    /// moment the clock is read.
    pub fn gc(&mut self)
        requires
            old(self).wf(),
        ensures
            final(self).wf(),
            exists|now: u64| final(self)@ == spec_purge(old(self)@, now),
    {
        let (now, _usec) = wall_clock();
        self.purge_expired(now);
        proof {
            assert(self@ == spec_purge(old(self)@, now));
        }
    }
}

} // verus!

verus! {

use vstd::set::{axiom_set_insert_len, axiom_set_remove_len};

/// Writing a key and reading it back yields the written value; deleting it
/// afterwards makes a read yield `Nil` and an existence test yield zero.
pub proof fn lemma_set_get_del(m: DbModel, key: Seq<char>, value: ValueModel)
    ensures
        ({
            let m1 = spec_run_command(
                m,
                CommandModel::SetCmd { key, value, exp: Option::None },
            ).0;
            let m2 = spec_run_command(m1, CommandModel::Del { keys: seq![key] }).0;
            &&& spec_run_command(m1, CommandModel::Get { key }).1 == ReturnModel::ValueReturn(
                value,
            )
            &&& spec_run_command(m2, CommandModel::Get { key }).1 == ReturnModel::ValueReturn(
                ValueModel::Nil,
            )
            &&& spec_run_command(m2, CommandModel::Exists { key }).1 == ReturnModel::ValueReturn(
                ValueModel::IntValue(0),
            )
            &&& spec_run_command(m1, CommandModel::Del { keys: seq![key] }).1
                == ReturnModel::ValueReturn(ValueModel::IntValue(1))
        }),
{
    let m1 = spec_run_command(m, CommandModel::SetCmd { key, value, exp: Option::None }).0;
    assert(seq![key][0] == key);
    assert(seq![key].drop_first() =~= Seq::<Seq<char>>::empty());
    let md = DbModel { values: m1.values.remove(key), ttl: m1.ttl.remove(key) };
    assert(spec_del(md, Seq::<Seq<char>>::empty()) == (md, 0nat));
    let d = spec_del(m1, seq![key]);
    assert(m1.values.contains_key(key));
    assert(d.1 == 1);
    assert(!d.0.values.contains_key(key));
}

/// The key count equals the distinct keys ever written minus those deleted:
/// rewriting a present key keeps the count, writing an absent key raises it
/// by one, deleting a present key lowers it by one, and DBSIZE reports it.
pub proof fn lemma_dbsize_counts(m: DbModel, key: Seq<char>, value: ValueModel)
    requires
        m.values.dom().finite(),
    ensures
        ({
            let m1 = spec_run_command(
                m,
                CommandModel::SetCmd { key, value, exp: Option::None },
            ).0;
            &&& m1.values.dom() == m.values.dom().insert(key)
            &&& m1.values.dom().finite()
            &&& (m.values.contains_key(key) ==> m1.values.len() == m.values.len())
            &&& (!m.values.contains_key(key) ==> m1.values.len() == m.values.len() + 1)
            &&& spec_run_command(m1, CommandModel::DbSize).1 == ReturnModel::ValueReturn(
                ValueModel::IntValue(i64_clamp(m1.values.len())),
            )
        }),
        ({
            let m2 = spec_run_command(m, CommandModel::Del { keys: seq![key] }).0;
            &&& m2.values.dom() == m.values.dom().remove(key)
            &&& (m.values.contains_key(key) ==> m2.values.len() + 1 == m.values.len())
            &&& (!m.values.contains_key(key) ==> m2.values.len() == m.values.len())
        }),
{
    let m1 = spec_run_command(m, CommandModel::SetCmd { key, value, exp: Option::None }).0;
    assert(m1.values.dom() =~= m.values.dom().insert(key));
    axiom_set_insert_len(m.values.dom(), key);
    assert(seq![key][0] == key);
    assert(seq![key].drop_first() =~= Seq::<Seq<char>>::empty());
    if m.values.contains_key(key) {
        let md = DbModel { values: m.values.remove(key), ttl: m.ttl.remove(key) };
        assert(spec_del(md, Seq::<Seq<char>>::empty()) == (md, 0nat));
    } else {
        assert(spec_del(m, Seq::<Seq<char>>::empty()) == (m, 0nat));
    }
    let m2 = spec_run_command(m, CommandModel::Del { keys: seq![key] }).0;
    assert(m2.values.dom() =~= m.values.dom().remove(key));
    axiom_set_remove_len(m.values.dom(), key);
}

/// Counting from nothing: the first increment yields one, the second two,
/// adding ten then yields twelve; and an increment on non-numeric text
/// fails with the value error and changes nothing.
pub proof fn lemma_incr_chain(m: DbModel, key: Seq<char>)
    requires
        !m.values.contains_key(key),
    ensures
        ({
            let s1 = spec_incr_by(m, key, 1);
            let s2 = spec_incr_by(s1.0, key, 1);
            let s3 = spec_incr_by(s2.0, key, 10);
            &&& s1.1 == ReturnModel::ValueReturn(ValueModel::IntValue(1))
            &&& s2.1 == ReturnModel::ValueReturn(ValueModel::IntValue(2))
            &&& s3.1 == ReturnModel::ValueReturn(ValueModel::IntValue(12))
        }),
{
}

/// An increment applied to a key holding text that does not read as an
/// integer fails with the value error and leaves the database unchanged.
pub proof fn lemma_incr_non_numeric(m: DbModel, key: Seq<char>, s: Seq<char>, delta: int)
    requires
        m.values.contains_key(key),
        m.values[key] == ValueModel::StrValue(s),
        crate::text::spec_i64_of_text(s) is None,
    ensures
        spec_incr_by(m, key, delta) == (m, ReturnModel::Error(err_not_int())),
{
}

/// Pushing a batch to the front lands it nearest the front, reversed, so
/// three pops after pushing `[a]` then `[b, c]` yield `c`, `b`, `a`.
pub proof fn lemma_lpush_lpop_order(
    m: DbModel,
    key: Seq<char>,
    a: Seq<char>,
    b: Seq<char>,
    c: Seq<char>,
)
    requires
        !m.values.contains_key(key),
    ensures
        ({
            let m1 = spec_run_command(m, CommandModel::Lpush { key, values: seq![a] }).0;
            let m2 = spec_run_command(m1, CommandModel::Lpush { key, values: seq![b, c] }).0;
            let p1 = spec_run_command(m2, CommandModel::Lpop { key });
            let p2 = spec_run_command(p1.0, CommandModel::Lpop { key });
            let p3 = spec_run_command(p2.0, CommandModel::Lpop { key });
            &&& p1.1 == ReturnModel::ValueReturn(ValueModel::StrValue(c))
            &&& p2.1 == ReturnModel::ValueReturn(ValueModel::StrValue(b))
            &&& p3.1 == ReturnModel::ValueReturn(ValueModel::StrValue(a))
        }),
{
    let m1 = spec_run_command(m, CommandModel::Lpush { key, values: seq![a] }).0;
    assert(seq![a].reverse() =~= seq![a]);
    assert(seq![a].reverse() + Seq::<Seq<char>>::empty() =~= seq![a]);
    assert(m1.values[key] == ValueModel::ListValue(seq![a]));
    let m2 = spec_run_command(m1, CommandModel::Lpush { key, values: seq![b, c] }).0;
    assert(seq![b, c].reverse() =~= seq![c, b]);
    assert(seq![b, c].reverse() + seq![a] =~= seq![c, b, a]);
    assert(m2.values[key] == ValueModel::ListValue(seq![c, b, a]));
    let l: Seq<Seq<char>> = seq![c, b, a];
    assert(l[0] == c);
    assert(l.drop_first() =~= seq![b, a]);
    assert(seq![b, a].drop_first() =~= seq![a]);
    assert(seq![a].drop_first() =~= Seq::<Seq<char>>::empty());
}

} // verus!
