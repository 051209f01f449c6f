//! The storable data kinds and their deterministic wire encoding.

use vstd::prelude::*;

use crate::text::{append_i64, append_u64, int_to_chars, nat_to_chars};

verus! {

use std::collections::VecDeque;

/// A stored or replied value. `ListValue` backs the list commands;
/// `ArrayValue` only occurs in replies (composite results such as TIME).
/// `SetValue`, `HashValue` and `SortedSetValue` are reserved kinds that no
/// command currently creates; the TYPE command names them.
#[derive(Debug, PartialEq)]
pub enum Value {
    Nil,
    IntValue(i64),
    StrValue(String),
    ListValue(VecDeque<String>),
    SetValue(Vec<String>),
    HashValue(Vec<String>),
    SortedSetValue(Vec<String>),
    ArrayValue(Vec<Value>),
}

/// The mathematical shape of a `Value`: text as sequences of characters.
pub enum ValueModel {
    Nil,
    IntValue(int),
    StrValue(Seq<char>),
    ListValue(Seq<Seq<char>>),
    SetValue(Seq<Seq<char>>),
    HashValue(Seq<Seq<char>>),
    SortedSetValue(Seq<Seq<char>>),
    ArrayValue(Seq<ValueModel>),
}

pub open spec fn str_views(l: Seq<String>) -> Seq<Seq<char>> {
    l.map_values(|s: String| s@)
}

pub open spec fn value_view(v: Value) -> ValueModel
    decreases v,
{
    match v {
        Value::Nil => ValueModel::Nil,
        Value::IntValue(i) => ValueModel::IntValue(i as int),
        Value::StrValue(s) => ValueModel::StrValue(s@),
        Value::ListValue(l) => ValueModel::ListValue(str_views(l@)),
        Value::SetValue(l) => ValueModel::SetValue(str_views(l@)),
        Value::HashValue(l) => ValueModel::HashValue(str_views(l@)),
        Value::SortedSetValue(l) => ValueModel::SortedSetValue(str_views(l@)),
        Value::ArrayValue(a) => ValueModel::ArrayValue(views_of(a@)),
    }
}

/// The models of a row of values, in order.
pub open spec fn views_of(a: Seq<Value>) -> Seq<ValueModel>
    decreases a,
{
    if a.len() == 0 {
        Seq::empty()
    } else {
        seq![value_view(a[0])] + views_of(a.drop_first())
    }
}

pub proof fn lemma_views_of(a: Seq<Value>)
    ensures
        views_of(a).len() == a.len(),
        forall|i: int| 0 <= i < a.len() ==> views_of(a)[i] == value_view(a[i]),
    decreases a.len(),
{
    if a.len() > 0 {
        lemma_views_of(a.drop_first());
    }
}

impl View for Value {
    type V = ValueModel;

    open spec fn view(&self) -> ValueModel {
        value_view(*self)
    }
}

/// The two-character line terminator of the wire protocol.
pub open spec fn crlf() -> Seq<char> {
    seq!['\r', '\n']
}

/// Encoding of one length-prefixed string: `$<length>\r\n<text>\r\n`.
pub open spec fn spec_encode_bulk(s: Seq<char>) -> Seq<char> {
    seq!['$'] + nat_to_chars(s.len()) + crlf() + s + crlf()
}

/// Encoding of a row of length-prefixed strings, in order.
pub open spec fn spec_encode_bulks(l: Seq<Seq<char>>) -> Seq<char>
    decreases l.len(),
{
    if l.len() == 0 {
        Seq::empty()
    } else {
        spec_encode_bulk(l[0]) + spec_encode_bulks(l.drop_first())
    }
}

/// Array encoding of a row of texts: `*<count>\r\n` and the members as
/// bulk strings.
pub open spec fn spec_encode_str_row(l: Seq<Seq<char>>) -> Seq<char> {
    seq!['*'] + nat_to_chars(l.len()) + crlf() + spec_encode_bulks(l)
}

/// Deterministic encoding of a value: `Nil` is the null bulk string,
/// integers are `:<i>\r\n`, text is a bulk string, and every sequence kind
/// is an array header followed by its members' encodings. Lengths count
/// characters. Encoding is total: every value has exactly one encoding.
pub open spec fn spec_encode_value(v: ValueModel) -> Seq<char>
    decreases v,
{
    match v {
        ValueModel::Nil => seq!['$', '-', '1', '\r', '\n'],
        ValueModel::IntValue(i) => seq![':'] + int_to_chars(i) + crlf(),
        ValueModel::StrValue(s) => spec_encode_bulk(s),
        ValueModel::ListValue(l) => spec_encode_str_row(l),
        ValueModel::SetValue(l) => spec_encode_str_row(l),
        ValueModel::HashValue(l) => spec_encode_str_row(l),
        ValueModel::SortedSetValue(l) => spec_encode_str_row(l),
        ValueModel::ArrayValue(a) => seq!['*'] + nat_to_chars(a.len()) + crlf()
            + spec_encode_items(a),
    }
}

/// Encodings of a row of values, concatenated in order.
pub open spec fn spec_encode_items(a: Seq<ValueModel>) -> Seq<char>
    decreases a,
{
    if a.len() == 0 {
        Seq::empty()
    } else {
        spec_encode_value(a[0]) + spec_encode_items(a.drop_first())
    }
}

/// Extending a row by one member appends that member's encoding.
pub proof fn lemma_encode_bulks_snoc(l: Seq<Seq<char>>, i: int)
    requires
        0 <= i < l.len(),
    ensures
        spec_encode_bulks(l.subrange(0, i + 1)) == spec_encode_bulks(l.subrange(0, i))
            + spec_encode_bulk(l[i]),
    decreases i,
{
    if i == 0 {
        assert(l.subrange(0, 1).drop_first() =~= Seq::<Seq<char>>::empty());
        assert(l.subrange(0, 0) =~= Seq::<Seq<char>>::empty());
        assert(spec_encode_bulks(l.subrange(0, 1)) =~= spec_encode_bulk(l[0]));
    } else {
        lemma_encode_bulks_snoc(l.drop_first(), i - 1);
        assert(l.subrange(0, i + 1).drop_first() =~= l.drop_first().subrange(0, i));
        assert(l.subrange(0, i).drop_first() =~= l.drop_first().subrange(0, i - 1));
        assert(l.drop_first()[i - 1] == l[i]);
        assert(spec_encode_bulks(l.subrange(0, i + 1)) == spec_encode_bulk(l[0])
            + spec_encode_bulks(l.drop_first().subrange(0, i)));
        assert(spec_encode_bulks(l.subrange(0, i)) == spec_encode_bulk(l[0]) + spec_encode_bulks(
            l.drop_first().subrange(0, i - 1),
        ));
        assert(spec_encode_bulks(l.subrange(0, i + 1)) =~= spec_encode_bulks(l.subrange(0, i))
            + spec_encode_bulk(l[i]));
    }
}

/// Extending a row by one value appends that value's encoding.
pub proof fn lemma_encode_items_snoc(a: Seq<ValueModel>, i: int)
    requires
        0 <= i < a.len(),
    ensures
        spec_encode_items(a.subrange(0, i + 1)) == spec_encode_items(a.subrange(0, i))
            + spec_encode_value(a[i]),
    decreases i,
{
    if i == 0 {
        assert(a.subrange(0, 1).drop_first() =~= Seq::<ValueModel>::empty());
        assert(a.subrange(0, 0) =~= Seq::<ValueModel>::empty());
        assert(a.subrange(0, 1)[0] == a[0]);
        assert(spec_encode_items(Seq::<ValueModel>::empty()) == Seq::<char>::empty());
        assert(spec_encode_items(a.subrange(0, 1)) == spec_encode_value(a[0])
            + Seq::<char>::empty());
        assert(spec_encode_value(a[0]) + Seq::<char>::empty() =~= spec_encode_value(a[0]));
        assert(spec_encode_items(a.subrange(0, 0)) == Seq::<char>::empty());
        assert(spec_encode_items(a.subrange(0, 1)) =~= spec_encode_items(a.subrange(0, 0))
            + spec_encode_value(a[0]));
    } else {
        lemma_encode_items_snoc(a.drop_first(), i - 1);
        assert(a.subrange(0, i + 1).drop_first() =~= a.drop_first().subrange(0, i));
        assert(a.subrange(0, i).drop_first() =~= a.drop_first().subrange(0, i - 1));
        assert(a.drop_first()[i - 1] == a[i]);
        assert(spec_encode_items(a.subrange(0, i + 1)) == spec_encode_value(a[0])
            + spec_encode_items(a.drop_first().subrange(0, i)));
        assert(spec_encode_items(a.subrange(0, i)) == spec_encode_value(a[0]) + spec_encode_items(
            a.drop_first().subrange(0, i - 1),
        ));
        assert(spec_encode_items(a.subrange(0, i + 1)) =~= spec_encode_items(a.subrange(0, i))
            + spec_encode_value(a[i]));
    }
}

impl Clone for Value {
    /// A clone denotes the same model value.
    #[verifier::loop_isolation(false)]
    fn clone(&self) -> (r: Self)
        ensures
            r@ == self@,
        decreases *self,
    {
        match self {
            Value::Nil => Value::Nil,
            Value::IntValue(i) => Value::IntValue(*i),
            Value::StrValue(s) => Value::StrValue(s.clone()),
            Value::ListValue(l) => {
                let lc = l.clone();
                proof {
                    assert(forall|i: int| 0 <= i < l@.len() ==> lc@[i] == l@[i]);
                    assert(lc@ =~= l@);
                }
                Value::ListValue(lc)
            },
            Value::SetValue(l) => Value::SetValue(clone_str_vec(l)),
            Value::HashValue(l) => Value::HashValue(clone_str_vec(l)),
            Value::SortedSetValue(l) => Value::SortedSetValue(clone_str_vec(l)),
            Value::ArrayValue(a) => {
                let mut out: Vec<Value> = Vec::new();
                let mut i: usize = 0;
                while i < a.len()
                    invariant
                        i <= a.len(),
                        out@.len() == i,
                        forall|j: int| 0 <= j < i ==> out@[j]@ == value_view(a@[j]),
                    decreases a.len() - i,
                {
                    let c = a[i].clone();
                    out.push(c);
                    i = i + 1;
                }
                proof {
                    lemma_views_of(out@);
                    lemma_views_of(a@);
                    assert(views_of(out@) =~= views_of(a@));
                }
                Value::ArrayValue(out)
            },
        }
    }
}

/// Clones a row of strings; the copy holds the same members.
fn clone_str_vec(l: &Vec<String>) -> (r: Vec<String>)
    ensures
        r@ == l@,
{
    let r = l.clone();
    proof {
        assert(forall|i: int| 0 <= i < l@.len() ==> r@[i] == l@[i]);
        assert(r@ =~= l@);
    }
    r
}

/// Appends `$<length>\r\n<s>\r\n` to `out`.
fn append_bulk(out: &mut String, s: &str)
    ensures
        final(out)@ == old(out)@ + spec_encode_bulk(s@),
{
    out.append("$");
    let n = s.unicode_len();
    append_u64(out, n as u64);
    out.append("\r\n");
    out.append(s);
    out.append("\r\n");
    proof {
        reveal_strlit("$");
        reveal_strlit("\r\n");
        assert(final(out)@ =~= old(out)@ + spec_encode_bulk(s@));
    }
}

/// Appends `*<count>\r\n` to `out`.
fn append_array_header(out: &mut String, n: usize)
    ensures
        final(out)@ == old(out)@ + seq!['*'] + nat_to_chars(n as nat) + crlf(),
{
    out.append("*");
    append_u64(out, n as u64);
    out.append("\r\n");
    proof {
        reveal_strlit("*");
        reveal_strlit("\r\n");
        assert(final(out)@ =~= old(out)@ + seq!['*'] + nat_to_chars(n as nat) + crlf());
    }
}

/// Appends `*<count>\r\n` and then each string of `l` as a bulk string.
#[verifier::loop_isolation(false)]
fn encode_vec_row(out: &mut String, l: &Vec<String>)
    ensures
        final(out)@ == old(out)@ + spec_encode_str_row(str_views(l@)),
{
    let ghost items = str_views(l@);
    append_array_header(out, l.len());
    let ghost base = out@;
    let mut i: usize = 0;
    while i < l.len()
        invariant
            i <= l.len(),
            out@ == base + spec_encode_bulks(items.subrange(0, i as int)),
        decreases l.len() - i,
    {
        append_bulk(out, l[i].as_str());
        proof {
            lemma_encode_bulks_snoc(items, i as int);
            assert(out@ =~= base + spec_encode_bulks(items.subrange(0, i + 1)));
        }
        i = i + 1;
    }
    proof {
        assert(items.subrange(0, l@.len() as int) =~= items);
        assert(final(out)@ =~= old(out)@ + spec_encode_str_row(items));
    }
}

/// Appends `*<count>\r\n` and then each string of `l` as a bulk string.
#[verifier::loop_isolation(false)]
fn encode_deque_row(out: &mut String, l: &VecDeque<String>)
    ensures
        final(out)@ == old(out)@ + spec_encode_str_row(str_views(l@)),
{
    let ghost items = str_views(l@);
    append_array_header(out, l.len());
    let ghost base = out@;
    let mut i: usize = 0;
    while i < l.len()
        invariant
            i <= l.len(),
            out@ == base + spec_encode_bulks(items.subrange(0, i as int)),
        decreases l.len() - i,
    {
        append_bulk(out, l[i].as_str());
        proof {
            lemma_encode_bulks_snoc(items, i as int);
            assert(out@ =~= base + spec_encode_bulks(items.subrange(0, i + 1)));
        }
        i = i + 1;
    }
    proof {
        assert(items.subrange(0, l@.len() as int) =~= items);
        assert(final(out)@ =~= old(out)@ + spec_encode_str_row(items));
    }
}

impl Value {
    /// Appends this value's encoding to `out`.
    #[verifier::loop_isolation(false)]
    pub fn encode_push(&self, out: &mut String)
        ensures
            final(out)@ == old(out)@ + spec_encode_value(self@),
        decreases *self,
    {
        match self {
            Value::Nil => {
                out.append("$-1\r\n");
                proof {
                    reveal_strlit("$-1\r\n");
                    assert(final(out)@ =~= old(out)@ + spec_encode_value(self@));
                }
            },
            Value::IntValue(i) => {
                out.append(":");
                append_i64(out, *i);
                out.append("\r\n");
                proof {
                    reveal_strlit(":");
                    reveal_strlit("\r\n");
                    assert(final(out)@ =~= old(out)@ + spec_encode_value(self@));
                }
            },
            Value::StrValue(s) => {
                append_bulk(out, s.as_str());
            },
            Value::ListValue(l) => {
                encode_deque_row(out, l);
            },
            Value::SetValue(l) => {
                encode_vec_row(out, l);
            },
            Value::HashValue(l) => {
                encode_vec_row(out, l);
            },
            Value::SortedSetValue(l) => {
                encode_vec_row(out, l);
            },
            Value::ArrayValue(a) => {
                let ghost items = views_of(a@);
                proof {
                    lemma_views_of(a@);
                }
                append_array_header(out, a.len());
                let ghost base = out@;
                let mut i: usize = 0;
                while i < a.len()
                    invariant
                        i <= a.len(),
                        out@ == base + spec_encode_items(items.subrange(0, i as int)),
                    decreases a.len() - i,
                {
                    a[i].encode_push(out);
                    proof {
                        lemma_encode_items_snoc(items, i as int);
                        assert(out@ =~= base + spec_encode_items(items.subrange(0, i + 1)));
                    }
                    i = i + 1;
                }
                proof {
                    assert(items.subrange(0, a@.len() as int) =~= items);
                    assert(final(out)@ =~= old(out)@ + spec_encode_value(self@));
                }
            },
        }
    }

    /// The full encoding of this value as a fresh string.
    pub fn encode(&self) -> (r: String)
        ensures
            r@ == spec_encode_value(self@),
    {
        let mut out = String::new();
        self.encode_push(&mut out);
        proof {
            assert(out@ =~= spec_encode_value(self@));
        }
        out
    }
}

} // verus!
