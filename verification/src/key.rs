//! Keys and the expiry record.

use vstd::prelude::*;

verus! {

/// A key: opaque text, equal and hashed exactly and case-sensitively.
pub type Key = String;

/// A key together with the absolute timestamp, in seconds, at which it
/// expires.
#[derive(Clone, Debug, PartialEq, Eq)]
pub struct ExpireTime {
    pub key: Key,
    pub expire_at: u64,
}

impl ExpireTime {
    /// This record expires at or before `now`.
    pub open spec fn spec_expired(&self, now: u64) -> bool {
        self.expire_at <= now
    }

    /// Reports whether this record expires at or before `now`.
    pub fn expired(&self, now: u64) -> (r: bool)
        ensures
            r == self.spec_expired(now),
    {
        self.expire_at <= now
    }
}

} // verus!

verus! {

/// The timetable a row of expiry records denotes: each key mapped to its
/// expiry timestamp, later records superseding earlier ones.
pub open spec fn exp_map(s: Seq<ExpireTime>) -> Map<Seq<char>, u64>
    decreases s.len(),
{
    if s.len() == 0 {
        Map::empty()
    } else {
        exp_map(s.drop_last()).insert(s.last().key@, s.last().expire_at)
    }
}

/// No two records name the same key.
pub open spec fn exp_unique(s: Seq<ExpireTime>) -> bool {
    forall|i: int, j: int| 0 <= i < j < s.len() ==> s[i].key@ != s[j].key@
}

/// A key stands in the timetable exactly when some record names it.
pub proof fn lemma_exp_map_contains(s: Seq<ExpireTime>, k: Seq<char>)
    ensures
        exp_map(s).contains_key(k) <==> exists|i: int| 0 <= i < s.len() && (#[trigger] s[i]).key@
            == k,
    decreases s.len(),
{
    if s.len() > 0 {
        lemma_exp_map_contains(s.drop_last(), k);
        if exp_map(s).contains_key(k) {
            if k == s.last().key@ {
                assert(s[s.len() - 1].key@ == k);
            } else {
                let i = choose|i: int|
                    0 <= i < s.drop_last().len() && (#[trigger] s.drop_last()[i]).key@ == k;
                assert(s[i].key@ == k);
            }
        }
        if exists|i: int| 0 <= i < s.len() && (#[trigger] s[i]).key@ == k {
            let i = choose|i: int| 0 <= i < s.len() && (#[trigger] s[i]).key@ == k;
            if i < s.len() - 1 {
                assert(s.drop_last()[i].key@ == k);
            }
        }
    }
}

/// With unique keys, each record's key maps to that record's timestamp.
pub proof fn lemma_exp_map_lookup(s: Seq<ExpireTime>, i: int)
    requires
        exp_unique(s),
        0 <= i < s.len(),
    ensures
        exp_map(s).contains_key(s[i].key@),
        exp_map(s)[s[i].key@] == s[i].expire_at,
    decreases s.len(),
{
    if i == s.len() - 1 {
    } else {
        assert(exp_unique(s.drop_last())) by {
            assert(forall|a: int, b: int|
                0 <= a < b < s.drop_last().len() ==> s.drop_last()[a].key@
                    != s.drop_last()[b].key@);
        }
        lemma_exp_map_lookup(s.drop_last(), i);
        assert(s[i].key@ != s.last().key@);
    }
}

/// Removing the one record that names a key removes exactly that key from
/// the timetable.
pub proof fn lemma_exp_map_remove_idx(s: Seq<ExpireTime>, i: int)
    requires
        exp_unique(s),
        0 <= i < s.len(),
    ensures
        exp_map(s.remove(i)) == exp_map(s).remove(s[i].key@),
    decreases s.len(),
{
    let k = s[i].key@;
    if i == s.len() - 1 {
        assert(s.remove(i) =~= s.drop_last());
        lemma_exp_map_contains(s.drop_last(), k);
        assert(!exp_map(s.drop_last()).contains_key(k)) by {
            if exists|j: int| 0 <= j < s.drop_last().len() && (#[trigger] s.drop_last()[j]).key@
                == k {
                let j = choose|j: int|
                    0 <= j < s.drop_last().len() && (#[trigger] s.drop_last()[j]).key@ == k;
                assert(s[j].key@ == s[i].key@);
            }
        }
        assert(exp_map(s) == exp_map(s.drop_last()).insert(k, s.last().expire_at));
        assert(exp_map(s).remove(k) =~= exp_map(s.drop_last()));
    } else {
        assert(exp_unique(s.drop_last())) by {
            assert(forall|a: int, b: int|
                0 <= a < b < s.drop_last().len() ==> s.drop_last()[a].key@
                    != s.drop_last()[b].key@);
        }
        assert(s.remove(i).drop_last() =~= s.drop_last().remove(i));
        assert(s.remove(i).last() == s.last());
        lemma_exp_map_remove_idx(s.drop_last(), i);
        assert(s.drop_last()[i] == s[i]);
        assert(k != s.last().key@);
        assert(exp_map(s.remove(i)) == exp_map(s.drop_last()).remove(k).insert(
            s.last().key@,
            s.last().expire_at,
        ));
        assert(exp_map(s.drop_last()).remove(k).insert(s.last().key@, s.last().expire_at)
            =~= exp_map(s.drop_last()).insert(s.last().key@, s.last().expire_at).remove(k));
    }
}

/// The index of the record naming `key`, when one stands in the row.
pub fn find_exp(v: &Vec<ExpireTime>, key: &String) -> (r: Option<usize>)
    ensures
        match r {
            Some(i) => i < v@.len() && v@[i as int].key@ == key@,
            None => forall|i: int| 0 <= i < v@.len() ==> (#[trigger] v@[i]).key@ != key@,
        },
{
    let mut i: usize = 0;
    while i < v.len()
        invariant
            i <= v@.len(),
            forall|j: int| 0 <= j < i ==> (#[trigger] v@[j]).key@ != key@,
        decreases v@.len() - i,
    {
        if v[i].key == *key {
            return Some(i);
        }
        i = i + 1;
    }
    None
}

/// Drops the record naming `key`, if any: the timetable loses exactly that
/// key.
pub fn remove_exp(v: &mut Vec<ExpireTime>, key: &String)
    requires
        exp_unique(old(v)@),
    ensures
        exp_unique(final(v)@),
        exp_map(final(v)@) == exp_map(old(v)@).remove(key@),
        forall|j: int|
            0 <= j < final(v)@.len() ==> exists|i: int|
                0 <= i < old(v)@.len() && #[trigger] final(v)@[j] == old(v)@[i],
{
    match find_exp(v, key) {
        Some(i) => {
            proof {
                lemma_exp_map_remove_idx(v@, i as int);
            }
            v.remove(i);
            proof {
                assert(exp_unique(v@)) by {
                    assert(forall|a: int, b: int|
                        0 <= a < b < v@.len() ==> v@[a].key@ != v@[b].key@) by {
                        assert(forall|a: int|
                            0 <= a < v@.len() ==> v@[a] == old(v)@[if a < i as int {
                                a
                            } else {
                                a + 1
                            }]);
                    }
                }
                assert(forall|j: int|
                    0 <= j < final(v)@.len() ==> exists|i2: int|
                        0 <= i2 < old(v)@.len() && #[trigger] final(v)@[j] == old(v)@[i2]) by {
                    assert(forall|j: int|
                        0 <= j < v@.len() ==> v@[j] == old(v)@[if j < i as int {
                            j
                        } else {
                            j + 1
                        }]);
                }
            }
        },
        None => {
            proof {
                lemma_exp_map_contains(v@, key@);
                assert(!exp_map(v@).contains_key(key@));
                assert(exp_map(v@).remove(key@) =~= exp_map(v@));
            }
        },
    }
}

/// Makes `key` expire at `at`, superseding any earlier record for it: the
/// timetable gains exactly that binding.
pub fn set_exp(v: &mut Vec<ExpireTime>, key: String, at: u64)
    requires
        exp_unique(old(v)@),
    ensures
        exp_unique(final(v)@),
        exp_map(final(v)@) == exp_map(old(v)@).insert(key@, at),
        forall|j: int|
            0 <= j < final(v)@.len() ==> (exists|i: int|
                0 <= i < old(v)@.len() && #[trigger] final(v)@[j] == old(v)@[i])
                || final(v)@[j].key@ == key@,
{
    let ghost k = key@;
    remove_exp(v, &key);
    let ghost mid = v@;
    proof {
        lemma_exp_map_contains(mid, k);
    }
    v.push(ExpireTime { key, expire_at: at });
    proof {
        assert(v@.drop_last() =~= mid);
        assert(exp_map(v@) == exp_map(mid).insert(k, at));
        assert(exp_map(mid).insert(k, at) =~= exp_map(old(v)@).insert(k, at));
        assert(exp_unique(v@)) by {
            assert(forall|a: int| 0 <= a < mid.len() ==> v@[a] == mid[a]);
            assert(forall|a: int| 0 <= a < mid.len() ==> mid[a].key@ != k);
        }
        assert(forall|j: int|
            0 <= j < v@.len() - 1 ==> exists|i: int|
                0 <= i < old(v)@.len() && #[trigger] v@[j] == old(v)@[i]);
        assert(v@[v@.len() - 1].key@ == k);
    }
}

} // verus!
