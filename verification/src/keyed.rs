//! Keyed entry lists. The model's collections are vectors of `(key, value)`
//! pairs with pairwise-distinct keys; in specifications they are read as
//! maps from the key's characters to the value's view.

use vstd::prelude::*;
use crate::text::str_eq;

verus! {

/// Whether some entry of `s` has key `k`.
pub open spec fn has_key<T>(s: Seq<(String, T)>, k: Seq<char>) -> bool {
    exists|i: int| 0 <= i < s.len() && s[i].0@ == k
}

/// The index of the entry with key `k`.
pub open spec fn index_of_key<T>(s: Seq<(String, T)>, k: Seq<char>) -> int {
    choose|i: int| 0 <= i < s.len() && s[i].0@ == k
}

/// Pairwise-distinct keys.
pub open spec fn distinct_keys<T>(s: Seq<(String, T)>) -> bool {
    forall|i: int, j: int| 0 <= i < j < s.len() ==> s[i].0@ != s[j].0@
}

/// The entries read as a map from key characters to deep value views; on
/// duplicate keys the later entry wins.
pub open spec fn entry_map<T: DeepView>(s: Seq<(String, T)>) -> Map<Seq<char>, T::V>
    decreases s.len(),
{
    if s.len() == 0 {
        Map::empty()
    } else {
        entry_map(s.drop_last()).insert(s.last().0@, s.last().1.deep_view())
    }
}

/// An entry whose key has no later duplicate is what the map holds at its key.
pub proof fn lemma_entry_map_index<T: DeepView>(s: Seq<(String, T)>, i: int)
    requires
        0 <= i < s.len(),
        forall|j: int| i < j < s.len() ==> s[j].0@ != s[i].0@,
    ensures
        entry_map(s).contains_key(s[i].0@),
        entry_map(s)[s[i].0@] == s[i].1.deep_view(),
    decreases s.len(),
{
    if i == s.len() - 1 {
    } else {
        lemma_entry_map_index(s.drop_last(), i);
    }
}

/// Every key of the map belongs to some entry.
pub proof fn lemma_entry_map_key<T: DeepView>(s: Seq<(String, T)>, k: Seq<char>)
    requires
        entry_map(s).contains_key(k),
    ensures
        has_key(s, k),
    decreases s.len(),
{
    if s.len() == 0 {
    } else if s.last().0@ == k {
        assert(s[s.len() - 1].0@ == k);
    } else {
        lemma_entry_map_key(s.drop_last(), k);
        let i = choose|i: int| 0 <= i < s.drop_last().len() && s.drop_last()[i].0@ == k;
        assert(s[i].0@ == k);
    }
}

/// `has_key` and map membership agree.
pub proof fn lemma_entry_map_dom<T: DeepView>(s: Seq<(String, T)>, k: Seq<char>)
    ensures
        entry_map(s).contains_key(k) == has_key(s, k),
    decreases s.len(),
{
    if entry_map(s).contains_key(k) {
        lemma_entry_map_key(s, k);
    }
    if has_key(s, k) {
        let i = choose|i: int| 0 <= i < s.len() && s[i].0@ == k;
        if s.len() > 0 {
            if s.last().0@ == k {
            } else {
                assert(i < s.len() - 1);
                assert(s.drop_last()[i].0@ == k);
                lemma_entry_map_dom(s.drop_last(), k);
            }
        }
    }
}

/// Entry lists with equal keys and equal value views read as the same map.
pub proof fn lemma_entry_map_congruence<T: DeepView>(a: Seq<(String, T)>, b: Seq<(String, T)>)
    requires
        a.len() == b.len(),
        forall|i: int| 0 <= i < a.len() ==> #[trigger] a[i].0 == b[i].0,
        forall|i: int| 0 <= i < a.len() ==> #[trigger] a[i].1.deep_view() == b[i].1.deep_view(),
    ensures
        entry_map(a) == entry_map(b),
    decreases a.len(),
{
    if a.len() > 0 {
        assert forall|i: int| 0 <= i < a.drop_last().len() implies #[trigger] a.drop_last()[i].0
            == b.drop_last()[i].0 by {
            assert(a[i].0 == b[i].0);
        }
        assert forall|i: int|
            0 <= i < a.drop_last().len() implies #[trigger] a.drop_last()[i].1.deep_view()
            == b.drop_last()[i].1.deep_view() by {
            assert(a[i].1.deep_view() == b[i].1.deep_view());
        }
        lemma_entry_map_congruence(a.drop_last(), b.drop_last());
        assert(a.last().0 == b.last().0 && a.last().1.deep_view() == b.last().1.deep_view());
    }
}

/// The index of the first entry whose key reads as `key`, if any.
pub fn find_index<T>(entries: &Vec<(String, T)>, key: &str) -> (r: Option<usize>)
    ensures
        match r {
            Some(i) => {
                &&& i < entries@.len()
                &&& entries@[i as int].0@ == key@
                &&& forall|j: int| 0 <= j < i ==> entries@[j].0@ != key@
            },
            None => forall|j: int| 0 <= j < entries@.len() ==> entries@[j].0@ != key@,
        },
{
    let mut i: usize = 0;
    while i < entries.len()
        invariant
            i <= entries@.len(),
            forall|j: int| 0 <= j < i ==> entries@[j].0@ != key@,
        decreases entries@.len() - i,
    {
        if str_eq(entries[i].0.as_str(), key) {
            return Some(i);
        }
        i = i + 1;
    }
    None
}

/// `s` with `value` stored under `key`: the entry with that key is replaced
/// in place, or a new entry is appended.
pub open spec fn upsert_spec<T>(s: Seq<(String, T)>, key: String, value: T) -> Seq<(String, T)> {
    if has_key(s, key@) {
        s.update(index_of_key(s, key@), (key, value))
    } else {
        s.push((key, value))
    }
}

/// `acc` with every entry of `more` stored into it in order: colliding
/// keys are overwritten in place, the last occurrence winning.
pub open spec fn union_entries<T>(acc: Seq<(String, T)>, more: Seq<(String, T)>) -> Seq<(String, T)>
    decreases more.len(),
{
    if more.len() == 0 {
        acc
    } else {
        union_entries(upsert_spec(acc, more[0].0, more[0].1), more.drop_first())
    }
}

/// Every value of a union comes from one of its two sides.
pub proof fn lemma_union_entries_values<T>(
    acc: Seq<(String, T)>,
    more: Seq<(String, T)>,
    p: spec_fn(T) -> bool,
)
    requires
        forall|i: int| 0 <= i < acc.len() ==> p(#[trigger] acc[i].1),
        forall|i: int| 0 <= i < more.len() ==> p(#[trigger] more[i].1),
    ensures
        forall|i: int|
            0 <= i < union_entries(acc, more).len() ==> p(#[trigger] union_entries(acc, more)[i].1),
    decreases more.len(),
{
    if more.len() > 0 {
        let step = upsert_spec(acc, more[0].0, more[0].1);
        assert forall|i: int| 0 <= i < step.len() implies p(#[trigger] step[i].1) by {
            if has_key(acc, more[0].0@) {
                if i != index_of_key(acc, more[0].0@) {
                    assert(step[i] == acc[i]);
                }
            } else {
                if i < acc.len() {
                    assert(step[i] == acc[i]);
                }
            }
        }
        assert forall|i: int| 0 <= i < more.drop_first().len() implies p(
            #[trigger] more.drop_first()[i].1,
        ) by {
            assert(more.drop_first()[i] == more[i + 1]);
        }
        lemma_union_entries_values(step, more.drop_first(), p);
        assert(union_entries(acc, more) == union_entries(step, more.drop_first()));
        assert forall|i: int| 0 <= i < union_entries(acc, more).len() implies p(
            #[trigger] union_entries(acc, more)[i].1,
        ) by {
            assert(p(union_entries(step, more.drop_first())[i].1));
        }
    }
}

/// Stores every entry of `src` into `dst` in order.
pub fn absorb<T>(dst: &mut Vec<(String, T)>, src: Vec<(String, T)>)
    requires
        distinct_keys(old(dst)@),
    ensures
        final(dst)@ == union_entries(old(dst)@, src@),
        distinct_keys(final(dst)@),
{
    let mut src = src;
    let ghost sorig = src@;
    while src.len() > 0
        invariant
            distinct_keys(dst@),
            union_entries(old(dst)@, sorig) == union_entries(dst@, src@),
        decreases src@.len(),
    {
        let ghost dpre = dst@;
        let ghost spre = src@;
        let (k, v) = src.remove(0);
        proof {
            assert(src@ =~= spre.drop_first());
            assert((k, v) == spre[0]);
        }
        upsert(dst, k, v);
        proof {
            assert(union_entries(dst@, src@) == union_entries(dpre, spre));
        }
    }
}

/// An upsert reads as a map insert.
pub proof fn lemma_entry_map_upsert<T: DeepView>(s: Seq<(String, T)>, key: String, value: T)
    requires
        distinct_keys(s),
    ensures
        entry_map(upsert_spec(s, key, value)) == entry_map(s).insert(key@, value.deep_view()),
    decreases s.len(),
{
    if has_key(s, key@) {
        let i = index_of_key(s, key@);
        assert(0 <= i < s.len() && s[i].0@ == key@);
        let u = s.update(i, (key, value));
        if i == s.len() - 1 {
            assert(u.drop_last() =~= s.drop_last());
            assert(u.last() == (key, value));
            assert(entry_map(u) =~= entry_map(s).insert(key@, value.deep_view()));
        } else {
            let rest = s.drop_last();
            assert(u.drop_last() =~= rest.update(i, (key, value)));
            assert(u.last() == s.last());
            assert(rest[i].0@ == key@);
            assert(has_key(rest, key@));
            lemma_entry_map_upsert(rest, key, value);
            let i2 = index_of_key(rest, key@);
            assert(0 <= i2 < rest.len() && rest[i2].0@ == key@);
            assert(i2 == i);
            assert(upsert_spec(rest, key, value) == rest.update(i, (key, value)));
            assert(key@ != s.last().0@);
            assert(entry_map(u) =~= entry_map(s).insert(key@, value.deep_view()));
        }
    } else {
        assert(!(0 <= s.len() - 1 < s.len() && s[s.len() - 1].0@ == key@));
        assert(s.push((key, value)).drop_last() =~= s);
        assert(s.push((key, value)).last() == (key, value));
        assert(entry_map(s.push((key, value))) =~= entry_map(s).insert(key@, value.deep_view()));
    }
}

/// Stores `value` under `key`, replacing the entry with that key or
/// appending a new one.
pub fn upsert<T>(entries: &mut Vec<(String, T)>, key: String, value: T)
    requires
        distinct_keys(old(entries)@),
    ensures
        final(entries)@ == upsert_spec(old(entries)@, key, value),
        distinct_keys(final(entries)@),
{
    let idx = find_index(entries, key.as_str());
    match idx {
        Some(i) => {
            proof {
                let i0 = index_of_key(entries@, key@);
                assert(entries@[i as int].0@ == key@);
                assert(0 <= i0 < entries@.len() && entries@[i0].0@ == key@);
                assert(i0 == i as int);
            }
            entries[i] = (key, value);
        },
        None => {
            entries.push((key, value));
        },
    }
}

} // verus!
