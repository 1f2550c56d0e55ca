//! Generic inheritance resolution. An entity type exposes an optional
//! parent key and a fill-if-absent merge; a keyed collection of entities is
//! flattened by merging every entity with its fully-resolved parent. The
//! meaning of resolution is the fuel-bounded recursion [`resolve_rec`]:
//! follow parent keys upward, resolve the parent first, then merge.

use vstd::prelude::*;
use crate::keyed::entry_map;
use crate::keyed::distinct_keys;
use crate::keyed::find_index;
use crate::keyed::lemma_entry_map_index;
use crate::keyed::lemma_entry_map_key;
use crate::Error;

verus! {

/// An entity with an optional parent key and a fill-if-absent merge
/// operation, described at the specification level by `sparent` and
/// `smerge` over the entity's deep view.
pub trait Merge: DeepView + Sized {
    /// The parent key of an entity view.
    spec fn sparent(v: Self::V) -> Option<Seq<char>>;

    /// The view of a child after merging its parent's fields into it.
    spec fn smerge(child: Self::V, parent: Self::V) -> Self::V;

    /// Structural well-formedness of the entity, kept by copies and merges.
    spec fn swf(&self) -> bool;

    /// The entity's parent key.
    fn parent(&self) -> (r: Option<String>)
        ensures
            r.deep_view() == Self::sparent(self.deep_view()),
    ;

    /// Merges the parent's fields into `self`, filling only what `self`
    /// leaves unset.
    fn merge(&mut self, parent: &Self)
        ensures
            final(self).deep_view() == Self::smerge(old(self).deep_view(), parent.deep_view()),
            final(self).swf() == old(self).swf(),
    ;

    /// A copy of the entity with the same view.
    fn duplicate(&self) -> (r: Self)
        ensures
            r.deep_view() == self.deep_view(),
            r.swf() == self.swf(),
    ;
}

/// Resolution of `v` against the collection `m`, with `fuel` bounding the
/// length of the parent chain: an entity without a parent is itself; one
/// with a parent is itself merged with its fully-resolved parent; a parent
/// key absent from `m`, or a chain longer than any fuel (a cycle), never
/// resolves.
pub open spec fn resolve_rec<T: Merge>(
    m: Map<Seq<char>, T::V>,
    v: T::V,
    fuel: nat,
) -> Option<T::V>
    decreases fuel,
{
    match T::sparent(v) {
        None => Some(v),
        Some(p) => {
            if fuel == 0 {
                None
            } else if m.contains_key(p) {
                match resolve_rec::<T>(m, m[p], (fuel - 1) as nat) {
                    Some(pv) => Some(T::smerge(v, pv)),
                    None => None,
                }
            } else {
                None
            }
        },
    }
}

/// Whether `v`'s parent chain in `m` resolves at some fuel.
pub open spec fn resolvable<T: Merge>(m: Map<Seq<char>, T::V>, v: T::V) -> bool {
    exists|fuel: nat| resolve_rec::<T>(m, v, fuel) is Some
}

/// Whether `v` resolves to exactly `r`.
pub open spec fn resolves_to<T: Merge>(m: Map<Seq<char>, T::V>, v: T::V, r: T::V) -> bool {
    exists|fuel: nat| resolve_rec::<T>(m, v, fuel) == Some(r)
}

/// Once resolution succeeds at some fuel, more fuel returns the same value.
pub proof fn lemma_resolve_monotone<T: Merge>(m: Map<Seq<char>, T::V>, v: T::V, f1: nat, f2: nat)
    requires
        f1 <= f2,
        resolve_rec::<T>(m, v, f1) is Some,
    ensures
        resolve_rec::<T>(m, v, f2) == resolve_rec::<T>(m, v, f1),
    decreases f1,
{
    match T::sparent(v) {
        None => {},
        Some(p) => {
            lemma_resolve_monotone::<T>(m, m[p], (f1 - 1) as nat, (f2 - 1) as nat);
        },
    }
}

/// The resolved value of an entity is unique.
pub proof fn lemma_resolves_to_unique<T: Merge>(m: Map<Seq<char>, T::V>, v: T::V, r1: T::V, r2: T::V)
    requires
        resolves_to::<T>(m, v, r1),
        resolves_to::<T>(m, v, r2),
    ensures
        r1 == r2,
{
    let f1 = choose|f: nat| resolve_rec::<T>(m, v, f) == Some(r1);
    let f2 = choose|f: nat| resolve_rec::<T>(m, v, f) == Some(r2);
    if f1 <= f2 {
        lemma_resolve_monotone::<T>(m, v, f1, f2);
    } else {
        lemma_resolve_monotone::<T>(m, v, f2, f1);
    }
}

/// When no pending entity's parent is settled — every pending entity's
/// parent key either misses the collection or names a pending entity —
/// no pending entity resolves at any fuel.
proof fn lemma_stuck<T: Merge>(s: Seq<(String, T)>, done: Seq<bool>, fuel: nat, i: int)
    requires
        distinct_keys(s),
        done.len() == s.len(),
        0 <= i < s.len(),
        !done[i],
        forall|k: int| 0 <= k < s.len() && !done[k] ==> T::sparent(#[trigger] s[k].1.deep_view()) is Some,
        forall|k: int, j: int|
            #![trigger s[k].1.deep_view(), s[j].0]
            0 <= k < s.len() && !done[k] && 0 <= j < s.len() && s[j].0@ == T::sparent(
                s[k].1.deep_view(),
            ).unwrap() ==> !done[j],
    ensures
        resolve_rec::<T>(entry_map(s), s[i].1.deep_view(), fuel) is None,
    decreases fuel,
{
    let m = entry_map(s);
    let v = s[i].1.deep_view();
    let p = T::sparent(v).unwrap();
    if fuel == 0 {
    } else if m.contains_key(p) {
        lemma_entry_map_key(s, p);
        let j = choose|j: int| 0 <= j < s.len() && s[j].0@ == p;
        assert(forall|jj: int| j < jj < s.len() ==> s[jj].0@ != s[j].0@);
        lemma_entry_map_index(s, j);
        assert(!done[j]);
        lemma_stuck::<T>(s, done, (fuel - 1) as nat, j);
    }
}

/// The `(entity key, parent key)` pairs, in entry order, of the entities
/// whose parent chain never resolves.
pub open spec fn unresolved_pairs<T: Merge>(
    s: Seq<(String, T)>,
    m: Map<Seq<char>, T::V>,
) -> Seq<(Seq<char>, Seq<char>)>
    decreases s.len(),
{
    if s.len() == 0 {
        Seq::empty()
    } else {
        unresolved_pairs::<T>(s.drop_last(), m) + {
            let e = s.last();
            if !resolvable::<T>(m, e.1.deep_view()) {
                seq![(e.0@, T::sparent(e.1.deep_view()).unwrap())]
            } else {
                Seq::empty()
            }
        }
    }
}

/// The character views of a list of string pairs.
pub open spec fn pair_views(s: Seq<(String, String)>) -> Seq<(Seq<char>, Seq<char>)> {
    s.map_values(|p: (String, String)| (p.0@, p.1@))
}

spec fn count_true(s: Seq<bool>) -> nat
    decreases s.len(),
{
    if s.len() == 0 {
        0
    } else {
        count_true(s.drop_last()) + if s.last() {
            1nat
        } else {
            0nat
        }
    }
}

proof fn lemma_count_true_update(s: Seq<bool>, i: int)
    requires
        0 <= i < s.len(),
        !s[i],
    ensures
        count_true(s.update(i, true)) == count_true(s) + 1,
    decreases s.len(),
{
    if i == s.len() - 1 {
        assert(s.update(i, true).drop_last() =~= s.drop_last());
    } else {
        assert(s.update(i, true).drop_last() =~= s.drop_last().update(i, true));
        lemma_count_true_update(s.drop_last(), i);
    }
}

proof fn lemma_count_true_bounds(s: Seq<bool>)
    ensures
        count_true(s) <= s.len(),
        count_true(s) == s.len() <==> (forall|i: int| 0 <= i < s.len() ==> s[i]),
    decreases s.len(),
{
    if s.len() > 0 {
        lemma_count_true_bounds(s.drop_last());
        if count_true(s) == s.len() {
            assert forall|i: int| 0 <= i < s.len() implies s[i] by {
                if i < s.len() - 1 {
                    assert(s.drop_last()[i] == s[i]);
                }
            }
        }
        if forall|i: int| 0 <= i < s.len() ==> s[i] {
            assert forall|i: int| 0 <= i < s.drop_last().len() implies s.drop_last()[i] by {
                assert(s.drop_last()[i] == s[i]);
            }
            assert(s.last());
        }
    }
}

/// Flattens the parent-chain hierarchy of a keyed entity collection: every
/// entity is merged with its fully-resolved parent, in an order that
/// settles parents first. Succeeds exactly when every entity's parent
/// chain resolves; otherwise fails with every offending
/// `(entity key, parent key)` pair — an entity with a parent key absent
/// from the collection and an entity on a parent cycle fail alike.
pub fn merge<T: Merge>(entries: &mut Vec<(String, T)>) -> (r: Result<(), Error>)
    requires
        distinct_keys(old(entries)@),
    ensures
        distinct_keys(final(entries)@),
        final(entries)@.len() == old(entries)@.len(),
        forall|i: int|
            0 <= i < old(entries)@.len() ==> #[trigger] final(entries)@[i].0 == old(entries)@[i].0,
        forall|i: int|
            0 <= i < old(entries)@.len() ==> (#[trigger] final(entries)@[i].1).swf() == old(
                entries,
            )@[i].1.swf(),
        (r is Ok) == (forall|i: int|
            0 <= i < old(entries)@.len() ==> resolvable::<T>(
                entry_map(old(entries)@),
                #[trigger] old(entries)@[i].1.deep_view(),
            )),
        r is Ok ==> forall|i: int|
            0 <= i < old(entries)@.len() ==> resolves_to::<T>(
                entry_map(old(entries)@),
                #[trigger] old(entries)@[i].1.deep_view(),
                final(entries)@[i].1.deep_view(),
            ),
        match r {
            Ok(()) => true,
            Err(e) => match e {
                Error::NodeHasUnknownParent { list } => pair_views(list@) == unresolved_pairs::<T>(
                    old(entries)@,
                    entry_map(old(entries)@),
                ),
                _ => false,
            },
        },
        r is Err ==> forall|i: int|
            0 <= i < old(entries)@.len() && !resolvable::<T>(
                entry_map(old(entries)@),
                (#[trigger] old(entries)@[i].1).deep_view(),
            ) ==> final(entries)@[i].1 == old(entries)@[i].1,
        r is Err ==> forall|i: int|
            0 <= i < old(entries)@.len() && resolvable::<T>(
                entry_map(old(entries)@),
                (#[trigger] old(entries)@[i].1).deep_view(),
            ) ==> resolves_to::<T>(
                entry_map(old(entries)@),
                old(entries)@[i].1.deep_view(),
                final(entries)@[i].1.deep_view(),
            ),
{
    let ghost orig = entries@;
    let ghost m0 = entry_map(orig);
    let n = entries.len();
    let mut done: Vec<bool> = Vec::new();
    let mut count: usize = 0;
    let mut i: usize = 0;
    while i < n
        invariant
            i <= n,
            n == entries@.len(),
            entries@ == orig,
            done@.len() == i,
            count as nat == count_true(done@),
            count <= i,
            forall|k: int|
                0 <= k < i ==> (done@[k] <==> T::sparent(
                    #[trigger] orig[k].1.deep_view(),
                ) is None),
        decreases n - i,
    {
        let ghost dprev = done@;
        let p = entries[i].1.parent();
        if p.is_none() {
            done.push(true);
            count = count + 1;
        } else {
            done.push(false);
        }
        proof {
            assert(done@.drop_last() =~= dprev);
        }
        i = i + 1;
    }
    proof {
        assert forall|k: int|
            0 <= k < n && done@[k] implies resolves_to::<T>(
            m0,
            #[trigger] orig[k].1.deep_view(),
            entries@[k].1.deep_view(),
        ) by {
            assert(resolve_rec::<T>(m0, orig[k].1.deep_view(), 0nat) == Some(
                orig[k].1.deep_view(),
            ));
        }
    }
    while count < n
        invariant
            orig == old(entries)@,
            n == entries@.len(),
            orig.len() == n,
            done@.len() == n,
            count as nat == count_true(done@),
            count <= n,
            distinct_keys(entries@),
            m0 == entry_map(orig),
            distinct_keys(orig),
            forall|k: int| 0 <= k < n ==> #[trigger] entries@[k].0 == orig[k].0,
            forall|k: int|
                0 <= k < n && done@[k] ==> resolves_to::<T>(
                    m0,
                    #[trigger] orig[k].1.deep_view(),
                    entries@[k].1.deep_view(),
                ),
            forall|k: int| 0 <= k < n && !done@[k] ==> #[trigger] entries@[k].1 == orig[k].1,
            forall|k: int|
                0 <= k < n && !done@[k] ==> T::sparent(#[trigger] orig[k].1.deep_view()) is Some,
            forall|k: int| 0 <= k < n ==> (#[trigger] entries@[k].1).swf() == orig[k].1.swf(),
        decreases n - count,
    {
        let mut ready_child: usize = 0;
        let mut ready_parent: usize = 0;
        let mut found = false;
        let mut k: usize = 0;
        while k < n
            invariant
                k <= n,
                n == entries@.len(),
                orig.len() == n,
                done@.len() == n,
                distinct_keys(entries@),
                forall|kk: int| 0 <= kk < n ==> #[trigger] entries@[kk].0 == orig[kk].0,
                forall|kk: int|
                    0 <= kk < n && !done@[kk] ==> #[trigger] entries@[kk].1 == orig[kk].1,
                forall|kk: int|
                    0 <= kk < n && !done@[kk] ==> T::sparent(
                        #[trigger] orig[kk].1.deep_view(),
                    ) is Some,
                found ==> {
                    &&& ready_child < n
                    &&& ready_parent < n
                    &&& !done@[ready_child as int]
                    &&& done@[ready_parent as int]
                    &&& orig[ready_parent as int].0@ == T::sparent(
                        orig[ready_child as int].1.deep_view(),
                    ).unwrap()
                },
                !found ==> forall|c: int, j: int|
                    #![trigger orig[c].1.deep_view(), orig[j].0]
                    0 <= c < k && !done@[c] && 0 <= j < n && orig[j].0@ == T::sparent(
                        orig[c].1.deep_view(),
                    ).unwrap() ==> !done@[j],
            ensures
                found ==> {
                    &&& ready_child < n
                    &&& ready_parent < n
                    &&& !done@[ready_child as int]
                    &&& done@[ready_parent as int]
                    &&& orig[ready_parent as int].0@ == T::sparent(
                        orig[ready_child as int].1.deep_view(),
                    ).unwrap()
                },
                !found ==> forall|c: int, j: int|
                    #![trigger orig[c].1.deep_view(), orig[j].0]
                    0 <= c < n && !done@[c] && 0 <= j < n && orig[j].0@ == T::sparent(
                        orig[c].1.deep_view(),
                    ).unwrap() ==> !done@[j],
            decreases n - k,
        {
            if !*done.get(k).unwrap() {
                let p = entries[k].1.parent();
                match p {
                    Some(pk) => {
                        match find_index(entries, pk.as_str()) {
                            Some(j) => {
                                if *done.get(j).unwrap() {
                                    ready_child = k;
                                    ready_parent = j;
                                    found = true;
                                    break;
                                }
                                proof {
                                    assert forall|jj: int|
                                        0 <= jj < n && orig[jj].0@ == pk@ implies !done@[jj] by {
                                        assert(entries@[jj].0@ == pk@);
                                        assert(jj == j as int);
                                    }
                                }
                            },
                            None => {
                                proof {
                                    assert forall|jj: int|
                                        0 <= jj < n && orig[jj].0@ == pk@ implies !done@[jj] by {
                                        assert(entries@[jj].0@ == pk@);
                                        assert(false);
                                    }
                                }
                            },
                        }
                    },
                    None => {
                        proof {
                            assert(false);
                        }
                    },
                }
            }
            k = k + 1;
        }
        if found {
            let ci = ready_child;
            let pj = ready_parent;
            let parent_val = entries[pj].1.duplicate();
            let mut child = entries[ci].1.duplicate();
            child.merge(&parent_val);
            let key = entries[ci].0.clone();
            let ghost child_view = child.deep_view();
            let ghost dprev = done@;
            entries[ci] = (key, child);
            done[ci] = true;
            count = count + 1;
            proof {
                lemma_count_true_update(dprev, ci as int);
                let pv = orig[pj as int].1.deep_view();
                let fj = choose|f: nat| resolve_rec::<T>(m0, pv, f) == Some(parent_val.deep_view());
                let p = T::sparent(orig[ci as int].1.deep_view()).unwrap();
                assert(forall|jj: int| (pj as int) < jj < n ==> orig[jj].0@ != orig[pj as int].0@);
                lemma_entry_map_index(orig, pj as int);
                assert(m0.contains_key(p) && m0[p] == pv);
                assert(resolve_rec::<T>(m0, orig[ci as int].1.deep_view(), fj + 1) == Some(
                    child_view,
                ));
            }
        } else {
            proof {
                assert forall|c: int|
                    0 <= c < n && !done@[c] implies !resolvable::<T>(
                    m0,
                    #[trigger] orig[c].1.deep_view(),
                ) by {
                    if resolvable::<T>(m0, orig[c].1.deep_view()) {
                        let f = choose|f: nat|
                            resolve_rec::<T>(m0, orig[c].1.deep_view(), f) is Some;
                        lemma_stuck::<T>(orig, done@, f, c);
                    }
                }
            }
            let mut list: Vec<(String, String)> = Vec::new();
            let mut k2: usize = 0;
            proof {
                assert(pair_views(list@) =~= unresolved_pairs::<T>(orig.take(0), m0));
            }
            while k2 < n
                invariant
                    orig == old(entries)@,
                    k2 <= n,
                    n == entries@.len(),
                    orig.len() == n,
                    done@.len() == n,
                    m0 == entry_map(orig),
                    forall|kk: int| 0 <= kk < n ==> #[trigger] entries@[kk].0 == orig[kk].0,
                    forall|kk: int|
                        0 <= kk < n && !done@[kk] ==> #[trigger] entries@[kk].1 == orig[kk].1,
                    forall|kk: int|
                        0 <= kk < n && !done@[kk] ==> T::sparent(
                            #[trigger] orig[kk].1.deep_view(),
                        ) is Some,
                    forall|kk: int|
                        0 <= kk < n && !done@[kk] ==> !resolvable::<T>(
                            m0,
                            #[trigger] orig[kk].1.deep_view(),
                        ),
                    forall|kk: int|
                        0 <= kk < n && done@[kk] ==> resolves_to::<T>(
                            m0,
                            #[trigger] orig[kk].1.deep_view(),
                            entries@[kk].1.deep_view(),
                        ),
                    pair_views(list@) == unresolved_pairs::<T>(orig.take(k2 as int), m0),
                decreases n - k2,
            {
                let ghost lprev = list@;
                if !*done.get(k2).unwrap() {
                    let p = entries[k2].1.parent();
                    match p {
                        Some(pk) => {
                            let key = entries[k2].0.clone();
                            list.push((key, pk));
                        },
                        None => {
                            proof {
                                assert(false);
                            }
                        },
                    }
                } else {
                    proof {
                        assert(resolvable::<T>(m0, orig[k2 as int].1.deep_view()));
                    }
                }
                proof {
                    assert(orig.take(k2 + 1).drop_last() =~= orig.take(k2 as int));
                    assert(orig.take(k2 + 1).last() == orig[k2 as int]);
                    assert(pair_views(list@) =~= unresolved_pairs::<T>(orig.take(k2 + 1), m0));
                }
                k2 = k2 + 1;
            }
            proof {
                assert(orig.take(n as int) =~= orig);
                assert forall|k: int|
                    0 <= k < n implies done@[k] == resolvable::<T>(
                    m0,
                    (#[trigger] orig[k].1).deep_view(),
                ) by {
                    if done@[k] {
                        let f = choose|f: nat|
                            resolve_rec::<T>(m0, orig[k].1.deep_view(), f) == Some(
                                entries@[k].1.deep_view(),
                            );
                        assert(resolve_rec::<T>(m0, orig[k].1.deep_view(), f) is Some);
                    }
                }
                lemma_count_true_bounds(done@);
                assert(count_true(done@) < n);
                assert(exists|i: int| 0 <= i < n && !done@[i]) by {
                    if forall|i: int| 0 <= i < n ==> done@[i] {
                        assert(count_true(done@) == n);
                    }
                }
                let bad = choose|i: int| 0 <= i < n && !done@[i];
                assert(!resolvable::<T>(m0, orig[bad].1.deep_view()));
            }
            return Err(Error::NodeHasUnknownParent { list });
        }
    }
    proof {
        lemma_count_true_bounds(done@);
    }
    Ok(())
}

} // verus!
