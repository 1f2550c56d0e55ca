//! The engine's guarantees, stated and proved once and for all: inherited
//! fields come from the nearest ancestor that sets them; an entity with an
//! unknown parent is reported exactly once; diagram assembly is a function
//! of the model, the diagram and the tag filter; tag merging is set union;
//! a relation whose target is out of scope contributes nothing; a member
//! node without a definition fails assembly.

use vstd::prelude::*;
use crate::keyed::distinct_keys;
use crate::keyed::entry_map;
use crate::keyed::has_key;
use crate::keyed::lemma_entry_map_dom;
use crate::merge::Merge;
use crate::merge::resolve_rec;
use crate::merge::resolvable;
use crate::merge::unresolved_pairs;
use crate::model::assembled_text;
use crate::model::first_missing;
use crate::model::node_at;
use crate::model::qual_list;
use crate::model::qualifies;
use crate::node::Node;
use crate::node::NodeV;
use crate::node::node_merge;
use crate::relation::RelationV;
use crate::relation::rel_merge;

verus! {

/// The nearest value of field `f` along `v`'s parent chain in `m`: `v`'s
/// own value if set, else the nearest ancestor's, within `fuel` steps.
pub open spec fn chain_field(
    m: Map<Seq<char>, NodeV>,
    v: NodeV,
    f: spec_fn(NodeV) -> Option<Seq<char>>,
    fuel: nat,
) -> Option<Seq<char>>
    decreases fuel,
{
    if f(v) is Some {
        f(v)
    } else {
        match v.parent {
            None => None,
            Some(p) => {
                if fuel > 0 && m.contains_key(p) {
                    chain_field(m, m[p], f, (fuel - 1) as nat)
                } else {
                    None
                }
            },
        }
    }
}

/// A resolved node's inheritable fields each equal the nearest value along
/// its parent chain: its own where set, else the closest ancestor's,
/// transitively up to the root. Identity, parent key and relations stay.
pub proof fn lemma_inherited_fields_nearest(
    m: Map<Seq<char>, NodeV>,
    v: NodeV,
    r: NodeV,
    fuel: nat,
)
    requires
        resolve_rec::<Node>(m, v, fuel) == Some(r),
    ensures
        r.name == chain_field(m, v, |n: NodeV| n.name, fuel),
        r.description == chain_field(m, v, |n: NodeV| n.description, fuel),
        r.technology == chain_field(m, v, |n: NodeV| n.technology, fuel),
        r.definition == chain_field(m, v, |n: NodeV| n.definition, fuel),
        r.id == v.id,
        r.parent == v.parent,
        r.relations == v.relations,
    decreases fuel,
{
    match v.parent {
        None => {
            assert(r == v);
        },
        Some(p) => {
            let pr = resolve_rec::<Node>(m, m[p], (fuel - 1) as nat).unwrap();
            lemma_inherited_fields_nearest(m, m[p], pr, (fuel - 1) as nat);
            assert(r == node_merge(v, pr));
        },
    }
}

/// An entity whose parent key is absent from the collection never resolves.
pub proof fn lemma_absent_parent_unresolvable<T: Merge>(
    s: Seq<(String, T)>,
    i: int,
    p: Seq<char>,
)
    requires
        0 <= i < s.len(),
        T::sparent(s[i].1.deep_view()) == Some(p),
        !has_key(s, p),
    ensures
        !resolvable::<T>(entry_map(s), s[i].1.deep_view()),
{
    lemma_entry_map_dom(s, p);
    assert forall|fuel: nat| resolve_rec::<T>(entry_map(s), s[i].1.deep_view(), fuel) is None by {
        assert(!entry_map(s).contains_key(p));
    }
}

/// Every unresolved pair's entity key is the key of some entry.
proof fn lemma_unresolved_pairs_firsts<T: Merge>(
    s: Seq<(String, T)>,
    m: Map<Seq<char>, T::V>,
    q: int,
)
    requires
        0 <= q < unresolved_pairs::<T>(s, m).len(),
    ensures
        exists|i: int|
            0 <= i < s.len() && #[trigger] s[i].0@ == unresolved_pairs::<T>(s, m)[q].0,
    decreases s.len(),
{
    let pairs = unresolved_pairs::<T>(s, m);
    let rest = unresolved_pairs::<T>(s.drop_last(), m);
    if q < rest.len() {
        lemma_unresolved_pairs_firsts::<T>(s.drop_last(), m, q);
        let i = choose|i: int|
            0 <= i < s.drop_last().len() && #[trigger] s.drop_last()[i].0@ == rest[q].0;
        assert(s[i].0@ == pairs[q].0);
    } else {
        assert(pairs[q].0 == s[s.len() - 1].0@);
    }
}

/// An entity that never resolves is reported, and under distinct keys its
/// key occurs only once in the report.
pub proof fn lemma_unknown_parent_reported<T: Merge>(s: Seq<(String, T)>, i: int, p: Seq<char>)
    requires
        distinct_keys(s),
        0 <= i < s.len(),
        T::sparent(s[i].1.deep_view()) == Some(p),
        !has_key(s, p),
    ensures
        unresolved_pairs::<T>(s, entry_map(s)).contains((s[i].0@, p)),
        forall|q1: int, q2: int|
            0 <= q1 < q2 < unresolved_pairs::<T>(s, entry_map(s)).len()
                ==> #[trigger] unresolved_pairs::<T>(s, entry_map(s))[q1].0 != #[trigger]
            unresolved_pairs::<T>(s, entry_map(s))[q2].0,
{
    lemma_absent_parent_unresolvable::<T>(s, i, p);
    lemma_unresolved_pairs_contains::<T>(s, entry_map(s), i);
    assert(unresolved_pairs::<T>(s, entry_map(s)).contains((
        s[i].0@,
        T::sparent(s[i].1.deep_view()).unwrap(),
    )));
    lemma_unresolved_pairs_distinct::<T>(s, entry_map(s));
}

/// An unresolvable entity appears in the report.
proof fn lemma_unresolved_pairs_contains<T: Merge>(
    s: Seq<(String, T)>,
    m: Map<Seq<char>, T::V>,
    i: int,
)
    requires
        0 <= i < s.len(),
        !resolvable::<T>(m, s[i].1.deep_view()),
        T::sparent(s[i].1.deep_view()) is Some,
    ensures
        unresolved_pairs::<T>(s, m).contains(
            (s[i].0@, T::sparent(s[i].1.deep_view()).unwrap()),
        ),
    decreases s.len(),
{
    let pairs = unresolved_pairs::<T>(s, m);
    let rest = unresolved_pairs::<T>(s.drop_last(), m);
    let pair = (s[i].0@, T::sparent(s[i].1.deep_view()).unwrap());
    if i == s.len() - 1 {
        assert(pairs[rest.len() as int] == pair);
    } else {
        assert(s.drop_last()[i] == s[i]);
        lemma_unresolved_pairs_contains::<T>(s.drop_last(), m, i);
        let q = choose|q: int| 0 <= q < rest.len() && rest[q] == pair;
        assert(pairs[q] == pair);
    }
}

/// Under distinct keys the reported entity keys are pairwise distinct.
proof fn lemma_unresolved_pairs_distinct<T: Merge>(s: Seq<(String, T)>, m: Map<Seq<char>, T::V>)
    requires
        distinct_keys(s),
    ensures
        forall|q1: int, q2: int|
            0 <= q1 < q2 < unresolved_pairs::<T>(s, m).len() ==> #[trigger] unresolved_pairs::<T>(
                s,
                m,
            )[q1].0 != #[trigger] unresolved_pairs::<T>(s, m)[q2].0,
    decreases s.len(),
{
    if s.len() > 0 {
        assert(distinct_keys(s.drop_last())) by {
            assert(forall|a: int, b: int|
                0 <= a < b < s.drop_last().len() ==> s[a].0@ != s[b].0@);
        }
        lemma_unresolved_pairs_distinct::<T>(s.drop_last(), m);
        let pairs = unresolved_pairs::<T>(s, m);
        let rest = unresolved_pairs::<T>(s.drop_last(), m);
        assert forall|q1: int, q2: int|
            0 <= q1 < q2 < pairs.len() implies #[trigger] pairs[q1].0 != #[trigger] pairs[q2].0 by {
            if q2 < rest.len() {
                assert(pairs[q1].0 == rest[q1].0);
                assert(pairs[q2].0 == rest[q2].0);
            } else {
                assert(pairs[q2].0 == s[s.len() - 1].0@);
                assert(pairs[q1].0 == rest[q1].0);
                lemma_unresolved_pairs_firsts::<T>(s.drop_last(), m, q1);
                let i = choose|i: int|
                    0 <= i < s.drop_last().len() && #[trigger] s.drop_last()[i].0@ == rest[q1].0;
                assert(s[i].0@ != s[s.len() - 1].0@);
            }
        }
    }
}

/// Diagram assembly is deterministic: any two outcomes of assembling the
/// same node collection, member list and tag filter are one text. The
/// assembler's contract pins its output to `assembled_text`, so repeated
/// calls on an unchanged model agree byte for byte.
pub proof fn lemma_assembly_deterministic(
    nodes: Seq<(String, Node)>,
    members: Seq<Seq<char>>,
    tf: Set<Seq<char>>,
    s1: Seq<char>,
    s2: Seq<char>,
)
    requires
        s1 == assembled_text(nodes, members, tf),
        s2 == assembled_text(nodes, members, tf),
    ensures
        s1 == s2,
{
}

/// Merging tags is set union: a child holding one tag set and inheriting
/// another ends with their union.
pub proof fn lemma_tag_merge_union(c: RelationV, p: RelationV)
    requires
        c.tags is Some,
        p.tags is Some,
    ensures
        rel_merge(c, p).tags == Some(c.tags.unwrap().union(p.tags.unwrap())),
{
}

/// A relation instance whose target is not a member of the diagram, or
/// does not exist as a node, never qualifies for the definitions block.
pub proof fn lemma_nonmember_target_excluded(
    r: RelationV,
    tf: Set<Seq<char>>,
    members: Seq<Seq<char>>,
    nodes: Seq<(String, Node)>,
)
    requires
        r.right is None || !members.contains(r.right.unwrap()) || !has_key(
            nodes,
            r.right.unwrap(),
        ),
    ensures
        !qualifies(r, tf, members, nodes),
{
}

/// Every definition in a block comes from a qualifying relation: one that
/// passes the tag filter and whose target is a member node that exists.
pub proof fn lemma_block_definitions_qualify(
    list: Seq<RelationV>,
    tf: Set<Seq<char>>,
    members: Seq<Seq<char>>,
    nodes: Seq<(String, Node)>,
    d: Seq<char>,
)
    requires
        qual_list(list, tf, members, nodes).contains(d),
    ensures
        exists|x: int|
            0 <= x < list.len() && qualifies(#[trigger] list[x], tf, members, nodes)
                && list[x].definition == Some(d),
    decreases list.len(),
{
    let q = qual_list(list, tf, members, nodes);
    let rest = qual_list(list.drop_last(), tf, members, nodes);
    let w = choose|w: int| 0 <= w < q.len() && q[w] == d;
    if w < rest.len() {
        assert(rest[w] == d);
        lemma_block_definitions_qualify(list.drop_last(), tf, members, nodes, d);
        let x = choose|x: int|
            0 <= x < list.drop_last().len() && qualifies(
                #[trigger] list.drop_last()[x],
                tf,
                members,
                nodes,
            ) && list.drop_last()[x].definition == Some(d);
        assert(list[x] == list.drop_last()[x]);
        assert(qualifies(list[x], tf, members, nodes) && list[x].definition == Some(d));
    } else {
        assert(qualifies(list[list.len() - 1], tf, members, nodes));
        assert(list[list.len() - 1].definition == Some(d));
    }
}

/// A member node without a definition makes assembly fail: some member is
/// reported missing.
pub proof fn lemma_missing_definition_fails(
    members: Seq<Seq<char>>,
    nodes: Seq<(String, Node)>,
    i: int,
)
    requires
        0 <= i < members.len(),
        node_at(nodes, members[i])@.definition is None,
    ensures
        first_missing(members, nodes) is Some,
    decreases members.len(),
{
    if node_at(nodes, members[0])@.definition is None {
    } else {
        assert(members.drop_first()[i - 1] == members[i]);
        lemma_missing_definition_fails(members.drop_first(), nodes, i - 1);
    }
}

/// A node lacking its own definition and every ancestor's resolves to a
/// node without a definition; when that node takes part in assembly,
/// assembly fails.
pub proof fn lemma_undefined_everywhere_fails(
    m: Map<Seq<char>, NodeV>,
    v: NodeV,
    r: NodeV,
    fuel: nat,
    members: Seq<Seq<char>>,
    nodes: Seq<(String, Node)>,
    i: int,
)
    requires
        resolve_rec::<Node>(m, v, fuel) == Some(r),
        chain_field(m, v, |n: NodeV| n.definition, fuel) is None,
        0 <= i < members.len(),
        node_at(nodes, members[i])@ == r,
    ensures
        first_missing(members, nodes) is Some,
{
    lemma_inherited_fields_nearest(m, v, r, fuel);
    lemma_missing_definition_fails(members, nodes, i);
}

} // verus!
