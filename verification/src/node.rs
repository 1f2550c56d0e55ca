//! Nodes: documented entities with inheritable descriptive fields, a
//! templated definition, and outgoing relation instances grouped by
//! relation-catalog key.

use vstd::prelude::*;
use crate::keyed::entry_map;
use crate::keyed::distinct_keys;
use crate::keyed::find_index;
use crate::keyed::lemma_entry_map_index;
use crate::keyed::lemma_entry_map_dom;
use crate::merge::Merge;
use crate::model::Model;
use crate::model::ModelV;
use crate::relation::Relation;
use crate::relation::RelationV;
use crate::relation::rel_merge;
use crate::relation::clone_opt_string;
use crate::Error;

verus! {

/// The specification-level reading of a [`Node`]: each string field by its
/// characters, the relation lists as a map keyed by catalog key.
#[verifier::ext_equal]
pub ghost struct NodeV {
    pub id: Option<Seq<char>>,
    pub parent: Option<Seq<char>>,
    pub name: Option<Seq<char>>,
    pub description: Option<Seq<char>>,
    pub technology: Option<Seq<char>>,
    pub relations: Option<Map<Seq<char>, Seq<RelationV>>>,
    pub definition: Option<Seq<char>>,
}

/// A documented entity. `id` is assigned after aggregation, equal to the
/// node's map key; `relations` holds the node's outgoing relation
/// instances, grouped by relation-catalog key.
#[derive(Debug)]
pub struct Node {
    pub id: Option<String>,
    pub parent: Option<String>,
    pub name: Option<String>,
    pub description: Option<String>,
    pub technology: Option<String>,
    pub relations: Option<Vec<(String, Vec<Relation>)>>,
    pub definition: Option<String>,
}

/// The relations view of an optional keyed list of relation lists.
pub open spec fn opt_rels_view(
    o: Option<Vec<(String, Vec<Relation>)>>,
) -> Option<Map<Seq<char>, Seq<RelationV>>> {
    match o {
        Some(v) => Some(entry_map(v@)),
        None => None,
    }
}

impl View for Node {
    type V = NodeV;

    open spec fn view(&self) -> NodeV {
        NodeV {
            id: self.id.deep_view(),
            parent: self.parent.deep_view(),
            name: self.name.deep_view(),
            description: self.description.deep_view(),
            technology: self.technology.deep_view(),
            relations: opt_rels_view(self.relations),
            definition: self.definition.deep_view(),
        }
    }
}

impl DeepView for Node {
    type V = NodeV;

    open spec fn deep_view(&self) -> NodeV {
        self.view()
    }
}

/// The fill-if-absent merge of a parent node into a child: the name,
/// description, technology and definition take the parent's value where the
/// child leaves them unset; identity, parent key and relations stay.
pub open spec fn node_merge(c: NodeV, p: NodeV) -> NodeV {
    NodeV {
        id: c.id,
        parent: c.parent,
        name: if c.name is None {
            p.name
        } else {
            c.name
        },
        description: if c.description is None {
            p.description
        } else {
            c.description
        },
        technology: if c.technology is None {
            p.technology
        } else {
            c.technology
        },
        relations: c.relations,
        definition: if c.definition is None {
            p.definition
        } else {
            c.definition
        },
    }
}

/// A copy of a relation list with the same deep view.
pub fn clone_relations(v: &Vec<Relation>) -> (r: Vec<Relation>)
    ensures
        r.deep_view() == v.deep_view(),
{
    let mut r: Vec<Relation> = Vec::new();
    let mut i: usize = 0;
    while i < v.len()
        invariant
            i <= v@.len(),
            r@.len() == i,
            forall|k: int| 0 <= k < i ==> r@[k].deep_view() == v@[k].deep_view(),
        decreases v@.len() - i,
    {
        r.push(v[i].duplicate());
        i = i + 1;
    }
    proof {
        assert(r.deep_view() =~= v.deep_view());
    }
    r
}

/// A copy of a keyed list of relation lists with the same keys and views.
pub fn clone_rel_entries(v: &Vec<(String, Vec<Relation>)>) -> (r: Vec<(String, Vec<Relation>)>)
    ensures
        r@.len() == v@.len(),
        forall|k: int| 0 <= k < v@.len() ==> #[trigger] r@[k].0 == v@[k].0,
        forall|k: int| 0 <= k < v@.len() ==> #[trigger] r@[k].1.deep_view() == v@[k].1.deep_view(),
        entry_map(r@) == entry_map(v@),
{
    let mut r: Vec<(String, Vec<Relation>)> = Vec::new();
    let mut i: usize = 0;
    while i < v.len()
        invariant
            i <= v@.len(),
            r@.len() == i,
            forall|k: int| 0 <= k < i ==> #[trigger] r@[k].0 == v@[k].0,
            forall|k: int| 0 <= k < i ==> #[trigger] r@[k].1.deep_view() == v@[k].1.deep_view(),
        decreases v@.len() - i,
    {
        let key = v[i].0.clone();
        let lst = clone_relations(&v[i].1);
        r.push((key, lst));
        i = i + 1;
    }
    proof {
        crate::keyed::lemma_entry_map_congruence(r@, v@);
    }
    r
}

impl Node {
    /// Well-formed: the relation lists are keyed by pairwise-distinct keys.
    pub open spec fn wf(&self) -> bool {
        match self.relations {
            Some(v) => distinct_keys(v@),
            None => true,
        }
    }
}

/// One relation instance after the catalog resolution pass: an instance
/// with a catalog parent that exists gets `left` stamped with the owning
/// node's id and `right` with the catalog key it is nested under, then the
/// template's fields are merged in; any other instance is untouched.
pub open spec fn catalog_rel(
    r: RelationV,
    id: Seq<char>,
    key: Seq<char>,
    cat: Map<Seq<char>, RelationV>,
) -> RelationV {
    match r.parent {
        None => r,
        Some(p) => {
            if cat.contains_key(p) {
                rel_merge(RelationV { left: Some(id), right: Some(key), ..r }, cat[p])
            } else {
                r
            }
        },
    }
}

/// The `(node id, relation key, missing parent id)` triples collected from
/// one relation list during the catalog resolution pass, in list order.
pub open spec fn catalog_errs_list(
    list: Seq<RelationV>,
    id: Seq<char>,
    key: Seq<char>,
    cat: Map<Seq<char>, RelationV>,
) -> Seq<(Seq<char>, Seq<char>, Seq<char>)>
    decreases list.len(),
{
    if list.len() == 0 {
        Seq::empty()
    } else {
        catalog_errs_list(list.drop_last(), id, key, cat) + {
            let r = list.last();
            match r.parent {
                Some(p) => {
                    if !cat.contains_key(p) {
                        seq![(id, key, p)]
                    } else {
                        Seq::empty()
                    }
                },
                None => Seq::empty(),
            }
        }
    }
}

/// The error triples collected from a node's keyed relation lists, in
/// entry order.
pub open spec fn catalog_errs_entries(
    s: Seq<(String, Vec<Relation>)>,
    id: Seq<char>,
    cat: Map<Seq<char>, RelationV>,
) -> Seq<(Seq<char>, Seq<char>, Seq<char>)>
    decreases s.len(),
{
    if s.len() == 0 {
        Seq::empty()
    } else {
        catalog_errs_entries(s.drop_last(), id, cat) + catalog_errs_list(
            s.last().1.deep_view(),
            id,
            s.last().0@,
            cat,
        )
    }
}

/// The error triples of a node's catalog resolution pass.
pub open spec fn catalog_errs(
    rels: Option<Vec<(String, Vec<Relation>)>>,
    id: Seq<char>,
    cat: Map<Seq<char>, RelationV>,
) -> Seq<(Seq<char>, Seq<char>, Seq<char>)> {
    match rels {
        Some(v) => catalog_errs_entries(v@, id, cat),
        None => Seq::empty(),
    }
}

/// A relation list after the catalog resolution pass, element by element.
pub open spec fn catalog_list(
    list: Seq<RelationV>,
    id: Seq<char>,
    key: Seq<char>,
    cat: Map<Seq<char>, RelationV>,
) -> Seq<RelationV> {
    Seq::new(list.len(), |i: int| catalog_rel(list[i], id, key, cat))
}

/// A node's relations map after the catalog resolution pass.
pub open spec fn catalog_rels_map(
    m: Map<Seq<char>, Seq<RelationV>>,
    id: Seq<char>,
    cat: Map<Seq<char>, RelationV>,
) -> Map<Seq<char>, Seq<RelationV>> {
    Map::new(
        |k: Seq<char>| m.contains_key(k),
        |k: Seq<char>| catalog_list(m[k], id, k, cat),
    )
}

/// A node after the catalog resolution pass: only its relations change.
pub open spec fn node_catalog(v: NodeV, id: Seq<char>, cat: Map<Seq<char>, RelationV>) -> NodeV {
    NodeV {
        relations: match v.relations {
            None => None,
            Some(m) => Some(catalog_rels_map(m, id, cat)),
        },
        ..v
    }
}

/// The character views of a list of string triples.
pub open spec fn triple_views(
    s: Seq<(String, String, String)>,
) -> Seq<(Seq<char>, Seq<char>, Seq<char>)> {
    s.map_values(|t: (String, String, String)| (t.0@, t.1@, t.2@))
}

impl Node {
    /// The catalog resolution pass for one node: every relation instance
    /// that names a catalog parent is resolved against the global relation
    /// catalog — `left` and `right` stamped, template fields merged in. An
    /// instance whose catalog parent is missing is left untouched and
    /// recorded; the pass runs to the end and fails with the full list.
    pub fn merge_relations(&mut self, id: &str, model: &Model) -> (r: Result<(), Error>)
        requires
            old(self).wf(),
            distinct_keys(model.relations@),
        ensures
            final(self).wf(),
            final(self)@ == node_catalog(old(self)@, id@, entry_map(model.relations@)),
            ({
                let errs = catalog_errs(old(self).relations, id@, entry_map(model.relations@));
                match r {
                    Ok(()) => errs.len() == 0,
                    Err(e) => errs.len() > 0 && match e {
                        Error::NodeRelationHasUnknownParent { list } => triple_views(list@) == errs,
                        _ => false,
                    },
                }
            }),
    {
        let ghost catm = entry_map(model.relations@);
        let mut errors: Vec<(String, String, String)> = Vec::new();
        let new_rels: Option<Vec<(String, Vec<Relation>)>> = match &self.relations {
            None => None,
            Some(rels) => {
                let mut out: Vec<(String, Vec<Relation>)> = Vec::new();
                let mut e: usize = 0;
                proof {
                    assert(triple_views(errors@) =~= catalog_errs_entries(rels@.take(0), id@, catm));
                }
                while e < rels.len()
                    invariant
                        e <= rels@.len(),
                        distinct_keys(model.relations@),
                        catm == entry_map(model.relations@),
                        out@.len() == e,
                        forall|k: int| 0 <= k < e ==> #[trigger] out@[k].0 == rels@[k].0,
                        forall|k: int|
                            0 <= k < e ==> #[trigger] out@[k].1.deep_view() == catalog_list(
                                rels@[k].1.deep_view(),
                                id@,
                                rels@[k].0@,
                                catm,
                            ),
                        triple_views(errors@) == catalog_errs_entries(rels@.take(e as int), id@, catm),
                    decreases rels@.len() - e,
                {
                    let key = rels[e].0.clone();
                    let lst = &rels[e].1;
                    let mut newl: Vec<Relation> = Vec::new();
                    let mut x: usize = 0;
                    let ghost errs0 = errors@;
                    proof {
                        assert(newl.deep_view() =~= catalog_list(
                            lst.deep_view().take(0),
                            id@,
                            key@,
                            catm,
                        ));
                        assert(catalog_errs_list(lst.deep_view().take(0), id@, key@, catm)
                            =~= Seq::<(Seq<char>, Seq<char>, Seq<char>)>::empty());
                    }
                    while x < lst.len()
                        invariant
                            x <= lst@.len(),
                            distinct_keys(model.relations@),
                            catm == entry_map(model.relations@),
                            key@ == rels@[e as int].0@,
                            e < rels@.len(),
                            lst.deep_view() == rels@[e as int].1.deep_view(),
                            triple_views(errs0) == catalog_errs_entries(
                                rels@.take(e as int),
                                id@,
                                catm,
                            ),
                            newl.deep_view() == catalog_list(
                                lst.deep_view().take(x as int),
                                id@,
                                key@,
                                catm,
                            ),
                            triple_views(errors@) == triple_views(errs0) + catalog_errs_list(
                                lst.deep_view().take(x as int),
                                id@,
                                key@,
                                catm,
                            ),
                        decreases lst@.len() - x,
                    {
                        let ghost tprev = lst.deep_view().take(x as int);
                        proof {
                            assert(lst.deep_view().take(x + 1).drop_last() =~= tprev);
                            assert(lst.deep_view().take(x + 1).last() == lst.deep_view()[x as int]);
                        }
                        let rel = &lst[x];
                        let ghost rv = lst.deep_view()[x as int];
                        proof {
                            assert(rv == lst@[x as int].deep_view());
                            assert(newl.deep_view().len() == catalog_list(
                                lst.deep_view().take(x as int),
                                id@,
                                key@,
                                catm,
                            ).len());
                            assert(lst.deep_view().take(x as int).len() == x);
                            assert(newl@.len() == x);
                        }
                        let popt = rel.parent();
                        match popt {
                            None => {
                                newl.push(rel.duplicate());
                                proof {
                                    assert(catalog_rel(rv, id@, key@, catm) == rv);
                                }
                            },
                            Some(pk) => {
                                match find_index(&model.relations, pk.as_str()) {
                                    Some(ci) => {
                                        proof {
                                            assert(forall|jj: int|
                                                ci < jj < model.relations@.len()
                                                    ==> model.relations@[jj].0@
                                                    != model.relations@[ci as int].0@);
                                            lemma_entry_map_index(model.relations@, ci as int);
                                            assert(catm.contains_key(pk@));
                                        }
                                        let mut cur = rel.duplicate();
                                        cur.left = Some(id.to_owned());
                                        cur.right = Some(key.clone());
                                        proof {
                                            assert(cur.deep_view() =~= RelationV {
                                                left: Some(id@),
                                                right: Some(key@),
                                                ..rv
                                            });
                                        }
                                        let pr = model.relations[ci].1.duplicate();
                                        cur.merge(&pr);
                                        newl.push(cur);
                                        proof {
                                            assert(catm[pk@] == pr.deep_view());
                                            assert(catalog_rel(rv, id@, key@, catm) == rel_merge(
                                                RelationV {
                                                    left: Some(id@),
                                                    right: Some(key@),
                                                    ..rv
                                                },
                                                catm[pk@],
                                            ));
                                        }
                                    },
                                    None => {
                                        proof {
                                            lemma_entry_map_dom(model.relations@, pk@);
                                            assert(!catm.contains_key(pk@));
                                            assert(catalog_rel(rv, id@, key@, catm) == rv);
                                        }
                                        newl.push(rel.duplicate());
                                        let ghost eprev = errors@;
                                        errors.push((id.to_owned(), key.clone(), pk));
                                        proof {
                                            assert(triple_views(errors@) =~= triple_views(eprev)
                                                + seq![(id@, key@, pk@)]);
                                        }
                                    },
                                }
                            },
                        }
                        proof {
                            let prevd = catalog_list(lst.deep_view().take(x as int), id@, key@, catm);
                            let target = catalog_list(lst.deep_view().take(x + 1), id@, key@, catm);
                            assert(newl.deep_view().len() == target.len());
                            assert forall|q: int| 0 <= q < newl.deep_view().len() implies
                                newl.deep_view()[q] == target[q] by {
                                assert(target[q] == catalog_rel(
                                    lst.deep_view().take(x + 1)[q],
                                    id@,
                                    key@,
                                    catm,
                                ));
                                if q < x {
                                    assert(newl.deep_view()[q] == prevd[q]);
                                    assert(prevd[q] == catalog_rel(
                                        lst.deep_view().take(x as int)[q],
                                        id@,
                                        key@,
                                        catm,
                                    ));
                                }
                            }
                            assert(newl.deep_view() =~= target);
                            assert(triple_views(errors@) =~= triple_views(errs0)
                                + catalog_errs_list(lst.deep_view().take(x + 1), id@, key@, catm));
                        }
                        x = x + 1;
                    }
                    proof {
                        assert(lst.deep_view().take(lst@.len() as int) =~= lst.deep_view());
                        assert(rels@.take(e + 1).drop_last() =~= rels@.take(e as int));
                        assert(rels@.take(e + 1).last() == rels@[e as int]);
                        assert(triple_views(errors@) =~= catalog_errs_entries(
                            rels@.take(e + 1),
                            id@,
                            catm,
                        ));
                    }
                    out.push((key, newl));
                    e = e + 1;
                }
                proof {
                    assert(rels@.take(rels@.len() as int) =~= rels@);
                    assert(distinct_keys(out@));
                    assert forall|k: Seq<char>|
                        entry_map(out@).contains_key(k) == #[trigger] catalog_rels_map(
                        entry_map(rels@),
                        id@,
                        catm,
                    ).contains_key(k) by {
                        lemma_entry_map_dom(out@, k);
                        lemma_entry_map_dom(rels@, k);
                        if crate::keyed::has_key(out@, k) {
                            let i = choose|i: int| 0 <= i < out@.len() && out@[i].0@ == k;
                            assert(rels@[i].0@ == k);
                        }
                        if crate::keyed::has_key(rels@, k) {
                            let i = choose|i: int| 0 <= i < rels@.len() && rels@[i].0@ == k;
                            assert(out@[i].0@ == k);
                        }
                    }
                    assert forall|k: Seq<char>| #[trigger] entry_map(out@).contains_key(k) implies
                        entry_map(out@)[k] == catalog_rels_map(entry_map(rels@), id@, catm)[k] by {
                        lemma_entry_map_dom(out@, k);
                        let i = choose|i: int| 0 <= i < out@.len() && out@[i].0@ == k;
                        assert(rels@[i].0@ == k);
                        assert(forall|jj: int| i < jj < out@.len() ==> out@[jj].0@ != out@[i].0@);
                        lemma_entry_map_index(out@, i);
                        lemma_entry_map_index(rels@, i);
                    }
                    assert(entry_map(out@) =~= catalog_rels_map(entry_map(rels@), id@, catm));
                    assert(Some(entry_map(out@)) == node_catalog(old(self)@, id@, catm).relations);
                    assert(triple_views(errors@) == catalog_errs(old(self).relations, id@, catm));
                }
                Some(out)
            },
        };
        self.relations = new_rels;
        proof {
            assert(self@ =~= node_catalog(old(self)@, id@, catm));
        }
        if errors.is_empty() {
            Ok(())
        } else {
            proof {
                assert(triple_views(errors@).len() == errors@.len());
            }
            Err(Error::NodeRelationHasUnknownParent { list: errors })
        }
    }
}

/// One parent relation instance propagated into a child's list under one
/// catalog key: when the child already holds an instance under the key,
/// the first one is stamped with the child node's id and the parent's
/// fields are merged into it, fill-if-absent; otherwise the parent's
/// instance is cloned into the list.
pub open spec fn prop_one(list: Seq<RelationV>, id: Seq<char>, p: RelationV) -> Seq<RelationV> {
    if list.len() > 0 {
        list.update(0, rel_merge(RelationV { left: Some(id), ..list[0] }, p))
    } else {
        list.push(p)
    }
}

/// A parent's relation list propagated into a child's list, instance by
/// instance in order.
pub open spec fn prop_list(list: Seq<RelationV>, id: Seq<char>, ps: Seq<RelationV>) -> Seq<
    RelationV,
>
    decreases ps.len(),
{
    if ps.len() == 0 {
        list
    } else {
        prop_list(prop_one(list, id, ps[0]), id, ps.drop_first())
    }
}

proof fn lemma_prop_list_snoc(list: Seq<RelationV>, id: Seq<char>, ps: Seq<RelationV>, p: RelationV)
    ensures
        prop_list(list, id, ps.push(p)) == prop_one(prop_list(list, id, ps), id, p),
    decreases ps.len(),
{
    if ps.len() == 0 {
        assert(ps.push(p)[0] == p);
        assert(ps.push(p).drop_first() =~= Seq::<RelationV>::empty());
        assert(prop_list(list, id, ps.push(p)) == prop_list(
            prop_one(list, id, p),
            id,
            ps.push(p).drop_first(),
        ));
        assert(prop_list(prop_one(list, id, p), id, Seq::<RelationV>::empty()) == prop_one(
            list,
            id,
            p,
        ));
        assert(prop_list(list, id, ps) == list);
    } else {
        assert(ps.push(p)[0] == ps[0]);
        assert(ps.push(p).drop_first() =~= ps.drop_first().push(p));
        assert(prop_list(list, id, ps.push(p)) == prop_list(
            prop_one(list, id, ps[0]),
            id,
            ps.drop_first().push(p),
        ));
        lemma_prop_list_snoc(prop_one(list, id, ps[0]), id, ps.drop_first(), p);
        assert(prop_list(list, id, ps) == prop_list(
            prop_one(list, id, ps[0]),
            id,
            ps.drop_first(),
        ));
    }
}

/// The value of `m` at `k`, or the empty list.
pub open spec fn at_or_empty(m: Map<Seq<char>, Seq<RelationV>>, k: Seq<char>) -> Seq<RelationV> {
    if m.contains_key(k) {
        m[k]
    } else {
        Seq::empty()
    }
}

/// A child's relations map after every relation list of the parent's map
/// has been propagated into it, key by key.
pub open spec fn prop_map(
    child: Map<Seq<char>, Seq<RelationV>>,
    id: Seq<char>,
    parent: Map<Seq<char>, Seq<RelationV>>,
) -> Map<Seq<char>, Seq<RelationV>> {
    Map::new(
        |k: Seq<char>| child.contains_key(k) || parent.contains_key(k),
        |k: Seq<char>| prop_list(at_or_empty(child, k), id, at_or_empty(parent, k)),
    )
}

/// `prop_map` computed as a fold over the parent's entry list.
pub open spec fn prop_fold(
    cm: Map<Seq<char>, Seq<RelationV>>,
    id: Seq<char>,
    entries: Seq<(String, Vec<Relation>)>,
) -> Map<Seq<char>, Seq<RelationV>>
    decreases entries.len(),
{
    if entries.len() == 0 {
        cm
    } else {
        let prev = prop_fold(cm, id, entries.drop_last());
        let k = entries.last().0@;
        prev.insert(k, prop_list(at_or_empty(prev, k), id, entries.last().1.deep_view()))
    }
}

proof fn lemma_prop_fold_untouched(
    cm: Map<Seq<char>, Seq<RelationV>>,
    id: Seq<char>,
    entries: Seq<(String, Vec<Relation>)>,
    k: Seq<char>,
)
    requires
        !crate::keyed::has_key(entries, k),
    ensures
        prop_fold(cm, id, entries).contains_key(k) == cm.contains_key(k),
        cm.contains_key(k) ==> prop_fold(cm, id, entries)[k] == cm[k],
    decreases entries.len(),
{
    if entries.len() > 0 {
        assert(entries[entries.len() - 1].0@ != k);
        assert(!crate::keyed::has_key(entries.drop_last(), k)) by {
            if crate::keyed::has_key(entries.drop_last(), k) {
                let i = choose|i: int|
                    0 <= i < entries.drop_last().len() && entries.drop_last()[i].0@ == k;
                assert(entries[i].0@ == k);
            }
        }
        lemma_prop_fold_untouched(cm, id, entries.drop_last(), k);
    }
}

proof fn lemma_prop_fold_map(
    cm: Map<Seq<char>, Seq<RelationV>>,
    id: Seq<char>,
    entries: Seq<(String, Vec<Relation>)>,
)
    requires
        distinct_keys(entries),
    ensures
        prop_fold(cm, id, entries) == prop_map(cm, id, entry_map(entries)),
    decreases entries.len(),
{
    if entries.len() == 0 {
        assert(prop_fold(cm, id, entries) =~= prop_map(cm, id, entry_map(entries)));
    } else {
        let rest = entries.drop_last();
        lemma_prop_fold_map(cm, id, rest);
        let lk = entries.last().0@;
        let lv = entries.last().1.deep_view();
        let prev = prop_fold(cm, id, rest);
        assert(!crate::keyed::has_key(rest, lk)) by {
            if crate::keyed::has_key(rest, lk) {
                let i = choose|i: int| 0 <= i < rest.len() && rest[i].0@ == lk;
                assert(entries[i].0@ == lk);
            }
        }
        lemma_prop_fold_untouched(cm, id, rest, lk);
        lemma_entry_map_dom(rest, lk);
        assert(at_or_empty(prev, lk) == at_or_empty(cm, lk)) by {
            if cm.contains_key(lk) {
                assert(prop_map(cm, id, entry_map(rest))[lk] == prop_list(
                    at_or_empty(cm, lk),
                    id,
                    at_or_empty(entry_map(rest), lk),
                ));
            }
        }
        assert forall|k: Seq<char>| #![auto]
            prop_fold(cm, id, entries).contains_key(k) == prop_map(
            cm,
            id,
            entry_map(entries),
        ).contains_key(k) by {
            if k != lk {
                lemma_entry_map_dom(rest, k);
                lemma_entry_map_dom(entries, k);
                assert(crate::keyed::has_key(rest, k) == crate::keyed::has_key(entries, k)) by {
                    if crate::keyed::has_key(rest, k) {
                        let i = choose|i: int| 0 <= i < rest.len() && rest[i].0@ == k;
                        assert(entries[i].0@ == k);
                    }
                    if crate::keyed::has_key(entries, k) {
                        let i = choose|i: int| 0 <= i < entries.len() && entries[i].0@ == k;
                        assert(i < rest.len() && rest[i].0@ == k);
                    }
                }
            }
        }
        assert forall|k: Seq<char>| #[trigger]
            prop_fold(cm, id, entries).contains_key(k) implies prop_fold(cm, id, entries)[k]
            == prop_map(cm, id, entry_map(entries))[k] by {
            if k != lk {
                lemma_entry_map_dom(rest, k);
                lemma_entry_map_dom(entries, k);
            }
        }
        assert(prop_fold(cm, id, entries) =~= prop_map(cm, id, entry_map(entries)));
    }
}

/// The fully-resolved parent node that `v` names, if it exists in `m`.
pub open spec fn parent_node(v: NodeV, m: ModelV) -> Option<NodeV> {
    match v.parent {
        Some(pk) => {
            if m.nodes.contains_key(pk) {
                Some(m.nodes[pk])
            } else {
                None
            }
        },
        None => None,
    }
}

/// The relations map of an optional parent node, or the empty map.
pub open spec fn parent_rels(po: Option<NodeV>) -> Map<Seq<char>, Seq<RelationV>> {
    match po {
        Some(p) => match p.relations {
            Some(m) => m,
            None => Map::empty(),
        },
        None => Map::empty(),
    }
}

/// A node after the parent-node propagation pass: every relation list of
/// the resolved parent node is propagated into the child's map; a child
/// without a relations map of its own receives the parent's instances in
/// a fresh map.
pub open spec fn node_propagate(v: NodeV, id: Seq<char>, po: Option<NodeV>) -> NodeV {
    match v.relations {
        Some(cm) => NodeV { relations: Some(prop_map(cm, id, parent_rels(po))), ..v },
        None => match po {
            Some(pn) => match pn.relations {
                Some(pm) => NodeV {
                    relations: Some(prop_map(Map::empty(), id, pm)),
                    ..v
                },
                None => v,
            },
            None => v,
        },
    }
}

/// `lwork` with the instance at `xi` stamped with `id` and merged with `p`.
fn replace_merged(lwork: &Vec<Relation>, xi: usize, id: &str, p: &Relation) -> (r: Vec<Relation>)
    requires
        xi < lwork@.len(),
    ensures
        r.deep_view() == lwork.deep_view().update(
            xi as int,
            rel_merge(
                RelationV { left: Some(id@), ..lwork.deep_view()[xi as int] },
                p.deep_view(),
            ),
        ),
{
    let mut out: Vec<Relation> = Vec::new();
    let mut q: usize = 0;
    let ghost merged = rel_merge(
        RelationV { left: Some(id@), ..lwork.deep_view()[xi as int] },
        p.deep_view(),
    );
    while q < lwork.len()
        invariant
            q <= lwork@.len(),
            xi < lwork@.len(),
            out@.len() == q,
            merged == rel_merge(
                RelationV { left: Some(id@), ..lwork.deep_view()[xi as int] },
                p.deep_view(),
            ),
            forall|k: int|
                0 <= k < q ==> out.deep_view()[k] == if k == xi {
                    merged
                } else {
                    lwork.deep_view()[k]
                },
        decreases lwork@.len() - q,
    {
        let ghost outprev = out.deep_view();
        if q == xi {
            let mut cur = lwork[q].duplicate();
            cur.left = Some(id.to_owned());
            proof {
                assert(lwork.deep_view()[q as int] == lwork@[q as int].deep_view());
                assert(cur.deep_view() =~= RelationV {
                    left: Some(id@),
                    ..lwork.deep_view()[xi as int]
                });
            }
            cur.merge(p);
            out.push(cur);
        } else {
            out.push(lwork[q].duplicate());
            proof {
                assert(lwork.deep_view()[q as int] == lwork@[q as int].deep_view());
            }
        }
        proof {
            assert(out@.len() == q + 1);
            assert forall|k: int|
                0 <= k < q + 1 implies out.deep_view()[k] == (if k == xi {
                merged
            } else {
                lwork.deep_view()[k]
            }) by {
                assert(out.deep_view()[k] == out@[k].deep_view());
                if k < q {
                    assert(outprev[k] == out@[k].deep_view());
                    assert(outprev[k] == (if k == xi {
                        merged
                    } else {
                        lwork.deep_view()[k]
                    }));
                }
            }
        }
        q = q + 1;
    }
    proof {
        assert(out.deep_view() =~= lwork.deep_view().update(xi as int, merged));
    }
    out
}

impl Node {
    /// The parent-node propagation pass for one node: every relation
    /// instance of the node's resolved parent is propagated down — merged,
    /// fill-if-absent, into the child's first existing instance under the
    /// same catalog key with `left` stamped, or cloned into the child's
    /// relation set, creating the set when the child has none. A node
    /// without a parent, or whose parent is unknown or bare, is untouched.
    pub fn merge_relations_with_parent(&mut self, id: &str, model: &Model)
        requires
            old(self).wf(),
            model.wf(),
        ensures
            final(self).wf(),
            final(self)@ == node_propagate(old(self)@, id@, parent_node(old(self)@, model@)),
    {
        let pkopt = clone_opt_string(&self.parent);
        let pk = match pkopt {
            None => {
                proof {
                    let po = parent_node(self@, model@);
                    if self.relations is Some {
                        let cm0 = entry_map(self.relations.unwrap()@);
                        assert(prop_map(cm0, id@, parent_rels(po)) =~= cm0);
                    }
                    assert(self@ =~= node_propagate(self@, id@, po));
                }
                return ;
            },
            Some(pk) => pk,
        };
        let pi = match find_index(&model.nodes, pk.as_str()) {
            None => {
                proof {
                    crate::keyed::lemma_entry_map_dom(model.nodes@, pk@);
                    let po = parent_node(self@, model@);
                    assert(po is None);
                    if self.relations is Some {
                        let cm0 = entry_map(self.relations.unwrap()@);
                        assert(prop_map(cm0, id@, parent_rels(po)) =~= cm0);
                    }
                    assert(self@ =~= node_propagate(self@, id@, po));
                }
                return ;
            },
            Some(pi) => pi,
        };
        proof {
            assert(forall|jj: int|
                pi < jj < model.nodes@.len() ==> model.nodes@[jj].0@ != model.nodes@[pi as int].0@);
            lemma_entry_map_index(model.nodes@, pi as int);
        }
        let pnode = &model.nodes[pi].1;
        let prels = match &pnode.relations {
            None => {
                proof {
                    let po = parent_node(self@, model@);
                    assert(parent_rels(po) =~= Map::<Seq<char>, Seq<RelationV>>::empty());
                    if self.relations is Some {
                        let cm0 = entry_map(self.relations.unwrap()@);
                        assert(prop_map(cm0, id@, parent_rels(po)) =~= cm0);
                    }
                    assert(self@ =~= node_propagate(self@, id@, po));
                }
                return ;
            },
            Some(prels) => prels,
        };
        let mut mine: Vec<(String, Vec<Relation>)> = match &self.relations {
            Some(v) => clone_rel_entries(v),
            None => Vec::new(),
        };
        let ghost cm0: Map<Seq<char>, Seq<RelationV>> = match &self.relations {
            Some(v) => entry_map(v@),
            None => Map::empty(),
        };
        let mut e: usize = 0;
        proof {
            assert((model.nodes@[pi as int].1).wf());
            if self.relations is None {
                assert(entry_map(mine@) =~= cm0);
            }
            assert(entry_map(mine@) == prop_fold(cm0, id@, prels@.take(0)));
        }
        while e < prels.len()
            invariant
                e <= prels@.len(),
                distinct_keys(mine@),
                entry_map(mine@) == prop_fold(cm0, id@, prels@.take(e as int)),
            decreases prels@.len() - e,
        {
            let key = prels[e].0.clone();
            let plist = &prels[e].1;
            let ghost mprev = entry_map(mine@);
            let mut lwork: Vec<Relation> = match find_index(&mine, key.as_str()) {
                Some(mi) => {
                    proof {
                        assert(forall|jj: int| mi < jj < mine@.len() ==> mine@[jj].0@ != mine@[mi as int].0@);
                        lemma_entry_map_index(mine@, mi as int);
                    }
                    clone_relations(&mine[mi].1)
                },
                None => {
                    proof {
                        crate::keyed::lemma_entry_map_dom(mine@, key@);
                    }
                    Vec::new()
                },
            };
            let ghost l0 = lwork.deep_view();
            proof {
                assert(l0 == at_or_empty(mprev, key@));
                assert(lwork.deep_view() == prop_list(l0, id@, plist.deep_view().take(0)));
            }
            let mut x: usize = 0;
            while x < plist.len()
                invariant
                    x <= plist@.len(),
                    lwork.deep_view() == prop_list(l0, id@, plist.deep_view().take(x as int)),
                decreases plist@.len() - x,
            {
                let p = &plist[x];
                let ghost lw = lwork.deep_view();
                let ghost ps = plist.deep_view().take(x as int);
                if lwork.len() > 0 {
                    lwork = replace_merged(&lwork, 0, id, p);
                } else {
                    lwork.push(p.duplicate());
                }
                proof {
                    assert(plist.deep_view().take(x + 1) =~= ps.push(plist.deep_view()[x as int]));
                    lemma_prop_list_snoc(l0, id@, ps, plist.deep_view()[x as int]);
                    assert(lwork.deep_view() =~= prop_one(lw, id@, plist.deep_view()[x as int]));
                }
                x = x + 1;
            }
            proof {
                assert(plist.deep_view().take(plist@.len() as int) =~= plist.deep_view());
            }
            let ghost mentries = mine@;
            let ghost keyg = key;
            let ghost lworkg = lwork;
            crate::keyed::upsert(&mut mine, key, lwork);
            proof {
                crate::keyed::lemma_entry_map_upsert(mentries, keyg, lworkg);
                assert(entry_map(mine@) == mprev.insert(keyg@, lworkg.deep_view()));
                assert(prels@.take(e + 1).drop_last() =~= prels@.take(e as int));
                assert(prels@.take(e + 1).last() == prels@[e as int]);
                assert(entry_map(mine@) == prop_fold(cm0, id@, prels@.take(e + 1)));
            }
            e = e + 1;
        }
        proof {
            assert(prels@.take(prels@.len() as int) =~= prels@);
            lemma_prop_fold_map(cm0, id@, prels@);
        }
        self.relations = Some(mine);
        proof {
            assert(self@ =~= node_propagate(old(self)@, id@, parent_node(old(self)@, model@)));
        }
    }
}

impl Merge for Node {
    open spec fn sparent(v: NodeV) -> Option<Seq<char>> {
        v.parent
    }

    open spec fn smerge(child: NodeV, parent: NodeV) -> NodeV {
        node_merge(child, parent)
    }

    open spec fn swf(&self) -> bool {
        self.wf()
    }

    fn parent(&self) -> (r: Option<String>) {
        clone_opt_string(&self.parent)
    }

    fn merge(&mut self, parent: &Self) {
        if self.name.is_none() {
            self.name = clone_opt_string(&parent.name);
        }
        if self.description.is_none() {
            self.description = clone_opt_string(&parent.description);
        }
        if self.technology.is_none() {
            self.technology = clone_opt_string(&parent.technology);
        }
        if self.definition.is_none() {
            self.definition = clone_opt_string(&parent.definition);
        }
        proof {
            assert(self.deep_view() =~= node_merge(old(self).deep_view(), parent.deep_view()));
        }
    }

    fn duplicate(&self) -> (r: Self) {
        let relations = match &self.relations {
            Some(v) => Some(clone_rel_entries(v)),
            None => None,
        };
        let r = Node {
            id: clone_opt_string(&self.id),
            parent: clone_opt_string(&self.parent),
            name: clone_opt_string(&self.name),
            description: clone_opt_string(&self.description),
            technology: clone_opt_string(&self.technology),
            relations,
            definition: clone_opt_string(&self.definition),
        };
        proof {
            assert(r.deep_view() =~= self.deep_view());
            assert(r.swf() == self.swf()) by {
                if self.relations is Some {
                    let a = self.relations.unwrap()@;
                    let b = r.relations.unwrap()@;
                    assert(b.len() == a.len());
                    assert forall|i: int, j: int|
                        0 <= i < j < a.len() implies (a[i].0@ != a[j].0@) == (b[i].0@
                        != b[j].0@) by {
                        assert(b[i].0 == a[i].0);
                        assert(b[j].0 == a[j].0);
                    }
                }
            }
        }
        r
    }
}

} // verus!
