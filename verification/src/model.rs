//! The aggregate root: one build's relations catalog, nodes and diagrams,
//! each a keyed entry list, together with aggregation of fragments and the
//! assembly of per-diagram definition blocks.

use vstd::prelude::*;
use crate::keyed::entry_map;
use crate::keyed::distinct_keys;
use crate::keyed::has_key;
use crate::keyed::find_index;
use crate::keyed::union_entries;
use crate::Error;
use crate::merge::Merge;
use crate::node::Node;
use crate::node::NodeV;
use crate::relation::Relation;
use crate::relation::RelationV;
use crate::relation::tag_set;
use crate::text::split_lines;
use crate::text::trim_seq;
use crate::text::sort_strs;
use crate::text::str_views;

verus! {

/// The specification-level reading of a [`Model`]: three maps keyed by the
/// characters of the entry keys.
#[verifier::ext_equal]
pub ghost struct ModelV {
    pub relations: Map<Seq<char>, RelationV>,
    pub nodes: Map<Seq<char>, NodeV>,
    pub diagrams: Map<Seq<char>, Seq<char>>,
}

/// The aggregate root of one build: the relation catalog, the nodes and
/// the diagram bodies, rebuilt from scratch on every build.
#[derive(Debug)]
pub struct Model {
    pub relations: Vec<(String, Relation)>,
    pub nodes: Vec<(String, Node)>,
    pub diagrams: Vec<(String, String)>,
}

impl View for Model {
    type V = ModelV;

    open spec fn view(&self) -> ModelV {
        ModelV {
            relations: entry_map(self.relations@),
            nodes: entry_map(self.nodes@),
            diagrams: entry_map(self.diagrams@),
        }
    }
}

impl Model {
    /// Well-formed: the three collections are keyed by pairwise-distinct
    /// keys and every node's relation lists are too.
    pub open spec fn wf(&self) -> bool {
        &&& distinct_keys(self.relations@)
        &&& distinct_keys(self.nodes@)
        &&& distinct_keys(self.diagrams@)
        &&& forall|i: int| 0 <= i < self.nodes@.len() ==> (#[trigger] self.nodes@[i].1).wf()
    }
}

/// The set of keys of a node entry list.
pub open spec fn nodes_dom(s: Seq<(String, Node)>) -> Set<Seq<char>> {
    Set::new(|k: Seq<char>| has_key(s, k))
}

/// Every line trimmed.
pub open spec fn trims_of(lines: Seq<Seq<char>>) -> Seq<Seq<char>> {
    Seq::new(lines.len(), |i: int| trim_seq(lines[i]))
}

/// The trimmed lines that name an existing node, first occurrence only,
/// appended to `acc` in reading order.
pub open spec fn members_acc(
    ts: Seq<Seq<char>>,
    dom: Set<Seq<char>>,
    acc: Seq<Seq<char>>,
) -> Seq<Seq<char>>
    decreases ts.len(),
{
    if ts.len() == 0 {
        acc
    } else {
        members_acc(
            ts.drop_first(),
            dom,
            if dom.contains(ts[0]) && !acc.contains(ts[0]) {
                acc.push(ts[0])
            } else {
                acc
            },
        )
    }
}

proof fn lemma_members_acc_dom(ts: Seq<Seq<char>>, dom: Set<Seq<char>>, acc: Seq<Seq<char>>)
    requires
        forall|t: Seq<char>| acc.contains(t) ==> dom.contains(t),
    ensures
        forall|t: Seq<char>| members_acc(ts, dom, acc).contains(t) ==> dom.contains(t),
    decreases ts.len(),
{
    if ts.len() > 0 {
        if dom.contains(ts[0]) && !acc.contains(ts[0]) {
            assert forall|t: Seq<char>| acc.push(ts[0]).contains(t) implies dom.contains(t) by {
                let i = choose|i: int| 0 <= i < acc.push(ts[0]).len() && acc.push(ts[0])[i] == t;
                if i < acc.len() {
                    assert(acc[i] == t);
                }
            }
            lemma_members_acc_dom(ts.drop_first(), dom, acc.push(ts[0]));
        } else {
            lemma_members_acc_dom(ts.drop_first(), dom, acc);
        }
    }
}

/// The diagram's member node ids: the trimmed lines of `body` that name an
/// existing node, without repetitions, sorted.
pub open spec fn member_ids(nodes: Seq<(String, Node)>, body: Seq<char>) -> Seq<Seq<char>> {
    sort_strs(members_acc(trims_of(split_lines(body)), nodes_dom(nodes), Seq::empty()))
}

/// Every member id names an existing node.
pub proof fn lemma_member_ids_dom(nodes: Seq<(String, Node)>, body: Seq<char>, t: Seq<char>)
    requires
        member_ids(nodes, body).contains(t),
    ensures
        has_key(nodes, t),
{
    let raw = members_acc(trims_of(split_lines(body)), nodes_dom(nodes), Seq::empty());
    crate::text::lemma_sort_strs_contains(raw, t);
    assert(raw.contains(t));
    assert(forall|x: Seq<char>| !Seq::<Seq<char>>::empty().contains(x));
    lemma_members_acc_dom(trims_of(split_lines(body)), nodes_dom(nodes), Seq::empty());
    assert(nodes_dom(nodes).contains(t));
}

/// Computes the member node ids of a diagram body: the trimmed lines that
/// name an existing node, first occurrences, sorted.
fn compute_members(nodes: &Vec<(String, Node)>, body: &str) -> (r: Vec<String>)
    ensures
        str_views(r@) == member_ids(nodes@, body@),
{
    let tl = crate::text::trimmed_lines(body);
    let ghost trims = trims_of(split_lines(body@));
    let mut mem: Vec<String> = Vec::new();
    let mut i: usize = 0;
    proof {
        assert(trims.skip(0) =~= trims);
        assert(str_views(mem@) =~= Seq::<Seq<char>>::empty());
    }
    while i < tl.len()
        invariant
            i <= tl@.len(),
            tl@.len() == trims.len(),
            trims == trims_of(split_lines(body@)),
            forall|k: int| 0 <= k < tl@.len() ==> tl@[k]@ == trims[k],
            members_acc(trims, nodes_dom(nodes@), Seq::empty()) == members_acc(
                trims.skip(i as int),
                nodes_dom(nodes@),
                str_views(mem@),
            ),
        decreases tl@.len() - i,
    {
        let t = tl[i];
        let ghost accv = str_views(mem@);
        proof {
            assert(trims.skip(i as int)[0] == trims[i as int]);
            assert(trims.skip(i as int).drop_first() =~= trims.skip(i + 1));
        }
        let known = match find_index(nodes, t) {
            Some(_) => true,
            None => false,
        };
        proof {
            assert(known == nodes_dom(nodes@).contains(t@));
        }
        if known {
            let dup = crate::relation::vec_has_str(&mem, t);
            proof {
                assert(dup == accv.contains(t@)) by {
                    if crate::relation::tag_set(mem@).contains(t@) {
                        let q = choose|q: int| 0 <= q < mem@.len() && mem@[q]@ == t@;
                        assert(accv[q] == t@);
                    }
                    if accv.contains(t@) {
                        let q = choose|q: int| 0 <= q < accv.len() && accv[q] == t@;
                        assert(mem@[q]@ == t@);
                    }
                }
            }
            if !dup {
                mem.push(t.to_owned());
                proof {
                    assert(str_views(mem@) =~= accv.push(t@));
                }
            }
        }
        i = i + 1;
    }
    proof {
        assert(trims.skip(trims.len() as int) =~= Seq::<Seq<char>>::empty());
    }
    crate::text::sort_strings(&mem)
}

/// The relation entries of the fragments, unioned in order: colliding keys
/// are overwritten, the last fragment winning.
pub open spec fn union_rels(frags: Seq<Model>) -> Seq<(String, Relation)>
    decreases frags.len(),
{
    if frags.len() == 0 {
        Seq::empty()
    } else {
        union_entries(union_rels(frags.drop_last()), frags.last().relations@)
    }
}

/// The node entries of the fragments, unioned in order.
pub open spec fn union_nodes(frags: Seq<Model>) -> Seq<(String, Node)>
    decreases frags.len(),
{
    if frags.len() == 0 {
        Seq::empty()
    } else {
        union_entries(union_nodes(frags.drop_last()), frags.last().nodes@)
    }
}

/// The diagram entries of the fragments, unioned in order.
pub open spec fn union_diags(frags: Seq<Model>) -> Seq<(String, String)>
    decreases frags.len(),
{
    if frags.len() == 0 {
        Seq::empty()
    } else {
        union_entries(union_diags(frags.drop_last()), frags.last().diagrams@)
    }
}

/// Whether every node value of a model fragment is well-formed.
pub open spec fn nodes_wf(s: Seq<(String, Node)>) -> bool {
    forall|i: int| 0 <= i < s.len() ==> (#[trigger] s[i].1).wf()
}

impl Model {
    /// Aggregates model fragments into one model: the three collections are
    /// unioned by key, a colliding key silently overwritten by the later
    /// fragment.
    pub fn aggregate(fragments: Vec<Model>) -> (m: Model)
        requires
            forall|f: int| 0 <= f < fragments@.len() ==> nodes_wf(#[trigger] fragments@[f].nodes@),
        ensures
            m.relations@ == union_rels(fragments@),
            m.nodes@ == union_nodes(fragments@),
            m.diagrams@ == union_diags(fragments@),
            m.wf(),
    {
        let ghost forig = fragments@;
        let mut frags = fragments;
        let total = frags.len();
        let mut m = Model { relations: Vec::new(), nodes: Vec::new(), diagrams: Vec::new() };
        let ghost consumed: int = 0;
        let mut done: usize = 0;
        proof {
            assert(forig.take(0) =~= Seq::<Model>::empty());
        }
        while frags.len() > 0
            invariant
                done <= forig.len(),
                forig.len() == total,
                frags@ =~= forig.skip(done as int),
                m.relations@ == union_rels(forig.take(done as int)),
                m.nodes@ == union_nodes(forig.take(done as int)),
                m.diagrams@ == union_diags(forig.take(done as int)),
                distinct_keys(m.relations@),
                distinct_keys(m.nodes@),
                distinct_keys(m.diagrams@),
                nodes_wf(m.nodes@),
                forall|f: int| 0 <= f < forig.len() ==> nodes_wf(#[trigger] forig[f].nodes@),
            decreases frags@.len(),
        {
            let ghost fpre = frags@;
            let f = frags.remove(0);
            proof {
                assert(frags@ =~= fpre.drop_first());
                assert(f == forig[done as int]);
                assert(forig.take(done + 1).drop_last() =~= forig.take(done as int));
                assert(forig.take(done + 1).last() == forig[done as int]);
            }
            let ghost nodes_pre = m.nodes@;
            let ghost fnodes = f.nodes@;
            crate::keyed::absorb(&mut m.relations, f.relations);
            crate::keyed::absorb(&mut m.nodes, f.nodes);
            crate::keyed::absorb(&mut m.diagrams, f.diagrams);
            proof {
                crate::keyed::lemma_union_entries_values(
                    nodes_pre,
                    fnodes,
                    |n: Node| n.wf(),
                );
                assert(fpre.len() == forig.len() - done);
            }
            done = done + 1;
        }
        proof {
            assert(forig.take(forig.len() as int) =~= forig);
        }
        m
    }
}

/// The relation list `res` is `orig` with every parent chain resolved.
pub open spec fn rels_resolved_chain(
    orig: Seq<(String, Relation)>,
    res: Seq<(String, Relation)>,
) -> bool {
    &&& res.len() == orig.len()
    &&& forall|i: int| 0 <= i < orig.len() ==> #[trigger] res[i].0 == orig[i].0
    &&& forall|i: int|
        0 <= i < orig.len() ==> crate::merge::resolves_to::<Relation>(
            entry_map(orig),
            (#[trigger] orig[i].1).deep_view(),
            res[i].1.deep_view(),
        )
}

/// The catalog-pass error triples across a node list, in entry order.
pub open spec fn pass1_all_errs(
    nodes: Seq<(String, Node)>,
    cat: Map<Seq<char>, RelationV>,
) -> Seq<(Seq<char>, Seq<char>, Seq<char>)>
    decreases nodes.len(),
{
    if nodes.len() == 0 {
        Seq::empty()
    } else {
        pass1_all_errs(nodes.drop_last(), cat) + crate::node::catalog_errs(
            nodes.last().1.relations,
            nodes.last().0@,
            cat,
        )
    }
}

/// The unique resolution of a node view against a node collection.
pub open spec fn node_resolved(m: Map<Seq<char>, NodeV>, v: NodeV) -> NodeV {
    choose|r: NodeV| crate::merge::resolves_to::<Node>(m, v, r)
}

/// The node list `base` is `orig` with every parent chain resolved and
/// every node's id stamped with its key.
pub open spec fn merged_ids_chain(orig: Seq<(String, Node)>, base: Seq<(String, Node)>) -> bool {
    &&& base.len() == orig.len()
    &&& forall|i: int| 0 <= i < orig.len() ==> #[trigger] base[i].0 == orig[i].0
    &&& forall|i: int| 0 <= i < orig.len() ==> (#[trigger] base[i].1).wf()
    &&& forall|i: int|
        0 <= i < orig.len() ==> {
            &&& crate::merge::resolvable::<Node>(
                entry_map(orig),
                (#[trigger] orig[i].1).deep_view(),
            )
            &&& base[i].1@ == (NodeV {
                id: Some(orig[i].0@),
                ..node_resolved(entry_map(orig), orig[i].1.deep_view())
            })
        }
}

/// The node list `mid` is `base` after the catalog resolution pass.
pub open spec fn pass1_chain(
    base: Seq<(String, Node)>,
    mid: Seq<(String, Node)>,
    cat: Map<Seq<char>, RelationV>,
) -> bool {
    &&& mid.len() == base.len()
    &&& forall|i: int| 0 <= i < base.len() ==> #[trigger] mid[i].0 == base[i].0
    &&& forall|i: int| 0 <= i < base.len() ==> (#[trigger] mid[i].1).wf()
    &&& forall|i: int|
        0 <= i < base.len() ==> (#[trigger] mid[i].1)@ == crate::node::node_catalog(
            base[i].1@,
            base[i].0@,
            cat,
        )
}

/// The node list `out` is `mid` after the parent-node propagation pass,
/// with parents looked up in `mid` itself and `rels` the resolved catalog.
pub open spec fn pass2_chain(
    mid: Seq<(String, Node)>,
    out: Seq<(String, Node)>,
    rels: Seq<(String, Relation)>,
    diags: Seq<(String, String)>,
) -> bool {
    &&& out.len() == mid.len()
    &&& forall|i: int| 0 <= i < mid.len() ==> #[trigger] out[i].0 == mid[i].0
    &&& forall|i: int|
        0 <= i < mid.len() ==> (#[trigger] out[i].1)@ == crate::node::node_propagate(
            mid[i].1@,
            mid[i].0@,
            crate::node::parent_node(
                mid[i].1@,
                ModelV {
                    relations: entry_map(rels),
                    nodes: entry_map(mid),
                    diagrams: entry_map(diags),
                },
            ),
        )
}

impl Model {
    /// Resolves the aggregated model in place: the relation catalog and the
    /// nodes are flattened along their parent chains, every node's id is
    /// stamped with its key, then each node's relation instances are
    /// resolved against the catalog, and finally each node inherits its
    /// parent node's relation instances. Fails with every unknown parent
    /// key, or with every relation instance whose catalog parent is
    /// missing, collected across the whole pass.
    pub fn resolve(&mut self) -> (r: Result<(), Error>)
        requires
            old(self).wf(),
        ensures
            ({
                let relmap = entry_map(old(self).relations@);
                let nodemap = entry_map(old(self).nodes@);
                let rels_ok = forall|i: int|
                    0 <= i < old(self).relations@.len() ==> crate::merge::resolvable::<Relation>(
                        relmap,
                        (#[trigger] old(self).relations@[i].1).deep_view(),
                    );
                let nodes_ok = forall|i: int|
                    0 <= i < old(self).nodes@.len() ==> crate::merge::resolvable::<Node>(
                        nodemap,
                        (#[trigger] old(self).nodes@[i].1).deep_view(),
                    );
                match r {
                    Ok(()) => {
                        &&& final(self).wf()
                        &&& final(self).diagrams@ == old(self).diagrams@
                        &&& final(self).relations@.len() == old(self).relations@.len()
                        &&& forall|i: int|
                            0 <= i < old(self).relations@.len()
                                ==> #[trigger] final(self).relations@[i].0
                                == old(self).relations@[i].0
                        &&& forall|i: int|
                            0 <= i < old(self).relations@.len() ==> crate::merge::resolves_to::<
                                Relation,
                            >(
                                relmap,
                                (#[trigger] old(self).relations@[i].1).deep_view(),
                                final(self).relations@[i].1.deep_view(),
                            )
                        &&& exists|base: Seq<(String, Node)>, mid: Seq<(String, Node)>|
                            {
                                &&& merged_ids_chain(old(self).nodes@, base)
                                &&& #[trigger] pass1_chain(
                                    base,
                                    mid,
                                    entry_map(final(self).relations@),
                                )
                                &&& pass1_all_errs(
                                    base,
                                    entry_map(final(self).relations@),
                                ).len() == 0
                                &&& pass2_chain(
                                    mid,
                                    final(self).nodes@,
                                    final(self).relations@,
                                    final(self).diagrams@,
                                )
                            }
                    },
                    Err(e) => match e {
                        Error::NodeHasUnknownParent { list } => {
                            ||| (!rels_ok && crate::merge::pair_views(list@)
                                == crate::merge::unresolved_pairs::<Relation>(
                                old(self).relations@,
                                relmap,
                            ))
                            ||| (rels_ok && !nodes_ok && crate::merge::pair_views(list@)
                                == crate::merge::unresolved_pairs::<Node>(
                                old(self).nodes@,
                                nodemap,
                            ))
                        },
                        Error::NodeRelationHasUnknownParent { list } => {
                            &&& rels_ok
                            &&& nodes_ok
                            &&& rels_resolved_chain(old(self).relations@, final(self).relations@)
                            &&& exists|base: Seq<(String, Node)>|
                                {
                                    &&& #[trigger] merged_ids_chain(old(self).nodes@, base)
                                    &&& crate::node::triple_views(list@) == pass1_all_errs(
                                        base,
                                        entry_map(final(self).relations@),
                                    )
                                }
                            &&& list@.len() > 0
                        },
                        _ => false,
                    },
                }
            }),
    {
        match crate::merge::merge(&mut self.relations) {
            Ok(()) => {},
            Err(e) => {
                return Err(e);
            },
        }
        match crate::merge::merge(&mut self.nodes) {
            Ok(()) => {},
            Err(e) => {
                return Err(e);
            },
        }
        proof {
            assert forall|k: int| 0 <= k < self.nodes@.len() implies (
            #[trigger] self.nodes@[k].1).wf() by {
                assert(self.nodes@[k].1.swf() == old(self).nodes@[k].1.swf());
            }
        }
        let ghost merged_nodes = self.nodes@;
        let mut new_nodes: Vec<(String, Node)> = Vec::new();
        let mut errors: Vec<(String, String, String)> = Vec::new();
        let ghost mut base: Seq<(String, Node)> = Seq::empty();
        let ghost relmap_now = entry_map(self.relations@);
        let mut i: usize = 0;
        while i < self.nodes.len()
            invariant
                old(self).wf(),
                i <= self.nodes@.len(),
                self.wf(),
                relmap_now == entry_map(self.relations@),
                self.nodes@ == merged_nodes,
                merged_nodes.len() == old(self).nodes@.len(),
                forall|k: int|
                    0 <= k < merged_nodes.len() ==> #[trigger] merged_nodes[k].0 == old(
                        self,
                    ).nodes@[k].0,
                forall|k: int|
                    0 <= k < merged_nodes.len() ==> crate::merge::resolves_to::<Node>(
                        entry_map(old(self).nodes@),
                        (#[trigger] old(self).nodes@[k].1).deep_view(),
                        merged_nodes[k].1.deep_view(),
                    ),
                base.len() == i,
                forall|k: int| 0 <= k < i ==> #[trigger] base[k].0 == merged_nodes[k].0,
                forall|k: int| 0 <= k < i ==> (#[trigger] base[k].1).wf(),
                forall|k: int|
                    0 <= k < i ==> (#[trigger] base[k].1)@ == (NodeV {
                        id: Some(merged_nodes[k].0@),
                        ..merged_nodes[k].1@
                    }),
                new_nodes@.len() == i,
                forall|k: int| 0 <= k < i ==> #[trigger] new_nodes@[k].0 == base[k].0,
                forall|k: int| 0 <= k < i ==> (#[trigger] new_nodes@[k].1).wf(),
                forall|k: int|
                    0 <= k < i ==> (#[trigger] new_nodes@[k].1)@ == crate::node::node_catalog(
                        base[k].1@,
                        base[k].0@,
                        relmap_now,
                    ),
                crate::node::triple_views(errors@) == pass1_all_errs(base, relmap_now),
            decreases self.nodes@.len() - i,
        {
            let k = self.nodes[i].0.clone();
            let mut n = self.nodes[i].1.duplicate();
            n.id = Some(k.clone());
            let ghost basenode = n;
            let ghost errs_pre = errors@;
            proof {
                assert(basenode@ =~= NodeV { id: Some(merged_nodes[i as int].0@), ..merged_nodes[i as int].1@ });
                assert(basenode.wf());
            }
            match n.merge_relations(k.as_str(), self) {
                Ok(()) => {},
                Err(e) => {
                    match e {
                        Error::NodeRelationHasUnknownParent { mut list } => {
                            errors.append(&mut list);
                        },
                        _ => {
                            proof {
                                assert(false);
                            }
                        },
                    }
                },
            }
            proof {
                let base_pre = base;
                base = base.push((k, basenode));
                assert(base.drop_last() =~= base_pre);
                assert(base.last() == (k, basenode));
                assert(pass1_all_errs(base, relmap_now) == pass1_all_errs(base_pre, relmap_now)
                    + crate::node::catalog_errs(basenode.relations, k@, relmap_now));
                assert(crate::node::triple_views(errors@) =~= crate::node::triple_views(errs_pre)
                    + crate::node::catalog_errs(basenode.relations, k@, relmap_now)) by {
                    if errors@ == errs_pre {
                        assert(crate::node::catalog_errs(basenode.relations, k@, relmap_now)
                            =~= Seq::<(Seq<char>, Seq<char>, Seq<char>)>::empty());
                    }
                }
                assert(crate::node::triple_views(errors@) =~= pass1_all_errs(base, relmap_now));
            }
            new_nodes.push((k, n));
            i = i + 1;
        }
        self.nodes = new_nodes;
        proof {
            assert(merged_ids_chain(old(self).nodes@, base)) by {
                let m = entry_map(old(self).nodes@);
                assert forall|q: int| 0 <= q < old(self).nodes@.len() implies {
                    &&& crate::merge::resolvable::<Node>(
                        m,
                        (#[trigger] old(self).nodes@[q].1).deep_view(),
                    )
                    &&& base[q].1@ == (NodeV {
                        id: Some(old(self).nodes@[q].0@),
                        ..node_resolved(m, old(self).nodes@[q].1.deep_view())
                    })
                } by {
                    let v = old(self).nodes@[q].1.deep_view();
                    let w = merged_nodes[q].1.deep_view();
                    assert(crate::merge::resolves_to::<Node>(m, v, w));
                    assert(crate::merge::resolvable::<Node>(m, v)) by {
                        let f = choose|f: nat|
                            crate::merge::resolve_rec::<Node>(m, v, f) == Some(w);
                        assert(crate::merge::resolve_rec::<Node>(m, v, f) is Some);
                    }
                    assert(crate::merge::resolves_to::<Node>(m, v, node_resolved(m, v)));
                    crate::merge::lemma_resolves_to_unique::<Node>(m, v, node_resolved(m, v), w);
                    assert(merged_nodes[q].0@ == old(self).nodes@[q].0@);
                    assert(base[q].1@ == (NodeV {
                        id: Some(merged_nodes[q].0@),
                        ..merged_nodes[q].1@
                    }));
                }
                assert(base.len() == old(self).nodes@.len());
                assert forall|q: int| 0 <= q < old(self).nodes@.len() implies #[trigger] base[q].0
                    == old(self).nodes@[q].0 by {
                    assert(base[q].0 == merged_nodes[q].0);
                }
            }
        }
        if !errors.is_empty() {
            proof {
                assert(crate::node::triple_views(errors@).len() == errors@.len());
            }
            return Err(Error::NodeRelationHasUnknownParent { list: errors });
        }
        let ghost mid = self.nodes@;
        let mut new2: Vec<(String, Node)> = Vec::new();
        let mut j: usize = 0;
        while j < self.nodes.len()
            invariant
                j <= self.nodes@.len(),
                self.wf(),
                self.nodes@ == mid,
                relmap_now == entry_map(self.relations@),
                new2@.len() == j,
                forall|k: int| 0 <= k < j ==> #[trigger] new2@[k].0 == mid[k].0,
                forall|k: int| 0 <= k < j ==> (#[trigger] new2@[k].1).wf(),
                forall|k: int|
                    0 <= k < j ==> (#[trigger] new2@[k].1)@ == crate::node::node_propagate(
                        mid[k].1@,
                        mid[k].0@,
                        crate::node::parent_node(mid[k].1@, self@),
                    ),
            decreases self.nodes@.len() - j,
        {
            let k = self.nodes[j].0.clone();
            let mut n = self.nodes[j].1.duplicate();
            n.merge_relations_with_parent(k.as_str(), self);
            new2.push((k, n));
            j = j + 1;
        }
        self.nodes = new2;
        proof {
            assert(pass1_chain(base, mid, relmap_now));
            assert(pass2_chain(mid, self.nodes@, self.relations@, self.diagrams@));
            assert(pass1_all_errs(base, relmap_now).len() == 0);
            assert(relmap_now == entry_map(self.relations@));
            assert(distinct_keys(self.nodes@));
            assert(self.wf());
        }
        Ok(())
    }

    /// Builds the resolved model from deserialized fragments: aggregation
    /// by key union, then full resolution.
    pub fn compose(fragments: Vec<Model>) -> (r: Result<Model, Error>)
        requires
            forall|f: int| 0 <= f < fragments@.len() ==> nodes_wf(#[trigger] fragments@[f].nodes@),
        ensures
            ({
                let u_rels = union_rels(fragments@);
                let u_nodes = union_nodes(fragments@);
                let relmap = entry_map(u_rels);
                let nodemap = entry_map(u_nodes);
                let rels_ok = forall|i: int|
                    0 <= i < u_rels.len() ==> crate::merge::resolvable::<Relation>(
                        relmap,
                        (#[trigger] u_rels[i].1).deep_view(),
                    );
                let nodes_ok = forall|i: int|
                    0 <= i < u_nodes.len() ==> crate::merge::resolvable::<Node>(
                        nodemap,
                        (#[trigger] u_nodes[i].1).deep_view(),
                    );
                match r {
                    Ok(m) => {
                        &&& m.wf()
                        &&& m.diagrams@ == union_diags(fragments@)
                        &&& rels_resolved_chain(u_rels, m.relations@)
                        &&& exists|base: Seq<(String, Node)>, mid: Seq<(String, Node)>|
                            {
                                &&& merged_ids_chain(u_nodes, base)
                                &&& #[trigger] pass1_chain(base, mid, entry_map(m.relations@))
                                &&& pass1_all_errs(base, entry_map(m.relations@)).len() == 0
                                &&& pass2_chain(mid, m.nodes@, m.relations@, m.diagrams@)
                            }
                    },
                    Err(e) => match e {
                        Error::NodeHasUnknownParent { list } => {
                            ||| (!rels_ok && crate::merge::pair_views(list@)
                                == crate::merge::unresolved_pairs::<Relation>(u_rels, relmap))
                            ||| (rels_ok && !nodes_ok && crate::merge::pair_views(list@)
                                == crate::merge::unresolved_pairs::<Node>(u_nodes, nodemap))
                        },
                        Error::NodeRelationHasUnknownParent { list } => {
                            &&& rels_ok
                            &&& nodes_ok
                            &&& exists|base: Seq<(String, Node)>, cat: Seq<(String, Relation)>|
                                {
                                    &&& #[trigger] merged_ids_chain(u_nodes, base)
                                    &&& #[trigger] rels_resolved_chain(u_rels, cat)
                                    &&& crate::node::triple_views(list@) == pass1_all_errs(
                                        base,
                                        entry_map(cat),
                                    )
                                }
                            &&& list@.len() > 0
                        },
                        _ => false,
                    },
                }
            }),
    {
        let mut m = Self::aggregate(fragments);
        match m.resolve() {
            Ok(()) => Ok(m),
            Err(e) => {
                proof {
                    if e is NodeRelationHasUnknownParent {
                        assert(rels_resolved_chain(union_rels(fragments@), m.relations@));
                    }
                }
                Err(e)
            },
        }
    }
}

/// Whether two sets share an element.
pub open spec fn sets_intersect(a: Set<Seq<char>>, b: Set<Seq<char>>) -> bool {
    exists|t: Seq<char>| a.contains(t) && b.contains(t)
}

/// Whether a relation passes the tag filter: an empty filter passes
/// everything; otherwise the relation must have tags meeting the filter.
pub open spec fn tag_pass(r: RelationV, tf: Set<Seq<char>>) -> bool {
    tf.is_empty() || (r.tags is Some && sets_intersect(r.tags.unwrap(), tf))
}

/// Whether a relation's target qualifies it for a diagram: the target is a
/// member of the diagram and exists as a node.
pub open spec fn right_pass(r: RelationV, members: Seq<Seq<char>>, nodes: Seq<(String, Node)>) -> bool {
    &&& r.right is Some
    &&& members.contains(r.right.unwrap())
    &&& has_key(nodes, r.right.unwrap())
}

/// Whether a relation instance contributes its definition to a diagram's
/// block: it passes the tag filter, its target is in scope, and it has a
/// definition.
pub open spec fn qualifies(
    r: RelationV,
    tf: Set<Seq<char>>,
    members: Seq<Seq<char>>,
    nodes: Seq<(String, Node)>,
) -> bool {
    tag_pass(r, tf) && right_pass(r, members, nodes) && r.definition is Some
}

/// The definitions of the qualifying relations of one list, in list order.
pub open spec fn qual_list(
    list: Seq<RelationV>,
    tf: Set<Seq<char>>,
    members: Seq<Seq<char>>,
    nodes: Seq<(String, Node)>,
) -> Seq<Seq<char>>
    decreases list.len(),
{
    if list.len() == 0 {
        Seq::empty()
    } else {
        qual_list(list.drop_last(), tf, members, nodes) + {
            if qualifies(list.last(), tf, members, nodes) {
                seq![list.last().definition.unwrap()]
            } else {
                Seq::empty()
            }
        }
    }
}

/// The qualifying definitions across a node's keyed relation lists, in
/// entry order.
pub open spec fn qual_entries(
    s: Seq<(String, Vec<Relation>)>,
    tf: Set<Seq<char>>,
    members: Seq<Seq<char>>,
    nodes: Seq<(String, Node)>,
) -> Seq<Seq<char>>
    decreases s.len(),
{
    if s.len() == 0 {
        Seq::empty()
    } else {
        qual_entries(s.drop_last(), tf, members, nodes) + qual_list(
            s.last().1.deep_view(),
            tf,
            members,
            nodes,
        )
    }
}

/// The qualifying definitions of one node.
pub open spec fn qual_node(
    n: Node,
    tf: Set<Seq<char>>,
    members: Seq<Seq<char>>,
    nodes: Seq<(String, Node)>,
) -> Seq<Seq<char>> {
    match n.relations {
        Some(v) => qual_entries(v@, tf, members, nodes),
        None => Seq::empty(),
    }
}

/// The node stored under key `k`.
pub open spec fn node_at(s: Seq<(String, Node)>, k: Seq<char>) -> Node {
    s[crate::keyed::index_of_key(s, k)].1
}

/// One member's block: the node's own definition, then the sorted
/// qualifying relation definitions, newline-joined.
pub open spec fn member_block(
    n: Node,
    tf: Set<Seq<char>>,
    members: Seq<Seq<char>>,
    nodes: Seq<(String, Node)>,
) -> Seq<char> {
    crate::text::join_nl(n@.definition.unwrap(), sort_strs(qual_node(n, tf, members, nodes)))
}

/// Every member's block, in member order.
pub open spec fn member_blocks(
    nodes: Seq<(String, Node)>,
    members: Seq<Seq<char>>,
    tf: Set<Seq<char>>,
) -> Seq<Seq<char>> {
    Seq::new(members.len(), |i: int| member_block(node_at(nodes, members[i]), tf, members, nodes))
}

/// The assembled definitions block of a diagram: each member's block,
/// preceded by a newline, concatenated in member order.
pub open spec fn assembled_text(
    nodes: Seq<(String, Node)>,
    members: Seq<Seq<char>>,
    tf: Set<Seq<char>>,
) -> Seq<char> {
    crate::text::join_nl(Seq::empty(), member_blocks(nodes, members, tf))
}

/// The first member, in member order, whose node has no definition.
pub open spec fn first_missing(members: Seq<Seq<char>>, nodes: Seq<(String, Node)>) -> Option<
    Seq<char>,
>
    decreases members.len(),
{
    if members.len() == 0 {
        None
    } else if node_at(nodes, members[0])@.definition is None {
        Some(members[0])
    } else {
        first_missing(members.drop_first(), nodes)
    }
}

/// Whether every tag-passing relation of every member node has a target.
pub open spec fn member_rights_ok(
    nodes: Seq<(String, Node)>,
    members: Seq<Seq<char>>,
    tf: Set<Seq<char>>,
) -> bool {
    forall|i: int|
        0 <= i < members.len() ==> node_rights_ok(#[trigger] node_at(nodes, members[i]), tf)
}

/// Whether every tag-passing relation of one node has a target.
pub open spec fn node_rights_ok(n: Node, tf: Set<Seq<char>>) -> bool {
    match n.relations {
        Some(v) => forall|e: int, x: int|
            #![trigger v@[e].1.deep_view()[x]]
            0 <= e < v@.len() && 0 <= x < v@[e].1.deep_view().len() && tag_pass(
                v@[e].1.deep_view()[x],
                tf,
            ) ==> v@[e].1.deep_view()[x].right is Some,
        None => true,
    }
}

impl Model {
    /// Assembles the ordered, tag-filtered definitions block of one
    /// diagram: the member nodes named by the diagram's body lines, in
    /// sorted order, each contributing its own definition followed by its
    /// sorted qualifying relation definitions, every piece preceded by a
    /// newline. Two calls on one model with one filter return the same
    /// text. Fails with the first member node, in order, that has no
    /// definition.
    pub fn diagram_definitions(&self, diagram: &str, tags: &Vec<String>) -> (r: Result<
        String,
        Error,
    >)
        requires
            self.wf(),
            has_key(self.diagrams@, diagram@),
            member_rights_ok(
                self.nodes@,
                member_ids(self.nodes@, entry_map(self.diagrams@)[diagram@]),
                tag_set(tags@),
            ),
        ensures
            ({
                let body = entry_map(self.diagrams@)[diagram@];
                let members = member_ids(self.nodes@, body);
                let tf = tag_set(tags@);
                match r {
                    Ok(s) => first_missing(members, self.nodes@) is None && s@ == assembled_text(
                        self.nodes@,
                        members,
                        tf,
                    ),
                    Err(e) => {
                        &&& first_missing(members, self.nodes@) is Some
                        &&& match e {
                            Error::NodeHasNoDefinition(n) => n@ == node_at(
                                self.nodes@,
                                first_missing(members, self.nodes@).unwrap(),
                            )@,
                            _ => false,
                        }
                    },
                }
            }),
    {
        let ghost tf = tag_set(tags@);
        let di = match find_index(&self.diagrams, diagram) {
            Some(di) => di,
            None => {
                proof {
                    assert(false);
                }
                return Err(Error::Render(String::new()));
            },
        };
        proof {
            assert(forall|jj: int|
                di < jj < self.diagrams@.len() ==> self.diagrams@[jj].0@ != self.diagrams@[di as int].0@);
            crate::keyed::lemma_entry_map_index(self.diagrams@, di as int);
        }
        let ghost body = entry_map(self.diagrams@)[diagram@];
        let body_str = self.diagrams[di].1.as_str();
        let members = compute_members(&self.nodes, body_str);
        let ghost mems = member_ids(self.nodes@, body);
        let ghost blocks = member_blocks(self.nodes@, mems, tf);
        let mut acc = String::new();
        let mut mi: usize = 0;
        proof {
            assert(blocks.skip(0) =~= blocks);
            assert(mems.skip(0) =~= mems);
        }
        while mi < members.len()
            invariant
                self.wf(),
                mi <= members@.len(),
                str_views(members@) == mems,
                body == entry_map(self.diagrams@)[diagram@],
                mems == member_ids(self.nodes@, body),
                tf == tag_set(tags@),
                member_rights_ok(self.nodes@, mems, tf),
                blocks == member_blocks(self.nodes@, mems, tf),
                first_missing(mems, self.nodes@) == first_missing(
                    mems.skip(mi as int),
                    self.nodes@,
                ),
                crate::text::join_nl(Seq::empty(), blocks) == crate::text::join_nl(
                    acc@,
                    blocks.skip(mi as int),
                ),
            decreases members@.len() - mi,
        {
            let ghost mk = mems[mi as int];
            proof {
                assert(mems.skip(mi as int)[0] == mk);
                assert(mems.skip(mi as int).drop_first() =~= mems.skip(mi + 1));
                assert(blocks.skip(mi as int)[0] == blocks[mi as int]);
                assert(blocks.skip(mi as int).drop_first() =~= blocks.skip(mi + 1));
                assert(mems.contains(mk));
                lemma_member_ids_dom(self.nodes@, body, mk);
                assert(members@[mi as int]@ == mk);
            }
            let k = &members[mi];
            let ni = match find_index(&self.nodes, k.as_str()) {
                Some(ni) => ni,
                None => {
                    proof {
                        assert(false);
                    }
                    return Err(Error::Render(String::new()));
                },
            };
            proof {
                let i0 = crate::keyed::index_of_key(self.nodes@, mk);
                assert(0 <= i0 < self.nodes@.len() && self.nodes@[i0].0@ == mk);
                assert(i0 == ni as int);
                assert(node_at(self.nodes@, mk) == self.nodes@[ni as int].1);
                assert(node_rights_ok(node_at(self.nodes@, mk), tf));
            }
            let node = &self.nodes[ni].1;
            let def = match &node.definition {
                None => {
                    proof {
                        assert(first_missing(mems.skip(mi as int), self.nodes@) == Some(mk));
                    }
                    return Err(Error::NodeHasNoDefinition(node.duplicate()));
                },
                Some(d) => d,
            };
            let mut defs: Vec<String> = Vec::new();
            match &node.relations {
                None => {
                    proof {
                        assert(str_views(defs@) =~= qual_node(*node, tf, mems, self.nodes@));
                    }
                },
                Some(rels) => {
                    let mut e: usize = 0;
                    proof {
                        assert(str_views(defs@) =~= qual_entries(
                            rels@.take(0),
                            tf,
                            mems,
                            self.nodes@,
                        ));
                    }
                    while e < rels.len()
                        invariant
                            self.wf(),
                            e <= rels@.len(),
                            tf == tag_set(tags@),
                            str_views(members@) == mems,
                            node_rights_ok(*node, tf),
                            node.relations is Some,
                            rels@ == node.relations.unwrap()@,
                            str_views(defs@) == qual_entries(
                                rels@.take(e as int),
                                tf,
                                mems,
                                self.nodes@,
                            ),
                        decreases rels@.len() - e,
                    {
                        let lst = &rels[e].1;
                        let mut x: usize = 0;
                        let ghost defs0 = str_views(defs@);
                        proof {
                            assert(defs0 + qual_list(
                                lst.deep_view().take(0),
                                tf,
                                mems,
                                self.nodes@,
                            ) =~= defs0);
                        }
                        while x < lst.len()
                            invariant
                                self.wf(),
                                x <= lst@.len(),
                                e < rels@.len(),
                                tf == tag_set(tags@),
                                str_views(members@) == mems,
                                node_rights_ok(*node, tf),
                                node.relations is Some,
                                rels@ == node.relations.unwrap()@,
                                lst.deep_view() == rels@[e as int].1.deep_view(),
                                defs0 == qual_entries(rels@.take(e as int), tf, mems, self.nodes@),
                                str_views(defs@) == defs0 + qual_list(
                                    lst.deep_view().take(x as int),
                                    tf,
                                    mems,
                                    self.nodes@,
                                ),
                            decreases lst@.len() - x,
                        {
                            let ghost rv = lst.deep_view()[x as int];
                            proof {
                                assert(rv == lst@[x as int].deep_view());
                                assert(lst.deep_view().take(x + 1).drop_last() =~= lst.deep_view(
                                ).take(x as int));
                                assert(lst.deep_view().take(x + 1).last() == rv);
                            }
                            let rel = &lst[x];
                            let pass = if tags.is_empty() {
                                proof {
                                    assert(tf.is_empty()) by {
                                        if !tf.is_empty() {
                                            let t = choose|t: Seq<char>| tf.contains(t);
                                            let q = choose|q: int|
                                                0 <= q < tags@.len() && tags@[q]@ == t;
                                        }
                                    }
                                }
                                true
                            } else {
                                proof {
                                    assert(!tf.is_empty()) by {
                                        assert(tf.contains(tags@[0]@));
                                    }
                                }
                                match &rel.tags {
                                    Some(rt) => tags_intersect(rt, tags),
                                    None => false,
                                }
                            };
                            proof {
                                assert(pass == tag_pass(rv, tf));
                            }
                            if pass {
                                let rgt = match &rel.right {
                                    Some(rg) => rg,
                                    None => {
                                        proof {
                                            assert(rels@[e as int].1.deep_view()[x as int] == rv);
                                            assert(false);
                                        }
                                        return Err(Error::Render(String::new()));
                                    },
                                };
                                let in_members = crate::relation::vec_has_str(&members, rgt.as_str());
                                proof {
                                    assert(in_members == mems.contains(rv.right.unwrap())) by {
                                        if tag_set(members@).contains(rgt@) {
                                            let q = choose|q: int|
                                                0 <= q < members@.len() && members@[q]@ == rgt@;
                                            assert(mems[q] == rgt@);
                                        }
                                        if mems.contains(rgt@) {
                                            let q = choose|q: int|
                                                0 <= q < mems.len() && mems[q] == rgt@;
                                            assert(members@[q]@ == rgt@);
                                        }
                                    }
                                }
                                let in_nodes = match find_index(&self.nodes, rgt.as_str()) {
                                    Some(_) => true,
                                    None => false,
                                };
                                proof {
                                    assert(in_nodes == has_key(self.nodes@, rv.right.unwrap()));
                                }
                                if in_members && in_nodes {
                                    match &rel.definition {
                                        Some(dd) => {
                                            let ghost dprev = str_views(defs@);
                                            defs.push(dd.clone());
                                            proof {
                                                assert(str_views(defs@) =~= dprev.push(
                                                    rv.definition.unwrap(),
                                                ));
                                            }
                                        },
                                        None => {},
                                    }
                                }
                            }
                            proof {
                                assert(str_views(defs@) =~= defs0 + qual_list(
                                    lst.deep_view().take(x + 1),
                                    tf,
                                    mems,
                                    self.nodes@,
                                ));
                            }
                            x = x + 1;
                        }
                        proof {
                            assert(lst.deep_view().take(lst@.len() as int) =~= lst.deep_view());
                            assert(rels@.take(e + 1).drop_last() =~= rels@.take(e as int));
                            assert(rels@.take(e + 1).last() == rels@[e as int]);
                            assert(str_views(defs@) =~= qual_entries(
                                rels@.take(e + 1),
                                tf,
                                mems,
                                self.nodes@,
                            ));
                        }
                        e = e + 1;
                    }
                    proof {
                        assert(rels@.take(rels@.len() as int) =~= rels@);
                        assert(str_views(defs@) == qual_node(*node, tf, mems, self.nodes@));
                    }
                },
            }
            let sorted_defs = crate::text::sort_strings(&defs);
            let mut block = def.clone();
            crate::text::append_joined(&mut block, &sorted_defs);
            proof {
                assert(block@ == member_block(node_at(self.nodes@, mk), tf, mems, self.nodes@));
                assert(block@ == blocks[mi as int]);
            }
            let ghost accprev = acc@;
            acc.append("\n");
            acc.append(block.as_str());
            proof {
                reveal_strlit("\n");
                assert(acc@ =~= accprev + seq!['\n'] + blocks[mi as int]);
                assert(first_missing(mems.skip(mi as int), self.nodes@) == first_missing(
                    mems.skip(mi + 1),
                    self.nodes@,
                ));
            }
            mi = mi + 1;
        }
        proof {
            assert(mems.skip(mems.len() as int) =~= Seq::<Seq<char>>::empty());
            assert(blocks.skip(blocks.len() as int) =~= Seq::<Seq<char>>::empty());
        }
        Ok(acc)
    }
}

/// Whether some element of `rt` belongs to the tag filter.
fn tags_intersect(rt: &Vec<String>, tf: &Vec<String>) -> (r: bool)
    ensures
        r == sets_intersect(tag_set(rt@), tag_set(tf@)),
{
    let mut i: usize = 0;
    while i < rt.len()
        invariant
            i <= rt@.len(),
            forall|k: int| 0 <= k < i ==> !tag_set(tf@).contains(rt@[k]@),
        decreases rt@.len() - i,
    {
        if crate::relation::vec_has_str(tf, rt[i].as_str()) {
            proof {
                assert(tag_set(rt@).contains(rt@[i as int]@));
            }
            return true;
        }
        i = i + 1;
    }
    proof {
        assert(!sets_intersect(tag_set(rt@), tag_set(tf@))) by {
            if sets_intersect(tag_set(rt@), tag_set(tf@)) {
                let t = choose|t: Seq<char>| tag_set(rt@).contains(t) && tag_set(tf@).contains(t);
                let q = choose|q: int| 0 <= q < rt@.len() && rt@[q]@ == t;
                assert(!tag_set(tf@).contains(rt@[q]@));
            }
        }
    }
    false
}

} // verus!
