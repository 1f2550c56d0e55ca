//! Definition rendering: every node's and relation's own `definition`
//! template is expanded by the template engine with the entity's fields as
//! variables, under strict-undefined-variable semantics. The engine's
//! output on a template and a variable map is named [`rendered`]; what the
//! library states is proved against that name.

use vstd::prelude::*;
use crate::Error;
use crate::keyed::entry_map;
use crate::merge::Merge;
use crate::model::Model;
use crate::node::Node;
use crate::node::NodeV;
use crate::relation::Relation;
use crate::relation::RelationV;
use vstd::string::StringExecFns;

verus! {

/// What the template engine returns, in strict mode and with no custom
/// helpers, for a template and a map of variables: the expanded text, or
/// nothing when the template is rejected.
pub uninterp spec fn rendered(tpl: Seq<char>, vars: Map<Seq<char>, Seq<char>>) -> Option<Seq<char>>;

/// Relies on handlebars::Handlebars::render_template with strict mode on a
/// fresh registry with no custom helpers: the outcome depends on the
/// template text and the variables alone; a syntax error or a reference to
/// an unknown variable is rejected.
#[verifier::external_body]
fn render_strict(tpl: &str, vars: &Vec<(String, String)>) -> (r: Result<String, String>)
    ensures
        match r {
            Ok(s) => rendered(tpl@, entry_map(vars@)) == Some(s@),
            Err(_) => rendered(tpl@, entry_map(vars@)) is None,
        },
{
    let mut reg = handlebars::Handlebars::new();
    reg.set_strict_mode(true);
    let ctx: std::collections::BTreeMap<&str, &str> = vars.iter().map(
        |p: &(String, String)| (p.0.as_str(), p.1.as_str()),
    ).collect();
    reg.render_template(tpl, &ctx).map_err(|e| e.to_string())
}

/// The characters of an optional string, or nothing.
pub open spec fn str_or_empty(o: Option<Seq<char>>) -> Seq<char> {
    match o {
        Some(s) => s,
        None => Seq::empty(),
    }
}

fn opt_string_or_empty(o: &Option<String>) -> (r: String)
    ensures
        r@ == str_or_empty(o.deep_view()),
{
    match o {
        Some(s) => s.clone(),
        None => String::new(),
    }
}

/// The template variables of a node: its scalar fields by name, an unset
/// field reading as the empty string.
pub open spec fn node_ctx(v: NodeV) -> Map<Seq<char>, Seq<char>> {
    Map::empty().insert("id"@, str_or_empty(v.id)).insert("parent"@, str_or_empty(v.parent)).insert(
        "name"@,
        str_or_empty(v.name),
    ).insert("description"@, str_or_empty(v.description)).insert(
        "technology"@,
        str_or_empty(v.technology),
    ).insert("definition"@, str_or_empty(v.definition))
}

/// The template variables of a relation: its scalar fields by name, an
/// unset field reading as the empty string.
pub open spec fn rel_ctx(v: RelationV) -> Map<Seq<char>, Seq<char>> {
    Map::empty().insert("parent"@, str_or_empty(v.parent)).insert(
        "left"@,
        str_or_empty(v.left),
    ).insert("right"@, str_or_empty(v.right)).insert(
        "description"@,
        str_or_empty(v.description),
    ).insert("technology"@, str_or_empty(v.technology)).insert(
        "definition"@,
        str_or_empty(v.definition),
    )
}

fn node_ctx_vars(n: &Node) -> (r: Vec<(String, String)>)
    ensures
        entry_map(r@) == node_ctx(n@),
{
    let mut r: Vec<(String, String)> = Vec::new();
    r.push(("id".to_owned(), opt_string_or_empty(&n.id)));
    r.push(("parent".to_owned(), opt_string_or_empty(&n.parent)));
    r.push(("name".to_owned(), opt_string_or_empty(&n.name)));
    r.push(("description".to_owned(), opt_string_or_empty(&n.description)));
    r.push(("technology".to_owned(), opt_string_or_empty(&n.technology)));
    r.push(("definition".to_owned(), opt_string_or_empty(&n.definition)));
    proof {
        let ghost s = r@;
        assert(s.len() == 6);
        assert(entry_map(s.take(0)) =~= Map::<Seq<char>, Seq<char>>::empty());
        assert(s.take(1).drop_last() =~= s.take(0));
        assert(s.take(1).last() == s[0]);
        assert(entry_map(s.take(1)) == entry_map(s.take(0)).insert(s[0].0@, s[0].1.deep_view()));
        assert(s.take(2).drop_last() =~= s.take(1));
        assert(s.take(2).last() == s[1]);
        assert(entry_map(s.take(2)) == entry_map(s.take(1)).insert(s[1].0@, s[1].1.deep_view()));
        assert(s.take(3).drop_last() =~= s.take(2));
        assert(s.take(3).last() == s[2]);
        assert(entry_map(s.take(3)) == entry_map(s.take(2)).insert(s[2].0@, s[2].1.deep_view()));
        assert(s.take(4).drop_last() =~= s.take(3));
        assert(s.take(4).last() == s[3]);
        assert(entry_map(s.take(4)) == entry_map(s.take(3)).insert(s[3].0@, s[3].1.deep_view()));
        assert(s.take(5).drop_last() =~= s.take(4));
        assert(s.take(5).last() == s[4]);
        assert(entry_map(s.take(5)) == entry_map(s.take(4)).insert(s[4].0@, s[4].1.deep_view()));
        assert(s.take(6).drop_last() =~= s.take(5));
        assert(s.take(6).last() == s[5]);
        assert(entry_map(s.take(6)) == entry_map(s.take(5)).insert(s[5].0@, s[5].1.deep_view()));
        assert(s[0].0@ == "id"@);
        assert(s[1].0@ == "parent"@);
        assert(s[2].0@ == "name"@);
        assert(s[3].0@ == "description"@);
        assert(s[4].0@ == "technology"@);
        assert(s[5].0@ == "definition"@);
        assert(s.take(6) =~= s);
        assert(entry_map(s) == node_ctx(n@));
    }
    r
}

fn rel_ctx_vars(x: &Relation) -> (r: Vec<(String, String)>)
    ensures
        entry_map(r@) == rel_ctx(x@),
{
    let mut r: Vec<(String, String)> = Vec::new();
    r.push(("parent".to_owned(), opt_string_or_empty(&x.parent)));
    r.push(("left".to_owned(), opt_string_or_empty(&x.left)));
    r.push(("right".to_owned(), opt_string_or_empty(&x.right)));
    r.push(("description".to_owned(), opt_string_or_empty(&x.description)));
    r.push(("technology".to_owned(), opt_string_or_empty(&x.technology)));
    r.push(("definition".to_owned(), opt_string_or_empty(&x.definition)));
    proof {
        let ghost s = r@;
        assert(s.len() == 6);
        assert(entry_map(s.take(0)) =~= Map::<Seq<char>, Seq<char>>::empty());
        assert(s.take(1).drop_last() =~= s.take(0));
        assert(s.take(1).last() == s[0]);
        assert(entry_map(s.take(1)) == entry_map(s.take(0)).insert(s[0].0@, s[0].1.deep_view()));
        assert(s.take(2).drop_last() =~= s.take(1));
        assert(s.take(2).last() == s[1]);
        assert(entry_map(s.take(2)) == entry_map(s.take(1)).insert(s[1].0@, s[1].1.deep_view()));
        assert(s.take(3).drop_last() =~= s.take(2));
        assert(s.take(3).last() == s[2]);
        assert(entry_map(s.take(3)) == entry_map(s.take(2)).insert(s[2].0@, s[2].1.deep_view()));
        assert(s.take(4).drop_last() =~= s.take(3));
        assert(s.take(4).last() == s[3]);
        assert(entry_map(s.take(4)) == entry_map(s.take(3)).insert(s[3].0@, s[3].1.deep_view()));
        assert(s.take(5).drop_last() =~= s.take(4));
        assert(s.take(5).last() == s[4]);
        assert(entry_map(s.take(5)) == entry_map(s.take(4)).insert(s[4].0@, s[4].1.deep_view()));
        assert(s.take(6).drop_last() =~= s.take(5));
        assert(s.take(6).last() == s[5]);
        assert(entry_map(s.take(6)) == entry_map(s.take(5)).insert(s[5].0@, s[5].1.deep_view()));
        assert(s[0].0@ == "parent"@);
        assert(s[1].0@ == "left"@);
        assert(s[2].0@ == "right"@);
        assert(s[3].0@ == "description"@);
        assert(s[4].0@ == "technology"@);
        assert(s[5].0@ == "definition"@);
        assert(s.take(6) =~= s);
        assert(entry_map(s) == rel_ctx(x@));
    }
    r
}

impl Node {
    /// Expands this node's definition template with the node's own fields
    /// as variables. A node without a definition, and a template the
    /// engine rejects, fail.
    pub fn render_definition(&mut self) -> (r: Result<(), Error>)
        ensures
            match r {
                Ok(()) => {
                    &&& old(self)@.definition is Some
                    &&& rendered(old(self)@.definition.unwrap(), node_ctx(old(self)@)) is Some
                    &&& final(self)@ == (NodeV {
                        definition: Some(
                            rendered(old(self)@.definition.unwrap(), node_ctx(old(self)@)).unwrap(),
                        ),
                        ..old(self)@
                    })
                    &&& final(self).wf() == old(self).wf()
                },
                Err(e) => {
                    &&& *final(self) == *old(self)
                    &&& match e {
                        Error::NodeHasNoDefinition(n) => old(self)@.definition is None && n@ == old(
                            self,
                        )@,
                        Error::Render(_) => old(self)@.definition is Some && rendered(
                            old(self)@.definition.unwrap(),
                            node_ctx(old(self)@),
                        ) is None,
                        _ => false,
                    }
                },
            },
    {
        let vars = node_ctx_vars(self);
        let out = match &self.definition {
            None => {
                return Err(Error::NodeHasNoDefinition(self.duplicate()));
            },
            Some(d) => render_strict(d.as_str(), &vars),
        };
        match out {
            Ok(s) => {
                self.definition = Some(s);
                proof {
                    assert(self@ =~= (NodeV {
                        definition: Some(
                            rendered(old(self)@.definition.unwrap(), node_ctx(old(self)@)).unwrap(),
                        ),
                        ..old(self)@
                    }));
                }
                Ok(())
            },
            Err(msg) => Err(Error::Render(msg)),
        }
    }
}

impl Relation {
    /// Expands this relation's definition template with the relation's own
    /// fields as variables. A relation without a definition, and a
    /// template the engine rejects, fail.
    pub fn render_definition(&mut self) -> (r: Result<(), Error>)
        ensures
            match r {
                Ok(()) => {
                    &&& old(self)@.definition is Some
                    &&& rendered(old(self)@.definition.unwrap(), rel_ctx(old(self)@)) is Some
                    &&& final(self)@ == (RelationV {
                        definition: Some(
                            rendered(old(self)@.definition.unwrap(), rel_ctx(old(self)@)).unwrap(),
                        ),
                        ..old(self)@
                    })
                },
                Err(e) => {
                    &&& *final(self) == *old(self)
                    &&& match e {
                        Error::RelationHasNoDefinition(x) => old(self)@.definition is None && x@
                            == old(self)@,
                        Error::Render(_) => old(self)@.definition is Some && rendered(
                            old(self)@.definition.unwrap(),
                            rel_ctx(old(self)@),
                        ) is None,
                        _ => false,
                    }
                },
            },
    {
        let vars = rel_ctx_vars(self);
        let out = match &self.definition {
            None => {
                return Err(Error::RelationHasNoDefinition(self.duplicate()));
            },
            Some(d) => render_strict(d.as_str(), &vars),
        };
        match out {
            Ok(s) => {
                self.definition = Some(s);
                proof {
                    assert(self@ =~= (RelationV {
                        definition: Some(
                            rendered(old(self)@.definition.unwrap(), rel_ctx(old(self)@)).unwrap(),
                        ),
                        ..old(self)@
                    }));
                }
                Ok(())
            },
            Err(msg) => Err(Error::Render(msg)),
        }
    }
}

/// A node view after its definition was expanded.
pub open spec fn node_rendered(v: NodeV) -> NodeV {
    NodeV { definition: Some(rendered(v.definition.unwrap(), node_ctx(v)).unwrap()), ..v }
}

/// Whether a node's definition cannot be expanded: it is unset, or the
/// engine rejects it.
pub open spec fn node_render_fails(v: NodeV) -> bool {
    v.definition is None || rendered(v.definition.unwrap(), node_ctx(v)) is None
}

/// Expands every node's definition template, in entry order; the first
/// failure aborts the pass.
pub fn render_nodes_definitions(model: &mut Model) -> (r: Result<(), Error>)
    requires
        old(model).wf(),
    ensures
        final(model).wf(),
        final(model).relations@ == old(model).relations@,
        final(model).diagrams@ == old(model).diagrams@,
        match r {
            Ok(()) => {
                &&& final(model).nodes@.len() == old(model).nodes@.len()
                &&& forall|i: int|
                    0 <= i < old(model).nodes@.len() ==> #[trigger] final(model).nodes@[i].0 == old(
                        model,
                    ).nodes@[i].0
                &&& forall|i: int|
                    0 <= i < old(model).nodes@.len() ==> !node_render_fails(
                        (#[trigger] old(model).nodes@[i].1)@,
                    )
                &&& forall|i: int|
                    0 <= i < old(model).nodes@.len() ==> (#[trigger] final(model).nodes@[i].1)@
                        == node_rendered(old(model).nodes@[i].1@)
            },
            Err(e) => exists|j: int|
                {
                    &&& 0 <= j < old(model).nodes@.len()
                    &&& node_render_fails((#[trigger] old(model).nodes@[j].1)@)
                    &&& forall|i: int|
                        0 <= i < j ==> !node_render_fails((#[trigger] old(model).nodes@[i].1)@)
                    &&& match e {
                        Error::NodeHasNoDefinition(n) => old(model).nodes@[j].1@.definition is None
                            && n@ == old(model).nodes@[j].1@,
                        Error::Render(_) => old(model).nodes@[j].1@.definition is Some && rendered(
                            old(model).nodes@[j].1@.definition.unwrap(),
                            node_ctx(old(model).nodes@[j].1@),
                        ) is None,
                        _ => false,
                    }
                },
        },
{
    let ghost orig = model.nodes@;
    let mut out: Vec<(String, Node)> = Vec::new();
    let mut i: usize = 0;
    while i < model.nodes.len()
        invariant
            old(model).wf(),
            i <= model.nodes@.len(),
            model.nodes@ == orig,
            model.relations@ == old(model).relations@,
            model.diagrams@ == old(model).diagrams@,
            orig == old(model).nodes@,
            out@.len() == i,
            forall|k: int| 0 <= k < i ==> #[trigger] out@[k].0 == orig[k].0,
            forall|k: int| 0 <= k < i ==> !node_render_fails((#[trigger] orig[k].1)@),
            forall|k: int|
                0 <= k < i ==> (#[trigger] out@[k].1)@ == node_rendered(orig[k].1@),
            forall|k: int| 0 <= k < i ==> (#[trigger] out@[k].1).wf(),
        decreases model.nodes@.len() - i,
    {
        let k = model.nodes[i].0.clone();
        let mut n = model.nodes[i].1.duplicate();
        match n.render_definition() {
            Ok(()) => {},
            Err(e) => {
                proof {
                    assert(node_render_fails(orig[i as int].1@));
                }
                return Err(e);
            },
        }
        out.push((k, n));
        i = i + 1;
    }
    model.nodes = out;
    proof {
        assert(crate::keyed::distinct_keys(model.nodes@));
    }
    Ok(())
}

/// A relation view after its definition was expanded.
pub open spec fn rel_rendered(v: RelationV) -> RelationV {
    RelationV { definition: Some(rendered(v.definition.unwrap(), rel_ctx(v)).unwrap()), ..v }
}

/// Whether a relation's definition cannot be expanded.
pub open spec fn rel_render_fails(v: RelationV) -> bool {
    v.definition is None || rendered(v.definition.unwrap(), rel_ctx(v)) is None
}

/// A relation list after every definition was expanded.
pub open spec fn rendered_list(list: Seq<RelationV>) -> Seq<RelationV> {
    Seq::new(list.len(), |i: int| rel_rendered(list[i]))
}

/// A relations map after every definition was expanded.
pub open spec fn rendered_rels_map(m: Map<Seq<char>, Seq<RelationV>>) -> Map<
    Seq<char>,
    Seq<RelationV>,
> {
    Map::new(|k: Seq<char>| m.contains_key(k), |k: Seq<char>| rendered_list(m[k]))
}

/// Whether some relation of a node cannot be expanded.
pub open spec fn node_rels_render_fail(v: NodeV) -> bool {
    match v.relations {
        Some(m) => exists|k: Seq<char>, x: int|
            m.contains_key(k) && 0 <= x < m[k].len() && rel_render_fails(#[trigger] m[k][x]),
        None => false,
    }
}

/// Whether `r` is one of the node's relation instances.
pub open spec fn rel_in_node(v: NodeV, r: RelationV) -> bool {
    match v.relations {
        Some(m) => exists|k: Seq<char>, x: int|
            m.contains_key(k) && 0 <= x < m[k].len() && #[trigger] m[k][x] == r,
        None => false,
    }
}

/// Whether some relation of the node has a definition the engine rejects.
pub open spec fn node_rel_render_rejected(v: NodeV) -> bool {
    match v.relations {
        Some(m) => exists|k: Seq<char>, x: int|
            m.contains_key(k) && 0 <= x < m[k].len() && (#[trigger] m[k][x]).definition is Some
                && rendered(m[k][x].definition.unwrap(), rel_ctx(m[k][x])) is None,
        None => false,
    }
}

impl Node {
    /// Expands the definition template of every relation instance of this
    /// node; the first rejected template aborts the pass.
    pub fn render_relations(&mut self) -> (r: Result<(), Error>)
        requires
            old(self).wf(),
        ensures
            final(self).wf(),
            match r {
                Ok(()) => {
                    &&& !node_rels_render_fail(old(self)@)
                    &&& final(self)@ == (NodeV {
                        relations: match old(self)@.relations {
                            None => None,
                            Some(m) => Some(rendered_rels_map(m)),
                        },
                        ..old(self)@
                    })
                },
                Err(e) => {
                    &&& node_rels_render_fail(old(self)@)
                    &&& match e {
                        Error::RelationHasNoDefinition(x) => x@.definition is None && rel_in_node(
                            old(self)@,
                            x@,
                        ),
                        Error::Render(_) => node_rel_render_rejected(old(self)@),
                        _ => false,
                    }
                },
            },
    {
        let new_rels: Option<Vec<(String, Vec<Relation>)>> = match &self.relations {
            None => None,
            Some(rels) => {
                let mut out: Vec<(String, Vec<Relation>)> = Vec::new();
                let mut e: usize = 0;
                while e < rels.len()
                    invariant
                        old(self).wf(),
                        self.relations == old(self).relations,
                        self.relations is Some,
                        rels@ == self.relations.unwrap()@,
                        e <= rels@.len(),
                        out@.len() == e,
                        forall|k: int| 0 <= k < e ==> #[trigger] out@[k].0 == rels@[k].0,
                        forall|k: int|
                            0 <= k < e ==> #[trigger] out@[k].1.deep_view() == rendered_list(
                                rels@[k].1.deep_view(),
                            ),
                        forall|k: int, x: int|
                            0 <= k < e && 0 <= x < rels@[k].1.deep_view().len()
                                ==> !rel_render_fails(#[trigger] rels@[k].1.deep_view()[x]),
                    decreases rels@.len() - e,
                {
                    let key = rels[e].0.clone();
                    let lst = &rels[e].1;
                    let mut newl: Vec<Relation> = Vec::new();
                    let mut x: usize = 0;
                    while x < lst.len()
                        invariant
                            old(self).wf(),
                            self.relations == old(self).relations,
                            self.relations is Some,
                            rels@ == self.relations.unwrap()@,
                            x <= lst@.len(),
                            e < rels@.len(),
                            lst.deep_view() == rels@[e as int].1.deep_view(),
                            newl@.len() == x,
                            forall|q: int|
                                0 <= q < x ==> #[trigger] newl.deep_view()[q] == rel_rendered(
                                    lst.deep_view()[q],
                                ),
                            forall|q: int|
                                0 <= q < x ==> !rel_render_fails(#[trigger] lst.deep_view()[q]),
                        decreases lst@.len() - x,
                    {
                        let mut c = lst[x].duplicate();
                        proof {
                            assert(c@ == lst.deep_view()[x as int]);
                        }
                        match c.render_definition() {
                            Ok(()) => {},
                            Err(e2) => {
                                proof {
                                    let rv = rels@[e as int].1.deep_view()[x as int];
                                    assert(rel_render_fails(rv));
                                    assert(crate::keyed::distinct_keys(rels@));
                                    assert(forall|jj: int|
                                        e < jj < rels@.len() ==> rels@[jj].0@
                                            != rels@[e as int].0@);
                                    crate::keyed::lemma_entry_map_index(rels@, e as int);
                                    let m = entry_map(rels@);
                                    let k = rels@[e as int].0@;
                                    assert(m.contains_key(k));
                                    assert(m[k][x as int] == rv);
                                    assert(node_rels_render_fail(old(self)@)) by {
                                        assert(rel_render_fails(m[k][x as int]));
                                    }
                                    assert(rel_in_node(old(self)@, rv));
                                    if rv.definition is Some {
                                        assert(node_rel_render_rejected(old(self)@)) by {
                                            assert(m[k][x as int].definition is Some && rendered(
                                                m[k][x as int].definition.unwrap(),
                                                rel_ctx(m[k][x as int]),
                                            ) is None);
                                        }
                                    }
                                }
                                return Err(e2);
                            },
                        }
                        let ghost prevd = newl.deep_view();
                        newl.push(c);
                        proof {
                            assert forall|q: int|
                                0 <= q < x + 1 implies #[trigger] newl.deep_view()[q]
                                == rel_rendered(lst.deep_view()[q]) by {
                                assert(newl.deep_view()[q] == newl@[q].deep_view());
                                if q < x {
                                    assert(prevd[q] == newl@[q].deep_view());
                                    assert(prevd[q] == rel_rendered(lst.deep_view()[q]));
                                }
                            }
                        }
                        x = x + 1;
                    }
                    proof {
                        assert(newl.deep_view() =~= rendered_list(rels@[e as int].1.deep_view()));
                    }
                    out.push((key, newl));
                    e = e + 1;
                }
                proof {
                    assert(crate::keyed::distinct_keys(out@));
                    assert forall|k: Seq<char>|
                        entry_map(out@).contains_key(k) == #[trigger] rendered_rels_map(
                        entry_map(rels@),
                    ).contains_key(k) by {
                        crate::keyed::lemma_entry_map_dom(out@, k);
                        crate::keyed::lemma_entry_map_dom(rels@, k);
                        if crate::keyed::has_key(out@, k) {
                            let i = choose|i: int| 0 <= i < out@.len() && out@[i].0@ == k;
                            assert(rels@[i].0@ == k);
                        }
                        if crate::keyed::has_key(rels@, k) {
                            let i = choose|i: int| 0 <= i < rels@.len() && rels@[i].0@ == k;
                            assert(out@[i].0@ == k);
                        }
                    }
                    assert forall|k: Seq<char>| #[trigger] entry_map(out@).contains_key(k) implies
                        entry_map(out@)[k] == rendered_rels_map(entry_map(rels@))[k] by {
                        crate::keyed::lemma_entry_map_dom(out@, k);
                        let i = choose|i: int| 0 <= i < out@.len() && out@[i].0@ == k;
                        assert(rels@[i].0@ == k);
                        assert(forall|jj: int| i < jj < out@.len() ==> out@[jj].0@ != out@[i].0@);
                        crate::keyed::lemma_entry_map_index(out@, i);
                        crate::keyed::lemma_entry_map_index(rels@, i);
                    }
                    assert(entry_map(out@) =~= rendered_rels_map(entry_map(rels@)));
                    assert(!node_rels_render_fail(old(self)@)) by {
                        if node_rels_render_fail(old(self)@) {
                            let m = entry_map(rels@);
                            let (k, x) = choose|k: Seq<char>, x: int|
                                m.contains_key(k) && 0 <= x < m[k].len() && rel_render_fails(
                                    #[trigger] m[k][x],
                                );
                            crate::keyed::lemma_entry_map_key(rels@, k);
                            let i = choose|i: int| 0 <= i < rels@.len() && rels@[i].0@ == k;
                            assert(forall|jj: int|
                                i < jj < rels@.len() ==> rels@[jj].0@ != rels@[i].0@);
                            crate::keyed::lemma_entry_map_index(rels@, i);
                            assert(!rel_render_fails(rels@[i].1.deep_view()[x]));
                        }
                    }
                }
                Some(out)
            },
        };
        self.relations = new_rels;
        proof {
            assert(self@ =~= (NodeV {
                relations: match old(self)@.relations {
                    None => None,
                    Some(m) => Some(rendered_rels_map(m)),
                },
                ..old(self)@
            }));
        }
        Ok(())
    }
}

/// Expands every relation definition of every node, in entry order; the
/// first failure aborts the pass.
pub fn render_nodes_relations_definitions(model: &mut Model) -> (r: Result<(), Error>)
    requires
        old(model).wf(),
    ensures
        final(model).wf(),
        final(model).relations@ == old(model).relations@,
        final(model).diagrams@ == old(model).diagrams@,
        match r {
            Ok(()) => {
                &&& final(model).nodes@.len() == old(model).nodes@.len()
                &&& forall|i: int|
                    0 <= i < old(model).nodes@.len() ==> #[trigger] final(model).nodes@[i].0 == old(
                        model,
                    ).nodes@[i].0
                &&& forall|i: int|
                    0 <= i < old(model).nodes@.len() ==> !node_rels_render_fail(
                        (#[trigger] old(model).nodes@[i].1)@,
                    )
                &&& forall|i: int|
                    0 <= i < old(model).nodes@.len() ==> (#[trigger] final(model).nodes@[i].1)@
                        == (NodeV {
                        relations: match old(model).nodes@[i].1@.relations {
                            None => None,
                            Some(m) => Some(rendered_rels_map(m)),
                        },
                        ..old(model).nodes@[i].1@
                    })
            },
            Err(e) => exists|j: int|
                {
                    &&& 0 <= j < old(model).nodes@.len()
                    &&& node_rels_render_fail((#[trigger] old(model).nodes@[j].1)@)
                    &&& forall|i: int|
                        0 <= i < j ==> !node_rels_render_fail(
                            (#[trigger] old(model).nodes@[i].1)@,
                        )
                    &&& match e {
                        Error::RelationHasNoDefinition(x) => x@.definition is None && rel_in_node(
                            old(model).nodes@[j].1@,
                            x@,
                        ),
                        Error::Render(_) => node_rel_render_rejected(old(model).nodes@[j].1@),
                        _ => false,
                    }
                },
        },
{
    let ghost orig = model.nodes@;
    let mut out: Vec<(String, Node)> = Vec::new();
    let mut i: usize = 0;
    while i < model.nodes.len()
        invariant
            old(model).wf(),
            i <= model.nodes@.len(),
            model.nodes@ == orig,
            model.relations@ == old(model).relations@,
            model.diagrams@ == old(model).diagrams@,
            orig == old(model).nodes@,
            out@.len() == i,
            forall|k: int| 0 <= k < i ==> #[trigger] out@[k].0 == orig[k].0,
            forall|k: int| 0 <= k < i ==> !node_rels_render_fail((#[trigger] orig[k].1)@),
            forall|k: int|
                0 <= k < i ==> (#[trigger] out@[k].1)@ == (NodeV {
                    relations: match orig[k].1@.relations {
                        None => None,
                        Some(m) => Some(rendered_rels_map(m)),
                    },
                    ..orig[k].1@
                }),
            forall|k: int| 0 <= k < i ==> (#[trigger] out@[k].1).wf(),
        decreases model.nodes@.len() - i,
    {
        let k = model.nodes[i].0.clone();
        let mut n = model.nodes[i].1.duplicate();
        match n.render_relations() {
            Ok(()) => {},
            Err(e) => {
                proof {
                    assert(node_rels_render_fail(orig[i as int].1@));
                }
                return Err(e);
            },
        }
        out.push((k, n));
        i = i + 1;
    }
    model.nodes = out;
    proof {
        assert(crate::keyed::distinct_keys(model.nodes@));
    }
    Ok(())
}

/// The `"{id}-name"` substitution variables of the nodes that have a name,
/// in entry order, each value the name in double quotes.
pub open spec fn name_vars(nodes: Seq<(String, Node)>) -> Seq<(Seq<char>, Seq<char>)>
    decreases nodes.len(),
{
    if nodes.len() == 0 {
        Seq::empty()
    } else {
        name_vars(nodes.drop_last()) + {
            let e = nodes.last();
            match e.1@.name {
                Some(nm) => seq![(e.0@ + "-name"@, "\""@ + nm + "\""@)],
                None => Seq::empty(),
            }
        }
    }
}

impl Model {
    /// The substitution variables handed to a diagram template:
    /// `diagram-name` bound to the diagram's name, and `"{id}-name"` bound
    /// to the quoted name of every node that has one.
    pub fn diagram_variables(&self, name: &str) -> (r: Vec<(String, String)>)
        ensures
            crate::merge::pair_views(r@) == seq![("diagram-name"@, name@)] + name_vars(
                self.nodes@,
            ),
    {
        let mut r: Vec<(String, String)> = Vec::new();
        r.push(("diagram-name".to_owned(), name.to_owned()));
        let mut i: usize = 0;
        proof {
            assert(crate::merge::pair_views(r@) =~= seq![("diagram-name"@, name@)] + name_vars(
                self.nodes@.take(0),
            ));
        }
        while i < self.nodes.len()
            invariant
                i <= self.nodes@.len(),
                crate::merge::pair_views(r@) == seq![("diagram-name"@, name@)] + name_vars(
                    self.nodes@.take(i as int),
                ),
            decreases self.nodes@.len() - i,
        {
            proof {
                assert(self.nodes@.take(i + 1).drop_last() =~= self.nodes@.take(i as int));
                assert(self.nodes@.take(i + 1).last() == self.nodes@[i as int]);
            }
            match &self.nodes[i].1.name {
                Some(nm) => {
                    let key = self.nodes[i].0.clone().concat("-name");
                    let quoted = "\"".to_owned().concat(nm.as_str()).concat("\"");
                    proof {
                        assert(key@ == self.nodes@[i as int].0@ + "-name"@);
                        assert(self.nodes@[i as int].1@.name == Some(nm@));
                        assert(quoted@ == "\""@ + nm@ + "\""@);
                    }
                    let ghost rvec = r@;
                    r.push((key, quoted));
                    proof {
                        let pair = (self.nodes@[i as int].0@ + "-name"@, "\""@ + nm@ + "\""@);
                        assert(name_vars(self.nodes@.take(i + 1)) == name_vars(
                            self.nodes@.take(i as int),
                        ) + seq![pair]);
                        let prev_target = seq![("diagram-name"@, name@)] + name_vars(
                            self.nodes@.take(i as int),
                        );
                        let target = seq![("diagram-name"@, name@)] + name_vars(
                            self.nodes@.take(i + 1),
                        );
                        assert(target =~= prev_target + seq![pair]);
                        assert(crate::merge::pair_views(r@).len() == target.len());
                        assert forall|q2: int|
                            0 <= q2 < target.len() implies #[trigger] crate::merge::pair_views(
                            r@,
                        )[q2] == target[q2] by {
                            assert(crate::merge::pair_views(r@)[q2] == (r@[q2].0@, r@[q2].1@));
                            if q2 < rvec.len() {
                                assert(r@[q2] == rvec[q2]);
                                assert(crate::merge::pair_views(rvec)[q2] == (
                                    rvec[q2].0@,
                                    rvec[q2].1@,
                                ));
                                assert(crate::merge::pair_views(rvec)[q2] == prev_target[q2]);
                                assert(target[q2] == prev_target[q2]);
                            } else {
                                assert(r@[q2] == (key, quoted));
                                assert(target[q2] == pair);
                            }
                        }
                        assert(crate::merge::pair_views(r@) =~= seq![("diagram-name"@, name@)]
                            + name_vars(self.nodes@.take(i + 1)));
                    }
                },
                None => {
                    proof {
                        assert(crate::merge::pair_views(r@) =~= seq![("diagram-name"@, name@)]
                            + name_vars(self.nodes@.take(i + 1)));
                    }
                },
            }
            i = i + 1;
        }
        proof {
            assert(self.nodes@.take(self.nodes@.len() as int) =~= self.nodes@);
        }
        r
    }
}

} // verus!
