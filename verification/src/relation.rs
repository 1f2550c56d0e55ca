//! Relations: directed, typed links between nodes. One structure serves
//! two senses — a catalog template, keyed by name in the model's relation
//! catalog, and a relation instance attached to a node, whose `left` and
//! `right` endpoints are populated during resolution.

use vstd::prelude::*;
use crate::merge::Merge;
use crate::text::str_eq;

verus! {

/// The specification-level reading of a [`Relation`]: each string field by
/// its characters, the tags as a set.
#[verifier::ext_equal]
pub ghost struct RelationV {
    pub parent: Option<Seq<char>>,
    pub tags: Option<Set<Seq<char>>>,
    pub left: Option<Seq<char>>,
    pub right: Option<Seq<char>>,
    pub description: Option<Seq<char>>,
    pub technology: Option<Seq<char>>,
    pub definition: Option<Seq<char>>,
}

/// A directed, typed link between two nodes, with inheritable descriptive
/// fields and a templated definition.
#[derive(Debug)]
pub struct Relation {
    pub parent: Option<String>,
    pub tags: Option<Vec<String>>,
    pub left: Option<String>,
    pub right: Option<String>,
    pub description: Option<String>,
    pub technology: Option<String>,
    pub definition: Option<String>,
}

/// The set of character readings of a list of tag strings.
pub open spec fn tag_set(v: Seq<String>) -> Set<Seq<char>> {
    Set::new(|t: Seq<char>| exists|i: int| 0 <= i < v.len() && v[i]@ == t)
}

/// The tags view of an optional tag list.
pub open spec fn opt_tags_view(o: Option<Vec<String>>) -> Option<Set<Seq<char>>> {
    match o {
        Some(v) => Some(tag_set(v@)),
        None => None,
    }
}

impl View for Relation {
    type V = RelationV;

    open spec fn view(&self) -> RelationV {
        RelationV {
            parent: self.parent.deep_view(),
            tags: opt_tags_view(self.tags),
            left: self.left.deep_view(),
            right: self.right.deep_view(),
            description: self.description.deep_view(),
            technology: self.technology.deep_view(),
            definition: self.definition.deep_view(),
        }
    }
}

impl DeepView for Relation {
    type V = RelationV;

    open spec fn deep_view(&self) -> RelationV {
        self.view()
    }
}

/// The fill-if-absent merge of a parent relation into a child: every unset
/// field takes the parent's value, except `parent` and `left`, which stay,
/// and `tags`, which are the union when both sides have tags.
pub open spec fn rel_merge(c: RelationV, p: RelationV) -> RelationV {
    RelationV {
        parent: c.parent,
        tags: if c.tags is None {
            p.tags
        } else if p.tags is None {
            c.tags
        } else {
            Some(c.tags.unwrap().union(p.tags.unwrap()))
        },
        left: c.left,
        right: if c.right is None {
            p.right
        } else {
            c.right
        },
        description: if c.description is None {
            p.description
        } else {
            c.description
        },
        technology: if c.technology is None {
            p.technology
        } else {
            c.technology
        },
        definition: if c.definition is None {
            p.definition
        } else {
            c.definition
        },
    }
}

/// A copy of an optional string, equal as a value.
pub fn clone_opt_string(o: &Option<String>) -> (r: Option<String>)
    ensures
        r == *o,
{
    match o {
        Some(s) => Some(s.clone()),
        None => None,
    }
}

/// A copy of a string vector, equal element by element.
pub fn clone_strings(v: &Vec<String>) -> (r: Vec<String>)
    ensures
        r@ == v@,
{
    let mut r: Vec<String> = Vec::new();
    let mut i: usize = 0;
    while i < v.len()
        invariant
            i <= v@.len(),
            r@.len() == i,
            forall|k: int| 0 <= k < i ==> r@[k] == v@[k],
        decreases v@.len() - i,
    {
        r.push(v[i].clone());
        i = i + 1;
    }
    proof {
        assert(r@ =~= v@);
    }
    r
}

/// Whether some element of `v` reads as `s`.
pub fn vec_has_str(v: &Vec<String>, s: &str) -> (r: bool)
    ensures
        r == tag_set(v@).contains(s@),
{
    let mut i: usize = 0;
    while i < v.len()
        invariant
            i <= v@.len(),
            forall|k: int| 0 <= k < i ==> v@[k]@ != s@,
        decreases v@.len() - i,
    {
        if str_eq(v[i].as_str(), s) {
            return true;
        }
        i = i + 1;
    }
    false
}

proof fn lemma_tag_set_push(s: Seq<String>, x: String)
    ensures
        tag_set(s.push(x)) == tag_set(s).insert(x@),
{
    assert forall|t: Seq<char>| tag_set(s.push(x)).contains(t) implies tag_set(s).insert(
        x@,
    ).contains(t) by {
        let i = choose|i: int| 0 <= i < s.push(x).len() && s.push(x)[i]@ == t;
        if i < s.len() {
            assert(s[i]@ == t);
        } else {
            assert(t == x@);
        }
    }
    assert forall|t: Seq<char>| tag_set(s).insert(x@).contains(t) implies tag_set(
        s.push(x),
    ).contains(t) by {
        if tag_set(s).contains(t) {
            let i = choose|i: int| 0 <= i < s.len() && s[i]@ == t;
            assert(s.push(x)[i]@ == t);
        } else {
            assert(s.push(x)[s.len() as int]@ == t);
        }
    }
    assert(tag_set(s.push(x)) =~= tag_set(s).insert(x@));
}

proof fn lemma_tag_set_take_succ(s: Seq<String>, i: int)
    requires
        0 <= i < s.len(),
    ensures
        tag_set(s.take(i + 1)) == tag_set(s.take(i)).insert(s[i]@),
{
    assert(s.take(i + 1) =~= s.take(i).push(s[i]));
    lemma_tag_set_push(s.take(i), s[i]);
}

/// The union of two tag lists as a list without new duplicates.
fn union_strings(t: &Vec<String>, pt: &Vec<String>) -> (r: Vec<String>)
    ensures
        tag_set(r@) == tag_set(t@).union(tag_set(pt@)),
{
    let mut out = clone_strings(t);
    let mut i: usize = 0;
    proof {
        assert(tag_set(out@) =~= tag_set(t@).union(tag_set(pt@.take(0))));
    }
    while i < pt.len()
        invariant
            i <= pt@.len(),
            tag_set(out@) == tag_set(t@).union(tag_set(pt@.take(i as int))),
        decreases pt@.len() - i,
    {
        let ghost prev = out@;
        proof {
            lemma_tag_set_take_succ(pt@, i as int);
        }
        if !vec_has_str(&out, pt[i].as_str()) {
            let x = pt[i].clone();
            let ghost xg = x;
            out.push(x);
            proof {
                lemma_tag_set_push(prev, xg);
                assert(tag_set(out@) =~= tag_set(t@).union(tag_set(pt@.take(i + 1))));
            }
        } else {
            proof {
                assert(tag_set(out@) =~= tag_set(t@).union(tag_set(pt@.take(i + 1))));
            }
        }
        i = i + 1;
    }
    proof {
        assert(pt@.take(pt@.len() as int) =~= pt@);
    }
    out
}

impl Merge for Relation {
    open spec fn sparent(v: RelationV) -> Option<Seq<char>> {
        v.parent
    }

    open spec fn smerge(child: RelationV, parent: RelationV) -> RelationV {
        rel_merge(child, parent)
    }

    open spec fn swf(&self) -> bool {
        true
    }

    fn parent(&self) -> (r: Option<String>) {
        clone_opt_string(&self.parent)
    }

    fn merge(&mut self, parent: &Self) {
        if self.tags.is_none() {
            if parent.tags.is_some() {
                self.tags = Some(clone_strings(parent.tags.as_ref().unwrap()));
            }
        } else if parent.tags.is_some() {
            let u = union_strings(self.tags.as_ref().unwrap(), parent.tags.as_ref().unwrap());
            self.tags = Some(u);
        }
        if self.right.is_none() {
            self.right = clone_opt_string(&parent.right);
        }
        if self.description.is_none() {
            self.description = clone_opt_string(&parent.description);
        }
        if self.technology.is_none() {
            self.technology = clone_opt_string(&parent.technology);
        }
        if self.definition.is_none() {
            self.definition = clone_opt_string(&parent.definition);
        }
        proof {
            assert(self.deep_view() =~= rel_merge(old(self).deep_view(), parent.deep_view()));
        }
    }

    fn duplicate(&self) -> (r: Self) {
        let tags = match &self.tags {
            Some(v) => Some(clone_strings(v)),
            None => None,
        };
        let r = Relation {
            parent: clone_opt_string(&self.parent),
            tags,
            left: clone_opt_string(&self.left),
            right: clone_opt_string(&self.right),
            description: clone_opt_string(&self.description),
            technology: clone_opt_string(&self.technology),
            definition: clone_opt_string(&self.definition),
        };
        proof {
            assert(r.deep_view() =~= self.deep_view());
        }
        r
    }
}

} // verus!
