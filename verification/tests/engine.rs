use symo::model::Model;
use symo::node::Node;
use symo::relation::Relation;
use symo::Error;

fn s(x: &str) -> String {
    x.to_string()
}

fn node(parent: Option<&str>, name: Option<&str>, definition: Option<&str>) -> Node {
    Node {
        id: None,
        parent: parent.map(s),
        name: name.map(s),
        description: None,
        technology: None,
        relations: None,
        definition: definition.map(s),
    }
}

fn relation(
    parent: Option<&str>,
    tags: Option<Vec<&str>>,
    right: Option<&str>,
    definition: Option<&str>,
) -> Relation {
    Relation {
        parent: parent.map(s),
        tags: tags.map(|v| v.into_iter().map(s).collect()),
        left: None,
        right: right.map(s),
        description: None,
        technology: None,
        definition: definition.map(s),
    }
}

fn empty_model() -> Model {
    Model {
        relations: Vec::new(),
        nodes: Vec::new(),
        diagrams: Vec::new(),
    }
}

fn tags_of(r: &Relation) -> Vec<String> {
    let mut t = r.tags.clone().unwrap_or_default();
    t.sort();
    t
}

fn node_by<'a>(m: &'a Model, key: &str) -> &'a Node {
    &m.nodes.iter().find(|e| e.0 == key).unwrap().1
}

#[test]
fn definition_inherited_from_parent() {
    // Two fragments declare A with a definition and B with parent A; after
    // composition B inherits A's definition.
    let mut f1 = empty_model();
    f1.nodes.push((s("A"), node(None, None, Some("a"))));
    let mut f2 = empty_model();
    f2.nodes.push((s("B"), node(Some("A"), None, None)));
    let m = Model::compose(vec![f1, f2]).unwrap();
    assert_eq!(node_by(&m, "B").definition.as_deref(), Some("a"));
    assert_eq!(node_by(&m, "A").definition.as_deref(), Some("a"));
    assert_eq!(node_by(&m, "B").id.as_deref(), Some("B"));
}

#[test]
fn nearest_ancestor_wins() {
    let mut f = empty_model();
    f.nodes.push((s("root"), node(None, Some("root name"), Some("root def"))));
    f.nodes.push((s("mid"), node(Some("root"), Some("mid name"), None)));
    f.nodes.push((s("leaf"), node(Some("mid"), None, None)));
    let m = Model::compose(vec![f]).unwrap();
    // leaf's name comes from mid (nearest), its definition from root.
    assert_eq!(node_by(&m, "leaf").name.as_deref(), Some("mid name"));
    assert_eq!(node_by(&m, "leaf").definition.as_deref(), Some("root def"));
}

#[test]
fn own_value_beats_inherited() {
    let mut f = empty_model();
    f.nodes.push((s("p"), node(None, Some("parent name"), Some("pd"))));
    f.nodes.push((s("c"), node(Some("p"), Some("child name"), None)));
    let m = Model::compose(vec![f]).unwrap();
    assert_eq!(node_by(&m, "c").name.as_deref(), Some("child name"));
}

#[test]
fn unknown_parent_reported_once() {
    let mut f = empty_model();
    f.nodes.push((s("A"), node(None, None, Some("a"))));
    f.nodes.push((s("B"), node(Some("ghost"), None, None)));
    match Model::compose(vec![f]) {
        Err(Error::NodeHasUnknownParent { list }) => {
            assert_eq!(list, vec![(s("B"), s("ghost"))]);
        }
        other => panic!("expected unknown-parent failure, got {other:?}"),
    }
}

#[test]
fn parent_cycle_fails_as_unknown_parent() {
    let mut f = empty_model();
    f.nodes.push((s("A"), node(Some("B"), None, None)));
    f.nodes.push((s("B"), node(Some("A"), None, None)));
    match Model::compose(vec![f]) {
        Err(Error::NodeHasUnknownParent { list }) => {
            assert_eq!(list, vec![(s("A"), s("B")), (s("B"), s("A"))]);
        }
        other => panic!("expected unknown-parent failure, got {other:?}"),
    }
}

#[test]
fn relation_catalog_unknown_parent_accumulates() {
    let mut f = empty_model();
    let mut n1 = node(None, None, Some("d"));
    n1.relations = Some(vec![(s("k"), vec![relation(Some("nope"), None, None, None)])]);
    let mut n2 = node(None, None, Some("d"));
    n2.relations = Some(vec![(s("j"), vec![relation(Some("gone"), None, None, None)])]);
    f.nodes.push((s("N1"), n1));
    f.nodes.push((s("N2"), n2));
    match Model::compose(vec![f]) {
        Err(Error::NodeRelationHasUnknownParent { list }) => {
            assert_eq!(
                list,
                vec![(s("N1"), s("k"), s("nope")), (s("N2"), s("j"), s("gone"))]
            );
        }
        other => panic!("expected relation unknown-parent failure, got {other:?}"),
    }
}

#[test]
fn relation_tags_are_unioned() {
    // A catalog template carries {x}; an instance inheriting from it with
    // its own {y} ends with {x, y}, left stamped with the owning node.
    let mut f = empty_model();
    f.relations.push((s("base"), relation(None, Some(vec!["x"]), None, None)));
    let mut n = node(None, None, Some("d"));
    n.relations = Some(vec![(
        s("base"),
        vec![relation(Some("base"), Some(vec!["y"]), None, None)],
    )]);
    f.nodes.push((s("N"), n));
    let m = Model::compose(vec![f]).unwrap();
    let inst = &node_by(&m, "N").relations.as_ref().unwrap()[0].1[0];
    assert_eq!(tags_of(inst), vec![s("x"), s("y")]);
    assert_eq!(inst.left.as_deref(), Some("N"));
    assert_eq!(inst.right.as_deref(), Some("base"));
}

#[test]
fn parent_relations_propagate_to_child() {
    let mut f = empty_model();
    f.relations.push((s("uses"), relation(None, None, None, None)));
    let mut p = node(None, None, Some("pd"));
    p.relations = Some(vec![(
        s("uses"),
        vec![relation(Some("uses"), None, Some("target"), Some("p rel"))],
    )]);
    let mut c = node(Some("P"), None, None);
    c.relations = Some(vec![]);
    f.nodes.push((s("P"), p));
    f.nodes.push((s("C"), c));
    let m = Model::compose(vec![f]).unwrap();
    let crels = node_by(&m, "C").relations.as_ref().unwrap();
    assert_eq!(crels.len(), 1);
    assert_eq!(crels[0].0, s("uses"));
    assert_eq!(crels[0].1[0].definition.as_deref(), Some("p rel"));
}

#[test]
fn bare_child_inherits_parent_relations() {
    // A child without a relations mapping of its own receives clones of
    // the parent's instances in a fresh mapping.
    let mut f = empty_model();
    f.relations.push((s("uses"), relation(None, None, None, None)));
    let mut p = node(None, None, Some("pd"));
    p.relations = Some(vec![(
        s("uses"),
        vec![relation(Some("uses"), None, Some("t"), Some("d"))],
    )]);
    f.nodes.push((s("P"), p));
    f.nodes.push((s("C"), node(Some("P"), None, None)));
    let m = Model::compose(vec![f]).unwrap();
    let crels = node_by(&m, "C").relations.as_ref().unwrap();
    assert_eq!(crels.len(), 1);
    assert_eq!(crels[0].0, s("uses"));
    assert_eq!(crels[0].1.len(), 1);
    assert_eq!(crels[0].1[0].definition.as_deref(), Some("d"));
}

#[test]
fn existing_instance_under_key_is_merged_and_stamped() {
    // The child already holds an instance under the parent's catalog key:
    // the parent's fields fill its unset ones, its left endpoint is
    // stamped with the child's id, and nothing is appended.
    let mut f = empty_model();
    let mut p = node(None, None, Some("pd"));
    p.relations = Some(vec![(
        s("uses"),
        vec![relation(None, None, Some("tgt"), Some("p def"))],
    )]);
    let mut c = node(Some("P"), None, None);
    c.relations = Some(vec![(s("uses"), vec![relation(None, None, None, None)])]);
    f.nodes.push((s("P"), p));
    f.nodes.push((s("C"), c));
    let m = Model::compose(vec![f]).unwrap();
    let crels = node_by(&m, "C").relations.as_ref().unwrap();
    assert_eq!(crels.len(), 1);
    assert_eq!(crels[0].1.len(), 1);
    let inst = &crels[0].1[0];
    assert_eq!(inst.left.as_deref(), Some("C"));
    assert_eq!(inst.right.as_deref(), Some("tgt"));
    assert_eq!(inst.definition.as_deref(), Some("p def"));
}

#[test]
fn later_fragment_overwrites_colliding_key() {
    let mut f1 = empty_model();
    f1.diagrams.push((s("d"), s("first")));
    let mut f2 = empty_model();
    f2.diagrams.push((s("d"), s("second")));
    let m = Model::aggregate(vec![f1, f2]);
    assert_eq!(m.diagrams, vec![(s("d"), s("second"))]);
}

fn diagram_model() -> Model {
    let mut m = empty_model();
    let mut n1 = node(None, None, Some("def N1"));
    n1.relations = Some(vec![(
        s("r"),
        vec![
            relation(None, Some(vec!["x"]), Some("N2"), Some("b rel")),
            relation(None, Some(vec!["y"]), Some("N2"), Some("a rel")),
            relation(None, Some(vec!["x"]), Some("missing"), Some("z rel")),
        ],
    )]);
    m.nodes.push((s("N1"), n1));
    m.nodes.push((s("N2"), node(None, None, Some("def N2"))));
    m.diagrams.push((s("d"), s(" N2 \nN1\nstranger\n")));
    m
}

#[test]
fn diagram_block_is_sorted_and_filtered() {
    let m = diagram_model();
    // Members sorted: N1 before N2. N1's qualifying relations sorted by
    // text; the relation aimed at a non-node is excluded.
    let out = m.diagram_definitions("d", &vec![]).unwrap();
    assert_eq!(out, "\ndef N1\na rel\nb rel\ndef N2");
}

#[test]
fn diagram_assembly_is_deterministic() {
    let m = diagram_model();
    let a = m.diagram_definitions("d", &vec![]).unwrap();
    let b = m.diagram_definitions("d", &vec![]).unwrap();
    assert_eq!(a, b);
}

#[test]
fn tag_filter_restricts_relations() {
    let m = diagram_model();
    let out = m.diagram_definitions("d", &vec![s("y")]).unwrap();
    assert_eq!(out, "\ndef N1\na rel\ndef N2");
    let none = m.diagram_definitions("d", &vec![s("zzz")]).unwrap();
    assert_eq!(none, "\ndef N1\ndef N2");
}

#[test]
fn excluded_target_keeps_own_definitions() {
    // Diagram lists N1 and N2 but N2 is not declared as a node: the
    // relation aimed at it is excluded and only declared members remain.
    let mut m = empty_model();
    let mut n1 = node(None, None, Some("def N1"));
    n1.relations = Some(vec![(
        s("r"),
        vec![relation(None, None, Some("N2"), Some("N1->N2"))],
    )]);
    m.nodes.push((s("N1"), n1));
    m.diagrams.push((s("d"), s("N1\nN2")));
    let out = m.diagram_definitions("d", &vec![]).unwrap();
    assert_eq!(out, "\ndef N1");
}

#[test]
fn member_without_definition_fails_assembly() {
    let mut m = empty_model();
    m.nodes.push((s("N"), node(None, None, None)));
    m.diagrams.push((s("d"), s("N")));
    match m.diagram_definitions("d", &vec![]) {
        Err(Error::NodeHasNoDefinition(n)) => {
            assert_eq!(n.id, None);
            assert_eq!(n.definition, None);
        }
        other => panic!("expected missing-definition failure, got {other:?}"),
    }
}

#[test]
fn node_definition_renders_with_fields() {
    let mut n = node(None, Some("Web"), Some("container {{name}}"));
    n.render_definition().unwrap();
    assert_eq!(n.definition.as_deref(), Some("container Web"));
}

#[test]
fn unset_fields_render_empty() {
    let mut n = node(None, None, Some("[{{name}}]"));
    n.render_definition().unwrap();
    assert_eq!(n.definition.as_deref(), Some("[]"));
}

#[test]
fn strict_mode_rejects_unknown_variable() {
    let mut n = node(None, None, Some("{{nonsense}}"));
    match n.render_definition() {
        Err(Error::Render(_)) => {}
        other => panic!("expected render failure, got {other:?}"),
    }
}

#[test]
fn missing_definition_fails_render() {
    let mut n = node(None, None, None);
    match n.render_definition() {
        Err(Error::NodeHasNoDefinition(_)) => {}
        other => panic!("expected missing-definition failure, got {other:?}"),
    }
}

#[test]
fn relation_definition_renders_endpoints() {
    let mut r = relation(None, None, Some("db"), Some("{{left}} -> {{right}}"));
    r.left = Some(s("app"));
    r.render_definition().unwrap();
    assert_eq!(r.definition.as_deref(), Some("app -> db"));
}

#[test]
fn model_render_passes_expand_all_definitions() {
    let mut m = empty_model();
    let mut n = node(None, Some("A name"), Some("node {{name}}"));
    n.relations = Some(vec![(
        s("r"),
        vec![relation(None, None, Some("B"), Some("to {{right}}"))],
    )]);
    m.nodes.push((s("A"), n));
    symo::render::render_nodes_definitions(&mut m).unwrap();
    symo::render::render_nodes_relations_definitions(&mut m).unwrap();
    assert_eq!(node_by(&m, "A").definition.as_deref(), Some("node A name"));
    let rel0 = &node_by(&m, "A").relations.as_ref().unwrap()[0].1[0];
    assert_eq!(rel0.definition.as_deref(), Some("to B"));
}

#[test]
fn diagram_variables_name_every_named_node() {
    let mut m = empty_model();
    m.nodes.push((s("n1"), node(None, Some("Node One"), None)));
    m.nodes.push((s("n2"), node(None, None, None)));
    let vars = m.diagram_variables("d0");
    assert_eq!(
        vars,
        vec![
            (s("diagram-name"), s("d0")),
            (s("n1-name"), s("\"Node One\"")),
        ]
    );
}

#[test]
fn generic_merge_resolves_relations_too() {
    let mut entries = vec![
        (s("child"), relation(Some("base"), None, None, None)),
        (s("base"), relation(None, None, Some("tgt"), Some("base def"))),
    ];
    symo::merge::merge(&mut entries).unwrap();
    let child = &entries[0].1;
    assert_eq!(child.right.as_deref(), Some("tgt"));
    assert_eq!(child.definition.as_deref(), Some("base def"));
}

#[test]
fn text_order_and_lines() {
    assert!(symo::text::str_leq("abc", "abd"));
    assert!(symo::text::str_leq("ab", "abc"));
    assert!(!symo::text::str_leq("b", "ab"));
    assert!(symo::text::str_eq("same", "same"));
    assert!(!symo::text::str_eq("same", "sane"));
    let sorted = symo::text::sort_strings(&vec![s("b"), s("a"), s("b"), s("A")]);
    assert_eq!(sorted, vec![s("A"), s("a"), s("b"), s("b")]);
    let lines = symo::text::trimmed_lines("  a \nb\n");
    assert_eq!(lines, vec!["a", "b", ""]);
    let wide = symo::text::trimmed_lines("\u{a0}a\u{3000}\nb");
    assert_eq!(wide, vec!["a", "b"]);
}

#[test]
fn empty_model_composes_and_assembles_empty() {
    let mut m = Model::compose(vec![empty_model()]).unwrap();
    assert!(m.relations.is_empty() && m.nodes.is_empty() && m.diagrams.is_empty());
    m.diagrams.push((s("d"), s("")));
    let out = m.diagram_definitions("d", &vec![]).unwrap();
    assert_eq!(out, "");
}

#[test]
fn relation_without_definition_fails_render() {
    let mut r = relation(None, None, Some("x"), None);
    match r.render_definition() {
        Err(Error::RelationHasNoDefinition(_)) => {}
        other => panic!("expected missing-definition failure, got {other:?}"),
    }
}

#[test]
fn relation_without_definition_is_skipped_in_blocks() {
    // A qualifying relation with no definition is silently left out of the
    // block; only the node's own definition remains.
    let mut m = empty_model();
    let mut n1 = node(None, None, Some("def N1"));
    n1.relations = Some(vec![(s("r"), vec![relation(None, None, Some("N1"), None)])]);
    m.nodes.push((s("N1"), n1));
    m.diagrams.push((s("d"), s("N1")));
    let out = m.diagram_definitions("d", &vec![]).unwrap();
    assert_eq!(out, "\ndef N1");
}
