use uml_graph::entity::{UMLClass, UMLFn};
use uml_graph::graph::{RelationOutcome, UMLGraph};
use uml_graph::relation::{UMLRelation, UMLRelationKind};

fn class(name: &str) -> UMLClass {
    UMLClass::new(name, vec![], vec![])
}

fn rel(from: &str, to: &str, kind: UMLRelationKind) -> UMLRelation {
    UMLRelation::new(from, to, kind)
}

fn graph_ab() -> UMLGraph {
    let mut g = UMLGraph::new();
    g.add_struct(class("A"));
    g.add_struct(class("B"));
    g
}

#[test]
fn new_graph_is_empty() {
    let g = UMLGraph::new();
    assert!(g.structs.is_empty());
    assert!(g.fns.is_empty());
    assert_eq!(g.get_relations(), vec![]);
}

#[test]
fn self_loop_is_rejected() {
    let mut g = graph_ab();
    let out = g.add_relation(rel("A", "A", UMLRelationKind::UMLDependency));
    assert_eq!(out, RelationOutcome::Rejected);
    assert_eq!(g.get_relations(), vec![]);
}

#[test]
fn unregistered_endpoint_is_rejected() {
    let mut g = UMLGraph::new();
    g.add_struct(class("A"));
    let out = g.add_relation(rel("A", "B", UMLRelationKind::UMLDependency));
    assert_eq!(out, RelationOutcome::Rejected);
    let out = g.add_relation(rel("B", "A", UMLRelationKind::UMLDependency));
    assert_eq!(out, RelationOutcome::Rejected);
    assert_eq!(g.get_relations(), vec![]);
}

#[test]
fn duplicate_directed_edge_is_superseded() {
    let mut g = graph_ab();
    let out = g.add_relation(rel("A", "B", UMLRelationKind::UMLDependency));
    assert_eq!(out, RelationOutcome::Added);
    let out = g.add_relation(rel("A", "B", UMLRelationKind::UMLDependency));
    assert_eq!(out, RelationOutcome::Superseded);
    assert_eq!(
        g.get_relations(),
        vec![rel("A", "B", UMLRelationKind::UMLDependency)]
    );
}

#[test]
fn priority_replacement() {
    let mut g = graph_ab();
    assert_eq!(
        g.add_relation(rel("A", "B", UMLRelationKind::UMLDependency)),
        RelationOutcome::Added
    );
    assert_eq!(
        g.add_relation(rel("A", "B", UMLRelationKind::UMLInheritance)),
        RelationOutcome::Replaced
    );
    assert_eq!(
        g.get_relations(),
        vec![rel("A", "B", UMLRelationKind::UMLInheritance)]
    );
    // a lower-ranked candidate leaves the stored kind unchanged
    assert_eq!(
        g.add_relation(rel("A", "B", UMLRelationKind::UMLAggregation)),
        RelationOutcome::Superseded
    );
    assert_eq!(
        g.get_relations(),
        vec![rel("A", "B", UMLRelationKind::UMLInheritance)]
    );
}

#[test]
fn uni_association_promotes_to_bi() {
    let mut g = graph_ab();
    assert_eq!(
        g.add_relation(rel("A", "B", UMLRelationKind::UMLAssociationUni)),
        RelationOutcome::Added
    );
    assert_eq!(
        g.add_relation(rel("B", "A", UMLRelationKind::UMLAssociationUni)),
        RelationOutcome::Promoted
    );
    assert_eq!(
        g.get_relations(),
        vec![rel("A", "B", UMLRelationKind::UMLAssociationBi)]
    );
}

#[test]
fn uni_association_promotes_to_bi_other_order() {
    let mut g = graph_ab();
    assert_eq!(
        g.add_relation(rel("B", "A", UMLRelationKind::UMLAssociationUni)),
        RelationOutcome::Added
    );
    assert_eq!(
        g.add_relation(rel("A", "B", UMLRelationKind::UMLAssociationUni)),
        RelationOutcome::Promoted
    );
    assert_eq!(
        g.get_relations(),
        vec![rel("B", "A", UMLRelationKind::UMLAssociationBi)]
    );
}

#[test]
fn no_promotion_when_reverse_kind_differs() {
    let mut g = graph_ab();
    assert_eq!(
        g.add_relation(rel("A", "B", UMLRelationKind::UMLAggregation)),
        RelationOutcome::Added
    );
    // the reverse stored kind is not a unidirectional association, so the
    // candidate is stored as its own edge
    assert_eq!(
        g.add_relation(rel("B", "A", UMLRelationKind::UMLAssociationUni)),
        RelationOutcome::Added
    );
    // at read time the higher-ranked aggregation wins the pair
    assert_eq!(
        g.get_relations(),
        vec![rel("A", "B", UMLRelationKind::UMLAggregation)]
    );
}

#[test]
fn class_merge_unites_attributes() {
    let mut g = UMLGraph::new();
    g.add_struct(UMLClass::new(
        "A",
        vec!["f1".to_string()],
        vec!["m1".to_string()],
    ));
    g.add_struct(UMLClass::new("A", vec!["f2".to_string()], vec![]));
    assert_eq!(g.structs.len(), 1);
    assert_eq!(g.structs[0].0, "A");
    assert_eq!(g.structs[0].1.name, "A");
    assert_eq!(
        g.structs[0].1.fields,
        vec!["f1".to_string(), "f2".to_string()]
    );
    assert_eq!(g.structs[0].1.methods, vec!["m1".to_string()]);
}

#[test]
fn class_merge_drops_repeated_attributes() {
    let mut g = UMLGraph::new();
    g.add_struct(UMLClass::new("A", vec!["f1".to_string()], vec![]));
    g.add_struct(UMLClass::new(
        "A",
        vec!["f1".to_string(), "f2".to_string()],
        vec![],
    ));
    assert_eq!(g.structs.len(), 1);
    assert_eq!(
        g.structs[0].1.fields,
        vec!["f1".to_string(), "f2".to_string()]
    );
}

#[test]
fn functions_with_same_name_stay_distinct() {
    let mut g = UMLGraph::new();
    g.add_fn(UMLFn::new("f", vec!["first".to_string()]));
    g.add_fn(UMLFn::new("f", vec!["second".to_string()]));
    assert_eq!(g.fns.len(), 2);
    assert_eq!(g.fns[0].name, "f");
    assert_eq!(g.fns[1].name, "f");
    assert_eq!(g.fns[0].attrs, vec!["first".to_string()]);
    assert_eq!(g.fns[1].attrs, vec!["second".to_string()]);
}

#[test]
fn function_names_register_relation_endpoints() {
    let mut g = UMLGraph::new();
    g.add_struct(class("A"));
    g.add_fn(UMLFn::new("f", vec![]));
    assert_eq!(
        g.add_relation(rel("A", "f", UMLRelationKind::UMLDependency)),
        RelationOutcome::Added
    );
    assert_eq!(
        g.get_relations(),
        vec![rel("A", "f", UMLRelationKind::UMLDependency)]
    );
}

#[test]
fn query_is_deterministic() {
    let mut g = graph_ab();
    g.add_struct(class("C"));
    g.add_relation(rel("A", "B", UMLRelationKind::UMLAssociationUni));
    g.add_relation(rel("B", "C", UMLRelationKind::UMLDependency));
    g.add_relation(rel("C", "A", UMLRelationKind::UMLComposition));
    let first = g.get_relations();
    let second = g.get_relations();
    assert_eq!(first, second);
}

#[test]
fn end_to_end_single_survivor() {
    let mut g = graph_ab();
    assert_eq!(
        g.add_relation(rel("A", "B", UMLRelationKind::UMLAssociationUni)),
        RelationOutcome::Added
    );
    assert_eq!(
        g.add_relation(rel("B", "A", UMLRelationKind::UMLAssociationUni)),
        RelationOutcome::Promoted
    );
    // the bidirectional association outranks the dependency, which is
    // superseded at write time already
    assert_eq!(
        g.add_relation(rel("A", "B", UMLRelationKind::UMLDependency)),
        RelationOutcome::Superseded
    );
    assert_eq!(
        g.get_relations(),
        vec![rel("A", "B", UMLRelationKind::UMLAssociationBi)]
    );
}

#[test]
fn cross_direction_dominance_collapse() {
    let mut g = graph_ab();
    assert_eq!(
        g.add_relation(rel("A", "B", UMLRelationKind::UMLDependency)),
        RelationOutcome::Added
    );
    assert_eq!(
        g.add_relation(rel("B", "A", UMLRelationKind::UMLAggregation)),
        RelationOutcome::Added
    );
    // both directions live in storage; only the higher-ranked one is served
    assert_eq!(
        g.get_relations(),
        vec![rel("B", "A", UMLRelationKind::UMLAggregation)]
    );
}

#[test]
fn unmatched_uni_association_stays_uni() {
    let mut g = graph_ab();
    g.add_relation(rel("A", "B", UMLRelationKind::UMLAssociationUni));
    assert_eq!(
        g.get_relations(),
        vec![rel("A", "B", UMLRelationKind::UMLAssociationUni)]
    );
}
