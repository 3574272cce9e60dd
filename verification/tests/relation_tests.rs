use uml_graph::query::{dominance_collapse, merge_association};
use uml_graph::relation::{kind_rank, UMLRelation, UMLRelationKind};

fn rel(from: &str, to: &str, kind: UMLRelationKind) -> UMLRelation {
    UMLRelation::new(from, to, kind)
}

#[test]
fn kind_rank_table() {
    assert_eq!(kind_rank(UMLRelationKind::UMLDependency), 0);
    assert_eq!(kind_rank(UMLRelationKind::UMLAssociationUni), 1);
    assert_eq!(kind_rank(UMLRelationKind::UMLAssociationBi), 2);
    assert_eq!(kind_rank(UMLRelationKind::UMLAggregation), 3);
    assert_eq!(kind_rank(UMLRelationKind::UMLComposition), 4);
    assert_eq!(kind_rank(UMLRelationKind::UMLInheritance), 5);
}

#[test]
fn relation_new_keeps_endpoints() {
    let r = rel("A", "B", UMLRelationKind::UMLDependency);
    assert_eq!(r.from, "A");
    assert_eq!(r.to, "B");
    assert_eq!(r.kind, UMLRelationKind::UMLDependency);
}

#[test]
fn same_and_opposite_objects() {
    let ab = rel("A", "B", UMLRelationKind::UMLDependency);
    let ba = rel("B", "A", UMLRelationKind::UMLComposition);
    let ac = rel("A", "C", UMLRelationKind::UMLDependency);
    assert!(ab.same_objects(&ba));
    assert!(ab.same_objects(&ab));
    assert!(!ab.same_objects(&ac));
    assert!(ab.opposite_objects(&ba));
    assert!(!ab.opposite_objects(&ab));
    assert!(!ab.opposite_objects(&ac));
}

#[test]
fn dominance_keeps_highest_rank_per_pair() {
    let rels = vec![
        rel("A", "B", UMLRelationKind::UMLDependency),
        rel("B", "A", UMLRelationKind::UMLComposition),
        rel("A", "C", UMLRelationKind::UMLDependency),
    ];
    assert_eq!(
        dominance_collapse(&rels),
        vec![
            rel("B", "A", UMLRelationKind::UMLComposition),
            rel("A", "C", UMLRelationKind::UMLDependency),
        ]
    );
}

#[test]
fn dominance_equal_ranks_keep_earlier() {
    let rels = vec![
        rel("A", "B", UMLRelationKind::UMLDependency),
        rel("B", "A", UMLRelationKind::UMLDependency),
    ];
    assert_eq!(
        dominance_collapse(&rels),
        vec![rel("A", "B", UMLRelationKind::UMLDependency)]
    );
}

#[test]
fn merge_association_pairs_opposites() {
    let rels = vec![
        rel("A", "B", UMLRelationKind::UMLAssociationUni),
        rel("C", "D", UMLRelationKind::UMLDependency),
        rel("B", "A", UMLRelationKind::UMLAssociationUni),
    ];
    assert_eq!(
        merge_association(rels),
        vec![
            rel("C", "D", UMLRelationKind::UMLDependency),
            rel("B", "A", UMLRelationKind::UMLAssociationBi),
        ]
    );
}

#[test]
fn merge_association_emits_unmatched_last() {
    let rels = vec![
        rel("A", "B", UMLRelationKind::UMLAssociationUni),
        rel("C", "D", UMLRelationKind::UMLDependency),
        rel("A", "C", UMLRelationKind::UMLAssociationUni),
    ];
    assert_eq!(
        merge_association(rels),
        vec![
            rel("C", "D", UMLRelationKind::UMLDependency),
            rel("A", "B", UMLRelationKind::UMLAssociationUni),
            rel("A", "C", UMLRelationKind::UMLAssociationUni),
        ]
    );
}
