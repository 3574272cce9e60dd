//! Relations: directed edges between named entities, and their kinds.

use vstd::prelude::*;

verus! {

/// The closed set of edge semantics that the graph distinguishes.
///
/// Kinds carry a total priority order, declared by the ranking table
/// [`kind_rank_spec`]; when two relations compete for the same pair of
/// endpoints, the higher-ranked kind wins.
#[derive(Clone, Copy, Debug, PartialEq, Eq, Structural)]
pub enum UMLRelationKind {
    UMLDependency,
    UMLAssociationUni,
    UMLAssociationBi,
    UMLAggregation,
    UMLComposition,
    UMLInheritance,
}

/// The priority ranking of relation kinds, as an explicit table.
///
/// The ranking is a configuration fact of the calling domain, not something
/// the graph algorithm derives. The order fixed here, from lowest to highest
/// priority, is: dependency, unidirectional association, bidirectional
/// association, aggregation, composition, inheritance.
pub open spec fn kind_rank_spec(k: UMLRelationKind) -> int {
    match k {
        UMLRelationKind::UMLDependency => 0,
        UMLRelationKind::UMLAssociationUni => 1,
        UMLRelationKind::UMLAssociationBi => 2,
        UMLRelationKind::UMLAggregation => 3,
        UMLRelationKind::UMLComposition => 4,
        UMLRelationKind::UMLInheritance => 5,
    }
}

/// Executable form of the priority table of [`kind_rank_spec`].
pub fn kind_rank(k: UMLRelationKind) -> (r: u8)
    ensures
        r as int == kind_rank_spec(k),
{
    match k {
        UMLRelationKind::UMLDependency => 0,
        UMLRelationKind::UMLAssociationUni => 1,
        UMLRelationKind::UMLAssociationBi => 2,
        UMLRelationKind::UMLAggregation => 3,
        UMLRelationKind::UMLComposition => 4,
        UMLRelationKind::UMLInheritance => 5,
    }
}

/// A directed relation: an ordered pair of entity names plus a kind.
#[derive(Debug, PartialEq, Eq)]
pub struct UMLRelation {
    pub from: String,
    pub to: String,
    pub kind: UMLRelationKind,
}

/// The mathematical value of a relation: the two endpoint names as character
/// sequences, plus the kind.
pub ghost struct RelView {
    pub from: Seq<char>,
    pub to: Seq<char>,
    pub kind: UMLRelationKind,
}

impl View for UMLRelation {
    type V = RelView;

    open spec fn view(&self) -> RelView {
        RelView { from: self.from@, to: self.to@, kind: self.kind }
    }
}

/// Two relations connect the same two endpoints, in either direction.
pub open spec fn same_objects_spec(a: RelView, b: RelView) -> bool {
    (a.from == b.from && a.to == b.to) || (a.from == b.to && a.to == b.from)
}

/// Two relations connect the same two endpoints in opposite directions.
pub open spec fn opposite_objects_spec(a: RelView, b: RelView) -> bool {
    a.from == b.to && a.to == b.from
}

impl UMLRelation {
    pub fn new(from: &str, to: &str, kind: UMLRelationKind) -> (r: UMLRelation)
        ensures
            r@ == (RelView { from: from@, to: to@, kind }),
    {
        UMLRelation { from: from.to_owned(), to: to.to_owned(), kind }
    }

    /// Whether `self` and `other` share their two endpoints, in either
    /// direction.
    pub fn same_objects(&self, other: &UMLRelation) -> (r: bool)
        ensures
            r == same_objects_spec(self@, other@),
    {
        (self.from == other.from && self.to == other.to) || (self.from == other.to && self.to
            == other.from)
    }

    /// Whether `self` and `other` share their two endpoints, in opposite
    /// directions.
    pub fn opposite_objects(&self, other: &UMLRelation) -> (r: bool)
        ensures
            r == opposite_objects_spec(self@, other@),
    {
        self.from == other.to && self.to == other.from
    }

    /// Replaces the kind of this relation, keeping its endpoints.
    pub fn change_relation_kind(&mut self, kind: UMLRelationKind)
        ensures
            final(self)@ == (RelView { from: old(self)@.from, to: old(self)@.to, kind }),
    {
        self.kind = kind;
    }
}

impl Clone for UMLRelation {
    fn clone(&self) -> (r: Self)
        ensures
            r@ == self@,
    {
        UMLRelation { from: self.from.clone(), to: self.to.clone(), kind: self.kind }
    }
}

/// The views of a sequence of relations.
pub open spec fn rel_views(s: Seq<UMLRelation>) -> Seq<RelView> {
    s.map_values(|r: UMLRelation| r@)
}

} // verus!
