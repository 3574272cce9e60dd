//! The graph's general guarantees, stated and proved once over the
//! specification-level transitions that the executable operations are bound
//! to by their contracts.

use vstd::prelude::*;

use crate::entity::{merge_class, ClassView, FnView};
use crate::graph::{
    add_class_keys, add_class_seq, at_most_one_per_pair, first_rel_index,
    has_rel, insert_outcome, insert_rel, lemma_first_name_index_of, lemma_first_rel_index,
    lemma_first_rel_index_of, promotes, rel_matches, RelationOutcome, UMLGraph,
};
use crate::query::query_spec;
use crate::relation::{
    kind_rank_spec, rel_views, same_objects_spec, RelView, UMLRelation, UMLRelationKind,
};

verus! {

/// Law: a candidate for an already-occupied ordered pair replaces the stored
/// kind exactly when its kind outranks the stored one, and leaves the store
/// unchanged otherwise. (The promotion of an opposite unidirectional
/// association is a separate rule that takes precedence, so it is excluded
/// here.)
pub proof fn lemma_priority_replacement(s: Seq<RelView>, r: RelView, i: int)
    requires
        at_most_one_per_pair(s),
        !promotes(s, r),
        0 <= i < s.len(),
        s[i].from == r.from,
        s[i].to == r.to,
    ensures
        kind_rank_spec(s[i].kind) < kind_rank_spec(r.kind) ==> insert_rel(s, r) == s.update(i, r),
        kind_rank_spec(r.kind) <= kind_rank_spec(s[i].kind) ==> insert_rel(s, r) == s,
{
    assert(rel_matches(s[i], r.from, r.to));
    assert(has_rel(s, r.from, r.to));
    lemma_first_rel_index(s, r.from, r.to);
    let f = first_rel_index(s, r.from, r.to);
    if f < i {
        assert(!(s[f].from == s[i].from && s[f].to == s[i].to));
        assert(false);
    }
    assert(f == i);
}

/// Law: asserting a unidirectional association in both directions, in either
/// order, leaves a single relation between the two entities, a bidirectional
/// association, in the slot of the first of the two; no second edge appears.
/// Swapping `a` and `b` in the instantiation gives the other order.
pub proof fn lemma_uni_bi_promotion(s: Seq<RelView>, a: Seq<char>, b: Seq<char>)
    requires
        !has_rel(s, a, b),
        !has_rel(s, b, a),
        a != b,
    ensures
        insert_rel(
            insert_rel(s, RelView { from: a, to: b, kind: UMLRelationKind::UMLAssociationUni }),
            RelView { from: b, to: a, kind: UMLRelationKind::UMLAssociationUni },
        ) == s.push(RelView { from: a, to: b, kind: UMLRelationKind::UMLAssociationBi }),
        ({
            let t = insert_rel(
                insert_rel(
                    s,
                    RelView { from: a, to: b, kind: UMLRelationKind::UMLAssociationUni },
                ),
                RelView { from: b, to: a, kind: UMLRelationKind::UMLAssociationUni },
            );
            let bi = RelView { from: a, to: b, kind: UMLRelationKind::UMLAssociationBi };
            &&& t.len() == s.len() + 1
            &&& t[s.len() as int] == bi
            &&& forall|i: int| 0 <= i < s.len() ==> !same_objects_spec(#[trigger] t[i], bi)
        }),
{
    let r1 = RelView { from: a, to: b, kind: UMLRelationKind::UMLAssociationUni };
    let r2 = RelView { from: b, to: a, kind: UMLRelationKind::UMLAssociationUni };
    assert(!promotes(s, r1));
    let s1 = insert_rel(s, r1);
    assert(s1 == s.push(r1));
    assert(rel_matches(s1[s.len() as int], a, b));
    assert forall|j: int| 0 <= j < s.len() implies !rel_matches(#[trigger] s1[j], a, b) by {
        assert(s1[j] == s[j]);
    }
    lemma_first_rel_index_of(s1, a, b, s.len() as int);
    assert(promotes(s1, r2));
    let bi = RelView { from: a, to: b, kind: UMLRelationKind::UMLAssociationBi };
    assert(insert_rel(s1, r2) =~= s.push(bi));
    let t = insert_rel(s1, r2);
    assert forall|i: int| 0 <= i < s.len() implies !same_objects_spec(#[trigger] t[i], bi) by {
        assert(t[i] == s[i]);
        if same_objects_spec(s[i], bi) {
            if s[i].from == a && s[i].to == b {
                assert(rel_matches(s[i], a, b));
                assert(has_rel(s, a, b));
            } else {
                assert(rel_matches(s[i], b, a));
                assert(has_rel(s, b, a));
            }
        }
    }
}

/// Law: re-offering a relation immediately after it was stored as a new
/// relation changes nothing: the repeated candidate is superseded by its own
/// first copy.
pub proof fn lemma_insert_idempotent(s: Seq<RelView>, r: RelView)
    requires
        r.from != r.to,
        insert_outcome(s, r) == RelationOutcome::Added,
    ensures
        insert_rel(insert_rel(s, r), r) == insert_rel(s, r),
        insert_outcome(insert_rel(s, r), r) == RelationOutcome::Superseded,
{
    assert(!promotes(s, r) && !has_rel(s, r.from, r.to));
    let s1 = insert_rel(s, r);
    assert(s1 == s.push(r));
    if has_rel(s, r.to, r.from) {
        lemma_first_rel_index(s, r.to, r.from);
        let f = first_rel_index(s, r.to, r.from);
        assert(s1[f] == s[f]);
        assert forall|j: int| 0 <= j < f implies !rel_matches(#[trigger] s1[j], r.to, r.from) by {
            assert(s1[j] == s[j]);
        }
        lemma_first_rel_index_of(s1, r.to, r.from, f);
        assert(!promotes(s1, r));
    } else {
        if has_rel(s1, r.to, r.from) {
            let k = choose|k: int|
                0 <= k < s1.len() && rel_matches(#[trigger] s1[k], r.to, r.from);
            if k < s.len() {
                assert(has_rel(s, r.to, r.from));
            } else {
                assert(s1[k] == r && r.from == r.to);
            }
            assert(false);
        }
        assert(!promotes(s1, r));
    }
    assert(rel_matches(s1[s.len() as int], r.from, r.to));
    assert forall|j: int| 0 <= j < s.len() implies !rel_matches(#[trigger] s1[j], r.from, r.to) by {
        assert(s1[j] == s[j]);
    }
    lemma_first_rel_index_of(s1, r.from, r.to, s.len() as int);
}

/// Law: registering the same class name twice, when the name was new,
/// yields one class record whose attributes are the union of both
/// observations; the second registration adds no record and no name.
pub proof fn lemma_class_merge_idempotent(
    keys: Seq<Seq<char>>,
    s: Seq<ClassView>,
    c1: ClassView,
    c2: ClassView,
)
    requires
        keys.len() == s.len(),
        !keys.contains(c1.name),
        c2.name == c1.name,
    ensures
        add_class_keys(add_class_keys(keys, c1), c2) == add_class_keys(keys, c1),
        add_class_seq(add_class_keys(keys, c1), add_class_seq(keys, s, c1), c2) == s.push(
            merge_class(c1, c2),
        ),
{
    let keys1 = add_class_keys(keys, c1);
    let s1 = add_class_seq(keys, s, c1);
    assert(keys1 == keys.push(c1.name));
    assert(s1 == s.push(c1));
    assert(keys1[keys.len() as int] == c1.name);
    assert(keys1.contains(c2.name));
    assert forall|j: int| 0 <= j < keys.len() implies #[trigger] keys1[j] != c2.name by {
        assert(keys1[j] == keys[j]);
        if keys[j] == c2.name {
            assert(keys.contains(c1.name));
        }
    }
    lemma_first_name_index_of(keys1, c2.name, keys.len() as int);
    assert(s1[keys.len() as int] == c1);
    assert(add_class_seq(keys1, s1, c2) =~= s.push(merge_class(c1, c2)));
}

/// Law: function records are never merged: registering two records with the
/// same name appends two distinct entries.
pub proof fn lemma_fn_duplication(fs: Seq<FnView>, f1: FnView, f2: FnView)
    requires
        f1.name == f2.name,
    ensures
        fs.push(f1).push(f2).len() == fs.len() + 2,
        fs.push(f1).push(f2)[fs.len() as int] == f1,
        fs.push(f1).push(f2)[fs.len() as int + 1] == f2,
{
}

/// Law: with no mutation in between, two runs of the relation query return
/// equal relation lists: the query is a function of the stored relations
/// alone.
pub proof fn lemma_query_deterministic(g: UMLGraph, out1: Vec<UMLRelation>, out2: Vec<UMLRelation>)
    requires
        rel_views(out1@) == query_spec(g.rels()),
        rel_views(out2@) == query_spec(g.rels()),
    ensures
        rel_views(out1@) == rel_views(out2@),
{
}

} // verus!
