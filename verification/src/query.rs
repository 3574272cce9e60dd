//! The read-side normalization of the stored relation set: a dominance
//! collapse across edge directions, then pairing of opposite unidirectional
//! associations.

use vstd::prelude::*;

use crate::relation::{
    kind_rank, kind_rank_spec, opposite_objects_spec, rel_views, same_objects_spec, RelView,
    UMLRelation, UMLRelationKind,
};

verus! {

/// For the dominance collapse, the relation at `i` outranks the one at `j`:
/// its kind has strictly higher priority, or equal priority and `i` is the
/// earlier storage position.
pub open spec fn outranks(s: Seq<RelView>, i: int, j: int) -> bool {
    ||| kind_rank_spec(s[j].kind) < kind_rank_spec(s[i].kind)
    ||| (kind_rank_spec(s[j].kind) == kind_rank_spec(s[i].kind) && i < j)
}

/// The relation at `i` survives the dominance collapse: it outranks every
/// other relation sharing its two endpoints in either direction.
pub open spec fn survives(s: Seq<RelView>, i: int) -> bool {
    forall|j: int|
        0 <= j < s.len() && j != i && same_objects_spec(s[i], #[trigger] s[j]) ==> outranks(
            s,
            i,
            j,
        )
}

/// The survivors of the dominance collapse among the first `n` relations, in
/// storage order.
pub open spec fn dominance_upto(s: Seq<RelView>, n: int) -> Seq<RelView>
    decreases n,
{
    if n <= 0 {
        Seq::empty()
    } else if survives(s, n - 1) {
        dominance_upto(s, n - 1).push(s[n - 1])
    } else {
        dominance_upto(s, n - 1)
    }
}

/// Phase one: among relations sharing the same two endpoints in either
/// direction, only the single highest-priority one is kept.
pub open spec fn dominance(s: Seq<RelView>) -> Seq<RelView> {
    dominance_upto(s, s.len() as int)
}

/// Some pending association is the exact reverse of `r`.
pub open spec fn has_opposite(pending: Seq<RelView>, r: RelView) -> bool {
    exists|j: int| 0 <= j < pending.len() && opposite_objects_spec(r, #[trigger] pending[j])
}

/// The first index in `pending` of an exact reverse of `r`, meaningful when
/// [`has_opposite`] holds.
pub open spec fn first_opposite_index(pending: Seq<RelView>, r: RelView) -> int
    decreases pending.len(),
{
    if pending.len() == 0 {
        0
    } else if opposite_objects_spec(r, pending[0]) {
        0
    } else {
        1 + first_opposite_index(pending.drop_first(), r)
    }
}

/// The first reverse-match index is exactly the index a first-match search
/// finds.
pub proof fn lemma_first_opposite_index_of(pending: Seq<RelView>, r: RelView, i: int)
    requires
        0 <= i < pending.len(),
        opposite_objects_spec(r, pending[i]),
        forall|j: int| 0 <= j < i ==> !opposite_objects_spec(r, #[trigger] pending[j]),
    ensures
        has_opposite(pending, r),
        first_opposite_index(pending, r) == i,
    decreases pending.len(),
{
    if i > 0 {
        assert forall|j: int| 0 <= j < i - 1 implies !opposite_objects_spec(
            r,
            #[trigger] pending.drop_first()[j],
        ) by {
            assert(pending.drop_first()[j] == pending[j + 1]);
        }
        assert(pending.drop_first()[i - 1] == pending[i]);
        lemma_first_opposite_index_of(pending.drop_first(), r, i - 1);
    }
}

/// Phase two from position `i` on, with the relations already emitted and
/// the unidirectional associations still waiting for their reverse: each
/// unidirectional association meeting a waiting reverse one is emitted as a
/// single bidirectional association; every other relation is emitted as it
/// is; waiting associations left unmatched at the end are emitted last.
pub open spec fn merge_assoc_from(
    s: Seq<RelView>,
    i: int,
    emitted: Seq<RelView>,
    pending: Seq<RelView>,
) -> Seq<RelView>
    decreases s.len() - i,
{
    if i < 0 || i >= s.len() {
        emitted + pending
    } else {
        let r = s[i];
        if r.kind == UMLRelationKind::UMLAssociationUni {
            if has_opposite(pending, r) {
                merge_assoc_from(
                    s,
                    i + 1,
                    emitted.push(
                        RelView {
                            from: r.from,
                            to: r.to,
                            kind: UMLRelationKind::UMLAssociationBi,
                        },
                    ),
                    pending.remove(first_opposite_index(pending, r)),
                )
            } else {
                merge_assoc_from(s, i + 1, emitted, pending.push(r))
            }
        } else {
            merge_assoc_from(s, i + 1, emitted.push(r), pending)
        }
    }
}

/// Phase two, starting with nothing emitted and nothing waiting.
pub open spec fn merge_assoc(s: Seq<RelView>) -> Seq<RelView> {
    merge_assoc_from(s, 0, Seq::empty(), Seq::empty())
}

/// The normalized relation list: phase one, then phase two.
pub open spec fn query_spec(s: Seq<RelView>) -> Seq<RelView> {
    merge_assoc(dominance(s))
}

/// Whether the relation at `i` survives the dominance collapse.
fn survives_at(rels: &Vec<UMLRelation>, i: usize) -> (r: bool)
    requires
        i < rels@.len(),
    ensures
        r == survives(rel_views(rels@), i as int),
{
    let ghost s = rel_views(rels@);
    let mut j: usize = 0;
    while j < rels.len()
        invariant
            i < rels@.len(),
            j <= rels@.len(),
            s == rel_views(rels@),
            forall|k: int|
                0 <= k < j && k != i && same_objects_spec(s[i as int], #[trigger] s[k])
                    ==> outranks(s, i as int, k),
        decreases rels@.len() - j,
    {
        if j != i {
            if rels[i].same_objects(&rels[j]) {
                let rank_i = kind_rank(rels[i].kind);
                let rank_j = kind_rank(rels[j].kind);
                if rank_i < rank_j || (rank_i == rank_j && j < i) {
                    assert(!outranks(s, i as int, j as int));
                    assert(!survives(s, i as int));
                    return false;
                }
            }
        }
        j += 1;
    }
    true
}

/// Phase one over a relation list: keeps, in storage order, each relation
/// that outranks all others on its endpoint pair.
pub fn dominance_collapse(rels: &Vec<UMLRelation>) -> (out: Vec<UMLRelation>)
    ensures
        rel_views(out@) == dominance(rel_views(rels@)),
{
    let ghost s = rel_views(rels@);
    let mut out: Vec<UMLRelation> = Vec::new();
    let mut i: usize = 0;
    proof {
        assert(rel_views(out@) =~= dominance_upto(s, 0));
    }
    while i < rels.len()
        invariant
            i <= rels@.len(),
            s == rel_views(rels@),
            rel_views(out@) == dominance_upto(s, i as int),
        decreases rels@.len() - i,
    {
        let ghost prev = rel_views(out@);
        if survives_at(rels, i) {
            out.push(rels[i].clone());
            proof {
                assert(rel_views(out@) =~= prev.push(s[i as int]));
            }
        }
        i += 1;
    }
    out
}

/// The index of the first pending association that is the exact reverse of
/// `r`, if one is pending.
fn find_opposite(pending: &Vec<UMLRelation>, r: &UMLRelation) -> (res: Option<usize>)
    ensures
        match res {
            Some(j) => has_opposite(rel_views(pending@), r@) && j as int == first_opposite_index(
                rel_views(pending@),
                r@,
            ) && (j as int) < pending@.len(),
            None => !has_opposite(rel_views(pending@), r@),
        },
{
    let ghost p = rel_views(pending@);
    let mut j: usize = 0;
    while j < pending.len()
        invariant
            j <= pending@.len(),
            p == rel_views(pending@),
            forall|k: int| 0 <= k < j ==> !opposite_objects_spec(r@, #[trigger] p[k]),
        decreases pending@.len() - j,
    {
        if r.opposite_objects(&pending[j]) {
            proof {
                lemma_first_opposite_index_of(p, r@, j as int);
            }
            return Some(j);
        }
        j += 1;
    }
    None
}

/// Phase two over a relation list: pairs each unidirectional association
/// with a pending reverse one into a single bidirectional association,
/// passes every other relation through, and appends the associations left
/// unmatched.
pub fn merge_association(relations: Vec<UMLRelation>) -> (out: Vec<UMLRelation>)
    ensures
        rel_views(out@) == merge_assoc(rel_views(relations@)),
{
    let ghost s = rel_views(relations@);
    let mut results: Vec<UMLRelation> = Vec::new();
    let mut uni_associations: Vec<UMLRelation> = Vec::new();
    let mut i: usize = 0;
    proof {
        assert(rel_views(results@) =~= Seq::<RelView>::empty());
        assert(rel_views(uni_associations@) =~= Seq::<RelView>::empty());
    }
    while i < relations.len()
        invariant
            i <= relations@.len(),
            s == rel_views(relations@),
            merge_assoc_from(s, i as int, rel_views(results@), rel_views(uni_associations@))
                == merge_assoc(s),
        decreases relations@.len() - i,
    {
        let ghost emitted = rel_views(results@);
        let ghost pend = rel_views(uni_associations@);
        let r = &relations[i];
        assert(r@ == s[i as int]);
        if r.kind == UMLRelationKind::UMLAssociationUni {
            match find_opposite(&uni_associations, r) {
                Some(j) => {
                    results.push(
                        UMLRelation::new(
                            r.from.as_str(),
                            r.to.as_str(),
                            UMLRelationKind::UMLAssociationBi,
                        ),
                    );
                    uni_associations.remove(j);
                    proof {
                        assert(rel_views(results@) =~= emitted.push(
                            RelView {
                                from: s[i as int].from,
                                to: s[i as int].to,
                                kind: UMLRelationKind::UMLAssociationBi,
                            },
                        ));
                        assert(rel_views(uni_associations@) =~= pend.remove(j as int));
                    }
                },
                None => {
                    uni_associations.push(r.clone());
                    proof {
                        assert(rel_views(uni_associations@) =~= pend.push(s[i as int]));
                    }
                },
            }
        } else {
            results.push(r.clone());
            proof {
                assert(rel_views(results@) =~= emitted.push(s[i as int]));
            }
        }
        i += 1;
    }
    let ghost emitted = rel_views(results@);
    let ghost pend = rel_views(uni_associations@);
    results.append(&mut uni_associations);
    proof {
        assert(rel_views(results@) =~= emitted + pend);
    }
    results
}

} // verus!
