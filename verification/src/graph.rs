//! The graph: owns entity and relation collections, validates and
//! deduplicates incoming relations, and answers the normalized relation
//! query.

use vstd::prelude::*;

use crate::entity::{merge_class, str_views, ClassView, FnView, UMLClass, UMLFn};
use crate::entity::contains_string;
use crate::query::{dominance_collapse, merge_association, query_spec};
use crate::relation::{
    kind_rank, kind_rank_spec, rel_views, RelView, UMLRelation, UMLRelationKind,
};

verus! {

/// What `add_relation` did with its candidate. Rejection and supersession
/// are resolution outcomes, not failures; ingestion always continues.
#[derive(Clone, Copy, Debug, PartialEq, Eq, Structural)]
pub enum RelationOutcome {
    /// The candidate was stored as a new relation.
    Added,
    /// The candidate was consumed by upgrading the stored opposite
    /// unidirectional association to a bidirectional one.
    Promoted,
    /// The candidate's kind replaced the lower-ranked kind stored for the
    /// same ordered pair.
    Replaced,
    /// The candidate was dropped in favor of the stored relation of equal or
    /// higher rank for the same ordered pair.
    Superseded,
    /// An endpoint was unregistered, or the candidate was a self-relation;
    /// nothing was stored.
    Rejected,
}

/// The relation `r` goes from `from` to `to`.
pub open spec fn rel_matches(r: RelView, from: Seq<char>, to: Seq<char>) -> bool {
    r.from == from && r.to == to
}

/// Some relation in `s` goes from `from` to `to`.
pub open spec fn has_rel(s: Seq<RelView>, from: Seq<char>, to: Seq<char>) -> bool {
    exists|i: int| 0 <= i < s.len() && rel_matches(#[trigger] s[i], from, to)
}

/// The first index in `s` of a relation from `from` to `to`, meaningful when
/// [`has_rel`] holds.
pub open spec fn first_rel_index(s: Seq<RelView>, from: Seq<char>, to: Seq<char>) -> int
    decreases s.len(),
{
    if s.len() == 0 {
        0
    } else if rel_matches(s[0], from, to) {
        0
    } else {
        1 + first_rel_index(s.drop_first(), from, to)
    }
}

pub proof fn lemma_first_rel_index(s: Seq<RelView>, from: Seq<char>, to: Seq<char>)
    requires
        has_rel(s, from, to),
    ensures
        0 <= first_rel_index(s, from, to) < s.len(),
        rel_matches(s[first_rel_index(s, from, to)], from, to),
        forall|j: int| 0 <= j < first_rel_index(s, from, to) ==> !rel_matches(
            #[trigger] s[j],
            from,
            to,
        ),
    decreases s.len(),
{
    if s.len() > 0 && !rel_matches(s[0], from, to) {
        let k = choose|k: int| 0 <= k < s.len() && rel_matches(#[trigger] s[k], from, to);
        assert(s.drop_first()[k - 1] == s[k]);
        lemma_first_rel_index(s.drop_first(), from, to);
        assert forall|j: int| 0 <= j < first_rel_index(s, from, to) implies !rel_matches(
            #[trigger] s[j],
            from,
            to,
        ) by {
            if j > 0 {
                assert(s.drop_first()[j - 1] == s[j]);
            }
        }
    }
}

/// The first matching index is exactly the index a first-match search finds.
pub proof fn lemma_first_rel_index_of(s: Seq<RelView>, from: Seq<char>, to: Seq<char>, i: int)
    requires
        0 <= i < s.len(),
        rel_matches(s[i], from, to),
        forall|j: int| 0 <= j < i ==> !rel_matches(#[trigger] s[j], from, to),
    ensures
        has_rel(s, from, to),
        first_rel_index(s, from, to) == i,
    decreases s.len(),
{
    if i > 0 {
        assert forall|j: int| 0 <= j < i - 1 implies !rel_matches(
            #[trigger] s.drop_first()[j],
            from,
            to,
        ) by {
            assert(s.drop_first()[j] == s[j + 1]);
        }
        assert(s.drop_first()[i - 1] == s[i]);
        lemma_first_rel_index_of(s.drop_first(), from, to, i - 1);
    }
}

/// At most one stored relation per ordered pair of endpoints.
pub open spec fn at_most_one_per_pair(s: Seq<RelView>) -> bool {
    forall|i: int, j: int| 0 <= i < j < s.len() ==> !(#[trigger] s[i].from == #[trigger] s[j].from
        && s[i].to == s[j].to)
}

/// The candidate promotes a stored relation: it is a unidirectional
/// association and the first stored relation on the opposite ordered pair is
/// one too.
pub open spec fn promotes(s: Seq<RelView>, r: RelView) -> bool {
    &&& r.kind == UMLRelationKind::UMLAssociationUni
    &&& has_rel(s, r.to, r.from)
    &&& s[first_rel_index(s, r.to, r.from)].kind == UMLRelationKind::UMLAssociationUni
}

/// The stored relation sequence after an endpoint-validated candidate `r` is
/// offered: promotion of the opposite unidirectional association, then
/// priority resolution on the same ordered pair, then insertion.
pub open spec fn insert_rel(s: Seq<RelView>, r: RelView) -> Seq<RelView> {
    if promotes(s, r) {
        s.update(
            first_rel_index(s, r.to, r.from),
            RelView { from: r.to, to: r.from, kind: UMLRelationKind::UMLAssociationBi },
        )
    } else if has_rel(s, r.from, r.to) {
        let i = first_rel_index(s, r.from, r.to);
        if kind_rank_spec(s[i].kind) < kind_rank_spec(r.kind) {
            s.update(i, r)
        } else {
            s
        }
    } else {
        s.push(r)
    }
}

/// The outcome reported for an endpoint-validated candidate `r`.
pub open spec fn insert_outcome(s: Seq<RelView>, r: RelView) -> RelationOutcome {
    if promotes(s, r) {
        RelationOutcome::Promoted
    } else if has_rel(s, r.from, r.to) {
        if kind_rank_spec(s[first_rel_index(s, r.from, r.to)].kind) < kind_rank_spec(r.kind) {
            RelationOutcome::Replaced
        } else {
            RelationOutcome::Superseded
        }
    } else {
        RelationOutcome::Added
    }
}

/// The first index in `names` holding `n`, meaningful when `names` contains
/// `n`.
pub open spec fn first_name_index(names: Seq<Seq<char>>, n: Seq<char>) -> int
    decreases names.len(),
{
    if names.len() == 0 {
        0
    } else if names[0] == n {
        0
    } else {
        1 + first_name_index(names.drop_first(), n)
    }
}

/// The first index holding `n` is exactly the index a first-match search
/// finds.
pub proof fn lemma_first_name_index_of(names: Seq<Seq<char>>, n: Seq<char>, i: int)
    requires
        0 <= i < names.len(),
        names[i] == n,
        forall|j: int| 0 <= j < i ==> names[j] != n,
    ensures
        names.contains(n),
        first_name_index(names, n) == i,
    decreases names.len(),
{
    if i > 0 {
        assert forall|j: int| 0 <= j < i - 1 implies names.drop_first()[j] != n by {
            assert(names.drop_first()[j] == names[j + 1]);
        }
        assert(names.drop_first()[i - 1] == names[i]);
        lemma_first_name_index_of(names.drop_first(), n, i - 1);
    }
}

/// The class names after a class record `c` is offered: a new name is
/// appended, a known one keeps its place.
pub open spec fn add_class_keys(keys: Seq<Seq<char>>, c: ClassView) -> Seq<Seq<char>> {
    if keys.contains(c.name) {
        keys
    } else {
        keys.push(c.name)
    }
}

/// The class records after a class record `c` is offered: merged into the
/// record at `c`'s name if that name is known, appended otherwise.
pub open spec fn add_class_seq(keys: Seq<Seq<char>>, s: Seq<ClassView>, c: ClassView) -> Seq<
    ClassView,
> {
    if keys.contains(c.name) {
        let i = first_name_index(keys, c.name);
        s.update(i, merge_class(s[i], c))
    } else {
        s.push(c)
    }
}

/// The graph: known classes (keyed by name), known functions, and the stored
/// relations between them.
#[derive(Debug, PartialEq)]
pub struct UMLGraph {
    pub structs: Vec<(String, UMLClass)>,
    pub fns: Vec<UMLFn>,
    relations: Vec<UMLRelation>,
}

impl UMLGraph {
    /// The class names the graph knows, in registration order.
    pub closed spec fn class_keys(self) -> Seq<Seq<char>> {
        self.structs@.map_values(|p: (String, UMLClass)| p.0@)
    }

    /// The class records the graph holds, in registration order.
    pub closed spec fn classes(self) -> Seq<ClassView> {
        self.structs@.map_values(|p: (String, UMLClass)| p.1@)
    }

    /// The function records the graph holds, in registration order.
    pub closed spec fn funcs(self) -> Seq<FnView> {
        self.fns@.map_values(|f: UMLFn| f@)
    }

    /// The function names the graph knows, in registration order.
    pub closed spec fn fn_names(self) -> Seq<Seq<char>> {
        self.fns@.map_values(|f: UMLFn| f@.name)
    }

    /// The stored relations, in storage order. The backing collection is
    /// private; all contracts speak of this sequence.
    pub closed spec fn rels(self) -> Seq<RelView> {
        rel_views(self.relations@)
    }

    /// The name is registered, as a class name or as a function name.
    pub open spec fn is_entity(self, n: Seq<char>) -> bool {
        self.class_keys().contains(n) || self.fn_names().contains(n)
    }

    /// A candidate relation passes validation: both endpoints are registered
    /// and it is not a self-relation.
    pub open spec fn accepts(self, r: RelView) -> bool {
        self.is_entity(r.from) && self.is_entity(r.to) && r.from != r.to
    }

    /// The graph's invariants: every class record is keyed by its own name,
    /// class names are unique, and every stored relation joins two distinct
    /// registered entities, with at most one relation per ordered pair.
    pub open spec fn wf(self) -> bool {
        &&& forall|i: int| 0 <= i < self.classes().len() ==> (#[trigger] self.classes()[i]).name
            == self.class_keys()[i]
        &&& forall|i: int, j: int| 0 <= i < j < self.class_keys().len() ==> (
        #[trigger] self.class_keys()[i]) != (#[trigger] self.class_keys()[j])
        &&& forall|i: int| 0 <= i < self.rels().len() ==> (#[trigger] self.rels()[i]).from
            != self.rels()[i].to
        &&& forall|i: int| 0 <= i < self.rels().len() ==> self.is_entity(
            (#[trigger] self.rels()[i]).from,
        ) && self.is_entity(self.rels()[i].to)
        &&& at_most_one_per_pair(self.rels())
    }

    /// An empty graph.
    pub fn new() -> (g: UMLGraph)
        ensures
            g.classes() == Seq::<ClassView>::empty(),
            g.class_keys() == Seq::<Seq<char>>::empty(),
            g.funcs() == Seq::<FnView>::empty(),
            g.fn_names() == Seq::<Seq<char>>::empty(),
            g.rels() == Seq::<RelView>::empty(),
            g.wf(),
    {
        let g = UMLGraph { structs: Vec::new(), fns: Vec::new(), relations: Vec::new() };
        proof {
            assert(g.classes() =~= Seq::<ClassView>::empty());
            assert(g.class_keys() =~= Seq::<Seq<char>>::empty());
            assert(g.funcs() =~= Seq::<FnView>::empty());
            assert(g.fn_names() =~= Seq::<Seq<char>>::empty());
            assert(g.rels() =~= Seq::<RelView>::empty());
        }
        g
    }

    /// The index of the class record with the given name, if the name is
    /// known.
    fn find_struct_index(&self, name: &String) -> (r: Option<usize>)
        ensures
            match r {
                Some(i) => self.class_keys().contains(name@) && i as int == first_name_index(
                    self.class_keys(),
                    name@,
                ) && (i as int) < self.structs@.len(),
                None => !self.class_keys().contains(name@),
            },
    {
        let mut i: usize = 0;
        while i < self.structs.len()
            invariant
                i <= self.structs@.len(),
                forall|k: int| 0 <= k < i ==> self.class_keys()[k] != name@,
            decreases self.structs@.len() - i,
        {
            if self.structs[i].0 == *name {
                proof {
                    lemma_first_name_index_of(self.class_keys(), name@, i as int);
                }
                return Some(i);
            }
            i += 1;
        }
        None
    }

    /// Registers a class record. If a class with this name is already known,
    /// the new record's attributes are merged into the existing record (union,
    /// never removing anything); otherwise the record is appended.
    pub fn add_struct(&mut self, cls: UMLClass)
        ensures
            final(self).class_keys() == add_class_keys(old(self).class_keys(), cls@),
            final(self).classes() == add_class_seq(
                old(self).class_keys(),
                old(self).classes(),
                cls@,
            ),
            final(self).funcs() == old(self).funcs(),
            final(self).fn_names() == old(self).fn_names(),
            final(self).rels() == old(self).rels(),
            old(self).wf() ==> final(self).wf(),
    {
        let ghost pre = *self;
        match self.find_struct_index(&cls.name) {
            Some(i) => {
                let (key, mut record) = self.structs.remove(i);
                record.merge_from(&cls);
                self.structs.insert(i, (key, record));
                proof {
                    assert(self.structs@ =~= pre.structs@.update(
                        i as int,
                        (pre.structs@[i as int].0, record),
                    ));
                    assert(self.class_keys() =~= pre.class_keys());
                    assert(self.classes() =~= add_class_seq(pre.class_keys(), pre.classes(), cls@));
                    assert(self.funcs() =~= pre.funcs());
                    assert(self.fn_names() =~= pre.fn_names());
                    assert(self.rels() =~= pre.rels());
                }
            },
            None => {
                let key = cls.name.clone();
                self.structs.push((key, cls));
                proof {
                    assert(self.class_keys() =~= pre.class_keys().push(cls@.name));
                    assert(self.classes() =~= pre.classes().push(cls@));
                    assert(self.funcs() =~= pre.funcs());
                    assert(self.fn_names() =~= pre.fn_names());
                    assert(self.rels() =~= pre.rels());
                    if pre.wf() {
                        assert forall|k: int|
                            0 <= k < self.rels().len() implies self.is_entity(
                            (#[trigger] self.rels()[k]).from,
                        ) && self.is_entity(self.rels()[k].to) by {
                            lemma_is_entity_monotone(pre, *self, self.rels()[k].from);
                            lemma_is_entity_monotone(pre, *self, self.rels()[k].to);
                        }
                    }
                }
            },
        }
    }

    /// Appends a function record. Records with equal names are kept as
    /// distinct entries; this asymmetry with classes is intentional.
    pub fn add_fn(&mut self, f: UMLFn)
        ensures
            final(self).funcs() == old(self).funcs().push(f@),
            final(self).fn_names() == old(self).fn_names().push(f@.name),
            final(self).classes() == old(self).classes(),
            final(self).class_keys() == old(self).class_keys(),
            final(self).rels() == old(self).rels(),
            old(self).wf() ==> final(self).wf(),
    {
        let ghost pre = *self;
        self.fns.push(f);
        proof {
            assert(self.funcs() =~= pre.funcs().push(f@));
            assert(self.fn_names() =~= pre.fn_names().push(f@.name));
            assert(self.classes() =~= pre.classes());
            assert(self.class_keys() =~= pre.class_keys());
            assert(self.rels() =~= pre.rels());
            if pre.wf() {
                assert forall|i: int| 0 <= i < self.rels().len() implies self.is_entity(
                    (#[trigger] self.rels()[i]).from,
                ) && self.is_entity(self.rels()[i].to) by {
                    lemma_is_entity_monotone(pre, *self, self.rels()[i].from);
                    lemma_is_entity_monotone(pre, *self, self.rels()[i].to);
                }
            }
        }
    }
    /// The externally consumable, deduplicated relation list: the stored
    /// relations after the dominance collapse and the association pairing.
    /// The result is a function of the stored relations alone.
    pub fn get_relations(&self) -> (out: Vec<UMLRelation>)
        ensures
            rel_views(out@) == query_spec(self.rels()),
    {
        let kept = dominance_collapse(&self.relations);
        merge_association(kept)
    }

    /// Copies of the known class names, in registration order.
    fn get_struct_names(&self) -> (r: Vec<String>)
        ensures
            str_views(r@) == self.class_keys(),
    {
        let mut r: Vec<String> = Vec::new();
        let mut i: usize = 0;
        while i < self.structs.len()
            invariant
                i <= self.structs@.len(),
                str_views(r@) == self.class_keys().take(i as int),
            decreases self.structs@.len() - i,
        {
            let ghost prev = str_views(r@);
            r.push(self.structs[i].0.clone());
            proof {
                assert(str_views(r@) =~= prev.push(self.structs@[i as int].0@));
                assert(str_views(r@) =~= self.class_keys().take(i + 1));
            }
            i += 1;
        }
        proof {
            assert(self.class_keys().take(self.structs@.len() as int) =~= self.class_keys());
        }
        r
    }

    /// Copies of the known function names, in registration order.
    fn get_fn_names(&self) -> (r: Vec<String>)
        ensures
            str_views(r@) == self.fn_names(),
    {
        let mut r: Vec<String> = Vec::new();
        let mut i: usize = 0;
        while i < self.fns.len()
            invariant
                i <= self.fns@.len(),
                str_views(r@) == self.fn_names().take(i as int),
            decreases self.fns@.len() - i,
        {
            let ghost prev = str_views(r@);
            r.push(self.fns[i].name.clone());
            proof {
                assert(str_views(r@) =~= prev.push(self.fns@[i as int].name@));
                assert(str_views(r@) =~= self.fn_names().take(i + 1));
            }
            i += 1;
        }
        proof {
            assert(self.fn_names().take(self.fns@.len() as int) =~= self.fn_names());
        }
        r
    }

    /// The index of the first stored relation from `from` to `to`, if one is
    /// stored.
    fn get_relation(&self, from: &String, to: &String) -> (r: Option<usize>)
        ensures
            match r {
                Some(i) => has_rel(self.rels(), from@, to@) && i as int == first_rel_index(
                    self.rels(),
                    from@,
                    to@,
                ) && (i as int) < self.relations@.len(),
                None => !has_rel(self.rels(), from@, to@),
            },
    {
        let mut i: usize = 0;
        while i < self.relations.len()
            invariant
                i <= self.relations@.len(),
                forall|k: int| 0 <= k < i ==> !rel_matches(#[trigger] self.rels()[k], from@, to@),
            decreases self.relations@.len() - i,
        {
            if self.relations[i].from == *from && self.relations[i].to == *to {
                proof {
                    lemma_first_rel_index_of(self.rels(), from@, to@, i as int);
                }
                return Some(i);
            }
            i += 1;
        }
        None
    }

    /// Offers a candidate relation to the graph.
    ///
    /// A candidate whose endpoints are not both registered, or which is a
    /// self-relation, is rejected and the store is unchanged. A
    /// unidirectional association meeting its stored opposite unidirectional
    /// association upgrades that relation in place to a bidirectional one. A
    /// candidate for an already-occupied ordered pair replaces the stored
    /// kind only if its own kind outranks it, and is dropped otherwise. Any
    /// other candidate is stored as a new relation.
    pub fn add_relation(&mut self, rel: UMLRelation) -> (out: RelationOutcome)
        ensures
            final(self).classes() == old(self).classes(),
            final(self).class_keys() == old(self).class_keys(),
            final(self).funcs() == old(self).funcs(),
            final(self).fn_names() == old(self).fn_names(),
            old(self).accepts(rel@) ==> final(self).rels() == insert_rel(old(self).rels(), rel@)
                && out == insert_outcome(old(self).rels(), rel@),
            !old(self).accepts(rel@) ==> final(self).rels() == old(self).rels() && out
                == RelationOutcome::Rejected,
            rel@.from == rel@.to ==> final(self).rels() == old(self).rels(),
            !old(self).is_entity(rel@.from) || !old(self).is_entity(rel@.to) ==> final(self).rels()
                == old(self).rels(),
            old(self).wf() ==> final(self).wf(),
    {
        let ghost pre = *self;
        let struct_names = self.get_struct_names();
        let fn_names = self.get_fn_names();
        let from_ok = contains_string(&fn_names, &rel.from) || contains_string(
            &struct_names,
            &rel.from,
        );
        let to_ok = contains_string(&fn_names, &rel.to) || contains_string(
            &struct_names,
            &rel.to,
        );
        if !(from_ok && to_ok && rel.from != rel.to) {
            return RelationOutcome::Rejected;
        }
        assert(pre.accepts(rel@));
        if rel.kind == UMLRelationKind::UMLAssociationUni {
            match self.get_relation(&rel.to, &rel.from) {
                Some(i) => {
                    if self.relations[i].kind == UMLRelationKind::UMLAssociationUni {
                        assert(promotes(pre.rels(), rel@));
                        let mut r = self.relations.remove(i);
                        r.change_relation_kind(UMLRelationKind::UMLAssociationBi);
                        self.relations.insert(i, r);
                        proof {
                            lemma_first_rel_index(pre.rels(), rel@.to, rel@.from);
                            assert(self.relations@ =~= pre.relations@.update(i as int, r));
                            assert(self.rels() =~= insert_rel(pre.rels(), rel@));
                            if pre.wf() {
                                lemma_insert_rel_wf(pre, *self, rel@);
                            }
                        }
                        return RelationOutcome::Promoted;
                    }
                },
                None => {},
            }
        }
        assert(!promotes(pre.rels(), rel@));
        match self.get_relation(&rel.from, &rel.to) {
            Some(i) => {
                let stored_rank = kind_rank(self.relations[i].kind);
                let offered_rank = kind_rank(rel.kind);
                if stored_rank < offered_rank {
                    let mut r = self.relations.remove(i);
                    r.change_relation_kind(rel.kind);
                    self.relations.insert(i, r);
                    proof {
                        lemma_first_rel_index(pre.rels(), rel@.from, rel@.to);
                        assert(self.relations@ =~= pre.relations@.update(i as int, r));
                        assert(r@ == rel@);
                        assert(self.rels() =~= insert_rel(pre.rels(), rel@));
                        if pre.wf() {
                            lemma_insert_rel_wf(pre, *self, rel@);
                        }
                    }
                    RelationOutcome::Replaced
                } else {
                    RelationOutcome::Superseded
                }
            },
            None => {
                self.relations.push(rel);
                proof {
                    assert(self.rels() =~= insert_rel(pre.rels(), rel@));
                    if pre.wf() {
                        lemma_insert_rel_wf(pre, *self, rel@);
                    }
                }
                RelationOutcome::Added
            },
        }
    }
}

/// Offering a relation to a store with at most one relation per ordered pair
/// leaves at most one relation per ordered pair.
pub proof fn lemma_insert_rel_at_most_one(s: Seq<RelView>, r: RelView)
    requires
        at_most_one_per_pair(s),
    ensures
        at_most_one_per_pair(insert_rel(s, r)),
{
    let t = insert_rel(s, r);
    if promotes(s, r) {
        lemma_first_rel_index(s, r.to, r.from);
        assert forall|i: int, j: int| 0 <= i < j < t.len() implies !(#[trigger] t[i].from
            == #[trigger] t[j].from && t[i].to == t[j].to) by {
            assert(t[i].from == s[i].from && t[i].to == s[i].to);
            assert(t[j].from == s[j].from && t[j].to == s[j].to);
        }
    } else if has_rel(s, r.from, r.to) {
        lemma_first_rel_index(s, r.from, r.to);
        assert forall|i: int, j: int| 0 <= i < j < t.len() implies !(#[trigger] t[i].from
            == #[trigger] t[j].from && t[i].to == t[j].to) by {
            assert(t[i].from == s[i].from && t[i].to == s[i].to);
            assert(t[j].from == s[j].from && t[j].to == s[j].to);
        }
    } else {
        assert forall|i: int, j: int| 0 <= i < j < t.len() implies !(#[trigger] t[i].from
            == #[trigger] t[j].from && t[i].to == t[j].to) by {
            if j == s.len() {
                assert(!rel_matches(s[i], r.from, r.to));
            }
        }
    }
}

/// The graph invariants survive an accepted relation offer.
proof fn lemma_insert_rel_wf(pre: UMLGraph, post: UMLGraph, r: RelView)
    requires
        pre.wf(),
        pre.accepts(r),
        post.rels() == insert_rel(pre.rels(), r),
        post.class_keys() == pre.class_keys(),
        post.classes() == pre.classes(),
        post.fn_names() == pre.fn_names(),
    ensures
        post.wf(),
{
    let s = pre.rels();
    let t = post.rels();
    lemma_insert_rel_at_most_one(s, r);
    if promotes(s, r) {
        lemma_first_rel_index(s, r.to, r.from);
        assert forall|i: int| 0 <= i < t.len() implies (#[trigger] t[i]).from != t[i].to
            && post.is_entity(t[i].from) && post.is_entity(t[i].to) by {
            assert(t[i].from == s[i].from && t[i].to == s[i].to);
        }
    } else if has_rel(s, r.from, r.to) {
        lemma_first_rel_index(s, r.from, r.to);
        assert forall|i: int| 0 <= i < t.len() implies (#[trigger] t[i]).from != t[i].to
            && post.is_entity(t[i].from) && post.is_entity(t[i].to) by {
            assert(t[i].from == s[i].from && t[i].to == s[i].to);
        }
    } else {
        assert forall|i: int| 0 <= i < t.len() implies (#[trigger] t[i]).from != t[i].to
            && post.is_entity(t[i].from) && post.is_entity(t[i].to) by {
            if i < s.len() {
                assert(t[i] == s[i]);
            } else {
                assert(t[i] == r);
            }
        }
    }
}

/// Registering one more entity never unregisters a name.
proof fn lemma_is_entity_monotone(g1: UMLGraph, g2: UMLGraph, n: Seq<char>)
    requires
        g1.is_entity(n),
        g2.class_keys() == g1.class_keys() || g2.class_keys() == g1.class_keys().push(
            g2.class_keys().last(),
        ),
        g2.fn_names() == g1.fn_names() || g2.fn_names() == g1.fn_names().push(
            g2.fn_names().last(),
        ),
    ensures
        g2.is_entity(n),
{
    if g1.class_keys().contains(n) {
        let i = choose|i: int| 0 <= i < g1.class_keys().len() && g1.class_keys()[i] == n;
        assert(g2.class_keys()[i] == n);
    } else {
        let i = choose|i: int| 0 <= i < g1.fn_names().len() && g1.fn_names()[i] == n;
        assert(g2.fn_names()[i] == n);
    }
}

} // verus!
