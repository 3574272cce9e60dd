//! Entity records: classes (which merge by name) and functions (which do
//! not).

use vstd::prelude::*;

verus! {

/// The views of a sequence of strings.
pub open spec fn str_views(s: Seq<String>) -> Seq<Seq<char>> {
    s.map_values(|x: String| x@)
}

/// A class or struct entity: a name plus structural attributes (field and
/// method descriptions), which are opaque to the graph.
#[derive(Debug, PartialEq, Eq)]
pub struct UMLClass {
    pub name: String,
    pub fields: Vec<String>,
    pub methods: Vec<String>,
}

/// The mathematical value of a class record.
pub ghost struct ClassView {
    pub name: Seq<char>,
    pub fields: Seq<Seq<char>>,
    pub methods: Seq<Seq<char>>,
}

impl View for UMLClass {
    type V = ClassView;

    open spec fn view(&self) -> ClassView {
        ClassView { name: self.name@, fields: str_views(self.fields@), methods: str_views(self.methods@) }
    }
}

/// A function entity: a name plus attributes opaque to the graph. Unlike
/// classes, function records are never merged by name.
#[derive(Debug, PartialEq, Eq)]
pub struct UMLFn {
    pub name: String,
    pub attrs: Vec<String>,
}

/// The mathematical value of a function record.
pub ghost struct FnView {
    pub name: Seq<char>,
    pub attrs: Seq<Seq<char>>,
}

impl View for UMLFn {
    type V = FnView;

    open spec fn view(&self) -> FnView {
        FnView { name: self.name@, attrs: str_views(self.attrs@) }
    }
}

/// The union of two attribute lists: `a` followed by every element of `b`
/// that is not already present, in order. Nothing is ever removed.
pub open spec fn seq_union(a: Seq<Seq<char>>, b: Seq<Seq<char>>) -> Seq<Seq<char>>
    decreases b.len(),
{
    if b.len() == 0 {
        a
    } else if a.contains(b[0]) {
        seq_union(a, b.drop_first())
    } else {
        seq_union(a.push(b[0]), b.drop_first())
    }
}

/// The merge of two observations of the same class: the first record's name,
/// and the union of the attributes of both.
pub open spec fn merge_class(a: ClassView, b: ClassView) -> ClassView {
    ClassView {
        name: a.name,
        fields: seq_union(a.fields, b.fields),
        methods: seq_union(a.methods, b.methods),
    }
}

/// Law: a union of attribute lists loses nothing and invents nothing: it
/// holds exactly the attributes of the two lists it was built from.
pub proof fn lemma_seq_union_contains(a: Seq<Seq<char>>, b: Seq<Seq<char>>)
    ensures
        forall|x: Seq<char>| #[trigger] seq_union(a, b).contains(x) <==> a.contains(x)
            || b.contains(x),
    decreases b.len(),
{
    if b.len() == 0 {
    } else {
        let rest = b.drop_first();
        if a.contains(b[0]) {
            lemma_seq_union_contains(a, rest);
            assert forall|x: Seq<char>|
                #[trigger] seq_union(a, b).contains(x) <==> a.contains(x) || b.contains(x) by {
                assert(seq_union(a, b) == seq_union(a, rest));
                if b.contains(x) {
                    let i = choose|i: int| 0 <= i < b.len() && b[i] == x;
                    if i > 0 {
                        assert(rest[i - 1] == b[i]);
                        assert(rest.contains(x));
                    }
                }
                if rest.contains(x) {
                    let i = choose|i: int| 0 <= i < rest.len() && rest[i] == x;
                    assert(b[i + 1] == rest[i]);
                    assert(b.contains(x));
                }
                if x == b[0] {
                    assert(b[0] == x && b.contains(x));
                }
            }
        } else {
            let a1 = a.push(b[0]);
            lemma_seq_union_contains(a1, rest);
            assert forall|x: Seq<char>|
                #[trigger] seq_union(a, b).contains(x) <==> a.contains(x) || b.contains(x) by {
                assert(seq_union(a, b) == seq_union(a1, rest));
                if b.contains(x) {
                    let i = choose|i: int| 0 <= i < b.len() && b[i] == x;
                    if i > 0 {
                        assert(rest[i - 1] == b[i]);
                        assert(rest.contains(x));
                    }
                }
                if rest.contains(x) {
                    let i = choose|i: int| 0 <= i < rest.len() && rest[i] == x;
                    assert(b[i + 1] == rest[i]);
                    assert(b.contains(x));
                }
                if x == b[0] {
                    assert(b[0] == x && b.contains(x));
                    assert(a1.len() == a.len() + 1);
                    assert(a1[a.len() as int] == b[0]);
                    assert(a1.contains(x));
                }
                if a1.contains(x) {
                    let i = choose|i: int| 0 <= i < a1.len() && a1[i] == x;
                    if i < a.len() {
                        assert(a[i] == x && a.contains(x));
                    }
                }
                if a.contains(x) {
                    let i = choose|i: int| 0 <= i < a.len() && a[i] == x;
                    assert(a1.len() == a.len() + 1);
                    assert(a1[i] == x);
                    assert(a1.contains(x));
                }
            }
        }
    }
}

/// Law: uniting disjoint, duplicate-free attribute lists keeps every
/// attribute of both, in order: the union is their concatenation.
pub proof fn lemma_seq_union_disjoint(a: Seq<Seq<char>>, b: Seq<Seq<char>>)
    requires
        forall|i: int| 0 <= i < b.len() ==> !a.contains(#[trigger] b[i]),
        forall|i: int, j: int| 0 <= i < j < b.len() ==> b[i] != b[j],
    ensures
        seq_union(a, b) == a + b,
    decreases b.len(),
{
    if b.len() == 0 {
        assert(seq_union(a, b) =~= a + b);
    } else {
        let rest = b.drop_first();
        assert(!a.contains(b[0]));
        let a1 = a.push(b[0]);
        assert forall|i: int| 0 <= i < rest.len() implies !a1.contains(#[trigger] rest[i]) by {
            assert(rest[i] == b[i + 1]);
            if a1.contains(rest[i]) {
                let k = choose|k: int| 0 <= k < a1.len() && a1[k] == rest[i];
                if k < a.len() {
                    assert(a[k] == rest[i]);
                    assert(a.contains(b[i + 1]));
                } else {
                    assert(b[0] == b[i + 1]);
                }
            }
        }
        assert forall|i: int, j: int| 0 <= i < j < rest.len() implies rest[i] != rest[j] by {
            assert(rest[i] == b[i + 1] && rest[j] == b[j + 1]);
        }
        lemma_seq_union_disjoint(a1, rest);
        assert(a1 + rest =~= a + b);
    }
}

/// Whether the string `n` occurs in `v`.
pub fn contains_string(v: &Vec<String>, n: &String) -> (r: bool)
    ensures
        r == str_views(v@).contains(n@),
{
    let mut i: usize = 0;
    while i < v.len()
        invariant
            i <= v@.len(),
            forall|k: int| 0 <= k < i ==> str_views(v@)[k] != n@,
        decreases v@.len() - i,
    {
        if v[i] == *n {
            assert(str_views(v@)[i as int] == n@);
            return true;
        }
        i += 1;
    }
    assert(!str_views(v@).contains(n@));
    false
}

/// Copies a list of strings.
fn clone_strings(v: &Vec<String>) -> (r: Vec<String>)
    ensures
        r@ == v@,
{
    let mut r: Vec<String> = Vec::new();
    let mut i: usize = 0;
    while i < v.len()
        invariant
            i <= v@.len(),
            r@ == v@.take(i as int),
        decreases v@.len() - i,
    {
        r.push(v[i].clone());
        assert(r@ =~= v@.take(i + 1 as int));
        i += 1;
    }
    assert(r@ =~= v@);
    r
}

/// Appends to a copy of `base` every element of `add` that is not already
/// present, realizing [`seq_union`] on the views.
fn union_strings(base: &Vec<String>, add: &Vec<String>) -> (r: Vec<String>)
    ensures
        str_views(r@) == seq_union(str_views(base@), str_views(add@)),
{
    let mut acc = clone_strings(base);
    let mut i: usize = 0;
    assert(str_views(add@).skip(0) =~= str_views(add@));
    while i < add.len()
        invariant
            i <= add@.len(),
            seq_union(str_views(acc@), str_views(add@).skip(i as int)) == seq_union(
                str_views(base@),
                str_views(add@),
            ),
        decreases add@.len() - i,
    {
        let ghost pre = str_views(acc@);
        let ghost rest = str_views(add@).skip(i as int);
        assert(rest[0] == str_views(add@)[i as int]);
        assert(rest.drop_first() =~= str_views(add@).skip(i + 1));
        if !contains_string(&acc, &add[i]) {
            acc.push(add[i].clone());
            assert(str_views(acc@) =~= pre.push(add@[i as int]@));
        }
        i += 1;
    }
    assert(str_views(add@).skip(add@.len() as int) =~= Seq::<Seq<char>>::empty());
    acc
}

impl UMLClass {
    pub fn new(name: &str, fields: Vec<String>, methods: Vec<String>) -> (r: UMLClass)
        ensures
            r@ == (ClassView { name: name@, fields: str_views(fields@), methods: str_views(methods@) }),
    {
        UMLClass { name: name.to_owned(), fields, methods }
    }

    /// Merges another observation of the same class into this record:
    /// attributes are united, never removed.
    pub fn merge_from(&mut self, other: &UMLClass)
        ensures
            final(self)@ == merge_class(old(self)@, other@),
    {
        let fields = union_strings(&self.fields, &other.fields);
        let methods = union_strings(&self.methods, &other.methods);
        self.fields = fields;
        self.methods = methods;
    }
}

impl Clone for UMLClass {
    fn clone(&self) -> (r: Self)
        ensures
            r@ == self@,
    {
        UMLClass {
            name: self.name.clone(),
            fields: clone_strings(&self.fields),
            methods: clone_strings(&self.methods),
        }
    }
}

impl UMLFn {
    pub fn new(name: &str, attrs: Vec<String>) -> (r: UMLFn)
        ensures
            r@ == (FnView { name: name@, attrs: str_views(attrs@) }),
    {
        UMLFn { name: name.to_owned(), attrs }
    }
}

impl Clone for UMLFn {
    fn clone(&self) -> (r: Self)
        ensures
            r@ == self@,
    {
        UMLFn { name: self.name.clone(), attrs: clone_strings(&self.attrs) }
    }
}

} // verus!
