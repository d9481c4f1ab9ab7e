//! The typed slots of a schema: point types, points and namespaces.

use crate::text::str_eq;
use crate::value::{Value, ValueView};
use vstd::prelude::*;
use vstd::string::*;

verus! {

/// The character that joins the parts of a full name.
pub const PATH_SEPARATOR: char = '/';

/// The type of a value, without the value.
#[derive(Debug, Clone, Copy, PartialEq, Eq, PartialOrd, Ord, Hash, Structural)]
pub enum PointType {
    Boolean,
    Blob,
    String,
    U8,
    I8,
    U16,
    I16,
    U32,
    I32,
    U64,
    I64,
    F32,
    F64,
}

/// The type of a value.
pub open spec fn type_of(value: ValueView) -> PointType {
    match value {
        ValueView::Boolean(_) => PointType::Boolean,
        ValueView::Blob(_) => PointType::Blob,
        ValueView::String(_) => PointType::String,
        ValueView::U8(_) => PointType::U8,
        ValueView::I8(_) => PointType::I8,
        ValueView::U16(_) => PointType::U16,
        ValueView::I16(_) => PointType::I16,
        ValueView::U32(_) => PointType::U32,
        ValueView::I32(_) => PointType::I32,
        ValueView::U64(_) => PointType::U64,
        ValueView::I64(_) => PointType::I64,
        ValueView::F32(_) => PointType::F32,
        ValueView::F64(_) => PointType::F64,
    }
}

/// The type of a value.
pub fn to_point_type(value: &Value) -> (point_type: PointType)
    ensures
        point_type == type_of(value@),
{
    match value {
        Value::Boolean(_) => PointType::Boolean,
        Value::Blob(_) => PointType::Blob,
        Value::String(_) => PointType::String,
        Value::U8(_) => PointType::U8,
        Value::I8(_) => PointType::I8,
        Value::U16(_) => PointType::U16,
        Value::I16(_) => PointType::I16,
        Value::U32(_) => PointType::U32,
        Value::I32(_) => PointType::I32,
        Value::U64(_) => PointType::U64,
        Value::I64(_) => PointType::I64,
        Value::F32(_) => PointType::F32,
        Value::F64(_) => PointType::F64,
    }
}

/// A set of point types.
#[derive(Debug)]
pub struct TypeSet {
    items: Vec<PointType>,
}

impl Clone for TypeSet {
    /// A copy of the set.
    fn clone(&self) -> (copy: TypeSet)
        ensures
            copy@ == self@,
    {
        proof {
            use_type_invariant(self);
        }
        TypeSet { items: self.items.clone() }
    }
}

impl View for TypeSet {
    type V = Set<PointType>;

    closed spec fn view(&self) -> Set<PointType> {
        self.items@.to_set()
    }
}

impl TypeSet {
    #[verifier::type_invariant]
    spec fn inv(&self) -> bool {
        self.items@.no_duplicates()
    }

    /// The empty set.
    pub fn new() -> (set: TypeSet)
        ensures
            set@ == Set::<PointType>::empty(),
    {
        let set = TypeSet { items: Vec::new() };
        assert(set@ =~= Set::<PointType>::empty());
        set
    }

    /// Whether the type is in the set.
    pub fn contains(&self, point_type: PointType) -> (found: bool)
        ensures
            found == self@.contains(point_type),
    {
        let mut i: usize = 0;
        while i < self.items.len()
            invariant
                i <= self.items@.len(),
                forall|j: int| 0 <= j < i ==> self.items@[j] != point_type,
            decreases self.items@.len() - i,
        {
            if self.items[i] == point_type {
                assert(self.items@.contains(point_type));
                return true;
            }
            i = i + 1;
        }
        assert(!self.items@.contains(point_type));
        false
    }

    /// Adds the type to the set; says whether it was new.
    pub fn insert(&mut self, point_type: PointType) -> (added: bool)
        ensures
            final(self)@ == old(self)@.insert(point_type),
            added == !old(self)@.contains(point_type),
    {
        proof {
            use_type_invariant(&*self);
        }
        if self.contains(point_type) {
            assert(self@ =~= old(self)@.insert(point_type));
            false
        } else {
            let mut items = self.items.clone();
            items.push(point_type);
            *self = TypeSet { items };
            assert(self@ =~= old(self)@.insert(point_type)) by {
                assert forall|t: PointType| self.items@.contains(t) <==> old(self).items@.contains(
                    t,
                ) || t == point_type by {
                    if old(self).items@.contains(t) {
                        let j = choose|j: int|
                            0 <= j < old(self).items@.len() && old(self).items@[j] == t;
                        assert(self.items@[j] == t);
                    }
                    if t == point_type {
                        assert(self.items@[self.items@.len() - 1] == t);
                    }
                }
            }
            true
        }
    }

    /// Adds every type of `other` to the set.
    pub fn extend(&mut self, other: &TypeSet)
        ensures
            final(self)@ == old(self)@.union(other@),
    {
        let mut i: usize = 0;
        while i < other.items.len()
            invariant
                i <= other.items@.len(),
                self@ == old(self)@.union(other.items@.subrange(0, i as int).to_set()),
            decreases other.items@.len() - i,
        {
            self.insert(other.items[i]);
            i = i + 1;
            assert(self@ =~= old(self)@.union(other.items@.subrange(0, i as int).to_set())) by {
                let before = other.items@.subrange(0, i - 1);
                let after = other.items@.subrange(0, i as int);
                assert(after =~= before.push(other.items@[i - 1]));
                assert forall|t: PointType| after.contains(t) <==> before.contains(t) || t
                    == other.items@[i - 1] by {
                    if before.contains(t) {
                        let j = choose|j: int| 0 <= j < before.len() && before[j] == t;
                        assert(after[j] == t);
                    }
                    if t == other.items@[i - 1] {
                        assert(after[i - 1] == t);
                    }
                }
            }
        }
        assert(other.items@.subrange(0, i as int) =~= other.items@);
    }

    /// The types of the set, each once, in the order in which they were
    /// added.
    pub fn to_vec(&self) -> (types: Vec<PointType>)
        ensures
            types@.to_set() == self@,
            types@.no_duplicates(),
    {
        proof {
            use_type_invariant(self);
        }
        self.items.clone()
    }

    /// Union of type sets is commutative and associative.
    pub proof fn lemma_union_laws(a: Set<PointType>, b: Set<PointType>, c: Set<PointType>)
        ensures
            a.union(b) == b.union(a),
            a.union(b).union(c) == a.union(b.union(c)),
            a.union(a) == a,
    {
        assert(a.union(b) =~= b.union(a));
        assert(a.union(b).union(c) =~= a.union(b.union(c)));
        assert(a.union(a) =~= a);
    }
}

/// A point: a named slot and the types its values may have.
#[derive(Debug, Clone)]
pub struct Point {
    /// The types that a value of the point may have.
    pub types: TypeSet,
    /// The name of the point within its namespace.
    pub name: String,
    /// The name of the namespace, the separator and the name of the point.
    pub full_name: String,
}

/// The full name of `name` under `prefix`: the two joined by the separator.
pub open spec fn join(prefix: Seq<char>, name: Seq<char>) -> Seq<char> {
    prefix + seq![PATH_SEPARATOR] + name
}

/// The full name of `name` under `prefix`, as a string.
pub fn join_names(prefix: &str, name: &str) -> (full: String)
    ensures
        full@ == join(prefix@, name@),
{
    let mut full = prefix.to_owned();
    full.append("/");
    full.append(name);
    proof {
        reveal_strlit("/");
        assert("/"@ =~= seq![PATH_SEPARATOR]);
    }
    full
}

impl Point {
    /// Adds the types of `other` to the types of this point.
    pub fn merge(&mut self, other: Point)
        ensures
            final(self).types@ == old(self).types@.union(other.types@),
            final(self).name == old(self).name,
            final(self).full_name == old(self).full_name,
    {
        self.types.extend(&other.types);
    }
}

/// A namespace: its full name and its points.
#[derive(Debug, Clone)]
pub struct Namespace {
    /// The full name of the namespace.
    pub name: String,
    /// The points of the namespace.
    pub points: Vec<Point>,
}

impl Namespace {
    /// Whether the namespace has a point of the given name.
    pub open spec fn has_point(&self, name: Seq<char>) -> bool {
        exists|i: int| 0 <= i < self.points@.len() && #[trigger] self.points@[i].name@ == name
    }

    /// Whether a point of the given name admits the given type.
    pub open spec fn admits(&self, name: Seq<char>, point_type: PointType) -> bool {
        exists|i: int|
            0 <= i < self.points@.len() && #[trigger] self.points@[i].name@ == name
                && self.points@[i].types@.contains(point_type)
    }

    /// A well-formed namespace has no two points of one name, and the full
    /// name of each point is the namespace's name joined with the point's.
    pub open spec fn wf(&self) -> bool {
        &&& forall|i: int, j: int|
            0 <= i < j < self.points@.len() ==> #[trigger] self.points@[i].name@
                != #[trigger] self.points@[j].name@
        &&& forall|i: int|
            0 <= i < self.points@.len() ==> #[trigger] self.points@[i].full_name@ == join(
                self.name@,
                self.points@[i].name@,
            )
    }

    /// An empty namespace of the given full name.
    pub fn new(name: String) -> (namespace: Namespace)
        ensures
            namespace.name == name,
            namespace.points@.len() == 0,
            namespace.wf(),
    {
        Namespace { name, points: Vec::new() }
    }

    /// The place of the point of the given name, if there is one.
    pub fn position(&self, name: &str) -> (place: Option<usize>)
        ensures
            match place {
                Some(i) => i < self.points@.len() && self.points@[i as int].name@ == name@
                    && forall|j: int| 0 <= j < i ==> self.points@[j].name@ != name@,
                None => !self.has_point(name@),
            },
    {
        let mut i: usize = 0;
        while i < self.points.len()
            invariant
                i <= self.points@.len(),
                forall|j: int| 0 <= j < i ==> self.points@[j].name@ != name@,
            decreases self.points@.len() - i,
        {
            if str_eq(self.points[i].name.as_str(), name) {
                return Some(i);
            }
            i = i + 1;
        }
        None
    }

    /// Takes a point in: where the namespace has a point of that name, the
    /// types are merged into it; otherwise the point is added under this
    /// namespace's name.
    pub fn add_point(&mut self, point: Point)
        requires
            old(self).wf(),
        ensures
            final(self).wf(),
            final(self).name == old(self).name,
            forall|name: Seq<char>| #[trigger]
                final(self).has_point(name) <==> old(self).has_point(name) || name == point.name@,
            forall|name: Seq<char>, t: PointType| #[trigger]
                final(self).admits(name, t) <==> old(self).admits(name, t) || (name == point.name@
                    && point.types@.contains(t)),
    {
        match self.position(point.name.as_str()) {
            Some(i) => {
                let ghost before = self.points@;
                let ghost given = point;
                self.points[i].merge(point);
                proof {
                    let after = self.points@;
                    assert(after.len() == before.len());
                    assert forall|j: int| 0 <= j < after.len() implies #[trigger] after[j].name@
                        == before[j].name@ && after[j].full_name@ == before[j].full_name@ && (j
                        != i ==> after[j] == before[j]) by {}
                    assert forall|name: Seq<char>| #[trigger]
                        self.has_point(name) <==> old(self).has_point(name) || name
                            == given.name@ by {
                        if self.has_point(name) {
                            let j = choose|j: int|
                                0 <= j < after.len() && #[trigger] after[j].name@ == name;
                            assert(before[j].name@ == name);
                        }
                        if old(self).has_point(name) {
                            let j = choose|j: int|
                                0 <= j < before.len() && #[trigger] before[j].name@ == name;
                            assert(after[j].name@ == name);
                        }
                        if name == given.name@ {
                            assert(after[i as int].name@ == name);
                        }
                    }
                    assert forall|name: Seq<char>, t: PointType| #[trigger]
                        self.admits(name, t) <==> old(self).admits(name, t) || (name
                            == given.name@ && given.types@.contains(t)) by {
                        if self.admits(name, t) {
                            let j = choose|j: int|
                                0 <= j < after.len() && #[trigger] after[j].name@ == name
                                    && after[j].types@.contains(t);
                            assert(before[j].name@ == name);
                            if j != i {
                                assert(before[j].types@.contains(t));
                            }
                        }
                        if old(self).admits(name, t) {
                            let j = choose|j: int|
                                0 <= j < before.len() && #[trigger] before[j].name@ == name
                                    && before[j].types@.contains(t);
                            assert(after[j].name@ == name && after[j].types@.contains(t));
                        }
                        if name == given.name@ && given.types@.contains(t) {
                            assert(after[i as int].name@ == name && after[i as int].types@.contains(
                                t,
                            ));
                        }
                    }
                }
            },
            None => {
                let ghost before = self.points@;
                let ghost given = point;
                let full_name = join_names(self.name.as_str(), point.name.as_str());
                let adopted = Point { types: point.types, name: point.name, full_name };
                self.points.push(adopted);
                proof {
                    let after = self.points@;
                    assert forall|name: Seq<char>| #[trigger]
                        self.has_point(name) <==> old(self).has_point(name) || name
                            == given.name@ by {
                        if self.has_point(name) {
                            let j = choose|j: int|
                                0 <= j < after.len() && #[trigger] after[j].name@ == name;
                            if j < before.len() {
                                assert(before[j].name@ == name);
                            }
                        }
                        if old(self).has_point(name) {
                            let j = choose|j: int|
                                0 <= j < before.len() && #[trigger] before[j].name@ == name;
                            assert(after[j].name@ == name);
                        }
                        if name == given.name@ {
                            assert(after[after.len() - 1].name@ == name);
                        }
                    }
                    assert forall|name: Seq<char>, t: PointType| #[trigger]
                        self.admits(name, t) <==> old(self).admits(name, t) || (name
                            == given.name@ && given.types@.contains(t)) by {
                        if self.admits(name, t) {
                            let j = choose|j: int|
                                0 <= j < after.len() && #[trigger] after[j].name@ == name
                                    && after[j].types@.contains(t);
                            if j < before.len() {
                                assert(before[j].name@ == name && before[j].types@.contains(t));
                            }
                        }
                        if old(self).admits(name, t) {
                            let j = choose|j: int|
                                0 <= j < before.len() && #[trigger] before[j].name@ == name
                                    && before[j].types@.contains(t);
                            assert(after[j].name@ == name && after[j].types@.contains(t));
                        }
                        if name == given.name@ && given.types@.contains(t) {
                            assert(after[after.len() - 1].name@ == name && after[after.len()
                                - 1].types@.contains(t));
                        }
                    }
                }
            },
        }
    }

    /// Takes the points of `other` in: points of one name are merged, their
    /// type sets united; the others are added.
    pub fn combine(&mut self, other: Namespace)
        requires
            old(self).wf(),
        ensures
            final(self).wf(),
            final(self).name == old(self).name,
            forall|name: Seq<char>| #[trigger]
                final(self).has_point(name) <==> old(self).has_point(name) || other.has_point(name),
            forall|name: Seq<char>, t: PointType| #[trigger]
                final(self).admits(name, t) <==> old(self).admits(name, t) || other.admits(name, t),
    {
        let mut points = other.points;
        let ghost all = points@;
        let ghost rest = points@;
        let ghost done: int = 0;
        // Taken from the back, so that each point is moved out of the vector.
        while points.len() > 0
            invariant
                self.wf(),
                self.name == old(self).name,
                points@.len() <= all.len(),
                points@ == all.subrange(0, points@.len() as int),
                forall|name: Seq<char>| #[trigger]
                    self.has_point(name) <==> old(self).has_point(name) || exists|i: int|
                        points@.len() <= i < all.len() && #[trigger] all[i].name@ == name,
                forall|name: Seq<char>, t: PointType| #[trigger]
                    self.admits(name, t) <==> old(self).admits(name, t) || exists|i: int|
                        points@.len() <= i < all.len() && #[trigger] all[i].name@ == name
                            && all[i].types@.contains(t),
            decreases points@.len(),
        {
            let ghost before = *self;
            let ghost count = points@.len();
            let point = points.pop().unwrap();
            assert(point == all[count - 1]);
            self.add_point(point);
            proof {
                assert forall|name: Seq<char>| #[trigger]
                    self.has_point(name) <==> old(self).has_point(name) || exists|i: int|
                        points@.len() <= i < all.len() && #[trigger] all[i].name@ == name by {
                    assert(self.has_point(name) <==> before.has_point(name) || name == point.name@);
                    if name == point.name@ {
                        assert(all[count - 1].name@ == name);
                    }
                }
                assert forall|name: Seq<char>, t: PointType| #[trigger]
                    self.admits(name, t) <==> old(self).admits(name, t) || exists|i: int|
                        points@.len() <= i < all.len() && #[trigger] all[i].name@ == name
                            && all[i].types@.contains(t) by {
                    assert(self.admits(name, t) <==> before.admits(name, t) || (name == point.name@
                        && point.types@.contains(t)));
                    if name == point.name@ && point.types@.contains(t) {
                        assert(all[count - 1].name@ == name && all[count - 1].types@.contains(t));
                    }
                }
            }
        }
    }
}

} // verus!
