//! The schema: the namespaces that were declared, each with its points, and
//! the lookup of a point by its full name.

use crate::point::{join, Namespace, Point, PointType, PATH_SEPARATOR};
use crate::text::str_eq;
use vstd::prelude::*;

verus! {

/// One thing that a schema states.
pub enum Fact {
    /// There is a namespace of this full name.
    Namespace(Seq<char>),
    /// There is a point of this full name.
    Point(Seq<char>),
    /// The point of this full name admits values of this type.
    Type(Seq<char>, PointType),
}

/// Whether a namespace states a fact.
pub open spec fn namespace_states(namespace: Namespace, fact: Fact) -> bool {
    match fact {
        Fact::Namespace(name) => namespace.name@ == name,
        Fact::Point(full_name) => exists|name: Seq<char>| #[trigger]
            namespace.has_point(name) && full_name == join(namespace.name@, name),
        Fact::Type(full_name, point_type) => exists|name: Seq<char>| #[trigger]
            namespace.admits(name, point_type) && full_name == join(namespace.name@, name),
    }
}

/// Whether one of the namespaces states a fact.
pub open spec fn states(namespaces: Seq<Namespace>, fact: Fact) -> bool {
    exists|i: int| 0 <= i < namespaces.len() && namespace_states(#[trigger] namespaces[i], fact)
}

/// Everything that the namespaces state.
pub open spec fn facts(namespaces: Seq<Namespace>) -> Set<Fact> {
    Set::new(|fact: Fact| states(namespaces, fact))
}

/// Whether a name is free of the separator.
pub open spec fn is_local(name: Seq<char>) -> bool {
    forall|i: int| 0 <= i < name.len() ==> #[trigger] name[i] != PATH_SEPARATOR
}

/// Namespaces are well formed together when each is well formed, no two
/// have one name, and the names of their points are free of the separator.
pub open spec fn namespaces_wf(namespaces: Seq<Namespace>) -> bool {
    &&& forall|i: int| 0 <= i < namespaces.len() ==> (#[trigger] namespaces[i]).wf()
    &&& forall|i: int, j: int|
        0 <= i < j < namespaces.len() ==> (#[trigger] namespaces[i]).name@
            != (#[trigger] namespaces[j]).name@
    &&& forall|i: int, j: int|
        0 <= i < namespaces.len() && 0 <= j < namespaces[i].points@.len() ==> is_local(
            #[trigger] namespaces[i].points@[j].name@,
        )
}

/// A full name splits in one way only into a prefix and a local name.
pub proof fn lemma_join_injective(a: Seq<char>, x: Seq<char>, b: Seq<char>, y: Seq<char>)
    requires
        is_local(x),
        is_local(y),
        join(a, x) == join(b, y),
    ensures
        a == b,
        x == y,
{
    let left = join(a, x);
    let right = join(b, y);
    assert(left.len() == a.len() + 1 + x.len());
    assert(right.len() == b.len() + 1 + y.len());
    if a.len() < b.len() {
        // The separator behind `a` falls inside `b`, so the one behind `b` falls inside `x`.
        let k = b.len() - a.len() - 1;
        assert(right[b.len() as int] == PATH_SEPARATOR);
        assert(left[b.len() as int] == x[k]);
        assert(false);
    }
    if b.len() < a.len() {
        let k = a.len() - b.len() - 1;
        assert(left[a.len() as int] == PATH_SEPARATOR);
        assert(right[a.len() as int] == y[k]);
        assert(false);
    }
    assert(a =~= b) by {
        assert forall|i: int| 0 <= i < a.len() implies a[i] == b[i] by {
            assert(left[i] == a[i]);
            assert(right[i] == b[i]);
        }
    }
    assert(x =~= y) by {
        assert forall|i: int| 0 <= i < x.len() implies x[i] == y[i] by {
            assert(left[a.len() + 1 + i] == x[i]);
            assert(right[b.len() + 1 + i] == y[i]);
        }
    }
}

/// A schema: the namespaces that make it up.
#[derive(Debug, Clone)]
pub struct Schema {
    namespaces: Vec<Namespace>,
}

impl View for Schema {
    type V = Set<Fact>;

    closed spec fn view(&self) -> Set<Fact> {
        facts(self.namespaces@)
    }
}

impl Schema {
    /// The namespaces of the schema.
    pub closed spec fn spec_namespaces(&self) -> Seq<Namespace> {
        self.namespaces@
    }

    /// Whether the schema is well formed: see `namespaces_wf`.
    pub open spec fn wf(&self) -> bool {
        namespaces_wf(self.spec_namespaces())
    }

    /// The schema of the given namespaces.
    pub fn new(namespaces: Vec<Namespace>) -> (schema: Schema)
        ensures
            schema.spec_namespaces() == namespaces@,
            schema@ == facts(namespaces@),
    {
        Schema { namespaces }
    }

    /// The schema without namespaces.
    pub fn empty() -> (schema: Schema)
        ensures
            schema.spec_namespaces().len() == 0,
            schema@ == Set::<Fact>::empty(),
            schema.wf(),
    {
        let schema = Schema { namespaces: Vec::new() };
        assert(schema@ =~= Set::<Fact>::empty());
        schema
    }

    /// The number of namespaces.
    pub fn len(&self) -> (count: usize)
        ensures
            count == self.spec_namespaces().len(),
    {
        self.namespaces.len()
    }

    /// The namespaces, in the order in which they were first declared.
    pub fn namespaces(&self) -> (namespaces: &Vec<Namespace>)
        ensures
            namespaces@ == self.spec_namespaces(),
    {
        &self.namespaces
    }

    /// The point of the given full name, compared letter for letter. In a
    /// well-formed schema there is at most one, and it holds every type
    /// that the schema states for that name.
    pub fn lookup_point(&self, full_name: &str) -> (found: Option<&Point>)
        ensures
            match found {
                Some(point) => {
                    &&& point.full_name@ == full_name@
                    &&& exists|i: int, j: int|
                        0 <= i < self.spec_namespaces().len() && 0 <= j
                            < self.spec_namespaces()[i].points@.len()
                            && #[trigger] self.spec_namespaces()[i].points@[j] == *point
                },
                None => forall|i: int, j: int|
                    0 <= i < self.spec_namespaces().len() && 0 <= j
                        < self.spec_namespaces()[i].points@.len()
                        ==> (#[trigger] self.spec_namespaces()[i].points@[j]).full_name@
                        != full_name@,
            },
            self.wf() ==> (found is Some <==> self@.contains(Fact::Point(full_name@))),
            self.wf() ==> (found matches Some(point) ==> forall|t: PointType|
                point.types@.contains(t) <==> self@.contains(Fact::Type(full_name@, t))),
    {
        let mut i: usize = 0;
        while i < self.namespaces.len()
            invariant
                i <= self.namespaces@.len(),
                forall|a: int, b: int|
                    0 <= a < i && 0 <= b < self.namespaces@[a].points@.len()
                        ==> (#[trigger] self.namespaces@[a].points@[b]).full_name@ != full_name@,
            decreases self.namespaces@.len() - i,
        {
            let namespace = &self.namespaces[i];
            let mut j: usize = 0;
            while j < namespace.points.len()
                invariant
                    i < self.namespaces@.len(),
                    namespace == &self.namespaces@[i as int],
                    j <= namespace.points@.len(),
                    forall|b: int|
                        0 <= b < j ==> (#[trigger] namespace.points@[b]).full_name@ != full_name@,
                decreases namespace.points@.len() - j,
            {
                let point = &namespace.points[j];
                if str_eq(point.full_name.as_str(), full_name) {
                    proof {
                        assert(self.spec_namespaces()[i as int].points@[j as int] == *point);
                        if self.wf() {
                            self.lemma_point_facts(i as int, j as int);
                        }
                    }
                    return Some(point);
                }
                j = j + 1;
            }
            i = i + 1;
        }
        proof {
            if self.wf() && self@.contains(Fact::Point(full_name@)) {
                let a = choose|a: int|
                    0 <= a < self.namespaces@.len() && namespace_states(
                        #[trigger] self.namespaces@[a],
                        Fact::Point(full_name@),
                    );
                let name = choose|name: Seq<char>| #[trigger]
                    self.namespaces@[a].has_point(name) && full_name@ == join(
                        self.namespaces@[a].name@,
                        name,
                    );
                let b = choose|b: int|
                    0 <= b < self.namespaces@[a].points@.len()
                        && #[trigger] self.namespaces@[a].points@[b].name@ == name;
                assert(self.namespaces@[a].points@[b].full_name@ == full_name@);
                assert(false);
            }
        }
        None
    }

    /// In a well-formed schema the point at a given place is the only one of
    /// its full name, and its types are the types stated for that name.
    pub proof fn lemma_point_facts(&self, i: int, j: int)
        requires
            self.wf(),
            0 <= i < self.spec_namespaces().len(),
            0 <= j < self.spec_namespaces()[i].points@.len(),
        ensures
            self@.contains(Fact::Point(self.spec_namespaces()[i].points@[j].full_name@)),
            forall|t: PointType|
                self.spec_namespaces()[i].points@[j].types@.contains(t) <==> self@.contains(
                    Fact::Type(self.spec_namespaces()[i].points@[j].full_name@, t),
                ),
    {
        let namespaces = self.namespaces@;
        let namespace = namespaces[i];
        let point = namespace.points@[j];
        let full_name = point.full_name@;
        assert(full_name == join(namespace.name@, point.name@));
        assert(namespace.has_point(point.name@));
        assert(namespace_states(namespace, Fact::Point(full_name)));
        assert forall|t: PointType|
            point.types@.contains(t) <==> self@.contains(Fact::Type(full_name, t)) by {
            if point.types@.contains(t) {
                assert(namespace.admits(point.name@, t));
                assert(namespace_states(namespace, Fact::Type(full_name, t)));
            }
            if self@.contains(Fact::Type(full_name, t)) {
                let a = choose|a: int|
                    0 <= a < namespaces.len() && namespace_states(
                        #[trigger] namespaces[a],
                        Fact::Type(full_name, t),
                    );
                let name = choose|name: Seq<char>| #[trigger]
                    namespaces[a].admits(name, t) && full_name == join(namespaces[a].name@, name);
                let b = choose|b: int|
                    0 <= b < namespaces[a].points@.len() && #[trigger]
                        namespaces[a].points@[b].name@
                        == name && namespaces[a].points@[b].types@.contains(t);
                assert(is_local(namespaces[a].points@[b].name@));
                assert(is_local(namespaces[i].points@[j].name@));
                lemma_join_injective(namespaces[a].name@, name, namespace.name@, point.name@);
                if a != i {
                    if a < i {
                        assert(namespaces[a].name@ != namespaces[i].name@);
                    } else {
                        assert(namespaces[i].name@ != namespaces[a].name@);
                    }
                }
                if b != j {
                    if b < j {
                        assert(namespace.points@[b].name@ != namespace.points@[j].name@);
                    } else {
                        assert(namespace.points@[j].name@ != namespace.points@[b].name@);
                    }
                }
            }
        }
    }
}

} // verus!
