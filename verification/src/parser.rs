//! From schema text to schema: the declarations of the text are read, then
//! walked, and the namespaces they declare are merged by full name.

use crate::forest::{
    arena_children, arena_data, arena_get, arena_get_mut, arena_into_vec, arena_new,
    arena_new_node, arena_roots, arena_slot, is_full, is_root, node_append, node_children,
};
use crate::lexer::is_identifier;
use crate::meaning::{
    declares, direct_admits, direct_has, direct_unknown, first_unknown, full, lemma_local_is_local,
    local, meaning, namespace_count, nested_count, nested_declare, nested_unknown, own_fact,
    point_lists, total_count, type_named, type_word, types_unknown, unknown_in,
    lemma_direct_unknown_stays, lemma_first_unknown_stays, lemma_nested_unknown_stays,
    lemma_total_below_tokens, lemma_types_unknown_stays,
};
use crate::point::{join, join_names, Namespace, Point, PointType, TypeSet};
use crate::reading::lemma_reading_is_unique;
use crate::schema::{
    facts, is_local, lemma_join_injective, namespace_states, namespaces_wf, states, Fact, Schema,
};
use crate::syntax::{
    all_wf, item_wf, lemma_items_as_sequence, namespace_wf, parse_declarations, point_wf,
    reads_as, syntax_error, Item, NamespaceDecl, ParseError, ParseErrorKind, PointDecl, TypeRef,
};
use crate::text::{ascii_to_string, bytes_eq, lowercase_ascii, str_eq};
use vstd::prelude::*;
use vstd::string::*;

verus! {

/// The word that names a type, as bytes.
fn word_of(point_type: PointType) -> (word: Vec<u8>)
    ensures
        word@ == type_word(point_type),
{
    match point_type {
        PointType::Boolean => vec![0x62u8, 0x6f, 0x6f, 0x6c, 0x65, 0x61, 0x6e],
        PointType::Blob => vec![0x62u8, 0x6c, 0x6f, 0x62],
        PointType::String => vec![0x73u8, 0x74, 0x72, 0x69, 0x6e, 0x67],
        PointType::U8 => vec![0x75u8, 0x38],
        PointType::I8 => vec![0x69u8, 0x38],
        PointType::U16 => vec![0x75u8, 0x31, 0x36],
        PointType::I16 => vec![0x69u8, 0x31, 0x36],
        PointType::U32 => vec![0x75u8, 0x33, 0x32],
        PointType::I32 => vec![0x69u8, 0x33, 0x32],
        PointType::U64 => vec![0x75u8, 0x36, 0x34],
        PointType::I64 => vec![0x69u8, 0x36, 0x34],
        PointType::F32 => vec![0x66u8, 0x33, 0x32],
        PointType::F64 => vec![0x66u8, 0x36, 0x34],
    }
}

/// Whether a word in lower case is the word of the given type.
fn names(word: &[u8], point_type: PointType) -> (yes: bool)
    ensures
        yes == (word@ == type_word(point_type)),
{
    let expected = word_of(point_type);
    bytes_eq(word, expected.as_slice())
}

impl PointType {
    /// The type that a type name names, whatever the case of its letters; a
    /// name that names none is refused with its position.
    pub fn try_from(name: &TypeRef) -> (found: Result<PointType, ParseError>)
        ensures
            match found {
                Ok(point_type) => type_named(name.name@) == Some(point_type),
                Err(e) => type_named(name.name@) is None && e.kind == ParseErrorKind::UnknownType
                    && e.position == name.position,
            },
    {
        let lowered = lowercase_ascii(name.name.as_slice());
        let word = lowered.as_slice();
        if names(word, PointType::Boolean) {
            Ok(PointType::Boolean)
        } else if names(word, PointType::Blob) {
            Ok(PointType::Blob)
        } else if names(word, PointType::String) {
            Ok(PointType::String)
        } else if names(word, PointType::U8) {
            Ok(PointType::U8)
        } else if names(word, PointType::I8) {
            Ok(PointType::I8)
        } else if names(word, PointType::U16) {
            Ok(PointType::U16)
        } else if names(word, PointType::I16) {
            Ok(PointType::I16)
        } else if names(word, PointType::U32) {
            Ok(PointType::U32)
        } else if names(word, PointType::I32) {
            Ok(PointType::I32)
        } else if names(word, PointType::U64) {
            Ok(PointType::U64)
        } else if names(word, PointType::I64) {
            Ok(PointType::I64)
        } else if names(word, PointType::F32) {
            Ok(PointType::F32)
        } else if names(word, PointType::F64) {
            Ok(PointType::F64)
        } else {
            Err(ParseError { kind: ParseErrorKind::UnknownType, position: name.position })
        }
    }
}

/// A name as the schema keeps it: in lower case, as a string.
fn local_name(name: &Vec<u8>) -> (text: String)
    requires
        is_identifier(name@),
    ensures
        text@ == local(name@),
        is_local(text@),
{
    let lowered = lowercase_ascii(name.as_slice());
    proof {
        lemma_local_is_local(name@);
    }
    ascii_to_string(lowered)
}

/// The point that a declaration declares in the namespace of the given
/// full name; a type name that names no type is refused with its position.
pub(crate) fn convert_point(point: &PointDecl, namespace: &str) -> (made: Result<Point, ParseError>)
    requires
        point_wf(*point),
    ensures
        match made {
            Ok(p) => {
                &&& types_unknown(point.types@, point.types@.len()) is None
                &&& p.name@ == local(point.name@)
                &&& p.full_name@ == join(namespace@, p.name@)
                &&& forall|t: PointType| p.types@.contains(t) <==> point_lists(*point, t)
            },
            Err(e) => e.kind == ParseErrorKind::UnknownType && types_unknown(
                point.types@,
                point.types@.len(),
            ) == Some(e.position as nat),
        },
{
    let mut types = TypeSet::new();
    let mut i: usize = 0;
    while i < point.types.len()
        invariant
            i <= point.types@.len(),
            types_unknown(point.types@, i as nat) is None,
            forall|t: PointType|
                types@.contains(t) <==> exists|j: int|
                    0 <= j < i && type_named(#[trigger] point.types@[j].name@) == Some(t),
        decreases point.types@.len() - i,
    {
        let point_type = match PointType::try_from(&point.types[i]) {
            Ok(point_type) => point_type,
            Err(e) => {
                proof {
                    lemma_types_unknown_stays(
                        point.types@,
                        (i + 1) as nat,
                        point.types@.len() as nat,
                    );
                }
                return Err(e);
            },
        };
        let ghost before = types@;
        types.insert(point_type);
        i = i + 1;
        assert forall|t: PointType|
            types@.contains(t) <==> exists|j: int|
                0 <= j < i && type_named(#[trigger] point.types@[j].name@) == Some(t) by {
            if types@.contains(t) {
                if before.contains(t) {
                    let j = choose|j: int|
                        0 <= j < i - 1 && type_named(#[trigger] point.types@[j].name@) == Some(t);
                    assert(0 <= j < i && type_named(point.types@[j].name@) == Some(t));
                } else {
                    assert(type_named(point.types@[i - 1].name@) == Some(t));
                }
            }
            if exists|j: int|
                0 <= j < i && type_named(#[trigger] point.types@[j].name@) == Some(t) {
                let j = choose|j: int|
                    0 <= j < i && type_named(#[trigger] point.types@[j].name@) == Some(t);
                if j < i - 1 {
                    assert(before.contains(t));
                }
            }
        }
    }
    let name = local_name(&point.name);
    let full_name = join_names(namespace, name.as_str());
    Ok(Point { types, name, full_name })
}

/// The points that a declaration declares directly, gathered in a namespace
/// of the given full name: points of one name are merged.
fn gather_points(decl: &NamespaceDecl, name: String) -> (made: Result<Namespace, ParseError>)
    requires
        namespace_wf(*decl),
    ensures
        match made {
            Ok(namespace) => {
                &&& direct_unknown(*decl, decl.items@.len()) is None
                &&& namespace.wf()
                &&& namespace.name@ == name@
                &&& forall|n: Seq<char>| #[trigger]
                    namespace.has_point(n) <==> direct_has(*decl, decl.items@.len(), n)
                &&& forall|n: Seq<char>, t: PointType| #[trigger]
                    namespace.admits(n, t) <==> direct_admits(*decl, decl.items@.len(), n, t)
                &&& forall|j: int|
                    0 <= j < namespace.points@.len() ==> is_local(
                        #[trigger] namespace.points@[j].name@,
                    )
            },
            Err(e) => e.kind == ParseErrorKind::UnknownType && direct_unknown(
                *decl,
                decl.items@.len(),
            ) == Some(e.position as nat),
        },
{
    let mut namespace = Namespace::new(name);
    let mut i: usize = 0;
    proof {
        lemma_items_as_sequence(*decl, decl.items@.len());
    }
    while i < decl.items.len()
        invariant
            i <= decl.items@.len(),
            forall|k: int| 0 <= k < decl.items@.len() ==> item_wf(#[trigger] decl.items@[k]),
            direct_unknown(*decl, i as nat) is None,
            namespace.wf(),
            namespace.name@ == name@,
            forall|n: Seq<char>| #[trigger]
                namespace.has_point(n) <==> direct_has(*decl, i as nat, n),
            forall|n: Seq<char>, t: PointType| #[trigger]
                namespace.admits(n, t) <==> direct_admits(*decl, i as nat, n, t),
        decreases decl.items@.len() - i,
    {
        let ghost before = namespace;
        match &decl.items[i] {
            Item::Point(point) => {
                assert(item_wf(decl.items@[i as int]));
                let made = match convert_point(point, namespace.name.as_str()) {
                    Ok(made) => made,
                    Err(e) => {
                        proof {
                            lemma_direct_unknown_stays(
                                *decl,
                                (i + 1) as nat,
                                decl.items@.len() as nat,
                            );
                        }
                        return Err(e);
                    },
                };
                namespace.add_point(made);
                i = i + 1;
                proof {
                    assert forall|n: Seq<char>| #[trigger]
                        namespace.has_point(n) <==> direct_has(*decl, i as nat, n) by {
                        assert(namespace.has_point(n) <==> before.has_point(n) || n == made.name@);
                        assert(before.has_point(n) <==> direct_has(*decl, (i - 1) as nat, n));
                        if direct_has(*decl, i as nat, n) {
                            let k = choose|k: int|
                                0 <= k < i && k < decl.items@.len() && (
                                #[trigger] decl.items@[k] matches Item::Point(p) && local(p.name@)
                                    == n);
                            if k < i - 1 {
                                assert(direct_has(*decl, (i - 1) as nat, n));
                            }
                        }
                        if direct_has(*decl, (i - 1) as nat, n) {
                            let k = choose|k: int|
                                0 <= k < i - 1 && k < decl.items@.len() && (
                                #[trigger] decl.items@[k] matches Item::Point(p) && local(p.name@)
                                    == n);
                            assert(0 <= k < i);
                        }
                        if n == made.name@ {
                            assert(decl.items@[i - 1] matches Item::Point(p) && local(p.name@)
                                == n);
                        }
                    }
                    assert forall|n: Seq<char>, t: PointType| #[trigger]
                        namespace.admits(n, t) <==> direct_admits(*decl, i as nat, n, t) by {
                        assert(namespace.admits(n, t) <==> before.admits(n, t) || (n == made.name@
                            && made.types@.contains(t)));
                        assert(before.admits(n, t) <==> direct_admits(
                            *decl,
                            (i - 1) as nat,
                            n,
                            t,
                        ));
                        if direct_admits(*decl, i as nat, n, t) {
                            let k = choose|k: int|
                                0 <= k < i && k < decl.items@.len() && (
                                #[trigger] decl.items@[k] matches Item::Point(p) && local(p.name@)
                                    == n && point_lists(p, t));
                            if k < i - 1 {
                                assert(direct_admits(*decl, (i - 1) as nat, n, t));
                            }
                        }
                        if direct_admits(*decl, (i - 1) as nat, n, t) {
                            let k = choose|k: int|
                                0 <= k < i - 1 && k < decl.items@.len() && (
                                #[trigger] decl.items@[k] matches Item::Point(p) && local(p.name@)
                                    == n && point_lists(p, t));
                            assert(0 <= k < i);
                        }
                        if n == made.name@ && made.types@.contains(t) {
                            assert(decl.items@[i - 1] matches Item::Point(p) && local(p.name@) == n
                                && point_lists(p, t));
                        }
                    }
                }
            },
            Item::Namespace(_) => {
                i = i + 1;
                proof {
                    assert forall|n: Seq<char>| #[trigger]
                        namespace.has_point(n) <==> direct_has(*decl, i as nat, n) by {
                        assert(before.has_point(n) <==> direct_has(*decl, (i - 1) as nat, n));
                        if direct_has(*decl, i as nat, n) {
                            let k = choose|k: int|
                                0 <= k < i && k < decl.items@.len() && (
                                #[trigger] decl.items@[k] matches Item::Point(p) && local(p.name@)
                                    == n);
                            assert(k < i - 1);
                        }
                        if direct_has(*decl, (i - 1) as nat, n) {
                            let k = choose|k: int|
                                0 <= k < i - 1 && k < decl.items@.len() && (
                                #[trigger] decl.items@[k] matches Item::Point(p) && local(p.name@)
                                    == n);
                            assert(0 <= k < i);
                        }
                    }
                    assert forall|n: Seq<char>, t: PointType| #[trigger]
                        namespace.admits(n, t) <==> direct_admits(*decl, i as nat, n, t) by {
                        assert(before.admits(n, t) <==> direct_admits(
                            *decl,
                            (i - 1) as nat,
                            n,
                            t,
                        ));
                        if direct_admits(*decl, i as nat, n, t) {
                            let k = choose|k: int|
                                0 <= k < i && k < decl.items@.len() && (
                                #[trigger] decl.items@[k] matches Item::Point(p) && local(p.name@)
                                    == n && point_lists(p, t));
                            assert(k < i - 1);
                        }
                        if direct_admits(*decl, (i - 1) as nat, n, t) {
                            let k = choose|k: int|
                                0 <= k < i - 1 && k < decl.items@.len() && (
                                #[trigger] decl.items@[k] matches Item::Point(p) && local(p.name@)
                                    == n && point_lists(p, t));
                            assert(0 <= k < i);
                        }
                    }
                }
            },
        }
    }
    proof {
        assert forall|j: int| 0 <= j < namespace.points@.len() implies is_local(
            #[trigger] namespace.points@[j].name@,
        ) by {
            let n = namespace.points@[j].name@;
            assert(namespace.has_point(n));
            assert(direct_has(*decl, decl.items@.len(), n));
            let k = choose|k: int|
                0 <= k < decl.items@.len() && (#[trigger] decl.items@[k] matches Item::Point(p)
                    && local(p.name@) == n);
            assert(item_wf(decl.items@[k]));
            lemma_local_is_local(decl.items@[k]->Point_0.name@);
        }
    }
    Ok(namespace)
}

/// The namespaces of an arena from which no node was removed.
pub open spec fn live(arena: indextree::Arena<Namespace>) -> Seq<Namespace> {
    Seq::new(arena_data(arena).len(), |i: int| arena_data(arena)[i]->0)
}

/// Whether `inner` is the full name of something declared directly in the
/// namespace of the full name `outer`.
pub open spec fn extends(outer: Seq<char>, inner: Seq<char>) -> bool {
    exists|last: Seq<char>| is_local(last) && inner == #[trigger] join(outer, last)
}

/// Whether every child of a node is a node of the arena whose name extends
/// the name of its parent.
pub open spec fn children_ok(arena: indextree::Arena<Namespace>) -> bool {
    forall|p: int, k: int|
        0 <= p < arena_children(arena).len() && 0 <= k < arena_children(arena)[p].len() ==> 0 <= (
        #[trigger] arena_children(arena)[p][k]) < arena_data(arena).len() && extends(
            live(arena)[p].name@,
            live(arena)[arena_children(arena)[p][k]].name@,
        )
}

/// Whether the name of every root is free of the separator.
pub open spec fn roots_ok(arena: indextree::Arena<Namespace>) -> bool {
    forall|s: int|
        0 <= s < arena_data(arena).len() && #[trigger] is_root(arena, s) ==> is_local(
            live(arena)[s].name@,
        )
}

/// The invariant of the tree of namespaces: no node was removed, the
/// namespaces are well formed together, and the names follow the tree.
pub open spec fn forest_ok(arena: indextree::Arena<Namespace>) -> bool {
    &&& is_full(arena)
    &&& arena_children(arena).len() == arena_data(arena).len()
    &&& namespaces_wf(live(arena))
    &&& children_ok(arena)
    &&& roots_ok(arena)
}

/// The name of the node that an id names, where it names one.
pub open spec fn prefix_of(
    arena: indextree::Arena<Namespace>,
    parent: Option<indextree::NodeId>,
) -> Option<Seq<char>> {
    match parent {
        None => None,
        Some(id) => Some(live(arena)[arena_slot(arena, id)->0].name@),
    }
}

/// A name that is found neither among the roots, where it is local, nor
/// among the children of the node whose name it extends, is the name of no
/// node at all.
proof fn lemma_name_is_fresh(
    arena: indextree::Arena<Namespace>,
    parent: Option<int>,
    last: Seq<char>,
    name: Seq<char>,
)
    requires
        forest_ok(arena),
        is_local(last),
        match parent {
            None => name == last && forall|s: int|
                0 <= s < arena_data(arena).len() && #[trigger] is_root(arena, s) ==> live(
                    arena,
                )[s].name@ != name,
            Some(p) => 0 <= p < arena_data(arena).len() && name == join(live(arena)[p].name@, last)
                && forall|k: int|
                0 <= k < arena_children(arena)[p].len() ==> live(
                    arena,
                )[#[trigger] arena_children(arena)[p][k]].name@ != name,
        },
    ensures
        forall|s: int|
            0 <= s < arena_data(arena).len() ==> (#[trigger] live(arena)[s]).name@ != name,
{
    let names = live(arena);
    assert forall|s: int| 0 <= s < arena_data(arena).len() implies (#[trigger] names[s]).name@
        != name by {
        if names[s].name@ == name {
            if is_root(arena, s) {
                match parent {
                    None => {},
                    Some(p) => {
                        assert(is_local(names[s].name@));
                        assert(name[names[p].name@.len() as int] == crate::point::PATH_SEPARATOR);
                    },
                }
            } else {
                let (q, k) = choose|q: int, k: int|
                    0 <= q < arena_children(arena).len() && 0 <= k < arena_children(arena)[q].len()
                        && #[trigger] arena_children(arena)[q][k] == s;
                assert(extends(names[q].name@, names[s].name@));
                let other = choose|other: Seq<char>|
                    is_local(other) && names[s].name@ == #[trigger] join(names[q].name@, other);
                match parent {
                    None => {
                        assert(name[names[q].name@.len() as int] == crate::point::PATH_SEPARATOR);
                    },
                    Some(p) => {
                        lemma_join_injective(names[q].name@, other, names[p].name@, last);
                        if q < p {
                            assert(names[q].name@ != names[p].name@);
                        } else if p < q {
                            assert(names[p].name@ != names[q].name@);
                        }
                        assert(arena_children(arena)[p][k] == s);
                    },
                }
            }
        }
    }
}

/// What a namespace that gathered the points of a declaration states is
/// what the declaration itself states.
proof fn lemma_gathered_facts(gathered: Namespace, decl: NamespaceDecl)
    requires
        forall|n: Seq<char>| #[trigger]
            gathered.has_point(n) <==> direct_has(decl, decl.items@.len(), n),
        forall|n: Seq<char>, t: PointType| #[trigger]
            gathered.admits(n, t) <==> direct_admits(decl, decl.items@.len(), n, t),
    ensures
        forall|fact: Fact| #[trigger]
            namespace_states(gathered, fact) <==> own_fact(gathered.name@, decl, fact),
{
    let me = gathered.name@;
    assert forall|fact: Fact| #[trigger]
        namespace_states(gathered, fact) <==> own_fact(me, decl, fact) by {
        match fact {
            Fact::Namespace(_) => {},
            Fact::Point(full_name) => {
                if namespace_states(gathered, fact) {
                    let n = choose|n: Seq<char>| #[trigger]
                        gathered.has_point(n) && full_name == join(me, n);
                    assert(direct_has(decl, decl.items@.len(), n));
                }
                if own_fact(me, decl, fact) {
                    let n = choose|n: Seq<char>| #[trigger]
                        direct_has(decl, decl.items@.len(), n) && full_name == join(me, n);
                    assert(gathered.has_point(n));
                }
            },
            Fact::Type(full_name, t) => {
                if namespace_states(gathered, fact) {
                    let n = choose|n: Seq<char>| #[trigger]
                        gathered.admits(n, t) && full_name == join(me, n);
                    assert(direct_admits(decl, decl.items@.len(), n, t));
                }
                if own_fact(me, decl, fact) {
                    let n = choose|n: Seq<char>| #[trigger]
                        direct_admits(decl, decl.items@.len(), n, t) && full_name == join(me, n);
                    assert(gathered.admits(n, t));
                }
            },
        }
    }
}

/// What a namespace states after it took the points of another of the same
/// name in is what the two stated.
proof fn lemma_combined_facts(before: Namespace, given: Namespace, after: Namespace)
    requires
        before.name@ == given.name@,
        after.name@ == before.name@,
        forall|n: Seq<char>| #[trigger]
            after.has_point(n) <==> before.has_point(n) || given.has_point(n),
        forall|n: Seq<char>, t: PointType| #[trigger]
            after.admits(n, t) <==> before.admits(n, t) || given.admits(n, t),
    ensures
        forall|fact: Fact| #[trigger]
            namespace_states(after, fact) <==> namespace_states(before, fact) || namespace_states(
                given,
                fact,
            ),
{
    let me = before.name@;
    assert forall|fact: Fact| #[trigger]
        namespace_states(after, fact) <==> namespace_states(before, fact) || namespace_states(
            given,
            fact,
        ) by {
        match fact {
            Fact::Namespace(_) => {},
            Fact::Point(full_name) => {
                if namespace_states(after, fact) {
                    let n = choose|n: Seq<char>| #[trigger]
                        after.has_point(n) && full_name == join(me, n);
                    assert(before.has_point(n) || given.has_point(n));
                }
                if namespace_states(before, fact) {
                    let n = choose|n: Seq<char>| #[trigger]
                        before.has_point(n) && full_name == join(me, n);
                    assert(after.has_point(n));
                }
                if namespace_states(given, fact) {
                    let n = choose|n: Seq<char>| #[trigger]
                        given.has_point(n) && full_name == join(me, n);
                    assert(after.has_point(n));
                }
            },
            Fact::Type(full_name, t) => {
                if namespace_states(after, fact) {
                    let n = choose|n: Seq<char>| #[trigger]
                        after.admits(n, t) && full_name == join(me, n);
                    assert(before.admits(n, t) || given.admits(n, t));
                }
                if namespace_states(before, fact) {
                    let n = choose|n: Seq<char>| #[trigger]
                        before.admits(n, t) && full_name == join(me, n);
                    assert(after.admits(n, t));
                }
                if namespace_states(given, fact) {
                    let n = choose|n: Seq<char>| #[trigger]
                        given.admits(n, t) && full_name == join(me, n);
                    assert(after.admits(n, t));
                }
            },
        }
    }
}

/// Replacing a namespace by one that states what it stated and what
/// another states adds the facts of that other to the facts of all.
proof fn lemma_states_update(all: Seq<Namespace>, slot: int, after: Namespace, given: Namespace)
    requires
        0 <= slot < all.len(),
        forall|fact: Fact| #[trigger]
            namespace_states(after, fact) <==> namespace_states(all[slot], fact)
                || namespace_states(given, fact),
    ensures
        forall|fact: Fact| #[trigger]
            states(all.update(slot, after), fact) <==> states(all, fact) || namespace_states(
                given,
                fact,
            ),
{
    let updated = all.update(slot, after);
    assert forall|fact: Fact| #[trigger]
        states(updated, fact) <==> states(all, fact) || namespace_states(given, fact) by {
        if states(updated, fact) {
            let i = choose|i: int|
                0 <= i < updated.len() && namespace_states(#[trigger] updated[i], fact);
            if i != slot {
                assert(all[i] == updated[i]);
            } else {
                assert(namespace_states(after, fact));
            }
        }
        if states(all, fact) {
            let i = choose|i: int| 0 <= i < all.len() && namespace_states(#[trigger] all[i], fact);
            if i != slot {
                assert(updated[i] == all[i]);
            } else {
                assert(namespace_states(after, fact));
                assert(updated[slot] == after);
            }
        }
        if namespace_states(given, fact) {
            assert(namespace_states(after, fact));
            assert(updated[slot] == after);
        }
    }
}

/// One more namespace adds its facts to the facts of all.
proof fn lemma_states_push(all: Seq<Namespace>, given: Namespace)
    ensures
        forall|fact: Fact| #[trigger]
            states(all.push(given), fact) <==> states(all, fact) || namespace_states(given, fact),
{
    let longer = all.push(given);
    assert forall|fact: Fact| #[trigger]
        states(longer, fact) <==> states(all, fact) || namespace_states(given, fact) by {
        if states(longer, fact) {
            let i = choose|i: int|
                0 <= i < longer.len() && namespace_states(#[trigger] longer[i], fact);
            if i < all.len() {
                assert(all[i] == longer[i]);
            }
        }
        if states(all, fact) {
            let i = choose|i: int| 0 <= i < all.len() && namespace_states(#[trigger] all[i], fact);
            assert(longer[i] == all[i]);
        }
        if namespace_states(given, fact) {
            assert(longer[all.len() as int] == given);
        }
    }
}

/// The first of the given nodes whose namespace has the given name.
fn find_namespace(
    arena: &indextree::Arena<Namespace>,
    candidates: &Vec<indextree::NodeId>,
    name: &str,
) -> (found: Option<indextree::NodeId>)
    requires
        is_full(*arena),
        forall|k: int|
            0 <= k < candidates@.len() ==> (#[trigger] arena_slot(*arena, candidates@[k])) is Some,
    ensures
        match found {
            Some(id) => {
                &&& arena_slot(*arena, id) is Some
                &&& 0 <= arena_slot(*arena, id)->0 < arena_data(*arena).len()
                &&& live(*arena)[arena_slot(*arena, id)->0].name@ == name@
            },
            None => forall|k: int|
                0 <= k < candidates@.len() ==> {
                    let slot = (#[trigger] arena_slot(*arena, candidates@[k]))->0;
                    0 <= slot < arena_data(*arena).len() && live(*arena)[slot].name@ != name@
                },
        },
{
    let mut i: usize = 0;
    while i < candidates.len()
        invariant
            i <= candidates@.len(),
            is_full(*arena),
            forall|k: int|
                0 <= k < candidates@.len() ==> (
                #[trigger] arena_slot(*arena, candidates@[k])) is Some,
            forall|k: int|
                0 <= k < i ==> {
                    let slot = (#[trigger] arena_slot(*arena, candidates@[k]))->0;
                    0 <= slot < arena_data(*arena).len() && live(*arena)[slot].name@ != name@
                },
        decreases candidates@.len() - i,
    {
        let id = candidates[i];
        assert(arena_slot(*arena, candidates@[i as int]) is Some);
        match arena_get(arena, id) {
            Some(namespace) => {
                if str_eq(namespace.name.as_str(), name) {
                    return Some(id);
                }
            },
            None => {},
        }
        i = i + 1;
    }
    None
}

/// Merges gathered points into the node of the same name.
fn merge_into(arena: &mut indextree::Arena<Namespace>, id: indextree::NodeId, gathered: Namespace)
    requires
        forest_ok(*old(arena)),
        arena_slot(*old(arena), id) is Some,
        0 <= arena_slot(*old(arena), id)->0 < arena_data(*old(arena)).len(),
        live(*old(arena))[arena_slot(*old(arena), id)->0].name@ == gathered.name@,
        forall|j: int|
            0 <= j < gathered.points@.len() ==> is_local(#[trigger] gathered.points@[j].name@),
    ensures
        forest_ok(*final(arena)),
        arena_data(*final(arena)).len() == arena_data(*old(arena)).len(),
        forall|other: indextree::NodeId| #[trigger]
            arena_slot(*final(arena), other) == arena_slot(*old(arena), other),
        forall|s: int|
            0 <= s < arena_data(*old(arena)).len() ==> (#[trigger] live(*final(arena))[s]).name@
                == live(*old(arena))[s].name@,
        forall|fact: Fact| #[trigger]
            states(live(*final(arena)), fact) <==> states(live(*old(arena)), fact)
                || namespace_states(gathered, fact),
{
    let ghost slot = arena_slot(*arena, id)->0;
    let ghost before = live(*arena);
    match arena_get_mut(arena, id) {
        Some(existing) => {
            assert(*existing == before[slot]);
            assert(existing.wf());
            existing.combine(gathered);
        },
        None => {},
    }
    proof {
        let after = live(*arena);
        let combined = after[slot];
        assert(arena_data(*arena) == arena_data(*old(arena)).update(slot, Some(combined)));
        assert(after =~= before.update(slot, combined));
        lemma_combined_facts(before[slot], gathered, combined);
        lemma_states_update(before, slot, combined, gathered);
        assert(is_full(*arena));
        assert(namespaces_wf(after)) by {
            assert forall|i: int| 0 <= i < after.len() implies (#[trigger] after[i]).wf() by {
                if i != slot {
                    assert(after[i] == before[i]);
                }
            }
            assert forall|i: int, j: int| 0 <= i < j < after.len() implies (
            #[trigger] after[i]).name@ != (#[trigger] after[j]).name@ by {
                assert(after[i].name@ == before[i].name@);
                assert(after[j].name@ == before[j].name@);
            }
            assert forall|i: int, j: int|
                0 <= i < after.len() && 0 <= j < after[i].points@.len() implies is_local(
                #[trigger] after[i].points@[j].name@,
            ) by {
                if i != slot {
                    assert(after[i] == before[i]);
                    assert(is_local(before[i].points@[j].name@));
                } else {
                    let n = combined.points@[j].name@;
                    assert(combined.has_point(n));
                    if before[slot].has_point(n) {
                        let b = choose|b: int|
                            0 <= b < before[slot].points@.len()
                                && #[trigger] before[slot].points@[b].name@ == n;
                        assert(is_local(before[slot].points@[b].name@));
                    } else {
                        assert(gathered.has_point(n));
                        let b = choose|b: int|
                            0 <= b < gathered.points@.len() && #[trigger] gathered.points@[b].name@
                                == n;
                        assert(is_local(gathered.points@[b].name@));
                    }
                }
            }
        }
        assert(children_ok(*arena)) by {
            let lists = arena_children(*arena);
            assert forall|p: int, k: int| 0 <= p < lists.len() && 0 <= k < lists[p].len() implies 0
                <= (#[trigger] lists[p][k]) < arena_data(*arena).len() && extends(
                after[p].name@,
                after[lists[p][k]].name@,
            ) by {
                let c = arena_children(*old(arena))[p][k];
                assert(extends(before[p].name@, before[c].name@));
                assert(after[p].name@ == before[p].name@);
                assert(after[c].name@ == before[c].name@);
            }
        }
        assert(roots_ok(*arena)) by {
            assert forall|s: int|
                0 <= s < arena_data(*arena).len() && #[trigger] is_root(*arena, s) implies is_local(
                after[s].name@,
            ) by {
                assert(is_root(*old(arena), s));
                assert(after[s].name@ == before[s].name@);
            }
        }
    }
}

/// Plants gathered points as a new node: as a root, or as the last child of
/// the given parent.
fn plant(
    arena: &mut indextree::Arena<Namespace>,
    parent: Option<indextree::NodeId>,
    gathered: Namespace,
) -> (id: indextree::NodeId)
    requires
        forest_ok(*old(arena)),
        arena_data(*old(arena)).len() < usize::MAX,
        gathered.wf(),
        forall|j: int|
            0 <= j < gathered.points@.len() ==> is_local(#[trigger] gathered.points@[j].name@),
        forall|s: int|
            0 <= s < arena_data(*old(arena)).len() ==> (#[trigger] live(*old(arena))[s]).name@
                != gathered.name@,
        match parent {
            None => is_local(gathered.name@),
            Some(outer) => arena_slot(*old(arena), outer) is Some && 0 <= arena_slot(
                *old(arena),
                outer,
            )->0 < arena_data(*old(arena)).len() && extends(
                live(*old(arena))[arena_slot(*old(arena), outer)->0].name@,
                gathered.name@,
            ),
        },
    ensures
        forest_ok(*final(arena)),
        arena_data(*final(arena)).len() == arena_data(*old(arena)).len() + 1,
        arena_slot(*final(arena), id) == Some(arena_data(*old(arena)).len() as int),
        live(*final(arena))[arena_data(*old(arena)).len() as int].name@ == gathered.name@,
        forall|other: indextree::NodeId|
            (#[trigger] arena_slot(*old(arena), other)) is Some ==> arena_slot(
                *final(arena),
                other,
            ) == arena_slot(*old(arena), other),
        forall|s: int|
            0 <= s < arena_data(*old(arena)).len() ==> (#[trigger] live(*final(arena))[s]).name@
                == live(*old(arena))[s].name@,
        forall|fact: Fact| #[trigger]
            states(live(*final(arena)), fact) <==> states(live(*old(arena)), fact)
                || namespace_states(gathered, fact),
{
    let ghost before = live(*arena);
    let ghost count = arena_data(*arena).len() as int;
    let ghost lists = arena_children(*arena);
    let id = arena_new_node(arena, gathered);
    let ghost middle = *arena;
    proof {
        assert(live(middle) =~= before.push(gathered));
        assert(is_root(middle, count)) by {
            let grown = arena_children(middle);
            assert forall|p: int, k: int|
                0 <= p < grown.len() && 0 <= k < grown[p].len() implies #[trigger] grown[p][k]
                != count by {
                if p < count {
                    assert(grown[p] == lists[p]);
                    assert(0 <= lists[p][k] < count);
                }
            }
        }
    }
    match parent {
        Some(outer) => {
            node_append(outer, id, arena);
        },
        None => {},
    }
    proof {
        let after = live(*arena);
        assert(arena_data(*arena) == arena_data(middle));
        assert(after =~= before.push(gathered));
        lemma_states_push(before, gathered);
        assert(is_full(*arena));
        assert(namespaces_wf(after)) by {
            assert forall|i: int| 0 <= i < after.len() implies (#[trigger] after[i]).wf() by {
                if i < count {
                    assert(after[i] == before[i]);
                }
            }
            assert forall|i: int, j: int| 0 <= i < j < after.len() implies (
            #[trigger] after[i]).name@ != (#[trigger] after[j]).name@ by {
                assert(after[i] == before[i]);
                if j < count {
                    assert(after[j] == before[j]);
                }
            }
            assert forall|i: int, j: int|
                0 <= i < after.len() && 0 <= j < after[i].points@.len() implies is_local(
                #[trigger] after[i].points@[j].name@,
            ) by {
                if i < count {
                    assert(after[i] == before[i]);
                    assert(is_local(before[i].points@[j].name@));
                } else {
                    assert(after[i] == gathered);
                    assert(is_local(gathered.points@[j].name@));
                }
            }
        }
        let done = arena_children(*arena);
        assert(children_ok(*arena)) by {
            assert forall|p: int, k: int| 0 <= p < done.len() && 0 <= k < done[p].len() implies 0
                <= (#[trigger] done[p][k]) < arena_data(*arena).len() && extends(
                after[p].name@,
                after[done[p][k]].name@,
            ) by {
                if p < count && k < lists[p].len() {
                    assert(done[p][k] == lists[p][k]);
                    let c = lists[p][k];
                    assert(0 <= c < count && extends(before[p].name@, before[c].name@));
                    assert(after[p] == before[p]);
                    assert(after[c] == before[c]);
                } else {
                    assert(parent is Some);
                    assert(p == arena_slot(*old(arena), parent->0)->0);
                    assert(done[p][k] == count);
                    assert(after[p] == before[p]);
                }
            }
        }
        assert(roots_ok(*arena)) by {
            assert forall|s: int|
                0 <= s < arena_data(*arena).len() && #[trigger] is_root(*arena, s) implies is_local(
                after[s].name@,
            ) by {
                if s < count {
                    assert(is_root(*old(arena), s)) by {
                        assert forall|p: int, k: int|
                            0 <= p < lists.len() && 0 <= k < lists[p].len() implies (
                        #[trigger] lists[p][k]) != s by {
                            assert(done[p][k] == lists[p][k]);
                        }
                    }
                    assert(after[s] == before[s]);
                } else {
                    match parent {
                        Some(outer) => {
                            let p = arena_slot(*old(arena), outer)->0;
                            assert(done[p][lists[p].len() as int] == count);
                            assert(false);
                        },
                        None => {},
                    }
                }
            }
        }
    }
    id
}

/// Walks a namespace declaration made under the given parent, or at the
/// top level: the points declared directly in it are gathered and merged
/// into the node of the namespace's full name, which is planted if it is
/// not there yet; then the namespaces declared in it are walked under that
/// node. A type name that names no type ends the walk with its position.
fn traverse_tree(
    arena: &mut indextree::Arena<Namespace>,
    parent: Option<indextree::NodeId>,
    decl: &NamespaceDecl,
) -> (done: Result<(), ParseError>)
    requires
        forest_ok(*old(arena)),
        namespace_wf(*decl),
        parent matches Some(outer) ==> arena_slot(*old(arena), outer) is Some && 0 <= arena_slot(
            *old(arena),
            outer,
        )->0 < arena_data(*old(arena)).len(),
        arena_data(*old(arena)).len() + namespace_count(*decl) < usize::MAX,
    ensures
        match done {
            Ok(()) => {
                &&& unknown_in(*decl) is None
                &&& forest_ok(*final(arena))
                &&& arena_data(*old(arena)).len() <= arena_data(*final(arena)).len()
                    <= arena_data(*old(arena)).len() + namespace_count(*decl)
                &&& forall|other: indextree::NodeId|
                    (#[trigger] arena_slot(*old(arena), other)) is Some ==> arena_slot(
                        *final(arena),
                        other,
                    ) == arena_slot(*old(arena), other)
                &&& forall|s: int|
                    0 <= s < arena_data(*old(arena)).len() ==> (#[trigger] live(
                        *final(arena),
                    )[s]).name@ == live(*old(arena))[s].name@
                &&& forall|fact: Fact| #[trigger]
                    states(live(*final(arena)), fact) <==> states(live(*old(arena)), fact)
                        || declares(prefix_of(*old(arena), parent), *decl, fact)
            },
            Err(e) => e.kind == ParseErrorKind::UnknownType && unknown_in(*decl) == Some(
                e.position as nat,
            ),
        },
    decreases *decl,
{
    let ghost start = *arena;
    let ghost prefix = prefix_of(start, parent);
    let last = local_name(&decl.name);
    let name = match parent {
        Some(outer) => match arena_get(arena, outer) {
            Some(namespace) => join_names(namespace.name.as_str(), last.as_str()),
            None => last.clone(),
        },
        None => last.clone(),
    };
    assert(name@ == full(prefix, decl.name@));
    let gathered = match gather_points(decl, name.clone()) {
        Ok(gathered) => gathered,
        Err(e) => {
            return Err(e);
        },
    };
    let candidates = match parent {
        Some(outer) => node_children(outer, arena),
        None => arena_roots(arena),
    };
    let found = find_namespace(arena, &candidates, name.as_str());
    let node = match found {
        Some(id) => {
            merge_into(arena, id, gathered);
            id
        },
        None => {
            proof {
                match parent {
                    Some(outer) => {
                        let p = arena_slot(start, outer)->0;
                        assert forall|k: int| 0 <= k < arena_children(start)[p].len() implies live(
                            start,
                        )[#[trigger] arena_children(start)[p][k]].name@ != name@ by {
                            assert(arena_slot(start, candidates@[k]) == Some(
                                arena_children(start)[p][k],
                            ));
                        }
                        lemma_name_is_fresh(start, Some(p), last@, name@);
                        assert(extends(live(start)[p].name@, name@)) by {
                            assert(name@ == join(live(start)[p].name@, last@));
                        }
                    },
                    None => {
                        assert forall|s: int|
                            0 <= s < arena_data(start).len() && #[trigger] is_root(
                                start,
                                s,
                            ) implies live(start)[s].name@ != name@ by {
                            let k = choose|k: int|
                                0 <= k < candidates@.len() && #[trigger] arena_slot(
                                    start,
                                    candidates@[k],
                                ) == Some(s);
                        }
                        lemma_name_is_fresh(start, None, last@, name@);
                    },
                }
            }
            plant(arena, parent, gathered)
        },
    };
    let ghost planted = *arena;
    let ghost slot = arena_slot(planted, node)->0;
    proof {
        lemma_gathered_facts(gathered, *decl);
        lemma_items_as_sequence(*decl, decl.items@.len());
    }
    let mut i: usize = 0;
    while i < decl.items.len()
        invariant
            i <= decl.items@.len(),
            forall|k: int| 0 <= k < decl.items@.len() ==> item_wf(#[trigger] decl.items@[k]),
            forest_ok(*arena),
            arena_slot(*arena, node) == Some(slot),
            0 <= slot < arena_data(planted).len() <= arena_data(*arena).len(),
            arena_data(start).len() <= arena_data(planted).len() <= arena_data(start).len() + 1,
            arena_data(*arena).len() <= arena_data(planted).len() + nested_count(*decl, i as nat),
            nested_count(*decl, i as nat) <= nested_count(*decl, decl.items@.len()),
            arena_data(start).len() + namespace_count(*decl) < usize::MAX,
            live(*arena)[slot].name@ == name@,
            direct_unknown(*decl, decl.items@.len()) is None,
            nested_unknown(*decl, i as nat) is None,
            forall|other: indextree::NodeId|
                (#[trigger] arena_slot(start, other)) is Some ==> arena_slot(*arena, other)
                    == arena_slot(start, other),
            forall|s: int|
                0 <= s < arena_data(start).len() ==> (#[trigger] live(*arena)[s]).name@ == live(
                    start,
                )[s].name@,
            forall|fact: Fact| #[trigger]
                states(live(*arena), fact) <==> states(live(planted), fact) || nested_declare(
                    name@,
                    *decl,
                    i as nat,
                    fact,
                ),
        decreases decl.items@.len() - i,
    {
        let ghost before = *arena;
        proof {
            lemma_nested_count_grows(*decl, (i + 1) as nat, decl.items@.len());
        }
        match &decl.items[i] {
            Item::Namespace(inner) => {
                proof {
                    vstd::std_specs::vec::axiom_vec_index_decreases(decl.items, i as int);
                    assert(item_wf(decl.items@[i as int]));
                }
                match traverse_tree(arena, Some(node), inner) {
                    Ok(()) => {},
                    Err(e) => {
                        proof {
                            lemma_nested_unknown_stays(
                                *decl,
                                (i + 1) as nat,
                                decl.items@.len() as nat,
                            );
                        }
                        return Err(e);
                    },
                }
                proof {
                    assert(prefix_of(before, Some(node)) == Some(name@));
                    assert forall|fact: Fact| #[trigger]
                        states(live(*arena), fact) <==> states(live(planted), fact)
                            || nested_declare(name@, *decl, (i + 1) as nat, fact) by {
                        assert(states(live(*arena), fact) <==> states(live(before), fact)
                            || declares(Some(name@), *inner, fact));
                        assert(states(live(before), fact) <==> states(live(planted), fact)
                            || nested_declare(name@, *decl, i as nat, fact));
                    }
                    assert forall|other: indextree::NodeId|
                        (#[trigger] arena_slot(start, other)) is Some implies arena_slot(
                        *arena,
                        other,
                    ) == arena_slot(start, other) by {
                        assert(arena_slot(before, other) == arena_slot(start, other));
                    }
                    assert forall|s: int| 0 <= s < arena_data(start).len() implies (#[trigger] live(
                        *arena,
                    )[s]).name@ == live(start)[s].name@ by {
                        assert(live(before)[s].name@ == live(start)[s].name@);
                    }
                }
            },
            Item::Point(_) => {
                proof {
                    assert forall|fact: Fact| #[trigger]
                        states(live(*arena), fact) <==> states(live(planted), fact)
                            || nested_declare(name@, *decl, (i + 1) as nat, fact) by {
                        assert(states(live(before), fact) <==> states(live(planted), fact)
                            || nested_declare(name@, *decl, i as nat, fact));
                    }
                }
            },
        }
        i = i + 1;
    }
    proof {
        assert forall|fact: Fact| #[trigger]
            states(live(*arena), fact) <==> states(live(start), fact) || declares(
                prefix,
                *decl,
                fact,
            ) by {
            assert(states(live(*arena), fact) <==> states(live(planted), fact) || nested_declare(
                name@,
                *decl,
                decl.items@.len(),
                fact,
            ));
            assert(states(live(planted), fact) <==> states(live(start), fact) || namespace_states(
                gathered,
                fact,
            ));
            assert(namespace_states(gathered, fact) <==> own_fact(name@, *decl, fact));
        }
    }
    Ok(())
}

/// The number of namespaces among the items of a declaration grows with
/// the number of items counted.
proof fn lemma_nested_count_grows(namespace: NamespaceDecl, count: nat, more: nat)
    requires
        count <= more <= namespace.items@.len(),
    ensures
        nested_count(namespace, count) <= nested_count(namespace, more),
    decreases more - count,
{
    if count < more {
        lemma_nested_count_grows(namespace, count, (more - 1) as nat);
    }
}

/// The schema that a sequence of top-level declarations declares:
/// namespaces declared more than once are merged, and so are points. A type
/// name that names no type is refused with its position.
pub fn build(namespaces: &Vec<NamespaceDecl>) -> (built: Result<Schema, ParseError>)
    requires
        all_wf(namespaces@),
        total_count(namespaces@) < usize::MAX,
    ensures
        match built {
            Ok(schema) => first_unknown(namespaces@) is None && schema.wf() && schema@ == meaning(
                namespaces@,
            ),
            Err(e) => e.kind == ParseErrorKind::UnknownType && first_unknown(namespaces@) == Some(
                e.position as nat,
            ),
        },
{
    let mut arena = arena_new();
    let mut i: usize = 0;
    proof {
        assert(live(arena) =~= Seq::<Namespace>::empty());
        assert(namespaces@.subrange(0, 0) =~= Seq::<NamespaceDecl>::empty());
    }
    while i < namespaces.len()
        invariant
            i <= namespaces@.len(),
            all_wf(namespaces@),
            total_count(namespaces@) < usize::MAX,
            forest_ok(arena),
            arena_data(arena).len() <= total_count(namespaces@.subrange(0, i as int)),
            first_unknown(namespaces@.subrange(0, i as int)) is None,
            forall|fact: Fact| #[trigger]
                states(live(arena), fact) <==> exists|k: int|
                    0 <= k < i && declares(None, #[trigger] namespaces@[k], fact),
        decreases namespaces@.len() - i,
    {
        let ghost before = arena;
        let ghost shorter = namespaces@.subrange(0, i as int);
        let ghost longer = namespaces@.subrange(0, i + 1);
        proof {
            assert(longer.drop_last() =~= shorter);
            assert(longer.last() == namespaces@[i as int]);
            lemma_total_count_grows(namespaces@, i + 1);
        }
        match traverse_tree(&mut arena, None, &namespaces[i]) {
            Ok(()) => {},
            Err(e) => {
                proof {
                    lemma_first_unknown_stays(namespaces@, i + 1);
                }
                return Err(e);
            },
        }
        proof {
            assert forall|fact: Fact| #[trigger]
                states(live(arena), fact) <==> exists|k: int|
                    0 <= k < i + 1 && declares(None, #[trigger] namespaces@[k], fact) by {
                assert(states(live(arena), fact) <==> states(live(before), fact) || declares(
                    None,
                    namespaces@[i as int],
                    fact,
                ));
                if states(live(before), fact) {
                    let k = choose|k: int|
                        0 <= k < i && declares(None, #[trigger] namespaces@[k], fact);
                    assert(0 <= k < i + 1);
                }
                if exists|k: int|
                    0 <= k < i + 1 && declares(None, #[trigger] namespaces@[k], fact) {
                    let k = choose|k: int|
                        0 <= k < i + 1 && declares(None, #[trigger] namespaces@[k], fact);
                    if k < i {
                        assert(states(live(before), fact));
                    }
                }
            }
        }
        i = i + 1;
    }
    proof {
        assert(namespaces@.subrange(0, i as int) =~= namespaces@);
    }
    let ghost finished = arena;
    let all = arena_into_vec(arena);
    let schema = Schema::new(all);
    proof {
        assert(all@ =~= live(finished));
        assert(schema@ =~= meaning(namespaces@)) by {
            assert forall|fact: Fact| schema@.contains(fact) <==> meaning(namespaces@).contains(
                fact,
            ) by {
                assert(schema@.contains(fact) <==> states(live(finished), fact));
            }
        }
    }
    Ok(schema)
}

/// The number of namespaces in the first declarations of a sequence is at
/// most the number in all of them.
proof fn lemma_total_count_grows(namespaces: Seq<NamespaceDecl>, count: int)
    requires
        0 <= count <= namespaces.len(),
    ensures
        total_count(namespaces.subrange(0, count)) <= total_count(namespaces),
    decreases namespaces.len() - count,
{
    if count < namespaces.len() {
        let longer = namespaces.subrange(0, count + 1);
        assert(longer.drop_last() =~= namespaces.subrange(0, count));
        lemma_total_count_grows(namespaces, count + 1);
    } else {
        assert(namespaces.subrange(0, count) =~= namespaces);
    }
}

/// Whether a schema text declares the given facts: it keeps to the
/// grammar, every type name in it names a type, and its declarations state
/// exactly these facts.
pub open spec fn declares_facts(text: Seq<u8>, stated: Set<Fact>) -> bool {
    &&& syntax_error(text) is None
    &&& exists|namespaces: Seq<NamespaceDecl>|
        reads_as(text, namespaces) && first_unknown(namespaces) is None && stated
            == #[trigger] meaning(namespaces)
}

/// Whether a schema text is refused with the given error: with a syntax
/// error at the offset where it first breaks the grammar, or, where it
/// keeps to the grammar, with the offset of the first type name that names
/// no type.
pub open spec fn is_refused(text: Seq<u8>, e: ParseError) -> bool {
    match e.kind {
        ParseErrorKind::Syntax => syntax_error(text) == Some(e.position as nat),
        ParseErrorKind::UnknownType => syntax_error(text) is None && exists|
            namespaces: Seq<NamespaceDecl>,
        |
            reads_as(text, namespaces) && #[trigger] first_unknown(namespaces) == Some(
                e.position as nat,
            ),
    }
}

/// A schema text has one outcome: it declares one set of facts, or it is
/// refused for one reason at one offset.
pub proof fn lemma_outcome_is_unique(text: Seq<u8>)
    ensures
        forall|one: Set<Fact>, other: Set<Fact>|
            declares_facts(text, one) && declares_facts(text, other) ==> one == other,
        forall|one: ParseError, other: ParseError|
            is_refused(text, one) && is_refused(text, other) ==> one.kind == other.kind
                && one.position == other.position,
        forall|stated: Set<Fact>, e: ParseError|
            !(declares_facts(text, stated) && is_refused(text, e)),
{
    assert forall|one: Set<Fact>, other: Set<Fact>|
        declares_facts(text, one) && declares_facts(text, other) implies one == other by {
        let a = choose|namespaces: Seq<NamespaceDecl>|
            reads_as(text, namespaces) && first_unknown(namespaces) is None && one
                == #[trigger] meaning(namespaces);
        let b = choose|namespaces: Seq<NamespaceDecl>|
            reads_as(text, namespaces) && first_unknown(namespaces) is None && other
                == #[trigger] meaning(namespaces);
        lemma_reading_is_unique(text, a, b);
    }
    assert forall|one: ParseError, other: ParseError|
        is_refused(text, one) && is_refused(text, other) implies one.kind == other.kind
        && one.position == other.position by {
        if one.kind == ParseErrorKind::UnknownType && other.kind == ParseErrorKind::UnknownType {
            let a = choose|namespaces: Seq<NamespaceDecl>|
                reads_as(text, namespaces) && #[trigger] first_unknown(namespaces) == Some(
                    one.position as nat,
                );
            let b = choose|namespaces: Seq<NamespaceDecl>|
                reads_as(text, namespaces) && #[trigger] first_unknown(namespaces) == Some(
                    other.position as nat,
                );
            lemma_reading_is_unique(text, a, b);
        }
    }
    assert forall|stated: Set<Fact>, e: ParseError|
        !(declares_facts(text, stated) && is_refused(text, e)) by {
        if declares_facts(text, stated) && is_refused(text, e) {
            let a = choose|namespaces: Seq<NamespaceDecl>|
                reads_as(text, namespaces) && first_unknown(namespaces) is None && stated
                    == #[trigger] meaning(namespaces);
            let b = choose|namespaces: Seq<NamespaceDecl>|
                reads_as(text, namespaces) && #[trigger] first_unknown(namespaces) == Some(
                    e.position as nat,
                );
            lemma_reading_is_unique(text, a, b);
        }
    }
}

/// The schema that a schema text declares.
///
/// The text is refused where it breaks the grammar, with the offset where
/// it first does; a text that keeps to the grammar is refused where a type
/// name names no type, with the offset of the first such name. Otherwise
/// the schema states exactly what the declarations of the text state.
pub fn parse(input: &str) -> (parsed: Result<Schema, ParseError>)
    ensures
        match parsed {
            Ok(schema) => schema.wf() && declares_facts(input.spec_bytes(), schema@),
            Err(e) => is_refused(input.spec_bytes(), e),
        },
{
    let namespaces = match parse_declarations(input.as_bytes()) {
        Ok(namespaces) => namespaces,
        Err(e) => {
            return Err(e);
        },
    };
    proof {
        lemma_total_below_tokens(namespaces@);
    }
    match build(&namespaces) {
        Ok(schema) => {
            assert(reads_as(input.spec_bytes(), namespaces@) && first_unknown(namespaces@) is None
                && schema@ == meaning(namespaces@));
            Ok(schema)
        },
        Err(e) => {
            assert(reads_as(input.spec_bytes(), namespaces@) && first_unknown(namespaces@) == Some(
                e.position as nat,
            ));
            Err(e)
        },
    }
}

} // verus!
