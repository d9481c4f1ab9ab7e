//! What declarations mean: the facts that a sequence of namespace
//! declarations states, and the first type name in them that names no type.

use crate::lexer::{is_ident_part, is_identifier};
use crate::point::{join, PointType, PATH_SEPARATOR};
use crate::schema::{is_local, Fact};
use crate::syntax::{flat_all, flat_items, flat_namespace, Item, NamespaceDecl, PointDecl, TypeRef};
use crate::text::{chars_of, is_ascii_bytes, lower_bytes};
use vstd::prelude::*;

verus! {

/// A name as the schema keeps it: in lower case.
pub open spec fn local(name: Seq<u8>) -> Seq<char> {
    chars_of(lower_bytes(name))
}

/// The full name of a namespace or point declared as `name` under the
/// namespace `prefix`, or at the top level.
pub open spec fn full(prefix: Option<Seq<char>>, name: Seq<u8>) -> Seq<char> {
    match prefix {
        None => local(name),
        Some(outer) => join(outer, local(name)),
    }
}

/// The word that names a type.
pub open spec fn type_word(point_type: PointType) -> Seq<u8> {
    match point_type {
        PointType::Boolean => seq![0x62u8, 0x6f, 0x6f, 0x6c, 0x65, 0x61, 0x6e],
        PointType::Blob => seq![0x62u8, 0x6c, 0x6f, 0x62],
        PointType::String => seq![0x73u8, 0x74, 0x72, 0x69, 0x6e, 0x67],
        PointType::U8 => seq![0x75u8, 0x38],
        PointType::I8 => seq![0x69u8, 0x38],
        PointType::U16 => seq![0x75u8, 0x31, 0x36],
        PointType::I16 => seq![0x69u8, 0x31, 0x36],
        PointType::U32 => seq![0x75u8, 0x33, 0x32],
        PointType::I32 => seq![0x69u8, 0x33, 0x32],
        PointType::U64 => seq![0x75u8, 0x36, 0x34],
        PointType::I64 => seq![0x69u8, 0x36, 0x34],
        PointType::F32 => seq![0x66u8, 0x33, 0x32],
        PointType::F64 => seq![0x66u8, 0x36, 0x34],
    }
}

/// The type that a word names, whatever the case of its letters.
pub open spec fn type_named(name: Seq<u8>) -> Option<PointType> {
    let word = lower_bytes(name);
    if word == type_word(PointType::Boolean) {
        Some(PointType::Boolean)
    } else if word == type_word(PointType::Blob) {
        Some(PointType::Blob)
    } else if word == type_word(PointType::String) {
        Some(PointType::String)
    } else if word == type_word(PointType::U8) {
        Some(PointType::U8)
    } else if word == type_word(PointType::I8) {
        Some(PointType::I8)
    } else if word == type_word(PointType::U16) {
        Some(PointType::U16)
    } else if word == type_word(PointType::I16) {
        Some(PointType::I16)
    } else if word == type_word(PointType::U32) {
        Some(PointType::U32)
    } else if word == type_word(PointType::I32) {
        Some(PointType::I32)
    } else if word == type_word(PointType::U64) {
        Some(PointType::U64)
    } else if word == type_word(PointType::I64) {
        Some(PointType::I64)
    } else if word == type_word(PointType::F32) {
        Some(PointType::F32)
    } else if word == type_word(PointType::F64) {
        Some(PointType::F64)
    } else {
        None
    }
}

/// Whether a point declaration lists a type.
pub open spec fn point_lists(point: PointDecl, point_type: PointType) -> bool {
    exists|j: int|
        0 <= j < point.types@.len() && type_named(#[trigger] point.types@[j].name@) == Some(
            point_type,
        )
}

/// Whether one of the first `count` items of a declaration declares a point
/// of the given name.
pub open spec fn direct_has(namespace: NamespaceDecl, count: nat, name: Seq<char>) -> bool {
    exists|i: int|
        0 <= i < count && i < namespace.items@.len() && (
        #[trigger] namespace.items@[i] matches Item::Point(point) && local(point.name@) == name)
}

/// Whether one of the first `count` items of a declaration declares a point
/// of the given name that lists the given type.
pub open spec fn direct_admits(
    namespace: NamespaceDecl,
    count: nat,
    name: Seq<char>,
    point_type: PointType,
) -> bool {
    exists|i: int|
        0 <= i < count && i < namespace.items@.len() && (
        #[trigger] namespace.items@[i] matches Item::Point(point) && local(point.name@) == name
            && point_lists(point, point_type))
}

/// Whether a declaration itself, with the points directly in it, states a
/// fact, its namespace having the full name `me`.
pub open spec fn own_fact(me: Seq<char>, namespace: NamespaceDecl, fact: Fact) -> bool {
    match fact {
        Fact::Namespace(name) => name == me,
        Fact::Point(full_name) => exists|name: Seq<char>| #[trigger]
            direct_has(namespace, namespace.items@.len(), name) && full_name == join(me, name),
        Fact::Type(full_name, point_type) => exists|name: Seq<char>| #[trigger]
            direct_admits(namespace, namespace.items@.len(), name, point_type) && full_name
                == join(me, name),
    }
}

/// Whether a namespace declaration, made under `prefix`, states a fact:
/// itself, or one of the namespaces declared in it.
pub open spec fn declares(prefix: Option<Seq<char>>, namespace: NamespaceDecl, fact: Fact) -> bool
    decreases namespace, namespace.items@.len() + 1,
{
    own_fact(full(prefix, namespace.name@), namespace, fact) || nested_declare(
        full(prefix, namespace.name@),
        namespace,
        namespace.items@.len(),
        fact,
    )
}

/// Whether a namespace declared among the first `count` items of a
/// declaration states a fact, the declaration's namespace having the full
/// name `me`.
pub open spec fn nested_declare(
    me: Seq<char>,
    namespace: NamespaceDecl,
    count: nat,
    fact: Fact,
) -> bool
    decreases namespace, count,
{
    if count == 0 || count > namespace.items@.len() {
        false
    } else {
        nested_declare(me, namespace, (count - 1) as nat, fact) || match namespace.items@[count
            - 1] {
            Item::Point(_) => false,
            Item::Namespace(inner) => {
                proof {
                    vstd::std_specs::vec::axiom_vec_index_decreases(
                        namespace.items,
                        count - 1,
                    );
                }
                declares(Some(me), inner, fact)
            },
        }
    }
}

/// The facts that a sequence of top-level declarations states.
pub open spec fn meaning(namespaces: Seq<NamespaceDecl>) -> Set<Fact> {
    Set::new(
        |fact: Fact|
            exists|i: int|
                0 <= i < namespaces.len() && declares(None, #[trigger] namespaces[i], fact),
    )
}

/// The position of the first type name of a point declaration, among its
/// first `count`, that names no type.
pub open spec fn types_unknown(types: Seq<TypeRef>, count: nat) -> Option<nat>
    decreases count,
{
    if count == 0 || count > types.len() {
        None
    } else {
        match types_unknown(types, (count - 1) as nat) {
            Some(position) => Some(position),
            None => if type_named(types[count - 1].name@) is None {
                Some(types[count - 1].position as nat)
            } else {
                None
            },
        }
    }
}

/// The position of the first type name that names no type among the points
/// in the first `count` items of a declaration.
pub open spec fn direct_unknown(namespace: NamespaceDecl, count: nat) -> Option<nat>
    decreases count,
{
    if count == 0 || count > namespace.items@.len() {
        None
    } else {
        match direct_unknown(namespace, (count - 1) as nat) {
            Some(position) => Some(position),
            None => match namespace.items@[count - 1] {
                Item::Point(point) => types_unknown(point.types@, point.types@.len()),
                Item::Namespace(_) => None,
            },
        }
    }
}

/// The position of the first type name that names no type in a
/// declaration: the points directly in it come first, then the namespaces
/// declared in it, each in the order of the text.
pub open spec fn unknown_in(namespace: NamespaceDecl) -> Option<nat>
    decreases namespace, namespace.items@.len() + 1,
{
    match direct_unknown(namespace, namespace.items@.len()) {
        Some(position) => Some(position),
        None => nested_unknown(namespace, namespace.items@.len()),
    }
}

/// The position of the first type name that names no type in the
/// namespaces among the first `count` items of a declaration.
pub open spec fn nested_unknown(namespace: NamespaceDecl, count: nat) -> Option<nat>
    decreases namespace, count,
{
    if count == 0 || count > namespace.items@.len() {
        None
    } else {
        match nested_unknown(namespace, (count - 1) as nat) {
            Some(position) => Some(position),
            None => match namespace.items@[count - 1] {
                Item::Point(_) => None,
                Item::Namespace(inner) => {
                    proof {
                        vstd::std_specs::vec::axiom_vec_index_decreases(
                            namespace.items,
                            count - 1,
                        );
                    }
                    unknown_in(inner)
                },
            },
        }
    }
}

/// The position of the first type name that names no type in a sequence of
/// top-level declarations.
pub open spec fn first_unknown(namespaces: Seq<NamespaceDecl>) -> Option<nat>
    decreases namespaces.len(),
{
    if namespaces.len() == 0 {
        None
    } else {
        match first_unknown(namespaces.drop_last()) {
            Some(position) => Some(position),
            None => unknown_in(namespaces.last()),
        }
    }
}

/// The number of namespace declarations in a declaration, itself included.
pub open spec fn namespace_count(namespace: NamespaceDecl) -> nat
    decreases namespace, namespace.items@.len() + 1,
{
    1 + nested_count(namespace, namespace.items@.len())
}

/// The number of namespace declarations in the first `count` items of a
/// declaration.
pub open spec fn nested_count(namespace: NamespaceDecl, count: nat) -> nat
    decreases namespace, count,
{
    if count == 0 || count > namespace.items@.len() {
        0
    } else {
        nested_count(namespace, (count - 1) as nat) + match namespace.items@[count - 1] {
            Item::Point(_) => 0,
            Item::Namespace(inner) => {
                proof {
                    vstd::std_specs::vec::axiom_vec_index_decreases(
                        namespace.items,
                        count - 1,
                    );
                }
                namespace_count(inner)
            },
        }
    }
}

/// The number of namespace declarations in a sequence of declarations.
pub open spec fn total_count(namespaces: Seq<NamespaceDecl>) -> nat
    decreases namespaces.len(),
{
    if namespaces.len() == 0 {
        0
    } else {
        total_count(namespaces.drop_last()) + namespace_count(namespaces.last())
    }
}

/// The first type name that names no type stays the first when more type
/// names follow.
pub proof fn lemma_types_unknown_stays(types: Seq<TypeRef>, count: nat, more: nat)
    requires
        count <= more <= types.len(),
        types_unknown(types, count) is Some,
    ensures
        types_unknown(types, more) == types_unknown(types, count),
    decreases more - count,
{
    if count < more {
        lemma_types_unknown_stays(types, count, (more - 1) as nat);
    }
}

/// The first type name that names no type among the points of a
/// declaration stays the first when more items follow.
pub proof fn lemma_direct_unknown_stays(namespace: NamespaceDecl, count: nat, more: nat)
    requires
        count <= more <= namespace.items@.len(),
        direct_unknown(namespace, count) is Some,
    ensures
        direct_unknown(namespace, more) == direct_unknown(namespace, count),
    decreases more - count,
{
    if count < more {
        lemma_direct_unknown_stays(namespace, count, (more - 1) as nat);
    }
}

/// The first type name that names no type among the namespaces declared in
/// a declaration stays the first when more items follow.
pub proof fn lemma_nested_unknown_stays(namespace: NamespaceDecl, count: nat, more: nat)
    requires
        count <= more <= namespace.items@.len(),
        nested_unknown(namespace, count) is Some,
    ensures
        nested_unknown(namespace, more) == nested_unknown(namespace, count),
    decreases more - count,
{
    if count < more {
        lemma_nested_unknown_stays(namespace, count, (more - 1) as nat);
    }
}

/// The first type name that names no type in a sequence of declarations
/// stays the first when more declarations follow.
pub proof fn lemma_first_unknown_stays(namespaces: Seq<NamespaceDecl>, count: int)
    requires
        0 <= count <= namespaces.len(),
        first_unknown(namespaces.subrange(0, count)) is Some,
    ensures
        first_unknown(namespaces) == first_unknown(namespaces.subrange(0, count)),
    decreases namespaces.len() - count,
{
    if count < namespaces.len() {
        let longer = namespaces.subrange(0, count + 1);
        assert(longer.drop_last() =~= namespaces.subrange(0, count));
        lemma_first_unknown_stays(namespaces, count + 1);
    } else {
        assert(namespaces.subrange(0, count) =~= namespaces);
    }
}

/// Every namespace declaration is written with at least three tokens.
pub proof fn lemma_count_below_tokens(namespace: NamespaceDecl, count: nat)
    requires
        count <= namespace.items@.len(),
    ensures
        3 * nested_count(namespace, count) <= flat_items(namespace, count).len(),
        count == namespace.items@.len() ==> 3 * namespace_count(namespace) <= flat_namespace(
            namespace,
        ).len(),
    decreases namespace, count,
{
    if count > 0 {
        lemma_count_below_tokens(namespace, (count - 1) as nat);
        match namespace.items@[count - 1] {
            Item::Point(_) => {},
            Item::Namespace(inner) => {
                vstd::std_specs::vec::axiom_vec_index_decreases(namespace.items, count - 1);
                lemma_count_below_tokens(inner, inner.items@.len());
            },
        }
    }
}

/// A sequence of declarations holds at most a third as many namespace
/// declarations as it is written with tokens.
pub proof fn lemma_total_below_tokens(namespaces: Seq<NamespaceDecl>)
    ensures
        3 * total_count(namespaces) <= flat_all(namespaces).len(),
    decreases namespaces.len(),
{
    if namespaces.len() > 0 {
        lemma_total_below_tokens(namespaces.drop_last());
        lemma_count_below_tokens(namespaces.last(), namespaces.last().items@.len());
    }
}

/// An identifier in lower case is ASCII text free of the separator.
pub proof fn lemma_local_is_local(name: Seq<u8>)
    requires
        is_identifier(name),
    ensures
        is_ascii_bytes(lower_bytes(name)),
        is_local(local(name)),
        local(name).len() == name.len(),
{
    assert forall|i: int| 0 <= i < local(name).len() implies #[trigger] local(name)[i]
        != PATH_SEPARATOR by {
        assert(is_ident_part(name[i]));
    }
    assert forall|i: int| 0 <= i < name.len() implies #[trigger] lower_bytes(name)[i] < 0x80 by {
        assert(is_ident_part(name[i]));
    }
}

/// The order of top-level declarations does not matter to what they state,
/// nor to whether every type name in them names a type.
pub proof fn lemma_order_is_immaterial(first: Seq<NamespaceDecl>, second: Seq<NamespaceDecl>)
    ensures
        meaning(first + second) == meaning(second + first),
        first_unknown(first + second) is None <==> first_unknown(second + first) is None,
{
    let ab = first + second;
    let ba = second + first;
    assert forall|fact: Fact| meaning(ab).contains(fact) <==> meaning(ba).contains(fact) by {
        if meaning(ab).contains(fact) {
            let i = choose|i: int| 0 <= i < ab.len() && declares(None, #[trigger] ab[i], fact);
            if i < first.len() {
                assert(ba[second.len() + i] == ab[i]);
            } else {
                assert(ba[i - first.len()] == ab[i]);
            }
        }
        if meaning(ba).contains(fact) {
            let i = choose|i: int| 0 <= i < ba.len() && declares(None, #[trigger] ba[i], fact);
            if i < second.len() {
                assert(ab[first.len() + i] == ba[i]);
            } else {
                assert(ab[i - second.len()] == ba[i]);
            }
        }
    }
    assert(meaning(ab) =~= meaning(ba));
    lemma_first_unknown_concat(first, second);
    lemma_first_unknown_concat(second, first);
}

/// Every type name in a sequence of declarations names a type exactly when
/// that holds of each part of the sequence.
pub proof fn lemma_first_unknown_concat(first: Seq<NamespaceDecl>, second: Seq<NamespaceDecl>)
    ensures
        first_unknown(first + second) is None <==> first_unknown(first) is None && first_unknown(
            second,
        ) is None,
    decreases second.len(),
{
    if second.len() == 0 {
        assert(first + second =~= first);
    } else {
        assert((first + second).drop_last() =~= first + second.drop_last());
        assert((first + second).last() == second.last());
        lemma_first_unknown_concat(first, second.drop_last());
    }
}

} // verus!
