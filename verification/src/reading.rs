//! A schema text reads as declarations in one way only: declarations that
//! are written with the same tokens are the same, name for name and type
//! for type, and so they mean the same.

use crate::lexer::{tokens_of, Lexeme, TokenView};
use crate::meaning::{
    declares, direct_admits, direct_has, direct_unknown, first_unknown, full, local, meaning,
    nested_declare, nested_unknown, own_fact, point_lists, type_named, types_unknown, unknown_in,
};
use crate::point::PointType;
use crate::schema::Fact;
use crate::syntax::{
    agrees, flat_all, flat_item, flat_items, flat_namespace, flat_point, flat_types, item_wf,
    lemma_items_as_sequence, mark, namespace_wf, reads_as, Flat, Item, NamespaceDecl, PointDecl,
    TypeRef,
};
use vstd::prelude::*;

verus! {

/// Whether written tokens are the given tokens from the offset `at` on.
pub open spec fn fits(written: Seq<Flat>, tokens: Seq<TokenView>, at: int) -> bool {
    &&& 0 <= at
    &&& at + written.len() <= tokens.len()
    &&& forall|i: int|
        0 <= i < written.len() ==> (#[trigger] written[i]).lexeme == tokens[at + i].lexeme && (
        written[i].position matches Some(p) ==> p == tokens[at + i].position)
}

/// Whether two lists of types are the same: the same names at the same
/// positions.
pub open spec fn same_types(one: Seq<TypeRef>, other: Seq<TypeRef>) -> bool {
    &&& one.len() == other.len()
    &&& forall|i: int|
        0 <= i < one.len() ==> (#[trigger] one[i]).name@ == other[i].name@ && one[i].position
            == other[i].position
}

/// Whether two point declarations are the same.
pub open spec fn same_point(one: PointDecl, other: PointDecl) -> bool {
    one.name@ == other.name@ && same_types(one.types@, other.types@)
}

/// Whether two namespace declarations are the same: the same name, and the
/// same items in the same order.
pub open spec fn same_namespace(one: NamespaceDecl, other: NamespaceDecl) -> bool
    decreases one, one.items@.len() + 1,
{
    &&& one.name@ == other.name@
    &&& one.items@.len() == other.items@.len()
    &&& same_items(one, other, one.items@.len())
}

/// Whether the first `count` items of two namespace declarations are the
/// same.
pub open spec fn same_items(one: NamespaceDecl, other: NamespaceDecl, count: nat) -> bool
    decreases one, count,
{
    if count == 0 || count > one.items@.len() || count > other.items@.len() {
        count == 0
    } else {
        same_items(one, other, (count - 1) as nat) && match one.items@[count - 1] {
            Item::Point(point) => other.items@[count - 1] matches Item::Point(twin) && same_point(
                point,
                twin,
            ),
            Item::Namespace(inner) => {
                proof {
                    vstd::std_specs::vec::axiom_vec_index_decreases(one.items, count - 1);
                }
                other.items@[count - 1] matches Item::Namespace(twin) && same_namespace(inner, twin)
            },
        }
    }
}

/// Whether two sequences of declarations are the same.
pub open spec fn same_all(one: Seq<NamespaceDecl>, other: Seq<NamespaceDecl>) -> bool {
    &&& one.len() == other.len()
    &&& forall|i: int| 0 <= i < one.len() ==> same_namespace(#[trigger] one[i], other[i])
}

/// Tokens written one after the other fit where each part fits in its place.
pub proof fn lemma_fits_concat(a: Seq<Flat>, b: Seq<Flat>, tokens: Seq<TokenView>, at: int)
    ensures
        fits(a + b, tokens, at) <==> fits(a, tokens, at) && fits(b, tokens, at + a.len()),
{
    let all = a + b;
    if fits(all, tokens, at) {
        assert forall|i: int| 0 <= i < a.len() implies (#[trigger] a[i]).lexeme == tokens[at
            + i].lexeme && (a[i].position matches Some(p) ==> p == tokens[at + i].position) by {
            assert(all[i] == a[i]);
        }
        assert forall|i: int| 0 <= i < b.len() implies (#[trigger] b[i]).lexeme == tokens[at
            + a.len() + i].lexeme && (b[i].position matches Some(p) ==> p == tokens[at + a.len()
            + i].position) by {
            assert(all[a.len() + i] == b[i]);
        }
    }
    if fits(a, tokens, at) && fits(b, tokens, at + a.len()) {
        assert forall|i: int| 0 <= i < all.len() implies (#[trigger] all[i]).lexeme == tokens[at
            + i].lexeme && (all[i].position matches Some(p) ==> p == tokens[at + i].position) by {
            if i < a.len() {
                assert(all[i] == a[i]);
            } else {
                assert(all[i] == b[i - a.len()]);
                assert(tokens[at + a.len() + (i - a.len())] == tokens[at + i]);
            }
        }
    }
}

/// The shape of a written list of types: the names at the even places, a
/// `|` at each odd place.
pub proof fn lemma_flat_types_shape(types: Seq<TypeRef>)
    requires
        types.len() >= 1,
    ensures
        flat_types(types).len() == 2 * types.len() - 1,
        forall|i: int|
            0 <= i < types.len() ==> #[trigger] flat_types(types)[2 * i] == (Flat {
                lexeme: Lexeme::Ident(types[i].name@),
                position: Some(types[i].position as nat),
            }),
        forall|i: int| 0 <= i < types.len() - 1 ==> #[trigger] flat_types(types)[2 * i + 1] ==
            mark(Lexeme::Pipe),
    decreases types.len(),
{
    if types.len() > 1 {
        let shorter = types.drop_last();
        lemma_flat_types_shape(shorter);
        let all = flat_types(types);
        let before = flat_types(shorter);
        assert forall|i: int| 0 <= i < types.len() implies #[trigger] all[2 * i] == (Flat {
            lexeme: Lexeme::Ident(types[i].name@),
            position: Some(types[i].position as nat),
        }) by {
            if i < types.len() - 1 {
                assert(all[2 * i] == before[2 * i]);
                assert(shorter[i] == types[i]);
            }
        }
        assert forall|i: int| 0 <= i < types.len() - 1 implies #[trigger] all[2 * i + 1] == mark(
            Lexeme::Pipe,
        ) by {
            if i < types.len() - 2 {
                assert(all[2 * i + 1] == before[2 * i + 1]);
            }
        }
    }
}

/// Lists of types that are written with the same tokens, neither followed
/// by a `|`, are the same.
pub proof fn lemma_types_unique(
    one: Seq<TypeRef>,
    other: Seq<TypeRef>,
    tokens: Seq<TokenView>,
    at: int,
)
    requires
        one.len() >= 1,
        other.len() >= 1,
        fits(flat_types(one), tokens, at),
        fits(flat_types(other), tokens, at),
        at + flat_types(one).len() < tokens.len() ==> !(tokens[at + flat_types(
            one,
        ).len()].lexeme is Pipe),
        at + flat_types(other).len() < tokens.len() ==> !(tokens[at + flat_types(
            other,
        ).len()].lexeme is Pipe),
    ensures
        same_types(one, other),
{
    lemma_flat_types_shape(one);
    lemma_flat_types_shape(other);
    let a = flat_types(one);
    let b = flat_types(other);
    if one.len() < other.len() {
        let m = one.len() as int;
        assert(b[2 * (m - 1) + 1] == mark(Lexeme::Pipe));
        assert(b[2 * m - 1].lexeme == tokens[at + (2 * m - 1)].lexeme);
        assert(false);
    }
    if other.len() < one.len() {
        let m = other.len() as int;
        assert(a[2 * (m - 1) + 1] == mark(Lexeme::Pipe));
        assert(a[2 * m - 1].lexeme == tokens[at + (2 * m - 1)].lexeme);
        assert(false);
    }
    assert forall|i: int| 0 <= i < one.len() implies (#[trigger] one[i]).name@ == other[i].name@
        && one[i].position == other[i].position by {
        assert(a[2 * i].lexeme == tokens[at + 2 * i].lexeme);
        assert(b[2 * i].lexeme == tokens[at + 2 * i].lexeme);
        assert(a[2 * i].position == Some(one[i].position as nat));
        assert(b[2 * i].position == Some(other[i].position as nat));
    }
}

/// The first items of a declaration are written before the others.
pub proof fn lemma_flat_items_prefix(namespace: NamespaceDecl, count: nat, more: nat)
    requires
        count <= more <= namespace.items@.len(),
    ensures
        flat_items(namespace, count).len() <= flat_items(namespace, more).len(),
        forall|i: int|
            0 <= i < flat_items(namespace, count).len() ==> #[trigger] flat_items(
                namespace,
                more,
            )[i] == flat_items(namespace, count)[i],
        count < more ==> flat_items(namespace, count).len() + flat_item(
            namespace.items@[count as int],
        ).len() <= flat_items(namespace, more).len(),
        count < more ==> forall|i: int|
            0 <= i < flat_item(namespace.items@[count as int]).len() ==> flat_items(
                namespace,
                more,
            )[flat_items(namespace, count).len() + i] == #[trigger] flat_item(
                namespace.items@[count as int],
            )[i],
    decreases more - count,
{
    if count < more {
        let step = (more - 1) as nat;
        lemma_flat_items_prefix(namespace, count, step);
        assert(flat_items(namespace, more) == flat_items(namespace, step) + flat_item(
            namespace.items@[step as int],
        ));
    }
}

/// How a namespace declaration is written: its name, a `{`, its items, a
/// `}`.
pub proof fn lemma_flat_namespace_shape(namespace: NamespaceDecl, count: nat)
    requires
        count <= namespace.items@.len(),
    ensures
        flat_namespace(namespace).len() == flat_items(namespace, namespace.items@.len()).len() + 3,
        flat_namespace(namespace)[0] == mark(Lexeme::Ident(namespace.name@)),
        flat_namespace(namespace)[1] == mark(Lexeme::Open),
        flat_namespace(namespace)[flat_namespace(namespace).len() - 1] == mark(Lexeme::Close),
        2 + flat_items(namespace, count).len() < flat_namespace(namespace).len(),
        forall|i: int|
            0 <= i < flat_items(namespace, count).len() ==> flat_namespace(namespace)[2 + i]
                == #[trigger] flat_items(namespace, count)[i],
        count < namespace.items@.len() ==> 2 + flat_items(namespace, count).len() + flat_item(
            namespace.items@[count as int],
        ).len() < flat_namespace(namespace).len(),
        count < namespace.items@.len() ==> forall|i: int|
            0 <= i < flat_item(namespace.items@[count as int]).len() ==> flat_namespace(
                namespace,
            )[2 + flat_items(namespace, count).len() + i] == #[trigger] flat_item(
                namespace.items@[count as int],
            )[i],
        count == namespace.items@.len() ==> flat_namespace(namespace)[2 + flat_items(
            namespace,
            count,
        ).len() as int] == mark(Lexeme::Close),
{
    let all = namespace.items@.len();
    lemma_flat_items_prefix(namespace, count, all);
    let written = flat_namespace(namespace);
    let items = flat_items(namespace, all);
    assert forall|i: int| 0 <= i < items.len() implies written[2 + i] == items[i] by {}
    assert forall|i: int| 0 <= i < flat_items(namespace, count).len() implies written[2 + i]
        == #[trigger] flat_items(namespace, count)[i] by {
        assert(items[i] == flat_items(namespace, count)[i]);
    }
    if count < all {
        assert forall|i: int| 0 <= i < flat_item(namespace.items@[count as int]).len() implies
            written[2
            + flat_items(namespace, count).len() + i] == #[trigger] flat_item(
            namespace.items@[count as int],
        )[i] by {
            assert(items[flat_items(namespace, count).len() + i] == flat_item(
                namespace.items@[count as int],
            )[i]);
        }
    }
}

/// An item is written with a `-` first where it is a point, with a name
/// first where it is a namespace.
pub proof fn lemma_item_head(item: Item)
    requires
        item_wf(item),
    ensures
        flat_item(item).len() >= 3,
        item is Point ==> flat_item(item)[0] == mark(Lexeme::Dash),
        item is Namespace ==> flat_item(item)[0].lexeme is Ident,
{
    match item {
        Item::Point(point) => {
            lemma_flat_types_shape(point.types@);
        },
        Item::Namespace(inner) => {
            lemma_flat_namespace_shape(inner, 0);
        },
    }
}

/// Every item of a well-formed declaration is well formed.
pub proof fn lemma_items_are_wf(namespace: NamespaceDecl)
    requires
        namespace_wf(namespace),
    ensures
        forall|i: int| 0 <= i < namespace.items@.len() ==> item_wf(#[trigger] namespace.items@[i]),
{
    lemma_items_as_sequence(namespace, namespace.items@.len());
}

/// An item of a declaration that fits the tokens fits them in its place.
proof fn lemma_item_fits(namespace: NamespaceDecl, index: nat, tokens: Seq<TokenView>, at: int)
    requires
        index < namespace.items@.len(),
        fits(flat_namespace(namespace), tokens, at),
    ensures
        fits(
            flat_item(namespace.items@[index as int]),
            tokens,
            at + 2 + flat_items(namespace, index).len(),
        ),
{
    lemma_flat_namespace_shape(namespace, index);
    let written = flat_namespace(namespace);
    let item = flat_item(namespace.items@[index as int]);
    let off = 2 + flat_items(namespace, index).len() as int;
    assert forall|i: int| 0 <= i < item.len() implies (#[trigger] item[i]).lexeme == tokens[at + off
        + i].lexeme && (item[i].position matches Some(p) ==> p == tokens[at + off + i].position)
            by {
        assert(written[off + i] == item[i]);
        assert(written[off + i].lexeme == tokens[at + (off + i)].lexeme);
    }
}

/// What follows the first items of a declaration that fits the tokens is
/// no `|`.
proof fn lemma_no_pipe_follows(
    namespace: NamespaceDecl,
    count: nat,
    tokens: Seq<TokenView>,
    at: int,
)
    requires
        namespace_wf(namespace),
        count <= namespace.items@.len(),
        fits(flat_namespace(namespace), tokens, at),
    ensures
        at + 2 + flat_items(namespace, count).len() < tokens.len(),
        !(tokens[at + 2 + flat_items(namespace, count).len()].lexeme is Pipe),
        count == namespace.items@.len() ==> tokens[at + 2 + flat_items(
            namespace,
            count,
        ).len()].lexeme is Close,
        count < namespace.items@.len() ==> (namespace.items@[count as int] is Point ==> tokens[at
            + 2 + flat_items(namespace, count).len()].lexeme is Dash),
        count < namespace.items@.len() ==> (namespace.items@[count as int] is Namespace ==>
            tokens[at
            + 2 + flat_items(namespace, count).len()].lexeme is Ident),
{
    lemma_flat_namespace_shape(namespace, count);
    lemma_items_are_wf(namespace);
    let written = flat_namespace(namespace);
    let off = 2 + flat_items(namespace, count).len() as int;
    assert(written[off].lexeme == tokens[at + off].lexeme);
    if count < namespace.items@.len() {
        lemma_item_head(namespace.items@[count as int]);
        assert(written[off + 0] == flat_item(namespace.items@[count as int])[0]);
    }
}

/// Namespace declarations that are written with the same tokens are the
/// same, and are written with as many tokens.
pub proof fn lemma_namespace_unique(
    one: NamespaceDecl,
    other: NamespaceDecl,
    tokens: Seq<TokenView>,
    at: int,
)
    requires
        namespace_wf(one),
        namespace_wf(other),
        fits(flat_namespace(one), tokens, at),
        fits(flat_namespace(other), tokens, at),
    ensures
        same_namespace(one, other),
        flat_namespace(one).len() == flat_namespace(other).len(),
    decreases one, one.items@.len() + 1,
{
    let count = one.items@.len();
    lemma_items_unique(one, other, tokens, at, count);
    lemma_flat_namespace_shape(one, count);
    lemma_flat_namespace_shape(other, count);
    lemma_no_pipe_follows(one, count, tokens, at);
    lemma_no_pipe_follows(other, count, tokens, at);
    assert(flat_namespace(one)[0].lexeme == tokens[at + 0].lexeme);
    assert(flat_namespace(other)[0].lexeme == tokens[at + 0].lexeme);
}

/// The first items of namespace declarations that are written with the
/// same tokens are the same, and are written with as many tokens.
pub proof fn lemma_items_unique(
    one: NamespaceDecl,
    other: NamespaceDecl,
    tokens: Seq<TokenView>,
    at: int,
    count: nat,
)
    requires
        namespace_wf(one),
        namespace_wf(other),
        fits(flat_namespace(one), tokens, at),
        fits(flat_namespace(other), tokens, at),
        count <= one.items@.len(),
    ensures
        count <= other.items@.len(),
        same_items(one, other, count),
        flat_items(one, count).len() == flat_items(other, count).len(),
    decreases one, count,
{
    if count > 0 {
        let index = (count - 1) as nat;
        lemma_items_unique(one, other, tokens, at, index);
        let off = 2 + flat_items(one, index).len() as int;
        lemma_no_pipe_follows(one, index, tokens, at);
        lemma_no_pipe_follows(other, index, tokens, at);
        lemma_items_are_wf(one);
        lemma_items_are_wf(other);
        let x = one.items@[index as int];
        assert(other.items@.len() > index);
        let y = other.items@[index as int];
        lemma_item_fits(one, index, tokens, at);
        lemma_item_fits(other, index, tokens, at);
        lemma_item_head(x);
        lemma_item_head(y);
        lemma_no_pipe_follows(one, count, tokens, at);
        lemma_no_pipe_follows(other, count, tokens, at);
        match x {
            Item::Point(point) => {
                assert(y is Point);
                let twin = y->Point_0;
                let a = flat_point(point);
                let b = flat_point(twin);
                assert(a[1].lexeme == tokens[at + off + 1].lexeme);
                assert(b[1].lexeme == tokens[at + off + 1].lexeme);
                let head = seq![
                    mark(Lexeme::Dash),
                    mark(Lexeme::Ident(point.name@)),
                    mark(Lexeme::Colon),
                ];
                let twin_head = seq![
                    mark(Lexeme::Dash),
                    mark(Lexeme::Ident(twin.name@)),
                    mark(Lexeme::Colon),
                ];
                lemma_fits_concat(head, flat_types(point.types@), tokens, at + off);
                lemma_fits_concat(twin_head, flat_types(twin.types@), tokens, at + off);
                assert(flat_items(one, count).len() == flat_items(one, index).len() + a.len());
                assert(flat_items(other, count).len() == flat_items(other, index).len() + b.len());
                lemma_types_unique(point.types@, twin.types@, tokens, at + off + 3);
                lemma_flat_types_shape(point.types@);
                lemma_flat_types_shape(twin.types@);
            },
            Item::Namespace(inner) => {
                assert(y is Namespace);
                let twin = y->Namespace_0;
                vstd::std_specs::vec::axiom_vec_index_decreases(one.items, index as int);
                lemma_namespace_unique(inner, twin, tokens, at + off);
                assert(flat_items(one, count).len() == flat_items(one, index).len()
                    + flat_namespace(inner).len());
                assert(flat_items(other, count).len() == flat_items(other, index).len()
                    + flat_namespace(twin).len());
            },
        }
    }
}

/// The first declarations of a sequence are written before the others.
pub proof fn lemma_flat_all_prefix(namespaces: Seq<NamespaceDecl>, count: int)
    requires
        0 <= count <= namespaces.len(),
    ensures
        flat_all(namespaces.subrange(0, count)).len() <= flat_all(namespaces).len(),
        forall|i: int|
            0 <= i < flat_all(namespaces.subrange(0, count)).len() ==> #[trigger] flat_all(
                namespaces,
            )[i] == flat_all(namespaces.subrange(0, count))[i],
        count < namespaces.len() ==> flat_all(namespaces.subrange(0, count + 1)) == flat_all(
            namespaces.subrange(0, count),
        ) + flat_namespace(namespaces[count]),
    decreases namespaces.len() - count,
{
    if count < namespaces.len() {
        let longer = namespaces.subrange(0, count + 1);
        assert(longer.drop_last() =~= namespaces.subrange(0, count));
        assert(longer.last() == namespaces[count]);
        lemma_flat_all_prefix(namespaces, count + 1);
        let shorter = flat_all(namespaces.subrange(0, count));
        assert forall|i: int| 0 <= i < shorter.len() implies #[trigger] flat_all(namespaces)[i]
            == shorter[i] by {
            assert(flat_all(longer)[i] == shorter[i]);
        }
    } else {
        assert(namespaces.subrange(0, count) =~= namespaces);
    }
}

/// The first declarations of sequences that are written with the same
/// tokens are the same, and are written with as many tokens.
pub proof fn lemma_all_unique(
    one: Seq<NamespaceDecl>,
    other: Seq<NamespaceDecl>,
    tokens: Seq<TokenView>,
    count: int,
)
    requires
        forall|i: int| 0 <= i < one.len() ==> namespace_wf(#[trigger] one[i]),
        forall|i: int| 0 <= i < other.len() ==> namespace_wf(#[trigger] other[i]),
        agrees(flat_all(one), tokens),
        agrees(flat_all(other), tokens),
        0 <= count <= one.len(),
    ensures
        count <= other.len(),
        forall|i: int| 0 <= i < count ==> same_namespace(#[trigger] one[i], other[i]),
        flat_all(one.subrange(0, count)).len() == flat_all(other.subrange(0, count)).len(),
    decreases count,
{
    if count == 0 {
        assert(one.subrange(0, 0) =~= other.subrange(0, 0));
    } else {
        let index = count - 1;
        lemma_all_unique(one, other, tokens, index);
        lemma_flat_all_prefix(one, index);
        lemma_flat_all_prefix(other, index);
        let off = flat_all(one.subrange(0, index)).len() as int;
        let x = one[index];
        lemma_flat_namespace_shape(x, 0);
        lemma_flat_all_prefix(one, count);
        if other.len() == index {
            assert(other.subrange(0, index) =~= other);
            assert(false);
        }
        let y = other[index];
        lemma_flat_namespace_shape(y, 0);
        lemma_flat_all_prefix(other, count);
        assert(fits(flat_namespace(x), tokens, off)) by {
            let written = flat_all(one.subrange(0, count));
            assert forall|i: int| 0 <= i < flat_namespace(x).len() implies (#[trigger]
                flat_namespace(
                x,
            )[i]).lexeme == tokens[off + i].lexeme && (flat_namespace(x)[i].position matches Some(p)
                ==> p == tokens[off + i].position) by {
                assert(written[off + i] == flat_namespace(x)[i]);
                assert(flat_all(one)[off + i] == written[off + i]);
            }
        }
        assert(fits(flat_namespace(y), tokens, off)) by {
            let written = flat_all(other.subrange(0, count));
            assert forall|i: int| 0 <= i < flat_namespace(y).len() implies (#[trigger]
                flat_namespace(
                y,
            )[i]).lexeme == tokens[off + i].lexeme && (flat_namespace(y)[i].position matches Some(p)
                ==> p == tokens[off + i].position) by {
                assert(written[off + i] == flat_namespace(y)[i]);
                assert(flat_all(other)[off + i] == written[off + i]);
            }
        }
        lemma_namespace_unique(x, y, tokens, off);
    }
}

/// Declarations that are written with the same tokens are the same.
pub proof fn lemma_written_alike_are_same(
    one: Seq<NamespaceDecl>,
    other: Seq<NamespaceDecl>,
    tokens: Seq<TokenView>,
)
    requires
        forall|i: int| 0 <= i < one.len() ==> namespace_wf(#[trigger] one[i]),
        forall|i: int| 0 <= i < other.len() ==> namespace_wf(#[trigger] other[i]),
        agrees(flat_all(one), tokens),
        agrees(flat_all(other), tokens),
    ensures
        same_all(one, other),
{
    lemma_all_unique(one, other, tokens, one.len() as int);
    lemma_all_unique(other, one, tokens, other.len() as int);
}

/// Whether two items are the same.
pub open spec fn same_item(one: Item, other: Item) -> bool {
    match one {
        Item::Point(point) => other matches Item::Point(twin) && same_point(point, twin),
        Item::Namespace(inner) => other matches Item::Namespace(twin) && same_namespace(
            inner,
            twin,
        ),
    }
}

/// Declarations whose first items are the same have the same item at each
/// of the first places.
pub proof fn lemma_same_items_index(
    one: NamespaceDecl,
    other: NamespaceDecl,
    count: nat,
    index: int,
)
    requires
        same_items(one, other, count),
        0 <= index < count,
    ensures
        count <= one.items@.len(),
        count <= other.items@.len(),
        same_item(one.items@[index], other.items@[index]),
    decreases count,
{
    if index < count - 1 {
        lemma_same_items_index(one, other, (count - 1) as nat, index);
    }
}

/// Declarations whose first items are the same have the same first items,
/// fewer taken.
pub proof fn lemma_same_items_fewer(
    one: NamespaceDecl,
    other: NamespaceDecl,
    count: nat,
    fewer: nat,
)
    requires
        same_items(one, other, count),
        fewer <= count,
    ensures
        same_items(one, other, fewer),
    decreases count - fewer,
{
    if fewer < count {
        lemma_same_items_fewer(one, other, (count - 1) as nat, fewer);
    }
}

/// Lists of types that are the same list the same types, and the first
/// name in them that names no type is the same.
pub proof fn lemma_same_types_mean_the_same(one: PointDecl, other: PointDecl, count: nat)
    requires
        same_point(one, other),
        count <= one.types@.len(),
    ensures
        forall|t: PointType| point_lists(one, t) <==> point_lists(other, t),
        types_unknown(one.types@, count) == types_unknown(other.types@, count),
    decreases count,
{
    if count > 0 {
        lemma_same_types_mean_the_same(one, other, (count - 1) as nat);
        assert(one.types@[count - 1].name@ == other.types@[count - 1].name@);
    }
    assert forall|t: PointType| point_lists(one, t) <==> point_lists(other, t) by {
        if point_lists(one, t) {
            let j = choose|j: int|
                0 <= j < one.types@.len() && type_named(#[trigger] one.types@[j].name@) == Some(t);
            assert(type_named(other.types@[j].name@) == Some(t));
        }
        if point_lists(other, t) {
            let j = choose|j: int|
                0 <= j < other.types@.len() && type_named(#[trigger] other.types@[j].name@) == Some(
                    t,
                );
            assert(one.types@[j].name@ == other.types@[j].name@);
            assert(type_named(one.types@[j].name@) == Some(t));
        }
    }
}

/// Declarations whose first items are the same declare the same points
/// directly, and the first type name among those points that names no type
/// is the same.
pub proof fn lemma_same_direct(one: NamespaceDecl, other: NamespaceDecl, count: nat)
    requires
        same_items(one, other, count),
    ensures
        forall|name: Seq<char>| direct_has(one, count, name) <==> direct_has(other, count, name),
        forall|name: Seq<char>, t: PointType|
            direct_admits(one, count, name, t) <==> direct_admits(other, count, name, t),
        direct_unknown(one, count) == direct_unknown(other, count),
    decreases count,
{
    if count > 0 {
        lemma_same_items_index(one, other, count, count - 1);
        lemma_same_items_fewer(one, other, count, (count - 1) as nat);
        lemma_same_direct(one, other, (count - 1) as nat);
        match one.items@[count - 1] {
            Item::Point(point) => {
                let twin = other.items@[count - 1]->Point_0;
                lemma_same_types_mean_the_same(point, twin, point.types@.len());
            },
            Item::Namespace(_) => {},
        }
    }
    assert forall|name: Seq<char>| direct_has(one, count, name) <==> direct_has(
        other,
        count,
        name,
    ) by {
        if direct_has(one, count, name) {
            let i = choose|i: int|
                0 <= i < count && i < one.items@.len() && (#[trigger] one.items@[i] matches
                    Item::Point(p)
                    && local(p.name@) == name);
            lemma_same_items_index(one, other, count, i);
            assert(other.items@[i] matches Item::Point(p) && local(p.name@) == name);
        }
        if direct_has(other, count, name) {
            let i = choose|i: int|
                0 <= i < count && i < other.items@.len() && (#[trigger] other.items@[i] matches
                    Item::Point(p)
                    && local(p.name@) == name);
            lemma_same_items_index(one, other, count, i);
            assert(one.items@[i] matches Item::Point(p) && local(p.name@) == name);
        }
    }
    assert forall|name: Seq<char>, t: PointType|
        direct_admits(one, count, name, t) <==> direct_admits(other, count, name, t) by {
        if direct_admits(one, count, name, t) {
            let i = choose|i: int|
                0 <= i < count && i < one.items@.len() && (#[trigger] one.items@[i] matches
                    Item::Point(p)
                    && local(p.name@) == name && point_lists(p, t));
            lemma_same_items_index(one, other, count, i);
            let p = one.items@[i]->Point_0;
            let q = other.items@[i]->Point_0;
            lemma_same_types_mean_the_same(p, q, 0);
            assert(other.items@[i] matches Item::Point(p) && local(p.name@) == name && point_lists(
                p,
                t,
            ));
        }
        if direct_admits(other, count, name, t) {
            let i = choose|i: int|
                0 <= i < count && i < other.items@.len() && (#[trigger] other.items@[i] matches
                    Item::Point(p)
                    && local(p.name@) == name && point_lists(p, t));
            lemma_same_items_index(one, other, count, i);
            let p = one.items@[i]->Point_0;
            let q = other.items@[i]->Point_0;
            lemma_same_types_mean_the_same(p, q, 0);
            assert(one.items@[i] matches Item::Point(p) && local(p.name@) == name && point_lists(
                p,
                t,
            ));
        }
    }
}

/// Namespace declarations that are the same state the same facts, and the
/// first type name in them that names no type is the same.
pub proof fn lemma_same_namespaces_mean_the_same(
    one: NamespaceDecl,
    other: NamespaceDecl,
    prefix: Option<Seq<char>>,
)
    requires
        same_namespace(one, other),
    ensures
        forall|fact: Fact| declares(prefix, one, fact) <==> declares(prefix, other, fact),
        unknown_in(one) == unknown_in(other),
    decreases one, one.items@.len() + 1,
{
    let count = one.items@.len();
    let me = full(prefix, one.name@);
    lemma_same_direct(one, other, count);
    lemma_same_nested(one, other, me, count);
    assert forall|fact: Fact| declares(prefix, one, fact) <==> declares(prefix, other, fact) by {
        assert(nested_declare(me, one, count, fact) <==> nested_declare(me, other, count, fact));
        match fact {
            Fact::Namespace(_) => {},
            Fact::Point(full_name) => {
                if own_fact(me, one, fact) {
                    let n = choose|n: Seq<char>| #[trigger]
                        direct_has(one, count, n) && full_name == crate::point::join(me, n);
                    assert(direct_has(other, count, n));
                }
                if own_fact(me, other, fact) {
                    let n = choose|n: Seq<char>| #[trigger]
                        direct_has(other, count, n) && full_name == crate::point::join(me, n);
                    assert(direct_has(one, count, n));
                }
            },
            Fact::Type(full_name, t) => {
                if own_fact(me, one, fact) {
                    let n = choose|n: Seq<char>| #[trigger]
                        direct_admits(one, count, n, t) && full_name == crate::point::join(me, n);
                    assert(direct_admits(other, count, n, t));
                }
                if own_fact(me, other, fact) {
                    let n = choose|n: Seq<char>| #[trigger]
                        direct_admits(other, count, n, t) && full_name == crate::point::join(me, n);
                    assert(direct_admits(one, count, n, t));
                }
            },
        }
    }
}

/// Declarations whose first items are the same state the same facts
/// through the namespaces among those items, and the first type name in
/// those namespaces that names no type is the same.
pub proof fn lemma_same_nested(one: NamespaceDecl, other: NamespaceDecl, me: Seq<char>, count: nat)
    requires
        same_items(one, other, count),
    ensures
        forall|fact: Fact|
            nested_declare(me, one, count, fact) <==> nested_declare(me, other, count, fact),
        nested_unknown(one, count) == nested_unknown(other, count),
    decreases one, count,
{
    if count > 0 {
        lemma_same_items_index(one, other, count, count - 1);
        lemma_same_items_fewer(one, other, count, (count - 1) as nat);
        lemma_same_nested(one, other, me, (count - 1) as nat);
        match one.items@[count - 1] {
            Item::Point(_) => {
                assert(other.items@[count - 1] is Point);
            },
            Item::Namespace(inner) => {
                let twin = other.items@[count - 1]->Namespace_0;
                vstd::std_specs::vec::axiom_vec_index_decreases(one.items, count - 1);
                lemma_same_namespaces_mean_the_same(inner, twin, Some(me));
            },
        }
        assert forall|fact: Fact|
            nested_declare(me, one, count, fact) <==> nested_declare(me, other, count, fact) by {
            assert(nested_declare(me, one, (count - 1) as nat, fact) <==> nested_declare(
                me,
                other,
                (count - 1) as nat,
                fact,
            ));
            match one.items@[count - 1] {
                Item::Point(_) => {},
                Item::Namespace(inner) => {
                    let twin = other.items@[count - 1]->Namespace_0;
                    assert(declares(Some(me), inner, fact) <==> declares(Some(me), twin, fact));
                },
            }
        }
    }
}

/// Sequences of declarations that are the same state the same facts, and
/// the first type name in them that names no type is the same.
pub proof fn lemma_same_mean_the_same(one: Seq<NamespaceDecl>, other: Seq<NamespaceDecl>)
    requires
        same_all(one, other),
    ensures
        meaning(one) == meaning(other),
        first_unknown(one) == first_unknown(other),
    decreases one.len(),
{
    assert forall|fact: Fact| meaning(one).contains(fact) <==> meaning(other).contains(fact) by {
        if meaning(one).contains(fact) {
            let i = choose|i: int| 0 <= i < one.len() && declares(None, #[trigger] one[i], fact);
            lemma_same_namespaces_mean_the_same(one[i], other[i], None);
        }
        if meaning(other).contains(fact) {
            let i = choose|i: int| 0 <= i < other.len() && declares(None, #[trigger] other[i],
                fact);
            lemma_same_namespaces_mean_the_same(one[i], other[i], None);
        }
    }
    assert(meaning(one) =~= meaning(other));
    if one.len() > 0 {
        let shorter = one.drop_last();
        let twin = other.drop_last();
        assert(same_all(shorter, twin)) by {
            assert forall|i: int| 0 <= i < shorter.len() implies same_namespace(
                #[trigger] shorter[i],
                twin[i],
            ) by {
                assert(shorter[i] == one[i]);
                assert(twin[i] == other[i]);
            }
        }
        lemma_same_mean_the_same(shorter, twin);
        assert(one.last() == one[one.len() - 1]);
        assert(other.last() == other[other.len() - 1]);
        lemma_same_namespaces_mean_the_same(one.last(), other.last(), None);
    }
}

/// A schema text reads in one way only: whatever declarations it reads
/// as, they are the same, they state the same facts, and the first type
/// name in them that names no type is the same.
pub proof fn lemma_reading_is_unique(
    text: Seq<u8>,
    one: Seq<NamespaceDecl>,
    other: Seq<NamespaceDecl>,
)
    requires
        reads_as(text, one),
        reads_as(text, other),
    ensures
        same_all(one, other),
        meaning(one) == meaning(other),
        first_unknown(one) == first_unknown(other),
{
    lemma_written_alike_are_same(one, other, tokens_of(text));
    lemma_same_mean_the_same(one, other);
}

} // verus!
