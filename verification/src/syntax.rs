//! The grammar of schema texts: namespaces that hold points and namespaces.
//!
//! ```text
//! root       := namespace*
//! namespace  := identifier "{" (point | namespace)* "}"
//! point      := "-" identifier ":" type ("|" type)*
//! ```
//!
//! A type is written as an identifier; which identifiers name a type is
//! decided when the declarations are turned into a schema.

use crate::lexer::{
    is_identifier, lemma_lex_tokens, lexemes, tokenize, tokens_of, views, Lex, Lexeme, Token,
    TokenView,
};
use crate::text::{decimal, to_decimal};
use vstd::prelude::*;
use vstd::slice::slice_to_vec;
use vstd::string::*;

verus! {

/// The name of a type as it was written, and where.
#[derive(Debug, Clone, PartialEq, Eq)]
pub struct TypeRef {
    pub name: Vec<u8>,
    pub position: usize,
}

/// The declaration of a point: its name and the types it lists.
#[derive(Debug, Clone, PartialEq, Eq)]
pub struct PointDecl {
    pub name: Vec<u8>,
    pub types: Vec<TypeRef>,
}

/// What a namespace declaration holds.
#[derive(Debug, PartialEq, Eq)]
pub enum Item {
    Point(PointDecl),
    Namespace(NamespaceDecl),
}

/// The declaration of a namespace: its name and, in the order of the text,
/// the points and namespaces declared in it.
#[derive(Debug, PartialEq, Eq)]
pub struct NamespaceDecl {
    pub name: Vec<u8>,
    pub items: Vec<Item>,
}

/// Why a schema text was refused.
#[derive(Debug, Clone, Copy, PartialEq, Eq, Structural)]
pub enum ParseErrorKind {
    /// The text breaks the grammar.
    Syntax,
    /// A point lists a type whose name is none of the known ones.
    UnknownType,
}

/// The refusal of a schema text: why, and the byte offset where.
#[derive(Debug, Clone, PartialEq, Eq)]
pub struct ParseError {
    pub kind: ParseErrorKind,
    pub position: usize,
}

impl ParseError {
    /// The refusal in words: what is wrong, and the offset where.
    pub open spec fn text(&self) -> Seq<char> {
        (match self.kind {
            ParseErrorKind::Syntax => "Syntax error"@,
            ParseErrorKind::UnknownType => "Invalid type-name"@,
        }) + " at position "@ + decimal(self.position as nat)
    }

    /// The refusal in words: what is wrong, and the offset where.
    pub fn message(&self) -> (text: String)
        ensures
            text@ == self.text(),
    {
        let mut text = match self.kind {
            ParseErrorKind::Syntax => "Syntax error".to_owned(),
            ParseErrorKind::UnknownType => "Invalid type-name".to_owned(),
        };
        text.append(" at position ");
        let position = to_decimal(self.position as u64);
        text.append(position.as_str());
        text
    }
}

/// A token as a declaration writes it: what it is and, where the
/// declaration records one, the offset it stood at.
pub struct Flat {
    pub lexeme: Lexeme,
    pub position: Option<nat>,
}

/// A mark, written without a position.
pub open spec fn mark(lexeme: Lexeme) -> Flat {
    Flat { lexeme, position: None }
}

/// The tokens of a list of types: the names, with a `|` between them.
pub open spec fn flat_types(types: Seq<TypeRef>) -> Seq<Flat>
    decreases types.len(),
{
    if types.len() == 0 {
        Seq::empty()
    } else {
        let last = Flat {
            lexeme: Lexeme::Ident(types.last().name@),
            position: Some(types.last().position as nat),
        };
        if types.len() == 1 {
            seq![last]
        } else {
            flat_types(types.drop_last()) + seq![mark(Lexeme::Pipe), last]
        }
    }
}

/// The tokens of a point declaration.
pub open spec fn flat_point(point: PointDecl) -> Seq<Flat> {
    seq![mark(Lexeme::Dash), mark(Lexeme::Ident(point.name@)), mark(Lexeme::Colon)] + flat_types(
        point.types@,
    )
}

/// The tokens of a namespace declaration.
pub open spec fn flat_namespace(namespace: NamespaceDecl) -> Seq<Flat>
    decreases namespace, namespace.items@.len() + 1,
{
    seq![mark(Lexeme::Ident(namespace.name@)), mark(Lexeme::Open)] + flat_items(
        namespace,
        namespace.items@.len(),
    ) + seq![mark(Lexeme::Close)]
}

/// The tokens of the first `count` items of a namespace declaration.
pub open spec fn flat_items(namespace: NamespaceDecl, count: nat) -> Seq<Flat>
    decreases namespace, count,
{
    if count == 0 || count > namespace.items@.len() {
        Seq::empty()
    } else {
        flat_items(namespace, (count - 1) as nat) + match namespace.items@[count - 1] {
            Item::Point(point) => flat_point(point),
            Item::Namespace(inner) => {
                proof {
                    vstd::std_specs::vec::axiom_vec_index_decreases(
                        namespace.items,
                        count - 1,
                    );
                }
                flat_namespace(inner)
            },
        }
    }
}

/// The tokens of a sequence of namespace declarations.
pub open spec fn flat_all(namespaces: Seq<NamespaceDecl>) -> Seq<Flat>
    decreases namespaces.len(),
{
    if namespaces.len() == 0 {
        Seq::empty()
    } else {
        flat_all(namespaces.drop_last()) + flat_namespace(namespaces.last())
    }
}

/// Whether written tokens are the given tokens: the same lexemes in the same
/// order, and each recorded position the position of its token.
pub open spec fn agrees(written: Seq<Flat>, tokens: Seq<TokenView>) -> bool {
    &&& written.len() == tokens.len()
    &&& forall|i: int|
        0 <= i < written.len() ==> (#[trigger] written[i]).lexeme == tokens[i].lexeme && (
        written[i].position matches Some(p) ==> p == tokens[i].position)
}

/// Whether a point declaration is well formed: its name and the names of its
/// types are identifiers, and it lists at least one type.
pub open spec fn point_wf(point: PointDecl) -> bool {
    &&& is_identifier(point.name@)
    &&& point.types@.len() >= 1
    &&& forall|i: int| 0 <= i < point.types@.len() ==> is_identifier(#[trigger]
        point.types@[i].name@)
}

/// Whether a namespace declaration is well formed: its name is an
/// identifier, and so on down through its items.
pub open spec fn namespace_wf(namespace: NamespaceDecl) -> bool
    decreases namespace, namespace.items@.len() + 1,
{
    is_identifier(namespace.name@) && items_wf(namespace, namespace.items@.len())
}

/// Whether the first `count` items of a namespace declaration are well formed.
pub open spec fn items_wf(namespace: NamespaceDecl, count: nat) -> bool
    decreases namespace, count,
{
    if count == 0 || count > namespace.items@.len() {
        true
    } else {
        items_wf(namespace, (count - 1) as nat) && match namespace.items@[count - 1] {
            Item::Point(point) => point_wf(point),
            Item::Namespace(inner) => {
                proof {
                    vstd::std_specs::vec::axiom_vec_index_decreases(
                        namespace.items,
                        count - 1,
                    );
                }
                namespace_wf(inner)
            },
        }
    }
}

/// Whether every declaration of a sequence is well formed.
pub open spec fn all_wf(namespaces: Seq<NamespaceDecl>) -> bool {
    forall|i: int| 0 <= i < namespaces.len() ==> namespace_wf(#[trigger] namespaces[i])
}

/// Where the list of types that follows the type at `pos - 1` ends, or the
/// index of the first token that does not fit.
pub open spec fn scan_types(tokens: Seq<Lexeme>, pos: int) -> Result<int, int>
    decreases tokens.len() - pos,
{
    if 0 <= pos < tokens.len() && tokens[pos] is Pipe {
        if pos + 1 < tokens.len() && tokens[pos + 1] is Ident {
            scan_types(tokens, pos + 2)
        } else {
            Err(pos + 1)
        }
    } else {
        Ok(pos)
    }
}

/// Where the point declaration that starts with the `-` at `pos` ends, or
/// the index of the first token that does not fit.
pub open spec fn scan_point(tokens: Seq<Lexeme>, pos: int) -> Result<int, int> {
    if !(pos + 1 < tokens.len() && tokens[pos + 1] is Ident) {
        Err(pos + 1)
    } else if !(pos + 2 < tokens.len() && tokens[pos + 2] is Colon) {
        Err(pos + 2)
    } else if !(pos + 3 < tokens.len() && tokens[pos + 3] is Ident) {
        Err(pos + 3)
    } else {
        scan_types(tokens, pos + 4)
    }
}

/// The index of the first token from `pos` on that breaks the grammar, `pos`
/// lying inside `depth` open namespaces; the number of tokens where the text
/// ends inside a namespace; `None` where nothing breaks the grammar.
pub open spec fn scan(tokens: Seq<Lexeme>, pos: int, depth: nat) -> Option<int>
    decreases tokens.len() - pos,
{
    if pos < 0 || pos >= tokens.len() {
        if depth == 0 {
            None
        } else {
            Some(tokens.len() as int)
        }
    } else {
        match tokens[pos] {
            Lexeme::Ident(_) => if pos + 1 < tokens.len() && tokens[pos + 1] is Open {
                scan(tokens, pos + 2, depth + 1)
            } else {
                Some(pos + 1)
            },
            Lexeme::Close => if depth > 0 {
                scan(tokens, pos + 1, (depth - 1) as nat)
            } else {
                Some(pos)
            },
            Lexeme::Dash => if depth == 0 {
                Some(pos)
            } else {
                match scan_point(tokens, pos) {
                    Ok(end) => if pos < end <= tokens.len() {
                        scan(tokens, end, depth)
                    } else {
                        Some(pos)
                    },
                    Err(index) => Some(index),
                }
            },
            _ => Some(pos),
        }
    }
}

/// The byte offset of the first place where a text breaks the grammar: the
/// offset of the first token that does not fit, or the length of the text
/// where it ends too early. `None` for a text that keeps to the grammar.
pub open spec fn syntax_error(text: Seq<u8>) -> Option<nat> {
    let tokens = tokens_of(text);
    match scan(Seq::new(tokens.len(), |i: int| tokens[i].lexeme), 0, 0) {
        None => None,
        Some(index) => Some(
            if 0 <= index < tokens.len() {
                tokens[index].position
            } else {
                text.len()
            },
        ),
    }
}

/// Written tokens that agree with two runs of tokens, one after the other,
/// agree with the two runs joined.
pub proof fn lemma_agrees_concat(a: Seq<Flat>, x: Seq<TokenView>, b: Seq<Flat>, y: Seq<TokenView>)
    requires
        agrees(a, x),
        agrees(b, y),
    ensures
        agrees(a + b, x + y),
{
    assert forall|i: int| 0 <= i < (a + b).len() implies (#[trigger] (a + b)[i]).lexeme == (x
        + y)[i].lexeme && ((a + b)[i].position matches Some(p) ==> p == (x + y)[i].position) by {
        if i < a.len() {
            assert((a + b)[i] == a[i]);
        } else {
            assert((a + b)[i] == b[i - a.len()]);
        }
    }
}

/// The tokens of one item.
pub open spec fn flat_item(item: Item) -> Seq<Flat> {
    match item {
        Item::Point(point) => flat_point(point),
        Item::Namespace(inner) => flat_namespace(inner),
    }
}

/// The tokens of a sequence of items.
pub open spec fn flat_sequence(items: Seq<Item>) -> Seq<Flat>
    decreases items.len(),
{
    if items.len() == 0 {
        Seq::empty()
    } else {
        flat_sequence(items.drop_last()) + flat_item(items.last())
    }
}

/// Whether one item is well formed.
pub open spec fn item_wf(item: Item) -> bool {
    match item {
        Item::Point(point) => point_wf(point),
        Item::Namespace(inner) => namespace_wf(inner),
    }
}

/// The first `count` items of a namespace declaration, taken as a sequence.
pub proof fn lemma_items_as_sequence(namespace: NamespaceDecl, count: nat)
    requires
        count <= namespace.items@.len(),
    ensures
        flat_items(namespace, count) == flat_sequence(namespace.items@.subrange(0, count as int)),
        items_wf(namespace, count) <==> forall|i: int|
            0 <= i < count ==> item_wf(#[trigger] namespace.items@[i]),
    decreases count,
{
    let items = namespace.items@.subrange(0, count as int);
    if count > 0 {
        lemma_items_as_sequence(namespace, (count - 1) as nat);
        assert(items.drop_last() =~= namespace.items@.subrange(0, count - 1));
        assert(items.last() == namespace.items@[count - 1]);
    }
}

/// Whether every identifier token holds an identifier.
pub open spec fn idents_ok(tokens: Seq<Token>) -> bool {
    forall|i: int|
        0 <= i < tokens.len() ==> ((#[trigger] tokens[i]).lex matches Lex::Ident(name)
            ==> is_identifier(name@))
}

/// A copy of the text of an identifier token; `None` for any other token.
fn ident_text(token: &Token) -> (text: Option<Vec<u8>>)
    ensures
        match text {
            Some(name) => token.lex@ == Lexeme::Ident(name@),
            None => !(token.lex@ is Ident),
        },
{
    match &token.lex {
        Lex::Ident(name) => Some(slice_to_vec(name.as_slice())),
        _ => None,
    }
}

/// Reads the list of types that starts with the identifier at `pos`.
fn parse_types(tokens: &Vec<Token>, pos: usize) -> (read: Result<(Vec<TypeRef>, usize), usize>)
    requires
        pos < tokens@.len(),
        tokens@[pos as int].lex@ is Ident,
        idents_ok(tokens@),
    ensures
        match read {
            Ok((types, end)) => {
                &&& pos < end <= tokens@.len()
                &&& scan_types(lexemes(tokens@), pos + 1) == Ok::<int, int>(end as int)
                &&& agrees(flat_types(types@), views(tokens@).subrange(pos as int, end as int))
                &&& types@.len() >= 1
                &&& forall|i: int| 0 <= i < types@.len() ==> is_identifier(#[trigger]
                    types@[i].name@)
            },
            Err(index) => scan_types(lexemes(tokens@), pos + 1) == Err::<int, int>(index as int)
                && pos < index <= tokens@.len(),
        },
{
    let ghost l = lexemes(tokens@);
    let ghost v = views(tokens@);
    let len = tokens.len();
    let mut types: Vec<TypeRef> = Vec::new();
    match ident_text(&tokens[pos]) {
        Some(name) => {
            types.push(TypeRef { name, position: tokens[pos].position });
        },
        None => {
            return Err(pos);
        },
    }
    let mut cur: usize = pos + 1;
    assert(flat_types(types@) =~= seq![
        Flat { lexeme: Lexeme::Ident(types@[0].name@), position: Some(types@[0].position as nat) },
    ]);
    assert(agrees(flat_types(types@), v.subrange(pos as int, cur as int)));
    while cur < tokens.len() && matches!(tokens[cur].lex, Lex::Pipe)
        invariant
            pos < cur <= tokens@.len(),
            l == lexemes(tokens@),
            v == views(tokens@),
            idents_ok(tokens@),
            scan_types(l, pos + 1) == scan_types(l, cur as int),
            agrees(flat_types(types@), v.subrange(pos as int, cur as int)),
            types@.len() >= 1,
            forall|i: int| 0 <= i < types@.len() ==> is_identifier(#[trigger] types@[i].name@),
        decreases tokens@.len() - cur,
    {
        if cur + 1 >= tokens.len() {
            return Err(cur + 1);
        }
        match ident_text(&tokens[cur + 1]) {
            Some(name) => {
                let ghost before = types@;
                let added = TypeRef { name, position: tokens[cur + 1].position };
                types.push(added);
                proof {
                    assert(types@.drop_last() =~= before);
                    let tail = seq![
                        mark(Lexeme::Pipe),
                        Flat {
                            lexeme: Lexeme::Ident(added.name@),
                            position: Some(added.position as nat),
                        },
                    ];
                    assert(flat_types(types@) == flat_types(before) + tail);
                    assert(agrees(tail, v.subrange(cur as int, cur + 2)));
                    lemma_agrees_concat(
                        flat_types(before),
                        v.subrange(pos as int, cur as int),
                        tail,
                        v.subrange(cur as int, cur + 2),
                    );
                    assert(v.subrange(pos as int, cur as int) + v.subrange(cur as int, cur + 2)
                        =~= v.subrange(pos as int, cur + 2));
                    assert(is_identifier(added.name@)) by {
                        assert(tokens@[cur + 1].lex matches Lex::Ident(n) && n@ == added.name@);
                    }
                }
                cur = cur + 2;
            },
            None => {
                return Err(cur + 1);
            },
        }
    }
    Ok((types, cur))
}

/// Reads the point declaration that starts with the `-` at `pos`.
fn parse_point(tokens: &Vec<Token>, pos: usize) -> (read: Result<(PointDecl, usize), usize>)
    requires
        pos < tokens@.len(),
        tokens@[pos as int].lex@ is Dash,
        idents_ok(tokens@),
    ensures
        match read {
            Ok((point, end)) => {
                &&& pos < end <= tokens@.len()
                &&& scan_point(lexemes(tokens@), pos as int) == Ok::<int, int>(end as int)
                &&& agrees(flat_point(point), views(tokens@).subrange(pos as int, end as int))
                &&& point_wf(point)
            },
            Err(index) => scan_point(lexemes(tokens@), pos as int) == Err::<int, int>(index as int)
                && pos < index <= tokens@.len(),
        },
{
    let ghost v = views(tokens@);
    let len = tokens.len();
    if pos + 1 >= len {
        return Err(pos + 1);
    }
    let name = match ident_text(&tokens[pos + 1]) {
        Some(name) => name,
        None => {
            return Err(pos + 1);
        },
    };
    if pos + 2 >= tokens.len() || !matches!(tokens[pos + 2].lex, Lex::Colon) {
        return Err(pos + 2);
    }
    if pos + 3 >= tokens.len() || !matches!(tokens[pos + 3].lex, Lex::Ident(_)) {
        return Err(pos + 3);
    }
    match parse_types(tokens, pos + 3) {
        Ok((types, end)) => {
            let point = PointDecl { name, types };
            proof {
                let head = seq![
                    mark(Lexeme::Dash),
                    mark(Lexeme::Ident(point.name@)),
                    mark(Lexeme::Colon),
                ];
                assert(agrees(head, v.subrange(pos as int, pos + 3)));
                lemma_agrees_concat(
                    head,
                    v.subrange(pos as int, pos + 3),
                    flat_types(point.types@),
                    v.subrange(pos + 3, end as int),
                );
                assert(v.subrange(pos as int, pos + 3) + v.subrange(pos + 3, end as int)
                    =~= v.subrange(pos as int, end as int));
                assert(is_identifier(point.name@)) by {
                    assert(tokens@[pos + 1].lex matches Lex::Ident(n) && n@ == point.name@);
                }
            }
            Ok((point, end))
        },
        Err(index) => Err(index),
    }
}

/// Reads the namespace declaration that starts with the identifier at `pos`.
fn parse_namespace(tokens: &Vec<Token>, pos: usize) -> (read: Result<
    (NamespaceDecl, usize),
    usize,
>)
    requires
        pos < tokens@.len(),
        tokens@[pos as int].lex@ is Ident,
        idents_ok(tokens@),
    ensures
        match read {
            Ok((namespace, end)) => {
                &&& pos < end <= tokens@.len()
                &&& forall|depth: nat| #[trigger]
                    scan(lexemes(tokens@), pos as int, depth) == scan(
                        lexemes(tokens@),
                        end as int,
                        depth,
                    )
                &&& agrees(
                    flat_namespace(namespace),
                    views(tokens@).subrange(pos as int, end as int),
                )
                &&& namespace_wf(namespace)
            },
            Err(index) => pos < index <= tokens@.len() && forall|depth: nat| #[trigger]
                scan(lexemes(tokens@), pos as int, depth) == Some(index as int),
        },
    decreases tokens@.len() - pos,
{
    let ghost l = lexemes(tokens@);
    let ghost v = views(tokens@);
    let len = tokens.len();
    let name = match ident_text(&tokens[pos]) {
        Some(name) => name,
        None => {
            return Err(pos);
        },
    };
    if pos + 1 >= tokens.len() || !matches!(tokens[pos + 1].lex, Lex::Open) {
        return Err(pos + 1);
    }
    let mut items: Vec<Item> = Vec::new();
    let mut cur: usize = pos + 2;
    let ghost head = seq![mark(Lexeme::Ident(name@)), mark(Lexeme::Open)];
    assert(agrees(head, v.subrange(pos as int, pos + 2)));
    assert(flat_sequence(items@) =~= Seq::<Flat>::empty());
    loop
        invariant
            pos + 2 <= cur <= tokens@.len(),
            l == lexemes(tokens@),
            v == views(tokens@),
            idents_ok(tokens@),
            tokens@[pos as int].lex@ == Lexeme::Ident(name@),
            head == seq![mark(Lexeme::Ident(name@)), mark(Lexeme::Open)],
            agrees(head, v.subrange(pos as int, pos + 2)),
            forall|depth: nat| #[trigger] scan(l, pos as int, depth) == scan(l, cur as int, depth
                + 1),
            agrees(flat_sequence(items@), v.subrange(pos + 2, cur as int)),
            forall|i: int| 0 <= i < items@.len() ==> item_wf(#[trigger] items@[i]),
        decreases tokens@.len() - cur,
    {
        if cur >= tokens.len() {
            return Err(cur);
        }
        let ghost before = items@;
        match &tokens[cur].lex {
            Lex::Close => {
                let namespace = NamespaceDecl { name, items };
                let end = cur + 1;
                proof {
                    lemma_items_as_sequence(namespace, namespace.items@.len());
                    assert(namespace.items@.subrange(0, namespace.items@.len() as int)
                        =~= namespace.items@);
                    assert(flat_namespace(namespace) == head + flat_sequence(before) + seq![
                        mark(Lexeme::Close),
                    ]);
                    assert(namespace_wf(namespace));
                    let tail = seq![mark(Lexeme::Close)];
                    assert(agrees(tail, v.subrange(cur as int, end as int)));
                    lemma_agrees_concat(
                        head,
                        v.subrange(pos as int, pos + 2),
                        flat_sequence(before),
                        v.subrange(pos + 2, cur as int),
                    );
                    assert(v.subrange(pos as int, pos + 2) + v.subrange(pos + 2, cur as int)
                        =~= v.subrange(pos as int, cur as int));
                    lemma_agrees_concat(
                        head + flat_sequence(before),
                        v.subrange(pos as int, cur as int),
                        tail,
                        v.subrange(cur as int, end as int),
                    );
                    assert(v.subrange(pos as int, cur as int) + v.subrange(cur as int, end as int)
                        =~= v.subrange(pos as int, end as int));
                    assert(is_identifier(namespace.name@)) by {
                        assert(tokens@[pos as int].lex matches Lex::Ident(n) && n@
                            == namespace.name@);
                    }
                    assert forall|depth: nat| #[trigger]
                        scan(l, pos as int, depth) == scan(l, end as int, depth) by {
                        assert(scan(l, pos as int, depth) == scan(l, cur as int, depth + 1));
                    }
                }
                return Ok((namespace, end));
            },
            Lex::Dash => {
                match parse_point(tokens, cur) {
                    Ok((point, end)) => {
                        items.push(Item::Point(point));
                        proof {
                            assert(items@.drop_last() =~= before);
                            lemma_agrees_concat(
                                flat_sequence(before),
                                v.subrange(pos + 2, cur as int),
                                flat_point(point),
                                v.subrange(cur as int, end as int),
                            );
                            assert(v.subrange(pos + 2, cur as int) + v.subrange(
                                cur as int,
                                end as int,
                            ) =~= v.subrange(pos + 2, end as int));
                            assert forall|depth: nat| #[trigger]
                                scan(l, pos as int, depth) == scan(l, end as int, depth + 1) by {
                                assert(scan(l, pos as int, depth) == scan(
                                    l,
                                    cur as int,
                                    depth + 1,
                                ));
                            }
                        }
                        cur = end;
                    },
                    Err(index) => {
                        proof {
                            assert forall|depth: nat| #[trigger]
                                scan(l, pos as int, depth) == Some(index as int) by {
                                assert(scan(l, pos as int, depth) == scan(
                                    l,
                                    cur as int,
                                    depth + 1,
                                ));
                            }
                        }
                        return Err(index);
                    },
                }
            },
            Lex::Ident(_) => {
                match parse_namespace(tokens, cur) {
                    Ok((inner, end)) => {
                        items.push(Item::Namespace(inner));
                        proof {
                            assert(items@.drop_last() =~= before);
                            lemma_agrees_concat(
                                flat_sequence(before),
                                v.subrange(pos + 2, cur as int),
                                flat_namespace(inner),
                                v.subrange(cur as int, end as int),
                            );
                            assert(v.subrange(pos + 2, cur as int) + v.subrange(
                                cur as int,
                                end as int,
                            ) =~= v.subrange(pos + 2, end as int));
                            assert forall|depth: nat| #[trigger]
                                scan(l, pos as int, depth) == scan(l, end as int, depth + 1) by {
                                assert(scan(l, pos as int, depth) == scan(
                                    l,
                                    cur as int,
                                    depth + 1,
                                ));
                                assert(scan(l, cur as int, depth + 1) == scan(
                                    l,
                                    end as int,
                                    depth + 1,
                                ));
                            }
                        }
                        cur = end;
                    },
                    Err(index) => {
                        proof {
                            assert forall|depth: nat| #[trigger]
                                scan(l, pos as int, depth) == Some(index as int) by {
                                assert(scan(l, pos as int, depth) == scan(
                                    l,
                                    cur as int,
                                    depth + 1,
                                ));
                                assert(scan(l, cur as int, depth + 1) == Some(index as int));
                            }
                        }
                        return Err(index);
                    },
                }
            },
            _ => {
                proof {
                    assert forall|depth: nat| #[trigger]
                        scan(l, pos as int, depth) == Some(cur as int) by {
                        assert(scan(l, pos as int, depth) == scan(l, cur as int, depth + 1));
                    }
                }
                return Err(cur);
            },
        }
    }
}

/// Reads the namespace declarations that the tokens spell.
fn parse_tokens(tokens: &Vec<Token>) -> (read: Result<Vec<NamespaceDecl>, usize>)
    requires
        idents_ok(tokens@),
    ensures
        match read {
            Ok(namespaces) => {
                &&& scan(lexemes(tokens@), 0, 0) is None
                &&& agrees(flat_all(namespaces@), views(tokens@))
                &&& all_wf(namespaces@)
            },
            Err(index) => index <= tokens@.len() && scan(lexemes(tokens@), 0, 0) == Some(
                index as int,
            ),
        },
{
    let ghost l = lexemes(tokens@);
    let ghost v = views(tokens@);
    let mut namespaces: Vec<NamespaceDecl> = Vec::new();
    let mut cur: usize = 0;
    assert(flat_all(namespaces@) =~= Seq::<Flat>::empty());
    while cur < tokens.len()
        invariant
            cur <= tokens@.len(),
            l == lexemes(tokens@),
            v == views(tokens@),
            idents_ok(tokens@),
            scan(l, 0, 0) == scan(l, cur as int, 0),
            agrees(flat_all(namespaces@), v.subrange(0, cur as int)),
            all_wf(namespaces@),
        decreases tokens@.len() - cur,
    {
        if !matches!(tokens[cur].lex, Lex::Ident(_)) {
            return Err(cur);
        }
        match parse_namespace(tokens, cur) {
            Ok((namespace, end)) => {
                let ghost before = namespaces@;
                namespaces.push(namespace);
                proof {
                    assert(namespaces@.drop_last() =~= before);
                    lemma_agrees_concat(
                        flat_all(before),
                        v.subrange(0, cur as int),
                        flat_namespace(namespace),
                        v.subrange(cur as int, end as int),
                    );
                    assert(v.subrange(0, cur as int) + v.subrange(cur as int, end as int)
                        =~= v.subrange(0, end as int));
                    assert(scan(l, cur as int, 0) == scan(l, end as int, 0));
                }
                cur = end;
            },
            Err(index) => {
                assert(scan(l, cur as int, 0) == Some(index as int));
                return Err(index);
            },
        }
    }
    assert(v.subrange(0, cur as int) =~= v);
    Ok(namespaces)
}

/// Whether a text reads as the given declarations: written out token by
/// token, the declarations are the tokens of the text, and they are well
/// formed.
pub open spec fn reads_as(text: Seq<u8>, namespaces: Seq<NamespaceDecl>) -> bool {
    agrees(flat_all(namespaces), tokens_of(text)) && all_wf(namespaces)
}

/// Reads the namespace declarations that a schema text spells. A text that
/// breaks the grammar is refused with the offset where it first does.
pub fn parse_declarations(text: &[u8]) -> (read: Result<Vec<NamespaceDecl>, ParseError>)
    ensures
        match read {
            Ok(namespaces) => {
                &&& syntax_error(text@) is None
                &&& reads_as(text@, namespaces@)
                &&& tokens_of(text@).len() <= usize::MAX
            },
            Err(e) => e.kind == ParseErrorKind::Syntax && syntax_error(text@) == Some(
                e.position as nat,
            ),
        },
{
    let tokens = tokenize(text);
    proof {
        lemma_lex_tokens(text@, 0);
        assert(idents_ok(tokens@)) by {
            assert forall|i: int| 0 <= i < tokens@.len() implies ((#[trigger] tokens@[i]).lex
                matches Lex::Ident(name)
                ==> is_identifier(name@)) by {
                assert(views(tokens@)[i] == tokens@[i]@);
                assert(tokens_of(text@)[i].lexeme == tokens@[i].lex@);
            }
        }
        assert(lexemes(tokens@) =~= Seq::new(
            tokens_of(text@).len(),
            |i: int| tokens_of(text@)[i].lexeme,
        ));
    }
    match parse_tokens(&tokens) {
        Ok(namespaces) => Ok(namespaces),
        Err(index) => {
            let position = if index < tokens.len() {
                tokens[index].position
            } else {
                text.len()
            };
            assert(index < tokens@.len() ==> tokens_of(text@)[index as int] == tokens@[index as
                int]@);
            Err(ParseError { kind: ParseErrorKind::Syntax, position })
        },
    }
}

} // verus!
