//! The tokens of a schema text: identifiers and five punctuation marks, with
//! free white space between them.

use vstd::prelude::*;
use vstd::slice::{slice_subrange, slice_to_vec};

verus! {

/// What a token is.
pub enum Lexeme {
    /// A letter or an underscore, then letters, digits and underscores.
    Ident(Seq<u8>),
    /// `{`
    Open,
    /// `}`
    Close,
    /// `-`
    Dash,
    /// `:`
    Colon,
    /// `|`
    Pipe,
    /// A byte that starts no token. It ends the token sequence.
    Invalid,
}

/// A token and the offset of its first byte.
pub struct TokenView {
    pub lexeme: Lexeme,
    pub position: nat,
}

/// What a token is, in executable form.
#[derive(Debug, Clone, PartialEq, Eq)]
pub enum Lex {
    Ident(Vec<u8>),
    Open,
    Close,
    Dash,
    Colon,
    Pipe,
    Invalid,
}

/// A token and the offset of its first byte, in executable form.
#[derive(Debug, Clone, PartialEq, Eq)]
pub struct Token {
    pub lex: Lex,
    pub position: usize,
}

impl View for Lex {
    type V = Lexeme;

    open spec fn view(&self) -> Lexeme {
        match self {
            Lex::Ident(text) => Lexeme::Ident(text@),
            Lex::Open => Lexeme::Open,
            Lex::Close => Lexeme::Close,
            Lex::Dash => Lexeme::Dash,
            Lex::Colon => Lexeme::Colon,
            Lex::Pipe => Lexeme::Pipe,
            Lex::Invalid => Lexeme::Invalid,
        }
    }
}

impl View for Token {
    type V = TokenView;

    open spec fn view(&self) -> TokenView {
        TokenView { lexeme: self.lex@, position: self.position as nat }
    }
}

/// The views of a sequence of tokens.
pub open spec fn views(tokens: Seq<Token>) -> Seq<TokenView> {
    Seq::new(tokens.len(), |i: int| tokens[i]@)
}

/// The lexemes of a sequence of tokens.
pub open spec fn lexemes(tokens: Seq<Token>) -> Seq<Lexeme> {
    Seq::new(tokens.len(), |i: int| tokens[i].lex@)
}

/// Space, tab, line feed and carriage return.
pub open spec fn is_space(byte: u8) -> bool {
    byte == 0x20 || byte == 0x09 || byte == 0x0a || byte == 0x0d
}

/// A letter or an underscore.
pub open spec fn is_ident_start(byte: u8) -> bool {
    (0x41 <= byte <= 0x5a) || (0x61 <= byte <= 0x7a) || byte == 0x5f
}

/// A letter, a digit or an underscore.
pub open spec fn is_ident_part(byte: u8) -> bool {
    is_ident_start(byte) || (0x30 <= byte <= 0x39)
}

/// Whether the bytes spell an identifier.
pub open spec fn is_identifier(text: Seq<u8>) -> bool {
    &&& text.len() > 0
    &&& is_ident_start(text[0])
    &&& forall|i: int| 0 <= i < text.len() ==> is_ident_part(#[trigger] text[i])
}

/// The punctuation mark that a byte is, `Invalid` where it is none.
pub open spec fn punctuation(byte: u8) -> Lexeme {
    if byte == 0x7b {
        Lexeme::Open
    } else if byte == 0x7d {
        Lexeme::Close
    } else if byte == 0x2d {
        Lexeme::Dash
    } else if byte == 0x3a {
        Lexeme::Colon
    } else if byte == 0x7c {
        Lexeme::Pipe
    } else {
        Lexeme::Invalid
    }
}

/// The first offset from `pos` on that holds no white space.
pub open spec fn skip_spaces(text: Seq<u8>, pos: int) -> int
    decreases text.len() - pos,
{
    if 0 <= pos < text.len() && is_space(text[pos]) {
        skip_spaces(text, pos + 1)
    } else {
        pos
    }
}

/// The first offset from `pos` on that holds no identifier byte.
pub open spec fn ident_end(text: Seq<u8>, pos: int) -> int
    decreases text.len() - pos,
{
    if 0 <= pos < text.len() && is_ident_part(text[pos]) {
        ident_end(text, pos + 1)
    } else {
        pos
    }
}

/// The tokens of the text from `pos` on. The sequence ends at the end of the
/// text, or with an `Invalid` token at the first byte that starts no token.
pub open spec fn lex(text: Seq<u8>, pos: int) -> Seq<TokenView>
    decreases text.len() - pos,
{
    let start = skip_spaces(text, pos);
    if start < pos || start < 0 || start >= text.len() {
        Seq::empty()
    } else if is_ident_start(text[start]) {
        let end = ident_end(text, start + 1);
        if end <= start || end > text.len() {
            Seq::empty()
        } else {
            seq![
                TokenView {
                    lexeme: Lexeme::Ident(text.subrange(start, end)),
                    position: start as nat,
                },
            ] + lex(text, end)
        }
    } else if punctuation(text[start]) is Invalid {
        seq![TokenView { lexeme: Lexeme::Invalid, position: start as nat }]
    } else {
        seq![TokenView { lexeme: punctuation(text[start]), position: start as nat }] + lex(
            text,
            start + 1,
        )
    }
}

/// The tokens of a text.
pub open spec fn tokens_of(text: Seq<u8>) -> Seq<TokenView> {
    lex(text, 0)
}

/// Skipping white space and reading an identifier move forward, within the text.
pub proof fn lemma_scan_bounds(text: Seq<u8>, pos: int)
    requires
        0 <= pos <= text.len(),
    ensures
        pos <= skip_spaces(text, pos) <= text.len(),
        pos <= ident_end(text, pos) <= text.len(),
        forall|i: int| pos <= i < skip_spaces(text, pos) ==> is_space(#[trigger] text[i]),
        forall|i: int| pos <= i < ident_end(text, pos) ==> is_ident_part(#[trigger] text[i]),
        skip_spaces(text, pos) < text.len() ==> !is_space(text[skip_spaces(text, pos)]),
        ident_end(text, pos) < text.len() ==> !is_ident_part(text[ident_end(text, pos)]),
    decreases text.len() - pos,
{
    if pos < text.len() {
        lemma_scan_bounds(text, pos + 1);
    }
}

/// Every token names an offset within the text; an identifier token holds an
/// identifier; only the last token can be `Invalid`; and the positions grow.
pub proof fn lemma_lex_tokens(text: Seq<u8>, pos: int)
    requires
        0 <= pos <= text.len(),
    ensures
        forall|i: int|
            0 <= i < lex(text, pos).len() ==> pos <= (#[trigger] lex(text, pos)[i]).position
                < text.len(),
        forall|i: int|
            0 <= i < lex(text, pos).len() ==> (
            (#[trigger] lex(text, pos)[i]).lexeme matches Lexeme::Ident(name) ==> is_identifier(
                name,
            )),
        forall|i: int|
            0 <= i < lex(text, pos).len() - 1 ==> !(
            (#[trigger] lex(text, pos)[i]).lexeme is Invalid),
    decreases text.len() - pos,
{
    lemma_scan_bounds(text, pos);
    let start = skip_spaces(text, pos);
    if start < text.len() {
        if is_ident_start(text[start]) {
            lemma_scan_bounds(text, start + 1);
            let end = ident_end(text, start + 1);
            lemma_lex_tokens(text, end);
            let name = text.subrange(start, end);
            assert(is_identifier(name));
            let rest = lex(text, end);
            assert forall|i: int| 0 <= i < lex(text, pos).len() implies pos <= (#[trigger] lex(
                text,
                pos,
            )[i]).position < text.len() by {
                if i > 0 {
                    assert(lex(text, pos)[i] == rest[i - 1]);
                }
            }
            assert forall|i: int| 0 <= i < lex(text, pos).len() implies ((#[trigger] lex(
                text,
                pos,
            )[i]).lexeme matches Lexeme::Ident(name) ==> is_identifier(name)) by {
                if i > 0 {
                    assert(lex(text, pos)[i] == rest[i - 1]);
                }
            }
            assert forall|i: int| 0 <= i < lex(text, pos).len() - 1 implies !((#[trigger] lex(
                text,
                pos,
            )[i]).lexeme is Invalid) by {
                if i > 0 {
                    assert(lex(text, pos)[i] == rest[i - 1]);
                }
            }
        } else if !(punctuation(text[start]) is Invalid) {
            lemma_lex_tokens(text, start + 1);
            let rest = lex(text, start + 1);
            assert forall|i: int| 0 <= i < lex(text, pos).len() implies pos <= (#[trigger] lex(
                text,
                pos,
            )[i]).position < text.len() by {
                if i > 0 {
                    assert(lex(text, pos)[i] == rest[i - 1]);
                }
            }
            assert forall|i: int| 0 <= i < lex(text, pos).len() implies ((#[trigger] lex(
                text,
                pos,
            )[i]).lexeme matches Lexeme::Ident(name) ==> is_identifier(name)) by {
                if i > 0 {
                    assert(lex(text, pos)[i] == rest[i - 1]);
                }
            }
            assert forall|i: int| 0 <= i < lex(text, pos).len() - 1 implies !((#[trigger] lex(
                text,
                pos,
            )[i]).lexeme is Invalid) by {
                if i > 0 {
                    assert(lex(text, pos)[i] == rest[i - 1]);
                }
            }
        }
    }
}

/// Whether a byte is white space.
fn space(byte: u8) -> (yes: bool)
    ensures
        yes == is_space(byte),
{
    byte == 0x20 || byte == 0x09 || byte == 0x0a || byte == 0x0d
}

/// Whether a byte can start an identifier.
fn ident_start(byte: u8) -> (yes: bool)
    ensures
        yes == is_ident_start(byte),
{
    (0x41 <= byte && byte <= 0x5a) || (0x61 <= byte && byte <= 0x7a) || byte == 0x5f
}

/// Whether a byte can continue an identifier.
fn ident_part(byte: u8) -> (yes: bool)
    ensures
        yes == is_ident_part(byte),
{
    ident_start(byte) || (0x30 <= byte && byte <= 0x39)
}

/// The tokens of a text.
pub fn tokenize(text: &[u8]) -> (tokens: Vec<Token>)
    ensures
        views(tokens@) == tokens_of(text@),
{
    let mut tokens: Vec<Token> = Vec::new();
    let mut pos: usize = 0;
    let len = text.len();
    loop
        invariant_except_break
            tokens_of(text@) == views(tokens@) + lex(text@, pos as int),
        invariant
            len == text@.len(),
            pos <= len,
        ensures
            views(tokens@) == tokens_of(text@),
        decreases len - pos,
    {
        let ghost from = pos as int;
        let ghost before = views(tokens@);
        proof {
            lemma_scan_bounds(text@, from);
        }
        while pos < len && space(text[pos])
            invariant
                len == text@.len(),
                from <= pos <= len,
                skip_spaces(text@, from) == skip_spaces(text@, pos as int),
            decreases len - pos,
        {
            pos = pos + 1;
        }
        if pos >= len {
            assert(lex(text@, from) =~= Seq::<TokenView>::empty());
            assert(before + lex(text@, from) =~= before);
            break ;
        }
        let start = pos;
        let byte = text[start];
        if ident_start(byte) {
            pos = pos + 1;
            proof {
                lemma_scan_bounds(text@, start + 1);
            }
            while pos < len && ident_part(text[pos])
                invariant
                    len == text@.len(),
                    start < pos <= len,
                    ident_end(text@, start + 1) == ident_end(text@, pos as int),
                decreases len - pos,
            {
                pos = pos + 1;
            }
            let name = slice_to_vec(slice_subrange(text, start, pos));
            tokens.push(Token { lex: Lex::Ident(name), position: start });
            assert(views(tokens@) + lex(text@, pos as int) =~= before + lex(text@, from));
        } else {
            let mark = if byte == 0x7b {
                Lex::Open
            } else if byte == 0x7d {
                Lex::Close
            } else if byte == 0x2d {
                Lex::Dash
            } else if byte == 0x3a {
                Lex::Colon
            } else if byte == 0x7c {
                Lex::Pipe
            } else {
                Lex::Invalid
            };
            let stop = matches!(mark, Lex::Invalid);
            tokens.push(Token { lex: mark, position: start });
            if stop {
                assert(views(tokens@) =~= before + lex(text@, from));
                break ;
            }
            pos = pos + 1;
            assert(views(tokens@) + lex(text@, pos as int) =~= before + lex(text@, from));
        }
    }
    tokens
}

} // verus!
