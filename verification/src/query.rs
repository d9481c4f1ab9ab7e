//! Queries over dotted names: a name is split at its dots into parts, and
//! two names match as far as their parts match, part by part, a part that
//! is a lone star matching any part.

use crate::text::{bytes_eq, str_eq};
use vstd::prelude::*;
use vstd::slice::slice_subrange;
use vstd::string::*;

verus! {

/// The byte that divides the parts of a name: a dot.
pub const NS_DIVIDER: u8 = 0x2e;

/// The byte that, alone, makes a part match any part: a star.
pub const WILDCARD: u8 = 0x2a;

/// One part of a dotted name.
pub struct QueryPart<'a>(&'a [u8]);

impl<'a> View for QueryPart<'a> {
    type V = Seq<u8>;

    closed spec fn view(&self) -> Seq<u8> {
        self.0@
    }
}

/// Whether a part is a lone star.
pub open spec fn is_wild(part: Seq<u8>) -> bool {
    part == seq![WILDCARD]
}

/// Whether two parts match: one of them is a lone star, or they are equal.
pub open spec fn parts_match(one: Seq<u8>, other: Seq<u8>) -> bool {
    is_wild(one) || is_wild(other) || one == other
}

/// The parts of a name: what stands between its dots. A name without a dot
/// is one part; a name of no bytes is one part of no bytes.
pub open spec fn split(name: Seq<u8>) -> Seq<Seq<u8>>
    decreases name.len(),
{
    if name.len() == 0 {
        seq![Seq::empty()]
    } else {
        let before = split(name.drop_last());
        if name.last() == NS_DIVIDER {
            before.push(Seq::empty())
        } else {
            before.drop_last().push(before.last().push(name.last()))
        }
    }
}

/// Whether two names match as far as both have parts: each part of the one
/// matches the part of the other at the same place.
pub open spec fn match_partially(one: Seq<u8>, other: Seq<u8>) -> bool {
    forall|k: int|
        0 <= k < split(one).len() && k < split(other).len() ==> parts_match(
            #[trigger] split(one)[k],
            split(other)[k],
        )
}

/// The views of a sequence of parts.
pub open spec fn part_views(parts: Seq<QueryPart>) -> Seq<Seq<u8>> {
    Seq::new(parts.len(), |i: int| parts[i]@)
}

impl<'a> QueryPart<'a> {
    /// Whether the part is a lone star.
    pub fn is_wildcard(&self) -> (wild: bool)
        ensures
            wild == is_wild(self@),
    {
        let wild = self.0.len() == 1 && self.0[0] == WILDCARD;
        assert(wild == (self@ =~= seq![WILDCARD]));
        wild
    }

    /// Whether the part matches another.
    pub fn matches(&self, other: &QueryPart) -> (matched: bool)
        ensures
            matched == parts_match(self@, other@),
    {
        self.is_wildcard() || other.is_wildcard() || bytes_eq(self.0, other.0)
    }
}

/// A dotted name to be matched against others.
pub struct Query<'a> {
    value: &'a str,
}

impl<'a> View for Query<'a> {
    type V = Seq<char>;

    closed spec fn view(&self) -> Seq<char> {
        self.value@
    }
}

impl<'a> Query<'a> {
    /// The bytes of the name.
    pub closed spec fn bytes(&self) -> Seq<u8> {
        self.value.spec_bytes()
    }

    /// The query of a name.
    pub fn new(value: &'a str) -> (query: Query<'a>)
        ensures
            query@ == value@,
            query.bytes() == value.spec_bytes(),
    {
        Query { value }
    }

    /// The parts of the name.
    pub fn get_parts(&self) -> (parts: Vec<QueryPart<'a>>)
        ensures
            part_views(parts@) == split(self.bytes()),
    {
        split_parts(self.value.as_bytes())
    }

    /// Whether the name is the other, letter for letter.
    pub fn matches_exact(&self, other: &str) -> (matched: bool)
        ensures
            matched == (self@ == other@),
    {
        str_eq(self.value, other)
    }

    /// Whether the name matches the other as far as both have parts.
    pub fn matches_partial(&self, other: &str) -> (matched: bool)
        ensures
            matched == match_partially(self.bytes(), other.spec_bytes()),
    {
        let mine = self.get_parts();
        let theirs = Query::new(other).get_parts();
        let mut k: usize = 0;
        while k < mine.len() && k < theirs.len()
            invariant
                part_views(mine@) == split(self.bytes()),
                part_views(theirs@) == split(other.spec_bytes()),
                forall|j: int|
                    0 <= j < k ==> parts_match(
                        #[trigger] split(self.bytes())[j],
                        split(other.spec_bytes())[j],
                    ),
            decreases mine@.len() - k,
        {
            assert(part_views(mine@)[k as int] == mine@[k as int]@);
            assert(part_views(theirs@)[k as int] == theirs@[k as int]@);
            if !mine[k].matches(&theirs[k]) {
                assert(!parts_match(
                    split(self.bytes())[k as int],
                    split(other.spec_bytes())[k as int],
                ));
                assert(split(self.bytes()).len() == mine@.len());
                assert(split(other.spec_bytes()).len() == theirs@.len());
                return false;
            }
            k = k + 1;
        }
        assert(part_views(mine@).len() == mine@.len());
        assert(part_views(theirs@).len() == theirs@.len());
        true
    }
}

/// The parts of a name, as slices of it.
fn split_parts<'a>(name: &'a [u8]) -> (parts: Vec<QueryPart<'a>>)
    ensures
        part_views(parts@) == split(name@),
{
    let mut parts: Vec<QueryPart<'a>> = Vec::new();
    let mut start: usize = 0;
    let mut i: usize = 0;
    proof {
        assert(name@.subrange(0, 0) =~= Seq::<u8>::empty());
        assert(split(name@.subrange(0, 0)) =~= part_views(parts@).push(name@.subrange(0, 0)));
    }
    while i < name.len()
        invariant
            start <= i <= name@.len(),
            split(name@.subrange(0, i as int)) == part_views(parts@).push(
                name@.subrange(start as int, i as int),
            ),
        decreases name@.len() - i,
    {
        let ghost done = part_views(parts@);
        let ghost shorter = name@.subrange(0, i as int);
        let ghost longer = name@.subrange(0, i + 1);
        proof {
            assert(longer.drop_last() =~= shorter);
            assert(longer.last() == name@[i as int]);
        }
        if name[i] == NS_DIVIDER {
            parts.push(QueryPart(slice_subrange(name, start, i)));
            start = i + 1;
            proof {
                assert(part_views(parts@) =~= split(shorter));
                assert(name@.subrange(start as int, i + 1) =~= Seq::<u8>::empty());
            }
        } else {
            proof {
                let current = name@.subrange(start as int, i as int);
                assert(split(shorter).drop_last() =~= done);
                assert(split(shorter).last() == current);
                assert(current.push(name@[i as int]) =~= name@.subrange(start as int, i + 1));
            }
        }
        i = i + 1;
    }
    let ghost done = part_views(parts@);
    parts.push(QueryPart(slice_subrange(name, start, i)));
    proof {
        assert(name@.subrange(0, i as int) =~= name@);
        assert(part_views(parts@) =~= done.push(name@.subrange(start as int, i as int)));
    }
    parts
}

} // verus!
