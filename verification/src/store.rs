//! The value store: the schema in force, the validation of updates against
//! it, and the backend that keeps the values.

use crate::error::{Error, ErrorKind};
use crate::key::{Key, StringKey};
use crate::parser::{declares_facts, is_refused, parse};
use crate::point::{to_point_type, type_of, Namespace, Point, PointType};
use crate::schema::{Fact, Schema};
use crate::subscription::{any_matches, compiles, SubscriptionSet};
use crate::syntax::ParseError;
use crate::value::{decode, Value, ValueView};
use vstd::prelude::*;
use vstd::string::*;

verus! {

/// One request that a value store made of its backend to keep a value, and
/// whether the backend said that it did.
pub struct Request {
    pub key: Seq<u8>,
    pub value: ValueView,
    pub kept: bool,
}

/// A backend that keeps the last value of each key. What it does with a
/// request is its own affair: the broker assumes nothing about it.
pub trait Store<TKey: Key> {
    /// Keeps `value` as the value of `key`.
    fn store_value(&mut self, key: &TKey, value: &Value) -> Result<(), Error>;

    /// The value kept for `key`, if there is one.
    fn get_value(&mut self, key: &TKey) -> Option<Value>;
}

/// The bytes that a backend keeps for a value: its encoding.
pub fn stored_bytes(value: &Value) -> (bytes: Result<Vec<u8>, Error>)
    ensures
        match bytes {
            Ok(data) => value@.wf() && data@ == value@.encoding(),
            Err(e) => !value@.wf() && e.is_of(ErrorKind::ValueTooLong),
        },
{
    let mut data: Vec<u8> = Vec::new();
    match value.write_to(&mut data) {
        Ok(()) => {
            assert(data@ =~= value@.encoding());
            Ok(data)
        },
        Err(e) => Err(e),
    }
}

/// The value that a backend kept as the given bytes: the value that they
/// start with, if they start with one.
pub fn stored_value(bytes: &[u8]) -> (value: Option<Value>)
    ensures
        match value {
            Some(v) => decode(bytes@) is Ok && decode(bytes@)->Ok_0.0 == v@,
            None => decode(bytes@) is Err,
        },
{
    match Value::read_from(bytes) {
        Ok((value, _)) => Some(value),
        Err(_) => None,
    }
}

/// The place of the first entry of the given key.
pub open spec fn entry_of(entries: Seq<(Vec<u8>, Vec<u8>)>, key: Seq<u8>) -> Option<int>
    decreases entries.len(),
{
    if entries.len() == 0 {
        None
    } else {
        match entry_of(entries.drop_last(), key) {
            Some(i) => Some(i),
            None => if entries.last().0@ == key {
                Some(entries.len() - 1)
            } else {
                None
            },
        }
    }
}

/// `entry_of` finds the first entry of the key, and none where no entry
/// has the key.
pub proof fn lemma_entry_of(entries: Seq<(Vec<u8>, Vec<u8>)>, key: Seq<u8>)
    ensures
        match entry_of(entries, key) {
            Some(i) => 0 <= i < entries.len() && entries[i].0@ == key && forall|j: int|
                0 <= j < i ==> (#[trigger] entries[j]).0@ != key,
            None => forall|j: int| 0 <= j < entries.len() ==> (#[trigger] entries[j]).0@ != key,
        },
    decreases entries.len(),
{
    if entries.len() > 0 {
        let shorter = entries.drop_last();
        lemma_entry_of(shorter, key);
        match entry_of(shorter, key) {
            Some(i) => {
                assert forall|j: int| 0 <= j < i implies (#[trigger] entries[j]).0@ != key by {
                    assert(shorter[j] == entries[j]);
                }
                assert(shorter[i] == entries[i]);
            },
            None => {
                assert forall|j: int| 0 <= j < entries.len() - 1 implies (#[trigger] entries[j]).0@
                    != key by {
                    assert(shorter[j] == entries[j]);
                }
            },
        }
    }
}

/// A backend that keeps the values in memory, each as its encoding.
pub struct MemoryStore {
    entries: Vec<(Vec<u8>, Vec<u8>)>,
}

impl MemoryStore {
    /// The bytes kept for a key, if any are.
    pub closed spec fn kept(&self, key: Seq<u8>) -> Option<Seq<u8>> {
        match entry_of(self.entries@, key) {
            Some(i) => Some(self.entries@[i].1@),
            None => None,
        }
    }

    /// A backend that keeps nothing yet.
    pub fn new() -> (store: MemoryStore)
        ensures
            forall|key: Seq<u8>| store.kept(key) is None,
    {
        MemoryStore { entries: Vec::new() }
    }

    /// The place of the entry of a key.
    fn find(&self, key: &[u8]) -> (found: Option<usize>)
        ensures
            match found {
                Some(i) => entry_of(self.entries@, key@) == Some(i as int) && i
                    < self.entries@.len(),
                None => entry_of(self.entries@, key@) is None,
            },
    {
        let mut i: usize = 0;
        while i < self.entries.len()
            invariant
                i <= self.entries@.len(),
                forall|j: int| 0 <= j < i ==> (#[trigger] self.entries@[j]).0@ != key@,
            decreases self.entries@.len() - i,
        {
            if crate::text::bytes_eq(self.entries[i].0.as_slice(), key) {
                proof {
                    lemma_entry_of(self.entries@, key@);
                }
                return Some(i);
            }
            i = i + 1;
        }
        proof {
            lemma_entry_of(self.entries@, key@);
        }
        None
    }

    /// Keeps the encoding of a value as the bytes of a key, in place of
    /// what was kept for the key before. A value that cannot be encoded is
    /// refused, and nothing changes.
    pub fn put(&mut self, key: &[u8], value: &Value) -> (done: Result<(), Error>)
        ensures
            match done {
                Ok(()) => value@.wf() && forall|other: Seq<u8>|
                    final(self).kept(other) == if other == key@ {
                        Some(value@.encoding())
                    } else {
                        old(self).kept(other)
                    },
                Err(e) => !value@.wf() && e.is_of(ErrorKind::ValueTooLong) && forall|
                    other: Seq<u8>,
                | final(self).kept(other) == old(self).kept(other),
            },
    {
        let bytes = match stored_bytes(value) {
            Ok(bytes) => bytes,
            Err(e) => {
                return Err(e);
            },
        };
        let ghost before = self.entries@;
        let name = vstd::slice::slice_to_vec(key);
        match self.find(key) {
            Some(i) => {
                self.entries[i] = (name, bytes);
            },
            None => {
                self.entries.push((name, bytes));
            },
        }
        proof {
            let after = self.entries@;
            lemma_entry_of(before, key@);
            let place = match entry_of(before, key@) {
                Some(i) => i,
                None => before.len() as int,
            };
            assert(after.len() >= before.len());
            assert(after[place].0@ == key@ && after[place].1@ == value@.encoding());
            assert forall|j: int| 0 <= j < after.len() && j != place implies j < before.len()
                && #[trigger] after[j] == before[j] by {}
            assert forall|other: Seq<u8>|
                self.kept(other) == if other == key@ {
                    Some(value@.encoding())
                } else {
                    old(self).kept(other)
                } by {
                lemma_entry_of(before, other);
                lemma_entry_of(after, other);
                if other == key@ {
                    match entry_of(after, other) {
                        Some(b) => {
                            if b != place {
                                assert(after[b] == before[b]);
                                if b < place {
                                    assert(before[b].0@ != key@);
                                } else {
                                    assert(after[place].0@ == other);
                                }
                            }
                        },
                        None => {
                            assert(after[place].0@ == other);
                        },
                    }
                } else {
                    match entry_of(before, other) {
                        Some(a) => {
                            assert(a != place);
                            assert(after[a] == before[a]);
                            match entry_of(after, other) {
                                Some(b) => {
                                    assert(b != place);
                                    assert(after[b] == before[b]);
                                    if a < b {
                                        assert(after[a].0@ != other);
                                    } else if b < a {
                                        assert(before[b].0@ != other);
                                    }
                                },
                                None => {
                                    assert(after[a].0@ == other);
                                },
                            }
                        },
                        None => {
                            match entry_of(after, other) {
                                Some(b) => {
                                    assert(b != place);
                                    assert(after[b] == before[b]);
                                    assert(before[b].0@ == other);
                                },
                                None => {},
                            }
                        },
                    }
                }
            }
        }
        Ok(())
    }

    /// The value whose encoding is kept for a key.
    pub fn get(&self, key: &[u8]) -> (value: Option<Value>)
        ensures
            match self.kept(key@) {
                None => value is None,
                Some(bytes) => match value {
                    Some(v) => decode(bytes) is Ok && decode(bytes)->Ok_0.0 == v@,
                    None => decode(bytes) is Err,
                },
            },
    {
        match self.find(key) {
            Some(i) => stored_value(self.entries[i].1.as_slice()),
            None => None,
        }
    }
}

impl<TKey: Key> Store<TKey> for MemoryStore {
    /// Keeps the encoding of the value as the bytes of the key, in place of
    /// what was kept for the key before; what is kept for other keys stays.
    /// A value that cannot be encoded is refused, and nothing changes.
    fn store_value(&mut self, key: &TKey, value: &Value) -> (done: Result<(), Error>)
        ensures
            match done {
                Ok(()) => value@.wf() && forall|other: Seq<u8>|
                    final(self).kept(other) == if other == key.bytes() {
                        Some(value@.encoding())
                    } else {
                        old(self).kept(other)
                    },
                Err(e) => !value@.wf() && e.is_of(ErrorKind::ValueTooLong) && forall|
                    other: Seq<u8>,
                | final(self).kept(other) == old(self).kept(other),
            },
    {
        self.put(key.as_slice(), value)
    }

    /// The value whose encoding is kept for the key: none where nothing is
    /// kept for it. The store stays as it is.
    fn get_value(&mut self, key: &TKey) -> (value: Option<Value>)
        ensures
            *final(self) == *old(self),
            match old(self).kept(key.bytes()) {
                None => value is None,
                Some(bytes) => match value {
                    Some(v) => decode(bytes) is Ok && decode(bytes)->Ok_0.0 == v@,
                    None => decode(bytes) is Err,
                },
            },
    {
        self.get(key.as_slice())
    }
}

/// Why an update was refused.
#[derive(Debug, Clone, PartialEq, Eq)]
pub enum UpdateError {
    /// The schema has no point of that name.
    InvalidPoint,
    /// The point does not admit values of that type.
    InvalidPointType,
    /// The backend failed to keep the value.
    Store(Error),
}

impl UpdateError {
    /// The refusal in words.
    pub open spec fn text(&self) -> Seq<char> {
        match self {
            UpdateError::InvalidPoint => "invalid point"@,
            UpdateError::InvalidPointType => "invalid point-type"@,
            UpdateError::Store(e) => e.message@,
        }
    }

    /// The refusal in words.
    pub fn message(&self) -> (text: String)
        ensures
            text@ == self.text(),
    {
        match self {
            UpdateError::InvalidPoint => "invalid point".to_owned(),
            UpdateError::InvalidPointType => "invalid point-type".to_owned(),
            UpdateError::Store(e) => e.message.clone(),
        }
    }
}

/// The text that fragments make when each is followed by a line break.
pub open spec fn joined(fragments: Seq<Seq<char>>) -> Seq<char>
    decreases fragments.len(),
{
    if fragments.len() == 0 {
        Seq::empty()
    } else {
        joined(fragments.drop_last()) + fragments.last() + "\r\n"@
    }
}

/// What checking an update against a schema gives: whether the schema has
/// the point, and whether the point admits the type of the value.
pub open spec fn check(schema: Set<Fact>, id: Seq<char>, value: ValueView) -> Option<UpdateError> {
    if !schema.contains(Fact::Point(id)) {
        Some(UpdateError::InvalidPoint)
    } else if !schema.contains(Fact::Type(id, type_of(value))) {
        Some(UpdateError::InvalidPointType)
    } else {
        None
    }
}

/// The requests made of the backend once an update was handled: none is
/// added for an update that the schema refuses; for one that it accepts,
/// the request to keep the value under the key, with what came of it.
pub open spec fn requests_after(
    before: Seq<Request>,
    refusal: Option<UpdateError>,
    key: Seq<u8>,
    value: ValueView,
    kept: bool,
) -> Seq<Request> {
    match refusal {
        Some(_) => before,
        None => before.push(Request { key, value, kept }),
    }
}

/// The points of a sequence, among its first `count`, whose full names a
/// pattern matches, in order.
pub open spec fn matching_points(points: Seq<Point>, count: nat, pattern: Seq<char>) -> Seq<Point>
    decreases count,
{
    if count == 0 || count > points.len() {
        Seq::empty()
    } else {
        let before = matching_points(points, (count - 1) as nat, pattern);
        if any_matches(seq![pattern], points[count - 1].full_name@) {
            before.push(points[count - 1])
        } else {
            before
        }
    }
}

/// The points of a sequence of namespaces whose full names a pattern
/// matches, in order.
pub open spec fn matching(namespaces: Seq<Namespace>, pattern: Seq<char>) -> Seq<Point>
    decreases namespaces.len(),
{
    if namespaces.len() == 0 {
        Seq::empty()
    } else {
        matching(namespaces.drop_last(), pattern) + matching_points(
            namespaces.last().points@,
            namespaces.last().points@.len(),
            pattern,
        )
    }
}

/// The points that references refer to.
pub open spec fn referred(points: Seq<&Point>) -> Seq<Point> {
    Seq::new(points.len(), |i: int| *points[i])
}

/// The schema in force and the backend that keeps the values.
pub struct ValueStore<TStore: Store<StringKey>> {
    store: TStore,
    schema: Schema,
    asked: Ghost<Seq<Request>>,
}

impl<TStore: Store<StringKey>> ValueStore<TStore> {
    /// The schema in force.
    pub closed spec fn spec_schema(&self) -> Schema {
        self.schema
    }

    /// The requests to keep a value that the value store made of its
    /// backend, in order.
    pub closed spec fn requests(&self) -> Seq<Request> {
        self.asked@
    }

    /// Whether the value store is well formed: the schema in force is.
    pub open spec fn wf(&self) -> bool {
        self.spec_schema().wf()
    }

    /// A value store over the given backend, with the empty schema in force.
    pub fn new(store: TStore) -> (made: Self)
        ensures
            made.wf(),
            made.spec_schema()@ == Set::<Fact>::empty(),
            made.requests().len() == 0,
    {
        ValueStore { store, schema: Schema::empty(), asked: Ghost(Seq::empty()) }
    }

    /// The schema in force.
    pub fn schema(&self) -> (schema: &Schema)
        ensures
            *schema == self.spec_schema(),
    {
        &self.schema
    }

    /// The value that the backend keeps for a key, if it keeps one.
    pub fn get_value(&mut self, key: &StringKey) -> (value: Option<Value>)
        ensures
            final(self).spec_schema() == old(self).spec_schema(),
            final(self).requests() == old(self).requests(),
    {
        self.store.get_value(key)
    }

    /// Puts the schema that the fragments declare together in force: the
    /// fragments are joined, a line break behind each, and parsed as one
    /// text. Where the text is refused the schema in force stays as it is.
    pub fn build_schema(&mut self, source: &Vec<String>) -> (done: Result<(), ParseError>)
        requires
            old(self).wf(),
        ensures
            final(self).wf(),
            final(self).requests() == old(self).requests(),
            match done {
                Ok(()) => declares_facts(
                    vstd::utf8::encode_utf8(joined(crate::subscription::texts(source@))),
                    final(self).spec_schema()@,
                ),
                Err(e) => is_refused(
                    vstd::utf8::encode_utf8(joined(crate::subscription::texts(source@))),
                    e,
                ) && final(self).spec_schema() == old(self).spec_schema(),
            },
    {
        let mut text = String::new();
        let mut i: usize = 0;
        proof {
            assert(crate::subscription::texts(source@.subrange(0, 0)) =~=
                Seq::<Seq<char>>::empty());
        }
        while i < source.len()
            invariant
                i <= source@.len(),
                text@ == joined(crate::subscription::texts(source@.subrange(0, i as int))),
            decreases source@.len() - i,
        {
            let ghost shorter = crate::subscription::texts(source@.subrange(0, i as int));
            let ghost longer = crate::subscription::texts(source@.subrange(0, i + 1));
            proof {
                assert(longer.drop_last() =~= shorter);
                assert(longer.last() == source@[i as int]@);
            }
            text.append(source[i].as_str());
            text.append("\r\n");
            i = i + 1;
        }
        proof {
            assert(source@.subrange(0, i as int) =~= source@);
        }
        match parse(text.as_str()) {
            Ok(schema) => {
                self.schema = schema;
                Ok(())
            },
            Err(e) => Err(e),
        }
    }

    /// The points whose full names the glob pattern matches, in the order
    /// of the schema; the text of the glob matcher's error where the
    /// pattern is refused.
    pub fn query(&self, query: &str) -> (found: Result<Vec<&Point>, String>)
        ensures
            match found {
                Ok(points) => compiles(seq![query@]) && referred(points@) == matching(
                    self.spec_schema().spec_namespaces(),
                    query@,
                ),
                Err(_) => !compiles(seq![query@]),
            },
    {
        let mut source: Vec<String> = Vec::new();
        source.push(query.to_owned());
        proof {
            let given = crate::subscription::texts(source@);
            assert(given =~= seq![query@]);
            assert(given.drop_last() =~= Seq::<Seq<char>>::empty());
            reveal_with_fuel(crate::subscription::gathered, 2);
            assert(crate::subscription::gathered(given) =~= seq![query@]);
        }
        let set = match SubscriptionSet::new(source) {
            Ok(set) => set,
            Err(e) => {
                return Err(e.message);
            },
        };
        let namespaces = self.schema.namespaces();
        let mut points: Vec<&Point> = Vec::new();
        let mut i: usize = 0;
        proof {
            assert(referred(points@) =~= matching(namespaces@.subrange(0, 0), query@));
        }
        while i < namespaces.len()
            invariant
                i <= namespaces@.len(),
                set@ == seq![query@],
                referred(points@) == matching(namespaces@.subrange(0, i as int), query@),
            decreases namespaces@.len() - i,
        {
            let namespace = &namespaces[i];
            let ghost before = referred(points@);
            let mut j: usize = 0;
            while j < namespace.points.len()
                invariant
                    j <= namespace.points@.len(),
                    set@ == seq![query@],
                    referred(points@) == before + matching_points(
                        namespace.points@,
                        j as nat,
                        query@,
                    ),
                decreases namespace.points@.len() - j,
            {
                let point = &namespace.points[j];
                let ghost so_far = referred(points@);
                if set.matches(point.full_name.as_str()) {
                    points.push(point);
                    assert(referred(points@) =~= so_far.push(*point));
                }
                j = j + 1;
                assert(referred(points@) =~= before + matching_points(
                    namespace.points@,
                    j as nat,
                    query@,
                ));
            }
            i = i + 1;
            proof {
                let longer = namespaces@.subrange(0, i as int);
                assert(longer.drop_last() =~= namespaces@.subrange(0, i - 1));
                assert(longer.last() == *namespace);
            }
        }
        proof {
            assert(namespaces@.subrange(0, i as int) =~= namespaces@);
        }
        Ok(points)
    }

    /// The point of the given full name.
    pub fn query_single(&self, query: &str) -> (found: Option<&Point>)
        requires
            self.wf(),
        ensures
            found is Some <==> self.spec_schema()@.contains(Fact::Point(query@)),
            found matches Some(point) ==> point.full_name@ == query@ && forall|t: PointType|
                point.types@.contains(t) <==> self.spec_schema()@.contains(Fact::Type(query@, t)),
    {
        self.schema.lookup_point(query)
    }

    /// Checks an update against the schema in force: the point has to be
    /// there, and it has to admit the type of the value.
    pub fn check_update(&self, key: &StringKey, new_value: &Value) -> (refusal: Option<UpdateError>)
        requires
            self.wf(),
        ensures
            refusal == check(self.spec_schema()@, key@, new_value@),
    {
        match self.query_single(key.as_str()) {
            None => Some(UpdateError::InvalidPoint),
            Some(point) => {
                if point.types.contains(to_point_type(new_value)) {
                    None
                } else {
                    Some(UpdateError::InvalidPointType)
                }
            },
        }
    }

    /// Checks an update against the schema in force and hands an accepted
    /// value to the backend, once. The value comes back where the update
    /// was accepted and kept; otherwise the reason why it was not. Nothing
    /// is asked of the backend for an update that the schema refuses.
    pub fn update_point(&mut self, key: &StringKey, new_value: Value) -> (done: Result<
        Value,
        UpdateError,
    >)
        requires
            old(self).wf(),
        ensures
            final(self).spec_schema() == old(self).spec_schema(),
            final(self).requests() == requests_after(
                old(self).requests(),
                check(old(self).spec_schema()@, key@, new_value@),
                key.bytes(),
                new_value@,
                done is Ok,
            ),
            match done {
                Ok(value) => check(old(self).spec_schema()@, key@, new_value@) is None && value
                    == new_value,
                Err(UpdateError::Store(_)) => check(old(self).spec_schema()@, key@, new_value@) is
                    None,
                Err(e) => check(old(self).spec_schema()@, key@, new_value@) == Some(e),
            },
    {
        match self.check_update(key, &new_value) {
            Some(refusal) => Err(refusal),
            None => {
                let stored = self.store.store_value(key, &new_value);
                proof {
                    self.asked = Ghost(
                        self.asked@.push(
                            Request { key: key.bytes(), value: new_value@, kept: stored is Ok },
                        ),
                    );
                }
                settle_update(stored, new_value)
            },
        }
    }
}

/// What becomes of an accepted update once the backend has answered: the
/// value where it was kept, the backend's error where it was not.
pub fn settle_update(stored: Result<(), Error>, new_value: Value) -> (done: Result<
    Value,
    UpdateError,
>)
    ensures
        match stored {
            Ok(()) => done == Ok::<Value, UpdateError>(new_value),
            Err(e) => done == Err::<Value, UpdateError>(UpdateError::Store(e)),
        },
{
    match stored {
        Ok(()) => Ok(new_value),
        Err(e) => Err(UpdateError::Store(e)),
    }
}

} // verus!
