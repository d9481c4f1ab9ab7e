//! Keys: the byte strings that address points and connections.

use crate::error::{Error, ErrorKind};
use crate::text::{
    ascii_to_string, chars_of, decimal, hex_digits, hex_encode, is_ascii_bytes, is_lower,
    lemma_ascii_bytes_chars, lemma_ascii_chars_bytes, lemma_lower_idempotent, lemma_lower_of_lower,
    lower, lower_bytes, lowercase_ascii, to_decimal,
};
use vstd::prelude::*;
use vstd::slice::slice_index_get;
use vstd::string::*;
use vstd::utf8::*;

verus! {

/// A key flavor: how raw bytes become a key, and the bytes of a key.
pub trait Key: Sized {
    /// The bytes of the key.
    spec fn bytes(&self) -> Seq<u8>;

    /// Whether the key is one that `from_slice` could have made.
    spec fn wf(&self) -> bool;

    /// What `from_slice` makes of raw bytes: the bytes of the key, or the
    /// reason why they are refused.
    spec fn accept(raw: Seq<u8>) -> Result<Seq<u8>, ErrorKind>;

    /// The key that the raw bytes stand for.
    fn from_slice(key: &[u8]) -> (made: Result<Self, Error>)
        ensures
            match made {
                Ok(k) => Self::accept(key@) == Ok::<Seq<u8>, ErrorKind>(k.bytes()) && k.wf(),
                Err(e) => Self::accept(key@) == Err::<Seq<u8>, ErrorKind>(e.kind) && e.is_of(
                    e.kind,
                ),
            },
    ;

    /// The bytes of the key.
    fn as_slice(&self) -> (bytes: &[u8])
        ensures
            bytes@ == self.bytes(),
    ;

    /// The bytes of a key are accepted, and they stand for themselves.
    proof fn lemma_accepts_own_bytes(&self)
        requires
            self.wf(),
        ensures
            Self::accept(self.bytes()) == Ok::<Seq<u8>, ErrorKind>(self.bytes()),
    ;

    /// Bytes are never refused for want of more bytes: the bytes of a key
    /// are handed over whole.
    proof fn lemma_refusal_is_final(raw: Seq<u8>)
        ensures
            !(Self::accept(raw) matches Err(ErrorKind::ShortRead { .. })),
    ;
}

/// The key flavor of the wire: ASCII text of at most 255 bytes, kept in lower case.
#[derive(Debug, Clone, PartialEq, Eq, Hash)]
pub struct StringKey(String);

impl View for StringKey {
    type V = Seq<char>;

    closed spec fn view(&self) -> Seq<char> {
        self.0@
    }
}

impl StringKey {
    /// What `new` makes of a text: its lower case, or the reason why the text
    /// is refused. Text that is not ASCII is refused first, then text that is
    /// too long.
    pub open spec fn normalize(text: Seq<char>) -> Result<Seq<char>, ErrorKind> {
        if !is_ascii_chars(text) {
            Err(ErrorKind::InvalidKey)
        } else if text.len() > 255 {
            Err(ErrorKind::KeyTooLong)
        } else {
            Ok(lower(text))
        }
    }

    /// A key holds ASCII text of at most 255 characters without capitals.
    pub open spec fn valid(text: Seq<char>) -> bool {
        &&& is_ascii_chars(text)
        &&& text.len() <= 255
        &&& is_lower(text)
    }

    /// The key that a text stands for.
    pub fn new(value: &str) -> (made: Result<StringKey, Error>)
        ensures
            match made {
                Ok(k) => Self::normalize(value@) == Ok::<Seq<char>, ErrorKind>(k@) && k.wf(),
                Err(e) => Self::normalize(value@) == Err::<Seq<char>, ErrorKind>(e.kind) && e.is_of(
                    e.kind,
                ),
            },
    {
        if !value.is_ascii() {
            return Err(Error::of(ErrorKind::InvalidKey));
        }
        let bytes = value.as_bytes();
        proof {
            lemma_ascii_chars_bytes(value@);
            lemma_lower_idempotent(value@);
        }
        if bytes.len() > 255 {
            return Err(Error::of(ErrorKind::KeyTooLong));
        }
        let lowered = lowercase_ascii(bytes);
        proof {
            lemma_ascii_chars_bytes(lower(value@));
        }
        Ok(StringKey(ascii_to_string(lowered)))
    }

    /// The text of the key.
    pub fn as_str(&self) -> (text: &str)
        ensures
            text@ == self@,
    {
        self.0.as_str()
    }

    /// The text of the key, owned.
    pub fn get_string(self) -> (text: String)
        ensures
            text@ == self@,
    {
        self.0
    }

    /// A copy of the key.
    pub fn duplicate(&self) -> (copy: StringKey)
        ensures
            copy@ == self@,
            copy.wf() == self.wf(),
    {
        StringKey(self.0.clone())
    }

    /// Normalizing is idempotent: the text of a key is accepted again and
    /// stands for the same key, and a key made from a text holds the lower
    /// case of that text.
    pub proof fn lemma_normalize_idempotent(text: Seq<char>)
        requires
            Self::normalize(text) is Ok,
        ensures
            Self::normalize(text)->Ok_0 == lower(text),
            Self::valid(Self::normalize(text)->Ok_0),
            Self::normalize(Self::normalize(text)->Ok_0) == Self::normalize(text),
    {
        lemma_lower_idempotent(text);
    }

    /// Text that differs only in the case of its letters stands for the same key.
    pub proof fn lemma_normalize_ignores_case(a: Seq<char>, b: Seq<char>)
        requires
            lower(a) == lower(b),
            is_ascii_chars(a),
            is_ascii_chars(b),
        ensures
            Self::normalize(a) == Self::normalize(b),
    {
        assert(lower(a).len() == a.len());
        assert(lower(b).len() == b.len());
    }
}

impl Key for StringKey {
    open spec fn bytes(&self) -> Seq<u8> {
        encode_utf8(self@)
    }

    open spec fn wf(&self) -> bool {
        StringKey::valid(self@)
    }

    open spec fn accept(raw: Seq<u8>) -> Result<Seq<u8>, ErrorKind> {
        if !is_ascii_bytes(raw) {
            Err(ErrorKind::InvalidKey)
        } else if raw.len() > 255 {
            Err(ErrorKind::KeyTooLong)
        } else {
            Ok(lower_bytes(raw))
        }
    }

    fn from_slice(key: &[u8]) -> (made: Result<StringKey, Error>) {
        let mut i: usize = 0;
        while i < key.len()
            invariant
                i <= key@.len(),
                is_ascii_bytes(key@.subrange(0, i as int)),
            decreases key@.len() - i,
        {
            if *slice_index_get(key, i) >= 0x80 {
                assert(!is_ascii_bytes(key@)) by {
                    assert(key@[i as int] >= 0x80);
                }
                return Err(Error::of(ErrorKind::InvalidKey));
            }
            i = i + 1;
            assert(is_ascii_bytes(key@.subrange(0, i as int))) by {
                assert forall|j: int| 0 <= j < i implies #[trigger] key@.subrange(0, i as int)[j]
                    < 0x80 by {
                    if j < i - 1 {
                        assert(key@.subrange(0, i - 1)[j] < 0x80);
                    }
                }
            }
        }
        assert(key@.subrange(0, i as int) =~= key@);
        if key.len() > 255 {
            return Err(Error::of(ErrorKind::KeyTooLong));
        }
        let lowered = lowercase_ascii(key);
        proof {
            lemma_ascii_bytes_chars(lowered@);
            let text = chars_of(lowered@);
            assert(is_lower(text));
        }
        Ok(StringKey(ascii_to_string(lowered)))
    }

    fn as_slice(&self) -> (bytes: &[u8]) {
        self.0.as_str().as_bytes()
    }

    proof fn lemma_accepts_own_bytes(&self) {
        lemma_ascii_chars_bytes(self@);
        lemma_lower_of_lower(self@);
    }

    proof fn lemma_refusal_is_final(raw: Seq<u8>) {
    }
}

/// A key of exactly `LEN` arbitrary bytes.
#[derive(Debug, Clone, Copy, PartialEq, Eq, Hash)]
pub struct RawKey<const LEN: usize>([u8; LEN]);

impl<const LEN: usize> View for RawKey<LEN> {
    type V = Seq<u8>;

    closed spec fn view(&self) -> Seq<u8> {
        self.0@
    }
}

/// `rand::thread_rng` and `RngCore::try_fill_bytes` of rand: an array filled
/// with random bytes, or the text of the generator's error. Nothing is claimed
/// of the bytes, nor of the text.
#[verifier::external_body]
fn random_bytes<const LEN: usize>() -> (outcome: Result<[u8; LEN], String>) {
    let mut bytes = [0u8; LEN];
    match rand::RngCore::try_fill_bytes(&mut rand::thread_rng(), &mut bytes) {
        Ok(()) => Ok(bytes),
        Err(e) => Err(format!("{}", e)),
    }
}

impl<const LEN: usize> RawKey<LEN> {
    /// The key that the outcome of drawing `LEN` random bytes stands for: the
    /// key of those bytes, or an error of kind `Other` that holds the text of
    /// the cause.
    pub fn from_random(outcome: Result<[u8; LEN], String>) -> (made: Result<Self, Error>)
        ensures
            match made {
                Ok(k) => outcome is Ok && k@ == outcome->Ok_0@,
                Err(e) => {
                    &&& outcome is Err
                    &&& e.kind == ErrorKind::Other
                    &&& e.message@ == "Could not draw a random key"@
                    &&& e.inner == Some(outcome->Err_0)
                },
            },
    {
        match outcome {
            Ok(bytes) => Ok(RawKey(bytes)),
            Err(cause) => Err(Error::new_with_inner("Could not draw a random key", cause)),
        }
    }

    /// A key of random bytes; an error of kind `Other` where the random
    /// generator fails.
    pub fn new_random() -> (made: Result<Self, Error>)
        ensures
            made matches Err(e) ==> e.kind == ErrorKind::Other,
    {
        Self::from_random(random_bytes::<LEN>())
    }

    /// The key as text: its bytes in hexadecimal and its length, as in
    /// `(0a0b, len=2)`.
    pub fn to_text(&self) -> (text: String)
        ensures
            text@ == "("@ + hex_digits(self@) + ", len="@ + decimal(LEN as nat) + ")"@,
    {
        let mut text = "(".to_owned();
        let digits = hex_encode(self.0.as_slice());
        text.append(digits.as_str());
        text.append(", len=");
        let len = to_decimal(LEN as u64);
        text.append(len.as_str());
        text.append(")");
        text
    }
}

impl<const LEN: usize> Key for RawKey<LEN> {
    open spec fn bytes(&self) -> Seq<u8> {
        self@
    }

    open spec fn wf(&self) -> bool {
        self@.len() == LEN
    }

    open spec fn accept(raw: Seq<u8>) -> Result<Seq<u8>, ErrorKind> {
        if raw.len() != LEN {
            Err(ErrorKind::InvalidKeyLength)
        } else {
            Ok(raw)
        }
    }

    fn from_slice(key: &[u8]) -> (made: Result<Self, Error>) {
        if key.len() != LEN {
            return Err(Error::of(ErrorKind::InvalidKeyLength));
        }
        let mut bytes = [0u8; LEN];
        let mut i: usize = 0;
        while i < LEN
            invariant
                i <= LEN == key@.len(),
                bytes@.len() == LEN,
                bytes@.subrange(0, i as int) == key@.subrange(0, i as int),
            decreases LEN - i,
        {
            bytes[i] = key[i];
            i = i + 1;
            assert(bytes@.subrange(0, i as int) =~= key@.subrange(0, i as int)) by {
                assert forall|j: int| 0 <= j < i implies bytes@[j] == key@[j] by {
                    if j < i - 1 {
                        assert(bytes@.subrange(0, i - 1)[j] == key@.subrange(0, i - 1)[j]);
                    }
                }
            }
        }
        assert(bytes@ =~= key@) by {
            assert(bytes@.subrange(0, i as int) =~= bytes@);
            assert(key@.subrange(0, i as int) =~= key@);
        }
        Ok(RawKey(bytes))
    }

    fn as_slice(&self) -> (bytes: &[u8]) {
        self.0.as_slice()
    }

    proof fn lemma_accepts_own_bytes(&self) {
    }

    proof fn lemma_refusal_is_final(raw: Seq<u8>) {
    }
}

} // verus!
