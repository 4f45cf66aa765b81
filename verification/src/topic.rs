//! Topics for pub/sub: 32-byte identifiers, written as 64 lowercase
//! hexadecimal digits.
//!
//! Each topic has a kind, a marker type: `Chat` for direct and group chats,
//! `Global` for the one global topic, and `Untyped` for topics read from the
//! wire.
use std::marker::PhantomData;
use vstd::prelude::*;

use crate::uuid_text::hex_char;

verus! {

// ---------------------------------------------------------------------------
// Hexadecimal text
// ---------------------------------------------------------------------------

/// A hexadecimal digit in either case.
pub open spec fn is_hex_digit(c: char) -> bool {
    ('0' <= c && c <= '9') || ('a' <= c && c <= 'f') || ('A' <= c && c <= 'F')
}

pub open spec fn all_hex(s: Seq<char>) -> bool {
    forall|i: int| 0 <= i < s.len() ==> is_hex_digit(#[trigger] s[i])
}

/// The value of a hexadecimal digit.
pub open spec fn hex_value(c: char) -> int {
    if '0' <= c && c <= '9' {
        c as int - '0' as int
    } else if 'a' <= c && c <= 'f' {
        c as int - 'a' as int + 10
    } else {
        c as int - 'A' as int + 10
    }
}

/// The bytes that an even number of hexadecimal digits spell, two digits a
/// byte, high digit first.
pub open spec fn hex_decoded(s: Seq<char>) -> Seq<u8> {
    Seq::new(s.len() / 2, |i: int| (hex_value(s[2 * i]) * 16 + hex_value(s[2 * i + 1])) as u8)
}

/// The lowercase hexadecimal text of `b`: two digits a byte, high digit
/// first.
pub open spec fn hex_lower(b: Seq<u8>) -> Seq<char> {
    Seq::new(
        2 * b.len(),
        |i: int|
            if i % 2 == 0 {
                hex_char(b[i / 2] as int / 16)
            } else {
                hex_char(b[i / 2] as int % 16)
            },
    )
}

/// Why a text is not hexadecimal bytes.
#[derive(Debug, Clone, Copy, PartialEq, Eq)]
pub enum HexError {
    /// A byte of the text that is not a hexadecimal digit, and its position.
    InvalidHexCharacter { c: char, index: usize },
    /// The text has an odd number of bytes.
    OddLength,
    /// The text does not spell the number of bytes wanted.
    InvalidStringLength,
}

/// `hex::encode`: the lowercase hexadecimal text of the bytes.
#[verifier::external_body]
pub(crate) fn hex_encode(bytes: &[u8]) -> (s: String)
    ensures
        s@ == hex_lower(bytes@),
{
    hex::encode(bytes)
}

/// `hex::decode`: the bytes that a hexadecimal text spells. It succeeds
/// exactly on texts of an even number of hexadecimal digits (either case);
/// an odd number of digits is `OddLength`. Which error a text with another
/// character gives (the crate looks at its bytes) is not stated.
#[verifier::external_body]
pub(crate) fn hex_decode(text: &str) -> (r: Result<Vec<u8>, HexError>)
    ensures
        r is Ok <==> (all_hex(text@) && text@.len() % 2 == 0),
        r is Ok ==> r->Ok_0@ == hex_decoded(text@),
        (all_hex(text@) && text@.len() % 2 == 1) ==> r matches Err(HexError::OddLength),
{
    match hex::decode(text) {
        Ok(b) => Ok(b),
        Err(hex::FromHexError::InvalidHexCharacter { c, index }) => Err(
            HexError::InvalidHexCharacter { c, index },
        ),
        Err(hex::FromHexError::OddLength) => Err(HexError::OddLength),
        Err(hex::FromHexError::InvalidStringLength) => Err(HexError::InvalidStringLength),
    }
}

/// The lowercase hexadecimal character of a nibble is a hexadecimal digit
/// of that value.
pub proof fn lemma_hex_char(n: int)
    requires
        0 <= n < 16,
    ensures
        is_hex_digit(hex_char(n)),
        hex_value(hex_char(n)) == n,
{
}

/// The lowercase text of bytes is hexadecimal, of even length, and spells
/// the bytes again.
pub proof fn lemma_hex_roundtrip(b: Seq<u8>)
    ensures
        all_hex(hex_lower(b)),
        hex_lower(b).len() % 2 == 0,
        hex_decoded(hex_lower(b)) == b,
{
    let t = hex_lower(b);
    assert forall|i: int| 0 <= i < t.len() implies is_hex_digit(#[trigger] t[i]) by {
        if i % 2 == 0 {
            lemma_hex_char(b[i / 2] as int / 16);
        } else {
            lemma_hex_char(b[i / 2] as int % 16);
        }
    }
    assert forall|i: int| 0 <= i < b.len() implies #[trigger] hex_decoded(t)[i] == b[i] by {
        assert((2 * i) / 2 == i);
        assert((2 * i + 1) / 2 == i);
        assert((2 * i) % 2 == 0);
        assert((2 * i + 1) % 2 == 1);
        lemma_hex_char(b[i] as int / 16);
        lemma_hex_char(b[i] as int % 16);
    }
    assert(hex_decoded(t) =~= b);
}

// ---------------------------------------------------------------------------
// Byte identifiers
// ---------------------------------------------------------------------------

/// Whether two 32-byte identifiers are the same.
pub fn same_id(a: &[u8; 32], b: &[u8; 32]) -> (r: bool)
    ensures
        r == (a@ == b@),
{
    let mut i: usize = 0;
    while i < 32
        invariant
            0 <= i <= 32,
            a@.len() == 32,
            b@.len() == 32,
            forall|k: int| 0 <= k < i ==> a@[k] == b@[k],
        decreases 32 - i,
    {
        if a[i] != b[i] {
            return false;
        }
        i = i + 1;
    }
    assert(a@ =~= b@);
    true
}

/// `a` comes strictly before `b` in the lexicographic byte order.
pub open spec fn bytes_lt(a: Seq<u8>, b: Seq<u8>) -> bool
    decreases a.len(),
{
    if a.len() == 0 {
        b.len() > 0
    } else if b.len() == 0 {
        false
    } else if a[0] != b[0] {
        a[0] < b[0]
    } else {
        bytes_lt(a.drop_first(), b.drop_first())
    }
}

/// Two different byte strings of one length are ordered one way round.
pub proof fn lemma_bytes_lt_total(a: Seq<u8>, b: Seq<u8>)
    requires
        a.len() == b.len(),
    ensures
        a != b ==> (bytes_lt(a, b) != bytes_lt(b, a)),
        a == b ==> !bytes_lt(a, b),
    decreases a.len(),
{
    if a.len() > 0 {
        lemma_bytes_lt_total(a.drop_first(), b.drop_first());
        if a[0] == b[0] && a.drop_first() == b.drop_first() {
            assert forall|i: int| 0 <= i < a.len() implies a[i] == b[i] by {
                if i > 0 {
                    assert(a[i] == a.drop_first()[i - 1]);
                    assert(b[i] == b.drop_first()[i - 1]);
                }
            }
            assert(a =~= b);
        }
    } else {
        assert(a =~= b);
    }
}

/// Whether `a` comes before `b` in the lexicographic byte order.
pub fn id_lt(a: &[u8; 32], b: &[u8; 32]) -> (r: bool)
    ensures
        r == bytes_lt(a@, b@),
{
    let mut i: usize = 0;
    assert(a@.skip(0) =~= a@);
    assert(b@.skip(0) =~= b@);
    while i < 32
        invariant
            0 <= i <= 32,
            a@.len() == 32,
            b@.len() == 32,
            forall|k: int| 0 <= k < i ==> a@[k] == b@[k],
            bytes_lt(a@, b@) == bytes_lt(a@.skip(i as int), b@.skip(i as int)),
        decreases 32 - i,
    {
        let x = a[i];
        let y = b[i];
        assert(a@.skip(i as int)[0] == x);
        assert(b@.skip(i as int)[0] == y);
        if x != y {
            return x < y;
        }
        assert(a@.skip(i as int).drop_first() =~= a@.skip(i + 1));
        assert(b@.skip(i as int).drop_first() =~= b@.skip(i + 1));
        i = i + 1;
    }
    assert(a@.skip(32).len() == 0);
    false
}

// ---------------------------------------------------------------------------
// Topics
// ---------------------------------------------------------------------------

/// The kind of direct and group chat topics.
pub struct Chat;

/// The kind of the global topic.
pub struct Global;

/// The kind of topics of no particular kind.
pub struct Untyped;

/// The identifier of a log, shared by all topics of the same bytes.
pub struct LogId(pub [u8; 32]);

/// A topic of kind `K`.
pub struct Topic<K> {
    pub id: [u8; 32],
    pub kind: PhantomData<K>,
}

impl<K> Topic<K> {
    fn new(id: [u8; 32]) -> (t: Self)
        ensures
            t.id == id,
    {
        Topic { id, kind: PhantomData }
    }

    /// The same bytes as a topic of another kind.
    pub fn recast<K2>(self) -> (t: Topic<K2>)
        ensures
            t.id == self.id,
    {
        Topic::new(self.id)
    }

    /// The topic's bytes.
    pub fn id(&self) -> (id: [u8; 32])
        ensures
            id == self.id,
    {
        self.id
    }

    /// The log of the topic.
    pub fn log_id(&self) -> (l: LogId)
        ensures
            l.0 == self.id,
    {
        LogId(self.id)
    }

    /// The topic as text: its bytes in lowercase hexadecimal.
    pub fn to_string(&self) -> (s: String)
        ensures
            s@ == hex_lower(self.id@),
    {
        hex_encode(self.id.as_slice())
    }
}

impl LogId {
    /// The log's bytes.
    pub fn id(&self) -> (id: [u8; 32])
        ensures
            id == self.0,
    {
        self.0
    }

    /// The log as text: its bytes in lowercase hexadecimal.
    pub fn to_string(&self) -> (s: String)
        ensures
            s@ == hex_lower(self.0@),
    {
        hex_encode(self.0.as_slice())
    }
}

impl Topic<Global> {
    /// The global topic: 32 bytes of `0xff`.
    pub fn global() -> (t: Self)
        ensures
            forall|i: int| 0 <= i < 32 ==> t.id@[i] == 255u8,
    {
        Topic::new([255u8; 32])
    }
}

/// `rand::random`: 32 random bytes. Nothing is stated of them.
#[verifier::external_body]
fn random_id() -> [u8; 32] {
    rand::random()
}

/// What blake3 makes of the bytes: the 32-byte hash of `data`.
pub uninterp spec fn blake3_digest(data: Seq<u8>) -> Seq<u8>;

/// `blake3::Hasher`, given `a` and then `b`: the hash of `a` followed by
/// `b`.
#[verifier::external_body]
fn blake3_of_pair(a: &[u8; 32], b: &[u8; 32]) -> (h: [u8; 32])
    ensures
        h@ == blake3_digest(a@ + b@),
{
    let mut hasher = blake3::Hasher::new();
    hasher.update(a);
    hasher.update(b);
    hasher.finalize().into()
}

/// The smaller of two keys in the byte order, then the larger.
pub open spec fn sorted_pair(a: Seq<u8>, b: Seq<u8>) -> Seq<u8> {
    if bytes_lt(b, a) {
        b + a
    } else {
        a + b
    }
}

impl Topic<Chat> {
    /// A fresh chat topic of random bytes.
    pub fn random() -> (t: Self) {
        Topic::new(random_id())
    }

    /// The direct chat topic of two agents: the hash of their keys, the
    /// smaller one first.
    pub fn direct_chat(pks: [[u8; 32]; 2]) -> (t: Self)
        ensures
            t.id@ == blake3_digest(sorted_pair(pks@[0]@, pks@[1]@)),
    {
        let a = pks[0];
        let b = pks[1];
        if id_lt(&b, &a) {
            Topic::new(blake3_of_pair(&b, &a))
        } else {
            Topic::new(blake3_of_pair(&a, &b))
        }
    }
}

impl Topic<Untyped> {
    /// The topic of no particular kind with the given bytes.
    pub fn untyped(id: [u8; 32]) -> (t: Self)
        ensures
            t.id == id,
    {
        Topic::new(id)
    }
}

/// Why a text is not a topic.
#[derive(Debug, Clone, Copy, PartialEq, Eq)]
pub enum TopicParseError {
    /// The text is not hexadecimal bytes.
    Hex(HexError),
    /// The text spells this many bytes, not 32.
    InvalidLength(usize),
}

impl Topic<Untyped> {
    /// Reads a topic from its text: 64 hexadecimal digits, in either case.
    pub fn from_str(s: &str) -> (r: Result<Self, TopicParseError>)
        ensures
            r is Ok <==> all_hex(s@) && s@.len() == 64,
            r matches Ok(t) ==> t.id@ == hex_decoded(s@),
            all_hex(s@) && s@.len() % 2 == 1 ==> r == Err::<Self, TopicParseError>(
                TopicParseError::Hex(HexError::OddLength),
            ),
            all_hex(s@) && s@.len() % 2 == 0 && s@.len() != 64 ==> r == Err::<
                Self,
                TopicParseError,
            >(TopicParseError::InvalidLength((s@.len() / 2) as usize)),
    {
        match hex_decode(s) {
            Err(e) => Err(TopicParseError::Hex(e)),
            Ok(bytes) => {
                if bytes.len() != 32 {
                    return Err(TopicParseError::InvalidLength(bytes.len()));
                }
                let mut id = [0u8; 32];
                let mut i: usize = 0;
                while i < 32
                    invariant
                        0 <= i <= 32,
                        bytes@.len() == 32,
                        id@.len() == 32,
                        forall|k: int| 0 <= k < i ==> id@[k] == bytes@[k],
                    decreases 32 - i,
                {
                    id.set(i, bytes[i]);
                    i = i + 1;
                }
                assert(id@ =~= bytes@);
                Ok(Topic::untyped(id))
            },
        }
    }
}

/// A direct chat topic does not depend on the order of the two agents.
pub proof fn lemma_direct_chat_symmetric(a: Seq<u8>, b: Seq<u8>)
    requires
        a.len() == b.len(),
    ensures
        sorted_pair(a, b) == sorted_pair(b, a),
{
    lemma_bytes_lt_total(a, b);
}

/// A direct chat topic hashes the two keys, the smaller one in byte order
/// first: the hashed text is the two keys one after the other, and the first
/// of them does not come after the second.
pub proof fn lemma_direct_chat_smaller_key_first(a: Seq<u8>, b: Seq<u8>)
    requires
        a.len() == b.len(),
    ensures
        ({
            let n = a.len() as int;
            let first = sorted_pair(a, b).take(n);
            let second = sorted_pair(a, b).skip(n);
            &&& sorted_pair(a, b).len() == 2 * n
            &&& (first == a && second == b) || (first == b && second == a)
            &&& !bytes_lt(second, first)
        }),
{
    lemma_bytes_lt_total(a, b);
    let n = a.len() as int;
    assert((a + b).take(n) =~= a);
    assert((a + b).skip(n) =~= b);
    assert((b + a).take(n) =~= b);
    assert((b + a).skip(n) =~= a);
}

/// A topic's text reads back as the same topic.
pub proof fn lemma_topic_text_roundtrip(id: Seq<u8>)
    requires
        id.len() == 32,
    ensures
        all_hex(hex_lower(id)),
        hex_lower(id).len() == 64,
        hex_decoded(hex_lower(id)) == id,
{
    lemma_hex_roundtrip(id);
}

} // verus!
