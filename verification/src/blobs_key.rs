//! Keys of the blobs table, `topic_id:author:sequence_number:uuid`, and the
//! prefixes used for range queries over them. The sequence number is
//! zero-padded to 20 digits so that keys sort by it.
use vstd::prelude::*;
use crate::text::{
    append_chars, append_str, chars_of, contains_char, decimal, decimal_chars, fixed_digit_chars,
    fixed_digits, has_char, is_digit, is_prefix, lemma_lex_below_cap, lemma_lex_between_has_prefix,
    lemma_lex_common_prefix, lemma_lex_extend, lemma_lex_prefix_le, lemma_fixed_digits_order, lex_le,
    lex_lt, max_char, lemma_below_max_char, lemma_fixed_digits, lemma_fixed_digits_value,
    lemma_parse_digits, lemma_split_join, lemma_split_no_sep, lemma_u64_below_pow10_20,
    parse_unsigned, parse_unsigned_chars, split_chars, split_on, string_from_chars, IntErrorKind,
};
use crate::uuid_text::{
    hex_fixed, is_hex_lower, lemma_hex_fixed, lemma_uuid_text_parses, lemma_uuid_text_shape, uuid_from_text, uuid_now_v7, uuid_parse_str, uuid_text, uuid_to_text,
};

verus! {

/// Error type for blobs key operations
#[derive(Debug)]
pub enum BlobsKeyError {
    /// Topic ID contains invalid character ':'
    InvalidTopicId(String),
    /// Author contains invalid character ':'
    InvalidAuthor(String),
    /// Failed to parse key
    ParseError(String),
    /// The system clock stands before the Unix epoch, so no UUID v7 can be
    /// made for the key.
    ClockBeforeEpoch,
}

/// Key for BLOBS_TABLE: "topic_id:author:sequence_number:uuid_v7"
/// Sequence number is zero-padded to 20 digits for correct lexicographic ordering.
#[derive(Debug, Clone, PartialEq, Eq)]
pub struct BlobsKey {
    pub topic_id: String,
    pub author: String,
    pub sequence_number: u64,
    /// The UUID's 128-bit value.
    pub uuid: u128,
}

/// The value of a [`BlobsKey`].
pub ghost struct BlobsKeyView {
    pub topic_id: Seq<char>,
    pub author: Seq<char>,
    pub sequence_number: u64,
    pub uuid: u128,
}

impl View for BlobsKey {
    type V = BlobsKeyView;

    open spec fn view(&self) -> BlobsKeyView {
        BlobsKeyView {
            topic_id: self.topic_id@,
            author: self.author@,
            sequence_number: self.sequence_number,
            uuid: self.uuid,
        }
    }
}

/// Key for the watermarks table: "topic_id:author".
#[derive(Debug, Clone, PartialEq, Eq)]
pub struct WatermarksKey {
    pub topic_id: String,
    pub author: String,
}

/// A topic or author may be part of a key when it holds no `:`.
pub open spec fn valid_key_part(s: Seq<char>) -> bool {
    !has_char(s, ':')
}

impl BlobsKeyView {
    /// Both text parts of the key are free of `:`.
    pub open spec fn well_formed(self) -> bool {
        valid_key_part(self.topic_id) && valid_key_part(self.author)
    }
}

/// The text of a key: `topic_id:author:{sequence_number:020}:{uuid}`.
pub open spec fn key_text(k: BlobsKeyView) -> Seq<char> {
    k.topic_id + seq![':'] + k.author + seq![':'] + fixed_digits(k.sequence_number as nat, 20)
        + seq![':'] + uuid_text(k.uuid)
}

/// Why a text is not a key.
pub ghost enum KeyParseFailure {
    /// The text has fewer than 4 `:`-separated parts; the number of parts.
    TooFewParts(nat),
    /// The third part is not a `u64`.
    BadSequence(Seq<char>, IntErrorKind),
    /// The fourth part is not a UUID.
    BadUuid(Seq<char>),
}

/// How [`BlobsKey::parse`] reads a text: the first four `:`-separated parts
/// are topic, author, sequence number and UUID; further parts are ignored.
pub open spec fn parse_key_text(s: Seq<char>) -> Result<BlobsKeyView, KeyParseFailure> {
    let parts = split_on(s, ':');
    if parts.len() < 4 {
        Err(KeyParseFailure::TooFewParts(parts.len()))
    } else {
        match parse_unsigned(parts[2], u64::MAX as nat) {
            Err(e) => Err(KeyParseFailure::BadSequence(parts[2], e)),
            Ok(n) => match uuid_parse_str(parts[3]) {
                None => Err(KeyParseFailure::BadUuid(parts[3])),
                Some(u) => Ok(
                    BlobsKeyView {
                        topic_id: parts[0],
                        author: parts[1],
                        sequence_number: n as u64,
                        uuid: u,
                    },
                ),
            },
        }
    }
}

/// A key's text reads back as the same key: parsing what `to_string`
/// writes gives the key again, for keys whose topic and author hold no `:`.
pub proof fn lemma_blobs_key_roundtrip(k: BlobsKeyView)
    requires
        k.well_formed(),
    ensures
        parse_key_text(key_text(k)) == Ok::<BlobsKeyView, KeyParseFailure>(k),
{
    lemma_uuid_text_parses(k.uuid);
    lemma_key_text_parts(k);
    lemma_fixed_digits(k.sequence_number as nat, 20);
    lemma_u64_below_pow10_20(k.sequence_number);
    lemma_fixed_digits_value(k.sequence_number as nat, 20);
    lemma_parse_digits(fixed_digits(k.sequence_number as nat, 20), u64::MAX as nat);
}

/// The message of `ParseIntError` for each kind of failure.
pub open spec fn int_error_message(e: IntErrorKind) -> Seq<char> {
    match e {
        IntErrorKind::Empty => "cannot parse integer from empty string"@,
        IntErrorKind::InvalidDigit => "invalid digit found in string"@,
        IntErrorKind::PosOverflow => "number too large to fit in target type"@,
    }
}

/// The message of a [`BlobsKeyError::ParseError`] for each failure; for a bad
/// UUID, the part of the message that precedes the `uuid` crate's own text.
pub open spec fn parse_failure_message(f: KeyParseFailure) -> Seq<char> {
    match f {
        KeyParseFailure::TooFewParts(n) => "Expected 4 parts, got "@ + decimal(n),
        KeyParseFailure::BadSequence(p, e) => "Invalid sequence number '"@ + p + "': "@
            + int_error_message(e),
        KeyParseFailure::BadUuid(p) => "Invalid UUID '"@ + p + "': "@,
    }
}

/// The message of `ParseIntError` for `e`.
pub fn int_error_text(e: IntErrorKind) -> (s: &'static str)
    ensures
        s@ == int_error_message(e),
{
    match e {
        IntErrorKind::Empty => "cannot parse integer from empty string",
        IntErrorKind::InvalidDigit => "invalid digit found in string",
        IntErrorKind::PosOverflow => "number too large to fit in target type",
    }
}

/// The text that `uuid::Error` displays. Its wording is the `uuid` crate's
/// and is not stated here.
#[verifier::external_body]
fn uuid_error_text(e: &uuid::Error) -> String {
    e.to_string()
}

impl BlobsKey {
    /// Creates a new BlobsKey with validation
    pub fn new(topic_id: String, author: String, sequence_number: u64, uuid: u128) -> (r: Result<
        Self,
        BlobsKeyError,
    >)
        ensures
            match r {
                Ok(k) => valid_key_part(topic_id@) && valid_key_part(author@) && k@ == BlobsKeyView {
                    topic_id: topic_id@,
                    author: author@,
                    sequence_number,
                    uuid,
                },
                Err(BlobsKeyError::InvalidTopicId(t)) => !valid_key_part(topic_id@) && t@
                    == topic_id@,
                Err(BlobsKeyError::InvalidAuthor(a)) => valid_key_part(topic_id@)
                    && !valid_key_part(author@) && a@ == author@,
                Err(BlobsKeyError::ParseError(_)) => false,
                Err(BlobsKeyError::ClockBeforeEpoch) => false,
            },
    {
        let t = chars_of(topic_id.as_str());
        if contains_char(&t, ':') {
            return Err(BlobsKeyError::InvalidTopicId(topic_id));
        }
        let a = chars_of(author.as_str());
        if contains_char(&a, ':') {
            return Err(BlobsKeyError::InvalidAuthor(author));
        }
        Ok(Self { topic_id, author, sequence_number, uuid })
    }

    /// Creates a new BlobsKey with a fresh UUID v7 timestamp, counted by
    /// `clock`; where the system
    /// clock stands before the Unix epoch, the clock's error.
    pub fn new_now(
        clock: &uuid::ContextV7,
        topic_id: String,
        author: String,
        sequence_number: u64,
    ) -> (r: Result<
        Self,
        BlobsKeyError,
    >)
        ensures
            match r {
                Ok(k) => valid_key_part(topic_id@) && valid_key_part(author@) && k.topic_id@
                    == topic_id@ && k.author@ == author@ && k.sequence_number == sequence_number,
                Err(BlobsKeyError::InvalidTopicId(t)) => !valid_key_part(topic_id@) && t@
                    == topic_id@,
                Err(BlobsKeyError::InvalidAuthor(a)) => valid_key_part(topic_id@)
                    && !valid_key_part(author@) && a@ == author@,
                Err(BlobsKeyError::ParseError(_)) => false,
                Err(BlobsKeyError::ClockBeforeEpoch) => true,
            },
    {
        let uuid = match uuid_now_v7(clock) {
            Some(u) => u,
            None => return Err(BlobsKeyError::ClockBeforeEpoch),
        };
        Self::new(topic_id, author, sequence_number, uuid)
    }

    /// The key's text, `topic_id:author:{sequence_number:020}:{uuid}`, which
    /// [`BlobsKey::parse`] reads back as the same key.
    pub fn to_string(&self) -> (s: String)
        ensures
            s@ == key_text(self@),
            self@.well_formed() ==> parse_key_text(s@) == Ok::<BlobsKeyView, KeyParseFailure>(
                self@,
            ),
    {
        let mut v = chars_of(self.topic_id.as_str());
        v.push(':');
        let a = chars_of(self.author.as_str());
        append_chars(&mut v, &a);
        v.push(':');
        let d = fixed_digit_chars(self.sequence_number, 20);
        append_chars(&mut v, &d);
        v.push(':');
        let u = uuid_to_text(self.uuid);
        let uc = chars_of(u.as_str());
        append_chars(&mut v, &uc);
        proof {
            assert(v@ =~= key_text(self@));
            if self@.well_formed() {
                lemma_uuid_text_parses(self.uuid);
                lemma_key_text_parts(self@);
                lemma_fixed_digits(self.sequence_number as nat, 20);
                lemma_u64_below_pow10_20(self.sequence_number);
                lemma_fixed_digits_value(self.sequence_number as nat, 20);
                lemma_parse_digits(fixed_digits(self.sequence_number as nat, 20), u64::MAX as nat);
            }
        }
        string_from_chars(&v)
    }

    /// Parses a BlobsKey from its string representation
    pub fn parse(s: &str) -> (r: Result<Self, BlobsKeyError>)
        ensures
            match r {
                Ok(k) => parse_key_text(s@) == Ok::<BlobsKeyView, KeyParseFailure>(k@),
                Err(BlobsKeyError::ParseError(m)) => match parse_key_text(s@) {
                    Ok(_) => false,
                    Err(f) => match f {
                        KeyParseFailure::BadUuid(_) => is_prefix(parse_failure_message(f), m@),
                        _ => m@ == parse_failure_message(f),
                    },
                },
                Err(_) => false,
            },
    {
        let chars = chars_of(s);
        let parts = split_chars(&chars, ':');
        if parts.len() < 4 {
            let mut m: Vec<char> = Vec::new();
            append_str(&mut m, "Expected 4 parts, got ");
            let n = decimal_chars(parts.len() as u64);
            append_chars(&mut m, &n);
            return Err(BlobsKeyError::ParseError(string_from_chars(&m)));
        }
        assert(parts@[2]@ == split_on(s@, ':')[2]);
        assert(parts@[3]@ == split_on(s@, ':')[3]);
        let sequence_number = match parse_unsigned_chars(&parts[2], u64::MAX) {
            Ok(n) => n,
            Err(e) => {
                let mut m: Vec<char> = Vec::new();
                append_str(&mut m, "Invalid sequence number '");
                append_chars(&mut m, &parts[2]);
                append_str(&mut m, "': ");
                append_str(&mut m, int_error_text(e));
                return Err(BlobsKeyError::ParseError(string_from_chars(&m)));
            },
        };
        let uuid_part = string_from_chars(&parts[3]);
        let uuid = match uuid_from_text(uuid_part.as_str()) {
            Ok(u) => u,
            Err(e) => {
                let mut m: Vec<char> = Vec::new();
                append_str(&mut m, "Invalid UUID '");
                append_chars(&mut m, &parts[3]);
                append_str(&mut m, "': ");
                let ghost head = m@;
                let et = uuid_error_text(&e);
                append_str(&mut m, et.as_str());
                assert(m@.take(head.len() as int) =~= head);
                return Err(BlobsKeyError::ParseError(string_from_chars(&m)));
            },
        };
        let topic_id = string_from_chars(&parts[0]);
        let author = string_from_chars(&parts[1]);
        Ok(Self { topic_id, author, sequence_number, uuid })
    }

    /// Extracts the WatermarksKey (topic_id:author) from this BlobsKey
    pub fn watermarks_key(&self) -> (w: WatermarksKey)
        requires
            self@.well_formed(),
        ensures
            w.topic_id@ == self.topic_id@,
            w.author@ == self.author@,
    {
        match WatermarksKey::new(self.topic_id.clone(), self.author.clone()) {
            Ok(w) => w,
            Err(_) => {
                // no key part of a well-formed key holds a ':'
                proof {
                    assert(false);
                }
                WatermarksKey { topic_id: String::new(), author: String::new() }
            },
        }
    }
}

impl WatermarksKey {
    /// Creates a new WatermarksKey with validation
    pub fn new(topic_id: String, author: String) -> (r: Result<Self, BlobsKeyError>)
        ensures
            match r {
                Ok(w) => valid_key_part(topic_id@) && valid_key_part(author@) && w.topic_id@
                    == topic_id@ && w.author@ == author@,
                Err(BlobsKeyError::InvalidTopicId(t)) => !valid_key_part(topic_id@) && t@
                    == topic_id@,
                Err(BlobsKeyError::InvalidAuthor(a)) => valid_key_part(topic_id@)
                    && !valid_key_part(author@) && a@ == author@,
                Err(BlobsKeyError::ParseError(_)) => false,
                Err(BlobsKeyError::ClockBeforeEpoch) => false,
            },
    {
        let t = chars_of(topic_id.as_str());
        if contains_char(&t, ':') {
            return Err(BlobsKeyError::InvalidTopicId(topic_id));
        }
        let a = chars_of(author.as_str());
        if contains_char(&a, ':') {
            return Err(BlobsKeyError::InvalidAuthor(author));
        }
        Ok(Self { topic_id, author })
    }
}

/// Partial key for prefix-based range queries on BLOBS_TABLE
#[derive(Debug, Clone)]
pub enum BlobsKeyPrefix {
    /// Match all keys for a topic: "topic_id:"
    Topic(String),
    /// Match all keys for a topic:author: "topic_id:author:"
    TopicAuthor(String, String),
    /// Match all keys for a topic:author:seq: "topic_id:author:seq:"
    TopicAuthorSeq(String, String, u64),
}

/// The text with which every key under the prefix begins.
pub open spec fn prefix_text(p: BlobsKeyPrefix) -> Seq<char> {
    match p {
        BlobsKeyPrefix::Topic(t) => t@ + seq![':'],
        BlobsKeyPrefix::TopicAuthor(t, a) => t@ + seq![':'] + a@ + seq![':'],
        BlobsKeyPrefix::TopicAuthorSeq(t, a, n) => t@ + seq![':'] + a@ + seq![':']
            + fixed_digits(n as nat, 20) + seq![':'],
    }
}

/// The key has the topic (and author, and sequence number) that the prefix names.
pub open spec fn prefix_matches(p: BlobsKeyPrefix, k: BlobsKeyView) -> bool {
    match p {
        BlobsKeyPrefix::Topic(t) => k.topic_id == t@,
        BlobsKeyPrefix::TopicAuthor(t, a) => k.topic_id == t@ && k.author == a@,
        BlobsKeyPrefix::TopicAuthorSeq(t, a, n) => k.topic_id == t@ && k.author == a@
            && k.sequence_number == n,
    }
}

impl BlobsKeyPrefix {
    /// The key of the prefix's parts with the least values for the rest
    /// (empty author, sequence number 0, nil UUID). For a prefix that names
    /// the author, its text sorts at or before every key under the prefix; for
    /// a topic prefix, only before the keys whose author does not begin with
    /// a character below `:`. [`BlobsKeyPrefix::range_start`] is the bound
    /// that holds for every key.
    pub fn range_start_key(&self) -> (k: BlobsKey)
        ensures
            k@ == match *self {
                BlobsKeyPrefix::Topic(t) => BlobsKeyView {
                    topic_id: t@,
                    author: Seq::empty(),
                    sequence_number: 0,
                    uuid: 0,
                },
                BlobsKeyPrefix::TopicAuthor(t, a) => BlobsKeyView {
                    topic_id: t@,
                    author: a@,
                    sequence_number: 0,
                    uuid: 0,
                },
                BlobsKeyPrefix::TopicAuthorSeq(t, a, n) => BlobsKeyView {
                    topic_id: t@,
                    author: a@,
                    sequence_number: n,
                    uuid: 0,
                },
            },
    {
        match self {
            BlobsKeyPrefix::Topic(topic) => BlobsKey {
                topic_id: topic.clone(),
                author: String::new(),
                sequence_number: 0,
                uuid: 0,
            },
            BlobsKeyPrefix::TopicAuthor(topic, author) => BlobsKey {
                topic_id: topic.clone(),
                author: author.clone(),
                sequence_number: 0,
                uuid: 0,
            },
            BlobsKeyPrefix::TopicAuthorSeq(topic, author, seq) => BlobsKey {
                topic_id: topic.clone(),
                author: author.clone(),
                sequence_number: *seq,
                uuid: 0,
            },
        }
    }

    /// Returns a BlobsKey for the upper bound of a range query (exclusive).
    /// Uses maximal values for unspecified parts.
    pub fn range_end_key(&self) -> (k: BlobsKey)
        ensures
            k@ == match *self {
                BlobsKeyPrefix::Topic(t) => BlobsKeyView {
                    topic_id: t@,
                    author: seq![max_char()],
                    sequence_number: u64::MAX,
                    uuid: u128::MAX,
                },
                BlobsKeyPrefix::TopicAuthor(t, a) => BlobsKeyView {
                    topic_id: t@,
                    author: a@,
                    sequence_number: u64::MAX,
                    uuid: u128::MAX,
                },
                BlobsKeyPrefix::TopicAuthorSeq(t, a, n) => BlobsKeyView {
                    topic_id: t@,
                    author: a@,
                    sequence_number: n,
                    uuid: u128::MAX,
                },
            },
    {
        match self {
            BlobsKeyPrefix::Topic(topic) => {
                // U+10FFFF is the highest Unicode code point, sorts after all valid authors
                let mut a: Vec<char> = Vec::new();
                a.push('\u{10FFFF}');
                proof {
                    assert(a@ =~= seq![max_char()]);
                }
                BlobsKey {
                    topic_id: topic.clone(),
                    author: string_from_chars(&a),
                    sequence_number: u64::MAX,
                    uuid: u128::MAX,
                }
            },
            BlobsKeyPrefix::TopicAuthor(topic, author) => BlobsKey {
                topic_id: topic.clone(),
                author: author.clone(),
                sequence_number: u64::MAX,
                uuid: u128::MAX,
            },
            BlobsKeyPrefix::TopicAuthorSeq(topic, author, seq) => BlobsKey {
                topic_id: topic.clone(),
                author: author.clone(),
                sequence_number: *seq,
                uuid: u128::MAX,
            },
        }
    }

    /// Returns the start bound for a range query as a string
    pub fn range_start(&self) -> (s: String)
        ensures
            s@ == prefix_text(*self),
    {
        let v = self.range_start_chars();
        string_from_chars(&v)
    }

    /// Returns the end bound for a range query (appends char::MAX)
    pub fn range_end(&self) -> (s: String)
        ensures
            s@ == prefix_text(*self).push(max_char()),
    {
        let mut v = self.range_start_chars();
        v.push('\u{10FFFF}');
        string_from_chars(&v)
    }

    fn range_start_chars(&self) -> (v: Vec<char>)
        ensures
            v@ == prefix_text(*self),
    {
        match self {
            BlobsKeyPrefix::Topic(topic) => {
                let mut v = chars_of(topic.as_str());
                v.push(':');
                v
            },
            BlobsKeyPrefix::TopicAuthor(topic, author) => {
                let mut v = chars_of(topic.as_str());
                v.push(':');
                append_str(&mut v, author.as_str());
                v.push(':');
                v
            },
            BlobsKeyPrefix::TopicAuthorSeq(topic, author, seq) => {
                let mut v = chars_of(topic.as_str());
                v.push(':');
                append_str(&mut v, author.as_str());
                v.push(':');
                let d = fixed_digit_chars(*seq, 20);
                append_chars(&mut v, &d);
                v.push(':');
                v
            },
        }
    }
}

/// Every key under a prefix lies in the range `[range_start, range_end)`
/// (for a topic prefix: when the author does not begin with the highest
/// code point, which sorts at the end of the range itself).
pub proof fn lemma_prefix_range_holds_matching_keys(p: BlobsKeyPrefix, k: BlobsKeyView)
    requires
        prefix_matches(p, k),
        p is Topic ==> k.author.len() == 0 || (k.author[0] as int) < (max_char() as int),
    ensures
        lex_le(prefix_text(p), key_text(k)),
        lex_lt(key_text(k), prefix_text(p).push(max_char())),
{
    let start = prefix_text(p);
    let t = key_text(k);
    let d = fixed_digits(k.sequence_number as nat, 20);
    let u = uuid_text(k.uuid);
    lemma_fixed_digits(k.sequence_number as nat, 20);
    lemma_uuid_text_shape(k.uuid);
    lemma_hex_fixed(k.uuid as nat, 32);
    match p {
        BlobsKeyPrefix::Topic(tp) => {
            assert(t =~= start + (k.author + seq![':'] + d + seq![':'] + u));
            let r = k.author + seq![':'] + d + seq![':'] + u;
            assert(r[0] == if k.author.len() == 0 { ':' } else { k.author[0] });
            assert(t.take(start.len() as int) =~= start);
        },
        BlobsKeyPrefix::TopicAuthor(tp, ap) => {
            assert(t =~= start + (d + seq![':'] + u));
            assert(is_digit(d[0]));
            assert(t.take(start.len() as int) =~= start);
        },
        BlobsKeyPrefix::TopicAuthorSeq(tp, ap, n) => {
            assert(t =~= start + u);
            let h = hex_fixed(k.uuid as nat, 32);
            assert(u[0] == h[0]);
            assert(is_hex_lower(h[0]));
            assert(t.take(start.len() as int) =~= start);
        },
    }
    assert(is_prefix(start, t));
    lemma_lex_prefix_le(start, t);
    lemma_lex_below_cap(start, t);
}

/// Every text in `[range_start, range_end)` begins with the prefix's text.
pub proof fn lemma_prefix_range_only_prefixed(p: BlobsKeyPrefix, t: Seq<char>)
    requires
        lex_le(prefix_text(p), t),
        lex_lt(t, prefix_text(p).push(max_char())),
    ensures
        is_prefix(prefix_text(p), t),
{
    lemma_lex_between_has_prefix(prefix_text(p), t);
}

/// Keys that differ only in their sequence number sort by it.
pub proof fn lemma_key_text_orders_by_sequence(a: BlobsKeyView, b: BlobsKeyView)
    requires
        a.topic_id == b.topic_id,
        a.author == b.author,
        a.uuid == b.uuid,
        a.sequence_number < b.sequence_number,
    ensures
        lex_lt(key_text(a), key_text(b)),
{
    let p = a.topic_id + seq![':'] + a.author + seq![':'];
    let da = fixed_digits(a.sequence_number as nat, 20);
    let db = fixed_digits(b.sequence_number as nat, 20);
    let r = seq![':'] + uuid_text(a.uuid);
    lemma_fixed_digits(a.sequence_number as nat, 20);
    lemma_fixed_digits(b.sequence_number as nat, 20);
    lemma_u64_below_pow10_20(b.sequence_number);
    lemma_fixed_digits_order(a.sequence_number as nat, b.sequence_number as nat, 20);
    lemma_lex_extend(da, db, r, r);
    lemma_lex_common_prefix(p, da + r, db + r);
    assert(key_text(a) =~= p + (da + r));
    assert(key_text(b) =~= p + (db + r));
}

/// The text of a well-formed key splits into its four parts.
pub proof fn lemma_key_text_parts(k: BlobsKeyView)
    requires
        k.well_formed(),
    ensures
        split_on(key_text(k), ':') == seq![
            k.topic_id,
            k.author,
            fixed_digits(k.sequence_number as nat, 20),
            uuid_text(k.uuid),
        ],
{
    let d = fixed_digits(k.sequence_number as nat, 20);
    let u = uuid_text(k.uuid);
    lemma_fixed_digits(k.sequence_number as nat, 20);
    lemma_uuid_text_shape(k.uuid);
    assert(!has_char(u, ':'));
    lemma_split_no_sep(k.topic_id, ':');
    lemma_split_no_sep(k.author, ':');
    lemma_split_no_sep(d, ':');
    lemma_split_no_sep(u, ':');
    lemma_split_join(k.topic_id, k.author, ':');
    lemma_split_join(k.topic_id + seq![':'] + k.author, d, ':');
    lemma_split_join(k.topic_id + seq![':'] + k.author + seq![':'] + d, u, ':');
}

/// The prefix names a topic (and an author) free of `:`.
pub open spec fn prefix_well_formed(p: BlobsKeyPrefix) -> bool {
    match p {
        BlobsKeyPrefix::Topic(t) => valid_key_part(t@),
        BlobsKeyPrefix::TopicAuthor(t, a) => valid_key_part(t@) && valid_key_part(a@),
        BlobsKeyPrefix::TopicAuthorSeq(t, a, _) => valid_key_part(t@) && valid_key_part(a@),
    }
}

/// A text opening with a `:`-free part and `:` begins with another such
/// opening only when the two parts are the same; what follows then begins
/// with what follows in the other.
proof fn lemma_same_first_part(x: Seq<char>, y: Seq<char>, r: Seq<char>, s: Seq<char>)
    requires
        valid_key_part(x),
        valid_key_part(y),
        is_prefix(x + seq![':'] + r, y + seq![':'] + s),
    ensures
        x == y,
        is_prefix(r, s),
{
    let p = x + seq![':'] + r;
    let t = y + seq![':'] + s;
    assert forall|i: int| 0 <= i < p.len() implies p[i] == t[i] by {
        assert(t.take(p.len() as int)[i] == t[i]);
    }
    if x.len() < y.len() {
        assert(p[x.len() as int] == ':');
        assert(t[x.len() as int] == y[x.len() as int]);
        assert(has_char(y, ':'));
    } else if x.len() > y.len() {
        assert(t[y.len() as int] == ':');
        assert(p[y.len() as int] == x[y.len() as int]);
        assert(has_char(x, ':'));
    }
    assert forall|i: int| 0 <= i < x.len() implies x[i] == y[i] by {
        assert(p[i] == x[i]);
        assert(t[i] == y[i]);
    }
    assert(x =~= y);
    assert forall|i: int| 0 <= i < r.len() implies s[i] == r[i] by {
        assert(p[x.len() + 1 + i] == r[i]);
        assert(t[y.len() + 1 + i] == s[i]);
    }
    assert(s.take(r.len() as int) =~= r);
}

/// A key begins with a prefix's text exactly when it has the topic (and
/// author, and sequence number) that the prefix names.
pub proof fn lemma_key_has_prefix_iff_matches(p: BlobsKeyPrefix, k: BlobsKeyView)
    requires
        k.well_formed(),
        prefix_well_formed(p),
    ensures
        is_prefix(prefix_text(p), key_text(k)) <==> prefix_matches(p, k),
{
    let d = fixed_digits(k.sequence_number as nat, 20);
    let u = uuid_text(k.uuid);
    let e = Seq::<char>::empty();
    let t = key_text(k);
    lemma_fixed_digits(k.sequence_number as nat, 20);
    assert(t =~= k.topic_id + seq![':'] + (k.author + seq![':'] + (d + seq![':'] + u)));
    assert((k.author + seq![':'] + (d + seq![':'] + u)) =~= k.author + seq![':'] + (d + seq![':']
        + u));
    match p {
        BlobsKeyPrefix::Topic(tp) => {
            assert(prefix_text(p) =~= tp@ + seq![':'] + e);
            if is_prefix(prefix_text(p), t) {
                lemma_same_first_part(tp@, k.topic_id, e, k.author + seq![':'] + (d + seq![':'] + u));
            }
            if prefix_matches(p, k) {
                assert(t.take(prefix_text(p).len() as int) =~= prefix_text(p));
            }
        },
        BlobsKeyPrefix::TopicAuthor(tp, ap) => {
            let rest = ap@ + seq![':'] + e;
            assert(prefix_text(p) =~= tp@ + seq![':'] + rest);
            if is_prefix(prefix_text(p), t) {
                lemma_same_first_part(tp@, k.topic_id, rest, k.author + seq![':'] + (d + seq![':'] + u));
                lemma_same_first_part(ap@, k.author, e, d + seq![':'] + u);
            }
            if prefix_matches(p, k) {
                assert(t.take(prefix_text(p).len() as int) =~= prefix_text(p));
            }
        },
        BlobsKeyPrefix::TopicAuthorSeq(tp, ap, n) => {
            let dn = fixed_digits(n as nat, 20);
            lemma_fixed_digits(n as nat, 20);
            let rest2 = dn + seq![':'];
            let rest = ap@ + seq![':'] + rest2;
            assert(prefix_text(p) =~= tp@ + seq![':'] + rest);
            if is_prefix(prefix_text(p), t) {
                lemma_same_first_part(tp@, k.topic_id, rest, k.author + seq![':'] + (d + seq![':'] + u));
                lemma_same_first_part(ap@, k.author, rest2, d + seq![':'] + u);
                assert(dn =~= d) by {
                    assert forall|i: int| 0 <= i < 20 implies dn[i] == d[i] by {
                        assert((d + seq![':'] + u).take(rest2.len() as int)[i] == rest2[i]);
                    }
                }
                lemma_u64_below_pow10_20(n);
                lemma_u64_below_pow10_20(k.sequence_number);
                lemma_fixed_digits_value(n as nat, 20);
                lemma_fixed_digits_value(k.sequence_number as nat, 20);
            }
            if prefix_matches(p, k) {
                assert(t.take(prefix_text(p).len() as int) =~= prefix_text(p));
            }
        },
    }
}

/// The range `[range_start, range_end)` holds exactly the texts that begin
/// with the prefix's text, among texts without the highest code point.
pub proof fn lemma_prefix_range_exact(p: BlobsKeyPrefix, t: Seq<char>)
    requires
        !has_char(t, max_char()),
    ensures
        (lex_le(prefix_text(p), t) && lex_lt(t, prefix_text(p).push(max_char()))) <==> is_prefix(
            prefix_text(p),
            t,
        ),
{
    let s = prefix_text(p);
    if lex_le(s, t) && lex_lt(t, s.push(max_char())) {
        lemma_lex_between_has_prefix(s, t);
    }
    if is_prefix(s, t) {
        lemma_lex_prefix_le(s, t);
        if t.len() > s.len() {
            let c = t[s.len() as int];
            assert(c != max_char());
            lemma_below_max_char(c);
        }
        lemma_lex_below_cap(s, t);
    }
}

} // verus!
