//! Whole messages kept per topic: each is stored under `topic_id:uuid`, and
//! a request for topics gets back every message stored under each of them.
use vstd::prelude::*;

use crate::text::{
    append_chars, append_str, chars_of, is_prefix, lemma_lex_below_cap,
    lemma_lex_between_has_prefix, lemma_lex_prefix_le, lex_le, lex_lt, max_char,
    string_from_chars,
};
use crate::uuid_text::{uuid_now_v7, uuid_text, uuid_to_text};

verus! {

/// A request for the messages of some topics.
pub struct GetMessagesRequest {
    pub topic_ids: Vec<String>,
}

/// The messages of each requested topic, in the order of their keys.
pub struct GetMessagesResponse {
    pub messages: Vec<(String, Vec<Vec<u8>>)>,
}

/// A message to store under a topic.
pub struct StoreMessageRequest {
    pub topic_id: String,
    pub message: Vec<u8>,
}

/// The key of a message stored under `topic` with UUID `u`.
pub open spec fn message_key_text(topic: Seq<char>, u: u128) -> Seq<char> {
    topic + seq![':'] + uuid_text(u)
}

/// The first key of a topic's range: the topic followed by `:`.
pub open spec fn range_start_text(topic: Seq<char>) -> Seq<char> {
    topic.push(':')
}

/// The end (excluded) of a topic's range: the start followed by the highest
/// code point.
pub open spec fn range_end_text(topic: Seq<char>) -> Seq<char> {
    topic.push(':').push(max_char())
}

/// `k` lies in `[start, end)`.
pub open spec fn in_range(k: Seq<char>, start: Seq<char>, end: Seq<char>) -> bool {
    lex_le(start, k) && lex_lt(k, end)
}

/// The values of the entries whose keys lie in `[start, end)`, in order.
pub open spec fn range_values(
    table: Seq<(String, Vec<u8>)>,
    start: Seq<char>,
    end: Seq<char>,
) -> Seq<Seq<u8>>
    decreases table.len(),
{
    if table.len() == 0 {
        Seq::empty()
    } else {
        let rest = range_values(table.drop_last(), start, end);
        if in_range(table.last().0@, start, end) {
            rest.push(table.last().1@)
        } else {
            rest
        }
    }
}

pub open spec fn bytes_views(v: Seq<Vec<u8>>) -> Seq<Seq<u8>> {
    v.map_values(|b: Vec<u8>| b@)
}

/// The texts of the first `n` requested topics, each once, in order of
/// first appearance.
pub open spec fn distinct_topics(topics: Seq<String>, n: nat) -> Seq<Seq<char>>
    decreases n,
{
    if n == 0 {
        Seq::empty()
    } else {
        let rest = distinct_topics(topics, (n - 1) as nat);
        if rest.contains(topics[n - 1]@) {
            rest
        } else {
            rest.push(topics[n - 1]@)
        }
    }
}

/// The response holds each requested topic once, in order of first
/// appearance, with the values stored in its range.
pub open spec fn messages_response(
    topics: Seq<String>,
    table: Seq<(String, Vec<u8>)>,
    resp: Seq<(String, Vec<Vec<u8>>)>,
) -> bool {
    let ts = distinct_topics(topics, topics.len());
    &&& resp.len() == ts.len()
    &&& forall|i: int|
        0 <= i < resp.len() ==> {
            &&& #[trigger] resp[i].0@ == ts[i]
            &&& bytes_views(resp[i].1@) == range_values(
                table,
                range_start_text(ts[i]),
                range_end_text(ts[i]),
            )
        }
}

/// Whether `a` comes strictly before `b` in the order of texts.
pub fn chars_lt(a: &Vec<char>, b: &Vec<char>) -> (r: bool)
    ensures
        r == lex_lt(a@, b@),
{
    let mut i: usize = 0;
    assert(a@.skip(0) =~= a@);
    assert(b@.skip(0) =~= b@);
    while i < a.len() && i < b.len()
        invariant
            0 <= i <= a@.len(),
            i <= b@.len(),
            lex_lt(a@, b@) == lex_lt(a@.skip(i as int), b@.skip(i as int)),
        decreases a@.len() - i,
    {
        let x = a[i];
        let y = b[i];
        assert(a@.skip(i as int)[0] == x);
        assert(b@.skip(i as int)[0] == y);
        if x != y {
            return x < y;
        }
        assert(a@.skip(i as int).drop_first() =~= a@.skip(i + 1));
        assert(b@.skip(i as int).drop_first() =~= b@.skip(i + 1));
        i = i + 1;
    }
    i < b.len()
}

/// Whether two texts are the same.
fn same_chars(a: &Vec<char>, b: &Vec<char>) -> (r: bool)
    ensures
        r == (a@ == b@),
{
    if a.len() != b.len() {
        return false;
    }
    let mut i: usize = 0;
    while i < a.len()
        invariant
            a@.len() == b@.len(),
            0 <= i <= a@.len(),
            forall|k: int| 0 <= k < i ==> a@[k] == b@[k],
        decreases a@.len() - i,
    {
        if a[i] != b[i] {
            return false;
        }
        i = i + 1;
    }
    assert(a@ =~= b@);
    true
}

/// The range of keys `[topic:, topic:\u{10FFFF})` that holds a topic's
/// entries.
pub fn topic_range(topic_id: &str) -> (r: (String, String))
    ensures
        r.0@ == range_start_text(topic_id@),
        r.1@ == range_end_text(topic_id@),
{
    let mut start = chars_of(topic_id);
    start.push(':');
    let mut end = start.clone();
    assert(end@ =~= start@);
    end.push('\u{10FFFF}');
    (string_from_chars(&start), string_from_chars(&end))
}

/// The values of the table's entries whose keys lie in `[start, end)`, in
/// table order.
pub fn values_in_range(table: &Vec<(String, Vec<u8>)>, start: &Vec<char>, end: &Vec<char>) -> (r: Vec<
    Vec<u8>,
>)
    ensures
        bytes_views(r@) == range_values(table@, start@, end@),
{
    let mut out: Vec<Vec<u8>> = Vec::new();
    let mut i: usize = 0;
    while i < table.len()
        invariant
            0 <= i <= table@.len(),
            bytes_views(out@) == range_values(table@.take(i as int), start@, end@),
        decreases table@.len() - i,
    {
        assert(table@.take(i + 1).drop_last() == table@.take(i as int));
        let key = chars_of(table[i].0.as_str());
        let lower_ok = same_chars(start, &key) || chars_lt(start, &key);
        let upper_ok = chars_lt(&key, end);
        if lower_ok && upper_ok {
            let v = table[i].1.clone();
            assert(v@ =~= table@[i as int].1@);
            let ghost before = bytes_views(out@);
            out.push(v);
            assert(bytes_views(out@) =~= before.push(table@[i as int].1@));
        }
        i = i + 1;
    }
    assert(table@.take(i as int) == table@);
    out
}

/// The messages of the requested topics, read from the table of stored
/// messages (keys and values, in key order). Each topic is answered once,
/// in the order in which the request first names it, with the values of the
/// keys in its range.
pub fn messages_for_topics(request: &GetMessagesRequest, table: &Vec<(String, Vec<u8>)>) -> (r:
    GetMessagesResponse)
    ensures
        messages_response(request.topic_ids@, table@, r.messages@),
{
    let ghost topics = request.topic_ids@;
    let mut out: Vec<(String, Vec<Vec<u8>>)> = Vec::new();
    let mut seen: Vec<Vec<char>> = Vec::new();
    let mut i: usize = 0;
    assert(seen@.map_values(|c: Vec<char>| c@) =~= distinct_topics(topics, 0));
    while i < request.topic_ids.len()
        invariant
            0 <= i <= topics.len(),
            topics == request.topic_ids@,
            seen@.len() == out@.len(),
            seen@.map_values(|c: Vec<char>| c@) == distinct_topics(topics, i as nat),
            forall|k: int|
                0 <= k < out@.len() ==> {
                    &&& #[trigger] out@[k].0@ == seen@[k]@
                    &&& bytes_views(out@[k].1@) == range_values(
                        table@,
                        range_start_text(seen@[k]@),
                        range_end_text(seen@[k]@),
                    )
                },
        decreases topics.len() - i,
    {
        let topic = &request.topic_ids[i];
        let t = chars_of(topic.as_str());
        let ghost sv = seen@.map_values(|c: Vec<char>| c@);
        let mut found = false;
        let mut k: usize = 0;
        while k < seen.len()
            invariant
                0 <= k <= seen@.len(),
                sv == seen@.map_values(|c: Vec<char>| c@),
                !found ==> forall|j: int| 0 <= j < k ==> seen@[j]@ != t@,
                found ==> sv.contains(t@),
            decreases seen@.len() - k,
        {
            if same_chars(&seen[k], &t) {
                found = true;
                assert(sv[k as int] == t@);
            }
            k = k + 1;
        }
        proof {
            assert(topics[i as int]@ == t@);
            if !found {
                assert(!sv.contains(t@)) by {
                    if sv.contains(t@) {
                        let j = choose|j: int| 0 <= j < sv.len() && sv[j] == t@;
                        assert(seen@[j]@ == sv[j]);
                    }
                }
            }
        }
        if !found {
            let (start, end) = topic_range(topic.as_str());
            let sc = chars_of(start.as_str());
            let ec = chars_of(end.as_str());
            let values = values_in_range(table, &sc, &ec);
            let tc = topic.clone();
            out.push((tc, values));
            seen.push(t);
            assert(seen@.map_values(|c: Vec<char>| c@) =~= sv.push(topics[i as int]@));
        }
        i = i + 1;
    }
    GetMessagesResponse { messages: out }
}

/// The key of a new message: the topic, `:`, and a fresh time-ordered UUID
/// counted by `clock`;
/// `None` where the system clock stands before the epoch.
pub fn message_key(clock: &uuid::ContextV7, request: &StoreMessageRequest) -> (k: Option<String>)
    ensures
        k matches Some(k) ==> exists|u: u128| k@ == message_key_text(request.topic_id@, u),
{
    let u = match uuid_now_v7(clock) {
        Some(u) => u,
        None => return None,
    };
    let mut v = chars_of(request.topic_id.as_str());
    v.push(':');
    let t = uuid_to_text(u);
    append_str(&mut v, t.as_str());
    assert(v@ =~= message_key_text(request.topic_id@, u));
    Some(string_from_chars(&v))
}

/// A topic's range holds exactly the keys that begin with the topic and
/// `:` (among keys whose next character is not the highest code point).
pub proof fn lemma_topic_range_exactly_prefixed(topic: Seq<char>, k: Seq<char>)
    requires
        k.len() == topic.len() + 1 || (k.len() > topic.len() + 1 && (k[topic.len() as int + 1] as int) < (
        max_char() as int)),
    ensures
        in_range(k, range_start_text(topic), range_end_text(topic)) <==> is_prefix(
            range_start_text(topic),
            k,
        ),
{
    let p = range_start_text(topic);
    if is_prefix(p, k) {
        lemma_lex_prefix_le(p, k);
        lemma_lex_below_cap(p, k);
    }
    if in_range(k, p, range_end_text(topic)) {
        lemma_lex_between_has_prefix(p, k);
    }
}

/// A stored message's key lies in its topic's range, and in no other
/// topic's range (for topics without `:`).
pub proof fn lemma_message_key_in_own_range(topic: Seq<char>, other: Seq<char>, u: u128)
    requires
        !crate::text::has_char(topic, ':'),
        !crate::text::has_char(other, ':'),
    ensures
        in_range(message_key_text(topic, u), range_start_text(topic), range_end_text(topic)),
        other != topic ==> !in_range(
            message_key_text(topic, u),
            range_start_text(other),
            range_end_text(other),
        ),
{
    let k = message_key_text(topic, u);
    let p = range_start_text(topic);
    let q = range_start_text(other);
    crate::uuid_text::lemma_uuid_text_shape(u);
    crate::uuid_text::lemma_hex_fixed(u as nat, 32);
    assert(k.take(p.len() as int) =~= p);
    assert(k[topic.len() as int + 1] == uuid_text(u)[0]);
    assert(uuid_text(u)[0] == crate::uuid_text::hex_fixed(u as nat, 32)[0]);
    lemma_topic_range_exactly_prefixed(topic, k);
    if other != topic && in_range(k, q, range_end_text(other)) {
        lemma_lex_between_has_prefix(q, k);
        if other.len() < topic.len() {
            assert(k.take(q.len() as int)[other.len() as int] == ':');
            assert(k[other.len() as int] == topic[other.len() as int]);
            assert(topic[other.len() as int] == ':');
        } else if other.len() > topic.len() {
            assert(k[topic.len() as int] == ':');
            assert(k.take(q.len() as int)[topic.len() as int] == other[topic.len() as int]);
            assert(other[topic.len() as int] == ':');
        } else {
            assert forall|j: int| 0 <= j < topic.len() implies topic[j] == other[j] by {
                assert(k.take(q.len() as int)[j] == other[j]);
                assert(k.take(p.len() as int)[j] == topic[j]);
            }
            assert(topic =~= other);
        }
    }
}

} // verus!
