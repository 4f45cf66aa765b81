//! Inbox topics and their stored form: a fixed width of 40 bytes, the expiry
//! in nanoseconds as a big-endian 64-bit integer, then the 32 topic bytes.
use std::cmp::Ordering;
use vstd::prelude::*;

use crate::topic::{bytes_lt, id_lt, lemma_bytes_lt_total, same_id, LogId, Topic, Untyped};

verus! {

/// The width in bytes of a stored inbox topic.
pub const INBOX_TOPIC_WIDTH: usize = 40;

/// The topic on which a node hears back from whoever scanned its QR code,
/// valid until `expires_at`, in nanoseconds since the Unix epoch.
pub struct InboxTopic {
    pub expires_at: i64,
    pub topic: Topic<Untyped>,
}

/// What an inbox topic stands for: its expiry and its topic's bytes.
pub struct InboxTopicView {
    pub expires_at: i64,
    pub topic: Seq<u8>,
}

impl View for InboxTopic {
    type V = InboxTopicView;

    open spec fn view(&self) -> InboxTopicView {
        InboxTopicView { expires_at: self.expires_at, topic: self.topic.id@ }
    }
}

/// The eight bytes of `n`, most significant first.
pub open spec fn be_bytes(n: u64) -> Seq<u8> {
    seq![
        (n >> 56u64) as u8,
        (n >> 48u64) as u8,
        (n >> 40u64) as u8,
        (n >> 32u64) as u8,
        (n >> 24u64) as u8,
        (n >> 16u64) as u8,
        (n >> 8u64) as u8,
        n as u8,
    ]
}

/// The number whose eight bytes, most significant first, open `b`.
pub open spec fn be_value(b: Seq<u8>) -> u64 {
    (b[0] as u64) << 56u64 | (b[1] as u64) << 48u64 | (b[2] as u64) << 40u64 | (b[3] as u64)
        << 32u64 | (b[4] as u64) << 24u64 | (b[5] as u64) << 16u64 | (b[6] as u64) << 8u64 | (
    b[7] as u64)
}

/// The stored form of an inbox topic.
pub open spec fn inbox_bytes(t: InboxTopicView) -> Seq<u8> {
    be_bytes(t.expires_at as u64) + t.topic
}

/// The inbox topic that stored bytes hold.
pub open spec fn decoded_inbox(b: Seq<u8>) -> InboxTopicView {
    InboxTopicView { expires_at: be_value(b) as i64, topic: b.subrange(8, 40) }
}

/// `a` sorts before `b`: by expiry, then by topic bytes.
pub open spec fn inbox_lt(a: InboxTopicView, b: InboxTopicView) -> bool {
    a.expires_at < b.expires_at || (a.expires_at == b.expires_at && bytes_lt(a.topic, b.topic))
}

/// Some inbox topic of `active` has the log's bytes as its topic.
pub open spec fn addressed_to(active: Seq<InboxTopicView>, log: Seq<u8>) -> bool {
    exists|i: int| 0 <= i < active.len() && #[trigger] active[i].topic == log
}

impl InboxTopic {
    /// A stored inbox topic is always 40 bytes wide.
    pub fn fixed_width() -> (w: Option<usize>)
        ensures
            w == Some(INBOX_TOPIC_WIDTH),
    {
        Some(INBOX_TOPIC_WIDTH)
    }

    /// The stored form: the expiry's eight bytes, most significant first,
    /// then the topic's bytes.
    pub fn as_bytes(&self) -> (b: [u8; 40])
        ensures
            b@ == inbox_bytes(self@),
    {
        let n = self.expires_at as u64;
        let mut buf = [0u8; 40];
        buf[0] = (n >> 56u64) as u8;
        buf[1] = (n >> 48u64) as u8;
        buf[2] = (n >> 40u64) as u8;
        buf[3] = (n >> 32u64) as u8;
        buf[4] = (n >> 24u64) as u8;
        buf[5] = (n >> 16u64) as u8;
        buf[6] = (n >> 8u64) as u8;
        buf[7] = n as u8;
        let ghost head = be_bytes(n);
        let mut i: usize = 0;
        while i < 32
            invariant
                0 <= i <= 32,
                buf@.len() == 40,
                self.topic.id@.len() == 32,
                head == be_bytes(self.expires_at as u64),
                forall|k: int| 0 <= k < 8 ==> buf@[k] == head[k],
                forall|k: int| 0 <= k < i ==> buf@[8 + k] == self.topic.id@[k],
            decreases 32 - i,
        {
            buf[8 + i] = self.topic.id[i];
            i = i + 1;
        }
        assert(buf@ =~= inbox_bytes(self@));
        buf
    }

    /// The inbox topic that the first 40 bytes of `data` hold.
    pub fn from_bytes(data: &[u8]) -> (t: InboxTopic)
        requires
            data@.len() >= INBOX_TOPIC_WIDTH,
        ensures
            t@ == decoded_inbox(data@),
    {
        let n: u64 = (data[0] as u64) << 56u64 | (data[1] as u64) << 48u64 | (data[2] as u64)
            << 40u64 | (data[3] as u64) << 32u64 | (data[4] as u64) << 24u64 | (data[5] as u64)
            << 16u64 | (data[6] as u64) << 8u64 | (data[7] as u64);
        let mut id = [0u8; 32];
        let mut i: usize = 0;
        while i < 32
            invariant
                0 <= i <= 32,
                data@.len() >= 40,
                id@.len() == 32,
                forall|k: int| 0 <= k < i ==> id@[k] == data@[8 + k],
            decreases 32 - i,
        {
            id[i] = data[8 + i];
            i = i + 1;
        }
        assert(id@ =~= data@.subrange(8, 40));
        InboxTopic { expires_at: n as i64, topic: Topic::untyped(id) }
    }

    /// Orders two stored inbox topics as the topics they hold: by expiry,
    /// then by topic bytes.
    pub fn compare(data1: &[u8], data2: &[u8]) -> (o: Ordering)
        requires
            data1@.len() >= INBOX_TOPIC_WIDTH,
            data2@.len() >= INBOX_TOPIC_WIDTH,
        ensures
            (o == Ordering::Less) == inbox_lt(decoded_inbox(data1@), decoded_inbox(data2@)),
            (o == Ordering::Equal) == (decoded_inbox(data1@) == decoded_inbox(data2@)),
            (o == Ordering::Greater) == inbox_lt(decoded_inbox(data2@), decoded_inbox(data1@)),
    {
        let a = InboxTopic::from_bytes(data1);
        let b = InboxTopic::from_bytes(data2);
        proof {
            lemma_inbox_order_total(a@, b@);
        }
        if a.expires_at < b.expires_at {
            return Ordering::Less;
        }
        if b.expires_at < a.expires_at {
            return Ordering::Greater;
        }
        if id_lt(&a.topic.id, &b.topic.id) {
            return Ordering::Less;
        }
        if id_lt(&b.topic.id, &a.topic.id) {
            return Ordering::Greater;
        }
        Ordering::Equal
    }
}

/// Whether an operation of the log `log_id` is addressed to one of the
/// node's active inbox topics; one that is not is ignored.
pub fn is_addressed_to_inbox(active: &[InboxTopic], log_id: &LogId) -> (r: bool)
    ensures
        r == addressed_to(active@.map_values(|t: InboxTopic| t@), log_id.0@),
{
    let ghost views = active@.map_values(|t: InboxTopic| t@);
    let mut i: usize = 0;
    while i < active.len()
        invariant
            0 <= i <= active@.len(),
            views == active@.map_values(|t: InboxTopic| t@),
            forall|k: int| 0 <= k < i ==> views[k].topic != log_id.0@,
        decreases active@.len() - i,
    {
        if same_id(&active[i].topic.id, &log_id.0) {
            assert(views[i as int].topic == log_id.0@);
            return true;
        }
        i = i + 1;
    }
    false
}

/// The order of inbox topics is total: of two with topics of one length,
/// exactly one sorts first, unless they are equal.
pub proof fn lemma_inbox_order_total(a: InboxTopicView, b: InboxTopicView)
    requires
        a.topic.len() == b.topic.len(),
    ensures
        a == b ==> !inbox_lt(a, b),
        a != b ==> (inbox_lt(a, b) != inbox_lt(b, a)),
{
    lemma_bytes_lt_total(a.topic, b.topic);
}

/// Reading back the stored form of an inbox topic gives the inbox topic.
pub proof fn lemma_inbox_bytes_roundtrip(t: InboxTopicView)
    requires
        t.topic.len() == 32,
    ensures
        decoded_inbox(inbox_bytes(t)) == t,
{
    let x = t.expires_at;
    let n = x as u64;
    let b = inbox_bytes(t);
    assert(b.subrange(8, 40) =~= t.topic);
    assert((((((n >> 56u64) as u8) as u64) << 56u64 | (((n >> 48u64) as u8) as u64) << 48u64
        | (((n >> 40u64) as u8) as u64) << 40u64 | (((n >> 32u64) as u8) as u64) << 32u64 | (((n
        >> 24u64) as u8) as u64) << 24u64 | (((n >> 16u64) as u8) as u64) << 16u64 | (((n
        >> 8u64) as u8) as u64) << 8u64 | ((n as u8) as u64)) as i64) == x) by (bit_vector)
        requires
            n == x as u64,
    ;
}

/// Two inbox topics with the same stored form are the same.
pub proof fn lemma_inbox_bytes_injective(a: InboxTopicView, b: InboxTopicView)
    requires
        a.topic.len() == 32,
        b.topic.len() == 32,
        inbox_bytes(a) == inbox_bytes(b),
    ensures
        a == b,
{
    lemma_inbox_bytes_roundtrip(a);
    lemma_inbox_bytes_roundtrip(b);
}

} // verus!
