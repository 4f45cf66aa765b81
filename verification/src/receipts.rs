//! Read receipts in direct chats: a node acknowledges the messages its
//! peers sent by publishing their hashes; the messages of peers whose
//! hashes it has not published yet are unacknowledged.
use vstd::prelude::*;

use crate::topic::same_id;

verus! {

/// What a logged operation of a chat topic carries, as far as receipts go.
pub enum ChatRecord {
    /// A chat message.
    Message,
    /// The hashes of the messages its author acknowledges.
    ReceivedMessages(Vec<[u8; 32]>),
    /// Anything else.
    Other,
}

/// One logged operation of a chat topic: its author, its hash and what it
/// carries.
pub struct LogRecord {
    pub author: [u8; 32],
    pub hash: [u8; 32],
    pub record: ChatRecord,
}

/// `h` is the hash of a message that a peer (not `me`) sent.
pub open spec fn peer_message(logs: Seq<LogRecord>, me: Seq<u8>, h: Seq<u8>) -> bool {
    exists|i: int|
        0 <= i < logs.len() && #[trigger] logs[i].hash@ == h && logs[i].author@ != me
            && logs[i].record is Message
}

/// `me` has acknowledged `h` in one of its receipts.
pub open spec fn acknowledged(logs: Seq<LogRecord>, me: Seq<u8>, h: Seq<u8>) -> bool {
    exists|i: int, j: int|
        0 <= i < logs.len() && logs[i].author@ == me && #[trigger] acked_at(logs[i], j, h)
}

/// The receipt `r` names `h` at position `j`.
pub open spec fn acked_at(r: LogRecord, j: int, h: Seq<u8>) -> bool {
    match r.record {
        ChatRecord::ReceivedMessages(hs) => 0 <= j < hs@.len() && hs@[j]@ == h,
        _ => false,
    }
}

/// Whether `h` is among the hashes.
fn holds_hash(v: &Vec<[u8; 32]>, h: &[u8; 32]) -> (r: bool)
    ensures
        r == exists|i: int| 0 <= i < v@.len() && #[trigger] v@[i]@ == h@,
{
    let mut i: usize = 0;
    while i < v.len()
        invariant
            0 <= i <= v@.len(),
            forall|k: int| 0 <= k < i ==> v@[k]@ != h@,
        decreases v@.len() - i,
    {
        if same_id(&v[i], h) {
            return true;
        }
        i = i + 1;
    }
    false
}

/// Whether `me` acknowledged `h` in one of the records.
fn is_acknowledged(logs: &Vec<LogRecord>, me: &[u8; 32], h: &[u8; 32]) -> (r: bool)
    ensures
        r == acknowledged(logs@, me@, h@),
{
    let mut i: usize = 0;
    while i < logs.len()
        invariant
            0 <= i <= logs@.len(),
            forall|k: int, j: int| 0 <= k < i && logs@[k].author@ == me@ ==> !#[trigger] acked_at(logs@[k], j, h@),
        decreases logs@.len() - i,
    {
        if same_id(&logs[i].author, me) {
            match &logs[i].record {
                ChatRecord::ReceivedMessages(hs) => {
                    if holds_hash(hs, h) {
                        proof {
                            let j = choose|j: int| 0 <= j < hs@.len() && #[trigger] hs@[j]@ == h@;
                            assert(acked_at(logs@[i as int], j, h@));
                        }
                        return true;
                    }
                },
                _ => {},
            }
        }
        i = i + 1;
    }
    false
}

/// `h` is among the hashes.
pub open spec fn listed(v: Seq<[u8; 32]>, h: Seq<u8>) -> bool {
    exists|i: int| 0 <= i < v.len() && #[trigger] v[i]@ == h
}

/// The unacknowledged messages among the records `recs`, read in order: the
/// hash of each peer's message that `me` has not acknowledged anywhere in
/// `all`, where it is not listed already.
pub open spec fn unacked_in(recs: Seq<LogRecord>, all: Seq<LogRecord>, me: Seq<u8>) -> Seq<[u8; 32]>
    decreases recs.len(),
{
    if recs.len() == 0 {
        Seq::empty()
    } else {
        let rest = unacked_in(recs.drop_last(), all, me);
        let x = recs.last();
        if x.author@ != me && x.record is Message && !acknowledged(all, me, x.hash@) && !listed(
            rest,
            x.hash@,
        ) {
            rest.push(x.hash)
        } else {
            rest
        }
    }
}

/// The messages of peers in a direct chat that `me` has not acknowledged:
/// each hash once, in the order of the log records.
pub fn unacknowledged_messages(me: &[u8; 32], logs: &Vec<LogRecord>) -> (r: Vec<[u8; 32]>)
    ensures
        r@ == unacked_in(logs@, logs@, me@),
        forall|a: int, b: int| 0 <= a < b < r@.len() ==> r@[a]@ != r@[b]@,
        forall|h: Seq<u8>|
            #[trigger] listed(r@, h) <==> (peer_message(logs@, me@, h) && !acknowledged(logs@, me@, h)),
{
    let mut out: Vec<[u8; 32]> = Vec::new();
    let mut i: usize = 0;
    while i < logs.len()
        invariant
            0 <= i <= logs@.len(),
            out@ == unacked_in(logs@.take(i as int), logs@, me@),
            forall|a: int, b: int| 0 <= a < b < out@.len() ==> out@[a]@ != out@[b]@,
            forall|h: Seq<u8>|
                #[trigger] listed(out@, h) <==> (peer_message(logs@.take(i as int), me@, h)
                    && !acknowledged(logs@, me@, h)),
        decreases logs@.len() - i,
    {
        let ghost pre = logs@.take(i as int);
        let ghost post = logs@.take(i + 1);
        let ghost before = out@;
        let rec = &logs[i];
        let is_peer_message = !same_id(&rec.author, me) && (match &rec.record {
            ChatRecord::Message => true,
            _ => false,
        });
        let acked = is_acknowledged(logs, me, &rec.hash);
        let present = holds_hash(&out, &rec.hash);
        if is_peer_message && !acked && !present {
            out.push(rec.hash);
        }
        proof {
            let x = logs@[i as int];
            assert(is_peer_message == (x.author@ != me@ && x.record is Message));
            assert(present == listed(before, x.hash@));
            assert(post.drop_last() == pre);
            assert(post.last() == x);
            assert forall|h: Seq<u8>| #[trigger] peer_message(post, me@, h) == (peer_message(pre, me@, h)
                || (h == x.hash@ && x.author@ != me@ && x.record is Message)) by {
                if peer_message(pre, me@, h) {
                    let k = choose|k: int| 0 <= k < pre.len() && #[trigger] pre[k].hash@ == h && pre[k].author@ != me@ && pre[k].record is Message;
                    assert(post[k] == pre[k]);
                }
                if h == x.hash@ && x.author@ != me@ && x.record is Message {
                    assert(post[i as int].hash@ == h);
                }
                if peer_message(post, me@, h) {
                    let k = choose|k: int| 0 <= k < post.len() && #[trigger] post[k].hash@ == h && post[k].author@ != me@ && post[k].record is Message;
                    if k < i {
                        assert(pre[k] == post[k]);
                    }
                }
            }
            assert forall|h: Seq<u8>| #[trigger] listed(out@, h) == (listed(before, h)
                || (out@.len() > before.len() && h == x.hash@)) by {
                if listed(out@, h) {
                    let k = choose|k: int| 0 <= k < out@.len() && #[trigger] out@[k]@ == h;
                    if k < before.len() {
                        assert(before[k]@ == h);
                    }
                }
                if listed(before, h) {
                    let k = choose|k: int| 0 <= k < before.len() && #[trigger] before[k]@ == h;
                    assert(out@[k]@ == h);
                }
                if out@.len() > before.len() && h == x.hash@ {
                    assert(out@[before.len() as int]@ == h);
                }
            }
            assert forall|h: Seq<u8>|
                #[trigger] listed(out@, h) <==> (peer_message(post, me@, h) && !acknowledged(logs@, me@, h)) by {
                assert(listed(before, h) == (peer_message(pre, me@, h) && !acknowledged(logs@, me@, h)));
                assert(peer_message(post, me@, h) == (peer_message(pre, me@, h)
                    || (h == x.hash@ && x.author@ != me@ && x.record is Message)));
            }
            assert forall|a: int, b: int| 0 <= a < b < out@.len() implies out@[a]@ != out@[b]@ by {
                if b == before.len() {
                    assert(out@[a] == before[a]);
                    if out@[a]@ == out@[b]@ {
                        assert(listed(before, x.hash@));
                    }
                }
            }
        }
        i = i + 1;
    }
    assert(logs@.take(i as int) =~= logs@);
    out
}

} // verus!
