//! The client side of the HTTP mailbox server: operations and requests are
//! turned into the server's terms (topics and authors in lowercase
//! hexadecimal) and the server's answers back.
use vstd::prelude::*;

use crate::mem_mailbox::{entry_is, held_op, holds, MemMailbox};
use crate::topic::{
    hex_decode, hex_decoded, hex_encode, hex_lower, lemma_hex_roundtrip, all_hex, LogId, Topic,
    TopicParseError, Untyped,
};

verus! {

/// A topic's identifier on the server: its bytes in hexadecimal.
pub fn log_id_to_topic_id(log_id: &LogId) -> (s: String)
    ensures
        s@ == hex_lower(log_id.0@),
{
    hex_encode(log_id.0.as_slice())
}

/// An author's log identifier on the server: its key in hexadecimal.
pub fn device_id_to_log_id(device_id: &[u8; 32]) -> (s: String)
    ensures
        s@ == hex_lower(device_id@),
{
    hex_encode(device_id.as_slice())
}

/// The log of a topic identifier that the server sent.
pub fn log_id_from_string(s: &str) -> (r: Result<LogId, TopicParseError>)
    ensures
        r is Ok <==> (all_hex(s@) && s@.len() == 64),
        r matches Ok(l) ==> l.0@ == hex_decoded(s@),
{
    match Topic::<Untyped>::from_str(s) {
        Ok(t) => Ok(t.log_id()),
        Err(e) => Err(e),
    }
}

/// Why an author identifier from the server is not a key.
#[derive(Debug, Clone, Copy, PartialEq, Eq)]
pub enum DeviceIdError {
    /// The text is not hexadecimal bytes.
    Hex(crate::topic::HexError),
    /// The text spells this many bytes, not 32.
    InvalidLength(usize),
}

/// The 32 key bytes of an author identifier that the server sent.
pub fn device_bytes_from_string(s: &str) -> (r: Result<[u8; 32], DeviceIdError>)
    ensures
        r is Ok <==> (all_hex(s@) && s@.len() == 64),
        r matches Ok(b) ==> b@ == hex_decoded(s@),
{
    match hex_decode(s) {
        Err(e) => Err(DeviceIdError::Hex(e)),
        Ok(bytes) => {
            if bytes.len() != 32 {
                return Err(DeviceIdError::InvalidLength(bytes.len()));
            }
            let mut id = [0u8; 32];
            let mut i: usize = 0;
            while i < 32
                invariant
                    0 <= i <= 32,
                    bytes@.len() == 32,
                    id@.len() == 32,
                    forall|k: int| 0 <= k < i ==> id@[k] == bytes@[k],
                decreases 32 - i,
            {
                id[i] = bytes[i];
                i = i + 1;
            }
            assert(id@ =~= bytes@);
            Ok(id)
        },
    }
}

/// The server's request for a fetch: for each topic, in hexadecimal, the
/// height of each author, in hexadecimal.
pub fn blobs_request(request: &Vec<(LogId, Vec<([u8; 32], u64)>)>) -> (r: Vec<(String, Vec<(String, u64)>)>)
    ensures
        r@.len() == request@.len(),
        forall|i: int|
            #![trigger r@[i]]
            0 <= i < r@.len() ==> {
                &&& r@[i].0@ == hex_lower(request@[i].0.0@)
                &&& r@[i].1@.len() == request@[i].1@.len()
                &&& forall|j: int|
                    #![trigger r@[i].1@[j]]
                    0 <= j < r@[i].1@.len() ==> r@[i].1@[j].0@ == hex_lower(request@[i].1@[j].0@)
                        && r@[i].1@[j].1 == request@[i].1@[j].1
            },
{
    let mut out: Vec<(String, Vec<(String, u64)>)> = Vec::new();
    let mut i: usize = 0;
    while i < request.len()
        invariant
            0 <= i <= request@.len(),
            out@.len() == i,
            forall|k: int|
                #![trigger out@[k]]
                0 <= k < i ==> {
                    &&& out@[k].0@ == hex_lower(request@[k].0.0@)
                    &&& out@[k].1@.len() == request@[k].1@.len()
                    &&& forall|j: int|
                        #![trigger out@[k].1@[j]]
                        0 <= j < out@[k].1@.len() ==> out@[k].1@[j].0@ == hex_lower(request@[k].1@[j].0@)
                            && out@[k].1@[j].1 == request@[k].1@[j].1
                },
        decreases request@.len() - i,
    {
        let topic = log_id_to_topic_id(&request[i].0);
        let heights = &request[i].1;
        let mut logs: Vec<(String, u64)> = Vec::new();
        let mut j: usize = 0;
        while j < heights.len()
            invariant
                0 <= j <= heights@.len(),
                logs@.len() == j,
                forall|q: int|
                    #![trigger logs@[q]]
                    0 <= q < j ==> logs@[q].0@ == hex_lower(heights@[q].0@) && logs@[q].1 == heights@[q].1,
            decreases heights@.len() - j,
        {
            logs.push((device_id_to_log_id(&heights[j].0), heights[j].1));
            j = j + 1;
        }
        out.push((topic, logs));
        i = i + 1;
    }
    out
}

/// One blob to upload: its topic and author in hexadecimal, its sequence
/// number and its bytes.
pub struct BlobUpload {
    pub topic_id: String,
    pub log_id: String,
    pub seq_num: u64,
    pub blob: Vec<u8>,
}

/// Operations `j` and `k` are of the same topic, author and number.
pub open spec fn same_slot(ops: Seq<(LogId, [u8; 32], u64, Vec<u8>)>, j: int, k: int) -> bool {
    ops[j].0.0@ == ops[k].0.0@ && ops[j].1@ == ops[k].1@ && ops[j].2 == ops[k].2
}

/// Operation `k` is the last of its slot among the first `n`.
pub open spec fn last_in_slot(ops: Seq<(LogId, [u8; 32], u64, Vec<u8>)>, k: int, n: int) -> bool {
    0 <= k < n && forall|j: int| k < j < n ==> !#[trigger] same_slot(ops, j, k)
}

/// `u` uploads operation `o`.
pub open spec fn uploads(u: BlobUpload, o: (LogId, [u8; 32], u64, Vec<u8>)) -> bool {
    u.topic_id@ == hex_lower(o.0.0@) && u.log_id@ == hex_lower(o.1@) && u.seq_num == o.2 && u.blob@
        == o.3@
}

/// Some upload of `r` uploads `o`.
pub open spec fn uploaded(r: Seq<BlobUpload>, o: (LogId, [u8; 32], u64, Vec<u8>)) -> bool {
    exists|i: int| 0 <= i < r.len() && uploads(#[trigger] r[i], o)
}

/// `u` uploads the last operation of some slot of `ops`.
pub open spec fn uploads_last(ops: Seq<(LogId, [u8; 32], u64, Vec<u8>)>, u: BlobUpload) -> bool {
    exists|k: int| last_in_slot(ops, k, ops.len() as int) && uploads(u, #[trigger] ops[k])
}

/// Some operation of the slot of `k` comes last among the first `n`.
proof fn lemma_last_in_slot(ops: Seq<(LogId, [u8; 32], u64, Vec<u8>)>, k: int, n: int) -> (l: int)
    requires
        0 <= k < n <= ops.len(),
    ensures
        last_in_slot(ops, l, n),
        same_slot(ops, l, k),
    decreases n - k,
{
    if exists|j: int| k < j < n && #[trigger] same_slot(ops, j, k) {
        let j = choose|j: int| k < j < n && #[trigger] same_slot(ops, j, k);
        let l = lemma_last_in_slot(ops, j, n);
        l
    } else {
        k
    }
}

/// The blobs to upload for `ops` (topic, author, sequence number, bytes):
/// one per slot, with the bytes of the slot's last operation; two uploads
/// never share topic, author and number.
pub fn store_uploads(ops: &Vec<(LogId, [u8; 32], u64, Vec<u8>)>) -> (r: Vec<BlobUpload>)
    ensures
        forall|k: int|
            #![trigger ops@[k]]
            last_in_slot(ops@, k, ops@.len() as int) ==> uploaded(r@, ops@[k]),
        forall|i: int| #![trigger r@[i]] 0 <= i < r@.len() ==> uploads_last(ops@, r@[i]),
        forall|i: int, j: int|
            0 <= i < j < r@.len() ==> !(r@[i].topic_id@ == r@[j].topic_id@ && r@[i].log_id@
                == r@[j].log_id@ && r@[i].seq_num == r@[j].seq_num),
{
    let mut mb = MemMailbox::new();
    let ghost ov = ops@;
    let mut n: usize = 0;
    while n < ops.len()
        invariant
            0 <= n <= ov.len(),
            ov == ops@,
            mb.wf(),
            forall|k: int|
                #![trigger ov[k]]
                last_in_slot(ov, k, n as int) ==> holds(mb.contents(), ov[k].0.0@, ov[k].1@, ov[k].2)
                    && held_op(mb.contents(), ov[k].0.0@, ov[k].1@, ov[k].2) == ov[k].3@,
            forall|t: Seq<u8>, a: Seq<u8>, s: u64|
                #[trigger] holds(mb.contents(), t, a, s) ==> exists|k: int|
                    0 <= k < n && ov[k].0.0@ == t && ov[k].1@ == a && #[trigger] ov[k].2 == s,
        decreases ov.len() - n,
    {
        let ghost before = mb.contents();
        let op = ops[n].3.clone();
        assert(op@ =~= ov[n as int].3@);
        mb.publish_one(&ops[n].0, &ops[n].1, ops[n].2, op);
        proof {
            assert forall|k: int|
                #![trigger ov[k]]
                last_in_slot(ov, k, n + 1) implies holds(mb.contents(), ov[k].0.0@, ov[k].1@, ov[k].2)
                    && held_op(mb.contents(), ov[k].0.0@, ov[k].1@, ov[k].2) == ov[k].3@ by {
                if k < n {
                    assert(!same_slot(ov, n as int, k));
                    assert(last_in_slot(ov, k, n as int));
                }
            }
            assert forall|t: Seq<u8>, a: Seq<u8>, s: u64|
                #[trigger] holds(mb.contents(), t, a, s) implies exists|k: int|
                    0 <= k < n + 1 && ov[k].0.0@ == t && ov[k].1@ == a && #[trigger] ov[k].2 == s by {
                if t == ov[n as int].0.0@ && a == ov[n as int].1@ && s == ov[n as int].2 {
                    assert(ov[n as int].2 == s);
                } else {
                    assert(holds(before, t, a, s));
                    let k = choose|k: int| 0 <= k < n && ov[k].0.0@ == t && ov[k].1@ == a && #[trigger] ov[k].2 == s;
                    assert(ov[k].2 == s);
                }
            }
        }
        n = n + 1;
    }
    let held = mb.held();
    let mut out: Vec<BlobUpload> = Vec::new();
    let mut i: usize = 0;
    while i < held.len()
        invariant
            0 <= i <= held@.len(),
            held@.len() == mb.contents().len(),
            out@.len() == i,
            forall|q: int|
                #![trigger held@[q]]
                0 <= q < held@.len() ==> held@[q].0 == mb.contents()[q].topic && held@[q].1
                    == mb.contents()[q].author && held@[q].2 == mb.contents()[q].seq_num
                    && held@[q].3@ == mb.contents()[q].op@,
            forall|q: int|
                #![trigger out@[q]]
                0 <= q < i ==> out@[q].topic_id@ == hex_lower(held@[q].0@) && out@[q].log_id@
                    == hex_lower(held@[q].1@) && out@[q].seq_num == held@[q].2 && out@[q].blob@
                    == held@[q].3@,
        decreases held@.len() - i,
    {
        let topic_id = hex_encode(held[i].0.as_slice());
        let log_id = hex_encode(held[i].1.as_slice());
        let blob = held[i].3.clone();
        assert(blob@ =~= held@[i as int].3@);
        out.push(BlobUpload { topic_id, log_id, seq_num: held[i].2, blob });
        i = i + 1;
    }
    proof {
        let c = mb.contents();
        assert forall|k: int|
            #![trigger ops@[k]]
            last_in_slot(ops@, k, ops@.len() as int) implies uploaded(out@, ops@[k]) by {
            mb.lemma_held_has_entry(ops@[k].0.0@, ops@[k].1@, ops@[k].2);
            let q = choose|q: int| 0 <= q < c.len() && #[trigger] entry_is(c, q, ops@[k].0.0@, ops@[k].1@, ops@[k].2);
            mb.lemma_entry_held(q);
            assert(held@[q].0@ == ops@[k].0.0@);
            assert(uploads(out@[q], ops@[k]));
        }
        assert forall|q: int|
            #![trigger out@[q]]
            0 <= q < out@.len() implies uploads_last(ops@, out@[q]) by {
            mb.lemma_entry_held(q);
            let t = c[q].topic@;
            let a = c[q].author@;
            let s = c[q].seq_num;
            assert(holds(c, t, a, s));
            let k0 = choose|k: int| 0 <= k < ops@.len() && ops@[k].0.0@ == t && ops@[k].1@ == a && #[trigger] ops@[k].2 == s;
            let l = lemma_last_in_slot(ops@, k0, ops@.len() as int);
            assert(held_op(c, t, a, s) == ops@[l].3@);
            assert(uploads(out@[q], ops@[l]));
        }
        assert forall|p: int, q: int|
            0 <= p < q < out@.len() implies !(out@[p].topic_id@ == out@[q].topic_id@
                && out@[p].log_id@ == out@[q].log_id@ && out@[p].seq_num == out@[q].seq_num) by {
            mb.lemma_entries_distinct(p, q);
            lemma_hex_roundtrip(held@[p].0@);
            lemma_hex_roundtrip(held@[q].0@);
            lemma_hex_roundtrip(held@[p].1@);
            lemma_hex_roundtrip(held@[q].1@);
        }
    }
    out
}

} // verus!
