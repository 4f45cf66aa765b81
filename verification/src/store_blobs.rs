//! Storing the blobs of one log, with its watermark kept up to date: every
//! blob is written under the text of its `BlobsKey`,
//! `topic_id:log_id:sequence_number:uuid` with the sequence number
//! zero-padded to 20 digits so that keys sort by it, and the watermark moves
//! on over the run of stored sequence numbers that follows it.
use std::collections::BTreeSet;
use vstd::prelude::*;

use crate::blobs::{entry_log, entry_readable, entry_seq};
use crate::blobs_key::{key_text, lemma_key_text_parts, valid_key_part, BlobsKey, BlobsKeyView};
use crate::text::{
    fixed_digits, lemma_fixed_digits, lemma_fixed_digits_value, lemma_parse_digits,
    lemma_u64_below_pow10_20,
};
use crate::uuid_text::uuid_now_v7;
use crate::watermark::{compute_new_watermark, is_extended_watermark};

verus! {

/// The key text of a blob of `log` in `topic` with sequence number `seq`
/// and UUID `u`: the text of that `BlobsKey`, with the sequence number
/// zero-padded to 20 digits.
pub open spec fn blob_key_text(topic: Seq<char>, log: Seq<char>, seq: u64, u: u128) -> Seq<char> {
    key_text(BlobsKeyView { topic_id: topic, author: log, sequence_number: seq, uuid: u })
}

/// The stored key reads back, as the blob reader reads keys, with log `log`
/// and sequence number `seq`.
pub open spec fn reads_back(key: Seq<char>, log: Seq<char>, seq: u64) -> bool {
    entry_readable(key) && entry_log(key) == log && entry_seq(key) == seq
}

/// A blob key of `:`-free parts and a sequence number that fits in `u32`
/// reads back with its log and sequence number.
pub proof fn lemma_blob_key_reads_back(topic: Seq<char>, log: Seq<char>, seq: u64, u: u128)
    requires
        valid_key_part(topic),
        valid_key_part(log),
        seq <= u32::MAX,
    ensures
        reads_back(blob_key_text(topic, log, seq, u), log, seq),
{
    let k = BlobsKeyView { topic_id: topic, author: log, sequence_number: seq, uuid: u };
    lemma_key_text_parts(k);
    let d = fixed_digits(seq as nat, 20);
    lemma_fixed_digits(seq as nat, 20);
    lemma_u64_below_pow10_20(seq);
    lemma_fixed_digits_value(seq as nat, 20);
    lemma_parse_digits(d, u32::MAX as nat);
}

/// `key` is the key of a blob of `log` in `topic` with sequence number
/// `seq`, under some UUID.
pub open spec fn is_blob_key(key: Seq<char>, topic: Seq<char>, log: Seq<char>, seq: u64) -> bool {
    exists|u: u128| key == #[trigger] blob_key_text(topic, log, seq, u)
}

/// The key of a blob of `log_id` in `topic_id` with sequence number
/// `seq_num`: the text of its `BlobsKey`, with a fresh UUID v7 counted by
/// `clock`; `None` where the system clock stands before the epoch.
pub fn blob_key(clock: &uuid::ContextV7, topic_id: &str, log_id: &str, seq_num: u64) -> (k: Option<
    String,
>)
    ensures
        k matches Some(k) ==> is_blob_key(k@, topic_id@, log_id@, seq_num),
        k matches Some(k) ==> (valid_key_part(topic_id@) && valid_key_part(log_id@) && seq_num
            <= u32::MAX ==> reads_back(k@, log_id@, seq_num)),
{
    let u = match uuid_now_v7(clock) {
        Some(u) => u,
        None => return None,
    };
    let key = BlobsKey {
        topic_id: topic_id.to_owned(),
        author: log_id.to_owned(),
        sequence_number: seq_num,
        uuid: u,
    };
    let k = key.to_string();
    proof {
        assert(k@ == blob_key_text(topic_id@, log_id@, seq_num, u));
        if valid_key_part(topic_id@) && valid_key_part(log_id@) && seq_num <= u32::MAX {
            lemma_blob_key_reads_back(topic_id@, log_id@, seq_num, u);
        }
    }
    Some(k)
}

/// What storing the blobs of one log comes to.
pub struct LogStorePlan {
    /// The table entries to write, one per blob, in the order given.
    pub entries: Vec<(String, Vec<u8>)>,
    /// The log's watermark after the write.
    pub watermark: Option<u64>,
    /// Whether the watermark table needs writing: a watermark was
    /// established or moved.
    pub watermark_changed: bool,
}

/// The sequence numbers of the blobs.
pub open spec fn blob_seqs(blobs: Seq<(u64, Vec<u8>)>) -> Set<u64> {
    Set::new(|s: u64| exists|i: int| 0 <= i < blobs.len() && #[trigger] blobs[i].0 == s)
}

/// Stores the blobs of `log_id` in `topic_id`: an entry per blob under its
/// key (fresh UUIDs counted by `clock`), and the
/// watermark extended from `current` over the sequence numbers now stored
/// (those given and those in `existing`, the ones the table held). The
/// watermark table is written only where the watermark changed. `None`
/// where the system clock stands before the epoch, so that no key can be
/// made; with no blobs the clock is not read.
pub fn plan_log_store(
    clock: &uuid::ContextV7,
    topic_id: &str,
    log_id: &str,
    current: Option<u64>,
    blobs: &Vec<(u64, Vec<u8>)>,
    existing: &BTreeSet<u64>,
) -> (r: Option<LogStorePlan>)
    requires
        current != Some(u64::MAX),
    ensures
        blobs@.len() == 0 ==> r is Some,
        r matches Some(r) ==> {
            &&& r.entries@.len() == blobs@.len()
            &&& forall|i: int|
                0 <= i < blobs@.len() ==> {
                    &&& is_blob_key(#[trigger] r.entries@[i].0@, topic_id@, log_id@, blobs@[i].0)
                    &&& (valid_key_part(topic_id@) && valid_key_part(log_id@) && blobs@[i].0
                        <= u32::MAX ==> reads_back(r.entries@[i].0@, log_id@, blobs@[i].0))
                    &&& r.entries@[i].1@ == blobs@[i].1@
                }
            &&& is_extended_watermark(blob_seqs(blobs@).union(existing@), current, r.watermark)
            &&& r.watermark_changed == (r.watermark is Some && r.watermark != current)
        },
{
    let mut entries: Vec<(String, Vec<u8>)> = Vec::new();
    let mut stored: BTreeSet<u64> = BTreeSet::new();
    let mut i: usize = 0;
    while i < blobs.len()
        invariant
            0 <= i <= blobs@.len(),
            entries@.len() == i,
            forall|k: int|
                0 <= k < i ==> {
                    &&& is_blob_key(#[trigger] entries@[k].0@, topic_id@, log_id@, blobs@[k].0)
                    &&& (valid_key_part(topic_id@) && valid_key_part(log_id@) && blobs@[k].0
                        <= u32::MAX ==> reads_back(entries@[k].0@, log_id@, blobs@[k].0))
                    &&& entries@[k].1@ == blobs@[k].1@
                },
            stored@ == blob_seqs(blobs@.take(i as int)),
        decreases blobs@.len() - i,
    {
        let seq_num = blobs[i].0;
        let key = match blob_key(clock, topic_id, log_id, seq_num) {
            Some(k) => k,
            None => return None,
        };
        let blob = blobs[i].1.clone();
        assert(blob@ =~= blobs@[i as int].1@);
        entries.push((key, blob));
        stored.insert(seq_num);
        proof {
            let t1 = blobs@.take(i + 1);
            let t0 = blobs@.take(i as int);
            assert(stored@ =~= blob_seqs(t1)) by {
                assert forall|s: u64| #[trigger] stored@.contains(s) == blob_seqs(t1).contains(s) by {
                    if blob_seqs(t0).contains(s) {
                        let j = choose|j: int| 0 <= j < t0.len() && #[trigger] t0[j].0 == s;
                        assert(t1[j].0 == s);
                    }
                    if s == seq_num {
                        assert(t1[i as int].0 == s);
                    }
                    if blob_seqs(t1).contains(s) {
                        let j = choose|j: int| 0 <= j < t1.len() && #[trigger] t1[j].0 == s;
                        if j < i {
                            assert(t0[j].0 == s);
                        }
                    }
                }
            }
        }
        i = i + 1;
    }
    assert(blobs@.take(i as int) =~= blobs@);
    let watermark = compute_new_watermark(current, &stored, existing);
    let watermark_changed = match watermark {
        Some(w) => match current {
            Some(c) => w != c,
            None => true,
        },
        None => false,
    };
    Some(LogStorePlan { entries, watermark, watermark_changed })
}

} // verus!
