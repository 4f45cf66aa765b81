//! The bookkeeping of the operation store: where a newly authored operation
//! goes in its log, and which operations have been processed.
use vstd::prelude::*;

use crate::keyed::{has_key, holds_id, IdSets};
use crate::topic::LogId;

verus! {

/// The sequence number and backlink of the next operation of a log, given
/// the latest operation of the log (its sequence number and hash): one past
/// it, linking back to it; the first operation of a log has number 0 and
/// no backlink.
pub fn next_log_position(latest: Option<(u64, [u8; 32])>) -> (r: (u64, Option<[u8; 32]>))
    requires
        latest matches Some((s, _)) ==> s < u64::MAX,
    ensures
        latest is None ==> r == (0u64, None::<[u8; 32]>),
        latest matches Some((s, h)) ==> r == ((s + 1) as u64, Some(h)),
{
    match latest {
        Some((seq_num, hash)) => (seq_num + 1, Some(hash)),
        None => (0, None),
    }
}

/// The operations processed so far, by log.
pub struct ProcessedOps {
    logs: IdSets,
}

impl ProcessedOps {
    pub closed spec fn wf(&self) -> bool {
        self.logs.wf()
    }

    /// Whether operation `h` of log `l` was marked processed.
    pub closed spec fn processed(&self, l: Seq<u8>, h: Seq<u8>) -> bool {
        self.logs.member(l, h)
    }

    pub fn new() -> (r: Self)
        ensures
            r.wf(),
            forall|l: Seq<u8>, h: Seq<u8>| !r.processed(l, h),
    {
        ProcessedOps { logs: IdSets::new() }
    }

    /// Marks operation `hash` of log `log_id` processed.
    pub fn mark_op_processed(&mut self, log_id: &LogId, hash: &[u8; 32])
        requires
            old(self).wf(),
        ensures
            final(self).wf(),
            final(self).processed(log_id.0@, hash@),
            forall|l: Seq<u8>, h: Seq<u8>|
                (l != log_id.0@ || h != hash@) ==> #[trigger] final(self).processed(l, h) == old(
                    self,
                ).processed(l, h),
    {
        self.logs.insert(&log_id.0, hash);
    }

    /// Whether operation `hash` of log `log_id` was marked processed.
    pub fn is_op_processed(&self, log_id: &LogId, hash: &[u8; 32]) -> (b: bool)
        requires
            self.wf(),
        ensures
            b == self.processed(log_id.0@, hash@),
    {
        self.logs.contains(&log_id.0, hash)
    }
}

/// The authors known to write to each topic.
pub struct AuthorStore {
    authors: IdSets,
}

impl AuthorStore {
    pub closed spec fn wf(&self) -> bool {
        self.authors.wf()
    }

    /// Whether some author of `topic` is known.
    pub closed spec fn has_topic(&self, topic: Seq<u8>) -> bool {
        self.authors.has_set(topic)
    }

    /// Whether `author` is known to write to `topic`.
    pub closed spec fn is_author(&self, topic: Seq<u8>, author: Seq<u8>) -> bool {
        self.authors.member(topic, author)
    }

    /// A topic with a known author is a known topic.
    pub proof fn lemma_author_has_topic(&self, topic: Seq<u8>, author: Seq<u8>)
        ensures
            self.is_author(topic, author) ==> self.has_topic(topic),
    {
        self.authors.lemma_member_has_set(topic, author);
    }

    /// An empty store: no topic and no author is known.
    pub fn new() -> (r: Self)
        ensures
            r.wf(),
            forall|t: Seq<u8>| !r.has_topic(t),
            forall|t: Seq<u8>, a: Seq<u8>| !r.is_author(t, a),
    {
        AuthorStore { authors: IdSets::new() }
    }

    /// Records `public_key` as an author of `topic`; says whether it was
    /// new.
    pub fn add_author(&mut self, topic: &LogId, public_key: &[u8; 32]) -> (added: bool)
        requires
            old(self).wf(),
        ensures
            final(self).wf(),
            added == !old(self).is_author(topic.0@, public_key@),
            final(self).has_topic(topic.0@),
            final(self).is_author(topic.0@, public_key@),
            forall|t: Seq<u8>| t != topic.0@ ==> #[trigger] final(self).has_topic(t) == old(self).has_topic(t),
            forall|t: Seq<u8>, a: Seq<u8>|
                (t != topic.0@ || a != public_key@) ==> #[trigger] final(self).is_author(t, a) == old(
                    self,
                ).is_author(t, a),
    {
        self.authors.insert(&topic.0, public_key)
    }

    /// The authors of `topic`, each once; `None` when none is known.
    pub fn authors(&self, topic: &LogId) -> (r: Option<Vec<[u8; 32]>>)
        requires
            self.wf(),
        ensures
            r is Some <==> self.has_topic(topic.0@),
            r matches Some(v) ==> forall|a: Seq<u8>| #[trigger] holds_id(v@, a) == self.is_author(topic.0@, a),
    {
        self.authors.get(&topic.0)
    }

    /// The logs to sync for `topic`: for each of its authors, the topic's
    /// own log (every author writes one log per topic).
    pub fn get(&self, topic: &LogId) -> (r: Vec<([u8; 32], Vec<[u8; 32]>)>)
        requires
            self.wf(),
        ensures
            forall|a: Seq<u8>| #[trigger] has_key(r@, a) == self.is_author(topic.0@, a),
            forall|i: int| 0 <= i < r@.len() ==> (#[trigger] r@[i]).1@ == seq![topic.0],
    {
        match self.authors(topic) {
            None => {
                proof {
                    assert forall|a: Seq<u8>| !self.is_author(topic.0@, a) by {
                        self.authors.lemma_member_has_set(topic.0@, a);
                    }
                }
                Vec::new()
            },
            Some(authors) => {
                let mut out: Vec<([u8; 32], Vec<[u8; 32]>)> = Vec::new();
                let mut i: usize = 0;
                while i < authors.len()
                    invariant
                        0 <= i <= authors@.len(),
                        forall|a: Seq<u8>| #[trigger] has_key(out@, a) == holds_id(authors@.take(i as int), a),
                        forall|k: int| 0 <= k < out@.len() ==> (#[trigger] out@[k]).1@ == seq![topic.0],
                    decreases authors@.len() - i,
                {
                    let ghost before = out@;
                    let ghost pre = authors@.take(i as int);
                    let ghost post = authors@.take(i + 1);
                    assert(forall|a: Seq<u8>| #[trigger] has_key(before, a) == holds_id(pre, a));
                    let mut logs: Vec<[u8; 32]> = Vec::new();
                    logs.push(topic.0);
                    out.push((authors[i], logs));
                    proof {
                        assert forall|a: Seq<u8>| #[trigger] has_key(out@, a) == holds_id(post, a) by {
                            if has_key(out@, a) {
                                let j = choose|j: int| 0 <= j < out@.len() && #[trigger] out@[j].0@ == a;
                                if j < before.len() {
                                    assert(before[j].0@ == a);
                                    assert(has_key(before, a));
                                    let q = choose|q: int| 0 <= q < pre.len() && #[trigger] pre[q]@ == a;
                                    assert(post[q]@ == a);
                                } else {
                                    assert(post[i as int]@ == a);
                                }
                            }
                            if holds_id(post, a) {
                                let q = choose|q: int| 0 <= q < post.len() && #[trigger] post[q]@ == a;
                                if q < i {
                                    assert(pre[q]@ == a);
                                    assert(holds_id(pre, a));
                                    assert(has_key(before, a));
                                    let j = choose|j: int| 0 <= j < before.len() && #[trigger] before[j].0@ == a;
                                    assert(out@[j].0@ == a);
                                } else {
                                    assert(out@[before.len() as int].0@ == a);
                                }
                            }
                        }
                    }
                    i = i + 1;
                }
                assert(authors@.take(i as int) =~= authors@);
                out
            },
        }
    }
}

} // verus!
