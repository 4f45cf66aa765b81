//! The decisions of the mailbox poller: which mailbox to poll next, how long
//! to wait afterwards, and which locally held operations to publish to a
//! mailbox that reports them missing.
use vstd::prelude::*;

use crate::chat::lemma_bytes_transitive;
use crate::topic::{bytes_lt, id_lt, lemma_bytes_lt_total, same_id};

verus! {

/// How long the poller waits after a poll, in milliseconds.
pub struct MailboxesConfig {
    /// After a successful sync.
    pub success_interval_ms: u64,
    /// After a failed sync, or when there was nothing to poll.
    pub error_interval_ms: u64,
}

impl Default for MailboxesConfig {
    /// Five seconds after a success, fifteen after an error.
    fn default() -> (r: Self)
        ensures
            r.success_interval_ms == 5000,
            r.error_interval_ms == 15000,
    {
        MailboxesConfig { success_interval_ms: 5000, error_interval_ms: 15000 }
    }
}

/// What the poller does in one round.
#[derive(Debug, Clone, Copy, PartialEq, Eq)]
pub enum PollStep {
    /// Nothing to sync: wait `interval_ms`; `index` is the mailbox position
    /// to start from next round.
    Skip { interval_ms: u64, index: usize },
    /// Sync the subscribed topics with the mailbox at `index`.
    Sync { index: usize },
}

/// The mailbox after `previous` in a list of `count`: the next one, wrapping
/// round to the first.
pub open spec fn next_index(previous: int, count: int) -> int {
    if previous + 1 >= count {
        0
    } else {
        previous + 1
    }
}

/// One round of the poller, up to the sync: it moves on to the next mailbox;
/// with no mailbox, or no topic subscribed, it waits the error interval.
pub fn poll_step(
    config: &MailboxesConfig,
    previous: usize,
    mailbox_count: usize,
    topic_count: usize,
) -> (r: PollStep)
    requires
        previous < usize::MAX,
    ensures
        mailbox_count == 0 ==> r == (PollStep::Skip {
            interval_ms: config.error_interval_ms,
            index: next_index(previous as int, mailbox_count as int) as usize,
        }),
        mailbox_count > 0 && topic_count == 0 ==> r == (PollStep::Skip {
            interval_ms: config.error_interval_ms,
            index: next_index(previous as int, mailbox_count as int) as usize,
        }),
        mailbox_count > 0 && topic_count > 0 ==> r == (PollStep::Sync {
            index: next_index(previous as int, mailbox_count as int) as usize,
        }),
        r matches PollStep::Sync { index } ==> index < mailbox_count,
{
    let mut index = previous + 1;
    if index >= mailbox_count {
        index = 0;
    }
    if mailbox_count == 0 {
        return PollStep::Skip { interval_ms: config.error_interval_ms, index };
    }
    if topic_count == 0 {
        return PollStep::Skip { interval_ms: config.error_interval_ms, index };
    }
    PollStep::Sync { index }
}

/// How long the poller waits after a sync: the success interval when it
/// succeeded, the error interval when it failed.
pub fn interval_after_sync(config: &MailboxesConfig, succeeded: bool) -> (ms: u64)
    ensures
        succeeded ==> ms == config.success_interval_ms,
        !succeeded ==> ms == config.error_interval_ms,
{
    if succeeded {
        config.success_interval_ms
    } else {
        config.error_interval_ms
    }
}

/// The smallest of the sequence numbers, if any.
pub fn lowest_sequence(seqs: &Vec<u64>) -> (r: Option<u64>)
    ensures
        r is None <==> seqs@.len() == 0,
        r matches Some(m) ==> seqs@.contains(m) && forall|i: int|
            0 <= i < seqs@.len() ==> m <= #[trigger] seqs@[i],
{
    if seqs.len() == 0 {
        return None;
    }
    let mut m = seqs[0];
    let mut i: usize = 1;
    while i < seqs.len()
        invariant
            1 <= i <= seqs@.len(),
            seqs@.contains(m),
            forall|k: int| 0 <= k < i ==> m <= #[trigger] seqs@[k],
        decreases seqs@.len() - i,
    {
        if seqs[i] < m {
            m = seqs[i];
            assert(seqs@[i as int] == m);
        }
        i = i + 1;
    }
    Some(m)
}

/// The positions, in a log read from sequence number `lowest` on and of
/// length `log_len`, of the missing sequence numbers that the log holds, in
/// the order of `seqs`.
pub open spec fn republish_positions(seqs: Seq<u64>, lowest: u64, log_len: nat) -> Seq<usize>
    decreases seqs.len(),
{
    if seqs.len() == 0 {
        Seq::empty()
    } else {
        let rest = republish_positions(seqs.drop_last(), lowest, log_len);
        let d = seqs.last() - lowest;
        if d < log_len {
            rest.push(d as usize)
        } else {
            rest
        }
    }
}

/// Which entries of the local log to publish to a mailbox that misses
/// `seqs`: the log was read from `lowest`, the smallest of them, on; the
/// entry of sequence number `s` stands at `s - lowest`, and those past the
/// end of the log are left out.
pub fn republish_indices(seqs: &Vec<u64>, lowest: u64, log_len: usize) -> (r: Vec<usize>)
    requires
        forall|i: int| 0 <= i < seqs@.len() ==> lowest <= #[trigger] seqs@[i],
    ensures
        r@ == republish_positions(seqs@, lowest, log_len as nat),
        forall|i: int| 0 <= i < r@.len() ==> #[trigger] r@[i] < log_len,
{
    let mut r: Vec<usize> = Vec::new();
    let mut i: usize = 0;
    while i < seqs.len()
        invariant
            0 <= i <= seqs@.len(),
            forall|k: int| 0 <= k < seqs@.len() ==> lowest <= #[trigger] seqs@[k],
            r@ == republish_positions(seqs@.take(i as int), lowest, log_len as nat),
            forall|k: int| 0 <= k < r@.len() ==> #[trigger] r@[k] < log_len,
        decreases seqs@.len() - i,
    {
        assert(seqs@.take(i + 1).drop_last() == seqs@.take(i as int));
        let d = seqs[i] - lowest;
        if d < log_len as u64 {
            r.push(d as usize);
        }
        i = i + 1;
    }
    assert(seqs@.take(i as int) == seqs@);
    r
}

/// Each position chosen for republishing is that of a missing sequence
/// number in the log read from `lowest` on.
pub proof fn lemma_republish_positions_missing(seqs: Seq<u64>, lowest: u64, log_len: nat, k: int)
    requires
        forall|i: int| 0 <= i < seqs.len() ==> lowest <= #[trigger] seqs[i],
        0 <= k < republish_positions(seqs, lowest, log_len).len(),
        log_len <= usize::MAX,
    ensures
        republish_positions(seqs, lowest, log_len)[k] < log_len,
        seqs.contains((lowest + republish_positions(seqs, lowest, log_len)[k]) as u64),
    decreases seqs.len(),
{
    let rest = republish_positions(seqs.drop_last(), lowest, log_len);
    if k < rest.len() {
        lemma_republish_positions_missing(seqs.drop_last(), lowest, log_len, k);
        let s = (lowest + rest[k]) as u64;
        let j = choose|j: int| 0 <= j < seqs.drop_last().len() && seqs.drop_last()[j] == s;
        assert(seqs[j] == s);
    } else {
        let d = seqs.last() - lowest;
        assert(republish_positions(seqs, lowest, log_len)[k] == d as usize);
        assert(lowest + d == seqs.last());
        assert(seqs[seqs.len() - 1] == seqs.last());
    }
}

/// `m` is the smallest of the sequence numbers.
pub open spec fn is_lowest(seqs: Seq<u64>, m: u64) -> bool {
    seqs.contains(m) && forall|i: int| 0 <= i < seqs.len() ==> m <= #[trigger] seqs[i]
}

/// The smallest of the sequence numbers (of a nonempty list).
pub open spec fn lowest_of(seqs: Seq<u64>) -> u64 {
    choose|m: u64| is_lowest(seqs, m)
}

/// The smallest number is the one `lowest_of` names.
proof fn lemma_lowest_unique(seqs: Seq<u64>, m: u64)
    requires
        is_lowest(seqs, m),
    ensures
        lowest_of(seqs) == m,
{
    let c = lowest_of(seqs);
    assert(is_lowest(seqs, c));
    let i = choose|i: int| 0 <= i < seqs.len() && seqs[i] == m;
    let j = choose|j: int| 0 <= j < seqs.len() && seqs[j] == c;
    assert(c <= seqs[i]);
    assert(m <= seqs[j]);
}

/// The local logs that syncing one topic reads: for each author whose
/// operations the mailbox misses, in the order of the response, the author
/// and the lowest missing sequence number, from which the log is read;
/// authors with nothing missing are skipped. A topic without a local
/// receiver is skipped altogether.
pub open spec fn sync_reads(has_sender: bool, missing: Seq<([u8; 32], Vec<u64>)>) -> Seq<
    ([u8; 32], u64),
>
    decreases missing.len(),
{
    if !has_sender || missing.len() == 0 {
        Seq::empty()
    } else {
        let rest = sync_reads(has_sender, missing.drop_last());
        let (a, seqs) = missing.last();
        if seqs@.len() > 0 {
            rest.push((a, lowest_of(seqs@)))
        } else {
            rest
        }
    }
}

/// What syncing one topic does with a mailbox's answer before any log is
/// read.
pub struct TopicSyncPlan {
    /// The fetched operations to hand to the topic's receiver.
    pub forward: Vec<Vec<u8>>,
    /// The local logs to read, by author, from the given sequence number on.
    pub reads: Vec<([u8; 32], u64)>,
}

/// Plans the sync of one topic from the mailbox's answer: the fetched
/// operations go to the topic's receiver, and for each author the mailbox
/// misses operations of, the author's log is read from the lowest missing
/// number on. Without a receiver for the topic, the answer is dropped.
pub fn plan_topic_sync(has_sender: bool, ops: Vec<Vec<u8>>, missing: &Vec<([u8; 32], Vec<u64>)>) -> (r:
    TopicSyncPlan)
    ensures
        r.forward@ == (if has_sender {
            ops@
        } else {
            Seq::<Vec<u8>>::empty()
        }),
        r.reads@ == sync_reads(has_sender, missing@),
{
    if !has_sender {
        return TopicSyncPlan { forward: Vec::new(), reads: Vec::new() };
    }
    let mut reads: Vec<([u8; 32], u64)> = Vec::new();
    let mut i: usize = 0;
    while i < missing.len()
        invariant
            has_sender,
            0 <= i <= missing@.len(),
            reads@ == sync_reads(has_sender, missing@.take(i as int)),
        decreases missing@.len() - i,
    {
        assert(missing@.take(i + 1).drop_last() == missing@.take(i as int));
        assert(missing@.take(i + 1).last() == missing@[i as int]);
        match lowest_sequence(&missing[i].1) {
            Some(m) => {
                proof {
                    lemma_lowest_unique(missing@[i as int].1@, m);
                }
                reads.push((missing[i].0, m));
            },
            None => {},
        }
        i = i + 1;
    }
    assert(missing@.take(i as int) == missing@);
    TopicSyncPlan { forward: ops, reads }
}

/// The entries of a log read from `lowest` on that a mailbox missing `seqs`
/// is sent back: those at `republish_positions`, in that order.
pub open spec fn republished(seqs: Seq<u64>, lowest: u64, log: Seq<Seq<u8>>) -> Seq<Seq<u8>> {
    republish_positions(seqs, lowest, log.len()).map_values(|p: usize| log[p as int])
}

/// The operations to publish back to a mailbox that misses `seqs` of an
/// author, out of the author's log read from `lowest` (the smallest of
/// `seqs`) on: the entry of each missing sequence number that the log holds,
/// in the order of `seqs`.
pub fn republish_ops(seqs: &Vec<u64>, lowest: u64, log: &Vec<Vec<u8>>) -> (r: Vec<Vec<u8>>)
    requires
        forall|i: int| 0 <= i < seqs@.len() ==> lowest <= #[trigger] seqs@[i],
    ensures
        r@.map_values(|o: Vec<u8>| o@) == republished(
            seqs@,
            lowest,
            log@.map_values(|o: Vec<u8>| o@),
        ),
{
    let ghost lv = log@.map_values(|o: Vec<u8>| o@);
    let idx = republish_indices(seqs, lowest, log.len());
    let mut r: Vec<Vec<u8>> = Vec::new();
    let mut k: usize = 0;
    while k < idx.len()
        invariant
            0 <= k <= idx@.len(),
            lv == log@.map_values(|o: Vec<u8>| o@),
            lv.len() == log@.len(),
            idx@ == republish_positions(seqs@, lowest, log@.len() as nat),
            forall|j: int| 0 <= j < idx@.len() ==> #[trigger] idx@[j] < log@.len(),
            r@.map_values(|o: Vec<u8>| o@) == idx@.take(k as int).map_values(
                |p: usize| lv[p as int],
            ),
        decreases idx@.len() - k,
    {
        let o = log[idx[k]].clone();
        let ghost before = r@.map_values(|o: Vec<u8>| o@);
        r.push(o);
        assert(r@.map_values(|o: Vec<u8>| o@) =~= before.push(lv[idx@[k as int] as int]));
        assert(idx@.take(k + 1).map_values(|p: usize| lv[p as int]) =~= idx@.take(k as int).map_values(
            |p: usize| lv[p as int],
        ).push(lv[idx@[k as int] as int]));
        k = k + 1;
    }
    assert(idx@.take(k as int) == idx@);
    r
}

/// The mailboxes that a node polls, and the topics it is subscribed to.
pub struct Mailboxes<M> {
    mailboxes: Vec<M>,
    topics: Vec<[u8; 32]>,
}

/// The topics are in increasing byte order, each once.
pub open spec fn topics_sorted(v: Seq<[u8; 32]>) -> bool {
    forall|i: int, j: int| 0 <= i < j < v.len() ==> bytes_lt(#[trigger] v[i]@, #[trigger] v[j]@)
}

/// The set of topics of the list.
pub open spec fn topic_set(v: Seq<[u8; 32]>) -> Set<Seq<u8>> {
    Set::new(|t: Seq<u8>| exists|i: int| 0 <= i < v.len() && #[trigger] v[i]@ == t)
}

impl<M> Mailboxes<M> {
    pub closed spec fn wf(&self) -> bool {
        topics_sorted(self.topics@)
    }

    /// The mailboxes, in the order they were added.
    pub closed spec fn clients(&self) -> Seq<M> {
        self.mailboxes@
    }

    /// The topics subscribed to.
    pub closed spec fn subscribed(&self) -> Set<Seq<u8>> {
        topic_set(self.topics@)
    }

    /// No mailbox and no topic yet.
    pub fn new() -> (r: Self)
        ensures
            r.wf(),
            r.clients() == Seq::<M>::empty(),
            r.subscribed() == Set::<Seq<u8>>::empty(),
    {
        let r = Mailboxes { mailboxes: Vec::new(), topics: Vec::new() };
        assert(topic_set(r.topics@) =~= Set::<Seq<u8>>::empty());
        r
    }

    /// Adds a mailbox to poll.
    pub fn add(&mut self, mailbox: M)
        ensures
            final(self).clients() == old(self).clients().push(mailbox),
            final(self).subscribed() == old(self).subscribed(),
            final(self).wf() == old(self).wf(),
    {
        self.mailboxes.push(mailbox);
    }

    /// Removes every mailbox.
    pub fn clear(&mut self)
        ensures
            final(self).clients() == Seq::<M>::empty(),
            final(self).subscribed() == old(self).subscribed(),
            final(self).wf() == old(self).wf(),
    {
        self.mailboxes.clear();
    }

    /// The number of mailboxes.
    pub fn len(&self) -> (n: usize)
        ensures
            n == self.clients().len(),
    {
        self.mailboxes.len()
    }

    /// Subscribes to `topic`; subscribing again changes nothing.
    pub fn subscribe(&mut self, topic: [u8; 32])
        requires
            old(self).wf(),
        ensures
            final(self).wf(),
            final(self).subscribed() == old(self).subscribed().insert(topic@),
            final(self).clients() == old(self).clients(),
    {
        let ghost o = self.topics@;
        let mut p: usize = 0;
        while p < self.topics.len()
            invariant
                self.topics@ == o,
                topics_sorted(o),
                0 <= p <= o.len(),
                forall|k: int| 0 <= k < p ==> bytes_lt(#[trigger] o[k]@, topic@),
            ensures
                self.topics@ == o,
                0 <= p <= o.len(),
                forall|k: int| 0 <= k < p ==> bytes_lt(#[trigger] o[k]@, topic@),
                p < o.len() ==> !bytes_lt(o[p as int]@, topic@),
            decreases o.len() - p,
        {
            if !id_lt(&self.topics[p], &topic) {
                break;
            }
            p = p + 1;
        }
        proof {
            lemma_bytes_lt_total(topic@, topic@);
        }
        if p < self.topics.len() && same_id(&self.topics[p], &topic) {
            assert(topic_set(o) =~= topic_set(o).insert(topic@)) by {
                assert(o[p as int]@ == topic@);
            }
            return;
        }
        self.topics.insert(p, topic);
        proof {
            let n = self.topics@;
            assert(n =~= o.insert(p as int, topic));
            if p < o.len() {
                assert(o[p as int]@.len() == 32 && topic@.len() == 32);
                assert(o[p as int]@ != topic@);
                lemma_bytes_lt_total(o[p as int]@, topic@);
                assert(bytes_lt(topic@, o[p as int]@));
            }
            assert forall|k: int| p <= k < o.len() implies bytes_lt(topic@, #[trigger] o[k]@) by {
                if k > p {
                    assert(bytes_lt(o[p as int]@, o[k]@));
                    lemma_bytes_transitive(topic@, o[p as int]@, o[k]@);
                }
            }
            assert forall|i: int, j: int| 0 <= i < j < n.len() implies bytes_lt(#[trigger] n[i]@, #[trigger] n[j]@) by {
                if j < p {
                    assert(bytes_lt(o[i]@, o[j]@));
                } else if j == p {
                    assert(bytes_lt(o[i]@, topic@));
                } else if i < p {
                    assert(n[j] == o[j - 1]);
                    assert(bytes_lt(o[i]@, topic@));
                    assert(bytes_lt(topic@, o[j - 1]@));
                    lemma_bytes_transitive(o[i]@, topic@, o[j - 1]@);
                } else if i == p {
                    assert(n[j] == o[j - 1]);
                } else {
                    assert(bytes_lt(o[i - 1]@, o[j - 1]@));
                }
            }
            assert(topic_set(n) =~= topic_set(o).insert(topic@)) by {
                assert forall|t: Seq<u8>| topic_set(o).insert(topic@).contains(t) implies topic_set(n).contains(t) by {
                    if t == topic@ {
                        assert(n[p as int]@ == t);
                    } else {
                        let i = choose|i: int| 0 <= i < o.len() && #[trigger] o[i]@ == t;
                        if i < p {
                            assert(n[i] == o[i]);
                        } else {
                            assert(n[i + 1] == o[i]);
                        }
                    }
                }
                assert forall|t: Seq<u8>| topic_set(n).contains(t) implies topic_set(o).insert(topic@).contains(t) by {
                    let i = choose|i: int| 0 <= i < n.len() && #[trigger] n[i]@ == t;
                    if i < p {
                        assert(o[i] == n[i]);
                    } else if i > p {
                        assert(o[i - 1] == n[i]);
                    }
                }
            }
        }
    }

    /// Unsubscribes from `topic`; a topic not subscribed to changes nothing.
    pub fn unsubscribe(&mut self, topic: &[u8; 32])
        requires
            old(self).wf(),
        ensures
            final(self).wf(),
            final(self).subscribed() == old(self).subscribed().remove(topic@),
            final(self).clients() == old(self).clients(),
    {
        let ghost o = self.topics@;
        let mut p: usize = 0;
        while p < self.topics.len()
            invariant
                self.topics@ == o,
                0 <= p <= o.len(),
                forall|k: int| 0 <= k < p ==> #[trigger] o[k]@ != topic@,
            ensures
                self.topics@ == o,
                0 <= p <= o.len(),
                forall|k: int| 0 <= k < p ==> #[trigger] o[k]@ != topic@,
                p < o.len() ==> o[p as int]@ == topic@,
            decreases o.len() - p,
        {
            if same_id(&self.topics[p], topic) {
                break;
            }
            p = p + 1;
        }
        if p == self.topics.len() {
            assert(topic_set(o) =~= topic_set(o).remove(topic@));
            return;
        }
        self.topics.remove(p);
        proof {
            let n = self.topics@;
            assert(n =~= o.remove(p as int));
            assert(o[p as int]@ == topic@);
            assert forall|i: int, j: int| 0 <= i < j < n.len() implies bytes_lt(#[trigger] n[i]@, #[trigger] n[j]@) by {
                if j < p {
                    assert(bytes_lt(o[i]@, o[j]@));
                } else if i < p {
                    assert(n[j] == o[j + 1]);
                    assert(bytes_lt(o[i]@, o[j + 1]@));
                } else {
                    assert(bytes_lt(o[i + 1]@, o[j + 1]@));
                }
            }
            assert forall|k: int| 0 <= k < o.len() && k != p implies #[trigger] o[k]@ != topic@ by {
                if k < p {
                    assert(bytes_lt(o[k]@, o[p as int]@));
                } else {
                    assert(bytes_lt(o[p as int]@, o[k]@));
                }
                lemma_bytes_lt_total(topic@, topic@);
            }
            assert(topic_set(n) =~= topic_set(o).remove(topic@)) by {
                assert forall|t: Seq<u8>| topic_set(o).remove(topic@).contains(t) implies topic_set(n).contains(t) by {
                    let i = choose|i: int| 0 <= i < o.len() && #[trigger] o[i]@ == t;
                    if i < p {
                        assert(n[i] == o[i]);
                    } else {
                        assert(i != p);
                        assert(n[i - 1] == o[i]);
                    }
                }
                assert forall|t: Seq<u8>| topic_set(n).contains(t) implies topic_set(o).remove(topic@).contains(t) by {
                    let i = choose|i: int| 0 <= i < n.len() && #[trigger] n[i]@ == t;
                    if i < p {
                        assert(o[i] == n[i]);
                    } else {
                        assert(o[i + 1] == n[i]);
                    }
                }
            }
        }
    }

    /// The topics subscribed to, in increasing byte order, each once.
    pub fn subscribed_topics(&self) -> (r: Vec<[u8; 32]>)
        requires
            self.wf(),
        ensures
            topics_sorted(r@),
            topic_set(r@) == self.subscribed(),
    {
        let mut r: Vec<[u8; 32]> = Vec::new();
        let mut i: usize = 0;
        while i < self.topics.len()
            invariant
                0 <= i <= self.topics@.len(),
                r@ == self.topics@.take(i as int),
            decreases self.topics@.len() - i,
        {
            r.push(self.topics[i]);
            assert(self.topics@.take(i + 1) =~= self.topics@.take(i as int).push(self.topics@[i as int]));
            i = i + 1;
        }
        assert(self.topics@.take(i as int) =~= self.topics@);
        r
    }
}

/// A missing sequence number is held by a log read from `lowest` on, of
/// length `log_len`.
pub open spec fn held_from(lowest: u64, log_len: nat) -> spec_fn(u64) -> bool {
    |s: u64| s - lowest < log_len
}

/// Where sequence number `s` stands in a log read from `lowest` on.
pub open spec fn place_from(lowest: u64) -> spec_fn(u64) -> usize {
    |s: u64| (s - lowest) as usize
}

/// Every missing operation that the local log holds is republished, and
/// nothing else: the positions are those of the missing sequence numbers
/// that the log read from `lowest` holds, in the mailbox's order, each at its
/// place `s - lowest`.
pub proof fn lemma_republish_exactly_held_missing(seqs: Seq<u64>, lowest: u64, log_len: nat)
    requires
        forall|i: int| 0 <= i < seqs.len() ==> lowest <= #[trigger] seqs[i],
    ensures
        republish_positions(seqs, lowest, log_len) == seqs.filter(held_from(lowest, log_len)).map_values(
            place_from(lowest),
        ),
    decreases seqs.len(),
{
    let p = held_from(lowest, log_len);
    let m = place_from(lowest);
    reveal(Seq::filter);
    if seqs.len() > 0 {
        let d = seqs.drop_last();
        assert forall|i: int| 0 <= i < d.len() implies lowest <= #[trigger] d[i] by {
            assert(d[i] == seqs[i]);
        }
        lemma_republish_exactly_held_missing(d, lowest, log_len);
        let f = d.filter(p);
        assert(seqs.filter(p) == if p(seqs.last()) {
            f.push(seqs.last())
        } else {
            f
        });
        if p(seqs.last()) {
            assert(f.push(seqs.last()).map_values(m) =~= f.map_values(m).push(m(seqs.last())));
        }
    } else {
        assert(seqs.filter(p) =~= Seq::<u64>::empty());
        assert(seqs.filter(p).map_values(m) =~= Seq::<usize>::empty());
    }
}

/// The operations republished out of a log read from `lowest` on are exactly
/// the log's entries of the missing sequence numbers it holds, in the
/// mailbox's order.
pub proof fn lemma_republished_ops_exactly_held_missing(seqs: Seq<u64>, lowest: u64, log: Seq<Seq<u8>>)
    requires
        forall|i: int| 0 <= i < seqs.len() ==> lowest <= #[trigger] seqs[i],
        log.len() <= usize::MAX,
    ensures
        republished(seqs, lowest, log) == seqs.filter(held_from(lowest, log.len())).map_values(
            |s: u64| log[s - lowest],
        ),
{
    let p = held_from(lowest, log.len());
    let f = seqs.filter(p);
    lemma_republish_exactly_held_missing(seqs, lowest, log.len());
    seqs.lemma_filter_len(p);
    assert forall|i: int| 0 <= i < f.len() implies #[trigger] republished(seqs, lowest, log)[i] == log[f[i] - lowest] by {
        seqs.lemma_filter_pred(p, i);
        assert(f.contains(f[i]));
        seqs.lemma_filter_contains_rev(p, f[i]);
        let j = choose|j: int| 0 <= j < seqs.len() && seqs[j] == f[i];
        assert(lowest <= seqs[j]);
        assert(f[i] - lowest < log.len());
    }
    assert(republished(seqs, lowest, log) =~= f.map_values(|s: u64| log[s - lowest]));
}

} // verus!
