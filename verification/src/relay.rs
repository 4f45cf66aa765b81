//! An in-memory relay: operations are published to topics, and each client
//! fetches, per topic, the operations published since its last fetch.
use vstd::prelude::*;

use crate::keyed::{
    find_key, has_key, keys_distinct, lemma_push_entry, lemma_update_value, value_at,
};
use crate::topic::LogId;
use vstd::math::min;

verus! {

/// How long a relay subscription waits after a fetch: three seconds, in
/// milliseconds.
pub const RELAY_FETCH_INTERVAL_MS: u64 = 3000;

/// How long a relay subscription waits after a failed fetch: fifteen
/// seconds, in milliseconds.
pub const RELAY_ERROR_INTERVAL_MS: u64 = 15000;

/// The operations of every topic, in publication order.
pub struct MemRelay {
    ops: Vec<([u8; 32], Vec<Vec<u8>>)>,
}

/// A client's position in each topic: how many operations of the topic it
/// has fetched.
pub struct MemRelayClient {
    latest: Vec<([u8; 32], usize)>,
}

pub open spec fn log_views(v: Seq<Vec<u8>>) -> Seq<Seq<u8>> {
    v.map_values(|o: Vec<u8>| o@)
}

impl MemRelay {
    pub closed spec fn wf(&self) -> bool {
        keys_distinct(self.ops@)
    }

    /// Whether anything was published to topic `t`.
    pub closed spec fn has_topic(&self, t: Seq<u8>) -> bool {
        has_key(self.ops@, t)
    }

    /// The operations published to topic `t`, in order (empty when none).
    pub closed spec fn log(&self, t: Seq<u8>) -> Seq<Seq<u8>> {
        if has_key(self.ops@, t) {
            log_views(value_at(self.ops@, t)@)
        } else {
            Seq::empty()
        }
    }

    /// A topic that nothing was published to has no operations.
    pub proof fn lemma_unknown_topic_empty(&self, t: Seq<u8>)
        ensures
            !self.has_topic(t) ==> self.log(t) == Seq::<Seq<u8>>::empty(),
    {
    }

    /// A fresh relay: no topic known, no operation held.
    pub fn new() -> (r: Self)
        ensures
            r.wf(),
            forall|t: Seq<u8>| !r.has_topic(t),
            forall|t: Seq<u8>| #[trigger] r.log(t) == Seq::<Seq<u8>>::empty(),
    {
        MemRelay { ops: Vec::new() }
    }

    /// A client that has fetched nothing yet.
    pub fn client(&self) -> (c: MemRelayClient)
        ensures
            c.wf(),
            forall|t: Seq<u8>| c.position(t) == 0,
    {
        MemRelayClient { latest: Vec::new() }
    }
}

impl MemRelayClient {
    pub closed spec fn wf(&self) -> bool {
        keys_distinct(self.latest@)
    }

    /// How many operations of topic `t` this client has fetched.
    pub closed spec fn position(&self, t: Seq<u8>) -> nat {
        if has_key(self.latest@, t) {
            value_at(self.latest@, t) as nat
        } else {
            0
        }
    }

    /// Appends `op` to the operations of `topic`.
    pub fn publish(&self, relay: &mut MemRelay, topic: &LogId, op: Vec<u8>)
        requires
            old(relay).wf(),
        ensures
            final(relay).wf(),
            final(relay).has_topic(topic.0@),
            final(relay).log(topic.0@) == old(relay).log(topic.0@).push(op@),
            forall|t: Seq<u8>| #![trigger final(relay).log(t)] t != topic.0@ ==> final(relay).log(t)
                == old(relay).log(t) && (final(relay).has_topic(t) == old(relay).has_topic(t)),
    {
        let ghost old_ops = relay.ops@;
        match find_key(&relay.ops, &topic.0) {
            Some(i) => {
                proof {
                    crate::keyed::lemma_value_at(old_ops, i as int);
                }
                let (key, mut log) = relay.ops.remove(i);
                let ghost old_log = log@;
                log.push(op);
                let ghost new_log = log;
                relay.ops.insert(i, (key, log));
                proof {
                    assert(relay.ops@ =~= old_ops.update(i as int, (old_ops[i as int].0, new_log)));
                    lemma_update_value(old_ops, i as int, new_log);
                    assert(log_views(new_log@) =~= log_views(old_log).push(op@));
                }
            },
            None => {
                let mut log = Vec::new();
                log.push(op);
                proof {
                    lemma_push_entry(old_ops, topic.0, log);
                    assert(log_views(log@) =~= Seq::<Seq<u8>>::empty().push(op@));
                }
                relay.ops.push((topic.0, log));
            },
        }
    }

    /// The operations of `topic` published since this client's last fetch
    /// of it (all of them on a first fetch), after which the client stands
    /// at the end of the topic. A topic with nothing published gives
    /// nothing and leaves the client as it was.
    pub fn fetch(&mut self, relay: &MemRelay, topic: &LogId) -> (ops: Vec<Vec<u8>>)
        requires
            old(self).wf(),
            relay.wf(),
        ensures
            final(self).wf(),
            log_views(ops@) == relay.log(topic.0@).skip(
                min(old(self).position(topic.0@) as int, relay.log(topic.0@).len() as int),
            ),
            relay.has_topic(topic.0@) ==> final(self).position(topic.0@) == relay.log(
                topic.0@,
            ).len(),
            !relay.has_topic(topic.0@) ==> ops@.len() == 0 && final(self).position(topic.0@)
                == old(self).position(topic.0@),
            forall|t: Seq<u8>| #![trigger final(self).position(t)] t != topic.0@ ==> final(self).position(t)
                == old(self).position(t),
    {
        let ghost old_latest = self.latest@;
        let since: usize = match find_key(&self.latest, &topic.0) {
            Some(i) => {
                proof {
                    crate::keyed::lemma_value_at(old_latest, i as int);
                }
                self.latest[i].1
            },
            None => 0,
        };
        match find_key(&relay.ops, &topic.0) {
            None => {
                let out: Vec<Vec<u8>> = Vec::new();
                assert(log_views(out@) =~= relay.log(topic.0@).skip(0));
                out
            },
            Some(j) => {
                proof {
                    crate::keyed::lemma_value_at(relay.ops@, j as int);
                }
                let log = &relay.ops[j].1;
                let mut out: Vec<Vec<u8>> = Vec::new();
                let mut k: usize = since;
                let ghost start = min(since as int, log@.len() as int);
                if k > log.len() {
                    k = log.len();
                }
                while k < log.len()
                    invariant
                        start <= k <= log@.len(),
                        start == min(since as int, log@.len() as int),
                        log_views(out@) == log_views(log@).subrange(start, k as int),
                    decreases log@.len() - k,
                {
                    let o = log[k].clone();
                    assert(o@ =~= log@[k as int]@);
                    let ghost before = log_views(out@);
                    out.push(o);
                    assert(log_views(out@) =~= before.push(log@[k as int]@));
                    assert(log_views(out@) =~= log_views(log@).subrange(start, k + 1));
                    k = k + 1;
                }
                assert(log_views(log@).subrange(start, log@.len() as int) =~= log_views(log@).skip(start));
                let n = log.len();
                match find_key(&self.latest, &topic.0) {
                    Some(i) => {
                        proof {
                            lemma_update_value(old_latest, i as int, n);
                        }
                        let key = self.latest[i].0;
                        self.latest.set(i, (key, n));
                    },
                    None => {
                        proof {
                            lemma_push_entry(old_latest, topic.0, n);
                        }
                        self.latest.push((topic.0, n));
                    },
                }
                out
            },
        }
    }
}

/// A client that has fetched a topic and fetches it again, with nothing
/// published in between, gets nothing.
pub proof fn lemma_second_fetch_empty(relay: &MemRelay, client: &MemRelayClient, t: Seq<u8>)
    requires
        client.position(t) == relay.log(t).len(),
    ensures
        relay.log(t).skip(min(client.position(t) as int, relay.log(t).len() as int)).len() == 0,
{
}

/// A client that stood at the end of a topic gets, on its next fetch,
/// exactly the operations published to the topic since, in their order.
pub proof fn lemma_fetch_returns_published(
    before: &MemRelay,
    after: &MemRelay,
    client: &MemRelayClient,
    t: Seq<u8>,
    published: Seq<Seq<u8>>,
)
    requires
        client.position(t) == before.log(t).len(),
        after.log(t) == before.log(t) + published,
    ensures
        after.log(t).skip(min(client.position(t) as int, after.log(t).len() as int)) == published,
{
    assert((before.log(t) + published).skip(before.log(t).len() as int) =~= published);
}

} // verus!
