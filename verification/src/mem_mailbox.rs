//! An in-memory mailbox: operations are kept by topic, author and sequence
//! number; a fetch returns, for each author the client names, the
//! operations above the client's height and the sequence numbers the
//! mailbox lacks.
use vstd::prelude::*;

use crate::keyed::{find_key, has_key, keys_distinct, lemma_push_entry, lemma_update_value, value_at};
use crate::topic::{same_id, LogId};

verus! {

/// One stored operation: its topic, its author, its sequence number and its
/// bytes.
pub struct MailboxEntry {
    pub topic: [u8; 32],
    pub author: [u8; 32],
    pub seq_num: u64,
    pub op: Vec<u8>,
}

/// The operations of every topic and author, by sequence number.
pub struct MemMailbox {
    entries: Vec<MailboxEntry>,
}

/// What a fetch of one topic returns.
pub struct FetchTopicResponse {
    /// The operations above the heights the client gave, author by author,
    /// each author's in increasing sequence order.
    pub ops: Vec<Vec<u8>>,
    /// For each author the mailbox holds operations of, the sequence numbers
    /// up to the larger of the client's height and the last one held that the
    /// mailbox lacks.
    pub missing: Vec<([u8; 32], Vec<u64>)>,
}

/// The entry at `i` is the operation of `t`, `a`, `s`.
pub open spec fn entry_is(e: Seq<MailboxEntry>, i: int, t: Seq<u8>, a: Seq<u8>, s: u64) -> bool {
    e[i].topic@ == t && e[i].author@ == a && e[i].seq_num == s
}

/// No (topic, author, sequence number) is held twice.
pub open spec fn entries_distinct(e: Seq<MailboxEntry>) -> bool {
    forall|i: int, j: int|
        #![trigger e[i], e[j]]
        0 <= i < e.len() && 0 <= j < e.len() && i != j ==> !entry_is(
            e,
            j,
            e[i].topic@,
            e[i].author@,
            e[i].seq_num,
        )
}

/// Whether the mailbox holds an operation of `t`, `a`, `s`.
pub open spec fn holds(e: Seq<MailboxEntry>, t: Seq<u8>, a: Seq<u8>, s: u64) -> bool {
    exists|i: int| 0 <= i < e.len() && #[trigger] entry_is(e, i, t, a, s)
}

/// The operation held for `t`, `a`, `s` (empty where none is held).
pub open spec fn held_op(e: Seq<MailboxEntry>, t: Seq<u8>, a: Seq<u8>, s: u64) -> Seq<u8> {
    if holds(e, t, a, s) {
        e[choose|i: int| 0 <= i < e.len() && #[trigger] entry_is(e, i, t, a, s)].op@
    } else {
        Seq::empty()
    }
}

/// Whether the mailbox holds any operation of `a` in `t`.
pub open spec fn has_author(e: Seq<MailboxEntry>, t: Seq<u8>, a: Seq<u8>) -> bool {
    exists|s: u64| #[trigger] holds(e, t, a, s)
}

/// `m` is the highest sequence number held of `a` in `t`.
pub open spec fn is_last_seq(e: Seq<MailboxEntry>, t: Seq<u8>, a: Seq<u8>, m: u64) -> bool {
    holds(e, t, a, m) && forall|s: u64| #[trigger] holds(e, t, a, s) ==> s <= m
}

/// The held operations of `a` in `t` with numbers in `0..n` above `height`,
/// in increasing order.
pub open spec fn new_ops(e: Seq<MailboxEntry>, t: Seq<u8>, a: Seq<u8>, height: u64, n: nat) -> Seq<
    Seq<u8>,
>
    decreases n,
{
    if n == 0 {
        Seq::empty()
    } else {
        let k = (n - 1) as nat;
        let rest = new_ops(e, t, a, height, k);
        if k <= u64::MAX && holds(e, t, a, k as u64) && k > height {
            rest.push(held_op(e, t, a, k as u64))
        } else {
            rest
        }
    }
}

/// The numbers in `0..n` not held of `a` in `t`, in increasing order.
pub open spec fn gaps(e: Seq<MailboxEntry>, t: Seq<u8>, a: Seq<u8>, n: nat) -> Seq<u64>
    decreases n,
{
    if n == 0 {
        Seq::empty()
    } else {
        let k = (n - 1) as nat;
        let rest = gaps(e, t, a, k);
        if k <= u64::MAX && !holds(e, t, a, k as u64) {
            rest.push(k as u64)
        } else {
            rest
        }
    }
}

/// How far a fetch looks for `a` at client height `h`: through the larger of
/// `h` and the last number held.
pub open spec fn reach(e: Seq<MailboxEntry>, t: Seq<u8>, a: Seq<u8>, h: u64) -> nat {
    let m = choose|m: u64| is_last_seq(e, t, a, m);
    if h > m {
        (h + 1) as nat
    } else {
        (m + 1) as nat
    }
}

/// The operations a fetch of `t` returns for the heights `mh`.
pub open spec fn fetched_ops(e: Seq<MailboxEntry>, t: Seq<u8>, mh: Seq<([u8; 32], u64)>) -> Seq<
    Seq<u8>,
>
    decreases mh.len(),
{
    if mh.len() == 0 {
        Seq::empty()
    } else {
        let rest = fetched_ops(e, t, mh.drop_last());
        let a = mh.last().0@;
        if has_author(e, t, a) {
            rest + new_ops(e, t, a, mh.last().1, reach(e, t, a, mh.last().1))
        } else {
            rest
        }
    }
}

/// `a` is reported in the missing part of a fetch: the client names it and
/// the mailbox holds operations of it.
pub open spec fn reported(e: Seq<MailboxEntry>, t: Seq<u8>, mh: Seq<([u8; 32], u64)>, a: Seq<u8>) -> bool {
    has_author(e, t, a) && exists|k: int| 0 <= k < mh.len() && #[trigger] mh[k].0@ == a
}

/// The client names `a` among its heights.
pub open spec fn named(mh: Seq<([u8; 32], u64)>, a: Seq<u8>) -> bool {
    exists|k: int| 0 <= k < mh.len() && #[trigger] mh[k].0@ == a
}

/// The operations of `t` among the first `n` held, in storage order, whose
/// authors the client does not name: it gets their whole logs.
pub open spec fn unnamed_ops(e: Seq<MailboxEntry>, t: Seq<u8>, mh: Seq<([u8; 32], u64)>, n: nat) -> Seq<
    Seq<u8>,
>
    decreases n,
{
    if n == 0 {
        Seq::empty()
    } else {
        let k = (n - 1) as nat;
        let rest = unnamed_ops(e, t, mh, k);
        if e[k as int].topic@ == t && !named(mh, e[k as int].author@) {
            rest.push(e[k as int].op@)
        } else {
            rest
        }
    }
}

pub open spec fn op_views(v: Seq<Vec<u8>>) -> Seq<Seq<u8>> {
    v.map_values(|o: Vec<u8>| o@)
}

/// Replacing the entry at `i` by one of the same topic, author and number
/// keeps the entries distinct and changes the operation held there only.
proof fn lemma_replace_entry(e: Seq<MailboxEntry>, i: int, x: MailboxEntry)
    requires
        entries_distinct(e),
        0 <= i < e.len(),
        x.topic@ == e[i].topic@,
        x.author@ == e[i].author@,
        x.seq_num == e[i].seq_num,
    ensures
        entries_distinct(e.update(i, x)),
        forall|t: Seq<u8>, a: Seq<u8>, s: u64|
            #[trigger] holds(e.update(i, x), t, a, s) == holds(e, t, a, s),
        held_op(e.update(i, x), x.topic@, x.author@, x.seq_num) == x.op@,
        forall|t: Seq<u8>, a: Seq<u8>, s: u64|
            !(t == x.topic@ && a == x.author@ && s == x.seq_num) ==> #[trigger] held_op(
                e.update(i, x),
                t,
                a,
                s,
            ) == held_op(e, t, a, s),
{
    let w = e.update(i, x);
    assert(w[i] == x);
    assert forall|j: int| 0 <= j < w.len() && j != i implies #[trigger] w[j] == e[j] by {}
    assert forall|p: int, q: int|
        #![trigger w[p], w[q]]
        0 <= p < w.len() && 0 <= q < w.len() && p != q implies !entry_is(
            w,
            q,
            w[p].topic@,
            w[p].author@,
            w[p].seq_num,
        ) by {
        assert(!entry_is(e, q, e[p].topic@, e[p].author@, e[p].seq_num)) by {
            let _a = e[p];
            let _b = e[q];
        }
    }
    assert forall|t: Seq<u8>, a: Seq<u8>, s: u64| #[trigger] holds(w, t, a, s) == holds(e, t, a, s) by {
        if holds(e, t, a, s) {
            let j = choose|j: int| 0 <= j < e.len() && #[trigger] entry_is(e, j, t, a, s);
            assert(entry_is(w, j, t, a, s));
        }
        if holds(w, t, a, s) {
            let j = choose|j: int| 0 <= j < w.len() && #[trigger] entry_is(w, j, t, a, s);
            assert(entry_is(e, j, t, a, s));
        }
    }
    assert(entry_is(w, i, x.topic@, x.author@, x.seq_num));
    let c = choose|j: int| 0 <= j < w.len() && #[trigger] entry_is(w, j, x.topic@, x.author@, x.seq_num);
    if c != i {
        let _a = w[c];
        let _b = w[i];
    }
    assert forall|t: Seq<u8>, a: Seq<u8>, s: u64|
        !(t == x.topic@ && a == x.author@ && s == x.seq_num) implies #[trigger] held_op(w, t, a, s)
        == held_op(e, t, a, s) by {
        if holds(e, t, a, s) {
            assert(holds(w, t, a, s));
            let cw = choose|j: int| 0 <= j < w.len() && #[trigger] entry_is(w, j, t, a, s);
            let ce = choose|j: int| 0 <= j < e.len() && #[trigger] entry_is(e, j, t, a, s);
            assert(entry_is(w, cw, t, a, s));
            if cw == i {
                assert(w[cw] == x);
            }
            assert(cw != i);
            assert(w[cw] == e[cw]);
            assert(entry_is(e, cw, t, a, s));
            if cw != ce {
                let _a = e[cw];
                let _b = e[ce];
            }
        } else {
            assert(!holds(w, t, a, s));
        }
    }
}

/// Appending an entry of a (topic, author, number) not held keeps the
/// entries distinct, holds it, and changes nothing else.
proof fn lemma_append_entry(e: Seq<MailboxEntry>, x: MailboxEntry)
    requires
        entries_distinct(e),
        !holds(e, x.topic@, x.author@, x.seq_num),
    ensures
        entries_distinct(e.push(x)),
        holds(e.push(x), x.topic@, x.author@, x.seq_num),
        held_op(e.push(x), x.topic@, x.author@, x.seq_num) == x.op@,
        forall|t: Seq<u8>, a: Seq<u8>, s: u64|
            !(t == x.topic@ && a == x.author@ && s == x.seq_num) ==> {
                &&& #[trigger] holds(e.push(x), t, a, s) == holds(e, t, a, s)
                &&& held_op(e.push(x), t, a, s) == held_op(e, t, a, s)
            },
{
    let w = e.push(x);
    let n = e.len() as int;
    assert(w[n] == x);
    assert forall|j: int| 0 <= j < n implies #[trigger] w[j] == e[j] by {}
    assert forall|p: int, q: int|
        #![trigger w[p], w[q]]
        0 <= p < w.len() && 0 <= q < w.len() && p != q implies !entry_is(
            w,
            q,
            w[p].topic@,
            w[p].author@,
            w[p].seq_num,
        ) by {
        if p == n {
            if entry_is(w, q, w[p].topic@, w[p].author@, w[p].seq_num) {
                assert(entry_is(e, q, x.topic@, x.author@, x.seq_num));
            }
        } else if q == n {
            if entry_is(w, q, w[p].topic@, w[p].author@, w[p].seq_num) {
                assert(entry_is(e, p, x.topic@, x.author@, x.seq_num));
            }
        } else {
            let _a = e[p];
            let _b = e[q];
        }
    }
    assert(entry_is(w, n, x.topic@, x.author@, x.seq_num));
    let c = choose|j: int| 0 <= j < w.len() && #[trigger] entry_is(w, j, x.topic@, x.author@, x.seq_num);
    if c != n {
        assert(entry_is(e, c, x.topic@, x.author@, x.seq_num));
    }
    assert forall|t: Seq<u8>, a: Seq<u8>, s: u64|
        !(t == x.topic@ && a == x.author@ && s == x.seq_num) implies {
        &&& #[trigger] holds(w, t, a, s) == holds(e, t, a, s)
        &&& held_op(w, t, a, s) == held_op(e, t, a, s)
    } by {
        if holds(e, t, a, s) {
            let j = choose|j: int| 0 <= j < e.len() && #[trigger] entry_is(e, j, t, a, s);
            assert(w[j] == e[j]);
            assert(entry_is(w, j, t, a, s));
            assert(holds(w, t, a, s));
            let cw = choose|j: int| 0 <= j < w.len() && #[trigger] entry_is(w, j, t, a, s);
            assert(entry_is(w, cw, t, a, s));
            if cw == n {
                assert(w[cw] == x);
            }
            assert(cw != n);
            assert(w[cw] == e[cw]);
            assert(entry_is(e, cw, t, a, s));
            if cw != j {
                let _a = e[cw];
                let _b = e[j];
            }
        }
        if holds(w, t, a, s) {
            let j = choose|j: int| 0 <= j < w.len() && #[trigger] entry_is(w, j, t, a, s);
            if j == n {
                assert(w[j] == x);
            }
            assert(j != n);
            assert(w[j] == e[j]);
            assert(entry_is(e, j, t, a, s));
        }
    }
}

impl MemMailbox {
    pub closed spec fn wf(&self) -> bool {
        entries_distinct(self.entries@)
    }

    /// The operations held, as stored.
    pub closed spec fn contents(&self) -> Seq<MailboxEntry> {
        self.entries@
    }

    /// Each stored entry holds the operation of its topic, author and number.
    pub proof fn lemma_entry_held(&self, i: int)
        requires
            self.wf(),
            0 <= i < self.contents().len(),
        ensures
            holds(
                self.contents(),
                self.contents()[i].topic@,
                self.contents()[i].author@,
                self.contents()[i].seq_num,
            ),
            held_op(
                self.contents(),
                self.contents()[i].topic@,
                self.contents()[i].author@,
                self.contents()[i].seq_num,
            ) == self.contents()[i].op@,
    {
        let e = self.entries@;
        assert(entry_is(e, i, e[i].topic@, e[i].author@, e[i].seq_num));
        let c = choose|j: int| 0 <= j < e.len() && #[trigger] entry_is(e, j, e[i].topic@, e[i].author@, e[i].seq_num);
        if c != i {
            let _a = e[c];
            let _b = e[i];
        }
    }

    /// No two stored entries share topic, author and number.
    pub proof fn lemma_entries_distinct(&self, i: int, j: int)
        requires
            self.wf(),
            0 <= i < self.contents().len(),
            0 <= j < self.contents().len(),
            i != j,
        ensures
            !(self.contents()[i].topic@ == self.contents()[j].topic@ && self.contents()[i].author@
                == self.contents()[j].author@ && self.contents()[i].seq_num
                == self.contents()[j].seq_num),
    {
        let e = self.entries@;
        let _a = e[i];
        let _b = e[j];
    }

    /// Every entry held is one of a (topic, author, number) held.
    pub proof fn lemma_held_has_entry(&self, t: Seq<u8>, a: Seq<u8>, s: u64)
        requires
            holds(self.contents(), t, a, s),
        ensures
            exists|i: int|
                0 <= i < self.contents().len() && #[trigger] entry_is(self.contents(), i, t, a, s),
    {
    }

    /// Every operation held, as (topic, author, number, bytes), in storage
    /// order.
    pub fn held(&self) -> (r: Vec<([u8; 32], [u8; 32], u64, Vec<u8>)>)
        ensures
            r@.len() == self.contents().len(),
            forall|i: int|
                #![trigger r@[i]]
                0 <= i < r@.len() ==> r@[i].0 == self.contents()[i].topic && r@[i].1
                    == self.contents()[i].author && r@[i].2 == self.contents()[i].seq_num
                    && r@[i].3@ == self.contents()[i].op@,
    {
        let mut out: Vec<([u8; 32], [u8; 32], u64, Vec<u8>)> = Vec::new();
        let mut i: usize = 0;
        while i < self.entries.len()
            invariant
                0 <= i <= self.entries@.len(),
                out@.len() == i,
                forall|k: int|
                    #![trigger out@[k]]
                    0 <= k < i ==> out@[k].0 == self.entries@[k].topic && out@[k].1
                        == self.entries@[k].author && out@[k].2 == self.entries@[k].seq_num
                        && out@[k].3@ == self.entries@[k].op@,
            decreases self.entries@.len() - i,
        {
            let x = &self.entries[i];
            let op = x.op.clone();
            assert(op@ =~= x.op@);
            out.push((x.topic, x.author, x.seq_num, op));
            i = i + 1;
        }
        out
    }

    pub fn new() -> (r: Self)
        ensures
            r.wf(),
            forall|t: Seq<u8>, a: Seq<u8>, s: u64| !holds(r.contents(), t, a, s),
    {
        MemMailbox { entries: Vec::new() }
    }

    fn find(&self, topic: &[u8; 32], author: &[u8; 32], s: u64) -> (r: Option<usize>)
        ensures
            match r {
                Some(i) => i < self.entries@.len() && entry_is(self.entries@, i as int, topic@, author@, s),
                None => !holds(self.entries@, topic@, author@, s),
            },
    {
        let mut i: usize = 0;
        while i < self.entries.len()
            invariant
                0 <= i <= self.entries@.len(),
                forall|j: int| 0 <= j < i ==> !#[trigger] entry_is(self.entries@, j, topic@, author@, s),
            decreases self.entries@.len() - i,
        {
            let e = &self.entries[i];
            if e.seq_num == s && same_id(&e.topic, topic) && same_id(&e.author, author) {
                return Some(i);
            }
            i = i + 1;
        }
        None
    }

    /// Stores `op` as the operation of `author` with number `seq_num` in
    /// `topic`, replacing what was held there.
    pub fn publish_one(&mut self, topic: &LogId, author: &[u8; 32], seq_num: u64, op: Vec<u8>)
        requires
            old(self).wf(),
        ensures
            final(self).wf(),
            holds(final(self).contents(), topic.0@, author@, seq_num),
            held_op(final(self).contents(), topic.0@, author@, seq_num) == op@,
            forall|t: Seq<u8>, a: Seq<u8>, s: u64|
                !(t == topic.0@ && a == author@ && s == seq_num) ==> {
                    &&& #[trigger] holds(final(self).contents(), t, a, s) == holds(
                        old(self).contents(),
                        t,
                        a,
                        s,
                    )
                    &&& held_op(final(self).contents(), t, a, s) == held_op(
                        old(self).contents(),
                        t,
                        a,
                        s,
                    )
                },
    {
        let ghost old_e = self.entries@;
        match self.find(&topic.0, author, seq_num) {
            Some(i) => {
                let old_entry = self.entries.remove(i);
                let entry = MailboxEntry {
                    topic: old_entry.topic,
                    author: old_entry.author,
                    seq_num,
                    op,
                };
                let ghost x = entry;
                self.entries.insert(i, entry);
                proof {
                    assert(self.entries@ =~= old_e.update(i as int, x));
                    lemma_replace_entry(old_e, i as int, x);
                }
            },
            None => {
                let entry = MailboxEntry { topic: topic.0, author: *author, seq_num, op };
                let ghost x = entry;
                self.entries.push(entry);
                proof {
                    lemma_append_entry(old_e, x);
                }
            },
        }
    }

    /// Stores each operation of `ops` (author, sequence number, bytes) in
    /// `topic`, in order; a later one replaces an earlier one of the same
    /// author and number.
    pub fn publish(&mut self, topic: &LogId, ops: &Vec<([u8; 32], u64, Vec<u8>)>)
        requires
            old(self).wf(),
        ensures
            final(self).wf(),
            forall|k: int|
                #![trigger ops@[k]]
                0 <= k < ops@.len() && (forall|j: int|
                    k < j < ops@.len() ==> !(ops@[j].0@ == ops@[k].0@ && ops@[j].1 == ops@[k].1))
                    ==> holds(final(self).contents(), topic.0@, ops@[k].0@, ops@[k].1) && held_op(
                    final(self).contents(),
                    topic.0@,
                    ops@[k].0@,
                    ops@[k].1,
                ) == ops@[k].2@,
            forall|t: Seq<u8>, a: Seq<u8>, s: u64|
                (t != topic.0@ || (forall|j: int|
                    0 <= j < ops@.len() ==> !(ops@[j].0@ == a && ops@[j].1 == s))) ==> {
                    &&& #[trigger] holds(final(self).contents(), t, a, s) == holds(
                        old(self).contents(),
                        t,
                        a,
                        s,
                    )
                    &&& held_op(final(self).contents(), t, a, s) == held_op(
                        old(self).contents(),
                        t,
                        a,
                        s,
                    )
                },
    {
        let ghost start = self.entries@;
        let mut i: usize = 0;
        while i < ops.len()
            invariant
                0 <= i <= ops@.len(),
                self.wf(),
                forall|k: int|
                    #![trigger ops@[k]]
                    0 <= k < i && (forall|j: int|
                        k < j < i ==> !(ops@[j].0@ == ops@[k].0@ && ops@[j].1 == ops@[k].1))
                        ==> holds(self.entries@, topic.0@, ops@[k].0@, ops@[k].1) && held_op(
                        self.entries@,
                        topic.0@,
                        ops@[k].0@,
                        ops@[k].1,
                    ) == ops@[k].2@,
                forall|t: Seq<u8>, a: Seq<u8>, s: u64|
                    (t != topic.0@ || (forall|j: int|
                        0 <= j < i ==> !(ops@[j].0@ == a && ops@[j].1 == s))) ==> {
                        &&& #[trigger] holds(self.entries@, t, a, s) == holds(start, t, a, s)
                        &&& held_op(self.entries@, t, a, s) == held_op(start, t, a, s)
                    },
            decreases ops@.len() - i,
        {
            let op = ops[i].2.clone();
            assert(op@ =~= ops@[i as int].2@);
            let ghost before = self.entries@;
            self.publish_one(topic, &ops[i].0, ops[i].1, op);
            proof {
                let a0 = ops@[i as int].0@;
                let s0 = ops@[i as int].1;
                assert forall|k: int|
                    #![trigger ops@[k]]
                    0 <= k < i + 1 && (forall|j: int|
                        k < j < i + 1 ==> !(ops@[j].0@ == ops@[k].0@ && ops@[j].1 == ops@[k].1))
                        implies holds(self.entries@, topic.0@, ops@[k].0@, ops@[k].1) && held_op(
                        self.entries@,
                        topic.0@,
                        ops@[k].0@,
                        ops@[k].1,
                    ) == ops@[k].2@ by {
                    if k < i {
                        assert(!(ops@[i as int].0@ == ops@[k].0@ && ops@[i as int].1 == ops@[k].1));
                        assert(holds(before, topic.0@, ops@[k].0@, ops@[k].1));
                    }
                }
                assert forall|t: Seq<u8>, a: Seq<u8>, s: u64|
                    (t != topic.0@ || (forall|j: int|
                        0 <= j < i + 1 ==> !(ops@[j].0@ == a && ops@[j].1 == s))) implies {
                        &&& #[trigger] holds(self.entries@, t, a, s) == holds(start, t, a, s)
                        &&& held_op(self.entries@, t, a, s) == held_op(start, t, a, s)
                    } by {
                    if t == topic.0@ {
                        assert(!(ops@[i as int].0@ == a && ops@[i as int].1 == s));
                    }
                    assert(holds(before, t, a, s) == holds(start, t, a, s));
                }
            }
            i = i + 1;
        }
    }

    /// The highest sequence number held of `author` in `topic`, if any.
    pub fn last_held(&self, topic: &[u8; 32], author: &[u8; 32]) -> (r: Option<u64>)
        ensures
            r is None <==> !has_author(self.contents(), topic@, author@),
            r matches Some(m) ==> is_last_seq(self.contents(), topic@, author@, m),
    {
        let ghost e = self.entries@;
        let mut best: Option<u64> = None;
        let mut i: usize = 0;
        while i < self.entries.len()
            invariant
                0 <= i <= e.len(),
                e == self.entries@,
                best is None ==> forall|j: int| 0 <= j < i ==> !#[trigger] entry_is_for(e, j, topic@, author@),
                best matches Some(m) ==> holds(e, topic@, author@, m) && forall|j: int|
                    0 <= j < i && #[trigger] entry_is_for(e, j, topic@, author@) ==> e[j].seq_num <= m,
            decreases e.len() - i,
        {
            let x = &self.entries[i];
            if same_id(&x.topic, topic) && same_id(&x.author, author) {
                assert(entry_is(e, i as int, topic@, author@, x.seq_num));
                match best {
                    None => {
                        best = Some(x.seq_num);
                    },
                    Some(m) => {
                        if x.seq_num > m {
                            best = Some(x.seq_num);
                        }
                    },
                }
            }
            i = i + 1;
        }
        proof {
            match best {
                None => {
                    assert forall|s: u64| !#[trigger] holds(e, topic@, author@, s) by {
                        if holds(e, topic@, author@, s) {
                            let j = choose|j: int| 0 <= j < e.len() && #[trigger] entry_is(e, j, topic@, author@, s);
                            assert(entry_is_for(e, j, topic@, author@));
                        }
                    }
                },
                Some(m) => {
                    assert forall|s: u64| #[trigger] holds(e, topic@, author@, s) implies s <= m by {
                        let j = choose|j: int| 0 <= j < e.len() && #[trigger] entry_is(e, j, topic@, author@, s);
                        assert(entry_is_for(e, j, topic@, author@));
                    }
                },
            }
        }
        best
    }

    /// The operations of `author` in `topic` numbered above `height` and up to
    /// `max`, in increasing order, and the numbers up to `max` not held.
    pub fn scan_author(&self, topic: &[u8; 32], author: &[u8; 32], height: u64, max: u64) -> (r: (
        Vec<Vec<u8>>,
        Vec<u64>,
    ))
        requires
            self.wf(),
        ensures
            op_views(r.0@) == new_ops(self.contents(), topic@, author@, height, (max + 1) as nat),
            r.1@ == gaps(self.contents(), topic@, author@, (max + 1) as nat),
    {
        let ghost e = self.entries@;
        let mut new: Vec<Vec<u8>> = Vec::new();
        let mut missing: Vec<u64> = Vec::new();
        let mut i: u64 = 0;
        loop
            invariant_except_break
                op_views(new@) == new_ops(e, topic@, author@, height, i as nat),
                missing@ == gaps(e, topic@, author@, i as nat),
            invariant
                i <= max,
                e == self.entries@,
                entries_distinct(e),
            ensures
                op_views(new@) == new_ops(e, topic@, author@, height, (max + 1) as nat),
                missing@ == gaps(e, topic@, author@, (max + 1) as nat),
            decreases max - i,
        {
            let ghost prev_new = op_views(new@);
            let ghost prev_missing = missing@;
            match self.find(topic, author, i) {
                Some(j) => {
                    if i > height {
                        let op = self.entries[j].op.clone();
                        proof {
                            let c = choose|c: int| 0 <= c < e.len() && #[trigger] entry_is(e, c, topic@, author@, i);
                            if c != j {
                                let _a = e[c];
                                let _b = e[j as int];
                            }
                        }
                        assert(op@ =~= held_op(e, topic@, author@, i));
                        new.push(op);
                        assert(op_views(new@) =~= prev_new.push(held_op(e, topic@, author@, i)));
                    }
                },
                None => {
                    missing.push(i);
                },
            }
            assert(op_views(new@) == new_ops(e, topic@, author@, height, (i + 1) as nat));
            assert(missing@ == gaps(e, topic@, author@, (i + 1) as nat));
            if i == max {
                break;
            }
            i = i + 1;
        }
        (new, missing)
    }

    /// The operations of `topic` whose authors are not named among the
    /// heights, in storage order.
    fn unnamed_authors_ops(&self, topic: &[u8; 32], min_heights: &Vec<([u8; 32], u64)>) -> (r: Vec<
        Vec<u8>,
    >)
        ensures
            op_views(r@) == unnamed_ops(self.entries@, topic@, min_heights@, self.entries@.len()),
    {
        let ghost e = self.entries@;
        let mut out: Vec<Vec<u8>> = Vec::new();
        let mut i: usize = 0;
        while i < self.entries.len()
            invariant
                0 <= i <= e.len(),
                e == self.entries@,
                op_views(out@) == unnamed_ops(e, topic@, min_heights@, i as nat),
            decreases e.len() - i,
        {
            let x = &self.entries[i];
            if same_id(&x.topic, topic) {
                let mut found = false;
                let mut k: usize = 0;
                while k < min_heights.len()
                    invariant
                        0 <= k <= min_heights@.len(),
                        found == exists|q: int| 0 <= q < k && #[trigger] min_heights@[q].0@ == x.author@,
                    decreases min_heights@.len() - k,
                {
                    if same_id(&min_heights[k].0, &x.author) {
                        found = true;
                    }
                    k = k + 1;
                }
                if !found {
                    let op = x.op.clone();
                    assert(op@ =~= x.op@);
                    let ghost before = op_views(out@);
                    out.push(op);
                    assert(op_views(out@) =~= before.push(x.op@));
                }
            }
            i = i + 1;
        }
        out
    }

    /// What the mailbox holds of `topic` that the client lacks, and what it
    /// lacks that the client holds: for each author with the client's height
    /// (its highest sequence number), where the mailbox holds operations of
    /// the author, the operations above the height, and the numbers up to the
    /// larger of the height and the last number held that it lacks; then the
    /// whole logs of the topic's authors that the client does not name (it
    /// learns of them this way).
    pub fn fetch(&self, topic: &LogId, min_heights: &Vec<([u8; 32], u64)>) -> (r: FetchTopicResponse)
        requires
            self.wf(),
        ensures
            op_views(r.ops@) == fetched_ops(self.contents(), topic.0@, min_heights@) + unnamed_ops(
                self.contents(),
                topic.0@,
                min_heights@,
                self.contents().len(),
            ),
            keys_distinct(r.missing@),
            forall|a: Seq<u8>|
                #![trigger has_key(r.missing@, a)]
                has_key(r.missing@, a) == reported(self.contents(), topic.0@, min_heights@, a),
            forall|k: int|
                #![trigger min_heights@[k]]
                0 <= k < min_heights@.len() && has_author(self.contents(), topic.0@, min_heights@[k].0@)
                    && (forall|j: int| k < j < min_heights@.len() ==> min_heights@[j].0@ != min_heights@[k].0@)
                    ==> value_at(r.missing@, min_heights@[k].0@)@ == gaps(
                    self.contents(),
                    topic.0@,
                    min_heights@[k].0@,
                    reach(self.contents(), topic.0@, min_heights@[k].0@, min_heights@[k].1),
                ),
    {
        let mut ops: Vec<Vec<u8>> = Vec::new();
        let mut missing: Vec<([u8; 32], Vec<u64>)> = Vec::new();
        let ghost e = self.entries@;
        let ghost t = topic.0@;
        let mut k: usize = 0;
        while k < min_heights.len()
            invariant
                0 <= k <= min_heights@.len(),
                e == self.entries@,
                self.wf(),
                t == topic.0@,
                op_views(ops@) == fetched_ops(e, t, min_heights@.take(k as int)),
                keys_distinct(missing@),
                forall|a: Seq<u8>|
                    #![trigger has_key(missing@, a)]
                    has_key(missing@, a) == reported(e, t, min_heights@.take(k as int), a),
                forall|q: int|
                    #![trigger min_heights@[q]]
                    0 <= q < k && has_author(e, t, min_heights@[q].0@) && (forall|j: int|
                        q < j < k ==> min_heights@[j].0@ != min_heights@[q].0@) ==> value_at(
                        missing@,
                        min_heights@[q].0@,
                    )@ == gaps(e, t, min_heights@[q].0@, reach(e, t, min_heights@[q].0@, min_heights@[q].1)),
            decreases min_heights@.len() - k,
        {
            let author = min_heights[k].0;
            let height = min_heights[k].1;
            let ghost mh0 = min_heights@.take(k as int);
            let ghost mh1 = min_heights@.take(k + 1);
            assert(mh1.drop_last() == mh0);
            assert(mh1.last() == min_heights@[k as int]);
            let ghost a = author@;
            proof {
                assert forall|b: Seq<u8>| #[trigger] reported(e, t, mh1, b) == (reported(e, t, mh0, b)
                    || (b == a && has_author(e, t, a))) by {
                    if reported(e, t, mh0, b) {
                        let j = choose|j: int| 0 <= j < mh0.len() && #[trigger] mh0[j].0@ == b;
                        assert(mh1[j].0@ == b);
                    }
                    if b == a && has_author(e, t, a) {
                        assert(mh1[k as int].0@ == b);
                    }
                    if reported(e, t, mh1, b) {
                        let j = choose|j: int| 0 <= j < mh1.len() && #[trigger] mh1[j].0@ == b;
                        if j < k {
                            assert(mh0[j].0@ == b);
                        }
                    }
                }
            }
            let ghost old_missing = missing@;
            match self.last_held(&topic.0, &author) {
                None => {
                    proof {
                        assert forall|q: int|
                            #![trigger min_heights@[q]]
                            0 <= q < k + 1 && has_author(e, t, min_heights@[q].0@) && (forall|j: int|
                                q < j < k + 1 ==> min_heights@[j].0@ != min_heights@[q].0@) implies value_at(
                                missing@,
                                min_heights@[q].0@,
                            )@ == gaps(e, t, min_heights@[q].0@, reach(e, t, min_heights@[q].0@, min_heights@[q].1)) by {
                            if q == k {
                            } else {
                                assert(min_heights@[q].0@ != a) by {
                                    assert(min_heights@[k as int].0@ != min_heights@[q].0@);
                                }
                            }
                        }
                    }
                },
                Some(last) => {
                    let max = if height > last {
                        height
                    } else {
                        last
                    };
                    proof {
                        let m = choose|m: u64| is_last_seq(e, t, a, m);
                        assert(m == last) by {
                            assert(holds(e, t, a, m) && holds(e, t, a, last));
                        }
                        assert(reach(e, t, a, height) == (max + 1) as nat);
                    }
                    let (new, gap_list) = self.scan_author(&topic.0, &author, height, max);
                    let ghost before = op_views(ops@);
                    let mut j: usize = 0;
                    while j < new.len()
                        invariant
                            0 <= j <= new@.len(),
                            op_views(ops@) == before + op_views(new@).take(j as int),
                        decreases new@.len() - j,
                    {
                        let o = new[j].clone();
                        assert(o@ =~= new@[j as int]@);
                        let ghost b2 = op_views(ops@);
                        ops.push(o);
                        assert(op_views(ops@) =~= b2.push(new@[j as int]@));
                        assert(op_views(new@).take(j + 1) =~= op_views(new@).take(j as int).push(new@[j as int]@));
                        j = j + 1;
                    }
                    assert(op_views(new@).take(j as int) =~= op_views(new@));
                    let ghost gv = gap_list;
                    match find_key(&missing, &author) {
                        Some(i) => {
                            let key = missing[i].0;
                            proof {
                                lemma_update_value(old_missing, i as int, gv);
                            }
                            missing.set(i, (key, gap_list));
                        },
                        None => {
                            proof {
                                lemma_push_entry(old_missing, author, gv);
                            }
                            missing.push((author, gap_list));
                        },
                    }
                    proof {
                        assert forall|q: int|
                            #![trigger min_heights@[q]]
                            0 <= q < k + 1 && has_author(e, t, min_heights@[q].0@) && (forall|j: int|
                                q < j < k + 1 ==> min_heights@[j].0@ != min_heights@[q].0@) implies value_at(
                                missing@,
                                min_heights@[q].0@,
                            )@ == gaps(e, t, min_heights@[q].0@, reach(e, t, min_heights@[q].0@, min_heights@[q].1)) by {
                            if q == k {
                            } else {
                                let b = min_heights@[q].0@;
                                assert(b != a) by {
                                    assert(min_heights@[k as int].0@ != min_heights@[q].0@);
                                }
                                assert(mh0[q].0@ == b);
                                assert(reported(e, t, mh0, b));
                                assert(has_key(old_missing, b));
                            }
                        }
                    }
                },
            }
            k = k + 1;
        }
        assert(min_heights@.take(k as int) == min_heights@);
        let rest = self.unnamed_authors_ops(&topic.0, min_heights);
        let ghost named_part = op_views(ops@);
        let mut j: usize = 0;
        while j < rest.len()
            invariant
                0 <= j <= rest@.len(),
                op_views(ops@) == named_part + op_views(rest@).take(j as int),
            decreases rest@.len() - j,
        {
            let o = rest[j].clone();
            assert(o@ =~= rest@[j as int]@);
            let ghost b2 = op_views(ops@);
            ops.push(o);
            assert(op_views(ops@) =~= b2.push(rest@[j as int]@));
            assert(op_views(rest@).take(j + 1) =~= op_views(rest@).take(j as int).push(rest@[j as int]@));
            j = j + 1;
        }
        assert(op_views(rest@).take(j as int) =~= op_views(rest@));
        FetchTopicResponse { ops, missing }
    }
}

/// The entry at `j` belongs to `a` in `t`.
pub open spec fn entry_is_for(e: Seq<MailboxEntry>, j: int, t: Seq<u8>, a: Seq<u8>) -> bool {
    e[j].topic@ == t && e[j].author@ == a
}

} // verus!
