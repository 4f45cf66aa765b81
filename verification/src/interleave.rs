//! Interleaving the logs of several authors by time: the entries of all
//! logs, ordered by timestamp, entries of equal timestamp keeping their
//! order (the order of the authors, then of each log).
use vstd::prelude::*;

verus! {

/// The entries of all logs, log after log.
pub open spec fn flatten<T>(logs: Seq<Vec<(u64, T)>>) -> Seq<(u64, T)>
    decreases logs.len(),
{
    if logs.len() == 0 {
        Seq::empty()
    } else {
        flatten(logs.drop_last()) + logs.last()@
    }
}

/// The entries with timestamp `k`, in order.
pub open spec fn with_time<T>(s: Seq<(u64, T)>, k: u64) -> Seq<(u64, T)>
    decreases s.len(),
{
    if s.len() == 0 {
        Seq::empty()
    } else if s.last().0 == k {
        with_time(s.drop_last(), k).push(s.last())
    } else {
        with_time(s.drop_last(), k)
    }
}

/// The entries stand in order of their timestamps.
pub open spec fn time_ordered<T>(s: Seq<(u64, T)>) -> bool {
    forall|i: int, j: int| 0 <= i < j < s.len() ==> s[i].0 <= s[j].0
}

proof fn lemma_with_time_concat<T>(a: Seq<(u64, T)>, b: Seq<(u64, T)>, k: u64)
    ensures
        with_time(a + b, k) == with_time(a, k) + with_time(b, k),
    decreases b.len(),
{
    if b.len() == 0 {
        assert(a + b =~= a);
        assert(with_time(a, k) + with_time(b, k) =~= with_time(a, k));
    } else {
        lemma_with_time_concat(a, b.drop_last(), k);
        assert((a + b).drop_last() =~= a + b.drop_last());
        assert((a + b).last() == b.last());
        if b.last().0 == k {
            assert(with_time(a, k) + with_time(b, k) =~= (with_time(a, k) + with_time(b.drop_last(), k)).push(b.last()));
        }
    }
}

proof fn lemma_with_time_none<T>(s: Seq<(u64, T)>, k: u64)
    requires
        forall|i: int| 0 <= i < s.len() ==> s[i].0 != k,
    ensures
        with_time(s, k) == Seq::<(u64, T)>::empty(),
    decreases s.len(),
{
    if s.len() > 0 {
        lemma_with_time_none(s.drop_last(), k);
    }
}

proof fn lemma_with_time_single<T>(x: (u64, T), k: u64)
    ensures
        with_time(seq![x], k) == (if x.0 == k { seq![x] } else { Seq::empty() }),
{
    let s = seq![x];
    assert(s.drop_last() =~= Seq::<(u64, T)>::empty());
    assert(s.last() == x);
    assert(with_time(Seq::<(u64, T)>::empty(), k) == Seq::<(u64, T)>::empty());
    if x.0 == k {
        assert(with_time(s, k) =~= seq![x]);
    } else {
        assert(with_time(s, k) =~= Seq::<(u64, T)>::empty());
    }
}

/// The entries of all logs ordered by timestamp; of entries with equal
/// timestamps, those of an earlier log come first, and those of one log
/// keep their order.
pub fn interleave_by_timestamp<T>(logs: Vec<Vec<(u64, T)>>) -> (r: Vec<(u64, T)>)
    ensures
        time_ordered(r@),
        forall|k: u64| #[trigger] with_time(r@, k) == with_time(flatten(logs@), k),
{
    let ghost lv = logs@;
    let mut flat: Vec<(u64, T)> = Vec::new();
    for log in it: logs.into_iter()
        invariant
            it.seq() == lv,
            flat@ == flatten(lv.take(it.index() as int)),
    {
        let mut log = log;
        let ghost before = flat@;
        let ghost lg = log@;
        proof {
            assert(lv.take(it.index() + 1).drop_last() == lv.take(it.index() as int));
            assert(lv.take(it.index() + 1).last() == log);
        }
        flat.append(&mut log);
        assert(flat@ == before + lg);
    }
    assert(lv.take(lv.len() as int) == lv);
    let ghost fv = flat@;
    let mut out: Vec<(u64, T)> = Vec::new();
    for x in it: flat.into_iter()
        invariant
            it.seq() == fv,
            time_ordered(out@),
            forall|k: u64| #[trigger] with_time(out@, k) == with_time(fv.take(it.index() as int), k),
    {
        let mut p: usize = 0;
        while p < out.len() && out[p].0 <= x.0
            invariant
                0 <= p <= out@.len(),
                forall|q: int| 0 <= q < p ==> out@[q].0 <= x.0,
            decreases out@.len() - p,
        {
            p = p + 1;
        }
        let ghost ov = out@;
        let ghost xv = x;
        proof {
            assert forall|q: int| p <= q < ov.len() implies ov[q].0 > xv.0 by {
                if q > p {
                    assert(ov[p as int].0 <= ov[q].0);
                }
            }
        }
        out.insert(p, x);
        proof {
            let pre = ov.subrange(0, p as int);
            let post = ov.subrange(p as int, ov.len() as int);
            assert(ov =~= pre + post);
            assert(out@ =~= pre + seq![xv] + post);
            let t0 = fv.take(it.index() as int);
            let t1 = fv.take(it.index() + 1);
            assert(t1 =~= t0 + seq![xv]);
            assert forall|k: u64| #[trigger] with_time(out@, k) == with_time(t1, k) by {
                lemma_with_time_concat(pre + seq![xv], post, k);
                lemma_with_time_concat(pre, seq![xv], k);
                lemma_with_time_concat(pre, post, k);
                lemma_with_time_concat(t0, seq![xv], k);
                lemma_with_time_single(xv, k);
                if k == xv.0 {
                    assert forall|i: int| 0 <= i < post.len() implies post[i].0 != k by {
                        assert(post[i] == ov[p + i]);
                    }
                    lemma_with_time_none(post, k);
                    assert(with_time(pre, k) + with_time(post, k) =~= with_time(pre, k));
                    assert(with_time(pre + seq![xv], k) + with_time(post, k) =~= with_time(pre + seq![xv], k));
                } else {
                    assert(with_time(pre, k) + Seq::<(u64, T)>::empty() =~= with_time(pre, k));
                    assert(with_time(t0, k) + Seq::<(u64, T)>::empty() =~= with_time(t0, k));
                }
            }
            assert forall|i: int, j: int| 0 <= i < j < out@.len() implies out@[i].0 <= out@[j].0 by {
                if j < p {
                    assert(out@[i] == ov[i] && out@[j] == ov[j]);
                } else if j == p {
                    assert(out@[i] == ov[i]);
                } else if i < p {
                    assert(out@[i] == ov[i] && out@[j] == ov[j - 1]);
                } else if i == p {
                    assert(out@[j] == ov[j - 1]);
                } else {
                    assert(out@[i] == ov[i - 1] && out@[j] == ov[j - 1]);
                }
            }
        }
    }
    assert(fv.take(fv.len() as int) == fv);
    out
}

} // verus!
