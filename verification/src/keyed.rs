//! Small maps keyed by 32-byte identifiers, held as a list of entries with
//! no key twice.
use vstd::prelude::*;

use crate::topic::same_id;

verus! {

/// No key occurs twice.
pub open spec fn keys_distinct<V>(v: Seq<([u8; 32], V)>) -> bool {
    forall|i: int, j: int| 0 <= i < v.len() && 0 <= j < v.len() && i != j ==> v[i].0@ != v[j].0@
}

/// Some entry has key `k`.
pub open spec fn has_key<V>(v: Seq<([u8; 32], V)>, k: Seq<u8>) -> bool {
    exists|i: int| 0 <= i < v.len() && #[trigger] v[i].0@ == k
}

/// The value under key `k` (meaningful where `has_key(v, k)`).
pub open spec fn value_at<V>(v: Seq<([u8; 32], V)>, k: Seq<u8>) -> V {
    v[choose|i: int| 0 <= i < v.len() && #[trigger] v[i].0@ == k].1
}

/// With distinct keys, the entry at `i` gives the value of its key.
pub proof fn lemma_value_at<V>(v: Seq<([u8; 32], V)>, i: int)
    requires
        keys_distinct(v),
        0 <= i < v.len(),
    ensures
        has_key(v, v[i].0@),
        value_at(v, v[i].0@) == v[i].1,
{
    let k = v[i].0@;
    assert(v[i].0@ == k);
    let j = choose|j: int| 0 <= j < v.len() && #[trigger] v[j].0@ == k;
    assert(j == i);
}

/// The position of the entry with key `k`, if any.
pub fn find_key<V>(v: &Vec<([u8; 32], V)>, k: &[u8; 32]) -> (r: Option<usize>)
    ensures
        match r {
            Some(i) => i < v@.len() && v@[i as int].0@ == k@,
            None => !has_key(v@, k@),
        },
{
    let mut i: usize = 0;
    while i < v.len()
        invariant
            0 <= i <= v@.len(),
            forall|j: int| 0 <= j < i ==> v@[j].0@ != k@,
        decreases v@.len() - i,
    {
        if same_id(&v[i].0, k) {
            return Some(i);
        }
        i = i + 1;
    }
    None
}

/// Replacing the value at `i` keeps the keys distinct, gives key `v[i].0`
/// the new value and leaves every other key as it was.
pub proof fn lemma_update_value<V>(v: Seq<([u8; 32], V)>, i: int, x: V)
    requires
        keys_distinct(v),
        0 <= i < v.len(),
    ensures
        keys_distinct(v.update(i, (v[i].0, x))),
        forall|k: Seq<u8>| #[trigger]
            has_key(v.update(i, (v[i].0, x)), k) == has_key(v, k),
        value_at(v.update(i, (v[i].0, x)), v[i].0@) == x,
        forall|k: Seq<u8>|
            has_key(v, k) && k != v[i].0@ ==> #[trigger] value_at(v.update(i, (v[i].0, x)), k)
                == value_at(v, k),
{
    let w = v.update(i, (v[i].0, x));
    assert forall|k: Seq<u8>| #[trigger] has_key(w, k) == has_key(v, k) by {
        if has_key(v, k) {
            let j = choose|j: int| 0 <= j < v.len() && #[trigger] v[j].0@ == k;
            assert(w[j].0@ == k);
        }
        if has_key(w, k) {
            let j = choose|j: int| 0 <= j < w.len() && #[trigger] w[j].0@ == k;
            assert(v[j].0@ == k);
        }
    }
    lemma_value_at(w, i);
    assert forall|k: Seq<u8>|
        has_key(v, k) && k != v[i].0@ implies #[trigger] value_at(w, k) == value_at(v, k) by {
        let j = choose|j: int| 0 <= j < v.len() && #[trigger] v[j].0@ == k;
        lemma_value_at(v, j);
        lemma_value_at(w, j);
    }
}

/// Appending an entry of a new key keeps the keys distinct, gives the new
/// key its value and leaves every other key as it was.
pub proof fn lemma_push_entry<V>(v: Seq<([u8; 32], V)>, k: [u8; 32], x: V)
    requires
        keys_distinct(v),
        !has_key(v, k@),
    ensures
        keys_distinct(v.push((k, x))),
        forall|q: Seq<u8>| #[trigger] has_key(v.push((k, x)), q) == (has_key(v, q) || q == k@),
        value_at(v.push((k, x)), k@) == x,
        forall|q: Seq<u8>|
            has_key(v, q) ==> #[trigger] value_at(v.push((k, x)), q) == value_at(v, q),
{
    let w = v.push((k, x));
    assert forall|a: int, b: int| 0 <= a < w.len() && 0 <= b < w.len() && a != b implies w[a].0@
        != w[b].0@ by {
        if a == v.len() {
            assert(w[b] == v[b]);
        } else if b == v.len() {
            assert(w[a] == v[a]);
        }
    }
    assert forall|q: Seq<u8>| #[trigger] has_key(w, q) == (has_key(v, q) || q == k@) by {
        if has_key(v, q) {
            let j = choose|j: int| 0 <= j < v.len() && #[trigger] v[j].0@ == q;
            assert(w[j].0@ == q);
        }
        if q == k@ {
            assert(w[v.len() as int].0@ == q);
        }
        if has_key(w, q) {
            let j = choose|j: int| 0 <= j < w.len() && #[trigger] w[j].0@ == q;
            if j < v.len() {
                assert(v[j].0@ == q);
            }
        }
    }
    lemma_value_at(w, v.len() as int);
    assert forall|q: Seq<u8>| has_key(v, q) implies #[trigger] value_at(w, q) == value_at(v, q) by {
        let j = choose|j: int| 0 <= j < v.len() && #[trigger] v[j].0@ == q;
        lemma_value_at(v, j);
        lemma_value_at(w, j);
    }
}

/// `h` is among the identifiers.
pub open spec fn holds_id(v: Seq<[u8; 32]>, h: Seq<u8>) -> bool {
    exists|i: int| 0 <= i < v.len() && #[trigger] v[i]@ == h
}

/// Whether `h` is among the identifiers.
pub fn contains_id(v: &Vec<[u8; 32]>, h: &[u8; 32]) -> (r: bool)
    ensures
        r == holds_id(v@, h@),
{
    let mut i: usize = 0;
    while i < v.len()
        invariant
            0 <= i <= v@.len(),
            forall|k: int| 0 <= k < i ==> v@[k]@ != h@,
        decreases v@.len() - i,
    {
        if same_id(&v[i], h) {
            return true;
        }
        i = i + 1;
    }
    false
}

/// A set of identifiers for each key.
pub struct IdSets {
    sets: Vec<([u8; 32], Vec<[u8; 32]>)>,
}

impl IdSets {
    pub closed spec fn wf(&self) -> bool {
        keys_distinct(self.sets@)
    }

    /// Whether key `k` has a set (it was ever given a member).
    pub closed spec fn has_set(&self, k: Seq<u8>) -> bool {
        has_key(self.sets@, k)
    }

    /// Whether `h` is in the set of `k`.
    pub closed spec fn member(&self, k: Seq<u8>, h: Seq<u8>) -> bool {
        has_key(self.sets@, k) && holds_id(value_at(self.sets@, k)@, h)
    }

    /// A key with a member has a set.
    pub proof fn lemma_member_has_set(&self, k: Seq<u8>, h: Seq<u8>)
        ensures
            self.member(k, h) ==> self.has_set(k),
    {
    }

    pub fn new() -> (r: Self)
        ensures
            r.wf(),
            forall|k: Seq<u8>| !r.has_set(k),
            forall|k: Seq<u8>, h: Seq<u8>| !r.member(k, h),
    {
        IdSets { sets: Vec::new() }
    }

    /// Adds `h` to the set of `k`; says whether it was not there before.
    pub fn insert(&mut self, k: &[u8; 32], h: &[u8; 32]) -> (added: bool)
        requires
            old(self).wf(),
        ensures
            final(self).wf(),
            added == !old(self).member(k@, h@),
            final(self).has_set(k@),
            final(self).member(k@, h@),
            forall|q: Seq<u8>| q != k@ ==> #[trigger] final(self).has_set(q) == old(self).has_set(q),
            forall|q: Seq<u8>, g: Seq<u8>|
                (q != k@ || g != h@) ==> #[trigger] final(self).member(q, g) == old(self).member(q, g),
    {
        let ghost old_sets = self.sets@;
        match find_key(&self.sets, k) {
            Some(i) => {
                proof {
                    lemma_value_at(old_sets, i as int);
                }
                let (key, mut ids) = self.sets.remove(i);
                let ghost old_ids = ids@;
                let present = contains_id(&ids, h);
                if !present {
                    ids.push(*h);
                }
                let ghost new_ids = ids;
                assert forall|g: Seq<u8>| holds_id(new_ids@, g) == (holds_id(old_ids, g) || g == h@) by {
                    if holds_id(old_ids, g) {
                        let j = choose|j: int| 0 <= j < old_ids.len() && #[trigger] old_ids[j]@ == g;
                        assert(new_ids@[j]@ == g);
                    }
                    if g == h@ && !holds_id(old_ids, g) {
                        assert(new_ids@[old_ids.len() as int]@ == g);
                    }
                    if holds_id(new_ids@, g) {
                        let j = choose|j: int| 0 <= j < new_ids@.len() && #[trigger] new_ids@[j]@ == g;
                        if j < old_ids.len() {
                            assert(old_ids[j]@ == g);
                        }
                    }
                }
                self.sets.insert(i, (key, ids));
                proof {
                    assert(self.sets@ =~= old_sets.update(i as int, (old_sets[i as int].0, new_ids)));
                    lemma_update_value(old_sets, i as int, new_ids);
                }
                !present
            },
            None => {
                let mut ids: Vec<[u8; 32]> = Vec::new();
                ids.push(*h);
                proof {
                    lemma_push_entry(old_sets, *k, ids);
                    assert(ids@[0]@ == h@);
                    assert forall|g: Seq<u8>| holds_id(ids@, g) == (g == h@) by {
                        if holds_id(ids@, g) {
                            let j = choose|j: int| 0 <= j < ids@.len() && #[trigger] ids@[j]@ == g;
                            assert(j == 0);
                        }
                    }
                }
                self.sets.push((*k, ids));
                true
            },
        }
    }

    /// Whether `h` is in the set of `k`.
    pub fn contains(&self, k: &[u8; 32], h: &[u8; 32]) -> (b: bool)
        requires
            self.wf(),
        ensures
            b == self.member(k@, h@),
    {
        match find_key(&self.sets, k) {
            Some(i) => {
                proof {
                    lemma_value_at(self.sets@, i as int);
                }
                contains_id(&self.sets[i].1, h)
            },
            None => false,
        }
    }

    /// The set of `k`, if it has one: each member once.
    pub fn get(&self, k: &[u8; 32]) -> (r: Option<Vec<[u8; 32]>>)
        requires
            self.wf(),
        ensures
            r is Some <==> self.has_set(k@),
            r matches Some(v) ==> forall|g: Seq<u8>| #[trigger] holds_id(v@, g) == self.member(k@, g),
    {
        match find_key(&self.sets, k) {
            Some(i) => {
                proof {
                    lemma_value_at(self.sets@, i as int);
                }
                let src = &self.sets[i].1;
                let mut v: Vec<[u8; 32]> = Vec::new();
                let mut j: usize = 0;
                while j < src.len()
                    invariant
                        0 <= j <= src@.len(),
                        v@ == src@.take(j as int),
                    decreases src@.len() - j,
                {
                    v.push(src[j]);
                    assert(src@.take(j + 1) =~= src@.take(j as int).push(src@[j as int]));
                    j = j + 1;
                }
                assert(src@.take(j as int) =~= src@);
                Some(v)
            },
            None => None,
        }
    }
}

} // verus!
