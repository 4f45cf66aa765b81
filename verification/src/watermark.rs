//! Contiguous watermarks over the sequence numbers stored for one log.
use std::collections::BTreeSet;
use vstd::prelude::*;
use vstd::std_specs::iter::IteratorSpec;
use crate::text::{
    append_chars, append_str, chars_equal, chars_of, parse_unsigned, parse_unsigned_chars, split_chars,
    split_on, string_from_chars, IntErrorKind,
};

verus! {

/// The key of a log in the watermark table, and the prefix of its blob
/// keys: `topic_id:log_id`.
pub fn log_key(topic_id: &str, log_id: &str) -> (k: String)
    ensures
        k@ == topic_id@ + seq![':'] + log_id@,
{
    let mut v = chars_of(topic_id);
    v.push(':');
    append_str(&mut v, log_id);
    string_from_chars(&v)
}

/// `0..=n` are all members of `s`.
pub open spec fn covers_up_to(s: Set<u64>, n: u64) -> bool {
    forall|i: u64| i <= n ==> #[trigger] s.contains(i)
}

/// The highest contiguous sequence number of `s`: `None` when `0` is absent,
/// otherwise `Some(n)` with `0..=n` present and `n + 1` absent (or `n == u64::MAX`).
pub open spec fn is_contiguous_watermark(s: Set<u64>, r: Option<u64>) -> bool {
    match r {
        None => !s.contains(0),
        Some(n) => covers_up_to(s, n) && (n < u64::MAX ==> !s.contains((n + 1) as u64)),
    }
}

/// Iterating a `BTreeSet<u64>` yields each member once, in strictly increasing order.
proof fn lemma_set_iteration_increasing(m: &BTreeSet<u64>)
    ensures
        ({
            let r = vstd::std_specs::btree::spec_btree_keys_iter(m).remaining();
            &&& r.unref().to_set() == m@
            &&& forall|i: int, j: int| 0 <= i < j < r.len() ==> *r[i] < *r[j]
        }),
{
    broadcast use vstd::laws_cmp::group_laws_cmp;
    let r = vstd::std_specs::btree::spec_btree_keys_iter(m).remaining();
    assert(vstd::std_specs::btree::increasing_seq(r));
    assert(vstd::laws_cmp::obeys_cmp::<&u64>());
    assert forall|i: int, j: int| 0 <= i < j < r.len() implies *r[i] < *r[j] by {
        assert(vstd::std_specs::cmp::OrdSpec::cmp_spec(&r[i], &r[j]) is Less);
    }
}

/// Computes the highest contiguous sequence number from a set of sequences.
/// Returns None if sequence 0 is not present.
/// Returns Some(n) where n is the highest value such that 0..=n are all present.
pub fn compute_contiguous_watermark(sequences: &BTreeSet<u64>) -> (r: Option<u64>)
    ensures
        is_contiguous_watermark(sequences@, r),
{
    if !sequences.contains(&0) {
        return None;
    }
    let mut watermark: u64 = 0;
    let mut stop = false;
    proof {
        lemma_set_iteration_increasing(sequences);
    }
    for seq in it: sequences.iter()
        invariant
            covers_up_to(sequences@, watermark),
            it.seq().unref().to_set() == sequences@,
            forall|i: int, j: int| 0 <= i < j < it.seq().len() ==> *it.seq()[i] < *it.seq()[j],
            !stop ==> forall|j: int| 0 <= j < it.index() ==> *#[trigger] it.seq()[j] <= watermark,
            stop ==> watermark < u64::MAX && !sequences@.contains((watermark + 1) as u64),
    {
        if !stop {
            if watermark < u64::MAX && *seq == watermark + 1 {
                watermark = *seq;
            } else if watermark < u64::MAX && *seq > watermark + 1 {
                stop = true;
            }
        }
    }
    Some(watermark)
}

/// `from < i <= n` are all members of `s`.
pub open spec fn covers_between(s: Set<u64>, from: u64, n: u64) -> bool {
    forall|i: u64| from < i <= n ==> #[trigger] s.contains(i)
}

/// The watermark after new blobs were stored, given the watermark held so
/// far (`current`) and the sequence numbers now stored (`s`): without a
/// watermark, the contiguous watermark of `s`; with watermark `w`, the end
/// of the run of stored sequence numbers that follows `w`.
pub open spec fn is_extended_watermark(s: Set<u64>, current: Option<u64>, r: Option<u64>) -> bool {
    match current {
        None => is_contiguous_watermark(s, r),
        Some(w) => match r {
            None => false,
            Some(n) => w <= n && covers_between(s, w, n) && (n < u64::MAX ==> !s.contains(
                (n + 1) as u64,
            )),
        },
    }
}

/// Computes the new watermark after storing blobs.
/// Returns None if no watermark can be established (no sequence 0).
///
/// A sequence number counts as stored when it is among `new_sequences` (the
/// ones just written) or among `existing` (the ones the table held already).
pub fn compute_new_watermark(
    current_watermark: Option<u64>,
    new_sequences: &BTreeSet<u64>,
    existing: &BTreeSet<u64>,
) -> (r: Option<u64>)
    requires
        current_watermark != Some(u64::MAX),
    ensures
        is_extended_watermark(new_sequences@.union(existing@), current_watermark, r),
{
    let ghost s = new_sequences@.union(existing@);
    let mut watermark: u64 = match current_watermark {
        Some(w) => {
            // No extension possible when the next sequence is not stored
            if !new_sequences.contains(&(w + 1)) && !existing.contains(&(w + 1)) {
                return Some(w);
            }
            w + 1
        },
        None => {
            // No watermark yet - need sequence 0 to start
            if !new_sequences.contains(&0) && !existing.contains(&0) {
                return None;
            }
            0
        },
    };
    // Extend watermark by checking consecutive sequences
    while watermark < u64::MAX && (new_sequences.contains(&(watermark + 1)) || existing.contains(
        &(watermark + 1),
    ))
        invariant
            s == new_sequences@.union(existing@),
            s.contains(watermark),
            match current_watermark {
                None => covers_up_to(s, watermark),
                Some(w) => w < watermark && covers_between(s, w, watermark),
            },
        decreases u64::MAX - watermark,
    {
        watermark = watermark + 1;
    }
    Some(watermark)
}

/// A set has exactly one contiguous watermark.
pub proof fn lemma_contiguous_watermark_unique(s: Set<u64>, a: Option<u64>, b: Option<u64>)
    requires
        is_contiguous_watermark(s, a),
        is_contiguous_watermark(s, b),
    ensures
        a == b,
{
    if let (Some(x), Some(y)) = (a, b) {
        if x < y {
            assert(s.contains((x + 1) as u64));
        } else if y < x {
            assert(s.contains((y + 1) as u64));
        }
    }
}

/// Storing more sequence numbers never lowers the contiguous watermark.
pub proof fn lemma_contiguous_watermark_monotone(s: Set<u64>, t: Set<u64>, a: u64, b: Option<u64>)
    requires
        s.subset_of(t),
        is_contiguous_watermark(s, Some(a)),
        is_contiguous_watermark(t, b),
    ensures
        b matches Some(n) && a <= n,
{
    assert(t.contains(0u64));
    if let Some(n) = b {
        if n < a {
            assert(s.contains((n + 1) as u64));
        }
    }
}

/// Keeping the watermark up to date as blobs are stored gives the watermark
/// that a scan of all stored blobs computes: extending the contiguous
/// watermark of the blobs held before by the blobs held now yields the
/// contiguous watermark of the blobs held now.
pub proof fn lemma_incremental_watermark(
    before: Set<u64>,
    now: Set<u64>,
    current: Option<u64>,
    r: Option<u64>,
)
    requires
        before.subset_of(now),
        is_contiguous_watermark(before, current),
        is_extended_watermark(now, current, r),
    ensures
        is_contiguous_watermark(now, r),
{
    if let (Some(w), Some(n)) = (current, r) {
        assert forall|i: u64| i <= n implies #[trigger] now.contains(i) by {
            if i <= w {
                assert(before.contains(i));
            }
        }
    }
}

/// A stored key whose sequence number could not be read.
#[derive(Debug)]
pub struct WatermarkScanError {
    /// The key as stored.
    pub key: String,
    /// Why its third part is not a sequence number.
    pub kind: IntErrorKind,
}

/// Keys with fewer than 4 `:`-separated parts are skipped by the scan.
pub open spec fn scanned_key(k: Seq<char>) -> bool {
    split_on(k, ':').len() >= 4
}

/// `topic_id:log_id`, the log that a stored key belongs to.
pub open spec fn log_of_key(k: Seq<char>) -> Seq<char> {
    let parts = split_on(k, ':');
    parts[0] + seq![':'] + parts[1]
}

/// The sequence number that a stored key carries in its third part.
pub open spec fn sequence_of_key(k: Seq<char>) -> Result<nat, IntErrorKind> {
    parse_unsigned(split_on(k, ':')[2], u64::MAX as nat)
}

/// Every scanned key carries a readable sequence number.
pub open spec fn keys_readable(keys: Seq<Seq<char>>) -> bool {
    forall|i: int|
        0 <= i < keys.len() && scanned_key(#[trigger] keys[i]) ==> sequence_of_key(keys[i]) is Ok
}

/// The sequence numbers that the keys hold for the log `g`.
pub open spec fn log_sequences(keys: Seq<Seq<char>>, g: Seq<char>) -> Set<u64>
    decreases keys.len(),
{
    if keys.len() == 0 {
        Set::empty()
    } else {
        let rest = log_sequences(keys.drop_last(), g);
        let k = keys.last();
        if scanned_key(k) && log_of_key(k) == g && sequence_of_key(k) is Ok {
            rest.insert((sequence_of_key(k)->Ok_0) as u64)
        } else {
            rest
        }
    }
}

/// The log `g` has an entry in `v`.
pub open spec fn lists_log(v: Seq<(String, u64)>, g: Seq<char>) -> bool {
    exists|i: int| 0 <= i < v.len() && #[trigger] v[i].0@ == g
}

/// The texts of a sequence of strings.
pub open spec fn string_views(v: Seq<String>) -> Seq<Seq<char>> {
    v.map_values(|s: String| s@)
}

/// The position of `g` among `names`.
fn find_chars(names: &Vec<Vec<char>>, g: &Vec<char>) -> (r: Option<usize>)
    ensures
        match r {
            Some(j) => j < names.len() && names@[j as int]@ == g@,
            None => forall|l: int| 0 <= l < names.len() ==> names@[l]@ != g@,
        },
{
    let mut j: usize = 0;
    while j < names.len()
        invariant
            0 <= j <= names.len(),
            forall|l: int| 0 <= l < j ==> names@[l]@ != g@,
        decreases names.len() - j,
    {
        if chars_equal(&names[j], g) {
            return Some(j);
        }
        j = j + 1;
    }
    None
}

/// The contiguous watermark of each set that has one, named after it; the
/// ghost sequence gives, for each entry, the position of its set.
fn log_watermarks(names: &Vec<Vec<char>>, sets: &Vec<BTreeSet<u64>>) -> (res: (
    Vec<(String, u64)>,
    Ghost<Seq<int>>,
))
    requires
        names.len() == sets.len(),
    ensures
        res.1@.len() == res.0.len(),
        forall|a: int, b: int| 0 <= a < b < res.1@.len() ==> res.1@[a] < res.1@[b],
        forall|l: int|
            #![trigger res.0@[l]]
            0 <= l < res.0.len() ==> 0 <= res.1@[l] < names.len() && res.0@[l].0@
                == names@[res.1@[l]]@ && is_contiguous_watermark(
                sets@[res.1@[l]]@,
                Some(res.0@[l].1),
            ),
        forall|a: int|
            0 <= a < names.len() && #[trigger] sets@[a]@.contains(0) ==> exists|l: int|
                0 <= l < res.1@.len() && res.1@[l] == a,
{
    let mut out: Vec<(String, u64)> = Vec::new();
    let ghost mut idx: Seq<int> = Seq::empty();
    let mut j: usize = 0;
    while j < names.len()
        invariant
            0 <= j <= names.len(),
            names.len() == sets.len(),
            idx.len() == out.len(),
            forall|l: int| 0 <= l < idx.len() ==> 0 <= #[trigger] idx[l] < j,
            forall|a: int, b: int| 0 <= a < b < idx.len() ==> idx[a] < idx[b],
            forall|l: int|
                #![trigger out@[l]]
                0 <= l < out.len() ==> out@[l].0@ == names@[idx[l]]@ && is_contiguous_watermark(
                    sets@[idx[l]]@,
                    Some(out@[l].1),
                ),
            forall|a: int|
                0 <= a < j && #[trigger] sets@[a]@.contains(0) ==> exists|l: int|
                    0 <= l < out.len() && idx[l] == a,
        decreases names.len() - j,
    {
        let w = compute_contiguous_watermark(&sets[j]);
        match w {
            Some(n) => {
                let name = string_from_chars(&names[j]);
                let ghost old_out = out@;
                out.push((name, n));
                proof {
                    let old_idx = idx;
                    idx = idx.push(j as int);
                    assert forall|l: int| #![trigger out@[l]] 0 <= l < out.len() implies out@[l].0@ == names@[idx[l]]@ && is_contiguous_watermark(sets@[idx[l]]@, Some(out@[l].1)) by {
                        if l < old_out.len() {
                            assert(out@[l] == old_out[l]);
                            assert(idx[l] == old_idx[l]);
                        }
                    }
                    assert forall|a: int| 0 <= a < j + 1 && #[trigger] sets@[a]@.contains(0) implies exists|l: int| 0 <= l < out.len() && idx[l] == a by {
                        if a < j {
                            let l = choose|l: int| 0 <= l < old_idx.len() && old_idx[l] == a;
                            assert(idx[l] == a);
                        } else {
                            assert(idx[idx.len() - 1] == a);
                        }
                    }
                }
            },
            None => {},
        }
        j = j + 1;
    }
    (out, Ghost(idx))
}

/// Computes the watermark of every log from the keys of all stored blobs
/// (`topic_id:log_id:sequence_number:uuid`); keys with fewer than 4 parts
/// are skipped, and a key whose sequence number cannot be read stops the
/// scan. Only logs that have a watermark appear in the result, each once.
#[verifier::spinoff_prover]
#[verifier::rlimit(30)]
pub fn watermarks_from_keys(keys: &Vec<String>) -> (r: Result<Vec<(String, u64)>, WatermarkScanError>)
    ensures
        r is Ok ==> keys_readable(string_views(keys@)),
        r matches Ok(v) ==> forall|i: int, j: int| 0 <= i < j < v.len() ==> v@[i].0@ != v@[j].0@,
        r matches Ok(v) ==> forall|i: int|
            0 <= i < v.len() ==> is_contiguous_watermark(
                log_sequences(string_views(keys@), #[trigger] v@[i].0@),
                Some(v@[i].1),
            ),
        r matches Ok(v) ==> forall|g: Seq<char>|
            #[trigger] log_sequences(string_views(keys@), g).contains(0) ==> lists_log(v@, g),
        r matches Err(e) ==> exists|i: int|
            0 <= i < keys.len() && keys_readable(string_views(keys@).take(i)) && scanned_key(
                keys@[i]@,
            ) && e.key@ == keys@[i]@ && sequence_of_key(keys@[i]@) == Err::<nat, IntErrorKind>(
                e.kind,
            ),
{
    let ghost ks = string_views(keys@);
    let mut names: Vec<Vec<char>> = Vec::new();
    let mut sets: Vec<BTreeSet<u64>> = Vec::new();
    let mut i: usize = 0;
    while i < keys.len()
        invariant
            0 <= i <= keys.len(),
            ks == string_views(keys@),
            names.len() == sets.len(),
            keys_readable(ks.take(i as int)),
            forall|j: int|
                0 <= j < sets.len() ==> #[trigger] sets@[j]@ == log_sequences(
                    ks.take(i as int),
                    names@[j]@,
                ),
            forall|j: int, l: int| 0 <= j < l < names.len() ==> names@[j]@ != names@[l]@,
            forall|g: Seq<char>|
                !log_sequences(ks.take(i as int), g).is_empty() ==> exists|j: int|
                    0 <= j < names.len() && #[trigger] names@[j]@ == g,
        decreases keys.len() - i,
    {
        let ghost before = ks.take(i as int);
        let ghost after = ks.take(i + 1);
        assert(after.drop_last() == before);
        assert(after.last() == keys@[i as int]@);
        let chars = chars_of(keys[i].as_str());
        let parts = split_chars(&chars, ':');
        if parts.len() < 4 {
            proof {
                assert forall|g: Seq<char>| log_sequences(after, g) == log_sequences(before, g) by {}
                assert(keys_readable(after)) by {
                    assert forall|l: int| 0 <= l < after.len() && scanned_key(#[trigger] after[l]) implies sequence_of_key(after[l]) is Ok by {
                        if l < i {
                            assert(after[l] == before[l]);
                        }
                    }
                }
            }
            i = i + 1;
            continue;
        }
        let seq_num = match parse_unsigned_chars(&parts[2], u64::MAX) {
            Ok(n) => n,
            Err(kind) => {
                proof {
                    assert(parts@[2]@ == split_on(keys@[i as int]@, ':')[2]);
                }
                return Err(WatermarkScanError { key: keys[i].clone(), kind });
            },
        };
        let mut g = parts[0].clone();
        g.push(':');
        append_chars(&mut g, &parts[1]);
        proof {
            assert(parts@[0]@ == split_on(keys@[i as int]@, ':')[0]);
            assert(parts@[1]@ == split_on(keys@[i as int]@, ':')[1]);
            assert(parts@[2]@ == split_on(keys@[i as int]@, ':')[2]);
            assert(g@ == log_of_key(after.last()));
            assert(keys_readable(after)) by {
                assert forall|l: int| 0 <= l < after.len() && scanned_key(#[trigger] after[l]) implies sequence_of_key(after[l]) is Ok by {
                    if l < i {
                        assert(after[l] == before[l]);
                    }
                }
            }
            assert forall|h: Seq<char>| h != g@ implies log_sequences(after, h) == log_sequences(before, h) by {}
            assert(log_sequences(after, g@) == log_sequences(before, g@).insert(seq_num));
        }
        // find the log among those seen so far
        let pos = find_chars(&names, &g);
        let found = pos.is_some();
        let j: usize = match pos { Some(j) => j, None => 0 };
        if found {
            let mut st = sets[j].clone();
            st.insert(seq_num);
            let ghost old_sets = sets@;
            sets.set(j, st);
            proof {
                assert forall|l: int| 0 <= l < sets.len() implies #[trigger] sets@[l]@ == log_sequences(after, names@[l]@) by {
                    if l != j {
                        assert(sets@[l] == old_sets[l]);
                        assert(names@[l]@ != g@);
                    }
                }
            }
        } else {
            let mut st: BTreeSet<u64> = BTreeSet::new();
            st.insert(seq_num);
            proof {
                assert(log_sequences(before, g@).is_empty()) by {
                    if !log_sequences(before, g@).is_empty() {
                        let w = choose|l: int| 0 <= l < names.len() && #[trigger] names@[l]@ == g@;
                    }
                }
                assert(st@ =~= log_sequences(after, g@));
            }
            let ghost old_names = names@;
            let ghost old_sets = sets@;
            names.push(g);
            sets.push(st);
            proof {
                assert forall|l: int| 0 <= l < sets.len() implies #[trigger] sets@[l]@ == log_sequences(after, names@[l]@) by {
                    if l < old_sets.len() {
                        assert(sets@[l] == old_sets[l]);
                        assert(names@[l] == old_names[l]);
                    }
                }
                assert forall|a: int, b: int| 0 <= a < b < names.len() implies names@[a]@ != names@[b]@ by {
                    if b == names.len() - 1 {
                        assert(names@[a] == old_names[a]);
                    } else {
                        assert(names@[a] == old_names[a]);
                        assert(names@[b] == old_names[b]);
                    }
                }
                assert forall|h: Seq<char>| !log_sequences(after, h).is_empty() implies exists|l: int| 0 <= l < names.len() && #[trigger] names@[l]@ == h by {
                    if h == names@[names.len() - 1]@ {
                    } else {
                        assert(log_sequences(after, h) == log_sequences(before, h));
                        let w = choose|l: int| 0 <= l < old_names.len() && #[trigger] old_names[l]@ == h;
                        assert(names@[w] == old_names[w]);
                    }
                }
            }
        }
        i = i + 1;
    }
    assert(ks.take(keys.len() as int) == ks);
    let (out, Ghost(idx)) = log_watermarks(&names, &sets);
    proof {
        assert forall|l: int| 0 <= l < out.len() implies is_contiguous_watermark(log_sequences(ks, #[trigger] out@[l].0@), Some(out@[l].1)) by {
            assert(out@[l] == out@[l]);
            let a = idx[l];
            assert(sets@[a]@ == log_sequences(ks, names@[a]@));
        }
        assert forall|a: int, b: int| 0 <= a < b < out.len() implies out@[a].0@ != out@[b].0@ by {
            assert(out@[a] == out@[a]);
            assert(out@[b] == out@[b]);
            assert(idx[a] < idx[b]);
        }
        assert forall|g: Seq<char>| #[trigger] log_sequences(ks, g).contains(0) implies exists|l: int| #![trigger out@[l]] 0 <= l < out.len() && out@[l].0@ == g by {
            assert(!log_sequences(ks, g).is_empty());
            let a = choose|a: int| 0 <= a < names.len() && #[trigger] names@[a]@ == g;
            assert(sets@[a]@.contains(0));
            let l = choose|l: int| 0 <= l < idx.len() && idx[l] == a;
            assert(out@[l] == out@[l]);
        }
        assert(keys_readable(string_views(keys@)));
        assert(forall|i: int, j: int| 0 <= i < j < out.len() ==> out@[i].0@ != out@[j].0@);
        assert(forall|i: int|
                    0 <= i < out.len() ==> is_contiguous_watermark(
                        log_sequences(string_views(keys@), #[trigger] out@[i].0@),
                        Some(out@[i].1),
                    ));
        assert(forall|g: Seq<char>|
                    #[trigger] log_sequences(string_views(keys@), g).contains(0) ==> lists_log(out@, g));
    }
    Ok(out)
}

/// Every scanned key of log `g` carries a readable sequence number.
pub open spec fn log_keys_readable(keys: Seq<Seq<char>>, g: Seq<char>) -> bool {
    forall|i: int|
        0 <= i < keys.len() && scanned_key(#[trigger] keys[i]) && log_of_key(keys[i]) == g
            ==> sequence_of_key(keys[i]) is Ok
}

/// The sequence numbers stored for log `g` (`topic_id:log_id`), read from
/// the stored keys; keys with fewer than 4 parts are skipped, and a key of
/// the log whose sequence number cannot be read stops the scan.
pub fn sequences_of_log(keys: &Vec<String>, g: &str) -> (r: Result<BTreeSet<u64>, WatermarkScanError>)
    ensures
        match r {
            Ok(s) => log_keys_readable(string_views(keys@), g@) && s@ == log_sequences(
                string_views(keys@),
                g@,
            ),
            Err(e) => !log_keys_readable(string_views(keys@), g@),
        },
{
    let ghost kv = string_views(keys@);
    let gc = chars_of(g);
    let mut out: BTreeSet<u64> = BTreeSet::new();
    let mut i: usize = 0;
    while i < keys.len()
        invariant
            0 <= i <= keys@.len(),
            kv == string_views(keys@),
            gc@ == g@,
            log_keys_readable(kv.take(i as int), g@),
            out@ == log_sequences(kv.take(i as int), g@),
        decreases keys@.len() - i,
    {
        let ghost pre = kv.take(i as int);
        let ghost post = kv.take(i + 1);
        assert(post.drop_last() == pre);
        assert(post.last() == keys@[i as int]@);
        let key = &keys[i];
        let chars = chars_of(key.as_str());
        let parts = split_chars(&chars, ':');
        if parts.len() >= 4 {
            let mut name = parts[0].clone();
            assert(name@ =~= parts@[0]@);
            name.push(':');
            append_chars(&mut name, &parts[1]);
            assert(name@ =~= log_of_key(key@));
            if chars_equal(&name, &gc) {
                match parse_unsigned_chars(&parts[2], u64::MAX) {
                    Ok(n) => {
                        out.insert(n);
                    },
                    Err(kind) => {
                        proof {
                            assert(post[i as int] == key@);
                            assert(!log_keys_readable(kv, g@)) by {
                                assert(kv[i as int] == key@);
                            }
                        }
                        return Err(WatermarkScanError { key: key.clone(), kind });
                    },
                }
            }
        }
        proof {
            assert forall|j: int|
                0 <= j < post.len() && scanned_key(#[trigger] post[j]) && log_of_key(post[j]) == g@
                    implies sequence_of_key(post[j]) is Ok by {
                if j < i {
                    assert(post[j] == pre[j]);
                }
            }
        }
        i = i + 1;
    }
    assert(kv.take(i as int) == kv);
    Ok(out)
}

} // verus!
