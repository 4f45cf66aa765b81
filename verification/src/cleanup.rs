//! Expiry of stored blobs: a blob whose key carries a UUID older than the
//! cutoff is deleted.
use vstd::prelude::*;

use crate::blobs::key_parts;
use crate::text::{chars_of, split_chars, string_from_chars};
use crate::uuid_text::{uuid_from_text, uuid_parse_str, uuid_v7_at};

verus! {

/// How long a stored blob is kept: seven days, in seconds.
pub const MESSAGE_MAX_AGE_SECS: u64 = 604800;

/// How often the cleanup runs: five minutes, in seconds.
pub const CLEANUP_INTERVAL_SECS: u64 = 300;

/// 2^80: a version 7 UUID's value divided by this is its Unix time in
/// milliseconds.
pub open spec fn millis_unit() -> nat {
    0x1_0000_0000_0000_0000_0000nat
}

/// 2^48: the Unix times in milliseconds that a version 7 UUID can carry.
pub open spec fn millis_limit() -> nat {
    0x1_0000_0000_0000nat
}

/// The Unix time in milliseconds that the version 7 UUID `u` carries.
pub open spec fn uuid_millis(u: u128) -> nat {
    u as nat / millis_unit()
}

/// Why a stored key stops the cleanup.
#[derive(Debug, Clone, PartialEq, Eq)]
pub enum CleanupError {
    /// The key has fewer than 4 `:`-separated parts.
    InvalidKeyFormat { key: String, parts: usize },
    /// The key's fourth part is not a UUID.
    InvalidUuid { key: String, text: String },
}

/// What stops the cleanup at a key, as plain values.
pub ghost enum CleanupFailure {
    InvalidKeyFormat { key: Seq<char>, parts: nat },
    InvalidUuid { key: Seq<char>, text: Seq<char> },
}

pub open spec fn failure_of(e: CleanupError) -> CleanupFailure {
    match e {
        CleanupError::InvalidKeyFormat { key, parts } => CleanupFailure::InvalidKeyFormat {
            key: key@,
            parts: parts as nat,
        },
        CleanupError::InvalidUuid { key, text } => CleanupFailure::InvalidUuid {
            key: key@,
            text: text@,
        },
    }
}

/// The UUID that a stored key carries in its fourth part, or what is wrong
/// with the key.
pub open spec fn key_uuid(k: Seq<char>) -> Result<u128, CleanupFailure> {
    let parts = key_parts(k);
    if parts.len() < 4 {
        Err(CleanupFailure::InvalidKeyFormat { key: k, parts: parts.len() })
    } else {
        match uuid_parse_str(parts[3]) {
            Some(u) => Ok(u),
            None => Err(CleanupFailure::InvalidUuid { key: k, text: parts[3] }),
        }
    }
}

/// The keys, in order, whose UUID is below `cutoff`; or the failure at the
/// first key that cannot be read.
pub open spec fn expired_keys_spec(keys: Seq<Seq<char>>, cutoff: u128) -> Result<
    Seq<Seq<char>>,
    CleanupFailure,
>
    decreases keys.len(),
{
    if keys.len() == 0 {
        Ok(Seq::empty())
    } else {
        match expired_keys_spec(keys.drop_last(), cutoff) {
            Err(f) => Err(f),
            Ok(v) => match key_uuid(keys.last()) {
                Err(f) => Err(f),
                Ok(u) => if u < cutoff {
                    Ok(v.push(keys.last()))
                } else {
                    Ok(v)
                },
            },
        }
    }
}

pub open spec fn key_views(v: Seq<String>) -> Seq<Seq<char>> {
    v.map_values(|s: String| s@)
}

/// The stored keys to delete: those whose UUID is below `cutoff`, in the
/// order given. The first key without 4 parts, or whose fourth part is not a
/// UUID, stops the scan with its error.
pub fn expired_keys(keys: &Vec<String>, cutoff: u128) -> (r: Result<Vec<String>, CleanupError>)
    ensures
        match r {
            Ok(v) => expired_keys_spec(key_views(keys@), cutoff) == Ok::<
                Seq<Seq<char>>,
                CleanupFailure,
            >(key_views(v@)),
            Err(e) => expired_keys_spec(key_views(keys@), cutoff) == Err::<
                Seq<Seq<char>>,
                CleanupFailure,
            >(failure_of(e)),
        },
{
    let mut out: Vec<String> = Vec::new();
    let mut i: usize = 0;
    assert(key_views(keys@).take(0) =~= Seq::<Seq<char>>::empty());
    assert(key_views(out@) =~= Seq::<Seq<char>>::empty());
    while i < keys.len()
        invariant
            0 <= i <= keys.len(),
            expired_keys_spec(key_views(keys@).take(i as int), cutoff) == Ok::<
                Seq<Seq<char>>,
                CleanupFailure,
            >(key_views(out@)),
        decreases keys.len() - i,
    {
        let ghost kv = key_views(keys@);
        assert(kv.take(i + 1).drop_last() == kv.take(i as int));
        assert(kv.take(i + 1).last() == keys@[i as int]@);
        let key = &keys[i];
        let chars = chars_of(key.as_str());
        let parts = split_chars(&chars, ':');
        if parts.len() < 4 {
            let e = CleanupError::InvalidKeyFormat { key: key.clone(), parts: parts.len() };
            proof {
                lemma_failure_persists(kv, cutoff, i + 1);
            }
            return Err(e);
        }
        assert(parts@[3]@ == key_parts(key@)[3]);
        let text = string_from_chars(&parts[3]);
        match uuid_from_text(text.as_str()) {
            Ok(u) => {
                if u < cutoff {
                    let ghost before = key_views(out@);
                    out.push(key.clone());
                    assert(key_views(out@) =~= before.push(key@));
                }
            },
            Err(_) => {
                let e = CleanupError::InvalidUuid { key: key.clone(), text };
                proof {
                    lemma_failure_persists(kv, cutoff, i + 1);
                }
                return Err(e);
            },
        }
        i = i + 1;
    }
    assert(key_views(keys@).take(i as int) == key_views(keys@));
    Ok(out)
}

/// The cutoff time in seconds for a cleanup at `now_secs`: seven days
/// earlier, or `None` where that falls before the epoch.
pub fn cutoff_secs(now_secs: u64) -> (r: Option<u64>)
    ensures
        now_secs >= MESSAGE_MAX_AGE_SECS ==> r == Some((now_secs - MESSAGE_MAX_AGE_SECS) as u64),
        now_secs < MESSAGE_MAX_AGE_SECS ==> r is None,
{
    if now_secs >= MESSAGE_MAX_AGE_SECS {
        Some(now_secs - MESSAGE_MAX_AGE_SECS)
    } else {
        None
    }
}

/// The outcome of one cleanup at `now_secs` over the stored keys.
#[derive(Debug, Clone, PartialEq, Eq)]
pub enum CleanupOutcome {
    /// The keys to delete.
    Delete(Vec<String>),
    /// The cutoff would fall before the epoch: nothing is read.
    ClockBeforeCutoff,
    /// A stored key cannot be read.
    Invalid(CleanupError),
}

/// One cleanup: the cutoff UUID seven days before `now_secs`, then the keys
/// whose UUID is below it. Where `now_secs` is not seven days past the epoch
/// nothing is deleted.
pub fn cleanup_plan(keys: &Vec<String>, now_secs: u64) -> (r: CleanupOutcome)
    ensures
        now_secs < MESSAGE_MAX_AGE_SECS <==> r is ClockBeforeCutoff,
        now_secs >= MESSAGE_MAX_AGE_SECS ==> exists|cutoff: u128|
            #![trigger expired_keys_spec(key_views(keys@), cutoff)]
            {
                &&& ((now_secs - MESSAGE_MAX_AGE_SECS) * 1000 < millis_limit() ==> uuid_millis(
                    cutoff,
                ) == (now_secs - MESSAGE_MAX_AGE_SECS) * 1000)
                &&& match r {
                    CleanupOutcome::Delete(v) => expired_keys_spec(key_views(keys@), cutoff)
                        == Ok::<Seq<Seq<char>>, CleanupFailure>(key_views(v@)),
                    CleanupOutcome::Invalid(e) => expired_keys_spec(key_views(keys@), cutoff)
                        == Err::<Seq<Seq<char>>, CleanupFailure>(failure_of(e)),
                    CleanupOutcome::ClockBeforeCutoff => false,
                }
            },
{
    match cutoff_secs(now_secs) {
        None => CleanupOutcome::ClockBeforeCutoff,
        Some(secs) => {
            let cutoff = uuid_v7_at(secs, 0);
            match expired_keys(keys, cutoff) {
                Ok(v) => CleanupOutcome::Delete(v),
                Err(e) => CleanupOutcome::Invalid(e),
            }
        },
    }
}

/// A key older than the cutoff is deleted, a key younger is kept: where
/// every key is readable, a key is among the expired ones exactly when its
/// UUID is below the cutoff.
pub proof fn lemma_expired_exactly_older(keys: Seq<Seq<char>>, cutoff: u128, k: Seq<char>)
    requires
        expired_keys_spec(keys, cutoff) is Ok,
        keys.contains(k),
    ensures
        key_uuid(k) is Ok,
        expired_keys_spec(keys, cutoff)->Ok_0.contains(k) <==> key_uuid(k)->Ok_0 < cutoff,
    decreases keys.len(),
{
    let init = keys.drop_last();
    let last = keys.last();
    let v = expired_keys_spec(init, cutoff)->Ok_0;
    let r = expired_keys_spec(keys, cutoff)->Ok_0;
    assert(expired_keys_spec(init, cutoff) is Ok);
    assert(key_uuid(last) is Ok);
    let u = key_uuid(last)->Ok_0;
    assert(r == if u < cutoff { v.push(last) } else { v });
    lemma_push_contains(v, last, k);
    if last == k {
        if init.contains(k) {
            lemma_expired_exactly_older(init, cutoff, k);
        } else {
            lemma_expired_subset(init, cutoff);
            assert(!v.contains(k));
        }
    } else {
        assert(init.contains(k)) by {
            let j = choose|j: int| 0 <= j < keys.len() && keys[j] == k;
            assert(j != keys.len() - 1);
            assert(init[j] == k);
        }
        lemma_expired_exactly_older(init, cutoff, k);
    }
}

proof fn lemma_push_contains(v: Seq<Seq<char>>, x: Seq<char>, k: Seq<char>)
    ensures
        v.push(x).contains(k) <==> (v.contains(k) || x == k),
{
    if v.contains(k) {
        let j = choose|j: int| 0 <= j < v.len() && v[j] == k;
        assert(v.push(x)[j] == k);
    }
    if x == k {
        assert(v.push(x)[v.len() as int] == k);
    }
    if v.push(x).contains(k) {
        let j = choose|j: int| 0 <= j < v.len() + 1 && v.push(x)[j] == k;
        if j < v.len() {
            assert(v[j] == k);
        }
    }
}

/// Once a key cannot be read, the keys after it change nothing.
proof fn lemma_failure_persists(keys: Seq<Seq<char>>, cutoff: u128, n: int)
    requires
        0 <= n <= keys.len(),
        expired_keys_spec(keys.take(n), cutoff) is Err,
    ensures
        expired_keys_spec(keys, cutoff) == expired_keys_spec(keys.take(n), cutoff),
    decreases keys.len() - n,
{
    if n < keys.len() {
        assert(keys.take(n + 1).drop_last() == keys.take(n));
        lemma_failure_persists(keys, cutoff, n + 1);
    } else {
        assert(keys.take(n) == keys);
    }
}

/// Every expired key is one of the keys.
proof fn lemma_expired_subset(keys: Seq<Seq<char>>, cutoff: u128)
    requires
        expired_keys_spec(keys, cutoff) is Ok,
    ensures
        forall|k: Seq<char>| #[trigger] expired_keys_spec(keys, cutoff)->Ok_0.contains(k) ==> keys.contains(k),
    decreases keys.len(),
{
    if keys.len() > 0 {
        let init = keys.drop_last();
        lemma_expired_subset(init, cutoff);
        assert forall|k: Seq<char>| #[trigger] expired_keys_spec(keys, cutoff)->Ok_0.contains(k) implies keys.contains(k) by {
            let v = expired_keys_spec(init, cutoff)->Ok_0;
            if v.contains(k) {
                let j = choose|j: int| 0 <= j < init.len() && init[j] == k;
                assert(keys[j] == k);
            } else {
                assert(keys[keys.len() - 1] == k);
            }
        }
    }
}

} // verus!
