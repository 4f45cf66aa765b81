use vstd::prelude::*;

pub mod alias;
pub mod blobs;
pub mod blobs_key;
pub mod chat;
pub mod cleanup;
pub mod consistency;
pub mod inbox;
pub mod interleave;
pub mod keyed;
pub mod mailbox;
pub mod mem_mailbox;
pub mod messages;
pub mod node_model;
pub mod op_store;
pub mod payload;
pub mod receipts;
pub mod relay;
pub mod store_blobs;
pub mod text;
pub mod topic;
pub mod toy;
pub mod uuid_text;
pub mod watermark;

verus! {

/// The system clock's time type.
#[verifier::external_type_specification]
#[verifier::external_body]
pub struct ExSystemTime(std::time::SystemTime);

/// `SystemTime::now`: the system clock's reading. Which time it is, is not
/// stated.
#[verifier::external_body]
fn system_now() -> std::time::SystemTime {
    std::time::SystemTime::now()
}

/// `SystemTime::duration_since(UNIX_EPOCH)`: how long after the Unix epoch
/// `t` stands, `None` where it stands before it. How long is not stated.
#[verifier::external_body]
fn since_epoch(t: &std::time::SystemTime) -> Option<std::time::Duration> {
    match t.duration_since(std::time::UNIX_EPOCH) {
        Ok(d) => Some(d),
        Err(_) => None,
    }
}

/// `Duration::as_secs`: the whole seconds of `d` (not stated further).
#[verifier::external_body]
fn duration_secs(d: &std::time::Duration) -> u64 {
    d.as_secs()
}

/// `Duration::subsec_nanos`: the nanoseconds of `d` past its whole seconds,
/// which the documentation keeps below one billion.
#[verifier::external_body]
fn duration_subsec_nanos(d: &std::time::Duration) -> (n: u32)
    ensures
        n < 1_000_000_000,
{
    d.subsec_nanos()
}

/// The system clock's reading as seconds and nanoseconds since the Unix
/// epoch, or `None` where the clock stands before the epoch.
pub(crate) fn time_since_epoch() -> (r: Option<(u64, u32)>)
    ensures
        r matches Some((_, n)) ==> n < 1_000_000_000,
{
    let now = system_now();
    match since_epoch(&now) {
        Some(d) => Some((duration_secs(&d), duration_subsec_nanos(&d))),
        None => None,
    }
}

/// The whole seconds of a clock reading (seconds and nanoseconds since the
/// Unix epoch), or `None` for a clock that stands before the epoch.
pub fn whole_seconds(reading: Option<(u64, u32)>) -> (r: Option<u64>)
    ensures
        r == match reading {
            Some((secs, _)) => Some(secs),
            None => None::<u64>,
        },
{
    match reading {
        Some((secs, _)) => Some(secs),
        None => None,
    }
}

/// The current time in seconds since the Unix epoch, or `None` where the
/// system clock stands before the epoch.
pub fn timestamp_now() -> (r: Option<u64>) {
    whole_seconds(time_since_epoch())
}

} // verus!
