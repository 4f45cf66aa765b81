//! UUIDs as the mailbox keys carry them: a `u128` in the library, written
//! and read by the `uuid` crate.
use vstd::prelude::*;

use crate::cleanup::{millis_limit, uuid_millis};
use crate::time_since_epoch;
use crate::topic::{all_hex, hex_value, is_hex_digit, lemma_hex_char};
use vstd::arithmetic::div_mod::{lemma_mod_breakdown, lemma_small_mod};

verus! {

/// Parse errors of the `uuid` crate.
#[verifier::external_type_specification]
#[verifier::external_body]
pub struct ExUuidError(uuid::Error);

/// The `uuid` crate's counter for version 7 UUIDs: it keeps the UUIDs made
/// with it in the order they were made, also within one millisecond.
#[verifier::external_type_specification]
#[verifier::external_body]
pub struct ExContextV7(uuid::ContextV7);

/// A lowercase hexadecimal digit for `n` (`0 <= n < 16`).
pub open spec fn hex_char(n: int) -> char {
    if n < 10 {
        (48 + n) as char
    } else {
        (87 + n) as char
    }
}

pub open spec fn is_hex_lower(c: char) -> bool {
    ('0' <= c && c <= '9') || ('a' <= c && c <= 'f')
}

/// The `w` low-order hexadecimal digits of `n`, most significant first.
pub open spec fn hex_fixed(n: nat, w: nat) -> Seq<char>
    decreases w,
{
    if w == 0 {
        Seq::empty()
    } else {
        hex_fixed(n / 16, (w - 1) as nat).push(hex_char((n % 16) as int))
    }
}

/// The hyphenated lowercase form of a UUID, `8-4-4-4-12` hex digits of its
/// big-endian value.
pub open spec fn uuid_text(u: u128) -> Seq<char> {
    let h = hex_fixed(u as nat, 32);
    h.subrange(0, 8) + seq!['-'] + h.subrange(8, 12) + seq!['-'] + h.subrange(12, 16) + seq!['-']
        + h.subrange(16, 20) + seq!['-'] + h.subrange(20, 32)
}

/// The number that hexadecimal digits spell, most significant first.
pub open spec fn hex_number(s: Seq<char>) -> nat
    decreases s.len(),
{
    if s.len() == 0 {
        0
    } else {
        hex_number(s.drop_last()) * 16 + hex_value(s.last()) as nat
    }
}

/// 16 to the power `w`.
pub open spec fn pow16(w: nat) -> nat
    decreases w,
{
    if w == 0 {
        1
    } else {
        16 * pow16((w - 1) as nat)
    }
}

/// The 32 digits of a hyphenated UUID text, without its hyphens.
pub open spec fn hyphenated_digits(s: Seq<char>) -> Seq<char> {
    s.subrange(0, 8) + s.subrange(9, 13) + s.subrange(14, 18) + s.subrange(19, 23) + s.subrange(
        24,
        36,
    )
}

/// `s` is a hyphenated UUID: `8-4-4-4-12` hexadecimal digits of either case.
pub open spec fn is_hyphenated(s: Seq<char>) -> bool {
    &&& s.len() == 36
    &&& s[8] == '-' && s[13] == '-' && s[18] == '-' && s[23] == '-'
    &&& all_hex(hyphenated_digits(s))
}

/// `p` is `urn:uuid:` in any case of its letters.
pub open spec fn is_urn_prefix(p: Seq<char>) -> bool {
    let lower = seq!['u', 'r', 'n', ':', 'u', 'u', 'i', 'd', ':'];
    let upper = seq!['U', 'R', 'N', ':', 'U', 'U', 'I', 'D', ':'];
    p.len() == 9 && forall|i: int| 0 <= i < 9 ==> #[trigger] p[i] == lower[i] || p[i] == upper[i]
}

/// The 32 hexadecimal digits of a UUID text in one of the forms that
/// `Uuid::parse_str` reads: simple (32 digits), hyphenated, hyphenated in
/// braces, or hyphenated behind `urn:uuid:`; `None` for any other text.
pub open spec fn uuid_digits(s: Seq<char>) -> Option<Seq<char>> {
    if s.len() == 32 {
        if all_hex(s) {
            Some(s)
        } else {
            None
        }
    } else if is_hyphenated(s) {
        Some(hyphenated_digits(s))
    } else if s.len() == 38 && s[0] == '{' && s[37] == '}' && is_hyphenated(s.subrange(1, 37)) {
        Some(hyphenated_digits(s.subrange(1, 37)))
    } else if s.len() == 45 && is_urn_prefix(s.subrange(0, 9)) && is_hyphenated(s.subrange(9, 45)) {
        Some(hyphenated_digits(s.subrange(9, 45)))
    } else {
        None
    }
}

/// What `Uuid::parse_str` makes of a text: the value of its 32 digits, most
/// significant first, when the text has one of the forms it reads; `None`
/// otherwise.
pub open spec fn uuid_parse_str(s: Seq<char>) -> Option<u128> {
    match uuid_digits(s) {
        Some(d) => Some(hex_number(d) as u128),
        None => None,
    }
}

/// Zero-padded hexadecimal of width `w` spells the number modulo `16^w`.
pub proof fn lemma_hex_number_fixed(n: nat, w: nat)
    ensures
        hex_number(hex_fixed(n, w)) == n % pow16(w),
    decreases w,
{
    if w > 0 {
        let w1 = (w - 1) as nat;
        lemma_hex_number_fixed(n / 16, w1);
        let h = hex_fixed(n, w);
        assert(h.drop_last() == hex_fixed(n / 16, w1));
        assert(h.last() == hex_char((n % 16) as int));
        lemma_hex_char((n % 16) as int);
        lemma_pow16_positive(w1);
        lemma_mod_breakdown(n as int, 16, pow16(w1) as int);
    }
}

proof fn lemma_pow16_positive(w: nat)
    ensures
        pow16(w) > 0,
    decreases w,
{
    if w > 0 {
        lemma_pow16_positive((w - 1) as nat);
    }
}

/// A UUID's own text reads back as the UUID.
pub proof fn lemma_uuid_text_parses(u: u128)
    ensures
        uuid_parse_str(uuid_text(u)) == Some(u),
{
    let h = hex_fixed(u as nat, 32);
    let t = uuid_text(u);
    lemma_hex_fixed(u as nat, 32);
    assert(t.len() == 36);
    assert(t[8] == '-' && t[13] == '-' && t[18] == '-' && t[23] == '-');
    assert(hyphenated_digits(t) =~= h);
    assert forall|i: int| 0 <= i < h.len() implies is_hex_digit(#[trigger] h[i]) by {
        assert(is_hex_lower(h[i]));
    }
    lemma_hex_number_fixed(u as nat, 32);
    reveal_with_fuel(pow16, 33);
    assert(pow16(32) == 0x1_0000_0000_0000_0000_0000_0000_0000_0000nat);
    lemma_small_mod(u as nat, pow16(32));
}

/// `Uuid::to_string` of the UUID with value `u`: the hyphenated lowercase
/// form (which reads back as `u`: `lemma_uuid_text_parses`).
#[verifier::external_body]
pub(crate) fn uuid_to_text(u: u128) -> (s: String)
    ensures
        s@ == uuid_text(u),
{
    uuid::Uuid::from_u128(u).to_string()
}

/// `Uuid::parse_str`: reads a UUID in one of the forms of `uuid_digits`, and
/// yields its value; any other text is an error.
#[verifier::external_body]
pub(crate) fn uuid_from_text(s: &str) -> (r: Result<u128, uuid::Error>)
    ensures
        r is Ok <==> uuid_parse_str(s@) is Some,
        r matches Ok(v) ==> uuid_parse_str(s@) == Some(v),
{
    uuid::Uuid::parse_str(s).map(|u| u.as_u128())
}

/// `Uuid::new_v7(Timestamp::from_unix(NoContext, secs, nanos))`: a version 7
/// UUID for the time `secs` seconds and `nanos` nanoseconds after the epoch.
/// Its 48 high bits are that time in milliseconds, where it fits in 48 bits;
/// the other bits are the version, the variant and random bits, which are not
/// stated.
#[verifier::external_body]
pub(crate) fn uuid_v7_at(secs: u64, nanos: u32) -> (u: u128)
    requires
        nanos < 1_000_000_000,
    ensures
        secs * 1000 + nanos / 1_000_000 < millis_limit() ==> uuid_millis(u) == secs * 1000 + nanos
            / 1_000_000,
{
    uuid::Uuid::new_v7(uuid::Timestamp::from_unix(uuid::NoContext, secs, nanos)).as_u128()
}

/// `Uuid::new_v7(Timestamp::from_unix(context, secs, nanos))`: a version 7
/// UUID for the given time, counted by `context`, which keeps the UUIDs it
/// makes in the order they were made (where time runs backwards it keeps to
/// the last time it saw). What it holds depends on the context's state and on
/// chance, and is not stated.
#[verifier::external_body]
fn uuid_v7_counted(context: &uuid::ContextV7, secs: u64, nanos: u32) -> u128 {
    uuid::Uuid::new_v7(uuid::Timestamp::from_unix(context, secs, nanos)).as_u128()
}

/// A fresh version 7 UUID for the current time, counted by `context` so that
/// the UUIDs made with one context are in the order they were made; `None`
/// where the system clock stands before the epoch.
pub(crate) fn uuid_now_v7(context: &uuid::ContextV7) -> (r: Option<u128>) {
    match time_since_epoch() {
        Some((secs, nanos)) => Some(uuid_v7_counted(context, secs, nanos)),
        None => None,
    }
}

/// A zero-padded lowercase hexadecimal of width `w` has `w` lowercase
/// hexadecimal characters.
pub proof fn lemma_hex_fixed(n: nat, w: nat)
    ensures
        hex_fixed(n, w).len() == w,
        forall|i: int| 0 <= i < w ==> is_hex_lower(#[trigger] hex_fixed(n, w)[i]),
    decreases w,
{
    if w > 0 {
        lemma_hex_fixed(n / 16, (w - 1) as nat);
        let h = hex_fixed(n, w);
        assert forall|i: int| 0 <= i < w implies is_hex_lower(#[trigger] h[i]) by {
            if i < w - 1 {
                assert(h[i] == hex_fixed(n / 16, (w - 1) as nat)[i]);
            }
        }
    }
}

/// A UUID's text has 36 characters, none of them a `:`.
pub proof fn lemma_uuid_text_shape(u: u128)
    ensures
        uuid_text(u).len() == 36,
        forall|i: int| 0 <= i < 36 ==> #[trigger] uuid_text(u)[i] != ':',
{
    lemma_hex_fixed(u as nat, 32);
    let h = hex_fixed(u as nat, 32);
    let t = uuid_text(u);
    assert forall|i: int| 0 <= i < 36 implies #[trigger] t[i] != ':' by {
        if i < 8 {
            assert(t[i] == h[i]);
        } else if i == 8 || i == 13 || i == 18 || i == 23 {
        } else if i < 13 {
            assert(t[i] == h[i - 1]);
        } else if i < 18 {
            assert(t[i] == h[i - 2]);
        } else if i < 23 {
            assert(t[i] == h[i - 3]);
        } else {
            assert(t[i] == h[i - 4]);
        }
    }
}

} // verus!
