//! The mailbox server's blob logic: which stored blobs a client is sent and
//! which of the client's blobs the server reports missing, and the keys
//! under which blobs are stored (`topic_id:log_id:sequence_number:uuid`).
use std::collections::BTreeSet;
use vstd::prelude::*;
use crate::text::{
    append_chars, append_str, has_char, lemma_decimal_digits, lemma_parse_digits,
    lemma_split_join, lemma_split_no_sep, chars_equal, chars_of, decimal, decimal_chars, parse_unsigned,
    parse_unsigned_chars, split_chars, split_on, string_from_chars, IntErrorKind,
};
use crate::chat::{lemma_lex_total, lemma_lex_transitive};
use crate::messages::chars_lt;
use crate::text::lex_lt;
use crate::uuid_text::{lemma_uuid_text_shape, uuid_now_v7, uuid_text, uuid_to_text};

verus! {

/// The blobs of one topic that a client does not have, and the sequence
/// numbers of the client's blobs that the server is missing.
pub struct GetBlobsForTopicResponse {
    /// For each log, in increasing order of name, its blobs in increasing
    /// order of sequence number.
    pub blobs: Vec<(String, Vec<(u32, Vec<u8>)>)>,
    /// For each requested log that the server lacks blobs of, their sequence
    /// numbers in increasing order.
    pub missing: Vec<(String, Vec<u32>)>,
}

/// A stored key that cannot be read.
#[derive(Debug)]
pub enum GetBlobsError {
    /// The key has fewer than 4 `:`-separated parts.
    InvalidKey { key: String, parts: usize },
    /// The key's third part is not a sequence number.
    InvalidSequence { key: String, kind: IntErrorKind },
}

// ---------------------------------------------------------------------------
// Specification
// ---------------------------------------------------------------------------

pub open spec fn key_parts(k: Seq<char>) -> Seq<Seq<char>> {
    split_on(k, ':')
}

/// A stored key has at least 4 parts, and its third is a sequence number.
pub open spec fn entry_readable(k: Seq<char>) -> bool {
    key_parts(k).len() >= 4 && parse_unsigned(key_parts(k)[2], u32::MAX as nat) is Ok
}

pub open spec fn entry_log(k: Seq<char>) -> Seq<char> {
    key_parts(k)[1]
}

pub open spec fn entry_seq(k: Seq<char>) -> u32 {
    (parse_unsigned(key_parts(k)[2], u32::MAX as nat)->Ok_0) as u32
}

pub open spec fn entries_readable(es: Seq<(String, Vec<u8>)>) -> bool {
    forall|i: int| 0 <= i < es.len() ==> entry_readable(#[trigger] es[i].0@)
}

/// The lowest sequence number after which the client wants the blobs of `g`,
/// when it names `g`.
pub open spec fn requested_min(req: Seq<(String, u32)>, g: Seq<char>) -> Option<u32>
    decreases req.len(),
{
    if req.len() == 0 {
        None
    } else if req.last().0@ == g {
        Some(req.last().1)
    } else {
        requested_min(req.drop_last(), g)
    }
}

/// A blob of log `g` goes to the client when the client does not name `g`,
/// or when its sequence number exceeds the one the client gave for `g`.
pub open spec fn included(req: Seq<(String, u32)>, g: Seq<char>, s: u32) -> bool {
    match requested_min(req, g) {
        None => true,
        Some(m) => s > m,
    }
}

/// The last stored blob of log `g` with sequence number `s`.
pub open spec fn latest_blob(es: Seq<(String, Vec<u8>)>, g: Seq<char>, s: u32) -> Option<Seq<u8>>
    decreases es.len(),
{
    if es.len() == 0 {
        None
    } else if entry_log(es.last().0@) == g && entry_seq(es.last().0@) == s {
        Some(es.last().1@)
    } else {
        latest_blob(es.drop_last(), g, s)
    }
}

/// The blob that the response holds for log `g` and sequence number `s`.
pub open spec fn returned_blob(req: Seq<(String, u32)>, es: Seq<(String, Vec<u8>)>, g: Seq<char>, s: u32) -> Option<Seq<u8>> {
    if included(req, g, s) {
        latest_blob(es, g, s)
    } else {
        None
    }
}

/// The sequence numbers stored for log `g`.
pub open spec fn stored_seqs(es: Seq<(String, Vec<u8>)>, g: Seq<char>) -> Set<u32> {
    Set::new(|s: u32| latest_blob(es, g, s) is Some)
}

/// The numbers `lo..=hi` that are not in `stored`, in increasing order.
pub open spec fn unstored_between(lo: int, hi: int, stored: Set<u32>) -> Seq<u32>
    decreases hi - lo + 1,
{
    if lo > hi {
        Seq::empty()
    } else {
        let rest = unstored_between(lo + 1, hi, stored);
        if stored.contains(lo as u32) {
            rest
        } else {
            seq![lo as u32] + rest
        }
    }
}

/// The sequence numbers up to the client's `client_max` that the server
/// misses: everything up to the server's watermark it has had; above it,
/// those it does not hold.
pub open spec fn missing_seqs(watermark: Option<u32>, client_max: u32, stored: Set<u32>) -> Seq<u32> {
    match watermark {
        Some(w) => if client_max > w {
            unstored_between(w + 1, client_max as int, stored)
        } else {
            Seq::empty()
        },
        None => unstored_between(0, client_max as int, stored),
    }
}

/// The missing report for the requested logs, in their order, leaving out
/// logs with nothing missing.
pub open spec fn missing_report(
    req: Seq<(String, u32)>,
    wms: Seq<Option<u32>>,
    es: Seq<(String, Vec<u8>)>,
) -> Seq<(Seq<char>, Seq<u32>)>
    decreases req.len(),
{
    if req.len() == 0 {
        Seq::empty()
    } else {
        let rest = missing_report(req.drop_last(), wms.drop_last(), es);
        let g = req.last().0@;
        let m = missing_seqs(wms.last(), req.last().1, stored_seqs(es, g));
        if m.len() > 0 {
            rest.push((g, m))
        } else {
            rest
        }
    }
}

pub open spec fn missing_views(v: Seq<(String, Vec<u32>)>) -> Seq<(Seq<char>, Seq<u32>)> {
    v.map_values(|p: (String, Vec<u32>)| (p.0@, p.1@))
}

/// A log's blobs are in increasing order of sequence number, each once.
pub open spec fn seqs_sorted(inner: Seq<(u32, Vec<u8>)>) -> bool {
    forall|j: int, l: int| 0 <= j < l < inner.len() ==> #[trigger] inner[j].0 < #[trigger] inner[l].0
}

/// The response's logs are in increasing order of name, each once.
pub open spec fn names_sorted(b: Seq<(String, Vec<(u32, Vec<u8>)>)>) -> bool {
    forall|i: int, j: int| 0 <= i < j < b.len() ==> lex_lt(#[trigger] b[i].0@, #[trigger] b[j].0@)
}

/// The response is ordered as maps keyed by log name and then by sequence
/// number are: logs by name, each log's blobs by sequence number; no log is
/// listed without blobs.
pub open spec fn blobs_well_formed(b: Seq<(String, Vec<(u32, Vec<u8>)>)>) -> bool {
    &&& names_sorted(b)
    &&& forall|i: int| 0 <= i < b.len() ==> #[trigger] b[i].1@.len() > 0 && seqs_sorted(b[i].1@)
}

/// The blob that a log's blobs hold for sequence number `s`.
pub open spec fn seq_blob(inner: Seq<(u32, Vec<u8>)>, s: u32) -> Option<Seq<u8>> {
    if exists|j: int| 0 <= j < inner.len() && #[trigger] inner[j].0 == s {
        Some(inner[choose|j: int| 0 <= j < inner.len() && #[trigger] inner[j].0 == s].1@)
    } else {
        None
    }
}

/// The blobs that the response lists under log `g`.
pub open spec fn log_at(b: Seq<(String, Vec<(u32, Vec<u8>)>)>, g: Seq<char>) -> Option<Seq<(u32, Vec<u8>)>> {
    if exists|i: int| 0 <= i < b.len() && #[trigger] b[i].0@ == g {
        Some(b[choose|i: int| 0 <= i < b.len() && #[trigger] b[i].0@ == g].1@)
    } else {
        None
    }
}

/// The blob that the response lists under log `g` and sequence number `s`.
pub open spec fn blob_at(b: Seq<(String, Vec<(u32, Vec<u8>)>)>, g: Seq<char>, s: u32) -> Option<Seq<u8>> {
    match log_at(b, g) {
        Some(inner) => seq_blob(inner, s),
        None => None,
    }
}

/// The response lists exactly the blobs that `returned_blob` gives.
pub open spec fn blobs_match(
    b: Seq<(String, Vec<(u32, Vec<u8>)>)>,
    req: Seq<(String, u32)>,
    es: Seq<(String, Vec<u8>)>,
) -> bool {
    forall|g: Seq<char>, s: u32| #[trigger] blob_at(b, g, s) == returned_blob(req, es, g, s)
}

// ---------------------------------------------------------------------------
// Lemmas
// ---------------------------------------------------------------------------

/// The request of a log names its own lowest sequence number.
proof fn lemma_requested_min_at(req: Seq<(String, u32)>, k: int)
    requires
        0 <= k < req.len(),
        forall|a: int, b: int| 0 <= a < b < req.len() ==> req[a].0@ != req[b].0@,
    ensures
        requested_min(req, req[k].0@) == Some(req[k].1),
    decreases req.len(),
{
    if k < req.len() - 1 {
        assert(req.last() == req[req.len() - 1]);
        assert(req.last().0@ != req[k].0@);
        lemma_requested_min_at(req.drop_last(), k);
        assert(req.drop_last()[k] == req[k]);
    }
}

/// A log that the request does not name has no lowest sequence number.
proof fn lemma_requested_min_none(req: Seq<(String, u32)>, g: Seq<char>)
    requires
        forall|a: int| 0 <= a < req.len() ==> #[trigger] req[a].0@ != g,
    ensures
        requested_min(req, g) is None,
    decreases req.len(),
{
    if req.len() > 0 {
        assert(req.last() == req[req.len() - 1]);
        assert forall|a: int| 0 <= a < req.drop_last().len() implies #[trigger] req.drop_last()[a].0@ != g by {
            assert(req.drop_last()[a] == req[a]);
        }
        lemma_requested_min_none(req.drop_last(), g);
    }
}

// ---------------------------------------------------------------------------
// Executable code
// ---------------------------------------------------------------------------

/// The position of log `g` among the requested logs.
fn find_request(req: &Vec<(String, u32)>, g: &Vec<char>) -> (r: Option<usize>)
    ensures
        match r {
            Some(k) => k < req.len() && req@[k as int].0@ == g@,
            None => forall|a: int| 0 <= a < req.len() ==> #[trigger] req@[a].0@ != g@,
        },
{
    let mut k: usize = 0;
    while k < req.len()
        invariant
            0 <= k <= req.len(),
            forall|a: int| 0 <= a < k ==> #[trigger] req@[a].0@ != g@,
        decreases req.len() - k,
    {
        let name = chars_of(req[k].0.as_str());
        if chars_equal(&name, g) {
            return Some(k);
        }
        k = k + 1;
    }
    None
}

/// In sorted blobs, the blob at `j` is the one of its sequence number.
proof fn lemma_seq_blob_at(inner: Seq<(u32, Vec<u8>)>, j: int)
    requires
        seqs_sorted(inner),
        0 <= j < inner.len(),
    ensures
        seq_blob(inner, inner[j].0) == Some(inner[j].1@),
{
    let s = inner[j].0;
    assert(inner[j].0 == s);
    let c = choose|c: int| 0 <= c < inner.len() && #[trigger] inner[c].0 == s;
    if c < j {
        assert(inner[c].0 < inner[j].0);
    } else if c > j {
        assert(inner[j].0 < inner[c].0);
    }
}

/// In sorted logs, the log at `i` is the one of its name.
proof fn lemma_log_at_index(b: Seq<(String, Vec<(u32, Vec<u8>)>)>, i: int)
    requires
        names_sorted(b),
        0 <= i < b.len(),
    ensures
        log_at(b, b[i].0@) == Some(b[i].1@),
{
    let g = b[i].0@;
    assert(b[i].0@ == g);
    let c = choose|c: int| 0 <= c < b.len() && #[trigger] b[c].0@ == g;
    lemma_lex_total(g, g);
    if c < i {
        assert(lex_lt(b[c].0@, b[i].0@));
    } else if c > i {
        assert(lex_lt(b[i].0@, b[c].0@));
    }
}

/// Where sequence number `s` stands, or would stand, in sorted blobs: the
/// first position whose number is not below `s`.
fn locate_seq(inner: &Vec<(u32, Vec<u8>)>, s: u32) -> (p: usize)
    ensures
        p <= inner.len(),
        forall|k: int| 0 <= k < p ==> #[trigger] inner@[k].0 < s,
        p < inner.len() ==> inner@[p as int].0 >= s,
{
    let mut p: usize = 0;
    while p < inner.len()
        invariant
            0 <= p <= inner.len(),
            forall|k: int| 0 <= k < p ==> #[trigger] inner@[k].0 < s,
        decreases inner.len() - p,
    {
        if inner[p].0 >= s {
            return p;
        }
        p = p + 1;
    }
    p
}

/// Puts blob `v` under sequence number `s` in sorted blobs, replacing the
/// blob held there; every other number keeps its blob.
fn insert_seq(inner: &mut Vec<(u32, Vec<u8>)>, s: u32, v: Vec<u8>)
    requires
        seqs_sorted(old(inner)@),
    ensures
        seqs_sorted(final(inner)@),
        final(inner)@.len() > 0,
        seq_blob(final(inner)@, s) == Some(v@),
        forall|s2: u32| s2 != s ==> #[trigger] seq_blob(final(inner)@, s2) == seq_blob(old(inner)@, s2),
{
    let ghost o = inner@;
    let p = locate_seq(inner, s);
    let ghost vv = v@;
    if p < inner.len() && inner[p].0 == s {
        inner.set(p, (s, v));
        proof {
            let n = inner@;
            assert(n =~= o.update(p as int, n[p as int]));
            assert forall|j: int, l: int| 0 <= j < l < n.len() implies #[trigger] n[j].0 < #[trigger] n[l].0 by {
                assert(o[j].0 < o[l].0);
            }
            lemma_seq_blob_at(n, p as int);
            assert forall|s2: u32| s2 != s implies #[trigger] seq_blob(n, s2) == seq_blob(o, s2) by {
                if exists|j: int| 0 <= j < o.len() && #[trigger] o[j].0 == s2 {
                    let j = choose|j: int| 0 <= j < o.len() && #[trigger] o[j].0 == s2;
                    assert(n[j] == o[j]);
                    lemma_seq_blob_at(o, j);
                    lemma_seq_blob_at(n, j);
                } else {
                    assert forall|j: int| 0 <= j < n.len() implies #[trigger] n[j].0 != s2 by {
                        if j != p {
                            assert(n[j] == o[j]);
                        }
                    }
                }
            }
        }
    } else {
        inner.insert(p, (s, v));
        proof {
            let n = inner@;
            assert(n =~= o.insert(p as int, n[p as int]));
            assert forall|k: int| p <= k < o.len() implies s < #[trigger] o[k].0 by {
                if k > p {
                    assert(o[p as int].0 < o[k].0);
                }
            }
            assert forall|j: int, l: int| 0 <= j < l < n.len() implies #[trigger] n[j].0 < #[trigger] n[l].0 by {
                if l < p {
                    assert(o[j].0 < o[l].0);
                } else if l == p {
                    assert(o[j].0 < s);
                } else if j < p {
                    assert(n[l] == o[l - 1]);
                    assert(o[j].0 < s);
                    assert(s < o[l - 1].0);
                } else if j == p {
                    assert(n[l] == o[l - 1]);
                } else {
                    assert(o[j - 1].0 < o[l - 1].0);
                }
            }
            lemma_seq_blob_at(n, p as int);
            assert forall|s2: u32| s2 != s implies #[trigger] seq_blob(n, s2) == seq_blob(o, s2) by {
                if exists|j: int| 0 <= j < o.len() && #[trigger] o[j].0 == s2 {
                    let j = choose|j: int| 0 <= j < o.len() && #[trigger] o[j].0 == s2;
                    lemma_seq_blob_at(o, j);
                    if j < p {
                        assert(n[j] == o[j]);
                        lemma_seq_blob_at(n, j);
                    } else {
                        assert(n[j + 1] == o[j]);
                        lemma_seq_blob_at(n, j + 1);
                    }
                } else {
                    assert forall|j: int| 0 <= j < n.len() implies #[trigger] n[j].0 != s2 by {
                        if j < p {
                            assert(n[j] == o[j]);
                        } else if j > p {
                            assert(n[j] == o[j - 1]);
                        }
                    }
                }
            }
        }
    }
}

/// Where log `g` stands, or would stand, among sorted logs: the first
/// position whose name is not below `g`, and whether that name is `g`.
fn locate_log(b: &Vec<(String, Vec<(u32, Vec<u8>)>)>, g: &Vec<char>) -> (r: (bool, usize))
    requires
        names_sorted(b@),
    ensures
        r.1 <= b.len(),
        forall|k: int| 0 <= k < r.1 ==> lex_lt(#[trigger] b@[k].0@, g@),
        r.0 ==> r.1 < b.len() && b@[r.1 as int].0@ == g@,
        !r.0 ==> forall|k: int| r.1 <= k < b.len() ==> lex_lt(g@, #[trigger] b@[k].0@),
{
    let mut p: usize = 0;
    while p < b.len()
        invariant
            0 <= p <= b.len(),
            names_sorted(b@),
            forall|k: int| 0 <= k < p ==> lex_lt(#[trigger] b@[k].0@, g@),
        decreases b.len() - p,
    {
        let name = chars_of(b[p].0.as_str());
        if !chars_lt(&name, g) {
            let eq = chars_equal(&name, g);
            proof {
                if !eq {
                    lemma_lex_total(b@[p as int].0@, g@);
                    assert forall|k: int| p <= k < b.len() implies lex_lt(g@, #[trigger] b@[k].0@) by {
                        if k > p {
                            assert(lex_lt(b@[p as int].0@, b@[k].0@));
                            lemma_lex_transitive(g@, b@[p as int].0@, b@[k].0@);
                        }
                    }
                }
            }
            return (eq, p);
        }
        p = p + 1;
    }
    (false, p)
}

/// Puts blob `v` under log `g` and sequence number `s`, keeping the order;
/// a blob held there is replaced, every other keeps its place in the lookup.
fn insert_blob(b: &mut Vec<(String, Vec<(u32, Vec<u8>)>)>, g: &Vec<char>, s: u32, v: Vec<u8>)
    requires
        blobs_well_formed(old(b)@),
    ensures
        blobs_well_formed(final(b)@),
        blob_at(final(b)@, g@, s) == Some(v@),
        forall|g2: Seq<char>, s2: u32|
            !(g2 == g@ && s2 == s) ==> #[trigger] blob_at(final(b)@, g2, s2) == blob_at(old(b)@, g2, s2),
{
    let ghost ob = b@;
    let (found, p) = locate_log(b, g);
    proof {
        lemma_lex_total(g@, g@);
    }
    if found {
        let (name, mut inner) = b.remove(p);
        let ghost oi = inner@;
        proof {
            assert(oi == ob[p as int].1@);
        }
        insert_seq(&mut inner, s, v);
        let ghost ni = inner@;
        let ghost nm = name;
        b.insert(p, (name, inner));
        proof {
            let nb = b@;
            assert(nb =~= ob.update(p as int, (nm, nb[p as int].1)));
            assert forall|i: int, j: int| 0 <= i < j < nb.len() implies lex_lt(#[trigger] nb[i].0@, #[trigger] nb[j].0@) by {
                assert(lex_lt(ob[i].0@, ob[j].0@));
            }
            assert forall|i: int| 0 <= i < nb.len() implies #[trigger] nb[i].1@.len() > 0 && seqs_sorted(nb[i].1@) by {
                if i != p {
                    assert(nb[i] == ob[i]);
                }
            }
            lemma_log_at_index(nb, p as int);
            lemma_log_at_index(ob, p as int);
            assert forall|g2: Seq<char>, s2: u32| !(g2 == g@ && s2 == s) implies #[trigger] blob_at(nb, g2, s2) == blob_at(ob, g2, s2) by {
                if g2 != g@ {
                    if exists|i: int| 0 <= i < ob.len() && #[trigger] ob[i].0@ == g2 {
                        let i = choose|i: int| 0 <= i < ob.len() && #[trigger] ob[i].0@ == g2;
                        assert(i != p);
                        assert(nb[i] == ob[i]);
                        lemma_log_at_index(ob, i);
                        lemma_log_at_index(nb, i);
                    } else {
                        assert forall|i: int| 0 <= i < nb.len() implies #[trigger] nb[i].0@ != g2 by {
                            if i != p {
                                assert(nb[i] == ob[i]);
                            }
                        }
                    }
                }
            }
        }
    } else {
        let mut inner: Vec<(u32, Vec<u8>)> = Vec::new();
        inner.push((s, v));
        let name = string_from_chars(g);
        let ghost ni = inner@;
        b.insert(p, (name, inner));
        proof {
            let nb = b@;
            assert(nb =~= ob.insert(p as int, nb[p as int]));
            assert(nb[p as int].0@ == g@);
            assert(seqs_sorted(ni));
            assert forall|i: int, j: int| 0 <= i < j < nb.len() implies lex_lt(#[trigger] nb[i].0@, #[trigger] nb[j].0@) by {
                if j < p {
                    assert(lex_lt(ob[i].0@, ob[j].0@));
                } else if j == p {
                    assert(lex_lt(ob[i].0@, g@));
                } else if i < p {
                    assert(nb[j] == ob[j - 1]);
                    assert(lex_lt(ob[i].0@, g@));
                    assert(lex_lt(g@, ob[j - 1].0@));
                    lemma_lex_transitive(ob[i].0@, g@, ob[j - 1].0@);
                } else if i == p {
                    assert(nb[j] == ob[j - 1]);
                } else {
                    assert(lex_lt(ob[i - 1].0@, ob[j - 1].0@));
                }
            }
            assert forall|i: int| 0 <= i < nb.len() implies #[trigger] nb[i].1@.len() > 0 && seqs_sorted(nb[i].1@) by {
                if i < p {
                    assert(nb[i] == ob[i]);
                } else if i > p {
                    assert(nb[i] == ob[i - 1]);
                }
            }
            lemma_log_at_index(nb, p as int);
            lemma_seq_blob_at(ni, 0);
            assert forall|i: int| 0 <= i < ob.len() implies #[trigger] ob[i].0@ != g@ by {
                if i < p {
                    assert(lex_lt(ob[i].0@, g@));
                } else {
                    assert(lex_lt(g@, ob[i].0@));
                }
            }
            assert forall|g2: Seq<char>, s2: u32| !(g2 == g@ && s2 == s) implies #[trigger] blob_at(nb, g2, s2) == blob_at(ob, g2, s2) by {
                if g2 != g@ {
                    if exists|i: int| 0 <= i < ob.len() && #[trigger] ob[i].0@ == g2 {
                        let i = choose|i: int| 0 <= i < ob.len() && #[trigger] ob[i].0@ == g2;
                        lemma_log_at_index(ob, i);
                        if i < p {
                            assert(nb[i] == ob[i]);
                            lemma_log_at_index(nb, i);
                        } else {
                            assert(nb[i + 1] == ob[i]);
                            lemma_log_at_index(nb, i + 1);
                        }
                    } else {
                        assert forall|i: int| 0 <= i < nb.len() implies #[trigger] nb[i].0@ != g2 by {
                            if i < p {
                                assert(nb[i] == ob[i]);
                            } else if i > p {
                                assert(nb[i] == ob[i - 1]);
                            }
                        }
                    }
                } else {
                    assert(forall|j: int| 0 <= j < ni.len() ==> #[trigger] ni[j].0 == s);
                }
            }
        }
    }
}

/// The numbers `lo..=hi` that are not in `stored`, in increasing order.
fn unstored_list(lo: u32, hi: u32, stored: &BTreeSet<u32>) -> (v: Vec<u32>)
    ensures
        v@ == unstored_between(lo as int, hi as int, stored@),
{
    let mut v: Vec<u32> = Vec::new();
    let mut cur: u64 = lo as u64;
    while cur <= hi as u64
        invariant
            lo <= cur,
            cur <= u32::MAX as u64 + 1,
            v@ + unstored_between(cur as int, hi as int, stored@) == unstored_between(
                lo as int,
                hi as int,
                stored@,
            ),
        decreases hi as u64 + 1 - cur,
    {
        let c: u32 = cur as u32;
        let ghost before = v@;
        if !stored.contains(&c) {
            v.push(c);
            assert(before + unstored_between(cur as int, hi as int, stored@) =~= v@
                + unstored_between(cur + 1, hi as int, stored@));
        }
        cur = cur + 1;
    }
    assert(unstored_between(cur as int, hi as int, stored@) == Seq::<u32>::empty());
    assert(v@ + Seq::<u32>::empty() =~= v@);
    v
}

/// The sequence numbers that the server misses of a log that the client
/// holds up to `client_max`, given the server's watermark for the log and the
/// sequence numbers it stores for it.
pub fn missing_sequence_numbers(
    watermark: Option<u32>,
    client_max: u32,
    stored: &BTreeSet<u32>,
) -> (v: Vec<u32>)
    ensures
        v@ == missing_seqs(watermark, client_max, stored@),
{
    match watermark {
        Some(w) => {
            if client_max > w {
                unstored_list(w + 1, client_max, stored)
            } else {
                Vec::new()
            }
        },
        None => unstored_list(0, client_max, stored),
    }
}

/// `e` is the error that the unreadable stored key `key` gives.
pub open spec fn entry_error(key: Seq<char>, e: GetBlobsError) -> bool {
    match e {
        GetBlobsError::InvalidKey { key: k, parts } => k@ == key && key_parts(key).len() < 4
            && parts == key_parts(key).len(),
        GetBlobsError::InvalidSequence { key: k, kind } => k@ == key && key_parts(key).len() >= 4
            && parse_unsigned(key_parts(key)[2], u32::MAX as nat) == Err::<nat, IntErrorKind>(
            kind,
        ),
    }
}

/// The log and sequence number of a stored key.
fn read_entry(key: &String) -> (r: Result<(Vec<char>, u32), GetBlobsError>)
    ensures
        match r {
            Ok((g, s)) => entry_readable(key@) && g@ == entry_log(key@) && s == entry_seq(key@),
            Err(e) => !entry_readable(key@) && entry_error(key@, e),
        },
{
    let chars = chars_of(key.as_str());
    let parts = split_chars(&chars, ':');
    if parts.len() < 4 {
        return Err(GetBlobsError::InvalidKey { key: key.clone(), parts: parts.len() });
    }
    assert(parts@[1]@ == key_parts(key@)[1]);
    assert(parts@[2]@ == key_parts(key@)[2]);
    match parse_unsigned_chars(&parts[2], u32::MAX as u64) {
        Ok(n) => {
            let g = parts[1].clone();
            Ok((g, n as u32))
        },
        Err(kind) => Err(GetBlobsError::InvalidSequence { key: key.clone(), kind }),
    }
}

/// What one more stored blob changes: the latest blob of its log and
/// sequence number, nothing else.
proof fn lemma_latest_blob_step(es: Seq<(String, Vec<u8>)>, n: int, g2: Seq<char>, s2: u32)
    requires
        0 <= n < es.len(),
    ensures
        latest_blob(es.take(n + 1), g2, s2) == if entry_log(es[n].0@) == g2 && entry_seq(es[n].0@)
            == s2 {
            Some(es[n].1@)
        } else {
            latest_blob(es.take(n), g2, s2)
        },
{
    assert(es.take(n + 1).drop_last() == es.take(n));
    assert(es.take(n + 1).last() == es[n]);
}

/// Chooses the blobs of one topic that go to a client, and the client's
/// blobs that the server misses.
///
/// `requested` holds each log that the client names with the highest
/// sequence number it holds; `watermarks` the server's watermark of each of
/// them; `entries` the stored blobs of the topic in key order
/// (`topic_id:log_id:sequence_number:uuid`). Blobs of logs that the client
/// does not name all go out; of a named log, those above the client's
/// number. The first unreadable key ends the request with an error.
#[verifier::rlimit(40)]
pub fn blobs_for_topic(
    requested: &Vec<(String, u32)>,
    watermarks: &Vec<Option<u32>>,
    entries: &Vec<(String, Vec<u8>)>,
) -> (r: Result<GetBlobsForTopicResponse, GetBlobsError>)
    requires
        watermarks.len() == requested.len(),
        forall|a: int, b: int| 0 <= a < b < requested.len() ==> requested@[a].0@ != requested@[b].0@,
    ensures
        match r {
            Ok(resp) => {
                &&& entries_readable(entries@)
                &&& blobs_well_formed(resp.blobs@)
                &&& blobs_match(resp.blobs@, requested@, entries@)
                &&& missing_views(resp.missing@) == missing_report(requested@, watermarks@, entries@)
            },
            Err(e) => exists|i: int|
                0 <= i < entries.len() && entries_readable(entries@.take(i)) && #[trigger] entry_error(
                    entries@[i].0@,
                    e,
                ),
        },
{
    let ghost req = requested@;
    let ghost es = entries@;
    let mut blobs: Vec<(String, Vec<(u32, Vec<u8>)>)> = Vec::new();
    let mut stored: Vec<BTreeSet<u32>> = Vec::new();
    let mut k: usize = 0;
    while k < requested.len()
        invariant
            0 <= k <= requested.len(),
            stored.len() == k,
            forall|a: int| 0 <= a < k ==> #[trigger] stored@[a]@ == Set::<u32>::empty(),
        decreases requested.len() - k,
    {
        stored.push(BTreeSet::new());
        k = k + 1;
    }
    proof {
        assert forall|a: int| 0 <= a < stored.len() implies #[trigger] stored@[a]@ == stored_seqs(es.take(0), req[a].0@) by {
            assert(stored_seqs(es.take(0), req[a].0@) =~= Set::<u32>::empty());
        }
    }
    let mut n: usize = 0;
    while n < entries.len()
        invariant
            0 <= n <= entries.len(),
            req == requested@,
            es == entries@,
            forall|a: int, b: int| 0 <= a < b < req.len() ==> req[a].0@ != req[b].0@,
            entries_readable(es.take(n as int)),
            blobs_well_formed(blobs@),
            blobs_match(blobs@, req, es.take(n as int)),
            stored.len() == req.len(),
            forall|a: int|
                0 <= a < stored.len() ==> #[trigger] stored@[a]@ == stored_seqs(
                    es.take(n as int),
                    req[a].0@,
                ),
        decreases entries.len() - n,
    {
        let ghost before = es.take(n as int);
        let ghost after = es.take(n + 1);
        let (g, sq) = match read_entry(&entries[n].0) {
            Ok(p) => p,
            Err(e) => {
                proof {
                    assert(entry_error(es[n as int].0@, e));
                }
                return Err(e);
            },
        };
        proof {
            assert(entry_readable(es[n as int].0@));
            assert forall|i: int| 0 <= i < after.len() implies entry_readable(#[trigger] after[i].0@) by {
                if i < n {
                    assert(after[i] == before[i]);
                    assert(entry_readable(before[i].0@));
                } else {
                    assert(after[i] == es[n as int]);
                }
            }
            assert forall|g2: Seq<char>, s2: u32| latest_blob(after, g2, s2) == if g2 == g@ && s2 == sq { Some(es[n as int].1@) } else { latest_blob(before, g2, s2) } by {
                lemma_latest_blob_step(es, n as int, g2, s2);
            }
        }
        let pos = find_request(requested, &g);
        let is_included = match pos {
            None => true,
            Some(a) => sq > requested[a].1,
        };
        proof {
            match pos {
                None => lemma_requested_min_none(req, g@),
                Some(a) => lemma_requested_min_at(req, a as int),
            }
            assert(is_included == included(req, g@, sq));
        }
        match pos {
            Some(a) => {
                let mut st = stored[a].clone();
                st.insert(sq);
                let ghost old_stored = stored@;
                stored.set(a, st);
                proof {
                    assert forall|b: int| 0 <= b < stored.len() implies #[trigger] stored@[b]@ == stored_seqs(after, req[b].0@) by {
                        assert(stored_seqs(after, req[b].0@) =~= if req[b].0@ == g@ { stored_seqs(before, req[b].0@).insert(sq) } else { stored_seqs(before, req[b].0@) });
                        if b != a {
                            assert(stored@[b] == old_stored[b]);
                        }
                    }
                }
            },
            None => {
                proof {
                    assert forall|b: int| 0 <= b < stored.len() implies #[trigger] stored@[b]@ == stored_seqs(after, req[b].0@) by {
                        assert(req[b].0@ != g@);
                        assert(stored_seqs(after, req[b].0@) =~= stored_seqs(before, req[b].0@));
                    }
                }
            },
        }
        if is_included {
            let ghost ob = blobs@;
            let v = entries[n].1.clone();
            insert_blob(&mut blobs, &g, sq, v);
            proof {
                let nb = blobs@;
                assert forall|g2: Seq<char>, s2: u32| #[trigger] blob_at(nb, g2, s2) == returned_blob(req, after, g2, s2) by {
                    if !(g2 == g@ && s2 == sq) {
                        assert(blob_at(ob, g2, s2) == returned_blob(req, before, g2, s2));
                    }
                }
            }
        } else {
            proof {
                let nb = blobs@;
                assert forall|g2: Seq<char>, s2: u32| #[trigger] blob_at(nb, g2, s2) == returned_blob(req, after, g2, s2) by {
                    assert(blob_at(nb, g2, s2) == returned_blob(req, before, g2, s2));
                }
            }
        }
        n = n + 1;
    }
    assert(es.take(n as int) == es);
    // Calculate missing blobs using watermarks and stored sequences
    let mut missing: Vec<(String, Vec<u32>)> = Vec::new();
    let mut k: usize = 0;
    while k < requested.len()
        invariant
            0 <= k <= requested.len(),
            req == requested@,
            es == entries@,
            watermarks.len() == requested.len(),
            stored.len() == req.len(),
            forall|a: int| 0 <= a < stored.len() ==> #[trigger] stored@[a]@ == stored_seqs(es, req[a].0@),
            missing_views(missing@) == missing_report(req.take(k as int), watermarks@.take(k as int), es),
        decreases requested.len() - k,
    {
        let m = missing_sequence_numbers(watermarks[k], requested[k].1, &stored[k]);
        let ghost before = missing_views(missing@);
        proof {
            assert(req.take(k + 1).drop_last() == req.take(k as int));
            assert(watermarks@.take(k + 1).drop_last() == watermarks@.take(k as int));
            assert(req.take(k + 1).last() == req[k as int]);
            assert(watermarks@.take(k + 1).last() == watermarks@[k as int]);
        }
        if m.len() > 0 {
            let name = requested[k].0.clone();
            missing.push((name, m));
            assert(missing_views(missing@) =~= before.push((req[k as int].0@, m@)));
        }
        k = k + 1;
    }
    assert(req.take(k as int) == req);
    assert(watermarks@.take(k as int) == watermarks@);
    Ok(GetBlobsForTopicResponse { blobs, missing })
}

/// The text of a storage key: `topic_id:log_id:sequence_number:uuid`, with
/// the sequence number in plain decimal.
pub open spec fn storage_key_text(topic: Seq<char>, log: Seq<char>, seq: u32, uuid: u128) -> Seq<char> {
    topic + seq![':'] + log + seq![':'] + decimal(seq as nat) + seq![':'] + uuid_text(uuid)
}

/// The key under which a blob of `log_id` in `topic_id` with sequence number
/// `seq_num` is stored, with a fresh UUID v7 counted by `clock` (which makes
/// keys of one log and sequence number sort by the time they were stored). When neither id holds a `:`, the key
/// reads back as that log and sequence number. `None` where the system clock
/// stands before the epoch.
pub fn storage_key(clock: &uuid::ContextV7, topic_id: &str, log_id: &str, seq_num: u32) -> (r: Option<String>)
    ensures
        r matches Some(s) ==> {
            &&& exists|u: u128| s@ == storage_key_text(topic_id@, log_id@, seq_num, u)
            &&& !has_char(topic_id@, ':') && !has_char(log_id@, ':') ==> {
                &&& entry_readable(s@)
                &&& entry_log(s@) == log_id@
                &&& entry_seq(s@) == seq_num
            }
        },
{
    let u = match uuid_now_v7(clock) {
        Some(u) => u,
        None => return None,
    };
    let mut v = chars_of(topic_id);
    v.push(':');
    append_str(&mut v, log_id);
    v.push(':');
    let d = decimal_chars(seq_num as u64);
    append_chars(&mut v, &d);
    v.push(':');
    let t = uuid_to_text(u);
    append_str(&mut v, t.as_str());
    proof {
        assert(v@ =~= storage_key_text(topic_id@, log_id@, seq_num, u));
        if !has_char(topic_id@, ':') && !has_char(log_id@, ':') {
            let dd = decimal(seq_num as nat);
            let ut = uuid_text(u);
            lemma_decimal_digits(seq_num as nat);
            lemma_uuid_text_shape(u);
            assert(!has_char(ut, ':'));
            lemma_split_no_sep(topic_id@, ':');
            lemma_split_no_sep(log_id@, ':');
            lemma_split_no_sep(dd, ':');
            lemma_split_no_sep(ut, ':');
            lemma_split_join(topic_id@, log_id@, ':');
            lemma_split_join(topic_id@ + seq![':'] + log_id@, dd, ':');
            lemma_split_join(topic_id@ + seq![':'] + log_id@ + seq![':'] + dd, ut, ':');
            assert(key_parts(v@) =~= seq![topic_id@, log_id@, dd, ut]);
            lemma_parse_digits(dd, u32::MAX as nat);
        }
    }
    Some(string_from_chars(&v))
}

/// A request to store blobs: for each topic, for each log, blobs by
/// sequence number.
pub struct StoreBlobsRequest {
    pub blobs: Vec<(String, Vec<(String, Vec<(u32, Vec<u8>)>)>)>,
}

/// The table entries that storing a request writes, in the request's order:
/// one per blob, under its storage key. `None` where the system clock stands
/// before the epoch, so that no key can be made; a request without blobs
/// does not read the clock.
pub fn store_blobs_entries(clock: &uuid::ContextV7, request: &StoreBlobsRequest) -> (r: Option<Vec<(String, Vec<u8>)>>)
    ensures
        blob_count(request.blobs@) == 0 ==> r is Some,
        r matches Some(out) ==> {
            &&& out@.len() == blob_count(request.blobs@)
            &&& entries_of(out@, request_flat(request.blobs@))
        },
{
    let mut out: Vec<(String, Vec<u8>)> = Vec::new();
    let mut t: usize = 0;
    while t < request.blobs.len()
        invariant
            0 <= t <= request.blobs.len(),
            out@.len() == blob_count(request.blobs@.take(t as int)),
            entries_of(out@, request_flat(request.blobs@.take(t as int))),
        decreases request.blobs.len() - t,
    {
        let topic = &request.blobs[t].0;
        let logs = &request.blobs[t].1;
        let ghost count_before = out@.len();
        let mut l: usize = 0;
        while l < logs.len()
            invariant
                0 <= t < request.blobs.len(),
                topic == request.blobs@[t as int].0,
                logs == request.blobs@[t as int].1,
                0 <= l <= logs.len(),
                out@.len() == count_before + log_blob_count(logs@.take(l as int)),
                entries_of(
                    out@,
                    request_flat(request.blobs@.take(t as int)) + logs_flat(topic@, logs@.take(l as int)),
                ),
            decreases logs.len() - l,
        {
            let log = &logs[l].0;
            let seqs = &logs[l].1;
            let mut q: usize = 0;
            let ghost count_log = out@.len();
            while q < seqs.len()
                invariant
                    0 <= t < request.blobs.len(),
                    topic == request.blobs@[t as int].0,
                    logs == request.blobs@[t as int].1,
                    0 <= l < logs.len(),
                    log == logs@[l as int].0,
                    seqs == logs@[l as int].1,
                    0 <= q <= seqs.len(),
                    out@.len() == count_log + q,
                    entries_of(
                        out@,
                        request_flat(request.blobs@.take(t as int)) + logs_flat(topic@, logs@.take(l as int))
                            + log_flat(topic@, log@, seqs@.take(q as int)),
                    ),
                decreases seqs.len() - q,
            {
                let key = match storage_key(clock, topic.as_str(), log.as_str(), seqs[q].0) {
                    Some(k) => k,
                    None => {
                        proof {
                            lemma_blob_count_covers_log(request.blobs@, t as int, l as int);
                        }
                        return None;
                    },
                };
                let blob = seqs[q].1.clone();
                let ghost kv = key@;
                let ghost bv = blob@;
                proof {
                    assert(bv == seqs@[q as int].1@);
                    let u = choose|u: u128| kv == storage_key_text(topic@, log@, seqs@[q as int].0, u);
                    assert(kv == storage_key_text(topic@, log@, seqs@[q as int].0, u));
                }
                let ghost old_out = out@;
                let ghost item = (topic@, log@, seqs@[q as int].0, seqs@[q as int].1@);
                let ghost f0 = request_flat(request.blobs@.take(t as int)) + logs_flat(
                    topic@,
                    logs@.take(l as int),
                );
                out.push((key, blob));
                proof {
                    assert(out@[q + count_log].0@ == kv);
                    assert(out@[q + count_log].1@ == bv);
                    let u = choose|u: u128| kv == storage_key_text(topic@, log@, seqs@[q as int].0, u);
                    assert(kv == storage_key_text(item.0, item.1, item.2, u));
                    assert(bv == item.3);
                    assert(entry_of(out@[q + count_log].0@, out@[q + count_log].1@, item));
                    assert(log_flat(topic@, log@, seqs@.take(q + 1)) =~= log_flat(
                        topic@,
                        log@,
                        seqs@.take(q as int),
                    ).push(item));
                    assert(f0 + log_flat(topic@, log@, seqs@.take(q + 1)) =~= (f0 + log_flat(
                        topic@,
                        log@,
                        seqs@.take(q as int),
                    )).push(item));
                    lemma_entries_of_push(old_out, f0 + log_flat(topic@, log@, seqs@.take(q as int)), out@, item);
                }
                q = q + 1;
            }
            proof {
                assert(logs@.take(l + 1).drop_last() == logs@.take(l as int));
                assert(logs@.take(l + 1).last() == logs@[l as int]);
                assert(seqs@.take(q as int) == seqs@);
                let f0 = request_flat(request.blobs@.take(t as int));
                assert(f0 + logs_flat(topic@, logs@.take(l + 1)) =~= f0 + logs_flat(
                    topic@,
                    logs@.take(l as int),
                ) + log_flat(topic@, log@, seqs@));
            }
            l = l + 1;
        }
        proof {
            assert(logs@.take(l as int) == logs@);
            assert(request.blobs@.take(t + 1).drop_last() == request.blobs@.take(t as int));
            assert(request.blobs@.take(t + 1).last() == request.blobs@[t as int]);
        }
        t = t + 1;
    }
    assert(request.blobs@.take(t as int) == request.blobs@);
    Some(out)
}

/// The blobs of one log of a store request, each with its topic, log and
/// sequence number, in the request's order.
pub open spec fn log_flat(topic: Seq<char>, log: Seq<char>, seqs: Seq<(u32, Vec<u8>)>) -> Seq<
    (Seq<char>, Seq<char>, u32, Seq<u8>),
> {
    seqs.map_values(|p: (u32, Vec<u8>)| (topic, log, p.0, p.1@))
}

/// The blobs of the logs of one topic, in the request's order.
pub open spec fn logs_flat(topic: Seq<char>, logs: Seq<(String, Vec<(u32, Vec<u8>)>)>) -> Seq<
    (Seq<char>, Seq<char>, u32, Seq<u8>),
>
    decreases logs.len(),
{
    if logs.len() == 0 {
        Seq::empty()
    } else {
        logs_flat(topic, logs.drop_last()) + log_flat(topic, logs.last().0@, logs.last().1@)
    }
}

/// Every blob of a store request, with its topic, log and sequence number,
/// in the request's order: topic by topic, log by log.
pub open spec fn request_flat(topics: Seq<(String, Vec<(String, Vec<(u32, Vec<u8>)>)>)>) -> Seq<
    (Seq<char>, Seq<char>, u32, Seq<u8>),
>
    decreases topics.len(),
{
    if topics.len() == 0 {
        Seq::empty()
    } else {
        request_flat(topics.drop_last()) + logs_flat(topics.last().0@, topics.last().1@)
    }
}

/// `(key, value)` stores blob `b`: its bytes under its storage key.
pub open spec fn entry_of(key: Seq<char>, value: Seq<u8>, b: (Seq<char>, Seq<char>, u32, Seq<u8>)) -> bool {
    &&& value == b.3
    &&& exists|u: u128| key == #[trigger] storage_key_text(b.0, b.1, b.2, u)
}

/// The entries store the blobs, one each, in the same order.
pub open spec fn entries_of(out: Seq<(String, Vec<u8>)>, f: Seq<(Seq<char>, Seq<char>, u32, Seq<u8>)>) -> bool {
    &&& out.len() == f.len()
    &&& forall|i: int| 0 <= i < out.len() ==> #[trigger] entry_of(out[i].0@, out[i].1@, f[i])
}

/// Appending the entry of one more blob.
proof fn lemma_entries_of_push(
    out: Seq<(String, Vec<u8>)>,
    f: Seq<(Seq<char>, Seq<char>, u32, Seq<u8>)>,
    out2: Seq<(String, Vec<u8>)>,
    b: (Seq<char>, Seq<char>, u32, Seq<u8>),
)
    requires
        entries_of(out, f),
        out2.len() == out.len() + 1,
        forall|i: int| 0 <= i < out.len() ==> out2[i] == out[i],
        entry_of(out2[out.len() as int].0@, out2[out.len() as int].1@, b),
    ensures
        entries_of(out2, f.push(b)),
{
    assert forall|i: int| 0 <= i < out2.len() implies #[trigger] entry_of(out2[i].0@, out2[i].1@, f.push(b)[i]) by {
        if i < out.len() {
            assert(out2[i] == out[i]);
            assert(entry_of(out[i].0@, out[i].1@, f[i]));
        }
    }
}

/// The number of blobs in the logs of a topic.
pub open spec fn log_blob_count(logs: Seq<(String, Vec<(u32, Vec<u8>)>)>) -> nat
    decreases logs.len(),
{
    if logs.len() == 0 {
        0
    } else {
        log_blob_count(logs.drop_last()) + logs.last().1@.len()
    }
}

/// The number of blobs in a store request.
pub open spec fn blob_count(topics: Seq<(String, Vec<(String, Vec<(u32, Vec<u8>)>)>)>) -> nat
    decreases topics.len(),
{
    if topics.len() == 0 {
        0
    } else {
        blob_count(topics.drop_last()) + log_blob_count(topics.last().1@)
    }
}

/// Counting the blobs of more logs never gives fewer.
proof fn lemma_log_blob_count_mono(logs: Seq<(String, Vec<(u32, Vec<u8>)>)>, a: int, b: int)
    requires
        0 <= a <= b <= logs.len(),
    ensures
        log_blob_count(logs.take(a)) <= log_blob_count(logs.take(b)),
    decreases b - a,
{
    if a < b {
        assert(logs.take(b).drop_last() =~= logs.take(b - 1));
        lemma_log_blob_count_mono(logs, a, b - 1);
    }
}

/// Counting the blobs of more topics never gives fewer.
proof fn lemma_blob_count_mono(topics: Seq<(String, Vec<(String, Vec<(u32, Vec<u8>)>)>)>, a: int, b: int)
    requires
        0 <= a <= b <= topics.len(),
    ensures
        blob_count(topics.take(a)) <= blob_count(topics.take(b)),
    decreases b - a,
{
    if a < b {
        assert(topics.take(b).drop_last() =~= topics.take(b - 1));
        lemma_blob_count_mono(topics, a, b - 1);
    }
}

/// A request holds at least as many blobs as any one of its logs.
proof fn lemma_blob_count_covers_log(
    topics: Seq<(String, Vec<(String, Vec<(u32, Vec<u8>)>)>)>,
    t: int,
    l: int,
)
    requires
        0 <= t < topics.len(),
        0 <= l < topics[t].1@.len(),
    ensures
        topics[t].1@[l].1@.len() <= blob_count(topics),
{
    let logs = topics[t].1@;
    assert(logs.take(l + 1).drop_last() =~= logs.take(l));
    assert(logs.take(l + 1).last() == logs[l]);
    lemma_log_blob_count_mono(logs, l + 1, logs.len() as int);
    assert(logs.take(logs.len() as int) =~= logs);
    assert(topics.take(t + 1).drop_last() =~= topics.take(t));
    assert(topics.take(t + 1).last() == topics[t]);
    lemma_blob_count_mono(topics, t + 1, topics.len() as int);
    assert(topics.take(topics.len() as int) =~= topics);
}

/// What is stored is what is got: a blob stored under a key that reads back
/// with log `g` and sequence number `s`, and not stored over since, is the
/// blob that a get naming no log returns for `g` and `s`.
pub proof fn lemma_stored_blob_is_returned(es: Seq<(String, Vec<u8>)>, g: Seq<char>, s: u32, k: int)
    requires
        0 <= k < es.len(),
        entry_log(es[k].0@) == g,
        entry_seq(es[k].0@) == s,
        forall|j: int| k < j < es.len() ==> !(entry_log(#[trigger] es[j].0@) == g && entry_seq(es[j].0@) == s),
    ensures
        returned_blob(Seq::empty(), es, g, s) == Some(es[k].1@),
    decreases es.len(),
{
    if k < es.len() - 1 {
        let d = es.drop_last();
        assert(es.last() == es[es.len() - 1]);
        assert forall|j: int| k < j < d.len() implies !(entry_log(#[trigger] d[j].0@) == g && entry_seq(d[j].0@) == s) by {
            assert(d[j] == es[j]);
        }
        assert(d[k] == es[k]);
        lemma_stored_blob_is_returned(d, g, s, k);
    }
}

} // verus!
