//! Readable aliases for identifiers, kept in a registry: an identifier that
//! was given an alias is shown by it, any other by its short form.
use vstd::prelude::*;

use crate::payload::{arg_type_name, ArgType};
use crate::topic::{hex_encode, hex_lower, Chat as ChatKind, Topic};
use crate::text::{append_chars, append_str, chars_of, decimal, decimal_chars, string_from_chars};

verus! {

/// An identifier with a short written form.
pub trait ShortId {
    /// The prefix that marks the kind of identifier.
    spec fn prefix_text(&self) -> Seq<char>;

    /// The short written form.
    spec fn short_text(&self) -> Seq<char>;

    fn prefix(&self) -> (s: String)
        ensures
            s@ == self.prefix_text(),
    ;

    fn short(&self) -> (s: String)
        ensures
            s@ == self.short_text(),
    ;
}

/// An identifier that can be given an alias.
pub trait AliasedId: ShortId {
    /// Whether its alias shows the short form (else the prefix).
    spec fn shows_short_id(&self) -> bool;

    /// The bytes that identify it.
    spec fn id_bytes(&self) -> Seq<u8>;

    fn show_short_id(&self) -> (b: bool)
        ensures
            b == self.shows_short_id(),
    ;

    fn as_bytes(&self) -> (b: Vec<u8>)
        ensures
            b@ == self.id_bytes(),
    ;
}

/// A topic is written short as `T` and its first four hexadecimal digits.
impl<K> ShortId for Topic<K> {
    open spec fn prefix_text(&self) -> Seq<char> {
        seq!['T']
    }

    open spec fn short_text(&self) -> Seq<char> {
        seq!['T'] + hex_lower(self.id@).take(4)
    }

    fn prefix(&self) -> (s: String) {
        let v: Vec<char> = vec!['T'];
        assert(v@ =~= seq!['T']);
        string_from_chars(&v)
    }

    fn short(&self) -> (s: String) {
        let h = hex_encode(self.id.as_slice());
        let hc = chars_of(h.as_str());
        let mut v: Vec<char> = Vec::new();
        v.push('T');
        let mut i: usize = 0;
        while i < 4
            invariant
                0 <= i <= 4,
                hc@ == hex_lower(self.id@),
                hc@.len() == 64,
                v@ == seq!['T'] + hc@.take(i as int),
            decreases 4 - i,
        {
            v.push(hc[i]);
            assert(hc@.take(i + 1) =~= hc@.take(i as int).push(hc@[i as int]));
            i = i + 1;
        }
        string_from_chars(&v)
    }
}

/// A chat topic is aliased by its bytes and shows its prefix.
impl AliasedId for Topic<ChatKind> {
    open spec fn shows_short_id(&self) -> bool {
        false
    }

    open spec fn id_bytes(&self) -> Seq<u8> {
        self.id@
    }

    fn show_short_id(&self) -> (b: bool) {
        false
    }

    fn as_bytes(&self) -> (b: Vec<u8>) {
        let mut v: Vec<u8> = Vec::new();
        let mut i: usize = 0;
        while i < 32
            invariant
                0 <= i <= 32,
                self.id@.len() == 32,
                v@ == self.id@.take(i as int),
            decreases 32 - i,
        {
            v.push(self.id[i]);
            assert(self.id@.take(i + 1) =~= self.id@.take(i as int).push(self.id@[i as int]));
            i = i + 1;
        }
        assert(self.id@.take(32) =~= self.id@);
        v
    }
}

/// The alias of each identifier that was given one, by its bytes.
pub struct AliasRegistry {
    entries: Vec<(Vec<u8>, String)>,
}

/// The alias recorded last for `k`, if any.
pub open spec fn recorded_alias(e: Seq<(Vec<u8>, String)>, k: Seq<u8>) -> Option<Seq<char>>
    decreases e.len(),
{
    if e.len() == 0 {
        None
    } else if e.last().0@ == k {
        Some(e.last().1@)
    } else {
        recorded_alias(e.drop_last(), k)
    }
}

fn same_bytes(a: &Vec<u8>, b: &Vec<u8>) -> (r: bool)
    ensures
        r == (a@ == b@),
{
    if a.len() != b.len() {
        return false;
    }
    let mut i: usize = 0;
    while i < a.len()
        invariant
            a@.len() == b@.len(),
            0 <= i <= a@.len(),
            forall|k: int| 0 <= k < i ==> a@[k] == b@[k],
        decreases a@.len() - i,
    {
        if a[i] != b[i] {
            return false;
        }
        i = i + 1;
    }
    assert(a@ =~= b@);
    true
}

impl AliasRegistry {
    /// The alias of the identifier with bytes `k`.
    pub closed spec fn lookup(&self, k: Seq<u8>) -> Option<Seq<char>> {
        recorded_alias(self.entries@, k)
    }

    pub fn new() -> (r: Self)
        ensures
            forall|k: Seq<u8>| r.lookup(k) is None,
    {
        AliasRegistry { entries: Vec::new() }
    }

    /// The alias of the identifier with bytes `k`, if it has one.
    pub fn get(&self, k: &Vec<u8>) -> (r: Option<String>)
        ensures
            match r {
                Some(s) => self.lookup(k@) == Some(s@),
                None => self.lookup(k@) is None,
            },
    {
        let mut i: usize = self.entries.len();
        assert(self.entries@.take(i as int) =~= self.entries@);
        while i > 0
            invariant
                0 <= i <= self.entries@.len(),
                recorded_alias(self.entries@, k@) == recorded_alias(self.entries@.take(i as int), k@),
            decreases i,
        {
            let ghost e = self.entries@.take(i as int);
            assert(e.drop_last() == self.entries@.take(i - 1));
            if same_bytes(&self.entries[i - 1].0, k) {
                let s = self.entries[i - 1].1.clone();
                return Some(s);
            }
            i = i - 1;
        }
        None
    }

    /// Gives the identifier with bytes `k` the alias `alias`, and returns
    /// the alias it had.
    pub fn insert(&mut self, k: Vec<u8>, alias: String) -> (previous: Option<String>)
        ensures
            match previous {
                Some(s) => old(self).lookup(k@) == Some(s@),
                None => old(self).lookup(k@) is None,
            },
            final(self).lookup(k@) == Some(alias@),
            forall|q: Seq<u8>| q != k@ ==> #[trigger] final(self).lookup(q) == old(self).lookup(q),
    {
        let previous = self.get(&k);
        let ghost ka = k@;
        let ghost e = self.entries@;
        self.entries.push((k, alias));
        assert(self.entries@.drop_last() == e);
        previous
    }
}

/// The alias text of an identifier: `⟪short|alias⟫` where it shows its short
/// form, `⟪prefix‖alias⟫` where it shows its prefix.
pub open spec fn alias_text(show_short: bool, short: Seq<char>, prefix: Seq<char>, alias: Seq<char>) -> Seq<char> {
    if show_short {
        seq!['⟪'] + short + seq!['|'] + alias + seq!['⟫']
    } else {
        seq!['⟪'] + prefix + seq!['‖'] + alias + seq!['⟫']
    }
}

/// Gives `id` the alias `alias` in `registry`, wrapped as `alias_text`
/// says, replacing any alias it had; returns the alias it had.
pub fn set_alias<T: AliasedId>(registry: &mut AliasRegistry, id: &T, alias: &str) -> (previous:
    Option<String>)
    ensures
        match previous {
            Some(s) => old(registry).lookup(id.id_bytes()) == Some(s@),
            None => old(registry).lookup(id.id_bytes()) is None,
        },
        final(registry).lookup(id.id_bytes()) == Some(
            alias_text(id.shows_short_id(), id.short_text(), id.prefix_text(), alias@),
        ),
        forall|q: Seq<u8>| q != id.id_bytes() ==> #[trigger] final(registry).lookup(q) == old(
            registry,
        ).lookup(q),
{
    let mut v: Vec<char> = Vec::new();
    v.push('⟪');
    let show = id.show_short_id();
    if show {
        let s = id.short();
        append_str(&mut v, s.as_str());
        v.push('|');
    } else {
        let p = id.prefix();
        append_str(&mut v, p.as_str());
        v.push('‖');
    }
    append_str(&mut v, alias);
    v.push('⟫');
    assert(v@ =~= alias_text(id.shows_short_id(), id.short_text(), id.prefix_text(), alias@));
    let text = string_from_chars(&v);
    registry.insert(id.as_bytes(), text)
}

/// How `id` is shown: its alias where it has one, else its short form.
pub fn alias_of<T: AliasedId>(registry: &AliasRegistry, id: &T) -> (s: String)
    ensures
        s@ == match registry.lookup(id.id_bytes()) {
            Some(a) => a,
            None => id.short_text(),
        },
{
    match registry.get(&id.as_bytes()) {
        Some(a) => a,
        None => id.short(),
    }
}

/// The alias that `alias_space_messages` gives the `i`-th message:
/// `prefix/i/kind`.
pub open spec fn space_message_alias(prefix: Seq<char>, i: nat, kind: ArgType) -> Seq<char> {
    prefix + seq!['/'] + decimal(i) + seq!['/'] + arg_type_name(kind)
}

/// Gives each space message, by its identifier, the alias
/// `prefix/i/kind`, where `i` is its position and `kind` the kind of the
/// message.
pub fn alias_space_messages<T: AliasedId>(
    registry: &mut AliasRegistry,
    prefix: &str,
    msgs: &Vec<(T, ArgType)>,
)
    requires
        msgs@.len() < u64::MAX,
    ensures
        forall|i: int|
            #![trigger msgs@[i]]
            0 <= i < msgs@.len() && (forall|j: int|
                i < j < msgs@.len() ==> msgs@[j].0.id_bytes() != msgs@[i].0.id_bytes())
                ==> final(registry).lookup(msgs@[i].0.id_bytes()) == Some(
                alias_text(
                    msgs@[i].0.shows_short_id(),
                    msgs@[i].0.short_text(),
                    msgs@[i].0.prefix_text(),
                    space_message_alias(prefix@, i as nat, msgs@[i].1),
                ),
            ),
        forall|q: Seq<u8>|
            (forall|j: int| 0 <= j < msgs@.len() ==> msgs@[j].0.id_bytes() != q)
                ==> #[trigger] final(registry).lookup(q) == old(registry).lookup(q),
{
    let mut i: usize = 0;
    while i < msgs.len()
        invariant
            0 <= i <= msgs@.len(),
            msgs@.len() < u64::MAX,
            forall|a: int|
                #![trigger msgs@[a]]
                0 <= a < i && (forall|j: int|
                    a < j < i ==> msgs@[j].0.id_bytes() != msgs@[a].0.id_bytes())
                    ==> registry.lookup(msgs@[a].0.id_bytes()) == Some(
                    alias_text(
                        msgs@[a].0.shows_short_id(),
                        msgs@[a].0.short_text(),
                        msgs@[a].0.prefix_text(),
                        space_message_alias(prefix@, a as nat, msgs@[a].1),
                    ),
                ),
            forall|q: Seq<u8>|
                (forall|j: int| 0 <= j < i ==> msgs@[j].0.id_bytes() != q)
                    ==> #[trigger] registry.lookup(q) == old(registry).lookup(q),
        decreases msgs@.len() - i,
    {
        let mut v = chars_of(prefix);
        v.push('/');
        let d = decimal_chars(i as u64);
        append_chars(&mut v, &d);
        v.push('/');
        append_str(&mut v, msgs[i].1.name());
        assert(v@ =~= space_message_alias(prefix@, i as nat, msgs@[i as int].1));
        let text = string_from_chars(&v);
        set_alias(registry, &msgs[i].0, text.as_str());
        i = i + 1;
    }
}

} // verus!
