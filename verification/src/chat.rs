//! Chat messages, ordered by time, then text, then author; and chats, which
//! hold their messages in that order, each once.
use std::cmp::Ordering;
use vstd::prelude::*;

use crate::messages::chars_lt;
use crate::text::{chars_of, lex_lt};
use crate::topic::{bytes_lt, id_lt, lemma_bytes_lt_total, same_id, Chat as ChatKind, Topic};

verus! {

/// The text of a chat message.
pub struct ChatMessageContent(pub String);

impl ChatMessageContent {
    pub fn from_str(value: &str) -> (c: Self)
        ensures
            c.0@ == value@,
    {
        ChatMessageContent(value.to_owned())
    }
}

/// A chat message as the frontend sees it.
pub struct ChatMessage {
    pub content: ChatMessageContent,
    /// The device that wrote it.
    pub author: [u8; 32],
    /// When it was written, in seconds since the epoch.
    pub timestamp: u64,
}

/// A chat message as plain values.
pub ghost struct ChatMessageView {
    pub content: Seq<char>,
    pub author: Seq<u8>,
    pub timestamp: u64,
}

impl View for ChatMessage {
    type V = ChatMessageView;

    open spec fn view(&self) -> ChatMessageView {
        ChatMessageView { content: self.content.0@, author: self.author@, timestamp: self.timestamp }
    }
}

/// `a` comes before `b`: by timestamp, then by text, then by author.
pub open spec fn message_lt(a: ChatMessageView, b: ChatMessageView) -> bool {
    if a.timestamp != b.timestamp {
        a.timestamp < b.timestamp
    } else if a.content != b.content {
        lex_lt(a.content, b.content)
    } else {
        bytes_lt(a.author, b.author)
    }
}

/// Two different texts are ordered one way round; a text is not before
/// itself.
pub proof fn lemma_lex_total(a: Seq<char>, b: Seq<char>)
    ensures
        a != b ==> (lex_lt(a, b) != lex_lt(b, a)),
        a == b ==> !lex_lt(a, b),
    decreases a.len(),
{
    if a.len() > 0 && b.len() > 0 {
        lemma_lex_total(a.drop_first(), b.drop_first());
        if a[0] == b[0] && a.drop_first() == b.drop_first() {
            assert forall|i: int| 0 <= i < a.len() implies a[i] == b[i] by {
                if i > 0 {
                    assert(a[i] == a.drop_first()[i - 1]);
                    assert(b[i] == b.drop_first()[i - 1]);
                }
            }
            assert(a =~= b);
        }
    } else if a.len() == 0 && b.len() == 0 {
        assert(a =~= b);
    }
}

impl ChatMessage {
    pub fn new(content: ChatMessageContent, author: [u8; 32], timestamp: u64) -> (m: Self)
        ensures
            m.content == content,
            m.author == author,
            m.timestamp == timestamp,
    {
        ChatMessage { content, author, timestamp }
    }

    /// Compares by timestamp, then by text, then by author.
    pub fn compare(&self, other: &Self) -> (o: Ordering)
        ensures
            (o == Ordering::Less) == message_lt(self@, other@),
            (o == Ordering::Equal) == (self@ == other@),
            (o == Ordering::Greater) == message_lt(other@, self@),
    {
        proof {
            lemma_lex_total(self@.content, other@.content);
            lemma_bytes_lt_total(self@.author, other@.author);
        }
        if self.timestamp < other.timestamp {
            return Ordering::Less;
        }
        if other.timestamp < self.timestamp {
            return Ordering::Greater;
        }
        let a = chars_of(self.content.0.as_str());
        let b = chars_of(other.content.0.as_str());
        if chars_lt(&a, &b) {
            return Ordering::Less;
        }
        if chars_lt(&b, &a) {
            return Ordering::Greater;
        }
        if id_lt(&self.author, &other.author) {
            return Ordering::Less;
        }
        if id_lt(&other.author, &self.author) {
            return Ordering::Greater;
        }
        Ordering::Equal
    }
}

/// The order of chat messages is total: of two messages, exactly one comes
/// first, unless they are equal.
pub proof fn lemma_message_order_total(a: ChatMessageView, b: ChatMessageView)
    requires
        a.author.len() == b.author.len(),
    ensures
        a == b ==> !message_lt(a, b),
        a != b ==> (message_lt(a, b) != message_lt(b, a)),
{
    lemma_lex_total(a.content, b.content);
    lemma_bytes_lt_total(a.author, b.author);
}

/// `lex_lt` is transitive.
pub proof fn lemma_lex_transitive(a: Seq<char>, b: Seq<char>, c: Seq<char>)
    requires
        lex_lt(a, b),
        lex_lt(b, c),
    ensures
        lex_lt(a, c),
    decreases a.len(),
{
    if a.len() > 0 && b.len() > 0 && c.len() > 0 && a[0] == b[0] && b[0] == c[0] {
        lemma_lex_transitive(a.drop_first(), b.drop_first(), c.drop_first());
    }
}

/// `bytes_lt` is transitive.
pub proof fn lemma_bytes_transitive(a: Seq<u8>, b: Seq<u8>, c: Seq<u8>)
    requires
        bytes_lt(a, b),
        bytes_lt(b, c),
    ensures
        bytes_lt(a, c),
    decreases a.len(),
{
    if a.len() > 0 && b.len() > 0 && c.len() > 0 && a[0] == b[0] && b[0] == c[0] {
        lemma_bytes_transitive(a.drop_first(), b.drop_first(), c.drop_first());
    }
}

/// The order of chat messages is transitive.
pub proof fn lemma_message_order_transitive(a: ChatMessageView, b: ChatMessageView, c: ChatMessageView)
    requires
        message_lt(a, b),
        message_lt(b, c),
    ensures
        message_lt(a, c),
{
    if a.timestamp == b.timestamp && b.timestamp == c.timestamp {
        if a.content != b.content && b.content != c.content {
            lemma_lex_transitive(a.content, b.content, c.content);
            lemma_lex_total(a.content, c.content);
            if a.content == c.content {
                lemma_lex_total(a.content, b.content);
            }
        } else if a.content == b.content && b.content == c.content {
            lemma_bytes_transitive(a.author, b.author, c.author);
        }
    }
}

/// The order of two messages as a number: negative when `a` comes first,
/// zero when they are equal, positive when `b` comes first.
fn order_code(a: &ChatMessage, b: &ChatMessage) -> (c: i8)
    ensures
        (c < 0) == message_lt(a@, b@),
        (c == 0) == (a@ == b@),
        (c > 0) == message_lt(b@, a@),
{
    match a.compare(b) {
        Ordering::Less => -1,
        Ordering::Equal => 0,
        Ordering::Greater => 1,
    }
}

/// A chat: its topic, its messages in order (each once), and whether I
/// have been removed from it.
pub struct Chat {
    pub id: Topic<ChatKind>,
    pub messages: Vec<ChatMessage>,
    pub removed: bool,
}

pub open spec fn message_views(v: Seq<ChatMessage>) -> Seq<ChatMessageView> {
    v.map_values(|m: ChatMessage| m@)
}

/// The messages stand in strictly increasing order.
pub open spec fn strictly_ordered(v: Seq<ChatMessageView>) -> bool {
    forall|i: int, j: int| 0 <= i < j < v.len() ==> message_lt(v[i], v[j])
}

impl Chat {
    /// A chat with no messages, from which I have not been removed.
    pub fn new(id: Topic<ChatKind>) -> (c: Self)
        ensures
            c.id == id,
            c.messages@.len() == 0,
            !c.removed,
    {
        Chat { id, messages: Vec::new(), removed: false }
    }

    /// Adds a message, in its place in the order, unless the chat holds it
    /// already; says whether it was added.
    pub fn insert_message(&mut self, m: ChatMessage) -> (added: bool)
        requires
            strictly_ordered(message_views(old(self).messages@)),
        ensures
            strictly_ordered(message_views(final(self).messages@)),
            added == !message_views(old(self).messages@).contains(m@),
            message_views(final(self).messages@).to_set() == message_views(
                old(self).messages@,
            ).to_set().insert(m@),
            final(self).id == old(self).id,
            final(self).removed == old(self).removed,
    {
        let ghost old_v = message_views(self.messages@);
        let mut p: usize = 0;
        while p < self.messages.len()
            invariant
                0 <= p <= self.messages@.len(),
                old_v == message_views(self.messages@),
                strictly_ordered(old_v),
                forall|i: int| 0 <= i < p ==> message_lt(#[trigger] old_v[i], m@),
            ensures
                0 <= p <= self.messages@.len(),
                old_v == message_views(self.messages@),
                forall|i: int| 0 <= i < p ==> message_lt(#[trigger] old_v[i], m@),
                p < self.messages@.len() ==> message_lt(m@, old_v[p as int]),
            decreases self.messages@.len() - p,
        {
            let code = order_code(&self.messages[p], &m);
            if code == 0 {
                assert(old_v[p as int] == m@);
                return false;
            }
            if code > 0 {
                break;
            }
            p = p + 1;
        }
        let ghost mv = m@;
        proof {
            assert forall|j: int| p <= j < old_v.len() implies message_lt(mv, #[trigger] old_v[j]) by {
                if j > p {
                    lemma_message_order_transitive(mv, old_v[p as int], old_v[j]);
                }
            }
            assert(!old_v.contains(mv)) by {
                if old_v.contains(mv) {
                    let j = choose|j: int| 0 <= j < old_v.len() && old_v[j] == mv;
                    lemma_message_order_total(mv, mv);
                }
            }
        }
        self.messages.insert(p, m);
        proof {
            let nv = message_views(self.messages@);
            assert(nv =~= old_v.insert(p as int, mv));
            assert forall|i: int, j: int| 0 <= i < j < nv.len() implies message_lt(nv[i], nv[j]) by {
                if j < p {
                } else if i < p && j == p {
                } else if i < p && j > p {
                    lemma_message_order_transitive(nv[i], mv, nv[j]);
                } else if i == p {
                } else {
                }
            }
            assert(nv.to_set() =~= old_v.to_set().insert(mv)) by {
                assert forall|x: ChatMessageView| nv.to_set().contains(x) <==> old_v.to_set().insert(mv).contains(x) by {
                    if nv.contains(x) {
                        let j = choose|j: int| 0 <= j < nv.len() && nv[j] == x;
                        if j < p {
                            assert(old_v[j] == x);
                        } else if j > p {
                            assert(old_v[j - 1] == x);
                        }
                    }
                    if old_v.contains(x) {
                        let j = choose|j: int| 0 <= j < old_v.len() && old_v[j] == x;
                        if j < p {
                            assert(nv[j] == x);
                        } else {
                            assert(nv[j + 1] == x);
                        }
                    }
                    if x == mv {
                        assert(nv[p as int] == x);
                    }
                }
            }
        }
        true
    }
}

} // verus!
