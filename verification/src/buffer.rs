//! A conversation buffer with a sliding window: the newest messages are
//! kept, the oldest drop out when the window is full.

use vstd::prelude::*;

verus! {

/// One captured message of a conversation.
#[derive(Debug)]
pub struct Message {
    /// When the message was captured, as a Unix timestamp.
    pub timestamp: i64,
    /// Who spoke: user, assistant or system.
    pub role: String,
    /// What was said.
    pub content: String,
}

impl Message {
    /// A field-for-field copy.
    pub fn duplicate(&self) -> (r: Message)
        ensures
            r == *self,
    {
        Message { timestamp: self.timestamp, role: self.role.clone(), content: self.content.clone() }
    }
}

/// A sliding-window buffer of messages, oldest first.
#[derive(Debug)]
pub struct ConversationBuffer {
    /// The buffered messages, oldest first.
    pub messages: Vec<Message>,
    /// How many messages the window holds.
    pub max_size: usize,
}

/// Whether a message was captured after `since`.
pub open spec fn newer_than(since: int) -> spec_fn(Message) -> bool {
    |m: Message| m.timestamp > since
}

impl ConversationBuffer {
    /// An empty buffer with the given window size.
    pub fn new(max_size: usize) -> (r: ConversationBuffer)
        ensures
            r.messages@.len() == 0,
            r.max_size == max_size,
    {
        ConversationBuffer { messages: Vec::new(), max_size }
    }

    /// Adds a message; when the window is full the oldest message drops
    /// out first.
    pub fn push(&mut self, message: Message)
        ensures
            final(self).max_size == old(self).max_size,
            old(self).messages@.len() >= old(self).max_size && old(self).messages@.len() > 0
                ==> final(self).messages@ == old(self).messages@.drop_first().push(message),
            !(old(self).messages@.len() >= old(self).max_size && old(self).messages@.len() > 0)
                ==> final(self).messages@ == old(self).messages@.push(message),
    {
        if self.messages.len() >= self.max_size && self.messages.len() > 0 {
            let _dropped = self.messages.remove(0);
            proof {
                assert(self.messages@ =~= old(self).messages@.drop_first());
            }
        }
        self.messages.push(message);
    }

    /// Every buffered message, oldest first.
    pub fn get_all(&self) -> (r: Vec<Message>)
        ensures
            r@ == self.messages@,
    {
        let mut r: Vec<Message> = Vec::new();
        let n = self.messages.len();
        let mut i: usize = 0;
        proof {
            assert(r@ =~= self.messages@.take(0));
        }
        while i < n
            invariant
                i <= n,
                n == self.messages@.len(),
                r@ == self.messages@.take(i as int),
            decreases n - i,
        {
            r.push(self.messages[i].duplicate());
            proof {
                assert(r@ =~= self.messages@.take(i + 1));
            }
            i += 1;
        }
        proof {
            assert(self.messages@.take(n as int) =~= self.messages@);
        }
        r
    }

    /// The messages captured after `since`, oldest first.
    pub fn get_since(&self, since: i64) -> (r: Vec<Message>)
        ensures
            r@ == self.messages@.filter(newer_than(since as int)),
    {
        let mut r: Vec<Message> = Vec::new();
        let n = self.messages.len();
        let mut i: usize = 0;
        proof {
            reveal(Seq::filter);
            assert(r@ =~= self.messages@.take(0).filter(newer_than(since as int)));
        }
        while i < n
            invariant
                i <= n,
                n == self.messages@.len(),
                r@ == self.messages@.take(i as int).filter(newer_than(since as int)),
            decreases n - i,
        {
            let m = &self.messages[i];
            proof {
                crate::store::lemma_filter_take_step(self.messages@, i as int, newer_than(since as int));
            }
            if m.timestamp > since {
                r.push(m.duplicate());
            }
            i += 1;
        }
        proof {
            assert(self.messages@.take(n as int) =~= self.messages@);
        }
        r
    }

    /// The `n` most recent messages, oldest of them first.
    pub fn get_recent(&self, n: usize) -> (r: Vec<Message>)
        ensures
            r@ == self.messages@.skip(
                if self.messages@.len() > n {
                    self.messages@.len() - n as int
                } else {
                    0
                },
            ),
    {
        let len = self.messages.len();
        let start = if len > n {
            len - n
        } else {
            0
        };
        let mut r: Vec<Message> = Vec::new();
        let mut i: usize = start;
        proof {
            assert(r@ =~= self.messages@.subrange(start as int, start as int));
        }
        while i < len
            invariant
                start <= i <= len,
                len == self.messages@.len(),
                r@ == self.messages@.subrange(start as int, i as int),
            decreases len - i,
        {
            r.push(self.messages[i].duplicate());
            proof {
                assert(r@ =~= self.messages@.subrange(start as int, i + 1));
            }
            i += 1;
        }
        proof {
            assert(r@ =~= self.messages@.skip(start as int));
        }
        r
    }

    /// Empties the buffer.
    pub fn clear(&mut self)
        ensures
            final(self).messages@.len() == 0,
            final(self).max_size == old(self).max_size,
    {
        self.messages.clear();
    }

    /// How many messages are buffered.
    pub fn len(&self) -> (r: usize)
        ensures
            r == self.messages@.len(),
    {
        self.messages.len()
    }

    /// Whether nothing is buffered.
    pub fn is_empty(&self) -> (r: bool)
        ensures
            r == (self.messages@.len() == 0),
    {
        self.messages.is_empty()
    }
}

} // verus!
