//! Tokens of a query and the bounded queue that holds them in input order.
use vstd::prelude::*;
use crate::text::BUF_SIZE;
use crate::writer::append_bounded;

verus! {

/// The most tokens a queue holds: one per character of a full view.
pub const TOKEN_QUEUE_SIZE: usize = BUF_SIZE;

/// One lexical unit of a query.
#[derive(Copy, Clone, Debug)]
pub enum Token {
    /// A dictionary hit whose value has a single candidate (the entry's index).
    CiOne(usize),
    /// A dictionary hit with several candidates, awaiting a choice.
    CiOpenChoice(usize),
    /// An unmatched space or digit `1`..`9`: text, or the choice for an earlier hit.
    MaybeChoice(char),
    /// Any other unmatched character.
    Other(char),
    /// A token already used up; it renders as nothing.
    Skip,
}

/// A sequence of at most `TOKEN_QUEUE_SIZE` tokens, appended to in order.
pub struct TokenQueue {
    queue: Vec<Token>,
}

impl TokenQueue {
    /// The tokens held.
    pub closed spec fn view(&self) -> Seq<Token> {
        self.queue@
    }

    /// An empty queue.
    pub fn new() -> (r: TokenQueue)
        ensures
            r@ == Seq::<Token>::empty(),
    {
        TokenQueue { queue: Vec::new() }
    }

    /// Number of tokens held.
    pub fn count(&self) -> (n: usize)
        ensures
            n == self@.len(),
    {
        self.queue.len()
    }

    /// Token `i`.
    pub fn get(&self, i: usize) -> (t: Token)
        requires
            i < self@.len(),
        ensures
            t == self@[i as int],
    {
        self.queue[i]
    }

    /// Replaces token `i`.
    pub(crate) fn set(&mut self, i: usize, tk: Token)
        requires
            i < old(self)@.len(),
        ensures
            final(self)@ == old(self)@.update(i as int, tk),
    {
        self.queue.set(i, tk);
    }

    /// Appends `tk` if the queue has room and says whether it did; a full
    /// queue stays as it is.
    pub fn push(&mut self, tk: Token) -> (pushed: bool)
        ensures
            pushed == (old(self)@.len() < TOKEN_QUEUE_SIZE),
            final(self)@ == append_bounded(old(self)@, seq![tk], TOKEN_QUEUE_SIZE as nat),
    {
        if self.queue.len() < TOKEN_QUEUE_SIZE {
            self.queue.push(tk);
            assert(old(self)@ + seq![tk] =~= old(self)@.push(tk));
            true
        } else {
            false
        }
    }
}

} // verus!
