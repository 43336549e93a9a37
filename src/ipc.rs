//! The shared-buffer transport: an inbound region that the host fills with a
//! request and an outbound region that receives the reply. One owner, one
//! query at a time.
use vstd::prelude::*;
use vstd::string::*;
use vstd::utf8::*;
use crate::dict::Dictionary;
use crate::engine::{look_up, reply_text};
use crate::text::BUF_SIZE;
use crate::writer::{Writer, append_bounded, append_to_buf, text_or_empty};

verus! {

/// The request read from the first `n` inbound bytes: empty when they are not
/// valid UTF-8.
pub open spec fn inbound_text(inbox: Seq<u8>, n: int) -> Seq<char> {
    if valid_utf8(inbox.take(n)) {
        decode_utf8(inbox.take(n))
    } else {
        Seq::<char>::empty()
    }
}

/// The outbound bytes after an exchange on the first `n` inbound bytes.
pub open spec fn ipc_reply(d: &Dictionary, inbox: Seq<u8>, n: int) -> Seq<u8> {
    append_bounded(
        Seq::<u8>::empty(),
        encode_utf8(reply_text(d, inbound_text(inbox, n))),
        BUF_SIZE as nat,
    )
}

/// Inbound and outbound regions of `BUF_SIZE` bytes each, with the write
/// position of the outbound one.
pub struct IpcMem {
    inbox: [u8; BUF_SIZE],
    outbox: [u8; BUF_SIZE],
    out_pos: usize,
}

impl IpcMem {
    /// The inbound region.
    pub closed spec fn inbound(&self) -> Seq<u8> {
        self.inbox@
    }

    closed spec fn used(&self) -> int {
        if self.out_pos <= BUF_SIZE {
            self.out_pos as int
        } else {
            BUF_SIZE as int
        }
    }

    fn used_len(&self) -> (n: usize)
        ensures
            n == self.used(),
    {
        if self.out_pos <= BUF_SIZE {
            self.out_pos
        } else {
            BUF_SIZE
        }
    }

    /// Zeroed regions.
    pub fn new() -> (r: IpcMem)
        ensures
            r.inbound() == Seq::new(BUF_SIZE as nat, |i: int| 0u8),
            r.contents() == Seq::<u8>::empty(),
    {
        let r = IpcMem { inbox: [0; BUF_SIZE], outbox: [0; BUF_SIZE], out_pos: 0 };
        assert(r.inbound() =~= Seq::new(BUF_SIZE as nat, |i: int| 0u8));
        r
    }

    /// Copies a request into the inbound region, as much of it as fits;
    /// returns the number of bytes copied.
    pub fn put_query(&mut self, bytes: &[u8]) -> (n: usize)
        ensures
            n == if bytes@.len() < BUF_SIZE {
                bytes@.len()
            } else {
                BUF_SIZE as nat
            },
            final(self).inbound().len() == BUF_SIZE,
            final(self).inbound().take(n as int) == bytes@.take(n as int),
            final(self).contents() == old(self).contents(),
    {
        let mut i: usize = 0;
        while i < bytes.len() && i < BUF_SIZE
            invariant
                i <= bytes@.len(),
                i <= BUF_SIZE,
                self.inbox@.len() == BUF_SIZE,
                self.inbox@.take(i as int) == bytes@.take(i as int),
                self.outbox == old(self).outbox,
                self.out_pos == old(self).out_pos,
            decreases BUF_SIZE - i,
        {
            let ghost before = self.inbox@;
            self.inbox[i] = bytes[i];
            assert(self.inbox@.take(i + 1) =~= before.take(i as int).push(bytes@[i as int]));
            assert(bytes@.take(i + 1) =~= bytes@.take(i as int).push(bytes@[i as int]));
            i = i + 1;
        }
        i
    }

    /// The request held in the first `n` inbound bytes; the empty text when
    /// they are not valid UTF-8.
    pub fn get_query(&self, n: usize) -> (r: &str)
        requires
            n <= BUF_SIZE,
        ensures
            r@ == inbound_text(self.inbound(), n as int),
    {
        let bytes = vstd::slice::slice_subrange(self.inbox.as_slice(), 0, n);
        assert(bytes@ =~= self.inbox@.take(n as int));
        text_or_empty(bytes)
    }

    /// Empties the outbound region.
    pub fn rewind(&mut self)
        ensures
            final(self).contents() == Seq::<u8>::empty(),
            final(self).inbound() == old(self).inbound(),
    {
        self.out_pos = 0;
    }

    /// Number of bytes in the outbound region.
    pub fn position(&self) -> (n: usize)
        ensures
            n == self.contents().len(),
    {
        self.used_len()
    }

    /// Answers the request in the first `n` inbound bytes: the outbound region
    /// is emptied, receives the reply, and its length is returned.
    pub fn query_shared_mem_ipc(&mut self, d: &Dictionary, n: usize) -> (written: usize)
        requires
            d.wf(),
            n <= BUF_SIZE,
        ensures
            final(self).contents() == ipc_reply(d, old(self).inbound(), n as int),
            written == final(self).contents().len(),
    {
        let inbox = self.inbox;
        let bytes = vstd::slice::slice_subrange(inbox.as_slice(), 0, n);
        assert(bytes@ =~= old(self).inbox@.take(n as int));
        let qry = text_or_empty(bytes);
        self.rewind();
        look_up(d, qry, self);
        self.position()
    }
}

impl Writer for IpcMem {
    closed spec fn contents(&self) -> Seq<u8> {
        self.outbox@.take(self.used())
    }

    open spec fn capacity(&self) -> nat {
        BUF_SIZE as nat
    }

    fn write(&mut self, message: &str) {
        let pos = self.used_len();
        self.out_pos = append_to_buf(&mut self.outbox, pos, message);
    }

    fn trace(&mut self, trace_code: i32) {
    }

    fn to_s(&self) -> (r: &str) {
        let n = self.used_len();
        let bytes = vstd::slice::slice_subrange(self.outbox.as_slice(), 0, n);
        assert(bytes@ =~= self.contents());
        text_or_empty(bytes)
    }
}

/// Sent over the shared buffers as its UTF-8 bytes, a query gets the same
/// reply bytes as when it is looked up directly into an empty sink of
/// `BUF_SIZE` bytes.
pub proof fn lemma_transport_matches_direct(d: &Dictionary, text: Seq<char>, inbox: Seq<u8>, n: int)
    requires
        0 <= n <= inbox.len(),
        inbox.take(n) == encode_utf8(text),
    ensures
        ipc_reply(d, inbox, n) == append_bounded(
            Seq::<u8>::empty(),
            encode_utf8(reply_text(d, text)),
            BUF_SIZE as nat,
        ),
{
    encode_utf8_valid_utf8(text);
    encode_utf8_decode_utf8(text);
}

/// One query looked up into two empty sinks, of any kinds and capacities,
/// leaves the same bytes up to the smaller capacity, and the whole reply in
/// each sink that has room for it.
pub proof fn lemma_sinks_agree(d: &Dictionary, text: Seq<char>, cap_a: nat, cap_b: nat)
    requires
        cap_a <= cap_b,
    ensures
        ({
            let reply = encode_utf8(reply_text(d, text));
            let a = append_bounded(Seq::<u8>::empty(), reply, cap_a);
            let b = append_bounded(Seq::<u8>::empty(), reply, cap_b);
            &&& a == b.take(a.len() as int)
            &&& reply.len() <= cap_a ==> a == reply
            &&& reply.len() <= cap_b ==> b == reply
        }),
{
    let reply = encode_utf8(reply_text(d, text));
    let e = Seq::<u8>::empty();
    assert(e + reply =~= reply);
    if reply.len() > 0 {
        assert(e + reply.take(cap_a as int) =~= reply.take(cap_a as int));
        assert(e + reply.take(cap_b as int) =~= reply.take(cap_b as int));
    }
    let a = append_bounded(e, reply, cap_a);
    let b = append_bounded(e, reply, cap_b);
    assert(a =~= b.take(a.len() as int));
}

} // verus!
