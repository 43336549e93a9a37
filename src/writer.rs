//! Output sinks: a sink receives rendered text and keeps the bytes that fit in
//! its capacity, dropping the rest.
use vstd::prelude::*;
use vstd::string::*;
use vstd::utf8::*;
use crate::text::BUF_SIZE;

verus! {

broadcast use vstd::seq_lib::group_seq_properties;

/// `buf` followed by as much of `more` as fits within `cap` items.
pub open spec fn append_bounded<T>(buf: Seq<T>, more: Seq<T>, cap: nat) -> Seq<T> {
    if buf.len() >= cap {
        buf
    } else if buf.len() + more.len() <= cap {
        buf + more
    } else {
        buf + more.take(cap - buf.len())
    }
}

/// Appending item by item: the next item is kept exactly when there is room.
pub proof fn lemma_append_bounded_step<T>(buf: Seq<T>, more: Seq<T>, cap: nat, i: int)
    requires
        0 <= i < more.len(),
    ensures
        ({
            let a = append_bounded(buf, more.take(i), cap);
            append_bounded(buf, more.take(i + 1), cap) == if a.len() < cap {
                a.push(more[i])
            } else {
                a
            }
        }),
{
    let a = append_bounded(buf, more.take(i), cap);
    if buf.len() < cap {
        if buf.len() + i + 1 <= cap {
            assert(buf + more.take(i + 1) =~= (buf + more.take(i)).push(more[i]));
        } else if buf.len() + i <= cap {
            assert(more.take(i + 1).take(cap - buf.len()) =~= more.take(i));
        } else {
            assert(more.take(i + 1).take(cap - buf.len()) =~= more.take(i).take(cap - buf.len()));
        }
    }
}

/// Two bounded appends are one bounded append of both parts.
pub proof fn lemma_append_bounded_twice<T>(buf: Seq<T>, m1: Seq<T>, m2: Seq<T>, cap: nat)
    ensures
        append_bounded(append_bounded(buf, m1, cap), m2, cap) == append_bounded(buf, m1 + m2, cap),
{
    if buf.len() < cap {
        if buf.len() + m1.len() + m2.len() <= cap {
            assert(buf + m1 + m2 =~= buf + (m1 + m2));
        } else if buf.len() + m1.len() < cap {
            assert(buf + m1 + m2.take(cap - buf.len() - m1.len()) =~= buf + (m1 + m2).take(
                cap - buf.len(),
            ));
        } else {
            assert((m1 + m2).take(cap - buf.len()) =~= m1.take(cap - buf.len()));
            if buf.len() + m1.len() == cap {
                assert(m1.take(cap - buf.len()) =~= m1);
            }
        }
    }
}

/// Appending nothing changes nothing.
pub proof fn lemma_append_bounded_empty<T>(buf: Seq<T>, cap: nat)
    ensures
        append_bounded(buf, Seq::<T>::empty(), cap) == buf,
{
    assert(buf + Seq::<T>::empty() =~= buf);
}

/// A destination for rendered text.
pub trait Writer {
    /// The bytes held.
    spec fn contents(&self) -> Seq<u8>;

    /// The number of bytes the sink can hold.
    spec fn capacity(&self) -> nat;

    /// Appends the UTF-8 bytes of `message`, dropping those beyond the capacity.
    fn write(&mut self, message: &str)
        ensures
            final(self).capacity() == old(self).capacity(),
            final(self).contents() == append_bounded(
                old(self).contents(),
                message.spec_bytes(),
                old(self).capacity(),
            ),
    ;

    /// Reports a diagnostic code; the contents stay as they are.
    fn trace(&mut self, trace_code: i32)
        ensures
            final(self).capacity() == old(self).capacity(),
            final(self).contents() == old(self).contents(),
    ;

    /// The contents as text; empty when they are not valid UTF-8 (as after a
    /// character cut by the capacity).
    fn to_s(&self) -> (r: &str)
        ensures
            valid_utf8(self.contents()) ==> r@ == decode_utf8(self.contents()),
            !valid_utf8(self.contents()) ==> r@ == Seq::<char>::empty(),
    ;
}

/// Relies on core::str::from_utf8: it accepts exactly the valid UTF-8 byte
/// strings, and the text it returns has those bytes.
#[verifier::external_body]
pub(crate) fn utf8_text(bytes: &[u8]) -> (r: Option<&str>)
    ensures
        r is Some <==> valid_utf8(bytes@),
        r matches Some(s) ==> s.spec_bytes() == bytes@,
{
    core::str::from_utf8(bytes).ok()
}

/// The text of some bytes, or the empty text when they are not valid UTF-8.
pub fn text_or_empty(bytes: &[u8]) -> (r: &str)
    ensures
        valid_utf8(bytes@) ==> r@ == decode_utf8(bytes@),
        !valid_utf8(bytes@) ==> r@ == Seq::<char>::empty(),
{
    match utf8_text(bytes) {
        Some(s) => {
            proof {
                encode_utf8_decode_utf8(s@);
            }
            s
        },
        None => {
            let e = "";
            proof {
                reveal_strlit("");
            }
            e
        },
    }
}

/// Appends the bytes of `message` to `buf`, whose first `pos` bytes are in
/// use, as far as they fit; returns the new number of bytes in use.
pub fn append_to_buf(buf: &mut [u8; BUF_SIZE], pos: usize, message: &str) -> (r: usize)
    requires
        pos <= BUF_SIZE,
    ensures
        r <= BUF_SIZE,
        final(buf)@.take(r as int) == append_bounded(
            old(buf)@.take(pos as int),
            message.spec_bytes(),
            BUF_SIZE as nat,
        ),
{
    let bytes = message.as_bytes();
    let ghost start = old(buf)@.take(pos as int);
    let mut p = pos;
    let mut i: usize = 0;
    assert(bytes@.take(0) =~= Seq::<u8>::empty());
    assert(start + Seq::<u8>::empty() =~= start);
    while i < bytes.len()
        invariant
            pos <= p <= BUF_SIZE,
            i <= bytes@.len(),
            bytes@ == message.spec_bytes(),
            buf@.len() == BUF_SIZE,
            buf@.take(p as int) == append_bounded(start, bytes@.take(i as int), BUF_SIZE as nat),
        decreases bytes.len() - i,
    {
        proof {
            lemma_append_bounded_step(start, bytes@, BUF_SIZE as nat, i as int);
        }
        if p < BUF_SIZE {
            let ghost before = buf@;
            buf[p] = bytes[i];
            assert(buf@.take(p + 1) =~= before.take(p as int).push(bytes@[i as int]));
            p = p + 1;
        }
        i = i + 1;
    }
    assert(bytes@.take(bytes@.len() as int) =~= bytes@);
    p
}

/// A sink backed by a fixed buffer of `BUF_SIZE` bytes.
pub struct BufWriter {
    buf: [u8; BUF_SIZE],
    buf_pos: usize,
}

impl BufWriter {
    /// Number of bytes in use.
    closed spec fn used(&self) -> int {
        if self.buf_pos <= BUF_SIZE {
            self.buf_pos as int
        } else {
            BUF_SIZE as int
        }
    }

    fn used_len(&self) -> (n: usize)
        ensures
            n == self.used(),
    {
        if self.buf_pos <= BUF_SIZE {
            self.buf_pos
        } else {
            BUF_SIZE
        }
    }

    /// An empty sink.
    pub fn new() -> (r: BufWriter)
        ensures
            r.contents() == Seq::<u8>::empty(),
            r.capacity() == BUF_SIZE,
    {
        BufWriter { buf: [0; BUF_SIZE], buf_pos: 0 }
    }

    /// Empties the sink.
    pub fn rewind(&mut self)
        ensures
            final(self).contents() == Seq::<u8>::empty(),
            final(self).capacity() == old(self).capacity(),
    {
        self.buf_pos = 0;
    }
}

impl Writer for BufWriter {
    closed spec fn contents(&self) -> Seq<u8> {
        self.buf@.take(self.used())
    }

    open spec fn capacity(&self) -> nat {
        BUF_SIZE as nat
    }

    fn write(&mut self, message: &str) {
        let pos = self.used_len();
        self.buf_pos = append_to_buf(&mut self.buf, pos, message);
    }

    fn trace(&mut self, trace_code: i32) {
    }

    fn to_s(&self) -> (r: &str) {
        let n = self.used_len();
        let bytes = vstd::slice::slice_subrange(self.buf.as_slice(), 0, n);
        assert(bytes@ =~= self.contents());
        text_or_empty(bytes)
    }
}

} // verus!
