//! A character-indexed view of a UTF-8 string: byte offsets of every character
//! are recorded once, so sub-ranges can be sliced by character position.
use vstd::prelude::*;
use vstd::string::*;
use vstd::utf8::*;

verus! {

broadcast use vstd::seq_lib::group_seq_properties;

/// Capacity of the host buffers, in characters for a view and in bytes for a sink.
pub const BUF_SIZE: usize = 150;

/// Byte length of the UTF-8 encoding of the first `k` characters of `s`.
pub open spec fn byte_offset(s: Seq<char>, k: int) -> int {
    encode_utf8(s.take(k)).len() as int
}

/// Width in bytes of the encoding that starts with byte `b`.
pub open spec fn lead_width_spec(b: u8) -> int {
    if is_leading_byte_width_1(b) {
        1
    } else if is_leading_byte_width_2(b) {
        2
    } else if is_leading_byte_width_3(b) {
        3
    } else {
        4
    }
}

/// Encoding a concatenation is concatenating the encodings.
pub proof fn lemma_encode_concat(a: Seq<char>, b: Seq<char>)
    ensures
        encode_utf8(a + b) == encode_utf8(a) + encode_utf8(b),
    decreases a.len(),
{
    if a.len() == 0 {
        assert(a + b =~= b);
        assert(encode_utf8(a) + encode_utf8(b) =~= encode_utf8(b));
    } else {
        assert((a + b).drop_first() =~= a.drop_first() + b);
        lemma_encode_concat(a.drop_first(), b);
        assert(encode_utf8(a + b) =~= encode_utf8(a) + encode_utf8(b));
    }
}

/// Encoding is injective: equal encodings come from equal texts.
pub proof fn lemma_encode_injective(a: Seq<char>, b: Seq<char>)
    requires
        encode_utf8(a) == encode_utf8(b),
    ensures
        a == b,
{
    encode_utf8_decode_utf8(a);
    encode_utf8_decode_utf8(b);
}

/// The bytes between two character offsets encode the characters between them.
pub proof fn lemma_offset_range(s: Seq<char>, a: int, b: int)
    requires
        0 <= a <= b <= s.len(),
    ensures
        0 <= byte_offset(s, a) <= byte_offset(s, b) <= encode_utf8(s).len(),
        byte_offset(s, s.len() as int) == encode_utf8(s).len(),
        encode_utf8(s).subrange(byte_offset(s, a), byte_offset(s, b)) == encode_utf8(
            s.subrange(a, b),
        ),
{
    let ta = s.take(a);
    let mid = s.subrange(a, b);
    let rest = s.skip(b);
    assert(s.take(b) =~= ta + mid);
    assert(s =~= s.take(b) + rest);
    assert(s.take(s.len() as int) =~= s);
    lemma_encode_concat(ta, mid);
    lemma_encode_concat(s.take(b), rest);
    let e = encode_utf8(s);
    assert(e.subrange(byte_offset(s, a), byte_offset(s, b)) =~= encode_utf8(mid));
}

/// Facts about the character at index `k`: where its encoding starts, how wide
/// it is, and that its first byte tells that width.
pub proof fn lemma_char_at(s: Seq<char>, k: int)
    requires
        0 <= k < s.len(),
    ensures
        byte_offset(s, k) < byte_offset(s, k + 1) <= encode_utf8(s).len(),
        byte_offset(s, k + 1) - byte_offset(s, k) == lead_width_spec(
            encode_utf8(s)[byte_offset(s, k)],
        ),
        !is_continuation_byte(encode_utf8(s)[byte_offset(s, k)]),
        encode_utf8(s).subrange(byte_offset(s, k), byte_offset(s, k + 1)) == encode_utf8(
            seq![s[k]],
        ),
{
    lemma_offset_range(s, k, s.len() as int);
    lemma_offset_range(s, k, k + 1);
    let rest = s.skip(k);
    assert(s.subrange(k, s.len() as int) =~= rest);
    assert(s.subrange(k, k + 1) =~= seq![s[k]]);
    encode_utf8_first_scalar(rest);
    let er = encode_utf8(rest);
    let w = encode_scalar(s[k] as u32).len() as int;
    let one = seq![s[k]];
    assert(one.drop_first() =~= Seq::<char>::empty());
    assert(encode_utf8(one.drop_first()) =~= Seq::<u8>::empty());
    assert(encode_utf8(one) =~= encode_scalar(s[k] as u32) + encode_utf8(one.drop_first()));
    assert(encode_utf8(one) =~= encode_scalar(s[k] as u32));
    assert(er[0] == encode_utf8(s)[byte_offset(s, k)]);
    assert(1 <= w <= 4);
}

/// Every character offset is a character boundary of the encoding.
pub proof fn lemma_offset_is_boundary(s: Seq<char>, k: int)
    requires
        0 <= k <= s.len(),
    ensures
        is_char_boundary(encode_utf8(s), byte_offset(s, k)),
{
    let e = encode_utf8(s);
    encode_utf8_valid_utf8(s);
    lemma_offset_range(s, k, k);
    if k == s.len() {
        is_char_boundary_start_end_of_seq(e);
    } else {
        lemma_char_at(s, k);
        is_char_boundary_iff_not_is_continuation_byte(e, byte_offset(s, k));
    }
}

fn lead_width(b: u8) -> (w: usize)
    ensures
        w as int == lead_width_spec(b),
{
    if b <= 0x7f {
        1
    } else if 0xc0 <= b && b <= 0xdf {
        2
    } else if 0xe0 <= b && b <= 0xef {
        3
    } else {
        4
    }
}

/// A string with the byte range of each of its first characters recorded.
pub struct Utf8Str<'a> {
    str_slice: &'a str,
    char_start_list: Vec<usize>,
    char_end_list: Vec<usize>,
    char_count: usize,
}

impl<'a> Utf8Str<'a> {
    /// The characters that the view holds.
    pub closed spec fn view(&self) -> Seq<char> {
        self.str_slice@.take(self.char_count as int)
    }

    /// The whole text the view was built over.
    pub closed spec fn source(&self) -> Seq<char> {
        self.str_slice@
    }

    /// The recorded offsets are those of the characters of the text.
    pub closed spec fn wf(&self) -> bool {
        &&& self.char_count <= self.str_slice@.len()
        &&& self.char_start_list@.len() == self.char_count
        &&& self.char_end_list@.len() == self.char_count
        &&& forall|k: int|
            0 <= k < self.char_count ==> {
                &&& self.char_start_list@[k] == byte_offset(self.str_slice@, k)
                &&& self.char_end_list@[k] == byte_offset(self.str_slice@, k + 1)
            }
    }

    /// Records the first `limit` characters of `str_slice` (all of them if
    /// there are fewer).
    pub fn with_limit(str_slice: &'a str, limit: usize) -> (r: Utf8Str<'a>)
        ensures
            r.wf(),
            r.source() == str_slice@,
            r@ == str_slice@.take(
                if str_slice@.len() < limit {
                    str_slice@.len() as int
                } else {
                    limit as int
                },
            ),
    {
        let bytes = str_slice.as_bytes();
        let mut char_start_list: Vec<usize> = Vec::new();
        let mut char_end_list: Vec<usize> = Vec::new();
        let mut char_count: usize = 0;
        let mut pos: usize = 0;
        proof {
            lemma_offset_range(str_slice@, 0, 0);
        }
        while pos < bytes.len() && char_count < limit
            invariant
                bytes@ == encode_utf8(str_slice@),
                char_count <= str_slice@.len(),
                char_count <= limit,
                pos == byte_offset(str_slice@, char_count as int),
                char_start_list@.len() == char_count,
                char_end_list@.len() == char_count,
                forall|k: int|
                    0 <= k < char_count ==> {
                        &&& char_start_list@[k] == byte_offset(str_slice@, k)
                        &&& char_end_list@[k] == byte_offset(str_slice@, k + 1)
                    },
            decreases bytes.len() - pos,
        {
            proof {
                lemma_offset_range(str_slice@, char_count as int, char_count as int);
                lemma_char_at(str_slice@, char_count as int);
            }
            let w = lead_width(bytes[pos]);
            char_start_list.push(pos);
            pos = pos + w;
            char_end_list.push(pos);
            char_count = char_count + 1;
        }
        proof {
            if char_count < limit && char_count < str_slice@.len() {
                lemma_char_at(str_slice@, char_count as int);
            }
        }
        Utf8Str { str_slice, char_start_list, char_end_list, char_count }
    }

    /// Records the characters of `str_slice`, keeping at most `BUF_SIZE` of
    /// them: later characters are dropped.
    pub fn new(str_slice: &'a str) -> (r: Utf8Str<'a>)
        ensures
            r.wf(),
            r.source() == str_slice@,
            r@ == str_slice@.take(
                if str_slice@.len() < BUF_SIZE {
                    str_slice@.len() as int
                } else {
                    BUF_SIZE as int
                },
            ),
    {
        Self::with_limit(str_slice, BUF_SIZE)
    }

    /// Number of characters held.
    pub fn char_count(&self) -> (n: usize)
        requires
            self.wf(),
        ensures
            n == self@.len(),
    {
        self.char_count
    }

    /// The characters `[start, end)`, or `None` unless `start < end <= char_count`.
    pub fn char_slice(&self, start: usize, end: usize) -> (r: Option<&'a str>)
        requires
            self.wf(),
        ensures
            start < end <= self@.len() ==> (r matches Some(s) && s@ == self@.subrange(
                start as int,
                end as int,
            )),
            !(start < end <= self@.len()) ==> r is None,
    {
        if start < end && end <= self.char_count {
            let start_b = self.char_start_list[start];
            let end_b = self.char_end_list[end - 1];
            let ghost s = self.str_slice@;
            let ghost t = s.take(end as int);
            proof {
                lemma_offset_is_boundary(s, end as int);
                lemma_offset_range(s, 0, end as int);
                assert(s.subrange(0, end as int) =~= t);
                assert(t.take(start as int) =~= s.take(start as int));
                lemma_offset_is_boundary(t, start as int);
            }
            let (left, _) = self.str_slice.split_at(end_b);
            assert(left.spec_bytes() == encode_utf8(t));
            let (_, mid) = left.split_at(start_b);
            proof {
                lemma_offset_range(t, start as int, end as int);
                assert(t.subrange(start as int, end as int) =~= s.subrange(
                    start as int,
                    end as int,
                ));
                assert(encode_utf8(t).subrange(start_b as int, encode_utf8(t).len() as int)
                    == encode_utf8(t).subrange(start_b as int, byte_offset(t, end as int)));
                lemma_encode_injective(mid@, s.subrange(start as int, end as int));
                assert(self@.subrange(start as int, end as int) =~= s.subrange(
                    start as int,
                    end as int,
                ));
            }
            Some(mid)
        } else {
            None
        }
    }
}

} // verus!
