//! The phrase dictionary: keys sorted by the byte order of their UTF-8
//! encoding, each with a value that lists one or more candidate phrases
//! separated by tabs.
use vstd::prelude::*;
use vstd::string::*;
use vstd::utf8::*;
use crate::text::{Utf8Str, lemma_encode_injective};

verus! {

broadcast use vstd::seq_lib::group_seq_properties;

/// Lexicographic order on byte strings, comparing from index `i` on.
pub open spec fn bytes_lt_from(a: Seq<u8>, b: Seq<u8>, i: int) -> bool
    decreases a.len() - i,
{
    if i < 0 || i >= a.len() {
        0 <= i < b.len()
    } else if i >= b.len() {
        false
    } else if a[i] != b[i] {
        a[i] < b[i]
    } else {
        bytes_lt_from(a, b, i + 1)
    }
}

/// Lexicographic order on byte strings: a proper prefix comes first.
pub open spec fn bytes_lt(a: Seq<u8>, b: Seq<u8>) -> bool {
    bytes_lt_from(a, b, 0)
}

/// Key order: the byte order of the UTF-8 encodings.
pub open spec fn key_lt(a: Seq<char>, b: Seq<char>) -> bool {
    bytes_lt(encode_utf8(a), encode_utf8(b))
}

/// Keys strictly ascending, hence unique.
pub open spec fn keys_sorted(keys: Seq<Seq<char>>) -> bool {
    forall|i: int, j: int| 0 <= i < j < keys.len() ==> key_lt(#[trigger] keys[i], #[trigger] keys[j])
}

/// `q` is one of the keys.
pub open spec fn is_key(keys: Seq<Seq<char>>, q: Seq<char>) -> bool {
    exists|i: int| 0 <= i < keys.len() && keys[i] == q
}

/// The position of key `q`.
pub open spec fn key_index(keys: Seq<Seq<char>>, q: Seq<char>) -> int
    recommends
        is_key(keys, q),
{
    choose|i: int| 0 <= i < keys.len() && keys[i] == q
}

/// The pieces of `v` between tab characters, in order; text without a tab is
/// one piece.
pub open spec fn split_tabs(v: Seq<char>) -> Seq<Seq<char>>
    decreases v.len(),
{
    if v.len() == 0 {
        seq![Seq::<char>::empty()]
    } else {
        let init = split_tabs(v.drop_last());
        if v.last() == '\t' {
            init.push(Seq::<char>::empty())
        } else {
            init.update(init.len() - 1, init.last().push(v.last()))
        }
    }
}

pub proof fn lemma_split_tabs_nonempty(v: Seq<char>)
    ensures
        split_tabs(v).len() >= 1,
    decreases v.len(),
{
    if v.len() > 0 {
        lemma_split_tabs_nonempty(v.drop_last());
    }
}

proof fn lemma_lt_from_irreflexive(a: Seq<u8>, i: int)
    requires
        0 <= i,
    ensures
        !bytes_lt_from(a, a, i),
    decreases a.len() - i,
{
    if i < a.len() {
        lemma_lt_from_irreflexive(a, i + 1);
    }
}

proof fn lemma_lt_from_transitive(a: Seq<u8>, b: Seq<u8>, c: Seq<u8>, i: int)
    requires
        0 <= i,
        bytes_lt_from(a, b, i),
        bytes_lt_from(b, c, i),
    ensures
        bytes_lt_from(a, c, i),
    decreases a.len() - i,
{
    if i < a.len() && i < b.len() && i < c.len() && a[i] == b[i] && b[i] == c[i] {
        lemma_lt_from_transitive(a, b, c, i + 1);
    }
}

/// The key order is a strict order.
pub proof fn lemma_key_order(a: Seq<char>, b: Seq<char>, c: Seq<char>)
    ensures
        !key_lt(a, a),
        key_lt(a, b) && key_lt(b, c) ==> key_lt(a, c),
{
    lemma_lt_from_irreflexive(encode_utf8(a), 0);
    if key_lt(a, b) && key_lt(b, c) {
        lemma_lt_from_transitive(encode_utf8(a), encode_utf8(b), encode_utf8(c), 0);
    }
}

/// Sorted keys are unique.
pub proof fn lemma_sorted_unique(keys: Seq<Seq<char>>, i: int, j: int)
    requires
        keys_sorted(keys),
        0 <= i < keys.len(),
        0 <= j < keys.len(),
        keys[i] == keys[j],
    ensures
        i == j,
{
    lemma_key_order(keys[i], keys[i], keys[i]);
    if i < j {
        assert(key_lt(keys[i], keys[j]));
    } else if j < i {
        assert(key_lt(keys[j], keys[i]));
    }
}

/// Compares two byte strings: negative, zero or positive as `a` comes before,
/// equals or comes after `b`.
fn compare_bytes(a: &[u8], b: &[u8]) -> (r: i8)
    ensures
        r < 0 <==> bytes_lt(a@, b@),
        r > 0 <==> bytes_lt(b@, a@),
        r == 0 <==> a@ == b@,
{
    let mut i: usize = 0;
    while i < a.len() && i < b.len()
        invariant
            i <= a@.len(),
            i <= b@.len(),
            forall|j: int| 0 <= j < i ==> a@[j] == b@[j],
            bytes_lt(a@, b@) == bytes_lt_from(a@, b@, i as int),
            bytes_lt(b@, a@) == bytes_lt_from(b@, a@, i as int),
        decreases a.len() - i,
    {
        if a[i] < b[i] {
            return -1;
        } else if a[i] > b[i] {
            return 1;
        }
        i = i + 1;
    }
    if i < b.len() {
        -1
    } else if i < a.len() {
        1
    } else {
        assert(a@ =~= b@);
        proof {
            lemma_lt_from_irreflexive(a@, 0);
        }
        0
    }
}

proof fn lemma_split_step(v: Seq<char>, done: Seq<Seq<char>>, piece_start: int, k: int)
    requires
        0 <= piece_start <= k < v.len(),
        done.push(v.subrange(piece_start, k)) == split_tabs(v.take(k)),
    ensures
        v[k] == '\t' ==> done.push(v.subrange(piece_start, k)).push(v.subrange(k + 1, k + 1))
            == split_tabs(v.take(k + 1)),
        v[k] != '\t' ==> done.push(v.subrange(piece_start, k + 1)) == split_tabs(v.take(k + 1)),
{
    assert(v.take(k + 1).drop_last() =~= v.take(k));
    assert(v.take(k + 1).last() == v[k]);
    assert(v.subrange(k + 1, k + 1) =~= Seq::<char>::empty());
    assert(v.subrange(piece_start, k + 1) =~= v.subrange(piece_start, k).push(v[k]));
    assert(done.push(v.subrange(piece_start, k + 1)) =~= done.push(v.subrange(piece_start, k)).update(
        done.len() as int,
        v.subrange(piece_start, k).push(v[k]),
    ));
}

proof fn lemma_views_push(pieces: Seq<String>, x: String)
    ensures
        pieces.push(x).map_values(|s: String| s@) == pieces.map_values(|s: String| s@).push(x@),
{
    assert(pieces.push(x).map_values(|s: String| s@) =~= pieces.map_values(|s: String| s@).push(x@));
}

/// The text of characters `[a, b)` of a view, owned.
fn owned_slice(view: &Utf8Str, a: usize, b: usize) -> (r: String)
    requires
        view.wf(),
        a <= b <= view@.len(),
    ensures
        r@ == view@.subrange(a as int, b as int),
{
    match view.char_slice(a, b) {
        Some(s) => s.to_owned(),
        None => {
            let e = String::new();
            assert(e@ =~= view@.subrange(a as int, b as int));
            e
        },
    }
}

/// Splits `value` at its tab characters.
fn split_candidates(value: &str) -> (r: Vec<String>)
    ensures
        r@.map_values(|s: String| s@) == split_tabs(value@),
{
    let n = value.unicode_len();
    let view = Utf8Str::with_limit(value, n);
    assert(value@.take(n as int) =~= value@);
    let mut pieces: Vec<String> = Vec::new();
    let mut piece_start: usize = 0;
    let mut k: usize = 0;
    assert(value@.take(0) =~= Seq::<char>::empty());
    assert(value@.subrange(0, 0) =~= Seq::<char>::empty());
    assert(pieces@.map_values(|s: String| s@) =~= Seq::<Seq<char>>::empty());
    while k < n
        invariant
            view.wf(),
            view@ == value@,
            n == value@.len(),
            piece_start <= k <= n,
            pieces@.map_values(|s: String| s@).push(value@.subrange(piece_start as int, k as int))
                == split_tabs(value@.take(k as int)),
        decreases n - k,
    {
        proof {
            lemma_split_step(value@, pieces@.map_values(|s: String| s@), piece_start as int, k as int);
        }
        // k < n, so the slice is always there.
        let c = match view.char_slice(k, k + 1) {
            Some(s) => s.get_char(0),
            None => ' ',
        };
        if c == '\t' {
            let piece = owned_slice(&view, piece_start, k);
            proof {
                lemma_views_push(pieces@, piece);
            }
            pieces.push(piece);
            piece_start = k + 1;
        }
        k = k + 1;
    }
    let last = owned_slice(&view, piece_start, n);
    proof {
        lemma_views_push(pieces@, last);
    }
    pieces.push(last);
    pieces
}

/// A read-only phrase table: sorted keys, a value for each key, and the
/// candidates of each value.
pub struct Dictionary {
    keys: Vec<String>,
    values: Vec<String>,
    candidates: Vec<Vec<String>>,
    max_key_len: usize,
}

impl Dictionary {
    /// The keys, in order.
    pub closed spec fn keys(&self) -> Seq<Seq<char>> {
        self.keys@.map_values(|s: String| s@)
    }

    /// The value of each key.
    pub closed spec fn values(&self) -> Seq<Seq<char>> {
        self.values@.map_values(|s: String| s@)
    }

    /// The length in characters of the longest key (0 when there is none).
    pub closed spec fn max_key_len(&self) -> nat {
        self.max_key_len as nat
    }

    /// The candidates of entry `i`, in choice order.
    pub open spec fn candidates(&self, i: int) -> Seq<Seq<char>> {
        split_tabs(self.values()[i])
    }

    /// Sorted keys, one value per key, and a maximum key length that no key exceeds.
    pub closed spec fn wf(&self) -> bool {
        &&& self.keys@.len() == self.values@.len()
        &&& self.keys@.len() <= usize::MAX
        &&& self.candidates@.len() == self.values@.len()
        &&& keys_sorted(self.keys())
        &&& forall|i: int|
            0 <= i < self.keys@.len() ==> (#[trigger] self.keys@[i])@.len() <= self.max_key_len
        &&& forall|i: int|
            0 <= i < self.values@.len() ==> (#[trigger] self.candidates@[i])@.map_values(
                |s: String| s@,
            ) == split_tabs(self.values@[i]@)
    }

    /// What a well-formed dictionary lets callers rely on.
    pub proof fn lemma_wf(&self)
        requires
            self.wf(),
        ensures
            self.keys().len() == self.values().len(),
            self.keys().len() <= usize::MAX,
            keys_sorted(self.keys()),
            forall|i: int| 0 <= i < self.keys().len() ==> (#[trigger] self.keys()[i]).len() <= self.max_key_len(),
            forall|i: int| 0 <= i < self.keys().len() ==> (#[trigger] self.candidates(i)).len() >= 1,
    {
        assert forall|i: int| 0 <= i < self.keys().len() implies (#[trigger] self.candidates(i)).len() >= 1 by {
            lemma_split_tabs_nonempty(self.values()[i]);
        }
    }

    /// Builds a dictionary from keys and their values; `None` unless there are
    /// as many values as keys and the keys are strictly ascending in byte order.
    pub fn new(keys: Vec<String>, values: Vec<String>) -> (r: Option<Dictionary>)
        ensures
            r is Some <==> keys@.len() == values@.len() && keys_sorted(
                keys@.map_values(|s: String| s@),
            ),
            r matches Some(d) ==> {
                &&& d.wf()
                &&& d.keys() == keys@.map_values(|s: String| s@)
                &&& d.values() == values@.map_values(|s: String| s@)
                &&& forall|i: int| 0 <= i < d.keys().len() ==> (#[trigger] d.keys()[i]).len() <= d.max_key_len()
            },
    {
        let ghost kv = keys@.map_values(|s: String| s@);
        if keys.len() != values.len() {
            return None;
        }
        let mut i: usize = 1;
        while i < keys.len()
            invariant
                kv == keys@.map_values(|s: String| s@),
                1 <= i,
                forall|a: int, b: int| 0 <= a < b < i && b < kv.len() ==> key_lt(#[trigger] kv[a], #[trigger] kv[b]),
            decreases keys.len() - i,
        {
            let c = compare_bytes(keys[i - 1].as_str().as_bytes(), keys[i].as_str().as_bytes());
            if c >= 0 {
                proof {
                    lemma_key_order(kv[i - 1], kv[i as int], kv[i as int]);
                    if key_lt(kv[i - 1], kv[i as int]) {
                        assert(!keys_sorted(kv)) by {
                            if c == 0 {
                                assert(!key_lt(kv[i - 1], kv[i - 1]));
                            }
                            lemma_key_order(kv[i as int], kv[i - 1], kv[i as int]);
                        }
                    }
                }
                return None;
            }
            proof {
                assert forall|a: int, b: int| 0 <= a < b < i + 1 && b < kv.len() implies key_lt(#[trigger] kv[a], #[trigger] kv[b]) by {
                    if b == i && a < i - 1 {
                        lemma_key_order(kv[a], kv[i - 1], kv[b]);
                    }
                }
            }
            i = i + 1;
        }
        let mut max_key_len: usize = 0;
        let mut j: usize = 0;
        while j < keys.len()
            invariant
                kv == keys@.map_values(|s: String| s@),
                j <= keys@.len(),
                forall|a: int| 0 <= a < j ==> (#[trigger] kv[a]).len() <= max_key_len,
            decreases keys.len() - j,
        {
            let n = keys[j].as_str().unicode_len();
            if n > max_key_len {
                max_key_len = n;
            }
            j = j + 1;
        }
        let mut candidates: Vec<Vec<String>> = Vec::new();
        let mut m: usize = 0;
        while m < values.len()
            invariant
                m <= values@.len(),
                candidates@.len() == m,
                forall|a: int| 0 <= a < m ==> (#[trigger] candidates@[a])@.map_values(
                    |s: String| s@,
                ) == split_tabs(values@[a]@),
            decreases values.len() - m,
        {
            let pieces = split_candidates(values[m].as_str());
            candidates.push(pieces);
            m = m + 1;
        }
        let d = Dictionary { keys, values, candidates, max_key_len };
        assert(d.keys() == kv);
        assert forall|a: int| 0 <= a < d.keys@.len() implies (#[trigger] d.keys@[a])@.len() <= d.max_key_len by {
            assert(kv[a] == d.keys@[a]@);
        }
        assert(keys_sorted(d.keys()));
        Some(d)
    }

    /// Number of entries.
    pub fn len(&self) -> (n: usize)
        requires
            self.wf(),
        ensures
            n == self.keys().len(),
    {
        self.keys.len()
    }

    /// The length in characters of the longest key.
    pub fn max_key_length(&self) -> (n: usize)
        ensures
            n == self.max_key_len(),
    {
        self.max_key_len
    }

    /// Binary search for the entry whose key is `q`.
    pub fn find(&self, q: &str) -> (r: Option<usize>)
        requires
            self.wf(),
        ensures
            match r {
                Some(i) => is_key(self.keys(), q@) && i == key_index(self.keys(), q@),
                None => !is_key(self.keys(), q@),
            },
    {
        let ghost kv = self.keys();
        let qb = q.as_bytes();
        let mut lo: usize = 0;
        let mut hi: usize = self.keys.len();
        while lo < hi
            invariant
                self.wf(),
                kv == self.keys(),
                qb@ == encode_utf8(q@),
                lo <= hi <= kv.len(),
                forall|j: int| 0 <= j < lo ==> kv[j] != q@,
                forall|j: int| hi <= j < kv.len() ==> kv[j] != q@,
            decreases hi - lo,
        {
            let mid = lo + (hi - lo) / 2;
            let c = compare_bytes(self.keys[mid].as_str().as_bytes(), qb);
            if c == 0 {
                proof {
                    lemma_encode_injective(kv[mid as int], q@);
                    let k = key_index(kv, q@);
                    lemma_sorted_unique(kv, k, mid as int);
                }
                return Some(mid);
            } else if c < 0 {
                proof {
                    assert forall|j: int| 0 <= j < mid + 1 implies kv[j] != q@ by {
                        lemma_key_order(q@, kv[mid as int], q@);
                        if j < mid {
                            assert(key_lt(kv[j], kv[mid as int]));
                        }
                    }
                }
                lo = mid + 1;
            } else {
                proof {
                    assert forall|j: int| mid <= j < kv.len() implies kv[j] != q@ by {
                        lemma_key_order(kv[mid as int], q@, kv[mid as int]);
                        if j > mid {
                            assert(key_lt(kv[mid as int], kv[j]));
                        }
                    }
                }
                hi = mid;
            }
        }
        None
    }

    /// The value of entry `i`, as stored.
    pub fn value(&self, i: usize) -> (r: &str)
        requires
            self.wf(),
            i < self.keys().len(),
        ensures
            r@ == self.values()[i as int],
    {
        self.values[i].as_str()
    }

    /// Number of candidates of entry `i`.
    pub fn candidate_count(&self, i: usize) -> (n: usize)
        requires
            self.wf(),
            i < self.keys().len(),
        ensures
            n == self.candidates(i as int).len(),
    {
        self.candidates[i].len()
    }

    /// Candidate `k` (counting from 0) of entry `i`.
    pub fn candidate(&self, i: usize, k: usize) -> (r: &str)
        requires
            self.wf(),
            i < self.keys().len(),
            k < self.candidates(i as int).len(),
        ensures
            r@ == self.candidates(i as int)[k as int],
    {
        assert(self.candidates@[i as int]@.map_values(|s: String| s@)[k as int] == self.candidates@[i as int]@[k as int]@);
        self.candidates[i][k].as_str()
    }
}

} // verus!
