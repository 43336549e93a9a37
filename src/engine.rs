//! Segmentation of a query into tokens by greedy longest match, and the
//! two-phase render that resolves choices and writes the reply to a sink.
use vstd::prelude::*;
use vstd::string::*;
use vstd::utf8::*;
use crate::dict::{Dictionary, is_key, key_index};
use crate::lex::{Token, TokenQueue, TOKEN_QUEUE_SIZE};
use crate::text::{Utf8Str, BUF_SIZE, lemma_encode_concat};
use crate::writer::{Writer, append_bounded, lemma_append_bounded_twice};

verus! {

broadcast use vstd::seq_lib::group_seq_properties;

/// The choice a space or digit picks (counting from 1); 0 for other characters.
pub open spec fn pick_number(c: char) -> nat {
    if c == ' ' || c == '1' {
        1
    } else if c == '2' {
        2
    } else if c == '3' {
        3
    } else if c == '4' {
        4
    } else if c == '5' {
        5
    } else if c == '6' {
        6
    } else if c == '7' {
        7
    } else if c == '8' {
        8
    } else if c == '9' {
        9
    } else {
        0
    }
}

/// A space or a digit `1`..`9`.
pub open spec fn is_choice_char(c: char) -> bool {
    pick_number(c) > 0
}

/// The token of an unmatched character.
pub open spec fn char_token(c: char) -> Token {
    if is_choice_char(c) {
        Token::MaybeChoice(c)
    } else {
        Token::Other(c)
    }
}

/// The token of a dictionary hit on entry `i`.
pub open spec fn hit_token(d: &Dictionary, i: int) -> Token {
    if d.candidates(i).len() > 1 {
        Token::CiOpenChoice(i as usize)
    } else {
        Token::CiOne(i as usize)
    }
}

/// The length of the longest key among `text[p, p + m)` for `0 < m <= w`,
/// trying the longest first; 0 when none is a key.
pub open spec fn longest_key_len(keys: Seq<Seq<char>>, text: Seq<char>, p: int, w: nat) -> nat
    decreases w,
{
    if w == 0 {
        0
    } else if is_key(keys, text.subrange(p, p + w)) {
        w
    } else {
        longest_key_len(keys, text, p, (w - 1) as nat)
    }
}

/// The search window at `p`: the longest key length, cut at the end of the text.
pub open spec fn window(d: &Dictionary, text: Seq<char>, p: int) -> nat {
    if p + d.max_key_len() <= text.len() {
        d.max_key_len()
    } else {
        (text.len() - p) as nat
    }
}

/// The tokens of `text` from character `p` on.
pub open spec fn segment_from(d: &Dictionary, text: Seq<char>, p: int) -> Seq<Token>
    decreases text.len() - p,
{
    if p < 0 || p >= text.len() {
        Seq::<Token>::empty()
    } else {
        let n = longest_key_len(d.keys(), text, p, window(d, text, p));
        if n > 0 {
            proof {
                lemma_longest_key_len(d.keys(), text, p, window(d, text, p));
            }
            seq![hit_token(d, key_index(d.keys(), text.subrange(p, p + n)))] + segment_from(
                d,
                text,
                p + n,
            )
        } else {
            seq![char_token(text[p])] + segment_from(d, text, p + 1)
        }
    }
}

/// The tokens of `text`.
pub open spec fn segment(d: &Dictionary, text: Seq<char>) -> Seq<Token> {
    segment_from(d, text, 0)
}

/// The label shown before candidate `k` (counting from 0) in a prompt.
pub open spec fn choice_label(k: int) -> char {
    if k <= 0 {
        '1'
    } else if k == 1 {
        '2'
    } else if k == 2 {
        '3'
    } else if k == 3 {
        '4'
    } else if k == 4 {
        '5'
    } else if k == 5 {
        '6'
    } else if k == 6 {
        '7'
    } else if k == 7 {
        '8'
    } else {
        '9'
    }
}

/// Candidate `k` in a prompt: its label, its text, and a space unless it is last.
pub open spec fn prompt_item(cands: Seq<Seq<char>>, k: int) -> Seq<char> {
    seq![choice_label(k)] + cands[k] + if k + 1 < cands.len() {
        seq![' ']
    } else {
        Seq::<char>::empty()
    }
}

/// The first `k` items of a prompt.
pub open spec fn prompt_items(cands: Seq<Seq<char>>, k: nat) -> Seq<char>
    decreases k,
{
    if k == 0 {
        Seq::<char>::empty()
    } else {
        prompt_items(cands, (k - 1) as nat) + prompt_item(cands, k - 1)
    }
}

/// The prompt that lists all candidates: `(1a 2b) `.
pub open spec fn choice_prompt(cands: Seq<Seq<char>>) -> Seq<char> {
    seq!['('] + prompt_items(cands, cands.len()) + seq![')', ' ']
}

/// What an open choice on entry `i` writes when `choice` is the first space or
/// digit after it, and whether that choice is used up.
pub open spec fn resolve_choice(d: &Dictionary, i: int, choice: Option<char>) -> (Seq<char>, bool) {
    let cands = d.candidates(i);
    if cands.len() < 2 {
        (d.values()[i], false)
    } else {
        match choice {
            Some(ch) => if 1 <= pick_number(ch) <= cands.len() {
                (cands[pick_number(ch) - 1], true)
            } else {
                (choice_prompt(cands), false)
            },
            None => (choice_prompt(cands), false),
        }
    }
}

/// The position of the first `MaybeChoice` token at or after `from`.
pub open spec fn first_maybe_choice(toks: Seq<Token>, from: int) -> Option<int>
    decreases toks.len() - from,
{
    if from < 0 || from >= toks.len() {
        None
    } else if toks[from] is MaybeChoice {
        Some(from)
    } else {
        first_maybe_choice(toks, from + 1)
    }
}

/// The character of a `MaybeChoice` token.
pub open spec fn choice_char(t: Token) -> char {
    match t {
        Token::MaybeChoice(c) => c,
        _ => ' ',
    }
}

/// The text written for token `c`, and the token it uses up, if any.
pub open spec fn token_output(d: &Dictionary, toks: Seq<Token>, c: int) -> (Seq<char>, Option<int>) {
    match toks[c] {
        Token::CiOne(i) => (d.values()[i as int], None),
        Token::CiOpenChoice(i) => {
            let found = first_maybe_choice(toks, c);
            let choice = match found {
                Some(j) => Some(choice_char(toks[j])),
                None => None,
            };
            let r = resolve_choice(d, i as int, choice);
            (r.0, if r.1 {
                found
            } else {
                None
            })
        },
        Token::MaybeChoice(ch) => (seq![ch], None),
        Token::Other(ch) => (seq![ch], None),
        Token::Skip => (Seq::<char>::empty(), None),
    }
}

/// The tokens with token `j` marked as used up.
pub open spec fn consume(toks: Seq<Token>, used: Option<int>) -> Seq<Token> {
    match used {
        Some(j) => if 0 <= j < toks.len() {
            toks.update(j, Token::Skip)
        } else {
            toks
        },
        None => toks,
    }
}

/// Rendering from token `c` on: the text written and the tokens left.
pub open spec fn render_from(d: &Dictionary, toks: Seq<Token>, c: int) -> (Seq<char>, Seq<Token>)
    decreases toks.len() - c,
{
    if c < 0 || c >= toks.len() {
        (Seq::<char>::empty(), toks)
    } else {
        let step = token_output(d, toks, c);
        let rest = render_from(d, consume(toks, step.1), c + 1);
        (step.0 + rest.0, rest.1)
    }
}

/// The text rendered for a token sequence.
pub open spec fn render_text(d: &Dictionary, toks: Seq<Token>) -> Seq<char> {
    render_from(d, toks, 0).0
}

/// Every dictionary token names an entry of `d`.
pub open spec fn refs_valid(d: &Dictionary, toks: Seq<Token>) -> bool {
    forall|k: int|
        0 <= k < toks.len() ==> match #[trigger] toks[k] {
            Token::CiOne(i) => i < d.keys().len(),
            Token::CiOpenChoice(i) => i < d.keys().len(),
            _ => true,
        }
}

/// The part of a query that is read: at most `BUF_SIZE` characters.
pub open spec fn truncate_query(q: Seq<char>) -> Seq<char> {
    if q.len() <= BUF_SIZE {
        q
    } else {
        q.take(BUF_SIZE as int)
    }
}

/// The reply to query `q`.
pub open spec fn reply_text(d: &Dictionary, q: Seq<char>) -> Seq<char> {
    render_text(d, segment(d, truncate_query(q)))
}

// ---------------------------------------------------------------- lemmas

proof fn lemma_write_more(c0: Seq<u8>, w: Seq<char>, m: Seq<char>, cap: nat)
    ensures
        append_bounded(append_bounded(c0, encode_utf8(w), cap), encode_utf8(m), cap)
            == append_bounded(c0, encode_utf8(w + m), cap),
{
    lemma_append_bounded_twice(c0, encode_utf8(w), encode_utf8(m), cap);
    lemma_encode_concat(w, m);
}

/// The longest match is no longer than the window, and is a key when there is one.
pub proof fn lemma_longest_key_len(keys: Seq<Seq<char>>, text: Seq<char>, p: int, w: nat)
    ensures
        longest_key_len(keys, text, p, w) <= w,
        longest_key_len(keys, text, p, w) > 0 ==> is_key(
            keys,
            text.subrange(p, p + longest_key_len(keys, text, p, w)),
        ),
    decreases w,
{
    if w > 0 {
        lemma_longest_key_len(keys, text, p, (w - 1) as nat);
    }
}

/// No key within the window is longer than the longest match.
pub proof fn lemma_longest_is_longest(keys: Seq<Seq<char>>, text: Seq<char>, p: int, w: nat, m: nat)
    requires
        0 < m <= w,
        is_key(keys, text.subrange(p, p + m)),
    ensures
        m <= longest_key_len(keys, text, p, w),
    decreases w,
{
    if w > m && !is_key(keys, text.subrange(p, p + w)) {
        lemma_longest_is_longest(keys, text, p, (w - 1) as nat, m);
    }
}

proof fn lemma_longest_same_text(keys: Seq<Seq<char>>, t1: Seq<char>, t2: Seq<char>, p: int, w: nat)
    requires
        0 <= p,
        p + w <= t1.len(),
        p + w <= t2.len(),
        forall|k: int| p <= k < p + w ==> t1[k] == t2[k],
    ensures
        longest_key_len(keys, t1, p, w) == longest_key_len(keys, t2, p, w),
    decreases w,
{
    if w > 0 {
        assert(t1.subrange(p, p + w) =~= t2.subrange(p, p + w));
        lemma_longest_same_text(keys, t1, t2, p, (w - 1) as nat);
    }
}

/// Segmentation gives at most one token per character, each naming an entry of the dictionary.
pub proof fn lemma_segment_shape(d: &Dictionary, text: Seq<char>, p: int)
    requires
        d.wf(),
        0 <= p <= text.len(),
    ensures
        segment_from(d, text, p).len() <= text.len() - p,
        refs_valid(d, segment_from(d, text, p)),
    decreases text.len() - p,
{
    if p < text.len() {
        let w = window(d, text, p);
        let n = longest_key_len(d.keys(), text, p, w);
        lemma_longest_key_len(d.keys(), text, p, w);
        let next = if n > 0 {
            p + n
        } else {
            p + 1
        };
        lemma_segment_shape(d, text, next);
        let head = if n > 0 {
            hit_token(d, key_index(d.keys(), text.subrange(p, p + n)))
        } else {
            char_token(text[p])
        };
        let s = segment_from(d, text, p);
        assert(s == seq![head] + segment_from(d, text, next));
        assert forall|k: int| 0 <= k < s.len() implies match #[trigger] s[k] {
            Token::CiOne(i) => i < d.keys().len(),
            Token::CiOpenChoice(i) => i < d.keys().len(),
            _ => true,
        } by {
            if k > 0 {
                assert(s[k] == segment_from(d, text, next)[k - 1]);
            }
        }
    }
}

// ---------------------------------------------------------------- exec

/// The smaller of two numbers.
pub fn min(a: usize, b: usize) -> (r: usize)
    ensures
        r == if a < b {
            a
        } else {
            b
        },
{
    if a < b {
        a
    } else {
        b
    }
}

/// Whether `c` may pick a choice, and which.
fn pick_of(c: char) -> (r: usize)
    ensures
        r == pick_number(c),
{
    match c {
        ' ' => 1,
        '1' => 1,
        '2' => 2,
        '3' => 3,
        '4' => 4,
        '5' => 5,
        '6' => 6,
        '7' => 7,
        '8' => 8,
        '9' => 9,
        _ => 0,
    }
}

/// Relies on char::encode_utf8: the text it returns is the one character.
#[verifier::external_body]
fn char_text(c: char, buf: &mut [u8; 4]) -> (r: &str)
    ensures
        r@ == seq![c],
{
    c.encode_utf8(buf)
}

/// The label text of candidate `k` (counting from 0).
fn label_text(k: usize) -> (r: &'static str)
    ensures
        r@ == seq![choice_label(k as int)],
{
    proof {
        reveal_strlit("1");
        reveal_strlit("2");
        reveal_strlit("3");
        reveal_strlit("4");
        reveal_strlit("5");
        reveal_strlit("6");
        reveal_strlit("7");
        reveal_strlit("8");
        reveal_strlit("9");
    }
    match k {
        0 => "1",
        1 => "2",
        2 => "3",
        3 => "4",
        4 => "5",
        5 => "6",
        6 => "7",
        7 => "8",
        _ => "9",
    }
}

/// Finds the longest key that is a prefix of `query[start, end)` (with `end`
/// cut at the character count), trying the longest window first: the entry
/// and the end of the match.
pub fn longest_match(d: &Dictionary, query: &Utf8Str, start: usize, end: usize) -> (r: Option<(usize, usize)>)
    requires
        d.wf(),
        query.wf(),
    ensures
        ({
            let e = if end < query@.len() {
                end as int
            } else {
                query@.len() as int
            };
            let n = if start < e {
                longest_key_len(d.keys(), query@, start as int, (e - start) as nat)
            } else {
                0
            };
            &&& n == 0 ==> r is None
            &&& n > 0 ==> (r matches Some(x) && x.0 == key_index(
                d.keys(),
                query@.subrange(start as int, start + n),
            ) && x.1 == start + n)
        }),
{
    let mut e = min(query.char_count(), end);
    let ghost e0 = e as int;
    while e > start
        invariant
            d.wf(),
            query.wf(),
            e <= query@.len(),
            e0 == if end < query@.len() {
                end as int
            } else {
                query@.len() as int
            },
            e <= e0,
            start < e0 ==> start <= e,
            start < e0 ==> longest_key_len(d.keys(), query@, start as int, (e0 - start) as nat)
                == longest_key_len(d.keys(), query@, start as int, (e - start) as nat),
        decreases e,
    {
        if let Some(query_slice) = query.char_slice(start, e) {
            if let Some(i) = d.find(query_slice) {
                proof {
                    let w = (e - start) as nat;
                    assert(query@.subrange(start as int, start + w) == query_slice@);
                    assert(is_key(d.keys(), query@.subrange(start as int, start + w)));
                    assert(longest_key_len(d.keys(), query@, start as int, w) == w);
                    assert(start < e0);
                    assert(longest_key_len(d.keys(), query@, start as int, (e0 - start) as nat) == w);
                    assert(i == key_index(d.keys(), query@.subrange(start as int, start + w)));
                    assert(e == start + w);
                }
                return Some((i, e));
            }
        }
        e = e - 1;
    }
    None
}

/// Appends the tokens of `query[start, end)` to `queue`; tokens that find
/// the queue full are dropped.
pub fn search(d: &Dictionary, query: &Utf8Str, queue: &mut TokenQueue, start: usize, end: usize)
    requires
        d.wf(),
        query.wf(),
        start <= end <= query@.len(),
    ensures
        final(queue)@ == append_bounded(
            old(queue)@,
            segment_from(d, query@.take(end as int), start as int),
            TOKEN_QUEUE_SIZE as nat,
        ),
{
    let ghost t = query@.take(end as int);
    let ghost q0 = old(queue)@;
    let ghost done = Seq::<Token>::empty();
    let max_len = d.max_key_length();
    let mut p = start;
    assert(done + segment_from(d, t, start as int) =~= segment_from(d, t, start as int));
    proof {
        crate::writer::lemma_append_bounded_empty(q0, TOKEN_QUEUE_SIZE as nat);
    }
    while p < end
        invariant
            d.wf(),
            query.wf(),
            max_len == d.max_key_len(),
            start <= p <= end,
            end <= query@.len(),
            t == query@.take(end as int),
            segment_from(d, t, start as int) == done + segment_from(d, t, p as int),
            queue@ == append_bounded(q0, done, TOKEN_QUEUE_SIZE as nat),
        decreases end - p,
    {
        let window_end = if max_len < end - p {
            p + max_len
        } else {
            end
        };
        let ghost w = window(d, t, p as int);
        let ghost before = segment_from(d, t, p as int);
        proof {
            assert(window_end - p == w);
            lemma_longest_same_text(d.keys(), query@, t, p as int, w);
            lemma_longest_key_len(d.keys(), query@, p as int, w);
        }
        if let Some((ciyu_i, match_end)) = longest_match(d, query, p, window_end) {
            let tk = if d.candidate_count(ciyu_i) > 1 {
                Token::CiOpenChoice(ciyu_i)
            } else {
                Token::CiOne(ciyu_i)
            };
            proof {
                let n = longest_key_len(d.keys(), t, p as int, w);
                assert(t.subrange(p as int, p + n) =~= query@.subrange(p as int, p + n));
                assert(tk == hit_token(d, key_index(d.keys(), t.subrange(p as int, p + n))));
                assert(before == seq![tk] + segment_from(d, t, match_end as int));
                lemma_append_bounded_twice(q0, done, seq![tk], TOKEN_QUEUE_SIZE as nat);
                assert(done + before =~= done.push(tk) + segment_from(d, t, match_end as int));
                assert(done + seq![tk] =~= done.push(tk));
                done = done.push(tk);
            }
            let _ = queue.push(tk);
            p = match_end;
        } else {
            // p < end <= char count, so the slice is always there.
            let c = match query.char_slice(p, p + 1) {
                Some(s) => s.get_char(0),
                None => ' ',
            };
            let tk = if pick_of(c) > 0 {
                Token::MaybeChoice(c)
            } else {
                Token::Other(c)
            };
            proof {
                assert(c == t[p as int]);
                assert(before == seq![tk] + segment_from(d, t, p + 1));
                lemma_append_bounded_twice(q0, done, seq![tk], TOKEN_QUEUE_SIZE as nat);
                assert(done + before =~= done.push(tk) + segment_from(d, t, p + 1));
                assert(done + seq![tk] =~= done.push(tk));
                done = done.push(tk);
            }
            let _ = queue.push(tk);
            p = p + 1;
        }
    }
    assert(segment_from(d, t, end as int) =~= Seq::<Token>::empty());
    assert(done + Seq::<Token>::empty() =~= done);
}

/// Whether the choice handed to an open choice resolved it.
pub enum ExpandChoiceResult {
    WasChoice,
    WasNotChoice,
}

/// The position of the first `MaybeChoice` token at or after `from`.
fn find_maybe_choice(queue: &TokenQueue, from: usize) -> (r: Option<usize>)
    ensures
        match r {
            Some(j) => first_maybe_choice(queue@, from as int) == Some(j as int) && j < queue@.len()
                && queue@[j as int] is MaybeChoice,
            None => first_maybe_choice(queue@, from as int) is None,
        },
{
    let n = queue.count();
    let mut k = from;
    while k < n
        invariant
            n == queue@.len(),
            from <= k,
            first_maybe_choice(queue@, from as int) == first_maybe_choice(queue@, k as int),
        decreases n - k,
    {
        if let Token::MaybeChoice(_) = queue.get(k) {
            return Some(k);
        }
        k = k + 1;
    }
    None
}

/// Writes the prompt that lists every candidate of entry `ciyu_i`.
fn write_prompt<W: Writer>(d: &Dictionary, ciyu_i: usize, sink: &mut W)
    requires
        d.wf(),
        ciyu_i < d.keys().len(),
    ensures
        final(sink).capacity() == old(sink).capacity(),
        final(sink).contents() == append_bounded(
            old(sink).contents(),
            encode_utf8(choice_prompt(d.candidates(ciyu_i as int))),
            old(sink).capacity(),
        ),
{
    let ghost cands = d.candidates(ciyu_i as int);
    let ghost c0 = sink.contents();
    let ghost cap = sink.capacity();
    let ghost written = Seq::<char>::empty();
    proof {
        reveal_strlit("(");
        reveal_strlit(" ");
        reveal_strlit(") ");
        assert("("@ =~= seq!['(']);
        assert(" "@ =~= seq![' ']);
        assert(") "@ =~= seq![')', ' ']);
        crate::writer::lemma_append_bounded_empty(c0, cap);
        assert(encode_utf8(written) =~= Seq::<u8>::empty());
        assert(c0 + Seq::<u8>::empty() =~= c0);
    }
    sink.write("(");
    proof {
        lemma_write_more(c0, written, seq!['('], cap);
        written = written + seq!['('];
        assert(written =~= seq!['('] + prompt_items(cands, 0));
    }
    let n = d.candidate_count(ciyu_i);
    let mut k: usize = 0;
    while k < n
        invariant
            d.wf(),
            ciyu_i < d.keys().len(),
            cands == d.candidates(ciyu_i as int),
            n == cands.len(),
            k <= n,
            written == seq!['('] + prompt_items(cands, k as nat),
            sink.capacity() == cap,
            sink.contents() == append_bounded(c0, encode_utf8(written), cap),
        decreases n - k,
    {
        let ghost before = written;
        let label = label_text(k);
        sink.write(label);
        proof {
            lemma_write_more(c0, written, label@, cap);
            written = written + label@;
        }
        let cand = d.candidate(ciyu_i, k);
        sink.write(cand);
        proof {
            lemma_write_more(c0, written, cand@, cap);
            written = written + cand@;
        }
        if k + 1 < n {
            sink.write(" ");
            proof {
                reveal_strlit(" ");
                assert(" "@ =~= seq![' ']);
                lemma_write_more(c0, written, seq![' '], cap);
                written = written + seq![' '];
            }
        }
        proof {
            assert(written =~= before + prompt_item(cands, k as int));
            assert(prompt_items(cands, (k + 1) as nat) == prompt_items(cands, k as nat) + prompt_item(cands, k as int));
            assert(written =~= seq!['('] + prompt_items(cands, (k + 1) as nat));
        }
        k = k + 1;
    }
    sink.write(") ");
    proof {
        lemma_write_more(c0, written, seq![')', ' '], cap);
        assert(written + seq![')', ' '] =~= choice_prompt(cands));
    }
}

/// Writes what an open choice on entry `ciyu_i` renders when `maybe_choice` is
/// the first space or digit after it (`None`: there is none), and says whether
/// that choice picked a candidate.
pub fn expand_choice_and_write<W: Writer>(
    d: &Dictionary,
    ciyu_i: usize,
    maybe_choice: Option<char>,
    sink: &mut W,
) -> (r: ExpandChoiceResult)
    requires
        d.wf(),
        ciyu_i < d.keys().len(),
    ensures
        (r is WasChoice) == resolve_choice(d, ciyu_i as int, maybe_choice).1,
        final(sink).capacity() == old(sink).capacity(),
        final(sink).contents() == append_bounded(
            old(sink).contents(),
            encode_utf8(resolve_choice(d, ciyu_i as int, maybe_choice).0),
            old(sink).capacity(),
        ),
{
    let n = d.candidate_count(ciyu_i);
    if n < 2 {
        // An open choice on a single candidate is a segmentation defect: report it
        // and write the value as it is.
        sink.trace(901);
        sink.write(d.value(ciyu_i));
        return ExpandChoiceResult::WasNotChoice;
    }
    if let Some(ch) = maybe_choice {
        let pick = pick_of(ch);
        if pick > 0 && pick <= n {
            sink.write(d.candidate(ciyu_i, pick - 1));
            return ExpandChoiceResult::WasChoice;
        }
    }
    write_prompt(d, ciyu_i, sink);
    ExpandChoiceResult::WasNotChoice
}

impl TokenQueue {
    /// Renders the tokens in order to `sink`: an open choice takes the first
    /// later space or digit as its pick and marks it used; unused spaces,
    /// digits and other characters are written as they are.
    pub fn render_and_write<W: Writer>(&mut self, d: &Dictionary, sink: &mut W)
        requires
            d.wf(),
            refs_valid(d, old(self)@),
        ensures
            final(self)@ == render_from(d, old(self)@, 0).1,
            final(sink).capacity() == old(sink).capacity(),
            final(sink).contents() == append_bounded(
                old(sink).contents(),
                encode_utf8(render_text(d, old(self)@)),
                old(sink).capacity(),
            ),
    {
        let ghost toks0 = self@;
        let ghost c0 = sink.contents();
        let ghost cap = sink.capacity();
        let ghost written = Seq::<char>::empty();
        let mut utf8_buf = [0u8; 4];
        let mut current: usize = 0;
        proof {
            crate::writer::lemma_append_bounded_empty(c0, cap);
            assert(encode_utf8(written) =~= Seq::<u8>::empty());
            assert(c0 + Seq::<u8>::empty() =~= c0);
            assert(written + render_from(d, toks0, 0).0 =~= render_from(d, toks0, 0).0);
        }
        while current < self.count()
            invariant
                d.wf(),
                refs_valid(d, self@),
                self@.len() == toks0.len(),
                render_from(d, toks0, 0) == (
                    written + render_from(d, self@, current as int).0,
                    render_from(d, self@, current as int).1,
                ),
                sink.capacity() == cap,
                sink.contents() == append_bounded(c0, encode_utf8(written), cap),
            decreases toks0.len() - current,
        {
            let ghost toks = self@;
            let ghost step = token_output(d, toks, current as int);
            let ghost rest = render_from(d, consume(toks, step.1), current + 1);
            assert(render_from(d, toks, current as int) == (step.0 + rest.0, rest.1));
            match self.get(current) {
                Token::CiOne(i) => {
                    sink.write(d.value(i));
                },
                Token::CiOpenChoice(i) => {
                    let found = find_maybe_choice(self, current);
                    let choice = match found {
                        Some(j) => match self.get(j) {
                            Token::MaybeChoice(ch) => Some(ch),
                            _ => None,
                        },
                        None => None,
                    };
                    let r = expand_choice_and_write(d, i, choice, sink);
                    if let ExpandChoiceResult::WasChoice = r {
                        if let Some(j) = found {
                            self.set(j, Token::Skip);
                        }
                    }
                },
                Token::MaybeChoice(ch) => {
                    sink.write(char_text(ch, &mut utf8_buf));
                },
                Token::Other(ch) => {
                    sink.write(char_text(ch, &mut utf8_buf));
                },
                Token::Skip => {
                    proof {
                        crate::writer::lemma_append_bounded_empty(sink.contents(), cap);
                        assert(encode_utf8(step.0) =~= Seq::<u8>::empty());
                        assert(sink.contents() + Seq::<u8>::empty() =~= sink.contents());
                    }
                },
            }
            proof {
                assert(self@ == consume(toks, step.1));
                lemma_write_more(c0, written, step.0, cap);
                assert(written + (step.0 + rest.0) =~= (written + step.0) + rest.0);
                written = written + step.0;
                assert forall|k: int| 0 <= k < self@.len() implies match #[trigger] self@[k] {
                    Token::CiOne(i) => i < d.keys().len(),
                    Token::CiOpenChoice(i) => i < d.keys().len(),
                    _ => true,
                } by {
                    if self@[k] != toks[k] {
                        assert(self@[k] == Token::Skip);
                    }
                }
            }
            current = current + 1;
        }
        assert(written + Seq::<char>::empty() =~= written);
    }
}

/// Segments `query_bytes` (its first `BUF_SIZE` characters) and renders the
/// reply to `sink`.
pub fn look_up<W: Writer>(d: &Dictionary, query_bytes: &str, sink: &mut W)
    requires
        d.wf(),
    ensures
        final(sink).capacity() == old(sink).capacity(),
        final(sink).contents() == append_bounded(
            old(sink).contents(),
            encode_utf8(reply_text(d, query_bytes@)),
            old(sink).capacity(),
        ),
{
    let query = Utf8Str::new(query_bytes);
    let mut queue = TokenQueue::new();
    let start: usize = 0;
    let end = query.char_count();
    search(d, &query, &mut queue, start, end);
    proof {
        let t = query@.take(end as int);
        assert(t =~= query@);
        assert(query@ =~= truncate_query(query_bytes@));
        lemma_segment_shape(d, t, 0);
        assert(Seq::<Token>::empty() + segment(d, t) =~= segment(d, t));
    }
    queue.render_and_write(d, sink);
}

/// Looks up `qry`, writes the reply to `sink`, and returns the sink's text.
pub fn query<'a, W: Writer>(d: &Dictionary, qry: &str, sink: &'a mut W) -> (r: &'a str)
    requires
        d.wf(),
    ensures
        final(sink).capacity() == old(sink).capacity(),
        final(sink).contents() == append_bounded(
            old(sink).contents(),
            encode_utf8(reply_text(d, qry@)),
            old(sink).capacity(),
        ),
        valid_utf8(final(sink).contents()) ==> r@ == decode_utf8(final(sink).contents()),
        !valid_utf8(final(sink).contents()) ==> r@ == Seq::<char>::empty(),
{
    look_up(d, qry, sink);
    sink.to_s()
}

} // verus!
