//! Properties of the reply as a whole, proved from the definitions of
//! segmentation and rendering.
use vstd::prelude::*;
use crate::dict::{Dictionary, is_key, key_index, lemma_sorted_unique};
use crate::engine::{
    choice_prompt, first_maybe_choice, hit_token, is_choice_char, lemma_longest_is_longest,
    lemma_longest_key_len, longest_key_len, pick_number, render_from, reply_text, segment,
    segment_from, token_output, truncate_query, window, char_token,
};
use crate::lex::Token;
use crate::text::BUF_SIZE;

verus! {

broadcast use vstd::seq_lib::group_seq_properties;

proof fn lemma_longest_exact(keys: Seq<Seq<char>>, text: Seq<char>, p: int, w: nat, m: nat)
    requires
        0 < m <= w,
        is_key(keys, text.subrange(p, p + m)),
        forall|m2: nat| m < m2 <= w ==> !is_key(keys, #[trigger] text.subrange(p, p + m2 as int)),
    ensures
        longest_key_len(keys, text, p, w) == m,
    decreases w,
{
    if w > m {
        assert(!is_key(keys, text.subrange(p, p + w)));
        lemma_longest_exact(keys, text, p, (w - 1) as nat, m);
    }
}

proof fn lemma_no_match(keys: Seq<Seq<char>>, text: Seq<char>, p: int, w: nat)
    requires
        0 <= p < text.len(),
        p + w <= text.len(),
        forall|k: int, j: int|
            0 <= k < keys.len() && 0 <= j < keys[k].len() ==> #[trigger] keys[k][j] != text[p],
    ensures
        longest_key_len(keys, text, p, w) == 0,
    decreases w,
{
    if w > 0 {
        if is_key(keys, text.subrange(p, p + w)) {
            let k = choose|k: int| 0 <= k < keys.len() && keys[k] == text.subrange(p, p + w);
            assert(keys[k][0] == text[p]);
        }
        lemma_no_match(keys, text, p, (w - 1) as nat);
    }
}

proof fn lemma_segment_passthrough(d: &Dictionary, text: Seq<char>, p: int)
    requires
        0 <= p <= text.len(),
        forall|i: int, k: int, j: int|
            0 <= i < text.len() && 0 <= k < d.keys().len() && 0 <= j < d.keys()[k].len()
                ==> #[trigger] d.keys()[k][j] != #[trigger] text[i],
    ensures
        segment_from(d, text, p) == text.subrange(p, text.len() as int).map_values(
            |c: char| char_token(c),
        ),
    decreases text.len() - p,
{
    if p < text.len() {
        lemma_no_match(d.keys(), text, p, window(d, text, p));
        lemma_segment_passthrough(d, text, p + 1);
        assert(segment_from(d, text, p) =~= text.subrange(p, text.len() as int).map_values(
            |c: char| char_token(c),
        ));
    } else {
        assert(text.subrange(p, p).map_values(|c: char| char_token(c)) =~= Seq::<Token>::empty());
    }
}

proof fn lemma_render_chars(d: &Dictionary, chars: Seq<char>, c: int)
    requires
        0 <= c <= chars.len(),
    ensures
        render_from(d, chars.map_values(|ch: char| char_token(ch)), c) == (
            chars.subrange(c, chars.len() as int),
            chars.map_values(|ch: char| char_token(ch)),
        ),
    decreases chars.len() - c,
{
    let toks = chars.map_values(|ch: char| char_token(ch));
    if c < chars.len() {
        lemma_render_chars(d, chars, c + 1);
        assert(token_output(d, toks, c) == (seq![chars[c]], None::<int>));
        assert(chars.subrange(c, chars.len() as int) =~= seq![chars[c]] + chars.subrange(
            c + 1,
            chars.len() as int,
        ));
    } else {
        assert(chars.subrange(c, c) =~= Seq::<char>::empty());
    }
}

/// The empty query gets the empty reply.
pub proof fn lemma_empty_query(d: &Dictionary)
    ensures
        reply_text(d, Seq::<char>::empty()) == Seq::<char>::empty(),
{
    assert(truncate_query(Seq::<char>::empty()) == Seq::<char>::empty());
    assert(segment(d, Seq::<char>::empty()) == Seq::<Token>::empty());
}

/// A query that shares no character with any key comes back unchanged, cut
/// to `BUF_SIZE` characters: spaces and digits with no open choice before
/// them pass through like any other character.
pub proof fn lemma_passthrough(d: &Dictionary, text: Seq<char>)
    requires
        forall|i: int, k: int, j: int|
            0 <= i < text.len() && 0 <= k < d.keys().len() && 0 <= j < d.keys()[k].len()
                ==> #[trigger] d.keys()[k][j] != #[trigger] text[i],
    ensures
        reply_text(d, text) == truncate_query(text),
{
    let t = truncate_query(text);
    assert forall|i: int, k: int, j: int|
        0 <= i < t.len() && 0 <= k < d.keys().len() && 0 <= j < d.keys()[k].len()
            implies #[trigger] d.keys()[k][j] != #[trigger] t[i] by {
        assert(t[i] == text[i]);
    }
    lemma_segment_passthrough(d, t, 0);
    assert(t.subrange(0, t.len() as int) =~= t);
    lemma_render_chars(d, t, 0);
}

/// Input beyond `BUF_SIZE` characters is dropped before segmentation: the
/// reply is that of the first `BUF_SIZE` characters, and a query within the
/// limit is read whole.
pub proof fn lemma_truncation(d: &Dictionary, text: Seq<char>)
    ensures
        reply_text(d, text) == reply_text(d, truncate_query(text)),
        text.len() <= BUF_SIZE ==> truncate_query(text) == text,
{
    assert(truncate_query(truncate_query(text)) =~= truncate_query(text));
}

/// Segmentation of a key alone: one hit on its entry.
proof fn lemma_key_alone(d: &Dictionary, i: int)
    requires
        d.wf(),
        0 <= i < d.keys().len(),
        0 < d.keys()[i].len() <= BUF_SIZE,
    ensures
        truncate_query(d.keys()[i]) == d.keys()[i],
        segment(d, d.keys()[i]) == seq![hit_token(d, i)],
{
    d.lemma_wf();
    let t = d.keys()[i];
    let n = t.len();
    assert(window(d, t, 0) == n);
    assert(t.subrange(0, n as int) =~= t);
    assert(is_key(d.keys(), t));
    lemma_longest_exact(d.keys(), t, 0, n, n);
    lemma_sorted_unique(d.keys(), key_index(d.keys(), t), i);
    assert(segment_from(d, t, n as int) == Seq::<Token>::empty());
    assert(segment(d, t) =~= seq![hit_token(d, i)]);
}

/// Segmentation of a key followed by a space or digit that neither extends
/// it into a key nor is a key itself: the hit, then the choice character.
proof fn lemma_key_then_choice(d: &Dictionary, i: int, ch: char)
    requires
        d.wf(),
        0 <= i < d.keys().len(),
        0 < d.keys()[i].len() < BUF_SIZE,
        is_choice_char(ch),
        !is_key(d.keys(), d.keys()[i].push(ch)),
        !is_key(d.keys(), seq![ch]),
    ensures
        truncate_query(d.keys()[i].push(ch)) == d.keys()[i].push(ch),
        segment(d, d.keys()[i].push(ch)) == seq![hit_token(d, i), Token::MaybeChoice(ch)],
{
    d.lemma_wf();
    let key = d.keys()[i];
    let t = key.push(ch);
    let n = key.len() as int;
    assert(t.subrange(0, n as int) =~= key);
    assert(t.subrange(0, n + 1) =~= t);
    assert(is_key(d.keys(), key));
    let w = window(d, t, 0);
    assert(n <= w <= n + 1);
    assert forall|m2: nat| n < m2 <= w implies !is_key(d.keys(), #[trigger] t.subrange(0, 0 + m2 as int)) by {
        assert(m2 == n + 1);
    }
    lemma_longest_exact(d.keys(), t, 0, w, n as nat);
    lemma_sorted_unique(d.keys(), key_index(d.keys(), key), i);
    assert(window(d, t, n) == 1);
    assert(t.subrange(n, n + 1) =~= seq![ch]);
    assert(longest_key_len(d.keys(), t, n, 0) == 0);
    assert(!is_key(d.keys(), t.subrange(n, n + 1)));
    assert(longest_key_len(d.keys(), t, n, 1) == 0);
    assert(segment_from(d, t, n + 1) == Seq::<Token>::empty());
    assert(segment_from(d, t, n) =~= seq![Token::MaybeChoice(ch)]);
    assert(segment(d, t) =~= seq![hit_token(d, i), Token::MaybeChoice(ch)]);
}

/// A key with a single candidate renders as that candidate's value, with no
/// prompt around it.
pub proof fn lemma_single_candidate(d: &Dictionary, i: int)
    requires
        d.wf(),
        0 <= i < d.keys().len(),
        0 < d.keys()[i].len() <= BUF_SIZE,
        d.candidates(i).len() == 1,
    ensures
        reply_text(d, d.keys()[i]) == d.values()[i],
{
    d.lemma_wf();
    lemma_key_alone(d, i);
    let toks = seq![Token::CiOne(i as usize)];
    assert(render_from(d, toks, 1) == (Seq::<char>::empty(), toks));
    assert(d.values()[i] + Seq::<char>::empty() =~= d.values()[i]);
}

/// A key with several candidates and nothing after it renders as the prompt
/// that lists them.
pub proof fn lemma_open_choice_alone(d: &Dictionary, i: int)
    requires
        d.wf(),
        0 <= i < d.keys().len(),
        0 < d.keys()[i].len() <= BUF_SIZE,
        d.candidates(i).len() >= 2,
    ensures
        reply_text(d, d.keys()[i]) == choice_prompt(d.candidates(i)),
{
    d.lemma_wf();
    lemma_key_alone(d, i);
    let toks = seq![Token::CiOpenChoice(i as usize)];
    assert(first_maybe_choice(toks, 1) is None);
    assert(first_maybe_choice(toks, 0) is None);
    assert(render_from(d, toks, 1) == (Seq::<char>::empty(), toks));
    assert(choice_prompt(d.candidates(i)) + Seq::<char>::empty() =~= choice_prompt(d.candidates(i)));
}

/// A key with several candidates followed by a space or digit: a pick within
/// the candidates (a space picks the first) renders that candidate alone; a
/// pick beyond them leaves the prompt, and the digit passes through after it.
pub proof fn lemma_choice_pick(d: &Dictionary, i: int, ch: char)
    requires
        d.wf(),
        0 <= i < d.keys().len(),
        0 < d.keys()[i].len() < BUF_SIZE,
        d.candidates(i).len() >= 2,
        is_choice_char(ch),
        !is_key(d.keys(), d.keys()[i].push(ch)),
        !is_key(d.keys(), seq![ch]),
    ensures
        pick_number(ch) <= d.candidates(i).len() ==> reply_text(d, d.keys()[i].push(ch))
            == d.candidates(i)[pick_number(ch) - 1],
        pick_number(ch) > d.candidates(i).len() ==> reply_text(d, d.keys()[i].push(ch))
            == choice_prompt(d.candidates(i)) + seq![ch],
{
    d.lemma_wf();
    lemma_key_then_choice(d, i, ch);
    let toks = seq![Token::CiOpenChoice(i as usize), Token::MaybeChoice(ch)];
    assert(first_maybe_choice(toks, 1) == Some(1int));
    assert(first_maybe_choice(toks, 0) == Some(1int));
    let cands = d.candidates(i);
    if pick_number(ch) <= cands.len() {
        let used = toks.update(1, Token::Skip);
        assert(render_from(d, used, 2) == (Seq::<char>::empty(), used));
        assert(render_from(d, used, 1) == (Seq::<char>::empty(), used));
        assert(cands[pick_number(ch) - 1] + Seq::<char>::empty() =~= cands[pick_number(ch) - 1]);
    } else {
        assert(render_from(d, toks, 2) == (Seq::<char>::empty(), toks));
        assert(render_from(d, toks, 1) == (seq![ch] + Seq::<char>::empty(), toks));
        assert(seq![ch] + Seq::<char>::empty() =~= seq![ch]);
    }
}

/// Where keys of different lengths are prefixes of the text, the first token
/// is the hit on a key at least as long as each of them: the longest.
pub proof fn lemma_greedy_longest(d: &Dictionary, text: Seq<char>, m: nat)
    requires
        d.wf(),
        0 < m <= text.len(),
        is_key(d.keys(), text.subrange(0, m as int)),
    ensures
        ({
            let n = longest_key_len(d.keys(), text, 0, window(d, text, 0));
            &&& m <= n
            &&& is_key(d.keys(), text.subrange(0, n as int))
            &&& segment(d, text)[0] == hit_token(d, key_index(d.keys(), text.subrange(0, n as int)))
        }),
{
    d.lemma_wf();
    let k = choose|k: int| 0 <= k < d.keys().len() && d.keys()[k] == text.subrange(0, m as int);
    assert(d.keys()[k].len() <= d.max_key_len());
    let w = window(d, text, 0);
    assert(text.subrange(0, 0 + m as int) == text.subrange(0, m as int));
    lemma_longest_is_longest(d.keys(), text, 0, w, m);
    lemma_longest_key_len(d.keys(), text, 0, w);
}

} // verus!
