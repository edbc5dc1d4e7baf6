//! Grouping of recognised tokens into words.
use vstd::prelude::*;
use vstd::utf8::*;
use crate::text::{
    decode_lossy, lossy_text, trim, trim_is_idempotent, trimmed, utf8_lossy,
    well_formed_text_reads_back,
};

verus! {

/// One whisper token: raw UTF-8 bytes (may split a char across tokens) and its time span.
/// `T` is whatever the caller measures time in.
#[derive(Clone)]
pub struct RawTok<T> {
    pub start: T,
    pub end: T,
    pub bytes: Vec<u8>,
}

/// A grouped word with span and trimmed text.
pub struct GroupedWord<T> {
    pub start: T,
    pub end: T,
    pub text: String,
}

impl<T> View for RawTok<T> {
    type V = (T, T, Seq<u8>);

    open spec fn view(&self) -> (T, T, Seq<u8>) {
        (self.start, self.end, self.bytes@)
    }
}

impl<T> View for GroupedWord<T> {
    type V = (T, T, Seq<char>);

    open spec fn view(&self) -> (T, T, Seq<char>) {
        (self.start, self.end, self.text@)
    }
}

/// Whether a word begins at token `i`: at the first token, and at any token whose first byte
/// is a space.
pub open spec fn begins_word<T>(tokens: Seq<(T, T, Seq<u8>)>, i: int) -> bool {
    i == 0 || (tokens[i].2.len() > 0 && tokens[i].2[0] == 0x20)
}

/// The positions at which words begin, in increasing order.
pub open spec fn word_starts<T>(tokens: Seq<(T, T, Seq<u8>)>) -> Seq<int>
    decreases tokens.len(),
{
    if tokens.len() == 0 {
        Seq::empty()
    } else {
        let last = tokens.len() - 1;
        let before = word_starts(tokens.drop_last());
        if begins_word(tokens, last) {
            before.push(last)
        } else {
            before
        }
    }
}

/// The position just behind the last token of word `k`.
pub open spec fn word_stop<T>(tokens: Seq<(T, T, Seq<u8>)>, k: int) -> int {
    let starts = word_starts(tokens);
    if k + 1 < starts.len() {
        starts[k + 1]
    } else {
        tokens.len() as int
    }
}

/// The bytes of the tokens from `from` up to `to`, joined.
pub open spec fn joined_bytes<T>(tokens: Seq<(T, T, Seq<u8>)>, from: int, to: int) -> Seq<u8>
    decreases to - from,
{
    if from >= to {
        Seq::empty()
    } else {
        joined_bytes(tokens, from, to - 1) + tokens[to - 1].2
    }
}

/// The groups of tokens that make up the words: the start of the first token, the end of the
/// last one, and the bytes of all of them.
pub open spec fn word_groups<T>(tokens: Seq<(T, T, Seq<u8>)>) -> Seq<(T, T, Seq<u8>)> {
    let starts = word_starts(tokens);
    Seq::new(
        starts.len(),
        |k: int|
            (
                tokens[starts[k]].0,
                tokens[word_stop(tokens, k) - 1].1,
                joined_bytes(tokens, starts[k], word_stop(tokens, k)),
            ),
    )
}

/// The word of a span of bytes: its text decoded and trimmed, unless nothing of it is left.
pub open spec fn shown_word<T>(token: (T, T, Seq<u8>)) -> Option<(T, T, Seq<char>)> {
    let text = trimmed(lossy_text(token.2));
    if text.len() == 0 {
        None
    } else {
        Some((token.0, token.1, text))
    }
}

/// The words of spans of bytes, in order, without those that have no visible text.
pub open spec fn shown_words<T>(tokens: Seq<(T, T, Seq<u8>)>) -> Seq<(T, T, Seq<char>)> {
    tokens.filter_map(|t: (T, T, Seq<u8>)| shown_word(t))
}

proof fn lemma_starts_in_order<T>(tokens: Seq<(T, T, Seq<u8>)>)
    ensures
        tokens.len() > 0 ==> word_starts(tokens).len() > 0 && word_starts(tokens)[0] == 0,
        forall|k: int|
            0 <= k < word_starts(tokens).len() ==> 0 <= #[trigger] word_starts(tokens)[k]
                < tokens.len() && begins_word(tokens, word_starts(tokens)[k]),
        forall|j: int, k: int|
            0 <= j < k < word_starts(tokens).len() ==> word_starts(tokens)[j] < word_starts(
                tokens,
            )[k],
    decreases tokens.len(),
{
    if tokens.len() > 0 {
        let shorter = tokens.drop_last();
        lemma_starts_in_order(shorter);
        assert forall|k: int| 0 <= k < word_starts(tokens).len() implies 0
            <= #[trigger] word_starts(tokens)[k] < tokens.len() && begins_word(
            tokens,
            word_starts(tokens)[k],
        ) by {
            if k < word_starts(shorter).len() {
                assert(begins_word(shorter, word_starts(shorter)[k]));
            }
        }
    }
}

proof fn lemma_joined_bytes_prefix<T>(tokens: Seq<(T, T, Seq<u8>)>, from: int, to: int)
    requires
        0 <= from,
        to < tokens.len(),
    ensures
        joined_bytes(tokens.drop_last(), from, to) == joined_bytes(tokens, from, to),
    decreases to - from,
{
    if from < to {
        lemma_joined_bytes_prefix(tokens, from, to - 1);
    }
}

/// What one more token does to the groups: it opens a group, or joins the last one.
proof fn lemma_groups_extend<T>(tokens: Seq<(T, T, Seq<u8>)>)
    requires
        tokens.len() > 0,
    ensures
        ({
            let before = word_groups(tokens.drop_last());
            let t = tokens.last();
            word_groups(tokens) == if begins_word(tokens, tokens.len() - 1) {
                before.push(t)
            } else {
                before.update(
                    before.len() - 1,
                    (before.last().0, t.1, before.last().2 + t.2),
                )
            }
        }),
        !begins_word(tokens, tokens.len() - 1) ==> word_groups(tokens.drop_last()).len() > 0,
{
    let shorter = tokens.drop_last();
    let last = tokens.len() - 1;
    let before = word_groups(shorter);
    let t = tokens.last();
    lemma_starts_in_order(tokens);
    lemma_starts_in_order(shorter);
    let s = word_starts(tokens);
    let s0 = word_starts(shorter);
    assert forall|k: int| 0 <= k < s0.len() - 1 implies #[trigger] word_groups(tokens)[k]
        == before[k] by {
        assert(s[k] == s0[k] && s[k + 1] == s0[k + 1]);
        lemma_joined_bytes_prefix(tokens, s0[k], s0[k + 1]);
    }
    if begins_word(tokens, last) {
        assert(s == s0.push(last));
        if s0.len() > 0 {
            let k = s0.len() - 1;
            assert(s[k] == s0[k] && s[k + 1] == last);
            lemma_joined_bytes_prefix(tokens, s0[k], last);
            assert(word_groups(tokens)[k] == before[k]);
        }
        assert(joined_bytes(tokens, last, last) =~= Seq::empty());
        assert(joined_bytes(tokens, last, last + 1) =~= t.2);
        assert(word_groups(tokens) =~= before.push(t));
    } else {
        let k = s0.len() - 1;
        assert(s == s0);
        lemma_joined_bytes_prefix(tokens, s0[k], last);
        assert(word_groups(tokens) =~= before.update(
            before.len() - 1,
            (before.last().0, t.1, before.last().2 + t.2),
        ));
    }
}

/// Joins the tokens of each word into one token that spans it. A new word begins at the first
/// token and at any token whose first byte is a space.
pub fn join_tokens<T: Copy>(tokens: &[RawTok<T>]) -> (r: Vec<RawTok<T>>)
    ensures
        r@.map_values(|t: RawTok<T>| t@) == word_groups(tokens@.map_values(|t: RawTok<T>| t@)),
{
    let mut groups: Vec<RawTok<T>> = Vec::new();
    let ghost bare = |t: RawTok<T>| t@;
    let ghost all = tokens@.map_values(bare);
    let mut i: usize = 0;
    assert(groups@.map_values(bare) =~= word_groups(all.take(0)));
    while i < tokens.len()
        invariant
            i <= tokens@.len(),
            bare == (|t: RawTok<T>| t@),
            all == tokens@.map_values(bare),
            groups@.map_values(bare) == word_groups(all.take(i as int)),
            i > 0 ==> groups@.len() > 0,
        decreases tokens@.len() - i,
    {
        let t = &tokens[i];
        let starts_word = t.bytes.len() > 0 && t.bytes[0] == 0x20;
        let mut bytes = t.bytes.clone();
        assert(bytes@ =~= t.bytes@);
        let ghost before = groups@;
        let ghost seen = all.take(i + 1);
        proof {
            assert(seen.drop_last() =~= all.take(i as int));
            assert(seen.last() == t@);
            lemma_groups_extend(seen);
        }
        if i == 0 || starts_word {
            groups.push(RawTok { start: t.start, end: t.end, bytes });
        } else {
            let mut word = groups.pop().unwrap();
            word.bytes.append(&mut bytes);
            word.end = t.end;
            groups.push(word);
        }
        assert(groups@.map_values(bare) =~= word_groups(seen));
        i += 1;
    }
    assert(all.take(i as int) =~= all);
    groups
}

/// The word with the given span and decoded text, if any of the text is left after trimming.
pub fn visible_word<T>(start: T, end: T, decoded: &str) -> (r: Option<GroupedWord<T>>)
    ensures
        r is Some <==> trimmed(decoded@).len() > 0,
        r matches Some(w) ==> w@ == (start, end, trimmed(decoded@)),
{
    let text = trim(decoded);
    if text.as_str().is_empty() {
        None
    } else {
        Some(GroupedWord { start, end, text })
    }
}

/// The word that one token makes on its own, if any of its text is left after decoding and
/// trimming.
pub fn decode_word<T: Copy>(token: &RawTok<T>) -> (r: Option<GroupedWord<T>>)
    ensures
        r is Some <==> shown_word(token@) is Some,
        r matches Some(w) ==> shown_word(token@) == Some(w@),
{
    let decoded = decode_lossy(token.bytes.as_slice());
    visible_word(token.start, token.end, decoded.as_str())
}

/// The words that the tokens make one by one, without those that have no visible text.
pub fn decode_words<T: Copy>(tokens: &[RawTok<T>]) -> (r: Vec<GroupedWord<T>>)
    ensures
        r@.map_values(|w: GroupedWord<T>| w@) == shown_words(
            tokens@.map_values(|t: RawTok<T>| t@),
        ),
{
    let ghost all = tokens@.map_values(|t: RawTok<T>| t@);
    let ghost keep = |t: (T, T, Seq<u8>)| shown_word(t);
    let ghost plain = |w: GroupedWord<T>| w@;
    let mut words: Vec<GroupedWord<T>> = Vec::new();
    let mut k: usize = 0;
    assert(words@.map_values(plain) =~= all.take(0).filter_map(keep));
    while k < tokens.len()
        invariant
            k <= tokens@.len(),
            all == tokens@.map_values(|t: RawTok<T>| t@),
            keep == (|t: (T, T, Seq<u8>)| shown_word(t)),
            plain == (|w: GroupedWord<T>| w@),
            words@.map_values(plain) == all.take(k as int).filter_map(keep),
        decreases tokens@.len() - k,
    {
        proof {
            all.lemma_filter_map_take_succ(keep, k as int);
        }
        if let Some(word) = decode_word(&tokens[k]) {
            words.push(word);
        }
        assert(words@.map_values(plain) =~= all.take(k + 1).filter_map(keep));
        k += 1;
    }
    assert(all.take(k as int) =~= all);
    words
}

/// Group whisper tokens into words. A new word begins at the first token and at any
/// token whose first byte is a space (whisper's BPE word-boundary marker, valid
/// for Cyrillic). Bytes are accumulated per word and decoded once, so tokens split across
/// UTF-8 boundaries (common in Russian) join correctly. Words without visible text are left
/// out.
pub fn group_tokens_into_words<T: Copy>(tokens: &[RawTok<T>]) -> (r: Vec<GroupedWord<T>>)
    ensures
        r@.map_values(|w: GroupedWord<T>| w@) == shown_words(
            word_groups(tokens@.map_values(|t: RawTok<T>| t@)),
        ),
{
    let groups = join_tokens(tokens);
    decode_words(groups.as_slice())
}

/// The bytes of all the groups, joined in order.
pub open spec fn all_bytes<T>(groups: Seq<(T, T, Seq<u8>)>) -> Seq<u8> {
    joined_bytes(groups, 0, groups.len() as int)
}

proof fn lemma_all_bytes_push<T>(groups: Seq<(T, T, Seq<u8>)>, g: (T, T, Seq<u8>))
    ensures
        all_bytes(groups.push(g)) == all_bytes(groups) + g.2,
{
    assert(groups.push(g).drop_last() =~= groups);
    lemma_joined_bytes_prefix(groups.push(g), 0, groups.len() as int);
}

/// The joined bytes of tokens are the bytes of each of them, one behind the other.
pub proof fn all_bytes_are_those_of_the_tokens<T>(tokens: Seq<(T, T, Seq<u8>)>)
    ensures
        all_bytes(tokens) == tokens.map_values(|t: (T, T, Seq<u8>)| t.2).flatten(),
    decreases tokens.len(),
{
    let bytes = |t: (T, T, Seq<u8>)| t.2;
    if tokens.len() > 0 {
        let shorter = tokens.drop_last();
        all_bytes_are_those_of_the_tokens(shorter);
        assert(shorter.push(tokens.last()) =~= tokens);
        lemma_all_bytes_push(shorter, tokens.last());
        shorter.map_values(bytes).lemma_flatten_push(tokens.last().2);
        assert(tokens.map_values(bytes) =~= shorter.map_values(bytes).push(tokens.last().2));
    }
}

/// Grouping keeps every byte: the groups together hold the bytes of the tokens, in order.
pub proof fn grouping_keeps_bytes<T>(tokens: Seq<(T, T, Seq<u8>)>)
    ensures
        all_bytes(word_groups(tokens)) == all_bytes(tokens),
    decreases tokens.len(),
{
    if tokens.len() == 0 {
        assert(word_groups(tokens) =~= Seq::empty());
    } else {
        let shorter = tokens.drop_last();
        let before = word_groups(shorter);
        let t = tokens.last();
        grouping_keeps_bytes(shorter);
        lemma_groups_extend(tokens);
        assert(shorter.push(t) =~= tokens);
        lemma_all_bytes_push(shorter, t);
        if begins_word(tokens, tokens.len() - 1) {
            lemma_all_bytes_push(before, t);
        } else {
            let merged = (before.last().0, t.1, before.last().2 + t.2);
            assert(before.drop_last().push(before.last()) =~= before);
            assert(before.update(before.len() - 1, merged) =~= before.drop_last().push(merged));
            lemma_all_bytes_push(before.drop_last(), before.last());
            lemma_all_bytes_push(before.drop_last(), merged);
            assert(all_bytes(word_groups(tokens)) =~= all_bytes(tokens));
        }
    }
}

/// Tokens of which none behind the first has a space as its first byte make a single word, from
/// the start of the first to the end of the last. Their bytes are decoded together: a character
/// that is split across them is whole again.
pub proof fn unbroken_tokens_make_one_word<T>(tokens: Seq<(T, T, Seq<u8>)>)
    requires
        tokens.len() > 0,
        forall|i: int|
            0 < i < tokens.len() && (#[trigger] tokens[i]).2.len() > 0 ==> tokens[i].2[0] != 0x20,
    ensures
        word_groups(tokens) == seq![(tokens[0].0, tokens.last().1, all_bytes(tokens))],
        word_groups(tokens)[0].2 == tokens.map_values(|t: (T, T, Seq<u8>)| t.2).flatten(),
    decreases tokens.len(),
{
    lemma_groups_extend(tokens);
    let shorter = tokens.drop_last();
    let t = tokens.last();
    assert(shorter.push(t) =~= tokens);
    lemma_all_bytes_push(shorter, t);
    if tokens.len() == 1 {
        assert(shorter =~= Seq::empty());
        assert(all_bytes(tokens) =~= t.2);
        assert(word_groups(shorter) =~= Seq::empty());
    } else {
        assert forall|i: int|
            0 < i < shorter.len() && (#[trigger] shorter[i]).2.len() > 0 implies shorter[i].2[0]
            != 0x20 by {
            assert(shorter[i] == tokens[i]);
        }
        assert(!begins_word(tokens, tokens.len() - 1));
        unbroken_tokens_make_one_word(shorter);
    }
    assert(word_groups(tokens) =~= seq![(tokens[0].0, tokens.last().1, all_bytes(tokens))]);
    all_bytes_are_those_of_the_tokens(tokens);
}

/// However the UTF-8 of a text is cut into the tokens of one word, in the middle of characters
/// too, the word that is shown is the whole text, trimmed.
pub proof fn split_text_is_whole_again<T>(tokens: Seq<(T, T, Seq<u8>)>, text: Seq<char>)
    requires
        tokens.len() > 0,
        forall|i: int|
            0 < i < tokens.len() && (#[trigger] tokens[i]).2.len() > 0 ==> tokens[i].2[0] != 0x20,
        all_bytes(tokens) == encode_utf8(text),
    ensures
        shown_words(word_groups(tokens)) == if trimmed(text).len() == 0 {
            Seq::empty()
        } else {
            seq![(tokens[0].0, tokens.last().1, trimmed(text))]
        },
{
    unbroken_tokens_make_one_word(tokens);
    encode_utf8_valid_utf8(text);
    encode_utf8_decode_utf8(text);
    let word = (tokens[0].0, tokens.last().1, all_bytes(tokens));
    Seq::lemma_filter_map_singleton(word, |t: (T, T, Seq<u8>)| shown_word(t));
}

proof fn lemma_shown_words_concat<T>(xs: Seq<(T, T, Seq<u8>)>, ys: Seq<(T, T, Seq<u8>)>)
    ensures
        shown_words(xs + ys) == shown_words(xs) + shown_words(ys),
    decreases ys.len(),
{
    if ys.len() == 0 {
        assert(xs + ys =~= xs);
        assert(shown_words(xs) + shown_words(ys) =~= shown_words(xs));
    } else {
        lemma_shown_words_concat(xs, ys.drop_last());
        assert((xs + ys).drop_last() =~= xs + ys.drop_last());
        assert((xs + ys).last() == ys.last());
        assert(shown_words(xs + ys) =~= shown_words(xs) + shown_words(ys));
    }
}

/// Spans are shown one by one: the words of two runs of spans are the words of the first, followed
/// by those of the second.
pub proof fn spans_are_shown_one_by_one<T>(xs: Seq<(T, T, Seq<u8>)>, ys: Seq<(T, T, Seq<u8>)>)
    ensures
        shown_words(xs + ys) == shown_words(xs) + shown_words(ys),
{
    lemma_shown_words_concat(xs, ys);
}

/// Runs of tokens are grouped apart: where the second run begins with a space, or is empty, the
/// words of both are the words of the first followed by those of the second.
pub proof fn runs_group_apart<T>(xs: Seq<(T, T, Seq<u8>)>, ys: Seq<(T, T, Seq<u8>)>)
    requires
        ys.len() > 0 ==> ys[0].2.len() > 0 && ys[0].2[0] == 0x20,
    ensures
        word_groups(xs + ys) == word_groups(xs) + word_groups(ys),
        shown_words(word_groups(xs + ys)) == shown_words(word_groups(xs)) + shown_words(
            word_groups(ys),
        ),
    decreases ys.len(),
{
    let both = xs + ys;
    if ys.len() == 0 {
        assert(both =~= xs);
        assert(word_groups(both) =~= word_groups(xs) + word_groups(ys));
    } else {
        let shorter = ys.drop_last();
        runs_group_apart(xs, shorter);
        assert(both.drop_last() =~= xs + shorter);
        assert(both.last() == ys.last());
        assert(begins_word(both, both.len() - 1) == begins_word(ys, ys.len() - 1));
        lemma_groups_extend(both);
        lemma_groups_extend(ys);
        assert(word_groups(both) =~= word_groups(xs) + word_groups(ys));
    }
    lemma_shown_words_concat(word_groups(xs), word_groups(ys));
}

/// There are no more groups than tokens, and there is a group as soon as there is a token.
pub proof fn groups_are_bounded<T>(tokens: Seq<(T, T, Seq<u8>)>)
    ensures
        word_groups(tokens).len() <= tokens.len(),
        tokens.len() > 0 ==> word_groups(tokens).len() > 0,
    decreases tokens.len(),
{
    if tokens.len() > 0 {
        groups_are_bounded(tokens.drop_last());
        lemma_groups_extend(tokens);
    }
}

/// Whether spans are in time order under `le`: no start comes before an earlier start, and no
/// end comes before the start of its own or an earlier span.
pub open spec fn in_time_order<T, B>(spans: Seq<(T, T, B)>, le: spec_fn(T, T) -> bool) -> bool {
    &&& forall|i: int, j: int|
        0 <= i <= j < spans.len() ==> le(#[trigger] spans[i].0, #[trigger] spans[j].0)
    &&& forall|i: int, j: int|
        0 <= i <= j < spans.len() ==> le(#[trigger] spans[i].0, #[trigger] spans[j].1)
}

/// Grouping keeps time order: if the tokens are in time order, so are the groups.
pub proof fn groups_keep_time_order<T>(
    tokens: Seq<(T, T, Seq<u8>)>,
    le: spec_fn(T, T) -> bool,
)
    requires
        in_time_order(tokens, le),
    ensures
        in_time_order(word_groups(tokens), le),
{
    let groups = word_groups(tokens);
    let starts = word_starts(tokens);
    lemma_starts_in_order(tokens);
    assert forall|i: int, j: int| 0 <= i <= j < groups.len() implies le(
        #[trigger] groups[i].0,
        #[trigger] groups[j].0,
    ) by {
        assert(starts[i] <= starts[j]);
        assert(le(tokens[starts[i]].0, tokens[starts[j]].0));
    }
    assert forall|i: int, j: int| 0 <= i <= j < groups.len() implies le(
        #[trigger] groups[i].0,
        #[trigger] groups[j].1,
    ) by {
        let stop = word_stop(tokens, j);
        assert(starts[i] <= starts[j]);
        assert(starts[j] < stop <= tokens.len());
        assert(le(tokens[starts[i]].0, tokens[stop - 1].1));
    }
}

/// Where each shown word comes from: in order, from spans that lie further and further on.
proof fn lemma_shown_words_sources<T>(spans: Seq<(T, T, Seq<u8>)>) -> (from: Seq<int>)
    ensures
        from.len() == shown_words(spans).len(),
        forall|k: int|
            0 <= k < from.len() ==> 0 <= #[trigger] from[k] < spans.len() && shown_word(
                spans[from[k]],
            ) == Some(shown_words(spans)[k]),
        forall|j: int, k: int| 0 <= j < k < from.len() ==> from[j] < from[k],
    decreases spans.len(),
{
    if spans.len() == 0 {
        Seq::empty()
    } else {
        let shorter = spans.drop_last();
        let before = lemma_shown_words_sources(shorter);
        match shown_word(spans.last()) {
            Some(w) => {
                assert(shown_words(spans) == shown_words(shorter) + seq![w]);
                let from = before.push(spans.len() - 1);
                assert forall|k: int| 0 <= k < from.len() implies 0 <= #[trigger] from[k]
                    < spans.len() && shown_word(spans[from[k]]) == Some(shown_words(spans)[k]) by {
                    if k < before.len() {
                        assert(from[k] == before[k]);
                    }
                }
                from
            },
            None => {
                assert(shown_words(spans) == shown_words(shorter));
                assert forall|k: int| 0 <= k < before.len() implies 0 <= #[trigger] before[k]
                    < spans.len() && shown_word(spans[before[k]]) == Some(shown_words(spans)[k]) by {
                }
                before
            },
        }
    }
}

/// The tokens at which each shown word of the groups begins and ends.
pub(crate) proof fn lemma_word_sources<T>(tokens: Seq<(T, T, Seq<u8>)>) -> (r: (
    Seq<int>,
    Seq<int>,
))
    ensures
        r.0.len() == r.1.len() == shown_words(word_groups(tokens)).len(),
        forall|k: int|
            #![trigger r.0[k]]
            #![trigger r.1[k]]
            0 <= k < r.0.len() ==> {
                &&& 0 <= r.0[k] <= r.1[k] < tokens.len()
                &&& shown_words(word_groups(tokens))[k].0 == tokens[r.0[k]].0
                &&& shown_words(word_groups(tokens))[k].1 == tokens[r.1[k]].1
            },
        forall|j: int, k: int| 0 <= j <= k < r.0.len() ==> r.0[j] <= r.0[k],
{
    lemma_starts_in_order(tokens);
    let groups = word_groups(tokens);
    let starts = word_starts(tokens);
    let group = lemma_shown_words_sources(groups);
    let from = group.map_values(|g: int| starts[g]);
    let to = group.map_values(|g: int| word_stop(tokens, g) - 1);
    assert forall|k: int|
        #![trigger from[k]]
        #![trigger to[k]]
        0 <= k < from.len() implies {
        &&& 0 <= from[k] <= to[k] < tokens.len()
        &&& shown_words(groups)[k].0 == tokens[from[k]].0
        &&& shown_words(groups)[k].1 == tokens[to[k]].1
    } by {
        let g = group[k];
        assert(0 <= starts[g] < tokens.len());
        if g + 1 < starts.len() {
            assert(starts[g] < starts[g + 1]);
        }
    }
    assert forall|j: int, k: int| 0 <= j <= k < from.len() implies from[j] <= from[k] by {
        if j < k {
            assert(group[j] < group[k]);
        }
    }
    (from, to)
}

/// The token that each word shows, where tokens are shown one by one.
pub(crate) proof fn lemma_token_sources<T>(tokens: Seq<(T, T, Seq<u8>)>) -> (r: (
    Seq<int>,
    Seq<int>,
))
    ensures
        r.0.len() == r.1.len() == shown_words(tokens).len(),
        forall|k: int|
            #![trigger r.0[k]]
            #![trigger r.1[k]]
            0 <= k < r.0.len() ==> {
                &&& 0 <= r.0[k] <= r.1[k] < tokens.len()
                &&& shown_words(tokens)[k].0 == tokens[r.0[k]].0
                &&& shown_words(tokens)[k].1 == tokens[r.1[k]].1
            },
        forall|j: int, k: int| 0 <= j <= k < r.0.len() ==> r.0[j] <= r.0[k],
{
    let from = lemma_shown_words_sources(tokens);
    (from, from)
}

/// The words of tokens in time order are in time order: no word ends before it starts, and
/// none starts before an earlier one.
pub proof fn words_keep_time_order<T>(tokens: Seq<(T, T, Seq<u8>)>, le: spec_fn(T, T) -> bool)
    requires
        in_time_order(tokens, le),
    ensures
        in_time_order(shown_words(word_groups(tokens)), le),
        in_time_order(shown_words(tokens), le),
{
    groups_keep_time_order(tokens, le);
    lemma_shown_keep_time_order(word_groups(tokens), le);
    lemma_shown_keep_time_order(tokens, le);
}

proof fn lemma_shown_keep_time_order<T>(
    spans: Seq<(T, T, Seq<u8>)>,
    le: spec_fn(T, T) -> bool,
)
    requires
        in_time_order(spans, le),
    ensures
        in_time_order(shown_words(spans), le),
{
    let words = shown_words(spans);
    let from = lemma_shown_words_sources(spans);
    assert forall|i: int, j: int| 0 <= i <= j < words.len() implies le(
        #[trigger] words[i].0,
        #[trigger] words[j].0,
    ) by {
        assert(from[i] <= from[j]);
        assert(le(spans[from[i]].0, spans[from[j]].0));
    }
    assert forall|i: int, j: int| 0 <= i <= j < words.len() implies le(
        #[trigger] words[i].0,
        #[trigger] words[j].1,
    ) by {
        assert(from[i] <= from[j]);
        assert(le(spans[from[i]].0, spans[from[j]].1));
    }
}

/// Every word that is shown has text, and no whitespace around it.
pub proof fn shown_words_are_trimmed<T>(spans: Seq<(T, T, Seq<u8>)>, k: int)
    requires
        0 <= k < shown_words(spans).len(),
    ensures
        shown_words(spans)[k].2.len() > 0,
        trimmed(shown_words(spans)[k].2) == shown_words(spans)[k].2,
{
    let from = lemma_shown_words_sources(spans);
    let span = spans[from[k]];
    trim_is_idempotent(lossy_text(span.2));
}

/// A span shows its text, decoded and trimmed, with its own times, and nothing if no text is left.
pub proof fn a_span_shows_its_text<T>(start: T, end: T, bytes: Seq<u8>, text: Seq<char>)
    requires
        bytes == encode_utf8(text) || (!valid_utf8(bytes) && text == utf8_lossy(bytes)),
    ensures
        trimmed(text).len() > 0 ==> shown_words(seq![(start, end, bytes)]) == seq![
            (start, end, trimmed(text)),
        ],
        trimmed(text).len() == 0 ==> shown_words(seq![(start, end, bytes)]).len() == 0,
{
    if bytes == encode_utf8(text) {
        well_formed_text_reads_back(text);
    }
    Seq::lemma_filter_map_singleton((start, end, bytes), |t: (T, T, Seq<u8>)| shown_word(t));
}

/// Tokens and words are seen with their own times, and with all their bytes or all their text.
pub proof fn tokens_and_words_are_seen_whole<T>(token: RawTok<T>, word: GroupedWord<T>)
    ensures
        token@.0 == token.start && token@.1 == token.end && token@.2 == token.bytes@,
        word@.0 == word.start && word@.1 == word.end && word@.2 == word.text@,
{
}

} // verus!
