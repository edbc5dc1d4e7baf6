//! Whisper speech recognition: how a model is loaded, and what becomes of its answer.
use vstd::prelude::*;
use vstd::string::*;
use crate::number::{decimal, parsed_usize, push_decimal, usize_reads_back};
use crate::text::{
    char_is_whitespace, chars_of, trim, trimmed, trimmed_ends_are_visible,
    trimming_keeps_visible_ends,
};
use crate::types::{
    ModelCapabilities, TimestampGranularity, TranscribeError, TranscribeOptions,
    TranscriptionResult, TranscriptionSegment,
};
use crate::word_grouping::{
    decode_words, group_tokens_into_words, in_time_order, lemma_token_sources,
    lemma_word_sources, shown_words, shown_words_are_trimmed, word_groups, GroupedWord, RawTok,
};

verus! {

/// A token as the engine reports it.
pub struct WhisperToken<T> {
    /// The token's text, with ill-formed UTF-8 replaced, if it can be read.
    pub text: Option<String>,
    /// The token's bytes, if they can be read.
    pub bytes: Option<Vec<u8>>,
    pub start: T,
    pub end: T,
}

/// Whether a token with this text is one of whisper's special tokens ([_BEG_], [_TT_..], etc.).
pub open spec fn is_special(text: Seq<char>) -> bool {
    text.len() >= 2 && text[0] == '[' && text[1] == '_'
}

/// What is kept of a token: its span and bytes, unless it is missing, special, or cannot be
/// read.
pub open spec fn kept_token<T>(token: Option<WhisperToken<T>>) -> Option<(T, T, Seq<u8>)> {
    match token {
        Some(t) => match (t.text, t.bytes) {
            (Some(text), Some(bytes)) => if is_special(text@) {
                None
            } else {
                Some((t.start, t.end, bytes@))
            },
            _ => None,
        },
        None => None,
    }
}

/// What is kept of the tokens of a segment.
pub open spec fn kept_tokens<T>(tokens: Seq<Option<WhisperToken<T>>>) -> Seq<(T, T, Seq<u8>)> {
    tokens.filter_map(|t: Option<WhisperToken<T>>| kept_token(t))
}

/// Whether a token with this text is one of whisper's special tokens ([_BEG_], [_TT_..], etc.).
pub fn is_special_token(text: &str) -> (r: bool)
    ensures
        r == is_special(text@),
{
    let chars = chars_of(text);
    chars.len() >= 2 && chars[0] == '[' && chars[1] == '_'
}

/// The tokens of a segment without those that are missing, special or unreadable.
pub fn keep_tokens<T: Copy>(tokens: &[Option<WhisperToken<T>>]) -> (r: Vec<RawTok<T>>)
    ensures
        r@.map_values(|t: RawTok<T>| t@) == kept_tokens(tokens@),
{
    let ghost keep = |t: Option<WhisperToken<T>>| kept_token(t);
    let ghost plain = |t: RawTok<T>| t@;
    let mut raw: Vec<RawTok<T>> = Vec::new();
    let mut k: usize = 0;
    assert(raw@.map_values(plain) =~= tokens@.take(0).filter_map(keep));
    while k < tokens.len()
        invariant
            k <= tokens@.len(),
            keep == (|t: Option<WhisperToken<T>>| kept_token(t)),
            plain == (|t: RawTok<T>| t@),
            raw@.map_values(plain) == tokens@.take(k as int).filter_map(keep),
        decreases tokens@.len() - k,
    {
        proof {
            tokens@.lemma_filter_map_take_succ(keep, k as int);
        }
        if let Some(token) = &tokens[k] {
            if let Some(text) = &token.text {
                if let Some(bytes) = &token.bytes {
                    if !is_special_token(text.as_str()) {
                        let bytes = bytes.clone();
                        assert(bytes@ =~= token.bytes->0@);
                        raw.push(RawTok { start: token.start, end: token.end, bytes });
                    }
                }
            }
        }
        assert(raw@.map_values(plain) =~= tokens@.take(k + 1).filter_map(keep));
        k += 1;
    }
    assert(tokens@.take(k as int) =~= tokens@);
    raw
}

/// A token that is missing, special or unreadable leaves no trace: without it the same tokens
/// are kept.
pub proof fn dropped_tokens_leave_no_trace<T>(tokens: Seq<Option<WhisperToken<T>>>, i: int)
    requires
        0 <= i < tokens.len(),
        kept_token(tokens[i]) is None,
    ensures
        kept_tokens(tokens.remove(i)) == kept_tokens(tokens),
    decreases tokens.len(),
{
    if i == tokens.len() - 1 {
        assert(tokens.remove(i) =~= tokens.drop_last());
    } else {
        dropped_tokens_leave_no_trace(tokens.drop_last(), i);
        assert(tokens.remove(i).drop_last() =~= tokens.drop_last().remove(i));
        assert(tokens.remove(i).last() == tokens.last());
    }
}

/// The words of a segment, or its tokens one by one at token granularity.
pub open spec fn segment_words<T>(
    granularity: TimestampGranularity,
    tokens: Seq<Option<WhisperToken<T>>>,
) -> Seq<(T, T, Seq<char>)> {
    if granularity is Token {
        shown_words(kept_tokens(tokens))
    } else {
        shown_words(word_groups(kept_tokens(tokens)))
    }
}

/// The words of all the segments, in order.
pub open spec fn all_words<T>(
    granularity: TimestampGranularity,
    segments: Seq<Option<Vec<Option<WhisperToken<T>>>>>,
) -> Seq<(T, T, Seq<char>)>
    decreases segments.len(),
{
    if segments.len() == 0 {
        Seq::empty()
    } else {
        let before = all_words(granularity, segments.drop_last());
        match segments.last() {
            Some(tokens) => before + segment_words(granularity, tokens@),
            None => before,
        }
    }
}

/// The texts of the words, each behind a space.
pub open spec fn spaced<T>(words: Seq<(T, T, Seq<char>)>) -> Seq<char>
    decreases words.len(),
{
    if words.len() == 0 {
        Seq::empty()
    } else {
        spaced(words.drop_last()).push(' ') + words.last().2
    }
}

/// The texts of the words, with one space between each two.
pub open spec fn joined_by_space<T>(words: Seq<(T, T, Seq<char>)>) -> Seq<char>
    decreases words.len(),
{
    if words.len() == 0 {
        Seq::empty()
    } else if words.len() == 1 {
        words[0].2
    } else {
        joined_by_space(words.drop_last()).push(' ') + words.last().2
    }
}

/// The texts of the words, one right behind the other.
pub open spec fn concatenated<T>(words: Seq<(T, T, Seq<char>)>) -> Seq<char>
    decreases words.len(),
{
    if words.len() == 0 {
        Seq::empty()
    } else {
        concatenated(words.drop_last()) + words.last().2
    }
}

/// The message about segment `i` that the engine announced and did not deliver.
pub open spec fn missing_segment_message(i: int) -> Seq<char> {
    "segment "@ + decimal(i as nat) + " out of bounds"@
}

fn missing_segment(i: usize) -> (r: TranscribeError)
    ensures
        r.is_inference(missing_segment_message(i as int)),
{
    let mut message = "segment ".to_string();
    push_decimal(&mut message, i as u64);
    message.append(" out of bounds");
    TranscribeError::Inference(message)
}

proof fn lemma_spaced_push<T>(words: Seq<(T, T, Seq<char>)>, w: (T, T, Seq<char>))
    ensures
        spaced(words.push(w)) == spaced(words).push(' ') + w.2,
{
    assert(words.push(w).drop_last() =~= words);
}

/// Appends the words to the segments, and their texts, each behind a space, to the text.
fn append_words<T: Copy>(
    text: &mut String,
    segments: &mut Vec<TranscriptionSegment<T>>,
    words: Vec<GroupedWord<T>>,
)
    requires
        old(text)@ == spaced(old(segments)@.map_values(|s: TranscriptionSegment<T>| s@)),
    ensures
        final(segments)@.map_values(|s: TranscriptionSegment<T>| s@) == old(segments)@.map_values(
            |s: TranscriptionSegment<T>| s@,
        ) + words@.map_values(|w: GroupedWord<T>| w@),
        final(text)@ == spaced(final(segments)@.map_values(|s: TranscriptionSegment<T>| s@)),
{
    let ghost plain = |s: TranscriptionSegment<T>| s@;
    let ghost bare = |w: GroupedWord<T>| w@;
    let ghost first = segments@.map_values(plain);
    let mut k: usize = 0;
    assert(segments@.map_values(plain) =~= first + words@.map_values(bare).take(0));
    while k < words.len()
        invariant
            k <= words@.len(),
            plain == (|s: TranscriptionSegment<T>| s@),
            bare == (|w: GroupedWord<T>| w@),
            segments@.map_values(plain) == first + words@.map_values(bare).take(k as int),
            text@ == spaced(segments@.map_values(plain)),
        decreases words@.len() - k,
    {
        let word = &words[k];
        let ghost before = segments@.map_values(plain);
        text.push(' ');
        text.append(word.text.as_str());
        segments.push(
            TranscriptionSegment { start: word.start, end: word.end, text: word.text.clone() },
        );
        proof {
            lemma_spaced_push(before, word@);
            assert(segments@.map_values(plain) =~= before.push(word@));
            assert(words@.map_values(bare).take(k + 1) =~= words@.map_values(bare).take(
                k as int,
            ).push(word@));
            assert(segments@.map_values(plain) =~= first + words@.map_values(bare).take(k + 1));
        }
        k += 1;
    }
    assert(words@.map_values(bare).take(k as int) =~= words@.map_values(bare));
}

/// The transcription that the tokens of the segments make, timed word by word, or token by
/// token at token granularity. A segment that the engine did not deliver is an error.
pub fn transcription_from_tokens<T: Copy>(
    granularity: TimestampGranularity,
    segments: &[Option<Vec<Option<WhisperToken<T>>>>],
) -> (r: Result<TranscriptionResult<T>, TranscribeError>)
    ensures
        r is Ok <==> (forall|i: int| 0 <= i < segments@.len() ==> (#[trigger] segments@[i]) is Some),
        r matches Ok(t) ==> {
            &&& t.segments matches Some(s)
            &&& s@.map_values(|s: TranscriptionSegment<T>| s@) == all_words(granularity, segments@)
            &&& t.text@ == trimmed(spaced(all_words(granularity, segments@)))
            &&& t.text@ == joined_by_space(all_words(granularity, segments@))
        },
        r matches Err(e) ==> exists|i: int|
            {
                &&& 0 <= i < segments@.len()
                &&& (#[trigger] segments@[i]) is None
                &&& forall|j: int| 0 <= j < i ==> (#[trigger] segments@[j]) is Some
                &&& e.is_inference(missing_segment_message(i))
            },
{
    let mut out: Vec<TranscriptionSegment<T>> = Vec::new();
    let mut full_text = String::new();
    let ghost plain = |s: TranscriptionSegment<T>| s@;
    let mut k: usize = 0;
    assert(out@.map_values(plain) =~= all_words(granularity, segments@.take(0)));
    while k < segments.len()
        invariant
            k <= segments@.len(),
            plain == (|s: TranscriptionSegment<T>| s@),
            forall|j: int| 0 <= j < k ==> (#[trigger] segments@[j]) is Some,
            out@.map_values(plain) == all_words(granularity, segments@.take(k as int)),
            full_text@ == spaced(out@.map_values(plain)),
        decreases segments@.len() - k,
    {
        assert(segments@.take(k + 1).drop_last() =~= segments@.take(k as int));
        match &segments[k] {
            Some(tokens) => {
                let raw = keep_tokens(tokens.as_slice());
                let words = match granularity {
                    TimestampGranularity::Token => decode_words(raw.as_slice()),
                    _ => group_tokens_into_words(raw.as_slice()),
                };
                append_words(&mut full_text, &mut out, words);
            },
            None => {
                return Err(missing_segment(k));
            },
        }
        k += 1;
    }
    proof {
        assert(segments@.take(k as int) =~= segments@);
        words_are_joined_by_space(granularity, segments@);
    }
    let text = trim(full_text.as_str());
    Ok(TranscriptionResult { text, segments: Some(out) })
}

proof fn lemma_visible_words_join<T>(words: Seq<(T, T, Seq<char>)>)
    requires
        forall|k: int|
            0 <= k < words.len() ==> (#[trigger] words[k]).2.len() > 0 && trimmed(words[k].2)
                == words[k].2,
    ensures
        spaced(words) == if words.len() == 0 {
            Seq::empty()
        } else {
            seq![' '] + joined_by_space(words)
        },
        words.len() > 0 ==> {
            &&& joined_by_space(words).len() > 0
            &&& !char_is_whitespace(joined_by_space(words)[0])
            &&& !char_is_whitespace(joined_by_space(words).last())
        },
    decreases words.len(),
{
    if words.len() > 0 {
        let w = words.last().2;
        assert(words[words.len() - 1].2 == w);
        trimmed_ends_are_visible(w);
        lemma_visible_words_join(words.drop_last());
        if words.len() == 1 {
            assert(spaced(words.drop_last()) =~= Seq::empty());
            assert(spaced(words) =~= seq![' '] + joined_by_space(words));
        } else {
            assert(spaced(words) =~= seq![' '] + joined_by_space(words));
        }
    }
}

proof fn lemma_all_words_are_visible<T>(
    granularity: TimestampGranularity,
    segments: Seq<Option<Vec<Option<WhisperToken<T>>>>>,
    k: int,
)
    requires
        0 <= k < all_words(granularity, segments).len(),
    ensures
        all_words(granularity, segments)[k].2.len() > 0,
        trimmed(all_words(granularity, segments)[k].2) == all_words(granularity, segments)[k].2,
    decreases segments.len(),
{
    let before = all_words(granularity, segments.drop_last());
    if k < before.len() {
        lemma_all_words_are_visible(granularity, segments.drop_last(), k);
    } else {
        let tokens = segments.last()->0@;
        if granularity is Token {
            shown_words_are_trimmed(kept_tokens(tokens), k - before.len());
        } else {
            shown_words_are_trimmed(word_groups(kept_tokens(tokens)), k - before.len());
        }
    }
}

/// The text of a transcription from tokens is its words with one space between each two.
pub proof fn words_are_joined_by_space<T>(
    granularity: TimestampGranularity,
    segments: Seq<Option<Vec<Option<WhisperToken<T>>>>>,
)
    ensures
        trimmed(spaced(all_words(granularity, segments))) == joined_by_space(
            all_words(granularity, segments),
        ),
{
    let words = all_words(granularity, segments);
    assert forall|k: int| 0 <= k < words.len() implies (#[trigger] words[k]).2.len() > 0 && trimmed(
        words[k].2,
    ) == words[k].2 by {
        lemma_all_words_are_visible(granularity, segments, k);
    }
    lemma_visible_words_join(words);
    if words.len() > 0 {
        let joined = joined_by_space(words);
        assert((seq![' '] + joined).drop_first() =~= joined);
        trimming_keeps_visible_ends(joined);
    }
}

/// What is kept of the tokens of all the segments, in order.
pub open spec fn all_kept_tokens<T>(segments: Seq<Option<Vec<Option<WhisperToken<T>>>>>) -> Seq<
    (T, T, Seq<u8>),
>
    decreases segments.len(),
{
    if segments.len() == 0 {
        Seq::empty()
    } else {
        let before = all_kept_tokens(segments.drop_last());
        match segments.last() {
            Some(tokens) => before + kept_tokens(tokens@),
            None => before,
        }
    }
}

/// The tokens at which each word of a transcription begins and ends, counted over all segments.
proof fn lemma_transcription_sources<T>(
    granularity: TimestampGranularity,
    segments: Seq<Option<Vec<Option<WhisperToken<T>>>>>,
) -> (r: (Seq<int>, Seq<int>))
    ensures
        r.0.len() == r.1.len() == all_words(granularity, segments).len(),
        forall|k: int|
            #![trigger r.0[k]]
            #![trigger r.1[k]]
            0 <= k < r.0.len() ==> {
                &&& 0 <= r.0[k] <= r.1[k] < all_kept_tokens(segments).len()
                &&& all_words(granularity, segments)[k].0 == all_kept_tokens(segments)[r.0[k]].0
                &&& all_words(granularity, segments)[k].1 == all_kept_tokens(segments)[r.1[k]].1
            },
        forall|j: int, k: int| 0 <= j <= k < r.0.len() ==> r.0[j] <= r.0[k],
    decreases segments.len(),
{
    if segments.len() == 0 {
        (Seq::empty(), Seq::empty())
    } else {
        let (from, to) = lemma_transcription_sources(granularity, segments.drop_last());
        match segments.last() {
            Some(tokens) => {
                let kept = kept_tokens(tokens@);
                let (more_from, more_to) = if granularity is Token {
                    lemma_token_sources(kept)
                } else {
                    lemma_word_sources(kept)
                };
                let offset = all_kept_tokens(segments.drop_last()).len();
                let r = (
                    from + more_from.map_values(|i: int| i + offset),
                    to + more_to.map_values(|i: int| i + offset),
                );
                assert forall|k: int|
                    #![trigger r.0[k]]
                    #![trigger r.1[k]]
                    0 <= k < r.0.len() implies {
                    &&& 0 <= r.0[k] <= r.1[k] < all_kept_tokens(segments).len()
                    &&& all_words(granularity, segments)[k].0 == all_kept_tokens(segments)[r.0[k]].0
                    &&& all_words(granularity, segments)[k].1 == all_kept_tokens(segments)[r.1[k]].1
                } by {
                    if k < from.len() {
                        assert(r.0[k] == from[k] && r.1[k] == to[k]);
                    } else {
                        assert(r.0[k] == more_from[k - from.len()] + offset);
                        assert(r.1[k] == more_to[k - from.len()] + offset);
                    }
                }
                assert forall|j: int, k: int| 0 <= j <= k < r.0.len() implies r.0[j] <= r.0[k] by {
                    if j < from.len() {
                        assert(r.0[j] == from[j]);
                    }
                    if k >= from.len() {
                        assert(r.0[k] == more_from[k - from.len()] + offset);
                    }
                }
                r
            },
            None => (from, to),
        }
    }
}

/// A transcription keeps time order: if the tokens of all segments are in time order, so are the
/// words that it shows.
pub proof fn transcription_keeps_time_order<T>(
    granularity: TimestampGranularity,
    segments: Seq<Option<Vec<Option<WhisperToken<T>>>>>,
    le: spec_fn(T, T) -> bool,
)
    requires
        in_time_order(all_kept_tokens(segments), le),
    ensures
        in_time_order(all_words(granularity, segments), le),
{
    let words = all_words(granularity, segments);
    let tokens = all_kept_tokens(segments);
    let (from, to) = lemma_transcription_sources(granularity, segments);
    assert forall|i: int, j: int| 0 <= i <= j < words.len() implies le(
        #[trigger] words[i].0,
        #[trigger] words[j].0,
    ) by {
        assert(from[i] <= from[j]);
        assert(le(tokens[from[i]].0, tokens[from[j]].0));
    }
    assert forall|i: int, j: int| 0 <= i <= j < words.len() implies le(
        #[trigger] words[i].0,
        #[trigger] words[j].1,
    ) by {
        assert(from[i] <= from[j] <= to[j]);
        assert(le(tokens[from[i]].0, tokens[to[j]].1));
    }
}

/// A segment as the engine reports it.
pub struct WhisperSegment<T> {
    pub start: T,
    pub end: T,
    /// The segment's text, or what the engine says of why it cannot be read.
    pub text: Result<String, String>,
}

/// Whether the segment was delivered with its text.
pub open spec fn is_readable<T>(segment: Option<WhisperSegment<T>>) -> bool {
    segment matches Some(s) && s.text is Ok
}

/// The message about segment `i`, which was not delivered or has no text.
pub open spec fn unreadable_segment_message<T>(
    segments: Seq<Option<WhisperSegment<T>>>,
    i: int,
) -> Seq<char> {
    match segments[i] {
        Some(s) => s.text->Err_0@,
        None => missing_segment_message(i),
    }
}

/// The spans and texts of the segments.
pub open spec fn segment_texts<T>(segments: Seq<Option<WhisperSegment<T>>>) -> Seq<
    (T, T, Seq<char>),
> {
    segments.map_values(
        |s: Option<WhisperSegment<T>>| (s->0.start, s->0.end, s->0.text->Ok_0@),
    )
}

/// The transcription that the segments make: their texts one behind the other, trimmed as a
/// whole. A segment that the engine did not deliver, or whose text cannot be read, is an error.
pub fn transcription_from_segments<T: Copy>(segments: &[Option<WhisperSegment<T>>]) -> (r: Result<
    TranscriptionResult<T>,
    TranscribeError,
>)
    ensures
        r is Ok <==> (forall|i: int| 0 <= i < segments@.len() ==> is_readable(#[trigger] segments@[i])),
        r matches Ok(t) ==> {
            &&& t.segments matches Some(s)
            &&& s@.map_values(|s: TranscriptionSegment<T>| s@) == segment_texts(segments@)
            &&& t.text@ == trimmed(concatenated(segment_texts(segments@)))
            &&& t.text@ == trimmed(
                segment_texts(segments@).map_values(|w: (T, T, Seq<char>)| w.2).flatten(),
            )
        },
        r matches Err(e) ==> exists|i: int|
            {
                &&& 0 <= i < segments@.len()
                &&& !is_readable(#[trigger] segments@[i])
                &&& forall|j: int| 0 <= j < i ==> is_readable(#[trigger] segments@[j])
                &&& e.is_inference(unreadable_segment_message(segments@, i))
            },
{
    let mut out: Vec<TranscriptionSegment<T>> = Vec::new();
    let mut full_text = String::new();
    let ghost plain = |s: TranscriptionSegment<T>| s@;
    let ghost texts = segment_texts(segments@);
    let mut k: usize = 0;
    assert(out@.map_values(plain) =~= texts.take(0));
    while k < segments.len()
        invariant
            k <= segments@.len(),
            plain == (|s: TranscriptionSegment<T>| s@),
            texts == segment_texts(segments@),
            forall|j: int| 0 <= j < k ==> is_readable(#[trigger] segments@[j]),
            out@.map_values(plain) == texts.take(k as int),
            full_text@ == concatenated(texts.take(k as int)),
        decreases segments@.len() - k,
    {
        assert(texts.take(k + 1).drop_last() =~= texts.take(k as int));
        match &segments[k] {
            Some(segment) => match &segment.text {
                Ok(text) => {
                    full_text.append(text.as_str());
                    out.push(
                        TranscriptionSegment {
                            start: segment.start,
                            end: segment.end,
                            text: text.clone(),
                        },
                    );
                    assert(out@.map_values(plain) =~= texts.take(k + 1));
                },
                Err(message) => {
                    assert(!is_readable(segments@[k as int]));
                    return Err(TranscribeError::Inference(message.clone()));
                },
            },
            None => {
                assert(!is_readable(segments@[k as int]));
                return Err(missing_segment(k));
            },
        }
        k += 1;
    }
    assert(texts.take(k as int) =~= texts);
    proof {
        texts_follow_each_other(texts);
    }
    let text = trim(full_text.as_str());
    Ok(TranscriptionResult { text, segments: Some(out) })
}

/// Stands for automatic selection of the GPU device.
pub const GPU_DEVICE_AUTO: i32 = -1;

/// Parameters for configuring Whisper model loading.
#[derive(Debug, Clone)]
pub struct WhisperLoadParams {
    pub use_gpu: bool,
    /// Enable flash attention for faster inference.
    /// Cannot be used with DTW token-level timestamps.
    pub flash_attn: bool,
    /// GPU device index.
    ///
    /// - [`GPU_DEVICE_AUTO`] (default): automatically select the best GPU
    ///   (prefers dedicated over integrated, then most VRAM).
    /// - `0, 1, 2, ...`: use a specific device by backend index.
    pub gpu_device: i32,
}

impl Default for WhisperLoadParams {
    fn default() -> (r: Self)
        ensures
            r.use_gpu,
            r.flash_attn,
            r.gpu_device == GPU_DEVICE_AUTO,
    {
        WhisperLoadParams { use_gpu: true, flash_attn: true, gpu_device: GPU_DEVICE_AUTO }
    }
}

/// The GPU device that a model is loaded on.
#[derive(Debug, Clone, Copy, PartialEq, Eq, Structural)]
pub enum GpuDevice {
    /// The device with this backend index.
    Index(i32),
    /// The best device, to be selected.
    Auto,
}

/// How a model is to be loaded.
#[derive(Debug, Clone, Copy, PartialEq, Eq, Structural)]
pub struct LoadPlan {
    pub use_gpu: bool,
    pub flash_attn: bool,
    pub gpu_device: GpuDevice,
}

impl WhisperLoadParams {
    /// The parameters under global accelerator and GPU device preferences: what is not preferred
    /// stays at its default.
    pub open spec fn preferred(use_gpu: bool, gpu_device: i32) -> Self {
        WhisperLoadParams { use_gpu, flash_attn: true, gpu_device }
    }

    /// The parameters under global accelerator and GPU device preferences.
    pub fn with_preferences(use_gpu: bool, gpu_device: i32) -> (r: Self)
        ensures
            r == WhisperLoadParams::preferred(use_gpu, gpu_device),
    {
        let defaults = WhisperLoadParams::default();
        WhisperLoadParams { use_gpu, gpu_device, flash_attn: defaults.flash_attn }
    }

    /// The device to load on: the first one where no GPU is used, else the one that is given, or
    /// the best one where that is left to be selected.
    pub open spec fn device(self) -> GpuDevice {
        if !self.use_gpu {
            GpuDevice::Index(0)
        } else if self.gpu_device == GPU_DEVICE_AUTO {
            GpuDevice::Auto
        } else {
            GpuDevice::Index(self.gpu_device)
        }
    }

    /// How a model is loaded with these parameters, or the error that it does not exist.
    pub open spec fn planned(self, model_exists: bool) -> Result<LoadPlan, TranscribeError> {
        if model_exists {
            Ok(
                LoadPlan {
                    use_gpu: self.use_gpu,
                    flash_attn: self.flash_attn,
                    gpu_device: self.device(),
                },
            )
        } else {
            Err(TranscribeError::ModelNotFound)
        }
    }

    /// How to load a model with these parameters. It is an error if the model does not exist.
    pub fn plan(&self, model_exists: bool) -> (r: Result<LoadPlan, TranscribeError>)
        ensures
            r == self.planned(model_exists),
    {
        if !model_exists {
            return Err(TranscribeError::ModelNotFound);
        }
        let gpu_device = if !self.use_gpu {
            GpuDevice::Index(0)
        } else if self.gpu_device == GPU_DEVICE_AUTO {
            GpuDevice::Auto
        } else {
            GpuDevice::Index(self.gpu_device)
        };
        Ok(LoadPlan { use_gpu: self.use_gpu, flash_attn: self.flash_attn, gpu_device })
    }
}

/// Loading under the global preferences is loading with the parameters that hold them and use
/// flash attention: the same plan, and the same error.
pub proof fn preferred_loading_is_loading_with_params(
    use_gpu: bool,
    gpu_device: i32,
    params: WhisperLoadParams,
    model_exists: bool,
)
    requires
        params.use_gpu == use_gpu,
        params.flash_attn,
        params.gpu_device == gpu_device,
    ensures
        WhisperLoadParams::preferred(use_gpu, gpu_device).planned(model_exists) == params.planned(
            model_exists,
        ),
{
}

/// Parameters for configuring Whisper inference behavior. `F` is the type of the threshold.
#[derive(Debug, Clone)]
pub struct WhisperInferenceParams<F> {
    /// Target language for transcription (e.g., "en", "es", "fr").
    /// If None, Whisper will auto-detect the language.
    pub language: Option<String>,
    /// Whether to translate the transcription to English.
    pub translate: bool,
    /// Whether to print special tokens in the output
    pub print_special: bool,
    /// Whether to print progress information during transcription
    pub print_progress: bool,
    /// Whether to print results in real-time as they're generated
    pub print_realtime: bool,
    /// Whether to print timestamp information in the output
    pub print_timestamps: bool,
    /// Whether to suppress blank/empty segments in the output
    pub suppress_blank: bool,
    /// Whether to suppress non-speech tokens
    pub suppress_non_speech_tokens: bool,
    /// Threshold for detecting silence/no-speech segments (between zero and one).
    pub no_speech_thold: F,
    /// Number of CPU threads for decoding. 0 uses the whisper.cpp default (min(4, num_cores)).
    pub n_threads: i32,
    /// Initial prompt to provide context to the model.
    pub initial_prompt: Option<String>,
    /// Timestamp detail to emit. `None`/`Segment` emit segments only; `Word`/`Token` enable
    /// whisper.cpp token timestamps.
    pub timestamp_granularity: Option<TimestampGranularity>,
}

impl<F> WhisperInferenceParams<F> {
    /// The parameters for `language` and `translate` that leave all else at its default.
    pub open spec fn is_plain(
        self,
        language: Option<String>,
        translate: bool,
        no_speech_thold: F,
    ) -> bool {
        &&& self.language is Some <==> language is Some
        &&& language matches Some(l) ==> self.language->0@ == l@
        &&& self.translate == translate
        &&& !self.print_special
        &&& !self.print_progress
        &&& !self.print_realtime
        &&& !self.print_timestamps
        &&& self.suppress_blank
        &&& self.suppress_non_speech_tokens
        &&& self.no_speech_thold == no_speech_thold
        &&& self.n_threads == 0
        &&& self.initial_prompt is None
        &&& self.timestamp_granularity is None
    }

    /// The default parameters, with the given no-speech threshold.
    pub fn with_threshold(no_speech_thold: F) -> (r: Self)
        ensures
            r.is_plain(None, false, no_speech_thold),
    {
        WhisperInferenceParams {
            language: None,
            translate: false,
            print_special: false,
            print_progress: false,
            print_realtime: false,
            print_timestamps: false,
            suppress_blank: true,
            suppress_non_speech_tokens: true,
            no_speech_thold,
            n_threads: 0,
            initial_prompt: None,
            timestamp_granularity: None,
        }
    }

    /// The parameters that the options ask for, with the given no-speech threshold.
    pub fn from_options(options: &TranscribeOptions, no_speech_thold: F) -> (r: Self)
        ensures
            r.is_plain(options.language, options.translate, no_speech_thold),
    {
        let mut params = WhisperInferenceParams::with_threshold(no_speech_thold);
        params.language = match &options.language {
            Some(language) => Some(language.clone()),
            None => None,
        };
        params.translate = options.translate;
        params
    }

    /// The granularity at which tokens are timed, if they are to be timed at all.
    pub fn token_granularity(&self) -> (r: Option<TimestampGranularity>)
        ensures
            r == match self.timestamp_granularity {
                Some(TimestampGranularity::Word) => Some(TimestampGranularity::Word),
                Some(TimestampGranularity::Token) => Some(TimestampGranularity::Token),
                _ => None,
            },
    {
        match self.timestamp_granularity {
            Some(TimestampGranularity::Word) => Some(TimestampGranularity::Word),
            Some(TimestampGranularity::Token) => Some(TimestampGranularity::Token),
            _ => None,
        }
    }

    /// The number of threads to ask the engine for, if its own default is not to be used.
    pub fn thread_override(&self) -> (r: Option<i32>)
        ensures
            self.n_threads > 0 ==> r == Some(self.n_threads),
            self.n_threads <= 0 ==> r is None,
    {
        if self.n_threads > 0 {
            Some(self.n_threads)
        } else {
            None
        }
    }
}

/// The languages of the multilingual models.
pub const MULTILINGUAL_LANGUAGES: [&'static str; 100] = [
    "en", "zh", "de", "es", "ru", "ko", "fr", "ja", "pt", "tr", "pl", "ca", "nl", "ar", "sv",
    "it", "id", "hi", "fi", "vi", "he", "uk", "el", "ms", "cs", "ro", "da", "hu", "ta", "no",
    "th", "ur", "hr", "bg", "lt", "la", "mi", "ml", "cy", "sk", "te", "fa", "lv", "bn", "sr",
    "az", "sl", "kn", "et", "mk", "br", "eu", "is", "hy", "ne", "mn", "bs", "kk", "sq", "sw",
    "gl", "mr", "pa", "si", "km", "sn", "yo", "so", "af", "oc", "ka", "be", "tg", "sd", "gu",
    "am", "yi", "lo", "uz", "fo", "ht", "ps", "tk", "nn", "mt", "sa", "lb", "my", "bo", "tl",
    "mg", "as", "tt", "haw", "ln", "ha", "ba", "jw", "su", "yue",
];

/// The language of the English-only models.
pub const ENGLISH_ONLY_LANGUAGES: [&'static str; 1] = ["en"];

/// What a Whisper model can do.
pub fn whisper_capabilities(is_multilingual: bool) -> (r: ModelCapabilities)
    ensures
        r.name@ == "Whisper"@,
        r.engine_id@ == "whisper_cpp"@,
        r.sample_rate == 16000,
        is_multilingual ==> r.languages@ == MULTILINGUAL_LANGUAGES@,
        !is_multilingual ==> r.languages@ == ENGLISH_ONLY_LANGUAGES@,
        r.supports_timestamps,
        r.supports_translation == is_multilingual,
        !r.supports_streaming,
{
    ModelCapabilities {
        name: "Whisper",
        engine_id: "whisper_cpp",
        sample_rate: 16000,
        languages: if is_multilingual {
            &MULTILINGUAL_LANGUAGES
        } else {
            &ENGLISH_ONLY_LANGUAGES
        },
        supports_timestamps: true,
        supports_translation: is_multilingual,
        supports_streaming: false,
    }
}

/// The special tokens are those whose text begins with `[_`.
pub proof fn special_tokens_begin_with_a_bracket(text: Seq<char>)
    ensures
        is_special(text) <==> "[_"@.is_prefix_of(text),
{
    reveal_strlit("[_");
    if is_special(text) {
        assert("[_"@ =~= text.subrange(0, 2));
    }
    if "[_"@.is_prefix_of(text) {
        assert(text[0] == text.subrange(0, 2)[0]);
        assert(text[1] == text.subrange(0, 2)[1]);
    }
}

proof fn lemma_filter_map_concat<A, B>(xs: Seq<A>, ys: Seq<A>, f: spec_fn(A) -> Option<B>)
    ensures
        (xs + ys).filter_map(f) == xs.filter_map(f) + ys.filter_map(f),
    decreases ys.len(),
{
    if ys.len() == 0 {
        assert(xs + ys =~= xs);
        assert(xs.filter_map(f) + ys.filter_map(f) =~= xs.filter_map(f));
    } else {
        lemma_filter_map_concat(xs, ys.drop_last(), f);
        assert((xs + ys).drop_last() =~= xs + ys.drop_last());
        assert((xs + ys).last() == ys.last());
        assert((xs + ys).filter_map(f) =~= xs.filter_map(f) + ys.filter_map(f));
    }
}

/// Whether a token is kept does not depend on the tokens around it, and those that are kept stay
/// in order.
pub proof fn tokens_are_kept_one_by_one<T>(
    xs: Seq<Option<WhisperToken<T>>>,
    ys: Seq<Option<WhisperToken<T>>>,
)
    ensures
        kept_tokens(xs + ys) == kept_tokens(xs) + kept_tokens(ys),
{
    lemma_filter_map_concat(xs, ys, |t: Option<WhisperToken<T>>| kept_token(t));
}

/// A token is kept, with its own times and all its bytes, exactly if it was delivered, its text
/// and its bytes can be read, and its text does not begin with `[_`.
pub proof fn readable_tokens_are_kept<T>(token: Option<WhisperToken<T>>)
    ensures
        ({
            let readable = token is Some && token->0.text is Some && token->0.bytes is Some
                && !"[_"@.is_prefix_of(token->0.text->0@);
            &&& readable ==> kept_tokens(seq![token]) == seq![
                (token->0.start, token->0.end, token->0.bytes->0@),
            ]
            &&& !readable ==> kept_tokens(seq![token]).len() == 0
        }),
{
    if token is Some && token->0.text is Some {
        special_tokens_begin_with_a_bracket(token->0.text->0@);
    }
    Seq::lemma_filter_map_singleton(token, |t: Option<WhisperToken<T>>| kept_token(t));
}

/// Segments are shown one by one: the words of two runs of segments are the words of the first,
/// followed by those of the second.
pub proof fn segments_are_shown_one_by_one<T>(
    granularity: TimestampGranularity,
    xs: Seq<Option<Vec<Option<WhisperToken<T>>>>>,
    ys: Seq<Option<Vec<Option<WhisperToken<T>>>>>,
)
    ensures
        all_words(granularity, xs + ys) == all_words(granularity, xs) + all_words(granularity, ys),
    decreases ys.len(),
{
    if ys.len() == 0 {
        assert(xs + ys =~= xs);
        assert(all_words(granularity, xs) + all_words(granularity, ys) =~= all_words(
            granularity,
            xs,
        ));
    } else {
        segments_are_shown_one_by_one(granularity, xs, ys.drop_last());
        assert((xs + ys).drop_last() =~= xs + ys.drop_last());
        assert((xs + ys).last() == ys.last());
        assert(all_words(granularity, xs + ys) =~= all_words(granularity, xs) + all_words(
            granularity,
            ys,
        ));
    }
}

/// A segment shows the words of the tokens that are kept of it: grouped, but at token granularity,
/// where each token is shown on its own.
pub proof fn a_segment_shows_its_words<T>(tokens: Vec<Option<WhisperToken<T>>>)
    ensures
        all_words(TimestampGranularity::Word, seq![Some(tokens)]) == shown_words(
            word_groups(kept_tokens(tokens@)),
        ),
        all_words(TimestampGranularity::Segment, seq![Some(tokens)]) == shown_words(
            word_groups(kept_tokens(tokens@)),
        ),
        all_words(TimestampGranularity::Token, seq![Some(tokens)]) == shown_words(
            kept_tokens(tokens@),
        ),
{
    reveal_with_fuel(all_words, 2);
    let segments = seq![Some(tokens)];
    assert(segments.drop_last() =~= Seq::empty());
    assert(all_words(TimestampGranularity::Word, segments) =~= shown_words(
        word_groups(kept_tokens(tokens@)),
    ));
    assert(all_words(TimestampGranularity::Segment, segments) =~= shown_words(
        word_groups(kept_tokens(tokens@)),
    ));
    assert(all_words(TimestampGranularity::Token, segments) =~= shown_words(kept_tokens(tokens@)));
}

proof fn lemma_spaced_concat<T>(xs: Seq<(T, T, Seq<char>)>, ys: Seq<(T, T, Seq<char>)>)
    ensures
        spaced(xs + ys) == spaced(xs) + spaced(ys),
    decreases ys.len(),
{
    if ys.len() == 0 {
        assert(xs + ys =~= xs);
        assert(spaced(xs) + spaced(ys) =~= spaced(xs));
    } else {
        lemma_spaced_concat(xs, ys.drop_last());
        assert((xs + ys).drop_last() =~= xs + ys.drop_last());
        assert((xs + ys).last() == ys.last());
        assert(spaced(xs + ys) =~= spaced(xs) + spaced(ys));
    }
}

/// Words are joined with exactly one space between each two, and all of them are there: joining
/// two runs of words is joining each of them, with a space between the results.
pub proof fn joining_keeps_every_word<T>(
    xs: Seq<(T, T, Seq<char>)>,
    ys: Seq<(T, T, Seq<char>)>,
    word: (T, T, Seq<char>),
)
    ensures
        xs.len() > 0 && ys.len() > 0 ==> joined_by_space(xs + ys) == joined_by_space(xs) + seq![' ']
            + joined_by_space(ys),
        joined_by_space(seq![word]) == word.2,
        joined_by_space(Seq::<(T, T, Seq<char>)>::empty()).len() == 0,
        spaced(xs + ys) == spaced(xs) + spaced(ys),
        spaced(seq![word]) == seq![' '] + word.2,
    decreases ys.len(),
{
    reveal_with_fuel(spaced, 2);
    lemma_spaced_concat(xs, ys);
    let one = seq![word];
    assert(one.drop_last() =~= Seq::empty());
    assert(spaced(one) =~= seq![' '] + word.2);
    if xs.len() > 0 && ys.len() > 0 {
        let both = xs + ys;
        assert(both.drop_last() =~= xs + ys.drop_last());
        assert(both.last() == ys.last());
        if ys.len() == 1 {
            assert(xs + ys.drop_last() =~= xs);
        } else {
            joining_keeps_every_word(xs, ys.drop_last(), word);
        }
        assert(joined_by_space(both) =~= joined_by_space(xs) + seq![' '] + joined_by_space(ys));
    }
}

/// The joined text of segments is the text of each of them, one right behind the other.
pub proof fn texts_follow_each_other<T>(words: Seq<(T, T, Seq<char>)>)
    ensures
        concatenated(words) == words.map_values(|w: (T, T, Seq<char>)| w.2).flatten(),
    decreases words.len(),
{
    let text = |w: (T, T, Seq<char>)| w.2;
    if words.len() > 0 {
        let shorter = words.drop_last();
        texts_follow_each_other(shorter);
        shorter.map_values(text).lemma_flatten_push(words.last().2);
        assert(words.map_values(text) =~= shorter.map_values(text).push(words.last().2));
    }
}

/// One more segment behind others appends its text, and changes nothing before it.
pub proof fn one_more_text_is_appended<T>(
    words: Seq<(T, T, Seq<char>)>,
    word: (T, T, Seq<char>),
)
    ensures
        concatenated(words.push(word)) == concatenated(words) + word.2,
        concatenated(Seq::<(T, T, Seq<char>)>::empty()).len() == 0,
{
    assert(words.push(word).drop_last() =~= words);
}

/// The text of each segment stands in the joined text, behind as many characters as the texts
/// before it have, and the joined text has as many characters as all of them.
pub proof fn each_text_stands_in_its_place<T>(words: Seq<(T, T, Seq<char>)>, k: int)
    requires
        0 <= k < words.len(),
    ensures
        ({
            let count = |n: int, w: (T, T, Seq<char>)| n + w.2.len();
            let before = words.take(k).fold_left(0int, count);
            &&& concatenated(words).len() == words.fold_left(0int, count)
            &&& 0 <= before
            &&& before + words[k].2.len() <= concatenated(words).len()
            &&& concatenated(words).subrange(before, before + words[k].2.len()) == words[k].2
        }),
    decreases words.len(),
{
    let count = |n: int, w: (T, T, Seq<char>)| n + w.2.len();
    let before = words.take(k).fold_left(0int, count);
    let shorter = words.drop_last();
    lemma_joined_length(words);
    lemma_joined_length(words.take(k));
    if k < shorter.len() {
        each_text_stands_in_its_place(shorter, k);
        assert(shorter.take(k) =~= words.take(k));
        assert(concatenated(words).subrange(before, before + words[k].2.len())
            =~= concatenated(shorter).subrange(before, before + words[k].2.len()));
    } else {
        assert(words.take(k) =~= shorter);
        assert(concatenated(words).subrange(before, before + words[k].2.len()) =~= words[k].2);
    }
}

proof fn lemma_joined_length<T>(words: Seq<(T, T, Seq<char>)>)
    ensures
        concatenated(words).len() == words.fold_left(
            0int,
            |n: int, w: (T, T, Seq<char>)| n + w.2.len(),
        ),
    decreases words.len(),
{
    if words.len() > 0 {
        lemma_joined_length(words.drop_last());
    }
}

/// Every segment that can be read keeps its own times and its own text, in its own place.
pub proof fn segments_keep_times_and_texts<T>(segments: Seq<Option<WhisperSegment<T>>>, k: int)
    requires
        0 <= k < segments.len(),
    ensures
        segment_texts(segments).len() == segments.len(),
        segments[k] matches Some(s) ==> (s.text matches Ok(text) ==> segment_texts(segments)[k] == (
            s.start,
            s.end,
            text@,
        )),
        is_readable(segments[k]) <==> segments[k] is Some && segments[k]->0.text is Ok,
        segments[k] matches Some(s) ==> (s.text matches Err(cause) ==> unreadable_segment_message(
            segments,
            k,
        ) == cause@),
        segments[k] is None ==> unreadable_segment_message(segments, k) == missing_segment_message(
            k,
        ),
{
}

/// The message about a missing segment says which one it is: between its fixed words stands the
/// segment's number.
pub proof fn missing_segment_is_numbered(i: usize)
    ensures
        ({
            let message = missing_segment_message(i as int);
            &&& "segment "@.is_prefix_of(message)
            &&& " out of bounds"@.is_suffix_of(message)
            &&& parsed_usize(message.subrange(8, message.len() - 14)) == Some(i as int)
        }),
{
    reveal_strlit("segment ");
    reveal_strlit(" out of bounds");
    let message = missing_segment_message(i as int);
    usize_reads_back(i);
    assert(message.subrange(8, message.len() - 14) =~= decimal(i as nat));
    assert("segment "@ =~= message.subrange(0, 8));
    assert(" out of bounds"@ =~= message.subrange(message.len() - 14, message.len() as int));
}

/// A model that exists is always loaded, with the flags that are given. Without a GPU the device is
/// the first; with one it is the device that is given, and it is selected automatically exactly
/// where that is asked for. A model that does not exist is never loaded.
pub proof fn loading_follows_the_parameters(params: WhisperLoadParams)
    ensures
        params.planned(false) == Err::<LoadPlan, TranscribeError>(TranscribeError::ModelNotFound),
        params.planned(true) is Ok,
        ({
            let plan = params.planned(true)->Ok_0;
            &&& plan.use_gpu == params.use_gpu
            &&& plan.flash_attn == params.flash_attn
            &&& !params.use_gpu ==> plan.gpu_device == GpuDevice::Index(0)
            &&& params.use_gpu && params.gpu_device != -1 ==> plan.gpu_device == GpuDevice::Index(
                params.gpu_device,
            )
            &&& plan.gpu_device is Auto <==> params.use_gpu && params.gpu_device == -1
        }),
{
}

/// The preferences set the parameters that they are about, and leave flash attention on.
pub proof fn preferences_are_kept(use_gpu: bool, gpu_device: i32)
    ensures
        WhisperLoadParams::preferred(use_gpu, gpu_device).use_gpu == use_gpu,
        WhisperLoadParams::preferred(use_gpu, gpu_device).gpu_device == gpu_device,
        WhisperLoadParams::preferred(use_gpu, gpu_device).flash_attn,
{
}

/// Parameters that leave all but the language and the translation at its default hold the language
/// and the translation that are asked for.
pub proof fn plain_parameters_hold_what_is_asked<F>(
    params: WhisperInferenceParams<F>,
    language: Option<String>,
    translate: bool,
    no_speech_thold: F,
)
    requires
        params.is_plain(language, translate, no_speech_thold),
    ensures
        language is None ==> params.language is None,
        language matches Some(l) ==> (params.language matches Some(held) && held@ == l@),
        params.translate == translate,
        params.no_speech_thold == no_speech_thold,
        params.suppress_blank && params.suppress_non_speech_tokens,
        !params.print_special && !params.print_progress,
        !params.print_realtime && !params.print_timestamps,
        params.n_threads == 0,
        params.initial_prompt is None && params.timestamp_granularity is None,
{
}

} // verus!
