//! The decoding loops of Canary models, as what they have done so far and what comes next.
use vstd::prelude::*;
use vstd::string::*;
use crate::number::{decimal, parsed_usize, push_decimal, usize_reads_back};
use crate::onnx::canary::decoder::{mems_input_name, mems_input_name_of};
use crate::types::{inference_error, TranscribeError};

verus! {

/// How far the decoding of one utterance has come.
#[verifier::ext_equal]
pub struct Decoding {
    /// The tokens that the decoder starts from.
    pub prompt: Seq<i64>,
    /// The tokens that it has predicted.
    pub generated: Seq<i64>,
    /// How many tokens it may predict.
    pub max_steps: int,
    /// Whether it has predicted the end.
    pub stopped: bool,
}

impl Decoding {
    /// The start of a decoding. The prompt counts towards the longest sequence.
    pub open spec fn start(prompt: Seq<i64>, max_sequence_length: int) -> Decoding {
        Decoding {
            prompt,
            generated: Seq::empty(),
            max_steps: if max_sequence_length > prompt.len() {
                max_sequence_length - prompt.len()
            } else {
                0
            },
            stopped: false,
        }
    }

    /// Whether no more tokens are to be predicted.
    pub open spec fn finished(self) -> bool {
        self.stopped || self.generated.len() >= self.max_steps
    }

    /// The decoding after one prediction: a token, or the end.
    pub open spec fn after(self, prediction: Option<i64>) -> Decoding {
        if self.finished() {
            self
        } else {
            match prediction {
                Some(token) => Decoding { generated: self.generated.push(token), ..self },
                None => Decoding { stopped: true, ..self },
            }
        }
    }

    /// The decoding after the given predictions. Those that come after its finish count for
    /// nothing.
    pub open spec fn after_all(self, predictions: Seq<Option<i64>>) -> Decoding
        decreases predictions.len(),
    {
        if predictions.len() == 0 {
            self
        } else {
            self.after_all(predictions.drop_last()).after(predictions.last())
        }
    }
}

/// The tokens that are predicted before the first end, at most `limit` of them.
pub open spec fn leading_tokens(predictions: Seq<Option<i64>>, limit: int) -> Seq<i64>
    decreases predictions.len(),
{
    if predictions.len() == 0 {
        Seq::empty()
    } else {
        let before = leading_tokens(predictions.drop_last(), limit);
        match predictions.last() {
            Some(token) => if before.len() == predictions.len() - 1 && before.len() < limit {
                before.push(token)
            } else {
                before
            },
            None => before,
        }
    }
}

/// A decoding generates exactly the tokens that are predicted before the first end, as far as
/// the longest sequence allows, and leaves its prompt and its limit alone.
pub proof fn decoding_generates_leading_tokens(
    prompt: Seq<i64>,
    max_sequence_length: int,
    predictions: Seq<Option<i64>>,
)
    ensures
        ({
            let start = Decoding::start(prompt, max_sequence_length);
            let end = start.after_all(predictions);
            &&& end.prompt == prompt
            &&& end.max_steps == start.max_steps
            &&& end.generated == leading_tokens(predictions, start.max_steps)
            &&& !end.finished() ==> end.generated.len() == predictions.len()
            &&& end.stopped ==> end.generated.len() < predictions.len()
        }),
    decreases predictions.len(),
{
    if predictions.len() > 0 {
        decoding_generates_leading_tokens(
            prompt,
            max_sequence_length,
            predictions.drop_last(),
        );
    }
}

/// The prompt and the generated tokens together never exceed the longest sequence, unless the
/// prompt alone does, and then nothing is generated.
pub proof fn sequence_length_is_bounded(
    prompt: Seq<i64>,
    max_sequence_length: int,
    predictions: Seq<Option<i64>>,
)
    requires
        max_sequence_length >= 0,
    ensures
        ({
            let end = Decoding::start(prompt, max_sequence_length).after_all(predictions);
            &&& prompt.len() <= max_sequence_length ==> prompt.len() + end.generated.len()
                <= max_sequence_length
            &&& prompt.len() >= max_sequence_length ==> end.generated.len() == 0
            &&& end.generated.len() <= max_sequence_length
        }),
    decreases predictions.len(),
{
    decoding_generates_leading_tokens(prompt, max_sequence_length, predictions);
    if predictions.len() > 0 {
        sequence_length_is_bounded(prompt, max_sequence_length, predictions.drop_last());
        decoding_generates_leading_tokens(prompt, max_sequence_length, predictions.drop_last());
    }
}

/// A decoding is over after as many predictions as it may make, whatever they are.
pub proof fn decoding_ends(
    prompt: Seq<i64>,
    max_sequence_length: int,
    predictions: Seq<Option<i64>>,
)
    requires
        predictions.len() >= Decoding::start(prompt, max_sequence_length).max_steps,
    ensures
        Decoding::start(prompt, max_sequence_length).after_all(predictions).finished(),
{
    decoding_generates_leading_tokens(prompt, max_sequence_length, predictions);
}

fn steps_left(prompt_len: usize, max_sequence_length: usize) -> (r: usize)
    ensures
        max_sequence_length > prompt_len ==> r == max_sequence_length - prompt_len,
        max_sequence_length <= prompt_len ==> r == 0,
{
    if max_sequence_length > prompt_len {
        max_sequence_length - prompt_len
    } else {
        0
    }
}

/// The decoding loop of a FluidInference decoder. The first step feeds the prompt, and each
/// later step the token that was predicted last.
pub struct FluidDecoding {
    tokens: Vec<i64>,
    prompt_len: usize,
    max_steps: usize,
    stopped: bool,
}

impl View for FluidDecoding {
    type V = Decoding;

    closed spec fn view(&self) -> Decoding {
        Decoding {
            prompt: self.tokens@.take(self.prompt_len as int),
            generated: self.tokens@.skip(self.prompt_len as int),
            max_steps: self.max_steps as int,
            stopped: self.stopped,
        }
    }
}

impl FluidDecoding {
    /// Whether the parts of the value fit together.
    pub closed spec fn wf(self) -> bool {
        self.prompt_len <= self.tokens@.len() <= self.prompt_len + self.max_steps
    }

    /// Starts to decode from a prompt.
    pub fn new(prompt: Vec<i64>, max_sequence_length: usize) -> (r: Self)
        ensures
            r.wf(),
            r@ == Decoding::start(prompt@, max_sequence_length as int),
    {
        let prompt_len: usize = prompt.len();
        let max_steps: usize = steps_left(prompt_len, max_sequence_length);
        let r = FluidDecoding { tokens: prompt, prompt_len, max_steps, stopped: false };
        assert(r@ =~= Decoding::start(prompt@, max_sequence_length as int));
        r
    }

    /// The token ids to feed to the decoder next, if it is to run another step.
    pub fn next_input(&self) -> (r: Option<Vec<i64>>)
        requires
            self.wf(),
        ensures
            r is None <==> self@.finished(),
            r matches Some(ids) ==> ids@ == if self@.generated.len() == 0 {
                self@.prompt
            } else {
                seq![self@.generated.last()]
            },
    {
        if self.stopped || self.tokens.len() - self.prompt_len >= self.max_steps {
            return None;
        }
        if self.tokens.len() == self.prompt_len {
            let ids = self.tokens.clone();
            assert(ids@ =~= self.tokens@);
            assert(ids@ =~= self@.prompt);
            Some(ids)
        } else {
            let last: i64 = self.tokens[self.tokens.len() - 1];
            Some(vec![last])
        }
    }

    /// Records what a step predicted: a token, or the end. A token is an error if the step did
    /// not hand out the decoder's cache, without which it cannot go on.
    pub fn record(&mut self, prediction: Option<i64>, has_cache: bool) -> (r: Result<
        (),
        TranscribeError,
    >)
        requires
            old(self).wf(),
            !old(self)@.finished(),
        ensures
            final(self).wf(),
            final(self)@ == old(self)@.after(prediction),
            r is Err <==> prediction is Some && !has_cache,
            r matches Err(e) ==> e.is_inference("Missing decoder_hidden_states output"@),
    {
        match prediction {
            Some(token) => {
                self.tokens.push(token);
                assert(self@ =~= old(self)@.after(prediction));
                if !has_cache {
                    return Err(inference_error("Missing decoder_hidden_states output"));
                }
            },
            None => {
                self.stopped = true;
            },
        }
        Ok(())
    }

    /// The prompt and the tokens that were generated from it.
    pub fn into_tokens(self) -> (r: Vec<i64>)
        requires
            self.wf(),
        ensures
            r@ == self@.prompt + self@.generated,
    {
        assert(self.tokens@ =~= self@.prompt + self@.generated);
        self.tokens
    }
}

/// What a sherpa decoding loop does next.
#[derive(Debug, Clone, Copy, PartialEq, Eq, Structural)]
pub enum SherpaAction {
    /// Run the decoder on a token at a position.
    Feed { token: i64, position: i32 },
    /// Predict a token from what the decoder answered last.
    Predict,
    /// Nothing: decoding is over.
    Finish,
}

/// How far a sherpa decoding has come.
#[verifier::ext_equal]
pub struct SherpaProgress {
    pub decoding: Decoding,
    /// How many tokens of the prompt were fed.
    pub prompt_fed: int,
    /// Whether the token that was generated last is still to be fed.
    pub pending: bool,
}

impl SherpaProgress {
    /// What comes next: first the tokens of the prompt are fed one by one, then predicting a
    /// token and feeding it take turns. Positions count from zero in the prompt, and from one
    /// behind it.
    pub open spec fn next_action(self) -> SherpaAction {
        let d = self.decoding;
        if self.prompt_fed < d.prompt.len() {
            SherpaAction::Feed { token: d.prompt[self.prompt_fed], position: self.prompt_fed as i32 }
        } else if self.pending {
            SherpaAction::Feed {
                token: d.generated.last(),
                position: d.generated.len() as i32,
            }
        } else if d.finished() {
            SherpaAction::Finish
        } else {
            SherpaAction::Predict
        }
    }

    /// The progress after a token was fed.
    pub open spec fn after_feed(self) -> SherpaProgress {
        if self.prompt_fed < self.decoding.prompt.len() {
            SherpaProgress { prompt_fed: self.prompt_fed + 1, ..self }
        } else {
            SherpaProgress { pending: false, ..self }
        }
    }

    /// The progress after a prediction: a token, or the end.
    pub open spec fn after_prediction(self, prediction: Option<i64>) -> SherpaProgress {
        SherpaProgress {
            decoding: self.decoding.after(prediction),
            pending: prediction is Some,
            ..self
        }
    }

    /// Whether the parts of the value fit together.
    pub open spec fn wf(self) -> bool {
        &&& 0 <= self.prompt_fed <= self.decoding.prompt.len()
        &&& self.decoding.generated.len() <= self.decoding.max_steps
        &&& self.prompt_fed < self.decoding.prompt.len() ==> self.decoding.generated.len() == 0
        &&& self.pending ==> self.decoding.generated.len() > 0
    }

    /// The tokens that were fed, with their positions.
    pub open spec fn fed(self) -> Seq<(i64, i32)> {
        let d = self.decoding;
        let generated_fed: nat = if self.pending {
            (d.generated.len() - 1) as nat
        } else {
            d.generated.len()
        };
        Seq::new(self.prompt_fed as nat, |k: int| (d.prompt[k], k as i32)) + Seq::new(
            generated_fed,
            |k: int| (d.generated[k], (k + 1) as i32),
        )
    }
}

/// Every token is fed once and in order: feeding adds the token and the position that are next
/// to what was fed, and predicting adds nothing.
pub proof fn sherpa_feeds_in_order(p: SherpaProgress, prediction: Option<i64>)
    requires
        p.wf(),
    ensures
        p.next_action() matches SherpaAction::Feed { token, position } ==> {
            &&& p.after_feed().wf()
            &&& p.after_feed().fed() == p.fed().push((token, position))
        },
        p.next_action() is Predict ==> {
            &&& p.after_prediction(prediction).wf()
            &&& p.after_prediction(prediction).fed() == p.fed()
        },
{
    if p.next_action() is Feed {
        assert(p.after_feed().fed() =~= p.fed().push(
            (p.next_action()->token, p.next_action()->position),
        ));
    }
    if p.next_action() is Predict {
        assert(p.after_prediction(prediction).fed() =~= p.fed());
    }
}

/// When a sherpa decoding is over, the whole prompt and all generated tokens were fed.
pub proof fn sherpa_finishes_with_all_fed(p: SherpaProgress)
    requires
        p.wf(),
        p.next_action() is Finish,
    ensures
        p.decoding.finished(),
        p.fed().len() == p.decoding.prompt.len() + p.decoding.generated.len(),
{
}

/// The decoding loop of a sherpa decoder, which takes one token per step.
pub struct SherpaDecoding {
    prompt: Vec<i64>,
    prompt_fed: usize,
    generated: Vec<i64>,
    max_steps: usize,
    pending: bool,
    stopped: bool,
}

impl View for SherpaDecoding {
    type V = SherpaProgress;

    closed spec fn view(&self) -> SherpaProgress {
        SherpaProgress {
            decoding: Decoding {
                prompt: self.prompt@,
                generated: self.generated@,
                max_steps: self.max_steps as int,
                stopped: self.stopped,
            },
            prompt_fed: self.prompt_fed as int,
            pending: self.pending,
        }
    }
}

impl SherpaDecoding {
    /// Starts to decode from a prompt.
    pub fn new(prompt: Vec<i64>, max_sequence_length: usize) -> (r: Self)
        ensures
            r@.wf(),
            r@ == (SherpaProgress {
                decoding: Decoding::start(prompt@, max_sequence_length as int),
                prompt_fed: 0,
                pending: false,
            }),
    {
        let max_steps: usize = steps_left(prompt.len(), max_sequence_length);
        SherpaDecoding {
            prompt,
            prompt_fed: 0,
            generated: Vec::new(),
            max_steps,
            pending: false,
            stopped: false,
        }
    }

    /// What to do next.
    pub fn next_action(&self) -> (r: SherpaAction)
        requires
            self@.wf(),
        ensures
            r == self@.next_action(),
    {
        if self.prompt_fed < self.prompt.len() {
            return SherpaAction::Feed {
                token: self.prompt[self.prompt_fed],
                position: self.prompt_fed as i32,
            };
        }
        if self.pending {
            return SherpaAction::Feed {
                token: self.generated[self.generated.len() - 1],
                position: self.generated.len() as i32,
            };
        }
        if self.stopped || self.generated.len() >= self.max_steps {
            SherpaAction::Finish
        } else {
            SherpaAction::Predict
        }
    }

    /// Records that the decoder ran on the token it was to be fed.
    pub fn record_feed(&mut self)
        requires
            old(self)@.wf(),
            old(self)@.next_action() is Feed,
        ensures
            final(self)@.wf(),
            final(self)@ == old(self)@.after_feed(),
    {
        if self.prompt_fed < self.prompt.len() {
            self.prompt_fed += 1;
        } else {
            self.pending = false;
        }
    }

    /// Records what was predicted: a token, or the end.
    pub fn record_prediction(&mut self, prediction: Option<i64>)
        requires
            old(self)@.wf(),
            old(self)@.next_action() is Predict,
        ensures
            final(self)@.wf(),
            final(self)@ == old(self)@.after_prediction(prediction),
    {
        match prediction {
            Some(token) => {
                self.generated.push(token);
                self.pending = true;
            },
            None => {
                self.stopped = true;
            },
        }
    }

    /// The tokens that were generated, without the prompt.
    pub fn into_generated(self) -> (r: Vec<i64>)
        ensures
            r@ == self@.decoding.generated,
    {
        self.generated
    }
}

/// The ids that a sherpa decoder is run on: the token, in the width that the graph takes, and
/// its position.
pub fn sherpa_input_ids(token: i64, position: i32) -> (r: Vec<i32>)
    ensures
        r@ == seq![token as i32, position],
{
    vec![
        #[verifier::truncate]
        (token as i32),
        position,
    ]
}

/// The shape of the ids that a decoder is run on: one row with all of them.
pub fn input_ids_shape(count: usize) -> (r: [usize; 2])
    ensures
        r@ == seq![1usize, count],
{
    [1, count]
}

/// The shape of the cache that a FluidInference decoder starts from: all its layers, and no
/// tokens yet.
pub fn fluid_cache_shape(num_layers: usize, hidden_dim: usize) -> (r: [usize; 4])
    ensures
        r@ == seq![num_layers, 1usize, 0usize, hidden_dim],
{
    [num_layers, 1, 0, hidden_dim]
}

/// The shape of the cache that each layer of a sherpa decoder starts from: no tokens yet.
pub fn sherpa_cache_shape(hidden_dim: usize) -> (r: [usize; 3])
    ensures
        r@ == seq![1usize, 0usize, hidden_dim],
{
    [1, 0, hidden_dim]
}

/// The inputs that a FluidInference decoder is run on, by name.
pub fn fluid_step_inputs<V>(input_ids: V, embeddings: V, mask: V, mems: V) -> (r: Vec<(String, V)>)
    ensures
        r@.map_values(|i: (String, V)| (i.0@, i.1)) == seq![
            ("input_ids"@, input_ids),
            ("encoder_embeddings"@, embeddings),
            ("encoder_mask"@, mask),
            ("decoder_mems"@, mems),
        ],
{
    let mut inputs: Vec<(String, V)> = Vec::new();
    inputs.push(("input_ids".to_string(), input_ids));
    inputs.push(("encoder_embeddings".to_string(), embeddings));
    inputs.push(("encoder_mask".to_string(), mask));
    inputs.push(("decoder_mems".to_string(), mems));
    assert(inputs@.map_values(|i: (String, V)| (i.0@, i.1)) =~= seq![
        ("input_ids"@, input_ids),
        ("encoder_embeddings"@, embeddings),
        ("encoder_mask"@, mask),
        ("decoder_mems"@, mems),
    ]);
    inputs
}

/// The inputs that a sherpa decoder is run on, by name: the ids, the encoder's answer, and one
/// cache for each layer.
pub open spec fn sherpa_inputs<V>(ids: V, states: V, mask: V, mems: Seq<V>) -> Seq<(Seq<char>, V)> {
    seq![("decoder_input_ids"@, ids), ("enc_states"@, states), ("enc_mask"@, mask)] + Seq::new(
        mems.len(),
        |k: int| (mems_input_name(k as nat), mems[k]),
    )
}

/// The inputs that a sherpa decoder is run on, by name.
pub fn sherpa_step_inputs<V>(ids: V, states: V, mask: V, mems: Vec<V>) -> (r: Vec<(String, V)>)
    ensures
        r@.map_values(|i: (String, V)| (i.0@, i.1)) == sherpa_inputs(ids, states, mask, mems@),
{
    let ghost plain = |i: (String, V)| (i.0@, i.1);
    let ghost all = sherpa_inputs(ids, states, mask, mems@);
    let ghost caches = mems@;
    let total: usize = mems.len();
    let mut inputs: Vec<(String, V)> = Vec::new();
    inputs.push(("decoder_input_ids".to_string(), ids));
    inputs.push(("enc_states".to_string(), states));
    inputs.push(("enc_mask".to_string(), mask));
    let mut k: usize = 0;
    assert(inputs@.map_values(plain) =~= all.take(3));
    for mem in it: mems
        invariant
            it.seq() == caches,
            k == it.index(),
            k <= total == caches.len(),
            plain == (|i: (String, V)| (i.0@, i.1)),
            all == sherpa_inputs(ids, states, mask, caches),
            inputs@.map_values(plain) == all.take(3 + k),
    {
        let ghost before = inputs@.map_values(plain);
        let name = mems_input_name_of(k);
        inputs.push((name, mem));
        assert(inputs@.map_values(plain) =~= before.push(all[3 + k]));
        assert(all.take(3 + k).push(all[3 + k]) =~= all.take(3 + k + 1));
        k += 1;
    }
    assert(all.take(3 + k) =~= all);
    inputs
}

/// The name of the cache output of layer `n`.
pub open spec fn next_mem_name(n: nat) -> Seq<char> {
    "next_decoder_mem_list_"@ + decimal(n)
}

/// The name of the cache output of layer `n`.
pub fn next_mem_name_of(n: usize) -> (r: String)
    ensures
        r@ == next_mem_name(n as nat),
{
    let mut name = "next_decoder_mem_list_".to_string();
    push_decimal(&mut name, n as u64);
    name
}

/// The caches of all layers, given what the decoder handed out for each. It is an error if one
/// is missing.
pub fn collect_mems<V>(found: Vec<Option<V>>) -> (r: Result<Vec<V>, TranscribeError>)
    ensures
        r is Ok <==> (forall|k: int| 0 <= k < found@.len() ==> (#[trigger] found@[k]) is Some),
        r matches Ok(mems) ==> found@ == mems@.map_values(|v: V| Some(v)),
        r matches Err(e) ==> exists|k: int|
            {
                &&& 0 <= k < found@.len()
                &&& (#[trigger] found@[k]) is None
                &&& forall|j: int| 0 <= j < k ==> (#[trigger] found@[j]) is Some
                &&& e.is_inference("Missing "@ + next_mem_name(k as nat) + " output"@)
            },
{
    let ghost all = found@;
    let total: usize = found.len();
    let mut mems: Vec<V> = Vec::new();
    let mut k: usize = 0;
    for item in it: found
        invariant
            it.seq() == all,
            k == it.index(),
            mems@.len() == k,
            forall|j: int| 0 <= j < k ==> (#[trigger] all[j]) == Some(mems@[j]),
            k <= total == all.len(),
    {
        match item {
            Some(mem) => {
                mems.push(mem);
            },
            None => {
                assert(all[k as int] is None);
                let mut message = "Missing ".to_string();
                message.append(next_mem_name_of(k).as_str());
                message.append(" output");
                return Err(TranscribeError::Inference(message));
            },
        }
        k += 1;
    }
    assert(all =~= mems@.map_values(|v: V| Some(v)));
    Ok(mems)
}

/// The error that the decoder's logits cannot be read, for the given cause.
pub fn unreadable_logits(cause: &str) -> (r: TranscribeError)
    ensures
        r.is_inference("Failed to extract logits: "@ + cause@),
{
    let mut message = "Failed to extract logits: ".to_string();
    message.append(cause);
    TranscribeError::Inference(message)
}

/// Whether the last step of logits of the given shape lies in `data_len` values.
pub open spec fn has_last_step(shape: Seq<i64>, data_len: int) -> bool {
    &&& shape.len() >= 3
    &&& 1 <= shape[1] <= usize::MAX
    &&& 0 <= shape[2] <= usize::MAX
    &&& shape[1] * shape[2] <= data_len
}

/// Whether the last step of logits of the given shape lies in `data_len` values.
pub fn last_step_fits(shape: &[i64], data_len: usize) -> (r: bool)
    ensures
        r == has_last_step(shape@, data_len as int),
{
    if shape.len() < 3 || shape[1] < 1 || shape[2] < 0 {
        return false;
    }
    let seq_len: i128 = shape[1] as i128;
    let vocab_size: i128 = shape[2] as i128;
    if seq_len > usize::MAX as i128 || vocab_size > usize::MAX as i128 {
        return false;
    }
    assert(0 <= seq_len * vocab_size <= i64::MAX * i64::MAX) by (nonlinear_arith)
        requires
            0 <= seq_len <= i64::MAX,
            0 <= vocab_size <= i64::MAX,
    ;
    seq_len * vocab_size <= data_len as i128
}

/// Where the logits of the last step lie: those of `shape[1]` steps follow each other, with
/// `shape[2]` values each.
pub fn last_step_range(shape: &[i64], data_len: usize) -> (r: (usize, usize))
    requires
        has_last_step(shape@, data_len as int),
    ensures
        r.0 == (shape@[1] - 1) * shape@[2],
        r.1 == r.0 + shape@[2],
        r.1 <= data_len,
{
    let seq_len: usize = shape[1] as usize;
    let vocab_size: usize = shape[2] as usize;
    assert((seq_len - 1) * vocab_size + vocab_size == seq_len * vocab_size) by (nonlinear_arith);
    assert((seq_len - 1) * vocab_size >= 0) by (nonlinear_arith)
        requires
            seq_len >= 1,
            vocab_size >= 0,
    ;
    let from: usize = (seq_len - 1) * vocab_size;
    (from, from + vocab_size)
}

proof fn lemma_all_tokens_lead(predictions: Seq<Option<i64>>, limit: int)
    requires
        forall|k: int| 0 <= k < predictions.len() ==> (#[trigger] predictions[k]) is Some,
        limit >= 0,
    ensures
        leading_tokens(predictions, limit).len() == if predictions.len() < limit {
            predictions.len() as int
        } else {
            limit
        },
    decreases predictions.len(),
{
    if predictions.len() > 0 {
        let shorter = predictions.drop_last();
        assert(predictions[predictions.len() - 1] is Some);
        assert forall|k: int| 0 <= k < shorter.len() implies (#[trigger] shorter[k]) is Some by {
            assert(predictions[k] is Some);
        }
        lemma_all_tokens_lead(shorter, limit);
    }
}

/// A decoding that has not predicted the end goes on until the prompt and the generated tokens
/// together fill the longest sequence, and no further.
pub proof fn decoding_goes_on_until_the_sequence_is_full(
    prompt: Seq<i64>,
    max_sequence_length: int,
    predictions: Seq<Option<i64>>,
)
    ensures
        ({
            let end = Decoding::start(prompt, max_sequence_length).after_all(predictions);
            let length = prompt.len() + end.generated.len();
            &&& end.finished() && !end.stopped ==> length >= max_sequence_length
            &&& !end.finished() ==> length < max_sequence_length
            &&& (forall|k: int| 0 <= k < predictions.len() ==> (#[trigger] predictions[k]) is Some)
                && max_sequence_length >= prompt.len() && predictions.len() >= max_sequence_length
                - prompt.len() ==> length == max_sequence_length
            &&& (forall|k: int| 0 <= k < predictions.len() ==> (#[trigger] predictions[k]) is Some)
                && predictions.len() <= max_sequence_length - prompt.len() ==> end.generated.len()
                == predictions.len()
        }),
{
    decoding_generates_leading_tokens(prompt, max_sequence_length, predictions);
    if forall|k: int| 0 <= k < predictions.len() ==> (#[trigger] predictions[k]) is Some {
        lemma_all_tokens_lead(
            predictions,
            Decoding::start(prompt, max_sequence_length).max_steps,
        );
    }
}

/// Every token that is predicted before the end is kept, in order, as long as the sequence has
/// room for it. The end is the end: what is predicted behind it, or behind a full sequence, changes
/// nothing.
pub proof fn decoding_keeps_every_token(
    prompt: Seq<i64>,
    max_sequence_length: int,
    tokens: Seq<i64>,
    rest: Seq<Option<i64>>,
)
    requires
        prompt.len() + tokens.len() <= max_sequence_length,
    ensures
        ({
            let start = Decoding::start(prompt, max_sequence_length);
            let predicted = tokens.map_values(|t: i64| Some(t));
            let reached = start.after_all(predicted);
            let ended = start.after_all(predicted + seq![None] + rest);
            let full = start.after_all(predicted + rest);
            &&& reached.prompt == prompt
            &&& reached.generated == tokens
            &&& !reached.stopped
            &&& reached.finished() <==> prompt.len() + tokens.len() == max_sequence_length
            &&& prompt.len() + tokens.len() < max_sequence_length ==> ended.prompt == prompt
                && ended.generated == tokens && ended.stopped && ended.finished()
            &&& prompt.len() + tokens.len() == max_sequence_length ==> full == reached
        }),
    decreases tokens.len(),
{
    let start = Decoding::start(prompt, max_sequence_length);
    let predicted = tokens.map_values(|t: i64| Some(t));
    if tokens.len() > 0 {
        decoding_keeps_every_token(
            prompt,
            max_sequence_length,
            tokens.drop_last(),
            Seq::empty(),
        );
        assert(predicted.drop_last() =~= tokens.drop_last().map_values(|t: i64| Some(t)));
        assert(tokens.drop_last().push(tokens.last()) =~= tokens);
    }
    let reached = start.after_all(predicted);
    decoding_generates_leading_tokens(prompt, max_sequence_length, predicted);
    assert(reached.generated =~= tokens);
    if prompt.len() + tokens.len() < max_sequence_length {
        let stop = predicted + seq![None];
        assert(stop.drop_last() =~= predicted);
        assert(stop.last() is None);
        assert(start.after_all(stop) == reached.after(None));
        lemma_finished_stays(start, stop, rest);
    } else {
        lemma_finished_stays(start, predicted, rest);
    }
}

/// What is predicted after a decoding is over changes nothing.
proof fn lemma_finished_stays(
    start: Decoding,
    predictions: Seq<Option<i64>>,
    rest: Seq<Option<i64>>,
)
    requires
        start.after_all(predictions).finished(),
    ensures
        start.after_all(predictions + rest) == start.after_all(predictions),
    decreases rest.len(),
{
    if rest.len() == 0 {
        assert(predictions + rest =~= predictions);
    } else {
        lemma_finished_stays(start, predictions, rest.drop_last());
        assert((predictions + rest).drop_last() =~= predictions + rest.drop_last());
    }
}

/// A prompt that fills the longest sequence leaves nothing to decode, and is kept as it stands.
pub proof fn a_full_prompt_is_not_decoded(
    prompt: Seq<i64>,
    max_sequence_length: int,
    predictions: Seq<Option<i64>>,
)
    requires
        prompt.len() >= max_sequence_length,
    ensures
        ({
            let start = Decoding::start(prompt, max_sequence_length);
            let end = start.after_all(predictions);
            &&& start.finished()
            &&& end.prompt == prompt
            &&& end.generated.len() == 0
            &&& end.finished()
        }),
{
    let start = Decoding::start(prompt, max_sequence_length);
    assert(start.after_all(Seq::empty()) == start);
    lemma_finished_stays(start, Seq::empty(), predictions);
    assert(Seq::empty() + predictions =~= predictions);
}

/// A sherpa decoder is fed the prompt from its first token to its last, each with its index in the
/// prompt as its position.
pub proof fn sherpa_feeds_the_prompt_first(prompt: Seq<i64>, max_steps: int, k: int)
    requires
        0 <= k < prompt.len(),
    ensures
        ({
            let decoding = Decoding {
                prompt,
                generated: Seq::empty(),
                max_steps,
                stopped: false,
            };
            let now = SherpaProgress { decoding, prompt_fed: k, pending: false };
            &&& now.next_action() == (SherpaAction::Feed { token: prompt[k], position: k as i32 })
            &&& now.after_feed() == (SherpaProgress { decoding, prompt_fed: k + 1, pending: false })
        }),
{
}

/// Behind the prompt a sherpa decoder predicts and is fed in turns: as long as there are steps left
/// a token is predicted, and the token that was predicted is fed, the first at position one and
/// each at the next, before another is predicted. The end, or the last step, finishes the decoding.
pub proof fn sherpa_predicts_and_feeds_in_turns(
    prompt: Seq<i64>,
    generated: Seq<i64>,
    max_steps: int,
    token: i64,
)
    ensures
        ({
            let decoding = Decoding { prompt, generated, max_steps, stopped: false };
            let longer = Decoding { prompt, generated: generated.push(token), max_steps, stopped: false };
            let ended = Decoding { prompt, generated, max_steps, stopped: true };
            let fed = prompt.len() as int;
            let now = SherpaProgress { decoding, prompt_fed: fed, pending: false };
            &&& generated.len() >= max_steps ==> now.next_action() == SherpaAction::Finish
            &&& generated.len() < max_steps ==> {
                let predicted = now.after_prediction(Some(token));
                let stopped = now.after_prediction(None);
                &&& now.next_action() == SherpaAction::Predict
                &&& predicted == (SherpaProgress { decoding: longer, prompt_fed: fed, pending: true })
                &&& predicted.next_action() == (SherpaAction::Feed {
                    token,
                    position: (generated.len() + 1) as i32,
                })
                &&& predicted.after_feed() == (SherpaProgress {
                    decoding: longer,
                    prompt_fed: fed,
                    pending: false,
                })
                &&& stopped == (SherpaProgress { decoding: ended, prompt_fed: fed, pending: false })
                &&& stopped.next_action() == SherpaAction::Finish
            }
        }),
{
}

/// A sherpa decoder is run on three fixed inputs and on the cache of every layer, each under the
/// name of its own layer.
pub proof fn every_layer_has_its_cache<V>(ids: V, states: V, mask: V, mems: Seq<V>, k: int)
    requires
        0 <= k < mems.len(),
    ensures
        ({
            let inputs = sherpa_inputs(ids, states, mask, mems);
            &&& inputs.len() == 3 + mems.len()
            &&& inputs[0] == ("decoder_input_ids"@, ids)
            &&& inputs[1] == ("enc_states"@, states)
            &&& inputs[2] == ("enc_mask"@, mask)
            &&& inputs[3 + k] == (mems_input_name(k as nat), mems[k])
        }),
{
}

/// The name of a layer's cache output ends with the number of the layer, which reads back from it.
pub proof fn next_mem_is_numbered(n: usize)
    ensures
        "next_decoder_mem_list_"@.is_prefix_of(next_mem_name(n as nat)),
        parsed_usize(next_mem_name(n as nat).skip("next_decoder_mem_list_"@.len() as int)) == Some(
            n as int,
        ),
{
    let prefix = "next_decoder_mem_list_"@;
    usize_reads_back(n);
    assert(next_mem_name(n as nat).skip(prefix.len() as int) =~= decimal(n as nat));
    assert(prefix =~= next_mem_name(n as nat).subrange(0, prefix.len() as int));
}

/// The last step lies in the data exactly if the data holds all the steps: as many values as the
/// second and the third dimension make together. Nothing else of the shape matters, and a shape
/// with fewer dimensions, or without steps, has no last step.
pub proof fn the_last_step_needs_all_steps(shape: Seq<i64>, data_len: int)
    ensures
        shape.len() < 3 ==> !has_last_step(shape, data_len),
        shape.len() >= 3 && (shape[1] < 1 || shape[2] < 0) ==> !has_last_step(shape, data_len),
        shape.len() >= 3 && 1 <= shape[1] <= usize::MAX && 0 <= shape[2] <= usize::MAX ==> (
        has_last_step(shape, data_len) <==> data_len >= shape[1] * shape[2]),
{
}

} // verus!
