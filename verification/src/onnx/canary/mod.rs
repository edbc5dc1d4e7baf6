//! The Canary speech models.
use ort::session::Session;
use vstd::prelude::*;
use crate::onnx::inputs::{
    a_name_without_input_is_not_found, describe_inputs, described_inputs, find_input, input_named,
    input_views, InputView, ModelInput,
};
use crate::types::{
    inference_error, is_outcome, ModelCapabilities, TranscribeError, TranscribeOptions,
};

pub mod decoder;
pub mod decoding;

verus! {

/// Known Canary model variants, auto-detected from vocabulary size.
#[derive(Debug, Clone, Copy, PartialEq, Eq, Structural)]
pub enum CanaryVariant {
    /// Canary Flash models (180M Flash, 1B Flash): 4 languages.
    Flash,
    /// Canary 1B v2: 27 languages, of which [`V2_LANGUAGES`] lists 25.
    V2,
}

/// The 4 languages of the Flash models.
pub const FLASH_LANGUAGES: [&'static str; 4] = ["en", "de", "es", "fr"];

/// The languages of the 1B v2 model, as far as their codes are known here: 25 of its 27.
pub const V2_LANGUAGES: [&'static str; 25] = [
    "bg", "hr", "cs", "da", "nl", "en", "et", "fi", "fr", "de", "el", "hu", "it", "lv", "lt", "mt",
    "pl", "pt", "ro", "sk", "sl", "es", "sv", "ru", "uk",
];

impl CanaryVariant {
    /// Tells the variant by the size of the vocabulary.
    pub fn detect(vocab_size: usize) -> (r: Self)
        ensures
            vocab_size < 10_000 ==> r == CanaryVariant::Flash,
            vocab_size >= 10_000 ==> r == CanaryVariant::V2,
    {
        if vocab_size < 10_000 {
            CanaryVariant::Flash
        } else {
            CanaryVariant::V2
        }
    }

    /// The name of the variant.
    pub fn name(self) -> (r: &'static str)
        ensures
            self is Flash ==> r@ == "Canary Flash"@,
            self is V2 ==> r@ == "Canary 1B v2"@,
    {
        match self {
            CanaryVariant::Flash => "Canary Flash",
            CanaryVariant::V2 => "Canary 1B v2",
        }
    }

    /// The languages that the variant is known for: all 4 of the Flash models, and those 25 of
    /// the 27 of the 1B v2 model that [`V2_LANGUAGES`] lists.
    pub fn languages(self) -> (r: &'static [&'static str])
        ensures
            self is Flash ==> r@ == FLASH_LANGUAGES@ && r@.len() == 4,
            self is V2 ==> r@ == V2_LANGUAGES@,
    {
        match self {
            CanaryVariant::Flash => &FLASH_LANGUAGES,
            CanaryVariant::V2 => &V2_LANGUAGES,
        }
    }

    /// What a model of the variant can do.
    pub fn capabilities(self) -> (r: ModelCapabilities)
        ensures
            self is Flash ==> r.name@ == "Canary Flash"@ && r.languages@ == FLASH_LANGUAGES@,
            self is V2 ==> r.name@ == "Canary 1B v2"@ && r.languages@ == V2_LANGUAGES@,
            r.engine_id@ == "canary"@,
            r.sample_rate == 16000,
            !r.supports_timestamps,
            r.supports_translation,
            !r.supports_streaming,
    {
        ModelCapabilities {
            name: self.name(),
            engine_id: "canary",
            sample_rate: 16000,
            languages: self.languages(),
            supports_timestamps: false,
            supports_translation: true,
            supports_streaming: false,
        }
    }
}

/// Per-model inference parameters for Canary.
#[derive(Debug, Clone)]
pub struct CanaryParams {
    /// Source language hint (e.g. "en", "de"). Defaults to "en".
    pub language: Option<String>,
    /// Target language for translation (e.g. "en"). Defaults to source language.
    pub target_language: Option<String>,
    /// Punctuation and capitalization. When true, the model adds proper punctuation
    /// and capitalization to the output. When false, output is more literal/raw.
    /// Defaults to true.
    pub use_pnc: bool,
    /// Inverse text normalization. When true, spoken numbers and quantities are
    /// converted to written form (e.g. "one hundred twenty three" to "123").
    /// Only supported on V2 models; silently ignored on Flash models.
    /// Defaults to true.
    pub use_itn: bool,
    /// Maximum number of tokens to generate. The tokens of the prompt count towards it, so that
    /// the whole sequence fits the model's position table. Defaults to 1024.
    pub max_sequence_length: usize,
}

impl Default for CanaryParams {
    fn default() -> (r: Self)
        ensures
            r.language is None,
            r.target_language is None,
            r.use_pnc,
            r.use_itn,
            r.max_sequence_length == 1024,
    {
        CanaryParams {
            language: None,
            target_language: None,
            use_pnc: true,
            use_itn: true,
            max_sequence_length: 1024,
        }
    }
}

/// What a transcription asks of a Canary model, with nothing left open.
pub struct CanaryRequest {
    pub src_lang: String,
    pub tgt_lang: String,
    pub use_pnc: bool,
    pub use_itn: bool,
    pub max_sequence_length: usize,
}

/// The language, or English where none is given.
pub open spec fn language_or_english(language: Option<String>) -> Seq<char> {
    match language {
        Some(l) => l@,
        None => "en"@,
    }
}

impl CanaryParams {
    /// The request that the parameters make of a model: languages that are not given take their
    /// defaults, and inverse text normalization is left off on Flash models, which would answer
    /// it with empty output.
    pub fn request(&self, variant: CanaryVariant) -> (r: CanaryRequest)
        ensures
            r.src_lang@ == language_or_english(self.language),
            self.target_language matches Some(l) ==> r.tgt_lang@ == l@,
            self.target_language is None ==> r.tgt_lang@ == language_or_english(self.language),
            r.use_pnc == self.use_pnc,
            r.use_itn == (self.use_itn && variant != CanaryVariant::Flash),
            r.max_sequence_length == self.max_sequence_length,
    {
        let src_lang = match &self.language {
            Some(l) => l.clone(),
            None => "en".to_string(),
        };
        let tgt_lang = match &self.target_language {
            Some(l) => l.clone(),
            None => src_lang.clone(),
        };
        CanaryRequest {
            src_lang,
            tgt_lang,
            use_pnc: self.use_pnc,
            use_itn: self.use_itn && variant != CanaryVariant::Flash,
            max_sequence_length: self.max_sequence_length,
        }
    }

    /// The parameters that the options ask for: translation goes to English.
    pub fn from_options(options: &TranscribeOptions) -> (r: Self)
        ensures
            r.language is Some,
            r.language->0@ == language_or_english(options.language),
            r.target_language is Some,
            options.translate ==> r.target_language->0@ == "en"@,
            !options.translate ==> r.target_language->0@ == language_or_english(options.language),
            r.use_pnc,
            r.use_itn,
            r.max_sequence_length == 1024,
    {
        let src_lang = match &options.language {
            Some(l) => l.clone(),
            None => "en".to_string(),
        };
        let tgt_lang = if options.translate {
            "en".to_string()
        } else {
            src_lang.clone()
        };
        let mut params = CanaryParams::default();
        params.language = Some(src_lang);
        params.target_language = Some(tgt_lang);
        params
    }
}

/// The encoder graphs that can be run.
#[derive(Debug, Clone, Copy, PartialEq, Eq, Structural)]
pub enum CanaryEncoderFormat {
    FluidInference,
    Sherpa,
}

/// The encoder format of a graph with the given inputs, or the message that there is none.
pub open spec fn encoder_format(inputs: Seq<InputView>) -> Result<
    CanaryEncoderFormat,
    Seq<char>,
> {
    if input_named(inputs, "audio_signal"@) is Some {
        Ok(CanaryEncoderFormat::FluidInference)
    } else if input_named(inputs, "x"@) is Some {
        Ok(CanaryEncoderFormat::Sherpa)
    } else {
        Err("Unsupported Canary encoder inputs: expected audio_signal or x"@)
    }
}

/// Tells the encoder format by the inputs of its graph.
pub fn encoder_format_of(inputs: &[ModelInput]) -> (r: Result<
    CanaryEncoderFormat,
    TranscribeError,
>)
    ensures
        is_outcome(r, encoder_format(input_views(inputs@))),
{
    if find_input(inputs, "audio_signal").is_some() {
        return Ok(CanaryEncoderFormat::FluidInference);
    }
    if find_input(inputs, "x").is_some() {
        return Ok(CanaryEncoderFormat::Sherpa);
    }
    Err(inference_error("Unsupported Canary encoder inputs: expected audio_signal or x"))
}

/// Tells the encoder format of a loaded encoder.
pub fn detect_encoder_format(encoder: &Session) -> (r: Result<
    CanaryEncoderFormat,
    TranscribeError,
>)
    ensures
        is_outcome(r, encoder_format(described_inputs(*encoder))),
{
    let inputs = describe_inputs(encoder);
    encoder_format_of(inputs.as_slice())
}

/// The names of the encoder's inputs: the features and their length.
pub fn encoder_input_names(format: CanaryEncoderFormat) -> (r: (&'static str, &'static str))
    ensures
        format is FluidInference ==> r.0@ == "audio_signal"@ && r.1@ == "length"@,
        format is Sherpa ==> r.0@ == "x"@ && r.1@ == "x_len"@,
{
    match format {
        CanaryEncoderFormat::FluidInference => ("audio_signal", "length"),
        CanaryEncoderFormat::Sherpa => ("x", "x_len"),
    }
}

/// The name of the encoder's output with the embeddings.
pub fn encoder_embeddings_output_name(format: CanaryEncoderFormat) -> (r: &'static str)
    ensures
        format is FluidInference ==> r@ == "encoder_embeddings"@,
        format is Sherpa ==> r@ == "enc_states"@,
{
    match format {
        CanaryEncoderFormat::FluidInference => "encoder_embeddings",
        CanaryEncoderFormat::Sherpa => "enc_states",
    }
}

/// The name of the encoder's output with the mask.
pub fn encoder_mask_output_name(format: CanaryEncoderFormat) -> (r: &'static str)
    ensures
        format is FluidInference ==> r@ == "encoder_mask"@,
        format is Sherpa ==> r@ == "enc_mask"@,
{
    match format {
        CanaryEncoderFormat::FluidInference => "encoder_mask",
        CanaryEncoderFormat::Sherpa => "enc_mask",
    }
}

/// The shape of the waveform that the preprocessor is run on: one row with all the samples.
pub fn waveform_shape(num_samples: usize) -> (r: Vec<i64>)
    ensures
        r@ == seq![1i64, num_samples as i64],
{
    vec![1, num_samples as i64]
}

/// The inputs that the preprocessor is run on, by name.
pub fn preprocessor_inputs<V>(waveforms: V, waveforms_lens: V) -> (r: Vec<(String, V)>)
    ensures
        r@.map_values(|i: (String, V)| (i.0@, i.1)) == seq![
            ("waveforms"@, waveforms),
            ("waveforms_lens"@, waveforms_lens),
        ],
{
    let mut inputs: Vec<(String, V)> = Vec::new();
    inputs.push(("waveforms".to_string(), waveforms));
    inputs.push(("waveforms_lens".to_string(), waveforms_lens));
    assert(inputs@.map_values(|i: (String, V)| (i.0@, i.1)) =~= seq![
        ("waveforms"@, waveforms),
        ("waveforms_lens"@, waveforms_lens),
    ]);
    inputs
}

/// The order in which a sherpa encoder takes the axes of the preprocessor's features: the last
/// two change places.
pub const SHERPA_FEATURE_AXES: [usize; 3] = [0, 2, 1];

/// The inputs that the encoder is run on, by name.
pub fn encoder_inputs<V>(format: CanaryEncoderFormat, features: V, features_lens: V) -> (r: Vec<
    (String, V),
>)
    ensures
        format is FluidInference ==> r@.map_values(|i: (String, V)| (i.0@, i.1)) == seq![
            ("audio_signal"@, features),
            ("length"@, features_lens),
        ],
        format is Sherpa ==> r@.map_values(|i: (String, V)| (i.0@, i.1)) == seq![
            ("x"@, features),
            ("x_len"@, features_lens),
        ],
{
    let (features_name, lens_name) = encoder_input_names(format);
    let mut inputs: Vec<(String, V)> = Vec::new();
    inputs.push((features_name.to_string(), features));
    inputs.push((lens_name.to_string(), features_lens));
    assert(inputs@.map_values(|i: (String, V)| (i.0@, i.1)) =~= seq![
        (features_name@, features),
        (lens_name@, features_lens),
    ]);
    inputs
}

/// The features and their length, given what the preprocessor handed out. It is an error if one
/// of them is missing.
pub fn preprocessor_outputs<V>(features: Option<V>, features_lens: Option<V>) -> (r: Result<
    (V, V),
    TranscribeError,
>)
    ensures
        features is None ==> r is Err && r->Err_0.is_inference("Missing features output"@),
        features is Some && features_lens is None ==> r is Err && r->Err_0.is_inference(
            "Missing features_lens output"@,
        ),
        features is Some && features_lens is Some ==> r == Ok::<(V, V), TranscribeError>(
            (features->0, features_lens->0),
        ),
{
    match (features, features_lens) {
        (Some(f), Some(l)) => Ok((f, l)),
        (None, _) => Err(inference_error("Missing features output")),
        (Some(_), None) => Err(inference_error("Missing features_lens output")),
    }
}

/// The embeddings and their mask, given what the encoder handed out. It is an error if one of
/// them is missing.
pub fn encoder_outputs<V>(embeddings: Option<V>, mask: Option<V>) -> (r: Result<
    (V, V),
    TranscribeError,
>)
    ensures
        embeddings is None ==> r is Err && r->Err_0.is_inference(
            "Missing encoder embeddings output"@,
        ),
        embeddings is Some && mask is None ==> r is Err && r->Err_0.is_inference(
            "Missing encoder mask output"@,
        ),
        embeddings is Some && mask is Some ==> r == Ok::<(V, V), TranscribeError>(
            (embeddings->0, mask->0),
        ),
{
    match (embeddings, mask) {
        (Some(e), Some(m)) => Ok((e, m)),
        (None, _) => Err(inference_error("Missing encoder embeddings output")),
        (Some(_), None) => Err(inference_error("Missing encoder mask output")),
    }
}

/// The file of the preprocessor in a model directory.
pub const PREPROCESSOR_FILE: &'static str = "nemo128.onnx";

/// The names that an encoder's file may have, the preferred one first.
pub const ENCODER_NAMES: [&'static str; 2] = ["encoder-model", "encoder"];

/// The names that a decoder's file may have, the preferred one first.
pub const DECODER_NAMES: [&'static str; 2] = ["decoder-model", "decoder"];

/// Which of the possible files to load, given which of them exist: the first that does, or the
/// first of all where none does.
pub fn resolve_canary_model_path(exists: &[bool]) -> (r: usize)
    requires
        exists@.len() > 0,
    ensures
        r < exists@.len(),
        exists@.contains(true) ==> exists@[r as int] && forall|j: int|
            0 <= j < r ==> !#[trigger] exists@[j],
        !exists@.contains(true) ==> r == 0,
{
    let mut k: usize = 0;
    while k < exists.len()
        invariant
            k <= exists@.len(),
            forall|j: int| 0 <= j < k ==> !#[trigger] exists@[j],
        decreases exists@.len() - k,
    {
        if exists[k] {
            return k;
        }
        k += 1;
    }
    0
}

/// A language that is given is taken as it stands, and English where none is given.
pub proof fn a_given_language_is_taken(language: String)
    ensures
        language_or_english(Some(language)) == language@,
        language_or_english(None) == "en"@,
{
}

/// The encoder format depends on the names of the inputs alone: a graph with an input
/// `audio_signal` anywhere is a FluidInference encoder, else one with an input `x` anywhere is a
/// sherpa encoder, and any other is none.
pub proof fn encoder_format_is_told_by_names(inputs: Seq<InputView>)
    ensures
        ({
            let audio_signal = exists|k: int|
                0 <= k < inputs.len() && (#[trigger] inputs[k]).0 == "audio_signal"@;
            let x = exists|k: int| 0 <= k < inputs.len() && (#[trigger] inputs[k]).0 == "x"@;
            &&& encoder_format(inputs) == Ok::<_, Seq<char>>(CanaryEncoderFormat::FluidInference)
                <==> audio_signal
            &&& encoder_format(inputs) == Ok::<_, Seq<char>>(CanaryEncoderFormat::Sherpa) <==> x
                && !audio_signal
            &&& encoder_format(inputs) is Err <==> !x && !audio_signal
            &&& encoder_format(inputs) matches Err(message) ==> message
                == "Unsupported Canary encoder inputs: expected audio_signal or x"@
        }),
{
    a_name_without_input_is_not_found(inputs, "audio_signal"@);
    a_name_without_input_is_not_found(inputs, "x"@);
}

} // verus!
