//! The decoder graphs of Canary models: which one a session holds, and how its cache is shaped.
use ort::session::Session;
use vstd::prelude::*;
use vstd::string::*;
use crate::number::{
    decimal, decimal_is_injective, parsed_usize, push_decimal, push_signed, signed_decimal,
    usize_reads_back,
};
use crate::onnx::inputs::{
    a_name_without_input_is_not_found, describe_inputs, described_inputs, find_input, input_named,
    input_views, the_first_input_of_a_name_is_found, InputView, ModelInput,
};
use crate::types::{inference_error, is_outcome, TranscribeError};

verus! {

/// The decoder graphs that can be run.
#[derive(Debug, Clone, Copy, PartialEq, Eq, Structural)]
pub enum CanaryDecoderFormat {
    /// One cache input for all layers, and many tokens per step.
    FluidInference,
    /// One cache input per layer, and one token per step.
    Sherpa,
}

/// The decoder format of a graph with the given inputs, or the message that there is none.
pub open spec fn decoder_format(inputs: Seq<InputView>) -> Result<CanaryDecoderFormat, Seq<char>> {
    if input_named(inputs, "decoder_mems"@) is Some {
        Ok(CanaryDecoderFormat::FluidInference)
    } else if input_named(inputs, "decoder_mems_list_0"@) is Some {
        Ok(CanaryDecoderFormat::Sherpa)
    } else {
        Err(
            "Unsupported Canary decoder inputs: expected decoder_mems or decoder_mems_list_0"@,
        )
    }
}

/// Tells the decoder format by the inputs of its graph.
pub fn decoder_format_of(inputs: &[ModelInput]) -> (r: Result<
    CanaryDecoderFormat,
    TranscribeError,
>)
    ensures
        is_outcome(r, decoder_format(input_views(inputs@))),
{
    if find_input(inputs, "decoder_mems").is_some() {
        return Ok(CanaryDecoderFormat::FluidInference);
    }
    if find_input(inputs, "decoder_mems_list_0").is_some() {
        return Ok(CanaryDecoderFormat::Sherpa);
    }
    Err(
        inference_error(
            "Unsupported Canary decoder inputs: expected decoder_mems or decoder_mems_list_0",
        ),
    )
}

/// Tells the decoder format of a loaded decoder.
pub fn detect_decoder_format(decoder: &Session) -> (r: Result<
    CanaryDecoderFormat,
    TranscribeError,
>)
    ensures
        is_outcome(r, decoder_format(described_inputs(*decoder))),
{
    let inputs = describe_inputs(decoder);
    decoder_format_of(inputs.as_slice())
}

/// The number of layers and the hidden size that the input `decoder_mems` fixes, or the message
/// that says why it does not.
pub open spec fn decoder_mems_shape(inputs: Seq<InputView>) -> Result<(usize, usize), Seq<char>> {
    match input_named(inputs, "decoder_mems"@) {
        None => Err("Decoder model missing 'decoder_mems' input"@),
        Some(input) => match input.1 {
            None => Err("decoder_mems input is not a tensor: "@ + input.2),
            Some(dims) => if dims.len() != 4 {
                Err("Expected 4D decoder_mems, got "@ + decimal(dims.len()) + "D"@)
            } else if dims[0] <= 0 || dims[3] <= 0 {
                Err(
                    "decoder_mems has dynamic num_layers ("@ + signed_decimal(dims[0] as int)
                        + ") or hidden_dim ("@ + signed_decimal(dims[3] as int)
                        + "); expected fixed"@,
                )
            } else {
                Ok((dims[0] as usize, dims[3] as usize))
            },
        },
    }
}

/// Reads the number of layers and the hidden size off the input `decoder_mems`.
pub fn decoder_mems_shape_of(inputs: &[ModelInput]) -> (r: Result<
    (usize, usize),
    TranscribeError,
>)
    ensures
        is_outcome(r, decoder_mems_shape(input_views(inputs@))),
{
    let found = match find_input(inputs, "decoder_mems") {
        Some(k) => k,
        None => {
            return Err(inference_error("Decoder model missing 'decoder_mems' input"));
        },
    };
    let input = &inputs[found];
    match &input.shape {
        None => {
            let mut message = "decoder_mems input is not a tensor: ".to_string();
            message.append(input.type_text.as_str());
            Err(TranscribeError::Inference(message))
        },
        Some(dims) => {
            if dims.len() != 4 {
                let mut message = "Expected 4D decoder_mems, got ".to_string();
                push_decimal(&mut message, dims.len() as u64);
                message.append("D");
                return Err(TranscribeError::Inference(message));
            }
            let num_layers: i64 = dims[0];
            let hidden_dim: i64 = dims[3];
            if num_layers <= 0 || hidden_dim <= 0 {
                let mut message = "decoder_mems has dynamic num_layers (".to_string();
                push_signed(&mut message, num_layers);
                message.append(") or hidden_dim (");
                push_signed(&mut message, hidden_dim);
                message.append("); expected fixed");
                return Err(TranscribeError::Inference(message));
            }
            Ok((num_layers as usize, hidden_dim as usize))
        },
    }
}

/// Reads the number of layers and the hidden size of a loaded FluidInference decoder.
pub fn extract_decoder_mems_shape(decoder: &Session) -> (r: Result<
    (usize, usize),
    TranscribeError,
>)
    ensures
        is_outcome(r, decoder_mems_shape(described_inputs(*decoder))),
{
    let inputs = describe_inputs(decoder);
    decoder_mems_shape_of(inputs.as_slice())
}

/// The name of the cache input of layer `n`.
pub open spec fn mems_input_name(n: nat) -> Seq<char> {
    "decoder_mems_list_"@ + decimal(n)
}

/// Whether `n` is the number of layers that have a cache input, counted from the first layer
/// to the first one without.
pub open spec fn is_layer_count(inputs: Seq<InputView>, n: nat) -> bool {
    &&& forall|k: nat| k < n ==> input_named(inputs, #[trigger] mems_input_name(k)) is Some
    &&& input_named(inputs, mems_input_name(n)) is None
}

/// The number of layers and the hidden size of a sherpa decoder with `layers` cache inputs, or
/// the message that says why they cannot be told.
pub open spec fn sherpa_mems_shape(inputs: Seq<InputView>, layers: nat) -> Result<
    (usize, usize),
    Seq<char>,
> {
    match input_named(inputs, "decoder_mems_list_0"@) {
        None => Err("Sherpa decoder model missing decoder_mems_list_* inputs"@),
        Some(input) => match input.1 {
            None => Err("decoder_mems_list_0 input is not a tensor: "@ + input.2),
            Some(dims) => if dims.len() != 3 {
                Err("Expected 3D decoder_mems_list_0, got "@ + decimal(dims.len()) + "D"@)
            } else if dims[2] <= 0 {
                Err(
                    "decoder_mems_list_0 has dynamic hidden_dim ("@ + signed_decimal(
                        dims[2] as int,
                    ) + "); expected fixed"@,
                )
            } else {
                Ok((layers as usize, dims[2] as usize))
            },
        },
    }
}

/// Different layers have cache inputs with different names.
pub proof fn mems_input_names_differ(m: nat, n: nat)
    requires
        mems_input_name(m) == mems_input_name(n),
    ensures
        m == n,
{
    let skip = "decoder_mems_list_"@.len() as int;
    assert(mems_input_name(m).skip(skip) =~= decimal(m));
    assert(mems_input_name(n).skip(skip) =~= decimal(n));
    decimal_is_injective(m, n);
}

proof fn lemma_named_input_is_there(inputs: Seq<InputView>, name: Seq<char>)
    requires
        input_named(inputs, name) is Some,
    ensures
        inputs.map_values(|i: InputView| i.0).contains(name),
    decreases inputs.len(),
{
    let names = inputs.map_values(|i: InputView| i.0);
    if inputs[0].0 == name {
        assert(names[0] == name);
    } else {
        lemma_named_input_is_there(inputs.drop_first(), name);
        let rest = inputs.drop_first().map_values(|i: InputView| i.0);
        let k = choose|k: int| 0 <= k < rest.len() && rest[k] == name;
        assert(names[k + 1] == name);
    }
}

/// A graph has at least as many inputs as it has layers with a cache input.
pub proof fn layers_are_bounded_by_inputs(inputs: Seq<InputView>, n: nat)
    requires
        forall|k: nat| k < n ==> input_named(inputs, #[trigger] mems_input_name(k)) is Some,
    ensures
        n <= inputs.len(),
{
    let names = inputs.map_values(|i: InputView| i.0);
    let wanted = Seq::new(n, |k: int| mems_input_name(k as nat));
    assert(wanted.no_duplicates()) by {
        assert forall|i: int, j: int| 0 <= i < wanted.len() && 0 <= j < wanted.len() && i != j
            implies wanted[i] != wanted[j] by {
            if wanted[i] == wanted[j] {
                mems_input_names_differ(i as nat, j as nat);
            }
        }
    }
    wanted.unique_seq_to_set();
    names.lemma_cardinality_of_set();
    assert(wanted.to_set().subset_of(names.to_set())) by {
        assert forall|name: Seq<char>| wanted.to_set().contains(name) implies names.to_set().contains(
            name,
        ) by {
            let k = choose|k: int| 0 <= k < wanted.len() && wanted[k] == name;
            assert(wanted[k] == mems_input_name(k as nat));
            lemma_named_input_is_there(inputs, name);
        }
    }
    vstd::set_lib::lemma_len_subset(wanted.to_set(), names.to_set());
}

/// A graph has one number of layers.
pub proof fn layer_count_is_unique(inputs: Seq<InputView>, m: nat, n: nat)
    requires
        is_layer_count(inputs, m),
        is_layer_count(inputs, n),
    ensures
        m == n,
{
    if m < n {
        assert(input_named(inputs, mems_input_name(m)) is Some);
    }
    if n < m {
        assert(input_named(inputs, mems_input_name(n)) is Some);
    }
}

/// The name of the cache input of layer `n`.
pub fn mems_input_name_of(n: usize) -> (r: String)
    ensures
        r@ == mems_input_name(n as nat),
{
    let mut name = "decoder_mems_list_".to_string();
    push_decimal(&mut name, n as u64);
    name
}

/// Counts the layers that have a cache input, from the first layer to the first one without.
pub fn count_layers(inputs: &[ModelInput]) -> (r: usize)
    ensures
        is_layer_count(input_views(inputs@), r as nat),
{
    let ghost all = input_views(inputs@);
    let total: usize = inputs.len();
    let mut n: usize = 0;
    let mut name = mems_input_name_of(0);
    while find_input(inputs, name.as_str()).is_some()
        invariant
            all == input_views(inputs@),
            name@ == mems_input_name(n as nat),
            n <= total == inputs@.len(),
            forall|k: nat| k < n ==> input_named(all, #[trigger] mems_input_name(k)) is Some,
        decreases total - n,
    {
        proof {
            layers_are_bounded_by_inputs(all, (n + 1) as nat);
        }
        n += 1;
        name = mems_input_name_of(n);
    }
    n
}

/// Reads the number of layers and the hidden size off the inputs `decoder_mems_list_*`.
pub fn sherpa_mems_shape_of(inputs: &[ModelInput]) -> (r: Result<(usize, usize), TranscribeError>)
    ensures
        exists|layers: nat|
            {
                &&& #[trigger] is_layer_count(input_views(inputs@), layers)
                &&& is_outcome(r, sherpa_mems_shape(input_views(inputs@), layers))
            },
{
    let num_layers = count_layers(inputs);
    let ghost views = input_views(inputs@);
    proof {
        assert(is_layer_count(views, num_layers as nat));
        reveal_strlit("decoder_mems_list_");
        reveal_strlit("decoder_mems_list_0");
        assert(mems_input_name(0) =~= "decoder_mems_list_0"@);
    }
    if num_layers == 0 {
        return Err(inference_error("Sherpa decoder model missing decoder_mems_list_* inputs"));
    }
    proof {
        assert(input_named(views, mems_input_name(0)) is Some);
    }
    let found = match find_input(inputs, "decoder_mems_list_0") {
        Some(k) => k,
        None => {
            return Err(
                inference_error("Sherpa decoder model missing decoder_mems_list_0 input"),
            );
        },
    };
    let input = &inputs[found];
    match &input.shape {
        None => {
            let mut message = "decoder_mems_list_0 input is not a tensor: ".to_string();
            message.append(input.type_text.as_str());
            Err(TranscribeError::Inference(message))
        },
        Some(dims) => {
            if dims.len() != 3 {
                let mut message = "Expected 3D decoder_mems_list_0, got ".to_string();
                push_decimal(&mut message, dims.len() as u64);
                message.append("D");
                return Err(TranscribeError::Inference(message));
            }
            let hidden_dim: i64 = dims[2];
            if hidden_dim <= 0 {
                let mut message = "decoder_mems_list_0 has dynamic hidden_dim (".to_string();
                push_signed(&mut message, hidden_dim);
                message.append("); expected fixed");
                return Err(TranscribeError::Inference(message));
            }
            Ok((num_layers, hidden_dim as usize))
        },
    }
}

/// Reads the number of layers and the hidden size of a loaded sherpa decoder.
pub fn extract_sherpa_decoder_mems_shape(decoder: &Session) -> (r: Result<
    (usize, usize),
    TranscribeError,
>)
    ensures
        exists|layers: nat|
            {
                &&& #[trigger] is_layer_count(described_inputs(*decoder), layers)
                &&& is_outcome(r, sherpa_mems_shape(described_inputs(*decoder), layers))
            },
{
    let inputs = describe_inputs(decoder);
    sherpa_mems_shape_of(inputs.as_slice())
}

/// The decoder format depends on the names of the inputs alone: a graph with an input
/// `decoder_mems` anywhere is a FluidInference decoder, else one with an input
/// `decoder_mems_list_0` anywhere is a sherpa decoder, and any other is none.
pub proof fn decoder_format_is_told_by_names(inputs: Seq<InputView>)
    ensures
        ({
            let mems = exists|k: int|
                0 <= k < inputs.len() && (#[trigger] inputs[k]).0 == "decoder_mems"@;
            let list = exists|k: int|
                0 <= k < inputs.len() && (#[trigger] inputs[k]).0 == "decoder_mems_list_0"@;
            &&& decoder_format(inputs) == Ok::<_, Seq<char>>(CanaryDecoderFormat::FluidInference)
                <==> mems
            &&& decoder_format(inputs) == Ok::<_, Seq<char>>(CanaryDecoderFormat::Sherpa) <==> list
                && !mems
            &&& decoder_format(inputs) is Err <==> !list && !mems
            &&& decoder_format(inputs) matches Err(message) ==> message
                == "Unsupported Canary decoder inputs: expected decoder_mems or decoder_mems_list_0"@
        }),
{
    a_name_without_input_is_not_found(inputs, "decoder_mems"@);
    a_name_without_input_is_not_found(inputs, "decoder_mems_list_0"@);
}

/// The first input `decoder_mems` gives the layers and the hidden size exactly if it is a tensor
/// of four dimensions of which the first and the last are positive, and gives just these two. Any
/// other gives the message that says what is wrong with it.
pub proof fn decoder_mems_gives_its_outer_dimensions(inputs: Seq<InputView>, k: int)
    requires
        0 <= k < inputs.len(),
        inputs[k].0 == "decoder_mems"@,
        forall|j: int| 0 <= j < k ==> (#[trigger] inputs[j]).0 != "decoder_mems"@,
    ensures
        inputs[k].1 is None ==> decoder_mems_shape(inputs) == Err::<(usize, usize), Seq<char>>(
            "decoder_mems input is not a tensor: "@ + inputs[k].2,
        ),
        inputs[k].1 matches Some(dims) ==> {
            &&& dims.len() != 4 ==> decoder_mems_shape(inputs) == Err::<(usize, usize), Seq<char>>(
                "Expected 4D decoder_mems, got "@ + decimal(dims.len()) + "D"@,
            )
            &&& dims.len() == 4 && dims[0] > 0 && dims[3] > 0 ==> decoder_mems_shape(inputs) == Ok::<
                (usize, usize),
                Seq<char>,
            >((dims[0] as usize, dims[3] as usize))
            &&& dims.len() == 4 && !(dims[0] > 0 && dims[3] > 0) ==> decoder_mems_shape(inputs)
                == Err::<(usize, usize), Seq<char>>(
                "decoder_mems has dynamic num_layers ("@ + signed_decimal(dims[0] as int)
                    + ") or hidden_dim ("@ + signed_decimal(dims[3] as int) + "); expected fixed"@,
            )
        },
{
    the_first_input_of_a_name_is_found(inputs, k);
}

/// A graph without an input `decoder_mems` gives no layers and no hidden size.
pub proof fn decoder_mems_must_be_there(inputs: Seq<InputView>)
    requires
        forall|k: int| 0 <= k < inputs.len() ==> (#[trigger] inputs[k]).0 != "decoder_mems"@,
    ensures
        decoder_mems_shape(inputs) == Err::<(usize, usize), Seq<char>>(
            "Decoder model missing 'decoder_mems' input"@,
        ),
{
    a_name_without_input_is_not_found(inputs, "decoder_mems"@);
}

/// The first input `decoder_mems_list_0` gives the hidden size exactly if it is a tensor of three
/// dimensions of which the last is positive, and gives just that one, beside the layers that were
/// counted. Any other gives the message that says what is wrong with it.
pub proof fn decoder_mems_list_gives_its_last_dimension(
    inputs: Seq<InputView>,
    k: int,
    layers: nat,
)
    requires
        0 <= k < inputs.len(),
        inputs[k].0 == "decoder_mems_list_0"@,
        forall|j: int| 0 <= j < k ==> (#[trigger] inputs[j]).0 != "decoder_mems_list_0"@,
    ensures
        inputs[k].1 is None ==> sherpa_mems_shape(inputs, layers) == Err::<
            (usize, usize),
            Seq<char>,
        >("decoder_mems_list_0 input is not a tensor: "@ + inputs[k].2),
        inputs[k].1 matches Some(dims) ==> {
            &&& dims.len() != 3 ==> sherpa_mems_shape(inputs, layers) == Err::<
                (usize, usize),
                Seq<char>,
            >("Expected 3D decoder_mems_list_0, got "@ + decimal(dims.len()) + "D"@)
            &&& dims.len() == 3 && dims[2] > 0 ==> sherpa_mems_shape(inputs, layers) == Ok::<
                (usize, usize),
                Seq<char>,
            >((layers as usize, dims[2] as usize))
            &&& dims.len() == 3 && dims[2] <= 0 ==> sherpa_mems_shape(inputs, layers) == Err::<
                (usize, usize),
                Seq<char>,
            >(
                "decoder_mems_list_0 has dynamic hidden_dim ("@ + signed_decimal(dims[2] as int)
                    + "); expected fixed"@,
            )
        },
{
    the_first_input_of_a_name_is_found(inputs, k);
}

/// A graph without an input `decoder_mems_list_0` gives no layers and no hidden size.
pub proof fn decoder_mems_list_must_be_there(inputs: Seq<InputView>, layers: nat)
    requires
        forall|k: int| 0 <= k < inputs.len() ==> (#[trigger] inputs[k]).0 != "decoder_mems_list_0"@,
    ensures
        sherpa_mems_shape(inputs, layers) == Err::<(usize, usize), Seq<char>>(
            "Sherpa decoder model missing decoder_mems_list_* inputs"@,
        ),
{
    a_name_without_input_is_not_found(inputs, "decoder_mems_list_0"@);
}

/// The name of a layer's cache input ends with the number of the layer, which reads back from it.
pub proof fn mems_input_is_numbered(n: usize)
    ensures
        "decoder_mems_list_"@.is_prefix_of(mems_input_name(n as nat)),
        parsed_usize(mems_input_name(n as nat).skip("decoder_mems_list_"@.len() as int)) == Some(
            n as int,
        ),
{
    let prefix = "decoder_mems_list_"@;
    usize_reads_back(n);
    assert(mems_input_name(n as nat).skip(prefix.len() as int) =~= decimal(n as nat));
    assert(prefix =~= mems_input_name(n as nat).subrange(0, prefix.len() as int));
}

/// The layers are counted by the names of the inputs: each layer before the count has an input of
/// its name somewhere, and the layer at the count has none anywhere.
pub proof fn layers_are_counted_by_names(inputs: Seq<InputView>, n: nat)
    ensures
        is_layer_count(inputs, n) <==> {
            &&& forall|layer: nat|
                layer < n ==> exists|k: int|
                    0 <= k < inputs.len() && (#[trigger] inputs[k]).0 == #[trigger] mems_input_name(
                        layer,
                    )
            &&& forall|k: int|
                0 <= k < inputs.len() ==> (#[trigger] inputs[k]).0 != mems_input_name(n)
        },
{
    a_name_without_input_is_not_found(inputs, mems_input_name(n));
    assert forall|layer: nat| true implies (input_named(inputs, #[trigger] mems_input_name(layer))
        is Some <==> exists|k: int|
        0 <= k < inputs.len() && (#[trigger] inputs[k]).0 == mems_input_name(layer)) by {
        a_name_without_input_is_not_found(inputs, mems_input_name(layer));
    }
}

} // verus!
