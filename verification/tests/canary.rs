use ort::value::{Outlet, Shape, SymbolicDimensions, TensorElementType, ValueType};
use transcribe_rs::onnx::canary::decoder::{
    count_layers, decoder_format_of, decoder_mems_shape_of, mems_input_name_of,
    sherpa_mems_shape_of, CanaryDecoderFormat,
};
use transcribe_rs::onnx::canary::decoding::{
    collect_mems, fluid_cache_shape, fluid_step_inputs, input_ids_shape, last_step_fits,
    last_step_range, next_mem_name_of, sherpa_cache_shape, sherpa_input_ids, sherpa_step_inputs,
    unreadable_logits, FluidDecoding, SherpaAction, SherpaDecoding,
};
use transcribe_rs::onnx::canary::{
    encoder_embeddings_output_name, encoder_format_of, encoder_input_names, encoder_inputs,
    encoder_mask_output_name, encoder_outputs, preprocessor_inputs, preprocessor_outputs,
    resolve_canary_model_path, waveform_shape, CanaryEncoderFormat, CanaryParams, CanaryVariant,
    SHERPA_FEATURE_AXES,
};
use transcribe_rs::onnx::inputs::{describe_outlets, find_input, ModelInput};
use transcribe_rs::types::{require_model, TranscribeError, TranscribeOptions};

fn tensor(name: &str, dims: &[i64]) -> Outlet {
    Outlet::new(
        name,
        ValueType::Tensor {
            ty: TensorElementType::Float32,
            shape: Shape::new(dims.iter().copied()),
            dimension_symbols: SymbolicDimensions::empty(dims.len()),
        },
    )
}

fn map(name: &str) -> Outlet {
    Outlet::new(
        name,
        ValueType::Map { key: TensorElementType::Int64, value: TensorElementType::Float32 },
    )
}

fn inputs(outlets: Vec<Outlet>) -> Vec<ModelInput> {
    describe_outlets(&outlets)
}

fn message<T>(r: Result<T, TranscribeError>) -> String {
    match r {
        Err(TranscribeError::Inference(m)) => m,
        _ => panic!("no inference error"),
    }
}

#[test]
fn outlets_are_described_by_plain_values() {
    let found = inputs(vec![tensor("x", &[1, -1, 128]), map("m")]);
    assert_eq!(found.len(), 2);
    assert_eq!(found[0].name, "x");
    assert_eq!(found[0].shape, Some(vec![1, -1, 128]));
    assert_eq!(found[1].name, "m");
    assert_eq!(found[1].shape, None);
    assert_eq!(found[1].type_text, "Map { key: Int64, value: Float32 }");
    assert_eq!(find_input(&found, "m"), Some(1));
    assert_eq!(find_input(&found, "y"), None);
}

#[test]
fn encoder_formats() {
    let fluid = inputs(vec![tensor("x", &[1]), tensor("audio_signal", &[1])]);
    assert_eq!(encoder_format_of(&fluid).unwrap(), CanaryEncoderFormat::FluidInference);
    let sherpa = inputs(vec![tensor("x_len", &[1]), tensor("x", &[1])]);
    assert_eq!(encoder_format_of(&sherpa).unwrap(), CanaryEncoderFormat::Sherpa);
    assert_eq!(
        message(encoder_format_of(&inputs(vec![tensor("y", &[1])]))),
        "Unsupported Canary encoder inputs: expected audio_signal or x"
    );
}

#[test]
fn decoder_formats() {
    let fluid = inputs(vec![tensor("decoder_mems_list_0", &[1]), tensor("decoder_mems", &[1])]);
    assert_eq!(decoder_format_of(&fluid).unwrap(), CanaryDecoderFormat::FluidInference);
    let sherpa = inputs(vec![tensor("decoder_mems_list_0", &[1])]);
    assert_eq!(decoder_format_of(&sherpa).unwrap(), CanaryDecoderFormat::Sherpa);
    assert_eq!(
        message(decoder_format_of(&[])),
        "Unsupported Canary decoder inputs: expected decoder_mems or decoder_mems_list_0"
    );
}

#[test]
fn fluid_cache_sizes_are_read() {
    let ok = inputs(vec![tensor("a", &[]), tensor("decoder_mems", &[10, -1, -1, 1024])]);
    assert_eq!(decoder_mems_shape_of(&ok).unwrap(), (10, 1024));
    assert_eq!(
        message(decoder_mems_shape_of(&[])),
        "Decoder model missing 'decoder_mems' input"
    );
    assert_eq!(
        message(decoder_mems_shape_of(&inputs(vec![map("decoder_mems")]))),
        "decoder_mems input is not a tensor: Map { key: Int64, value: Float32 }"
    );
    assert_eq!(
        message(decoder_mems_shape_of(&inputs(vec![tensor("decoder_mems", &[1, 2, 3])]))),
        "Expected 4D decoder_mems, got 3D"
    );
    assert_eq!(
        message(decoder_mems_shape_of(&inputs(vec![tensor("decoder_mems", &[-1, 1, 1, 512])]))),
        "decoder_mems has dynamic num_layers (-1) or hidden_dim (512); expected fixed"
    );
    assert_eq!(
        message(decoder_mems_shape_of(&inputs(vec![tensor("decoder_mems", &[4, 1, 1, 0])]))),
        "decoder_mems has dynamic num_layers (4) or hidden_dim (0); expected fixed"
    );
}

#[test]
fn sherpa_cache_sizes_are_read() {
    let layers: Vec<Outlet> =
        [1, 0, 2, 4].iter().map(|n| tensor(&format!("decoder_mems_list_{}", n), &[1, -1, 64])).collect();
    let found = inputs(layers);
    assert_eq!(count_layers(&found), 3);
    assert_eq!(sherpa_mems_shape_of(&found).unwrap(), (3, 64));
    assert_eq!(
        message(sherpa_mems_shape_of(&inputs(vec![tensor("decoder_mems_list_1", &[1])]))),
        "Sherpa decoder model missing decoder_mems_list_* inputs"
    );
    assert_eq!(
        message(sherpa_mems_shape_of(&inputs(vec![map("decoder_mems_list_0")]))),
        "decoder_mems_list_0 input is not a tensor: Map { key: Int64, value: Float32 }"
    );
    assert_eq!(
        message(sherpa_mems_shape_of(&inputs(vec![tensor("decoder_mems_list_0", &[1, 64])]))),
        "Expected 3D decoder_mems_list_0, got 2D"
    );
    assert_eq!(
        message(sherpa_mems_shape_of(&inputs(vec![tensor("decoder_mems_list_0", &[1, 0, i64::MIN])]))),
        "decoder_mems_list_0 has dynamic hidden_dim (-9223372036854775808); expected fixed"
    );
}

#[test]
fn layer_names_are_numbered() {
    assert_eq!(mems_input_name_of(0), "decoder_mems_list_0");
    assert_eq!(mems_input_name_of(10), "decoder_mems_list_10");
    assert_eq!(next_mem_name_of(9), "next_decoder_mem_list_9");
    assert_eq!(mems_input_name_of(usize::MAX), format!("decoder_mems_list_{}", usize::MAX));
}

#[test]
fn fluid_decoding_feeds_the_prompt_then_the_last_token() {
    let mut d = FluidDecoding::new(vec![7, 8], 6);
    assert_eq!(d.next_input(), Some(vec![7, 8]));
    d.record(Some(20), true).unwrap();
    assert_eq!(d.next_input(), Some(vec![20]));
    d.record(Some(21), true).unwrap();
    assert_eq!(d.next_input(), Some(vec![21]));
    d.record(None, false).unwrap();
    assert_eq!(d.next_input(), None);
    assert_eq!(d.into_tokens(), [7, 8, 20, 21]);
}

#[test]
fn fluid_decoding_stays_within_the_longest_sequence() {
    let mut d = FluidDecoding::new(vec![1, 2, 3], 5);
    let mut steps = 0;
    while let Some(_) = d.next_input() {
        d.record(Some(steps), true).unwrap();
        steps += 1;
    }
    assert_eq!(steps, 2);
    assert_eq!(d.into_tokens(), [1, 2, 3, 0, 1]);
    assert_eq!(FluidDecoding::new(vec![1, 2, 3], 3).next_input(), None);
    assert_eq!(FluidDecoding::new(vec![1, 2, 3], 0).next_input(), None);
    assert_eq!(FluidDecoding::new(vec![], 1).next_input(), Some(vec![]));
}

#[test]
fn fluid_decoding_needs_the_cache_to_go_on() {
    let mut d = FluidDecoding::new(vec![1], 9);
    assert_eq!(message(d.record(Some(5), false)), "Missing decoder_hidden_states output");
}

#[test]
fn sherpa_decoding_feeds_every_token_once() {
    let mut d = SherpaDecoding::new(vec![40, 41], 9);
    let mut predictions = vec![Some(50), Some(51), None].into_iter();
    let mut fed = Vec::new();
    loop {
        match d.next_action() {
            SherpaAction::Feed { token, position } => {
                fed.push((token, position));
                d.record_feed();
            }
            SherpaAction::Predict => d.record_prediction(predictions.next().unwrap()),
            SherpaAction::Finish => break,
        }
    }
    assert_eq!(fed, [(40, 0), (41, 1), (50, 1), (51, 2)]);
    assert_eq!(d.into_generated(), [50, 51]);
}

#[test]
fn sherpa_decoding_stays_within_the_longest_sequence() {
    let mut d = SherpaDecoding::new(vec![1], 3);
    let mut fed = 0;
    loop {
        match d.next_action() {
            SherpaAction::Feed { .. } => {
                fed += 1;
                d.record_feed();
            }
            SherpaAction::Predict => d.record_prediction(Some(9)),
            SherpaAction::Finish => break,
        }
    }
    assert_eq!(fed, 3);
    assert_eq!(d.into_generated(), [9, 9]);
    assert_eq!(SherpaDecoding::new(vec![], 0).next_action(), SherpaAction::Finish);
    assert_eq!(SherpaDecoding::new(vec![], 1).next_action(), SherpaAction::Predict);
}

#[test]
fn step_inputs_are_named() {
    assert_eq!(sherpa_input_ids(0x1_0000_0005, 3), [5, 3]);
    let named = fluid_step_inputs('i', 'e', 'm', 'c');
    let shown: Vec<(&str, char)> = named.iter().map(|(n, v)| (n.as_str(), *v)).collect();
    assert_eq!(
        shown,
        [("input_ids", 'i'), ("encoder_embeddings", 'e'), ("encoder_mask", 'm'), ("decoder_mems", 'c')]
    );
    let named = sherpa_step_inputs('i', 's', 'm', vec!['0', '1']);
    let shown: Vec<(&str, char)> = named.iter().map(|(n, v)| (n.as_str(), *v)).collect();
    assert_eq!(
        shown,
        [
            ("decoder_input_ids", 'i'),
            ("enc_states", 's'),
            ("enc_mask", 'm'),
            ("decoder_mems_list_0", '0'),
            ("decoder_mems_list_1", '1'),
        ]
    );
}

#[test]
fn decoders_start_from_empty_caches() {
    assert_eq!(input_ids_shape(7), [1, 7]);
    assert_eq!(fluid_cache_shape(10, 1024), [10, 1, 0, 1024]);
    assert_eq!(sherpa_cache_shape(64), [1, 0, 64]);
}

#[test]
fn caches_are_collected_or_the_first_missing_one_named() {
    assert_eq!(collect_mems(vec![Some('a'), Some('b')]).unwrap(), ['a', 'b']);
    assert_eq!(
        message(collect_mems(vec![Some('a'), None, None])),
        "Missing next_decoder_mem_list_1 output"
    );
}

#[test]
fn the_last_step_of_logits() {
    assert!(last_step_fits(&[1, 4, 10], 40));
    assert_eq!(last_step_range(&[1, 4, 10], 40), (30, 40));
    assert_eq!(last_step_range(&[1, 1, 10], 10), (0, 10));
    assert!(!last_step_fits(&[1, 4, 10], 39));
    assert!(!last_step_fits(&[1, 0, 10], 40));
    assert!(!last_step_fits(&[4, 10], 40));
    assert!(!last_step_fits(&[1, i64::MAX, i64::MAX], usize::MAX));
}

#[test]
fn variants_by_vocabulary_size() {
    assert_eq!(CanaryVariant::detect(9_999), CanaryVariant::Flash);
    assert_eq!(CanaryVariant::detect(10_000), CanaryVariant::V2);
    assert_eq!(CanaryVariant::Flash.name(), "Canary Flash");
    assert_eq!(CanaryVariant::V2.name(), "Canary 1B v2");
    assert_eq!(CanaryVariant::Flash.languages(), ["en", "de", "es", "fr"]);
    assert_eq!(
        CanaryVariant::V2.languages(),
        [
            "bg", "hr", "cs", "da", "nl", "en", "et", "fi", "fr", "de", "el", "hu", "it", "lv",
            "lt", "mt", "pl", "pt", "ro", "sk", "sl", "es", "sv", "ru", "uk",
        ]
    );
    let c = CanaryVariant::V2.capabilities();
    assert_eq!((c.name, c.engine_id, c.sample_rate), ("Canary 1B v2", "canary", 16000));
    assert_eq!(c.languages, CanaryVariant::V2.languages());
    assert!(!c.supports_timestamps && c.supports_translation && !c.supports_streaming);
}

#[test]
fn requests_take_defaults_and_flash_goes_without_itn() {
    let mut p = CanaryParams::default();
    assert!(p.use_pnc && p.use_itn);
    assert_eq!(p.max_sequence_length, 1024);
    let r = p.request(CanaryVariant::V2);
    assert_eq!((r.src_lang.as_str(), r.tgt_lang.as_str()), ("en", "en"));
    assert!(r.use_pnc && r.use_itn);
    assert_eq!(r.max_sequence_length, 1024);
    p.language = Some("de".to_string());
    let r = p.request(CanaryVariant::Flash);
    assert_eq!((r.src_lang.as_str(), r.tgt_lang.as_str()), ("de", "de"));
    assert!(!r.use_itn);
    p.target_language = Some("fr".to_string());
    p.use_pnc = false;
    let r = p.request(CanaryVariant::V2);
    assert_eq!((r.src_lang.as_str(), r.tgt_lang.as_str()), ("de", "fr"));
    assert!(!r.use_pnc);
}

#[test]
fn options_translate_to_english() {
    let p = CanaryParams::from_options(&TranscribeOptions {
        language: Some("es".to_string()),
        translate: true,
    });
    assert_eq!(p.language.as_deref(), Some("es"));
    assert_eq!(p.target_language.as_deref(), Some("en"));
    let p = CanaryParams::from_options(&TranscribeOptions { language: None, translate: false });
    assert_eq!(p.language.as_deref(), Some("en"));
    assert_eq!(p.target_language.as_deref(), Some("en"));
    assert_eq!(p.max_sequence_length, 1024);
}

#[test]
fn graph_names_by_encoder_format() {
    let f = CanaryEncoderFormat::FluidInference;
    let s = CanaryEncoderFormat::Sherpa;
    assert_eq!(encoder_input_names(f), ("audio_signal", "length"));
    assert_eq!(encoder_input_names(s), ("x", "x_len"));
    assert_eq!(encoder_embeddings_output_name(f), "encoder_embeddings");
    assert_eq!(encoder_embeddings_output_name(s), "enc_states");
    assert_eq!(encoder_mask_output_name(f), "encoder_mask");
    assert_eq!(encoder_mask_output_name(s), "enc_mask");
}

#[test]
fn preprocessor_and_encoder_inputs_are_named() {
    let shown = |named: Vec<(String, char)>| -> Vec<String> {
        named.iter().map(|(n, v)| format!("{}={}", n, v)).collect()
    };
    assert_eq!(waveform_shape(16000), [1, 16000]);
    assert_eq!(shown(preprocessor_inputs('w', 'l')), ["waveforms=w", "waveforms_lens=l"]);
    assert_eq!(
        shown(encoder_inputs(CanaryEncoderFormat::FluidInference, 'f', 'l')),
        ["audio_signal=f", "length=l"]
    );
    assert_eq!(
        shown(encoder_inputs(CanaryEncoderFormat::Sherpa, 'f', 'l')),
        ["x=f", "x_len=l"]
    );
    assert_eq!(SHERPA_FEATURE_AXES, [0, 2, 1]);
}

#[test]
fn missing_outputs_are_named() {
    assert_eq!(preprocessor_outputs(Some(1), Some(2)).unwrap(), (1, 2));
    assert_eq!(message(preprocessor_outputs::<u8>(None, None)), "Missing features output");
    assert_eq!(message(preprocessor_outputs(Some(1), None)), "Missing features_lens output");
    assert_eq!(encoder_outputs(Some(1), Some(2)).unwrap(), (1, 2));
    assert_eq!(message(encoder_outputs(None, Some(2))), "Missing encoder embeddings output");
    assert_eq!(message(encoder_outputs(Some(1), None)), "Missing encoder mask output");
}

#[test]
fn the_first_existing_file_is_loaded() {
    assert_eq!(resolve_canary_model_path(&[true, true]), 0);
    assert_eq!(resolve_canary_model_path(&[false, true]), 1);
    assert_eq!(resolve_canary_model_path(&[false, false]), 0);
    assert!(require_model(true).is_ok());
    assert!(matches!(require_model(false), Err(TranscribeError::ModelNotFound)));
}

#[test]
fn unreadable_logits_name_the_cause() {
    let error: Result<(), TranscribeError> = Err(unreadable_logits("not a tensor"));
    assert_eq!(message(error), "Failed to extract logits: not a tensor");
}
