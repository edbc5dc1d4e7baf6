use transcribe_rs::types::{
    TimestampGranularity, TranscribeError, TranscribeOptions, TranscriptionResult,
};
use transcribe_rs::whisper_cpp::{
    is_special_token, keep_tokens, transcription_from_segments, transcription_from_tokens,
    whisper_capabilities, GpuDevice, WhisperInferenceParams, WhisperLoadParams, WhisperSegment,
    WhisperToken, GPU_DEVICE_AUTO,
};

fn token(start: f32, end: f32, text: &str) -> Option<WhisperToken<f32>> {
    Some(WhisperToken {
        text: Some(text.to_string()),
        bytes: Some(text.as_bytes().to_vec()),
        start,
        end,
    })
}

fn segment(start: f32, end: f32, text: &str) -> Option<WhisperSegment<f32>> {
    Some(WhisperSegment {
        start,
        end,
        text: Ok(text.to_string()),
    })
}

fn message(r: Result<TranscriptionResult<f32>, TranscribeError>) -> String {
    match r {
        Err(TranscribeError::Inference(m)) => m,
        _ => panic!("no inference error"),
    }
}

fn parts(r: &TranscriptionResult<f32>) -> Vec<(f32, f32, &str)> {
    r.segments
        .as_ref()
        .unwrap()
        .iter()
        .map(|s| (s.start, s.end, s.text.as_str()))
        .collect()
}

#[test]
fn special_tokens_are_told_by_their_text() {
    assert!(is_special_token("[_BEG_]"));
    assert!(is_special_token("[_"));
    assert!(!is_special_token("["));
    assert!(!is_special_token(" [_TT_5]"));
    assert!(!is_special_token(""));
}

#[test]
fn dropped_tokens_leave_no_trace() {
    let tokens = vec![
        token(0.0, 0.0, "[_BEG_]"),
        None,
        token(0.0, 0.1, " a"),
        Some(WhisperToken { text: None, bytes: Some(vec![0x62]), start: 0.1, end: 0.2 }),
        Some(WhisperToken { text: Some("c".to_string()), bytes: None, start: 0.2, end: 0.3 }),
        token(0.3, 0.4, "d"),
    ];
    let kept = keep_tokens(&tokens);
    assert_eq!(kept.len(), 2);
    assert_eq!(kept[0].bytes, b" a");
    assert_eq!((kept[1].start, kept[1].end), (0.3, 0.4));
}

#[test]
fn word_granularity_groups_tokens() {
    let segments = vec![
        Some(vec![token(0.0, 0.0, "[_BEG_]"), token(0.0, 0.1, " hel"), token(0.1, 0.2, "lo")]),
        Some(vec![token(0.2, 0.4, " there"), token(0.4, 0.5, " ")]),
    ];
    let r = transcription_from_tokens(TimestampGranularity::Word, &segments).unwrap();
    assert_eq!(r.text, "hello there");
    assert_eq!(parts(&r), [(0.0, 0.2, "hello"), (0.2, 0.4, "there")]);
}

#[test]
fn token_granularity_keeps_tokens_apart() {
    let segments = vec![Some(vec![
        token(0.0, 0.1, " hel"),
        token(0.1, 0.2, "lo"),
        token(0.2, 0.3, "  "),
    ])];
    let r = transcription_from_tokens(TimestampGranularity::Token, &segments).unwrap();
    assert_eq!(r.text, "hel lo");
    assert_eq!(parts(&r), [(0.0, 0.1, "hel"), (0.1, 0.2, "lo")]);
}

#[test]
fn no_segments_make_an_empty_text() {
    let r = transcription_from_tokens::<f32>(TimestampGranularity::Word, &[]).unwrap();
    assert_eq!(r.text, "");
    assert_eq!(parts(&r).len(), 0);
}

#[test]
fn a_missing_segment_of_tokens_is_an_error() {
    let segments = vec![Some(vec![]), None, None];
    assert_eq!(
        message(transcription_from_tokens(TimestampGranularity::Word, &segments)),
        "segment 1 out of bounds"
    );
}

#[test]
fn segments_are_put_one_behind_the_other() {
    let segments = vec![segment(0.0, 1.5, " Hello,"), segment(1.5, 2.0, " world. ")];
    let r = transcription_from_segments(&segments).unwrap();
    assert_eq!(r.text, "Hello, world.");
    assert_eq!(parts(&r), [(0.0, 1.5, " Hello,"), (1.5, 2.0, " world. ")]);
}

#[test]
fn missing_and_unreadable_segments_are_errors() {
    let mut segments: Vec<Option<WhisperSegment<f32>>> = Vec::new();
    for _ in 0..12 {
        segments.push(segment(0.0, 0.1, "a"));
    }
    segments.push(None);
    assert_eq!(message(transcription_from_segments(&segments)), "segment 12 out of bounds");
    segments[3] = Some(WhisperSegment {
        start: 0.0,
        end: 0.1,
        text: Err("invalid utf-8".to_string()),
    });
    assert_eq!(message(transcription_from_segments(&segments)), "invalid utf-8");
}

#[test]
fn load_defaults_use_the_best_gpu() {
    let params = WhisperLoadParams::default();
    assert!(params.use_gpu && params.flash_attn);
    assert_eq!(params.gpu_device, GPU_DEVICE_AUTO);
    let plan = params.plan(true).unwrap();
    assert!(plan.use_gpu && plan.flash_attn);
    assert_eq!(plan.gpu_device, GpuDevice::Auto);
}

#[test]
fn load_plans_pick_the_device() {
    let params = WhisperLoadParams::with_preferences(true, 2);
    assert_eq!(params.plan(true).unwrap().gpu_device, GpuDevice::Index(2));
    let params = WhisperLoadParams::with_preferences(false, 2);
    let plan = params.plan(true).unwrap();
    assert_eq!(plan.gpu_device, GpuDevice::Index(0));
    assert!(!plan.use_gpu && plan.flash_attn);
    assert!(matches!(params.plan(false), Err(TranscribeError::ModelNotFound)));
}

#[test]
fn inference_defaults() {
    let p = WhisperInferenceParams::with_threshold(0.2_f32);
    assert_eq!(p.language, None);
    assert!(!p.translate && !p.print_special && !p.print_progress);
    assert!(!p.print_realtime && !p.print_timestamps);
    assert!(p.suppress_blank && p.suppress_non_speech_tokens);
    assert_eq!(p.no_speech_thold, 0.2);
    assert_eq!(p.n_threads, 0);
    assert_eq!(p.initial_prompt, None);
    assert_eq!(p.timestamp_granularity, None);
    assert_eq!(p.token_granularity(), None);
    assert_eq!(p.thread_override(), None);
}

#[test]
fn inference_options_and_overrides() {
    let options = TranscribeOptions { language: Some("de".to_string()), translate: true };
    let mut p = WhisperInferenceParams::from_options(&options, 0.2_f32);
    assert_eq!(p.language.as_deref(), Some("de"));
    assert!(p.translate && p.suppress_blank);
    p.n_threads = 3;
    assert_eq!(p.thread_override(), Some(3));
    p.n_threads = -3;
    assert_eq!(p.thread_override(), None);
    p.timestamp_granularity = Some(TimestampGranularity::Segment);
    assert_eq!(p.token_granularity(), None);
    p.timestamp_granularity = Some(TimestampGranularity::Word);
    assert_eq!(p.token_granularity(), Some(TimestampGranularity::Word));
    p.timestamp_granularity = Some(TimestampGranularity::Token);
    assert_eq!(p.token_granularity(), Some(TimestampGranularity::Token));
}

#[test]
fn capabilities_depend_on_the_languages() {
    let c = whisper_capabilities(true);
    assert_eq!((c.name, c.engine_id, c.sample_rate), ("Whisper", "whisper_cpp", 16000));
    assert_eq!(c.languages.len(), 100);
    assert_eq!((c.languages[0], c.languages[99]), ("en", "yue"));
    assert!(c.supports_timestamps && c.supports_translation && !c.supports_streaming);
    let c = whisper_capabilities(false);
    assert_eq!(c.languages, ["en"]);
    assert!(!c.supports_translation);
}

#[test]
fn words_of_ordered_tokens_are_in_time_order() {
    let segments = vec![
        Some(vec![token(0.0, 0.2, " a"), token(0.2, 0.3, "b"), token(0.3, 0.3, " ")]),
        Some(vec![token(0.3, 0.5, "c"), token(0.5, 0.9, " d")]),
    ];
    for granularity in [TimestampGranularity::Word, TimestampGranularity::Token] {
        let r = transcription_from_tokens(granularity, &segments).unwrap();
        let shown = parts(&r);
        assert!(shown.len() >= 3);
        for i in 0..shown.len() {
            for j in i..shown.len() {
                assert!(shown[i].0 <= shown[j].0 && shown[i].0 <= shown[j].1);
            }
        }
    }
}

#[test]
fn loading_by_preference_is_loading_with_params() {
    for use_gpu in [true, false] {
        for gpu_device in [GPU_DEVICE_AUTO, 0, 3] {
            let params = WhisperLoadParams { use_gpu, flash_attn: true, gpu_device };
            let preferred = WhisperLoadParams::with_preferences(use_gpu, gpu_device);
            assert_eq!(preferred.plan(true).unwrap(), params.plan(true).unwrap());
            assert!(matches!(preferred.plan(false), Err(TranscribeError::ModelNotFound)));
            assert!(matches!(params.plan(false), Err(TranscribeError::ModelNotFound)));
        }
    }
}
