# transcribe_rs

The decisions and the text handling of a speech-to-text toolkit, written in Rust and verified
with Verus: every function of `src/` states what it returns or changes, and the contract is
proved.

- `src/word_grouping.rs`: recognised tokens into timed words
- `src/whisper_cpp/`: loading plan, parameters and transcriptions of the Whisper engine
- `src/onnx/`: the inputs of ONNX graphs, and the Canary models with their decoding loops
- `src/decode/`: vocabulary files and symbol tables
- `src/text.rs`, `src/number.rs`: trimming, lines, UTF-8 and decimal numbers
- `src/types.rs`: what the models share

Times and thresholds are type parameters, so that callers measure in whatever they like.

What goes through another crate is stated without proof, and each such item says `Trusted:` in
its documentation: UTF-8 decoding and `String::push` of the standard library, base64 decoding
of `base64`, and what an `ort` session tells of its graph's inputs.

`app/` holds the files, sessions and engine calls around the library, and `tests/` its tests.
