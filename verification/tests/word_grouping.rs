use transcribe_rs::word_grouping::{
    decode_words, group_tokens_into_words, join_tokens, visible_word, RawTok,
};

// bytes emulate whisper token data (text already as UTF-8 bytes), times in seconds.
fn tok(s: f32, e: f32, t: &str) -> RawTok<f32> {
    RawTok {
        start: s,
        end: e,
        bytes: t.as_bytes().to_vec(),
    }
}

#[test]
fn groups_ascii_words_on_leading_space() {
    let toks = vec![
        tok(0.0, 0.1, " hel"),
        tok(0.1, 0.2, "lo"),
        tok(0.2, 0.4, " there"),
    ];
    let words = group_tokens_into_words(&toks);
    assert_eq!(words.len(), 2);
    assert_eq!(words[0].text, "hello");
    assert_eq!(words[0].start, 0.0);
    assert_eq!(words[0].end, 0.2);
    assert_eq!(words[1].text, "there");
    assert_eq!(words[1].start, 0.2);
    assert_eq!(words[1].end, 0.4);
}

#[test]
fn groups_cyrillic_split_across_byte_boundary() {
    // " привет" then "вет" continuation, then " мир". Split a multi-byte char across
    // tokens to prove byte-accumulation + lossy-decode works (here we keep it valid).
    let toks = vec![
        tok(0.0, 0.2, " при"),
        tok(0.2, 0.3, "вет"),
        tok(0.3, 0.5, " мир"),
    ];
    let words = group_tokens_into_words(&toks);
    assert_eq!(words.len(), 2);
    assert_eq!(words[0].text, "привет");
    assert_eq!(words[1].text, "мир");
}

#[test]
fn monotonic_non_decreasing() {
    let toks = vec![
        tok(0.0, 0.2, " a"),
        tok(0.2, 0.5, " b"),
        tok(0.5, 0.9, " c"),
    ];
    let words = group_tokens_into_words(&toks);
    for w in &words {
        assert!(w.end >= w.start);
    }
    for pair in words.windows(2) {
        assert!(pair[1].start >= pair[0].start);
    }
}

fn raw(start: i64, end: i64, bytes: &[u8]) -> RawTok<i64> {
    RawTok {
        start,
        end,
        bytes: bytes.to_vec(),
    }
}

#[test]
fn a_character_split_across_tokens_is_whole_again() {
    let m = "м".as_bytes();
    let toks = vec![raw(0, 1, &[0x20, m[0]]), raw(1, 2, &[m[1]]), raw(2, 3, "ир".as_bytes())];
    let words = group_tokens_into_words(&toks);
    assert_eq!(words.len(), 1);
    assert_eq!(words[0].text, "мир");
    assert_eq!((words[0].start, words[0].end), (0, 3));
}

#[test]
fn tokens_one_by_one_replace_split_characters() {
    let m = "м".as_bytes();
    let toks = vec![raw(0, 1, &[0x20, m[0]]), raw(1, 2, b" ok ")];
    let words = decode_words(&toks);
    assert_eq!(words.len(), 2);
    assert_eq!(words[0].text, "\u{fffd}");
    assert_eq!(words[1].text, "ok");
}

#[test]
fn the_first_token_begins_a_word_without_a_space() {
    let words = group_tokens_into_words(&[raw(3, 4, b"he"), raw(4, 6, b""), raw(6, 7, b"y")]);
    assert_eq!(words.len(), 1);
    assert_eq!(words[0].text, "hey");
    assert_eq!((words[0].start, words[0].end), (3, 7));
}

#[test]
fn words_without_visible_text_are_left_out() {
    let words = group_tokens_into_words(&[raw(0, 1, b"  "), raw(1, 2, b" \n"), raw(2, 3, b" x")]);
    assert_eq!(words.len(), 1);
    assert_eq!(words[0].text, "x");
    assert_eq!(words[0].start, 2);
    let none: [RawTok<i64>; 0] = [];
    assert_eq!(group_tokens_into_words(&none).len(), 0);
}

#[test]
fn joining_keeps_every_byte() {
    let toks = [raw(0, 1, b"a"), raw(1, 2, b" b"), raw(2, 3, &[0xff]), raw(3, 4, b" ")];
    let groups = join_tokens(&toks);
    let joined: Vec<Vec<u8>> = groups.iter().map(|g| g.bytes.clone()).collect();
    assert_eq!(joined, [b"a".to_vec(), vec![0x20, b'b', 0xff], b" ".to_vec()]);
    assert_eq!((groups[1].start, groups[1].end), (1, 3));
}

#[test]
fn visible_words_are_trimmed() {
    assert!(visible_word(0, 1, " \t ").is_none());
    let w = visible_word(0, 1, " a b ").unwrap();
    assert_eq!(w.text, "a b");
}

#[test]
fn runs_that_begin_with_a_space_are_grouped_apart() {
    let first = vec![raw(0, 1, b"he"), raw(1, 2, b"y"), raw(2, 3, b" ")];
    let second = vec![raw(3, 4, b" yo"), raw(4, 5, b"u"), raw(5, 6, b" all")];
    let mut both = first.clone();
    both.extend(second.clone());
    let texts = |tokens: &[RawTok<i64>]| -> Vec<(i64, i64, String)> {
        group_tokens_into_words(tokens)
            .into_iter()
            .map(|w| (w.start, w.end, w.text))
            .collect()
    };
    let mut apart = texts(&first);
    apart.extend(texts(&second));
    assert_eq!(texts(&both), apart);
    assert_eq!(apart.len(), 3);
    assert_eq!(apart[1], (3, 5, "you".to_string()));
}
