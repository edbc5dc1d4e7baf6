use transcribe_rs::decode::tokens::{
    load_vocab, load_vocab_if_it_fits, max_token_id, parse_vocab, replace_symbol,
    resolve_vocab_path, SymbolTable,
};

/// sherpa-onnx writes a space as a LITERAL token of its own, so its line is "  0" (token,
/// separator, id). Reading from the left would lose it and glue the words together.
#[test]
fn sherpa_literal_space_token_survives() {
    let (vocab, blank) = load_vocab("  0\nа 1\nб 2\n<blk> 3\n");
    assert_eq!(
        vocab[0], " ",
        "the space token has to survive, or the text is glued together"
    );
    assert_eq!(vocab[1], "а");
    assert_eq!(blank, Some(3));
}

/// FluidInference encodes a space with the marker U+2581.
#[test]
fn fluidinference_underscore_marker_still_maps_to_space() {
    let (vocab, blank) = load_vocab("\u{2581}word 5\nsuffix 6\n<blk> 7\n");
    assert_eq!(vocab[5], " word");
    assert_eq!(vocab[6], "suffix");
    assert_eq!(blank, Some(7));
}

#[test]
fn resolve_vocab_prefers_vocab_then_tokens_then_canonical_name() {
    // nothing there: the canonical name, so that an error names vocab.txt
    assert!(resolve_vocab_path(false, false).ends_with("vocab.txt"));
    // only the sherpa name
    assert!(resolve_vocab_path(false, true).ends_with("tokens.txt"));
    // both: vocab.txt comes first
    assert!(resolve_vocab_path(true, true).ends_with("vocab.txt"));
    assert!(resolve_vocab_path(true, false).ends_with("vocab.txt"));
}

#[test]
fn vocab_gaps_are_empty_and_the_last_line_of_an_id_counts() {
    let (vocab, blank) = load_vocab("a 4\nb 1\nc 4\n");
    let shown: Vec<&str> = vocab.iter().map(|s| s.as_str()).collect();
    assert_eq!(shown, ["", "b", "", "", "c"]);
    assert_eq!(blank, None);
}

#[test]
fn empty_vocab_holds_one_empty_token() {
    let (vocab, blank) = load_vocab("");
    assert_eq!(vocab, [""]);
    assert_eq!(blank, None);
}

#[test]
fn vocab_lines_without_id_are_passed_over() {
    let entries = parse_vocab("nospace\na x\nb -1\nc +2\r\nd 3 \n\ne 18446744073709551616\n 7\r\r\nf 1_0");
    let shown: Vec<(&str, usize)> = entries.iter().map(|e| (e.token.as_str(), e.id)).collect();
    assert_eq!(shown, [("c", 2), ("", 7)]);
    assert_eq!(max_token_id(&entries), 7);
}

#[test]
fn vocab_tokens_keep_their_spaces_and_inner_marks() {
    let entries = parse_vocab(" a b  1\n\u{2581}\u{2581}x\u{2581} 2");
    assert_eq!(entries[0].token, " a b ");
    assert_eq!(entries[1].token, "\u{2581}\u{2581}x\u{2581}");
    let (vocab, _) = load_vocab("\u{2581}\u{2581}x\u{2581} 0");
    assert_eq!(vocab[0], "  x ");
}

#[test]
fn the_last_blank_counts() {
    let (vocab, blank) = load_vocab("<blk> 1\n<blk> 2");
    assert_eq!(blank, Some(2));
    assert_eq!(vocab.len(), 3);
    assert_eq!(vocab[1], "<blk>");
}

#[test]
fn vocab_with_an_unlistable_id_is_told_apart() {
    assert!(load_vocab_if_it_fits("a 18446744073709551615").is_none());
    let (vocab, blank) = load_vocab_if_it_fits("a 0\n<blk> 1").unwrap();
    assert_eq!(vocab, ["a", "<blk>"]);
    assert_eq!(blank, Some(1));
}

#[test]
fn symbols_are_split_at_the_last_whitespace() {
    let table = SymbolTable::load("  hello world\t5 \r\nx 6\n\nnot\ny\u{3000}-7\nz z\n<s>  8");
    assert_eq!(table.get(5), Some("hello world"));
    assert_eq!(table.get(6), Some("x"));
    assert_eq!(table.get(-7), Some("y"));
    assert_eq!(table.get(8), Some("<s> "));
    assert_eq!(table.get(0), None);
    assert_eq!(table.get_or_empty(6), "x");
    assert_eq!(table.get_or_empty(9), "");
}

#[test]
fn symbol_ids_span_the_whole_range() {
    let table = SymbolTable::load(
        "a 9223372036854775807\nb -9223372036854775808\nc 9223372036854775808\nd +1\ne -0",
    );
    assert_eq!(table.get(i64::MAX), Some("a"));
    assert_eq!(table.get(i64::MIN), Some("b"));
    assert_eq!(table.get(1), Some("d"));
    assert_eq!(table.get(0), Some("e"));
}

#[test]
fn the_later_symbol_of_an_id_counts() {
    let table = SymbolTable::load("a 1\nb 1\nc 2");
    assert_eq!(table.get(1), Some("b"));
    assert_eq!(table.get(2), Some("c"));
    assert_eq!(table.len(), 2);
    assert_eq!(SymbolTable::load("").len(), 0);
}

#[test]
fn base64_symbols_are_decoded_and_others_kept() {
    // "hello", the Cyrillic "мир", a text that is no base64, one whose bytes are no UTF-8, and
    // one without its padding
    let mut table =
        SymbolTable::load("aGVsbG8= 1\n0LzQuNGA 2\n<unk> 3\n//79 4\naGVsbG8 5\n");
    table.apply_base64_decode();
    assert_eq!(table.get(1), Some("hello"));
    assert_eq!(table.get(2), Some("мир"));
    assert_eq!(table.get(3), Some("<unk>"));
    assert_eq!(table.get(4), Some("//79"));
    assert_eq!(table.get(5), Some("aGVsbG8"));
    assert_eq!(table.get(6), None);
}

#[test]
fn replaced_symbols() {
    assert_eq!(replace_symbol("s", None), "s");
    assert_eq!(replace_symbol("s", Some(vec![0x68, 0x69])), "hi");
    assert_eq!(replace_symbol("s", Some(vec![0xff])), "s");
    assert_eq!(replace_symbol("s", Some(vec![])), "");
}

#[test]
fn a_written_vocabulary_is_read_back() {
    let tokens = [" ", "", "  two ", "a b", "\r", "7", "\u{2581}x"];
    let mut file = String::new();
    for (id, token) in tokens.iter().enumerate() {
        file.push_str(&format!("{} {}\n", token, id * 11));
    }
    let entries = parse_vocab(&file);
    assert_eq!(entries.len(), tokens.len());
    for (k, entry) in entries.iter().enumerate() {
        assert_eq!((entry.token.as_str(), entry.id), (tokens[k], k * 11));
    }
    let (vocab, _) = load_vocab(&file);
    for (k, token) in tokens.iter().enumerate() {
        assert_eq!(vocab[k * 11], token.replace('\u{2581}', " "));
    }
}

#[test]
fn a_written_symbol_table_is_read_back() {
    let symbols = [(i64::MIN, "a"), (-1, "b c"), (0, "d "), (i64::MAX, "\u{2581}e\tf")];
    let mut file = String::new();
    for (id, symbol) in symbols.iter() {
        file.push_str(&format!("{} {}\n", symbol, id));
    }
    let table = SymbolTable::load(&file);
    for (id, symbol) in symbols.iter() {
        assert_eq!(table.get(*id), Some(*symbol));
    }
}

#[test]
fn lines_with_carriage_returns_are_read_back() {
    let entries = parse_vocab("  0\r\na b 1\r\n\r 2\r\n");
    let shown: Vec<(&str, usize)> = entries.iter().map(|e| (e.token.as_str(), e.id)).collect();
    assert_eq!(shown, [(" ", 0), ("a b", 1), ("\r", 2)]);
    let table = SymbolTable::load("a b -1\r\nc 2\r\n");
    assert_eq!(table.get(-1), Some("a b"));
    assert_eq!(table.get(2), Some("c"));
}
