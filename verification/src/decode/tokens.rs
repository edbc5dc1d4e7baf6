//! Vocabulary files and symbol tables.
use std::collections::HashMap;
use vstd::prelude::*;
use vstd::utf8::*;
use crate::number::{
    decimal, decimal_reads_back, i64_reads_back, is_digit, parse_i64, parse_usize, parsed_i64,
    parsed_usize, signed_decimal, usize_reads_back,
};
use crate::text::{
    char_is_whitespace, chars_of, decode_strict, first_line_reads_back, is_whitespace, line_bounds,
    lines_of, pieces, string_of, trim_bounds, trim_left, trimmed, trimming_keeps_visible_ends,
    trimming_takes_off_whitespace_only, without_final_cr,
};

verus! {

/// The name of the model's vocabulary file: `vocab.txt` (FluidInference exports) or
/// `tokens.txt` (sherpa-onnx bundles), the same thing under two names. If the model directory
/// holds neither, the answer is `vocab.txt`, so that an error names the canonical file and not
/// the one that was looked for last.
pub fn resolve_vocab_path(vocab_exists: bool, tokens_exists: bool) -> (r: &'static str)
    ensures
        vocab_exists || !tokens_exists ==> r@ == "vocab.txt"@,
        !vocab_exists && tokens_exists ==> r@ == "tokens.txt"@,
{
    if vocab_exists {
        return "vocab.txt";
    }
    if tokens_exists {
        return "tokens.txt";
    }
    "vocab.txt"
}

/// One line of a vocabulary file.
pub struct VocabEntry {
    pub token: String,
    pub id: usize,
}

impl View for VocabEntry {
    type V = (Seq<char>, int);

    open spec fn view(&self) -> (Seq<char>, int) {
        (self.token@, self.id as int)
    }
}

/// `s` without the carriage returns and line feeds at its end.
pub open spec fn without_line_ends(s: Seq<char>) -> Seq<char>
    decreases s.len(),
{
    if s.len() > 0 && (s.last() == '\r' || s.last() == '\n') {
        without_line_ends(s.drop_last())
    } else {
        s
    }
}

/// The token and the id that a line of a vocabulary file gives. The line is read from the
/// right: what follows its last space is the id, and all before that space is the token.
pub open spec fn vocab_entry(line: Seq<char>) -> Option<(Seq<char>, int)> {
    let s = without_line_ends(line);
    match s.index_of_last(' ') {
        Some(i) => match parsed_usize(s.skip(i + 1)) {
            Some(id) => Some((s.take(i), id)),
            None => None,
        },
        None => None,
    }
}

/// The entries of a vocabulary file, in the order of its lines. Lines that hold none are
/// passed over.
pub open spec fn vocab_entries(content: Seq<char>) -> Seq<(Seq<char>, int)> {
    lines_of(content).filter_map(|line: Seq<char>| vocab_entry(line))
}

/// The largest id of the entries, or zero where there are none.
pub open spec fn largest_id(entries: Seq<(Seq<char>, int)>) -> int
    decreases entries.len(),
{
    if entries.len() == 0 {
        0
    } else {
        let before = largest_id(entries.drop_last());
        if entries.last().1 > before {
            entries.last().1
        } else {
            before
        }
    }
}

/// The token that the last entry with the given id has, if there is such an entry.
pub open spec fn token_with_id(entries: Seq<(Seq<char>, int)>, id: int) -> Option<Seq<char>>
    decreases entries.len(),
{
    if entries.len() == 0 {
        None
    } else if entries.last().1 == id {
        Some(entries.last().0)
    } else {
        token_with_id(entries.drop_last(), id)
    }
}

/// The id of the last entry with the given token, if there is such an entry.
pub open spec fn id_of_token(entries: Seq<(Seq<char>, int)>, token: Seq<char>) -> Option<int>
    decreases entries.len(),
{
    if entries.len() == 0 {
        None
    } else if entries.last().0 == token {
        Some(entries.last().1)
    } else {
        id_of_token(entries.drop_last(), token)
    }
}

/// `token` with each word-boundary marker U+2581 turned into a space.
pub open spec fn marker_as_space(token: Seq<char>) -> Seq<char> {
    token.map_values(
        |c: char|
            if c == '\u{2581}' {
                ' '
            } else {
                c
            },
    )
}

/// The text that the vocabulary holds under `id`.
pub open spec fn vocab_text(entries: Seq<(Seq<char>, int)>, id: int) -> Seq<char> {
    match token_with_id(entries, id) {
        Some(token) => marker_as_space(token),
        None => Seq::empty(),
    }
}

fn parse_vocab_line(chars: &[char], from: usize, to: usize) -> (r: Option<VocabEntry>)
    requires
        from <= to <= chars@.len(),
    ensures
        r is Some <==> vocab_entry(chars@.subrange(from as int, to as int)) is Some,
        r matches Some(e) ==> vocab_entry(chars@.subrange(from as int, to as int)) == Some(e@),
{
    let ghost line = chars@.subrange(from as int, to as int);
    let mut end: usize = to;
    while from < end && (chars[end - 1] == '\r' || chars[end - 1] == '\n')
        invariant
            from <= end <= to <= chars@.len(),
            without_line_ends(line) == without_line_ends(
                chars@.subrange(from as int, end as int),
            ),
        decreases end - from,
    {
        assert(chars@.subrange(from as int, end as int).drop_last() =~= chars@.subrange(
            from as int,
            end - 1,
        ));
        end -= 1;
    }
    let ghost s = chars@.subrange(from as int, end as int);
    assert(without_line_ends(line) == s);
    let mut space: usize = end;
    while from < space && chars[space - 1] != ' '
        invariant
            from <= space <= end <= chars@.len(),
            forall|j: int| space <= j < end ==> chars@[j] != ' ',
        decreases space - from,
    {
        space -= 1;
    }
    proof {
        s.index_of_last_ensures(' ');
    }
    if space == from {
        proof {
            if s.contains(' ') {
                let k = s.index_of_last(' ')->0;
                assert(chars@[from + k] == ' ');
            }
        }
        return None;
    }
    proof {
        assert(s[space - 1 - from] == ' ');
        let k = s.index_of_last(' ')->0;
        assert(k == space - 1 - from) by {
            if k > space - 1 - from {
                assert(chars@[from + k] == ' ');
            }
        }
        assert(s.skip(k + 1) =~= chars@.subrange(space as int, end as int));
        assert(s.take(k) =~= chars@.subrange(from as int, space - 1));
    }
    match parse_usize(chars, space, end) {
        Some(id) => Some(VocabEntry { token: string_of(chars, from, space - 1), id }),
        None => None,
    }
}

/// Reads the entries of a vocabulary file, where each line is `token id`.
pub fn parse_vocab(content: &str) -> (r: Vec<VocabEntry>)
    ensures
        r@.map_values(|e: VocabEntry| e@) == vocab_entries(content@),
{
    let chars = chars_of(content);
    let bounds = line_bounds(chars.as_slice());
    let ghost lines = lines_of(content@);
    let ghost read = |line: Seq<char>| vocab_entry(line);
    let ghost plain = |e: VocabEntry| e@;
    let mut entries: Vec<VocabEntry> = Vec::new();
    let mut k: usize = 0;
    assert(entries@.map_values(plain) =~= lines.take(0).filter_map(read));
    while k < bounds.len()
        invariant
            k <= bounds@.len(),
            forall|j: int| 0 <= j < bounds@.len() ==> (#[trigger] bounds@[j]).0 <= bounds@[j].1
                <= chars@.len(),
            lines == pieces(chars@, bounds@),
            read == (|line: Seq<char>| vocab_entry(line)),
            plain == (|e: VocabEntry| e@),
            entries@.map_values(plain) == lines.take(k as int).filter_map(read),
        decreases bounds@.len() - k,
    {
        let (from, to) = bounds[k];
        proof {
            lines.lemma_filter_map_take_succ(read, k as int);
            assert(lines[k as int] == chars@.subrange(from as int, to as int));
        }
        if let Some(entry) = parse_vocab_line(chars.as_slice(), from, to) {
            entries.push(entry);
        }
        assert(entries@.map_values(plain) =~= lines.take(k + 1).filter_map(read));
        k += 1;
    }
    assert(lines.take(k as int) =~= lines);
    entries
}

fn replace_marker(token: &str) -> (r: String)
    ensures
        r@ == marker_as_space(token@),
{
    let chars = chars_of(token);
    let mut out = String::new();
    let mut i: usize = 0;
    while i < chars.len()
        invariant
            i <= chars@.len(),
            out@ == marker_as_space(chars@.take(i as int)),
        decreases chars@.len() - i,
    {
        let c = chars[i];
        if c == '\u{2581}' {
            out.push(' ');
        } else {
            out.push(c);
        }
        i += 1;
        assert(out@ =~= marker_as_space(chars@.take(i as int)));
    }
    assert(chars@.take(i as int) =~= token@);
    out
}

/// The largest id of the entries, or zero where there are none.
pub fn max_token_id(entries: &[VocabEntry]) -> (r: usize)
    ensures
        r == largest_id(entries@.map_values(|e: VocabEntry| e@)),
        forall|k: int| 0 <= k < entries@.len() ==> (#[trigger] entries@[k]).id <= r,
{
    let ghost views = entries@.map_values(|e: VocabEntry| e@);
    let mut max_id: usize = 0;
    let mut k: usize = 0;
    while k < entries.len()
        invariant
            k <= entries@.len(),
            views == entries@.map_values(|e: VocabEntry| e@),
            max_id == largest_id(views.take(k as int)),
            forall|j: int| 0 <= j < k ==> (#[trigger] entries@[j]).id <= max_id,
        decreases entries@.len() - k,
    {
        let id: usize = entries[k].id;
        assert(views.take(k + 1).drop_last() =~= views.take(k as int));
        if id > max_id {
            max_id = id;
        }
        k += 1;
    }
    assert(views.take(k as int) =~= views);
    max_id
}

/// Builds the vocabulary of the entries: a list indexed by token id, in which U+2581 is
/// replaced by a space, and the index of the blank token `<blk>`.
pub fn build_vocab(entries: &[VocabEntry]) -> (r: (Vec<String>, Option<i32>))
    requires
        largest_id(entries@.map_values(|e: VocabEntry| e@)) < usize::MAX,
    ensures
        ({
            let views = entries@.map_values(|e: VocabEntry| e@);
            &&& r.0@.len() == largest_id(views) + 1
            &&& forall|id: int| 0 <= id < r.0@.len() ==> (#[trigger] r.0@[id])@ == vocab_text(views, id)
            &&& id_of_token(views, "<blk>"@) is None ==> r.1 is None
            &&& id_of_token(views, "<blk>"@) matches Some(id) ==> r.1 == Some(id as i32)
            &&& r.1 is None <==> (forall|k: int|
                0 <= k < views.len() ==> (#[trigger] views[k]).0 != "<blk>"@)
            &&& forall|k: int|
                0 <= k < views.len() && (#[trigger] views[k]).0 == "<blk>"@ && (forall|j: int|
                    k < j < views.len() ==> (#[trigger] views[j]).0 != "<blk>"@) ==> r.1
                    == Some(views[k].1 as i32)
        }),
{
    let ghost views = entries@.map_values(|e: VocabEntry| e@);
    let max_id = max_token_id(entries);
    let mut vocab: Vec<String> = Vec::new();
    let mut n: usize = 0;
    while n < max_id + 1
        invariant
            max_id < usize::MAX,
            n <= max_id + 1,
            vocab@.len() == n,
            forall|id: int| 0 <= id < n ==> (#[trigger] vocab@[id])@ == Seq::<char>::empty(),
        decreases max_id + 1 - n,
    {
        vocab.push(String::new());
        n += 1;
    }
    let blank = "<blk>".to_string();
    let mut blank_idx: Option<i32> = None;
    let mut k: usize = 0;
    while k < entries.len()
        invariant
            k <= entries@.len(),
            views == entries@.map_values(|e: VocabEntry| e@),
            blank@ == "<blk>"@,
            vocab@.len() == max_id + 1,
            forall|j: int| 0 <= j < entries@.len() ==> (#[trigger] entries@[j]).id <= max_id,
            forall|id: int|
                0 <= id < vocab@.len() ==> (#[trigger] vocab@[id])@ == vocab_text(
                    views.take(k as int),
                    id,
                ),
            id_of_token(views.take(k as int), "<blk>"@) is None ==> blank_idx is None,
            id_of_token(views.take(k as int), "<blk>"@) matches Some(id) ==> blank_idx == Some(
                id as i32,
            ),
        decreases entries@.len() - k,
    {
        let entry = &entries[k];
        assert(views.take(k + 1).drop_last() =~= views.take(k as int));
        assert(views.take(k + 1).last() == entry@);
        if entry.token == blank {
            blank_idx = Some(entry.id as i32);
        }
        vocab.set(entry.id, replace_marker(entry.token.as_str()));
        k += 1;
    }
    assert(views.take(k as int) =~= views);
    proof {
        a_token_without_entry_has_no_id(views, "<blk>"@);
        assert forall|k: int|
            0 <= k < views.len() && (#[trigger] views[k]).0 == "<blk>"@ && (forall|j: int|
                k < j < views.len() ==> (#[trigger] views[j]).0 != "<blk>"@) implies blank_idx
            == Some(views[k].1 as i32) by {
            last_id_of_a_token_counts(views, k);
        }
    }
    (vocab, blank_idx)
}

/// Load the vocabulary from the content of a file where each line is `token id`.
///
/// Returns a Vec indexed by token ID, and the blank token index.
/// Replaces `U+2581` with space in token strings.
///
/// Two formats are in use, and they differ in how a SPACE is written: FluidInference exports
/// encode it with the marker U+2581, while sherpa-onnx bundles write a literal space as a token
/// of its own, so that its line is two spaces and an id. That is why a line is read from the
/// RIGHT: its last field is the id, and all before it is the token as it stands.
pub fn load_vocab(content: &str) -> (r: (Vec<String>, Option<i32>))
    requires
        largest_id(vocab_entries(content@)) < usize::MAX,
    ensures
        r.0@.len() == largest_id(vocab_entries(content@)) + 1,
        forall|id: int|
            0 <= id < r.0@.len() ==> (#[trigger] r.0@[id])@ == vocab_text(
                vocab_entries(content@),
                id,
            ),
        id_of_token(vocab_entries(content@), "<blk>"@) is None ==> r.1 is None,
        id_of_token(vocab_entries(content@), "<blk>"@) matches Some(id) ==> r.1 == Some(id as i32),
        ({
            let entries = vocab_entries(content@);
            &&& r.1 is None <==> (forall|k: int|
                0 <= k < entries.len() ==> (#[trigger] entries[k]).0 != "<blk>"@)
            &&& forall|k: int|
                0 <= k < entries.len() && (#[trigger] entries[k]).0 == "<blk>"@ && (forall|j: int|
                    k < j < entries.len() ==> (#[trigger] entries[j]).0 != "<blk>"@) ==> r.1
                    == Some(entries[k].1 as i32)
        }),
{
    let entries = parse_vocab(content);
    build_vocab(entries.as_slice())
}

/// Loads the vocabulary as [`load_vocab`] does, unless an id is so large that no list can hold
/// it.
pub fn load_vocab_if_it_fits(content: &str) -> (r: Option<(Vec<String>, Option<i32>)>)
    ensures
        r is Some <==> largest_id(vocab_entries(content@)) < usize::MAX,
        r matches Some(loaded) ==> {
            &&& loaded.0@.len() == largest_id(vocab_entries(content@)) + 1
            &&& forall|id: int|
                0 <= id < loaded.0@.len() ==> (#[trigger] loaded.0@[id])@ == vocab_text(
                    vocab_entries(content@),
                    id,
                )
            &&& id_of_token(vocab_entries(content@), "<blk>"@) is None ==> loaded.1 is None
            &&& id_of_token(vocab_entries(content@), "<blk>"@) matches Some(id) ==> loaded.1
                == Some(id as i32)
        },
        r matches Some(loaded) ==> {
            let entries = vocab_entries(content@);
            &&& loaded.1 is None <==> (forall|k: int|
                0 <= k < entries.len() ==> (#[trigger] entries[k]).0 != "<blk>"@)
            &&& forall|k: int|
                0 <= k < entries.len() && (#[trigger] entries[k]).0 == "<blk>"@ && (forall|j: int|
                    k < j < entries.len() ==> (#[trigger] entries[j]).0 != "<blk>"@) ==> loaded.1
                    == Some(entries[k].1 as i32)
        },
{
    let entries = parse_vocab(content);
    if max_token_id(entries.as_slice()) == usize::MAX {
        return None;
    }
    Some(build_vocab(entries.as_slice()))
}

/// The position of the last whitespace character of `s`, if it has one.
pub open spec fn last_whitespace(s: Seq<char>) -> Option<int>
    decreases s.len(),
{
    if s.len() == 0 {
        None
    } else if char_is_whitespace(s.last()) {
        Some(s.len() - 1)
    } else {
        last_whitespace(s.drop_last())
    }
}

/// The id and the symbol that a line of a symbol table gives: the trimmed line is split at its
/// last whitespace character, with the symbol before it and the id behind it.
pub open spec fn symbol_entry(line: Seq<char>) -> Option<(i64, Seq<char>)> {
    let s = trimmed(line);
    match last_whitespace(s) {
        Some(i) => match parsed_i64(s.skip(i + 1)) {
            Some(id) => Some((id as i64, s.take(i))),
            None => None,
        },
        None => None,
    }
}

/// The entries of a symbol table, in the order of its lines. Lines that hold none are passed
/// over.
pub open spec fn symbol_entries(contents: Seq<char>) -> Seq<(i64, Seq<char>)> {
    lines_of(contents).filter_map(|line: Seq<char>| symbol_entry(line))
}

/// The mapping that the entries make. Of two entries with one id the later one counts.
pub open spec fn symbol_map(entries: Seq<(i64, Seq<char>)>) -> Map<i64, Seq<char>>
    decreases entries.len(),
{
    if entries.len() == 0 {
        Map::empty()
    } else {
        symbol_map(entries.drop_last()).insert(entries.last().0, entries.last().1)
    }
}

/// The bytes that the standard base64 engine of the `base64` crate decodes `encoded` to, if it
/// accepts it.
pub uninterp spec fn base64_decoded(encoded: Seq<u8>) -> Option<Seq<u8>>;

/// Trusted: `Engine::decode` of the `base64` crate, on its engine `STANDARD` (the standard
/// alphabet, with padding). The outcome is only named: `base64_decoded` of the input.
#[verifier::external_body]
fn decode_base64(encoded: &[u8]) -> (r: Option<Vec<u8>>)
    ensures
        r is Some <==> base64_decoded(encoded@) is Some,
        r matches Some(bytes) ==> base64_decoded(encoded@) == Some(bytes@),
{
    base64::Engine::decode(&base64::engine::general_purpose::STANDARD, encoded).ok()
}

/// What becomes of a symbol whose base64 decoding is `decoded`: the decoded text, or the
/// symbol itself where it is no base64 or the bytes are no UTF-8.
pub open spec fn decoded_or_kept(symbol: Seq<char>, decoded: Option<Seq<u8>>) -> Seq<char> {
    match decoded {
        Some(bytes) => if valid_utf8(bytes) {
            decode_utf8(bytes)
        } else {
            symbol
        },
        None => symbol,
    }
}

/// The symbol that takes the place of `symbol` when symbols are decoded from base64.
pub open spec fn base64_symbol(symbol: Seq<char>) -> Seq<char> {
    decoded_or_kept(symbol, base64_decoded(encode_utf8(symbol)))
}

/// Puts the text of `decoded` in the place of `symbol`. The symbol stays where there are no
/// bytes, or where they are no UTF-8.
pub fn replace_symbol(symbol: &str, decoded: Option<Vec<u8>>) -> (r: String)
    ensures
        decoded is None ==> r@ == symbol@,
        decoded matches Some(bytes) ==> r@ == decoded_or_kept(symbol@, Some(bytes@)),
        decoded matches Some(bytes) ==> if valid_utf8(bytes@) {
            encode_utf8(r@) == bytes@
        } else {
            r@ == symbol@
        },
{
    if let Some(bytes) = decoded {
        proof {
            if valid_utf8(bytes@) {
                decode_utf8_encode_utf8(bytes@);
            }
        }
        if let Some(text) = decode_strict(bytes) {
            return text;
        }
    }
    symbol.to_string()
}

fn parse_symbol_line(chars: &[char], from: usize, to: usize) -> (r: Option<(i64, String)>)
    requires
        from <= to <= chars@.len(),
    ensures
        r is Some <==> symbol_entry(chars@.subrange(from as int, to as int)) is Some,
        r matches Some(e) ==> symbol_entry(chars@.subrange(from as int, to as int)) == Some(
            (e.0, e.1@),
        ),
{
    let (start, end) = trim_bounds(chars, from, to);
    let ghost s = chars@.subrange(start as int, end as int);
    let mut gap: usize = end;
    while start < gap && !is_whitespace(chars[gap - 1])
        invariant
            start <= gap <= end <= chars@.len(),
            s == chars@.subrange(start as int, end as int),
            last_whitespace(s) == last_whitespace(chars@.subrange(start as int, gap as int)),
        decreases gap - start,
    {
        assert(chars@.subrange(start as int, gap as int).drop_last() =~= chars@.subrange(
            start as int,
            gap - 1,
        ));
        gap -= 1;
    }
    if gap == start {
        return None;
    }
    proof {
        let k = gap - 1 - start;
        assert(last_whitespace(s) == Some(k));
        assert(s.skip(k + 1) =~= chars@.subrange(gap as int, end as int));
        assert(s.take(k) =~= chars@.subrange(start as int, gap - 1));
    }
    match parse_i64(chars, gap, end) {
        Some(id) => Some((id, string_of(chars, start, gap - 1))),
        None => None,
    }
}

/// Symbol table mapping token IDs to strings.
///
/// Supports two file formats:
/// - `symbol id` (split on last whitespace, used by SenseVoice)
/// - Optionally base64-encoded symbols (for FunASR Nano models)
pub struct SymbolTable {
    id_to_sym: HashMap<i64, String>,
}

impl View for SymbolTable {
    type V = Map<i64, Seq<char>>;

    closed spec fn view(&self) -> Map<i64, Seq<char>> {
        self.id_to_sym@.map_values(|s: String| s@)
    }
}

impl SymbolTable {
    /// Load a symbol table from the contents of a file where each line is `symbol id`.
    pub fn load(contents: &str) -> (r: Self)
        ensures
            r@ == symbol_map(symbol_entries(contents@)),
    {
        let chars = chars_of(contents);
        let bounds = line_bounds(chars.as_slice());
        let ghost lines = lines_of(contents@);
        let ghost read = |line: Seq<char>| symbol_entry(line);
        let mut id_to_sym: HashMap<i64, String> = HashMap::new();
        let mut k: usize = 0;
        assert(id_to_sym@.map_values(|s: String| s@) =~= symbol_map(
            lines.take(0).filter_map(read),
        ));
        while k < bounds.len()
            invariant
                k <= bounds@.len(),
                forall|j: int|
                    0 <= j < bounds@.len() ==> (#[trigger] bounds@[j]).0 <= bounds@[j].1
                        <= chars@.len(),
                lines == pieces(chars@, bounds@),
                read == (|line: Seq<char>| symbol_entry(line)),
                id_to_sym@.map_values(|s: String| s@) == symbol_map(
                    lines.take(k as int).filter_map(read),
                ),
            decreases bounds@.len() - k,
        {
            broadcast use vstd::std_specs::hash::group_hash_axioms;

            let (from, to) = bounds[k];
            let ghost done = lines.take(k as int).filter_map(read);
            let ghost before = id_to_sym@;
            proof {
                lines.lemma_filter_map_take_succ(read, k as int);
                assert(lines[k as int] == chars@.subrange(from as int, to as int));
            }
            if let Some((id, symbol)) = parse_symbol_line(chars.as_slice(), from, to) {
                proof {
                    assert(done.push((id, symbol@)).drop_last() =~= done);
                    assert(lines.take(k + 1).filter_map(read) =~= done.push((id, symbol@)));
                }
                id_to_sym.insert(id, symbol);
                assert(id_to_sym@.map_values(|s: String| s@) =~= before.map_values(
                    |s: String| s@,
                ).insert(id, symbol@));
            } else {
                assert(lines.take(k + 1).filter_map(read) =~= done);
            }
            k += 1;
        }
        assert(lines.take(k as int) =~= lines);
        SymbolTable { id_to_sym }
    }

    /// Decode all symbols from base64 (for FunASR Nano models).
    pub fn apply_base64_decode(&mut self)
        ensures
            final(self)@ == old(self)@.map_values(|symbol: Seq<char>| base64_symbol(symbol)),
            final(self)@.dom() == old(self)@.dom(),
    {
        broadcast use vstd::std_specs::hash::group_hash_axioms;

        let mut decoded: HashMap<i64, String> = HashMap::new();
        let ghost table = self.id_to_sym@;
        for pair in it: self.id_to_sym.iter()
            invariant
                table == self.id_to_sym@,
                forall|k: i64| #[trigger]
                    decoded@.contains_key(k) ==> table.contains_key(k) && decoded@[k]@
                        == base64_symbol(table[k]@),
                forall|j: int|
                    0 <= j < it.index() ==> decoded@.contains_key(*(#[trigger] it.seq()[j]).0),
                forall|j: int|
                    0 <= j < it.seq().len() ==> table.contains_key(*(#[trigger] it.seq()[j]).0)
                        && table[*it.seq()[j].0] == *it.seq()[j].1,
                forall|k: i64| #[trigger]
                    table.contains_key(k) ==> it.seq().contains((&k, &table[k])),
        {
            let id: i64 = *pair.0;
            let symbol = replace_symbol(
                pair.1.as_str(),
                decode_base64(pair.1.as_str().as_bytes()),
            );
            decoded.insert(id, symbol);
        }
        self.id_to_sym = decoded;
        assert(self@ =~= old(self)@.map_values(|symbol: Seq<char>| base64_symbol(symbol)));
    }

    /// The number of ids that have a symbol.
    pub fn len(&self) -> (r: usize)
        ensures
            r == self@.dom().len(),
    {
        broadcast use vstd::std_specs::hash::group_hash_axioms;

        assert(self@.dom() =~= self.id_to_sym@.dom());
        self.id_to_sym.len()
    }

    /// The symbol with the given id, if the table has one.
    pub fn get(&self, id: i64) -> (r: Option<&str>)
        ensures
            r is Some <==> self@.contains_key(id),
            r matches Some(s) ==> s@ == self@[id],
    {
        broadcast use vstd::std_specs::hash::group_hash_axioms;

        match self.id_to_sym.get(&id) {
            Some(s) => Some(s.as_str()),
            None => None,
        }
    }

    /// The symbol with the given id, or the empty string.
    pub fn get_or_empty(&self, id: i64) -> (r: &str)
        ensures
            self@.contains_key(id) ==> r@ == self@[id],
            !self@.contains_key(id) ==> r@ == Seq::<char>::empty(),
    {
        match self.get(id) {
            Some(s) => s,
            None => {
                proof {
                    reveal_strlit("");
                }
                ""
            },
        }
    }
}

/// The line of a vocabulary file that gives `token` the id `id`.
pub open spec fn vocab_line(token: Seq<char>, id: int) -> Seq<char> {
    token.push(' ') + decimal(id as nat)
}

/// The vocabulary file with one line for each entry.
pub open spec fn vocab_file(entries: Seq<(Seq<char>, int)>) -> Seq<char>
    decreases entries.len(),
{
    if entries.len() == 0 {
        Seq::empty()
    } else {
        vocab_line(entries[0].0, entries[0].1) + seq!['\n'] + vocab_file(entries.drop_first())
    }
}

/// A token is read back from its line as it stands, whatever it holds: a space, nothing, or
/// spaces at its ends.
pub proof fn vocab_line_reads_back(token: Seq<char>, id: usize)
    ensures
        vocab_entry(vocab_line(token, id as int)) == Some((token, id as int)),
{
    let line = vocab_line(token, id as int);
    let digits = decimal(id as nat);
    decimal_reads_back(id as nat);
    usize_reads_back(id);
    assert(is_digit(digits[digits.len() - 1]));
    assert(line.last() == digits.last());
    assert(without_line_ends(line) == line);
    line.index_of_last_ensures(' ');
    assert(line[token.len() as int] == ' ');
    let i = line.index_of_last(' ')->0;
    if i > token.len() {
        assert(is_digit(digits[i - token.len() - 1]));
        assert(line[i] == digits[i - token.len() - 1]);
    }
    assert(line.skip(i + 1) =~= digits);
    assert(line.take(i) =~= token);
}

proof fn lemma_vocab_line_is_one_line(token: Seq<char>, id: nat)
    requires
        !token.contains('\n'),
    ensures
        !vocab_line(token, id as int).contains('\n'),
        without_final_cr(vocab_line(token, id as int)) == vocab_line(token, id as int),
{
    let line = vocab_line(token, id as int);
    let digits = decimal(id);
    decimal_reads_back(id);
    assert(is_digit(digits[digits.len() - 1]));
    assert(line.last() == digits.last());
    if line.contains('\n') {
        let k = choose|k: int| 0 <= k < line.len() && line[k] == '\n';
        if k < token.len() {
            assert(token[k] == '\n');
        } else if k > token.len() {
            assert(is_digit(digits[k - token.len() - 1]));
        }
    }
}

/// A vocabulary file that was written line by line is read back entry by entry.
pub proof fn vocab_file_reads_back(entries: Seq<(Seq<char>, int)>)
    requires
        forall|k: int|
            0 <= k < entries.len() ==> 0 <= (#[trigger] entries[k]).1 <= usize::MAX
                && !entries[k].0.contains('\n'),
    ensures
        vocab_entries(vocab_file(entries)) == entries,
    decreases entries.len(),
{
    if entries.len() > 0 {
        let (token, id) = entries[0];
        let line = vocab_line(token, id);
        let rest = vocab_file(entries.drop_first());
        vocab_file_reads_back(entries.drop_first());
        vocab_line_reads_back(token, id as usize);
        lemma_vocab_line_is_one_line(token, id as nat);
        lemma_first_entry_reads_back(line, rest, |line: Seq<char>| vocab_entry(line), (token, id));
        assert(vocab_entries(vocab_file(entries)) =~= entries);
    }
}

/// The vocabulary file with one line for each entry, ended by a carriage return and a line feed.
pub open spec fn vocab_crlf_file(entries: Seq<(Seq<char>, int)>) -> Seq<char>
    decreases entries.len(),
{
    if entries.len() == 0 {
        Seq::empty()
    } else {
        vocab_line(entries[0].0, entries[0].1) + seq!['\r', '\n'] + vocab_crlf_file(
            entries.drop_first(),
        )
    }
}

/// A vocabulary file whose lines end with a carriage return and a line feed is read back entry by
/// entry too.
pub proof fn vocab_crlf_file_reads_back(entries: Seq<(Seq<char>, int)>)
    requires
        forall|k: int|
            0 <= k < entries.len() ==> 0 <= (#[trigger] entries[k]).1 <= usize::MAX
                && !entries[k].0.contains('\n'),
    ensures
        vocab_entries(vocab_crlf_file(entries)) == entries,
    decreases entries.len(),
{
    if entries.len() > 0 {
        let (token, id) = entries[0];
        let line = vocab_line(token, id);
        let rest = vocab_crlf_file(entries.drop_first());
        vocab_crlf_file_reads_back(entries.drop_first());
        vocab_line_reads_back(token, id as usize);
        lemma_vocab_line_is_one_line(token, id as nat);
        lemma_first_entry_reads_back(line, rest, |line: Seq<char>| vocab_entry(line), (token, id));
        assert(vocab_entries(vocab_crlf_file(entries)) =~= entries);
    }
}

/// What a line gives comes before what the rest of the file gives, whether the line ends with a
/// line feed alone or with a carriage return before it.
proof fn lemma_first_entry_reads_back<B>(
    line: Seq<char>,
    rest: Seq<char>,
    read: spec_fn(Seq<char>) -> Option<B>,
    entry: B,
)
    requires
        !line.contains('\n'),
        without_final_cr(line) == line,
        read(line) == Some(entry),
    ensures
        lines_of(line + seq!['\n'] + rest).filter_map(read) == seq![entry] + lines_of(
            rest,
        ).filter_map(read),
        lines_of(line + seq!['\r', '\n'] + rest).filter_map(read) == seq![entry] + lines_of(
            rest,
        ).filter_map(read),
{
    let ended = line.push('\r');
    assert(!ended.contains('\n')) by {
        if ended.contains('\n') {
            let k = choose|k: int| 0 <= k < ended.len() && ended[k] == '\n';
            assert(line[k] == '\n');
        }
    }
    assert(ended.drop_last() =~= line);
    assert(line + seq!['\r', '\n'] + rest =~= ended + seq!['\n'] + rest);
    first_line_reads_back(line, rest);
    first_line_reads_back(ended, rest);
    lemma_filter_map_first(line, lines_of(rest), read);
}

proof fn lemma_filter_map_first<A, B>(a: A, rest: Seq<A>, f: spec_fn(A) -> Option<B>)
    ensures
        (seq![a] + rest).filter_map(f) == (match f(a) {
            Some(b) => seq![b],
            None => Seq::empty(),
        }) + rest.filter_map(f),
    decreases rest.len(),
{
    let all = seq![a] + rest;
    if rest.len() == 0 {
        assert(all =~= seq![a]);
        Seq::<A>::lemma_filter_map_singleton(a, f);
        assert(all.filter_map(f) =~= (match f(a) {
            Some(b) => seq![b],
            None => Seq::empty(),
        }) + rest.filter_map(f));
    } else {
        lemma_filter_map_first(a, rest.drop_last(), f);
        assert(all.drop_last() =~= seq![a] + rest.drop_last());
        assert(all.last() == rest.last());
        assert(all.filter_map(f) =~= (match f(a) {
            Some(b) => seq![b],
            None => Seq::empty(),
        }) + rest.filter_map(f));
    }
}

/// If no two entries share an id, the vocabulary holds the token of each of them.
pub proof fn distinct_tokens_are_all_held(entries: Seq<(Seq<char>, int)>, k: int)
    requires
        0 <= k < entries.len(),
        forall|i: int, j: int| 0 <= i < j < entries.len() ==> entries[i].1 != entries[j].1,
    ensures
        vocab_text(entries, entries[k].1) == marker_as_space(entries[k].0),
        entries[k].1 <= largest_id(entries),
    decreases entries.len(),
{
    if k < entries.len() - 1 {
        distinct_tokens_are_all_held(entries.drop_last(), k);
        assert(entries.drop_last()[k] == entries[k]);
    }
}

/// Each word-boundary marker becomes a space in what the vocabulary holds, and all other characters
/// of a token stay where they are.
pub proof fn markers_become_spaces(token: Seq<char>)
    ensures
        marker_as_space(token).len() == token.len(),
        !marker_as_space(token).contains('\u{2581}'),
        forall|i: int|
            0 <= i < token.len() && token[i] == '\u{2581}' ==> #[trigger] marker_as_space(token)[i]
                == ' ',
        forall|i: int|
            0 <= i < token.len() && token[i] != '\u{2581}' ==> #[trigger] marker_as_space(token)[i]
                == token[i],
{
}

/// The line of a symbol table that gives `symbol` the id `id`.
pub open spec fn symbol_line(symbol: Seq<char>, id: int) -> Seq<char> {
    symbol.push(' ') + signed_decimal(id)
}

/// The symbol table file with one line for each entry.
pub open spec fn symbol_file(entries: Seq<(i64, Seq<char>)>) -> Seq<char>
    decreases entries.len(),
{
    if entries.len() == 0 {
        Seq::empty()
    } else {
        symbol_line(entries[0].1, entries[0].0 as int) + seq!['\n'] + symbol_file(
            entries.drop_first(),
        )
    }
}

proof fn lemma_number_is_visible(id: i64)
    ensures
        signed_decimal(id as int).len() > 0,
        forall|i: int|
            0 <= i < signed_decimal(id as int).len() ==> !char_is_whitespace(
                #[trigger] signed_decimal(id as int)[i],
            ) && signed_decimal(id as int)[i] != '\n' && signed_decimal(id as int)[i] != '\r',
{
    let magnitude: nat = if id < 0 {
        (-id) as nat
    } else {
        id as nat
    };
    decimal_reads_back(magnitude);
    let s = signed_decimal(id as int);
    assert forall|i: int| 0 <= i < s.len() implies !char_is_whitespace(#[trigger] s[i]) && s[i]
        != '\n' && s[i] != '\r' by {
        if id < 0 {
            if i > 0 {
                assert(is_digit(decimal(magnitude)[i - 1]));
            }
        } else {
            assert(is_digit(decimal(magnitude)[i]));
        }
    }
}

proof fn lemma_last_whitespace(s: Seq<char>, k: int)
    requires
        0 <= k < s.len(),
        char_is_whitespace(s[k]),
        forall|i: int| k < i < s.len() ==> !char_is_whitespace(#[trigger] s[i]),
    ensures
        last_whitespace(s) == Some(k),
    decreases s.len(),
{
    if k < s.len() - 1 {
        assert(!char_is_whitespace(s[s.len() - 1]));
        lemma_last_whitespace(s.drop_last(), k);
    }
}

/// A symbol that does not begin with whitespace is read back from its line as it stands.
pub proof fn symbol_line_reads_back(symbol: Seq<char>, id: i64)
    requires
        symbol.len() > 0,
        !char_is_whitespace(symbol[0]),
    ensures
        symbol_entry(symbol_line(symbol, id as int)) == Some((id, symbol)),
{
    let line = symbol_line(symbol, id as int);
    let number = signed_decimal(id as int);
    lemma_number_is_visible(id);
    i64_reads_back(id);
    assert(!char_is_whitespace(number[number.len() - 1]));
    assert(line.last() == number.last());
    trimming_keeps_visible_ends(line);
    assert(line[symbol.len() as int] == ' ');
    assert forall|i: int| symbol.len() < i < line.len() implies !char_is_whitespace(
        #[trigger] line[i],
    ) by {
        assert(!char_is_whitespace(number[i - symbol.len() - 1]));
    }
    lemma_last_whitespace(line, symbol.len() as int);
    assert(line.skip(symbol.len() as int + 1) =~= number);
    assert(line.take(symbol.len() as int) =~= symbol);
}

proof fn lemma_symbol_line_is_one_line(symbol: Seq<char>, id: i64)
    requires
        !symbol.contains('\n'),
    ensures
        !symbol_line(symbol, id as int).contains('\n'),
        without_final_cr(symbol_line(symbol, id as int)) == symbol_line(symbol, id as int),
{
    let line = symbol_line(symbol, id as int);
    let number = signed_decimal(id as int);
    lemma_number_is_visible(id);
    assert(number[number.len() - 1] != '\r');
    assert(line.last() == number.last());
    if line.contains('\n') {
        let k = choose|k: int| 0 <= k < line.len() && line[k] == '\n';
        if k < symbol.len() {
            assert(symbol[k] == '\n');
        } else if k > symbol.len() {
            assert(number[k - symbol.len() - 1] == '\n');
        }
    }
}

/// A symbol table file that was written line by line is read back entry by entry.
pub proof fn symbol_file_reads_back(entries: Seq<(i64, Seq<char>)>)
    requires
        forall|k: int|
            0 <= k < entries.len() ==> (#[trigger] entries[k]).1.len() > 0 && !char_is_whitespace(
                entries[k].1[0],
            ) && !entries[k].1.contains('\n'),
    ensures
        symbol_entries(symbol_file(entries)) == entries,
    decreases entries.len(),
{
    if entries.len() > 0 {
        let (id, symbol) = entries[0];
        let line = symbol_line(symbol, id as int);
        let rest = symbol_file(entries.drop_first());
        assert forall|k: int| 0 <= k < entries.drop_first().len() implies (
        #[trigger] entries.drop_first()[k]).1.len() > 0 && !char_is_whitespace(
            entries.drop_first()[k].1[0],
        ) && !entries.drop_first()[k].1.contains('\n') by {
            assert(entries.drop_first()[k] == entries[k + 1]);
        }
        symbol_file_reads_back(entries.drop_first());
        symbol_line_reads_back(symbol, id);
        lemma_symbol_line_is_one_line(symbol, id);
        lemma_first_entry_reads_back(line, rest, |line: Seq<char>| symbol_entry(line), (id, symbol));
        assert(symbol_entries(symbol_file(entries)) =~= entries);
    }
}

/// The symbol table file with one line for each entry, ended by a carriage return and a line
/// feed.
pub open spec fn symbol_crlf_file(entries: Seq<(i64, Seq<char>)>) -> Seq<char>
    decreases entries.len(),
{
    if entries.len() == 0 {
        Seq::empty()
    } else {
        symbol_line(entries[0].1, entries[0].0 as int) + seq!['\r', '\n'] + symbol_crlf_file(
            entries.drop_first(),
        )
    }
}

/// A symbol table file whose lines end with a carriage return and a line feed is read back entry
/// by entry too.
pub proof fn symbol_crlf_file_reads_back(entries: Seq<(i64, Seq<char>)>)
    requires
        forall|k: int|
            0 <= k < entries.len() ==> (#[trigger] entries[k]).1.len() > 0 && !char_is_whitespace(
                entries[k].1[0],
            ) && !entries[k].1.contains('\n'),
    ensures
        symbol_entries(symbol_crlf_file(entries)) == entries,
    decreases entries.len(),
{
    if entries.len() > 0 {
        let (id, symbol) = entries[0];
        let line = symbol_line(symbol, id as int);
        let rest = symbol_crlf_file(entries.drop_first());
        assert forall|k: int| 0 <= k < entries.drop_first().len() implies (
        #[trigger] entries.drop_first()[k]).1.len() > 0 && !char_is_whitespace(
            entries.drop_first()[k].1[0],
        ) && !entries.drop_first()[k].1.contains('\n') by {
            assert(entries.drop_first()[k] == entries[k + 1]);
        }
        symbol_crlf_file_reads_back(entries.drop_first());
        symbol_line_reads_back(symbol, id);
        lemma_symbol_line_is_one_line(symbol, id);
        lemma_first_entry_reads_back(line, rest, |line: Seq<char>| symbol_entry(line), (id, symbol));
        assert(symbol_entries(symbol_crlf_file(entries)) =~= entries);
    }
}

/// The later of two lines with one id counts, and a line leaves all other ids alone.
pub proof fn later_symbol_counts(entries: Seq<(i64, Seq<char>)>, id: i64, symbol: Seq<char>)
    ensures
        symbol_map(entries.push((id, symbol)))[id] == symbol,
        forall|other: i64|
            other != id ==> (symbol_map(entries.push((id, symbol))).contains_key(other)
                <==> #[trigger] symbol_map(entries).contains_key(other)) && (symbol_map(
                entries,
            ).contains_key(other) ==> symbol_map(entries.push((id, symbol)))[other] == symbol_map(
                entries,
            )[other]),
{
    assert(entries.push((id, symbol)).drop_last() =~= entries);
}

/// The last entry with a token gives the token its id, wherever it lies among the entries.
pub proof fn last_id_of_a_token_counts(entries: Seq<(Seq<char>, int)>, k: int)
    requires
        0 <= k < entries.len(),
        forall|j: int| k < j < entries.len() ==> (#[trigger] entries[j]).0 != entries[k].0,
    ensures
        id_of_token(entries, entries[k].0) == Some(entries[k].1),
    decreases entries.len(),
{
    if k < entries.len() - 1 {
        assert(entries[entries.len() - 1].0 != entries[k].0);
        let shorter = entries.drop_last();
        assert forall|j: int| k < j < shorter.len() implies (#[trigger] shorter[j]).0
            != shorter[k].0 by {
            assert(entries[j].0 != entries[k].0);
        }
        last_id_of_a_token_counts(shorter, k);
    }
}

/// A token has no id only if no entry has the token.
pub proof fn a_token_without_entry_has_no_id(entries: Seq<(Seq<char>, int)>, token: Seq<char>)
    ensures
        id_of_token(entries, token) is None <==> (forall|k: int|
            0 <= k < entries.len() ==> (#[trigger] entries[k]).0 != token),
    decreases entries.len(),
{
    if entries.len() > 0 {
        let shorter = entries.drop_last();
        a_token_without_entry_has_no_id(shorter, token);
        if id_of_token(entries, token) is None {
            assert forall|k: int| 0 <= k < entries.len() implies (#[trigger] entries[k]).0
                != token by {
                if k < shorter.len() {
                    assert(shorter[k].0 != token);
                }
            }
        } else if entries.last().0 == token {
            assert(entries[entries.len() - 1].0 == token);
        } else {
            let k = choose|k: int| 0 <= k < shorter.len() && (#[trigger] shorter[k]).0 == token;
            assert(entries[k].0 == token);
        }
    }
}

/// The vocabulary holds under an id the token of the last entry with that id, character by
/// character, with a space for each word-boundary marker.
pub proof fn last_token_of_an_id_counts(entries: Seq<(Seq<char>, int)>, k: int)
    requires
        0 <= k < entries.len(),
        forall|j: int| k < j < entries.len() ==> (#[trigger] entries[j]).1 != entries[k].1,
    ensures
        token_with_id(entries, entries[k].1) == Some(entries[k].0),
        vocab_text(entries, entries[k].1).len() == entries[k].0.len(),
        forall|i: int|
            0 <= i < entries[k].0.len() ==> #[trigger] vocab_text(entries, entries[k].1)[i] == (
            if entries[k].0[i] == '\u{2581}' {
                ' '
            } else {
                entries[k].0[i]
            }),
    decreases entries.len(),
{
    if k < entries.len() - 1 {
        assert(entries[entries.len() - 1].1 != entries[k].1);
        let shorter = entries.drop_last();
        assert forall|j: int| k < j < shorter.len() implies (#[trigger] shorter[j]).1
            != shorter[k].1 by {
            assert(entries[j].1 != entries[k].1);
        }
        last_token_of_an_id_counts(shorter, k);
    }
}

/// The vocabulary holds nothing under an id that no entry has.
pub proof fn an_id_without_entry_has_no_text(entries: Seq<(Seq<char>, int)>, id: int)
    requires
        forall|k: int| 0 <= k < entries.len() ==> (#[trigger] entries[k]).1 != id,
    ensures
        token_with_id(entries, id) is None,
        vocab_text(entries, id).len() == 0,
    decreases entries.len(),
{
    if entries.len() > 0 {
        let shorter = entries.drop_last();
        assert(entries[entries.len() - 1].1 != id);
        assert forall|k: int| 0 <= k < shorter.len() implies (#[trigger] shorter[k]).1 != id by {
            assert(entries[k].1 != id);
        }
        an_id_without_entry_has_no_text(shorter, id);
    }
}

/// The largest id is that of an entry, and no entry has a larger one.
pub proof fn largest_id_is_the_largest(entries: Seq<(Seq<char>, int)>)
    requires
        forall|k: int| 0 <= k < entries.len() ==> (#[trigger] entries[k]).1 >= 0,
    ensures
        forall|k: int| 0 <= k < entries.len() ==> (#[trigger] entries[k]).1 <= largest_id(entries),
        entries.len() > 0 ==> exists|k: int|
            0 <= k < entries.len() && (#[trigger] entries[k]).1 == largest_id(entries),
        entries.len() == 0 ==> largest_id(entries) == 0,
    decreases entries.len(),
{
    if entries.len() > 0 {
        let shorter = entries.drop_last();
        let last = entries.len() - 1;
        assert(entries[last].1 >= 0);
        assert forall|k: int| 0 <= k < shorter.len() implies (#[trigger] shorter[k]).1 >= 0 by {
            assert(entries[k].1 >= 0);
        }
        largest_id_is_the_largest(shorter);
        assert forall|k: int| 0 <= k < entries.len() implies (#[trigger] entries[k]).1
            <= largest_id(entries) by {
            if k < last {
                assert(shorter[k].1 <= largest_id(shorter));
            }
        }
        if entries[last].1 != largest_id(entries) {
            let k = choose|k: int|
                0 <= k < shorter.len() && (#[trigger] shorter[k]).1 == largest_id(shorter);
            assert(entries[k].1 == largest_id(entries));
        }
    }
}

proof fn lemma_line_ends_come_off(s: Seq<char>, ends: Seq<char>)
    requires
        forall|k: int| 0 <= k < ends.len() ==> (#[trigger] ends[k]) == '\r' || ends[k] == '\n',
    ensures
        without_line_ends(s + ends) == without_line_ends(s),
    decreases ends.len(),
{
    if ends.len() == 0 {
        assert(s + ends =~= s);
    } else {
        assert(ends[ends.len() - 1] == '\r' || ends[ends.len() - 1] == '\n');
        assert((s + ends).last() == ends.last());
        assert((s + ends).drop_last() =~= s + ends.drop_last());
        lemma_line_ends_come_off(s, ends.drop_last());
    }
}

/// A line of a vocabulary file is read from the right: what stands behind its last space, but for
/// line ends, is the id, and all that stands before that space is the token as it stands.
pub proof fn a_vocab_line_is_read_from_the_right(
    token: Seq<char>,
    id: Seq<char>,
    line_ends: Seq<char>,
)
    requires
        !id.contains(' '),
        id.len() > 0 ==> id.last() != '\r' && id.last() != '\n',
        forall|k: int|
            0 <= k < line_ends.len() ==> (#[trigger] line_ends[k]) == '\r' || line_ends[k] == '\n',
    ensures
        vocab_entry(token + seq![' '] + id + line_ends) == match parsed_usize(id) {
            Some(number) => Some((token, number)),
            None => None,
        },
{
    let s = token + seq![' '] + id;
    lemma_line_ends_come_off(s, line_ends);
    if id.len() > 0 {
        assert(s.last() == id.last());
    }
    assert(without_line_ends(s) == s);
    s.index_of_last_ensures(' ');
    assert(s[token.len() as int] == ' ');
    let i = s.index_of_last(' ')->0;
    if i > token.len() {
        assert(id[i - token.len() - 1] == ' ');
    }
    assert(s.skip(i + 1) =~= id);
    assert(s.take(i) =~= token);
}

proof fn lemma_without_line_ends_is_prefix(s: Seq<char>)
    ensures
        without_line_ends(s).len() <= s.len(),
        without_line_ends(s) == s.take(without_line_ends(s).len() as int),
    decreases s.len(),
{
    if s.len() > 0 && (s.last() == '\r' || s.last() == '\n') {
        lemma_without_line_ends_is_prefix(s.drop_last());
        let n = without_line_ends(s).len() as int;
        assert(s.drop_last().take(n) =~= s.take(n));
    } else {
        assert(s.take(s.len() as int) =~= s);
    }
}

/// A line without a space gives no entry.
pub proof fn a_line_without_space_is_no_entry(line: Seq<char>)
    requires
        !line.contains(' '),
    ensures
        vocab_entry(line) is None,
{
    let s = without_line_ends(line);
    lemma_without_line_ends_is_prefix(line);
    s.index_of_last_ensures(' ');
    if s.contains(' ') {
        let k = choose|k: int| 0 <= k < s.len() && s[k] == ' ';
        assert(line[k] == ' ');
    }
}

/// A vocabulary file is read line by line: what its first line gives comes before what the rest of
/// it gives, and a line at the end needs no line feed.
pub proof fn vocab_lines_are_read_one_by_one(line: Seq<char>, rest: Seq<char>)
    requires
        !line.contains('\n'),
    ensures
        ({
            let first = match vocab_entry(line) {
                Some(entry) => seq![entry],
                None => Seq::empty(),
            };
            &&& vocab_entries(line + seq!['\n'] + rest) == first + vocab_entries(rest)
            &&& vocab_entries(line) == first
        }),
{
    let read = |line: Seq<char>| vocab_entry(line);
    first_line_reads_back(line, rest);
    lemma_filter_map_first(without_final_cr(line), lines_of(rest), read);
    line.index_of_first_ensures('\n');
    if line.len() > 0 {
        Seq::lemma_filter_map_singleton(line, read);
        assert(lines_of(line) == seq![line]);
    } else {
        a_line_without_space_is_no_entry(line);
        assert(lines_of(line) =~= Seq::empty());
    }
}

proof fn lemma_trim_left_push(s: Seq<char>, c: char)
    requires
        char_is_whitespace(c),
    ensures
        trim_left(s.push(c)) == if trim_left(s).len() == 0 {
            Seq::empty()
        } else {
            trim_left(s).push(c)
        },
    decreases s.len(),
{
    if s.len() == 0 {
        assert(s.push(c).drop_first() =~= Seq::empty());
        assert(trim_left(s.push(c).drop_first()) =~= Seq::empty());
    } else if char_is_whitespace(s[0]) {
        assert(s.push(c).drop_first() =~= s.drop_first().push(c));
        lemma_trim_left_push(s.drop_first(), c);
    }
}

proof fn lemma_trimmed_push(s: Seq<char>, c: char)
    requires
        char_is_whitespace(c),
    ensures
        trimmed(s.push(c)) == trimmed(s),
{
    lemma_trim_left_push(s, c);
    if trim_left(s).len() > 0 {
        assert(trim_left(s).push(c).drop_last() =~= trim_left(s));
    }
}

/// A line of a symbol table is split at the last whitespace inside it: the symbol, as it stands,
/// comes before it, and the id behind it.
pub proof fn a_symbol_line_is_split_at_its_last_whitespace(
    before: Seq<char>,
    symbol: Seq<char>,
    gap: char,
    id: Seq<char>,
    after: Seq<char>,
)
    requires
        forall|k: int| 0 <= k < before.len() ==> char_is_whitespace(#[trigger] before[k]),
        forall|k: int| 0 <= k < after.len() ==> char_is_whitespace(#[trigger] after[k]),
        symbol.len() > 0 && !char_is_whitespace(symbol[0]),
        char_is_whitespace(gap),
        id.len() > 0,
        forall|k: int| 0 <= k < id.len() ==> !char_is_whitespace(#[trigger] id[k]),
    ensures
        symbol_entry(before + symbol + seq![gap] + id + after) == match parsed_i64(id) {
            Some(number) => Some((number as i64, symbol)),
            None => None,
        },
{
    let line = before + symbol + seq![gap] + id + after;
    let s = symbol + seq![gap] + id;
    let i = before.len() as int;
    let j = i + s.len();
    assert forall|k: int| 0 <= k < i implies char_is_whitespace(#[trigger] line[k]) by {
        assert(line[k] == before[k]);
    }
    assert forall|k: int| j <= k < line.len() implies char_is_whitespace(#[trigger] line[k]) by {
        assert(line[k] == after[k - j]);
    }
    assert(line[i] == symbol[0]);
    assert(line[j - 1] == id[id.len() - 1]);
    trimming_takes_off_whitespace_only(line, i, j);
    assert(line.subrange(i, j) =~= s);
    let at = symbol.len() as int;
    assert forall|k: int| at < k < s.len() implies !char_is_whitespace(#[trigger] s[k]) by {
        assert(s[k] == id[k - at - 1]);
    }
    lemma_last_whitespace(s, at);
    assert(s.skip(at + 1) =~= id);
    assert(s.take(at) =~= symbol);
}

proof fn lemma_no_last_whitespace(s: Seq<char>)
    requires
        forall|k: int| 0 <= k < s.len() ==> !char_is_whitespace(#[trigger] s[k]),
    ensures
        last_whitespace(s) is None,
    decreases s.len(),
{
    if s.len() > 0 {
        assert(!char_is_whitespace(s[s.len() - 1]));
        assert forall|k: int| 0 <= k < s.drop_last().len() implies !char_is_whitespace(
            #[trigger] s.drop_last()[k],
        ) by {
            assert(!char_is_whitespace(s[k]));
        }
        lemma_no_last_whitespace(s.drop_last());
    }
}

/// A line without whitespace inside it gives no symbol.
pub proof fn a_line_of_one_piece_is_no_symbol(before: Seq<char>, piece: Seq<char>, after: Seq<char>)
    requires
        forall|k: int| 0 <= k < before.len() ==> char_is_whitespace(#[trigger] before[k]),
        forall|k: int| 0 <= k < after.len() ==> char_is_whitespace(#[trigger] after[k]),
        forall|k: int| 0 <= k < piece.len() ==> !char_is_whitespace(#[trigger] piece[k]),
    ensures
        symbol_entry(before + piece + after) is None,
{
    let line = before + piece + after;
    let i = before.len() as int;
    let j = i + piece.len();
    assert forall|k: int| 0 <= k < i implies char_is_whitespace(#[trigger] line[k]) by {
        assert(line[k] == before[k]);
    }
    assert forall|k: int| j <= k < line.len() implies char_is_whitespace(#[trigger] line[k]) by {
        assert(line[k] == after[k - j]);
    }
    if piece.len() > 0 {
        assert(line[i] == piece[0]);
        assert(line[j - 1] == piece[piece.len() - 1]);
    }
    trimming_takes_off_whitespace_only(line, i, j);
    assert(line.subrange(i, j) =~= piece);
    lemma_no_last_whitespace(piece);
}

/// A symbol table is read line by line: what its first line gives comes before what the rest of it
/// gives, and a line at the end needs no line feed.
pub proof fn symbol_lines_are_read_one_by_one(line: Seq<char>, rest: Seq<char>)
    requires
        !line.contains('\n'),
    ensures
        ({
            let first = match symbol_entry(line) {
                Some(entry) => seq![entry],
                None => Seq::empty(),
            };
            &&& symbol_entries(line + seq!['\n'] + rest) == first + symbol_entries(rest)
            &&& symbol_entries(line) == first
        }),
{
    let read = |line: Seq<char>| symbol_entry(line);
    first_line_reads_back(line, rest);
    if line.len() > 0 && line.last() == '\r' {
        assert(line.drop_last().push('\r') =~= line);
        lemma_trimmed_push(line.drop_last(), '\r');
    }
    lemma_filter_map_first(without_final_cr(line), lines_of(rest), read);
    line.index_of_first_ensures('\n');
    if line.len() > 0 {
        Seq::lemma_filter_map_singleton(line, read);
        assert(lines_of(line) == seq![line]);
    } else {
        assert(trimmed(line) == line);
        assert(lines_of(line) =~= Seq::empty());
    }
}

/// The table maps an id to the symbol of the last entry with that id, wherever it lies among the
/// entries.
pub proof fn last_symbol_of_an_id_counts(entries: Seq<(i64, Seq<char>)>, k: int)
    requires
        0 <= k < entries.len(),
        forall|j: int| k < j < entries.len() ==> (#[trigger] entries[j]).0 != entries[k].0,
    ensures
        symbol_map(entries).contains_key(entries[k].0),
        symbol_map(entries)[entries[k].0] == entries[k].1,
    decreases entries.len(),
{
    if k < entries.len() - 1 {
        assert(entries[entries.len() - 1].0 != entries[k].0);
        let shorter = entries.drop_last();
        assert forall|j: int| k < j < shorter.len() implies (#[trigger] shorter[j]).0
            != shorter[k].0 by {
            assert(entries[j].0 != entries[k].0);
        }
        last_symbol_of_an_id_counts(shorter, k);
    }
}

/// The table maps no id that no entry has.
pub proof fn an_id_without_entry_has_no_symbol(entries: Seq<(i64, Seq<char>)>, id: i64)
    requires
        forall|k: int| 0 <= k < entries.len() ==> (#[trigger] entries[k]).0 != id,
    ensures
        !symbol_map(entries).contains_key(id),
    decreases entries.len(),
{
    if entries.len() > 0 {
        let shorter = entries.drop_last();
        assert(entries[entries.len() - 1].0 != id);
        assert forall|k: int| 0 <= k < shorter.len() implies (#[trigger] shorter[k]).0 != id by {
            assert(entries[k].0 != id);
        }
        an_id_without_entry_has_no_symbol(shorter, id);
    }
}

/// A symbol whose base64 decoding is the UTF-8 of a text becomes exactly that text, with the
/// whitespace at its ends. A symbol that is no base64, or whose bytes are no UTF-8, stays.
pub proof fn decoded_text_takes_the_place_of_a_symbol(symbol: Seq<char>, text: Seq<char>)
    ensures
        ({
            let decoded = base64_decoded(encode_utf8(symbol));
            &&& decoded == Some(encode_utf8(text)) ==> base64_symbol(symbol) == text
            &&& decoded matches Some(bytes) ==> if valid_utf8(bytes) {
                encode_utf8(base64_symbol(symbol)) == bytes
            } else {
                base64_symbol(symbol) == symbol
            }
            &&& decoded is None ==> base64_symbol(symbol) == symbol
        }),
{
    encode_utf8_valid_utf8(text);
    encode_utf8_decode_utf8(text);
    if let Some(bytes) = base64_decoded(encode_utf8(symbol)) {
        if valid_utf8(bytes) {
            decode_utf8_encode_utf8(bytes);
        }
    }
}

/// Bytes that are the UTF-8 of a text put exactly that text in the place of any symbol.
pub proof fn decoded_bytes_are_taken_as_they_stand(symbol: Seq<char>, text: Seq<char>)
    ensures
        decoded_or_kept(symbol, Some(encode_utf8(text))) == text,
        decoded_or_kept(symbol, None) == symbol,
        forall|bytes: Seq<u8>|
            !valid_utf8(bytes) ==> #[trigger] decoded_or_kept(symbol, Some(bytes)) == symbol,
{
    encode_utf8_valid_utf8(text);
    encode_utf8_decode_utf8(text);
}

/// An entry is seen with all of its token and its own id.
pub proof fn entries_are_seen_whole(entry: VocabEntry)
    ensures
        entry@.0 == entry.token@ && entry@.1 == entry.id,
{
}

} // verus!
