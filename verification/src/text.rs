//! Text as sequences of characters: trimming, line splitting and UTF-8 decoding.
use vstd::prelude::*;
use vstd::string::*;
use vstd::utf8::*;

verus! {

/// Whether `c` has the Unicode property `White_Space`.
pub open spec fn char_is_whitespace(c: char) -> bool {
    let code = c as u32;
    ||| 0x9 <= code <= 0xd
    ||| code == 0x20
    ||| code == 0x85
    ||| code == 0xa0
    ||| code == 0x1680
    ||| 0x2000 <= code <= 0x200a
    ||| code == 0x2028
    ||| code == 0x2029
    ||| code == 0x202f
    ||| code == 0x205f
    ||| code == 0x3000
}

/// The text that the standard library's `String::from_utf8_lossy` makes of ill-formed UTF-8.
pub uninterp spec fn utf8_lossy(bytes: Seq<u8>) -> Seq<char>;

/// The text of `bytes`: what they encode where they are well-formed UTF-8.
pub open spec fn lossy_text(bytes: Seq<u8>) -> Seq<char> {
    if valid_utf8(bytes) {
        decode_utf8(bytes)
    } else {
        utf8_lossy(bytes)
    }
}

/// Trusted: `String::from_utf8_lossy`. Bytes that are well-formed UTF-8 give exactly the text
/// that they encode. The text with replacements that ill-formed bytes give is only named,
/// `utf8_lossy`.
#[verifier::external_body]
pub(crate) fn decode_lossy(bytes: &[u8]) -> (r: String)
    ensures
        valid_utf8(bytes@) ==> r@ == decode_utf8(bytes@),
        !valid_utf8(bytes@) ==> r@ == utf8_lossy(bytes@),
{
    String::from_utf8_lossy(bytes).into_owned()
}

/// Trusted: `String::from_utf8`. It succeeds on exactly the well-formed byte strings, and
/// then gives the text that they encode.
#[verifier::external_body]
pub(crate) fn decode_strict(bytes: Vec<u8>) -> (r: Option<String>)
    ensures
        r is Some <==> valid_utf8(bytes@),
        r matches Some(s) ==> s@ == decode_utf8(bytes@),
{
    String::from_utf8(bytes).ok()
}

/// Trusted: `String::push` appends one character.
pub assume_specification[ String::push ](s: &mut String, ch: char)
    ensures
        final(s)@ == old(s)@.push(ch),
;

/// `s` without its leading whitespace.
pub open spec fn trim_left(s: Seq<char>) -> Seq<char>
    decreases s.len(),
{
    if s.len() > 0 && char_is_whitespace(s[0]) {
        trim_left(s.drop_first())
    } else {
        s
    }
}

/// `s` without its trailing whitespace.
pub open spec fn trim_right(s: Seq<char>) -> Seq<char>
    decreases s.len(),
{
    if s.len() > 0 && char_is_whitespace(s.last()) {
        trim_right(s.drop_last())
    } else {
        s
    }
}

/// `s` without leading and trailing whitespace.
pub open spec fn trimmed(s: Seq<char>) -> Seq<char> {
    trim_right(trim_left(s))
}

/// The ends of a trimmed text, where it has any, are no whitespace.
pub proof fn trimmed_ends_are_visible(s: Seq<char>)
    ensures
        trimmed(s).len() > 0 ==> !char_is_whitespace(trimmed(s)[0]) && !char_is_whitespace(
            trimmed(s).last(),
        ),
{
    lemma_trim_left_start(s);
    lemma_trim_right_end(trim_left(s));
}

/// A text without whitespace at its ends is left as it is by trimming.
pub proof fn trimming_keeps_visible_ends(s: Seq<char>)
    requires
        s.len() > 0 ==> !char_is_whitespace(s[0]) && !char_is_whitespace(s.last()),
    ensures
        trimmed(s) == s,
{
}

/// Trimming a second time changes nothing.
pub proof fn trim_is_idempotent(s: Seq<char>)
    ensures
        trimmed(trimmed(s)) == trimmed(s),
{
    trimmed_ends_are_visible(s);
    trimming_keeps_visible_ends(trimmed(s));
}

proof fn lemma_trim_left_start(s: Seq<char>)
    ensures
        trim_left(s).len() > 0 ==> !char_is_whitespace(trim_left(s)[0]),
    decreases s.len(),
{
    if s.len() > 0 && char_is_whitespace(s[0]) {
        lemma_trim_left_start(s.drop_first());
    }
}

proof fn lemma_trim_right_end(s: Seq<char>)
    ensures
        trim_right(s).len() > 0 ==> trim_right(s)[0] == s[0] && !char_is_whitespace(
            trim_right(s).last(),
        ),
    decreases s.len(),
{
    if s.len() > 0 && char_is_whitespace(s.last()) {
        lemma_trim_right_end(s.drop_last());
    }
}

/// Whether `c` has the Unicode property `White_Space`.
pub fn is_whitespace(c: char) -> (r: bool)
    ensures
        r == char_is_whitespace(c),
{
    let code: u32 = c as u32;
    (0x9 <= code && code <= 0xd) || code == 0x20 || code == 0x85 || code == 0xa0 || code == 0x1680
        || (0x2000 <= code && code <= 0x200a) || code == 0x2028 || code == 0x2029 || code == 0x202f
        || code == 0x205f || code == 0x3000
}

/// The characters of a string, in order.
pub(crate) fn chars_of(s: &str) -> (r: Vec<char>)
    ensures
        r@ == s@,
{
    let mut out: Vec<char> = Vec::new();
    for c in it: s.chars()
        invariant
            it.seq() == s@,
            out@ == s@.take(it.index() as int),
    {
        out.push(c);
    }
    out
}

/// The string made of the characters `chars[from..to]`.
pub(crate) fn string_of(chars: &[char], from: usize, to: usize) -> (r: String)
    requires
        from <= to <= chars@.len(),
    ensures
        r@ == chars@.subrange(from as int, to as int),
{
    let mut out = String::new();
    let mut i: usize = from;
    while i < to
        invariant
            from <= i <= to <= chars@.len(),
            out@ == chars@.subrange(from as int, i as int),
        decreases to - i,
    {
        out.push(chars[i]);
        i += 1;
    }
    out
}

/// The bounds of `chars[from..to]` once its surrounding whitespace is left out.
pub(crate) fn trim_bounds(chars: &[char], from: usize, to: usize) -> (r: (usize, usize))
    requires
        from <= to <= chars@.len(),
    ensures
        from <= r.0 <= r.1 <= to,
        chars@.subrange(r.0 as int, r.1 as int) == trimmed(
            chars@.subrange(from as int, to as int),
        ),
{
    let mut start: usize = from;
    let ghost whole = chars@.subrange(from as int, to as int);
    let mut inside: bool = start < to && is_whitespace(chars[start]);
    while inside
        invariant
            from <= start <= to <= chars@.len(),
            inside <==> start < to && char_is_whitespace(chars@[start as int]),
            trim_left(whole) == trim_left(chars@.subrange(start as int, to as int)),
        decreases to - start,
    {
        assert(chars@.subrange(start as int, to as int).drop_first() =~= chars@.subrange(
            start + 1,
            to as int,
        ));
        start += 1;
        inside = start < to && is_whitespace(chars[start]);
    }
    let mut end: usize = to;
    let ghost rest = chars@.subrange(start as int, to as int);
    inside = start < end && is_whitespace(chars[end - 1]);
    while inside
        invariant
            from <= start <= end <= to <= chars@.len(),
            inside <==> start < end && char_is_whitespace(chars@[end - 1]),
            trim_right(rest) == trim_right(chars@.subrange(start as int, end as int)),
        decreases end - start,
    {
        assert(chars@.subrange(start as int, end as int).drop_last() =~= chars@.subrange(
            start as int,
            end - 1,
        ));
        end -= 1;
        inside = start < end && is_whitespace(chars[end - 1]);
    }
    (start, end)
}

/// A copy of `s` without leading and trailing whitespace.
pub fn trim(s: &str) -> (r: String)
    ensures
        r@ == trimmed(s@),
{
    let chars = chars_of(s);
    let (from, to) = trim_bounds(chars.as_slice(), 0, chars.len());
    assert(chars@.subrange(0, chars@.len() as int) =~= s@);
    string_of(chars.as_slice(), from, to)
}

/// `s` without a final carriage return, if it has one.
pub open spec fn without_final_cr(s: Seq<char>) -> Seq<char> {
    if s.len() > 0 && s.last() == '\r' {
        s.drop_last()
    } else {
        s
    }
}

/// The lines of `s`. A line ends at a line feed, which may follow a carriage return; neither
/// belongs to the line. What follows the last line feed is a line unless it is empty.
pub open spec fn lines_of(s: Seq<char>) -> Seq<Seq<char>>
    decreases s.len(),
{
    if s.len() == 0 {
        Seq::empty()
    } else {
        proof {
            s.index_of_first_ensures('\n');
        }
        match s.index_of_first('\n') {
            Some(i) => seq![without_final_cr(s.take(i))] + lines_of(s.skip(i + 1)),
            None => seq![s],
        }
    }
}

/// A line that is written with a line feed behind it is read back as the first line, without
/// a final carriage return.
pub proof fn first_line_reads_back(line: Seq<char>, rest: Seq<char>)
    requires
        !line.contains('\n'),
    ensures
        lines_of(line + seq!['\n'] + rest) == seq![without_final_cr(line)] + lines_of(rest),
{
    let s = line + seq!['\n'] + rest;
    s.index_of_first_ensures('\n');
    assert(s[line.len() as int] == '\n');
    let i = s.index_of_first('\n')->0;
    if i < line.len() {
        assert(line[i] == '\n');
    }
    assert(s.take(i) =~= line);
    assert(s.skip(i + 1) =~= rest);
}

/// The pieces of `chars` that `bounds` marks out.
pub open spec fn pieces(chars: Seq<char>, bounds: Seq<(usize, usize)>) -> Seq<Seq<char>> {
    bounds.map_values(|b: (usize, usize)| chars.subrange(b.0 as int, b.1 as int))
}

/// Where the lines of `chars` begin and end.
pub(crate) fn line_bounds(chars: &[char]) -> (r: Vec<(usize, usize)>)
    ensures
        forall|k: int| 0 <= k < r@.len() ==> (#[trigger] r@[k]).0 <= r@[k].1 <= chars@.len(),
        pieces(chars@, r@) == lines_of(chars@),
{
    let mut out: Vec<(usize, usize)> = Vec::new();
    let mut start: usize = 0;
    assert(pieces(chars@, out@) =~= Seq::empty());
    assert(chars@.skip(0) =~= chars@);
    assert(lines_of(chars@) =~= pieces(chars@, out@) + lines_of(chars@.skip(0)));
    while start < chars.len()
        invariant
            start <= chars@.len(),
            forall|k: int| 0 <= k < out@.len() ==> (#[trigger] out@[k]).0 <= out@[k].1
                <= chars@.len(),
            lines_of(chars@) == pieces(chars@, out@) + lines_of(chars@.skip(start as int)),
        decreases chars@.len() - start,
    {
        let ghost rest = chars@.skip(start as int);
        let mut i: usize = start;
        while i < chars.len() && chars[i] != '\n'
            invariant
                start <= i <= chars@.len(),
                forall|j: int| start <= j < i ==> chars@[j] != '\n',
            decreases chars@.len() - i,
        {
            i += 1;
        }
        let ghost before = out@;
        proof {
            rest.index_of_first_ensures('\n');
        }
        if i < chars.len() {
            let mut end: usize = i;
            if start < end && chars[end - 1] == '\r' {
                end -= 1;
            }
            proof {
                assert(rest[i - start] == '\n');
                let first = rest.index_of_first('\n')->0;
                assert(first == i - start) by {
                    if first < i - start {
                        assert(rest[first] == chars@[start + first]);
                    }
                }
                assert(rest.take(first) =~= chars@.subrange(start as int, i as int));
                assert(without_final_cr(rest.take(first)) =~= chars@.subrange(
                    start as int,
                    end as int,
                ));
                assert(rest.skip(first + 1) =~= chars@.skip(i + 1));
            }
            out.push((start, end));
            start = i + 1;
            assert(pieces(chars@, out@) =~= pieces(chars@, before).push(
                without_final_cr(rest.take(rest.index_of_first('\n')->0)),
            ));
        } else {
            proof {
                assert(!rest.contains('\n')) by {
                    if rest.contains('\n') {
                        let j = rest.index_of_first('\n')->0;
                        assert(chars@[start + j] == '\n');
                    }
                }
                assert(rest =~= chars@.subrange(start as int, i as int));
            }
            out.push((start, i));
            start = i;
            assert(pieces(chars@, out@) =~= pieces(chars@, before).push(rest));
            assert(chars@.skip(start as int) =~= Seq::empty());
        }
        assert(lines_of(chars@) =~= pieces(chars@, out@) + lines_of(chars@.skip(start as int)));
    }
    assert(chars@.skip(start as int) =~= Seq::empty());
    out
}

proof fn lemma_trim_left_to(s: Seq<char>, i: int)
    requires
        0 <= i <= s.len(),
        forall|k: int| 0 <= k < i ==> char_is_whitespace(#[trigger] s[k]),
        i < s.len() ==> !char_is_whitespace(s[i]),
    ensures
        trim_left(s) == s.skip(i),
    decreases i,
{
    if i == 0 {
        assert(s.skip(0) =~= s);
    } else {
        assert(char_is_whitespace(s[0]));
        let rest = s.drop_first();
        assert forall|k: int| 0 <= k < i - 1 implies char_is_whitespace(#[trigger] rest[k]) by {
            assert(char_is_whitespace(s[k + 1]));
        }
        lemma_trim_left_to(rest, i - 1);
        assert(rest.skip(i - 1) =~= s.skip(i));
    }
}

proof fn lemma_trim_right_to(s: Seq<char>, j: int)
    requires
        0 <= j <= s.len(),
        forall|k: int| j <= k < s.len() ==> char_is_whitespace(#[trigger] s[k]),
        j > 0 ==> !char_is_whitespace(s[j - 1]),
    ensures
        trim_right(s) == s.take(j),
    decreases s.len(),
{
    if j == s.len() {
        assert(s.take(j) =~= s);
    } else {
        assert(char_is_whitespace(s[s.len() - 1]));
        lemma_trim_right_to(s.drop_last(), j);
        assert(s.drop_last().take(j) =~= s.take(j));
    }
}

/// Trimming takes off the whitespace at both ends and nothing else: what lies between whitespace
/// on the left and whitespace on the right is left, if it begins and ends with something else.
pub proof fn trimming_takes_off_whitespace_only(s: Seq<char>, i: int, j: int)
    requires
        0 <= i <= j <= s.len(),
        forall|k: int| 0 <= k < i ==> char_is_whitespace(#[trigger] s[k]),
        forall|k: int| j <= k < s.len() ==> char_is_whitespace(#[trigger] s[k]),
        i < j ==> !char_is_whitespace(s[i]) && !char_is_whitespace(s[j - 1]),
    ensures
        trimmed(s) == s.subrange(i, j),
{
    if i == j {
        lemma_trim_left_to(s, s.len() as int);
        assert(s.skip(s.len() as int) =~= Seq::empty());
        assert(s.subrange(i, j) =~= Seq::empty());
    } else {
        lemma_trim_left_to(s, i);
        let rest = s.skip(i);
        assert forall|k: int| j - i <= k < rest.len() implies char_is_whitespace(
            #[trigger] rest[k],
        ) by {
            assert(char_is_whitespace(s[k + i]));
        }
        lemma_trim_right_to(rest, j - i);
        assert(rest.take(j - i) =~= s.subrange(i, j));
    }
}

/// A text that is written as UTF-8 is read back as it stands.
pub proof fn well_formed_text_reads_back(text: Seq<char>)
    ensures
        lossy_text(encode_utf8(text)) == text,
{
    encode_utf8_valid_utf8(text);
    encode_utf8_decode_utf8(text);
}

/// A text is cut into lines at its line feeds and nowhere else. A line feed takes at most one
/// carriage return before it along, and an empty piece behind the last line feed is no line.
pub proof fn lines_are_cut_at_line_feeds(line: Seq<char>, rest: Seq<char>)
    requires
        !line.contains('\n'),
    ensures
        line.len() == 0 || line.last() != '\r' ==> lines_of(line + seq!['\n'] + rest) == seq![line]
            + lines_of(rest),
        lines_of(line + seq!['\r', '\n'] + rest) == seq![line] + lines_of(rest),
        line.len() > 0 ==> lines_of(line) == seq![line],
        lines_of(Seq::empty()) == Seq::<Seq<char>>::empty(),
{
    first_line_reads_back(line, rest);
    let ended = line.push('\r');
    assert(!ended.contains('\n')) by {
        if ended.contains('\n') {
            let k = choose|k: int| 0 <= k < ended.len() && ended[k] == '\n';
            assert(line[k] == '\n');
        }
    }
    first_line_reads_back(ended, rest);
    assert(ended.drop_last() =~= line);
    assert(line + seq!['\r', '\n'] + rest =~= ended + seq!['\n'] + rest);
    line.index_of_first_ensures('\n');
}

} // verus!
