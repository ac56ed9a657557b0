//! Byte positions, code-point boundaries and slicing of UTF-8 text.
use vstd::prelude::*;
use vstd::utf8::*;
use vstd::string::StringSliceAdditionalSpecFns;
use vstd::string::group_string_axioms;
use vstd::std_specs::hash::group_hash_axioms;
use std::collections::HashMap;

verus! {

/// The number of bytes that the UTF-8 encoding of `c` takes.
pub open spec fn char_width(c: char) -> int {
    encode_scalar(c as u32).len() as int
}

/// The byte offset at which the code point with index `i` starts in the
/// UTF-8 encoding of `chars`; for `i == chars.len()`, the encoding's length.
pub open spec fn byte_pos(chars: Seq<char>, i: int) -> int {
    encode_utf8(chars.take(i)).len() as int
}

/// The number of code points encoded before byte offset `b`.
pub open spec fn char_index(bytes: Seq<u8>, b: int) -> int {
    decode_utf8(bytes.subrange(0, b)).len() as int
}

/// Encoding distributes over concatenation.
pub proof fn lemma_encode_concat(a: Seq<char>, b: Seq<char>)
    ensures
        encode_utf8(a + b) == encode_utf8(a) + encode_utf8(b),
    decreases a.len(),
{
    if a.len() == 0 {
        assert(a + b =~= b);
        assert(encode_utf8(a) + encode_utf8(b) =~= encode_utf8(b));
    } else {
        assert((a + b).drop_first() =~= a.drop_first() + b);
        lemma_encode_concat(a.drop_first(), b);
        assert(encode_utf8(a + b) =~= encode_utf8(a) + encode_utf8(b));
    }
}

/// Every code point takes between one and four bytes.
pub proof fn lemma_char_width_bounds(c: char)
    ensures
        1 <= char_width(c) <= 4,
{
}

/// Going one code point further adds that code point's width.
pub proof fn lemma_byte_pos_step(chars: Seq<char>, i: int)
    requires
        0 <= i < chars.len(),
    ensures
        byte_pos(chars, i + 1) == byte_pos(chars, i) + char_width(chars[i]),
        byte_pos(chars, 0) == 0,
{
    let one = seq![chars[i]];
    assert(chars.take(i + 1) =~= chars.take(i) + one);
    lemma_encode_concat(chars.take(i), one);
    assert(one.drop_first() =~= Seq::<char>::empty());
    assert(encode_utf8(one) =~= encode_scalar(chars[i] as u32)) by {
        reveal_with_fuel(encode_utf8, 2);
    }
    assert(chars.take(0) =~= Seq::<char>::empty());
}

/// Byte positions lie inside the encoding and end at its length.
pub proof fn lemma_byte_pos_bounds(chars: Seq<char>, i: int)
    requires
        0 <= i <= chars.len(),
    ensures
        0 <= byte_pos(chars, i) <= encode_utf8(chars).len(),
        byte_pos(chars, 0) == 0,
        byte_pos(chars, chars.len() as int) == encode_utf8(chars).len(),
{
    assert(chars =~= chars.take(i) + chars.skip(i));
    lemma_encode_concat(chars.take(i), chars.skip(i));
    assert(chars.take(0) =~= Seq::<char>::empty());
    assert(chars.take(chars.len() as int) =~= chars);
}

/// Byte positions grow strictly with the code-point index.
pub proof fn lemma_byte_pos_increasing(chars: Seq<char>, i: int, j: int)
    requires
        0 <= i < j <= chars.len(),
    ensures
        byte_pos(chars, i) < byte_pos(chars, j),
    decreases j - i,
{
    lemma_byte_pos_step(chars, j - 1);
    lemma_char_width_bounds(chars[j - 1]);
    if i < j - 1 {
        lemma_byte_pos_increasing(chars, i, j - 1);
    }
}

/// A text has at least one byte and at most four bytes for each code point.
pub proof fn lemma_encoding_len(chars: Seq<char>, i: int)
    requires
        0 <= i <= chars.len(),
    ensures
        i <= byte_pos(chars, i) <= 4 * i,
    decreases i,
{
    lemma_byte_pos_bounds(chars, 0);
    if i > 0 {
        lemma_encoding_len(chars, i - 1);
        lemma_byte_pos_step(chars, i - 1);
        lemma_char_width_bounds(chars[i - 1]);
    }
}

/// Where two encodings are joined there is a code-point boundary.
pub proof fn lemma_boundary_at_join(b1: Seq<u8>, b2: Seq<u8>)
    requires
        valid_utf8(b1),
        valid_utf8(b2),
    ensures
        is_char_boundary(b1 + b2, b1.len() as int),
    decreases b1.len(),
{
    valid_utf8_concat(b1, b2);
    if b1.len() != 0 {
        let rest = pop_first_scalar(b1);
        assert(rest.len() < b1.len());
        assert(pop_first_scalar(b1 + b2) =~= rest + b2);
        lemma_boundary_at_join(rest, b2);
    }
}

/// The start of every code point is a code-point boundary of the encoding.
pub proof fn lemma_byte_pos_is_boundary(chars: Seq<char>, i: int)
    requires
        0 <= i <= chars.len(),
    ensures
        is_char_boundary(encode_utf8(chars), byte_pos(chars, i)),
        char_index(encode_utf8(chars), byte_pos(chars, i)) == i,
{
    let head = chars.take(i);
    let tail = chars.skip(i);
    assert(chars =~= head + tail);
    lemma_encode_concat(head, tail);
    encode_utf8_valid_utf8(head);
    encode_utf8_valid_utf8(tail);
    lemma_boundary_at_join(encode_utf8(head), encode_utf8(tail));
    assert(encode_utf8(chars).subrange(0, byte_pos(chars, i)) =~= encode_utf8(head));
    encode_utf8_decode_utf8(head);
}

/// Every code-point boundary of the encoding is the start of a code point,
/// or the end of the text.
pub proof fn lemma_boundary_is_byte_pos(chars: Seq<char>, b: int)
    requires
        is_char_boundary(encode_utf8(chars), b),
    ensures
        0 <= char_index(encode_utf8(chars), b) <= chars.len(),
        byte_pos(chars, char_index(encode_utf8(chars), b)) == b,
        0 <= b <= encode_utf8(chars).len(),
{
    let bytes = encode_utf8(chars);
    encode_utf8_valid_utf8(chars);
    lemma_boundary_in_range(bytes, b);
    valid_utf8_split(bytes, b);
    decode_utf8_split(bytes, b);
    encode_utf8_decode_utf8(chars);
    let head = decode_utf8(bytes.subrange(0, b));
    let tail = decode_utf8(bytes.subrange(b, bytes.len() as int));
    assert(chars =~= head + tail);
    assert(chars.take(head.len() as int) =~= head);
    decode_utf8_encode_utf8(bytes.subrange(0, b));
}

/// A code-point boundary lies between the start and the end of the text.
pub proof fn lemma_boundary_in_range(bytes: Seq<u8>, b: int)
    requires
        valid_utf8(bytes),
        is_char_boundary(bytes, b),
    ensures
        0 <= b <= bytes.len(),
    decreases bytes.len(),
{
    if b != 0 {
        let rest = pop_first_scalar(bytes);
        if bytes.len() > 0 {
            assert(rest.len() < bytes.len());
            lemma_boundary_in_range(rest, b - length_of_first_scalar(bytes));
        }
    }
}

/// A position is a boundary of a prefix exactly when it is a boundary of the
/// whole text, as long as it lies inside that prefix.
pub proof fn lemma_boundary_in_prefix(bytes: Seq<u8>, start: int, end: int)
    requires
        valid_utf8(bytes),
        is_char_boundary(bytes, start),
        is_char_boundary(bytes, end),
        0 <= start <= end <= bytes.len(),
    ensures
        valid_utf8(bytes.subrange(0, end)),
        is_char_boundary(bytes.subrange(0, end), start),
{
    valid_utf8_split(bytes, end);
    let head = bytes.subrange(0, end);
    if start == end {
        is_char_boundary_start_end_of_seq(head);
    } else {
        is_char_boundary_iff_not_is_continuation_byte(bytes, start);
        is_char_boundary_iff_not_is_continuation_byte(head, start);
    }
}

/// The part of `text` between two code-point boundaries, given as byte
/// offsets.
pub fn slice_between<'a>(text: &'a str, start: usize, end: usize) -> (piece: &'a str)
    requires
        start <= end <= text.spec_bytes().len(),
        is_char_boundary(text.spec_bytes(), start as int),
        is_char_boundary(text.spec_bytes(), end as int),
    ensures
        piece.spec_bytes() == text.spec_bytes().subrange(start as int, end as int),
        piece@ == decode_utf8(text.spec_bytes().subrange(start as int, end as int)),
{
    proof {
        encode_utf8_valid_utf8(text@);
        lemma_boundary_in_prefix(text.spec_bytes(), start as int, end as int);
    }
    let (head, _) = text.split_at(end);
    let (_, piece) = head.split_at(start);
    proof {
        assert(piece.spec_bytes() =~= text.spec_bytes().subrange(start as int, end as int));
        encode_utf8_decode_utf8(piece@);
    }
    piece
}

/// Whether `c` is a whitespace character, as `char::is_whitespace` decides.
pub uninterp spec fn is_whitespace_char(c: char) -> bool;

/// `char::is_whitespace` tells whether a character has the Unicode property
/// White_Space. The property's table is not restated: the result is named.
pub assume_specification[ char::is_whitespace ](c: char) -> (r: bool)
    ensures
        r == is_whitespace_char(c),
;

/// `char::len_utf8` gives the number of bytes of the character's UTF-8
/// encoding.
pub assume_specification[ char::len_utf8 ](c: char) -> (n: usize)
    ensures
        n == char_width(c),
;

/// The ASCII punctuation characters: `!` to `/`, `:` to `@`, `[` to `` ` ``
/// and `{` to `~`.
pub open spec fn is_ascii_punctuation_char(c: char) -> bool {
    let code = c as u32;
    ||| 0x21 <= code <= 0x2F
    ||| 0x3A <= code <= 0x40
    ||| 0x5B <= code <= 0x60
    ||| 0x7B <= code <= 0x7E
}

/// `char::is_ascii_punctuation` tells whether a character is one of the
/// ASCII punctuation characters, which its documentation lists by their
/// four ranges.
pub assume_specification[ char::is_ascii_punctuation ](c: &char) -> (r: bool)
    ensures
        r == is_ascii_punctuation_char(*c),
;

/// The encoding of a run of code points is the part of the text's encoding
/// between the byte positions of the run's two ends.
pub proof fn lemma_encode_subrange(chars: Seq<char>, i: int, j: int)
    requires
        0 <= i <= j <= chars.len(),
    ensures
        byte_pos(chars, i) <= byte_pos(chars, j) <= encode_utf8(chars).len(),
        encode_utf8(chars).subrange(byte_pos(chars, i), byte_pos(chars, j)) == encode_utf8(
            chars.subrange(i, j),
        ),
        decode_utf8(encode_utf8(chars).subrange(byte_pos(chars, i), byte_pos(chars, j)))
            == chars.subrange(i, j),
{
    let head = chars.take(i);
    let mid = chars.subrange(i, j);
    let tail = chars.skip(j);
    assert(chars.take(j) =~= head + mid);
    assert(chars =~= chars.take(j) + tail);
    lemma_encode_concat(head, mid);
    lemma_encode_concat(chars.take(j), tail);
    assert(encode_utf8(chars).subrange(byte_pos(chars, i), byte_pos(chars, j)) =~= encode_utf8(
        mid,
    ));
    encode_utf8_decode_utf8(mid);
}

/// A code-point boundary of a part of a text that is cut out at code-point
/// boundaries is a code-point boundary of the text.
pub proof fn lemma_boundary_in_part(bytes: Seq<u8>, start: int, end: int, b: int)
    requires
        valid_utf8(bytes),
        is_char_boundary(bytes, start),
        is_char_boundary(bytes, end),
        0 <= start <= end <= bytes.len(),
        is_char_boundary(bytes.subrange(start, end), b),
    ensures
        valid_utf8(bytes.subrange(start, end)),
        0 <= b <= end - start,
        is_char_boundary(bytes, start + b),
{
    lemma_boundary_in_prefix(bytes, start, end);
    let head = bytes.subrange(0, end);
    valid_utf8_split(head, start);
    let part = bytes.subrange(start, end);
    assert(head.subrange(start, head.len() as int) =~= part);
    lemma_boundary_in_range(part, b);
    if b < end - start {
        is_char_boundary_iff_not_is_continuation_byte(part, b);
        is_char_boundary_iff_not_is_continuation_byte(bytes, start + b);
    }
}

/// `Iterator::collect` into a `String`, on the characters of a vector: the
/// string made of those characters, in order.
#[verifier::external_body]
fn string_from_chars(chars: &Vec<char>) -> (s: String)
    ensures
        s@ == chars@,
{
    chars.iter().collect::<String>()
}

/// The first code point of `text`, if it has one.
pub fn first_char(text: &str) -> (first: Option<char>)
    ensures
        first == (if text@.len() > 0 {
            Some(text@[0])
        } else {
            None
        }),
{
    broadcast use group_string_axioms;

    let mut it = text.chars();
    it.next()
}

/// The number of whitespace characters that the text starts with.
pub open spec fn leading_whitespace(chars: Seq<char>) -> int
    decreases chars.len(),
{
    if chars.len() > 0 && is_whitespace_char(chars[0]) {
        1 + leading_whitespace(chars.drop_first())
    } else {
        0
    }
}

/// The first `k` characters are whitespace, and the next one, if there is
/// one, is not: then the text starts with `k` whitespace characters.
pub proof fn lemma_leading_whitespace(chars: Seq<char>, k: int)
    requires
        0 <= k <= chars.len(),
        forall|i: int| 0 <= i < k ==> is_whitespace_char(#[trigger] chars[i]),
        k < chars.len() ==> !is_whitespace_char(chars[k]),
    ensures
        leading_whitespace(chars) == k,
    decreases k,
{
    if k > 0 {
        let rest = chars.drop_first();
        assert forall|i: int| 0 <= i < k - 1 implies is_whitespace_char(#[trigger] rest[i]) by {
            assert(rest[i] == chars[i + 1]);
        }
        lemma_leading_whitespace(rest, k - 1);
    }
}

/// The head of a corpus made of its first `n` lines: each line that is not
/// empty, without the whitespace that it starts with, and a space behind it.
pub open spec fn header_text(lines: Seq<Seq<char>>, n: int) -> Seq<char>
    decreases n,
{
    if n <= 0 {
        Seq::empty()
    } else if lines[n - 1].len() == 0 {
        header_text(lines, n - 1)
    } else {
        header_text(lines, n - 1) + lines[n - 1].skip(leading_whitespace(lines[n - 1])) + seq![' ']
    }
}

/// The views of the lines, in order.
pub open spec fn line_views(lines: Seq<String>) -> Seq<Seq<char>> {
    Seq::new(lines.len(), |i: int| lines[i]@)
}

/// Joins the lines of the head of a corpus into one text: empty lines are
/// left out, the others lose their leading whitespace and get a space behind
/// them.
pub fn header_of_lines(lines: &Vec<String>) -> (header: String)
    ensures
        header@ == header_text(line_views(lines@), lines@.len() as int),
{
    broadcast use group_string_axioms;

    let ghost views = line_views(lines@);
    let mut output: Vec<char> = Vec::new();
    let mut n: usize = 0;
    while n < lines.len()
        invariant
            n <= lines@.len(),
            views == line_views(lines@),
            output@ == header_text(views, n as int),
        decreases lines@.len() - n,
    {
        let line = lines[n].as_str();
        let ghost chars = line@;
        let ghost before = output@;
        let mut leading = true;
        let ghost mut skipped: int = 0;
        for character in it: line.chars()
            invariant
                it.seq() == chars,
                0 <= skipped <= it.index(),
                leading ==> skipped == it.index(),
                forall|i: int| 0 <= i < skipped ==> is_whitespace_char(#[trigger] chars[i]),
                !leading ==> skipped < chars.len() && !is_whitespace_char(chars[skipped]),
                output@ == before + chars.subrange(skipped, it.index() as int),
        {
            let ghost i = it.index() as int;
            if leading && character.is_whitespace() {
                proof {
                    skipped = skipped + 1;
                }
                assert(output@ =~= before + chars.subrange(skipped, i + 1));
            } else {
                leading = false;
                output.push(character);
                assert(output@ =~= before + chars.subrange(skipped, i + 1));
            }
        }
        proof {
            lemma_leading_whitespace(chars, skipped);
            assert(chars.subrange(skipped, chars.len() as int) =~= chars.skip(skipped));
            assert(views[n as int] == chars);
        }
        if !line.is_empty() {
            output.push(' ');
        } else {
            assert(output@ =~= before);
        }
        n += 1;
    }
    string_from_chars(&output)
}

/// True when the preprocessor puts a whitespace token in front of the text:
/// the text does not already start with one.
pub open spec fn needs_prefix(orig: Seq<char>, ws: char) -> bool {
    orig.len() == 0 || orig[0] != ws
}

/// The number of code points that the preprocessor puts in front: 0 or 1.
pub open spec fn prefix_len(orig: Seq<char>, ws: char) -> int {
    if needs_prefix(orig, ws) {
        1
    } else {
        0
    }
}

/// A whitespace character becomes the whitespace token; any other character
/// stays.
pub open spec fn normalize_char(c: char, ws: char) -> char {
    if is_whitespace_char(c) {
        ws
    } else {
        c
    }
}

/// The preprocessed text: the input text with every whitespace character
/// replaced by `ws`, behind one more `ws` where the input text does not
/// start with it.
pub open spec fn pre_chars(orig: Seq<char>, ws: char) -> Seq<char> {
    Seq::new(
        (prefix_len(orig, ws) + orig.len()) as nat,
        |j: int|
            if j < prefix_len(orig, ws) {
                ws
            } else {
                normalize_char(orig[j - prefix_len(orig, ws)], ws)
            },
    )
}

/// The code point of the input text that the code point `j` of the
/// preprocessed text stands for. The token put in front stands at the
/// input text's start.
pub open spec fn orig_index(orig: Seq<char>, ws: char, j: int) -> int {
    if j < prefix_len(orig, ws) {
        0
    } else {
        j - prefix_len(orig, ws)
    }
}

/// The byte-offset map: each code-point boundary of the preprocessed text
/// (its end included) is taken to the byte offset in the input text at which
/// the corresponding code point starts.
pub open spec fn offset_map(orig: Seq<char>, ws: char) -> Map<usize, usize> {
    let pre = pre_chars(orig, ws);
    Map::new(
        |b: usize| is_char_boundary(encode_utf8(pre), b as int),
        |b: usize|
            byte_pos(orig, orig_index(orig, ws, char_index(encode_utf8(pre), b as int))) as usize,
    )
}

/// `m` holds the entries of the byte-offset map for the first `n` code
/// points of the preprocessed text, and no others.
pub open spec fn offset_map_upto(m: Map<usize, usize>, orig: Seq<char>, ws: char, n: int) -> bool {
    let pre = pre_chars(orig, ws);
    &&& forall|b: usize|
        m.contains_key(b) <==> exists|j: int| 0 <= j < n && #[trigger] byte_pos(pre, j) == b
    &&& forall|j: int|
        0 <= j < n ==> m[#[trigger] byte_pos(pre, j) as usize] == byte_pos(
            orig,
            orig_index(orig, ws, j),
        )
}

/// Adding the entry of code point `n` extends the map by one code point.
pub proof fn lemma_offset_map_insert(
    m: Map<usize, usize>,
    orig: Seq<char>,
    ws: char,
    n: int,
    key: usize,
    value: usize,
)
    requires
        offset_map_upto(m, orig, ws, n),
        0 <= n <= pre_chars(orig, ws).len(),
        key == byte_pos(pre_chars(orig, ws), n),
        value == byte_pos(orig, orig_index(orig, ws, n)),
    ensures
        offset_map_upto(m.insert(key, value), orig, ws, n + 1),
{
    let pre = pre_chars(orig, ws);
    let m2 = m.insert(key, value);
    assert forall|j: int| 0 <= j < n implies byte_pos(pre, j) != key by {
        lemma_byte_pos_increasing(pre, j, n);
    }
    assert forall|b: usize|
        m2.contains_key(b) <==> exists|j: int| 0 <= j < n + 1 && #[trigger] byte_pos(pre, j) == b by {
        if m2.contains_key(b) {
            if b == key {
                assert(byte_pos(pre, n) == b);
            } else {
                let j = choose|j: int| 0 <= j < n && #[trigger] byte_pos(pre, j) == b;
                assert(0 <= j < n + 1 && byte_pos(pre, j) == b);
            }
        }
        if exists|j: int| 0 <= j < n + 1 && #[trigger] byte_pos(pre, j) == b {
            let j = choose|j: int| 0 <= j < n + 1 && #[trigger] byte_pos(pre, j) == b;
            if j < n {
                assert(m.contains_key(b));
            }
        }
    }
    assert forall|j: int| 0 <= j < n + 1 implies m2[#[trigger] byte_pos(pre, j) as usize]
        == byte_pos(orig, orig_index(orig, ws, j)) by {
        if j < n {
            lemma_byte_pos_increasing(pre, j, n);
            assert(m2[byte_pos(pre, j) as usize] == m[byte_pos(pre, j) as usize]);
        }
    }
}

/// A map that holds the entries of all code points and of the end is the
/// byte-offset map.
pub proof fn lemma_offset_map_complete(m: Map<usize, usize>, orig: Seq<char>, ws: char)
    requires
        offset_map_upto(m, orig, ws, (pre_chars(orig, ws).len() + 1) as int),
        encode_utf8(pre_chars(orig, ws)).len() <= usize::MAX,
    ensures
        m == offset_map(orig, ws),
{
    let pre = pre_chars(orig, ws);
    let bytes = encode_utf8(pre);
    let om = offset_map(orig, ws);
    assert forall|b: usize| m.contains_key(b) <==> om.contains_key(b) by {
        if m.contains_key(b) {
            let j = choose|j: int| 0 <= j < pre.len() + 1 && #[trigger] byte_pos(pre, j) == b;
            lemma_byte_pos_is_boundary(pre, j);
        }
        if om.contains_key(b) {
            lemma_boundary_is_byte_pos(pre, b as int);
            let j = char_index(bytes, b as int);
            assert(0 <= j < pre.len() + 1 && byte_pos(pre, j) == b);
        }
    }
    assert forall|b: usize| m.contains_key(b) implies m[b] == om[b] by {
        let j = choose|j: int| 0 <= j < pre.len() + 1 && #[trigger] byte_pos(pre, j) == b;
        lemma_byte_pos_is_boundary(pre, j);
        assert(m[byte_pos(pre, j) as usize] == byte_pos(orig, orig_index(orig, ws, j)));
    }
    assert(m =~= om);
}

/// The preprocessed text has one code point for each code point of the
/// input text, and one more where a token was put in front; it is never empty.
pub proof fn lemma_pre_chars_len(orig: Seq<char>, ws: char)
    ensures
        pre_chars(orig, ws).len() == prefix_len(orig, ws) + orig.len(),
        pre_chars(orig, ws).len() > 0,
        pre_chars(orig, ws)[0] == ws,
{
}

/// The preprocessed text has at most four bytes for each byte of the input
/// text, and four more.
pub proof fn lemma_pre_chars_bound(orig: Seq<char>, ws: char)
    ensures
        encode_utf8(pre_chars(orig, ws)).len() <= 4 * (encode_utf8(orig).len() + 1),
{
    let pre = pre_chars(orig, ws);
    lemma_pre_chars_len(orig, ws);
    lemma_encoding_len(pre, pre.len() as int);
    lemma_encoding_len(orig, orig.len() as int);
    lemma_byte_pos_bounds(pre, pre.len() as int);
    lemma_byte_pos_bounds(orig, orig.len() as int);
}

/// Every code-point boundary of the preprocessed text is a key of the
/// byte-offset map, and its value is a code-point boundary of the input text.
pub proof fn lemma_offset_map_at(orig: Seq<char>, ws: char, b: usize)
    requires
        is_char_boundary(encode_utf8(pre_chars(orig, ws)), b as int),
        encode_utf8(orig).len() <= usize::MAX,
    ensures
        offset_map(orig, ws).contains_key(b),
        offset_map(orig, ws)[b] <= encode_utf8(orig).len(),
        is_char_boundary(encode_utf8(orig), offset_map(orig, ws)[b] as int),
        b == 0 ==> offset_map(orig, ws)[b] == 0,
        b == encode_utf8(pre_chars(orig, ws)).len() ==> offset_map(orig, ws)[b] == encode_utf8(
            orig,
        ).len(),
{
    let pre = pre_chars(orig, ws);
    lemma_boundary_is_byte_pos(pre, b as int);
    let j = char_index(encode_utf8(pre), b as int);
    let i = orig_index(orig, ws, j);
    lemma_byte_pos_bounds(orig, i);
    lemma_byte_pos_is_boundary(orig, i);
    if b == 0 && j > 0 {
        lemma_byte_pos_increasing(pre, 0, j);
        lemma_byte_pos_bounds(pre, 0);
    }
    if b == encode_utf8(pre).len() && j < pre.len() {
        lemma_byte_pos_increasing(pre, j, pre.len() as int);
        lemma_byte_pos_bounds(pre, j);
    }
}

/// The byte-offset map never decreases.
pub proof fn lemma_offset_map_monotone(orig: Seq<char>, ws: char, b1: usize, b2: usize)
    requires
        is_char_boundary(encode_utf8(pre_chars(orig, ws)), b1 as int),
        is_char_boundary(encode_utf8(pre_chars(orig, ws)), b2 as int),
        b1 <= b2,
        encode_utf8(orig).len() <= usize::MAX,
    ensures
        offset_map(orig, ws)[b1] <= offset_map(orig, ws)[b2],
{
    let pre = pre_chars(orig, ws);
    lemma_boundary_is_byte_pos(pre, b1 as int);
    lemma_boundary_is_byte_pos(pre, b2 as int);
    let j1 = char_index(encode_utf8(pre), b1 as int);
    let j2 = char_index(encode_utf8(pre), b2 as int);
    if j2 < j1 {
        lemma_byte_pos_increasing(pre, j2, j1);
    }
    let i1 = orig_index(orig, ws, j1);
    let i2 = orig_index(orig, ws, j2);
    lemma_byte_pos_bounds(orig, i1);
    lemma_byte_pos_bounds(orig, i2);
    if i1 < i2 {
        lemma_byte_pos_increasing(orig, i1, i2);
    }
}

/// Preprocessing a preprocessed text changes nothing: a text that starts
/// with the whitespace token and whose only whitespace is that token is
/// returned as it is.
pub proof fn lemma_pre_chars_fixed_point(text: Seq<char>, ws: char)
    requires
        text.len() > 0,
        text[0] == ws,
        forall|i: int| 0 <= i < text.len() && is_whitespace_char(#[trigger] text[i]) ==> text[i] == ws,
    ensures
        pre_chars(text, ws) == text,
{
    assert(pre_chars(text, ws) =~= text);
}

/// Preprocessing twice gives what preprocessing once gives.
pub proof fn lemma_pre_chars_idempotent(orig: Seq<char>, ws: char)
    ensures
        pre_chars(pre_chars(orig, ws), ws) == pre_chars(orig, ws),
{
    lemma_pre_chars_len(orig, ws);
    lemma_pre_chars_fixed_point(pre_chars(orig, ws), ws);
}

/// Normalizes the whitespace of `input_text` and records where each code
/// point of the result came from.
///
/// The text returned is `input_text` with every whitespace character
/// replaced by `whitespace_token`, behind one more token unless the input
/// starts with one. The map returned takes the byte offset of every code
/// point of that text, and its length, to the byte offset of the matching
/// code point of `input_text`, and its length.
pub fn pre_process_text(input_text: &str, whitespace_token: char) -> (out: (
    String,
    HashMap<usize, usize>,
))
    requires
        encode_utf8(pre_chars(input_text@, whitespace_token)).len() <= usize::MAX,
    ensures
        out.0@ == pre_chars(input_text@, whitespace_token),
        out.1@ == offset_map(input_text@, whitespace_token),
{
    broadcast use group_string_axioms;
    broadcast use group_hash_axioms;

    let ghost orig = input_text@;
    let ghost ws = whitespace_token;
    let ghost full = pre_chars(orig, ws);
    let ghost k = prefix_len(orig, ws);
    let whitespace_token_len = whitespace_token.len_utf8();
    let mut byte_mapping: HashMap<usize, usize> = HashMap::new();
    let mut pre_processed_text: Vec<char> = Vec::new();
    let mut pre_off: usize = 0;
    let mut orig_off: usize = 0;
    let orig_len = input_text.as_bytes().len();

    let starts_with_token = match first_char(input_text) {
        Some(c) => c == whitespace_token,
        None => false,
    };
    proof {
        lemma_byte_pos_bounds(full, 0);
        lemma_byte_pos_bounds(orig, 0);
        assert(offset_map_upto(byte_mapping@, orig, ws, 0));
    }
    if !starts_with_token {
        proof {
            lemma_byte_pos_step(full, 0);
            lemma_byte_pos_bounds(full, 1);
            lemma_offset_map_insert(byte_mapping@, orig, ws, 0, 0, 0);
        }
        pre_processed_text.push(whitespace_token);
        byte_mapping.insert(0, 0);
        pre_off = whitespace_token_len;
    }
    assert(pre_processed_text@ =~= full.take(k));

    for character in it: input_text.chars()
        invariant
            it.seq() == orig,
            ws == whitespace_token,
            full == pre_chars(orig, ws),
            k == prefix_len(orig, ws),
            whitespace_token_len == char_width(ws),
            encode_utf8(full).len() <= usize::MAX,
            encode_utf8(orig).len() == orig_len,
            pre_processed_text@ == full.take(k + it.index()),
            pre_off == byte_pos(full, k + it.index()),
            orig_off == byte_pos(orig, it.index() as int),
            offset_map_upto(byte_mapping@, orig, ws, k + it.index()),
    {
        let ghost i = it.index() as int;
        proof {
            assert(character == orig[i]);
            assert(full[k + i] == normalize_char(orig[i], ws));
            lemma_byte_pos_step(full, k + i);
            lemma_byte_pos_bounds(full, k + i + 1);
            lemma_byte_pos_step(orig, i);
            lemma_byte_pos_bounds(orig, i + 1);
            lemma_offset_map_insert(byte_mapping@, orig, ws, k + i, pre_off, orig_off);
            assert(full.take(k + i + 1) =~= full.take(k + i).push(full[k + i]));
            encode_utf8_valid_utf8(orig);
        }
        byte_mapping.insert(pre_off, orig_off);
        let width = character.len_utf8();
        if character.is_whitespace() {
            pre_processed_text.push(whitespace_token);
            pre_off = pre_off + whitespace_token_len;
        } else {
            pre_processed_text.push(character);
            pre_off = pre_off + width;
        }
        orig_off = orig_off + width;
        assert(pre_processed_text@ =~= full.take(k + i + 1));
    }
    proof {
        let n = full.len() as int;
        assert(full.take(n) =~= full);
        lemma_offset_map_insert(byte_mapping@, orig, ws, n, pre_off, orig_off);
    }
    byte_mapping.insert(pre_off, orig_off);
    proof {
        lemma_offset_map_complete(byte_mapping@, orig, ws);
    }
    let text = string_from_chars(&pre_processed_text);
    (text, byte_mapping)
}

} // verus!
