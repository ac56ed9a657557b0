//! The pre-splitting engine: the text is first cut into words and
//! punctuation marks, and each piece is merged on its own.
use vstd::prelude::*;
use vstd::utf8::*;
use vstd::string::StringSliceAdditionalSpecFns;
use vstd::string::group_string_axioms;
use crate::bpe_base::{
    code_points, is_aligned, is_partition_of, lemma_code_points_well_formed, lemma_merge_all,
    lemma_partition_concat, lemma_project_segmentation, merge_all, piece_views, project,
    project_symbols, read_vocab, slices_match, vocab_of, well_formed, BpeTokenizer, MergesVocab,
    Symbol, WHITESPACE_TOKEN,
};
use crate::naive_bpe::{merge_text};
use crate::text::{
    byte_pos, is_ascii_punctuation_char, lemma_boundary_in_part, lemma_byte_pos_bounds,
    lemma_byte_pos_increasing, lemma_byte_pos_is_boundary, lemma_byte_pos_step, offset_map,
    pre_chars, pre_process_text, slice_between,
};
use crate::model::{pieces_of_model, read_model, ModelError};

verus! {

/// The tokenizer that cuts the text into pieces before it merges.
pub struct NaivePreSplitBpeTokenizer {
    merges_vocab: MergesVocab,
}

/// A punctuation mark is a piece of its own.
pub open spec fn stands_alone(c: char, ws: char) -> bool {
    c != ws && is_ascii_punctuation_char(c)
}

/// The byte range of the code points from `i` to `j`.
pub open spec fn span_of(chars: Seq<char>, i: int, j: int) -> Symbol {
    Symbol { start_byte: byte_pos(chars, i) as usize, end_byte: byte_pos(chars, j) as usize }
}

/// Where the piece starts that is still open after the first `k` code
/// points: at the last whitespace token, or behind the last punctuation
/// mark, whichever comes later; at the start of the text if there is neither.
pub open spec fn open_start(chars: Seq<char>, ws: char, k: int) -> int
    decreases k,
{
    if k <= 0 {
        0
    } else if chars[k - 1] == ws {
        k - 1
    } else if stands_alone(chars[k - 1], ws) {
        k
    } else {
        open_start(chars, ws, k - 1)
    }
}

/// The pieces that are complete after the first `k` code points: a
/// whitespace token ends the piece before it and starts the next; a
/// punctuation mark ends the piece before it and is a piece of its own.
pub open spec fn closed_pieces(chars: Seq<char>, ws: char, k: int) -> Seq<Symbol>
    decreases k,
{
    if k <= 0 {
        Seq::empty()
    } else {
        let before = closed_pieces(chars, ws, k - 1);
        let start = open_start(chars, ws, k - 1);
        let flushed = if start < k - 1 {
            before.push(span_of(chars, start, k - 1))
        } else {
            before
        };
        if chars[k - 1] == ws {
            flushed
        } else if stands_alone(chars[k - 1], ws) {
            flushed.push(span_of(chars, k - 1, k))
        } else {
            before
        }
    }
}

/// The pieces of a text: its words, each from its whitespace token on, and
/// its punctuation marks, as byte ranges in the order of the text.
pub open spec fn split_pieces(chars: Seq<char>, ws: char) -> Seq<Symbol> {
    let n = chars.len() as int;
    if open_start(chars, ws, n) < n {
        closed_pieces(chars, ws, n).push(span_of(chars, open_start(chars, ws, n), n))
    } else {
        closed_pieces(chars, ws, n)
    }
}

/// The complete pieces cover the text up to the start of the open piece.
pub proof fn lemma_closed_pieces(chars: Seq<char>, ws: char, k: int)
    requires
        0 <= k <= chars.len(),
        encode_utf8(chars).len() <= usize::MAX,
    ensures
        0 <= open_start(chars, ws, k) <= k,
        is_partition_of(closed_pieces(chars, ws, k), 0, byte_pos(chars, open_start(chars, ws, k))),
        is_aligned(encode_utf8(chars), closed_pieces(chars, ws, k)),
    decreases k,
{
    let bytes = encode_utf8(chars);
    lemma_byte_pos_bounds(chars, 0);
    if k > 0 {
        lemma_closed_pieces(chars, ws, k - 1);
        let before = closed_pieces(chars, ws, k - 1);
        let start = open_start(chars, ws, k - 1);
        lemma_byte_pos_bounds(chars, start);
        lemma_byte_pos_bounds(chars, k - 1);
        lemma_byte_pos_bounds(chars, k);
        lemma_byte_pos_is_boundary(chars, start);
        lemma_byte_pos_is_boundary(chars, k - 1);
        lemma_byte_pos_is_boundary(chars, k);
        lemma_byte_pos_increasing(chars, k - 1, k);
        let flushed = if start < k - 1 {
            before.push(span_of(chars, start, k - 1))
        } else {
            before
        };
        if start < k - 1 {
            lemma_byte_pos_increasing(chars, start, k - 1);
            let one = seq![span_of(chars, start, k - 1)];
            assert(is_partition_of(one, byte_pos(chars, start), byte_pos(chars, k - 1)));
            lemma_partition_concat(before, one, 0, byte_pos(chars, start), byte_pos(chars, k - 1));
            assert(before + one =~= flushed);
            assert forall|i: int| 0 <= i < flushed.len() implies is_char_boundary(
                bytes,
                (#[trigger] flushed[i]).start_byte as int,
            ) && is_char_boundary(bytes, flushed[i].end_byte as int) by {
                if i < before.len() {
                    assert(flushed[i] == before[i]);
                }
            }
        }
        assert(is_partition_of(flushed, 0, byte_pos(chars, k - 1)));
        assert(is_aligned(bytes, flushed));
        if chars[k - 1] != ws && stands_alone(chars[k - 1], ws) {
            let all = flushed.push(span_of(chars, k - 1, k));
            let one = seq![span_of(chars, k - 1, k)];
            assert(is_partition_of(one, byte_pos(chars, k - 1), byte_pos(chars, k)));
            lemma_partition_concat(flushed, one, 0, byte_pos(chars, k - 1), byte_pos(chars, k));
            assert(flushed + one =~= all);
            assert forall|i: int| 0 <= i < all.len() implies is_char_boundary(
                bytes,
                (#[trigger] all[i]).start_byte as int,
            ) && is_char_boundary(bytes, all[i].end_byte as int) by {
                if i < flushed.len() {
                    assert(all[i] == flushed[i]);
                }
            }
        }
    }
}

/// The pieces of a text are a partition of it at code-point boundaries.
pub proof fn lemma_split_pieces(chars: Seq<char>, ws: char)
    requires
        encode_utf8(chars).len() <= usize::MAX,
    ensures
        well_formed(encode_utf8(chars), split_pieces(chars, ws)),
{
    let n = chars.len() as int;
    let bytes = encode_utf8(chars);
    let closed = closed_pieces(chars, ws, n);
    let start = open_start(chars, ws, n);
    encode_utf8_valid_utf8(chars);
    lemma_closed_pieces(chars, ws, n);
    lemma_byte_pos_bounds(chars, start);
    lemma_byte_pos_bounds(chars, n);
    lemma_byte_pos_is_boundary(chars, start);
    lemma_byte_pos_is_boundary(chars, n);
    if start < n {
        lemma_byte_pos_increasing(chars, start, n);
        let one = seq![span_of(chars, start, n)];
        let all = closed.push(span_of(chars, start, n));
        assert(is_partition_of(one, byte_pos(chars, start), byte_pos(chars, n)));
        lemma_partition_concat(closed, one, 0, byte_pos(chars, start), byte_pos(chars, n));
        assert(closed + one =~= all);
        assert forall|i: int| 0 <= i < all.len() implies is_char_boundary(
            bytes,
            (#[trigger] all[i]).start_byte as int,
        ) && is_char_boundary(bytes, all[i].end_byte as int) by {
            if i < closed.len() {
                assert(all[i] == closed[i]);
            }
        }
    }
}

/// The symbols moved on by `offset` bytes.
pub open spec fn shifted(syms: Seq<Symbol>, offset: int) -> Seq<Symbol> {
    Seq::new(
        syms.len(),
        |i: int|
            Symbol {
                start_byte: (syms[i].start_byte + offset) as usize,
                end_byte: (syms[i].end_byte + offset) as usize,
            },
    )
}

/// The symbols of one piece after all merges inside it, as byte ranges of
/// the whole text.
pub open spec fn piece_symbols(vocab: Map<Seq<char>, i64>, bytes: Seq<u8>, piece: Symbol) -> Seq<
    Symbol,
> {
    let part = bytes.subrange(piece.start_byte as int, piece.end_byte as int);
    shifted(merge_all(vocab, part, code_points(decode_utf8(part))), piece.start_byte as int)
}

/// The symbols of the first `t` pieces, one piece after the other.
pub open spec fn pieces_symbols(
    vocab: Map<Seq<char>, i64>,
    bytes: Seq<u8>,
    pieces: Seq<Symbol>,
    t: int,
) -> Seq<Symbol>
    decreases t,
{
    if t <= 0 {
        Seq::empty()
    } else {
        pieces_symbols(vocab, bytes, pieces, t - 1) + piece_symbols(vocab, bytes, pieces[t - 1])
    }
}

/// The tokenization of `orig` with pre-splitting: the byte ranges of
/// `orig` that the symbols of the pieces of its preprocessed text stand for.
pub open spec fn pre_split_tokenization(vocab: Map<Seq<char>, i64>, orig: Seq<char>) -> Seq<
    Symbol,
> {
    let pre = pre_chars(orig, WHITESPACE_TOKEN);
    let pieces = split_pieces(pre, WHITESPACE_TOKEN);
    project(
        offset_map(orig, WHITESPACE_TOKEN),
        pieces_symbols(vocab, encode_utf8(pre), pieces, pieces.len() as int),
    )
}

/// The symbols of a piece cover the piece, at code-point boundaries of the
/// text.
pub proof fn lemma_piece_symbols(vocab: Map<Seq<char>, i64>, bytes: Seq<u8>, piece: Symbol)
    requires
        valid_utf8(bytes),
        piece.start_byte < piece.end_byte <= bytes.len() <= usize::MAX,
        is_char_boundary(bytes, piece.start_byte as int),
        is_char_boundary(bytes, piece.end_byte as int),
    ensures
        is_partition_of(
            piece_symbols(vocab, bytes, piece),
            piece.start_byte as int,
            piece.end_byte as int,
        ),
        is_aligned(bytes, piece_symbols(vocab, bytes, piece)),
{
    let start = piece.start_byte as int;
    let end = piece.end_byte as int;
    let part = bytes.subrange(start, end);
    lemma_boundary_in_prefix_part(bytes, start, end);
    let chars = decode_utf8(part);
    decode_utf8_encode_utf8(part);
    lemma_code_points_well_formed(chars);
    lemma_merge_all(vocab, part, code_points(chars));
    let inner = merge_all(vocab, part, code_points(chars));
    let outer = piece_symbols(vocab, bytes, piece);
    assert(inner.len() > 0);
    assert forall|i: int| 0 <= i < outer.len() implies (#[trigger] outer[i]).start_byte
        == inner[i].start_byte + start && outer[i].end_byte == inner[i].end_byte + start
        && is_char_boundary(bytes, outer[i].start_byte as int) && is_char_boundary(
        bytes,
        outer[i].end_byte as int,
    ) by {
        lemma_boundary_in_part(bytes, start, end, inner[i].start_byte as int);
        lemma_boundary_in_part(bytes, start, end, inner[i].end_byte as int);
    }
    assert forall|i: int| 0 <= i < outer.len() implies (#[trigger] outer[i]).start_byte
        < outer[i].end_byte by {
        assert(inner[i].start_byte < inner[i].end_byte);
    }
    assert forall|i: int| 0 <= i < outer.len() - 1 implies (#[trigger] outer[i]).end_byte
        == outer[i + 1].start_byte by {
        assert(inner[i].end_byte == inner[i + 1].start_byte);
    }
    assert(outer.last() == outer[outer.len() - 1]);
    assert(inner.last() == inner[inner.len() - 1]);
}

/// A part of a text between two code-point boundaries is itself a text.
pub proof fn lemma_boundary_in_prefix_part(bytes: Seq<u8>, start: int, end: int)
    requires
        valid_utf8(bytes),
        is_char_boundary(bytes, start),
        is_char_boundary(bytes, end),
        0 <= start <= end <= bytes.len(),
    ensures
        valid_utf8(bytes.subrange(start, end)),
{
    crate::text::lemma_boundary_in_prefix(bytes, start, end);
    let head = bytes.subrange(0, end);
    valid_utf8_split(head, start);
    assert(head.subrange(start, head.len() as int) =~= bytes.subrange(start, end));
}

/// The symbols of the first `t` pieces cover the text up to the end of the
/// last of them, at code-point boundaries.
pub proof fn lemma_pieces_symbols(
    vocab: Map<Seq<char>, i64>,
    bytes: Seq<u8>,
    pieces: Seq<Symbol>,
    t: int,
)
    requires
        well_formed(bytes, pieces),
        bytes.len() <= usize::MAX,
        0 <= t <= pieces.len(),
    ensures
        is_partition_of(
            pieces_symbols(vocab, bytes, pieces, t),
            0,
            if t > 0 {
                pieces[t - 1].end_byte as int
            } else {
                0
            },
        ),
        is_aligned(bytes, pieces_symbols(vocab, bytes, pieces, t)),
    decreases t,
{
    if t > 0 {
        lemma_pieces_symbols(vocab, bytes, pieces, t - 1);
        crate::bpe_base::lemma_symbol_in_range(pieces, bytes.len() as int, t - 1);
        lemma_piece_symbols(vocab, bytes, pieces[t - 1]);
        let before = pieces_symbols(vocab, bytes, pieces, t - 1);
        let piece = piece_symbols(vocab, bytes, pieces[t - 1]);
        let mid = pieces[t - 1].start_byte as int;
        if t > 1 {
            assert(pieces[t - 2].end_byte == pieces[t - 1].start_byte);
        }
        lemma_partition_concat(before, piece, 0, mid, pieces[t - 1].end_byte as int);
        let all = before + piece;
        assert forall|i: int| 0 <= i < all.len() implies is_char_boundary(
            bytes,
            (#[trigger] all[i]).start_byte as int,
        ) && is_char_boundary(bytes, all[i].end_byte as int) by {
            if i < before.len() {
                assert(all[i] == before[i]);
            } else {
                assert(all[i] == piece[i - before.len()]);
            }
        }
    }
}

/// Adds to `all` the symbols moved on by `offset` bytes.
fn append_shifted(all: &mut Vec<Symbol>, symbols: &Vec<Symbol>, offset: usize)
    requires
        forall|i: int| 0 <= i < symbols@.len() ==> (#[trigger] symbols@[i]).start_byte + offset
            <= usize::MAX && symbols@[i].end_byte + offset <= usize::MAX,
    ensures
        final(all)@ == old(all)@ + shifted(symbols@, offset as int),
{
    let ghost before = all@;
    let mut i: usize = 0;
    while i < symbols.len()
        invariant
            i <= symbols@.len(),
            forall|i: int| 0 <= i < symbols@.len() ==> (#[trigger] symbols@[i]).start_byte + offset
                <= usize::MAX && symbols@[i].end_byte + offset <= usize::MAX,
            all@ == before + shifted(symbols@, offset as int).take(i as int),
        decreases symbols@.len() - i,
    {
        let symbol = symbols[i];
        all.push(
            Symbol { start_byte: offset + symbol.start_byte, end_byte: offset + symbol.end_byte },
        );
        i += 1;
        assert(all@ =~= before + shifted(symbols@, offset as int).take(i as int));
    }
    assert(shifted(symbols@, offset as int).take(symbols@.len() as int) =~= shifted(
        symbols@,
        offset as int,
    ));
}

impl NaivePreSplitBpeTokenizer {
    /// A tokenizer for the model that the bytes encode. It fails where the
    /// model cannot be read.
    pub fn new(model: &[u8]) -> (tokenizer: Result<Self, ModelError>)
        ensures
            match (tokenizer, pieces_of_model(model@)) {
                (Ok(tokenizer), Ok(pieces)) => tokenizer.vocab() == vocab_of(pieces),
                (Err(error), Err(flaw)) => error.flaw() == flaw,
                _ => false,
            },
    {
        match read_model(model) {
            Ok(merges_vocab) => Ok(Self { merges_vocab }),
            Err(error) => Err(error),
        }
    }

    /// A tokenizer for a model's list of pieces.
    pub fn from_pieces(pieces: &Vec<String>) -> (tokenizer: Self)
        requires
            pieces.len() <= i64::MAX,
        ensures
            tokenizer.vocab() == vocab_of(piece_views(pieces@)),
    {
        Self { merges_vocab: read_vocab(pieces) }
    }

    /// Cuts the text into its words, each from its whitespace token on, and
    /// its punctuation marks.
    pub fn split_whitespace_punctuation<'a>(
        &self,
        input_string: &'a str,
        whitespace_token: char,
    ) -> (output: Vec<&'a str>)
        ensures
            slices_match(
                input_string.spec_bytes(),
                split_pieces(input_string@, whitespace_token),
                output@,
            ),
    {
        broadcast use group_string_axioms;

        let ghost chars = input_string@;
        let ghost ws = whitespace_token;
        let ghost bytes = input_string.spec_bytes();
        let total = input_string.as_bytes().len();
        let mut output: Vec<&'a str> = Vec::new();
        let mut start: usize = 0;
        let mut c_pos: usize = 0;
        proof {
            lemma_byte_pos_bounds(chars, 0);
        }
        for c in it: input_string.chars()
            invariant
                it.seq() == chars,
                chars == input_string@,
                ws == whitespace_token,
                bytes == encode_utf8(chars),
                total == bytes.len(),
                c_pos == byte_pos(chars, it.index() as int),
                start == byte_pos(chars, open_start(chars, ws, it.index() as int)),
                slices_match(bytes, closed_pieces(chars, ws, it.index() as int), output@),
        {
            let ghost k = it.index() as int;
            let ghost open = open_start(chars, ws, k);
            proof {
                lemma_closed_pieces(chars, ws, k);
                lemma_byte_pos_step(chars, k);
                lemma_byte_pos_bounds(chars, k + 1);
                lemma_byte_pos_bounds(chars, k);
                lemma_byte_pos_bounds(chars, open);
                lemma_byte_pos_is_boundary(chars, open);
                lemma_byte_pos_is_boundary(chars, k);
                lemma_byte_pos_is_boundary(chars, k + 1);
                if open < k {
                    lemma_byte_pos_increasing(chars, open, k);
                }
            }
            let width = c.len_utf8();
            if c == whitespace_token {
                if start < c_pos {
                    output.push(slice_between(input_string, start, c_pos));
                }
                start = c_pos;
            } else if c.is_ascii_punctuation() {
                if start < c_pos {
                    output.push(slice_between(input_string, start, c_pos));
                }
                output.push(slice_between(input_string, c_pos, c_pos + width));
                start = c_pos + width;
            }
            c_pos = c_pos + width;
        }
        proof {
            let n = chars.len() as int;
            let open = open_start(chars, ws, n);
            lemma_closed_pieces(chars, ws, n);
            lemma_byte_pos_bounds(chars, n);
            lemma_byte_pos_bounds(chars, open);
            lemma_byte_pos_is_boundary(chars, open);
            lemma_byte_pos_is_boundary(chars, n);
            if open < n {
                lemma_byte_pos_increasing(chars, open, n);
            }
        }
        if start < total {
            output.push(slice_between(input_string, start, total));
        }
        output
    }
}

impl BpeTokenizer for NaivePreSplitBpeTokenizer {
    closed spec fn vocab(&self) -> Map<Seq<char>, i64> {
        self.merges_vocab@
    }

    fn get_merges_vocab(&self) -> (vocab: &MergesVocab) {
        &self.merges_vocab
    }

    /// Cuts `input_text` into words and punctuation marks, and each of
    /// these by merging, again and again, its best adjacent pair.
    fn tokenize<'a>(&self, input_text: &'a str) -> (output: Vec<&'a str>)
        ensures
            slices_match(
                input_text.spec_bytes(),
                pre_split_tokenization(self.vocab(), input_text@),
                output@,
            ),
    {
        let whitespace_token = WHITESPACE_TOKEN;
        let ghost orig = input_text@;
        let ghost pre = pre_chars(orig, WHITESPACE_TOKEN);
        let ghost bytes = encode_utf8(pre);
        let ghost vocab = self.vocab();
        let ghost pieces = split_pieces(pre, WHITESPACE_TOKEN);
        let orig_len = input_text.as_bytes().len();
        let (text, byte_mapping) = pre_process_text(input_text, whitespace_token);
        let split_texts = self.split_whitespace_punctuation(text.as_str(), whitespace_token);
        proof {
            lemma_split_pieces(pre, WHITESPACE_TOKEN);
        }
        let mut all: Vec<Symbol> = Vec::new();
        let mut offset: usize = 0;
        let mut t: usize = 0;
        while t < split_texts.len()
            invariant
                t <= split_texts@.len(),
                bytes == encode_utf8(pre),
                bytes.len() <= usize::MAX,
                vocab == self.vocab(),
                well_formed(bytes, pieces),
                slices_match(bytes, pieces, split_texts@),
                all@ == pieces_symbols(vocab, bytes, pieces, t as int),
                offset == (if t > 0 {
                    pieces[t - 1].end_byte
                } else {
                    0
                }),
            decreases split_texts@.len() - t,
        {
            let split_text = split_texts[t];
            let ghost piece = pieces[t as int];
            let ghost part = bytes.subrange(piece.start_byte as int, piece.end_byte as int);
            proof {
                crate::bpe_base::lemma_symbol_in_range(pieces, bytes.len() as int, t as int);
                if t > 0 {
                    assert(pieces[t - 1].end_byte == pieces[t as int].start_byte);
                }
                assert(split_text.spec_bytes() == part);
                encode_utf8_decode_utf8(split_text@);
                lemma_piece_symbols(vocab, bytes, piece);
            }
            let symbols = merge_text(split_text, &self.merges_vocab);
            proof {
                let inner = symbols.symbols@;
                assert forall|i: int| 0 <= i < inner.len() implies (#[trigger] inner[i]).start_byte
                    + offset <= usize::MAX && inner[i].end_byte + offset <= usize::MAX by {
                    crate::bpe_base::lemma_symbol_in_range(inner, part.len() as int, i);
                }
            }
            append_shifted(&mut all, &symbols.symbols, offset);
            offset = offset + split_text.len();
            t += 1;
        }
        proof {
            lemma_pieces_symbols(vocab, bytes, pieces, pieces.len() as int);
            let syms = pieces_symbols(vocab, bytes, pieces, pieces.len() as int);
            if pieces.len() > 0 {
                assert(pieces.last() == pieces[pieces.len() - 1]);
            }
            assert(well_formed(bytes, syms));
            lemma_project_segmentation(orig, WHITESPACE_TOKEN, syms);
        }
        project_symbols(input_text, &byte_mapping, &all)
    }
}

} // verus!
