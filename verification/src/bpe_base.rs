//! Symbols, the vocabulary, and the mathematical model of merging.
use vstd::prelude::*;
use vstd::utf8::*;
use vstd::string::StringSliceAdditionalSpecFns;
use vstd::hash_map::StringHashMap;
use std::collections::HashMap;
use itertools::Itertools;
use crate::agenda::{key_le, Candidate};
use vstd::std_specs::hash::group_hash_axioms;
use crate::text::{
    lemma_offset_map_at, lemma_offset_map_monotone, lemma_pre_chars_len, offset_map, pre_chars,
    lemma_byte_pos_increasing, byte_pos, lemma_byte_pos_bounds, lemma_byte_pos_is_boundary,
    lemma_byte_pos_step, lemma_char_width_bounds, slice_between,
};

verus! {

/// The vocabulary: each piece with its score, the piece's place in the
/// model's list. A lower score merges first.
pub type MergesVocab = StringHashMap<i64>;

/// A half-open byte range `[start_byte, end_byte)` of a text. Symbols are
/// ordered by their start byte, then by their end byte.
#[derive(Debug, Copy, Clone, PartialEq, Eq, PartialOrd, Ord, Structural)]
pub struct Symbol {
    pub start_byte: usize,
    pub end_byte: usize,
}

/// A candidate merge of two adjacent symbols, with the score that the
/// vocabulary gives to the text that they span together.
#[derive(Debug, Copy, Clone, PartialEq, Eq, Structural)]
pub struct SymbolPair {
    pub left: Symbol,
    pub right: Symbol,
    pub score: i64,
}

impl Candidate for SymbolPair {
    open spec fn key(&self) -> (i64, int) {
        (self.score, self.left.start_byte as int)
    }

    /// By ascending score; among equal scores, by ascending start of the
    /// left symbol.
    fn goes_before(&self, other: &Self) -> (before: bool) {
        self.score < other.score || (self.score == other.score && self.left.start_byte
            <= other.left.start_byte)
    }
}

/// `Itertools::tuple_windows` with pairs: every item of the sequence
/// together with the item that follows it, in order. A sequence of fewer
/// than two items has no pair.
#[verifier::external_body]
pub(crate) fn adjacent_pairs(symbols: &Vec<Symbol>) -> (pairs: Vec<(Symbol, Symbol)>)
    ensures
        symbols@.len() == 0 ==> pairs@.len() == 0,
        symbols@.len() > 0 ==> pairs@.len() == symbols@.len() - 1,
        forall|i: int|
            0 <= i < pairs@.len() ==> #[trigger] pairs@[i] == (symbols@[i], symbols@[i + 1]),
{
    symbols.iter().tuple_windows::<(&Symbol, &Symbol)>().map(|pair| (*pair.0, *pair.1)).collect()
}

/// The views of the pieces, in order.
pub open spec fn piece_views(pieces: Seq<String>) -> Seq<Seq<char>> {
    Seq::new(pieces.len(), |i: int| pieces[i]@)
}

/// The vocabulary of a list of pieces: each piece scored by its index, a
/// later occurrence of a piece replacing an earlier one.
pub open spec fn vocab_of(pieces: Seq<Seq<char>>) -> Map<Seq<char>, i64>
    decreases pieces.len(),
{
    if pieces.len() == 0 {
        Map::empty()
    } else {
        vocab_of(pieces.drop_last()).insert(pieces.last(), (pieces.len() - 1) as i64)
    }
}

/// A piece is in the vocabulary exactly when it is in the list, and its
/// score is the index of its last occurrence.
pub proof fn lemma_vocab_of(pieces: Seq<Seq<char>>, piece: Seq<char>)
    requires
        pieces.len() <= i64::MAX,
    ensures
        vocab_of(pieces).contains_key(piece) <==> pieces.contains(piece),
        vocab_of(pieces).contains_key(piece) ==> {
            let score = vocab_of(pieces)[piece] as int;
            &&& 0 <= score < pieces.len()
            &&& pieces[score] == piece
            &&& forall|j: int| score < j < pieces.len() ==> pieces[j] != piece
        },
    decreases pieces.len(),
{
    if pieces.len() > 0 {
        let init = pieces.drop_last();
        lemma_vocab_of(init, piece);
        if pieces.last() == piece {
            assert(pieces[pieces.len() - 1] == piece);
        } else if init.contains(piece) {
            let i = choose|i: int| 0 <= i < init.len() && init[i] == piece;
            assert(pieces[i] == piece);
        }
        if pieces.contains(piece) && pieces.last() != piece {
            let i = choose|i: int| 0 <= i < pieces.len() && pieces[i] == piece;
            assert(init[i] == piece);
        }
        if vocab_of(pieces).contains_key(piece) {
            let score = vocab_of(pieces)[piece] as int;
            if pieces.last() != piece {
                assert(score == vocab_of(init)[piece]);
                assert(pieces[score] == init[score]);
                assert forall|j: int| score < j < pieces.len() implies pieces[j] != piece by {
                    if j < init.len() {
                        assert(init[j] == pieces[j]);
                    }
                }
            }
        }
    }
}

/// Builds the vocabulary from the model's list of pieces.
pub fn read_vocab(pieces: &Vec<String>) -> (vocab: MergesVocab)
    requires
        pieces.len() <= i64::MAX,
    ensures
        vocab@ == vocab_of(piece_views(pieces@)),
{
    let mut values: MergesVocab = StringHashMap::new();
    let mut idx: usize = 0;
    while idx < pieces.len()
        invariant
            idx <= pieces.len(),
            pieces.len() <= i64::MAX,
            values@ == vocab_of(piece_views(pieces@).take(idx as int)),
        decreases pieces.len() - idx,
    {
        let piece = pieces[idx].clone();
        values.insert(piece, idx as i64);
        proof {
            let views = piece_views(pieces@);
            assert(views.take(idx + 1).drop_last() =~= views.take(idx as int));
        }
        idx += 1;
    }
    proof {
        let views = piece_views(pieces@);
        assert(views.take(views.len() as int) =~= views);
    }
    values
}

/// The vocabulary's score of the text between two byte offsets, if that
/// text is a piece.
pub open spec fn merge_score(
    vocab: Map<Seq<char>, i64>,
    bytes: Seq<u8>,
    start: int,
    end: int,
) -> Option<i64> {
    let piece = decode_utf8(bytes.subrange(start, end));
    if vocab.contains_key(piece) {
        Some(vocab[piece])
    } else {
        None
    }
}

/// Looks up the text that two symbols span together, from the start of the
/// first to the end of the second.
pub fn get_merge_score(
    vocab: &MergesVocab,
    symbol_1: &Symbol,
    symbol_2: &Symbol,
    text: &str,
) -> (score: Option<i64>)
    requires
        symbol_1.start_byte <= symbol_2.end_byte <= text.spec_bytes().len(),
        is_char_boundary(text.spec_bytes(), symbol_1.start_byte as int),
        is_char_boundary(text.spec_bytes(), symbol_2.end_byte as int),
    ensures
        score == merge_score(
            vocab@,
            text.spec_bytes(),
            symbol_1.start_byte as int,
            symbol_2.end_byte as int,
        ),
{
    let piece = slice_between(text, symbol_1.start_byte, symbol_2.end_byte);
    match vocab.get(piece) {
        Some(score) => Some(*score),
        None => None,
    }
}

/// The symbols cover `[from, to)` in order, without gap or overlap, and none
/// is empty.
pub open spec fn is_partition_of(syms: Seq<Symbol>, from: int, to: int) -> bool {
    &&& syms.len() == 0 ==> from == to
    &&& syms.len() > 0 ==> syms[0].start_byte == from && syms.last().end_byte == to
    &&& forall|i: int| 0 <= i < syms.len() ==> (#[trigger] syms[i]).start_byte < syms[i].end_byte
    &&& forall|i: int|
        0 <= i < syms.len() - 1 ==> (#[trigger] syms[i]).end_byte == syms[i + 1].start_byte
}

/// The symbols cover `[0, len)` in order, without gap or overlap, and none
/// is empty.
pub open spec fn is_partition(syms: Seq<Symbol>, len: int) -> bool {
    is_partition_of(syms, 0, len)
}

/// Partitions of two ranges that meet make, one after the other, a
/// partition of the two ranges together.
pub proof fn lemma_partition_concat(a: Seq<Symbol>, b: Seq<Symbol>, from: int, mid: int, to: int)
    requires
        is_partition_of(a, from, mid),
        is_partition_of(b, mid, to),
    ensures
        is_partition_of(a + b, from, to),
{
    let all = a + b;
    assert forall|i: int| 0 <= i < all.len() implies (#[trigger] all[i]).start_byte
        < all[i].end_byte by {
        if i < a.len() {
            assert(all[i] == a[i]);
        } else {
            assert(all[i] == b[i - a.len()]);
        }
    }
    assert forall|i: int| 0 <= i < all.len() - 1 implies (#[trigger] all[i]).end_byte == all[i
        + 1].start_byte by {
        if i + 1 < a.len() {
            assert(all[i] == a[i]);
            assert(all[i + 1] == a[i + 1]);
        } else if i < a.len() {
            assert(all[i] == a[a.len() - 1]);
            assert(all[i + 1] == b[0]);
        } else {
            assert(all[i] == b[i - a.len()]);
            assert(all[i + 1] == b[i + 1 - a.len()]);
        }
    }
    if all.len() > 0 {
        if a.len() > 0 {
            assert(all[0] == a[0]);
        } else {
            assert(all[0] == b[0]);
        }
        if b.len() > 0 {
            assert(all.last() == b[b.len() - 1]);
        } else {
            assert(all.last() == a[a.len() - 1]);
        }
    }
}

/// Every symbol starts and ends at a code-point boundary of the text.
pub open spec fn is_aligned(bytes: Seq<u8>, syms: Seq<Symbol>) -> bool {
    forall|i: int|
        0 <= i < syms.len() ==> is_char_boundary(bytes, (#[trigger] syms[i]).start_byte as int)
            && is_char_boundary(bytes, syms[i].end_byte as int)
}

/// The symbols are a partition of a UTF-8 text at code-point boundaries.
pub open spec fn well_formed(bytes: Seq<u8>, syms: Seq<Symbol>) -> bool {
    &&& valid_utf8(bytes)
    &&& is_partition(syms, bytes.len() as int)
    &&& is_aligned(bytes, syms)
}

/// One symbol for each code point of the text.
pub open spec fn code_points(chars: Seq<char>) -> Seq<Symbol> {
    Seq::new(
        chars.len(),
        |i: int|
            Symbol {
                start_byte: byte_pos(chars, i) as usize,
                end_byte: byte_pos(chars, i + 1) as usize,
            },
    )
}

/// The code points of a text are a partition of it at code-point boundaries.
pub proof fn lemma_code_points_well_formed(chars: Seq<char>)
    requires
        encode_utf8(chars).len() <= usize::MAX,
    ensures
        well_formed(encode_utf8(chars), code_points(chars)),
{
    let bytes = encode_utf8(chars);
    let syms = code_points(chars);
    encode_utf8_valid_utf8(chars);
    lemma_byte_pos_bounds(chars, 0);
    assert forall|i: int| 0 <= i < syms.len() implies (#[trigger] syms[i]).start_byte
        < syms[i].end_byte && is_char_boundary(bytes, syms[i].start_byte as int)
        && is_char_boundary(bytes, syms[i].end_byte as int) && syms[i].start_byte == byte_pos(
        chars,
        i,
    ) && syms[i].end_byte == byte_pos(chars, i + 1) by {
        lemma_byte_pos_step(chars, i);
        lemma_char_width_bounds(chars[i]);
        lemma_byte_pos_bounds(chars, i);
        lemma_byte_pos_bounds(chars, i + 1);
        lemma_byte_pos_is_boundary(chars, i);
        lemma_byte_pos_is_boundary(chars, i + 1);
    }
    if syms.len() > 0 {
        lemma_byte_pos_bounds(chars, chars.len() as int);
        assert(syms.last() == syms[syms.len() - 1]);
    }
}

/// The score of merging the symbols `i` and `i + 1`.
pub open spec fn pair_score(
    vocab: Map<Seq<char>, i64>,
    bytes: Seq<u8>,
    syms: Seq<Symbol>,
    i: int,
) -> Option<i64> {
    merge_score(vocab, bytes, syms[i].start_byte as int, syms[i + 1].end_byte as int)
}

/// Among the first `n` adjacent pairs, the index of the one to merge: the
/// leftmost of those with the lowest score. `None` when the vocabulary has
/// none of them.
pub open spec fn best_merge_upto(
    vocab: Map<Seq<char>, i64>,
    bytes: Seq<u8>,
    syms: Seq<Symbol>,
    n: int,
) -> Option<int>
    decreases n,
{
    if n <= 0 {
        None
    } else {
        let before = best_merge_upto(vocab, bytes, syms, n - 1);
        match (pair_score(vocab, bytes, syms, n - 1), before) {
            (None, _) => before,
            (Some(_), None) => Some(n - 1),
            (Some(score), Some(p)) => if score < pair_score(vocab, bytes, syms, p).unwrap() {
                Some(n - 1)
            } else {
                before
            },
        }
    }
}

/// The index of the pair to merge next, among all adjacent pairs.
pub open spec fn best_merge(vocab: Map<Seq<char>, i64>, bytes: Seq<u8>, syms: Seq<Symbol>) -> Option<
    int,
> {
    best_merge_upto(vocab, bytes, syms, syms.len() - 1)
}

/// `p` is the leftmost pair with the lowest score among the first `n` pairs.
pub open spec fn is_least_pair(
    vocab: Map<Seq<char>, i64>,
    bytes: Seq<u8>,
    syms: Seq<Symbol>,
    n: int,
    p: int,
) -> bool {
    &&& 0 <= p < n
    &&& pair_score(vocab, bytes, syms, p) is Some
    &&& forall|j: int|
        0 <= j < n ==> match #[trigger] pair_score(vocab, bytes, syms, j) {
            Some(score) => {
                let best = pair_score(vocab, bytes, syms, p).unwrap();
                best <= score && (j < p ==> best < score)
            },
            None => true,
        }
}

/// The pair to merge is the leftmost pair with the lowest score; there is
/// none exactly when no pair is in the vocabulary.
pub proof fn lemma_best_merge_upto(
    vocab: Map<Seq<char>, i64>,
    bytes: Seq<u8>,
    syms: Seq<Symbol>,
    n: int,
)
    ensures
        match best_merge_upto(vocab, bytes, syms, n) {
            Some(p) => is_least_pair(vocab, bytes, syms, n, p),
            None => forall|j: int| 0 <= j < n ==> #[trigger] pair_score(vocab, bytes, syms, j) is None,
        },
    decreases n,
{
    if n > 0 {
        lemma_best_merge_upto(vocab, bytes, syms, n - 1);
    }
}

/// The leftmost pair with the lowest score is the pair to merge.
pub proof fn lemma_least_pair_is_best(
    vocab: Map<Seq<char>, i64>,
    bytes: Seq<u8>,
    syms: Seq<Symbol>,
    n: int,
    p: int,
)
    requires
        is_least_pair(vocab, bytes, syms, n, p),
    ensures
        best_merge_upto(vocab, bytes, syms, n) == Some(p),
{
    lemma_best_merge_upto(vocab, bytes, syms, n);
    let q = best_merge_upto(vocab, bytes, syms, n);
    assert(pair_score(vocab, bytes, syms, p) is Some);
    assert(q is Some);
    let q = q.unwrap();
    assert(pair_score(vocab, bytes, syms, q) is Some);
}

/// The symbols after merging the symbols `i` and `i + 1` into one.
pub open spec fn merge_at(syms: Seq<Symbol>, i: int) -> Seq<Symbol> {
    syms.take(i).push(
        Symbol { start_byte: syms[i].start_byte, end_byte: syms[i + 1].end_byte },
    ) + syms.skip(i + 2)
}

/// The symbols of a merge, one by one.
pub proof fn lemma_merge_at_index(syms: Seq<Symbol>, i: int)
    requires
        0 <= i < syms.len() - 1,
    ensures
        merge_at(syms, i).len() == syms.len() - 1,
        forall|j: int| 0 <= j < i ==> #[trigger] merge_at(syms, i)[j] == syms[j],
        merge_at(syms, i)[i] == (Symbol {
            start_byte: syms[i].start_byte,
            end_byte: syms[i + 1].end_byte,
        }),
        forall|j: int| i < j < syms.len() - 1 ==> #[trigger] merge_at(syms, i)[j] == syms[j + 1],
{
}

/// A merge takes one symbol away and keeps a partition a partition.
pub proof fn lemma_merge_at(bytes: Seq<u8>, syms: Seq<Symbol>, i: int)
    requires
        well_formed(bytes, syms),
        0 <= i < syms.len() - 1,
    ensures
        merge_at(syms, i).len() == syms.len() - 1,
        well_formed(bytes, merge_at(syms, i)),
{
    let merged = merge_at(syms, i);
    lemma_merge_at_index(syms, i);
    assert(syms[i].start_byte < syms[i].end_byte);
    assert(syms[i + 1].start_byte < syms[i + 1].end_byte);
    assert(syms[i].end_byte == syms[i + 1].start_byte);
    assert(is_char_boundary(bytes, syms[i].start_byte as int));
    assert(is_char_boundary(bytes, syms[i + 1].end_byte as int));
    assert forall|j: int| 0 <= j < merged.len() implies (#[trigger] merged[j]).start_byte
        < merged[j].end_byte && is_char_boundary(bytes, merged[j].start_byte as int)
        && is_char_boundary(bytes, merged[j].end_byte as int) by {
        if j < i {
            assert(merged[j] == syms[j]);
        } else if j > i {
            assert(merged[j] == syms[j + 1]);
        }
    }
    assert forall|j: int| 0 <= j < merged.len() - 1 implies (#[trigger] merged[j]).end_byte
        == merged[j + 1].start_byte by {
        if j < i {
            assert(merged[j] == syms[j]);
            assert(syms[j].end_byte == syms[j + 1].start_byte);
            if j + 1 < i {
                assert(merged[j + 1] == syms[j + 1]);
            }
        } else if j == i {
            assert(merged[j + 1] == syms[j + 2]);
            assert(syms[i + 1].end_byte == syms[i + 2].start_byte);
        } else {
            assert(merged[j] == syms[j + 1]);
            assert(merged[j + 1] == syms[j + 2]);
            assert(syms[j + 1].end_byte == syms[j + 2].start_byte);
        }
    }
    if i > 0 {
        assert(merged[0] == syms[0]);
    }
    if i < syms.len() - 2 {
        assert(merged[merged.len() - 1] == syms[syms.len() - 1]);
    }
}

/// In a partition a later symbol starts where an earlier one ends, or
/// further on.
pub proof fn lemma_starts_increasing(syms: Seq<Symbol>, len: int, i: int, j: int)
    requires
        is_partition(syms, len),
        0 <= i < j < syms.len(),
    ensures
        syms[i].start_byte < syms[i].end_byte <= syms[j].start_byte < syms[j].end_byte,
    decreases j - i,
{
    if i + 1 < j {
        lemma_starts_increasing(syms, len, i, j - 1);
        assert(syms[j - 1].end_byte == syms[j].start_byte);
    } else {
        assert(syms[i].end_byte == syms[i + 1].start_byte);
    }
}

/// Every symbol of a partition ends inside the text.
pub proof fn lemma_symbol_in_range(syms: Seq<Symbol>, len: int, i: int)
    requires
        is_partition(syms, len),
        0 <= i < syms.len(),
    ensures
        0 <= syms[i].start_byte < syms[i].end_byte <= len,
{
    if i < syms.len() - 1 {
        lemma_starts_increasing(syms, len, i, syms.len() - 1);
    }
}

/// A pair that the vocabulary holds and that goes before every other such
/// pair, by score and then by position, is the pair to merge.
pub proof fn lemma_first_pair_is_best(
    vocab: Map<Seq<char>, i64>,
    bytes: Seq<u8>,
    syms: Seq<Symbol>,
    i: int,
)
    requires
        well_formed(bytes, syms),
        0 <= i < syms.len() - 1,
        pair_score(vocab, bytes, syms, i) is Some,
        forall|j: int|
            0 <= j < syms.len() - 1 ==> match #[trigger] pair_score(vocab, bytes, syms, j) {
                Some(score) => key_le(
                    (pair_score(vocab, bytes, syms, i).unwrap(), syms[i].start_byte as int),
                    (score, syms[j].start_byte as int),
                ),
                None => true,
            },
    ensures
        best_merge(vocab, bytes, syms) == Some(i),
{
    let n = syms.len() - 1;
    assert forall|j: int| 0 <= j < n implies match #[trigger] pair_score(vocab, bytes, syms, j) {
        Some(score) => {
            let best = pair_score(vocab, bytes, syms, i).unwrap();
            best <= score && (j < i ==> best < score)
        },
        None => true,
    } by {
        if j < i {
            lemma_starts_increasing(syms, bytes.len() as int, j, i);
        }
    }
    lemma_least_pair_is_best(vocab, bytes, syms, n, i);
}

/// Where the vocabulary holds no adjacent pair, nothing is merged.
pub proof fn lemma_no_pair_no_merge(vocab: Map<Seq<char>, i64>, bytes: Seq<u8>, syms: Seq<Symbol>)
    requires
        forall|j: int|
            0 <= j < syms.len() - 1 ==> #[trigger] pair_score(vocab, bytes, syms, j) is None,
    ensures
        best_merge(vocab, bytes, syms) is None,
        merge_all(vocab, bytes, syms) == syms,
{
    lemma_best_merge_upto(vocab, bytes, syms, syms.len() - 1);
}

/// The symbols start in strictly ascending order.
pub open spec fn starts_ascend(syms: Seq<Symbol>) -> bool {
    forall|i: int, j: int|
        0 <= i < j < syms.len() ==> (#[trigger] syms[i]).start_byte < (#[trigger] syms[j]).start_byte
}

/// Two sequences of symbols in ascending order that hold the same symbols
/// are the same sequence.
pub proof fn lemma_same_symbols(a: Seq<Symbol>, b: Seq<Symbol>)
    requires
        starts_ascend(a),
        starts_ascend(b),
        forall|i: int| 0 <= i < a.len() ==> b.contains(#[trigger] a[i]),
        forall|j: int| 0 <= j < b.len() ==> a.contains(#[trigger] b[j]),
    ensures
        a == b,
    decreases a.len(),
{
    if a.len() == 0 {
        if b.len() > 0 {
            assert(a.contains(b[0]));
        }
        assert(a =~= b);
    } else {
        assert(b.contains(a[0]));
        let k = choose|k: int| 0 <= k < b.len() && b[k] == a[0];
        assert(a.contains(b[0]));
        let l = choose|l: int| 0 <= l < a.len() && a[l] == b[0];
        assert(k == 0 && l == 0);
        let a1 = a.drop_first();
        let b1 = b.drop_first();
        assert forall|i: int| 0 <= i < a1.len() implies b1.contains(#[trigger] a1[i]) by {
            assert(b.contains(a[i + 1]));
            let m = choose|m: int| 0 <= m < b.len() && b[m] == a[i + 1];
            assert(m != 0);
            assert(b1[m - 1] == a1[i]);
        }
        assert forall|j: int| 0 <= j < b1.len() implies a1.contains(#[trigger] b1[j]) by {
            assert(a.contains(b[j + 1]));
            let m = choose|m: int| 0 <= m < a.len() && a[m] == b[j + 1];
            assert(m != 0);
            assert(a1[m - 1] == b1[j]);
        }
        assert(starts_ascend(a1)) by {
            assert forall|i: int, j: int| 0 <= i < j < a1.len() implies (#[trigger] a1[i]).start_byte
                < (#[trigger] a1[j]).start_byte by {
                assert(a[i + 1].start_byte < a[j + 1].start_byte);
            }
        }
        assert(starts_ascend(b1)) by {
            assert forall|i: int, j: int| 0 <= i < j < b1.len() implies (#[trigger] b1[i]).start_byte
                < (#[trigger] b1[j]).start_byte by {
                assert(b[i + 1].start_byte < b[j + 1].start_byte);
            }
        }
        lemma_same_symbols(a1, b1);
        assert(a =~= seq![a[0]] + a1);
        assert(b =~= seq![b[0]] + b1);
    }
}

/// The pair that is merged has the lowest score of all adjacent pairs that
/// the vocabulary holds, and its merge takes exactly one symbol away.
pub proof fn lemma_merge_is_lowest(
    vocab: Map<Seq<char>, i64>,
    bytes: Seq<u8>,
    syms: Seq<Symbol>,
    j: int,
)
    requires
        0 <= j < syms.len() - 1,
        pair_score(vocab, bytes, syms, j) is Some,
    ensures
        best_merge(vocab, bytes, syms) is Some,
        0 <= best_merge(vocab, bytes, syms).unwrap() < syms.len() - 1,
        pair_score(vocab, bytes, syms, best_merge(vocab, bytes, syms).unwrap()) is Some,
        pair_score(vocab, bytes, syms, best_merge(vocab, bytes, syms).unwrap()).unwrap()
            <= pair_score(vocab, bytes, syms, j).unwrap(),
        merge_at(syms, best_merge(vocab, bytes, syms).unwrap()).len() == syms.len() - 1,
{
    lemma_best_merge_upto(vocab, bytes, syms, syms.len() - 1);
    lemma_merge_at_index(syms, best_merge(vocab, bytes, syms).unwrap());
}

/// The symbols that are left when the best pair has been merged again and
/// again, until the vocabulary has no adjacent pair.
pub open spec fn merge_all(vocab: Map<Seq<char>, i64>, bytes: Seq<u8>, syms: Seq<Symbol>) -> Seq<
    Symbol,
>
    decreases syms.len(),
{
    match best_merge(vocab, bytes, syms) {
        Some(i) => if 0 <= i < syms.len() - 1 {
            merge_all(vocab, bytes, merge_at(syms, i))
        } else {
            syms
        },
        None => syms,
    }
}

/// Merging to the end keeps a partition a partition, and leaves no adjacent
/// pair that the vocabulary holds.
pub proof fn lemma_merge_all(vocab: Map<Seq<char>, i64>, bytes: Seq<u8>, syms: Seq<Symbol>)
    requires
        well_formed(bytes, syms),
    ensures
        well_formed(bytes, merge_all(vocab, bytes, syms)),
        merge_all(vocab, bytes, syms).len() <= syms.len(),
        best_merge(vocab, bytes, merge_all(vocab, bytes, syms)) is None,
    decreases syms.len(),
{
    lemma_best_merge_upto(vocab, bytes, syms, syms.len() - 1);
    match best_merge(vocab, bytes, syms) {
        Some(i) => {
            lemma_merge_at(bytes, syms, i);
            lemma_merge_all(vocab, bytes, merge_at(syms, i));
        },
        None => {},
    }
}

/// The whitespace token: U+2581, the visible mark of a word's start.
pub const WHITESPACE_TOKEN: char = '\u{2581}';

/// The spans cover `[0, bytes.len())` in order, without gap or overlap, and
/// each starts and ends at a code-point boundary. A span may be empty.
pub open spec fn is_segmentation(bytes: Seq<u8>, spans: Seq<Symbol>) -> bool {
    &&& valid_utf8(bytes)
    &&& spans.len() > 0
    &&& spans[0].start_byte == 0
    &&& spans.last().end_byte == bytes.len()
    &&& forall|i: int| 0 <= i < spans.len() ==> (#[trigger] spans[i]).start_byte <= spans[i].end_byte
    &&& forall|i: int|
        0 <= i < spans.len() - 1 ==> (#[trigger] spans[i]).end_byte == spans[i + 1].start_byte
    &&& is_aligned(bytes, spans)
}

/// Each slice of the output holds the bytes of the span with the same index.
pub open spec fn slices_match(bytes: Seq<u8>, spans: Seq<Symbol>, output: Seq<&str>) -> bool {
    &&& output.len() == spans.len()
    &&& forall|i: int|
        0 <= i < spans.len() ==> (#[trigger] output[i]).spec_bytes() == bytes.subrange(
            spans[i].start_byte as int,
            spans[i].end_byte as int,
        )
}

/// The output is the text cut at code-point boundaries: its slices are the
/// spans of a segmentation of the text, in order.
pub open spec fn is_tokenization(bytes: Seq<u8>, output: Seq<&str>) -> bool {
    exists|spans: Seq<Symbol>| is_segmentation(bytes, spans) && slices_match(bytes, spans, output)
}

/// The bytes of the first `n` slices, one slice after the other.
pub open spec fn joined(output: Seq<&str>, n: int) -> Seq<u8>
    decreases n,
{
    if n <= 0 {
        Seq::empty()
    } else {
        joined(output, n - 1) + output[n - 1].spec_bytes()
    }
}

/// The first `n` slices of a segmentation, joined, are the text up to the
/// end of the last of them.
pub proof fn lemma_joined_prefix(bytes: Seq<u8>, spans: Seq<Symbol>, output: Seq<&str>, n: int)
    requires
        is_segmentation(bytes, spans),
        slices_match(bytes, spans, output),
        1 <= n <= spans.len(),
    ensures
        joined(output, n) == bytes.subrange(0, spans[n - 1].end_byte as int),
    decreases n,
{
    lemma_span_in_range(bytes, spans, n - 1);
    if n == 1 {
        assert(joined(output, 0) =~= Seq::<u8>::empty());
        assert(joined(output, 1) =~= bytes.subrange(0, spans[0].end_byte as int));
    } else {
        lemma_joined_prefix(bytes, spans, output, n - 1);
        lemma_span_in_range(bytes, spans, n - 2);
        assert(spans[n - 2].end_byte == spans[n - 1].start_byte);
        assert(joined(output, n) =~= bytes.subrange(0, spans[n - 1].end_byte as int));
    }
}

/// The slices of a tokenization, joined in order, are the text, byte for
/// byte.
pub proof fn lemma_tokenization_covers(bytes: Seq<u8>, output: Seq<&str>)
    requires
        is_tokenization(bytes, output),
    ensures
        joined(output, output.len() as int) == bytes,
{
    let spans = choose|spans: Seq<Symbol>|
        is_segmentation(bytes, spans) && slices_match(bytes, spans, output);
    lemma_joined_prefix(bytes, spans, output, spans.len() as int);
    assert(spans.last() == spans[spans.len() - 1]);
    assert(bytes.subrange(0, bytes.len() as int) =~= bytes);
}

/// The spans of a segmentation come in the order of the text: a later span
/// starts where an earlier one ends, or further on; neighbours meet at one
/// byte offset; and every span lies between code-point boundaries of the
/// text.
pub proof fn lemma_segmentation_in_order(bytes: Seq<u8>, spans: Seq<Symbol>, i: int, j: int)
    requires
        is_segmentation(bytes, spans),
        0 <= i < j < spans.len(),
    ensures
        spans[i].start_byte <= spans[i].end_byte <= spans[j].start_byte <= spans[j].end_byte,
        spans[i].end_byte == spans[i + 1].start_byte,
        spans[j].end_byte <= bytes.len(),
        is_char_boundary(bytes, spans[i].start_byte as int),
        is_char_boundary(bytes, spans[i].end_byte as int),
    decreases j - i,
{
    lemma_span_in_range(bytes, spans, j);
    if i + 1 < j {
        lemma_segmentation_in_order(bytes, spans, i, j - 1);
        assert(spans[j - 1].end_byte == spans[j].start_byte);
    }
}

/// Two outputs with the same spans of the same text are the same slices.
pub proof fn lemma_same_spans_same_slices(
    bytes: Seq<u8>,
    spans: Seq<Symbol>,
    first: Seq<&str>,
    second: Seq<&str>,
)
    requires
        slices_match(bytes, spans, first),
        slices_match(bytes, spans, second),
    ensures
        first.len() == second.len(),
        forall|i: int| 0 <= i < first.len() ==> (#[trigger] first[i])@ == second[i]@,
{
    assert forall|i: int| 0 <= i < first.len() implies (#[trigger] first[i])@ == second[i]@ by {
        assert(first[i].spec_bytes() == second[i].spec_bytes());
        encode_utf8_decode_utf8(first[i]@);
        encode_utf8_decode_utf8(second[i]@);
    }
}

/// The symbols with both ends taken through the byte-offset map.
pub open spec fn project(offsets: Map<usize, usize>, syms: Seq<Symbol>) -> Seq<Symbol> {
    Seq::new(
        syms.len(),
        |i: int|
            Symbol {
                start_byte: offsets[syms[i].start_byte],
                end_byte: offsets[syms[i].end_byte],
            },
    )
}

/// Both ends of every symbol are keys of the map.
pub open spec fn has_offsets(offsets: Map<usize, usize>, syms: Seq<Symbol>) -> bool {
    forall|i: int|
        0 <= i < syms.len() ==> offsets.contains_key((#[trigger] syms[i]).start_byte)
            && offsets.contains_key(syms[i].end_byte)
}

/// True when the preprocessed text of `orig` fits into memory.
pub open spec fn fits(orig: Seq<char>) -> bool {
    encode_utf8(pre_chars(orig, WHITESPACE_TOKEN)).len() <= isize::MAX
}

/// Tells whether a text is short enough for its preprocessed text to fit
/// into memory whatever it holds: shorter than a quarter of the longest
/// text there can be.
pub fn text_fits(input_text: &str) -> (short: bool)
    ensures
        short == (input_text.spec_bytes().len() < isize::MAX / 4),
        short ==> fits(input_text@),
{
    proof {
        crate::text::lemma_pre_chars_bound(input_text@, WHITESPACE_TOKEN);
    }
    input_text.as_bytes().len() < (isize::MAX as usize) / 4
}

/// The symbols of the preprocessed text of `orig` after all merges.
pub open spec fn merged_symbols(vocab: Map<Seq<char>, i64>, orig: Seq<char>) -> Seq<Symbol> {
    let pre = pre_chars(orig, WHITESPACE_TOKEN);
    merge_all(vocab, encode_utf8(pre), code_points(pre))
}

/// The tokenization of `orig`: the byte ranges of `orig` that the merged
/// symbols of its preprocessed text stand for.
pub open spec fn tokenization(vocab: Map<Seq<char>, i64>, orig: Seq<char>) -> Seq<Symbol> {
    project(offset_map(orig, WHITESPACE_TOKEN), merged_symbols(vocab, orig))
}

/// A partition of the preprocessed text, taken through the byte-offset map,
/// is a segmentation of the input text.
pub proof fn lemma_project_segmentation(orig: Seq<char>, ws: char, syms: Seq<Symbol>)
    requires
        well_formed(encode_utf8(pre_chars(orig, ws)), syms),
        encode_utf8(orig).len() <= usize::MAX,
    ensures
        has_offsets(offset_map(orig, ws), syms),
        is_segmentation(encode_utf8(orig), project(offset_map(orig, ws), syms)),
{
    let pre = pre_chars(orig, ws);
    let bytes = encode_utf8(pre);
    let offsets = offset_map(orig, ws);
    let spans = project(offsets, syms);
    encode_utf8_valid_utf8(orig);
    lemma_pre_chars_len(orig, ws);
    lemma_byte_pos_increasing(pre, 0, pre.len() as int);
    lemma_byte_pos_bounds(pre, 0);
    assert(syms.len() > 0);
    assert forall|i: int| 0 <= i < syms.len() implies offsets.contains_key(
        (#[trigger] syms[i]).start_byte,
    ) && offsets.contains_key(syms[i].end_byte) by {
        lemma_offset_map_at(orig, ws, syms[i].start_byte);
        lemma_offset_map_at(orig, ws, syms[i].end_byte);
    }
    assert forall|i: int| 0 <= i < spans.len() implies (#[trigger] spans[i]).start_byte
        <= spans[i].end_byte && is_char_boundary(encode_utf8(orig), spans[i].start_byte as int)
        && is_char_boundary(encode_utf8(orig), spans[i].end_byte as int) by {
        assert(syms[i].start_byte < syms[i].end_byte);
        lemma_offset_map_at(orig, ws, syms[i].start_byte);
        lemma_offset_map_at(orig, ws, syms[i].end_byte);
        lemma_offset_map_monotone(orig, ws, syms[i].start_byte, syms[i].end_byte);
    }
    assert forall|i: int| 0 <= i < spans.len() - 1 implies (#[trigger] spans[i]).end_byte
        == spans[i + 1].start_byte by {
        assert(syms[i].end_byte == syms[i + 1].start_byte);
    }
    lemma_offset_map_at(orig, ws, syms[0].start_byte);
    lemma_offset_map_at(orig, ws, syms.last().end_byte);
}

/// The tokenization of a text is a segmentation of it.
pub proof fn lemma_tokenization_is_segmentation(vocab: Map<Seq<char>, i64>, orig: Seq<char>)
    requires
        fits(orig),
        encode_utf8(orig).len() <= usize::MAX,
    ensures
        is_segmentation(encode_utf8(orig), tokenization(vocab, orig)),
{
    let pre = pre_chars(orig, WHITESPACE_TOKEN);
    lemma_code_points_well_formed(pre);
    lemma_merge_all(vocab, encode_utf8(pre), code_points(pre));
    lemma_project_segmentation(orig, WHITESPACE_TOKEN, merged_symbols(vocab, orig));
}

/// Cuts the slices of `input_text` that the symbols stand for: each symbol's
/// two ends are looked up in `byte_mapping`, and the text between the two
/// offsets found is one slice of the output.
pub fn project_symbols<'a>(
    input_text: &'a str,
    byte_mapping: &HashMap<usize, usize>,
    symbols: &Vec<Symbol>,
) -> (output: Vec<&'a str>)
    requires
        has_offsets(byte_mapping@, symbols@),
        is_segmentation(input_text.spec_bytes(), project(byte_mapping@, symbols@)),
    ensures
        slices_match(input_text.spec_bytes(), project(byte_mapping@, symbols@), output@),
{
    broadcast use group_hash_axioms;

    let ghost spans = project(byte_mapping@, symbols@);
    let ghost bytes = input_text.spec_bytes();
    let mut output: Vec<&'a str> = Vec::new();
    let mut i: usize = 0;
    while i < symbols.len()
        invariant
            i <= symbols.len(),
            spans == project(byte_mapping@, symbols@),
            bytes == input_text.spec_bytes(),
            has_offsets(byte_mapping@, symbols@),
            is_segmentation(bytes, spans),
            output@.len() == i,
            forall|j: int|
                0 <= j < i ==> (#[trigger] output@[j]).spec_bytes() == bytes.subrange(
                    spans[j].start_byte as int,
                    spans[j].end_byte as int,
                ),
        decreases symbols.len() - i,
    {
        let symbol = symbols[i];
        assert(byte_mapping@.contains_key(symbols@[i as int].start_byte));
        assert(spans[i as int].start_byte <= spans[i as int].end_byte);
        proof {
            lemma_span_in_range(bytes, spans, i as int);
        }
        let start = *byte_mapping.get(&symbol.start_byte).unwrap();
        let end = *byte_mapping.get(&symbol.end_byte).unwrap();
        let slice = slice_between(input_text, start, end);
        output.push(slice);
        i += 1;
    }
    output
}

/// Every span of a segmentation ends inside the text.
pub proof fn lemma_span_in_range(bytes: Seq<u8>, spans: Seq<Symbol>, i: int)
    requires
        is_segmentation(bytes, spans),
        0 <= i < spans.len(),
    ensures
        spans[i].start_byte <= spans[i].end_byte <= bytes.len(),
        is_char_boundary(bytes, spans[i].start_byte as int),
        is_char_boundary(bytes, spans[i].end_byte as int),
{
    crate::text::lemma_boundary_in_range(bytes, spans[i].end_byte as int);
}

/// A byte-pair-encoding tokenizer: a vocabulary and a way to cut a text
/// with it.
pub trait BpeTokenizer {
    /// The vocabulary as a map from a piece to its score.
    spec fn vocab(&self) -> Map<Seq<char>, i64>;

    /// The vocabulary that the tokenizer merges by.
    fn get_merges_vocab(&self) -> (vocab: &MergesVocab)
        ensures
            vocab@ == self.vocab(),
    ;

    /// Cuts `input_text` into slices that, one after the other, make up the
    /// whole text.
    fn tokenize<'a>(&self, input_text: &'a str) -> (output: Vec<&'a str>)
        requires
            fits(input_text@),
        ensures
            is_tokenization(input_text.spec_bytes(), output@),
    ;
}

} // verus!
