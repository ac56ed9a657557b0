//! The ordered-set engine: symbols in a tree keyed by their start byte, and
//! an agenda of candidate merges.
use vstd::prelude::*;
use vstd::utf8::*;
use vstd::string::StringSliceAdditionalSpecFns;
use vstd::string::group_string_axioms;
use std::collections::BTreeMap;
use vstd::multiset::Multiset;
use crate::agenda::{key_le, lemma_insert_contains, lemma_remove_contains, Agenda, Candidate};
use crate::bpe_base::{
    adjacent_pairs, best_merge, code_points, get_merge_score, is_partition,
    lemma_code_points_well_formed, lemma_first_pair_is_best, lemma_merge_at,
    lemma_merge_at_index, lemma_no_pair_no_merge, lemma_project_segmentation, lemma_same_symbols,
    lemma_starts_increasing, lemma_symbol_in_range, merge_all, merge_at, merge_score,
    merged_symbols, pair_score, piece_views, project_symbols, read_vocab, slices_match,
    starts_ascend, tokenization, vocab_of, well_formed, BpeTokenizer, MergesVocab, Symbol,
    SymbolPair, WHITESPACE_TOKEN,
};
use crate::text::{
    byte_pos, lemma_byte_pos_bounds, lemma_byte_pos_increasing, lemma_byte_pos_step, pre_chars,
    pre_process_text,
};
use crate::model::{pieces_of_model, read_model, ModelError};

verus! {

/// The symbols of a text in an ordered map from each symbol's start byte to
/// its end byte.
pub struct SymbolBTree {
    pub symbols: BTreeMap<usize, usize>,
}

/// The map holds the symbol: its start byte is a key, and its end byte is
/// the value there.
pub open spec fn holds(map: Map<usize, usize>, symbol: Symbol) -> bool {
    map.contains_key(symbol.start_byte) && map[symbol.start_byte] == symbol.end_byte
}

/// The map without the symbol, if it holds it; else the map as it is.
pub open spec fn without(map: Map<usize, usize>, symbol: Symbol) -> Map<usize, usize> {
    if holds(map, symbol) {
        map.remove(symbol.start_byte)
    } else {
        map
    }
}

/// The map holds the symbols of the sequence, and no others.
pub open spec fn represents(map: Map<usize, usize>, syms: Seq<Symbol>) -> bool {
    &&& forall|i: int| 0 <= i < syms.len() ==> holds(map, #[trigger] syms[i])
    &&& forall|key: usize| #[trigger]
        map.contains_key(key) ==> exists|i: int|
            0 <= i < syms.len() && (#[trigger] syms[i]).start_byte == key
}

/// Puts the entry into the map.
fn map_insert(map: &mut BTreeMap<usize, usize>, key: usize, value: usize)
    ensures
        final(map)@ == old(map)@.insert(key, value),
{
    broadcast use {vstd::laws_cmp::group_laws_cmp, vstd::std_specs::btree::group_btree_axioms};

    map.insert(key, value);
}

/// The value that the map holds for the key, if any.
fn map_get(map: &BTreeMap<usize, usize>, key: usize) -> (value: Option<usize>)
    ensures
        value == (if map@.contains_key(key) {
            Some(map@[key])
        } else {
            None
        }),
{
    broadcast use {vstd::laws_cmp::group_laws_cmp, vstd::std_specs::btree::group_btree_axioms};

    match map.get(&key) {
        Some(value) => Some(*value),
        None => None,
    }
}

/// Takes the key's entry out of the map.
fn map_remove(map: &mut BTreeMap<usize, usize>, key: usize)
    ensures
        final(map)@ == old(map)@.remove(key),
{
    broadcast use {vstd::laws_cmp::group_laws_cmp, vstd::std_specs::btree::group_btree_axioms};

    map.remove(&key);
}

/// `BTreeMap::range` from `key` on, and the first entry of it: the entry
/// with the least key that is not below `key`, if there is one.
#[verifier::external_body]
fn first_entry_from(map: &BTreeMap<usize, usize>, key: usize) -> (entry: Option<(usize, usize)>)
    ensures
        match entry {
            Some((k, v)) => map@.contains_key(k) && map@[k] == v && key <= k && forall|
                other: usize,
            | #[trigger] map@.contains_key(other) && key <= other ==> k <= other,
            None => forall|other: usize| #[trigger] map@.contains_key(other) ==> other < key,
        },
{
    map.range(key..).next().map(|entry| (*entry.0, *entry.1))
}

/// `BTreeMap::range` up to `key`, and the last entry of it: the entry with
/// the greatest key below `key`, if there is one.
#[verifier::external_body]
fn last_entry_before(map: &BTreeMap<usize, usize>, key: usize) -> (entry: Option<(usize, usize)>)
    ensures
        match entry {
            Some((k, v)) => map@.contains_key(k) && map@[k] == v && k < key && forall|
                other: usize,
            | #[trigger] map@.contains_key(other) && other < key ==> other <= k,
            None => forall|other: usize| #[trigger] map@.contains_key(other) ==> key <= other,
        },
{
    map.range(..key).next_back().map(|entry| (*entry.0, *entry.1))
}

impl SymbolBTree {
    /// One symbol for each code point of the text.
    pub fn from_text(input_text: &str) -> (tree: Self)
        ensures
            represents(tree.symbols@, code_points(input_text@)),
    {
        broadcast use group_string_axioms;

        let ghost chars = input_text@;
        let total = input_text.as_bytes().len();
        let mut symbols: BTreeMap<usize, usize> = BTreeMap::new();
        let mut character_start: usize = 0;
        proof {
            lemma_byte_pos_bounds(chars, 0);
        }
        for character in it: input_text.chars()
            invariant
                it.seq() == chars,
                total == encode_utf8(chars).len(),
                character_start == byte_pos(chars, it.index() as int),
                represents(symbols@, code_points(chars).take(it.index() as int)),
        {
            let ghost i = it.index() as int;
            let ghost before = symbols@;
            proof {
                lemma_byte_pos_step(chars, i);
                lemma_byte_pos_bounds(chars, i + 1);
            }
            let character_end = character_start + character.len_utf8();
            map_insert(&mut symbols, character_start, character_end);
            proof {
                let syms = code_points(chars).take(i);
                let more = code_points(chars).take(i + 1);
                assert forall|j: int| 0 <= j < more.len() implies holds(
                    symbols@,
                    #[trigger] more[j],
                ) by {
                    if j < i {
                        assert(holds(before, syms[j]));
                        lemma_byte_pos_increasing(chars, j, i);
                        lemma_byte_pos_bounds(chars, j);
                    }
                }
                assert forall|key: usize| #[trigger] symbols@.contains_key(key) implies exists|
                    j: int,
                | 0 <= j < more.len() && (#[trigger] more[j]).start_byte == key by {
                    if key == character_start {
                        assert(more[i].start_byte == key);
                    } else {
                        assert(before.contains_key(key));
                        let j = choose|j: int|
                            0 <= j < syms.len() && (#[trigger] syms[j]).start_byte == key;
                        assert(more[j].start_byte == key);
                    }
                }
            }
            character_start = character_end;
        }
        assert(code_points(chars).take(chars.len() as int) =~= code_points(chars));
        Self { symbols }
    }

    /// Takes the two symbols out, where the tree holds them, and puts in the
    /// symbol that spans from the start of the first to the end of the
    /// second, which is returned.
    pub fn merge_symbols(&mut self, symbol_1: &Symbol, symbol_2: &Symbol) -> (new_symbol: Symbol)
        ensures
            new_symbol.start_byte == symbol_1.start_byte,
            new_symbol.end_byte == symbol_2.end_byte,
            final(self).symbols@ == without(without(old(self).symbols@, *symbol_1), *symbol_2).insert(
                new_symbol.start_byte,
                new_symbol.end_byte,
            ),
    {
        if map_get(&self.symbols, symbol_1.start_byte) == Some(symbol_1.end_byte) {
            map_remove(&mut self.symbols, symbol_1.start_byte);
        }
        if map_get(&self.symbols, symbol_2.start_byte) == Some(symbol_2.end_byte) {
            map_remove(&mut self.symbols, symbol_2.start_byte);
        }
        let new_symbol = Symbol { start_byte: symbol_1.start_byte, end_byte: symbol_2.end_byte };
        map_insert(&mut self.symbols, new_symbol.start_byte, new_symbol.end_byte);
        new_symbol
    }

    /// The symbols of the tree, by ascending start byte.
    pub fn iter(&self) -> (ordered: Vec<Symbol>)
        ensures
            starts_ascend(ordered@),
            forall|i: int| 0 <= i < ordered@.len() ==> holds(self.symbols@, #[trigger] ordered@[i]),
            forall|key: usize| #[trigger]
                self.symbols@.contains_key(key) ==> exists|i: int|
                    0 <= i < ordered@.len() && (#[trigger] ordered@[i]).start_byte == key,
    {
        let mut ordered: Vec<Symbol> = Vec::new();
        let mut from: usize = 0;
        loop
            invariant_except_break
                forall|i: int| 0 <= i < ordered@.len() ==> (#[trigger] ordered@[i]).start_byte < from,
                forall|key: usize| #[trigger]
                    self.symbols@.contains_key(key) && key < from ==> exists|i: int|
                        0 <= i < ordered@.len() && (#[trigger] ordered@[i]).start_byte == key,
            invariant
                starts_ascend(ordered@),
                forall|i: int|
                    0 <= i < ordered@.len() ==> holds(self.symbols@, #[trigger] ordered@[i]),
            ensures
                forall|key: usize| #[trigger]
                    self.symbols@.contains_key(key) ==> exists|i: int|
                        0 <= i < ordered@.len() && (#[trigger] ordered@[i]).start_byte == key,
            decreases usize::MAX - from,
        {
            match first_entry_from(&self.symbols, from) {
                Some((start_byte, end_byte)) => {
                    let ghost before = ordered@;
                    ordered.push(Symbol { start_byte, end_byte });
                    proof {
                        assert forall|key: usize| #[trigger]
                            self.symbols@.contains_key(key) && key <= start_byte implies exists|
                            i: int,
                        |
                            0 <= i < ordered@.len() && (#[trigger] ordered@[i]).start_byte
                                == key by {
                            if key < from {
                                let i = choose|i: int|
                                    0 <= i < before.len() && (#[trigger] before[i]).start_byte
                                        == key;
                                assert(ordered@[i].start_byte == key);
                            } else {
                                assert(ordered@[before.len() as int].start_byte == key);
                            }
                        }
                    }
                    if start_byte == usize::MAX {
                        break ;
                    }
                    from = start_byte + 1;
                },
                None => {
                    break ;
                },
            }
        }
        ordered
    }

    /// The symbol, if the tree holds it.
    pub fn get(&self, symbol: &Symbol) -> (found: Option<Symbol>)
        ensures
            found == (if holds(self.symbols@, *symbol) {
                Some(*symbol)
            } else {
                None
            }),
    {
        if map_get(&self.symbols, symbol.start_byte) == Some(symbol.end_byte) {
            Some(*symbol)
        } else {
            None
        }
    }

    /// The first symbol of the tree that starts after `symbol` starts.
    pub fn next_symbol(&self, symbol: &Symbol) -> (next: Option<Symbol>)
        ensures
            match next {
                Some(found) => holds(self.symbols@, found) && symbol.start_byte
                    < found.start_byte && forall|key: usize| #[trigger]
                    self.symbols@.contains_key(key) && symbol.start_byte < key
                        ==> found.start_byte <= key,
                None => forall|key: usize| #[trigger]
                    self.symbols@.contains_key(key) ==> key <= symbol.start_byte,
            },
    {
        if symbol.start_byte == usize::MAX {
            return None;
        }
        match first_entry_from(&self.symbols, symbol.start_byte + 1) {
            Some((start_byte, end_byte)) => Some(Symbol { start_byte, end_byte }),
            None => None,
        }
    }

    /// The last symbol of the tree that starts before `symbol` starts.
    pub fn prev_symbol(&self, symbol: &Symbol) -> (prev: Option<Symbol>)
        ensures
            match prev {
                Some(found) => holds(self.symbols@, found) && found.start_byte
                    < symbol.start_byte && forall|key: usize| #[trigger]
                    self.symbols@.contains_key(key) && key < symbol.start_byte ==> key
                        <= found.start_byte,
                None => forall|key: usize| #[trigger]
                    self.symbols@.contains_key(key) ==> symbol.start_byte <= key,
            },
    {
        match last_entry_before(&self.symbols, symbol.start_byte) {
            Some((start_byte, end_byte)) => Some(Symbol { start_byte, end_byte }),
            None => None,
        }
    }
}

/// The ordered symbols of a tree that holds a partition are that partition.
pub proof fn lemma_ordered_is_partition(
    map: Map<usize, usize>,
    syms: Seq<Symbol>,
    len: int,
    ordered: Seq<Symbol>,
)
    requires
        represents(map, syms),
        is_partition(syms, len),
        starts_ascend(ordered),
        forall|i: int| 0 <= i < ordered.len() ==> holds(map, #[trigger] ordered[i]),
        forall|key: usize| #[trigger]
            map.contains_key(key) ==> exists|i: int|
                0 <= i < ordered.len() && (#[trigger] ordered[i]).start_byte == key,
    ensures
        ordered == syms,
{
    assert(starts_ascend(syms)) by {
        assert forall|i: int, j: int| 0 <= i < j < syms.len() implies (#[trigger] syms[i]).start_byte
            < (#[trigger] syms[j]).start_byte by {
            lemma_starts_increasing(syms, len, i, j);
        }
    }
    assert forall|i: int| 0 <= i < syms.len() implies ordered.contains(#[trigger] syms[i]) by {
        assert(holds(map, syms[i]));
        assert(map.contains_key(syms[i].start_byte));
        let j = choose|j: int|
            0 <= j < ordered.len() && (#[trigger] ordered[j]).start_byte == syms[i].start_byte;
        assert(holds(map, ordered[j]));
        assert(ordered[j] == syms[i]);
    }
    assert forall|j: int| 0 <= j < ordered.len() implies syms.contains(#[trigger] ordered[j]) by {
        assert(holds(map, ordered[j]));
        assert(map.contains_key(ordered[j].start_byte));
        let i = choose|i: int|
            0 <= i < syms.len() && (#[trigger] syms[i]).start_byte == ordered[j].start_byte;
        assert(holds(map, syms[i]));
        assert(syms[i] == ordered[j]);
    }
    lemma_same_symbols(ordered, syms);
}

/// Two symbols that a tree of a partition holds, the second starting where
/// the first ends, are neighbours in the partition.
pub proof fn lemma_held_pair_is_adjacent(
    map: Map<usize, usize>,
    syms: Seq<Symbol>,
    len: int,
    left: Symbol,
    right: Symbol,
) -> (i: int)
    requires
        represents(map, syms),
        is_partition(syms, len),
        holds(map, left),
        holds(map, right),
        left.end_byte == right.start_byte,
    ensures
        0 <= i < syms.len() - 1,
        syms[i] == left,
        syms[i + 1] == right,
{
    assert(map.contains_key(left.start_byte));
    let i = choose|i: int| 0 <= i < syms.len() && (#[trigger] syms[i]).start_byte == left.start_byte;
    assert(holds(map, syms[i]));
    assert(map.contains_key(right.start_byte));
    let j = choose|j: int|
        0 <= j < syms.len() && (#[trigger] syms[j]).start_byte == right.start_byte;
    assert(holds(map, syms[j]));
    assert(syms[i].start_byte < syms[i].end_byte);
    if j < i {
        lemma_starts_increasing(syms, len, j, i);
    }
    if i + 1 < j {
        lemma_starts_increasing(syms, len, i + 1, j);
        assert(syms[i].end_byte == syms[i + 1].start_byte);
    }
    i
}

/// A tree of a partition, after the merge of two neighbours, is a tree of
/// the merged partition.
pub proof fn lemma_represents_merge(map: Map<usize, usize>, syms: Seq<Symbol>, len: int, i: int)
    requires
        represents(map, syms),
        is_partition(syms, len),
        0 <= i < syms.len() - 1,
    ensures
        represents(
            without(without(map, syms[i]), syms[i + 1]).insert(
                syms[i].start_byte,
                syms[i + 1].end_byte,
            ),
            merge_at(syms, i),
        ),
{
    let merged = merge_at(syms, i);
    let after = without(without(map, syms[i]), syms[i + 1]).insert(
        syms[i].start_byte,
        syms[i + 1].end_byte,
    );
    lemma_merge_at_index(syms, i);
    lemma_starts_increasing(syms, len, i, i + 1);
    assert(holds(map, syms[i]));
    assert(holds(map, syms[i + 1]));
    assert forall|j: int| 0 <= j < merged.len() implies holds(after, #[trigger] merged[j]) by {
        if j < i {
            assert(merged[j] == syms[j]);
            assert(holds(map, syms[j]));
            lemma_starts_increasing(syms, len, j, i);
        } else if j > i {
            assert(merged[j] == syms[j + 1]);
            assert(holds(map, syms[j + 1]));
            lemma_starts_increasing(syms, len, i + 1, j + 1);
        }
    }
    assert forall|key: usize| #[trigger] after.contains_key(key) implies exists|j: int|
        0 <= j < merged.len() && (#[trigger] merged[j]).start_byte == key by {
        if key == syms[i].start_byte {
            assert(merged[i].start_byte == key);
        } else {
            assert(map.contains_key(key));
            let k = choose|k: int| 0 <= k < syms.len() && (#[trigger] syms[k]).start_byte == key;
            assert(k != i && k != i + 1);
            if k < i {
                assert(merged[k] == syms[k]);
            } else {
                assert(merged[k - 1] == syms[k]);
            }
        }
    }
}

/// The tokenizer that keeps its symbols in an ordered tree and its
/// candidate merges in an agenda.
pub struct PriorityQueueBpeTokenizer {
    merges_vocab: MergesVocab,
}

/// The candidate that the symbols `j` and `j + 1` make, with a score.
pub open spec fn pair_at(syms: Seq<Symbol>, j: int, score: i64) -> SymbolPair {
    SymbolPair { left: syms[j], right: syms[j + 1], score }
}

/// The candidate's symbols touch, and its score is the vocabulary's score
/// of the text that they span.
pub open spec fn is_candidate(vocab: Map<Seq<char>, i64>, bytes: Seq<u8>, pair: SymbolPair) -> bool {
    &&& pair.left.end_byte == pair.right.start_byte
    &&& merge_score(vocab, bytes, pair.left.start_byte as int, pair.right.end_byte as int) == Some(
        pair.score,
    )
}

/// The agenda holds nothing but candidates.
pub open spec fn agenda_sound(
    vocab: Map<Seq<char>, i64>,
    bytes: Seq<u8>,
    agenda: Multiset<SymbolPair>,
) -> bool {
    forall|pair: SymbolPair| #[trigger] agenda.contains(pair) ==> is_candidate(vocab, bytes, pair)
}

/// If the vocabulary has a score for the adjacent pair `j`, the agenda
/// holds that pair with that score.
pub open spec fn agenda_covers(
    vocab: Map<Seq<char>, i64>,
    bytes: Seq<u8>,
    syms: Seq<Symbol>,
    agenda: Multiset<SymbolPair>,
    j: int,
) -> bool {
    match pair_score(vocab, bytes, syms, j) {
        Some(score) => agenda.contains(pair_at(syms, j, score)),
        None => true,
    }
}

/// The agenda holds each of the first `n` adjacent pairs that the
/// vocabulary has a score for.
pub open spec fn agenda_complete(
    vocab: Map<Seq<char>, i64>,
    bytes: Seq<u8>,
    syms: Seq<Symbol>,
    agenda: Multiset<SymbolPair>,
    n: int,
) -> bool {
    forall|j: int| 0 <= j < n ==> #[trigger] agenda_covers(vocab, bytes, syms, agenda, j)
}

/// What holds of the engine between two steps: the tree holds a partition
/// of the text, and the agenda holds candidates only, among them every
/// adjacent pair that the vocabulary has a score for.
pub open spec fn engine_state(
    vocab: Map<Seq<char>, i64>,
    bytes: Seq<u8>,
    map: Map<usize, usize>,
    syms: Seq<Symbol>,
    agenda: Multiset<SymbolPair>,
) -> bool {
    &&& well_formed(bytes, syms)
    &&& represents(map, syms)
    &&& agenda_sound(vocab, bytes, agenda)
    &&& agenda_complete(vocab, bytes, syms, agenda, syms.len() - 1)
}

/// What the agenda holds after the adjacent pair `j` has been offered to it.
pub open spec fn agenda_with(
    vocab: Map<Seq<char>, i64>,
    bytes: Seq<u8>,
    syms: Seq<Symbol>,
    agenda: Multiset<SymbolPair>,
    j: int,
) -> Multiset<SymbolPair> {
    match pair_score(vocab, bytes, syms, j) {
        Some(score) => agenda.insert(pair_at(syms, j, score)),
        None => agenda,
    }
}

/// Offering an adjacent pair to the agenda keeps what it held, and makes
/// it cover that pair.
pub proof fn lemma_agenda_with(
    vocab: Map<Seq<char>, i64>,
    bytes: Seq<u8>,
    syms: Seq<Symbol>,
    agenda: Multiset<SymbolPair>,
    j: int,
)
    requires
        agenda_sound(vocab, bytes, agenda),
        is_partition(syms, bytes.len() as int),
        0 <= j < syms.len() - 1,
    ensures
        agenda_sound(vocab, bytes, agenda_with(vocab, bytes, syms, agenda, j)),
        agenda_covers(vocab, bytes, syms, agenda_with(vocab, bytes, syms, agenda, j), j),
        forall|k: int|
            agenda_covers(vocab, bytes, syms, agenda, k) ==> #[trigger] agenda_covers(
                vocab,
                bytes,
                syms,
                agenda_with(vocab, bytes, syms, agenda, j),
                k,
            ),
        agenda_with(vocab, bytes, syms, agenda, j).len() <= agenda.len() + 1,
{
    let after = agenda_with(vocab, bytes, syms, agenda, j);
    match pair_score(vocab, bytes, syms, j) {
        Some(score) => {
            let added = pair_at(syms, j, score);
            assert(syms[j].end_byte == syms[j + 1].start_byte);
            assert forall|pair: SymbolPair| #[trigger] after.contains(pair) implies is_candidate(
                vocab,
                bytes,
                pair,
            ) by {
                lemma_insert_contains(agenda, added, pair);
            }
            assert forall|k: int| agenda_covers(vocab, bytes, syms, agenda, k) implies #[trigger] agenda_covers(
                vocab,
                bytes,
                syms,
                after,
                k,
            ) by {
                match pair_score(vocab, bytes, syms, k) {
                    Some(other) => {
                        lemma_insert_contains(agenda, added, pair_at(syms, k, other));
                    },
                    None => {},
                }
            }
            lemma_insert_contains(agenda, added, added);
        },
        None => {},
    }
}

/// The candidate that goes before all others on a complete agenda, if its
/// symbols are neighbours in the partition, is the pair to merge.
pub proof fn lemma_first_candidate_is_best(
    vocab: Map<Seq<char>, i64>,
    bytes: Seq<u8>,
    syms: Seq<Symbol>,
    agenda: Multiset<SymbolPair>,
    first: SymbolPair,
    i: int,
)
    requires
        well_formed(bytes, syms),
        agenda_complete(vocab, bytes, syms, agenda, syms.len() - 1),
        is_candidate(vocab, bytes, first),
        forall|other: SymbolPair| #[trigger] agenda.contains(other) ==> key_le(first.key(), other.key()),
        0 <= i < syms.len() - 1,
        syms[i] == first.left,
        syms[i + 1] == first.right,
    ensures
        best_merge(vocab, bytes, syms) == Some(i),
        first == pair_at(syms, i, first.score),
{
    assert forall|j: int| 0 <= j < syms.len() - 1 implies match #[trigger] pair_score(
        vocab,
        bytes,
        syms,
        j,
    ) {
        Some(score) => key_le(
            (pair_score(vocab, bytes, syms, i).unwrap(), syms[i].start_byte as int),
            (score, syms[j].start_byte as int),
        ),
        None => true,
    } by {
        assert(agenda_covers(vocab, bytes, syms, agenda, j));
        match pair_score(vocab, bytes, syms, j) {
            Some(score) => {
                assert(agenda.contains(pair_at(syms, j, score)));
                assert(key_le(first.key(), pair_at(syms, j, score).key()));
            },
            None => {},
        }
    }
    lemma_first_pair_is_best(vocab, bytes, syms, i);
}

/// After the merge of the pair `i`, once that pair has left the agenda, the
/// agenda still covers every pair of the merged partition but the two that
/// the new symbol is part of.
pub proof fn lemma_agenda_after_merge(
    vocab: Map<Seq<char>, i64>,
    bytes: Seq<u8>,
    syms: Seq<Symbol>,
    agenda: Multiset<SymbolPair>,
    first: SymbolPair,
    i: int,
)
    requires
        well_formed(bytes, syms),
        agenda_complete(vocab, bytes, syms, agenda, syms.len() - 1),
        agenda_sound(vocab, bytes, agenda),
        agenda.contains(first),
        0 <= i < syms.len() - 1,
        syms[i] == first.left,
        syms[i + 1] == first.right,
    ensures
        agenda_sound(vocab, bytes, agenda.remove(first)),
        forall|j: int|
            0 <= j < syms.len() - 2 && j != i && j != i - 1 ==> #[trigger] agenda_covers(
                vocab,
                bytes,
                merge_at(syms, i),
                agenda.remove(first),
                j,
            ),
{
    let merged = merge_at(syms, i);
    let after = agenda.remove(first);
    lemma_merge_at_index(syms, i);
    assert forall|pair: SymbolPair| #[trigger] after.contains(pair) implies is_candidate(
        vocab,
        bytes,
        pair,
    ) by {
        lemma_remove_contains(agenda, first, pair);
    }
    assert forall|j: int| 0 <= j < syms.len() - 2 && j != i && j != i - 1 implies #[trigger] agenda_covers(
        vocab,
        bytes,
        merged,
        after,
        j,
    ) by {
        let k = if j < i {
            j
        } else {
            j + 1
        };
        assert(merged[j] == syms[k]);
        assert(merged[j + 1] == syms[k + 1]);
        assert(agenda_covers(vocab, bytes, syms, agenda, k));
        if k < i {
            lemma_starts_increasing(syms, bytes.len() as int, k, i);
        } else {
            lemma_starts_increasing(syms, bytes.len() as int, i, k);
        }
        match pair_score(vocab, bytes, merged, j) {
            Some(score) => {
                assert(pair_at(merged, j, score) == pair_at(syms, k, score));
                lemma_remove_contains(agenda, first, pair_at(syms, k, score));
            },
            None => {},
        }
    }
}

/// A candidate whose symbols the tree does not both hold is no pair of the
/// partition: without it the agenda is as complete as before.
pub proof fn lemma_agenda_without_stale(
    vocab: Map<Seq<char>, i64>,
    bytes: Seq<u8>,
    syms: Seq<Symbol>,
    map: Map<usize, usize>,
    agenda: Multiset<SymbolPair>,
    first: SymbolPair,
)
    requires
        represents(map, syms),
        agenda_complete(vocab, bytes, syms, agenda, syms.len() - 1),
        agenda_sound(vocab, bytes, agenda),
        agenda.contains(first),
        !(holds(map, first.left) && holds(map, first.right)),
    ensures
        agenda_sound(vocab, bytes, agenda.remove(first)),
        agenda_complete(vocab, bytes, syms, agenda.remove(first), syms.len() - 1),
{
    let after = agenda.remove(first);
    assert forall|pair: SymbolPair| #[trigger] after.contains(pair) implies is_candidate(
        vocab,
        bytes,
        pair,
    ) by {
        lemma_remove_contains(agenda, first, pair);
    }
    assert forall|j: int| 0 <= j < syms.len() - 1 implies #[trigger] agenda_covers(
        vocab,
        bytes,
        syms,
        after,
        j,
    ) by {
        assert(agenda_covers(vocab, bytes, syms, agenda, j));
        assert(holds(map, syms[j]));
        assert(holds(map, syms[j + 1]));
        match pair_score(vocab, bytes, syms, j) {
            Some(score) => {
                lemma_remove_contains(agenda, first, pair_at(syms, j, score));
            },
            None => {},
        }
    }
}

/// In a tree of a partition, the first symbol that starts after the symbol
/// `i` is the symbol `i + 1`, and there is none after the last.
pub proof fn lemma_next_is_successor(
    map: Map<usize, usize>,
    syms: Seq<Symbol>,
    len: int,
    i: int,
    next: Option<Symbol>,
)
    requires
        represents(map, syms),
        is_partition(syms, len),
        0 <= i < syms.len(),
        match next {
            Some(found) => holds(map, found) && syms[i].start_byte < found.start_byte && forall|
                key: usize,
            | #[trigger]
                map.contains_key(key) && syms[i].start_byte < key ==> found.start_byte <= key,
            None => forall|key: usize| #[trigger] map.contains_key(key) ==> key <= syms[i].start_byte,
        },
    ensures
        next == (if i + 1 < syms.len() {
            Some(syms[i + 1])
        } else {
            None
        }),
{
    if i + 1 < syms.len() {
        lemma_starts_increasing(syms, len, i, i + 1);
        assert(holds(map, syms[i + 1]));
        assert(map.contains_key(syms[i + 1].start_byte));
    }
    match next {
        Some(found) => {
            assert(map.contains_key(found.start_byte));
            let k = choose|k: int|
                0 <= k < syms.len() && (#[trigger] syms[k]).start_byte == found.start_byte;
            assert(holds(map, syms[k]));
            if k < i {
                lemma_starts_increasing(syms, len, k, i);
            }
            if k > i + 1 {
                lemma_starts_increasing(syms, len, i + 1, k);
            }
        },
        None => {},
    }
}

/// In a tree of a partition, the last symbol that starts before the symbol
/// `i` is the symbol `i - 1`, and there is none before the first.
pub proof fn lemma_prev_is_predecessor(
    map: Map<usize, usize>,
    syms: Seq<Symbol>,
    len: int,
    i: int,
    prev: Option<Symbol>,
)
    requires
        represents(map, syms),
        is_partition(syms, len),
        0 <= i < syms.len(),
        match prev {
            Some(found) => holds(map, found) && found.start_byte < syms[i].start_byte && forall|
                key: usize,
            | #[trigger]
                map.contains_key(key) && key < syms[i].start_byte ==> key <= found.start_byte,
            None => forall|key: usize| #[trigger] map.contains_key(key) ==> syms[i].start_byte <= key,
        },
    ensures
        prev == (if i > 0 {
            Some(syms[i - 1])
        } else {
            None
        }),
{
    if i > 0 {
        lemma_starts_increasing(syms, len, i - 1, i);
        assert(holds(map, syms[i - 1]));
        assert(map.contains_key(syms[i - 1].start_byte));
    }
    match prev {
        Some(found) => {
            assert(map.contains_key(found.start_byte));
            let k = choose|k: int|
                0 <= k < syms.len() && (#[trigger] syms[k]).start_byte == found.start_byte;
            assert(holds(map, syms[k]));
            if k > i {
                lemma_starts_increasing(syms, len, i, k);
            }
            if k < i - 1 {
                lemma_starts_increasing(syms, len, k, i - 1);
            }
        },
        None => {},
    }
}

/// An agenda on which nothing waits, and which is complete, shows that the
/// merging has come to its end.
pub proof fn lemma_empty_agenda(
    vocab: Map<Seq<char>, i64>,
    bytes: Seq<u8>,
    syms: Seq<Symbol>,
    agenda: Multiset<SymbolPair>,
)
    requires
        agenda_complete(vocab, bytes, syms, agenda, syms.len() - 1),
        agenda.len() == 0,
    ensures
        merge_all(vocab, bytes, syms) == syms,
{
    assert forall|j: int| 0 <= j < syms.len() - 1 implies #[trigger] pair_score(
        vocab,
        bytes,
        syms,
        j,
    ) is None by {
        assert(agenda_covers(vocab, bytes, syms, agenda, j));
    }
    lemma_no_pair_no_merge(vocab, bytes, syms);
}

impl PriorityQueueBpeTokenizer {
    /// A tokenizer for the model that the bytes encode. It fails where the
    /// model cannot be read.
    pub fn new(model: &[u8]) -> (tokenizer: Result<Self, ModelError>)
        ensures
            match (tokenizer, pieces_of_model(model@)) {
                (Ok(tokenizer), Ok(pieces)) => tokenizer.vocab() == vocab_of(pieces),
                (Err(error), Err(flaw)) => error.flaw() == flaw,
                _ => false,
            },
    {
        match read_model(model) {
            Ok(merges_vocab) => Ok(Self { merges_vocab }),
            Err(error) => Err(error),
        }
    }

    /// A tokenizer for a model's list of pieces.
    pub fn from_pieces(pieces: &Vec<String>) -> (tokenizer: Self)
        requires
            pieces.len() <= i64::MAX,
        ensures
            tokenizer.vocab() == vocab_of(piece_views(pieces@)),
    {
        Self { merges_vocab: read_vocab(pieces) }
    }

    /// Puts the pair on the agenda if the text that it spans is a piece of
    /// the vocabulary, with that piece's score.
    pub fn maybe_add_pair(
        &self,
        left_symbol: &Symbol,
        right_symbol: &Symbol,
        input_text: &str,
        agenda: &mut Agenda<SymbolPair>,
    )
        requires
            left_symbol.start_byte <= right_symbol.end_byte <= input_text.spec_bytes().len(),
            is_char_boundary(input_text.spec_bytes(), left_symbol.start_byte as int),
            is_char_boundary(input_text.spec_bytes(), right_symbol.end_byte as int),
        ensures
            final(agenda)@ == (match merge_score(
                self.vocab(),
                input_text.spec_bytes(),
                left_symbol.start_byte as int,
                right_symbol.end_byte as int,
            ) {
                Some(score) => old(agenda)@.insert(
                    SymbolPair { left: *left_symbol, right: *right_symbol, score },
                ),
                None => old(agenda)@,
            }),
    {
        match get_merge_score(&self.merges_vocab, left_symbol, right_symbol, input_text) {
            Some(score) => {
                agenda.push(SymbolPair { left: *left_symbol, right: *right_symbol, score });
            },
            None => {},
        }
    }

    /// Offers the adjacent pair `j` of the partition to the agenda.
    fn offer_pair(
        &self,
        left_symbol: &Symbol,
        right_symbol: &Symbol,
        input_text: &str,
        agenda: &mut Agenda<SymbolPair>,
        Ghost(syms): Ghost<Seq<Symbol>>,
        Ghost(j): Ghost<int>,
    )
        requires
            well_formed(input_text.spec_bytes(), syms),
            0 <= j < syms.len() - 1,
            syms[j] == *left_symbol,
            syms[j + 1] == *right_symbol,
            agenda_sound(self.vocab(), input_text.spec_bytes(), old(agenda)@),
        ensures
            final(agenda)@ == agenda_with(
                self.vocab(),
                input_text.spec_bytes(),
                syms,
                old(agenda)@,
                j,
            ),
            agenda_sound(self.vocab(), input_text.spec_bytes(), final(agenda)@),
            agenda_covers(self.vocab(), input_text.spec_bytes(), syms, final(agenda)@, j),
            forall|k: int|
                agenda_covers(self.vocab(), input_text.spec_bytes(), syms, old(agenda)@, k)
                    ==> #[trigger] agenda_covers(
                    self.vocab(),
                    input_text.spec_bytes(),
                    syms,
                    final(agenda)@,
                    k,
                ),
            final(agenda)@.len() <= old(agenda)@.len() + 1,
    {
        proof {
            let len = input_text.spec_bytes().len() as int;
            lemma_starts_increasing(syms, len, j, j + 1);
            lemma_symbol_in_range(syms, len, j + 1);
            lemma_agenda_with(self.vocab(), input_text.spec_bytes(), syms, agenda@, j);
        }
        self.maybe_add_pair(left_symbol, right_symbol, input_text, agenda);
    }

    /// Merges the pair `i` of the partition that the tree holds.
    fn merge_pair(
        symbols: &mut SymbolBTree,
        symbol_pair: &SymbolPair,
        Ghost(bytes): Ghost<Seq<u8>>,
        Ghost(old_syms): Ghost<Seq<Symbol>>,
        Ghost(i): Ghost<int>,
    ) -> (new_symbol: Symbol)
        requires
            well_formed(bytes, old_syms),
            represents(old(symbols).symbols@, old_syms),
            0 <= i < old_syms.len() - 1,
            old_syms[i] == symbol_pair.left,
            old_syms[i + 1] == symbol_pair.right,
        ensures
            well_formed(bytes, merge_at(old_syms, i)),
            represents(final(symbols).symbols@, merge_at(old_syms, i)),
            merge_at(old_syms, i).len() == old_syms.len() - 1,
            new_symbol == merge_at(old_syms, i)[i],
    {
        proof {
            lemma_merge_at(bytes, old_syms, i);
            lemma_merge_at_index(old_syms, i);
            lemma_represents_merge(symbols.symbols@, old_syms, bytes.len() as int, i);
        }
        symbols.merge_symbols(&symbol_pair.left, &symbol_pair.right)
    }

    /// The symbols before and after the symbol `i` of the partition that
    /// the tree holds.
    fn neighbours(
        symbols: &SymbolBTree,
        symbol: &Symbol,
        Ghost(syms): Ghost<Seq<Symbol>>,
        Ghost(len): Ghost<int>,
        Ghost(i): Ghost<int>,
    ) -> (around: (Option<Symbol>, Option<Symbol>))
        requires
            represents(symbols.symbols@, syms),
            is_partition(syms, len),
            0 <= i < syms.len(),
            syms[i] == *symbol,
        ensures
            around.0 == (if i > 0 {
                Some(syms[i - 1])
            } else {
                None
            }),
            around.1 == (if i + 1 < syms.len() {
                Some(syms[i + 1])
            } else {
                None
            }),
    {
        let next = symbols.next_symbol(symbol);
        proof {
            lemma_next_is_successor(symbols.symbols@, syms, len, i, next);
        }
        let prev = symbols.prev_symbol(symbol);
        proof {
            lemma_prev_is_predecessor(symbols.symbols@, syms, len, i, prev);
        }
        (prev, next)
    }

    /// Merges the two symbols of the candidate that came first from the
    /// agenda, and offers the two pairs that the new symbol is part of.
    fn merge_and_reseed(
        &self,
        symbols: &mut SymbolBTree,
        agenda: &mut Agenda<SymbolPair>,
        symbol_pair: &SymbolPair,
        input_text: &str,
        Ghost(old_syms): Ghost<Seq<Symbol>>,
        Ghost(before): Ghost<Multiset<SymbolPair>>,
    ) -> (merged: Ghost<Seq<Symbol>>)
        requires
            engine_state(
                self.vocab(),
                input_text.spec_bytes(),
                old(symbols).symbols@,
                old_syms,
                before,
            ),
            before.contains(*symbol_pair),
            old(agenda)@ == before.remove(*symbol_pair),
            forall|other: SymbolPair| #[trigger]
                before.contains(other) ==> key_le(symbol_pair.key(), other.key()),
            holds(old(symbols).symbols@, symbol_pair.left),
            holds(old(symbols).symbols@, symbol_pair.right),
        ensures
            engine_state(
                self.vocab(),
                input_text.spec_bytes(),
                final(symbols).symbols@,
                merged@,
                final(agenda)@,
            ),
            merge_all(self.vocab(), input_text.spec_bytes(), merged@) == merge_all(
                self.vocab(),
                input_text.spec_bytes(),
                old_syms,
            ),
            merged@.len() == old_syms.len() - 1,
            final(agenda)@.len() <= before.len() + 1,
    {
        let ghost bytes = input_text.spec_bytes();
        let ghost vocab = self.vocab();
        let ghost i = lemma_held_pair_is_adjacent(
            symbols.symbols@,
            old_syms,
            bytes.len() as int,
            symbol_pair.left,
            symbol_pair.right,
        );
        let ghost syms = merge_at(old_syms, i);
        proof {
            lemma_first_candidate_is_best(vocab, bytes, old_syms, before, *symbol_pair, i);
            lemma_agenda_after_merge(vocab, bytes, old_syms, before, *symbol_pair, i);
            lemma_remove_contains(before, *symbol_pair, *symbol_pair);
        }
        let ghost start = agenda@;
        let new_symbol = Self::merge_pair(
            symbols,
            symbol_pair,
            Ghost(bytes),
            Ghost(old_syms),
            Ghost(i),
        );
        let (prev, next) = Self::neighbours(
            symbols,
            &new_symbol,
            Ghost(syms),
            Ghost(bytes.len() as int),
            Ghost(i),
        );
        match next {
            Some(next) => {
                self.offer_pair(&new_symbol, &next, input_text, agenda, Ghost(syms), Ghost(i));
            },
            None => {},
        }
        let ghost with_next = agenda@;
        match prev {
            Some(prev) => {
                self.offer_pair(&prev, &new_symbol, input_text, agenda, Ghost(syms), Ghost(i - 1));
            },
            None => {},
        }
        proof {
            lemma_covers_all(vocab, bytes, syms, start, with_next, agenda@, i);
        }
        Ghost(syms)
    }
}

/// An agenda that covered every pair but the pairs `i - 1` and `i`, and to
/// which first the pair `i` and then the pair `i - 1` was offered, where
/// there are such pairs, covers every pair.
pub proof fn lemma_covers_all(
    vocab: Map<Seq<char>, i64>,
    bytes: Seq<u8>,
    syms: Seq<Symbol>,
    start: Multiset<SymbolPair>,
    with_next: Multiset<SymbolPair>,
    last: Multiset<SymbolPair>,
    i: int,
)
    requires
        forall|j: int|
            0 <= j < syms.len() - 1 && j != i && j != i - 1 ==> #[trigger] agenda_covers(
                vocab,
                bytes,
                syms,
                start,
                j,
            ),
        forall|k: int|
            agenda_covers(vocab, bytes, syms, start, k) ==> #[trigger] agenda_covers(
                vocab,
                bytes,
                syms,
                with_next,
                k,
            ),
        forall|k: int|
            agenda_covers(vocab, bytes, syms, with_next, k) ==> #[trigger] agenda_covers(
                vocab,
                bytes,
                syms,
                last,
                k,
            ),
        0 <= i < syms.len() - 1 ==> agenda_covers(vocab, bytes, syms, with_next, i),
        0 <= i - 1 < syms.len() - 1 ==> agenda_covers(vocab, bytes, syms, last, i - 1),
    ensures
        agenda_complete(vocab, bytes, syms, last, syms.len() - 1),
{
    assert forall|j: int| 0 <= j < syms.len() - 1 implies #[trigger] agenda_covers(
        vocab,
        bytes,
        syms,
        last,
        j,
    ) by {
        if j != i && j != i - 1 {
            assert(agenda_covers(vocab, bytes, syms, start, j));
            assert(agenda_covers(vocab, bytes, syms, with_next, j));
        } else if j == i {
            assert(agenda_covers(vocab, bytes, syms, with_next, j));
        }
    }
}

impl BpeTokenizer for PriorityQueueBpeTokenizer {
    closed spec fn vocab(&self) -> Map<Seq<char>, i64> {
        self.merges_vocab@
    }

    fn get_merges_vocab(&self) -> (vocab: &MergesVocab) {
        &self.merges_vocab
    }

    /// Cuts `input_text` by taking candidate merges from the agenda, best
    /// first, and passing over those whose symbols are gone.
    fn tokenize<'a>(&self, input_text: &'a str) -> (output: Vec<&'a str>)
        ensures
            slices_match(
                input_text.spec_bytes(),
                tokenization(self.vocab(), input_text@),
                output@,
            ),
    {
        let ghost orig = input_text@;
        let ghost pre = pre_chars(orig, WHITESPACE_TOKEN);
        let ghost bytes = encode_utf8(pre);
        let ghost vocab = self.vocab();
        let orig_len = input_text.as_bytes().len();
        let (text, byte_mapping) = pre_process_text(input_text, WHITESPACE_TOKEN);
        let mut symbols = SymbolBTree::from_text(text.as_str());
        let mut agenda: Agenda<SymbolPair> = Agenda::new();
        let ghost mut syms = code_points(pre);
        proof {
            lemma_code_points_well_formed(pre);
        }
        let initial = symbols.iter();
        proof {
            lemma_ordered_is_partition(symbols.symbols@, syms, bytes.len() as int, initial@);
        }
        let pairs = adjacent_pairs(&initial);
        let mut pos: usize = 0;
        while pos < pairs.len()
            invariant
                pos <= pairs@.len(),
                bytes == encode_utf8(pre),
                text@ == pre,
                vocab == self.vocab(),
                initial@ == syms,
                well_formed(bytes, syms),
                syms.len() > 0 ==> pairs@.len() == syms.len() - 1,
                syms.len() == 0 ==> pairs@.len() == 0,
                forall|i: int| 0 <= i < pairs@.len() ==> #[trigger] pairs@[i] == (syms[i], syms[i + 1]),
                agenda_sound(vocab, bytes, agenda@),
                agenda_complete(vocab, bytes, syms, agenda@, pos as int),
            decreases pairs@.len() - pos,
        {
            let (left_symbol, right_symbol) = pairs[pos];
            assert(pairs@[pos as int] == (syms[pos as int], syms[pos + 1]));
            self.offer_pair(
                &left_symbol,
                &right_symbol,
                text.as_str(),
                &mut agenda,
                Ghost(syms),
                Ghost(pos as int),
            );
            pos += 1;
        }
        loop
            invariant
                bytes == encode_utf8(pre),
                text@ == pre,
                vocab == self.vocab(),
                engine_state(vocab, bytes, symbols.symbols@, syms, agenda@),
                merge_all(vocab, bytes, syms) == merged_symbols(vocab, orig),
            ensures
                agenda@.len() == 0,
            decreases agenda@.len() + 3 * syms.len(),
        {
            let ghost before = agenda@;
            let symbol_pair = match agenda.pop() {
                Some(symbol_pair) => symbol_pair,
                None => {
                    break ;
                },
            };
            let left_symbol = symbols.get(&symbol_pair.left);
            let right_symbol = symbols.get(&symbol_pair.right);
            if left_symbol.is_some() && right_symbol.is_some() {
                let merged = self.merge_and_reseed(
                    &mut symbols,
                    &mut agenda,
                    &symbol_pair,
                    text.as_str(),
                    Ghost(syms),
                    Ghost(before),
                );
                proof {
                    syms = merged@;
                }
            } else {
                proof {
                    lemma_agenda_without_stale(
                        vocab,
                        bytes,
                        syms,
                        symbols.symbols@,
                        before,
                        symbol_pair,
                    );
                }
            }
        }
        proof {
            lemma_empty_agenda(vocab, bytes, syms, agenda@);
        }
        let merged = symbols.iter();
        proof {
            lemma_ordered_is_partition(symbols.symbols@, syms, bytes.len() as int, merged@);
            lemma_project_segmentation(orig, WHITESPACE_TOKEN, syms);
        }
        project_symbols(input_text, &byte_mapping, &merged)
    }
}

} // verus!
