//! The array engine: symbols in a vector, a full scan for every merge.
use vstd::prelude::*;
use vstd::utf8::*;
use vstd::string::StringSliceAdditionalSpecFns;
use vstd::string::group_string_axioms;
use crate::bpe_base::{
    adjacent_pairs, best_merge, best_merge_upto, code_points, get_merge_score, is_segmentation,
    lemma_code_points_well_formed, lemma_merge_at, lemma_merge_at_index,
    lemma_project_segmentation, merge_all, merge_at, merged_symbols, pair_score, project_symbols,
    read_vocab, slices_match, tokenization, vocab_of, piece_views, well_formed, BpeTokenizer,
    MergesVocab, Symbol, WHITESPACE_TOKEN,
};
use crate::text::{byte_pos, lemma_byte_pos_bounds, lemma_byte_pos_step, pre_process_text};
use crate::model::{pieces_of_model, read_model, ModelError};

verus! {

/// The symbols of a text, in a vector, in the order of the text.
#[derive(Debug)]
pub struct SymbolArray {
    pub symbols: Vec<Symbol>,
}

impl SymbolArray {
    /// One symbol for each code point of the text.
    pub fn from_text(input_text: &str) -> (array: Self)
        ensures
            array.symbols@ == code_points(input_text@),
    {
        broadcast use group_string_axioms;

        let ghost chars = input_text@;
        let total = input_text.as_bytes().len();
        let mut symbols: Vec<Symbol> = Vec::new();
        let mut character_start: usize = 0;
        proof {
            lemma_byte_pos_bounds(chars, 0);
        }
        for character in it: input_text.chars()
            invariant
                it.seq() == chars,
                total == encode_utf8(chars).len(),
                character_start == byte_pos(chars, it.index() as int),
                symbols@ == code_points(chars).take(it.index() as int),
        {
            let ghost i = it.index() as int;
            proof {
                lemma_byte_pos_step(chars, i);
                lemma_byte_pos_bounds(chars, i + 1);
            }
            let character_end = character_start + character.len_utf8();
            symbols.push(Symbol { start_byte: character_start, end_byte: character_end });
            character_start = character_end;
            assert(symbols@ =~= code_points(chars).take(i + 1));
        }
        assert(symbols@ =~= code_points(chars));
        Self { symbols }
    }

    /// The index of the pair to merge next: of all adjacent pairs whose
    /// joined text is a piece of the vocabulary, the leftmost of those with
    /// the lowest score.
    pub fn find_best_merge<T>(&self, input_text: &str, tokenizer: &T) -> (best: Option<usize>) where
        T: BpeTokenizer,

        requires
            well_formed(input_text.spec_bytes(), self.symbols@),
        ensures
            match best {
                Some(i) => best_merge(tokenizer.vocab(), input_text.spec_bytes(), self.symbols@)
                    == Some(i as int) && i + 1 < self.symbols@.len(),
                None => best_merge(tokenizer.vocab(), input_text.spec_bytes(), self.symbols@)
                    is None,
            },
    {
        self.find_best_merge_in(input_text, tokenizer.get_merges_vocab())
    }

    /// The index of the pair to merge next by the given vocabulary: the
    /// leftmost of the adjacent pairs with the lowest score.
    pub fn find_best_merge_in(&self, input_text: &str, vocab: &MergesVocab) -> (best: Option<
        usize,
    >)
        requires
            well_formed(input_text.spec_bytes(), self.symbols@),
        ensures
            match best {
                Some(i) => best_merge(vocab@, input_text.spec_bytes(), self.symbols@) == Some(
                    i as int,
                ) && i + 1 < self.symbols@.len(),
                None => best_merge(vocab@, input_text.spec_bytes(), self.symbols@) is None,
            },
    {
        let ghost bytes = input_text.spec_bytes();
        let ghost syms = self.symbols@;
        let pairs = adjacent_pairs(&self.symbols);
        let mut best: Option<(usize, i64)> = None;
        let mut pos: usize = 0;
        while pos < pairs.len()
            invariant
                pos <= pairs@.len(),
                bytes == input_text.spec_bytes(),
                syms == self.symbols@,
                well_formed(bytes, syms),
                syms.len() > 0 ==> pairs@.len() == syms.len() - 1,
                syms.len() == 0 ==> pairs@.len() == 0,
                forall|i: int| 0 <= i < pairs@.len() ==> #[trigger] pairs@[i] == (syms[i], syms[i + 1]),
                match best {
                    Some((i, rank)) => best_merge_upto(vocab@, bytes, syms, pos as int) == Some(
                        i as int,
                    ) && i < pos && pair_score(vocab@, bytes, syms, i as int) == Some(rank),
                    None => best_merge_upto(vocab@, bytes, syms, pos as int) is None,
                },
            decreases pairs@.len() - pos,
        {
            let (first, second) = pairs[pos];
            proof {
                assert(pairs@[pos as int] == (syms[pos as int], syms[pos + 1]));
                assert(syms[pos as int].start_byte < syms[pos as int].end_byte);
                assert(syms[pos as int].end_byte == syms[pos + 1].start_byte);
                assert(syms[pos + 1].start_byte < syms[pos + 1].end_byte);
                crate::text::lemma_boundary_in_range(bytes, syms[pos + 1].end_byte as int);
            }
            match get_merge_score(vocab, &first, &second, input_text) {
                Some(rank) => {
                    match best {
                        Some((_, lowest)) => {
                            if rank < lowest {
                                best = Some((pos, rank));
                            }
                        },
                        None => {
                            best = Some((pos, rank));
                        },
                    }
                },
                None => {},
            }
            pos += 1;
        }
        match best {
            Some((i, _)) => Some(i),
            None => None,
        }
    }

    /// Merges the symbols `best_pair_index` and `best_pair_index + 1` into
    /// one, which is returned. The array has one symbol less.
    pub fn merge_symbols(&mut self, best_pair_index: usize) -> (new_symbol: Symbol)
        requires
            best_pair_index + 1 < old(self).symbols@.len(),
        ensures
            final(self).symbols@ == merge_at(old(self).symbols@, best_pair_index as int),
            final(self).symbols@.len() == old(self).symbols@.len() - 1,
            new_symbol == final(self).symbols@[best_pair_index as int],
            new_symbol.start_byte == old(self).symbols@[best_pair_index as int].start_byte,
            new_symbol.end_byte == old(self).symbols@[best_pair_index + 1].end_byte,
    {
        let count = self.symbols.len();
        let new_symbol = Symbol {
            start_byte: self.symbols[best_pair_index].start_byte,
            end_byte: self.symbols[best_pair_index + 1].end_byte,
        };
        let ghost before = self.symbols@;
        self.symbols.remove(best_pair_index + 1);
        self.symbols.remove(best_pair_index);
        self.symbols.insert(best_pair_index, new_symbol);
        proof {
            lemma_merge_at_index(before, best_pair_index as int);
            assert(self.symbols@ =~= merge_at(before, best_pair_index as int));
        }
        new_symbol
    }
}

/// Merges the symbols of a text to the end: starting from its code points,
/// the best adjacent pair is merged again and again until the vocabulary
/// holds no adjacent pair.
pub fn merge_text(text: &str, vocab: &MergesVocab) -> (symbols: SymbolArray)
    ensures
        symbols.symbols@ == merge_all(vocab@, text.spec_bytes(), code_points(text@)),
        well_formed(text.spec_bytes(), symbols.symbols@),
{
    let ghost bytes = text.spec_bytes();
    let total = text.as_bytes().len();
    let mut symbols = SymbolArray::from_text(text);
    proof {
        lemma_code_points_well_formed(text@);
    }
    loop
        invariant
            bytes == text.spec_bytes(),
            well_formed(bytes, symbols.symbols@),
            merge_all(vocab@, bytes, symbols.symbols@) == merge_all(
                vocab@,
                bytes,
                code_points(text@),
            ),
        ensures
            best_merge(vocab@, bytes, symbols.symbols@) is None,
        decreases symbols.symbols@.len(),
    {
        match symbols.find_best_merge_in(text, vocab) {
            Some(best_pair_index) => {
                proof {
                    lemma_merge_at(bytes, symbols.symbols@, best_pair_index as int);
                }
                symbols.merge_symbols(best_pair_index);
            },
            None => {
                break ;
            },
        }
    }
    symbols
}

/// The tokenizer that keeps its symbols in an array.
pub struct NaiveBpeTokenizer {
    merges_vocab: MergesVocab,
}

impl NaiveBpeTokenizer {
    /// A tokenizer for the model that the bytes encode. It fails where the
    /// model cannot be read.
    pub fn new(model: &[u8]) -> (tokenizer: Result<Self, ModelError>)
        ensures
            match (tokenizer, pieces_of_model(model@)) {
                (Ok(tokenizer), Ok(pieces)) => tokenizer.vocab() == vocab_of(pieces),
                (Err(error), Err(flaw)) => error.flaw() == flaw,
                _ => false,
            },
    {
        match read_model(model) {
            Ok(merges_vocab) => Ok(Self { merges_vocab }),
            Err(error) => Err(error),
        }
    }

    /// A tokenizer for a model's list of pieces.
    pub fn from_pieces(pieces: &Vec<String>) -> (tokenizer: Self)
        requires
            pieces.len() <= i64::MAX,
        ensures
            tokenizer.vocab() == vocab_of(piece_views(pieces@)),
    {
        Self { merges_vocab: read_vocab(pieces) }
    }
}

impl BpeTokenizer for NaiveBpeTokenizer {
    closed spec fn vocab(&self) -> Map<Seq<char>, i64> {
        self.merges_vocab@
    }

    fn get_merges_vocab(&self) -> (vocab: &MergesVocab) {
        &self.merges_vocab
    }

    /// Cuts `input_text` by merging, again and again, the best adjacent
    /// pair of the whole text.
    fn tokenize<'a>(&self, input_text: &'a str) -> (output: Vec<&'a str>)
        ensures
            slices_match(
                input_text.spec_bytes(),
                tokenization(self.vocab(), input_text@),
                output@,
            ),
    {
        let ghost orig = input_text@;
        let orig_len = input_text.as_bytes().len();
        let (text, byte_mapping) = pre_process_text(input_text, WHITESPACE_TOKEN);
        let symbols = merge_text(text.as_str(), &self.merges_vocab);
        proof {
            lemma_project_segmentation(orig, WHITESPACE_TOKEN, symbols.symbols@);
            assert(symbols.symbols@ == merged_symbols(self.vocab(), orig));
            assert(is_segmentation(input_text.spec_bytes(), tokenization(self.vocab(), orig)));
        }
        project_symbols(input_text, &byte_mapping, &symbols.symbols)
    }
}

} // verus!
