//! The set engine: symbols in an ordered tree, a full scan for every merge.
use vstd::prelude::*;
use vstd::utf8::*;
use vstd::string::StringSliceAdditionalSpecFns;
use crate::bpe_base::{
    best_merge, code_points, lemma_code_points_well_formed, lemma_merge_at,
    lemma_project_segmentation, merge_all, merge_at, merged_symbols, piece_views,
    project_symbols, read_vocab, slices_match, tokenization, vocab_of, well_formed, BpeTokenizer,
    MergesVocab, WHITESPACE_TOKEN,
};
use crate::naive_bpe::SymbolArray;
use crate::priority_queue_bpe::{
    lemma_ordered_is_partition, lemma_represents_merge, represents, SymbolBTree,
};
use crate::text::{pre_chars, pre_process_text};
use crate::model::{pieces_of_model, read_model, ModelError};

verus! {

/// The tokenizer that keeps its symbols in an ordered tree and scans all
/// adjacent pairs for every merge.
pub struct NaiveSetBpeTokenizer {
    merges_vocab: MergesVocab,
}

impl NaiveSetBpeTokenizer {
    /// A tokenizer for the model that the bytes encode. It fails where the
    /// model cannot be read.
    pub fn new(model: &[u8]) -> (tokenizer: Result<Self, ModelError>)
        ensures
            match (tokenizer, pieces_of_model(model@)) {
                (Ok(tokenizer), Ok(pieces)) => tokenizer.vocab() == vocab_of(pieces),
                (Err(error), Err(flaw)) => error.flaw() == flaw,
                _ => false,
            },
    {
        match read_model(model) {
            Ok(merges_vocab) => Ok(Self { merges_vocab }),
            Err(error) => Err(error),
        }
    }

    /// A tokenizer for a model's list of pieces.
    pub fn from_pieces(pieces: &Vec<String>) -> (tokenizer: Self)
        requires
            pieces.len() <= i64::MAX,
        ensures
            tokenizer.vocab() == vocab_of(piece_views(pieces@)),
    {
        Self { merges_vocab: read_vocab(pieces) }
    }
}

impl BpeTokenizer for NaiveSetBpeTokenizer {
    closed spec fn vocab(&self) -> Map<Seq<char>, i64> {
        self.merges_vocab@
    }

    fn get_merges_vocab(&self) -> (vocab: &MergesVocab) {
        &self.merges_vocab
    }

    /// Cuts `input_text` by merging, again and again, the best adjacent
    /// pair of the whole text.
    fn tokenize<'a>(&self, input_text: &'a str) -> (output: Vec<&'a str>)
        ensures
            slices_match(
                input_text.spec_bytes(),
                tokenization(self.vocab(), input_text@),
                output@,
            ),
    {
        let ghost orig = input_text@;
        let ghost pre = pre_chars(orig, WHITESPACE_TOKEN);
        let ghost bytes = encode_utf8(pre);
        let ghost vocab = self.vocab();
        let orig_len = input_text.as_bytes().len();
        let (text, byte_mapping) = pre_process_text(input_text, WHITESPACE_TOKEN);
        let mut symbols = SymbolBTree::from_text(text.as_str());
        let ghost mut syms = code_points(pre);
        proof {
            lemma_code_points_well_formed(pre);
        }
        loop
            invariant
                text@ == pre,
                bytes == encode_utf8(pre),
                vocab == self.vocab(),
                well_formed(bytes, syms),
                represents(symbols.symbols@, syms),
                merge_all(vocab, bytes, syms) == merged_symbols(vocab, orig),
            ensures
                best_merge(vocab, bytes, syms) is None,
            decreases syms.len(),
        {
            let ordered = SymbolArray { symbols: symbols.iter() };
            proof {
                lemma_ordered_is_partition(
                    symbols.symbols@,
                    syms,
                    bytes.len() as int,
                    ordered.symbols@,
                );
            }
            match ordered.find_best_merge_in(text.as_str(), &self.merges_vocab) {
                Some(best_pair_index) => {
                    proof {
                        lemma_merge_at(bytes, syms, best_pair_index as int);
                        lemma_represents_merge(
                            symbols.symbols@,
                            syms,
                            bytes.len() as int,
                            best_pair_index as int,
                        );
                    }
                    symbols.merge_symbols(
                        &ordered.symbols[best_pair_index],
                        &ordered.symbols[best_pair_index + 1],
                    );
                    proof {
                        syms = merge_at(syms, best_pair_index as int);
                    }
                },
                None => {
                    break ;
                },
            }
        }
        let merged = symbols.iter();
        proof {
            lemma_ordered_is_partition(symbols.symbols@, syms, bytes.len() as int, merged@);
            lemma_project_segmentation(orig, WHITESPACE_TOKEN, syms);
        }
        project_symbols(input_text, &byte_mapping, &merged)
    }
}

} // verus!
