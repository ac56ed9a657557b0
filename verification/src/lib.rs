//! Byte-pair-encoding tokenization in the SentencePiece style.
//!
//! A tokenizer holds a vocabulary of scored pieces and cuts a UTF-8 string
//! into slices by repeatedly merging the adjacent pair of symbols with the
//! best (lowest) score. Five engines do this: four that give the same
//! slices with different data structures, and one that first cuts the text
//! into words and punctuation marks.
pub mod text;
pub mod agenda;
pub mod bpe_base;
pub mod model;
pub mod naive_bpe;
pub mod naive_set_bpe;
pub mod naive_pre_split_bpe;
pub mod priority_queue_bpe;
pub mod priority_queue_linked_list_bpe;
pub mod agreement;

pub use bpe_base::BpeTokenizer;
pub use naive_bpe::NaiveBpeTokenizer;
pub use naive_pre_split_bpe::NaivePreSplitBpeTokenizer;
pub use naive_set_bpe::NaiveSetBpeTokenizer;
pub use priority_queue_bpe::PriorityQueueBpeTokenizer;
pub use priority_queue_linked_list_bpe::PriorityQueueBpeLLTokenizer;
