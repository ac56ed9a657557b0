//! What the engines have in common: on one vocabulary and one text they
//! all return the same slices.
use vstd::prelude::*;
use vstd::string::StringSliceAdditionalSpecFns;
use crate::bpe_base::{
    fits, is_tokenization, joined, lemma_same_spans_same_slices, lemma_tokenization_covers,
    lemma_tokenization_is_segmentation, slices_match, tokenization, BpeTokenizer,
};
use crate::naive_bpe::NaiveBpeTokenizer;
use crate::naive_set_bpe::NaiveSetBpeTokenizer;
use crate::priority_queue_bpe::PriorityQueueBpeTokenizer;
use crate::priority_queue_linked_list_bpe::PriorityQueueBpeLLTokenizer;

verus! {

/// The output is what an engine without pre-splitting returns for the text
/// with the vocabulary.
pub open spec fn is_output(vocab: Map<Seq<char>, i64>, input_text: &str, output: Seq<&str>) -> bool {
    slices_match(input_text.spec_bytes(), tokenization(vocab, input_text@), output)
}

/// Two calls on the same text with the same vocabulary return the same
/// slices, whichever engines made them.
pub proof fn lemma_output_is_determined(
    vocab: Map<Seq<char>, i64>,
    input_text: &str,
    first: Seq<&str>,
    second: Seq<&str>,
)
    requires
        is_output(vocab, input_text, first),
        is_output(vocab, input_text, second),
    ensures
        first.len() == second.len(),
        forall|i: int| 0 <= i < first.len() ==> (#[trigger] first[i])@ == second[i]@,
{
    lemma_same_spans_same_slices(
        input_text.spec_bytes(),
        tokenization(vocab, input_text@),
        first,
        second,
    );
}

/// The four engines with one vocabulary return the same slices for one
/// text: what the set engine returns is what the array engine, the tree
/// engine and the linked-list engine return.
pub proof fn lemma_engines_agree(
    set_engine: &NaiveSetBpeTokenizer,
    array_engine: &NaiveBpeTokenizer,
    tree_engine: &PriorityQueueBpeTokenizer,
    list_engine: &PriorityQueueBpeLLTokenizer,
    input_text: &str,
    from_set: Seq<&str>,
    from_array: Seq<&str>,
    from_tree: Seq<&str>,
    from_list: Seq<&str>,
)
    requires
        set_engine.vocab() == array_engine.vocab(),
        set_engine.vocab() == tree_engine.vocab(),
        set_engine.vocab() == list_engine.vocab(),
        is_output(set_engine.vocab(), input_text, from_set),
        is_output(array_engine.vocab(), input_text, from_array),
        is_output(tree_engine.vocab(), input_text, from_tree),
        is_output(list_engine.vocab(), input_text, from_list),
    ensures
        from_set.len() == from_array.len() == from_tree.len() == from_list.len(),
        forall|i: int|
            0 <= i < from_set.len() ==> (#[trigger] from_set[i])@ == from_array[i]@ && from_set[i]@
                == from_tree[i]@ && from_set[i]@ == from_list[i]@,
{
    let vocab = set_engine.vocab();
    lemma_output_is_determined(vocab, input_text, from_set, from_array);
    lemma_output_is_determined(vocab, input_text, from_set, from_tree);
    lemma_output_is_determined(vocab, input_text, from_set, from_list);
}

/// What an engine returns is the text cut at code-point boundaries, and its
/// slices joined in order are the text.
pub proof fn lemma_output_covers(
    vocab: Map<Seq<char>, i64>,
    input_text: &str,
    output: Seq<&str>,
)
    requires
        fits(input_text@),
        input_text.spec_bytes().len() <= usize::MAX,
        is_output(vocab, input_text, output),
    ensures
        is_tokenization(input_text.spec_bytes(), output),
        joined(output, output.len() as int) == input_text.spec_bytes(),
{
    lemma_tokenization_is_segmentation(vocab, input_text@);
    lemma_tokenization_covers(input_text.spec_bytes(), output);
}

} // verus!
