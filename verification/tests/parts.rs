use bpe_example::agenda::{Agenda, Candidate};
use bpe_example::bpe_base::{
    get_merge_score, project_symbols, read_vocab, BpeTokenizer, Symbol, SymbolPair,
    WHITESPACE_TOKEN,
};
use bpe_example::naive_bpe::{merge_text, NaiveBpeTokenizer, SymbolArray};
use bpe_example::priority_queue_bpe::{PriorityQueueBpeTokenizer, SymbolBTree};
use bpe_example::priority_queue_linked_list_bpe::{
    PriorityQueueBpeLLTokenizer, SymbolNode, SymbolNodePair,
};
use bpe_example::text::{first_char, header_of_lines, pre_process_text, slice_between};
use std::collections::HashMap;

fn pieces(list: &[&str]) -> Vec<String> {
    list.iter().map(|s| s.to_string()).collect()
}

fn symbol(start_byte: usize, end_byte: usize) -> Symbol {
    Symbol { start_byte, end_byte }
}

fn offsets(entries: &[(usize, usize)]) -> HashMap<usize, usize> {
    entries.iter().cloned().collect()
}

#[test]
fn whitespace_token_is_the_lower_one_eighth_block() {
    assert_eq!(WHITESPACE_TOKEN, '\u{2581}');
    assert_eq!(WHITESPACE_TOKEN.len_utf8(), 3);
}

#[test]
fn preprocess_puts_a_token_in_front_and_replaces_whitespace() {
    let (text, map) = pre_process_text("a b", '\u{2581}');
    assert_eq!(text, "\u{2581}a\u{2581}b");
    assert_eq!(map, offsets(&[(0, 0), (3, 0), (4, 1), (7, 2), (8, 3)]));
}

#[test]
fn preprocess_leaves_a_leading_token_alone() {
    let (text, map) = pre_process_text("\u{2581}a", '\u{2581}');
    assert_eq!(text, "\u{2581}a");
    assert_eq!(map, offsets(&[(0, 0), (3, 3), (4, 4)]));
}

#[test]
fn preprocess_of_the_empty_text_is_one_token() {
    let (text, map) = pre_process_text("", '\u{2581}');
    assert_eq!(text, "\u{2581}");
    assert_eq!(map, offsets(&[(0, 0), (3, 0)]));
}

#[test]
fn preprocess_handles_wide_characters() {
    let (text, map) = pre_process_text("\u{e9}\u{3000}\u{1f980}\n", '\u{2581}');
    assert_eq!(text, "\u{2581}\u{e9}\u{2581}\u{1f980}\u{2581}");
    assert_eq!(map, offsets(&[(0, 0), (3, 0), (5, 2), (8, 5), (12, 9), (15, 10)]));
}

#[test]
fn preprocess_with_a_narrow_token() {
    let (text, map) = pre_process_text("a\u{3000}b", '_');
    assert_eq!(text, "_a_b");
    assert_eq!(map, offsets(&[(0, 0), (1, 0), (2, 1), (3, 4), (4, 5)]));
}

#[test]
fn preprocess_is_idempotent() {
    let (once, _) = pre_process_text(" a\tb  c", '\u{2581}');
    let (twice, map) = pre_process_text(once.as_str(), '\u{2581}');
    assert_eq!(once, twice);
    assert_eq!(once, "\u{2581}\u{2581}a\u{2581}b\u{2581}\u{2581}c");
    assert_eq!(map[&0], 0);
    assert_eq!(map[&once.len()], once.len());
}

#[test]
fn first_char_of_a_text() {
    assert_eq!(first_char("\u{e9}a"), Some('\u{e9}'));
    assert_eq!(first_char(""), None);
}

#[test]
fn slice_between_boundaries() {
    assert_eq!(slice_between("a\u{e9}b", 1, 3), "\u{e9}");
    assert_eq!(slice_between("a\u{e9}b", 0, 4), "a\u{e9}b");
    assert_eq!(slice_between("a\u{e9}b", 3, 3), "");
}

#[test]
fn merge_score_is_the_index_of_the_piece() {
    let vocab = read_vocab(&pieces(&["x", "a\u{e9}", "\u{e9}b"]));
    let text = "a\u{e9}b";
    assert_eq!(get_merge_score(&vocab, &symbol(0, 1), &symbol(1, 3), text), Some(1));
    assert_eq!(get_merge_score(&vocab, &symbol(1, 3), &symbol(3, 4), text), Some(2));
    assert_eq!(get_merge_score(&vocab, &symbol(0, 1), &symbol(3, 4), text), None);
}

#[test]
fn symbol_array_has_one_symbol_for_each_code_point() {
    let array = SymbolArray::from_text("a\u{e9}\u{1f980}");
    assert_eq!(array.symbols, vec![symbol(0, 1), symbol(1, 3), symbol(3, 7)]);
    assert!(SymbolArray::from_text("").symbols.is_empty());
}

#[test]
fn symbol_array_merge_takes_one_symbol_away() {
    let mut array = SymbolArray::from_text("abcd");
    let merged = array.merge_symbols(1);
    assert_eq!(merged, symbol(1, 3));
    assert_eq!(array.symbols, vec![symbol(0, 1), symbol(1, 3), symbol(3, 4)]);
    let merged = array.merge_symbols(1);
    assert_eq!(merged, symbol(1, 4));
    assert_eq!(array.symbols, vec![symbol(0, 1), symbol(1, 4)]);
}

#[test]
fn best_merge_is_the_leftmost_of_the_lowest() {
    let tokenizer = NaiveBpeTokenizer::from_pieces(&pieces(&["cd", "ab", "bc"]));
    let array = SymbolArray::from_text("abcdcd");
    assert_eq!(array.find_best_merge("abcdcd", &tokenizer), Some(2));
    let vocab = read_vocab(&pieces(&["zz", "ab", "bc"]));
    assert_eq!(array.find_best_merge_in("abcdcd", &vocab), Some(0));
    let none = read_vocab(&pieces(&["zz"]));
    assert_eq!(array.find_best_merge_in("abcdcd", &none), None);
    assert_eq!(SymbolArray::from_text("a").find_best_merge_in("a", &vocab), None);
    assert_eq!(SymbolArray::from_text("").find_best_merge_in("", &vocab), None);
}

#[test]
fn merge_text_merges_to_the_end() {
    let vocab = read_vocab(&pieces(&["ab", "abc", "cd"]));
    assert_eq!(merge_text("abcd", &vocab).symbols, vec![symbol(0, 3), symbol(3, 4)]);
}

#[test]
fn project_symbols_goes_through_the_offsets() {
    let map = offsets(&[(0, 0), (3, 0), (4, 1), (7, 2), (8, 3)]);
    let symbols = vec![symbol(0, 4), symbol(4, 8)];
    assert_eq!(project_symbols("a b", &map, &symbols), vec!["a", " b"]);
}

#[test]
fn symbol_tree_holds_the_code_points() {
    let tree = SymbolBTree::from_text("a\u{e9}b");
    assert_eq!(tree.iter(), vec![symbol(0, 1), symbol(1, 3), symbol(3, 4)]);
    assert_eq!(tree.get(&symbol(1, 3)), Some(symbol(1, 3)));
    assert_eq!(tree.get(&symbol(1, 2)), None);
    assert_eq!(tree.get(&symbol(2, 3)), None);
    assert!(SymbolBTree::from_text("").iter().is_empty());
}

#[test]
fn symbol_tree_neighbours() {
    let tree = SymbolBTree::from_text("a\u{e9}b");
    assert_eq!(tree.next_symbol(&symbol(0, 1)), Some(symbol(1, 3)));
    assert_eq!(tree.next_symbol(&symbol(1, 3)), Some(symbol(3, 4)));
    assert_eq!(tree.next_symbol(&symbol(3, 4)), None);
    assert_eq!(tree.prev_symbol(&symbol(3, 4)), Some(symbol(1, 3)));
    assert_eq!(tree.prev_symbol(&symbol(1, 3)), Some(symbol(0, 1)));
    assert_eq!(tree.prev_symbol(&symbol(0, 1)), None);
}

#[test]
fn symbol_tree_merge_replaces_two_by_one() {
    let mut tree = SymbolBTree::from_text("abcd");
    let merged = tree.merge_symbols(&symbol(1, 2), &symbol(2, 3));
    assert_eq!(merged, symbol(1, 3));
    assert_eq!(tree.iter(), vec![symbol(0, 1), symbol(1, 3), symbol(3, 4)]);
    assert_eq!(tree.get(&symbol(2, 3)), None);
    assert_eq!(tree.next_symbol(&merged), Some(symbol(3, 4)));
    assert_eq!(tree.prev_symbol(&merged), Some(symbol(0, 1)));
}

#[test]
fn agenda_hands_out_lowest_score_then_leftmost() {
    let pair = |start: usize, score: i64| SymbolPair {
        left: symbol(start, start + 1),
        right: symbol(start + 1, start + 2),
        score,
    };
    let mut agenda: Agenda<SymbolPair> = Agenda::new();
    assert_eq!(agenda.pop(), None);
    for candidate in [pair(4, 7), pair(2, 3), pair(0, 7), pair(6, 3), pair(8, 5), pair(1, 9)] {
        agenda.push(candidate);
    }
    assert_eq!(agenda.len(), 6);
    let mut order = Vec::new();
    while let Some(candidate) = agenda.pop() {
        order.push((candidate.score, candidate.left.start_byte));
    }
    assert_eq!(order, vec![(3, 2), (3, 6), (5, 8), (7, 0), (7, 4), (9, 1)]);
    assert_eq!(agenda.len(), 0);
}

#[test]
fn agenda_orders_many_candidates() {
    let mut agenda: Agenda<SymbolNodePair> = Agenda::new();
    let mut expected = Vec::new();
    let mut seed: u64 = 12345;
    for left in 0..200isize {
        seed = seed.wrapping_mul(6364136223846793005).wrapping_add(1442695040888963407);
        let score = ((seed >> 33) % 17) as i64;
        agenda.push(SymbolNodePair { left, right: left + 1, score, pair_size: 2 });
        expected.push((score, left));
    }
    expected.sort();
    let mut order = Vec::new();
    while let Some(candidate) = agenda.pop() {
        order.push((candidate.score, candidate.left));
    }
    assert_eq!(order, expected);
}

#[test]
fn candidates_compare_by_score_then_position() {
    let low = SymbolNodePair { left: 5, right: 6, score: 1, pair_size: 2 };
    let high = SymbolNodePair { left: 0, right: 1, score: 2, pair_size: 2 };
    let tie = SymbolNodePair { left: 3, right: 4, score: 1, pair_size: 2 };
    assert!(low.goes_before(&high));
    assert!(!high.goes_before(&low));
    assert!(tie.goes_before(&low));
    assert!(!low.goes_before(&tie));
    assert!(low.goes_before(&low));
}

#[test]
fn tree_engine_offers_only_pieces() {
    let tokenizer = PriorityQueueBpeTokenizer::from_pieces(&pieces(&["zz", "ab"]));
    let mut agenda: Agenda<SymbolPair> = Agenda::new();
    tokenizer.maybe_add_pair(&symbol(0, 1), &symbol(1, 2), "abc", &mut agenda);
    tokenizer.maybe_add_pair(&symbol(1, 2), &symbol(2, 3), "abc", &mut agenda);
    assert_eq!(agenda.len(), 1);
    assert_eq!(
        agenda.pop(),
        Some(SymbolPair { left: symbol(0, 1), right: symbol(1, 2), score: 1 })
    );
}

fn node(start_byte: usize, end_byte: usize, prev: isize, next: isize, size: usize) -> SymbolNode {
    SymbolNode { start_byte, end_byte, prev, next, size }
}

#[test]
fn arena_links_each_code_point_to_its_neighbours() {
    let arena = PriorityQueueBpeLLTokenizer::pre_populate_symbols("a\u{e9}b");
    assert_eq!(
        arena,
        vec![Some(node(0, 1, -1, 1, 1)), Some(node(1, 3, 0, 2, 1)), Some(node(3, 4, 1, -1, 1))]
    );
    assert!(PriorityQueueBpeLLTokenizer::pre_populate_symbols("").is_empty());
    assert_eq!(
        PriorityQueueBpeLLTokenizer::pre_populate_symbols("\u{1f980}"),
        vec![Some(node(0, 4, -1, -1, 1))]
    );
}

#[test]
fn arena_merge_splices_the_right_node_out() {
    let tokenizer = PriorityQueueBpeLLTokenizer::from_pieces(&pieces(&[]));
    let mut arena = PriorityQueueBpeLLTokenizer::pre_populate_symbols("abcd");
    let merged = tokenizer.merge_symbols_from_indices(&mut arena, 1, 2, 2);
    assert_eq!(merged, Some(node(1, 3, 0, 3, 2)));
    assert_eq!(
        arena,
        vec![
            Some(node(0, 1, -1, 1, 1)),
            Some(node(1, 3, 0, 3, 2)),
            None,
            Some(node(3, 4, 1, -1, 1)),
        ]
    );
    let merged = tokenizer.merge_symbols_from_indices(&mut arena, 1, 3, 3);
    assert_eq!(merged, Some(node(1, 4, 0, -1, 3)));
    assert_eq!(arena, vec![Some(node(0, 1, -1, 1, 1)), Some(node(1, 4, 0, -1, 3)), None, None]);
}

#[test]
fn arena_merge_passes_over_stale_pairs() {
    let tokenizer = PriorityQueueBpeLLTokenizer::from_pieces(&pieces(&[]));
    let mut arena = PriorityQueueBpeLLTokenizer::pre_populate_symbols("abcd");
    tokenizer.merge_symbols_from_indices(&mut arena, 1, 2, 2);
    let before = arena.clone();
    // the left node has grown since the pair was made
    assert_eq!(tokenizer.merge_symbols_from_indices(&mut arena, 1, 3, 2), None);
    // the right node is gone
    assert_eq!(tokenizer.merge_symbols_from_indices(&mut arena, 0, 2, 2), None);
    assert_eq!(tokenizer.merge_symbols_from_indices(&mut arena, 2, 3, 2), None);
    assert_eq!(arena, before);
}

#[test]
fn list_engine_offers_only_pieces_of_live_nodes() {
    let tokenizer = PriorityQueueBpeLLTokenizer::from_pieces(&pieces(&["zz", "ab", "abc"]));
    let mut arena = PriorityQueueBpeLLTokenizer::pre_populate_symbols("abc");
    let mut agenda: Agenda<SymbolNodePair> = Agenda::new();
    tokenizer.maybe_add_pair(-1, 0, "abc", &arena, &mut agenda);
    tokenizer.maybe_add_pair(2, -1, "abc", &arena, &mut agenda);
    tokenizer.maybe_add_pair(1, 2, "abc", &arena, &mut agenda);
    assert_eq!(agenda.len(), 0);
    tokenizer.maybe_add_pair(0, 1, "abc", &arena, &mut agenda);
    assert_eq!(agenda.pop(), Some(SymbolNodePair { left: 0, right: 1, score: 1, pair_size: 2 }));
    tokenizer.merge_symbols_from_indices(&mut arena, 0, 1, 2);
    tokenizer.maybe_add_pair(0, 1, "abc", &arena, &mut agenda);
    assert_eq!(agenda.len(), 0);
    tokenizer.maybe_add_pair(0, 2, "abc", &arena, &mut agenda);
    assert_eq!(agenda.pop(), Some(SymbolNodePair { left: 0, right: 2, score: 2, pair_size: 3 }));
}

#[test]
fn vocabulary_of_a_tokenizer() {
    let tokenizer = PriorityQueueBpeLLTokenizer::from_pieces(&pieces(&["a", "b"]));
    assert_eq!(tokenizer.get_merges_vocab().get("b"), Some(&1));
    assert_eq!(tokenizer.get_merges_vocab().len(), 2);
}

#[test]
fn header_joins_trimmed_lines_with_spaces() {
    let lines = pieces(&["  To be,", "", "\tor not", "   ", "to be "]);
    assert_eq!(header_of_lines(&lines), "To be, or not  to be  ");
    assert_eq!(header_of_lines(&pieces(&[])), "");
    assert_eq!(header_of_lines(&pieces(&["", ""])), "");
}
