//! The linked-list engine: symbols in an arena of nodes that are linked by
//! their indices, and an agenda of candidate merges.
use vstd::prelude::*;
use vstd::utf8::*;
use vstd::multiset::Multiset;
use vstd::string::StringSliceAdditionalSpecFns;
use vstd::string::group_string_axioms;
use crate::agenda::{key_le, lemma_insert_contains, lemma_remove_contains, Agenda, Candidate};
use crate::bpe_base::{
    best_merge, code_points, get_merge_score, lemma_code_points_well_formed,
    lemma_first_pair_is_best, lemma_merge_at, lemma_merge_at_index, lemma_no_pair_no_merge,
    lemma_project_segmentation, lemma_starts_increasing, lemma_symbol_in_range, merge_all,
    merge_at, merge_score, merged_symbols, pair_score, piece_views, project_symbols, read_vocab,
    slices_match, tokenization, vocab_of, well_formed, BpeTokenizer, MergesVocab, Symbol,
    WHITESPACE_TOKEN,
};
use crate::text::{
    lemma_encoding_len,
    byte_pos, lemma_byte_pos_bounds, lemma_byte_pos_increasing, lemma_byte_pos_step, pre_chars,
    pre_process_text,
};
use crate::model::{pieces_of_model, read_model, ModelError};

verus! {

/// The tokenizer that keeps its symbols in an arena of linked nodes.
pub struct PriorityQueueBpeLLTokenizer {
    merges_vocab: MergesVocab,
}

/// A symbol in the arena: its byte range, the arena indices of the symbols
/// before and after it (-1 where there is none), and the number of code
/// points that it spans.
#[derive(Debug, Copy, Clone, PartialEq, Eq, Structural)]
pub struct SymbolNode {
    pub start_byte: usize,
    pub end_byte: usize,
    pub prev: isize,
    pub next: isize,
    pub size: usize,
}

/// A candidate merge of two nodes, by their arena indices, with the score
/// of the text that they span and the number of code points that they
/// spanned together when the candidate was made.
#[derive(Debug, Copy, Clone, PartialEq, Eq, Structural)]
pub struct SymbolNodePair {
    pub left: isize,
    pub right: isize,
    pub score: i64,
    pub pair_size: usize,
}

impl Candidate for SymbolNodePair {
    open spec fn key(&self) -> (i64, int) {
        (self.score, self.left as int)
    }

    /// By ascending score; among equal scores, by ascending index of the
    /// left node.
    fn goes_before(&self, other: &Self) -> (before: bool) {
        self.score < other.score || (self.score == other.score && self.left <= other.left)
    }
}

/// The arena of a text before any merge: one node for each code point,
/// linked to its neighbours.
pub open spec fn initial_arena(chars: Seq<char>) -> Seq<Option<SymbolNode>> {
    Seq::new(
        chars.len(),
        |k: int|
            Some(
                SymbolNode {
                    start_byte: byte_pos(chars, k) as usize,
                    end_byte: byte_pos(chars, k + 1) as usize,
                    prev: (k - 1) as isize,
                    next: if k + 1 < chars.len() {
                        (k + 1) as isize
                    } else {
                        -1isize
                    },
                    size: 1,
                },
            ),
    )
}

/// The node that two adjacent nodes make together.
pub open spec fn merged_node(left: SymbolNode, right: SymbolNode) -> SymbolNode {
    SymbolNode {
        start_byte: left.start_byte,
        end_byte: right.end_byte,
        prev: left.prev,
        next: right.next,
        size: (left.size + right.size) as usize,
    }
}

/// The arena with the node at `index`, if there is one, linked back to
/// `prev`.
pub open spec fn relinked(arena: Seq<Option<SymbolNode>>, index: int, prev: int) -> Seq<
    Option<SymbolNode>,
> {
    match arena[index] {
        Some(node) => arena.update(
            index,
            Some(
                SymbolNode {
                    start_byte: node.start_byte,
                    end_byte: node.end_byte,
                    prev: prev as isize,
                    next: node.next,
                    size: node.size,
                },
            ),
        ),
        None => arena,
    }
}

/// The arena after the merge of the node at `right` into the node at
/// `left`: the merged node stands at `left`, the slot `right` is empty, and
/// the node after the pair is linked back to `left`.
pub open spec fn merged_arena(arena: Seq<Option<SymbolNode>>, left: int, right: int) -> Seq<
    Option<SymbolNode>,
> {
    let left_node = arena[left].unwrap();
    let right_node = arena[right].unwrap();
    let linked = if right_node.next != -1 {
        relinked(arena, right_node.next as int, left)
    } else {
        arena
    };
    linked.update(right, None).update(left, Some(merged_node(left_node, right_node)))
}

/// True when both slots hold a node and the two nodes span `size`
/// code points together.
pub open spec fn can_merge(arena: Seq<Option<SymbolNode>>, left: int, right: int, size: int) -> bool {
    &&& arena[left] is Some
    &&& arena[right] is Some
    &&& arena[left].unwrap().size + arena[right].unwrap().size == size
}

/// The candidate that the nodes at `left` and `right` make, with a score.
pub open spec fn node_pair(
    arena: Seq<Option<SymbolNode>>,
    left: int,
    right: int,
    score: i64,
) -> SymbolNodePair {
    SymbolNodePair {
        left: left as isize,
        right: right as isize,
        score,
        pair_size: (arena[left].unwrap().size + arena[right].unwrap().size) as usize,
    }
}

/// Where the symbol after the symbol `j` starts, as an arena index; for the
/// last symbol, the arena's length.
pub open spec fn slot_end(slots: Seq<int>, n: int, j: int) -> int {
    if j + 1 < slots.len() {
        slots[j + 1]
    } else {
        n
    }
}

/// The arena slot `slots[j]` holds the symbol `j`: its node spans the code
/// points from that slot to the slot of the next symbol, and is linked to
/// the slots of its two neighbours.
pub open spec fn slot_holds(
    chars: Seq<char>,
    arena: Seq<Option<SymbolNode>>,
    syms: Seq<Symbol>,
    slots: Seq<int>,
    j: int,
) -> bool {
    let k = slots[j];
    let end = slot_end(slots, chars.len() as int, j);
    &&& 0 <= k < end <= chars.len()
    &&& syms[j].start_byte == byte_pos(chars, k)
    &&& syms[j].end_byte == byte_pos(chars, end)
    &&& arena[k] == Some(
        SymbolNode {
            start_byte: syms[j].start_byte,
            end_byte: syms[j].end_byte,
            prev: if j > 0 {
                slots[j - 1] as isize
            } else {
                -1isize
            },
            next: if j + 1 < slots.len() {
                slots[j + 1] as isize
            } else {
                -1isize
            },
            size: (end - k) as usize,
        },
    )
}

/// The arena holds the symbols `syms` of the text `chars`, the symbol `j`
/// in the slot `slots[j]`, and nothing in its other slots.
pub open spec fn arena_holds(
    chars: Seq<char>,
    arena: Seq<Option<SymbolNode>>,
    syms: Seq<Symbol>,
    slots: Seq<int>,
) -> bool {
    &&& arena.len() == chars.len()
    &&& chars.len() <= isize::MAX
    &&& slots.len() == syms.len()
    &&& forall|j: int| 0 <= j < slots.len() ==> #[trigger] slot_holds(chars, arena, syms, slots, j)
    &&& forall|k: int|
        0 <= k < arena.len() && (#[trigger] arena[k]) is Some ==> exists|j: int|
            0 <= j < slots.len() && #[trigger] slots[j] == k
}

/// The slots of the symbols ascend.
pub proof fn lemma_slots_ascend(
    chars: Seq<char>,
    arena: Seq<Option<SymbolNode>>,
    syms: Seq<Symbol>,
    slots: Seq<int>,
    i: int,
    j: int,
)
    requires
        arena_holds(chars, arena, syms, slots),
        0 <= i < j < slots.len(),
    ensures
        0 <= slots[i] < slots[i + 1] <= slots[j] < chars.len(),
    decreases j - i,
{
    assert(slot_holds(chars, arena, syms, slots, i));
    assert(slot_holds(chars, arena, syms, slots, j));
    if i + 1 < j {
        lemma_slots_ascend(chars, arena, syms, slots, i + 1, j);
    }
}

/// The arena of a text before any merge holds the text's code points, each
/// in the slot of its index.
pub proof fn lemma_initial_arena(chars: Seq<char>)
    requires
        encode_utf8(chars).len() <= isize::MAX,
    ensures
        chars.len() <= isize::MAX,
        arena_holds(
            chars,
            initial_arena(chars),
            code_points(chars),
            Seq::new(chars.len(), |j: int| j),
        ),
{
    let arena = initial_arena(chars);
    let syms = code_points(chars);
    let slots = Seq::new(chars.len(), |j: int| j);
    lemma_byte_pos_bounds(chars, 0);
    if chars.len() > 0 {
        lemma_byte_pos_increasing(chars, 0, chars.len() as int);
        lemma_encoding_len(chars, chars.len() as int);
    }
    assert forall|j: int| 0 <= j < slots.len() implies #[trigger] slot_holds(
        chars,
        arena,
        syms,
        slots,
        j,
    ) by {
        lemma_byte_pos_bounds(chars, j);
        lemma_byte_pos_bounds(chars, j + 1);
    }
    assert forall|k: int| 0 <= k < arena.len() && (#[trigger] arena[k]) is Some implies exists|
        j: int,
    | 0 <= j < slots.len() && #[trigger] slots[j] == k by {
        assert(slots[k] == k);
    }
}

/// The candidate's left node stands before its right node, the candidate
/// spans code points of the text, its score is the vocabulary's score of
/// what it spans, and its left node, while it lasts, reaches at least to
/// its right node.
pub open spec fn is_node_candidate(
    vocab: Map<Seq<char>, i64>,
    chars: Seq<char>,
    arena: Seq<Option<SymbolNode>>,
    pair: SymbolNodePair,
) -> bool {
    &&& 0 <= pair.left < pair.right < pair.left + pair.pair_size <= chars.len()
    &&& merge_score(
        vocab,
        encode_utf8(chars),
        byte_pos(chars, pair.left as int),
        byte_pos(chars, pair.left + pair.pair_size),
    ) == Some(pair.score)
    &&& (arena[pair.left as int] is Some ==> arena[pair.left as int].unwrap().size >= pair.right
        - pair.left)
}

/// The agenda holds nothing but candidates.
pub open spec fn agenda_sound(
    vocab: Map<Seq<char>, i64>,
    chars: Seq<char>,
    arena: Seq<Option<SymbolNode>>,
    agenda: Multiset<SymbolNodePair>,
) -> bool {
    forall|pair: SymbolNodePair| #[trigger]
        agenda.contains(pair) ==> is_node_candidate(vocab, chars, arena, pair)
}

/// The candidate that the symbols `j` and `j + 1` make, with a score.
pub open spec fn pair_of_slots(slots: Seq<int>, n: int, j: int, score: i64) -> SymbolNodePair {
    SymbolNodePair {
        left: slots[j] as isize,
        right: slots[j + 1] as isize,
        score,
        pair_size: (slot_end(slots, n, j + 1) - slots[j]) as usize,
    }
}

/// If the vocabulary has a score for the adjacent pair `j`, the agenda
/// holds that pair with that score.
pub open spec fn agenda_covers(
    vocab: Map<Seq<char>, i64>,
    chars: Seq<char>,
    syms: Seq<Symbol>,
    slots: Seq<int>,
    agenda: Multiset<SymbolNodePair>,
    j: int,
) -> bool {
    match pair_score(vocab, encode_utf8(chars), syms, j) {
        Some(score) => agenda.contains(pair_of_slots(slots, chars.len() as int, j, score)),
        None => true,
    }
}

/// The agenda holds each of the first `n` adjacent pairs that the
/// vocabulary has a score for.
pub open spec fn agenda_complete(
    vocab: Map<Seq<char>, i64>,
    chars: Seq<char>,
    syms: Seq<Symbol>,
    slots: Seq<int>,
    agenda: Multiset<SymbolNodePair>,
    n: int,
) -> bool {
    forall|j: int| 0 <= j < n ==> #[trigger] agenda_covers(vocab, chars, syms, slots, agenda, j)
}

/// What holds of the engine between two steps: the arena holds a partition
/// of the text, and the agenda holds candidates only, among them every
/// adjacent pair that the vocabulary has a score for.
pub open spec fn engine_state(
    vocab: Map<Seq<char>, i64>,
    chars: Seq<char>,
    arena: Seq<Option<SymbolNode>>,
    syms: Seq<Symbol>,
    slots: Seq<int>,
    agenda: Multiset<SymbolNodePair>,
) -> bool {
    &&& well_formed(encode_utf8(chars), syms)
    &&& arena_holds(chars, arena, syms, slots)
    &&& agenda_sound(vocab, chars, arena, agenda)
    &&& agenda_complete(vocab, chars, syms, slots, agenda, syms.len() - 1)
}

/// A candidate whose two nodes are there and have its size is a pair of
/// neighbours of the partition, with the score that the vocabulary gives
/// that pair now.
pub proof fn lemma_fresh_candidate(
    vocab: Map<Seq<char>, i64>,
    chars: Seq<char>,
    arena: Seq<Option<SymbolNode>>,
    syms: Seq<Symbol>,
    slots: Seq<int>,
    pair: SymbolNodePair,
) -> (j: int)
    requires
        arena_holds(chars, arena, syms, slots),
        is_node_candidate(vocab, chars, arena, pair),
        can_merge(arena, pair.left as int, pair.right as int, pair.pair_size as int),
    ensures
        0 <= j < syms.len() - 1,
        slots[j] == pair.left,
        slots[j + 1] == pair.right,
        pair == pair_of_slots(slots, chars.len() as int, j, pair.score),
        pair_score(vocab, encode_utf8(chars), syms, j) == Some(pair.score),
{
    let j = choose|j: int| 0 <= j < slots.len() && #[trigger] slots[j] == pair.left as int;
    let j2 = choose|j2: int| 0 <= j2 < slots.len() && #[trigger] slots[j2] == pair.right as int;
    if j2 < j {
        lemma_slots_ascend(chars, arena, syms, slots, j2, j);
    }
    assert(j < j2);
    lemma_slots_ascend(chars, arena, syms, slots, j, j2);
    assert(slot_holds(chars, arena, syms, slots, j));
    assert(slot_holds(chars, arena, syms, slots, j + 1));
    assert(slots[j + 1] == pair.right);
    j
}

/// The candidate that goes before all others on a complete agenda, if it is
/// the pair `i` of the partition, is the pair to merge.
pub proof fn lemma_first_candidate_is_best(
    vocab: Map<Seq<char>, i64>,
    chars: Seq<char>,
    arena: Seq<Option<SymbolNode>>,
    syms: Seq<Symbol>,
    slots: Seq<int>,
    agenda: Multiset<SymbolNodePair>,
    first: SymbolNodePair,
    i: int,
)
    requires
        engine_state(vocab, chars, arena, syms, slots, agenda),
        forall|other: SymbolNodePair| #[trigger]
            agenda.contains(other) ==> key_le(first.key(), other.key()),
        0 <= i < syms.len() - 1,
        slots[i] == first.left,
        pair_score(vocab, encode_utf8(chars), syms, i) == Some(first.score),
    ensures
        best_merge(vocab, encode_utf8(chars), syms) == Some(i),
{
    let bytes = encode_utf8(chars);
    assert forall|j: int| 0 <= j < syms.len() - 1 implies match #[trigger] pair_score(
        vocab,
        bytes,
        syms,
        j,
    ) {
        Some(score) => key_le(
            (pair_score(vocab, bytes, syms, i).unwrap(), syms[i].start_byte as int),
            (score, syms[j].start_byte as int),
        ),
        None => true,
    } by {
        assert(agenda_covers(vocab, chars, syms, slots, agenda, j));
        match pair_score(vocab, bytes, syms, j) {
            Some(score) => {
                let other = pair_of_slots(slots, chars.len() as int, j, score);
                assert(agenda.contains(other));
                assert(key_le(first.key(), other.key()));
                lemma_slots_ascend(chars, arena, syms, slots, j, j + 1);
                if j < i {
                    lemma_slots_ascend(chars, arena, syms, slots, j, i);
                    lemma_starts_increasing(syms, bytes.len() as int, j, i);
                } else if i < j {
                    lemma_starts_increasing(syms, bytes.len() as int, i, j);
                }
            },
            None => {},
        }
    }
    lemma_first_pair_is_best(vocab, bytes, syms, i);
}

/// After the merge of the pair `i` the arena holds the merged partition,
/// the slot of the pair's right symbol left out.
pub proof fn lemma_merged_arena(
    chars: Seq<char>,
    arena: Seq<Option<SymbolNode>>,
    syms: Seq<Symbol>,
    slots: Seq<int>,
    i: int,
)
    requires
        arena_holds(chars, arena, syms, slots),
        0 <= i < syms.len() - 1,
    ensures
        arena_holds(
            chars,
            merged_arena(arena, slots[i], slots[i + 1]),
            merge_at(syms, i),
            slots.remove(i + 1),
        ),
{
    let n = chars.len() as int;
    let after = merged_arena(arena, slots[i], slots[i + 1]);
    let merged = merge_at(syms, i);
    let kept = slots.remove(i + 1);
    lemma_merge_at_index(syms, i);
    assert(slot_holds(chars, arena, syms, slots, i));
    assert(slot_holds(chars, arena, syms, slots, i + 1));
    lemma_slots_ascend(chars, arena, syms, slots, i, i + 1);
    if i + 2 < slots.len() {
        assert(slot_holds(chars, arena, syms, slots, i + 2));
        lemma_slots_ascend(chars, arena, syms, slots, i + 1, i + 2);
    }
    let left = arena[slots[i]].unwrap();
    let right = arena[slots[i + 1]].unwrap();
    let linked = if right.next != -1 {
        relinked(arena, right.next as int, slots[i])
    } else {
        arena
    };
    assert(after == linked.update(slots[i + 1], None).update(
        slots[i],
        Some(merged_node(left, right)),
    ));
    assert(linked.len() == arena.len());
    assert forall|j: int| 0 <= j < kept.len() implies #[trigger] slot_holds(
        chars,
        after,
        merged,
        kept,
        j,
    ) by {
        let k = if j <= i {
            j
        } else {
            j + 1
        };
        assert(kept[j] == slots[k]);
        assert(slot_holds(chars, arena, syms, slots, k));
        if k < i {
            lemma_slots_ascend(chars, arena, syms, slots, k, i);
        }
        if k > i + 1 {
            lemma_slots_ascend(chars, arena, syms, slots, i + 1, k);
        }
        if k > i + 2 {
            lemma_slots_ascend(chars, arena, syms, slots, i + 2, k);
        }
        if j + 1 < kept.len() {
            assert(kept[j + 1] == slots[k + 1 + if k == i {
                1int
            } else {
                0int
            }]);
        }
        if j > 0 {
            assert(kept[j - 1] == slots[if j - 1 <= i {
                j - 1
            } else {
                j
            }]);
        }
        assert(slot_end(kept, n, j) == slot_end(slots, n, if k == i {
            i + 1
        } else {
            k
        }));
        if k == i {
            assert(after[slots[i]] == Some(merged_node(left, right)));
            assert(merged[i].start_byte == syms[i].start_byte);
            assert(merged[i].end_byte == syms[i + 1].end_byte);
        } else if k == i + 2 {
            assert(right.next == slots[i + 2] as isize);
            assert(linked == relinked(arena, slots[i + 2], slots[i]));
            assert(after[slots[k]] == linked[slots[k]]);
            assert(merged[j] == syms[k]);
        } else {
            if right.next != -1 {
                assert(right.next as int == slots[i + 2]);
                if k < i + 2 {
                    lemma_slots_ascend(chars, arena, syms, slots, k, i + 2);
                }
            }
            assert(linked[slots[k]] == arena[slots[k]]);
            assert(after[slots[k]] == linked[slots[k]]);
            assert(merged[j] == syms[k]);
        }
    }
    assert forall|k: int| 0 <= k < arena.len() && k != slots[i] && k != slots[i + 1] implies (
    #[trigger] after[k]) is Some == arena[k] is Some by {
        assert(after[k] == linked[k]);
    }
    assert forall|k: int| 0 <= k < after.len() && (#[trigger] after[k]) is Some implies exists|
        j: int,
    | 0 <= j < kept.len() && #[trigger] kept[j] == k by {
        if k == slots[i] {
            assert(kept[i] == k);
        } else {
            assert(arena[k] is Some);
            let j = choose|j: int| 0 <= j < slots.len() && #[trigger] slots[j] == k;
            assert(j != i + 1);
            if j < i {
                assert(kept[j] == k);
            } else {
                assert(kept[j - 1] == k);
            }
        }
    }
}

/// A node of the arena spans no more code points than the text has, and
/// its link to the next node is an index of the arena, or -1.
pub proof fn lemma_live_node(
    chars: Seq<char>,
    arena: Seq<Option<SymbolNode>>,
    syms: Seq<Symbol>,
    slots: Seq<int>,
    k: int,
)
    requires
        arena_holds(chars, arena, syms, slots),
        0 <= k < arena.len(),
        arena[k] is Some,
    ensures
        1 <= arena[k].unwrap().size <= chars.len(),
        arena[k].unwrap().next == -1 || 0 <= arena[k].unwrap().next < arena.len(),
        arena[k].unwrap().size + chars.len() <= usize::MAX,
{
    let j = choose|j: int| 0 <= j < slots.len() && #[trigger] slots[j] == k;
    assert(slot_holds(chars, arena, syms, slots, j));
    if j + 1 < slots.len() {
        assert(slot_holds(chars, arena, syms, slots, j + 1));
    }
}

/// What the slots of the arena hold after the merge of the pair `i`: the
/// merged node, nothing where the right symbol was, and elsewhere a node of
/// the size that was there before, or nothing as before.
pub proof fn lemma_merged_arena_nodes(
    chars: Seq<char>,
    arena: Seq<Option<SymbolNode>>,
    syms: Seq<Symbol>,
    slots: Seq<int>,
    i: int,
)
    requires
        arena_holds(chars, arena, syms, slots),
        0 <= i < syms.len() - 1,
    ensures
        ({
            let after = merged_arena(arena, slots[i], slots[i + 1]);
            &&& after.len() == arena.len()
            &&& after[slots[i + 1]] is None
            &&& after[slots[i]] == Some(
                merged_node(arena[slots[i]].unwrap(), arena[slots[i + 1]].unwrap()),
            )
            &&& forall|k: int|
                0 <= k < arena.len() && k != slots[i] && k != slots[i + 1] ==> match #[trigger] after[k] {
                    Some(node) => arena[k] is Some && node.size == arena[k].unwrap().size,
                    None => arena[k] is None,
                }
        }),
{
    assert(slot_holds(chars, arena, syms, slots, i));
    assert(slot_holds(chars, arena, syms, slots, i + 1));
    lemma_slots_ascend(chars, arena, syms, slots, i, i + 1);
    if i + 2 < slots.len() {
        assert(slot_holds(chars, arena, syms, slots, i + 2));
        lemma_slots_ascend(chars, arena, syms, slots, i + 1, i + 2);
    }
    let after = merged_arena(arena, slots[i], slots[i + 1]);
    let left = arena[slots[i]].unwrap();
    let right = arena[slots[i + 1]].unwrap();
    let linked = if right.next != -1 {
        relinked(arena, right.next as int, slots[i])
    } else {
        arena
    };
    assert(linked.len() == arena.len());
    assert(after == linked.update(slots[i + 1], None).update(
        slots[i],
        Some(merged_node(left, right)),
    ));
    assert forall|k: int|
        0 <= k < arena.len() && k != slots[i] && k != slots[i + 1] implies match #[trigger] after[k] {
        Some(node) => arena[k] is Some && node.size == arena[k].unwrap().size,
        None => arena[k] is None,
    } by {
        assert(after[k] == linked[k]);
    }
}

/// What the agenda holds after the adjacent pair `j` has been offered to it.
pub open spec fn agenda_with(
    vocab: Map<Seq<char>, i64>,
    chars: Seq<char>,
    syms: Seq<Symbol>,
    slots: Seq<int>,
    agenda: Multiset<SymbolNodePair>,
    j: int,
) -> Multiset<SymbolNodePair> {
    match pair_score(vocab, encode_utf8(chars), syms, j) {
        Some(score) => agenda.insert(pair_of_slots(slots, chars.len() as int, j, score)),
        None => agenda,
    }
}

/// Offering an adjacent pair to the agenda keeps what it held, and makes
/// it cover that pair.
pub proof fn lemma_agenda_with(
    vocab: Map<Seq<char>, i64>,
    chars: Seq<char>,
    arena: Seq<Option<SymbolNode>>,
    syms: Seq<Symbol>,
    slots: Seq<int>,
    agenda: Multiset<SymbolNodePair>,
    j: int,
)
    requires
        arena_holds(chars, arena, syms, slots),
        agenda_sound(vocab, chars, arena, agenda),
        0 <= j < syms.len() - 1,
    ensures
        agenda_sound(vocab, chars, arena, agenda_with(vocab, chars, syms, slots, agenda, j)),
        agenda_covers(
            vocab,
            chars,
            syms,
            slots,
            agenda_with(vocab, chars, syms, slots, agenda, j),
            j,
        ),
        forall|k: int|
            agenda_covers(vocab, chars, syms, slots, agenda, k) ==> #[trigger] agenda_covers(
                vocab,
                chars,
                syms,
                slots,
                agenda_with(vocab, chars, syms, slots, agenda, j),
                k,
            ),
        agenda_with(vocab, chars, syms, slots, agenda, j).len() <= agenda.len() + 1,
{
    let n = chars.len() as int;
    let after = agenda_with(vocab, chars, syms, slots, agenda, j);
    match pair_score(vocab, encode_utf8(chars), syms, j) {
        Some(score) => {
            let added = pair_of_slots(slots, n, j, score);
            assert(slot_holds(chars, arena, syms, slots, j));
            assert(slot_holds(chars, arena, syms, slots, j + 1));
            assert(is_node_candidate(vocab, chars, arena, added));
            assert forall|pair: SymbolNodePair| #[trigger] after.contains(pair) implies is_node_candidate(
                vocab,
                chars,
                arena,
                pair,
            ) by {
                lemma_insert_contains(agenda, added, pair);
            }
            assert forall|k: int| agenda_covers(vocab, chars, syms, slots, agenda, k) implies #[trigger] agenda_covers(
                vocab,
                chars,
                syms,
                slots,
                after,
                k,
            ) by {
                match pair_score(vocab, encode_utf8(chars), syms, k) {
                    Some(other) => {
                        lemma_insert_contains(agenda, added, pair_of_slots(slots, n, k, other));
                    },
                    None => {},
                }
            }
            lemma_insert_contains(agenda, added, added);
        },
        None => {},
    }
}

/// After the merge of the pair `i`, once that pair has left the agenda, the
/// agenda holds candidates only.
pub proof fn lemma_agenda_sound_after_merge(
    vocab: Map<Seq<char>, i64>,
    chars: Seq<char>,
    arena: Seq<Option<SymbolNode>>,
    syms: Seq<Symbol>,
    slots: Seq<int>,
    agenda: Multiset<SymbolNodePair>,
    first: SymbolNodePair,
    i: int,
)
    requires
        arena_holds(chars, arena, syms, slots),
        agenda_sound(vocab, chars, arena, agenda),
        agenda.contains(first),
        0 <= i < syms.len() - 1,
    ensures
        agenda_sound(
            vocab,
            chars,
            merged_arena(arena, slots[i], slots[i + 1]),
            agenda.remove(first),
        ),
{
    let after = merged_arena(arena, slots[i], slots[i + 1]);
    let rest = agenda.remove(first);
    lemma_merged_arena_nodes(chars, arena, syms, slots, i);
    assert(slot_holds(chars, arena, syms, slots, i));
    assert(slot_holds(chars, arena, syms, slots, i + 1));
    assert forall|pair: SymbolNodePair| #[trigger] rest.contains(pair) implies is_node_candidate(
        vocab,
        chars,
        after,
        pair,
    ) by {
        lemma_remove_contains(agenda, first, pair);
        assert(is_node_candidate(vocab, chars, arena, pair));
        let k = pair.left as int;
        if k != slots[i] && k != slots[i + 1] {
            assert(match after[k] {
                Some(node) => arena[k] is Some && node.size == arena[k].unwrap().size,
                None => arena[k] is None,
            });
        }
    }
}

/// After the merge of the pair `i`, once that pair has left the agenda, the
/// agenda still covers every pair of the merged partition but the two that
/// the new symbol is part of.
pub proof fn lemma_agenda_after_merge(
    vocab: Map<Seq<char>, i64>,
    chars: Seq<char>,
    arena: Seq<Option<SymbolNode>>,
    syms: Seq<Symbol>,
    slots: Seq<int>,
    agenda: Multiset<SymbolNodePair>,
    first: SymbolNodePair,
    i: int,
)
    requires
        engine_state(vocab, chars, arena, syms, slots, agenda),
        agenda.contains(first),
        0 <= i < syms.len() - 1,
        first == pair_of_slots(slots, chars.len() as int, i, first.score),
    ensures
        forall|j: int|
            0 <= j < syms.len() - 2 && j != i && j != i - 1 ==> #[trigger] agenda_covers(
                vocab,
                chars,
                merge_at(syms, i),
                slots.remove(i + 1),
                agenda.remove(first),
                j,
            ),
{
    let n = chars.len() as int;
    let bytes = encode_utf8(chars);
    let merged = merge_at(syms, i);
    let kept = slots.remove(i + 1);
    let rest = agenda.remove(first);
    lemma_merge_at_index(syms, i);
    assert forall|j: int| 0 <= j < syms.len() - 2 && j != i && j != i - 1 implies #[trigger] agenda_covers(
        vocab,
        chars,
        merged,
        kept,
        rest,
        j,
    ) by {
        let k = if j < i {
            j
        } else {
            j + 1
        };
        assert(merged[j] == syms[k]);
        assert(merged[j + 1] == syms[k + 1]);
        assert(kept[j] == slots[k]);
        assert(kept[j + 1] == slots[k + 1]);
        assert(slot_end(kept, n, j + 1) == slot_end(slots, n, k + 1));
        assert(agenda_covers(vocab, chars, syms, slots, agenda, k));
        if k < i {
            lemma_slots_ascend(chars, arena, syms, slots, k, i);
        } else {
            lemma_slots_ascend(chars, arena, syms, slots, i, k);
        }
        match pair_score(vocab, bytes, merged, j) {
            Some(score) => {
                assert(pair_of_slots(kept, n, j, score) == pair_of_slots(slots, n, k, score));
                lemma_remove_contains(agenda, first, pair_of_slots(slots, n, k, score));
            },
            None => {},
        }
    }
}

/// A candidate whose nodes are not both there with its size is no pair of
/// the partition: without it the agenda is as complete as before.
pub proof fn lemma_agenda_without_stale(
    vocab: Map<Seq<char>, i64>,
    chars: Seq<char>,
    arena: Seq<Option<SymbolNode>>,
    syms: Seq<Symbol>,
    slots: Seq<int>,
    agenda: Multiset<SymbolNodePair>,
    first: SymbolNodePair,
)
    requires
        engine_state(vocab, chars, arena, syms, slots, agenda),
        agenda.contains(first),
        !can_merge(arena, first.left as int, first.right as int, first.pair_size as int),
    ensures
        engine_state(vocab, chars, arena, syms, slots, agenda.remove(first)),
{
    let n = chars.len() as int;
    let rest = agenda.remove(first);
    assert forall|pair: SymbolNodePair| #[trigger] rest.contains(pair) implies is_node_candidate(
        vocab,
        chars,
        arena,
        pair,
    ) by {
        lemma_remove_contains(agenda, first, pair);
    }
    assert forall|j: int| 0 <= j < syms.len() - 1 implies #[trigger] agenda_covers(
        vocab,
        chars,
        syms,
        slots,
        rest,
        j,
    ) by {
        assert(agenda_covers(vocab, chars, syms, slots, agenda, j));
        assert(slot_holds(chars, arena, syms, slots, j));
        assert(slot_holds(chars, arena, syms, slots, j + 1));
        match pair_score(vocab, encode_utf8(chars), syms, j) {
            Some(score) => {
                lemma_remove_contains(agenda, first, pair_of_slots(slots, n, j, score));
            },
            None => {},
        }
    }
}

/// An agenda on which nothing waits, and which is complete, shows that the
/// merging has come to its end.
pub proof fn lemma_empty_agenda(
    vocab: Map<Seq<char>, i64>,
    chars: Seq<char>,
    syms: Seq<Symbol>,
    slots: Seq<int>,
    agenda: Multiset<SymbolNodePair>,
)
    requires
        agenda_complete(vocab, chars, syms, slots, agenda, syms.len() - 1),
        agenda.len() == 0,
    ensures
        merge_all(vocab, encode_utf8(chars), syms) == syms,
{
    assert forall|j: int| 0 <= j < syms.len() - 1 implies #[trigger] pair_score(
        vocab,
        encode_utf8(chars),
        syms,
        j,
    ) is None by {
        assert(agenda_covers(vocab, chars, syms, slots, agenda, j));
    }
    lemma_no_pair_no_merge(vocab, encode_utf8(chars), syms);
}

impl PriorityQueueBpeLLTokenizer {
    /// A tokenizer for the model that the bytes encode. It fails where the
    /// model cannot be read.
    pub fn new(model: &[u8]) -> (tokenizer: Result<Self, ModelError>)
        ensures
            match (tokenizer, pieces_of_model(model@)) {
                (Ok(tokenizer), Ok(pieces)) => tokenizer.vocab() == vocab_of(pieces),
                (Err(error), Err(flaw)) => error.flaw() == flaw,
                _ => false,
            },
    {
        match read_model(model) {
            Ok(merges_vocab) => Ok(Self { merges_vocab }),
            Err(error) => Err(error),
        }
    }

    /// A tokenizer for a model's list of pieces.
    pub fn from_pieces(pieces: &Vec<String>) -> (tokenizer: Self)
        requires
            pieces.len() <= i64::MAX,
        ensures
            tokenizer.vocab() == vocab_of(piece_views(pieces@)),
    {
        Self { merges_vocab: read_vocab(pieces) }
    }

    /// Puts the pair of the two nodes on the agenda if both indices stand
    /// for a node and the text that the nodes span is a piece of the
    /// vocabulary, with that piece's score and the nodes' joint size.
    pub fn maybe_add_pair(
        &self,
        left_symbol_index: isize,
        right_symbol_index: isize,
        input_text: &str,
        symbols: &Vec<Option<SymbolNode>>,
        agenda: &mut Agenda<SymbolNodePair>,
    )
        requires
            left_symbol_index == -1 || 0 <= left_symbol_index < symbols@.len(),
            right_symbol_index == -1 || 0 <= right_symbol_index < symbols@.len(),
            left_symbol_index != -1 && right_symbol_index != -1
                && symbols@[left_symbol_index as int] is Some
                && symbols@[right_symbol_index as int] is Some ==> {
                let left = symbols@[left_symbol_index as int].unwrap();
                let right = symbols@[right_symbol_index as int].unwrap();
                &&& left.start_byte <= right.end_byte <= input_text.spec_bytes().len()
                &&& is_char_boundary(input_text.spec_bytes(), left.start_byte as int)
                &&& is_char_boundary(input_text.spec_bytes(), right.end_byte as int)
                &&& left.size + right.size <= usize::MAX
            },
        ensures
            final(agenda)@ == (if left_symbol_index != -1 && right_symbol_index != -1
                && symbols@[left_symbol_index as int] is Some
                && symbols@[right_symbol_index as int] is Some {
                match merge_score(
                    self.vocab(),
                    input_text.spec_bytes(),
                    symbols@[left_symbol_index as int].unwrap().start_byte as int,
                    symbols@[right_symbol_index as int].unwrap().end_byte as int,
                ) {
                    Some(score) => old(agenda)@.insert(
                        node_pair(
                            symbols@,
                            left_symbol_index as int,
                            right_symbol_index as int,
                            score,
                        ),
                    ),
                    None => old(agenda)@,
                }
            } else {
                old(agenda)@
            }),
    {
        if left_symbol_index != -1 && right_symbol_index != -1 {
            match (symbols[left_symbol_index as usize], symbols[right_symbol_index as usize]) {
                (Some(left_symbol), Some(right_symbol)) => {
                    let left = Symbol {
                        start_byte: left_symbol.start_byte,
                        end_byte: left_symbol.end_byte,
                    };
                    let right = Symbol {
                        start_byte: right_symbol.start_byte,
                        end_byte: right_symbol.end_byte,
                    };
                    match get_merge_score(&self.merges_vocab, &left, &right, input_text) {
                        Some(score) => {
                            agenda.push(
                                SymbolNodePair {
                                    left: left_symbol_index,
                                    right: right_symbol_index,
                                    score,
                                    pair_size: left_symbol.size + right_symbol.size,
                                },
                            );
                        },
                        None => {},
                    }
                },
                _ => {},
            }
        }
    }

    /// The arena of a text: one node for each code point, each linked to
    /// the node before it and the node after it.
    pub fn pre_populate_symbols(input_text: &str) -> (symbols: Vec<Option<SymbolNode>>)
        requires
            input_text.spec_bytes().len() <= isize::MAX,
        ensures
            symbols@ == initial_arena(input_text@),
    {
        broadcast use group_string_axioms;

        let ghost chars = input_text@;
        let total = input_text.as_bytes().len();
        let mut symbols: Vec<Option<SymbolNode>> = Vec::with_capacity(total);
        let mut character_start: usize = 0;
        let mut index: usize = 0;
        proof {
            lemma_byte_pos_bounds(chars, 0);
        }
        for character in it: input_text.chars()
            invariant
                it.seq() == chars,
                total == encode_utf8(chars).len(),
                total <= isize::MAX,
                index == it.index(),
                index <= character_start,
                character_start == byte_pos(chars, it.index() as int),
                symbols@.len() == index,
                forall|k: int|
                    0 <= k < index ==> #[trigger] symbols@[k] == Some(
                        SymbolNode {
                            start_byte: byte_pos(chars, k) as usize,
                            end_byte: byte_pos(chars, k + 1) as usize,
                            prev: (k - 1) as isize,
                            next: (k + 1) as isize,
                            size: 1,
                        },
                    ),
        {
            proof {
                lemma_byte_pos_step(chars, index as int);
                lemma_byte_pos_bounds(chars, index + 1);
            }
            let character_end = character_start + character.len_utf8();
            symbols.push(
                Some(
                    SymbolNode {
                        start_byte: character_start,
                        end_byte: character_end,
                        prev: index as isize - 1,
                        next: (index + 1) as isize,
                        size: 1,
                    },
                ),
            );
            character_start = character_end;
            index = index + 1;
        }
        if index > 0 {
            match symbols[index - 1] {
                Some(last) => {
                    symbols.set(
                        index - 1,
                        Some(
                            SymbolNode {
                                start_byte: last.start_byte,
                                end_byte: last.end_byte,
                                prev: last.prev,
                                next: -1,
                                size: last.size,
                            },
                        ),
                    );
                },
                None => {},
            }
        }
        assert(symbols@ =~= initial_arena(chars));
        symbols
    }

    /// Merges the node at `symbol_2_index` into the node at
    /// `symbol_1_index` if both slots hold a node and the two nodes span
    /// `size_validation` code points together; the merged node is returned.
    /// Otherwise nothing changes and `None` is returned.
    pub fn merge_symbols_from_indices(
        &self,
        symbols: &mut Vec<Option<SymbolNode>>,
        symbol_1_index: usize,
        symbol_2_index: usize,
        size_validation: usize,
    ) -> (new_symbol: Option<SymbolNode>)
        requires
            symbol_1_index < old(symbols)@.len() <= isize::MAX,
            symbol_2_index < old(symbols)@.len(),
            old(symbols)@[symbol_1_index as int] is Some && old(symbols)@[symbol_2_index as int]
                is Some ==> {
                let left = old(symbols)@[symbol_1_index as int].unwrap();
                let right = old(symbols)@[symbol_2_index as int].unwrap();
                &&& left.size + right.size <= usize::MAX
                &&& right.next == -1 || 0 <= right.next < old(symbols)@.len()
            },
        ensures
            can_merge(
                old(symbols)@,
                symbol_1_index as int,
                symbol_2_index as int,
                size_validation as int,
            ) ==> final(symbols)@ == merged_arena(
                old(symbols)@,
                symbol_1_index as int,
                symbol_2_index as int,
            ) && new_symbol == final(symbols)@[symbol_1_index as int] && new_symbol is Some,
            !can_merge(
                old(symbols)@,
                symbol_1_index as int,
                symbol_2_index as int,
                size_validation as int,
            ) ==> final(symbols)@ == old(symbols)@ && new_symbol is None,
    {
        match (symbols[symbol_1_index], symbols[symbol_2_index]) {
            (Some(left_symbol), Some(right_symbol)) => {
                if left_symbol.size + right_symbol.size != size_validation {
                    return None;
                }
                if right_symbol.next != -1 {
                    let next_index = right_symbol.next as usize;
                    match symbols[next_index] {
                        Some(next_next) => {
                            symbols.set(
                                next_index,
                                Some(
                                    SymbolNode {
                                        start_byte: next_next.start_byte,
                                        end_byte: next_next.end_byte,
                                        prev: symbol_1_index as isize,
                                        next: next_next.next,
                                        size: next_next.size,
                                    },
                                ),
                            );
                        },
                        None => {},
                    }
                }
                let new_symbol = SymbolNode {
                    start_byte: left_symbol.start_byte,
                    end_byte: right_symbol.end_byte,
                    prev: left_symbol.prev,
                    next: right_symbol.next,
                    size: left_symbol.size + right_symbol.size,
                };
                symbols.set(symbol_2_index, None);
                symbols.set(symbol_1_index, Some(new_symbol));
                Some(new_symbol)
            },
            _ => None,
        }
    }
}

impl PriorityQueueBpeLLTokenizer {
    /// Offers the adjacent pair `j` of the partition to the agenda, by the
    /// arena indices of its two nodes; where one of the two indices is -1
    /// there is no such pair, and nothing is offered.
    fn offer_pair(
        &self,
        left_symbol_index: isize,
        right_symbol_index: isize,
        input_text: &str,
        symbols: &Vec<Option<SymbolNode>>,
        agenda: &mut Agenda<SymbolNodePair>,
        Ghost(syms): Ghost<Seq<Symbol>>,
        Ghost(slots): Ghost<Seq<int>>,
        Ghost(j): Ghost<int>,
    )
        requires
            well_formed(input_text.spec_bytes(), syms),
            arena_holds(input_text@, symbols@, syms, slots),
            agenda_sound(self.vocab(), input_text@, symbols@, old(agenda)@),
            left_symbol_index == -1 || 0 <= left_symbol_index < symbols@.len(),
            right_symbol_index == -1 || 0 <= right_symbol_index < symbols@.len(),
            0 <= j < syms.len() - 1 ==> left_symbol_index == slots[j] && right_symbol_index
                == slots[j + 1],
            !(0 <= j < syms.len() - 1) ==> left_symbol_index == -1 || right_symbol_index == -1,
        ensures
            agenda_sound(self.vocab(), input_text@, symbols@, final(agenda)@),
            0 <= j < syms.len() - 1 ==> agenda_covers(
                self.vocab(),
                input_text@,
                syms,
                slots,
                final(agenda)@,
                j,
            ),
            forall|k: int|
                agenda_covers(self.vocab(), input_text@, syms, slots, old(agenda)@, k)
                    ==> #[trigger] agenda_covers(
                    self.vocab(),
                    input_text@,
                    syms,
                    slots,
                    final(agenda)@,
                    k,
                ),
            final(agenda)@.len() <= old(agenda)@.len() + 1,
    {
        proof {
            if 0 <= j < syms.len() - 1 {
                let len = input_text.spec_bytes().len() as int;
                lemma_starts_increasing(syms, len, j, j + 1);
                lemma_symbol_in_range(syms, len, j + 1);
                lemma_slots_ascend(input_text@, symbols@, syms, slots, j, j + 1);
                assert(slot_holds(input_text@, symbols@, syms, slots, j));
                assert(slot_holds(input_text@, symbols@, syms, slots, j + 1));
                lemma_agenda_with(self.vocab(), input_text@, symbols@, syms, slots, agenda@, j);
            }
        }
        self.maybe_add_pair(left_symbol_index, right_symbol_index, input_text, symbols, agenda);
    }

    /// Offers to the agenda the two pairs that the node just merged is part
    /// of.
    fn reseed(
        &self,
        symbols: &Vec<Option<SymbolNode>>,
        agenda: &mut Agenda<SymbolNodePair>,
        symbol_pair: &SymbolNodePair,
        new_symbol: &SymbolNode,
        input_text: &str,
        Ghost(arena): Ghost<Seq<Option<SymbolNode>>>,
        Ghost(old_syms): Ghost<Seq<Symbol>>,
        Ghost(old_slots): Ghost<Seq<int>>,
        Ghost(before): Ghost<Multiset<SymbolNodePair>>,
    ) -> (merged: Ghost<(Seq<Symbol>, Seq<int>)>)
        requires
            engine_state(self.vocab(), input_text@, arena, old_syms, old_slots, before),
            before.contains(*symbol_pair),
            old(agenda)@ == before.remove(*symbol_pair),
            forall|other: SymbolNodePair| #[trigger]
                before.contains(other) ==> key_le(symbol_pair.key(), other.key()),
            can_merge(
                arena,
                symbol_pair.left as int,
                symbol_pair.right as int,
                symbol_pair.pair_size as int,
            ),
            symbols@ == merged_arena(arena, symbol_pair.left as int, symbol_pair.right as int),
            Some(*new_symbol) == symbols@[symbol_pair.left as int],
        ensures
            engine_state(
                self.vocab(),
                input_text@,
                symbols@,
                merged@.0,
                merged@.1,
                final(agenda)@,
            ),
            merge_all(self.vocab(), input_text.spec_bytes(), merged@.0) == merge_all(
                self.vocab(),
                input_text.spec_bytes(),
                old_syms,
            ),
            final(agenda)@.len() + 3 * merged@.0.len() < before.len() + 3 * old_syms.len(),
    {
        let ghost chars = input_text@;
        let ghost bytes = input_text.spec_bytes();
        let ghost vocab = self.vocab();
        let ghost i = lemma_fresh_candidate(vocab, chars, arena, old_syms, old_slots, *symbol_pair);
        let ghost syms = merge_at(old_syms, i);
        let ghost slots = old_slots.remove(i + 1);
        proof {
            lemma_remove_contains(before, *symbol_pair, *symbol_pair);
            lemma_first_candidate_is_best(
                vocab,
                chars,
                arena,
                old_syms,
                old_slots,
                before,
                *symbol_pair,
                i,
            );
            lemma_agenda_sound_after_merge(
                vocab,
                chars,
                arena,
                old_syms,
                old_slots,
                before,
                *symbol_pair,
                i,
            );
            lemma_agenda_after_merge(
                vocab,
                chars,
                arena,
                old_syms,
                old_slots,
                before,
                *symbol_pair,
                i,
            );
            lemma_merge_at(bytes, old_syms, i);
            lemma_merge_at_index(old_syms, i);
            lemma_merged_arena(chars, arena, old_syms, old_slots, i);
            assert(slot_holds(chars, symbols@, syms, slots, i));
            if i > 0 {
                assert(slots[i - 1] == old_slots[i - 1]);
                assert(slot_holds(chars, symbols@, syms, slots, i - 1));
            }
            if i + 1 < slots.len() {
                assert(slots[i + 1] == old_slots[i + 2]);
                assert(slot_holds(chars, symbols@, syms, slots, i + 1));
            }
        }
        let ghost start = agenda@;
        self.offer_pair(
            new_symbol.prev,
            symbol_pair.left,
            input_text,
            symbols,
            agenda,
            Ghost(syms),
            Ghost(slots),
            Ghost(i - 1),
        );
        let ghost with_prev = agenda@;
        self.offer_pair(
            symbol_pair.left,
            new_symbol.next,
            input_text,
            symbols,
            agenda,
            Ghost(syms),
            Ghost(slots),
            Ghost(i),
        );
        proof {
            assert forall|j: int| 0 <= j < syms.len() - 1 implies #[trigger] agenda_covers(
                vocab,
                chars,
                syms,
                slots,
                agenda@,
                j,
            ) by {
                if j != i && j != i - 1 {
                    assert(agenda_covers(vocab, chars, syms, slots, start, j));
                    assert(agenda_covers(vocab, chars, syms, slots, with_prev, j));
                } else if j == i - 1 {
                    assert(agenda_covers(vocab, chars, syms, slots, with_prev, j));
                }
            }
        }
        Ghost((syms, slots))
    }

    /// One step of the engine on the candidate that came first from the
    /// agenda: if its two nodes are still what they were, they are merged
    /// and the pairs of the new node are offered; if not, it is passed over.
    fn merge_step(
        &self,
        symbols: &mut Vec<Option<SymbolNode>>,
        agenda: &mut Agenda<SymbolNodePair>,
        symbol_pair: &SymbolNodePair,
        input_text: &str,
        Ghost(old_syms): Ghost<Seq<Symbol>>,
        Ghost(old_slots): Ghost<Seq<int>>,
        Ghost(before): Ghost<Multiset<SymbolNodePair>>,
    ) -> (merged: Ghost<(Seq<Symbol>, Seq<int>)>)
        requires
            engine_state(self.vocab(), input_text@, old(symbols)@, old_syms, old_slots, before),
            before.contains(*symbol_pair),
            old(agenda)@ == before.remove(*symbol_pair),
            forall|other: SymbolNodePair| #[trigger]
                before.contains(other) ==> key_le(symbol_pair.key(), other.key()),
        ensures
            engine_state(
                self.vocab(),
                input_text@,
                final(symbols)@,
                merged@.0,
                merged@.1,
                final(agenda)@,
            ),
            merge_all(self.vocab(), input_text.spec_bytes(), merged@.0) == merge_all(
                self.vocab(),
                input_text.spec_bytes(),
                old_syms,
            ),
            final(agenda)@.len() + 3 * merged@.0.len() < before.len() + 3 * old_syms.len(),
    {
        let ghost chars = input_text@;
        let ghost arena = symbols@;
        let left_symbol_index = symbol_pair.left;
        let right_symbol_index = symbol_pair.right;
        proof {
            lemma_remove_contains(before, *symbol_pair, *symbol_pair);
            assert(is_node_candidate(self.vocab(), chars, arena, *symbol_pair));
            if arena[left_symbol_index as int] is Some {
                lemma_live_node(chars, arena, old_syms, old_slots, left_symbol_index as int);
            }
            if arena[right_symbol_index as int] is Some {
                lemma_live_node(chars, arena, old_syms, old_slots, right_symbol_index as int);
            }
            if !can_merge(
                arena,
                left_symbol_index as int,
                right_symbol_index as int,
                symbol_pair.pair_size as int,
            ) {
                lemma_agenda_without_stale(
                    self.vocab(),
                    chars,
                    arena,
                    old_syms,
                    old_slots,
                    before,
                    *symbol_pair,
                );
            }
        }
        if left_symbol_index != -1 && right_symbol_index != -1 {
            let new_symbol = self.merge_symbols_from_indices(
                symbols,
                left_symbol_index as usize,
                right_symbol_index as usize,
                symbol_pair.pair_size,
            );
            match new_symbol {
                Some(new_symbol) => self.reseed(
                    symbols,
                    agenda,
                    symbol_pair,
                    &new_symbol,
                    input_text,
                    Ghost(arena),
                    Ghost(old_syms),
                    Ghost(old_slots),
                    Ghost(before),
                ),
                None => Ghost((old_syms, old_slots)),
            }
        } else {
            Ghost((old_syms, old_slots))
        }
    }

    /// The symbols that the arena holds, in the order of the text.
    fn live_symbols(
        symbols: &Vec<Option<SymbolNode>>,
        Ghost(chars): Ghost<Seq<char>>,
        Ghost(syms): Ghost<Seq<Symbol>>,
        Ghost(slots): Ghost<Seq<int>>,
    ) -> (live: Vec<Symbol>)
        requires
            arena_holds(chars, symbols@, syms, slots),
        ensures
            live@ == syms,
    {
        let mut live: Vec<Symbol> = Vec::new();
        let mut index: usize = 0;
        proof {
            if syms.len() > 0 {
                assert(slot_holds(chars, symbols@, syms, slots, 0));
            }
        }
        while index < symbols.len()
            invariant
                index <= symbols@.len(),
                arena_holds(chars, symbols@, syms, slots),
                live@.len() <= syms.len(),
                live@ == syms.take(live@.len() as int),
                live@.len() < syms.len() ==> slots[live@.len() as int] >= index,
                live@.len() > 0 ==> slots[live@.len() - 1] < index,
            decreases symbols@.len() - index,
        {
            let ghost count = live@.len() as int;
            match symbols[index] {
                Some(symbol) => {
                    proof {
                        let j = choose|j: int| 0 <= j < slots.len() && #[trigger] slots[j] == index as int;
                        if j < count - 1 {
                            lemma_slots_ascend(chars, symbols@, syms, slots, j, count - 1);
                        }
                        if j > count {
                            lemma_slots_ascend(chars, symbols@, syms, slots, count, j);
                        }
                        assert(j == count);
                        assert(slot_holds(chars, symbols@, syms, slots, j));
                        if j + 1 < slots.len() {
                            lemma_slots_ascend(chars, symbols@, syms, slots, j, j + 1);
                        }
                    }
                    live.push(Symbol { start_byte: symbol.start_byte, end_byte: symbol.end_byte });
                    assert(live@ =~= syms.take(count + 1));
                },
                None => {
                    proof {
                        if count < syms.len() {
                            assert(slot_holds(chars, symbols@, syms, slots, count));
                        }
                    }
                },
            }
            index += 1;
        }
        proof {
            if live@.len() < syms.len() {
                assert(slot_holds(chars, symbols@, syms, slots, live@.len() as int));
            }
            assert(syms.take(syms.len() as int) =~= syms);
        }
        live
    }
}

impl BpeTokenizer for PriorityQueueBpeLLTokenizer {
    closed spec fn vocab(&self) -> Map<Seq<char>, i64> {
        self.merges_vocab@
    }

    fn get_merges_vocab(&self) -> (vocab: &MergesVocab) {
        &self.merges_vocab
    }

    /// Cuts `input_text` by taking candidate merges from the agenda, best
    /// first, and passing over those whose nodes have changed since.
    fn tokenize<'a>(&self, input_text: &'a str) -> (output: Vec<&'a str>)
        ensures
            slices_match(
                input_text.spec_bytes(),
                tokenization(self.vocab(), input_text@),
                output@,
            ),
    {
        let ghost orig = input_text@;
        let ghost pre = pre_chars(orig, WHITESPACE_TOKEN);
        let ghost bytes = encode_utf8(pre);
        let ghost vocab = self.vocab();
        let orig_len = input_text.as_bytes().len();
        let (text, byte_mapping) = pre_process_text(input_text, WHITESPACE_TOKEN);
        let mut symbols = Self::pre_populate_symbols(text.as_str());
        let mut agenda: Agenda<SymbolNodePair> = Agenda::new();
        let ghost mut syms = code_points(pre);
        let ghost mut slots = Seq::new(pre.len(), |j: int| j);
        proof {
            lemma_code_points_well_formed(pre);
            lemma_initial_arena(pre);
        }
        let mut symbol_index: usize = 1;
        while symbol_index < symbols.len()
            invariant
                1 <= symbol_index,
                text@ == pre,
                bytes == encode_utf8(pre),
                vocab == self.vocab(),
                slots == Seq::new(pre.len(), |j: int| j),
                well_formed(bytes, syms),
                arena_holds(pre, symbols@, syms, slots),
                agenda_sound(vocab, pre, symbols@, agenda@),
                agenda_complete(vocab, pre, syms, slots, agenda@, symbol_index - 1),
            decreases symbols@.len() - symbol_index,
        {
            self.offer_pair(
                symbol_index as isize - 1,
                symbol_index as isize,
                text.as_str(),
                &symbols,
                &mut agenda,
                Ghost(syms),
                Ghost(slots),
                Ghost(symbol_index - 1),
            );
            symbol_index += 1;
        }
        loop
            invariant
                text@ == pre,
                bytes == encode_utf8(pre),
                vocab == self.vocab(),
                engine_state(vocab, pre, symbols@, syms, slots, agenda@),
                merge_all(vocab, bytes, syms) == merged_symbols(vocab, orig),
            ensures
                agenda@.len() == 0,
            decreases agenda@.len() + 3 * syms.len(),
        {
            let ghost before = agenda@;
            let symbol_pair = match agenda.pop() {
                Some(symbol_pair) => symbol_pair,
                None => {
                    break ;
                },
            };
            let merged = self.merge_step(
                &mut symbols,
                &mut agenda,
                &symbol_pair,
                text.as_str(),
                Ghost(syms),
                Ghost(slots),
                Ghost(before),
            );
            proof {
                syms = merged@.0;
                slots = merged@.1;
            }
        }
        proof {
            lemma_empty_agenda(vocab, pre, syms, slots, agenda@);
            lemma_project_segmentation(orig, WHITESPACE_TOKEN, syms);
        }
        let merged = Self::live_symbols(&symbols, Ghost(pre), Ghost(syms), Ghost(slots));
        project_symbols(input_text, &byte_mapping, &merged)
    }
}

} // verus!
