use bpe_example::bpe_base::BpeTokenizer;
use bpe_example::naive_bpe::NaiveBpeTokenizer;
use bpe_example::naive_pre_split_bpe::NaivePreSplitBpeTokenizer;
use bpe_example::naive_set_bpe::NaiveSetBpeTokenizer;
use bpe_example::priority_queue_bpe::PriorityQueueBpeTokenizer;
use bpe_example::priority_queue_linked_list_bpe::PriorityQueueBpeLLTokenizer;

fn pieces(list: &[&str]) -> Vec<String> {
    list.iter().map(|s| s.to_string()).collect()
}

fn english() -> Vec<String> {
    pieces(&[
        "\u{2581}", "l", "o", "\u{2581}w", "or", "ld", "\u{2581}H", "el", "\u{2581}Hel", "lo",
        "\u{2581}wor", "\u{2581}world", "\u{2581}Hello", "\u{2581}t", "he", "\u{2581}the", "ll",
        "\u{2581}a", "an", "nd", "\u{2581}and", "in", "ing", "\u{2581}th", "er", "es", "\u{2581}s",
        "\u{2581}to", "\u{2581}b", "\u{2581}be", "ou", "\u{2581}y", "\u{2581}you", "!", ",", ".",
    ])
}

fn all_engines(list: &[String], text: &str) -> Vec<Vec<String>> {
    let owned = |v: Vec<&str>| v.into_iter().map(|s| s.to_string()).collect::<Vec<String>>();
    let list = list.to_vec();
    vec![
        owned(NaiveSetBpeTokenizer::from_pieces(&list).tokenize(text)),
        owned(NaiveBpeTokenizer::from_pieces(&list).tokenize(text)),
        owned(PriorityQueueBpeTokenizer::from_pieces(&list).tokenize(text)),
        owned(PriorityQueueBpeLLTokenizer::from_pieces(&list).tokenize(text)),
    ]
}

fn expect_all(list: &[String], text: &str, expected: &[&str]) {
    for (engine, output) in all_engines(list, text).into_iter().enumerate() {
        assert_eq!(output, expected, "engine {}", engine);
    }
}

#[test]
fn empty_input_gives_one_empty_slice() {
    expect_all(&pieces(&["\u{2581}", "a"]), "", &[""]);
    let tokenizer = NaivePreSplitBpeTokenizer::from_pieces(&pieces(&["\u{2581}", "a"]));
    assert_eq!(tokenizer.tokenize(""), vec![""]);
}

#[test]
fn empty_vocabulary_gives_single_characters() {
    expect_all(&pieces(&[]), "h\u{e9}!", &["", "h", "\u{e9}", "!"]);
}

#[test]
fn lowest_score_is_merged_first() {
    expect_all(&pieces(&["ab", "bc", "\u{2581}a"]), "abc", &["", "ab", "c"]);
    expect_all(&pieces(&["bc", "ab", "\u{2581}a"]), "abc", &["a", "bc"]);
}

#[test]
fn equal_scores_merge_leftmost_first() {
    expect_all(&pieces(&["aa"]), "aaa", &["", "aa", "a"]);
    expect_all(&pieces(&["aa"]), "aaaaa", &["", "aa", "aa", "a"]);
}

#[test]
fn merges_build_on_earlier_merges() {
    expect_all(&pieces(&["ab", "\u{2581}ab", "\u{2581}abc", "cd"]), "abcd", &["abc", "d"]);
    expect_all(&pieces(&["cd", "ab", "abcd", "\u{2581}abcd"]), "abcd", &["abcd"]);
}

#[test]
fn stale_candidates_are_passed_over() {
    // "bc" is a candidate from the start, but "ab" wins and takes the "b" away.
    expect_all(&pieces(&["ab", "bc", "abc"]), "abcbc", &["", "abc", "bc"]);
    expect_all(&pieces(&["ab", "bc", "cb", "abcb"]), "abcb", &["", "abcb"]);
    expect_all(&pieces(&["ab", "bc", "cb"]), "abcb", &["", "ab", "cb"]);
}

#[test]
fn three_spaces_map_back_to_the_spaces() {
    let list = pieces(&["\u{2581}\u{2581}"]);
    expect_all(&list, "   ", &[" ", "  "]);
    for output in all_engines(&list, "   ") {
        assert_eq!(output.concat(), "   ");
    }
    let tokenizer = NaivePreSplitBpeTokenizer::from_pieces(&list);
    assert_eq!(tokenizer.tokenize("   "), vec!["", " ", " ", " "]);
}

#[test]
fn unknown_character_is_its_own_slice() {
    expect_all(&pieces(&["\u{2581}h", "i"]), "hi\u{1f980}", &["h", "i", "\u{1f980}"]);
    expect_all(&pieces(&["\u{2581}h", "i"]), "\u{1f980}hi", &["", "\u{1f980}", "h", "i"]);
}

#[test]
fn wide_whitespace_maps_back_to_its_bytes() {
    expect_all(&pieces(&["\u{2581}b"]), "a\u{3000}b", &["", "a", "\u{3000}b"]);
    expect_all(&pieces(&["\u{2581}b"]), "a\tb\n", &["", "a", "\tb", "\n"]);
}

#[test]
fn input_that_starts_with_the_token_gets_no_second_one() {
    expect_all(&pieces(&["\u{2581}a"]), "\u{2581}a", &["\u{2581}a"]);
    expect_all(&pieces(&["\u{2581}\u{2581}"]), "\u{2581}a", &["\u{2581}", "a"]);
}

#[test]
fn hello_world_is_covered() {
    let list = english();
    let text = "Hello, world!";
    let outputs = all_engines(&list, text);
    assert_eq!(outputs[0], vec!["Hello", ",", " world", "!"]);
    for output in &outputs {
        assert_eq!(output.concat(), text);
        assert_eq!(output, &outputs[0]);
    }
    let split = NaivePreSplitBpeTokenizer::from_pieces(&list);
    assert_eq!(split.tokenize(text), vec!["Hello", ",", " world", "!"]);
    // every slice, with the token in the place of its leading whitespace or
    // in front of the first word, is a piece of the vocabulary
    for piece in ["\u{2581}Hello", ",", "\u{2581}world", "!"] {
        assert!(list.contains(&piece.to_string()));
    }
}

#[test]
fn engines_agree_on_the_head_of_a_play() {
    let lines = pieces(&[
        "The Tragedy of Hamlet, Prince of Denmark",
        "",
        "ACT I",
        "",
        "SCENE I. Elsinore. A platform before the castle.",
        "",
        "  FRANCISCO at his post. Enter to him BERNARDO",
        "BERNARDO",
        "    Who's there?",
        "FRANCISCO",
        "    Nay, answer me: stand, and unfold yourself.",
        "BERNARDO",
        "    Long live the king!",
        "FRANCISCO",
        "    Bernardo?",
    ]);
    let text = bpe_example::text::header_of_lines(&lines);
    assert!(text.starts_with("The Tragedy of Hamlet, Prince of Denmark ACT I SCENE I."));
    assert!(text.ends_with("Long live the king! FRANCISCO Bernardo? "));
    let outputs = all_engines(&english(), text.as_str());
    for output in &outputs {
        assert_eq!(output.concat(), text);
        assert_eq!(output, &outputs[0]);
    }
    assert!(outputs[0].len() < text.chars().count());
}

#[test]
fn tokenizers_are_found_at_the_crate_root() {
    let list = pieces(&["\u{2581}a"]);
    let slices = bpe_example::NaiveBpeTokenizer::from_pieces(&list).tokenize("a a");
    assert_eq!(slices, vec!["a", " a"]);
    assert!(bpe_example::bpe_base::text_fits("a a"));
}

#[test]
fn engines_agree_on_a_longer_text() {
    let list = english();
    let text = "To be, or not to be, that is the question: \
                Whether 'tis nobler in the mind to suffer \
                The slings and arrows of outrageous fortune, \
                Or to take arms against a sea of troubles \u{2014} and you?";
    let outputs = all_engines(&list, text);
    for output in &outputs {
        assert_eq!(output.concat(), text);
        assert_eq!(output, &outputs[0]);
    }
    assert!(outputs[0].contains(&" the".to_string()));
    assert!(outputs[0].contains(&" and".to_string()));
}

#[test]
fn repeated_calls_give_the_same_slices() {
    let tokenizer = PriorityQueueBpeLLTokenizer::from_pieces(&english());
    let first = tokenizer.tokenize("Hello, world! Hello, you.");
    let second = tokenizer.tokenize("Hello, world! Hello, you.");
    assert_eq!(first, second);
}

#[test]
fn slices_are_adjacent_parts_of_the_input() {
    let list = english();
    let text = "the h\u{e9}llo \u{1f980}  world";
    for output in all_engines(&list, text) {
        let mut offset = 0;
        for slice in &output {
            assert!(text.is_char_boundary(offset));
            assert_eq!(&text[offset..offset + slice.len()], slice.as_str());
            offset += slice.len();
        }
        assert_eq!(offset, text.len());
    }
}

#[test]
fn pre_split_never_merges_across_pieces() {
    let list = pieces(&["a,", ",b", "\u{2581}a", "b\u{2581}", "\u{2581}c"]);
    let split = NaivePreSplitBpeTokenizer::from_pieces(&list);
    assert_eq!(split.tokenize("a,b c"), vec!["a", ",", "b", " c"]);
    let whole = NaiveBpeTokenizer::from_pieces(&list);
    assert_eq!(whole.tokenize("a,b c"), vec!["", "a,", "b ", "c"]);
}

#[test]
fn pre_split_cuts_words_and_punctuation() {
    let tokenizer = NaivePreSplitBpeTokenizer::from_pieces(&pieces(&[]));
    assert_eq!(
        tokenizer.split_whitespace_punctuation("\u{2581}Hello,\u{2581}world!", '\u{2581}'),
        vec!["\u{2581}Hello", ",", "\u{2581}world", "!"]
    );
    assert_eq!(
        tokenizer.split_whitespace_punctuation("ab\u{2581}\u{2581}c..", '\u{2581}'),
        vec!["ab", "\u{2581}", "\u{2581}c", ".", "."]
    );
    assert_eq!(tokenizer.split_whitespace_punctuation("", '\u{2581}'), Vec::<&str>::new());
    assert_eq!(tokenizer.split_whitespace_punctuation("a-b", '-'), vec!["a", "-b"]);
}

#[test]
fn later_piece_replaces_earlier_one() {
    let tokenizer = NaiveBpeTokenizer::from_pieces(&pieces(&["ab", "bc", "ab"]));
    let vocab = tokenizer.get_merges_vocab();
    assert_eq!(vocab.get("ab"), Some(&2));
    assert_eq!(vocab.get("bc"), Some(&1));
    assert_eq!(vocab.get("zz"), None);
    assert_eq!(tokenizer.tokenize("abc"), vec!["", "a", "bc"]);
}
