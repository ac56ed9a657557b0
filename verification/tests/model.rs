use bpe_example::bpe_base::BpeTokenizer;
use bpe_example::model::{decode_pieces, piece_from_values, read_model, ModelError};
use bpe_example::{
    NaiveBpeTokenizer, NaivePreSplitBpeTokenizer, NaiveSetBpeTokenizer,
    PriorityQueueBpeLLTokenizer, PriorityQueueBpeTokenizer,
};

/// A length-delimited field: its tag, the length of its value, the value.
fn field(number: u8, value: &[u8]) -> Vec<u8> {
    assert!(value.len() < 128);
    let mut bytes = vec![(number << 3) | 2, value.len() as u8];
    bytes.extend_from_slice(value);
    bytes
}

/// A piece as the model file holds it: its text, its score and its type.
fn piece(text: &[u8], score: f32) -> Vec<u8> {
    let mut bytes = field(1, text);
    bytes.push((2 << 3) | 5);
    bytes.extend_from_slice(&score.to_le_bytes());
    bytes.extend_from_slice(&[3 << 3, 1]);
    bytes
}

fn model(texts: &[&str]) -> Vec<u8> {
    let mut bytes = Vec::new();
    for (index, text) in texts.iter().enumerate() {
        bytes.extend(field(1, &piece(text.as_bytes(), -(index as f32))));
    }
    // the trainer's settings, which are passed over
    bytes.extend(field(2, &[(1 << 3) | 2, 3, b'x', b'y', b'z']));
    bytes
}

#[test]
fn pieces_are_read_in_the_order_of_the_model() {
    let bytes = model(&["<unk>", "\u{2581}a", "ab", "\u{e9}"]);
    assert_eq!(decode_pieces(&bytes).unwrap(), vec!["<unk>", "\u{2581}a", "ab", "\u{e9}"]);
    assert_eq!(decode_pieces(&[]).unwrap(), Vec::<String>::new());
}

#[test]
fn piece_without_text_has_the_empty_text() {
    let mut bytes = field(1, &[3 << 3, 1]);
    bytes.extend(field(1, &piece(b"a", 0.0)));
    assert_eq!(decode_pieces(&bytes).unwrap(), vec!["", "a"]);
}

#[test]
fn last_text_of_a_piece_counts() {
    let mut twice = field(1, b"old");
    twice.extend(field(1, b"new"));
    assert_eq!(decode_pieces(&field(1, &twice)).unwrap(), vec!["new"]);
    assert_eq!(piece_from_values(&vec![b"old".to_vec(), b"new".to_vec()]).unwrap(), "new");
    assert_eq!(piece_from_values(&vec![]).unwrap(), "");
    assert_eq!(piece_from_values(&vec!["\u{2581}x".as_bytes().to_vec()]).unwrap(), "\u{2581}x");
}

#[test]
fn text_that_is_not_utf8_is_refused() {
    assert!(matches!(piece_from_values(&vec![vec![0xff, 0xfe]]), Err(ModelError::NotText)));
    let bytes = field(1, &piece(&[b'a', 0xc3], 0.0));
    assert!(matches!(decode_pieces(&bytes), Err(ModelError::NotText)));
    assert!(matches!(read_model(&bytes), Err(ModelError::NotText)));
}

#[test]
fn bytes_that_are_no_message_are_refused() {
    // a field that announces five bytes and holds one
    assert!(matches!(decode_pieces(&[0x0a, 0x05, 0x01]), Err(ModelError::Malformed(_))));
    // a piece that is cut off inside its text
    let bytes = field(1, &[0x0a, 0x05, b'a']);
    assert!(matches!(decode_pieces(&bytes), Err(ModelError::Malformed(_))));
    assert!(matches!(NaiveBpeTokenizer::new(&bytes), Err(ModelError::Malformed(_))));
}

#[test]
fn vocabulary_scores_are_the_indices_of_the_pieces() {
    let vocab = read_model(&model(&["a", "b", "a", "c"])).unwrap();
    assert_eq!(vocab.get("a"), Some(&2));
    assert_eq!(vocab.get("b"), Some(&1));
    assert_eq!(vocab.get("c"), Some(&3));
    assert_eq!(vocab.len(), 3);
}

#[test]
fn tokenizers_are_built_from_a_model() {
    let bytes = model(&["ab", "bc", "\u{2581}a"]);
    let expected = vec!["", "ab", "c"];
    assert_eq!(NaiveSetBpeTokenizer::new(&bytes).unwrap().tokenize("abc"), expected);
    assert_eq!(NaiveBpeTokenizer::new(&bytes).unwrap().tokenize("abc"), expected);
    assert_eq!(NaivePreSplitBpeTokenizer::new(&bytes).unwrap().tokenize("abc"), expected);
    assert_eq!(PriorityQueueBpeTokenizer::new(&bytes).unwrap().tokenize("abc"), expected);
    assert_eq!(PriorityQueueBpeLLTokenizer::new(&bytes).unwrap().tokenize("abc"), expected);
}

#[test]
fn empty_model_gives_single_characters() {
    let tokenizer = PriorityQueueBpeLLTokenizer::new(&[]).unwrap();
    assert_eq!(tokenizer.tokenize("ab c"), vec!["", "a", "b", " ", "c"]);
}
