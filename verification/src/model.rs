//! The model file: a SentencePiece model is a Protocol-Buffers message, of
//! which only the ordered list of pieces is read, and of each piece only
//! its text.
use vstd::prelude::*;
use vstd::utf8::*;
use protobuf::well_known_types::Empty;
use protobuf::Message;
use protobuf::ProtobufError;
use crate::bpe_base::{piece_views, read_vocab, vocab_of, MergesVocab};

verus! {

/// The number of the field of a model that holds its pieces.
pub const PIECES_FIELD: u32 = 1;

/// The number of the field of a piece that holds its text.
pub const PIECE_TEXT_FIELD: u32 = 1;

#[verifier::external_type_specification]
#[verifier::external_body]
pub struct ExProtobufError(protobuf::ProtobufError);

/// The values of the length-delimited fields with the number `field` in
/// the message that the bytes encode, in the order of the message. `None`
/// where the bytes are no message.
pub uninterp spec fn message_fields(bytes: Seq<u8>, field: u32) -> Option<Seq<Seq<u8>>>;

/// The views of the byte strings, in order.
pub open spec fn byte_views(values: Seq<Vec<u8>>) -> Seq<Seq<u8>> {
    Seq::new(values.len(), |i: int| values[i]@)
}

/// `Message::parse_from_bytes`, for the message type that declares no
/// fields, so that every field of the message is kept as an unknown field;
/// then `UnknownFields::get` for the number `field`, and of what it finds
/// the length-delimited values. The decoder fails on bytes that are no
/// message; what it returns on the others is named, not restated.
#[verifier::external_body]
fn length_delimited_fields(bytes: &[u8], field: u32) -> (fields: Result<
    Vec<Vec<u8>>,
    ProtobufError,
>)
    ensures
        fields is Ok <==> message_fields(bytes@, field) is Some,
        match fields {
            Ok(values) => Some(byte_views(values@)) == message_fields(bytes@, field),
            Err(_) => true,
        },
{
    let message = Empty::parse_from_bytes(bytes)?;
    let found = message.get_unknown_fields().get(field);
    Ok(found.map(|values| values.length_delimited.clone()).unwrap_or_default())
}

/// `String::from_utf8`: the string that the bytes encode, if they are
/// UTF-8.
#[verifier::external_body]
fn string_from_utf8(bytes: Vec<u8>) -> (text: Option<String>)
    ensures
        text is Some <==> valid_utf8(bytes@),
        match text {
            Some(text) => text@ == decode_utf8(bytes@),
            None => true,
        },
{
    String::from_utf8(bytes).ok()
}

/// Why a model cannot be read.
#[derive(Debug)]
pub enum ModelError {
    /// The bytes of the model, or of one of its pieces, are no message.
    Malformed(ProtobufError),
    /// The text of a piece is not UTF-8.
    NotText,
    /// The model has more pieces than there are scores.
    TooManyPieces,
}

/// The kinds of flaw that keep a model from being read.
pub enum Flaw {
    Malformed,
    NotText,
    TooManyPieces,
}

impl ModelError {
    /// The kind of flaw that the error reports.
    pub open spec fn flaw(&self) -> Flaw {
        match self {
            ModelError::Malformed(_) => Flaw::Malformed,
            ModelError::NotText => Flaw::NotText,
            ModelError::TooManyPieces => Flaw::TooManyPieces,
        }
    }
}

/// The text of a piece, from the values of its text field: the last value
/// counts, and a piece without one has the empty text.
pub open spec fn text_of_values(texts: Seq<Seq<u8>>) -> Result<Seq<char>, Flaw> {
    if texts.len() == 0 {
        Ok(Seq::empty())
    } else if valid_utf8(texts.last()) {
        Ok(decode_utf8(texts.last()))
    } else {
        Err(Flaw::NotText)
    }
}

/// The text of the piece that the bytes encode.
pub open spec fn text_of_piece(piece: Seq<u8>) -> Result<Seq<char>, Flaw> {
    match message_fields(piece, PIECE_TEXT_FIELD) {
        Some(texts) => text_of_values(texts),
        None => Err(Flaw::Malformed),
    }
}

/// The texts of the first `n` pieces, or the flaw of the first piece that
/// has one.
pub open spec fn texts_of_pieces(pieces: Seq<Seq<u8>>, n: int) -> Result<Seq<Seq<char>>, Flaw>
    decreases n,
{
    if n <= 0 {
        Ok(Seq::empty())
    } else {
        match texts_of_pieces(pieces, n - 1) {
            Ok(texts) => match text_of_piece(pieces[n - 1]) {
                Ok(text) => Ok(texts.push(text)),
                Err(flaw) => Err(flaw),
            },
            Err(flaw) => Err(flaw),
        }
    }
}

/// The texts of the pieces of the model that the bytes encode, in the
/// order of the model.
pub open spec fn pieces_of_model(model: Seq<u8>) -> Result<Seq<Seq<char>>, Flaw> {
    match message_fields(model, PIECES_FIELD) {
        Some(pieces) => if pieces.len() > i64::MAX {
            Err(Flaw::TooManyPieces)
        } else {
            texts_of_pieces(pieces, pieces.len() as int)
        },
        None => Err(Flaw::Malformed),
    }
}

/// The text of a piece, given the values of its text field.
pub fn piece_from_values(texts: &Vec<Vec<u8>>) -> (piece: Result<String, ModelError>)
    ensures
        match (piece, text_of_values(byte_views(texts@))) {
            (Ok(text), Ok(expected)) => text@ == expected,
            (Err(error), Err(flaw)) => error.flaw() == flaw,
            _ => false,
        },
{
    if texts.len() == 0 {
        return Ok(String::new());
    }
    let last = texts[texts.len() - 1].clone();
    assert(byte_views(texts@).last() == texts@[texts@.len() - 1]@);
    match string_from_utf8(last) {
        Some(text) => Ok(text),
        None => Err(ModelError::NotText),
    }
}

/// Reads the pieces of a model, in the order of the model.
pub fn decode_pieces(model: &[u8]) -> (pieces: Result<Vec<String>, ModelError>)
    ensures
        match (pieces, pieces_of_model(model@)) {
            (Ok(texts), Ok(expected)) => piece_views(texts@) == expected && texts@.len()
                <= i64::MAX,
            (Err(error), Err(flaw)) => error.flaw() == flaw,
            _ => false,
        },
{
    let encoded = match length_delimited_fields(model, PIECES_FIELD) {
        Ok(encoded) => encoded,
        Err(error) => {
            return Err(ModelError::Malformed(error));
        },
    };
    if encoded.len() as u64 > 0x7fff_ffff_ffff_ffffu64 {
        return Err(ModelError::TooManyPieces);
    }
    let ghost all = byte_views(encoded@);
    let mut pieces: Vec<String> = Vec::new();
    let mut n: usize = 0;
    assert(piece_views(pieces@) =~= Seq::<Seq<char>>::empty());
    while n < encoded.len()
        invariant
            n <= encoded@.len(),
            all == byte_views(encoded@),
            all.len() <= i64::MAX,
            message_fields(model@, PIECES_FIELD) == Some(all),
            texts_of_pieces(all, n as int) == Ok::<Seq<Seq<char>>, Flaw>(piece_views(pieces@)),
            pieces@.len() == n,
        decreases encoded@.len() - n,
    {
        let ghost before = piece_views(pieces@);
        assert(all[n as int] == encoded@[n as int]@);
        let texts = match length_delimited_fields(encoded[n].as_slice(), PIECE_TEXT_FIELD) {
            Ok(texts) => texts,
            Err(error) => {
                proof {
                    assert(text_of_piece(all[n as int]) == Err::<Seq<char>, Flaw>(Flaw::Malformed));
                    assert(texts_of_pieces(all, n + 1) is Err);
                    lemma_flaw_stays(all, n + 1, all.len() as int);
                }
                return Err(ModelError::Malformed(error));
            },
        };
        match piece_from_values(&texts) {
            Ok(text) => {
                pieces.push(text);
                assert(piece_views(pieces@) =~= before.push(text@));
                assert(text_of_piece(all[n as int]) == Ok::<Seq<char>, Flaw>(text@));
            },
            Err(error) => {
                proof {
                    assert(text_of_piece(all[n as int]) == Err::<Seq<char>, Flaw>(error.flaw()));
                    assert(texts_of_pieces(all, n + 1) is Err);
                    lemma_flaw_stays(all, n + 1, all.len() as int);
                }
                return Err(error);
            },
        }
        n += 1;
    }
    Ok(pieces)
}

/// Once a piece has a flaw, it is the flaw of every longer list of pieces.
pub proof fn lemma_flaw_stays(pieces: Seq<Seq<u8>>, n: int, m: int)
    requires
        0 <= n <= m,
        texts_of_pieces(pieces, n) is Err,
    ensures
        texts_of_pieces(pieces, m) == texts_of_pieces(pieces, n),
    decreases m - n,
{
    if n < m {
        lemma_flaw_stays(pieces, n, m - 1);
    }
}

/// Reads the vocabulary of a model: each piece of the model with its index
/// as its score, a later piece replacing an earlier piece of the same text.
pub fn read_model(model: &[u8]) -> (vocab: Result<MergesVocab, ModelError>)
    ensures
        match (vocab, pieces_of_model(model@)) {
            (Ok(vocab), Ok(pieces)) => vocab@ == vocab_of(pieces),
            (Err(error), Err(flaw)) => error.flaw() == flaw,
            _ => false,
        },
{
    match decode_pieces(model) {
        Ok(pieces) => Ok(read_vocab(&pieces)),
        Err(error) => Err(error),
    }
}

} // verus!
