use rlnc_cat_rs::coding::encode::{encode_with_vector, Encoder};
use rlnc_cat_rs::coding::piece::{CodedPiece, CodingVector, OriginalData};
use rlnc_cat_rs::error::Error;
use rlnc_cat_rs::vector::GfVec;

fn deterministic_rng(seed: u8) -> impl FnOnce(usize) -> Result<Vec<u8>, Error> {
    move |n| {
        Ok((0..n)
            .map(|i| seed.wrapping_add(i as u8))
            .collect())
    }
}

#[test]
fn encode_with_identity_vector() {
    // Coding vector [1, 0] selects the first piece
    let data = vec![10, 20, 30, 40];
    let orig = OriginalData::from_bytes(&data, 2)
        .unwrap_or_else(|_| OriginalData::from_bytes(&[0], 1).ok().unwrap());
    let cv = CodingVector::from_bytes(&[1, 0]);
    let piece = encode_with_vector(&orig, cv);
    assert!(piece.is_ok());
    let piece = piece.unwrap_or_else(|_| CodedPiece::new(
        CodingVector::from_bytes(&[]),
        GfVec::zeros(0),
    ));
    // The coded data should be exactly the first piece
    assert_eq!(piece.data(), orig.piece(0).unwrap_or(&GfVec::zeros(0)));
}

#[test]
fn encode_with_wrong_vector_length_fails() {
    let data = vec![1, 2, 3, 4];
    let orig = OriginalData::from_bytes(&data, 2)
        .unwrap_or_else(|_| OriginalData::from_bytes(&[0], 1).ok().unwrap());
    let cv = CodingVector::from_bytes(&[1, 2, 3]); // wrong length
    assert!(encode_with_vector(&orig, cv).is_err());
}

#[test]
fn encoder_io_produces_piece() {
    let data = vec![1, 2, 3, 4, 5, 6];
    let orig = OriginalData::from_bytes(&data, 3)
        .unwrap_or_else(|_| OriginalData::from_bytes(&[0], 1).ok().unwrap());
    let encoder = Encoder::new(orig);
    let io = encoder.encode_one(deterministic_rng(1));
    let result = io.run();
    assert!(result.is_ok());
}

#[test]
fn encoder_stream_produces_correct_count() {
    let data = vec![1, 2, 3, 4, 5, 6, 7, 8];
    let orig = OriginalData::from_bytes(&data, 4)
        .unwrap_or_else(|_| OriginalData::from_bytes(&[0], 1).ok().unwrap());
    let encoder = Encoder::new(orig);
    let stream = encoder.encode_stream(|n| {
        Ok((0..n).map(|i| (i as u8).wrapping_add(1)).collect())
    });
    let pieces = stream.take(5).collect().run();
    assert!(pieces.is_ok());
    assert_eq!(pieces.unwrap_or_default().len(), 5);
}
