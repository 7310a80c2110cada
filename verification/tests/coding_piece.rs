use rlnc_cat_rs::coding::piece::{CodedPiece, CodingVector, OriginalData};
use rlnc_cat_rs::vector::GfVec;

#[test]
fn original_data_empty_fails() {
    assert!(OriginalData::from_bytes(&[], 3).is_err());
}

#[test]
fn original_data_zero_pieces_fails() {
    assert!(OriginalData::from_bytes(&[1, 2, 3], 0).is_err());
}

#[test]
fn original_data_splits_correctly() {
    let data = vec![1, 2, 3, 4, 5, 6];
    let orig = OriginalData::from_bytes(&data, 2);
    assert!(orig.is_ok());
    let orig = orig.unwrap_or_else(|_| OriginalData::from_bytes(&[0], 1).ok().unwrap());
    assert_eq!(orig.piece_count(), 2);
    assert!(orig.piece(0).is_some());
    assert!(orig.piece(1).is_some());
    assert_eq!(
        orig.piece(0).map(GfVec::len),
        orig.piece(1).map(GfVec::len)
    );
}

#[test]
fn reconstruct_roundtrip() {
    let data = vec![10, 20, 30, 40, 50];
    let orig = OriginalData::from_bytes(&data, 3);
    assert!(orig.is_ok());
    let orig = orig.unwrap_or_else(|_| OriginalData::from_bytes(&[0], 1).ok().unwrap());
    let reconstructed = OriginalData::reconstruct(orig.pieces());
    assert!(reconstructed.is_ok());
    assert_eq!(reconstructed.unwrap_or_default(), data);
}

#[test]
fn reconstruct_single_piece() {
    let data = vec![42];
    let orig = OriginalData::from_bytes(&data, 1);
    assert!(orig.is_ok());
    let orig = orig.unwrap_or_else(|_| OriginalData::from_bytes(&[0], 1).ok().unwrap());
    let reconstructed = OriginalData::reconstruct(orig.pieces());
    assert_eq!(reconstructed.unwrap_or_default(), data);
}

#[test]
fn coded_piece_serialization_roundtrip() {
    let cv = CodingVector::from_bytes(&[1, 2, 3]);
    let data = GfVec::from_bytes(&[10, 20, 30, 40]);
    let piece = CodedPiece::new(cv, data);
    let bytes = piece.to_bytes();
    let restored = CodedPiece::from_bytes(&bytes, 3);
    assert!(restored.is_ok());
    assert_eq!(restored.unwrap_or_else(|_| piece.clone()), piece);
}
