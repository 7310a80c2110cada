use comp_cat_rs::effect::stream::Stream;
use rlnc_cat_rs::coding::decode::{decode_stream, DecoderState};
use rlnc_cat_rs::coding::encode::encode_with_vector;
use rlnc_cat_rs::coding::piece::{CodedPiece, CodingVector, OriginalData};
use rlnc_cat_rs::error::Error;
use rlnc_cat_rs::vector::GfVec;

fn make_test_data() -> (OriginalData, Vec<u8>) {
    let data = vec![10, 20, 30, 40, 50, 60];
    let orig = OriginalData::from_bytes(&data, 3)
        .unwrap_or_else(|_| OriginalData::from_bytes(&[0], 1).ok().unwrap());
    (orig, data)
}

#[test]
fn decode_with_identity_vectors() {
    let (orig, data) = make_test_data();
    let k = orig.piece_count();

    // Encode with standard basis vectors
    let pieces: Vec<CodedPiece> = (0..k)
        .map(|i| {
            let cv_bytes: Vec<u8> = (0..k)
                .map(|j| if j == i { 1u8 } else { 0u8 })
                .collect();
            encode_with_vector(&orig, CodingVector::from_bytes(&cv_bytes))
                .unwrap_or_else(|_| CodedPiece::new(
                    CodingVector::from_bytes(&[]),
                    GfVec::zeros(0),
                ))
        })
        .collect();

    // Feed to decoder
    let state = pieces.iter().try_fold(
        DecoderState::new(orig.piece_count(), orig.piece_byte_len()),
        |s, p| s.absorb(p),
    );
    assert!(state.is_ok());
    let state = state.unwrap_or_else(|_| DecoderState::new(0, 0));
    assert!(state.is_complete());
    let decoded = state.decode();
    assert!(decoded.is_ok());
    assert_eq!(decoded.unwrap_or_default(), data);
}

#[test]
fn decode_with_random_vectors() {
    let (orig, data) = make_test_data();
    let k = orig.piece_count();

    // Encode with non-trivial coding vectors
    let cvs: Vec<Vec<u8>> = vec![
        vec![1, 2, 3],
        vec![4, 5, 6],
        vec![7, 8, 9],
    ];
    let pieces: Vec<CodedPiece> = cvs[..k]
        .iter()
        .map(|cv| {
            encode_with_vector(&orig, CodingVector::from_bytes(cv))
                .unwrap_or_else(|_| CodedPiece::new(
                    CodingVector::from_bytes(&[]),
                    GfVec::zeros(0),
                ))
        })
        .collect();

    let state = pieces.iter().try_fold(
        DecoderState::new(orig.piece_count(), orig.piece_byte_len()),
        |s, p| s.absorb(p),
    );
    assert!(state.is_ok());
    let state = state.unwrap_or_else(|_| DecoderState::new(0, 0));
    assert!(state.is_complete());
    let decoded = state.decode();
    assert!(decoded.is_ok());
    assert_eq!(decoded.unwrap_or_default(), data);
}

#[test]
fn decode_incomplete_fails() {
    let (orig, _data) = make_test_data();
    let state = DecoderState::new(orig.piece_count(), orig.piece_byte_len());
    assert!(!state.is_complete());
    assert!(state.decode().is_err());
}

#[test]
fn decode_stream_roundtrip() {
    let (orig, data) = make_test_data();
    let k = orig.piece_count();

    let cvs: Vec<Vec<u8>> = vec![
        vec![1, 2, 3],
        vec![4, 5, 6],
        vec![7, 8, 9],
    ];
    let pieces: Vec<CodedPiece> = cvs[..k]
        .iter()
        .map(|cv| {
            encode_with_vector(&orig, CodingVector::from_bytes(cv))
                .unwrap_or_else(|_| CodedPiece::new(
                    CodingVector::from_bytes(&[]),
                    GfVec::zeros(0),
                ))
        })
        .collect();

    let stream = Stream::from_vec(pieces);
    let result = decode_stream(
        orig.piece_count(),
        orig.piece_byte_len(),
        stream,
    )
    .run();
    assert!(result.is_ok());
    assert_eq!(result.unwrap_or_default(), data);
}

#[test]
fn linearly_dependent_piece_does_not_increase_rank() {
    let (orig, _data) = make_test_data();

    let p1 = encode_with_vector(&orig, CodingVector::from_bytes(&[1, 0, 0]));
    // p2 is 2 * p1 in GF(2^8), so linearly dependent
    let p2 = encode_with_vector(&orig, CodingVector::from_bytes(&[2, 0, 0]));

    let state = DecoderState::new(orig.piece_count(), orig.piece_byte_len());
    let state = p1
        .as_ref()
        .map_err(|_| Error::EmptyData)
        .and_then(|p| state.absorb(p))
        .unwrap_or_else(|_| DecoderState::new(0, 0));
    assert_eq!(state.useful_count(), 1);

    let state = p2
        .as_ref()
        .map_err(|_| Error::EmptyData)
        .and_then(|p| state.absorb(p))
        .unwrap_or_else(|_| DecoderState::new(0, 0));
    // Rank should still be 1
    assert_eq!(state.useful_count(), 1);
}
