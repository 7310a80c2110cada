use rlnc_cat_rs::coding::decode::DecoderState;
use rlnc_cat_rs::coding::encode::encode_with_vector;
use rlnc_cat_rs::coding::piece::{CodedPiece, CodingVector, OriginalData};
use rlnc_cat_rs::coding::recode::Recoder;
use rlnc_cat_rs::vector::GfVec;

#[test]
fn recode_produces_valid_piece() {
    let data = vec![10, 20, 30, 40, 50, 60];
    let orig = OriginalData::from_bytes(&data, 3)
        .unwrap_or_else(|_| OriginalData::from_bytes(&[0], 1).ok().unwrap());
    let k = orig.piece_count();

    // Encode with identity vectors
    let pieces: Vec<CodedPiece> = (0..k)
        .map(|i| {
            let cv_bytes: Vec<u8> = (0..k)
                .map(|j| if j == i { 1u8 } else { 0u8 })
                .collect();
            encode_with_vector(&orig, CodingVector::from_bytes(&cv_bytes))
                .unwrap_or_else(|_| CodedPiece::new(
                    CodingVector::from_bytes(&[]),
                    GfVec::zeros(0),
                ))
        })
        .collect();

    // Add to recoder
    let recoder = pieces.iter().try_fold(
        Recoder::new(orig.piece_count(), orig.piece_byte_len()),
        |r, p| r.add_piece(p),
    );
    assert!(recoder.is_ok());
    let recoder = recoder.unwrap_or_else(|_| Recoder::new(0, 0));

    // Recode
    let recoded = recoder.recode_one(|n| Ok(vec![1u8; n])).run();
    assert!(recoded.is_ok());
    let recoded = recoded.unwrap_or_else(|_| CodedPiece::new(
        CodingVector::from_bytes(&[]),
        GfVec::zeros(0),
    ));

    // The recoded piece should have the right dimensions
    assert_eq!(recoded.coding_vector().len(), orig.piece_count());
    assert_eq!(recoded.data().len(), orig.piece_byte_len());
}

#[test]
fn recode_then_decode_roundtrip() {
    let data = vec![10, 20, 30, 40];
    let orig = OriginalData::from_bytes(&data, 2)
        .unwrap_or_else(|_| OriginalData::from_bytes(&[0], 1).ok().unwrap());
    let k = orig.piece_count();

    // Encode with identity vectors
    let pieces: Vec<CodedPiece> = (0..k)
        .map(|i| {
            let cv_bytes: Vec<u8> = (0..k)
                .map(|j| if j == i { 1u8 } else { 0u8 })
                .collect();
            encode_with_vector(&orig, CodingVector::from_bytes(&cv_bytes))
                .unwrap_or_else(|_| CodedPiece::new(
                    CodingVector::from_bytes(&[]),
                    GfVec::zeros(0),
                ))
        })
        .collect();

    // Recode: produce k new pieces from the k originals
    let recoder = pieces.iter().try_fold(
        Recoder::new(orig.piece_count(), orig.piece_byte_len()),
        |r, p| r.add_piece(p),
    )
    .unwrap_or_else(|_| Recoder::new(0, 0));

    let recoded_pieces: Vec<CodedPiece> = (0..k)
        .map(|i| {
            let seed = (i as u8).wrapping_add(1);
            recoder
                .recode_one(move |n| {
                    Ok((0..n).map(|j| seed.wrapping_add(j as u8)).collect())
                })
                .run()
                .unwrap_or_else(|_| CodedPiece::new(
                    CodingVector::from_bytes(&[]),
                    GfVec::zeros(0),
                ))
        })
        .collect();

    // Decode the recoded pieces
    let state = recoded_pieces.iter().try_fold(
        DecoderState::new(orig.piece_count(), orig.piece_byte_len()),
        |s, p| s.absorb(p),
    );
    assert!(state.is_ok());
    let state = state.unwrap_or_else(|_| DecoderState::new(0, 0));
    assert!(state.is_complete());
    let decoded = state.decode();
    assert!(decoded.is_ok());
    assert_eq!(decoded.unwrap_or_default(), data);
}

#[test]
fn recode_empty_recoder_fails() {
    let recoder = Recoder::new(3, 10);
    let result = recoder.recode_one(|n| Ok(vec![1u8; n])).run();
    assert!(result.is_err());
}
