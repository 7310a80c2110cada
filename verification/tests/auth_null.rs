use rlnc_cat_rs::auth::{Authenticator, NullAuthenticator};
use rlnc_cat_rs::coding::encode::encode_with_vector;
use rlnc_cat_rs::coding::piece::{CodedPiece, CodingVector, OriginalData};
use rlnc_cat_rs::vector::GfVec;

fn sample_piece() -> (OriginalData, CodedPiece) {
    let orig = OriginalData::from_bytes(&[1, 2, 3, 4, 5, 6], 3)
        .unwrap_or_else(|_| OriginalData::from_bytes(&[0], 1).ok().unwrap());
    let piece = encode_with_vector(&orig, CodingVector::from_bytes(&[1, 0, 0]))
        .unwrap_or_else(|_| {
            CodedPiece::new(CodingVector::from_bytes(&[]), GfVec::zeros(0))
        });
    (orig, piece)
}

#[test]
fn null_verify_accepts_any_piece() {
    let auth = NullAuthenticator;
    let (orig, piece) = sample_piece();
    // commit/tag both return unit; feed the unit values straight into verify.
    auth.commit(&orig);
    auth.tag(&(), &piece);
    assert!(auth.verify(&(), &piece, &()).is_ok());
}
