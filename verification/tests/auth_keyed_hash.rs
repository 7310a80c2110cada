use rlnc_cat_rs::auth::{Authenticator, KeyedHashAuthenticator};
use rlnc_cat_rs::auth::{KeyedHashCommitment as Commitment, KeyedHashTag as Tag};
use rlnc_cat_rs::coding::encode::encode_with_vector;
use rlnc_cat_rs::coding::piece::{CodedPiece, CodingVector, OriginalData};
use rlnc_cat_rs::vector::GfVec;

fn sample() -> (KeyedHashAuthenticator, OriginalData, CodedPiece) {
    let auth = KeyedHashAuthenticator::new([7u8; 32]);
    let orig = OriginalData::from_bytes(&[1, 2, 3, 4, 5, 6, 7, 8], 4)
        .unwrap_or_else(|_| OriginalData::from_bytes(&[0], 1).ok().unwrap());
    let piece = encode_with_vector(&orig, CodingVector::from_bytes(&[1, 0, 0, 0]))
        .unwrap_or_else(|_| {
            CodedPiece::new(CodingVector::from_bytes(&[]), GfVec::zeros(0))
        });
    (auth, orig, piece)
}

#[test]
fn keyed_hash_roundtrip_accepts() {
    let (auth, orig, piece) = sample();
    let c = auth.commit(&orig);
    let t = auth.tag(&c, &piece);
    assert!(auth.verify(&c, &piece, &t).is_ok());
}

#[test]
fn keyed_hash_rejects_wrong_tag() {
    let (auth, orig, piece) = sample();
    let c = auth.commit(&orig);
    let bad = Tag::from([0u8; 32]);
    assert!(auth.verify(&c, &piece, &bad).is_err());
}

#[test]
fn keyed_hash_rejects_tampered_piece() {
    let (auth, orig, piece) = sample();
    let c = auth.commit(&orig);
    let t = auth.tag(&c, &piece);
    // Flip one byte in the data payload
    let tampered_data = GfVec::from_bytes(
        &piece
            .data()
            .to_bytes()
            .iter()
            .enumerate()
            .map(|(i, &b)| if i == 0 { b ^ 0x01 } else { b })
            .collect::<Vec<u8>>(),
    );
    let tampered = CodedPiece::new(piece.coding_vector().clone(), tampered_data);
    assert!(auth.verify(&c, &tampered, &t).is_err());
}

#[test]
fn keyed_hash_rejects_wrong_key() {
    let (auth, orig, piece) = sample();
    let c = auth.commit(&orig);
    let t = auth.tag(&c, &piece);
    let other = KeyedHashAuthenticator::new([9u8; 32]);
    assert!(other.verify(&c, &piece, &t).is_err());
}

#[test]
fn keyed_hash_rejects_wrong_commitment() {
    let (auth, _orig, piece) = sample();
    let other_orig = OriginalData::from_bytes(&[9, 9, 9, 9], 2)
        .unwrap_or_else(|_| OriginalData::from_bytes(&[0], 1).ok().unwrap());
    let c_real = auth.commit(&other_orig);
    let c_real_tag = auth.tag(&c_real, &piece);
    let c_fake = Commitment::from([0u8; 32]);
    assert!(auth.verify(&c_fake, &piece, &c_real_tag).is_err());
}
