use rlnc_cat_rs::coding::decode::DecoderState;
use rlnc_cat_rs::coding::encode::{encode_with_vector, Encoder};
use rlnc_cat_rs::coding::piece::{CodedPiece, CodingVector, OriginalData};
use rlnc_cat_rs::error::Error;
use rlnc_cat_rs::field::Gf256;
use rlnc_cat_rs::lattice::ZVec;
use rlnc_cat_rs::lhs::{keygen, LatticeHomomorphicAuthenticator, LhsParams};
use std::sync::atomic::{AtomicU64, Ordering};

#[test]
fn readme_authenticated_recoding_example_compiles_and_runs() {
    let counter = AtomicU64::new(1);
    let rng = |n: usize| {
        let bytes: Vec<u8> = (0..n.div_ceil(8))
            .flat_map(|_| counter.fetch_add(1, Ordering::Relaxed).to_le_bytes())
            .take(n)
            .collect();
        Ok::<_, Error>(bytes)
    };
    // One random byte per coefficient, as an offset between -1 and 1.
    let sampler = |center: Vec<i64>, _width: u64| {
        rng(center.len())
            .map(|bytes| ZVec::new(bytes.iter().map(|&b| i64::from(b % 3) - 1).collect()))
    };
    let result = LhsParams::<97>::new(4, 4, 3, 10_000_000, 3.0f64.to_bits())
        .and_then(|params| keygen(params, &rng))
        .and_then(|(pk, sk)| {
            let metadata = b"generation-id";
            LatticeHomomorphicAuthenticator::new(pk, &sk, metadata, &sampler)
        });
    assert!(result.is_ok(), "{result:?}");
}

#[test]
fn readme_quick_start() {
    let data = vec![72, 101, 108, 108, 111, 32, 119, 111, 114, 108, 100];
    let orig = OriginalData::from_bytes(&data, 4).unwrap();
    let encoder = Encoder::new(orig.clone());
    let mut seed: u8 = 1;
    let pieces: Vec<CodedPiece> = (0..4)
        .map(|_| {
            seed = seed.wrapping_add(7);
            let s = seed;
            encoder
                .encode_one(move |n| Ok((0..n).map(|i| s.wrapping_add(i as u8)).collect()))
                .run()
                .unwrap()
        })
        .collect();
    let state = pieces
        .iter()
        .try_fold(DecoderState::new(orig.piece_count(), orig.piece_byte_len()), |s, p| s.absorb(p))
        .unwrap();
    assert!(state.is_complete());
    assert_eq!(state.decode(), Ok(data));
}

#[test]
fn readme_encoding() {
    let orig = OriginalData::from_bytes(&[1, 2, 3, 4, 5, 6], 3).unwrap();
    let encoder = Encoder::new(orig);
    let piece = encoder.encode_one(|n| Ok(vec![42u8; n])).run().unwrap();
    let pieces = encoder.encode_stream(|n| Ok(vec![42u8; n])).take(10).collect().run().unwrap();
    assert_eq!(pieces, vec![piece; 10]);
}

#[test]
fn readme_decoding() {
    let data = vec![10, 20, 30, 40];
    let orig = OriginalData::from_bytes(&data, 2).unwrap();
    let p0 = encode_with_vector(&orig, CodingVector::from_bytes(&[1, 2])).unwrap();
    let p1 = encode_with_vector(&orig, CodingVector::from_bytes(&[3, 4])).unwrap();
    let state = [&p0, &p1]
        .iter()
        .try_fold(DecoderState::new(orig.piece_count(), orig.piece_byte_len()), |s, p| s.absorb(p))
        .unwrap();
    assert_eq!(state.decode(), Ok(data));
}

#[test]
fn readme_finite_field() {
    let a = Gf256::new(0x53);
    let b = Gf256::new(0xCA);
    assert_eq!((a + b).value(), 0x53 ^ 0xCA);
    assert_eq!(a - b, a + b);
    let quotient = a.checked_div(b);
    assert_eq!(quotient.map(|q| q * b), Ok(a));
}
