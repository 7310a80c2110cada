use comp_cat_rs::effect::stream::Stream;
use rlnc_cat_rs::coding::decode::{decode_stream, DecoderState};
use rlnc_cat_rs::coding::encode::{encode_with_vector, Encoder};
use rlnc_cat_rs::coding::piece::{CodedPiece, CodingVector, OriginalData};
use rlnc_cat_rs::coding::recode::Recoder;
use rlnc_cat_rs::error::Error;
use rlnc_cat_rs::field::Gf256;
use rlnc_cat_rs::gossip::PeerIndex;
use rlnc_cat_rs::lattice::{ZMatrix, ZVec, Zq, ZqMatrix, ZqVec};
use rlnc_cat_rs::lhs::keys::sample_ternary;
use rlnc_cat_rs::lhs::{keygen, LhsParams, SecretKey};
use rlnc_cat_rs::transport::InMemoryNetwork;
use rlnc_cat_rs::vector::{GfMatrix, GfVec};

fn piece(coeffs: &[u8], data: &[u8]) -> CodedPiece {
    CodedPiece::new(CodingVector::from_bytes(coeffs), GfVec::from_bytes(data))
}

#[test]
fn splitting_reports_what_is_missing() {
    assert_eq!(OriginalData::from_bytes(&[], 3).err(), Some(Error::EmptyData));
    assert_eq!(OriginalData::from_bytes(&[1], 0).err(), Some(Error::InvalidPieceCount));
    // The empty input is reported before the piece count.
    assert_eq!(OriginalData::from_bytes(&[], 0).err(), Some(Error::EmptyData));
}

#[test]
fn absorbing_reports_dimensions() {
    let state = DecoderState::new(2, 3);
    assert_eq!(
        state.clone().absorb(&piece(&[1], &[0, 0, 0])).err(),
        Some(Error::CodingVectorLengthMismatch { expected: 2, actual: 1 })
    );
    assert_eq!(
        state.absorb(&piece(&[1, 0], &[0])).err(),
        Some(Error::PieceSizeMismatch { expected: 3, actual: 1 })
    );
}

#[test]
fn storing_reports_dimensions() {
    assert_eq!(
        Recoder::new(2, 3).add_piece(&piece(&[1], &[0, 0, 0])).err(),
        Some(Error::CodingVectorLengthMismatch { expected: 2, actual: 1 })
    );
    assert_eq!(
        Recoder::new(2, 3).add_piece(&piece(&[1, 0], &[0])).err(),
        Some(Error::PieceSizeMismatch { expected: 3, actual: 1 })
    );
}

#[test]
fn decoding_counts_pieces() {
    let state = DecoderState::new(3, 1).absorb(&piece(&[1, 0, 0], &[7])).unwrap();
    assert_eq!(state.useful_count(), 1);
    assert_eq!(state.remaining(), 2);
    assert_eq!(
        state.decode().err(),
        Some(Error::InsufficientPieces { needed: 3, received: 1 })
    );
}

#[test]
fn reconstruction_needs_the_marker() {
    assert_eq!(
        OriginalData::reconstruct(&[GfVec::zeros(4)]).err(),
        Some(Error::InvalidPadding)
    );
    assert_eq!(
        OriginalData::reconstruct(&[GfVec::from_bytes(&[5, 6, 2, 0])]).err(),
        Some(Error::InvalidPadding)
    );
    assert_eq!(
        OriginalData::reconstruct(&[GfVec::from_bytes(&[5, 6, 0x81, 0])]).ok(),
        Some(vec![5, 6])
    );
}

#[test]
fn zero_has_no_reciprocal() {
    assert_eq!(Gf256::zero().inv(), Err(Error::DivisionByZero));
    assert_eq!(Gf256::one().checked_div(Gf256::zero()), Err(Error::DivisionByZero));
}

#[test]
fn combining_names_the_first_odd_row() {
    let (a, b, c) = (GfVec::zeros(2), GfVec::zeros(3), GfVec::zeros(4));
    let ones = [Gf256::one(), Gf256::one(), Gf256::one()];
    assert_eq!(
        GfVec::linear_combine(&ones, &[&a, &b, &c]).err(),
        Some(Error::DimensionMismatch { expected: 2, actual: 3 })
    );
    assert_eq!(
        GfVec::linear_combine(&ones, &[&a]).err(),
        Some(Error::DimensionMismatch { expected: 3, actual: 1 })
    );
    assert_eq!(
        GfMatrix::new(vec![a, c]).err(),
        Some(Error::DimensionMismatch { expected: 2, actual: 4 })
    );
}

#[test]
fn random_sources_may_fail() {
    let broken = || Error::RandomGenerationFailed("no entropy".to_string());
    let orig = OriginalData::from_bytes(&[1, 2, 3], 2).unwrap();
    let encoder = Encoder::new(orig);
    assert_eq!(encoder.encode_one(move |_| Err(broken())).run().err(), Some(broken()));
    let failing = encoder.encode_stream(move |_| Err(broken()));
    assert_eq!(failing.take(3).collect().run().err(), Some(broken()));
    // A short answer is a coding vector of the wrong length.
    assert_eq!(
        encoder.encode_one(|_| Ok(vec![1])).run().err(),
        Some(Error::CodingVectorLengthMismatch { expected: 2, actual: 1 })
    );
}

#[test]
fn samplers_report_short_reads_and_exhaustion() {
    let short = |_: usize| Ok(vec![0u8; 3]);
    assert_eq!(
        Zq::<97>::sample(&short).err(),
        Some(Error::RandomGenerationFailed("short read: expected 4 bytes, got 3".to_string()))
    );
    let high = |n: usize| Ok(vec![0xFFu8; n]);
    assert_eq!(
        Zq::<97>::sample(&high).err(),
        Some(Error::RandomGenerationFailed("rejection sampling exhausted".to_string()))
    );
    assert_eq!(
        sample_ternary(5, &high).err(),
        Some(Error::RandomGenerationFailed("ternary sampling exhausted".to_string()))
    );
}

#[test]
fn samplers_report_errors_of_the_source() {
    let empty = |_: usize| -> Result<Vec<u8>, Error> { Err(Error::EmptyData) };
    let reported = || Some(Error::RandomGenerationFailed("input data is empty".to_string()));
    assert_eq!(Zq::<97>::sample(&empty).err(), reported());
    assert_eq!(ZqVec::<97>::sample(1, &empty).err(), reported());
    assert_eq!(ZqVec::<97>::sample(usize::MAX, &empty).err(), reported());
    assert_eq!(ZqMatrix::<97>::sample(2, 3, &empty).err(), reported());
    assert_eq!(sample_ternary(5, &empty).err(), reported());
    let params = || LhsParams::<97>::new(2, 3, 4, 1000, 3.0f64.to_bits()).unwrap();
    assert_eq!(keygen(params(), &empty).err(), reported());
    // The uniform matrix asks for four bytes at a time, the trapdoor for more.
    let late = |n: usize| if n == 4 { Ok(vec![7; 4]) } else { Err(Error::EmptyData) };
    assert_eq!(keygen(params(), &late).err(), reported());
    let broken = || Error::RandomGenerationFailed("device lost".to_string());
    assert_eq!(Zq::<97>::sample(&|_| Err(broken())).err(), Some(broken()));
    assert_eq!(sample_ternary(5, &|_| Err(broken())).err(), Some(broken()));
}

#[test]
fn a_matrix_without_columns_gives_a_zero_per_row() {
    let m = ZMatrix::new(2, 0, vec![]).unwrap();
    assert_eq!(m.mul_vec(&ZVec::new(vec![])), Ok(ZVec::new(vec![0, 0])));
    assert_eq!(
        m.mul_vec(&ZVec::new(vec![1])),
        Err(Error::DimensionMismatch { expected: 0, actual: 1 })
    );
    let m = ZqMatrix::<97>::new(2, 0, vec![]).unwrap();
    assert_eq!(m.mul_vec(&ZqVec::new(vec![])), Ok(ZqVec::zeros(2)));
}

#[test]
fn a_power_of_two_has_no_kernel_basis() {
    let params = LhsParams::<128>::new(1, 1, 1, 10, 3.0f64.to_bits()).unwrap();
    let r = ZMatrix::zeros(1, params.gadget_width());
    assert_eq!(
        SecretKey::new(r, params.clone()).err().map(|e| e.message()),
        Some(
            "random generation failed: basis is singular: Gram-Schmidt row 6 has squared norm 0"
                .to_string()
        )
    );
    assert_eq!(
        SecretKey::new(ZMatrix::zeros(2, 3), params).err(),
        Some(Error::DimensionMismatch { expected: 7, actual: 6 })
    );
}

#[test]
fn sending_reports_unknown_and_dropped_peers() {
    let mut transports = InMemoryNetwork::<u8>::new(2).into_transports();
    let sender = transports[0].sender();
    assert_eq!(
        sender.send(PeerIndex::from(2), 1).run(),
        Err(Error::TransportFailed("unknown peer 2".to_string()))
    );
    drop(transports.pop());
    assert_eq!(
        sender.send(PeerIndex::from(1), 1).run(),
        Err(Error::TransportFailed("sending on a closed channel".to_string()))
    );
}

#[test]
fn a_failing_stream_fails_the_decoder() {
    let orig = OriginalData::from_bytes(&[1, 2, 3], 2).unwrap();
    let stream = Encoder::new(orig).encode_stream(|_| Err(Error::EmptyData));
    assert_eq!(decode_stream(2, 2, stream.take(1)).run().err(), Some(Error::EmptyData));
    let none: Stream<Error, CodedPiece> = Stream::from_vec(Vec::new());
    assert_eq!(
        decode_stream(2, 2, none).run().err(),
        Some(Error::InsufficientPieces { needed: 2, received: 0 })
    );
}

#[test]
fn a_piece_of_other_dimensions_restarts_a_stream() {
    let orig = OriginalData::from_bytes(&[1, 2, 3], 2).unwrap();
    let a = encode_with_vector(&orig, CodingVector::from_bytes(&[1, 0])).unwrap();
    let b = encode_with_vector(&orig, CodingVector::from_bytes(&[0, 1])).unwrap();
    let odd = piece(&[1], &[1]);
    let stream = Stream::from_vec(vec![a, odd, b]);
    assert_eq!(
        decode_stream(2, orig.piece_byte_len(), stream).run().err(),
        Some(Error::InsufficientPieces { needed: 2, received: 1 })
    );
}

#[test]
fn messages_read_as_sentences() {
    let cases = [
        (Error::EmptyData, "input data is empty"),
        (Error::InvalidPieceCount, "piece count must be at least 1"),
        (
            Error::PieceSizeMismatch { expected: 10, actual: 9 },
            "piece size mismatch: expected 10, got 9",
        ),
        (
            Error::CodingVectorLengthMismatch { expected: 0, actual: 123 },
            "coding vector length mismatch: expected 0, got 123",
        ),
        (
            Error::InsufficientPieces { needed: 4, received: 2 },
            "insufficient pieces: need 4, received 2",
        ),
        (Error::DivisionByZero, "division by zero in GF(2^8)"),
        (Error::InvalidPadding, "boundary marker not found or padding is invalid"),
        (
            Error::DimensionMismatch { expected: 1, actual: 0 },
            "dimension mismatch: expected 1, got 0",
        ),
        (
            Error::RandomGenerationFailed("dry".to_string()),
            "random generation failed: dry",
        ),
        (Error::AuthenticatorRejected, "authenticator rejected the piece"),
        (Error::TransportFailed("cut".to_string()), "transport failed: cut"),
    ];
    for (error, text) in cases {
        assert_eq!(error.message(), text);
    }
}

#[test]
fn elements_show_their_field() {
    assert_eq!(format!("{:?}", Gf256::new(0x53)), "Gf256(0x53)");
    assert_eq!(format!("{:?}", Gf256::new(0x0A)), "Gf256(0x0A)");
    assert_eq!(format!("{:#?}", Gf256::zero()), "Gf256(0x00)");
    assert_eq!(format!("{:?}", Zq::<97>::new(5)), "Zq<97>(5)");
    assert_eq!(format!("{:>12?}", Zq::<97>::new(102)), "Zq<97>(5)");
    assert_eq!(
        format!("{:?}", Zq::<{ u32::MAX }>::new(u32::MAX - 1)),
        "Zq<4294967295>(4294967294)"
    );
    assert_eq!(format!("{:?}", GfVec::from_bytes(&[1])), "GfVec { elements: [Gf256(0x01)] }");
    assert_eq!(
        format!("{:?}", ZqVec::<7>::new(vec![Zq::new(3)])),
        "ZqVec { entries: [Zq<7>(3)] }"
    );
}
