use comp_cat_rs::effect::stream::Stream;
use rlnc_cat_rs::coding::decode::{decode_stream, DecoderState};
use rlnc_cat_rs::coding::encode::{encode_with_vector, Encoder};
use rlnc_cat_rs::coding::piece::{CodedPiece, CodingVector, OriginalData};
use rlnc_cat_rs::coding::recode::Recoder;
use rlnc_cat_rs::error::Error;
use rlnc_cat_rs::field::Gf256;
use rlnc_cat_rs::vector::gauss::{forward_eliminate, rank, reduced_row_echelon_form};
use rlnc_cat_rs::vector::{GfMatrix, GfVec};
use std::sync::atomic::{AtomicUsize, Ordering};
use std::sync::Arc;

fn coded(orig: &OriginalData, coeffs: &[u8]) -> CodedPiece {
    encode_with_vector(orig, CodingVector::from_bytes(coeffs)).unwrap()
}

fn decoded(orig: &OriginalData, pieces: &[CodedPiece]) -> Result<Vec<u8>, Error> {
    pieces
        .iter()
        .try_fold(DecoderState::new(orig.piece_count(), orig.piece_byte_len()), |s, p| s.absorb(p))
        .and_then(DecoderState::decode)
}

#[test]
fn known_products() {
    assert_eq!(Gf256::new(0x53) * Gf256::new(0xCA), Gf256::one());
    assert_eq!(Gf256::new(0x53).inv(), Ok(Gf256::new(0xCA)));
    assert_eq!(Gf256::new(0x57) * Gf256::new(0x83), Gf256::new(0xC1));
    assert_eq!(Gf256::new(0x57) * Gf256::new(0x13), Gf256::new(0xFE));
    assert_eq!(Gf256::new(0x80) * Gf256::new(2), Gf256::new(0x1B));
    assert_eq!(Gf256::new(0xAB).to_hex(), "0xAB");
    assert_eq!(Gf256::new(0x05).to_hex(), "0x05");
}

#[test]
fn field_laws_on_all_pairs_and_some_triples() {
    for x in 0..=255u8 {
        for y in 0..=255u8 {
            let (a, b) = (Gf256::new(x), Gf256::new(y));
            assert_eq!(a * b, b * a);
            assert_eq!((a * b).is_zero(), a.is_zero() || b.is_zero());
            for z in [0u8, 1, 2, 0x53, 0xFF] {
                let c = Gf256::new(z);
                assert_eq!((a * b) * c, a * (b * c));
                assert_eq!(a * (b + c), a * b + a * c);
            }
        }
    }
}

#[test]
fn padding_marks_the_end_of_the_data() {
    let orig = OriginalData::from_bytes(&[9, 8, 7, 6, 5], 2).unwrap();
    assert_eq!(orig.piece_count(), 2);
    assert_eq!(orig.piece_byte_len(), 3);
    assert_eq!(orig.original_len(), 5);
    assert_eq!(orig.piece(0).map(GfVec::to_bytes), Some(vec![9, 8, 7]));
    assert_eq!(orig.piece(1).map(GfVec::to_bytes), Some(vec![6, 5, 0x81]));
    assert!(orig.piece(2).is_none());
}

#[test]
fn data_that_ends_like_padding_survives() {
    for data in [vec![0x81u8], vec![0], vec![0x81, 0, 0], vec![0, 0x81, 0], vec![0; 17], vec![0x81; 17]] {
        for count in 1..6 {
            let orig = OriginalData::from_bytes(&data, count).unwrap();
            assert_eq!(OriginalData::reconstruct(orig.pieces()).ok(), Some(data.clone()));
        }
    }
}

#[test]
fn any_independent_pieces_decode_in_any_order() {
    let data: Vec<u8> = (0..23).map(|i| i * 11 + 3).collect();
    let orig = OriginalData::from_bytes(&data, 3).unwrap();
    let (a, b, c) = (coded(&orig, &[1, 2, 3]), coded(&orig, &[4, 5, 6]), coded(&orig, &[7, 8, 9]));
    let dependent = coded(&orig, &[1 ^ 4, 2 ^ 5, 3 ^ 6]);
    let orders = [
        vec![a.clone(), b.clone(), c.clone()],
        vec![c.clone(), a.clone(), b.clone()],
        vec![a.clone(), a.clone(), b.clone(), dependent.clone(), c.clone()],
        vec![dependent, b.clone(), c.clone()],
        vec![c.clone(), b, a, c],
    ];
    for pieces in orders {
        assert_eq!(decoded(&orig, &pieces).ok(), Some(data.clone()));
        let stream = Stream::from_vec(pieces);
        let r = decode_stream(orig.piece_count(), orig.piece_byte_len(), stream).run();
        assert_eq!(r.ok(), Some(data.clone()));
    }
}

#[test]
fn useful_count_is_the_rank_of_the_coding_vectors() {
    let orig = OriginalData::from_bytes(&[1, 2, 3, 4, 5], 3).unwrap();
    let vectors: [&[u8]; 5] = [&[1, 0, 0], &[2, 0, 0], &[1, 1, 0], &[3, 1, 0], &[0, 0, 5]];
    let mut state = DecoderState::new(3, orig.piece_byte_len());
    let mut rows: Vec<GfVec> = Vec::new();
    for v in vectors {
        state = state.absorb(&coded(&orig, v)).unwrap();
        rows.push(GfVec::from_bytes(v));
        let expected = rank(&GfMatrix::new(rows.clone()).unwrap()).unwrap();
        assert_eq!(state.useful_count(), expected);
        assert_eq!(state.remaining(), 3 - expected);
        assert_eq!(state.is_complete(), expected == 3);
    }
}

#[test]
fn recoded_pieces_are_coded_pieces() {
    let data = vec![10u8, 20, 30, 40, 50];
    let orig = OriginalData::from_bytes(&data, 2).unwrap();
    let recoder = Recoder::new(2, orig.piece_byte_len())
        .add_piece(&coded(&orig, &[3, 5]))
        .and_then(|r| r.add_piece(&coded(&orig, &[7, 11])))
        .unwrap();
    assert_eq!(recoder.stored_count(), 2);
    let recoded = recoder.recode_one(|_| Ok(vec![2, 9])).run().unwrap();
    let coeffs: Vec<u8> = [(3u8, 7u8), (5, 11)]
        .iter()
        .map(|&(x, y)| {
            (Gf256::new(2) * Gf256::new(x) + Gf256::new(9) * Gf256::new(y)).value()
        })
        .collect();
    assert_eq!(recoded, coded(&orig, &coeffs));
    let pieces = recoder.recode_stream(|n| Ok(vec![1; n])).take(4).collect().run().unwrap();
    assert_eq!(pieces, vec![coded(&orig, &[3 ^ 7, 5 ^ 11]); 4]);
}

#[test]
fn reduction_is_idempotent_and_ranks_agree() {
    let rows = [[1u8, 2, 3, 4], [2, 4, 6, 8], [0, 1, 1, 0], [1, 3, 2, 4]];
    let m = GfMatrix::new(rows.iter().map(|r| GfVec::from_bytes(r)).collect()).unwrap();
    let (once, pivots) = reduced_row_echelon_form(&m).unwrap();
    let (twice, again) = reduced_row_echelon_form(&once).unwrap();
    assert_eq!(once, twice);
    assert_eq!(pivots, again);
    assert_eq!(rank(&m).ok(), Some(pivots.len()));
    assert_eq!(rank(&m).ok(), Some(2));
}

#[test]
fn nothing_runs_before_run() {
    let calls = Arc::new(AtomicUsize::new(0));
    let orig = OriginalData::from_bytes(&[1, 2, 3, 4], 2).unwrap();
    let encoder = Encoder::new(orig);
    let seen = Arc::clone(&calls);
    let io = encoder.encode_one(move |n| {
        seen.fetch_add(1, Ordering::Relaxed);
        Ok(vec![42u8; n])
    });
    assert_eq!(calls.load(Ordering::Relaxed), 0);
    let piece = io.run().unwrap();
    assert_eq!(calls.load(Ordering::Relaxed), 1);
    assert_eq!(piece.coding_vector().as_vec().to_bytes(), vec![42, 42]);
}

#[test]
fn a_stream_asks_once_per_piece() {
    let calls = Arc::new(AtomicUsize::new(0));
    let orig = OriginalData::from_bytes(&[1, 2, 3, 4], 2).unwrap();
    let seen = Arc::clone(&calls);
    let stream = Encoder::new(orig.clone()).encode_stream(move |n| {
        let i = seen.fetch_add(1, Ordering::Relaxed);
        Ok(vec![i as u8 + 1; n])
    });
    let pieces = stream.take(3).collect().run().unwrap();
    assert_eq!(calls.load(Ordering::Relaxed), 3);
    assert_eq!(pieces, (1..=3).map(|c| coded(&orig, &[c, c])).collect::<Vec<_>>());
}

#[test]
fn wire_format_is_coefficients_and_data() {
    let piece = CodedPiece::new(CodingVector::from_bytes(&[1, 2]), GfVec::from_bytes(&[3, 4, 5]));
    assert_eq!(piece.to_bytes(), vec![1, 2, 3, 4, 5]);
    assert_eq!(CodedPiece::from_bytes(&piece.to_bytes(), 2), Ok(piece));
    assert!(CodedPiece::from_bytes(&[1, 2], 3).is_err());
}

#[test]
fn forward_elimination_leaves_what_is_above_a_pivot() {
    let matrix = |rows: &[&[u8]]| {
        GfMatrix::new(rows.iter().map(|r| GfVec::from_bytes(r)).collect()).unwrap()
    };
    let (m, pivots) = forward_eliminate(&matrix(&[&[0, 2, 4], &[0, 1, 3]])).unwrap();
    assert_eq!(m, matrix(&[&[0, 1, 2], &[0, 0, 1]]));
    assert_eq!(pivots, vec![1, 2]);
    // The first row with an entry is swapped up.
    let (m, pivots) = forward_eliminate(&matrix(&[&[0, 5], &[0, 0], &[1, 7], &[1, 7]])).unwrap();
    assert_eq!(m, matrix(&[&[1, 7], &[0, 1], &[0, 0], &[0, 0]]));
    assert_eq!(pivots, vec![0, 1]);
}
