use comp_cat_rs::effect::stream::Stream;
use rlnc_cat_rs::auth::{Authenticator, KeyedHashAuthenticator, NullAuthenticator};
use rlnc_cat_rs::coding::encode::encode_with_vector;
use rlnc_cat_rs::coding::piece::{CodedPiece, CodingVector, OriginalData};
use rlnc_cat_rs::coding::recode::Recoder;
use rlnc_cat_rs::error::Error;
use rlnc_cat_rs::gossip::{fan_out_drawn, receive, relay, relay_fanout, source, WirePiece};
use rlnc_cat_rs::transport::InMemoryNetwork;
use rlnc_cat_rs::vector::GfVec;
use std::sync::atomic::{AtomicUsize, Ordering};
use std::sync::Arc;

type Keyed = KeyedHashAuthenticator;

/// Unit vectors, one after the other.
fn units() -> impl Fn(usize) -> Result<Vec<u8>, Error> + Send + Sync + 'static {
    let next = Arc::new(AtomicUsize::new(0));
    move |n| {
        let i = next.fetch_add(1, Ordering::Relaxed) % n;
        Ok((0..n).map(|j| u8::from(i == j)).collect())
    }
}

fn original() -> (OriginalData, Vec<u8>) {
    let data: Vec<u8> = (1..=9).collect();
    (OriginalData::from_bytes(&data, 3).unwrap(), data)
}

fn wires<A>(auth: &A, c: &A::Commitment, pieces: Vec<CodedPiece>) -> Vec<WirePiece<A>>
where
    A: Authenticator,
    A::Commitment: Clone,
    A::Tag: Clone,
{
    pieces
        .into_iter()
        .map(|p| {
            let tag = auth.tag(c, &p);
            WirePiece::new(c.clone(), p, tag)
        })
        .collect()
}

#[test]
fn hashes_are_those_of_blake3() {
    let (orig, _) = original();
    let key = [7u8; 32];
    let auth = Keyed::new(key);
    let commitment = auth.commit(&orig);
    let joined: Vec<u8> = orig.pieces().iter().flat_map(GfVec::to_bytes).collect();
    assert_eq!(commitment.as_bytes(), blake3::hash(&joined).as_bytes());
    let piece = encode_with_vector(&orig, CodingVector::from_bytes(&[1, 2, 3])).unwrap();
    let mut payload = commitment.as_bytes().to_vec();
    payload.extend(piece.to_bytes());
    let tag = auth.tag(&commitment, &piece);
    assert_eq!(tag.as_bytes(), blake3::keyed_hash(&key, &payload).as_bytes());
    assert!(tag == tag.clone());
    let mut other: [u8; 32] = tag.into();
    other[31] ^= 1;
    assert!(tag != other.into());
}

#[test]
fn source_emits_tagged_coded_pieces() {
    let (orig, _) = original();
    let auth = Arc::new(Keyed::new([1; 32]));
    let (commitment, stream) = source(Arc::clone(&auth), orig.clone(), units());
    let items = stream.take(4).collect().run().unwrap();
    assert_eq!(items.len(), 4);
    for (i, wire) in items.iter().enumerate() {
        let coeffs: Vec<u8> = (0..3).map(|j| u8::from(i % 3 == j)).collect();
        let expected = encode_with_vector(&orig, CodingVector::from_bytes(&coeffs)).unwrap();
        assert_eq!(wire.piece(), &expected);
        assert_eq!(wire.commitment(), &commitment);
        assert!(auth.verify(&commitment, wire.piece(), wire.tag()).is_ok());
    }
}

#[test]
fn relay_emits_one_coded_piece_per_accepted_piece() {
    let (orig, data) = original();
    let auth = Arc::new(Keyed::new([1; 32]));
    let (commitment, stream) = source(Arc::clone(&auth), orig.clone(), units());
    let mut items = stream.take(3).collect().run().unwrap();
    // A forged tag and a piece of other dimensions are dropped.
    let forged = WirePiece::new(commitment, items[0].piece().clone(), [0u8; 32].into());
    let odd = CodedPiece::new(CodingVector::from_bytes(&[1]), GfVec::zeros(4));
    items.push(forged);
    items.extend(wires(&*auth, &commitment, vec![odd]));
    let ones = |n: usize| Ok((0..n).map(|j| u8::from(j + 1 == n)).collect());
    let (k, b) = (orig.piece_count(), orig.piece_byte_len());
    let out = relay(Arc::clone(&auth), commitment, k, b, Stream::from_vec(items), ones)
        .run()
        .unwrap()
        .collect()
        .run()
        .unwrap();
    assert_eq!(out.len(), 3);
    for wire in &out {
        let coeffs = wire.piece().coding_vector().clone();
        assert_eq!(wire.piece(), &encode_with_vector(&orig, coeffs).unwrap());
    }
    let decoded = receive(auth, commitment, k, b, Stream::from_vec(out)).run();
    assert_eq!(decoded.ok(), Some(data));
}

#[test]
fn fan_out_numbers_the_peers_in_order() {
    let (orig, data) = original();
    let auth = Arc::new(NullAuthenticator);
    let (k, b) = (orig.piece_count(), orig.piece_byte_len());
    let ((), stream) = source(Arc::clone(&auth), orig, units());
    let last = |n: usize| Ok((0..n).map(|j| u8::from(j + 1 == n)).collect());
    let out = relay_fanout(Arc::clone(&auth), (), k, b, 2, stream.take(k), last)
        .run()
        .unwrap()
        .collect()
        .run()
        .unwrap();
    let peers: Vec<usize> = out.iter().map(|(peer, _)| peer.value()).collect();
    assert_eq!(peers, vec![0, 1, 0, 1, 0, 1]);
    for peer in 0..2 {
        let own: Vec<_> =
            out.iter().filter(|(p, _)| p.value() == peer).map(|(_, w)| w.clone()).collect();
        let decoded = receive(Arc::clone(&auth), (), k, b, Stream::from_vec(own)).run();
        assert_eq!(decoded.ok(), Some(data.clone()));
    }
}

#[test]
fn a_rejecting_receiver_keeps_nothing() {
    let (orig, _) = original();
    let (k, b) = (orig.piece_count(), orig.piece_byte_len());
    let (commitment, stream) = source(Arc::new(Keyed::new([1; 32])), orig, units());
    let r = receive(Arc::new(Keyed::new([2; 32])), commitment, k, b, stream.take(k)).run();
    assert_eq!(r.err(), Some(Error::InsufficientPieces { needed: 3, received: 0 }));
}

#[test]
fn a_network_is_a_full_mesh() {
    let transports = InMemoryNetwork::<u32>::new(3).into_transports();
    let senders: Vec<_> = transports.iter().map(|t| t.sender()).collect();
    for (i, transport) in transports.iter().enumerate() {
        assert_eq!(transport.self_peer().value(), i);
        assert_eq!(transport.sender().self_peer().value(), i);
        assert_eq!(transport.peer_count(), 3);
    }
    for (i, sender) in senders.iter().enumerate() {
        for j in 0..3 {
            sender.send(j.into(), (10 * i + j) as u32).run().unwrap();
        }
    }
    for (j, transport) in transports.into_iter().enumerate() {
        let items = transport.into_inbound().take(3).collect().run().unwrap();
        let got: Vec<(usize, u32)> = items.iter().map(|(p, x)| (p.value(), *x)).collect();
        let expected: Vec<(usize, u32)> = (0..3).map(|i| (i, (10 * i + j) as u32)).collect();
        assert_eq!(got, expected);
    }
}

#[test]
fn each_peer_gets_the_piece_of_its_own_draw() {
    let (orig, _) = original();
    let (k, b) = (orig.piece_count(), orig.piece_byte_len());
    let coded = |c: &[u8]| encode_with_vector(&orig, CodingVector::from_bytes(c)).unwrap();
    let recoder = Recoder::new(k, b)
        .add_piece(&coded(&[1, 0, 0]))
        .and_then(|r| r.add_piece(&coded(&[0, 1, 0])))
        .unwrap();
    let auth = NullAuthenticator;
    let draws = vec![Ok(vec![1, 0]), Err(Error::EmptyData), Ok(vec![1]), Ok(vec![2, 3])];
    let block = fan_out_drawn(&auth, &(), &recoder, draws);
    let found: Vec<_> = block.iter().map(|(p, w)| (p.value(), w.piece().clone())).collect();
    assert_eq!(found, vec![(0, coded(&[1, 0, 0])), (3, coded(&[2, 3, 0]))]);
    let empty = Recoder::new(k, b);
    assert!(fan_out_drawn(&auth, &(), &empty, vec![Ok(vec![])]).is_empty());
}

#[test]
fn every_peer_is_drawn_for_once() {
    let (orig, _) = original();
    let (k, b) = (orig.piece_count(), orig.piece_byte_len());
    let auth = Arc::new(NullAuthenticator);
    let (_, stream) = source(Arc::clone(&auth), orig, units());
    let asked = Arc::new(AtomicUsize::new(0));
    let count = Arc::clone(&asked);
    let rng = move |n: usize| {
        let i = count.fetch_add(1, Ordering::Relaxed);
        Ok(vec![i as u8 + 1; n])
    };
    let out = relay_fanout(auth, (), k, b, 4, stream.take(1), rng);
    let out = out.run().unwrap().collect().run().unwrap();
    assert_eq!(asked.load(Ordering::Relaxed), 4);
    let leads: Vec<Vec<u8>> =
        out.iter().map(|(_, w)| w.piece().coding_vector().as_vec().to_bytes()).collect();
    assert_eq!(leads, vec![vec![1, 0, 0], vec![2, 0, 0], vec![3, 0, 0], vec![4, 0, 0]]);
}

#[test]
fn bad_pieces_do_not_influence_a_receiver() {
    let (orig, data) = original();
    let (k, b) = (orig.piece_count(), orig.piece_byte_len());
    let auth = Arc::new(Keyed::new([3; 32]));
    let c = auth.commit(&orig);
    let coded = |v: &[u8]| encode_with_vector(&orig, CodingVector::from_bytes(v)).unwrap();
    let odd = CodedPiece::new(CodingVector::from_bytes(&[1]), GfVec::zeros(b));
    let forged = || {
        let tag = Keyed::new([4; 32]).tag(&c, &coded(&[9, 9, 9]));
        WirePiece::new(c.clone(), coded(&[9, 9, 9]), tag)
    };
    for rows in [&[&[1u8, 0, 0], &[1, 1, 0], &[1, 1, 1]], &[&[1, 0, 0], &[2, 0, 0], &[1, 1, 0]]] {
        let good = || wires(&*auth, &c, rows.iter().map(|r| coded(&r[..])).collect());
        let mut all = Vec::new();
        for wire in good() {
            all.push(forged());
            all.extend(wires(&*auth, &c, vec![odd.clone()]));
            all.push(wire);
        }
        let run = |items| receive(Arc::clone(&auth), c.clone(), k, b, Stream::from_vec(items)).run();
        let (mixed, alone) = (run(all), run(good()));
        assert_eq!(mixed, alone);
        if rows[1][1] == 1 {
            assert_eq!(alone, Ok(data.clone()));
        } else {
            assert_eq!(alone, Err(Error::InsufficientPieces { needed: 3, received: 2 }));
        }
    }
}
