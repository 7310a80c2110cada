use comp_cat_rs::effect::stream::Stream;
use rlnc_cat_rs::auth::{KeyedHashAuthenticator, NullAuthenticator};
use rlnc_cat_rs::coding::piece::OriginalData;
use rlnc_cat_rs::error::Error;
use rlnc_cat_rs::field::Gf256;
use rlnc_cat_rs::gossip::{receive, relay, relay_fanout, source, WirePiece};
use rlnc_cat_rs::lattice::gaussian::{sample_step, RETRY_BUDGET};
use rlnc_cat_rs::lattice::ZVec;
use rlnc_cat_rs::lhs::{keygen, LatticeHomomorphicAuthenticator, LhsParams, SecretKey};
use std::sync::atomic::{AtomicU32, AtomicUsize, Ordering};
use std::sync::Arc;

const METADATA: &[u8] = b"gossip";

/// Orthogonalize the rows of the kernel basis.
fn gram_schmidt(rows: &[Vec<f64>]) -> Vec<Vec<f64>> {
    rows.iter().fold(Vec::new(), |mut gs: Vec<Vec<f64>>, row| {
        let orth = gs.iter().fold(row.clone(), |acc, g| {
            let ip: f64 = acc.iter().zip(g).map(|(a, b)| a * b).sum();
            let ns: f64 = g.iter().map(|x| x * x).sum();
            acc.iter().zip(g).map(|(a, b)| a - ip / ns * b).collect()
        });
        gs.push(orth);
        gs
    })
}

fn discrete_gaussian<F>(sigma: f64, center: f64, rng: &F) -> Result<i64, Error>
where
    F: Fn(usize) -> Result<Vec<u8>, Error>,
{
    let low = (center - 12.0 * sigma).floor() as i64;
    let high = (center + 12.0 * sigma).ceil() as i64;
    let decide = |x: i64, toss: u64| {
        let u = (toss >> 11) as f64 / ((1u64 << 53) as f64);
        let delta = x as f64 - center;
        u < (-delta * delta / (2.0 * sigma * sigma)).exp()
    };
    sample_step(rng, low, (high - low + 1) as u64, &decide, RETRY_BUDGET)
}

/// Klein's algorithm on the kernel basis of a secret key.
fn klein<const Q: u32, F>(
    sk: &SecretKey<Q>,
    rng: F,
) -> impl Fn(Vec<i64>, u64) -> Result<ZVec, Error>
where
    F: Fn(usize) -> Result<Vec<u8>, Error>,
{
    let basis = sk.gadget_kernel();
    let rows: Vec<Vec<f64>> = (0..basis.rows())
        .map(|i| basis.row(i).unwrap_or(&[]).iter().map(|&x| x as f64).collect())
        .collect();
    let gs = gram_schmidt(&rows);
    move |center, width| {
        let sigma = f64::from_bits(width);
        let mut t: Vec<f64> = center.iter().map(|&x| x as f64).collect();
        let mut zs = vec![0i64; rows.len()];
        for i in (0..rows.len()).rev() {
            let ns: f64 = gs[i].iter().map(|x| x * x).sum();
            let ip: f64 = t.iter().zip(&gs[i]).map(|(a, b)| a * b).sum();
            let z = discrete_gaussian(sigma / ns.sqrt(), ip / ns, &rng)?;
            t = t.iter().zip(&rows[i]).map(|(a, b)| a - z as f64 * b).collect();
            zs[i] = z;
        }
        Ok(ZVec::new(zs))
    }
}

/// An RNG that returns a Vandermonde row per call: the i-th invocation
/// yields `[1, base, base^2, ..., base^(n-1)]` where `base = (i % 255) + 1`.
/// k < 255 rows are guaranteed linearly independent in GF(2^8).
fn vandermonde_rng() -> impl Fn(usize) -> Result<Vec<u8>, Error> + Send + Sync + 'static {
    let counter = Arc::new(AtomicU32::new(0));
    #[allow(clippy::cast_possible_truncation)]
    move |n: usize| -> Result<Vec<u8>, Error> {
        let i = counter.fetch_add(1, Ordering::Relaxed);
        let base = Gf256::new(((i % 255 + 1) & 0xFF) as u8);
        Ok((0..n)
            .map(|j| (0..j).fold(Gf256::one(), |acc, _| acc * base).value())
            .collect())
    }
}

/// Distinct-seed integer RNG for LHS keygen.  Avoids colliding with
/// the Vandermonde RNG used for coding-vector generation.
fn keygen_rng(seed: usize) -> impl Fn(usize) -> Result<Vec<u8>, Error> + Send + Sync + 'static {
    let counter = Arc::new(AtomicUsize::new(seed));
    move |n: usize| -> Result<Vec<u8>, Error> {
        let i = counter.fetch_add(1, Ordering::Relaxed);
        #[allow(clippy::cast_possible_truncation)]
        Ok((0..n)
            .map(|j| ((i.wrapping_mul(0x9E37_79B9) + j) & 0xFF) as u8)
            .collect())
    }
}

#[test]
fn null_auth_roundtrip() {
    let data = vec![10u8, 20, 30, 40, 50, 60, 70, 80];
    let orig = OriginalData::from_bytes(&data, 4)
        .unwrap_or_else(|_| OriginalData::from_bytes(&[0], 1).ok().unwrap());
    let k = orig.piece_count();
    let b = orig.piece_byte_len();

    let auth = Arc::new(NullAuthenticator);
    let (commitment, stream) = source(Arc::clone(&auth), orig, vandermonde_rng());
    let decoded = receive(auth, commitment, k, b, stream.take(k)).run();
    assert!(decoded.is_ok());
    assert_eq!(decoded.unwrap_or_default(), data);
}

#[test]
fn keyed_hash_auth_roundtrip() {
    let data = vec![10u8, 20, 30, 40, 50, 60, 70, 80];
    let orig = OriginalData::from_bytes(&data, 4)
        .unwrap_or_else(|_| OriginalData::from_bytes(&[0], 1).ok().unwrap());
    let k = orig.piece_count();
    let b = orig.piece_byte_len();

    let auth = Arc::new(KeyedHashAuthenticator::new([42u8; 32]));
    let (commitment, stream) = source(Arc::clone(&auth), orig, vandermonde_rng());
    let decoded = receive(auth, commitment, k, b, stream.take(k)).run();
    assert!(decoded.is_ok());
    assert_eq!(decoded.unwrap_or_default(), data);
}

#[test]
fn relay_roundtrip_null_auth() {
    // source → relay → receive, with NullAuthenticator on every hop.
    let data = vec![10u8, 20, 30, 40, 50, 60, 70, 80, 90, 100, 110, 120];
    let orig = OriginalData::from_bytes(&data, 4)
        .unwrap_or_else(|_| OriginalData::from_bytes(&[0], 1).ok().unwrap());
    let k = orig.piece_count();
    let b = orig.piece_byte_len();
    let auth = Arc::new(NullAuthenticator);

    let (commitment, src_stream) = source(Arc::clone(&auth), orig, vandermonde_rng());
    let relayed_io = relay(
        Arc::clone(&auth),
        commitment,
        k,
        b,
        src_stream.take(k),
        vandermonde_rng(),
    );
    let relayed_stream = relayed_io.run();
    assert!(relayed_stream.is_ok());
    let decoded = receive(
        auth,
        commitment,
        k,
        b,
        relayed_stream.unwrap_or_else(|_| Stream::from_vec(Vec::new())),
    )
    .run();
    assert!(decoded.is_ok());
    assert_eq!(decoded.unwrap_or_default(), data);
}

#[test]
fn relay_roundtrip_keyed_hash_shared_key() {
    // source, relay, and receiver all share the same BLAKE3 key.
    let data = vec![10u8, 20, 30, 40, 50, 60, 70, 80, 90, 100, 110, 120];
    let orig = OriginalData::from_bytes(&data, 4)
        .unwrap_or_else(|_| OriginalData::from_bytes(&[0], 1).ok().unwrap());
    let k = orig.piece_count();
    let b = orig.piece_byte_len();
    let auth = Arc::new(KeyedHashAuthenticator::new([0x5Au8; 32]));

    let (commitment, src_stream) = source(Arc::clone(&auth), orig, vandermonde_rng());
    let relayed_io = relay(
        Arc::clone(&auth),
        commitment,
        k,
        b,
        src_stream.take(k),
        vandermonde_rng(),
    );
    let relayed_stream = relayed_io.run();
    assert!(relayed_stream.is_ok());
    let decoded = receive(
        auth,
        commitment,
        k,
        b,
        relayed_stream.unwrap_or_else(|_| Stream::from_vec(Vec::new())),
    )
    .run();
    assert!(decoded.is_ok());
    assert_eq!(decoded.unwrap_or_default(), data);
}

#[test]
fn relay_fanout_each_peer_decodes() {
    // fanout with peer_count=3; each peer's slice independently reconstructs the data.
    let data = vec![10u8, 20, 30, 40, 50, 60, 70, 80, 90, 100, 110, 120];
    let orig = OriginalData::from_bytes(&data, 4)
        .unwrap_or_else(|_| OriginalData::from_bytes(&[0], 1).ok().unwrap());
    let k = orig.piece_count();
    let b = orig.piece_byte_len();
    let peer_count = 3;
    let auth = Arc::new(NullAuthenticator);

    let (commitment, src_stream) = source(Arc::clone(&auth), orig, vandermonde_rng());
    let fanned_stream = relay_fanout(
        Arc::clone(&auth),
        commitment,
        k,
        b,
        peer_count,
        src_stream.take(k),
        vandermonde_rng(),
    )
    .run()
    .unwrap_or_else(|_| Stream::from_vec(Vec::new()));

    let all_pairs = fanned_stream.collect().run().unwrap_or_default();
    assert_eq!(all_pairs.len(), peer_count * k);

    (0..peer_count).for_each(|peer_i| {
        let peer_pieces: Vec<WirePiece<NullAuthenticator>> = all_pairs
            .iter()
            .filter(|(idx, _)| idx.value() == peer_i)
            .map(|(_, wp)| wp.clone())
            .collect();
        assert_eq!(peer_pieces.len(), k);

        let peer_stream = Stream::from_vec(peer_pieces);
        let decoded = receive(Arc::clone(&auth), commitment, k, b, peer_stream).run();
        assert!(decoded.is_ok(), "peer {peer_i} failed to decode");
        assert_eq!(decoded.unwrap_or_default(), data);
    });
}

#[test]
fn relay_fanout_emits_exact_peer_count_per_accepted_input() {
    let data = vec![1u8, 2, 3, 4, 5, 6, 7, 8];
    let orig = OriginalData::from_bytes(&data, 4)
        .unwrap_or_else(|_| OriginalData::from_bytes(&[0], 1).ok().unwrap());
    let k = orig.piece_count();
    let b = orig.piece_byte_len();
    let peer_count = 5;
    let auth = Arc::new(NullAuthenticator);

    let (commitment, src_stream) = source(Arc::clone(&auth), orig, vandermonde_rng());
    let fanned_stream = relay_fanout(
        auth,
        commitment,
        k,
        b,
        peer_count,
        src_stream.take(k),
        vandermonde_rng(),
    )
    .run()
    .unwrap_or_else(|_| Stream::from_vec(Vec::new()));
    let all_pairs = fanned_stream.collect().run().unwrap_or_default();

    assert_eq!(all_pairs.len(), peer_count * k);
    (0..peer_count).for_each(|peer_i| {
        let per_peer = all_pairs
            .iter()
            .filter(|(idx, _)| idx.value() == peer_i)
            .count();
        assert_eq!(per_peer, k, "peer {peer_i} count");
    });
}

#[test]
fn relay_drops_pieces_with_wrong_source_key() {
    // Source uses one key; relay uses a different key.  The relay's
    // verify step rejects every piece, so it emits an empty stream
    // and the downstream receive fails with InsufficientPieces.
    let data = vec![10u8, 20, 30, 40, 50, 60, 70, 80, 90, 100, 110, 120];
    let orig = OriginalData::from_bytes(&data, 4)
        .unwrap_or_else(|_| OriginalData::from_bytes(&[0], 1).ok().unwrap());
    let k = orig.piece_count();
    let b = orig.piece_byte_len();

    let src_auth = Arc::new(KeyedHashAuthenticator::new([1u8; 32]));
    let (commitment, src_stream) = source(Arc::clone(&src_auth), orig, vandermonde_rng());

    let relay_auth = Arc::new(KeyedHashAuthenticator::new([2u8; 32]));
    let relayed_io = relay(
        Arc::clone(&relay_auth),
        commitment,
        k,
        b,
        src_stream.take(k),
        vandermonde_rng(),
    );
    let relayed_stream = relayed_io.run();
    assert!(relayed_stream.is_ok());
    let decoded = receive(
        relay_auth,
        commitment,
        k,
        b,
        relayed_stream.unwrap_or_else(|_| Stream::from_vec(Vec::new())),
    )
    .run();
    assert!(decoded.is_err());
}

#[test]
fn keyed_hash_auth_rejects_wrong_key() {
    // Source uses one key, receiver uses another.  Every piece's tag
    // fails verification, so no piece is absorbed and decode errors
    // with InsufficientPieces.
    let data = vec![10u8, 20, 30, 40, 50, 60, 70, 80];
    let orig = OriginalData::from_bytes(&data, 4)
        .unwrap_or_else(|_| OriginalData::from_bytes(&[0], 1).ok().unwrap());
    let k = orig.piece_count();
    let b = orig.piece_byte_len();

    let source_auth = Arc::new(KeyedHashAuthenticator::new([1u8; 32]));
    let (commitment, stream) = source(source_auth, orig, vandermonde_rng());

    let receiver_auth = Arc::new(KeyedHashAuthenticator::new([2u8; 32]));
    let decoded = receive(receiver_auth, commitment, k, b, stream.take(k)).run();
    assert!(decoded.is_err());
}

fn build_lhs_auth(seed: usize) -> Option<LatticeHomomorphicAuthenticator<97>> {
    let params = LhsParams::<97>::new(2, 2, 4, 100_000_000, 3.0f64.to_bits()).ok()?;
    let (pk, sk) = keygen(params, &keygen_rng(seed)).ok()?;
    let sampler = klein(&sk, keygen_rng(seed + 1));
    LatticeHomomorphicAuthenticator::new(pk, &sk, METADATA, &sampler).ok()
}

#[test]
fn lhs_auth_source_to_receive_roundtrip() {
    // The source tags k coded pieces homomorphically; the receiver
    // verifies each tag, admits the piece, and decodes the payload.
    let data = vec![10u8, 20, 30, 40, 50, 60, 70, 80];
    let orig = OriginalData::from_bytes(&data, 4)
        .unwrap_or_else(|_| OriginalData::from_bytes(&[0], 1).ok().unwrap());
    let k = orig.piece_count();
    let b = orig.piece_byte_len();
    let auth = build_lhs_auth(0).map(Arc::new);

    let decoded = auth.and_then(|a| {
        let (commitment, stream) = source(Arc::clone(&a), orig, vandermonde_rng());
        receive(a, commitment, k, b, stream.take(k)).run().ok()
    });
    assert_eq!(decoded, Some(data));
}

#[test]
fn lhs_auth_source_to_relay_to_receive_roundtrip() {
    // A relay in the middle re-tags every recoded piece using only
    // the public broadcast artefacts (pk, σ_1, …, σ_k).  The
    // downstream receiver verifies and decodes end-to-end.
    let data = vec![10u8, 20, 30, 40, 50, 60, 70, 80, 90, 100, 110, 120];
    let orig = OriginalData::from_bytes(&data, 4)
        .unwrap_or_else(|_| OriginalData::from_bytes(&[0], 1).ok().unwrap());
    let k = orig.piece_count();
    let b = orig.piece_byte_len();
    let auth = build_lhs_auth(0).map(Arc::new);

    let decoded = auth.and_then(|a| {
        let (commitment, src_stream) = source(Arc::clone(&a), orig, vandermonde_rng());
        let relayed_stream = relay(
            Arc::clone(&a),
            commitment,
            k,
            b,
            src_stream.take(k),
            vandermonde_rng(),
        )
        .run()
        .ok()?;
        receive(a, commitment, k, b, relayed_stream).run().ok()
    });
    assert_eq!(decoded, Some(data));
}

#[test]
fn lhs_auth_relay_from_public_artifacts_only() {
    // The relay never sees the secret key.  It reconstructs its
    // authenticator via from_public_artifacts(pk, σ_originals) and
    // still produces verifiable tags — the homomorphic property
    // that distinguishes BFKW09 from MAC-style authenticators.
    let data = vec![10u8, 20, 30, 40, 50, 60, 70, 80, 90, 100, 110, 120];
    let orig = OriginalData::from_bytes(&data, 4)
        .unwrap_or_else(|_| OriginalData::from_bytes(&[0], 1).ok().unwrap());
    let k = orig.piece_count();
    let b = orig.piece_byte_len();

    let source_auth = build_lhs_auth(0).map(Arc::new);
    let relay_auth = source_auth.as_ref().and_then(|sa| {
        LatticeHomomorphicAuthenticator::from_public_artifacts(
            sa.public_key().clone(),
            METADATA,
            sa.signed_originals().to_vec(),
        )
        .ok()
        .map(Arc::new)
    });

    let decoded = source_auth.zip(relay_auth).and_then(|(sa, ra)| {
        let (commitment, src_stream) = source(Arc::clone(&sa), orig, vandermonde_rng());
        let relayed_stream = relay(
            ra,
            commitment,
            k,
            b,
            src_stream.take(k),
            vandermonde_rng(),
        )
        .run()
        .ok()?;
        receive(sa, commitment, k, b, relayed_stream).run().ok()
    });
    assert_eq!(decoded, Some(data));
}

#[test]
fn lhs_auth_receiver_with_wrong_generation_rejects() {
    // The source authenticates under generation A; the receiver
    // holds generation B's artefacts.  Every tag fails the
    // commitment-binding check, so decode errors out.
    let data = vec![10u8, 20, 30, 40, 50, 60, 70, 80];
    let orig = OriginalData::from_bytes(&data, 4)
        .unwrap_or_else(|_| OriginalData::from_bytes(&[0], 1).ok().unwrap());
    let k = orig.piece_count();
    let b = orig.piece_byte_len();

    let source_auth = build_lhs_auth(0).map(Arc::new);
    let wrong_auth = build_lhs_auth(10_000).map(Arc::new);

    let decoded = source_auth.zip(wrong_auth).map(|(sa, wa)| {
        let (commitment, stream) = source(sa, orig, vandermonde_rng());
        receive(wa, commitment, k, b, stream.take(k)).run()
    });
    assert!(decoded.is_some_and(|r| r.is_err()));
}
