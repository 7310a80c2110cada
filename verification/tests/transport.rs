use comp_cat_rs::effect::stream::Stream;
use rlnc_cat_rs::auth::NullAuthenticator;
use rlnc_cat_rs::coding::piece::OriginalData;
use rlnc_cat_rs::error::Error;
use rlnc_cat_rs::field::Gf256;
use rlnc_cat_rs::gossip::{receive, relay_fanout, source, PeerIndex, WirePiece};
use rlnc_cat_rs::transport::{InMemoryNetwork, InMemoryTransport};
use std::sync::atomic::{AtomicU32, Ordering};
use std::sync::Arc;

fn vandermonde_rng() -> impl Fn(usize) -> Result<Vec<u8>, Error> + Send + Sync + 'static {
    let counter = Arc::new(AtomicU32::new(0));
    #[allow(clippy::cast_possible_truncation)]
    move |n: usize| -> Result<Vec<u8>, Error> {
        let i = counter.fetch_add(1, Ordering::Relaxed);
        let base = Gf256::new(((i % 255 + 1) & 0xFF) as u8);
        Ok((0..n)
            .map(|j| (0..j).fold(Gf256::one(), |acc, _| acc * base).value())
            .collect())
    }
}

#[test]
fn sender_delivers_to_named_peer() {
    let transports = InMemoryNetwork::<u32>::new(2).into_transports();
    let pair: [InMemoryTransport<u32>; 2] = transports.try_into().ok().unwrap();
    let [t0, t1] = pair;
    let t0_sender = t0.sender();
    let t1_inbound = t1.into_inbound();

    // Send three u32s from peer 0 to peer 1, then drop t0_sender so
    // peer 1's inbox sees EOF after draining the buffered items.
    t0_sender.send(PeerIndex::from(1), 10u32).run().unwrap_or(());
    t0_sender.send(PeerIndex::from(1), 20u32).run().unwrap_or(());
    t0_sender.send(PeerIndex::from(1), 30u32).run().unwrap_or(());
    drop(t0_sender);
    drop(t0);

    let received = t1_inbound.collect().run().unwrap_or_default();
    assert_eq!(
        received,
        vec![
            (PeerIndex::from(0), 10u32),
            (PeerIndex::from(0), 20u32),
            (PeerIndex::from(0), 30u32),
        ]
    );
}

#[test]
fn three_node_pipeline_null_auth() {
    // Node 0 (source) -> Node 1 (relay_fanout peer_count=1) -> Node 2 (receive).
    let data = vec![10u8, 20, 30, 40, 50, 60, 70, 80, 90, 100, 110, 120];
    let orig = OriginalData::from_bytes(&data, 4)
        .unwrap_or_else(|_| OriginalData::from_bytes(&[0], 1).ok().unwrap());
    let k = orig.piece_count();
    let b = orig.piece_byte_len();
    let auth = Arc::new(NullAuthenticator);

    let transports = InMemoryNetwork::<WirePiece<NullAuthenticator>>::new(3).into_transports();
    let triple: [InMemoryTransport<WirePiece<NullAuthenticator>>; 3] =
        transports.try_into().ok().unwrap();
    let [t0, t1, t2] = triple;
    let t0_sender = t0.sender();
    let t1_sender = t1.sender();
    let t1_inbox = t1.into_inbound();
    let t2_inbox = t2.into_inbound();
    drop(t0);

    // Node 0: produce k coded pieces and send them to Node 1.
    let (commitment, src_stream) = source(Arc::clone(&auth), orig, vandermonde_rng());
    src_stream
        .take(k)
        .fold(
            (),
            Arc::new(move |(), wp: WirePiece<NullAuthenticator>| {
                t0_sender
                    .send(PeerIndex::from(1), wp)
                    .run()
                    .unwrap_or(());
            }),
        )
        .run()
        .unwrap_or(());

    // Node 1: drain k inbound, relay_fanout to Node 2, push each output.
    let node_1_inbox = t1_inbox
        .take(k)
        .map(Arc::new(|(_, wp): (PeerIndex, WirePiece<NullAuthenticator>)| wp));
    let fanned = relay_fanout(
        Arc::clone(&auth),
        commitment,
        k,
        b,
        1,
        node_1_inbox,
        vandermonde_rng(),
    )
    .run()
    .unwrap_or_else(|_| Stream::from_vec(Vec::new()));
    fanned
        .fold(
            (),
            Arc::new(
                move |(),
                      (_, wp): (PeerIndex, WirePiece<NullAuthenticator>)| {
                    t1_sender
                        .send(PeerIndex::from(2), wp)
                        .run()
                        .unwrap_or(());
                },
            ),
        )
        .run()
        .unwrap_or(());

    // Node 2: drain k inbound pieces and decode.
    let node_2_inbox = t2_inbox
        .take(k)
        .map(Arc::new(|(_, wp): (PeerIndex, WirePiece<NullAuthenticator>)| wp));
    let decoded = receive(auth, commitment, k, b, node_2_inbox).run();
    assert!(decoded.is_ok());
    assert_eq!(decoded.unwrap_or_default(), data);
}
