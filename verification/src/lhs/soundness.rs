//! What an accepted signature vouches for, and where the targets come from.
use super::authenticator::{self, Commitment, LatticeHomomorphicAuthenticator};
use super::keys::PublicKeyView;
use super::sign::Signature;
use super::verify;
use crate::auth::Authenticator;
use crate::bytes;
use crate::coding::piece::PieceView;
use crate::hash;
use crate::lattice::integers;
use crate::lattice::zq;
use vstd::prelude::*;

verus! {

proof fn lemma_entry_within_norm(v: Seq<int>, i: int)
    requires
        0 <= i < v.len(),
    ensures
        v[i] * v[i] <= integers::squared_norm(v),
{
    integers::lemma_dot_step(v, v, i);
    integers::lemma_norm_grows(v, i + 1);
    integers::lemma_norm_nonnegative(v.take(i));
}

/// An accepted signature is short in every entry, and every row of the public
/// matrix maps it to the entry of the target.  So it is accepted for one target
/// only.
pub proof fn lemma_accepted_signature(
    q: u32,
    public: PublicKeyView,
    sigma: Seq<int>,
    target: Seq<int>,
)
    requires
        public.well_formed(q as nat),
        verify::accepted(q as nat, public, sigma, target),
    ensures
        sigma.len() == public.a.cols,
        target.len() == public.a.rows.len(),
        forall|i: int|
            0 <= i < sigma.len() ==> #[trigger] sigma[i] * sigma[i]
                <= public.params.sig_norm_bound_sq,
        forall|j: int|
            0 <= j < target.len() ==> #[trigger] target[j] == integers::dot(
                public.a.rows[j],
                sigma,
            ) % q as int,
        forall|other: Seq<int>| #[trigger]
            verify::accepted(q as nat, public, sigma, other) ==> other == target,
{
    assert forall|i: int| 0 <= i < sigma.len() implies #[trigger] sigma[i] * sigma[i]
        <= public.params.sig_norm_bound_sq by {
        lemma_entry_within_norm(sigma, i);
    }
}

/// The values of a byte string.
pub open spec fn values_of(coeffs: Seq<u8>) -> Seq<int> {
    Seq::new(coeffs.len(), |i: int| coeffs[i] as int)
}

/// An accepted piece carries the commitment of the generation and a coefficient
/// for each of its pieces, and its tag is short in every entry.  The public matrix
/// maps the tag to the combination of all the targets with all the coefficients,
/// modulo the field's order.
pub proof fn lemma_accepted_piece<const Q: u32>(
    auth: LatticeHomomorphicAuthenticator<Q>,
    commitment: Commitment,
    piece: PieceView,
    tag: Signature,
)
    requires
        auth@.well_formed(Q as nat),
        auth.accepts(commitment, piece, tag),
    ensures
        commitment@ == auth@.commitment,
        piece.coeffs.len() == auth@.public.params.k_pieces,
        tag@.len() == auth@.public.a.cols,
        forall|i: int|
            0 <= i < tag@.len() ==> #[trigger] tag@[i] * tag@[i]
                <= auth@.public.params.sig_norm_bound_sq,
        forall|j: int|
            0 <= j < auth@.public.a.rows.len() ==> integers::dot(
                #[trigger] auth@.public.a.rows[j],
                tag@,
            ) % Q as int == integers::dot(
                values_of(piece.coeffs),
                integers::column(auth@.targets, j),
            ) % Q as int,
{
    let (q, n) = (Q as nat, auth@.public.params.n);
    let target = auth@.combined_target(q, piece.coeffs);
    lemma_accepted_signature(Q, auth@.public, tag@, target);
    let (lifted, values) = (authenticator::elements_of(q, piece.coeffs), values_of(piece.coeffs));
    assert(lifted =~= integers::reduced(values, Q as int));
    integers::lemma_reduced_congruent(values, Q as int);
    assert forall|j: int| 0 <= j < auth@.public.a.rows.len() implies integers::dot(
        #[trigger] auth@.public.a.rows[j],
        tag@,
    ) % Q as int == integers::dot(values, integers::column(auth@.targets, j)) % Q as int by {
        let column = integers::column(auth@.targets, j);
        integers::lemma_reduced_congruent(column, Q as int);
        integers::lemma_dot_congruent(lifted, values, column, column, Q as int);
        assert(target[j] == integers::dot(lifted, column) % Q as int);
    }
}

/// The four-byte value at place `p` of the digests for a target: eight of them in
/// each digest, one digest for each counter.
pub open spec fn word_at(metadata: Seq<u8>, index: nat, p: nat) -> int {
    let counter = (p / 8) % 0x1_0000_0000_0000_0000;
    let digest = hash::blake3_hash(authenticator::target_payload(metadata, index, counter as u64));
    bytes::le_value(digest.subrange(4 * (p % 8) as int, 4 * (p % 8) as int + 4)) as int
}

/// Places one behind the other.
pub open spec fn in_order(places: Seq<nat>) -> bool {
    forall|a: int, b: int| 0 <= a < b < places.len() ==> places[a] < places[b]
}

spec fn places_below(q: u32, metadata: Seq<u8>, index: nat, end: nat) -> Seq<nat>
    decreases end,
{
    if end == 0 {
        Seq::empty()
    } else {
        let p = (end - 1) as nat;
        let rest = places_below(q, metadata, index, p);
        if word_at(metadata, index, p) < zq::draw_limit(q) {
            rest.push(p)
        } else {
            rest
        }
    }
}

spec fn residues_at(q: u32, metadata: Seq<u8>, index: nat, places: Seq<nat>) -> Seq<int> {
    Seq::new(places.len(), |t: int| word_at(metadata, index, places[t]) % q as int)
}

proof fn lemma_places_below(q: u32, metadata: Seq<u8>, index: nat, end: nat)
    ensures
        in_order(places_below(q, metadata, index, end)),
        forall|t: int|
            0 <= t < places_below(q, metadata, index, end).len() ==> (#[trigger] places_below(
                q,
                metadata,
                index,
                end,
            )[t]) < end && word_at(metadata, index, places_below(q, metadata, index, end)[t])
                < zq::draw_limit(q),
        forall|p: nat|
            p < end && #[trigger] word_at(metadata, index, p) < zq::draw_limit(q)
                ==> places_below(q, metadata, index, end).contains(p),
    decreases end,
{
    if end > 0 {
        let last = (end - 1) as nat;
        let (rest, all) = (
            places_below(q, metadata, index, last),
            places_below(q, metadata, index, end),
        );
        lemma_places_below(q, metadata, index, last);
        assert forall|p: nat|
            p < end && #[trigger] word_at(metadata, index, p) < zq::draw_limit(
                q,
            ) implies all.contains(p) by {
            if p == last {
                assert(all[all.len() - 1] == p);
            } else {
                assert(rest.contains(p));
                let t = choose|t: int| 0 <= t < rest.len() && rest[t] == p;
                assert(all[t] == p);
            }
        }
    }
}

proof fn lemma_expansion_places(q: u32, metadata: Seq<u8>, index: nat, steps: nat, chunks: nat)
    requires
        chunks <= 8,
    ensures
        residues_at(q, metadata, index, places_below(q, metadata, index, 8 * steps + chunks))
            == authenticator::expansion(q, metadata, index, steps) + authenticator::residues_of(
            q,
            hash::blake3_hash(
                authenticator::target_payload(
                    metadata,
                    index,
                    authenticator::counter_at(steps),
                ),
            ),
            chunks,
        ),
    decreases steps, chunks,
{
    let digest = hash::blake3_hash(
        authenticator::target_payload(metadata, index, authenticator::counter_at(steps)),
    );
    let all = residues_at(
        q,
        metadata,
        index,
        places_below(q, metadata, index, 8 * steps + chunks),
    );
    let before = authenticator::expansion(q, metadata, index, steps);
    let added = authenticator::residues_of(q, digest, chunks);
    if chunks == 0 {
        if steps > 0 {
            lemma_expansion_places(q, metadata, index, (steps - 1) as nat, 8);
        }
        assert(all =~= before + added);
    } else {
        let rest = (chunks - 1) as nat;
        let p = 8 * steps + rest;
        lemma_expansion_places(q, metadata, index, steps, rest);
        assert(p / 8 == steps && p % 8 == rest);
        assert(8 * steps + chunks - 1 == p);
        assert(word_at(metadata, index, p) == bytes::le_value(
            digest.subrange(4 * (chunks - 1), 4 * chunks as int),
        ) as int);
        let earlier = places_below(q, metadata, index, p);
        let some = residues_at(q, metadata, index, earlier);
        let fewer = authenticator::residues_of(q, digest, rest);
        let x = word_at(metadata, index, p);
        if x < zq::draw_limit(q) {
            assert(places_below(q, metadata, index, 8 * steps + chunks) == earlier.push(p));
            assert(added == fewer.push(x % q as int));
            assert(all =~= some.push(x % q as int));
            assert(before + added =~= (before + fewer).push(x % q as int));
        } else {
            assert(added == fewer);
        }
    }
}

/// Every entry of a target has a word of its own: the entries are the residues of
/// the words of the digests, in order, without those that are rejected, and none
/// is left out or used twice.
pub proof fn lemma_target_words(
    q: u32,
    metadata: Seq<u8>,
    index: nat,
    n: nat,
    target: Seq<int>,
)
    requires
        authenticator::is_target(q, metadata, index, n, target),
    ensures
        target.len() == n,
        exists|places: Seq<nat>| #[trigger]
            in_order(places) && places.len() == n && (forall|t: int|
                0 <= t < n ==> word_at(metadata, index, #[trigger] places[t]) < zq::draw_limit(q)
                    && target[t] == word_at(metadata, index, places[t]) % q as int) && (forall|
                p: nat,
            |
                n > 0 && p <= places.last() && #[trigger] word_at(metadata, index, p)
                    < zq::draw_limit(q) ==> places.contains(p)),
{
    let steps = choose|steps: nat|
        (#[trigger] authenticator::expansion(q, metadata, index, steps)).len() >= n && target
            == authenticator::expansion(q, metadata, index, steps).take(n as int);
    let whole = authenticator::expansion(q, metadata, index, steps);
    let all = places_below(q, metadata, index, 8 * steps);
    lemma_expansion_places(q, metadata, index, steps, 0);
    assert(residues_at(q, metadata, index, all) =~= whole);
    lemma_places_below(q, metadata, index, 8 * steps);
    let places = all.take(n as int);
    assert forall|t: int| 0 <= t < n implies word_at(metadata, index, #[trigger] places[t])
        < zq::draw_limit(q) && target[t] == word_at(metadata, index, places[t]) % q as int by {
        assert(places[t] == all[t]);
        assert(residues_at(q, metadata, index, all)[t] == whole[t]);
    }
    assert forall|p: nat|
        n > 0 && p <= places.last() && #[trigger] word_at(metadata, index, p) < zq::draw_limit(
            q,
        ) implies places.contains(p) by {
        assert(places.last() == all[n - 1]);
        assert(all[n - 1] < 8 * steps);
        assert(all.contains(p));
        let t = choose|t: int| 0 <= t < all.len() && all[t] == p;
        if t >= n {
            assert(all[n - 1] < all[t]);
        }
        assert(places[t] == p);
    }
    assert(in_order(places));
}

} // verus!
