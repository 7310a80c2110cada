# rlnc-cat-rs

Random Linear Network Coding over GF(2^8), verified with Verus.

RLNC allows recovery from *any* k linearly independent coded pieces, which makes
it suited to lossy networks, multicast, peer-to-peer distribution and distributed
storage.  Intermediate nodes can recode without decoding.

## Layout

```
src/field/           GF(2^8) arithmetic and its laws
src/vector/          vectors, matrices, Gaussian elimination
src/coding/          encode, decode, recode; recovery.rs holds the proofs
src/auth/            piece authenticators
src/gossip.rs        source, relay, fan-out and receive
src/dissemination.rs what gossip preserves
src/transport.rs     in-memory network
src/lattice/         integers modulo q, integer vectors and matrices
src/lhs/             linearly homomorphic signatures
src/effect.rs        what is relied on of the Io and Stream effect types
src/hash.rs          what is relied on of BLAKE3
app/                 floating-point samplers and signing with them
tests/               run the compiled library
```

## What is proved

Every function in `src/` carries a contract over mathematical sequences and
integers.  The central statements are:

- any set of coded pieces whose coefficient vectors span the space decodes to the
  original data, whatever the order and whatever was absorbed in between
  (`coding::recovery`);
- recoded pieces are coded pieces of the same data (`coding::recode`);
- relays drop what fails authentication, emit only coded pieces and serve every
  peer; receivers recover the data (`dissemination`);
- the public matrix maps a signature to its target, and combinations of
  signatures to combinations of targets (`lhs`).

The functions of the outside crates `blake3` and `comp_cat_rs`, and those of the
standard library's channels, locks and formatter, are trusted as their doc
comments in `src/hash.rs`, `src/effect.rs`, `src/transport.rs` and `src/text.rs`
say.
