//! What a decoder recovers: any pieces of full rank give back the original
//! data, and the useful count is the rank of the coding vectors.
use super::decode::{self, DecoderView};
use super::encode;
use super::piece::{self, OriginalView, PieceView};
use super::recode;
use crate::error::Error;
use crate::field::math;
use crate::field::tables;
use crate::vector::dimension;
use crate::vector::echelon;
use crate::vector::linear;
use vstd::prelude::*;

verus! {

/// The augmented row of each piece.
pub open spec fn rows_of(pieces: Seq<PieceView>) -> Seq<Seq<u8>> {
    Seq::new(pieces.len(), |i: int| pieces[i].row())
}

/// The rows of `state` span the same space as those of `pieces`.
pub open spec fn describes(state: DecoderView, pieces: Seq<PieceView>) -> bool {
    &&& state.valid()
    &&& recode::uniform(pieces, state.piece_count, state.piece_byte_len)
    &&& linear::same_span(rows_of(pieces), state.rows, state.width())
}

/// Every piece is a coded piece of `original`.
pub open spec fn all_coded(original: OriginalView, pieces: Seq<PieceView>) -> bool {
    forall|i: int|
        0 <= i < pieces.len() ==> (#[trigger] pieces[i]).coeffs.len() == original.pieces.len()
            && pieces[i] == encode::coded(original, pieces[i].coeffs)
}

proof fn lemma_rows_of(pieces: Seq<PieceView>, count: nat, len: nat)
    requires
        recode::uniform(pieces, count, len),
    ensures
        linear::has_width(rows_of(pieces), count + len),
        linear::columns(rows_of(pieces), 0, count as int) == recode::coeffs_of(pieces),
        linear::columns(rows_of(pieces), count as int, (count + len) as int) == recode::data_of(
            pieces,
        ),
{
    assert forall|i: int| 0 <= i < pieces.len() implies (#[trigger] rows_of(pieces)[i]).len()
        == count + len && rows_of(pieces)[i].subrange(0, count as int) == pieces[i].coeffs
        && rows_of(pieces)[i].subrange(count as int, (count + len) as int)
        == pieces[i].data by {
        assert(recode::coeffs_of(pieces)[i].len() == count);
        assert(recode::data_of(pieces)[i].len() == len);
        assert(rows_of(pieces)[i].subrange(0, count as int) =~= pieces[i].coeffs);
        assert(rows_of(pieces)[i].subrange(count as int, (count + len) as int)
            =~= pieces[i].data);
    }
    assert(linear::columns(rows_of(pieces), 0, count as int) =~= recode::coeffs_of(pieces));
    assert(linear::columns(rows_of(pieces), count as int, (count + len) as int)
        =~= recode::data_of(pieces));
}

/// A longer list spans what a shorter one spans.
proof fn lemma_span_push(v: Seq<u8>, rows: Seq<Seq<u8>>, extra: Seq<u8>, n: nat)
    requires
        linear::has_width(rows, n),
        extra.len() == n,
        linear::in_span(v, rows, n),
    ensures
        linear::in_span(v, rows.push(extra), n),
{
    let cs = choose|cs: Seq<u8>|
        cs.len() == rows.len() && #[trigger] linear::combination(cs, rows, n) == v;
    linear::lemma_combination_len(cs, rows, n);
    assert(cs.push(0).drop_last() =~= cs);
    assert(rows.push(extra).drop_last() =~= rows);
    echelon::lemma_add_zero_multiple(v, extra);
    assert(linear::combination(cs.push(0), rows.push(extra), n) == v);
}

/// One and the same further vector keeps the spans the same.
proof fn lemma_same_span_push(a: Seq<Seq<u8>>, b: Seq<Seq<u8>>, extra: Seq<u8>, n: nat)
    requires
        linear::has_width(a, n),
        linear::has_width(b, n),
        extra.len() == n,
        linear::same_span(a, b, n),
    ensures
        linear::has_width(a.push(extra), n),
        linear::has_width(b.push(extra), n),
        linear::same_span(a.push(extra), b.push(extra), n),
{
    lemma_spans_push(a, b, extra, n);
    lemma_spans_push(b, a, extra, n);
}

proof fn lemma_spans_push(a: Seq<Seq<u8>>, b: Seq<Seq<u8>>, extra: Seq<u8>, n: nat)
    requires
        linear::has_width(a, n),
        extra.len() == n,
        linear::spans(a, b, n),
    ensures
        linear::has_width(a.push(extra), n),
        linear::spans(a.push(extra), b.push(extra), n),
{
    let (c, d) = (a.push(extra), b.push(extra));
    assert forall|i: int| 0 <= i < c.len() implies (#[trigger] c[i]).len() == n by {
        if i < a.len() {
            assert(a[i].len() == n);
        }
    }
    assert forall|i: int| 0 <= i < d.len() implies linear::in_span(#[trigger] d[i], c, n) by {
        if i < b.len() {
            assert(linear::in_span(b[i], a, n));
            lemma_span_push(b[i], a, extra, n);
        } else {
            linear::lemma_span_of_row(c, n, a.len() as int);
            assert(c[a.len() as int] == extra);
        }
    }
}

/// The empty state describes no pieces.
pub proof fn lemma_initial_describes(piece_count: nat, piece_byte_len: nat)
    ensures
        describes(DecoderView::initial(piece_count, piece_byte_len), Seq::empty()),
{
    let state = DecoderView::initial(piece_count, piece_byte_len);
    assert(state.reduced_with(Seq::empty()));
}

/// Absorbing a piece adds it to the pieces that the state describes.
pub proof fn lemma_absorb_describes(
    before: DecoderView,
    pieces: Seq<PieceView>,
    piece: PieceView,
    after: DecoderView,
)
    requires
        describes(before, pieces),
        recode::dimension_error(piece, before.piece_count, before.piece_byte_len) is None,
        decode::absorbed(before, piece, after),
    ensures
        describes(after, pieces.push(piece)),
{
    let (k, l, n) = (before.piece_count, before.piece_byte_len, before.width());
    let all = pieces.push(piece);
    lemma_rows_of(pieces, k, l);
    assert(rows_of(all) =~= rows_of(pieces).push(piece.row()));
    lemma_same_span_push(rows_of(pieces), before.rows, piece.row(), n);
    linear::lemma_same_span_transitive(
        rows_of(all),
        before.rows.push(piece.row()),
        after.rows,
        n,
    );
    assert forall|i: int| 0 <= i < all.len() implies (#[trigger] recode::coeffs_of(all)[i]).len()
        == k by {
        if i < pieces.len() {
            assert(recode::coeffs_of(pieces)[i].len() == k);
        }
    }
    assert forall|i: int| 0 <= i < all.len() implies (#[trigger] recode::data_of(all)[i]).len()
        == l by {
        if i < pieces.len() {
            assert(recode::data_of(pieces)[i].len() == l);
        }
    }
}

/// Absorbing is determined by the state before and the piece.
pub proof fn lemma_absorb_unique(
    before: DecoderView,
    piece: PieceView,
    a: DecoderView,
    b: DecoderView,
)
    requires
        before.valid(),
        recode::dimension_error(piece, before.piece_count, before.piece_byte_len) is None,
        decode::absorbed(before, piece, a),
        decode::absorbed(before, piece, b),
    ensures
        a == b,
{
    let n = before.width();
    let all = before.rows.push(piece.row());
    assert(linear::has_width(all, n)) by {
        assert forall|i: int| 0 <= i < all.len() implies (#[trigger] all[i]).len() == n by {
            if i < before.rows.len() {
                assert(before.rows[i].len() == n);
            }
        }
    }
    linear::lemma_same_span_transitive(a.rows, all, b.rows, n);
    let p = choose|pivots: Seq<usize>| a.reduced_with(pivots);
    let q = choose|pivots: Seq<usize>| b.reduced_with(pivots);
    dimension::lemma_rref_unique(a.rows, p, b.rows, q, n);
}

/// Cutting columns keeps what is spanned.
proof fn lemma_spans_columns(
    a: Seq<Seq<u8>>,
    b: Seq<Seq<u8>>,
    n: nat,
    from: int,
    to: int,
)
    requires
        linear::has_width(a, n),
        linear::spans(a, b, n),
        0 <= from <= to <= n,
    ensures
        linear::spans(
            linear::columns(a, from, to),
            linear::columns(b, from, to),
            (to - from) as nat,
        ),
{
    let (ca, cb, m) = (
        linear::columns(a, from, to),
        linear::columns(b, from, to),
        (to - from) as nat,
    );
    assert forall|i: int| 0 <= i < cb.len() implies linear::in_span(#[trigger] cb[i], ca, m) by {
        assert(linear::in_span(b[i], a, n));
        let cs = choose|cs: Seq<u8>|
            cs.len() == a.len() && #[trigger] linear::combination(cs, a, n) == b[i];
        linear::lemma_combination_columns(cs, a, n, from, to);
        assert(linear::combination(cs, ca, m) == cb[i]);
    }
}

/// The useful count is the rank of the coding vectors of the absorbed pieces.
pub proof fn lemma_useful_is_rank(state: DecoderView, pieces: Seq<PieceView>)
    requires
        describes(state, pieces),
    ensures
        dimension::has_rank(recode::coeffs_of(pieces), state.piece_count, state.useful),
{
    let (k, l, n) = (state.piece_count, state.piece_byte_len, state.width());
    let pivots = choose|pivots: Seq<usize>| state.reduced_with(pivots);
    let u = state.useful;
    lemma_rows_of(pieces, k, l);
    decode::lemma_count_increasing(pivots, k);
    let left = linear::columns(state.rows, 0, k as int);
    let useful = pivots.take(u as int);
    lemma_spans_columns(rows_of(pieces), state.rows, n, 0, k as int);
    lemma_spans_columns(state.rows, rows_of(pieces), n, 0, k as int);
    assert forall|i: int| 0 <= i < left.len() implies (#[trigger] left[i]).len() == k by {
        assert(state.rows[i].len() == n);
    }
    assert(echelon::is_rref(left, k, useful)) by {
        assert forall|i: int| 0 <= i < useful.len() implies echelon::leads(
            #[trigger] left[i],
            useful[i] as int,
        ) by {
            assert(echelon::leads(state.rows[i], pivots[i] as int));
            assert(useful[i] == pivots[i]);
            assert(state.rows[i].len() == n);
            assert forall|j: int| 0 <= j < useful[i] implies #[trigger] left[i][j] == 0 by {
                assert(state.rows[i][j] == 0);
            }
        }
        assert forall|r: int, j: int|
            useful.len() <= r < left.len() && 0 <= j < k implies #[trigger] left[r][j] == 0 by {
            assert(state.rows[r].len() == n);
            if r < pivots.len() {
                assert(echelon::leads(state.rows[r], pivots[r] as int));
                assert(pivots[r] >= k);
            }
            assert(state.rows[r][j] == 0);
        }
        assert forall|i: int, r: int|
            0 <= i < useful.len() && 0 <= r < left.len() && r
                != i implies #[trigger] left[r][useful[i] as int] == 0 by {
            assert(state.rows[r].len() == n);
            assert(useful[i] == pivots[i]);
            assert(state.rows[r][pivots[i] as int] == 0);
        }
        assert forall|i: int| 0 <= i < useful.len() implies #[trigger] useful[i] < k by {
            assert(pivots[i] < k);
        }
    }
    dimension::lemma_rref_rank(left, k, useful);
    dimension::lemma_rank_of_span(left, recode::coeffs_of(pieces), k, u);
}

/// As many pieces as needed, with linearly independent coding vectors, complete
/// the decoder.
pub proof fn lemma_independent_completes(state: DecoderView, pieces: Seq<PieceView>)
    requires
        describes(state, pieces),
        pieces.len() == state.piece_count,
        dimension::independent(recode::coeffs_of(pieces), state.piece_count),
    ensures
        state.complete(),
{
    lemma_useful_is_rank(state, pieces);
    dimension::lemma_independent_rank(recode::coeffs_of(pieces), state.piece_count);
    dimension::lemma_rank_unique(
        recode::coeffs_of(pieces),
        state.piece_count,
        state.useful,
        pieces.len(),
    );
}

/// A piece whose coding vector depends on those absorbed before leaves the
/// useful count; any other raises it by one.
pub proof fn lemma_absorb_rank(
    before: DecoderView,
    pieces: Seq<PieceView>,
    piece: PieceView,
    after: DecoderView,
)
    requires
        describes(before, pieces),
        recode::dimension_error(piece, before.piece_count, before.piece_byte_len) is None,
        decode::absorbed(before, piece, after),
    ensures
        linear::in_span(piece.coeffs, recode::coeffs_of(pieces), before.piece_count)
            ==> after.useful == before.useful,
        !linear::in_span(piece.coeffs, recode::coeffs_of(pieces), before.piece_count)
            ==> after.useful == before.useful + 1,
{
    let k = before.piece_count;
    let (a, b) = (recode::coeffs_of(pieces), recode::coeffs_of(pieces.push(piece)));
    lemma_absorb_describes(before, pieces, piece, after);
    lemma_useful_is_rank(before, pieces);
    lemma_useful_is_rank(after, pieces.push(piece));
    assert(b =~= a.push(piece.coeffs));
    if linear::in_span(piece.coeffs, a, k) {
        assert forall|i: int| 0 <= i < b.len() implies linear::in_span(#[trigger] b[i], a, k) by {
            if i < a.len() {
                linear::lemma_span_of_row(a, k, i);
                assert(b[i] == a[i]);
            }
        }
        assert forall|i: int| 0 <= i < a.len() implies linear::in_span(#[trigger] a[i], b, k) by {
            linear::lemma_span_of_row(b, k, i);
            assert(b[i] == a[i]);
        }
        dimension::lemma_rank_of_span(a, b, k, before.useful);
        dimension::lemma_rank_unique(b, k, before.useful, after.useful);
    } else {
        let basis = choose|basis: Seq<Seq<u8>>| #[trigger]
            dimension::is_basis(basis, a, k) && basis.len() == before.useful;
        if linear::in_span(piece.coeffs, basis, k) {
            linear::lemma_span_transitive(piece.coeffs, basis, a, k);
        }
        lemma_independent_push(basis, piece.coeffs, k);
        lemma_same_span_push(basis, a, piece.coeffs, k);
        assert(dimension::is_basis(basis.push(piece.coeffs), b, k));
        dimension::lemma_rank_unique(b, k, before.useful + 1, after.useful);
    }
}

/// A vector outside the span extends an independent list.
proof fn lemma_independent_push(rows: Seq<Seq<u8>>, v: Seq<u8>, n: nat)
    requires
        linear::has_width(rows, n),
        dimension::independent(rows, n),
        v.len() == n,
        !linear::in_span(v, rows, n),
    ensures
        dimension::independent(rows.push(v), n),
{
    let all = rows.push(v);
    assert forall|cs: Seq<u8>|
        cs.len() == all.len() && #[trigger] linear::combination(cs, all, n) == linear::zeros(
            n,
        ) implies cs == linear::zeros(all.len()) by {
        let (front, c) = (cs.drop_last(), cs.last());
        assert(all.drop_last() =~= rows);
        let part = linear::combination(front, rows, n);
        linear::lemma_combination_len(front, rows, n);
        assert(linear::sum(part, linear::scaled(c, v)) == linear::zeros(n));
        if c != 0 {
            let inv = math::gf_inv(c);
            linear::lemma_combination_scaled(inv, front, rows, n);
            let w = linear::combination(linear::scaled(inv, front), rows, n);
            assert forall|j: int| 0 <= j < n implies w[j] == v[j] by {
                assert(linear::sum(part, linear::scaled(c, v))[j] == 0);
                math::lemma_add_laws(part[j], math::gf_mul(c, v[j]), 0);
                math::lemma_add_laws(math::gf_mul(c, v[j]), 0, 0);
                assert(part[j] == math::gf_mul(c, v[j]));
                tables::lemma_inverse(c);
                math::lemma_mul_associates(inv, c, v[j]);
                math::lemma_mul_units(v[j]);
                math::lemma_mul_commutes(1, v[j]);
            }
            linear::lemma_combination_len(linear::scaled(inv, front), rows, n);
            assert(w =~= v);
            assert(false);
        }
        echelon::lemma_add_zero_multiple(part, v);
        assert(part == linear::zeros(n));
        assert(front == linear::zeros(rows.len()));
        assert forall|i: int| 0 <= i < cs.len() implies cs[i] == 0 by {
            if i < front.len() {
                assert(front[i] == 0);
            }
        }
        assert(cs =~= linear::zeros(all.len()));
    }
}

/// A complete decoder of coded pieces holds the original pieces.
pub proof fn lemma_solution(
    original: OriginalView,
    state: DecoderView,
    pieces: Seq<PieceView>,
)
    requires
        original.well_formed(),
        state.piece_count == original.pieces.len(),
        state.piece_byte_len == original.piece_byte_len,
        describes(state, pieces),
        all_coded(original, pieces),
        state.complete(),
    ensures
        state.solution() == original.pieces,
{
    let (k, l, n) = (state.piece_count, state.piece_byte_len, state.width());
    let pivots = choose|pivots: Seq<usize>| state.reduced_with(pivots);
    decode::lemma_count_increasing(pivots, k);
    lemma_rows_of(pieces, k, l);
    let (cvs, x) = (recode::coeffs_of(pieces), original.pieces);
    assert forall|i: int| 0 <= i < pieces.len() implies recode::data_of(pieces)[i]
        == linear::combination(#[trigger] cvs[i], x, l) by {
        assert(pieces[i] == encode::coded(original, pieces[i].coeffs));
    }
    assert(recode::data_of(pieces) =~= linear::product(cvs, x, l));
    let solution = state.solution();
    assert(solution.len() == k);
    assert forall|i: int| 0 <= i < k implies solution[i] == x[i] by {
        let row = state.rows[i];
        assert(row.len() == n);
        assert(linear::in_span(row, rows_of(pieces), n));
        let cs = choose|cs: Seq<u8>|
            cs.len() == pieces.len() && #[trigger] linear::combination(cs, rows_of(pieces), n)
                == row;
        linear::lemma_combination_columns(cs, rows_of(pieces), n, 0, k as int);
        linear::lemma_combination_columns(cs, rows_of(pieces), n, k as int, n as int);
        linear::lemma_combination_product(cs, cvs, x, l);
        let prefix = row.subrange(0, k as int);
        assert(row.subrange(k as int, n as int) == linear::combination(prefix, x, l));
        assert forall|j: int| 0 <= j < k implies prefix[j] == linear::unit(k, i)[j] by {
            assert(pivots[j] == j);
            if j == i {
                assert(echelon::leads(row, pivots[i] as int));
            } else {
                assert(state.rows[i][pivots[j] as int] == 0);
            }
        }
        assert(prefix =~= linear::unit(k, i));
        linear::lemma_combination_unit(x, l, i);
        assert(solution[i] == row.subrange(k as int, n as int));
    }
    assert(solution =~= x);
}

/// Any coded pieces of full rank recover the data: whatever pieces arrived in
/// whatever order, decoding gives back the data that was split and encoded.
pub proof fn lemma_decoding_recovers(
    original: OriginalView,
    data: Seq<u8>,
    pieces: Seq<PieceView>,
    state: DecoderView,
    r: Result<Vec<u8>, Error>,
)
    requires
        original.well_formed(),
        piece::is_padding_of(piece::joined(original.pieces), data),
        state.piece_count == original.pieces.len(),
        state.piece_byte_len == original.piece_byte_len,
        describes(state, pieces),
        all_coded(original, pieces),
        dimension::has_rank(
            recode::coeffs_of(pieces),
            original.pieces.len(),
            original.pieces.len(),
        ),
        decode::decoded(state, r),
    ensures
        r matches Ok(recovered) && recovered@ == data,
{
    let k = state.piece_count;
    lemma_useful_is_rank(state, pieces);
    dimension::lemma_rank_unique(recode::coeffs_of(pieces), k, k, state.useful);
    lemma_solution(original, state, pieces);
    piece::lemma_split_reconstruct(original.pieces, data, r);
}

/// The states of decoding a stream of coded pieces: each describes the pieces so
/// far, or is complete and describes as many as completed it.
proof fn lemma_trace_describes(
    original: OriginalView,
    pieces: Seq<PieceView>,
    states: Seq<DecoderView>,
    i: nat,
) -> (m: int)
    requires
        original.well_formed(),
        all_coded(original, pieces),
        decode::trace(original.pieces.len(), original.piece_byte_len, pieces, states),
        i <= pieces.len(),
    ensures
        0 <= m <= i,
        describes(states[i as int], pieces.take(m)),
        states[i as int].piece_count == original.pieces.len(),
        states[i as int].piece_byte_len == original.piece_byte_len,
        m == i || states[i as int].complete(),
    decreases i,
{
    let (k, l) = (original.pieces.len(), original.piece_byte_len);
    if i == 0 {
        lemma_initial_describes(k, l);
        assert(pieces.take(0) =~= Seq::empty());
        0
    } else {
        let before = states[i - 1];
        let p = pieces[i - 1];
        let m = lemma_trace_describes(original, pieces, states, (i - 1) as nat);
        assert(decode::stepped(k, l, before, p, states[i - 1 + 1]));
        if before.complete() {
            m
        } else {
            linear::lemma_combination_len(p.coeffs, original.pieces, l);
            assert(p == encode::coded(original, p.coeffs));
            lemma_absorb_describes(before, pieces.take(m), p, states[i as int]);
            assert(pieces.take(m).push(p) =~= pieces.take(i as int));
            i as int
        }
    }
}

/// A stream of coded pieces of full rank decodes to the data that was split and
/// encoded.
pub proof fn lemma_stream_recovers(
    original: OriginalView,
    data: Seq<u8>,
    pieces: Seq<PieceView>,
    r: Result<Vec<u8>, Error>,
)
    requires
        original.well_formed(),
        piece::is_padding_of(piece::joined(original.pieces), data),
        all_coded(original, pieces),
        dimension::has_rank(
            recode::coeffs_of(pieces),
            original.pieces.len(),
            original.pieces.len(),
        ),
        decode::decodes_all(original.pieces.len(), original.piece_byte_len, pieces, r),
    ensures
        r matches Ok(recovered) && recovered@ == data,
{
    let (k, l) = (original.pieces.len(), original.piece_byte_len);
    let states = choose|states: Seq<DecoderView>| #[trigger]
        decode::trace(k, l, pieces, states) && decode::decoded(states.last(), r);
    let m = lemma_trace_describes(original, pieces, states, pieces.len());
    let end = states.last();
    if m == pieces.len() {
        assert(pieces.take(m) =~= pieces);
        lemma_useful_is_rank(end, pieces);
        dimension::lemma_rank_unique(recode::coeffs_of(pieces), k, k, end.useful);
    }
    lemma_solution(original, end, pieces.take(m));
    piece::lemma_split_reconstruct(original.pieces, data, r);
}

} // verus!
