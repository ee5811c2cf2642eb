//! What holds of every search for flat blocks.
use crate::flat_blocks::{
    and_below, are_intensities, are_marked, block_pixel, blocks_over, eigenvalue_ratio, flatness,
    gradient_trace, is_block_scored, is_difference, is_extracted, is_flat_map, is_flat_verdict,
    is_order_statistic, is_plane_fit, is_score, law_order_statistic_is_unique, mark, num_blocks,
    per_pixel, spectral_norm, variance, FlatBlockFinder,
};
use crate::kernels::{is_product, Kernels};
use crate::plane::Plane;
use crate::scalar::{
    count, has_one_outcome, has_one_verdict, is_below, law_one_outcome, law_one_verdict, minus,
    over, ratio, value, Formula, Scalar,
};
use crate::{BLOCK_SIZE, BLOCK_SIZE_SQUARED};
use vstd::prelude::*;

verus! {

/// Whether two planes have the same size and the same visible pixels.
pub open spec fn is_same_picture(p: Plane<u8>, q: Plane<u8>) -> bool {
    &&& p.geometry.width == q.geometry.width
    &&& p.geometry.height == q.geometry.height
    &&& forall|x: int, y: int|
        0 <= x < p.geometry.width && 0 <= y < p.geometry.height ==> #[trigger] p.pixel(x, y)
            == q.pixel(x, y)
}

/// A block of one picture is a block of the other.
proof fn lemma_same_extract<T: Kernels>(
    f: FlatBlockFinder<T>,
    p: Plane<u8>,
    q: Plane<u8>,
    offset_x: int,
    offset_y: int,
    block: Seq<T>,
)
    requires
        p.wf(),
        q.wf(),
        is_same_picture(p, q),
        0 <= offset_x,
        0 <= offset_y,
        is_extracted(f, p, offset_x, offset_y, block),
    ensures
        is_extracted(f, q, offset_x, offset_y, block),
{
    let (raw, fit) = choose|raw: Seq<T>, fit: Seq<T>|
        {
            &&& are_intensities(p, offset_x, offset_y, raw)
            &&& #[trigger] is_plane_fit(f, raw, fit)
            &&& is_difference(raw, fit, block)
        };
    assert forall|k: int| 0 <= k < raw.len() implies #[trigger] block_pixel(
        p,
        offset_x,
        offset_y,
        k,
    ) == block_pixel(q, offset_x, offset_y, k) by {
        assert(0 <= k % 32 < 32 && 0 <= k / 32);
    }
    assert(are_intensities(q, offset_x, offset_y, raw)) by {
        assert forall|k: int| 0 <= k < raw.len() implies crate::scalar::denotes(
            over(count(block_pixel(q, offset_x, offset_y, k) as usize), count(255)),
            #[trigger] raw[k],
        ) by {
            assert(block_pixel(p, offset_x, offset_y, k) == block_pixel(q, offset_x, offset_y, k));
        }
    }
}

/// An outcome of the search in one picture is one in the other.
proof fn lemma_same_flat_map<T: Kernels>(
    f: FlatBlockFinder<T>,
    p: Plane<u8>,
    q: Plane<u8>,
    marks: Seq<u8>,
    num_flat: int,
)
    requires
        p.wf(),
        q.wf(),
        is_same_picture(p, q),
        is_flat_map(f, p, marks, num_flat),
    ensures
        is_flat_map(f, q, marks, num_flat),
{
    let (flats, ranks) = choose|flats: Seq<bool>, ranks: Seq<u32>|
        {
            &&& flats.len() == num_blocks(p)
            &&& ranks.len() == num_blocks(p)
            &&& forall|i: int|
                0 <= i < flats.len() ==> is_block_scored(f, p, i, #[trigger] flats[i], ranks[i])
            &&& #[trigger] are_marked(flats, ranks, marks, num_flat)
        };
    let across = blocks_over(p.geometry.width);
    assert(across > 0);
    assert forall|i: int| 0 <= i < flats.len() implies is_block_scored(
        f,
        q,
        i,
        #[trigger] flats[i],
        ranks[i],
    ) by {
        assert(is_block_scored(f, p, i, flats[i], ranks[i]));
        let x = (i % across) * BLOCK_SIZE;
        let y = (i / across) * BLOCK_SIZE;
        let block = choose|block: Seq<T>|
            {
                &&& #[trigger] is_extracted(f, p, x, y, block)
                &&& is_flat_verdict(block, flats[i])
                &&& is_score(block, ranks[i])
            };
        assert(0 <= i % across && 0 <= i / across) by (nonlinear_arith)
            requires
                0 <= i,
                0 < across,
        ;
        lemma_same_extract(f, p, q, x, y, block);
        assert(is_extracted(f, q, x, y, block));
    }
}

/// Two planes of one size with the same visible pixels have the same outcomes of the
/// search, whatever their padding holds and however wide it is.
pub proof fn law_padding_does_not_matter<T: Kernels>(
    f: FlatBlockFinder<T>,
    p: Plane<u8>,
    q: Plane<u8>,
    marks: Seq<u8>,
    num_flat: int,
)
    requires
        p.wf(),
        q.wf(),
        is_same_picture(p, q),
    ensures
        is_flat_map(f, p, marks, num_flat) <==> is_flat_map(f, q, marks, num_flat),
{
    if is_flat_map(f, p, marks, num_flat) {
        lemma_same_flat_map(f, p, q, marks, num_flat);
    }
    if is_flat_map(f, q, marks, num_flat) {
        lemma_same_flat_map(f, q, p, marks, num_flat);
    }
}

/// Whether matrices have one product.
pub open spec fn has_one_product<T: Kernels>() -> bool {
    forall|m1: Seq<T>, m2: Seq<T>, rows: usize, inner: usize, cols: usize, r: Seq<T>, q: Seq<T>|
        #[trigger]
        is_product(m1, m2, rows, inner, cols, r) && #[trigger] is_product(
            m1,
            m2,
            rows,
            inner,
            cols,
            q,
        ) ==> r == q
}

/// A block has one content.
proof fn lemma_one_extract<T: Kernels>(
    f: FlatBlockFinder<T>,
    p: Plane<u8>,
    x: int,
    y: int,
    b1: Seq<T>,
    b2: Seq<T>,
)
    requires
        has_one_outcome::<T>(),
        has_one_product::<T>(),
        is_extracted(f, p, x, y, b1),
        is_extracted(f, p, x, y, b2),
    ensures
        b1 == b2,
{
    let (raw1, fit1) = choose|raw: Seq<T>, fit: Seq<T>|
        {
            &&& are_intensities(p, x, y, raw)
            &&& #[trigger] is_plane_fit(f, raw, fit)
            &&& is_difference(raw, fit, b1)
        };
    let (raw2, fit2) = choose|raw: Seq<T>, fit: Seq<T>|
        {
            &&& are_intensities(p, x, y, raw)
            &&& #[trigger] is_plane_fit(f, raw, fit)
            &&& is_difference(raw, fit, b2)
        };
    assert forall|k: int| 0 <= k < raw1.len() implies raw1[k] == raw2[k] by {
        law_one_outcome(
            over(count(block_pixel(p, x, y, k) as usize), count(255)),
            raw1[k],
            raw2[k],
        );
    }
    assert(raw1 =~= raw2);
    lemma_one_fit(f, raw1, fit1, fit2);
    assert forall|k: int| 0 <= k < b1.len() implies b1[k] == b2[k] by {
        law_one_outcome(minus(value(raw1[k]), value(fit1[k])), b1[k], b2[k]);
    }
    assert(b1 =~= b2);
}

/// A block has one plane that fits it.
proof fn lemma_one_fit<T: Kernels>(
    f: FlatBlockFinder<T>,
    raw: Seq<T>,
    fit1: Seq<T>,
    fit2: Seq<T>,
)
    requires
        has_one_product::<T>(),
        is_plane_fit(f, raw, fit1),
        is_plane_fit(f, raw, fit2),
    ensures
        fit1 == fit2,
{
    let (c1, p1) = choose|c: Seq<T>, p: Seq<T>|
        {
            &&& #[trigger] is_product(raw, f.a@, 1, BLOCK_SIZE_SQUARED, 3, c)
            &&& #[trigger] is_product(f.a_t_a_inv@, c, 3, 3, 1, p)
            &&& is_product(f.a@, p, BLOCK_SIZE_SQUARED, 3, 1, fit1)
        };
    let (c2, p2) = choose|c: Seq<T>, p: Seq<T>|
        {
            &&& #[trigger] is_product(raw, f.a@, 1, BLOCK_SIZE_SQUARED, 3, c)
            &&& #[trigger] is_product(f.a_t_a_inv@, c, 3, 3, 1, p)
            &&& is_product(f.a@, p, BLOCK_SIZE_SQUARED, 3, 1, fit2)
        };
    assert(c1 == c2);
    assert(p1 == p2);
}

/// A chain of tests has one verdict if its last test has.
proof fn lemma_one_chain<T: Scalar>(
    f: Formula<T>,
    g: Formula<T>,
    rest: spec_fn(bool) -> bool,
    c: bool,
    d: bool,
)
    requires
        has_one_outcome::<T>(),
        has_one_verdict::<T>(),
        !(rest(true) && rest(false)),
        and_below(f, g, rest, c),
        and_below(f, g, rest, d),
    ensures
        c == d,
{
    law_one_verdict(f, g);
}

/// A block has one verdict and one key.
proof fn lemma_one_judgement<T: Scalar>(b: Seq<T>, c: bool, d: bool, i: u32, j: u32)
    requires
        has_one_outcome::<T>(),
        has_one_verdict::<T>(),
        is_flat_verdict(b, c),
        is_flat_verdict(b, d),
        is_score(b, i),
        is_score(b, j),
    ensures
        c == d,
        i == j,
{
    let noisy = |e: bool| is_below(per_pixel(5, 1_000), variance(b), e);
    let small = |e: bool| and_below(spectral_norm(b), per_pixel(8, 100), noisy, e);
    let even = |e: bool| and_below(eigenvalue_ratio(b), ratio(125, 100), small, e);
    law_one_verdict(per_pixel(5, 1_000), variance(b));
    law_one_verdict(flatness(b), flatness(b));
    law_one_verdict(count::<T>(0), count(0));
    if small(true) && small(false) {
        lemma_one_chain(spectral_norm(b), per_pixel(8, 100), noisy, true, false);
    }
    if even(true) && even(false) {
        lemma_one_chain(eigenvalue_ratio(b), ratio(125, 100), small, true, false);
    }
    assert(and_below(gradient_trace(b), per_pixel(15, 100), even, c));
    assert(and_below(gradient_trace(b), per_pixel(15, 100), even, d));
    lemma_one_chain(gradient_trace(b), per_pixel(15, 100), even, c, d);
}

/// Flat blocks and keys have one way to be marked.
proof fn lemma_one_marking(
    flats: Seq<bool>,
    ranks: Seq<u32>,
    m1: Seq<u8>,
    n1: int,
    m2: Seq<u8>,
    n2: int,
)
    requires
        are_marked(flats, ranks, m1, n1),
        are_marked(flats, ranks, m2, n2),
    ensures
        m1 == m2,
        n1 == n2,
{
    let n = ranks.len() as int;
    let s = choose|t: int|
        {
            &&& #[trigger] is_order_statistic(ranks, n * 90 / 100, t)
            &&& forall|i: int| 0 <= i < n ==> #[trigger] m1[i] == mark(flats[i], ranks[i] >= t)
        };
    let t = choose|t: int|
        {
            &&& #[trigger] is_order_statistic(ranks, n * 90 / 100, t)
            &&& forall|i: int| 0 <= i < n ==> #[trigger] m2[i] == mark(flats[i], ranks[i] >= t)
        };
    law_order_statistic_is_unique(ranks, n * 90 / 100, s, t);
    assert(m1 =~= m2);
}

/// Where the operations and tests of the number type and the matrix product have one
/// outcome, the search has one outcome for all planes of one size with the same visible
/// pixels.
pub proof fn law_search_has_one_outcome<T: Kernels>(
    f: FlatBlockFinder<T>,
    p: Plane<u8>,
    q: Plane<u8>,
    m1: Seq<u8>,
    n1: int,
    m2: Seq<u8>,
    n2: int,
)
    requires
        has_one_outcome::<T>(),
        has_one_verdict::<T>(),
        has_one_product::<T>(),
        p.wf(),
        q.wf(),
        is_same_picture(p, q),
        is_flat_map(f, p, m1, n1),
        is_flat_map(f, q, m2, n2),
    ensures
        m1 == m2,
        n1 == n2,
{
    lemma_same_flat_map(f, q, p, m2, n2);
    let (flats1, ranks1) = choose|flats: Seq<bool>, ranks: Seq<u32>|
        {
            &&& flats.len() == num_blocks(p)
            &&& ranks.len() == num_blocks(p)
            &&& forall|i: int|
                0 <= i < flats.len() ==> is_block_scored(f, p, i, #[trigger] flats[i], ranks[i])
            &&& #[trigger] are_marked(flats, ranks, m1, n1)
        };
    let (flats2, ranks2) = choose|flats: Seq<bool>, ranks: Seq<u32>|
        {
            &&& flats.len() == num_blocks(p)
            &&& ranks.len() == num_blocks(p)
            &&& forall|i: int|
                0 <= i < flats.len() ==> is_block_scored(f, p, i, #[trigger] flats[i], ranks[i])
            &&& #[trigger] are_marked(flats, ranks, m2, n2)
        };
    let across = blocks_over(p.geometry.width);
    assert forall|i: int| 0 <= i < flats1.len() implies flats1[i] == flats2[i] && ranks1[i]
        == ranks2[i] by {
        assert(is_block_scored(f, p, i, flats1[i], ranks1[i]));
        assert(is_block_scored(f, p, i, flats2[i], ranks2[i]));
        let x = (i % across) * BLOCK_SIZE;
        let y = (i / across) * BLOCK_SIZE;
        let b1 = choose|block: Seq<T>|
            {
                &&& #[trigger] is_extracted(f, p, x, y, block)
                &&& is_flat_verdict(block, flats1[i])
                &&& is_score(block, ranks1[i])
            };
        let b2 = choose|block: Seq<T>|
            {
                &&& #[trigger] is_extracted(f, p, x, y, block)
                &&& is_flat_verdict(block, flats2[i])
                &&& is_score(block, ranks2[i])
            };
        lemma_one_extract(f, p, x, y, b1, b2);
        lemma_one_judgement(b1, flats1[i], flats2[i], ranks1[i], ranks2[i]);
    }
    assert(flats1 =~= flats2);
    assert(ranks1 =~= ranks2);
    lemma_one_marking(flats1, ranks1, m1, n1, m2, n2);
}

} // verus!
