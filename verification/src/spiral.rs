//! The spiral sequencer: the canonical cell-visitation order for a
//! `dim × dim` mat.  Encode places glyph `i` of the padded input at position
//! `i` of this order, and decode reads cell `i` back from the same position,
//! so both sides must agree on it bit for bit.
//!
//! The order is a clockwise inward spiral: right-to-left across the top row
//! (starting at the top-right cell), down the left column, left-to-right
//! across the bottom row, up the right column, then the same on the next
//! inner ring.

use vstd::prelude::*;

verus! {

/// Side length of ring `k` of a `dim × dim` grid.
pub open spec fn ring_side(dim: int, k: int) -> int {
    dim - 2 * k
}

/// Number of concentric rings the spiral walks.
pub open spec fn num_rings(dim: int) -> int {
    (dim + 1) / 2
}

/// Number of cells on ring `k`.
pub open spec fn ring_len(dim: int, k: int) -> int {
    let w = ring_side(dim, k);
    if w <= 0 {
        0
    } else if w == 1 {
        1
    } else {
        4 * w - 4
    }
}

/// The cells of ring `k`, clockwise from the ring's top-right corner:
/// top row right-to-left, left column downward, bottom row left-to-right,
/// right column upward.
pub open spec fn ring_seq(dim: int, k: int) -> Seq<(u32, u32)> {
    let lo = k;
    let hi = dim - 1 - k;
    let w = hi - lo + 1;
    let top = Seq::new(w as nat, |j: int| ((hi - j) as u32, lo as u32));
    let left = Seq::new((w - 1) as nat, |j: int| (lo as u32, (lo + 1 + j) as u32));
    let bottom = Seq::new((w - 1) as nat, |j: int| ((lo + 1 + j) as u32, hi as u32));
    let right = Seq::new(
        if w >= 2 {
            (w - 2) as nat
        } else {
            0
        },
        |j: int| (hi as u32, (hi - 1 - j) as u32),
    );
    top + left + bottom + right
}

/// The first `m` rings of the spiral, concatenated.
pub open spec fn spiral_prefix(dim: int, m: int) -> Seq<(u32, u32)>
    decreases m,
{
    if m <= 0 {
        Seq::empty()
    } else {
        spiral_prefix(dim, m - 1) + ring_seq(dim, m - 1)
    }
}

/// The whole spiral order over a `dim × dim` grid: `dim * dim` positions,
/// one per cell.
pub open spec fn spiral_spec(dim: int) -> Seq<(u32, u32)> {
    spiral_prefix(dim, num_rings(dim))
}

/// How deep a cell sits: the distance to the nearest grid edge, which is
/// exactly the index of the ring the cell lies on.
pub open spec fn cell_depth(dim: int, x: int, y: int) -> int {
    min4(x, y, dim - 1 - x, dim - 1 - y)
}

pub open spec fn min4(a: int, b: int, c: int, d: int) -> int {
    let ab = if a <= b {
        a
    } else {
        b
    };
    let cd = if c <= d {
        c
    } else {
        d
    };
    if ab <= cd {
        ab
    } else {
        cd
    }
}

/// Position of cell `(x, y)` within its ring's sequence.
pub open spec fn ring_index_of(dim: int, k: int, x: int, y: int) -> int {
    let lo = k;
    let hi = dim - 1 - k;
    let w = hi - lo + 1;
    if y == lo {
        hi - x
    } else if x == lo {
        w + (y - lo - 1)
    } else if y == hi {
        w + (w - 1) + (x - lo - 1)
    } else {
        w + 2 * (w - 1) + (hi - 1 - y)
    }
}

/// A ring's sequence is as long as `ring_len` says.
pub proof fn lemma_ring_seq_len(dim: int, k: int)
    requires
        0 <= k,
        ring_side(dim, k) >= 1,
    ensures
        ring_seq(dim, k).len() == ring_len(dim, k),
{
}

/// The length of the first `m` rings: the whole grid minus the square that
/// is still uncovered inside them.
pub proof fn lemma_spiral_prefix_len(dim: int, m: int)
    requires
        dim >= 0,
        0 <= m <= num_rings(dim),
    ensures
        spiral_prefix(dim, m).len() == if ring_side(dim, m) >= 0 {
            dim * dim - ring_side(dim, m) * ring_side(dim, m)
        } else {
            dim * dim
        },
    decreases m,
{
    if m == 0 {
        assert(spiral_prefix(dim, 0).len() == 0);
    } else {
        lemma_spiral_prefix_len(dim, m - 1);
        let s = ring_side(dim, m - 1);
        assert(2 * m <= dim + 1);
        assert(s >= 1);
        lemma_ring_seq_len(dim, m - 1);
        assert(spiral_prefix(dim, m) == spiral_prefix(dim, m - 1) + ring_seq(dim, m - 1));
        assert(spiral_prefix(dim, m).len() == spiral_prefix(dim, m - 1).len() + ring_len(
            dim,
            m - 1,
        ));
        if s == 1 {
            assert(spiral_prefix(dim, m - 1).len() == dim * dim - 1 * 1);
            assert(ring_side(dim, m) == -1);
        } else {
            assert(spiral_prefix(dim, m - 1).len() == dim * dim - s * s);
            assert(ring_len(dim, m - 1) == 4 * s - 4);
            assert(ring_side(dim, m) == s - 2);
            assert((s - 2) * (s - 2) == s * s - 4 * s + 4) by (nonlinear_arith);
        }
    }
}

/// The cell at position `j` of ring `k` lies on ring `k` (its depth is `k`),
/// and `ring_index_of` maps it back to `j`.
pub proof fn lemma_ring_at(dim: int, k: int, j: int)
    requires
        0 <= k,
        dim <= u32::MAX,
        ring_side(dim, k) >= 1,
        0 <= j < ring_len(dim, k),
    ensures
        ({
            let p = ring_seq(dim, k)[j];
            &&& k <= (p.0 as int) < dim - k
            &&& k <= (p.1 as int) < dim - k
            &&& cell_depth(dim, p.0 as int, p.1 as int) == k
            &&& ring_index_of(dim, k, p.0 as int, p.1 as int) == j
        }),
{
    let lo = k;
    let hi = dim - 1 - k;
    let w = hi - lo + 1;
    lemma_ring_seq_len(dim, k);
    let p = ring_seq(dim, k)[j];
    if j < w {
        assert(p == ((hi - j) as u32, lo as u32));
    } else if j < w + (w - 1) {
        let jj = j - w;
        assert(p == (lo as u32, (lo + 1 + jj) as u32));
    } else if j < w + 2 * (w - 1) {
        let jj = j - w - (w - 1);
        assert(p == ((lo + 1 + jj) as u32, hi as u32));
    } else {
        let jj = j - w - 2 * (w - 1);
        assert(p == (hi as u32, (hi - 1 - jj) as u32));
        assert(jj < w - 2);
    }
}

/// Locates position `i` of the spiral on its ring: returns the ring `k` and
/// the offset `j` of that position within the ring.
proof fn spiral_locate(dim: int, m: int, i: int) -> (r: (int, int))
    requires
        0 <= dim <= u32::MAX,
        0 <= m <= num_rings(dim),
        0 <= i < spiral_prefix(dim, m).len(),
    ensures
        0 <= r.0 < m,
        0 <= r.1 < ring_len(dim, r.0),
        i == spiral_prefix(dim, r.0).len() + r.1,
        spiral_prefix(dim, m)[i] == ring_seq(dim, r.0)[r.1],
    decreases m,
{
    assert(m > 0);
    let prev = spiral_prefix(dim, m - 1);
    assert(spiral_prefix(dim, m) == prev + ring_seq(dim, m - 1));
    if i < prev.len() {
        spiral_locate(dim, m - 1, i)
    } else {
        assert(2 * m <= dim + 1);
        assert(ring_side(dim, m - 1) >= 1);
        lemma_ring_seq_len(dim, m - 1);
        (m - 1, i - prev.len())
    }
}

/// Every position the spiral emits lies inside the `dim × dim` grid.
pub proof fn lemma_spiral_in_range(dim: int, i: int)
    requires
        0 <= dim <= u32::MAX,
        0 <= i < dim * dim,
    ensures
        (spiral_spec(dim)[i].0 as int) < dim,
        (spiral_spec(dim)[i].1 as int) < dim,
{
    lemma_spiral_len(dim);
    let r = spiral_locate(dim, num_rings(dim), i);
    assert(2 * r.0 < dim);
    lemma_ring_at(dim, r.0, r.1);
}

/// Two distinct positions of the spiral name two distinct cells.
pub proof fn lemma_spiral_injective(dim: int, i1: int, i2: int)
    requires
        0 <= dim <= u32::MAX,
        0 <= i1 < dim * dim,
        0 <= i2 < dim * dim,
        i1 != i2,
    ensures
        spiral_spec(dim)[i1] != spiral_spec(dim)[i2],
{
    lemma_spiral_len(dim);
    let r1 = spiral_locate(dim, num_rings(dim), i1);
    let r2 = spiral_locate(dim, num_rings(dim), i2);
    assert(2 * r1.0 < dim);
    assert(2 * r2.0 < dim);
    lemma_ring_at(dim, r1.0, r1.1);
    lemma_ring_at(dim, r2.0, r2.1);
    let p1 = spiral_spec(dim)[i1];
    let p2 = spiral_spec(dim)[i2];
    if p1 == p2 {
        assert(r1.0 == r2.0);
        assert(r1.1 == r2.1);
        assert(false);
    }
}

/// Position `spiral_prefix(dim, k).len() + j` of any longer prefix is cell
/// `j` of ring `k`.
proof fn lemma_prefix_index(dim: int, k: int, m: int, j: int)
    requires
        dim >= 0,
        0 <= k < m <= num_rings(dim),
        0 <= j < ring_len(dim, k),
    ensures
        spiral_prefix(dim, k).len() + j < spiral_prefix(dim, m).len(),
        spiral_prefix(dim, m)[spiral_prefix(dim, k).len() + j] == ring_seq(dim, k)[j],
    decreases m,
{
    let prev = spiral_prefix(dim, m - 1);
    assert(spiral_prefix(dim, m) == prev + ring_seq(dim, m - 1));
    if k == m - 1 {
        assert(2 * m <= dim + 1);
        assert(ring_side(dim, k) >= 1);
        lemma_ring_seq_len(dim, k);
    } else {
        lemma_prefix_index(dim, k, m - 1, j);
    }
}

/// The position at which the spiral visits cell `(x, y)`.
pub open spec fn spiral_index_of(dim: int, x: int, y: int) -> int {
    let k = cell_depth(dim, x, y);
    spiral_prefix(dim, k).len() + ring_index_of(dim, k, x, y)
}

/// The spiral visits every cell of the grid: cell `(x, y)` appears at
/// position `spiral_index_of(dim, x, y)`.
pub proof fn lemma_spiral_covers(dim: int, x: int, y: int)
    requires
        0 <= dim <= u32::MAX,
        0 <= x < dim,
        0 <= y < dim,
    ensures
        0 <= spiral_index_of(dim, x, y) < dim * dim,
        spiral_spec(dim)[spiral_index_of(dim, x, y)] == (x as u32, y as u32),
{
    let k = cell_depth(dim, x, y);
    let lo = k;
    let hi = dim - 1 - k;
    let w = hi - lo + 1;
    assert(k >= 0);
    assert(w >= 1);
    assert(2 * k < dim);
    assert(k < num_rings(dim));
    lemma_ring_seq_len(dim, k);
    let j = ring_index_of(dim, k, x, y);
    if y == lo {
        assert(lo <= x <= hi);
        assert(0 <= j < w);
        assert(ring_seq(dim, k)[j] == (x as u32, y as u32));
    } else if x == lo {
        assert(lo + 1 <= y <= hi);
        assert(w >= 2);
        assert(0 <= j - w < w - 1);
        assert(ring_seq(dim, k)[j] == (x as u32, y as u32));
    } else if y == hi {
        assert(lo + 1 <= x <= hi);
        assert(w >= 2);
        assert(0 <= j - w - (w - 1) < w - 1);
        assert(ring_seq(dim, k)[j] == (x as u32, y as u32));
    } else {
        assert(dim - 1 - x == k);
        assert(lo + 1 <= y <= hi - 1);
        assert(w >= 3);
        assert(0 <= j - w - 2 * (w - 1) < w - 2);
        assert(ring_seq(dim, k)[j] == (x as u32, y as u32));
    }
    lemma_prefix_index(dim, k, num_rings(dim), j);
    lemma_spiral_prefix_len(dim, k);
    lemma_spiral_len(dim);
}

/// The spiral starts at the top-right corner and walks the whole top row
/// right to left: position `j` is cell `(dim - 1 - j, 0)`.
pub proof fn lemma_spiral_top_row(dim: int, j: int)
    requires
        0 <= dim <= u32::MAX,
        0 <= j < dim,
    ensures
        spiral_spec(dim)[j] == (((dim - 1 - j) as u32, 0u32)),
{
    assert(num_rings(dim) >= 1);
    assert(j < ring_len(dim, 0));
    lemma_prefix_index(dim, 0, num_rings(dim), j);
    assert(spiral_prefix(dim, 0).len() == 0);
    assert(ring_seq(dim, 0)[j] == (((dim - 1 - j) as u32, 0u32)));
}

/// The spiral visits `dim * dim` positions.
pub proof fn lemma_spiral_len(dim: int)
    requires
        dim >= 0,
    ensures
        spiral_spec(dim).len() == dim * dim,
{
    lemma_spiral_prefix_len(dim, num_rings(dim));
    let s = ring_side(dim, num_rings(dim));
    if dim % 2 == 0 {
        assert(num_rings(dim) == dim / 2);
        assert(s == 0);
    } else {
        assert(num_rings(dim) == (dim + 1) / 2);
        assert(s == -1);
    }
}

/// Emits the spiral order for a `dim × dim` mat: `dim * dim` positions
/// `(col, row)`, clockwise inward from the top-right cell.  For `dim == 0`
/// the sequence is empty.
pub fn spiral_walker(dim: u32) -> (path: Vec<(u32, u32)>)
    ensures
        path@ == spiral_spec(dim as int),
        path@.len() == dim as int * dim as int,
{
    let ghost d = dim as int;
    let mut path: Vec<(u32, u32)> = Vec::new();
    if dim == 0 {
        proof {
            lemma_spiral_len(0);
            assert(path@ =~= spiral_spec(0));
        }
        return path;
    }
    let mut k: u32 = 0;
    while k < dim - k
        invariant
            d == dim as int,
            1 <= dim,
            k <= dim,
            k as int <= num_rings(d),
            path@ == spiral_prefix(d, k as int),
        decreases num_rings(d) - k,
    {
        let lo = k;
        let hi = dim - 1 - k;
        let w = hi - lo + 1;
        let ghost ring = ring_seq(d, k as int);
        proof {
            lemma_ring_seq_len(d, k as int);
        }

        // Top row, right to left.
        let mut j: u32 = 0;
        while j < w
            invariant
                d == dim as int,
                lo == k && hi == dim as int - 1 - k && w == hi - lo + 1,
                k < dim - k <= dim,
                j <= w,
                path@ == spiral_prefix(d, k as int) + Seq::new(
                    j as nat,
                    |jj: int| (((hi - jj) as u32, lo)),
                ),
            decreases w - j,
        {
            path.push((hi - j, lo));
            proof {
                assert(path@ =~= spiral_prefix(d, k as int) + Seq::new(
                    (j + 1) as nat,
                    |jj: int| (((hi as int - jj) as u32, lo)),
                ));
            }
            j = j + 1;
        }

        // Left column, downward.
        j = 0;
        while j < w - 1
            invariant
                d == dim as int,
                lo == k && hi == dim as int - 1 - k && w == hi - lo + 1,
                k < dim - k <= dim,
                j <= w - 1,
                path@ == spiral_prefix(d, k as int) + Seq::new(
                    w as nat,
                    |jj: int| (((hi - jj) as u32, lo)),
                ) + Seq::new(j as nat, |jj: int| ((lo, (lo + 1 + jj) as u32))),
            decreases w - 1 - j,
        {
            path.push((lo, lo + 1 + j));
            proof {
                assert(path@ =~= spiral_prefix(d, k as int) + Seq::new(
                    w as nat,
                    |jj: int| (((hi as int - jj) as u32, lo)),
                ) + Seq::new((j + 1) as nat, |jj: int| ((lo, (lo as int + 1 + jj) as u32))));
            }
            j = j + 1;
        }

        // Bottom row, left to right.
        j = 0;
        while j < w - 1
            invariant
                d == dim as int,
                lo == k && hi == dim as int - 1 - k && w == hi - lo + 1,
                k < dim - k <= dim,
                j <= w - 1,
                path@ == spiral_prefix(d, k as int) + Seq::new(
                    w as nat,
                    |jj: int| (((hi - jj) as u32, lo)),
                ) + Seq::new((w - 1) as nat, |jj: int| ((lo, (lo + 1 + jj) as u32))) + Seq::new(
                    j as nat,
                    |jj: int| (((lo + 1 + jj) as u32, hi)),
                ),
            decreases w - 1 - j,
        {
            path.push((lo + 1 + j, hi));
            proof {
                assert(path@ =~= spiral_prefix(d, k as int) + Seq::new(
                    w as nat,
                    |jj: int| (((hi as int - jj) as u32, lo)),
                ) + Seq::new((w - 1) as nat, |jj: int| ((lo, (lo as int + 1 + jj) as u32)))
                    + Seq::new((j + 1) as nat, |jj: int| (((lo as int + 1 + jj) as u32, hi))));
            }
            j = j + 1;
        }

        // Right column, upward, skipping the two corners already emitted.
        let rlen = if w >= 2 {
            w - 2
        } else {
            0
        };
        j = 0;
        while j < rlen
            invariant
                d == dim as int,
                lo == k && hi == dim as int - 1 - k && w == hi - lo + 1,
                k < dim - k <= dim,
                rlen == if w >= 2 {
                    (w - 2) as int
                } else {
                    0
                },
                j <= rlen,
                path@ == spiral_prefix(d, k as int) + Seq::new(
                    w as nat,
                    |jj: int| (((hi - jj) as u32, lo)),
                ) + Seq::new((w - 1) as nat, |jj: int| ((lo, (lo + 1 + jj) as u32))) + Seq::new(
                    (w - 1) as nat,
                    |jj: int| (((lo + 1 + jj) as u32, hi)),
                ) + Seq::new(j as nat, |jj: int| ((hi, (hi - 1 - jj) as u32))),
            decreases rlen - j,
        {
            path.push((hi, hi - 1 - j));
            proof {
                assert(path@ =~= spiral_prefix(d, k as int) + Seq::new(
                    w as nat,
                    |jj: int| (((hi as int - jj) as u32, lo)),
                ) + Seq::new((w - 1) as nat, |jj: int| ((lo, (lo as int + 1 + jj) as u32)))
                    + Seq::new((w - 1) as nat, |jj: int| (((lo as int + 1 + jj) as u32, hi)))
                    + Seq::new((j + 1) as nat, |jj: int| ((hi, (hi as int - 1 - jj) as u32))));
            }
            j = j + 1;
        }

        proof {
            assert(path@ =~= spiral_prefix(d, k as int) + ring);
            assert(path@ =~= spiral_prefix(d, k as int + 1));
        }
        k = k + 1;
    }
    proof {
        assert(k as int == num_rings(d));
        lemma_spiral_len(d);
    }
    path
}

} // verus!
