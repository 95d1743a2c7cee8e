use vstd::prelude::*;
use vstd::arithmetic::power::{pow, lemma_pow0, lemma_pow1, lemma_pow_adds};
use crate::bignum::BigNat;

verus! {

// ---------------------------------------------------------------------------
// The mathematical model.
//
// A vertex of the hypercube [0, w-1]^v is a sequence a of v entries below w.
// Its distance from the all-(w-1) corner is the sum of w-1-a_i.  Layer d is
// the set of vertices at distance d; `layer_size(w, v, d)` counts it.  The
// canonical order of a layer sorts by the first coordinate descending (that
// is, by j_1 = w-1-a_1 ascending) and recurses on the suffix;
// `vertex_index(w, a)` is the position of `a` in that order.
// ---------------------------------------------------------------------------

/// Number of vertices of [0, w-1]^v at distance d, via the first-digit
/// recurrence: summing over j = w-1-a_1 gives layer d-j in dimension v-1.
pub open spec fn layer_size(w: nat, v: nat, d: int) -> nat
    decreases v, 0int,
{
    if d < 0 {
        0
    } else if v == 0 {
        if d == 0 {
            1
        } else {
            0
        }
    } else {
        layer_sum(w, (v - 1) as nat, d, w)
    }
}

/// Partial first-digit sum: sum over j < k of layer_size(w, v, d - j).
pub open spec fn layer_sum(w: nat, v: nat, d: int, k: nat) -> nat
    decreases v, k,
{
    if k == 0 {
        0
    } else {
        layer_size(w, v, d - (k - 1)) + layer_sum(w, v, d, (k - 1) as nat)
    }
}

/// Distance of a vertex from the all-(w-1) corner: sum of w-1-a_i.
pub open spec fn vertex_dist(w: nat, a: Seq<u8>) -> int
    decreases a.len(),
{
    if a.len() == 0 {
        0
    } else {
        (w - 1 - a[0]) + vertex_dist(w, a.skip(1))
    }
}

/// All entries lie below the base.
pub open spec fn vertex_ok(w: nat, a: Seq<u8>) -> bool {
    forall|i: int| 0 <= i < a.len() ==> a[i] < w
}

/// Position of a vertex inside its layer, under the canonical order.
pub open spec fn vertex_index(w: nat, a: Seq<u8>) -> nat
    decreases a.len(),
{
    if a.len() <= 1 {
        0
    } else {
        layer_sum(w, (a.len() - 1) as nat, vertex_dist(w, a), (w - 1 - a[0]) as nat)
            + vertex_index(w, a.skip(1))
    }
}

/// Total size of layers 0 to d of [0, w-1]^v.
pub open spec fn part_size_spec(w: nat, v: nat, d: int) -> nat
    decreases d + 1,
{
    if d < 0 {
        0
    } else {
        part_size_spec(w, v, d - 1) + layer_size(w, v, d)
    }
}

// ---------------------------------------------------------------------------
// Unfolding lemmas.  The two layer functions are mutually recursive, and a
// recursive proof often fails to unfold them directly; these state the
// defining equations once, for every later proof to call.
// ---------------------------------------------------------------------------

pub proof fn lemma_layer_size_unfold(w: nat, v: nat, d: int)
    ensures
        layer_size(w, v, d) == if d < 0 {
            0nat
        } else if v == 0 {
            if d == 0 {
                1nat
            } else {
                0nat
            }
        } else {
            layer_sum(w, (v - 1) as nat, d, w)
        },
{
}

pub proof fn lemma_layer_sum_unfold(w: nat, v: nat, d: int, k: nat)
    ensures
        layer_sum(w, v, d, k) == if k == 0 {
            0nat
        } else {
            (layer_size(w, v, d - (k - 1)) + layer_sum(w, v, d, (k - 1) as nat)) as nat
        },
{
}

pub proof fn lemma_vertex_dist_unfold(w: nat, a: Seq<u8>)
    ensures
        vertex_dist(w, a) == if a.len() == 0 {
            0int
        } else {
            (w - 1 - a[0]) + vertex_dist(w, a.skip(1))
        },
{
}

pub proof fn lemma_vertex_index_unfold(w: nat, a: Seq<u8>)
    ensures
        vertex_index(w, a) == if a.len() <= 1 {
            0nat
        } else {
            (layer_sum(w, (a.len() - 1) as nat, vertex_dist(w, a), (w - 1 - a[0]) as nat)
                + vertex_index(w, a.skip(1))) as nat
        },
{
}

pub proof fn lemma_part_size_unfold(w: nat, v: nat, d: int)
    ensures
        part_size_spec(w, v, d) == if d < 0 {
            0nat
        } else {
            (part_size_spec(w, v, d - 1) + layer_size(w, v, d)) as nat
        },
{
}

pub proof fn lemma_prefix_index_unfold(w: nat, out: Seq<u8>, d: int, v: nat)
    ensures
        prefix_index(w, out, d, v) == if out.len() == 0 {
            0nat
        } else {
            (layer_sum(w, (v - 1) as nat, d, (w - 1 - out[0]) as nat) + prefix_index(
                w,
                out.skip(1),
                d - (w - 1 - out[0]),
                (v - 1) as nat,
            )) as nat
        },
{
}

// ---------------------------------------------------------------------------
// Lemmas about layer sizes.
// ---------------------------------------------------------------------------

/// A first-digit sum whose every term lies above the maximal distance is 0.
pub proof fn lemma_layer_sum_zero_above(w: nat, v: nat, d: int, k: nat)
    requires
        d - (k - 1) > (w - 1) * v,
    ensures
        layer_sum(w, v, d, k) == 0,
    decreases v, k,
{
    lemma_layer_sum_unfold(w, v, d, k);
    if k == 0 {
    } else {
        let dt = d - (k - 1);
        lemma_layer_size_unfold(w, v, dt);
        if dt < 0 {
        } else if v == 0 {
        } else {
            assert((w - 1) * v == (w - 1) * (v - 1) + (w - 1)) by (nonlinear_arith);
            lemma_layer_sum_zero_above(w, (v - 1) as nat, dt, w);
        }
        assert(layer_size(w, v, dt) == 0);
        lemma_layer_sum_zero_above(w, v, d, (k - 1) as nat);
    }
}

/// Layers above the maximal distance (w-1)v are empty.
pub proof fn lemma_layer_size_zero_above(w: nat, v: nat, d: int)
    requires
        d > (w - 1) * v,
    ensures
        layer_size(w, v, d) == 0,
{
    lemma_layer_size_unfold(w, v, d);
    if d < 0 {
    } else if v == 0 {
    } else {
        assert((w - 1) * v == (w - 1) * (v - 1) + (w - 1)) by (nonlinear_arith);
        lemma_layer_sum_zero_above(w, (v - 1) as nat, d, w);
    }
}

/// First-digit sums grow with the number of digits summed.
pub proof fn lemma_layer_sum_mono(w: nat, v: nat, d: int, k1: nat, k2: nat)
    requires
        k1 <= k2,
    ensures
        layer_sum(w, v, d, k1) <= layer_sum(w, v, d, k2),
    decreases k2,
{
    if k1 < k2 {
        lemma_layer_sum_mono(w, v, d, k1, (k2 - 1) as nat);
        lemma_layer_sum_unfold(w, v, d, k2);
    }
}

/// Digits past the distance contribute nothing to a first-digit sum.
pub proof fn lemma_layer_sum_stable_high(w: nat, v: nat, d: int, k1: nat, k2: nat)
    requires
        d >= 0,
        d < k1 <= k2,
    ensures
        layer_sum(w, v, d, k1) == layer_sum(w, v, d, k2),
    decreases k2,
{
    if k1 < k2 {
        lemma_layer_sum_stable_high(w, v, d, k1, (k2 - 1) as nat);
        lemma_layer_sum_unfold(w, v, d, k2);
        lemma_layer_size_unfold(w, v, d - (k2 - 1));
    }
}

/// In dimension 0 the first-digit sum is 1 exactly when 0 <= d < k.
pub proof fn lemma_layer_sum_dim0(w: nat, d: int, k: nat)
    ensures
        layer_sum(w, 0, d, k) == if 0 <= d < k {
            1int
        } else {
            0int
        },
    decreases k,
{
    lemma_layer_sum_unfold(w, 0, d, k);
    if k > 0 {
        lemma_layer_sum_dim0(w, d, (k - 1) as nat);
        lemma_layer_size_unfold(w, 0, d - (k - 1));
    }
}

/// Every layer with a distance in range holds at least one vertex.
pub proof fn lemma_layer_size_pos(w: nat, v: nat, d: int)
    requires
        w >= 1,
        0 <= d <= (w - 1) * v,
    ensures
        layer_size(w, v, d) >= 1,
    decreases v,
{
    lemma_layer_size_unfold(w, v, d);
    if v == 0 {
    } else {
        let js = if d < w - 1 {
            d
        } else {
            w - 1
        };
        assert((w - 1) * v == (w - 1) * (v - 1) + (w - 1)) by (nonlinear_arith);
        lemma_layer_size_pos(w, (v - 1) as nat, d - js);
        lemma_layer_sum_unfold(w, (v - 1) as nat, d, (js + 1) as nat);
        lemma_layer_sum_mono(w, (v - 1) as nat, d, (js + 1) as nat, w);
    }
}

// ---------------------------------------------------------------------------
// Lemmas about vertex distance and index.
// ---------------------------------------------------------------------------

pub proof fn lemma_vertex_ok_skip(w: nat, a: Seq<u8>)
    requires
        vertex_ok(w, a),
        a.len() >= 1,
    ensures
        vertex_ok(w, a.skip(1)),
{
    assert(forall|i: int| 0 <= i < a.skip(1).len() ==> a.skip(1)[i] == a[i + 1]);
}

pub proof fn lemma_vertex_dist_range(w: nat, a: Seq<u8>)
    requires
        vertex_ok(w, a),
        w >= 1,
    ensures
        0 <= vertex_dist(w, a) <= (w - 1) * a.len(),
    decreases a.len(),
{
    lemma_vertex_dist_unfold(w, a);
    if a.len() == 0 {
    } else {
        lemma_vertex_ok_skip(w, a);
        lemma_vertex_dist_range(w, a.skip(1));
        assert((w - 1) * a.len() == (w - 1) + (w - 1) * (a.len() - 1)) by (nonlinear_arith);
    }
}

pub proof fn lemma_vertex_dist_push(w: nat, a: Seq<u8>, x: u8)
    ensures
        vertex_dist(w, a.push(x)) == vertex_dist(w, a) + (w - 1 - x),
    decreases a.len(),
{
    lemma_vertex_dist_unfold(w, a.push(x));
    lemma_vertex_dist_unfold(w, a);
    if a.len() == 0 {
        assert(a.push(x).skip(1) =~= Seq::<u8>::empty());
        lemma_vertex_dist_unfold(w, Seq::<u8>::empty());
    } else {
        assert(a.push(x).skip(1) =~= a.skip(1).push(x));
        lemma_vertex_dist_push(w, a.skip(1), x);
    }
}

/// The canonical index of a vertex lies below its layer's size.
pub proof fn lemma_vertex_index_bound(w: nat, a: Seq<u8>)
    requires
        w >= 1,
        a.len() >= 1,
        vertex_ok(w, a),
    ensures
        vertex_index(w, a) < layer_size(w, a.len() as nat, vertex_dist(w, a)),
    decreases a.len(),
{
    let d = vertex_dist(w, a);
    lemma_vertex_dist_range(w, a);
    lemma_vertex_dist_unfold(w, a);
    lemma_vertex_index_unfold(w, a);
    lemma_layer_size_unfold(w, a.len() as nat, d);
    if a.len() == 1 {
        assert(a.skip(1) =~= Seq::<u8>::empty());
        lemma_vertex_dist_unfold(w, Seq::<u8>::empty());
        lemma_layer_sum_dim0(w, d, w);
    } else {
        let j0 = (w - 1 - a[0]) as nat;
        let tail = a.skip(1);
        let vv = (a.len() - 1) as nat;
        lemma_vertex_ok_skip(w, a);
        lemma_vertex_index_bound(w, tail);
        assert(vertex_dist(w, tail) == d - j0);
        lemma_layer_sum_unfold(w, vv, d, (j0 + 1) as nat);
        lemma_layer_sum_mono(w, vv, d, (j0 + 1) as nat, w);
    }
}

/// A strictly smaller first digit j = w-1-a_1 means a strictly smaller index.
proof fn lemma_vertex_index_first_lt(w: nat, a: Seq<u8>, b: Seq<u8>)
    requires
        w >= 1,
        a.len() == b.len() >= 2,
        vertex_ok(w, a),
        vertex_ok(w, b),
        vertex_dist(w, a) == vertex_dist(w, b),
        w - 1 - a[0] < w - 1 - b[0],
    ensures
        vertex_index(w, a) < vertex_index(w, b),
{
    let d = vertex_dist(w, a);
    let vv = (a.len() - 1) as nat;
    let ja = (w - 1 - a[0]) as nat;
    let jb = (w - 1 - b[0]) as nat;
    let ta = a.skip(1);
    lemma_vertex_ok_skip(w, a);
    lemma_vertex_index_bound(w, ta);
    lemma_vertex_dist_unfold(w, a);
    lemma_vertex_index_unfold(w, a);
    lemma_vertex_index_unfold(w, b);
    assert(vertex_dist(w, ta) == d - ja);
    lemma_layer_sum_unfold(w, vv, d, (ja + 1) as nat);
    lemma_layer_sum_mono(w, vv, d, (ja + 1) as nat, jb);
}

/// Distinct vertices of one layer have distinct canonical indices.
pub proof fn lemma_vertex_index_injective(w: nat, a: Seq<u8>, b: Seq<u8>)
    requires
        w >= 1,
        a.len() == b.len() >= 1,
        vertex_ok(w, a),
        vertex_ok(w, b),
        vertex_dist(w, a) == vertex_dist(w, b),
        vertex_index(w, a) == vertex_index(w, b),
    ensures
        a == b,
    decreases a.len(),
{
    let d = vertex_dist(w, a);
    lemma_vertex_dist_unfold(w, a);
    lemma_vertex_dist_unfold(w, b);
    if a.len() == 1 {
        assert(a.skip(1) =~= Seq::<u8>::empty());
        assert(b.skip(1) =~= Seq::<u8>::empty());
        lemma_vertex_dist_unfold(w, Seq::<u8>::empty());
        assert(a[0] == w - 1 - d);
        assert(b[0] == w - 1 - d);
        assert(a =~= b);
    } else {
        if a[0] != b[0] {
            if w - 1 - a[0] < w - 1 - b[0] {
                lemma_vertex_index_first_lt(w, a, b);
            } else {
                lemma_vertex_index_first_lt(w, b, a);
            }
            assert(false);
        }
        let ta = a.skip(1);
        let tb = b.skip(1);
        lemma_vertex_ok_skip(w, a);
        lemma_vertex_ok_skip(w, b);
        lemma_vertex_index_unfold(w, a);
        lemma_vertex_index_unfold(w, b);
        lemma_vertex_index_injective(w, ta, tb);
        assert(a =~= b) by {
            assert(forall|i: int| 1 <= i < a.len() ==> a[i] == ta[i - 1] && b[i] == tb[i - 1]);
        }
    }
}

// ---------------------------------------------------------------------------
// The index of a full vertex, split as an already chosen prefix plus a tail.
// ---------------------------------------------------------------------------

/// Contribution of a chosen prefix to the index of a full vertex of
/// dimension v whose total distance is d.
pub open spec fn prefix_index(w: nat, out: Seq<u8>, d: int, v: nat) -> nat
    decreases out.len(),
{
    if out.len() == 0 {
        0
    } else {
        layer_sum(w, (v - 1) as nat, d, (w - 1 - out[0]) as nat) + prefix_index(
            w,
            out.skip(1),
            d - (w - 1 - out[0]),
            (v - 1) as nat,
        )
    }
}

/// The index of a full vertex is the prefix contribution plus the tail index.
pub proof fn lemma_prefix_index_full(w: nat, out: Seq<u8>, t: Seq<u8>, v: nat)
    requires
        v == out.len() + t.len(),
        t.len() >= 1,
    ensures
        vertex_index(w, out + t) == prefix_index(w, out, vertex_dist(w, out + t), v)
            + vertex_index(w, t),
    decreases out.len(),
{
    let c = out + t;
    lemma_prefix_index_unfold(w, out, vertex_dist(w, c), v);
    if out.len() == 0 {
        assert(c =~= t);
    } else {
        assert(c.skip(1) =~= out.skip(1) + t);
        assert(c[0] == out[0]);
        lemma_prefix_index_full(w, out.skip(1), t, (v - 1) as nat);
        lemma_vertex_dist_unfold(w, c);
        lemma_vertex_index_unfold(w, c);
    }
}

/// Extending the prefix by one coordinate adds one first-digit sum.
pub proof fn lemma_prefix_index_push(w: nat, out: Seq<u8>, x: u8, d: int, v: nat)
    requires
        out.len() < v,
    ensures
        prefix_index(w, out.push(x), d, v) == prefix_index(w, out, d, v) + layer_sum(
            w,
            (v - out.len() - 1) as nat,
            d - vertex_dist(w, out),
            (w - 1 - x) as nat,
        ),
    decreases out.len(),
{
    lemma_prefix_index_unfold(w, out.push(x), d, v);
    lemma_prefix_index_unfold(w, out, d, v);
    lemma_vertex_dist_unfold(w, out);
    if out.len() == 0 {
        assert(out.push(x).skip(1) =~= Seq::<u8>::empty());
        assert(out.push(x)[0] == x);
        lemma_prefix_index_unfold(w, Seq::<u8>::empty(), d - (w - 1 - x), (v - 1) as nat);
    } else {
        assert(out.push(x).skip(1) =~= out.skip(1).push(x));
        assert(out.push(x)[0] == out[0]);
        lemma_prefix_index_push(w, out.skip(1), x, d - (w - 1 - out[0]), (v - 1) as nat);
    }
}

} // verus!

verus! {

// ---------------------------------------------------------------------------
// The layer-size table.
// ---------------------------------------------------------------------------

/// One row of the table: the sizes of all layers of [0, w-1]^v.
pub open spec fn row_ok(w: nat, row: Seq<BigNat>, v: nat) -> bool {
    &&& row.len() == (w - 1) * v + 1
    &&& forall|d: int|
        0 <= d < row.len() ==> ((#[trigger] row[d])@ == layer_size(w, v, d) && row[d].wf())
}

/// Table of the layer sizes of [0, w-1]^v for every dimension v up to a
/// chosen maximum.  Row v holds the sizes of layers 0 to (w-1)v.
pub struct LayerSizes {
    pub w: usize,
    pub rows: Vec<Vec<BigNat>>,
}

impl LayerSizes {
    pub open spec fn wf(&self) -> bool {
        &&& 2 <= self.w <= 0x1_0000
        &&& 2 <= self.rows@.len() <= 0x1_0001
        &&& forall|v: int|
            1 <= v < self.rows@.len() ==> row_ok(self.w as nat, (#[trigger] self.rows@[v])@, v as nat)
    }

    /// Largest dimension the table covers.
    pub open spec fn v_max(&self) -> int {
        self.rows@.len() - 1
    }

    /// Build the table for base `w` up to dimension `v_max`, by the
    /// first-digit recurrence: each entry is a contiguous slice sum of the
    /// previous row.
    pub fn new(w: usize, v_max: usize) -> (r: LayerSizes)
        requires
            2 <= w <= 0x1_0000,
            1 <= v_max <= 0x1_0000,
        ensures
            r.wf(),
            r.w == w,
            r.v_max() == v_max,
    {
        let mut rows: Vec<Vec<BigNat>> = Vec::new();
        rows.push(Vec::new());
        // dimension 1: a single coordinate; every distance 0..w-1 has one vertex
        let mut row1: Vec<BigNat> = Vec::new();
        let mut d: usize = 0;
        while d < w
            invariant
                d <= w,
                row1@.len() == d,
                forall|dd: int| 0 <= dd < d ==> ((#[trigger] row1@[dd])@ == 1 && row1@[dd].wf()),
            decreases w - d,
        {
            row1.push(BigNat::from_u64(1));
            d += 1;
        }
        proof {
            assert forall|dd: int| 0 <= dd < row1@.len() implies (#[trigger] row1@[dd])@
                == layer_size(w as nat, 1, dd) && row1@[dd].wf() by {
                lemma_layer_sum_dim0(w as nat, dd, w as nat);
                lemma_layer_size_unfold(w as nat, 1, dd);
            }
            assert(row_ok(w as nat, row1@, 1));
        }
        rows.push(row1);
        let mut v: usize = 2;
        while v <= v_max
            invariant
                2 <= v <= v_max + 1,
                2 <= w <= 0x1_0000,
                v_max <= 0x1_0000,
                rows@.len() == v,
                forall|vv: int|
                    1 <= vv < v ==> row_ok(w as nat, (#[trigger] rows@[vv])@, vv as nat),
            decreases v_max + 1 - v,
        {
            proof {
                assert((w - 1) * (v - 1) <= 0xFFFF * 0xFFFF && (w - 1) * v <= 0xFFFF * 0x1_0000)
                    by (nonlinear_arith)
                    requires
                        2 <= w <= 0x1_0000,
                        2 <= v <= 0x1_0000,
                ;
                assert((w - 1) * v == (w - 1) * (v - 1) + (w - 1)) by (nonlinear_arith);
            }
            let prev_max = (w - 1) * (v - 1);
            let max_d = (w - 1) * v;
            let mut row: Vec<BigNat> = Vec::new();
            let mut d: usize = 0;
            while d <= max_d
                invariant
                    d <= max_d + 1,
                    row@.len() == d,
                    2 <= w <= 0x1_0000,
                    2 <= v <= 0x1_0000,
                    prev_max == (w - 1) * (v - 1),
                    max_d == (w - 1) * v,
                    max_d <= 0xFFFF_0000,
                    max_d == prev_max + (w - 1),
                    rows@.len() == v,
                    row_ok(w as nat, rows@[v - 1]@, (v - 1) as nat),
                    forall|dd: int|
                        0 <= dd < d ==> ((#[trigger] row@[dd])@ == layer_size(w as nat, v as nat, dd)
                            && row@[dd].wf()),
                decreases max_d + 1 - d,
            {
                let jlo = if d > prev_max {
                    d - prev_max
                } else {
                    0
                };
                let jhi = if d < w - 1 {
                    d
                } else {
                    w - 1
                };
                proof {
                    if jlo > 0 {
                        lemma_layer_sum_zero_above(w as nat, (v - 1) as nat, d as int, jlo as nat);
                    }
                    assert(layer_sum(w as nat, (v - 1) as nat, d as int, jlo as nat) == 0);
                }
                let mut acc = BigNat::zero();
                let mut j = jlo;
                while j <= jhi
                    invariant
                        jlo <= j <= jhi + 1,
                        jhi < w,
                        jhi <= d,
                        d - jlo <= prev_max,
                        d <= prev_max + (w - 1),
                        2 <= w <= 0x1_0000,
                        2 <= v <= 0x1_0000,
                        prev_max == (w - 1) * (v - 1),
                        rows@.len() == v,
                        row_ok(w as nat, rows@[v - 1]@, (v - 1) as nat),
                        acc@ == layer_sum(w as nat, (v - 1) as nat, d as int, j as nat),
                        acc.wf(),
                    decreases jhi + 1 - j,
                {
                    acc.add_assign(&rows[v - 1][d - j]);
                    proof {
                        lemma_layer_sum_unfold(w as nat, (v - 1) as nat, d as int, (j + 1) as nat);
                    }
                    j += 1;
                }
                proof {
                    if jhi < w - 1 {
                        // jhi == d: digits past the distance contribute nothing
                        lemma_layer_sum_stable_high(
                            w as nat,
                            (v - 1) as nat,
                            d as int,
                            (jhi + 1) as nat,
                            w as nat,
                        );
                    }
                    lemma_layer_size_unfold(w as nat, v as nat, d as int);
                    assert(acc@ == layer_size(w as nat, v as nat, d as int));
                }
                row.push(acc);
                d += 1;
            }
            proof {
                assert(row_ok(w as nat, row@, v as nat));
            }
            rows.push(row);
            v += 1;
        }
        LayerSizes { w, rows }
    }

    /// The size of layer d of [0, w-1]^v.
    pub fn size(&self, v: usize, d: usize) -> (r: &BigNat)
        requires
            self.wf(),
            1 <= v <= self.v_max(),
            d <= (self.w - 1) * v,
        ensures
            r@ == layer_size(self.w as nat, v as nat, d as int),
            r.wf(),
    {
        proof {
            assert(row_ok(self.w as nat, self.rows@[v as int]@, v as nat));
        }
        &self.rows[v][d]
    }
}

} // verus!

verus! {

impl LayerSizes {
    /// Map an index x in [0, layer_size(v, d)) to the x-th vertex of layer d
    /// under the canonical order, walking dimension by dimension.
    pub fn unrank(&self, v: usize, d: usize, x: BigNat) -> (r: Vec<u8>)
        requires
            self.wf(),
            self.w <= 256,
            1 <= v <= self.v_max(),
            d <= (self.w - 1) * v,
            x.wf(),
            x@ < layer_size(self.w as nat, v as nat, d as int),
        ensures
            r@.len() == v,
            vertex_ok(self.w as nat, r@),
            vertex_dist(self.w as nat, r@) == d,
            vertex_index(self.w as nat, r@) == x@,
    {
        let w = self.w;
        let ghost wn = w as nat;
        let ghost x0 = x@;
        let mut x_curr = x;
        let mut out: Vec<u8> = Vec::new();
        let mut d_curr = d;
        let mut i: usize = 1;
        proof {
            lemma_prefix_index_unfold(wn, out@, d as int, v as nat);
            lemma_vertex_dist_unfold(wn, out@);
        }
        while i < v
            invariant
                1 <= i <= v,
                self.wf(),
                self.w == w,
                wn == w as nat,
                2 <= w <= 256,
                v <= self.v_max(),
                out@.len() == i - 1,
                vertex_ok(w as nat, out@),
                vertex_dist(w as nat, out@) + d_curr == d,
                d_curr <= (w - 1) * (v - i + 1),
                x_curr.wf(),
                x_curr@ < layer_size(w as nat, (v - i + 1) as nat, d_curr as int),
                prefix_index(w as nat, out@, d as int, v as nat) + x_curr@ == x0,
            decreases v - i,
        {
            let r = v - i;
            proof {
                assert((w - 1) * (v - i + 1) == (w - 1) * r + (w - 1)) by (nonlinear_arith)
                    requires
                        r == v - i,
                ;
                assert((w - 1) * r <= 0xFF * 0x1_0000) by (nonlinear_arith)
                    requires
                        2 <= w <= 256,
                        0 <= r <= 0x1_0000,
                ;
            }
            let prev_max = (w - 1) * r;
            let jlo = if d_curr > prev_max {
                d_curr - prev_max
            } else {
                0
            };
            let jhi = if d_curr < w - 1 {
                d_curr
            } else {
                w - 1
            };
            proof {
                if jlo > 0 {
                    lemma_layer_sum_zero_above(wn, r as nat, d_curr as int, jlo as nat);
                }
                assert(layer_sum(wn, r as nat, d_curr as int, jlo as nat) == 0);
                lemma_layer_size_unfold(wn, (v - i + 1) as nat, d_curr as int);
                assert(layer_size(wn, (v - i + 1) as nat, d_curr as int) == layer_sum(
                    wn,
                    r as nat,
                    d_curr as int,
                    wn,
                ));
            }
            let ghost entry_x = x_curr@;
            let mut j = jlo;
            while !x_curr.lt(self.size(r, d_curr - j))
                invariant
                    jlo <= j <= jhi,
                    jhi < w,
                    jhi <= d_curr,
                    jhi == d_curr || jhi == w - 1,
                    d_curr - jlo <= prev_max,
                    prev_max == (w - 1) * r,
                    1 <= r <= self.v_max(),
                    self.wf(),
                    self.w == w,
                    wn == w as nat,
                    2 <= w <= 256,
                    x_curr.wf(),
                    x_curr@ + layer_sum(wn, r as nat, d_curr as int, j as nat) == entry_x,
                    entry_x < layer_sum(wn, r as nat, d_curr as int, wn),
                decreases jhi - j,
            {
                proof {
                    lemma_layer_sum_unfold(wn, r as nat, d_curr as int, (j + 1) as nat);
                    assert(entry_x >= layer_sum(wn, r as nat, d_curr as int, (j + 1) as nat));
                    if j == jhi {
                        if jhi < w - 1 {
                            lemma_layer_sum_stable_high(
                                wn,
                                r as nat,
                                d_curr as int,
                                (jhi + 1) as nat,
                                wn,
                            );
                        }
                        assert(false);
                    }
                }
                x_curr.sub_assign(self.size(r, d_curr - j));
                j += 1;
            }
            // x_curr now lies inside the block of first digit j
            let ai = (w - 1 - j) as u8;
            proof {
                lemma_layer_sum_unfold(wn, r as nat, d_curr as int, (j + 1) as nat);
                lemma_prefix_index_push(wn, out@, ai, d as int, v as nat);
                lemma_vertex_dist_push(wn, out@, ai);
                assert(w - 1 - ai == j);
                assert(d as int - vertex_dist(wn, out@) == d_curr);
                if d_curr - j > (w - 1) * r {
                    lemma_layer_size_zero_above(wn, r as nat, (d_curr - j) as int);
                    assert(false);
                }
            }
            out.push(ai);
            d_curr = d_curr - j;
            i += 1;
        }
        // one coordinate left: the index inside a 1-dimensional layer is 0
        proof {
            lemma_layer_size_unfold(wn, 1, d_curr as int);
            lemma_layer_sum_dim0(wn, d_curr as int, wn);
            assert(d_curr <= w - 1);
            assert(x_curr@ == 0);
        }
        let av = (w - 1 - d_curr) as u8;
        let ghost pre = out@;
        out.push(av);
        proof {
            lemma_vertex_dist_push(wn, pre, av);
            lemma_prefix_index_full(wn, pre, seq![av], v as nat);
            assert(pre + seq![av] =~= out@);
            lemma_vertex_index_unfold(wn, seq![av]);
        }
        out
    }

    /// Map a vertex of layer d to its index in the canonical order.
    pub fn rank(&self, v: usize, d: usize, a: &[u8]) -> (r: BigNat)
        requires
            self.wf(),
            self.w <= 256,
            1 <= v <= self.v_max(),
            a@.len() == v,
            vertex_ok(self.w as nat, a@),
            vertex_dist(self.w as nat, a@) == d,
        ensures
            r@ == vertex_index(self.w as nat, a@),
            r@ < layer_size(self.w as nat, v as nat, d as int),
            r.wf(),
    {
        let w = self.w;
        let ghost wn = w as nat;
        let mut x_curr = BigNat::zero();
        let mut i: usize = v - 1;
        let mut d_curr: usize = w - 1 - (a[v - 1] as usize);
        proof {
            assert(a@.skip(v - 1).len() == 1);
            assert(a@.skip(v - 1)[0] == a@[v - 1]);
            lemma_vertex_dist_unfold(wn, a@.skip(v - 1));
            lemma_vertex_dist_unfold(wn, a@.skip(v - 1).skip(1));
            assert(a@.skip(v - 1).skip(1) =~= Seq::<u8>::empty());
            lemma_vertex_index_unfold(wn, a@.skip(v - 1));
        }
        while i > 0
            invariant
                0 <= i <= v - 1,
                self.wf(),
                self.w == w,
                wn == w as nat,
                2 <= w <= 256,
                1 <= v <= self.v_max(),
                a@.len() == v,
                vertex_ok(wn, a@),
                d_curr == vertex_dist(wn, a@.skip(i as int)),
                x_curr@ == vertex_index(wn, a@.skip(i as int)),
                x_curr.wf(),
            decreases i,
        {
            i -= 1;
            let ji = w - 1 - (a[i] as usize);
            proof {
                assert(a@.skip(i as int)[0] == a@[i as int]);
                assert(a@.skip(i as int).skip(1) =~= a@.skip(i + 1));
                lemma_vertex_dist_unfold(wn, a@.skip(i as int));
                lemma_vertex_ok_skip_any(wn, a@, i as int);
                lemma_vertex_dist_range(wn, a@.skip(i as int));
                assert((w - 1) * (v - i) <= 0xFF * 0x1_0000) by (nonlinear_arith)
                    requires
                        2 <= w <= 256,
                        0 < v - i <= 0x1_0000,
                ;
            }
            d_curr = d_curr + ji;
            let r = v - i - 1;
            proof {
                assert((w - 1) * (v - i) == (w - 1) * r + (w - 1)) by (nonlinear_arith)
                    requires
                        r == v - i - 1,
                ;
            }
            let prev_max = (w - 1) * r;
            let jlo = if d_curr > prev_max {
                d_curr - prev_max
            } else {
                0
            };
            let jstart = if jlo < ji {
                jlo
            } else {
                ji
            };
            proof {
                if jstart > 0 {
                    lemma_layer_sum_zero_above(wn, r as nat, d_curr as int, jstart as nat);
                }
                assert(layer_sum(wn, r as nat, d_curr as int, jstart as nat) == 0);
            }
            let mut j = jstart;
            while j < ji
                invariant
                    jstart <= j <= ji,
                    ji <= d_curr,
                    d_curr - jlo <= prev_max,
                    jlo <= d_curr,
                    j >= jlo || j == ji,
                    prev_max == (w - 1) * r,
                    1 <= r <= self.v_max(),
                    self.wf(),
                    self.w == w,
                    wn == w as nat,
                    2 <= w <= 256,
                    x_curr.wf(),
                    x_curr@ == vertex_index(wn, a@.skip(i + 1)) + layer_sum(
                        wn,
                        r as nat,
                        d_curr as int,
                        j as nat,
                    ),
                decreases ji - j,
            {
                x_curr.add_assign(self.size(r, d_curr - j));
                proof {
                    lemma_layer_sum_unfold(wn, r as nat, d_curr as int, (j + 1) as nat);
                }
                j += 1;
            }
            proof {
                lemma_vertex_index_unfold(wn, a@.skip(i as int));
            }
        }
        proof {
            assert(a@.skip(0) =~= a@);
            lemma_vertex_index_bound(wn, a@);
        }
        x_curr
    }

    /// Total size of layers 0 to d of [0, w-1]^v.
    pub fn part_size(&self, v: usize, d: usize) -> (r: BigNat)
        requires
            self.wf(),
            1 <= v <= self.v_max(),
            d <= (self.w - 1) * v,
        ensures
            r@ == part_size_spec(self.w as nat, v as nat, d as int),
            r.wf(),
    {
        let ghost wn = self.w as nat;
        let mut sum = BigNat::zero();
        let mut l: usize = 0;
        proof {
            lemma_part_size_unfold(wn, v as nat, -1);
            assert((self.w - 1) * v <= 0xFFFF * 0x1_0000) by (nonlinear_arith)
                requires
                    2 <= self.w <= 0x1_0000,
                    0 <= v <= 0x1_0000,
            ;
        }
        while l <= d
            invariant
                l <= d + 1,
                d <= 0xFFFF_0000,
                self.wf(),
                1 <= v <= self.v_max(),
                d <= (self.w - 1) * v,
                sum@ == part_size_spec(wn, v as nat, l - 1),
                sum.wf(),
                wn == self.w as nat,
            decreases d + 1 - l,
        {
            sum.add_assign(self.size(v, l));
            proof {
                lemma_part_size_unfold(wn, v as nat, l as int);
            }
            l += 1;
        }
        sum
    }

    /// Find the layer holding global index x: the unique d with
    /// part_size(d-1) <= x < part_size(d), and the offset of x inside it.
    pub fn find_layer(&self, v: usize, x: BigNat) -> (r: (usize, BigNat))
        requires
            self.wf(),
            1 <= v <= self.v_max(),
            x.wf(),
            x@ < part_size_spec(self.w as nat, v as nat, ((self.w - 1) * v) as int),
        ensures
            r.0 <= (self.w - 1) * v,
            r.1@ < layer_size(self.w as nat, v as nat, r.0 as int),
            part_size_spec(self.w as nat, v as nat, r.0 - 1) + r.1@ == x@,
            r.1.wf(),
    {
        let ghost wn = self.w as nat;
        let ghost x0 = x@;
        let mut dcur: usize = 0;
        let mut val = x;
        proof {
            lemma_part_size_unfold(wn, v as nat, -1);
            assert((self.w - 1) * v <= 0xFFFF * 0x1_0000) by (nonlinear_arith)
                requires
                    2 <= self.w <= 0x1_0000,
                    0 <= v <= 0x1_0000,
            ;
        }
        while !val.lt(self.size(v, dcur))
            invariant
                dcur <= (self.w - 1) * v,
                (self.w - 1) * v <= 0xFFFF_0000,
                self.wf(),
                1 <= v <= self.v_max(),
                val.wf(),
                wn == self.w as nat,
                part_size_spec(wn, v as nat, dcur - 1) + val@ == x0,
                x0 < part_size_spec(wn, v as nat, ((self.w - 1) * v) as int),
            decreases (self.w - 1) * v - dcur,
        {
            proof {
                lemma_part_size_unfold(wn, v as nat, dcur as int);
                if dcur == (self.w - 1) * v {
                    assert(false);
                }
            }
            val.sub_assign(self.size(v, dcur));
            dcur += 1;
        }
        (dcur, val)
    }
}

/// Entries past position i of a valid vertex stay below the base.
pub proof fn lemma_vertex_ok_skip_any(w: nat, a: Seq<u8>, i: int)
    requires
        vertex_ok(w, a),
        0 <= i <= a.len(),
    ensures
        vertex_ok(w, a.skip(i)),
{
    assert(forall|k: int| 0 <= k < a.skip(i).len() ==> a.skip(i)[k] == a[i + k]);
}

} // verus!

verus! {

// ---------------------------------------------------------------------------
// Row sums: the layers of [0, w-1]^v together hold exactly w^v vertices.
// ---------------------------------------------------------------------------

/// Sum over j < k of part_size_spec(w, v, d - j).
pub open spec fn part_sum_digits(w: nat, v: nat, d: int, k: nat) -> nat
    decreases k,
{
    if k == 0 {
        0
    } else {
        part_size_spec(w, v, d - (k - 1)) + part_sum_digits(w, v, d, (k - 1) as nat)
    }
}

pub proof fn lemma_part_sum_digits_unfold(w: nat, v: nat, d: int, k: nat)
    ensures
        part_sum_digits(w, v, d, k) == if k == 0 {
            0nat
        } else {
            (part_size_spec(w, v, d - (k - 1)) + part_sum_digits(w, v, d, (k - 1) as nat)) as nat
        },
{
}

/// Partial sums of layer sizes grow with the distance.
pub proof fn lemma_part_size_mono(w: nat, v: nat, d1: int, d2: int)
    requires
        d1 <= d2,
    ensures
        part_size_spec(w, v, d1) <= part_size_spec(w, v, d2),
    decreases d2 - d1,
{
    if d1 < d2 {
        lemma_part_size_mono(w, v, d1, d2 - 1);
        lemma_part_size_unfold(w, v, d2);
    }
}

/// Past the maximal distance the partial sums stop growing.
pub proof fn lemma_part_size_saturates(w: nat, v: nat, d: int)
    requires
        d >= (w - 1) * v,
    ensures
        part_size_spec(w, v, d) == part_size_spec(w, v, (w - 1) * v),
    decreases d - (w - 1) * v,
{
    if d > (w - 1) * v {
        lemma_part_size_saturates(w, v, d - 1);
        lemma_part_size_unfold(w, v, d);
        lemma_layer_size_zero_above(w, v, d);
    }
}

proof fn lemma_part_sum_digits_step(w: nat, v: nat, d: int, k: nat)
    ensures
        part_sum_digits(w, v, d, k) == part_sum_digits(w, v, d - 1, k) + layer_sum(w, v, d, k),
    decreases k,
{
    lemma_part_sum_digits_unfold(w, v, d, k);
    lemma_part_sum_digits_unfold(w, v, d - 1, k);
    lemma_layer_sum_unfold(w, v, d, k);
    if k > 0 {
        lemma_part_sum_digits_step(w, v, d, (k - 1) as nat);
        lemma_part_size_unfold(w, v, d - (k - 1));
        lemma_layer_size_unfold(w, v, d - (k - 1));
    }
}

proof fn lemma_part_sum_digits_neg(w: nat, v: nat, d: int, k: nat)
    requires
        d < 0,
    ensures
        part_sum_digits(w, v, d, k) == 0,
    decreases k,
{
    lemma_part_sum_digits_unfold(w, v, d, k);
    if k > 0 {
        lemma_part_sum_digits_neg(w, v, d, (k - 1) as nat);
        lemma_part_size_unfold(w, v, d - (k - 1));
    }
}

/// The partial-sum analogue of the first-digit recurrence.
proof fn lemma_part_size_recurrence(w: nat, v: nat, d: int)
    requires
        v >= 1,
    ensures
        part_size_spec(w, v, d) == part_sum_digits(w, (v - 1) as nat, d, w),
    decreases d + 1,
{
    lemma_part_size_unfold(w, v, d);
    if d < 0 {
        lemma_part_sum_digits_neg(w, (v - 1) as nat, d, w);
    } else {
        lemma_part_size_recurrence(w, v, d - 1);
        lemma_layer_size_unfold(w, v, d);
        lemma_part_sum_digits_step(w, (v - 1) as nat, d, w);
    }
}

/// When every digit reaches past the maximal distance of dimension v, the
/// digit sum is k equal saturated parts.
proof fn lemma_part_sum_digits_const(w: nat, v: nat, d: int, k: nat)
    requires
        d - (k - 1) >= (w - 1) * v || k == 0,
    ensures
        part_sum_digits(w, v, d, k) == k * part_size_spec(w, v, (w - 1) * v),
    decreases k,
{
    lemma_part_sum_digits_unfold(w, v, d, k);
    if k == 0 {
    } else {
        lemma_part_sum_digits_const(w, v, d, (k - 1) as nat);
        lemma_part_size_saturates(w, v, d - (k - 1));
        let c = part_size_spec(w, v, (w - 1) * v);
        assert(k * c == c + (k - 1) * c) by (nonlinear_arith);
    }
}

/// Row sums: the layer sizes of [0, w-1]^v add up to w^v.
pub proof fn lemma_row_sums(w: nat, v: nat)
    requires
        w >= 1,
    ensures
        part_size_spec(w, v, (w - 1) * v) == pow(w as int, v),
    decreases v,
{
    if v == 0 {
        lemma_part_size_unfold(w, 0, 0);
        lemma_part_size_unfold(w, 0, -1);
        lemma_layer_size_unfold(w, 0, 0);
        lemma_pow0(w as int);
    } else {
        lemma_row_sums(w, (v - 1) as nat);
        let d = (w - 1) * v;
        assert((w - 1) * v == (w - 1) * (v - 1) + (w - 1)) by (nonlinear_arith);
        lemma_part_size_recurrence(w, v, d);
        lemma_part_sum_digits_const(w, (v - 1) as nat, d, w);
        lemma_pow_adds(w as int, (v - 1) as nat, 1);
        lemma_pow1(w as int);
        assert(pow(w as int, v) == w * pow(w as int, (v - 1) as nat)) by (nonlinear_arith)
            requires
                pow(w as int, v) == pow(w as int, (v - 1) as nat) * pow(w as int, 1),
                pow(w as int, 1) == w,
        ;
        assert(w * part_size_spec(w, (v - 1) as nat, (w - 1) * (v - 1)) == w * pow(
            w as int,
            (v - 1) as nat,
        ));
    }
}

// ---------------------------------------------------------------------------
// Monotonicity of find_layer: a larger index never lands in a smaller layer.
// ---------------------------------------------------------------------------

/// The layer that holds a given global index, as find_layer characterizes it,
/// grows monotonically with the index: if x1 < x2 and layer d1 holds x1 at
/// offset r1 while layer d2 holds x2 at offset r2, then d1 <= d2.
pub proof fn lemma_find_layer_monotone(
    w: nat,
    v: nat,
    x1: nat,
    d1: int,
    r1: nat,
    x2: nat,
    d2: int,
    r2: nat,
)
    requires
        part_size_spec(w, v, d1 - 1) + r1 == x1,
        r1 < layer_size(w, v, d1),
        part_size_spec(w, v, d2 - 1) + r2 == x2,
        r2 < layer_size(w, v, d2),
        x1 < x2,
    ensures
        d1 <= d2,
{
    if d1 > d2 {
        lemma_part_size_unfold(w, v, d2);
        // x2 < part_size_spec(w, v, d2)
        lemma_part_size_mono(w, v, d2, d1 - 1);
        // part_size_spec(w, v, d2) <= part_size_spec(w, v, d1 - 1) <= x1
        assert(false);
    }
}

// ---------------------------------------------------------------------------
// The free entry points, each building a table sized to its call.
// ---------------------------------------------------------------------------

/// Map an integer x in [0, layer_size(v, d)) to a vertex in layer d of the
/// hypercube [0, w-1]^v.  The vector that is returned has length v.
pub fn map_to_vertex(w: usize, v: usize, d: usize, x: BigNat) -> (r: Vec<u8>)
    requires
        2 <= w <= 256,
        1 <= v <= 0x1_0000,
        d <= (w - 1) * v,
        x.wf(),
        x@ < layer_size(w as nat, v as nat, d as int),
    ensures
        r@.len() == v,
        vertex_ok(w as nat, r@),
        vertex_dist(w as nat, r@) == d,
        vertex_index(w as nat, r@) == x@,
{
    let sizes = LayerSizes::new(w, v);
    sizes.unrank(v, d, x)
}

/// Map a vertex `a` in layer `d` to its index x in [0, layer_size(v, d)).
pub fn map_to_integer(w: usize, v: usize, d: usize, a: &[u8]) -> (r: BigNat)
    requires
        2 <= w <= 256,
        1 <= v <= 0x1_0000,
        a@.len() == v,
        vertex_ok(w as nat, a@),
        vertex_dist(w as nat, a@) == d,
    ensures
        r@ == vertex_index(w as nat, a@),
        r@ < layer_size(w as nat, v as nat, d as int),
        r.wf(),
{
    let sizes = LayerSizes::new(w, v);
    sizes.rank(v, d, a)
}

/// Total size of layers 0 to d (inclusive) in hypercube [0, w-1]^v.
pub fn hypercube_part_size(w: usize, v: usize, d: usize) -> (r: BigNat)
    requires
        2 <= w <= 0x1_0000,
        1 <= v <= 0x1_0000,
        d <= (w - 1) * v,
    ensures
        r@ == part_size_spec(w as nat, v as nat, d as int),
        r.wf(),
{
    let sizes = LayerSizes::new(w, v);
    sizes.part_size(v, d)
}

/// Find the maximal d such that the total size of layers 0 to d-1 in
/// hypercube [0, w-1]^v is not bigger than x; return d and the rest of x.
pub fn hypercube_find_layer(w: usize, v: usize, x: BigNat) -> (r: (usize, BigNat))
    requires
        2 <= w <= 0x1_0000,
        1 <= v <= 0x1_0000,
        x.wf(),
        x@ < pow(w as int, v as nat),
    ensures
        r.0 <= (w - 1) * v,
        r.1@ < layer_size(w as nat, v as nat, r.0 as int),
        part_size_spec(w as nat, v as nat, r.0 - 1) + r.1@ == x@,
        r.1.wf(),
{
    proof {
        lemma_row_sums(w as nat, v as nat);
    }
    let sizes = LayerSizes::new(w, v);
    sizes.find_layer(v, x)
}

} // verus!
