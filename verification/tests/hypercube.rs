use hashsig::bignum::BigNat;
use hashsig::hypercube::{
    LayerSizes, hypercube_find_layer, hypercube_part_size, map_to_integer, map_to_vertex,
};
use num_bigint::{BigInt, BigUint};

const MAX_DIMENSION: usize = 100;

/// Reference implementation of computing all layer sizes by binomial
/// coefficients.
fn prepare_layer_sizes_by_binom(w: usize) -> Vec<Vec<BigUint>> {
    fn precompute_binoms(v: usize, w: usize) -> Vec<Vec<BigUint>> {
        let max_distance = (w - 1) * v;
        let size = max_distance + v;
        let mut binoms: Vec<Vec<BigUint>> = Vec::new();
        for n in 0..size {
            binoms.push(vec![BigUint::from(0u32); n + 1]);
            binoms[n][0] = BigUint::from(1u32);
            for k in 1..n {
                binoms[n][k] = &binoms[n - 1][k - 1] + &binoms[n - 1][k];
            }
            binoms[n][n] = BigUint::from(1u32);
        }
        binoms
    }

    fn binom(binoms: &[Vec<BigUint>], n: usize, k: usize) -> BigUint {
        if k > n {
            return BigUint::from(0u32);
        }
        binoms[n][k].clone()
    }

    /// Number of integer vectors of dimension `n`, entries in [0, m],
    /// summing to `k`.
    fn nb(binoms: &[Vec<BigUint>], k: usize, m: usize, n: usize) -> BigUint {
        let mut sum = BigInt::from(0);
        for s in 0..=k / (m + 1) {
            let part = binom(binoms, n, s) * binom(binoms, k - s * (m + 1) + n - 1, n - 1);
            let part = BigInt::from(part);
            if s % 2 == 0 {
                sum += part;
            } else {
                sum -= part;
            }
        }
        sum.to_biguint().expect("nb result negative")
    }

    let v_max = MAX_DIMENSION;
    let binoms = precompute_binoms(v_max, w);
    let mut all_layers = vec![vec![]; v_max + 1];
    for v in 1..=v_max {
        let max_distance = (w - 1) * v;
        all_layers[v] = vec![BigUint::from(0u16); max_distance + 1];
        for d in 0..=max_distance {
            all_layers[v][d] = nb(&binoms, d, w - 1, v);
        }
    }
    all_layers
}

fn bignat_matches(b: &BigNat, reference: &BigUint) -> bool {
    b.to_limbs() == reference.to_u32_digits()
}

fn bignat_from_biguint(x: &BigUint) -> BigNat {
    BigNat { limbs: x.to_u32_digits() }
}

#[test]
fn test_prepare_layer_sizes() {
    for w in 2..13 {
        let by_binom = prepare_layer_sizes_by_binom(w);
        let table = LayerSizes::new(w, MAX_DIMENSION);
        for v in 1..=MAX_DIMENSION {
            let max_distance = (w - 1) * v;
            for d in 0..=max_distance {
                assert!(
                    bignat_matches(table.size(v, d), &by_binom[v][d]),
                    "layer size mismatch at w={} v={} d={}",
                    w,
                    v,
                    d
                );
            }
        }
    }
}

#[test]
fn test_maps() {
    let w = 4;
    let v = 8;
    let d = 20;
    let max_x = LayerSizes::new(w, v).size(v, d).to_u64();
    for x_u64 in 0..max_x {
        let x = BigNat::from_u64(x_u64);
        let a = map_to_vertex(w, v, d, x);
        let layer: usize = a.iter().map(|&e| e as usize).sum();
        assert_eq!((w - 1) * v - layer, d);
        let y = map_to_integer(w, v, d, &a);
        assert_eq!(y, BigNat::from_u64(x_u64));
        let b = map_to_vertex(w, v, d, y);
        assert_eq!(a, b);
    }
}

#[test]
fn test_big_map() {
    let w = 12;
    let v = 40;
    let d = 174;
    let dec_string = b"21790506781852242898091207809690042074412";
    let x_ref = BigUint::parse_bytes(dec_string, 10).expect("Invalid input");
    let x = bignat_from_biguint(&x_ref);
    let a = map_to_vertex(w, v, d, x);
    let y = map_to_integer(w, v, d, &a);
    assert!(bignat_matches(&y, &x_ref));
    let b = map_to_vertex(w, v, d, y);
    assert_eq!(a, b);
}

#[test]
fn test_smallest_index_gives_smallest_vertex() {
    // w=4, v=8, d=20: index 0 picks the largest first coordinates the
    // distance allows, and ranking that vertex gives 0 back
    let a = map_to_vertex(4, 8, 20, BigNat::from_u64(0));
    assert_eq!(a, vec![3, 1, 0, 0, 0, 0, 0, 0]);
    let y = map_to_integer(4, 8, 20, &a);
    assert!(y.is_zero());
}

#[test]
fn test_single_vertex_layer() {
    // w=2, v=5, d=0: the unique vertex of layer 0 is all-ones
    let table = LayerSizes::new(2, 5);
    assert_eq!(table.size(5, 0).to_u64(), 1);
    let a = map_to_vertex(2, 5, 0, BigNat::from_u64(0));
    assert_eq!(a, vec![1, 1, 1, 1, 1]);
}

#[test]
fn test_small_layer_enumeration() {
    // w=3, v=4, d=2: ten distinct vertices, each at distance 2
    let table = LayerSizes::new(3, 4);
    assert_eq!(table.size(4, 2).to_u64(), 10);
    let mut seen: Vec<Vec<u8>> = Vec::new();
    for x in 0..10u64 {
        let a = map_to_vertex(3, 4, 2, BigNat::from_u64(x));
        let dist: usize = a.iter().map(|&e| 2 - e as usize).sum();
        assert_eq!(dist, 2);
        assert!(!seen.contains(&a));
        seen.push(a);
    }
}

#[test]
fn test_row_sums() {
    // the sizes of all layers of [0, w-1]^v add up to w^v
    for (w, v) in [(2usize, 10usize), (3, 7), (4, 8), (12, 5)] {
        let total = hypercube_part_size(w, v, (w - 1) * v);
        let reference = BigUint::from(w).pow(v as u32);
        assert!(bignat_matches(&total, &reference));
    }
}

#[test]
fn test_find_layer_monotone() {
    // ascending indices land in ascending layers
    let w = 4;
    let v = 8;
    let mut last_layer = 0usize;
    for x in 0..65536u64 {
        let (d, _) = hypercube_find_layer(w, v, BigNat::from_u64(x));
        assert!(d >= last_layer);
        last_layer = d;
    }
}

#[test]
fn test_rank_unrank_round_trip_random() {
    // ranking a random layer-d vertex and unranking reproduces it
    let mut state = 0x853c49e6748fea9bu64;
    let mut next = move || {
        state = state.wrapping_mul(6364136223846793005).wrapping_add(1442695040888963407);
        state >> 16
    };
    for (w, v, d) in [(2usize, 5usize, 2usize), (3, 8, 7), (4, 8, 20), (8, 6, 20)] {
        let table = LayerSizes::new(w, v);
        let layer_size = table.size(v, d).to_u64();
        for _ in 0..1000 {
            let x = next() % layer_size;
            let a = table.unrank(v, d, BigNat::from_u64(x));
            let y = table.rank(v, d, &a);
            assert_eq!(y.to_u64(), x);
            let b = table.unrank(v, d, y);
            assert_eq!(a, b);
        }
    }
}
