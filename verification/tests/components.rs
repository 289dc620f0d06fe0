use integral::engine::triples::{addr, n_addr, tri_below};
use integral::math::am::{cart_components, cart_index, n_cart};
use integral::scalar::Scalar;

#[derive(Clone, Copy, Debug, PartialEq)]
struct F(f64);

impl Scalar for F {
    fn count(n: u64) -> Self {
        F(n as f64)
    }
    fn sum(a: Self, b: Self) -> Self {
        F(a.0 + b.0)
    }
    fn diff(a: Self, b: Self) -> Self {
        F(a.0 - b.0)
    }
    fn prod(a: Self, b: Self) -> Self {
        F(a.0 * b.0)
    }
    fn quot(a: Self, b: Self) -> Self {
        F(a.0 / b.0)
    }
    fn neg(a: Self) -> Self {
        F(-a.0)
    }
    fn from_count(n: u64) -> Self {
        F(n as f64)
    }
    fn plus(self, o: Self) -> Self {
        F(self.0 + o.0)
    }
    fn minus(self, o: Self) -> Self {
        F(self.0 - o.0)
    }
    fn times(self, o: Self) -> Self {
        F(self.0 * o.0)
    }
    fn over(self, o: Self) -> Self {
        F(self.0 / o.0)
    }
    fn negated(self) -> Self {
        F(-self.0)
    }
}

#[test]
fn halves_are_exact_ratios() {
    assert_eq!(integral::scalar::ratio::<F>(1, 2), F(0.5));
    assert_eq!(integral::scalar::ratio::<F>(1, 10), F(0.1));
    assert_eq!(integral::scalar::ratio::<F>(1, 100_000_000_000_000_000), F(1e-17));
    assert_eq!(integral::scalar::ratio::<F>(5, 2), F(2.5));
}

#[test]
fn counts_match_formula() {
    assert_eq!(n_cart(0), 1);
    assert_eq!(n_cart(1), 3);
    assert_eq!(n_cart(2), 6);
    assert_eq!(n_cart(3), 10);
    assert_eq!(n_cart(4), 15);
}

#[test]
fn p_ordering_is_xyz() {
    assert_eq!(cart_components(1), vec![[1, 0, 0], [0, 1, 0], [0, 0, 1]]);
}

#[test]
fn d_ordering_is_canonical() {
    assert_eq!(
        cart_components(2),
        vec![
            [2, 0, 0],
            [1, 1, 0],
            [1, 0, 1],
            [0, 2, 0],
            [0, 1, 1],
            [0, 0, 2]
        ]
    );
}

#[test]
fn component_count_is_consistent() {
    for l in 0..=6 {
        let comps = cart_components(l);
        assert_eq!(comps.len(), n_cart(l));
        for c in comps {
            assert_eq!(c[0] + c[1] + c[2], l);
        }
    }
}

#[test]
fn cart_index_inverts_cart_components() {
    for l in 0..=6 {
        for (i, c) in cart_components(l).into_iter().enumerate() {
            assert_eq!(cart_index(c), i, "l={l} component {c:?}");
        }
    }
}

#[test]
fn cart_index_tracks_raise_and_lower() {
    assert_eq!(cart_index([1, 1, 0]), 1);
    let f = cart_components(3);
    assert_eq!(f[cart_index([2, 1, 0])], [2, 1, 0]);
    assert_eq!(cart_index([1, 0, 0]), 0);
}

#[test]
fn addr_is_bijective() {
    for lmax in 0..=6 {
        let mut seen = vec![false; n_addr(lmax)];
        for n in 0..=lmax {
            for t in cart_components(n) {
                let a = addr(t);
                assert!(a < n_addr(lmax), "addr {a} out of range for lmax {lmax}");
                assert!(!seen[a], "addr collision at {t:?}");
                seen[a] = true;
            }
        }
        assert!(
            seen.iter().all(|&x| x),
            "addr not surjective at lmax {lmax}"
        );
    }
}

#[test]
fn degrees_start_at_tri_below() {
    for d in 0..=6 {
        assert_eq!(addr(cart_components(d)[0]), tri_below(d));
        assert_eq!(n_addr(d), tri_below(d + 1));
    }
    assert_eq!(n_addr(6), 84);
}
