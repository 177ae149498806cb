use gsw::params::rgsw::{N, Q, T};
use gsw::rgsw::crt::pow_mod;
use gsw::rgsw::{decode_slots, encode_slots, g_inverse, Poly, PolyMatrix};

fn sample_poly(seed: i64) -> Poly {
    let mut p = Poly::zero();
    for k in 0..N {
        p.coefs[k] = (seed * (k as i64 + 3) * 7919 + k as i64 * 104729) % 1000 - 500;
    }
    p
}

/// The negacyclic product over the integers, without any reduction.
fn exact_product(p: &Poly, q: &Poly) -> Poly {
    let mut r = Poly::zero();
    for i in 0..N {
        for j in 0..N {
            let t = p.coefs[i] * q.coefs[j];
            if i + j < N {
                r.coefs[i + j] += t;
            } else {
                r.coefs[i + j - N] -= t;
            }
        }
    }
    r
}

#[test]
fn fermat_inverse_modulo_t() {
    for x in [1i64, 2, 16, 28, 50, 96, 98, -5, 1000] {
        let inv = pow_mod(x, T - 2, T);
        assert_eq!((inv * x.rem_euclid(T)) % T, 1, "x = {}", x);
    }
}

#[test]
fn fermat_inverse_modulo_other_primes() {
    for p in [2i64, 3, 13, 101, 65537] {
        for x in [1i64, 2, 5, 12, -7, 100000] {
            if x.rem_euclid(p) != 0 {
                let inv = pow_mod(x, p - 2, p);
                assert_eq!((inv * x.rem_euclid(p)) % p, 1, "p = {}, x = {}", p, x);
            }
        }
    }
}

#[test]
fn encode_after_decode_is_identity_modulo_t() {
    for seed in 1..5 {
        let p = sample_poly(seed);
        let back = encode_slots(&decode_slots(&p));
        for j in 0..N {
            assert_eq!(back.coefs[j].rem_euclid(T), p.coefs[j].rem_euclid(T));
        }
    }
}

#[test]
fn decoding_is_a_ring_homomorphism() {
    let p = sample_poly(2);
    let q = sample_poly(3);
    let r = exact_product(&p, &q);
    let mut s = Poly::zero();
    for k in 0..N {
        s.coefs[k] = p.coefs[k] + q.coefs[k];
    }
    let (dp, dq, dr, ds) = (decode_slots(&p), decode_slots(&q), decode_slots(&r), decode_slots(&s));
    for i in 0..N {
        assert_eq!((dr[i] - dp[i] * dq[i]).rem_euclid(T), 0);
        assert_eq!((ds[i] - dp[i] - dq[i]).rem_euclid(T), 0);
    }
}

#[test]
fn product_distributes_and_has_unit() {
    let p = sample_poly(4);
    let q = sample_poly(5);
    let r = sample_poly(6);
    assert_eq!(p.mul(&q.add(&r)).coefs, p.mul(&q).add(&p.mul(&r)).coefs);
    let one = p.mul(&Poly::from_scalar(1));
    for k in 0..N {
        assert_eq!(one.coefs[k], p.coefs[k].rem_euclid(Q));
    }
    assert_eq!(p.mul(&Poly::zero()).coefs, [0i64; N]);
}

#[test]
fn transposing_twice_gives_the_matrix_back() {
    let mut m = PolyMatrix::zeros(2, 3);
    for r in 0..2 {
        for c in 0..3 {
            *m.get_mut(r, c) = sample_poly((r * 3 + c) as i64 + 1);
        }
    }
    let t = m.transpose();
    assert_eq!((t.rows, t.cols), (3, 2));
    assert_eq!(t.get(2, 1).coefs, m.get(1, 2).coefs);
    let tt = t.transpose();
    assert_eq!((tt.rows, tt.cols), (2, 3));
    for i in 0..6 {
        assert_eq!(tt.data[i].coefs, m.data[i].coefs);
    }
}

#[test]
fn gadget_recomposes_any_coefficients() {
    use_gadget();
}

fn use_gadget() {
    let l = gsw::params::rgsw::L;
    let mut c = PolyMatrix::zeros(2, 2 * l);
    for r in 0..2 {
        for col in 0..2 * l {
            *c.get_mut(r, col) = sample_poly((r * 70 + col) as i64 + 7);
        }
    }
    c.get_mut(1, 3).coefs[5] = -123456789;
    let z = g_inverse(&c);
    for r in 0..2 {
        for col in 0..2 * l {
            for d in 0..N {
                let mut acc: i64 = 0;
                for b in 0..l {
                    let bit = z.get(r * l + b, col).coefs[d];
                    assert!(bit == 0 || bit == 1);
                    acc += bit << b;
                }
                assert_eq!(acc, c.get(r, col).coefs[d].rem_euclid(Q));
            }
        }
    }
}
