use gsw::bootstrapping::{
    acc_multiply_by_x_power, blind_rotate, bootstrap, generate_bootstrapping_key,
    multiply_by_x_power, sample_extract,
};
use gsw::params::rgsw::{L, N, Q};
use gsw::rgsw::{decrypt_poly, encrypt_poly, keygen, Poly, PolyMatrix, RgswPolyCiphertext};
use rand::thread_rng;
use rand::Rng;

#[test]
fn test_blind_rotation() {
    let mut rng = thread_rng();
    let (v_rgsw, a_rgsw) = keygen(&mut rng);
    let lwe_sk = vec![1, 0, 1, 0];
    let bk = generate_bootstrapping_key(&a_rgsw, &lwe_sk, &mut rng);
    let a = vec![2, 5, 3, 1];
    let b = 7;

    let mut test_poly = Poly::zero();
    test_poly.coefs[0] = 1;

    let acc_init = encrypt_poly(&a_rgsw, &test_poly, &mut rng);
    let acc_final = blind_rotate(&acc_init, &bk, &a, b);
    let decrypted_poly = decrypt_poly(&v_rgsw, &acc_final);

    for i in 0..N {
        if i == 2 {
            assert_eq!(decrypted_poly.coefs[i], 1);
        } else {
            assert_eq!(decrypted_poly.coefs[i], 0);
        }
    }
}

#[test]
fn test_full_bootstrap_cycle() {
    let mut rng = thread_rng();
    let (_v_rgsw, a_rgsw) = keygen(&mut rng);
    let mut lwe_sk = vec![0; N];
    let mut a = vec![0; N];
    for i in 0..N {
        lwe_sk[i] = (i % 2) as i64;
        a[i] = (i as i64 * 12345) % Q;
    }
    let b = 9876543 % Q;
    let bk = generate_bootstrapping_key(&a_rgsw, &lwe_sk, &mut rng);

    let mut test_poly = Poly::zero();
    test_poly.coefs[0] = Q / 8;
    let acc_init = encrypt_poly(&a_rgsw, &test_poly, &mut rng);
    let (extracted_a, _) = bootstrap(&acc_init, &bk, &a, b);
    assert_eq!(extracted_a.len(), N);
}

#[test]
fn test_integration_lwe_bootstrap() {
    let mut rng = thread_rng();
    let (v_rgsw, a_rgsw) = keygen(&mut rng);
    let mut lwe_sk = vec![0; N];
    for i in 0..4 {
        lwe_sk[i] = rng.gen_range(0..=1);
    }
    let bk = generate_bootstrapping_key(&a_rgsw, &lwe_sk, &mut rng);
    let q_4 = Q / 4;

    let mut test_poly = Poly::zero();
    for i in 0..N {
        if i < N / 4 || i > 3 * N / 4 {
            test_poly.coefs[i] = 0;
        } else {
            test_poly.coefs[i] = (Q - q_4).rem_euclid(Q);
        }
    }
    let acc_init = encrypt_poly(&a_rgsw, &test_poly, &mut rng);

    for &m in &[0, 1] {
        let mut a = vec![0; N];
        let mut dot = 0i64;
        for i in 0..N {
            a[i] = rng.gen_range(0..Q);
            dot = ((dot as i128 + (a[i] as i128 * lwe_sk[i] as i128)) % Q as i128) as i64;
        }
        let b = (dot + rng.gen_range(-50..=50) + m * q_4).rem_euclid(Q);
        let mut a_scaled = vec![0; N];
        for i in 0..N {
            a_scaled[i] = ((a[i] as f64 * (2.0 * N as f64) / (Q as f64)).round() as i64)
                .rem_euclid(2 * N as i64);
        }
        let b_scaled =
            ((b as f64 * (2.0 * N as f64) / (Q as f64)).round() as i64).rem_euclid(2 * N as i64);

        let (ext_a, ext_b) = bootstrap(&acc_init, &bk, &a_scaled, b_scaled);
        let v0 = &v_rgsw.get(0, 0).coefs;
        let mut ext_sk = vec![0; N];
        ext_sk[0] = (-v0[0]).rem_euclid(Q);
        for i in 1..N {
            ext_sk[i] = v0[N - i].rem_euclid(Q);
        }
        let mut ext_dot = 0i64;
        for i in 0..N {
            ext_dot = ((ext_dot as i128 + (ext_a[i] as i128 * ext_sk[i] as i128)) % Q as i128) as i64;
        }

        let phase = (ext_b - ext_dot).rem_euclid(Q);
        assert_eq!(
            if std::cmp::min(phase, Q - phase) < (phase - q_4).abs() { 0 } else { 1 },
            m
        );
    }
}

fn monomial(k: usize, c: i64) -> Poly {
    let mut p = Poly::zero();
    p.coefs[k] = c;
    p
}

#[test]
fn multiply_by_x_power_shifts_and_negates() {
    let p = monomial(3, 5);
    let r = multiply_by_x_power(&p, 2);
    assert_eq!(r, monomial(5, 5));
    // X^15 * X^2 = X^17 = -X
    let r = multiply_by_x_power(&monomial(15, 5), 2);
    assert_eq!(r, monomial(1, Q - 5));
    // X^a with a negative: X^3 * X^-4 = X^-1 = -X^15
    let r = multiply_by_x_power(&monomial(3, 1), -4);
    assert_eq!(r, monomial(15, Q - 1));
    // X^(2N) is the identity; X^N negates.
    assert_eq!(multiply_by_x_power(&monomial(7, 9), 2 * N as i64), monomial(7, 9));
    assert_eq!(multiply_by_x_power(&monomial(7, 9), N as i64), monomial(7, Q - 9));
}

#[test]
fn rotations_compose_on_concrete_values() {
    let mut p = Poly::zero();
    for i in 0..N {
        p.coefs[i] = (i as i64 * 7919 + 3) % Q;
    }
    for &(a, b) in &[(3i64, 5i64), (-7, 20), (31, 31), (-40, 9)] {
        let two_steps = multiply_by_x_power(&multiply_by_x_power(&p, a), b);
        let one_step = multiply_by_x_power(&p, a + b);
        assert_eq!(two_steps, one_step);
    }
}

#[test]
fn acc_multiply_rotates_every_entry() {
    let mut m = PolyMatrix::zeros(2, 2);
    *m.get_mut(0, 0) = monomial(0, 1);
    *m.get_mut(0, 1) = monomial(1, 2);
    *m.get_mut(1, 0) = monomial(14, 3);
    *m.get_mut(1, 1) = monomial(15, 4);
    let r = acc_multiply_by_x_power(&m, 1);
    assert_eq!(*r.get(0, 0), monomial(1, 1));
    assert_eq!(*r.get(0, 1), monomial(2, 2));
    assert_eq!(*r.get(1, 0), monomial(15, 3));
    assert_eq!(*r.get(1, 1), monomial(0, Q - 4));
}

#[test]
fn sample_extract_reads_column_l() {
    let mut m = PolyMatrix::zeros(2, 2 * L);
    let mut top = Poly::zero();
    for i in 0..N {
        top.coefs[i] = i as i64 + 100;
    }
    *m.get_mut(0, L) = top;
    *m.get_mut(1, L) = monomial(0, 4242);
    *m.get_mut(1, L - 1) = monomial(0, 1);
    let (a, b) = sample_extract(&RgswPolyCiphertext(m));
    assert_eq!(a, (0..N).map(|i| i as i64 + 100).collect::<Vec<i64>>());
    assert_eq!(b, 4242);
}

#[test]
fn blind_rotate_skips_zero_coefficients() {
    let mut rng = thread_rng();
    let (v_rgsw, a_rgsw) = keygen(&mut rng);
    let bk = generate_bootstrapping_key(&a_rgsw, &[1, 1], &mut rng);
    let acc_init = encrypt_poly(&a_rgsw, &monomial(0, 1), &mut rng);
    // Every a_i is zero: only the rotation by X^b happens.
    let acc = blind_rotate(&acc_init, &bk, &[0, 0], 5);
    assert_eq!(decrypt_poly(&v_rgsw, &acc), monomial(5, 1));
}

#[test]
fn blind_rotation_wraps_with_a_sign() {
    let mut rng = thread_rng();
    let (v_rgsw, a_rgsw) = keygen(&mut rng);
    let lwe_sk = vec![1, 1, 0];
    let bk = generate_bootstrapping_key(&a_rgsw, &lwe_sk, &mut rng);
    // b - sum a_i s_i = 30 - (3 + 7) = 20 = N + 4: X^20 = -X^4.
    let acc_init = encrypt_poly(&a_rgsw, &monomial(0, 1), &mut rng);
    let acc = blind_rotate(&acc_init, &bk, &[3, 7, 11], 30);
    // -1 is Q - 1, an odd residue, so the packed-bit decryption reads 1 at X^4.
    assert_eq!(decrypt_poly(&v_rgsw, &acc), monomial(4, 1));
}
