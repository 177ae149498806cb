use gsw::params::rgsw::{N, OMEGA, T};
use gsw::rgsw::crt::pow_mod;
use gsw::params::gsw as p;

#[test]
fn test_crt_params() {
    assert_eq!(pow_mod(OMEGA, 2 * N as i64, T), 1, "omega^2N must be 1 mod T");
    assert_ne!(pow_mod(OMEGA, N as i64, T), 1, "omega^N must not be 1 mod T");
}

#[test]
fn pow_mod_exact_values() {
    assert_eq!(pow_mod(2, 10, 1000), 24);
    assert_eq!(pow_mod(3, 0, 7), 1);
    assert_eq!(pow_mod(-2, 3, 7), 6);
    assert_eq!(pow_mod(OMEGA, 16, T), 96);
}

#[test]
fn parameter_values() {
    assert_eq!(p::N_COLS, (p::N_LWE + 1) * p::L);
    assert_eq!(p::Q, 1i64 << p::L);
    assert_eq!(gsw::params::rgsw::Q, 1i64 << gsw::params::rgsw::L);
}
