use chomp::modexp::modexp;
use chomp::rsa::{decrypt, encrypt, gcd, good_key_pair, lcm, modinverse, EXP};

#[test]
fn test_modexp() {
    // Largest prime less than 2**64.
    let bigm = u64::max_value() - 58;
    assert_eq!(0, modexp(bigm - 2, bigm - 1, 1));
    assert_eq!(1, modexp(bigm - 2, bigm - 1, bigm));
    assert_eq!(827419628471527655, modexp(bigm - 2, (1 << 32) + 1, bigm));
    assert_eq!(4, modexp(10, 9, 6));
    assert_eq!(34, modexp(450, 768, 517));
}

#[test]
fn test_encrypt() {
    let pub_key: u64 = 0xde9c5816141c8ba9;
    let msg: u32 = 0x12345f;
    let encrypted_message: u64 = 0x6418280e0c4d7675;
    assert_eq!(encrypted_message, encrypt(pub_key, msg));
}

#[test]
fn test_decrypt() {
    let private_key: (u32, u32) = (0xed23e6cd, 0xf050a04d);
    let encrypted_message: u64 = 0x6418280e0c4d7675;
    let decrypted_message: u32 = 0x12345f;
    assert_eq!(decrypted_message, decrypt(private_key, encrypted_message));
}

#[test]
fn modexp_small_cases() {
    assert_eq!(modexp(2, 10, 1000), 24);
    assert_eq!(modexp(7, 0, 13), 1);
    assert_eq!(modexp(0, 5, 13), 0);
    assert_eq!(modexp(5, 1, 13), 5);
}

#[test]
fn gcd_and_lcm_values() {
    assert_eq!(gcd(12, 8), 4);
    assert_eq!(gcd(8, 12), 4);
    assert_eq!(gcd(7, 0), 7);
    assert_eq!(gcd(0, 7), 7);
    assert_eq!(gcd(65537, 65537), 65537);
    assert_eq!(lcm(4, 6), 12);
    assert_eq!(lcm(1, 9), 9);
    assert_eq!(lcm(65537, 2), 131074);
}

#[test]
fn modinverse_inverts() {
    assert_eq!(modinverse(3, 7), 5);
    assert_eq!(modinverse(65537, 3120), 2753);
    let m: u64 = 3120;
    let d = modinverse(17, m);
    assert!(d < m);
    assert_eq!(d as u128 * 17 % m as u128, 1);
}

#[test]
fn round_trip_under_the_test_key() {
    let key: (u32, u32) = (0xed23e6cd, 0xf050a04d);
    let n = (key.0 as u64) * (key.1 as u64);
    for msg in [1u32, 2, 0xbeef, 0x12345f] {
        let cipher = encrypt(n, msg);
        assert_eq!(decrypt(key, cipher), msg);
    }
}

#[test]
fn good_key_pair_decides_the_exponent_conditions() {
    // lcm of two large primes is far above EXP and coprime to it.
    assert!(good_key_pair(0xed23e6cd, 0xf050a04d));
    // Tiny pair: lcm(2, 3) = 6 is below EXP.
    assert!(!good_key_pair(2, 3));
    // lcm(65537, 1) == EXP exactly, so `EXP < lcm` fails.
    assert!(!good_key_pair(65537, 1));
    assert_eq!(EXP, 65537);
}
