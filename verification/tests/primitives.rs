use chain_engine::hexadecimal::{from_hex, to_hex};
use chain_engine::address::Address;
use chain_engine::bigint::BigNat;
use chain_engine::block::{BlockBody, BlockHeader};
use chain_engine::bytes::{bytes_equal, bytes_less};
use chain_engine::hash::{Argon2dHash, Blake2bHash};
use chain_engine::merkle::compute_root_from_hashes;
use chain_engine::pbkdf2::{compute_hmac_sha512, compute_pbkdf2_sha512, Pbkdf2Error};
use chain_engine::retarget::{compute_next_compact, compute_next_target};
use chain_engine::target::{Difficulty, Target, TargetCompact, DIFFICULTY_SCALE};

fn unhex(text: &str) -> Vec<u8> {
    hex::decode(text).unwrap()
}

#[test]
fn blake2b_of_nothing() {
    assert_eq!(
        Blake2bHash::digest(&[]).bytes.to_vec(),
        unhex("0e5751c026e543b2e8ab2eb06099daa1d1e5df47778f7787faab45cdf12fe3a8")
    );
}

#[test]
fn blake2b_of_abc() {
    assert_eq!(
        Blake2bHash::digest(b"abc").bytes.to_vec(),
        unhex("bddd813c634239723171ef3fee98579b94964e3bb1cb3e427262c8c068d52319")
    );
}

#[test]
fn argon2d_depends_on_its_input() {
    let a = Argon2dHash::digest(b"first");
    let b = Argon2dHash::digest(b"second");
    assert_ne!(a, b);
    assert_eq!(a, Argon2dHash::digest(b"first"));
    assert_ne!(a.bytes.to_vec(), b"first".to_vec());
}

#[test]
fn hmac_sha512_of_a_known_message() {
    assert_eq!(
        compute_hmac_sha512(b"key", b"The quick brown fox jumps over the lazy dog").to_vec(),
        unhex(
            "b42af09057bac1e2d41708e48a902e09b5ff7f12ab428a4fe86653c73dd248fb\
             82f948a549f7b791a5b41915ee4d1ec3935357e4e2317250d0372afa2ebeeb3a"
        )
    );
}

#[test]
fn pbkdf2_with_one_iteration() {
    assert_eq!(
        compute_pbkdf2_sha512(b"password", b"salt", 1, 64).unwrap(),
        unhex(
            "867f70cf1ade02cff3752599a3a53dc4af34c7a669815ae5d513554e1c8cf252\
             c02d470a285a0501bad999bfe943c08f050235d7d68b1da55e63f73b60a57fce"
        )
    );
}

#[test]
fn pbkdf2_with_two_iterations() {
    assert_eq!(
        compute_pbkdf2_sha512(b"password", b"salt", 2, 64).unwrap(),
        unhex(
            "e1d9c16aa681708a45f5c7c4e215ceb66e011a2e9f0040713f18aefdb866d53c\
             f76cab2868a39b9f7840edce4fef5a82be67335c77a6068e04112754f27ccf4e"
        )
    );
}

#[test]
fn pbkdf2_cuts_the_last_block() {
    let long = compute_pbkdf2_sha512(b"password", b"salt", 2, 128).unwrap();
    let short = compute_pbkdf2_sha512(b"password", b"salt", 2, 70).unwrap();
    assert_eq!(long.len(), 128);
    assert_eq!(short.len(), 70);
    assert_eq!(short[..], long[..70]);
    assert_ne!(long[..64], long[64..]);
    assert_eq!(compute_pbkdf2_sha512(b"password", b"salt", 2, 0).unwrap(), Vec::<u8>::new());
}

#[test]
fn pbkdf2_refuses_a_key_that_is_too_long() {
    if usize::MAX as u128 > 0xFFFF_FFFFu128 * 64 {
        assert_eq!(
            compute_pbkdf2_sha512(b"password", b"salt", 1, (0xFFFF_FFFFu128 * 64 + 1) as usize),
            Err(Pbkdf2Error::KeyTooLong)
        );
    }
}

#[test]
fn bytes_compare() {
    assert!(bytes_equal(&[1, 2, 3], &[1, 2, 3]));
    assert!(!bytes_equal(&[1, 2, 3], &[1, 2]));
    assert!(bytes_less(&[1, 2], &[1, 2, 3]));
    assert!(bytes_less(&[1, 2, 3], &[1, 3]));
    assert!(!bytes_less(&[1, 3], &[1, 2, 3]));
    assert!(!bytes_less(&[1, 2], &[1, 2]));
}

#[test]
fn big_numbers_calculate() {
    let a = BigNat::from_u64(u64::MAX);
    let b = BigNat::from_u64(2);
    let product = a.times(&b);
    assert_eq!(product.digits, vec![1, 0xff, 0xff, 0xff, 0xff, 0xff, 0xff, 0xff, 0xfe]);
    assert_eq!(product.plus(&b).digits, vec![2, 0, 0, 0, 0, 0, 0, 0, 0]);
    assert_eq!(product.minus(&a).digits, a.plus(&BigNat::zero()).digits);
    assert_eq!(product.divided_by(&b).digits, a.plus(&BigNat::zero()).digits);
    assert_eq!(BigNat::from_u64(7).divided_by(&b).digits, vec![3]);
    assert!(b.less_than(&a));
    assert!(!a.less_than(&a));
    assert!(BigNat::zero().is_zero());
    assert!(!b.is_zero());
    assert!(b.checked_minus(&a).is_none());
    assert_eq!(a.checked_minus(&b).unwrap().digits, vec![0xff, 0xff, 0xff, 0xff, 0xff, 0xff, 0xff, 0xfd]);
}

#[test]
fn the_easiest_target() {
    let max = Target::max();
    let mut bytes = [0u8; 32];
    bytes[1] = 1;
    assert_eq!(max.bytes, bytes);
    assert_eq!(max.to_compact(), TargetCompact(0x1f01_0000));
    assert_eq!(Target::from_compact(TargetCompact(0x1f01_0000)), max);
    assert_eq!(max.get_depth(), 0);
    // A difficulty of one is one scale of parts.
    assert_eq!(DIFFICULTY_SCALE, 1 << 32);
    assert_eq!(Difficulty::from_target(&max).value.digits, vec![1, 0, 0, 0, 0]);
    assert!(TargetCompact(0x1f01_0000).is_valid());
    assert!(!TargetCompact(0x1f01_0001).is_valid());
    assert!(!TargetCompact(0x2100_0001).fits());
    assert!(!TargetCompact(0).is_valid());
}

#[test]
fn compact_targets_expand() {
    let target = Target::from_compact(TargetCompact(0x1e12_3456));
    let mut bytes = [0u8; 32];
    bytes[2] = 0x12;
    bytes[3] = 0x34;
    bytes[4] = 0x56;
    assert_eq!(target.bytes, bytes);
    assert_eq!(target.to_compact(), TargetCompact(0x1e12_3456));
    let mut high = [0u8; 32];
    high[5] = 0x80;
    high[6] = 0x01;
    high[7] = 0x02;
    high[8] = 0x03;
    assert_eq!(Target { bytes: high }.to_compact(), TargetCompact(0x1c00_8001));
    let mut small = [0u8; 32];
    small[31] = 5;
    assert_eq!(Target { bytes: small }.to_compact(), TargetCompact(0x0100_0005));
    assert_eq!(Target::from_compact(TargetCompact(0x0100_0005)).bytes, small);
}

#[test]
fn depth_and_difficulty_of_targets() {
    let mut half = [0u8; 32];
    half[2] = 0x80;
    assert_eq!(Target { bytes: half }.get_depth(), 1);
    let mut more = [0u8; 32];
    more[2] = 0x81;
    assert_eq!(Target { bytes: more }.get_depth(), 0);
    let mut deep = [0u8; 32];
    deep[31] = 1;
    assert_eq!(Target { bytes: deep }.get_depth(), 240);
    assert_eq!(Target { bytes: [0u8; 32] }.get_depth(), 240);
    assert_eq!(Difficulty::from_target(&Target { bytes: half }).value.digits, vec![2, 0, 0, 0, 0]);
    // Three quarters of the easiest target: a difficulty of one and a third.
    let mut three_quarters = [0u8; 32];
    three_quarters[2] = 0xc0;
    assert_eq!(
        Difficulty::from_target(&Target { bytes: three_quarters }).value.digits,
        vec![1, 0x55, 0x55, 0x55, 0x55]
    );
    assert!(Difficulty::from_target(&Target { bytes: three_quarters })
        .greater_than(&Difficulty::from_target(&Target::max())));
    let mut digits = vec![1u8];
    digits.extend(vec![0u8; 34]);
    assert_eq!(Difficulty::from_target(&Target { bytes: deep }).value.digits, digits);
    assert!(Difficulty::from_target(&Target { bytes: half })
        .greater_than(&Difficulty::from_target(&Target::max())));
}

#[test]
fn a_proof_of_work_meets_a_target() {
    let target = Target::from_compact(TargetCompact(0x1f01_0000));
    let mut low = [0u8; 32];
    low[2] = 0xff;
    assert!(target.is_met_by(&Argon2dHash { bytes: low }));
    assert!(target.is_met_by(&Argon2dHash { bytes: target.bytes }));
    let mut above = [0u8; 32];
    above[1] = 1;
    above[31] = 1;
    assert!(!target.is_met_by(&Argon2dHash { bytes: above }));
}

#[test]
fn the_next_target_follows_time_and_difficulty() {
    let parts = |difficulty: u64| BigNat::from_u64(difficulty * DIFFICULTY_SCALE);
    let window = parts(120);
    // On time: the target stays.
    assert_eq!(compute_next_compact(&window, 7200), TargetCompact(0x1f01_0000));
    // Twice as hard: half the target.
    assert_eq!(compute_next_compact(&parts(240), 7200), TargetCompact(0x1f00_8000));
    // Harder by a third: three quarters of the target.
    assert_eq!(compute_next_compact(&parts(160), 7200), TargetCompact(0x1f00_c000));
    // Twice as hard, but the blocks took twice as long: the target stays.
    assert_eq!(compute_next_compact(&parts(240), 14400), TargetCompact(0x1f01_0000));
    // The time counts no more than twice.
    assert_eq!(compute_next_compact(&parts(480), 100_000), TargetCompact(0x1f00_8000));
    // The time counts no less than half.
    assert_eq!(compute_next_compact(&parts(240), 0), TargetCompact(0x1e40_0000));
    // No difficulty: the easiest target.
    assert_eq!(compute_next_compact(&BigNat::zero(), 7200), TargetCompact(0x1f01_0000));
    assert_eq!(compute_next_target(&window, 7200), Target::max());
}

#[test]
fn merkle_roots() {
    let a = Blake2bHash::digest(b"a");
    let b = Blake2bHash::digest(b"b");
    let c = Blake2bHash::digest(b"c");
    let pair = |x: &Blake2bHash, y: &Blake2bHash| {
        let mut both = x.bytes.to_vec();
        both.extend_from_slice(&y.bytes);
        Blake2bHash::digest(&both)
    };
    assert_eq!(compute_root_from_hashes(&vec![]), Blake2bHash::digest(&[]));
    assert_eq!(compute_root_from_hashes(&vec![a]), a);
    assert_eq!(compute_root_from_hashes(&vec![a, b]), pair(&a, &b));
    assert_eq!(compute_root_from_hashes(&vec![a, b, c]), pair(&pair(&a, &b), &c));
}

#[test]
fn addresses_of_hashes_and_keys() {
    let hash = Blake2bHash::digest(b"key");
    let address = Address::from_hash(&hash);
    assert_eq!(address.0[..], hash.bytes[..20]);
    assert_eq!(Address::from_public_key(b"key"), address);
    assert!(address.same(&Address::from_slice(&hash.bytes[..20])));
    assert_eq!(Address::len(), 20);
}

#[test]
fn bytes_as_hexadecimal_text() {
    assert_eq!(to_hex(&[0x00, 0x1f, 0xa0, 0xff]), "001fa0ff");
    assert_eq!(from_hex("001fA0ff"), Some(vec![0x00, 0x1f, 0xa0, 0xff]));
    assert_eq!(from_hex("001"), None);
    assert_eq!(from_hex("0g"), None);
    assert_eq!(from_hex(""), Some(Vec::new()));
    let address = Address::from_hex("e9910f2452419823dc2e5534633210074ae9527f").unwrap();
    assert_eq!(address.to_hex(), "e9910f2452419823dc2e5534633210074ae9527f");
    assert_eq!(address.0[0], 0xe9);
    assert!(Address::from_hex("e9910f").is_none());
    assert_eq!(
        Blake2bHash::digest(&[]).to_hex(),
        "0e5751c026e543b2e8ab2eb06099daa1d1e5df47778f7787faab45cdf12fe3a8"
    );
}

#[test]
fn headers_and_bodies_by_default() {
    let header = BlockHeader::default();
    assert_eq!(header.version, 0);
    assert_eq!(header.prev_hash, Blake2bHash::zero());
    assert_eq!(header.interlink_hash, Blake2bHash::zero());
    assert_eq!(header.body_hash, Blake2bHash::zero());
    assert_eq!(header.accounts_hash, Blake2bHash::zero());
    assert_eq!(header.n_bits, TargetCompact(0));
    assert_eq!((header.height, header.timestamp, header.nonce), (0, 0, 0));
    let body = BlockBody::default();
    assert_eq!(body.miner, Address([0u8; 20]));
    assert!(body.extra_data.is_empty());
    assert!(body.transactions.is_empty());
    assert!(body.pruned_accounts.is_empty());
}

#[test]
fn a_derived_key_has_the_length_asked_for() {
    for length in [0usize, 1, 63, 64, 65, 130] {
        let key = compute_pbkdf2_sha512(b"password", b"salt", 1, length).unwrap();
        assert_eq!(key.len(), length);
    }
}
