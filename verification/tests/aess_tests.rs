use aess_crypto::aess_core::{inverse_factors, AeSSCipherCore, KeyScheme, MAX_VECTOR_ELEMENTS};
use aess_crypto::gf128::{gf128_invert, gf128_mul, gf128_pow};

fn identity(t: usize) -> Vec<Vec<u128>> {
    (0..t)
        .map(|i| (0..t).map(|j| if i == j { 1 } else { 0 }).collect())
        .collect()
}

fn scheme(m: Vec<Vec<u128>>, minv: Vec<Vec<u128>>, beta: Vec<u128>, inv_beta: Vec<u128>) -> KeyScheme {
    KeyScheme {
        key: [1, 2],
        iv: 3,
        vender_matrix: m,
        principal_dec_matrice: minv,
        secondary_dec_matrice: Vec::new(),
        alpha: 5,
        beta: 7,
        beta_vector: beta,
        inv_beta_vector: inv_beta,
    }
}

#[test]
fn gf128_mul_known_values() {
    assert_eq!(
        gf128_mul(0x0123456789abcdef0fedcba987654321, 0x1111222233334444aaaabbbbccccdddd),
        0x3fe952e660f141b52a9e76aac608d38a
    );
    assert_eq!(gf128_mul(1u128 << 127, 2), 0x87);
    assert_eq!(gf128_mul(0x0123456789abcdef0fedcba987654321, 1), 0x0123456789abcdef0fedcba987654321);
    assert_eq!(gf128_mul(0, 0xffff), 0);
}

#[test]
fn new_lays_out_blocks_with_padding() {
    let data: Vec<u8> = (0..20).collect();
    let core = AeSSCipherCore::new(&data, 0, true, 4, scheme(identity(4), identity(4), vec![1; 4], vec![1; 4]));
    assert_eq!(core.internal.len(), 2);
    assert_eq!(core.internal[0], u128::from_le_bytes(data[0..16].try_into().unwrap()));
    let mut pad = [12u8; 16];
    pad[..4].copy_from_slice(&data[16..20]);
    assert_eq!(core.internal[1], u128::from_le_bytes(pad));
    assert_eq!(core.active_level.start, 0);
    assert_eq!(core.active_level.end, 1);
    assert_eq!(core.active_level.blocks_count, 2);
    assert_eq!(core.active_level.threshold, 4);
    assert_eq!(core.active_level.max_part_size, 4);
    assert_eq!(core.active_level.last_part_size, 2);
    assert_eq!(core.vectors_count(), 4);
    assert!(core.authenticate);
}

#[test]
fn new_full_padding_block_when_length_is_multiple_of_16() {
    let data = vec![9u8; 32];
    let core = AeSSCipherCore::new(&data, 0, true, 3, scheme(identity(3), identity(3), vec![1; 3], vec![1; 3]));
    assert_eq!(core.internal.len(), 3);
    assert_eq!(core.internal[2], u128::from_le_bytes([16u8; 16]));
    assert_eq!(core.active_level.last_part_size, 0);
}

#[test]
fn new_without_padding_drops_trailing_bytes() {
    let data: Vec<u8> = (0..40).collect();
    let core = AeSSCipherCore::new(&data, 0, false, 2, scheme(identity(2), identity(2), vec![1; 2], vec![1; 2]));
    assert_eq!(core.internal.len(), 2);
    assert_eq!(core.get_bytes_out(), data[..32].to_vec());
}

#[test]
fn new_reads_only_in_length_bytes() {
    let data: Vec<u8> = (0..100).collect();
    let core = AeSSCipherCore::new(&data, 17, true, 2, scheme(identity(2), identity(2), vec![1; 2], vec![1; 2]));
    let mut expected: Vec<u8> = data[..17].to_vec();
    expected.extend(std::iter::repeat(15u8).take(15));
    assert_eq!(core.get_bytes_out(), expected);
    assert_eq!(core.encrypted_bytes(), expected);
}

#[test]
fn bytes_out_gives_data_then_padding() {
    let data: Vec<u8> = (0..150).map(|i| (i * 3) as u8).collect();
    let core = AeSSCipherCore::new(&data, 0, true, 4, scheme(identity(4), identity(4), vec![1; 4], vec![1; 4]));
    let out = core.get_bytes_out();
    assert_eq!(out.len(), 160);
    assert_eq!(&out[..150], &data[..]);
    assert!(out[150..].iter().all(|&b| b == 10));
}

#[test]
fn get_set_and_blocks() {
    let data: Vec<u8> = (0..48).collect();
    let mut core = AeSSCipherCore::new(&data, 0, false, 2, scheme(identity(2), identity(2), vec![1; 2], vec![1; 2]));
    core.set_block(1, &42);
    assert_eq!(core.get_block(1), 42);
    assert_eq!(core.blocks(), vec![core.internal[0], 42, core.internal[2]]);
}

#[test]
fn set_key_scheme_replaces_key_material() {
    let data = vec![0u8; 16];
    let mut core = AeSSCipherCore::new(&data, 0, false, 2, scheme(identity(2), identity(2), vec![1; 2], vec![1; 2]));
    core.set_key_scheme(scheme(identity(2), identity(2), vec![4; 2], vec![9; 2]));
    assert_eq!(core.key_materials.beta_vector, vec![4, 4]);
    assert_eq!(core.key_materials.inv_beta_vector, vec![9, 9]);
}

#[test]
fn encode_and_decode_vector_known_values() {
    let mut core = AeSSCipherCore::new(&[0u8; 64], 0, false, 2, scheme(
        vec![vec![1, 2], vec![3, 4]],
        vec![vec![5, 6], vec![7, 8]],
        vec![2, 9],
        vec![10, 12],
    ));
    core.internal = vec![5, 7, 11, 13];
    let beta = core.key_materials.beta_vector.clone();
    let tag = core.encode_vector(1, &3, &beta);
    assert_eq!(core.internal, vec![5, 155, 315, 13]);
    assert_eq!(tag, 416);
    let inv_beta = core.key_materials.inv_beta_vector.clone();
    let dtag = core.decode_vector(1, &3, &inv_beta);
    assert_eq!(core.internal, vec![5, 11155, 30819, 13]);
    assert_eq!(dtag, tag);
}

#[test]
fn decode_undoes_encode_with_inverse_key_material() {
    // x * 0x2 and x * inverse(0x2) with the identity matrix
    let two_inv: u128 = (1u128 << 127) ^ 0x43;
    assert_eq!(gf128_mul(2, two_inv), 1);
    let t = 4;
    let mut core = AeSSCipherCore::new(&[0u8; 128], 0, false, t, scheme(identity(t), identity(t), vec![2; 4], vec![two_inv; 4]));
    let plain_blocks: Vec<u128> = (0..8).map(|i| (i as u128) * 0x1234_5678_9abc_def1).collect();
    core.internal = plain_blocks.clone();
    let beta = core.key_materials.beta_vector.clone();
    let tag = core.encode_vector(2, &99, &beta);
    assert_ne!(core.internal, plain_blocks);
    let inv_beta = core.key_materials.inv_beta_vector.clone();
    let dtag = core.decode_vector(2, &99, &inv_beta);
    assert_eq!(core.internal, plain_blocks);
    assert_eq!(dtag, tag);
    assert!(t <= MAX_VECTOR_ELEMENTS);
}

fn vandermonde_scheme() -> KeyScheme {
    let v: Vec<Vec<u128>> = vec![
        vec![1, 1, 1, 1],
        vec![2, 3, 5, 7],
        vec![4, 5, 17, 21],
        vec![8, 15, 85, 107],
    ];
    let vi: Vec<Vec<u128>> = vec![
        vec![
            3,
            97223533405982418132392744980505203309,
            37809151880104273718152734159085356818,
            37809151880104273718152734159085356818,
        ],
        vec![
            255211775190703847597530955573826158688,
            42535295865117307932921825928971026417,
            0,
            297747071055821155530452781502797184914,
        ],
        vec![
            170141183460469231731687303715884105795,
            182294125136217033998236396838447256078,
            72917650054486813599294558735378902445,
            182294125136217033998236396838447256078,
        ],
        vec![
            85070591730234615865843651857942052897,
            297747071055821155530452781502797184914,
            56713727820156410577229101238628035263,
            99249023685273718510150927167599061646,
        ],
    ];
    KeyScheme {
        key: [0x1111, 0x2222],
        iv: 0x3333,
        vender_matrix: v,
        principal_dec_matrice: vi,
        secondary_dec_matrice: Vec::new(),
        alpha: 0x1234,
        beta: 3,
        beta_vector: vec![3, 5, 7, 11],
        inv_beta_vector: vec![
            340282366920938463463374607431768211330,
            113427455640312821154458202477256070526,
            145835300108973627198589117470757804890,
            200954153693467596533488941396713510758,
        ],
    }
}

fn sample_data() -> Vec<u8> {
    (0..300).map(|i| ((i * 7 + 1) % 256) as u8).collect()
}

#[test]
fn encrypt_known_blocks_and_tag() {
    let data = sample_data();
    let mut core = AeSSCipherCore::new(&data, 0, true, 4, vandermonde_scheme());
    let pads: Vec<u128> = (1..4).map(|i| 0x1111 * i).collect();
    let tag = core.encrypt(&pads);
    assert_eq!(tag, 0x44a2559570ce2bac5639e96577daac79);
    let expected: Vec<u128> = vec![
        0xe2b93f650b5167dd95ef8bb1fd079584,
        0xc0fd5d612d16fed4b9b349a3de54b6d3,
        0xc2ba26648c741d77250d962d35aebd84,
        0x42dd89ad0874c38258765eac6dce34c5,
        0x949adaff2472920edc970c5bdf91bb79,
        0x6545475478a05a44eafb21b54d0c947a,
        0xef971a2a53a9968bd5b16062e4d99c5,
        0x8ef66ad43bbd69c007c941bc59fd8134,
        0x26298638a567ab7fc3c604ec3b647201,
        0x93ba7593049298029896f61657d84bee,
        0x9232900dd94acf6b2b5a8f89bae2108c,
        0x3d38c4dd870a9d52f30b247a1e088ee8,
        0xe4312be764292e427aa484dcd68d5244,
        0x71d5d7ac81344fb30c33de29911ff3da,
        0x8b2fa691db81e25c75e5a44ed684172b,
        0xcbd4ec01332756ae776c8fd6fe657baa,
        0xe1cad19971731cb57c9014dad539ef3c,
        0xd30affa03c0484e9bb90b1fe8303d474,
        0x40404042e272019120b04fdf6eff9f0,
    ];
    assert_eq!(core.internal, expected);
}

#[test]
fn decrypt_restores_data_and_tag() {
    let data = sample_data();
    let mut core = AeSSCipherCore::new(&data, 0, true, 4, vandermonde_scheme());
    let plain_blocks = core.internal.clone();
    let pads: Vec<u128> = (1..4).map(|i| 0x1111 * i).collect();
    let tag = core.encrypt(&pads);
    assert_ne!(core.internal, plain_blocks);
    let recovered = core.decrypt(tag, false, &pads);
    assert_eq!(recovered, tag);
    assert_eq!(core.internal, plain_blocks);
    assert_eq!(&core.get_bytes_out()[..300], &data[..]);
}

#[test]
fn decrypt_of_longer_data_restores_it() {
    let data: Vec<u8> = (0..1500).map(|i| (i % 251) as u8).collect();
    let mut core = AeSSCipherCore::new(&data, 0, true, 4, vandermonde_scheme());
    let plain_blocks = core.internal.clone();
    let pads: Vec<u128> = vec![7, 8, 9];
    let tag = core.encrypt(&pads);
    let recovered = core.decrypt(tag, false, &pads);
    assert_eq!(recovered, tag);
    assert_eq!(core.internal, plain_blocks);
}

#[test]
fn silent_decrypt_of_tampered_blocks_returns_another_tag() {
    let data = sample_data();
    let mut core = AeSSCipherCore::new(&data, 0, true, 4, vandermonde_scheme());
    let pads: Vec<u128> = (1..4).map(|i| 0x1111 * i).collect();
    let tag = core.encrypt(&pads);
    core.internal[1] ^= 1 << 5;
    let recovered = core.decrypt(tag, true, &pads);
    assert_ne!(recovered, tag);
}

#[test]
fn decrypt_without_authentication_returns_zero() {
    let data = sample_data();
    let mut core = AeSSCipherCore::new(&data, 0, true, 4, vandermonde_scheme());
    core.authenticate = false;
    let plain_blocks = core.internal.clone();
    let pads: Vec<u128> = (1..4).map(|i| 0x1111 * i).collect();
    let tag = core.encrypt(&pads);
    assert_eq!(core.decrypt(tag ^ 1, false, &pads), 0);
    assert_eq!(core.internal, plain_blocks);
}

#[test]
fn gf128_pow_and_invert() {
    assert_eq!(gf128_pow(2, 127), 1u128 << 127);
    assert_eq!(gf128_pow(2, 128), 0x87);
    assert_eq!(gf128_pow(0x1234, 0), 1);
    for a in [1u128, 2, 3, 0x1234, 0xdeadbeef_cafebabe_01234567_89abcdef] {
        assert_eq!(gf128_mul(a, gf128_invert(a)), 1);
    }
    assert_eq!(gf128_invert(0), 0);
}

#[test]
fn gf128_multiplication_laws_on_values() {
    let xs = [0u128, 1, 2, 0x87, 1u128 << 127, 0x0123456789abcdef0fedcba987654321, u128::MAX];
    for &a in &xs {
        for &b in &xs {
            assert_eq!(gf128_mul(a, b), gf128_mul(b, a));
            for &c in &xs {
                assert_eq!(gf128_mul(gf128_mul(a, b), c), gf128_mul(a, gf128_mul(b, c)));
                assert_eq!(gf128_mul(a, b ^ c), gf128_mul(a, b) ^ gf128_mul(a, c));
            }
        }
        assert_eq!(gf128_mul(a, 1), a);
        assert_eq!(gf128_mul(1, a), a);
        assert_eq!(gf128_mul(a, 0), 0);
    }
}

#[test]
fn every_block_is_changed_by_encryption() {
    let data = sample_data();
    let mut core = AeSSCipherCore::new(&data, 0, true, 4, vandermonde_scheme());
    let plain_blocks = core.internal.clone();
    let pads: Vec<u128> = (1..4).map(|i| 0x1111 * i).collect();
    core.encrypt(&pads);
    assert_eq!(core.internal.len(), plain_blocks.len());
    for k in 0..plain_blocks.len() {
        assert_ne!(core.internal[k], plain_blocks[k]);
    }
}

#[test]
fn decrypt_of_short_data_restores_it() {
    let data: Vec<u8> = (0..70).map(|i| (i * 13 + 5) as u8).collect();
    let mut core = AeSSCipherCore::new(&data, 0, true, 4, vandermonde_scheme());
    assert_eq!(core.active_level.blocks_count, 5);
    let plain_blocks = core.internal.clone();
    let pads: Vec<u128> = (1..4).map(|i| 0x1111 * i).collect();
    let tag = core.encrypt(&pads);
    for k in 0..plain_blocks.len() {
        assert_ne!(core.internal[k], plain_blocks[k]);
    }
    assert_eq!(core.decrypt(tag, false, &pads), tag);
    assert_eq!(core.internal, plain_blocks);
}

#[test]
fn inverse_factors_invert_each_entry() {
    let beta: Vec<u128> = vec![1, 2, 0x87, 0x0123_4567_89ab_cdef_fedc_ba98_7654_3210, u128::MAX, 0];
    let inv = inverse_factors(&beta);
    assert_eq!(inv.len(), beta.len());
    assert_eq!(inv[0], 1);
    for i in 0..5 {
        assert_eq!(gf128_mul(beta[i], inv[i]), 1);
        assert_eq!(inv[i], gf128_invert(beta[i]));
    }
    assert_eq!(inv[5], 0);
}
