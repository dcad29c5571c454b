use aess_crypto::ascon_ae::Ascon128;

fn key() -> [u8; 16] {
    let mut k = [0u8; 16];
    for i in 0..16 {
        k[i] = i as u8;
    }
    k
}

fn nonce() -> [u8; 16] {
    let mut n = [0u8; 16];
    for i in 0..16 {
        n[i] = (16 + i) as u8;
    }
    n
}

#[test]
fn encrypt_empty_message_gives_tag_only() {
    let cipher = Ascon128::new(key());
    let out = cipher.encrypt(&nonce(), &[], &[]);
    assert_eq!(
        out,
        vec![214, 232, 241, 246, 185, 78, 247, 119, 20, 30, 95, 85, 196, 90, 15, 88]
    );
}

#[test]
fn encrypt_short_message_known_answer() {
    let cipher = Ascon128::new(key());
    let out = cipher.encrypt(&nonce(), &[], b"hello");
    assert_eq!(
        out,
        vec![
            207, 50, 153, 87, 56, 62, 35, 28, 227, 144, 84, 186, 67, 168, 229, 102, 67, 16, 179,
            174, 252
        ]
    );
}

#[test]
fn encrypt_with_associated_data_known_answer() {
    let cipher = Ascon128::new(key());
    let out = cipher.encrypt(&nonce(), b"header", b"attack at dawn!!");
    assert_eq!(
        out,
        vec![
            34, 238, 182, 139, 9, 167, 104, 175, 130, 121, 233, 10, 112, 151, 251, 211, 95, 119,
            78, 70, 167, 17, 122, 152, 228, 135, 10, 181, 165, 132, 209, 135
        ]
    );
}

#[test]
fn encrypt_full_and_partial_blocks_known_answer() {
    let cipher = Ascon128::new(key());
    let ad: Vec<u8> = (0..8).collect();
    let pt: Vec<u8> = (0..21).collect();
    let out = cipher.encrypt(&nonce(), &ad, &pt);
    assert_eq!(
        out,
        vec![
            87, 118, 96, 45, 192, 78, 44, 162, 253, 200, 74, 137, 176, 164, 151, 32, 154, 76, 237,
            245, 73, 75, 167, 38, 224, 167, 252, 178, 157, 17, 30, 38, 96, 160, 124, 78, 116
        ]
    );
}

#[test]
fn decrypt_inverts_encrypt_for_many_lengths() {
    let cipher = Ascon128::new(key());
    for ad_len in [0usize, 1, 7, 8, 9, 16, 17] {
        let ad: Vec<u8> = (0..ad_len).map(|i| (3 * i + 1) as u8).collect();
        for pt_len in 0..40usize {
            let pt: Vec<u8> = (0..pt_len).map(|i| (7 * i + 5) as u8).collect();
            let ct = cipher.encrypt(&nonce(), &ad, &pt);
            assert_eq!(ct.len(), pt_len + 16);
            assert_eq!(cipher.decrypt(&nonce(), &ad, &ct), Some(pt));
        }
    }
}

#[test]
fn decrypt_rejects_short_input() {
    let cipher = Ascon128::new(key());
    assert_eq!(cipher.decrypt(&nonce(), &[], &[0u8; 15]), None);
    assert_eq!(cipher.decrypt(&nonce(), &[], &[]), None);
}

#[test]
fn decrypt_rejects_tampered_ciphertext_and_tag() {
    let cipher = Ascon128::new(key());
    let pt = b"attack at dawn, bring snacks";
    let ct = cipher.encrypt(&nonce(), b"hdr", pt);
    for pos in 0..ct.len() {
        let mut bad = ct.clone();
        bad[pos] ^= 0x01;
        assert_eq!(cipher.decrypt(&nonce(), b"hdr", &bad), None);
    }
}

#[test]
fn decrypt_rejects_wrong_associated_data_nonce_or_key() {
    let cipher = Ascon128::new(key());
    let ct = cipher.encrypt(&nonce(), b"hdr", b"message");
    assert_eq!(cipher.decrypt(&nonce(), b"hdx", &ct), None);
    let mut other_nonce = nonce();
    other_nonce[0] ^= 1;
    assert_eq!(cipher.decrypt(&other_nonce, b"hdr", &ct), None);
    let mut other_key = key();
    other_key[15] ^= 0x80;
    assert_eq!(Ascon128::new(other_key).decrypt(&nonce(), b"hdr", &ct), None);
}

#[test]
fn empty_and_absent_associated_data_agree_but_differ_from_padding_byte() {
    let cipher = Ascon128::new(key());
    let a = cipher.encrypt(&nonce(), &[], b"abc");
    let b = cipher.encrypt(&nonce(), &[0x80], b"abc");
    assert_ne!(a, b);
}

#[test]
fn encryption_is_deterministic() {
    let cipher = Ascon128::new(key());
    let a = cipher.encrypt(&nonce(), b"x", b"same input");
    let b = cipher.encrypt(&nonce(), b"x", b"same input");
    assert_eq!(a, b);
}

#[test]
fn accepted_ciphertext_is_the_encryption_of_its_plaintext() {
    let cipher = Ascon128::new(key());
    let ct = cipher.encrypt(&nonce(), b"ad", b"some plaintext of 29 bytes...");
    let pt = cipher.decrypt(&nonce(), b"ad", &ct).unwrap();
    assert_eq!(cipher.encrypt(&nonce(), b"ad", &pt), ct);
}
