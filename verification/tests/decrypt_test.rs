use soullink_levelcap::game::decrypt::{decrypt_slot, encrypt_slot, shuffle_value, SLOT_CONCAT_LEN};

#[test]
fn shuffle_value_basic() {
    assert_eq!(shuffle_value(0x0000_0000), 0);
    assert_eq!(shuffle_value(0x0000_2000), 1);
    assert_eq!(shuffle_value(0xFC64_5FE6), 2);
}

#[test]
fn roundtrip_zero_slot() {
    let zero = [0u8; SLOT_CONCAT_LEN];
    let encrypted = encrypt_slot(&zero);
    let decrypted = decrypt_slot(&encrypted);
    assert_eq!(decrypted, zero);
}

#[test]
fn roundtrip_pseudo_random_slots() {
    let mut seed: u64 = 0x5066_1EA7_D00D_FACE;
    for trial in 0..50 {
        let mut plain = [0u8; SLOT_CONCAT_LEN];
        for b in plain.iter_mut() {
            seed = seed
                .wrapping_mul(6364136223846793005)
                .wrapping_add(1442695040888963407);
            *b = (seed >> 33) as u8;
        }
        let cipher = encrypt_slot(&plain);
        let recovered = decrypt_slot(&cipher);
        assert_eq!(
            recovered,
            plain,
            "round-trip mismatch on trial {} (PV=0x{:08X})",
            trial,
            u32::from_le_bytes([plain[0], plain[1], plain[2], plain[3]])
        );
    }
}

#[test]
fn header_unchanged() {
    let mut buf = [0u8; SLOT_CONCAT_LEN];
    buf[0..8].copy_from_slice(&[0x11, 0x22, 0x33, 0x44, 0x55, 0x66, 0x77, 0x88]);
    let dec = decrypt_slot(&buf);
    assert_eq!(&dec[0..8], &buf[0..8]);
}

#[test]
fn decrypt_then_encrypt_is_identity() {
    let mut rng_buf = [0u8; SLOT_CONCAT_LEN];
    for &pv in &[0x1234_5678u32, 0xDEAD_BEEF, 0xFC64_5FE6, 0x406A_C1F7] {
        rng_buf[0..4].copy_from_slice(&pv.to_le_bytes());
        for (i, b) in rng_buf.iter_mut().enumerate().skip(8) {
            *b = (i as u8).wrapping_mul(31).wrapping_add(7);
        }
        let dec = decrypt_slot(&rng_buf);
        let re_enc = encrypt_slot(&dec);
        assert_eq!(re_enc, rng_buf, "encrypt(decrypt(x)) != x for PV=0x{:08X}", pv);
    }
}

#[test]
fn keystream_matches_lcg_by_hand() {
    // PV 0 and shuffle value 0: block order is unchanged, so the plaintext of
    // an all-zero slot is the key stream itself.
    let dec = decrypt_slot(&[0u8; SLOT_CONCAT_LEN]);
    let mut seed: u32 = 0;
    let mut expect = [0u8; SLOT_CONCAT_LEN];
    let mut i = 8;
    while i < 232 {
        seed = seed.wrapping_mul(0x41C6_4E6D).wrapping_add(0x6073);
        expect[i] = (seed >> 16) as u8;
        expect[i + 1] = (seed >> 24) as u8;
        i += 2;
    }
    seed = 0;
    let mut i = 232;
    while i < 254 {
        seed = seed.wrapping_mul(0x41C6_4E6D).wrapping_add(0x6073);
        expect[i] = (seed >> 16) as u8;
        expect[i + 1] = (seed >> 24) as u8;
        i += 2;
    }
    assert_eq!(dec, expect);
    assert_eq!(dec[8], 0x00);
    assert_eq!(dec[9], 0x00);
    assert_ne!(dec, [0u8; SLOT_CONCAT_LEN]);
}

#[test]
fn blocks_are_unshuffled_by_shuffle_value() {
    // PV with shuffle value 1: scrambled order A B D C.
    let pv: u32 = 0x0000_2000;
    assert_eq!(shuffle_value(pv), 1);
    let mut plain = [0u8; SLOT_CONCAT_LEN];
    plain[0..4].copy_from_slice(&pv.to_le_bytes());
    for block in 0..4 {
        for off in 0..56 {
            plain[8 + block * 56 + off] = block as u8 + 1;
        }
    }
    let cipher = encrypt_slot(&plain);
    // Undo only the XOR layer: XOR-ing again with an all-zero plaintext's stream.
    let mut zero = [0u8; SLOT_CONCAT_LEN];
    zero[0..4].copy_from_slice(&pv.to_le_bytes());
    let stream = encrypt_slot(&zero);
    let mut scrambled = [0u8; SLOT_CONCAT_LEN];
    for i in 0..SLOT_CONCAT_LEN {
        scrambled[i] = cipher[i] ^ stream[i];
    }
    assert_eq!(scrambled[8], 1);
    assert_eq!(scrambled[8 + 56], 2);
    assert_eq!(scrambled[8 + 2 * 56], 4);
    assert_eq!(scrambled[8 + 3 * 56], 3);
    assert_eq!(decrypt_slot(&cipher), plain);
}
