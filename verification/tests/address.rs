use ferrous::wallet::address::{
    address_to_hash, address_to_script_pubkey, dilithium_pubkey_hash, hash_to_address,
    pubkey_to_address, script_pubkey_to_address, AddressError,
};

fn fake_pubkey() -> Vec<u8> {
    (0u8..=255).cycle().take(1952).collect()
}

#[test]
fn test_roundtrip_pubkey_to_address_to_hash() {
    let pk = fake_pubkey();
    let addr = pubkey_to_address(&pk, 0x6f);
    let (hash, prefix) = address_to_hash(&addr).expect("decode failed");
    assert_eq!(prefix, 0x6f);
    assert_eq!(hash, dilithium_pubkey_hash(&pk));
}

#[test]
fn test_mainnet_prefix() {
    let pk = fake_pubkey();
    let addr = pubkey_to_address(&pk, 0x00);
    assert!(addr.starts_with("frr1"), "expected frr1..., got {}", addr);
}

#[test]
fn test_testnet_prefix() {
    let pk = fake_pubkey();
    let addr = pubkey_to_address(&pk, 0x6f);
    assert!(addr.starts_with("tfrr1"), "expected tfrr1..., got {}", addr);
}

#[test]
fn test_address_to_script_pubkey_length_and_format() {
    let pk = fake_pubkey();
    let addr = pubkey_to_address(&pk, 0x6f);
    let script = address_to_script_pubkey(&addr).expect("script failed");
    assert_eq!(script.len(), 36);
    assert_eq!(script[0], 0xaa);
    assert_eq!(script[1], 0x20);
    assert_eq!(script[34], 0x88);
    assert_eq!(script[35], 0xac);
    let expected_hash = dilithium_pubkey_hash(&pk);
    assert_eq!(&script[2..34], &expected_hash);
}

#[test]
fn test_script_pubkey_to_address_roundtrip() {
    let pk = fake_pubkey();
    let addr = pubkey_to_address(&pk, 0x6f);
    let script = address_to_script_pubkey(&addr).unwrap();
    let recovered = script_pubkey_to_address(&script, 0x6f).expect("recover failed");
    assert_eq!(recovered, addr);
}

#[test]
fn hash_to_address_mainnet_roundtrip() {
    let hash = [7u8; 32];
    let addr = hash_to_address(&hash, 0x00);
    assert!(addr.starts_with("frr1"));
    assert_eq!(address_to_hash(&addr), Ok((hash, 0x00)));
}

#[test]
fn pubkey_hash_is_blake3() {
    let pk = fake_pubkey();
    let expected: [u8; 32] = blake3::hash(&pk).into();
    assert_eq!(dilithium_pubkey_hash(&pk), expected);
}

#[test]
fn unknown_hrp_is_refused() {
    let hrp = bech32::Hrp::parse("bc").unwrap();
    let other = bech32::encode::<bech32::Bech32m>(hrp, &[1u8; 32]).unwrap();
    assert_eq!(address_to_hash(&other), Err(AddressError::UnknownHrp));
}

#[test]
fn short_payload_is_refused() {
    let hrp = bech32::Hrp::parse("tfrr").unwrap();
    let short = bech32::encode::<bech32::Bech32m>(hrp, &[1u8; 20]).unwrap();
    assert_eq!(address_to_hash(&short), Err(AddressError::InvalidPayloadLength));
    assert_eq!(address_to_script_pubkey(&short), Err(AddressError::InvalidPayloadLength));
}

#[test]
fn garbage_is_refused() {
    assert_eq!(address_to_hash("not an address"), Err(AddressError::InvalidEncoding));
}

#[test]
fn non_p2dl_script_has_no_address() {
    assert_eq!(script_pubkey_to_address(&[0x51], 0x42), None);
    let mut script = vec![0xaa, 0x20];
    script.extend_from_slice(&[3u8; 32]);
    script.push(0x88);
    script.push(0xad);
    assert_eq!(script_pubkey_to_address(&script, 0x00), None);
}
