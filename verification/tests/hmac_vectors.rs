use hashlab::hmac::{hmac, BYTES_BLOCK, BYTES_OUT};

fn hex_of(key: &[u8], data: &[u8]) -> String {
    hex::encode(hmac(key, data))
}

#[test]
fn hmac_rfc2202_case_1() {
    assert_eq!(hex_of(&[0x0b; 20], b"Hi There"), "b617318655057264e28bc0b6fb378c8ef146be00");
}

#[test]
fn hmac_rfc2202_case_2() {
    assert_eq!(
        hex_of(b"Jefe", b"what do ya want for nothing?"),
        "effcdf6ae5eb2fa2d27416d5f184df9c259a7c79"
    );
}

#[test]
fn hmac_rfc2202_case_3() {
    assert_eq!(hex_of(&[0xaa; 20], &[0xdd; 50]), "125d7342b9ac11cd91a39af48aa17b4f63f175d3");
}

#[test]
fn hmac_rfc2202_case_4() {
    let key: Vec<u8> = (1..=25u8).collect();
    assert_eq!(hex_of(&key, &[0xcd; 50]), "4c9007f4026250c6bc8414f9bf50c86c2d7235da");
}

#[test]
fn hmac_rfc2202_case_5() {
    assert_eq!(
        hex_of(&[0x0c; 20], b"Test With Truncation"),
        "4c1a03424b55e07fe7f27be1d58bb9324a9a5a04"
    );
}

#[test]
fn hmac_rfc2202_case_6_key_longer_than_a_block() {
    assert_eq!(
        hex_of(&[0xaa; 80], b"Test Using Larger Than Block-Size Key - Hash Key First"),
        "aa4ae5e15272d00e95705637ce8a3b55ed402112"
    );
}

#[test]
fn hmac_rfc2202_case_7_key_and_data_longer_than_a_block() {
    assert_eq!(
        hex_of(
            &[0xaa; 80],
            b"Test Using Larger Than Block-Size Key and Larger Than One Block-Size Data"
        ),
        "e8e99d0f45237d786d6bbaa7965c7808bbff1a91"
    );
}

#[test]
fn hmac_key_of_exactly_one_block() {
    let key: Vec<u8> = (0..64u8).collect();
    assert_eq!(key.len(), BYTES_BLOCK);
    assert_eq!(hex_of(&key, b"data"), "8a4b939f5bcab3e08928c4332213aa8a2d4f66d8");
}

#[test]
fn hmac_key_of_one_byte_more_than_a_block() {
    let key: Vec<u8> = (0..65u8).collect();
    assert_eq!(hex_of(&key, b"data"), "fa723998e03c604dfad86f9f16b5b919b965829c");
}

#[test]
fn hmac_short_key_equals_its_zero_padded_key() {
    let short: Vec<u8> = (0..40u8).collect();
    let mut padded = short.clone();
    padded.resize(BYTES_BLOCK, 0);
    assert_eq!(hex_of(&short, b"data"), "31f41c14764c682c25fc1d6ecd72f37c0de7353f");
    assert_eq!(hmac(&short, b"data"), hmac(&padded, b"data"));
}

#[test]
fn hmac_is_twenty_bytes() {
    assert_eq!(hmac(b"", b"").len(), BYTES_OUT);
    assert_eq!(hmac(&[7u8; 100], &[9u8; 300]).len(), 20);
}
