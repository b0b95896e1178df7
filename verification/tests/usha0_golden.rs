use hashlab::usha::usha0::usha0;

fn hex_of(message: &[u8]) -> String {
    hex::encode(usha0(message))
}

#[test]
fn usha0_of_empty_message() {
    assert_eq!(hex_of(b""), "40242201a0000000e46dfd2f0a0fd0dec1df782206c2526b6c364b429e641b4b");
}

#[test]
fn usha0_of_abc() {
    assert_eq!(hex_of(b"abc"), "81e602000528054037332978ad91e135492ba9d3975c01d0d720e50c797ea462");
}

#[test]
fn usha0_of_quick_brown_fox() {
    assert_eq!(
        hex_of(b"The quick brown fox jumps over the lazy dog"),
        "0d128584010281a0f5f8ee14d80e77fd0a13fcfd5c86515ac87c81e62a737f56"
    );
}

#[test]
fn usha0_length_field_ends_the_first_chunk() {
    assert_eq!(
        hex_of(&[b'a'; 119]),
        "004902c40054005a49462bbafc9d458da50432761582c772e13a9eee9279b47d"
    );
    assert_eq!(
        hex_of(&[b'a'; 120]),
        "009414802480e0d0a4ab1091178ee2269588e910f16a87290012dde9020ab613"
    );
}

#[test]
fn usha0_length_field_spills_into_a_second_chunk() {
    assert_eq!(
        hex_of(&[b'a'; 121]),
        "815421446a214401e7ef37b5bef3fd9dcf63fd532fff5b8c1e197bbdfb5d107f"
    );
    assert_eq!(
        hex_of(&[b'a'; 128]),
        "c050284662a14201fbcf1f6929f7dbb9fff2fd752dfdbd940fbcf3dffe9db77f"
    );
}

#[test]
fn usha0_of_several_chunks() {
    let message: Vec<u8> = (0..300u32).map(|i| (i % 256) as u8).collect();
    assert_eq!(
        hex_of(&message),
        "400284451a404ba8ca558e5db6203a18cf250a16e0e04fb3f671554d0552110b"
    );
    let message: Vec<u8> = (0..=255u8).collect();
    assert_eq!(
        hex_of(&message),
        "40d40241a038054097a89f9ccd26f87384f3c8106744b0f29d1261b7b4f45ee6"
    );
}

#[test]
fn usha0_is_thirty_two_bytes() {
    for len in [0usize, 1, 119, 120, 121, 128, 500] {
        assert_eq!(usha0(&vec![0xc3u8; len]).len(), 32);
    }
}

#[test]
fn usha0_is_deterministic() {
    let message = b"the same bytes, twice";
    assert_eq!(usha0(message), usha0(message));
    assert_eq!(usha0(message), usha0(&message.to_vec()));
}
