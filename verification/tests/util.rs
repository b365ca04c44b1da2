use coolled1248::util::{calculate_checksum, escape_byets_in_place, escpae_bytes};

/// Reads escaped bytes back.
fn read_back(bytes: &[u8]) -> Vec<u8> {
    let mut out: Vec<u8> = Vec::new();
    let mut i: usize = 0;
    while i < bytes.len() {
        if bytes[i] == 2 && i + 1 < bytes.len() {
            out.push(bytes[i + 1] ^ 4);
            i += 2;
        } else {
            out.push(bytes[i]);
            i += 1;
        }
    }
    out
}

#[test]
fn control_bytes_are_escaped() {
    for (byte, escaped) in [(1u8, 5u8), (2, 6), (3, 7)] {
        let mut out: Vec<u8> = vec![];
        escpae_bytes(&mut out, byte);
        assert_eq!(out, vec![0x02, escaped]);
    }
}

#[test]
fn other_bytes_pass() {
    for byte in [0u8, 4, 5, 6, 7, 0x10, 0x7F, 0xFF] {
        let mut out: Vec<u8> = vec![0x55];
        escpae_bytes(&mut out, byte);
        assert_eq!(out, vec![0x55, byte]);
    }
}

#[test]
fn escape_in_place_grows_by_one_for_each_control_byte() {
    let mut out: [u8; 12] = [9, 1, 8, 3, 0, 0, 0, 0, 0, 0, 0xAB, 0xCD];
    let n: usize = escape_byets_in_place(&mut out, 4);
    assert_eq!(n, 6);
    assert_eq!(out, [9, 2, 5, 8, 2, 7, 0, 0, 0, 0, 0xAB, 0xCD]);
}

#[test]
fn escape_in_place_of_neighbouring_control_bytes() {
    let mut out: [u8; 10] = [1, 2, 3, 3, 2, 0, 0, 0, 0, 0];
    let n: usize = escape_byets_in_place(&mut out, 5);
    assert_eq!(n, 10);
    assert_eq!(out, [2, 5, 2, 6, 2, 7, 2, 7, 2, 6]);
}

#[test]
fn escape_in_place_leaves_what_it_was_not_given() {
    // The bytes behind the first three are control bytes too, and stay.
    let mut out: [u8; 8] = [7, 2, 7, 1, 2, 3, 1, 2];
    let n: usize = escape_byets_in_place(&mut out, 3);
    assert_eq!(n, 4);
    assert_eq!(out, [7, 2, 6, 7, 2, 3, 1, 2]);
}

#[test]
fn escape_in_place_of_nothing() {
    let mut out: [u8; 3] = [1, 2, 3];
    assert_eq!(escape_byets_in_place(&mut out, 0), 0);
    assert_eq!(out, [1, 2, 3]);
    let mut none: [u8; 0] = [];
    assert_eq!(escape_byets_in_place(&mut none, 0), 0);
}

#[test]
fn escape_in_place_without_control_bytes() {
    let mut out: [u8; 4] = [0, 4, 5, 255];
    assert_eq!(escape_byets_in_place(&mut out, 4), 4);
    assert_eq!(out, [0, 4, 5, 255]);
}

#[test]
fn escaped_bytes_read_back() {
    let mut seed: u32 = 12345;
    for len in 0..40usize {
        let mut data: Vec<u8> = Vec::new();
        for _ in 0..len {
            seed = seed.wrapping_mul(1103515245).wrapping_add(12345);
            data.push(((seed >> 16) % 8) as u8);
        }
        let mut out: Vec<u8> = data.clone();
        out.resize(2 * len, 0xEE);
        let n: usize = escape_byets_in_place(&mut out, len);
        let controls: usize = data.iter().filter(|b| (1..4).contains(*b)).count();
        assert_eq!(n, len + controls);
        assert!(!out[..n].contains(&1) && !out[..n].contains(&3));
        assert_eq!(read_back(&out[..n]), data);
        assert!(out[n..].iter().all(|b| *b == 0xEE));

        let mut one_by_one: Vec<u8> = Vec::new();
        for b in &data {
            escpae_bytes(&mut one_by_one, *b);
        }
        assert_eq!(&out[..n], &one_by_one[..]);
    }
}

#[test]
fn checksum_is_the_xor_of_all_bytes() {
    assert_eq!(calculate_checksum(&[]), 0);
    assert_eq!(calculate_checksum(&[0x5A]), 0x5A);
    assert_eq!(calculate_checksum(&[0x01, 0x02, 0x04, 0x80]), 0x87);
    assert_eq!(calculate_checksum(&[0xFF, 0xFF]), 0);
    assert_eq!(calculate_checksum(&[0, 1, 175, 0, 3, 47]), 0x82);
}
