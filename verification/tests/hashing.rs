use laser_lockdown::hashing::{
    hashed_id, hex_text, id_message, parse_hash, password_message, salt,
};

fn counted() -> [u8; 32] {
    let mut h = [0u8; 32];
    for (i, b) in h.iter_mut().enumerate() {
        *b = (i * 8 + 7) as u8;
    }
    h
}

const COUNTED_HEX: &str = "070f171f272f373f474f575f676f777f878f979fa7afb7bfc7cfd7dfe7eff7ff";

#[test]
fn salt_is_the_first_sixteen_bytes() {
    assert_eq!(&salt("0123456789abcdefXYZ"), b"0123456789abcdef");
    assert_eq!(&salt("0123456789abcdef"), b"0123456789abcdef");
}

#[test]
fn password_message_is_salt_and_password() {
    let s = *b"0123456789abcdef";
    assert_eq!(password_message(&s, "hunter2"), b"0123456789abcdefhunter2".to_vec());
    assert_eq!(password_message(&s, ""), b"0123456789abcdef".to_vec());
    assert_eq!(password_message(&s, "é"), b"0123456789abcdef\xc3\xa9".to_vec());
}

#[test]
fn id_message_is_salt_and_big_endian_id() {
    let s = *b"0123456789abcdef";
    let mut expected = b"0123456789abcdef".to_vec();
    expected.extend_from_slice(&[1, 2, 3, 4]);
    assert_eq!(id_message(&s, 0x0102_0304), expected);
    assert_eq!(id_message(&s, 0xabcd)[16..], [0, 0, 0xab, 0xcd]);
}

#[test]
fn different_ids_and_passwords_have_different_messages() {
    let s = *b"0123456789abcdef";
    assert_ne!(id_message(&s, 1), id_message(&s, 256));
    assert_ne!(password_message(&s, "a"), password_message(&s, "b"));
}

#[test]
fn hashed_id_is_the_head_of_the_digest() {
    let h = counted();
    assert_eq!(hashed_id(&h), 0x070f_171f_272f_373f);
    assert_eq!(hashed_id(&[0xff; 32]), u64::MAX);
}

#[test]
fn hex_has_two_digits_for_each_byte() {
    assert_eq!(hex_text(&counted()), COUNTED_HEX);
    assert_eq!(hex_text(&[0; 32]), "0".repeat(64));
}

#[test]
fn hex_is_read_back() {
    let chars: Vec<char> = COUNTED_HEX.chars().collect();
    assert_eq!(parse_hash(&chars), Some(counted()));
}

#[test]
fn other_texts_are_no_digest() {
    let upper: Vec<char> = COUNTED_HEX.to_uppercase().chars().collect();
    assert_eq!(parse_hash(&upper), None);
    let short: Vec<char> = COUNTED_HEX[..62].chars().collect();
    assert_eq!(parse_hash(&short), None);
    let long: Vec<char> = format!("{}\n", COUNTED_HEX).chars().collect();
    assert_eq!(parse_hash(&long), None);
    assert_eq!(parse_hash(&[]), None);
}

#[test]
fn different_digests_have_different_texts() {
    let mut other = counted();
    other[31] ^= 1;
    assert_ne!(hex_text(&other), hex_text(&counted()));
}
