use dijkstra::vigenere::{decrypt, encrypt, key_to_same_length, Vigenere};

#[test]
fn test_get() {
    let table = Vigenere::new();
    assert_eq!(table.get_encrypted(0, 3), b'D');
    assert_eq!(table.get_encrypted(1, 0), b'B');
    assert_eq!(table.get_encrypted(25, 1), b'A');
}

#[test]
fn test_ascii() {
    assert_eq!(b'A', 65);
}

#[test]
fn get_decrypted_wraps_backwards() {
    let table = Vigenere::new();
    assert_eq!(table.get_decrypted(0, 1), b'Z');
    assert_eq!(table.get_decrypted(3, 3), b'A');
    assert_eq!(table.get_decrypted(25, 0), b'Z');
}

#[test]
fn key_repeats_to_text_length() {
    assert_eq!(key_to_same_length("ABCDEFG", "XYZ"), "XYZXYZX");
    assert_eq!(key_to_same_length("AB", "LONGKEY"), "LO");
    assert_eq!(key_to_same_length("ABC", ""), "");
    assert_eq!(key_to_same_length("", "KEY"), "");
}

#[test]
fn encrypt_classic_example() {
    assert_eq!(encrypt("ATTACKATDAWN", "LEMON"), "LXFOPVEFRNHR");
}

#[test]
fn encrypt_upper_cases_the_text() {
    assert_eq!(encrypt("attack", "LEMON"), "LXFOPV");
}

#[test]
fn encrypt_with_empty_key_is_empty() {
    assert_eq!(encrypt("ATTACK", ""), "");
}

#[test]
fn decrypt_inverts_encrypt() {
    assert_eq!(decrypt("LXFOPVEFRNHR", "LEMON"), "ATTACKATDAWN");
}

#[test]
fn decrypt_drops_non_letters() {
    let ciphertext = "
    PVCDJG
    PAYCMY
    JR KUC
    ";
    assert_eq!(decrypt(ciphertext, "WHYRUST"), "TOEMPOWEREVERYONE");
}

#[test]
fn decrypt_shifts_lower_case_by_code() {
    assert_eq!(decrypt("lxf-opv", "LEMON"), "GZZGIQ");
    assert_eq!(decrypt("ab", "A"), "GH");
}

#[test]
fn decrypt_empty_inputs() {
    assert_eq!(decrypt("", "KEY"), "");
    assert_eq!(decrypt("1234 !?", "KEY"), "");
    assert_eq!(decrypt("ABC", ""), "");
}

#[test]
fn encrypt_works_on_utf8_bytes() {
    assert_eq!(encrypt("é", "A"), "AA");
    assert_eq!(encrypt("AB", "é"), "AB");
}

#[test]
fn encrypt_with_empty_key_accepts_any_text() {
    assert_eq!(encrypt(" 1!", ""), "");
}

#[test]
fn encrypt_doubled_key_and_case_agree() {
    assert_eq!(encrypt("attackatdawn", "LEMONLEMON"), encrypt("ATTACKATDAWN", "LEMON"));
}

#[test]
fn decrypt_without_letters_accepts_any_key() {
    assert_eq!(decrypt("123 ?", "abc"), "");
}
