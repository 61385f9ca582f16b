use spa_host::percent::percent_decode;

#[test]
fn decodes_hex_escapes_in_either_case() {
    assert_eq!(percent_decode(b"%41%62%2f%2F"), b"Ab//".to_vec());
    assert_eq!(percent_decode(b"a%20b"), b"a b".to_vec());
}

#[test]
fn malformed_escapes_stand_for_themselves() {
    assert_eq!(percent_decode(b"%"), b"%".to_vec());
    assert_eq!(percent_decode(b"%4"), b"%4".to_vec());
    assert_eq!(percent_decode(b"%zz%41"), b"%zzA".to_vec());
    assert_eq!(percent_decode(b"100%"), b"100%".to_vec());
}

#[test]
fn empty_input_decodes_to_empty() {
    assert_eq!(percent_decode(b""), Vec::<u8>::new());
}

#[test]
fn decoded_escape_is_not_decoded_again() {
    assert_eq!(percent_decode(b"%2541"), b"%41".to_vec());
}
