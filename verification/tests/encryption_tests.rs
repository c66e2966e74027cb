use capitan::encryption::Encrypt;

struct Cipher;

impl Encrypt for Cipher {}

#[test]
fn one_byte_rotates_by_its_bit_count_plus_the_key_byte() {
    // 0b0000_0001 has one set bit; with key byte 1 it rotates right by two.
    let out = Cipher::encrypt(vec![0b0000_0001], &[1]).unwrap();
    assert_eq!(out, vec![0b0100_0000]);
}

#[test]
fn an_empty_key_falls_back_to_three() {
    // 0b0000_0001 has one set bit; with the fallback key byte 3 it rotates
    // right by four.
    let out = Cipher::encrypt(vec![0b0000_0001], &[]).unwrap();
    assert_eq!(out, vec![0b0001_0000]);
}

#[test]
fn decrypt_undoes_encrypt() {
    let plain: Vec<u8> = vec![0, 1, 2, 3, 50, 100, 200, 255, 92, 82, 192, 75];
    let key = b"some key";
    let sealed = Cipher::encrypt(plain.clone(), key).unwrap();
    assert_ne!(sealed, plain, "the cipher must actually move the bytes");
    let opened = Cipher::decrypt(sealed, key).unwrap();
    assert_eq!(opened, plain);
}

#[test]
fn round_trip_holds_for_every_byte_under_several_keys() {
    let keys: [&[u8]; 4] = [b"", b"k", b"longer key", &[255]];
    for key in keys.iter() {
        let plain: Vec<u8> = (0..=255).collect();
        let sealed = Cipher::encrypt(plain.clone(), key).unwrap();
        let opened = Cipher::decrypt(sealed, key).unwrap();
        assert_eq!(opened, plain);
    }
}

#[test]
fn encryption_keeps_the_length() {
    let out = Cipher::encrypt(vec![1, 2, 3, 4, 5], b"key").unwrap();
    assert_eq!(out.len(), 5);
}
