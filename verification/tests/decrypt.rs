use bin_extract::decrypt::{
    decrypt_bin, decrypt_des_cbc, strip_pkcs7_padding, unchain_block, DecryptError, DES_IV, DES_KEY,
};
use des::cipher::generic_array::GenericArray;
use des::cipher::{BlockEncrypt, KeyInit};
use des::Des;
use flate2::write::GzEncoder;
use flate2::Compression;
use std::io::Write;

fn pad(data: &[u8]) -> Vec<u8> {
    let n = 8 - data.len() % 8;
    let mut out = data.to_vec();
    out.extend(std::iter::repeat(n as u8).take(n));
    out
}

fn cbc_encrypt(plain: &[u8]) -> Vec<u8> {
    assert_eq!(plain.len() % 8, 0);
    let cipher = Des::new_from_slice(&DES_KEY).unwrap();
    let mut prev = DES_IV;
    let mut out = Vec::new();
    for chunk in plain.chunks(8) {
        let mut block = [0u8; 8];
        for i in 0..8 {
            block[i] = chunk[i] ^ prev[i];
        }
        let mut buf = GenericArray::clone_from_slice(&block);
        cipher.encrypt_block(&mut buf);
        let enc: [u8; 8] = buf.into();
        out.extend_from_slice(&enc);
        prev = enc;
    }
    out
}

fn gzip(text: &str) -> Vec<u8> {
    let mut enc = GzEncoder::new(Vec::new(), Compression::default());
    enc.write_all(text.as_bytes()).unwrap();
    enc.finish().unwrap()
}

fn make_bin(text: &str) -> Vec<u8> {
    cbc_encrypt(&pad(&gzip(text)))
}

#[test]
fn decrypt_des_cbc_of_empty_input_is_empty() {
    assert_eq!(decrypt_des_cbc(&[]), Ok(Vec::new()));
}

#[test]
fn decrypt_des_cbc_refuses_unaligned_input() {
    assert_eq!(decrypt_des_cbc(&[1, 2, 3, 4, 5]), Err(DecryptError::NotBlockAligned { len: 5 }));
    assert_eq!(decrypt_des_cbc(&[0u8; 17]), Err(DecryptError::NotBlockAligned { len: 17 }));
}

#[test]
fn decrypt_des_cbc_undoes_encryption_and_padding() {
    let msg = b"hello, world!".to_vec();
    let data = cbc_encrypt(&pad(&msg));
    assert_eq!(data.len(), 16);
    assert_eq!(decrypt_des_cbc(&data), Ok(msg));
}

#[test]
fn decrypt_des_cbc_strips_a_whole_padding_block() {
    let msg = b"12345678".to_vec();
    let data = cbc_encrypt(&pad(&msg));
    assert_eq!(data.len(), 16);
    assert_eq!(decrypt_des_cbc(&data), Ok(msg));
}

#[test]
fn decrypt_des_cbc_keeps_bytes_when_last_byte_is_no_padding() {
    let mut msg = b"abcdefg".to_vec();
    msg.push(9);
    let data = cbc_encrypt(&msg);
    assert_eq!(decrypt_des_cbc(&data), Ok(msg.clone()));
    msg[7] = 0;
    let data = cbc_encrypt(&msg);
    assert_eq!(decrypt_des_cbc(&data), Ok(msg));
}

#[test]
fn decrypt_des_cbc_chains_blocks_with_the_iv() {
    let msg = [7u8, 7, 7, 7, 7, 7, 7, 7, 1, 2, 3, 4, 5, 6, 7, 0];
    let data = cbc_encrypt(&msg);
    let plain = decrypt_des_cbc(&data).unwrap();
    assert_eq!(plain, msg.to_vec());
    // Swapping the two ciphertext blocks breaks the chaining.
    let mut swapped = data[8..].to_vec();
    swapped.extend_from_slice(&data[..8]);
    assert_ne!(decrypt_des_cbc(&swapped).unwrap(), msg.to_vec());
}

#[test]
fn unchain_block_is_a_bytewise_xor() {
    let a = [0xFFu8, 0x00, 0x0F, 0xF0, 0x12, 0x34, 0x56, 0x78];
    let b = [0x0Fu8, 0x0F, 0x0F, 0x0F, 0x00, 0xFF, 0x56, 0x87];
    assert_eq!(unchain_block(&a, &b), [0xF0, 0x0F, 0x00, 0xFF, 0x12, 0xCB, 0x00, 0xFF]);
}

#[test]
fn strip_pkcs7_padding_cases() {
    let mut v = vec![1u8, 2, 3, 3, 3, 3];
    strip_pkcs7_padding(&mut v);
    assert_eq!(v, vec![1, 2, 3]);

    let mut v = vec![5u8, 5, 5, 0];
    strip_pkcs7_padding(&mut v);
    assert_eq!(v, vec![5, 5, 5, 0]);

    let mut v = vec![9u8; 10];
    strip_pkcs7_padding(&mut v);
    assert_eq!(v, vec![9u8; 10]);

    let mut v = vec![4u8, 4, 2];
    strip_pkcs7_padding(&mut v);
    assert_eq!(v, vec![4]);

    let mut v = vec![4u8, 4];
    strip_pkcs7_padding(&mut v);
    assert_eq!(v, vec![4, 4]);

    let mut v: Vec<u8> = Vec::new();
    strip_pkcs7_padding(&mut v);
    assert!(v.is_empty());
}

#[test]
fn strip_undoes_padding_on_examples() {
    for len in 0..20usize {
        let msg: Vec<u8> = (0..len as u8).collect();
        let mut padded = pad(&msg);
        strip_pkcs7_padding(&mut padded);
        assert_eq!(padded, msg);
    }
}

#[test]
fn decrypt_bin_round_trip() {
    let xml = "<?xml version=\"1.0\"?><items><item uniquename=\"T1_SWORD\"/></items>";
    let data = make_bin(xml);
    assert_eq!(decrypt_bin(&data), Ok(xml.to_string()));
}

#[test]
fn decrypt_bin_refuses_unaligned_input() {
    assert_eq!(decrypt_bin(&[1, 2, 3]), Err(DecryptError::NotBlockAligned { len: 3 }));
}

#[test]
fn decrypt_bin_refuses_data_that_is_not_gzip() {
    let data = cbc_encrypt(&pad(b"this is plain text, not gzip"));
    assert_eq!(decrypt_bin(&data), Err(DecryptError::NotGzipText));
}

#[test]
fn decrypt_bin_refuses_gzip_of_invalid_utf8() {
    let mut enc = GzEncoder::new(Vec::new(), Compression::default());
    enc.write_all(&[0xFF, 0xFE, 0x41]).unwrap();
    let gz = enc.finish().unwrap();
    let data = cbc_encrypt(&pad(&gz));
    assert_eq!(decrypt_bin(&data), Err(DecryptError::NotGzipText));
}

#[test]
fn flipping_a_ciphertext_bit_touches_two_plaintext_blocks() {
    let msg: Vec<u8> = (0u8..29).collect();
    let d1 = cbc_encrypt(&pad(&msg));
    assert_eq!(d1.len(), 32);
    let mut d2 = d1.clone();
    d2[8 + 3] ^= 0x10;
    let r1 = decrypt_des_cbc(&d1).unwrap();
    let r2 = decrypt_des_cbc(&d2).unwrap();
    assert_eq!(r1, msg);
    assert_eq!(r2.len(), r1.len());
    assert_eq!(r2[16 + 3], r1[16 + 3] ^ 0x10);
    for m in 0..r1.len() {
        if m < 8 || m >= 24 {
            assert_eq!(r2[m], r1[m]);
        }
    }
    assert_ne!(&r2[8..16], &r1[8..16]);
}
