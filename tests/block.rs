use en_crypt::block::{Block, BLOCK_SIZE};
use en_crypt::error::EnCryptError;

#[test]
fn block_writer_reader() {
    // empty block
    let mut dst = Vec::<u8>::new();
    let mut b = Block::new_empty();
    let res = b.read(&mut dst);
    assert!(res.is_ok(), "Error reading from block");
    assert_eq!(res.unwrap(), 0);
    assert_eq!(dst.to_vec(), Vec::<u8>::new());

    // write to block
    let src = [1, 2, 3, 4];
    let expected_block_cid =
        "baejbeie7mstupynzp4jr7k5wwrdss3e3n4badz47wpctk3tmo7ujw2uani".to_string();

    let _ = b.write(&src);

    let mut dst = Vec::from([0; 3]);
    let res = b.read(&mut dst);
    assert!(res.is_ok(), "Error reading from block");
    assert_eq!(res.unwrap(), 3);
    assert_eq!(dst.to_vec(), Vec::from([1, 2, 3]));
    assert_eq!(b.cid, expected_block_cid);

    let mut dst = Vec::new();
    let res = b.read_to_end(&mut dst);
    assert!(res.is_ok(), "Error reading from block");
    assert_eq!(res.unwrap(), src.len());
    assert_eq!(dst[0], src[0]);
    assert_eq!(dst[1], src[1]);
    assert_eq!(dst[2], src[2]);
    assert_eq!(dst[3], src[3]);
}

#[test]
fn block_encrypt_decrypt() {
    let mut original_block = Block::new_empty();
    let src = [1, 2, 3, 4];
    let expected_block_cid =
        "baejbeie7mstupynzp4jr7k5wwrdss3e3n4badz47wpctk3tmo7ujw2uani".to_string();
    let res = original_block.write(&src);
    assert!(res.is_ok(), "Error creating block");
    assert_eq!(original_block.cid, expected_block_cid);

    // encrypts content
    let key = b"an example very very secret key.";
    let enc_b = original_block.clone().encrypt(key).unwrap();
    assert_eq!(enc_b.cid, expected_block_cid + "/encrypted");

    // decrypts encrypted block
    let dec_b = enc_b.clone().decrypt(key).unwrap();
    assert_eq!(original_block.cid, dec_b.cid);
    assert_eq!(original_block.data, dec_b.data);
}

#[test]
fn block_read_into_longer_buffer_keeps_tail() {
    let mut b = Block::new_empty();
    b.write(&[7, 8]).unwrap();
    let mut dst = vec![0u8, 0, 9, 9];
    assert_eq!(b.read(&mut dst), Ok(2));
    assert_eq!(dst, vec![7, 8, 9, 9]);
    assert_eq!(b.into_raw(), &[7u8, 8][..]);
}

#[test]
fn block_write_too_large_is_rejected_and_block_unchanged() {
    let mut b = Block::new_empty();
    b.write(&[1, 2, 3, 4]).unwrap();
    let before = b.clone();
    let big = vec![0u8; BLOCK_SIZE + 1];
    assert_eq!(b.write(&big), Err(EnCryptError::InputTooLarge));
    assert_eq!(b.cid, before.cid);
    assert_eq!(b.data, before.data);
    let exact = vec![0u8; BLOCK_SIZE];
    assert_eq!(b.write(&exact), Ok(BLOCK_SIZE));
    assert_eq!(b.data.len(), BLOCK_SIZE);
}

#[test]
fn block_write_limited_uses_given_size() {
    let mut b = Block::new_empty();
    assert_eq!(b.write_limited(&[1, 2, 3], 2), Err(EnCryptError::InputTooLarge));
    assert_eq!(b.write_limited(&[1, 2], 2), Ok(2));
}

#[test]
fn block_link_is_carried_through_encryption() {
    let mut b = Block::new_empty();
    b.write(&[5; 10]).unwrap();
    b.next = Some("next-block".to_string());
    let key = b"an example very very secret key.";
    let enc = b.clone().encrypt(key).unwrap();
    assert_eq!(enc.next, Some("next-block".to_string()));
    assert_eq!(enc.data.len(), 10 + 16);
    assert_ne!(enc.data[..10].to_vec(), b.data);
    let dec = enc.decrypt(key).unwrap();
    assert_eq!(dec.next, Some("next-block".to_string()));
    assert_eq!(dec.data, b.data);
}

#[test]
fn block_encryption_is_convergent() {
    let key = b"an example very very secret key.";
    let mut a = Block::new_empty();
    a.write(&[1, 2, 3]).unwrap();
    let mut b = Block::new_empty();
    b.write(&[1, 2, 3]).unwrap();
    let ea = a.encrypt(key).unwrap();
    let eb = b.encrypt(key).unwrap();
    assert_eq!(ea.data, eb.data);
    assert_eq!(ea.cid, eb.cid);
}

#[test]
fn block_errors() {
    let key = b"an example very very secret key.";
    // no identifier to derive a nonce from
    assert!(matches!(
        Block::new_empty().encrypt(key),
        Err(EnCryptError::AddressingError)
    ));
    let mut b = Block::new_empty();
    b.write(&[1]).unwrap();
    assert!(matches!(b.clone().decrypt(key), Err(EnCryptError::WrongState)));
    let enc = b.encrypt(key).unwrap();
    assert!(matches!(enc.clone().encrypt(key), Err(EnCryptError::WrongState)));
    let wrong = b"another example very secret key.";
    assert!(matches!(
        enc.decrypt(wrong),
        Err(EnCryptError::AuthenticationFailure)
    ));
}

#[test]
fn block_tampered_payload_is_rejected() {
    let key = b"an example very very secret key.";
    let mut b = Block::new_empty();
    b.write(&[9; 40]).unwrap();
    let enc = b.encrypt(key).unwrap();
    for i in 0..enc.data.len() {
        for bit in 0..8 {
            let mut t = enc.clone();
            t.data[i] ^= 1 << bit;
            assert!(matches!(
                t.decrypt(key),
                Err(EnCryptError::AuthenticationFailure)
            ));
        }
    }
}
