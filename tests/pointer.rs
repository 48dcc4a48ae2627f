use en_crypt::address::identify;
use en_crypt::aead::key_from_bytes;
use en_crypt::block::BLOCK_SIZE;
use en_crypt::error::EnCryptError;
use en_crypt::pointer::Pointer;

fn read_all(p: &Pointer) -> Vec<u8> {
    let mut out = Vec::new();
    p.read_to_end(&mut out).unwrap();
    out
}

fn sample(len: usize) -> Vec<u8> {
    (0..len).map(|i| (i * 31 % 251) as u8).collect()
}

#[test]
fn pointer_constructor() {
    let synthetic_data = [1_u8; BLOCK_SIZE + 1];
    let expected_ptr_cid =
        "baejbeidf3xehfzoocgwqaddxr64ggxzuh5yucgzpzhgv772z4ws552kui4".to_string();

    let p = Pointer::from(&synthetic_data).unwrap();
    assert_eq!(p.cid(), expected_ptr_cid);
    assert_eq!(p.blocks_len(), 2);
}

#[test]
fn pointer_read() {
    let synthetic_data = [1_u8; BLOCK_SIZE + 1];
    let expected_ptr_cid =
        "baejbeidf3xehfzoocgwqaddxr64ggxzuh5yucgzpzhgv772z4ws552kui4".to_string();
    let expected_total_bytes = BLOCK_SIZE + 1;

    let p = Pointer::from(&synthetic_data).unwrap();
    assert_eq!(p.cid(), expected_ptr_cid);
    assert_eq!(p.blocks_len(), 2);

    let mut dst_vec: Vec<u8> = vec![];
    let bytes = p.read_to_end(&mut dst_vec).unwrap();

    assert_eq!(bytes, expected_total_bytes);
    assert_eq!(dst_vec.len(), expected_total_bytes);
}

#[test]
fn concrete_2055_bytes_scenario() {
    let data = sample(2055);
    let p = Pointer::from(&data).unwrap();
    assert_eq!(p.blocks_len(), 2);
    assert_eq!(p.0.blocks[0].data.len(), 2048);
    assert_eq!(p.0.blocks[1].data.len(), 7);
    assert_eq!(p.0.head_block, Some(p.0.blocks[0].cid.clone()));
    assert_eq!(p.metadata(), &[0u8][..]);

    let key = b"hello darkness my good ol friend";
    let enc = p.clone().encrypt(key).unwrap();
    assert_eq!(enc.blocks_len(), p.blocks_len());
    assert_eq!(enc.cid(), format!("{}/encrypted", p.cid()));
    assert_eq!(enc.0.head_block, p.0.head_block);
    let dec = enc.decrypt(key).unwrap();
    assert_eq!(dec.blocks_len(), 2);
    assert_eq!(dec.cid(), p.cid());
    assert_eq!(read_all(&dec), data);
}

#[test]
fn round_trip_various_lengths() {
    let key = b"an example very very secret key.";
    for len in [0usize, 1, 2047, 2048, 2049, 4096, 5000] {
        let data = sample(len);
        let p = Pointer::from(&data).unwrap();
        let enc = p.encrypt(key).unwrap();
        let dec = enc.decrypt(key).unwrap();
        assert_eq!(read_all(&dec), data);
    }
}

#[test]
fn chunking_counts_and_lengths() {
    for (len, size) in [(0usize, 3usize), (1, 3), (3, 3), (7, 3), (9, 3), (10, 4), (5, 1)] {
        let data = sample(len);
        let p = Pointer::from_sized(&data, size).unwrap();
        let n = (len + size - 1) / size;
        assert_eq!(p.blocks_len(), n);
        for (i, b) in p.0.blocks.iter().enumerate() {
            if i + 1 < n {
                assert_eq!(b.data.len(), size);
            } else {
                let last = if len % size == 0 { size } else { len % size };
                assert_eq!(b.data.len(), last);
            }
            assert_eq!(b.next, None);
        }
        assert_eq!(read_all(&p), data);
    }
}

#[test]
fn empty_input_has_no_blocks_and_no_head() {
    let p = Pointer::from(&[]).unwrap();
    assert_eq!(p.blocks_len(), 0);
    assert_eq!(p.0.head_block, None);
    assert_eq!(read_all(&p), Vec::<u8>::new());
}

#[test]
fn construction_is_deterministic() {
    let data = sample(3000);
    let a = Pointer::from(&data).unwrap();
    let b = Pointer::from(&data).unwrap();
    assert_eq!(a.cid(), b.cid());
    assert_eq!(a.0.head_block, b.0.head_block);
}

#[test]
fn wrapper_identifier_is_over_block_identifiers() {
    let data = sample(5000);
    let p = Pointer::from(&data).unwrap();
    let mut ids = Vec::new();
    for b in &p.0.blocks {
        ids.extend_from_slice(b.cid.as_bytes());
        assert_eq!(b.cid, identify(&b.data).unwrap());
    }
    assert_eq!(p.cid(), identify(&ids).unwrap());
    assert_ne!(p.cid(), identify(&data).unwrap());
}

#[test]
fn block_order_changes_identifier() {
    let mut data = vec![1u8; 4];
    data.extend_from_slice(&[2u8; 4]);
    let mut swapped = vec![2u8; 4];
    swapped.extend_from_slice(&[1u8; 4]);
    let a = Pointer::from_sized(&data, 4).unwrap();
    let b = Pointer::from_sized(&swapped, 4).unwrap();
    assert_ne!(a.cid(), b.cid());
}

#[test]
fn identify_is_deterministic() {
    let data = sample(100);
    assert_eq!(identify(&data).unwrap(), identify(&data).unwrap());
    assert_eq!(
        identify(&[1, 2, 3, 4]).unwrap(),
        "baejbeie7mstupynzp4jr7k5wwrdss3e3n4badz47wpctk3tmo7ujw2uani"
    );
    assert_eq!(identify(&[]).unwrap().len(), 59);
}

#[test]
fn identify_has_no_collisions_on_sample() {
    let mut seen = std::collections::HashSet::new();
    for i in 0u32..2000 {
        let input = i.to_le_bytes().to_vec();
        assert!(seen.insert(identify(&input).unwrap()));
    }
}

#[test]
fn wrong_key_is_rejected() {
    let data = sample(3000);
    let p = Pointer::from(&data).unwrap();
    let enc = p.encrypt(b"an example very very secret key.").unwrap();
    let res = enc.decrypt(b"an example very very secret kez.");
    assert!(matches!(res, Err(EnCryptError::AuthenticationFailure)));
}

#[test]
fn tampered_block_is_rejected() {
    let key = b"an example very very secret key.";
    let data = sample(3000);
    let enc = Pointer::from(&data).unwrap().encrypt(key).unwrap();
    for (blk, byte, bit) in [(0usize, 0usize, 0u8), (0, 100, 3), (1, 5, 7), (1, 951, 1)] {
        let mut t = enc.clone();
        t.0.blocks[blk].data[byte] ^= 1 << bit;
        assert!(matches!(
            t.decrypt(key),
            Err(EnCryptError::AuthenticationFailure)
        ));
    }
    let mut t = enc.clone();
    t.0.metadata[0] ^= 1;
    assert!(matches!(
        t.decrypt(key),
        Err(EnCryptError::AuthenticationFailure)
    ));
}

#[test]
fn state_errors() {
    let key = b"an example very very secret key.";
    let p = Pointer::from(&sample(10)).unwrap();
    assert!(matches!(p.clone().decrypt(key), Err(EnCryptError::WrongState)));
    let enc = p.encrypt(key).unwrap();
    let mut out = vec![42u8];
    assert_eq!(enc.read_to_end(&mut out), Err(EnCryptError::WrongState));
    assert_eq!(out, vec![42u8]);
    assert!(matches!(enc.encrypt(key), Err(EnCryptError::WrongState)));
}

#[test]
fn encrypting_leaves_original_untouched() {
    let data = sample(2100);
    let p = Pointer::from(&data).unwrap();
    let enc = p.clone().encrypt(b"an example very very secret key.").unwrap();
    assert_eq!(read_all(&p), data);
    assert_ne!(enc.0.blocks[0].data[..2048].to_vec(), p.0.blocks[0].data);
    assert_eq!(enc.0.blocks[1].data.len(), 52 + 16);
}

#[test]
fn keys_must_have_exact_length() {
    assert_eq!(key_from_bytes(&[0u8; 31]), Err(EnCryptError::KeyLengthError));
    assert_eq!(key_from_bytes(&[0u8; 33]), Err(EnCryptError::KeyLengthError));
    assert_eq!(key_from_bytes(b""), Err(EnCryptError::KeyLengthError));
    let k = key_from_bytes(b"hello darkness my good ol friend").unwrap();
    assert_eq!(&k, b"hello darkness my good ol friend");
}
