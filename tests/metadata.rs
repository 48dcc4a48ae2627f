use en_crypt::error::EnCryptError;
use en_crypt::metadata::{Match, Metadata, Tags};

fn hello_world() -> Tags {
    Tags {
        values: vec!["hello".to_string(), "world".to_string()],
    }
}

#[test]
fn constructor() {
    let tags = hello_world();

    let expected_tags = br#"{"values":["hello","world"]}"#.to_vec();
    let expected_cid =
        "baejbeibftkdybljjeqmqwdvk2wolyyjvnrfi5zjfgbgcu2u27chuvqc3xq".to_string();

    let m = Metadata::new(tags).unwrap();

    assert_eq!(expected_cid, m.cid);
    assert_eq!(expected_tags, m.encoded_tags);
}

#[test]
fn metadata_match() {
    let tags = hello_world();

    let meta = Metadata::new(tags).unwrap();

    assert!(meta.query("hello".to_string()).unwrap() == true);
    assert!(meta.query("world".to_string()).unwrap() == true);
    assert!(meta.query("moon".to_string()).unwrap() == false);
}

#[test]
fn encrypt_decrypt() {
    let tags = hello_world();
    let meta = Metadata::new(tags).unwrap();

    let key = b"hello darkness my good ol friend";
    let encrypted_meta = meta.clone().encrypt(key).unwrap();

    assert_eq!(meta.cid.clone() + &"/encrypted", encrypted_meta.cid);
    assert_ne!(meta.encoded_tags, encrypted_meta.encoded_tags);

    let decrypted_meta = encrypted_meta.decrypt(key).unwrap();

    assert_eq!(meta.cid, decrypted_meta.cid);
    assert_eq!(meta.encoded_tags, decrypted_meta.encoded_tags);
}

#[test]
fn tag_matching_a_b() {
    let meta = Metadata::new(Tags {
        values: vec!["a".to_string(), "b".to_string()],
    })
    .unwrap();
    assert_eq!(meta.query("a".to_string()), Ok(true));
    assert_eq!(meta.query("b".to_string()), Ok(true));
    assert_eq!(meta.query("c".to_string()), Ok(false));
}

#[test]
fn tag_matching_is_exact() {
    let meta = Metadata::new(Tags {
        values: vec!["hello".to_string()],
    })
    .unwrap();
    assert_eq!(meta.query("hell".to_string()), Ok(false));
    assert_eq!(meta.query("hello ".to_string()), Ok(false));
    assert_eq!(meta.query("".to_string()), Ok(false));
}

#[test]
fn empty_tag_set_matches_nothing() {
    let meta = Metadata::new(Tags { values: vec![] }).unwrap();
    assert_eq!(meta.encoded_tags, br#"{"values":[]}"#.to_vec());
    assert_eq!(meta.query("a".to_string()), Ok(false));
}

#[test]
fn tags_with_quotes_round_trip() {
    let meta = Metadata::new(Tags {
        values: vec!["say \"hi\"".to_string(), "x\\y".to_string()],
    })
    .unwrap();
    assert_eq!(meta.query("say \"hi\"".to_string()), Ok(true));
    assert_eq!(meta.query("x\\y".to_string()), Ok(true));
}

#[test]
fn query_on_malformed_tags_is_decode_error() {
    let meta = Metadata {
        cid: "x".to_string(),
        encoded_tags: b"not json".to_vec(),
    };
    assert_eq!(meta.query("a".to_string()), Err(EnCryptError::DecodeError));
    let framed_garbage = Metadata {
        cid: "x".to_string(),
        encoded_tags: br#"{"values":[1,2]}"#.to_vec(),
    };
    assert_eq!(
        framed_garbage.query("a".to_string()),
        Err(EnCryptError::DecodeError)
    );
}

#[test]
fn metadata_encrypted_query_is_decode_error() {
    let meta = Metadata::new(hello_world()).unwrap();
    let enc = meta.encrypt(b"hello darkness my good ol friend").unwrap();
    assert_eq!(enc.query("hello".to_string()), Err(EnCryptError::DecodeError));
}

#[test]
fn metadata_wrong_key_is_authentication_failure() {
    let meta = Metadata::new(hello_world()).unwrap();
    let enc = meta.encrypt(b"hello darkness my good ol friend").unwrap();
    let res = enc.decrypt(b"hello darkness my good ol frienD");
    assert!(matches!(res, Err(EnCryptError::AuthenticationFailure)));
}

#[test]
fn metadata_state_errors() {
    let meta = Metadata::new(hello_world()).unwrap();
    let key = b"hello darkness my good ol friend";
    assert!(matches!(
        meta.clone().decrypt(key),
        Err(EnCryptError::WrongState)
    ));
    let enc = meta.encrypt(key).unwrap();
    assert!(matches!(enc.encrypt(key), Err(EnCryptError::WrongState)));
}

#[test]
fn tag_set_is_encoded_canonically() {
    let a = Metadata::new(Tags {
        values: vec!["world".to_string(), "hello".to_string(), "hello".to_string()],
    })
    .unwrap();
    let b = Metadata::new(hello_world()).unwrap();
    assert_eq!(a.encoded_tags, br#"{"values":["hello","world"]}"#.to_vec());
    assert_eq!(a.cid, b.cid);
    assert_eq!(a.query("hello".to_string()), Ok(true));
}

#[test]
fn tag_order_is_by_code_point() {
    let m = Metadata::new(Tags {
        values: vec![
            "b".to_string(),
            "é".to_string(),
            "B".to_string(),
            "ab".to_string(),
            "a".to_string(),
        ],
    })
    .unwrap();
    assert_eq!(
        m.encoded_tags,
        r#"{"values":["B","a","ab","b","é"]}"#.as_bytes().to_vec()
    );
}

#[test]
fn sealed_tags_are_tag_length_longer() {
    let meta = Metadata::new(hello_world()).unwrap();
    let enc = meta.clone().encrypt(b"hello darkness my good ol friend").unwrap();
    assert_eq!(enc.encoded_tags.len(), meta.encoded_tags.len() + 16);
}
