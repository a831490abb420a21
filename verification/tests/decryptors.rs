use age_stream::decryptor::{
    BaseDecryptor, FileKey, Header, OtherStanza, PassphraseDecryptor, RecipientStanza,
    RecipientsDecryptor, ScryptStanza,
};
use age_stream::errors::Error;
use age_stream::stream::Stream;

fn other_stanza() -> RecipientStanza {
    RecipientStanza::Other(OtherStanza {
        tag: b"X25519".to_vec(),
        args: vec![b"ephemeral".to_vec()],
        body: vec![0xAA; 32],
    })
}

fn scrypt_stanza(log_n: u8) -> RecipientStanza {
    RecipientStanza::Scrypt(ScryptStanza { salt: vec![0x55; 16], log_n, body: vec![0xBB; 32] })
}

fn header(stanzas: Vec<RecipientStanza>) -> Header {
    Header { recipients: stanzas }
}

/// Encrypts `data` under the payload key that the given outcomes resolve
/// to, so a decryptor with the same header, nonce and outcomes can read it.
fn encrypt_for(
    stanzas: Vec<RecipientStanza>,
    nonce: [u8; 16],
    outcomes: &Vec<Option<Result<FileKey, Error>>>,
    data: &[u8],
) -> Vec<u8> {
    let base = BaseDecryptor::new(Vec::new(), header(stanzas), nonce);
    let payload_key = base.obtain_payload_key(outcomes).unwrap();
    let mut w = Stream::encrypt(payload_key, Vec::new());
    w.write_all(data).unwrap();
    w.finish().unwrap()
}

#[test]
fn recipients_first_match_decrypts() {
    let data = b"a secret worth keeping".to_vec();
    let nonce = [9u8; 16];
    let outcomes = vec![None, Some(Ok(FileKey::new([3; 16])))];

    let payload = encrypt_for(vec![other_stanza(), other_stanza()], nonce, &outcomes, &data);

    let d = RecipientsDecryptor::new(payload, header(vec![other_stanza(), other_stanza()]), nonce);
    let mut r = d.decrypt(&outcomes).unwrap();
    let mut buf = vec![];
    r.read_to_end(&mut buf).unwrap();
    assert_eq!(buf, data);
}

#[test]
fn recipients_no_matching_keys() {
    let d = RecipientsDecryptor::new(
        Vec::new(),
        header(vec![other_stanza(), other_stanza()]),
        [0u8; 16],
    );
    let outcomes = vec![None, None];
    assert!(matches!(d.decrypt(&outcomes), Err(Error::NoMatchingKeys)));
}

#[test]
fn recipients_unwrap_error_passes_through() {
    let d = RecipientsDecryptor::new(Vec::new(), header(vec![other_stanza()]), [0u8; 16]);
    let outcomes = vec![Some(Err(Error::ExcessiveWork { required: 1, maximum: 0 }))];
    assert!(matches!(
        d.decrypt(&outcomes),
        Err(Error::ExcessiveWork { required: 1, maximum: 0 })
    ));
}

#[test]
fn decrypt_with_callbacks_matches_decrypt() {
    let data = b"same either way".to_vec();
    let nonce = [4u8; 16];
    let outcomes = vec![Some(Ok(FileKey::new([8; 16])))];
    let payload = encrypt_for(vec![other_stanza()], nonce, &outcomes, &data);

    let d = RecipientsDecryptor::new(payload, header(vec![other_stanza()]), nonce);
    let mut r = d.decrypt_with_callbacks(&outcomes).unwrap();
    let mut buf = vec![];
    r.read_to_end(&mut buf).unwrap();
    assert_eq!(buf, data);
}

#[test]
fn key_derivation_binds_the_header_nonce() {
    let data = b"bound to the header".to_vec();
    let outcomes = vec![Some(Ok(FileKey::new([8; 16])))];
    let payload = encrypt_for(vec![other_stanza()], [1u8; 16], &outcomes, &data);

    // Same outcomes, different header nonce: the derived key differs and
    // the first chunk fails to decrypt.
    let d = RecipientsDecryptor::new(payload, header(vec![other_stanza()]), [2u8; 16]);
    let mut r = d.decrypt(&outcomes).unwrap();
    let mut buf = vec![];
    assert!(r.read_to_end(&mut buf).is_err());
}

#[test]
fn passphrase_rejects_excessive_work_factor() {
    // Default ceiling.
    let d = PassphraseDecryptor::new(Vec::new(), header(vec![scrypt_stanza(23)]), [0u8; 16]);
    let attempts = vec![None];
    assert!(matches!(
        d.decrypt(&attempts, None),
        Err(Error::ExcessiveWork { required: 23, maximum: 22 })
    ));

    // Explicit ceiling.
    let d = PassphraseDecryptor::new(Vec::new(), header(vec![scrypt_stanza(15)]), [0u8; 16]);
    let attempts = vec![None];
    assert!(matches!(
        d.decrypt(&attempts, Some(10)),
        Err(Error::ExcessiveWork { required: 15, maximum: 10 })
    ));
}

#[test]
fn passphrase_decrypts_within_ceiling() {
    let data = b"passphrase protected".to_vec();
    let nonce = [6u8; 16];
    let key_outcomes = vec![Some(Ok(FileKey::new([5; 16])))];
    let payload = encrypt_for(vec![scrypt_stanza(18)], nonce, &key_outcomes, &data);

    let d = PassphraseDecryptor::new(payload, header(vec![scrypt_stanza(18)]), nonce);
    let attempts = vec![Some(FileKey::new([5; 16]))];
    let mut r = d.decrypt(&attempts, None).unwrap();
    let mut buf = vec![];
    r.read_to_end(&mut buf).unwrap();
    assert_eq!(buf, data);
}

#[test]
fn passphrase_skips_other_stanzas() {
    let data = b"second stanza wins".to_vec();
    let nonce = [7u8; 16];
    let key_outcomes = vec![None, Some(Ok(FileKey::new([2; 16])))];
    let payload = encrypt_for(
        vec![other_stanza(), scrypt_stanza(12)],
        nonce,
        &key_outcomes,
        &data,
    );

    let d = PassphraseDecryptor::new(
        payload,
        header(vec![other_stanza(), scrypt_stanza(12)]),
        nonce,
    );
    let attempts = vec![None, Some(FileKey::new([2; 16]))];
    let mut r = d.decrypt(&attempts, None).unwrap();
    let mut buf = vec![];
    r.read_to_end(&mut buf).unwrap();
    assert_eq!(buf, data);
}

#[test]
fn passphrase_no_scrypt_stanza_means_no_matching_key() {
    let d = PassphraseDecryptor::new(Vec::new(), header(vec![other_stanza()]), [0u8; 16]);
    let attempts = vec![None];
    assert!(matches!(d.decrypt(&attempts, None), Err(Error::NoMatchingKeys)));
}
