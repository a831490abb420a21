use age_stream::errors::StreamError;
use age_stream::nonce::aead_nonce;
use age_stream::stream::{PayloadKey, SeekFrom, Stream};
use age_stream::{CHUNK_SIZE, COUNTER_MAX, ENCRYPTED_CHUNK_SIZE, TAG_SIZE};

#[test]
fn chunk_round_trip() {
    let data = vec![42u8; CHUNK_SIZE];

    let mut encrypted = data.clone();
    {
        let s = Stream::new(PayloadKey::new([7; 32]));
        s.encrypt_in_place(0, false, &mut encrypted).unwrap();
    }

    let mut decrypted = encrypted.clone();
    {
        let s = Stream::new(PayloadKey::new([7; 32]));
        s.decrypt_in_place(0, false, &mut decrypted).unwrap();
    }

    assert_eq!(&decrypted, &data);
}

fn stream_round_trip(data: &[u8]) {
    let encrypted = {
        let mut w = Stream::encrypt(PayloadKey::new([7; 32]), Vec::new());
        w.write_all(data).unwrap();
        w.finish().unwrap()
    };

    let decrypted = {
        let mut buf = vec![];
        let mut r = Stream::decrypt(PayloadKey::new([7; 32]), encrypted);
        r.read_to_end(&mut buf).unwrap();
        buf
    };

    assert_eq!(decrypted, data);
}

#[test]
fn stream_round_trip_short() {
    stream_round_trip(&vec![42; 1024]);
}

#[test]
fn stream_round_trip_chunk() {
    stream_round_trip(&vec![42; CHUNK_SIZE]);
}

#[test]
fn stream_round_trip_long() {
    stream_round_trip(&vec![42; 100 * 1024]);
}

#[test]
fn stream_round_trip_empty() {
    stream_round_trip(&[]);
}

#[test]
fn stream_round_trip_one_byte() {
    stream_round_trip(&[77]);
}

#[test]
fn stream_round_trip_two_chunks_exact() {
    stream_round_trip(&vec![42; 2 * CHUNK_SIZE]);
}

#[test]
fn stream_round_trip_two_chunks_and_a_bit() {
    stream_round_trip(&vec![42; 2 * CHUNK_SIZE + 100]);
}

#[test]
fn ciphertext_layout() {
    // One short final chunk: plaintext plus one tag.
    let mut w = Stream::encrypt(PayloadKey::new([7; 32]), Vec::new());
    w.write_all(&vec![1; 1024]).unwrap();
    let ct = w.finish().unwrap();
    assert_eq!(ct.len(), 1024 + TAG_SIZE);
    // The ciphertext is not the plaintext handed back unchanged.
    assert_ne!(&ct[..1024], &vec![1u8; 1024][..]);

    // A full chunk held back for finish: one full-size wire chunk.
    let mut w = Stream::encrypt(PayloadKey::new([7; 32]), Vec::new());
    w.write_all(&vec![1; CHUNK_SIZE]).unwrap();
    let ct = w.finish().unwrap();
    assert_eq!(ct.len(), ENCRYPTED_CHUNK_SIZE);

    // A chunk and one byte: one full wire chunk plus a 1-byte final chunk.
    let mut w = Stream::encrypt(PayloadKey::new([7; 32]), Vec::new());
    w.write_all(&vec![1; CHUNK_SIZE + 1]).unwrap();
    let ct = w.finish().unwrap();
    assert_eq!(ct.len(), ENCRYPTED_CHUNK_SIZE + 1 + TAG_SIZE);
}

#[test]
fn stream_fails_to_decrypt_truncated_file() {
    let data = vec![42; 2 * CHUNK_SIZE];

    let mut w = Stream::encrypt(PayloadKey::new([7; 32]), Vec::new());
    w.write_all(&data).unwrap();
    // Forget to call w.finish()!
    let encrypted = w.into_inner();
    // Only the one chunk that had to make way for more input was flushed.
    assert_eq!(encrypted.len(), ENCRYPTED_CHUNK_SIZE);

    let mut buf = vec![];
    let mut r = Stream::decrypt(PayloadKey::new([7; 32]), encrypted);
    assert_eq!(r.read_to_end(&mut buf).unwrap_err(), StreamError::UnexpectedEof);
}

#[test]
fn multi_chunk_truncation_detected() {
    let data = vec![17; 3 * CHUNK_SIZE + 10];

    let mut w = Stream::encrypt(PayloadKey::new([7; 32]), Vec::new());
    w.write_all(&data).unwrap();
    let encrypted = w.into_inner();
    assert_eq!(encrypted.len(), 3 * ENCRYPTED_CHUNK_SIZE);

    let mut buf = vec![];
    let mut r = Stream::decrypt(PayloadKey::new([7; 32]), encrypted);
    assert_eq!(r.read_to_end(&mut buf).unwrap_err(), StreamError::UnexpectedEof);
}

#[test]
fn empty_container_is_truncated() {
    let mut buf = vec![];
    let mut r = Stream::decrypt(PayloadKey::new([7; 32]), Vec::new());
    assert_eq!(r.read_to_end(&mut buf).unwrap_err(), StreamError::UnexpectedEof);
}

#[test]
fn stream_seeking() {
    let mut data = vec![0; 100 * 1024];
    for (i, b) in data.iter_mut().enumerate() {
        *b = i as u8;
    }

    let encrypted = {
        let mut w = Stream::encrypt(PayloadKey::new([7; 32]), Vec::new());
        w.write_all(&data).unwrap();
        w.finish().unwrap()
    };

    let mut r = Stream::decrypt(PayloadKey::new([7; 32]), encrypted);

    // Read through into the second chunk
    let mut buf = vec![0; 100];
    for i in 0..700 {
        r.read_exact(&mut buf).unwrap();
        assert_eq!(&buf[..], &data[100 * i..100 * (i + 1)]);
    }

    // Seek back into the first chunk
    r.seek(SeekFrom::Start(250)).unwrap();
    r.read_exact(&mut buf).unwrap();
    assert_eq!(&buf[..], &data[250..350]);

    // Seek forwards within this chunk
    r.seek(SeekFrom::Current(510)).unwrap();
    r.read_exact(&mut buf).unwrap();
    assert_eq!(&buf[..], &data[860..960]);

    // Seek backwards from the end
    r.seek(SeekFrom::End(-1337)).unwrap();
    r.read_exact(&mut buf).unwrap();
    assert_eq!(&buf[..], &data[data.len() - 1337..data.len() - 1237]);
}

#[test]
fn seek_before_start_is_rejected() {
    let encrypted = {
        let mut w = Stream::encrypt(PayloadKey::new([7; 32]), Vec::new());
        w.write_all(&vec![5; 1000]).unwrap();
        w.finish().unwrap()
    };
    let mut r = Stream::decrypt(PayloadKey::new([7; 32]), encrypted);
    assert_eq!(r.seek(SeekFrom::Current(-1)).unwrap_err(), StreamError::InvalidOffset);
    assert_eq!(r.seek(SeekFrom::End(-1001)).unwrap_err(), StreamError::InvalidOffset);
    assert_eq!(r.seek(SeekFrom::End(-1000)).unwrap(), 0);
}

#[test]
fn decrypt_mid_container() {
    let data = vec![9u8; 70000];
    let encrypted = {
        let mut w = Stream::encrypt(PayloadKey::new([7; 32]), Vec::new());
        w.write_all(&data).unwrap();
        w.finish().unwrap()
    };
    // Prepend bytes standing for an already-consumed header.
    let mut container = vec![1, 2, 3, 4, 5];
    let offset = container.len();
    container.extend_from_slice(&encrypted);

    let mut r = Stream::decrypt_at(PayloadKey::new([7; 32]), container, offset);
    let mut buf = vec![];
    r.read_to_end(&mut buf).unwrap();
    assert_eq!(buf, data);

    // Seeking resolves the start position behind the header bytes.
    r.seek(SeekFrom::Start(65000)).unwrap();
    let mut tail = vec![];
    r.read_to_end(&mut tail).unwrap();
    assert_eq!(tail, &data[65000..]);
}

#[test]
fn tampering_is_detected() {
    let data: Vec<u8> = (0..(2 * CHUNK_SIZE + 5000)).map(|i| i as u8).collect();
    let encrypted = {
        let mut w = Stream::encrypt(PayloadKey::new([7; 32]), Vec::new());
        w.write_all(&data).unwrap();
        w.finish().unwrap()
    };

    // A byte in the first chunk's body, one in the second chunk's tag, and
    // one in the short final chunk.
    for &flip in &[10usize, 2 * ENCRYPTED_CHUNK_SIZE - 1, 2 * ENCRYPTED_CHUNK_SIZE + 100] {
        let mut corrupt = encrypted.clone();
        corrupt[flip] ^= 1;
        let mut buf = vec![];
        let mut r = Stream::decrypt(PayloadKey::new([7; 32]), corrupt);
        assert_eq!(r.read_to_end(&mut buf).unwrap_err(), StreamError::InvalidData);
    }
}

#[test]
fn wrong_key_fails() {
    let encrypted = {
        let mut w = Stream::encrypt(PayloadKey::new([7; 32]), Vec::new());
        w.write_all(&vec![3; 500]).unwrap();
        w.finish().unwrap()
    };
    let mut buf = vec![];
    let mut r = Stream::decrypt(PayloadKey::new([8; 32]), encrypted);
    assert_eq!(r.read_to_end(&mut buf).unwrap_err(), StreamError::InvalidData);
}

#[test]
fn nonce_layout() {
    // Counter 0, not the last chunk: all-zero nonce.
    assert_eq!(aead_nonce(0, false).unwrap(), vec![0u8; 12]);
    // Counter 1 (position 256), last chunk: big-endian counter then flag.
    assert_eq!(aead_nonce(256, true).unwrap(), vec![0, 0, 0, 0, 0, 0, 0, 0, 0, 0, 1, 1]);
    // Counter 258 (position 258 * 256), not last.
    assert_eq!(aead_nonce(258 * 256, false).unwrap(), vec![0, 0, 0, 0, 0, 0, 0, 0, 0, 1, 2, 0]);
    // Past the maximum position the counter would wrap: refused.
    assert_eq!(aead_nonce(COUNTER_MAX + 1, false).unwrap_err(), StreamError::CounterOverflow);
    assert_eq!(
        aead_nonce(COUNTER_MAX, true).unwrap(),
        vec![0xff, 0xff, 0xff, 0xff, 0xff, 0xff, 0xff, 0xff, 0xff, 0xff, 0xff, 1]
    );
}

#[test]
fn counter_overflow_is_an_error() {
    let s = Stream::new(PayloadKey::new([7; 32]));
    let mut buf = vec![1, 2, 3];
    assert_eq!(
        s.encrypt_in_place(COUNTER_MAX + 256, false, &mut buf).unwrap_err(),
        StreamError::CounterOverflow
    );
    // The buffer is untouched on that failure.
    assert_eq!(buf, vec![1, 2, 3]);
}
