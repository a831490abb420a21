use age_stream::cooperative::PollStatus;
use age_stream::stream::{PayloadKey, Stream};
use age_stream::CHUNK_SIZE;

/// Drives the cooperative writer: delivers any in-flight ciphertext into
/// `sink`, `cap` bytes at a time (everything at once when `cap` is 0).
fn deliver(w: &mut age_stream::cooperative::PollStreamWriter, sink: &mut Vec<u8>, cap: usize) {
    while let Some(bytes) = w.pending_chunk() {
        let n = if cap == 0 || cap > bytes.len() { bytes.len() } else { cap };
        sink.extend_from_slice(&bytes[..n]);
        w.flush_progress(n);
    }
}

fn stream_async_round_trip_with(data: &[u8], cap: usize) {
    let mut encrypted = vec![];
    {
        let mut w = Stream::encrypt_async(PayloadKey::new([7; 32]));

        let mut tmp = data;
        loop {
            deliver(&mut w, &mut encrypted, cap);
            match w.poll_write(tmp).unwrap() {
                PollStatus::Pending => continue,
                PollStatus::Ready(0) => break,
                PollStatus::Ready(written) => tmp = &tmp[written..],
            }
        }
        loop {
            deliver(&mut w, &mut encrypted, cap);
            match w.poll_close().unwrap() {
                PollStatus::Pending => continue,
                PollStatus::Ready(_) => break,
            }
        }
    };

    let decrypted = {
        let mut buf = vec![];
        let mut r = Stream::decrypt(PayloadKey::new([7; 32]), encrypted);
        r.read_to_end(&mut buf).unwrap();
        buf
    };

    assert_eq!(decrypted, data);
}

fn stream_async_round_trip(data: &[u8]) {
    stream_async_round_trip_with(data, 0);
}

#[test]
fn stream_async_round_trip_short() {
    stream_async_round_trip(&vec![42; 1024]);
}

#[test]
fn stream_async_round_trip_chunk() {
    stream_async_round_trip(&vec![42; CHUNK_SIZE]);
}

#[test]
fn stream_async_round_trip_long() {
    stream_async_round_trip(&vec![42; 100 * 1024]);
}

#[test]
fn stream_async_round_trip_empty() {
    stream_async_round_trip(&[]);
}

#[test]
fn stream_async_partial_flushes() {
    // The sink accepts only 1000 bytes per attempt: chunks stay in flight
    // across several deliveries before the writer proceeds.
    let data: Vec<u8> = (0..(CHUNK_SIZE + 12345)).map(|i| i as u8).collect();
    stream_async_round_trip_with(&data, 1000);
}
