use corepipe::decoder::Utf8Fixer;

#[test]
fn test0_utf() {
    let mut v = Utf8Fixer::new();

    v.push(&[240, 159, 146, 150]);
    assert!(v.poll() == &[240, 159, 146, 150]);

    v.push(&[240]);
    assert!(v.poll() == &[]);
    v.push(&[159, 146, 150]);
    assert!(v.poll() == &[240, 159, 146, 150]);

    v.push(&[240]);
    assert!(v.poll() == &[]);
    v.push(&[159]);
    assert!(v.poll() == &[]);
    v.push(&[146]);
    assert!(v.poll() == &[]);
    v.push(&[150]);

    assert!(v.poll() == &[240, 159, 146, 150]);
}

#[test]
fn test1_utf() {
    let mut v = Utf8Fixer::new();

    v.push(&[159, 146, 150]);
    assert!(v.poll() == &[]);

    v.push(b"Hello World");
    assert!(v.poll() == b"Hello World");
    assert!(v.poll() == &[]);
    assert!(v.poll() == &[]);
    assert!(v.poll() == &[]);
}

#[test]
fn ascii_and_two_byte_sequence_split() {
    // 'H' followed by a two-byte sequence cut between its bytes
    let mut v = Utf8Fixer::new();
    v.push(&[72, 195]);
    assert!(v.poll() == &[72]);
    v.push(&[169]);
    assert!(v.poll() == &[195, 169]);
    assert!(v.poll() == &[]);
}

#[test]
fn round_trip_at_every_split_point() {
    // the emitted bytes always concatenate back to the pushed stream
    let stream: &[u8] = &[72, 105, 195, 169, 240, 159, 146, 150, 33];
    for cut in 0..=stream.len() {
        let mut v = Utf8Fixer::new();
        let mut out: Vec<u8> = Vec::new();
        v.push(&stream[..cut]);
        out.extend_from_slice(&v.poll());
        v.push(&stream[cut..]);
        out.extend_from_slice(&v.poll());
        assert_eq!(out, stream.to_vec());
    }
}

#[test]
fn incomplete_sequence_held_back_entirely() {
    // a pending buffer that is only an in-progress sequence yields nothing
    let mut v = Utf8Fixer::new();
    v.push(&[240, 159]);
    assert!(v.poll() == &[]);
    assert!(v.poll() == &[]);
    v.push(&[146, 150]);
    assert!(v.poll() == &[240, 159, 146, 150]);
}

#[test]
fn empty_pending_buffer_yields_empty() {
    let mut v = Utf8Fixer::new();
    assert!(v.poll() == &[]);
    v.push(&[]);
    assert!(v.poll() == &[]);
}
