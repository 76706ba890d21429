use corepipe::capture::{
    check_magic, close_token, decode_hex_pairs, open_token, Capture, CaptureError, CaptureState,
    MagicVerdict,
};
use corepipe::scanner::{Tokker, TokkerPollResult};

#[test]
fn marker_text() {
    assert_eq!(open_token(), b"@COREDUMP\n".to_vec());
    assert_eq!(close_token(), b"@ENDCOREDUMP".to_vec());
}

#[test]
fn scenario_token_across_three_pushes() {
    // pushing "abcd@CORE", "DUMP\n", "foo" yields plain "abcd", the opening
    // token, then plain "foo"
    let mut stream = Tokker::new(vec![b"@COREDUMP\n".to_vec(), b"@FOO".to_vec()]);
    stream.push(b"abcd@CORE");
    assert_eq!(TokkerPollResult::Data(b"abcd".to_vec()), stream.poll());
    assert_eq!(TokkerPollResult::NoData, stream.poll());
    stream.push(b"DUMP\n");
    assert_eq!(TokkerPollResult::Token(b"@COREDUMP\n".to_vec()), stream.poll());
    assert_eq!(TokkerPollResult::NoData, stream.poll());
    stream.push(b"foo");
    assert_eq!(TokkerPollResult::Data(b"foo".to_vec()), stream.poll());
    assert_eq!(TokkerPollResult::NoData, stream.poll());
}

#[test]
fn hex_text_fills_accumulator() {
    let mut c = Capture::new();
    assert_eq!(c.current_state(), CaptureState::Waiting);
    c.on_token(b"@COREDUMP\n");
    assert_eq!(c.current_state(), CaptureState::Receiving);
    assert_eq!(c.on_data(b"7f454c46"), Ok(false));
    assert_eq!(c.accumulator().clone(), vec![0x7f, 0x45, 0x4c, 0x46]);
    assert_eq!(c.leftover_digit(), None);
}

#[test]
fn odd_length_span_pushes_back_half_byte() {
    let mut c = Capture::new();
    c.on_token(b"@COREDUMP\n");
    assert_eq!(c.on_data(b"7f4"), Ok(false));
    assert_eq!(c.accumulator().clone(), vec![0x7f]);
    assert_eq!(c.leftover_digit(), Some(b'4'));
    assert_eq!(c.on_data(b"5"), Ok(false));
    assert_eq!(c.accumulator().clone(), vec![0x7f, 0x45]);
    assert_eq!(c.leftover_digit(), None);
}

#[test]
fn hex_decode_is_case_insensitive() {
    assert_eq!(decode_hex_pairs(&b"4C".to_vec()), Ok((vec![0x4c], None)));
    assert_eq!(decode_hex_pairs(&b"4c".to_vec()), Ok((vec![0x4c], None)));
    assert_eq!(decode_hex_pairs(&b"aB".to_vec()), Ok((vec![0xab], None)));
}

#[test]
fn hex_decode_exact_values() {
    assert_eq!(decode_hex_pairs(&b"".to_vec()), Ok((vec![], None)));
    assert_eq!(decode_hex_pairs(&b"7".to_vec()), Ok((vec![], Some(b'7'))));
    assert_eq!(decode_hex_pairs(&b"00ff10".to_vec()), Ok((vec![0x00, 0xff, 0x10], None)));
    assert_eq!(
        decode_hex_pairs(&b"0102030".to_vec()),
        Ok((vec![0x01, 0x02, 0x03], Some(b'0')))
    );
}

#[test]
fn invalid_hex_digit_aborts_capture() {
    assert_eq!(
        decode_hex_pairs(&b"7g".to_vec()),
        Err(CaptureError::InvalidHexDigit)
    );
    let mut c = Capture::new();
    c.on_token(b"@COREDUMP\n");
    assert_eq!(c.on_data(b"zz"), Err(CaptureError::InvalidHexDigit));
    assert_eq!(c.current_state(), CaptureState::Idle);
    // the terminal state discards further input
    assert_eq!(c.on_data(b"7f"), Ok(false));
    assert_eq!(c.accumulator().clone(), Vec::<u8>::new());
}

#[test]
fn magic_signature_check() {
    assert_eq!(check_magic(&vec![0x7f, 0x45, 0x4c]), MagicVerdict::Valid);
    assert_eq!(check_magic(&vec![0x7f, 0x45, 0x4c, 0x46, 0x99]), MagicVerdict::Valid);
    assert_eq!(check_magic(&vec![0x7f, 0x45, 0x4d]), MagicVerdict::Corrupted);
    assert_eq!(check_magic(&vec![0x00, 0x45, 0x4c]), MagicVerdict::Corrupted);
    assert_eq!(check_magic(&vec![0x7f]), MagicVerdict::Corrupted);
    assert_eq!(check_magic(&Vec::new()), MagicVerdict::EmptyCapture);
}

#[test]
fn full_session_hands_out_accumulator_once() {
    let mut c = Capture::new();
    assert_eq!(c.on_data(b"boot log"), Ok(true));
    c.on_token(b"@COREDUMP\n");
    assert_eq!(c.on_data(b"7f454c46"), Ok(false));
    c.on_token(b"@ENDCOREDUMP");
    assert_eq!(c.current_state(), CaptureState::Done);
    let (bytes, verdict) = c.finish().unwrap();
    assert_eq!(bytes, vec![0x7f, 0x45, 0x4c, 0x46]);
    assert_eq!(verdict, MagicVerdict::Valid);
    assert_eq!(c.current_state(), CaptureState::Idle);
    // one-shot: a second finish hands out nothing
    assert_eq!(c.finish(), None);
    assert_eq!(c.on_data(b"more"), Ok(false));
}

#[test]
fn empty_capture_is_a_distinct_anomaly() {
    let mut c = Capture::new();
    c.on_token(b"@COREDUMP\n");
    c.on_token(b"@ENDCOREDUMP");
    let (bytes, verdict) = c.finish().unwrap();
    assert_eq!(bytes, Vec::<u8>::new());
    assert_eq!(verdict, MagicVerdict::EmptyCapture);
}

#[test]
fn corrupted_capture_is_still_handed_out() {
    let mut c = Capture::new();
    c.on_token(b"@COREDUMP\n");
    assert_eq!(c.on_data(b"deadbeef"), Ok(false));
    c.on_token(b"@ENDCOREDUMP");
    let (bytes, verdict) = c.finish().unwrap();
    assert_eq!(bytes, vec![0xde, 0xad, 0xbe, 0xef]);
    assert_eq!(verdict, MagicVerdict::Corrupted);
}

#[test]
fn unrelated_tokens_change_nothing() {
    let mut c = Capture::new();
    // the closing marker while waiting is not a transition
    c.on_token(b"@ENDCOREDUMP");
    assert_eq!(c.current_state(), CaptureState::Waiting);
    c.on_token(b"@COREDUMP\n");
    assert_eq!(c.current_state(), CaptureState::Receiving);
    // the opening marker again while receiving is not a transition
    c.on_token(b"@COREDUMP\n");
    assert_eq!(c.current_state(), CaptureState::Receiving);
    assert_eq!(c.finish(), None);
}
