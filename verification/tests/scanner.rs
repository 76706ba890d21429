use corepipe::scanner::{Tokker, TokkerPollResult};

#[test]
fn test0() {
    let mut stream = Tokker::new(vec![b"@COREDUMP\n".to_vec(), b"@FOO".to_vec()]);

    stream.push(b"diwjeodj wefijweoifj weoifjweiojf owefiojwo");
    assert_eq!(
        TokkerPollResult::Data(b"diwjeodj wefijweoifj weoifjweiojf owefiojwo".to_vec()),
        stream.poll()
    );
    assert_eq!(TokkerPollResult::NoData, stream.poll());
}

#[test]
fn test1() {
    let mut stream = Tokker::new(vec![b"@COREDUMP\n".to_vec(), b"@FOO".to_vec()]);

    stream.push(b"abcd");
    stream.push(b"@CORE");

    assert_eq!(TokkerPollResult::Data(b"abcd".to_vec()), stream.poll());
    assert_eq!(TokkerPollResult::NoData, stream.poll());
    assert_eq!(TokkerPollResult::NoData, stream.poll());
    assert_eq!(TokkerPollResult::NoData, stream.poll());

    stream.push(b"DUMP");
    assert_eq!(TokkerPollResult::NoData, stream.poll());

    stream.push(b"\n");
    assert_eq!(TokkerPollResult::Token(b"@COREDUMP\n".to_vec()), stream.poll());

    stream.push(b"foo");
    assert_eq!(TokkerPollResult::Data(b"foo".to_vec()), stream.poll());
}

#[test]
fn test2() {
    let mut stream = Tokker::new(vec![b"@COREDUMP\n".to_vec(), b"@FOO".to_vec()]);

    stream.push(b"abcd");
    stream.push(b"@CORE");

    assert_eq!(TokkerPollResult::Data(b"abcd".to_vec()), stream.poll());
    assert_eq!(TokkerPollResult::NoData, stream.poll());
    assert_eq!(TokkerPollResult::NoData, stream.poll());
    assert_eq!(TokkerPollResult::NoData, stream.poll());

    stream.push(b"DUMP");
    stream.push(b"\n");
    stream.push(b"foo");

    assert_eq!(TokkerPollResult::Token(b"@COREDUMP\n".to_vec()), stream.poll());
    assert_eq!(TokkerPollResult::Data(b"foo".to_vec()), stream.poll());
}

#[test]
fn test3() {
    let mut stream = Tokker::new(vec![b"@COREDUMP\n".to_vec(), b"@FOO".to_vec()]);

    stream.push(b"abcd");
    stream.push(b"@CORE");

    assert_eq!(TokkerPollResult::Data(b"abcd".to_vec()), stream.poll());
    assert_eq!(TokkerPollResult::NoData, stream.poll());
    assert_eq!(TokkerPollResult::NoData, stream.poll());
    assert_eq!(TokkerPollResult::NoData, stream.poll());

    stream.push(b"abcd");
    assert_eq!(TokkerPollResult::Data(b"@COREabcd".to_vec()), stream.poll());
}

#[test]
fn test4() {
    let mut stream = Tokker::new(vec![b"@COREDUMP\n".to_vec(), b"@FOO".to_vec()]);

    stream.push(
        b"wehdihweuidhweuihduiwehduiwehduiweh@COREDUMP\nabcdwejdjweiodjoiwejdiowejiowjiodjweiojdiowjediwejwd",
    );
    assert_eq!(
        TokkerPollResult::Data(b"wehdihweuidhweuihduiwehduiwehduiweh".to_vec()),
        stream.poll()
    );
    assert_eq!(TokkerPollResult::Token(b"@COREDUMP\n".to_vec()), stream.poll());
    assert_eq!(
        TokkerPollResult::Data(b"abcdwejdjweiodjoiwejdiowejiowjiodjweiojdiowjediwejwd".to_vec()),
        stream.poll()
    );
    assert_eq!(TokkerPollResult::NoData, stream.poll());
}

#[test]
fn test5() {
    let mut stream = Tokker::new(vec![b"@COREDUMP\n".to_vec(), b"@FOO".to_vec()]);

    stream.push(
        b"wehdihweuidhweuihduiwehduiwehduiweh@COREDUMP\nabcdwejdjweiodjoiwejdiowejiowjiodjweiojd@FOOiowjediwejwd",
    );
    assert_eq!(
        TokkerPollResult::Data(b"wehdihweuidhweuihduiwehduiwehduiweh".to_vec()),
        stream.poll()
    );
    assert_eq!(TokkerPollResult::Token(b"@COREDUMP\n".to_vec()), stream.poll());
    assert_eq!(
        TokkerPollResult::Data(b"abcdwejdjweiodjoiwejdiowejiowjiodjweiojd".to_vec()),
        stream.poll()
    );
    assert_eq!(TokkerPollResult::Token(b"@FOO".to_vec()), stream.poll());
    assert_eq!(TokkerPollResult::Data(b"iowjediwejwd".to_vec()), stream.poll());
    assert_eq!(TokkerPollResult::NoData, stream.poll());
}

#[test]
fn test6() {
    let mut stream = Tokker::new(vec![b"@COREDUMP\n".to_vec(), b"@FOO".to_vec()]);

    stream.push(
        b"wehdihweuidhweuihduiwehduiwehduiweh@FOOabcdwejdjweiodjoiwejdiowejiowjiodjweiojd@COREDUMP\niowjediwejwd",
    );
    assert_eq!(
        TokkerPollResult::Data(b"wehdihweuidhweuihduiwehduiwehduiweh".to_vec()),
        stream.poll()
    );
    assert_eq!(TokkerPollResult::Token(b"@FOO".to_vec()), stream.poll());
    assert_eq!(
        TokkerPollResult::Data(b"abcdwejdjweiodjoiwejdiowejiowjiodjweiojd".to_vec()),
        stream.poll()
    );
    assert_eq!(TokkerPollResult::Token(b"@COREDUMP\n".to_vec()), stream.poll());
    assert_eq!(TokkerPollResult::Data(b"iowjediwejwd".to_vec()), stream.poll());
    assert_eq!(TokkerPollResult::NoData, stream.poll());
}

#[test]
fn test7() {
    let mut stream = Tokker::new(vec![b"@COREDUMP\n".to_vec(), b"@ENDCOREDUMP".to_vec()]);

    stream.push(
        b"wehdihweuidhweuihduiwehduiwehduiweh@COREDUMP\nabcdwejdjweiodjoiwejdiowejiowjiodjweiojd",
    );
    assert_eq!(
        TokkerPollResult::Data(b"wehdihweuidhweuihduiwehduiwehduiweh".to_vec()),
        stream.poll()
    );

    stream.push(b"@END");

    assert_eq!(TokkerPollResult::Token(b"@COREDUMP\n".to_vec()), stream.poll());

    stream.push(b"COREDUMP");

    assert_eq!(
        TokkerPollResult::Data(b"abcdwejdjweiodjoiwejdiowejiowjiodjweiojd".to_vec()),
        stream.poll()
    );
    assert_eq!(TokkerPollResult::Token(b"@ENDCOREDUMP".to_vec()), stream.poll());
    assert_eq!(TokkerPollResult::NoData, stream.poll());
}

#[test]
fn test8() {
    let mut stream = Tokker::new(vec![b"@COREDUMP\n".to_vec(), b"@ENDCOREDUMP".to_vec()]);

    stream.push(&[b'A'; 1024]);
    stream.push(b"@COREDUMP\n");
    stream.push(&[b'A'; 1024]);

    assert_eq!(TokkerPollResult::Data(vec![b'A'; 1024]), stream.poll());

    assert_eq!(TokkerPollResult::Token(b"@COREDUMP\n".to_vec()), stream.poll());

    assert_eq!(TokkerPollResult::Data(vec![b'A'; 1024]), stream.poll());

    stream.push(b"@ENDCOREDUMP\n");

    assert_eq!(TokkerPollResult::Token(b"@ENDCOREDUMP".to_vec()), stream.poll());

    assert_eq!(TokkerPollResult::Data(b"\n".to_vec()), stream.poll());
}

#[test]
fn prefix_nested_tokens_extended_match() {
    // one token is a prefix of another: alone, the shorter must be held back
    let mut stream = Tokker::new(vec![b"@FOO".to_vec(), b"@FOOBAR".to_vec()]);

    stream.push(b"@FOO");
    assert_eq!(TokkerPollResult::NoData, stream.poll());

    // more input turns it into the longer token
    stream.push(b"BAR");
    assert_eq!(TokkerPollResult::Token(b"@FOOBAR".to_vec()), stream.poll());
    assert_eq!(TokkerPollResult::NoData, stream.poll());
}

#[test]
fn prefix_nested_tokens_disproved_match() {
    let mut stream = Tokker::new(vec![b"@FOO".to_vec(), b"@FOOBAR".to_vec()]);

    stream.push(b"@FOO");
    assert_eq!(TokkerPollResult::NoData, stream.poll());

    // an unrelated character makes the shorter token the exact, final match
    stream.push(b"x");
    assert_eq!(TokkerPollResult::Token(b"@FOO".to_vec()), stream.poll());
    assert_eq!(TokkerPollResult::Data(b"x".to_vec()), stream.poll());
    assert_eq!(TokkerPollResult::NoData, stream.poll());
}

#[test]
fn token_split_byte_by_byte() {
    // a token split across many pushes is never emitted as plain text
    let mut stream = Tokker::new(vec![b"@COREDUMP\n".to_vec(), b"@ENDCOREDUMP".to_vec()]);
    for b in b"@COREDUMP".iter() {
        stream.push(&[*b]);
        assert_eq!(TokkerPollResult::NoData, stream.poll());
    }
    stream.push(b"\n");
    assert_eq!(TokkerPollResult::Token(b"@COREDUMP\n".to_vec()), stream.poll());
    assert_eq!(TokkerPollResult::NoData, stream.poll());
}

#[test]
fn plain_text_chunks_pass_through() {
    // text without any token comes out exactly, in order
    let mut stream = Tokker::new(vec![b"@COREDUMP\n".to_vec(), b"@FOO".to_vec()]);
    let mut out: Vec<u8> = Vec::new();
    for chunk in [&b"hel"[..], b"lo ", b"wor", b"ld!"] {
        stream.push(chunk);
        loop {
            match stream.poll() {
                TokkerPollResult::Data(d) => out.extend_from_slice(&d),
                TokkerPollResult::NoData => break,
                TokkerPollResult::Token(t) => panic!("unexpected token {:?}", t),
            }
        }
    }
    assert_eq!(out, b"hello world!".to_vec());
}

#[test]
fn drained_scanner_stays_drained() {
    let mut stream = Tokker::new(vec![b"@COREDUMP\n".to_vec(), b"@FOO".to_vec()]);
    assert_eq!(TokkerPollResult::NoData, stream.poll());
    stream.push(b"abc");
    assert_eq!(TokkerPollResult::Data(b"abc".to_vec()), stream.poll());
    assert_eq!(TokkerPollResult::NoData, stream.poll());
    assert_eq!(TokkerPollResult::NoData, stream.poll());
    stream.push(b"d");
    assert_eq!(TokkerPollResult::Data(b"d".to_vec()), stream.poll());
}
