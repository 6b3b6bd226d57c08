use protohack::cipher::{decrypt, encrypt};
use protohack::cipher_codec::{CipherError, CryptoCodec, Message};
use protohack::cipher_ops::Op;

#[test]
fn op_apply_and_inverse() {
    assert_eq!(Op::Reverse.apply(0b0000_0001, 0), 0b1000_0000);
    assert_eq!(Op::Xor(0xff).apply(0x0f, 3), 0xf0);
    assert_eq!(Op::XorPos.apply(0x00, 0x12), 0x12);
    assert_eq!(Op::Add(1).apply(0xff, 0), 0x00);
    assert_eq!(Op::Sub(1).apply(0x00, 0), 0xff);
    assert_eq!(Op::AddPos.apply(200, 300), (200u8).wrapping_add(44));
    assert_eq!(Op::Add(7).inverse(), Op::Sub(7));
    assert_eq!(Op::AddPos.inverse(), Op::SubPos);
    assert_eq!(Op::Reverse.inverse(), Op::Reverse);
}

#[test]
fn encrypt_decrypt_round_trip() {
    let spec = vec![Op::Xor(0x5a), Op::AddPos, Op::Reverse, Op::Add(17)];
    let input: Vec<u8> = (0u8..=255).collect();
    for start in [0usize, 1, 255, 256, 1000] {
        let enc = encrypt(&spec, &input, start);
        let dec = decrypt(&spec, &enc, start);
        assert_eq!(dec, input);
    }
}

#[test]
fn no_op_cipher_is_rejected() {
    // Spec [Xor(0), end]: the identity; the connection must refuse it
    // before any application byte.
    let mut codec = CryptoCodec::new();
    let mut buf: Vec<u8> = vec![0x02, 0x00, 0x00];
    let err = codec.decode(&mut buf).unwrap_err();
    assert_eq!(err, CipherError::NoOpCipher);
}

#[test]
fn invalid_spec_opcode_is_fatal() {
    let mut codec = CryptoCodec::new();
    let mut buf: Vec<u8> = vec![0x02, 0x01, 0x77, 0x00];
    let err = codec.decode(&mut buf).unwrap_err();
    assert_eq!(err, CipherError::InvalidSpec);
}

#[test]
fn partial_spec_waits_for_more() {
    let mut codec = CryptoCodec::new();
    let mut buf: Vec<u8> = vec![0x02];
    assert!(codec.decode(&mut buf).unwrap().is_none());
    assert_eq!(buf, vec![0x02]);
}

#[test]
fn toy_list_session() {
    // Spec [Xor(1), Reverse, end]; the client sends the encrypted toy
    // list and the server answers with the largest entry, encrypted at
    // the server position.
    let spec = vec![Op::Xor(1), Op::Reverse];
    let mut codec = CryptoCodec::new();

    let mut buf: Vec<u8> = vec![0x02, 0x01, 0x01, 0x00];
    match codec.decode(&mut buf).unwrap() {
        Some(Message::Cipher(ops)) => assert_eq!(ops, spec),
        other => panic!("expected the cipher declaration, got {:?}", other.is_some()),
    }
    assert!(buf.is_empty());

    let line = b"4x dog,5x car\n";
    let mut wire = encrypt(&spec, line, 0);
    let text = match codec.decode(&mut wire).unwrap() {
        Some(Message::Text(t)) => t,
        _ => panic!("expected a decoded line"),
    };
    assert_eq!(text, "4x dog,5x car\n");
    assert!(wire.is_empty());

    let reply = protohack::toys::reply_for_line(&text).unwrap();
    assert_eq!(reply, "5x car\n");
    let mut out: Vec<u8> = Vec::new();
    codec.encode(Message::Text(reply), &mut out).unwrap();
    assert_eq!(out, encrypt(&spec, b"5x car\n", 0));

    // A second exchange continues at the advanced positions.
    let line2 = b"1x bell\n";
    let mut wire2 = encrypt(&spec, line2, line.len());
    let text2 = match codec.decode(&mut wire2).unwrap() {
        Some(Message::Text(t)) => t,
        _ => panic!("expected a second decoded line"),
    };
    assert_eq!(text2, "1x bell\n");
    let reply2 = protohack::toys::reply_for_line(&text2).unwrap();
    let mut out2: Vec<u8> = Vec::new();
    codec.encode(Message::Text(reply2), &mut out2).unwrap();
    assert_eq!(out2, encrypt(&spec, b"1x bell\n", b"5x car\n".len()));
}

#[test]
fn encode_before_cipher_fails() {
    let mut codec = CryptoCodec::new();
    let mut out: Vec<u8> = Vec::new();
    let err = codec
        .encode(Message::Text("hi\n".to_string()), &mut out)
        .unwrap_err();
    assert_eq!(err, CipherError::NoCipherYet);
    assert!(out.is_empty());
}

#[test]
fn partial_line_stays_buffered() {
    let spec = vec![Op::Add(3)];
    let mut codec = CryptoCodec::new();
    let mut buf: Vec<u8> = vec![0x04, 0x03, 0x00];
    codec.decode(&mut buf).unwrap();
    let mut wire = encrypt(&spec, b"no newline yet", 0);
    let before = wire.clone();
    assert!(codec.decode(&mut wire).unwrap().is_none());
    assert_eq!(wire, before, "partial lines are not consumed");
}

#[test]
fn decoded_line_must_be_text() {
    // Xor(0xff) turns the bytes below into a complete line that is not
    // valid UTF-8.
    let spec = vec![Op::Xor(0xff)];
    let mut codec = CryptoCodec::new();
    let mut buf: Vec<u8> = vec![0x02, 0xff, 0x00];
    codec.decode(&mut buf).unwrap();
    let mut wire = encrypt(&spec, &[0xff, 0xfe, b'\n'], 0);
    let err = codec.decode(&mut wire).unwrap_err();
    assert_eq!(err, CipherError::BadText);
}
