//! The save-file model and the envelope layer.

use bf::save::{
    build_envelope, open_envelope, plain_description, seal, whitespace_char, Content, Envelope,
    EnvelopeError, Format, Header, Payload,
};

#[test]
fn header_of_plain_source() {
    let h = Header::of_plain_source();
    assert!(h.content.is_source());
    assert!(!h.content.is_ir());
    assert!(!h.compressed);
    assert!(h.description.is_none());
}

#[test]
fn content_queries() {
    let ir = Content::Ir { format: Format::CBOR };
    assert!(ir.is_ir());
    assert!(!ir.is_source());
    assert_eq!(Format::default(), Format::Json);
}

#[test]
fn payload_queries() {
    let src = Payload::Source("++".to_string());
    assert!(src.is_source());
    assert!(!src.is_ir());
    assert_eq!(src.as_source(), Some("++"));
    assert!(src.as_ir().is_none());
    assert_eq!(src.try_into_source().unwrap(), "++");

    let prog = bf::ir::Program::from_raw("+.".parse().unwrap());
    let ir = Payload::Ir(prog);
    assert!(ir.is_ir());
    assert!(ir.as_ir().is_some());
    let back = ir.try_into_ir().unwrap();
    assert_eq!(back.0 .0.len(), 2);

    let src2 = Payload::Source("x".to_string());
    assert!(src2.try_into_ir().is_err());
}

#[test]
fn plain_seal_roundtrip() {
    let env = build_envelope(&b"content: Source".to_vec(), &b"+++.".to_vec());
    let sealed = seal(&env, false).unwrap();
    assert_eq!(&sealed[..4], b"]bfp");
    match open_envelope(&sealed).unwrap() {
        Envelope::Framed { compressed, header, payload } => {
            assert!(!compressed);
            assert_eq!(header, b"content: Source".to_vec());
            assert_eq!(payload, b"+++.".to_vec());
        }
        other => panic!("expected a framed envelope, got {other:?}"),
    }
}

#[test]
fn compressed_seal_roundtrip() {
    let body: Vec<u8> = b"[loop] ++++++++++++++++ and more text that compresses".to_vec();
    let env = build_envelope(&b"content: Source".to_vec(), &body);
    let sealed = seal(&env, true).unwrap();
    assert_eq!(&sealed[..4], b"]bfc");
    // the content really was transformed on the way in
    assert_ne!(&sealed[4..], &env[..]);
    match open_envelope(&sealed).unwrap() {
        Envelope::Framed { compressed, header, payload } => {
            assert!(compressed);
            assert_eq!(header, b"content: Source".to_vec());
            assert_eq!(payload, body);
        }
        other => panic!("expected a framed envelope, got {other:?}"),
    }
}

#[test]
fn unframed_bytes_are_plain() {
    let r = open_envelope(&b"Some brainfuck: ++--".to_vec()).unwrap();
    assert!(matches!(r, Envelope::Plain));
}

#[test]
fn bad_compression_flag_is_rejected() {
    let r = open_envelope(&b"]bfx....".to_vec());
    assert_eq!(r.unwrap_err(), EnvelopeError::UnrecognizedCompression(b'x'));
}

#[test]
fn missing_header_start_is_rejected() {
    let r = open_envelope(&b"]bfpgarbage".to_vec());
    assert_eq!(r.unwrap_err(), EnvelopeError::MissingHeaderStart);
}

#[test]
fn unterminated_header_is_rejected() {
    let r = open_envelope(&b"]bfp\n---header without end".to_vec());
    assert_eq!(r.unwrap_err(), EnvelopeError::UnterminatedHeader);
}

#[test]
fn corrupt_compressed_data_is_rejected() {
    let r = open_envelope(&b"]bfc\x00\x01\x02\x03\x04\x05".to_vec());
    assert_eq!(r.unwrap_err(), EnvelopeError::Compression);
}

#[test]
fn description_of_commented_source() {
    let chars: Vec<char> = "[Some brainfuck] ++--".chars().collect();
    let desc: String = plain_description(&chars).unwrap().into_iter().collect();
    assert_eq!(desc, "Some brainfuck");
}

#[test]
fn description_skips_leading_whitespace() {
    let chars: Vec<char> = "  \n\t[note] +".chars().collect();
    let desc: String = plain_description(&chars).unwrap().into_iter().collect();
    assert_eq!(desc, "note");
}

#[test]
fn description_handles_nesting_and_absence() {
    let chars: Vec<char> = "[a[b]c] rest".chars().collect();
    let desc: String = plain_description(&chars).unwrap().into_iter().collect();
    assert_eq!(desc, "a[b]c");
    let none: Vec<char> = "Some brainfuck: ++--".chars().collect();
    assert!(plain_description(&none).is_none());
    let unterminated: Vec<char> = "[runs to the end".chars().collect();
    let desc2: String = plain_description(&unterminated).unwrap().into_iter().collect();
    assert_eq!(desc2, "runs to the end");
}

#[test]
fn whitespace_classification() {
    assert!(whitespace_char(' '));
    assert!(whitespace_char('\n'));
    assert!(whitespace_char('\t'));
    assert!(whitespace_char('\r'));
    assert!(!whitespace_char('['));
    assert!(!whitespace_char('+'));
    assert!(!whitespace_char('a'));
}
