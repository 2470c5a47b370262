use pem::display::write_headers;
use pem::headers::{HeaderEntry, ProcTypeType, RFC1423Algorithm};
use pem::{decode_block, Block};

#[test]
fn headers_exact_output() {
    let headers = vec![
        HeaderEntry::ProcType(4, ProcTypeType::ENCRYPTED),
        HeaderEntry::DEKInfo(
            RFC1423Algorithm::DES_CBC,
            vec![0xF8, 0x14, 0x3E, 0xDE, 0x59, 0x60, 0xC5, 0x97],
        ),
        HeaderEntry::Entry("Content-Domain".to_string(), vec!["RFC822".to_string()]),
    ];
    let mut out: Vec<u8> = Vec::new();
    write_headers(&mut out, &headers);
    let expected = b"Proc-Type: 4,ENCRYPTED\nDEK-Info: DES-CBC,F8143EDE5960C597\nContent-Domain: RFC822\n\n";
    assert_eq!(out, expected.to_vec());
}

#[test]
fn empty_headers_write_nothing() {
    let mut out: Vec<u8> = Vec::new();
    write_headers(&mut out, &vec![]);
    assert_eq!(out, Vec::<u8>::new());
}

#[test]
fn long_value_folds_into_continuation_lines() {
    let long = "a".repeat(100);
    let headers = vec![HeaderEntry::Entry("Key".to_string(), vec![long.clone()])];
    let mut out: Vec<u8> = Vec::new();
    write_headers(&mut out, &headers);
    let expected = format!("Key: \n {}\n {}\n\n", "a".repeat(64), "a".repeat(36));
    assert_eq!(out, expected.into_bytes());
}

#[test]
fn block_to_text_exact() {
    let b = Block {
        block_type: "K".to_string(),
        headers: vec![],
        data: b"Man".to_vec(),
    };
    assert_eq!(b.to_text(), b"-----BEGIN K-----\nTWFu\n-----END K-----\n".to_vec());
}

#[test]
fn block_text_round_trip() {
    let b = Block {
        block_type: "MY DATA".to_string(),
        headers: vec![
            HeaderEntry::ProcType(4, ProcTypeType::MIC_ONLY),
            HeaderEntry::DEKInfo(RFC1423Algorithm::AES_256_CBC, vec![1, 2, 3, 4]),
            HeaderEntry::Entry(
                "Key-Info".to_string(),
                vec!["RSA".to_string(), "abc".to_string()],
            ),
        ],
        data: (0u8..200).collect(),
    };
    let text = b.to_text();
    let parsed = decode_block(text.as_slice()).unwrap();
    assert_eq!(parsed, b);
}

#[test]
fn inline_values_advance_the_column() {
    // the first value fills the line to column 63; the comma takes it
    // to 64; the second value no longer fits within 65 columns and is
    // folded onto a continuation line
    let headers = vec![HeaderEntry::Entry(
        "K".to_string(),
        vec!["a".repeat(60), "b".repeat(60)],
    )];
    let mut out: Vec<u8> = Vec::new();
    write_headers(&mut out, &headers);
    let expected = format!("K: {},\n {}\n\n", "a".repeat(60), "b".repeat(60));
    assert_eq!(out, expected.into_bytes());
}
