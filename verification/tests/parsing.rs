use pem::parsers::{pem_begin, pem_footer, skip_footer_ws};
use pem::headers::is_pem_header_key_char;
use pem::PemParsingError;

#[test]
fn test_pem_begin() {
    let b = b"-----BEGIN PUBLIC KEY-----\nX";
    let (label, next) = pem_begin(b, 0).unwrap();
    assert_eq!(label, "PUBLIC KEY");
    assert_eq!(next, b.len() - 1);
    assert_eq!(b[next], 88);

    assert_eq!(
        Err(PemParsingError::MalformedDelimiter),
        pem_begin(b"----BEGIN PUBLIC KEY-----", 0)
    );
    assert_eq!(
        Err(PemParsingError::MalformedDelimiter),
        pem_begin(b"-----BEGIN PUBLIC KEY----\nx", 0)
    );
    assert_eq!(
        Err(PemParsingError::MalformedDelimiter),
        pem_begin(b"-----BEGIN PUBLIC KEY---- -----\nx", 0)
    );

    let b2 = b"-----BEGIN SOMETHING-WITH-SINGLE-DASHES-----\nX";
    let (label2, next2) = pem_begin(b2, 0).unwrap();
    assert_eq!(label2, "SOMETHING-WITH-SINGLE-DASHES");
    assert_eq!(next2, b2.len() - 1);
    assert_eq!(b2[next2], 88);
}

#[test]
fn test_cleanup_spaces() {
    let b = b"  XYZ";
    assert_eq!(2, skip_footer_ws(b, 0));
    assert_eq!(&b[2..], b"XYZ");
    let b2 = b"\n XYX";
    assert_eq!(2, skip_footer_ws(b2, 0));
    assert_eq!(&b2[2..], b"XYX");
}

#[test]
fn test_pem_footer() {
    let b = b"-----END PUBLIC KEY-----\nX";
    let (label, next) = pem_footer(b, 0).unwrap();
    assert_eq!(label, "PUBLIC KEY");
    assert_eq!(next, b.len() - 1);
    assert_eq!(b[next], 88);
}

#[test]
fn begin_label_double_dash_rejected() {
    assert_eq!(
        Err(PemParsingError::MalformedDelimiter),
        pem_begin(b"-----BEGIN A--B-----\n", 0)
    );
}

#[test]
fn begin_label_cr_rejected() {
    assert_eq!(
        Err(PemParsingError::MalformedDelimiter),
        pem_begin(b"-----BEGIN A\rB-----\n", 0)
    );
}

#[test]
fn begin_truncated_is_incomplete() {
    assert_eq!(Err(PemParsingError::IncompleteInput), pem_begin(b"-----BEGIN X", 0));
    assert_eq!(Err(PemParsingError::IncompleteInput), pem_begin(b"-----BEG", 0));
}

#[test]
fn begin_label_invalid_text() {
    assert_eq!(
        Err(PemParsingError::InvalidText),
        pem_begin(b"-----BEGIN \xff\xfe-----\nX", 0)
    );
}

#[test]
fn begin_label_utf8() {
    // a label may hold any UTF-8 text; the bytes are decoded, not
    // copied raw
    let b = "-----BEGIN K\u{fc}Y-----\nX".as_bytes();
    let (label, _next) = pem_begin(b, 0).unwrap();
    assert_eq!(label, "K\u{fc}Y");
    assert_eq!(label.chars().count(), 3);
}

#[test]
fn header_key_chars() {
    assert!(is_pem_header_key_char(b'A'));
    assert!(is_pem_header_key_char(b'z'));
    assert!(is_pem_header_key_char(b'-'));
    assert!(!is_pem_header_key_char(b'0'));
    assert!(!is_pem_header_key_char(b':'));
    assert!(!is_pem_header_key_char(b' '));
}

#[test]
fn mismatching_short_input_is_malformed() {
    // bytes that already differ from the fixed tag are a hard error,
    // however short the buffer; only a true prefix is incomplete
    assert_eq!(Err(PemParsingError::MalformedDelimiter), pem_begin(b"XYZ", 0));
    assert_eq!(Err(PemParsingError::MalformedDelimiter), pem_begin(b"----X", 0));
    assert_eq!(Err(PemParsingError::MalformedDelimiter), pem_footer(b"--X", 0));
    assert_eq!(Err(PemParsingError::IncompleteInput), pem_footer(b"-----EN", 0));
}
