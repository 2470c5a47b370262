use pem::base64::base64;
use pem::display::write_base64;
use pem::headers::parse_hex;
use pem::PemParsingError;

#[test]
fn test() {
    let binary = &b"LLrHB0eJzyhP+/fSStdW8okeEnv47jxe7SJ/iN72ohNcUk2jHEUSoH1nvNSIWL9M
8tEjmF/zxB+bATMtPjCUWbz8Lr9wloXIkjHUlBLpvXR0UrUzYbkNpk0agV2IzUpk
J6UiRRGcDSvzrsoK+oNvqu6z7Xs5Xfz5rDqUcMlK1Z6720dcBWGGsDLpTpSCnpot
dXd/H5LMDWnonNvPCwQUHt=="[..];
    let string = "LLrHB0eJzyhP+/fSStdW8okeEnv47jxe7SJ/iN72ohNcUk2jHEUSoH1nvNSIWL9M
8tEjmF/zxB+bATMtPjCUWbz8Lr9wloXIkjHUlBLpvXR0UrUzYbkNpk0agV2IzUpk
J6UiRRGcDSvzrsoK+oNvqu6z7Xs5Xfz5rDqUcMlK1Z6720dcBWGGsDLpTpSCnpot
dXd/H5LMDWnonNvPCwQUHt==";
    let expected = vec![
        0x2cu8, 186, 199, 7, 71, 137, 207, 40, 79, 251, 247, 210, 74, 215, 86, 242, 137, 30, 18,
        123, 248, 238, 60, 94, 237, 34, 127, 136, 222, 246, 162, 19, 92, 82, 77, 163, 28, 69, 18,
        160, 125, 103, 188, 212, 136, 88, 191, 76, 242, 209, 35, 152, 95, 243, 196, 31, 155, 1,
        51, 45, 62, 48, 148, 89, 188, 252, 46, 191, 112, 150, 133, 200, 146, 49, 212, 148, 18,
        233, 189, 116, 116, 82, 181, 51, 97, 185, 13, 166, 77, 26, 129, 93, 136, 205, 74, 100, 39,
        165, 34, 69, 17, 156, 13, 43, 243, 174, 202, 10, 250, 131, 111, 170, 238, 179, 237, 123,
        57, 93, 252, 249, 172, 58, 148, 112, 201, 74, 213, 158, 187, 219, 71, 92, 5, 97, 134, 176,
        50, 233, 78, 148, 130, 158, 154, 45, 117, 119, 127, 31, 146, 204, 13, 105, 232, 156, 219,
        207, 11, 4, 20, 0x1e,
    ];

    let (decoded, consumed) = base64(string.as_bytes(), 0);
    assert_eq!(decoded, expected);
    assert_eq!(consumed, string.len());
    let (decoded2, consumed2) = base64(binary, 0);
    assert_eq!(decoded2, expected);
    assert_eq!(consumed2, binary.len());
}

#[test]
fn hex() {
    assert_eq!(
        Ok((
            vec![0u8, 0x01, 0x02, 0x03, 0x04, 0x05, 0x06, 0x07, 0x08, 0x09, 0x0a, 0x0b, 0x0c, 0x0d, 0x0e, 0x0f],
            32
        )),
        parse_hex(b"000102030405060708090a0b0c0d0e0f-", 0)
    );
    assert_eq!(
        Ok((
            vec![0x11u8, 0x22, 0x33, 0x44, 0x55, 0x66, 0x77, 0x88, 0x99, 0xaa, 0xbb, 0xcc, 0xdd, 0xee, 0xff],
            30
        )),
        parse_hex(b"112233445566778899AABBCCDDEEFF-", 0)
    );
    assert_eq!(
        Err(PemParsingError::HexDecodeError),
        parse_hex(b"112233445566778899AABBCCDDEEFFF-", 0)
    );
}

#[test]
fn encode_exact_output() {
    let mut out: Vec<u8> = Vec::new();
    write_base64(&mut out, b"Man", 64);
    assert_eq!(out, b"TWFu\n".to_vec());

    let mut out1: Vec<u8> = Vec::new();
    write_base64(&mut out1, b"M", 64);
    assert_eq!(out1, b"TQ==\n".to_vec());

    let mut out2: Vec<u8> = Vec::new();
    write_base64(&mut out2, b"Ma", 64);
    assert_eq!(out2, b"TWE=\n".to_vec());

    let mut out3: Vec<u8> = Vec::new();
    write_base64(&mut out3, b"", 64);
    assert_eq!(out3, b"".to_vec());
}

#[test]
fn encode_wraps_lines() {
    let mut out: Vec<u8> = Vec::new();
    write_base64(&mut out, b"Manu", 4);
    // four characters fill the line, then the padded tail follows
    assert_eq!(out, b"TWFu\ndQ==\n".to_vec());
}

#[test]
fn encode_decode_round_trip() {
    // 256 bytes: the text ends with padding and a line break, and the
    // scan stops at the padding, leaving the final line break behind
    let data: Vec<u8> = (0u8..=255).collect();
    for width in [1usize, 3, 64, 76] {
        let mut text: Vec<u8> = Vec::new();
        write_base64(&mut text, data.as_slice(), width);
        let (decoded, consumed) = base64(text.as_slice(), 0);
        assert_eq!(decoded, data);
        assert_eq!(consumed, text.len() - 1);
    }

    // a multiple of three bytes: no padding, everything consumed
    let data3: Vec<u8> = (0u8..=255).cycle().take(258).collect();
    for width in [1usize, 64] {
        let mut text: Vec<u8> = Vec::new();
        write_base64(&mut text, data3.as_slice(), width);
        let (decoded, consumed) = base64(text.as_slice(), 0);
        assert_eq!(decoded, data3);
        assert_eq!(consumed, text.len());
    }
}

#[test]
fn decode_ignores_whitespace_and_stops() {
    let plain = b"TWFu";
    let spaced = b" T W\tF\r\nu  ";
    let (d1, c1) = base64(plain, 0);
    let (d2, c2) = base64(spaced, 0);
    assert_eq!(d1, b"Man".to_vec());
    assert_eq!(d1, d2);
    assert_eq!(c1, plain.len());
    assert_eq!(c2, spaced.len());

    // the scan halts at the first byte outside alphabet, whitespace
    // and padding; nothing after it is consumed
    let stopped = b"TWFu-XYZ";
    let (d3, c3) = base64(stopped, 0);
    assert_eq!(d3, b"Man".to_vec());
    assert_eq!(c3, 4);

    // padding directly after the data is consumed without validation
    let padded = b"TWE===rest";
    let (d4, c4) = base64(padded, 0);
    assert_eq!(d4, b"Ma".to_vec());
    assert_eq!(c4, 6);
}
