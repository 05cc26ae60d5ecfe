use iconv_stream::decode;
use iconv_stream::encode;
use iconv_stream::iconv;
use iconv_stream::IconvError;

#[test]
fn test_encoder_normal() {
    assert!(encode("", "LATIN1").unwrap().is_empty());

    let a = "哈哈";
    assert_eq!(encode(a, "GBK").unwrap(), vec![0xb9, 0xfe, 0xb9, 0xfe]);

    let b = std::iter::repeat(a).take(1024).collect::<Vec<&str>>().join("");

    for ch in encode(&b, "GBK").unwrap().chunks(4) {
        assert_eq!(ch, &vec![0xb9, 0xfe, 0xb9, 0xfe][..]);
    }

    let c = vec![0xe5, 0x93, 0x88, 0xe5, 0x93, 0x88]; // utf8 bytes
    assert_eq!(
        iconv(&c, "UTF-8", "GBK").unwrap(),
        vec![0xb9, 0xfe, 0xb9, 0xfe]
    );
}

#[test]
fn test_encoder_fail_creating_converter() {
    assert!(decode("".as_bytes(), "NOT_EXISTS").is_err());
}

#[test]
fn test_encoder_ilseq() {
    let a = vec![0xff, 0xff, 0xff];
    assert!(matches!(
        decode(&a, "GBK").unwrap_err(),
        IconvError::InvalidInput
    ));
}

#[test]
fn test_encoder_invalid() {
    let a = vec![0xe5, 0x93, 0x88, 0xe5, 0x88]; // incomplete utf8 bytes
    assert!(matches!(
        decode(&a, "GBK").unwrap_err(),
        IconvError::IncompleteInput
    ));
}

#[test]
fn test_decoder_normal() {
    let buf = Vec::new();
    let b = &buf[..];
    assert_eq!(decode(b, "CP936").unwrap(), "".to_string());

    let a = vec![0xb9, 0xfe, 0xb9, 0xfe];
    assert_eq!(decode(&a, "GBK").unwrap(), "哈哈".to_string());
}

#[test]
fn test_decoder_fail_creating_converter() {
    let buf = Vec::new();
    let b = &buf[..];
    assert!(matches!(
        decode(b, "NOT_EXSITS").unwrap_err(),
        IconvError::ConversionNotSupport
    ));
}

#[test]
fn test_decoder_ilseq() {
    let a = vec![0xff, 0xff, 0xff];
    assert!(matches!(
        decode(&a, "GBK").unwrap_err(),
        IconvError::InvalidInput
    ));
}

#[test]
fn test_decoder_invalid() {
    let a = vec![0xb9, 0xfe, 0xb9]; // incomplete gbk bytes
    assert!(matches!(
        decode(&a, "GBK").unwrap_err(),
        IconvError::IncompleteInput
    ));
}

#[test]
fn test_caocao_joke() {
    let a = "曹操";
    let b = "变巨";
    assert_eq!(encode(a, "BIG5").unwrap(), encode(b, "GBK").unwrap());
}

#[test]
fn test_round_trip_gbk() {
    let s = "哈哈, streaming conversion round trip test 噗哈!";
    let encoded = encode(s, "GBK").unwrap();
    assert_eq!(decode(&encoded, "GBK").unwrap(), s.to_string());
}

#[test]
fn test_round_trip_big5() {
    let s = "曹操";
    let encoded = encode(s, "BIG5").unwrap();
    assert_eq!(decode(&encoded, "BIG5").unwrap(), s.to_string());
}

#[test]
fn test_growth_large_input() {
    // Far larger than the initial buffer: growth must lose or duplicate
    // nothing and keep the order.
    let mut input = String::new();
    let mut expected: Vec<u8> = Vec::new();
    for _ in 0..200000 {
        input.push_str("哈");
        expected.extend([0xb9u8, 0xfe]);
    }
    assert_eq!(encode(&input, "GBK").unwrap(), expected);
}

#[test]
fn test_unsupported_fails_before_any_byte() {
    // The pair is rejected at construction, so even with illegal bytes the
    // error is the unsupported conversion.
    let a = vec![0xff, 0xff, 0xff];
    assert!(matches!(
        iconv(&a, "NO_SUCH_ENCODING", "ALSO_NO_SUCH").unwrap_err(),
        IconvError::ConversionNotSupport
    ));
}

#[test]
fn test_error_messages_map_to_io_kinds() {
    let e = IconvError::InvalidInput.into_io_error();
    assert_eq!(e.kind(), std::io::ErrorKind::InvalidData);
    let e = IconvError::ConversionNotSupport.into_io_error();
    assert_eq!(e.kind(), std::io::ErrorKind::Unsupported);
    let e = IconvError::IncompleteInput.into_io_error();
    assert_eq!(e.kind(), std::io::ErrorKind::InvalidInput);
    let e = IconvError::NotSufficientOutput.into_io_error();
    assert_eq!(e.kind(), std::io::ErrorKind::InvalidInput);
    let e = IconvError::OsError(1).into_io_error();
    assert_eq!(e.raw_os_error(), Some(1));
}

#[test]
fn test_encode_rejects_substituted_output_encoding() {
    // The platform would substitute another output encoding for this name,
    // so the pair is rejected at construction instead of silently producing
    // bytes of a different encoding.
    assert!(matches!(
        iconv_stream::encode("abc", "UTF-16LE").unwrap_err(),
        IconvError::ConversionNotSupport
    ));
    // Decoding from it stays supported.
    assert_eq!(
        decode(&[0x61, 0x00, 0x62, 0x00], "UTF-16LE").unwrap(),
        "ab".to_string()
    );
}
