use iconv_stream::copy;
use iconv_stream::IconvReader;
use iconv_stream::IconvWriter;
use iconv_stream::SliceSource;
use iconv_stream::VecSink;

#[test]
fn test_reader() {
    let a = "噗哈";
    let a_gbk = [224u8, 219, 185, 254];
    let mut input = String::new();
    let mut gbk: Vec<u8> = Vec::new();
    for i in 0..1024 {
        let i = i.to_string();
        input.push_str(&i);
        input.push_str(a);
        gbk.extend(i.as_bytes());
        gbk.extend(a_gbk);
    }

    let r = SliceSource::new(input.into_bytes());
    let mut cr = IconvReader::new(r, "UTF-8", "GBK").unwrap();

    let mut nread = 0;
    let mut k = 0;
    loop {
        k = (k + 1) % 10 + 1;
        let res = cr.read(k);
        println!("{:?}", res);
        match res {
            Ok(ref v) if v.is_empty() => {
                assert_eq!(nread, gbk.len());
                return;
            }
            Ok(v) => {
                let n = v.len();
                assert!(n <= k);
                assert_eq!(&v[..], &gbk[nread..nread + n]);
                nread += n;
            }
            Err(ref e) if e.kind() == std::io::ErrorKind::InvalidInput => {
                return;
            }
            _ => {
                unreachable!();
            }
        }
    }
}

#[test]
fn test_buf_reader() {
    let a = "噗哈";
    let a_gbk = [224u8, 219, 185, 254];
    let mut input = String::new();
    let mut gbk: Vec<u8> = Vec::new();
    for i in 0..102400 {
        let i = i.to_string();
        input.push_str(&i);
        input.push_str(a);
        gbk.extend(i.as_bytes());
        gbk.extend(a_gbk);
    }

    let r = SliceSource::new(input.into_bytes());
    let mut cr = IconvReader::new(r, "UTF-8", "GBK").unwrap();

    let mut nread = 0;
    loop {
        let res = cr.fill_buf().unwrap();
        let n = res.len();
        println!("{} {}", nread, n);
        if res.is_empty() {
            assert_eq!(nread, gbk.len());
            break;
        }

        assert_eq!(&res[..], &gbk[nread..nread + n]);
        nread += n;

        cr.consume(n);
    }
}

#[test]
fn test_copy() {
    let a = "噗哈";
    let a_gbk = [224u8, 219, 185, 254];
    let mut input = String::new();
    let mut gbk: Vec<u8> = Vec::new();
    for i in 0..102400 {
        let i = i.to_string();
        input.push_str(&i);
        input.push_str(a);
        gbk.extend(i.as_bytes());
        gbk.extend(a_gbk);
    }

    let mut r = SliceSource::new(input.into_bytes());
    let mut sink = VecSink::new();
    let c = copy(&mut r, &mut sink, "UTF-8", "GBK").unwrap();
    let output = sink.into_vec();
    assert_eq!(c, output.len());
    assert_eq!(output, gbk);
}

#[test]
fn test_writer() {
    let a = "噗哈";
    let a_gbk = [224u8, 219, 185, 254];
    let mut writer = IconvWriter::new(VecSink::new(), "UTF-8", "GBK").unwrap();
    let mut gbk: Vec<u8> = Vec::new();
    for i in 0..102400 {
        let i = i.to_string();
        writer.write_all(i.as_bytes()).unwrap();
        writer.write_all(a.as_bytes()).unwrap();
        gbk.extend(i.as_bytes());
        gbk.extend(a_gbk);
    }

    assert_eq!(writer.into_inner().into_vec(), gbk);
}

#[test]
fn test_writer_flush_incomplete_is_fatal() {
    // A trailing partial multibyte sequence must not be silently dropped.
    let mut writer = IconvWriter::new(VecSink::new(), "UTF-8", "GBK").unwrap();
    writer.write_all(&[0xe5, 0x93, 0x88, 0xe5]).unwrap();
    assert!(writer.flush().is_err());
}

#[test]
fn test_writer_flush_delivers_everything() {
    let mut writer = IconvWriter::new(VecSink::new(), "UTF-8", "GBK").unwrap();
    writer.write_all("哈哈".as_bytes()).unwrap();
    writer.flush().unwrap();
    assert_eq!(writer.into_inner().into_vec(), vec![0xb9, 0xfe, 0xb9, 0xfe]);
}

#[test]
fn test_reader_one_byte_chunks_match_one_shot() {
    // Chunk-size independence: tiny reads reproduce the one-shot conversion.
    let input = "a哈b噗c".repeat(512);
    let reference = iconv_stream::encode(&input, "GBK").unwrap();

    let r = SliceSource::new(input.into_bytes());
    let mut cr = IconvReader::new(r, "UTF-8", "GBK").unwrap();
    let mut got: Vec<u8> = Vec::new();
    let mut k = 0;
    loop {
        k = k % 8 + 1;
        let v = cr.read(k).unwrap();
        if v.is_empty() {
            break;
        }
        got.extend(v);
    }
    assert_eq!(got, reference);
}

#[test]
fn test_reader_truncated_source_is_fatal() {
    // The source ends in the middle of a multibyte unit.
    let r = SliceSource::new(vec![0xb9, 0xfe, 0xb9]);
    let mut cr = IconvReader::new(r, "GBK", "UTF-8").unwrap();
    let mut saw_error = false;
    for _ in 0..8 {
        match cr.read(64) {
            Ok(v) => {
                assert!(!v.is_empty());
            }
            Err(e) => {
                assert_eq!(e.kind(), std::io::ErrorKind::InvalidInput);
                saw_error = true;
                break;
            }
        }
    }
    assert!(saw_error);
}

#[test]
fn test_writer_write_after_flush_starts_fresh() {
    // A flush ends the stream; a later write starts a fresh one over the
    // same converter, and the sink sees both conversions in order.
    let mut writer = IconvWriter::new(VecSink::new(), "UTF-8", "GBK").unwrap();
    writer.write_all("哈".as_bytes()).unwrap();
    writer.flush().unwrap();
    writer.write_all("哈".as_bytes()).unwrap();
    writer.flush().unwrap();
    assert_eq!(writer.into_inner().into_vec(), vec![0xb9, 0xfe, 0xb9, 0xfe]);
}

#[test]
fn test_writer_write_accounts_whole_buffer() {
    // The converter retains a trailing partial unit internally, so a write
    // always accounts for the whole buffer, even one cut mid-character.
    let mut writer = IconvWriter::new(VecSink::new(), "UTF-8", "GBK").unwrap();
    let bytes = "哈".as_bytes();
    let n = writer.write(&bytes[..2]).unwrap();
    assert_eq!(n, 2);
    let n = writer.write(&bytes[2..]).unwrap();
    assert_eq!(n, 1);
    writer.flush().unwrap();
    assert_eq!(writer.into_inner().into_vec(), vec![0xb9, 0xfe]);
}
