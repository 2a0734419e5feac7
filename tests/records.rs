use fixed_width::{LineBreak, Reader, Writer};

fn all_strings(rdr: &mut Reader) -> Vec<String> {
    let mut rows = Vec::new();
    let mut sr = rdr.string_reader();
    while let Some(row) = sr.next() {
        rows.push(row);
    }
    rows
}

fn all_bytes(rdr: &mut Reader) -> Vec<Vec<u8>> {
    let mut rows = Vec::new();
    let mut br = rdr.byte_reader();
    while let Some(row) = br.next() {
        rows.push(row);
    }
    rows
}

#[test]
fn read_next_record() {
    let s = "111122223333444411112222333344441111222233334444";

    let mut rdr = Reader::from_string(s).width(16);
    let mut count = 0;

    while let Some(r) = rdr.next_record() {
        count += 1;
        assert_eq!(b"1111222233334444".to_vec(), r);
    }

    assert_eq!(3, count);
}

#[test]
fn read_from_string() {
    let s = "111122223333444411112222333344441111222233334444";

    let mut rdr = Reader::from_string(s).width(16);
    let rows = all_strings(&mut rdr);

    assert_eq!(rows.len(), 3);

    for row in rows {
        assert_eq!("1111222233334444", row);
    }
}

#[test]
fn read_from_string_with_newlines() {
    let s = "1111222233334444\n1111222233334444\n1111222233334444";

    let mut rdr = Reader::from_string(s)
        .width(16)
        .linebreak(LineBreak::Newline);
    let rows = all_strings(&mut rdr);

    assert_eq!(rows.len(), 3);

    for row in rows {
        assert_eq!("1111222233334444", row);
    }
}

#[test]
fn read_from_string_with_crlf() {
    let s = "1111222233334444\r\n1111222233334444\r\n1111222233334444";

    let mut rdr = Reader::from_string(s).width(16).linebreak(LineBreak::CRLF);
    let rows = all_strings(&mut rdr);

    assert_eq!(rows.len(), 3);

    for row in rows {
        assert_eq!("1111222233334444", row);
    }
}

#[test]
fn read_from_bytes() {
    let b = "111122223333444411112222333344441111222233334444".as_bytes();

    let mut rdr = Reader::from_bytes(b).width(16);
    let rows = all_strings(&mut rdr);

    assert_eq!(rows.len(), 3);

    for row in rows {
        assert_eq!("1111222233334444", row);
    }
}

#[test]
fn read_from_bytes_with_crlf() {
    let b = "1111222233334444\r\n1111222233334444\r\n1111222233334444".as_bytes();

    let mut rdr = Reader::from_bytes(b).width(16).linebreak(LineBreak::CRLF);
    let rows = all_bytes(&mut rdr);

    assert_eq!(rows.len(), 3);

    for row in rows {
        assert_eq!(b"1111222233334444".to_vec(), row);
    }
}

#[test]
fn partial_record_ends_reading() {
    let mut rdr = Reader::from_string("abcdefg").width(3);
    assert_eq!(rdr.next_record(), Some(b"abc".to_vec()));
    assert_eq!(rdr.next_record(), Some(b"def".to_vec()));
    assert_eq!(rdr.next_record(), None);
    assert_eq!(rdr.next_record(), None);
}

#[test]
fn zero_width_gives_nothing() {
    let mut rdr = Reader::from_string("abc");
    assert!(!rdr.has_linebreak());
    assert_eq!(rdr.next_record(), None);
}

#[test]
fn lossy_text_records() {
    let mut rdr = Reader::from_bytes(&[0x61, 0xff]).width(2);
    let rows = all_strings(&mut rdr);
    assert_eq!(rows, vec!["a\u{fffd}".to_string()]);
}

#[test]
fn write_to_memory() {
    let records = [
        "1111222233334444".to_string(),
        "1111222233334444".to_string(),
        "1111222233334444".to_string(),
    ];

    let mut wrtr = Writer::from_memory();

    wrtr.write_iter(&records);

    let mut expected = b"1111222233334444".to_vec();
    expected.append(&mut b"1111222233334444".to_vec());
    expected.append(&mut b"1111222233334444".to_vec());

    assert_eq!(expected, wrtr.into_bytes());
}

#[test]
fn write_with_crlf() {
    let records = [b"ab".to_vec(), b"cd".to_vec()];
    let mut wrtr = Writer::from_memory().linebreak(LineBreak::CRLF);
    wrtr.write_iter(&records);
    wrtr.write_linebreak();
    assert_eq!(wrtr.into_bytes(), b"ab\r\ncd\r\n".to_vec());
}

#[test]
fn test_write() {
    let bytes = b"abcd1234";
    let mut w = Writer::from_memory();
    let written = w.write(bytes);
    let s: String = w.into_string().unwrap();

    assert!(written > 0);
    assert_eq!(s, "abcd1234");
}
