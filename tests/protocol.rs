use qingtuan::database::{GetReturn, Operation, Return};
use qingtuan::protocol_parser::{ParseError, Prefix, ProtocolReader, ProtocolWriter};
use qingtuan::slice::Slice;

#[test]
fn parse_operation() {
    let buffer = vec![
        '*' as u8, '\r' as u8, '\n' as u8, '$' as u8, 0, 0, 0, 3, '\r' as u8, '\n' as u8,
        'G' as u8, 'E' as u8, 'T' as u8, '\r' as u8, '\n' as u8, '$' as u8, 0, 0, 0, 1,
        '\r' as u8, '\n' as u8, 'Y' as u8, '\r' as u8, '\n' as u8,
    ];
    let mut reader = ProtocolReader::new(buffer);
    let op = reader.read_op();
    match op {
        Ok(Operation::Get(op)) => assert!(op.0 == Slice::from(vec!['Y' as u8])),
        _ => panic!("Parse Operation Error"),
    };
}

#[test]
fn parse_return() {
    let mut buffer = ProtocolWriter::new();

    buffer.write_return(Return::Get(GetReturn(Slice::from(String::from("GET")))));

    assert_eq!(
        buffer.into_bytes(),
        vec![
            '$' as u8, 0, 0, 0, 3, '\r' as u8, '\n' as u8, 'G' as u8, 'E' as u8, 'T' as u8,
            '\r' as u8, '\n' as u8
        ]
    )
}

fn put_frame(key: &[u8], value: &[u8]) -> Vec<u8> {
    let mut w = ProtocolWriter::new();
    w.write_prefix(Prefix::Count);
    w.write_break_line();
    w.write_vec(b"PUT".to_vec());
    w.write_vec(key.to_vec());
    w.write_vec(value.to_vec());
    w.into_bytes()
}

#[test]
fn put_operation_round_trip() {
    let bytes = put_frame(b"key", b"value");
    let mut reader = ProtocolReader::new(bytes.clone());
    match reader.read_op() {
        Ok(Operation::Put(p)) => {
            assert!(p.0 == Slice::from(b"key".to_vec()));
            assert!(p.1 == Slice::from(b"value".to_vec()));
        }
        _ => panic!("expected a PUT"),
    }
    assert_eq!(reader.position(), bytes.len());
}

#[test]
fn byte_string_round_trip() {
    for v in [Vec::new(), vec![0u8], vec![13u8, 10, 36, 42], (0..=255u8).collect::<Vec<u8>>()] {
        let mut w = ProtocolWriter::new();
        w.write_vec(v.clone());
        let bytes = w.into_bytes();
        assert_eq!(bytes.len(), v.len() + 9);
        let mut reader = ProtocolReader::new(bytes);
        assert_eq!(reader.read_vec(), Ok(v));
    }
}

#[test]
fn numbers_are_big_endian() {
    let mut w = ProtocolWriter::new();
    w.write_num(256);
    w.write_num(-2);
    w.write_num(0x01020304);
    let bytes = w.into_bytes();
    assert_eq!(bytes, vec![0, 0, 1, 0, 0xff, 0xff, 0xff, 0xfe, 1, 2, 3, 4]);
    let mut reader = ProtocolReader::new(bytes);
    assert_eq!(reader.read_num(), Ok(256));
    assert_eq!(reader.read_num(), Ok(-2));
    assert_eq!(reader.read_num(), Ok(0x01020304));
    assert_eq!(reader.read_num(), Err(ParseError::UnexpectedEnd));
}

#[test]
fn empty_input_is_unexpected_end() {
    let mut reader = ProtocolReader::new(Vec::new());
    assert!(matches!(reader.read_op(), Err(ParseError::UnexpectedEnd)));
}

#[test]
fn bad_prefix_is_refused() {
    let mut reader = ProtocolReader::new(b"+\r\n".to_vec());
    assert!(matches!(reader.read_op(), Err(ParseError::BadPrefix)));
    let mut reader = ProtocolReader::new(b"$\r\n".to_vec());
    assert!(matches!(reader.read_op(), Err(ParseError::BadPrefix)));
    let mut reader = ProtocolReader::new(vec![b'*', 0, 0, 0, 1, b'\r', b'\n', b'x', b'\r', b'\n']);
    assert_eq!(reader.read_vec(), Err(ParseError::BadPrefix));
}

#[test]
fn missing_break_line_is_refused() {
    let mut reader = ProtocolReader::new(b"*\n\r".to_vec());
    assert!(matches!(reader.read_op(), Err(ParseError::MissingBreakLine)));
    let mut reader = ProtocolReader::new(vec![b'$', 0, 0, 0, 1, b'\r', b'\n', b'x', b'x', b'x']);
    assert_eq!(reader.read_vec(), Err(ParseError::MissingBreakLine));
    assert_eq!(reader.position(), 0);
}

#[test]
fn negative_length_is_refused() {
    let mut reader = ProtocolReader::new(vec![b'$', 0xff, 0xff, 0xff, 0xff, b'\r', b'\n']);
    assert_eq!(reader.read_vec(), Err(ParseError::NegativeLength));
}

#[test]
fn unknown_method_is_refused() {
    let mut w = ProtocolWriter::new();
    w.write_prefix(Prefix::Count);
    w.write_break_line();
    w.write_vec(b"DEL".to_vec());
    w.write_vec(b"k".to_vec());
    let mut reader = ProtocolReader::new(w.into_bytes());
    assert!(matches!(reader.read_op(), Err(ParseError::UnknownMethod)));
    assert_eq!(reader.position(), 0);
}

#[test]
fn short_frame_can_be_completed() {
    let bytes = put_frame(b"a", b"1");
    let (first, second) = bytes.split_at(10);
    let mut reader = ProtocolReader::new(first.to_vec());
    assert!(matches!(reader.read_op(), Err(ParseError::UnexpectedEnd)));
    assert_eq!(reader.position(), 0);
    reader.feed(second.to_vec());
    assert!(matches!(reader.read_op(), Ok(Operation::Put(_))));
    assert_eq!(reader.position(), bytes.len());
}

#[test]
fn reads_operations_one_after_another() {
    let mut bytes = put_frame(b"a", b"1");
    bytes.extend(vec![
        b'*', b'\r', b'\n', b'$', 0, 0, 0, 3, b'\r', b'\n', b'G', b'E', b'T', b'\r', b'\n', b'$', 0,
        0, 0, 1, b'\r', b'\n', b'a', b'\r', b'\n',
    ]);
    let mut reader = ProtocolReader::new(bytes);
    assert!(matches!(reader.read_op(), Ok(Operation::Put(_))));
    match reader.read_op() {
        Ok(Operation::Get(g)) => assert!(g.0 == Slice::from(b"a".to_vec())),
        _ => panic!("expected a GET"),
    }
    assert!(matches!(reader.read_op(), Err(ParseError::UnexpectedEnd)));
}

#[test]
fn write_str_frames_utf8_bytes() {
    let mut w = ProtocolWriter::new();
    w.write_str(String::from("é"));
    assert_eq!(w.into_bytes(), vec![b'$', 0, 0, 0, 2, b'\r', b'\n', 0xc3, 0xa9, b'\r', b'\n']);
}

#[test]
fn prefixes_are_star_and_dollar() {
    let mut w = ProtocolWriter::new();
    w.write_prefix(Prefix::Count);
    w.write_prefix(Prefix::String);
    let bytes = w.into_bytes();
    assert_eq!(bytes, b"*$".to_vec());
    let mut reader = ProtocolReader::new(bytes);
    assert_eq!(reader.read_prefix(), Ok(Prefix::Count));
    assert_eq!(reader.read_prefix(), Ok(Prefix::String));
    assert_eq!(reader.read_prefix(), Err(ParseError::UnexpectedEnd));
}
