use memcache::Cmd;
use memcache::Get;
use memcache::MemStream;
use memcache::SetCmd;
use memcache::TcpTransport;
use memcache::TcpTransportError;
use memcache::conversions::as_number;
use memcache::conversions::as_string;

// Basic methods to consume the stream

#[test]
fn test_as_string_ok() {
    let string = as_string(vec![97, 32, 65]).unwrap();
    assert_eq!(string, "a A".to_string());
}

#[test]
fn test_as_string_invalid() {
    // Invalid utf8 bytes
    let err = as_string(vec![97, 254, 255]).unwrap_err();
    assert_eq!(err, TcpTransportError::Utf8Error);
}

#[test]
fn test_as_number_ok() {
    let bytes = "123".to_string().into_bytes();
    let num: u32 = as_number(bytes).unwrap();
    assert_eq!(num, 123);
}

#[test]
fn test_as_number_invalid() {
    let bytes = "12 3".to_string().into_bytes();
    let err = as_number::<u32>(bytes).unwrap_err();
    assert_eq!(err, TcpTransportError::NumberParseError);
}

#[test]
fn test_as_number_too_wide() {
    let bytes = "70000".to_string().into_bytes();
    let err = as_number::<u16>(bytes).unwrap_err();
    assert_eq!(err, TcpTransportError::NumberParseError);
}

#[test]
fn test_as_number_overflow() {
    let bytes = "99999999999999999999999999".to_string().into_bytes();
    let err = as_number::<u64>(bytes).unwrap_err();
    assert_eq!(err, TcpTransportError::NumberParseError);
}

#[test]
fn test_read_byte() {
    let ts = MemStream::new(vec![93]);
    let mut transport = TcpTransport::new(ts);

    let byte = transport.read_byte().unwrap();
    assert_eq!(byte, 93);
}

#[test]
fn test_read_bytes() {
    let ts = MemStream::new(vec![93, 13, 10]);
    let mut transport = TcpTransport::new(ts);

    let bytes = transport.read_bytes(3).unwrap();
    assert_eq!(bytes, [93, 13, 10]);
}

#[test]
fn test_read_bytes_exhausted() {
    let ts = MemStream::new(vec![93]);
    let mut transport = TcpTransport::new(ts);

    let err = transport.read_bytes(2).unwrap_err();
    assert_eq!(err, TcpTransportError::StreamReadError);
}

#[test]
fn test_read_word_in_line() {
    let ts = MemStream::new(b"  hi there\r\n".to_vec());
    let mut transport = TcpTransport::new(ts);

    let (word, eol) = transport.read_word_in_line().unwrap();
    assert_eq!(word, b"hi".to_vec());
    assert!(!eol);
    let (word, eol) = transport.read_word_in_line().unwrap();
    assert_eq!(word, b"there".to_vec());
    assert!(eol);
}

#[test]
fn test_read_word_bare_cr() {
    let ts = MemStream::new(vec![104, 105, 13, 13]);
    let mut transport = TcpTransport::new(ts);

    let err = transport.read_word_in_line().unwrap_err();
    assert_eq!(err, TcpTransportError::LineReadError);
}

#[test]
fn test_read_line_as_words() {
    let ts = MemStream::new(b"get x \r\n".to_vec());
    let mut transport = TcpTransport::new(ts);

    let words = transport.read_line_as_words().unwrap();
    assert_eq!(words, vec![b"get".to_vec(), b"x".to_vec()]);
}

// Command parsing: malformed examples

#[test]
fn test_read_cmd_invalid() {
    let cmd_str = "invalid key 0 0 3\r\n".to_string();
    let ts = MemStream::new(cmd_str.into_bytes());
    let mut transport = TcpTransport::new(ts);

    let err = transport.read_cmd().unwrap_err();
    assert_eq!(err, TcpTransportError::InvalidCmd);
}

#[test]
fn test_read_cmd_malterminated() {
    let cmd_str = "stats\n".to_string();
    let ts = MemStream::new(cmd_str.into_bytes());
    let mut transport = TcpTransport::new(ts);

    let err = transport.read_cmd().unwrap_err();
    assert_eq!(err, TcpTransportError::StreamReadError);
}

// Command parsing: Get

#[test]
fn test_read_cmd_get_ok() {
    let cmd_str = "get x\r\n".to_string();
    let ts = MemStream::new(cmd_str.into_bytes());
    let mut transport = TcpTransport::new(ts);

    let cmd = transport.read_cmd().unwrap();
    assert_eq!(cmd, Cmd::Get(Get::new("x")));
}

#[test]
fn test_read_cmd_get_malformed() {
    let cmd_str = "get x \r\n".to_string();
    let ts = MemStream::new(cmd_str.into_bytes());
    let mut transport = TcpTransport::new(ts);

    let err = transport.read_cmd().unwrap_err();
    assert_eq!(err, TcpTransportError::CommandParseError);
}

#[test]
fn test_read_cmd_get_non_utf8() {
    // get XX\r\n
    let cmd_bytes = vec![103, 101, 116, 32, 254, 13, 10];
    let ts = MemStream::new(cmd_bytes);
    let mut transport = TcpTransport::new(ts);

    let err = transport.read_cmd().unwrap_err();
    assert_eq!(err, TcpTransportError::Utf8Error);
}

// Command parsing: Set

#[test]
fn test_read_cmd_set_ok() {
    let cmd_str = "set x 0 0 3\r\nabc\r\n".to_string();
    let ts = MemStream::new(cmd_str.into_bytes());
    let mut transport = TcpTransport::new(ts);

    let cmd = transport.read_cmd().unwrap();
    assert_eq!(cmd, Cmd::SetCmd(SetCmd::new("x", 0, vec![97, 98, 99])));
}

#[test]
fn test_read_cmd_set_under_size() {
    let cmd_str = "set x 0 0 2\r\nabc\r\n".to_string();
    let ts = MemStream::new(cmd_str.into_bytes());
    let mut transport = TcpTransport::new(ts);

    let err = transport.read_cmd().unwrap_err();
    assert_eq!(err, TcpTransportError::CommandParseError);
}

#[test]
fn test_read_cmd_set_over_size() {
    let cmd_str = "set x 0 0 4\r\nabc\r\n".to_string();
    let ts = MemStream::new(cmd_str.into_bytes());
    let mut transport = TcpTransport::new(ts);

    let err = transport.read_cmd().unwrap_err();
    assert_eq!(err, TcpTransportError::StreamReadError);
}

#[test]
fn test_read_cmd_set_noreply() {
    let cmd_str = "set x 7 2 3 noreply\r\nabc\r\n".to_string();
    let ts = MemStream::new(cmd_str.into_bytes());
    let mut transport = TcpTransport::new(ts);

    let cmd = transport.read_cmd().unwrap();
    match cmd {
        Cmd::SetCmd(set) => {
            assert_eq!(set.key, "x");
            assert_eq!(set.flags, 7);
            assert_eq!(set.exptime, 2);
            assert_eq!(set.data, vec![97, 98, 99]);
            assert!(set.noreply);
        }
        other => panic!("unexpected command {:?}", other),
    }
}

#[test]
fn test_read_cmd_set_trailing_space() {
    // A trailing space before the terminator yields an empty fifth word,
    // which is not the noreply marker.
    let cmd_str = "set x 0 0 3 \r\nabc\r\n".to_string();
    let ts = MemStream::new(cmd_str.into_bytes());
    let mut transport = TcpTransport::new(ts);

    let cmd = transport.read_cmd().unwrap();
    assert_eq!(cmd, Cmd::SetCmd(SetCmd::new("x", 0, vec![97, 98, 99])));
}

#[test]
fn test_read_cmd_set_binary_payload() {
    // Payload bytes may be spaces, CR and LF; only the declared count frames
    // them.
    let mut cmd_bytes = b"set k 0 0 4\r\n".to_vec();
    cmd_bytes.extend_from_slice(&[13, 10, 32, 0]);
    cmd_bytes.extend_from_slice(b"\r\n");
    let ts = MemStream::new(cmd_bytes);
    let mut transport = TcpTransport::new(ts);

    let cmd = transport.read_cmd().unwrap();
    assert_eq!(cmd, Cmd::SetCmd(SetCmd::new("k", 0, vec![13, 10, 32, 0])));
}

// Command parsing: Stats

#[test]
fn test_read_cmd_stats() {
    let cmd_str = "stats\r\n".to_string();
    let ts = MemStream::new(cmd_str.into_bytes());
    let mut transport = TcpTransport::new(ts);

    let cmd = transport.read_cmd().unwrap();
    assert_eq!(cmd, Cmd::Stats);
}

// Transport statistics

#[test]
fn test_stats_count_bytes_read() {
    let cmd_str = "get x\r\n".to_string();
    let ts = MemStream::new(cmd_str.into_bytes());
    let mut transport = TcpTransport::new(ts);

    transport.read_cmd().unwrap();
    let stats = transport.get_stats_clone();
    assert_eq!(stats.bytes_read, 7);
    assert_eq!(stats.bytes_written, 0);
}

#[test]
fn test_stats_snapshot_idempotent() {
    let ts = MemStream::new(b"x".to_vec());
    let mut transport = TcpTransport::new(ts);
    transport.read_byte().unwrap();

    let first = transport.get_stats_clone();
    let second = transport.get_stats_clone();
    assert_eq!(first, second);
    assert_eq!(first.bytes_read, 1);
}

#[test]
fn test_with_key_maxlen() {
    let ts = MemStream::new(vec![]);
    let mut transport = TcpTransport::new(ts);
    transport.with_key_maxlen(42);
    // Still a working transport afterwards.
    let err = transport.read_byte().unwrap_err();
    assert_eq!(err, TcpTransportError::StreamReadError);
}
