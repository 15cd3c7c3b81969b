use memcache::MemStream;
use memcache::Resp;
use memcache::Stat;
use memcache::TcpTransport;
use memcache::Value;

fn written_bytes(resp: Resp) -> Vec<u8> {
    let ts = MemStream::new(vec![]);
    let mut transport = TcpTransport::new(ts);
    transport.write_resp(&resp).unwrap();
    transport.get_stream().written().clone()
}

#[test]
fn test_write_resp_empty() {
    assert_eq!(written_bytes(Resp::Empty), b"".to_vec());
}

#[test]
fn test_write_resp_error() {
    assert_eq!(written_bytes(Resp::Error), b"ERROR\r\n".to_vec());
}

#[test]
fn test_write_resp_stored() {
    assert_eq!(written_bytes(Resp::Stored), b"STORED\r\n".to_vec());
}

#[test]
fn test_write_resp_stats() {
    let entries = vec![Stat::new("pid", "13"), Stat::new("uptime", "2")];
    assert_eq!(
        written_bytes(Resp::Stats(entries)),
        b"STAT pid 13\r\nSTAT uptime 2\r\nEND\r\n".to_vec()
    );
}

#[test]
fn test_write_resp_stats_empty() {
    assert_eq!(written_bytes(Resp::Stats(vec![])), b"END\r\n".to_vec());
}

#[test]
fn test_write_resp_value() {
    let value = Value::new("x", 15, vec![97, 98, 99]);
    assert_eq!(
        written_bytes(Resp::Value(value)),
        b"VALUE x 15 3\r\nabc\r\nEND\r\n".to_vec()
    );
}

#[test]
fn test_write_resp_value_binary_data() {
    // The payload may hold terminator bytes; framing is by declared length.
    let value = Value::new("k", 0, vec![13, 10, 32, 0]);
    let mut expected = b"VALUE k 0 4\r\n".to_vec();
    expected.extend_from_slice(&[13, 10, 32, 0]);
    expected.extend_from_slice(b"\r\nEND\r\n");
    assert_eq!(written_bytes(Resp::Value(value)), expected);
}

#[test]
fn test_write_resp_value_non_ascii_key() {
    // A multi-byte key serializes as its UTF-8 bytes, none of which can be
    // mistaken for a word separator or terminator.
    let value = Value::new("k\u{fc}", 1, vec![97]);
    let mut expected = b"VALUE k".to_vec();
    expected.extend_from_slice(&[0xC3, 0xBC]);
    expected.extend_from_slice(b" 1 1\r\na\r\nEND\r\n");
    assert_eq!(written_bytes(Resp::Value(value)), expected);
}

#[test]
fn test_write_resp_counts_bytes_written() {
    let ts = MemStream::new(vec![]);
    let mut transport = TcpTransport::new(ts);
    transport.write_resp(&Resp::Stored).unwrap();
    let stats = transport.get_stats_clone();
    assert_eq!(stats.bytes_written, 8);
    assert_eq!(stats.bytes_read, 0);
}

#[test]
fn test_write_string_counts() {
    let ts = MemStream::new(vec![]);
    let mut transport = TcpTransport::new(ts);
    let n = transport.write_string("VALUE ").unwrap();
    assert_eq!(n, 6);
    assert_eq!(transport.get_stream().written(), b"VALUE ");
    transport.flush_writes().unwrap();
    assert_eq!(transport.get_stats_clone().bytes_written, 6);
}

#[test]
fn test_value_round_trip_through_set() {
    // Serialize a value, then reuse its payload bytes in a set command: the
    // parser recovers the same payload, CR LF bytes included.
    let payload = vec![1, 13, 10, 13, 10, 2];
    let value = Value::new("rt", 0, payload.clone());
    let bytes = written_bytes(Resp::Value(value));
    // wire shape: VALUE rt 0 6\r\n<payload>\r\nEND\r\n
    let header = b"VALUE rt 0 6\r\n";
    assert_eq!(&bytes[..header.len()], header);
    let tail = &bytes[header.len()..];
    assert_eq!(&tail[..payload.len()], &payload[..]);

    let mut cmd_bytes = b"set rt 0 0 6\r\n".to_vec();
    cmd_bytes.extend_from_slice(&tail[..payload.len()]);
    cmd_bytes.extend_from_slice(b"\r\n");
    let ts = MemStream::new(cmd_bytes);
    let mut transport = TcpTransport::new(ts);
    let cmd = transport.read_cmd().unwrap();
    match cmd {
        memcache::Cmd::SetCmd(set) => {
            assert_eq!(set.key, "rt");
            assert_eq!(set.data, payload);
        }
        other => panic!("unexpected command {:?}", other),
    }
}
