use remote_ram::bridge::SystemMemoryBridge;
use remote_ram::protocol::{next_request, parse_request, parse_request_text, Request, UsageKind};

const MIB: usize = 1024 * 1024;

fn serve(b: &mut SystemMemoryBridge, raw: &[u8]) -> String {
    String::from_utf8(serve_bytes(b, raw)).unwrap()
}

fn serve_bytes(b: &mut SystemMemoryBridge, raw: &[u8]) -> Vec<u8> {
    let req = parse_request(raw);
    assert!(!b.request_would_overflow(&req));
    b.handle_request(req)
}

#[test]
fn parse_allocate() {
    match parse_request(b"ALLOCATE data_processing 256\n") {
        Request::Allocate { name, size_mb } => {
            assert_eq!(name, "data_processing");
            assert_eq!(size_mb, 256);
        }
        _ => panic!("not an allocation"),
    }
    match parse_request(b"ALLOCATE x lots") {
        Request::Allocate { size_mb, .. } => assert_eq!(size_mb, 0),
        _ => panic!("not an allocation"),
    }
    assert!(matches!(parse_request(b"ALLOCATE x"), Request::Usage(UsageKind::Allocate)));
}

#[test]
fn parse_text_write_joins_words() {
    match parse_request(b"WRITE pool_1 12 Hello   remote\tRAM\n") {
        Request::Write { pool_id, offset, data } => {
            assert_eq!(pool_id, "pool_1");
            assert_eq!(offset, 12);
            assert_eq!(data, b"Hello remote RAM".to_vec());
        }
        _ => panic!("not a write"),
    }
    match parse_request(b"WRITE pool_1 5") {
        Request::Write { data, .. } => assert!(data.is_empty()),
        _ => panic!("not a write"),
    }
    assert!(matches!(parse_request(b"WRITE pool_1"), Request::Usage(UsageKind::Write)));
}

#[test]
fn parse_text_write_replaces_invalid_utf8() {
    match parse_request(b"WRITE p 0 a\xffb") {
        Request::Write { data, .. } => assert_eq!(data, "a\u{fffd}b".as_bytes().to_vec()),
        _ => panic!("not a write"),
    }
}

#[test]
fn parse_binary_write_takes_bytes_after_newline() {
    let raw = b"WRITE_BIN pool_1 3\n\x00\x01 \xff\n";
    match parse_request(raw) {
        Request::Write { pool_id, offset, data } => {
            assert_eq!(pool_id, "pool_1");
            assert_eq!(offset, 3);
            assert_eq!(data, vec![0, 1, b' ', 0xff, b'\n']);
        }
        _ => panic!("not a write"),
    }
    match parse_request(b"WRITE_BIN pool_1 3") {
        Request::Write { data, .. } => assert_eq!(data, b"RITE_BIN pool_1 3".to_vec()),
        _ => panic!("not a write"),
    }
    assert!(matches!(parse_request(b"WRITE_BIN p"), Request::Usage(UsageKind::WriteBin)));
}

#[test]
fn parse_read_status_ping_unknown() {
    match parse_request(b"READ pool_9 4 1024") {
        Request::Read { pool_id, offset, size } => {
            assert_eq!((pool_id.as_str(), offset, size), ("pool_9", 4, 1024));
        }
        _ => panic!("not a read"),
    }
    assert!(matches!(parse_request(b"READ pool_9 4"), Request::Usage(UsageKind::Read)));
    assert!(matches!(parse_request(b"STATUS"), Request::Status));
    assert!(matches!(parse_request(b"  PING  \r\n"), Request::Ping));
    assert!(matches!(parse_request(b"ping"), Request::Unknown));
    assert!(matches!(parse_request(b"LIST\n"), Request::List));
    assert!(matches!(parse_request(b"LISTS\n"), Request::Unknown));
    assert!(matches!(parse_request(b""), Request::Unknown));
    assert!(matches!(parse_request(b" \n "), Request::Unknown));
}

#[test]
fn parse_request_text_uses_given_text() {
    let chars: Vec<char> = "PING".chars().collect();
    assert!(matches!(parse_request_text(b"whatever", &chars), Request::Ping));
}

#[test]
fn session_answers() {
    let mut b = SystemMemoryBridge::new(512 * MIB, true);
    assert_eq!(serve(&mut b, b"PING\n"), "PONG");
    assert_eq!(serve(&mut b, b"ALLOCATE big 513\n"), "ERROR: Pool size 537919488 exceeds maximum 536870912");
    let ok = serve(&mut b, b"ALLOCATE data_processing 1\n");
    assert!(ok.starts_with("OK pool_") && ok.len() == 20, "{}", ok);
    let id = ok[3..].to_string();
    let w = format!("WRITE {} 0 Hello from local device!\n", id);
    assert_eq!(serve(&mut b, w.as_bytes()), "OK 24");
    let r = format!("READ {} 0 24\n", id);
    assert_eq!(serve(&mut b, r.as_bytes()), "OK 24\nHello from local device!");
    assert_eq!(b.read_from_pool_fast(&id, 0, 24), Ok(b"Hello from local device!".to_vec()));
    let bin = [format!("WRITE_BIN {} 100\n", id).into_bytes(), vec![0xde, 0xad, 0xbe, 0xef]].concat();
    assert_eq!(serve(&mut b, &bin), "OK 4");
    assert_eq!(b.read_from_pool_fast(&id, 100, 4), Ok(vec![0xde, 0xad, 0xbe, 0xef]));
    let far = format!("READ {} {} 2\n", id, MIB - 1);
    assert_eq!(serve(&mut b, far.as_bytes()), "ERROR: Read exceeds pool size");
    let farw = format!("WRITE {} {} ab\n", id, MIB - 1);
    assert_eq!(serve(&mut b, farw.as_bytes()), "ERROR: Write exceeds pool size: 1048577 > 1048576");
    assert_eq!(serve(&mut b, b"READ pool_000000000000 0 1"), "ERROR: Pool not found");
    assert_eq!(serve(&mut b, b"STATUS"), "Remote RAM: 1MB | Pools: 1 | Registered with system");
    assert_eq!(serve(&mut b, b"ALLOCATE x"), "ERROR: ALLOCATE <name> <size_mb>");
    assert_eq!(serve(&mut b, b"WRITE x"), "ERROR: WRITE <pool_id> <offset>");
    assert_eq!(serve(&mut b, b"WRITE_BIN x"), "ERROR: WRITE_BIN <pool_id> <offset>");
    assert_eq!(serve(&mut b, b"READ x 1"), "ERROR: READ <pool_id> <offset> <size>");
    assert_eq!(serve(&mut b, b"DELETE"), "ERROR: DELETE <pool_id>");
    assert_eq!(serve(&mut b, b"INFO"), "ERROR: INFO <pool_id>");
    assert_eq!(serve(&mut b, b"READ_BIN x 1"), "ERROR: READ_BIN <pool_id> <offset> <size>");
    assert_eq!(serve(&mut b, b"FETCH x"), "ERROR: Unknown command");
}

#[test]
fn overflowing_requests_are_detected() {
    let mut b = SystemMemoryBridge::new(usize::MAX, true);
    let huge = format!("ALLOCATE x {}", usize::MAX / MIB + 1);
    assert!(b.request_would_overflow(&parse_request(huge.as_bytes())));
    let beyond_isize = format!("ALLOCATE x {}", (isize::MAX as usize) / MIB + 1);
    assert!(b.request_would_overflow(&parse_request(beyond_isize.as_bytes())));
    let id = b.allocate_pool_with_uuid("x", 4, "000000000000".to_string()).unwrap();
    let w = format!("WRITE {} {} ab", id, usize::MAX);
    assert!(b.request_would_overflow(&parse_request(w.as_bytes())));
    let w_unknown = format!("WRITE pool_zzz {} ab", usize::MAX);
    assert!(!b.request_would_overflow(&parse_request(w_unknown.as_bytes())));
    let r = format!("READ {} 1 {}", id, usize::MAX);
    assert!(b.request_would_overflow(&parse_request(r.as_bytes())));
    assert!(!b.request_would_overflow(&parse_request(b"ALLOCATE x 1")));
    assert!(!b.request_would_overflow(&parse_request(b"PING")));
}

#[test]
fn parse_new_commands() {
    match parse_request(b"DELETE pool_1\n") {
        Request::Delete { pool_id } => assert_eq!(pool_id, "pool_1"),
        _ => panic!("not a delete"),
    }
    match parse_request(b"INFO pool_2") {
        Request::Info { pool_id } => assert_eq!(pool_id, "pool_2"),
        _ => panic!("not an info"),
    }
    match parse_request(b"READ_BIN pool_3 1 2") {
        Request::Read { pool_id, offset, size } => {
            assert_eq!((pool_id.as_str(), offset, size), ("pool_3", 1, 2))
        }
        _ => panic!("not a read"),
    }
}

#[test]
fn delete_info_list_and_binary_read() {
    let mut b = SystemMemoryBridge::new(1024, true);
    let p = b.allocate_pool_with_uuid("a", 16, "aaaaaaaaaaaa".to_string()).unwrap();
    let q = b.allocate_pool_with_uuid("b", 8, "bbbbbbbbbbbb".to_string()).unwrap();
    let list = serve(&mut b, b"LIST");
    assert!(
        list == format!("OK [{}, {}]", p, q) || list == format!("OK [{}, {}]", q, p),
        "{}",
        list
    );
    let w = [format!("WRITE_BIN {} 2\n", p).into_bytes(), vec![0, 10, 255]].concat();
    assert_eq!(serve(&mut b, &w), "OK 3");
    assert_eq!(serve(&mut b, format!("INFO {}", p).as_bytes()), "OK size=16 used=5 accesses=1");
    let r = serve_bytes(&mut b, format!("READ_BIN {} 1 5", p).as_bytes());
    assert_eq!(r, [b"OK 5\n".to_vec(), vec![0, 0, 10, 255, 0]].concat());
    assert_eq!(serve(&mut b, format!("INFO {}", p).as_bytes()), "OK size=16 used=5 accesses=2");
    assert_eq!(b.total_remote_ram(), 24);
    assert_eq!(serve(&mut b, format!("DELETE {}", p).as_bytes()), "OK");
    assert!(!b.has_pool(&p));
    assert_eq!(b.total_remote_ram(), 8);
    assert_eq!(serve(&mut b, format!("DELETE {}", p).as_bytes()), "ERROR: Pool not found");
    assert_eq!(serve(&mut b, format!("INFO {}", p).as_bytes()), "ERROR: Pool not found");
    assert_eq!(serve(&mut b, b"LIST"), format!("OK [{}]", q));
    assert_eq!(serve(&mut b, format!("DELETE {}", q).as_bytes()), "OK");
    assert_eq!(serve(&mut b, b"LIST"), "OK []");
}

#[test]
fn next_request_frames_lines() {
    let buf = b"PING\nSTATUS\nREA";
    let (first, used) = next_request(buf).unwrap();
    assert!(matches!(first, Request::Ping));
    assert_eq!(used, 5);
    let (second, used2) = next_request(&buf[used..]).unwrap();
    assert!(matches!(second, Request::Status));
    assert_eq!(used2, 7);
    assert!(next_request(&buf[used + used2..]).is_none());
    assert!(next_request(b"").is_none());
    assert!(next_request(b"PING").is_none());
}

#[test]
fn next_request_frames_counted_binary_writes() {
    let buf = [b"WRITE_BIN p 4 3\n".to_vec(), vec![10, 10, 10], b"PING\n".to_vec()].concat();
    match next_request(&buf).unwrap() {
        (Request::Write { pool_id, offset, data }, used) => {
            assert_eq!((pool_id.as_str(), offset), ("p", 4));
            assert_eq!(data, vec![10, 10, 10]);
            assert_eq!(used, 19);
        }
        _ => panic!("not a write"),
    }
    // the payload has not all arrived yet
    assert!(next_request(&buf[..17]).is_none());
    // without a count, the payload is all that is buffered
    match next_request(b"WRITE_BIN p 0\nab\ncd").unwrap() {
        (Request::Write { data, .. }, used) => {
            assert_eq!(data, b"ab\ncd".to_vec());
            assert_eq!(used, 19);
        }
        _ => panic!("not a write"),
    }
}

#[test]
fn pipelined_requests_get_one_answer_each() {
    let mut b = SystemMemoryBridge::new(64, true);
    let served = b.serve_buffer(b"PING\nPING\n");
    assert_eq!(served.output, b"PONG\nPONG\n".to_vec());
    assert_eq!(served.consumed, 10);
    assert!(!served.halted);

    let p = b.allocate_pool_with_uuid("a", 8, "cccccccccccc".to_string()).unwrap();
    let buf = [
        format!("WRITE_BIN {} 0 2\n", p).into_bytes(),
        vec![b'h', b'i'],
        format!("READ {} 0 2\nSTA", p).into_bytes(),
    ]
    .concat();
    let served = b.serve_buffer(&buf);
    assert_eq!(served.output, b"OK 2\nOK 2\nhi\n".to_vec());
    assert_eq!(served.consumed, buf.len() - 3);
    assert!(!served.halted);
    let rest = [buf[served.consumed..].to_vec(), b"TUS\n".to_vec()].concat();
    let served = b.serve_buffer(&rest);
    assert_eq!(served.output, b"Remote RAM: 0MB | Pools: 1 | Registered with system\n".to_vec());
}

#[test]
fn serving_stops_before_an_overflowing_request() {
    let mut b = SystemMemoryBridge::new(usize::MAX, true);
    let p = b.allocate_pool_with_uuid("a", 8, "dddddddddddd".to_string()).unwrap();
    let buf = format!("PING\nREAD {} 1 {}\nPING\n", p, usize::MAX);
    let served = b.serve_buffer(buf.as_bytes());
    assert_eq!(served.output, b"PONG\n".to_vec());
    assert_eq!(served.consumed, 5);
    assert!(served.halted);
}

#[test]
fn every_text_answer_is_one_line() {
    let mut b = SystemMemoryBridge::new(4 * MIB, true);
    let p = b.allocate_pool_with_uuid("a", 16, "eeeeeeeeeeee".to_string()).unwrap();
    let requests = [
        "PING".to_string(),
        "ALLOCATE big 9".to_string(),
        "ALLOCATE ok 1".to_string(),
        format!("WRITE {} 0 x", p),
        format!("WRITE {} 15 xy", p),
        format!("READ {} 15 2", p),
        format!("INFO {}", p),
        "LIST".to_string(),
        "STATUS".to_string(),
        "DELETE nothing".to_string(),
        "READ x".to_string(),
        "HELLO".to_string(),
    ];
    let mut buf = Vec::new();
    for r in requests.iter() {
        buf.extend_from_slice(r.as_bytes());
        buf.push(b'\n');
    }
    let served = b.serve_buffer(&buf);
    assert!(!served.halted);
    assert_eq!(served.consumed, buf.len());
    let out = String::from_utf8(served.output).unwrap();
    let lines: Vec<&str> = out.split_terminator('\n').collect();
    assert_eq!(lines.len(), requests.len(), "{:?}", lines);
    assert_eq!(lines[0], "PONG");
    assert!(lines[1].starts_with("ERROR: Pool size"));
    assert!(lines[2].starts_with("OK pool_"));
    assert_eq!(lines[3], "OK 1");
    assert_eq!(lines[4], "ERROR: Write exceeds pool size: 17 > 16");
    assert_eq!(lines[5], "ERROR: Read exceeds pool size");
    assert_eq!(lines[6], "OK size=16 used=1 accesses=1");
    assert!(lines[7].starts_with("OK [") && lines[7].ends_with(']'));
    assert_eq!(lines[8], "Remote RAM: 1MB | Pools: 2 | Registered with system");
    assert_eq!(lines[9], "ERROR: Pool not found");
    assert_eq!(lines[10], "ERROR: READ <pool_id> <offset> <size>");
    assert_eq!(lines[11], "ERROR: Unknown command");
}
