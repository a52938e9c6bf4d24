use remote_ram::bridge::SystemMemoryBridge;
use remote_ram::client::{
    allocate_request, delete_request, info_request, parse_ack_response, parse_allocate_response,
    parse_info_response, parse_list_response, parse_ping_response, parse_read_response,
    read_answer_is_complete, read_request, write_request, LIST_REQUEST, PING_REQUEST,
};

/// Serves everything that a client sent and gives what the server writes back.
fn exchange(server: &mut SystemMemoryBridge, request: &[u8]) -> Vec<u8> {
    let served = server.serve_buffer(request);
    assert!(!served.halted);
    assert_eq!(served.consumed, request.len());
    served.output
}

#[test]
fn client_and_server_agree() {
    let mut server = SystemMemoryBridge::new(512 * 1024 * 1024, true);
    assert!(parse_ping_response(&exchange(&mut server, PING_REQUEST.as_bytes())));

    let answer = exchange(&mut server, allocate_request("data_processing", 256).as_bytes());
    let pool_id = parse_allocate_response(&answer).unwrap();
    assert!(server.has_pool(&pool_id));

    let data = b"Hello from local device! This is data stored in remote RAM.";
    let answer = exchange(&mut server, &write_request(&pool_id, 0, data));
    assert_eq!(parse_ack_response(&answer), Ok(()));

    let answer = exchange(&mut server, read_request(&pool_id, 0, data.len()).as_bytes());
    assert!(read_answer_is_complete(&answer));
    assert_eq!(parse_read_response(&answer), Ok(data.to_vec()));

    let answer = exchange(&mut server, info_request(&pool_id).as_bytes());
    assert_eq!(
        parse_info_response(&answer),
        Ok(format!("size={} used={} accesses=2", 256 * 1024 * 1024, data.len()))
    );
    let answer = exchange(&mut server, LIST_REQUEST.as_bytes());
    assert_eq!(parse_list_response(&answer), Ok(vec![pool_id.clone()]));

    let answer = exchange(&mut server, delete_request(&pool_id).as_bytes());
    assert_eq!(parse_ack_response(&answer), Ok(()));
    assert!(!server.has_pool(&pool_id));
}

#[test]
fn binary_data_survives_the_round_trip() {
    let mut server = SystemMemoryBridge::new(1 << 20, true);
    let pool_id = parse_allocate_response(&exchange(&mut server, allocate_request("p", 1).as_bytes())).unwrap();
    let data: Vec<u8> = vec![0xAB, 0xAB, b' ', b' ', b'\n', 0, 0xff, b'\r'];
    let answer = exchange(&mut server, &write_request(&pool_id, 100, &data));
    assert_eq!(answer, b"OK 8\n".to_vec());
    let answer = exchange(&mut server, read_request(&pool_id, 100, data.len()).as_bytes());
    assert_eq!(parse_read_response(&answer), Ok(data.clone()));
    assert_eq!(server.read_from_pool_fast(&pool_id, 100, data.len()), Ok(data));
}

#[test]
fn pipelined_client_requests() {
    let mut server = SystemMemoryBridge::new(64, true);
    let pool_id = server.allocate_pool_with_uuid("p", 8, "0a0a0a0a0a0a".to_string()).unwrap();
    let batch = [
        PING_REQUEST.as_bytes().to_vec(),
        write_request(&pool_id, 0, b"abc"),
        read_request(&pool_id, 1, 2).into_bytes(),
        PING_REQUEST.as_bytes().to_vec(),
    ]
    .concat();
    let out = exchange(&mut server, &batch);
    assert_eq!(out, b"PONG\nOK 3\nOK 2\nbc\nPONG\n".to_vec());
}

#[test]
fn allocation_over_limit_reaches_the_client_as_error() {
    let mut server = SystemMemoryBridge::new(1024 * 1024, true);
    let answer = exchange(&mut server, allocate_request("big", 2).as_bytes());
    assert_eq!(
        parse_allocate_response(&answer),
        Err("ERROR: Pool size 2097152 exceeds maximum 1048576\n".to_string())
    );
}
