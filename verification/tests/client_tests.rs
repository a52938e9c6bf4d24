use remote_ram::client::{
    allocate_request, delete_request, info_request, parse_ack_response, parse_allocate_response,
    parse_info_response, parse_list_response, parse_ping_response, parse_read_response,
    read_answer_is_complete,
    read_request, write_request, LIST_REQUEST, PING_REQUEST,
};

#[test]
fn request_texts() {
    assert_eq!(allocate_request("data_processing", 256), "ALLOCATE data_processing 256\n");
    assert_eq!(write_request("pool_1", 0, b"Hello"), b"WRITE_BIN pool_1 0 5\nHello".to_vec());
    assert_eq!(write_request("pool_1", 7, b"a \xff\n"), b"WRITE_BIN pool_1 7 4\na \xff\n".to_vec());
    assert_eq!(write_request("p", 0, b""), b"WRITE_BIN p 0 0\n".to_vec());
    assert_eq!(read_request("pool_1", 3, 59), "READ pool_1 3 59\n");
    assert_eq!(info_request("pool_1"), "INFO pool_1\n");
    assert_eq!(delete_request("pool_1"), "DELETE pool_1\n");
    assert_eq!(LIST_REQUEST, "LIST\n");
    assert_eq!(PING_REQUEST, "PING\n");
}

#[test]
fn allocate_answers() {
    assert_eq!(parse_allocate_response(b"OK pool_0123456789ab\n"), Ok("pool_0123456789ab".to_string()));
    assert_eq!(parse_allocate_response(b"OK"), Ok(String::new()));
    assert_eq!(parse_allocate_response(b"OKAY a b"), Ok("a".to_string()));
    assert_eq!(
        parse_allocate_response(b"ERROR: Pool size 9 exceeds maximum 1\n"),
        Err("ERROR: Pool size 9 exceeds maximum 1\n".to_string())
    );
    assert_eq!(parse_allocate_response(b" OK x"), Err(" OK x".to_string()));
}

#[test]
fn ack_answers() {
    assert_eq!(parse_ack_response(b"OK 5\n"), Ok(()));
    assert_eq!(parse_ack_response(b"ERROR: Pool not found\n"), Err("ERROR: Pool not found\n".to_string()));
    assert_eq!(parse_ack_response(b""), Err(String::new()));
}

#[test]
fn read_answers() {
    assert_eq!(parse_read_response(b"OK 5\nHello\n"), Ok(b"Hello".to_vec()));
    assert_eq!(parse_read_response(b"OK 3\n\n\xff \n"), Ok(vec![10, 0xff, b' ']));
    assert_eq!(parse_read_response(b"OK 0\n\n"), Ok(vec![]));
    assert_eq!(parse_read_response(b"OK 9\nshort\n"), Err("OK 9\nshort\n".to_string()));
    assert_eq!(parse_read_response(b"OK 5"), Err("OK 5".to_string()));
    assert_eq!(parse_read_response(b"ERROR: Read exceeds pool size\n"), Err("ERROR: Read exceeds pool size\n".to_string()));
}

#[test]
fn read_answer_completeness() {
    assert!(!read_answer_is_complete(b"OK 5"));
    assert!(!read_answer_is_complete(b"OK 5\nHel"));
    assert!(!read_answer_is_complete(b"OK 5\nHello"));
    assert!(read_answer_is_complete(b"OK 5\nHello\n"));
    assert!(read_answer_is_complete(b"ERROR: Pool not found\n"));
    assert!(!read_answer_is_complete(b"ERROR: Pool not"));
}

#[test]
fn info_answers() {
    assert_eq!(parse_info_response(b"OK size=1MB used=0\n"), Ok("size=1MB used=0".to_string()));
    assert_eq!(parse_info_response(b"ERROR: Unknown command\n"), Err("ERROR: Unknown command\n".to_string()));
}

#[test]
fn list_answers() {
    assert_eq!(
        parse_list_response(b"OK [pool_a, pool_b, pool_c]\n"),
        Ok(vec!["pool_a".to_string(), "pool_b".to_string(), "pool_c".to_string()])
    );
    assert_eq!(parse_list_response(b"OK []"), Ok(vec![String::new()]));
    assert_eq!(parse_list_response(b"OK [[a,b, c]]"), Ok(vec!["a,b".to_string(), "c".to_string()]));
    assert_eq!(parse_list_response(b"OK [a,, b]"), Ok(vec!["a,".to_string(), "b".to_string()]));
    assert_eq!(parse_list_response(b"ERROR: Unknown command\n"), Err("ERROR: Unknown command\n".to_string()));
}

#[test]
fn list_agrees_with_std_split() {
    for inner in ["a, b", ", ", ",, ", "a , b", "x", "", "a, , b,  c"] {
        let resp = format!("OK [{}]", inner);
        let expect: Vec<String> = inner.split(", ").map(|s| s.to_string()).collect();
        assert_eq!(parse_list_response(resp.as_bytes()), Ok(expect), "{:?}", inner);
    }
}

#[test]
fn ping_answers() {
    assert!(parse_ping_response(b"PONG\n"));
    assert!(parse_ping_response(b"  PONG  "));
    assert!(!parse_ping_response(b"PONG PONG"));
    assert!(!parse_ping_response(b"ERROR: Unknown command"));
}
