use jerusalem::handle_connection::{request_header, route, Header, Route};

fn terms(line: &str) -> Option<usize> {
    match request_header(line) {
        Header::Terms(n) => Some(n),
        _ => None,
    }
}

#[test]
fn request_header_reads_the_count() {
    assert_eq!(terms("*3"), Some(3));
    assert_eq!(terms("*  12 \t"), Some(12));
    assert_eq!(terms("*+4"), Some(4));
    for line in ["*3", "* 7 ", "*+0", "*x", "*", "*-1", "*1 2"] {
        assert_eq!(terms(line), line[1..].trim().parse::<usize>().ok());
    }
}

#[test]
fn request_header_refuses_other_lines() {
    match request_header("PING") {
        Header::Refused(reply) => assert_eq!(reply, b"-ERR Protocol Error\r\n".to_vec()),
        _ => panic!("expected a refusal"),
    }
    assert!(matches!(request_header(""), Header::Refused(_)));
    match request_header("*abc") {
        Header::Broken(reason) => assert_eq!(reason, "Failed to parse"),
        _ => panic!("expected a broken header"),
    }
    assert!(matches!(request_header("*  "), Header::Broken(_)));
}

#[test]
fn route_by_first_term() {
    match route("ping") {
        Route::Reply(reply) => assert_eq!(reply, b"+PONG\r\n".to_vec()),
        _ => panic!("expected a reply"),
    }
    match route("Command") {
        Route::Reply(reply) => assert_eq!(reply, b"*0\r\n".to_vec()),
        _ => panic!("expected a reply"),
    }
    assert!(matches!(route("get"), Route::HandleGet));
    assert!(matches!(route("SET"), Route::HandleSet));
    assert!(matches!(route("del"), Route::HandleDel));
    assert!(matches!(route("exists"), Route::HandleExists));
    assert!(matches!(route("INCR"), Route::HandleIncr));
    match route("fly") {
        Route::Reply(reply) => assert_eq!(reply, b"-ERR Unknown command fly\r\n".to_vec()),
        _ => panic!("expected a reply"),
    }
}
