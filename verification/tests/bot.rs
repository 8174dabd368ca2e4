use arbitrage_arena::bot::{
    describe_packet, find, http_request, is_multicast, parse_response, ready_path, registered_id, split_address,
};
use arbitrage_arena::protocol::feed::PriceUpdate;

#[test]
fn the_first_match_is_found() {
    assert_eq!(find(b"abcabc", b"bc"), Some(1));
    assert_eq!(find(b"aab", b"ab"), Some(1));
    assert_eq!(find(b"abc", b"abcd"), None);
    assert_eq!(find(b"abc", b"x"), None);
    assert_eq!(find(b"abc", b"abc"), Some(0));
}

#[test]
fn addresses_split_at_the_last_colon() {
    assert_eq!(split_address("10.0.0.1:9003"), Some(("10.0.0.1", "9003")));
    assert_eq!(split_address("[::1]:80"), Some(("[::1]", "80")));
    assert_eq!(split_address("höst:"), Some(("höst", "")));
    assert_eq!(split_address("host"), None);
}

#[test]
fn requests_name_the_host() {
    assert_eq!(
        http_request("GET", "/market", "sim:9003"),
        "GET /market HTTP/1.1\r\nHost: sim\r\nConnection: close\r\n\r\n"
    );
    assert_eq!(
        http_request("POST", &ready_path(17), "sim"),
        "POST /17/ready HTTP/1.1\r\nHost: sim\r\nConnection: close\r\n\r\n"
    );
}

#[test]
fn the_body_of_a_response() {
    assert_eq!(parse_response(b"HTTP/1.1 200 OK\r\nA: b\r\n\r\nbody\r\n\r\n").unwrap(), b"body\r\n\r\n");
    assert_eq!(parse_response(b"HTTP/1.1 200 OK\r\n\r\n").unwrap(), b"");
}

#[test]
fn responses_that_fail() {
    let e = parse_response(b"HTTP/1.1 200 OK\r\n").unwrap_err();
    assert_eq!(e.message(), "no \\r\\n\\r\\n in response");
    let e = parse_response(b"HTTP/1.1 403 Forbidden\r\nX: 200 \r\n\r\n").unwrap_err();
    assert_eq!(e.message(), "bad HTTP status: HTTP/1.1 403 Forbidden");
    let e = parse_response("HTTP/1.1 500 schön\r\n\r\n".as_bytes()).unwrap_err();
    assert_eq!(e.message(), "bad HTTP status: HTTP/1.1 500 schön");
    let e = parse_response(b"HTTP/1.1 200 \xff\r\n\r\n").unwrap_err();
    assert_eq!(e.message(), "bad HTTP status: (non-utf8 status)");
    let e = parse_response(b"200 \r\n\r\n").unwrap_err();
    assert_eq!(e.message(), "bad HTTP status: 200 ");
}

#[test]
fn ids_take_eight_bytes() {
    assert_eq!(registered_id(&[1, 1, 0, 0, 0, 0, 0, 0, 9]), Some(257));
    assert_eq!(registered_id(&[1; 7]), None);
}

#[test]
fn packets_are_described() {
    let u = PriceUpdate { seq: 4, token_pair_id: 5, price: 60, volume: 700 };
    assert_eq!(
        describe_packet(3, &u.as_bytes()),
        ("[example-bot] tick #3: seq=4 pair_id=5 price=60 volume=700".to_string(), true)
    );
    assert_eq!(
        describe_packet(3, &[0; 5]),
        ("[example-bot] tick #3: short packet (5 bytes)".to_string(), false)
    );
}

#[test]
fn multicast_groups_begin_with_224_to_239() {
    assert!(!is_multicast(223) && is_multicast(224) && is_multicast(239) && !is_multicast(240));
    assert_eq!((0..=255).filter(|octet| is_multicast(*octet)).count(), 16);
}
