use rand::{RngCore, SeedableRng};
use rand_pcg::Pcg64Mcg;

use arbitrage_arena::boot::{boot_step, seeds_of, BootStep};
use arbitrage_arena::cores::{pick_cores, CoreLayout, TooFewCores};
use arbitrage_arena::net::http::HttpServerState;
use arbitrage_arena::net::tcp::{
    read_handshake, NotRegistered, Streams, SubmissionReader, TcpReceiveOutcome, SUBMISSION_READ_BUF,
};
use arbitrage_arena::net::udp::UdpSendOutcome;
use arbitrage_arena::protocol::submission::DeserializeError;

fn server() -> HttpServerState {
    HttpServerState::new(vec![1, 2, 3], b"{}".to_vec(), 11)
}

fn first_id(s: &mut HttpServerState) -> u64 {
    let reply = s.post_register();
    assert_eq!((reply.status, reply.content_type), (200, "application/octet-stream"));
    u64::from_le_bytes(reply.body.try_into().unwrap())
}

#[test]
fn ids_come_from_the_seeded_generator() {
    let mut s = server();
    let mut rng = Pcg64Mcg::seed_from_u64(11);
    for _ in 0..5 {
        let id = first_id(&mut s);
        assert_eq!(id, rng.next_u64());
        assert!(s.is_registered(id));
    }
    assert!(!s.is_registered(11));
}

#[test]
fn only_registered_contestants_get_ready() {
    let mut s = server();
    let reply = s.post_ready(5);
    assert_eq!((reply.status, reply.body.as_slice()), (403, b"id not registered".as_slice()));
    assert_eq!(s.ready_count(), 0);
    let id = first_id(&mut s);
    let reply = s.post_ready(id);
    assert_eq!((reply.status, reply.body.len()), (200, 0));
    s.post_ready(id);
    assert_eq!(s.ready_count(), 1);
}

#[test]
fn an_enrolled_id_is_given_as_bytes() {
    let mut s = server();
    assert_eq!(s.enroll(0x0102).body, vec![2, 1, 0, 0, 0, 0, 0, 0]);
    assert!(s.is_registered(0x0102));
}

#[test]
fn requests_are_turned_away_once_the_run_starts() {
    let mut s = server();
    let id = first_id(&mut s);
    assert_eq!((s.get_market().status, s.get_market().body), (200, vec![1, 2, 3]));
    let json = s.get_market_json();
    assert_eq!((json.content_type, json.body), ("application/json", b"{}".to_vec()));
    let health = s.get_health();
    assert_eq!((health.status, health.body), (200, b"ok".to_vec()));
    s.complete();
    let health = s.get_health();
    assert_eq!((health.status, health.content_type, health.body), (503, "", vec![]));
    assert_eq!(s.get_market().status, 503);
    assert_eq!(s.get_market_json().status, 503);
    assert_eq!(s.post_register().status, 503);
    assert_eq!(s.post_ready(id).status, 503);
    assert_eq!(s.ready_count(), 0);
}

#[test]
fn ready_contestants_are_seeded() {
    let mut s = server();
    let a = first_id(&mut s);
    let b = first_id(&mut s);
    first_id(&mut s);
    s.post_ready(a);
    s.post_ready(b);
    let c = s.seed_contestants(100, 6);
    assert_eq!(c.len(), 2);
    for id in [a, b] {
        assert_eq!((c[&id]._id, c[&id].balance), (id, 100_000_000));
    }
}

#[test]
fn handshakes_name_a_registered_contestant() {
    let mut s = server();
    let id = first_id(&mut s);
    assert_eq!(read_handshake(&id.to_le_bytes(), &s), Ok(id));
    let e = read_handshake(&7u64.to_le_bytes(), &s).unwrap_err();
    assert_eq!(e, NotRegistered { id: 7 });
    assert_eq!(e.message(), "contestant id 7 not registered");
}

#[test]
fn a_contestant_has_one_stream() {
    let mut streams = Streams::new();
    streams.on_rejected();
    assert!(!streams.on_accepted(1));
    assert!(!streams.on_accepted(2));
    assert!(streams.on_accepted(1));
    assert!(streams.on_accepted(1));
    let out = streams.outcome();
    assert_eq!((out.streams_accepted, out.streams_rejected, out.streams_replaced), (4, 1, 2));
}

#[test]
fn stream_counts() {
    let mut out = TcpReceiveOutcome::new();
    let mut reader = SubmissionReader::new();
    let bytes = [frame(1, 0), frame(2, 1)].concat();
    let got = reader.receive(&bytes);
    assert!(out.on_read(bytes.len(), &got, 2));
    assert_eq!((out.bytes_read, out.submissions_forwarded), (68, 2));
    out.on_disconnected();
    out.on_disconnected();
    assert_eq!((out.submissions_dropped_bad, out.streams_disconnected), (0, 2));
    out.bytes_read = u64::MAX;
    let got = reader.receive(&frame(3, 0)[..2]);
    assert!(out.on_read(2, &got, 0));
    assert_eq!(out.bytes_read, 1);
}

#[test]
fn a_stream_is_dropped_for_bad_framing_once_all_before_it_was_handed_on() {
    let bytes = [frame(1, 0), frame(2, 7)].concat();
    let mut out = TcpReceiveOutcome::new();
    let got = SubmissionReader::new().receive(&bytes);
    assert!(!out.on_read(bytes.len(), &got, 1));
    assert_eq!((out.submissions_forwarded, out.submissions_dropped_bad), (1, 1));
    // Nobody takes submissions any more: the framing behind them is not looked at.
    let mut out = TcpReceiveOutcome::new();
    let got = SubmissionReader::new().receive(&bytes);
    assert!(!out.on_read(bytes.len(), &got, 0));
    assert_eq!((out.submissions_forwarded, out.submissions_dropped_bad), (0, 0));
}

#[test]
fn the_counts_of_a_stream_do_not_depend_on_the_cuts() {
    let stream = [frame(1, 0), frame(2, 1), frame(3, 0), frame(4, 5), frame(5, 0)].concat();
    for size in [1, 2, 33, 34, 35, 69, 200] {
        let mut out = TcpReceiveOutcome::new();
        let mut reader = SubmissionReader::new();
        let mut ids = Vec::new();
        for chunk in stream.chunks(size) {
            let got = reader.receive(chunk);
            ids.extend(got.submissions.iter().map(|s| s.sub_id));
            if !out.on_read(chunk.len(), &got, got.submissions.len()) {
                break;
            }
        }
        assert_eq!(ids, vec![1, 2, 3]);
        assert_eq!((out.submissions_forwarded, out.submissions_dropped_bad), (3, 1));
    }
}

fn frame(sub_id: u64, direction: u8) -> Vec<u8> {
    let mut out = sub_id.to_le_bytes().to_vec();
    out.push(1);
    out.extend_from_slice(&3u64.to_le_bytes());
    out.push(direction);
    out.extend_from_slice(&[4; 16]);
    out
}

#[test]
fn a_stream_may_be_cut_anywhere() {
    let mut stream = frame(1, 0);
    stream.extend_from_slice(&frame(2, 1));
    stream.extend_from_slice(&frame(3, 0));
    for size in [1, 7, 34, 35, 100, 102] {
        let mut reader = SubmissionReader::new();
        let mut ids = Vec::new();
        for chunk in stream.chunks(size) {
            assert!(chunk.len() <= reader.room());
            let got = reader.receive(chunk);
            assert_eq!(got.error, None);
            ids.extend(got.submissions.iter().map(|s| s.sub_id));
        }
        assert_eq!(ids, vec![1, 2, 3]);
        assert_eq!(reader.room(), SUBMISSION_READ_BUF);
    }
}

#[test]
fn bad_framing_comes_after_what_was_whole() {
    let mut reader = SubmissionReader::new();
    assert_eq!(reader.room(), 4096);
    assert!(reader.receive(&frame(1, 0)[..10]).submissions.is_empty());
    assert_eq!(reader.room(), 4086);
    let mut rest = frame(1, 0)[10..].to_vec();
    rest.extend_from_slice(&frame(2, 9));
    let got = reader.receive(&rest);
    assert_eq!(got.submissions.len(), 1);
    assert_eq!(got.error, Some(DeserializeError::BadDirection { value: 9 }));
}

#[test]
fn sent_and_lost_updates() {
    let mut out = UdpSendOutcome::new();
    out.record(true);
    out.record(false);
    out.record(true);
    assert_eq!((out.sent, out.send_errors), (2, 1));
}

#[test]
fn threads_take_the_first_cores() {
    assert_eq!(pick_cores(&[5, 6, 7, 8, 9]), Ok(CoreLayout { tokio: 5, runloop: 6, udp: 7, tcp: 8 }));
    let e = pick_cores(&[1, 2, 3]).unwrap_err();
    assert_eq!(e, TooFewCores { found: 3 });
    assert_eq!(e.message(), "simulation needs at least 4 cores for its pinned thread layout, found 3");
}

#[test]
fn the_run_starts_with_all_contestants() {
    assert_eq!(boot_step(0, 1, 30), BootStep::Wait);
    assert_eq!(boot_step(0, 1, 31), BootStep::TimedOut);
    assert_eq!(boot_step(1, 1, 31), BootStep::Start);
    assert_eq!(boot_step(2, 1, 0), BootStep::TooMany);
}

#[test]
fn seeds_wrap_around() {
    let s = seeds_of(7);
    assert_eq!((s.market, s.feed, s.contestant_id), (7, 8, 9));
    let s = seeds_of(u64::MAX);
    assert_eq!((s.market, s.feed, s.contestant_id), (u64::MAX, 0, 1));
}
