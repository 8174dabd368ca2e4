use arbitrage_arena::protocol::submission::{
    drain_submissions, DeserializeError, Direction, RouteSubmission, RouteSubmissionLeg, SubmissionResponse, MAX_LEGS,
    MAX_SUBMISSION_WIRE_SIZE, SUBMISSION_HEADER_WIRE_SIZE,
};

fn leg_bytes(pair_id: u64, dir: u8, price: u64, volume: u64) -> [u8; RouteSubmissionLeg::WIRE_SIZE] {
    let mut b = [0u8; RouteSubmissionLeg::WIRE_SIZE];
    b[0..8].copy_from_slice(&pair_id.to_le_bytes());
    b[8] = dir;
    b[9..17].copy_from_slice(&price.to_le_bytes());
    b[17..25].copy_from_slice(&volume.to_le_bytes());
    b
}

fn frame(sub_id: u64, legs: &[[u8; RouteSubmissionLeg::WIRE_SIZE]]) -> Vec<u8> {
    let mut out = Vec::with_capacity(SUBMISSION_HEADER_WIRE_SIZE + legs.len() * RouteSubmissionLeg::WIRE_SIZE);
    out.extend_from_slice(&sub_id.to_le_bytes());
    out.push(legs.len() as u8);
    for l in legs {
        out.extend_from_slice(l);
    }
    out
}

#[test]
fn leg_wire_size_is_25() {
    assert_eq!(RouteSubmissionLeg::WIRE_SIZE, 25);
}

#[test]
fn deserialize_single_leg() {
    let buf = frame(7, &[leg_bytes(42, 1, 1_000_000, 5)]);
    let (sub, n) = RouteSubmission::deserialize(&buf).unwrap();
    assert_eq!(n, buf.len());
    assert_eq!(sub.sub_id, 7);
    assert_eq!(sub.legs.len(), 1);
    let leg = &sub.legs[0];
    assert_eq!(leg.pair_id, 42);
    assert_eq!(leg.direction, Direction::Sell);
    assert_eq!(leg.price, 1_000_000);
    assert_eq!(leg.volume, 5);
}

#[test]
fn deserialize_multiple_legs() {
    let buf = frame(99, &[leg_bytes(1, 0, 100, 1), leg_bytes(2, 1, 200, 2), leg_bytes(3, 0, 300, 3)]);
    let (sub, n) = RouteSubmission::deserialize(&buf).unwrap();
    assert_eq!(n, buf.len());
    assert_eq!(sub.sub_id, 99);
    assert_eq!(sub.legs.len(), 3);
    assert_eq!(sub.legs[0].pair_id, 1);
    assert_eq!(sub.legs[1].direction, Direction::Sell);
    assert_eq!(sub.legs[2].volume, 3);
}

#[test]
fn coalesced_two_submissions() {
    let mut buf = frame(1, &[leg_bytes(10, 0, 10, 10)]);
    buf.extend_from_slice(&frame(2, &[leg_bytes(20, 1, 20, 20), leg_bytes(21, 0, 21, 21)]));
    let total = buf.len();

    let (a, na) = RouteSubmission::deserialize(&buf).unwrap();
    assert_eq!(a.sub_id, 1);
    assert_eq!(a.legs.len(), 1);

    let (b, nb) = RouteSubmission::deserialize(&buf[na..]).unwrap();
    assert_eq!(b.sub_id, 2);
    assert_eq!(b.legs.len(), 2);
    assert_eq!(na + nb, total);
}

#[test]
fn incomplete_header() {
    let err = RouteSubmission::deserialize(&[0u8; 4]).unwrap_err();
    assert!(matches!(err, DeserializeError::Incomplete));
}

#[test]
fn incomplete_legs() {
    let mut buf = frame(1, &[leg_bytes(0, 0, 0, 0), leg_bytes(0, 0, 0, 0)]);
    buf.truncate(buf.len() - 1);
    let err = RouteSubmission::deserialize(&buf).unwrap_err();
    assert!(matches!(err, DeserializeError::Incomplete));
}

#[test]
fn zero_legs_rejected() {
    let buf = frame(1, &[]);
    let err = RouteSubmission::deserialize(&buf).unwrap_err();
    assert!(matches!(err, DeserializeError::EmptySubmission));
}

#[test]
fn too_many_legs_rejected_before_waiting_for_bytes() {
    // Header claims MAX_LEGS + 1 but no leg bytes follow — must fail
    // immediately (not block waiting for more bytes).
    let mut buf = Vec::new();
    buf.extend_from_slice(&1u64.to_le_bytes());
    buf.push(MAX_LEGS + 1);
    let err = RouteSubmission::deserialize(&buf).unwrap_err();
    assert!(matches!(
        err,
        DeserializeError::TooManyLegs { got, max } if got == MAX_LEGS + 1 && max == MAX_LEGS
    ));
}

#[test]
fn bad_direction_rejected() {
    let buf = frame(1, &[leg_bytes(0, 42, 0, 0)]);
    let err = RouteSubmission::deserialize(&buf).unwrap_err();
    assert!(matches!(err, DeserializeError::BadDirection { value: 42 }));
}

#[test]
fn response_to_bytes_roundtrip() {
    let r = SubmissionResponse {
        sub_id: 0xDEAD_BEEF,
        ok: 1,
        balance: -1_234_567,
    };
    let bytes = r.to_bytes();
    assert_eq!(bytes.len(), SubmissionResponse::WIRE_SIZE);
    assert_eq!(u64::from_le_bytes(bytes[0..8].try_into().unwrap()), r.sub_id);
    assert_eq!(bytes[8], r.ok);
    assert_eq!(i64::from_le_bytes(bytes[9..17].try_into().unwrap()), r.balance);
}

#[test]
fn sizes_add_up() {
    assert_eq!(
        MAX_SUBMISSION_WIRE_SIZE,
        SUBMISSION_HEADER_WIRE_SIZE + MAX_LEGS as usize * RouteSubmissionLeg::WIRE_SIZE
    );
    let legs = vec![leg_bytes(1, 0, 2, 3); MAX_LEGS as usize];
    let buf = frame(5, &legs);
    assert_eq!(buf.len(), MAX_SUBMISSION_WIRE_SIZE);
    let (sub, n) = RouteSubmission::deserialize(&buf).unwrap();
    assert_eq!((sub.legs.len(), n), (32, 809));
}

#[test]
fn errors_in_words() {
    assert_eq!(DeserializeError::Incomplete.message(), "incomplete submission");
    assert_eq!(DeserializeError::EmptySubmission.message(), "submission has zero legs");
    assert_eq!(
        DeserializeError::TooManyLegs { got: 200, max: 32 }.message(),
        "submission has 200 legs (max 32)"
    );
    assert_eq!(
        DeserializeError::BadDirection { value: 42 }.message(),
        "leg direction 42 is neither 0 (buy) nor 1 (sell)"
    );
}

#[test]
fn first_bad_direction_is_named() {
    let buf = frame(1, &[leg_bytes(0, 1, 0, 0), leg_bytes(0, 2, 0, 0), leg_bytes(0, 3, 0, 0)]);
    assert_eq!(RouteSubmission::deserialize(&buf).unwrap_err(), DeserializeError::BadDirection { value: 2 });
}

#[test]
fn draining_takes_all_whole_submissions() {
    let mut buf = frame(1, &[leg_bytes(10, 0, 10, 10)]);
    buf.extend_from_slice(&frame(2, &[leg_bytes(20, 1, 20, 20), leg_bytes(21, 0, 21, 21)]));
    let whole = buf.len();
    buf.extend_from_slice(&frame(3, &[leg_bytes(1, 0, 1, 1)])[..33]);
    let (subs, used, error) = drain_submissions(&buf);
    assert_eq!(subs.iter().map(|s| s.sub_id).collect::<Vec<_>>(), vec![1, 2]);
    assert_eq!(used, whole);
    assert_eq!(error, None);
}

#[test]
fn draining_stops_at_a_bad_frame() {
    let mut buf = frame(1, &[leg_bytes(10, 0, 10, 10)]);
    buf.extend_from_slice(&frame(2, &[]));
    buf.extend_from_slice(&frame(3, &[leg_bytes(1, 0, 1, 1)]));
    let (subs, used, error) = drain_submissions(&buf);
    assert_eq!((subs.len(), used, error), (1, 34, Some(DeserializeError::EmptySubmission)));
}

#[test]
fn response_bytes() {
    let r = SubmissionResponse { sub_id: 0x0102, ok: 1, balance: -2 };
    assert_eq!(
        r.to_bytes(),
        [2, 1, 0, 0, 0, 0, 0, 0, 1, 0xfe, 0xff, 0xff, 0xff, 0xff, 0xff, 0xff, 0xff]
    );
}

#[test]
fn a_verdict_stands_when_more_bytes_come() {
    let mut bad = frame(1, &[leg_bytes(0, 7, 0, 0)]);
    let mut good = frame(2, &[leg_bytes(9, 1, 8, 7)]);
    let before = RouteSubmission::deserialize(&good).unwrap();
    bad.extend_from_slice(&[0; 100]);
    good.extend_from_slice(&[0; 100]);
    assert_eq!(RouteSubmission::deserialize(&bad).unwrap_err(), DeserializeError::BadDirection { value: 7 });
    let after = RouteSubmission::deserialize(&good).unwrap();
    assert_eq!((before.0.sub_id, &before.0.legs, before.1), (after.0.sub_id, &after.0.legs, after.1));
}
