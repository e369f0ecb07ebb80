//! Double-sign guard tests: monotone approvals, replay rejection, the
//! durable record format, and the crash-safety scenario.

use tmkms::guard::Decision;
use tmkms::guard::DoubleSignGuard;
use tmkms::guard::HighWaterMark;
use tmkms::guard::parse_hwm;
use tmkms::guard::serialize_hwm;

fn mark(height: i64, round: i64, pol_round: i64, msg_type: u32) -> HighWaterMark {
    HighWaterMark {
        height,
        round,
        pol_round,
        msg_type,
    }
}

#[test]
fn approvals_are_strictly_monotone() {
    let chain = b"chain-a".to_vec();
    let mut guard = DoubleSignGuard::new();
    let run = vec![
        mark(1, 0, -1, 0x20),
        mark(1, 1, -1, 0x20),
        mark(1, 1, 0, 0x20),
        mark(1, 1, 0, 0x21),
        mark(2, 0, -1, 0x20),
    ];
    for slot in &run {
        assert_eq!(guard.check_and_reserve(&chain, slot), Decision::Approve);
        guard.commit(&chain, slot);
    }
    // Every earlier slot of the run is now below the mark and is refused.
    for slot in &run {
        assert_eq!(guard.check_and_reserve(&chain, slot), Decision::Reject);
    }
}

#[test]
fn equal_slot_is_never_approved_twice() {
    let chain = b"chain-a".to_vec();
    let mut guard = DoubleSignGuard::new();
    let slot = mark(10, 2, -1, 0x20);
    assert_eq!(guard.check_and_reserve(&chain, &slot), Decision::Approve);
    guard.commit(&chain, &slot);
    // The identical tuple, and replays of it, always yield Reject.
    for _ in 0..3 {
        assert_eq!(guard.check_and_reserve(&chain, &slot), Decision::Reject);
    }
    // Lesser tuples as well.
    assert_eq!(
        guard.check_and_reserve(&chain, &mark(10, 1, -1, 0x20)),
        Decision::Reject
    );
    assert_eq!(
        guard.check_and_reserve(&chain, &mark(9, 9, 9, 0x7F)),
        Decision::Reject
    );
}

#[test]
fn chains_are_independent() {
    let a = b"chain-a".to_vec();
    let b = b"chain-b".to_vec();
    let mut guard = DoubleSignGuard::new();
    let slot = mark(5, 0, -1, 0x20);
    guard.commit(&a, &slot);
    assert_eq!(guard.check_and_reserve(&a, &slot), Decision::Reject);
    assert_eq!(guard.check_and_reserve(&b, &slot), Decision::Approve);
}

#[test]
fn record_round_trips() {
    let h = mark(12345, 23456, -1, 32);
    let line = serialize_hwm(&h);
    assert_eq!(line, b"12345/23456/-1/32".to_vec());
    assert_eq!(parse_hwm(&line), Ok(h));

    let zero = mark(0, 0, 0, 0);
    assert_eq!(serialize_hwm(&zero), b"0/0/0/0".to_vec());
    assert_eq!(parse_hwm(&serialize_hwm(&zero)), Ok(zero));

    let lowest = mark(i64::MIN, i64::MIN, i64::MIN, 0);
    assert_eq!(parse_hwm(&serialize_hwm(&lowest)), Ok(lowest));

    let extreme = mark(i64::MAX, i64::MAX, -1, u32::MAX);
    assert_eq!(
        serialize_hwm(&extreme),
        b"9223372036854775807/9223372036854775807/-1/4294967295".to_vec()
    );
    assert_eq!(parse_hwm(&serialize_hwm(&extreme)), Ok(extreme));
}

#[test]
fn malformed_records_are_refused() {
    assert!(parse_hwm(&b"".to_vec()).is_err());
    assert!(parse_hwm(&b"1/2/3".to_vec()).is_err());
    assert!(parse_hwm(&b"1/2/3/x".to_vec()).is_err());
    assert!(parse_hwm(&b"1//3/32".to_vec()).is_err());
    assert!(parse_hwm(&b"01/2/3/32".to_vec()).is_err());
    assert!(parse_hwm(&b"1/2/3/32/".to_vec()).is_err());
    assert!(parse_hwm(&b"1/2/3/32\n".to_vec()).is_err());
    // The message kind must fit 32 bits.
    assert!(parse_hwm(&b"1/2/3/4294967296".to_vec()).is_err());
}

#[test]
fn crash_between_signed_and_committed_keeps_the_durable_mark() {
    let chain = b"chain-a".to_vec();

    // First process: approves and durably commits one slot.
    let committed = mark(7, 0, -1, 0x20);
    let mut guard = DoubleSignGuard::new();
    assert_eq!(guard.check_and_reserve(&chain, &committed), Decision::Approve);
    guard.commit(&chain, &committed);
    let durable = serialize_hwm(&committed);

    // The next slot is approved and signed, but the process dies before the
    // new mark reaches durable storage: `durable` still holds the old one.
    let in_flight = mark(8, 0, -1, 0x20);
    assert_eq!(guard.check_and_reserve(&chain, &in_flight), Decision::Approve);

    // Restart: state is reloaded from the durable record, never assumed
    // empty. Decisions are consistent with what was last durably committed.
    let recovered = parse_hwm(&durable).unwrap();
    let mut guard2 = DoubleSignGuard::new();
    guard2.commit(&chain, &recovered);
    assert_eq!(guard2.check_and_reserve(&chain, &committed), Decision::Reject);
    assert_eq!(
        guard2.check_and_reserve(&chain, &in_flight),
        Decision::Approve
    );
}
