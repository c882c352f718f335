use augr_core::repository::event::{Error as EventError, PatchedEvent};
use augr_core::{PatchRef, Timestamp};
use std::collections::BTreeSet;

fn dt(s: &str) -> Timestamp {
    Timestamp::parse(s).expect("Valid datetime")
}

const A: PatchRef = 0xa;
const B: PatchRef = 0xb;

#[test]
fn it_works() {
    assert_eq!(2 + 2, 4);
}

#[test]
fn remove_start_from_event() {
    let dt0 = dt("2019-07-23T12:00:00Z");
    let dt1 = dt("2019-07-23T12:30:00Z");

    let mut event = PatchedEvent::new();
    event.add_start(A, dt0);
    event.add_start(A, dt1);
    event.remove_start(A, dt0);

    let starts: BTreeSet<(PatchRef, Timestamp)> = event.starts().into_iter().collect();
    assert_eq!(starts, [(A, dt1)].iter().cloned().collect());
}

#[test]
fn remove_tag_from_event() {
    let mut event = PatchedEvent::new();
    event.add_tag(A, "hello".into());
    event.add_tag(A, "world".into());
    event.remove_tag(A, "world".into());

    let tags: BTreeSet<(PatchRef, String)> = event.tags().into_iter().collect();
    assert_eq!(tags, [(A, "hello".to_string())].iter().cloned().collect());
}

#[test]
fn adding_the_same_pair_twice_is_adding_it_once() {
    let t = dt("2019-07-23T12:00:00Z");
    let mut once = PatchedEvent::new();
    once.add_start(A, t);
    once.add_tag(A, "lunch".into());
    let mut twice = PatchedEvent::new();
    twice.add_start(A, t);
    twice.add_start(A, t);
    twice.add_tag(A, "lunch".into());
    twice.add_tag(A, "lunch".into());
    assert_eq!(once.starts(), twice.starts());
    assert_eq!(twice.starts().len(), 1);
    assert_eq!(once.tags(), twice.tags());
    assert_eq!(twice.tags().len(), 1);
}

#[test]
fn removal_before_addition_converges() {
    let t = dt("2019-07-23T12:00:00Z");
    let u = dt("2019-07-23T12:30:00Z");
    let mut e1 = PatchedEvent::new();
    e1.add_start(A, t);
    e1.add_start(B, u);
    e1.remove_start(A, t);
    let mut e2 = PatchedEvent::new();
    e2.remove_start(A, t);
    e2.add_start(B, u);
    e2.add_start(A, t);
    let s1: BTreeSet<_> = e1.starts().into_iter().collect();
    let s2: BTreeSet<_> = e2.starts().into_iter().collect();
    assert_eq!(s1, s2);
    assert_eq!(s1, [(B, u)].iter().cloned().collect());
}

#[test]
fn flatten_single_start() {
    let t = dt("2019-07-23T12:00:00Z");
    let mut e = PatchedEvent::new();
    e.add_start(A, t);
    e.add_tag(A, "lunch".into());
    e.add_tag(B, "lunch".into());
    e.add_tag(A, "food".into());
    e.remove_tag(A, "food".into());
    let flat = e.flatten().expect("one start time");
    assert_eq!(*flat.start(), t);
    assert_eq!(flat.tags(), &vec!["lunch".to_string()]);
}

#[test]
fn flatten_no_start_times() {
    let t = dt("2019-07-23T12:00:00Z");
    let mut e = PatchedEvent::new();
    assert_eq!(e.flatten().unwrap_err(), EventError::NoStartTimes);
    e.add_start(A, t);
    e.remove_start(A, t);
    assert_eq!(e.flatten().unwrap_err(), EventError::NoStartTimes);
}

#[test]
fn flatten_multiple_start_times() {
    let mut e = PatchedEvent::new();
    e.add_start(A, dt("2019-07-23T12:00:00Z"));
    e.add_start(B, dt("2019-07-23T12:00:00Z"));
    assert_eq!(e.flatten().unwrap_err(), EventError::MultipleStartTimes);
}

#[test]
fn timestamp_parse_reads_rfc3339() {
    let t = dt("2019-07-23T12:00:00Z");
    assert_eq!(t, Timestamp::new(1563883200, 0));
    let u = dt("2019-07-23T14:25:00.5+02:00");
    assert_eq!(u, Timestamp::new(1563884700, 500_000_000));
    assert!(Timestamp::parse("not a time").is_none());
}

#[test]
fn timestamp_order_and_difference() {
    let t = Timestamp::new(10, 999_999_999);
    let u = Timestamp::new(11, 0);
    assert!(t.is_before(&u));
    assert!(!u.is_before(&t));
    assert!(!t.is_before(&t));
    assert_eq!(u.signed_nanos_since(&t), 1);
    assert_eq!(t.signed_nanos_since(&u), -1);
    assert_eq!(Timestamp::new(100, 0).signed_nanos_since(&Timestamp::new(40, 0)), 60_000_000_000);
}

#[test]
fn now_is_after_2019() {
    let now = Timestamp::now();
    assert!(Timestamp::new(1563883200, 0).is_before(&now));
}
