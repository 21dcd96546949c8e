use server_bench::body::{IOTypeNotSend, ResponseBody};
use server_bench::requests::{request_message, LocalRequestCounter};
use server_bench::service::{
    hello_text, random_sleep_delays, service_delays, ServiceKind, MAX_RANDOM_SLEEP_STEPS, RANDOM_SLEEP_STEP_MICROS,
    SLEEP_MICROS,
};

#[test]
fn request_messages_are_decimal() {
    assert_eq!(request_message(0), "Request #0");
    assert_eq!(request_message(7), "Request #7");
    assert_eq!(request_message(10), "Request #10");
    assert_eq!(request_message(4294967295), "Request #4294967295");
    assert_eq!(request_message(-12), "Request #-12");
    assert_eq!(request_message(i64::MIN), format!("Request #{}", i64::MIN));
    assert_eq!(request_message(i64::MAX), format!("Request #{}", i64::MAX));
}

#[test]
fn local_counter_numbers_from_one() {
    let mut counter = LocalRequestCounter::new();
    assert_eq!(counter.next(), 1);
    assert_eq!(counter.next(), 2);
    assert_eq!(counter.next(), 3);
    assert_eq!(request_message(counter.next() as i64), "Request #4");
}

#[test]
fn body_yields_its_data_once() {
    let mut body = ResponseBody::new("Hello world!");
    assert_eq!(body.poll_data(), Some("Hello world!"));
    assert_eq!(body.poll_data(), None);
    assert_eq!(body.poll_data(), None);
}

#[test]
fn stream_wrapper_hands_the_stream_through() {
    let mut io = IOTypeNotSend::new(vec![1u8, 2, 3]);
    io.stream_mut().push(4);
    assert_eq!(io.into_inner(), vec![1, 2, 3, 4]);
}

#[test]
fn service_pauses() {
    assert!(service_delays(&ServiceKind::Plain).is_empty());
    assert_eq!(service_delays(&ServiceKind::Sleep), vec![SLEEP_MICROS]);
    for _ in 0..50 {
        let delays = service_delays(&ServiceKind::RandomSleep);
        assert!(delays.len() <= MAX_RANDOM_SLEEP_STEPS);
        assert!(delays.iter().all(|d| *d == RANDOM_SLEEP_STEP_MICROS));
    }
}

#[test]
fn hello() {
    assert_eq!(hello_text(), "Hello world!");
}

#[test]
fn random_pauses_vary() {
    let lengths: Vec<usize> = (0..200)
        .map(|_| service_delays(&ServiceKind::RandomSleep).len())
        .collect();
    assert!(lengths.iter().any(|n| *n != lengths[0]));
    assert!(lengths.iter().any(|n| *n > 0));
}

#[test]
fn random_pauses_follow_the_draw() {
    assert!(random_sleep_delays(0).is_empty());
    assert_eq!(random_sleep_delays(3), vec![RANDOM_SLEEP_STEP_MICROS; 3]);
    assert_eq!(random_sleep_delays(MAX_RANDOM_SLEEP_STEPS).len(), MAX_RANDOM_SLEEP_STEPS);
}

#[test]
fn local_counters_count_on_their_own() {
    let mut first = LocalRequestCounter::new();
    let mut second = LocalRequestCounter::new();
    assert_eq!(first.next(), 1);
    assert_eq!(first.next(), 2);
    assert_eq!(second.next(), 1);
    assert_eq!(first.next(), 3);
}
