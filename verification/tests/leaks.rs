//! How leaks are judged.

use sw_scope::demo_::{shows_who_answers, Counters, NetHeap, Outcome, PAYLOAD};

fn outcome(alloc_bytes: usize, dealloc_bytes: usize, drops: usize) -> Outcome {
    Outcome { net: NetHeap { alloc_bytes, dealloc_bytes }, drops }
}

#[test]
fn the_difference_of_two_readings() {
    let before = Counters { alloc_bytes: 100, dealloc_bytes: 40 };
    let after = Counters { alloc_bytes: 66_132, dealloc_bytes: 536 };
    let net = NetHeap::measure(before, after);
    assert_eq!(net, NetHeap { alloc_bytes: 66_032, dealloc_bytes: 496 });
    assert_eq!(net.net_bytes(), 65_536);
}

#[test]
fn more_given_back_than_taken_is_no_leak() {
    assert_eq!(NetHeap { alloc_bytes: 1, dealloc_bytes: 5 }.net_bytes(), 0);
}

#[test]
fn leaks_are_counted_in_payloads() {
    assert_eq!(PAYLOAD, 64 * 1024);
    assert_eq!(outcome(131_568, 496, 0).leaked_payloads(), 2);
    assert_eq!(outcome(65_535, 0, 0).leaked_payloads(), 0);
    assert!(outcome(66_032, 66_032, 1).payload_released());
    assert!(!outcome(66_032, 496, 0).payload_released());
}

#[test]
fn the_experiments_are_judged_together() {
    let baseline = outcome(65_536, 65_536, 1);
    let anonymous = outcome(66_032, 496, 0);
    let lost = outcome(66_032, 496, 0);
    let cycle = outcome(131_568, 496, 0);
    let boxed = outcome(66_032, 66_032, 1);
    assert!(shows_who_answers(&baseline, &anonymous, &lost, &cycle, &boxed));
    assert!(!shows_who_answers(&baseline, &boxed, &lost, &cycle, &boxed));
    assert!(!shows_who_answers(&baseline, &anonymous, &lost, &lost, &boxed));
    assert!(!shows_who_answers(&anonymous, &anonymous, &lost, &cycle, &boxed));
}
