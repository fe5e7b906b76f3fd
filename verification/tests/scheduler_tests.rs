use dns_bench::address::Address;
use dns_bench::outcome::{Measurement, Outcome};
use dns_bench::scheduler::{Scheduler, Step};

const A: Address = Address::V4(0x0101_0101);
const B: Address = Address::V4(0x0808_0808);
const SECOND: u64 = 1_000_000_000;

#[test]
fn a_new_run_has_nothing_reported() {
    let scheduler = Scheduler::new(vec![A, B], 3, 5);
    assert!(!scheduler.is_finished());
    assert_eq!(scheduler.completed(), 0);
    assert_eq!(scheduler.total_requests(), Some(6));
    assert_eq!(scheduler.next_server(), Some(A));
    assert_eq!(scheduler.servers(), &vec![A, B]);
    assert!(scheduler.outcomes().is_empty());
}

#[test]
fn a_run_without_servers_or_attempts_is_finished() {
    let mut none = Scheduler::new(vec![], 4, 1);
    assert!(none.is_finished());
    assert_eq!(none.poll(0), Step::Done);
    assert_eq!(none.next_server(), None);
    none.complete(Outcome::Failed);
    assert_eq!(none.completed(), 0);
    let mut zero = Scheduler::new(vec![A], 0, 1);
    assert!(zero.is_finished());
    assert_eq!(zero.poll(0), Step::Done);
    assert_eq!(zero.total_requests(), Some(0));
}

#[test]
fn total_requests_that_no_usize_holds() {
    let scheduler = Scheduler::new(vec![A, B], usize::MAX, 0);
    assert_eq!(scheduler.total_requests(), None);
    assert!(!scheduler.is_finished());
}

#[test]
fn requests_go_round_after_round_and_server_after_server() {
    let mut scheduler = Scheduler::new(vec![A, B], 3, 0);
    let mut sent = Vec::new();
    let mut now = 0;
    loop {
        match scheduler.poll(now) {
            Step::Done => break,
            Step::Wait(_) => panic!("no wait without a rate limit"),
            Step::Send(server) => {
                sent.push(server);
                now += 10;
                scheduler.complete(Outcome::Success(now));
            }
        }
    }
    assert_eq!(sent, vec![A, B, A, B, A, B]);
    assert!(scheduler.is_finished());
    assert_eq!(scheduler.completed(), 6);
    let outcomes = scheduler.into_outcomes();
    assert_eq!(outcomes.len(), 6);
    assert_eq!(outcomes[0], Measurement { server: A, outcome: Outcome::Success(10) });
    assert_eq!(outcomes[3], Measurement { server: B, outcome: Outcome::Success(40) });
}

#[test]
fn requests_to_the_same_server_are_held_apart() {
    let mut scheduler = Scheduler::new(vec![A], 2, 5);
    assert_eq!(scheduler.poll(100), Step::Send(A));
    scheduler.complete(Outcome::Success(1));
    assert_eq!(scheduler.poll(100), Step::Wait(5 * SECOND as u128));
    assert_eq!(scheduler.poll(100 + 2 * SECOND), Step::Wait(3 * SECOND as u128));
    assert_eq!(scheduler.poll(99 + 5 * SECOND), Step::Wait(1));
    assert_eq!(scheduler.completed(), 1);
    assert_eq!(scheduler.poll(100 + 5 * SECOND), Step::Send(A));
    scheduler.complete(Outcome::Failed);
    assert_eq!(scheduler.poll(100 + 5 * SECOND), Step::Done);
}

#[test]
fn the_rate_limit_counts_from_the_start_of_a_request() {
    let mut scheduler = Scheduler::new(vec![A], 2, 1);
    assert_eq!(scheduler.poll(0), Step::Send(A));
    // The request took most of a second; the limit ran meanwhile.
    scheduler.complete(Outcome::Success(900_000_000));
    assert_eq!(scheduler.poll(900_000_000), Step::Wait(100_000_000));
    assert_eq!(scheduler.poll(SECOND), Step::Send(A));
}

#[test]
fn requests_to_different_servers_are_not_held_apart() {
    let mut scheduler = Scheduler::new(vec![A, B], 2, 5);
    assert_eq!(scheduler.poll(7), Step::Send(A));
    scheduler.complete(Outcome::Success(1));
    assert_eq!(scheduler.poll(7), Step::Send(B));
    scheduler.complete(Outcome::Success(1));
    assert_eq!(scheduler.poll(8), Step::Wait(5 * SECOND as u128 - 1));
    assert_eq!(scheduler.poll(7 + 5 * SECOND), Step::Send(A));
    scheduler.complete(Outcome::Success(1));
    assert_eq!(scheduler.poll(7 + 5 * SECOND), Step::Send(B));
}

#[test]
fn a_server_that_is_listed_twice_has_one_rate_limit() {
    let mut scheduler = Scheduler::new(vec![A, A], 1, 2);
    assert_eq!(scheduler.poll(0), Step::Send(A));
    scheduler.complete(Outcome::Success(1));
    assert_eq!(scheduler.poll(SECOND), Step::Wait(SECOND as u128));
    assert_eq!(scheduler.poll(2 * SECOND), Step::Send(A));
    scheduler.complete(Outcome::Success(1));
    assert!(scheduler.is_finished());
}

#[test]
fn a_clock_that_went_back_counts_as_no_time_passed() {
    let mut scheduler = Scheduler::new(vec![A], 2, 1);
    assert_eq!(scheduler.poll(500), Step::Send(A));
    scheduler.complete(Outcome::Failed);
    assert_eq!(scheduler.poll(100), Step::Wait(SECOND as u128));
}

#[test]
fn the_longest_rate_limit_does_not_overflow() {
    let mut scheduler = Scheduler::new(vec![A], 2, u64::MAX);
    assert_eq!(scheduler.poll(0), Step::Send(A));
    scheduler.complete(Outcome::Failed);
    assert_eq!(
        scheduler.poll(u64::MAX),
        Step::Wait(u64::MAX as u128 * SECOND as u128 - u64::MAX as u128)
    );
}

#[test]
fn nothing_is_recorded_after_the_last_request() {
    let mut scheduler = Scheduler::new(vec![A], 1, 0);
    assert_eq!(scheduler.poll(0), Step::Send(A));
    scheduler.complete(Outcome::Failed);
    scheduler.complete(Outcome::Success(5));
    assert_eq!(scheduler.completed(), 1);
    assert_eq!(scheduler.outcomes(), &vec![Measurement { server: A, outcome: Outcome::Failed }]);
}
