use dns_bench::address::Address;
use dns_bench::error::DnsError;
use dns_bench::histogram::LatencyHistogram;
use dns_bench::outcome::{Measurement, Outcome};
use dns_bench::ranking::rank;
use dns_bench::report::{project, report, report_rows, ReportRow};
use dns_bench::resolver::{
    fresh_query, measure_reply, DNS_PORT, MAX_REPLY_LEN, RECEIVE_TIMEOUT_SECS,
};
use dns_bench::scheduler::{Scheduler, Step};
use dns_bench::summary::{summarize, ServerSummary};
use dns_bench::wire::{encode_query, is_address_query};

const A: Address = Address::V4(0x0101_0101);
const B: Address = Address::V4(0x0808_0808);
const C: Address = Address::V6(7);
const D: Address = Address::V6(8);
const MILLI: u64 = 1_000_000;

fn summary_of(server: Address, failed: usize, values: &[u64]) -> ServerSummary {
    let mut histogram = LatencyHistogram::new();
    for value in values {
        histogram.record(*value);
    }
    ServerSummary { server, failed, histogram }
}

fn servers_of(summaries: &[ServerSummary]) -> Vec<Address> {
    summaries.iter().map(|s| s.server).collect()
}

#[test]
fn rank_orders_by_mean() {
    let ranking = rank(vec![
        summary_of(A, 0, &[50, 50]),
        summary_of(B, 0, &[10, 12]),
        summary_of(C, 0, &[1, 60]),
    ]);
    assert_eq!(servers_of(&ranking), vec![B, C, A]);
    assert_eq!(ranking[0].histogram.to_vec(), vec![10, 12]);
}

#[test]
fn rank_keeps_the_order_of_equal_means() {
    let ranking = rank(vec![
        summary_of(A, 0, &[20]),
        summary_of(B, 1, &[10, 30]),
        summary_of(C, 0, &[5]),
        summary_of(D, 0, &[19, 20, 21]),
    ]);
    assert_eq!(servers_of(&ranking), vec![C, A, B, D]);
    let again = rank(vec![
        summary_of(D, 0, &[19, 20, 21]),
        summary_of(B, 1, &[10, 30]),
        summary_of(A, 0, &[20]),
    ]);
    assert_eq!(servers_of(&again), vec![D, B, A]);
}

#[test]
fn rank_puts_servers_without_a_success_last() {
    let ranking = rank(vec![
        summary_of(A, 3, &[]),
        summary_of(B, 0, &[900]),
        summary_of(C, 3, &[]),
        summary_of(D, 2, &[0]),
    ]);
    assert_eq!(servers_of(&ranking), vec![D, B, A, C]);
}

#[test]
fn rank_of_nothing_and_of_one() {
    assert!(rank(vec![]).is_empty());
    let one = rank(vec![summary_of(A, 1, &[])]);
    assert_eq!(servers_of(&one), vec![A]);
}

#[test]
fn rank_of_a_descending_list() {
    let ranking = rank(vec![
        summary_of(A, 0, &[40]),
        summary_of(B, 0, &[30]),
        summary_of(C, 0, &[20]),
        summary_of(D, 0, &[10]),
    ]);
    assert_eq!(servers_of(&ranking), vec![D, C, B, A]);
}

#[test]
fn project_builds_the_row() {
    let values: Vec<u64> = (1..=1000).collect();
    let row = project(&summary_of(A, 4, &values), 1004);
    assert_eq!(
        row,
        ReportRow {
            server: A,
            requests: 1004,
            errors: 4,
            min: 1,
            p50: 500,
            p95: 950,
            p99: 990,
            p999: 999,
            max: 1000,
        }
    );
}

#[test]
fn project_of_a_server_without_a_success() {
    let row = project(&summary_of(B, 10, &[]), 10);
    assert_eq!(
        row,
        ReportRow {
            server: B,
            requests: 10,
            errors: 10,
            min: 0,
            p50: 0,
            p95: 0,
            p99: 0,
            p999: 0,
            max: 0,
        }
    );
}

#[test]
fn report_rows_keep_the_order() {
    let rows = report_rows(&vec![summary_of(B, 0, &[3]), summary_of(A, 1, &[1, 2])], 3);
    assert_eq!(rows.len(), 2);
    assert_eq!(rows[0].server, B);
    assert_eq!(rows[0].p50, 3);
    assert_eq!(rows[1].server, A);
    assert_eq!(rows[1].errors, 1);
    assert_eq!(rows[1].p50, 1);
    assert_eq!(rows[1].max, 2);
}

fn run(servers: Vec<Address>, attempts: usize, outcome_for: fn(Address) -> Outcome) -> Vec<Measurement> {
    let mut scheduler = Scheduler::new(servers, attempts, 0);
    loop {
        match scheduler.poll(0) {
            Step::Done => break,
            Step::Wait(nanos) => panic!("asked to wait {} ns without a rate limit", nanos),
            Step::Send(server) => scheduler.complete(outcome_for(server)),
        }
    }
    scheduler.into_outcomes()
}

#[test]
fn two_servers_three_attempts_all_successful() {
    // 1.1.1.1 answers in 10 ms and 8.8.8.8 in 50 ms, every time.
    let servers = vec![A, B];
    let outcomes = run(servers.clone(), 3, |server| {
        if server == A {
            Outcome::Success(10 * MILLI)
        } else {
            Outcome::Success(50 * MILLI)
        }
    });
    assert_eq!(outcomes.len(), 6);
    let rows = report(&outcomes, &servers, 3);
    assert_eq!(rows.len(), 2);
    assert_eq!(rows[0].server, A);
    assert_eq!(rows[1].server, B);
    assert_eq!(rows[0].p50, 10);
    assert_eq!(rows[1].p50, 50);
    assert_eq!(rows[0].errors, 0);
    assert_eq!(rows[1].errors, 0);
    assert_eq!(rows[0].requests, 3);
    assert_eq!(rows[0].min, 10);
    assert_eq!(rows[0].max, 10);
    assert_eq!(rows[1].p999, 50);
}

#[test]
fn the_faster_server_comes_first_whatever_the_input_order() {
    let servers = vec![B, A];
    let outcomes = run(servers.clone(), 3, |server| {
        if server == A {
            Outcome::Success(10 * MILLI)
        } else {
            Outcome::Success(50 * MILLI)
        }
    });
    let rows = report(&outcomes, &servers, 3);
    assert_eq!(rows[0].server, A);
    assert_eq!(rows[1].server, B);
}

#[test]
fn a_request_without_a_response_counts_as_a_failure() {
    let timed_out: Result<u64, DnsError> = Err(DnsError::DNSError);
    let outcome = Outcome::from_result(timed_out);
    assert_eq!(outcome, Outcome::Failed);
    let mut scheduler = Scheduler::new(vec![A], 2, 0);
    assert_eq!(scheduler.poll(0), Step::Send(A));
    scheduler.complete(outcome);
    assert_eq!(scheduler.poll(3_000_000_000), Step::Send(A));
    scheduler.complete(Outcome::Success(4 * MILLI));
    assert!(scheduler.is_finished());
    let servers = scheduler.servers().clone();
    let rows = report(scheduler.outcomes(), &servers, 2);
    assert_eq!(rows[0].errors, 1);
    assert_eq!(rows[0].requests, 2);
    assert_eq!(rows[0].p50, 4);
}

#[test]
fn every_request_of_a_run_is_in_the_report() {
    let servers = vec![A, B, C];
    let attempts = 4;
    let outcomes = run(servers.clone(), attempts, |server| {
        if server == B {
            Outcome::Failed
        } else {
            Outcome::Success(3 * MILLI)
        }
    });
    let summaries = summarize(&outcomes, &servers);
    let counted: usize = summaries.iter().map(|s| s.failed + s.histogram.len()).sum();
    assert_eq!(counted, attempts * servers.len());
    for summary in &summaries {
        assert_eq!(summary.failed + summary.histogram.len(), attempts);
    }
    let rows = report(&outcomes, &servers, attempts);
    assert_eq!(rows[2].server, B);
    assert_eq!(rows[2].errors, 4);
}

#[test]
fn fresh_query_is_a_query_under_some_identifier() {
    let bytes = fresh_query("example.com.").unwrap();
    let id = u16::from(bytes[0]) * 256 + u16::from(bytes[1]);
    assert!(is_address_query(&bytes, id));
    assert_eq!(bytes, encode_query("example.com.", id).unwrap());
}

#[test]
fn fresh_query_refuses_what_encode_query_refuses() {
    assert_eq!(fresh_query("not a name"), Err(DnsError::InvalidQuery));
}

#[test]
fn measure_reply_gives_the_time_of_a_sound_response() {
    let mut reply = encode_query("example.com.", 5).unwrap();
    reply[2] = 0x81;
    reply[3] = 0x80;
    assert_eq!(measure_reply(12_345, &reply), Ok(12_345));
}

#[test]
fn measure_reply_refuses_what_is_no_response() {
    assert_eq!(measure_reply(12_345, &[0xff; 5]), Err(DnsError::MalformedResponse));
    assert_eq!(
        Outcome::from_result(measure_reply(12_345, &[0xff; 5])),
        Outcome::Failed
    );
}

#[test]
fn the_fixed_figures_of_a_measurement() {
    assert_eq!(DNS_PORT, 53);
    assert_eq!(RECEIVE_TIMEOUT_SECS, 3);
    assert_eq!(MAX_REPLY_LEN, 512);
}
