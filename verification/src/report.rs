//! The figures that are reported for each server.

use crate::address::Address;
use crate::histogram::{largest, quantile_value, smallest};
use crate::outcome::Measurement;
use crate::ranking::{rank, ranked};
use crate::summary::{summaries_of, summarize, ServerSummary};
use vstd::prelude::*;

verus! {

/// One row of the report: a server and the figures of its summary. The
/// latencies are in whole milliseconds.
#[derive(Clone, Copy, Debug, PartialEq, Eq)]
pub struct ReportRow {
    /// The server.
    pub server: Address,
    /// The number of requests that each server was to get.
    pub requests: usize,
    /// The number of requests that failed.
    pub errors: usize,
    /// The lowest latency.
    pub min: u64,
    /// The latency at the 50th percentile.
    pub p50: u64,
    /// The latency at the 95th percentile.
    pub p95: u64,
    /// The latency at the 99th percentile.
    pub p99: u64,
    /// The latency at the 99.9th percentile.
    pub p999: u64,
    /// The highest latency.
    pub max: u64,
}

/// The row that reports `summary` in a run of `attempts` requests to each
/// server.
pub open spec fn row_of(summary: ServerSummary, attempts: usize) -> ReportRow {
    ReportRow {
        server: summary.server,
        requests: attempts,
        errors: summary.failed,
        min: smallest(summary.histogram@),
        p50: quantile_value(summary.histogram@, 50, 100),
        p95: quantile_value(summary.histogram@, 95, 100),
        p99: quantile_value(summary.histogram@, 99, 100),
        p999: quantile_value(summary.histogram@, 999, 1000),
        max: largest(summary.histogram@),
    }
}

/// `rows` report `ranking`, row for summary.
pub open spec fn rows_of(
    rows: Seq<ReportRow>,
    ranking: Seq<ServerSummary>,
    attempts: usize,
) -> bool {
    &&& rows.len() == ranking.len()
    &&& forall|i: int| 0 <= i < rows.len() ==> #[trigger] rows[i] == row_of(ranking[i], attempts)
}

/// The same outcomes give the same figures: two lists of summaries of the same
/// outcomes and servers are reported by the same rows.
pub proof fn lemma_rows_determined(
    first: Seq<ServerSummary>,
    second: Seq<ServerSummary>,
    outcomes: Seq<Measurement>,
    servers: Seq<Address>,
    attempts: usize,
)
    requires
        summaries_of(first, outcomes, servers),
        summaries_of(second, outcomes, servers),
    ensures
        first.len() == second.len(),
        forall|i: int|
            0 <= i < first.len() ==> row_of(#[trigger] first[i], attempts) == row_of(
                second[i],
                attempts,
            ),
{
    crate::summary::lemma_summaries_determined(first, second, outcomes, servers);
}

/// The row that reports one summary.
pub fn project(summary: &ServerSummary, attempts: usize) -> (row: ReportRow)
    ensures
        row == row_of(*summary, attempts),
{
    ReportRow {
        server: summary.server,
        requests: attempts,
        errors: summary.failed,
        min: summary.histogram.min(),
        p50: summary.histogram.value_at_quantile(50, 100),
        p95: summary.histogram.value_at_quantile(95, 100),
        p99: summary.histogram.value_at_quantile(99, 100),
        p999: summary.histogram.value_at_quantile(999, 1000),
        max: summary.histogram.max(),
    }
}

/// The rows that report the summaries, in their order.
pub fn report_rows(ranking: &Vec<ServerSummary>, attempts: usize) -> (rows: Vec<ReportRow>)
    ensures
        rows_of(rows@, ranking@, attempts),
{
    let mut rows: Vec<ReportRow> = Vec::new();
    let mut i: usize = 0;
    while i < ranking.len()
        invariant
            i <= ranking.len(),
            rows@.len() == i,
            forall|k: int| 0 <= k < i ==> #[trigger] rows@[k] == row_of(ranking@[k], attempts),
        decreases ranking.len() - i,
    {
        rows.push(project(&ranking[i], attempts));
        i = i + 1;
    }
    rows
}

/// The report of a run: the outcomes summarized for each distinct server,
/// the summaries ranked by mean latency, and a row for each.
pub fn report(outcomes: &Vec<Measurement>, servers: &Vec<Address>, attempts: usize) -> (rows: Vec<
    ReportRow,
>)
    ensures
        exists|summaries: Seq<ServerSummary>, ranking: Seq<ServerSummary>|
            {
                &&& summaries_of(summaries, outcomes@, servers@)
                &&& #[trigger] ranked(summaries, ranking)
                &&& rows_of(rows@, ranking, attempts)
            },
{
    let summaries = summarize(outcomes, servers);
    let ghost summarized = summaries@;
    let ranking = rank(summaries);
    let rows = report_rows(&ranking, attempts);
    assert(ranked(summarized, ranking@));
    rows
}

} // verus!
