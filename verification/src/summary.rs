//! From the outcomes of a run to one summary for each server.

use crate::address::Address;
use crate::histogram::{ascending, LatencyHistogram};
use crate::outcome::{millis, Measurement, Outcome};
use vstd::prelude::*;

verus! {

/// What a run measured for one server.
#[derive(Clone, Debug, PartialEq, Eq)]
pub struct ServerSummary {
    /// The server.
    pub server: Address,
    /// The number of its requests that failed.
    pub failed: usize,
    /// The latencies of its requests that succeeded, in whole milliseconds.
    pub histogram: LatencyHistogram,
}

/// The number of failed requests to `server` among `outcomes`.
pub open spec fn failures(outcomes: Seq<Measurement>, server: Address) -> nat
    decreases outcomes.len(),
{
    if outcomes.len() == 0 {
        0
    } else {
        let rest = failures(outcomes.drop_last(), server);
        if outcomes.last().server == server && outcomes.last().outcome is Failed {
            rest + 1
        } else {
            rest
        }
    }
}

/// The latencies of the requests to `server` that succeeded, in whole
/// milliseconds and in the order of `outcomes`.
pub open spec fn latencies(outcomes: Seq<Measurement>, server: Address) -> Seq<u64>
    decreases outcomes.len(),
{
    if outcomes.len() == 0 {
        Seq::empty()
    } else {
        let rest = latencies(outcomes.drop_last(), server);
        match outcomes.last().outcome {
            Outcome::Success(nanos) if outcomes.last().server == server => rest.push(
                millis(nanos),
            ),
            _ => rest,
        }
    }
}

/// The servers without repetition: each where it first stands.
pub open spec fn distinct(servers: Seq<Address>) -> Seq<Address>
    decreases servers.len(),
{
    if servers.len() == 0 {
        Seq::empty()
    } else {
        let rest = distinct(servers.drop_last());
        if servers.drop_last().contains(servers.last()) {
            rest
        } else {
            rest.push(servers.last())
        }
    }
}

/// `summary` is what `outcomes` hold for `server`: the count of its failures,
/// and its latencies in ascending order.
pub open spec fn summarizes(
    summary: ServerSummary,
    outcomes: Seq<Measurement>,
    server: Address,
) -> bool {
    &&& summary.server == server
    &&& summary.failed == failures(outcomes, server)
    &&& ascending(summary.histogram@)
    &&& summary.histogram@.to_multiset() == latencies(outcomes, server).to_multiset()
}

/// `summaries` are what `outcomes` hold for `servers`: one summary for each
/// distinct server, in the order in which the servers first stand.
pub open spec fn summaries_of(
    summaries: Seq<ServerSummary>,
    outcomes: Seq<Measurement>,
    servers: Seq<Address>,
) -> bool {
    &&& summaries.len() == distinct(servers).len()
    &&& forall|i: int|
        0 <= i < summaries.len() ==> summarizes(
            #[trigger] summaries[i],
            outcomes,
            distinct(servers)[i],
        )
}

/// The number of requests that `summaries` account for: failures and recorded
/// latencies together.
pub open spec fn requests_counted(summaries: Seq<ServerSummary>) -> nat
    decreases summaries.len(),
{
    if summaries.len() == 0 {
        0
    } else {
        requests_counted(summaries.drop_last()) + summaries.last().failed as nat
            + summaries.last().histogram@.len()
    }
}

/// The number of requests to `server` among `outcomes`.
pub open spec fn requests_to(outcomes: Seq<Measurement>, server: Address) -> nat
    decreases outcomes.len(),
{
    if outcomes.len() == 0 {
        0
    } else {
        let rest = requests_to(outcomes.drop_last(), server);
        if outcomes.last().server == server {
            rest + 1
        } else {
            rest
        }
    }
}

/// The requests to each of `servers` in turn, added up.
spec fn requests_among(outcomes: Seq<Measurement>, servers: Seq<Address>) -> nat
    decreases servers.len(),
{
    if servers.len() == 0 {
        0
    } else {
        requests_among(outcomes, servers.drop_last()) + requests_to(outcomes, servers.last())
    }
}

/// How often `server` stands in `servers`.
spec fn occurrences(servers: Seq<Address>, server: Address) -> nat
    decreases servers.len(),
{
    if servers.len() == 0 {
        0
    } else {
        occurrences(servers.drop_last(), server) + if servers.last() == server {
            1nat
        } else {
            0nat
        }
    }
}

/// The distinct servers hold each server of the list, once.
pub proof fn lemma_distinct(servers: Seq<Address>)
    ensures
        distinct(servers).no_duplicates(),
        forall|server: Address|
            #![trigger distinct(servers).contains(server)]
            #![trigger servers.contains(server)]
            distinct(servers).contains(server) <==> servers.contains(server),
    decreases servers.len(),
{
    if servers.len() > 0 {
        let init = servers.drop_last();
        let last = servers.last();
        lemma_distinct(init);
        assert forall|server: Address|
            #![trigger distinct(servers).contains(server)]
            #![trigger servers.contains(server)]
            distinct(servers).contains(server) <==> servers.contains(server) by {
            if servers.contains(server) {
                let i = choose|i: int| 0 <= i < servers.len() && servers[i] == server;
                if i < init.len() {
                    assert(init[i] == server);
                    assert(init.contains(server));
                    let k = choose|k: int|
                        0 <= k < distinct(init).len() && distinct(init)[k] == server;
                    assert(distinct(servers)[k] == server);
                } else {
                    if init.contains(last) {
                        let k = choose|k: int|
                            0 <= k < distinct(init).len() && distinct(init)[k] == server;
                        assert(distinct(servers)[k] == server);
                    } else {
                        assert(distinct(servers).last() == server);
                    }
                }
            }
            if distinct(servers).contains(server) {
                let k = choose|k: int|
                    0 <= k < distinct(servers).len() && distinct(servers)[k] == server;
                if k < distinct(init).len() {
                    assert(distinct(init)[k] == server);
                    assert(distinct(init).contains(server));
                    let i = choose|i: int| 0 <= i < init.len() && init[i] == server;
                    assert(servers[i] == server);
                } else {
                    assert(servers[servers.len() - 1] == server);
                }
            }
        }
        if !init.contains(last) {
            assert forall|i: int, j: int|
                0 <= i < distinct(servers).len() && 0 <= j < distinct(servers).len() && i
                    != j implies distinct(servers)[i] != distinct(servers)[j] by {
                if i < distinct(init).len() && j < distinct(init).len() {
                    assert(distinct(init)[i] != distinct(init)[j]);
                } else if i < distinct(init).len() {
                    assert(distinct(init).contains(distinct(init)[i]));
                } else {
                    assert(distinct(init).contains(distinct(init)[j]));
                }
            }
        }
    }
}

/// Each request either failed or left a latency.
pub proof fn lemma_requests_to(outcomes: Seq<Measurement>, server: Address)
    ensures
        requests_to(outcomes, server) == failures(outcomes, server) + latencies(
            outcomes,
            server,
        ).len(),
        requests_to(outcomes, server) <= outcomes.len(),
    decreases outcomes.len(),
{
    if outcomes.len() > 0 {
        lemma_requests_to(outcomes.drop_last(), server);
    }
}

proof fn lemma_counted_among(
    summaries: Seq<ServerSummary>,
    outcomes: Seq<Measurement>,
    servers: Seq<Address>,
)
    requires
        summaries.len() == servers.len(),
        forall|i: int|
            0 <= i < summaries.len() ==> summarizes(#[trigger] summaries[i], outcomes, servers[i]),
    ensures
        requests_counted(summaries) == requests_among(outcomes, servers),
    decreases summaries.len(),
{
    if summaries.len() > 0 {
        let last = summaries.last();
        assert(summarizes(summaries[summaries.len() - 1], outcomes, servers.last()));
        assert forall|i: int| 0 <= i < summaries.drop_last().len() implies summarizes(
            #[trigger] summaries.drop_last()[i],
            outcomes,
            servers.drop_last()[i],
        ) by {
            assert(summarizes(summaries[i], outcomes, servers[i]));
        }
        lemma_counted_among(summaries.drop_last(), outcomes, servers.drop_last());
        lemma_requests_to(outcomes, servers.last());
        last.histogram@.to_multiset_ensures();
        latencies(outcomes, servers.last()).to_multiset_ensures();
    }
}

proof fn lemma_among_push(outcomes: Seq<Measurement>, servers: Seq<Address>)
    requires
        outcomes.len() > 0,
    ensures
        requests_among(outcomes, servers) == requests_among(outcomes.drop_last(), servers)
            + occurrences(servers, outcomes.last().server),
    decreases servers.len(),
{
    if servers.len() > 0 {
        lemma_among_push(outcomes, servers.drop_last());
    }
}

proof fn lemma_occurs_once(servers: Seq<Address>, server: Address)
    requires
        servers.no_duplicates(),
    ensures
        occurrences(servers, server) == if servers.contains(server) {
            1nat
        } else {
            0nat
        },
    decreases servers.len(),
{
    if servers.len() > 0 {
        let init = servers.drop_last();
        lemma_occurs_once(init, server);
        if servers.last() == server {
            if init.contains(server) {
                let i = choose|i: int| 0 <= i < init.len() && init[i] == server;
                assert(servers[i] == servers[servers.len() - 1]);
            }
            assert(servers[servers.len() - 1] == server);
        } else {
            if servers.contains(server) {
                let i = choose|i: int| 0 <= i < servers.len() && servers[i] == server;
                assert(init[i] == server);
            }
            if init.contains(server) {
                let i = choose|i: int| 0 <= i < init.len() && init[i] == server;
                assert(servers[i] == server);
            }
        }
    }
}

proof fn lemma_among_all(outcomes: Seq<Measurement>, servers: Seq<Address>)
    requires
        servers.no_duplicates(),
        forall|k: int| 0 <= k < outcomes.len() ==> servers.contains(#[trigger] outcomes[k].server),
    ensures
        requests_among(outcomes, servers) == outcomes.len(),
    decreases outcomes.len(),
{
    if outcomes.len() == 0 {
        assert(outcomes =~= Seq::<Measurement>::empty());
        lemma_among_none(servers);
    } else {
        let init = outcomes.drop_last();
        assert forall|k: int| 0 <= k < init.len() implies servers.contains(
            #[trigger] init[k].server,
        ) by {
            assert(init[k] == outcomes[k]);
        }
        lemma_among_all(init, servers);
        lemma_among_push(outcomes, servers);
        lemma_occurs_once(servers, outcomes.last().server);
        assert(servers.contains(outcomes[outcomes.len() - 1].server));
    }
}

proof fn lemma_among_none(servers: Seq<Address>)
    ensures
        requests_among(Seq::<Measurement>::empty(), servers) == 0,
    decreases servers.len(),
{
    if servers.len() > 0 {
        lemma_among_none(servers.drop_last());
    }
}

/// Every request is counted once: where each outcome belongs to one of the
/// servers, the failures and the recorded latencies of all summaries together
/// are as many as the outcomes.
pub proof fn lemma_every_request_counted(
    summaries: Seq<ServerSummary>,
    outcomes: Seq<Measurement>,
    servers: Seq<Address>,
)
    requires
        summaries_of(summaries, outcomes, servers),
        forall|k: int| 0 <= k < outcomes.len() ==> servers.contains(#[trigger] outcomes[k].server),
    ensures
        requests_counted(summaries) == outcomes.len(),
{
    lemma_distinct(servers);
    lemma_counted_among(summaries, outcomes, distinct(servers));
    lemma_among_all(outcomes, distinct(servers));
}

/// The same outcomes give the same summaries: two lists of summaries of the
/// same outcomes and servers agree in every server, every count of failures
/// and every histogram, and so in every figure read from them.
pub proof fn lemma_summaries_determined(
    first: Seq<ServerSummary>,
    second: Seq<ServerSummary>,
    outcomes: Seq<Measurement>,
    servers: Seq<Address>,
)
    requires
        summaries_of(first, outcomes, servers),
        summaries_of(second, outcomes, servers),
    ensures
        first.len() == second.len(),
        forall|i: int|
            0 <= i < first.len() ==> {
                &&& (#[trigger] first[i]).server == second[i].server
                &&& first[i].failed == second[i].failed
                &&& first[i].histogram@ == second[i].histogram@
            },
{
    assert forall|i: int| 0 <= i < first.len() implies {
        &&& (#[trigger] first[i]).server == second[i].server
        &&& first[i].failed == second[i].failed
        &&& first[i].histogram@ == second[i].histogram@
    } by {
        assert(summarizes(first[i], outcomes, distinct(servers)[i]));
        assert(summarizes(second[i], outcomes, distinct(servers)[i]));
        crate::histogram::lemma_ascending_unique(first[i].histogram@, second[i].histogram@);
    }
}

/// Tells whether the server at `at` stands earlier in the list too.
fn stands_earlier(servers: &Vec<Address>, at: usize) -> (earlier: bool)
    requires
        at < servers.len(),
    ensures
        earlier == servers@.take(at as int).contains(servers@[at as int]),
{
    let mut i: usize = 0;
    while i < at
        invariant
            i <= at < servers.len(),
            forall|k: int| 0 <= k < i ==> servers@[k] != servers@[at as int],
        decreases at - i,
    {
        if servers[i] == servers[at] {
            assert(servers@.take(at as int)[i as int] == servers@[at as int]);
            return true;
        }
        i = i + 1;
    }
    assert forall|k: int| 0 <= k < servers@.take(at as int).len() implies servers@.take(
        at as int,
    )[k] != servers@[at as int] by {
        assert(servers@.take(at as int)[k] == servers@[k]);
    }
    false
}

/// Summarizes the outcomes of one server: counts its failures and records the
/// latency of each of its successes, in whole milliseconds.
pub fn summarize_server(outcomes: &Vec<Measurement>, server: Address) -> (summary: ServerSummary)
    ensures
        summarizes(summary, outcomes@, server),
{
    let mut failed: usize = 0;
    let mut histogram = LatencyHistogram::new();
    let mut i: usize = 0;
    while i < outcomes.len()
        invariant
            i <= outcomes.len(),
            failed <= i,
            failed == failures(outcomes@.take(i as int), server),
            ascending(histogram@),
            histogram@.to_multiset() == latencies(outcomes@.take(i as int), server).to_multiset(),
        decreases outcomes.len() - i,
    {
        proof {
            assert(outcomes@.take(i + 1).drop_last() =~= outcomes@.take(i as int));
            latencies(outcomes@.take(i as int), server).to_multiset_ensures();
        }
        let measurement = outcomes[i];
        if measurement.server == server {
            match measurement.outcome {
                Outcome::Failed => {
                    failed = failed + 1;
                },
                Outcome::Success(nanos) => {
                    histogram.record(nanos / crate::outcome::NANOS_PER_MILLI);
                },
            }
        }
        i = i + 1;
    }
    assert(outcomes@.take(i as int) =~= outcomes@);
    ServerSummary { server, failed, histogram }
}

/// One summary for each distinct server, in the order in which the servers
/// first stand in `servers`.
pub fn summarize(outcomes: &Vec<Measurement>, servers: &Vec<Address>) -> (summaries: Vec<
    ServerSummary,
>)
    ensures
        summaries_of(summaries@, outcomes@, servers@),
{
    let mut summaries: Vec<ServerSummary> = Vec::new();
    let mut i: usize = 0;
    while i < servers.len()
        invariant
            i <= servers.len(),
            summaries_of(summaries@, outcomes@, servers@.take(i as int)),
        decreases servers.len() - i,
    {
        proof {
            assert(servers@.take(i + 1).drop_last() =~= servers@.take(i as int));
        }
        if !stands_earlier(servers, i) {
            let summary = summarize_server(outcomes, servers[i]);
            let ghost before = summaries@;
            summaries.push(summary);
            proof {
                let now = distinct(servers@.take(i + 1));
                assert forall|k: int| 0 <= k < summaries@.len() implies summarizes(
                    #[trigger] summaries@[k],
                    outcomes@,
                    now[k],
                ) by {
                    if k < before.len() {
                        assert(summaries@[k] == before[k]);
                    }
                }
            }
        }
        i = i + 1;
    }
    assert(servers@.take(i as int) =~= servers@);
    summaries
}

} // verus!
