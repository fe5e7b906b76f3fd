//! The order and the spacing of the requests of a run.
//!
//! A run sends `attempts` rounds of requests, each round one request to every
//! server in the order of the list. Two requests to the same server start at
//! least the rate limit apart; requests to different servers are not held
//! apart. The scheduler decides and keeps the books. Its caller has the clock,
//! sleeps, sends, and reports back what each request came to.

use crate::address::Address;
use crate::outcome::{Measurement, Outcome};
use crate::summary::{distinct, requests_counted, requests_to, summaries_of, ServerSummary};
use vstd::arithmetic::div_mod::{
    lemma_fundamental_div_mod, lemma_fundamental_div_mod_converse, lemma_mod_bound,
};
use vstd::prelude::*;

verus! {

/// The number of nanoseconds in a second.
pub const NANOS_PER_SEC: u64 = 1_000_000_000;

/// What the caller is to do next.
#[derive(Clone, Copy, Debug, PartialEq, Eq)]
pub enum Step {
    /// Sleep for this many nanoseconds, then ask again.
    Wait(u128),
    /// Send a request to this server now, then report its outcome.
    Send(Address),
    /// Every request has been made.
    Done,
}

/// What the caller brings to the scheduler.
#[derive(Clone, Copy, Debug, PartialEq, Eq)]
pub enum Event {
    /// A question what to do, at this time on the caller's clock.
    Poll(u64),
    /// The report of what the request that was sent came to.
    Complete(Outcome),
}

/// The state of a run.
#[verifier::ext_equal]
pub struct SchedulerView {
    /// The servers, in the order of the list.
    pub servers: Seq<Address>,
    /// The number of requests to make to each entry of the list.
    pub attempts: nat,
    /// The least time between the starts of two requests to the same server,
    /// in seconds.
    pub rate_limit_secs: u64,
    /// The outcomes reported so far, in the order of the requests.
    pub outcomes: Seq<Measurement>,
    /// For each server that a request was sent to, the time at which the
    /// latest one started, in nanoseconds on the caller's clock.
    pub last_start: Map<Address, u64>,
}

/// The scheduler of one run. Its view is the state of the run.
#[derive(Debug)]
pub struct Scheduler {
    servers: Vec<Address>,
    attempts: usize,
    rate_limit_secs: u64,
    outcomes: Vec<Measurement>,
    starts: Vec<(Address, u64)>,
}

/// The outcomes are in the order of the requests: round after round, and in
/// each round server after server.
pub open spec fn in_request_order(outcomes: Seq<Measurement>, servers: Seq<Address>) -> bool {
    forall|k: int|
        0 <= k < outcomes.len() ==> (#[trigger] outcomes[k]).server == servers[k % (
        servers.len() as int)]
}

/// The time from `earlier` to `now`, and nothing where the clock went back.
pub open spec fn elapsed_since(now: u64, earlier: u64) -> nat {
    if now >= earlier {
        (now - earlier) as nat
    } else {
        0
    }
}

impl SchedulerView {
    /// The state before the first request.
    pub open spec fn start(servers: Seq<Address>, attempts: nat, rate_limit_secs: u64) -> Self {
        SchedulerView {
            servers,
            attempts,
            rate_limit_secs,
            outcomes: Seq::empty(),
            last_start: Map::empty(),
        }
    }

    /// The number of requests of the whole run.
    pub open spec fn total_requests(self) -> nat {
        self.attempts * self.servers.len()
    }

    /// No more requests were reported than the run has, and they are in the
    /// order of the requests.
    pub open spec fn valid(self) -> bool {
        &&& self.outcomes.len() <= self.total_requests()
        &&& in_request_order(self.outcomes, self.servers)
    }

    /// Every request of the run has been reported.
    pub open spec fn finished(self) -> bool {
        self.outcomes.len() >= self.total_requests()
    }

    /// The server of the next request, while the run is not finished.
    pub open spec fn next_server(self) -> Address {
        self.servers[self.outcomes.len() as int % self.servers.len() as int]
    }

    /// The rate limit in nanoseconds.
    pub open spec fn rate_limit_nanos(self) -> nat {
        self.rate_limit_secs as nat * NANOS_PER_SEC as nat
    }

    /// How long a request to `server` has to wait at the time `now`: what is
    /// left of the rate limit since the latest request to that server
    /// started, and nothing where none was sent yet.
    pub open spec fn wait_for(self, server: Address, now: u64) -> nat {
        if self.last_start.dom().contains(server) && elapsed_since(now, self.last_start[server])
            < self.rate_limit_nanos() {
            (self.rate_limit_nanos() - elapsed_since(now, self.last_start[server])) as nat
        } else {
            0
        }
    }

    /// What the caller is to do at the time `now`. Where it is to send, the
    /// request counts as started at `now`.
    pub open spec fn step_at(self, now: u64) -> Step {
        if self.finished() {
            Step::Done
        } else if self.wait_for(self.next_server(), now) > 0 {
            Step::Wait(self.wait_for(self.next_server(), now) as u128)
        } else {
            Step::Send(self.next_server())
        }
    }

    /// The state after the caller asked at the time `now`.
    pub open spec fn after_poll(self, now: u64) -> Self {
        if self.step_at(now) is Send {
            SchedulerView { last_start: self.last_start.insert(self.next_server(), now), ..self }
        } else {
            self
        }
    }

    /// The state after the caller reported what the request to the next
    /// server came to. Nothing is recorded once the run is finished.
    pub open spec fn after_complete(self, outcome: Outcome) -> Self {
        if self.finished() {
            self
        } else {
            SchedulerView {
                outcomes: self.outcomes.push(Measurement { server: self.next_server(), outcome }),
                ..self
            }
        }
    }
}

impl SchedulerView {
    /// The state after one event.
    pub open spec fn after_event(self, event: Event) -> Self {
        match event {
            Event::Poll(now) => self.after_poll(now),
            Event::Complete(outcome) => self.after_complete(outcome),
        }
    }

    /// The state after a sequence of events.
    pub open spec fn after_events(self, events: Seq<Event>) -> Self
        decreases events.len(),
    {
        if events.len() == 0 {
            self
        } else {
            self.after_events(events.drop_last()).after_event(events.last())
        }
    }

    /// From this state on and through all of `events`, the caller is never
    /// told to send to `server`.
    pub open spec fn sends_nothing_to(self, events: Seq<Event>, server: Address) -> bool
        decreases events.len(),
    {
        if events.len() == 0 {
            true
        } else {
            &&& self.sends_nothing_to(events.drop_last(), server)
            &&& match events.last() {
                Event::Poll(now) => self.after_events(events.drop_last()).step_at(now)
                    != Step::Send(server),
                Event::Complete(_) => true,
            }
        }
    }
}

/// The rate limit holds between requests to the same server and only between
/// those. Where the caller is told to send to a server that a request went to
/// before, the rate limit has passed since that request started. Where it is
/// told to wait, a request went to the very server that is next, less than
/// the rate limit ago: what was sent to other servers never delays a request.
pub proof fn lemma_rate_limit(run: SchedulerView, now: u64)
    ensures
        run.step_at(now) matches Step::Send(server) ==> server == run.next_server() && (
        run.last_start.dom().contains(server) ==> elapsed_since(now, run.last_start[server])
            >= run.rate_limit_secs * NANOS_PER_SEC),
        run.step_at(now) matches Step::Wait(nanos) ==> run.last_start.dom().contains(
            run.next_server(),
        ) && nanos + elapsed_since(now, run.last_start[run.next_server()]) == run.rate_limit_secs
            * NANOS_PER_SEC,
        run.step_at(now) is Done <==> run.finished(),
{
    let limit = run.rate_limit_nanos();
    assert(limit <= u64::MAX * NANOS_PER_SEC) by (nonlinear_arith)
        requires
            limit == run.rate_limit_secs as nat * NANOS_PER_SEC as nat,
    ;
}

/// A server that no request went to is not waited for: while the run is not
/// finished and the next server was never sent to, the caller is told to send
/// at once, whenever requests went to other servers.
pub proof fn lemma_new_server_not_delayed(run: SchedulerView, now: u64)
    requires
        !run.finished(),
        !run.last_start.dom().contains(run.next_server()),
    ensures
        run.step_at(now) == Step::Send(run.next_server()),
{
}

/// While nothing is sent to a server, the start of its latest request stays
/// on the books, and the rate limit stays what it is.
proof fn lemma_start_is_kept(run: SchedulerView, events: Seq<Event>, server: Address)
    requires
        run.last_start.dom().contains(server),
        run.sends_nothing_to(events, server),
    ensures
        run.after_events(events).last_start.dom().contains(server),
        run.after_events(events).last_start[server] == run.last_start[server],
        run.after_events(events).rate_limit_secs == run.rate_limit_secs,
    decreases events.len(),
{
    if events.len() > 0 {
        lemma_start_is_kept(run, events.drop_last(), server);
    }
}

/// Two requests to the same server in a row start at least the rate limit
/// apart. Where the caller is told at the time `first` to send to `server`,
/// and after any events that send nothing to `server` is told at the time
/// `second` to send to it again, the rate limit has passed from `first` to
/// `second`.
pub proof fn lemma_requests_spaced(
    run: SchedulerView,
    server: Address,
    first: u64,
    events: Seq<Event>,
    second: u64,
)
    requires
        run.step_at(first) == Step::Send(server),
        run.after_poll(first).sends_nothing_to(events, server),
        run.after_poll(first).after_events(events).step_at(second) == Step::Send(server),
    ensures
        elapsed_since(second, first) >= run.rate_limit_secs * NANOS_PER_SEC,
{
    let sent = run.after_poll(first);
    assert(sent.last_start.dom().contains(server) && sent.last_start[server] == first);
    lemma_start_is_kept(sent, events, server);
    lemma_rate_limit(sent.after_events(events), second);
}

/// The steps of a run keep its books in order: after an answer to the caller
/// and after a report from the caller the state is valid again, and a report
/// adds one outcome until the run is finished.
pub proof fn lemma_steps_keep_valid(run: SchedulerView, now: u64, outcome: Outcome)
    requires
        run.valid(),
    ensures
        run.after_poll(now).valid(),
        run.after_complete(outcome).valid(),
        run.after_poll(now).outcomes == run.outcomes,
        !run.finished() ==> run.after_complete(outcome).outcomes.len() == run.outcomes.len() + 1,
{
    if !run.finished() {
        let after = run.after_complete(outcome);
        let m = run.servers.len() as int;
        assert(m > 0) by (nonlinear_arith)
            requires
                run.outcomes.len() < run.attempts * run.servers.len(),
                m == run.servers.len(),
        ;
        assert forall|k: int| 0 <= k < after.outcomes.len() implies (
        #[trigger] after.outcomes[k]).server == after.servers[k % m] by {
            if k < run.outcomes.len() {
                assert(after.outcomes[k] == run.outcomes[k]);
            }
        }
    }
}

/// A finished run made every request: each server of the list got a request
/// in each round, so the outcomes are `attempts` times the servers, and the
/// summaries of the run account for each of them once.
pub proof fn lemma_finished_run_counted(run: SchedulerView, summaries: Seq<ServerSummary>)
    requires
        run.valid(),
        run.finished(),
        summaries_of(summaries, run.outcomes, run.servers),
    ensures
        run.outcomes.len() == run.attempts * run.servers.len(),
        requests_counted(summaries) == run.attempts * run.servers.len(),
{
    let m = run.servers.len() as int;
    assert forall|k: int| 0 <= k < run.outcomes.len() implies run.servers.contains(
        #[trigger] run.outcomes[k].server,
    ) by {
        assert(m > 0) by (nonlinear_arith)
            requires
                0 < run.outcomes.len() <= run.attempts * run.servers.len(),
                m == run.servers.len(),
        ;
        assert(run.outcomes[k].server == run.servers[k % m]);
    }
    crate::summary::lemma_every_request_counted(summaries, run.outcomes, run.servers);
}

/// Among the first `n` outcomes of a run, a server that stands once in the
/// list has one request for each full round, and one more if the round under
/// way has passed it.
proof fn lemma_requests_in_prefix(
    outcomes: Seq<Measurement>,
    servers: Seq<Address>,
    at: int,
    n: int,
)
    requires
        in_request_order(outcomes, servers),
        servers.no_duplicates(),
        0 <= at < servers.len(),
        0 <= n <= outcomes.len(),
    ensures
        requests_to(outcomes.take(n), servers[at]) == n / (servers.len() as int) + if n % (
        servers.len() as int) > at {
            1int
        } else {
            0int
        },
    decreases n,
{
    let m = servers.len() as int;
    if n == 0 {
        assert(outcomes.take(0) =~= Seq::<Measurement>::empty());
        lemma_fundamental_div_mod_converse(0, m, 0, 0);
    } else {
        lemma_requests_in_prefix(outcomes, servers, at, n - 1);
        assert(outcomes.take(n).drop_last() =~= outcomes.take(n - 1));
        assert(outcomes.take(n).last() == outcomes[n - 1]);
        let q = (n - 1) / m;
        let r = (n - 1) % m;
        lemma_fundamental_div_mod(n - 1, m);
        lemma_mod_bound(n - 1, m);
        assert(n - 1 == q * m + r) by (nonlinear_arith)
            requires
                n - 1 == m * q + r,
        ;
        if r + 1 < m {
            lemma_fundamental_div_mod_converse(n, m, q, r + 1);
        } else {
            assert(n == (q + 1) * m + 0) by (nonlinear_arith)
                requires
                    n - 1 == q * m + r,
                    r + 1 == m,
            ;
            lemma_fundamental_div_mod_converse(n, m, q + 1, 0);
        }
        assert(outcomes[n - 1].server == servers[r]);
        if r != at {
            assert(servers[r] != servers[at]);
        }
    }
}

/// A list without repetition is the list of its distinct servers.
proof fn lemma_distinct_of_distinct(servers: Seq<Address>)
    requires
        servers.no_duplicates(),
    ensures
        distinct(servers) == servers,
    decreases servers.len(),
{
    if servers.len() > 0 {
        let init = servers.drop_last();
        lemma_distinct_of_distinct(init);
        if init.contains(servers.last()) {
            let i = choose|i: int| 0 <= i < init.len() && init[i] == servers.last();
            assert(servers[i] == servers[servers.len() - 1]);
        }
        assert(init.push(servers.last()) =~= servers);
    }
}

/// In a finished run over a list without repetition, every server got
/// `attempts` requests, and its summary accounts for each of them: its
/// failures and its recorded latencies together are `attempts`.
pub proof fn lemma_each_server_counted(run: SchedulerView, summaries: Seq<ServerSummary>)
    requires
        run.valid(),
        run.finished(),
        run.servers.no_duplicates(),
        summaries_of(summaries, run.outcomes, run.servers),
    ensures
        summaries.len() == run.servers.len(),
        forall|i: int|
            0 <= i < summaries.len() ==> {
                &&& (#[trigger] summaries[i]).server == run.servers[i]
                &&& requests_to(run.outcomes, run.servers[i]) == run.attempts
                &&& summaries[i].failed + summaries[i].histogram@.len() == run.attempts
            },
{
    lemma_distinct_of_distinct(run.servers);
    let m = run.servers.len() as int;
    let n = run.outcomes.len() as int;
    assert forall|i: int| 0 <= i < summaries.len() implies {
        &&& (#[trigger] summaries[i]).server == run.servers[i]
        &&& requests_to(run.outcomes, run.servers[i]) == run.attempts
        &&& summaries[i].failed + summaries[i].histogram@.len() == run.attempts
    } by {
        assert(crate::summary::summarizes(summaries[i], run.outcomes, run.servers[i]));
        lemma_requests_in_prefix(run.outcomes, run.servers, i, n);
        assert(run.outcomes.take(n) =~= run.outcomes);
        assert(n == run.attempts * m);
        lemma_fundamental_div_mod_converse(n, m, run.attempts as int, 0);
        crate::summary::lemma_requests_to(run.outcomes, run.servers[i]);
        summaries[i].histogram@.to_multiset_ensures();
        crate::summary::latencies(run.outcomes, run.servers[i]).to_multiset_ensures();
    }
}

/// The times kept in `entries`, by server. A later entry for a server goes
/// before an earlier one.
spec fn start_map(entries: Seq<(Address, u64)>) -> Map<Address, u64>
    decreases entries.len(),
{
    if entries.len() == 0 {
        Map::empty()
    } else {
        start_map(entries.drop_last()).insert(entries.last().0, entries.last().1)
    }
}

/// No server has two entries.
spec fn one_entry_each(entries: Seq<(Address, u64)>) -> bool {
    forall|i: int, j: int| 0 <= i < j < entries.len() ==> entries[i].0 != entries[j].0
}

proof fn lemma_start_map_holds(entries: Seq<(Address, u64)>, at: int)
    requires
        one_entry_each(entries),
        0 <= at < entries.len(),
    ensures
        start_map(entries).dom().contains(entries[at].0),
        start_map(entries)[entries[at].0] == entries[at].1,
    decreases entries.len(),
{
    if at < entries.len() - 1 {
        lemma_start_map_holds(entries.drop_last(), at);
        assert(entries.drop_last()[at] == entries[at]);
    }
}

proof fn lemma_start_map_lacks(entries: Seq<(Address, u64)>, server: Address)
    requires
        forall|i: int| 0 <= i < entries.len() ==> (#[trigger] entries[i]).0 != server,
    ensures
        !start_map(entries).dom().contains(server),
    decreases entries.len(),
{
    if entries.len() > 0 {
        assert forall|i: int| 0 <= i < entries.drop_last().len() implies (
        #[trigger] entries.drop_last()[i]).0 != server by {
            assert(entries.drop_last()[i] == entries[i]);
        }
        lemma_start_map_lacks(entries.drop_last(), server);
    }
}

proof fn lemma_start_map_update(entries: Seq<(Address, u64)>, at: int, time: u64)
    requires
        one_entry_each(entries),
        0 <= at < entries.len(),
    ensures
        start_map(entries.update(at, (entries[at].0, time))) =~= start_map(entries).insert(
            entries[at].0,
            time,
        ),
        one_entry_each(entries.update(at, (entries[at].0, time))),
    decreases entries.len(),
{
    let updated = entries.update(at, (entries[at].0, time));
    if at == entries.len() - 1 {
        assert(updated.drop_last() =~= entries.drop_last());
    } else {
        lemma_start_map_update(entries.drop_last(), at, time);
        assert(updated.drop_last() =~= entries.drop_last().update(at, (entries[at].0, time)));
        assert(updated.last() == entries.last());
        assert(entries[at].0 != entries[entries.len() - 1].0);
    }
}

/// Looks for the entry of `server`.
fn find_start(entries: &Vec<(Address, u64)>, server: Address) -> (found: Option<usize>)
    ensures
        found matches Some(at) ==> at < entries.len() && entries@[at as int].0 == server,
        found is None ==> forall|i: int|
            0 <= i < entries.len() ==> (#[trigger] entries@[i]).0 != server,
{
    let mut i: usize = 0;
    while i < entries.len()
        invariant
            i <= entries.len(),
            forall|k: int| 0 <= k < i ==> (#[trigger] entries@[k]).0 != server,
        decreases entries.len() - i,
    {
        if entries[i].0 == server {
            return Some(i);
        }
        i = i + 1;
    }
    None
}

impl View for Scheduler {
    type V = SchedulerView;

    closed spec fn view(&self) -> SchedulerView {
        SchedulerView {
            servers: self.servers@,
            attempts: self.attempts as nat,
            rate_limit_secs: self.rate_limit_secs,
            outcomes: self.outcomes@,
            last_start: start_map(self.starts@),
        }
    }
}

impl Scheduler {
    #[verifier::type_invariant]
    spec fn well_formed(&self) -> bool {
        &&& self@.valid()
        &&& one_entry_each(self.starts@)
    }

    /// A run of `attempts` requests to each entry of `servers`, with at least
    /// `rate_limit_secs` seconds between the starts of two requests to the
    /// same server.
    pub fn new(servers: Vec<Address>, attempts: usize, rate_limit_secs: u64) -> (scheduler: Self)
        ensures
            scheduler@ == SchedulerView::start(servers@, attempts as nat, rate_limit_secs),
            scheduler@.valid(),
    {
        let scheduler = Scheduler {
            servers,
            attempts,
            rate_limit_secs,
            outcomes: Vec::new(),
            starts: Vec::new(),
        };
        assert(scheduler@.total_requests() >= 0);
        assert(scheduler@.last_start =~= Map::empty());
        scheduler
    }

    /// Tells whether every request of the run has been reported.
    pub fn is_finished(&self) -> (finished: bool)
        ensures
            finished == self@.finished(),
            self@.valid(),
            !finished ==> self@.servers.len() > 0,
    {
        proof {
            use_type_invariant(self);
        }
        let count = self.servers.len();
        if count == 0 {
            assert(self@.total_requests() == 0) by (nonlinear_arith)
                requires
                    self@.total_requests() == self@.attempts * self@.servers.len(),
                    self@.servers.len() == 0,
            ;
            return true;
        }
        let rounds = self.outcomes.len() / count;
        assert(rounds >= self.attempts <==> self.outcomes@.len() >= self.attempts * count)
            by (nonlinear_arith)
            requires
                rounds == self.outcomes@.len() / (count as nat),
                count > 0,
        ;
        rounds >= self.attempts
    }

    /// The number of requests that have been reported.
    pub fn completed(&self) -> (count: usize)
        ensures
            count == self@.outcomes.len(),
    {
        self.outcomes.len()
    }

    /// The number of requests of the whole run, if a `usize` holds it.
    pub fn total_requests(&self) -> (total: Option<usize>)
        ensures
            total matches Some(n) ==> n == self@.total_requests(),
            total is None ==> self@.total_requests() > usize::MAX,
    {
        self.attempts.checked_mul(self.servers.len())
    }

    /// The server of the next request, while the run is not finished.
    pub fn next_server(&self) -> (server: Option<Address>)
        ensures
            server == if self@.finished() {
                None
            } else {
                Some(self@.next_server())
            },
    {
        if self.is_finished() {
            None
        } else {
            Some(self.servers[self.outcomes.len() % self.servers.len()])
        }
    }

    /// The servers of the run, in the order of the list.
    pub fn servers(&self) -> (servers: &Vec<Address>)
        ensures
            servers@ == self@.servers,
    {
        &self.servers
    }

    /// The outcomes reported so far, in the order of the requests.
    pub fn outcomes(&self) -> (outcomes: &Vec<Measurement>)
        ensures
            outcomes@ == self@.outcomes,
    {
        &self.outcomes
    }

    /// Tells the caller what to do at the time `now`, in nanoseconds on a
    /// clock that does not go back. Where the answer is to send, the request
    /// counts as started at `now`.
    pub fn poll(&mut self, now: u64) -> (step: Step)
        ensures
            step == old(self)@.step_at(now),
            final(self)@ == old(self)@.after_poll(now),
            final(self)@.valid(),
    {
        proof {
            use_type_invariant(&*self);
            lemma_steps_keep_valid(self@, now, Outcome::Failed);
        }
        if self.is_finished() {
            return Step::Done;
        }
        let server = self.servers[self.outcomes.len() % self.servers.len()];
        assert(self.rate_limit_secs * NANOS_PER_SEC <= u128::MAX) by (nonlinear_arith)
            requires
                self.rate_limit_secs <= u64::MAX,
        ;
        let limit: u128 = self.rate_limit_secs as u128 * NANOS_PER_SEC as u128;
        let found = find_start(&self.starts, server);
        let mut starts: Vec<(Address, u64)> = Vec::new();
        match found {
            Some(at) => {
                proof {
                    lemma_start_map_holds(self.starts@, at as int);
                }
                let last = self.starts[at].1;
                let since: u64 = if now >= last {
                    now - last
                } else {
                    0
                };
                if (since as u128) < limit {
                    return Step::Wait(limit - since as u128);
                }
                proof {
                    lemma_start_map_update(self.starts@, at as int, now);
                }
                std::mem::swap(&mut starts, &mut self.starts);
                starts.set(at, (server, now));
            },
            None => {
                proof {
                    lemma_start_map_lacks(self.starts@, server);
                }
                std::mem::swap(&mut starts, &mut self.starts);
                starts.push((server, now));
                assert(starts@.drop_last() =~= old(self).starts@);
            },
        }
        self.starts = starts;
        assert(self@.last_start =~= old(self)@.last_start.insert(server, now));
        Step::Send(server)
    }

    /// Records what the request to the next server came to, and moves on to
    /// the request after it. Nothing is recorded once the run is finished.
    pub fn complete(&mut self, outcome: Outcome)
        ensures
            final(self)@ == old(self)@.after_complete(outcome),
            final(self)@.valid(),
    {
        proof {
            use_type_invariant(&*self);
            lemma_steps_keep_valid(self@, 0, outcome);
        }
        if self.is_finished() {
            return ;
        }
        let server = self.servers[self.outcomes.len() % self.servers.len()];
        let mut outcomes: Vec<Measurement> = Vec::new();
        std::mem::swap(&mut outcomes, &mut self.outcomes);
        outcomes.push(Measurement { server, outcome });
        self.outcomes = outcomes;
    }

    /// Ends the run and hands out its outcomes, in the order of the requests.
    pub fn into_outcomes(self) -> (outcomes: Vec<Measurement>)
        ensures
            outcomes@ == self@.outcomes,
    {
        self.outcomes
    }
}

} // verus!
