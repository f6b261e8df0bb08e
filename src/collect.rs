use vstd::prelude::*;

use crate::config::BenchmarkConfig;
use crate::monitor::{record_model, record_signatures, ConfirmationResult, RecordModel};
use crate::report::{texts, NodeConfirmations};

verus! {

/// How long a run waits for confirmations when the configuration says
/// nothing, in seconds.
pub const DEFAULT_TIMEOUT_SECONDS: u64 = 120;

/// Microseconds in a second.
pub const MICROS_PER_SECOND: u64 = 1000000;

/// Why a run cannot start.
#[derive(PartialEq, Eq, Structural, Clone, Copy, Debug)]
pub enum RunError {
    /// The configuration lists no endpoint.
    NoEndpoints,
    /// Some transfer amount does not fit in 64 bits.
    AmountOverflow,
    /// The timeout in microseconds does not fit in 64 bits.
    TimeoutOverflow,
}

/// What a run does before it starts its monitors.
pub struct RunPlan {
    /// The amount of each transfer, one per transaction.
    pub amounts: Vec<u64>,
    /// How long to wait for confirmations, in microseconds.
    pub timeout_us: u64,
}

/// The timeout a configuration asks for, in seconds.
pub open spec fn timeout_seconds(config: BenchmarkConfig) -> nat {
    match config.transaction_timeout_seconds {
        Some(s) => s as nat,
        None => DEFAULT_TIMEOUT_SECONDS as nat,
    }
}

/// Checks a configuration and derives the transfer amounts and the
/// timeout: transfer `i` carries `amount_lamports + i`, so that every
/// transaction differs.
pub fn plan_run(config: &BenchmarkConfig) -> (r: Result<RunPlan, RunError>)
    ensures
        config.rpc_nodes@.len() == 0 <==> r == Err::<RunPlan, RunError>(RunError::NoEndpoints),
        config.rpc_nodes@.len() > 0 && config.num_transactions > 0
            && config.amount_lamports + config.num_transactions - 1 > u64::MAX
            <==> r == Err::<RunPlan, RunError>(RunError::AmountOverflow),
        r == Err::<RunPlan, RunError>(RunError::TimeoutOverflow) <==> (config.rpc_nodes@.len() > 0
            && (config.num_transactions == 0 || config.amount_lamports + config.num_transactions - 1 <= u64::MAX)
            && timeout_seconds(*config) * MICROS_PER_SECOND > u64::MAX),
        r matches Ok(p) ==> {
            &&& p.amounts@.len() == config.num_transactions
            &&& forall|i: int| 0 <= i < p.amounts@.len() ==> #[trigger] p.amounts@[i] == config.amount_lamports + i
            &&& p.timeout_us == timeout_seconds(*config) * MICROS_PER_SECOND
        },
{
    if config.rpc_nodes.len() == 0 {
        return Err(RunError::NoEndpoints);
    }
    if config.num_transactions > 0 && config.amount_lamports as u128 + config.num_transactions as u128 - 1 > u64::MAX as u128 {
        return Err(RunError::AmountOverflow);
    }
    let seconds = match config.transaction_timeout_seconds {
        Some(s) => s,
        None => DEFAULT_TIMEOUT_SECONDS,
    };
    if seconds > u64::MAX / MICROS_PER_SECOND {
        assert(seconds * MICROS_PER_SECOND > u64::MAX) by (nonlinear_arith)
            requires
                seconds > u64::MAX / MICROS_PER_SECOND,
                MICROS_PER_SECOND == 1000000,
        ;
        return Err(RunError::TimeoutOverflow);
    }
    assert(seconds * MICROS_PER_SECOND <= u64::MAX) by (nonlinear_arith)
        requires
            seconds <= u64::MAX / MICROS_PER_SECOND,
            MICROS_PER_SECOND == 1000000,
    ;
    let mut amounts: Vec<u64> = Vec::new();
    let mut i: usize = 0;
    while i < config.num_transactions
        invariant
            i <= config.num_transactions,
            config.num_transactions > 0 ==> config.amount_lamports + config.num_transactions - 1 <= u64::MAX,
            amounts@.len() == i,
            forall|q: int| 0 <= q < i ==> #[trigger] amounts@[q] == config.amount_lamports + q,
        decreases config.num_transactions - i,
    {
        amounts.push(config.amount_lamports + i as u64);
        i = i + 1;
    }
    Ok(RunPlan { amounts, timeout_us: seconds * MICROS_PER_SECOND })
}


/// What the collection phase has gathered so far.
pub struct CollectorModel {
    /// The endpoints, in configuration order.
    pub names: Seq<Seq<char>>,
    /// The confirmations gathered from each endpoint, in arrival order.
    pub results: Seq<Seq<RecordModel>>,
    /// Which endpoints' monitors have finished.
    pub finished: Seq<bool>,
    /// When the run stops waiting, in microseconds.
    pub deadline_us: u64,
}

/// The collection phase of a run: gathers each endpoint's confirmations as
/// its monitor reports them, keeping the first per signature, until every
/// monitor has finished or the deadline passes.
pub struct Collector {
    names: Vec<String>,
    results: Vec<Vec<ConfirmationResult>>,
    finished: Vec<bool>,
    deadline_us: u64,
}

/// The model of each confirmation in a list.
pub open spec fn records_view(v: Seq<ConfirmationResult>) -> Seq<RecordModel> {
    v.map_values(|c: ConfirmationResult| record_model(c))
}

/// The model of each endpoint's list of confirmations.
pub open spec fn results_view(v: Seq<Vec<ConfirmationResult>>) -> Seq<Seq<RecordModel>> {
    v.map_values(|l: Vec<ConfirmationResult>| records_view(l@))
}

impl View for Collector {
    type V = CollectorModel;

    closed spec fn view(&self) -> CollectorModel {
        CollectorModel {
            names: texts(self.names@),
            results: results_view(self.results@),
            finished: self.finished@,
            deadline_us: self.deadline_us,
        }
    }
}

impl CollectorModel {
    /// The invariant every reachable state keeps.
    pub open spec fn wf(self) -> bool {
        &&& self.results.len() == self.names.len()
        &&& self.finished.len() == self.names.len()
        &&& forall|i: int| 0 <= i < self.results.len() ==> record_signatures(#[trigger] self.results[i]).no_duplicates()
    }

    /// Whether every endpoint's monitor has finished.
    pub open spec fn all_finished(self) -> bool {
        forall|i: int| 0 <= i < self.finished.len() ==> #[trigger] self.finished[i]
    }
}

impl Collector {
    /// The representation agrees with its model.
    pub closed spec fn wf(&self) -> bool {
        &&& self@.wf()
        &&& self.results@.len() == self.names@.len()
        &&& self.finished@.len() == self.names@.len()
    }

    /// Starts collecting for the endpoints `names`, waiting at most
    /// `timeout_us` from `start_us`; the deadline is the last representable
    /// instant where the sum does not fit.
    pub fn new(names: Vec<String>, start_us: u64, timeout_us: u64) -> (r: Self)
        ensures
            r.wf(),
            r@.wf(),
            r@.names == texts(names@),
            r@.results == Seq::new(names@.len(), |i: int| Seq::<RecordModel>::empty()),
            r@.finished == Seq::new(names@.len(), |i: int| false),
            r@.deadline_us == if start_us + timeout_us > u64::MAX {
                u64::MAX as int
            } else {
                start_us + timeout_us
            },
    {
        let deadline_us = if timeout_us > u64::MAX - start_us {
            u64::MAX
        } else {
            start_us + timeout_us
        };
        let mut results: Vec<Vec<ConfirmationResult>> = Vec::new();
        let mut finished: Vec<bool> = Vec::new();
        let mut i: usize = 0;
        while i < names.len()
            invariant
                i <= names@.len(),
                results@.len() == i,
                finished@.len() == i,
                forall|q: int| 0 <= q < i ==> (#[trigger] results@[q])@.len() == 0,
                forall|q: int| 0 <= q < i ==> !#[trigger] finished@[q],
            decreases names@.len() - i,
        {
            results.push(Vec::new());
            finished.push(false);
            i = i + 1;
        }
        let r = Collector { names, results, finished, deadline_us };
        assert(r@.results =~= Seq::new(r.names@.len(), |i: int| Seq::<RecordModel>::empty())) by {
            assert forall|q: int| 0 <= q < r.results@.len() implies #[trigger] records_view(r.results@[q]@) =~= Seq::<RecordModel>::empty() by {
            }
        }
        assert(r@.finished =~= Seq::new(r.names@.len(), |i: int| false));
        r
    }

    /// Takes one confirmation from the monitor of endpoint `node`. It is
    /// kept unless that endpoint already reported the signature, or there is
    /// no such endpoint; the result says whether it was kept.
    pub fn record(&mut self, node: usize, result: ConfirmationResult) -> (kept: bool)
        requires
            old(self).wf(),
        ensures
            final(self).wf(),
            final(self)@.wf(),
            kept == (node < old(self)@.names.len() && !record_signatures(old(self)@.results[node as int]).contains(result.signature@)),
            kept ==> final(self)@ == (CollectorModel {
                results: old(self)@.results.update(node as int, old(self)@.results[node as int].push(record_model(result))),
                ..old(self)@
            }),
            !kept ==> final(self)@ == old(self)@,
    {
        let ghost m = self@;
        if node >= self.results.len() {
            return false;
        }
        let ghost sigs = record_signatures(m.results[node as int]);
        let mut k: usize = 0;
        while k < self.results[node].len()
            invariant
                self.wf(),
                self@ == m,
                node < self.results@.len(),
                sigs == record_signatures(m.results[node as int]),
                k <= self.results@[node as int]@.len(),
                forall|q: int| 0 <= q < k ==> sigs[q] != result.signature@,
            decreases self.results@[node as int]@.len() - k,
        {
            assert(sigs[k as int] == self.results@[node as int]@[k as int].signature@);
            if self.results[node][k].signature == result.signature {
                return false;
            }
            k = k + 1;
        }
        let mut list = self.results.remove(node);
        assert(records_view(list@) == m.results[node as int]);
        list.push(result);
        self.results.insert(node, list);
        assert(records_view(list@) =~= m.results[node as int].push(record_model(result)));
        assert(self@.results =~= m.results.update(node as int, m.results[node as int].push(record_model(result))));
        assert(record_signatures(self@.results[node as int]) =~= sigs.push(result.signature@));
        assert forall|i: int| 0 <= i < self@.results.len() implies record_signatures(#[trigger] self@.results[i]).no_duplicates() by {
            if i != node {
                assert(self@.results[i] == m.results[i]);
            }
        }
        true
    }

    /// Notes that the monitor of endpoint `node` has finished.
    pub fn node_finished(&mut self, node: usize)
        requires
            old(self).wf(),
        ensures
            final(self).wf(),
            final(self)@.wf(),
            node < old(self)@.names.len() ==> final(self)@ == (CollectorModel {
                finished: old(self)@.finished.update(node as int, true),
                ..old(self)@
            }),
            node >= old(self)@.names.len() ==> final(self)@ == old(self)@,
    {
        let ghost m = self@;
        if node < self.finished.len() {
            self.finished.set(node, true);
            assert(self@.finished =~= m.finished.update(node as int, true));
        }
    }

    /// Whether to stop waiting at `now_us`: every monitor has finished or
    /// the deadline has passed.
    pub fn should_finish(&self, now_us: u64) -> (r: bool)
        requires
            self.wf(),
        ensures
            r == (now_us >= self@.deadline_us || self@.all_finished()),
    {
        if now_us >= self.deadline_us {
            return true;
        }
        let mut i: usize = 0;
        while i < self.finished.len()
            invariant
                self.wf(),
                now_us < self.deadline_us,
                i <= self.finished@.len(),
                forall|q: int| 0 <= q < i ==> #[trigger] self@.finished[q],
            decreases self.finished@.len() - i,
        {
            if !self.finished[i] {
                assert(!self@.finished[i as int]);
                return false;
            }
            i = i + 1;
        }
        true
    }

    /// What was gathered, one entry per endpoint in configuration order,
    /// endpoints that reported nothing included.
    pub fn into_report_input(self) -> (r: Vec<NodeConfirmations>)
        requires
            self.wf(),
        ensures
            r@.len() == self@.names.len(),
            forall|i: int| 0 <= i < r@.len() ==> (#[trigger] r@[i]).0@ == self@.names[i] && records_view(r@[i].1@) == self@.results[i],
    {
        let ghost m = self@;
        let Collector { names, results, finished: _, deadline_us: _ } = self;
        let mut names = names;
        let mut results = results;
        let mut r: Vec<NodeConfirmations> = Vec::new();
        assert(m.names.skip(0) =~= m.names);
        assert(m.results.skip(0) =~= m.results);
        while names.len() > 0
            invariant
                names@.len() == results@.len(),
                r@.len() + names@.len() == m.names.len(),
                texts(names@) == m.names.skip(r@.len() as int),
                results_view(results@) == m.results.skip(r@.len() as int),
                m.results.len() == m.names.len(),
                forall|i: int| 0 <= i < r@.len() ==> (#[trigger] r@[i]).0@ == m.names[i] && records_view(r@[i].1@) == m.results[i],
            decreases names@.len(),
        {
            let ghost k = r@.len() as int;
            let ghost old_names = names@;
            let ghost old_results = results@;
            let name = names.remove(0);
            let list = results.remove(0);
            assert(texts(old_names)[0] == name@);
            assert(results_view(old_results)[0] == records_view(list@));
            assert(texts(old_names) == m.names.skip(k));
            assert forall|j: int| 0 <= j < names@.len() implies #[trigger] texts(names@)[j] == m.names.skip(k + 1)[j] by {
                assert(names@[j] == old_names[j + 1]);
                assert(texts(old_names)[j + 1] == m.names.skip(k)[j + 1]);
            }
            assert(texts(names@) =~= m.names.skip(k + 1));
            assert forall|j: int| 0 <= j < results@.len() implies #[trigger] results_view(results@)[j]
                == m.results.skip(k + 1)[j] by {
                assert(results@[j] == old_results[j + 1]);
                assert(results_view(old_results)[j + 1] == m.results.skip(k)[j + 1]);
            }
            assert(results_view(results@) =~= m.results.skip(k + 1));
            r.push((name, list));
        }
        r
    }
}

} // verus!
