use vstd::prelude::*;

verus! {

/// The timings of one transaction on one endpoint.
pub struct NodeMetrics {
    pub nodename: String,
    pub explorer_url: String,
    /// Time to submit, in microseconds.
    pub send_time_us: u64,
    /// Time to confirmation, in microseconds.
    pub confirm_time_us: u64,
}

/// All timings of a run.
pub struct BenchmarkResults {
    pub node_metrics: Vec<NodeMetrics>,
    pub total_transactions: usize,
}

impl BenchmarkResults {
    /// Results with no timings.
    pub fn new() -> (r: Self)
        ensures
            r.node_metrics@.len() == 0,
            r.total_transactions == 0,
    {
        BenchmarkResults { node_metrics: Vec::new(), total_transactions: 0 }
    }

    /// Adds the timings of one more transaction.
    pub fn add_metrics(&mut self, metrics: NodeMetrics)
        requires
            old(self).total_transactions < usize::MAX,
        ensures
            final(self).total_transactions == old(self).total_transactions + 1,
            final(self).node_metrics@ == old(self).node_metrics@.push(metrics),
    {
        self.total_transactions = self.total_transactions + 1;
        self.node_metrics.push(metrics);
    }
}

} // verus!
