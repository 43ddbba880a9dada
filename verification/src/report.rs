use vstd::prelude::*;

verus! {

/// What the cluster reporter is asked to collect and how to print it.
pub struct ReporterConfig {
    /// Address of the node the report starts from.
    pub node: String,
    /// Where the report goes.
    pub output: String,
    /// Which columns the report shows.
    pub column: String,
    /// The output format.
    pub format: String,
}

impl ReporterConfig {
    /// Turns the configuration into a reporter that owns it.
    pub fn build(self) -> (r: Reporter)
        ensures
            r.cfg == self,
    {
        Reporter { cfg: self }
    }
}

/// Collects information from every cluster member and renders it; runs in a
/// single thread.
pub struct Reporter {
    pub cfg: ReporterConfig,
}

/// A list of slot ranges, as shown in a report.
pub struct Slots(pub Vec<Slot>);

/// One inclusive range of slots, as shown in a report.
pub struct Slot {
    pub begin: usize,
    pub end: usize,
}

impl Slot {
    /// Whether the range holds exactly one slot, which a report prints as a
    /// single number.
    pub fn is_single(&self) -> (r: bool)
        ensures
            r == (self.begin == self.end),
    {
        self.begin == self.end
    }
}

} // verus!
