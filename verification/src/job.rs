//! The records that a benchmark driver and an aligner exchange: the job,
//! what came out of it, and the two together.

use crate::cigar::{Cigar, CigarElem};
use crate::cost::{Cost, CostModel};
use crate::size::Bytes;
use vstd::prelude::*;
use vstd::std_specs::cmp::PartialEqSpec;

verus! {

/// A duration in nanoseconds.
pub type Nanos = u64;

/// The parameters of an algorithm. Each variant holds what is specific to
/// one algorithm.
#[derive(Debug, Clone, Copy, PartialEq, Eq, Hash, Structural)]
pub enum Algorithm {
    /// An aligner that works on blocks whose size it adapts between the
    /// two bounds.
    BlockAligner { costs: CostModel, min_size: usize, max_size: usize },
}

/// One unit of work: the dataset to align, how to score it, and with
/// which algorithm.
#[derive(Debug, Clone, Hash)]
pub struct Job {
    /// Where the sequence pairs are found: a path-like reference.
    pub dataset: String,
    /// The cost model that the reported costs are in.
    pub costs: CostModel,
    /// Whether an edit script is wanted for each pair, beside its cost.
    pub traceback: bool,
    /// The algorithm to run, with its parameters.
    pub algo: Algorithm,
}

/// A job as a value.
pub struct JobView {
    pub dataset: Seq<char>,
    pub costs: CostModel,
    pub traceback: bool,
    pub algo: Algorithm,
}

impl View for Job {
    type V = JobView;

    open spec fn view(&self) -> JobView {
        JobView {
            dataset: self.dataset@,
            costs: self.costs,
            traceback: self.traceback,
            algo: self.algo,
        }
    }
}

/// What running a job gave: one cost for each sequence pair of the
/// dataset and, where the job asked for them, one edit script for each.
#[derive(Debug, Clone, Hash)]
pub struct JobOutput {
    /// The time that the job took.
    pub runtime: Nanos,
    /// The peak memory use.
    pub memory: Bytes,
    /// The cost of each alignment, in the order of the dataset.
    pub costs: Vec<Cost>,
    /// The edit script of each alignment, in the same order.
    pub cigars: Vec<Cigar>,
}

/// The output of a job as a value.
pub struct JobOutputView {
    pub runtime: Nanos,
    pub memory: Bytes,
    pub costs: Seq<Cost>,
    pub cigars: Seq<Seq<CigarElem>>,
}

impl View for JobOutput {
    type V = JobOutputView;

    open spec fn view(&self) -> JobOutputView {
        JobOutputView {
            runtime: self.runtime,
            memory: self.memory,
            costs: self.costs@,
            cigars: Seq::new(self.cigars@.len(), |k: int| self.cigars@[k]@),
        }
    }
}

/// A job with what came out of it. A job that was attempted and gave no
/// measurement has no output; that is not the same as an output without
/// alignments, which is what a dataset without sequence pairs gives.
#[derive(Debug, Clone, Hash)]
pub struct JobResult {
    pub job: Job,
    pub output: Option<JobOutput>,
}

/// The result of a job as a value.
pub struct JobResultView {
    pub job: JobView,
    pub output: Option<JobOutputView>,
}

impl View for JobResult {
    type V = JobResultView;

    open spec fn view(&self) -> JobResultView {
        JobResultView {
            job: self.job@,
            output: match self.output {
                None => None,
                Some(o) => Some(o@),
            },
        }
    }
}

impl PartialEq for Job {
    fn eq(&self, other: &Self) -> (r: bool) {
        self.dataset == other.dataset && self.costs == other.costs && self.traceback
            == other.traceback && self.algo == other.algo
    }
}

impl vstd::std_specs::cmp::PartialEqSpecImpl for Job {
    open spec fn obeys_eq_spec() -> bool {
        true
    }

    open spec fn eq_spec(&self, other: &Job) -> bool {
        self@ == other@
    }
}

impl Eq for Job {}

impl PartialEq for JobOutput {
    fn eq(&self, other: &Self) -> (r: bool) {
        if self.runtime != other.runtime || self.memory != other.memory {
            return false;
        }
        if self.costs.len() != other.costs.len() || self.cigars.len() != other.cigars.len() {
            assert(self@.cigars.len() == self.cigars@.len());
            assert(other@.cigars.len() == other.cigars@.len());
            return false;
        }
        let mut k: usize = 0;
        while k < self.costs.len()
            invariant
                k <= self.costs.len(),
                self.costs.len() == other.costs.len(),
                forall|t: int| 0 <= t < k ==> self.costs@[t] == other.costs@[t],
            decreases self.costs.len() - k,
        {
            if self.costs[k] != other.costs[k] {
                return false;
            }
            k += 1;
        }
        assert(self.costs@ =~= other.costs@);
        let mut k: usize = 0;
        while k < self.cigars.len()
            invariant
                k <= self.cigars.len(),
                self.cigars.len() == other.cigars.len(),
                forall|t: int| 0 <= t < k ==> self.cigars@[t]@ == other.cigars@[t]@,
            decreases self.cigars.len() - k,
        {
            if !(self.cigars[k] == other.cigars[k]) {
                assert(self@.cigars[k as int] != other@.cigars[k as int]);
                return false;
            }
            k += 1;
        }
        assert(self@.cigars =~= other@.cigars);
        true
    }
}

impl vstd::std_specs::cmp::PartialEqSpecImpl for JobOutput {
    open spec fn obeys_eq_spec() -> bool {
        true
    }

    open spec fn eq_spec(&self, other: &JobOutput) -> bool {
        self@ == other@
    }
}

impl Eq for JobOutput {}

impl PartialEq for JobResult {
    fn eq(&self, other: &Self) -> (r: bool) {
        if !(self.job == other.job) {
            return false;
        }
        match (&self.output, &other.output) {
            (None, None) => true,
            (Some(a), Some(b)) => a == b,
            _ => false,
        }
    }
}

impl vstd::std_specs::cmp::PartialEqSpecImpl for JobResult {
    open spec fn obeys_eq_spec() -> bool {
        true
    }

    open spec fn eq_spec(&self, other: &JobResult) -> bool {
        self@ == other@
    }
}

impl Eq for JobResult {}

impl Job {
    /// A job from its four parts.
    pub fn new(dataset: String, costs: CostModel, traceback: bool, algo: Algorithm) -> (job: Job)
        ensures
            job@ == (JobView { dataset: dataset@, costs, traceback, algo }),
    {
        Job { dataset, costs, traceback, algo }
    }
}

impl JobOutput {
    /// There are as many edit scripts as costs, or none at all.
    pub open spec fn spec_pairs_up(&self) -> bool {
        self.cigars@.len() == 0 || self.cigars@.len() == self.costs@.len()
    }

    /// An output from its four parts.
    pub fn new(runtime: Nanos, memory: Bytes, costs: Vec<Cost>, cigars: Vec<Cigar>) -> (out:
        JobOutput)
        ensures
            out.runtime == runtime,
            out.memory == memory,
            out.costs == costs,
            out.cigars == cigars,
    {
        JobOutput { runtime, memory, costs, cigars }
    }

    /// The number of alignments that the output reports.
    pub fn len(&self) -> (n: usize)
        ensures
            n == self.costs@.len(),
    {
        self.costs.len()
    }

    /// Whether there are as many edit scripts as costs, or none at all.
    pub fn pairs_up(&self) -> (b: bool)
        ensures
            b == self.spec_pairs_up(),
    {
        self.cigars.len() == 0 || self.cigars.len() == self.costs.len()
    }
}

impl JobResult {
    /// The output, where there is one, holds an edit script for each cost
    /// if the job asked for edit scripts, and none if it did not.
    pub open spec fn spec_consistent(&self) -> bool {
        match self.output {
            None => true,
            Some(o) => if self.job.traceback {
                o.cigars@.len() == o.costs@.len()
            } else {
                o.cigars@.len() == 0
            },
        }
    }

    /// The record of a job and its output, if it gave one.
    pub fn new(job: Job, output: Option<JobOutput>) -> (res: JobResult)
        ensures
            res.job == job,
            res.output == output,
    {
        JobResult { job, output }
    }

    /// The record of a job that was attempted and gave no measurement.
    pub fn without_output(job: Job) -> (res: JobResult)
        ensures
            res.job == job,
            res.output is None,
    {
        JobResult { job, output: None }
    }

    /// Whether the job gave a measurement.
    pub fn has_output(&self) -> (b: bool)
        ensures
            b == self.output is Some,
    {
        self.output.is_some()
    }

    /// Whether the output, where there is one, holds an edit script for
    /// each cost if the job asked for edit scripts, and none if it did not.
    pub fn is_consistent(&self) -> (b: bool)
        ensures
            b == self.spec_consistent(),
    {
        match &self.output {
            None => true,
            Some(o) => if self.job.traceback {
                o.cigars.len() == o.costs.len()
            } else {
                o.cigars.len() == 0
            },
        }
    }
}

/// A result without output differs from every result with one, also from
/// one whose output reports no alignment at all.
pub proof fn lemma_absent_output_is_distinct(absent: JobResult, present: JobResult)
    requires
        absent.output is None,
        present.output is Some,
    ensures
        absent@ != present@,
        !absent.eq_spec(&present),
        !present.eq_spec(&absent),
{
}

} // verus!
