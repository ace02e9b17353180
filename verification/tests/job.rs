use pa_types::cigar::{Cigar, CigarOp};
use pa_types::{Algorithm, CostModel, Job, JobOutput, JobResult};

fn job(traceback: bool) -> Job {
    Job::new(
        "data/ont-500k.seq".to_string(),
        CostModel::Affine { sub: 1, open: 1, extend: 1 },
        traceback,
        Algorithm::BlockAligner {
            costs: CostModel::Affine { sub: 1, open: 1, extend: 1 },
            min_size: 32,
            max_size: 1024,
        },
    )
}

fn empty_output() -> JobOutput {
    JobOutput::new(0, 0, vec![], vec![])
}

#[test]
fn job_holds_its_parts() {
    let j = job(true);
    assert_eq!(j.dataset, "data/ont-500k.seq");
    assert_eq!(j.costs, CostModel::Affine { sub: 1, open: 1, extend: 1 });
    assert!(j.traceback);
    match j.algo {
        Algorithm::BlockAligner { costs, min_size, max_size } => {
            assert_eq!(costs, j.costs);
            assert_eq!((min_size, max_size), (32, 1024));
        }
    }
}

#[test]
fn absent_output_differs_from_empty_output() {
    let absent = JobResult::without_output(job(false));
    let empty = JobResult::new(job(false), Some(empty_output()));
    assert_ne!(absent, empty);
    assert_ne!(empty, absent);
    assert!(!absent.has_output());
    assert!(empty.has_output());
    assert_eq!(absent.output, None);
    assert_eq!(empty.output.as_ref().map(|o| o.len()), Some(0));
    assert_eq!(absent, JobResult::new(job(false), None));
}

#[test]
fn results_are_equal_when_all_parts_are() {
    let out = || {
        JobOutput::new(
            1_500_000,
            4096,
            vec![3, 0],
            vec![
                Cigar::from_ops(&[CigarOp::Match, CigarOp::Sub, CigarOp::Del, CigarOp::Del]),
                Cigar::from_ops(&[CigarOp::Match]),
            ],
        )
    };
    assert_eq!(JobResult::new(job(true), Some(out())), JobResult::new(job(true), Some(out())));
    assert_ne!(JobResult::new(job(true), Some(out())), JobResult::new(job(false), Some(out())));

    let mut other = out();
    other.runtime += 1;
    assert_ne!(other, out());
    let mut other = out();
    other.memory = 0;
    assert_ne!(other, out());
    let mut other = out();
    other.costs[1] = 1;
    assert_ne!(other, out());
    let mut other = out();
    other.costs.push(0);
    assert_ne!(other, out());
    let mut other = out();
    other.cigars[1] = Cigar::from_ops(&[CigarOp::Sub]);
    assert_ne!(other, out());
    let mut other = out();
    other.cigars.pop();
    assert_ne!(other, out());
}

#[test]
fn jobs_are_equal_when_all_parts_are() {
    assert_eq!(job(true), job(true));
    assert_ne!(job(true), job(false));
    let mut other = job(true);
    other.dataset.push('x');
    assert_ne!(other, job(true));
    let mut other = job(true);
    other.costs = CostModel::Unit;
    assert_ne!(other, job(true));
    let mut other = job(true);
    other.algo = Algorithm::BlockAligner { costs: CostModel::Unit, min_size: 32, max_size: 1024 };
    assert_ne!(other, job(true));
}

#[test]
fn output_pairs_costs_with_edit_scripts() {
    let with = JobOutput::new(7, 8, vec![1, 2], vec![Cigar::new(), Cigar::new()]);
    let without = JobOutput::new(7, 8, vec![1, 2], vec![]);
    let short = JobOutput::new(7, 8, vec![1, 2], vec![Cigar::new()]);
    assert_eq!(with.len(), 2);
    assert!(with.pairs_up());
    assert!(without.pairs_up());
    assert!(!short.pairs_up());

    assert!(JobResult::new(job(true), Some(with.clone())).is_consistent());
    assert!(!JobResult::new(job(false), Some(with)).is_consistent());
    assert!(JobResult::new(job(false), Some(without.clone())).is_consistent());
    assert!(!JobResult::new(job(true), Some(without)).is_consistent());
    assert!(!JobResult::new(job(true), Some(short)).is_consistent());
    assert!(JobResult::without_output(job(true)).is_consistent());
    assert!(JobResult::new(job(true), Some(empty_output())).is_consistent());
}
