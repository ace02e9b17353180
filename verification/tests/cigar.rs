use pa_types::cigar::{Cigar, CigarElem, CigarOp};
use pa_types::{Error, ErrorClass, Pos};

use CigarOp::{Del, Ins, Match};

const SUBST: CigarOp = CigarOp::Sub;

fn cigar(runs: &[(CigarOp, usize)]) -> Cigar {
    Cigar {
        ops: runs.iter().map(|&(op, cnt)| CigarElem { op, cnt }).collect(),
    }
}

#[test]
fn encode_merges_equal_neighbours() {
    let c = Cigar::from_ops(&[Match, Match, Del, Ins, Ins]);
    assert_eq!(c, cigar(&[(Match, 2), (Del, 1), (Ins, 2)]));
    assert!(c.is_canonical());
}

#[test]
fn encode_of_nothing_is_empty() {
    let c = Cigar::from_ops(&[]);
    assert_eq!(c, Cigar::new());
    assert!(c.ops.is_empty());
    assert!(c.is_canonical());
    assert_eq!(c.to_ops(), Ok(vec![]));
}

#[test]
fn decode_expands_runs() {
    let c = cigar(&[(Match, 2), (Del, 1), (Ins, 2)]);
    assert_eq!(c.to_ops(), Ok(vec![Match, Match, Del, Ins, Ins]));
}

#[test]
fn path_round_trip() {
    // Two matches, one step down, two steps right.
    let a = b"ACG";
    let b = b"ACTT";
    let path = vec![Pos(0, 0), Pos(1, 1), Pos(2, 2), Pos(3, 2), Pos(3, 3), Pos(3, 4)];
    let c = Cigar::from_path(a, b, &path).unwrap();
    assert_eq!(c, cigar(&[(Match, 2), (Del, 1), (Ins, 2)]));
    let ops = c.to_ops().unwrap();
    assert_eq!(ops, vec![Match, Match, Del, Ins, Ins]);
    assert_eq!(ops.len(), 5);
    assert_eq!(c.to_path(Pos::start()), Ok(path));
}

#[test]
fn decode_then_encode_gives_a_canonical_script_back() {
    let c = cigar(&[(SUBST, 1), (Match, 3), (Ins, 2), (Del, 2), (Match, 1)]);
    assert!(c.is_canonical());
    let ops = c.to_ops().unwrap();
    assert_eq!(Cigar::from_ops(&ops), c);
}

#[test]
fn encode_then_decode_gives_the_steps_back() {
    let ops = vec![Ins, Ins, SUBST, Match, Match, Del, Del, Del, SUBST, SUBST, Match];
    assert_eq!(Cigar::from_ops(&ops).to_ops(), Ok(ops));
}

#[test]
fn non_canonical_script_is_normalised_not_returned() {
    let split = cigar(&[(Match, 1), (Match, 2), (Del, 1)]);
    assert!(!split.is_canonical());
    let ops = split.to_ops().unwrap();
    assert_eq!(ops, vec![Match, Match, Match, Del]);
    let merged = Cigar::from_ops(&ops);
    assert_eq!(merged, cigar(&[(Match, 3), (Del, 1)]));
    assert_ne!(merged, split);
}

#[test]
fn zero_length_run_is_rejected() {
    let c = cigar(&[(Match, 2), (Del, 0), (Ins, 0), (Match, 1)]);
    assert_eq!(c.validate(), Err(Error::ZeroLengthRun { index: 1 }));
    assert_eq!(c.to_ops(), Err(Error::ZeroLengthRun { index: 1 }));
    assert_eq!(c.to_path(Pos::start()), Err(Error::ZeroLengthRun { index: 1 }));
    assert!(!c.is_canonical());
    assert_eq!(Error::ZeroLengthRun { index: 1 }.class(), ErrorClass::Decode);
    assert_eq!(cigar(&[(SUBST, 0)]).to_ops(), Err(Error::ZeroLengthRun { index: 0 }));
}

#[test]
fn validate_accepts_positive_runs() {
    assert_eq!(Cigar::new().validate(), Ok(()));
    assert_eq!(cigar(&[(Match, 1), (Match, 1)]).validate(), Ok(()));
}

#[test]
fn push_grows_the_last_run_or_starts_one() {
    let mut c = Cigar::new();
    c.push(Match);
    assert_eq!(c, cigar(&[(Match, 1)]));
    c.push(Match);
    assert_eq!(c, cigar(&[(Match, 2)]));
    c.push(SUBST);
    assert_eq!(c, cigar(&[(Match, 2), (SUBST, 1)]));
    c.push(Match);
    assert_eq!(c, cigar(&[(Match, 2), (SUBST, 1), (Match, 1)]));
}

#[test]
fn push_does_not_overflow_a_full_run() {
    let mut c = cigar(&[(Ins, usize::MAX)]);
    c.push(Ins);
    assert_eq!(c, cigar(&[(Ins, usize::MAX), (Ins, 1)]));
}

#[test]
fn steps_of_the_operations() {
    assert_eq!(Match.delta(), Pos(1, 1));
    assert_eq!(SUBST.delta(), Pos(1, 1));
    assert_eq!(Del.delta(), Pos(1, 0));
    assert_eq!(Ins.delta(), Pos(0, 1));
    assert!(!Match.is_gap());
    assert!(!SUBST.is_gap());
    assert!(Del.is_gap());
    assert!(Ins.is_gap());
}

#[test]
fn path_from_ops_follows_the_steps() {
    let path = Cigar::path_from_ops(Pos(2, 5), &[SUBST, Ins, Del, Match]).unwrap();
    assert_eq!(path, vec![Pos(2, 5), Pos(3, 6), Pos(3, 7), Pos(4, 7), Pos(5, 8)]);
    assert_eq!(Cigar::path_from_ops(Pos(2, 5), &[]), Ok(vec![Pos(2, 5)]));
}

#[test]
fn path_that_leaves_the_coordinate_range_is_rejected() {
    let start = Pos(i32::MAX - 1, 0);
    assert_eq!(
        Cigar::path_from_ops(start, &[Del, Ins]),
        Ok(vec![start, Pos(i32::MAX, 0), Pos(i32::MAX, 1)])
    );
    assert_eq!(Cigar::path_from_ops(start, &[Del, Ins, Match]), Err(Error::PathOutOfRange));
    assert_eq!(
        cigar(&[(Ins, 3), (Del, 2)]).to_path(start),
        Err(Error::PathOutOfRange)
    );
    assert_eq!(
        cigar(&[(Match, 1), (Del, 0)]).to_path(Pos(i32::MAX, 0)),
        Err(Error::ZeroLengthRun { index: 1 })
    );
    assert_eq!(Error::PathOutOfRange.class(), ErrorClass::Decode);
}

#[test]
fn classify_tells_the_four_operations_apart() {
    let a = b"AC";
    let b = b"AG";
    assert_eq!(Cigar::classify_step(a, b, Pos(0, 0), Pos(1, 1)), Some(Match));
    assert_eq!(Cigar::classify_step(a, b, Pos(1, 1), Pos(2, 2)), Some(SUBST));
    assert_eq!(Cigar::classify_step(a, b, Pos(1, 1), Pos(2, 1)), Some(Del));
    assert_eq!(Cigar::classify_step(a, b, Pos(1, 1), Pos(1, 2)), Some(Ins));
    assert_eq!(Cigar::classify_step(a, b, Pos(2, 2), Pos(2, 2)), None);
    assert_eq!(Cigar::classify_step(a, b, Pos(1, 1), Pos(0, 0)), None);
    assert_eq!(Cigar::classify_step(a, b, Pos(0, 0), Pos(2, 2)), None);
    assert_eq!(Cigar::classify_step(a, b, Pos(0, 0), Pos(2, 1)), None);
    // Steps that leave the matrix.
    assert_eq!(Cigar::classify_step(a, b, Pos(2, 2), Pos(3, 2)), None);
    assert_eq!(Cigar::classify_step(a, b, Pos(2, 2), Pos(2, 3)), None);
    assert_eq!(Cigar::classify_step(a, b, Pos(-1, 0), Pos(0, 0)), None);
    assert_eq!(Cigar::classify_step(a, b, Pos(0, -1), Pos(0, 0)), None);
    assert_eq!(Cigar::classify_step(a, b, Pos(0, 0), Pos(i32::MIN, 0)), None);
    assert_eq!(Cigar::classify_step(a, b, Pos(i32::MAX, i32::MAX), Pos(i32::MIN, i32::MIN)), None);
}

#[test]
fn from_path_classifies_by_the_symbols() {
    let a = b"GATTACA";
    let b = b"GCTACAA";
    let path: Vec<Pos> = vec![
        Pos(0, 0),
        Pos(1, 1),
        Pos(2, 2),
        Pos(3, 3),
        Pos(4, 3),
        Pos(5, 4),
        Pos(6, 5),
        Pos(7, 6),
        Pos(7, 7),
    ];
    let c = Cigar::from_path(a, b, &path).unwrap();
    assert_eq!(
        c,
        cigar(&[(Match, 1), (SUBST, 1), (Match, 1), (Del, 1), (Match, 3), (Ins, 1)])
    );
    assert_eq!(c.to_path(Pos::start()), Ok(path));
}

#[test]
fn from_path_of_one_cell_is_empty() {
    assert_eq!(Cigar::from_path(b"A", b"C", &[Pos(0, 0)]), Ok(Cigar::new()));
    assert_eq!(Cigar::from_path(b"A", b"C", &[Pos(1, 1)]), Ok(Cigar::new()));
}

#[test]
fn from_path_rejects_what_is_no_path() {
    assert_eq!(Cigar::from_path(b"A", b"C", &[]), Err(Error::EmptyPath));
    assert_eq!(
        Cigar::from_path(b"AA", b"CC", &[Pos(0, 0), Pos(1, 1), Pos(1, 1), Pos(2, 2)]),
        Err(Error::IllegalStep { index: 1 })
    );
    assert_eq!(
        Cigar::from_path(b"AA", b"CC", &[Pos(0, 0), Pos(2, 2)]),
        Err(Error::IllegalStep { index: 0 })
    );
    assert_eq!(
        Cigar::from_path(b"A", b"C", &[Pos(0, 0), Pos(1, 1), Pos(2, 1)]),
        Err(Error::IllegalStep { index: 1 })
    );
    assert_eq!(Error::EmptyPath.class(), ErrorClass::Construction);
    assert_eq!(Error::IllegalStep { index: 0 }.class(), ErrorClass::Construction);
}

#[test]
fn equality_is_by_runs() {
    assert_eq!(cigar(&[(Match, 2)]), cigar(&[(Match, 2)]));
    assert_ne!(cigar(&[(Match, 2)]), cigar(&[(Match, 3)]));
    assert_ne!(cigar(&[(Match, 2)]), cigar(&[(SUBST, 2)]));
    assert_ne!(cigar(&[(Match, 2)]), cigar(&[(Match, 2), (SUBST, 1)]));
    assert_ne!(cigar(&[(Match, 2)]), cigar(&[(Match, 1), (Match, 1)]));
    assert_eq!(Cigar::new(), cigar(&[]));
}
