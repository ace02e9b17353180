use pa_types::{Error, Pos};
use std::cmp::Ordering;

#[test]
fn start_is_origin() {
    assert_eq!(Pos::start(), Pos(0, 0));
    assert_eq!(Pos::default(), Pos(0, 0));
}

#[test]
fn diag_anti_diag_mirror() {
    let p = Pos(3, 1);
    assert_eq!(p.diag(), 2);
    assert_eq!(p.anti_diag(), 4);
    assert_eq!(p.mirror(), Pos(1, 3));
    assert_eq!(p.mirror().mirror(), p);
    assert_eq!(p.mirror().diag(), -2);
}

#[test]
fn target_is_the_two_lengths() {
    let a = [b'A'; 5];
    let b = [b'C'; 7];
    assert_eq!(Pos::target(&a, &b), Pos(5, 7));
    assert_eq!(Pos::target(&[], &[]), Pos::start());
}

#[test]
fn order_is_reflexive() {
    for p in [Pos(0, 0), Pos(3, 1), Pos(-2, 9), Pos(i32::MAX, i32::MIN)] {
        assert!(p <= p);
        assert!(p >= p);
        assert!(!(p < p));
        assert_eq!(p.partial_cmp(&p), Some(Ordering::Equal));
    }
}

#[test]
fn opposite_deltas_are_incomparable() {
    let p = Pos(3, 1);
    let q = Pos(2, 4);
    assert_eq!(p.partial_cmp(&q), None);
    assert_eq!(q.partial_cmp(&p), None);
    assert!(!(p <= q));
    assert!(!(q <= p));
    assert!(!(p < q));
    assert!(!(p > q));
    assert!(!(p >= q));
    assert_ne!(p, q);
}

#[test]
fn dominance_orders_positions() {
    assert_eq!(Pos(1, 2).partial_cmp(&Pos(1, 3)), Some(Ordering::Less));
    assert_eq!(Pos(1, 2).partial_cmp(&Pos(2, 2)), Some(Ordering::Less));
    assert_eq!(Pos(1, 2).partial_cmp(&Pos(2, 3)), Some(Ordering::Less));
    assert_eq!(Pos(2, 3).partial_cmp(&Pos(1, 2)), Some(Ordering::Greater));
    assert_eq!(Pos(2, 2).partial_cmp(&Pos(1, 2)), Some(Ordering::Greater));
    assert!(Pos(1, 2) < Pos(1, 3));
    assert!(Pos(1, 2) <= Pos(1, 3));
    assert!(Pos(1, 3) > Pos(1, 2));
    assert!(Pos(1, 3) >= Pos(1, 2));
}

#[test]
fn order_is_not_lexicographic() {
    // A lexicographic order would call (1, 9) less than (2, 0).
    assert_eq!(Pos(1, 9).partial_cmp(&Pos(2, 0)), None);
    assert!(!(Pos(1, 9) <= Pos(2, 0)));
}

#[test]
fn from_other_integer_types() {
    assert_eq!(Pos::from(3usize, 1usize), Pos(3, 1));
    assert_eq!(Pos::from(3u64, 1u64), Pos(3, 1));
    assert_eq!(Pos::from(-3i64, 1i64), Pos(-3, 1));
    assert_eq!(Pos::from(7u8, 9u8), Pos(7, 9));
}

#[test]
fn checked_from_rejects_what_does_not_fit() {
    assert_eq!(Pos::checked_from(3usize, 1usize), Ok(Pos(3, 1)));
    assert_eq!(Pos::checked_from(i32::MAX as u64, 0u64), Ok(Pos(i32::MAX, 0)));
    assert_eq!(
        Pos::checked_from(i32::MAX as u64 + 1, 0u64),
        Err(Error::CoordinateOutOfRange)
    );
    assert_eq!(
        Pos::checked_from(0i64, i64::MIN),
        Err(Error::CoordinateOutOfRange)
    );
    assert_eq!(
        Pos::checked_from(u64::MAX, u64::MAX),
        Err(Error::CoordinateOutOfRange)
    );
}

#[test]
fn arithmetic_is_coordinate_wise() {
    assert_eq!(Pos(3, 1) + Pos(1, 1), Pos(4, 2));
    assert_eq!(Pos(3, 1) - Pos(1, 2), Pos(2, -1));
    let mut p = Pos(3, 1);
    p += Pos(0, 1);
    assert_eq!(p, Pos(3, 2));
    p -= Pos(3, 2);
    assert_eq!(p, Pos::start());
}

#[test]
fn steps_and_diagonals() {
    let p = Pos(3, 1);
    assert_eq!((p + Pos(1, 1)).diag(), p.diag());
    assert_eq!((p + Pos(1, 0)).diag(), p.diag() + 1);
    assert_eq!((p + Pos(0, 1)).diag(), p.diag() - 1);
    assert_eq!((p + Pos(1, 0)).anti_diag(), (p + Pos(0, 1)).anti_diag());
}
