//! Edit scripts in run-length form, and their expansion into unit steps.

use crate::error::Error;
use crate::path::{is_path, is_step, steps_legal, Path};
use crate::pos::{Base, Pos, I};
use vstd::prelude::*;

verus! {

/// One of the four primitives of an edit script.
#[derive(Debug, Clone, Copy, PartialEq, Eq, Hash, Structural)]
pub enum CigarOp {
    /// A diagonal step over two equal symbols.
    Match,
    /// A diagonal step over two different symbols: a substitution.
    Sub,
    /// A step down: a symbol of the first sequence is deleted.
    Del,
    /// A step right: a symbol of the second sequence is inserted.
    Ins,
}

impl CigarOp {
    /// The step that the operation takes in the alignment matrix.
    pub open spec fn spec_delta(self) -> Pos {
        match self {
            CigarOp::Match | CigarOp::Sub => Pos(1, 1),
            CigarOp::Del => Pos(1, 0),
            CigarOp::Ins => Pos(0, 1),
        }
    }

    /// Deletions and insertions are the gap operations.
    pub open spec fn spec_is_gap(self) -> bool {
        self == CigarOp::Del || self == CigarOp::Ins
    }

    /// The step that the operation takes in the alignment matrix.
    pub fn delta(&self) -> (d: Pos)
        ensures
            d == self.spec_delta(),
    {
        match self {
            CigarOp::Match | CigarOp::Sub => Pos(1, 1),
            CigarOp::Del => Pos(1, 0),
            CigarOp::Ins => Pos(0, 1),
        }
    }

    /// Whether the operation is a deletion or an insertion.
    pub fn is_gap(&self) -> (g: bool)
        ensures
            g == self.spec_is_gap(),
    {
        match self {
            CigarOp::Del | CigarOp::Ins => true,
            _ => false,
        }
    }
}

/// A run: `cnt` repetitions of one operation.
#[derive(Debug, Clone, Copy, PartialEq, Eq, Hash, Structural)]
pub struct CigarElem {
    pub op: CigarOp,
    pub cnt: usize,
}

/// An edit script as a sequence of runs.
///
/// The type accepts any sequence of runs. A script is well formed when
/// every run has a positive length, and canonical when, in addition, no
/// two neighbouring runs share their operation.
#[derive(Debug, Clone, Hash)]
pub struct Cigar {
    pub ops: Vec<CigarElem>,
}

impl PartialEq for Cigar {
    /// Two scripts are equal when they hold the same runs. Two scripts
    /// with the same unit steps are equal only if they split them into
    /// runs in the same way.
    fn eq(&self, other: &Self) -> (r: bool) {
        if self.ops.len() != other.ops.len() {
            return false;
        }
        let mut k: usize = 0;
        while k < self.ops.len()
            invariant
                k <= self.ops.len(),
                self.ops.len() == other.ops.len(),
                forall|t: int| 0 <= t < k ==> self@[t] == other@[t],
            decreases self.ops.len() - k,
        {
            if !(self.ops[k].op == other.ops[k].op && self.ops[k].cnt == other.ops[k].cnt) {
                return false;
            }
            k += 1;
        }
        assert(self@ =~= other@);
        true
    }
}

impl vstd::std_specs::cmp::PartialEqSpecImpl for Cigar {
    open spec fn obeys_eq_spec() -> bool {
        true
    }

    open spec fn eq_spec(&self, other: &Cigar) -> bool {
        self@ == other@
    }
}

impl Eq for Cigar {}

impl View for Cigar {
    type V = Seq<CigarElem>;

    open spec fn view(&self) -> Seq<CigarElem> {
        self.ops@
    }
}

/// `n` repetitions of `op`.
pub open spec fn repeat(op: CigarOp, n: nat) -> Seq<CigarOp> {
    Seq::new(n, |i: int| op)
}

/// The unit steps that a sequence of runs stands for.
pub open spec fn expand(runs: Seq<CigarElem>) -> Seq<CigarOp>
    decreases runs.len(),
{
    if runs.len() == 0 {
        Seq::empty()
    } else {
        expand(runs.drop_last()) + repeat(runs.last().op, runs.last().cnt as nat)
    }
}

/// Every run has a positive length.
pub open spec fn runs_positive(runs: Seq<CigarElem>) -> bool {
    forall|k: int| 0 <= k < runs.len() ==> (#[trigger] runs[k]).cnt > 0
}

/// No two neighbouring runs share their operation.
pub open spec fn runs_alternate(runs: Seq<CigarElem>) -> bool {
    forall|i: int, j: int|
        0 <= i && j == i + 1 && j < runs.len() ==> (#[trigger] runs[i]).op != (
        #[trigger] runs[j]).op
}

/// The canonical form: positive runs, each of them maximal.
pub open spec fn is_canonical(runs: Seq<CigarElem>) -> bool {
    runs_positive(runs) && runs_alternate(runs)
}

/// `k` is the index of the first run of length zero.
pub open spec fn is_first_zero_run(runs: Seq<CigarElem>, k: int) -> bool {
    &&& 0 <= k < runs.len()
    &&& runs[k].cnt == 0
    &&& forall|t: int| 0 <= t < k ==> (#[trigger] runs[t]).cnt > 0
}

/// The runs after one more unit step `op`: the last run grows where it has
/// the same operation and room to grow, and a new run of length one starts
/// otherwise.
pub open spec fn push_op(runs: Seq<CigarElem>, op: CigarOp) -> Seq<CigarElem> {
    if runs.len() > 0 && runs.last().op == op && runs.last().cnt < usize::MAX {
        runs.update(runs.len() - 1, CigarElem { op, cnt: (runs.last().cnt + 1) as usize })
    } else {
        runs.push(CigarElem { op, cnt: 1 })
    }
}

/// The canonical script of the unit steps `ops`: the steps taken one
/// after the other, each merged into the run before it where it repeats
/// that run's operation.
pub open spec fn encode(ops: Seq<CigarOp>) -> Seq<CigarElem>
    decreases ops.len(),
{
    if ops.len() == 0 {
        Seq::empty()
    } else {
        push_op(encode(ops.drop_last()), ops.last())
    }
}

/// Expansion goes run by run.
pub proof fn lemma_expand_push(runs: Seq<CigarElem>, e: CigarElem)
    ensures
        expand(runs.push(e)) == expand(runs) + repeat(e.op, e.cnt as nat),
{
    assert(runs.push(e).drop_last() == runs);
}

/// No run is longer than the whole expansion.
pub proof fn lemma_run_fits_in_expansion(runs: Seq<CigarElem>, k: int)
    requires
        0 <= k < runs.len(),
    ensures
        runs[k].cnt <= expand(runs).len(),
    decreases runs.len(),
{
    if k < runs.len() - 1 {
        lemma_run_fits_in_expansion(runs.drop_last(), k);
    }
}

/// One more unit step adds that step to the expansion, and keeps a
/// canonical script canonical as long as the last run has room to grow.
pub proof fn lemma_push_op(runs: Seq<CigarElem>, op: CigarOp)
    ensures
        expand(push_op(runs, op)) == expand(runs).push(op),
        runs_positive(runs) ==> runs_positive(push_op(runs, op)),
        is_canonical(runs) && expand(runs).len() < usize::MAX ==> is_canonical(push_op(runs, op)),
{
    let next = push_op(runs, op);
    if runs.len() > 0 && runs.last().op == op && runs.last().cnt < usize::MAX {
        assert(next.drop_last() == runs.drop_last());
        assert(repeat(op, (runs.last().cnt + 1) as nat) == repeat(op, runs.last().cnt as nat).push(
            op,
        ));
    } else {
        lemma_expand_push(runs, CigarElem { op, cnt: 1 });
        assert(repeat(op, 1) == seq![op]);
        if runs.len() > 0 && runs.last().op == op {
            lemma_run_fits_in_expansion(runs, runs.len() - 1);
        }
    }
}

/// The last unit step of a well-formed script is the operation of its last
/// run, and what comes before that run is the expansion of the runs
/// before it.
pub proof fn lemma_expand_last_run(runs: Seq<CigarElem>)
    requires
        runs.len() > 0,
    ensures
        expand(runs).len() == expand(runs.drop_last()).len() + runs.last().cnt,
        expand(runs).take(expand(runs).len() - runs.last().cnt) == expand(runs.drop_last()),
        forall|t: int|
            expand(runs).len() - runs.last().cnt <= t < expand(runs).len() ==> expand(runs)[t]
                == runs.last().op,
{
}

/// A well-formed script that expands to nothing has no runs.
pub proof fn lemma_expand_empty(runs: Seq<CigarElem>)
    requires
        runs_positive(runs),
        expand(runs).len() == 0,
    ensures
        runs.len() == 0,
{
    if runs.len() > 0 {
        lemma_expand_last_run(runs);
        assert(runs[runs.len() - 1].cnt > 0);
    }
}

/// A canonical script without its last run is canonical.
pub proof fn lemma_canonical_drop_last(c: Seq<CigarElem>)
    requires
        is_canonical(c),
        c.len() > 0,
    ensures
        is_canonical(c.drop_last()),
{
    let p = c.drop_last();
    assert forall|k: int| 0 <= k < p.len() implies (#[trigger] p[k]).cnt > 0 by {
        assert(p[k] == c[k]);
    }
    assert forall|i: int, j: int| 0 <= i && j == i + 1 && j < p.len() implies (#[trigger] p[i]).op
        != (#[trigger] p[j]).op by {
        assert(p[i] == c[i]);
        assert(p[j] == c[j]);
    }
}

/// Two well-formed scripts with the same unit steps end in the same
/// operation.
proof fn lemma_same_last_op(c1: Seq<CigarElem>, c2: Seq<CigarElem>)
    requires
        runs_positive(c1),
        runs_positive(c2),
        c1.len() > 0,
        c2.len() > 0,
        expand(c1) == expand(c2),
    ensures
        c1.last().op == c2.last().op,
{
    let full = expand(c1);
    lemma_expand_last_run(c1);
    lemma_expand_last_run(c2);
    assert(c1[c1.len() - 1].cnt > 0);
    assert(c2[c2.len() - 1].cnt > 0);
    assert(full[full.len() - 1] == c1.last().op);
    assert(full[full.len() - 1] == c2.last().op);
}

/// Two scripts with the same unit steps and last runs of the same length
/// have the same unit steps before those runs.
proof fn lemma_same_steps_before_last_run(c1: Seq<CigarElem>, c2: Seq<CigarElem>)
    requires
        c1.len() > 0,
        c2.len() > 0,
        expand(c1) == expand(c2),
        c1.last().cnt == c2.last().cnt,
    ensures
        expand(c1.drop_last()) == expand(c2.drop_last()),
{
    lemma_expand_last_run(c1);
    lemma_expand_last_run(c2);
}

/// The canonical form is unique: two canonical scripts with the same
/// unit steps are the same script.
pub proof fn lemma_canonical_unique(c1: Seq<CigarElem>, c2: Seq<CigarElem>)
    requires
        is_canonical(c1),
        is_canonical(c2),
        expand(c1) == expand(c2),
    ensures
        c1 == c2,
    decreases c1.len(),
{
    if c1.len() == 0 {
        lemma_expand_empty(c2);
    } else if c2.len() == 0 {
        lemma_expand_empty(c1);
    } else {
        lemma_same_last_op(c1, c2);
        lemma_last_run_not_shorter(c1, c2);
        lemma_last_run_not_shorter(c2, c1);
        lemma_same_steps_before_last_run(c1, c2);
        lemma_canonical_drop_last(c1);
        lemma_canonical_drop_last(c2);
        lemma_canonical_unique(c1.drop_last(), c2.drop_last());
        assert(c1 == c1.drop_last().push(c1.last()));
        assert(c2 == c2.drop_last().push(c2.last()));
    }
}

/// Of two canonical scripts with the same unit steps and the same last
/// operation, the first does not end in a shorter run than the second:
/// the run before it would repeat its operation.
proof fn lemma_last_run_not_shorter(c1: Seq<CigarElem>, c2: Seq<CigarElem>)
    requires
        is_canonical(c1),
        is_canonical(c2),
        expand(c1) == expand(c2),
        c1.len() > 0,
        c2.len() > 0,
        c1.last().op == c2.last().op,
    ensures
        c1.last().cnt >= c2.last().cnt,
{
    if c1.last().cnt < c2.last().cnt {
        let before = c1.drop_last();
        let full = expand(c1);
        lemma_expand_last_run(c1);
        lemma_expand_last_run(c2);
        // The step just before the last run of `c1` lies in the last run of `c2`.
        let t = full.len() - c1.last().cnt - 1;
        assert(0 <= t);
        assert(full[t] == c2.last().op);
        assert(expand(before).len() == t + 1);
        assert(expand(before)[t] == full.take(t + 1)[t]);
        assert(before.len() > 0);
        lemma_expand_last_run(before);
        assert(before[before.len() - 1].cnt > 0) by {
            assert(before[before.len() - 1] == c1[before.len() - 1]);
        }
        assert(expand(before)[t] == before.last().op);
        assert(c1[c1.len() - 2].op != c1[c1.len() - 1].op);
    }
}

/// Encoding gives a canonical script, and decoding that script gives the
/// unit steps back.
pub proof fn lemma_decode_after_encode(ops: Seq<CigarOp>)
    requires
        ops.len() <= usize::MAX,
    ensures
        is_canonical(encode(ops)),
        expand(encode(ops)) == ops,
    decreases ops.len(),
{
    if ops.len() > 0 {
        lemma_decode_after_encode(ops.drop_last());
        lemma_push_op(encode(ops.drop_last()), ops.last());
        assert(ops.drop_last().push(ops.last()) == ops);
    }
}

/// Encoding the unit steps of a canonical script gives the script back.
pub proof fn lemma_encode_after_decode(c: Seq<CigarElem>)
    requires
        is_canonical(c),
        expand(c).len() <= usize::MAX,
    ensures
        encode(expand(c)) == c,
{
    lemma_decode_after_encode(expand(c));
    lemma_canonical_unique(encode(expand(c)), c);
}

/// Merging two neighbouring runs of one operation keeps the unit steps:
/// a script that is not canonical has the same meaning as its canonical
/// form, but is not equal to it.
pub proof fn lemma_split_run_same_steps(runs: Seq<CigarElem>, op: CigarOp, m: usize, n: usize)
    requires
        m + n <= usize::MAX,
    ensures
        expand(runs.push(CigarElem { op, cnt: m }).push(CigarElem { op, cnt: n })) == expand(
            runs.push(CigarElem { op, cnt: (m + n) as usize }),
        ),
        runs.push(CigarElem { op, cnt: m }).push(CigarElem { op, cnt: n }) != runs.push(
            CigarElem { op, cnt: (m + n) as usize },
        ),
{
    let a = CigarElem { op, cnt: m };
    let b = CigarElem { op, cnt: n };
    let ab = CigarElem { op, cnt: (m + n) as usize };
    lemma_expand_push(runs, a);
    lemma_expand_push(runs.push(a), b);
    lemma_expand_push(runs, ab);
    assert(repeat(op, m as nat) + repeat(op, n as nat) == repeat(op, (m + n) as nat));
    assert(runs.push(a).push(b).len() != runs.push(ab).len());
}

/// How often `op` occurs among the unit steps `ops`.
pub open spec fn count_op(ops: Seq<CigarOp>, op: CigarOp) -> nat
    decreases ops.len(),
{
    if ops.len() == 0 {
        0
    } else {
        count_op(ops.drop_last(), op) + if ops.last() == op {
            1nat
        } else {
            0nat
        }
    }
}

/// The number of rows that the unit steps advance by: every step but an
/// insertion moves one row down.
pub open spec fn rows(ops: Seq<CigarOp>) -> nat {
    count_op(ops, CigarOp::Match) + count_op(ops, CigarOp::Sub) + count_op(ops, CigarOp::Del)
}

/// The number of columns that the unit steps advance by: every step but a
/// deletion moves one column right.
pub open spec fn cols(ops: Seq<CigarOp>) -> nat {
    count_op(ops, CigarOp::Match) + count_op(ops, CigarOp::Sub) + count_op(ops, CigarOp::Ins)
}

/// The cell that the unit steps lead to from `start` has coordinates that
/// fit in a position.
pub open spec fn path_fits(start: Pos, ops: Seq<CigarOp>) -> bool {
    start.0 + rows(ops) <= I::MAX && start.1 + cols(ops) <= I::MAX
}

/// `path` starts at `start` and takes the unit steps `ops`, one after the
/// other.
pub open spec fn traces(path: Seq<Pos>, start: Pos, ops: Seq<CigarOp>) -> bool {
    &&& path.len() == ops.len() + 1
    &&& path[0] == start
    &&& forall|k: int|
        0 <= k < ops.len() ==> {
            &&& path[k + 1].0 == path[k].0 + (#[trigger] ops[k]).spec_delta().0
            &&& path[k + 1].1 == path[k].1 + ops[k].spec_delta().1
        }
}

/// The operation of the step from `p` to `q` in the alignment matrix of
/// `a` and `b`, if it is a step and stays in the matrix: a diagonal step is
/// a match where the two symbols that it passes are equal and a
/// substitution where they differ, a step down is a deletion, a step right
/// an insertion.
pub open spec fn classify(a: Seq<Base>, b: Seq<Base>, p: Pos, q: Pos) -> Option<CigarOp> {
    if !(p.in_matrix() && q.0 <= a.len() && q.1 <= b.len()) {
        None
    } else if q.0 == p.0 + 1 && q.1 == p.1 + 1 {
        Some(
            if a[p.0 as int] == b[p.1 as int] {
                CigarOp::Match
            } else {
                CigarOp::Sub
            },
        )
    } else if q.0 == p.0 + 1 && q.1 == p.1 {
        Some(CigarOp::Del)
    } else if q.0 == p.0 && q.1 == p.1 + 1 {
        Some(CigarOp::Ins)
    } else {
        None
    }
}

/// The operation of the step that leaves the `k`-th cell of `path`.
pub open spec fn step_op(a: Seq<Base>, b: Seq<Base>, path: Seq<Pos>, k: int) -> Option<CigarOp> {
    classify(a, b, path[k], path[k + 1])
}

/// Every step of `path` has an operation.
pub open spec fn all_steps_classified(a: Seq<Base>, b: Seq<Base>, path: Seq<Pos>) -> bool {
    forall|k: int| 0 <= k < path.len() - 1 ==> (#[trigger] step_op(a, b, path, k)) is Some
}

/// `k` is the index of the first cell of `path` that is left by something
/// other than a step within the matrix.
pub open spec fn is_first_illegal_step(a: Seq<Base>, b: Seq<Base>, path: Seq<Pos>, k: int) -> bool {
    &&& 0 <= k < path.len() - 1
    &&& step_op(a, b, path, k) is None
    &&& forall|t: int| 0 <= t < k ==> (#[trigger] step_op(a, b, path, t)) is Some
}

/// The operations of the steps of `path`, in order.
pub open spec fn path_ops(a: Seq<Base>, b: Seq<Base>, path: Seq<Pos>) -> Seq<CigarOp> {
    Seq::new((path.len() - 1) as nat, |k: int| step_op(a, b, path, k).unwrap())
}

/// Counting goes step by step.
pub proof fn lemma_count_push(ops: Seq<CigarOp>, x: CigarOp, op: CigarOp)
    ensures
        count_op(ops.push(x), op) == count_op(ops, op) + if x == op {
            1nat
        } else {
            0nat
        },
{
    assert(ops.push(x).drop_last() == ops);
}

/// A prefix holds no more occurrences than the whole.
pub proof fn lemma_count_prefix(ops: Seq<CigarOp>, k: int, op: CigarOp)
    requires
        0 <= k <= ops.len(),
    ensures
        count_op(ops.take(k), op) <= count_op(ops, op),
    decreases ops.len(),
{
    if k == ops.len() {
        assert(ops.take(k) == ops);
    } else {
        assert(ops.take(k) == ops.drop_last().take(k));
        lemma_count_prefix(ops.drop_last(), k, op);
    }
}

/// A run of one operation holds that operation as often as it is long,
/// and no other.
pub proof fn lemma_count_repeat(x: CigarOp, n: nat, op: CigarOp)
    ensures
        count_op(repeat(x, n), op) == if x == op {
            n
        } else {
            0
        },
    decreases n,
{
    if n > 0 {
        assert(repeat(x, n).drop_last() == repeat(x, (n - 1) as nat));
        lemma_count_repeat(x, (n - 1) as nat, op);
    }
}

/// Occurrences add up over concatenation.
pub proof fn lemma_count_concat(s: Seq<CigarOp>, t: Seq<CigarOp>, op: CigarOp)
    ensures
        count_op(s + t, op) == count_op(s, op) + count_op(t, op),
    decreases t.len(),
{
    if t.len() == 0 {
        assert(s + t == s);
    } else {
        assert((s + t).drop_last() == s + t.drop_last());
        lemma_count_concat(s, t.drop_last(), op);
    }
}

/// One more run adds its length to the occurrences of its operation.
pub proof fn lemma_count_expand_push(runs: Seq<CigarElem>, e: CigarElem, op: CigarOp)
    ensures
        count_op(expand(runs.push(e)), op) == count_op(expand(runs), op) + if e.op == op {
            e.cnt as nat
        } else {
            0
        },
{
    lemma_expand_push(runs, e);
    lemma_count_concat(expand(runs), repeat(e.op, e.cnt as nat), op);
    lemma_count_repeat(e.op, e.cnt as nat, op);
}

/// The unit steps of the first `k` runs are the first unit steps of the
/// whole script.
pub proof fn lemma_expand_take_is_prefix(runs: Seq<CigarElem>, k: int)
    requires
        0 <= k <= runs.len(),
    ensures
        expand(runs.take(k)).len() <= expand(runs).len(),
        expand(runs).take(expand(runs.take(k)).len() as int) == expand(runs.take(k)),
    decreases runs.len(),
{
    if k == runs.len() {
        assert(runs.take(k) == runs);
    } else {
        assert(runs.take(k) == runs.drop_last().take(k));
        lemma_expand_take_is_prefix(runs.drop_last(), k);
        let n = expand(runs.take(k)).len() as int;
        assert(expand(runs).take(n) == expand(runs.drop_last()).take(n));
    }
}

/// The cells that trace unit steps follow each other by steps of the
/// alignment matrix, and there is only one way to trace given steps from a
/// given start.
pub proof fn lemma_traces(path: Seq<Pos>, other: Seq<Pos>, start: Pos, ops: Seq<CigarOp>)
    requires
        traces(path, start, ops),
        traces(other, start, ops),
    ensures
        steps_legal(path),
        path == other,
{
    assert forall|i: int, j: int| 0 <= i && j == i + 1 && j < path.len() implies is_step(
        #[trigger] path[i],
        #[trigger] path[j],
    ) by {
        let op = ops[i];
    }
    assert forall|k: int| 0 <= k < path.len() implies path[k] == other[k] by {
        lemma_traces_agree(path, other, start, ops, k);
    }
}

proof fn lemma_traces_agree(
    path: Seq<Pos>,
    other: Seq<Pos>,
    start: Pos,
    ops: Seq<CigarOp>,
    k: int,
)
    requires
        traces(path, start, ops),
        traces(other, start, ops),
        0 <= k < path.len(),
    ensures
        path[k] == other[k],
    decreases k,
{
    if k > 0 {
        lemma_traces_agree(path, other, start, ops, k - 1);
        let op = ops[k - 1];
    }
}

/// A path whose steps all have an operation traces those operations from
/// its first cell: decoding what was encoded from a path gives the path
/// back.
pub proof fn lemma_path_traces_its_ops(a: Seq<Base>, b: Seq<Base>, path: Seq<Pos>)
    requires
        path.len() > 0,
        all_steps_classified(a, b, path),
    ensures
        traces(path, path[0], path_ops(a, b, path)),
        path_fits(path[0], path_ops(a, b, path)),
{
    let ops = path_ops(a, b, path);
    assert forall|k: int| 0 <= k < ops.len() implies {
        &&& path[k + 1].0 == path[k].0 + (#[trigger] ops[k]).spec_delta().0
        &&& path[k + 1].1 == path[k].1 + ops[k].spec_delta().1
    } by {
        assert(step_op(a, b, path, k) is Some);
    }
    lemma_traces_end(path, path[0], ops);
}

/// The last cell of a trace lies `rows` below and `cols` right of the
/// start.
pub proof fn lemma_traces_end(path: Seq<Pos>, start: Pos, ops: Seq<CigarOp>)
    requires
        traces(path, start, ops),
    ensures
        path.last().0 == start.0 + rows(ops),
        path.last().1 == start.1 + cols(ops),
    decreases ops.len(),
{
    if ops.len() > 0 {
        let n = ops.len() - 1;
        let shorter = path.drop_last();
        assert(traces(shorter, start, ops.drop_last())) by {
            assert forall|k: int| 0 <= k < n implies {
                &&& shorter[k + 1].0 == shorter[k].0 + (#[trigger] ops.drop_last()[k]).spec_delta().0
                &&& shorter[k + 1].1 == shorter[k].1 + ops.drop_last()[k].spec_delta().1
            } by {
                let op = ops[k];
            }
        }
        lemma_traces_end(shorter, start, ops.drop_last());
        let op = ops[n];
        assert(shorter.last() == path[n]);
    }
}

/// The cells that trace unit steps from `(0, 0)` are a path to the cell
/// that lies as many rows down and columns right as the steps advance.
pub proof fn lemma_traced_path_is_path(path: Seq<Pos>, ops: Seq<CigarOp>)
    requires
        traces(path, Pos(0, 0), ops),
    ensures
        is_path(path, path.last()),
        path.last().0 == rows(ops),
        path.last().1 == cols(ops),
{
    lemma_traces(path, path, Pos(0, 0), ops);
    lemma_traces_end(path, Pos(0, 0), ops);
}

impl Cigar {
    /// The empty script.
    pub fn new() -> (c: Cigar)
        ensures
            c@ == Seq::<CigarElem>::empty(),
    {
        Cigar { ops: Vec::new() }
    }

    /// Appends one unit step, merging it into the last run where it has
    /// the same operation.
    pub fn push(&mut self, op: CigarOp)
        ensures
            final(self)@ == push_op(old(self)@, op),
            expand(final(self)@) == expand(old(self)@).push(op),
    {
        proof {
            lemma_push_op(self@, op);
        }
        let n = self.ops.len();
        if n > 0 {
            let last = self.ops[n - 1];
            if last.op == op && last.cnt < usize::MAX {
                self.ops.set(n - 1, CigarElem { op, cnt: last.cnt + 1 });
                return ;
            }
        }
        self.ops.push(CigarElem { op, cnt: 1 });
    }

    /// Checks that every run has a positive length, and reports the first
    /// one that has not.
    pub fn validate(&self) -> (r: Result<(), Error>)
        ensures
            runs_positive(self@) ==> r is Ok,
            !runs_positive(self@) ==> (r matches Err(Error::ZeroLengthRun { index })
                && is_first_zero_run(self@, index as int)),
    {
        let mut k: usize = 0;
        while k < self.ops.len()
            invariant
                k <= self.ops.len(),
                forall|t: int| 0 <= t < k ==> (#[trigger] self@[t]).cnt > 0,
            decreases self.ops.len() - k,
        {
            if self.ops[k].cnt == 0 {
                return Err(Error::ZeroLengthRun { index: k });
            }
            k += 1;
        }
        Ok(())
    }

    /// Whether the script is in canonical form: every run is positive and
    /// differs in its operation from the run before it.
    pub fn is_canonical(&self) -> (b: bool)
        ensures
            b == is_canonical(self@),
    {
        let mut k: usize = 0;
        while k < self.ops.len()
            invariant
                k <= self.ops.len(),
                forall|t: int| 0 <= t < k ==> (#[trigger] self@[t]).cnt > 0,
                forall|i: int, j: int|
                    0 <= i && j == i + 1 && j < k ==> (#[trigger] self@[i]).op != (
                    #[trigger] self@[j]).op,
            decreases self.ops.len() - k,
        {
            if self.ops[k].cnt == 0 {
                assert(!runs_positive(self@)) by {
                    assert(self@[k as int].cnt == 0);
                }
                return false;
            }
            if k > 0 && self.ops[k - 1].op == self.ops[k].op {
                assert(!runs_alternate(self@)) by {
                    assert(self@[k - 1].op == self@[k as int].op);
                }
                return false;
            }
            k += 1;
        }
        true
    }

    /// Decodes the script into its unit steps. A run of length zero is
    /// rejected, not skipped.
    pub fn to_ops(&self) -> (r: Result<Vec<CigarOp>, Error>)
        ensures
            runs_positive(self@) ==> (r matches Ok(ops) && ops@ == expand(self@)),
            !runs_positive(self@) ==> (r matches Err(Error::ZeroLengthRun { index })
                && is_first_zero_run(self@, index as int)),
    {
        match self.validate() {
            Err(e) => {
                return Err(e);
            },
            Ok(()) => {},
        }
        let mut out: Vec<CigarOp> = Vec::new();
        let mut k: usize = 0;
        while k < self.ops.len()
            invariant
                k <= self.ops.len(),
                out@ == expand(self@.take(k as int)),
            decreases self.ops.len() - k,
        {
            let e = self.ops[k];
            let mut j: usize = 0;
            while j < e.cnt
                invariant
                    j <= e.cnt,
                    out@ == expand(self@.take(k as int)) + repeat(e.op, j as nat),
                decreases e.cnt - j,
            {
                out.push(e.op);
                j += 1;
                assert(repeat(e.op, (j - 1) as nat).push(e.op) == repeat(e.op, j as nat));
            }
            proof {
                lemma_expand_push(self@.take(k as int), e);
                assert(self@.take(k as int).push(e) == self@.take(k + 1));
            }
            k += 1;
        }
        assert(self@.take(k as int) == self@);
        Ok(out)
    }

    /// The cells that the unit steps `ops` visit from `start`, `start`
    /// itself first: a diagonal step for a match or a substitution, a step
    /// down for a deletion, a step right for an insertion.
    pub fn path_from_ops(start: Pos, ops: &[CigarOp]) -> (r: Result<Path, Error>)
        ensures
            path_fits(start, ops@) ==> (r matches Ok(path) && traces(path@, start, ops@)),
            !path_fits(start, ops@) ==> r == Err::<Path, Error>(Error::PathOutOfRange),
    {
        let mut path: Vec<Pos> = Vec::new();
        path.push(start);
        let mut cur = start;
        let mut i: usize = 0;
        while i < ops.len()
            invariant
                i <= ops.len(),
                traces(path@, start, ops@.take(i as int)),
                cur == path@.last(),
                cur.0 == start.0 + rows(ops@.take(i as int)),
                cur.1 == start.1 + cols(ops@.take(i as int)),
            decreases ops.len() - i,
        {
            let op = ops[i];
            let d = op.delta();
            proof {
                let before = ops@.take(i as int);
                let after = ops@.take(i + 1);
                assert(before.push(op) == after);
                lemma_count_push(before, op, CigarOp::Match);
                lemma_count_push(before, op, CigarOp::Sub);
                lemma_count_push(before, op, CigarOp::Del);
                lemma_count_push(before, op, CigarOp::Ins);
                lemma_count_prefix(ops@, i + 1, CigarOp::Match);
                lemma_count_prefix(ops@, i + 1, CigarOp::Sub);
                lemma_count_prefix(ops@, i + 1, CigarOp::Del);
                lemma_count_prefix(ops@, i + 1, CigarOp::Ins);
            }
            if cur.0 > I::MAX - d.0 || cur.1 > I::MAX - d.1 {
                return Err(Error::PathOutOfRange);
            }
            cur = Pos(cur.0 + d.0, cur.1 + d.1);
            let ghost old_path = path@;
            path.push(cur);
            proof {
                let after = ops@.take(i + 1);
                assert forall|k: int| 0 <= k < after.len() implies {
                    &&& path@[k + 1].0 == path@[k].0 + (#[trigger] after[k]).spec_delta().0
                    &&& path@[k + 1].1 == path@[k].1 + after[k].spec_delta().1
                } by {
                    if k < i {
                        let op_k = ops@.take(i as int)[k];
                        assert(path@[k] == old_path[k]);
                        assert(path@[k + 1] == old_path[k + 1]);
                    }
                }
            }
            i += 1;
        }
        assert(ops@.take(i as int) == ops@);
        Ok(path)
    }

    /// Decodes the script into the cells that it visits from `start`.
    pub fn to_path(&self, start: Pos) -> (r: Result<Path, Error>)
        ensures
            !runs_positive(self@) ==> (r matches Err(Error::ZeroLengthRun { index })
                && is_first_zero_run(self@, index as int)),
            runs_positive(self@) && path_fits(start, expand(self@)) ==> (r matches Ok(path)
                && traces(path@, start, expand(self@))),
            runs_positive(self@) && !path_fits(start, expand(self@)) ==> r == Err::<Path, Error>(
                Error::PathOutOfRange,
            ),
    {
        match self.to_ops() {
            Err(e) => Err(e),
            Ok(ops) => Cigar::path_from_ops(start, ops.as_slice()),
        }
    }

    /// The operation of the step from `p` to `q` in the alignment matrix of
    /// `a` and `b`, or `None` where that is no step within the matrix.
    pub fn classify_step(a: &[Base], b: &[Base], p: Pos, q: Pos) -> (r: Option<CigarOp>)
        ensures
            r == classify(a@, b@, p, q),
    {
        if p.0 < 0 || p.1 < 0 {
            return None;
        }
        let (pi, pj) = (p.0 as usize, p.1 as usize);
        if q.0 < p.0 || q.1 < p.1 {
            return None;
        }
        let (qi, qj) = (q.0 as usize, q.1 as usize);
        if qi > a.len() || qj > b.len() {
            return None;
        }
        let di = qi - pi;
        let dj = qj - pj;
        if di == 1 && dj == 1 {
            if a[pi] == b[pj] {
                Some(CigarOp::Match)
            } else {
                Some(CigarOp::Sub)
            }
        } else if di == 1 && dj == 0 {
            Some(CigarOp::Del)
        } else if di == 0 && dj == 1 {
            Some(CigarOp::Ins)
        } else {
            None
        }
    }

    /// Encodes a path through the alignment matrix of `a` and `b` as a
    /// canonical script. The path has to hold at least its first cell, and
    /// each cell has to follow the one before it by a step within the
    /// matrix.
    pub fn from_path(a: &[Base], b: &[Base], path: &[Pos]) -> (r: Result<Cigar, Error>)
        ensures
            path@.len() == 0 ==> r == Err::<Cigar, Error>(Error::EmptyPath),
            path@.len() > 0 && all_steps_classified(a@, b@, path@) ==> (r matches Ok(c) && c@
                == encode(path_ops(a@, b@, path@)) && is_canonical(c@) && expand(c@) == path_ops(
                a@,
                b@,
                path@,
            )),
            path@.len() > 0 && !all_steps_classified(a@, b@, path@) ==> (r matches Err(
                Error::IllegalStep { index },
            ) && is_first_illegal_step(a@, b@, path@, index as int)),
    {
        if path.len() == 0 {
            return Err(Error::EmptyPath);
        }
        let mut c = Cigar::new();
        let mut k: usize = 0;
        while k < path.len() - 1
            invariant
                path@.len() > 0,
                k <= path@.len() - 1,
                is_canonical(c@),
                expand(c@).len() == k,
                forall|t: int| 0 <= t < k ==> (#[trigger] step_op(a@, b@, path@, t)) is Some,
                forall|t: int|
                    0 <= t < k ==> (#[trigger] expand(c@)[t]) == step_op(a@, b@, path@, t).unwrap(),
            decreases path@.len() - k,
        {
            match Cigar::classify_step(a, b, path[k], path[k + 1]) {
                None => {
                    assert(step_op(a@, b@, path@, k as int) is None);
                    return Err(Error::IllegalStep { index: k });
                },
                Some(op) => {
                    proof {
                        lemma_push_op(c@, op);
                    }
                    c.push(op);
                },
            }
            k += 1;
        }
        proof {
            assert(expand(c@) == path_ops(a@, b@, path@));
            lemma_encode_after_decode(c@);
        }
        Ok(c)
    }

    /// The canonical script of a sequence of unit steps: neighbouring
    /// equal steps are merged into one run.
    pub fn from_ops(ops: &[CigarOp]) -> (c: Cigar)
        ensures
            c@ == encode(ops@),
            is_canonical(c@),
            expand(c@) == ops@,
    {
        let mut c = Cigar::new();
        let mut i: usize = 0;
        while i < ops.len()
            invariant
                i <= ops.len(),
                c@ == encode(ops@.take(i as int)),
            decreases ops.len() - i,
        {
            assert(ops@.take(i + 1).drop_last() == ops@.take(i as int));
            c.push(ops[i]);
            i += 1;
        }
        proof {
            assert(ops@.take(i as int) == ops@);
            lemma_decode_after_encode(ops@);
        }
        c
    }
}

} // verus!
