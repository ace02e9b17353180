//! Cost models: what an edit script costs under unit, linear and affine
//! gap costs.

use crate::cigar::{
    count_op, expand, is_first_zero_run, lemma_count_concat, lemma_count_expand_push,
    lemma_count_prefix, lemma_count_repeat, lemma_expand_last_run, lemma_expand_push,
    lemma_expand_take_is_prefix, repeat, runs_positive, Cigar, CigarElem, CigarOp,
};
use crate::error::Error;
use vstd::prelude::*;

verus! {

/// The type of a cost.
pub type Cost = i32;

/// How substitutions and gaps are priced. A match is always free.
#[derive(Debug, Clone, Copy, PartialEq, Eq, Hash, Structural)]
pub enum CostModel {
    /// Edit distance: every substitution, deletion and insertion costs 1.
    Unit,
    /// A substitution costs `sub`, every deleted or inserted symbol
    /// `indel`.
    Linear { sub: Cost, indel: Cost },
    /// A substitution costs `sub`, a gap of length `l` costs
    /// `open + extend * l`.
    ///
    /// A gap is a maximal run of deletions or a maximal run of insertions.
    /// A deletion that follows an insertion directly, or an insertion that
    /// follows a deletion, opens a gap of its own: the two runs are charged
    /// `open` twice.
    Affine { sub: Cost, open: Cost, extend: Cost },
}

/// The `k`-th unit step is the first of a gap.
pub open spec fn opens_gap(ops: Seq<CigarOp>, k: int) -> bool {
    ops[k].spec_is_gap() && (k == 0 || ops[k - 1] != ops[k])
}

/// The number of gaps among the unit steps: of maximal runs of deletions
/// and maximal runs of insertions.
pub open spec fn gap_runs(ops: Seq<CigarOp>) -> nat
    decreases ops.len(),
{
    if ops.len() == 0 {
        0
    } else {
        gap_runs(ops.drop_last()) + if opens_gap(ops, ops.len() - 1) {
            1nat
        } else {
            0nat
        }
    }
}

/// The number of deleted and inserted symbols among the unit steps.
pub open spec fn indels(ops: Seq<CigarOp>) -> nat {
    count_op(ops, CigarOp::Del) + count_op(ops, CigarOp::Ins)
}

/// One more unit step opens a gap exactly when it is a gap step and does
/// not repeat the step before it.
pub proof fn lemma_gap_runs_push(ops: Seq<CigarOp>, x: CigarOp)
    ensures
        gap_runs(ops.push(x)) == gap_runs(ops) + if x.spec_is_gap() && (ops.len() == 0
            || ops.last() != x) {
            1nat
        } else {
            0nat
        },
{
    assert(ops.push(x).drop_last() == ops);
}

/// A whole run of one operation opens at most one gap, however long it is.
pub proof fn lemma_gap_runs_append_run(ops: Seq<CigarOp>, x: CigarOp, n: nat)
    ensures
        gap_runs(ops + repeat(x, n)) == gap_runs(ops) + if n > 0 && x.spec_is_gap() && (ops.len()
            == 0 || ops.last() != x) {
            1nat
        } else {
            0nat
        },
    decreases n,
{
    if n == 0 {
        assert(ops + repeat(x, 0) == ops);
    } else {
        let shorter = ops + repeat(x, (n - 1) as nat);
        assert(ops + repeat(x, n) == shorter.push(x));
        lemma_gap_runs_append_run(ops, x, (n - 1) as nat);
        lemma_gap_runs_push(shorter, x);
        if n == 1 {
            assert(shorter == ops);
        } else {
            assert(shorter.last() == x);
        }
    }
}

/// A prefix holds no more gaps than the whole.
pub proof fn lemma_gap_runs_prefix(ops: Seq<CigarOp>, k: int)
    requires
        0 <= k <= ops.len(),
    ensures
        gap_runs(ops.take(k)) <= gap_runs(ops),
    decreases ops.len(),
{
    if k == ops.len() {
        assert(ops.take(k) == ops);
    } else {
        assert(ops.take(k) == ops.drop_last().take(k));
        lemma_gap_runs_prefix(ops.drop_last(), k);
    }
}

/// What the run `e` adds to the cost of the runs before it; `continues`
/// says that the run before it has the same operation.
pub open spec fn run_cost(m: CostModel, e: CigarElem, continues: bool) -> int {
    match e.op {
        CigarOp::Match => 0,
        CigarOp::Sub => m.spec_sub_cost() * e.cnt,
        CigarOp::Del | CigarOp::Ins => m.spec_extend_cost() * e.cnt + if continues {
            0
        } else {
            m.spec_open_cost() as int
        },
    }
}

/// Under a model with valid parameters costs are not negative, and a
/// prefix of an edit script costs no more than the whole.
pub proof fn lemma_cost_prefix(m: CostModel, ops: Seq<CigarOp>, k: int)
    requires
        m.wf(),
        0 <= k <= ops.len(),
    ensures
        0 <= m.spec_cost(ops.take(k)) <= m.spec_cost(ops),
{
    let part = ops.take(k);
    lemma_cost_by_parameters(m, ops);
    lemma_cost_by_parameters(m, part);
    lemma_count_prefix(ops, k, CigarOp::Sub);
    lemma_count_prefix(ops, k, CigarOp::Del);
    lemma_count_prefix(ops, k, CigarOp::Ins);
    lemma_gap_runs_prefix(ops, k);
    lemma_mul_monotone(m.spec_sub_cost() as int, count_op(part, CigarOp::Sub), count_op(ops, CigarOp::Sub));
    lemma_mul_monotone(m.spec_open_cost() as int, gap_runs(part), gap_runs(ops));
    lemma_mul_monotone(m.spec_extend_cost() as int, indels(part), indels(ops));
}

/// No steps cost nothing.
pub proof fn lemma_cost_of_nothing(m: CostModel)
    ensures
        m.spec_cost(Seq::<CigarOp>::empty()) == 0,
        m.spec_cost(expand(Seq::<CigarElem>::empty())) == 0,
{
    let none = Seq::<CigarOp>::empty();
    assert(expand(Seq::<CigarElem>::empty()) == none);
    lemma_cost_by_parameters(m, none);
    assert(m.spec_sub_cost() * 0 == 0);
    assert(m.spec_open_cost() * 0 == 0);
    assert(m.spec_extend_cost() * 0 == 0);
}

/// A factor that is not negative keeps the order of what it multiplies.
proof fn lemma_mul_monotone(a: int, x: nat, y: nat)
    requires
        0 <= a,
        x <= y,
    ensures
        0 <= a * x <= a * y,
{
    assert(0 <= a * x <= a * y) by (nonlinear_arith)
        requires
            0 <= a,
            0 <= x <= y,
    ;
}

/// One more positive run adds its own cost, which depends on the runs
/// before it only through the operation of the last of them.
pub proof fn lemma_cost_push_run(m: CostModel, runs: Seq<CigarElem>, e: CigarElem)
    requires
        runs_positive(runs),
        e.cnt > 0,
    ensures
        m.spec_cost(expand(runs.push(e))) == m.spec_cost(expand(runs)) + run_cost(
            m,
            e,
            runs.len() > 0 && runs.last().op == e.op,
        ),
{
    let before = expand(runs);
    let after = expand(runs.push(e));
    lemma_cost_by_parameters(m, before);
    lemma_cost_by_parameters(m, after);
    lemma_count_expand_push(runs, e, CigarOp::Sub);
    lemma_count_expand_push(runs, e, CigarOp::Del);
    lemma_count_expand_push(runs, e, CigarOp::Ins);
    lemma_expand_push(runs, e);
    lemma_gap_runs_append_run(before, e.op, e.cnt as nat);
    if runs.len() > 0 {
        lemma_expand_last_run(runs);
        assert(runs[runs.len() - 1].cnt > 0);
        assert(before.last() == runs.last().op);
    }
    let sub = m.spec_sub_cost() as int;
    let open = m.spec_open_cost() as int;
    let extend = m.spec_extend_cost() as int;
    let n = e.cnt as int;
    assert(sub * (count_op(before, CigarOp::Sub) + n) == sub * count_op(before, CigarOp::Sub) + sub
        * n) by (nonlinear_arith);
    assert(extend * (indels(before) + n) == extend * indels(before) + extend * n)
        by (nonlinear_arith);
    assert(open * (gap_runs(before) + 1) == open * gap_runs(before) + open) by (nonlinear_arith);
}

impl CostModel {
    /// What is wrong with the parameters, if anything: the substitution
    /// cost is looked at first, the extension cost last.
    pub open spec fn validation_error(self) -> Option<Error> {
        match self {
            CostModel::Unit => None,
            CostModel::Linear { sub, indel } => if sub <= 0 {
                Some(Error::NonPositiveSub)
            } else if indel <= 0 {
                Some(Error::NonPositiveIndel)
            } else {
                None
            },
            CostModel::Affine { sub, open, extend } => if sub <= 0 {
                Some(Error::NonPositiveSub)
            } else if open < 0 {
                Some(Error::NegativeOpen)
            } else if extend <= 0 {
                Some(Error::NonPositiveExtend)
            } else {
                None
            },
        }
    }

    /// The parameters are costs: substitutions and gap extensions cost
    /// something, and opening a gap does not pay.
    pub open spec fn wf(self) -> bool {
        match self {
            CostModel::Unit => true,
            CostModel::Linear { sub, indel } => sub > 0 && indel > 0,
            CostModel::Affine { sub, open, extend } => sub > 0 && open >= 0 && extend > 0,
        }
    }

    /// The cost of the unit steps `ops`.
    pub open spec fn spec_cost(self, ops: Seq<CigarOp>) -> int {
        match self {
            CostModel::Unit => (count_op(ops, CigarOp::Sub) + indels(ops)) as int,
            CostModel::Linear { sub, indel } => sub * count_op(ops, CigarOp::Sub) + indel * indels(
                ops,
            ),
            CostModel::Affine { sub, open, extend } => sub * count_op(ops, CigarOp::Sub) + open
                * gap_runs(ops) + extend * indels(ops),
        }
    }

    /// The cost of one substitution.
    pub open spec fn spec_sub_cost(self) -> Cost {
        match self {
            CostModel::Unit => 1,
            CostModel::Linear { sub, .. } => sub,
            CostModel::Affine { sub, .. } => sub,
        }
    }

    /// The cost of opening a gap, on top of its length.
    pub open spec fn spec_open_cost(self) -> Cost {
        match self {
            CostModel::Unit => 0,
            CostModel::Linear { .. } => 0,
            CostModel::Affine { open, .. } => open,
        }
    }

    /// The cost of each deleted or inserted symbol.
    pub open spec fn spec_extend_cost(self) -> Cost {
        match self {
            CostModel::Unit => 1,
            CostModel::Linear { indel, .. } => indel,
            CostModel::Affine { extend, .. } => extend,
        }
    }

    /// The cost in terms of the three parameters that every model has.
    pub open spec fn cost_by_parameters(self, ops: Seq<CigarOp>) -> int {
        self.spec_sub_cost() * count_op(ops, CigarOp::Sub) + self.spec_open_cost() * gap_runs(ops)
            + self.spec_extend_cost() * indels(ops)
    }

    /// The unit cost model.
    pub fn unit() -> (m: CostModel)
        ensures
            m == CostModel::Unit,
            m.wf(),
    {
        CostModel::Unit
    }

    /// A linear cost model, or the reason why the parameters are none.
    pub fn linear(sub: Cost, indel: Cost) -> (r: Result<CostModel, Error>)
        ensures
            r == match (CostModel::Linear { sub, indel }).validation_error() {
                None => Ok::<CostModel, Error>(CostModel::Linear { sub, indel }),
                Some(e) => Err::<CostModel, Error>(e),
            },
            r matches Ok(m) ==> m.wf(),
    {
        let m = CostModel::Linear { sub, indel };
        match m.validate() {
            Ok(()) => Ok(m),
            Err(e) => Err(e),
        }
    }

    /// An affine cost model, or the reason why the parameters are none.
    pub fn affine(sub: Cost, open: Cost, extend: Cost) -> (r: Result<CostModel, Error>)
        ensures
            r == match (CostModel::Affine { sub, open, extend }).validation_error() {
                None => Ok::<CostModel, Error>(CostModel::Affine { sub, open, extend }),
                Some(e) => Err::<CostModel, Error>(e),
            },
            r matches Ok(m) ==> m.wf(),
    {
        let m = CostModel::Affine { sub, open, extend };
        match m.validate() {
            Ok(()) => Ok(m),
            Err(e) => Err(e),
        }
    }

    /// Checks the parameters.
    pub fn validate(&self) -> (r: Result<(), Error>)
        ensures
            r is Ok <==> self.wf(),
            r == match self.validation_error() {
                None => Ok::<(), Error>(()),
                Some(e) => Err::<(), Error>(e),
            },
    {
        match *self {
            CostModel::Unit => Ok(()),
            CostModel::Linear { sub, indel } => {
                if sub <= 0 {
                    Err(Error::NonPositiveSub)
                } else if indel <= 0 {
                    Err(Error::NonPositiveIndel)
                } else {
                    Ok(())
                }
            },
            CostModel::Affine { sub, open, extend } => {
                if sub <= 0 {
                    Err(Error::NonPositiveSub)
                } else if open < 0 {
                    Err(Error::NegativeOpen)
                } else if extend <= 0 {
                    Err(Error::NonPositiveExtend)
                } else {
                    Ok(())
                }
            },
        }
    }

    /// The cost of an edit script: the sum of what its substitutions and
    /// its gaps cost. A script with a run of length zero is rejected, and
    /// so is one whose cost does not fit in `Cost`.
    pub fn cost(&self, cigar: &Cigar) -> (r: Result<Cost, Error>)
        requires
            self.wf(),
        ensures
            !runs_positive(cigar@) ==> (r matches Err(Error::ZeroLengthRun { index })
                && is_first_zero_run(cigar@, index as int)),
            runs_positive(cigar@) && self.spec_cost(expand(cigar@)) <= Cost::MAX ==> (r matches Ok(
                c,
            ) && c == self.spec_cost(expand(cigar@))),
            runs_positive(cigar@) && self.spec_cost(expand(cigar@)) > Cost::MAX ==> r == Err::<
                Cost,
                Error,
            >(Error::CostOutOfRange),
    {
        match cigar.validate() {
            Err(e) => {
                return Err(e);
            },
            Ok(()) => {},
        }
        let sub = self.sub_cost();
        let open = self.open_cost();
        let extend = self.extend_cost();
        let mut total: Cost = 0;
        let mut k: usize = 0;
        proof {
            lemma_cost_of_nothing(*self);
            assert(cigar@.take(0) == Seq::<CigarElem>::empty());
        }
        while k < cigar.ops.len()
            invariant
                self.wf(),
                runs_positive(cigar@),
                k <= cigar@.len(),
                sub == self.spec_sub_cost(),
                open == self.spec_open_cost(),
                extend == self.spec_extend_cost(),
                total == self.spec_cost(expand(cigar@.take(k as int))),
            decreases cigar@.len() - k,
        {
            let e = cigar.ops[k];
            let continues = k > 0 && cigar.ops[k - 1].op == e.op;
            proof {
                let before = cigar@.take(k as int);
                assert(before.push(e) == cigar@.take(k + 1));
                assert(runs_positive(before)) by {
                    assert forall|t: int| 0 <= t < before.len() implies (#[trigger] before[t]).cnt
                        > 0 by {
                        assert(before[t] == cigar@[t]);
                    }
                }
                assert(cigar@[k as int].cnt > 0);
                lemma_cost_push_run(*self, before, e);
                lemma_expand_take_is_prefix(cigar@, k + 1);
                lemma_cost_prefix(
                    *self,
                    expand(cigar@),
                    expand(cigar@.take(k + 1)).len() as int,
                );
                assert(0 <= sub * e.cnt <= 0x7fff_ffff * 0xffff_ffff_ffff_ffff) by (nonlinear_arith)
                    requires
                        0 <= sub <= 0x7fff_ffff,
                        0 <= e.cnt <= 0xffff_ffff_ffff_ffff,
                ;
                assert(0 <= extend * e.cnt <= 0x7fff_ffff * 0xffff_ffff_ffff_ffff)
                    by (nonlinear_arith)
                    requires
                        0 <= extend <= 0x7fff_ffff,
                        0 <= e.cnt <= 0xffff_ffff_ffff_ffff,
                ;
            }
            let added: i128 = match e.op {
                CigarOp::Match => 0,
                CigarOp::Sub => (sub as i128) * (e.cnt as i128),
                CigarOp::Del | CigarOp::Ins => {
                    let opening: i128 = if continues {
                        0
                    } else {
                        open as i128
                    };
                    (extend as i128) * (e.cnt as i128) + opening
                },
            };
            assert(added == run_cost(*self, e, continues));
            let next: i128 = (total as i128) + added;
            if next > (Cost::MAX as i128) {
                return Err(Error::CostOutOfRange);
            }
            total = next as Cost;
            k += 1;
        }
        assert(cigar@.take(k as int) == cigar@);
        Ok(total)
    }

    /// The cost of one substitution.
    pub fn sub_cost(&self) -> (c: Cost)
        ensures
            c == self.spec_sub_cost(),
    {
        match *self {
            CostModel::Unit => 1,
            CostModel::Linear { sub, .. } => sub,
            CostModel::Affine { sub, .. } => sub,
        }
    }

    /// The cost of opening a gap, on top of its length.
    pub fn open_cost(&self) -> (c: Cost)
        ensures
            c == self.spec_open_cost(),
    {
        match *self {
            CostModel::Unit => 0,
            CostModel::Linear { .. } => 0,
            CostModel::Affine { open, .. } => open,
        }
    }

    /// The cost of each deleted or inserted symbol.
    pub fn extend_cost(&self) -> (c: Cost)
        ensures
            c == self.spec_extend_cost(),
    {
        match *self {
            CostModel::Unit => 1,
            CostModel::Linear { indel, .. } => indel,
            CostModel::Affine { extend, .. } => extend,
        }
    }
}

/// Every model prices an edit script by its three parameters.
pub proof fn lemma_cost_by_parameters(m: CostModel, ops: Seq<CigarOp>)
    ensures
        m.spec_cost(ops) == m.cost_by_parameters(ops),
{
    assert(0 * gap_runs(ops) == 0);
    assert(1 * count_op(ops, CigarOp::Sub) == count_op(ops, CigarOp::Sub));
    assert(1 * indels(ops) == indels(ops));
}

/// The unit model is the linear model with both costs 1.
pub proof fn lemma_unit_is_linear(ops: Seq<CigarOp>)
    ensures
        CostModel::Unit.spec_cost(ops) == (CostModel::Linear { sub: 1, indel: 1 }).spec_cost(ops),
{
    lemma_cost_by_parameters(CostModel::Unit, ops);
    lemma_cost_by_parameters(CostModel::Linear { sub: 1, indel: 1 }, ops);
}

/// An affine model that charges nothing for opening a gap is the linear
/// model with the extension cost as its indel cost.
pub proof fn lemma_affine_without_open_is_linear(sub: Cost, extend: Cost, ops: Seq<CigarOp>)
    ensures
        (CostModel::Affine { sub, open: 0, extend }).spec_cost(ops) == (CostModel::Linear {
            sub,
            indel: extend,
        }).spec_cost(ops),
{
    lemma_cost_by_parameters(CostModel::Affine { sub, open: 0, extend }, ops);
    lemma_cost_by_parameters(CostModel::Linear { sub, indel: extend }, ops);
}

/// A deletion run that meets an insertion run opens two gaps: under an
/// affine model the two runs together cost `open` twice, besides
/// `extend` for each of their symbols.
pub proof fn lemma_adjacent_gaps_open_twice(sub: Cost, open: Cost, extend: Cost, m: nat, n: nat)
    requires
        m > 0,
        n > 0,
    ensures
        gap_runs(repeat(CigarOp::Del, m) + repeat(CigarOp::Ins, n)) == 2,
        gap_runs(repeat(CigarOp::Del, m + n)) == 1,
        (CostModel::Affine { sub, open, extend }).spec_cost(
            repeat(CigarOp::Del, m) + repeat(CigarOp::Ins, n),
        ) == 2 * open + extend * (m + n),
        (CostModel::Affine { sub, open, extend }).spec_cost(repeat(CigarOp::Del, m + n)) == open
            + extend * (m + n),
{
    let none = Seq::<CigarOp>::empty();
    let dels = repeat(CigarOp::Del, m);
    let both = dels + repeat(CigarOp::Ins, n);
    let long = repeat(CigarOp::Del, m + n);
    assert(none + dels == dels);
    assert(none + long == long);
    lemma_gap_runs_append_run(none, CigarOp::Del, m);
    lemma_gap_runs_append_run(none, CigarOp::Del, m + n);
    lemma_gap_runs_append_run(dels, CigarOp::Ins, n);
    assert(dels.last() == CigarOp::Del);
    lemma_count_concat(dels, repeat(CigarOp::Ins, n), CigarOp::Sub);
    lemma_count_concat(dels, repeat(CigarOp::Ins, n), CigarOp::Del);
    lemma_count_concat(dels, repeat(CigarOp::Ins, n), CigarOp::Ins);
    lemma_count_repeat(CigarOp::Del, m, CigarOp::Sub);
    lemma_count_repeat(CigarOp::Del, m, CigarOp::Del);
    lemma_count_repeat(CigarOp::Del, m, CigarOp::Ins);
    lemma_count_repeat(CigarOp::Ins, n, CigarOp::Sub);
    lemma_count_repeat(CigarOp::Ins, n, CigarOp::Del);
    lemma_count_repeat(CigarOp::Ins, n, CigarOp::Ins);
    lemma_count_repeat(CigarOp::Del, m + n, CigarOp::Sub);
    lemma_count_repeat(CigarOp::Del, m + n, CigarOp::Del);
    lemma_count_repeat(CigarOp::Del, m + n, CigarOp::Ins);
    assert(sub * 0 == 0);
    assert(open * 2 == 2 * open);
    assert(open * 1 == open);
}

} // verus!
