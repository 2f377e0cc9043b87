//! The checker: one pass over a log of operations.

use vstd::prelude::*;
use crate::model::{BindingState, Op, Verdict, ViolationKind, run, step, verdict};
use crate::tracker::Tracker;

verus! {

/// The run over the first `n + 1` operations is the run over the first `n`,
/// followed by the step that operation `n` makes.
pub proof fn lemma_run_next(ops: Seq<Op>, n: int)
    requires
        0 <= n < ops.len(),
    ensures
        run(ops.take(n + 1)) == match run(ops.take(n)) {
            Err(e) => Err::<Seq<BindingState>, (ViolationKind, int)>(e),
            Ok(bs) => match step(bs, ops[n]) {
                Ok(next) => Ok(next),
                Err(kind) => Err((kind, n)),
            },
        },
{
    assert(ops.take(n + 1).drop_last() =~= ops.take(n));
    assert(ops.take(n + 1).last() == ops[n]);
}

/// A violation found in a prefix of a log is the verdict on the whole log:
/// what follows the first violation is not looked at.
pub proof fn lemma_first_violation_stands(ops: Seq<Op>, n: int)
    requires
        0 <= n <= ops.len(),
        run(ops.take(n)) is Err,
    ensures
        run(ops) == run(ops.take(n)),
    decreases ops.len() - n,
{
    if n == ops.len() {
        assert(ops.take(n) =~= ops);
    } else {
        lemma_run_next(ops, n);
        lemma_first_violation_stands(ops, n + 1);
    }
}

/// A log that runs through has run through every prefix.
pub proof fn lemma_prefix_runs(ops: Seq<Op>, n: int)
    requires
        0 <= n <= ops.len(),
        run(ops) is Ok,
    ensures
        run(ops.take(n)) is Ok,
{
    if run(ops.take(n)) is Err {
        lemma_first_violation_stands(ops, n);
    }
}

/// Checks a log of operations in order, from an empty table, and reports
/// the first operation that breaks a rule.
pub fn check(ops: &Vec<Op>) -> (v: Verdict)
    ensures
        v == verdict(ops@),
{
    let mut tracker = Tracker::new();
    let mut i: usize = 0;
    assert(ops@.take(0) =~= Seq::<Op>::empty());
    while i < ops.len()
        invariant
            i <= ops@.len(),
            tracker.wf(),
            tracker.steps() == i,
            run(ops@.take(i as int)) == Ok::<Seq<BindingState>, (ViolationKind, int)>(tracker@),
        decreases ops@.len() - i,
    {
        proof {
            lemma_run_next(ops@, i as int);
        }
        match tracker.apply(ops[i]) {
            Ok(()) => {},
            Err(kind) => {
                proof {
                    lemma_first_violation_stands(ops@, i + 1);
                }
                return Verdict::Violation { kind, index: i };
            },
        }
        i = i + 1;
    }
    assert(ops@.take(i as int) =~= ops@);
    Verdict::Valid
}

} // verus!
