//! What holds of every log: the laws of the checker, proved from the model.

use vstd::prelude::*;
use crate::check::{lemma_first_violation_stands, lemma_prefix_runs, lemma_run_next};
use crate::model::{
    BindingState, BorrowKind, Op, Verdict, ViolationKind, active_borrows, denotes,
    exclusive_is_alone, lemma_denotes, lemma_step_keeps_rule, run, step, verdict,
};

verus! {

/// The operation gives `name` a new binding: a declaration of it, or a move
/// into it.
pub open spec fn rebinds(op: Op, name: u64) -> bool {
    match op {
        Op::Declare { name: n, .. } => n == name,
        Op::Move { to, .. } => to == name,
        _ => false,
    }
}

/// The operation gives `name` a new binding in `scope`.
pub open spec fn binds_in(op: Op, name: u64, scope: u64) -> bool {
    match op {
        Op::Declare { name: n, scope: s } => n == name && s == scope,
        Op::Move { to, from_scope, .. } => to == name && from_scope == scope,
        _ => false,
    }
}

/// `name` denotes a binding.
pub open spec fn bound(bs: Seq<BindingState>, name: u64) -> bool {
    denotes(bs, name) is Some
}

/// `name` denotes a binding of `scope`.
pub open spec fn bound_in(bs: Seq<BindingState>, name: u64, scope: u64) -> bool {
    match denotes(bs, name) {
        Some(k) => bs[k].scope == scope,
        None => false,
    }
}

/// `name` denotes a binding whose value was moved away.
pub open spec fn moved_from(bs: Seq<BindingState>, name: u64) -> bool {
    match denotes(bs, name) {
        Some(k) => bs[k].moved,
        None => false,
    }
}

/// `name` denotes a binding of `scope` with an active exclusive reference.
pub open spec fn held_exclusively(bs: Seq<BindingState>, name: u64, scope: u64) -> bool {
    match denotes(bs, name) {
        Some(k) => bs[k].scope == scope && bs[k].exclusive,
        None => false,
    }
}

/// No exclusive reference to the value of `name` is active.
pub open spec fn free_of_exclusive(bs: Seq<BindingState>, name: u64) -> bool {
    match denotes(bs, name) {
        Some(k) => !bs[k].exclusive,
        None => true,
    }
}

/// What a name denotes after one more binding was recorded.
pub proof fn lemma_denotes_push(bs: Seq<BindingState>, b: BindingState, name: u64)
    ensures
        denotes(bs.push(b), name) == if b.name == name {
            Some(bs.len() as int)
        } else {
            denotes(bs, name)
        },
{
    assert(bs.push(b).drop_last() =~= bs);
}

/// Tables with the same names in the same order denote alike.
pub proof fn lemma_denotes_same_names(bs: Seq<BindingState>, cs: Seq<BindingState>, name: u64)
    requires
        bs.len() == cs.len(),
        forall|k: int| 0 <= k < bs.len() ==> (#[trigger] cs[k]).name == bs[k].name,
    ensures
        denotes(cs, name) == denotes(bs, name),
    decreases bs.len(),
{
    if bs.len() > 0 {
        assert(cs.last().name == bs.last().name);
        if bs.last().name != name {
            assert forall|k: int| 0 <= k < bs.len() - 1 implies (#[trigger] cs.drop_last()[k]).name
                == bs.drop_last()[k].name by {
                assert(cs.drop_last()[k] == cs[k]);
            }
            lemma_denotes_same_names(bs.drop_last(), cs.drop_last(), name);
        }
    }
}

/// One accepted operation that does not rebind `name` leaves `name` on the
/// binding it denoted, in the same scope; a value moved away stays moved
/// away; an exclusive reference stays unless the operation releases a
/// reference to the value or ends its scope.
pub proof fn lemma_step_keeps(bs: Seq<BindingState>, op: Op, name: u64)
    requires
        step(bs, op) is Ok,
        !rebinds(op, name),
        bound(bs, name),
    ensures
        ({
            let k = denotes(bs, name)->Some_0;
            let cs = step(bs, op)->Ok_0;
            &&& denotes(cs, name) == Some(k)
            &&& 0 <= k < bs.len()
            &&& cs[k].scope == bs[k].scope
            &&& bs[k].moved ==> cs[k].moved
            &&& (bs[k].exclusive && op != (Op::Release { name }) && op != (Op::ScopeEnd {
                scope: bs[k].scope,
            })) ==> cs[k].exclusive
        }),
{
    let k = denotes(bs, name)->Some_0;
    let cs = step(bs, op)->Ok_0;
    lemma_denotes(bs, name);
    match op {
        Op::Declare { name: n, scope } => {
            lemma_denotes_push(bs, BindingState::fresh(n, scope), name);
        },
        Op::Move { name: n, from_scope, to } => {
            lemma_denotes(bs, n);
            match denotes(bs, n) {
                Some(i) => {
                    let mid = bs.update(i, bs[i].moved_away());
                    lemma_denotes_same_names(bs, mid, name);
                    lemma_denotes_push(mid, BindingState::fresh(to, from_scope), name);
                },
                None => {
                    lemma_denotes_push(bs, BindingState::fresh(to, from_scope), name);
                },
            }
        },
        Op::Borrow { name: n, kind } => {
            lemma_denotes(bs, n);
            lemma_denotes_same_names(bs, cs, name);
        },
        Op::Release { name: n } => {
            lemma_denotes(bs, n);
            lemma_denotes_same_names(bs, cs, name);
        },
        Op::Use { name: n } => {},
        Op::ScopeEnd { scope } => {
            lemma_denotes_same_names(bs, cs, name);
        },
    }
}

/// One accepted operation leaves a bound name bound.
pub proof fn lemma_step_keeps_bound(bs: Seq<BindingState>, op: Op, name: u64)
    requires
        step(bs, op) is Ok,
        bound(bs, name),
    ensures
        bound(step(bs, op)->Ok_0, name),
{
    if rebinds(op, name) {
        match op {
            Op::Declare { name: n, scope } => {
                lemma_denotes_push(bs, BindingState::fresh(n, scope), name);
            },
            Op::Move { name: n, from_scope, to } => {
                match denotes(bs, n) {
                    Some(i) => {
                        lemma_denotes_push(
                            bs.update(i, bs[i].moved_away()),
                            BindingState::fresh(to, from_scope),
                            name,
                        );
                    },
                    None => {
                        lemma_denotes_push(bs, BindingState::fresh(to, from_scope), name);
                    },
                }
            },
            _ => {},
        }
    } else {
        lemma_step_keeps(bs, op, name);
    }
}

/// An operation that gives `name` a binding in `scope`, once accepted,
/// leaves `name` denoting a binding of `scope` that is not moved away.
pub proof fn lemma_step_binds(bs: Seq<BindingState>, op: Op, name: u64, scope: u64)
    requires
        step(bs, op) is Ok,
        binds_in(op, name, scope),
    ensures
        bound_in(step(bs, op)->Ok_0, name, scope),
{
    match op {
        Op::Declare { name: n, scope: s } => {
            lemma_denotes_push(bs, BindingState::fresh(n, s), name);
        },
        Op::Move { name: n, from_scope, to } => {
            match denotes(bs, n) {
                Some(i) => {
                    lemma_denotes_push(
                        bs.update(i, bs[i].moved_away()),
                        BindingState::fresh(to, from_scope),
                        name,
                    );
                },
                None => {
                    lemma_denotes_push(bs, BindingState::fresh(to, from_scope), name);
                },
            }
        },
        _ => {},
    }
}

/// One accepted operation other than an exclusive borrow of `name` starts no
/// exclusive reference to its value.
pub proof fn lemma_step_keeps_free(bs: Seq<BindingState>, op: Op, name: u64)
    requires
        step(bs, op) is Ok,
        free_of_exclusive(bs, name),
        op != (Op::Borrow { name, kind: BorrowKind::Exclusive }),
    ensures
        free_of_exclusive(step(bs, op)->Ok_0, name),
{
    let cs = step(bs, op)->Ok_0;
    lemma_denotes(bs, name);
    match op {
        Op::Declare { name: n, scope } => {
            lemma_denotes_push(bs, BindingState::fresh(n, scope), name);
        },
        Op::Move { name: n, from_scope, to } => {
            lemma_denotes(bs, n);
            match denotes(bs, n) {
                Some(i) => {
                    let mid = bs.update(i, bs[i].moved_away());
                    lemma_denotes_same_names(bs, mid, name);
                    lemma_denotes_push(mid, BindingState::fresh(to, from_scope), name);
                },
                None => {
                    lemma_denotes_push(bs, BindingState::fresh(to, from_scope), name);
                },
            }
        },
        Op::Borrow { name: n, kind } => {
            lemma_denotes(bs, n);
            lemma_denotes_same_names(bs, cs, name);
        },
        Op::Release { name: n } => {
            lemma_denotes(bs, n);
            lemma_denotes_same_names(bs, cs, name);
        },
        Op::Use { name: n } => {},
        Op::ScopeEnd { scope } => {
            lemma_denotes_same_names(bs, cs, name);
        },
    }
}

/// What holds of the table before a stretch of the log, and is kept by every
/// accepted operation of the stretch, holds after it.
pub proof fn lemma_carried(
    ops: Seq<Op>,
    from: int,
    to: int,
    holds: spec_fn(Seq<BindingState>) -> bool,
    keeps: spec_fn(Op) -> bool,
)
    requires
        0 <= from <= to <= ops.len(),
        run(ops.take(to)) is Ok,
        run(ops.take(from)) is Ok ==> holds(run(ops.take(from))->Ok_0),
        forall|k: int| from <= k < to ==> keeps(#[trigger] ops[k]),
        forall|bs: Seq<BindingState>, op: Op|
            holds(bs) && keeps(op) && (#[trigger] step(bs, op)) is Ok ==> holds(
                step(bs, op)->Ok_0,
            ),
    ensures
        holds(run(ops.take(to))->Ok_0),
    decreases to - from,
{
    if from < to {
        assert(ops.take(to).take(to - 1) =~= ops.take(to - 1));
        lemma_prefix_runs(ops.take(to), to - 1);
        lemma_carried(ops, from, to - 1, holds, keeps);
        lemma_run_next(ops, to - 1);
    } else {
    }
}

/// In every table that an accepted log leaves, a value with an exclusive
/// reference has no shared one.
pub proof fn law_exclusive_is_alone(ops: Seq<Op>)
    requires
        run(ops) is Ok,
    ensures
        exclusive_is_alone(run(ops)->Ok_0),
{
    let alone = |bs: Seq<BindingState>| exclusive_is_alone(bs);
    let any = |op: Op| true;
    assert(ops.take(ops.len() as int) =~= ops);
    assert(ops.take(0) =~= Seq::<Op>::empty());
    assert forall|bs: Seq<BindingState>, op: Op|
        alone(bs) && any(op) && (#[trigger] step(bs, op)) is Ok implies alone(
        step(bs, op)->Ok_0,
    ) by {
        lemma_step_keeps_rule(bs, op);
    }
    lemma_carried(ops, 0, ops.len() as int, alone, any);
}

/// A value that is moved and then used again under the same name, with no
/// new binding of the name in between, is a use after move, reported at the
/// use, provided the log is accepted up to there. The name was bound before
/// the move (at `bind`), so there is a value to move.
pub proof fn law_use_after_move(ops: Seq<Op>, name: u64, bind: int, mv: int, reuse: int)
    requires
        0 <= bind < mv < reuse < ops.len(),
        rebinds(ops[bind], name),
        ops[mv] is Move,
        ops[mv]->Move_name == name,
        ops[reuse] == (Op::Use { name }),
        forall|k: int| mv <= k < reuse ==> !rebinds(#[trigger] ops[k], name),
        run(ops.take(reuse)) is Ok,
    ensures
        run(ops) == Err::<Seq<BindingState>, (ViolationKind, int)>(
            (ViolationKind::UseAfterMove, reuse),
        ),
        reuse <= usize::MAX ==> verdict(ops) == (Verdict::Violation {
            kind: ViolationKind::UseAfterMove,
            index: reuse as usize,
        }),
{
    assert(ops.take(reuse).take(bind + 1) =~= ops.take(bind + 1));
    assert(ops.take(reuse).take(mv) =~= ops.take(mv));
    assert(ops.take(reuse).take(mv + 1) =~= ops.take(mv + 1));
    lemma_prefix_runs(ops.take(reuse), bind + 1);
    lemma_prefix_runs(ops.take(reuse), mv);
    lemma_prefix_runs(ops.take(reuse), mv + 1);
    // The name is bound after `bind`, and stays bound up to the move.
    lemma_run_next(ops, bind);
    let before_bind = run(ops.take(bind))->Ok_0;
    match ops[bind] {
        Op::Declare { name: n, scope } => {
            lemma_step_binds(before_bind, ops[bind], name, scope);
        },
        Op::Move { from_scope, .. } => {
            lemma_step_binds(before_bind, ops[bind], name, from_scope);
        },
        _ => {},
    }
    let is_bound = |bs: Seq<BindingState>| bound(bs, name);
    let any = |op: Op| true;
    assert forall|bs: Seq<BindingState>, op: Op|
        is_bound(bs) && any(op) && (#[trigger] step(bs, op)) is Ok implies is_bound(
        step(bs, op)->Ok_0,
    ) by {
        lemma_step_keeps_bound(bs, op, name);
    }
    lemma_carried(ops, bind + 1, mv, is_bound, any);
    // The move marks the binding, and nothing up to the reuse unmarks it.
    lemma_run_next(ops, mv);
    let before_move = run(ops.take(mv))->Ok_0;
    lemma_step_keeps(before_move, ops[mv], name);
    lemma_denotes(before_move, name);
    let is_moved = |bs: Seq<BindingState>| moved_from(bs, name);
    let no_rebind = |op: Op| !rebinds(op, name);
    assert(is_moved(run(ops.take(mv + 1))->Ok_0)) by {
        let k = denotes(before_move, name)->Some_0;
        let after = step(before_move, ops[mv])->Ok_0;
        let mid = before_move.update(k, before_move[k].moved_away());
        assert(after == mid.push(
            BindingState::fresh(ops[mv]->Move_to, ops[mv]->Move_from_scope),
        ));
        assert(after[k] == mid[k]);
    }
    assert forall|bs: Seq<BindingState>, op: Op|
        is_moved(bs) && no_rebind(op) && (#[trigger] step(bs, op)) is Ok implies is_moved(
        step(bs, op)->Ok_0,
    ) by {
        lemma_step_keeps(bs, op, name);
    }
    lemma_carried(ops, mv + 1, reuse, is_moved, no_rebind);
    lemma_run_next(ops, reuse);
    lemma_first_violation_stands(ops, reuse + 1);
}

/// A second exclusive borrow of a value, requested while the first is
/// active, is a conflicting borrow, reported at the second request, provided
/// the log is accepted up to there. The first is active at the second when,
/// since the name was bound in `scope` (at `bind`), it was not bound anew,
/// and since the first borrow no reference to the value was released and
/// `scope` did not end.
pub proof fn law_second_exclusive_conflicts(
    ops: Seq<Op>,
    name: u64,
    scope: u64,
    bind: int,
    first: int,
    second: int,
)
    requires
        0 <= bind < first < second < ops.len(),
        binds_in(ops[bind], name, scope),
        ops[first] == (Op::Borrow { name, kind: BorrowKind::Exclusive }),
        ops[second] == (Op::Borrow { name, kind: BorrowKind::Exclusive }),
        forall|k: int| bind < k < second ==> !rebinds(#[trigger] ops[k], name),
        forall|k: int|
            first < k < second ==> (#[trigger] ops[k]) != (Op::Release { name }) && ops[k] != (
            Op::ScopeEnd { scope }),
        run(ops.take(second)) is Ok,
    ensures
        run(ops) == Err::<Seq<BindingState>, (ViolationKind, int)>(
            (ViolationKind::ConflictingBorrow, second),
        ),
        second <= usize::MAX ==> verdict(ops) == (Verdict::Violation {
            kind: ViolationKind::ConflictingBorrow,
            index: second as usize,
        }),
{
    assert(ops.take(second).take(bind + 1) =~= ops.take(bind + 1));
    assert(ops.take(second).take(first) =~= ops.take(first));
    assert(ops.take(second).take(first + 1) =~= ops.take(first + 1));
    lemma_prefix_runs(ops.take(second), bind + 1);
    lemma_prefix_runs(ops.take(second), first);
    lemma_prefix_runs(ops.take(second), first + 1);
    lemma_run_next(ops, bind);
    lemma_step_binds(run(ops.take(bind))->Ok_0, ops[bind], name, scope);
    let in_scope = |bs: Seq<BindingState>| bound_in(bs, name, scope);
    let no_rebind = |op: Op| !rebinds(op, name);
    assert forall|bs: Seq<BindingState>, op: Op|
        in_scope(bs) && no_rebind(op) && (#[trigger] step(bs, op)) is Ok implies in_scope(
        step(bs, op)->Ok_0,
    ) by {
        lemma_step_keeps(bs, op, name);
    }
    lemma_carried(ops, bind + 1, first, in_scope, no_rebind);
    // The first borrow sets the mark, and nothing up to the second clears it.
    lemma_run_next(ops, first);
    let before_first = run(ops.take(first))->Ok_0;
    lemma_step_keeps(before_first, ops[first], name);
    let held = |bs: Seq<BindingState>| held_exclusively(bs, name, scope);
    let quiet = |op: Op|
        !rebinds(op, name) && op != (Op::Release { name }) && op != (Op::ScopeEnd { scope });
    assert forall|bs: Seq<BindingState>, op: Op|
        held(bs) && quiet(op) && (#[trigger] step(bs, op)) is Ok implies held(
        step(bs, op)->Ok_0,
    ) by {
        lemma_step_keeps(bs, op, name);
    }
    lemma_carried(ops, first + 1, second, held, quiet);
    lemma_run_next(ops, second);
    lemma_first_violation_stands(ops, second + 1);
}

/// A shared borrow after a shared borrow of the same value, with no
/// exclusive borrow of it in between, is accepted wherever the log is
/// accepted up to it; a log that ends there is valid.
pub proof fn law_shared_after_shared(ops: Seq<Op>, name: u64, first: int, second: int)
    requires
        0 <= first < second < ops.len(),
        ops[first] == (Op::Borrow { name, kind: BorrowKind::Shared }),
        ops[second] == (Op::Borrow { name, kind: BorrowKind::Shared }),
        forall|k: int|
            first < k < second ==> (#[trigger] ops[k]) != (Op::Borrow {
                name,
                kind: BorrowKind::Exclusive,
            }),
        run(ops.take(second)) is Ok,
    ensures
        run(ops.take(second + 1)) is Ok,
        second + 1 == ops.len() ==> verdict(ops) == Verdict::Valid,
{
    assert(ops.take(second).take(first) =~= ops.take(first));
    assert(ops.take(second).take(first + 1) =~= ops.take(first + 1));
    lemma_prefix_runs(ops.take(second), first);
    lemma_prefix_runs(ops.take(second), first + 1);
    lemma_run_next(ops, first);
    let before_first = run(ops.take(first))->Ok_0;
    lemma_denotes(before_first, name);
    let free = |bs: Seq<BindingState>| free_of_exclusive(bs, name);
    let no_exclusive = |op: Op| op != (Op::Borrow { name, kind: BorrowKind::Exclusive });
    assert(free(run(ops.take(first + 1))->Ok_0)) by {
        if bound(before_first, name) {
            lemma_step_keeps(before_first, ops[first], name);
        }
    }
    assert forall|bs: Seq<BindingState>, op: Op|
        free(bs) && no_exclusive(op) && (#[trigger] step(bs, op)) is Ok implies free(
        step(bs, op)->Ok_0,
    ) by {
        lemma_step_keeps_free(bs, op, name);
    }
    lemma_carried(ops, first + 1, second, free, no_exclusive);
    lemma_run_next(ops, second);
    assert(ops.take(ops.len() as int) =~= ops);
}

/// Releases are always accepted, and each ends one reference to the value
/// of the name if any is active.
pub proof fn lemma_releases(ops: Seq<Op>, name: u64, from: int, to: int)
    requires
        0 <= from <= to <= ops.len(),
        run(ops.take(from)) is Ok,
        forall|k: int| from <= k < to ==> (#[trigger] ops[k]) == (Op::Release { name }),
    ensures
        run(ops.take(to)) is Ok,
        active_borrows(run(ops.take(to))->Ok_0, name) == if active_borrows(
            run(ops.take(from))->Ok_0,
            name,
        ) >= to - from {
            active_borrows(run(ops.take(from))->Ok_0, name) - (to - from)
        } else {
            0
        },
    decreases to - from,
{
    if from < to {
        lemma_releases(ops, name, from, to - 1);
        lemma_run_next(ops, to - 1);
        let bs = run(ops.take(to - 1))->Ok_0;
        lemma_denotes(bs, name);
        if bound(bs, name) {
            let k = denotes(bs, name)->Some_0;
            let cs = bs.update(k, bs[k].returned());
            lemma_denotes_same_names(bs, cs, name);
        }
    }
}

/// Once every active reference to a value was released, a borrow of either
/// kind is accepted, whatever kinds were active before: after at least as
/// many releases as references were active, the borrow that follows goes
/// through.
pub proof fn law_borrow_after_release(
    ops: Seq<Op>,
    name: u64,
    kind: BorrowKind,
    from: int,
    request: int,
)
    requires
        0 <= from <= request < ops.len(),
        run(ops.take(from)) is Ok,
        forall|k: int| from <= k < request ==> (#[trigger] ops[k]) == (Op::Release { name }),
        active_borrows(run(ops.take(from))->Ok_0, name) <= request - from,
        ops[request] == (Op::Borrow { name, kind }),
    ensures
        run(ops.take(request + 1)) is Ok,
        request + 1 == ops.len() ==> verdict(ops) == Verdict::Valid,
{
    lemma_releases(ops, name, from, request);
    lemma_run_next(ops, request);
    lemma_denotes(run(ops.take(request))->Ok_0, name);
    assert(ops.take(ops.len() as int) =~= ops);
}

/// The operation declares `name`, in whatever scope.
pub open spec fn declares(op: Op, name: u64) -> bool {
    match op {
        Op::Declare { name: n, .. } => n == name,
        _ => false,
    }
}

/// Operation `reuse` uses a name after the scope of its latest declaration
/// (operation `decl`) has ended (operation `end`).
pub open spec fn uses_after_scope_end(ops: Seq<Op>, decl: int, end: int, reuse: int) -> bool {
    0 <= decl < end < reuse < ops.len() && match ops[decl] {
        Op::Declare { name, scope } => {
            &&& ops[end] == (Op::ScopeEnd { scope })
            &&& ops[reuse] == (Op::Use { name })
            &&& forall|m: int| decl < m < reuse ==> !declares(#[trigger] ops[m], name)
        },
        _ => false,
    }
}

/// Operation `again` repeats the declaration that operation `decl` made,
/// and the scope of the two has not ended in between.
pub open spec fn declares_again(ops: Seq<Op>, decl: int, again: int) -> bool {
    0 <= decl < again < ops.len() && match ops[decl] {
        Op::Declare { name, scope } => ops[again] == ops[decl] && forall|e: int|
            decl < e < again ==> (#[trigger] ops[e]) != (Op::ScopeEnd { scope }),
        _ => false,
    }
}

/// The operation is a move or an exclusive borrow.
pub open spec fn takes_or_locks(op: Op) -> bool {
    match op {
        Op::Move { .. } => true,
        Op::Borrow { kind, .. } => kind == BorrowKind::Exclusive,
        _ => false,
    }
}

/// A log with no move, no exclusive borrow, no use of a name after the scope
/// of its latest declaration has ended, and no declaration repeated in a
/// scope that is still open.
pub open spec fn calm(ops: Seq<Op>) -> bool {
    &&& forall|k: int| 0 <= k < ops.len() ==> !takes_or_locks(#[trigger] ops[k])
    &&& forall|d: int, e: int, j: int| !uses_after_scope_end(ops, d, e, j)
    &&& forall|d: int, j: int| !declares_again(ops, d, j)
}

/// Among the first `n` operations, operation `decl` declared the binding
/// `b`, and the scope of `b` has ended since then exactly if `b` is marked
/// as ended.
pub open spec fn stems_from(ops: Seq<Op>, n: int, b: BindingState, decl: int) -> bool {
    &&& 0 <= decl < n
    &&& ops[decl] == (Op::Declare { name: b.name, scope: b.scope })
    &&& if b.ended {
        exists|e: int| decl < e < n && (#[trigger] ops[e]) == (Op::ScopeEnd { scope: b.scope })
    } else {
        forall|e: int| decl < e < n ==> (#[trigger] ops[e]) != (Op::ScopeEnd { scope: b.scope })
    }
}

/// Every binding of the table is owned and free of exclusive references;
/// `origins` lists, in order, the declarations among the first `n`
/// operations, and each binding stems from the one at its place.
pub open spec fn traced(ops: Seq<Op>, n: int, bs: Seq<BindingState>, origins: Seq<int>) -> bool {
    &&& origins.len() == bs.len()
    &&& forall|k: int|
        0 <= k < bs.len() ==> !(#[trigger] bs[k]).moved && !bs[k].exclusive && stems_from(
            ops,
            n,
            bs[k],
            origins[k],
        )
    &&& forall|a: int, b: int| 0 <= a < b < origins.len() ==> origins[a] < origins[b]
    &&& forall|d: int|
        0 <= d < n && (#[trigger] ops[d]) is Declare ==> exists|k: int|
            0 <= k < origins.len() && origins[k] == d
}

/// A binding that stems from a declaration still does so one operation
/// later, if it is marked as ended exactly when that operation ends its
/// scope or it was so marked before.
pub proof fn lemma_stems_on(ops: Seq<Op>, n: int, b: BindingState, c: BindingState, decl: int)
    requires
        0 < n <= ops.len(),
        stems_from(ops, n - 1, b, decl),
        c.name == b.name,
        c.scope == b.scope,
        c.ended == (b.ended || ops[n - 1] == (Op::ScopeEnd { scope: b.scope })),
    ensures
        stems_from(ops, n, c, decl),
{
    if b.ended {
        let e = choose|e: int|
            decl < e < n - 1 && (#[trigger] ops[e]) == (Op::ScopeEnd { scope: b.scope });
        assert(decl < e < n && ops[e] == (Op::ScopeEnd { scope: c.scope }));
    } else if c.ended {
        assert(decl < n - 1 < n && ops[n - 1] == (Op::ScopeEnd { scope: c.scope }));
    }
}

/// A calm log is accepted operation by operation, and its table is traced.
pub proof fn lemma_calm_runs(ops: Seq<Op>, n: int) -> (origins: Seq<int>)
    requires
        calm(ops),
        0 <= n <= ops.len(),
    ensures
        run(ops.take(n)) is Ok,
        traced(ops, n, run(ops.take(n))->Ok_0, origins),
    decreases n,
{
    if n == 0 {
        assert(ops.take(0) =~= Seq::<Op>::empty());
        Seq::empty()
    } else {
        let before = lemma_calm_runs(ops, n - 1);
        lemma_run_next(ops, n - 1);
        let bs = run(ops.take(n - 1))->Ok_0;
        let op = ops[n - 1];
        let m = n - 1;
        assert(!takes_or_locks(op));
        match op {
            Op::Declare { name, scope } => {
                if exists|i: int| 0 <= i < bs.len() && (#[trigger] bs[i]).binds(name, scope) {
                    let i = choose|i: int|
                        0 <= i < bs.len() && (#[trigger] bs[i]).binds(name, scope);
                    assert(declares_again(ops, before[i], m));
                }
            },
            Op::Use { name } => {
                lemma_denotes(bs, name);
                if denotes(bs, name) is Some {
                    let i = denotes(bs, name)->Some_0;
                    if bs[i].ended {
                        let d = before[i];
                        let e = choose|e: int|
                            d < e < m && (#[trigger] ops[e]) == (Op::ScopeEnd {
                                scope: bs[i].scope,
                            });
                        assert forall|later: int| d < later < m implies !declares(
                            #[trigger] ops[later],
                            name,
                        ) by {
                            if declares(ops[later], name) {
                                let k = choose|k: int|
                                    0 <= k < before.len() && before[k] == later;
                                assert(bs[k].name == name);
                                assert(i < k);
                            }
                        }
                        assert(uses_after_scope_end(ops, d, e, m));
                    }
                }
            },
            Op::Borrow { name, kind } => {
                lemma_denotes(bs, name);
            },
            Op::Release { name } => {
                lemma_denotes(bs, name);
            },
            _ => {},
        }
        assert(step(bs, op) is Ok);
        let cs = step(bs, op)->Ok_0;
        let origins = if op is Declare {
            before.push(m)
        } else {
            before
        };
        assert forall|k: int| 0 <= k < cs.len() implies !(#[trigger] cs[k]).moved
            && !cs[k].exclusive && stems_from(ops, n, cs[k], origins[k]) by {
            if k < bs.len() {
                lemma_stems_on(ops, n, bs[k], cs[k], before[k]);
            }
        }
        assert forall|d: int| 0 <= d < n && (#[trigger] ops[d]) is Declare implies exists|k: int|
            0 <= k < origins.len() && origins[k] == d by {
            if d < m {
                let k = choose|k: int| 0 <= k < before.len() && before[k] == d;
                assert(origins[k] == d);
            } else {
                assert(origins[origins.len() - 1] == d);
            }
        }
        origins
    }
}

/// A log with no move, no exclusive borrow and no use of a name after the
/// scope of its latest declaration has ended is valid, unless it declares a
/// name twice in a scope that is still open.
pub proof fn law_calm_log_is_valid(ops: Seq<Op>)
    requires
        calm(ops),
    ensures
        verdict(ops) == Verdict::Valid,
{
    let _ = lemma_calm_runs(ops, ops.len() as int);
    assert(ops.take(ops.len() as int) =~= ops);
}

} // verus!
