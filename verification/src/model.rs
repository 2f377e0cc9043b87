//! The mathematical model of the checker: operations, the table of bindings,
//! and the transition that one operation makes on it.
//!
//! The table lists the bindings in the order in which they were made. A name
//! denotes its latest binding, whatever became of that binding since. A
//! binding is made by a declaration or as the destination of a move.
//!
//! References are anonymous and counted per value. Their lifetime is
//! lexical: a reference lives until the log releases it, which the front end
//! reports where the reference's own scope ends, or until the scope that
//! owns the value ends, whichever comes first.

use vstd::prelude::*;

verus! {

/// The two ways a reference can reach a value.
#[derive(Clone, Copy, Debug, PartialEq, Eq, Structural)]
pub enum BorrowKind {
    /// Read-only; any number may coexist.
    Shared,
    /// Read-write; excludes every other reference.
    Exclusive,
}

/// One event of a program, as the front end reports it.
#[derive(Clone, Copy, Debug, PartialEq, Eq, Structural)]
pub enum Op {
    /// A new value is bound to `name` and owned by `scope`.
    Declare { name: u64, scope: u64 },
    /// The value bound to `name` passes to the binding `to`, which is recorded
    /// in `from_scope`, the scope that gives the value up.
    Move { name: u64, from_scope: u64, to: u64 },
    /// A reference of the given kind to the value of `name` starts.
    Borrow { name: u64, kind: BorrowKind },
    /// One reference to the value of `name` ends.
    Release { name: u64 },
    /// The value of `name` is read or written.
    Use { name: u64 },
    /// `scope` is left: it releases what it still owns.
    ScopeEnd { scope: u64 },
}

/// The rule that an operation broke.
#[derive(Clone, Copy, Debug, PartialEq, Eq, Structural)]
pub enum ViolationKind {
    DuplicateBinding,
    UseAfterMove,
    ConflictingBorrow,
    DanglingReference,
}

/// What the checker says of a log.
#[derive(Clone, Copy, Debug, PartialEq, Eq, Structural)]
pub enum Verdict {
    Valid,
    /// The operation at `index` is the first that breaks a rule.
    Violation { kind: ViolationKind, index: usize },
}

/// The state of one binding in the model. `shared` counts the active shared
/// references to its value; `exclusive` says whether an exclusive one is active.
pub struct BindingState {
    pub name: u64,
    pub scope: u64,
    pub moved: bool,
    pub ended: bool,
    pub shared: nat,
    pub exclusive: bool,
}

impl BindingState {
    /// A binding as a declaration makes it: owned, alive, not borrowed.
    pub open spec fn fresh(name: u64, scope: u64) -> BindingState {
        BindingState { name, scope, moved: false, ended: false, shared: 0, exclusive: false }
    }

    /// The binding still holds its value, and its scope has not ended.
    pub open spec fn live(self) -> bool {
        !self.moved && !self.ended
    }

    /// The binding is the live binding of `name` in `scope`.
    pub open spec fn binds(self, name: u64, scope: u64) -> bool {
        self.name == name && self.scope == scope && self.live()
    }

    /// The number of references to the value that are active.
    pub open spec fn active(self) -> nat {
        if self.exclusive {
            self.shared + 1
        } else {
            self.shared
        }
    }

    /// The binding after its value was moved away.
    pub open spec fn moved_away(self) -> BindingState {
        BindingState { moved: true, ..self }
    }

    /// The binding after one more reference of `kind` started.
    pub open spec fn lent(self, kind: BorrowKind) -> BindingState {
        match kind {
            BorrowKind::Shared => BindingState { shared: self.shared + 1, ..self },
            BorrowKind::Exclusive => BindingState { exclusive: true, ..self },
        }
    }

    /// Whether a new reference of `kind` would clash with an active one.
    pub open spec fn clashes(self, kind: BorrowKind) -> bool {
        match kind {
            BorrowKind::Shared => self.exclusive,
            BorrowKind::Exclusive => self.exclusive || self.shared > 0,
        }
    }

    /// The binding after one reference ended: the exclusive one if there is
    /// one, else one of the shared ones, else nothing changes.
    pub open spec fn returned(self) -> BindingState {
        if self.exclusive {
            BindingState { exclusive: false, ..self }
        } else if self.shared > 0 {
            BindingState { shared: (self.shared - 1) as nat, ..self }
        } else {
            self
        }
    }

    /// The binding after `scope` ended: a value that `scope` still owns is
    /// released and every reference to it is gone.
    pub open spec fn closed(self, scope: u64) -> BindingState {
        if self.scope == scope && !self.moved {
            BindingState { ended: true, shared: 0, exclusive: false, ..self }
        } else {
            self
        }
    }
}

/// The binding that `name` denotes: the index of its latest declaration.
pub open spec fn denotes(bs: Seq<BindingState>, name: u64) -> Option<int>
    decreases bs.len(),
{
    if bs.len() == 0 {
        None
    } else if bs.last().name == name {
        Some(bs.len() - 1)
    } else {
        denotes(bs.drop_last(), name)
    }
}

/// `name` has a live binding in `scope`.
pub open spec fn live_in(bs: Seq<BindingState>, name: u64, scope: u64) -> bool {
    exists|i: int| 0 <= i < bs.len() && (#[trigger] bs[i]).binds(name, scope)
}

/// The table after `scope` ended.
pub open spec fn close(bs: Seq<BindingState>, scope: u64) -> Seq<BindingState> {
    Seq::new(bs.len(), |i: int| bs[i].closed(scope))
}

/// The names of the values that `scope` releases when it ends, latest
/// declaration first.
pub open spec fn released_names(bs: Seq<BindingState>, scope: u64) -> Seq<u64>
    decreases bs.len(),
{
    if bs.len() == 0 {
        Seq::empty()
    } else if bs.last().scope == scope && bs.last().live() {
        seq![bs.last().name] + released_names(bs.drop_last(), scope)
    } else {
        released_names(bs.drop_last(), scope)
    }
}

/// The number of references to the value of `name` that are active.
pub open spec fn active_borrows(bs: Seq<BindingState>, name: u64) -> nat {
    match denotes(bs, name) {
        Some(i) => bs[i].active(),
        None => 0,
    }
}

/// One operation on the table: the table that follows, or the rule it breaks.
///
/// An operation on a name that was never bound breaks no rule and changes
/// nothing, except that a move still records its destination.
pub open spec fn step(bs: Seq<BindingState>, op: Op) -> Result<Seq<BindingState>, ViolationKind> {
    match op {
        Op::Declare { name, scope } => {
            if live_in(bs, name, scope) {
                Err(ViolationKind::DuplicateBinding)
            } else {
                Ok(bs.push(BindingState::fresh(name, scope)))
            }
        },
        Op::Move { name, from_scope, to } => {
            match denotes(bs, name) {
                Some(i) => {
                    if bs[i].moved {
                        Err(ViolationKind::UseAfterMove)
                    } else {
                        Ok(
                            bs.update(i, bs[i].moved_away()).push(
                                BindingState::fresh(to, from_scope),
                            ),
                        )
                    }
                },
                None => Ok(bs.push(BindingState::fresh(to, from_scope))),
            }
        },
        Op::Borrow { name, kind } => {
            match denotes(bs, name) {
                Some(i) => {
                    if bs[i].clashes(kind) {
                        Err(ViolationKind::ConflictingBorrow)
                    } else {
                        Ok(bs.update(i, bs[i].lent(kind)))
                    }
                },
                None => Ok(bs),
            }
        },
        Op::Release { name } => {
            match denotes(bs, name) {
                Some(i) => Ok(bs.update(i, bs[i].returned())),
                None => Ok(bs),
            }
        },
        Op::Use { name } => {
            match denotes(bs, name) {
                Some(i) => {
                    if bs[i].moved {
                        Err(ViolationKind::UseAfterMove)
                    } else if bs[i].ended {
                        Err(ViolationKind::DanglingReference)
                    } else {
                        Ok(bs)
                    }
                },
                None => Ok(bs),
            }
        },
        Op::ScopeEnd { scope } => Ok(close(bs, scope)),
    }
}

/// The borrow rule as it shows in the table: a value with an exclusive
/// reference has no shared one.
pub open spec fn exclusive_is_alone(bs: Seq<BindingState>) -> bool {
    forall|k: int| 0 <= k < bs.len() ==> !((#[trigger] bs[k]).exclusive && bs[k].shared > 0)
}

/// The table after a whole log, from an empty table, or the first violation
/// with the index of the operation that made it.
pub open spec fn run(ops: Seq<Op>) -> Result<Seq<BindingState>, (ViolationKind, int)>
    decreases ops.len(),
{
    if ops.len() == 0 {
        Ok(Seq::empty())
    } else {
        match run(ops.drop_last()) {
            Err(e) => Err(e),
            Ok(bs) => match step(bs, ops.last()) {
                Ok(next) => Ok(next),
                Err(kind) => Err((kind, ops.len() - 1)),
            },
        }
    }
}

/// The verdict on a log.
pub open spec fn verdict(ops: Seq<Op>) -> Verdict {
    match run(ops) {
        Ok(_) => Verdict::Valid,
        Err((kind, index)) => Verdict::Violation { kind, index: index as usize },
    }
}

/// What `denotes` finds is the last binding of the name, and it finds one
/// whenever there is any.
pub proof fn lemma_denotes(bs: Seq<BindingState>, name: u64)
    ensures
        match denotes(bs, name) {
            Some(i) => 0 <= i < bs.len() && bs[i].name == name && forall|j: int|
                i < j < bs.len() ==> (#[trigger] bs[j]).name != name,
            None => forall|j: int| 0 <= j < bs.len() ==> (#[trigger] bs[j]).name != name,
        },
    decreases bs.len(),
{
    if bs.len() > 0 && bs.last().name != name {
        lemma_denotes(bs.drop_last(), name);
        assert forall|j: int| 0 <= j < bs.len() - 1 implies bs[j] == bs.drop_last()[j] by {}
    }
}

/// An accepted operation keeps the borrow rule.
pub proof fn lemma_step_keeps_rule(bs: Seq<BindingState>, op: Op)
    requires
        exclusive_is_alone(bs),
        step(bs, op) is Ok,
    ensures
        exclusive_is_alone(step(bs, op)->Ok_0),
{
    match op {
        Op::Move { name, .. } => {
            lemma_denotes(bs, name);
        },
        Op::Borrow { name, .. } => {
            lemma_denotes(bs, name);
        },
        Op::Release { name } => {
            lemma_denotes(bs, name);
        },
        _ => {},
    }
}

} // verus!
