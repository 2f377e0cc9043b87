//! The table of bindings and the operations on it.

use vstd::prelude::*;
use crate::model::{
    BindingState, BorrowKind, Op, ViolationKind, close, denotes, exclusive_is_alone,
    lemma_denotes, live_in, released_names, step,
};

verus! {

/// One row of the table: a name, the scope that owns its value, and what is
/// known of the value.
#[derive(Clone, Copy, Debug, PartialEq, Eq, Structural)]
pub struct Binding {
    pub name: u64,
    pub scope: u64,
    pub moved: bool,
    pub ended: bool,
    pub shared: usize,
    pub exclusive: bool,
}

impl View for Binding {
    type V = BindingState;

    open spec fn view(&self) -> BindingState {
        BindingState {
            name: self.name,
            scope: self.scope,
            moved: self.moved,
            ended: self.ended,
            shared: self.shared as nat,
            exclusive: self.exclusive,
        }
    }
}

/// The table of bindings, in the order of their declarations, and the number
/// of operations it has taken.
pub struct Tracker {
    bindings: Vec<Binding>,
    applied: usize,
}

/// What an operation leaves behind: the table that the model gives and `Ok`,
/// or the violation and the table as it was.
pub open spec fn outcome(
    before: Seq<BindingState>,
    op: Op,
    after: Seq<BindingState>,
    r: Result<(), ViolationKind>,
) -> bool {
    match step(before, op) {
        Ok(bs) => r is Ok && after == bs,
        Err(kind) => r == Err::<(), ViolationKind>(kind) && after == before,
    }
}

impl View for Tracker {
    type V = Seq<BindingState>;

    closed spec fn view(&self) -> Seq<BindingState> {
        Seq::new(self.bindings@.len(), |i: int| self.bindings@[i]@)
    }
}

impl Tracker {
    /// The number of operations taken so far.
    pub closed spec fn steps(&self) -> nat {
        self.applied as nat
    }

    /// The table keeps the borrow rule, and no binding has more shared
    /// references than operations were taken.
    pub closed spec fn wf(&self) -> bool {
        &&& exclusive_is_alone(self@)
        &&& forall|i: int|
            0 <= i < self.bindings@.len() ==> (#[trigger] self.bindings@[i]).shared
                <= self.applied
    }

    /// A well-formed table keeps the borrow rule.
    pub proof fn lemma_wf_keeps_rule(&self)
        requires
            self.wf(),
        ensures
            exclusive_is_alone(self@),
    {
    }

    /// An empty table.
    pub fn new() -> (t: Tracker)
        ensures
            t.wf(),
            t@ == Seq::<BindingState>::empty(),
            t.steps() == 0,
    {
        let t = Tracker { bindings: Vec::new(), applied: 0 };
        assert(t@ =~= Seq::<BindingState>::empty());
        t
    }

    /// The number of bindings in the table.
    pub fn len(&self) -> (n: usize)
        ensures
            n == self@.len(),
    {
        self.bindings.len()
    }

    /// The number of operations taken so far.
    pub fn count(&self) -> (n: usize)
        ensures
            n == self.steps(),
    {
        self.applied
    }

    /// The binding at `index`, in the order of declaration.
    pub fn get(&self, index: usize) -> (b: Option<Binding>)
        ensures
            match b {
                Some(b) => index < self@.len() && b@ == self@[index as int],
                None => index >= self@.len(),
            },
    {
        if index < self.bindings.len() {
            Some(self.bindings[index])
        } else {
            None
        }
    }

    /// The index of the binding that `name` denotes.
    pub fn find(&self, name: u64) -> (found: Option<usize>)
        ensures
            match found {
                Some(i) => i < self@.len() && denotes(self@, name) == Some(i as int),
                None => denotes(self@, name) is None,
            },
    {
        let mut i: usize = self.bindings.len();
        while i > 0
            invariant
                i <= self.bindings@.len(),
                forall|j: int| i <= j < self.bindings@.len() ==> (#[trigger] self@[j]).name != name,
            decreases i,
        {
            i = i - 1;
            if self.bindings[i].name == name {
                proof {
                    assert(self@[i as int].name == name);
                    lemma_denotes(self@, name);
                }
                return Some(i);
            }
        }
        proof {
            lemma_denotes(self@, name);
        }
        None
    }

    /// Whether `name` has a live binding in `scope`.
    pub fn is_live_in(&self, name: u64, scope: u64) -> (found: bool)
        ensures
            found == live_in(self@, name, scope),
    {
        let mut i: usize = 0;
        while i < self.bindings.len()
            invariant
                i <= self.bindings@.len(),
                forall|j: int| 0 <= j < i ==> !(#[trigger] self@[j]).binds(name, scope),
            decreases self.bindings@.len() - i,
        {
            let b = self.bindings[i];
            if b.name == name && b.scope == scope && !b.moved && !b.ended {
                assert(self@[i as int].binds(name, scope));
                return true;
            }
            i = i + 1;
        }
        false
    }

    /// Binds a new value to `name` in `scope`, unless `name` is live there.
    pub fn declare(&mut self, name: u64, scope: u64) -> (r: Result<(), ViolationKind>)
        requires
            old(self).wf(),
            old(self).steps() < usize::MAX,
        ensures
            final(self).wf(),
            final(self).steps() == old(self).steps() + 1,
            outcome(old(self)@, Op::Declare { name, scope }, final(self)@, r),
    {
        self.applied = self.applied + 1;
        if self.is_live_in(name, scope) {
            assert(self@ =~= old(self)@);
            return Err(ViolationKind::DuplicateBinding);
        }
        self.bindings.push(
            Binding { name, scope, moved: false, ended: false, shared: 0, exclusive: false },
        );
        assert(self@ =~= old(self)@.push(BindingState::fresh(name, scope)));
        Ok(())
    }

    /// Moves the value of `name` to the binding `to`, recorded in `from_scope`,
    /// unless the value was moved away before.
    pub fn move_value(&mut self, name: u64, from_scope: u64, to: u64) -> (r: Result<
        (),
        ViolationKind,
    >)
        requires
            old(self).wf(),
            old(self).steps() < usize::MAX,
        ensures
            final(self).wf(),
            final(self).steps() == old(self).steps() + 1,
            outcome(old(self)@, Op::Move { name, from_scope, to }, final(self)@, r),
    {
        self.applied = self.applied + 1;
        assert(self@ =~= old(self)@);
        match self.find(name) {
            Some(i) => {
                let b = self.bindings[i];
                if b.moved {
                    return Err(ViolationKind::UseAfterMove);
                }
                self.bindings.set(i, Binding { moved: true, ..b });
            },
            None => {},
        }
        self.bindings.push(
            Binding {
                name: to,
                scope: from_scope,
                moved: false,
                ended: false,
                shared: 0,
                exclusive: false,
            },
        );
        proof {
            match denotes(old(self)@, name) {
                Some(i) => {
                    assert(self@ =~= old(self)@.update(i, old(self)@[i].moved_away()).push(
                        BindingState::fresh(to, from_scope),
                    ));
                },
                None => {
                    assert(self@ =~= old(self)@.push(BindingState::fresh(to, from_scope)));
                },
            }
        }
        Ok(())
    }

    /// Starts a reference of `kind` to the value of `name`, unless it clashes
    /// with one that is active.
    pub fn borrow(&mut self, name: u64, kind: BorrowKind) -> (r: Result<(), ViolationKind>)
        requires
            old(self).wf(),
            old(self).steps() < usize::MAX,
        ensures
            final(self).wf(),
            final(self).steps() == old(self).steps() + 1,
            outcome(old(self)@, Op::Borrow { name, kind }, final(self)@, r),
    {
        self.applied = self.applied + 1;
        assert(self@ =~= old(self)@);
        match self.find(name) {
            Some(i) => {
                let b = self.bindings[i];
                match kind {
                    BorrowKind::Shared => {
                        if b.exclusive {
                            return Err(ViolationKind::ConflictingBorrow);
                        }
                        self.bindings.set(i, Binding { shared: b.shared + 1, ..b });
                    },
                    BorrowKind::Exclusive => {
                        if b.exclusive || b.shared > 0 {
                            return Err(ViolationKind::ConflictingBorrow);
                        }
                        self.bindings.set(i, Binding { exclusive: true, ..b });
                    },
                }
                assert(self@ =~= old(self)@.update(i as int, old(self)@[i as int].lent(kind)));
            },
            None => {},
        }
        Ok(())
    }

    /// Ends one reference to the value of `name`, if any is active.
    pub fn release(&mut self, name: u64)
        requires
            old(self).wf(),
            old(self).steps() < usize::MAX,
        ensures
            final(self).wf(),
            final(self).steps() == old(self).steps() + 1,
            step(old(self)@, Op::Release { name }) == Ok::<Seq<BindingState>, ViolationKind>(
                final(self)@,
            ),
    {
        self.applied = self.applied + 1;
        assert(self@ =~= old(self)@);
        match self.find(name) {
            Some(i) => {
                let b = self.bindings[i];
                if b.exclusive {
                    self.bindings.set(i, Binding { exclusive: false, ..b });
                } else if b.shared > 0 {
                    self.bindings.set(i, Binding { shared: b.shared - 1, ..b });
                }
                assert(self@ =~= old(self)@.update(i as int, old(self)@[i as int].returned()));
            },
            None => {},
        }
    }

    /// Checks a read or write of the value of `name`.
    pub fn use_value(&mut self, name: u64) -> (r: Result<(), ViolationKind>)
        requires
            old(self).wf(),
            old(self).steps() < usize::MAX,
        ensures
            final(self).wf(),
            final(self).steps() == old(self).steps() + 1,
            outcome(old(self)@, Op::Use { name }, final(self)@, r),
    {
        self.applied = self.applied + 1;
        assert(self@ =~= old(self)@);
        match self.find(name) {
            Some(i) => {
                let b = self.bindings[i];
                if b.moved {
                    Err(ViolationKind::UseAfterMove)
                } else if b.ended {
                    Err(ViolationKind::DanglingReference)
                } else {
                    Ok(())
                }
            },
            None => Ok(()),
        }
    }

    /// Ends `scope`: every value it still owns is released and the references
    /// to it are gone. Returns the names released, latest declaration first.
    pub fn end_scope(&mut self, scope: u64) -> (released: Vec<u64>)
        requires
            old(self).wf(),
            old(self).steps() < usize::MAX,
        ensures
            final(self).wf(),
            final(self).steps() == old(self).steps() + 1,
            final(self)@ == close(old(self)@, scope),
            released@ == released_names(old(self)@, scope),
    {
        self.applied = self.applied + 1;
        let mut released: Vec<u64> = Vec::new();
        let mut i: usize = self.bindings.len();
        assert(old(self)@.take(i as int) =~= old(self)@);
        while i > 0
            invariant
                i <= self.bindings@.len(),
                self.bindings@.len() == old(self).bindings@.len(),
                self.applied == old(self).applied + 1,
                forall|j: int|
                    0 <= j < self.bindings@.len() ==> (#[trigger] self.bindings@[j]).shared
                        <= self.applied,
                forall|j: int| 0 <= j < i ==> self.bindings@[j] == old(self).bindings@[j],
                forall|j: int|
                    i <= j < self.bindings@.len() ==> (#[trigger] self.bindings@[j])@ == old(
                        self,
                    )@[j].closed(scope),
                released_names(old(self)@, scope) == released@ + released_names(
                    old(self)@.take(i as int),
                    scope,
                ),
            decreases i,
        {
            let ghost before = old(self)@.take(i as int);
            i = i - 1;
            assert(before.drop_last() =~= old(self)@.take(i as int));
            assert(before.last() == old(self)@[i as int]);
            let b = self.bindings[i];
            if b.scope == scope && !b.moved {
                if !b.ended {
                    let ghost prior = released@;
                    released.push(b.name);
                    assert(released@ + released_names(old(self)@.take(i as int), scope)
                        =~= prior + (seq![b.name] + released_names(
                        old(self)@.take(i as int),
                        scope,
                    )));
                }
                self.bindings.set(i, Binding { ended: true, shared: 0, exclusive: false, ..b });
            }
        }
        assert(self@ =~= close(old(self)@, scope));
        released
    }

    /// Takes one operation: the table moves on as the model says, or stays as
    /// it was and the violation is returned.
    pub fn apply(&mut self, op: Op) -> (r: Result<(), ViolationKind>)
        requires
            old(self).wf(),
            old(self).steps() < usize::MAX,
        ensures
            final(self).wf(),
            final(self).steps() == old(self).steps() + 1,
            outcome(old(self)@, op, final(self)@, r),
    {
        match op {
            Op::Declare { name, scope } => self.declare(name, scope),
            Op::Move { name, from_scope, to } => self.move_value(name, from_scope, to),
            Op::Borrow { name, kind } => self.borrow(name, kind),
            Op::Release { name } => {
                self.release(name);
                Ok(())
            },
            Op::Use { name } => self.use_value(name),
            Op::ScopeEnd { scope } => {
                let _ = self.end_scope(scope);
                Ok(())
            },
        }
    }
}

} // verus!
