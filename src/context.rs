//! Cancellation contexts: a tree of "stop now" flags.
use vstd::prelude::*;

verus! {

/// A cancellation signal with the contexts derived from it.
pub struct Context {
    done: bool,
    deadline: Option<u64>,
    children: Vec<Context>,
}

impl Context {
    /// This node's own flag.
    pub closed spec fn done(&self) -> bool {
        self.done
    }

    /// The clock reading at which `expire` cancels this context, if any.
    pub closed spec fn deadline(&self) -> Option<u64> {
        self.deadline
    }

    /// This context's deadline has passed at clock reading `now`.
    pub open spec fn due(&self, now: u64) -> bool {
        self.deadline() matches Some(d) && d <= now
    }

    /// `self` is what `expire(now)` leaves of `before`: every context whose deadline
    /// has passed is cancelled with all that derives from it, and no other flag moves.
    pub open spec fn expired_from(&self, before: Context, now: u64) -> bool
        decreases before,
    {
        &&& self.children().len() == before.children().len()
        &&& if before.due(now) {
            self.cancelled_from(before)
        } else {
            &&& self.done() == before.done()
            &&& forall|i: int|
                0 <= i < before.children().len() ==> (#[trigger] self.children()[i]).expired_from(
                    before.children()[i],
                    now,
                )
        }
    }

    /// `self` is `before` with the flag of every context of the tree set; the
    /// deadlines and the shape of the tree are kept.
    pub open spec fn cancelled_from(&self, before: Context) -> bool
        decreases before,
    {
        &&& self.done()
        &&& self.deadline() == before.deadline()
        &&& self.children().len() == before.children().len()
        &&& forall|i: int|
            0 <= i < before.children().len() ==> (#[trigger] self.children()[i]).cancelled_from(
                before.children()[i],
            )
    }

    /// The two trees have the same shape, flags and deadlines.
    pub open spec fn same_state(&self, other: Context) -> bool
        decreases other,
    {
        &&& self.done() == other.done()
        &&& self.deadline() == other.deadline()
        &&& self.children().len() == other.children().len()
        &&& forall|i: int|
            0 <= i < other.children().len() ==> (#[trigger] self.children()[i]).same_state(
                other.children()[i],
            )
    }

    /// The contexts derived from this one, in order of derivation.
    pub closed spec fn children(&self) -> Seq<Context> {
        self.children@
    }

    /// This context and every context derived from it, at any depth, are done.
    pub open spec fn all_done(&self) -> bool
        decreases self,
    {
        &&& self.done()
        &&& forall|i: int|
            0 <= i < self.children().len() ==> (#[trigger] self.children()[i]).all_done()
    }

    /// A fresh root context: not done, with no children.
    pub fn new() -> (r: Context)
        ensures
            !r.done(),
            r.children().len() == 0,
            r.deadline() is None,
    {
        Context { done: false, deadline: None, children: Vec::new() }
    }

    /// Derives a child context and returns its index among this context's children.
    /// Nothing is cancelled.
    pub fn with_cancel(&mut self) -> (idx: usize)
        requires
            old(self).children().len() < usize::MAX,
        ensures
            idx == old(self).children().len(),
            final(self).done() == old(self).done(),
            final(self).deadline() == old(self).deadline(),
            final(self).children() == old(self).children().push(final(self).children()[idx as int]),
            !final(self).children()[idx as int].done(),
            final(self).children()[idx as int].deadline() is None,
            final(self).children()[idx as int].children().len() == 0,
    {
        let idx = self.children.len();
        self.children.push(Context::new());
        idx
    }

    /// Derives a child context that `expire` cancels once the clock reaches
    /// `deadline`, and returns its index among this context's children.
    pub fn with_deadline(&mut self, deadline: u64) -> (idx: usize)
        requires
            old(self).children().len() < usize::MAX,
        ensures
            idx == old(self).children().len(),
            final(self).done() == old(self).done(),
            final(self).deadline() == old(self).deadline(),
            final(self).children() == old(self).children().push(final(self).children()[idx as int]),
            !final(self).children()[idx as int].done(),
            final(self).children()[idx as int].deadline() == Some(deadline),
            final(self).children()[idx as int].children().len() == 0,
    {
        let idx = self.children.len();
        self.children.push(Context { done: false, deadline: Some(deadline), children: Vec::new() });
        idx
    }

    /// Cancels, at clock reading `now`, every context of this tree whose deadline
    /// has passed, together with the contexts derived from it.
    pub fn expire(&mut self, now: u64)
        ensures
            final(self).expired_from(*old(self), now),
        decreases *old(self),
    {
        match self.deadline {
            Some(d) => {
                if d <= now {
                    self.cancel();
                    return;
                }
            },
            None => {},
        }
        let mut i: usize = 0;
        while i < self.children.len()
            invariant
                self.done == old(self).done,
                self.deadline == old(self).deadline,
                !old(self).due(now),
                self.children.len() == old(self).children.len(),
                i <= self.children.len(),
                forall|j: int| 0 <= j < i ==> (#[trigger] self.children@[j]).expired_from(old(self).children@[j], now),
                forall|j: int| i <= j < self.children.len() ==> #[trigger] self.children@[j] == old(self).children@[j],
            decreases self.children.len() - i,
        {
            proof {
                assert(decreases_to!(*old(self) => old(self).children@[i as int]));
            }
            self.children[i].expire(now);
            i = i + 1;
        }
    }

    /// The child derived at index `idx`.
    pub fn child(&self, idx: usize) -> (c: &Context)
        requires
            idx < self.children().len(),
        ensures
            *c == self.children()[idx as int],
    {
        &self.children[idx]
    }

    /// The child derived at index `idx`, to cancel or derive from on its own.
    pub fn child_mut(&mut self, idx: usize) -> (c: &mut Context)
        requires
            idx < old(self).children().len(),
        ensures
            *c == old(self).children()[idx as int],
            final(self).done() == old(self).done(),
            final(self).deadline() == old(self).deadline(),
            final(self).children() == old(self).children().update(idx as int, *final(c)),
    {
        &mut self.children[idx]
    }

    /// Non-blocking read of this context's own flag.
    pub fn is_done(&self) -> (r: bool)
        ensures
            r == self.done(),
    {
        self.done
    }

    /// Marks this context done, and with it every context derived from it.
    pub fn cancel(&mut self)
        ensures
            final(self).all_done(),
            final(self).cancelled_from(*old(self)),
        decreases *old(self),
    {
        self.done = true;
        let mut i: usize = 0;
        while i < self.children.len()
            invariant
                self.done,
                self.deadline == old(self).deadline,
                self.children.len() == old(self).children.len(),
                i <= self.children.len(),
                forall|j: int| 0 <= j < i ==> (#[trigger] self.children@[j]).all_done()
                    && self.children@[j].cancelled_from(old(self).children@[j]),
                forall|j: int| i <= j < self.children.len() ==> #[trigger] self.children@[j] == old(self).children@[j],
            decreases self.children.len() - i,
        {
            proof {
                assert(decreases_to!(*old(self) => old(self).children@[i as int]));
            }
            self.children[i].cancel();
            i = i + 1;
        }
    }
}

/// Cancelling a tree that is already cancelled changes nothing.
pub proof fn lemma_cancel_twice(before: Context, after: Context)
    requires
        before.all_done(),
        after.cancelled_from(before),
    ensures
        after.same_state(before),
    decreases before,
{
    assert forall|i: int| 0 <= i < before.children().len() implies (#[trigger] after.children()[i]).same_state(
        before.children()[i],
    ) by {
        assert(decreases_to!(before => before.children()[i]));
        lemma_cancel_twice(before.children()[i], after.children()[i]);
    }
}

/// Along any run of calls each of which keeps a done flag set (as `cancel`,
/// `with_cancel`, `with_deadline`, `expire` and `child_mut` on another child all
/// do), a context that was once done is done in every later state.
pub proof fn lemma_done_never_reverts(states: Seq<Context>, from: int)
    requires
        0 <= from < states.len(),
        states[from].done(),
        forall|i: int| 0 <= i < states.len() - 1 && #[trigger] states[i].done() ==> states[i + 1].done(),
    ensures
        forall|i: int| from <= i < states.len() ==> #[trigger] states[i].done(),
    decreases states.len() - from,
{
    if from + 1 < states.len() {
        assert(states[from + 1].done());
        lemma_done_never_reverts(states, from + 1);
    }
}

/// A context that is done stays done when deadlines expire.
pub proof fn lemma_expire_keeps_done(before: Context, after: Context, now: u64)
    requires
        after.expired_from(before, now),
        before.done(),
    ensures
        after.done(),
{
}

} // verus!
