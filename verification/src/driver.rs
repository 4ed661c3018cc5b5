//! The bookkeeping of the search column by column: how many attempts are
//! left at each width, and what to do after an attempt.

use vstd::prelude::*;

verus! {

/// What the search does after an attempt at one more column.
#[derive(Clone, Copy, Debug, PartialEq, Eq, Structural)]
pub enum Action {
    /// Look for a column at the current width.
    Search,
    /// The array has all its columns.
    Done,
    /// No attempt is left.
    Fail,
}

/// The state of the search: a stack with one entry for each width from
/// the starting width up to the current one, each the number of attempts
/// left at that width.
pub struct Driver {
    base: usize,
    k: usize,
    attempts: usize,
    backtrack: bool,
    stack: Vec<usize>,
}

/// The stack after a failed attempt: the top entry loses one attempt;
/// where none was left, and going back is allowed, the top entry goes
/// and the entry below loses an attempt in turn. None where no attempt
/// is left at all.
pub open spec fn after_failure(stack: Seq<usize>, backtrack: bool) -> Option<Seq<usize>>
    decreases stack.len(),
{
    if stack.len() == 0 {
        None
    } else if stack.last() > 1 {
        Some(stack.update(stack.len() - 1, (stack.last() - 1) as usize))
    } else if backtrack {
        after_failure(stack.drop_last(), backtrack)
    } else {
        None
    }
}

impl Driver {
    /// The width at which the search starts.
    pub closed spec fn base(&self) -> nat {
        self.base as nat
    }

    /// The width to reach.
    pub closed spec fn target(&self) -> nat {
        self.k as nat
    }

    /// The number of attempts at each width.
    pub closed spec fn attempts(&self) -> nat {
        self.attempts as nat
    }

    /// Whether a width without attempts left sends the search back to the
    /// width below.
    pub closed spec fn backtracks(&self) -> bool {
        self.backtrack
    }

    /// The attempts left, from the starting width up to the current one.
    pub closed spec fn stack(&self) -> Seq<usize> {
        self.stack@
    }

    /// The current width.
    pub open spec fn width(&self) -> nat {
        (self.base() + self.stack().len() - 1) as nat
    }

    #[verifier::type_invariant]
    spec fn inv(&self) -> bool {
        &&& self.stack@.len() >= 1
        &&& self.base + self.stack@.len() - 1 <= self.k
        &&& self.attempts >= 1
        &&& forall|i: int|
            0 <= i < self.stack@.len() ==> 1 <= (#[trigger] self.stack@[i]) <= self.attempts
    }

    /// A search from width `base` to width `k`, with `attempts` attempts
    /// at each width, of which there is at least one.
    pub fn new(base: usize, k: usize, attempts: usize, backtrack: bool) -> (r: Self)
        requires
            base <= k,
            attempts >= 1,
        ensures
            r.base() == base,
            r.target() == k,
            r.attempts() == attempts,
            r.backtracks() == backtrack,
            r.stack() == seq![attempts],
    {
        let mut stack: Vec<usize> = Vec::new();
        stack.push(attempts);
        Driver { base, k, attempts, backtrack, stack }
    }

    /// The current width.
    pub fn current_width(&self) -> (r: usize)
        ensures
            r == self.width(),
            self.base() <= r <= self.target(),
            self.stack().len() >= 1,
    {
        proof {
            use_type_invariant(self);
        }
        self.base + (self.stack.len() - 1)
    }

    /// What to do first: nothing where the starting width is the width
    /// to reach.
    pub fn start(&self) -> (r: Action)
        ensures
            r == if self.width() == self.target() {
                Action::Done
            } else {
                Action::Search
            },
    {
        if self.current_width() == self.k {
            Action::Done
        } else {
            Action::Search
        }
    }

    /// Takes note of an attempt at one more column. After a column was
    /// found the search goes on at the next width, with all attempts of
    /// that width, or is done. After none was found, an attempt is lost:
    /// see `after_failure`.
    pub fn step(&mut self, found: bool) -> (r: Action)
        requires
            old(self).width() < old(self).target(),
        ensures
            final(self).base() == old(self).base(),
            final(self).target() == old(self).target(),
            final(self).attempts() == old(self).attempts(),
            final(self).backtracks() == old(self).backtracks(),
            found ==> final(self).stack() == old(self).stack().push(old(self).attempts() as usize)
                && r == if final(self).width() == final(self).target() {
                Action::Done
            } else {
                Action::Search
            },
            !found ==> match after_failure(old(self).stack(), old(self).backtracks()) {
                Some(stack) => final(self).stack() == stack && r == Action::Search,
                None => final(self).stack() == old(self).stack() && r == Action::Fail,
            },
    {
        proof {
            use_type_invariant(&*self);
        }
        if found {
            let mut stack = self.copy_stack();
            stack.push(self.attempts);
            let done = self.base + (stack.len() - 1) == self.k;
            let ghost next = stack@;
            proof {
                assert forall|i: int| 0 <= i < next.len() implies 1 <= (#[trigger] next[i])
                    <= self.attempts by {
                    if i < next.len() - 1 {
                        assert(next[i] == old(self).stack@[i]);
                    }
                }
            }
            self.stack = stack;
            return if done {
                Action::Done
            } else {
                Action::Search
            };
        }
        let mut depth: usize = self.stack.len();
        proof {
            assert(self.stack@.take(depth as int) =~= self.stack@);
        }
        while depth > 0 && self.stack[depth - 1] <= 1 && self.backtrack
            invariant
                depth <= self.stack@.len(),
                self.stack@ == old(self).stack@,
                self.backtrack == old(self).backtrack,
                forall|i: int| 0 <= i < self.stack@.len() ==> 1 <= #[trigger] self.stack@[i],
                after_failure(old(self).stack@, self.backtrack) == after_failure(
                    self.stack@.take(depth as int),
                    self.backtrack,
                ),
            decreases depth,
        {
            proof {
                assert(self.stack@.take(depth as int).drop_last() =~= self.stack@.take(depth - 1));
                assert(self.stack@.take(depth as int).last() == self.stack@[depth - 1]);
            }
            depth = depth - 1;
        }
        if depth == 0 || self.stack[depth - 1] <= 1 {
            proof {
                if depth > 0 {
                    assert(self.stack@.take(depth as int).last() == self.stack@[depth - 1]);
                }
            }
            return Action::Fail;
        }
        let mut stack = self.copy_stack();
        stack.truncate(depth);
        let left = stack[depth - 1];
        stack[depth - 1] = left - 1;
        proof {
            let kept = old(self).stack@.take(depth as int);
            assert(kept.last() == old(self).stack@[depth - 1]);
            assert(stack@ =~= kept.update(kept.len() - 1, (kept.last() - 1) as usize));
            assert forall|i: int| 0 <= i < stack@.len() implies 1 <= (#[trigger] stack@[i])
                <= self.attempts by {
                assert(1 <= old(self).stack@[i] <= self.attempts);
            }
        }
        self.stack = stack;
        Action::Search
    }

    /// A copy of the stack.
    fn copy_stack(&self) -> (r: Vec<usize>)
        ensures
            r@ == self.stack@,
    {
        let mut out: Vec<usize> = Vec::with_capacity(self.stack.len());
        let mut i: usize = 0;
        while i < self.stack.len()
            invariant
                i <= self.stack.len(),
                out@ == self.stack@.take(i as int),
            decreases self.stack.len() - i,
        {
            out.push(self.stack[i]);
            proof {
                assert(self.stack@.take(i as int).push(self.stack@[i as int]) =~= self.stack@.take(
                    i + 1,
                ));
            }
            i = i + 1;
        }
        proof {
            assert(self.stack@.take(i as int) =~= self.stack@);
        }
        out
    }
}

} // verus!
