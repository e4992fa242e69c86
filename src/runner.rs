//! The reconciliation runner's decisions: for each property in order, check,
//! apply only when the check says the property does not hold, count the
//! failures, and report them together at the end. Checking and applying are
//! done by the caller, which hands each outcome back.
use vstd::prelude::*;

verus! {

/// How one property fared in a run.
#[derive(Debug, Clone, Copy, PartialEq, Eq, Structural)]
pub enum Outcome {
    /// The check found the property already holding.
    Satisfied,
    /// The check found it not holding, and applying it succeeded.
    Applied,
    /// The check itself failed; nothing was applied.
    CheckFailed,
    /// Applying it failed.
    ApplyFailed,
}

/// The outcome counts as a failure.
pub open spec fn is_failure(o: Outcome) -> bool {
    o is CheckFailed || o is ApplyFailed
}

/// The number of failures among `os`.
pub open spec fn count_failures(os: Seq<Outcome>) -> nat
    decreases os.len(),
{
    if os.len() == 0 {
        0
    } else {
        count_failures(os.drop_last()) + if is_failure(os.last()) {
            1nat
        } else {
            0nat
        }
    }
}

/// What the caller is to do next for the current property.
#[derive(Debug, Clone, Copy, PartialEq, Eq, Structural)]
pub enum Next {
    /// Apply it, then report with `on_apply`.
    Apply,
    /// Go on to the next property.
    Advance,
}

/// A run that failed: `failed` of `total` properties failed.
#[derive(Debug, Clone, Copy, PartialEq, Eq, Structural)]
pub struct RunFailure {
    pub failed: usize,
    pub total: usize,
}

/// The state of a run over `total` properties.
pub struct Runner {
    total: usize,
    done: usize,
    failed: usize,
    awaiting_apply: bool,
    outcomes: Ghost<Seq<Outcome>>,
}

impl Runner {
    /// The outcomes of the properties finished so far, in order.
    pub closed spec fn outcomes(&self) -> Seq<Outcome> {
        self.outcomes@
    }

    /// The number of properties in the run.
    pub closed spec fn total(&self) -> nat {
        self.total as nat
    }

    /// The current property was checked and found not holding; its apply
    /// outcome is awaited.
    pub closed spec fn awaiting_apply(&self) -> bool {
        self.awaiting_apply
    }

    pub closed spec fn wf(&self) -> bool {
        &&& self.done == self.outcomes@.len()
        &&& self.done <= self.total
        &&& self.failed == count_failures(self.outcomes@)
        &&& self.failed <= self.done
        &&& self.awaiting_apply ==> self.done < self.total
    }

    /// A run over `total` properties, none done yet.
    pub fn new(total: usize) -> (r: Runner)
        ensures
            r.wf(),
            r.total() == total,
            r.outcomes() == Seq::<Outcome>::empty(),
            !r.awaiting_apply(),
    {
        Runner { total, done: 0, failed: 0, awaiting_apply: false, outcomes: Ghost(Seq::empty()) }
    }

    /// Whether every property has been handled.
    pub fn finished(&self) -> (r: bool)
        requires
            self.wf(),
        ensures
            r == (self.outcomes().len() == self.total() && !self.awaiting_apply()),
    {
        self.done == self.total && !self.awaiting_apply
    }

    /// The outcome of checking the current property: holding (`Ok(true)`),
    /// not holding (`Ok(false)`), or the check failed (`Err`). Only a property
    /// that does not hold is applied.
    pub fn on_check(&mut self, checked: Result<bool, ()>) -> (next: Next)
        requires
            old(self).wf(),
            !old(self).awaiting_apply(),
            old(self).outcomes().len() < old(self).total(),
        ensures
            final(self).wf(),
            final(self).total() == old(self).total(),
            next == (if checked == Ok::<bool, ()>(false) {
                Next::Apply
            } else {
                Next::Advance
            }),
            final(self).awaiting_apply() == (next == Next::Apply),
            final(self).outcomes() == match checked {
                Ok(true) => old(self).outcomes().push(Outcome::Satisfied),
                Ok(false) => old(self).outcomes(),
                Err(_) => old(self).outcomes().push(Outcome::CheckFailed),
            },
    {
        match checked {
            Ok(true) => {
                self.outcomes = Ghost(self.outcomes@.push(Outcome::Satisfied));
                self.done = self.done + 1;
                assert(self.outcomes@.drop_last() =~= old(self).outcomes@);
                Next::Advance
            },
            Ok(false) => {
                self.awaiting_apply = true;
                Next::Apply
            },
            Err(_) => {
                self.outcomes = Ghost(self.outcomes@.push(Outcome::CheckFailed));
                self.done = self.done + 1;
                self.failed = self.failed + 1;
                assert(self.outcomes@.drop_last() =~= old(self).outcomes@);
                Next::Advance
            },
        }
    }

    /// The outcome of applying the current property.
    pub fn on_apply(&mut self, applied: bool)
        requires
            old(self).wf(),
            old(self).awaiting_apply(),
        ensures
            final(self).wf(),
            final(self).total() == old(self).total(),
            !final(self).awaiting_apply(),
            final(self).outcomes() == old(self).outcomes().push(
                if applied {
                    Outcome::Applied
                } else {
                    Outcome::ApplyFailed
                },
            ),
    {
        let o = if applied {
            Outcome::Applied
        } else {
            Outcome::ApplyFailed
        };
        self.outcomes = Ghost(self.outcomes@.push(o));
        self.done = self.done + 1;
        if !applied {
            self.failed = self.failed + 1;
        }
        self.awaiting_apply = false;
        assert(self.outcomes@.drop_last() =~= old(self).outcomes@);
    }

    /// The result of the whole run: success when no property failed, else
    /// the number that failed and the total.
    pub fn finish(&self) -> (r: Result<(), RunFailure>)
        requires
            self.wf(),
        ensures
            count_failures(self.outcomes()) == 0 ==> r is Ok,
            count_failures(self.outcomes()) > 0 ==> r == Err::<(), RunFailure>(
                RunFailure { failed: count_failures(self.outcomes()) as usize, total: self.total() as usize },
            ),
    {
        if self.failed > 0 {
            Err(RunFailure { failed: self.failed, total: self.total })
        } else {
            Ok(())
        }
    }
}

/// The failures of a run are counted one by one, wherever they stand: the
/// count over two parts of a run is the sum of the counts, and a run whose
/// failing properties are exactly those of a set `k` of positions has
/// `k.len()` failures, so that the run fails exactly when `k` is not empty.
pub proof fn lemma_failures_counted(os: Seq<Outcome>, more: Seq<Outcome>, k: Set<int>)
    requires
        forall|i: int| #[trigger] k.contains(i) <==> 0 <= i < os.len() && is_failure(os[i]),
    ensures
        count_failures(os + more) == count_failures(os) + count_failures(more),
        count_failures(os) == k.len(),
        (count_failures(os) > 0) == (k.len() > 0),
    decreases os.len(),
{
    lemma_count_add(os, more);
    lemma_count_positions(os, k);
}

proof fn lemma_count_add(os: Seq<Outcome>, more: Seq<Outcome>)
    ensures
        count_failures(os + more) == count_failures(os) + count_failures(more),
    decreases more.len(),
{
    if more.len() == 0 {
        assert(os + more =~= os);
    } else {
        lemma_count_add(os, more.drop_last());
        assert((os + more).drop_last() =~= os + more.drop_last());
        assert((os + more).last() == more.last());
    }
}

proof fn lemma_count_positions(os: Seq<Outcome>, k: Set<int>)
    requires
        forall|i: int| #[trigger] k.contains(i) <==> 0 <= i < os.len() && is_failure(os[i]),
    ensures
        count_failures(os) == k.len(),
        k.finite(),
    decreases os.len(),
{
    if os.len() == 0 {
        assert(k =~= Set::<int>::empty());
    } else {
        let n = os.len() - 1;
        let k2 = k.remove(n);
        assert forall|i: int| #[trigger] k2.contains(i) <==> 0 <= i < os.drop_last().len()
            && is_failure(os.drop_last()[i]) by {
            if 0 <= i < n {
                assert(os.drop_last()[i] == os[i]);
            }
        }
        lemma_count_positions(os.drop_last(), k2);
        if is_failure(os.last()) {
            assert(k.contains(n));
            assert(k =~= k2.insert(n));
        } else {
            assert(k =~= k2);
        }
    }
}

} // verus!
