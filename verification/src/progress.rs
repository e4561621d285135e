//! How far a driver has come with what it was asked for.
use crate::types::InternalError;
use vstd::prelude::*;

verus! {

/// Who is told of steps as they are taken. What was told is for each type to say: one
/// that the proofs do not reach leaves it unsaid.
pub trait Report {
    /// The steps that were told and taken note of. Each counts for one of so many parts
    /// of the whole.
    open spec fn told(&self) -> Seq<usize> {
        Seq::empty()
    }

    /// Nobody took note of the last step that was told.
    open spec fn is_gone(&self) -> bool {
        true
    }

    /// A step has been taken, which counts for one of so many parts of the whole. Gives
    /// whether anybody took note of it.
    fn report(&mut self, parts: usize) -> (noted: bool)
        ensures
            noted == !final(self).is_gone(),
            final(self).told() == if noted {
                old(self).told().push(parts)
            } else {
                old(self).told()
            },
    ;
}

/// A list takes note of every step.
impl Report for Vec<usize> {
    open spec fn told(&self) -> Seq<usize> {
        self@
    }

    open spec fn is_gone(&self) -> bool {
        false
    }

    fn report(&mut self, parts: usize) -> (noted: bool) {
        self.push(parts);
        true
    }
}

/// The progress of a driver. Each step that it takes counts for one part of the whole,
/// and [`Progress::set_step`] says in how many parts the whole is divided from then on.
/// The share of the whole that the steps add up to, at most all of it, is what is
/// reported after each of them.
pub struct Progress<R> {
    /// In how many parts the whole is divided.
    pub step: usize,
    /// Who is told of the steps.
    pub to: R,
}

/// `n` steps of which each counts for one of so many parts.
pub open spec fn steps(parts: usize, n: int) -> Seq<usize> {
    Seq::new(n as nat, |i: int| parts)
}

/// The whole was divided in so many parts, and the next steps, `n` of them, were all
/// told and taken note of.
pub open spec fn told_all<R: Report>(
    before: Progress<R>,
    after: Progress<R>,
    parts: usize,
    n: int,
) -> bool {
    &&& after.step == parts
    &&& after.to.told() == before.to.told() + steps(parts, n)
    &&& !after.to.is_gone()
}

/// The whole was divided in so many parts, and the next `n` steps were told, but nobody
/// took note of the one after them.
pub open spec fn stopped<R: Report>(
    before: Progress<R>,
    after: Progress<R>,
    parts: usize,
    n: int,
) -> bool {
    &&& after.step == parts
    &&& after.to.told() == before.to.told() + steps(parts, n)
    &&& after.to.is_gone()
}

impl Progress<Vec<usize>> {
    /// No step is taken, and each will count for a tenth. They are kept in a list.
    pub fn new() -> (progress: Progress<Vec<usize>>)
        ensures
            progress.step == 10,
            progress.to@ == Seq::<usize>::empty(),
    {
        Progress::telling(Vec::new())
    }
}

impl<R: Report> Progress<R> {
    /// No step is taken, and each will count for a tenth.
    pub fn telling(to: R) -> (progress: Progress<R>)
        ensures
            progress.step == 10,
            progress.to == to,
    {
        Progress { step: 10, to }
    }

    /// Divides the whole in `count` parts, but at least in one.
    pub fn set_step(&mut self, count: usize)
        ensures
            final(self).step == if count == 0 {
                1
            } else {
                count
            },
            final(self).to == old(self).to,
    {
        self.step = if count == 0 {
            1
        } else {
            count
        };
    }

    /// Takes one step, and tells of it. Where nobody takes note of it, there is no use
    /// in going on.
    pub fn step(&mut self) -> (result: Result<(), InternalError>)
        ensures
            final(self).step == old(self).step,
            match result {
                Ok(_) => {
                    &&& final(self).to.told() == old(self).to.told().push(old(self).step)
                    &&& !final(self).to.is_gone()
                },
                Err(e) => {
                    &&& e == InternalError::SendError
                    &&& final(self).to.told() == old(self).to.told()
                    &&& final(self).to.is_gone()
                },
            },
    {
        if self.to.report(self.step) {
            Ok(())
        } else {
            Err(InternalError::SendError)
        }
    }
}

/// Work that was done to its end told of so many steps more than before, which all count
/// for one of so many parts, and somebody took note of the last. Work that was stopped
/// told of those, and nobody took note of the next.
pub proof fn every_step_counts_for_one_part<R: Report>(
    before: Progress<R>,
    after: Progress<R>,
    parts: usize,
    n: int,
)
    requires
        n >= 0,
        told_all(before, after, parts, n) || stopped(before, after, parts, n),
    ensures
        after.to.told().len() == before.to.told().len() + n,
        before.to.told().is_prefix_of(after.to.told()),
        forall|i: int|
            before.to.told().len() <= i < after.to.told().len() ==> #[trigger] after.to.told()[i]
                == parts,
        told_all(before, after, parts, n) <==> !after.to.is_gone(),
        stopped(before, after, parts, n) <==> after.to.is_gone(),
{
    assert(after.to.told().take(before.to.told().len() as int) =~= before.to.told());
}

} // verus!
