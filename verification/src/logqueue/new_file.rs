use vstd::prelude::*;
use std::time::Duration;
use crate::parse::duration::{duration_as_nanos, spec_duration_nanos};

verus! {

/// Why no new file could be made.
#[derive(Clone, Debug)]
pub enum NewFileGeneratorErr {
    /// Every attempt allowed failed; the errors of the attempts.
    AttemptLimit { io_erros: Vec<String> },
    /// The time allowed ran out; the errors of the attempts.
    DurationLimit { io_erros: Vec<String> },
}

/// What to do next in the search for a new file.
pub enum NewFileStep {
    /// Make the attempt: generate a path and open it.
    Attempt,
    /// Give up.
    Fail(NewFileGeneratorErr),
}

/// The search for a new file: the attempts counted so far, and the errors
/// of those that failed.
pub struct NewFileAttempts {
    pub attempt: u32,
    pub io_errors: Vec<String>,
}

impl NewFileAttempts {
    /// A search that has made no attempt.
    pub fn new() -> (r: Self)
        ensures
            r.attempt == 0,
            r.io_errors@.len() == 0,
    {
        NewFileAttempts { attempt: 0, io_errors: Vec::new() }
    }

    /// Counts the next attempt and decides whether to make it: not past
    /// `max_attemps` attempts, nor once `elapsed` exceeds `max_duration`.
    /// Where it gives up, it hands over the errors met so far.
    pub fn begin_attempt(&mut self, max_attemps: Option<u32>, max_duration: Option<Duration>, elapsed: Duration) -> (r: NewFileStep)
        requires
            old(self).attempt < u32::MAX,
        ensures
            final(self).attempt == old(self).attempt + 1,
            (max_attemps matches Some(c) && final(self).attempt > c) ==> (r matches NewFileStep::Fail(
                NewFileGeneratorErr::AttemptLimit { io_erros },
            ) && io_erros@ == old(self).io_errors@),
            !(max_attemps matches Some(c) && final(self).attempt > c) && (max_duration matches Some(d)
                && spec_duration_nanos(elapsed) > spec_duration_nanos(d)) ==> (r matches NewFileStep::Fail(
                NewFileGeneratorErr::DurationLimit { io_erros },
            ) && io_erros@ == old(self).io_errors@),
            !(max_attemps matches Some(c) && final(self).attempt > c) && !(max_duration matches Some(d)
                && spec_duration_nanos(elapsed) > spec_duration_nanos(d)) ==> (r matches NewFileStep::Attempt
                && final(self).io_errors@ == old(self).io_errors@),
    {
        self.attempt = self.attempt + 1;
        let over_count = match max_attemps {
            Some(c) => self.attempt > c,
            None => false,
        };
        if over_count {
            let mut errs: Vec<String> = Vec::new();
            std::mem::swap(&mut errs, &mut self.io_errors);
            return NewFileStep::Fail(NewFileGeneratorErr::AttemptLimit { io_erros: errs });
        }
        let over_time = match &max_duration {
            Some(d) => duration_as_nanos(&elapsed) > duration_as_nanos(d),
            None => false,
        };
        if over_time {
            let mut errs: Vec<String> = Vec::new();
            std::mem::swap(&mut errs, &mut self.io_errors);
            return NewFileStep::Fail(NewFileGeneratorErr::DurationLimit { io_erros: errs });
        }
        NewFileStep::Attempt
    }

    /// Records the error of a failed attempt.
    pub fn attempt_failed(&mut self, error: String)
        ensures
            final(self).attempt == old(self).attempt,
            final(self).io_errors@ == old(self).io_errors@.push(error),
    {
        self.io_errors.push(error);
    }
}

} // verus!
