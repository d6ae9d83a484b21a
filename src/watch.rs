//! The decisions of the change-tracking loop. The caller sleeps, reads the
//! file's modification time and bytes, and writes the mirror and the log;
//! this module says what to do next and keeps the counters.
use vstd::prelude::*;
use crate::diff::{Change, diff, models};
use crate::doc::Json;

verus! {

/// What a look at the watched file found.
#[derive(Debug, Clone, Copy, PartialEq, Eq, Structural)]
pub enum Observation {
    /// The file does not exist.
    Absent,
    /// The file exists with this modification time, in nanoseconds.
    Modified(u128),
}

/// What the loop does after a check.
#[derive(Debug, Clone, Copy, PartialEq, Eq, Structural)]
pub enum Step {
    /// Nothing changed: sleep and check again.
    Idle,
    /// The file changed: read it, decode it and compare it with the baseline.
    Decode,
    /// The file is gone: tell the user, sleep and check again.
    Missing,
}

/// The state that lives as long as the process.
#[derive(Debug, Clone, Copy, PartialEq, Eq, Structural)]
pub struct WatchState {
    /// The modification time of the last decoded file, unset at start and
    /// whenever the file disappears.
    pub last_modified: Option<u128>,
    /// How many batches of changes were reported.
    pub change_counter: u64,
}

impl WatchState {
    /// The next state and step after a check that found `obs`.
    pub open spec fn check_spec(self, obs: Observation) -> (WatchState, Step) {
        match obs {
            Observation::Absent => (WatchState { last_modified: None, ..self }, Step::Missing),
            Observation::Modified(t) => if self.last_modified == Some(t) {
                (self, Step::Idle)
            } else {
                (self, Step::Decode)
            },
        }
    }

    /// The state at process start: no time seen, no change reported.
    pub fn new() -> (r: WatchState)
        ensures
            r.last_modified is None,
            r.change_counter == 0,
    {
        WatchState { last_modified: None, change_counter: 0 }
    }

    /// Decides what to do after looking at the file.
    pub fn check(&mut self, obs: Observation) -> (r: Step)
        ensures
            (*final(self), r) == old(self).check_spec(obs),
    {
        match obs {
            Observation::Absent => {
                self.last_modified = None;
                Step::Missing
            },
            Observation::Modified(t) => match self.last_modified {
                Some(seen) => if seen == t {
                    Step::Idle
                } else {
                    Step::Decode
                },
                None => Step::Decode,
            },
        }
    }

    /// The file disappeared between the check and the read: forget its time,
    /// so that its return counts as a change. Counter and baseline stay.
    pub fn vanished(&mut self)
        ensures
            final(self).last_modified is None,
            final(self).change_counter == old(self).change_counter,
    {
        self.last_modified = None;
    }

    /// Records that the file with modification time `t` was decoded and its
    /// text persisted. When the comparison found changes, the counter goes
    /// up by one (it stays at its maximum) and the number of the batch is
    /// returned.
    pub fn persisted(&mut self, t: u128, changed: bool) -> (r: Option<u64>)
        ensures
            final(self).last_modified == Some(t),
            changed ==> final(self).change_counter == (if old(self).change_counter == u64::MAX {
                u64::MAX as int
            } else {
                old(self).change_counter + 1
            }) && r == Some(final(self).change_counter),
            !changed ==> final(self).change_counter == old(self).change_counter && r is None,
    {
        self.last_modified = Some(t);
        if changed {
            if self.change_counter < u64::MAX {
                self.change_counter = self.change_counter + 1;
            }
            Some(self.change_counter)
        } else {
            None
        }
    }
}

/// Two checks in a row that see the time of the last decoded file start no
/// decode and leave the state as it was.
pub proof fn lemma_unchanged_time_is_idle(s: WatchState, t: u128)
    requires
        s.last_modified == Some(t),
    ensures
        ({
            let (s1, a1) = s.check_spec(Observation::Modified(t));
            let (s2, a2) = s1.check_spec(Observation::Modified(t));
            a1 == Step::Idle && a2 == Step::Idle && s1 == s && s2 == s
        }),
{
}

/// The changes to report between the baseline and the newly decoded
/// document. Where either text did not parse, the caller passes `None` and
/// nothing is compared.
pub fn changes_between(baseline: Option<&Json>, current: Option<&Json>) -> (r: Vec<Change>)
    ensures
        match (baseline, current) {
            (Some(b), Some(c)) => models(r@) == diff(Seq::<char>::empty(), b.model(), c.model()),
            _ => r@.len() == 0,
        },
{
    match (baseline, current) {
        (Some(b), Some(c)) => {
            proof {
                reveal_strlit("");
            }
            assert(""@ =~= Seq::<char>::empty());
            crate::diff::compare("", b, c)
        },
        _ => Vec::new(),
    }
}

} // verus!
