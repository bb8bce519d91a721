//! The decisions of a solving session: each candidate the solver yields
//! replaces the retained schedule, and the session ends when the solver
//! reports that no candidate is left.
use vstd::prelude::*;
use crate::atom::AtomError;
use crate::schedule::{first_error, texts, Dates};

verus! {

/// Why a candidate solution could not be turned into a schedule.
#[derive(Clone, Copy, Debug, PartialEq, Eq, Structural)]
pub enum DriveError {
    /// The candidate's cost vector does not hold exactly one value.
    CostShape,
    /// One of the candidate's atoms is malformed.
    Atom(AtomError),
}

/// A candidate solution as the solver reports it: its shown atoms as text,
/// and its cost vector.
pub struct Candidate {
    pub atoms: Vec<String>,
    pub costs: Vec<i64>,
}

/// What the solver reported after being resumed.
pub enum Event {
    /// A new candidate solution.
    Model(Candidate),
    /// No further candidate exists.
    Exhausted,
}

/// What to do with the solver next.
#[derive(Clone, Copy, Debug, PartialEq, Eq, Structural)]
pub enum Action {
    /// Resume the search for the next candidate.
    Resume,
    /// Retrieve the result and close the session.
    Finalize,
}

/// The defect of a candidate with the given atoms and cost vector, if any:
/// first the shape of the cost vector, then the first malformed atom.
pub open spec fn candidate_error(atoms: Seq<Seq<char>>, costs: Seq<i64>) -> Option<DriveError> {
    if costs.len() != 1 {
        Some(DriveError::CostShape)
    } else {
        match first_error(atoms) {
            Some(e) => Some(DriveError::Atom(e)),
            None => None,
        }
    }
}

/// The defect of candidate `c`, if any.
pub open spec fn error_of(c: Candidate) -> Option<DriveError> {
    candidate_error(texts(c.atoms@), c.costs@)
}

/// Whether `d` is the schedule of candidate `c`.
pub open spec fn schedule_of(d: Dates, c: Candidate) -> bool {
    &&& c.costs@.len() == 1
    &&& d.score() == c.costs@[0]
    &&& d.built_from(texts(c.atoms@))
}

/// Turns a candidate's atoms and cost vector into its schedule.
pub fn model_to_string(atoms: Vec<String>, costs: &Vec<i64>) -> (r: Result<Dates, DriveError>)
    ensures
        match r {
            Ok(d) => candidate_error(texts(atoms@), costs@) is None && d.score() == costs@[0]
                && d.built_from(texts(atoms@)),
            Err(e) => candidate_error(texts(atoms@), costs@) == Some(e),
        },
{
    if costs.len() != 1 {
        return Err(DriveError::CostShape);
    }
    match Dates::from_score_and_vec_of_string(costs[0], atoms) {
        Ok(d) => Ok(d),
        Err(e) => Err(DriveError::Atom(e)),
    }
}

/// The state of a solving session: the schedule retained so far, and
/// whether the session has ended.
pub struct Driver {
    best: Option<Dates>,
    finished: bool,
}

impl Driver {
    /// The schedule retained so far.
    pub closed spec fn best(&self) -> Option<Dates> {
        self.best
    }

    /// Whether the session has ended, by exhaustion or by a defect.
    pub closed spec fn is_finished(&self) -> bool {
        self.finished
    }

    /// A session that has retained nothing yet.
    pub fn new() -> (r: Driver)
        ensures
            r.best() is None,
            !r.is_finished(),
    {
        Driver { best: None, finished: false }
    }

    /// Handles what the solver reported: a candidate replaces the retained
    /// schedule unconditionally and the search resumes; exhaustion ends the
    /// session; a malformed candidate ends it with an error.
    pub fn step(&mut self, event: Event) -> (r: Result<Action, DriveError>)
        requires
            !old(self).is_finished(),
        ensures
            match event {
                Event::Exhausted => r == Ok::<Action, DriveError>(Action::Finalize)
                    && final(self).best() == old(self).best() && final(self).is_finished(),
                Event::Model(c) => match r {
                    Ok(a) => a == Action::Resume && error_of(c) is None
                        && !final(self).is_finished() && (final(self).best() matches Some(d)
                        && schedule_of(d, c)),
                    Err(e) => error_of(c) == Some(e) && final(self).is_finished(),
                },
            },
    {
        match event {
            Event::Exhausted => {
                self.finished = true;
                Ok(Action::Finalize)
            },
            Event::Model(c) => {
                let Candidate { atoms, costs } = c;
                match model_to_string(atoms, &costs) {
                    Ok(d) => {
                        self.best = Some(d);
                        Ok(Action::Resume)
                    },
                    Err(e) => {
                        self.finished = true;
                        Err(e)
                    },
                }
            },
        }
    }

    /// Ends the session, handing over the retained schedule.
    pub fn into_best(self) -> (r: Option<Dates>)
        ensures
            r == self.best(),
    {
        self.best
    }
}

/// The defect of the first malformed candidate among `cands`, if any.
pub open spec fn first_defect(cands: Seq<Candidate>) -> Option<DriveError>
    decreases cands.len(),
{
    if cands.len() == 0 {
        None
    } else {
        match first_defect(cands.drop_last()) {
            Some(e) => Some(e),
            None => error_of(cands.last()),
        }
    }
}

proof fn lemma_first_defect_extends(cands: Seq<Candidate>, k: int)
    requires
        0 <= k <= cands.len(),
        first_defect(cands.subrange(0, k)) is Some,
    ensures
        first_defect(cands) == first_defect(cands.subrange(0, k)),
    decreases cands.len() - k,
{
    if k < cands.len() {
        assert(cands.subrange(0, k + 1).drop_last() == cands.subrange(0, k));
        lemma_first_defect_extends(cands, k + 1);
    } else {
        assert(cands.subrange(0, k) == cands);
    }
}

/// Runs a session over the candidates a solver yields, in order, followed
/// by exhaustion: the result is the schedule of the last candidate, or
/// nothing when there was none; the first malformed candidate ends the
/// session with its defect.
pub fn retain_best(candidates: Vec<Candidate>) -> (r: Result<Option<Dates>, DriveError>)
    ensures
        match r {
            Ok(None) => candidates@.len() == 0,
            Ok(Some(d)) => candidates@.len() > 0 && first_defect(candidates@) is None
                && schedule_of(d, candidates@.last()),
            Err(e) => first_defect(candidates@) == Some(e),
        },
{
    let ghost all = candidates@;
    let n: usize = candidates.len();
    let mut rest = candidates;
    let mut driver = Driver::new();
    let mut k: usize = 0;
    while rest.len() > 0
        invariant
            k + rest@.len() == all.len(),
            n == all.len(),
            all == candidates@,
            rest@ == all.subrange(k as int, all.len() as int),
            first_defect(all.subrange(0, k as int)) is None,
            !driver.is_finished(),
            k == 0 ==> driver.best() is None,
            k > 0 ==> (driver.best() matches Some(d) && schedule_of(d, all[k - 1])),
        decreases rest@.len(),
    {
        let c = rest.remove(0);
        assert(c == all[k as int]);
        let ghost cur = all.subrange(0, k + 1);
        assert(cur.drop_last() == all.subrange(0, k as int));
        assert(cur.last() == c);
        match driver.step(Event::Model(c)) {
            Ok(_) => {},
            Err(e) => {
                proof {
                    lemma_first_defect_extends(all, k + 1);
                }
                return Err(e);
            },
        }
        k = k + 1;
        assert(rest@ =~= all.subrange(k as int, all.len() as int));
    }
    assert(all.subrange(0, k as int) == all);
    let _ = driver.step(Event::Exhausted);
    Ok(driver.into_best())
}

} // verus!
