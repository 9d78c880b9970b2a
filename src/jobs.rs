//! The job tracker: one record per background operation, created in progress
//! and moved once to a terminal state. The first terminal state written is
//! kept: a later update of a finished job is accepted and changes nothing.
use vstd::prelude::*;

verus! {

#[derive(PartialEq, Eq, Structural, Clone, Copy, Debug)]
pub enum JobState {
    InProgress,
    Succeed,
    Failed,
}

/// One background operation: what it does, its error text (empty when
/// none) and its state.
pub struct Job {
    pub id: i64,
    pub description: String,
    pub error: String,
    pub state: JobState,
}

#[derive(Debug)]
pub enum JobError {
    /// No job has the identifier asked for.
    NotFound,
    /// Every identifier has been handed out.
    Exhausted,
}

pub open spec fn has_job(jobs: Seq<Job>, id: i64) -> bool {
    exists|i: int| 0 <= i < jobs.len() && #[trigger] jobs[i].id == id
}

pub open spec fn is_terminal(s: JobState) -> bool {
    s != JobState::InProgress
}

/// The effect of updating job `id` with `error` and `state`: a job in
/// progress takes both, a finished one and the other jobs stay as they were.
pub open spec fn updated(old: Seq<Job>, new: Seq<Job>, id: i64, error: Seq<char>, state: JobState) -> bool {
    &&& !has_job(old, id) ==> new == old
    &&& forall|i: int|
        0 <= i < old.len() && #[trigger] old[i].id == id ==> {
            &&& is_terminal(old[i].state) ==> new == old
            &&& !is_terminal(old[i].state) ==> {
                &&& new == old.update(i, new[i])
                &&& new[i].id == id
                &&& new[i].description == old[i].description
                &&& new[i].error@ == error
                &&& new[i].state == state
            }
        }
}

/// The records of background operations.
pub struct JobTracker {
    jobs: Vec<Job>,
    next_id: i64,
}

impl View for JobTracker {
    type V = Seq<Job>;

    closed spec fn view(&self) -> Seq<Job> {
        self.jobs@
    }
}

impl JobTracker {
    /// Identifiers are unique, positive and below the next one to hand out.
    pub closed spec fn wf(&self) -> bool {
        &&& 1 <= self.next_id
        &&& forall|i: int| 0 <= i < self.jobs@.len() ==> 1 <= #[trigger] self.jobs@[i].id < self.next_id
        &&& forall|i: int, j: int|
            0 <= i < self.jobs@.len() && 0 <= j < self.jobs@.len() && i != j ==> #[trigger] self.jobs@[i].id
                != #[trigger] self.jobs@[j].id
    }

    /// The identifier the next job gets.
    pub closed spec fn next_id_spec(&self) -> i64 {
        self.next_id
    }

    /// A tracker with no job.
    pub fn new() -> (r: JobTracker)
        ensures
            r.wf(),
            r@.len() == 0,
            r.next_id_spec() == 1,
    {
        JobTracker { jobs: Vec::new(), next_id: 1 }
    }

    /// Records a new operation, in progress, and returns its identifier.
    pub fn add_job(&mut self, description: &str, error: &str) -> (r: Result<i64, JobError>)
        requires
            old(self).wf(),
        ensures
            final(self).wf(),
            r is Err <==> old(self).next_id_spec() == i64::MAX,
            r is Err ==> r->Err_0 is Exhausted && final(self)@ == old(self)@,
            final(self).next_id_spec() as int == if r is Ok { old(self).next_id_spec() + 1 } else { old(self).next_id_spec() as int },
            r is Ok ==> {
                &&& !has_job(old(self)@, r->Ok_0)
                &&& final(self)@.drop_last() == old(self)@
                &&& final(self)@.len() == old(self)@.len() + 1
                &&& final(self)@.last().id == r->Ok_0
                &&& final(self)@.last().description@ == description@
                &&& final(self)@.last().error@ == error@
                &&& final(self)@.last().state == JobState::InProgress
            },
    {
        if self.next_id == i64::MAX {
            return Err(JobError::Exhausted);
        }
        let id = self.next_id;
        let ghost before = self.jobs@;
        self.jobs.push(Job { id, description: description.to_owned(), error: error.to_owned(), state: JobState::InProgress });
        self.next_id = id + 1;
        proof {
            assert(self.jobs@.drop_last() =~= before);
            assert forall|k: int| 0 <= k < before.len() implies #[trigger] before[k].id != id by {}
        }
        Ok(id)
    }

    /// Sets the error text and state of a job still in progress; a finished
    /// job keeps its record.
    pub fn update_job(&mut self, id: i64, error: &str, state: JobState) -> (r: Result<(), JobError>)
        requires
            old(self).wf(),
        ensures
            final(self).wf(),
            final(self).next_id_spec() == old(self).next_id_spec(),
            r is Ok <==> has_job(old(self)@, id),
            r is Err ==> r->Err_0 is NotFound,
            updated(old(self)@, final(self)@, id, error@, state),
    {
        let mut i: usize = 0;
        while i < self.jobs.len()
            invariant
                self.next_id == old(self).next_id,
                self.wf(),
                self@ == old(self)@,
                i <= self.jobs@.len(),
                forall|k: int| 0 <= k < i ==> #[trigger] self.jobs@[k].id != id,
            decreases self.jobs@.len() - i,
        {
            if self.jobs[i].id == id {
                let ghost before = self.jobs@;
                proof {
                    assert forall|k: int| 0 <= k < before.len() && #[trigger] before[k].id == id implies k == i by {}
                }
                if self.jobs[i].state == JobState::InProgress {
                    self.jobs[i].error = error.to_owned();
                    self.jobs[i].state = state;
                    proof {
                        assert(self.jobs@ =~= before.update(i as int, self.jobs@[i as int]));
                        assert forall|a: int| 0 <= a < self.jobs@.len() implies #[trigger] self.jobs@[a].id == before[a].id by {}
                    }
                }
                return Ok(());
            }
            i += 1;
        }
        Err(JobError::NotFound)
    }

    /// The state of a job.
    pub fn state_of(&self, id: i64) -> (r: Option<JobState>)
        requires
            self.wf(),
        ensures
            !has_job(self@, id) ==> r is None,
            forall|i: int| 0 <= i < self@.len() && #[trigger] self@[i].id == id ==> r == Some(self@[i].state),
    {
        let mut i: usize = 0;
        while i < self.jobs.len()
            invariant
                self.wf(),
                i <= self.jobs@.len(),
                forall|k: int| 0 <= k < i ==> #[trigger] self.jobs@[k].id != id,
            decreases self.jobs@.len() - i,
        {
            if self.jobs[i].id == id {
                proof {
                    assert forall|k: int| 0 <= k < self.jobs@.len() && #[trigger] self.jobs@[k].id == id implies k == i by {}
                }
                return Some(self.jobs[i].state);
            }
            i += 1;
        }
        None
    }
}

} // verus!
