//! The sensing schedule: for every agent at most one sensing job at a time,
//! and the latest finished reading kept until a newer one arrives. The
//! schedule decides; whoever runs the jobs looks into each job's result slot
//! without blocking and starts the jobs it is told to start.

use vstd::prelude::*;
use crate::agent::Agent2DMeasurements;
use crate::scene::AgentId;
use crate::sensors::TimeStamped;
use crate::sensors::lidar::Lidar2DSensed;
use crate::store::{
    WorkerStore, store_workers, workers_contains, workers_insert, workers_new, workers_reading,
    workers_remove,
};

verus! {

/// What a look into the result slot of a job shows.
#[derive(Debug)]
pub enum Poll<M> {
    /// The job has not finished.
    Pending,
    /// The job has finished with a reading.
    Ready(M),
    /// The job has finished without a reading.
    Closed,
}

/// What the schedule answers when it is offered an agent's state.
#[derive(Debug, Clone, Copy, PartialEq, Eq, Structural)]
pub enum Offer {
    /// The agent has no worker.
    NoWorker,
    /// The agent's job is still running: nothing is to be done.
    Waiting,
    /// One new job is to be started for the agent.
    Start,
}

/// The schedule of one sensor: whether a job is out, and the latest
/// reading.
#[derive(Debug)]
pub struct SensorWorker<M> {
    pub in_flight: bool,
    pub last_measurement: Option<M>,
}

/// The schedules of the sensors of one agent.
#[derive(Debug)]
pub struct AgentWorker {
    pub lidar: SensorWorker<TimeStamped<Lidar2DSensed>>,
}

/// The schedules of all agents.
#[derive(Debug)]
pub struct Scene2DLoop {
    pub workers: WorkerStore,
}

impl<M> SensorWorker<M> {
    /// The worker after being offered a state with `poll` seen in the result
    /// slot, and whether a job is to be started. While the job is pending
    /// nothing changes and nothing is started. A finished job's reading
    /// replaces the latest one; a job that finished without a reading leaves
    /// it; in both cases, and when there was no job, one job is started.
    pub open spec fn spec_update_state(self, poll: Poll<M>) -> (SensorWorker<M>, bool) {
        if self.in_flight {
            match poll {
                Poll::Pending => (self, false),
                Poll::Ready(m) => (SensorWorker { in_flight: true, last_measurement: Some(m) }, true),
                Poll::Closed => (
                    SensorWorker { in_flight: true, last_measurement: self.last_measurement },
                    true,
                ),
            }
        } else {
            (SensorWorker { in_flight: true, last_measurement: self.last_measurement }, true)
        }
    }

    /// The worker after a run of offers, and how many jobs were started.
    pub open spec fn after_polls(self, polls: Seq<Poll<M>>) -> (SensorWorker<M>, nat)
        decreases polls.len(),
    {
        if polls.len() == 0 {
            (self, 0)
        } else {
            let (before, started) = self.after_polls(polls.drop_last());
            let (after, start) = before.spec_update_state(polls.last());
            (
                after,
                if start {
                    started + 1
                } else {
                    started
                },
            )
        }
    }

    /// A worker without a job and without a reading.
    pub fn new() -> (w: SensorWorker<M>)
        ensures
            !w.in_flight,
            w.last_measurement is None,
    {
        SensorWorker { in_flight: false, last_measurement: None }
    }

    pub fn update_state(&mut self, poll: Poll<M>) -> (start: bool)
        ensures
            (*final(self), start) == old(self).spec_update_state(poll),
    {
        if self.in_flight {
            match poll {
                Poll::Pending => {
                    return false;
                },
                Poll::Ready(measurement) => {
                    self.last_measurement = Some(measurement);
                },
                Poll::Closed => {},
            }
        }
        self.in_flight = true;
        true
    }

    /// However often a worker is offered a state while its job is pending,
    /// its reading stays and no job is started.
    pub proof fn lemma_pending_changes_nothing(self, polls: Seq<Poll<M>>)
        requires
            self.in_flight,
            forall|i: int| 0 <= i < polls.len() ==> (#[trigger] polls[i]) is Pending,
        ensures
            self.after_polls(polls) == (self, 0nat),
        decreases polls.len(),
    {
        if polls.len() > 0 {
            self.lemma_pending_changes_nothing(polls.drop_last());
            assert(polls.last() == polls[polls.len() - 1]);
        }
    }

    /// A job is started only when none is out or the one that was out has
    /// finished; and after an offer that starts a job, one is out.
    pub proof fn lemma_one_job_at_a_time(self, poll: Poll<M>)
        ensures
            self.spec_update_state(poll).1 ==> (!self.in_flight || !(poll is Pending)),
            self.spec_update_state(poll).1 ==> self.spec_update_state(poll).0.in_flight,
            self.in_flight ==> self.spec_update_state(poll).0.in_flight,
    {
    }
}

impl AgentWorker {
    pub open spec fn spec_update_state(self, poll: Poll<TimeStamped<Lidar2DSensed>>) -> (
        AgentWorker,
        bool,
    ) {
        (
            AgentWorker { lidar: self.lidar.spec_update_state(poll).0 },
            self.lidar.spec_update_state(poll).1,
        )
    }

    pub fn update_state(&mut self, poll: Poll<TimeStamped<Lidar2DSensed>>) -> (start: bool)
        ensures
            (*final(self), start) == old(self).spec_update_state(poll),
    {
        self.lidar.update_state(poll)
    }
}

impl Scene2DLoop {
    /// The workers by agent number.
    pub open spec fn view(&self) -> Map<u64, AgentWorker> {
        store_workers(self.workers)
    }

    /// A schedule without agents.
    pub fn new() -> (l: Scene2DLoop)
        ensures
            l@ == (Map::<u64, AgentWorker>::empty()),
    {
        Scene2DLoop { workers: workers_new() }
    }

    pub fn contains_agent(&self, agent: AgentId) -> (r: bool)
        ensures
            r == self@.dom().contains(agent.0),
    {
        workers_contains(&self.workers, agent.0)
    }

    /// Gives the agent a worker without a job and without a reading, unless
    /// it has a worker.
    pub fn insert_agent(&mut self, agent_id: AgentId)
        ensures
            old(self)@.dom().contains(agent_id.0) ==> final(self)@ == old(self)@,
            !old(self)@.dom().contains(agent_id.0) ==> final(self)@ == old(self)@.insert(
                agent_id.0,
                AgentWorker { lidar: SensorWorker { in_flight: false, last_measurement: None } },
            ),
    {
        if !self.contains_agent(agent_id) {
            workers_insert(
                &mut self.workers,
                agent_id.0,
                AgentWorker { lidar: SensorWorker::new() },
            );
        }
    }

    /// The latest readings of the agent's sensors, if the agent has a worker.
    pub fn query(&self, agent: AgentId) -> (r: Option<Agent2DMeasurements>)
        ensures
            r is Some <==> self@.dom().contains(agent.0),
            r matches Some(m) ==> m.lidar == self@[agent.0].lidar.last_measurement,
    {
        match workers_reading(&self.workers, agent.0) {
            Some(reading) => Some(Agent2DMeasurements { lidar: reading }),
            None => None,
        }
    }

    /// Offers the agent's state to its worker, with `poll` seen in the
    /// result slot of its job.
    pub fn update_state(&mut self, agent: AgentId, poll: Poll<TimeStamped<Lidar2DSensed>>) -> (r:
        Offer)
        ensures
            !old(self)@.dom().contains(agent.0) ==> r == Offer::NoWorker && final(self)@ == old(
                self,
            )@,
            old(self)@.dom().contains(agent.0) ==> {
                &&& final(self)@ == old(self)@.insert(
                    agent.0,
                    old(self)@[agent.0].spec_update_state(poll).0,
                )
                &&& r == (if old(self)@[agent.0].spec_update_state(poll).1 {
                    Offer::Start
                } else {
                    Offer::Waiting
                })
            },
    {
        match workers_remove(&mut self.workers, agent.0) {
            None => {
                proof {
                    assert(self@ =~= old(self)@);
                }
                Offer::NoWorker
            },
            Some(worker) => {
                let mut worker = worker;
                let start = worker.update_state(poll);
                workers_insert(&mut self.workers, agent.0, worker);
                proof {
                    assert(self@ =~= old(self)@.insert(agent.0, worker));
                }
                if start {
                    Offer::Start
                } else {
                    Offer::Waiting
                }
            },
        }
    }
}

} // verus!
