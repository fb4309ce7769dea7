//! The scene: the occupancy map and what is built on it.

pub mod grid;
pub mod fill;
pub mod occupancy_map;
pub mod scene_loop;

use std::sync::Arc;
use vstd::prelude::*;
use crate::agent::{Agent2D, Agent2DState};
use crate::math::{Box2D, I64Vec2, USizeVec2, Vec2};
use crate::scene::grid::MAX_DIM;
use crate::scene::occupancy_map::OccupancyMap;
use crate::scene::scene_loop::{AgentWorker, Offer, Poll, Scene2DLoop};
use crate::sensors::TimeStamped;
use crate::sensors::lidar::Lidar2DSensed;
use crate::store::share;

verus! {

/// The time of the scene, in ticks of the caller's clock.
#[derive(Debug, Clone, Copy, PartialEq, Eq, Structural)]
pub struct SceneTime(pub u64);

/// The number an agent got when it was added to the scene.
#[derive(Debug, Clone, Copy, Hash, PartialEq, Eq, Structural)]
pub struct AgentId(pub u64);

/// A snapshot of the scene: its time and its map.
#[derive(Debug)]
pub struct Scene2DState {
    pub time: SceneTime,
    pub occupancy_map: Arc<OccupancyMap>,
}

/// A grid whose pixel count does not match its shape: the count, then the
/// width and the height.
#[derive(Debug)]
pub enum Scene2DError {
    PixelSizeMismatch(usize, [usize; 2]),
}

impl Clone for Scene2DState {
    /// Another snapshot of the same time with a handle to the same map.
    fn clone(&self) -> (r: Self)
        ensures
            r == *self,
    {
        Scene2DState { time: self.time, occupancy_map: share(&self.occupancy_map) }
    }
}

/// The scene: the agents, numbered in the order in which they were added,
/// the time, the map and the sensing schedule.
#[derive(Debug)]
pub struct Scene2D {
    pub agents: Vec<Agent2D>,
    pub time: SceneTime,
    pub occupancy_map: Arc<OccupancyMap>,
    pub scene_loop: Scene2DLoop,
}

/// Which pixels are occupied: the dark ones, of value 127 or less.
pub open spec fn occupied_pixels(bytes: Seq<u8>) -> Seq<bool> {
    Seq::new(bytes.len(), |i: int| bytes[i] <= 127)
}

/// The time `dt` after `time`, or the last time there is.
pub open spec fn later(time: SceneTime, dt: u64) -> SceneTime {
    if time.0 + dt <= u64::MAX {
        SceneTime((time.0 + dt) as u64)
    } else {
        SceneTime(u64::MAX)
    }
}

/// The worker of agent `id` went from `before` to `after` by being offered
/// a state with `poll` in the result slot, and `offer` was the answer.
pub open spec fn offered(
    before: Map<u64, AgentWorker>,
    after: Map<u64, AgentWorker>,
    poll: Poll<TimeStamped<Lidar2DSensed>>,
    offer: Offer,
    id: u64,
) -> bool {
    &&& after[id] == before[id].spec_update_state(poll).0
    &&& offer == (if before[id].spec_update_state(poll).1 {
        Offer::Start
    } else {
        Offer::Waiting
    })
}

impl Scene2D {
    /// The map is sound and every agent has a worker.
    pub open spec fn wf(&self) -> bool {
        &&& self.occupancy_map.wf()
        &&& forall|id: u64|
            id < self.agents.len() ==> #[trigger] self.scene_loop@.dom().contains(id)
    }

    /// Builds a scene without agents at time 0 from a grey image of
    /// `size[0]` columns and `size[1]` rows, dark pixels being occupied.
    pub fn from_pixels(size: [usize; 2], pixels: &[u8]) -> (r: Result<Scene2D, Scene2DError>)
        requires
            size[0] * size[1] == pixels@.len() ==> size[0] <= MAX_DIM && size[1] <= MAX_DIM,
        ensures
            size[0] * size[1] != pixels@.len() ==> (r matches Err(
                Scene2DError::PixelSizeMismatch(count, shape),
            ) && count == pixels@.len() && shape[0] == size[0] && shape[1] == size[1]),
            size[0] * size[1] == pixels@.len() ==> (r matches Ok(scene) && scene.wf()
                && scene.agents@.len() == 0 && scene.time == SceneTime(0)
                && scene.occupancy_map.size == (USizeVec2 { x: size[0], y: size[1] })
                && scene.occupancy_map.pixels@ == occupied_pixels(pixels@) && scene.scene_loop@
                == (Map::<u64, AgentWorker>::empty())),
    {
        let mut occupied: Vec<bool> = Vec::new();
        let mut i: usize = 0;
        while i < pixels.len()
            invariant
                i <= pixels@.len(),
                occupied@.len() == i,
                forall|k: int| 0 <= k < i ==> #[trigger] occupied@[k] == (pixels@[k] <= 127),
            decreases pixels@.len() - i,
        {
            occupied.push(pixels[i] <= 127);
            i += 1;
        }
        proof {
            assert(occupied@ =~= occupied_pixels(pixels@));
        }
        match OccupancyMap::from_pixels(USizeVec2 { x: size[0], y: size[1] }, occupied) {
            Err(e) => Err(e),
            Ok(map) => Ok(
                Scene2D {
                    agents: Vec::new(),
                    time: SceneTime(0),
                    occupancy_map: Arc::new(map),
                    scene_loop: Scene2DLoop::new(),
                },
            ),
        }
    }

    /// A snapshot of the time and the map.
    pub fn state(&self) -> (r: Scene2DState)
        ensures
            r.time == self.time,
            r.occupancy_map == self.occupancy_map,
    {
        Scene2DState { time: self.time, occupancy_map: share(&self.occupancy_map) }
    }

    /// Adds the agent and gives it a worker; its number is the count of the
    /// agents before it.
    pub fn add_agent(&mut self, agent: Agent2D) -> (id: AgentId)
        requires
            old(self).wf(),
        ensures
            final(self).wf(),
            id.0 == old(self).agents@.len(),
            final(self).agents@ == old(self).agents@.push(agent),
            final(self).time == old(self).time,
            final(self).occupancy_map == old(self).occupancy_map,
            final(self).scene_loop@.dom().contains(id.0),
            old(self).scene_loop@.dom().contains(id.0) ==> final(self).scene_loop@ == old(
                self,
            ).scene_loop@,
            !old(self).scene_loop@.dom().contains(id.0) ==> final(self).scene_loop@ == old(
                self,
            ).scene_loop@.insert(
                id.0,
                AgentWorker {
                    lidar: crate::scene::scene_loop::SensorWorker {
                        in_flight: false,
                        last_measurement: None,
                    },
                },
            ),
    {
        let id = AgentId(self.agents.len() as u64);
        self.scene_loop.insert_agent(id);
        self.agents.push(agent);
        id
    }

    /// Moves agent `agent` to `next` and offers its state to the schedule,
    /// with `poll` seen in the result slot of its job.
    pub fn update_agent(
        &mut self,
        agent: AgentId,
        next: Agent2DState,
        poll: Poll<TimeStamped<Lidar2DSensed>>,
    ) -> (r: Offer)
        requires
            old(self).wf(),
            agent.0 < old(self).agents@.len(),
        ensures
            final(self).wf(),
            final(self).time == old(self).time,
            final(self).occupancy_map == old(self).occupancy_map,
            final(self).agents@.len() == old(self).agents@.len(),
            forall|i: int|
                0 <= i < final(self).agents@.len() && i != agent.0 ==> final(self).agents@[i] == old(
                    self,
                ).agents@[i],
            final(self).agents@[agent.0 as int].state == next,
            final(self).agents@[agent.0 as int].last_state == Some(
                old(self).agents@[agent.0 as int].state,
            ),
            final(self).agents@[agent.0 as int].sensors == old(self).agents@[agent.0 as int].sensors,
            final(self).scene_loop@ == old(self).scene_loop@.insert(
                agent.0,
                old(self).scene_loop@[agent.0].spec_update_state(poll).0,
            ),
            r == (if old(self).scene_loop@[agent.0].spec_update_state(poll).1 {
                Offer::Start
            } else {
                Offer::Waiting
            }),
    {
        assert(self.agents@.len() == self.agents.len());
        let index = agent.0 as usize;
        self.agents[index].update(next);
        self.scene_loop.update_state(agent, poll)
    }

    /// One tick: the time advances by `dt`, every agent moves to its pose
    /// in `next`, and every agent's state is offered to the schedule, with
    /// the agent's entry of `polls` seen in the result slot of its job. The
    /// answer for agent `i` is entry `i` of the result.
    pub fn update(
        &mut self,
        dt: u64,
        next: &Vec<Agent2DState>,
        polls: Vec<Poll<TimeStamped<Lidar2DSensed>>>,
    ) -> (offers: Vec<Offer>)
        requires
            old(self).wf(),
            next@.len() == old(self).agents@.len(),
            polls@.len() == old(self).agents@.len(),
        ensures
            final(self).wf(),
            final(self).time == later(old(self).time, dt),
            final(self).occupancy_map == old(self).occupancy_map,
            final(self).agents@.len() == old(self).agents@.len(),
            offers@.len() == old(self).agents@.len(),
            forall|i: int|
                0 <= i < old(self).agents@.len() ==> {
                    &&& (#[trigger] final(self).agents@[i]).state == next@[i]
                    &&& final(self).agents@[i].last_state == Some(old(self).agents@[i].state)
                    &&& final(self).agents@[i].sensors == old(self).agents@[i].sensors
                },
            final(self).scene_loop@.dom() == old(self).scene_loop@.dom(),
            forall|id: u64|
                id < old(self).agents@.len() ==> #[trigger] offered(
                    old(self).scene_loop@,
                    final(self).scene_loop@,
                    polls@[id as int],
                    offers@[id as int],
                    id,
                ),
            forall|id: u64|
                id >= old(self).agents@.len() ==> #[trigger] final(self).scene_loop@[id] == old(
                    self,
                ).scene_loop@[id],
    {
        self.advance(dt);
        let n = self.agents.len();
        let mut offers: Vec<Offer> = Vec::new();
        let mut c: usize = 0;
        while c < n
            invariant
                c <= n,
                offers@.len() == c,
            decreases n - c,
        {
            offers.push(Offer::Waiting);
            c += 1;
        }
        let mut polls = polls;
        let ghost all = polls@;
        let mut i: usize = n;
        while i > 0
            invariant
                i <= n,
                n == old(self).agents@.len(),
                self.wf(),
                self.time == later(old(self).time, dt),
                self.occupancy_map == old(self).occupancy_map,
                self.agents@.len() == n,
                next@.len() == n,
                all.len() == n,
                offers@.len() == n,
                polls@ == all.subrange(0, i as int),
                self.scene_loop@.dom() =~= old(self).scene_loop@.dom(),
                forall|k: int| 0 <= k < i ==> #[trigger] self.agents@[k] == old(self).agents@[k],
                forall|k: int|
                    i <= k < n ==> {
                        &&& (#[trigger] self.agents@[k]).state == next@[k]
                        &&& self.agents@[k].last_state == Some(old(self).agents@[k].state)
                        &&& self.agents@[k].sensors == old(self).agents@[k].sensors
                    },
                forall|id: u64|
                    i <= id < n ==> #[trigger] offered(
                        old(self).scene_loop@,
                        self.scene_loop@,
                        all[id as int],
                        offers@[id as int],
                        id,
                    ),
                forall|id: u64|
                    !(i <= id < n) ==> #[trigger] self.scene_loop@[id] == old(self).scene_loop@[id],
            decreases i,
        {
            i -= 1;
            let ghost before = self.scene_loop@;
            let ghost answers = offers@;
            let poll = polls.pop().unwrap();
            proof {
                assert(poll == all[i as int]);
                assert(polls@ =~= all.subrange(0, i as int));
                assert(before[i as u64] == old(self).scene_loop@[i as u64]);
            }
            let offer = self.update_agent(AgentId(i as u64), next[i], poll);
            offers.set(i, offer);
            proof {
                assert forall|id: u64| i <= id < n implies #[trigger] offered(
                    old(self).scene_loop@,
                    self.scene_loop@,
                    all[id as int],
                    offers@[id as int],
                    id,
                ) by {
                    if id != i {
                        assert(offered(
                            old(self).scene_loop@,
                            before,
                            all[id as int],
                            answers[id as int],
                            id,
                        ));
                        assert(self.scene_loop@[id] == before[id]);
                        assert(offers@[id as int] == answers[id as int]);
                    }
                }
            }
        }
        offers
    }

    /// Advances the time by `dt`.
    pub fn advance(&mut self, dt: u64)
        ensures
            final(self).time == later(old(self).time, dt),
            final(self).agents == old(self).agents,
            final(self).occupancy_map == old(self).occupancy_map,
            final(self).scene_loop == old(self).scene_loop,
    {
        let now = self.time.0;
        self.time =
        if dt <= u64::MAX - now {
            SceneTime(now + dt)
        } else {
            SceneTime(u64::MAX)
        };
    }

    pub fn in_bounds_vec2(&self, loc: Vec2) -> (r: bool)
        requires
            self.occupancy_map.shape_ok(),
        ensures
            r == self.occupancy_map.spec_is_valid_vec2(loc),
    {
        self.occupancy_map.is_valid_vec2(loc)
    }

    pub fn in_bounds(&self, loc: USizeVec2) -> (r: bool)
        ensures
            r == self.occupancy_map.spec_is_valid(loc),
    {
        self.occupancy_map.is_valid(loc)
    }

    pub fn translate(&self, loc: Vec2) -> (r: I64Vec2)
        requires
            self.occupancy_map.shape_ok(),
        ensures
            r == self.occupancy_map.spec_translate(loc),
    {
        self.occupancy_map.translate(loc)
    }

    pub fn get_box(&self, loc: USizeVec2) -> (r: Box2D)
        requires
            self.occupancy_map.shape_ok(),
            self.occupancy_map.spec_is_valid(loc),
        ensures
            r == self.occupancy_map.spec_get_box(loc),
    {
        self.occupancy_map.get_box(loc)
    }

    pub fn is_occupied_vec2(&self, loc: Vec2) -> (r: bool)
        requires
            self.occupancy_map.shape_ok(),
        ensures
            r == self.occupancy_map.spec_is_occupied_vec2(loc),
    {
        self.occupancy_map.is_occupied_vec2(loc)
    }

    pub fn is_occupied(&self, loc: USizeVec2) -> (r: bool)
        requires
            self.occupancy_map.shape_ok(),
        ensures
            r == self.occupancy_map.spec_is_occupied(loc),
    {
        self.occupancy_map.is_occupied(loc)
    }
}

} // verus!
