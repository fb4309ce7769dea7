//! An agent as the scene and its sensors see it: where it is and where it
//! is heading.

use vstd::prelude::*;
use crate::math::{Dir2, Vec2};
use crate::sensors::TimeStamped;
use crate::sensors::lidar::{Lidar2D, Lidar2DSensed};

verus! {

/// The pose of an agent: its position on the lattice and its heading.
#[derive(Debug, Clone, Copy, PartialEq, Eq, Structural)]
pub struct Agent2DState {
    pub position: Vec2,
    pub heading: Dir2,
}

/// The sensors an agent carries.
#[derive(Debug)]
pub struct Agent2DSensors {
    pub lidar: Lidar2D,
}

/// An agent: its pose, the pose it had before the last step, and its
/// sensors.
#[derive(Debug)]
pub struct Agent2D {
    pub state: Agent2DState,
    pub last_state: Option<Agent2DState>,
    pub sensors: Agent2DSensors,
}

/// The latest reading of each sensor of an agent.
#[derive(Debug)]
pub struct Agent2DMeasurements {
    pub lidar: Option<TimeStamped<Lidar2DSensed>>,
}

impl Agent2D {
    /// Moves the agent to `next`; the pose it leaves is kept as the last one.
    pub fn update(&mut self, next: Agent2DState)
        ensures
            final(self).state == next,
            final(self).last_state == Some(old(self).state),
            final(self).sensors == old(self).sensors,
    {
        self.last_state = Some(self.state);
        self.state = next;
    }
}

} // verus!
