//! Sensors and their time-stamped readings.

pub mod lidar;

use vstd::prelude::*;
use crate::agent::Agent2DState;
use crate::scene::{Scene2DState, SceneTime};

verus! {

/// A reading and the scene time it was taken at.
#[derive(Debug, Clone)]
pub struct TimeStamped<T> {
    pub time: SceneTime,
    pub state: T,
}

/// A sensor that reads the scene from an agent's pose.
pub trait Sensor2D {
    type SensorType;

    /// The reading from the pose `agent_state` in the snapshot `scene`, or
    /// none where the sensor cannot read. A reading carries the snapshot's
    /// time.
    fn sense(&self, agent_state: Agent2DState, scene: Scene2DState) -> (r: Option<
        TimeStamped<Self::SensorType>,
    >)
        requires
            scene.occupancy_map.wf(),
        ensures
            r matches Some(reading) ==> reading.time == scene.time,
    ;
}

} // verus!
