use std::sync::Arc;

use sim::agent::{Agent2D, Agent2DSensors, Agent2DState};
use sim::math::{Dir2, USizeVec2, Vec2};
use sim::scene::occupancy_map::OccupancyMap;
use sim::scene::scene_loop::{Offer, Poll};
use sim::scene::{AgentId, Scene2D, Scene2DError, Scene2DState, SceneTime};
use sim::sensors::lidar::{Lidar2D, Lidar2DSensed};
use sim::sensors::{Sensor2D, TimeStamped};
use sim::track_file::LidarFile;

fn v(x: i32, y: i32) -> Vec2 {
    Vec2 { x, y }
}

fn d(x: i16, y: i16) -> Dir2 {
    Dir2 { x, y }
}

fn axes() -> Lidar2D {
    Lidar2D { directions: vec![d(1, 0), d(0, 1), d(-1, 0), d(0, -1)] }
}

fn walled(inner: usize) -> OccupancyMap {
    let side = inner + 2;
    let mut pixels = Vec::new();
    for y in 0..side {
        for x in 0..side {
            pixels.push(x == 0 || y == 0 || x == side - 1 || y == side - 1);
        }
    }
    OccupancyMap::from_pixels(USizeVec2 { x: side, y: side }, pixels).unwrap()
}

fn snapshot(map: OccupancyMap, time: u64) -> Scene2DState {
    Scene2DState { time: SceneTime(time), occupancy_map: Arc::new(map) }
}

fn agent(x: i32, y: i32) -> Agent2D {
    Agent2D {
        state: Agent2DState { position: v(x, y), heading: d(1, 0) },
        last_state: None,
        sensors: Agent2DSensors { lidar: axes() },
    }
}

#[test]
fn lidar_in_a_walled_room_sees_the_walls() {
    // Ten free cells across, the agent in the middle facing +X: five cells to each wall.
    let scene = snapshot(walled(10), 42);
    let state = Agent2DState { position: v(0, 0), heading: d(1, 0) };
    let reading = axes().sense(state, scene).unwrap();
    assert_eq!(reading.time, SceneTime(42));
    assert_eq!(reading.state.0, vec![v(5120, 0), v(0, 5120), v(-5120, 0), v(0, -5120)]);
}

#[test]
fn lidar_in_free_space_sees_nothing() {
    let map = OccupancyMap::from_pixels(USizeVec2 { x: 10, y: 10 }, vec![false; 100]).unwrap();
    let scene = snapshot(map, 1);
    let state = Agent2DState { position: v(0, 0), heading: d(1, 0) };
    let reading = axes().sense(state, scene).unwrap();
    assert_eq!(reading.time, SceneTime(1));
    assert!(reading.state.0.is_empty());
}

#[test]
fn lidar_turns_with_the_heading() {
    let scene = snapshot(walled(10), 0);
    // Facing +Y with a heading three units long: the first ray goes up.
    let state = Agent2DState { position: v(1024, -2048), heading: d(0, 3) };
    let reading = axes().sense(state, scene).unwrap();
    assert_eq!(
        reading.state.0,
        vec![v(1024, 5120), v(-5120, -2048), v(1024, -5120), v(5120, -2048)]
    );
}

#[test]
fn lidar_rounds_hit_points_down() {
    let scene = snapshot(walled(10), 0);
    let lidar = Lidar2D { directions: vec![d(3, 1), d(-3, -1)] };
    let state = Agent2DState { position: v(0, 0), heading: d(1, 0) };
    let reading = lidar.sense(state, scene).unwrap();
    // The wall at x = 5120 is met at y = 5120 / 3, the one at x = -5120 at y = -5120 / 3.
    assert_eq!(reading.state.0, vec![v(5120, 1706), v(-5120, -1707)]);
}

#[test]
fn lidar_omits_rays_that_hit_nothing() {
    let mut pixels = vec![false; 25];
    pixels[2 * 5 + 4] = true;
    let map = OccupancyMap::from_pixels(USizeVec2 { x: 5, y: 5 }, pixels).unwrap();
    let scene = snapshot(map, 0);
    let state = Agent2DState { position: v(0, 0), heading: d(1, 0) };
    let reading = axes().sense(state, scene).unwrap();
    assert_eq!(reading.state.0, vec![v(1536, 0)]);
}

#[test]
fn lidar_has_no_reading_in_occupied_space() {
    let state_in_wall = Agent2DState { position: v(-5500, 0), heading: d(1, 0) };
    assert!(axes().sense(state_in_wall, snapshot(walled(10), 0)).is_none());
    let state_outside = Agent2DState { position: v(0, 9000), heading: d(1, 0) };
    assert!(axes().sense(state_outside, snapshot(walled(10), 0)).is_none());
    let state_far_left = Agent2DState { position: v(-9000, 0), heading: d(1, 0) };
    assert!(axes().sense(state_far_left, snapshot(walled(10), 0)).is_none());
}

#[test]
fn lidar_directions_can_be_replaced() {
    let mut lidar = axes();
    lidar.update_directions(vec![d(0, -1)]);
    assert_eq!(lidar.directions, vec![d(0, -1)]);
    let state = Agent2DState { position: v(0, 0), heading: d(1, 0) };
    let reading = lidar.sense(state, snapshot(walled(10), 0)).unwrap();
    assert_eq!(reading.state.0, vec![v(0, -5120)]);
}

#[test]
fn agent_keeps_its_last_state() {
    let mut a = agent(1, 2);
    let first = a.state;
    let next = Agent2DState { position: v(5, 6), heading: d(0, 1) };
    a.update(next);
    assert_eq!(a.state, next);
    assert_eq!(a.last_state, Some(first));
    a.update(first);
    assert_eq!(a.last_state, Some(next));
}

#[test]
fn scene_takes_dark_pixels_as_occupied() {
    let scene = Scene2D::from_pixels([2, 2], &[0, 127, 128, 255]).unwrap();
    assert_eq!(scene.occupancy_map.pixels, vec![true, true, false, false]);
    assert_eq!(scene.occupancy_map.size, USizeVec2 { x: 2, y: 2 });
    assert_eq!(scene.time, SceneTime(0));
    assert!(scene.agents.is_empty());
    assert_eq!(scene.scene_loop.workers.len(), 0);
    assert!(scene.is_occupied(USizeVec2 { x: 1, y: 0 }));
    assert!(!scene.is_occupied(USizeVec2 { x: 0, y: 1 }));
    assert!(scene.in_bounds(USizeVec2 { x: 1, y: 1 }));
    assert!(!scene.in_bounds(USizeVec2 { x: 2, y: 1 }));
    assert!(scene.in_bounds_vec2(v(1023, 1023)));
    assert!(!scene.in_bounds_vec2(v(1024, 0)));
    assert_eq!(scene.translate(v(10, -10)).x, 1);
    assert_eq!(scene.translate(v(10, -10)).y, 1);
    assert_eq!(scene.get_box(USizeVec2 { x: 1, y: 1 }).min, v(0, -1024));
    assert!(scene.is_occupied_vec2(v(10, 10)));
    assert!(!scene.is_occupied_vec2(v(10, -10)));
}

#[test]
fn scene_reports_a_pixel_count_mismatch() {
    match Scene2D::from_pixels([2, 3], &[0, 0, 0, 0]) {
        Err(Scene2DError::PixelSizeMismatch(count, shape)) => {
            assert_eq!(count, 4);
            assert_eq!(shape, [2, 3]);
        }
        Ok(_) => panic!("a grid of 2 by 3 with 4 pixels was accepted"),
    }
}

#[test]
fn scene_numbers_its_agents() {
    let mut scene = Scene2D::from_pixels([4, 4], &[255; 16]).unwrap();
    assert_eq!(scene.add_agent(agent(0, 0)), AgentId(0));
    assert_eq!(scene.add_agent(agent(100, 0)), AgentId(1));
    assert_eq!(scene.add_agent(agent(0, 100)), AgentId(2));
    assert_eq!(scene.agents.len(), 3);
    assert_eq!(scene.agents[1].state.position, v(100, 0));
    for id in 0..3 {
        assert!(scene.scene_loop.contains_agent(AgentId(id)));
    }
    assert!(!scene.scene_loop.contains_agent(AgentId(3)));
}

#[test]
fn scene_snapshot_shares_the_map() {
    let mut scene = Scene2D::from_pixels([2, 1], &[0, 255]).unwrap();
    scene.advance(7);
    let snap = scene.state();
    assert_eq!(snap.time, SceneTime(7));
    assert!(Arc::ptr_eq(&snap.occupancy_map, &scene.occupancy_map));
    assert_eq!(snap.occupancy_map.pixels, vec![true, false]);
    let again = snap.clone();
    assert_eq!(again.time, SceneTime(7));
    assert!(Arc::ptr_eq(&again.occupancy_map, &scene.occupancy_map));
}

#[test]
fn scene_time_stops_at_the_last_tick() {
    let mut scene = Scene2D::from_pixels([1, 1], &[255]).unwrap();
    scene.advance(u64::MAX - 1);
    assert_eq!(scene.time, SceneTime(u64::MAX - 1));
    scene.advance(5);
    assert_eq!(scene.time, SceneTime(u64::MAX));
}

#[test]
fn scene_tick_moves_agents_and_schedules_sensing() {
    let mut scene = Scene2D::from_pixels([4, 4], &[255; 16]).unwrap();
    scene.add_agent(agent(0, 0));
    scene.add_agent(agent(10, 0));
    let a = Agent2DState { position: v(1, 1), heading: d(1, 0) };
    let b = Agent2DState { position: v(11, 1), heading: d(0, 1) };
    let offers = scene.update(3, &vec![a, b], vec![Poll::Pending, Poll::Pending]);
    assert_eq!(offers, vec![Offer::Start, Offer::Start]);
    assert_eq!(scene.time, SceneTime(3));
    assert_eq!(scene.agents[0].state, a);
    assert_eq!(scene.agents[0].last_state, Some(Agent2DState { position: v(0, 0), heading: d(1, 0) }));
    assert_eq!(scene.agents[1].state, b);
    // The first agent's job is still out, the second one's has finished.
    let done = TimeStamped { time: SceneTime(3), state: Lidar2DSensed(vec![v(9, 9)]) };
    let offers = scene.update(2, &vec![b, a], vec![Poll::Pending, Poll::Ready(done)]);
    assert_eq!(offers, vec![Offer::Waiting, Offer::Start]);
    assert_eq!(scene.time, SceneTime(5));
    assert_eq!(scene.agents[0].state, b);
    assert_eq!(scene.agents[0].last_state, Some(a));
    assert!(scene.scene_loop.query(AgentId(0)).unwrap().lidar.is_none());
    let kept = scene.scene_loop.query(AgentId(1)).unwrap().lidar.unwrap();
    assert_eq!(kept.time, SceneTime(3));
    assert_eq!(kept.state.0, vec![v(9, 9)]);
}

#[test]
fn scene_moves_one_agent() {
    let mut scene = Scene2D::from_pixels([4, 4], &[255; 16]).unwrap();
    scene.add_agent(agent(0, 0));
    scene.add_agent(agent(10, 0));
    let next = Agent2DState { position: v(7, 7), heading: d(0, -1) };
    assert_eq!(scene.update_agent(AgentId(1), next, Poll::Pending), Offer::Start);
    assert_eq!(scene.agents[1].state, next);
    assert_eq!(scene.agents[0].state.position, v(0, 0));
    assert_eq!(scene.agents[0].last_state, None);
    assert_eq!(scene.time, SceneTime(0));
    assert_eq!(scene.update_agent(AgentId(1), next, Poll::Closed), Offer::Start);
    assert_eq!(scene.update_agent(AgentId(1), next, Poll::Pending), Offer::Waiting);
}

#[test]
fn lidar_file_defaults_to_sixty_rays() {
    assert_eq!(LidarFile::default(), LidarFile::Count { count: 60 });
    assert_eq!(LidarFile::default().count(), 60);
    assert_eq!(LidarFile::Count { count: 7 }.count(), 7);
}
