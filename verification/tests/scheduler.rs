use sim::math::Vec2;
use sim::scene::scene_loop::{AgentWorker, Offer, Poll, Scene2DLoop, SensorWorker};
use sim::scene::{AgentId, SceneTime};
use sim::sensors::lidar::Lidar2DSensed;
use sim::sensors::TimeStamped;

fn reading(time: u64, x: i32) -> TimeStamped<Lidar2DSensed> {
    TimeStamped { time: SceneTime(time), state: Lidar2DSensed(vec![Vec2 { x, y: 0 }]) }
}

fn time_of(r: &Option<TimeStamped<Lidar2DSensed>>) -> Option<u64> {
    r.as_ref().map(|t| t.time.0)
}

#[test]
fn first_offer_starts_a_job() {
    let mut w: SensorWorker<u32> = SensorWorker::new();
    assert!(!w.in_flight);
    assert_eq!(w.last_measurement, None);
    assert!(w.update_state(Poll::Pending));
    assert!(w.in_flight);
    assert_eq!(w.last_measurement, None);
}

#[test]
fn pending_job_blocks_new_jobs_and_keeps_the_reading() {
    let mut w = SensorWorker { in_flight: true, last_measurement: Some(7u32) };
    let mut started = 0;
    for _ in 0..100 {
        if w.update_state(Poll::Pending) {
            started += 1;
        }
        assert!(w.in_flight);
        assert_eq!(w.last_measurement, Some(7));
    }
    assert_eq!(started, 0);
}

#[test]
fn finished_job_replaces_the_reading_and_starts_one_job() {
    let mut w = SensorWorker { in_flight: true, last_measurement: Some(7u32) };
    assert!(w.update_state(Poll::Ready(9)));
    assert!(w.in_flight);
    assert_eq!(w.last_measurement, Some(9));
    assert!(!w.update_state(Poll::Pending));
    assert_eq!(w.last_measurement, Some(9));
}

#[test]
fn job_without_reading_keeps_the_reading_and_starts_one_job() {
    let mut w = SensorWorker { in_flight: true, last_measurement: Some(7u32) };
    assert!(w.update_state(Poll::Closed));
    assert!(w.in_flight);
    assert_eq!(w.last_measurement, Some(7));
}

#[test]
fn idle_worker_ignores_what_is_in_the_slot() {
    let mut w = SensorWorker { in_flight: false, last_measurement: Some(7u32) };
    assert!(w.update_state(Poll::Ready(9)));
    assert!(w.in_flight);
    assert_eq!(w.last_measurement, Some(7));
}

#[test]
fn slow_job_is_polled_until_it_finishes() {
    // A job that takes five ticks, over twenty ticks: four jobs finish and a fifth is out.
    let mut w: SensorWorker<u32> = SensorWorker::new();
    let mut started = 0u32;
    let mut running_since: Option<u32> = None;
    for tick in 0..21u32 {
        let poll = match running_since {
            Some(start) if tick - start >= 5 => Poll::Ready(start),
            _ => Poll::Pending,
        };
        let before = w.last_measurement;
        let finished = matches!(poll, Poll::Ready(_));
        if w.update_state(poll) {
            started += 1;
            running_since = Some(tick);
        } else {
            assert_eq!(w.last_measurement, before);
        }
        if finished {
            assert_eq!(running_since, Some(tick));
        }
    }
    assert_eq!(started, 5);
    assert_eq!(w.last_measurement, Some(15));
}

#[test]
fn schedule_knows_its_agents() {
    let mut l = Scene2DLoop::new();
    assert!(!l.contains_agent(AgentId(0)));
    assert!(l.query(AgentId(0)).is_none());
    assert_eq!(l.update_state(AgentId(0), Poll::Pending), Offer::NoWorker);
    l.insert_agent(AgentId(0));
    assert!(l.contains_agent(AgentId(0)));
    assert!(!l.contains_agent(AgentId(1)));
    assert_eq!(l.workers.len(), 1);
    let m = l.query(AgentId(0)).unwrap();
    assert!(m.lidar.is_none());
}

#[test]
fn schedule_runs_each_agent_on_its_own() {
    let mut l = Scene2DLoop::new();
    l.insert_agent(AgentId(3));
    l.insert_agent(AgentId(8));
    assert_eq!(l.update_state(AgentId(3), Poll::Pending), Offer::Start);
    assert_eq!(l.update_state(AgentId(3), Poll::Pending), Offer::Waiting);
    assert_eq!(l.update_state(AgentId(8), Poll::Pending), Offer::Start);
    assert_eq!(l.update_state(AgentId(3), Poll::Ready(reading(4, 11))), Offer::Start);
    assert_eq!(time_of(&l.query(AgentId(3)).unwrap().lidar), Some(4));
    assert_eq!(time_of(&l.query(AgentId(8)).unwrap().lidar), None);
    assert_eq!(l.update_state(AgentId(8), Poll::Closed), Offer::Start);
    assert_eq!(time_of(&l.query(AgentId(8)).unwrap().lidar), None);
    assert_eq!(l.update_state(AgentId(3), Poll::Pending), Offer::Waiting);
    assert_eq!(l.query(AgentId(3)).unwrap().lidar.unwrap().state.0, vec![Vec2 { x: 11, y: 0 }]);
    assert_eq!(l.workers.len(), 2);
}

#[test]
fn inserting_an_agent_twice_keeps_its_worker() {
    let mut l = Scene2DLoop::new();
    l.insert_agent(AgentId(1));
    assert_eq!(l.update_state(AgentId(1), Poll::Pending), Offer::Start);
    assert_eq!(l.update_state(AgentId(1), Poll::Ready(reading(2, 5))), Offer::Start);
    l.insert_agent(AgentId(1));
    assert_eq!(time_of(&l.query(AgentId(1)).unwrap().lidar), Some(2));
    assert_eq!(l.update_state(AgentId(1), Poll::Pending), Offer::Waiting);
}

#[test]
fn agent_worker_follows_its_lidar() {
    let mut w = AgentWorker { lidar: SensorWorker::new() };
    assert!(w.update_state(Poll::Pending));
    assert!(!w.update_state(Poll::Pending));
    assert!(w.update_state(Poll::Ready(reading(1, 1))));
    assert_eq!(time_of(&w.lidar.last_measurement), Some(1));
}
