use darkui::gesture::{
    long_press_live, touch_step, Arena, MoveThrottle, NodeGestures, NodeMove, Recognition, TouchOwner, TouchPhase,
    TouchStep, VelocityTracker,
};

// Test-side geometry: the caller measures travel and reports, per node,
// whether its drag may start and whether its tap stays within slop.

const TOUCH_SLOP: f32 = 10.;
const TAP_MAX_MS: u64 = 300;

#[derive(Clone, Copy)]
enum Axes {
    Both,
    X,
    Y,
}

#[derive(Clone, Copy)]
enum Direction {
    Any,
    Horizontal,
}

#[derive(Clone, Copy)]
struct Drag {
    axes: Axes,
    direction: Direction,
    min_travel: Option<f32>,
}

#[derive(Clone, Copy)]
struct NodeCfg {
    tap: Option<Axes>,
    long_press: bool,
    drag: Option<Drag>,
}

fn travel(axes: Axes, dx: f32, dy: f32) -> f32 {
    match axes {
        Axes::Both => (dx * dx + dy * dy).sqrt(),
        Axes::X => dx.abs(),
        Axes::Y => dy.abs(),
    }
}

fn dir_matches(d: Direction, dx: f32, dy: f32) -> bool {
    match d {
        Direction::Any => true,
        Direction::Horizontal => dx.abs() > dy.abs(),
    }
}

fn ms(t: u64) -> u128 {
    std::time::Duration::from_millis(t).as_nanos()
}

fn gestures(sets: &[NodeCfg]) -> Vec<NodeGestures> {
    sets.iter()
        .map(|s| NodeGestures { tap: s.tap.is_some(), long_press: s.long_press, drag: s.drag.is_some() })
        .collect()
}

struct Touch {
    sets: Vec<NodeCfg>,
    arena: Arena,
}

impl Touch {
    fn new(sets: &[NodeCfg]) -> Self {
        Touch { sets: sets.to_vec(), arena: Arena::new(ms(TAP_MAX_MS), &gestures(sets)) }
    }

    fn on_move(&mut self, t: u64, dx: f32, dy: f32) -> Vec<(usize, Recognition<(f32, f32)>)> {
        let moves: Vec<NodeMove> = self
            .sets
            .iter()
            .map(|s| NodeMove {
                drag_ready: match s.drag {
                    Some(d) => {
                        travel(d.axes, dx, dy) > d.min_travel.unwrap_or(TOUCH_SLOP)
                            && dir_matches(d.direction, dx, dy)
                    }
                    None => false,
                },
                tap_within_slop: travel(s.tap.unwrap_or(Axes::Both), dx, dy) <= TOUCH_SLOP,
            })
            .collect();
        let lp_within = travel(Axes::Both, dx, dy) <= TOUCH_SLOP;
        self.arena.on_move(ms(t), &moves, lp_within)
    }

    fn on_up(&mut self, t: u64) -> Vec<(usize, Recognition<(f32, f32)>)> {
        self.arena.on_up(ms(t), (0., 0.))
    }
}

fn scroll_set() -> NodeCfg {
    NodeCfg {
        tap: Some(Axes::Both),
        long_press: true,
        drag: Some(Drag { axes: Axes::Y, direction: Direction::Any, min_travel: None }),
    }
}

fn tap_set() -> NodeCfg {
    NodeCfg { tap: Some(Axes::Both), long_press: false, drag: None }
}

#[test]
fn move_throttle_gates_delivery() {
    let mut throttle = MoveThrottle::new(20);

    assert!(throttle.should_deliver(ms(0)));
    assert!(!throttle.should_deliver(ms(5)));
    assert!(!throttle.should_deliver(ms(19)));
    assert!(throttle.should_deliver(ms(20)));
    assert!(throttle.should_deliver(ms(45)));
}

#[test]
fn move_throttle_measures_from_last_delivery() {
    let mut throttle = MoveThrottle::new(20);
    assert!(throttle.should_deliver(ms(10)));
    assert!(!throttle.should_deliver(ms(29)));
    assert!(throttle.should_deliver(ms(30)));
    // A clock that runs backwards never delivers early.
    assert!(!throttle.should_deliver(ms(5)));
}

#[test]
fn tap_within_slop() {
    let mut touch = Touch::new(&[scroll_set()]);

    let recs = touch.on_move(50, 4., 4.);
    assert!(recs.is_empty());

    let recs = touch.on_up(200);
    assert_eq!(recs, vec![(0, Recognition::Tap)]);
}

#[test]
fn tap_movement_beyond_slop_becomes_drag() {
    let mut touch = Touch::new(&[scroll_set()]);

    let recs = touch.on_move(50, 3., 12.);
    assert_eq!(recs, vec![(0, Recognition::DragStart)]);

    let recs = touch.on_up(120);
    assert!(matches!(recs.as_slice(), [(0, Recognition::DragEnd { .. })]));
    assert!(!matches!(recs.as_slice(), [(0, Recognition::Tap)]));
}

#[test]
fn tap_duration_bound() {
    let mut touch = Touch::new(&[tap_set()]);

    // Stationary but too slow
    touch.on_move(50, 0., 0.);
    let recs = touch.on_up(400);
    assert!(recs.is_empty());
}

#[test]
fn long_press_fires_during_hold() {
    let mut touch = Touch::new(&[scroll_set()]);
    assert!(touch.arena.wants_long_press());

    touch.on_move(100, 2., 2.);
    let rec = touch.arena.long_press_due::<(f32, f32)>();
    assert_eq!(rec, Some((0, Recognition::LongPress)));

    // At most once per touch
    assert_eq!(touch.arena.long_press_due::<(f32, f32)>(), None);
}

#[test]
fn long_press_cancelled_by_movement() {
    let mut touch = Touch::new(&[scroll_set()]);

    touch.on_move(100, 0., 15.);
    assert_eq!(touch.arena.long_press_due::<(f32, f32)>(), None);
}

#[test]
fn long_press_cancels_tap() {
    let mut touch = Touch::new(&[scroll_set()]);

    touch.arena.long_press_due::<(f32, f32)>();
    let recs = touch.on_up(500);
    assert!(recs.is_empty());
}

#[test]
fn drag_cancels_pending_long_press() {
    let mut touch = Touch::new(&[scroll_set()]);

    touch.on_move(50, 0., 20.);
    assert_eq!(touch.arena.long_press_due::<(f32, f32)>(), None);
}

#[test]
fn descendant_tap_wins_within_slop() {
    // Chain: ancestor scroller (root, idx 0), descendant tapper (idx 1)
    let mut touch = Touch::new(&[scroll_set(), tap_set()]);

    let recs = touch.on_move(50, 5., 5.);
    assert!(recs.is_empty());

    let recs = touch.on_up(150);
    assert_eq!(recs, vec![(1, Recognition::Tap)]);
}

#[test]
fn ancestor_drag_wins_beyond_slop() {
    let mut touch = Touch::new(&[scroll_set(), tap_set()]);

    let recs = touch.on_move(50, 0., 20.);
    assert_eq!(recs, vec![(0, Recognition::DragStart)]);

    let recs = touch.on_up(150);
    assert!(matches!(recs.as_slice(), [(0, Recognition::DragEnd { .. })]));
}

#[test]
fn precision_drag_starts_on_first_movement() {
    let set = NodeCfg {
        tap: Some(Axes::Both),
        long_press: false,
        drag: Some(Drag { axes: Axes::Both, direction: Direction::Any, min_travel: Some(0.) }),
    };
    let mut touch = Touch::new(&[set]);

    // 1px is beyond a zero threshold
    let recs = touch.on_move(10, 1., 0.);
    assert_eq!(recs, vec![(0, Recognition::DragStart)]);

    let recs = touch.on_up(100);
    assert!(matches!(recs.as_slice(), [(0, Recognition::DragEnd { .. })]));
}

#[test]
fn axis_locked_drag_ignores_off_axis_movement() {
    let mut touch = Touch::new(&[scroll_set()]);

    // Horizontal travel never starts a y-locked drag
    let recs = touch.on_move(50, 25., 0.);
    assert!(recs.is_empty());

    // But it did cancel the tap
    let recs = touch.on_up(100);
    assert!(recs.is_empty());
}

#[test]
fn directional_gate_blocks_orthogonal_drag() {
    let set = NodeCfg {
        tap: Some(Axes::Both),
        long_press: false,
        drag: Some(Drag { axes: Axes::Both, direction: Direction::Horizontal, min_travel: None }),
    };
    let mut touch = Touch::new(&[set]);

    let recs = touch.on_move(50, 0., 25.);
    assert!(recs.is_empty(), "vertical movement must not start a horizontal drag");

    let recs = touch.on_move(80, 25., 0.);
    assert_eq!(recs, vec![(0, Recognition::DragStart)]);
}

#[test]
fn drag_claim_delivers_moves_and_release_velocity() {
    let mut touch = Touch::new(&[scroll_set()]);
    assert!(!touch.arena.drag_started());
    touch.on_move(20, 0., 30.);
    assert!(touch.arena.drag_started());
    assert_eq!(touch.on_move(40, 0., 60.), vec![(0, Recognition::DragMove)]);
    let recs = touch.arena.on_up(ms(60), (0., 1500.));
    assert_eq!(recs, vec![(0, Recognition::DragEnd { vel: (0., 1500.) })]);
}

#[test]
fn deepest_drag_starts_first() {
    let mut touch = Touch::new(&[scroll_set(), scroll_set()]);
    assert_eq!(touch.on_move(30, 0., 40.), vec![(1, Recognition::DragStart)]);
    // Every other recognizer was cancelled by the claim.
    assert!(touch.arena.long_press_due::<(f32, f32)>().is_none());
}

#[test]
fn no_long_press_without_a_long_press_node() {
    let touch = Touch::new(&[tap_set()]);
    assert!(!touch.arena.wants_long_press());
}

/// Velocity in px/s over the tracker's span, zero when it has none.
fn velocity(vel: &VelocityTracker<(f32, f32)>) -> (f32, f32) {
    match vel.velocity_span() {
        None => (0., 0.),
        Some((dt, p0, p1)) => {
            let dt = std::time::Duration::from_nanos(dt as u64).as_secs_f32();
            ((p1.0 - p0.0) / dt, (p1.1 - p0.1) / dt)
        }
    }
}

#[test]
fn velocity_from_sample_window() {
    let mut vel = VelocityTracker::new(40);

    // Outside the window: ignored
    vel.push(ms(0), (0., 0.));
    vel.push(ms(100), (0., 0.));
    vel.push(ms(120), (0., 30.));
    vel.push(ms(140), (0., 60.));

    // Window is [100, 140]: 60px over 40ms = 1500 px/s
    let v = velocity(&vel);
    assert!((v.1 - 1500.).abs() < 0.01, "vel.y = {}", v.1);
    assert!(v.0.abs() < 0.01);
}

#[test]
fn velocity_zero_when_stale_samples() {
    let mut vel = VelocityTracker::new(40);
    vel.push(ms(0), (0., 0.));
    assert_eq!(velocity(&vel), (0., 0.));

    // All samples at (nearly) the same time: no measurable dt
    let mut vel = VelocityTracker::new(40);
    vel.push(ms(10), (0., 0.));
    vel.push(ms(10), (0., 50.));
    assert_eq!(velocity(&vel), (0., 0.));
}

#[test]
fn velocity_span_is_first_to_last_in_window() {
    let mut vel: VelocityTracker<u8> = VelocityTracker::new(40);
    assert_eq!(vel.velocity_span(), None);
    vel.push(ms(0), 1);
    vel.push(ms(50), 2);
    // The first sample fell out of the window; one sample spans nothing.
    assert_eq!(vel.velocity_span(), None);
    vel.push(ms(70), 3);
    assert_eq!(vel.velocity_span(), Some((ms(20), 2, 3)));
}

#[test]
fn primary_touch_owns_the_session() {
    let s0 = TouchOwner::new();
    // Nothing under the touch: ignored.
    assert_eq!(touch_step(s0, TouchPhase::Started, 1, false, true), (s0, TouchStep::Ignore));
    let (s1, step) = touch_step(s0, TouchPhase::Started, 1, true, true);
    assert_eq!(step, TouchStep::Start { timer_gen: Some(1) });
    assert_eq!(s1, TouchOwner { gen: 1, active: Some(1) });
    assert!(long_press_live(s1, 1));
    // A secondary touch does nothing, whatever its phase.
    for phase in [TouchPhase::Started, TouchPhase::Moved, TouchPhase::Ended, TouchPhase::Cancelled] {
        assert_eq!(touch_step(s1, phase, 2, true, true), (s1, TouchStep::Ignore));
    }
    assert_eq!(touch_step(s1, TouchPhase::Moved, 1, true, true), (s1, TouchStep::Move));
    let (s2, step) = touch_step(s1, TouchPhase::Ended, 1, true, true);
    assert_eq!(step, TouchStep::End);
    assert_eq!(s2, TouchOwner { gen: 2, active: None });
    // The timer armed for the ended touch is stale.
    assert!(!long_press_live(s2, 1));
    let (s3, step) = touch_step(s2, TouchPhase::Started, 5, true, false);
    assert_eq!(step, TouchStep::Start { timer_gen: None });
    assert!(!long_press_live(s3, 1));
    let (s4, step) = touch_step(s3, TouchPhase::Cancelled, 5, true, false);
    assert_eq!(step, TouchStep::Cancel);
    assert_eq!(s4, TouchOwner { gen: 4, active: None });
    // Events of a touch that is not active are ignored.
    assert_eq!(touch_step(s4, TouchPhase::Moved, 5, true, false), (s4, TouchStep::Ignore));
}
