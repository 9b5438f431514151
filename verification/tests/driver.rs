use std::cell::RefCell;
use std::rc::Rc;
use phosphor::schedule::{DriverState, Engine, Stage};
use phosphor::world::World;

const EVENT_KEY: u64 = 50;

type Log = Rc<RefCell<Vec<u64>>>;

fn logging_dispatch(log: Log) -> impl Fn(u64, World<u64>) -> (World<u64>, Result<(), String>) {
    move |id: u64, w: World<u64>| {
        log.borrow_mut().push(id);
        (w, Ok(()))
    }
}

#[test]
fn stage_order_is_start_systems_then_draw_systems() {
    let mut engine: Engine<u64> = Engine::new();
    let a = 1u64;
    let b = 2u64;
    let c = 3u64;
    engine.add_system(Stage::Start, a);
    engine.add_system(Stage::Draw, b);
    engine.add_system(Stage::Start, c);
    let log: Log = Rc::new(RefCell::new(Vec::new()));
    let dispatch = logging_dispatch(log.clone());
    let (ran, r) = engine.init(&dispatch);
    assert!(r.is_ok());
    assert!(ran.is_empty());
    let (ran, r) = engine.start(&dispatch);
    assert!(r.is_ok());
    assert_eq!(ran, vec![a, c]);
    let (ran, r) = engine.tick(&dispatch);
    assert!(r.is_ok());
    assert_eq!(ran, vec![b]);
    // one pass produces the side effects of A, then C, then B
    assert_eq!(*log.borrow(), vec![a, c, b]);
    assert_eq!(engine.current_state(), DriverState::Running);
}

#[test]
fn predraw_failure_halts_before_draw_and_postdraw() {
    let mut engine: Engine<u64> = Engine::new();
    let bad = 10u64;
    let draw = 11u64;
    let post = 12u64;
    engine.add_system(Stage::PreDraw, bad);
    engine.add_system(Stage::Draw, draw);
    engine.add_system(Stage::PostDraw, post);
    let log: Log = Rc::new(RefCell::new(Vec::new()));
    let inner = log.clone();
    let dispatch = move |id: u64, w: World<u64>| {
        inner.borrow_mut().push(id);
        if id == bad {
            (w, Err("broken pipeline".to_string()))
        } else {
            (w, Ok(()))
        }
    };
    engine.init(&dispatch).1.unwrap();
    engine.start(&dispatch).1.unwrap();
    let (ran, r) = engine.tick(&dispatch);
    let failure = r.unwrap_err();
    assert_eq!(failure.stage, Stage::PreDraw);
    assert_eq!(failure.system, bad);
    assert_eq!(failure.error, "broken pipeline");
    // the failing system is the last that ran: no Draw or PostDraw system did
    assert_eq!(ran, vec![bad]);
    assert_eq!(*log.borrow(), vec![bad]);
    assert_eq!(engine.current_state(), DriverState::Stopped);
}

#[test]
fn init_failure_stops_the_driver_before_later_init_systems() {
    let mut engine: Engine<u64> = Engine::new();
    let first = 20u64;
    let failing = 21u64;
    let never = 22u64;
    engine.add_system(Stage::Init, first);
    engine.add_system(Stage::Init, failing);
    engine.add_system(Stage::Init, never);
    let log: Log = Rc::new(RefCell::new(Vec::new()));
    let inner = log.clone();
    let dispatch = move |id: u64, w: World<u64>| {
        inner.borrow_mut().push(id);
        if id == failing {
            (w, Err("required asset failed to load".to_string()))
        } else {
            (w, Ok(()))
        }
    };
    let (ran, r) = engine.init(&dispatch);
    let failure = r.unwrap_err();
    assert_eq!(failure.stage, Stage::Init);
    assert_eq!(failure.system, failing);
    assert_eq!(ran, vec![first, failing]);
    assert_eq!(*log.borrow(), vec![first, failing]);
    assert_eq!(engine.current_state(), DriverState::Stopped);
}

#[test]
fn systems_within_a_stage_observe_earlier_effects() {
    let mut engine: Engine<u64> = Engine::new();
    let writer = 30u64;
    let reader = 31u64;
    engine.add_system(Stage::Start, writer);
    engine.add_system(Stage::Start, reader);
    let seen: Rc<RefCell<Option<u64>>> = Rc::new(RefCell::new(None));
    let inner = seen.clone();
    let dispatch = move |id: u64, mut w: World<u64>| {
        if id == writer {
            w.add_resource(1, 5);
        } else {
            *inner.borrow_mut() = w.get_resource(1).ok().copied();
        }
        (w, Ok::<(), String>(()))
    };
    engine.init(&dispatch).1.unwrap();
    engine.start(&dispatch).1.unwrap();
    assert_eq!(*seen.borrow(), Some(5));
}

#[test]
fn a_system_can_register_a_system_for_a_later_stage() {
    let mut engine: Engine<u64> = Engine::new();
    let installer = 40u64;
    let installed = 41u64;
    engine.add_system(Stage::Init, installer);
    let log: Log = Rc::new(RefCell::new(Vec::new()));
    let inner = log.clone();
    let dispatch = move |id: u64, mut w: World<u64>| {
        inner.borrow_mut().push(id);
        if id == installer {
            w.add_system(Stage::Draw, installed);
        }
        (w, Ok::<(), String>(()))
    };
    engine.init(&dispatch).1.unwrap();
    engine.start(&dispatch).1.unwrap();
    let (ran, r) = engine.tick(&dispatch);
    assert!(r.is_ok());
    assert_eq!(ran, vec![installed]);
    assert_eq!(*log.borrow(), vec![installer, installed]);
}

#[test]
fn events_are_dispatched_as_transient_resources() {
    let mut engine: Engine<u64> = Engine::new();
    let handler = 60u64;
    engine.add_system(Stage::Event, handler);
    let seen: Log = Rc::new(RefCell::new(Vec::new()));
    let inner = seen.clone();
    let dispatch = move |id: u64, w: World<u64>| {
        if id == handler {
            inner.borrow_mut().push(*w.get_resource(EVENT_KEY).unwrap());
        }
        (w, Ok::<(), String>(()))
    };
    engine.init(&dispatch).1.unwrap();
    engine.start(&dispatch).1.unwrap();
    engine.dispatch_event(EVENT_KEY, 123, &dispatch).1.unwrap();
    engine.dispatch_event(EVENT_KEY, 124, &dispatch).1.unwrap();
    assert_eq!(*seen.borrow(), vec![123, 124]);
    assert_eq!(engine.current_state(), DriverState::Running);
}

#[test]
fn stop_ends_the_lifecycle() {
    let mut engine: Engine<u64> = Engine::new();
    let dispatch = |_id: u64, w: World<u64>| (w, Ok::<(), String>(()));
    engine.init(&dispatch).1.unwrap();
    engine.start(&dispatch).1.unwrap();
    assert_eq!(engine.current_state(), DriverState::Running);
    engine.stop();
    assert_eq!(engine.current_state(), DriverState::Stopped);
}

#[test]
fn driver_world_is_reachable_between_stages() {
    let mut engine: Engine<u64> = Engine::new();
    engine.world_mut().add_resource(2, 9);
    assert_eq!(engine.world().get_resource(2), Ok(&9));
}
