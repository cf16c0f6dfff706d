use splinter::{AppEvent, ApplicationState, EventStorage, EventSystem, EventTracker, ModpackOperationEvent};

fn consumed(commander: &splinter::EventCommander<'_, u32>) -> Vec<u32> {
    commander.consume().into_iter().copied().collect::<Vec<u32>>()
}

#[test]
fn basic() {
    let mut system: EventSystem<u32> = EventSystem::new();
    let mut tracker = EventTracker::new();
    let mut tracker2 = EventTracker::new();

    let mut commander = tracker.tick(&mut system);
    commander.dispatch(0u32);
    commander.dispatch(1u32);
    commander.dispatch(2u32);

    let mut commander = tracker2.tick(&mut system);
    commander.dispatch(5u32);
    commander.dispatch(6u32);

    assert_eq!(consumed(&commander), vec![0u32, 1u32, 2u32, 5u32, 6u32]);

    let mut commander = tracker.tick(&mut system);
    commander.dispatch(69u32);
    commander.dispatch(420u32);
    commander.dispatch(10u32);

    assert_eq!(consumed(&commander), vec![5u32, 6u32, 69u32, 420u32, 10u32]);

    let commander = tracker2.tick(&mut system);
    assert_eq!(consumed(&commander), vec![69u32, 420u32, 10u32]);
    let commander = tracker.tick(&mut system);

    assert_eq!(consumed(&commander), Vec::<u32>::new());
}

#[test]
fn consuming_a_quiet_bus_is_empty() {
    let mut system: EventSystem<u32> = EventSystem::new();
    let mut tracker = EventTracker::new();
    let commander = tracker.tick(&mut system);
    assert!(commander.consume().is_empty());
}

#[test]
fn second_tick_without_dispatch_sees_nothing() {
    let mut system: EventSystem<u32> = EventSystem::new();
    let mut a = EventTracker::new();
    let mut b = EventTracker::new();
    let mut commander = b.tick(&mut system);
    commander.dispatch(7);
    let mut commander = a.tick(&mut system);
    commander.dispatch(8);
    let commander = a.tick(&mut system);
    assert_eq!(consumed(&commander), Vec::<u32>::new());
}

#[test]
fn consumption_keeps_dispatch_order_across_trackers() {
    let mut system: EventSystem<u32> = EventSystem::new();
    let mut a = EventTracker::new();
    let mut b = EventTracker::new();
    let mut c = EventTracker::new();
    let mut commander = a.tick(&mut system);
    commander.dispatch(1);
    let mut commander = b.tick(&mut system);
    commander.dispatch(2);
    let mut commander = c.tick(&mut system);
    commander.dispatch(3);
    commander.dispatch(4);
    // a's second tick clears only what was dispatched at its first tick.
    let mut commander = a.tick(&mut system);
    commander.dispatch(5);
    assert_eq!(consumed(&commander), vec![2, 3, 4, 5]);
    let commander = system.run(&mut b);
    assert_eq!(consumed(&commander), vec![3, 4, 5]);
}

#[test]
fn storage_clears_through_an_id() {
    let mut storage: EventStorage<u32> = EventStorage::new();
    storage.clear_ids(3);
    let mut system: EventSystem<u32> = EventSystem::new();
    let mut t = EventTracker::new();
    let mut commander = t.tick(&mut system);
    commander.dispatch(9);
    assert_eq!(consumed(&commander), vec![9]);
}

#[test]
fn ambient_state_is_kept() {
    let mut system: EventSystem<u32, String> = EventSystem::new();
    system.set("theme".to_string());
    assert_eq!(system.get(), "theme");
    system.get_mut().push_str("-dark");
    assert_eq!(system.get(), "theme-dark");
}

#[test]
fn application_bus_carries_operations() {
    let mut state = ApplicationState::new();
    let mut header = EventTracker::new();
    let mut commander = header.tick(&mut state.events);
    commander.dispatch(AppEvent::Operation(ModpackOperationEvent::Split));
    let seen = commander.consume();
    assert_eq!(seen.len(), 1);
    assert!(matches!(seen[0], AppEvent::Operation(ModpackOperationEvent::Split)));
}
