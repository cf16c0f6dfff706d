use splinter::{
    AppEvent, ApplicationState, AskingKind, EventTracker, Modpack, ModpackOperationEvent, ModpackStatus, Plugin,
    PluginMetadata, PluginStatus, ProgressEvent, ProgressStatus,
};

fn meta(id: &str, deps: &[&str]) -> PluginMetadata {
    PluginMetadata {
        id: id.to_string(),
        provides: vec![],
        contains: vec![],
        version: "1.0".to_string(),
        name: id.to_uppercase(),
        icon: None,
        depends_on: deps.iter().map(|d| d.to_string()).collect(),
    }
}

fn plugin(id: &str, deps: &[&str]) -> Plugin {
    Plugin::new(meta(id, deps))
}

/// A loaded modpack holding `plugins`.
fn loaded(plugins: Vec<Plugin>) -> (Modpack, ApplicationState) {
    let mut state = ApplicationState::new();
    let mut pack = Modpack::new("pack".to_string(), plugins.len());
    pack.update(&mut state, plugins.into_iter().map(Some).collect());
    assert!(!pack.is_loading());
    (pack, state)
}

fn statuses(pack: &Modpack) -> Vec<PluginStatus> {
    pack.plugins().iter().iter().map(|p| p.status).collect()
}

fn status_of(pack: &Modpack, id: &str) -> PluginStatus {
    pack.plugins().get(id).unwrap().status
}

fn enabled_count(pack: &Modpack) -> usize {
    statuses(pack).iter().filter(|s| **s == PluginStatus::Enabled).count()
}

#[test]
fn split_keeps_dependency_enabled() {
    for _ in 0..50 {
        let (mut pack, _) = loaded(vec![
            plugin("a", &[]),
            plugin("b", &[]),
            plugin("c", &[]),
            plugin("d", &["c"]),
        ]);
        pack.split();
        assert_eq!(enabled_count(&pack), 2);
        assert!(!(status_of(&pack, "d") == PluginStatus::Enabled && status_of(&pack, "c") != PluginStatus::Enabled));
    }
}

#[test]
fn split_disables_half_of_independent_plugins() {
    let (mut pack, _) = loaded((0..7).map(|i| plugin(&format!("p{i}"), &[])).collect());
    pack.split();
    let disabled = statuses(&pack).iter().filter(|s| **s == PluginStatus::Disabled).count();
    assert_eq!(disabled, 3);
    // The least stable candidates go first; with equal stability the last registered.
    assert_eq!(
        statuses(&pack),
        vec![
            PluginStatus::Enabled,
            PluginStatus::Enabled,
            PluginStatus::Enabled,
            PluginStatus::Enabled,
            PluginStatus::Disabled,
            PluginStatus::Disabled,
            PluginStatus::Disabled
        ]
    );
}

#[test]
fn split_prefers_less_stable_plugins() {
    let mut stable = plugin("lib", &[]);
    stable.stability = 10;
    let (mut pack, _) = loaded(vec![plugin("x", &[]), stable, plugin("y", &[]), plugin("z", &[])]);
    pack.split();
    assert_eq!(status_of(&pack, "lib"), PluginStatus::Enabled);
    assert_eq!(status_of(&pack, "x"), PluginStatus::Enabled);
    assert_eq!(status_of(&pack, "y"), PluginStatus::Disabled);
    assert_eq!(status_of(&pack, "z"), PluginStatus::Disabled);
}

#[test]
fn second_split_rules_out_the_disabled() {
    let (mut pack, _) = loaded((0..4).map(|i| plugin(&format!("p{i}"), &[])).collect());
    pack.split();
    pack.split();
    assert_eq!(
        statuses(&pack),
        vec![PluginStatus::Enabled, PluginStatus::Disabled, PluginStatus::NotTheProblem, PluginStatus::NotTheProblem]
    );
}

#[test]
fn split_of_a_single_plugin_disables_nothing() {
    let (mut pack, _) = loaded(vec![plugin("only", &[])]);
    pack.split();
    assert_eq!(statuses(&pack), vec![PluginStatus::Enabled]);
}

#[test]
fn invert_twice_restores() {
    let (mut pack, _) = loaded((0..5).map(|i| plugin(&format!("p{i}"), &[])).collect());
    pack.split();
    let before = statuses(&pack);
    pack.invert();
    assert_ne!(statuses(&pack), before);
    pack.invert();
    assert_eq!(statuses(&pack), before);
}

#[test]
fn invert_swaps_and_leaves_ruled_out_and_locked() {
    let (mut pack, _) = loaded((0..4).map(|i| plugin(&format!("p{i}"), &[])).collect());
    pack.split();
    pack.split();
    pack.cycle_forced(0);
    pack.invert();
    assert_eq!(
        statuses(&pack),
        vec![PluginStatus::Enabled, PluginStatus::Enabled, PluginStatus::NotTheProblem, PluginStatus::NotTheProblem]
    );
    assert_eq!(pack.plugins().at(0).forced_status, Some(false));
}

#[test]
fn undo_and_redo_retrace_operations() {
    let (mut pack, _) = loaded((0..6).map(|i| plugin(&format!("p{i}"), &[])).collect());
    let start = statuses(&pack);
    pack.split();
    pack.invert();
    pack.split();
    let end = statuses(&pack);
    assert!(pack.can_undo());
    assert!(!pack.can_redo());
    for _ in 0..3 {
        pack.undo();
    }
    assert_eq!(statuses(&pack), start);
    assert!(!pack.can_undo());
    pack.undo();
    assert_eq!(statuses(&pack), start);
    for _ in 0..3 {
        pack.redo();
    }
    assert_eq!(statuses(&pack), end);
    assert!(!pack.can_redo());
}

#[test]
fn new_operation_after_undo_drops_the_future() {
    let (mut pack, _) = loaded((0..4).map(|i| plugin(&format!("p{i}"), &[])).collect());
    pack.split();
    pack.undo();
    pack.invert();
    assert!(!pack.can_redo());
    pack.undo();
    assert_eq!(statuses(&pack), vec![PluginStatus::Enabled; 4]);
}

#[test]
fn locked_dependency_is_asked_not_enabled() {
    let mut locked = plugin("c", &[]);
    locked.forced_status = Some(false);
    locked.status = PluginStatus::Disabled;
    let mut dependant = plugin("d", &["c"]);
    dependant.stability = 5;
    let (mut pack, _) = loaded(vec![plugin("a", &[]), plugin("b", &[]), locked, dependant]);
    assert_eq!(status_of(&pack, "c"), PluginStatus::Disabled);
    pack.split();
    // A locked plugin is left as it is.
    assert_eq!(status_of(&pack, "c"), PluginStatus::Disabled);
    assert_eq!(status_of(&pack, "d"), PluginStatus::Enabled);
    assert_eq!(status_of(&pack, "b"), PluginStatus::Disabled);
    let asks = pack.to_ask();
    assert_eq!(asks.len(), 1);
    assert_eq!(asks[0].id, "c");
    assert_eq!(asks[0].depended_by, vec!["d".to_string()]);
    assert_eq!(asks[0].kind, AskingKind::SplitDependency);
}

#[test]
fn closure_leaves_locked_plugins() {
    let mut held = plugin("held", &[]);
    held.forced_status = Some(true);
    held.status = PluginStatus::NotTheProblem;
    let (pack, _) = loaded(vec![plugin("user", &["held"]), held]);
    assert_eq!(status_of(&pack, "held"), PluginStatus::NotTheProblem);
}

#[test]
fn loading_runs_the_closure() {
    let mut off = plugin("base", &[]);
    off.status = PluginStatus::Disabled;
    let (pack, _) = loaded(vec![plugin("top", &["base"]), off]);
    assert_eq!(status_of(&pack, "base"), PluginStatus::Enabled);
}

#[test]
fn closure_runs_to_a_fixpoint_and_is_idempotent() {
    let mut list = splinter::PluginList::new();
    let mut a = plugin("a", &["b"]);
    a.status = PluginStatus::Enabled;
    let mut b = plugin("b", &["c"]);
    b.status = PluginStatus::Disabled;
    let mut c = plugin("c", &["minecraft"]);
    c.status = PluginStatus::NotTheProblem;
    let mut e = plugin("e", &[]);
    e.status = PluginStatus::Disabled;
    list.add(a);
    list.add(b);
    list.add(c);
    list.add(e);
    list.enable_dependencies();
    let once: Vec<PluginStatus> = list.iter().iter().map(|p| p.status).collect();
    assert_eq!(once, vec![PluginStatus::Enabled, PluginStatus::Enabled, PluginStatus::Enabled, PluginStatus::Disabled]);
    list.enable_dependencies();
    let twice: Vec<PluginStatus> = list.iter().iter().map(|p| p.status).collect();
    assert_eq!(once, twice);
}

#[test]
fn display_groups_by_status_sorted_by_id() {
    let (mut pack, _) = loaded(vec![plugin("zeta", &[]), plugin("alpha", &[]), plugin("mid", &[]), plugin("beta", &[])]);
    pack.split();
    let groups = pack.display_order();
    assert_eq!(
        groups,
        &vec![
            (PluginStatus::Enabled, vec!["alpha".to_string(), "zeta".to_string()]),
            (PluginStatus::Disabled, vec!["beta".to_string(), "mid".to_string()]),
        ]
    );
}

#[test]
fn display_puts_prefixes_first() {
    let (pack, _) = loaded(vec![plugin("ab", &[]), plugin("a", &[]), plugin("B", &[])]);
    assert_eq!(
        pack.display_order(),
        &vec![(PluginStatus::Enabled, vec!["B".to_string(), "a".to_string(), "ab".to_string()])]
    );
}

#[test]
fn operations_arrive_over_the_bus() {
    let (mut pack, mut state) = loaded((0..4).map(|i| plugin(&format!("p{i}"), &[])).collect());
    let mut header = EventTracker::new();
    let mut commander = header.tick(&mut state.events);
    commander.dispatch(AppEvent::Operation(ModpackOperationEvent::Split));
    commander.dispatch(AppEvent::Operation(ModpackOperationEvent::Invert));
    pack.update(&mut state, vec![]);
    assert_eq!(
        statuses(&pack),
        vec![PluginStatus::Disabled, PluginStatus::Disabled, PluginStatus::Enabled, PluginStatus::Enabled]
    );
    match &state.modpack_status {
        ModpackStatus::Active { path, is_loaded, can_undo, can_redo } => {
            assert_eq!(path, "pack");
            assert!(*is_loaded);
            assert!(*can_undo);
            assert!(!*can_redo);
        }
        ModpackStatus::Empty => panic!("modpack status not set"),
    }
}

#[test]
fn operations_wait_while_loading() {
    let mut state = ApplicationState::new();
    let mut pack = Modpack::new("pack".to_string(), 3);
    pack.update(&mut state, vec![Some(plugin("a", &[]))]);
    assert!(pack.is_loading());
    pack.split();
    pack.invert();
    pack.undo();
    assert_eq!(statuses(&pack), vec![PluginStatus::Enabled]);
    assert!(!pack.can_undo());
}

#[test]
fn release_enables_unlocked_plugins() {
    let (mut pack, _) = loaded((0..4).map(|i| plugin(&format!("p{i}"), &[])).collect());
    pack.split();
    pack.cycle_forced(3);
    pack.release();
    assert_eq!(
        statuses(&pack),
        vec![PluginStatus::Enabled, PluginStatus::Enabled, PluginStatus::Enabled, PluginStatus::Disabled]
    );
}

#[test]
fn loading_reports_progress_then_completion() {
    let mut state = ApplicationState::new();
    let mut header = EventTracker::new();
    let mut pack = Modpack::new("pack".to_string(), 3);
    pack.update(&mut state, vec![Some(plugin("a", &[]))]);
    {
        let commander = header.tick(&mut state.events);
        let progress: Vec<ProgressEvent> = commander
            .consume()
            .into_iter()
            .filter_map(|e| if let AppEvent::Progress(p) = e { Some(*p) } else { None })
            .collect();
        assert_eq!(progress, vec![ProgressEvent(Some(ProgressStatus::Determinate { done: 1, total: 3 }))]);
    }
    // One plugin could not be read: two are expected in all now.
    pack.update(&mut state, vec![None, Some(plugin("b", &[]))]);
    assert!(!pack.is_loading());
    let commander = header.tick(&mut state.events);
    let progress: Vec<ProgressEvent> = commander
        .consume()
        .into_iter()
        .filter_map(|e| if let AppEvent::Progress(p) = e { Some(*p) } else { None })
        .collect();
    assert_eq!(progress, vec![ProgressEvent(None)]);
}

#[test]
fn empty_modpack_loads_at_once() {
    let (mut pack, _) = loaded(vec![]);
    pack.split();
    pack.invert();
    assert!(statuses(&pack).is_empty());
    assert!(pack.can_undo());
    pack.undo();
    pack.undo();
    assert!(!pack.can_undo());
    assert!(pack.display_order().is_empty());
}

#[test]
fn display_follows_arrivals_while_loading() {
    let mut state = ApplicationState::new();
    let mut pack = Modpack::new("pack".to_string(), 3);
    pack.update(&mut state, vec![Some(plugin("m", &[])), Some(plugin("k", &[]))]);
    assert!(pack.is_loading());
    assert_eq!(pack.display_order(), &vec![(PluginStatus::Enabled, vec!["k".to_string(), "m".to_string()])]);
}

#[test]
fn undo_after_invert_gives_back_the_old_statuses() {
    let (mut pack, _) = loaded((0..4).map(|i| plugin(&format!("p{i}"), &[])).collect());
    pack.split();
    let before = statuses(&pack);
    pack.invert();
    assert!(pack.can_undo());
    assert!(!pack.can_redo());
    pack.undo();
    assert_eq!(statuses(&pack), before);
}

#[test]
fn split_never_disables_more_than_half() {
    for _ in 0..30 {
        let (mut pack, _) = loaded(vec![
            plugin("a", &["b"]),
            plugin("b", &["c"]),
            plugin("c", &[]),
            plugin("d", &["a"]),
            plugin("e", &[]),
        ]);
        pack.split();
        let disabled = statuses(&pack).iter().filter(|s| **s == PluginStatus::Disabled).count();
        assert!(disabled <= 2);
        assert!(statuses(&pack).iter().all(|s| *s != PluginStatus::NotTheProblem));
    }
}

#[test]
fn display_lists_each_held_status_once() {
    let mut locked = plugin("locked", &[]);
    locked.forced_status = Some(false);
    locked.status = PluginStatus::Disabled;
    let (mut pack, _) = loaded(vec![plugin("x", &[]), plugin("y", &[]), locked]);
    pack.split();
    pack.split();
    let statuses: Vec<PluginStatus> = pack.display_order().iter().map(|(s, _)| *s).collect();
    assert_eq!(statuses, vec![PluginStatus::Enabled, PluginStatus::Disabled, PluginStatus::NotTheProblem]);
    assert_eq!(pack.display_order()[1].1, vec!["locked".to_string()]);
}
