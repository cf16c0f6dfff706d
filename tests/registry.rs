use splinter::{FileExtension, FileStatus, FileSuffix, Plugin, PluginList, PluginMetadata, PluginStatus, Status};

fn meta(id: &str, provides: &[&str], deps: &[&str], contains: Vec<PluginMetadata>) -> PluginMetadata {
    PluginMetadata {
        id: id.to_string(),
        provides: provides.iter().map(|p| p.to_string()).collect(),
        contains,
        version: "0.1".to_string(),
        name: format!("{id} mod"),
        icon: None,
        depends_on: deps.iter().map(|d| d.to_string()).collect(),
    }
}

#[test]
fn status_helpers() {
    assert!(PluginStatus::Enabled.enabled());
    assert!(!PluginStatus::Disabled.enabled());
    assert!(!Status::NotTheProblem.enabled());
    assert_eq!(
        PluginStatus::iter(),
        [PluginStatus::Enabled, PluginStatus::Disabled, PluginStatus::NotTheProblem]
    );
}

#[test]
fn plugin_lock_overrides_status() {
    let mut p = Plugin::new(meta("a", &[], &[], vec![]));
    assert!(p.enabled());
    assert!(p.should_split());
    p.cycle_forced();
    assert_eq!(p.forced_status, Some(false));
    assert!(!p.enabled());
    assert!(!p.should_split());
    p.cycle_forced();
    assert_eq!(p.forced_status, Some(true));
    p.status = PluginStatus::Disabled;
    assert!(p.enabled());
    p.cycle_forced();
    assert_eq!(p.forced_status, None);
    assert!(!p.enabled());
}

#[test]
fn lookup_by_id_and_alias() {
    let mut list = PluginList::new();
    let collisions = list.add(Plugin::new(meta("fabric-api", &["fabric"], &[], vec![])));
    assert!(collisions.is_empty());
    list.add(Plugin::new(meta("sodium", &[], &["fabric"], vec![])));
    assert_eq!(list.len(), 2);
    assert!(list.contains("fabric"));
    assert_eq!(list.index_of("fabric"), Some(0));
    assert_eq!(list.get("sodium").unwrap().metadata.id, "sodium");
    assert!(list.get("minecraft").is_none());
    assert!(!list.contains("minecraft"));
}

#[test]
fn later_registration_wins_a_collision() {
    let mut list = PluginList::new();
    list.add(Plugin::new(meta("a", &["shared"], &[], vec![])));
    let collisions = list.add(Plugin::new(meta("b", &["shared", "a"], &[], vec![])));
    assert_eq!(collisions.len(), 2);
    assert_eq!(collisions[0].id, "shared");
    assert_eq!(collisions[0].previous, 0);
    assert_eq!(collisions[1].id, "a");
    assert_eq!(list.index_of("shared"), Some(1));
    assert_eq!(list.index_of("a"), Some(1));
    assert_eq!(list.index_of("b"), Some(1));
}

#[test]
fn duplicate_ids_are_reported_on_the_bus() {
    let mut state = splinter::ApplicationState::new();
    let mut pack = splinter::Modpack::new("pack".to_string(), 2);
    pack.update(
        &mut state,
        vec![Some(Plugin::new(meta("x", &[], &[], vec![]))), Some(Plugin::new(meta("x", &[], &[], vec![])))],
    );
    let mut reader = splinter::EventTracker::new();
    let commander = reader.tick(&mut state.events);
    let notes: Vec<String> = commander
        .consume()
        .into_iter()
        .filter_map(|e| if let splinter::AppEvent::Notification(n) = e { Some(n.description.clone()) } else { None })
        .collect();
    assert_eq!(notes, vec!["Mod \"x mod\" and \"x mod\" have the same id \"x\"".to_string()]);
}

#[test]
fn flatten_collects_nested_dependencies_once() {
    let inner = meta("inner", &[], &["lib", "core"], vec![meta("deep", &[], &["extra"], vec![])]);
    let mut outer = meta("outer", &[], &["core"], vec![inner]);
    outer.flatten_depends();
    let mut deps = outer.depends_on.clone();
    deps.sort();
    assert_eq!(deps, vec!["core".to_string(), "extra".to_string(), "lib".to_string()]);
}

#[test]
fn nested_ids_are_collected() {
    let m = meta("outer", &[], &[], vec![meta("a", &[], &[], vec![meta("b", &[], &[], vec![])]), meta("c", &[], &[], vec![])]);
    let mut ids = PluginMetadata::nested_ids(&m);
    ids.sort();
    assert_eq!(ids, vec!["a".to_string(), "b".to_string(), "c".to_string()]);
}

#[test]
fn nested_ids_resolve_after_loading() {
    let mut state = splinter::ApplicationState::new();
    let mut pack = splinter::Modpack::new("pack".to_string(), 2);
    let bundle = meta("bundle", &[], &[], vec![meta("bundled-lib", &[], &[], vec![])]);
    pack.update(
        &mut state,
        vec![Some(Plugin::new(meta("user", &[], &["bundled-lib"], vec![]))), Some(Plugin::new(bundle))],
    );
    assert!(!pack.is_loading());
    assert_eq!(pack.plugins().index_of("bundled-lib"), Some(1));
}

#[test]
fn set_status_and_lock_by_position() {
    let mut list = PluginList::new();
    list.add(Plugin::new(meta("a", &[], &[], vec![])));
    list.set_status(0, PluginStatus::NotTheProblem);
    list.set_forced(0, Some(true));
    assert_eq!(list.at(0).status, PluginStatus::NotTheProblem);
    assert_eq!(list.at(0).forced_status, Some(true));
    assert_eq!(list.bind("alias", 0), None);
    list.bind_if_vacant("alias", 0);
    assert_eq!(list.index_of("alias"), Some(0));
}

#[test]
fn dependants_and_unmet_dependencies() {
    let mut list = PluginList::new();
    list.add(Plugin::new(meta("a", &[], &["c"], vec![])));
    list.add(Plugin::new(meta("b", &[], &["c", "minecraft"], vec![])));
    let mut c = Plugin::new(meta("c", &[], &[], vec![]));
    c.status = PluginStatus::Disabled;
    list.add(c);
    assert_eq!(list.get_dependant_disabled_mods(), vec!["c".to_string()]);
    assert_eq!(list.find_dependants("c"), vec!["a".to_string(), "b".to_string()]);
    let pool = list.splittable_plugins();
    assert_eq!(pool, vec![0, 1]);
}

#[test]
fn file_extensions_are_read() {
    assert_eq!(FileExtension::parse("jar"), Some(FileExtension::Jar));
    assert_eq!(FileExtension::parse("disabled"), Some(FileExtension::Disabled));
    assert_eq!(FileExtension::parse("tempdisabled"), Some(FileExtension::TempDisabled));
    assert_eq!(FileExtension::parse("txt"), None);
    assert_eq!(FileExtension::parse(""), None);
}

#[test]
fn file_state_maps_to_plugin_state() {
    assert_eq!(FileStatus::ForceDisabled.forced(), Some(false));
    assert_eq!(FileStatus::Enabled.forced(), None);
    assert_eq!(FileStatus::Enabled.status(), PluginStatus::Enabled);
    assert_eq!(FileStatus::Disabled.status(), PluginStatus::Disabled);
    assert_eq!(FileStatus::ForceDisabled.status(), PluginStatus::Disabled);
}

#[test]
fn file_suffix_follows_lock_then_status() {
    let mut p = Plugin::new(meta("a", &[], &[], vec![]));
    assert_eq!(p.file_suffix(), FileSuffix::Jar);
    p.status = PluginStatus::NotTheProblem;
    assert_eq!(p.file_suffix(), FileSuffix::TempDisabled);
    p.forced_status = Some(true);
    assert_eq!(p.file_suffix(), FileSuffix::Jar);
    p.forced_status = Some(false);
    p.status = PluginStatus::Enabled;
    assert_eq!(p.file_suffix(), FileSuffix::Disabled);
}

#[test]
fn flatten_drops_the_plugins_own_id() {
    let inner = meta("inner", &[], &["outer", "lib"], vec![]);
    let mut outer = meta("outer", &[], &["outer", "core"], vec![inner]);
    outer.flatten_depends();
    let mut deps = outer.depends_on.clone();
    deps.sort();
    assert_eq!(deps, vec!["core".to_string(), "lib".to_string()]);
}

#[test]
fn dependants_come_in_registry_order_once_each() {
    let mut list = PluginList::new();
    list.add(Plugin::new(meta("z", &[], &["c", "c"], vec![])));
    list.add(Plugin::new(meta("a", &[], &["c"], vec![])));
    list.add(Plugin::new(meta("c", &[], &[], vec![])));
    assert_eq!(list.find_dependants("c"), vec!["z".to_string(), "a".to_string()]);
}

#[test]
fn nested_ids_do_not_take_registered_keys() {
    let mut state = splinter::ApplicationState::new();
    let mut pack = splinter::Modpack::new("pack".to_string(), 2);
    let bundle = meta("bundle", &[], &[], vec![meta("lib", &[], &[], vec![])]);
    pack.update(&mut state, vec![Some(Plugin::new(bundle)), Some(Plugin::new(meta("lib", &[], &[], vec![])))]);
    assert_eq!(pack.plugins().index_of("lib"), Some(1));
}

#[test]
fn metadata_from_a_manifest_tree() {
    let tree = meta("top", &[], &["a", "top"], vec![meta("mid", &[], &["b", "a"], vec![meta("leaf", &[], &["c"], vec![])])]);
    let m = PluginMetadata::new(tree);
    let mut deps = m.depends_on.clone();
    deps.sort();
    assert_eq!(deps, vec!["a".to_string(), "b".to_string(), "c".to_string()]);
    assert_eq!(m.id, "top");
    assert_eq!(m.contains.len(), 1);
}

#[test]
fn nested_id_points_at_the_first_bundler() {
    let mut state = splinter::ApplicationState::new();
    let mut pack = splinter::Modpack::new("pack".to_string(), 3);
    pack.update(
        &mut state,
        vec![
            Some(Plugin::new(meta("plain", &[], &[], vec![]))),
            Some(Plugin::new(meta("first", &[], &[], vec![meta("lib", &[], &[], vec![])]))),
            Some(Plugin::new(meta("second", &[], &[], vec![meta("lib", &[], &[], vec![])]))),
        ],
    );
    assert_eq!(pack.plugins().index_of("lib"), Some(1));
}

#[test]
fn a_round_disables_the_tail_then_closes() {
    let mut list = PluginList::new();
    list.add(Plugin::new(meta("a", &[], &["c"], vec![])));
    list.add(Plugin::new(meta("b", &[], &[], vec![])));
    list.add(Plugin::new(meta("c", &[], &[], vec![])));
    list.add(Plugin::new(meta("d", &[], &[], vec![])));
    let mut pool = vec![0, 1, 2, 3];
    let popped = list.disable_round(&mut pool, 2);
    assert_eq!(popped, 2);
    assert_eq!(pool, vec![0, 1]);
    let statuses: Vec<PluginStatus> = list.iter().iter().map(|p| p.status).collect();
    // c was disabled, then enabled again because a needs it.
    assert_eq!(statuses, vec![PluginStatus::Enabled, PluginStatus::Enabled, PluginStatus::Enabled, PluginStatus::Disabled]);
    let mut short = vec![1];
    assert_eq!(list.disable_round(&mut short, 5), 1);
    assert!(short.is_empty());
}
