use supervisor::manager::{dropped_duplicate_ids, ServiceError, ServiceManager};
use supervisor::service::{EnvPair, ServiceConfig, ServicesFile, WindowsOptions};

fn cfg(id: &str, exec: &str) -> ServiceConfig {
    ServiceConfig {
        id: id.to_string(),
        name: id.to_string(),
        exec_path: exec.to_string(),
        working_dir: None,
        args: Vec::new(),
        env: None,
        windows: None,
        autorun: None,
        url: None,
    }
}

fn empty_file() -> ServicesFile {
    ServicesFile { listen: None, keep_alive: None, services: Vec::new() }
}

fn order_of(mgr: &ServiceManager) -> Vec<String> {
    mgr.service_order.clone()
}

#[test]
fn upsert_then_list_shows_definition_not_running() {
    let mut mgr = ServiceManager::new(empty_file());
    mgr.upsert_service(cfg("first", "no_such_binary_q7x"));
    mgr.upsert_service(cfg("second", "no_such_binary_q8x"));
    let snaps = mgr.list();
    assert_eq!(snaps.len(), 2);
    assert_eq!(snaps[0].config.id, "first");
    assert_eq!(snaps[1].config.id, "second");
    assert!(!snaps[1].running);
    assert_eq!(snaps[1].pid, None);
}

#[test]
fn upsert_replaces_in_place_and_keeps_position() {
    let mut mgr = ServiceManager::new(empty_file());
    mgr.upsert_service(cfg("a", "x1"));
    mgr.upsert_service(cfg("b", "x2"));
    let mut replacement = cfg("a", "x3");
    replacement.name = "renamed".to_string();
    mgr.upsert_service(replacement);
    assert_eq!(order_of(&mgr), vec!["a".to_string(), "b".to_string()]);
    assert_eq!(mgr.services[0].config.name, "renamed");
    assert_eq!(mgr.services[0].config.exec_path, "x3");
}

#[test]
fn reorder_drops_unknown_collapses_duplicates_appends_missing() {
    let mut mgr = ServiceManager::new(empty_file());
    mgr.upsert_service(cfg("a", "x"));
    mgr.upsert_service(cfg("b", "x"));
    mgr.upsert_service(cfg("c", "x"));
    mgr.reorder_services(vec![
        "b".to_string(),
        "zz".to_string(),
        "b".to_string(),
        "a".to_string(),
    ]);
    assert_eq!(
        order_of(&mgr),
        vec!["b".to_string(), "a".to_string(), "c".to_string()]
    );
}

#[test]
fn order_stays_a_permutation_of_the_registry() {
    let mut mgr = ServiceManager::new(empty_file());
    mgr.upsert_service(cfg("a", "x"));
    mgr.upsert_service(cfg("b", "x"));
    mgr.upsert_service(cfg("c", "x"));
    mgr.reorder_services(vec!["c".to_string(), "q".to_string(), "c".to_string()]);
    mgr.remove_service("b").unwrap();
    mgr.upsert_service(cfg("d", "x"));
    let order = order_of(&mgr);
    assert_eq!(order.len(), mgr.services.len());
    for svc in mgr.services.iter() {
        assert_eq!(
            order.iter().filter(|o| **o == svc.config.id).count(),
            1,
            "id {} must appear exactly once in the order",
            svc.config.id
        );
    }
}

#[test]
fn load_keeps_first_definition_of_a_duplicated_id() {
    let mut one = cfg("dup", "x1");
    one.name = "one".to_string();
    let mut two = cfg("dup", "x2");
    two.name = "two".to_string();
    let other = cfg("other", "x3");
    let file = ServicesFile {
        listen: None,
        keep_alive: Some(5),
        services: vec![one, two, other],
    };
    let mgr = ServiceManager::new(file);
    assert_eq!(mgr.services.len(), 2);
    assert_eq!(order_of(&mgr), vec!["dup".to_string(), "other".to_string()]);
    assert_eq!(mgr.services[0].config.name, "one");
    assert_eq!(mgr.keep_alive_interval, 5);
}

#[test]
fn load_reports_which_duplicates_were_dropped() {
    let file = ServicesFile {
        listen: None,
        keep_alive: None,
        services: vec![cfg("dup", "x1"), cfg("dup", "x2"), cfg("other", "x3"), cfg("dup", "x4")],
    };
    assert_eq!(
        dropped_duplicate_ids(&file),
        vec!["dup".to_string(), "dup".to_string()]
    );
    let clean = ServicesFile { listen: None, keep_alive: None, services: vec![cfg("a", "x")] };
    assert!(dropped_duplicate_ids(&clean).is_empty());
}

#[test]
fn remove_unknown_id_is_an_error_and_changes_nothing() {
    let mut mgr = ServiceManager::new(empty_file());
    mgr.upsert_service(cfg("a", "x"));
    let r = mgr.remove_service("ghost");
    assert_eq!(r, Err(ServiceError::UnknownService));
    assert_eq!(order_of(&mgr), vec!["a".to_string()]);
    assert_eq!(mgr.services.len(), 1);
}

#[test]
fn remove_deletes_map_and_order_entries() {
    let mut mgr = ServiceManager::new(empty_file());
    mgr.upsert_service(cfg("a", "no_such_binary_q7x"));
    mgr.upsert_service(cfg("b", "no_such_binary_q8x"));
    mgr.remove_service("a").unwrap();
    assert_eq!(order_of(&mgr), vec!["b".to_string()]);
    assert_eq!(mgr.services.len(), 1);
    assert_eq!(mgr.services[0].config.id, "b");
    assert!(!mgr.has_service("a"));
}

#[test]
fn stop_on_unknown_id_is_an_error() {
    let mut mgr = ServiceManager::new(empty_file());
    let r = mgr.stop("ghost");
    assert_eq!(r, Err(ServiceError::UnknownService));
    assert_eq!(ServiceError::UnknownService.message(), "Service id not found");
}

#[test]
fn prepare_start_on_unknown_id_is_an_error() {
    let mut mgr = ServiceManager::new(empty_file());
    match mgr.prepare_start("ghost") {
        Err(ServiceError::UnknownService) => {}
        other => panic!("expected an unknown-service error, got {:?}", other.is_ok()),
    }
}

#[test]
fn prepare_start_materializes_the_launch_plan() {
    let mut mgr = ServiceManager::new(empty_file());
    let mut c = cfg("planned", "tool_q9z");
    c.working_dir = Some("workdir".to_string());
    c.args = vec!["--conf={CONF}".to_string(), "fixed".to_string()];
    c.env = Some(vec![EnvPair {
        key: "CONF".to_string(),
        value: "/etc/x.yaml".to_string(),
    }]);
    mgr.upsert_service(c);
    let plan = mgr.prepare_start("planned").unwrap().expect("not running, so a plan is owed");
    assert_eq!(plan.exec_path, "workdir/tool_q9z");
    assert_eq!(plan.args, vec!["--conf=/etc/x.yaml".to_string(), "fixed".to_string()]);
    assert_eq!(plan.working_dir, Some("workdir".to_string()));
    assert_eq!(plan.creation_flags, 0x00000008);
}

#[test]
fn configured_creation_flags_override_the_default() {
    let mut mgr = ServiceManager::new(empty_file());
    let mut c = cfg("flagged", "tool_q9z");
    c.windows = Some(WindowsOptions { creation_flags: Some(16) });
    mgr.upsert_service(c);
    let plan = mgr.prepare_start("flagged").unwrap().unwrap();
    assert_eq!(plan.creation_flags, 16);
}

#[test]
fn persist_state_round_trips_settings_and_order() {
    let mut mgr = ServiceManager::new(ServicesFile {
        listen: Some("127.0.0.1:9100".to_string()),
        keep_alive: None,
        services: Vec::new(),
    });
    mgr.upsert_service(cfg("a", "x1"));
    mgr.upsert_service(cfg("b", "x2"));
    mgr.reorder_services(vec!["b".to_string()]);
    mgr.set_global_config(7);
    let state = mgr.persist_state();
    assert_eq!(state.listen, Some("127.0.0.1:9100".to_string()));
    assert_eq!(state.keep_alive, Some(7));
    let ids: Vec<String> = state.services.iter().map(|c| c.id.clone()).collect();
    assert_eq!(ids, vec!["b".to_string(), "a".to_string()]);
    mgr.set_global_config(0);
    assert_eq!(mgr.persist_state().keep_alive, None);
}

#[test]
fn autorun_ids_follow_display_order() {
    let mut mgr = ServiceManager::new(empty_file());
    let mut a = cfg("a", "x");
    a.autorun = Some(true);
    let b = cfg("b", "x");
    let mut c = cfg("c", "x");
    c.autorun = Some(true);
    let mut d = cfg("d", "x");
    d.autorun = Some(false);
    mgr.upsert_service(a);
    mgr.upsert_service(b);
    mgr.upsert_service(c);
    mgr.upsert_service(d);
    mgr.reorder_services(vec!["c".to_string(), "a".to_string()]);
    assert_eq!(mgr.autorun_ids(), vec!["c".to_string(), "a".to_string()]);
}
