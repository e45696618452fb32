use std::time::Duration;

use supervisor::manager::ServiceManager;
use supervisor::service::{ServiceConfig, ServicesFile};

fn cfg(id: &str, exec: &str, args: &[&str]) -> ServiceConfig {
    ServiceConfig {
        id: id.to_string(),
        name: id.to_string(),
        exec_path: exec.to_string(),
        working_dir: None,
        args: args.iter().map(|a| a.to_string()).collect(),
        env: None,
        windows: None,
        autorun: None,
        url: None,
    }
}

fn empty_file() -> ServicesFile {
    ServicesFile { listen: None, keep_alive: None, services: Vec::new() }
}

/// The spawn glue an embedding program runs around the controller: asks
/// for the launch plan, spawns it, and records the outcome.
fn start_service(
    rt: &tokio::runtime::Runtime,
    mgr: &mut ServiceManager,
    id: &str,
) -> Result<(), String> {
    match mgr.prepare_start(id) {
        Err(e) => Err(e.message().to_string()),
        Ok(None) => Ok(()),
        Ok(Some(plan)) => {
            let _guard = rt.enter();
            let mut cmd = tokio::process::Command::new(&plan.exec_path);
            cmd.args(&plan.args);
            if let Some(dir) = &plan.working_dir {
                cmd.current_dir(dir);
            }
            match cmd.spawn() {
                Ok(child) => {
                    let pid = child.id().unwrap_or(0);
                    mgr.record_spawn(id, child, pid);
                    Ok(())
                }
                Err(e) => Err(e.to_string()),
            }
        }
    }
}

fn pause(rt: &tokio::runtime::Runtime, ms: u64) {
    rt.block_on(async move { tokio::time::sleep(Duration::from_millis(ms)).await });
}

#[test]
fn starting_a_running_service_spawns_nothing_new() {
    let rt = tokio::runtime::Runtime::new().unwrap();
    let mut mgr = ServiceManager::new(empty_file());
    mgr.upsert_service(cfg("tailsvc", "/usr/bin/tail", &["-f", "/dev/null"]));
    start_service(&rt, &mut mgr, "tailsvc").unwrap();
    let pid1 = mgr.services[0].last_known_pid;
    assert!(pid1.unwrap_or(0) > 0, "spawn must record a real pid");
    assert!(mgr.is_running("tailsvc"));

    match mgr.prepare_start("tailsvc") {
        Ok(None) => {}
        _ => panic!("a second start of a running service must be a quiet success"),
    }
    start_service(&rt, &mut mgr, "tailsvc").unwrap();
    assert_eq!(mgr.services[0].last_known_pid, pid1, "no new process may be recorded");

    mgr.stop("tailsvc").unwrap();
    assert_eq!(mgr.services[0].last_known_pid, None);
    pause(&rt, 400);
}

#[test]
fn stop_kills_detected_children_before_the_parent() {
    let rt = tokio::runtime::Runtime::new().unwrap();
    let mut mgr = ServiceManager::new(empty_file());
    mgr.upsert_service(cfg(
        "locksvc",
        "/usr/bin/flock",
        &["/tmp/supervisor_lifecycle_test.lock", "tail", "-f", "/dev/null"],
    ));
    start_service(&rt, &mut mgr, "locksvc").unwrap();
    let parent = mgr.services[0].last_known_pid.unwrap();
    pause(&rt, 400);

    mgr.probe.refresh();
    let children = mgr.probe.children_of(parent);
    assert!(!children.is_empty(), "the lock holder must have spawned its child");

    mgr.stop("locksvc").unwrap();
    pause(&rt, 600);
    mgr.probe.refresh();
    assert!(!mgr.probe.is_alive(parent), "the parent must be gone");
    for child in children {
        assert!(!mgr.probe.is_alive(child), "each child must be gone");
    }
    assert!(mgr.probe.find_by_name("flock").is_none());
}

#[test]
fn stop_sweeps_every_process_sharing_the_executable_name() {
    let rt = tokio::runtime::Runtime::new().unwrap();
    let (mut loose_a, mut loose_b) = {
        let _guard = rt.enter();
        let a = tokio::process::Command::new("/usr/bin/tail")
            .args(["-f", "/dev/null"])
            .spawn()
            .unwrap();
        let b = tokio::process::Command::new("/usr/bin/tail")
            .args(["-f", "/dev/null"])
            .spawn()
            .unwrap();
        (a, b)
    };
    pause(&rt, 300);

    let file = ServicesFile {
        listen: None,
        keep_alive: None,
        services: vec![cfg("tailsvc", "/usr/bin/tail", &["-f", "/dev/null"])],
    };
    let mut mgr = ServiceManager::new(file);
    assert!(
        mgr.services[0].last_known_pid.is_some(),
        "a process with the executable's name must be adopted"
    );

    mgr.stop("tailsvc").unwrap();
    rt.block_on(async {
        let _ = loose_a.wait().await;
        let _ = loose_b.wait().await;
    });
    mgr.probe.refresh();
    assert!(
        mgr.probe.find_by_name("tail").is_none(),
        "the sweep must leave no process with the executable's name"
    );
}

#[test]
fn keep_alive_restarts_an_externally_killed_autorun_service() {
    let rt = tokio::runtime::Runtime::new().unwrap();
    let mut autorun_svc = cfg("kasvc", "/usr/bin/tail", &["-f", "/dev/null"]);
    autorun_svc.autorun = Some(true);
    let file = ServicesFile {
        listen: None,
        keep_alive: Some(1),
        services: vec![autorun_svc],
    };
    let mut mgr = ServiceManager::new(file);
    assert_eq!(mgr.keep_alive_interval, 1);

    let first_tick = mgr.keep_alive_candidates();
    assert_eq!(first_tick, vec!["kasvc".to_string()]);
    for id in &first_tick {
        start_service(&rt, &mut mgr, id).unwrap();
    }
    assert!(mgr.is_running("kasvc"));
    let pid = mgr.services[0].last_known_pid.unwrap();

    mgr.probe.refresh();
    assert!(mgr.probe.kill(pid), "the external kill must reach the process");
    pause(&rt, 400);

    let second_tick = mgr.keep_alive_candidates();
    assert_eq!(second_tick, vec!["kasvc".to_string()], "the dead service must be picked up");
    for id in &second_tick {
        start_service(&rt, &mut mgr, id).unwrap();
    }
    assert!(mgr.is_running("kasvc"));
    assert!(mgr.services[0].last_known_pid.unwrap() != pid);

    mgr.stop("kasvc").unwrap();
    pause(&rt, 400);
}
