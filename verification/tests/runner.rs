use oracle::error::OracleError;
use oracle::model::{LocalTarget, Project};
use oracle::runner::{
    adoption_note, apply_port_override, command_note, exit_outcome, launch_env, names_a_port,
    forcing_note, override_note, readiness_outcome, stop_step, stopping_note, Handle, ProjectStatus,
    Registry, StopStep,
};

#[test]
fn an_override_adds_the_flag_only_where_the_environment_is_ignored() {
    // Vite and serve read the flag, not PORT.
    assert_eq!(apply_port_override("npx vite", 3001), "npx vite --port 3001");
    assert_eq!(apply_port_override("npx serve .", 8081), "npx serve . --port 8081");

    // Everything else is left alone: PORT in the environment already covers it, and
    // appending a flag a program does not know is how a start turns into a usage error.
    assert_eq!(apply_port_override("npm run dev", 3001), "npm run dev");
    assert_eq!(apply_port_override("cargo run", 3001), "cargo run");
}

#[test]
fn an_explicit_port_in_the_command_is_never_rewritten() {
    for command in [
        "npx vite --port 4000",
        "npx vite --port=4000",
        "npx serve -l 4000",
        "npx serve -p 4000",
        "PORT=4000 npm start",
    ] {
        assert_eq!(apply_port_override(command, 3001), command);
    }
}

#[test]
fn the_flag_survives_a_path_qualified_binary() {
    assert_eq!(
        apply_port_override("./node_modules/.bin/vite", 3001),
        "./node_modules/.bin/vite --port 3001"
    );
}

#[test]
fn a_port_is_recognised_in_every_spelling() {
    assert!(names_a_port("vite --port 1"));
    assert!(names_a_port("serve -l 1"));
    assert!(!names_a_port("vite --host"));
}

fn local_project(id: &str, name: &str, command: &str, port: Option<u16>) -> Project {
    let mut p = Project::new(name.to_string()).unwrap();
    p.id = id.to_string();
    let mut local = LocalTarget::new("/srv/app".to_string(), command.to_string());
    local.port = port;
    p.local = Some(local);
    p
}

fn handle(id: &str, name: &str, port: Option<u16>) -> Handle {
    Handle {
        project_id: id.to_string(),
        pid: 100,
        name: name.to_string(),
        port,
        started_at: 0,
        status: ProjectStatus::Starting,
        adopted: false,
    }
}

#[test]
fn starting_without_a_local_target_is_rejected() {
    let registry = Registry::new();
    let mut p = Project::new("Remote only".to_string()).unwrap();
    p.id = "r".to_string();
    let err = registry.check_start(&p, None, true, |_| false, |_| None).err().unwrap();
    assert_eq!(err.code(), "no_local_target");
}

#[test]
fn an_empty_command_is_rejected() {
    let registry = Registry::new();
    let p = local_project("a", "App", "   ", None);
    let err = registry.check_start(&p, None, true, |_| false, |_| None).err().unwrap();
    assert_eq!(err.code(), "empty_command");
}

#[test]
fn a_missing_working_directory_is_rejected() {
    let registry = Registry::new();
    let p = local_project("a", "App", "npm start", None);
    let err = registry.check_start(&p, None, false, |_| false, |_| None).err().unwrap();
    assert_eq!(err.code(), "missing_working_dir");
}

#[test]
fn starting_the_same_project_twice_is_rejected() {
    let mut registry = Registry::new();
    registry.insert(handle("a", "App", None));
    let p = local_project("a", "App", "npm start", None);
    let err = registry.check_start(&p, None, true, |_| false, |_| None).err().unwrap();
    assert_eq!(err.code(), "already_running");
}

#[test]
fn two_projects_cannot_hold_the_same_port() {
    let mut registry = Registry::new();
    registry.insert(handle("first", "First", Some(41000)));
    let second = local_project("second", "Second", "npm start", Some(41000));
    let err = registry.check_start(&second, None, true, |p| p == 41001, |_| None).err().unwrap();
    assert_eq!(err.code(), "port_in_use");
    assert!(err.message().contains("First"), "got: {}", err.message());
    match err {
        OracleError::PortInUse { port, suggestion, .. } => {
            assert_eq!(port, 41000);
            assert_eq!(suggestion, Some(41002));
        }
        _ => panic!("expected a port conflict"),
    }
}

#[test]
fn an_override_starts_a_project_whose_port_is_taken() {
    let mut registry = Registry::new();
    registry.insert(handle("first", "First", Some(5173)));
    let second = local_project("second", "Second", " npx vite ", Some(5173));
    let plan = registry.check_start(&second, Some(5174), true, |_| false, |_| None).ok().unwrap();
    assert_eq!(plan.port, Some(5174));
    assert_eq!(plan.command, "npx vite --port 5174");
}

#[test]
fn a_stop_forgets_and_a_crash_keeps_the_handle() {
    let mut registry = Registry::new();
    registry.insert(handle("a", "A", Some(3000)));
    registry.insert(handle("b", "B", None));
    registry.record_exit("a", ProjectStatus::Crashed);
    assert!(registry.is_running("a"));
    assert_eq!(registry.status("a"), ProjectStatus::Crashed);
    registry.record_exit("b", ProjectStatus::Stopped);
    assert!(!registry.is_running("b"));
    assert_eq!(registry.status("b"), ProjectStatus::Stopped);
    assert_eq!(registry.pid("a"), Some(100));
    assert_eq!(registry.pid("b"), None);
}

#[test]
fn an_exit_reads_as_a_stop_or_a_crash() {
    let (status, note) = exit_outcome(true, Ok((false, "exit code: 1".to_string())));
    assert_eq!(status, ProjectStatus::Stopped);
    assert_eq!(note, "Stopped (exit code: 1).");
    let (status, note) = exit_outcome(false, Ok((true, "exit code: 0".to_string())));
    assert_eq!(status, ProjectStatus::Stopped);
    assert_eq!(note, "Process finished.");
    let (status, note) = exit_outcome(false, Ok((false, "exit code: 2".to_string())));
    assert_eq!(status, ProjectStatus::Crashed);
    assert_eq!(note, "Process exited: exit code: 2.");
    let (status, note) = exit_outcome(false, Err("gone".to_string()));
    assert_eq!(status, ProjectStatus::Crashed);
    assert_eq!(note, "Lost track of the process: gone.");
}

#[test]
fn readiness_only_moves_a_starting_project() {
    let (status, note) = readiness_outcome(ProjectStatus::Starting, 3000, true).unwrap();
    assert_eq!(status, ProjectStatus::Running);
    assert_eq!(note, "Listening on port 3000.");
    let (status, note) = readiness_outcome(ProjectStatus::Starting, 3000, false).unwrap();
    assert_eq!(status, ProjectStatus::Unhealthy);
    assert_eq!(note, "Port 3000 never opened after 60s.");
    assert!(readiness_outcome(ProjectStatus::Crashed, 3000, true).is_none());
}

#[test]
fn the_log_notes_say_what_happened() {
    assert_eq!(command_note("npm run dev"), "$ npm run dev");
    assert_eq!(override_note(3001), "Started on port 3001 for this run only (PORT=3001).");
    assert_eq!(
        adoption_note(3000, 42),
        "Attached to an existing process on port 3000 (pid 42). Output is not captured."
    );
}

#[test]
fn an_override_is_set_last_in_the_environment() {
    let mut local = LocalTarget::new("/srv".to_string(), "npm start".to_string());
    local.env = vec![("PORT".to_string(), "3000".to_string()), ("A".to_string(), "b".to_string())];
    let env = launch_env(&local, Some(3001));
    assert_eq!(env.len(), 3);
    assert_eq!(env[0], ("PORT".to_string(), "3000".to_string()));
    assert_eq!(env[2], ("PORT".to_string(), "3001".to_string()));
    assert_eq!(launch_env(&local, None).len(), 2);
}

#[test]
fn a_port_held_by_another_process_blocks_the_start() {
    let registry = Registry::new();
    let p = local_project("p", "Test", "echo never-runs", Some(41500));
    let err = registry.check_start(&p, None, true, |port| port == 41500, |_| Some(777)).err().unwrap();
    assert_eq!(err.code(), "port_in_use");
    assert_eq!(err.data(), Some((41500, Some(41501))));
    match err {
        OracleError::PortInUse { port, holder, suggestion } => {
            assert_eq!(port, 41500);
            assert_eq!(holder, "another process (pid 777)");
            assert_eq!(suggestion, Some(41501));
        }
        _ => panic!("expected a port conflict"),
    }
    let err = registry.check_start(&p, None, true, |port| port <= 41502, |_| None).err().unwrap();
    match err {
        OracleError::PortInUse { holder, suggestion, .. } => {
            assert_eq!(holder, "another process");
            assert_eq!(suggestion, Some(41503));
        }
        _ => panic!("expected a port conflict"),
    }
}

#[test]
fn another_project_is_named_before_an_outside_listener() {
    let mut registry = Registry::new();
    registry.insert(handle("first", "First", Some(41600)));
    let second = local_project("second", "Second", "npm start", Some(41600));
    let err = registry.check_start(&second, None, true, |_| true, |_| Some(1)).err().unwrap();
    assert!(err.message().contains("First"));
    assert_eq!(err.data(), Some((41600, None)));
}

#[test]
fn an_override_applied_twice_adds_one_flag() {
    let once = apply_port_override("npx vite", 5174);
    assert_eq!(once, "npx vite --port 5174");
    assert_eq!(apply_port_override(&once, 5175), once);
}

#[test]
fn a_stop_asks_then_waits_then_forces() {
    assert_eq!(stop_step(false, true, false), StopStep::Ask);
    assert_eq!(stop_step(true, true, false), StopStep::Wait);
    assert_eq!(stop_step(true, false, true), StopStep::Done);
    assert_eq!(stop_step(true, true, true), StopStep::Force);
    assert_eq!(stopping_note(), "Stopping…");
    assert_eq!(forcing_note(), "Still alive, forcing.");
}

#[test]
fn stopping_a_project_that_is_not_running_is_refused() {
    let mut registry = Registry::new();
    registry.insert(handle("a", "A", None));
    assert_eq!(registry.stop_target("a").ok(), Some(100));
    let err = registry.stop_target("b").err().unwrap();
    assert_eq!(err.code(), "not_running");
    assert_eq!(err.message(), "b is not running");
}
