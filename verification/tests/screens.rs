use oracle::discovery::Candidate;
use oracle::model::{GlassLevel, LocalTarget, Project, ProjectKind, RemoteCheck, Settings, Theme};
use oracle::runner::ProjectStatus;
use oracle::screens::{
    candidate_detail, close_step, escape_step, fold_form, found_summary, glass_at, glass_index,
    is_live, pick_chosen, running_summary, scan_notice, settings_delta, theme_at, theme_index, toggle_all_targets,
    toggle_candidate, toggle_chosen, with_root, without_root, CloseStep, EscapeStep, FormFields, ScanNotice, Screen,
};

fn local(name: &str, id: &str) -> Project {
    let mut p = Project::new(name.to_string()).unwrap();
    p.id = id.to_string();
    p.local = Some(LocalTarget::new("C:/code/app".to_string(), "npm run dev".to_string()));
    p
}

fn fields(name: &str, root: &str, command: &str, port: &str, open: &str, health: &str) -> FormFields {
    FormFields {
        name: name.to_string(),
        root: root.to_string(),
        command: command.to_string(),
        port: port.to_string(),
        open: open.to_string(),
        health: health.to_string(),
    }
}

#[test]
fn escape_backs_out_one_level_at_a_time() {
    assert_eq!(escape_step(true, Screen::Form, true), EscapeStep::Blur);
    assert_eq!(escape_step(false, Screen::Settings, true), EscapeStep::LeaveScreen);
    assert_eq!(escape_step(false, Screen::Projects, true), EscapeStep::Deselect);
    assert_eq!(escape_step(false, Screen::Projects, false), EscapeStep::Nothing);
}

#[test]
fn closing_goes_to_the_tray_only_when_asked() {
    assert_eq!(close_step(true), CloseStep::ToTray);
    assert_eq!(close_step(false), CloseStep::Quit);
}

#[test]
fn starting_counts_as_live() {
    assert!(is_live(ProjectStatus::Running));
    assert!(is_live(ProjectStatus::Starting));
    assert!(!is_live(ProjectStatus::Crashed));
    assert!(!is_live(ProjectStatus::Stopped));
}

#[test]
fn run_everything_starts_the_idle_local_projects() {
    let mut remote_only = Project::new("Site".to_string()).unwrap();
    remote_only.id = "r".to_string();
    let projects = vec![local("A", "a"), remote_only, local("B", "b")];
    let statuses = vec![("a".to_string(), ProjectStatus::Crashed)];
    assert_eq!(toggle_all_targets(&projects, &statuses), vec!["a".to_string(), "b".to_string()]);
}

#[test]
fn run_everything_stops_what_runs_while_anything_does() {
    let projects = vec![local("A", "a"), local("B", "b"), local("C", "c")];
    let statuses = vec![
        ("a".to_string(), ProjectStatus::Running),
        ("c".to_string(), ProjectStatus::Starting),
    ];
    assert_eq!(toggle_all_targets(&projects, &statuses), vec!["a".to_string(), "c".to_string()]);
}

#[test]
fn a_form_keeps_its_strings_as_typed() {
    let draft = local("Old", "x");
    let r = fold_form(draft, fields("cargo test ", "C:/code/new", "cargo run", " 8080 ", "", ""));
    assert_eq!(r.id, "x");
    assert_eq!(r.name, "cargo test ");
    let l = r.local.unwrap();
    assert_eq!(l.root, "C:/code/new");
    assert_eq!(l.command, "cargo run");
    assert_eq!(l.port, Some(8080));
    assert_eq!(l.open_url, None);
    assert!(r.remote.is_none());
}

#[test]
fn a_form_drops_a_port_that_is_not_one() {
    let r = fold_form(local("A", "a"), fields("A", "C:/a", "", "70000", "http://a.test", ""));
    let l = r.local.unwrap();
    assert_eq!(l.port, None);
    assert_eq!(l.open_url, Some("http://a.test".to_string()));
    let r = fold_form(local("A", "a"), fields("A", "C:/a", "", "3000x", "", ""));
    assert_eq!(r.local.unwrap().port, None);
}

#[test]
fn a_form_without_folder_or_command_runs_nowhere() {
    let r = fold_form(local("A", "a"), fields("A", "", "", "3000", "", "https://a.test/health"));
    assert!(r.local.is_none());
    let remote = r.remote.unwrap();
    assert_eq!(remote.url, "https://a.test/health");
    assert_eq!(remote.interval_secs, 30);
    match remote.check {
        RemoteCheck::Http { expect_status, .. } => assert!(expect_status.is_empty()),
    }
}

#[test]
fn segmented_controls_map_to_settings_and_back() {
    assert_eq!(theme_index(Theme::Dark), 1);
    assert_eq!(theme_at(2), Theme::System);
    assert_eq!(glass_index(GlassLevel::Opaque), 2);
    assert_eq!(glass_at(1), GlassLevel::Reduced);
}

#[test]
fn a_settings_change_names_what_must_follow_it() {
    let old = Settings::defaults(vec![]);
    let mut new = Settings::defaults(vec![]);
    new.theme = Theme::Light;
    new.start_hidden = !old.start_hidden;
    let d = settings_delta(&old, &new);
    assert!(d.theme);
    assert!(!d.glass);
    assert!(d.startup);
    let d = settings_delta(&old, &Settings::defaults(vec!["C:/x".to_string()]));
    assert!(!d.theme && !d.glass && !d.startup);
}

#[test]
fn scan_folders_are_added_once_and_removed_by_place() {
    let s = Settings::defaults(vec!["C:/a".to_string(), "C:/b".to_string()]);
    let s = without_root(s, 0);
    assert_eq!(s.scan_roots, vec!["C:/b".to_string()]);
    assert!(with_root(s.clone(), "C:/b".to_string()).is_none());
    let s = with_root(s, "C:/c".to_string()).unwrap();
    assert_eq!(s.scan_roots, vec!["C:/b".to_string(), "C:/c".to_string()]);
}

#[test]
fn the_scan_screen_says_why_it_lists_nothing() {
    assert_eq!(scan_notice(true, 0, 0), ScanNotice::Scanning);
    assert_eq!(scan_notice(false, 0, 3), ScanNotice::NoRoots);
    assert_eq!(scan_notice(false, 2, 0), ScanNotice::NothingFound);
    assert_eq!(scan_notice(false, 2, 3), ScanNotice::Found);
    assert_eq!(found_summary(1), "Found 1 project. Pick the ones to add.");
    assert_eq!(found_summary(28), "Found 28 projects. Pick the ones to add.");
}

#[test]
fn a_candidate_line_names_its_folder_and_command() {
    assert_eq!(candidate_detail("C:/Users/me/code/app", "npm run dev"), "…/code/app · npm run dev");
    assert_eq!(candidate_detail("app", ""), "app · no command");
}

#[test]
fn ticking_a_candidate_twice_unticks_it() {
    let mut chosen = vec!["C:/a".to_string()];
    toggle_chosen(&mut chosen, "C:/b");
    assert_eq!(chosen, vec!["C:/a".to_string(), "C:/b".to_string()]);
    toggle_chosen(&mut chosen, "C:/b");
    assert_eq!(chosen, vec!["C:/a".to_string()]);
    toggle_chosen(&mut chosen, "C:/a");
    assert!(chosen.is_empty());
}

#[test]
fn only_ticked_candidates_are_imported() {
    let candidate = |root: &str| Candidate {
        name: root.to_string(),
        root: root.to_string(),
        kind: ProjectKind::Node,
        suggested_command: String::new(),
        suggested_port: None,
        repo: None,
        already_known: false,
    };
    let picked = pick_chosen(
        vec![candidate("C:/a"), candidate("C:/b"), candidate("C:/c")],
        &vec!["C:/c".to_string(), "C:/a".to_string()],
    );
    let roots: Vec<String> = picked.into_iter().map(|c| c.root).collect();
    assert_eq!(roots, vec!["C:/a".to_string(), "C:/c".to_string()]);
}

#[test]
fn the_panel_header_counts_what_runs() {
    assert_eq!(running_summary(&vec![]), "Nothing running");
    let statuses = vec![
        ("a".to_string(), ProjectStatus::Running),
        ("b".to_string(), ProjectStatus::Starting),
        ("c".to_string(), ProjectStatus::Running),
    ];
    assert_eq!(running_summary(&statuses), "2 running");
    assert_eq!(running_summary(&vec![("a".to_string(), ProjectStatus::Crashed)]), "Nothing running");
}

#[test]
fn a_known_candidate_cannot_be_ticked() {
    let candidate = |root: &str, known: bool| Candidate {
        name: root.to_string(),
        root: root.to_string(),
        kind: ProjectKind::Node,
        suggested_command: String::new(),
        suggested_port: None,
        repo: None,
        already_known: known,
    };
    let mut chosen = Vec::new();
    toggle_candidate(&mut chosen, &candidate("C:/old", true));
    assert!(chosen.is_empty());
    toggle_candidate(&mut chosen, &candidate("C:/new", false));
    assert_eq!(chosen, vec!["C:/new".to_string()]);
    toggle_candidate(&mut chosen, &candidate("C:/new", false));
    assert!(chosen.is_empty());
}
