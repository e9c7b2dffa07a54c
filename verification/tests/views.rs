use oracle::model::{Project, ProjectKind};
use oracle::remote::RemoteStatus;
use oracle::runner::{ProjectStatus, Registry};
use oracle::config::{load, ConfigRead};
use oracle::views::{fresh_pids, is_renderer, label_for, Embeds, PanelEpoch, ProjectView, Warnings};

fn project(kind: ProjectKind, accent: Option<&str>) -> Project {
    let mut p = Project::new("Demo".to_string()).unwrap();
    p.kind = kind;
    p.accent = accent.map(|a| a.to_string());
    p
}

#[test]
fn a_view_falls_back_to_the_accent_of_its_kind() {
    let p = project(ProjectKind::Rust, None);
    let view = ProjectView::resolve(p, ProjectStatus::Stopped, RemoteStatus::Unchecked, None);
    assert_eq!(view.resolved_accent, ProjectKind::Rust.accent());
    assert_eq!(view.kind_label, "Rust");
}

#[test]
fn an_explicit_accent_wins_over_the_kind() {
    let p = project(ProjectKind::Rust, Some("#123456"));
    let view = ProjectView::resolve(p, ProjectStatus::Stopped, RemoteStatus::Unchecked, None);
    assert_eq!(view.resolved_accent, "#123456");
}

#[test]
fn a_project_that_never_ran_reads_as_stopped_and_unchecked() {
    let registry = Registry::new();
    let p = project(ProjectKind::Node, None);
    let status = registry.status(&p.id);
    let pid = registry.pid(&p.id);
    let view = ProjectView::resolve(p, status, RemoteStatus::Unchecked, pid);
    assert_eq!(view.status, ProjectStatus::Stopped);
    assert!(matches!(view.remote_status, RemoteStatus::Unchecked));
    assert_eq!(view.pid, None);
    assert_eq!(view.resolved_url, None);
}

#[test]
fn an_embedded_window_is_labelled_by_its_project() {
    assert_eq!(label_for("abc"), "embed-abc");
}

#[test]
fn showing_the_panel_cancels_a_pending_release() {
    let mut epoch = PanelEpoch::new();
    let token = epoch.mark_hidden();
    assert!(epoch.release_due(token));
    epoch.mark_shown();
    assert!(!epoch.release_due(token));
    let later = epoch.mark_hidden();
    assert!(epoch.release_due(later));
    let again = epoch.mark_hidden();
    assert!(!epoch.release_due(later));
    assert!(epoch.release_due(again));
}

#[test]
fn warnings_are_delivered_once() {
    let loaded = load(ConfigRead::Unparseable(Some("C:/tmp/config.corrupt-1.json".to_string())), vec![]);
    let mut warnings = Warnings::after_load(&loaded);

    let first = warnings.take_warnings();
    assert_eq!(first.len(), 1);
    assert_eq!(
        first[0],
        "The configuration file could not be read and was moved to C:/tmp/config.corrupt-1.json. Oracle started with defaults."
    );
    // A second read must be empty, or the toast would reappear on every refresh.
    assert!(warnings.take_warnings().is_empty());
}

#[test]
fn a_clean_load_has_nothing_to_say() {
    let mut warnings = Warnings::after_load(&load(ConfigRead::Missing, vec![]));
    assert!(warnings.take_warnings().is_empty());
}

#[test]
fn only_processes_that_appeared_since_the_snapshot_are_fresh() {
    assert_eq!(fresh_pids(&vec![1, 2, 3], &vec![2]), vec![1, 3]);
    assert_eq!(fresh_pids(&vec![4, 5], &vec![4, 5]), Vec::<u32>::new());
    assert_eq!(fresh_pids(&vec![7], &vec![]), vec![7]);
}

#[test]
fn the_webview_renderer_is_recognised_whatever_its_case() {
    assert!(is_renderer("msedgewebview2.exe"));
    assert!(is_renderer("MSEdgeWebView2.exe"));
    assert!(!is_renderer("msedge.exe"));
    assert!(!is_renderer("msedgewebview2.exe.bak"));
}

#[test]
fn an_opened_web_app_is_shown_and_hidden_by_its_label() {
    let mut embeds = Embeds::new();
    assert!(!embeds.is_open("p1"));
    embeds.insert("p1");
    assert!(embeds.is_open("p1"));
    assert!(embeds.show("p1"));
    assert_eq!(embeds.visible_label(), Some("embed-p1".to_string()));
    assert_eq!(embeds.hide_visible(), Some("embed-p1".to_string()));
    assert_eq!(embeds.visible_label(), None);
    assert_eq!(embeds.hide_visible(), None);
    assert!(embeds.is_open("p1"));
}

#[test]
fn showing_a_web_app_that_is_not_open_shows_nothing() {
    let mut embeds = Embeds::new();
    embeds.insert("p1");
    assert!(!embeds.show("p2"));
    assert_eq!(embeds.visible_label(), None);
}

#[test]
fn closing_the_web_app_on_screen_leaves_nothing_shown() {
    let mut embeds = Embeds::new();
    embeds.insert("p1");
    embeds.insert("p2");
    assert!(embeds.show("p2"));
    assert_eq!(embeds.close("p1"), Some("embed-p1".to_string()));
    assert_eq!(embeds.visible_label(), Some("embed-p2".to_string()));
    assert_eq!(embeds.close("p2"), Some("embed-p2".to_string()));
    assert_eq!(embeds.visible_label(), None);
    assert_eq!(embeds.close("p2"), None);
    assert!(embeds.labels().is_empty());
}

#[test]
fn the_memory_readout_needs_an_attributed_renderer() {
    let mut embeds = Embeds::new();
    assert_eq!(embeds.visible_pids(), None);
    embeds.insert("p1");
    embeds.insert("p2");
    assert!(embeds.show("p1"));
    assert_eq!(embeds.visible_pids(), None);
    embeds.set_pids("p1", vec![40, 41]);
    assert_eq!(embeds.visible_pids(), Some(("p1".to_string(), vec![40, 41])));
    embeds.set_pids("gone", vec![9]);
    assert_eq!(embeds.labels(), vec!["embed-p1".to_string(), "embed-p2".to_string()]);
}
