use oracle::model::{LocalTarget, Project, ProjectKind, RemoteCheck, RemoteTarget};
use oracle::remote::RemoteStatus;
use oracle::runner::ProjectStatus;
use oracle::ui::{
    all_icons, describe_remote, initials, open_url, short_path, status_label, visible, Filter,
};

#[test]
fn initials_use_the_first_two_words() {
    assert_eq!(initials("Junior Manage"), "JM");
    assert_eq!(initials("app-tiktok"), "AT");
    assert_eq!(initials("oracle"), "OR");
    assert_eq!(initials(""), "?");
}

#[test]
fn a_long_path_is_shortened_to_its_last_two_segments() {
    assert_eq!(
        short_path("C:\\Users\\alici\\Documents\\AppTiktok"),
        "…/Documents/AppTiktok"
    );
    assert_eq!(short_path("C:/one"), "C:/one");
}

#[test]
fn names_are_unique() {
    // Two icons pointing at the same file would share atlas entries silently.
    let mut names: Vec<&str> = all_icons().iter().map(|i| i.name).collect();
    names.sort_unstable();
    let before = names.len();
    names.dedup();
    assert_eq!(before, names.len(), "two icons share a source file");
}

#[test]
fn initials_of_separated_words_and_single_letters() {
    assert_eq!(initials("my_cool.app"), "MC");
    assert_eq!(initials("x"), "X");
    assert_eq!(initials("  --  "), "?");
}

#[test]
fn a_short_path_is_left_as_written() {
    assert_eq!(short_path("/srv"), "/srv");
    assert_eq!(short_path("/srv/app/web"), "…/app/web");
}

#[test]
fn every_status_has_a_label() {
    assert_eq!(status_label(ProjectStatus::Running), "Running");
    assert_eq!(status_label(ProjectStatus::Starting), "Starting");
    assert_eq!(status_label(ProjectStatus::Unhealthy), "Not responding");
    assert_eq!(status_label(ProjectStatus::Crashed), "Crashed");
    assert_eq!(status_label(ProjectStatus::Stopped), "Stopped");
    assert_eq!(Filter::Running.label(), "Running");
    assert_eq!(Filter::All.label(), "All");
}

#[test]
fn a_health_check_reads_as_text() {
    assert_eq!(describe_remote(Some(&RemoteStatus::Up { ms: 42, code: 200 })), "Up · 42 ms");
    assert_eq!(
        describe_remote(Some(&RemoteStatus::Degraded { code: 503, ms: 7 })),
        "HTTP 503 · 7 ms"
    );
    assert_eq!(
        describe_remote(Some(&RemoteStatus::Down { reason: "timed out".to_string() })),
        "timed out"
    );
    assert_eq!(describe_remote(Some(&RemoteStatus::Unchecked)), "Not checked yet");
    assert_eq!(describe_remote(None), "Not checked yet");
}

fn project(id: &str, name: &str, order: i32, favorite: bool) -> Project {
    let mut p = Project::new(name.to_string()).unwrap();
    p.id = id.to_string();
    p.order = order;
    p.favorite = favorite;
    p
}

#[test]
fn favourites_come_first_then_position() {
    let projects = vec![
        project("a", "Alpha", 0, false),
        project("b", "Beta", 1, true),
        project("c", "Gamma", 2, false),
        project("d", "Delta", 3, true),
    ];
    assert_eq!(visible(&projects, Filter::All, &vec![], ""), vec![1, 3, 0, 2]);
}

#[test]
fn the_search_matches_name_kind_and_tags_ignoring_case() {
    let mut a = project("a", "Storefront", 0, false);
    a.tags = vec!["Client".to_string()];
    let mut b = project("b", "Blog", 1, false);
    b.kind = ProjectKind::Rust;
    let c = project("c", "Notes", 2, false);
    let projects = vec![a, b, c];
    assert_eq!(visible(&projects, Filter::All, &vec![], "  STORE "), vec![0]);
    assert_eq!(visible(&projects, Filter::All, &vec![], "rust"), vec![1]);
    assert_eq!(visible(&projects, Filter::All, &vec![], "client"), vec![0]);
    assert_eq!(visible(&projects, Filter::All, &vec![], "zzz"), Vec::<usize>::new());
}

#[test]
fn filters_admit_by_target_and_status() {
    let mut a = project("a", "Local", 0, false);
    a.local = Some(LocalTarget::new("/srv/a".to_string(), "npm run dev".to_string()));
    let mut b = project("b", "Remote", 1, false);
    b.remote = Some(RemoteTarget {
        url: "https://example.com".to_string(),
        check: RemoteCheck::default(),
        interval_secs: 30,
    });
    let projects = vec![a, b];
    let statuses = vec![("a".to_string(), ProjectStatus::Starting)];
    assert_eq!(visible(&projects, Filter::Local, &statuses, ""), vec![0]);
    assert_eq!(visible(&projects, Filter::Remote, &statuses, ""), vec![1]);
    assert_eq!(visible(&projects, Filter::Running, &statuses, ""), vec![0]);
    let stopped = vec![("a".to_string(), ProjectStatus::Stopped)];
    assert_eq!(visible(&projects, Filter::Running, &stopped, ""), Vec::<usize>::new());
}

#[test]
fn the_open_button_prefers_the_override_then_the_port_then_the_remote() {
    let mut p = project("a", "App", 0, false);
    assert_eq!(open_url(&p), None);
    p.remote = Some(RemoteTarget {
        url: "https://example.com".to_string(),
        check: RemoteCheck::default(),
        interval_secs: 30,
    });
    assert_eq!(open_url(&p).as_deref(), Some("https://example.com"));
    let mut local = LocalTarget::new("/srv".to_string(), "npm start".to_string());
    local.port = Some(3000);
    p.local = Some(local);
    assert_eq!(open_url(&p).as_deref(), Some("http://localhost:3000"));
    if let Some(l) = p.local.as_mut() {
        l.open_url = Some("http://app.test".to_string());
    }
    assert_eq!(open_url(&p).as_deref(), Some("http://app.test"));
}

#[test]
fn hex_colours_from_the_config_are_parsed() {
    let accent = oracle::ui::hex_value("#C15F3C").expect("should parse");
    let red = ((accent >> 16) & 0xff) as f32 / 255.0;
    assert!((red - 193.0 / 255.0).abs() < 1e-5);
    assert_eq!(accent, 0xC15F3C);
    assert!(oracle::ui::hex_value("nonsense").is_none());
    assert!(oracle::ui::hex_value("#FFF").is_none(), "short form is not supported");
}

#[test]
fn every_leading_hash_is_dropped_and_case_does_not_matter() {
    assert_eq!(oracle::ui::hex_value("##b1ada1"), Some(0xB1ADA1));
    assert_eq!(oracle::ui::hex_value("B1ADA1"), Some(0xB1ADA1));
    assert_eq!(oracle::ui::hex_value("#12345g"), None);
    assert_eq!(oracle::ui::hex_value("+12345"), Some(0x12345));
}
