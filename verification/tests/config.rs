use oracle::config::{
    data_dir_from, imported_icon_name, load, migrate, quarantine_name, scan_root_candidates, ConfigRead, Selection,
};
use oracle::model::{Config, LocalTarget, Project, RemoteCheck, RemoteTarget, CONFIG_VERSION};

#[test]
fn migration_stamps_the_current_version() {
    let mut config = Config { version: 0, ..Config::fresh(vec![]) };
    migrate(&mut config);
    assert_eq!(config.version, CONFIG_VERSION);
}

fn project(id: &str, order: i32) -> Project {
    let mut p = Project::new(id.to_uppercase()).unwrap();
    p.id = id.to_string();
    p.order = order;
    p
}

#[test]
fn normalising_order_closes_gaps_and_sorts() {
    let mut config = Config::fresh(vec![]);
    config.projects = vec![project("c", 7), project("a", 2), project("b", 5)];
    config.normalise_order();
    let ids: Vec<&str> = config.projects.iter().map(|p| p.id.as_str()).collect();
    let orders: Vec<i32> = config.projects.iter().map(|p| p.order).collect();
    assert_eq!(ids, vec!["a", "b", "c"]);
    assert_eq!(orders, vec![0, 1, 2]);
}

#[test]
fn normalising_twice_changes_nothing_more() {
    let mut config = Config::fresh(vec![]);
    config.projects = vec![project("x", 3), project("y", 3), project("z", -1)];
    config.normalise_order();
    let once: Vec<(String, i32)> = config.projects.iter().map(|p| (p.id.clone(), p.order)).collect();
    config.normalise_order();
    let twice: Vec<(String, i32)> = config.projects.iter().map(|p| (p.id.clone(), p.order)).collect();
    assert_eq!(once, twice);
    assert_eq!(once, vec![("z".to_string(), 0), ("x".to_string(), 1), ("y".to_string(), 2)]);
}

#[test]
fn a_new_project_goes_last_with_a_fresh_id() {
    let mut config = Config::fresh(vec![]);
    assert!(config.add_project(project("a", 9)).is_ok());
    let mut unnamed = Project::new("New".to_string()).unwrap();
    unnamed.id = String::new();
    assert!(config.add_project(unnamed).is_ok());
    assert_eq!(config.projects[0].order, 0);
    assert_eq!(config.projects[1].order, 1);
    assert_eq!(config.projects[1].id.len(), 36);
}

#[test]
fn updating_keeps_the_place_and_unknown_ids_are_refused() {
    let mut config = Config::fresh(vec![]);
    config.projects = vec![project("a", 0), project("b", 1)];
    let mut edited = project("b", 40);
    edited.name = "Renamed".to_string();
    assert!(config.update_project(edited).is_ok());
    assert_eq!(config.projects[1].name, "Renamed");
    assert_eq!(config.projects[1].order, 1);
    let err = config.update_project(project("zz", 0)).unwrap_err();
    assert_eq!(err.code(), "project_not_found");
}

#[test]
fn toggling_a_favourite_twice_restores_it() {
    let mut config = Config::fresh(vec![]);
    config.projects = vec![project("a", 0)];
    assert_eq!(config.toggle_favorite("a").ok(), Some(true));
    assert_eq!(config.toggle_favorite("a").ok(), Some(false));
    assert!(!config.projects[0].favorite);
    assert_eq!(config.toggle_favorite("nope").unwrap_err().code(), "project_not_found");
}

#[test]
fn removing_a_project_closes_the_gap() {
    let mut config = Config::fresh(vec![]);
    config.projects = vec![project("a", 0), project("b", 1), project("c", 2)];
    config.remove_project("b");
    let ids: Vec<&str> = config.projects.iter().map(|p| p.id.as_str()).collect();
    assert_eq!(ids, vec!["a", "c"]);
    assert_eq!(config.projects[1].order, 1);
    assert!(config.project("b").is_none());
}

#[test]
fn reordering_follows_the_given_ids() {
    let mut config = Config::fresh(vec![]);
    config.projects = vec![project("a", 0), project("b", 1), project("c", 2)];
    config.reorder(&vec!["c".to_string(), "a".to_string(), "missing".to_string(), "b".to_string()]);
    let ids: Vec<&str> = config.projects.iter().map(|p| p.id.as_str()).collect();
    assert_eq!(ids, vec!["c", "a", "b"]);
    assert_eq!(config.projects[2].order, 2);
}

#[test]
fn a_draft_is_tidied_before_it_is_saved() {
    let mut config = Config::fresh(vec![]);
    config.projects = vec![project("a", 0)];
    let mut draft = project("new", 9);
    draft.name = "  Shop  ".to_string();
    let mut local = LocalTarget::new("  ".to_string(), "   ".to_string());
    local.open_url = Some(" ".to_string());
    draft.local = Some(local);
    draft.remote = Some(RemoteTarget {
        url: " https://shop.test ".to_string(),
        check: RemoteCheck::default(),
        interval_secs: 30,
    });
    assert!(config.save_draft(draft));
    assert_eq!(config.projects.len(), 2);
    let saved = &config.projects[1];
    assert_eq!(saved.name, "Shop");
    assert_eq!(saved.order, 1);
    assert!(saved.local.is_none());
    assert_eq!(saved.remote.as_ref().map(|r| r.url.as_str()), Some("https://shop.test"));

    let mut blank = project("a", 0);
    blank.name = "   ".to_string();
    assert!(!config.save_draft(blank));
    assert_eq!(config.projects[0].name, "A");
}

#[test]
fn a_saved_draft_keeps_an_existing_projects_place() {
    let mut config = Config::fresh(vec![]);
    config.projects = vec![project("a", 0), project("b", 1)];
    let mut draft = project("a", 7);
    draft.local = Some(LocalTarget::new(" C:/dev/a ".to_string(), "npm start ".to_string()));
    assert!(config.save_draft(draft));
    assert_eq!(config.projects[0].order, 0);
    let local = config.projects[0].local.as_ref().unwrap();
    assert_eq!(local.root, "C:/dev/a");
    assert_eq!(local.command, "npm start");
}

#[test]
fn loading_reports_what_happened() {
    let first = load(ConfigRead::Missing, vec!["C:/dev".to_string()]);
    assert!(first.is_first_run);
    assert!(first.recovered_from.is_none());
    assert_eq!(first.config.settings.scan_roots, vec!["C:/dev".to_string()]);

    let unreadable = load(ConfigRead::Unreadable, vec![]);
    assert!(!unreadable.is_first_run);

    let moved = quarantine_name("20260101-120000");
    assert_eq!(moved, "config.corrupt-20260101-120000.json");
    let corrupt = load(ConfigRead::Unparseable(Some(moved.clone())), vec![]);
    assert_eq!(corrupt.recovered_from, Some(moved));
    assert!(corrupt.config.projects.is_empty());

    let mut stored = Config { version: 0, ..Config::fresh(vec![]) };
    stored.projects = vec![project("b", 4), project("a", 1)];
    let parsed = load(ConfigRead::Parsed(stored), vec![]);
    assert_eq!(parsed.config.version, CONFIG_VERSION);
    assert_eq!(parsed.config.projects[0].id, "a");
    assert_eq!(parsed.config.projects[1].order, 1);
}

#[test]
fn background_tasks_pick_their_projects() {
    let mut config = Config::fresh(vec![]);
    let mut a = project("a", 0);
    let mut local = LocalTarget::new("/a".to_string(), "npm start".to_string());
    local.port = Some(3000);
    local.autostart_with_oracle = true;
    a.local = Some(local);
    let mut b = project("b", 1);
    b.remote = Some(RemoteTarget {
        url: "https://b.test".to_string(),
        check: RemoteCheck::default(),
        interval_secs: 30,
    });
    config.projects = vec![a, b];
    assert_eq!(config.select(Selection::Remote), vec![1]);
    assert_eq!(config.select(Selection::Declared), vec![0]);
    assert_eq!(config.select(Selection::Autostart), vec![0]);
    config.settings.autostart_projects = false;
    assert_eq!(config.select(Selection::Autostart), Vec::<usize>::new());
    config.settings.health_interval_secs = 1;
    assert_eq!(config.health_interval(), 5);
    config.settings.health_interval_secs = 60;
    assert_eq!(config.health_interval(), 60);
}

#[test]
fn scan_roots_are_offered_under_home() {
    let roots = scan_root_candidates("/home/me");
    assert_eq!(roots.len(), 4);
    assert!(roots[0].ends_with("Documents"));
    assert!(roots[3].ends_with("code"));
    assert!(roots[1].starts_with("/home/me"));
}

#[test]
fn an_imported_icon_keeps_its_extension_in_lower_case() {
    let name = imported_icon_name("C:/pictures/Logo.PNG").unwrap();
    assert!(name.ends_with(".png"));
    assert_eq!(name.len(), 36 + 4);
    let name = imported_icon_name("/home/me/art/mark.webp").unwrap();
    assert!(name.ends_with(".webp"));
    assert_eq!(name.len(), 36 + 5);
    assert_ne!(imported_icon_name("a.gif").unwrap(), imported_icon_name("a.gif").unwrap());
}

#[test]
fn an_imported_icon_without_an_extension_is_taken_for_a_png() {
    let name = imported_icon_name("/home/me/art/mark").unwrap();
    assert!(name.ends_with(".png"));
    assert_eq!(name.len(), 36 + 4);
    assert_eq!(name.as_bytes()[8], b'-');
    assert!(imported_icon_name("/home/me/.hidden").unwrap().ends_with(".png"));
}

#[test]
fn a_fresh_id_is_a_version_4_uuid() {
    let id = Project::new("Any".to_string()).unwrap().id;
    assert_eq!(id.len(), 36);
    assert_eq!(&id[14..15], "4");
    assert!(matches!(&id[19..20], "8" | "9" | "a" | "b"));
    assert!(id.chars().all(|c| c == '-' || c.is_ascii_digit() || ('a'..='f').contains(&c)));
}

#[test]
fn the_data_folder_sits_under_the_platform_directory_or_here() {
    assert_eq!(data_dir_from(Some("/home/alice/.config".to_string())), "/home/alice/.config/com.alicien.oracle");
    assert_eq!(data_dir_from(Some("/home/alice/.config/".to_string())), "/home/alice/.config/com.alicien.oracle");
    assert_eq!(data_dir_from(None), "./com.alicien.oracle");
}
