use oracle::discovery::{build_candidate, display_name, paths_equal, repo_from_url, root_key_of, scan, walk_dir, Candidate};
use oracle::model::{ProjectKind, RepoProvider};

#[test]
fn ssh_and_https_remotes_both_yield_a_slug() {
    let ssh = repo_from_url("git@github.com:alicien/oracle.git");
    assert_eq!(ssh.slug.as_deref(), Some("alicien/oracle"));
    assert_eq!(ssh.provider, RepoProvider::GitHub);

    let https = repo_from_url("https://github.com/alicien/oracle.git");
    assert_eq!(https.slug.as_deref(), Some("alicien/oracle"));
    assert_eq!(https.provider, RepoProvider::GitHub);

    let other = repo_from_url("https://git.example.com/team/thing");
    assert_eq!(other.slug.as_deref(), Some("team/thing"));
    assert_eq!(other.provider, RepoProvider::Other);
}

fn candidate(name: &str, root: &str) -> Candidate {
    let mut c = build_candidate(root, name, None, ProjectKind::Node, None, None);
    c.name = name.to_string();
    c
}

#[test]
fn overlapping_roots_report_a_directory_once() {
    let found = vec![
        candidate("web", "C:/dev/web"),
        candidate("api", "C:/dev/api"),
        candidate("web", "C:/dev/web"),
    ];
    let out = scan(found, &vec![]);
    assert_eq!(out.len(), 2);
    assert_eq!(out[0].name, "api");
    assert_eq!(out[1].name, "web");
}

#[test]
fn known_roots_are_flagged_whatever_their_spelling() {
    let found = vec![candidate("Web", "C:\\Dev\\Web"), candidate("api", "C:/dev/api")];
    let out = scan(found, &vec!["c:/dev/web/".to_string()]);
    assert_eq!(out[0].name, "api");
    assert!(!out[0].already_known);
    assert_eq!(out[1].name, "Web");
    assert!(out[1].already_known);
}

#[test]
fn paths_compare_without_case_separators_or_trailing_slashes() {
    assert!(paths_equal("C:\\Users\\Me\\App", "c:/users/me/app/"));
    assert!(!paths_equal("C:/a/b", "C:/a/c"));
}

#[test]
fn a_distinctive_folder_name_is_left_alone() {
    assert_eq!(display_name("AppTiktok", Some("dev")), "AppTiktok");
    assert_eq!(display_name("oracle", Some("dev")), "oracle");
}

#[test]
fn a_generic_folder_name_is_qualified_by_its_parent() {
    // A real scan turned up three directories called `api`. Unqualified, the import list
    // is unusable.
    assert_eq!(display_name("api", Some("veln-leads")), "veln-leads/api");
    assert_eq!(display_name("backend", Some("morlier")), "morlier/backend");
}

#[test]
fn qualification_is_case_insensitive() {
    assert_eq!(display_name("API", Some("thing")), "thing/API");
    assert_eq!(display_name("Client", Some("thing")), "thing/Client");
}

#[test]
fn a_generic_name_with_no_parent_keeps_what_it_has() {
    assert_eq!(display_name("api", None), "api");
}

#[test]
fn one_directory_spelled_two_ways_is_reported_once() {
    let found = vec![
        candidate("web", "C:\\dev\\web"),
        candidate("web", "C:/dev\\web/"),
        candidate("web", "C:/dev/./web"),
    ];
    let out = scan(found, &vec![]);
    assert_eq!(out.len(), 1);
    assert_eq!(out[0].root, "C:\\dev\\web");
}

#[test]
fn roots_order_by_their_components() {
    assert!(root_key_of("C:/a/b") < root_key_of("C:/a-b"));
    assert!(root_key_of("/a") < root_key_of("a"));
    assert_eq!(root_key_of("C:\\x\\y\\"), root_key_of("C:/x//y"));
    assert_ne!(root_key_of("C:/X"), root_key_of("C:/x"));
    let found = vec![candidate("same", "C:/a-b"), candidate("same", "C:/a/b")];
    let out = scan(found, &vec![]);
    assert_eq!(out[0].root, "C:/a/b");
    assert_eq!(out[1].root, "C:/a-b");
}

#[test]
fn a_leading_current_directory_and_parents_are_components() {
    assert_ne!(root_key_of("./a"), root_key_of("a"));
    assert_eq!(root_key_of("a/./b"), root_key_of("a/b"));
    assert!(root_key_of("../x") < root_key_of("a/x"));
    assert!(root_key_of("/a") < root_key_of("./a"));
}

#[test]
fn a_project_root_is_not_looked_inside() {
    let list = |dir: String| -> Option<Vec<(String, String)>> {
        match dir.as_str() {
            "/r" => Some(vec![
                ("app".to_string(), "/r/app".to_string()),
                ("node_modules".to_string(), "/r/node_modules".to_string()),
                ("group".to_string(), "/r/group".to_string()),
            ]),
            "/r/app" => Some(vec![("web".to_string(), "/r/app/web".to_string())]),
            "/r/group" => Some(vec![("api".to_string(), "/r/group/api".to_string())]),
            "/r/node_modules" | "/r/app/web" | "/r/group/api" => Some(vec![]),
            _ => None,
        }
    };
    let kind_at = |dir: String| -> Option<ProjectKind> {
        match dir.as_str() {
            "/r/app" | "/r/app/web" | "/r/node_modules" | "/r/group/api" => Some(ProjectKind::Node),
            _ => None,
        }
    };
    let make = |dir: String, kind: ProjectKind| {
        let mut c = candidate(&dir, &dir);
        c.kind = kind;
        c
    };
    let mut out = Vec::new();
    walk_dir("/r".to_string(), 0, &list, &kind_at, &make, &mut out);
    let roots: Vec<String> = out.into_iter().map(|c| c.root).collect();
    assert_eq!(roots, vec!["/r/app".to_string(), "/r/group/api".to_string()]);
}

#[test]
fn a_walk_stops_below_the_depth_limit() {
    let list = |dir: String| -> Option<Vec<(String, String)>> {
        let next = format!("{dir}/d");
        Some(vec![("d".to_string(), next)])
    };
    let kind_at = |_dir: String| -> Option<ProjectKind> { None };
    let make = |dir: String, _kind: ProjectKind| candidate(&dir, &dir);
    let mut out = Vec::new();
    walk_dir("/x".to_string(), 0, &list, &kind_at, &make, &mut out);
    assert!(out.is_empty());
    walk_dir("/x".to_string(), 5, &list, &kind_at, &make, &mut out);
    assert!(out.is_empty());
}
