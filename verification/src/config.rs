//! Where the configuration lives, how a loaded one is brought up to date, and every change
//! the interface makes to the project list.
use vstd::prelude::*;
use crate::error::OracleError;
use crate::model::{Config, Project, CONFIG_VERSION, new_project_id};
use crate::model::{LocalTarget, RemoteTarget, default_settings, uuid_text};
use crate::text::{chars_of, has_prefix, has_suffix, lowered, lowercase_of, string_of, trim, trim_of};
use crate::sorting::{
    keys_sorted, lemma_sort_member, lemma_sort_sorted, lemma_sort_sorted_is_identity,
    lemma_sort_stable, lemma_sort_distinct_keys_increase, lemma_increasing_keys_are_positions,
    sort_by_key, stable_sort, with_key,
};

verus! {

/// The file name the configuration is stored under.
pub const FILE_NAME: &'static str = "config.json";

/// The platform's per-user configuration directory, if it has one.
///
/// Calls `dirs::config_dir` and renders the path as text. Which directory comes back depends
/// on the platform and the environment. `dirs` documents it as an absolute path (an
/// absolute `$XDG_CONFIG_HOME`, `$HOME/.config`, `$HOME/Library/Application Support`, or
/// the roaming application-data folder), so what is claimed is only that it is not empty.
#[verifier::external_body]
fn platform_config_dir() -> (r: Option<String>)
    ensures
        r matches Some(d) ==> d@.len() > 0,
{
    dirs::config_dir().map(|p| p.to_string_lossy().into_owned())
}

/// A single normal path component: non-empty, not `.` or `..`, with no separator and no
/// drive colon.
pub open spec fn is_component(name: Seq<char>) -> bool {
    &&& name.len() > 0
    &&& name != "."@
    &&& name != ".."@
    &&& !name.contains('/')
    &&& !name.contains('\\')
    &&& !name.contains(':')
}

/// A Windows path with a verbatim prefix, `\\?\`.
pub open spec fn verbatim(p: Seq<char>) -> bool {
    has_prefix(p, "\\\\?\\"@)
}

/// `p` is where `Path::join` puts the component `name` under `base`: `base`, a separator
/// unless none is needed, then `name`. Under a verbatim `base` the joined path is also
/// normalised, so of it only that it keeps the verbatim prefix and ends in `name` is said.
pub open spec fn placed_in(base: Seq<char>, name: Seq<char>, p: Seq<char>) -> bool {
    &&& has_suffix(p, name)
    &&& !verbatim(base) ==> joined(base, name, p)
    &&& verbatim(base) ==> verbatim(p)
}

/// `base` joined with one normal component, as `Path::join` does it.
///
/// Calls `Path::join`. A relative component is appended, after a separator unless `base`
/// is empty or already ends in one; which separator depends on the platform, so the claim
/// allows either. `PathBuf::push`, which `join` uses, normalises the result when `base` has
/// a verbatim prefix, removing every `.` and `..` in it; for such a base only the prefix and
/// the final component are claimed.
#[verifier::external_body]
pub(crate) fn join_path(base: &str, name: &str) -> (r: String)
    requires
        is_component(name@),
    ensures
        placed_in(base@, name@, r@),
{
    std::path::Path::new(base).join(name).to_string_lossy().into_owned()
}

/// The folder Oracle keeps its data in, under the platform's configuration directory.
pub open spec fn app_folder() -> Seq<char> {
    "com.alicien.oracle"@
}

/// The base the data folder goes under: the platform's configuration directory, or the
/// working directory where the platform has none.
pub open spec fn data_base(platform: Option<String>) -> Seq<char> {
    match platform {
        Some(d) => d@,
        None => "."@,
    }
}

/// The data folder under a given platform configuration directory, or under `.` when there
/// is none.
pub fn data_dir_from(platform: Option<String>) -> (r: String)
    ensures
        placed_in(data_base(platform), app_folder(), r@),
{
    let base = match platform {
        Some(dir) => dir,
        None => ".".to_owned(),
    };
    proof {
        reveal_strlit("com.alicien.oracle");
        reveal_strlit("..");
        reveal_strlit(".");
    }
    join_path(base.as_str(), "com.alicien.oracle")
}

/// `%APPDATA%\com.alicien.oracle` on Windows, the platform equivalent elsewhere, or
/// `./com.alicien.oracle` where the platform has none.
pub fn data_dir() -> (r: String)
    ensures
        exists|base: Seq<char>| base.len() > 0 && placed_in(base, app_folder(), r@),
{
    let platform = platform_config_dir();
    let r = data_dir_from(platform);
    proof {
        reveal_strlit(".");
        assert(data_base(platform).len() > 0);
    }
    r
}

/// A path under the data folder: `name` inside the folder `data_dir` gives.
pub open spec fn in_data_dir(name: Seq<char>, p: Seq<char>) -> bool {
    exists|base: Seq<char>, dir: Seq<char>|
        base.len() > 0 && placed_in(base, app_folder(), dir) && placed_in(dir, name, p)
}

/// Where the configuration file lives.
pub fn config_path() -> (r: String)
    ensures
        in_data_dir("config.json"@, r@),
{
    let dir = data_dir();
    proof {
        reveal_strlit("config.json");
        reveal_strlit("..");
        reveal_strlit(".");
    }
    let r = join_path(dir.as_str(), FILE_NAME);
    proof {
        let base = choose|base: Seq<char>| base.len() > 0 && placed_in(base, app_folder(), dir@);
        assert(base.len() > 0 && placed_in(base, app_folder(), dir@) && placed_in(dir@, "config.json"@, r@));
    }
    r
}

/// Where user-supplied project icons are copied to, so the config never points at a file
/// the user might later move or delete.
pub fn icons_dir() -> (r: String)
    ensures
        in_data_dir("icons"@, r@),
{
    let dir = data_dir();
    proof {
        reveal_strlit("icons");
        reveal_strlit("..");
        reveal_strlit(".");
    }
    let r = join_path(dir.as_str(), "icons");
    proof {
        let base = choose|base: Seq<char>| base.len() > 0 && placed_in(base, app_folder(), dir@);
        assert(base.len() > 0 && placed_in(base, app_folder(), dir@) && placed_in(dir@, "icons"@, r@));
    }
    r
}

/// What `Path::extension` gives for a path: the part of its file name after the last dot,
/// if there is one that does not begin the name.
pub uninterp spec fn path_extension(path: Seq<char>) -> Option<Seq<char>>;

/// Calls `std::path::Path::extension` on the path and renders the result as text, which is
/// lossless for a path that came from a string. Its result is a function of the path
/// alone, named `path_extension`; nothing more is claimed of it.
#[verifier::external_body]
fn extension_of(path: &str) -> (r: Option<String>)
    ensures
        match r {
            Some(e) => path_extension(path@) == Some(e@),
            None => path_extension(path@) is None,
        },
{
    match std::path::Path::new(path).extension() {
        Some(e) => Some(e.to_string_lossy().into_owned()),
        None => None,
    }
}

/// The extension an imported icon keeps: its own, in lower case, else `png`.
pub open spec fn icon_extension(source: Seq<char>) -> Seq<char> {
    match path_extension(source) {
        Some(e) => lowered(e),
        None => "png"@,
    }
}

/// The file name a user-chosen icon is copied under in `icons_dir`: a fresh random id and
/// the source's extension, so the config never depends on where the user picked it from.
/// Nothing when the operating system's random source cannot deliver an id.
pub fn imported_icon_name(source: &str) -> (r: Option<String>)
    ensures
        r matches Some(name) ==> exists|id: Seq<char>|
            uuid_text(id) && name@ == id + "."@ + icon_extension(source@),
{
    let extension = match extension_of(source) {
        Some(e) => lowercase_of(e.as_str()),
        None => "png".to_string(),
    };
    let id = match new_project_id() {
        Some(id) => id,
        None => {
            return None;
        },
    };
    let ghost id_text = id@;
    let mut r = id;
    r.append(".");
    r.append(extension.as_str());
    proof {
        reveal_strlit("png");
        assert(uuid_text(id_text) && r@ == id_text + "."@ + icon_extension(source@));
    }
    Some(r)
}

/// What a change that needed a fresh id reports when the operating system's random source
/// could not deliver one.
pub open spec fn no_random_source(e: OracleError) -> bool {
    e matches OracleError::Other(m) && m@ == "the system's random source is unavailable"@
}

pub fn no_random_source_error() -> (r: OracleError)
    ensures
        no_random_source(r),
{
    OracleError::Other("the system's random source is unavailable".to_string())
}

/// The name an unparseable configuration is moved aside under.
pub fn quarantine_name(stamp: &str) -> (r: String)
    ensures
        r@ == "config.corrupt-"@ + stamp@ + ".json"@,
{
    let mut r = "config.corrupt-".to_owned();
    r.append(stamp);
    r.append(".json");
    r
}

/// Outcome of a load, so the caller can tell the user what happened.
pub struct Loaded {
    pub config: Config,
    /// Set when the previous file could not be parsed and was moved aside.
    pub recovered_from: Option<String>,
    /// Set when no config existed yet: a first run.
    pub is_first_run: bool,
}

/// `p` is `base` joined with `name` by `Path::join`, with either separator.
pub open spec fn joined(base: Seq<char>, name: Seq<char>, p: Seq<char>) -> bool {
    p == base + name || p == base + seq!['/'] + name || p == base + seq!['\\'] + name
}

/// The folder names under the home directory that usually hold projects.
pub open spec fn root_names() -> Seq<Seq<char>> {
    seq!["Documents"@, "Projects"@, "dev"@, "code"@]
}

/// The folders under the home directory worth offering as scan roots, before checking
/// which of them exist.
pub fn scan_root_candidates(home: &str) -> (r: Vec<String>)
    ensures
        r@.len() == 4,
        forall|i: int| 0 <= i < 4 ==> placed_in(home@, root_names()[i], #[trigger] r@[i]@),
{
    proof {
        reveal_strlit("..");
        reveal_strlit(".");
        reveal_strlit("Documents");
        reveal_strlit("Projects");
        reveal_strlit("dev");
        reveal_strlit("code");
    }
    let mut r: Vec<String> = Vec::new();
    r.push(join_path(home, "Documents"));
    r.push(join_path(home, "Projects"));
    r.push(join_path(home, "dev"));
    r.push(join_path(home, "code"));
    r
}

/// What reading the configuration file gave.
pub enum ConfigRead {
    /// There is no file yet.
    Missing,
    /// The file is there but could not be read (permissions, a locked file).
    Unreadable,
    /// The file parsed.
    Parsed(Config),
    /// The file did not parse; it was moved aside to the given path, when that worked.
    Unparseable(Option<String>),
}

/// The configuration to start with after reading the file. A missing file is a first run;
/// an unreadable one starts clean without touching what is on disk; one that does not parse
/// starts clean and reports where it was moved, so it is never silently discarded; one that
/// parses is settled before use.
pub fn load(read: ConfigRead, scan_roots: Vec<String>) -> (r: Loaded)
    ensures
        match read {
            ConfigRead::Parsed(c) => {
                &&& r.config.version == if c.version < CONFIG_VERSION {
                    CONFIG_VERSION
                } else {
                    c.version
                }
                &&& r.config.projects@ == normalised(c.projects@)
                &&& r.config.settings == c.settings
                &&& r.recovered_from is None
                &&& !r.is_first_run
            },
            _ => {
                &&& r.config.version == CONFIG_VERSION
                &&& r.config.projects@.len() == 0
                &&& default_settings(r.config.settings, scan_roots)
                &&& r.is_first_run == (read is Missing)
                &&& r.recovered_from == match read {
                    ConfigRead::Unparseable(moved) => moved,
                    _ => None,
                }
            },
        },
{
    match read {
        ConfigRead::Missing => Loaded { config: Config::fresh(scan_roots), recovered_from: None, is_first_run: true },
        ConfigRead::Unreadable => Loaded { config: Config::fresh(scan_roots), recovered_from: None, is_first_run: false },
        ConfigRead::Parsed(c) => Loaded { config: settle(c), recovered_from: None, is_first_run: false },
        ConfigRead::Unparseable(moved) => Loaded { config: Config::fresh(scan_roots), recovered_from: moved, is_first_run: false },
    }
}

/// Brings an older document up to `CONFIG_VERSION`. Only the version is stamped; the hook
/// exists so the first real migration does not have to invent the mechanism.
pub fn migrate(config: &mut Config)
    ensures
        final(config).version == if old(config).version < CONFIG_VERSION {
            CONFIG_VERSION
        } else {
            old(config).version
        },
        final(config).projects == old(config).projects,
        final(config).settings == old(config).settings,
{
    if config.version < CONFIG_VERSION {
        config.version = CONFIG_VERSION;
    }
}

/// What a configuration read from disk becomes before use: migrated, then its order
/// normalised.
pub fn settle(config: Config) -> (r: Config)
    ensures
        r.version == if config.version < CONFIG_VERSION {
            CONFIG_VERSION
        } else {
            config.version
        },
        r.projects@ == normalised(config.projects@),
        r.settings == config.settings,
{
    let mut config = config;
    migrate(&mut config);
    config.normalise_order();
    config
}

/// Index of the first project with this id.
pub open spec fn find_project(ps: Seq<Project>, id: Seq<char>) -> Option<int>
    decreases ps.len(),
{
    if ps.len() == 0 {
        None
    } else {
        match find_project(ps.drop_last(), id) {
            Some(i) => Some(i),
            None => if ps.last().id@ == id {
                Some(ps.len() - 1)
            } else {
                None
            },
        }
    }
}

pub proof fn lemma_find_project(ps: Seq<Project>, id: Seq<char>)
    ensures
        match find_project(ps, id) {
            Some(i) => 0 <= i < ps.len() && ps[i].id@ == id && forall|j: int|
                0 <= j < i ==> ps[j].id@ != id,
            None => forall|j: int| 0 <= j < ps.len() ==> ps[j].id@ != id,
        },
    decreases ps.len(),
{
    if ps.len() > 0 {
        let t = ps.drop_last();
        lemma_find_project(t, id);
        assert forall|j: int| 0 <= j < t.len() implies t[j] == ps[j] by {}
    }
}

proof fn lemma_find_extends(ps: Seq<Project>, id: Seq<char>, k: int)
    requires
        0 <= k <= ps.len(),
        find_project(ps.take(k), id) is Some,
    ensures
        find_project(ps, id) == find_project(ps.take(k), id),
    decreases ps.len() - k,
{
    if k < ps.len() {
        assert(ps.take(k + 1).drop_last() =~= ps.take(k));
        lemma_find_extends(ps, id, k + 1);
    } else {
        assert(ps.take(k) =~= ps);
    }
}

/// The projects sorted by their `order`, ties kept as they were, renumbered `0..n`.
pub open spec fn normalised(ps: Seq<Project>) -> Seq<Project> {
    let sorted = sort_by_key(order_keyed(ps));
    Seq::new(sorted.len(), |k: int| Project { order: #[verifier::truncate] (k as i32), ..sorted[k].1 })
}

/// Each project paired with its order, as the sort sees it.
pub open spec fn order_keyed(ps: Seq<Project>) -> Seq<(i64, Project)> {
    ps.map_values(|p: Project| (p.order as i64, p))
}

/// The projects without any whose id is `id`, in their order.
pub open spec fn without_id(ps: Seq<Project>, id: Seq<char>) -> Seq<Project>
    decreases ps.len(),
{
    if ps.len() == 0 {
        ps
    } else if ps.last().id@ == id {
        without_id(ps.drop_last(), id)
    } else {
        without_id(ps.drop_last(), id).push(ps.last())
    }
}

/// The projects after each id in `ids` has had its first project's order set to its position
/// in `ids`, later ids winning.
pub open spec fn reordered(ps: Seq<Project>, ids: Seq<Seq<char>>) -> Seq<Project>
    decreases ids.len(),
{
    if ids.len() == 0 {
        ps
    } else {
        let prev = reordered(ps, ids.drop_last());
        match find_project(prev, ids.last()) {
            Some(i) => prev.update(
                i,
                Project { order: #[verifier::truncate] ((ids.len() - 1) as i32), ..prev[i] },
            ),
            None => prev,
        }
    }
}

/// The projects with the favourite flag of the first project with this id flipped.
pub open spec fn toggled(ps: Seq<Project>, id: Seq<char>) -> Seq<Project> {
    match find_project(ps, id) {
        Some(i) => ps.update(i, Project { favorite: !ps[i].favorite, ..ps[i] }),
        None => ps,
    }
}

/// Changing a project's fields other than its id keeps where the id is found.
proof fn lemma_find_after_update(ps: Seq<Project>, id: Seq<char>, i: int, p: Project)
    requires
        0 <= i < ps.len(),
        p.id == ps[i].id,
    ensures
        find_project(ps.update(i, p), id) == find_project(ps, id),
    decreases ps.len(),
{
    if i < ps.len() - 1 {
        lemma_find_after_update(ps.drop_last(), id, i, p);
        assert(ps.update(i, p).drop_last() =~= ps.drop_last().update(i, p));
    } else {
        assert(ps.update(i, p).drop_last() =~= ps.drop_last());
    }
}

/// A local target as a saved draft keeps it: root, command and open URL trimmed, an open
/// URL that trims to nothing dropped; nothing at all when both root and command are empty.
pub open spec fn tidied_local(l: LocalTarget, stored: Option<LocalTarget>) -> bool {
    let root = trim(l.root@);
    let command = trim(l.command@);
    if root.len() == 0 && command.len() == 0 {
        stored is None
    } else {
        &&& stored matches Some(s)
        &&& s.root@ == root
        &&& s.command@ == command
        &&& s.env == l.env
        &&& s.port == l.port
        &&& s.autostart_with_oracle == l.autostart_with_oracle
        &&& match l.open_url {
            Some(u) => if trim(u@).len() == 0 {
                s.open_url is None
            } else {
                s.open_url matches Some(v) && v@ == trim(u@)
            },
            None => s.open_url is None,
        }
    }
}

/// A remote target as a saved draft keeps it: its URL trimmed, nothing when that is empty.
pub open spec fn tidied_remote(r: RemoteTarget, stored: Option<RemoteTarget>) -> bool {
    if trim(r.url@).len() == 0 {
        stored is None
    } else {
        stored matches Some(s) && s.url@ == trim(r.url@) && s.check == r.check
            && s.interval_secs == r.interval_secs
    }
}

/// A draft from the edit form as it is stored: its name trimmed and its targets tidied,
/// everything else as entered.
pub open spec fn tidied(draft: Project, stored: Project) -> bool {
    &&& stored == (Project {
        name: stored.name,
        local: stored.local,
        remote: stored.remote,
        ..draft
    })
    &&& stored.name@ == trim(draft.name@)
    &&& match draft.local {
        Some(l) => tidied_local(l, stored.local),
        None => stored.local is None,
    }
    &&& match draft.remote {
        Some(r) => tidied_remote(r, stored.remote),
        None => stored.remote is None,
    }
}

fn trimmed(s: &String) -> (r: String)
    ensures
        r@ == trim(s@),
{
    string_of(trim_of(chars_of(s.as_str()).as_slice()).as_slice())
}

/// The draft with whitespace cleaned up: the one place that happens, so editing never
/// fights the user.
fn tidy(draft: Project) -> (r: Project)
    ensures
        tidied(draft, r),
{
    let mut p = draft;
    p.name = trimmed(&p.name);
    let local = match p.local {
        Some(l) => {
            let root = trimmed(&l.root);
            let command = trimmed(&l.command);
            if root.unicode_len() == 0 && command.unicode_len() == 0 {
                None
            } else {
                let open_url = match l.open_url {
                    Some(u) => {
                        let t = trimmed(&u);
                        if t.unicode_len() == 0 {
                            None
                        } else {
                            Some(t)
                        }
                    },
                    None => None,
                };
                Some(LocalTarget {
                    root,
                    command,
                    env: l.env,
                    port: l.port,
                    open_url,
                    autostart_with_oracle: l.autostart_with_oracle,
                })
            }
        },
        None => None,
    };
    let remote = match p.remote {
        Some(r) => {
            let url = trimmed(&r.url);
            if url.unicode_len() == 0 {
                None
            } else {
                Some(RemoteTarget { url, check: r.check, interval_secs: r.interval_secs })
            }
        },
        None => None,
    };
    Project { local, remote, ..p }
}

impl Config {
    /// Saves a draft from the edit form: tidied, it replaces the project with its id, which
    /// keeps its place, or is added at the end. A draft with a blank name is not saved.
    pub fn save_draft(&mut self, draft: Project) -> (r: bool)
        ensures
            r == (trim(draft.name@).len() > 0),
            !r ==> *final(self) == *old(self),
            r ==> exists|stored: Project|
                #![trigger tidied(draft, stored)]
                tidied(draft, stored) && match find_project(old(self).projects@, draft.id@) {
                    Some(i) => final(self).projects@ == old(self).projects@.update(
                        i,
                        Project { order: old(self).projects@[i].order, ..stored },
                    ),
                    None => final(self).projects@ == old(self).projects@.push(
                        Project {
                            order: #[verifier::truncate] (old(self).projects@.len() as i32),
                            ..stored
                        },
                    ),
                },
            final(self).version == old(self).version,
            final(self).settings == old(self).settings,
    {
        let name = trimmed(&draft.name);
        if name.unicode_len() == 0 {
            return false;
        }
        let stored = tidy(draft);
        let ghost kept = stored;
        proof {
            lemma_find_project(self.projects@, stored.id@);
        }
        match self.position(stored.id.as_str()) {
            Some(i) => {
                let mut p = stored;
                p.order = self.projects[i].order;
                self.projects.set(i, p);
            },
            None => {
                let mut p = stored;
                p.order = #[verifier::truncate] (self.projects.len() as i32);
                self.projects.push(p);
            },
        }
        assert(tidied(draft, kept));
        true
    }

    /// Index of the first project with this id.
    pub fn position(&self, id: &str) -> (r: Option<usize>)
        ensures
            match r {
                Some(i) => find_project(self.projects@, id@) == Some(i as int),
                None => find_project(self.projects@, id@) is None,
            },
    {
        let target = id.to_owned();
        let ghost ps = self.projects@;
        let mut i: usize = 0;
        while i < self.projects.len()
            invariant
                ps == self.projects@,
                target@ == id@,
                i <= ps.len(),
                find_project(ps.take(i as int), id@) is None,
            decreases ps.len() - i,
        {
            assert(ps.take(i + 1).drop_last() =~= ps.take(i as int));
            if self.projects[i].id == target {
                proof {
                    lemma_find_extends(ps, id@, i + 1);
                }
                return Some(i);
            }
            i += 1;
        }
        assert(ps.take(i as int) =~= ps);
        None
    }

    /// The first project with this id.
    pub fn project(&self, id: &str) -> (r: Option<&Project>)
        ensures
            match find_project(self.projects@, id@) {
                Some(i) => r == Some(&self.projects@[i]),
                None => r is None,
            },
    {
        proof {
            lemma_find_project(self.projects@, id@);
        }
        match self.position(id) {
            Some(i) => Some(&self.projects[i]),
            None => None,
        }
    }

    /// The first project with this id, to change in place.
    pub fn project_mut(&mut self, id: &str) -> (r: Option<&mut Project>)
        ensures
            match find_project(old(self).projects@, id@) {
                Some(i) => r is Some && *r->0 == old(self).projects@[i]
                    && final(self).projects@ == old(self).projects@.update(i, *final(r->0))
                    && final(self).version == old(self).version
                    && final(self).settings == old(self).settings,
                None => r is None && *final(self) == *old(self),
            },
    {
        proof {
            lemma_find_project(self.projects@, id@);
        }
        match self.position(id) {
            Some(i) => Some(&mut self.projects[i]),
            None => None,
        }
    }

    /// Adds a project at the end of the rail, giving it a fresh id if it has none. A project
    /// that needs an id when the operating system's random source cannot deliver one is
    /// refused, and nothing changes.
    pub fn add_project(&mut self, project: Project) -> (r: Result<(), OracleError>)
        ensures
            project.id@.len() != 0 ==> r is Ok,
            r is Err ==> project.id@.len() == 0 && no_random_source(r->Err_0) && *final(self)
                == *old(self),
            r is Ok ==> {
                &&& final(self).projects@.len() == old(self).projects@.len() + 1
                &&& final(self).projects@.drop_last() == old(self).projects@
                &&& ({
                    let added = final(self).projects@.last();
                    &&& added.order == #[verifier::truncate] (old(self).projects@.len() as i32)
                    &&& project.id@.len() == 0 ==> uuid_text(added.id@)
                    &&& project.id@.len() != 0 ==> added.id == project.id
                    &&& added == (Project { id: added.id, order: added.order, ..project })
                })
                &&& final(self).version == old(self).version
                &&& final(self).settings == old(self).settings
            },
    {
        let mut project = project;
        if project.id.unicode_len() == 0 {
            match new_project_id() {
                Some(id) => {
                    project.id = id;
                },
                None => {
                    return Err(no_random_source_error());
                },
            }
        }
        project.order = #[verifier::truncate] (self.projects.len() as i32);
        self.projects.push(project);
        assert(self.projects@.drop_last() =~= old(self).projects@);
        Ok(())
    }

    /// Replaces the project with the same id, keeping its place in the rail.
    pub fn update_project(&mut self, project: Project) -> (r: Result<(), OracleError>)
        ensures
            match find_project(old(self).projects@, project.id@) {
                Some(i) => r is Ok && final(self).projects@ == old(self).projects@.update(
                    i,
                    Project { order: old(self).projects@[i].order, ..project },
                ),
                None => r == Err::<(), OracleError>(OracleError::ProjectNotFound(project.id))
                    && final(self).projects@ == old(self).projects@,
            },
            final(self).version == old(self).version,
            final(self).settings == old(self).settings,
    {
        proof {
            lemma_find_project(self.projects@, project.id@);
        }
        match self.position(project.id.as_str()) {
            Some(i) => {
                let mut stored = project;
                stored.order = self.projects[i].order;
                self.projects.set(i, stored);
                Ok(())
            },
            None => Err(OracleError::ProjectNotFound(project.id)),
        }
    }

    /// Flips a project's favourite flag, returning the new value.
    pub fn toggle_favorite(&mut self, id: &str) -> (r: Result<bool, OracleError>)
        ensures
            final(self).projects@ == toggled(old(self).projects@, id@),
            match find_project(old(self).projects@, id@) {
                Some(i) => r == Ok::<bool, OracleError>(!old(self).projects@[i].favorite),
                None => r matches Err(OracleError::ProjectNotFound(s)) && s@ == id@,
            },
            final(self).version == old(self).version,
            final(self).settings == old(self).settings,
    {
        proof {
            lemma_find_project(self.projects@, id@);
        }
        match self.position(id) {
            Some(i) => {
                let ghost before = self.projects@;
                let favorite = !self.projects[i].favorite;
                let mut p = self.projects.remove(i);
                p.favorite = favorite;
                self.projects.insert(i, p);
                assert(self.projects@ =~= before.update(i as int, Project { favorite, ..before[i as int] }));
                Ok(favorite)
            },
            None => Err(OracleError::ProjectNotFound(id.to_owned())),
        }
    }

    /// Removes every project with this id and closes the gap it leaves in the order.
    pub fn remove_project(&mut self, id: &str)
        ensures
            final(self).projects@ == normalised(without_id(old(self).projects@, id@)),
            final(self).version == old(self).version,
            final(self).settings == old(self).settings,
    {
        let target = id.to_owned();
        let mut taken: Vec<Project> = Vec::new();
        std::mem::swap(&mut taken, &mut self.projects);
        let ghost ps = taken@;
        let n = taken.len();
        let mut rest = taken;
        let mut kept: Vec<Project> = Vec::new();
        let mut done: usize = 0;
        while rest.len() > 0
            invariant
                done + rest@.len() == ps.len(),
                ps.len() == n,
                rest@ == ps.skip(done as int),
                kept@ == without_id(ps.take(done as int), id@),
                target@ == id@,
            decreases rest@.len(),
        {
            let p = rest.remove(0);
            proof {
                assert(p == ps[done as int]);
                assert(ps.skip(done + 1) =~= ps.skip(done as int).drop_first());
                assert(ps.take(done + 1).drop_last() =~= ps.take(done as int));
            }
            if p.id != target {
                kept.push(p);
            }
            done += 1;
        }
        assert(ps.take(ps.len() as int) =~= ps);
        self.projects = kept;
        self.normalise_order();
    }

    /// Sets each listed project's order to its position in `ordered_ids`, then normalises.
    pub fn reorder(&mut self, ordered_ids: &Vec<String>)
        ensures
            final(self).projects@ == normalised(
                reordered(old(self).projects@, ordered_ids@.map_values(|s: String| s@)),
            ),
            final(self).version == old(self).version,
            final(self).settings == old(self).settings,
    {
        let ghost ids = ordered_ids@.map_values(|s: String| s@);
        let ghost ps = self.projects@;
        let mut k: usize = 0;
        while k < ordered_ids.len()
            invariant
                k <= ordered_ids@.len(),
                ids == ordered_ids@.map_values(|s: String| s@),
                self.projects@ == reordered(ps, ids.take(k as int)),
                self.version == old(self).version,
                self.settings == old(self).settings,
            decreases ordered_ids@.len() - k,
        {
            proof {
                assert(ids.take(k + 1).drop_last() =~= ids.take(k as int));
                assert(ids.take(k + 1).last() == ordered_ids@[k as int]@);
                lemma_find_project(self.projects@, ordered_ids@[k as int]@);
            }
            match self.position(ordered_ids[k].as_str()) {
                Some(i) => {
                    let ghost before = self.projects@;
                    let mut p = self.projects.remove(i);
                    p.order = #[verifier::truncate] (k as i32);
                    self.projects.insert(i, p);
                    assert(self.projects@ =~= before.update(
                        i as int,
                        Project { order: #[verifier::truncate] (k as i32), ..before[i as int] },
                    ));
                },
                None => {},
            }
            k += 1;
        }
        assert(ids.take(ordered_ids@.len() as int) =~= ids);
        self.normalise_order();
    }

    /// Sorts the projects by `order`, keeping ties as they were, and renumbers `order` to
    /// match the position, closing any gaps.
    pub fn normalise_order(&mut self)
        ensures
            final(self).projects@ == normalised(old(self).projects@),
            final(self).version == old(self).version,
            final(self).settings == old(self).settings,
    {
        let mut taken: Vec<Project> = Vec::new();
        std::mem::swap(&mut taken, &mut self.projects);
        let ghost ps = taken@;
        let n = taken.len();
        let mut keyed: Vec<(i64, Project)> = Vec::new();
        let mut rest = taken;
        let mut done: usize = 0;
        while rest.len() > 0
            invariant
                done + rest@.len() == ps.len(),
                ps.len() == n,
                rest@ == ps.skip(done as int),
                keyed@ == order_keyed(ps.take(done as int)),
            decreases rest@.len(),
        {
            let p = rest.remove(0);
            proof {
                assert(p == ps[done as int]);
                assert(ps.skip(done + 1) =~= ps.skip(done as int).drop_first());
            }
            let k = p.order as i64;
            keyed.push((k, p));
            assert(order_keyed(ps.take(done + 1)) =~= order_keyed(ps.take(done as int)).push(
                (ps[done as int].order as i64, ps[done as int]),
            ));
            done += 1;
        }
        assert(ps.take(ps.len() as int) =~= ps);
        let sorted = stable_sort(keyed);
        proof {
            lemma_sort_sorted(keyed@);
        }
        let ghost s = sorted@;
        let mut rest = sorted;
        let mut out: Vec<Project> = Vec::new();
        let mut k: usize = 0;
        while rest.len() > 0
            invariant
                k + rest@.len() == s.len(),
                s.len() == n,
                rest@ == s.skip(k as int),
                out@.len() == k,
                forall|m: int| 0 <= m < k ==> out@[m] == (Project { order: #[verifier::truncate] (m as i32), ..s[m].1 }),
            decreases rest@.len(),
        {
            let (_, mut p) = rest.remove(0);
            proof {
                assert(ps.skip(0) =~= ps);
                assert(s.skip(k + 1) =~= s.skip(k as int).drop_first());
            }
            p.order = #[verifier::truncate] (k as i32);
            out.push(p);
            k += 1;
        }
        assert(out@ =~= normalised(ps));
        self.projects = out;
    }
}


/// Flipping a project's favourite flag twice leaves the list as it was.
pub proof fn lemma_toggle_twice(ps: Seq<Project>, id: Seq<char>)
    ensures
        toggled(toggled(ps, id), id) == ps,
{
    lemma_find_project(ps, id);
    match find_project(ps, id) {
        Some(i) => {
            let p = Project { favorite: !ps[i].favorite, ..ps[i] };
            lemma_find_after_update(ps, id, i, p);
            assert(ps.update(i, p).update(i, Project { favorite: !p.favorite, ..p }) =~= ps);
        },
        None => {},
    }
}

/// Normalising closes the gaps and sorts: the projects come out in order of their former
/// positions, ties as they were, numbered `0..n`, and none is lost or added.
pub proof fn lemma_normalised_shape(ps: Seq<Project>)
    requires
        ps.len() <= 0x8000_0000,
    ensures
        normalised(ps).len() == ps.len(),
        forall|k: int| 0 <= k < ps.len() ==> #[trigger] normalised(ps)[k].order == k,
        keys_sorted(sort_by_key(order_keyed(ps))),
        sort_by_key(order_keyed(ps)).to_multiset() == order_keyed(ps).to_multiset(),
        forall|k: int|
            0 <= k < ps.len() ==> #[trigger] normalised(ps)[k] == (Project {
                order: normalised(ps)[k].order,
                ..sort_by_key(order_keyed(ps))[k].1
            }),
{
    lemma_sort_sorted(order_keyed(ps));
    assert forall|k: int| 0 <= k < ps.len() implies #[trigger] normalised(ps)[k].order == k by {
        assert((k as i32) as int == k);
    }
}

/// Normalising an already normalised list changes nothing.
pub proof fn lemma_normalise_idempotent(ps: Seq<Project>)
    requires
        ps.len() <= 0x8000_0000,
    ensures
        normalised(normalised(ps)) == normalised(ps),
{
    lemma_normalised_shape(ps);
    let n1 = normalised(ps);
    let keyed = order_keyed(n1);
    assert forall|i: int, j: int| 0 <= i <= j < keyed.len() implies keyed[i].0 <= keyed[j].0 by {
        assert(n1[i].order == i);
        assert(n1[j].order == j);
    }
    lemma_sort_sorted_is_identity(keyed);
    assert forall|k: int| 0 <= k < n1.len() implies #[trigger] normalised(n1)[k] == n1[k] by {
        assert(n1[k].order == k);
        assert((k as i32) as int == k);
    }
    assert(normalised(n1) =~= n1);
}

/// Normalising the rail order sorts the projects by their old `order`, keeping projects
/// with equal orders in the relative order they had, and renumbers them 0, 1, 2, … by
/// position; nothing is lost or added but the new numbers, and doing it again changes
/// nothing.
pub proof fn lemma_normalise_is_a_stable_renumbering(ps: Seq<Project>)
    requires
        ps.len() <= 0x8000_0000,
    ensures
        normalised(ps).len() == ps.len(),
        forall|k: int| 0 <= k < ps.len() ==> #[trigger] normalised(ps)[k].order == k,
        forall|k: int|
            0 <= k < ps.len() ==> #[trigger] normalised(ps)[k] == (Project {
                order: normalised(ps)[k].order,
                ..sort_by_key(order_keyed(ps))[k].1
            }),
        sort_by_key(order_keyed(ps)).to_multiset() == order_keyed(ps).to_multiset(),
        keys_sorted(sort_by_key(order_keyed(ps))),
        forall|key: i64| #[trigger] with_key(sort_by_key(order_keyed(ps)), key) == with_key(
            order_keyed(ps),
            key,
        ),
        normalised(normalised(ps)) == normalised(ps),
{
    lemma_normalised_shape(ps);
    lemma_normalise_idempotent(ps);
    assert forall|key: i64| #[trigger] with_key(sort_by_key(order_keyed(ps)), key) == with_key(
        order_keyed(ps),
        key,
    ) by {
        lemma_sort_stable(order_keyed(ps), key);
    }
}

/// No two projects share an id.
pub open spec fn ids_distinct(ps: Seq<Project>) -> bool {
    forall|a: int, b: int| 0 <= a < b < ps.len() ==> #[trigger] ps[a].id@ != #[trigger] ps[b].id@
}

/// `ids` names every project exactly once: as many ids as projects, none repeated, each one
/// a project's and each project's among them.
pub open spec fn lists_every_project_once(ps: Seq<Project>, ids: Seq<Seq<char>>) -> bool {
    &&& ids.len() == ps.len()
    &&& forall|a: int, b: int| 0 <= a < b < ids.len() ==> #[trigger] ids[a] != #[trigger] ids[b]
    &&& forall|k: int| 0 <= k < ids.len() ==> exists|i: int| 0 <= i < ps.len() && ps[i].id@ == #[trigger] ids[k]
    &&& forall|i: int| 0 <= i < ps.len() ==> exists|k: int| 0 <= k < ids.len() && ids[k] == #[trigger] ps[i].id@
}

/// What giving each listed id its position does to the projects: each keeps its place and
/// everything but its order, and a listed project's order becomes its position in `ids`.
proof fn lemma_reordered_positions(ps: Seq<Project>, ids: Seq<Seq<char>>)
    requires
        ids_distinct(ps),
        forall|a: int, b: int| 0 <= a < b < ids.len() ==> #[trigger] ids[a] != #[trigger] ids[b],
        ids.len() <= 0x8000_0000,
    ensures
        reordered(ps, ids).len() == ps.len(),
        forall|i: int|
            0 <= i < ps.len() ==> #[trigger] reordered(ps, ids)[i] == (Project {
                order: reordered(ps, ids)[i].order,
                ..ps[i]
            }),
        forall|i: int, k: int|
            0 <= i < ps.len() && 0 <= k < ids.len() && ids[k] == ps[i].id@ ==> #[trigger] reordered(
                ps,
                ids,
            )[i].order == k && #[trigger] ids[k] == ids[k],
    decreases ids.len(),
{
    if ids.len() > 0 {
        let t = ids.drop_last();
        assert forall|a: int, b: int| 0 <= a < b < t.len() implies #[trigger] t[a] != #[trigger] t[b] by {
            assert(t[a] == ids[a] && t[b] == ids[b]);
        }
        lemma_reordered_positions(ps, t);
        let prev = reordered(ps, t);
        let x = ids.last();
        let n = ids.len() - 1;
        lemma_find_project(prev, x);
        let r = reordered(ps, ids);
        match find_project(prev, x) {
            Some(i0) => {
                assert((n as i32) as int == n);
                assert forall|i: int, k: int|
                    0 <= i < ps.len() && 0 <= k < ids.len() && ids[k] == ps[i].id@ implies #[trigger] r[i].order
                    == k && #[trigger] ids[k] == ids[k] by {
                    assert(prev[i] == (Project { order: prev[i].order, ..ps[i] }));
                    assert(prev[i0] == (Project { order: prev[i0].order, ..ps[i0] }));
                    if i == i0 {
                        if k < n {
                            assert(ids[k] == t[k]);
                            assert(ids[k] != ids[n]);
                        }
                    } else {
                        if k == n {
                            assert(ps[i].id@ == ps[i0].id@);
                            if i < i0 {
                                assert(ps[i].id@ != ps[i0].id@);
                            } else {
                                assert(ps[i0].id@ != ps[i].id@);
                            }
                        }
                        assert(t[k] == ids[k]);
                        assert(prev[i].order == k);
                    }
                }
                assert forall|i: int| 0 <= i < ps.len() implies #[trigger] r[i] == (Project {
                    order: r[i].order,
                    ..ps[i]
                }) by {
                    assert(prev[i] == (Project { order: prev[i].order, ..ps[i] }));
                }
            },
            None => {
                assert forall|i: int, k: int|
                    0 <= i < ps.len() && 0 <= k < ids.len() && ids[k] == ps[i].id@ implies #[trigger] r[i].order
                    == k && #[trigger] ids[k] == ids[k] by {
                    assert(prev[i] == (Project { order: prev[i].order, ..ps[i] }));
                    if k == n {
                        assert(prev[i].id@ == x);
                    }
                    assert(t[k] == ids[k]);
                }
            },
        }
    }
}

/// After giving each listed id its position, every project's order is its own place in
/// `ids`.
proof fn lemma_orders_are_places(ps: Seq<Project>, ids: Seq<Seq<char>>)
    requires
        ids_distinct(ps),
        lists_every_project_once(ps, ids),
        ps.len() <= 0x8000_0000,
    ensures
        reordered(ps, ids).len() == ps.len(),
        forall|i: int|
            0 <= i < ps.len() ==> 0 <= #[trigger] reordered(ps, ids)[i].order < ps.len() && ids[reordered(
                ps,
                ids,
            )[i].order as int] == ps[i].id@ && reordered(ps, ids)[i].id == ps[i].id,
{
    lemma_reordered_positions(ps, ids);
    let p = reordered(ps, ids);
    assert forall|i: int| 0 <= i < ps.len() implies 0 <= #[trigger] p[i].order < ps.len() && ids[p[i].order as int]
        == ps[i].id@ && p[i].id == ps[i].id by {
        let k = choose|k: int| 0 <= k < ids.len() && ids[k] == ps[i].id@;
        assert(p[i].order == k && ids[k] == ids[k]);
        assert(p[i] == (Project { order: p[i].order, ..ps[i] }));
    }
}

/// Orders that are places in a list without repeats are all different.
proof fn lemma_places_distinct(ps: Seq<Project>, ids: Seq<Seq<char>>, p: Seq<Project>)
    requires
        ids_distinct(ps),
        p.len() == ps.len(),
        forall|i: int|
            0 <= i < ps.len() ==> 0 <= #[trigger] p[i].order < ps.len() && ids[p[i].order as int]
                == ps[i].id@,
    ensures
        forall|a: int, b: int|
            0 <= a < b < order_keyed(p).len() ==> #[trigger] order_keyed(p)[a].0 != #[trigger] order_keyed(
                p,
            )[b].0,
{
    let keyed = order_keyed(p);
    assert forall|a: int, b: int| 0 <= a < b < keyed.len() implies #[trigger] keyed[a].0 != #[trigger] keyed[b].0 by {
        assert(keyed[a].0 == p[a].order && keyed[b].0 == p[b].order);
        assert(0 <= p[a].order < ps.len() && ids[p[a].order as int] == ps[a].id@);
        assert(0 <= p[b].order < ps.len() && ids[p[b].order as int] == ps[b].id@);
        assert(ps[a].id@ != ps[b].id@);
    }
}

/// Sorting projects whose orders are exactly the places `0..n` puts each at its own order.
proof fn lemma_sorted_by_place(p: Seq<Project>)
    requires
        forall|i: int| 0 <= i < p.len() ==> 0 <= #[trigger] p[i].order < p.len(),
        forall|a: int, b: int|
            0 <= a < b < order_keyed(p).len() ==> #[trigger] order_keyed(p)[a].0 != #[trigger] order_keyed(
                p,
            )[b].0,
    ensures
        sort_by_key(order_keyed(p)).len() == p.len(),
        forall|k: int|
            0 <= k < p.len() ==> exists|j: int|
                0 <= j < p.len() && #[trigger] sort_by_key(order_keyed(p))[k] == (p[j].order as i64, p[j])
                    && p[j].order == k,
{
    let keyed = order_keyed(p);
    lemma_sort_distinct_keys_increase(keyed);
    lemma_sort_sorted(keyed);
    let sorted = sort_by_key(keyed);
    assert forall|a: int| 0 <= a < sorted.len() implies 0 <= #[trigger] sorted[a].0 < sorted.len() by {
        lemma_sort_member(keyed, a);
        let j = choose|j: int| 0 <= j < keyed.len() && keyed[j] == sorted[a];
        assert(keyed[j].0 == p[j].order);
    }
    lemma_increasing_keys_are_positions(sorted);
    assert forall|k: int| 0 <= k < p.len() implies exists|j: int|
        0 <= j < p.len() && #[trigger] sorted[k] == (p[j].order as i64, p[j]) && p[j].order == k by {
        lemma_sort_member(keyed, k);
        let j = choose|j: int| 0 <= j < keyed.len() && keyed[j] == sorted[k];
        assert(sorted[k].0 == k);
        assert(keyed[j] == (p[j].order as i64, p[j]));
    }
}

/// Reordering by a list that names every project exactly once puts the projects in exactly
/// that order, numbered by their place: the project at place `k` is the one `ids[k]` names.
pub proof fn lemma_reorder_follows_the_list(ps: Seq<Project>, ids: Seq<Seq<char>>)
    requires
        ids_distinct(ps),
        lists_every_project_once(ps, ids),
        ps.len() <= 0x8000_0000,
    ensures
        normalised(reordered(ps, ids)).len() == ids.len(),
        forall|k: int|
            0 <= k < ids.len() ==> (#[trigger] normalised(reordered(ps, ids))[k]).id@ == ids[k]
                && normalised(reordered(ps, ids))[k].order == k,
{
    lemma_orders_are_places(ps, ids);
    let p = reordered(ps, ids);
    lemma_places_distinct(ps, ids, p);
    lemma_sorted_by_place(p);
    lemma_normalised_shape(p);
    let sorted = sort_by_key(order_keyed(p));
    assert forall|k: int| 0 <= k < ids.len() implies (#[trigger] normalised(p)[k]).id@ == ids[k]
        && normalised(p)[k].order == k by {
        let j = choose|j: int| 0 <= j < p.len() && #[trigger] sorted[k] == (p[j].order as i64, p[j]) && p[j].order == k;
        assert(ids[p[j].order as int] == ps[j].id@ && p[j].id == ps[j].id);
        assert(normalised(p)[k].id == sorted[k].1.id);
    }
}

proof fn lemma_without_id_excludes(ps: Seq<Project>, id: Seq<char>)
    ensures
        forall|j: int| 0 <= j < without_id(ps, id).len() ==> (#[trigger] without_id(ps, id)[j]).id@ != id,
    decreases ps.len(),
{
    if ps.len() > 0 {
        lemma_without_id_excludes(ps.drop_last(), id);
        let w = without_id(ps.drop_last(), id);
        let all = without_id(ps, id);
        if ps.last().id@ != id {
            assert(all == w.push(ps.last()));
            assert forall|j: int| 0 <= j < all.len() implies (#[trigger] all[j]).id@ != id by {
                if j < w.len() {
                    assert(all[j] == w[j]);
                    assert(w[j].id@ != id);
                } else {
                    assert(all[j] == ps.last());
                }
            }
        } else {
            assert(all == w);
        }
    }
}

/// Once a project is removed, no project with its id is left.
pub proof fn lemma_removed_is_gone(ps: Seq<Project>, id: Seq<char>)
    ensures
        find_project(normalised(without_id(ps, id)), id) is None,
{
    let w = without_id(ps, id);
    lemma_without_id_excludes(ps, id);
    let keyed = order_keyed(w);
    lemma_sort_sorted(keyed);
    let n1 = normalised(w);
    assert forall|k: int| 0 <= k < n1.len() implies #[trigger] n1[k].id@ != id by {
        lemma_sort_member(keyed, k);
        let x = sort_by_key(keyed)[k];
        let j = choose|j: int| 0 <= j < keyed.len() && keyed[j] == x;
        assert(keyed[j].1 == w[j]);
    }
    lemma_find_project(n1, id);
}


/// Which projects a background task works on.
pub enum Selection {
    /// Projects with a remote target, for the health checks.
    Remote,
    /// Projects that declare a local port, for adopting servers already running.
    Declared,
    /// Projects flagged to start with Oracle.
    Autostart,
}

/// Whether a project is one a task works on.
pub open spec fn selects(which: Selection, p: Project) -> bool {
    match which {
        Selection::Remote => p.remote is Some,
        Selection::Declared => p.local matches Some(l) && l.port is Some,
        Selection::Autostart => p.local matches Some(l) && l.autostart_with_oracle,
    }
}

/// The indices of the first `n` projects a task works on, in list order.
pub open spec fn selected_upto(ps: Seq<Project>, which: Selection, n: int) -> Seq<usize>
    decreases n,
{
    if n <= 0 {
        Seq::empty()
    } else if selects(which, ps[n - 1]) {
        selected_upto(ps, which, n - 1).push((n - 1) as usize)
    } else {
        selected_upto(ps, which, n - 1)
    }
}

impl Config {
    /// The projects a background task works on, as indices in list order. Projects flagged
    /// to start with Oracle are none at all when the setting that enables that is off.
    pub fn select(&self, which: Selection) -> (r: Vec<usize>)
        ensures
            r@ == if which is Autostart && !self.settings.autostart_projects {
                Seq::empty()
            } else {
                selected_upto(self.projects@, which, self.projects@.len() as int)
            },
    {
        let mut r: Vec<usize> = Vec::new();
        if let Selection::Autostart = which {
            if !self.settings.autostart_projects {
                return r;
            }
        }
        let mut i: usize = 0;
        while i < self.projects.len()
            invariant
                i <= self.projects@.len(),
                r@ == selected_upto(self.projects@, which, i as int),
            decreases self.projects@.len() - i,
        {
            let p = &self.projects[i];
            let chosen = match which {
                Selection::Remote => p.remote.is_some(),
                Selection::Declared => match &p.local {
                    Some(l) => l.port.is_some(),
                    None => false,
                },
                Selection::Autostart => match &p.local {
                    Some(l) => l.autostart_with_oracle,
                    None => false,
                },
            };
            if chosen {
                r.push(i);
            }
            i += 1;
        }
        r
    }

    /// How long the health loop sleeps between rounds: the configured interval, but never
    /// under five seconds.
    pub fn health_interval(&self) -> (r: u32)
        ensures
            r == if self.settings.health_interval_secs < 5 {
                5
            } else {
                self.settings.health_interval_secs
            },
    {
        if self.settings.health_interval_secs < 5 {
            5
        } else {
            self.settings.health_interval_secs
        }
    }
}

} // verus!
