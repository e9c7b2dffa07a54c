//! The decisions behind Oracle's own window: what Escape and the close button do, which
//! projects "run everything" touches, how an edited form becomes a project, how a settings
//! change is applied, and what the scan screen says and imports. Drawing the screens is the
//! caller's part; every choice they make is taken here.
use vstd::prelude::*;
use crate::discovery::Candidate;
use crate::model::{
    default_interval, GlassLevel, LocalTarget, Project, RemoteCheck, RemoteTarget, Settings,
    Theme,
};
use crate::runner::ProjectStatus;
use crate::text::{chars_of, decimal_digits, decimal_string, parse_u16, parse_u16_spec, same, string_of, trim, trim_of};
use crate::ui::{short_path, short_path_text, status_from, status_of};

verus! {

/// The screens of the main window.
#[derive(Clone, Copy, Debug, PartialEq, Eq, Structural)]
pub enum Screen {
    Projects,
    Settings,
    Scan,
    Form,
}

/// What one press of Escape does.
#[derive(Clone, Copy, Debug, PartialEq, Eq, Structural)]
pub enum EscapeStep {
    /// Takes focus off the text field.
    Blur,
    /// Goes back to the project list, dropping any unsaved form.
    LeaveScreen,
    /// Clears the selected project.
    Deselect,
    Nothing,
}

/// Escape backs out one level at a time: focus, then screen, then selection.
pub fn escape_step(focused: bool, screen: Screen, selected: bool) -> (r: EscapeStep)
    ensures
        r == (if focused {
            EscapeStep::Blur
        } else if screen != Screen::Projects {
            EscapeStep::LeaveScreen
        } else if selected {
            EscapeStep::Deselect
        } else {
            EscapeStep::Nothing
        }),
{
    if focused {
        EscapeStep::Blur
    } else if screen != Screen::Projects {
        EscapeStep::LeaveScreen
    } else if selected {
        EscapeStep::Deselect
    } else {
        EscapeStep::Nothing
    }
}

/// What closing the main window does.
#[derive(Clone, Copy, Debug, PartialEq, Eq, Structural)]
pub enum CloseStep {
    /// Hides the window; Oracle keeps running in the tray.
    ToTray,
    /// Shuts Oracle down.
    Quit,
}

/// Closing sends Oracle to the tray when the setting says so; quitting is otherwise explicit.
pub fn close_step(minimise_to_tray: bool) -> (r: CloseStep)
    ensures
        r == (if minimise_to_tray { CloseStep::ToTray } else { CloseStep::Quit }),
{
    if minimise_to_tray {
        CloseStep::ToTray
    } else {
        CloseStep::Quit
    }
}

/// A project that is running, or on its way to running.
pub open spec fn live(s: ProjectStatus) -> bool {
    s == ProjectStatus::Running || s == ProjectStatus::Starting
}

pub fn is_live(s: ProjectStatus) -> (r: bool)
    ensures
        r == live(s),
{
    s == ProjectStatus::Running || s == ProjectStatus::Starting
}

/// A project's last known status; one never started is stopped.
pub open spec fn status_or_stopped(statuses: Seq<(String, ProjectStatus)>, id: Seq<char>) -> ProjectStatus {
    match status_from(statuses, id, 0) {
        Some(s) => s,
        None => ProjectStatus::Stopped,
    }
}

pub fn status_or_stopped_of(statuses: &Vec<(String, ProjectStatus)>, id: &str) -> (r: ProjectStatus)
    ensures
        r == status_or_stopped(statuses@, id@),
{
    match status_of(statuses, id) {
        Some(s) => s,
        None => ProjectStatus::Stopped,
    }
}

/// Whether any known status is live.
pub open spec fn anyone_live(statuses: Seq<(String, ProjectStatus)>) -> bool {
    exists|i: int| 0 <= i < statuses.len() && live(#[trigger] statuses[i].1)
}

/// The local projects whose liveness is `live_now`, in rail order.
pub open spec fn toggle_ids(
    projects: Seq<Project>,
    statuses: Seq<(String, ProjectStatus)>,
    live_now: bool,
) -> Seq<Seq<char>>
    decreases projects.len(),
{
    if projects.len() == 0 {
        Seq::empty()
    } else {
        let rest = toggle_ids(projects.drop_last(), statuses, live_now);
        let p = projects.last();
        if p.local is Some && live(status_or_stopped(statuses, p.id@)) == live_now {
            rest.push(p.id@)
        } else {
            rest
        }
    }
}

/// The projects "run everything" toggles: while anything runs it stops every live local
/// project; otherwise it starts every idle one.
pub fn toggle_all_targets(projects: &Vec<Project>, statuses: &Vec<(String, ProjectStatus)>) -> (r: Vec<String>)
    ensures
        r@.map_values(|s: String| s@) == toggle_ids(projects@, statuses@, anyone_live(statuses@)),
{
    let mut anyone = false;
    let mut j: usize = 0;
    while j < statuses.len()
        invariant
            j <= statuses@.len(),
            anyone == exists|i: int| 0 <= i < j && live(#[trigger] statuses@[i].1),
        decreases statuses@.len() - j,
    {
        if is_live(statuses[j].1) {
            anyone = true;
        }
        j += 1;
    }
    let mut r: Vec<String> = Vec::new();
    let mut i: usize = 0;
    while i < projects.len()
        invariant
            i <= projects@.len(),
            anyone == anyone_live(statuses@),
            r@.map_values(|s: String| s@) == toggle_ids(projects@.take(i as int), statuses@, anyone),
        decreases projects@.len() - i,
    {
        assert(projects@.take(i + 1).drop_last() =~= projects@.take(i as int));
        let p = &projects[i];
        let ghost before = r@;
        if p.local.is_some() && is_live(status_or_stopped_of(statuses, p.id.as_str())) == anyone {
            r.push(p.id.clone());
            assert(r@.map_values(|s: String| s@) =~= before.map_values(|s: String| s@).push(p.id@));
        }
        i += 1;
    }
    assert(projects@.take(projects@.len() as int) =~= projects@);
    r
}

/// "Run everything" moves every project it touches the same way: each is local, and live
/// exactly when something was running.
pub proof fn lemma_toggle_all_is_uniform(
    projects: Seq<Project>,
    statuses: Seq<(String, ProjectStatus)>,
    live_now: bool,
    id: Seq<char>,
)
    requires
        toggle_ids(projects, statuses, live_now).contains(id),
    ensures
        exists|k: int|
            0 <= k < projects.len() && #[trigger] projects[k].id@ == id && projects[k].local is Some
                && live(status_or_stopped(statuses, id)) == live_now,
    decreases projects.len(),
{
    let rest = toggle_ids(projects.drop_last(), statuses, live_now);
    let p = projects.last();
    if rest.contains(id) {
        lemma_toggle_all_is_uniform(projects.drop_last(), statuses, live_now, id);
        let k = choose|k: int|
            0 <= k < projects.drop_last().len() && #[trigger] projects.drop_last()[k].id@ == id
                && projects.drop_last()[k].local is Some && live(status_or_stopped(statuses, id))
                == live_now;
        assert(projects[k] == projects.drop_last()[k]);
    } else {
        let t = toggle_ids(projects, statuses, live_now);
        let j = choose|j: int| 0 <= j < t.len() && t[j] == id;
        if !(p.local is Some && live(status_or_stopped(statuses, p.id@)) == live_now) {
            assert(t == rest);
            assert(rest[j] == id);
        } else {
            assert(t == rest.push(p.id@));
            if j < rest.len() {
                assert(rest[j] == id);
            }
            assert(projects[projects.len() - 1].id@ == id);
        }
    }
}

/// How many of the known statuses are `Running`.
pub open spec fn running_count(statuses: Seq<(String, ProjectStatus)>) -> nat
    decreases statuses.len(),
{
    if statuses.len() == 0 {
        0
    } else {
        running_count(statuses.drop_last()) + if statuses.last().1 == ProjectStatus::Running {
            1nat
        } else {
            0nat
        }
    }
}

pub open spec fn running_text(n: nat) -> Seq<char> {
    if n == 0 {
        "Nothing running"@
    } else {
        decimal_digits(n) + " running"@
    }
}

/// The tray panel's header: how many projects are running.
pub fn running_summary(statuses: &Vec<(String, ProjectStatus)>) -> (r: String)
    ensures
        r@ == running_text(running_count(statuses@)),
{
    let mut n: u64 = 0;
    let mut i: usize = 0;
    while i < statuses.len()
        invariant
            i <= statuses@.len(),
            n == running_count(statuses@.take(i as int)),
            n <= i,
        decreases statuses@.len() - i,
    {
        assert(statuses@.take(i + 1).drop_last() =~= statuses@.take(i as int));
        if statuses[i].1 == ProjectStatus::Running {
            n += 1;
        }
        i += 1;
    }
    assert(statuses@.take(statuses@.len() as int) =~= statuses@);
    if n == 0 {
        "Nothing running".to_string()
    } else {
        let mut r = string_of(decimal_string(n).as_slice());
        r.append(" running");
        r
    }
}

/// The text fields of the project form, exactly as typed.
pub struct FormFields {
    pub name: String,
    pub root: String,
    pub command: String,
    pub port: String,
    pub open: String,
    pub health: String,
}

/// Folds the form's fields back into the project being edited.
///
/// The strings are kept as typed; whitespace is cleaned up once, on save. A project with
/// neither a folder nor a command runs nowhere locally, and one without a health URL is not
/// watched remotely. A port that does not read as one is dropped.
pub fn fold_form(draft: Project, fields: FormFields) -> (r: Project)
    ensures
        r.id == draft.id,
        r.name == fields.name,
        r.kind == draft.kind,
        r.icon == draft.icon,
        r.accent == draft.accent,
        r.repo == draft.repo,
        r.tags == draft.tags,
        r.favorite == draft.favorite,
        r.order == draft.order,
        r.notes == draft.notes,
        fields.root@.len() == 0 && fields.command@.len() == 0 ==> r.local is None,
        !(fields.root@.len() == 0 && fields.command@.len() == 0) ==> (r.local matches Some(l) && {
            &&& l.root == fields.root
            &&& l.command == fields.command
            &&& l.env@ == match draft.local {
                Some(o) => o.env@,
                None => Seq::empty(),
            }
            &&& l.port == parse_u16_spec(trim(fields.port@))
            &&& l.open_url == (if fields.open@.len() == 0 { None } else { Some(fields.open) })
            &&& l.autostart_with_oracle == match draft.local {
                Some(o) => o.autostart_with_oracle,
                None => false,
            }
        }),
        fields.health@.len() == 0 ==> r.remote is None,
        fields.health@.len() != 0 ==> (r.remote matches Some(t) && {
            &&& t.url == fields.health
            &&& t.check matches RemoteCheck::Http { method, expect_status }
            &&& method == crate::model::HttpMethod::Get
            &&& expect_status@.len() == 0
            &&& t.interval_secs == match draft.remote {
                Some(o) => o.interval_secs,
                None => 30,
            }
        }),
{
    let mut draft = draft;
    let FormFields { name, root, command, port, open, health } = fields;
    let (env, autostart) = match draft.local.take() {
        Some(o) => (o.env, o.autostart_with_oracle),
        None => (Vec::new(), false),
    };
    let interval = match &draft.remote {
        Some(o) => o.interval_secs,
        None => default_interval(),
    };
    draft.name = name;
    draft.local = if root.unicode_len() == 0 && command.unicode_len() == 0 {
        None
    } else {
        let port_text = chars_of(port.as_str());
        let trimmed = trim_of(port_text.as_slice());
        let open_url = if open.unicode_len() == 0 { None } else { Some(open) };
        Some(LocalTarget {
            root,
            command,
            env,
            port: parse_u16(trimmed.as_slice()),
            open_url,
            autostart_with_oracle: autostart,
        })
    };
    draft.remote = if health.unicode_len() == 0 {
        None
    } else {
        Some(RemoteTarget { url: health, check: RemoteCheck::default(), interval_secs: interval })
    };
    draft
}

/// Where a theme sits in the settings' segmented control.
pub fn theme_index(t: Theme) -> (r: usize)
    ensures
        r < 3,
        theme_at_spec(r) == t,
{
    match t {
        Theme::Light => 0,
        Theme::Dark => 1,
        Theme::System => 2,
    }
}

pub open spec fn theme_at_spec(i: usize) -> Theme {
    if i == 0 {
        Theme::Light
    } else if i == 1 {
        Theme::Dark
    } else {
        Theme::System
    }
}

/// The theme picked at a place in the segmented control.
pub fn theme_at(i: usize) -> (r: Theme)
    requires
        i < 3,
    ensures
        r == theme_at_spec(i),
{
    if i == 0 {
        Theme::Light
    } else if i == 1 {
        Theme::Dark
    } else {
        Theme::System
    }
}

pub open spec fn glass_at_spec(i: usize) -> GlassLevel {
    if i == 0 {
        GlassLevel::Full
    } else if i == 1 {
        GlassLevel::Reduced
    } else {
        GlassLevel::Opaque
    }
}

/// Where a glass level sits in the settings' segmented control.
pub fn glass_index(g: GlassLevel) -> (r: usize)
    ensures
        r < 3,
        glass_at_spec(r) == g,
{
    match g {
        GlassLevel::Full => 0,
        GlassLevel::Reduced => 1,
        GlassLevel::Opaque => 2,
    }
}

/// The glass level picked at a place in the segmented control.
pub fn glass_at(i: usize) -> (r: GlassLevel)
    requires
        i < 3,
    ensures
        r == glass_at_spec(i),
{
    if i == 0 {
        GlassLevel::Full
    } else if i == 1 {
        GlassLevel::Reduced
    } else {
        GlassLevel::Opaque
    }
}

/// What a settings change has to be followed by besides saving it: a new palette, a new
/// blur, a rewritten startup entry.
#[derive(Clone, Copy, Debug, PartialEq, Eq, Structural)]
pub struct SettingsDelta {
    pub theme: bool,
    pub glass: bool,
    pub startup: bool,
}

pub fn settings_delta(old: &Settings, new: &Settings) -> (r: SettingsDelta)
    ensures
        r.theme == (new.theme != old.theme),
        r.glass == (new.glass != old.glass),
        r.startup == (new.start_with_windows != old.start_with_windows || new.start_hidden
            != old.start_hidden),
{
    SettingsDelta {
        theme: new.theme != old.theme,
        glass: new.glass != old.glass,
        startup: new.start_with_windows != old.start_with_windows || new.start_hidden
            != old.start_hidden,
    }
}

/// The settings with one scanned folder taken off the list.
pub fn without_root(settings: Settings, index: usize) -> (r: Settings)
    requires
        index < settings.scan_roots@.len(),
    ensures
        r.scan_roots@ == settings.scan_roots@.remove(index as int),
        r == (Settings { scan_roots: r.scan_roots, ..settings }),
{
    let mut r = settings;
    r.scan_roots.remove(index);
    r
}

/// The settings with a folder added to the scan list; nothing when it is already there.
pub fn with_root(settings: Settings, root: String) -> (r: Option<Settings>)
    ensures
        (exists|i: int|
            0 <= i < settings.scan_roots@.len() && #[trigger] settings.scan_roots@[i]@ == root@)
            ==> r is None,
        !(exists|i: int|
            0 <= i < settings.scan_roots@.len() && #[trigger] settings.scan_roots@[i]@ == root@)
            ==> (r matches Some(s) && s.scan_roots@ == settings.scan_roots@.push(root) && s == (
        Settings { scan_roots: s.scan_roots, ..settings })),
{
    let wanted = chars_of(root.as_str());
    let mut i: usize = 0;
    while i < settings.scan_roots.len()
        invariant
            i <= settings.scan_roots@.len(),
            wanted@ == root@,
            forall|j: int| 0 <= j < i ==> #[trigger] settings.scan_roots@[j]@ != root@,
        decreases settings.scan_roots@.len() - i,
    {
        if same(chars_of(settings.scan_roots[i].as_str()).as_slice(), wanted.as_slice()) {
            return None;
        }
        i += 1;
    }
    let mut r = settings;
    r.scan_roots.push(root);
    Some(r)
}

/// What the scan screen shows in place of a list, if anything.
#[derive(Clone, Copy, Debug, PartialEq, Eq, Structural)]
pub enum ScanNotice {
    Scanning,
    /// No folders are set to be scanned.
    NoRoots,
    /// The scan found nothing.
    NothingFound,
    /// There are candidates to list.
    Found,
}

pub fn scan_notice(scanning: bool, roots: usize, candidates: usize) -> (r: ScanNotice)
    ensures
        r == (if scanning {
            ScanNotice::Scanning
        } else if roots == 0 {
            ScanNotice::NoRoots
        } else if candidates == 0 {
            ScanNotice::NothingFound
        } else {
            ScanNotice::Found
        }),
{
    if scanning {
        ScanNotice::Scanning
    } else if roots == 0 {
        ScanNotice::NoRoots
    } else if candidates == 0 {
        ScanNotice::NothingFound
    } else {
        ScanNotice::Found
    }
}

pub open spec fn found_text(n: nat) -> Seq<char> {
    "Found "@ + decimal_digits(n) + (if n == 1 { " project"@ } else { " projects"@ })
        + ". Pick the ones to add."@
}

/// The line above the scan's candidates.
pub fn found_summary(n: u64) -> (r: String)
    ensures
        r@ == found_text(n as nat),
{
    let mut r = "Found ".to_string();
    let digits = decimal_string(n);
    r.append(string_of(digits.as_slice()).as_str());
    if n == 1 {
        r.append(" project");
    } else {
        r.append(" projects");
    }
    r.append(". Pick the ones to add.");
    r
}

pub open spec fn detail_text(root: Seq<char>, command: Seq<char>) -> Seq<char> {
    short_path_text(root) + " · "@ + (if command.len() == 0 { "no command"@ } else { command })
}

/// A candidate's second line: where it is and what would run it.
pub fn candidate_detail(root: &str, command: &str) -> (r: String)
    ensures
        r@ == detail_text(root@, command@),
{
    let mut r = short_path(root);
    r.append(" · ");
    if command.unicode_len() == 0 {
        r.append("no command");
    } else {
        r.append(command);
    }
    r
}

/// `keys` with every `key` taken out.
pub open spec fn without(keys: Seq<Seq<char>>, key: Seq<char>) -> Seq<Seq<char>>
    decreases keys.len(),
{
    if keys.len() == 0 {
        keys
    } else if keys.last() == key {
        without(keys.drop_last(), key)
    } else {
        without(keys.drop_last(), key).push(keys.last())
    }
}

/// The ticked candidates after a click on `key`: unticked if it was ticked, else ticked.
pub open spec fn toggled_keys(keys: Seq<Seq<char>>, key: Seq<char>) -> Seq<Seq<char>> {
    if keys.contains(key) {
        without(keys, key)
    } else {
        keys.push(key)
    }
}

/// Ticks or unticks a candidate, by its folder.
pub fn toggle_chosen(chosen: &mut Vec<String>, key: &str)
    ensures
        final(chosen)@.map_values(|s: String| s@) == toggled_keys(
            old(chosen)@.map_values(|s: String| s@),
            key@,
        ),
{
    let ghost keys = chosen@.map_values(|s: String| s@);
    let wanted = chars_of(key);
    let mut kept: Vec<String> = Vec::new();
    let mut found = false;
    let mut rest: Vec<String> = Vec::new();
    std::mem::swap(&mut rest, chosen);
    let n = rest.len();
    let mut i: usize = 0;
    while i < n
        invariant
            n == rest@.len(),
            i <= n,
            wanted@ == key@,
            keys == rest@.map_values(|s: String| s@),
            kept@.map_values(|s: String| s@) == without(keys.take(i as int), key@),
            found == keys.take(i as int).contains(key@),
        decreases n - i,
    {
        let item = rest[i].clone();
        proof {
            assert(keys.take(i + 1).drop_last() =~= keys.take(i as int));
            assert(keys.take(i + 1).last() == keys[i as int]);
            assert(keys[i as int] == rest@[i as int]@);
        }
        let ghost before = kept@;
        if same(chars_of(rest[i].as_str()).as_slice(), wanted.as_slice()) {
            found = true;
            proof {
                assert(keys.take(i + 1)[i as int] == key@);
            }
        } else {
            kept.push(item);
            proof {
                assert(kept@.map_values(|s: String| s@) =~= before.map_values(|s: String| s@).push(
                    keys[i as int],
                ));
                if keys.take(i + 1).contains(key@) {
                    let j = choose|j: int| 0 <= j < i + 1 && #[trigger] keys.take(i + 1)[j] == key@;
                    assert(keys.take(i as int)[j] == key@);
                }
            }
        }
        i += 1;
    }
    assert(keys.take(n as int) =~= keys);
    if found {
        *chosen = kept;
    } else {
        let mut all = rest;
        all.push(key.to_string());
        assert(all@.map_values(|s: String| s@) =~= keys.push(key@));
        *chosen = all;
    }
}

/// A click on a candidate's row: a candidate the config already has cannot be ticked, so
/// its click changes nothing; any other is ticked or unticked by its folder.
pub fn toggle_candidate(chosen: &mut Vec<String>, candidate: &Candidate)
    ensures
        candidate.already_known ==> final(chosen)@ == old(chosen)@,
        !candidate.already_known ==> final(chosen)@.map_values(|s: String| s@) == toggled_keys(
            old(chosen)@.map_values(|s: String| s@),
            candidate.root@,
        ),
{
    if !candidate.already_known {
        toggle_chosen(chosen, candidate.root.as_str());
    }
}

/// Clicking a candidate twice leaves the same candidates ticked as before.
pub proof fn lemma_toggle_chosen_twice(keys: Seq<Seq<char>>, key: Seq<char>)
    ensures
        toggled_keys(toggled_keys(keys, key), key).to_set() == keys.to_set(),
{
    lemma_without(keys, key);
    if keys.contains(key) {
        let w = without(keys, key);
        assert(!w.contains(key));
        assert(w.push(key).to_set() =~= keys.to_set()) by {
            assert forall|x: Seq<char>| keys.to_set().contains(x) implies w.push(key).to_set().contains(x) by {
                let i = choose|i: int| 0 <= i < keys.len() && keys[i] == x;
                if x != key {
                    assert(w.contains(x));
                    let j = choose|j: int| 0 <= j < w.len() && w[j] == x;
                    assert(w.push(key)[j] == x);
                } else {
                    assert(w.push(key)[w.len() as int] == key);
                }
            }
            assert forall|x: Seq<char>| w.push(key).to_set().contains(x) implies keys.to_set().contains(x) by {
                let i = choose|i: int| 0 <= i < w.push(key).len() && w.push(key)[i] == x;
                if i < w.len() {
                    assert(w[i] == x);
                    assert(w.contains(x));
                }
            }
        }
    } else {
        let p = keys.push(key);
        assert(p.contains(key)) by {
            assert(p[keys.len() as int] == key);
        }
        lemma_without(p, key);
        assert(p.drop_last() =~= keys);
        assert(without(p, key) == without(keys, key));
        assert(without(keys, key).to_set() =~= keys.to_set()) by {
            assert forall|x: Seq<char>| keys.to_set().contains(x) implies without(keys, key).to_set().contains(x) by {
                let i = choose|i: int| 0 <= i < keys.len() && keys[i] == x;
                assert(x != key);
                assert(keys.contains(x));
            }
        }
    }
}

/// What `without` keeps: every key but the one taken out.
pub proof fn lemma_without(keys: Seq<Seq<char>>, key: Seq<char>)
    ensures
        forall|x: Seq<char>| #[trigger] without(keys, key).contains(x) <==> (keys.contains(x) && x != key),
    decreases keys.len(),
{
    if keys.len() > 0 {
        let rest = keys.drop_last();
        lemma_without(rest, key);
        assert forall|x: Seq<char>| #[trigger] without(keys, key).contains(x) <==> (keys.contains(x) && x != key) by {
            let w = without(keys, key);
            let wr = without(rest, key);
            if keys.contains(x) && x != key {
                let i = choose|i: int| 0 <= i < keys.len() && keys[i] == x;
                if i < rest.len() {
                    assert(rest[i] == x);
                    assert(wr.contains(x));
                    let j = choose|j: int| 0 <= j < wr.len() && wr[j] == x;
                    if keys.last() == key {
                        assert(w[j] == x);
                    } else {
                        assert(w == wr.push(keys.last()));
                        assert(w[j] == x);
                    }
                } else {
                    assert(keys.last() == x);
                    assert(w == wr.push(keys.last()));
                    assert(w[wr.len() as int] == x);
                }
            }
            if w.contains(x) {
                let j = choose|j: int| 0 <= j < w.len() && w[j] == x;
                if keys.last() == key {
                    assert(wr.contains(x));
                    let i = choose|i: int| 0 <= i < rest.len() && rest[i] == x;
                    assert(keys[i] == x);
                } else {
                    if j < wr.len() {
                        assert(wr[j] == x);
                        assert(wr.contains(x));
                        let i = choose|i: int| 0 <= i < rest.len() && rest[i] == x;
                        assert(keys[i] == x);
                    } else {
                        assert(x == keys.last());
                        assert(keys[keys.len() - 1] == x);
                    }
                }
            }
        }
    }
}

/// The candidates whose folder is ticked, in the order found.
pub open spec fn picked(cs: Seq<Candidate>, chosen: Seq<Seq<char>>) -> Seq<Candidate>
    decreases cs.len(),
{
    if cs.len() == 0 {
        cs
    } else if chosen.contains(cs.last().root@) {
        picked(cs.drop_last(), chosen).push(cs.last())
    } else {
        picked(cs.drop_last(), chosen)
    }
}

/// The candidates to import: those ticked.
pub fn pick_chosen(candidates: Vec<Candidate>, chosen: &Vec<String>) -> (r: Vec<Candidate>)
    ensures
        r@ == picked(candidates@, chosen@.map_values(|s: String| s@)),
{
    let ghost cs = candidates@;
    let ghost keys = chosen@.map_values(|s: String| s@);
    let mut r: Vec<Candidate> = Vec::new();
    let n = candidates.len();
    let mut rest = candidates;
    let mut k: usize = 0;
    while rest.len() > 0
        invariant
            k + rest@.len() == cs.len(),
            cs.len() == n,
            rest@ == cs.skip(k as int),
            keys == chosen@.map_values(|s: String| s@),
            r@ == picked(cs.take(k as int), keys),
        decreases rest@.len(),
    {
        let c = rest.remove(0);
        proof {
            assert(c == cs[k as int]);
            assert(cs.skip(k + 1) =~= cs.skip(k as int).drop_first());
            assert(cs.take(k + 1).drop_last() =~= cs.take(k as int));
            assert(cs.take(k + 1).last() == c);
        }
        let wanted = chars_of(c.root.as_str());
        let mut ticked = false;
        let mut j: usize = 0;
        while j < chosen.len()
            invariant
                j <= chosen@.len(),
                wanted@ == c.root@,
                keys == chosen@.map_values(|s: String| s@),
                ticked == exists|m: int| 0 <= m < j && #[trigger] keys[m] == c.root@,
            decreases chosen@.len() - j,
        {
            if same(chars_of(chosen[j].as_str()).as_slice(), wanted.as_slice()) {
                ticked = true;
                assert(keys[j as int] == c.root@);
            } else {
                assert(keys[j as int] != c.root@);
            }
            j += 1;
        }
        proof {
            if keys.contains(c.root@) {
                let m = choose|m: int| 0 <= m < keys.len() && keys[m] == c.root@;
                assert(keys[m] == c.root@);
            }
        }
        if ticked {
            r.push(c);
        }
        k += 1;
    }
    assert(cs.take(cs.len() as int) =~= cs);
    r
}

} // verus!
