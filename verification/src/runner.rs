//! Starting, watching and stopping local project processes: the decisions.
//!
//! Spawning and killing processes is the caller's part. This module decides whether a start
//! may go ahead, what command line it runs, and keeps the book of what is running.
use vstd::prelude::*;
use crate::error::OracleError;
use crate::logs::LogLine;
use crate::model::{LocalTarget, Project};
use crate::probe::{find_free_port, SEARCH_WIDTH};
use crate::text::{
    chars_of, concat, decimal_digits, decimal_string, eq_ignore_ascii_case, has_prefix, is_sep,
    lemma_split_after_sep, lemma_split_nonempty, lemma_split_unbroken, lower_ascii_seq, non_empty, same, split_by, split_of, starts_with, string_of,
    trim, trim_of, views, words, words_of,
};

verus! {

#[derive(Clone, Copy, Debug, PartialEq, Eq, Structural)]
pub enum ProjectStatus {
    Stopped,
    /// Spawned, but not yet serving on its declared port.
    Starting,
    Running,
    /// Alive, but never became reachable on its port.
    Unhealthy,
    /// Exited without being asked to.
    Crashed,
}

/// What the runner reports back to whoever is listening.
pub enum RunnerEvent {
    Log { project_id: String, line: LogLine },
    Status { project_id: String, status: ProjectStatus },
}

/// The public view of a running project.
pub struct RunningInfo {
    pub project_id: String,
    pub pid: u32,
    pub status: ProjectStatus,
    pub started_at: i64,
    pub adopted: bool,
}

/// A token that already sets a port, in any of the spellings in use.
pub open spec fn sets_port(token: Seq<char>) -> bool {
    ||| token == "--port"@
    ||| token == "-p"@
    ||| token == "-l"@
    ||| has_prefix(token, "--port="@)
    ||| has_prefix(token, "PORT="@)
}

/// The command already sets a port itself.
pub open spec fn names_port(command: Seq<char>) -> bool {
    exists|i: int| 0 <= i < words(command).len() && #[trigger] sets_port(words(command)[i])
}

/// The command names the program `name` as one of its words or path segments, in any case.
pub open spec fn mentions(command: Seq<char>, name: Seq<char>) -> bool {
    let pieces = split_by(command, seq!['/', '\\'], true);
    exists|i: int|
        0 <= i < pieces.len() && lower_ascii_seq(#[trigger] pieces[i]) == lower_ascii_seq(name)
}

/// The command line a one-off port override runs: `--port` appended for the programs that
/// ignore `PORT` (Vite and serve), unless the command already sets a port.
pub open spec fn overridden(command: Seq<char>, port: u16) -> Seq<char> {
    if !names_port(command) && (mentions(command, "vite"@) || mentions(command, "serve"@)) {
        command + " --port "@ + decimal_digits(port as nat)
    } else {
        command
    }
}

/// A command that already names a port is never rewritten, whatever the override.
pub proof fn lemma_named_port_is_kept(command: Seq<char>, port: u16)
    requires
        names_port(command),
    ensures
        overridden(command, port) == command,
{
}

/// A non-empty piece survives dropping the empty ones.
proof fn lemma_non_empty_keeps(ps: Seq<Seq<char>>, k: int)
    requires
        0 <= k < ps.len(),
        ps[k].len() > 0,
    ensures
        non_empty(ps).contains(ps[k]),
    decreases ps.len(),
{
    if k == ps.len() - 1 {
        let n = non_empty(ps.drop_last()).push(ps.last());
        assert(n[n.len() - 1] == ps[k]);
    } else {
        lemma_non_empty_keeps(ps.drop_last(), k);
        assert(ps.drop_last()[k] == ps[k]);
        if ps.last().len() > 0 {
            let n = non_empty(ps.drop_last());
            let j = choose|j: int| 0 <= j < n.len() && n[j] == ps[k];
            assert(n.push(ps.last())[j] == ps[k]);
        }
    }
}

/// A command with ` --port ` and a number appended sets a port.
proof fn lemma_appended_flag_names_port(command: Seq<char>, digits: Seq<char>)
    ensures
        names_port(command + " --port "@ + digits),
{
    reveal_strlit(" --port ");
    reveal_strlit(" ");
    reveal_strlit("--port ");
    reveal_strlit("--port");
    let none = Seq::<char>::empty();
    let x1 = command + " "@;
    let flag = "--port"@;
    let y1 = "--port "@ + digits;
    assert(command + " --port "@ + digits =~= x1 + y1);
    assert(x1.last() == ' ');
    lemma_split_after_sep(x1, y1, none, true);
    assert("--port "@ =~= flag.push(' '));
    assert(flag.push(' ').last() == ' ');
    lemma_split_after_sep(flag.push(' '), digits, none, true);
    assert(y1 =~= flag.push(' ') + digits);
    assert forall|i: int| 0 <= i < flag.len() implies !is_sep(#[trigger] flag[i], none, true) by {
        assert(!none.contains(flag[i]));
    }
    lemma_split_unbroken(flag, none, true);
    assert(flag.push(' ').drop_last() =~= flag);
    assert(split_by(flag.push(' '), none, true) == seq![flag].push(none));
    let a = split_by(x1, none, true).drop_last();
    let pieces = split_by(command + " --port "@ + digits, none, true);
    assert(pieces == a + (seq![flag] + split_by(digits, none, true)));
    assert(pieces[a.len() as int] == flag);
    lemma_non_empty_keeps(pieces, a.len() as int);
    let ws = words(command + " --port "@ + digits);
    let j = choose|j: int| 0 <= j < ws.len() && ws[j] == flag;
    assert(sets_port(ws[j]));
}

/// Applying a port override to a command it has already rewritten changes nothing more.
pub proof fn lemma_override_is_idempotent(command: Seq<char>, port: u16, again: u16)
    ensures
        overridden(overridden(command, port), again) == overridden(command, port),
{
    let once = overridden(command, port);
    if once != command {
        lemma_appended_flag_names_port(command, decimal_digits(port as nat));
        lemma_named_port_is_kept(once, again);
    } else if names_port(command) {
        lemma_named_port_is_kept(command, again);
    }
}

fn token_sets_port(token: &[char]) -> (r: bool)
    ensures
        r == sets_port(token@),
{
    let long = chars_of("--port");
    let short_p = chars_of("-p");
    let short_l = chars_of("-l");
    let long_eq = chars_of("--port=");
    let env = chars_of("PORT=");
    same(token, long.as_slice()) || same(token, short_p.as_slice()) || same(
        token,
        short_l.as_slice(),
    ) || starts_with(token, long_eq.as_slice()) || starts_with(token, env.as_slice())
}

/// True when the command already sets a port itself.
pub fn names_a_port(command: &str) -> (r: bool)
    ensures
        r == names_port(command@),
{
    let text = chars_of(command);
    let ws = words_of(text.as_slice());
    let mut i: usize = 0;
    while i < ws.len()
        invariant
            i <= ws@.len(),
            views(ws@) == words(command@),
            forall|j: int| 0 <= j < i ==> !sets_port(#[trigger] words(command@)[j]),
        decreases ws@.len() - i,
    {
        assert(views(ws@)[i as int] == ws@[i as int]@);
        if token_sets_port(ws[i].as_slice()) {
            return true;
        }
        i += 1;
    }
    false
}

fn mentions_program(pieces: &Vec<Vec<char>>, name: &[char]) -> (r: bool)
    ensures
        r == exists|i: int|
            0 <= i < views(pieces@).len() && lower_ascii_seq(#[trigger] views(pieces@)[i])
                == lower_ascii_seq(name@),
{
    let mut i: usize = 0;
    while i < pieces.len()
        invariant
            i <= pieces@.len(),
            forall|j: int|
                0 <= j < i ==> lower_ascii_seq(#[trigger] views(pieces@)[j]) != lower_ascii_seq(
                    name@,
                ),
        decreases pieces@.len() - i,
    {
        assert(views(pieces@)[i as int] == pieces@[i as int]@);
        if eq_ignore_ascii_case(pieces[i].as_slice(), name) {
            return true;
        }
        i += 1;
    }
    false
}

/// Rewrites a command line so a one-off port override reaches the server.
///
/// Most dev servers read `PORT` from the environment, which the caller sets. Vite and
/// `serve` take `--port` instead, so for those the flag is appended. A command that already
/// names a port is left exactly as written.
pub fn apply_port_override(command: &str, port: u16) -> (r: String)
    ensures
        r@ == overridden(command@, port),
{
    let text = chars_of(command);
    if names_a_port(command) {
        return command.to_owned();
    }
    let seps = vec!['/', '\\'];
    assert(seps@ =~= seq!['/', '\\']);
    let pieces = split_of(text.as_slice(), seps.as_slice(), true);
    let vite = chars_of("vite");
    let serve = chars_of("serve");
    if mentions_program(&pieces, vite.as_slice()) || mentions_program(&pieces, serve.as_slice()) {
        let flag = chars_of(" --port ");
        let with_flag = concat(text.as_slice(), flag.as_slice());
        let full = concat(with_flag.as_slice(), decimal_string(port as u64).as_slice());
        string_of(full.as_slice())
    } else {
        command.to_owned()
    }
}


/// How long a project gets to bind its port before it is called unhealthy, in seconds.
pub const READY_TIMEOUT_SECS: u64 = 60;

/// One project the runner is responsible for.
pub struct Handle {
    pub project_id: String,
    pub pid: u32,
    /// The project's display name, so a port conflict can name the culprit.
    pub name: String,
    /// The port this run is expected to hold, after any override.
    pub port: Option<u16>,
    pub started_at: i64,
    pub status: ProjectStatus,
    /// True when Oracle attached to a process it did not spawn.
    pub adopted: bool,
}

/// Index of the handle for a project.
pub open spec fn find_handle(hs: Seq<Handle>, id: Seq<char>) -> Option<int>
    decreases hs.len(),
{
    if hs.len() == 0 {
        None
    } else {
        match find_handle(hs.drop_last(), id) {
            Some(i) => Some(i),
            None => if hs.last().project_id@ == id {
                Some(hs.len() - 1)
            } else {
                None
            },
        }
    }
}

pub proof fn lemma_find_handle(hs: Seq<Handle>, id: Seq<char>)
    ensures
        match find_handle(hs, id) {
            Some(i) => 0 <= i < hs.len() && hs[i].project_id@ == id && forall|j: int|
                0 <= j < i ==> hs[j].project_id@ != id,
            None => forall|j: int| 0 <= j < hs.len() ==> hs[j].project_id@ != id,
        },
    decreases hs.len(),
{
    if hs.len() > 0 {
        let t = hs.drop_last();
        lemma_find_handle(t, id);
        assert forall|j: int| 0 <= j < t.len() implies t[j] == hs[j] by {}
    }
}

proof fn lemma_find_handle_extends(hs: Seq<Handle>, id: Seq<char>, k: int)
    requires
        0 <= k <= hs.len(),
        find_handle(hs.take(k), id) is Some,
    ensures
        find_handle(hs, id) == find_handle(hs.take(k), id),
    decreases hs.len() - k,
{
    if k < hs.len() {
        assert(hs.take(k + 1).drop_last() =~= hs.take(k));
        lemma_find_handle_extends(hs, id, k + 1);
    } else {
        assert(hs.take(k) =~= hs);
    }
}

/// The first handle of another project expected to hold `port`.
pub open spec fn port_holder(hs: Seq<Handle>, port: u16, id: Seq<char>) -> Option<int>
    decreases hs.len(),
{
    if hs.len() == 0 {
        None
    } else {
        match port_holder(hs.drop_last(), port, id) {
            Some(i) => Some(i),
            None => if hs.last().project_id@ != id && hs.last().port == Some(port) {
                Some(hs.len() - 1)
            } else {
                None
            },
        }
    }
}

/// Two projects never hold the same port: when no other project is found expected on a
/// port, which is what a start needs to go ahead, none is; and when one is found, it is a
/// different project expected on exactly that port.
pub proof fn lemma_port_holder_exact(hs: Seq<Handle>, port: u16, id: Seq<char>)
    ensures
        match port_holder(hs, port, id) {
            Some(i) => 0 <= i < hs.len() && hs[i].project_id@ != id && hs[i].port == Some(port),
            None => forall|i: int|
                0 <= i < hs.len() && (#[trigger] hs[i]).project_id@ != id ==> hs[i].port != Some(port),
        },
    decreases hs.len(),
{
    if hs.len() > 0 {
        let t = hs.drop_last();
        lemma_port_holder_exact(t, port, id);
        if let Some(i) = port_holder(t, port, id) {
            assert(hs[i] == t[i]);
        } else if port_holder(hs, port, id) is None {
            assert forall|i: int|
                0 <= i < hs.len() && (#[trigger] hs[i]).project_id@ != id implies hs[i].port != Some(port) by {
                if i < t.len() {
                    assert(hs[i] == t[i]);
                    assert(t[i].project_id@ != id ==> t[i].port != Some(port));
                }
            }
        }
    }
}

proof fn lemma_port_holder_extends(hs: Seq<Handle>, port: u16, id: Seq<char>, k: int)
    requires
        0 <= k <= hs.len(),
        port_holder(hs.take(k), port, id) is Some,
    ensures
        port_holder(hs, port, id) == port_holder(hs.take(k), port, id),
    decreases hs.len() - k,
{
    if k < hs.len() {
        assert(hs.take(k + 1).drop_last() =~= hs.take(k));
        lemma_port_holder_extends(hs, port, id, k + 1);
    } else {
        assert(hs.take(k) =~= hs);
    }
}

proof fn lemma_port_holder_range(hs: Seq<Handle>, port: u16, id: Seq<char>)
    ensures
        port_holder(hs, port, id) matches Some(i) ==> 0 <= i < hs.len(),
    decreases hs.len(),
{
    if hs.len() > 0 {
        lemma_port_holder_range(hs.drop_last(), port, id);
    }
}

/// What a start that passed every check runs.
pub struct StartPlan {
    /// The port this run is expected to hold, after any override.
    pub port: Option<u16>,
    /// The command line, trimmed and with any override applied.
    pub command: String,
}

/// The port to suggest in place of `port`: the first one above it that `is_taken` reports
/// free, every port between having been reported taken; none when the whole search width
/// is taken.
pub open spec fn first_free<F: Fn(u16) -> bool>(port: u16, suggestion: Option<u16>, is_taken: F) -> bool {
    match suggestion {
        Some(s) => {
            &&& port < s <= port + SEARCH_WIDTH
            &&& call_ensures(is_taken, (s,), false)
            &&& forall|p: u16| port < p < s ==> #[trigger] call_ensures(is_taken, (p,), true)
        },
        None => forall|p: u16| port < p <= port + SEARCH_WIDTH ==> #[trigger] call_ensures(is_taken, (p,), true),
    }
}

/// How a refusal names something outside Oracle that holds a port: by pid where it is known.
pub open spec fn outside_holder(pid: Option<u32>) -> Seq<char> {
    match pid {
        Some(n) => "another process (pid "@ + decimal_digits(n as nat) + ")"@,
        None => "another process"@,
    }
}

/// The book of projects the runner is responsible for, one handle per project.
pub struct Registry {
    handles: Vec<Handle>,
}

impl Registry {
    pub closed spec fn handles(&self) -> Seq<Handle> {
        self.handles@
    }

    /// No project has two handles.
    pub open spec fn wf(&self) -> bool {
        forall|i: int, j: int|
            0 <= i < j < self.handles().len() ==> #[trigger] self.handles()[i].project_id@
                != #[trigger] self.handles()[j].project_id@
    }

    pub open spec fn holds(&self, id: Seq<char>) -> bool {
        find_handle(self.handles(), id) is Some
    }

    pub fn new() -> (r: Registry)
        ensures
            r.wf(),
            r.handles().len() == 0,
    {
        Registry { handles: Vec::new() }
    }

    fn index_of(&self, id: &str) -> (r: Option<usize>)
        ensures
            match r {
                Some(i) => find_handle(self.handles(), id@) == Some(i as int),
                None => find_handle(self.handles(), id@) is None,
            },
    {
        let target = id.to_owned();
        let ghost hs = self.handles@;
        let mut i: usize = 0;
        while i < self.handles.len()
            invariant
                hs == self.handles@,
                target@ == id@,
                i <= hs.len(),
                find_handle(hs.take(i as int), id@) is None,
            decreases hs.len() - i,
        {
            assert(hs.take(i + 1).drop_last() =~= hs.take(i as int));
            if self.handles[i].project_id == target {
                proof {
                    lemma_find_handle_extends(hs, id@, i + 1);
                }
                return Some(i);
            }
            i += 1;
        }
        assert(hs.take(i as int) =~= hs);
        None
    }

    pub fn is_running(&self, project_id: &str) -> (r: bool)
        ensures
            r == self.holds(project_id@),
    {
        self.index_of(project_id).is_some()
    }

    /// The status of a project; one with no handle is stopped.
    pub fn status(&self, project_id: &str) -> (r: ProjectStatus)
        ensures
            r == match find_handle(self.handles(), project_id@) {
                Some(i) => self.handles()[i].status,
                None => ProjectStatus::Stopped,
            },
    {
        proof {
            lemma_find_handle(self.handles(), project_id@);
        }
        match self.index_of(project_id) {
            Some(i) => self.handles[i].status,
            None => ProjectStatus::Stopped,
        }
    }

    pub fn pid(&self, project_id: &str) -> (r: Option<u32>)
        ensures
            r == match find_handle(self.handles(), project_id@) {
                Some(i) => Some(self.handles()[i].pid),
                None => None,
            },
    {
        proof {
            lemma_find_handle(self.handles(), project_id@);
        }
        match self.index_of(project_id) {
            Some(i) => Some(self.handles[i].pid),
            None => None,
        }
    }

    /// Every project the runner holds, for the monitor and the interface.
    pub fn running(&self) -> (r: Vec<RunningInfo>)
        ensures
            r@.len() == self.handles().len(),
            forall|i: int|
                0 <= i < r@.len() ==> {
                    let h = self.handles()[i];
                    let info = #[trigger] r@[i];
                    &&& info.project_id == h.project_id
                    &&& info.pid == h.pid
                    &&& info.status == h.status
                    &&& info.started_at == h.started_at
                    &&& info.adopted == h.adopted
                },
    {
        let mut r: Vec<RunningInfo> = Vec::new();
        let mut i: usize = 0;
        while i < self.handles.len()
            invariant
                i <= self.handles().len(),
                r@.len() == i,
                forall|k: int|
                    0 <= k < i ==> {
                        let h = self.handles()[k];
                        let info = #[trigger] r@[k];
                        &&& info.project_id == h.project_id
                        &&& info.pid == h.pid
                        &&& info.status == h.status
                        &&& info.started_at == h.started_at
                        &&& info.adopted == h.adopted
                    },
            decreases self.handles().len() - i,
        {
            let h = &self.handles[i];
            r.push(
                RunningInfo {
                    project_id: h.project_id.clone(),
                    pid: h.pid,
                    status: h.status,
                    started_at: h.started_at,
                    adopted: h.adopted,
                },
            );
            i += 1;
        }
        r
    }

    /// Takes on a project that has just started or been adopted.
    pub fn insert(&mut self, handle: Handle)
        requires
            old(self).wf(),
            !old(self).holds(handle.project_id@),
        ensures
            final(self).wf(),
            final(self).handles() == old(self).handles().push(handle),
    {
        proof {
            lemma_find_handle(self.handles(), handle.project_id@);
        }
        self.handles.push(handle);
    }

    /// Forgets a project, so it can be started again cleanly.
    pub fn remove(&mut self, project_id: &str)
        requires
            old(self).wf(),
        ensures
            final(self).wf(),
            !final(self).holds(project_id@),
            match find_handle(old(self).handles(), project_id@) {
                Some(i) => final(self).handles() == old(self).handles().remove(i),
                None => final(self).handles() == old(self).handles(),
            },
    {
        proof {
            lemma_find_handle(self.handles(), project_id@);
        }
        match self.index_of(project_id) {
            Some(i) => {
                let ghost before = self.handles@;
                self.handles.remove(i);
                proof {
                    lemma_find_handle(self.handles@, project_id@);
                    assert forall|j: int| 0 <= j < self.handles@.len() implies self.handles@[j].project_id@ != project_id@ by {
                        if j >= i {
                            assert(self.handles@[j] == before[j + 1]);
                        }
                    }
                }
            },
            None => {},
        }
    }

    /// Records a project's new status.
    pub fn set_status(&mut self, project_id: &str, status: ProjectStatus)
        requires
            old(self).wf(),
        ensures
            final(self).wf(),
            match find_handle(old(self).handles(), project_id@) {
                Some(i) => final(self).handles() == old(self).handles().update(
                    i,
                    Handle { status, ..old(self).handles()[i] },
                ),
                None => final(self).handles() == old(self).handles(),
            },
    {
        proof {
            lemma_find_handle(self.handles(), project_id@);
        }
        match self.index_of(project_id) {
            Some(i) => {
                let ghost before = self.handles@;
                let mut h = self.handles.remove(i);
                h.status = status;
                self.handles.insert(i, h);
                assert(self.handles@ =~= before.update(i as int, Handle { status, ..before[i as int] }));
            },
            None => {},
        }
    }

    /// The name of another project already expected to hold `port`.
    fn holder_of(&self, port: u16, project_id: &str) -> (r: Option<usize>)
        ensures
            match r {
                Some(i) => port_holder(self.handles(), port, project_id@) == Some(i as int)
                    && i < self.handles().len(),
                None => port_holder(self.handles(), port, project_id@) is None,
            },
    {
        let target = project_id.to_owned();
        let ghost hs = self.handles@;
        let mut i: usize = 0;
        while i < self.handles.len()
            invariant
                hs == self.handles@,
                target@ == project_id@,
                i <= hs.len(),
                port_holder(hs.take(i as int), port, project_id@) is None,
            decreases hs.len() - i,
        {
            assert(hs.take(i + 1).drop_last() =~= hs.take(i as int));
            let h = &self.handles[i];
            if h.project_id != target && h.port == Some(port) {
                proof {
                    lemma_port_holder_extends(hs, port, project_id@, i + 1);
                }
                return Some(i);
            }
            i += 1;
        }
        assert(hs.take(i as int) =~= hs);
        None
    }

    /// Decides whether a project may start, and with what.
    ///
    /// The checks run in order: a local target, not already running, a non-blank command, an
    /// existing working directory, no other project expected on the same port, and nothing
    /// outside Oracle listening on it. Another project is checked first, so the refusal can
    /// name it. `is_taken` probes whether a port is held; `pid_on_port` finds the pid of
    /// an outside listener where it can. A port conflict suggests the next free port. The
    /// port is settled before anything is spawned, so a clash is refused rather than
    /// discovered from a child that appears to start and then dies.
    pub fn check_start<F: Fn(u16) -> bool, G: Fn(u16) -> Option<u32>>(
        &self,
        project: &Project,
        port_override: Option<u16>,
        root_is_dir: bool,
        is_taken: F,
        pid_on_port: G,
    ) -> (r: Result<StartPlan, OracleError>)
        requires
            forall|p: u16| call_requires(is_taken, (p,)),
            forall|p: u16| call_requires(pid_on_port, (p,)),
        ensures
            match project.local {
                None => r == Err::<StartPlan, OracleError>(OracleError::NoLocalTarget(project.name)),
                Some(local) => if self.holds(project.id@) {
                    r == Err::<StartPlan, OracleError>(OracleError::AlreadyRunning(project.name))
                } else if trim(local.command@).len() == 0 {
                    r == Err::<StartPlan, OracleError>(OracleError::EmptyCommand)
                } else if !root_is_dir {
                    r == Err::<StartPlan, OracleError>(OracleError::MissingWorkingDir(local.root))
                } else {
                    let port = match port_override {
                        Some(p) => Some(p),
                        None => local.port,
                    };
                    let holder = match port {
                        Some(p) => port_holder(self.handles(), p, project.id@),
                        None => None,
                    };
                    match holder {
                        Some(i) => r matches Err(OracleError::PortInUse { port: p, holder, suggestion })
                            && Some(p) == port && holder == self.handles()[i].name
                            && first_free(p, suggestion, is_taken),
                        None => {
                            ||| {
                                &&& r matches Ok(plan)
                                &&& plan.port == port
                                &&& plan.command@ == match port_override {
                                    Some(p) => overridden(trim(local.command@), p),
                                    None => trim(local.command@),
                                }
                                &&& (port matches Some(p) ==> call_ensures(is_taken, (p,), false))
                            }
                            ||| {
                                &&& port matches Some(p)
                                &&& call_ensures(is_taken, (p,), true)
                                &&& r matches Err(OracleError::PortInUse { port: q, holder, suggestion })
                                &&& q == p
                                &&& first_free(p, suggestion, is_taken)
                                &&& exists|pid: Option<u32>|
                                    call_ensures(pid_on_port, (p,), pid) && holder@ == outside_holder(pid)
                            }
                        },
                    }
                },
            },
    {
        let local = match &project.local {
            Some(local) => local,
            None => {
                return Err(OracleError::NoLocalTarget(project.name.clone()));
            },
        };
        if self.is_running(project.id.as_str()) {
            return Err(OracleError::AlreadyRunning(project.name.clone()));
        }
        let text = chars_of(local.command.as_str());
        let trimmed = trim_of(text.as_slice());
        if trimmed.len() == 0 {
            return Err(OracleError::EmptyCommand);
        }
        if !root_is_dir {
            return Err(OracleError::MissingWorkingDir(local.root.clone()));
        }
        let port = match port_override {
            Some(p) => Some(p),
            None => local.port,
        };
        if let Some(p) = port {
            if let Some(i) = self.holder_of(p, project.id.as_str()) {
                let suggestion = find_free_port(p, is_taken);
                return Err(
                    OracleError::PortInUse { port: p, holder: self.handles[i].name.clone(), suggestion },
                );
            }
            if is_taken(p) {
                let pid = pid_on_port(p);
                return Err(foreign_port_error(p, pid, is_taken));
            }
        }
        let command = string_of(trimmed.as_slice());
        let command = match port_override {
            Some(p) => apply_port_override(command.as_str(), p),
            None => command,
        };
        Ok(StartPlan { port, command })
    }
}

impl Registry {
    /// What a process exit means for the book: a crash keeps its handle so its logs stay
    /// readable; a stop forgets it so it can be started again cleanly.
    pub fn record_exit(&mut self, project_id: &str, status: ProjectStatus)
        requires
            old(self).wf(),
        ensures
            final(self).wf(),
            status == ProjectStatus::Crashed ==> match find_handle(old(self).handles(), project_id@) {
                Some(i) => final(self).handles() == old(self).handles().update(
                    i,
                    Handle { status, ..old(self).handles()[i] },
                ),
                None => final(self).handles() == old(self).handles(),
            },
            status != ProjectStatus::Crashed ==> !final(self).holds(project_id@),
    {
        if status == ProjectStatus::Crashed {
            self.set_status(project_id, status);
        } else {
            self.remove(project_id);
        }
    }

    /// The port to look for an existing server on, when a project that is not running
    /// declares one.
    pub fn adoption_port(&self, project: &Project) -> (r: Option<u16>)
        ensures
            r == match project.local {
                Some(local) if !self.holds(project.id@) => local.port,
                _ => None,
            },
    {
        match &project.local {
            Some(local) => {
                if self.is_running(project.id.as_str()) {
                    None
                } else {
                    local.port
                }
            },
            None => None,
        }
    }
}

/// The next thing to do while stopping a project.
#[derive(Clone, Copy, Debug, PartialEq, Eq, Structural)]
pub enum StopStep {
    /// Ask the process tree to exit.
    Ask,
    /// It is gone: the stop is done.
    Done,
    /// Give it a little longer.
    Wait,
    /// It outlived its grace period: force the tree down and forget the project.
    Force,
}

/// How long a process tree gets to exit when asked before it is forced, in seconds.
pub const GRACEFUL_STOP_SECS: u64 = 3;

/// A stop asks first, then waits while the process lives and its grace period lasts, and
/// forces it only once the grace period is over.
pub fn stop_step(asked: bool, running: bool, grace_over: bool) -> (r: StopStep)
    ensures
        r == (if !asked {
            StopStep::Ask
        } else if !running {
            StopStep::Done
        } else if !grace_over {
            StopStep::Wait
        } else {
            StopStep::Force
        }),
{
    if !asked {
        StopStep::Ask
    } else if !running {
        StopStep::Done
    } else if !grace_over {
        StopStep::Wait
    } else {
        StopStep::Force
    }
}

/// The log line for a stop that was asked for.
pub fn stopping_note() -> (r: String)
    ensures
        r@ == "Stopping…"@,
{
    "Stopping…".to_owned()
}

/// The log line for a process that has to be forced.
pub fn forcing_note() -> (r: String)
    ensures
        r@ == "Still alive, forcing."@,
{
    "Still alive, forcing.".to_owned()
}

impl Registry {
    /// The process to stop for a project: its pid, or `NotRunning` naming the project.
    pub fn stop_target(&self, project_id: &str) -> (r: Result<u32, OracleError>)
        ensures
            match find_handle(self.handles(), project_id@) {
                Some(i) => r == Ok::<u32, OracleError>(self.handles()[i].pid),
                None => r matches Err(OracleError::NotRunning(id)) && id@ == project_id@,
            },
    {
        match self.pid(project_id) {
            Some(pid) => Ok(pid),
            None => Err(OracleError::NotRunning(project_id.to_string())),
        }
    }
}

/// How a process exit reads: `outcome` is whether it exited successfully and how its exit
/// status prints, or the error that lost track of it.
pub open spec fn exit_reading(was_asked: bool, outcome: Result<(bool, Seq<char>), Seq<char>>) -> (ProjectStatus, Seq<char>) {
    match outcome {
        Ok((success, shown)) => if was_asked {
            (ProjectStatus::Stopped, "Stopped ("@ + shown + ")."@)
        } else if success {
            (ProjectStatus::Stopped, "Process finished."@)
        } else {
            (ProjectStatus::Crashed, "Process exited: "@ + shown + "."@)
        },
        Err(e) => (ProjectStatus::Crashed, "Lost track of the process: "@ + e + "."@),
    }
}

/// Only a failure nobody asked for reads as a crash: a process that was asked to stop, or
/// that finished successfully, reads as stopped whatever its exit status printed, and one
/// that was lost track of reads as crashed.
pub proof fn lemma_only_unrequested_failures_crash(
    was_asked: bool,
    outcome: Result<(bool, Seq<char>), Seq<char>>,
)
    ensures
        (exit_reading(was_asked, outcome).0 == ProjectStatus::Crashed) == match outcome {
            Ok((success, _)) => !was_asked && !success,
            Err(_) => true,
        },
        exit_reading(was_asked, outcome).0 == ProjectStatus::Crashed || exit_reading(
            was_asked,
            outcome,
        ).0 == ProjectStatus::Stopped,
{
}

/// Decides whether an exit was a stop or a crash, and the note it leaves in the log.
pub fn exit_outcome(was_asked: bool, outcome: Result<(bool, String), String>) -> (r: (ProjectStatus, String))
    ensures
        ({
            let expected = exit_reading(
                was_asked,
                match outcome {
                    Ok((success, shown)) => Ok((success, shown@)),
                    Err(e) => Err(e@),
                },
            );
            r.0 == expected.0 && r.1@ == expected.1
        }),
{
    match outcome {
        Ok((success, shown)) => {
            if was_asked {
                let mut note = "Stopped (".to_owned();
                note.append(shown.as_str());
                note.append(").");
                (ProjectStatus::Stopped, note)
            } else if success {
                (ProjectStatus::Stopped, "Process finished.".to_owned())
            } else {
                let mut note = "Process exited: ".to_owned();
                note.append(shown.as_str());
                note.append(".");
                (ProjectStatus::Crashed, note)
            }
        },
        Err(e) => {
            let mut note = "Lost track of the process: ".to_owned();
            note.append(e.as_str());
            note.append(".");
            (ProjectStatus::Crashed, note)
        },
    }
}

/// What waiting for the port came to. `None` when the project was no longer starting by
/// then: a process that died while it was waited on is not brought back.
pub fn readiness_outcome(current: ProjectStatus, port: u16, ready: bool) -> (r: Option<(ProjectStatus, String)>)
    ensures
        current != ProjectStatus::Starting ==> r is None,
        current == ProjectStatus::Starting ==> (r matches Some((status, note)) && if ready {
            status == ProjectStatus::Running && note@ == "Listening on port "@ + decimal_digits(
                port as nat,
            ) + "."@
        } else {
            status == ProjectStatus::Unhealthy && note@ == "Port "@ + decimal_digits(port as nat)
                + " never opened after "@ + decimal_digits(READY_TIMEOUT_SECS as nat) + "s."@
        }),
{
    if current != ProjectStatus::Starting {
        return None;
    }
    let digits = string_of(decimal_string(port as u64).as_slice());
    if ready {
        let mut note = "Listening on port ".to_owned();
        note.append(digits.as_str());
        note.append(".");
        Some((ProjectStatus::Running, note))
    } else {
        let mut note = "Port ".to_owned();
        note.append(digits.as_str());
        note.append(" never opened after ");
        note.append(string_of(decimal_string(READY_TIMEOUT_SECS).as_slice()).as_str());
        note.append("s.");
        Some((ProjectStatus::Unhealthy, note))
    }
}

/// The environment variables a run sets on top of the inherited ones, as text pairs.
pub open spec fn env_text(env: Seq<(String, String)>) -> Seq<(Seq<char>, Seq<char>)> {
    env.map_values(|e: (String, String)| (e.0@, e.1@))
}

/// The environment a run adds to the inherited one: the project's own, in order, then
/// `PORT` for a one-off override, applied last so that it wins for this run. The stored
/// configuration is untouched: the next ordinary start goes back to its own port.
pub fn launch_env(local: &LocalTarget, port_override: Option<u16>) -> (r: Vec<(String, String)>)
    ensures
        env_text(r@) == match port_override {
            Some(p) => env_text(local.env@).push(("PORT"@, decimal_digits(p as nat))),
            None => env_text(local.env@),
        },
{
    let mut r: Vec<(String, String)> = Vec::new();
    let mut i: usize = 0;
    while i < local.env.len()
        invariant
            i <= local.env@.len(),
            env_text(r@) == env_text(local.env@.take(i as int)),
        decreases local.env@.len() - i,
    {
        let key = string_of(chars_of(local.env[i].0.as_str()).as_slice());
        let value = string_of(chars_of(local.env[i].1.as_str()).as_slice());
        let ghost before = r@;
        r.push((key, value));
        assert(env_text(r@) =~= env_text(before).push((local.env@[i as int].0@, local.env@[i as int].1@)));
        assert(env_text(local.env@.take(i + 1)) =~= env_text(local.env@.take(i as int)).push(
            (local.env@[i as int].0@, local.env@[i as int].1@),
        ));
        i += 1;
    }
    assert(local.env@.take(local.env@.len() as int) =~= local.env@);
    if let Some(p) = port_override {
        let ghost before = r@;
        let value = string_of(decimal_string(p as u64).as_slice());
        r.push(("PORT".to_string(), value));
        assert(env_text(r@) =~= env_text(before).push(("PORT"@, decimal_digits(p as nat))));
    }
    r
}

/// The first log line of a run: the command it executes.
pub fn command_note(command: &str) -> (r: String)
    ensures
        r@ == "$ "@ + command@,
{
    let mut r = "$ ".to_owned();
    r.append(command);
    r
}

/// The log line for a one-off port override.
pub fn override_note(port: u16) -> (r: String)
    ensures
        r@ == "Started on port "@ + decimal_digits(port as nat) + " for this run only (PORT="@
            + decimal_digits(port as nat) + ")."@,
{
    let digits = string_of(decimal_string(port as u64).as_slice());
    let mut r = "Started on port ".to_owned();
    r.append(digits.as_str());
    r.append(" for this run only (PORT=");
    r.append(digits.as_str());
    r.append(").");
    r
}

/// The log line for attaching to a process Oracle did not start.
pub fn adoption_note(port: u16, pid: u32) -> (r: String)
    ensures
        r@ == "Attached to an existing process on port "@ + decimal_digits(port as nat) + " (pid "@
            + decimal_digits(pid as nat) + "). Output is not captured."@,
{
    let mut r = "Attached to an existing process on port ".to_owned();
    r.append(string_of(decimal_string(port as u64).as_slice()).as_str());
    r.append(" (pid ");
    r.append(string_of(decimal_string(pid as u64).as_slice()).as_str());
    r.append("). Output is not captured.");
    r
}

/// The refusal for a port something outside Oracle holds, naming its pid where it is known.
pub fn foreign_port_error<F: Fn(u16) -> bool>(port: u16, pid: Option<u32>, is_taken: F) -> (r: OracleError)
    requires
        forall|p: u16| call_requires(is_taken, (p,)),
    ensures
        r matches OracleError::PortInUse { port: p, holder, suggestion } && p == port
            && holder@ == outside_holder(pid) && first_free(port, suggestion, is_taken),
{
    let holder = match pid {
        Some(n) => {
            let mut h = "another process (pid ".to_owned();
            h.append(string_of(decimal_string(n as u64).as_slice()).as_str());
            h.append(")");
            h
        },
        None => "another process".to_owned(),
    };
    let suggestion = find_free_port(port, is_taken);
    OracleError::PortInUse { port, holder, suggestion }
}

} // verus!
