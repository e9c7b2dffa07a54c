//! What the frontend is sent: a project with everything it needs resolved, the live
//! window of a project's web app, the panel's lifetime, and the health sweep's payload.
use vstd::prelude::*;
use crate::model::{Project, kind_accent, kind_label, project_open_url};
use crate::remote::{RemoteReport, RemoteStatus};
use crate::runner::ProjectStatus;
use crate::config::Loaded;
use crate::text::{chars_of, eq_ignore_ascii_case, lower_ascii_seq, same};

verus! {

/// A project as the frontend shows it, with its live state and its fallbacks resolved, so
/// the frontend never has to reimplement fallback rules.
pub struct ProjectView {
    pub project: Project,
    pub status: ProjectStatus,
    pub remote_status: RemoteStatus,
    pub pid: Option<u32>,
    /// The project's own accent, or the one derived from its kind.
    pub resolved_accent: String,
    pub resolved_url: Option<String>,
    pub kind_label: String,
}

/// The accent a project is drawn in: its own, else its kind's.
pub open spec fn accent_text(p: Project) -> Seq<char> {
    match p.accent {
        Some(a) => a@,
        None => kind_accent(p.kind),
    }
}

impl ProjectView {
    /// The view of a project with the given live state.
    pub fn resolve(
        project: Project,
        status: ProjectStatus,
        remote_status: RemoteStatus,
        pid: Option<u32>,
    ) -> (r: ProjectView)
        ensures
            r.project == project,
            r.status == status,
            r.remote_status == remote_status,
            r.pid == pid,
            r.resolved_accent@ == accent_text(project),
            match r.resolved_url {
                Some(u) => project_open_url(project) == Some(u@),
                None => project_open_url(project) is None,
            },
            r.kind_label@ == kind_label(project.kind),
    {
        let resolved_accent = match &project.accent {
            Some(a) => a.clone(),
            None => project.kind.accent().to_string(),
        };
        let resolved_url = project.open_url();
        let kind_label = project.kind.label().to_string();
        ProjectView { project, status, remote_status, pid, resolved_accent, resolved_url, kind_label }
    }
}

/// A project's live web app window.
pub struct Embedded {
    pub label: String,
    /// The renderer processes it brought into being, for the memory readout.
    pub pids: Vec<u32>,
}

/// The window label of a project's web app.
pub fn label_for(project_id: &str) -> (r: String)
    ensures
        r@ == "embed-"@ + project_id@,
{
    let mut r = "embed-".to_string();
    r.append(project_id);
    r
}

/// The elements of `after` that are not in `before`, in order.
pub open spec fn fresh(after: Seq<u32>, before: Seq<u32>) -> Seq<u32>
    decreases after.len(),
{
    if after.len() == 0 {
        after
    } else if before.contains(after.last()) {
        fresh(after.drop_last(), before)
    } else {
        fresh(after.drop_last(), before).push(after.last())
    }
}

/// The renderer processes a web app brought into being: those running after it opened that
/// were not running before. WebView2 can reuse a process, so this may be none.
pub fn fresh_pids(after: &Vec<u32>, before: &Vec<u32>) -> (r: Vec<u32>)
    ensures
        r@ == fresh(after@, before@),
{
    let mut r: Vec<u32> = Vec::new();
    let mut i: usize = 0;
    while i < after.len()
        invariant
            i <= after@.len(),
            r@ == fresh(after@.take(i as int), before@),
        decreases after@.len() - i,
    {
        assert(after@.take(i + 1).drop_last() =~= after@.take(i as int));
        let pid = after[i];
        let mut seen = false;
        let mut k: usize = 0;
        while k < before.len()
            invariant
                k <= before@.len(),
                seen == exists|j: int| 0 <= j < k && before@[j] == pid,
            decreases before@.len() - k,
        {
            if before[k] == pid {
                seen = true;
            }
            k += 1;
        }
        if !seen {
            r.push(pid);
        }
        i += 1;
    }
    assert(after@.take(after@.len() as int) =~= after@);
    r
}

/// Whether a process is a WebView2 renderer, by its executable's name in any case.
pub fn is_renderer(name: &str) -> (r: bool)
    ensures
        r == (lower_ascii_seq(name@) == lower_ascii_seq("msedgewebview2.exe"@)),
{
    eq_ignore_ascii_case(chars_of(name).as_slice(), chars_of("msedgewebview2.exe").as_slice())
}

/// An open web app as the contracts see it: its project, its window's label, and the
/// renderer processes attributed to it.
pub type EmbedEntry = (Seq<char>, Seq<char>, Seq<u32>);

/// Whether a web app for `id` is among `es`.
pub open spec fn has_embed(es: Seq<EmbedEntry>, id: Seq<char>) -> bool {
    exists|i: int| 0 <= i < es.len() && #[trigger] es[i].0 == id
}

/// Where the web app for `id` is among `es`, when it is there.
pub open spec fn embed_slot(es: Seq<EmbedEntry>, id: Seq<char>) -> int {
    choose|i: int| 0 <= i < es.len() && #[trigger] es[i].0 == id
}

/// The open web apps, and the one on screen.
///
/// The window shown is always one of those open: opening makes it so, and closing the one
/// on screen takes it off.
pub struct Embeds {
    views: Vec<(String, Embedded)>,
    visible: Option<String>,
}

impl Embeds {
    pub closed spec fn entries(&self) -> Seq<EmbedEntry> {
        self.views@.map_values(|v: (String, Embedded)| (v.0@, v.1.label@, v.1.pids@))
    }

    pub closed spec fn shown(&self) -> Option<Seq<char>> {
        match self.visible {
            Some(id) => Some(id@),
            None => None,
        }
    }

    /// One entry per project, and the one on screen among them.
    pub closed spec fn wf(&self) -> bool {
        let es = self.entries();
        &&& forall|i: int, j: int|
            0 <= i < es.len() && 0 <= j < es.len() && i != j ==> #[trigger] es[i].0
                != #[trigger] es[j].0
        &&& match self.shown() {
            Some(id) => has_embed(es, id),
            None => true,
        }
    }

    pub fn new() -> (r: Embeds)
        ensures
            r.wf(),
            r.entries().len() == 0,
            r.shown() is None,
    {
        let r = Embeds { views: Vec::new(), visible: None };
        assert(r.entries() =~= Seq::empty());
        r
    }

    fn find(&self, id: &str) -> (r: Option<usize>)
        requires
            self.wf(),
        ensures
            match r {
                Some(i) => {
                    &&& i < self.entries().len()
                    &&& self.entries()[i as int].0 == id@
                    &&& has_embed(self.entries(), id@)
                    &&& embed_slot(self.entries(), id@) == i
                },
                None => !has_embed(self.entries(), id@),
            },
    {
        let wanted = chars_of(id);
        let mut i: usize = 0;
        while i < self.views.len()
            invariant
                i <= self.views@.len(),
                wanted@ == id@,
                self.wf(),
                self.entries().len() == self.views@.len(),
                forall|j: int| 0 <= j < i ==> #[trigger] self.entries()[j].0 != id@,
            decreases self.views@.len() - i,
        {
            let have = chars_of(self.views[i].0.as_str());
            assert(self.entries()[i as int].0 == self.views@[i as int].0@);
            if same(have.as_slice(), wanted.as_slice()) {
                let ghost es = self.entries();
                assert(has_embed(es, id@));
                let ghost k = embed_slot(es, id@);
                assert(es[k].0 == es[i as int].0);
                assert(k == i as int) by {
                    if k != i as int {
                        assert(es[k].0 != es[i as int].0);
                    }
                }
                return Some(i);
            }
            i += 1;
        }
        None
    }

    /// Whether a web app is open for the project.
    pub fn is_open(&self, project_id: &str) -> (r: bool)
        requires
            self.wf(),
        ensures
            r == has_embed(self.entries(), project_id@),
    {
        self.find(project_id).is_some()
    }

    /// Records a project's new web app window, with no renderer attributed to it yet.
    pub fn insert(&mut self, project_id: &str)
        requires
            old(self).wf(),
        ensures
            final(self).wf(),
            final(self).shown() == old(self).shown(),
            has_embed(old(self).entries(), project_id@) ==> final(self).entries()
                == old(self).entries().update(
                embed_slot(old(self).entries(), project_id@),
                (project_id@, "embed-"@ + project_id@, Seq::empty()),
            ),
            !has_embed(old(self).entries(), project_id@) ==> final(self).entries()
                == old(self).entries().push((project_id@, "embed-"@ + project_id@, Seq::empty())),
    {
        let ghost before = self.entries();
        let entry = Embedded { label: label_for(project_id), pids: Vec::new() };
        match self.find(project_id) {
            Some(i) => {
                self.views.set(i, (project_id.to_string(), entry));
                proof {
                    let es = self.entries();
                    assert(es =~= before.update(i as int, (project_id@, "embed-"@ + project_id@, Seq::empty())));
                    assert forall|a: int, b: int|
                        0 <= a < es.len() && 0 <= b < es.len() && a != b implies #[trigger] es[a].0
                        != #[trigger] es[b].0 by {
                        assert(before[a].0 == if a == i { project_id@ } else { es[a].0 });
                        assert(before[b].0 == if b == i { project_id@ } else { es[b].0 });
                    }
                    if let Some(v) = self.shown() {
                        let k = embed_slot(before, v);
                        assert(es[k].0 == v);
                    }
                }
            },
            None => {
                self.views.push((project_id.to_string(), entry));
                proof {
                    let es = self.entries();
                    assert(es =~= before.push((project_id@, "embed-"@ + project_id@, Seq::empty())));
                    assert forall|a: int, b: int|
                        0 <= a < es.len() && 0 <= b < es.len() && a != b implies #[trigger] es[a].0
                        != #[trigger] es[b].0 by {
                        if a < before.len() {
                            assert(es[a] == before[a]);
                        }
                        if b < before.len() {
                            assert(es[b] == before[b]);
                        }
                    }
                    if let Some(v) = self.shown() {
                        let k = embed_slot(before, v);
                        assert(es[k] == before[k]);
                    }
                }
            },
        }
    }

    /// Puts a project's web app on screen; a project with none open leaves nothing shown.
    pub fn show(&mut self, project_id: &str) -> (r: bool)
        requires
            old(self).wf(),
        ensures
            final(self).wf(),
            final(self).entries() == old(self).entries(),
            r == has_embed(old(self).entries(), project_id@),
            final(self).shown() == (if r { Some(project_id@) } else { None }),
    {
        let r = self.is_open(project_id);
        self.visible = if r { Some(project_id.to_string()) } else { None };
        r
    }

    /// The label of the window on screen, if any.
    pub fn visible_label(&self) -> (r: Option<String>)
        requires
            self.wf(),
        ensures
            match self.shown() {
                Some(id) => r is Some && r->0@ == self.entries()[embed_slot(self.entries(), id)].1,
                None => r is None,
            },
    {
        match &self.visible {
            Some(id) => match self.find(id.as_str()) {
                Some(i) => Some(self.views[i].1.label.clone()),
                None => None,
            },
            None => None,
        }
    }

    /// Takes the web app on screen off it, keeping it open; what is returned is the label
    /// of the window to hide.
    pub fn hide_visible(&mut self) -> (r: Option<String>)
        requires
            old(self).wf(),
        ensures
            final(self).wf(),
            final(self).entries() == old(self).entries(),
            final(self).shown() is None,
            match old(self).shown() {
                Some(id) => r is Some && r->0@ == old(self).entries()[embed_slot(
                    old(self).entries(),
                    id,
                )].1,
                None => r is None,
            },
    {
        let r = self.visible_label();
        self.visible = None;
        r
    }

    /// Attributes renderer processes to a project's web app, if it is still open.
    pub fn set_pids(&mut self, project_id: &str, pids: Vec<u32>)
        requires
            old(self).wf(),
        ensures
            final(self).wf(),
            final(self).shown() == old(self).shown(),
            has_embed(old(self).entries(), project_id@) ==> {
                let k = embed_slot(old(self).entries(), project_id@);
                final(self).entries() == old(self).entries().update(
                    k,
                    (project_id@, old(self).entries()[k].1, pids@),
                )
            },
            !has_embed(old(self).entries(), project_id@) ==> final(self).entries() == old(
                self,
            ).entries(),
    {
        let ghost before = self.entries();
        match self.find(project_id) {
            Some(i) => {
                let label = self.views[i].1.label.clone();
                self.views.set(i, (project_id.to_string(), Embedded { label, pids }));
                proof {
                    let es = self.entries();
                    assert(es =~= before.update(i as int, (project_id@, before[i as int].1, pids@)));
                    assert forall|a: int, b: int|
                        0 <= a < es.len() && 0 <= b < es.len() && a != b implies #[trigger] es[a].0
                        != #[trigger] es[b].0 by {
                        assert(before[a].0 == es[a].0);
                        assert(before[b].0 == es[b].0);
                    }
                    if let Some(v) = self.shown() {
                        let k = embed_slot(before, v);
                        assert(es[k].0 == v);
                    }
                }
            },
            None => {},
        }
    }

    /// Closes a project's web app for good; what is returned is the label of the window to
    /// destroy. If it was on screen, nothing is any more.
    pub fn close(&mut self, project_id: &str) -> (r: Option<String>)
        requires
            old(self).wf(),
        ensures
            final(self).wf(),
            !has_embed(final(self).entries(), project_id@),
            has_embed(old(self).entries(), project_id@) ==> {
                let k = embed_slot(old(self).entries(), project_id@);
                &&& final(self).entries() == old(self).entries().remove(k)
                &&& r is Some && r->0@ == old(self).entries()[k].1
            },
            !has_embed(old(self).entries(), project_id@) ==> final(self).entries() == old(
                self,
            ).entries() && r is None,
            final(self).shown() == (if old(self).shown() == Some(project_id@) {
                None
            } else {
                old(self).shown()
            }),
    {
        let ghost before = self.entries();
        let r = match self.find(project_id) {
            Some(i) => {
                let (_, view) = self.views.remove(i);
                proof {
                    let es = self.entries();
                    assert(es =~= before.remove(i as int));
                    assert forall|a: int| 0 <= a < es.len() implies #[trigger] es[a].0 != project_id@ by {
                        if a < i {
                            assert(es[a] == before[a]);
                        } else {
                            assert(es[a] == before[a + 1]);
                        }
                    }
                    assert forall|a: int, b: int|
                        0 <= a < es.len() && 0 <= b < es.len() && a != b implies #[trigger] es[a].0
                        != #[trigger] es[b].0 by {
                        let a0 = if a < i { a } else { a + 1 };
                        let b0 = if b < i { b } else { b + 1 };
                        assert(es[a] == before[a0]);
                        assert(es[b] == before[b0]);
                    }
                }
                Some(view.label)
            },
            None => None,
        };
        let on_screen = match &self.visible {
            Some(v) => {
                let a = chars_of(v.as_str());
                let b = chars_of(project_id);
                same(a.as_slice(), b.as_slice())
            },
            None => false,
        };
        if on_screen {
            self.visible = None;
        }
        proof {
            let es = self.entries();
            if let Some(v) = self.shown() {
                assert(v != project_id@);
                if has_embed(before, project_id@) {
                    let i = embed_slot(before, project_id@);
                    let k = embed_slot(before, v);
                    assert(before[k].0 == v);
                    assert(k != i);
                    if k < i {
                        assert(es[k] == before[k]);
                    } else {
                        assert(es[k - 1] == before[k]);
                    }
                }
            }
        }
        r
    }

    /// The labels of every open web app, for closing them all when Oracle shuts down.
    pub fn labels(&self) -> (r: Vec<String>)
        ensures
            r@.map_values(|s: String| s@) == self.entries().map_values(|e: EmbedEntry| e.1),
    {
        let mut r: Vec<String> = Vec::new();
        let mut i: usize = 0;
        while i < self.views.len()
            invariant
                i <= self.views@.len(),
                self.entries().len() == self.views@.len(),
                r@.len() == i,
                r@.map_values(|s: String| s@) == self.entries().take(i as int).map_values(
                    |e: EmbedEntry| e.1,
                ),
            decreases self.views@.len() - i,
        {
            let ghost before = r@;
            r.push(self.views[i].1.label.clone());
            proof {
                assert(self.entries()[i as int].1 == self.views@[i as int].1.label@);
                let es = self.entries();
                assert forall|j: int| 0 <= j < i + 1 implies #[trigger] r@[j]@ == es[j].1 by {
                    if j < i {
                        assert(r@[j] == before[j]);
                        assert(before.map_values(|s: String| s@)[j] == es.take(i as int).map_values(
                            |e: EmbedEntry| e.1,
                        )[j]);
                    }
                }
                assert(r@.map_values(|s: String| s@) =~= es.take(i + 1).map_values(
                    |e: EmbedEntry| e.1,
                ));
            }
            i += 1;
        }
        assert(self.entries().take(i as int) =~= self.entries());
        r
    }

    /// The web app on screen and the renderers attributed to it, for the memory readout;
    /// nothing when none is on screen or no renderer could be attributed to it.
    pub fn visible_pids(&self) -> (r: Option<(String, Vec<u32>)>)
        requires
            self.wf(),
        ensures
            match self.shown() {
                Some(id) => {
                    let pids = self.entries()[embed_slot(self.entries(), id)].2;
                    if pids.len() == 0 {
                        r is None
                    } else {
                        r matches Some((shown_id, shown_pids)) && shown_id@ == id && shown_pids@ == pids
                    }
                },
                None => r is None,
            },
    {
        match &self.visible {
            Some(id) => match self.find(id.as_str()) {
                Some(i) => {
                    let pids = self.views[i].1.pids.clone();
                    if pids.len() == 0 {
                        None
                    } else {
                        Some((id.clone(), pids))
                    }
                },
                None => None,
            },
            None => None,
        }
    }
}

/// The web app on screen is always one that is open, whatever is done to the set.
pub proof fn lemma_shown_is_open(embeds: &Embeds)
    requires
        embeds.wf(),
    ensures
        match embeds.shown() {
            Some(id) => has_embed(embeds.entries(), id),
            None => true,
        },
{
}

/// One health sweep's results, sent as a single event.
pub struct RemoteTick {
    pub reports: Vec<RemoteReport>,
}

/// The tray panel's show/hide counter.
///
/// It moves on every show and every hide. A release of the panel's webview, scheduled when
/// it hid, carries the value the hide left and goes ahead only if the counter has not moved
/// since: showing the panel again is how a pending release is cancelled.
pub struct PanelEpoch {
    pub value: u64,
}

impl PanelEpoch {
    pub fn new() -> (r: PanelEpoch)
        ensures
            r.value == 0,
    {
        PanelEpoch { value: 0 }
    }

    /// Notes that the panel is on screen, cancelling any pending release.
    pub fn mark_shown(&mut self)
        ensures
            final(self).value == (old(self).value + 1) % 0x1_0000_0000_0000_0000,
    {
        self.value = self.value.wrapping_add(1);
    }

    /// Notes that the panel was hidden; what is returned is the token a release scheduled
    /// now must carry.
    pub fn mark_hidden(&mut self) -> (token: u64)
        ensures
            final(self).value == (old(self).value + 1) % 0x1_0000_0000_0000_0000,
            token == final(self).value,
    {
        self.value = self.value.wrapping_add(1);
        self.value
    }

    /// Whether a release scheduled with `token` may go ahead: the panel has been neither
    /// shown nor hidden since.
    pub fn release_due(&self, token: u64) -> (r: bool)
        ensures
            r == (self.value == token),
    {
        self.value == token
    }
}

/// A release scheduled when the panel hid is due until the panel is shown again, and never
/// after.
pub proof fn lemma_showing_cancels_release(hidden: u64, token: u64, shown: u64)
    requires
        token == (hidden + 1) % 0x1_0000_0000_0000_0000,
        shown == (token + 1) % 0x1_0000_0000_0000_0000,
    ensures
        token != hidden,
        shown != token,
{
}

/// The notice for a configuration that had to be moved aside.
pub open spec fn recovery_text(path: Seq<char>) -> Seq<char> {
    "The configuration file could not be read and was moved to "@ + path
        + ". Oracle started with defaults."@
}

/// Startup notices worth showing once, such as a recovered configuration file.
pub struct Warnings {
    pending: Vec<String>,
}

impl View for Warnings {
    type V = Seq<Seq<char>>;

    closed spec fn view(&self) -> Seq<Seq<char>> {
        self.pending@.map_values(|s: String| s@)
    }
}

impl Warnings {
    /// The notices a load leaves: one when the configuration had to be moved aside.
    pub fn after_load(loaded: &Loaded) -> (r: Warnings)
        ensures
            r@ == match loaded.recovered_from {
                Some(path) => seq![recovery_text(path@)],
                None => Seq::empty(),
            },
    {
        let mut pending: Vec<String> = Vec::new();
        if let Some(path) = &loaded.recovered_from {
            let mut text = "The configuration file could not be read and was moved to ".to_string();
            text.append(path.as_str());
            text.append(". Oracle started with defaults.");
            pending.push(text);
        }
        let r = Warnings { pending };
        assert(r@ =~= match loaded.recovered_from {
            Some(path) => seq![recovery_text(path@)],
            None => Seq::<Seq<char>>::empty(),
        });
        r
    }

    /// Hands over the pending notices and forgets them, so each is delivered once.
    pub fn take_warnings(&mut self) -> (r: Vec<String>)
        ensures
            r@.map_values(|s: String| s@) == old(self)@,
            final(self)@.len() == 0,
    {
        let mut taken: Vec<String> = Vec::new();
        std::mem::swap(&mut taken, &mut self.pending);
        assert(self@ =~= Seq::<Seq<char>>::empty());
        taken
    }
}

} // verus!
