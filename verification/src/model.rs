//! The shape of everything Oracle persists.
//!
//! These types are the contract between the backend, the config file on disk and the
//! interface. Paths are held as the text the user sees them as.
use vstd::prelude::*;
use crate::text::{decimal_digits, decimal_string, string_of};

verus! {

/// Bumped whenever a migration becomes necessary.
pub const CONFIG_VERSION: u32 = 1;

/// The hyphenated lower-case form of a random (version 4) UUID: 36 characters, `-` at
/// positions 8, 13, 18 and 23, a lower-case hexadecimal digit everywhere else, the version
/// digit `4` at position 14 and one of `8`, `9`, `a`, `b` at position 19.
pub open spec fn uuid_text(s: Seq<char>) -> bool {
    &&& s.len() == 36
    &&& forall|i: int|
        0 <= i < 36 ==> if i == 8 || i == 13 || i == 18 || i == 23 {
            #[trigger] s[i] == '-'
        } else {
            ('0' <= s[i] <= '9') || ('a' <= s[i] <= 'f')
        }
    &&& s[14] == '4'
    &&& (s[19] == '8' || s[19] == '9' || s[19] == 'a' || s[19] == 'b')
}

/// The lower-case hexadecimal digit for a value below 16.
pub open spec fn hex_char(n: int) -> char {
    if n < 10 {
        (('0' as int) + n) as char
    } else {
        (('a' as int) + n - 10) as char
    }
}

/// Bytes written as two lower-case hexadecimal digits each, high digit first.
pub open spec fn hex_of(bytes: Seq<u8>) -> Seq<char>
    decreases bytes.len(),
{
    if bytes.len() == 0 {
        Seq::empty()
    } else {
        hex_of(bytes.drop_last()) + seq![
            hex_char(bytes.last() as int / 16),
            hex_char(bytes.last() as int % 16),
        ]
    }
}

/// Sixteen bytes in the hyphenated form: groups of 4, 2, 2, 2 and 6 bytes.
pub open spec fn uuid_spelling(b: Seq<u8>) -> Seq<char> {
    hex_of(b.subrange(0, 4)) + seq!['-'] + hex_of(b.subrange(4, 6)) + seq!['-'] + hex_of(
        b.subrange(6, 8),
    ) + seq!['-'] + hex_of(b.subrange(8, 10)) + seq!['-'] + hex_of(b.subrange(10, 16))
}

/// Random bytes made into a version 4 UUID: the high nibble of byte 6 set to 4 and the two
/// high bits of byte 8 to `10`, every other bit kept.
pub open spec fn random_uuid_bytes(b: Seq<u8>) -> Seq<u8> {
    b.update(6, (b[6] & 0x0f) | 0x40).update(8, (b[8] & 0x3f) | 0x80)
}

/// Sixteen bytes from the operating system's random source.
///
/// Calls `getrandom::fill`, which reports a source that cannot deliver as an error instead
/// of panicking. The bytes are random, so nothing is claimed of them.
#[verifier::external_body]
fn random_bytes() -> (r: Option<[u8; 16]>) {
    let mut bytes = [0u8; 16];
    match getrandom::fill(&mut bytes) {
        Ok(()) => Some(bytes),
        Err(_) => None,
    }
}

/// The random UUID these bytes make, as text.
///
/// Calls `uuid::Builder::from_random_bytes(..).into_uuid()`, which sets the version and
/// variant bits in bytes 6 and 8 and keeps every other bit, and formats the UUID with
/// `Display`, which writes every byte as two lower-case hexadecimal digits with a hyphen
/// after the 4th, 6th, 8th and 10th.
#[verifier::external_body]
fn uuid_text_of(bytes: [u8; 16]) -> (r: String)
    ensures
        r@ == uuid_spelling(random_uuid_bytes(bytes@)),
{
    uuid::Builder::from_random_bytes(bytes).into_uuid().to_string()
}

proof fn lemma_hex_of(bytes: Seq<u8>)
    ensures
        hex_of(bytes).len() == 2 * bytes.len(),
        forall|k: int|
            0 <= k < bytes.len() ==> #[trigger] hex_of(bytes)[2 * k] == hex_char(bytes[k] as int / 16)
                && hex_of(bytes)[2 * k + 1] == hex_char(bytes[k] as int % 16),
    decreases bytes.len(),
{
    if bytes.len() > 0 {
        let t = bytes.drop_last();
        lemma_hex_of(t);
        assert forall|k: int| 0 <= k < bytes.len() implies #[trigger] hex_of(bytes)[2 * k] == hex_char(
            bytes[k] as int / 16,
        ) && hex_of(bytes)[2 * k + 1] == hex_char(bytes[k] as int % 16) by {
            if k < t.len() {
                assert(t[k] == bytes[k]);
                assert(hex_of(t)[2 * k] == hex_char(t[k] as int / 16));
            }
        }
    }
}

proof fn lemma_hex_char(n: int)
    requires
        0 <= n < 16,
    ensures
        ('0' <= hex_char(n) <= '9') || ('a' <= hex_char(n) <= 'f'),
        n == 4 ==> hex_char(n) == '4',
        n == 8 ==> hex_char(n) == '8',
        n == 9 ==> hex_char(n) == '9',
        n == 10 ==> hex_char(n) == 'a',
        n == 11 ==> hex_char(n) == 'b',
{
}

/// The text a random UUID is written as has the form of one.
proof fn lemma_spelling_is_uuid(b: Seq<u8>)
    requires
        b.len() == 16,
    ensures
        uuid_text(uuid_spelling(random_uuid_bytes(b))),
{
    let u = random_uuid_bytes(b);
    let s = uuid_spelling(u);
    let g0 = u.subrange(0, 4);
    let g1 = u.subrange(4, 6);
    let g2 = u.subrange(6, 8);
    let g3 = u.subrange(8, 10);
    let g4 = u.subrange(10, 16);
    lemma_hex_of(g0);
    lemma_hex_of(g1);
    lemma_hex_of(g2);
    lemma_hex_of(g3);
    lemma_hex_of(g4);
    let v: u8 = b[6];
    let w: u8 = b[8];
    assert(((v & 0x0f) | 0x40) / 16 == 4) by (bit_vector);
    assert(8 <= ((w & 0x3f) | 0x80) / 16 <= 11) by (bit_vector);
    assert(u[6] == (v & 0x0f) | 0x40);
    assert(u[8] == (w & 0x3f) | 0x80);
    assert forall|i: int| 0 <= i < 36 implies if i == 8 || i == 13 || i == 18 || i == 23 {
        #[trigger] s[i] == '-'
    } else {
        ('0' <= s[i] <= '9') || ('a' <= s[i] <= 'f')
    } by {
        if i < 8 {
            let k = i / 2;
            assert(s[i] == hex_of(g0)[i]);
            assert(hex_of(g0)[2 * k] == hex_char(g0[k] as int / 16));
            lemma_hex_char(g0[k] as int / 16);
            lemma_hex_char(g0[k] as int % 16);
        } else if 8 < i < 13 {
            let k = (i - 9) / 2;
            assert(s[i] == hex_of(g1)[i - 9]);
            assert(hex_of(g1)[2 * k] == hex_char(g1[k] as int / 16));
            lemma_hex_char(g1[k] as int / 16);
            lemma_hex_char(g1[k] as int % 16);
        } else if 13 < i < 18 {
            let k = (i - 14) / 2;
            assert(s[i] == hex_of(g2)[i - 14]);
            assert(hex_of(g2)[2 * k] == hex_char(g2[k] as int / 16));
            lemma_hex_char(g2[k] as int / 16);
            lemma_hex_char(g2[k] as int % 16);
        } else if 18 < i < 23 {
            let k = (i - 19) / 2;
            assert(s[i] == hex_of(g3)[i - 19]);
            assert(hex_of(g3)[2 * k] == hex_char(g3[k] as int / 16));
            lemma_hex_char(g3[k] as int / 16);
            lemma_hex_char(g3[k] as int % 16);
        } else if 23 < i {
            let k = (i - 24) / 2;
            assert(s[i] == hex_of(g4)[i - 24]);
            assert(hex_of(g4)[2 * k] == hex_char(g4[k] as int / 16));
            lemma_hex_char(g4[k] as int / 16);
            lemma_hex_char(g4[k] as int % 16);
        }
    }
    assert(s[14] == hex_of(g2)[0]);
    assert(hex_of(g2)[2 * 0int] == hex_char(g2[0] as int / 16));
    lemma_hex_char(g2[0] as int / 16);
    assert(s[19] == hex_of(g3)[0]);
    assert(hex_of(g3)[2 * 0int] == hex_char(g3[0] as int / 16));
    lemma_hex_char(g3[0] as int / 16);
}

/// A fresh random identifier for a project, or nothing when the operating system's random
/// source cannot deliver.
pub(crate) fn new_project_id() -> (r: Option<String>)
    ensures
        r matches Some(id) ==> uuid_text(id@) && exists|b: Seq<u8>|
            b.len() == 16 && id@ == uuid_spelling(random_uuid_bytes(b)),
{
    match random_bytes() {
        Some(bytes) => {
            let id = uuid_text_of(bytes);
            proof {
                lemma_spelling_is_uuid(bytes@);
            }
            Some(id)
        },
        None => None,
    }
}

#[derive(Clone)]
pub struct Project {
    pub id: String,
    pub name: String,
    pub kind: ProjectKind,
    pub icon: IconSource,
    /// Overrides the colour derived from `kind`.
    pub accent: Option<String>,
    pub local: Option<LocalTarget>,
    pub remote: Option<RemoteTarget>,
    pub repo: Option<RepoRef>,
    pub tags: Vec<String>,
    pub favorite: bool,
    /// Position in the rail. Lower sorts first.
    pub order: i32,
    pub notes: Option<String>,
}

/// The URL the "open" button should use: an explicit override, else the local port, else
/// the remote address.
pub open spec fn project_open_url(p: Project) -> Option<Seq<char>> {
    match p.local {
        Some(local) if local.open_url is Some => Some(local.open_url->0@),
        Some(local) if local.port is Some => Some(
            "http://localhost:"@ + decimal_digits(local.port->0 as nat),
        ),
        _ => match p.remote {
            Some(remote) => Some(remote.url@),
            None => None,
        },
    }
}

/// `http://localhost:{port}`.
pub fn localhost_url(port: u16) -> (r: String)
    ensures
        r@ == "http://localhost:"@ + decimal_digits(port as nat),
{
    let mut r = "http://localhost:".to_owned();
    let digits = decimal_string(port as u64);
    r.append(string_of(digits.as_slice()).as_str());
    r
}

impl Project {
    /// A project with nothing configured but its name and a fresh random id; nothing when
    /// the operating system's random source cannot deliver one.
    pub fn new(name: String) -> (r: Option<Project>)
        ensures
            r matches Some(p) ==> {
                &&& p.name == name
                &&& uuid_text(p.id@)
                &&& p.kind == ProjectKind::Other
                &&& p.icon == IconSource::Auto
                &&& p.accent is None
                &&& p.local is None
                &&& p.remote is None
                &&& p.repo is None
                &&& p.tags@.len() == 0
                &&& !p.favorite
                &&& p.order == 0
                &&& p.notes is None
            },
    {
        let id = match new_project_id() {
            Some(id) => id,
            None => {
                return None;
            },
        };
        Some(Project {
            id,
            name,
            kind: ProjectKind::Other,
            icon: IconSource::Auto,
            accent: None,
            local: None,
            remote: None,
            repo: None,
            tags: Vec::new(),
            favorite: false,
            order: 0,
            notes: None,
        })
    }

    /// The URL the "open" button should use, if any.
    pub fn open_url(&self) -> (r: Option<String>)
        ensures
            match r {
                Some(u) => project_open_url(*self) == Some(u@),
                None => project_open_url(*self) is None,
            },
    {
        if let Some(local) = &self.local {
            if let Some(url) = &local.open_url {
                return Some(url.clone());
            }
            if let Some(port) = local.port {
                return Some(localhost_url(port));
            }
        }
        match &self.remote {
            Some(remote) => Some(remote.url.clone()),
            None => None,
        }
    }
}

#[derive(Clone, Copy, Debug, PartialEq, Eq, Structural)]
pub enum ProjectKind {
    NextJs,
    Node,
    Rust,
    Python,
    Docker,
    Static,
    Other,
}

pub open spec fn kind_accent(k: ProjectKind) -> Seq<char> {
    match k {
        ProjectKind::NextJs => "#C15F3C"@,
        ProjectKind::Node => "#6E9B5E"@,
        ProjectKind::Rust => "#B3623C"@,
        ProjectKind::Python => "#4E7CA8"@,
        ProjectKind::Docker => "#3F7EA8"@,
        ProjectKind::Static => "#8A8578"@,
        ProjectKind::Other => "#B1ADA1"@,
    }
}

pub open spec fn kind_label(k: ProjectKind) -> Seq<char> {
    match k {
        ProjectKind::NextJs => "Next.js"@,
        ProjectKind::Node => "Node"@,
        ProjectKind::Rust => "Rust"@,
        ProjectKind::Python => "Python"@,
        ProjectKind::Docker => "Docker"@,
        ProjectKind::Static => "Static"@,
        ProjectKind::Other => "Other"@,
    }
}

pub open spec fn kind_command(k: ProjectKind) -> Seq<char> {
    match k {
        ProjectKind::NextJs | ProjectKind::Node => "npm run dev"@,
        ProjectKind::Rust => "cargo run"@,
        ProjectKind::Python => "python main.py"@,
        ProjectKind::Docker => "docker compose up"@,
        ProjectKind::Static => "npx serve ."@,
        ProjectKind::Other => ""@,
    }
}

pub open spec fn kind_port(k: ProjectKind) -> Option<u16> {
    match k {
        ProjectKind::NextJs | ProjectKind::Node | ProjectKind::Static => Some(3000),
        ProjectKind::Python => Some(8000),
        _ => None,
    }
}

impl ProjectKind {
    /// Fallback accent when the project does not define its own.
    pub fn accent(self) -> (r: &'static str)
        ensures
            r@ == kind_accent(self),
    {
        match self {
            ProjectKind::NextJs => "#C15F3C",
            ProjectKind::Node => "#6E9B5E",
            ProjectKind::Rust => "#B3623C",
            ProjectKind::Python => "#4E7CA8",
            ProjectKind::Docker => "#3F7EA8",
            ProjectKind::Static => "#8A8578",
            ProjectKind::Other => "#B1ADA1",
        }
    }

    pub fn label(self) -> (r: &'static str)
        ensures
            r@ == kind_label(self),
    {
        match self {
            ProjectKind::NextJs => "Next.js",
            ProjectKind::Node => "Node",
            ProjectKind::Rust => "Rust",
            ProjectKind::Python => "Python",
            ProjectKind::Docker => "Docker",
            ProjectKind::Static => "Static",
            ProjectKind::Other => "Other",
        }
    }

    /// The command a freshly discovered project of this kind most likely needs.
    pub fn default_command(self) -> (r: &'static str)
        ensures
            r@ == kind_command(self),
    {
        match self {
            ProjectKind::NextJs | ProjectKind::Node => "npm run dev",
            ProjectKind::Rust => "cargo run",
            ProjectKind::Python => "python main.py",
            ProjectKind::Docker => "docker compose up",
            ProjectKind::Static => "npx serve .",
            ProjectKind::Other => "",
        }
    }

    /// The port that command conventionally binds to.
    pub fn default_port(self) -> (r: Option<u16>)
        ensures
            r == kind_port(self),
    {
        match self {
            ProjectKind::NextJs | ProjectKind::Node | ProjectKind::Static => Some(3000),
            ProjectKind::Python => Some(8000),
            _ => None,
        }
    }
}

impl Default for ProjectKind {
    fn default() -> (r: ProjectKind)
        ensures
            r == ProjectKind::Other,
    {
        ProjectKind::Other
    }
}

pub enum IconSource {
    /// Derived from the project kind.
    Auto,
    /// One of the glyphs bundled with the interface.
    Builtin(String),
    /// A PNG or SVG the user picked, copied into the Oracle data directory.
    File(String),
    /// Fetched from the project's own URL.
    Favicon(String),
}

#[derive(Clone)]
pub struct LocalTarget {
    pub root: String,
    /// Shell command line, run through `cmd /C` on Windows.
    pub command: String,
    /// Extra environment on top of the inherited one, in key order, each key once.
    pub env: Vec<(String, String)>,
    /// Port the process is expected to bind. Drives the readiness probe.
    pub port: Option<u16>,
    /// Overrides `http://localhost:{port}`.
    pub open_url: Option<String>,
    /// Launch this project when Oracle itself starts.
    pub autostart_with_oracle: bool,
}

impl LocalTarget {
    pub fn new(root: String, command: String) -> (r: LocalTarget)
        ensures
            r.root == root,
            r.command == command,
            r.env@.len() == 0,
            r.port is None,
            r.open_url is None,
            !r.autostart_with_oracle,
    {
        LocalTarget {
            root,
            command,
            env: Vec::new(),
            port: None,
            open_url: None,
            autostart_with_oracle: false,
        }
    }
}

#[derive(Clone)]
pub struct RemoteTarget {
    pub url: String,
    pub check: RemoteCheck,
    pub interval_secs: u32,
}

/// How a remote target is probed.
#[derive(Clone)]
pub enum RemoteCheck {
    Http {
        method: HttpMethod,
        /// Status codes treated as healthy. Empty means "any 2xx or 3xx".
        expect_status: Vec<u16>,
    },
}

impl Default for RemoteCheck {
    fn default() -> (r: RemoteCheck)
        ensures
            r matches RemoteCheck::Http { method, expect_status }
                && method == HttpMethod::Get && expect_status@.len() == 0,
    {
        RemoteCheck::Http { method: HttpMethod::Get, expect_status: Vec::new() }
    }
}

#[derive(Clone, Copy, Debug, PartialEq, Eq, Structural)]
pub enum HttpMethod {
    Get,
    Head,
}

/// The interval a remote target or the health loop uses when none is stored.
pub fn default_interval() -> (r: u32)
    ensures
        r == 30,
{
    30
}

pub fn default_method() -> (r: HttpMethod)
    ensures
        r == HttpMethod::Get,
{
    HttpMethod::Get
}

pub struct RepoRef {
    pub provider: RepoProvider,
    /// "owner/name" when it could be parsed from the remote URL.
    pub slug: Option<String>,
    pub remote_url: Option<String>,
}

#[derive(Clone, Copy, Debug, PartialEq, Eq, Structural)]
pub enum RepoProvider {
    GitHub,
    GitLab,
    Other,
}

#[derive(Clone)]
pub struct Settings {
    pub start_with_windows: bool,
    pub start_hidden: bool,
    pub autostart_projects: bool,
    pub theme: Theme,
    pub glass: GlassLevel,
    pub health_interval_secs: u32,
    pub scan_roots: Vec<String>,
    pub panel_shortcut: String,
    pub minimise_to_tray: bool,
    pub view: ViewMode,
}

pub fn default_true() -> (r: bool)
    ensures
        r,
{
    true
}

pub fn default_shortcut() -> (r: String)
    ensures
        r@ == "CmdOrCtrl+Shift+Space"@,
{
    "CmdOrCtrl+Shift+Space".to_owned()
}

/// The settings of a fresh install that scans `scan_roots`.
pub open spec fn default_settings(r: Settings, scan_roots: Vec<String>) -> bool {
    &&& !r.start_with_windows
    &&& !r.start_hidden
    &&& r.autostart_projects
    &&& r.theme == Theme::System
    &&& r.glass == GlassLevel::Full
    &&& r.health_interval_secs == 30
    &&& r.scan_roots == scan_roots
    &&& r.panel_shortcut@ == "CmdOrCtrl+Shift+Space"@
    &&& r.minimise_to_tray
    &&& r.view == ViewMode::List
}

impl Settings {
    /// The settings of a fresh install, given the places worth scanning on this machine.
    pub fn defaults(scan_roots: Vec<String>) -> (r: Settings)
        ensures
            default_settings(r, scan_roots),
    {
        Settings {
            start_with_windows: false,
            start_hidden: false,
            autostart_projects: true,
            theme: Theme::System,
            glass: GlassLevel::Full,
            health_interval_secs: default_interval(),
            scan_roots,
            panel_shortcut: default_shortcut(),
            minimise_to_tray: true,
            view: ViewMode::List,
        }
    }
}

#[derive(Clone, Copy, Debug, PartialEq, Eq, Structural)]
pub enum Theme {
    Light,
    Dark,
    System,
}

#[derive(Clone, Copy, Debug, PartialEq, Eq, Structural)]
pub enum GlassLevel {
    /// Refraction, blur, and specular highlight.
    Full,
    /// Blur and highlight, no refraction filter.
    Reduced,
    /// Flat surfaces. Cheapest, and the accessibility fallback.
    Opaque,
}

#[derive(Clone, Copy, Debug, PartialEq, Eq, Structural)]
pub enum ViewMode {
    List,
    Grid,
}

#[derive(Clone)]
pub struct Config {
    pub version: u32,
    pub projects: Vec<Project>,
    pub settings: Settings,
}

impl Config {
    /// The configuration of a first run: no projects, default settings scanning
    /// `scan_roots`, at the current version.
    pub fn fresh(scan_roots: Vec<String>) -> (r: Config)
        ensures
            r.version == CONFIG_VERSION,
            r.projects@.len() == 0,
            default_settings(r.settings, scan_roots),
    {
        Config { version: CONFIG_VERSION, projects: Vec::new(), settings: Settings::defaults(scan_roots) }
    }
}

pub fn default_version() -> (r: u32)
    ensures
        r == CONFIG_VERSION,
{
    CONFIG_VERSION
}

/// A copy of an optional text.
pub fn copy_text(v: &Option<String>) -> (r: Option<String>)
    ensures
        r == *v,
{
    match v {
        Some(s) => Some(s.clone()),
        None => None,
    }
}

impl Clone for IconSource {
    fn clone(&self) -> (r: Self)
        ensures
            r == *self,
    {
        match self {
            IconSource::Auto => IconSource::Auto,
            IconSource::Builtin(s) => IconSource::Builtin(s.clone()),
            IconSource::File(s) => IconSource::File(s.clone()),
            IconSource::Favicon(s) => IconSource::Favicon(s.clone()),
        }
    }
}

impl Clone for RepoRef {
    fn clone(&self) -> (r: Self)
        ensures
            r == *self,
    {
        RepoRef {
            provider: self.provider,
            slug: copy_text(&self.slug),
            remote_url: copy_text(&self.remote_url),
        }
    }
}

} // verus!
