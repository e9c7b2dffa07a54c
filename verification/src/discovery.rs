//! Finding projects on disk: what a directory is, what it should be called, and how a scan's
//! findings are tidied.
//!
//! Reading directories and files is the caller's part. A project is identified by a marker
//! file at its root, and a directory that looks like a project is never descended into.
use vstd::prelude::*;
use crate::config::{no_random_source, no_random_source_error};
use crate::error::OracleError;
use crate::model::{
    Config, LocalTarget, Project, ProjectKind, RepoProvider, RepoRef, kind_command, kind_port,
    uuid_text,
};
use crate::sorting::{
    distinct_by, lemma_sort_text_distinct, lemma_sort_text_elements, lemma_sort_text_sorted,
    lemma_text_le_antisymmetric, sort_by_text, stable_sort_text,
    text_keys_view, text_le,
};
use crate::text::{
    chars_of, concat, contains, contains_seq, has_prefix, has_suffix, lines, lines_of, lowered,
    lowercase_of, non_empty, non_empty_of, rfind_char, last_index_of, lemma_last_index_of, same,
    slice_of, split_by,
    split_of, starts_with, ends_with, string_of, strip_suffixes,
    strip_suffixes_of, trim, trim_of, views,
};

verus! {

/// How deep below a scan root to look. Four levels covers `Documents/work/client/app`
/// without walking an entire drive.
pub const MAX_DEPTH: usize = 4;

/// Directories that never contain a project root worth surfacing.
pub open spec fn skipped(name: Seq<char>) -> bool {
    ||| name == "node_modules"@
    ||| name == "target"@
    ||| name == "dist"@
    ||| name == "build"@
    ||| name == ".git"@
    ||| name == ".next"@
    ||| name == ".venv"@
    ||| name == "venv"@
    ||| name == "__pycache__"@
    ||| name == ".cache"@
    ||| name == "vendor"@
    ||| name == ".svelte-kit"@
    ||| name == "out"@
}

/// Folder names that say nothing about which project they belong to.
pub open spec fn generic(name: Seq<char>) -> bool {
    ||| name == "api"@
    ||| name == "app"@
    ||| name == "backend"@
    ||| name == "client"@
    ||| name == "frontend"@
    ||| name == "server"@
    ||| name == "web"@
    ||| name == "www"@
    ||| name == "src"@
    ||| name == "site"@
    ||| name == "ui"@
    ||| name == "admin"@
    ||| name == "dashboard"@
    ||| name == "core"@
    ||| name == "main"@
    ||| name == "service"@
    ||| name == "services"@
    ||| name == "packages"@
}

fn is_one_of(name: &[char], words: &[&str]) -> (r: bool)
    ensures
        r == exists|i: int| 0 <= i < words@.len() && name@ == #[trigger] words@[i]@,
{
    let mut i: usize = 0;
    while i < words.len()
        invariant
            i <= words@.len(),
            forall|j: int| 0 <= j < i ==> name@ != #[trigger] words@[j]@,
        decreases words@.len() - i,
    {
        let w = chars_of(words[i]);
        if same(name, w.as_slice()) {
            return true;
        }
        i += 1;
    }
    false
}

/// Whether the scan should look inside a sub-directory of this name: not hidden and not one
/// of the dependency or build directories.
pub fn descend_into(name: &str) -> (r: bool)
    ensures
        r == !(has_prefix(name@, "."@) || skipped(name@)),
{
    let text = chars_of(name);
    let dot = chars_of(".");
    if starts_with(text.as_slice(), dot.as_slice()) {
        return false;
    }
    let list = [
        "node_modules", "target", "dist", "build", ".git", ".next", ".venv", "venv",
        "__pycache__", ".cache", "vendor", ".svelte-kit", "out",
    ];
    let found = is_one_of(text.as_slice(), &list);
    proof {
        if skipped(name@) {
            if name@ == "node_modules"@ { assert(name@ == list@[0]@); }
            if name@ == "target"@ { assert(name@ == list@[1]@); }
            if name@ == "dist"@ { assert(name@ == list@[2]@); }
            if name@ == "build"@ { assert(name@ == list@[3]@); }
            if name@ == ".git"@ { assert(name@ == list@[4]@); }
            if name@ == ".next"@ { assert(name@ == list@[5]@); }
            if name@ == ".venv"@ { assert(name@ == list@[6]@); }
            if name@ == "venv"@ { assert(name@ == list@[7]@); }
            if name@ == "__pycache__"@ { assert(name@ == list@[8]@); }
            if name@ == ".cache"@ { assert(name@ == list@[9]@); }
            if name@ == "vendor"@ { assert(name@ == list@[10]@); }
            if name@ == ".svelte-kit"@ { assert(name@ == list@[11]@); }
            if name@ == "out"@ { assert(name@ == list@[12]@); }
        }
    }
    !found
}

/// Whether a directory this far below its scan root is still scanned.
pub fn within_depth(depth: usize) -> (r: bool)
    ensures
        r == (depth <= MAX_DEPTH),
{
    depth <= MAX_DEPTH
}

/// A candidate the walk reported was made by `make` for a directory `kind_at` found to be a
/// project.
pub open spec fn made_at_project<K, M>(kind_at: K, make: M, c: Candidate) -> bool
    where
        K: Fn(String) -> Option<ProjectKind>,
        M: Fn(String, ProjectKind) -> Candidate,
{
    exists|d: String, k: ProjectKind|
        call_ensures(kind_at, (d,), Some(k)) && #[trigger] call_ensures(make, (d, k), c)
}

/// Walks the directory `dir`, found `depth` levels below its scan root, appending a
/// candidate for every project under it.
///
/// `list` reads a directory's sub-directories as `(name, path)` pairs, or nothing when the
/// directory cannot be read; `kind_at` tells what project a directory is, if any; `make`
/// builds the candidate for a project directory. A directory past `MAX_DEPTH` or that
/// cannot be read adds nothing. A project directory adds its own candidate and nothing from
/// inside it; any other directory adds what its sub-directories worth entering add.
pub fn walk_dir<L, K, M>(dir: String, depth: usize, list: &L, kind_at: &K, make: &M, out: &mut Vec<Candidate>)
    where
        L: Fn(String) -> Option<Vec<(String, String)>>,
        K: Fn(String) -> Option<ProjectKind>,
        M: Fn(String, ProjectKind) -> Candidate,
    requires
        forall|d: String| call_requires(*list, (d,)),
        forall|d: String| call_requires(*kind_at, (d,)),
        forall|d: String, k: ProjectKind| call_requires(*make, (d, k)),
    ensures
        final(out)@.len() >= old(out)@.len(),
        final(out)@.take(old(out)@.len() as int) == old(out)@,
        depth > MAX_DEPTH ==> final(out)@ == old(out)@,
        forall|i: int|
            old(out)@.len() <= i < final(out)@.len() ==> made_at_project(
                *kind_at,
                *make,
                #[trigger] final(out)@[i],
            ),
        ({
            ||| final(out)@ == old(out)@
            ||| exists|k: ProjectKind|
                call_ensures(*kind_at, (dir,), Some(k)) && final(out)@ == old(out)@.push(
                    final(out)@.last(),
                ) && call_ensures(*make, (dir, k), final(out)@.last())
            ||| call_ensures(*kind_at, (dir,), None)
        }),
    decreases MAX_DEPTH + 1 - depth,
{
    if !within_depth(depth) {
        return;
    }
    let children = match list(dir.clone()) {
        Some(children) => children,
        None => {
            return;
        },
    };
    let ghost start = out@;
    match kind_at(dir.clone()) {
        Some(k) => {
            let c = make(dir.clone(), k);
            out.push(c);
            proof {
                assert(call_ensures(*make, (dir, k), out@.last()));
                assert(made_at_project(*kind_at, *make, out@[out@.len() - 1]));
                assert(out@.take(start.len() as int) =~= start);
                assert(out@ =~= start.push(out@.last()));
            }
        },
        None => {
            let mut i: usize = 0;
            while i < children.len()
                invariant
                    depth <= MAX_DEPTH,
                    i <= children@.len(),
                    forall|d: String| call_requires(*list, (d,)),
                    forall|d: String| call_requires(*kind_at, (d,)),
                    forall|d: String, k: ProjectKind| call_requires(*make, (d, k)),
                    out@.len() >= start.len(),
                    out@.take(start.len() as int) == start,
                    forall|j: int|
                        start.len() <= j < out@.len() ==> made_at_project(
                            *kind_at,
                            *make,
                            #[trigger] out@[j],
                        ),
                decreases children@.len() - i,
            {
                let name = children[i].0.clone();
                let path = children[i].1.clone();
                if descend_into(name.as_str()) {
                    let ghost before = out@;
                    walk_dir(path, depth + 1, list, kind_at, make, out);
                    proof {
                        assert(out@.take(start.len() as int) =~= before.take(before.len() as int).take(
                            start.len() as int,
                        ));
                        assert forall|j: int| start.len() <= j < out@.len() implies made_at_project(
                            *kind_at,
                            *make,
                            #[trigger] out@[j],
                        ) by {
                            if j < before.len() {
                                assert(out@.take(before.len() as int)[j] == before[j]);
                            }
                        }
                    }
                }
                i += 1;
            }
        },
    }
}

/// Which marker files a directory holds.
pub struct MarkerFiles {
    pub package_json: bool,
    pub cargo_toml: bool,
    pub pyproject_toml: bool,
    pub requirements_txt: bool,
    pub pipfile: bool,
    pub docker_compose_yml: bool,
    pub docker_compose_yaml: bool,
    pub index_html: bool,
}

/// Whether a JSON document is an object whose member `outer` is an object with a member
/// `inner`. A document that does not parse has none.
pub uninterp spec fn json_has_member(raw: Seq<char>, outer: Seq<char>, inner: Seq<char>) -> bool;

/// Parses `raw` with `serde_json::from_str` into a `serde_json::Value` and asks
/// `Value::get` for `outer`, then for `inner` inside it. The answer is a function of the
/// three texts alone, named `json_has_member`; nothing more is claimed of it.
#[verifier::external_body]
fn member_present(raw: &str, outer: &str, inner: &str) -> (r: bool)
    ensures
        r == json_has_member(raw@, outer@, inner@),
{
    match serde_json::from_str::<serde_json::Value>(raw) {
        Ok(value) => value.get(outer).and_then(|block| block.get(inner)).is_some(),
        Err(_) => false,
    }
}

/// `next` in either dependency block of a `package.json`.
pub open spec fn next_app(raw: Seq<char>) -> bool {
    json_has_member(raw, "dependencies"@, "next"@) || json_has_member(
        raw,
        "devDependencies"@,
        "next"@,
    )
}

/// Looks for `next` in either dependency block. Parsed as generic JSON because the exact
/// shape of a `package.json` in the wild is not worth modelling.
pub fn is_next_app(package_json: &str) -> (r: bool)
    ensures
        r == next_app(package_json@),
{
    member_present(package_json, "dependencies", "next") || member_present(
        package_json,
        "devDependencies",
        "next",
    )
}

/// What a directory's marker files make it. Order matters: a Next.js app also has a
/// `package.json`, and a Dockerised Rust service also has a `Cargo.toml`. `package_json`
/// is the text of `package.json` when it could be read.
pub open spec fn kind_of(m: MarkerFiles, package_json: Option<Seq<char>>) -> Option<ProjectKind> {
    if m.package_json {
        if package_json matches Some(raw) && next_app(raw) {
            Some(ProjectKind::NextJs)
        } else {
            Some(ProjectKind::Node)
        }
    } else if m.cargo_toml {
        Some(ProjectKind::Rust)
    } else if m.pyproject_toml || m.requirements_txt || m.pipfile {
        Some(ProjectKind::Python)
    } else if m.docker_compose_yml || m.docker_compose_yaml {
        Some(ProjectKind::Docker)
    } else if m.index_html {
        Some(ProjectKind::Static)
    } else {
        None
    }
}

/// Identifies a project by its marker files.
pub fn detect_kind(markers: &MarkerFiles, package_json: Option<&str>) -> (r: Option<ProjectKind>)
    ensures
        r == kind_of(
            *markers,
            match package_json {
                Some(raw) => Some(raw@),
                None => None,
            },
        ),
{
    if markers.package_json {
        let next = match package_json {
            Some(raw) => is_next_app(raw),
            None => false,
        };
        if next {
            return Some(ProjectKind::NextJs);
        }
        return Some(ProjectKind::Node);
    }
    if markers.cargo_toml {
        return Some(ProjectKind::Rust);
    }
    if markers.pyproject_toml || markers.requirements_txt || markers.pipfile {
        return Some(ProjectKind::Python);
    }
    if markers.docker_compose_yml || markers.docker_compose_yaml {
        return Some(ProjectKind::Docker);
    }
    if markers.index_html {
        return Some(ProjectKind::Static);
    }
    None
}

/// The command a discovered project gets: a script its `package.json` declares (`dev`,
/// then `start`, then `serve`), else the default for its kind.
pub open spec fn suggested(kind: ProjectKind, package_json: Option<Seq<char>>) -> Seq<char> {
    if (kind == ProjectKind::NextJs || kind == ProjectKind::Node) && package_json is Some {
        let raw = package_json->0;
        if json_has_member(raw, "scripts"@, "dev"@) {
            "npm run dev"@
        } else if json_has_member(raw, "scripts"@, "start"@) {
            "npm run start"@
        } else if json_has_member(raw, "scripts"@, "serve"@) {
            "npm run serve"@
        } else {
            kind_command(kind)
        }
    } else {
        kind_command(kind)
    }
}

/// Prefers a script the project actually declares over the generic default for its kind.
pub fn suggested_command(kind: ProjectKind, package_json: Option<&str>) -> (r: String)
    ensures
        r@ == suggested(
            kind,
            match package_json {
                Some(raw) => Some(raw@),
                None => None,
            },
        ),
{
    if kind == ProjectKind::NextJs || kind == ProjectKind::Node {
        if let Some(raw) = package_json {
            if member_present(raw, "scripts", "dev") {
                return "npm run dev".to_owned();
            }
            if member_present(raw, "scripts", "start") {
                return "npm run start".to_owned();
            }
            if member_present(raw, "scripts", "serve") {
                return "npm run serve".to_owned();
            }
        }
    }
    kind.default_command().to_owned()
}

/// The name a discovered project carries: its own folder name, qualified by its parent's
/// when the folder name is a generic one such as `api`.
pub open spec fn display(own: Seq<char>, parent: Option<Seq<char>>) -> Seq<char> {
    if !generic(lowered(own)) {
        own
    } else {
        match parent {
            Some(p) => p + "/"@ + own,
            None => own,
        }
    }
}

/// The name a discovered project should carry. `own` is the folder's name (the whole path
/// where it has none) and `parent` its parent folder's name, if it has one.
///
/// A scan of a real machine turns up several directories called `api`; importing those
/// as-is gives a list nobody can read, so `veln-leads/api` rather than `api`.
pub fn display_name(own: &str, parent: Option<&str>) -> (r: String)
    ensures
        r@ == display(
            own@,
            match parent {
                Some(p) => Some(p@),
                None => None,
            },
        ),
{
    let lower = lowercase_of(own);
    let lower_chars = chars_of(lower.as_str());
    let list = [
        "api", "app", "backend", "client", "frontend", "server", "web", "www", "src", "site", "ui",
        "admin", "dashboard", "core", "main", "service", "services", "packages",
    ];
    let is_generic = is_one_of(lower_chars.as_slice(), &list);
    proof {
        let l = lowered(own@);
        if generic(l) {
            if l == "api"@ { assert(l == list@[0]@); }
            if l == "app"@ { assert(l == list@[1]@); }
            if l == "backend"@ { assert(l == list@[2]@); }
            if l == "client"@ { assert(l == list@[3]@); }
            if l == "frontend"@ { assert(l == list@[4]@); }
            if l == "server"@ { assert(l == list@[5]@); }
            if l == "web"@ { assert(l == list@[6]@); }
            if l == "www"@ { assert(l == list@[7]@); }
            if l == "src"@ { assert(l == list@[8]@); }
            if l == "site"@ { assert(l == list@[9]@); }
            if l == "ui"@ { assert(l == list@[10]@); }
            if l == "admin"@ { assert(l == list@[11]@); }
            if l == "dashboard"@ { assert(l == list@[12]@); }
            if l == "core"@ { assert(l == list@[13]@); }
            if l == "main"@ { assert(l == list@[14]@); }
            if l == "service"@ { assert(l == list@[15]@); }
            if l == "services"@ { assert(l == list@[16]@); }
            if l == "packages"@ { assert(l == list@[17]@); }
        }
    }
    if !is_generic {
        return own.to_owned();
    }
    match parent {
        Some(p) => {
            let mut r = p.to_owned();
            r.append("/");
            r.append(own);
            r
        },
        None => own.to_owned(),
    }
}


/// The host a remote URL points at, as far as the interface cares.
pub open spec fn provider_of(url: Seq<char>) -> RepoProvider {
    if contains_seq(url, "github.com"@) {
        RepoProvider::GitHub
    } else if contains_seq(url, "gitlab.com"@) {
        RepoProvider::GitLab
    } else {
        RepoProvider::Other
    }
}

/// The path part of a remote URL: after the last `:` for the `git@host:owner/name` form,
/// the whole URL otherwise (an `http:` or `https:` scheme is not such a colon).
pub open spec fn url_tail(url: Seq<char>) -> Seq<char> {
    match last_index_of(url, ':') {
        Some(i) if !has_suffix(url.take(i), "https"@) && !has_suffix(url.take(i), "http"@) => url.skip(
            i + 1,
        ),
        _ => url,
    }
}

/// `owner/name` from a remote URL, when it has at least two path segments.
pub open spec fn slug_of(url: Seq<char>) -> Option<Seq<char>> {
    let trimmed = strip_suffixes(strip_suffixes(url_tail(url), ".git"@), "/"@);
    let parts = split_by(trimmed, seq!['/'], false);
    if parts.len() >= 2 {
        Some(parts[parts.len() - 2] + "/"@ + parts[parts.len() - 1])
    } else {
        None
    }
}

/// Understands both `https://host/owner/name.git` and `git@host:owner/name.git`.
pub fn repo_from_url(url: &str) -> (r: RepoRef)
    ensures
        r.provider == provider_of(url@),
        match r.slug {
            Some(s) => slug_of(url@) == Some(s@),
            None => slug_of(url@) is None,
        },
        r.remote_url matches Some(u) && u@ == url@,
{
    let text = chars_of(url);
    let github = chars_of("github.com");
    let gitlab = chars_of("gitlab.com");
    let provider = if contains(text.as_slice(), github.as_slice()) {
        RepoProvider::GitHub
    } else if contains(text.as_slice(), gitlab.as_slice()) {
        RepoProvider::GitLab
    } else {
        RepoProvider::Other
    };
    let https = chars_of("https");
    let http = chars_of("http");
    proof {
        lemma_last_index_of(text@, ':');
    }
    let tail = match rfind_char(text.as_slice(), ':') {
        Some(i) => {
            let n = text.len();
            assert(i < n);
            let head = slice_of(text.as_slice(), 0, i);
            assert(head@ =~= text@.take(i as int));
            if !ends_with(head.as_slice(), https.as_slice()) && !ends_with(head.as_slice(), http.as_slice()) {
                let t = slice_of(text.as_slice(), i + 1, text.len());
                assert(t@ =~= text@.skip(i + 1));
                t
            } else {
                slice_of(text.as_slice(), 0, text.len())
            }
        },
        None => slice_of(text.as_slice(), 0, text.len()),
    };
    assert(text@.subrange(0, text@.len() as int) =~= text@);
    let git = chars_of(".git");
    let slash = chars_of("/");
    let no_git = strip_suffixes_of(tail.as_slice(), git.as_slice());
    let trimmed = strip_suffixes_of(no_git.as_slice(), slash.as_slice());
    let sep = vec!['/'];
    assert(sep@ =~= seq!['/']);
    let parts = split_of(trimmed.as_slice(), sep.as_slice(), false);
    let slug = if parts.len() >= 2 {
        let n = parts.len();
        let first = concat(parts[n - 2].as_slice(), slash.as_slice());
        let whole = concat(first.as_slice(), parts[n - 1].as_slice());
        assert(views(parts@)[n - 2] == parts@[n - 2]@);
        assert(views(parts@)[n - 1] == parts@[n - 1]@);
        Some(string_of(whole.as_slice()))
    } else {
        None
    };
    RepoRef { provider, slug, remote_url: Some(url.to_owned()) }
}

/// Where reading `.git/config` has got to: inside the `[remote "origin"]` section or not,
/// and the URL once found.
pub open spec fn origin_scan(ls: Seq<Seq<char>>) -> (bool, Option<Seq<char>>)
    decreases ls.len(),
{
    if ls.len() == 0 {
        (false, None)
    } else {
        let (in_origin, found) = origin_scan(ls.drop_last());
        let line = trim(ls.last());
        if found is Some {
            (in_origin, found)
        } else if has_prefix(line, "["@) {
            (has_prefix(line, "[remote \"origin\"]"@), None)
        } else if in_origin && has_prefix(line, "url = "@) {
            (in_origin, Some(trim(line.skip(6))))
        } else if in_origin && has_prefix(line, "url="@) {
            (in_origin, Some(trim(line.skip(4))))
        } else {
            (in_origin, None)
        }
    }
}

/// The origin remote's URL in a `.git/config`, if it declares one.
pub open spec fn origin_url(git_config: Seq<char>) -> Option<Seq<char>> {
    origin_scan(lines(git_config)).1
}

proof fn lemma_origin_found_stays(ls: Seq<Seq<char>>, k: int)
    requires
        0 <= k <= ls.len(),
        origin_scan(ls.take(k)).1 is Some,
    ensures
        origin_scan(ls).1 == origin_scan(ls.take(k)).1,
    decreases ls.len() - k,
{
    if k < ls.len() {
        assert(ls.take(k + 1).drop_last() =~= ls.take(k));
        lemma_origin_found_stays(ls, k + 1);
    } else {
        assert(ls.take(k) =~= ls);
    }
}

/// Reads the origin remote straight out of `.git/config` rather than asking git, so a scan
/// of a hundred directories does not spawn a hundred processes.
pub fn origin_of(git_config: &str) -> (r: Option<String>)
    ensures
        match r {
            Some(u) => origin_url(git_config@) == Some(u@),
            None => origin_url(git_config@) is None,
        },
{
    let text = chars_of(git_config);
    let ls = lines_of(text.as_slice());
    let ghost all = views(ls@);
    let open_bracket = chars_of("[");
    let origin_header = chars_of("[remote \"origin\"]");
    let spaced = chars_of("url = ");
    let tight = chars_of("url=");
    proof {
        reveal_strlit("url = ");
        reveal_strlit("url=");
    }
    let mut in_origin = false;
    let mut i: usize = 0;
    while i < ls.len()
        invariant
            i <= ls@.len(),
            all == views(ls@),
            all == lines(git_config@),
            open_bracket@ == "["@,
            origin_header@ == "[remote \"origin\"]"@,
            spaced@ == "url = "@,
            tight@ == "url="@,
            spaced@.len() == 6,
            tight@.len() == 4,
            origin_scan(all.take(i as int)) == (in_origin, None::<Seq<char>>),
        decreases ls@.len() - i,
    {
        proof {
            assert(all.take(i + 1).drop_last() =~= all.take(i as int));
            assert(all.take(i + 1).last() == ls@[i as int]@);
        }
        let line = trim_of(ls[i].as_slice());
        if starts_with(line.as_slice(), open_bracket.as_slice()) {
            in_origin = starts_with(line.as_slice(), origin_header.as_slice());
        } else if in_origin && starts_with(line.as_slice(), spaced.as_slice()) {
            let rest = slice_of(line.as_slice(), 6, line.len());
            assert(rest@ =~= line@.skip(6));
            let url = trim_of(rest.as_slice());
            proof {
                lemma_origin_found_stays(all, i + 1);
            }
            return Some(string_of(url.as_slice()));
        } else if in_origin && starts_with(line.as_slice(), tight.as_slice()) {
            let rest = slice_of(line.as_slice(), 4, line.len());
            assert(rest@ =~= line@.skip(4));
            let url = trim_of(rest.as_slice());
            proof {
                lemma_origin_found_stays(all, i + 1);
            }
            return Some(string_of(url.as_slice()));
        }
        i += 1;
    }
    assert(all.take(ls@.len() as int) =~= all);
    None
}

/// The repository a project's `.git/config` names as its origin, if any.
pub fn read_repo(git_config: Option<&str>) -> (r: Option<RepoRef>)
    ensures
        match git_config {
            Some(raw) => match origin_url(raw@) {
                Some(url) => r matches Some(repo) && repo.provider == provider_of(url)
                    && (repo.remote_url matches Some(u) && u@ == url) && match repo.slug {
                    Some(s) => slug_of(url) == Some(s@),
                    None => slug_of(url) is None,
                },
                None => r is None,
            },
            None => r is None,
        },
{
    match git_config {
        Some(raw) => match origin_of(raw) {
            Some(url) => Some(repo_from_url(url.as_str())),
            None => None,
        },
        None => None,
    }
}

/// A path as compared for identity: forward slashes, no trailing slash, lower case.
pub open spec fn path_key(p: Seq<char>) -> Seq<char> {
    lowered(strip_suffixes(p.map_values(|c: char| if c == '\\' { '/' } else { c }), "/"@))
}

fn normalise_path(p: &str) -> (r: String)
    ensures
        r@ == path_key(p@),
{
    let text = chars_of(p);
    let mut forward: Vec<char> = Vec::new();
    let mut i: usize = 0;
    while i < text.len()
        invariant
            i <= text@.len(),
            forward@ == text@.take(i as int).map_values(|c: char| if c == '\\' { '/' } else { c }),
        decreases text@.len() - i,
    {
        let c = text[i];
        forward.push(if c == '\\' { '/' } else { c });
        assert(text@.take(i + 1).map_values(|c: char| if c == '\\' { '/' } else { c })
            =~= text@.take(i as int).map_values(|c: char| if c == '\\' { '/' } else { c }).push(
            if c == '\\' { '/' } else { c },
        ));
        i += 1;
    }
    assert(text@.take(text@.len() as int) =~= text@);
    let slash = chars_of("/");
    let trimmed = strip_suffixes_of(forward.as_slice(), slash.as_slice());
    lowercase_of(string_of(trimmed.as_slice()).as_str())
}

/// Path comparison that tolerates the casing and separator differences Windows allows.
pub fn paths_equal(a: &str, b: &str) -> (r: bool)
    ensures
        r == (path_key(a@) == path_key(b@)),
{
    normalise_path(a) == normalise_path(b)
}


/// The pieces of a path other than `.`, in order.
pub open spec fn without_dots(ps: Seq<Seq<char>>) -> Seq<Seq<char>>
    decreases ps.len(),
{
    if ps.len() == 0 {
        ps
    } else if ps.last() == seq!['.'] {
        without_dots(ps.drop_last())
    } else {
        without_dots(ps.drop_last()).push(ps.last())
    }
}

/// One component as a key: a NUL, a tag giving its kind in the order `PathBuf` ranks kinds
/// (a parent `..` before a named piece), then for a named piece its text. No file name can
/// hold a NUL, and it comes before every other character, so keys of whole paths compare
/// component by component.
pub open spec fn piece_key(piece: Seq<char>) -> Seq<char> {
    if piece == seq!['.', '.'] {
        seq!['\u{0}', '\u{3}']
    } else {
        seq!['\u{0}', '\u{4}'] + piece
    }
}

/// Path pieces as keys, run together.
pub open spec fn parts_key(ps: Seq<Seq<char>>) -> Seq<char>
    decreases ps.len(),
{
    if ps.len() == 0 {
        Seq::empty()
    } else {
        parts_key(ps.drop_last()) + piece_key(ps.last())
    }
}

/// Whether a path starts at the root, with a separator.
pub open spec fn rooted(p: Seq<char>) -> bool {
    p.len() > 0 && (p[0] == '/' || p[0] == '\\')
}

/// Whether a path that does not start at the root starts with the current directory, `.`
/// alone or before a separator; that `.` is a component of its own, every later one is not.
pub open spec fn starts_here(p: Seq<char>) -> bool {
    &&& p.len() > 0
    &&& p[0] == '.'
    &&& p.len() == 1 || p[1] == '/' || p[1] == '\\'
}

/// A path as `PathBuf` compares it on Windows: by its components, so `/` and `\` are the
/// same separator and repeated and trailing separators do not count; a root, then a leading
/// current directory, then the pieces other than `.`, each ranked by kind before its text.
/// Two paths are the same directory when their keys are equal, and order as their keys do.
pub open spec fn root_key(p: Seq<char>) -> Seq<char> {
    (if rooted(p) {
        seq!['\u{0}', '\u{1}']
    } else if starts_here(p) {
        seq!['\u{0}', '\u{2}']
    } else {
        Seq::empty()
    }) + parts_key(without_dots(non_empty(split_by(p, seq!['/', '\\'], false))))
}

/// Computes `root_key`.
pub fn root_key_of(p: &str) -> (r: Vec<char>)
    ensures
        r@ == root_key(p@),
{
    let text = chars_of(p);
    let seps = vec!['/', '\\'];
    assert(seps@ =~= seq!['/', '\\']);
    let pieces = split_of(text.as_slice(), seps.as_slice(), false);
    let parts = non_empty_of(&pieces);
    let ghost all = views(parts@);
    let mut key: Vec<char> = Vec::new();
    let n = text.len();
    if n > 0 && (text[0] == '/' || text[0] == '\\') {
        key.push('\u{0}');
        key.push('\u{1}');
    } else if n > 0 && text[0] == '.' && (n == 1 || text[1] == '/' || text[1] == '\\') {
        key.push('\u{0}');
        key.push('\u{2}');
    }
    let ghost lead = key@;
    assert(lead =~= if rooted(p@) {
        seq!['\u{0}', '\u{1}']
    } else if starts_here(p@) {
        seq!['\u{0}', '\u{2}']
    } else {
        Seq::<char>::empty()
    });
    let mut i: usize = 0;
    while i < parts.len()
        invariant
            i <= parts@.len(),
            all == views(parts@),
            key@ == lead + parts_key(without_dots(all.take(i as int))),
        decreases parts@.len() - i,
    {
        let part = &parts[i];
        proof {
            assert(all.take(i + 1).drop_last() =~= all.take(i as int));
            assert(all.take(i + 1).last() == part@);
        }
        if part.len() == 1 && part[0] == '.' {
            assert(part@ =~= seq!['.']);
        } else {
            assert(part@ != seq!['.']);
            let mut piece: Vec<char> = Vec::new();
            piece.push('\u{0}');
            let joined = if part.len() == 2 && part[0] == '.' && part[1] == '.' {
                assert(part@ =~= seq!['.', '.']);
                piece.push('\u{3}');
                piece
            } else {
                assert(part@ != seq!['.', '.']);
                piece.push('\u{4}');
                concat(piece.as_slice(), part.as_slice())
            };
            assert(joined@ =~= piece_key(part@));
            let next = concat(key.as_slice(), joined.as_slice());
            proof {
                let w = without_dots(all.take(i as int));
                assert(without_dots(all.take(i + 1)) == w.push(part@));
                assert(w.push(part@).drop_last() =~= w);
                assert(next@ =~= lead + parts_key(w.push(part@)));
            }
            key = next;
        }
        i += 1;
    }
    assert(all.take(all.len() as int) =~= all);
    key
}

/// A directory the scan found that looks like a project.
pub struct Candidate {
    pub name: String,
    pub root: String,
    pub kind: ProjectKind,
    pub suggested_command: String,
    pub suggested_port: Option<u16>,
    pub repo: Option<RepoRef>,
    /// True when a project with this root is already in the config.
    pub already_known: bool,
}

/// A candidate for a project root. `root` is its path, `own` and `parent` the names of the
/// folder and of its parent, `package_json` and `git_config` the texts of those files when
/// they could be read.
pub fn build_candidate(
    root: &str,
    own: &str,
    parent: Option<&str>,
    kind: ProjectKind,
    package_json: Option<&str>,
    git_config: Option<&str>,
) -> (r: Candidate)
    ensures
        r.name@ == display(
            own@,
            match parent {
                Some(p) => Some(p@),
                None => None,
            },
        ),
        r.root@ == root@,
        r.kind == kind,
        r.suggested_command@ == suggested(
            kind,
            match package_json {
                Some(raw) => Some(raw@),
                None => None,
            },
        ),
        r.suggested_port == kind_port(kind),
        match git_config {
            Some(raw) => match origin_url(raw@) {
                Some(url) => r.repo matches Some(repo) && repo.provider == provider_of(url)
                    && (repo.remote_url matches Some(u) && u@ == url) && match repo.slug {
                    Some(s) => slug_of(url) == Some(s@),
                    None => slug_of(url) is None,
                },
                None => r.repo is None,
            },
            None => r.repo is None,
        },
        !r.already_known,
{
    Candidate {
        name: display_name(own, parent),
        root: root.to_owned(),
        kind,
        suggested_command: suggested_command(kind, package_json),
        suggested_port: kind.default_port(),
        repo: read_repo(git_config),
        already_known: false,
    }
}

/// The candidates in order of their roots.
pub open spec fn by_root(cs: Seq<Candidate>) -> Seq<Candidate> {
    sort_by_text(cs.map_values(|c: Candidate| (root_key(c.root@), c))).map_values(
        |e: (Seq<char>, Candidate)| e.1,
    )
}

/// The candidates with each run of roots naming the same directory reduced to its first.
pub open spec fn dedup_roots(cs: Seq<Candidate>) -> Seq<Candidate>
    decreases cs.len(),
{
    if cs.len() == 0 {
        cs
    } else if cs.len() >= 2 && root_key(cs[cs.len() - 2].root@) == root_key(cs.last().root@) {
        dedup_roots(cs.drop_last())
    } else {
        dedup_roots(cs.drop_last()).push(cs.last())
    }
}

/// Whether a root is one the configuration already has.
pub open spec fn is_known(root: Seq<char>, known: Seq<String>) -> bool {
    exists|k: int| 0 <= k < known.len() && path_key(#[trigger] known[k]@) == path_key(root)
}

/// The candidates flagged by whether their root is already known.
pub open spec fn marked(cs: Seq<Candidate>, known: Seq<String>) -> Seq<Candidate> {
    cs.map_values(|c: Candidate| Candidate { already_known: is_known(c.root@, known), ..c })
}

/// The candidates in order of their lower-cased names, ties kept as they were.
pub open spec fn by_name(cs: Seq<Candidate>) -> Seq<Candidate> {
    sort_by_text(cs.map_values(|c: Candidate| (lowered(c.name@), c))).map_values(
        |e: (Seq<char>, Candidate)| e.1,
    )
}

/// What a scan reports from what it found under every root.
pub open spec fn tidied(found: Seq<Candidate>, known: Seq<String>) -> Seq<Candidate> {
    by_name(marked(dedup_roots(by_root(found)), known))
}

fn known_root(root: &str, known: &Vec<String>) -> (r: bool)
    ensures
        r == is_known(root@, known@),
{
    let mut k: usize = 0;
    while k < known.len()
        invariant
            k <= known@.len(),
            forall|j: int| 0 <= j < k ==> path_key(#[trigger] known@[j]@) != path_key(root@),
        decreases known@.len() - k,
    {
        if paths_equal(known[k].as_str(), root) {
            return true;
        }
        k += 1;
    }
    false
}

/// Tidies what a walk of every scan root found: the same directory can sit under two
/// overlapping roots, so duplicates go; candidates the config already has are flagged; the
/// rest is sorted by name, ignoring case.
pub fn scan(found: Vec<Candidate>, known: &Vec<String>) -> (r: Vec<Candidate>)
    ensures
        r@ == tidied(found@, known@),
{
    let ghost input = found@;
    // By root.
    let mut keyed: Vec<(Vec<char>, Candidate)> = Vec::new();
    let mut rest = found;
    let mut done: usize = 0;
    let n = rest.len();
    while rest.len() > 0
        invariant
            done + rest@.len() == input.len(),
            input.len() == n,
            rest@ == input.skip(done as int),
            text_keys_view(keyed@) == input.take(done as int).map_values(|c: Candidate| (root_key(c.root@), c)),
        decreases rest@.len(),
    {
        let c = rest.remove(0);
        proof {
            assert(c == input[done as int]);
            assert(input.skip(done + 1) =~= input.skip(done as int).drop_first());
        }
        let key = root_key_of(c.root.as_str());
        let ghost before = keyed@;
        keyed.push((key, c));
        proof {
            assert(text_keys_view(keyed@) =~= text_keys_view(before).push((root_key(c.root@), c)));
            assert(input.take(done + 1).map_values(|c: Candidate| (root_key(c.root@), c)) =~= input.take(
                done as int,
            ).map_values(|c: Candidate| (root_key(c.root@), c)).push((root_key(c.root@), c)));
        }
        done += 1;
    }
    assert(input.take(input.len() as int) =~= input);
    let sorted = stable_sort_text(keyed);
    let ghost s = sort_by_text(input.map_values(|c: Candidate| (root_key(c.root@), c)));
    assert(text_keys_view(sorted@) == s);
    // Without repeated roots, flagged.
    let ghost ordered = by_root(input);
    proof {
        let pairs = input.map_values(|c: Candidate| (root_key(c.root@), c));
        lemma_sort_text_elements(pairs);
        assert forall|k: int| 0 <= k < s.len() implies #[trigger] s[k].0 == root_key(s[k].1.root@) by {
            let j = choose|j: int| 0 <= j < pairs.len() && pairs[j] == s[k];
            assert(pairs[j] == (root_key(input[j].root@), input[j]));
        }
    }
    assert(ordered =~= s.map_values(|e: (Seq<char>, Candidate)| e.1));
    let mut rest = sorted;
    let mut deduped: Vec<Candidate> = Vec::new();
    let mut prev_root: Vec<char> = Vec::new();
    let mut i: usize = 0;
    while rest.len() > 0
        invariant
            i + rest@.len() == s.len(),
            s.len() == n,
            text_keys_view(rest@) == s.skip(i as int),
            ordered == s.map_values(|e: (Seq<char>, Candidate)| e.1),
            forall|k: int| 0 <= k < s.len() ==> #[trigger] s[k].0 == root_key(s[k].1.root@),
            i > 0 ==> prev_root@ == root_key(ordered[i - 1].root@),
            deduped@ == dedup_roots(ordered.take(i as int)),
        decreases rest@.len(),
    {
        let ghost before_rest = rest@;
        let (key, c) = rest.remove(0);
        proof {
            assert(text_keys_view(before_rest)[0] == (key@, c));
            assert(s[i as int] == (key@, c));
            assert(ordered[i as int] == c);
            assert(text_keys_view(rest@) =~= text_keys_view(before_rest).drop_first());
            assert(s.skip(i + 1) =~= s.skip(i as int).drop_first());
            assert(ordered.take(i + 1).drop_last() =~= ordered.take(i as int));
            assert(ordered.take(i + 1).last() == c);
            if i > 0 {
                assert(ordered.take(i + 1)[i - 1] == ordered[i - 1]);
            }
            assert(s[i as int].0 == root_key(s[i as int].1.root@));
            assert(key@ == root_key(c.root@));
            assert(ordered.take(i + 1).len() == i + 1);
        }
        let ghost dedup_before = deduped@;
        if i == 0 || !same(prev_root.as_slice(), key.as_slice()) {
            deduped.push(c);
        }
        proof {
            let t = ordered.take(i + 1);
            if i > 0 && prev_root@ == key@ {
                assert(root_key(t[t.len() - 2].root@) == root_key(t.last().root@));
                assert(deduped@ == dedup_roots(t));
            } else {
                assert(deduped@ == dedup_before.push(c));
                assert(deduped@ == dedup_roots(t));
            }
        }
        prev_root = key;
        i += 1;
    }
    assert(ordered.take(s.len() as int) =~= ordered);
    // Flagged, then by name.
    let ghost dd = deduped@;
    let ghost flagged = marked(dd, known@);
    let mut rest = deduped;
    let mut named: Vec<(Vec<char>, Candidate)> = Vec::new();
    let mut j: usize = 0;
    let d = rest.len();
    while rest.len() > 0
        invariant
            j + rest@.len() == dd.len(),
            dd.len() == d,
            rest@ == dd.skip(j as int),
            flagged == marked(dd, known@),
            text_keys_view(named@) == flagged.take(j as int).map_values(
                |c: Candidate| (lowered(c.name@), c),
            ),
        decreases rest@.len(),
    {
        let mut c = rest.remove(0);
        proof {
            assert(c == dd[j as int]);
            assert(dd.skip(j + 1) =~= dd.skip(j as int).drop_first());
        }
        c.already_known = known_root(c.root.as_str(), known);
        let key = chars_of(lowercase_of(c.name.as_str()).as_str());
        let ghost before = named@;
        named.push((key, c));
        proof {
            assert(c == flagged[j as int]);
            assert(text_keys_view(named@) =~= text_keys_view(before).push((lowered(c.name@), c)));
            assert(flagged.take(j + 1).map_values(|c: Candidate| (lowered(c.name@), c))
                =~= flagged.take(j as int).map_values(|c: Candidate| (lowered(c.name@), c)).push(
                (lowered(c.name@), c),
            ));
        }
        j += 1;
    }
    assert(flagged.take(dd.len() as int) =~= flagged);
    let by_names = stable_sort_text(named);
    let ghost s2 = text_keys_view(by_names@);
    let mut rest = by_names;
    let mut out: Vec<Candidate> = Vec::new();
    let mut k: usize = 0;
    let total = rest.len();
    while rest.len() > 0
        invariant
            k + rest@.len() == s2.len(),
            s2.len() == total,
            text_keys_view(rest@) == s2.skip(k as int),
            out@ == s2.take(k as int).map_values(|e: (Seq<char>, Candidate)| e.1),
        decreases rest@.len(),
    {
        let ghost before_rest = rest@;
        let (_, c) = rest.remove(0);
        proof {
            assert(text_keys_view(before_rest)[0].1 == c);
            assert(s2[k as int].1 == c);
            assert(text_keys_view(rest@) =~= text_keys_view(before_rest).drop_first());
            assert(s2.skip(k + 1) =~= s2.skip(k as int).drop_first());
        }
        out.push(c);
        assert(s2.take(k + 1).map_values(|e: (Seq<char>, Candidate)| e.1) =~= s2.take(k as int).map_values(
            |e: (Seq<char>, Candidate)| e.1,
        ).push(c));
        k += 1;
    }
    assert(s2.take(s2.len() as int) =~= s2);
    out
}


/// `p` is the project an accepted candidate becomes at position `order` in the rail: its
/// name, kind and repository, a local target at its root running its suggested command on
/// its suggested port, and nothing else set.
pub open spec fn imported(c: Candidate, order: int, p: Project) -> bool {
    &&& p.name == c.name
    &&& p.kind == c.kind
    &&& p.icon == crate::model::IconSource::Auto
    &&& p.accent is None
    &&& p.local matches Some(l) && {
        &&& l.root == c.root
        &&& l.command == c.suggested_command
        &&& l.env@.len() == 0
        &&& l.port == c.suggested_port
        &&& l.open_url is None
        &&& !l.autostart_with_oracle
    }
    &&& p.remote is None
    &&& p.repo == c.repo
    &&& p.tags@.len() == 0
    &&& !p.favorite
    &&& p.order == #[verifier::truncate] (order as i32)
    &&& p.notes is None
}

impl Config {
    /// Turns accepted scan candidates into projects at the end of the rail, in the order
    /// given, each with a fresh id. When the operating system's random source cannot deliver
    /// an id, none is imported and the error says so.
    pub fn import_candidates(&mut self, candidates: Vec<Candidate>) -> (r: Result<(), OracleError>)
        ensures
            r is Err ==> no_random_source(r->Err_0) && *final(self) == *old(self),
            r is Ok ==> {
                &&& final(self).projects@.len() == old(self).projects@.len() + candidates@.len()
                &&& final(self).projects@.take(old(self).projects@.len() as int) == old(self).projects@
                &&& forall|k: int|
                    0 <= k < candidates@.len() ==> {
                        let p = #[trigger] final(self).projects@[old(self).projects@.len() + k];
                        &&& uuid_text(p.id@)
                        &&& imported(candidates@[k], old(self).projects@.len() + k, p)
                    }
                &&& final(self).version == old(self).version
                &&& final(self).settings == old(self).settings
            },
    {
        let ghost start = self.projects@;
        let ghost cs = candidates@;
        let base = self.projects.len();
        let n = candidates.len();
        let mut rest = candidates;
        let mut made: Vec<Project> = Vec::new();
        let mut k: usize = 0;
        while rest.len() > 0
            invariant
                k + rest@.len() == cs.len(),
                cs.len() == n,
                rest@ == cs.skip(k as int),
                base == start.len(),
                self.projects@ == start,
                made@.len() == k,
                forall|m: int|
                    0 <= m < k ==> {
                        let p = #[trigger] made@[m];
                        &&& uuid_text(p.id@)
                        &&& imported(cs[m], start.len() + m, p)
                    },
            decreases rest@.len(),
        {
            let c = rest.remove(0);
            proof {
                assert(c == cs[k as int]);
                assert(cs.skip(k + 1) =~= cs.skip(k as int).drop_first());
            }
            let mut project = match Project::new(c.name) {
                Some(p) => p,
                None => {
                    return Err(no_random_source_error());
                },
            };
            let mut local = LocalTarget::new(c.root, c.suggested_command);
            local.port = c.suggested_port;
            project.kind = c.kind;
            project.repo = c.repo;
            let position: u128 = base as u128 + k as u128;
            project.order = #[verifier::truncate] (position as i32);
            project.local = Some(local);
            let ghost before = made@;
            made.push(project);
            proof {
                assert forall|m: int| 0 <= m < k + 1 implies {
                    let p = #[trigger] made@[m];
                    &&& uuid_text(p.id@)
                    &&& imported(cs[m], start.len() + m, p)
                } by {
                    if m < k {
                        assert(made@[m] == before[m]);
                    }
                }
            }
            k += 1;
        }
        let mut i: usize = 0;
        let ghost all = made@;
        let mut made = made;
        while made.len() > 0
            invariant
                i + made@.len() == all.len(),
                all.len() == n,
                made@ == all.skip(i as int),
                self.projects@ == start + all.take(i as int),
                self.version == old(self).version,
                self.settings == old(self).settings,
            decreases made@.len(),
        {
            let p = made.remove(0);
            proof {
                assert(p == all[i as int]);
                assert(all.skip(i + 1) =~= all.skip(i as int).drop_first());
                assert(all.take(i + 1) =~= all.take(i as int).push(p));
            }
            self.projects.push(p);
            i += 1;
        }
        proof {
            assert(all.take(n as int) =~= all);
            assert(self.projects@.take(start.len() as int) =~= start);
            assert forall|m: int| 0 <= m < n implies #[trigger] self.projects@[start.len() + m] == all[m] by {}
        }
        Ok(())
    }
}


/// Candidates in order of their roots.
pub open spec fn roots_sorted(cs: Seq<Candidate>) -> bool {
    forall|i: int, j: int|
        0 <= i < j < cs.len() ==> text_le(root_key(#[trigger] cs[i].root@), root_key(#[trigger] cs[j].root@))
}

/// No two candidates name the same directory, however their roots are spelled.
pub open spec fn roots_distinct(cs: Seq<Candidate>) -> bool {
    forall|i: int, j: int|
        0 <= i < j < cs.len() ==> root_key(#[trigger] cs[i].root@) != root_key(#[trigger] cs[j].root@)
}

proof fn lemma_by_root_sorted(cs: Seq<Candidate>)
    ensures
        roots_sorted(by_root(cs)),
        by_root(cs).len() == cs.len(),
{
    let keyed = cs.map_values(|c: Candidate| (root_key(c.root@), c));
    lemma_sort_text_sorted(keyed);
    lemma_sort_text_elements(keyed);
    let sorted = sort_by_text(keyed);
    let br = by_root(cs);
    assert forall|k: int| 0 <= k < sorted.len() implies #[trigger] sorted[k].0 == root_key(sorted[k].1.root@) by {
        let j = choose|j: int| 0 <= j < keyed.len() && keyed[j] == sorted[k];
        assert(keyed[j] == (root_key(cs[j].root@), cs[j]));
    }
    assert forall|i: int, j: int| 0 <= i < j < br.len() implies text_le(#[trigger] root_key(br[i].root@), #[trigger] root_key(br[j].root@)) by {
        assert(br[i] == sorted[i].1 && br[j] == sorted[j].1);
        assert(sorted[i].0 == root_key(sorted[i].1.root@));
        assert(sorted[j].0 == root_key(sorted[j].1.root@));
    }
}

proof fn lemma_dedup_members(cs: Seq<Candidate>)
    ensures
        forall|m: int| 0 <= m < dedup_roots(cs).len() ==> exists|k: int|
            0 <= k < cs.len() && cs[k] == #[trigger] dedup_roots(cs)[m],
    decreases cs.len(),
{
    if cs.len() > 0 {
        let t = cs.drop_last();
        lemma_dedup_members(t);
        let d = dedup_roots(cs);
        assert forall|m: int| 0 <= m < d.len() implies exists|k: int| 0 <= k < cs.len() && cs[k] == #[trigger] d[m] by {
            let dt = dedup_roots(t);
            if m < dt.len() {
                assert(d[m] == dt[m]);
                let k = choose|k: int| 0 <= k < t.len() && t[k] == dt[m];
                assert(cs[k] == t[k]);
            } else {
                assert(d[m] == cs[cs.len() - 1]);
            }
        }
    }
}

proof fn lemma_dedup_distinct(cs: Seq<Candidate>)
    requires
        roots_sorted(cs),
    ensures
        roots_distinct(dedup_roots(cs)),
    decreases cs.len(),
{
    if cs.len() > 0 {
        let t = cs.drop_last();
        assert(roots_sorted(t)) by {
            assert forall|i: int, j: int| 0 <= i < j < t.len() implies text_le(#[trigger] root_key(t[i].root@), #[trigger] root_key(t[j].root@)) by {
                assert(t[i] == cs[i] && t[j] == cs[j]);
            }
        }
        lemma_dedup_distinct(t);
        lemma_dedup_members(t);
        let dt = dedup_roots(t);
        if !(cs.len() >= 2 && root_key(cs[cs.len() - 2].root@) == root_key(cs.last().root@)) {
            let d = dt.push(cs.last());
            assert forall|i: int, j: int| 0 <= i < j < d.len() implies #[trigger] root_key(d[i].root@) != #[trigger] root_key(d[j].root@) by {
                if j == dt.len() {
                    let k = choose|k: int| 0 <= k < t.len() && t[k] == dt[i];
                    assert(d[i] == cs[k]);
                    let n = cs.len() - 1;
                    if root_key(cs[k].root@) == root_key(cs[n].root@) {
                        let p = n - 1;
                        assert(text_le(root_key(cs[p].root@), root_key(cs[n].root@)));
                        if k < p {
                            assert(text_le(root_key(cs[k].root@), root_key(cs[p].root@)));
                        }
                        lemma_text_le_antisymmetric(root_key(cs[p].root@), root_key(cs[n].root@));
                    }
                } else {
                    assert(d[i] == dt[i] && d[j] == dt[j]);
                }
            }
        }
    }
}

/// A scan flags a candidate as already known exactly when some configured root, at any place
/// in the list, names the same directory as the candidate's root.
pub proof fn lemma_scan_flags_every_known_root(found: Seq<Candidate>, known: Seq<String>)
    ensures
        forall|m: int|
            0 <= m < tidied(found, known).len() ==> ((#[trigger] tidied(found, known)[m]).already_known
                <==> exists|j: int|
                0 <= j < known.len() && path_key(known[j]@) == path_key(
                    tidied(found, known)[m].root@,
                )),
{
    let dd = dedup_roots(by_root(found));
    let mk = marked(dd, known);
    let keyed = mk.map_values(|c: Candidate| (lowered(c.name@), c));
    lemma_sort_text_elements(keyed);
    let sorted = sort_by_text(keyed);
    let out = tidied(found, known);
    assert forall|m: int| 0 <= m < out.len() implies ((#[trigger] out[m]).already_known <==> exists|j: int|
        0 <= j < known.len() && path_key(known[j]@) == path_key(out[m].root@)) by {
        assert(out[m] == sorted[m].1);
        let j = choose|j: int| 0 <= j < keyed.len() && keyed[j] == sorted[m];
        assert(keyed[j].1 == mk[j]);
        assert(mk[j].already_known == is_known(dd[j].root@, known));
        assert(mk[j].root == dd[j].root);
        if out[m].already_known {
            let k = choose|k: int| 0 <= k < known.len() && path_key(#[trigger] known[k]@) == path_key(
                out[m].root@,
            );
            assert(0 <= k < known.len() && path_key(known[k]@) == path_key(out[m].root@));
        }
        if exists|k: int| 0 <= k < known.len() && path_key(known[k]@) == path_key(out[m].root@) {
            let k = choose|k: int| 0 <= k < known.len() && path_key(known[k]@) == path_key(out[m].root@);
            assert(path_key(known[k]@) == path_key(dd[j].root@));
        }
    }
}

/// A scan reports every directory once, however many scan roots overlap on it and however
/// its path is spelled: no two candidates' roots name the same directory.
pub proof fn lemma_scan_roots_distinct(found: Seq<Candidate>, known: Seq<String>)
    ensures
        roots_distinct(tidied(found, known)),
{
    let br = by_root(found);
    lemma_by_root_sorted(found);
    lemma_dedup_distinct(br);
    let dd = dedup_roots(br);
    let mk = marked(dd, known);
    assert(roots_distinct(mk)) by {
        assert forall|i: int, j: int| 0 <= i < j < mk.len() implies #[trigger] root_key(mk[i].root@) != #[trigger] root_key(mk[j].root@) by {
            assert(mk[i].root == dd[i].root && mk[j].root == dd[j].root);
        }
    }
    let keyed = mk.map_values(|c: Candidate| (lowered(c.name@), c));
    let f = |c: Candidate| root_key(c.root@);
    assert(distinct_by(keyed, f)) by {
        assert forall|a: int, b: int| 0 <= a < b < keyed.len() implies f(#[trigger] keyed[a].1) != f(#[trigger] keyed[b].1) by {
            assert(keyed[a].1 == mk[a] && keyed[b].1 == mk[b]);
        }
    }
    lemma_sort_text_distinct(keyed, f);
    lemma_sort_text_elements(keyed);
    let sorted = sort_by_text(keyed);
    let out = tidied(found, known);
    assert forall|i: int, j: int| 0 <= i < j < out.len() implies #[trigger] root_key(out[i].root@) != #[trigger] root_key(out[j].root@) by {
        assert(out[i] == sorted[i].1 && out[j] == sorted[j].1);
    }
}

} // verus!
