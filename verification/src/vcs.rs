//! Git status, read from `git status --porcelain=v2 --branch` and `git log -1`.
//!
//! Running git is the caller's part; this module turns what git printed into a status.
use vstd::prelude::*;
use crate::error::OracleError;
use crate::text::{
    chars_of, string_of, lines, lines_of, views, words, words_of, has_prefix, starts_with, trim,
    trim_of, slice_of, same, parse_u32, parse_u32_spec, parse_i64, parse_i64_spec, split_by,
    split_of, lemma_lines_append,
};

verus! {

pub struct GitStatus {
    pub branch: Option<String>,
    pub upstream: Option<String>,
    pub ahead: u32,
    pub behind: u32,
    /// Number of files with staged or unstaged changes, including untracked.
    pub dirty_files: u32,
    pub last_commit: Option<Commit>,
}

pub struct Commit {
    pub hash: String,
    pub subject: String,
    pub author: String,
    /// Unix seconds.
    pub at: i64,
}

impl GitStatus {
    pub fn is_clean(&self) -> (r: bool)
        ensures
            r == (self.dirty_files == 0),
    {
        self.dirty_files == 0
    }
}

/// What the porcelain header and body say, before any commit is attached.
pub struct StatusFacts {
    pub branch: Option<Seq<char>>,
    pub upstream: Option<Seq<char>>,
    pub ahead: u32,
    pub behind: u32,
    pub dirty: int,
}

pub open spec fn no_facts() -> StatusFacts {
    StatusFacts { branch: None, upstream: None, ahead: 0, behind: 0, dirty: 0 }
}

/// The tokens of a `branch.ab` header, `+3 -1`, read left to right.
pub open spec fn ab_tokens(st: StatusFacts, tokens: Seq<Seq<char>>) -> StatusFacts
    decreases tokens.len(),
{
    if tokens.len() == 0 {
        st
    } else {
        let before = ab_tokens(st, tokens.drop_last());
        let t = tokens.last();
        if has_prefix(t, "+"@) {
            StatusFacts { ahead: parse_u32_spec(t.skip(1)).unwrap_or(0), ..before }
        } else if has_prefix(t, "-"@) {
            StatusFacts { behind: parse_u32_spec(t.skip(1)).unwrap_or(0), ..before }
        } else {
            before
        }
    }
}

/// One porcelain line. Headers start with `# `; every other non-blank line is a path.
pub open spec fn status_line(st: StatusFacts, line: Seq<char>) -> StatusFacts {
    if has_prefix(line, "# "@) {
        let ws = words(line.skip(2));
        if ws.len() == 0 {
            st
        } else if ws[0] == "branch.head"@ {
            // "(detached)" is git's own marker, not a branch name.
            StatusFacts {
                branch: if ws.len() > 1 && ws[1] != "(detached)"@ {
                    Some(ws[1])
                } else {
                    None
                },
                ..st
            }
        } else if ws[0] == "branch.upstream"@ {
            StatusFacts {
                upstream: if ws.len() > 1 {
                    Some(ws[1])
                } else {
                    None
                },
                ..st
            }
        } else if ws[0] == "branch.ab"@ {
            ab_tokens(st, ws.skip(1))
        } else {
            st
        }
    } else if trim(line).len() > 0 {
        StatusFacts { dirty: st.dirty + 1, ..st }
    } else {
        st
    }
}

/// The lines read in order.
pub open spec fn status_lines(ls: Seq<Seq<char>>) -> StatusFacts
    decreases ls.len(),
{
    if ls.len() == 0 {
        no_facts()
    } else {
        status_line(status_lines(ls.drop_last()), ls.last())
    }
}

/// What porcelain v2 output says.
pub open spec fn status_facts(raw: Seq<char>) -> StatusFacts {
    status_lines(lines(raw))
}

pub open spec fn text_option(o: Option<String>) -> Option<Seq<char>> {
    match o {
        Some(s) => Some(s@),
        None => None,
    }
}

proof fn lemma_ab_keeps(st: StatusFacts, tokens: Seq<Seq<char>>)
    ensures
        ab_tokens(st, tokens).dirty == st.dirty,
        ab_tokens(st, tokens).branch == st.branch,
        ab_tokens(st, tokens).upstream == st.upstream,
    decreases tokens.len(),
{
    if tokens.len() > 0 {
        lemma_ab_keeps(st, tokens.drop_last());
    }
}

proof fn lemma_line_dirty(st: StatusFacts, line: Seq<char>)
    ensures
        st.dirty <= status_line(st, line).dirty <= st.dirty + 1,
{
    if has_prefix(line, "# "@) {
        let ws = words(line.skip(2));
        if ws.len() > 0 && ws[0] == "branch.ab"@ {
            lemma_ab_keeps(st, ws.skip(1));
        }
    }
}

/// The dirty count is one per changed-path line of the output, whatever kind of entry it is
/// (ordinary, renamed or copied, unmerged, untracked): an output with no lines has none,
/// one more line that is neither a `# ` header nor blank adds exactly one, and a header or
/// blank line adds none.
pub proof fn lemma_each_entry_line_is_one_dirty_file(raw: Seq<char>, line: Seq<char>)
    requires
        raw.len() == 0 || raw.last() == '\n',
        !line.contains('\n'),
        line.len() == 0 || line.last() != '\r',
    ensures
        status_facts(Seq::empty()).dirty == 0,
        !has_prefix(line, "# "@) && trim(line).len() > 0 ==> status_facts(raw + line.push('\n')).dirty
            == status_facts(raw).dirty + 1,
        has_prefix(line, "# "@) || trim(line).len() == 0 ==> status_facts(raw + line.push('\n')).dirty
            == status_facts(raw).dirty,
{
    lemma_lines_append(raw, line);
    let ls = lines(raw);
    assert(ls.push(line).drop_last() =~= ls);
    let st = status_lines(ls);
    if has_prefix(line, "# "@) {
        let ws = words(line.skip(2));
        if ws.len() > 0 && ws[0] == "branch.ab"@ {
            lemma_ab_keeps(st, ws.skip(1));
        }
    }
    assert(split_by(Seq::<char>::empty(), seq!['\n'], false) == seq![Seq::<char>::empty()]);
    assert(lines(Seq::<char>::empty()) =~= Seq::<Seq<char>>::empty());
}

fn ab_step(st: &mut GitStatus, tokens: &Vec<Vec<char>>, Ghost(facts): Ghost<StatusFacts>)
    -> (r: Ghost<StatusFacts>)
    requires
        text_option(old(st).branch) == facts.branch,
        text_option(old(st).upstream) == facts.upstream,
        old(st).ahead == facts.ahead,
        old(st).behind == facts.behind,
        old(st).dirty_files == facts.dirty,
        tokens@.len() >= 1,
    ensures
        r@ == ab_tokens(facts, views(tokens@).skip(1)),
        text_option(final(st).branch) == r@.branch,
        text_option(final(st).upstream) == r@.upstream,
        final(st).ahead == r@.ahead,
        final(st).behind == r@.behind,
        final(st).dirty_files == r@.dirty,
        final(st).last_commit == old(st).last_commit,
{
    let ghost toks = views(tokens@).skip(1);
    let plus = chars_of("+");
    let minus = chars_of("-");
    proof {
        reveal_strlit("+");
        reveal_strlit("-");
    }
    let mut k: usize = 1;
    while k < tokens.len()
        invariant
            1 <= k <= tokens@.len(),
            toks == views(tokens@).skip(1),
            plus@ == "+"@,
            minus@ == "-"@,
            plus@.len() == 1,
            minus@.len() == 1,
            text_option(st.branch) == ab_tokens(facts, toks.take(k - 1)).branch,
            text_option(st.upstream) == ab_tokens(facts, toks.take(k - 1)).upstream,
            st.ahead == ab_tokens(facts, toks.take(k - 1)).ahead,
            st.behind == ab_tokens(facts, toks.take(k - 1)).behind,
            st.dirty_files == ab_tokens(facts, toks.take(k - 1)).dirty,
            st.last_commit == old(st).last_commit,
        decreases tokens@.len() - k,
    {
        proof {
            assert(toks.take(k as int).drop_last() =~= toks.take(k - 1));
            assert(toks.take(k as int).last() == tokens@[k as int]@);
        }
        let t = &tokens[k];
        if starts_with(t.as_slice(), plus.as_slice()) {
            let rest = slice_of(t.as_slice(), 1, t.len());
            assert(rest@ =~= t@.skip(1));
            st.ahead = match parse_u32(rest.as_slice()) {
                Some(v) => v,
                None => 0,
            };
        } else if starts_with(t.as_slice(), minus.as_slice()) {
            let rest = slice_of(t.as_slice(), 1, t.len());
            assert(rest@ =~= t@.skip(1));
            st.behind = match parse_u32(rest.as_slice()) {
                Some(v) => v,
                None => 0,
            };
        }
        k += 1;
    }
    assert(toks.take(k - 1) =~= toks);
    Ghost(ab_tokens(facts, toks))
}

/// Parses porcelain v2 output. Header lines start with `#`, everything else is one line
/// per changed path.
pub fn parse_status(raw: &str) -> (r: GitStatus)
    requires
        raw@.len() < u32::MAX,
    ensures
        text_option(r.branch) == status_facts(raw@).branch,
        text_option(r.upstream) == status_facts(raw@).upstream,
        r.ahead == status_facts(raw@).ahead,
        r.behind == status_facts(raw@).behind,
        r.dirty_files == status_facts(raw@).dirty,
        r.last_commit is None,
{
    let mut st = GitStatus {
        branch: None,
        upstream: None,
        ahead: 0,
        behind: 0,
        dirty_files: 0,
        last_commit: None,
    };
    let text = chars_of(raw);
    let ls = lines_of(text.as_slice());
    let ghost all = views(ls@);
    let hash_space = chars_of("# ");
    proof {
        reveal_strlit("# ");
    }
    let head = chars_of("branch.head");
    let upstream = chars_of("branch.upstream");
    let ab = chars_of("branch.ab");
    let detached = chars_of("(detached)");
    let mut i: usize = 0;
    while i < ls.len()
        invariant
            i <= ls@.len(),
            ls@.len() <= raw@.len() + 1,
            raw@.len() < u32::MAX,
            all == views(ls@),
            hash_space@ == "# "@,
            hash_space@.len() == 2,
            head@ == "branch.head"@,
            upstream@ == "branch.upstream"@,
            ab@ == "branch.ab"@,
            detached@ == "(detached)"@,
            text_option(st.branch) == status_lines(all.take(i as int)).branch,
            text_option(st.upstream) == status_lines(all.take(i as int)).upstream,
            st.ahead == status_lines(all.take(i as int)).ahead,
            st.behind == status_lines(all.take(i as int)).behind,
            st.dirty_files == status_lines(all.take(i as int)).dirty,
            status_lines(all.take(i as int)).dirty <= i,
            st.last_commit is None,
        decreases ls@.len() - i,
    {
        let ghost facts = status_lines(all.take(i as int));
        proof {
            assert(all.take(i + 1).drop_last() =~= all.take(i as int));
            assert(all.take(i + 1).last() == ls@[i as int]@);
            lemma_line_dirty(facts, ls@[i as int]@);
        }
        let line = &ls[i];
        if starts_with(line.as_slice(), hash_space.as_slice()) {
            let header = slice_of(line.as_slice(), 2, line.len());
            assert(header@ =~= line@.skip(2));
            let ws = words_of(header.as_slice());
            if ws.len() > 0 {
                if same(ws[0].as_slice(), head.as_slice()) {
                    if ws.len() > 1 && !same(ws[1].as_slice(), detached.as_slice()) {
                        st.branch = Some(string_of(ws[1].as_slice()));
                    } else {
                        st.branch = None;
                    }
                } else if same(ws[0].as_slice(), upstream.as_slice()) {
                    if ws.len() > 1 {
                        st.upstream = Some(string_of(ws[1].as_slice()));
                    } else {
                        st.upstream = None;
                    }
                } else if same(ws[0].as_slice(), ab.as_slice()) {
                    let _ = ab_step(&mut st, &ws, Ghost(facts));
                }
            }
        } else {
            let trimmed = trim_of(line.as_slice());
            if trimmed.len() > 0 {
                st.dirty_files = st.dirty_files + 1;
            }
        }
        i += 1;
    }
    assert(all.take(ls@.len() as int) =~= all);
    st
}

/// What a `git log -1 --format=%h%x1f%s%x1f%an%x1f%ct` line says: hash, subject, author,
/// and the commit time (zero when it does not parse).
pub open spec fn commit_fields(raw: Seq<char>) -> Option<(Seq<char>, Seq<char>, Seq<char>, i64)> {
    let line = trim(raw);
    let fields = split_by(line, seq!['\x1f'], false);
    if line.len() == 0 || fields.len() != 4 {
        None
    } else {
        Some((fields[0], fields[1], fields[2], parse_i64_spec(fields[3]).unwrap_or(0)))
    }
}

/// Splits a commit line on the unit separator, which cannot appear in a commit subject.
pub fn parse_commit(raw: &str) -> (r: Option<Commit>)
    ensures
        match commit_fields(raw@) {
            Some((hash, subject, author, at)) => r is Some && r->0.hash@ == hash
                && r->0.subject@ == subject && r->0.author@ == author && r->0.at == at,
            None => r is None,
        },
{
    let text = chars_of(raw);
    let line = trim_of(text.as_slice());
    if line.len() == 0 {
        return None;
    }
    let sep = vec!['\x1f'];
    let fields = split_of(line.as_slice(), sep.as_slice(), false);
    assert(sep@ =~= seq!['\x1f']);
    if fields.len() != 4 {
        return None;
    }
    let at = match parse_i64(fields[3].as_slice()) {
        Some(v) => v,
        None => 0,
    };
    Some(
        Commit {
            hash: string_of(fields[0].as_slice()),
            subject: string_of(fields[1].as_slice()),
            author: string_of(fields[2].as_slice()),
            at,
        },
    )
}

/// Whether `git --version` printed what a git installation prints.
pub fn is_available(version_output: Option<&str>) -> (r: bool)
    ensures
        r == (version_output matches Some(out) && has_prefix(out@, "git version"@)),
{
    match version_output {
        Some(out) => {
            let text = chars_of(out);
            let prefix = chars_of("git version");
            starts_with(text.as_slice(), prefix.as_slice())
        },
        None => false,
    }
}

/// What running git for a status came to.
pub enum GitRead {
    /// No git on this machine.
    Missing,
    /// The directory holds no repository.
    NotARepository,
    /// `git status` failed; its trimmed error output.
    Failed(String),
    /// `git status` output, and `git log -1` output unless that failed (an empty repository
    /// has no commits, which git reports as a failure).
    Read { status: String, log: Option<String> },
}

/// The status of a repository, from what running git produced.
///
/// A directory that is not a repository is a normal state, not an error.
pub fn status(read: GitRead) -> (r: Result<Option<GitStatus>, OracleError>)
    requires
        read matches GitRead::Read { status, .. } ==> status@.len() < u32::MAX,
    ensures
        match read {
            GitRead::Missing => r matches Err(OracleError::GitMissing),
            GitRead::NotARepository => r matches Ok(None),
            GitRead::Failed(msg) => r matches Err(OracleError::Git(m)) && m == msg,
            GitRead::Read { status, log } => r matches Ok(Some(st)) && {
                let facts = status_facts(status@);
                &&& text_option(st.branch) == facts.branch
                &&& text_option(st.upstream) == facts.upstream
                &&& st.ahead == facts.ahead
                &&& st.behind == facts.behind
                &&& st.dirty_files == facts.dirty
                &&& match log {
                    Some(l) => match commit_fields(l@) {
                        Some((hash, subject, author, at)) => st.last_commit matches Some(c)
                            && c.hash@ == hash && c.subject@ == subject && c.author@ == author
                            && c.at == at,
                        None => st.last_commit is None,
                    },
                    None => st.last_commit is None,
                }
            },
        },
{
    match read {
        GitRead::Missing => Err(OracleError::GitMissing),
        GitRead::NotARepository => Ok(None),
        GitRead::Failed(msg) => Err(OracleError::Git(msg)),
        GitRead::Read { status, log } => {
            let mut st = parse_status(status.as_str());
            st.last_commit = match log {
                Some(l) => parse_commit(l.as_str()),
                None => None,
            };
            Ok(Some(st))
        },
    }
}

} // verus!
